//! Progressive path-tracer core: per-pixel sample accumulation with a
//! convergence heuristic, and a stochastic pixel-visitation scheduler.
//!
//! Radiance is carried in fixed-point integers (see [`pixel::RawLight`]);
//! the floating-point ray geometry that produces samples lives with the host,
//! which feeds sample sums into [`generator::RandomGenerator`].

pub mod generator;
pub mod laws;
pub mod pixel;
pub mod poisson;
pub mod rng;

pub use generator::get_positions_around;
pub use generator::GeneratorData;
pub use generator::RandomGenerator;
pub use pixel::get_index;
pub use pixel::CopyNearPixel;
pub use pixel::Dimensions;
pub use pixel::GenerationStatus;
pub use pixel::PixelCache;
pub use pixel::PixelCachePosition;
pub use pixel::PixelColor;
pub use pixel::PixelPosition;
pub use pixel::PixelRenderer;
pub use pixel::RawLight;
pub use poisson::Poisson;
pub use rng::shuffle;
pub use rng::SeededRng;
