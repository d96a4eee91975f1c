//! Pixel-level data: positions, displayable colors, the per-pixel sample
//! cache, and the convergence (same-color-streak) state machine.
//!
//! Radiance is stored as fixed-point integers: a channel value of
//! [`CHANNEL_SCALE`] stands for a linear radiance of 1.0. Resolving a channel
//! averages the accumulated sum, clamps it to `[0, CHANNEL_SCALE]`, and takes
//! the integer square root, which is exactly `floor(sqrt(c) * 255)` for a
//! clamped linear channel `c` in `[0, 1]`: the gamma-approximated 8-bit value.

use vstd::prelude::*;

verus! {

/// Fixed-point representation of a linear radiance of 1.0 (255 * 255), chosen
/// so that gamma resolution is a plain integer square root.
pub const CHANNEL_SCALE: u64 = 65025;

/// How many consecutive identical resolutions a pixel may show before the
/// next one marks it converged.
pub const MAX_SIMILAR_SAMPLE_FOR_A_PIXEL: u8 = 3;

/// A pixel location on the render target, 0-based.
#[derive(Clone, Copy, Debug, PartialEq, Eq, Structural)]
pub struct PixelPosition {
    pub x: usize,
    pub y: usize,
}

/// A pixel location together with its row-major index into the cache.
#[derive(Clone, Copy, Debug, PartialEq, Eq, Structural)]
pub struct PixelCachePosition {
    pub x: usize,
    pub y: usize,
    pub index: usize,
}

/// Render-target dimensions in pixels.
#[derive(Clone, Copy, Debug, PartialEq, Eq, Structural)]
pub struct Dimensions {
    pub width: usize,
    pub height: usize,
}

/// Payload of the eager color-propagation state: rectilinear distance from
/// the pixel whose color was copied here.
#[derive(Clone, Copy, Debug, PartialEq, Eq, Structural)]
pub struct CopyNearPixel {
    pub distance: usize,
}

/// Lifecycle of a pixel: untouched, eagerly painted from a neighbor,
/// actively sampled, or converged.
#[derive(Clone, Copy, Debug, PartialEq, Eq, Structural)]
pub enum GenerationStatus {
    NotStarted,
    CopyNearPixel(CopyNearPixel),
    Unstable,
    Final,
}

/// Accumulated (unnormalized) radiance of a pixel, fixed-point per channel:
/// [`CHANNEL_SCALE`] stands for 1.0.
#[derive(Clone, Copy, Debug, PartialEq, Eq, Structural)]
pub struct RawLight {
    pub r: u64,
    pub g: u64,
    pub b: u64,
}

/// A resolved, displayable 8-bit color, tagged with the lifecycle state the
/// pixel had when the color was produced.
#[derive(Clone, Copy, Debug)]
pub struct PixelColor {
    pub r: u8,
    pub g: u8,
    pub b: u8,
    pub status: GenerationStatus,
}

impl PixelColor {
    /// True when the displayable channels agree; the status tag is not part
    /// of color identity.
    pub open spec fn same_rgb(self, other: PixelColor) -> bool {
        self.r == other.r && self.g == other.g && self.b == other.b
    }
}

impl PartialEq for PixelColor {
    fn eq(&self, other: &Self) -> (r: bool) {
        self.r == other.r && self.g == other.g && self.b == other.b
    }
}

impl vstd::std_specs::cmp::PartialEqSpecImpl for PixelColor {
    open spec fn obeys_eq_spec() -> bool {
        true
    }

    open spec fn eq_spec(&self, other: &Self) -> bool {
        self.same_rgb(*other)
    }
}

/// The sink the host implements: receives resolved pixel writes and the
/// signal that all previously written pixels are stale.
pub trait PixelRenderer {
    fn set_pixel(&mut self, pos: PixelPosition, color: PixelColor);

    fn invalidate_pixels(&mut self);
}

/// Row-major index of `(x, y)` on a `width x height` target, `None` when the
/// position lies outside the target.
pub fn get_index(x: usize, y: usize, width: usize, height: usize) -> (r: Option<usize>)
    requires
        width * height <= usize::MAX,
    ensures
        x < width && y < height ==> (r matches Some(i) && i == x + y * width),
        !(x < width && y < height) ==> r is None,
{
    if x >= width || y >= height {
        None
    } else {
        proof {
            assert(y * width + width <= height * width) by (nonlinear_arith)
                requires
                    y < height,
                    0 <= width,
            ;
        }
        Some(x + y * width)
    }
}

/// `r` is the integer square root of `v`.
pub open spec fn is_isqrt(v: int, r: int) -> bool {
    0 <= r && r * r <= v && v < (r + 1) * (r + 1)
}

/// The integer square root, as a mathematical function.
pub open spec fn spec_isqrt(v: int) -> int {
    choose|r: int| is_isqrt(v, r)
}

pub proof fn lemma_isqrt_unique(v: int, r1: int, r2: int)
    requires
        is_isqrt(v, r1),
        is_isqrt(v, r2),
    ensures
        r1 == r2,
{
    assert(r1 == r2) by (nonlinear_arith)
        requires
            0 <= r1 && r1 * r1 <= v && v < (r1 + 1) * (r1 + 1),
            0 <= r2 && r2 * r2 <= v && v < (r2 + 1) * (r2 + 1),
    ;
}

/// Integer square root of a value no larger than 255 * 255.
pub fn isqrt255(v: u64) -> (r: u8)
    requires
        v <= CHANNEL_SCALE,
    ensures
        is_isqrt(v as int, r as int),
        r as int == spec_isqrt(v as int),
{
    let mut r: u8 = 0;
    loop
        invariant
            v <= CHANNEL_SCALE,
            (r as int) * (r as int) <= v as int,
            r <= 255,
        ensures
            (r as int) * (r as int) <= v as int,
            (v as int) < ((r as int) + 1) * ((r as int) + 1),
        decreases 256 - r as int,
    {
        let next: u64 = (r as u64) + 1;
        proof {
            assert(next * next <= 65536) by (nonlinear_arith)
                requires
                    next <= 256,
            ;
        }
        let sq: u64 = next * next;
        if sq <= v {
            proof {
                assert(next <= 255) by (nonlinear_arith)
                    requires
                        next * next <= 65025,
                        1 <= next,
                ;
            }
            r = r + 1;
        } else {
            break;
        }
    }
    proof {
        assert(exists|q: int| is_isqrt(v as int, q)) by {
            assert(is_isqrt(v as int, r as int));
        }
        lemma_isqrt_unique(v as int, r as int, spec_isqrt(v as int));
    }
    r
}

/// The accumulated channel sum `raw`, averaged over `n` samples and clamped
/// to the fixed-point range of one radiance unit.
pub open spec fn clamped_mean(raw: u64, n: u64) -> int
    recommends
        n >= 1,
{
    let mean = raw as int / n as int;
    if mean > CHANNEL_SCALE as int {
        CHANNEL_SCALE as int
    } else {
        mean
    }
}

/// The displayable 8-bit value of one channel: average, clamp, gamma.
pub open spec fn resolved_channel(raw: u64, n: u64) -> int
    recommends
        n >= 1,
{
    spec_isqrt(clamped_mean(raw, n))
}

/// Average, clamp and gamma-correct one accumulated channel.
pub fn resolve_channel(raw: u64, n: u64) -> (c: u8)
    requires
        n >= 1,
    ensures
        c as int == resolved_channel(raw, n),
        is_isqrt(clamped_mean(raw, n), c as int),
{
    let mean = raw / n;
    let clamped = if mean > CHANNEL_SCALE {
        CHANNEL_SCALE
    } else {
        mean
    };
    isqrt255(clamped)
}

/// The color that an accumulated radiance resolves to, tagged with `status`.
pub open spec fn spec_resolved_color(raw: RawLight, n: u64, status: GenerationStatus) -> PixelColor
    recommends
        n >= 1,
{
    PixelColor {
        r: resolved_channel(raw.r, n) as u8,
        g: resolved_channel(raw.g, n) as u8,
        b: resolved_channel(raw.b, n) as u8,
        status,
    }
}

/// One pixel's accumulation record: radiance sum, sample count, the color it
/// last resolved to, and the convergence streak.
#[derive(Clone, Copy, Debug)]
pub struct PixelCache {
    pub last_color: Option<PixelColor>,
    pub incremental_raw_light: Option<RawLight>,
    pub status: GenerationStatus,
    pub same_color_count: u8,
    pub nb_samples: u64,
}

impl PixelCache {
    /// The accumulated radiance, reading an untouched pixel as zero.
    pub open spec fn raw_or_zero(self) -> RawLight {
        match self.incremental_raw_light {
            Some(raw) => raw,
            None => RawLight { r: 0, g: 0, b: 0 },
        }
    }

    /// Internal consistency: a pixel has samples exactly when it has
    /// accumulated radiance and has left the untouched/eagerly-painted
    /// states; it has a resolved color exactly when it is sampled; and the
    /// streak tops out at the value that marks convergence.
    pub open spec fn wf(self) -> bool {
        &&& (self.nb_samples == 0 <==> self.incremental_raw_light is None)
        &&& (self.incremental_raw_light is None <==> (self.status is NotStarted
            || self.status is CopyNearPixel))
        &&& (self.last_color is Some <==> (self.status is Unstable || self.status is Final))
        &&& self.same_color_count <= MAX_SIMILAR_SAMPLE_FOR_A_PIXEL + 1
        &&& (self.status is Final <==> self.same_color_count == MAX_SIMILAR_SAMPLE_FOR_A_PIXEL
            + 1)
    }

    /// The state of a pixel that has never been sampled.
    pub open spec fn spec_fresh() -> PixelCache {
        PixelCache {
            last_color: None,
            incremental_raw_light: None,
            status: GenerationStatus::NotStarted,
            same_color_count: 0,
            nb_samples: 0,
        }
    }

    /// A pixel that has never been sampled.
    pub fn fresh() -> (c: PixelCache)
        ensures
            c == Self::spec_fresh(),
            c.wf(),
    {
        PixelCache {
            last_color: None,
            incremental_raw_light: None,
            status: GenerationStatus::NotStarted,
            same_color_count: 0,
            nb_samples: 0,
        }
    }

    /// The pixel state after folding `samples` new samples summing to
    /// `sample_sum` into `self`: radiance and count grow, the new mean is
    /// resolved, the streak grows on an identical resolution and resets on a
    /// differing one, and a streak past the threshold marks the pixel Final.
    pub open spec fn spec_accumulate(self, sample_sum: RawLight, samples: u64) -> PixelCache {
        let raw0 = self.raw_or_zero();
        let raw = RawLight {
            r: (raw0.r + sample_sum.r) as u64,
            g: (raw0.g + sample_sum.g) as u64,
            b: (raw0.b + sample_sum.b) as u64,
        };
        let n = (self.nb_samples + samples) as u64;
        let rr = resolved_channel(raw.r, n) as u8;
        let rg = resolved_channel(raw.g, n) as u8;
        let rb = resolved_channel(raw.b, n) as u8;
        let count = match self.last_color {
            Some(last) => if last.r == rr && last.g == rg && last.b == rb {
                (self.same_color_count + 1) as u8
            } else {
                0u8
            },
            None => 0u8,
        };
        let base_status = match self.last_color {
            Some(_) => self.status,
            None => GenerationStatus::Unstable,
        };
        let status = if count > MAX_SIMILAR_SAMPLE_FOR_A_PIXEL {
            GenerationStatus::Final
        } else {
            base_status
        };
        PixelCache {
            last_color: Some(PixelColor { r: rr, g: rg, b: rb, status }),
            incremental_raw_light: Some(raw),
            status,
            same_color_count: count,
            nb_samples: n,
        }
    }

    /// Fold `samples` new samples summing to `sample_sum` into this pixel and
    /// return the freshly resolved color, tagged with the new status.
    pub fn accumulate(&mut self, sample_sum: RawLight, samples: u64) -> (color: PixelColor)
        requires
            old(self).wf(),
            !(old(self).status is Final),
            samples >= 1,
            old(self).raw_or_zero().r + sample_sum.r <= u64::MAX,
            old(self).raw_or_zero().g + sample_sum.g <= u64::MAX,
            old(self).raw_or_zero().b + sample_sum.b <= u64::MAX,
            old(self).nb_samples + samples <= u64::MAX,
        ensures
            *final(self) == old(self).spec_accumulate(sample_sum, samples),
            final(self).wf(),
            final(self).last_color == Some(color),
            final(self).status is Unstable || final(self).status is Final,
    {
        let raw0 = match self.incremental_raw_light {
            Some(raw) => raw,
            None => RawLight { r: 0, g: 0, b: 0 },
        };
        let raw = RawLight {
            r: raw0.r + sample_sum.r,
            g: raw0.g + sample_sum.g,
            b: raw0.b + sample_sum.b,
        };
        let n = self.nb_samples + samples;
        let rr = resolve_channel(raw.r, n);
        let rg = resolve_channel(raw.g, n);
        let rb = resolve_channel(raw.b, n);
        let had_last = self.last_color.is_some();
        let count: u8 = match self.last_color {
            Some(last) => if last.r == rr && last.g == rg && last.b == rb {
                self.same_color_count + 1
            } else {
                0
            },
            None => 0,
        };
        if !had_last {
            self.status = GenerationStatus::Unstable;
        }
        self.same_color_count = count;
        if count > MAX_SIMILAR_SAMPLE_FOR_A_PIXEL {
            self.status = GenerationStatus::Final;
        }
        let color = PixelColor { r: rr, g: rg, b: rb, status: self.status };
        self.last_color = Some(color);
        self.incremental_raw_light = Some(raw);
        self.nb_samples = n;
        color
    }

    /// Resolve the displayable color of an already-sampled pixel without
    /// taking new samples. Two resolutions of the same accumulated state
    /// yield the same color, and the streak is untouched.
    pub fn resolve_color(&self) -> (c: PixelColor)
        requires
            self.wf(),
            self.nb_samples >= 1,
        ensures
            c == spec_resolved_color(self.raw_or_zero(), self.nb_samples, self.status),
    {
        let raw = match self.incremental_raw_light {
            Some(raw) => raw,
            None => RawLight { r: 0, g: 0, b: 0 },
        };
        let rr = resolve_channel(raw.r, self.nb_samples);
        let rg = resolve_channel(raw.g, self.nb_samples);
        let rb = resolve_channel(raw.b, self.nb_samples);
        PixelColor { r: rr, g: rg, b: rb, status: self.status }
    }
}

/// Resolution is a function of the accumulated radiance and sample count
/// alone: pixels in the same accumulated state resolve to the same color.
pub proof fn lemma_resolution_is_deterministic(a: PixelCache, b: PixelCache)
    requires
        a.raw_or_zero() == b.raw_or_zero(),
        a.nb_samples == b.nb_samples,
        a.status == b.status,
    ensures
        spec_resolved_color(a.raw_or_zero(), a.nb_samples, a.status) == spec_resolved_color(
            b.raw_or_zero(),
            b.nb_samples,
            b.status,
        ),
{
}

} // verus!
