use raytracer_core::get_index;
use raytracer_core::get_positions_around;
use raytracer_core::shuffle;
use raytracer_core::GenerationStatus;
use raytracer_core::PixelColor;
use raytracer_core::PixelPosition;
use raytracer_core::RandomGenerator;
use raytracer_core::RawLight;
use raytracer_core::SeededRng;

struct RecordingSink {
    writes: Vec<(PixelPosition, PixelColor)>,
    invalidations: usize,
}

impl RecordingSink {
    fn new() -> Self {
        RecordingSink { writes: Vec::new(), invalidations: 0 }
    }
}

impl raytracer_core::PixelRenderer for RecordingSink {
    fn set_pixel(&mut self, pos: PixelPosition, color: PixelColor) {
        self.writes.push((pos, color));
    }

    fn invalidate_pixels(&mut self) {
        self.invalidations += 1;
    }
}

#[test]
fn get_index_maps_row_major() {
    assert_eq!(get_index(0, 0, 4, 3), Some(0));
    assert_eq!(get_index(2, 1, 4, 3), Some(6));
    assert_eq!(get_index(3, 2, 4, 3), Some(11));
}

#[test]
fn get_index_rejects_out_of_range() {
    assert_eq!(get_index(4, 1, 4, 3), None);
    assert_eq!(get_index(1, 3, 4, 3), None);
    assert_eq!(get_index(100, 100, 4, 3), None);
}

#[test]
fn shuffle_preserves_elements() {
    let mut rng = SeededRng::from_seed(7);
    let mut v: Vec<usize> = (0..100).collect();
    shuffle(&mut v, &mut rng);
    assert_eq!(v.len(), 100);
    let mut sorted = v.clone();
    sorted.sort();
    let expected: Vec<usize> = (0..100).collect();
    assert_eq!(sorted, expected);
}

#[test]
fn full_pass_covers_every_pixel_once() {
    let width = 4;
    let height = 3;
    let mut rng = SeededRng::from_seed(42);
    let mut gen = RandomGenerator::new(width, height, &mut rng);

    let mut seen = vec![0usize; width * height];
    for step in 0..(width * height) {
        let pos = gen.get_pixel().expect("a full order is never empty");
        assert_eq!(pos.index, pos.y * width + pos.x);
        assert!(pos.x < width && pos.y < height);
        seen[pos.index] += 1;
        let r = gen.next();
        if step + 1 < width * height {
            assert_eq!(r, Some(()));
        } else {
            assert_eq!(r, None);
        }
    }
    for count in &seen {
        assert_eq!(*count, 1);
    }
    let (passes, cursor) = gen.get_index();
    assert_eq!(passes, 1);
    assert_eq!(cursor, 0);
}

#[test]
fn invalidate_resets_everything() {
    let width = 5;
    let height = 4;
    let mut rng = SeededRng::from_seed(3);
    let mut gen = RandomGenerator::new(width, height, &mut rng);
    let mut sink = RecordingSink::new();

    for _ in 0..7 {
        gen.generate_pixel(RawLight { r: 65025, g: 0, b: 0 }, 1, &mut sink);
        gen.next();
    }
    gen.invalidate_pixels(width, height, &mut rng);

    for index in 0..(width * height) {
        let cache = gen.pixel_cache_at(index);
        assert_eq!(cache.status, GenerationStatus::NotStarted);
        assert_eq!(cache.nb_samples, 0);
        assert_eq!(cache.same_color_count, 0);
        assert!(cache.last_color.is_none());
        assert!(cache.incremental_raw_light.is_none());
    }
    let (passes, cursor) = gen.get_index();
    assert_eq!(passes, 0);
    assert_eq!(cursor, 0);
}

#[test]
fn set_pixels_order_restarts_counters() {
    let width = 4;
    let height = 4;
    let mut rng = SeededRng::from_seed(11);
    let mut gen = RandomGenerator::new(width, height, &mut rng);
    for _ in 0..9 {
        gen.next();
    }
    let positions = get_positions_around(width, height, &mut rng, 2, 2, 2);
    assert!(!positions.is_empty());
    for p in &positions {
        assert!(p.x < width && p.y < height);
        assert_eq!(p.index, p.y * width + p.x);
        let dx = p.x as i64 - 2;
        let dy = p.y as i64 - 2;
        assert!(dx * dx + dy * dy < 4);
    }
    let n = positions.len();
    gen.set_pixels_order(width, height, positions);
    let (passes, cursor) = gen.get_index();
    assert_eq!(passes, 0);
    assert_eq!(cursor, 0);
    let mut visited = 0;
    while gen.next().is_some() {
        visited += 1;
    }
    assert_eq!(visited + 1, n);
}

#[test]
fn positions_around_cover_the_disc() {
    let mut rng = SeededRng::from_seed(5);
    let positions = get_positions_around(10, 10, &mut rng, 5, 5, 3);
    // The half-open window spans offsets -3..3 on each axis; every cell of
    // it inside the disc of squared radius 9 must be present exactly once.
    let mut expected = Vec::new();
    for oy in -3i64..3 {
        for ox in -3i64..3 {
            if ox * ox + oy * oy < 9 {
                expected.push(((5 + ox) as usize, (5 + oy) as usize));
            }
        }
    }
    let mut got: Vec<(usize, usize)> = positions.iter().map(|p| (p.x, p.y)).collect();
    got.sort();
    expected.sort();
    assert_eq!(got, expected);
}

#[test]
fn propagation_paints_untouched_neighbors() {
    let width = 10;
    let height = 10;
    let mut rng = SeededRng::from_seed(9);
    let mut gen = RandomGenerator::new(width, height, &mut rng);
    let mut sink = RecordingSink::new();

    // Sample exactly the pixel (5, 5), then propagate.
    let center = raytracer_core::PixelCachePosition { x: 5, y: 5, index: 5 * width + 5 };
    gen.set_pixels_order(width, height, vec![center]);
    gen.generate_pixel(RawLight { r: 65025, g: 65025, b: 65025 }, 1, &mut sink);
    assert_eq!(gen.pixel_cache_at(center.index).status, GenerationStatus::Unstable);

    gen.propagate_pixels(&mut sink);

    for y in 0..height {
        for x in 0..width {
            let index = y * width + x;
            let cache = gen.pixel_cache_at(index);
            if index == center.index {
                assert_eq!(cache.status, GenerationStatus::Unstable);
                continue;
            }
            let in_window = (2..8).contains(&x) && (2..8).contains(&y);
            if in_window {
                let distance = (x as i64 - 5).unsigned_abs() + (y as i64 - 5).unsigned_abs();
                match cache.status {
                    GenerationStatus::CopyNearPixel(copy) => {
                        assert_eq!(copy.distance, distance as usize);
                    }
                    other => panic!("expected an eager copy at ({x},{y}), got {other:?}"),
                }
                assert_eq!(cache.nb_samples, 0);
                assert!(cache.last_color.is_none());
            } else {
                assert_eq!(cache.status, GenerationStatus::NotStarted);
            }
        }
    }
}

#[test]
fn final_pixels_are_skipped_until_invalidated() {
    let width = 3;
    let height = 3;
    let mut rng = SeededRng::from_seed(2);
    let mut gen = RandomGenerator::new(width, height, &mut rng);
    let mut sink = RecordingSink::new();

    let target = raytracer_core::PixelCachePosition { x: 1, y: 1, index: 4 };
    gen.set_pixels_order(width, height, vec![target]);
    let steady = RawLight { r: 30000, g: 30000, b: 30000 };
    for _ in 0..5 {
        gen.generate_pixel(steady, 1, &mut sink);
        gen.next();
    }
    let converged = gen.pixel_cache_at(target.index);
    assert_eq!(converged.status, GenerationStatus::Final);
    assert_eq!(converged.nb_samples, 5);
    let writes_before = sink.writes.len();

    // A later, differing sample must not re-trigger sampling: Final is
    // sticky until an explicit invalidation.
    gen.generate_pixel(RawLight { r: 65025, g: 0, b: 0 }, 1, &mut sink);
    let after = gen.pixel_cache_at(target.index);
    assert_eq!(after.status, GenerationStatus::Final);
    assert_eq!(after.nb_samples, 5);
    assert_eq!(after.last_color, converged.last_color);
    assert_eq!(after.same_color_count, converged.same_color_count);
    assert_eq!(sink.writes.len(), writes_before);

    gen.invalidate_pixels(width, height, &mut rng);
    assert_eq!(gen.pixel_cache_at(target.index).status, GenerationStatus::NotStarted);
}

#[test]
fn propagation_prefers_the_closer_source() {
    let width = 12;
    let height = 4;
    let mut rng = SeededRng::from_seed(1);
    let mut gen = RandomGenerator::new(width, height, &mut rng);
    let mut sink = RecordingSink::new();

    // Two sources in one row: (2, 2) and (5, 2). The pixel (4, 2) lies in
    // both windows; the closer source (5, 2), distance 1, must win over
    // (2, 2), distance 2, regardless of processing order.
    let a = raytracer_core::PixelCachePosition { x: 2, y: 2, index: 2 * width + 2 };
    let b = raytracer_core::PixelCachePosition { x: 5, y: 2, index: 2 * width + 5 };
    gen.set_pixels_order(width, height, vec![a, b]);
    gen.generate_pixel(RawLight { r: 65025, g: 0, b: 0 }, 1, &mut sink);
    gen.next();
    gen.generate_pixel(RawLight { r: 0, g: 65025, b: 0 }, 1, &mut sink);

    gen.propagate_pixels(&mut sink);

    let between = gen.pixel_cache_at(2 * width + 4);
    match between.status {
        GenerationStatus::CopyNearPixel(copy) => assert_eq!(copy.distance, 1),
        other => panic!("expected an eager copy, got {other:?}"),
    }
    // Real samples are never overwritten by propagation.
    assert_eq!(gen.pixel_cache_at(a.index).status, GenerationStatus::Unstable);
    assert_eq!(gen.pixel_cache_at(b.index).status, GenerationStatus::Unstable);
}
