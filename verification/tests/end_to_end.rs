//! A small floating-point path tracer drives the verified scheduler and
//! accumulator end to end: one diffuse sphere over a large ground sphere,
//! one sample per pixel per visit.

use rand::Rng;
use rand::SeedableRng;
use raytracer_core::GenerationStatus;
use raytracer_core::PixelColor;
use raytracer_core::PixelPosition;
use raytracer_core::RandomGenerator;
use raytracer_core::RawLight;
use raytracer_core::SeededRng;

const WIDTH: usize = 16;
const HEIGHT: usize = 9;

#[derive(Clone, Copy)]
struct V3 {
    x: f64,
    y: f64,
    z: f64,
}

fn v3(x: f64, y: f64, z: f64) -> V3 {
    V3 { x, y, z }
}

fn add(a: V3, b: V3) -> V3 {
    v3(a.x + b.x, a.y + b.y, a.z + b.z)
}

fn sub(a: V3, b: V3) -> V3 {
    v3(a.x - b.x, a.y - b.y, a.z - b.z)
}

fn scale(a: V3, s: f64) -> V3 {
    v3(a.x * s, a.y * s, a.z * s)
}

fn dot(a: V3, b: V3) -> f64 {
    a.x * b.x + a.y * b.y + a.z * b.z
}

fn cross(a: V3, b: V3) -> V3 {
    v3(a.y * b.z - a.z * b.y, a.z * b.x - a.x * b.z, a.x * b.y - a.y * b.x)
}

fn normalize(a: V3) -> V3 {
    scale(a, 1.0 / dot(a, a).sqrt())
}

fn blend(a: V3, b: V3) -> V3 {
    v3(a.x * b.x, a.y * b.y, a.z * b.z)
}

struct Camera {
    origin: V3,
    lower_left_corner: V3,
    horizontal: V3,
    vertical: V3,
}

impl Camera {
    fn new_lookat(origin: V3, lookat: V3) -> Camera {
        let vup = v3(0.0, 1.0, 0.0);
        let viewport_height = 2.0 * 20.0f64.to_radians();
        let viewport_width = 16.0 / 9.0 * viewport_height;
        let w = normalize(sub(origin, lookat));
        let u = normalize(cross(vup, w));
        let v = cross(w, u);
        let horizontal = scale(u, viewport_width);
        let vertical = scale(v, viewport_height);
        let lower_left_corner = sub(
            sub(sub(origin, scale(horizontal, 0.5)), scale(vertical, 0.5)),
            w,
        );
        Camera { origin, lower_left_corner, horizontal, vertical }
    }

    fn emit_ray_at(&self, ox: f64, oy: f64) -> (V3, V3) {
        let dir = add(
            add(sub(self.lower_left_corner, self.origin), scale(self.horizontal, ox)),
            scale(self.vertical, oy),
        );
        (self.origin, dir)
    }
}

struct Sphere {
    center: V3,
    radius: f64,
    albedo: V3,
}

fn hit_sphere(s: &Sphere, origin: V3, dir: V3) -> Option<f64> {
    let oc = sub(origin, s.center);
    let a = dot(dir, dir);
    let half_b = dot(oc, dir);
    let c = dot(oc, oc) - s.radius * s.radius;
    let discriminant = half_b * half_b - a * c;
    if discriminant > 0.0 {
        let root = discriminant.sqrt();
        let t = (-half_b - root) / a;
        if t > 0.001 && t < 100_000.0 {
            return Some(t);
        }
        let t = (-half_b + root) / a;
        if t > 0.001 && t < 100_000.0 {
            return Some(t);
        }
    }
    None
}

fn sky(dir: V3) -> V3 {
    let t = 0.5 * (normalize(dir).y + 1.0);
    add(scale(v3(1.0, 1.0, 1.0), 1.0 - t), scale(v3(0.5, 0.7, 1.0), t))
}

fn nearest_hit<'a>(scene: &'a [Sphere], origin: V3, dir: V3) -> Option<(&'a Sphere, f64)> {
    let mut best: Option<(&Sphere, f64)> = None;
    for s in scene {
        if let Some(t) = hit_sphere(s, origin, dir) {
            match best {
                Some((_, bt)) if bt < t => {}
                _ => best = Some((s, t)),
            }
        }
    }
    best
}

fn random_unit_vector(rng: &mut rand::rngs::SmallRng) -> V3 {
    let a: f64 = rng.random_range(0.0..std::f64::consts::TAU);
    let z: f64 = rng.random_range(-1.0..1.0);
    let r = (1.0 - z * z).sqrt();
    v3(r * a.cos(), r * a.sin(), z)
}

fn project_ray(
    scene: &[Sphere],
    origin: V3,
    dir: V3,
    depth: u32,
    rng: &mut rand::rngs::SmallRng,
) -> V3 {
    if depth == 0 {
        return sky(dir);
    }
    match nearest_hit(scene, origin, dir) {
        None => sky(dir),
        Some((s, t)) => {
            let hit = add(origin, scale(dir, t));
            let normal = scale(sub(hit, s.center), 1.0 / s.radius);
            // The diffuse local term: albedo / pi, lit by a fixed ambient
            // light of intensity 3 along the normal itself.
            let local = scale(s.albedo, 3.0 / std::f64::consts::PI);
            let bounce_dir = add(normal, random_unit_vector(rng));
            blend(local, project_ray(scene, hit, bounce_dir, depth - 1, rng))
        }
    }
}

fn to_raw_light(color: V3) -> RawLight {
    let channel = |c: f64| -> u64 { (c.max(0.0) * 65025.0) as u64 };
    RawLight { r: channel(color.x), g: channel(color.y), b: channel(color.z) }
}

struct Framebuffer {
    pixels: Vec<Option<PixelColor>>,
}

impl raytracer_core::PixelRenderer for Framebuffer {
    fn set_pixel(&mut self, pos: PixelPosition, color: PixelColor) {
        self.pixels[pos.y * WIDTH + pos.x] = Some(color);
    }

    fn invalidate_pixels(&mut self) {
        for p in self.pixels.iter_mut() {
            *p = None;
        }
    }
}

#[test]
fn one_pass_over_a_two_sphere_scene() {
    let scene = vec![
        Sphere { center: v3(0.0, 0.0, -1.0), radius: 0.5, albedo: v3(0.7, 0.3, 0.3) },
        Sphere { center: v3(0.0, -100.5, -1.0), radius: 100.0, albedo: v3(0.0, 0.44, 0.44) },
    ];
    let camera = Camera::new_lookat(v3(-1.8, 1.0, 2.0), v3(0.0, 0.0, -1.0));
    let mut trace_rng = rand::rngs::SmallRng::seed_from_u64(1234);
    let mut rng = SeededRng::from_seed(77);
    let mut gen = RandomGenerator::new(WIDTH, HEIGHT, &mut rng);
    let mut fb = Framebuffer { pixels: vec![None; WIDTH * HEIGHT] };

    for _ in 0..(WIDTH * HEIGHT) {
        let pos = gen.get_pixel().expect("full order");
        let ox = pos.x as f64 / (WIDTH as f64 - 1.0);
        let oy = pos.y as f64 / (HEIGHT as f64 - 1.0);
        let (origin, dir) = camera.emit_ray_at(ox, oy);
        let color = project_ray(&scene, origin, dir, 8, &mut trace_rng);
        gen.generate_pixel(to_raw_light(color), 1, &mut fb);
        gen.next();
    }
    let (passes, _) = gen.get_index();
    assert_eq!(passes, 1);

    let mut background_pixels = 0;
    for y in 0..HEIGHT {
        for x in 0..WIDTH {
            let index = y * WIDTH + x;
            let cache = gen.pixel_cache_at(index);
            // After one full pass no pixel is untouched.
            assert_ne!(cache.status, GenerationStatus::NotStarted);
            let written = fb.pixels[index].expect("every pixel was pushed to the sink");

            let ox = x as f64 / (WIDTH as f64 - 1.0);
            let oy = y as f64 / (HEIGHT as f64 - 1.0);
            let (origin, dir) = camera.emit_ray_at(ox, oy);
            if nearest_hit(&scene, origin, dir).is_none() {
                background_pixels += 1;
                // Rays that miss everything resolve to the sky gradient,
                // never to black: its blue channel is exactly full.
                let expected = sky(dir);
                assert_eq!(written.b, 255);
                assert!(written.r > 0 && written.g > 0);
                let expect8 = |c: f64| (c.clamp(0.0, 1.0).sqrt() * 255.0) as i32;
                assert!((written.r as i32 - expect8(expected.x)).abs() <= 1);
                assert!((written.g as i32 - expect8(expected.y)).abs() <= 1);
            }
        }
    }
    assert!(background_pixels > 0, "the camera sees some sky in this scene");
}
