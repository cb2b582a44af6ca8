use cgmath::{InnerSpace, Vector3};
use pathtracer::geometry::{Ray, Sphere, Triangle};
use pathtracer::materials::{Lambertian, Material, Metal};
use pathtracer::sampler::Sampler;
use pathtracer::scalar::Scalar;
use pathtracer::scene::{Shape, Surface, World};
use pathtracer::tracer::{gradient_color, search, trace, MAX_RECURSION_SIZE};
use pathtracer::vector::unit_vector;

fn sc(x: f32) -> Scalar {
    Scalar::from_bits(x.to_bits())
}

fn fl(s: Scalar) -> f32 {
    f32::from_bits(s.to_bits())
}

fn vec(v: Vector3<f32>) -> pathtracer::vector::Vector3 {
    pathtracer::vector::Vector3::new(sc(v.x), sc(v.y), sc(v.z))
}

fn cg(v: pathtracer::vector::Vector3) -> Vector3<f32> {
    Vector3::new(fl(v.x), fl(v.y), fl(v.z))
}

fn unit(v: Vector3<f32>) -> Vector3<f32> {
    let euclidian_length = (v.x * v.x + v.y * v.y + v.z * v.z).sqrt();
    Vector3::new(v.x / euclidian_length, v.y / euclidian_length, v.z / euclidian_length)
}

fn gradient(d: Vector3<f32>) -> Vector3<f32> {
    let t = 0.5 * (unit(d).y + 1.0);
    (1.0 - t) * Vector3::new(1.0, 1.0, 1.0) + t * Vector3::new(0.5, 0.7, 1.0)
}

fn two_spheres(first: Surface) -> World {
    World::new(
        vec![
            Shape::Sphere(Sphere::new(vec(Vector3::new(0.0, 0.0, -1.0)), sc(0.5), 0)),
            Shape::Sphere(Sphere::new(vec(Vector3::new(0.0, -100.5, -1.0)), sc(100.0), 0)),
        ],
        vec![first],
    )
}

#[test]
fn unit_vectors_have_length_one() {
    for v in [
        Vector3::new(1.0f32, 0.0, 0.0),
        Vector3::new(0.0, 1.0, -2.0),
        Vector3::new(3.0, 4.0, 12.0),
        Vector3::new(-1e-10, 2e-10, 3e-10),
        Vector3::new(1e15, -1e15, 1e14),
        Vector3::new(0.1, 0.2, 0.3),
    ] {
        let u = cg(unit_vector(&vec(v)));
        assert_eq!(u, unit(v));
        assert!((u.magnitude() - 1.0).abs() < 1e-6, "{:?}", v);
    }
    // Outside the range of single precision there is no unit vector.
    let tiny = cg(unit_vector(&vec(Vector3::new(1e-30, 0.0, 0.0))));
    assert!(tiny.x.is_infinite());
    let huge = cg(unit_vector(&vec(Vector3::new(1e30, 0.0, 0.0))));
    assert_eq!(huge.x, 0.0);
    let nothing = cg(unit_vector(&vec(Vector3::new(0.0, 0.0, 0.0))));
    assert!(nothing.x.is_nan() && nothing.y.is_nan() && nothing.z.is_nan());
}

#[test]
fn gradient_blends_white_into_blue() {
    let up = gradient_color(Ray::new(vec(Vector3::new(0.0, 0.0, 0.0)), vec(Vector3::new(0.0, 1.0, 0.0))));
    assert_eq!(cg(up), Vector3::new(0.5, 0.7, 1.0));
    let down = gradient_color(Ray::new(vec(Vector3::new(0.0, 0.0, 0.0)), vec(Vector3::new(0.0, -3.0, 0.0))));
    assert_eq!(cg(down), Vector3::new(1.0, 1.0, 1.0));
    let level = gradient_color(Ray::new(vec(Vector3::new(5.0, 5.0, 5.0)), vec(Vector3::new(2.0, 0.0, 0.0))));
    assert_eq!(cg(level), Vector3::new(0.75, 0.85, 1.0));
    for d in [Vector3::new(0.3f32, 0.2, -1.0), Vector3::new(-2.0, -0.1, -1.0), Vector3::new(0.0, 1.0, -2.0)] {
        let c = gradient_color(Ray::new(vec(Vector3::new(1.0, 2.0, 3.0)), vec(d)));
        assert_eq!(cg(c), gradient(d));
    }
}

#[test]
fn trace_of_a_miss_is_the_gradient() {
    let world = two_spheres(Surface::Lambertian(Lambertian::new()));
    assert!(world.check());
    let d = Vector3::new(0.0f32, 1.0, -0.2);
    let r = Ray::new(vec(Vector3::new(0.0, 0.0, 0.0)), vec(d));
    assert!(!search(r, &world).is_hit);
    let mut sampler = Sampler::seeded(1, 1);
    let before = sampler;
    let c = trace(r, &world, 0, &mut sampler);
    assert_eq!(cg(c), gradient(d));
    assert_eq!(c, gradient_color(r));
    assert_eq!(sampler, before);
}

#[test]
fn trace_at_full_depth_is_the_gradient() {
    let world = two_spheres(Surface::Lambertian(Lambertian::new()));
    let d = Vector3::new(0.0f32, 0.0, -1.0);
    let r = Ray::new(vec(Vector3::new(0.0, 0.0, 0.0)), vec(d));
    assert!(search(r, &world).is_hit);
    for depth in [MAX_RECURSION_SIZE, MAX_RECURSION_SIZE + 1, i32::MAX] {
        let mut sampler = Sampler::seeded(1, 1);
        let before = sampler;
        let c = trace(r, &world, depth, &mut sampler);
        assert_eq!(c, gradient_color(r));
        assert_eq!(cg(c), gradient(d));
        assert_eq!(sampler, before);
    }
    assert_eq!(MAX_RECURSION_SIZE, 100);
}

#[test]
fn trace_one_bounce_short_of_full_depth_halves_the_gradient() {
    let world = two_spheres(Surface::Metal(Metal::new()));
    let r = Ray::new(vec(Vector3::new(0.0, 0.0, 0.0)), vec(Vector3::new(0.0, 0.0, -1.0)));
    let hit = search(r, &world);
    assert!(hit.is_hit);
    let (out, _) = Metal::new().reflect(r, hit);
    let mut sampler = Sampler::seeded(1, 1);
    let c = trace(r, &world, MAX_RECURSION_SIZE - 1, &mut sampler);
    assert_eq!(cg(c), 0.5 * gradient(cg(*out.direction())));
}

#[test]
fn trace_off_a_mirror_halves_the_sky_behind() {
    let world = World::new(
        vec![Shape::Sphere(Sphere::new(vec(Vector3::new(0.0, 0.0, -1.0)), sc(0.5), 0))],
        vec![Surface::Metal(Metal::new())],
    );
    let d = Vector3::new(0.0f32, 0.1, -1.0);
    let r = Ray::new(vec(Vector3::new(0.0, 0.0, 0.0)), vec(d));
    let hit = search(r, &world);
    assert!(hit.is_hit);
    let n = cg(hit.norm);
    let mirrored = d - 2.0 * (d.dot(n)) * n;
    let mut sampler = Sampler::seeded(1, 1);
    let before = sampler;
    let c = trace(r, &world, 0, &mut sampler);
    assert_eq!(cg(c), 0.5 * gradient(mirrored));
    assert_eq!(sampler, before);
}

#[test]
fn trace_off_a_diffuse_sphere_follows_the_sampler() {
    let world = two_spheres(Surface::Lambertian(Lambertian::new()));
    for seed in 0..20u64 {
        let r = Ray::new(vec(Vector3::new(0.0, 0.0, 0.0)), vec(Vector3::new(0.0, 0.0, -1.0)));
        let mut sampler = Sampler::seeded(seed, 0);
        let mut by_hand = sampler;
        let c = trace(r, &world, 0, &mut sampler);
        let mut ray = r;
        let mut bounces = 0;
        let want = loop {
            let hit = search(ray, &world);
            if bounces >= 100 || !hit.is_hit {
                break gradient(cg(*ray.direction()));
            }
            ray = Lambertian::new().scatter(ray, hit, &mut by_hand).0;
            bounces += 1;
        };
        let mut expected = want;
        for _ in 0..bounces {
            expected = 0.5 * expected;
        }
        assert!(bounces >= 1);
        assert_eq!(cg(c), expected);
        assert_eq!(sampler, by_hand);
        let again = trace(r, &world, 0, &mut Sampler::seeded(seed, 0));
        assert_eq!(again, c);
    }
}

#[test]
fn trace_sees_a_triangle() {
    let world = World::new(
        vec![Shape::Triangle(Triangle::new(
            vec(Vector3::new(-10.0, -2.0, -3.0)),
            vec(Vector3::new(10.0, -2.0, -3.0)),
            vec(Vector3::new(0.0, 5.0, -1.0)),
            0,
        ))],
        vec![Surface::Metal(Metal::new())],
    );
    assert!(world.check());
    let r = Ray::new(vec(Vector3::new(0.0, 0.0, 0.0)), vec(Vector3::new(0.0, 0.0, -1.0)));
    let hit = search(r, &world);
    assert!(hit.is_hit);
    let c = trace(r, &world, 0, &mut Sampler::seeded(0, 0));
    assert_ne!(c, gradient_color(r));
}

#[test]
fn worlds_are_checked_for_their_material_indices() {
    let sphere = |m: usize| Shape::Sphere(Sphere::new(vec(Vector3::new(0.0, 0.0, -1.0)), sc(0.5), m));
    let lambert = Surface::Lambertian(Lambertian::new());
    assert!(World::new(vec![], vec![]).check());
    assert!(World::new(vec![sphere(0)], vec![lambert]).check());
    assert!(!World::new(vec![sphere(1)], vec![lambert]).check());
    assert!(!World::new(vec![sphere(0)], vec![]).check());
    assert!(World::new(vec![sphere(0), sphere(1)], vec![lambert, lambert]).check());
    assert!(!World::new(vec![sphere(0), sphere(2)], vec![lambert, lambert]).check());
}

#[test]
fn unit_vectors_of_moderate_vectors_are_within_one_part_in_a_million() {
    let mut state = 12345u64;
    let mut next = move || {
        state = state.wrapping_mul(6364136223846793005).wrapping_add(1442695040888963407);
        (state >> 32) as u32
    };
    for _ in 0..20000 {
        let mut parts = [0.0f32; 3];
        for part in parts.iter_mut() {
            let exponent = 127 - 60 + next() % 120;
            let bits = (next() & 0x8000_0000) | (exponent << 23) | (next() & 0x007f_ffff);
            *part = if next() % 8 == 0 { 0.0 } else { f32::from_bits(bits) };
        }
        if parts == [0.0, 0.0, 0.0] {
            continue;
        }
        let u = unit_vector(&vec(Vector3::new(parts[0], parts[1], parts[2])));
        let (x, y, z) = (fl(u.x) as f64, fl(u.y) as f64, fl(u.z) as f64);
        let squared = x * x + y * y + z * z;
        assert!((squared - 1.0).abs() <= 1.0 / 1048576.0, "{:?}", parts);
    }
}

#[test]
fn trace_at_full_depth_does_not_look_at_the_scene() {
    let world = World::new(
        vec![Shape::Sphere(Sphere::new(vec(Vector3::new(0.0, 0.0, -1.0)), sc(0.5), 0))],
        vec![],
    );
    assert!(!world.check());
    let r = Ray::new(vec(Vector3::new(0.0, 0.0, 0.0)), vec(Vector3::new(0.0, 0.0, -1.0)));
    let mut sampler = Sampler::seeded(1, 1);
    let before = sampler;
    let c = cg(trace(r, &world, 100, &mut sampler));
    assert_eq!(c.x, 0.75);
    assert!((c.y - 0.85).abs() <= 1e-6);
    assert_eq!(c.z, 1.0);
    assert_eq!(sampler, before);
}

#[test]
fn search_is_no_farther_than_any_shape_by_itself() {
    let shapes = vec![
        Shape::Sphere(Sphere::new(vec(Vector3::new(0.0, 0.0, -5.0)), sc(1.0), 0)),
        Shape::Triangle(Triangle::new(
            vec(Vector3::new(-4.0, -2.0, -3.0)),
            vec(Vector3::new(4.0, -2.0, -3.0)),
            vec(Vector3::new(0.0, 4.0, -3.0)),
            0,
        )),
        Shape::Sphere(Sphere::new(vec(Vector3::new(0.0, 0.0, -1.0)), sc(0.5), 0)),
        Shape::Sphere(Sphere::new(vec(Vector3::new(0.0, 0.2, -2.0)), sc(0.5), 0)),
        Shape::Sphere(Sphere::new(vec(Vector3::new(0.0, 0.0, 0.0)), sc(2.5), 0)),
    ];
    let world = World::new(shapes.clone(), vec![]);
    for d in [Vector3::new(0.0f32, 0.0, -1.0), Vector3::new(0.1, 0.3, -1.0), Vector3::new(0.9, 0.0, -1.0), Vector3::new(0.0, 1.0, 0.1)] {
        let r = Ray::new(vec(Vector3::new(0.0, 0.0, 0.0)), vec(d));
        let hit = search(r, &world);
        let mut nearest = f32::INFINITY;
        for shape in shapes.iter() {
            let own = search(r, &World::new(vec![*shape], vec![]));
            if own.is_hit {
                assert!(hit.is_hit);
                assert!(fl(hit.t) <= fl(own.t));
                nearest = nearest.min(fl(own.t));
            }
        }
        assert!(hit.is_hit);
        assert_eq!(fl(hit.t), nearest);
    }
}

#[test]
fn gradient_channels_stay_in_their_ranges() {
    let mut state = 99u64;
    let mut next = move || {
        state = state.wrapping_mul(6364136223846793005).wrapping_add(1442695040888963407);
        (state >> 32) as u32
    };
    let slack = 4.0e-6f64;
    for _ in 0..20000 {
        let mut parts = [0.0f32; 3];
        for part in parts.iter_mut() {
            let exponent = 127 - 60 + next() % 120;
            let bits = (next() & 0x8000_0000) | (exponent << 23) | (next() & 0x007f_ffff);
            *part = if next() % 8 == 0 { 0.0 } else { f32::from_bits(bits) };
        }
        if parts == [0.0, 0.0, 0.0] {
            continue;
        }
        let d = Vector3::new(parts[0], parts[1], parts[2]);
        let c = cg(gradient_color(Ray::new(vec(Vector3::new(0.0, 0.0, 0.0)), vec(d))));
        assert_eq!(c, gradient(d));
        let (x, y, z) = (c.x as f64, c.y as f64, c.z as f64);
        assert!(x >= 0.5 * (1.0 - slack) && x <= 1.0 + slack, "{:?}", parts);
        assert!(y >= 0.7 * (1.0 - slack) && y <= 1.0 + slack, "{:?}", parts);
        assert!(z >= 1.0 - slack && z <= 1.0 + slack, "{:?}", parts);
    }
}

#[test]
fn trace_divides_the_sky_by_two_for_every_bounce() {
    let world = World::new(
        vec![
            Shape::Sphere(Sphere::new(vec(Vector3::new(0.0, 0.0, -1.0)), sc(0.5), 0)),
            Shape::Sphere(Sphere::new(vec(Vector3::new(0.0, 0.0, 1.0)), sc(0.5), 0)),
        ],
        vec![Surface::Metal(Metal::new())],
    );
    // Straight at the first mirror, the ray runs to and fro until the depth
    // is used up.
    let r = Ray::new(vec(Vector3::new(0.0, 0.0, 0.0)), vec(Vector3::new(0.0, 0.0, -1.0)));
    let c = cg(trace(r, &world, 0, &mut Sampler::seeded(0, 0)));
    let sky = gradient(Vector3::new(0.0, 0.0, 1.0));
    let scale = 0.5f32.powi(100);
    assert_eq!(c, Vector3::new(sky.x * scale, sky.y * scale, sky.z * scale));
    assert!(c.x > 0.0 && c.y > 0.0 && c.z > 0.0);
    let c = cg(trace(r, &world, 97, &mut Sampler::seeded(0, 0)));
    assert_eq!(c, Vector3::new(sky.x / 8.0, sky.y / 8.0, sky.z / 8.0));
}

#[test]
fn unit_vectors_with_one_leading_component_have_length_one() {
    let mut state = 4242u64;
    let mut next = move || {
        state = state.wrapping_mul(6364136223846793005).wrapping_add(1442695040888963407);
        (state >> 32) as u32
    };
    for round in 0..20000 {
        // One component between 2^-60 and 2^60, the others anything up to
        // 2^60, subnormal numbers and zeros included.
        let mut parts = [0.0f32; 3];
        for part in parts.iter_mut() {
            let exponent = next() % (127 + 60);
            *part = f32::from_bits((next() & 0x8000_0000) | (exponent << 23) | (next() & 0x007f_ffff));
        }
        let lead = 127 - 60 + next() % 120;
        parts[round % 3] = f32::from_bits((next() & 0x8000_0000) | (lead << 23) | (next() & 0x007f_ffff));
        let v = Vector3::new(parts[0], parts[1], parts[2]);
        let u = cg(unit_vector(&vec(v)));
        assert_eq!(u, unit(v));
        let (x, y, z) = (u.x as f64, u.y as f64, u.z as f64);
        let squared = x * x + y * y + z * z;
        assert!((squared - 1.0).abs() <= 1.0 / 524288.0, "{:?}", parts);
        assert!((squared.sqrt() - 1.0).abs() <= 1e-6, "{:?}", parts);
        assert!(x * v.x as f64 + y * v.y as f64 + z * v.z as f64 > 0.0, "{:?}", parts);
        assert_eq!(u.x.is_sign_negative(), v.x.is_sign_negative());
        assert_eq!(u.y.is_sign_negative(), v.y.is_sign_negative());
        assert_eq!(u.z.is_sign_negative(), v.z.is_sign_negative());
    }
    let u = cg(unit_vector(&vec(Vector3::new(1.0, 1e-30, -1e-40))));
    assert_eq!(u, Vector3::new(1.0, 1e-30, -1e-40));
}
