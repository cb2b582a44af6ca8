use cgmath::{InnerSpace, Vector3};
use pathtracer::geometry::{Hit, Ray};
use pathtracer::materials::{
    accepts, candidate_of, lambert_unit_vector, lambert_unit_vector_from, LambertTable, Lambertian,
    Material, Metal,
};
use pathtracer::sampler::Sampler;
use pathtracer::scalar::Scalar;
use pathtracer::scene::Surface;

fn sc(x: f32) -> Scalar {
    Scalar::from_bits(x.to_bits())
}

fn fl(s: Scalar) -> f32 {
    f32::from_bits(s.to_bits())
}

fn vec(v: Vector3<f32>) -> pathtracer::vector::Vector3 {
    pathtracer::vector::Vector3::new(sc(v.x), sc(v.y), sc(v.z))
}

fn cg(v: pathtracer::vector::Vector3) -> Vector3<f32> {
    Vector3::new(fl(v.x), fl(v.y), fl(v.z))
}

fn squared(p: Vector3<f32>) -> f32 {
    p.x * p.x + p.y * p.y + p.z * p.z
}

fn a_hit() -> Hit {
    Hit {
        is_hit: true,
        t: sc(1.5),
        point: vec(Vector3::new(0.25, -0.5, -1.5)),
        norm: vec(Vector3::new(0.0, 0.6, 0.8)),
        material: 0,
    }
}

#[test]
fn candidates_fill_the_cube() {
    assert_eq!(cg(candidate_of(sc(0.0), sc(0.5), sc(0.75))), Vector3::new(-1.0, 0.0, 0.5));
    let (a, b, c) = (0.123f32, 0.999, 0.5001);
    let want = 2.0 * Vector3::new(a, b, c) - Vector3::new(1.0, 1.0, 1.0);
    assert_eq!(cg(candidate_of(sc(a), sc(b), sc(c))), want);
}

#[test]
fn candidates_are_kept_inside_the_ball_only() {
    assert!(accepts(vec(Vector3::new(0.0, 0.0, 0.0))));
    assert!(accepts(vec(Vector3::new(0.5, 0.5, 0.5))));
    assert!(accepts(vec(Vector3::new(0.99, 0.0, 0.0))));
    assert!(!accepts(vec(Vector3::new(1.0, 0.0, 0.0))));
    assert!(!accepts(vec(Vector3::new(0.6, 0.6, 0.6))));
    assert!(!accepts(vec(Vector3::new(f32::NAN, 0.0, 0.0))));
}

#[test]
fn unit_vectors_are_the_first_candidate_inside_the_ball() {
    for seed in 0..200u64 {
        let mut sampler = Sampler::seeded(seed, 0);
        let mut by_hand = sampler;
        let p = lambert_unit_vector_from(&mut sampler);
        let want = loop {
            let r1 = fl(by_hand.next_unit());
            let r2 = fl(by_hand.next_unit());
            let r3 = fl(by_hand.next_unit());
            let q = 2.0 * Vector3::new(r1, r2, r3) - Vector3::new(1.0, 1.0, 1.0);
            if squared(q) < 1.0 {
                break q;
            }
        };
        assert_eq!(cg(p), want);
        assert_eq!(sampler, by_hand);
        assert!(squared(cg(p)) < 1.0);
    }
}

#[test]
fn unit_vectors_from_entropy_lie_in_the_ball() {
    let mut seen = Vec::new();
    for _ in 0..100 {
        let p = cg(lambert_unit_vector());
        assert!(squared(p) < 1.0);
        seen.push(p);
    }
    assert!(seen.iter().any(|p| *p != seen[0]));
}

#[test]
fn table_is_filled_sample_by_sample() {
    let mut sampler = Sampler::seeded(5, 5);
    let mut by_hand = sampler;
    let table = LambertTable::new_from(16, &mut sampler);
    assert_eq!(table.size, 16);
    assert_eq!(table.table.len(), 16);
    for i in 0..16 {
        assert_eq!(table.table[i], lambert_unit_vector_from(&mut by_hand));
        assert!(squared(cg(table.table[i])) < 1.0);
    }
    assert_eq!(sampler, by_hand);
    let empty = LambertTable::new_from(0, &mut sampler);
    assert_eq!(empty.table.len(), 0);
    assert_eq!(sampler, by_hand);
}

#[test]
fn table_entries_are_picked_by_the_word_modulo_the_size() {
    let mut sampler = Sampler::seeded(1, 2);
    let table = LambertTable::new_from(10, &mut sampler);
    assert_eq!(table.pick(0), table.table[0]);
    assert_eq!(table.pick(7), table.table[7]);
    assert_eq!(table.pick(10), table.table[0]);
    assert_eq!(table.pick(u32::MAX), table.table[(u32::MAX % 10) as usize]);
    let mut probe = sampler;
    let word = probe.next_word();
    assert_eq!(table.get_from(&mut sampler), table.table[(word % 10) as usize]);
    assert_eq!(sampler, probe);
}

#[test]
fn table_from_entropy() {
    let table = LambertTable::new(32);
    assert_eq!(table.size, 32);
    assert_eq!(table.table.len(), 32);
    for _ in 0..50 {
        let p = table.get();
        assert!(table.table.contains(&p));
        assert!(squared(cg(p)) < 1.0);
    }
}

#[test]
fn lambertian_bounces_towards_the_normal_plus_a_sample() {
    let hit = a_hit();
    let unit = Vector3::new(0.1f32, -0.2, 0.3);
    let out = Lambertian::bounce(hit, vec(unit));
    let point = cg(hit.point);
    let target = (point + cg(hit.norm)) + unit;
    assert_eq!(cg(*out.origin()), point);
    assert_eq!(cg(*out.direction()), target - point);

    let incoming = Ray::new(vec(Vector3::new(0.0, 0.0, 0.0)), vec(Vector3::new(0.0, 0.0, -1.0)));
    let mut sampler = Sampler::seeded(9, 1);
    let mut by_hand = sampler;
    let (ray, scattered) = Lambertian::new().scatter(incoming, hit, &mut sampler);
    assert!(scattered);
    let unit = lambert_unit_vector_from(&mut by_hand);
    assert_eq!(ray, Lambertian::bounce(hit, unit));
    assert_eq!(sampler, by_hand);
    assert!(cg(*ray.direction()).dot(cg(hit.norm)) > 0.0);
}

#[test]
fn lambertian_reflect_from_entropy() {
    let hit = a_hit();
    let incoming = Ray::new(vec(Vector3::new(0.0, 0.0, 0.0)), vec(Vector3::new(0.0, 0.0, -1.0)));
    let mut directions = Vec::new();
    for _ in 0..50 {
        let (ray, scattered) = Lambertian::new().reflect(incoming, hit);
        assert!(scattered);
        assert_eq!(*ray.origin(), hit.point);
        let unit = cg(*ray.direction()) - cg(hit.norm);
        assert!(squared(unit) < 1.0 + 1e-5);
        directions.push(cg(*ray.direction()));
    }
    assert!(directions.iter().any(|d| *d != directions[0]));
}

#[test]
fn metal_mirrors_the_direction() {
    let hit = a_hit();
    let d = Vector3::new(0.3f32, -0.4, -0.5);
    let incoming = Ray::new(vec(Vector3::new(1.0, 2.0, 3.0)), vec(d));
    let n = cg(hit.norm);
    let want = d - 2.0 * (d.dot(n)) * n;
    let mut sampler = Sampler::seeded(3, 3);
    let before = sampler;
    let (ray, scattered) = Metal::new().scatter(incoming, hit, &mut sampler);
    assert!(scattered);
    assert_eq!(cg(*ray.origin()), cg(hit.point));
    assert_eq!(cg(*ray.direction()), want);
    assert_eq!(sampler, before);
    let (again, scattered) = Metal::new().reflect(incoming, hit);
    assert!(scattered);
    assert_eq!(again, ray);
    assert_eq!(Metal::bounce(incoming, hit), ray);

    let straight = Ray::new(vec(Vector3::new(0.0, 0.0, 0.0)), vec(Vector3::new(0.0, 0.0, -1.0)));
    let mut flat = hit;
    flat.norm = vec(Vector3::new(0.0, 0.0, 1.0));
    let (ray, _) = Metal::new().scatter(straight, flat, &mut sampler);
    assert_eq!(cg(*ray.direction()), Vector3::new(0.0, 0.0, 1.0));
}

#[test]
fn surfaces_behave_as_their_materials() {
    let hit = a_hit();
    let incoming = Ray::new(vec(Vector3::new(0.0, 0.0, 0.0)), vec(Vector3::new(0.3, -0.4, -0.5)));
    let mut a = Sampler::seeded(11, 0);
    let mut b = a;
    assert_eq!(
        Surface::Lambertian(Lambertian::new()).scatter(incoming, hit, &mut a),
        Lambertian::new().scatter(incoming, hit, &mut b)
    );
    assert_eq!(a, b);
    assert_eq!(
        Surface::Metal(Metal::new()).scatter(incoming, hit, &mut a),
        Metal::new().scatter(incoming, hit, &mut b)
    );
    assert_eq!(Surface::Metal(Metal::new()).reflect(incoming, hit), Metal::new().reflect(incoming, hit));
    let (ray, scattered) = Surface::Lambertian(Lambertian::new()).reflect(incoming, hit);
    assert!(scattered);
    assert_eq!(*ray.origin(), hit.point);
}
