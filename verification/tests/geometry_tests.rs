use cgmath::{InnerSpace, Vector3};
use pathtracer::geometry::{Ray, Sphere, Triangle, Visible};
use pathtracer::scalar::Scalar;
use pathtracer::scene::{Shape, Surface, World};
use pathtracer::tracer::search;

fn sc(x: f32) -> Scalar {
    Scalar::from_bits(x.to_bits())
}

fn fl(s: Scalar) -> f32 {
    f32::from_bits(s.to_bits())
}

fn vec(v: Vector3<f32>) -> pathtracer::vector::Vector3 {
    pathtracer::vector::Vector3::new(sc(v.x), sc(v.y), sc(v.z))
}

fn cg(v: pathtracer::vector::Vector3) -> Vector3<f32> {
    Vector3::new(fl(v.x), fl(v.y), fl(v.z))
}

fn unit(v: Vector3<f32>) -> Vector3<f32> {
    let euclidian_length = (v.x * v.x + v.y * v.y + v.z * v.z).sqrt();
    Vector3::new(v.x / euclidian_length, v.y / euclidian_length, v.z / euclidian_length)
}

#[test]
fn test_ray_point() {
    let a = Vector3::new(0.0, 0.0, 0.0);
    let b = Vector3::new(1.0, 1.0, 1.0);
    let r = Ray::new(vec(a), vec(b));
    let p = r.point(sc(1.0));
    assert_eq!(fl(p.x), 1.0);
    assert_eq!(fl(p.y), 1.0);
    assert_eq!(fl(p.z), 1.0);
    let d = vec(Vector3::new(1.0, 2.0, 3.0)).dot(vec(Vector3::new(3.0, 4.0, 1.0)));
    assert_eq!(fl(d), Vector3::new(1.0f32, 2.0, 3.0).dot(Vector3::new(3.0, 4.0, 1.0)));
}

#[test]
fn test_triangle() {
    let mut objects: Vec<Shape> = Vec::new();
    objects.push(Shape::Sphere(Sphere::new(vec(Vector3::new(0.0, 0.0, -1.0)), sc(0.5), 1)));

    objects.push(Shape::Triangle(Triangle::new(
        vec(Vector3::new(-4.0, -2.0, -3.0)),
        vec(Vector3::new(4.0, -2.0, -3.0)),
        vec(Vector3::new(0.0, 4.0, -3.0)),
        2,
    )));

    let mut d = Vector3::new(0.0, 1.0, -2.0);
    let l = (d.x * d.x + d.y * d.y + d.z * d.z as f32).sqrt();
    d /= l;
    let r = Ray::new(vec(Vector3::new(0.0, 0.0, 0.0)), vec(d));
    let materials: Vec<Surface> = Vec::new();
    let world = World::new(objects, materials);
    let hit = search(r, &world);
    assert_eq!(hit.is_hit, true);
    assert_eq!(fl(hit.t), 0.6708204);
}

#[test]
fn ray_point_is_origin_plus_t_times_direction() {
    let cases = [
        (Vector3::new(0.5f32, -1.25, 3.0), Vector3::new(0.1f32, 0.2, -0.3), 2.5f32),
        (Vector3::new(-7.0, 0.0, 1e-3), Vector3::new(1e6, -1e-6, 0.7), -0.001),
        (Vector3::new(1.0, 2.0, 3.0), Vector3::new(0.0, 0.0, 0.0), 1e30),
        (Vector3::new(0.1, 0.2, 0.3), Vector3::new(0.3, 0.2, 0.1), 0.3333333),
    ];
    for (o, d, t) in cases {
        let r = Ray::new(vec(o), vec(d));
        assert_eq!(cg(*r.origin()), o);
        assert_eq!(cg(*r.direction()), d);
        let want = o + (t * d);
        assert_eq!(cg(r.point(sc(t))), want);
    }
}

#[test]
fn sphere_hit_through_the_centre() {
    let s = Sphere::new(vec(Vector3::new(0.0, 0.0, -1.0)), sc(0.5), 7);
    let r = Ray::new(vec(Vector3::new(0.0, 0.0, 0.0)), vec(Vector3::new(0.0, 0.0, -1.0)));
    let hit = s.hit(r, sc(0.001), sc(10000.0));
    assert!(hit.is_hit);
    assert_eq!(fl(hit.t), 0.5);
    assert_eq!(cg(hit.point), Vector3::new(0.0, 0.0, -0.5));
    assert_eq!(cg(hit.norm), Vector3::new(0.0, 0.0, 1.0));
    assert_eq!(hit.material, 7);
    let n = cg(hit.norm);
    assert!((n.magnitude() - 1.0).abs() < 1e-6);
    assert!(n.dot(cg(hit.point) - Vector3::new(0.0, 0.0, -1.0)) > 0.0);
    assert_eq!(s.id(), "sphere");
}

#[test]
fn sphere_hit_takes_the_far_root_when_the_near_one_is_outside() {
    let s = Sphere::new(vec(Vector3::new(0.0, 0.0, -1.0)), sc(0.5), 0);
    let r = Ray::new(vec(Vector3::new(0.0, 0.0, 0.0)), vec(Vector3::new(0.0, 0.0, -1.0)));
    let hit = s.hit(r, sc(0.75), sc(10000.0));
    assert!(hit.is_hit);
    assert_eq!(fl(hit.t), 1.5);
    assert_eq!(cg(hit.norm), Vector3::new(0.0, 0.0, -1.0));
    let none = s.hit(r, sc(0.75), sc(1.5));
    assert!(!none.is_hit);
    let none = s.hit(r, sc(0.5), sc(1.5));
    assert!(!none.is_hit);
}

#[test]
fn sphere_hit_matches_the_formula() {
    let centre = Vector3::new(0.3f32, -0.2, -2.0);
    let radius = 0.8f32;
    let s = Sphere::new(vec(centre), sc(radius), 0);
    let o = Vector3::new(0.1f32, 0.05, 0.2);
    let d = Vector3::new(0.05f32, -0.1, -1.0);
    let oc = o - centre;
    let a = d.dot(d);
    let b = 2.0 * oc.dot(d);
    let c = oc.dot(oc) - radius * radius;
    let disc = b * b - 4.0 * a * c;
    assert!(disc > 0.0);
    let root = (-1.0 * b - disc.sqrt()) / (2.0 * a);
    let hit = s.hit(Ray::new(vec(o), vec(d)), sc(0.001), sc(10000.0));
    assert!(hit.is_hit);
    assert_eq!(fl(hit.t), root);
    let p = o + (root * d);
    assert_eq!(cg(hit.point), p);
    assert_eq!(cg(hit.norm), (p - centre) / radius);
}

#[test]
fn sphere_miss() {
    let s = Sphere::new(vec(Vector3::new(0.0, 0.0, -1.0)), sc(0.5), 3);
    let r = Ray::new(vec(Vector3::new(0.0, 0.0, 0.0)), vec(Vector3::new(0.0, 1.0, 0.0)));
    let hit = s.hit(r, sc(0.001), sc(10000.0));
    assert!(!hit.is_hit);
    assert_eq!(hit.material, 3);
    // A ray that only touches the sphere has a discriminant of zero.
    let r = Ray::new(vec(Vector3::new(0.5, 0.0, 0.0)), vec(Vector3::new(0.0, 0.0, -1.0)));
    assert!(!s.hit(r, sc(0.001), sc(10000.0)).is_hit);
    // A ray without a direction.
    let r = Ray::new(vec(Vector3::new(0.0, 0.0, 0.0)), vec(Vector3::new(0.0, 0.0, 0.0)));
    assert!(!s.hit(r, sc(0.001), sc(10000.0)).is_hit);
}

#[test]
fn triangle_hit_at_the_centroid() {
    let v0 = Vector3::new(-1.0f32, -1.0, -2.0);
    let v1 = Vector3::new(1.0f32, -1.0, -2.0);
    let v2 = Vector3::new(0.0f32, 2.0, -2.0);
    let t = Triangle::new(vec(v0), vec(v1), vec(v2), 4);
    let centroid = (v0 + v1 + v2) / 3.0;
    let o = Vector3::new(0.0f32, 0.0, 1.0);
    let d = centroid - o;
    let hit = t.hit(Ray::new(vec(o), vec(d)), sc(0.001), sc(10000.0));
    assert!(hit.is_hit);
    assert!(fl(hit.t) > 0.0);
    assert_eq!(fl(hit.t), 1.0);
    assert_eq!(cg(hit.point), centroid);
    assert_eq!(cg(hit.norm), unit((v1 - v0).cross(v2 - v0)));
    assert_eq!(cg(hit.norm), Vector3::new(0.0, 0.0, 1.0));
    assert_eq!(hit.material, 4);
    assert_eq!(t.id(), "triangle");
}

#[test]
fn triangle_hit_matches_the_formula() {
    let v0 = Vector3::new(-4.0f32, -2.0, -3.0);
    let v1 = Vector3::new(4.0f32, -2.0, -3.0);
    let v2 = Vector3::new(0.0f32, 4.0, -3.0);
    let t = Triangle::new(vec(v0), vec(v1), vec(v2), 2);
    let o = Vector3::new(0.1f32, 0.2, 0.3);
    let d = Vector3::new(0.05f32, 0.1, -1.0);
    let edge1 = v1 - v0;
    let edge2 = v2 - v0;
    let pvec = d.cross(edge2);
    let det = edge1.dot(pvec);
    let tvec = o - v0;
    let qvec = tvec.cross(edge1);
    let want = edge2.dot(qvec) * (1.0 / det);
    let hit = t.hit(Ray::new(vec(o), vec(d)), sc(0.001), sc(10000.0));
    assert!(hit.is_hit);
    assert_eq!(fl(hit.t), want);
    assert_eq!(cg(hit.point), o + want * d);
}

#[test]
fn triangle_is_seen_from_one_side_only() {
    let v0 = Vector3::new(-1.0f32, -1.0, -2.0);
    let v1 = Vector3::new(1.0f32, -1.0, -2.0);
    let v2 = Vector3::new(0.0f32, 2.0, -2.0);
    let front = Triangle::new(vec(v0), vec(v1), vec(v2), 0);
    let back = Triangle::new(vec(v0), vec(v2), vec(v1), 0);
    let r = Ray::new(vec(Vector3::new(0.0, 0.0, 0.0)), vec(Vector3::new(0.0, 0.0, -1.0)));
    assert!(front.hit(r, sc(0.001), sc(10000.0)).is_hit);
    assert!(!back.hit(r, sc(0.001), sc(10000.0)).is_hit);
    // Parallel to the plane.
    let r = Ray::new(vec(Vector3::new(0.0, 0.0, 0.0)), vec(Vector3::new(1.0, 0.0, 0.0)));
    assert!(!front.hit(r, sc(0.001), sc(10000.0)).is_hit);
}

#[test]
fn triangle_miss_outside_its_edges_and_window() {
    let t = Triangle::new(
        vec(Vector3::new(-1.0, -1.0, -2.0)),
        vec(Vector3::new(1.0, -1.0, -2.0)),
        vec(Vector3::new(0.0, 2.0, -2.0)),
        9,
    );
    let down = Vector3::new(0.0, 0.0, -1.0);
    for o in [Vector3::new(-2.0f32, 0.0, 0.0), Vector3::new(2.0, 0.0, 0.0), Vector3::new(0.0, 3.0, 0.0), Vector3::new(0.0, -1.5, 0.0)] {
        let hit = t.hit(Ray::new(vec(o), vec(down)), sc(0.001), sc(10000.0));
        assert!(!hit.is_hit);
        assert_eq!(hit.material, 9);
    }
    let r = Ray::new(vec(Vector3::new(0.0, 0.0, 0.0)), vec(down));
    assert!(t.hit(r, sc(0.001), sc(10000.0)).is_hit);
    // The ends of the window are outside it.
    assert!(!t.hit(r, sc(0.001), sc(2.0)).is_hit);
    assert!(!t.hit(r, sc(2.0), sc(10000.0)).is_hit);
    assert!(!t.hit(r, sc(0.001), sc(1.5)).is_hit);
    assert!(t.hit(r, sc(1.5), sc(2.5)).is_hit);
}

#[test]
fn search_keeps_the_nearest_hit() {
    let near = Shape::Sphere(Sphere::new(vec(Vector3::new(0.0, 0.0, -1.0)), sc(0.5), 0));
    let far = Shape::Sphere(Sphere::new(vec(Vector3::new(0.0, 0.0, -3.0)), sc(0.5), 1));
    let r = Ray::new(vec(Vector3::new(0.0, 0.0, 0.0)), vec(Vector3::new(0.0, 0.0, -1.0)));
    for objects in [vec![near, far], vec![far, near]] {
        let world = World::new(objects, vec![]);
        let hit = search(r, &world);
        assert!(hit.is_hit);
        assert_eq!(fl(hit.t), 0.5);
        assert_eq!(hit.material, 0);
    }
    let world = World::new(vec![far], vec![]);
    let hit = search(r, &world);
    assert_eq!(fl(hit.t), 2.5);
    assert_eq!(hit.material, 1);
}

#[test]
fn search_of_an_empty_or_missed_scene() {
    let r = Ray::new(vec(Vector3::new(0.0, 0.0, 0.0)), vec(Vector3::new(0.0, 1.0, 0.0)));
    let world = World::new(vec![], vec![]);
    let hit = search(r, &world);
    assert!(!hit.is_hit);
    assert_eq!(hit.material, 0);
    let world = World::new(
        vec![Shape::Sphere(Sphere::new(vec(Vector3::new(0.0, 0.0, -1.0)), sc(0.5), 5))],
        vec![],
    );
    assert!(!search(r, &world).is_hit);
    // Nearer than T_MIN and farther than T_MAX do not count.
    let tiny = Shape::Sphere(Sphere::new(vec(Vector3::new(0.0, 0.0, 0.0)), sc(0.0005), 5));
    let r = Ray::new(vec(Vector3::new(0.0, 0.0, 0.0)), vec(Vector3::new(0.0, 0.0, -1.0)));
    assert!(!search(r, &World::new(vec![tiny], vec![])).is_hit);
    let distant = Shape::Sphere(Sphere::new(vec(Vector3::new(0.0, 0.0, -20000.0)), sc(1.0), 5));
    assert!(!search(r, &World::new(vec![distant], vec![])).is_hit);
}

#[test]
fn shapes_behave_as_what_they_hold() {
    let sphere = Sphere::new(vec(Vector3::new(0.0, 0.0, -1.0)), sc(0.5), 3);
    let triangle = Triangle::new(
        vec(Vector3::new(-1.0, -1.0, -2.0)),
        vec(Vector3::new(1.0, -1.0, -2.0)),
        vec(Vector3::new(0.0, 2.0, -2.0)),
        4,
    );
    let r = Ray::new(vec(Vector3::new(0.0, 0.0, 0.0)), vec(Vector3::new(0.0, 0.0, -1.0)));
    assert_eq!(Shape::Sphere(sphere).hit(r, sc(0.001), sc(10000.0)), sphere.hit(r, sc(0.001), sc(10000.0)));
    assert_eq!(Shape::Triangle(triangle).hit(r, sc(0.001), sc(10000.0)), triangle.hit(r, sc(0.001), sc(10000.0)));
    assert_eq!(Shape::Sphere(sphere).id(), "sphere");
    assert_eq!(Shape::Triangle(triangle).id(), "triangle");
    assert_eq!(sphere.material_index(), 3);
    assert_eq!(triangle.material_index(), 4);
}

#[test]
fn triangle_normals_have_unit_length() {
    let r = Ray::new(vec(Vector3::new(0.0, 0.0, 0.0)), vec(Vector3::new(0.0, 0.0, -1.0)));
    let flat = Triangle::new(
        vec(Vector3::new(-4.0, -2.0, -3.0)),
        vec(Vector3::new(4.0, -2.0, -3.0)),
        vec(Vector3::new(0.0, 4.0, -3.0)),
        2,
    );
    let hit = flat.hit(r, sc(0.001), sc(10000.0));
    assert!(hit.is_hit);
    assert_eq!(cg(hit.norm), Vector3::new(0.0, 0.0, 1.0));
    let (v0, v1, v2) = (
        Vector3::new(-10.0f32, -2.0, -3.0),
        Vector3::new(10.0f32, -2.0, -3.0),
        Vector3::new(0.0f32, 5.0, -1.0),
    );
    let tilted = Triangle::new(vec(v0), vec(v1), vec(v2), 0);
    let cross = (v1 - v0).cross(v2 - v0);
    for d in [Vector3::new(0.0f32, 0.0, -1.0), Vector3::new(0.3, 0.1, -1.0), Vector3::new(-1.0, 0.2, -1.0)] {
        let hit = tilted.hit(Ray::new(vec(Vector3::new(0.0, 0.0, 0.0)), vec(d)), sc(0.001), sc(10000.0));
        assert!(hit.is_hit);
        let n = cg(hit.norm);
        assert_eq!(n, unit(cross));
        assert!((n.magnitude() - 1.0).abs() < 1e-6);
        assert!(n.dot(cross) > 0.0);
        assert!(n.dot(d) < 0.0);
    }
}

#[test]
fn triangle_without_area_is_never_hit() {
    let line = Triangle::new(
        vec(Vector3::new(-1.0, 0.0, -2.0)),
        vec(Vector3::new(0.0, 0.0, -2.0)),
        vec(Vector3::new(1.0, 0.0, -2.0)),
        0,
    );
    for d in [Vector3::new(0.0f32, 0.0, -1.0), Vector3::new(0.5, 0.0, -2.0), Vector3::new(0.0, 1.0, 0.0)] {
        let r = Ray::new(vec(Vector3::new(0.0, 0.0, 0.0)), vec(d));
        assert!(!line.hit(r, sc(0.001), sc(10000.0)).is_hit);
    }
}

#[test]
fn sphere_too_small_for_its_distance_is_missed() {
    // The radius is lost when the squared distance is rounded, and the
    // discriminant comes out as zero.
    let s = Sphere::new(vec(Vector3::new(0.0, 0.0, -1000.0)), sc(0.001), 0);
    let r = Ray::new(vec(Vector3::new(0.0, 0.0, 0.0)), vec(Vector3::new(0.0, 0.0, -1.0)));
    let oc = Vector3::new(0.0f32, 0.0, 1000.0);
    let b = 2.0 * oc.dot(Vector3::new(0.0, 0.0, -1.0));
    let c = oc.dot(oc) - 0.001f32 * 0.001;
    assert_eq!(b * b - 4.0 * 1.0 * c, 0.0);
    assert!(!s.hit(r, sc(0.001), sc(10000.0)).is_hit);
}
