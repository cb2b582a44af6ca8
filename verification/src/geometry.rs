//! Rays, and the shapes a ray can hit.

use vstd::prelude::*;
use vstd::arithmetic::power2::pow2;
use crate::scalar::{Scalar, number, zero, one, two};
use crate::unit_length::{exact_dot, exact_squared_length, lemma_unit_length, measurable};
use crate::vector::{Vector3, unit_vector};

verus! {

/// The smallest determinant at which a ray is taken to cross the plane of a
/// triangle from its front: 1e-6.
pub const EPSILON_BITS: u32 = 0x3586_37bd;

/// What a ray found on a shape. When `is_hit` is false the other fields but
/// `material` carry no meaning.
#[derive(Clone, Copy, Debug, PartialEq, Eq, Structural)]
pub struct Hit {
    pub is_hit: bool,
    pub t: Scalar,
    pub point: Vector3,
    pub norm: Vector3,
    pub material: usize,
}

/// A half-line: the points `origin + t * direction`.
#[derive(Clone, Copy, Debug, PartialEq, Eq, Structural)]
pub struct Ray {
    pub a: Vector3,
    pub b: Vector3,
}

/// The record of a ray that found nothing on a shape of the given material.
pub open spec fn missed(material: usize) -> Hit {
    Hit {
        is_hit: false,
        t: zero(),
        point: Vector3 { x: zero(), y: zero(), z: zero() },
        norm: Vector3 { x: zero(), y: zero(), z: zero() },
        material,
    }
}

/// Whether `t` lies strictly inside the window `(t_min, t_max)`.
pub open spec fn inside(t: Scalar, t_min: Scalar, t_max: Scalar) -> bool {
    t.below(t_max) && t_min.below(t)
}

impl Ray {
    /// The point the ray starts from.
    pub open spec fn start(self) -> Vector3 {
        self.a
    }

    /// The direction the ray travels in.
    pub open spec fn heading(self) -> Vector3 {
        self.b
    }

    /// The point at the distance `t` along the ray: `origin + t * direction`.
    pub open spec fn at(self, t: Scalar) -> Vector3 {
        self.start().sum(self.heading().scaled(t))
    }

    /// The ray from `a` in the direction `b`.
    pub fn new(a: Vector3, b: Vector3) -> (r: Ray)
        ensures
            r == (Ray { a, b }),
    {
        Ray { a, b }
    }

    /// The point the ray starts from.
    pub fn origin(&self) -> (r: &Vector3)
        ensures
            *r == self.start(),
    {
        &self.a
    }

    /// The direction the ray travels in.
    pub fn direction(&self) -> (r: &Vector3)
        ensures
            *r == self.heading(),
    {
        &self.b
    }

    /// The point at the distance `t` along the ray.
    pub fn point(&self, t: Scalar) -> (r: Vector3)
        ensures
            r == self.at(t),
            r == self.start().sum(self.heading().scaled(t)),
    {
        self.a.add(self.b.scale(t))
    }
}

fn miss(material: usize) -> (h: Hit)
    ensures
        h == missed(material),
{
    Hit {
        is_hit: false,
        t: Scalar::zero(),
        point: Vector3::from_value(Scalar::zero()),
        norm: Vector3::from_value(Scalar::zero()),
        material,
    }
}

/// A shape that a ray can hit.
pub trait Visible {
    /// What `hit` finds.
    spec fn struck(&self, ray: Ray, t_min: Scalar, t_max: Scalar) -> Hit;

    /// The material index that every record of this shape carries.
    spec fn surface(&self) -> usize;

    /// The nearest place where `ray` meets the shape at a distance strictly
    /// inside `(t_min, t_max)`, or a record with `is_hit` false.
    fn hit(&self, ray: Ray, t_min: Scalar, t_max: Scalar) -> (h: Hit)
        ensures
            h == self.struck(ray, t_min, t_max),
            h.material == self.surface(),
            h.is_hit ==> inside(h.t, t_min, t_max) && h.point == ray.at(h.t),
    ;

    /// The name of the kind of shape, as `id` gives it.
    spec fn kind(&self) -> Seq<char>;

    /// The name of the kind of shape.
    fn id(&self) -> (name: String)
        ensures
            name@ == self.kind(),
    ;
}

/// A sphere.
#[derive(Clone, Copy, Debug, PartialEq, Eq, Structural)]
pub struct Sphere {
    center: Vector3,
    radius: Scalar,
    material: usize,
}

impl Sphere {
    /// The centre.
    pub closed spec fn middle(self) -> Vector3 {
        self.center
    }

    /// The radius.
    pub closed spec fn reach(self) -> Scalar {
        self.radius
    }

    /// The material index.
    pub closed spec fn coat(self) -> usize {
        self.material
    }

    /// The sphere around `center` with the given radius and material index.
    pub fn new(center: Vector3, radius: Scalar, material: usize) -> (s: Sphere)
        ensures
            s.middle() == center,
            s.reach() == radius,
            s.coat() == material,
    {
        Sphere { center, radius, material }
    }

    /// The material index.
    pub fn material_index(&self) -> (m: usize)
        ensures
            m == self.coat(),
    {
        self.material
    }

    /// The discriminant `b^2 - 4ac` of `|O + tD - C|^2 = r^2`, with
    /// `a = D.D`, `b = 2 (O - C).D` and `c = |O - C|^2 - r^2`.
    pub open spec fn discriminant(self, ray: Ray) -> Scalar {
        let oc = ray.start().difference(self.middle());
        let a = ray.heading().inner(ray.heading());
        let b = two().product(oc.inner(ray.heading()));
        let c = oc.inner(oc).difference(self.reach().product(self.reach()));
        b.product(b).difference(number(0x4080_0000).product(a).product(c))
    }

    /// The smaller root `(-b - sqrt(d)) / 2a`.
    pub open spec fn near_root(self, ray: Ray) -> Scalar {
        let oc = ray.start().difference(self.middle());
        let a = ray.heading().inner(ray.heading());
        let b = two().product(oc.inner(ray.heading()));
        number(0xbf80_0000).product(b).difference(self.discriminant(ray).root()).quotient(
            two().product(a),
        )
    }

    /// The larger root `(-b + sqrt(d)) / 2a`.
    pub open spec fn far_root(self, ray: Ray) -> Scalar {
        let oc = ray.start().difference(self.middle());
        let a = ray.heading().inner(ray.heading());
        let b = two().product(oc.inner(ray.heading()));
        number(0xbf80_0000).product(b).sum(self.discriminant(ray).root()).quotient(
            two().product(a),
        )
    }

    /// The record of the ray meeting the sphere at the distance `t`: the
    /// normal is `(point - centre) / radius`.
    pub open spec fn touched(self, ray: Ray, t: Scalar) -> Hit {
        Hit {
            is_hit: true,
            t,
            point: ray.at(t),
            norm: ray.at(t).difference(self.middle()).divided(self.reach()),
            material: self.coat(),
        }
    }

    /// What a ray finds on the sphere: nothing unless the discriminant is
    /// above zero; then the smaller root if it lies inside the window, else
    /// the larger root if that one does.
    pub open spec fn found(self, ray: Ray, t_min: Scalar, t_max: Scalar) -> Hit {
        if zero().below(self.discriminant(ray)) {
            if inside(self.near_root(ray), t_min, t_max) {
                self.touched(ray, self.near_root(ray))
            } else if inside(self.far_root(ray), t_min, t_max) {
                self.touched(ray, self.far_root(ray))
            } else {
                missed(self.coat())
            }
        } else {
            missed(self.coat())
        }
    }
}

impl Visible for Sphere {
    open spec fn struck(&self, ray: Ray, t_min: Scalar, t_max: Scalar) -> Hit {
        self.found(ray, t_min, t_max)
    }

    open spec fn surface(&self) -> usize {
        self.coat()
    }

    fn hit(&self, ray: Ray, t_min: Scalar, t_max: Scalar) -> (h: Hit)
        ensures
            h == self.found(ray, t_min, t_max),
    {
        let oc: Vector3 = ray.origin().sub(self.center);
        let a: Scalar = ray.direction().dot(*ray.direction());
        let b: Scalar = Scalar::two().mul(oc.dot(*ray.direction()));
        let c: Scalar = oc.dot(oc).sub(self.radius.mul(self.radius));
        let d: Scalar = b.mul(b).sub(Scalar::from_bits(0x4080_0000).mul(a).mul(c));
        if d.gt(Scalar::zero()) {
            let minus_b: Scalar = Scalar::from_bits(0xbf80_0000).mul(b);
            let root_a: Scalar = minus_b.sub(d.sqrt()).div(Scalar::two().mul(a));
            let root_b: Scalar = minus_b.add(d.sqrt()).div(Scalar::two().mul(a));
            if root_a.lt(t_max) && root_a.gt(t_min) {
                let p: Vector3 = ray.point(root_a);
                return Hit {
                    is_hit: true,
                    t: root_a,
                    point: p,
                    norm: p.sub(self.center).div(self.radius),
                    material: self.material,
                };
            }
            if root_b.lt(t_max) && root_b.gt(t_min) {
                let p: Vector3 = ray.point(root_b);
                return Hit {
                    is_hit: true,
                    t: root_b,
                    point: p,
                    norm: p.sub(self.center).div(self.radius),
                    material: self.material,
                };
            }
        }
        miss(self.material)
    }

    open spec fn kind(&self) -> Seq<char> {
        "sphere"@
    }

    fn id(&self) -> (name: String)
        ensures
            name@ == "sphere"@,
    {
        "sphere".to_owned()
    }
}

/// A triangle, seen only from the side on which its corners run
/// counter-clockwise.
#[derive(Clone, Copy, Debug, PartialEq, Eq, Structural)]
pub struct Triangle {
    v0: Vector3,
    v1: Vector3,
    v2: Vector3,
    normal: Vector3,
    material: usize,
}

impl Triangle {
    /// The three corners.
    pub closed spec fn corners(self) -> (Vector3, Vector3, Vector3) {
        (self.v0, self.v1, self.v2)
    }

    /// The unit normal of the face, fixed when the triangle is made.
    pub closed spec fn face(self) -> Vector3 {
        self.normal
    }

    /// The material index.
    pub closed spec fn coat(self) -> usize {
        self.material
    }

    /// The cross product `(v1 - v0) x (v2 - v0)` of two edges, which stands on
    /// the face and is as long as twice its area.
    pub open spec fn edge_product(self) -> Vector3 {
        self.corners().1.difference(self.corners().0).outer(
            self.corners().2.difference(self.corners().0),
        )
    }

    /// Whether the stored normal is the one that `new` computes: the cross
    /// product of the edges, scaled to unit length.
    pub open spec fn well_formed(self) -> bool {
        self.face() == self.edge_product().unit()
    }

    /// The triangle with the given corners and material index. Its normal
    /// is `(v1 - v0) x (v2 - v0)` scaled to unit length; where that product
    /// is the zero vector, the components of the normal are not numbers.
    pub fn new(v0: Vector3, v1: Vector3, v2: Vector3, material: usize) -> (t: Triangle)
        ensures
            t.corners() == (v0, v1, v2),
            t.face() == v1.difference(v0).outer(v2.difference(v0)).unit(),
            t.coat() == material,
            t.well_formed(),
    {
        let v1_sub_v0: Vector3 = v1.sub(v0);
        let v2_sub_v0: Vector3 = v2.sub(v0);
        let norm: Vector3 = unit_vector(&v1_sub_v0.cross(v2_sub_v0));
        Triangle { v0, v1, v2, normal: norm, material }
    }

    /// The material index.
    pub fn material_index(&self) -> (m: usize)
        ensures
            m == self.coat(),
    {
        self.material
    }

    /// The determinant `e1 . (D x e2)` with `e1 = v1 - v0`, `e2 = v2 - v0`.
    pub open spec fn determinant(self, ray: Ray) -> Scalar {
        let edge1 = self.corners().1.difference(self.corners().0);
        let edge2 = self.corners().2.difference(self.corners().0);
        edge1.inner(ray.heading().outer(edge2))
    }

    /// The first barycentric weight times the determinant:
    /// `(O - v0) . (D x e2)`.
    pub open spec fn weight_u(self, ray: Ray) -> Scalar {
        let edge2 = self.corners().2.difference(self.corners().0);
        ray.start().difference(self.corners().0).inner(ray.heading().outer(edge2))
    }

    /// The second barycentric weight times the determinant:
    /// `D . ((O - v0) x e1)`.
    pub open spec fn weight_v(self, ray: Ray) -> Scalar {
        let edge1 = self.corners().1.difference(self.corners().0);
        ray.heading().inner(ray.start().difference(self.corners().0).outer(edge1))
    }

    /// The distance along the ray to the plane of the triangle:
    /// `e2 . ((O - v0) x e1)` times the reciprocal of the determinant.
    pub open spec fn distance(self, ray: Ray) -> Scalar {
        let edge1 = self.corners().1.difference(self.corners().0);
        let edge2 = self.corners().2.difference(self.corners().0);
        edge2.inner(ray.start().difference(self.corners().0).outer(edge1)).product(
            one().quotient(self.determinant(ray)),
        )
    }

    /// Whether the ray crosses the plane from the front and inside the
    /// triangle: the determinant is not below 1e-6, and the weights satisfy
    /// neither `u < 0`, `u > det`, `v < 0` nor `u + v > det`.
    pub open spec fn crossed(self, ray: Ray) -> bool {
        let det = self.determinant(ray);
        let u = self.weight_u(ray);
        let v = self.weight_v(ray);
        &&& !det.below(number(EPSILON_BITS))
        &&& !u.below(zero())
        &&& !det.below(u)
        &&& !v.below(zero())
        &&& !det.below(u.sum(v))
    }

    /// What a ray finds on the triangle: the crossing point with the face
    /// normal, if the ray crosses and the distance lies inside the window.
    pub open spec fn found(self, ray: Ray, t_min: Scalar, t_max: Scalar) -> Hit {
        if self.crossed(ray) && inside(self.distance(ray), t_min, t_max) {
            Hit {
                is_hit: true,
                t: self.distance(ray),
                point: ray.at(self.distance(ray)),
                norm: self.face(),
                material: self.coat(),
            }
        } else {
            missed(self.coat())
        }
    }
}

impl Visible for Triangle {
    open spec fn struck(&self, ray: Ray, t_min: Scalar, t_max: Scalar) -> Hit {
        self.found(ray, t_min, t_max)
    }

    open spec fn surface(&self) -> usize {
        self.coat()
    }

    fn hit(&self, ray: Ray, t_min: Scalar, t_max: Scalar) -> (h: Hit)
        ensures
            h == self.found(ray, t_min, t_max),
    {
        let edge1: Vector3 = self.v1.sub(self.v0);
        let edge2: Vector3 = self.v2.sub(self.v0);
        let pvec: Vector3 = ray.direction().cross(edge2);
        let det: Scalar = edge1.dot(pvec);
        if det.lt(Scalar::from_bits(EPSILON_BITS)) {
            return miss(self.material);
        }
        let tvec: Vector3 = ray.origin().sub(self.v0);
        let u: Scalar = tvec.dot(pvec);
        if u.lt(Scalar::zero()) || u.gt(det) {
            return miss(self.material);
        }
        let qvec: Vector3 = tvec.cross(edge1);
        let v: Scalar = ray.direction().dot(qvec);
        if v.lt(Scalar::zero()) || u.add(v).gt(det) {
            return miss(self.material);
        }
        let inv_det: Scalar = Scalar::one().div(det);
        let t: Scalar = edge2.dot(qvec).mul(inv_det);
        if !(t.lt(t_max) && t.gt(t_min)) {
            return miss(self.material);
        }
        Hit { is_hit: true, t, point: ray.point(t), norm: self.normal, material: self.material }
    }

    open spec fn kind(&self) -> Seq<char> {
        "triangle"@
    }

    fn id(&self) -> (name: String)
        ensures
            name@ == "triangle"@,
    {
        "triangle".to_owned()
    }
}

/// The normal that a hit on a triangle carries is the unit normal of the
/// face, the same for every ray. Where the cross product of the edges has
/// components of at most 2^60 in magnitude, one of them of at least 2^-60,
/// its squared length is within one part in 2^19 of one and it points the
/// way the cross product does.
pub proof fn lemma_triangle_normal(t: Triangle, ray: Ray, t_min: Scalar, t_max: Scalar)
    requires
        t.well_formed(),
        t.found(ray, t_min, t_max).is_hit,
    ensures
        t.found(ray, t_min, t_max).norm == t.edge_product().unit(),
        measurable(t.edge_product()) ==> {
            let n = t.found(ray, t_min, t_max).norm;
            &&& n.x.is_finite() && n.y.is_finite() && n.z.is_finite()
            &&& 0x8_0000 * (exact_squared_length(n) - pow2(298)) <= pow2(298)
            &&& 0x8_0000 * (pow2(298) - exact_squared_length(n)) <= pow2(298)
            &&& exact_dot(n, t.edge_product()) > 0
        },
{
    if measurable(t.edge_product()) {
        lemma_unit_length(t.edge_product());
    }
}

} // verus!
