//! The scene: the shapes and the materials that a render reads.

use vstd::prelude::*;
use crate::geometry::{Hit, Ray, Sphere, Triangle, Visible};
use crate::materials::{Lambertian, Material, Metal};
use crate::sampler::Sampler;
use crate::scalar::Scalar;

verus! {

/// One of the kinds of shape.
#[derive(Clone, Copy, Debug, PartialEq, Eq, Structural)]
pub enum Shape {
    Sphere(Sphere),
    Triangle(Triangle),
}

impl Visible for Shape {
    open spec fn struck(&self, ray: Ray, t_min: Scalar, t_max: Scalar) -> Hit {
        match *self {
            Shape::Sphere(s) => s.found(ray, t_min, t_max),
            Shape::Triangle(t) => t.found(ray, t_min, t_max),
        }
    }

    open spec fn surface(&self) -> usize {
        match *self {
            Shape::Sphere(s) => s.coat(),
            Shape::Triangle(t) => t.coat(),
        }
    }

    fn hit(&self, ray: Ray, t_min: Scalar, t_max: Scalar) -> (h: Hit)
        ensures
            h == self.struck(ray, t_min, t_max),
    {
        match self {
            Shape::Sphere(s) => s.hit(ray, t_min, t_max),
            Shape::Triangle(t) => t.hit(ray, t_min, t_max),
        }
    }

    open spec fn kind(&self) -> Seq<char> {
        match *self {
            Shape::Sphere(s) => s.kind(),
            Shape::Triangle(t) => t.kind(),
        }
    }

    fn id(&self) -> (name: String)
        ensures
            name@ == self.kind(),
    {
        match self {
            Shape::Sphere(s) => s.id(),
            Shape::Triangle(t) => t.id(),
        }
    }
}

/// One of the kinds of material.
#[derive(Clone, Copy, Debug, PartialEq, Eq, Structural)]
pub enum Surface {
    Lambertian(Lambertian),
    Metal(Metal),
}

impl Material for Surface {
    open spec fn scattered(&self, ray: Ray, hit: Hit, sampler: Sampler) -> (Ray, Sampler) {
        match *self {
            Surface::Lambertian(m) => m.scattered(ray, hit, sampler),
            Surface::Metal(m) => m.scattered(ray, hit, sampler),
        }
    }

    fn scatter(&self, ray: Ray, hit: Hit, sampler: &mut Sampler) -> (out: (Ray, bool))
        ensures
            (out.0, *final(sampler)) == self.scattered(ray, hit, *old(sampler)),
    {
        match self {
            Surface::Lambertian(m) => m.scatter(ray, hit, sampler),
            Surface::Metal(m) => m.scatter(ray, hit, sampler),
        }
    }

    fn reflect(&self, ray: Ray, hit: Hit) -> (out: (Ray, bool))
        ensures
            out.0.start() == hit.point,
    {
        match self {
            Surface::Lambertian(m) => {
                let out = m.reflect(ray, hit);
                proof {
                    let s = choose|s: Sampler| out.0 == m.scattered(ray, hit, s).0;
                    assert(out.0 == self.scattered(ray, hit, s).0);
                }
                out
            },
            Surface::Metal(m) => {
                let out = m.reflect(ray, hit);
                proof {
                    let s = choose|s: Sampler| out.0 == m.scattered(ray, hit, s).0;
                    assert(out.0 == self.scattered(ray, hit, s).0);
                }
                out
            },
        }
    }
}

/// The shapes of a scene and the materials that they name by index. A world
/// is built once and only read while it is rendered.
pub struct World {
    pub objects: Vec<Shape>,
    pub materials: Vec<Surface>,
}

impl World {
    /// Every shape names a material that the world holds.
    pub open spec fn well_formed(&self) -> bool {
        forall|i: int|
            0 <= i < self.objects@.len() ==> (#[trigger] self.objects@[i]).surface()
                < self.materials@.len()
    }

    /// The world of the given shapes and materials.
    pub fn new(objects: Vec<Shape>, materials: Vec<Surface>) -> (w: World)
        ensures
            w.objects@ == objects@,
            w.materials@ == materials@,
    {
        World { objects, materials }
    }

    /// Whether every shape names a material that the world holds.
    pub fn check(&self) -> (ok: bool)
        ensures
            ok == self.well_formed(),
    {
        let mut i: usize = 0;
        while i < self.objects.len()
            invariant
                i <= self.objects@.len(),
                forall|k: int|
                    0 <= k < i ==> (#[trigger] self.objects@[k]).surface() < self.materials@.len(),
            decreases self.objects@.len() - i,
        {
            let material: usize = match self.objects[i] {
                Shape::Sphere(s) => s.material_index(),
                Shape::Triangle(t) => t.material_index(),
            };
            if material >= self.materials.len() {
                return false;
            }
            i = i + 1;
        }
        true
    }
}

} // verus!
