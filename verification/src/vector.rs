//! Three-component vectors of `Scalar`s.
//!
//! Every operation is carried out component by component in single
//! precision; a dot product adds its three products from left to right.

use vstd::prelude::*;
use crate::scalar::Scalar;

verus! {

/// A vector, or a point, or a colour: three single-precision numbers.
#[derive(Clone, Copy, Debug, PartialEq, Eq, Structural)]
pub struct Vector3 {
    pub x: Scalar,
    pub y: Scalar,
    pub z: Scalar,
}

impl Vector3 {
    /// The componentwise sum.
    pub open spec fn sum(self, other: Vector3) -> Vector3 {
        Vector3 { x: self.x.sum(other.x), y: self.y.sum(other.y), z: self.z.sum(other.z) }
    }

    /// The componentwise difference.
    pub open spec fn difference(self, other: Vector3) -> Vector3 {
        Vector3 {
            x: self.x.difference(other.x),
            y: self.y.difference(other.y),
            z: self.z.difference(other.z),
        }
    }

    /// Each component multiplied by `k`, with `k` as the left factor.
    pub open spec fn scaled(self, k: Scalar) -> Vector3 {
        Vector3 { x: k.product(self.x), y: k.product(self.y), z: k.product(self.z) }
    }

    /// Each component divided by `k`.
    pub open spec fn divided(self, k: Scalar) -> Vector3 {
        Vector3 { x: self.x.quotient(k), y: self.y.quotient(k), z: self.z.quotient(k) }
    }

    /// The dot product `(x x' + y y') + z z'`.
    pub open spec fn inner(self, other: Vector3) -> Scalar {
        self.x.product(other.x).sum(self.y.product(other.y)).sum(self.z.product(other.z))
    }

    /// The cross product.
    pub open spec fn outer(self, other: Vector3) -> Vector3 {
        Vector3 {
            x: self.y.product(other.z).difference(self.z.product(other.y)),
            y: self.z.product(other.x).difference(self.x.product(other.z)),
            z: self.x.product(other.y).difference(self.y.product(other.x)),
        }
    }

    /// The squared length `(x x + y y) + z z`.
    pub open spec fn squared_length(self) -> Scalar {
        self.x.product(self.x).sum(self.y.product(self.y)).sum(self.z.product(self.z))
    }

    /// The vector divided by its length; its components are not numbers
    /// when the vector is zero.
    pub open spec fn unit(self) -> Vector3 {
        self.divided(self.squared_length().root())
    }

    /// The vector with the given components.
    pub fn new(x: Scalar, y: Scalar, z: Scalar) -> (r: Vector3)
        ensures
            r == (Vector3 { x, y, z }),
    {
        Vector3 { x, y, z }
    }

    /// The vector whose components all are `k`.
    pub fn from_value(k: Scalar) -> (r: Vector3)
        ensures
            r == (Vector3 { x: k, y: k, z: k }),
    {
        Vector3 { x: k, y: k, z: k }
    }

    /// The componentwise sum.
    pub fn add(self, other: Vector3) -> (r: Vector3)
        ensures
            r == self.sum(other),
    {
        Vector3 { x: self.x.add(other.x), y: self.y.add(other.y), z: self.z.add(other.z) }
    }

    /// The componentwise difference.
    pub fn sub(self, other: Vector3) -> (r: Vector3)
        ensures
            r == self.difference(other),
    {
        Vector3 { x: self.x.sub(other.x), y: self.y.sub(other.y), z: self.z.sub(other.z) }
    }

    /// The vector multiplied by the number `k`.
    pub fn scale(self, k: Scalar) -> (r: Vector3)
        ensures
            r == self.scaled(k),
    {
        Vector3 { x: k.mul(self.x), y: k.mul(self.y), z: k.mul(self.z) }
    }

    /// The vector divided by the number `k`.
    pub fn div(self, k: Scalar) -> (r: Vector3)
        ensures
            r == self.divided(k),
    {
        Vector3 { x: self.x.div(k), y: self.y.div(k), z: self.z.div(k) }
    }

    /// The dot product.
    pub fn dot(self, other: Vector3) -> (r: Scalar)
        ensures
            r == self.inner(other),
    {
        self.x.mul(other.x).add(self.y.mul(other.y)).add(self.z.mul(other.z))
    }

    /// The cross product.
    pub fn cross(self, other: Vector3) -> (r: Vector3)
        ensures
            r == self.outer(other),
    {
        Vector3 {
            x: self.y.mul(other.z).sub(self.z.mul(other.y)),
            y: self.z.mul(other.x).sub(self.x.mul(other.z)),
            z: self.x.mul(other.y).sub(self.y.mul(other.x)),
        }
    }

    /// The squared length.
    pub fn length_squared(self) -> (r: Scalar)
        ensures
            r == self.squared_length(),
    {
        self.x.mul(self.x).add(self.y.mul(self.y)).add(self.z.mul(self.z))
    }
}

/// The vector `v` scaled to unit length: each component divided by the
/// square root of the squared length.
pub fn unit_vector(v: &Vector3) -> (r: Vector3)
    ensures
        r == v.unit(),
{
    let euclidian_length: Scalar = v.length_squared().sqrt();
    Vector3::new(v.x.div(euclidian_length), v.y.div(euclidian_length), v.z.div(euclidian_length))
}

} // verus!
