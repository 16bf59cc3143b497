//! The vector type and its operators.

use vstd::prelude::*;
use crate::arith::{difference, product, quotient, sum};
use crate::binary64::{Double, opposite};
use crate::convert::Scalar;
use crate::order::same;

verus! {

/// A point or a direction in space.
#[derive(Clone, Copy, Debug)]
pub struct Vec3 {
    pub x: Double,
    pub y: Double,
    pub z: Double,
}

/// The vector with each component multiplied by `k`.
pub open spec fn scaled(v: Vec3, k: Double) -> Vec3 {
    Vec3 { x: product(v.x, k), y: product(v.y, k), z: product(v.z, k) }
}

/// The vector with each component divided by `k`.
pub open spec fn shrunk(v: Vec3, k: Double) -> Vec3 {
    Vec3 { x: quotient(v.x, k), y: quotient(v.y, k), z: quotient(v.z, k) }
}

/// The componentwise sum.
pub open spec fn added(a: Vec3, b: Vec3) -> Vec3 {
    Vec3 { x: sum(a.x, b.x), y: sum(a.y, b.y), z: sum(a.z, b.z) }
}

/// The componentwise difference.
pub open spec fn apart(a: Vec3, b: Vec3) -> Vec3 {
    Vec3 { x: difference(a.x, b.x), y: difference(a.y, b.y), z: difference(a.z, b.z) }
}

/// The componentwise product.
pub open spec fn multiplied(a: Vec3, b: Vec3) -> Vec3 {
    Vec3 { x: product(a.x, b.x), y: product(a.y, b.y), z: product(a.z, b.z) }
}

/// The componentwise quotient.
pub open spec fn divided(a: Vec3, b: Vec3) -> Vec3 {
    Vec3 { x: quotient(a.x, b.x), y: quotient(a.y, b.y), z: quotient(a.z, b.z) }
}

/// The vector that points the other way.
pub open spec fn negated(v: Vec3) -> Vec3 {
    Vec3 { x: opposite(v.x), y: opposite(v.y), z: opposite(v.z) }
}

/// The components have the same values, one by one.
pub open spec fn alike(a: Vec3, b: Vec3) -> bool {
    same(a.x, b.x) && same(a.y, b.y) && same(a.z, b.z)
}

/// The product of the three components.
pub open spec fn volume(v: Vec3) -> Double {
    product(product(v.x, v.y), v.z)
}

impl Vec3 {
    /// The vector whose components are all zero.
    pub fn zero() -> (r: Vec3)
        ensures
            r.x.bits == 0,
            r.y.bits == 0,
            r.z.bits == 0,
    {
        Vec3 { x: Double { bits: 0 }, y: Double { bits: 0 }, z: Double { bits: 0 } }
    }

    /// Whether one may divide by this vector: the product of its
    /// components is not zero.
    pub fn is_divisor(self) -> (r: bool)
        ensures
            r == !volume(self).zero(),
    {
        !self.x.times(self.y).times(self.z).is_zero()
    }

    /// The vector with the given components.
    pub fn new<X: Scalar, Y: Scalar, Z: Scalar>(x: X, y: Y, z: Z) -> (r: Vec3)
        ensures
            r.x == x.double(),
            r.y == y.double(),
            r.z == z.double(),
    {
        Vec3 { x: x.to_double(), y: y.to_double(), z: z.to_double() }
    }
}

/// Vectors are equal when their components have the same values.
impl PartialEq for Vec3 {
    fn eq(&self, other: &Vec3) -> (r: bool) {
        self.x == other.x && self.y == other.y && self.z == other.z
    }
}

impl vstd::std_specs::cmp::PartialEqSpecImpl for Vec3 {
    open spec fn obeys_eq_spec() -> bool {
        true
    }

    open spec fn eq_spec(&self, other: &Vec3) -> bool {
        alike(*self, *other)
    }
}

/// Componentwise sum.
impl core::ops::Add<Vec3> for Vec3 {
    type Output = Vec3;

    fn add(self, rhs: Vec3) -> (r: Vec3) {
        Vec3 { x: self.x.plus(rhs.x), y: self.y.plus(rhs.y), z: self.z.plus(rhs.z) }
    }
}

impl vstd::std_specs::ops::AddSpecImpl<Vec3> for Vec3 {
    open spec fn obeys_add_spec() -> bool {
        true
    }

    open spec fn add_req(self, rhs: Vec3) -> bool {
        true
    }

    open spec fn add_spec(self, rhs: Vec3) -> Vec3 {
        added(self, rhs)
    }
}

/// Componentwise difference.
impl core::ops::Sub<Vec3> for Vec3 {
    type Output = Vec3;

    fn sub(self, rhs: Vec3) -> (r: Vec3) {
        Vec3 { x: self.x.minus(rhs.x), y: self.y.minus(rhs.y), z: self.z.minus(rhs.z) }
    }
}

impl vstd::std_specs::ops::SubSpecImpl<Vec3> for Vec3 {
    open spec fn obeys_sub_spec() -> bool {
        true
    }

    open spec fn sub_req(self, rhs: Vec3) -> bool {
        true
    }

    open spec fn sub_spec(self, rhs: Vec3) -> Vec3 {
        apart(self, rhs)
    }
}

/// Componentwise product.
impl core::ops::Mul<Vec3> for Vec3 {
    type Output = Vec3;

    fn mul(self, rhs: Vec3) -> (r: Vec3) {
        Vec3 { x: self.x.times(rhs.x), y: self.y.times(rhs.y), z: self.z.times(rhs.z) }
    }
}

impl vstd::std_specs::ops::MulSpecImpl<Vec3> for Vec3 {
    open spec fn obeys_mul_spec() -> bool {
        true
    }

    open spec fn mul_req(self, rhs: Vec3) -> bool {
        true
    }

    open spec fn mul_spec(self, rhs: Vec3) -> Vec3 {
        multiplied(self, rhs)
    }
}

/// Componentwise quotient, for a divisor the product of whose components
/// is not zero.
impl core::ops::Div<Vec3> for Vec3 {
    type Output = Vec3;

    fn div(self, rhs: Vec3) -> (r: Vec3) {
        Vec3 { x: self.x.over(rhs.x), y: self.y.over(rhs.y), z: self.z.over(rhs.z) }
    }
}

impl vstd::std_specs::ops::DivSpecImpl<Vec3> for Vec3 {
    open spec fn obeys_div_spec() -> bool {
        true
    }

    /// The product of the divisor's components is not zero.
    open spec fn div_req(self, rhs: Vec3) -> bool {
        !volume(rhs).zero()
    }

    open spec fn div_spec(self, rhs: Vec3) -> Vec3 {
        divided(self, rhs)
    }
}

/// Each component times a number.
impl<T: Scalar> core::ops::Mul<T> for Vec3 {
    type Output = Vec3;

    fn mul(self, rhs: T) -> (r: Vec3) {
        let k = rhs.to_double();
        Vec3 { x: self.x.times(k), y: self.y.times(k), z: self.z.times(k) }
    }
}

impl<T: Scalar> vstd::std_specs::ops::MulSpecImpl<T> for Vec3 {
    open spec fn obeys_mul_spec() -> bool {
        true
    }

    open spec fn mul_req(self, rhs: T) -> bool {
        true
    }

    open spec fn mul_spec(self, rhs: T) -> Vec3 {
        scaled(self, rhs.double())
    }
}

/// Each component divided by a number that is not zero.
impl<T: Scalar> core::ops::Div<T> for Vec3 {
    type Output = Vec3;

    fn div(self, rhs: T) -> (r: Vec3) {
        let k = rhs.to_double();
        Vec3 { x: self.x.over(k), y: self.y.over(k), z: self.z.over(k) }
    }
}

impl<T: Scalar> vstd::std_specs::ops::DivSpecImpl<T> for Vec3 {
    open spec fn obeys_div_spec() -> bool {
        true
    }

    /// The divisor is not zero.
    open spec fn div_req(self, rhs: T) -> bool {
        !rhs.double().zero()
    }

    open spec fn div_spec(self, rhs: T) -> Vec3 {
        shrunk(self, rhs.double())
    }
}

} // verus!
