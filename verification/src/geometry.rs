//! Lengths, products, reflection and interpolation.

use vstd::prelude::*;
use crate::arith::{difference, product, square_root, sum};
use crate::binary64::{absolute, Double};
use crate::constants::{lemma_constants, millionth, MILLIONTH, ONE, TWO};
use crate::convert::whole;
use crate::order::below;
use crate::vector::{apart, scaled, shrunk, Vec3};

verus! {

/// The sum of the products of the components.
pub open spec fn inner(a: Vec3, b: Vec3) -> Double {
    sum(sum(product(a.x, b.x), product(a.y, b.y)), product(a.z, b.z))
}

/// The sum of the squares of the components.
pub open spec fn norm_squared(v: Vec3) -> Double {
    sum(sum(product(v.x, v.x), product(v.y, v.y)), product(v.z, v.z))
}

/// The Euclidean length.
pub open spec fn norm(v: Vec3) -> Double {
    square_root(norm_squared(v))
}

/// The vector divided by its length.
pub open spec fn direction(v: Vec3) -> Vec3 {
    shrunk(v, norm(v))
}

/// The right-handed vector product.
pub open spec fn outer(a: Vec3, b: Vec3) -> Vec3 {
    Vec3 {
        x: difference(product(a.y, b.z), product(b.y, a.z)),
        y: difference(product(a.z, b.x), product(b.z, a.x)),
        z: difference(product(a.x, b.y), product(b.x, a.y)),
    }
}

/// Twice `n` times the inner product of `n` and `v`, less `v`: the mirror
/// image of `v` about the axis `n` when `n` has length one.
pub open spec fn mirrored(v: Vec3, n: Vec3) -> Vec3 {
    let m = scaled(scaled(n, whole(2)), inner(n, v));
    Vec3 { x: difference(m.x, v.x), y: difference(m.y, v.y), z: difference(m.z, v.z) }
}

/// One component of an interpolation: `a` weighted by one less `t`, plus
/// `b` weighted by `t`.
pub open spec fn mixed(a: Double, b: Double, t: Double) -> Double {
    sum(product(a, difference(whole(1), t)), product(b, t))
}

/// The point at `t` on the line from `a` (at zero) through `b` (at one).
pub open spec fn blend(a: Vec3, b: Vec3, t: Double) -> Vec3 {
    Vec3 { x: mixed(a.x, b.x, t), y: mixed(a.y, b.y, t), z: mixed(a.z, b.z, t) }
}

/// The distance between the two vectors is under a millionth.
pub open spec fn near(a: Vec3, b: Vec3) -> bool {
    below(absolute(norm(apart(a, b))), millionth())
}

impl Vec3 {
    /// Whether `v` is less than a millionth away.
    pub fn is_close(self, v: Vec3) -> (r: bool)
        ensures
            r == near(self, v),
    {
        proof {
            lemma_constants();
        }
        length(self - v).abs().less_than(Double { bits: MILLIONTH })
    }
}

/// The Euclidean length of `v`.
pub fn length(v: Vec3) -> (r: Double)
    ensures
        r == norm(v),
{
    v.x.times(v.x).plus(v.y.times(v.y)).plus(v.z.times(v.z)).root()
}

/// The square of the length of `v`.
pub fn length_sq(v: Vec3) -> (r: Double)
    ensures
        r == norm_squared(v),
{
    v.x.times(v.x).plus(v.y.times(v.y)).plus(v.z.times(v.z))
}

/// The vector of length one that points where `v` points.
pub fn normalize(v: Vec3) -> (r: Vec3)
    requires
        !norm(v).zero(),
    ensures
        r == direction(v),
{
    v / length(v)
}

/// The inner product.
pub fn dot(v1: Vec3, v2: Vec3) -> (r: Double)
    ensures
        r == inner(v1, v2),
{
    v1.x.times(v2.x).plus(v1.y.times(v2.y)).plus(v1.z.times(v2.z))
}

/// The vector product.
pub fn cross(v1: Vec3, v2: Vec3) -> (r: Vec3)
    ensures
        r == outer(v1, v2),
{
    Vec3 {
        x: v1.y.times(v2.z).minus(v2.y.times(v1.z)),
        y: v1.z.times(v2.x).minus(v2.z.times(v1.x)),
        z: v1.x.times(v2.y).minus(v2.x.times(v1.y)),
    }
}

/// The mirror image of `v` about the axis `n`, which need not have length
/// one: it is brought to length one first.
pub fn reflect(v: Vec3, n: Vec3) -> (r: Vec3)
    requires
        !norm(n).zero(),
    ensures
        r == mirrored(v, direction(n)),
{
    proof {
        lemma_constants();
    }
    let n = normalize(n);
    n * Double { bits: TWO } * dot(n, v) - v
}

/// The mirror image of `v` about the axis `n`, which must have length one.
/// For another `n` the result is the same expression, and no mirror image.
pub fn reflect_opt(v: Vec3, n: Vec3) -> (r: Vec3)
    ensures
        r == mirrored(v, n),
{
    proof {
        lemma_constants();
    }
    n * Double { bits: TWO } * dot(n, v) - v
}

/// One step of drawing a direction by rejection. A sample from the cube
/// that lies inside the unit ball is taken and brought to length one; any
/// other sample is refused, and the caller draws again.
pub fn on_unit_sphere(sample: Vec3) -> (r: Option<Vec3>)
    requires
        !norm(sample).zero(),
    ensures
        r == if below(norm(sample), whole(1)) {
            Some(direction(sample))
        } else {
            None
        },
{
    proof {
        lemma_constants();
    }
    let l = length(sample);
    if l.less_than(Double { bits: ONE }) {
        Some(sample / l)
    } else {
        None
    }
}

/// The point at `x` on the line from `v1` (at zero) through `v2` (at one).
/// `x` may lie outside that stretch.
pub fn lerp(v1: Vec3, v2: Vec3, x: Double) -> (r: Vec3)
    ensures
        r == blend(v1, v2, x),
{
    proof {
        lemma_constants();
    }
    let rest = Double { bits: ONE }.minus(x);
    Vec3 {
        x: v1.x.times(rest).plus(v2.x.times(x)),
        y: v1.y.times(rest).plus(v2.y.times(x)),
        z: v1.z.times(rest).plus(v2.z.times(x)),
    }
}

} // verus!
