//! Laws of the arithmetic and of the vector operations.

use vstd::prelude::*;
use vstd::arithmetic::power2::{
    lemma2_to64, lemma_pow2_adds, lemma_pow2_pos, lemma_pow2_unfold, pow2,
};
use crate::arith::{difference, product, quotient, square_root, sum};
use crate::binary64::{
    DEPTH, Double, grid, HIDDEN, INFINITE, join, lemma_grid_increases, lemma_grid_parts,
    lemma_grid_zero, lemma_pack_parts, opposite,
};
use crate::constants::lemma_constants;
use crate::convert::whole;
use crate::geometry::{inner, near, norm, norm_squared, outer};
use crate::order::{below, same};
use crate::powers::{lemma_pow2_order, lemma_pow2_values};
use crate::rounding::{Exact, lemma_nearest_bounded, lemma_nearest_on_grid, lemma_nearest_zero};
use crate::vector::{added, alike, apart, negated, Vec3, volume};

verus! {

/// Numbers that are not NaNs are ordered as their values are.
pub proof fn law_order_follows_values(a: Double, b: Double)
    requires
        a.finite(),
        b.finite(),
    ensures
        below(a, b) == (a.units() < b.units()),
        same(a, b) == (a.units() == b.units()),
{
    let ma = a.magnitude();
    let mb = b.magnitude();
    lemma_grid_zero(ma);
    lemma_grid_zero(mb);
    if ma < mb {
        lemma_grid_increases(ma, mb);
    }
    if mb < ma {
        lemma_grid_increases(mb, ma);
    }
}

/// The sum of two finite numbers is exact: no rounding took place.
pub open spec fn adds_exactly(a: Double, b: Double) -> bool {
    &&& a.finite()
    &&& b.finite()
    &&& sum(a, b).finite()
    &&& sum(a, b).units() == a.units() + b.units()
}

/// Taking away what was added gives the first number back, where the sum
/// was exact.
pub proof fn law_sum_undone(a: Double, b: Double)
    requires
        adds_exactly(a, b),
    ensures
        same(difference(sum(a, b), b), a),
{
    let c = sum(a, b);
    let ob = opposite(b);
    assert(ob.magnitude() == b.magnitude() && ob.negative() == !b.negative());
    lemma_grid_zero(b.magnitude());
    lemma_grid_zero(a.magnitude());
    assert(ob.units() == -b.units());
    let total = c.units() + ob.units();
    assert(total == a.units());
    if total != 0 {
        lemma_nearest_on_grid(a.magnitude());
    }
}

/// Adding a vector and taking it away again gives the first vector back,
/// where the three sums were exact.
pub proof fn law_add_then_sub(a: Vec3, b: Vec3)
    requires
        adds_exactly(a.x, b.x),
        adds_exactly(a.y, b.y),
        adds_exactly(a.z, b.z),
    ensures
        alike(apart(added(a, b), b), a),
{
    law_sum_undone(a.x, b.x);
    law_sum_undone(a.y, b.y);
    law_sum_undone(a.z, b.z);
}

/// The product does not depend on the order of its factors.
pub proof fn law_product_commutes(a: Double, b: Double)
    ensures
        product(a, b) == product(b, a),
{
    assert(grid(a.magnitude()) * grid(b.magnitude()) == grid(b.magnitude()) * grid(a.magnitude()))
        by (nonlinear_arith);
}

/// The inner product does not depend on the order of its factors.
pub proof fn law_dot_commutes(a: Vec3, b: Vec3)
    ensures
        inner(a, b) == inner(b, a),
{
    law_product_commutes(a.x, b.x);
    law_product_commutes(a.y, b.y);
    law_product_commutes(a.z, b.z);
}

/// Exchanging the two numbers of a difference changes its sign.
pub proof fn law_difference_flips(p: Double, q: Double)
    requires
        !difference(p, q).nan(),
    ensures
        same(difference(p, q), opposite(difference(q, p))),
{
    let op = opposite(p);
    let oq = opposite(q);
    assert(op.magnitude() == p.magnitude() && op.negative() == !p.negative());
    assert(oq.magnitude() == q.magnitude() && oq.negative() == !q.negative());
    if p.finite() && q.finite() {
        lemma_grid_zero(p.magnitude());
        lemma_grid_zero(q.magnitude());
        let t = p.units() + oq.units();
        assert(q.units() + op.units() == -t);
        if t > 0 {
            lemma_nearest_bounded(Exact::Ratio { num: t as nat, den: 1 });
        } else if t < 0 {
            lemma_nearest_bounded(Exact::Ratio { num: (-t) as nat, den: 1 });
        }
    }
}

/// The vector product changes its sign when its factors are exchanged,
/// wherever it has no NaN among its components.
pub proof fn law_cross_anticommutes(a: Vec3, b: Vec3)
    requires
        !outer(a, b).x.nan(),
        !outer(a, b).y.nan(),
        !outer(a, b).z.nan(),
    ensures
        alike(outer(a, b), negated(outer(b, a))),
{
    law_difference_flips(product(a.y, b.z), product(b.y, a.z));
    law_difference_flips(product(a.z, b.x), product(b.z, a.x));
    law_difference_flips(product(a.x, b.y), product(b.x, a.y));
}

/// The squared length of a vector is its inner product with itself.
pub proof fn law_length_sq_is_dot(v: Vec3)
    ensures
        norm_squared(v) == inner(v, v),
{
}

/// Zero times a finite number is zero.
pub proof fn law_zero_annihilates(a: Double, b: Double)
    requires
        a.finite(),
        b.finite(),
        a.zero() || b.zero(),
    ensures
        product(a, b).zero(),
{
    lemma_grid_zero(0);
    lemma_pow2_pos(DEPTH as nat);
    let num = grid(a.magnitude()) * grid(b.magnitude());
    assert(num == 0) by (nonlinear_arith)
        requires
            num == grid(a.magnitude()) * grid(b.magnitude()),
            grid(a.magnitude()) == 0 || grid(b.magnitude()) == 0,
    ;
    lemma_nearest_zero(Exact::Ratio { num, den: pow2(DEPTH as nat) });
}

/// A vector of finite components of which one is zero is no divisor, as
/// long as the product of the first two components stays finite.
pub proof fn law_zero_component_is_refused(v: Vec3)
    requires
        v.x.finite(),
        v.y.finite(),
        v.z.finite(),
        v.x.zero() || v.y.zero() || v.z.zero(),
        product(v.x, v.y).finite(),
    ensures
        volume(v).zero(),
{
    if v.x.zero() || v.y.zero() {
        law_zero_annihilates(v.x, v.y);
    }
    law_zero_annihilates(product(v.x, v.y), v.z);
}

/// The whole number zero is no divisor.
pub proof fn law_zero_scalar_is_refused()
    ensures
        whole(0).zero(),
{
    assert(0 * pow2(DEPTH as nat) == 0) by (nonlinear_arith);
    lemma_nearest_zero(Exact::Ratio { num: 0, den: 1 });
}

/// The vector product of a vector with itself is zero, where the products
/// of its components are finite.
pub proof fn law_cross_with_itself(a: Vec3)
    requires
        product(a.y, a.z).finite(),
        product(a.z, a.x).finite(),
        product(a.x, a.y).finite(),
    ensures
        outer(a, a).x.zero(),
        outer(a, a).y.zero(),
        outer(a, a).z.zero(),
{
    let p = product(a.y, a.z);
    let q = product(a.z, a.x);
    let r = product(a.x, a.y);
    assert(opposite(p).magnitude() == p.magnitude());
    assert(opposite(q).magnitude() == q.magnitude());
    assert(opposite(r).magnitude() == r.magnitude());
    lemma_grid_zero(p.magnitude());
    lemma_grid_zero(q.magnitude());
    lemma_grid_zero(r.magnitude());
}

/// The position of the highest bit of a positive whole number.
pub proof fn lemma_bit_length(n: nat) -> (p: nat)
    requires
        n > 0,
    ensures
        pow2(p) <= n < 2 * pow2(p),
    decreases n,
{
    if n == 1 {
        lemma2_to64();
        0
    } else {
        let q = lemma_bit_length(n / 2);
        lemma_pow2_unfold(q + 1);
        q + 1
    }
}

/// Whole numbers of size under two to the 53rd convert without loss.
pub proof fn law_whole_is_exact(i: int)
    requires
        -0x20_0000_0000_0000 < i < 0x20_0000_0000_0000,
    ensures
        whole(i).finite(),
        whole(i).negative() == (i < 0),
        whole(i).units() == i * pow2(DEPTH as nat),
{
    let e = pow2(DEPTH as nat);
    let n = if i < 0 {
        (-i) as nat
    } else {
        i as nat
    };
    lemma_pow2_pos(DEPTH as nat);
    assert(-i * e == -(i * e) && n * e >= 0) by (nonlinear_arith)
        requires
            n >= 0,
            e > 0,
    ;
    if n == 0 {
        assert(n * e == 0) by (nonlinear_arith)
            requires
                n == 0,
        ;
        lemma_nearest_zero(Exact::Ratio { num: 0, den: 1 });
        lemma_grid_zero(0);
        assert(i * e == 0) by (nonlinear_arith)
            requires
                i == 0,
        ;
    } else {
        let p = lemma_bit_length(n);
        lemma_pow2_values();
        lemma_pow2_order(53, p);
        let up = (52 - p) as nat;
        let q = n * pow2(up);
        let s = p + 1022;
        lemma_pow2_adds(p, up);
        lemma_pow2_adds(up, s);
        lemma_pow2_pos(up);
        assert(HIDDEN <= q < 2 * HIDDEN) by (nonlinear_arith)
            requires
                q == n * pow2(up),
                pow2(p) <= n < 2 * pow2(p),
                pow2(p) * pow2(up) == HIDDEN,
                pow2(up) > 0,
        ;
        lemma_grid_parts(s, q);
        let m = join(s, q);
        assert(grid(m) == n * e) by (nonlinear_arith)
            requires
                grid(m) == q * pow2(s),
                q == n * pow2(up),
                pow2(up) * pow2(s) == e,
        ;
        assert(m < INFINITE) by (nonlinear_arith)
            requires
                m == s * HIDDEN + q,
                s <= 1074,
                q < 2 * HIDDEN,
                HIDDEN == 0x10_0000_0000_0000,
                INFINITE == 0x7FF0_0000_0000_0000,
        ;
        lemma_nearest_on_grid(m);
        assert(i * e == if i < 0 { -(n * e) } else { (n * e) as int }) by (nonlinear_arith)
            requires
                n == if i < 0 { -i } else { i },
        ;
    }
}

/// Whole numbers add without rounding while their sum stays under two to
/// the 53rd.
pub proof fn law_whole_numbers_add_exactly(i: int, j: int)
    requires
        -0x20_0000_0000_0000 < i < 0x20_0000_0000_0000,
        -0x20_0000_0000_0000 < j < 0x20_0000_0000_0000,
        -0x20_0000_0000_0000 < i + j < 0x20_0000_0000_0000,
    ensures
        adds_exactly(whole(i), whole(j)),
        same(sum(whole(i), whole(j)), whole(i + j)),
{
    let e = pow2(DEPTH as nat);
    let a = whole(i);
    let b = whole(j);
    lemma_pow2_pos(DEPTH as nat);
    law_whole_is_exact(i);
    law_whole_is_exact(j);
    law_whole_is_exact(i + j);
    let c = whole(i + j);
    lemma_pack_parts(c);
    lemma_grid_zero(c.magnitude());
    let total = a.units() + b.units();
    assert(total == (i + j) * e) by (nonlinear_arith)
        requires
            total == i * e + j * e,
    ;
    assert(((i + j) * e > 0) == (i + j > 0) && ((i + j) * e < 0) == (i + j < 0)) by (nonlinear_arith)
        requires
            e > 0,
    ;
    if total != 0 {
        lemma_nearest_on_grid(c.magnitude());
    }
}

/// Sums, differences and products of finite numbers are numbers: they may
/// be infinite, and are never a NaN.
pub proof fn law_finite_numbers_give_numbers(a: Double, b: Double)
    requires
        a.finite(),
        b.finite(),
    ensures
        !sum(a, b).nan(),
        !difference(a, b).nan(),
        !product(a, b).nan(),
{
    let ob = opposite(b);
    assert(ob.magnitude() == b.magnitude());
    let plus = a.units() + b.units();
    let minus = a.units() + ob.units();
    if plus > 0 {
        lemma_nearest_bounded(Exact::Ratio { num: plus as nat, den: 1 });
    } else if plus < 0 {
        lemma_nearest_bounded(Exact::Ratio { num: (-plus) as nat, den: 1 });
    }
    if minus > 0 {
        lemma_nearest_bounded(Exact::Ratio { num: minus as nat, den: 1 });
    } else if minus < 0 {
        lemma_nearest_bounded(Exact::Ratio { num: (-minus) as nat, den: 1 });
    }
    lemma_pow2_pos(DEPTH as nat);
    lemma_nearest_bounded(
        Exact::Ratio { num: grid(a.magnitude()) * grid(b.magnitude()), den: pow2(DEPTH as nat) },
    );
}

/// The quotient of a finite number by a finite number that is not zero is
/// a number, and so is the square root of a finite number that is not
/// below zero.
pub proof fn law_guarded_division_gives_numbers(a: Double, b: Double)
    requires
        a.finite(),
        b.finite(),
        !b.zero(),
    ensures
        !quotient(a, b).nan(),
        !a.negative() || a.zero() ==> !square_root(a).nan(),
{
    lemma_grid_zero(b.magnitude());
    lemma_nearest_bounded(
        Exact::Ratio { num: grid(a.magnitude()) * pow2(DEPTH as nat), den: grid(b.magnitude()) },
    );
    lemma_nearest_bounded(Exact::Root { square: grid(a.magnitude()) * pow2(DEPTH as nat) });
}

/// A square is not negative.
proof fn lemma_square_not_negative(c: Double)
    ensures
        !product(c, c).negative(),
{
    lemma_pow2_pos(1074);
    lemma_nearest_bounded(
        Exact::Ratio { num: grid(c.magnitude()) * grid(c.magnitude()), den: pow2(1074) },
    );
}

/// The sum of two numbers that are not negative is not negative.
proof fn lemma_sum_not_negative(a: Double, b: Double)
    requires
        !a.negative(),
        !b.negative(),
    ensures
        !sum(a, b).negative(),
{
    let total = a.units() + b.units();
    if total > 0 {
        lemma_nearest_bounded(Exact::Ratio { num: total as nat, den: 1 });
    }
}

/// A squared length is not negative.
pub proof fn law_length_sq_not_negative(v: Vec3)
    ensures
        !norm_squared(v).negative(),
{
    lemma_square_not_negative(v.x);
    lemma_square_not_negative(v.y);
    lemma_square_not_negative(v.z);
    lemma_sum_not_negative(product(v.x, v.x), product(v.y, v.y));
    lemma_sum_not_negative(sum(product(v.x, v.x), product(v.y, v.y)), product(v.z, v.z));
}

/// A length is not negative.
pub proof fn law_length_not_negative(v: Vec3)
    ensures
        !norm(v).negative(),
{
    law_length_sq_not_negative(v);
    lemma_nearest_bounded(
        Exact::Root { square: grid(norm_squared(v).magnitude()) * pow2(DEPTH as nat) },
    );
}

/// A vector of finite components is close to itself.
pub proof fn law_is_close_to_itself(v: Vec3)
    requires
        v.x.finite(),
        v.y.finite(),
        v.z.finite(),
    ensures
        near(v, v),
{
    let d = apart(v, v);
    assert(opposite(v.x).magnitude() == v.x.magnitude());
    assert(opposite(v.y).magnitude() == v.y.magnitude());
    assert(opposite(v.z).magnitude() == v.z.magnitude());
    assert(d.x.bits == 0 && d.y.bits == 0 && d.z.bits == 0);
    lemma_grid_zero(0);
    lemma_pow2_pos(DEPTH as nat);
    assert(grid(0) * grid(0) == 0) by (nonlinear_arith)
        requires
            grid(0) == 0,
    ;
    lemma_nearest_zero(Exact::Ratio { num: 0, den: pow2(DEPTH as nat) });
    assert(product(d.x, d.x).bits == 0);
    assert(norm_squared(d).bits == 0);
    assert(norm(d).bits == 0);
    lemma_constants();
}

} // verus!
