//! Arithmetic on binary64 numbers: each result is the exact result rounded
//! to the nearest representable value.

use vstd::prelude::*;
use vstd::arithmetic::div_mod::lemma_fundamental_div_mod;
use vstd::arithmetic::power2::{
    lemma2_to64, lemma2_to64_rest, lemma_pow2_adds, lemma_pow2_pos, pow2,
};
use crate::binary64::{
    DEPTH, Double, grid, HIDDEN, INFINITE, lemma_grid_zero, lemma_pack_parts, opposite, parts,
    QUIET, scale,
};
use crate::cells::{lemma_cell_ratio, lemma_cell_root, lemma_cell_whole, round_pack, WIDE};
use crate::powers::{
    BROAD, integer_root, lemma_pow2_order, lemma_pow2_values, power_of_two, top_bit,
};
use crate::rounding::{Exact, lemma_nearest_on_grid, lemma_nearest_zero, nearest};

verus! {

/// The sum of two numbers.
pub open spec fn sum(a: Double, b: Double) -> Double {
    if a.nan() || b.nan() || (a.infinite() && b.infinite() && a.negative() != b.negative()) {
        Double::quiet()
    } else if a.infinite() {
        a
    } else if b.infinite() {
        b
    } else {
        let total = a.units() + b.units();
        if total == 0 {
            Double::pack(a.negative() && b.negative(), 0)
        } else if total > 0 {
            Double::pack(false, nearest(Exact::Ratio { num: total as nat, den: 1 }))
        } else {
            Double::pack(true, nearest(Exact::Ratio { num: (-total) as nat, den: 1 }))
        }
    }
}

/// The difference of two numbers.
pub open spec fn difference(a: Double, b: Double) -> Double {
    sum(a, opposite(b))
}

/// The product of two numbers.
pub open spec fn product(a: Double, b: Double) -> Double {
    if a.nan() || b.nan() || (a.infinite() && b.zero()) || (a.zero() && b.infinite()) {
        Double::quiet()
    } else if a.infinite() || b.infinite() {
        Double::pack(a.negative() != b.negative(), INFINITE as nat)
    } else {
        Double::pack(
            a.negative() != b.negative(),
            nearest(
                Exact::Ratio {
                    num: grid(a.magnitude()) * grid(b.magnitude()),
                    den: pow2(DEPTH as nat),
                },
            ),
        )
    }
}

/// The quotient of two numbers.
pub open spec fn quotient(a: Double, b: Double) -> Double {
    if a.nan() || b.nan() || (a.infinite() && b.infinite()) || (a.zero() && b.zero()) {
        Double::quiet()
    } else if a.infinite() || b.zero() {
        Double::pack(a.negative() != b.negative(), INFINITE as nat)
    } else if b.infinite() || a.zero() {
        Double::pack(a.negative() != b.negative(), 0)
    } else {
        Double::pack(
            a.negative() != b.negative(),
            nearest(
                Exact::Ratio {
                    num: grid(a.magnitude()) * pow2(DEPTH as nat),
                    den: grid(b.magnitude()),
                },
            ),
        )
    }
}

/// The square root of a number.
pub open spec fn square_root(a: Double) -> Double {
    if a.nan() {
        Double::quiet()
    } else if a.zero() {
        a
    } else if a.negative() {
        Double::quiet()
    } else if a.infinite() {
        a
    } else {
        Double::pack(false, nearest(Exact::Root { square: grid(a.magnitude()) * pow2(DEPTH as nat) }))
    }
}

/// Adds two finite numbers that are not zero, the first with the larger scale.
fn plus_ordered(n1: bool, m1: u64, n2: bool, m2: u64) -> (r: Double)
    requires
        0 < m1 < INFINITE,
        0 < m2 < INFINITE,
        scale(m1 as nat) >= scale(m2 as nat),
    ensures
        r == sum(Double::pack(n1, m1 as nat), Double::pack(n2, m2 as nat)),
{
    let (q1, s1) = parts(m1);
    let (q2, s2) = parts(m2);
    let ghost a = Double::pack(n1, m1 as nat);
    let ghost b = Double::pack(n2, m2 as nat);
    let ghost g1 = grid(m1 as nat);
    let ghost g2 = grid(m2 as nat);
    let ghost total = a.units() + b.units();
    let ghost w = pow2(s2 as nat);
    proof {
        lemma_pow2_values();
        lemma_pow2_pos(s2 as nat);
        lemma_pow2_pos(s1 as nat);
        assert(a.magnitude() == m1 && a.negative() == n1);
        assert(b.magnitude() == m2 && b.negative() == n2);
        assert(g2 > 0) by (nonlinear_arith)
            requires
                g2 == q2 * w,
                q2 > 0,
                w > 0,
        ;
    }
    let d: i32 = s1 - s2;
    if d <= 64 {
        let pd: u128 = power_of_two(d as u32);
        proof {
            lemma_pow2_adds(d as nat, s2 as nat);
            lemma2_to64();
            lemma_pow2_order(d as nat, 64);
            assert(q1 * pd < 0x20_0000_0000_0000 * 0x1_0000_0000_0000_0000) by (nonlinear_arith)
                requires
                    q1 < 0x20_0000_0000_0000,
                    pd <= 0x1_0000_0000_0000_0000,
            ;
        }
        let big: u128 = (q1 as u128) * pd;
        let small: u128 = q2 as u128;
        proof {
            assert(g1 == big * w) by (nonlinear_arith)
                requires
                    g1 == q1 * pow2(s1 as nat),
                    pow2(s1 as nat) == pd * w,
                    big == q1 * pd,
            ;
            assert(g2 == small * w);
        }
        if n1 == n2 {
            let sig: u128 = big + small;
            proof {
                let n = (g1 + g2) as nat;
                assert(n == sig * w && n < (sig + 1) * w) by (nonlinear_arith)
                    requires
                        n == big * w + small * w,
                        sig == big + small,
                        w > 0,
                ;
                lemma_cell_whole(n, sig as nat, s2 as nat, false);
                assert(total == if n1 { -(n as int) } else { n as int });
            }
            let m = round_pack(sig, s2, false, Ghost(Exact::Ratio { num: (g1 + g2) as nat, den: 1 }));
            Double::compose(n1, m)
        } else if big == small {
            assert(total == 0);
            Double::compose(false, 0)
        } else if big > small {
            let sig: u128 = big - small;
            proof {
                let n = (g1 - g2) as nat;
                assert(g1 - g2 == sig * w && g1 - g2 < (sig + 1) * w && g1 > g2) by (nonlinear_arith)
                    requires
                        g1 == big * w,
                        g2 == small * w,
                        sig == big - small,
                        sig > 0,
                        w > 0,
                ;
                lemma_cell_whole(n, sig as nat, s2 as nat, false);
                assert(total == if n1 { -(n as int) } else { n as int });
            }
            let m = round_pack(sig, s2, false, Ghost(Exact::Ratio { num: (g1 - g2) as nat, den: 1 }));
            Double::compose(n1, m)
        } else {
            let sig: u128 = small - big;
            proof {
                let n = (g2 - g1) as nat;
                assert(g2 - g1 == sig * w && g2 - g1 < (sig + 1) * w && g2 > g1) by (nonlinear_arith)
                    requires
                        g1 == big * w,
                        g2 == small * w,
                        sig == small - big,
                        sig > 0,
                        w > 0,
                ;
                lemma_cell_whole(n, sig as nat, s2 as nat, false);
                assert(total == if n2 { -(n as int) } else { n as int });
            }
            let m = round_pack(sig, s2, false, Ghost(Exact::Ratio { num: (g2 - g1) as nat, den: 1 }));
            Double::compose(n2, m)
        }
    } else {
        let e: i32 = s1 - 2;
        let ghost v = pow2(e as nat);
        proof {
            lemma_pow2_adds(2, e as nat);
            lemma_pow2_adds(53, s2 as nat);
            lemma_pow2_order((s2 + 53) as nat, e as nat);
            lemma2_to64();
            lemma_pow2_pos(e as nat);
            assert(g1 == (4 * q1) * v) by (nonlinear_arith)
                requires
                    g1 == q1 * pow2(s1 as nat),
                    pow2(s1 as nat) == 4 * v,
            ;
            assert(g2 < v) by (nonlinear_arith)
                requires
                    g2 == q2 * w,
                    q2 < 2 * HIDDEN,
                    pow2(53) == 2 * HIDDEN,
                    pow2(53) * w <= v,
                    w > 0,
            ;
        }
        if n1 == n2 {
            let sig: u128 = 4 * (q1 as u128);
            proof {
                let n = (g1 + g2) as nat;
                assert(sig * v < n && n < (sig + 1) * v) by (nonlinear_arith)
                    requires
                        n == g1 + g2,
                        g1 == sig * v,
                        0 < g2 < v,
                ;
                lemma_cell_whole(n, sig as nat, e as nat, true);
                assert(total == if n1 { -(n as int) } else { n as int });
            }
            let m = round_pack(sig, e, true, Ghost(Exact::Ratio { num: (g1 + g2) as nat, den: 1 }));
            Double::compose(n1, m)
        } else {
            let sig: u128 = 4 * (q1 as u128) - 1;
            proof {
                let n = (g1 - g2) as nat;
                assert(sig * v < g1 - g2 && g1 - g2 < (sig + 1) * v) by (nonlinear_arith)
                    requires
                        g1 == (sig + 1) * v,
                        0 < g2 < v,
                ;
                lemma_cell_whole(n, sig as nat, e as nat, true);
                assert(total == if n1 { -(n as int) } else { n as int });
            }
            let m = round_pack(sig, e, true, Ghost(Exact::Ratio { num: (g1 - g2) as nat, den: 1 }));
            Double::compose(n1, m)
        }
    }
}

impl Double {
    /// Addition.
    pub fn plus(self, rhs: Double) -> (r: Double)
        ensures
            r == sum(self, rhs),
    {
        let na = self.is_negative();
        let nb = rhs.is_negative();
        let ma = self.mag();
        let mb = rhs.mag();
        if ma > INFINITE || mb > INFINITE || (ma == INFINITE && mb == INFINITE && na != nb) {
            return Double { bits: QUIET };
        }
        if ma == INFINITE {
            return self;
        }
        if mb == INFINITE {
            return rhs;
        }
        proof {
            lemma_pack_parts(self);
            lemma_pack_parts(rhs);
            lemma_grid_zero(ma as nat);
            lemma_grid_zero(mb as nat);
        }
        if ma == 0 && mb == 0 {
            return Double::compose(na && nb, 0);
        }
        if mb == 0 {
            proof {
                lemma_nearest_on_grid(ma as nat);
            }
            return self;
        }
        if ma == 0 {
            proof {
                lemma_nearest_on_grid(mb as nat);
            }
            return rhs;
        }
        let (qa, sa) = parts(ma);
        let (qb, sb) = parts(mb);
        if sa >= sb {
            plus_ordered(na, ma, nb, mb)
        } else {
            plus_ordered(nb, mb, na, ma)
        }
    }

    /// Subtraction.
    pub fn minus(self, rhs: Double) -> (r: Double)
        ensures
            r == difference(self, rhs),
    {
        self.plus(rhs.negate())
    }

    /// Multiplication.
    pub fn times(self, rhs: Double) -> (r: Double)
        ensures
            r == product(self, rhs),
    {
        let negative = self.is_negative() != rhs.is_negative();
        let ma = self.mag();
        let mb = rhs.mag();
        if ma > INFINITE || mb > INFINITE || (ma == INFINITE && mb == 0) || (ma == 0 && mb
            == INFINITE) {
            return Double { bits: QUIET };
        }
        if ma == INFINITE || mb == INFINITE {
            return Double::compose(negative, INFINITE);
        }
        let (qa, sa) = parts(ma);
        let (qb, sb) = parts(mb);
        let ghost x = Exact::Ratio {
            num: grid(ma as nat) * grid(mb as nat),
            den: pow2(DEPTH as nat),
        };
        if ma == 0 || mb == 0 {
            proof {
                lemma_pow2_pos(DEPTH as nat);
                assert(grid(ma as nat) * grid(mb as nat) == 0) by (nonlinear_arith)
                    requires
                        grid(ma as nat) == qa * pow2(sa as nat),
                        grid(mb as nat) == qb * pow2(sb as nat),
                        qa == 0 || qb == 0,
                ;
                lemma_nearest_zero(x);
            }
            return Double::compose(negative, 0);
        }
        proof {
            lemma_pow2_values();
            assert((qa as int) * (qb as int) < WIDE && (qa as int) * (qb as int) > 0) by (nonlinear_arith)
                requires
                    0 < qa < 2 * HIDDEN,
                    0 < qb < 2 * HIDDEN,
                    HIDDEN == 0x0010_0000_0000_0000,
                    WIDE == 0x0100_0000_0000_0000_0000_0000_0000_0000,
            ;
        }
        let sig: u128 = (qa as u128) * (qb as u128);
        let e: i32 = sa + sb - 1074;
        proof {
            let up = (sa + sb) as nat;
            lemma_pow2_adds(sa as nat, sb as nat);
            lemma_pow2_pos(DEPTH as nat);
            lemma_pow2_pos(up);
            let num = grid(ma as nat) * grid(mb as nat);
            let den = pow2(DEPTH as nat);
            assert(num == sig * pow2(up)) by (nonlinear_arith)
                requires
                    num == (qa * pow2(sa as nat)) * (qb * pow2(sb as nat)),
                    sig == qa * qb,
                    pow2(up) == pow2(sa as nat) * pow2(sb as nat),
            ;
            assert(sig * pow2(up) * den == num * den);
            assert(num * den < (sig + 1) * pow2(up) * den) by (nonlinear_arith)
                requires
                    num == sig * pow2(up),
                    pow2(up) > 0,
                    den > 0,
            ;
            lemma_pow2_pos(up);
            lemma_cell_ratio(num, den, sig as nat, e as int, false, up, DEPTH as nat);
        }
        let m = round_pack(sig, e, false, Ghost(x));
        Double::compose(negative, m)
    }

    /// Division.
    pub fn over(self, rhs: Double) -> (r: Double)
        ensures
            r == quotient(self, rhs),
    {
        let negative = self.is_negative() != rhs.is_negative();
        let ma = self.mag();
        let mb = rhs.mag();
        if ma > INFINITE || mb > INFINITE || (ma == INFINITE && mb == INFINITE) || (ma == 0 && mb
            == 0) {
            return Double { bits: QUIET };
        }
        if ma == INFINITE || mb == 0 {
            return Double::compose(negative, INFINITE);
        }
        if mb == INFINITE || ma == 0 {
            return Double::compose(negative, 0);
        }
        let (qa, sa) = parts(ma);
        let (qb, sb) = parts(mb);
        let t: u32 = top_bit(qa as u128);
        proof {
            lemma_pow2_values();
            lemma_pow2_order(53, t as nat);
            lemma_pow2_order(t as nat, 53);
        }
        let shift: u32 = 115 - t;
        let p: u128 = power_of_two(shift);
        proof {
            lemma_pow2_adds(t as nat, shift as nat);
            lemma_pow2_adds(62, 53);
            lemma_pow2_order(115, 120);
            lemma2_to64();
            lemma2_to64_rest();
            assert(pow2(115) <= qa * p < 2 * pow2(115)) by (nonlinear_arith)
                requires
                    pow2(t as nat) <= qa < 2 * pow2(t as nat),
                    pow2(t as nat) * p == pow2(115),
                    p > 0,
            ;
        }
        let n: u128 = (qa as u128) * p;
        let q: u128 = n / (qb as u128);
        let rest: u128 = n % (qb as u128);
        let e: i32 = sa - sb + 1074 - (shift as i32);
        let ghost num = grid(ma as nat) * pow2(DEPTH as nat);
        let ghost den = grid(mb as nat);
        proof {
            lemma_fundamental_div_mod(n as int, qb as int);
            assert(pow2(62) <= q < WIDE) by (nonlinear_arith)
                requires
                    n == qb * q + rest,
                    0 <= rest < qb,
                    0 < qb < 2 * HIDDEN,
                    pow2(62) * (2 * HIDDEN) <= n < 2 * (pow2(62) * (2 * HIDDEN)),
                    pow2(62) == 0x4000000000000000,
                    HIDDEN == 0x0010_0000_0000_0000,
                    WIDE == 0x0100_0000_0000_0000_0000_0000_0000_0000,
            ;
            let a = (sa + 1074) as nat;
            let b = (sb + shift) as nat;
            lemma_pow2_adds(sa as nat, 1074);
            lemma_pow2_adds(sb as nat, shift as nat);
            lemma_pow2_pos(a);
            lemma_pow2_pos(sb as nat);
            let big = pow2(a) * pow2(sb as nat);
            assert(big > 0) by (nonlinear_arith)
                requires
                    big == pow2(a) * pow2(sb as nat),
                    pow2(a) > 0,
                    pow2(sb as nat) > 0,
            ;
            assert(num * pow2(b) == n * big) by (nonlinear_arith)
                requires
                    num == (qa * pow2(sa as nat)) * pow2(1074),
                    pow2(b) == pow2(sb as nat) * p,
                    pow2(a) == pow2(sa as nat) * pow2(1074),
                    n == qa * p,
                    big == pow2(a) * pow2(sb as nat),
            ;
            assert(q * pow2(a) * den == (q * qb) * big) by (nonlinear_arith)
                requires
                    den == qb * pow2(sb as nat),
                    big == pow2(a) * pow2(sb as nat),
            ;
            assert((q + 1) * pow2(a) * den == ((q + 1) * qb) * big) by (nonlinear_arith)
                requires
                    den == qb * pow2(sb as nat),
                    big == pow2(a) * pow2(sb as nat),
            ;
            assert((q * qb) * big <= n * big && n * big < ((q + 1) * qb) * big && ((n * big > (q
                * qb) * big) == (rest != 0))) by (nonlinear_arith)
                requires
                    n == qb * q + rest,
                    0 <= rest < qb,
                    big > 0,
            ;
            assert(den > 0) by (nonlinear_arith)
                requires
                    den == qb * pow2(sb as nat),
                    qb > 0,
                    pow2(sb as nat) > 0,
            ;
            lemma_cell_ratio(num, den, q as nat, e as int, rest != 0, a, b);
        }
        let m = round_pack(q, e, rest != 0, Ghost(Exact::Ratio { num, den }));
        Double::compose(negative, m)
    }

    /// Square root.
    pub fn root(self) -> (r: Double)
        ensures
            r == square_root(self),
    {
        let m = self.mag();
        if m > INFINITE {
            return Double { bits: QUIET };
        }
        if m == 0 {
            return self;
        }
        if self.is_negative() {
            return Double { bits: QUIET };
        }
        if m == INFINITE {
            return self;
        }
        let (q, s) = parts(m);
        let t: u32 = top_bit(q as u128);
        proof {
            lemma_pow2_values();
            lemma_pow2_order(53, t as nat);
            lemma_pow2_order(t as nat, 53);
        }
        let base: i32 = 110 - (t as i32);
        let shift: i32 = if (s + 1074 - base) % 2 == 0 {
            base
        } else {
            base + 1
        };
        let p: u128 = power_of_two(shift as u32);
        proof {
            lemma_pow2_adds(t as nat, shift as nat);
            lemma_pow2_adds(56, 56);
            lemma_pow2_adds(56, 54);
            lemma_pow2_adds(1, 110);
            lemma_pow2_adds(1, 111);
            lemma2_to64();
            lemma2_to64_rest();
            assert(pow2(112) == BROAD);
            assert(pow2(110) <= q * p < pow2(112)) by (nonlinear_arith)
                requires
                    pow2(t as nat) <= q < 2 * pow2(t as nat),
                    pow2(t as nat) * p == pow2(110) || pow2(t as nat) * p == pow2(111),
                    pow2(111) == 2 * pow2(110),
                    pow2(112) == 2 * pow2(111),
                    p > 0,
            ;
        }
        let n: u128 = (q as u128) * p;
        let r: u128 = integer_root(n);
        let e: i32 = (s + 1074 - shift) / 2;
        let ghost square = grid(m as nat) * pow2(DEPTH as nat);
        proof {
            lemma_pow2_adds(55, 55);
            assert(r >= 2 * HIDDEN) by (nonlinear_arith)
                requires
                    n < (r + 1) * (r + 1),
                    n >= 0x20_0000_0000_0000 * 0x20_0000_0000_0000,
                    HIDDEN == 0x0010_0000_0000_0000,
                    r >= 0,
            ;
            lemma_pow2_adds(s as nat, 1074);
            lemma_pow2_adds(shift as nat, (2 * e) as nat);
            assert(square == n * pow2((2 * e) as nat)) by (nonlinear_arith)
                requires
                    square == (q * pow2(s as nat)) * pow2(1074),
                    pow2(s as nat) * pow2(1074) == p * pow2((2 * e) as nat),
                    n == q * p,
            ;
            lemma_cell_root(square, n as nat, r as nat, e as nat, r * r != n);
        }
        let ok = round_pack(r, e, r * r != n, Ghost(Exact::Root { square }));
        Double::compose(false, ok)
    }
}

} // verus!
