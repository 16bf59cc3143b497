//! Cells: where an exact result lies before it is rounded, and the
//! rounding of a cell.

use vstd::prelude::*;
use vstd::arithmetic::div_mod::lemma_fundamental_div_mod;
use vstd::arithmetic::power2::{
    lemma2_to64, lemma2_to64_rest, lemma_pow2_adds, lemma_pow2_pos, lemma_pow2_strictly_increases,
    lemma_pow2_unfold, pow2,
};
use crate::binary64::{grid, HIDDEN, INFINITE, join, lemma_grid_parts, lemma_grid_step, scale};
use crate::powers::{lemma_pow2_order, lemma_pow2_values, power_of_two, top_bit};
use crate::rounding::{
    Exact, is_floor, lemma_nearest_of_floor, lemma_reaches_below, lemma_reaches_zoom, nearest,
};

verus! {

/// The unit in which cells are measured, as a fraction of a grid unit.
pub open spec fn zoom() -> nat {
    pow2(1200)
}

/// The number lies in the cell of width two to the `e` that starts at `sig`
/// times that width: at the start when `sticky` is false, strictly inside
/// when it is true.
pub open spec fn in_cell(x: Exact, sig: nat, e: int, sticky: bool) -> bool {
    let w = pow2((e + 1200) as nat);
    &&& e >= -1200
    &&& x.reaches_at(zoom(), 2 * sig * w)
    &&& !x.reaches_at(zoom(), 2 * (sig + 1) * w)
    &&& sticky == x.exceeds_at(zoom(), 2 * sig * w)
}

/// The rule for the bits that rounding drops: `r` are the dropped bits, `half`
/// the weight of the first of them, `q` what is kept.
pub open spec fn rounds_up(r: nat, half: nat, sticky: bool, q: nat) -> bool {
    r > half || (r == half && (sticky || q % 2 == 1))
}

/// Rounding a cell that is finer than the grid: `k` bits of `sig` are dropped.
pub proof fn lemma_cell_rounds(x: Exact, sig: nat, e: int, sticky: bool, s: nat, k: nat, q: nat, r: nat)
    requires
        x.wf(),
        in_cell(x, sig, e, sticky),
        k >= 1,
        s == k + e,
        sig == q * pow2(k) + r,
        r < pow2(k),
        q < 2 * HIDDEN,
        s == 0 || q >= HIDDEN,
        s < 2046,
    ensures
        nearest(x) == join(s, q) + if rounds_up(r, pow2((k - 1) as nat), sticky, q) {
            1nat
        } else {
            0nat
        },
        join(s, q) < INFINITE,
{
    let c = zoom();
    let w = pow2((e + 1200) as nat);
    let d = pow2(k);
    let half = pow2((k - 1) as nat);
    let ulp = pow2(s);
    let m = join(s, q);
    lemma_pow2_pos(1200);
    lemma_pow2_pos((e + 1200) as nat);
    lemma_pow2_adds(s, 1200);
    lemma_pow2_adds(k, (e + 1200) as nat);
    lemma_pow2_unfold(k);
    assert(ulp * c == d * w);
    assert(d == 2 * half);
    lemma_grid_parts(s, q);
    lemma_grid_step(m);
    assert(scale(m) == s);
    assert(grid(m) == q * ulp);
    assert(grid(m + 1) == q * ulp + ulp);
    assert(m < INFINITE) by (nonlinear_arith)
        requires
            m == s * HIDDEN + q,
            s <= 2045,
            q < 2 * HIDDEN,
    ;
    let low = 2 * sig * w;
    let high = 2 * (sig + 1) * w;
    let t_floor = (2 * grid(m)) * c;
    let t_next = (2 * grid(m + 1)) * c;
    let t_mid = (grid(m) + grid(m + 1)) * c;
    let uc = ulp * c;
    assert(t_floor == 2 * q * uc) by (nonlinear_arith)
        requires
            t_floor == (2 * (q * ulp)) * c,
            uc == ulp * c,
    ;
    assert(t_next == 2 * (q + 1) * uc) by (nonlinear_arith)
        requires
            t_next == (2 * (q * ulp + ulp)) * c,
            uc == ulp * c,
    ;
    assert(t_mid == (2 * q + 1) * uc) by (nonlinear_arith)
        requires
            t_mid == (q * ulp + (q * ulp + ulp)) * c,
            uc == ulp * c,
    ;
    assert(t_floor <= low) by (nonlinear_arith)
        requires
            t_floor == 2 * q * uc,
            uc == d * w,
            low == 2 * sig * w,
            sig == q * d + r,
    ;
    assert(high <= t_next) by (nonlinear_arith)
        requires
            t_next == 2 * (q + 1) * uc,
            uc == d * w,
            high == 2 * (sig + 1) * w,
            sig == q * d + r,
            r < d,
    ;
    assert(t_mid == 2 * (q * d + half) * w) by (nonlinear_arith)
        requires
            t_mid == (2 * q + 1) * uc,
            uc == d * w,
            d == 2 * half,
    ;
    assert(r < half ==> high <= t_mid) by (nonlinear_arith)
        requires
            t_mid == 2 * (q * d + half) * w,
            high == 2 * (sig + 1) * w,
            sig == q * d + r,
    ;
    assert(r > half ==> t_mid < low) by (nonlinear_arith)
        requires
            t_mid == 2 * (q * d + half) * w,
            low == 2 * sig * w,
            sig == q * d + r,
            w > 0,
    ;
    assert(r == half ==> t_mid == low) by (nonlinear_arith)
        requires
            t_mid == 2 * (q * d + half) * w,
            low == 2 * sig * w,
            sig == q * d + r,
    ;
    lemma_reaches_below(x, c, t_floor, low);
    lemma_reaches_below(x, c, high, t_next);
    lemma_reaches_zoom(x, c, 2 * grid(m));
    lemma_reaches_zoom(x, c, 2 * grid(m + 1));
    lemma_reaches_zoom(x, c, grid(m) + grid(m + 1));
    assert(is_floor(x, m));
    lemma_nearest_of_floor(x, m);
    if r < half {
        lemma_reaches_below(x, c, high, t_mid);
        lemma_reaches_below(x, c, t_mid, t_mid);
    } else if r > half {
        lemma_reaches_below(x, c, t_mid, low);
    } else {
        lemma_reaches_below(x, c, t_mid, t_mid);
    }
    assert(m % 2 == q % 2) by (nonlinear_arith)
        requires
            m == s * 0x0010_0000_0000_0000 + q,
    ;
}

/// Rounding a number that lies on the grid.
pub proof fn lemma_cell_exact(x: Exact, sig: nat, e: int, s: nat, q: nat)
    requires
        x.wf(),
        in_cell(x, sig, e, false),
        s <= e,
        q == sig * pow2((e - s) as nat),
        q < 2 * HIDDEN,
        s == 0 || q >= HIDDEN,
        s < 2046,
    ensures
        nearest(x) == join(s, q),
        join(s, q) < INFINITE,
{
    let c = zoom();
    let w = pow2((e + 1200) as nat);
    let d = pow2((e - s) as nat);
    let ulp = pow2(s);
    let m = join(s, q);
    lemma_pow2_pos(1200);
    lemma_pow2_pos(s);
    lemma_pow2_adds(s, 1200);
    lemma_pow2_adds((e - s) as nat, (s + 1200) as nat);
    let uc = ulp * c;
    assert(w == d * uc);
    assert(uc > 0) by (nonlinear_arith)
        requires
            uc == ulp * c,
            ulp > 0,
            c > 0,
    ;
    lemma_grid_parts(s, q);
    lemma_grid_step(m);
    assert(scale(m) == s);
    assert(m < INFINITE) by (nonlinear_arith)
        requires
            m == s * HIDDEN + q,
            s <= 2045,
            q < 2 * HIDDEN,
    ;
    let low = 2 * sig * w;
    let t_floor = (2 * grid(m)) * c;
    let t_next = (2 * grid(m + 1)) * c;
    let t_mid = (grid(m) + grid(m + 1)) * c;
    assert(t_floor == low) by (nonlinear_arith)
        requires
            t_floor == (2 * (q * ulp)) * c,
            uc == ulp * c,
            low == 2 * sig * w,
            w == d * uc,
            q == sig * d,
    ;
    assert(low < t_mid && t_mid < t_next) by (nonlinear_arith)
        requires
            t_floor == (2 * (q * ulp)) * c,
            t_floor == low,
            t_mid == (q * ulp + (q * ulp + ulp)) * c,
            t_next == (2 * (q * ulp + ulp)) * c,
            uc == ulp * c,
            uc > 0,
    ;
    lemma_reaches_zoom(x, c, 2 * grid(m));
    lemma_reaches_zoom(x, c, 2 * grid(m + 1));
    lemma_reaches_zoom(x, c, grid(m) + grid(m + 1));
    // at the floor and not above it: below everything larger
    if x.reaches_at(c, t_mid) {
        lemma_reaches_below(x, c, low, t_mid);
    }
    if x.reaches_at(c, t_next) {
        lemma_reaches_below(x, c, low, t_next);
    }
    lemma_reaches_below(x, c, t_mid, t_mid);
    assert(is_floor(x, m));
    lemma_nearest_of_floor(x, m);
}

/// A number at or above two to the 1024 rounds to infinity.
pub proof fn lemma_cell_overflows(x: Exact, sig: nat, e: int, p: nat)
    requires
        x.wf(),
        in_cell(x, sig, e, false) || in_cell(x, sig, e, true),
        sig >= pow2(p),
        p + e >= 2098,
    ensures
        nearest(x) == INFINITE,
{
    reveal(nearest);
    let c = zoom();
    let w = pow2((e + 1200) as nat);
    let top = grid(INFINITE as nat);
    lemma_pow2_pos(1200);
    lemma_grid_parts(2046, HIDDEN as nat);
    assert(join(2046, HIDDEN as nat) == INFINITE);
    lemma2_to64();
    lemma2_to64_rest();
    lemma_pow2_adds(52, 2046);
    lemma_pow2_adds(2098, 1200);
    assert(top == pow2(2098));
    lemma_pow2_adds(p, (e + 1200) as nat);
    if p + e > 2098 {
        lemma_pow2_strictly_increases(3298, (p + e + 1200) as nat);
    }
    let pw = pow2(p) * w;
    assert(top * c <= pw);
    assert((2 * top) * c <= 2 * sig * w) by (nonlinear_arith)
        requires
            top * c <= pw,
            pw == pow2(p) * w,
            sig >= pow2(p),
    ;
    lemma_reaches_below(x, c, (2 * top) * c, 2 * sig * w);
    lemma_reaches_zoom(x, c, 2 * top);
}

/// The cell of a quotient. The width two to the `e` is given as the quotient
/// of two powers of two.
pub proof fn lemma_cell_ratio(num: nat, den: nat, sig: nat, e: int, sticky: bool, a: nat, b: nat)
    requires
        den > 0,
        a - b == e,
        e >= -1200,
        sig * pow2(a) * den <= num * pow2(b),
        num * pow2(b) < (sig + 1) * pow2(a) * den,
        sticky == (num * pow2(b) > sig * pow2(a) * den),
    ensures
        in_cell(Exact::Ratio { num, den }, sig, e, sticky),
{
    let c = zoom();
    let w = pow2((e + 1200) as nat);
    let pa = pow2(a);
    let pb = pow2(b);
    lemma_pow2_pos(b);
    lemma_pow2_adds((e + 1200) as nat, b);
    lemma_pow2_adds(a, 1200);
    assert(w * pb == pa * c);
    let x = num * pb;
    let y = sig * pa * den;
    let z = (sig + 1) * pa * den;
    let l = 2 * num * c;
    let r1 = (2 * sig * w) * den;
    let r2 = (2 * (sig + 1) * w) * den;
    assert(l * pb == (2 * c) * x) by (nonlinear_arith)
        requires
            l == 2 * num * c,
            x == num * pb,
    ;
    assert(r1 * pb == (2 * c) * y) by (nonlinear_arith)
        requires
            r1 == (2 * sig * w) * den,
            y == sig * pa * den,
            w * pb == pa * c,
    ;
    assert(r2 * pb == (2 * c) * z) by (nonlinear_arith)
        requires
            r2 == (2 * (sig + 1) * w) * den,
            z == (sig + 1) * pa * den,
            w * pb == pa * c,
    ;
    lemma_pow2_pos(1200);
    assert(l >= r1 && l < r2 && (l > r1) == (x > y)) by (nonlinear_arith)
        requires
            l * pb == (2 * c) * x,
            r1 * pb == (2 * c) * y,
            r2 * pb == (2 * c) * z,
            y <= x < z,
            pb > 0,
            c > 0,
    ;
}

/// The cell of a whole number of units.
pub proof fn lemma_cell_whole(n: nat, sig: nat, e: nat, sticky: bool)
    requires
        sig * pow2(e) <= n < (sig + 1) * pow2(e),
        sticky == (n > sig * pow2(e)),
    ensures
        in_cell(Exact::Ratio { num: n, den: 1 }, sig, e as int, sticky),
{
    lemma2_to64();
    let pe = pow2(e);
    assert(sig * pe * 1 == sig * pe && (sig + 1) * pe * 1 == (sig + 1) * pe && n * pow2(0) == n) by (nonlinear_arith)
        requires
            pow2(0) == 1,
    ;
    lemma_cell_ratio(n, 1, sig, e as int, sticky, e, 0);
}

/// The cell of a square root.
pub proof fn lemma_cell_root(square: nat, n: nat, sig: nat, e: nat, sticky: bool)
    requires
        square == n * pow2(2 * e),
        sig * sig <= n < (sig + 1) * (sig + 1),
        sticky == (n > sig * sig),
    ensures
        in_cell(Exact::Root { square }, sig, e as int, sticky),
{
    let c = zoom();
    let w = pow2((e + 1200) as nat);
    let pe = pow2(e);
    lemma_pow2_adds(e, 1200);
    lemma_pow2_adds(e, e);
    lemma_pow2_pos(e);
    lemma_pow2_pos(1200);
    let k = 4 * (pe * pe) * (c * c);
    assert(k > 0) by (nonlinear_arith)
        requires
            k == 4 * (pe * pe) * (c * c),
            pe > 0,
            c > 0,
    ;
    let l = 4 * square * (c * c);
    let t1 = 2 * sig * w;
    let t2 = 2 * (sig + 1) * w;
    assert(l == n * k) by (nonlinear_arith)
        requires
            l == 4 * square * (c * c),
            square == n * (pe * pe),
            k == 4 * (pe * pe) * (c * c),
    ;
    assert(t1 * t1 == (sig * sig) * k) by (nonlinear_arith)
        requires
            t1 == 2 * sig * w,
            w == pe * c,
            k == 4 * (pe * pe) * (c * c),
    ;
    assert(t2 * t2 == ((sig + 1) * (sig + 1)) * k) by (nonlinear_arith)
        requires
            t2 == 2 * (sig + 1) * w,
            w == pe * c,
            k == 4 * (pe * pe) * (c * c),
    ;
    assert(l >= t1 * t1 && l < t2 * t2 && ((l > t1 * t1) == (n > sig * sig))) by (nonlinear_arith)
        requires
            l == n * k,
            t1 * t1 == (sig * sig) * k,
            t2 * t2 == ((sig + 1) * (sig + 1)) * k,
            sig * sig <= n < (sig + 1) * (sig + 1),
            k > 0,
    ;
}

/// Two to the 120: the bound on the integers that are rounded.
pub const WIDE: u128 = 0x0100_0000_0000_0000_0000_0000_0000_0000;

/// Rounds the number `x`, known to lie in the cell that `sig`, `e` and
/// `sticky` describe, to the nearest magnitude.
pub(crate) fn round_pack(sig: u128, e: i32, sticky: bool, Ghost(x): Ghost<Exact>) -> (m: u64)
    requires
        x.wf(),
        in_cell(x, sig as nat, e as int, sticky),
        0 < sig < WIDE,
        -1200 <= e <= 4000,
        sticky ==> sig >= 2 * HIDDEN,
    ensures
        m == nearest(x),
        m <= INFINITE,
{
    let p: i32 = top_bit(sig) as i32;
    let s: i32 = if p + e > 52 {
        p + e - 52
    } else {
        0
    };
    proof {
        lemma_pow2_values();
        lemma_pow2_order(p as nat, 120);
        lemma_pow2_order(120, p as nat);
        lemma_pow2_order(p as nat, 53);
        lemma_pow2_order(53, p as nat);
    }
    assert(p < 120);
    if s >= 2046 {
        proof {
            lemma_cell_overflows(x, sig as nat, e as int, p as nat);
        }
        return INFINITE;
    }
    let k: i32 = s - e;
    if k <= 0 {
        let d: u128 = power_of_two((-k) as u32);
        proof {
            lemma_pow2_adds(p as nat, (-k) as nat);
            lemma_pow2_order((p - k) as nat, 52);
            lemma_pow2_order(52, (p - k) as nat);
            assert(sig * d < 2 * (pow2(p as nat) * d) && pow2(p as nat) * d <= sig * d) by (nonlinear_arith)
                requires
                    pow2(p as nat) <= sig < 2 * pow2(p as nat),
                    d > 0,
            ;
        }
        let q: u128 = sig * d;
        proof {
            lemma_cell_exact(x, sig as nat, e as int, s as nat, q as nat);
        }
        (s as u64) * HIDDEN + (q as u64)
    } else if k >= 128 {
        proof {
            lemma_pow2_order(120, k as nat);
            lemma_pow2_order(120, (k - 1) as nat);
            assert(0 * pow2(k as nat) + sig == sig) by (nonlinear_arith);
            lemma_cell_rounds(x, sig as nat, e as int, sticky, 0, k as nat, 0, sig as nat);
        }
        0
    } else {
        let d: u128 = power_of_two(k as u32);
        let q: u128 = sig / d;
        let r: u128 = sig % d;
        let half: u128 = d / 2;
        proof {
            lemma_pow2_unfold(k as nat);
            lemma_fundamental_div_mod(sig as int, d as int);
            assert(d * q == q * d) by (nonlinear_arith);
            if s > 0 {
                lemma_pow2_adds(52, k as nat);
                assert(HIDDEN <= q < 2 * HIDDEN) by (nonlinear_arith)
                    requires
                        sig == q * d + r,
                        0 <= r < d,
                        HIDDEN * d <= sig < 2 * (HIDDEN * d),
                ;
            } else {
                lemma_pow2_order((p + 1) as nat, (53 + k) as nat);
                lemma_pow2_unfold((p + 1) as nat);
                lemma_pow2_adds(53, k as nat);
                assert(q < 2 * HIDDEN) by (nonlinear_arith)
                    requires
                        sig == q * d + r,
                        0 <= r < d,
                        sig < (2 * HIDDEN) * d,
                ;
            }
            lemma_cell_rounds(x, sig as nat, e as int, sticky, s as nat, k as nat, q as nat, r as nat);
        }
        let up: u64 = if r > half || (r == half && (sticky || q % 2 == 1)) {
            1
        } else {
            0
        };
        (s as u64) * HIDDEN + (q as u64) + up
    }
}

} // verus!
