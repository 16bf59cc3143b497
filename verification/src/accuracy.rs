//! How far a rounded result is from the exact one.

use vstd::prelude::*;
use vstd::arithmetic::power::{lemma_pow0, lemma_pow1, lemma_pow_adds, lemma_pow_positive, pow};
use vstd::arithmetic::power2::{
    lemma2_to64, lemma2_to64_rest, lemma_pow2_adds, lemma_pow2_pos, pow2,
};
use crate::arith::{difference, product, quotient, square_root, sum};
use crate::binary64::{
    absolute, Double, grid, HIDDEN, INFINITE, join, lemma_grid_increases, lemma_grid_parts,
    lemma_grid_step, lemma_grid_zero, opposite, scale, significand,
};
use crate::constants::{lemma_constants, lemma_ten_millionth, millionth, ten_millionth};
use crate::convert::whole;
use crate::geometry::{direction, norm, norm_squared};
use crate::laws::law_length_sq_not_negative;
use crate::order::below;
use crate::powers::lemma_pow2_order;
use crate::rounding::{
    Exact, is_floor, lemma_floor_exists, lemma_nearest_of_floor, lemma_nearest_zero,
    lemma_reaches_below, nearest,
};
use crate::vector::Vec3;

verus! {

/// Two to the 53rd.
pub const FINE: u64 = 0x20_0000_0000_0000;

/// Two to the 53rd and one.
pub const COARSE: u64 = 0x20_0000_0000_0001;

/// Each of `a` and `b` is at most the other times the `k`-th power of one
/// and two to the minus 53: they agree to within `k` roundings.
pub open spec fn within(a: nat, b: nat, k: nat) -> bool {
    &&& a * pow(FINE as int, k) <= b * pow(COARSE as int, k)
    &&& b * pow(FINE as int, k) <= a * pow(COARSE as int, k)
}

/// The first powers of the two constants.
pub proof fn lemma_small_powers()
    ensures
        pow(FINE as int, 0) == 1,
        pow(COARSE as int, 0) == 1,
        pow(FINE as int, 1) == FINE,
        pow(COARSE as int, 1) == COARSE,
        pow(FINE as int, 2) == FINE * FINE,
        pow(COARSE as int, 2) == COARSE * COARSE,
{
    lemma_pow0(FINE as int);
    lemma_pow0(COARSE as int);
    lemma_pow1(FINE as int);
    lemma_pow1(COARSE as int);
    lemma_pow_adds(FINE as int, 1, 1);
    lemma_pow_adds(COARSE as int, 1, 1);
}

/// The floor of a number in the normal range is a normal magnitude, whose
/// unit in the last place is at most its value over two to the 52nd.
pub proof fn lemma_normal_floor(x: Exact, m: nat)
    requires
        x.wf(),
        is_floor(x, m),
        x.twice_reaches(2 * grid(HIDDEN as nat)),
    ensures
        m >= HIDDEN,
        pow2(scale(m)) * HIDDEN <= grid(m),
        grid(m + 1) == grid(m) + pow2(scale(m)),
        pow2(scale(m)) > 0,
{
    if m < HIDDEN {
        if m + 1 < HIDDEN {
            lemma_grid_increases(m + 1, HIDDEN as nat);
        }
        lemma_reaches_below(x, 1, 2 * grid(m + 1), 2 * grid(HIDDEN as nat));
    }
    lemma_grid_step(m);
    lemma_pow2_pos(scale(m));
    assert(pow2(scale(m)) * HIDDEN <= grid(m)) by (nonlinear_arith)
        requires
            grid(m) == significand(m) * pow2(scale(m)),
            significand(m) >= HIDDEN,
    ;
}

/// Rounding a quotient in the normal range changes it by at most one part
/// in two to the 53rd.
pub proof fn lemma_ratio_is_close(num: nat, den: nat)
    requires
        den > 0,
        num >= grid(HIDDEN as nat) * den,
        num < grid(INFINITE as nat) * den,
    ensures
        within(grid(nearest(Exact::Ratio { num, den })) * den, num, 1),
        HIDDEN <= nearest(Exact::Ratio { num, den }) <= INFINITE,
{
    let x = Exact::Ratio { num, den };
    assert(x.twice_reaches(2 * grid(HIDDEN as nat)) && !x.twice_reaches(2 * grid(INFINITE as nat)))
        by (nonlinear_arith)
        requires
            x == (Exact::Ratio { num, den }),
            num >= grid(HIDDEN as nat) * den,
            num < grid(INFINITE as nat) * den,
    ;
    lemma_grid_zero(HIDDEN as nat);
    lemma_reaches_below(x, 1, 2 * grid(0), 2 * grid(HIDDEN as nat));
    lemma_floor_exists(x, 0);
    let m = choose|f: nat| f < INFINITE && is_floor(x, f);
    lemma_nearest_of_floor(x, m);
    lemma_normal_floor(x, m);
    lemma_small_powers();
    let n = nearest(x);
    let ulp = pow2(scale(m));
    let lo = grid(m);
    let l = lo * den;
    let u = ulp * den;
    assert(u * HIDDEN <= l) by (nonlinear_arith)
        requires
            ulp * HIDDEN <= lo,
            l == lo * den,
            u == ulp * den,
    ;
    assert(2 * num * 1 >= (2 * lo) * den);
    assert(!(2 * num * 1 >= (2 * grid(m + 1)) * den));
    assert(l <= num < l + u) by (nonlinear_arith)
        requires
            2 * num * 1 >= (2 * lo) * den,
            !(2 * num * 1 >= (2 * (lo + ulp)) * den),
            l == lo * den,
            u == ulp * den,
    ;
    assert(x.twice_exceeds(lo + grid(m + 1)) == (2 * num > 2 * l + u) && x.twice_reaches(lo + grid(m + 1)) == (
    2 * num >= 2 * l + u)) by (nonlinear_arith)
        requires
            x == (Exact::Ratio { num, den }),
            grid(m + 1) == lo + ulp,
            l == lo * den,
            u == ulp * den,
    ;
    if n == m {
        assert(2 * num <= 2 * l + u);
        assert(within(grid(n) * den, num, 1)) by (nonlinear_arith)
            requires
                grid(n) * den == l,
                l <= num,
                2 * num <= 2 * l + u,
                u * 0x10_0000_0000_0000 <= l,
                pow(FINE as int, 1) == 0x20_0000_0000_0000,
                pow(COARSE as int, 1) == 0x20_0000_0000_0001,
        ;
    } else {
        assert(n == m + 1);
        assert(2 * num >= 2 * l + u);
        assert(grid(n) * den == l + u) by (nonlinear_arith)
            requires
                grid(n) == lo + ulp,
                l == lo * den,
                u == ulp * den,
        ;
        assert(within(grid(n) * den, num, 1)) by (nonlinear_arith)
            requires
                grid(n) * den == l + u,
                num < l + u,
                l <= num,
                2 * num >= 2 * l + u,
                u * 0x10_0000_0000_0000 <= l,
                pow(FINE as int, 1) == 0x20_0000_0000_0000,
                pow(COARSE as int, 1) == 0x20_0000_0000_0001,
        ;
    }
}

/// Rounding a square root in the normal range changes it by at most one
/// part in two to the 53rd, and so its square by two such parts.
pub proof fn lemma_root_is_close(square: nat)
    requires
        square >= grid(HIDDEN as nat) * grid(HIDDEN as nat),
        square < grid(INFINITE as nat) * grid(INFINITE as nat),
    ensures
        within(
            grid(nearest(Exact::Root { square })) * grid(nearest(Exact::Root { square })),
            square,
            2,
        ),
        HIDDEN <= nearest(Exact::Root { square }) <= INFINITE,
{
    let x = Exact::Root { square };
    let bottom = grid(HIDDEN as nat);
    let top = grid(INFINITE as nat);
    assert(x.twice_reaches(2 * bottom) && !x.twice_reaches(2 * top)) by (nonlinear_arith)
        requires
            x == (Exact::Root { square }),
            square >= bottom * bottom,
            square < top * top,
    ;
    lemma_grid_zero(HIDDEN as nat);
    lemma_reaches_below(x, 1, 2 * grid(0), 2 * grid(HIDDEN as nat));
    lemma_floor_exists(x, 0);
    let m = choose|f: nat| f < INFINITE && is_floor(x, f);
    lemma_nearest_of_floor(x, m);
    lemma_normal_floor(x, m);
    lemma_small_powers();
    let n = nearest(x);
    let ulp = pow2(scale(m));
    let lo = grid(m);
    let hi = lo + ulp;
    let d = FINE as nat;
    let c = COARSE as nat;
    assert(lo * lo <= square < hi * hi) by (nonlinear_arith)
        requires
            is_floor(x, m),
            x == (Exact::Root { square }),
            grid(m + 1) == hi,
            lo == grid(m),
    ;
    assert(x.twice_exceeds(lo + grid(m + 1)) == (4 * square > (lo + hi) * (lo + hi))
        && x.twice_reaches(lo + grid(m + 1)) == (4 * square >= (lo + hi) * (lo + hi))) by (nonlinear_arith)
        requires
            x == (Exact::Root { square }),
            grid(m + 1) == hi,
    ;
    if n == m {
        let a = (lo + hi) * d;
        let b = 2 * lo * c;
        assert(a <= b) by (nonlinear_arith)
            requires
                a == (lo + hi) * d,
                b == 2 * lo * c,
                hi == lo + ulp,
                ulp * 0x10_0000_0000_0000 <= lo,
                d == 0x20_0000_0000_0000,
                c == 0x20_0000_0000_0001,
        ;
        assert(a * a <= b * b) by (nonlinear_arith)
            requires
                0 <= a <= b,
        ;
        assert(within(lo * lo, square, 2)) by (nonlinear_arith)
            requires
                lo * lo <= square,
                4 * square <= (lo + hi) * (lo + hi),
                a * a <= b * b,
                a == (lo + hi) * d,
                b == 2 * lo * c,
                d <= c,
                pow(FINE as int, 2) == d * d,
                pow(COARSE as int, 2) == c * c,
        ;
    } else {
        assert(n == m + 1);
        let a = 2 * hi * d;
        let b = (lo + hi) * c;
        assert(a <= b) by (nonlinear_arith)
            requires
                a == 2 * hi * d,
                b == (lo + hi) * c,
                hi == lo + ulp,
                ulp * 0x10_0000_0000_0000 <= lo,
                d == 0x20_0000_0000_0000,
                c == 0x20_0000_0000_0001,
        ;
        assert(a * a <= b * b) by (nonlinear_arith)
            requires
                0 <= a <= b,
        ;
        assert(within(hi * hi, square, 2)) by (nonlinear_arith)
            requires
                square < hi * hi,
                4 * square >= (lo + hi) * (lo + hi),
                a * a <= b * b,
                a == 2 * hi * d,
                b == (lo + hi) * c,
                d <= c,
                pow(FINE as int, 2) == d * d,
                pow(COARSE as int, 2) == c * c,
        ;
    }
}

/// Rounding does not carry a number past a value of the grid.
pub proof fn lemma_nearest_at_most(x: Exact, m: nat)
    requires
        x.wf(),
        m <= INFINITE,
        !x.twice_exceeds(2 * grid(m)),
    ensures
        nearest(x) <= m,
{
    reveal(nearest);
    let top = INFINITE as nat;
    if x.twice_reaches(2 * grid(top)) {
        if m < top {
            lemma_grid_increases(m, top);
            lemma_reaches_below(x, 1, 2 * grid(m), 2 * grid(top));
        }
    } else {
        lemma_grid_zero(0);
        lemma_reaches_below(x, 1, 2 * grid(0), 2 * grid(0));
        assert(x.twice_reaches(0)) by (nonlinear_arith)
            requires
                x.twice_reaches(0) == match x {
                    Exact::Ratio { num, den } => 2 * num * 1 >= 0 * den,
                    Exact::Root { square } => 4 * square * (1 * 1) >= 0 * 0,
                },
        ;
        lemma_floor_exists(x, 0);
        let f = choose|f: nat| f < INFINITE && is_floor(x, f);
        lemma_nearest_of_floor(x, f);
        if f > m {
            lemma_grid_increases(m, f);
            lemma_reaches_below(x, 1, 2 * grid(m), 2 * grid(f));
        } else if f == m {
            lemma_grid_step(m);
            lemma_reaches_below(x, 1, 2 * grid(m), grid(m) + grid(m + 1));
        }
    }
}

/// The powers of the two constants are positive.
pub proof fn lemma_powers_positive(k: nat)
    ensures
        pow(FINE as int, k) > 0,
        pow(COARSE as int, k) > 0,
        pow(FINE as int, k) <= pow(COARSE as int, k),
    decreases k,
{
    lemma_pow_positive(FINE as int, k);
    lemma_pow_positive(COARSE as int, k);
    if k == 0 {
        lemma_small_powers();
    } else {
        lemma_powers_positive((k - 1) as nat);
        lemma_pow_adds(FINE as int, (k - 1) as nat, 1);
        lemma_pow_adds(COARSE as int, (k - 1) as nat, 1);
        lemma_small_powers();
        let f = pow(FINE as int, (k - 1) as nat);
        let c = pow(COARSE as int, (k - 1) as nat);
        assert(f * FINE <= c * COARSE) by (nonlinear_arith)
            requires
                0 < f <= c,
                FINE <= COARSE,
        ;
    }
}

/// Numbers are within no rounding of themselves.
pub proof fn lemma_within_self(a: nat, k: nat)
    ensures
        within(a, a, k),
{
    lemma_powers_positive(k);
    let f = pow(FINE as int, k);
    let c = pow(COARSE as int, k);
    assert(a * f <= a * c) by (nonlinear_arith)
        requires
            0 < f <= c,
    ;
}

/// Closeness adds up along a chain.
pub proof fn lemma_within_chain(a: nat, b: nat, c: nat, j: nat, k: nat)
    requires
        within(a, b, j),
        within(b, c, k),
    ensures
        within(a, c, j + k),
{
    lemma_powers_positive(j);
    lemma_powers_positive(k);
    lemma_pow_adds(FINE as int, j, k);
    lemma_pow_adds(COARSE as int, j, k);
    let fj = pow(FINE as int, j);
    let cj = pow(COARSE as int, j);
    let fk = pow(FINE as int, k);
    let ck = pow(COARSE as int, k);
    assert(a * (fj * fk) <= c * (cj * ck)) by (nonlinear_arith)
        requires
            a * fj <= b * cj,
            b * fk <= c * ck,
            fj > 0,
            cj > 0,
            fk > 0,
            ck > 0,
    {
        assert((a * fj) * fk <= (b * cj) * fk);
        assert((b * fk) * cj <= (c * ck) * cj);
    }
    assert(c * (fj * fk) <= a * (cj * ck)) by (nonlinear_arith)
        requires
            b * fj <= a * cj,
            c * fk <= b * ck,
            fj > 0,
            cj > 0,
            fk > 0,
            ck > 0,
    {
        assert((c * fk) * fj <= (b * ck) * fj);
        assert((b * fj) * ck <= (a * cj) * ck);
    }
}

/// Closeness within fewer roundings is closeness within more.
pub proof fn lemma_within_weaken(a: nat, b: nat, j: nat, k: nat)
    requires
        within(a, b, j),
        j <= k,
    ensures
        within(a, b, k),
{
    lemma_within_self(b, (k - j) as nat);
    lemma_within_chain(a, b, b, j, (k - j) as nat);
}

/// Closeness is kept by a common factor, and by taking one away.
pub proof fn lemma_within_scale(a: nat, b: nat, t: nat, k: nat)
    requires
        t > 0,
    ensures
        within(a * t, b * t, k) == within(a, b, k),
{
    lemma_powers_positive(k);
    let f = pow(FINE as int, k);
    let c = pow(COARSE as int, k);
    assert(((a * t) * f <= (b * t) * c) == (a * f <= b * c)) by (nonlinear_arith)
        requires
            t > 0,
    {
        assert((a * t) * f == (a * f) * t);
        assert((b * t) * c == (b * c) * t);
    }
    assert(((b * t) * f <= (a * t) * c) == (b * f <= a * c)) by (nonlinear_arith)
        requires
            t > 0,
    {
        assert((b * t) * f == (b * f) * t);
        assert((a * t) * c == (a * c) * t);
    }
}

/// Sums of close numbers are close.
pub proof fn lemma_within_sum(a: nat, b: nat, c: nat, d: nat, k: nat)
    requires
        within(a, b, k),
        within(c, d, k),
    ensures
        within(a + c, b + d, k),
{
    let f = pow(FINE as int, k);
    let g = pow(COARSE as int, k);
    assert((a + c) * f == a * f + c * f && (b + d) * g == b * g + d * g && (b + d) * f == b * f + d
        * f && (a + c) * g == a * g + c * g) by (nonlinear_arith);
}

/// Products of close numbers are close.
pub proof fn lemma_within_product(a: nat, b: nat, j: nat, c: nat, d: nat, k: nat)
    requires
        within(a, b, j),
        within(c, d, k),
    ensures
        within(a * c, b * d, j + k),
{
    lemma_powers_positive(j);
    lemma_powers_positive(k);
    lemma_pow_adds(FINE as int, j, k);
    lemma_pow_adds(COARSE as int, j, k);
    let fj = pow(FINE as int, j);
    let cj = pow(COARSE as int, j);
    let fk = pow(FINE as int, k);
    let ck = pow(COARSE as int, k);
    assert((a * c) * (fj * fk) <= (b * d) * (cj * ck)) by (nonlinear_arith)
        requires
            0 <= a * fj <= b * cj,
            0 <= c * fk <= d * ck,
    {
        assert((a * fj) * (c * fk) <= (b * cj) * (d * ck));
        assert((a * c) * (fj * fk) == (a * fj) * (c * fk));
        assert((b * d) * (cj * ck) == (b * cj) * (d * ck));
    }
    assert((b * d) * (fj * fk) <= (a * c) * (cj * ck)) by (nonlinear_arith)
        requires
            0 <= b * fj <= a * cj,
            0 <= d * fk <= c * ck,
    {
        assert((b * fj) * (d * fk) <= (a * cj) * (c * ck));
        assert((b * d) * (fj * fk) == (b * fj) * (d * fk));
        assert((a * c) * (cj * ck) == (a * cj) * (c * ck));
    }
    assert(a * fj >= 0 && c * fk >= 0 && b * fj >= 0 && d * fk >= 0) by (nonlinear_arith)
        requires
            fj > 0,
            fk > 0,
    ;
}

/// Numbers whose squares are close are close themselves, within half as
/// many roundings.
pub proof fn lemma_within_root(a: nat, b: nat, k: nat)
    requires
        within(a * a, b * b, 2 * k),
    ensures
        within(a, b, k),
{
    lemma_powers_positive(k);
    lemma_pow_adds(FINE as int, k, k);
    lemma_pow_adds(COARSE as int, k, k);
    let f = pow(FINE as int, k);
    let c = pow(COARSE as int, k);
    assert(a * f <= b * c) by (nonlinear_arith)
        requires
            (a * a) * (f * f) <= (b * b) * (c * c),
            f > 0,
            c > 0,
    {
        assert((a * a) * (f * f) == (a * f) * (a * f));
        assert((b * b) * (c * c) == (b * c) * (b * c));
        if a * f > b * c {
            assert((a * f) * (a * f) > (b * c) * (b * c));
        }
    }
    assert(b * f <= a * c) by (nonlinear_arith)
        requires
            (b * b) * (f * f) <= (a * a) * (c * c),
            f > 0,
            c > 0,
    {
        assert((b * b) * (f * f) == (b * f) * (b * f));
        assert((a * a) * (c * c) == (a * c) * (a * c));
        if b * f > a * c {
            assert((b * f) * (b * f) > (a * c) * (a * c));
        }
    }
}

/// The `k`-th power of one and two to the minus 53 is at most one and `k`
/// times two to the minus 52.
pub proof fn lemma_growth(k: nat)
    requires
        k <= 0x1000_0000,
    ensures
        pow(COARSE as int, k) * FINE <= pow(FINE as int, k) * (FINE + 2 * k),
    decreases k,
{
    if k == 0 {
        lemma_small_powers();
    } else {
        let j = (k - 1) as nat;
        lemma_growth(j);
        lemma_powers_positive(j);
        lemma_pow_adds(FINE as int, j, 1);
        lemma_pow_adds(COARSE as int, j, 1);
        lemma_small_powers();
        let c = pow(COARSE as int, j);
        let f = pow(FINE as int, j);
        let d = FINE as int;
        assert((c * (d + 1)) * d <= (f * d) * (d + 2 * k)) by (nonlinear_arith)
            requires
                c * d <= f * (d + 2 * j),
                k == j + 1,
                0 <= j,
                2 * k <= d,
                f > 0,
                c > 0,
                d > 0,
        {
            assert((c * (d + 1)) * d == (c * d) * (d + 1));
            assert((c * d) * (d + 1) <= (f * (d + 2 * j)) * (d + 1));
            assert((d + 2 * j) * (d + 1) <= d * (d + 2 * k));
            assert(f * ((d + 2 * j) * (d + 1)) <= f * (d * (d + 2 * k)));
        }
    }
}

/// Close numbers differ by at most `k` parts in two to the 52nd.
pub proof fn lemma_within_gap(a: nat, b: nat, k: nat)
    requires
        within(a, b, k),
        k <= 0x1000_0000,
    ensures
        a * FINE <= b * (FINE + 2 * k),
        b * FINE <= a * (FINE + 2 * k),
        a <= 2 * b,
        b <= 2 * a,
{
    lemma_growth(k);
    lemma_powers_positive(k);
    let f = pow(FINE as int, k);
    let c = pow(COARSE as int, k);
    let d = FINE as int;
    assert(a * d <= b * (d + 2 * k)) by (nonlinear_arith)
        requires
            a * f <= b * c,
            c * d <= f * (d + 2 * k),
            f > 0,
            d > 0,
    {
        assert((a * f) * d <= (b * c) * d);
        assert((b * c) * d == b * (c * d));
        assert(b * (c * d) <= b * (f * (d + 2 * k)));
        assert((a * d) * f <= (b * (d + 2 * k)) * f);
    }
    assert(b * d <= a * (d + 2 * k)) by (nonlinear_arith)
        requires
            b * f <= a * c,
            c * d <= f * (d + 2 * k),
            f > 0,
            d > 0,
    {
        assert((b * f) * d <= (a * c) * d);
        assert((a * c) * d == a * (c * d));
        assert(a * (c * d) <= a * (f * (d + 2 * k)));
        assert((b * d) * f <= (a * (d + 2 * k)) * f);
    }
    assert(a <= 2 * b && b <= 2 * a) by (nonlinear_arith)
        requires
            a * d <= b * (d + 2 * k),
            b * d <= a * (d + 2 * k),
            2 * k <= d,
            d > 0,
    ;
}

/// The values of the smallest normal magnitude and of infinity.
pub proof fn lemma_grid_ends()
    ensures
        grid(HIDDEN as nat) == pow2(52),
        grid(INFINITE as nat) == pow2(2098),
        grid(0) == 0,
{
    lemma2_to64();
    lemma2_to64_rest();
    lemma_grid_parts(0, HIDDEN as nat);
    lemma_grid_parts(2046, HIDDEN as nat);
    assert(join(0, HIDDEN as nat) == HIDDEN);
    assert(join(2046, HIDDEN as nat) == INFINITE);
    lemma_pow2_adds(52, 2046);
    assert(HIDDEN * pow2(0) == pow2(52)) by (nonlinear_arith)
        requires
            pow2(0) == 1,
            pow2(52) == HIDDEN,
    ;
    lemma_grid_zero(0);
}

/// The number is finite and its size lies between two to the `low` and two
/// to the `high`.
pub open spec fn sized(a: Double, low: int, high: int) -> bool {
    &&& a.finite()
    &&& -1074 <= low <= high
    &&& pow2((low + 1074) as nat) <= grid(a.magnitude()) <= pow2((high + 1074) as nat)
}

/// The product of two finite numbers, where it is zero or in the normal
/// range, is within one rounding of the exact product.
pub proof fn lemma_product_close(a: Double, b: Double)
    requires
        a.finite(),
        b.finite(),
        grid(a.magnitude()) * grid(b.magnitude()) == 0 || (pow2(52) * pow2(1074) <= grid(
            a.magnitude(),
        ) * grid(b.magnitude()) <= pow2(2097) * pow2(1074)),
    ensures
        product(a, b).finite(),
        product(a, b).negative() == (a.negative() != b.negative()),
        within(
            grid(product(a, b).magnitude()) * pow2(1074),
            grid(a.magnitude()) * grid(b.magnitude()),
            1,
        ),
        grid(a.magnitude()) * grid(b.magnitude()) == 0 ==> product(a, b).zero(),
{
    let e = pow2(1074);
    let p = grid(a.magnitude()) * grid(b.magnitude());
    let x = Exact::Ratio { num: p, den: e };
    let m = nearest(x);
    lemma_pow2_pos(1074);
    lemma_grid_ends();
    if p == 0 {
        lemma_nearest_zero(x);
        lemma_within_self(0, 1);
        assert(grid(0) * e == 0) by (nonlinear_arith)
            requires
                grid(0) == 0,
        ;
    } else {
        lemma_pow2_order(2097, 2098);
        assert(p < pow2(2098) * e) by (nonlinear_arith)
            requires
                p <= pow2(2097) * e,
                2 * pow2(2097) <= pow2(2098),
                e > 0,
                pow2(2097) > 0,
        ;
        lemma_ratio_is_close(p, e);
        lemma_small_powers();
        if m == INFINITE {
            assert(false) by (nonlinear_arith)
                requires
                    (pow2(2098) * e) * 0x20_0000_0000_0000 <= p * 0x20_0000_0000_0001,
                    p <= pow2(2097) * e,
                    2 * pow2(2097) <= pow2(2098),
                    e > 0,
                    pow2(2097) > 0,
            ;
        }
    }
}

/// The sum of two finite numbers that are not negative, where it is zero or
/// in the normal range, is within one rounding of the exact sum.
pub proof fn lemma_sum_close(a: Double, b: Double)
    requires
        a.finite(),
        b.finite(),
        !a.negative(),
        !b.negative(),
        grid(a.magnitude()) + grid(b.magnitude()) == 0 || (pow2(52) <= grid(a.magnitude()) + grid(
            b.magnitude(),
        ) <= pow2(2097)),
    ensures
        sum(a, b).finite(),
        !sum(a, b).negative(),
        within(grid(sum(a, b).magnitude()), grid(a.magnitude()) + grid(b.magnitude()), 1),
        grid(a.magnitude()) + grid(b.magnitude()) == 0 ==> sum(a, b).zero(),
{
    let t = grid(a.magnitude()) + grid(b.magnitude());
    let x = Exact::Ratio { num: t, den: 1 };
    let m = nearest(x);
    lemma_grid_ends();
    if t == 0 {
        lemma_within_self(0, 1);
    } else {
        lemma_pow2_order(2097, 2098);
        lemma_pow2_pos(2097);
        assert(t >= grid(HIDDEN as nat) * 1 && t < grid(INFINITE as nat) * 1);
        lemma_ratio_is_close(t, 1);
        lemma_small_powers();
        assert(grid(m) * 1 == grid(m)) by (nonlinear_arith);
        if m == INFINITE {
            assert(false) by (nonlinear_arith)
                requires
                    pow2(2098) * 0x20_0000_0000_0000 <= t * 0x20_0000_0000_0001,
                    t <= pow2(2097),
                    2 * pow2(2097) <= pow2(2098),
                    pow2(2097) > 0,
            ;
        }
    }
}

/// The square root of a finite positive number is within one rounding of
/// the exact root, and so its square within two.
pub proof fn lemma_root_close(a: Double)
    requires
        a.finite(),
        !a.negative(),
        !a.zero(),
    ensures
        square_root(a).finite(),
        !square_root(a).negative(),
        !square_root(a).zero(),
        within(
            grid(square_root(a).magnitude()) * grid(square_root(a).magnitude()),
            grid(a.magnitude()) * pow2(1074),
            2,
        ),
{
    let e = pow2(1074);
    let g = grid(a.magnitude());
    let square = g * e;
    let m = nearest(Exact::Root { square });
    lemma_grid_ends();
    lemma_grid_zero(a.magnitude());
    lemma_grid_increases(a.magnitude(), INFINITE as nat);
    lemma_pow2_adds(52, 52);
    lemma_pow2_order(104, 1074);
    lemma_pow2_order(1074, 2098);
    lemma_pow2_pos(1074);
    lemma_pow2_pos(2098);
    let top = pow2(2098);
    assert(square >= pow2(52) * pow2(52) && square < top * top) by (nonlinear_arith)
        requires
            square == g * e,
            1 <= g < top,
            pow2(52) * pow2(52) <= e,
            0 < e <= top,
    ;
    lemma_root_is_close(square);
    lemma_small_powers();
    lemma_pow2_adds(1024, 1074);
    lemma_pow2_order(2, 1024);
    lemma2_to64();
    if m == INFINITE {
        assert(false) by (nonlinear_arith)
            requires
                (top * top) * (0x20_0000_0000_0000 * 0x20_0000_0000_0000) <= square * (
                0x20_0000_0000_0001 * 0x20_0000_0000_0001),
                square == g * e,
                g < top,
                top == pow2(1024) * e,
                pow2(1024) >= 4,
                e > 0,
        {
            assert(square * 4 <= (top * e) * 4);
            assert(top * top == (top * e) * pow2(1024));
        }
    }
    lemma_grid_zero(m);
}

/// The quotient of two finite numbers, where it is zero or in the normal
/// range, is within one rounding of the exact quotient.
pub proof fn lemma_quotient_close(a: Double, b: Double)
    requires
        a.finite(),
        b.finite(),
        !b.zero(),
        a.zero() || (pow2(52) * grid(b.magnitude()) <= grid(a.magnitude()) * pow2(1074) <= pow2(
            2097,
        ) * grid(b.magnitude())),
    ensures
        quotient(a, b).finite(),
        quotient(a, b).negative() == (a.negative() != b.negative()),
        within(
            grid(quotient(a, b).magnitude()) * grid(b.magnitude()),
            grid(a.magnitude()) * pow2(1074),
            1,
        ),
        a.zero() ==> quotient(a, b).zero(),
{
    let e = pow2(1074);
    let ga = grid(a.magnitude());
    let gb = grid(b.magnitude());
    let num = ga * e;
    let x = Exact::Ratio { num, den: gb };
    let m = nearest(x);
    lemma_pow2_pos(1074);
    lemma_grid_ends();
    lemma_grid_zero(b.magnitude());
    lemma_grid_zero(a.magnitude());
    if a.zero() {
        lemma_within_self(0, 1);
        assert(grid(0) * gb == 0 && ga * e == 0) by (nonlinear_arith)
            requires
                grid(0) == 0,
                ga == 0,
        ;
    } else {
        lemma_pow2_order(2097, 2098);
        assert(num < pow2(2098) * gb) by (nonlinear_arith)
            requires
                num <= pow2(2097) * gb,
                2 * pow2(2097) <= pow2(2098),
                gb > 0,
                pow2(2097) > 0,
        ;
        lemma_ratio_is_close(num, gb);
        lemma_small_powers();
        if m == INFINITE {
            assert(false) by (nonlinear_arith)
                requires
                    (pow2(2098) * gb) * 0x20_0000_0000_0000 <= num * 0x20_0000_0000_0001,
                    num <= pow2(2097) * gb,
                    2 * pow2(2097) <= pow2(2098),
                    gb > 0,
                    pow2(2097) > 0,
            ;
        }
    }
}

/// How far two numbers that are within three roundings can be apart, when
/// they are at most two to the 27th.
proof fn lemma_small_gap(pi: nat, sigma: nat, gap: nat)
    requires
        within(pi, sigma, 3),
        sigma <= pow2(1101),
        gap == pi - sigma || gap == sigma - pi,
    ensures
        gap <= grid(0x3E78_0000_0000_0000),
{
    lemma_within_gap(pi, sigma, 3);
    lemma2_to64();
    lemma2_to64_rest();
    lemma_pow2_adds(51, 998);
    lemma_pow2_adds(52, 1049);
    let cap = 0x18_0000_0000_0000 * pow2(998);
    assert(gap <= cap) by (nonlinear_arith)
        requires
            gap == pi - sigma || gap == sigma - pi,
            pi * 0x20_0000_0000_0000 <= sigma * (0x20_0000_0000_0000 + 6),
            sigma * 0x20_0000_0000_0000 <= pi * (0x20_0000_0000_0000 + 6),
            sigma <= pow2(1101),
            pow2(1101) == 0x10_0000_0000_0000 * pow2(1049),
            pow2(1049) == 0x8_0000_0000_0000 * pow2(998),
            cap == 0x18_0000_0000_0000 * pow2(998),
            pi >= 0,
            sigma >= 0,
    ;
    lemma_grid_parts(998, 0x18_0000_0000_0000);
    assert(join(998, 0x18_0000_0000_0000) == 0x3E78_0000_0000_0000);
}

/// The difference of two finite numbers that are not negative, taken
/// without its sign, is no larger than a value of the grid that their
/// exact difference does not pass.
proof fn lemma_difference_at_most(p: Double, s: Double, top: nat)
    requires
        p.finite(),
        s.finite(),
        !p.negative(),
        !s.negative(),
        top < INFINITE,
        grid(p.magnitude()) - grid(s.magnitude()) <= grid(top),
        grid(s.magnitude()) - grid(p.magnitude()) <= grid(top),
    ensures
        absolute(difference(p, s)).magnitude() <= top,
        !absolute(difference(p, s)).nan(),
        !absolute(difference(p, s)).negative(),
{
    let os = opposite(s);
    assert(os.magnitude() == s.magnitude());
    lemma_grid_zero(s.magnitude());
    assert(os.units() == -s.units());
    let total = p.units() + os.units();
    if total > 0 {
        lemma_nearest_at_most(Exact::Ratio { num: total as nat, den: 1 }, top);
    } else if total < 0 {
        lemma_nearest_at_most(Exact::Ratio { num: (-total) as nat, den: 1 }, top);
    }
}

/// The square of the root of a number is less than a ten-millionth away
/// from the number, where that is zero or lies between two to the minus
/// 1000 and two to the 27th.
pub proof fn law_root_squared_agrees(s: Double)
    requires
        !s.negative(),
        s.zero() || sized(s, -1000, 27),
    ensures
        below(
            absolute(difference(product(square_root(s), square_root(s)), s)),
            ten_millionth(),
        ),
{
    let l = square_root(s);
    let p = product(l, l);
    let e = pow2(1074);
    lemma_ten_millionth();
    lemma_grid_ends();
    lemma_pow2_pos(1074);
    lemma2_to64();
    if s.zero() {
        assert(l == s);
        assert(grid(0) * grid(0) == 0) by (nonlinear_arith)
            requires
                grid(0) == 0,
        ;
        lemma_product_close(l, l);
        lemma_grid_zero(0x3E78_0000_0000_0000);
        lemma_difference_at_most(p, s, 0x3E78_0000_0000_0000);
    } else {
        let sigma = grid(s.magnitude());
        let len = grid(l.magnitude());
        lemma_grid_zero(s.magnitude());
        lemma_root_close(s);
        lemma_within_gap(len * len, sigma * e, 2);
        lemma_pow2_adds(73, 1);
        lemma_pow2_adds(1101, 1);
        lemma_pow2_order(52, 73);
        lemma_pow2_order(1102, 2097);
        assert(pow2(52) * e <= len * len <= pow2(2097) * e) by (nonlinear_arith)
            requires
                len * len <= 2 * (sigma * e),
                sigma * e <= 2 * (len * len),
                pow2(74) <= sigma <= pow2(1101),
                pow2(74) == pow2(73) * 2,
                pow2(1102) == pow2(1101) * 2,
                pow2(52) <= pow2(73),
                pow2(1102) <= pow2(2097),
                e > 0,
        ;
        lemma_product_close(l, l);
        let pi = grid(p.magnitude());
        lemma_within_chain(pi * e, len * len, sigma * e, 1, 2);
        lemma_within_scale(pi, sigma, e, 3);
        if pi >= sigma {
            lemma_small_gap(pi, sigma, (pi - sigma) as nat);
        } else {
            lemma_small_gap(pi, sigma, (sigma - pi) as nat);
        }
        lemma_difference_at_most(p, s, 0x3E78_0000_0000_0000);
    }
}

/// The number is finite, and zero or of a size between two to the minus
/// 500 and two to the 500: its square neither vanishes nor overflows.
pub open spec fn in_reach(c: Double) -> bool {
    c.finite() && (c.zero() || sized(c, -500, 500))
}

/// The sum of the squares of three numbers, added from the left.
pub open spec fn sum_of_squares(x: Double, y: Double, z: Double) -> Double {
    sum(sum(product(x, x), product(y, y)), product(z, z))
}

/// The square of a number in reach is within one rounding of the exact
/// square, and zero or in the normal range.
proof fn lemma_square_in_reach(c: Double)
    requires
        in_reach(c),
    ensures
        product(c, c).finite(),
        !product(c, c).negative(),
        within(
            grid(product(c, c).magnitude()) * pow2(1074),
            grid(c.magnitude()) * grid(c.magnitude()),
            1,
        ),
        c.zero() ==> product(c, c).zero(),
        product(c, c).zero() || pow2(73) <= grid(product(c, c).magnitude()) <= pow2(2075),
{
    let e = pow2(1074);
    let g = grid(c.magnitude());
    lemma_grid_zero(c.magnitude());
    lemma_pow2_pos(1074);
    if c.zero() {
        assert(g * g == 0) by (nonlinear_arith)
            requires
                g == 0,
        ;
        lemma_product_close(c, c);
    } else {
        lemma_pow2_adds(574, 574);
        lemma_pow2_adds(1574, 1574);
        lemma_pow2_adds(52, 1074);
        lemma_pow2_adds(2097, 1074);
        lemma_pow2_adds(73, 1074);
        lemma_pow2_adds(2075, 1074);
        lemma_pow2_order(1126, 1147);
        lemma_pow2_order(1147, 1148);
        lemma_pow2_order(3148, 3149);
        lemma_pow2_order(3149, 3171);
        assert(pow2(1148) <= g * g <= pow2(3148)) by (nonlinear_arith)
            requires
                pow2(574) <= g <= pow2(1574),
                pow2(1148) == pow2(574) * pow2(574),
                pow2(3148) == pow2(1574) * pow2(1574),
        ;
        lemma_product_close(c, c);
        let k = grid(product(c, c).magnitude());
        lemma_within_gap(k * e, g * g, 1);
        assert(pow2(73) <= k <= pow2(2075)) by (nonlinear_arith)
            requires
                k * e <= 2 * (g * g),
                g * g <= 2 * (k * e),
                pow2(1148) <= g * g <= pow2(3148),
                2 * pow2(1147) <= pow2(1148),
                2 * pow2(3148) <= pow2(3149),
                pow2(1147) == pow2(73) * e,
                pow2(3149) == pow2(2075) * e,
                e > 0,
        ;
        lemma_grid_zero(product(c, c).magnitude());
    }
}

/// The sum of two numbers that are not negative and are zero or in a part
/// of the normal range is within one rounding of the exact sum, and is zero
/// or in a part of the normal range one binary place wider.
proof fn lemma_sum_in_reach(a: Double, b: Double, low: nat, high: nat)
    requires
        a.finite(),
        b.finite(),
        !a.negative(),
        !b.negative(),
        53 <= low <= high <= 2090,
        a.zero() || pow2(low) <= grid(a.magnitude()) <= pow2(high),
        b.zero() || pow2(low) <= grid(b.magnitude()) <= pow2(high),
    ensures
        sum(a, b).finite(),
        !sum(a, b).negative(),
        within(grid(sum(a, b).magnitude()), grid(a.magnitude()) + grid(b.magnitude()), 1),
        a.zero() && b.zero() ==> sum(a, b).zero(),
        sum(a, b).zero() || pow2((low - 1) as nat) <= grid(sum(a, b).magnitude()) <= pow2(high + 2),
{
    let ga = grid(a.magnitude());
    let gb = grid(b.magnitude());
    let t = ga + gb;
    lemma_grid_zero(a.magnitude());
    lemma_grid_zero(b.magnitude());
    lemma_pow2_order(52, low);
    lemma_pow2_order(high, high + 1);
    lemma_pow2_order(high + 1, high + 2);
    lemma_pow2_order(high + 1, 2097);
    lemma_pow2_order((low - 1) as nat, low);
    lemma_sum_close(a, b);
    let g = grid(sum(a, b).magnitude());
    lemma_within_gap(g, t, 1);
    lemma_grid_zero(sum(a, b).magnitude());
}

/// The sum of the squares of three numbers in reach is within three
/// roundings of the exact sum of squares.
pub proof fn lemma_squares_close(x: Double, y: Double, z: Double)
    requires
        in_reach(x),
        in_reach(y),
        in_reach(z),
    ensures
        sum_of_squares(x, y, z).finite(),
        !sum_of_squares(x, y, z).negative(),
        within(
            grid(sum_of_squares(x, y, z).magnitude()) * pow2(1074),
            grid(x.magnitude()) * grid(x.magnitude()) + grid(y.magnitude()) * grid(y.magnitude())
                + grid(z.magnitude()) * grid(z.magnitude()),
            3,
        ),
{
    let e = pow2(1074);
    let gx = grid(x.magnitude());
    let gy = grid(y.magnitude());
    let gz = grid(z.magnitude());
    let xx = product(x, x);
    let yy = product(y, y);
    let zz = product(z, z);
    let kx = grid(xx.magnitude());
    let ky = grid(yy.magnitude());
    let kz = grid(zz.magnitude());
    lemma_pow2_pos(1074);
    lemma_square_in_reach(x);
    lemma_square_in_reach(y);
    lemma_square_in_reach(z);
    lemma_sum_in_reach(xx, yy, 73, 2075);
    let s1 = sum(xx, yy);
    let g1 = grid(s1.magnitude());
    lemma_pow2_order(72, 73);
    lemma_pow2_order(2075, 2077);
    lemma_sum_in_reach(s1, zz, 72, 2077);
    let s = sum(s1, zz);
    let g = grid(s.magnitude());
    // the first sum
    lemma_within_sum(kx * e, gx * gx, ky * e, gy * gy, 1);
    assert((kx + ky) * e == kx * e + ky * e) by (nonlinear_arith);
    lemma_within_scale(g1, kx + ky, e, 1);
    lemma_within_chain(g1 * e, (kx + ky) * e, gx * gx + gy * gy, 1, 1);
    // the second sum
    lemma_within_weaken(kz * e, gz * gz, 1, 2);
    lemma_within_sum(g1 * e, gx * gx + gy * gy, kz * e, gz * gz, 2);
    assert((g1 + kz) * e == g1 * e + kz * e) by (nonlinear_arith);
    lemma_within_scale(g, g1 + kz, e, 1);
    lemma_within_chain(g * e, (g1 + kz) * e, gx * gx + gy * gy + gz * gz, 1, 2);
}

/// The square of the length, computed from the length, is less than a
/// ten-millionth away from the squared length, for vectors whose squared
/// length is zero or lies between two to the minus 1000 and two to the 27th.
pub proof fn law_length_squared_agrees(v: Vec3)
    requires
        norm_squared(v).zero() || sized(norm_squared(v), -1000, 27),
    ensures
        below(
            absolute(difference(product(norm(v), norm(v)), norm_squared(v))),
            ten_millionth(),
        ),
{
    law_length_sq_not_negative(v);
    law_root_squared_agrees(norm_squared(v));
}

/// The number is finite, and zero or of a size between two to the minus
/// 200 and two to the 200.
pub open spec fn moderate(c: Double) -> bool {
    c.finite() && (c.zero() || sized(c, -200, 200))
}

/// A root is at most a bound whose square its square does not pass.
proof fn lemma_square_order(a: nat, b: nat)
    requires
        a * a <= b * b,
    ensures
        a <= b,
{
    if a > b {
        assert(a * a > b * b) by (nonlinear_arith)
            requires
                a > b,
                b >= 0,
        ;
    }
}

/// A moderate number divided by the length of a moderate vector is within
/// one rounding of the exact quotient, and in reach.
proof fn lemma_component_in_reach(c: Double, l: Double, t: nat)
    requires
        moderate(c),
        l.finite(),
        !l.zero(),
        grid(l.magnitude()) * grid(l.magnitude()) <= 2 * t,
        t <= 2 * (grid(l.magnitude()) * grid(l.magnitude())),
        pow2(1748) <= t <= 3 * pow2(2548),
    ensures
        in_reach(quotient(c, l)),
        within(
            grid(quotient(c, l).magnitude()) * grid(l.magnitude()),
            grid(c.magnitude()) * pow2(1074),
            1,
        ),
{
    let e = pow2(1074);
    let gc = grid(c.magnitude());
    let gl = grid(l.magnitude());
    let ll = gl * gl;
    let q = quotient(c, l);
    let gq = grid(q.magnitude());
    lemma_pow2_pos(1074);
    lemma_grid_zero(c.magnitude());
    lemma_grid_zero(l.magnitude());
    if c.zero() {
        lemma_quotient_close(c, l);
    } else {
        let ce = gc * e;
        lemma_pow2_adds(874, 1074);
        lemma_pow2_adds(1274, 1074);
        assert(pow2(1948) <= ce <= pow2(2348)) by (nonlinear_arith)
            requires
                ce == gc * e,
                pow2(874) <= gc <= pow2(1274),
                pow2(1948) == pow2(874) * e,
                pow2(2348) == pow2(1274) * e,
                e > 0,
        ;
        // the length lies between two to the 873rd and two to the 1276th
        lemma_pow2_adds(873, 873);
        lemma_pow2_adds(1276, 1276);
        lemma_pow2_adds(2, 2548);
        lemma_pow2_order(2550, 2551);
        lemma_pow2_order(2551, 2552);
        lemma_pow2_order(1746, 1747);
        lemma_pow2_order(1747, 1748);
        lemma2_to64();
        let lo = pow2(873);
        let hi = pow2(1276);
        assert(lo * lo <= ll <= hi * hi);
        lemma_square_order(lo, gl);
        lemma_square_order(gl, hi);
        lemma_pow2_adds(52, 1276);
        lemma_pow2_adds(2097, 873);
        lemma_pow2_pos(2097);
        lemma_pow2_pos(873);
        lemma_pow2_order(1328, 1948);
        lemma_pow2_order(2348, 2970);
        assert(pow2(52) * gl <= ce && ce <= pow2(2097) * gl) by (nonlinear_arith)
            requires
                lo <= gl <= hi,
                pow2(52) * hi <= ce,
                ce <= pow2(2097) * lo,
                pow2(52) > 0,
                pow2(2097) > 0,
        ;
        lemma_quotient_close(c, l);
        lemma_within_gap(gq * gl, ce, 1);
        lemma_pow2_adds(574, 1276);
        lemma_pow2_adds(1574, 873);
        lemma_pow2_order(1850, 1947);
        lemma_pow2_order(1947, 1948);
        lemma_pow2_order(2348, 2349);
        lemma_pow2_order(2349, 2447);
        lemma_pow2_pos(574);
        assert(pow2(574) <= gq <= pow2(1574)) by (nonlinear_arith)
            requires
                gq * gl <= 2 * ce,
                ce <= 2 * (gq * gl),
                lo <= gl <= hi,
                pow2(574) * hi <= pow2(1947),
                2 * pow2(1947) <= pow2(1948),
                pow2(1948) <= ce <= pow2(2348),
                2 * pow2(2348) <= pow2(2349),
                pow2(2349) <= pow2(1574) * lo,
                lo > 0,
                pow2(574) > 0,
        {
            if gq < pow2(574) {
                assert(gq * gl <= pow2(574) * hi);
            }
            if gq > pow2(1574) {
                assert(gq * gl >= pow2(1574) * lo + lo);
            }
        }
        lemma_grid_zero(q.magnitude());
    }
}

/// Where three numbers times a length are each within one rounding of a
/// component times the unit, and the square of the length within five of
/// the sum of the components' squares, the squares of the three numbers add
/// up to the square of the unit within seven roundings.
proof fn lemma_unit_sum(nx: nat, ny: nat, nz: nat, gl: nat, cx: nat, cy: nat, cz: nat, e: nat)
    requires
        within(nx * gl, cx * e, 1),
        within(ny * gl, cy * e, 1),
        within(nz * gl, cz * e, 1),
        within(gl * gl, cx * cx + cy * cy + cz * cz, 5),
        gl > 0,
        e > 0,
    ensures
        within(nx * nx + ny * ny + nz * nz, e * e, 7),
{
    let t = cx * cx + cy * cy + cz * cz;
    let n = nx * nx + ny * ny + nz * nz;
    let ll = gl * gl;
    let ee = e * e;
    lemma_within_product(nx * gl, cx * e, 1, nx * gl, cx * e, 1);
    lemma_within_product(ny * gl, cy * e, 1, ny * gl, cy * e, 1);
    lemma_within_product(nz * gl, cz * e, 1, nz * gl, cz * e, 1);
    let ax = (nx * gl) * (nx * gl);
    let ay = (ny * gl) * (ny * gl);
    let az = (nz * gl) * (nz * gl);
    let bx = (cx * e) * (cx * e);
    let by = (cy * e) * (cy * e);
    let bz = (cz * e) * (cz * e);
    lemma_within_sum(ax, bx, ay, by, 2);
    lemma_within_sum(ax + ay, bx + by, az, bz, 2);
    assert(ax + ay + az == n * ll) by (nonlinear_arith)
        requires
            ax == (nx * gl) * (nx * gl),
            ay == (ny * gl) * (ny * gl),
            az == (nz * gl) * (nz * gl),
            n == nx * nx + ny * ny + nz * nz,
            ll == gl * gl,
    ;
    assert(bx + by + bz == t * ee) by (nonlinear_arith)
        requires
            bx == (cx * e) * (cx * e),
            by == (cy * e) * (cy * e),
            bz == (cz * e) * (cz * e),
            t == cx * cx + cy * cy + cz * cz,
            ee == e * e,
    ;
    assert(ee > 0 && ll > 0) by (nonlinear_arith)
        requires
            ee == e * e,
            ll == gl * gl,
            e > 0,
            gl > 0,
    ;
    lemma_within_scale(ll, t, ee, 5);
    lemma_within_chain(n * ll, t * ee, ll * ee, 2, 5);
    assert(ll * ee == ee * ll) by (nonlinear_arith);
    lemma_within_scale(n, ee, ll, 7);
}

/// A number within six roundings of one is less than a millionth away
/// from one.
proof fn lemma_near_one(l: Double)
    requires
        l.finite(),
        !l.negative(),
        within(grid(l.magnitude()), pow2(1074), 6),
    ensures
        below(absolute(difference(l, whole(1))), millionth()),
{
    let e = pow2(1074);
    let g = grid(l.magnitude());
    let one = whole(1);
    lemma_constants();
    lemma2_to64();
    lemma2_to64_rest();
    lemma_pow2_adds(52, 1022);
    lemma_pow2_adds(52, 974);
    lemma_pow2_adds(48, 1026);
    lemma_grid_parts(1022, HIDDEN as nat);
    lemma_grid_parts(974, HIDDEN as nat);
    assert(join(1022, HIDDEN as nat) == 0x3FF0_0000_0000_0000);
    assert(join(974, HIDDEN as nat) == 0x3CF0_0000_0000_0000);
    assert(one.magnitude() == 0x3FF0_0000_0000_0000);
    assert(grid(one.magnitude()) == e);
    let top = 0x3CF0_0000_0000_0000nat;
    assert(grid(top) == pow2(1026));
    lemma_within_gap(g, e, 6);
    assert(g - e <= pow2(1026) && e - g <= pow2(1026)) by (nonlinear_arith)
        requires
            g * 0x20_0000_0000_0000 <= e * (0x20_0000_0000_0000 + 12),
            e * 0x20_0000_0000_0000 <= g * (0x20_0000_0000_0000 + 12),
            g <= 2 * e,
            e == 0x1_0000_0000_0000 * pow2(1026),
            pow2(1026) >= 0,
    ;
    lemma_difference_at_most(l, one, top);
}

/// The length of a normalized vector is less than a millionth away from
/// one, for vectors of moderate components that are not all zero. The
/// vectors are given by their components.
pub proof fn law_unit_length(x: Double, y: Double, z: Double)
    requires
        moderate(x),
        moderate(y),
        moderate(z),
        !(x.zero() && y.zero() && z.zero()),
    ensures
        below(
            absolute(
                difference(
                    square_root(
                        sum_of_squares(
                            quotient(x, square_root(sum_of_squares(x, y, z))),
                            quotient(y, square_root(sum_of_squares(x, y, z))),
                            quotient(z, square_root(sum_of_squares(x, y, z))),
                        ),
                    ),
                    whole(1),
                ),
            ),
            millionth(),
        ),
{
    let e = pow2(1074);
    let s = sum_of_squares(x, y, z);
    let l = square_root(s);
    let gx = grid(x.magnitude());
    let gy = grid(y.magnitude());
    let gz = grid(z.magnitude());
    let t = gx * gx + gy * gy + gz * gz;
    let gs = grid(s.magnitude());
    let gl = grid(l.magnitude());
    lemma_pow2_pos(1074);
    lemma_pow2_order(574, 874);
    lemma_pow2_order(1274, 1574);
    lemma_grid_zero(x.magnitude());
    lemma_grid_zero(y.magnitude());
    lemma_grid_zero(z.magnitude());
    lemma_squares_close(x, y, z);
    // the exact sum of squares lies between two to the 1748th and three
    // times two to the 2548th
    lemma_pow2_adds(874, 874);
    lemma_pow2_adds(1274, 1274);
    assert(pow2(1748) <= t <= 3 * pow2(2548)) by (nonlinear_arith)
        requires
            t == gx * gx + gy * gy + gz * gz,
            gx == 0 || pow2(874) <= gx <= pow2(1274),
            gy == 0 || pow2(874) <= gy <= pow2(1274),
            gz == 0 || pow2(874) <= gz <= pow2(1274),
            gx > 0 || gy > 0 || gz > 0,
            pow2(1748) == pow2(874) * pow2(874),
            pow2(2548) == pow2(1274) * pow2(1274),
    {
        assert(gx == 0 || pow2(874) * pow2(874) <= gx * gx <= pow2(1274) * pow2(1274));
        assert(gy == 0 || pow2(874) * pow2(874) <= gy * gy <= pow2(1274) * pow2(1274));
        assert(gz == 0 || pow2(874) * pow2(874) <= gz * gz <= pow2(1274) * pow2(1274));
    }
    lemma_pow2_pos(1748);
    lemma_within_gap(gs * e, t, 3);
    assert(gs > 0) by (nonlinear_arith)
        requires
            t <= 2 * (gs * e),
            t > 0,
    ;
    lemma_root_close(s);
    lemma_within_chain(gl * gl, gs * e, t, 2, 3);
    lemma_within_gap(gl * gl, t, 5);
    lemma_grid_zero(l.magnitude());
    lemma_component_in_reach(x, l, t);
    lemma_component_in_reach(y, l, t);
    lemma_component_in_reach(z, l, t);
    let nx = quotient(x, l);
    let ny = quotient(y, l);
    let nz = quotient(z, l);
    let hx = grid(nx.magnitude());
    let hy = grid(ny.magnitude());
    let hz = grid(nz.magnitude());
    lemma_unit_sum(hx, hy, hz, gl, gx, gy, gz, e);
    let n = hx * hx + hy * hy + hz * hz;
    lemma_squares_close(nx, ny, nz);
    let u = sum_of_squares(nx, ny, nz);
    let gu = grid(u.magnitude());
    lemma_within_chain(gu * e, n, e * e, 3, 7);
    lemma_within_gap(gu * e, e * e, 10);
    assert(gu > 0) by (nonlinear_arith)
        requires
            e * e <= 2 * (gu * e),
            e > 0,
    ;
    lemma_grid_zero(u.magnitude());
    lemma_root_close(u);
    let r = square_root(u);
    let gr = grid(r.magnitude());
    lemma_within_chain(gr * gr, gu * e, e * e, 2, 10);
    lemma_within_root(gr, e, 6);
    lemma_near_one(r);
}

/// The length of a vector of moderate components that are not all zero
/// is a finite number above zero: such a vector can be normalized.
pub proof fn law_length_is_positive(v: Vec3)
    requires
        moderate(v.x),
        moderate(v.y),
        moderate(v.z),
        !(v.x.zero() && v.y.zero() && v.z.zero()),
    ensures
        norm(v).finite(),
        !norm(v).negative(),
        !norm(v).zero(),
{
    let e = pow2(1074);
    let gx = grid(v.x.magnitude());
    let gy = grid(v.y.magnitude());
    let gz = grid(v.z.magnitude());
    let t = gx * gx + gy * gy + gz * gz;
    let s = norm_squared(v);
    let gs = grid(s.magnitude());
    lemma_pow2_pos(1074);
    lemma_pow2_order(574, 874);
    lemma_pow2_order(1274, 1574);
    lemma_grid_zero(v.x.magnitude());
    lemma_grid_zero(v.y.magnitude());
    lemma_grid_zero(v.z.magnitude());
    lemma_squares_close(v.x, v.y, v.z);
    assert(t > 0) by (nonlinear_arith)
        requires
            t == gx * gx + gy * gy + gz * gz,
            gx > 0 || gy > 0 || gz > 0,
            gx >= 0,
            gy >= 0,
            gz >= 0,
    ;
    lemma_within_gap(gs * e, t, 3);
    assert(gs > 0) by (nonlinear_arith)
        requires
            t <= 2 * (gs * e),
            t > 0,
    ;
    lemma_root_close(s);
}

/// The length of a normalized vector is less than a millionth away from
/// one, for vectors of moderate components that are not all zero.
pub proof fn law_normalized_has_length_one(v: Vec3)
    requires
        moderate(v.x),
        moderate(v.y),
        moderate(v.z),
        !(v.x.zero() && v.y.zero() && v.z.zero()),
    ensures
        below(absolute(difference(norm(direction(v)), whole(1))), millionth()),
{
    law_unit_length(v.x, v.y, v.z);
}

} // verus!
