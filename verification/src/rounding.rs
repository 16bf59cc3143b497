//! Rounding to the nearest representable value, ties to even.

use vstd::prelude::*;
use vstd::arithmetic::power2::lemma2_to64;
use crate::binary64::{
    grid, INFINITE, join, lemma_grid_increases, lemma_grid_parts, lemma_grid_step, lemma_grid_zero,
};

verus! {

/// A non-negative real number, counted in units of two to the minus 1074.
pub enum Exact {
    /// The quotient of `num` by `den`.
    Ratio { num: nat, den: nat },
    /// The square root of `square`.
    Root { square: nat },
}

impl Exact {
    /// The number is defined: no quotient by zero.
    pub open spec fn wf(self) -> bool {
        match self {
            Exact::Ratio { num, den } => den > 0,
            Exact::Root { square } => true,
        }
    }

    /// The number times `2 * c` is at least `t`.
    pub open spec fn reaches_at(self, c: nat, t: nat) -> bool {
        match self {
            Exact::Ratio { num, den } => 2 * num * c >= t * den,
            Exact::Root { square } => 4 * square * (c * c) >= t * t,
        }
    }

    /// The number times `2 * c` is more than `t`.
    pub open spec fn exceeds_at(self, c: nat, t: nat) -> bool {
        match self {
            Exact::Ratio { num, den } => 2 * num * c > t * den,
            Exact::Root { square } => 4 * square * (c * c) > t * t,
        }
    }

    /// Twice the number is at least `t`.
    pub open spec fn twice_reaches(self, t: nat) -> bool {
        self.reaches_at(1, t)
    }

    /// Twice the number is more than `t`.
    pub open spec fn twice_exceeds(self, t: nat) -> bool {
        self.exceeds_at(1, t)
    }
}

/// The number lies between the values of `m` and of the next magnitude:
/// at the first or above it, below the second.
pub open spec fn is_floor(x: Exact, m: nat) -> bool {
    x.twice_reaches(2 * grid(m)) && !x.twice_reaches(2 * grid(m + 1))
}

/// The magnitude nearest to `x`. Of two equally near the even one is taken,
/// and a number at or above two to the 1024 gives infinity.
#[verifier::opaque]
pub open spec fn nearest(x: Exact) -> nat {
    if x.twice_reaches(2 * grid(INFINITE as nat)) {
        INFINITE as nat
    } else {
        let m = choose|m: nat| is_floor(x, m);
        let middle = grid(m) + grid(m + 1);
        if x.twice_exceeds(middle) {
            m + 1
        } else if x.twice_reaches(middle) && m % 2 == 1 {
            m + 1
        } else {
            m
        }
    }
}

/// A number that reaches a mark reaches every lower mark, and exceeds every
/// mark that is strictly lower.
pub proof fn lemma_reaches_below(x: Exact, c: nat, t1: nat, t2: nat)
    requires
        x.wf(),
        t1 <= t2,
    ensures
        x.reaches_at(c, t2) ==> x.reaches_at(c, t1),
        x.exceeds_at(c, t2) ==> x.exceeds_at(c, t1),
        x.exceeds_at(c, t1) ==> x.reaches_at(c, t1),
        t1 < t2 && x.reaches_at(c, t2) ==> x.exceeds_at(c, t1),
{
    match x {
        Exact::Ratio { num, den } => {
            assert(t1 * den <= t2 * den) by (nonlinear_arith)
                requires
                    t1 <= t2,
            ;
            assert(t1 < t2 ==> t1 * den < t2 * den) by (nonlinear_arith)
                requires
                    den > 0,
            ;
        },
        Exact::Root { square } => {
            assert(t1 * t1 <= t2 * t2) by (nonlinear_arith)
                requires
                    t1 <= t2,
            ;
            assert(t1 < t2 ==> t1 * t1 < t2 * t2) by (nonlinear_arith)
                requires
                    t1 <= t2,
            ;
        },
    }
}

/// Comparisons do not depend on the unit they are made in.
pub proof fn lemma_reaches_zoom(x: Exact, c: nat, t: nat)
    requires
        x.wf(),
        c > 0,
    ensures
        x.reaches_at(c, t * c) == x.twice_reaches(t),
        x.exceeds_at(c, t * c) == x.twice_exceeds(t),
{
    match x {
        Exact::Ratio { num, den } => {
            let a = 2 * num;
            let b = t * den;
            assert(2 * num * c == a * c) by (nonlinear_arith)
                requires
                    a == 2 * num,
            ;
            assert((t * c) * den == b * c) by (nonlinear_arith)
                requires
                    b == t * den,
            ;
            assert((a * c >= b * c) == (a >= b)) by (nonlinear_arith)
                requires
                    c > 0,
            ;
            assert((a * c > b * c) == (a > b)) by (nonlinear_arith)
                requires
                    c > 0,
            ;
            assert(2 * num * 1 == a);
            assert(t * den == b);
        },
        Exact::Root { square } => {
            let a = 4 * square;
            let b = t * t;
            let cc = c * c;
            assert(cc > 0) by (nonlinear_arith)
                requires
                    cc == c * c,
                    c > 0,
            ;
            assert(4 * square * (c * c) == a * cc) by (nonlinear_arith)
                requires
                    a == 4 * square,
                    cc == c * c,
            ;
            assert((t * c) * (t * c) == b * cc) by (nonlinear_arith)
                requires
                    b == t * t,
                    cc == c * c,
            ;
            assert((a * cc >= b * cc) == (a >= b)) by (nonlinear_arith)
                requires
                    cc > 0,
            ;
            assert((a * cc > b * cc) == (a > b)) by (nonlinear_arith)
                requires
                    cc > 0,
            ;
            assert(4 * square * (1 * 1) == a) by (nonlinear_arith)
                requires
                    a == 4 * square,
            ;
        },
    }
}

/// A number has one floor.
pub proof fn lemma_floor_unique(x: Exact, m: nat, n: nat)
    requires
        x.wf(),
        is_floor(x, m),
        is_floor(x, n),
    ensures
        m == n,
{
    if m < n {
        if m + 1 < n {
            lemma_grid_increases(m + 1, n);
        }
        lemma_reaches_below(x, 1, 2 * grid(m + 1), 2 * grid(n));
    } else if n < m {
        if n + 1 < m {
            lemma_grid_increases(n + 1, m);
        }
        lemma_reaches_below(x, 1, 2 * grid(n + 1), 2 * grid(m));
    }
}

/// What `nearest` gives for a number whose floor is known.
pub proof fn lemma_nearest_of_floor(x: Exact, m: nat)
    requires
        x.wf(),
        is_floor(x, m),
        m < INFINITE,
    ensures
        nearest(x) == if x.twice_exceeds(grid(m) + grid(m + 1)) || (x.twice_reaches(
            grid(m) + grid(m + 1),
        ) && m % 2 == 1) {
            m + 1
        } else {
            m
        },
{
    reveal(nearest);
    if m + 1 < INFINITE {
        lemma_grid_increases(m + 1, INFINITE as nat);
    }
    lemma_reaches_below(x, 1, 2 * grid(m + 1), 2 * grid(INFINITE as nat));
    let c = choose|c: nat| is_floor(x, c);
    lemma_floor_unique(x, m, c);
}

/// Below two to the 1024 every number has a floor.
pub proof fn lemma_floor_exists(x: Exact, m: nat)
    requires
        x.wf(),
        m <= INFINITE,
        x.twice_reaches(2 * grid(m)),
        !x.twice_reaches(2 * grid(INFINITE as nat)),
    ensures
        exists|f: nat| f < INFINITE && is_floor(x, f),
    decreases INFINITE - m,
{
    if m < INFINITE {
        if x.twice_reaches(2 * grid(m + 1)) {
            lemma_floor_exists(x, m + 1);
        } else {
            assert(is_floor(x, m));
        }
    }
}

/// Rounding gives the magnitude of a finite number or of infinity.
pub proof fn lemma_nearest_bounded(x: Exact)
    requires
        x.wf(),
    ensures
        nearest(x) <= INFINITE,
{
    reveal(nearest);
    if !x.twice_reaches(2 * grid(INFINITE as nat)) {
        lemma_grid_zero(0);
        assert(x.twice_reaches(2 * grid(0))) by (nonlinear_arith)
            requires
                grid(0) == 0,
                x.twice_reaches(0) == match x {
                    Exact::Ratio { num, den } => 2 * num * 1 >= 0 * den,
                    Exact::Root { square } => 4 * square * (1 * 1) >= 0 * 0,
                },
        ;
        lemma_floor_exists(x, 0);
        let f = choose|f: nat| f < INFINITE && is_floor(x, f);
        lemma_nearest_of_floor(x, f);
    }
}

/// Zero rounds to zero.
pub proof fn lemma_nearest_zero(x: Exact)
    requires
        x.wf(),
        x matches Exact::Ratio { num, den } && num == 0,
    ensures
        nearest(x) == 0,
{
    lemma_grid_parts(0, 0);
    lemma_grid_parts(0, 1);
    lemma2_to64();
    assert(join(0, 0) == 0);
    assert(join(0, 1) == 1);
    assert(grid(0) == 0);
    assert(grid(1) == 1);
    assert(is_floor(x, 0)) by (nonlinear_arith)
        requires
            x matches Exact::Ratio { num, den } && num == 0 && den > 0,
            grid(0) == 0,
            grid(1) == 1,
    ;
    lemma_nearest_of_floor(x, 0);
    assert(!x.twice_reaches(grid(0) + grid(1))) by (nonlinear_arith)
        requires
            x matches Exact::Ratio { num, den } && num == 0 && den > 0,
            grid(0) == 0,
            grid(1) == 1,
    ;
}

/// A value of the grid rounds to itself.
pub proof fn lemma_nearest_on_grid(m: nat)
    requires
        m < INFINITE,
    ensures
        nearest(Exact::Ratio { num: grid(m), den: 1 }) == m,
{
    let x = Exact::Ratio { num: grid(m), den: 1 };
    lemma_grid_step(m);
    let lo = grid(m);
    let hi = grid(m + 1);
    assert(x.twice_reaches(2 * lo) && !x.twice_reaches(2 * hi) && !x.twice_reaches(lo + hi)) by (nonlinear_arith)
        requires
            x == (Exact::Ratio { num: lo, den: 1 }),
            lo < hi,
    ;
    lemma_nearest_of_floor(x, m);
}

} // verus!
