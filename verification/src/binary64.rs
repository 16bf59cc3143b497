//! The binary64 format: bit patterns, the values they stand for, and the
//! classes of numbers.

use vstd::prelude::*;
use vstd::arithmetic::div_mod::{lemma_fundamental_div_mod, lemma_fundamental_div_mod_converse};
use vstd::arithmetic::power2::{lemma2_to64, lemma_pow2_pos, lemma_pow2_unfold, pow2};

verus! {

/// The sign bit.
pub const SIGN: u64 = 0x8000_0000_0000_0000;

/// Magnitude of infinity. Larger magnitudes are NaNs, smaller ones finite.
pub const INFINITE: u64 = 0x7FF0_0000_0000_0000;

/// Two to the 52nd: the implicit leading bit of a normal significand.
pub const HIDDEN: u64 = 0x0010_0000_0000_0000;

/// Magnitude of the NaN that arithmetic returns.
pub const QUIET: u64 = 0x7FF8_0000_0000_0000;

/// The binary exponent of the smallest positive number, negated: every
/// finite value is a whole multiple of two to the minus 1074.
pub const DEPTH: u64 = 1074;

/// The integer significand of the magnitude `m`.
pub open spec fn significand(m: nat) -> nat {
    if m < HIDDEN {
        m
    } else {
        HIDDEN as nat + m % (HIDDEN as nat)
    }
}

/// The binary exponent that goes with `significand(m)`.
pub open spec fn scale(m: nat) -> nat {
    if m < HIDDEN {
        0
    } else {
        (m / (HIDDEN as nat) - 1) as nat
    }
}

/// The value of the magnitude `m`, counted in units of two to the minus
/// 1074. Infinity counts as two to the 1024, the value that would come next.
pub open spec fn grid(m: nat) -> nat {
    significand(m) * pow2(scale(m))
}

/// The magnitude with scale `s` and significand `q`.
pub open spec fn join(s: nat, q: nat) -> nat {
    s * (HIDDEN as nat) + q
}

/// A magnitude is fixed by its scale and significand.
pub proof fn lemma_grid_parts(s: nat, q: nat)
    requires
        q < 2 * HIDDEN,
        s == 0 || q >= HIDDEN,
    ensures
        grid(join(s, q)) == q * pow2(s),
        q >= HIDDEN ==> significand(join(s, q)) == q && scale(join(s, q)) == s,
{
    let h = HIDDEN as int;
    let m = join(s, q) as int;
    if q < HIDDEN {
        assert(m == q) by (nonlinear_arith)
            requires
                s == 0,
                m == s * h + q,
        ;
        assert(pow2(0) == 1) by {
            lemma_pow2_unfold(1);
            lemma2_to64();
        }
    } else {
        assert(m == h * (s + 1) + (q - h)) by (nonlinear_arith)
            requires
                m == s * h + q,
        ;
        lemma_fundamental_div_mod_converse(m, h, s as int + 1, q as int - h);
        assert(s + 1 >= 1);
        assert(m >= h) by (nonlinear_arith)
            requires
                m == h * (s + 1) + (q - h),
                q >= h,
                s >= 0,
                h > 0,
        ;
    }
}

/// Each magnitude splits into its scale and significand.
pub proof fn lemma_grid_split(m: nat)
    ensures
        m == join(scale(m), significand(m)),
        significand(m) < 2 * HIDDEN,
        scale(m) == 0 || significand(m) >= HIDDEN,
        m < INFINITE ==> scale(m) < 2046,
{
    let h = HIDDEN as int;
    if m >= HIDDEN {
        lemma_fundamental_div_mod(m as int, h);
        let d = m as int / h;
        let r = m as int % h;
        assert(d >= 1) by (nonlinear_arith)
            requires
                m == h * d + r,
                0 <= r < h,
                m >= h,
        ;
        assert((d - 1) * h + (h + r) == m) by (nonlinear_arith)
            requires
                m == h * d + r,
        ;
        if m < INFINITE {
            assert(d < 2047) by (nonlinear_arith)
                requires
                    m == h * d + r,
                    0 <= r,
                    m < 2047 * h,
                    h > 0,
            ;
        }
    }
}

/// The step from one magnitude to the next is one unit in the last place.
pub proof fn lemma_grid_step(m: nat)
    ensures
        grid(m + 1) == grid(m) + pow2(scale(m)),
        grid(m) < grid(m + 1),
{
    let s = scale(m);
    let q = significand(m);
    lemma_grid_split(m);
    lemma_grid_parts(s, q);
    lemma_pow2_pos(s);
    if q + 1 < 2 * HIDDEN {
        lemma_grid_parts(s, q + 1);
        assert(join(s, q + 1) == m + 1);
        assert((q + 1) * pow2(s) == q * pow2(s) + pow2(s)) by (nonlinear_arith);
    } else {
        lemma_grid_parts(s + 1, HIDDEN as nat);
        assert(join(s + 1, HIDDEN as nat) == m + 1) by (nonlinear_arith)
            requires
                m == s * HIDDEN + q,
                q + 1 == 2 * HIDDEN,
                join(s + 1, HIDDEN as nat) == (s + 1) * HIDDEN + HIDDEN,
        ;
        lemma_pow2_unfold(s + 1);
        assert(HIDDEN * (2 * pow2(s)) == q * pow2(s) + pow2(s)) by (nonlinear_arith)
            requires
                q + 1 == 2 * HIDDEN,
        ;
    }
}

/// Larger magnitudes stand for larger values.
pub proof fn lemma_grid_increases(a: nat, b: nat)
    requires
        a < b,
    ensures
        grid(a) < grid(b),
    decreases b,
{
    lemma_grid_step((b - 1) as nat);
    if a + 1 < b {
        lemma_grid_increases(a, (b - 1) as nat);
    }
}

/// Only zero has the value zero.
pub proof fn lemma_grid_zero(m: nat)
    ensures
        grid(0) == 0,
        m > 0 ==> grid(m) > 0,
{
    lemma_grid_parts(0, 0);
    assert(join(0, 0) == 0);
    assert(grid(0) == 0) by (nonlinear_arith)
        requires
            grid(0) == 0 * pow2(0),
    ;
    if m > 0 {
        lemma_grid_increases(0, m);
    }
}

/// A binary64 number, held by its bit pattern.
#[derive(Clone, Copy, Debug)]
pub struct Double {
    pub bits: u64,
}

impl Double {
    /// The sign bit is set.
    pub open spec fn negative(self) -> bool {
        self.bits >= SIGN
    }

    /// The bit pattern without its sign bit.
    pub open spec fn magnitude(self) -> nat {
        if self.bits >= SIGN {
            (self.bits - SIGN) as nat
        } else {
            self.bits as nat
        }
    }

    /// Not a number.
    pub open spec fn nan(self) -> bool {
        self.magnitude() > INFINITE
    }

    /// Plus or minus infinity.
    pub open spec fn infinite(self) -> bool {
        self.magnitude() == INFINITE
    }

    /// Neither infinite nor a NaN.
    pub open spec fn finite(self) -> bool {
        self.magnitude() < INFINITE
    }

    /// Plus or minus zero.
    pub open spec fn zero(self) -> bool {
        self.magnitude() == 0
    }

    /// The value of a finite number, in units of two to the minus 1074.
    pub open spec fn units(self) -> int {
        if self.negative() {
            -(grid(self.magnitude()) as int)
        } else {
            grid(self.magnitude()) as int
        }
    }

    /// The place of a number that is not a NaN on the number line: numbers
    /// are ordered as their ranks are, and the two zeros share rank zero.
    pub open spec fn rank(self) -> int {
        if self.negative() {
            -(self.magnitude() as int)
        } else {
            self.magnitude() as int
        }
    }

    /// The number with the given sign and magnitude.
    pub open spec fn pack(negative: bool, m: nat) -> Double {
        Double {
            bits: if negative {
                (m + SIGN) as u64
            } else {
                m as u64
            },
        }
    }

    /// The NaN that arithmetic returns.
    pub open spec fn quiet() -> Double {
        Double { bits: QUIET }
    }

    /// The number with the bit pattern `bits`.
    pub fn from_bits(bits: u64) -> (r: Double)
        ensures
            r.bits == bits,
    {
        Double { bits }
    }

    /// The bit pattern.
    pub fn to_bits(self) -> (r: u64)
        ensures
            r == self.bits,
    {
        self.bits
    }

    /// The number with the given sign and magnitude.
    pub fn compose(negative: bool, m: u64) -> (r: Double)
        requires
            m < SIGN,
        ensures
            r == Double::pack(negative, m as nat),
            r.negative() == negative,
            r.magnitude() == m,
    {
        if negative {
            Double { bits: m + SIGN }
        } else {
            Double { bits: m }
        }
    }

    /// Whether the sign bit is set.
    pub fn is_negative(self) -> (r: bool)
        ensures
            r == self.negative(),
    {
        self.bits >= SIGN
    }

    /// The bit pattern without its sign bit.
    pub fn mag(self) -> (r: u64)
        ensures
            r == self.magnitude(),
            r < SIGN,
    {
        if self.bits >= SIGN {
            self.bits - SIGN
        } else {
            self.bits
        }
    }

    /// Whether the number is a NaN.
    pub fn is_nan(self) -> (r: bool)
        ensures
            r == self.nan(),
    {
        self.mag() > INFINITE
    }

    /// Whether the number is plus or minus infinity.
    pub fn is_infinite(self) -> (r: bool)
        ensures
            r == self.infinite(),
    {
        self.mag() == INFINITE
    }

    /// Whether the number is neither infinite nor a NaN.
    pub fn is_finite(self) -> (r: bool)
        ensures
            r == self.finite(),
    {
        self.mag() < INFINITE
    }

    /// Whether the number is plus or minus zero.
    pub fn is_zero(self) -> (r: bool)
        ensures
            r == self.zero(),
    {
        self.mag() == 0
    }

    /// The same number with the other sign. A NaN stays a NaN.
    pub fn negate(self) -> (r: Double)
        ensures
            r == opposite(self),
    {
        Double::compose(!self.is_negative(), self.mag())
    }

    /// The same number with its sign cleared. A NaN stays a NaN.
    pub fn abs(self) -> (r: Double)
        ensures
            r == absolute(self),
    {
        Double::compose(false, self.mag())
    }
}

/// The number with the other sign.
pub open spec fn opposite(a: Double) -> Double {
    Double::pack(!a.negative(), a.magnitude())
}

/// The number without its sign.
pub open spec fn absolute(a: Double) -> Double {
    Double::pack(false, a.magnitude())
}

/// A number is its sign and its magnitude.
pub proof fn lemma_pack_parts(a: Double)
    ensures
        Double::pack(a.negative(), a.magnitude()) == a,
        a.magnitude() < SIGN,
{
}

/// Significand and scale of a magnitude.
pub fn parts(m: u64) -> (r: (u64, i32))
    requires
        m < INFINITE,
    ensures
        r.0 == significand(m as nat),
        r.1 == scale(m as nat),
        r.0 < 2 * HIDDEN,
        0 <= r.1 < 2046,
        r.1 == 0 || r.0 >= HIDDEN,
        grid(m as nat) == r.0 * pow2(r.1 as nat),
        m > 0 ==> r.0 > 0,
{
    proof {
        lemma_grid_split(m as nat);
    }
    if m < HIDDEN {
        (m, 0)
    } else {
        (HIDDEN + m % HIDDEN, (m / HIDDEN - 1) as i32)
    }
}

} // verus!
