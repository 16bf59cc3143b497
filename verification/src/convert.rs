//! Whole numbers as binary64 numbers.

use vstd::prelude::*;
use vstd::arithmetic::power2::{lemma_pow2_pos, pow2};
use crate::binary64::{DEPTH, Double};
use crate::cells::{lemma_cell_whole, round_pack};
use crate::rounding::{Exact, lemma_nearest_zero, nearest};

verus! {

/// The number nearest to the whole number `i`.
pub open spec fn whole(i: int) -> Double {
    if i >= 0 {
        Double::pack(false, nearest(Exact::Ratio { num: (i * pow2(DEPTH as nat)) as nat, den: 1 }))
    } else {
        Double::pack(true, nearest(Exact::Ratio { num: (-i * pow2(DEPTH as nat)) as nat, den: 1 }))
    }
}

/// The number nearest to the whole number with the given sign and size.
pub fn from_whole(negative: bool, size: u64) -> (r: Double)
    requires
        negative ==> size > 0,
    ensures
        r == whole(if negative { -(size as int) } else { size as int }),
{
    let ghost n = (size * pow2(DEPTH as nat)) as nat;
    proof {
        lemma_pow2_pos(DEPTH as nat);
        assert(-(size as int) * pow2(DEPTH as nat) == -(size * pow2(DEPTH as nat))) by (nonlinear_arith);
        assert(size * pow2(DEPTH as nat) >= 0) by (nonlinear_arith);
    }
    if size == 0 {
        proof {
            assert(n == 0) by (nonlinear_arith)
                requires
                    n == size * pow2(DEPTH as nat),
                    size == 0,
            ;
            lemma_nearest_zero(Exact::Ratio { num: n, den: 1 });
        }
        return Double::compose(false, 0);
    }
    proof {
        assert(n < (size + 1) * pow2(DEPTH as nat)) by (nonlinear_arith)
            requires
                n == size * pow2(DEPTH as nat),
                pow2(DEPTH as nat) > 0,
        ;
        lemma_cell_whole(n, size as nat, DEPTH as nat, false);
    }
    let m = round_pack(size as u128, 1074, false, Ghost(Exact::Ratio { num: n, den: 1 }));
    Double::compose(negative, m)
}

/// What can stand where a number is expected: a number or a whole number
/// that converts without loss.
pub trait Scalar: Sized {
    /// The number that the value stands for.
    spec fn double(self) -> Double;

    /// The value as a number.
    fn to_double(self) -> (r: Double)
        ensures
            r == self.double(),
    ;
}

impl Scalar for Double {
    open spec fn double(self) -> Double {
        self
    }

    fn to_double(self) -> (r: Double) {
        self
    }
}

impl Scalar for i32 {
    open spec fn double(self) -> Double {
        whole(self as int)
    }

    fn to_double(self) -> (r: Double) {
        if self < 0 {
            from_whole(true, (-(self as i64)) as u64)
        } else {
            from_whole(false, self as u64)
        }
    }
}

impl Scalar for i16 {
    open spec fn double(self) -> Double {
        whole(self as int)
    }

    fn to_double(self) -> (r: Double) {
        if self < 0 {
            from_whole(true, (-(self as i64)) as u64)
        } else {
            from_whole(false, self as u64)
        }
    }
}

impl Scalar for i8 {
    open spec fn double(self) -> Double {
        whole(self as int)
    }

    fn to_double(self) -> (r: Double) {
        if self < 0 {
            from_whole(true, (-(self as i64)) as u64)
        } else {
            from_whole(false, self as u64)
        }
    }
}

impl Scalar for u32 {
    open spec fn double(self) -> Double {
        whole(self as int)
    }

    fn to_double(self) -> (r: Double) {
        from_whole(false, self as u64)
    }
}

impl Scalar for u16 {
    open spec fn double(self) -> Double {
        whole(self as int)
    }

    fn to_double(self) -> (r: Double) {
        from_whole(false, self as u64)
    }
}

impl Scalar for u8 {
    open spec fn double(self) -> Double {
        whole(self as int)
    }

    fn to_double(self) -> (r: Double) {
        from_whole(false, self as u64)
    }
}

} // verus!
