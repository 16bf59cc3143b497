//! Equality and order of binary64 numbers.

use vstd::prelude::*;
use crate::binary64::{Double, INFINITE};

verus! {

/// The two numbers have the same value. A NaN equals nothing, and the two
/// zeros are equal.
pub open spec fn same(a: Double, b: Double) -> bool {
    !a.nan() && !b.nan() && a.rank() == b.rank()
}

/// The first number is less than the second. A NaN is less than nothing and
/// nothing is less than a NaN.
pub open spec fn below(a: Double, b: Double) -> bool {
    !a.nan() && !b.nan() && a.rank() < b.rank()
}

/// Numbers are equal when they have the same value.
impl PartialEq for Double {
    fn eq(&self, other: &Double) -> (r: bool) {
        let ma = self.mag();
        let mb = other.mag();
        ma <= INFINITE && mb <= INFINITE && (self.bits == other.bits || (ma == 0 && mb == 0))
    }
}

impl vstd::std_specs::cmp::PartialEqSpecImpl for Double {
    open spec fn obeys_eq_spec() -> bool {
        true
    }

    open spec fn eq_spec(&self, other: &Double) -> bool {
        same(*self, *other)
    }
}

impl Double {
    /// Whether this number is less than `other`.
    pub fn less_than(self, other: Double) -> (r: bool)
        ensures
            r == below(self, other),
    {
        let ma = self.mag();
        let mb = other.mag();
        if ma > INFINITE || mb > INFINITE {
            return false;
        }
        if self.is_negative() {
            if other.is_negative() {
                ma > mb
            } else {
                ma > 0 || mb > 0
            }
        } else {
            if other.is_negative() {
                false
            } else {
                ma < mb
            }
        }
    }
}

} // verus!
