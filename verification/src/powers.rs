//! Powers of two and whole square roots.

use vstd::prelude::*;
use vstd::arithmetic::power2::{
    lemma2_to64, lemma2_to64_rest, lemma_pow2_adds, lemma_pow2_pos, lemma_pow2_strictly_increases,
    lemma_pow2_unfold, pow2,
};
use crate::binary64::HIDDEN;
use crate::cells::WIDE;

verus! {

/// Shifting one to the left by `k` places gives two to the `k`.
proof fn lemma_shift_of_one(k: u32)
    requires
        k < 128,
    ensures
        (1u128 << k) == pow2(k as nat),
    decreases k,
{
    if k == 0 {
        assert((1u128 << 0u32) == 1u128) by (bit_vector);
        lemma2_to64();
    } else {
        let j = (k - 1) as u32;
        lemma_shift_of_one(j);
        assert((1u128 << k) == 2 * (1u128 << j)) by (bit_vector)
            requires
                0 < k < 128,
                j == k - 1,
        ;
        lemma_pow2_unfold(k as nat);
    }
}

/// The powers of two that bound significands and wide integers.
pub proof fn lemma_pow2_values()
    ensures
        pow2(52) == HIDDEN,
        pow2(53) == 2 * HIDDEN,
        pow2(120) == WIDE,
        pow2(127) * 2 == pow2(128),
        pow2(128) > u128::MAX,
{
    lemma2_to64();
    lemma2_to64_rest();
    lemma_pow2_adds(60, 60);
    lemma_pow2_adds(64, 63);
    lemma_pow2_adds(64, 64);
    lemma_pow2_unfold(128);
}

/// Powers of two are ordered as their exponents are.
pub proof fn lemma_pow2_order(a: nat, b: nat)
    ensures
        a <= b ==> pow2(a) <= pow2(b),
        a < b ==> 2 * pow2(a) <= pow2(b),
        pow2(a) < pow2(b) ==> a < b,
        pow2(a) > 0,
{
    lemma_pow2_pos(a);
    if a < b {
        lemma_pow2_unfold(a + 1);
        if a + 1 < b {
            lemma_pow2_strictly_increases(a + 1, b);
        }
    }
    if b < a {
        lemma_pow2_strictly_increases(b, a);
    }
}

/// Two to the `k`.
pub fn power_of_two(k: u32) -> (r: u128)
    requires
        k < 128,
    ensures
        r == pow2(k as nat),
        r > 0,
{
    proof {
        lemma_shift_of_one(k);
        lemma_pow2_pos(k as nat);
    }
    1u128 << k
}

/// The position of the highest bit that is set in `x`.
pub fn top_bit(x: u128) -> (p: u32)
    requires
        x > 0,
    ensures
        p < 128,
        pow2(p as nat) <= x < 2 * pow2(p as nat),
{
    let mut p: u32 = 0;
    let mut y: u128 = x;
    proof {
        lemma2_to64();
        assert(y * pow2(0) == y) by (nonlinear_arith)
            requires
                pow2(0) == 1,
        ;
        assert((y + 1) * pow2(0) == y + 1) by (nonlinear_arith)
            requires
                pow2(0) == 1,
        ;
    }
    while y > 1
        invariant
            y >= 1,
            p < 128,
            y * pow2(p as nat) <= x < (y + 1) * pow2(p as nat),
        decreases y,
    {
        proof {
            let w = pow2(p as nat);
            let h = (y / 2) as nat;
            lemma_pow2_unfold((p + 1) as nat);
            lemma_pow2_values();
            lemma_pow2_order((p + 1) as nat, 128);
            lemma_pow2_order(128, (p + 1) as nat);
            assert(2 * w <= x) by (nonlinear_arith)
                requires
                    y * w <= x,
                    y >= 2,
                    w >= 0,
            ;
            assert(h * (2 * w) <= y * w && (y + 1) * w <= (h + 1) * (2 * w)) by (nonlinear_arith)
                requires
                    2 * h <= y <= 2 * h + 1,
                    w >= 0,
            ;
        }
        y = y / 2;
        p = p + 1;
    }
    proof {
        assert(1 * pow2(p as nat) == pow2(p as nat) && 2 * pow2(p as nat) == (1 + 1) * pow2(
            p as nat,
        )) by (nonlinear_arith);
    }
    p
}

/// Two to the 112: the bound on the integers whose root is taken.
pub const BROAD: u128 = 0x1_0000_0000_0000_0000_0000_0000_0000;

/// The whole part of the square root of `n`.
pub fn integer_root(n: u128) -> (r: u128)
    requires
        n < BROAD,
    ensures
        r * r <= n < (r + 1) * (r + 1),
        r < 0x100_0000_0000_0000,
{
    let mut r: u128 = 0;
    let mut i: u32 = 56;
    proof {
        lemma2_to64();
        lemma2_to64_rest();
    }
    while i > 0
        invariant
            i <= 56,
            r * r <= n,
            n < (r + pow2(i as nat)) * (r + pow2(i as nat)),
            r + pow2(i as nat) <= 0x100_0000_0000_0000,
        decreases i,
    {
        i = i - 1;
        let bit: u128 = power_of_two(i);
        proof {
            lemma_pow2_unfold((i + 1) as nat);
        }
        let cand: u128 = r + bit;
        proof {
            assert(cand * cand < 0x100_0000_0000_0000 * 0x100_0000_0000_0000) by (nonlinear_arith)
                requires
                    0 <= cand < 0x100_0000_0000_0000,
            ;
        }
        if cand * cand <= n {
            r = cand;
        }
    }
    proof {
        lemma2_to64();
    }
    r
}

} // verus!
