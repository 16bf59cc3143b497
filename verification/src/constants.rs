//! Numbers that the vector operations name.

use vstd::prelude::*;
use vstd::arithmetic::power2::{
    lemma2_to64, lemma2_to64_rest, lemma_pow2_adds, lemma_pow2_pos, pow2,
};
use crate::binary64::{DEPTH, Double, HIDDEN, join, lemma_grid_parts};
use crate::cells::{lemma_cell_ratio, lemma_cell_rounds};
use crate::convert::whole;
use crate::rounding::{Exact, lemma_nearest_on_grid, nearest};

verus! {

/// Bit pattern of one.
pub const ONE: u64 = 0x3FF0_0000_0000_0000;

/// Bit pattern of two.
pub const TWO: u64 = 0x4000_0000_0000_0000;

/// Bit pattern of the number nearest to a millionth.
pub const MILLIONTH: u64 = 0x3EB0_C6F7_A0B5_ED8D;

/// The number nearest to a millionth.
pub open spec fn millionth() -> Double {
    Double::pack(false, nearest(Exact::Ratio { num: pow2(DEPTH as nat), den: 1_000_000 }))
}

/// Bit pattern of the number nearest to a ten-millionth.
pub const TEN_MILLIONTH: u64 = 0x3E7A_D7F2_9ABC_AF48;

/// The number nearest to a ten-millionth.
pub open spec fn ten_millionth() -> Double {
    Double::pack(false, nearest(Exact::Ratio { num: pow2(DEPTH as nat), den: 10_000_000 }))
}

/// What the three bit patterns stand for.
pub proof fn lemma_constants()
    ensures
        whole(1).bits == ONE,
        whole(2).bits == TWO,
        millionth().bits == MILLIONTH,
{
    let h = HIDDEN as nat;
    lemma2_to64();
    lemma2_to64_rest();
    lemma_pow2_adds(52, 1022);
    lemma_pow2_adds(52, 1023);
    lemma_pow2_adds(1, 1074);
    lemma_grid_parts(1022, h);
    lemma_grid_parts(1023, h);
    assert(join(1022, h) == ONE);
    assert(join(1023, h) == TWO);
    lemma_nearest_on_grid(ONE as nat);
    lemma_nearest_on_grid(TWO as nat);
    assert(1 * pow2(1074) == pow2(1074) && 2 * pow2(1074) == pow2(1075)) by (nonlinear_arith)
        requires
            pow2(1075) == pow2(1) * pow2(1074),
            pow2(1) == 2,
    ;
    // a millionth lies strictly inside a cell that is 256 times finer than the grid
    let num = pow2(1074);
    let den = 1_000_000nat;
    let sig = 1208925819614629174nat;
    let q = 4722366482869645nat;
    let p = pow2(994);
    lemma_pow2_adds(64, 16);
    lemma_pow2_adds(80, 994);
    lemma_pow2_pos(994);
    assert(pow2(80) == 1208925819614629174706176);
    assert(sig * p * den < num * pow2(0) && num * pow2(0) < (sig + 1) * p * den) by (nonlinear_arith)
        requires
            num == 1208925819614629174706176 * p,
            pow2(0) == 1,
            sig == 1208925819614629174,
            den == 1_000_000,
            p > 0,
    ;
    lemma_cell_ratio(num, den, sig, 994, true, 994, 0);
    assert(sig == q * pow2(8) + 54);
    lemma_cell_rounds(Exact::Ratio { num, den }, sig, 994, true, 1002, 8, q, 54);
    assert(join(1002, q) == MILLIONTH);
}

/// What the bit pattern of the ten-millionth stands for.
pub proof fn lemma_ten_millionth()
    ensures
        ten_millionth().bits == TEN_MILLIONTH,
{
    lemma2_to64();
    lemma2_to64_rest();
    let num = pow2(1074);
    let den = 10_000_000nat;
    let sig = 1934281311383406679nat;
    let q = 7555786372591432nat;
    let p = pow2(990);
    lemma_pow2_adds(64, 20);
    lemma_pow2_adds(84, 990);
    lemma_pow2_pos(990);
    assert(pow2(84) == 19342813113834066795298816);
    assert(sig * p * den < num * pow2(0) && num * pow2(0) < (sig + 1) * p * den) by (nonlinear_arith)
        requires
            num == 19342813113834066795298816 * p,
            pow2(0) == 1,
            sig == 1934281311383406679,
            den == 10_000_000,
            p > 0,
    ;
    lemma_cell_ratio(num, den, sig, 990, true, 990, 0);
    assert(sig == q * pow2(8) + 87);
    lemma_cell_rounds(Exact::Ratio { num, den }, sig, 990, true, 998, 8, q, 87);
    assert(join(998, q) == TEN_MILLIONTH);
}

} // verus!
