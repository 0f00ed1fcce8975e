//! The universal hash that every sketch is built on.

use vstd::prelude::*;

verus! {

/// Multiplier of the hash.
pub const A: u64 = 11_927_359_292_700_924_260;

/// Increment of the hash.
pub const B: u64 = 6_512_515_406_574_399_413;

/// The hash of `value`: the high 32 bits of `A * value + B` taken modulo 2^64.
pub open spec fn hash_spec(value: u32) -> u32 {
    (((A as int * value as int + B as int) % 0x1_0000_0000_0000_0000) / 0x1_0000_0000) as u32
}

/// Multiply-shift hashing of a 32-bit value to a 32-bit value, after
/// Dietzfelbinger (see https://arxiv.org/pdf/1303.5479v2.pdf). The scheme is
/// 2-independent and needs one multiplication and one shift.
pub fn hash(value: u32) -> (result: u32)
    ensures
        result == hash_spec(value),
{
    assert((A as int) * (value as int) <= 0xFFFF_FFFF_FFFF_FFFF * 0xFFFF_FFFF) by (nonlinear_arith)
        requires
            0 <= (A as int) <= 0xFFFF_FFFF_FFFF_FFFF,
            0 <= (value as int) <= 0xFFFF_FFFF,
    ;
    let wide: u128 = (A as u128) * (value as u128) + (B as u128);
    let low: u128 = wide % 0x1_0000_0000_0000_0000u128;
    let high: u128 = low / 0x1_0000_0000u128;
    high as u32
}

} // verus!
