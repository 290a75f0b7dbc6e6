//! Zigzag coding of signed integers, as used for geometry parameters.

use vstd::prelude::*;

verus! {

/// The signed value that a zigzag-coded word stands for: even words are
/// `n / 2`, odd words are `-(n + 1) / 2`.
pub open spec fn zigzag_value(n: u32) -> int {
    if n % 2 == 0 {
        n as int / 2
    } else {
        -((n as int + 1) / 2)
    }
}

/// The zigzag code of a signed value: `(v << 1) ^ (v >> 31)`.
pub open spec fn zigzag_code(v: i32) -> u32 {
    (((v as u32) << 1u32) ^ ((v >> 31i32) as u32)) as u32
}

/// Decode a 32-bit integer according to the protobuf zigzag rules.
pub fn de_zigzag(n: u32) -> (r: i32)
    ensures
        r as int == zigzag_value(n),
{
    let half: u32 = n >> 1u32;
    let low: u32 = n & 1u32;
    assert(half == n / 2u32) by (bit_vector)
        requires half == n >> 1u32;
    assert(low == n % 2u32) by (bit_vector)
        requires low == n & 1u32;
    assert(half < 0x8000_0000u32) by (bit_vector)
        requires half == n >> 1u32;
    let mask: i32 = 0i32 - (low as i32);
    let r: i32 = (half as i32) ^ mask;
    assert(low == 0u32 ==> mask == 0i32) by (bit_vector)
        requires mask == 0i32 - (low as i32) as i32, low <= 1u32;
    assert(low == 1u32 ==> mask == -1i32);
    assert(((half as i32) ^ 0i32) == half as i32) by (bit_vector);
    assert(((half as i32) ^ -1i32) as int == -1 - (half as int)) by (bit_vector)
        requires half < 0x8000_0000u32;
    r
}

/// Decoding undoes encoding: every `i32` survives a round trip through its
/// zigzag code.
pub proof fn lemma_zigzag_round_trip(v: i32)
    ensures
        zigzag_value(zigzag_code(v)) == v as int,
{
    let c = zigzag_code(v);
    assert(c % 2 == 0 ==> (c as int) / 2 == v as int && v >= 0) by (bit_vector)
        requires c == (((v as u32) << 1u32) ^ ((v >> 31i32) as u32)) as u32;
    assert(c % 2 == 1 ==> -((c as int + 1) / 2) == v as int) by (bit_vector)
        requires c == (((v as u32) << 1u32) ^ ((v >> 31i32) as u32)) as u32;
}

} // verus!
