//! Ordering keys for IEEE-754 single-precision values given by their bit
//! patterns, so that distances computed in `f32` can be compared here as
//! integers.
use vstd::prelude::*;

verus! {

/// The bit pattern is a NaN: all exponent bits set and a non-zero mantissa.
pub open spec fn is_nan_bits(bits: u32) -> bool {
    (bits & 0x7fff_ffffu32) > 0x7f80_0000u32
}

/// The ordering key of a non-NaN value: its sign-magnitude read as a signed
/// number and shifted by 2^31. Keys compare exactly as the `f32` values do:
/// `-0.0` and `+0.0` get the same key, and the infinities are the extremes.
pub open spec fn order_key_of(bits: u32) -> u64 {
    let magnitude = (bits & 0x7fff_ffffu32) as u64;
    if bits & 0x8000_0000u32 == 0 {
        (0x8000_0000u64 + magnitude) as u64
    } else {
        (0x8000_0000u64 - magnitude) as u64
    }
}

/// The ordering key of the `f32` whose bit pattern is `bits`, or `None` for a
/// NaN, which is unordered: comparing it with `<` or `==` is always false.
pub fn f32_order_key(bits: u32) -> (key: Option<u64>)
    ensures
        key is None <==> is_nan_bits(bits),
        key matches Some(k) ==> k == order_key_of(bits),
{
    let magnitude: u32 = bits & 0x7fff_ffffu32;
    assert(magnitude <= 0x7fff_ffffu32) by (bit_vector)
        requires
            magnitude == bits & 0x7fff_ffffu32,
    ;
    if magnitude > 0x7f80_0000u32 {
        None
    } else if bits & 0x8000_0000u32 == 0 {
        Some(0x8000_0000u64 + magnitude as u64)
    } else {
        Some(0x8000_0000u64 - magnitude as u64)
    }
}

} // verus!
