//! The integer mixing function that gives each key its hash code.

use vstd::prelude::*;

verus! {

/// Odd multiplier of each mixing round.
pub const MIX_MULTIPLIER: u64 = 0x45d9f3b;

/// One round: xor the value with itself shifted right by sixteen bits.
pub open spec fn spec_xor_shift(x: u64) -> u64 {
    (x >> 16u64) ^ x
}

/// The hash code of a key: xor-shift and multiply twice, then a final
/// xor-shift. Products wrap around at 64 bits.
pub open spec fn spec_hash_key(key: u32) -> usize {
    let a = spec_xor_shift(key as u64).wrapping_mul(MIX_MULTIPLIER);
    let b = spec_xor_shift(a).wrapping_mul(MIX_MULTIPLIER);
    spec_xor_shift(b) as usize
}

/// Mixes the bits of `key` so that nearby keys get unrelated hash codes.
pub fn hash_key(key: u32) -> (r: usize)
    ensures
        r == spec_hash_key(key),
{
    let mut hashcode: u64 = ((key as u64) >> 16u64) ^ (key as u64);
    hashcode = hashcode.wrapping_mul(MIX_MULTIPLIER);
    hashcode = ((hashcode >> 16u64) ^ hashcode).wrapping_mul(MIX_MULTIPLIER);
    hashcode = (hashcode >> 16u64) ^ hashcode;
    hashcode as usize
}

} // verus!
