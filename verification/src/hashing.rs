//! Stable 64-bit key hash.
//!
//! Keys are routed to segments by a hash that must be identical across
//! process runs, since recovery matches it against segment file names.
//! The hash is FNV-1a over the key's bytes, with the standard 64-bit
//! offset basis and prime.

use vstd::prelude::*;

verus! {

/// FNV-1a 64-bit offset basis.
pub const FNV_OFFSET_BASIS: u64 = 0xcbf29ce484222325;

/// FNV-1a 64-bit prime.
pub const FNV_PRIME: u64 = 0x100000001b3;

/// One FNV-1a step: xor the byte in, multiply by the prime modulo 2^64.
pub open spec fn fnv1a_step(h: u64, b: u8) -> u64 {
    vstd::wrapping::u64_specs::wrapping_mul(h ^ (b as u64), FNV_PRIME)
}

/// FNV-1a state after consuming the first `n` bytes of `bytes`.
pub open spec fn fnv1a_upto(bytes: Seq<u8>, n: int) -> u64
    decreases n,
{
    if n <= 0 {
        FNV_OFFSET_BASIS
    } else {
        fnv1a_step(fnv1a_upto(bytes, n - 1), bytes[n - 1])
    }
}

/// FNV-1a 64-bit hash of a byte sequence.
#[verifier::opaque]
pub open spec fn fnv1a(bytes: Seq<u8>) -> u64 {
    fnv1a_upto(bytes, bytes.len() as int)
}

/// Stable hash of a key's bytes, used for segment routing and in
/// segment file names.
pub fn key_hash_of(bytes: &[u8]) -> (r: u64)
    ensures
        r == fnv1a(bytes@),
{
    proof {
        reveal(fnv1a);
    }
    let mut h: u64 = FNV_OFFSET_BASIS;
    let mut i: usize = 0;
    while i < bytes.len()
        invariant
            0 <= i <= bytes@.len(),
            h == fnv1a_upto(bytes@, i as int),
        decreases bytes@.len() - i,
    {
        h = (h ^ (bytes[i] as u64)).wrapping_mul(FNV_PRIME);
        i = i + 1;
    }
    h
}

} // verus!
