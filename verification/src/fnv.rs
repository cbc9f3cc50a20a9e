//! FNV-1a hashing over bytes, and the ids of sequential edges.

use vstd::prelude::*;
use crate::types::{NodeId, EdgeId};

verus! {

/// FNV-1a 64-bit offset basis.
pub const FNV_OFFSET: u64 = 0xcbf2_9ce4_8422_2325;

/// FNV-1a 64-bit prime.
pub const FNV_PRIME: u64 = 0x0000_0100_0000_01b3;

/// Marker that keeps sequential edge ids apart from structural edge ids.
pub const SEQUENTIAL_EDGE_MARK: u64 = 0x6000_0000_0000_0000;

/// One FNV-1a step: xor in the byte, then multiply by the prime (mod 2^64).
pub open spec fn fnv_step(h: u64, b: u8) -> u64 {
    (h ^ (b as u64)).wrapping_mul(FNV_PRIME)
}

/// FNV-1a hash of a byte sequence.
pub open spec fn fnv_hash(bytes: Seq<u8>) -> u64
    decreases bytes.len(),
{
    if bytes.len() == 0 {
        FNV_OFFSET
    } else {
        fnv_step(fnv_hash(bytes.drop_last()), bytes.last())
    }
}

/// FNV-1a 64-bit hash of `bytes`.
pub fn fnv1a_64_bytes(bytes: &[u8]) -> (r: u64)
    ensures
        r == fnv_hash(bytes@),
{
    let mut h: u64 = FNV_OFFSET;
    let n = bytes.len();
    let mut i: usize = 0;
    while i < n
        invariant
            n == bytes@.len(),
            i <= n,
            h == fnv_hash(bytes@.subrange(0, i as int)),
        decreases n - i,
    {
        proof {
            assert(bytes@.subrange(0, i + 1).drop_last() =~= bytes@.subrange(0, i as int));
        }
        h = (h ^ (bytes[i] as u64)).wrapping_mul(FNV_PRIME);
        i = i + 1;
    }
    proof {
        assert(bytes@.subrange(0, n as int) =~= bytes@);
    }
    h
}

/// The 8 little-endian bytes of `x`.
pub open spec fn le_bytes(x: u64) -> Seq<u8> {
    Seq::new(8, |k: int| (x >> (8 * k) as u64) as u8)
}

/// FNV-1a over the ordered pair (src, dst), little-endian, with the
/// sequential-class marker xored in.
pub fn sequential_edge_id(src: NodeId, dst: NodeId) -> (r: EdgeId)
    ensures
        r == fnv_hash(le_bytes(src) + le_bytes(dst)) ^ SEQUENTIAL_EDGE_MARK,
{
    let mut bytes: Vec<u8> = Vec::new();
    let mut k: u64 = 0;
    while k < 8
        invariant
            k <= 8,
            bytes@ == le_bytes(src).subrange(0, k as int),
        decreases 8 - k,
    {
        bytes.push((src >> (8 * k)) as u8);
        proof {
            assert(bytes@ =~= le_bytes(src).subrange(0, k + 1));
        }
        k = k + 1;
    }
    let mut k: u64 = 0;
    while k < 8
        invariant
            k <= 8,
            bytes@ == le_bytes(src) + le_bytes(dst).subrange(0, k as int),
        decreases 8 - k,
    {
        bytes.push((dst >> (8 * k)) as u8);
        proof {
            assert(bytes@ =~= le_bytes(src) + le_bytes(dst).subrange(0, k + 1));
        }
        k = k + 1;
    }
    proof {
        assert(le_bytes(src).subrange(0, 8) =~= le_bytes(src));
        assert(le_bytes(dst).subrange(0, 8) =~= le_bytes(dst));
    }
    fnv1a_64_bytes(bytes.as_slice()) ^ SEQUENTIAL_EDGE_MARK
}

} // verus!
