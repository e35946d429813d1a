//! 32-bit structural hashing of syntax nodes.
//!
//! Hashes are carried inside every node's metrics and summed over children;
//! they are pure functions of the hashed data, stated exactly by the spec
//! functions below. Deduplication itself is decided by key equality, so the
//! hashes serve as observable metadata of each subtree.

use vstd::prelude::*;

verus! {

/// Addition of two 32-bit hashes, wrapping modulo 2^32.
pub open spec fn wadd32(a: u32, b: u32) -> u32 {
    ((a + b) % 0x1_0000_0000) as u32
}

/// Executable wrapping addition, exact against `wadd32`.
pub fn wrapping_add32(a: u32, b: u32) -> (r: u32)
    ensures
        r == wadd32(a, b),
{
    (((a as u64) + (b as u64)) % 0x1_0000_0000u64) as u32
}

/// Hash of a byte string: a 32-bit multiplicative accumulator.
pub open spec fn hash_bytes(s: Seq<u8>) -> u32
    decreases s.len(),
{
    if s.len() == 0 {
        2166136261u32
    } else {
        ((hash_bytes(s.drop_last()) * 31 + s.last()) % 0x1_0000_0000) as u32
    }
}

/// Executable byte-string hash, exact against `hash_bytes`.
pub fn hash32(s: &[u8]) -> (r: u32)
    ensures
        r == hash_bytes(s@),
{
    let mut h: u32 = 2166136261u32;
    let mut i: usize = 0;
    proof {
        assert(s@.subrange(0, 0) =~= Seq::<u8>::empty());
    }
    while i < s.len()
        invariant
            i <= s@.len(),
            h == hash_bytes(s@.subrange(0, i as int)),
        decreases s@.len() - i,
    {
        let b = s[i];
        h = ((((h as u64) * 31u64) + (b as u64)) % 0x1_0000_0000u64) as u32;
        proof {
            assert(s@.subrange(0, i + 1).drop_last() =~= s@.subrange(0, i as int));
            assert(s@.subrange(0, i + 1).last() == s@[i as int]);
        }
        i = i + 1;
    }
    proof {
        assert(s@.subrange(0, s@.len() as int) =~= s@);
    }
    h
}

/// Hash of an inner node, combining the node kind's hash, the hash of its
/// label, its size, and the sum of the corresponding hashes of its children.
pub open spec fn inner_node_hash(kind: u32, label: u32, size: u32, middle: u32) -> u32 {
    ((kind * 1000003 + label * 8191 + size * 127 + middle) % 0x1_0000_0000) as u32
}

/// Executable inner-node hash, exact against `inner_node_hash`.
pub fn inner_hash(kind: u32, label: u32, size: u32, middle: u32) -> (r: u32)
    ensures
        r == inner_node_hash(kind, label, size, middle),
{
    (((kind as u64) * 1000003u64 + (label as u64) * 8191u64 + (size as u64) * 127u64 + (middle
        as u64)) % 0x1_0000_0000u64) as u32
}

} // verus!
