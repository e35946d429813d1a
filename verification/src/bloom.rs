//! The inline reference bloom filter.
//!
//! A folded directory node carries, next to its width tier, the filter
//! words populated from its resolved reference set. A membership probe
//! never misses a reference that was inserted: the filter admits false
//! positives, never false negatives. The `Much` tier stores no words and
//! answers every probe positively — no filter participates in the lookup —
//! and the `NoFilter` tier answers negatively, which is exact because it
//! is only chosen for an empty reference set.

use vstd::prelude::*;
use crate::nodes::BloomSize;

verus! {

/// Number of bits of a filter tier; zero for the two tiers that store no
/// words.
pub open spec fn bloom_width(size: BloomSize) -> int {
    match size {
        BloomSize::NoFilter => 0,
        BloomSize::B16 => 16,
        BloomSize::B32 => 32,
        BloomSize::B64 => 64,
        BloomSize::B128 => 128,
        BloomSize::B256 => 256,
        BloomSize::B512 => 512,
        BloomSize::B1024 => 1024,
        BloomSize::B2048 => 2048,
        BloomSize::Much => 0,
    }
}

/// Number of 64-bit words backing a filter tier.
pub open spec fn bloom_words(size: BloomSize) -> int {
    (bloom_width(size) + 63) / 64
}

/// Executable width, exact against `bloom_width`.
pub fn width_of(size: BloomSize) -> (r: u64)
    ensures
        r == bloom_width(size),
{
    match size {
        BloomSize::NoFilter => 0,
        BloomSize::B16 => 16,
        BloomSize::B32 => 32,
        BloomSize::B64 => 64,
        BloomSize::B128 => 128,
        BloomSize::B256 => 256,
        BloomSize::B512 => 512,
        BloomSize::B1024 => 1024,
        BloomSize::B2048 => 2048,
        BloomSize::Much => 0,
    }
}

/// Whether the bit for atom `x` is set in the filter words of a tier of
/// positive width.
pub open spec fn bit_set(bits: Seq<u64>, size: BloomSize, x: u64) -> bool {
    let w = bloom_width(size);
    let idx = (x as int) % w;
    bits[idx / 64] & (1u64 << (idx % 64) as u64) != 0u64
}

/// What a probe of a filter answers.
pub open spec fn probe_spec(bits: Seq<u64>, size: BloomSize, x: u64) -> bool {
    if size == BloomSize::Much {
        true
    } else if bloom_width(size) == 0 {
        false
    } else {
        bit_set(bits, size, x)
    }
}

/// Setting one bit of a word keeps every set bit set, sets the chosen
/// one, and sets nothing else.
proof fn lemma_or_bit(w: u64, k: u64, j: u64)
    requires
        k < 64,
        j < 64,
    ensures
        (w | (1u64 << k)) & (1u64 << k) != 0u64,
        w & (1u64 << j) != 0u64 ==> (w | (1u64 << k)) & (1u64 << j) != 0u64,
        (w | (1u64 << k)) & (1u64 << j) != 0u64 ==> w & (1u64 << j) != 0u64 || j == k,
{
    assert((w | (1u64 << k)) & (1u64 << k) != 0u64) by (bit_vector)
        requires
            k < 64,
    ;
    assert(w & (1u64 << j) != 0u64 ==> (w | (1u64 << k)) & (1u64 << j) != 0u64) by (bit_vector);
    assert((w | (1u64 << k)) & (1u64 << j) != 0u64 ==> w & (1u64 << j) != 0u64 || j == k)
        by (bit_vector)
        requires
            k < 64,
            j < 64,
    ;
}

/// An empty word has no bit set.
proof fn lemma_zero_bit(j: u64)
    requires
        j < 64,
    ensures
        0u64 & (1u64 << j) == 0u64,
{
    assert(0u64 & (1u64 << j) == 0u64) by (bit_vector);
}

/// A bloom filter: its width tier and its words.
pub struct BloomFilter {
    pub size: BloomSize,
    pub bits: Vec<u64>,
}

impl BloomFilter {
    /// The words match the tier's width.
    pub open spec fn wf(&self) -> bool {
        self.bits@.len() == bloom_words(self.size)
    }

    /// Populate a filter of the given tier from a reference set: no
    /// inserted atom is ever missed by a probe.
    pub fn from_refs(size: BloomSize, refs: &Vec<u64>) -> (r: BloomFilter)
        ensures
            r.wf(),
            r.size == size,
            forall|j: int|
                0 <= j < refs@.len() ==> probe_spec(r.bits@, size, #[trigger] refs@[j]) || size
                    == BloomSize::NoFilter,
            forall|y: u64|
                #[trigger] probe_spec(r.bits@, size, y) ==> size == BloomSize::Much || (exists|
                j: int|
                    0 <= j < refs@.len() && (refs@[j] as int) % bloom_width(size) == (y as int)
                        % bloom_width(size)),
    {
        let width = width_of(size);
        let words = ((width + 63) / 64) as usize;
        let mut bits: Vec<u64> = Vec::new();
        let mut w: usize = 0;
        while w < words
            invariant
                bits@.len() == w,
                w <= words,
                forall|j: int| 0 <= j < w ==> bits@[j] == 0u64,
            decreases words - w,
        {
            bits.push(0);
            w = w + 1;
        }
        let mut f = BloomFilter { size, bits };
        if width == 0 {
            return f;
        }
        proof {
            assert forall|y: u64| !(#[trigger] bit_set(f.bits@, size, y)) by {
                let yidx = (y as int) % (width as int);
                assert(0 <= yidx < width);
                assert(f.bits@[yidx / 64] == 0u64);
                lemma_zero_bit((yidx % 64) as u64);
            }
        }
        let mut i: usize = 0;
        while i < refs.len()
            invariant
                i <= refs@.len(),
                f.size == size,
                width == bloom_width(size),
                width > 0,
                f.bits@.len() == bloom_words(size),
                forall|j: int| 0 <= j < i ==> bit_set(f.bits@, size, #[trigger] refs@[j]),
                forall|y: u64|
                    #[trigger] bit_set(f.bits@, size, y) ==> exists|j: int|
                        0 <= j < i && (refs@[j] as int) % (width as int) == (y as int) % (
                        width as int),
            decreases refs@.len() - i,
        {
            let x = refs[i];
            let idx = x % width;
            let word = (idx / 64) as usize;
            let shift = idx % 64;
            proof {
                assert(idx == (x as int) % (width as int));
                assert(0 <= idx / 64 < bloom_words(size));
                let ghost old_bits = f.bits@;
                assert(forall|j: int|
                    0 <= j < i ==> bit_set(old_bits, size, #[trigger] refs@[j]));
            }
            let ghost old_bits = f.bits@;
            let updated = f.bits[word] | (1u64 << shift);
            f.bits.set(word, updated);
            proof {
                assert forall|j: int| 0 <= j < i + 1 implies bit_set(
                    f.bits@,
                    size,
                    #[trigger] refs@[j],
                ) by {
                    let y = refs@[j];
                    let yidx = (y as int) % (width as int);
                    let yw = yidx / 64;
                    let ys = (yidx % 64) as u64;
                    lemma_or_bit(old_bits[word as int], shift, ys);
                    if j < i {
                        assert(bit_set(old_bits, size, y));
                        if yw == word as int {
                            assert(f.bits@[yw] == (old_bits[yw] | (1u64 << shift)));
                        } else {
                            assert(f.bits@[yw] == old_bits[yw]);
                        }
                    } else {
                        assert(y == x);
                        assert(yidx == idx);
                        assert(f.bits@[yw] == (old_bits[yw] | (1u64 << shift)));
                    }
                }
                assert forall|y: u64| #[trigger] bit_set(f.bits@, size, y) implies exists|j: int|
                    0 <= j < i + 1 && (refs@[j] as int) % (width as int) == (y as int) % (
                    width as int) by {
                    let yidx = (y as int) % (width as int);
                    let yw = yidx / 64;
                    let ys = (yidx % 64) as u64;
                    lemma_or_bit(old_bits[word as int], shift, ys);
                    if yw == word as int {
                        assert(f.bits@[yw] == (old_bits[yw] | (1u64 << shift)));
                        if old_bits[yw] & (1u64 << ys) != 0u64 {
                            assert(bit_set(old_bits, size, y));
                        } else {
                            assert(ys == shift);
                            assert(yidx == idx);
                            assert((refs@[i as int] as int) % (width as int) == (y as int) % (
                            width as int));
                        }
                    } else {
                        assert(f.bits@[yw] == old_bits[yw]);
                        assert(bit_set(old_bits, size, y));
                    }
                }
            }
            i = i + 1;
        }
        f
    }

    /// Probe the filter for an atom.
    pub fn might_contain(&self, x: u64) -> (r: bool)
        requires
            self.wf(),
        ensures
            r == probe_spec(self.bits@, self.size, x),
    {
        match self.size {
            BloomSize::Much => true,
            _ => {
                let width = width_of(self.size);
                if width == 0 {
                    false
                } else {
                    let idx = x % width;
                    let word = (idx / 64) as usize;
                    let shift = idx % 64;
                    proof {
                        assert(0 <= (x as int) % (width as int) / 64 < bloom_words(self.size));
                    }
                    (self.bits[word] & (1u64 << shift)) != 0
                }
            },
        }
    }
}

/// A probe never misses an inserted reference: membership of the source
/// set implies a positive answer, for every tier that stores a filter,
/// and the `Much` tier answers positively by construction.
pub proof fn lemma_no_false_negative(f: BloomFilter, refs: Seq<u64>, j: int)
    requires
        f.wf(),
        0 <= j < refs.len(),
        f.size != BloomSize::NoFilter,
        forall|k: int|
            0 <= k < refs.len() ==> probe_spec(f.bits@, f.size, #[trigger] refs[k]) || f.size
                == BloomSize::NoFilter,
    ensures
        probe_spec(f.bits@, f.size, refs[j]),
{
}

} // verus!
