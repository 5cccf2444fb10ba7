//! The 64-bit FNV-1 hasher used by the [`Index`] hash table, together with
//! the mathematical definition of the digest that its contracts refer to.
//!
//! [`Index`]: crate::indexmap::Index

use vstd::prelude::*;

verus! {

/// 64-bit FNV offset basis: the hasher state before any byte is absorbed.
pub const FNV_OFFSET_BASIS: u64 = 0xcbf2_9ce4_8422_2325;

/// 64-bit FNV prime.
pub const FNV_PRIME: u64 = 0x100_0000_01b3;

/// One step of FNV-1: multiply the state by the prime modulo 2^64, then
/// fold one byte in with xor.
pub open spec fn fnv1_step(state: u64, byte: u8) -> u64 {
    vstd::wrapping::u64_specs::wrapping_mul(state, FNV_PRIME) ^ (byte as u64)
}

/// The hasher state reached by absorbing `bytes` starting from `state`.
pub open spec fn fnv1_absorb(state: u64, bytes: Seq<u8>) -> u64
    decreases bytes.len(),
{
    if bytes.len() == 0 {
        state
    } else {
        fnv1_step(fnv1_absorb(state, bytes.drop_last()), bytes.last())
    }
}

/// The 64-bit FNV-1 digest of a byte sequence: absorb every byte starting
/// from the offset basis. Deterministic by construction, as the table
/// requires of its hash function.
pub open spec fn fnv1(bytes: Seq<u8>) -> u64 {
    fnv1_absorb(FNV_OFFSET_BASIS, bytes)
}

/// Streaming FNV-1 hasher over bytes.
#[derive(Clone, Copy, Debug)]
pub struct IndexHasher {
    state: u64,
}

impl IndexHasher {
    /// The current 64-bit state.
    pub closed spec fn spec_state(&self) -> u64 {
        self.state
    }

    /// A fresh hasher, seeded with the FNV offset basis.
    pub fn new() -> (h: IndexHasher)
        ensures
            h.spec_state() == FNV_OFFSET_BASIS,
    {
        IndexHasher { state: FNV_OFFSET_BASIS }
    }

    /// Absorb `bytes` into the state, one FNV-1 step per byte.
    pub fn write(&mut self, bytes: &[u8])
        ensures
            final(self).spec_state() == fnv1_absorb(old(self).spec_state(), bytes@),
    {
        let n: usize = bytes.len();
        for i in 0..n
            invariant
                n == bytes@.len(),
                self.state == fnv1_absorb(old(self).spec_state(), bytes@.subrange(0, i as int)),
        {
            let b: u8 = *vstd::slice::slice_index_get(bytes, i);
            self.state = self.state.wrapping_mul(FNV_PRIME) ^ (b as u64);
            proof {
                let pre = bytes@.subrange(0, i as int);
                let cur = bytes@.subrange(0, i + 1 as int);
                assert(cur.drop_last() =~= pre);
                assert(cur.last() == bytes@[i as int]);
            }
        }
        proof {
            assert(bytes@.subrange(0, n as int) =~= bytes@);
        }
    }

    /// The digest for the bytes absorbed so far.
    pub fn finish(&self) -> (r: u64)
        ensures
            r == self.spec_state(),
    {
        self.state
    }
}

impl Default for IndexHasher {
    /// Same as [`IndexHasher::new`].
    fn default() -> (h: Self)
        ensures
            h.spec_state() == FNV_OFFSET_BASIS,
    {
        IndexHasher::new()
    }
}

/// Builder handed to the [`Index`]: produces one fresh hasher per hash.
///
/// [`Index`]: crate::indexmap::Index
#[derive(Clone, Copy, Debug)]
pub struct IndexHasherBuilder;

impl IndexHasherBuilder {
    /// A fresh hasher seeded with the offset basis.
    pub fn build_hasher(&self) -> (h: IndexHasher)
        ensures
            h.spec_state() == FNV_OFFSET_BASIS,
    {
        IndexHasher::new()
    }
}

/// Hashes `value` with a fresh hasher from `hasher_builder`: the result is
/// exactly the FNV-1 digest of the bytes.
pub fn make_hash(hasher_builder: &IndexHasherBuilder, value: &[u8]) -> (r: u64)
    ensures
        r == fnv1(value@),
{
    let mut hasher = hasher_builder.build_hasher();
    hasher.write(value);
    hasher.finish()
}

} // verus!
