//! The hash family: k independent-looking hash functions are derived from
//! one MurmurHash algorithm by varying its seed, and a hash value is mapped
//! to a bit index by reduction modulo the table size.

use vstd::arithmetic::div_mod::{
    lemma_mod_add_multiples_vanish, lemma_mod_bound, lemma_small_mod,
};
use vstd::prelude::*;

verus! {

/// The 64-bit MurmurHash value of a string under a given seed.
/// It is a fixed function of the string's characters and the seed alone,
/// the same in every process and on every machine.
pub uninterp spec fn murmur64(key: Seq<char>, seed: u32) -> u64;

/// The bit slot that a key occupies under the hash function of seed `seed`
/// in a table of `m` bits.
pub open spec fn slot_of(key: Seq<char>, seed: u32, m: nat) -> nat
    recommends
        m > 0,
{
    (murmur64(key, seed) as nat) % m
}

/// Relies on fasthash's `MurmurHasher` (`murmur::Hasher32`): the hasher
/// buffers the bytes written into it and `finish` computes MurmurHash1 of
/// that buffer under the seed it was constructed with, so the result
/// depends on the string and the seed alone.
#[verifier::external_body]
pub(crate) fn murmur_hash(key: &str, seed: u32) -> (h: u64)
    ensures
        h == murmur64(key@, seed),
{
    let mut hasher: fasthash::MurmurHasher = fasthash::FastHasher::with_seed(seed);
    std::hash::Hash::hash(key, &mut hasher);
    std::hash::Hasher::finish(&hasher)
}

/// Maps a key and a hash seed to a bit index in `[0, m)`. This is the one
/// routine shared by `add` and `check`, so the two always probe the same
/// bits. The index is `((hash mod m) + m) mod m`, computed in 128 bits so
/// the intermediate sum cannot overflow; for an unsigned hash this equals
/// `hash mod m`.
pub fn slot_index(key: &str, seed: u32, m: usize) -> (idx: usize)
    requires
        m > 0,
    ensures
        idx < m,
        idx as nat == slot_of(key@, seed, m as nat),
{
    let h = murmur_hash(key, seed);
    let m_wide: u128 = m as u128;
    let reduced: u128 = h as u128 % m_wide;
    proof {
        lemma_mod_bound(h as int, m as int);
        assert(reduced < m_wide);
    }
    let idx_wide: u128 = (reduced + m_wide) % m_wide;
    proof {
        lemma_mod_add_multiples_vanish(reduced as int, m as int);
        lemma_small_mod(reduced as nat, m as nat);
        assert(idx_wide == reduced);
    }
    idx_wide as usize
}

} // verus!
