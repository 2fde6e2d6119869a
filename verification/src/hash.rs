//! The two hash functions that place a key in the table.

use vstd::prelude::*;
use xxhash_rust::xxh3::{xxh3_64, xxh3_64_with_seed};

verus! {

/// The seed of the second hash function.
pub const H2_SEED: u64 = 0xC0FFEE_DEADBEEF;

/// What XXH3 (64 bit, no seed) makes of some bytes.
pub uninterp spec fn xxh3(bytes: Seq<u8>) -> u64;

/// What XXH3 (64 bit) makes of some bytes under a seed.
pub uninterp spec fn xxh3_seeded(bytes: Seq<u8>, seed: u64) -> u64;

/// `xxhash_rust::xxh3::xxh3_64` is a function of the bytes it is given, and of nothing else.
pub assume_specification[ xxh3_64 ](input: &[u8]) -> (digest: u64)
    ensures
        digest == xxh3(input@),
;

/// `xxhash_rust::xxh3::xxh3_64_with_seed` is a function of the bytes and the seed it is given,
/// and of nothing else.
pub assume_specification[ xxh3_64_with_seed ](input: &[u8], seed: u64) -> (digest: u64)
    ensures
        digest == xxh3_seeded(input@, seed),
;

/// The hash that places `key` in half A.
pub open spec fn hash_a(key: Seq<u8>) -> usize {
    xxh3(key) as usize
}

/// The hash that places `key` in half B.
pub open spec fn hash_b(key: Seq<u8>) -> usize {
    xxh3_seeded(key, H2_SEED) as usize
}

/// First hash: places a key in half A of the table.
#[inline]
pub fn h1(key: &[u8; 24]) -> (hash: usize)
    ensures
        hash == hash_a(key@),
        hash == xxh3(key@) as usize,
{
    xxh3_64(key) as usize
}

/// Second hash: places a key in half B of the table.
#[inline]
pub fn h2(key: &[u8; 24]) -> (hash: usize)
    ensures
        hash == hash_b(key@),
        hash == xxh3_seeded(key@, 0xC0FFEE_DEADBEEF) as usize,
{
    xxh3_64_with_seed(key, H2_SEED) as usize
}

/// The position of a hash in a half of `cap` slots.
#[inline]
pub fn slot_index(hash: usize, cap: usize) -> (index: usize)
    requires
        vstd::arithmetic::power2::is_pow2(cap as int),
    ensures
        index == hash % cap,
        index < cap,
{
    proof {
        lemma_mask_is_mod(hash, cap);
    }
    hash & (cap - 1)
}

proof fn lemma_mask_is_mod(hash: usize, cap: usize)
    requires
        vstd::arithmetic::power2::is_pow2(cap as int),
    ensures
        cap > 0,
        hash & ((cap - 1) as usize) == hash % cap,
        hash % cap < cap,
{
    lemma_pow2_exponent(cap);
    let n = choose|n: nat| vstd::arithmetic::power2::pow2(n) == cap;
    if n >= usize::BITS {
        vstd::bits::lemma_usize_pow2_no_overflow((usize::BITS - 1) as nat);
        vstd::arithmetic::power2::lemma_pow2_unfold(usize::BITS as nat);
        vstd::arithmetic::power2::lemma2_to64();
        if n > usize::BITS {
            vstd::arithmetic::power2::lemma_pow2_strictly_increases(usize::BITS as nat, n);
        }
        assert(vstd::arithmetic::power2::pow2(usize::BITS as nat) == usize::MAX + 1);
    }
    vstd::bits::lemma_usize_low_bits_mask_is_mod(hash, n);
}

proof fn lemma_pow2_exponent(cap: usize)
    requires
        vstd::arithmetic::power2::is_pow2(cap as int),
    ensures
        cap > 0,
        exists|n: nat| vstd::arithmetic::power2::pow2(n) == cap,
{
    vstd::arithmetic::power2::is_pow2_equiv(cap as int);
    let n = choose|n: nat| vstd::arithmetic::power::pow(2, n) == cap;
    vstd::arithmetic::power2::lemma_pow2(n);
    vstd::arithmetic::power2::lemma_pow2_pos(n);
    assert(vstd::arithmetic::power2::pow2(n) == cap);
}

} // verus!
