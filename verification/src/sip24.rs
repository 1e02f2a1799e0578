//! Key hashing with SipHash 2-4: a 64-bit hash split into three 21-bit
//! words, from which a table index is displaced.
use vstd::prelude::*;
use std::hash::Hasher as StdHasher;

pub mod shared;
pub mod keyed;
pub mod mphf;
pub mod chd;

verus! {

/// What the outside SipHash 2-4 gives, with the keys `k0` and `k1`, over
/// the bytes `bytes`.
pub uninterp spec fn sip24_64(k0: u64, k1: u64, bytes: Seq<u8>) -> u64;

/// `siphasher::sip::SipHasher` (SipHash 2-4), keyed with `k0` and `k1`, fed
/// `bytes` and finished: names its 64-bit result `sip24_64`, which depends
/// on the keys and the bytes alone.
#[verifier::external_body]
pub(crate) fn siphash24(k0: u64, k1: u64, bytes: &[u8]) -> (r: u64)
    ensures
        r == sip24_64(k0, k1, bytes@),
{
    let mut hasher = siphasher::sip::SipHasher::new_with_keys(k0, k1);
    hasher.write(bytes);
    hasher.finish()
}

/// The base-two logarithm of the range of each word.
pub const LOG_MAX_SIZE: usize = 21;

/// The range of each word: `2^21`.
pub const MAX_SIZE: usize = 0x20_0000;

/// The three 21-bit words of a 64-bit hash, lowest first.
pub open spec fn spec_words(hash: u64) -> (int, int, int) {
    (hash as int % 0x20_0000, (hash as int / 0x20_0000) % 0x20_0000, (hash as int / 0x400_0000_0000) % 0x20_0000)
}

/// The three words of `hash`, each as a `u64`.
pub(crate) fn words(hash: u64) -> (r: (u64, u64, u64))
    ensures
        r.0 as int == spec_words(hash).0,
        r.1 as int == spec_words(hash).1,
        r.2 as int == spec_words(hash).2,
{
    let mask = (MAX_SIZE - 1) as u64;
    proof {
        assert(hash & 0x1f_ffffu64 == hash % 0x20_0000) by (bit_vector);
        assert((hash >> 21u64) & 0x1f_ffffu64 == (hash / 0x20_0000) % 0x20_0000) by (bit_vector);
        assert((hash >> 42u64) & 0x1f_ffffu64 == (hash / 0x400_0000_0000) % 0x20_0000) by (bit_vector);
    }
    (hash & mask, (hash >> 21) & mask, (hash >> 42) & mask)
}

} // verus!
