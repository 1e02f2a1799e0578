//! Hashing and lookup for tables built with PtrHash: a pilot per bucket
//! and a remap table for the slots past the keys.
use vstd::prelude::*;
use std::hash::Hasher as StdHasher;
use crate::shared::{HashKey, Hasher, PhfHash};

verus! {

/// What the outside SipHash 1-3 gives, with the keys `0` and `key`, over
/// the bytes `bytes`.
pub uninterp spec fn sip13_64(key: u64, bytes: Seq<u8>) -> u64;

/// `siphasher::sip::SipHasher13`, keyed with `0` and `key`, fed `bytes`
/// and finished: names its 64-bit result `sip13_64`, which depends on the
/// key and the bytes alone.
#[verifier::external_body]
fn siphash13(key: u64, bytes: &[u8]) -> (r: u64)
    ensures
        r == sip13_64(key, bytes@),
{
    let mut hasher = siphasher::sip::SipHasher13::new_with_keys(0, key);
    hasher.write(bytes);
    hasher.finish()
}

/// `key` is from `ptrhash_generator::HashState`.
pub fn hash<T: ?Sized + PhfHash>(x: &T, key: &HashKey) -> (r: u64)
    requires
        T::phf_bytes(x@).len() <= usize::MAX,
    ensures
        r == sip13_64(*key, T::phf_bytes(x@)),
{
    // Collect the bytes the key feeds; SipHash reads them as one stream
    // however they are split.
    let mut bytes: Vec<u8> = Vec::new();
    x.phf_hash(&mut bytes);
    siphash13(*key, bytes.as_slice())
}

/// The fxhash multiplier.
pub const PILOT_MULTIPLIER: u64 = 0x517cc1b727220a95;

/// `k` mixed with a pilot: the pilot xor-ed in, times the fxhash constant,
/// wrapping.
pub open spec fn spec_hash_pilot(k: u64, pilot: u8) -> u64 {
    ((PILOT_MULTIPLIER as int * (k ^ (pilot as u64)) as int) % 0x1_0000_0000_0000_0000) as u64
}

pub fn hash_pilot(k: u64, pilot: u8) -> (r: u64)
    ensures
        r == spec_hash_pilot(k, pilot),
{
    // fxhash
    PILOT_MULTIPLIER.wrapping_mul(k ^ (pilot as u64))
}

/// `x * limit / 2^32`: maps `x` into `0..limit` without a division.
pub open spec fn spec_fast_reduct32(x: u32, limit: u32) -> u32 {
    ((x as int * limit as int) / 0x1_0000_0000) as u32
}

/// The reduction stays below its limit.
pub proof fn lemma_fast_reduct32_bound(x: u32, limit: u32)
    requires
        limit > 0,
    ensures
        spec_fast_reduct32(x, limit) < limit,
{
    assert(x as int * limit as int / 0x1_0000_0000 < limit) by (nonlinear_arith)
        requires
            0 <= x < 0x1_0000_0000,
            limit > 0,
    ;
    assert(x as int * limit as int / 0x1_0000_0000 >= 0) by (nonlinear_arith)
        requires
            0 <= x,
            limit > 0,
    ;
}

// https://lemire.me/blog/2016/06/27/a-fast-alternative-to-the-modulo-reduction/
pub fn fast_reduct32(x: u32, limit: u32) -> (r: u32)
    ensures
        r == spec_fast_reduct32(x, limit),
        limit > 0 ==> r < limit,
{
    let a = x as u64;
    let b = limit as u64;
    proof {
        assert(a * b <= 0xffff_ffff * 0xffff_ffff) by (nonlinear_arith)
            requires
                a <= 0xffff_ffff,
                b <= 0xffff_ffff,
        ;
    }
    let p: u64 = a * b;
    let r = (p >> 32u32) as u32;
    proof {
        assert(p >> 32u32 == p / 0x1_0000_0000) by (bit_vector);
        assert(p / 0x1_0000_0000 <= 0xffff_ffff) by (nonlinear_arith)
            requires
                p <= 0xffff_ffff * 0xffff_ffff,
        ;
        if limit > 0 {
            assert(x as int * limit as int / 0x1_0000_0000 < limit) by (nonlinear_arith)
                requires
                    0 <= x < 0x1_0000_0000,
                    limit > 0,
            ;
        }
    }
    r
}

/// The low 32 bits.
pub open spec fn spec_low(v: u64) -> u32 {
    (v % 0x1_0000_0000) as u32
}

/// The high 32 bits.
pub open spec fn spec_high(v: u64) -> u32 {
    (v / 0x1_0000_0000) as u32
}

fn low(v: u64) -> (r: u32)
    ensures
        r == spec_low(v),
{
    proof {
        assert(v as u32 == (v % 0x1_0000_0000) as u32) by (bit_vector);
    }
    v as u32
}

fn high(v: u64) -> (r: u32)
    ensures
        r == spec_high(v),
{
    proof {
        assert((v >> 32u64) as u32 == (v / 0x1_0000_0000) as u32) by (bit_vector);
    }
    (v >> 32) as u32
}

/// The slot, among `slots_len`, that the pilot hash `pilot_hash` gives a
/// key with the hash `hash`.
pub open spec fn spec_slot_index(hash: u64, pilot_hash: u64, slots_len: u32) -> u32 {
    spec_fast_reduct32(spec_high(hash) ^ spec_high(pilot_hash) ^ spec_low(pilot_hash), slots_len)
}

/// The index that a lookup of a key with the hash `hash` reads: its
/// bucket's pilot picks a slot; slots past `len` are sent back by `remap`.
pub open spec fn spec_get_index(seed: u64, hash: u64, pilots: Seq<u8>, remap: Seq<u32>, len: nat) -> u32 {
    let bucket = spec_fast_reduct32(spec_low(hash), pilots.len() as u32);
    let pilot_hash = spec_hash_pilot(seed, pilots[bucket as int]);
    let index = spec_slot_index(hash, pilot_hash, (len + remap.len()) as u32);
    if index < len {
        index
    } else {
        remap[index - len]
    }
}

/// Return an index into `ptrhash_generator::HashState::map`.
///
/// * `seed` is phf seed.
/// * `hash` is from `hash()` in this crate.
/// * `pilots` is from `ptrhash_generator::HashState::pilots`.
/// * `remap` is from `ptrhash_generator::HashState::remap`
/// * `len` is the length of `ptrhash_generator::HashState::map`.
pub fn get_index(seed: u64, hash: u64, pilots: &[u8], remap: &[u32], len: usize) -> (r: u32)
    requires
        0 < pilots@.len(),
        len + remap@.len() <= usize::MAX,
        len + remap@.len() > 0,
    ensures
        r == spec_get_index(seed, hash, pilots@, remap@, len as nat),
        0 < len && (forall|j: int| 0 <= j < remap@.len() ==> #[trigger] remap@[j] < len) ==> r < len,
{
    let pilots_len = pilots.len() as u32;
    let slots_len = (len + remap.len()) as u32;

    let bucket = fast_reduct32(low(hash), pilots_len) as usize;
    let pilot = pilots[bucket];
    let pilot_hash = hash_pilot(seed, pilot);

    let index = fast_reduct32(high(hash) ^ high(pilot_hash) ^ low(pilot_hash), slots_len);
    let index_len = index as usize;

    if index_len < len {
        index
    } else {
        remap[index_len - len]
    }
}

} // verus!
