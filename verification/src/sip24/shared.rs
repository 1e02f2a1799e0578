//! Hashing of keys into three 21-bit words with SipHash 2-4 keyed by a
//! seed, and the displacement of a word pair.
use vstd::prelude::*;
use crate::shared::{spec_displace, PhfHash as KeyBytes};
use crate::sip24::{sip24_64, siphash24, spec_words, words};

verus! {

/// `d2 + f1 * d1 + f2`, wrapping.
pub fn displace(f1: u32, f2: u32, d1: u32, d2: u32) -> (r: u32)
    ensures
        r == spec_displace(f1, f2, d1, d2),
{
    d2.wrapping_add(f1.wrapping_mul(d1)).wrapping_add(f2)
}

/// The three words of `hash`.
pub open spec fn spec_split(hash: u64) -> (u32, u32, u32) {
    (spec_words(hash).0 as u32, spec_words(hash).1 as u32, spec_words(hash).2 as u32)
}

fn split(hash: u64) -> (r: (u32, u32, u32))
    ensures
        r == spec_split(hash),
{
    let w = words(hash);
    (w.0 as u32, w.1 as u32, w.2 as u32)
}

/// A key that hashes into three words under a seed.
pub trait PhfHash {
    /// The bytes SipHash reads for this key.
    spec fn sip_bytes(&self) -> Seq<u8>;

    /// The three words of the SipHash 2-4, keyed with `0` and `seed`, of the
    /// key's bytes.
    fn phf_hash(&self, seed: u64) -> (r: (u32, u32, u32))
        requires
            self.sip_bytes().len() <= usize::MAX,
        ensures
            r == spec_split(sip24_64(0, seed, self.sip_bytes())),
    ;
}

/// A string is read as its UTF-8 bytes and a final `0xff`.
impl<'a> PhfHash for &'a str {
    open spec fn sip_bytes(&self) -> Seq<u8> {
        vstd::utf8::encode_utf8(self@).push(0xffu8)
    }

    fn phf_hash(&self, seed: u64) -> (r: (u32, u32, u32)) {
        let b = self.as_bytes();
        let mut bytes: Vec<u8> = Vec::new();
        let mut i: usize = 0;
        while i < b.len()
            invariant
                i <= b@.len(),
                bytes@ == b@.subrange(0, i as int),
            decreases b@.len() - i,
        {
            bytes.push(b[i]);
            i = i + 1;
            proof {
                assert(bytes@ =~= b@.subrange(0, i as int));
            }
        }
        bytes.push(0xff);
        proof {
            assert(bytes@ =~= b@.push(0xffu8));
        }
        split(siphash24(0, seed, bytes.as_slice()))
    }
}

/// A byte string is read as it is.
impl<'a> PhfHash for &'a [u8] {
    open spec fn sip_bytes(&self) -> Seq<u8> {
        self@
    }

    fn phf_hash(&self, seed: u64) -> (r: (u32, u32, u32)) {
        split(siphash24(0, seed, *self))
    }
}

/// The bytes an integer, a `char` or a `bool` is read as: its
/// little-endian bytes.
fn value_bytes<T: KeyBytes>(x: &T) -> (bytes: Vec<u8>)
    requires
        T::phf_bytes(x@).len() <= usize::MAX,
    ensures
        bytes@ == T::phf_bytes(x@),
{
    let mut bytes: Vec<u8> = Vec::new();
    x.phf_hash(&mut bytes);
    bytes
}

impl PhfHash for u8 {
    open spec fn sip_bytes(&self) -> Seq<u8> {
        <u8 as KeyBytes>::phf_bytes(*self)
    }

    fn phf_hash(&self, seed: u64) -> (r: (u32, u32, u32)) {
        split(siphash24(0, seed, value_bytes(self).as_slice()))
    }
}

impl PhfHash for i8 {
    open spec fn sip_bytes(&self) -> Seq<u8> {
        <i8 as KeyBytes>::phf_bytes(*self)
    }

    fn phf_hash(&self, seed: u64) -> (r: (u32, u32, u32)) {
        split(siphash24(0, seed, value_bytes(self).as_slice()))
    }
}

impl PhfHash for u16 {
    open spec fn sip_bytes(&self) -> Seq<u8> {
        <u16 as KeyBytes>::phf_bytes(*self)
    }

    fn phf_hash(&self, seed: u64) -> (r: (u32, u32, u32)) {
        split(siphash24(0, seed, value_bytes(self).as_slice()))
    }
}

impl PhfHash for i16 {
    open spec fn sip_bytes(&self) -> Seq<u8> {
        <i16 as KeyBytes>::phf_bytes(*self)
    }

    fn phf_hash(&self, seed: u64) -> (r: (u32, u32, u32)) {
        split(siphash24(0, seed, value_bytes(self).as_slice()))
    }
}

impl PhfHash for u32 {
    open spec fn sip_bytes(&self) -> Seq<u8> {
        <u32 as KeyBytes>::phf_bytes(*self)
    }

    fn phf_hash(&self, seed: u64) -> (r: (u32, u32, u32)) {
        split(siphash24(0, seed, value_bytes(self).as_slice()))
    }
}

impl PhfHash for i32 {
    open spec fn sip_bytes(&self) -> Seq<u8> {
        <i32 as KeyBytes>::phf_bytes(*self)
    }

    fn phf_hash(&self, seed: u64) -> (r: (u32, u32, u32)) {
        split(siphash24(0, seed, value_bytes(self).as_slice()))
    }
}

impl PhfHash for u64 {
    open spec fn sip_bytes(&self) -> Seq<u8> {
        <u64 as KeyBytes>::phf_bytes(*self)
    }

    fn phf_hash(&self, seed: u64) -> (r: (u32, u32, u32)) {
        split(siphash24(0, seed, value_bytes(self).as_slice()))
    }
}

impl PhfHash for i64 {
    open spec fn sip_bytes(&self) -> Seq<u8> {
        <i64 as KeyBytes>::phf_bytes(*self)
    }

    fn phf_hash(&self, seed: u64) -> (r: (u32, u32, u32)) {
        split(siphash24(0, seed, value_bytes(self).as_slice()))
    }
}

impl PhfHash for char {
    open spec fn sip_bytes(&self) -> Seq<u8> {
        <char as KeyBytes>::phf_bytes(*self)
    }

    fn phf_hash(&self, seed: u64) -> (r: (u32, u32, u32)) {
        split(siphash24(0, seed, value_bytes(self).as_slice()))
    }
}

impl PhfHash for bool {
    open spec fn sip_bytes(&self) -> Seq<u8> {
        <bool as KeyBytes>::phf_bytes(*self)
    }

    fn phf_hash(&self, seed: u64) -> (r: (u32, u32, u32)) {
        split(siphash24(0, seed, value_bytes(self).as_slice()))
    }
}

} // verus!
