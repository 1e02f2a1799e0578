//! The hash functions and key traits shared by the generators and the maps.
use vstd::prelude::*;
use vstd::string::StringExecFns;
use vstd::wrapping::u32_specs;
use crate::siphasher::{le_bytes, sip13_128, usize_bytes, Hash128, SipHasher13};

verus! {

/// A central typedef for hash keys
///
/// Makes experimentation easier by only needing to be updated here.
pub type HashKey = u64;

/// The three 32-bit hashes of a key: `g` picks the bucket, `f1` and `f2`
/// are combined with the bucket's displacements.
#[derive(Clone, Copy)]
pub struct Hashes {
    pub g: u32,
    pub f1: u32,
    pub f2: u32,
}

impl Default for Hashes {
    #[inline(always)]
    fn default() -> (r: Self)
        ensures
            r == (Hashes { g: 0, f1: 0, f2: 0 }),
    {
        Self { g: 0, f1: 0, f2: 0 }
    }
}

/// `d2 + f1 * d1 + f2`, wrapping.
pub open spec fn spec_displace(f1: u32, f2: u32, d1: u32, d2: u32) -> u32 {
    u32_specs::wrapping_add(u32_specs::wrapping_add(d2, u32_specs::wrapping_mul(f1, d1)), f2)
}

#[inline]
pub fn displace(f1: u32, f2: u32, d1: u32, d2: u32) -> (r: u32)
    ensures
        r == spec_displace(f1, f2, d1, d2),
{
    d2.wrapping_add(f1.wrapping_mul(d1)).wrapping_add(f2)
}

/// Splits a 128-bit SipHash into the three hashes.
pub open spec fn hashes_of(h: Hash128) -> Hashes {
    Hashes { g: (h.h1 >> 32u64) as u32, f1: h.h1 as u32, f2: h.h2 as u32 }
}

/// The hashes of a key whose bytes are `bytes`, under the hash key `key`.
pub open spec fn spec_hash(bytes: Seq<u8>, key: u64) -> Hashes {
    hashes_of(sip13_128(0, key, bytes))
}

/// `key` is from `generator::HashState`.
#[inline]
pub fn hash<T: ?Sized + PhfHash>(x: &T, key: &HashKey) -> (h: Hashes)
    requires
        T::phf_bytes(x@).len() <= usize::MAX,
    ensures
        h == spec_hash(T::phf_bytes(x@), *key),
{
    let mut hasher = SipHasher13::new_with_keys(0, *key);
    x.phf_hash(&mut hasher);

    let h = hasher.finish128();
    let lower = h.h1;
    let upper = h.h2;

    Hashes { g: (lower >> 32) as u32, f1: lower as u32, f2: upper as u32 }
}

/// The slot that the displacements give the hashes `h` in a table of `len` slots.
pub open spec fn spec_get_index(h: Hashes, disps: Seq<(u32, u32)>, len: nat) -> u32 {
    let d = disps[(h.g % (disps.len() as u32)) as int];
    (spec_displace(h.f1, h.f2, d.0, d.1) % (len as u32)) as u32
}

/// Return an index into `generator::HashState::map`.
///
/// * `hash` is from `hash()` in this crate.
/// * `disps` is from `generator::HashState::disps`.
/// * `len` is the length of `generator::HashState::map`.
#[inline]
pub fn get_index(hashes: &Hashes, disps: &[(u32, u32)], len: usize) -> (r: u32)
    requires
        disps@.len() as u32 != 0,
        len as u32 != 0,
    ensures
        r == spec_get_index(*hashes, disps@, len as nat),
        r < len,
{
    let (d1, d2) = disps[(hashes.g % (disps.len() as u32)) as usize];
    displace(hashes.f1, hashes.f2, d1, d2) % (len as u32)
}

/// A sink for the bytes of keys: what the PHF structures hash keys with.
///
/// Integers are fed as their bytes, least significant first, so that the
/// hashes are the same on every architecture.
pub trait Hasher: Sized {
    /// The sink is in a consistent state.
    spec fn valid(&self) -> bool;

    /// The bytes fed so far.
    spec fn written(&self) -> Seq<u8>;

    /// The keys the sink was set up with.
    spec fn keys(&self) -> (u64, u64);

    /// Feeds the bytes of `bytes`.
    fn write(&mut self, bytes: &[u8])
        requires
            old(self).valid(),
            old(self).written().len() + bytes@.len() <= usize::MAX,
        ensures
            final(self).valid(),
            final(self).written() == old(self).written() + bytes@,
            final(self).keys() == old(self).keys(),
    ;

    /// Feeds one byte.
    fn write_u8(&mut self, i: u8)
        requires
            old(self).valid(),
            old(self).written().len() + 1 <= usize::MAX,
        ensures
            final(self).valid(),
            final(self).written() == old(self).written() + le_bytes(i as int, 1),
            final(self).keys() == old(self).keys(),
    ;

    /// Feeds the two bytes of `i`, least significant first.
    fn write_u16(&mut self, i: u16)
        requires
            old(self).valid(),
            old(self).written().len() + 2 <= usize::MAX,
        ensures
            final(self).valid(),
            final(self).written() == old(self).written() + le_bytes(i as int, 2),
            final(self).keys() == old(self).keys(),
    ;

    /// Feeds the four bytes of `i`, least significant first.
    fn write_u32(&mut self, i: u32)
        requires
            old(self).valid(),
            old(self).written().len() + 4 <= usize::MAX,
        ensures
            final(self).valid(),
            final(self).written() == old(self).written() + le_bytes(i as int, 4),
            final(self).keys() == old(self).keys(),
    ;

    /// Feeds the eight bytes of `i`, least significant first.
    fn write_u64(&mut self, i: u64)
        requires
            old(self).valid(),
            old(self).written().len() + 8 <= usize::MAX,
        ensures
            final(self).valid(),
            final(self).written() == old(self).written() + le_bytes(i as int, 8),
            final(self).keys() == old(self).keys(),
    ;

    /// Feeds the sixteen bytes of `i`, least significant first.
    fn write_u128(&mut self, i: u128)
        requires
            old(self).valid(),
            old(self).written().len() + 16 <= usize::MAX,
        ensures
            final(self).valid(),
            final(self).written() == old(self).written() + le_bytes(i as int, 16),
            final(self).keys() == old(self).keys(),
    ;

    /// Feeds the bytes of `i`, least significant first.
    fn write_usize(&mut self, i: usize)
        requires
            old(self).valid(),
            old(self).written().len() + usize_bytes() <= usize::MAX,
        ensures
            final(self).valid(),
            final(self).written() == old(self).written() + le_bytes(i as int, usize_bytes()),
            final(self).keys() == old(self).keys(),
    ;
}

impl Hasher for SipHasher13 {
    open spec fn valid(&self) -> bool {
        self.wf()
    }

    open spec fn written(&self) -> Seq<u8> {
        self@
    }

    open spec fn keys(&self) -> (u64, u64) {
        (self.key0(), self.key1())
    }

    #[inline]
    fn write(&mut self, bytes: &[u8]) {
        SipHasher13::write(self, bytes)
    }

    #[inline]
    fn write_u8(&mut self, i: u8) {
        SipHasher13::write_u8(self, i)
    }

    #[inline]
    fn write_u16(&mut self, i: u16) {
        SipHasher13::write_u16(self, i)
    }

    #[inline]
    fn write_u32(&mut self, i: u32) {
        SipHasher13::write_u32(self, i)
    }

    #[inline]
    fn write_u64(&mut self, i: u64) {
        SipHasher13::write_u64(self, i)
    }

    #[inline]
    fn write_u128(&mut self, i: u128) {
        SipHasher13::write_u128(self, i)
    }

    #[inline]
    fn write_usize(&mut self, i: usize) {
        SipHasher13::write_usize(self, i)
    }
}

/// A byte buffer collects the bytes fed to it.
impl Hasher for Vec<u8> {
    open spec fn valid(&self) -> bool {
        true
    }

    open spec fn written(&self) -> Seq<u8> {
        self@
    }

    open spec fn keys(&self) -> (u64, u64) {
        (0, 0)
    }

    fn write(&mut self, bytes: &[u8]) {
        let mut i: usize = 0;
        while i < bytes.len()
            invariant
                i <= bytes@.len(),
                self@ == old(self)@ + bytes@.subrange(0, i as int),
            decreases bytes@.len() - i,
        {
            self.push(bytes[i]);
            i = i + 1;
            proof {
                assert(self@ =~= old(self)@ + bytes@.subrange(0, i as int));
            }
        }
        proof {
            assert(bytes@.subrange(0, i as int) =~= bytes@);
        }
    }

    fn write_u8(&mut self, i: u8) {
        let b = le_byte_array_1(i as u128);
        self.write(&b);
    }

    fn write_u16(&mut self, i: u16) {
        let b = le_byte_array_2(i as u128);
        self.write(&b);
    }

    fn write_u32(&mut self, i: u32) {
        let b = le_byte_array_4(i as u128);
        self.write(&b);
    }

    fn write_u64(&mut self, i: u64) {
        let b = le_byte_array_8(i as u128);
        self.write(&b);
    }

    fn write_u128(&mut self, i: u128) {
        let b = le_byte_array_16(i);
        self.write(&b);
    }

    fn write_usize(&mut self, i: usize) {
        let b = le_byte_vec(i as u128, (usize::BITS / 8) as usize);
        self.write(b.as_slice());
    }
}

/// The `n` low bytes of `x`, least significant first.
fn le_byte_vec(x: u128, n: usize) -> (v: Vec<u8>)
    requires
        n <= 16,
    ensures
        v@ == le_bytes(x as int, n as nat),
{
    let mut v: Vec<u8> = Vec::new();
    let mut k: usize = 0;
    while k < n
        invariant
            k <= n <= 16,
            v@ == le_bytes(x as int, n as nat).take(k as int),
        decreases n - k,
    {
        let s = x >> (8 * k as u128);
        proof {
            crate::siphasher::lemma_u128_shr_bytes(x, k as nat);
            assert((s & 0xff) as u8 == (s % 256) as u8) by (bit_vector);
        }
        v.push((s & 0xff) as u8);
        k = k + 1;
        proof {
            assert(v@ =~= le_bytes(x as int, n as nat).take(k as int));
        }
    }
    proof {
        assert(le_bytes(x as int, n as nat).take(n as int) =~= le_bytes(x as int, n as nat));
    }
    v
}

fn le_byte_array_1(x: u128) -> (b: [u8; 1])
    ensures
        b@ == le_bytes(x as int, 1),
{
    let v = le_byte_vec(x, 1);
    let b = [v[0]];
    assert(b@ =~= v@);
    b
}

fn le_byte_array_2(x: u128) -> (b: [u8; 2])
    ensures
        b@ == le_bytes(x as int, 2),
{
    let v = le_byte_vec(x, 2);
    let b = [v[0], v[1]];
    assert(b@ =~= v@);
    b
}

fn le_byte_array_4(x: u128) -> (b: [u8; 4])
    ensures
        b@ == le_bytes(x as int, 4),
{
    let v = le_byte_vec(x, 4);
    let b = [v[0], v[1], v[2], v[3]];
    assert(b@ =~= v@);
    b
}

fn le_byte_array_8(x: u128) -> (b: [u8; 8])
    ensures
        b@ == le_bytes(x as int, 8),
{
    let v = le_byte_vec(x, 8);
    let b = [v[0], v[1], v[2], v[3], v[4], v[5], v[6], v[7]];
    assert(b@ =~= v@);
    b
}

fn le_byte_array_16(x: u128) -> (b: [u8; 16])
    ensures
        b@ == le_bytes(x as int, 16),
{
    let v = le_byte_vec(x, 16);
    let b = [
        v[0],
        v[1],
        v[2],
        v[3],
        v[4],
        v[5],
        v[6],
        v[7],
        v[8],
        v[9],
        v[10],
        v[11],
        v[12],
        v[13],
        v[14],
        v[15],
    ];
    assert(b@ =~= v@);
    b
}

/// A trait implemented by types which can be used in PHF data structures.
///
/// This differs from the standard library's `Hash` trait in that `PhfHash`'s
/// results must be architecture independent so that hashes will be consistent
/// between the host and target when cross compiling.
///
/// The bytes a key feeds depend on its view alone, so keys with equal views
/// hash alike.
pub trait PhfHash: View {
    /// The bytes that a key with the view `v` feeds into a hasher.
    spec fn phf_bytes(v: Self::V) -> Seq<u8>;

    /// Feeds the value into the state given, updating the hasher as necessary.
    fn phf_hash<H: Hasher>(&self, state: &mut H)
        requires
            old(state).valid(),
            old(state).written().len() + Self::phf_bytes(self@).len() <= usize::MAX,
        ensures
            final(state).valid(),
            final(state).written() == old(state).written() + Self::phf_bytes(self@),
            final(state).keys() == old(state).keys(),
    ;

}

/// Equality of keys: two keys are equal when their views are.
pub trait PhfEq: View {
    fn phf_eq(&self, other: &Self) -> (r: bool)
        ensures
            r == (self@ == other@),
    ;
}

impl PhfHash for u8 {
    open spec fn phf_bytes(v: u8) -> Seq<u8> {
        le_bytes(v as int, 1)
    }

    #[inline]
    fn phf_hash<H: Hasher>(&self, state: &mut H) {
        state.write_u8(*self);
    }
}

impl PhfEq for u8 {
    #[inline]
    fn phf_eq(&self, other: &Self) -> (r: bool) {
        *self == *other
    }
}

impl PhfHash for u16 {
    open spec fn phf_bytes(v: u16) -> Seq<u8> {
        le_bytes(v as int, 2)
    }

    #[inline]
    fn phf_hash<H: Hasher>(&self, state: &mut H) {
        state.write_u16(*self);
    }
}

impl PhfEq for u16 {
    #[inline]
    fn phf_eq(&self, other: &Self) -> (r: bool) {
        *self == *other
    }
}

impl PhfHash for u32 {
    open spec fn phf_bytes(v: u32) -> Seq<u8> {
        le_bytes(v as int, 4)
    }

    #[inline]
    fn phf_hash<H: Hasher>(&self, state: &mut H) {
        state.write_u32(*self);
    }
}

impl PhfEq for u32 {
    #[inline]
    fn phf_eq(&self, other: &Self) -> (r: bool) {
        *self == *other
    }
}

impl PhfHash for u64 {
    open spec fn phf_bytes(v: u64) -> Seq<u8> {
        le_bytes(v as int, 8)
    }

    #[inline]
    fn phf_hash<H: Hasher>(&self, state: &mut H) {
        state.write_u64(*self);
    }
}

impl PhfEq for u64 {
    #[inline]
    fn phf_eq(&self, other: &Self) -> (r: bool) {
        *self == *other
    }
}

impl PhfHash for u128 {
    open spec fn phf_bytes(v: u128) -> Seq<u8> {
        le_bytes(v as int, 16)
    }

    #[inline]
    fn phf_hash<H: Hasher>(&self, state: &mut H) {
        state.write_u128(*self);
    }
}

impl PhfEq for u128 {
    #[inline]
    fn phf_eq(&self, other: &Self) -> (r: bool) {
        *self == *other
    }
}

impl PhfHash for usize {
    open spec fn phf_bytes(v: usize) -> Seq<u8> {
        le_bytes(v as int, usize_bytes())
    }

    #[inline]
    fn phf_hash<H: Hasher>(&self, state: &mut H) {
        state.write_usize(*self);
    }
}

impl PhfEq for usize {
    #[inline]
    fn phf_eq(&self, other: &Self) -> (r: bool) {
        *self == *other
    }
}

impl PhfHash for i8 {
    /// The bytes of the two's complement, least significant first.
    open spec fn phf_bytes(v: i8) -> Seq<u8> {
        le_bytes((v as u8) as int, 1)
    }

    #[inline]
    fn phf_hash<H: Hasher>(&self, state: &mut H) {
        state.write_u8(*self as u8);
    }
}

impl PhfEq for i8 {
    #[inline]
    fn phf_eq(&self, other: &Self) -> (r: bool) {
        *self == *other
    }
}

impl PhfHash for i16 {
    /// The bytes of the two's complement, least significant first.
    open spec fn phf_bytes(v: i16) -> Seq<u8> {
        le_bytes((v as u16) as int, 2)
    }

    #[inline]
    fn phf_hash<H: Hasher>(&self, state: &mut H) {
        state.write_u16(*self as u16);
    }
}

impl PhfEq for i16 {
    #[inline]
    fn phf_eq(&self, other: &Self) -> (r: bool) {
        *self == *other
    }
}

impl PhfHash for i32 {
    /// The bytes of the two's complement, least significant first.
    open spec fn phf_bytes(v: i32) -> Seq<u8> {
        le_bytes((v as u32) as int, 4)
    }

    #[inline]
    fn phf_hash<H: Hasher>(&self, state: &mut H) {
        state.write_u32(*self as u32);
    }
}

impl PhfEq for i32 {
    #[inline]
    fn phf_eq(&self, other: &Self) -> (r: bool) {
        *self == *other
    }
}

impl PhfHash for i64 {
    /// The bytes of the two's complement, least significant first.
    open spec fn phf_bytes(v: i64) -> Seq<u8> {
        le_bytes((v as u64) as int, 8)
    }

    #[inline]
    fn phf_hash<H: Hasher>(&self, state: &mut H) {
        state.write_u64(*self as u64);
    }
}

impl PhfEq for i64 {
    #[inline]
    fn phf_eq(&self, other: &Self) -> (r: bool) {
        *self == *other
    }
}

impl PhfHash for i128 {
    /// The bytes of the two's complement, least significant first.
    open spec fn phf_bytes(v: i128) -> Seq<u8> {
        le_bytes((v as u128) as int, 16)
    }

    #[inline]
    fn phf_hash<H: Hasher>(&self, state: &mut H) {
        state.write_u128(*self as u128);
    }
}

impl PhfEq for i128 {
    #[inline]
    fn phf_eq(&self, other: &Self) -> (r: bool) {
        *self == *other
    }
}

impl PhfHash for isize {
    /// The bytes of the two's complement, least significant first.
    open spec fn phf_bytes(v: isize) -> Seq<u8> {
        le_bytes((v as usize) as int, usize_bytes())
    }

    #[inline]
    fn phf_hash<H: Hasher>(&self, state: &mut H) {
        state.write_usize(*self as usize);
    }
}

impl PhfEq for isize {
    #[inline]
    fn phf_eq(&self, other: &Self) -> (r: bool) {
        *self == *other
    }
}

impl PhfHash for bool {
    open spec fn phf_bytes(v: bool) -> Seq<u8> {
        le_bytes(if v { 1 } else { 0 }, 1)
    }

    #[inline]
    fn phf_hash<H: Hasher>(&self, state: &mut H) {
        state.write_u8(if *self { 1 } else { 0 });
    }
}

impl PhfEq for bool {
    #[inline]
    fn phf_eq(&self, other: &Self) -> (r: bool) {
        *self == *other
    }
}

impl PhfHash for char {
    /// The four bytes of the code point, least significant first.
    open spec fn phf_bytes(v: char) -> Seq<u8> {
        le_bytes((v as u32) as int, 4)
    }

    #[inline]
    fn phf_hash<H: Hasher>(&self, state: &mut H) {
        state.write_u32(*self as u32);
    }
}

impl PhfEq for char {
    #[inline]
    fn phf_eq(&self, other: &Self) -> (r: bool) {
        *self == *other
    }
}

impl PhfHash for str {
    /// The UTF-8 encoding, without a length.
    open spec fn phf_bytes(v: Seq<char>) -> Seq<u8> {
        vstd::utf8::encode_utf8(v)
    }

    #[inline]
    fn phf_hash<H: Hasher>(&self, state: &mut H) {
        state.write(self.as_bytes());
    }
}

impl PhfEq for str {
    fn phf_eq(&self, other: &Self) -> (r: bool) {
        proof {
            vstd::utf8::encode_utf8_decode_utf8(self@);
            vstd::utf8::encode_utf8_decode_utf8(other@);
        }
        bytes_eq(self.as_bytes(), other.as_bytes())
    }
}

impl PhfHash for String {
    /// The UTF-8 encoding, without a length.
    open spec fn phf_bytes(v: Seq<char>) -> Seq<u8> {
        vstd::utf8::encode_utf8(v)
    }

    #[inline]
    fn phf_hash<H: Hasher>(&self, state: &mut H) {
        state.write(self.as_str().as_bytes());
    }
}

impl PhfEq for String {
    fn phf_eq(&self, other: &Self) -> (r: bool) {
        self.as_str().phf_eq(other.as_str())
    }
}

impl PhfHash for [u8] {
    /// The bytes themselves, without a length.
    open spec fn phf_bytes(v: Seq<u8>) -> Seq<u8> {
        v
    }

    #[inline]
    fn phf_hash<H: Hasher>(&self, state: &mut H) {
        state.write(self);
    }
}

impl PhfEq for [u8] {
    fn phf_eq(&self, other: &Self) -> (r: bool) {
        bytes_eq(self, other)
    }
}

impl PhfHash for Vec<u8> {
    /// The bytes themselves, without a length.
    open spec fn phf_bytes(v: Seq<u8>) -> Seq<u8> {
        v
    }

    #[inline]
    fn phf_hash<H: Hasher>(&self, state: &mut H) {
        state.write(self.as_slice());
    }
}

impl PhfEq for Vec<u8> {
    fn phf_eq(&self, other: &Self) -> (r: bool) {
        bytes_eq(self.as_slice(), other.as_slice())
    }
}

impl<const N: usize> PhfHash for [u8; N] {
    /// The bytes themselves, without a length.
    open spec fn phf_bytes(v: Seq<u8>) -> Seq<u8> {
        v
    }

    #[inline]
    fn phf_hash<H: Hasher>(&self, state: &mut H) {
        state.write(self.as_slice());
    }
}

impl<const N: usize> PhfEq for [u8; N] {
    fn phf_eq(&self, other: &Self) -> (r: bool) {
        bytes_eq(self.as_slice(), other.as_slice())
    }
}

impl<'a, T: ?Sized + PhfHash> PhfHash for &'a T {
    open spec fn phf_bytes(v: T::V) -> Seq<u8> {
        T::phf_bytes(v)
    }

    #[inline]
    fn phf_hash<H: Hasher>(&self, state: &mut H) {
        (**self).phf_hash(state)
    }
}

impl<'a, T: ?Sized + PhfEq> PhfEq for &'a T {
    #[inline]
    fn phf_eq(&self, other: &Self) -> (r: bool) {
        (**self).phf_eq(*other)
    }
}

impl<A: PhfHash, B: PhfHash> PhfHash for (A, B) {
    /// The bytes of the elements one after the other.
    open spec fn phf_bytes(v: (A::V, B::V)) -> Seq<u8> {
        A::phf_bytes(v.0) + B::phf_bytes(v.1)
    }

    #[inline]
    fn phf_hash<H: Hasher>(&self, state: &mut H) {
        self.0.phf_hash(state);
        self.1.phf_hash(state);
        proof {
            assert(state.written() =~= old(state).written() + Self::phf_bytes(self@));
        }
    }
}

impl<A: PhfEq, B: PhfEq> PhfEq for (A, B) {
    #[inline]
    fn phf_eq(&self, other: &Self) -> (r: bool) {
        self.0.phf_eq(&other.0) && self.1.phf_eq(&other.1)
    }
}

impl<A: PhfHash, B: PhfHash, C: PhfHash> PhfHash for (A, B, C) {
    /// The bytes of the elements one after the other.
    open spec fn phf_bytes(v: (A::V, B::V, C::V)) -> Seq<u8> {
        A::phf_bytes(v.0) + B::phf_bytes(v.1) + C::phf_bytes(v.2)
    }

    #[inline]
    fn phf_hash<H: Hasher>(&self, state: &mut H) {
        self.0.phf_hash(state);
        self.1.phf_hash(state);
        self.2.phf_hash(state);
        proof {
            assert(state.written() =~= old(state).written() + Self::phf_bytes(self@));
        }
    }
}

impl<A: PhfEq, B: PhfEq, C: PhfEq> PhfEq for (A, B, C) {
    #[inline]
    fn phf_eq(&self, other: &Self) -> (r: bool) {
        self.0.phf_eq(&other.0) && self.1.phf_eq(&other.1) && self.2.phf_eq(&other.2)
    }
}

/// Identical to `std::borrow::Borrow` except omitting blanket impls to facilitate other
/// borrowing patterns.
///
/// A key and its borrowed form must hash alike, and different keys must
/// borrow as different values: lookups with the borrowed form then find
/// exactly the key they borrow from.
pub trait PhfBorrow<B: ?Sized + PhfHash>: PhfHash {
    /// The view of the borrowed form of a key whose view is `v`.
    spec fn borrowed(v: Self::V) -> B::V;

    /// A key and its borrowed form feed the same bytes, and different keys
    /// borrow as different values.
    proof fn lemma_borrowed(v: Self::V, w: Self::V)
        ensures
            B::phf_bytes(Self::borrowed(v)) == Self::phf_bytes(v),
            Self::borrowed(v) == Self::borrowed(w) ==> v == w,
    ;

    /// Convert a reference to `self` to a reference to the borrowed type.
    fn borrow(&self) -> (r: &B)
        ensures
            r@ == Self::borrowed(self@),
    ;
}

impl PhfBorrow<char> for char {
    open spec fn borrowed(v: char) -> char {
        v
    }

    proof fn lemma_borrowed(v: char, w: char) {
    }

    fn borrow(&self) -> (r: &char) {
        self
    }
}

impl PhfBorrow<u8> for u8 {
    open spec fn borrowed(v: u8) -> u8 {
        v
    }

    proof fn lemma_borrowed(v: u8, w: u8) {
    }

    fn borrow(&self) -> (r: &u8) {
        self
    }
}

impl PhfBorrow<i8> for i8 {
    open spec fn borrowed(v: i8) -> i8 {
        v
    }

    proof fn lemma_borrowed(v: i8, w: i8) {
    }

    fn borrow(&self) -> (r: &i8) {
        self
    }
}

impl PhfBorrow<u16> for u16 {
    open spec fn borrowed(v: u16) -> u16 {
        v
    }

    proof fn lemma_borrowed(v: u16, w: u16) {
    }

    fn borrow(&self) -> (r: &u16) {
        self
    }
}

impl PhfBorrow<i16> for i16 {
    open spec fn borrowed(v: i16) -> i16 {
        v
    }

    proof fn lemma_borrowed(v: i16, w: i16) {
    }

    fn borrow(&self) -> (r: &i16) {
        self
    }
}

impl PhfBorrow<u32> for u32 {
    open spec fn borrowed(v: u32) -> u32 {
        v
    }

    proof fn lemma_borrowed(v: u32, w: u32) {
    }

    fn borrow(&self) -> (r: &u32) {
        self
    }
}

impl PhfBorrow<i32> for i32 {
    open spec fn borrowed(v: i32) -> i32 {
        v
    }

    proof fn lemma_borrowed(v: i32, w: i32) {
    }

    fn borrow(&self) -> (r: &i32) {
        self
    }
}

impl PhfBorrow<u64> for u64 {
    open spec fn borrowed(v: u64) -> u64 {
        v
    }

    proof fn lemma_borrowed(v: u64, w: u64) {
    }

    fn borrow(&self) -> (r: &u64) {
        self
    }
}

impl PhfBorrow<i64> for i64 {
    open spec fn borrowed(v: i64) -> i64 {
        v
    }

    proof fn lemma_borrowed(v: i64, w: i64) {
    }

    fn borrow(&self) -> (r: &i64) {
        self
    }
}

impl PhfBorrow<u128> for u128 {
    open spec fn borrowed(v: u128) -> u128 {
        v
    }

    proof fn lemma_borrowed(v: u128, w: u128) {
    }

    fn borrow(&self) -> (r: &u128) {
        self
    }
}

impl PhfBorrow<i128> for i128 {
    open spec fn borrowed(v: i128) -> i128 {
        v
    }

    proof fn lemma_borrowed(v: i128, w: i128) {
    }

    fn borrow(&self) -> (r: &i128) {
        self
    }
}

impl PhfBorrow<usize> for usize {
    open spec fn borrowed(v: usize) -> usize {
        v
    }

    proof fn lemma_borrowed(v: usize, w: usize) {
    }

    fn borrow(&self) -> (r: &usize) {
        self
    }
}

impl PhfBorrow<isize> for isize {
    open spec fn borrowed(v: isize) -> isize {
        v
    }

    proof fn lemma_borrowed(v: isize, w: isize) {
    }

    fn borrow(&self) -> (r: &isize) {
        self
    }
}

impl PhfBorrow<bool> for bool {
    open spec fn borrowed(v: bool) -> bool {
        v
    }

    proof fn lemma_borrowed(v: bool, w: bool) {
    }

    fn borrow(&self) -> (r: &bool) {
        self
    }
}

impl PhfBorrow<str> for str {
    open spec fn borrowed(v: Seq<char>) -> Seq<char> {
        v
    }

    proof fn lemma_borrowed(v: Seq<char>, w: Seq<char>) {
    }

    fn borrow(&self) -> (r: &str) {
        self
    }
}

impl PhfBorrow<[u8]> for [u8] {
    open spec fn borrowed(v: Seq<u8>) -> Seq<u8> {
        v
    }

    proof fn lemma_borrowed(v: Seq<u8>, w: Seq<u8>) {
    }

    fn borrow(&self) -> (r: &[u8]) {
        self
    }
}

impl PhfBorrow<str> for String {
    open spec fn borrowed(v: Seq<char>) -> Seq<char> {
        v
    }

    proof fn lemma_borrowed(v: Seq<char>, w: Seq<char>) {
    }

    fn borrow(&self) -> (r: &str) {
        self.as_str()
    }
}

impl PhfBorrow<[u8]> for Vec<u8> {
    open spec fn borrowed(v: Seq<u8>) -> Seq<u8> {
        v
    }

    proof fn lemma_borrowed(v: Seq<u8>, w: Seq<u8>) {
    }

    fn borrow(&self) -> (r: &[u8]) {
        self.as_slice()
    }
}

impl<'a> PhfBorrow<str> for &'a str {
    open spec fn borrowed(v: Seq<char>) -> Seq<char> {
        v
    }

    proof fn lemma_borrowed(v: Seq<char>, w: Seq<char>) {
    }

    fn borrow(&self) -> (r: &str) {
        *self
    }
}

impl<'a> PhfBorrow<&'a str> for &'a str {
    open spec fn borrowed(v: Seq<char>) -> Seq<char> {
        v
    }

    proof fn lemma_borrowed(v: Seq<char>, w: Seq<char>) {
    }

    fn borrow(&self) -> (r: &&'a str) {
        self
    }
}

impl<'a> PhfBorrow<&'a [u8]> for &'a [u8] {
    open spec fn borrowed(v: Seq<u8>) -> Seq<u8> {
        v
    }

    proof fn lemma_borrowed(v: Seq<u8>, w: Seq<u8>) {
    }

    fn borrow(&self) -> (r: &&'a [u8]) {
        self
    }
}

impl<'a> PhfBorrow<[u8]> for &'a [u8] {
    open spec fn borrowed(v: Seq<u8>) -> Seq<u8> {
        v
    }

    proof fn lemma_borrowed(v: Seq<u8>, w: Seq<u8>) {
    }

    fn borrow(&self) -> (r: &[u8]) {
        *self
    }
}

impl<const N: usize> PhfBorrow<[u8]> for [u8; N] {
    open spec fn borrowed(v: Seq<u8>) -> Seq<u8> {
        v
    }

    proof fn lemma_borrowed(v: Seq<u8>, w: Seq<u8>) {
    }

    fn borrow(&self) -> (r: &[u8]) {
        self.as_slice()
    }
}

impl<const N: usize> PhfBorrow<[u8; N]> for [u8; N] {
    open spec fn borrowed(v: Seq<u8>) -> Seq<u8> {
        v
    }

    proof fn lemma_borrowed(v: Seq<u8>, w: Seq<u8>) {
    }

    fn borrow(&self) -> (r: &[u8; N]) {
        self
    }
}

impl<A: PhfHash, B: PhfHash> PhfBorrow<(A, B)> for (A, B) {
    open spec fn borrowed(v: (A::V, B::V)) -> (A::V, B::V) {
        v
    }

    proof fn lemma_borrowed(v: (A::V, B::V), w: (A::V, B::V)) {
    }

    fn borrow(&self) -> (r: &(A, B)) {
        self
    }
}

impl<A: PhfHash, B: PhfHash, C: PhfHash> PhfBorrow<(A, B, C)> for (A, B, C) {
    open spec fn borrowed(v: (A::V, B::V, C::V)) -> (A::V, B::V, C::V) {
        v
    }

    proof fn lemma_borrowed(v: (A::V, B::V, C::V), w: (A::V, B::V, C::V)) {
    }

    fn borrow(&self) -> (r: &(A, B, C)) {
        self
    }
}


/// The decimal digit `d` as a character.
pub open spec fn digit(d: nat) -> char {
    if d == 0 {
        '0'
    } else if d == 1 {
        '1'
    } else if d == 2 {
        '2'
    } else if d == 3 {
        '3'
    } else if d == 4 {
        '4'
    } else if d == 5 {
        '5'
    } else if d == 6 {
        '6'
    } else if d == 7 {
        '7'
    } else if d == 8 {
        '8'
    } else {
        '9'
    }
}

/// The decimal digits of `n`, most significant first.
pub open spec fn decimal(n: nat) -> Seq<char>
    decreases n,
{
    if n < 10 {
        seq![digit(n)]
    } else {
        decimal(n / 10) + seq![digit(n % 10)]
    }
}

/// The decimal text of `x`, with a leading `-` when it is negative.
pub open spec fn signed_decimal(x: int) -> Seq<char> {
    if x < 0 {
        seq!['-'] + decimal((-x) as nat)
    } else {
        decimal(x as nat)
    }
}

/// The elements of `bytes` in decimal, separated by `, `.
pub open spec fn byte_items(bytes: Seq<u8>) -> Seq<char>
    decreases bytes.len(),
{
    if bytes.len() == 0 {
        Seq::empty()
    } else if bytes.len() == 1 {
        decimal(bytes[0] as nat)
    } else {
        byte_items(bytes.drop_last()) + seq![',', ' '] + decimal(bytes.last() as nat)
    }
}

/// The text of a byte array: its elements in decimal between brackets.
pub open spec fn byte_array_text(bytes: Seq<u8>) -> Seq<char> {
    seq!['['] + byte_items(bytes) + seq![']']
}

fn digit_str(d: u8) -> (s: &'static str)
    requires
        d < 10,
    ensures
        s@ == seq![digit(d as nat)],
{
    match d {
        0 => {
            proof {
                reveal_strlit("0");
            }
            "0"
        },
        1 => {
            proof {
                reveal_strlit("1");
            }
            "1"
        },
        2 => {
            proof {
                reveal_strlit("2");
            }
            "2"
        },
        3 => {
            proof {
                reveal_strlit("3");
            }
            "3"
        },
        4 => {
            proof {
                reveal_strlit("4");
            }
            "4"
        },
        5 => {
            proof {
                reveal_strlit("5");
            }
            "5"
        },
        6 => {
            proof {
                reveal_strlit("6");
            }
            "6"
        },
        7 => {
            proof {
                reveal_strlit("7");
            }
            "7"
        },
        8 => {
            proof {
                reveal_strlit("8");
            }
            "8"
        },
        9 => {
            proof {
                reveal_strlit("9");
            }
            "9"
        },
        _ => {
            proof {
                reveal_strlit("9");
            }
            "9"
        },
    }
}

/// Appends the decimal digits of `n`.
pub fn push_decimal(out: &mut String, n: u128)
    ensures
        final(out)@ == old(out)@ + decimal(n as nat),
    decreases n,
{
    if n >= 10 {
        push_decimal(out, n / 10);
    }
    let d = digit_str((n % 10) as u8);
    out.append(d);
    proof {
        if n >= 10 {
            assert(final(out)@ =~= old(out)@ + decimal(n as nat));
        } else {
            assert(n % 10 == n);
        }
    }
}

/// Appends the decimal text of `x`, with a leading `-` when it is negative.
pub fn push_signed_decimal(out: &mut String, x: i128)
    ensures
        final(out)@ == old(out)@ + signed_decimal(x as int),
{
    if x < 0 {
        proof {
            reveal_strlit("-");
        }
        out.append("-");
        let magnitude: u128 = if x == i128::MIN {
            0x8000_0000_0000_0000_0000_0000_0000_0000
        } else {
            (-x) as u128
        };
        push_decimal(out, magnitude);
        proof {
            assert(final(out)@ =~= old(out)@ + signed_decimal(x as int));
        }
    } else {
        push_decimal(out, x as u128);
    }
}

/// Appends the text of a byte array: its elements in decimal between brackets.
fn push_byte_array(out: &mut String, bytes: &[u8])
    ensures
        final(out)@ == old(out)@ + byte_array_text(bytes@),
{
    proof {
        reveal_strlit("[");
        reveal_strlit("]");
        reveal_strlit(", ");
    }
    out.append("[");
    let ghost start = out@;
    let mut i: usize = 0;
    while i < bytes.len()
        invariant
            i <= bytes@.len(),
            out@ == start + byte_items(bytes@.take(i as int)),
        decreases bytes@.len() - i,
    {
        proof {
            reveal_strlit(", ");
            assert(bytes@.take(i + 1).drop_last() =~= bytes@.take(i as int));
        }
        if i > 0 {
            out.append(", ");
        }
        push_decimal(out, bytes[i] as u128);
        proof {
            let t = bytes@.take(i + 1);
            assert(t.len() == i + 1);
            assert(t.last() == bytes@[i as int]);
            if i == 0 {
                assert(t[0] == bytes@[0]);
            }
            assert(out@ =~= start + byte_items(t));
        }
        i = i + 1;
    }
    out.append("]");
    proof {
        assert(bytes@.take(i as int) =~= bytes@);
        assert(final(out)@ =~= old(out)@ + byte_array_text(bytes@));
    }
}

/// What `{:?}` prints for the string `s`: `s` between double quotes, with
/// the characters that need it escaped.
pub uninterp spec fn debug_str_text(s: Seq<char>) -> Seq<char>;

/// What `{:?}` prints for the character `c`: `c` between single quotes,
/// escaped where it needs it.
pub uninterp spec fn debug_char_text(c: char) -> Seq<char>;

/// `<str as Debug>::fmt`, through `format!`: names its text
/// `debug_str_text`, which depends on the string alone.
#[verifier::external_body]
fn debug_str(s: &str) -> (r: String)
    ensures
        r@ == debug_str_text(s@),
{
    format!("{:?}", s)
}

/// `<char as Debug>::fmt`, through `format!`: names its text
/// `debug_char_text`, which depends on the character alone.
#[verifier::external_body]
fn debug_char(c: char) -> (r: String)
    ensures
        r@ == debug_char_text(c),
{
    format!("{:?}", c)
}

/// Trait for printing types with `const` constructors, used by the code generation and the macros.
pub trait FmtConst: View {
    /// The text of a `const` expression for a value whose view is `v`.
    spec fn const_text(v: Self::V) -> Seq<char>;

    /// Print a `const` expression representing this value.
    fn fmt_const(&self, out: &mut String)
        ensures
            final(out)@ == old(out)@ + Self::const_text(self@),
    ;
}

impl FmtConst for u8 {
    open spec fn const_text(v: u8) -> Seq<char> {
        decimal(v as nat)
    }

    fn fmt_const(&self, out: &mut String) {
        push_decimal(out, *self as u128);
    }
}

impl FmtConst for u16 {
    open spec fn const_text(v: u16) -> Seq<char> {
        decimal(v as nat)
    }

    fn fmt_const(&self, out: &mut String) {
        push_decimal(out, *self as u128);
    }
}

impl FmtConst for u32 {
    open spec fn const_text(v: u32) -> Seq<char> {
        decimal(v as nat)
    }

    fn fmt_const(&self, out: &mut String) {
        push_decimal(out, *self as u128);
    }
}

impl FmtConst for u64 {
    open spec fn const_text(v: u64) -> Seq<char> {
        decimal(v as nat)
    }

    fn fmt_const(&self, out: &mut String) {
        push_decimal(out, *self as u128);
    }
}

impl FmtConst for u128 {
    open spec fn const_text(v: u128) -> Seq<char> {
        decimal(v as nat)
    }

    fn fmt_const(&self, out: &mut String) {
        push_decimal(out, *self as u128);
    }
}

impl FmtConst for i8 {
    open spec fn const_text(v: i8) -> Seq<char> {
        signed_decimal(v as int)
    }

    fn fmt_const(&self, out: &mut String) {
        push_signed_decimal(out, *self as i128);
    }
}

impl FmtConst for i16 {
    open spec fn const_text(v: i16) -> Seq<char> {
        signed_decimal(v as int)
    }

    fn fmt_const(&self, out: &mut String) {
        push_signed_decimal(out, *self as i128);
    }
}

impl FmtConst for i32 {
    open spec fn const_text(v: i32) -> Seq<char> {
        signed_decimal(v as int)
    }

    fn fmt_const(&self, out: &mut String) {
        push_signed_decimal(out, *self as i128);
    }
}

impl FmtConst for i64 {
    open spec fn const_text(v: i64) -> Seq<char> {
        signed_decimal(v as int)
    }

    fn fmt_const(&self, out: &mut String) {
        push_signed_decimal(out, *self as i128);
    }
}

impl FmtConst for i128 {
    open spec fn const_text(v: i128) -> Seq<char> {
        signed_decimal(v as int)
    }

    fn fmt_const(&self, out: &mut String) {
        push_signed_decimal(out, *self as i128);
    }
}

impl FmtConst for bool {
    open spec fn const_text(v: bool) -> Seq<char> {
        if v {
            seq!['t', 'r', 'u', 'e']
        } else {
            seq!['f', 'a', 'l', 's', 'e']
        }
    }

    fn fmt_const(&self, out: &mut String) {
        if *self {
            proof {
                reveal_strlit("true");
            }
            out.append("true");
        } else {
            proof {
                reveal_strlit("false");
            }
            out.append("false");
        }
    }
}

impl FmtConst for char {
    open spec fn const_text(v: char) -> Seq<char> {
        debug_char_text(v)
    }

    fn fmt_const(&self, out: &mut String) {
        let text = debug_char(*self);
        out.append(text.as_str());
    }
}

impl FmtConst for str {
    open spec fn const_text(v: Seq<char>) -> Seq<char> {
        debug_str_text(v)
    }

    fn fmt_const(&self, out: &mut String) {
        let text = debug_str(self);
        out.append(text.as_str());
    }
}

impl FmtConst for String {
    open spec fn const_text(v: Seq<char>) -> Seq<char> {
        debug_str_text(v)
    }

    fn fmt_const(&self, out: &mut String) {
        let text = debug_str(self.as_str());
        out.append(text.as_str());
    }
}

impl FmtConst for [u8] {
    /// Slices need a leading reference.
    open spec fn const_text(v: Seq<u8>) -> Seq<char> {
        seq!['&'] + byte_array_text(v)
    }

    fn fmt_const(&self, out: &mut String) {
        proof {
            reveal_strlit("&");
        }
        out.append("&");
        push_byte_array(out, self);
        proof {
            assert(final(out)@ =~= old(out)@ + Self::const_text(self@));
        }
    }
}

impl<const N: usize> FmtConst for [u8; N] {
    open spec fn const_text(v: Seq<u8>) -> Seq<char> {
        byte_array_text(v)
    }

    fn fmt_const(&self, out: &mut String) {
        push_byte_array(out, self.as_slice());
    }
}

impl<'a, T: ?Sized + FmtConst> FmtConst for &'a T {
    open spec fn const_text(v: T::V) -> Seq<char> {
        T::const_text(v)
    }

    fn fmt_const(&self, out: &mut String) {
        (**self).fmt_const(out)
    }
}

impl<A: FmtConst, B: FmtConst> FmtConst for (A, B) {
    /// The elements' texts between parentheses, separated by `, `.
    open spec fn const_text(v: (A::V, B::V)) -> Seq<char> {
        seq!['('] + A::const_text(v.0) + seq![',', ' '] + B::const_text(v.1) + seq![')']
    }

    fn fmt_const(&self, out: &mut String) {
        proof {
            reveal_strlit("(");
            reveal_strlit(", ");
            reveal_strlit(")");
        }
        out.append("(");
        self.0.fmt_const(out);
        out.append(", ");
        self.1.fmt_const(out);
        out.append(")");
        proof {
            assert(final(out)@ =~= old(out)@ + Self::const_text(self@));
        }
    }
}

impl<A: FmtConst, B: FmtConst, C: FmtConst> FmtConst for (A, B, C) {
    /// The elements' texts between parentheses, separated by `, `.
    open spec fn const_text(v: (A::V, B::V, C::V)) -> Seq<char> {
        seq!['('] + A::const_text(v.0) + seq![',', ' '] + B::const_text(v.1) + seq![',', ' ']
            + C::const_text(v.2) + seq![')']
    }

    fn fmt_const(&self, out: &mut String) {
        proof {
            reveal_strlit("(");
            reveal_strlit(", ");
            reveal_strlit(")");
        }
        out.append("(");
        self.0.fmt_const(out);
        out.append(", ");
        self.1.fmt_const(out);
        out.append(", ");
        self.2.fmt_const(out);
        out.append(")");
        proof {
            assert(final(out)@ =~= old(out)@ + Self::const_text(self@));
        }
    }
}

/// Whether two byte slices hold the same bytes.
pub fn bytes_eq(a: &[u8], b: &[u8]) -> (r: bool)
    ensures
        r == (a@ == b@),
{
    if a.len() != b.len() {
        return false;
    }
    let mut i: usize = 0;
    while i < a.len()
        invariant
            a@.len() == b@.len(),
            i <= a@.len(),
            forall|j: int| 0 <= j < i ==> a@[j] == b@[j],
        decreases a@.len() - i,
    {
        if a[i] != b[i] {
            return false;
        }
        i = i + 1;
    }
    assert(a@ =~= b@);
    true
}

/// Feeds the keys of a slice one after the other.
pub fn phf_hash_slice<T: PhfHash, H: Hasher>(data: &[T], state: &mut H)
    requires
        old(state).valid(),
        old(state).written().len() + slice_bytes::<T>(data@.map_values(|x: T| x@)).len()
            <= usize::MAX,
    ensures
        final(state).valid(),
        final(state).written() == old(state).written() + slice_bytes::<T>(
            data@.map_values(|x: T| x@),
        ),
        final(state).keys() == old(state).keys(),
{
    let ghost views = data@.map_values(|x: T| x@);
    let mut i: usize = 0;
    while i < data.len()
        invariant
            i <= data@.len(),
            views == data@.map_values(|x: T| x@),
            state.valid(),
            state.keys() == old(state).keys(),
            state.written() == old(state).written() + slice_bytes::<T>(views.take(i as int)),
            old(state).written().len() + slice_bytes::<T>(views).len() <= usize::MAX,
        decreases data@.len() - i,
    {
        proof {
            lemma_slice_bytes_prefix::<T>(views, (i + 1) as nat);
            assert(views.take(i + 1).drop_last() =~= views.take(i as int));
        }
        data[i].phf_hash(state);
        i = i + 1;
    }
    proof {
        assert(views.take(i as int) =~= views);
    }
}

/// The bytes of a sequence of keys, one after the other.
pub open spec fn slice_bytes<T: PhfHash>(vs: Seq<T::V>) -> Seq<u8>
    decreases vs.len(),
{
    if vs.len() == 0 {
        Seq::empty()
    } else {
        slice_bytes::<T>(vs.drop_last()) + T::phf_bytes(vs.last())
    }
}

proof fn lemma_slice_bytes_prefix<T: PhfHash>(vs: Seq<T::V>, n: nat)
    requires
        n <= vs.len(),
    ensures
        slice_bytes::<T>(vs.take(n as int)).len() <= slice_bytes::<T>(vs).len(),
    decreases vs.len(),
{
    if n < vs.len() {
        assert(vs.drop_last().take(n as int) =~= vs.take(n as int));
        lemma_slice_bytes_prefix::<T>(vs.drop_last(), n);
    } else {
        assert(vs.take(n as int) =~= vs);
    }
}

/// The value of a decimal digit character, `-1` for any other character.
pub open spec fn digit_value(c: char) -> int {
    if c == '0' {
        0
    } else if c == '1' {
        1
    } else if c == '2' {
        2
    } else if c == '3' {
        3
    } else if c == '4' {
        4
    } else if c == '5' {
        5
    } else if c == '6' {
        6
    } else if c == '7' {
        7
    } else if c == '8' {
        8
    } else if c == '9' {
        9
    } else {
        -1
    }
}

/// `s` is a nonempty run of decimal digits.
pub open spec fn all_digits(s: Seq<char>) -> bool {
    s.len() > 0 && forall|i: int| 0 <= i < s.len() ==> #[trigger] digit_value(s[i]) >= 0
}

/// The number a run of decimal digits spells, most significant first.
pub open spec fn digits_value(s: Seq<char>) -> int
    decreases s.len(),
{
    if s.len() == 0 {
        0
    } else {
        digits_value(s.drop_last()) * 10 + digit_value(s.last())
    }
}

/// The integer that a Rust integer literal without suffix spells: digits,
/// or `-` and digits; `None` for any other text.
pub open spec fn read_integer(s: Seq<char>) -> Option<int> {
    if s.len() > 0 && s[0] == '-' {
        if all_digits(s.drop_first()) {
            Some(-digits_value(s.drop_first()))
        } else {
            None
        }
    } else if all_digits(s) {
        Some(digits_value(s))
    } else {
        None
    }
}

proof fn lemma_digit_value(d: nat)
    requires
        d < 10,
    ensures
        digit_value(digit(d)) == d,
{
    if d == 0 {
    } else if d == 1 {
    } else if d == 2 {
    } else if d == 3 {
    } else if d == 4 {
    } else if d == 5 {
    } else if d == 6 {
    } else if d == 7 {
    } else if d == 8 {
    } else {
    }
}

proof fn lemma_decimal_reads_back(n: nat)
    ensures
        all_digits(decimal(n)),
        digits_value(decimal(n)) == n,
    decreases n,
{
    if n < 10 {
        lemma_digit_value(n);
        assert(seq![digit(n)].drop_last() =~= Seq::<char>::empty());
        assert(digits_value(Seq::<char>::empty()) == 0);
    } else {
        lemma_decimal_reads_back(n / 10);
        let a = decimal(n / 10);
        let d = (n % 10) as nat;
        lemma_digit_value(d);
        assert((a + seq![digit(d)]).drop_last() =~= a);
        assert(forall|i: int| 0 <= i < a.len() + 1 ==> #[trigger] (a + seq![digit(d)])[i] == if i < a.len() {
            a[i]
        } else {
            digit(d)
        });
    }
}

proof fn lemma_signed_decimal_reads_back(x: int)
    ensures
        read_integer(signed_decimal(x)) == Some(x),
{
    if x < 0 {
        let t = decimal((-x) as nat);
        lemma_decimal_reads_back((-x) as nat);
        assert((seq!['-'] + t).drop_first() =~= t);
    } else {
        lemma_decimal_reads_back(x as nat);
        assert(digit_value(decimal(x as nat)[0]) >= 0);
    }
}

/// The const text of an integer reads back as that integer: the decimal
/// digits of its value, after a `-` when it is negative.
pub proof fn law_integer_const_text_reads_back(
    a: u8,
    b: u16,
    c: u32,
    d: u64,
    e: u128,
    f: i8,
    g: i16,
    h: i32,
    i: i64,
    j: i128,
)
    ensures
        read_integer(<u8 as FmtConst>::const_text(a)) == Some(a as int),
        read_integer(<u16 as FmtConst>::const_text(b)) == Some(b as int),
        read_integer(<u32 as FmtConst>::const_text(c)) == Some(c as int),
        read_integer(<u64 as FmtConst>::const_text(d)) == Some(d as int),
        read_integer(<u128 as FmtConst>::const_text(e)) == Some(e as int),
        read_integer(<i8 as FmtConst>::const_text(f)) == Some(f as int),
        read_integer(<i16 as FmtConst>::const_text(g)) == Some(g as int),
        read_integer(<i32 as FmtConst>::const_text(h)) == Some(h as int),
        read_integer(<i64 as FmtConst>::const_text(i)) == Some(i as int),
        read_integer(<i128 as FmtConst>::const_text(j)) == Some(j as int),
{
    lemma_signed_decimal_reads_back(a as int);
    lemma_signed_decimal_reads_back(b as int);
    lemma_signed_decimal_reads_back(c as int);
    lemma_signed_decimal_reads_back(d as int);
    lemma_signed_decimal_reads_back(e as int);
    lemma_signed_decimal_reads_back(f as int);
    lemma_signed_decimal_reads_back(g as int);
    lemma_signed_decimal_reads_back(h as int);
    lemma_signed_decimal_reads_back(i as int);
    lemma_signed_decimal_reads_back(j as int);
}

} // verus!
