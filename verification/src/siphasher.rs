//! A streaming implementation of SipHash 1-3 with a 128-bit output.
//!
//! The hasher accumulates bytes; its view is the sequence of bytes written
//! so far, and `finish128` returns `sip13_128` of the keys and that
//! sequence, whatever the way the bytes were split into writes.
use vstd::prelude::*;
use vstd::wrapping::u64_specs;

verus! {

/// `256^n`.
pub open spec fn pow256(n: nat) -> int
    decreases n,
{
    if n == 0 {
        1
    } else {
        256 * pow256((n - 1) as nat)
    }
}

/// The little-endian value of a byte sequence.
pub open spec fn le_value(b: Seq<u8>) -> int
    decreases b.len(),
{
    if b.len() == 0 {
        0
    } else {
        b[0] as int + 256 * le_value(b.drop_first())
    }
}

/// The `n` low bytes of `x`, least significant first.
pub open spec fn le_bytes(x: int, n: nat) -> Seq<u8> {
    Seq::new(n, |i: int| ((x / pow256(i as nat)) % 256) as u8)
}

pub proof fn lemma_pow256_pos(n: nat)
    ensures
        pow256(n) >= 1,
    decreases n,
{
    if n > 0 {
        lemma_pow256_pos((n - 1) as nat);
    }
}

pub proof fn lemma_pow256_adds(a: nat, b: nat)
    ensures
        pow256(a + b) == pow256(a) * pow256(b),
    decreases a,
{
    if a > 0 {
        lemma_pow256_adds((a - 1) as nat, b);
        assert(pow256(a + b) == 256 * pow256((a - 1 + b) as nat));
        assert(256 * (pow256((a - 1) as nat) * pow256(b)) == (256 * pow256((a - 1) as nat))
            * pow256(b)) by (nonlinear_arith);
    }
}

pub proof fn lemma_pow256_mono(a: nat, b: nat)
    requires
        a <= b,
    ensures
        pow256(a) <= pow256(b),
    decreases b,
{
    if a < b {
        lemma_pow256_mono(a, (b - 1) as nat);
        lemma_pow256_pos((b - 1) as nat);
    }
}

/// `256^n` for the exponents that fit a `u64`.
pub proof fn lemma_pow256_values()
    ensures
        pow256(0) == 1,
        pow256(1) == 0x100,
        pow256(2) == 0x1_0000,
        pow256(3) == 0x100_0000,
        pow256(4) == 0x1_0000_0000,
        pow256(5) == 0x100_0000_0000,
        pow256(6) == 0x1_0000_0000_0000,
        pow256(7) == 0x100_0000_0000_0000,
        pow256(8) == 0x1_0000_0000_0000_0000,
{
    reveal_with_fuel(pow256, 9);
}

pub proof fn lemma_le_value_bound(b: Seq<u8>)
    ensures
        0 <= le_value(b) < pow256(b.len()),
    decreases b.len(),
{
    if b.len() > 0 {
        lemma_le_value_bound(b.drop_first());
        assert(pow256(b.len()) == 256 * pow256(b.drop_first().len()));
    }
}

pub proof fn lemma_le_value_concat(a: Seq<u8>, b: Seq<u8>)
    ensures
        le_value(a + b) == le_value(a) + pow256(a.len()) * le_value(b),
    decreases a.len(),
{
    if a.len() == 0 {
        assert(a + b =~= b);
    } else {
        assert((a + b).drop_first() =~= a.drop_first() + b);
        lemma_le_value_concat(a.drop_first(), b);
        let r = le_value(b);
        let p = pow256(a.drop_first().len());
        assert(256 * (le_value(a.drop_first()) + p * r) == 256 * le_value(a.drop_first()) + (256
            * p) * r) by (nonlinear_arith);
    }
}

pub proof fn lemma_le_bytes_value(x: int, n: nat)
    requires
        0 <= x < pow256(n),
    ensures
        le_value(le_bytes(x, n)) == x,
    decreases n,
{
    if n > 0 {
        let s = le_bytes(x, n);
        let q = x / 256;
        assert(0 <= q < pow256((n - 1) as nat)) by {
            assert(pow256(n) == 256 * pow256((n - 1) as nat));
            vstd::arithmetic::div_mod::lemma_fundamental_div_mod(x, 256);
            vstd::arithmetic::div_mod::lemma_mod_pos_bound(x, 256);
        }
        lemma_le_bytes_value(q, (n - 1) as nat);
        assert forall|i: int| 0 <= i < n - 1 implies #[trigger] s.drop_first()[i] == le_bytes(
            q,
            (n - 1) as nat,
        )[i] by {
            lemma_pow256_pos(i as nat);
            assert(pow256((i + 1) as nat) == 256 * pow256(i as nat));
            vstd::arithmetic::div_mod::lemma_div_denominator(x, 256, pow256(i as nat));
        }
        assert(s.drop_first() =~= le_bytes(q, (n - 1) as nat));
        assert(s[0] == (x % 256) as u8);
    }
}

/// The low `k` bytes of `x` hold `x % 256^k`; the bytes from `k` on hold `x / 256^k`.
pub proof fn lemma_le_bytes_split(x: int, n: nat, k: nat)
    requires
        0 <= x < pow256(n),
        k <= n,
    ensures
        le_bytes(x, n).take(k as int) =~= le_bytes(x % pow256(k), k),
        le_bytes(x, n).skip(k as int) =~= le_bytes(x / pow256(k), (n - k) as nat),
        le_bytes(x, n) =~= le_bytes(x % pow256(k), k) + le_bytes(x / pow256(k), (n - k) as nat),
{
    lemma_pow256_pos(k);
    assert forall|i: int| 0 <= i < k implies #[trigger] le_bytes(x, n).take(k as int)[i]
        == le_bytes(x % pow256(k), k)[i] by {
        lemma_pow256_pos(i as nat);
        lemma_pow256_adds(i as nat, (k - i) as nat);
        let a = pow256(i as nat);
        let b = pow256((k - i) as nat);
        let p = pow256((k - i - 1) as nat);
        lemma_pow256_pos((k - i - 1) as nat);
        assert(b == 256 * p);
        assert(pow256(k) == a * b);
        vstd::arithmetic::div_mod::lemma_mod_breakdown(x, a, b);
        vstd::arithmetic::div_mod::lemma_mod_pos_bound(x, a);
        vstd::arithmetic::div_mod::lemma_mod_pos_bound(x / a, b);
        lemma_div_of_sum(a, (x / a) % b, x % a);
        vstd::arithmetic::div_mod::lemma_mod_mod(x / a, 256, p);
    }
    assert forall|i: int| 0 <= i < n - k implies #[trigger] le_bytes(x, n).skip(k as int)[i]
        == le_bytes(x / pow256(k), (n - k) as nat)[i] by {
        lemma_pow256_pos(i as nat);
        lemma_pow256_adds(k, i as nat);
        vstd::arithmetic::div_mod::lemma_div_denominator(x, pow256(k), pow256(i as nat));
    }
    assert(le_bytes(x, n) =~= le_bytes(x, n).take(k as int) + le_bytes(x, n).skip(k as int));
}

proof fn lemma_div_of_sum(a: int, q: int, r: int)
    requires
        a > 0,
        0 <= r < a,
    ensures
        (a * q + r) / a == q,
{
    assert(a * q == q * a) by (nonlinear_arith);
    vstd::arithmetic::div_mod::lemma_fundamental_div_mod_converse_div(a * q + r, a, q, r);
}

/// The state of SipHash between rounds.
#[derive(Clone, Copy)]
pub struct State {
    pub v0: u64,
    pub v2: u64,
    pub v1: u64,
    pub v3: u64,
}

pub open spec fn rotl(x: u64, b: u64) -> u64 {
    (x << b) | (x >> (64 - b) as u64)
}

/// One SipRound.
pub open spec fn sip_round(s: State) -> State {
    let v0 = u64_specs::wrapping_add(s.v0, s.v1);
    let v1 = rotl(s.v1, 13) ^ v0;
    let v0 = rotl(v0, 32);
    let v2 = u64_specs::wrapping_add(s.v2, s.v3);
    let v3 = rotl(s.v3, 16) ^ v2;
    let v0 = u64_specs::wrapping_add(v0, v3);
    let v3 = rotl(v3, 21) ^ v0;
    let v2 = u64_specs::wrapping_add(v2, v1);
    let v1 = rotl(v1, 17) ^ v2;
    let v2 = rotl(v2, 32);
    State { v0, v1, v2, v3 }
}

/// Three SipRounds.
pub open spec fn sip_d_rounds(s: State) -> State {
    sip_round(sip_round(sip_round(s)))
}

/// Absorbs one message word.
pub open spec fn sip_compress(s: State, m: u64) -> State {
    let t = sip_round(State { v3: s.v3 ^ m, ..s });
    State { v0: t.v0 ^ m, ..t }
}

/// The state after the keys are loaded.
pub open spec fn sip_init(k0: u64, k1: u64) -> State {
    State {
        v0: k0 ^ 0x736f6d6570736575,
        v1: k1 ^ 0x646f72616e646f83,
        v2: k0 ^ 0x6c7967656e657261,
        v3: k1 ^ 0x7465646279746573,
    }
}

/// The state after the first `n` full 8-byte words of `m` are absorbed.
pub open spec fn absorb_words(s: State, m: Seq<u8>, n: nat) -> State
    decreases n,
{
    if n == 0 {
        s
    } else {
        sip_compress(
            absorb_words(s, m, (n - 1) as nat),
            le_value(m.subrange(8 * (n - 1), 8 * n as int)) as u64,
        )
    }
}

/// The bytes of `m` after its last full word.
pub open spec fn sip_tail(m: Seq<u8>) -> Seq<u8> {
    m.skip(8 * (m.len() / 8) as int)
}

/// The final block: the length modulo 256 in the top byte over the tail bytes.
pub open spec fn sip_last_block(m: Seq<u8>) -> u64 {
    (((m.len() % 256) as u64) << 56u64) | (le_value(sip_tail(m)) as u64)
}

pub open spec fn state_xor(s: State) -> u64 {
    s.v0 ^ s.v1 ^ s.v2 ^ s.v3
}

/// SipHash 1-3 with a 128-bit output, keyed by `k0` and `k1`, of the bytes `m`.
pub open spec fn sip13_128(k0: u64, k1: u64, m: Seq<u8>) -> Hash128 {
    let s = absorb_words(sip_init(k0, k1), m, m.len() / 8);
    let s = sip_compress(s, sip_last_block(m));
    let s = sip_d_rounds(State { v2: s.v2 ^ 0xee, ..s });
    let h1 = state_xor(s);
    let s = sip_d_rounds(State { v1: s.v1 ^ 0xdd, ..s });
    let h2 = state_xor(s);
    Hash128 { h1, h2 }
}

pub proof fn lemma_absorb_prefix(s: State, a: Seq<u8>, b: Seq<u8>, n: nat)
    requires
        8 * n <= a.len(),
        8 * n <= b.len(),
        a.take(8 * n as int) == b.take(8 * n as int),
    ensures
        absorb_words(s, a, n) == absorb_words(s, b, n),
    decreases n,
{
    if n > 0 {
        assert(a.take(8 * (n - 1)) =~= a.take(8 * n as int).take(8 * (n - 1)));
        assert(b.take(8 * (n - 1)) =~= b.take(8 * n as int).take(8 * (n - 1)));
        lemma_absorb_prefix(s, a, b, (n - 1) as nat);
        assert(a.subrange(8 * (n - 1), 8 * n as int) =~= a.take(8 * n as int).subrange(8 * (n - 1), 8 * n as int));
        assert(b.subrange(8 * (n - 1), 8 * n as int) =~= b.take(8 * n as int).subrange(8 * (n - 1), 8 * n as int));
    }
}

/// A 128-bit hash as two 64-bit halves.
#[derive(Clone, Copy, Debug, Default)]
pub struct Hash128 {
    pub h1: u64,
    pub h2: u64,
}

impl Hash128 {
    /// The sixteen bytes of the hash, `h1` then `h2`, each little-endian.
    pub fn as_bytes(&self) -> (bytes: [u8; 16])
        ensures
            bytes@ == le_bytes(self.h1 as int, 8) + le_bytes(self.h2 as int, 8),
    {
        let mut bytes = [0u8; 16];
        let mut i: usize = 0;
        while i < 8
            invariant
                i <= 8,
                bytes@.len() == 16,
                forall|j: int| 0 <= j < i ==> bytes@[j] == le_bytes(self.h1 as int, 8)[j],
                forall|j: int| 0 <= j < i ==> bytes@[8 + j] == le_bytes(self.h2 as int, 8)[j],
            decreases 8 - i,
        {
            let a = ((self.h1 >> (8 * i as u64)) & 0xff) as u8;
            let b = ((self.h2 >> (8 * i as u64)) & 0xff) as u8;
            proof {
                lemma_shift_byte(self.h1, i as nat);
                lemma_shift_byte(self.h2, i as nat);
            }
            bytes[i] = a;
            bytes[8 + i] = b;
            i = i + 1;
        }
        assert(bytes@ =~= le_bytes(self.h1 as int, 8) + le_bytes(self.h2 as int, 8));
        bytes
    }

    /// Builds the halves from a `u128`: `h1` the low half, `h2` the high one.
    pub fn from_u128(v: u128) -> (r: Hash128)
        ensures
            r.h1 == v % 0x1_0000_0000_0000_0000,
            r.h2 == v / 0x1_0000_0000_0000_0000,
    {
        proof {
            assert((v as u64) as int == v % 0x1_0000_0000_0000_0000) by (bit_vector);
            assert((v >> 64u128) as int == v / 0x1_0000_0000_0000_0000) by (bit_vector);
        }
        Hash128 { h1: v as u64, h2: (v >> 64u128) as u64 }
    }

    /// The `u128` whose low half is `h1` and whose high half is `h2`.
    pub fn to_u128(&self) -> (r: u128)
        ensures
            r == self.h1 + self.h2 * 0x1_0000_0000_0000_0000,
    {
        let h1 = self.h1;
        let h2 = self.h2;
        proof {
            assert(((h1 as u128) | ((h2 as u128) << 64u128)) as int == h1 + h2
                * 0x1_0000_0000_0000_0000) by (bit_vector);
        }
        (self.h1 as u128) | ((self.h2 as u128) << 64u128)
    }
}

pub proof fn lemma_shift_byte(x: u64, i: nat)
    requires
        i < 8,
    ensures
        ((x >> (8 * i) as u64) & 0xff) as u8 == le_bytes(x as int, 8)[i as int],
{
    lemma_pow256_values();
    let s = (8 * i) as u64;
    assert((x >> s) & 0xff == (x >> s) % 256) by (bit_vector);
    if i == 0 {
        assert(x >> 0u64 == x / 1) by (bit_vector);
    } else if i == 1 {
        assert(x >> 8u64 == x / 0x100) by (bit_vector);
    } else if i == 2 {
        assert(x >> 16u64 == x / 0x1_0000) by (bit_vector);
    } else if i == 3 {
        assert(x >> 24u64 == x / 0x100_0000) by (bit_vector);
    } else if i == 4 {
        assert(x >> 32u64 == x / 0x1_0000_0000) by (bit_vector);
    } else if i == 5 {
        assert(x >> 40u64 == x / 0x100_0000_0000) by (bit_vector);
    } else if i == 6 {
        assert(x >> 48u64 == x / 0x1_0000_0000_0000) by (bit_vector);
    } else {
        assert(x >> 56u64 == x / 0x100_0000_0000_0000) by (bit_vector);
    }
}


/// `x | (y << 8t)` for an `x` below `256^t`: the `8 - t` low bytes of `y` above `x`.
pub proof fn lemma_or_shl(x: u64, y: u64, t: nat)
    requires
        t < 8,
        x < pow256(t),
    ensures
        (x | (y << (8 * t) as u64)) as int == x + pow256(t) * (y as int % pow256(
            (8 - t) as nat,
        )),
{
    lemma_pow256_values();
    if t == 0 {
        assert(x == 0);
        assert(0u64 | (y << 0u64) == y) by (bit_vector);
    } else if t == 1 {
        assert((x | (y << 8u64)) as int == x + 0x100 * (y % 0x100_0000_0000_0000)) by (bit_vector)
            requires
                x < 0x100,
        ;
    } else if t == 2 {
        assert((x | (y << 16u64)) as int == x + 0x1_0000 * (y % 0x1_0000_0000_0000))
            by (bit_vector)
            requires
                x < 0x1_0000,
        ;
    } else if t == 3 {
        assert((x | (y << 24u64)) as int == x + 0x100_0000 * (y % 0x100_0000_0000))
            by (bit_vector)
            requires
                x < 0x100_0000,
        ;
    } else if t == 4 {
        assert((x | (y << 32u64)) as int == x + 0x1_0000_0000 * (y % 0x1_0000_0000))
            by (bit_vector)
            requires
                x < 0x1_0000_0000,
        ;
    } else if t == 5 {
        assert((x | (y << 40u64)) as int == x + 0x100_0000_0000 * (y % 0x100_0000))
            by (bit_vector)
            requires
                x < 0x100_0000_0000,
        ;
    } else if t == 6 {
        assert((x | (y << 48u64)) as int == x + 0x1_0000_0000_0000 * (y % 0x1_0000))
            by (bit_vector)
            requires
                x < 0x1_0000_0000_0000,
        ;
    } else {
        assert((x | (y << 56u64)) as int == x + 0x100_0000_0000_0000 * (y % 0x100))
            by (bit_vector)
            requires
                x < 0x100_0000_0000_0000,
        ;
    }
}

/// `x >> 8k` is `x / 256^k`.
pub proof fn lemma_shr_bytes(x: u64, k: nat)
    requires
        k < 8,
    ensures
        (x >> (8 * k) as u64) as int == x as int / pow256(k),
{
    lemma_pow256_values();
    if k == 0 {
        assert(x >> 0u64 == x / 1) by (bit_vector);
    } else if k == 1 {
        assert(x >> 8u64 == x / 0x100) by (bit_vector);
    } else if k == 2 {
        assert(x >> 16u64 == x / 0x1_0000) by (bit_vector);
    } else if k == 3 {
        assert(x >> 24u64 == x / 0x100_0000) by (bit_vector);
    } else if k == 4 {
        assert(x >> 32u64 == x / 0x1_0000_0000) by (bit_vector);
    } else if k == 5 {
        assert(x >> 40u64 == x / 0x100_0000_0000) by (bit_vector);
    } else if k == 6 {
        assert(x >> 48u64 == x / 0x1_0000_0000_0000) by (bit_vector);
    } else {
        assert(x >> 56u64 == x / 0x100_0000_0000_0000) by (bit_vector);
    }
}

/// Reads `len` bytes of `buf` from `start` as a little-endian integer.
pub(crate) fn load_le(buf: &[u8], start: usize, len: usize) -> (out: u64)
    requires
        len <= 8,
        start + len <= buf@.len(),
    ensures
        out as int == le_value(buf@.subrange(start as int, start + len)),
{
    let mut out: u64 = 0;
    let mut i: usize = 0;
    let n = buf.len();
    while i < len
        invariant
            i <= len <= 8,
            n == buf@.len(),
            start + len <= n,
            out as int == le_value(buf@.subrange(start as int, start + i)),
        decreases len - i,
    {
        let b = buf[start + i];
        proof {
            let pre = buf@.subrange(start as int, start + i);
            lemma_le_value_bound(pre);
            lemma_or_shl(out, b as u64, i as nat);
            lemma_pow256_mono(1, (8 - i) as nat);
            lemma_pow256_values();
            assert(buf@.subrange(start as int, start + i + 1) =~= pre + seq![b]);
            lemma_le_value_concat(pre, seq![b]);
            assert(le_value(seq![b]) == b as int) by {
                reveal_with_fuel(le_value, 2);
                assert(seq![b].drop_first() =~= Seq::<u8>::empty());
            }
            lemma_pow256_mono(1, (8 - i) as nat);
            vstd::arithmetic::div_mod::lemma_small_mod(b as nat, pow256((8 - i) as nat) as nat);
            lemma_pow256_mono(i as nat, 7);
            lemma_le_value_bound(buf@.subrange(start as int, start + i + 1));
            lemma_pow256_mono((i + 1) as nat, 8);
        }
        out = out | ((b as u64) << (8 * i as u64));
        i = i + 1;
    }
    out
}

/// Reads `len < 8` bytes of `buf` from `start` as a little-endian integer.
#[inline]
fn u8to64_le(buf: &[u8], start: usize, len: usize) -> (out: u64)
    requires
        len < 8,
        start + len <= buf@.len(),
    ensures
        out as int == le_value(buf@.subrange(start as int, start + len)),
{
    load_le(buf, start, len)
}


/// `x` rotated left by `b` bits.
#[inline]
fn rotate(x: u64, b: u64) -> (r: u64)
    requires
        0 < b < 64,
    ensures
        r == rotl(x, b),
{
    (x << b) | (x >> (64 - b))
}

impl State {
    /// One SipRound.
    #[inline]
    fn c_rounds(&mut self)
        ensures
            *final(self) == sip_round(*old(self)),
    {
        self.v0 = self.v0.wrapping_add(self.v1);
        self.v1 = rotate(self.v1, 13);
        self.v1 = self.v1 ^ self.v0;
        self.v0 = rotate(self.v0, 32);
        self.v2 = self.v2.wrapping_add(self.v3);
        self.v3 = rotate(self.v3, 16);
        self.v3 = self.v3 ^ self.v2;
        self.v0 = self.v0.wrapping_add(self.v3);
        self.v3 = rotate(self.v3, 21);
        self.v3 = self.v3 ^ self.v0;
        self.v2 = self.v2.wrapping_add(self.v1);
        self.v1 = rotate(self.v1, 17);
        self.v1 = self.v1 ^ self.v2;
        self.v2 = rotate(self.v2, 32);
    }

    /// Three SipRounds.
    #[inline]
    fn d_rounds(&mut self)
        ensures
            *final(self) == sip_d_rounds(*old(self)),
    {
        self.c_rounds();
        self.c_rounds();
        self.c_rounds();
    }

    /// Absorbs one message word.
    #[inline]
    fn compress(&mut self, m: u64)
        ensures
            *final(self) == sip_compress(*old(self), m),
    {
        self.v3 = self.v3 ^ m;
        self.c_rounds();
        self.v0 = self.v0 ^ m;
    }
}

/// An implementation of SipHash 1-3 with a 128-bit output.
#[derive(Clone, Copy)]
pub struct SipHasher13 {
    k0: u64,
    k1: u64,
    length: usize,
    state: State,
    tail: u64,
    ntail: usize,
    msg: Ghost<Seq<u8>>,
}

impl View for SipHasher13 {
    type V = Seq<u8>;

    /// The bytes written so far.
    closed spec fn view(&self) -> Seq<u8> {
        self.msg@
    }
}

impl SipHasher13 {
    /// The first key.
    pub closed spec fn key0(&self) -> u64 {
        self.k0
    }

    /// The second key.
    pub closed spec fn key1(&self) -> u64 {
        self.k1
    }

    /// The state, the buffered tail and the counters agree with the bytes
    /// written so far.
    pub closed spec fn wf(&self) -> bool {
        &&& self.length == self.msg@.len()
        &&& self.ntail == self.msg@.len() % 8
        &&& self.state == absorb_words(sip_init(self.k0, self.k1), self.msg@, self.msg@.len() / 8)
        &&& self.tail as int == le_value(sip_tail(self.msg@))
    }

    /// Creates a new `SipHasher13` that is keyed off the provided keys.
    #[inline(always)]
    pub fn new_with_keys(key0: u64, key1: u64) -> (h: Self)
        ensures
            h.wf(),
            h@ == Seq::<u8>::empty(),
            h.key0() == key0,
            h.key1() == key1,
    {
        let mut state = SipHasher13 {
            k0: key0,
            k1: key1,
            length: 0,
            state: State { v0: 0, v1: 0xee, v2: 0, v3: 0 },
            tail: 0,
            ntail: 0,
            msg: Ghost(Seq::empty()),
        };
        state.reset();
        proof {
            assert(sip_tail(Seq::<u8>::empty()) =~= Seq::<u8>::empty());
        }
        state
    }

    #[inline]
    fn reset(&mut self)
        ensures
            final(self).length == 0,
            final(self).ntail == 0,
            final(self).state == sip_init(old(self).k0, old(self).k1),
            final(self).k0 == old(self).k0,
            final(self).k1 == old(self).k1,
            final(self).tail == old(self).tail,
            final(self).msg == old(self).msg,
    {
        self.length = 0;
        self.state.v0 = self.k0 ^ 0x736f6d6570736575;
        self.state.v1 = self.k1 ^ 0x646f72616e646f83;
        self.state.v2 = self.k0 ^ 0x6c7967656e657261;
        self.state.v3 = self.k1 ^ 0x7465646279746573;
        self.ntail = 0;
    }

    /// Return a 128-bit hash
    #[inline]
    pub fn finish128(&self) -> (h: Hash128)
        requires
            self.wf(),
        ensures
            h == sip13_128(self.key0(), self.key1(), self@),
    {
        let mut state = self.state;
        let len = self.length as u64;
        proof {
            assert((len & 0xff) == len % 256) by (bit_vector);
        }
        let b: u64 = ((len & 0xff) << 56) | self.tail;

        state.compress(b);

        state.v2 = state.v2 ^ 0xee;
        state.d_rounds();
        let h1 = state.v0 ^ state.v1 ^ state.v2 ^ state.v3;

        state.v1 = state.v1 ^ 0xdd;
        state.d_rounds();
        let h2 = state.v0 ^ state.v1 ^ state.v2 ^ state.v3;

        Hash128 { h1, h2 }
    }

    /// Feeds the bytes of `msg`.
    pub fn write(&mut self, msg: &[u8])
        requires
            old(self).wf(),
            old(self)@.len() + msg@.len() <= usize::MAX,
        ensures
            final(self).wf(),
            final(self)@ == old(self)@ + msg@,
            final(self).key0() == old(self).key0(),
            final(self).key1() == old(self).key1(),
    {
        let length = msg.len();
        let mut needed: usize = 0;
        if self.ntail != 0 {
            needed = 8 - self.ntail;
            if length < needed {
                self.extend_tail(msg);
                return;
            } else {
                self.flush_tail(msg, needed);
            }
        } else {
            proof {
                let m0 = self.msg@;
                let w0: nat = m0.len() / 8;
                assert((m0 + msg@).take(8 * w0 as int) =~= m0.take(8 * w0 as int));
                lemma_absorb_prefix(sip_init(self.k0, self.k1), m0, m0 + msg@, w0);
            }
        }
        self.absorb_rest(msg, needed);
    }

    /// Appends bytes that do not fill the buffered tail.
    fn extend_tail(&mut self, msg: &[u8])
        requires
            old(self).wf(),
            old(self).ntail != 0,
            old(self).ntail + msg@.len() < 8,
            old(self)@.len() + msg@.len() <= usize::MAX,
        ensures
            final(self).wf(),
            final(self)@ == old(self)@ + msg@,
            final(self).k0 == old(self).k0,
            final(self).k1 == old(self).k1,
    {
        let ghost m0 = self.msg@;
        let ghost mm = m0 + msg@;
        let ghost w0: nat = m0.len() / 8;
        let length = msg.len();
        let v = u8to64_le(msg, 0, length);
        proof {
            lemma_le_value_bound(msg@);
            lemma_le_value_bound(sip_tail(m0));
            assert(mm.take(8 * w0 as int) =~= m0.take(8 * w0 as int));
            lemma_absorb_prefix(sip_init(self.k0, self.k1), m0, mm, w0);
            assert(msg@.subrange(0, length as int) =~= msg@);
            lemma_pow256_mono(length as nat, (8 - self.ntail) as nat);
            lemma_or_shl(self.tail, v, self.ntail as nat);
            vstd::arithmetic::div_mod::lemma_small_mod(
                v as nat,
                pow256((8 - self.ntail) as nat) as nat,
            );
            assert(mm.len() / 8 == w0);
            assert(sip_tail(mm) =~= sip_tail(m0) + msg@);
            lemma_le_value_concat(sip_tail(m0), msg@);
        }
        self.tail = self.tail | (v << (8 * self.ntail as u64));
        self.ntail = self.ntail + length;
        self.length = self.length + length;
        self.msg = Ghost(mm);
    }

    /// Completes the buffered tail to a full word with the first `needed`
    /// bytes of `msg` and absorbs it.
    fn flush_tail(&mut self, msg: &[u8], needed: usize)
        requires
            old(self).wf(),
            old(self).ntail != 0,
            needed == 8 - old(self).ntail,
            needed <= msg@.len(),
        ensures
            final(self).state == absorb_words(
                sip_init(old(self).k0, old(self).k1),
                old(self)@ + msg@,
                old(self)@.len() / 8 + 1,
            ),
            final(self).k0 == old(self).k0,
            final(self).k1 == old(self).k1,
            final(self).msg == old(self).msg,
            final(self).length == old(self).length,
    {
        let ghost m0 = self.msg@;
        let ghost mm = m0 + msg@;
        let ghost w0: nat = m0.len() / 8;
        let ghost init = sip_init(self.k0, self.k1);
        let v = u8to64_le(msg, 0, needed);
        let ghost word = sip_tail(m0) + msg@.subrange(0, needed as int);
        proof {
            lemma_le_value_bound(sip_tail(m0));
            assert(mm.take(8 * w0 as int) =~= m0.take(8 * w0 as int));
            lemma_absorb_prefix(init, m0, mm, w0);
            lemma_le_value_bound(msg@.subrange(0, needed as int));
            lemma_or_shl(self.tail, v, self.ntail as nat);
            vstd::arithmetic::div_mod::lemma_small_mod(
                v as nat,
                pow256((8 - self.ntail) as nat) as nat,
            );
            lemma_le_value_concat(sip_tail(m0), msg@.subrange(0, needed as int));
            assert(mm.subrange(8 * w0 as int, 8 * w0 as int + 8) =~= word);
        }
        let t = self.tail | (v << (8 * self.ntail as u64));
        self.state.compress(t);
    }

    /// Absorbs the full words of `msg` after its first `needed` bytes and
    /// buffers the rest.
    #[verifier::rlimit(30)]
    fn absorb_rest(&mut self, msg: &[u8], needed: usize)
        requires
            needed <= 7,
            needed <= msg@.len(),
            (old(self)@.len() + needed) % 8 == 0,
            old(self)@.len() + msg@.len() <= usize::MAX,
            old(self).length == old(self)@.len(),
            old(self).state == absorb_words(
                sip_init(old(self).k0, old(self).k1),
                old(self)@ + msg@,
                ((old(self)@.len() + needed) / 8) as nat,
            ),
        ensures
            final(self).wf(),
            final(self)@ == old(self)@ + msg@,
            final(self).k0 == old(self).k0,
            final(self).k1 == old(self).k1,
    {
        let ghost m0 = self.msg@;
        let ghost mm = m0 + msg@;
        let ghost init = sip_init(self.k0, self.k1);
        let length = msg.len();
        let len = length - needed;
        let left = len & 0x7;
        proof {
            assert(len & 7 == len % 8) by (bit_vector);
        }
        let ghost wbase: nat = ((m0.len() + needed) / 8) as nat;

        let mut i = needed;
        while i < len - left
            invariant
                length == msg@.len(),
                needed <= 7,
                needed <= length,
                len == length - needed,
                left == len % 8,
                mm == m0 + msg@,
                m0.len() + needed == 8 * wbase,
                needed <= i,
                (i - needed) % 8 == 0,
                i <= needed + len - left,
                self.state == absorb_words(init, mm, wbase + (i - needed) as nat / 8),
                init == sip_init(self.k0, self.k1),
                self.k0 == old(self).k0,
                self.k1 == old(self).k1,
                self.length == m0.len(),
            decreases needed + len - left - i,
        {
            let mi = load_le(msg, i, 8);
            let ghost k: nat = (i - needed) as nat / 8;
            proof {
                lemma_le_value_bound(msg@.subrange(i as int, i + 8));
                lemma_pow256_values();
                assert(mm.subrange(8 * (wbase + k) as int, 8 * (wbase + k) as int + 8)
                    =~= msg@.subrange(i as int, i + 8));
                assert(8 * (wbase + k + 1) == 8 * (wbase + k) + 8);
            }
            self.state.compress(mi);
            i = i + 8;
            proof {
                assert((i - needed) as nat / 8 == k + 1);
            }
        }

        let v = u8to64_le(msg, i, left);
        proof {
            let q: nat = (len - left) as nat / 8;
            assert(i == needed + len - left);
            assert(mm.len() == 8 * (wbase + q) + left);
            assert(mm.len() / 8 == wbase + q);
            assert(sip_tail(mm) =~= msg@.subrange(i as int, i + left));
        }
        self.tail = v;
        self.ntail = left;
        self.length = self.length + length;
        self.msg = Ghost(mm);
    }

    // A specialized write function for values with size <= 8: feeds the
    // `size` low bytes of `x`, least significant first.
    #[verifier::rlimit(30)]
    fn short_write(&mut self, x: u64, size: usize)
        requires
            old(self).wf(),
            1 <= size <= 8,
            x < pow256(size as nat),
            old(self)@.len() + size <= usize::MAX,
        ensures
            final(self).wf(),
            final(self)@ == old(self)@ + le_bytes(x as int, size as nat),
            final(self).key0() == old(self).key0(),
            final(self).key1() == old(self).key1(),
    {
        let ghost m0 = self.msg@;
        let ghost xb = le_bytes(x as int, size as nat);
        let ghost mm = m0 + xb;
        let ghost w0: nat = m0.len() / 8;
        let ghost init = sip_init(self.k0, self.k1);
        let ghost t: nat = self.ntail as nat;
        proof {
            lemma_le_value_bound(sip_tail(m0));
            lemma_le_bytes_value(x as int, size as nat);
            assert(mm.take(8 * w0 as int) =~= m0.take(8 * w0 as int));
            lemma_absorb_prefix(init, m0, mm, w0);
            lemma_or_shl(self.tail, x, t);
        }
        self.length = self.length + size;

        // The number of bytes needed to fill `self.tail`.
        let needed = 8 - self.ntail;

        self.tail = self.tail | (x << (8 * self.ntail as u64));
        if size < needed {
            proof {
                lemma_pow256_mono(size as nat, (8 - t) as nat);
                vstd::arithmetic::div_mod::lemma_small_mod(x as nat, pow256((8 - t) as nat) as nat);
                assert(mm.len() / 8 == w0);
                assert(sip_tail(mm) =~= sip_tail(m0) + xb);
                lemma_le_value_concat(sip_tail(m0), xb);
            }
            self.ntail = self.ntail + size;
            self.msg = Ghost(mm);
            return;
        }
        proof {
            let p = pow256(needed as nat);
            lemma_pow256_pos(needed as nat);
            lemma_le_bytes_split(x as int, size as nat, needed as nat);
            vstd::arithmetic::div_mod::lemma_mod_pos_bound(x as int, p);
            lemma_le_bytes_value(x as int % p, needed as nat);
            lemma_le_value_concat(sip_tail(m0), xb.take(needed as int));
            assert(mm.subrange(8 * w0 as int, 8 * w0 as int + 8) =~= sip_tail(m0) + xb.take(
                needed as int,
            ));
        }

        // `self.tail` is full, process it.
        let t = self.tail;
        self.state.compress(t);

        self.ntail = size - needed;
        self.tail = if needed < 8 {
            x >> (8 * needed as u64)
        } else {
            0
        };
        proof {
            let p = pow256(needed as nat);
            let rest = (size - needed) as nat;
            lemma_pow256_adds(needed as nat, rest);
            lemma_pow256_pos(needed as nat);
            if needed < 8 {
                lemma_shr_bytes(x, needed as nat);
            } else {
                lemma_pow256_values();
            }
            vstd::arithmetic::div_mod::lemma_multiply_divide_lt(x as int, p, pow256(rest));
            vstd::arithmetic::div_mod::lemma_div_pos_is_pos(x as int, p);
            lemma_le_bytes_value(x as int / p, rest);
            assert(mm.len() / 8 == w0 + 1);
            assert(sip_tail(mm) =~= xb.skip(needed as int));
        }
        self.msg = Ghost(mm);
    }

    /// Feeds one byte.
    #[inline]
    pub fn write_u8(&mut self, i: u8)
        requires
            old(self).wf(),
            old(self)@.len() + 1 <= usize::MAX,
        ensures
            final(self).wf(),
            final(self)@ == old(self)@ + le_bytes(i as int, 1),
            final(self).key0() == old(self).key0(),
            final(self).key1() == old(self).key1(),
    {
        proof {
            lemma_pow256_values();
        }
        self.short_write(i as u64, 1);
    }

    /// Feeds the two bytes of `i`, least significant first.
    #[inline]
    pub fn write_u16(&mut self, i: u16)
        requires
            old(self).wf(),
            old(self)@.len() + 2 <= usize::MAX,
        ensures
            final(self).wf(),
            final(self)@ == old(self)@ + le_bytes(i as int, 2),
            final(self).key0() == old(self).key0(),
            final(self).key1() == old(self).key1(),
    {
        proof {
            lemma_pow256_values();
        }
        self.short_write(i as u64, 2);
    }

    /// Feeds the four bytes of `i`, least significant first.
    #[inline]
    pub fn write_u32(&mut self, i: u32)
        requires
            old(self).wf(),
            old(self)@.len() + 4 <= usize::MAX,
        ensures
            final(self).wf(),
            final(self)@ == old(self)@ + le_bytes(i as int, 4),
            final(self).key0() == old(self).key0(),
            final(self).key1() == old(self).key1(),
    {
        proof {
            lemma_pow256_values();
        }
        self.short_write(i as u64, 4);
    }

    /// Feeds the eight bytes of `i`, least significant first.
    #[inline]
    pub fn write_u64(&mut self, i: u64)
        requires
            old(self).wf(),
            old(self)@.len() + 8 <= usize::MAX,
        ensures
            final(self).wf(),
            final(self)@ == old(self)@ + le_bytes(i as int, 8),
            final(self).key0() == old(self).key0(),
            final(self).key1() == old(self).key1(),
    {
        proof {
            lemma_pow256_values();
        }
        self.short_write(i, 8);
    }

    /// Feeds the sixteen bytes of `i`, least significant first.
    #[inline]
    pub fn write_u128(&mut self, i: u128)
        requires
            old(self).wf(),
            old(self)@.len() + 16 <= usize::MAX,
        ensures
            final(self).wf(),
            final(self)@ == old(self)@ + le_bytes(i as int, 16),
            final(self).key0() == old(self).key0(),
            final(self).key1() == old(self).key1(),
    {
        let bytes = u128_le_bytes(i);
        self.write(&bytes);
    }

    /// Feeds the bytes of `i`, least significant first.
    #[inline]
    pub fn write_usize(&mut self, i: usize)
        requires
            old(self).wf(),
            old(self)@.len() + usize_bytes() <= usize::MAX,
        ensures
            final(self).wf(),
            final(self)@ == old(self)@ + le_bytes(i as int, usize_bytes()),
            final(self).key0() == old(self).key0(),
            final(self).key1() == old(self).key1(),
    {
        proof {
            lemma_pow256_values();
        }
        let size = (usize::BITS / 8) as usize;
        self.short_write(i as u64, size);
    }

    /// Feeds the byte of `i` in two's complement.
    #[inline]
    pub fn write_i8(&mut self, i: i8)
        requires
            old(self).wf(),
            old(self)@.len() + 1 <= usize::MAX,
        ensures
            final(self).wf(),
            final(self)@ == old(self)@ + le_bytes((i as u8) as int, 1),
            final(self).key0() == old(self).key0(),
            final(self).key1() == old(self).key1(),
    {
        self.write_u8(i as u8)
    }

    /// Feeds the two bytes of `i` in two's complement, least significant first.
    #[inline]
    pub fn write_i16(&mut self, i: i16)
        requires
            old(self).wf(),
            old(self)@.len() + 2 <= usize::MAX,
        ensures
            final(self).wf(),
            final(self)@ == old(self)@ + le_bytes((i as u16) as int, 2),
            final(self).key0() == old(self).key0(),
            final(self).key1() == old(self).key1(),
    {
        self.write_u16(i as u16)
    }

    /// Feeds the four bytes of `i` in two's complement, least significant first.
    #[inline]
    pub fn write_i32(&mut self, i: i32)
        requires
            old(self).wf(),
            old(self)@.len() + 4 <= usize::MAX,
        ensures
            final(self).wf(),
            final(self)@ == old(self)@ + le_bytes((i as u32) as int, 4),
            final(self).key0() == old(self).key0(),
            final(self).key1() == old(self).key1(),
    {
        self.write_u32(i as u32)
    }

    /// Feeds the eight bytes of `i` in two's complement, least significant first.
    #[inline]
    pub fn write_i64(&mut self, i: i64)
        requires
            old(self).wf(),
            old(self)@.len() + 8 <= usize::MAX,
        ensures
            final(self).wf(),
            final(self)@ == old(self)@ + le_bytes((i as u64) as int, 8),
            final(self).key0() == old(self).key0(),
            final(self).key1() == old(self).key1(),
    {
        self.write_u64(i as u64)
    }

    /// Feeds the sixteen bytes of `i` in two's complement, least significant first.
    #[inline]
    pub fn write_i128(&mut self, i: i128)
        requires
            old(self).wf(),
            old(self)@.len() + 16 <= usize::MAX,
        ensures
            final(self).wf(),
            final(self)@ == old(self)@ + le_bytes((i as u128) as int, 16),
            final(self).key0() == old(self).key0(),
            final(self).key1() == old(self).key1(),
    {
        self.write_u128(i as u128)
    }

    /// Feeds the bytes of `i` in two's complement, least significant first.
    #[inline]
    pub fn write_isize(&mut self, i: isize)
        requires
            old(self).wf(),
            old(self)@.len() + usize_bytes() <= usize::MAX,
        ensures
            final(self).wf(),
            final(self)@ == old(self)@ + le_bytes((i as usize) as int, usize_bytes()),
            final(self).key0() == old(self).key0(),
            final(self).key1() == old(self).key1(),
    {
        self.write_usize(i as usize)
    }

    /// The second half of the 128-bit hash.
    #[inline]
    pub fn finish(&self) -> (r: u64)
        requires
            self.wf(),
        ensures
            r == sip13_128(self.key0(), self.key1(), self@).h2,
    {
        self.finish128().h2
    }
}


/// The number of bytes of a `usize`.
pub open spec fn usize_bytes() -> nat {
    (usize::BITS / 8) as nat
}

/// The sixteen bytes of `i`, least significant first.
fn u128_le_bytes(i: u128) -> (bytes: [u8; 16])
    ensures
        bytes@ == le_bytes(i as int, 16),
{
    let mut bytes = [0u8; 16];
    let mut k: usize = 0;
    while k < 16
        invariant
            k <= 16,
            bytes@.len() == 16,
            forall|j: int| 0 <= j < k ==> bytes@[j] == le_bytes(i as int, 16)[j],
        decreases 16 - k,
    {
        let v = i >> (8 * k as u128);
        proof {
            lemma_u128_shr_bytes(i, k as nat);
        }
        bytes[k] = (v & 0xff) as u8;
        proof {
            assert((v & 0xff) as u8 == (v % 256) as u8) by (bit_vector);
        }
        k = k + 1;
    }
    assert(bytes@ =~= le_bytes(i as int, 16));
    bytes
}

/// `i >> 8k` is `i / 256^k`.
pub proof fn lemma_u128_shr_bytes(i: u128, k: nat)
    requires
        k < 16,
    ensures
        (i >> (8 * k) as u128) as int == i as int / pow256(k),
    decreases k,
{
    if k == 0 {
        assert(i >> 0u128 == i) by (bit_vector);
        assert((8 * k) as u128 == 0);
        assert(pow256(0) == 1);
    } else {
        lemma_u128_shr_bytes(i, (k - 1) as nat);
        let s = (8 * (k - 1)) as u128;
        assert(s < 120);
        assert((i >> (s + 8)) == (i >> s) / 256) by (bit_vector)
            requires
                s < 120,
        ;
        lemma_pow256_pos((k - 1) as nat);
        vstd::arithmetic::div_mod::lemma_div_denominator(i as int, pow256((k - 1) as nat), 256);
        assert(pow256(k) == 256 * pow256((k - 1) as nat));
        assert(pow256((k - 1) as nat) * 256 == 256 * pow256((k - 1) as nat));
        assert((8 * k) as u128 == s + 8);
        assert(((i >> s) / 256) as int == (i >> s) as int / 256);
        assert((i >> (s + 8)) as int == (i as int / pow256((k - 1) as nat)) / 256);
        assert(i as int / pow256(k) == (i as int / pow256((k - 1) as nat)) / 256);
    }
}

/// SipHash's four state words, as a tuple.
pub type SipWords = (u64, u64, u64, u64);

/// The SipRound of the SipHash paper, on four words.
pub open spec fn siphash_round(v: SipWords) -> SipWords {
    let (v0, v1, v2, v3) = v;
    let v0 = u64_specs::wrapping_add(v0, v1);
    let v1 = (v1 << 13u64) | (v1 >> 51u64);
    let v1 = v1 ^ v0;
    let v0 = (v0 << 32u64) | (v0 >> 32u64);
    let v2 = u64_specs::wrapping_add(v2, v3);
    let v3 = (v3 << 16u64) | (v3 >> 48u64);
    let v3 = v3 ^ v2;
    let v0 = u64_specs::wrapping_add(v0, v3);
    let v3 = (v3 << 21u64) | (v3 >> 43u64);
    let v3 = v3 ^ v0;
    let v2 = u64_specs::wrapping_add(v2, v1);
    let v1 = (v1 << 17u64) | (v1 >> 47u64);
    let v1 = v1 ^ v2;
    let v2 = (v2 << 32u64) | (v2 >> 32u64);
    (v0, v1, v2, v3)
}

/// Three SipRounds.
pub open spec fn siphash_rounds3(v: SipWords) -> SipWords {
    siphash_round(siphash_round(siphash_round(v)))
}

/// The message as SipHash reads it: zero bytes up to one short of a
/// multiple of 8, then the length modulo 256.
pub open spec fn siphash_padded(m: Seq<u8>) -> Seq<u8> {
    m + Seq::new((7 - m.len() % 8) as nat, |_i: int| 0u8) + seq![(m.len() % 256) as u8]
}

/// The `i`th little-endian 8-byte word of `p`.
pub open spec fn siphash_word(p: Seq<u8>, i: int) -> u64 {
    le_value(p.subrange(8 * i, 8 * i + 8)) as u64
}

/// The words after the first `n` words of `p` went in, one SipRound each.
pub open spec fn siphash_absorb(v: SipWords, p: Seq<u8>, n: nat) -> SipWords
    decreases n,
{
    if n == 0 {
        v
    } else {
        let v = siphash_absorb(v, p, (n - 1) as nat);
        let w = siphash_word(p, n - 1);
        let t = siphash_round((v.0, v.1, v.2, v.3 ^ w));
        (t.0 ^ w, t.1, t.2, t.3)
    }
}

/// SipHash-1-3 with a 128-bit output, as the SipHash paper defines it: the
/// keys load the words ("somepseudorandomlygeneratedbytes", the second
/// xor-ed with `0xee` for the 128-bit output), each word of the padded
/// message goes in with one round, then `0xee` into the third word and
/// three rounds give the low half, `0xdd` into the second word and three
/// more rounds the high half.
pub open spec fn siphash13_reference(k0: u64, k1: u64, m: Seq<u8>) -> Hash128 {
    let v = (k0 ^ 0x736f6d6570736575, k1 ^ 0x646f72616e646f83, k0 ^ 0x6c7967656e657261, k1 ^ 0x7465646279746573);
    let p = siphash_padded(m);
    let v = siphash_absorb(v, p, p.len() / 8);
    let v = siphash_rounds3((v.0, v.1, v.2 ^ 0xee, v.3));
    let h1 = v.0 ^ v.1 ^ v.2 ^ v.3;
    let v = siphash_rounds3((v.0, v.1 ^ 0xdd, v.2, v.3));
    let h2 = v.0 ^ v.1 ^ v.2 ^ v.3;
    Hash128 { h1, h2 }
}

/// The words of a state, as a tuple.
pub open spec fn state_words(s: State) -> SipWords {
    (s.v0, s.v1, s.v2, s.v3)
}

proof fn lemma_round_words(s: State)
    ensures
        siphash_round(state_words(s)) == state_words(sip_round(s)),
{
}

proof fn lemma_absorb_words(s: State, m: Seq<u8>, n: nat)
    requires
        8 * n <= m.len(),
    ensures
        siphash_absorb(state_words(s), siphash_padded(m), n) == state_words(absorb_words(s, m, n)),
    decreases n,
{
    if n > 0 {
        lemma_absorb_words(s, m, (n - 1) as nat);
        let p = siphash_padded(m);
        assert(p.subrange(8 * (n - 1), 8 * n as int) =~= m.subrange(8 * (n - 1), 8 * n as int));
        let w = siphash_word(p, n - 1);
        let prev = absorb_words(s, m, (n - 1) as nat);
        lemma_round_words(State { v3: prev.v3 ^ w, ..prev });
    }
}

/// The last padded word is the final block: the tail bytes with the length
/// modulo 256 in the top byte.
proof fn lemma_last_word(m: Seq<u8>)
    ensures
        siphash_padded(m).len() == 8 * (m.len() / 8 + 1),
        siphash_word(siphash_padded(m), (m.len() / 8) as int) == sip_last_block(m),
{
    let n = (m.len() / 8) as int;
    let r = m.len() % 8;
    let p = siphash_padded(m);
    let tail = sip_tail(m);
    let zeros = Seq::new((7 - r) as nat, |_i: int| 0u8);
    let len_byte = (m.len() % 256) as u8;
    assert(p.subrange(8 * n, 8 * n + 8) =~= tail + zeros + seq![len_byte]);
    lemma_le_value_concat(tail + zeros, seq![len_byte]);
    lemma_le_value_concat(tail, zeros);
    assert(le_value(zeros) == 0) by {
        lemma_le_value_zeros((7 - r) as nat);
    }
    assert(le_value(seq![len_byte]) == len_byte as int) by {
        assert(seq![len_byte].drop_first() =~= Seq::<u8>::empty());
        assert(le_value(Seq::<u8>::empty()) == 0);
        assert(seq![len_byte][0] == len_byte);
    }
    lemma_le_value_bound(tail);
    lemma_pow256_adds(r as nat, (7 - r) as nat);
    lemma_pow256_mono(r as nat, 7);
    lemma_pow256_values();
    let t = le_value(tail);
    let l = len_byte as u64;
    assert(le_value(p.subrange(8 * n, 8 * n + 8)) == t + 0x100_0000_0000_0000 * l);
    let tw = t as u64;
    assert((l << 56u64) | tw == tw + 0x100_0000_0000_0000 * l) by (bit_vector)
        requires
            tw < 0x100_0000_0000_0000,
            l < 0x100,
    ;
}

proof fn lemma_le_value_zeros(k: nat)
    ensures
        le_value(Seq::new(k, |_i: int| 0u8)) == 0,
    decreases k,
{
    if k > 0 {
        assert(Seq::new(k, |_i: int| 0u8).drop_first() =~= Seq::new((k - 1) as nat, |_i: int| 0u8));
        lemma_le_value_zeros((k - 1) as nat);
    }
}

/// The hash that `finish128` gives is SipHash-1-3 as the paper defines it,
/// on every message: the words of the message padded with zeros and its
/// length modulo 256, one round each, then the finalization.
pub proof fn law_sip13_is_reference(k0: u64, k1: u64, m: Seq<u8>)
    ensures
        sip13_128(k0, k1, m) == siphash13_reference(k0, k1, m),
{
    let n = m.len() / 8;
    let s0 = sip_init(k0, k1);
    let p = siphash_padded(m);
    lemma_last_word(m);
    lemma_absorb_words(s0, m, n);
    let s = absorb_words(s0, m, n);
    let w = sip_last_block(m);
    assert(p.len() / 8 == n + 1);
    lemma_round_words(State { v3: s.v3 ^ w, ..s });
    let c = sip_compress(s, w);
    let a = State { v2: c.v2 ^ 0xee, ..c };
    lemma_round_words(a);
    lemma_round_words(sip_round(a));
    lemma_round_words(sip_round(sip_round(a)));
    let d = sip_d_rounds(a);
    let b = State { v1: d.v1 ^ 0xdd, ..d };
    lemma_round_words(b);
    lemma_round_words(sip_round(b));
    lemma_round_words(sip_round(sip_round(b)));
}

} // verus!
