//! Foldhash: a fast hash built on the folded multiply, with a hasher
//! optimized for speed and one optimized for quality.
use vstd::prelude::*;
use crate::siphasher::{load_le, le_value};

pub mod fast;
pub mod quality;

verus! {

// Arbitrary constants with high entropy. Hexadecimal digits of pi were used.
pub const ARBITRARY0: u64 = 0x243f6a8885a308d3;
pub const ARBITRARY3: u64 = 0x082efa98ec4e6c89;
pub const ARBITRARY4: u64 = 0x452821e638d01377;
pub const ARBITRARY5: u64 = 0xbe5466cf34e90c6c;
pub const ARBITRARY6: u64 = 0xc0ac29b7c97c50dd;
pub const ARBITRARY7: u64 = 0x3f84d5b5b5470917;
pub const ARBITRARY8: u64 = 0x9216d5d98979fb1b;

/// The full product of `x` and `y`, its low and high halves xor-ed.
pub open spec fn spec_folded_multiply(x: u64, y: u64) -> u64 {
    let full = (x as int * y as int) as u128;
    (full as u64) ^ ((full >> 64u128) as u64)
}

pub(crate) fn folded_multiply(x: u64, y: u64) -> (r: u64)
    ensures
        r == spec_folded_multiply(x, y),
{
    // We compute the full u64 x u64 -> u128 product, this is a single mul
    // instruction on x86-64, one mul plus one mulhi on ARM64.
    proof {
        assert(x as int * y as int <= 0xffff_ffff_ffff_ffff * 0xffff_ffff_ffff_ffff) by (nonlinear_arith)
            requires
                x <= 0xffff_ffff_ffff_ffffu64,
                y <= 0xffff_ffff_ffff_ffffu64,
        ;
        assert(0 <= x as int * y as int) by (nonlinear_arith);
    }
    let full = (x as u128) * (y as u128);
    let lo = full as u64;
    let hi = (full >> 64) as u64;

    // The middle bits of the full product fluctuate the most with small
    // changes in the input. This is the top bits of lo and the bottom bits
    // of hi. We can thus make the entire output fluctuate with small
    // changes to the input by XOR'ing these two halves.
    lo ^ hi
}

/// The eight bytes of `bytes` from `off`, read little-endian.
pub open spec fn read_u64(bytes: Seq<u8>, off: int) -> u64 {
    le_value(bytes.subrange(off, off + 8)) as u64
}

/// The four bytes of `bytes` from `off`, read little-endian.
pub open spec fn read_u32(bytes: Seq<u8>, off: int) -> u64 {
    le_value(bytes.subrange(off, off + 4)) as u64
}

/// The rounds of `hash_bytes_medium` from round `i` on: round `i` folds
/// the 16 bytes at `16 i` with the 16 bytes ending `16 i` before the end,
/// while the first of these start before the end of the second.
pub open spec fn medium_rounds(bytes: Seq<u8>, s0: u64, s1: u64, fold_seed: u64, i: nat) -> (u64, u64)
    decreases bytes.len() + 32 - 32 * i,
{
    if 32 * i >= bytes.len() {
        (s0, s1)
    } else {
        let lo = 16 * i as int;
        let hi = bytes.len() - 16 * i as int - 16;
        let a = read_u64(bytes, lo);
        let b = read_u64(bytes, lo + 8);
        let c = read_u64(bytes, hi);
        let d = read_u64(bytes, hi + 8);
        medium_rounds(
            bytes,
            spec_folded_multiply(a ^ s0, c ^ fold_seed),
            spec_folded_multiply(b ^ s1, d ^ fold_seed),
            fold_seed,
            i + 1,
        )
    }
}

/// Foldhash of at least 16 bytes, starting from `s0` and `s1`.
pub open spec fn spec_hash_bytes_medium(bytes: Seq<u8>, s0: u64, s1: u64, fold_seed: u64) -> u64 {
    let r = medium_rounds(bytes, s0, s1, fold_seed, 0);
    r.0 ^ r.1
}

/// Hashes strings >= 16 bytes, has unspecified behavior when bytes.len() < 16.
pub(crate) fn hash_bytes_medium(bytes: &[u8], s0: u64, s1: u64, fold_seed: u64) -> (r: u64)
    requires
        bytes@.len() >= 16,
    ensures
        r == spec_hash_bytes_medium(bytes@, s0, s1, fold_seed),
{
    // Process 32 bytes per iteration, 16 bytes from the start, 16 bytes from
    // the end. On the last iteration these two chunks can overlap, but that is
    // perfectly fine.
    let ghost b = bytes@;
    let ghost first = (s0, s1);
    let len = bytes.len();
    let mut s0 = s0;
    let mut s1 = s1;
    let mut start: usize = 0;
    let mut end: usize = len;
    let ghost mut i: nat = 0;
    while start < end
        invariant
            b == bytes@,
            len == b.len(),
            len >= 16,
            start == 16 * i,
            end == len - 16 * i,
            medium_rounds(b, s0, s1, fold_seed, i) == medium_rounds(b, first.0, first.1, fold_seed, 0),
        decreases len - start,
    {
        assert(32 * i < len);
        assert(start + 16 <= len && end >= 16) by {
            if i > 0 {
                assert(16 * i >= 16);
            }
        }
        let a = load_le(bytes, start, 8);
        let bb = load_le(bytes, start + 8, 8);
        let c = load_le(bytes, end - 16, 8);
        let d = load_le(bytes, end - 8, 8);
        s0 = folded_multiply(a ^ s0, c ^ fold_seed);
        s1 = folded_multiply(bb ^ s1, d ^ fold_seed);
        start = start + 16;
        end = end - 16;
        proof {
            i = i + 1;
        }
    }
    s0 ^ s1
}

/// The rounds of `hash_bytes_long` from chunk `c` on: each 64-byte chunk
/// folds its eight words into the four lanes.
pub open spec fn long_rounds(bytes: Seq<u8>, s: (u64, u64, u64, u64), fold_seed: u64, c: nat) -> (u64, u64, u64, u64)
    decreases bytes.len() / 64 - c,
{
    if c >= bytes.len() / 64 {
        s
    } else {
        let off = 64 * c as int;
        let a = read_u64(bytes, off);
        let b = read_u64(bytes, off + 8);
        let cc = read_u64(bytes, off + 16);
        let d = read_u64(bytes, off + 24);
        let e = read_u64(bytes, off + 32);
        let f = read_u64(bytes, off + 40);
        let g = read_u64(bytes, off + 48);
        let h = read_u64(bytes, off + 56);
        long_rounds(
            bytes,
            (
                spec_folded_multiply(a ^ s.0, e ^ fold_seed),
                spec_folded_multiply(b ^ s.1, f ^ fold_seed),
                spec_folded_multiply(cc ^ s.2, g ^ fold_seed),
                spec_folded_multiply(d ^ s.3, h ^ fold_seed),
            ),
            fold_seed,
            c + 1,
        )
    }
}

/// Foldhash of at least 16 bytes with four lanes: the whole 64-byte chunks
/// go through the lanes, which are then paired; the rest, read as at least
/// its last 16 bytes, goes through the medium hash.
pub open spec fn spec_hash_bytes_long(
    bytes: Seq<u8>,
    s0: u64,
    s1: u64,
    s2: u64,
    s3: u64,
    fold_seed: u64,
) -> u64 {
    let r = long_rounds(bytes, (s0, s1, s2, s3), fold_seed, 0);
    let t0 = r.0 ^ r.2;
    let t1 = r.1 ^ r.3;
    let remainder = bytes.len() % 64;
    if remainder > 0 {
        let take = if remainder > 16 { remainder } else { 16 };
        spec_hash_bytes_medium(bytes.subrange(bytes.len() - take, bytes.len() as int), t0, t1, fold_seed)
    } else {
        t0 ^ t1
    }
}

/// Hashes strings >= 16 bytes, has unspecified behavior when bytes.len() < 16.
pub(crate) fn hash_bytes_long(bytes: &[u8], s0: u64, s1: u64, s2: u64, s3: u64, fold_seed: u64) -> (r: u64)
    requires
        bytes@.len() >= 16,
    ensures
        r == spec_hash_bytes_long(bytes@, s0, s1, s2, s3, fold_seed),
{
    let ghost b = bytes@;
    let ghost first = (s0, s1, s2, s3);
    let len = bytes.len();
    let chunks = len / 64;
    let remainder = len % 64;
    let mut s0 = s0;
    let mut s1 = s1;
    let mut s2 = s2;
    let mut s3 = s3;
    let mut c: usize = 0;
    while c < chunks
        invariant
            b == bytes@,
            len == b.len(),
            chunks == len / 64,
            c <= chunks,
            long_rounds(b, (s0, s1, s2, s3), fold_seed, c as nat) == long_rounds(b, first, fold_seed, 0),
        decreases chunks - c,
    {
        let off = 64 * c;
        assert(off + 64 <= len) by (nonlinear_arith)
            requires
                off == 64 * c,
                c < chunks,
                chunks == len / 64,
        ;
        let a = load_le(bytes, off, 8);
        let bb = load_le(bytes, off + 8, 8);
        let cc = load_le(bytes, off + 16, 8);
        let d = load_le(bytes, off + 24, 8);
        let e = load_le(bytes, off + 32, 8);
        let f = load_le(bytes, off + 40, 8);
        let g = load_le(bytes, off + 48, 8);
        let h = load_le(bytes, off + 56, 8);
        s0 = folded_multiply(a ^ s0, e ^ fold_seed);
        s1 = folded_multiply(bb ^ s1, f ^ fold_seed);
        s2 = folded_multiply(cc ^ s2, g ^ fold_seed);
        s3 = folded_multiply(d ^ s3, h ^ fold_seed);
        c = c + 1;
    }
    s0 = s0 ^ s2;
    s1 = s1 ^ s3;

    if remainder > 0 {
        let take = if remainder > 16 {
            remainder
        } else {
            16
        };
        let tail = vstd::slice::slice_subrange(bytes, len - take, len);
        hash_bytes_medium(tail, s0, s1, fold_seed)
    } else {
        s0 ^ s1
    }
}

/// The state of a foldhash hasher: the accumulator, the sponge of integers
/// written but not yet folded in (its first `sponge_len` bits), and the
/// seeds.
pub struct FoldState {
    pub accumulator: u64,
    pub sponge: u128,
    pub sponge_len: u8,
    pub fold_seed: u64,
    pub expand_seed: u64,
    pub expand_seed2: u64,
    pub expand_seed3: u64,
}

/// The accumulator with the sponge folded in.
pub open spec fn fold_sponge(s: FoldState) -> u64 {
    spec_folded_multiply((s.sponge as u64) ^ s.accumulator, ((s.sponge >> 64u128) as u64) ^ s.fold_seed)
}

/// A fresh state with the seed `per_hasher_seed` and the four global seeds.
pub open spec fn spec_with_seed(per_hasher_seed: u64, global_seed: Seq<u64>) -> FoldState {
    FoldState {
        accumulator: per_hasher_seed,
        sponge: 0,
        sponge_len: 0,
        fold_seed: global_seed[0],
        expand_seed: global_seed[1],
        expand_seed2: global_seed[2],
        expand_seed3: global_seed[3],
    }
}

/// Writes the `bits`-bit integer `x`: it goes into the sponge, which is
/// first folded into the accumulator and emptied when it has no room.
pub open spec fn spec_write_num(s: FoldState, x: u128, bits: u8) -> FoldState {
    if s.sponge_len as int + bits as int > 128 {
        FoldState {
            accumulator: fold_sponge(s),
            sponge: x,
            sponge_len: bits,
            fold_seed: s.fold_seed,
            expand_seed: s.expand_seed,
            expand_seed2: s.expand_seed2,
            expand_seed3: s.expand_seed3,
        }
    } else {
        FoldState {
            accumulator: s.accumulator,
            sponge: s.sponge | (x << s.sponge_len),
            sponge_len: (s.sponge_len + bits) as u8,
            fold_seed: s.fold_seed,
            expand_seed: s.expand_seed,
            expand_seed2: s.expand_seed2,
            expand_seed3: s.expand_seed3,
        }
    }
}

/// The accumulator after writing at most 16 bytes: they are xor-ed into
/// the accumulator and the expand seed, which are then folded together.
pub open spec fn spec_write_short(s: FoldState, bytes: Seq<u8>) -> u64 {
    let len = bytes.len() as int;
    let s0 = s.accumulator;
    let s1 = s.expand_seed;
    if len >= 8 {
        spec_folded_multiply(s0 ^ read_u64(bytes, 0), s1 ^ read_u64(bytes, len - 8))
    } else if len >= 4 {
        spec_folded_multiply(s0 ^ read_u32(bytes, 0), s1 ^ read_u32(bytes, len - 4))
    } else if len > 0 {
        spec_folded_multiply(
            s0 ^ (bytes[0] as u64),
            s1 ^ (((bytes[len - 1] as u64) << 8u64) | (bytes[len / 2] as u64)),
        )
    } else {
        spec_folded_multiply(s0, s1)
    }
}

/// Writes a byte string: it replaces the accumulator by its hash started
/// from the accumulator; the sponge is left as it is.
pub open spec fn spec_write(s: FoldState, bytes: Seq<u8>) -> FoldState {
    FoldState {
        accumulator: if bytes.len() <= 16 {
            spec_write_short(s, bytes)
        } else if bytes.len() < 256 {
            spec_hash_bytes_medium(bytes, s.accumulator, s.expand_seed, s.fold_seed)
        } else {
            spec_hash_bytes_long(
                bytes,
                s.accumulator,
                s.expand_seed,
                s.expand_seed2,
                s.expand_seed3,
                s.fold_seed,
            )
        },
        ..s
    }
}

/// Writes a 128-bit integer: its halves are folded straight into the
/// accumulator.
pub open spec fn spec_write_u128(s: FoldState, i: u128) -> FoldState {
    FoldState {
        accumulator: spec_folded_multiply((i as u64) ^ s.accumulator, ((i >> 64u128) as u64) ^ s.fold_seed),
        ..s
    }
}

/// The hash: the accumulator, with the sponge folded in if it holds bits.
pub open spec fn spec_finish(s: FoldState) -> u64 {
    if s.sponge_len > 0 {
        fold_sponge(s)
    } else {
        s.accumulator
    }
}

} // verus!
