use phf::foldhash::{fast, quality};

// An independent model of foldhash, written plainly, to compare against.
const A0: u64 = 0x243f6a8885a308d3;
const A3: u64 = 0x082efa98ec4e6c89;
const A8: u64 = 0x9216d5d98979fb1b;
const GLOBAL: [u64; 4] = [
    0x452821e638d01377,
    0xbe5466cf34e90c6c,
    0xc0ac29b7c97c50dd,
    0x3f84d5b5b5470917,
];

fn fm(x: u64, y: u64) -> u64 {
    let full = (x as u128) * (y as u128);
    (full as u64) ^ ((full >> 64) as u64)
}

fn rd64(b: &[u8], i: usize) -> u64 {
    u64::from_le_bytes(b[i..i + 8].try_into().unwrap())
}

fn medium(bytes: &[u8], mut s0: u64, mut s1: u64, fs: u64) -> u64 {
    let len = bytes.len();
    let mut i = 0;
    while 32 * i < len {
        let lo = 16 * i;
        let hi = len - 16 * i - 16;
        s0 = fm(rd64(bytes, lo) ^ s0, rd64(bytes, hi) ^ fs);
        s1 = fm(rd64(bytes, lo + 8) ^ s1, rd64(bytes, hi + 8) ^ fs);
        i += 1;
    }
    s0 ^ s1
}

fn long(bytes: &[u8], s: [u64; 4], fs: u64) -> u64 {
    let mut s = s;
    let n = bytes.len() / 64;
    for c in 0..n {
        let o = 64 * c;
        for k in 0..4 {
            s[k] = fm(rd64(bytes, o + 8 * k) ^ s[k], rd64(bytes, o + 32 + 8 * k) ^ fs);
        }
    }
    let t0 = s[0] ^ s[2];
    let t1 = s[1] ^ s[3];
    let rem = bytes.len() % 64;
    if rem > 0 {
        let take = rem.max(16);
        medium(&bytes[bytes.len() - take..], t0, t1, fs)
    } else {
        t0 ^ t1
    }
}

fn model_write(acc: u64, bytes: &[u8]) -> u64 {
    let len = bytes.len();
    let (mut s0, mut s1) = (acc, GLOBAL[1]);
    if len <= 16 {
        if len >= 8 {
            s0 ^= rd64(bytes, 0);
            s1 ^= rd64(bytes, len - 8);
        } else if len >= 4 {
            s0 ^= u32::from_le_bytes(bytes[0..4].try_into().unwrap()) as u64;
            s1 ^= u32::from_le_bytes(bytes[len - 4..].try_into().unwrap()) as u64;
        } else if len > 0 {
            s0 ^= bytes[0] as u64;
            s1 ^= ((bytes[len - 1] as u64) << 8) | bytes[len / 2] as u64;
        }
        fm(s0, s1)
    } else if len < 256 {
        medium(bytes, s0, s1, GLOBAL[0])
    } else {
        long(bytes, [s0, s1, GLOBAL[2], GLOBAL[3]], GLOBAL[0])
    }
}

fn sample(n: usize) -> Vec<u8> {
    (0..n).map(|i| (i * 31 + 7) as u8).collect()
}

#[test]
fn fast_write_matches_model_for_all_lengths() {
    for len in 0..600 {
        let bytes = sample(len);
        let mut h = fast::FixedState::with_seed(5).build_hasher();
        h.write(&bytes);
        assert_eq!(h.finish(), model_write(5 ^ A3, &bytes), "length {}", len);
    }
}

#[test]
fn fast_integers_fill_then_fold_the_sponge() {
    let mut h = fast::FixedState::with_seed(9).build_hasher();
    h.write_u64(1);
    h.write_u32(2);
    h.write_u16(3);
    h.write_u8(4);
    // 64 + 32 + 16 + 8 bits fit in the sponge
    let sponge: u128 = 1 | (2u128 << 64) | (3u128 << 96) | (4u128 << 112);
    let acc = 9 ^ A3;
    let expected = fm((sponge as u64) ^ acc, ((sponge >> 64) as u64) ^ GLOBAL[0]);
    assert_eq!(h.finish(), expected);

    // the next 64 bits do not fit: the sponge is folded first
    h.write_usize(77);
    let acc2 = expected;
    let expected2 = fm(77 ^ acc2, 0 ^ GLOBAL[0]);
    assert_eq!(h.finish(), expected2);
}

#[test]
fn fast_write_u128_folds_directly() {
    let mut h = fast::FixedState::default().build_hasher();
    let i: u128 = (0x1234u128 << 64) | 0x5678;
    h.write_u128(i);
    assert_eq!(h.finish(), fm(0x5678 ^ A3, 0x1234 ^ GLOBAL[0]));
}

#[test]
fn empty_hasher_finishes_with_its_seed() {
    let h = fast::FixedState::with_seed(42).build_hasher();
    assert_eq!(h.finish(), 42 ^ A3);
}

#[test]
fn with_seed_zero_is_default() {
    let a = fast::FixedState::with_seed(0).build_hasher();
    let b = fast::FixedState::default().build_hasher();
    assert_eq!(a.finish(), b.finish());
    let mut c = quality::FixedState::with_seed(0).build_hasher();
    let mut d = quality::FixedState::default().build_hasher();
    c.write(b"hello");
    d.write(b"hello");
    assert_eq!(c.finish(), d.finish());
}

#[test]
fn quality_folds_the_seed_and_the_result() {
    let seed = 12345;
    let mut q = quality::FixedState::with_seed(seed).build_hasher();
    q.write(b"hello world, this is long enough");
    let inner_seed = fm(seed, A8) ^ A3;
    assert_eq!(q.finish(), fm(model_write(inner_seed, b"hello world, this is long enough"), A0));
    assert_ne!(
        quality::FixedState::with_seed(1).build_hasher().finish(),
        quality::FixedState::with_seed(2).build_hasher().finish()
    );
}
