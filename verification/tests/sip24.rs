use phf::sip24::shared::{displace, PhfHash};
use std::hash::Hasher;

fn sip24(k0: u64, k1: u64, bytes: &[u8]) -> u64 {
    let mut h = siphasher::sip::SipHasher::new_with_keys(k0, k1);
    h.write(bytes);
    h.finish()
}

fn split(h: u64) -> (u32, u32, u32) {
    let mask = (1u64 << 21) - 1;
    ((h & mask) as u32, ((h >> 21) & mask) as u32, ((h >> 42) & mask) as u32)
}

#[test]
fn str_keys_hash_their_bytes_and_a_terminator() {
    let s: &str = "hello";
    assert_eq!(s.phf_hash(7), split(sip24(0, 7, b"hello\xff")));
    let mut std_hasher = siphasher::sip::SipHasher::new_with_keys(0, 7);
    std::hash::Hash::hash("hello", &mut std_hasher);
    assert_eq!(s.phf_hash(7), split(std_hasher.finish()));
}

#[test]
fn byte_keys_hash_their_bytes() {
    let b: &[u8] = b"abc";
    assert_eq!(b.phf_hash(3), split(sip24(0, 3, b"abc")));
}

#[test]
fn integer_keys_hash_their_little_endian_bytes() {
    assert_eq!(0x0102_0304u32.phf_hash(1), split(sip24(0, 1, &[4, 3, 2, 1])));
    assert_eq!((-1i16).phf_hash(1), split(sip24(0, 1, &[0xff, 0xff])));
    assert_eq!('a'.phf_hash(2), split(sip24(0, 2, &[97, 0, 0, 0])));
    assert_eq!(true.phf_hash(2), split(sip24(0, 2, &[1])));
    let (a, b, c) = 99u64.phf_hash(5);
    assert!(a < 1 << 21 && b < 1 << 21 && c < 1 << 21);
}

#[test]
fn displace_wraps() {
    assert_eq!(displace(2, 3, 4, 5), 5 + 2 * 4 + 3);
    assert_eq!(displace(u32::MAX, 1, 2, 0), u32::MAX.wrapping_mul(2).wrapping_add(1));
    assert_eq!(phf::sip24::keyed::displace(usize::MAX, 0, 1, 1), 0);
    assert_eq!(phf::sip24::keyed::displace(3, 4, 5, 6), 6 + 15 + 4);
}

#[test]
fn two_key_hash_splits_into_words() {
    let (a, b, c) = phf::sip24::keyed::hash("key", 11, 22);
    let h = sip24(11, 22, b"key");
    let mask = (1u64 << 21) - 1;
    assert_eq!(a as u64, h & mask);
    assert_eq!(b as u64, (h >> 21) & mask);
    assert_eq!(c as u64, (h >> 42) & mask);
}
