use phf::hasher::PortableSipHasher;
use phf::shared::Hasher;
use phf::siphasher::SipHasher13;

#[test]
fn portable_hasher_forwards_to_inner() {
    let mut p = PortableSipHasher::new(SipHasher13::new_with_keys(1, 2));
    p.write(b"key");
    p.write_u32(0x0102_0304);
    p.write_u16(7);
    p.write_u64(u64::MAX);

    let mut s = SipHasher13::new_with_keys(1, 2);
    s.write(b"key");
    s.write(&[4, 3, 2, 1]);
    s.write(&[7, 0]);
    s.write(&[0xff; 8]);

    assert_eq!(p.finish128().as_bytes(), s.finish128().as_bytes());
    assert_eq!(p.finish(), s.finish());
}

#[test]
fn portable_hasher_writes_integers_little_endian() {
    let mut a = PortableSipHasher::new(SipHasher13::new_with_keys(0, 0));
    a.write_u128(1);
    a.write_usize(2);
    a.write_u8(3);
    let mut b = SipHasher13::new_with_keys(0, 0);
    let mut bytes = vec![1u8];
    bytes.extend_from_slice(&[0; 15]);
    bytes.extend_from_slice(&2usize.to_le_bytes());
    bytes.push(3);
    b.write(&bytes);
    assert_eq!(a.finish(), b.finish());
}
