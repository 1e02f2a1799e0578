use phf::builder::MapBuilder;
use phf::map::PhfMap;
use phf::shared::{PhfBorrow, PhfEq, PhfHash};

fn check_keys<K: PhfHash + PhfEq + PhfBorrow<K> + Copy + std::fmt::Debug>(keys: &[K]) {
    let mut builder = MapBuilder::new();
    for (i, k) in keys.iter().enumerate() {
        builder.entry(*k, i as isize);
    }
    let map: PhfMap<K, isize> = builder.build().unwrap();
    for (i, k) in keys.iter().enumerate() {
        assert_eq!(Some(&(i as isize)), map.get(k));
    }
}

#[test]
fn test_test_byte_keys() {
    check_keys::<u8>(&[b'a', b'b']);
}

#[test]
fn test_test_char_keys() {
    check_keys::<char>(&['a', 'b']);
}

#[test]
fn test_test_i8_keys() {
    check_keys::<i8>(&[0i8, 1i8, 127i8, -128i8]);
}

#[test]
fn test_test_i16_keys() {
    check_keys::<i16>(&[0i16, 1i16, 32767i16, -32768i16]);
}

#[test]
fn test_test_i32_keys() {
    check_keys::<i32>(&[0i32, 1i32, 2147483647i32, -2147483648i32]);
}

#[test]
fn test_test_i64_keys() {
    check_keys::<i64>(&[0i64, 1i64, -9223372036854775808i64]);
}

#[test]
fn test_i128_keys() {
    check_keys::<i128>(&[0i128, 1i128, 170141183460469231731687303715884105727i128, -170141183460469231731687303715884105727i128]);
}

#[test]
fn test_isize_keys() {
    check_keys::<isize>(&[0isize, 1isize, isize::MAX, isize::MIN]);
}

#[test]
fn test_test_u8_keys() {
    check_keys::<u8>(&[0u8, 1u8, 255u8]);
}

#[test]
fn test_test_u16_keys() {
    check_keys::<u16>(&[0u16, 1u16, 65535u16]);
}

#[test]
fn test_test_u32_keys() {
    check_keys::<u32>(&[0u32, 1u32, 4294967295u32]);
}

#[test]
fn test_test_u64_keys() {
    check_keys::<u64>(&[0u64, 1u64, 18446744073709551615u64]);
}

#[test]
fn test_u128_keys() {
    check_keys::<u128>(&[0u128, 1u128, 340282366920938463463374607431768211455u128]);
}

#[test]
fn test_usize_keys() {
    check_keys::<usize>(&[0usize, 1usize, usize::MAX]);
}

#[test]
fn test_test_bool_keys() {
    check_keys::<bool>(&[false, true]);
}
