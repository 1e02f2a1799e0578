use phf::ptrhash::{fast_reduct32, get_index, hash, hash_pilot};
use phf::ptrhash_generator::{generate_hash, generate_hash_with_hash_fn};
use phf::siphasher::SipHasher13;
use std::hash::Hasher;

fn hash_bytes(k0: u64, k1: u64, bytes: &[u8]) -> [u8; 16] {
    let mut st = SipHasher13::new_with_keys(k0, k1);
    st.write(bytes);
    st.finish128().as_bytes()
}

#[test]
fn test_siphash128_1_3() {
    let vecs: [[u8; 16]; 1] = [[
        231, 126, 188, 178, 39, 136, 165, 190, 253, 98, 219, 106, 221, 48, 48, 1,
    ]];

    let k0 = 0x_07_06_05_04_03_02_01_00;
    let k1 = 0x_0f_0e_0d_0c_0b_0a_09_08;
    let mut buf = Vec::new();
    let mut t = 0;
    let mut state_inc = SipHasher13::new_with_keys(k0, k1);

    while t < 1 {
        let vec = vecs[t];
        let out = hash_bytes(k0, k1, &buf);
        assert_eq!(vec, out[..]);

        let full = hash_bytes(k0, k1, &buf);
        let i = state_inc.finish128().as_bytes();

        assert_eq!(full, i);
        assert_eq!(full, vec);

        buf.push(t as u8);
        state_inc.write(&[t as u8]);

        t += 1;
    }
}

#[test]
fn ptrhash_hash_is_keyed_siphash13() {
    for key in [0u64, 1, 0xdead_beef, u64::MAX] {
        let mut expected = siphasher::sip::SipHasher13::new_with_keys(0, key);
        expected.write(b"hello");
        assert_eq!(hash("hello", &key), expected.finish());
    }
    assert_ne!(hash("hello", &1), hash("hello", &2));
    assert_ne!(hash("hello", &1), hash("world", &1));
}

#[test]
fn ptrhash_pilot_and_reduction() {
    assert_eq!(hash_pilot(0, 0), 0);
    assert_eq!(hash_pilot(1, 0), 0x517cc1b727220a95);
    assert_eq!(hash_pilot(0, 1), 0x517cc1b727220a95);
    assert_eq!(hash_pilot(3, 1), 0x517cc1b727220a95u64.wrapping_mul(2));
    assert_eq!(fast_reduct32(0, 10), 0);
    assert_eq!(fast_reduct32(u32::MAX, 10), 9);
    assert_eq!(fast_reduct32(0x8000_0000, 10), 5);
}

fn slots_len_by_float(n: u32) -> u32 {
    let len = (f64::from(n) / 0.99).ceil() as u32;
    len + u32::from(len.is_power_of_two())
}

#[test]
fn ptrhash_tables_find_every_key() {
    for n in 1u64..=120 {
        let keys: Vec<u64> = (0..n).map(|i| i * 7919 + 13).collect();
        let state = generate_hash(&keys).unwrap();
        let len = state.map.len();
        assert_eq!(len, n as usize);
        assert_eq!(state.pilots.len(), (n as usize + 2) / 3 + 3);
        assert_eq!((len + state.remap.len()) as u32, slots_len_by_float(n as u32));
        let mut seen = vec![false; len];
        for (i, k) in keys.iter().enumerate() {
            let h = hash(k, &state.seed);
            let idx = get_index(state.seed, h, &state.pilots, &state.remap, len) as usize;
            assert_eq!(state.map[idx], i);
            assert!(!seen[idx]);
            seen[idx] = true;
        }
        for &r in &state.remap {
            assert!((r as usize) < len);
        }
    }
}

#[test]
fn ptrhash_strings() {
    let keys = ["foo", "bar", "baz", "quux", "hello", "world"];
    let state = generate_hash(&keys).unwrap();
    for (i, k) in keys.iter().enumerate() {
        let h = hash(*k, &state.seed);
        let idx = get_index(state.seed, h, &state.pilots, &state.remap, state.map.len());
        assert_eq!(state.map[idx as usize], i);
    }
}

#[test]
fn ptrhash_empty_entries() {
    let keys: [u32; 0] = [];
    let state = generate_hash(&keys).unwrap();
    assert_eq!(state.seed, 0);
    assert!(state.pilots.is_empty() && state.remap.is_empty() && state.map.is_empty());
}

#[test]
fn ptrhash_with_hash_fn() {
    let keys = [10u32, 20, 30, 40, 50];
    let state = generate_hash_with_hash_fn(&keys, |k: &u32, seed: &u64| hash(k, seed)).unwrap();
    for (i, k) in keys.iter().enumerate() {
        let idx = get_index(state.seed, hash(k, &state.seed), &state.pilots, &state.remap, state.map.len());
        assert_eq!(state.map[idx as usize], i);
    }
}

#[test]
fn ptrhash_slot_counts_match_float_formula() {
    // the table sizes for many key counts, against the floating-point formula
    let mut n = 1u32;
    while n < 5000 {
        let keys: Vec<u32> = (0..n).collect();
        let state = generate_hash(&keys).unwrap();
        assert_eq!((state.map.len() + state.remap.len()) as u32, slots_len_by_float(n));
        n += 97;
    }
}
