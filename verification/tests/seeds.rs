use phf::generator::generate_hash as chd_generate;
use phf::ptrhash_generator::generate_hash as ptr_generate;
use phf::sip24::chd::{generate_hash as literal_generate, Entry, Key};
use rand_core::{RngCore, SeedableRng};
use rand_xorshift::XorShiftRng;

fn fastrand_keys(count: usize) -> Vec<u64> {
    let mut rng = fastrand::Rng::with_seed(1234567890);
    (0..count).map(|_| rng.u64(..)).collect()
}

#[test]
fn chd_key_is_drawn_from_the_fixed_seed() {
    let keys: Vec<u32> = (0..50).map(|i| i * 31 + 7).collect();
    let state = chd_generate(&keys).unwrap();
    let drawn = fastrand_keys(1000);
    assert!(drawn.contains(&state.key));
    let again = chd_generate(&keys).unwrap();
    assert_eq!(state.key, again.key);
    assert_eq!(state.disps, again.disps);
    assert_eq!(state.map, again.map);
    for &(d1, d2) in &state.disps {
        assert!((d1 as usize) < keys.len() && (d2 as usize) < keys.len());
    }
}

#[test]
fn chd_single_key_takes_the_first_draw() {
    let state = chd_generate(&[42u64]).unwrap();
    assert_eq!(state.key, fastrand_keys(1)[0]);
    assert_eq!(state.disps, vec![(0, 0)]);
    assert_eq!(state.map, vec![0]);
}

#[test]
fn ptrhash_seed_is_drawn_from_the_fixed_seed() {
    let keys: Vec<u64> = (0..40).map(|i| i * 101 + 3).collect();
    let state = ptr_generate(&keys).unwrap();
    assert!(fastrand_keys(1000).contains(&state.seed));
    assert_eq!(state.pilots.len(), (keys.len() + 2) / 3 + 3);
    for &r in &state.remap {
        assert!((r as usize) < keys.len());
    }
}

#[test]
fn literal_map_key_comes_from_xorshift() {
    let entries = vec![
        Entry { key_contents: Key::Str("a".to_string()), key: "\"a\"".to_string(), value: "1".to_string() },
        Entry { key_contents: Key::U32(9), key: "9u32".to_string(), value: "2".to_string() },
    ];
    let state = literal_generate(&entries).unwrap();
    let words: [u32; 4] = [3141592653, 589793238, 462643383, 2795028841];
    let mut seed = [0u8; 16];
    for (k, w) in words.iter().enumerate() {
        seed[4 * k..4 * k + 4].copy_from_slice(&w.to_le_bytes());
    }
    let mut rng = XorShiftRng::from_seed(seed);
    let mut drawn = Vec::new();
    for _ in 0..1000 {
        let hi = rng.next_u32() as u64;
        let lo = rng.next_u32() as u64;
        drawn.push((hi << 32) | lo);
    }
    assert!(drawn.contains(&state.key));
}
