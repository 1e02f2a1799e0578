//! Key hashing into three words of at most `MAX_SIZE` with SipHash 2-4
//! under two keys, and the displacement of a word pair.
use vstd::prelude::*;
use crate::shared::PhfHash;
use crate::sip24::{sip24_64, siphash24, spec_words, words};

verus! {

/// The three words of the SipHash 2-4 of `s`, under the keys `k1` and
/// `k2`, of the bytes the key feeds.
pub fn hash<T: ?Sized + PhfHash>(s: &T, k1: u64, k2: u64) -> (r: (usize, usize, usize))
    requires
        T::phf_bytes(s@).len() <= usize::MAX,
    ensures
        r.0 as int == spec_words(sip24_64(k1, k2, T::phf_bytes(s@))).0,
        r.1 as int == spec_words(sip24_64(k1, k2, T::phf_bytes(s@))).1,
        r.2 as int == spec_words(sip24_64(k1, k2, T::phf_bytes(s@))).2,
{
    let mut bytes: Vec<u8> = Vec::new();
    s.phf_hash(&mut bytes);
    let w = words(siphash24(k1, k2, bytes.as_slice()));
    (w.0 as usize, w.1 as usize, w.2 as usize)
}

/// `d2 + f1 * d1 + f2`, wrapping.
pub open spec fn spec_displace_usize(f1: usize, f2: usize, d1: usize, d2: usize) -> int {
    (d2 + f1 * d1 + f2) % (usize::MAX + 1)
}

pub fn displace(f1: usize, f2: usize, d1: usize, d2: usize) -> (r: usize)
    ensures
        r == spec_displace_usize(f1, f2, d1, d2),
{
    let r = d2.wrapping_add(f1.wrapping_mul(d1)).wrapping_add(f2);
    proof {
        let m = usize::MAX + 1;
        let p = f1 * d1;
        vstd::arithmetic::div_mod::lemma_add_mod_noop(d2 as int, p, m);
        vstd::arithmetic::div_mod::lemma_add_mod_noop((d2 + p) as int, f2 as int, m);
        vstd::arithmetic::div_mod::lemma_add_mod_noop(d2 as int, (p % m) as int, m);
        vstd::arithmetic::div_mod::lemma_mod_twice(p, m);
        vstd::arithmetic::div_mod::lemma_mod_twice(d2 as int, m);
    }
    r
}

} // verus!
