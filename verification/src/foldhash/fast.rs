//! The foldhash implementation optimized for speed.
use vstd::prelude::*;
use crate::foldhash::{
    fold_sponge, folded_multiply, hash_bytes_long, hash_bytes_medium, spec_finish, spec_with_seed,
    spec_write, spec_write_num, spec_write_short, spec_write_u128, FoldState, ARBITRARY3,
    ARBITRARY4, ARBITRARY5, ARBITRARY6, ARBITRARY7,
};
use crate::siphasher::load_le;

verus! {

/// A builder of [`FoldHasher`]s that all have the same fixed seed.
///
/// Not recommended unless you absolutely need determinism.
#[derive(Copy, Clone, Debug)]
pub struct FixedState {
    per_hasher_seed: u64,
}

impl View for FixedState {
    type V = u64;

    /// The seed each hasher starts its accumulator from.
    closed spec fn view(&self) -> u64 {
        self.per_hasher_seed
    }
}

/// The four global seeds of the fixed states.
pub open spec fn fixed_global_seed() -> Seq<u64> {
    seq![ARBITRARY4, ARBITRARY5, ARBITRARY6, ARBITRARY7]
}

impl FixedState {
    /// Creates a [`FixedState`] with the given seed.
    pub fn with_seed(seed: u64) -> (r: Self)
        ensures
            r@ == spec_fixed_with_seed(seed),
    {
        // XOR with ARBITRARY3 such that with_seed(0) matches default.
        Self { per_hasher_seed: seed ^ ARBITRARY3 }
    }

    /// A hasher started from this state's seed and the global seeds.
    pub fn build_hasher(&self) -> (h: FoldHasher)
        ensures
            h@ == spec_with_seed(self@, fixed_global_seed()),
    {
        let global_seed: [u64; 4] = [ARBITRARY4, ARBITRARY5, ARBITRARY6, ARBITRARY7];
        proof {
            assert(global_seed@ =~= fixed_global_seed());
        }
        FoldHasher::with_seed(self.per_hasher_seed, &global_seed)
    }
}

impl Default for FixedState {
    fn default() -> (r: Self)
        ensures
            r@ == spec_fixed_default(),
    {
        Self { per_hasher_seed: ARBITRARY3 }
    }
}

/// A hasher implementing foldhash, optimized for speed.
///
/// It can't be created directly, see [`FixedState`].
#[derive(Clone)]
pub struct FoldHasher {
    accumulator: u64,
    sponge: u128,
    sponge_len: u8,
    fold_seed: u64,
    expand_seed: u64,
    expand_seed2: u64,
    expand_seed3: u64,
}

impl View for FoldHasher {
    type V = FoldState;

    closed spec fn view(&self) -> FoldState {
        FoldState {
            accumulator: self.accumulator,
            sponge: self.sponge,
            sponge_len: self.sponge_len,
            fold_seed: self.fold_seed,
            expand_seed: self.expand_seed,
            expand_seed2: self.expand_seed2,
            expand_seed3: self.expand_seed3,
        }
    }
}

impl FoldHasher {
    pub(crate) fn with_seed(per_hasher_seed: u64, global_seed: &[u64; 4]) -> (h: FoldHasher)
        ensures
            h@ == spec_with_seed(per_hasher_seed, global_seed@),
    {
        FoldHasher {
            accumulator: per_hasher_seed,
            sponge: 0,
            sponge_len: 0,
            fold_seed: global_seed[0],
            expand_seed: global_seed[1],
            expand_seed2: global_seed[2],
            expand_seed3: global_seed[3],
        }
    }

    /// Writes an integer of `bits` bits.
    fn write_num(&mut self, x: u128, bits: u8)
        requires
            8 <= bits <= 64,
        ensures
            final(self)@ == spec_write_num(old(self)@, x, bits),
    {
        if self.sponge_len as usize + bits as usize > 128 {
            let lo = self.sponge as u64;
            let hi = (self.sponge >> 64) as u64;
            self.accumulator = folded_multiply(lo ^ self.accumulator, hi ^ self.fold_seed);
            self.sponge = x;
            self.sponge_len = bits;
        } else {
            self.sponge = self.sponge | (x << self.sponge_len);
            self.sponge_len = self.sponge_len + bits;
        }
    }

    /// Writes a byte string.
    pub fn write(&mut self, bytes: &[u8])
        ensures
            final(self)@ == spec_write(old(self)@, bytes@),
    {
        let ghost s = self@;
        let mut s0 = self.accumulator;
        let mut s1 = self.expand_seed;
        let len = bytes.len();
        if len <= 16 {
            // XOR the input into s0, s1, then multiply and fold.
            if len >= 8 {
                s0 = s0 ^ load_le(bytes, 0, 8);
                s1 = s1 ^ load_le(bytes, len - 8, 8);
            } else if len >= 4 {
                s0 = s0 ^ load_le(bytes, 0, 4);
                s1 = s1 ^ load_le(bytes, len - 4, 4);
            } else if len > 0 {
                let lo = bytes[0];
                let mid = bytes[len / 2];
                let hi = bytes[len - 1];
                s0 = s0 ^ (lo as u64);
                s1 = s1 ^ (((hi as u64) << 8) | mid as u64);
            }
            self.accumulator = folded_multiply(s0, s1);
            proof {
                assert(self.accumulator == spec_write_short(s, bytes@));
            }
        } else if len < 256 {
            self.accumulator = hash_bytes_medium(bytes, s0, s1, self.fold_seed);
        } else {
            self.accumulator = hash_bytes_long(
                bytes,
                s0,
                s1,
                self.expand_seed2,
                self.expand_seed3,
                self.fold_seed,
            );
        }
    }

    pub fn write_u8(&mut self, i: u8)
        ensures
            final(self)@ == spec_write_num(old(self)@, i as u128, 8),
    {
        self.write_num(i as u128, 8);
    }

    pub fn write_u16(&mut self, i: u16)
        ensures
            final(self)@ == spec_write_num(old(self)@, i as u128, 16),
    {
        self.write_num(i as u128, 16);
    }

    pub fn write_u32(&mut self, i: u32)
        ensures
            final(self)@ == spec_write_num(old(self)@, i as u128, 32),
    {
        self.write_num(i as u128, 32);
    }

    pub fn write_u64(&mut self, i: u64)
        ensures
            final(self)@ == spec_write_num(old(self)@, i as u128, 64),
    {
        self.write_num(i as u128, 64);
    }

    pub fn write_u128(&mut self, i: u128)
        ensures
            final(self)@ == spec_write_u128(old(self)@, i),
    {
        let lo = i as u64;
        let hi = (i >> 64) as u64;
        self.accumulator = folded_multiply(lo ^ self.accumulator, hi ^ self.fold_seed);
    }

    /// Writes a `usize` as a 64-bit integer.
    pub fn write_usize(&mut self, i: usize)
        ensures
            final(self)@ == spec_write_num(old(self)@, i as u64 as u128, 64),
    {
        self.write_num(i as u64 as u128, 64);
    }

    /// The hash of what was written.
    pub fn finish(&self) -> (r: u64)
        ensures
            r == spec_finish(self@),
    {
        if self.sponge_len > 0 {
            let lo = self.sponge as u64;
            let hi = (self.sponge >> 64) as u64;
            folded_multiply(lo ^ self.accumulator, hi ^ self.fold_seed)
        } else {
            self.accumulator
        }
    }
}

/// The seed of the hashers of `FixedState::with_seed(seed)`.
pub open spec fn spec_fixed_with_seed(seed: u64) -> u64 {
    seed ^ ARBITRARY3
}

/// The seed of the hashers of the default `FixedState`.
pub open spec fn spec_fixed_default() -> u64 {
    ARBITRARY3
}

/// A fixed state built with the seed `0` is the default one.
pub proof fn law_with_seed_zero_is_default()
    ensures
        spec_fixed_with_seed(0) == spec_fixed_default(),
{
    assert(0u64 ^ ARBITRARY3 == ARBITRARY3) by (bit_vector);
}

/// The state after writing each of `writes` in turn.
pub open spec fn written_all(s: FoldState, writes: Seq<Seq<u8>>) -> FoldState
    decreases writes.len(),
{
    if writes.len() == 0 {
        s
    } else {
        spec_write(written_all(s, writes.drop_last()), writes.last())
    }
}

/// Hashers built from a fixed state with the seed `0` and from the default
/// one give the same hash after the same writes.
pub proof fn law_with_seed_zero_hashes_as_default(writes: Seq<Seq<u8>>)
    ensures
        spec_finish(written_all(spec_with_seed(spec_fixed_with_seed(0), fixed_global_seed()), writes))
            == spec_finish(written_all(spec_with_seed(spec_fixed_default(), fixed_global_seed()), writes)),
{
    law_with_seed_zero_is_default();
}

} // verus!
