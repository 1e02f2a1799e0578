//! The foldhash implementation optimized for quality.
use vstd::prelude::*;
use crate::foldhash::fast;
use crate::foldhash::fast::{fixed_global_seed, spec_fixed_default, spec_fixed_with_seed};
use crate::foldhash::{
    folded_multiply, spec_finish, spec_folded_multiply, spec_with_seed, spec_write, spec_write_num,
    spec_write_u128, FoldState, ARBITRARY0, ARBITRARY8,
};

verus! {

/// A builder of [`FoldHasher`]s that all have the same fixed seed.
///
/// Not recommended unless you absolutely need determinism.
#[derive(Copy, Clone, Debug)]
pub struct FixedState {
    inner: fast::FixedState,
}

impl View for FixedState {
    type V = u64;

    /// The seed each hasher starts its accumulator from.
    closed spec fn view(&self) -> u64 {
        self.inner@
    }
}

/// The seed of the hashers of `FixedState::with_seed(seed)`: the seed
/// is first folded with a constant.
pub open spec fn spec_quality_with_seed(seed: u64) -> u64 {
    spec_fixed_with_seed(spec_folded_multiply(seed, ARBITRARY8))
}

impl FixedState {
    /// Creates a [`FixedState`] with the given seed.
    pub fn with_seed(seed: u64) -> (r: Self)
        ensures
            r@ == spec_quality_with_seed(seed),
    {
        // We do an additional folded multiply with the seed here for
        // the quality hash to ensure better independence between seed
        // and hash. If the seed is zero the folded multiply is zero,
        // preserving with_seed(0) == default().
        Self { inner: fast::FixedState::with_seed(folded_multiply(seed, ARBITRARY8)) }
    }

    /// A hasher started from this state's seed and the global seeds.
    pub fn build_hasher(&self) -> (h: FoldHasher)
        ensures
            h@ == spec_with_seed(self@, fixed_global_seed()),
    {
        FoldHasher { inner: self.inner.build_hasher() }
    }
}

impl Default for FixedState {
    fn default() -> (r: Self)
        ensures
            r@ == spec_fixed_default(),
    {
        FixedState { inner: fast::FixedState::default() }
    }
}

/// A hasher implementing foldhash, optimized for quality.
///
/// It can't be created directly, see [`FixedState`].
#[derive(Clone)]
pub struct FoldHasher {
    pub(crate) inner: fast::FoldHasher,
}

impl View for FoldHasher {
    type V = FoldState;

    closed spec fn view(&self) -> FoldState {
        self.inner@
    }
}

/// The hash of a quality hasher: the fast hash, folded once more.
pub open spec fn spec_quality_finish(s: FoldState) -> u64 {
    spec_folded_multiply(spec_finish(s), ARBITRARY0)
}

impl FoldHasher {
    pub fn write(&mut self, bytes: &[u8])
        ensures
            final(self)@ == spec_write(old(self)@, bytes@),
    {
        self.inner.write(bytes);
    }

    pub fn write_u8(&mut self, i: u8)
        ensures
            final(self)@ == spec_write_num(old(self)@, i as u128, 8),
    {
        self.inner.write_u8(i);
    }

    pub fn write_u16(&mut self, i: u16)
        ensures
            final(self)@ == spec_write_num(old(self)@, i as u128, 16),
    {
        self.inner.write_u16(i);
    }

    pub fn write_u32(&mut self, i: u32)
        ensures
            final(self)@ == spec_write_num(old(self)@, i as u128, 32),
    {
        self.inner.write_u32(i);
    }

    pub fn write_u64(&mut self, i: u64)
        ensures
            final(self)@ == spec_write_num(old(self)@, i as u128, 64),
    {
        self.inner.write_u64(i);
    }

    pub fn write_u128(&mut self, i: u128)
        ensures
            final(self)@ == spec_write_u128(old(self)@, i),
    {
        self.inner.write_u128(i);
    }

    pub fn write_usize(&mut self, i: usize)
        ensures
            final(self)@ == spec_write_num(old(self)@, i as u64 as u128, 64),
    {
        self.inner.write_usize(i);
    }

    /// The hash of what was written.
    pub fn finish(&self) -> (r: u64)
        ensures
            r == spec_quality_finish(self@),
    {
        folded_multiply(self.inner.finish(), ARBITRARY0)
    }
}

/// A fixed state built with the seed `0` is the default one: the folded
/// multiply of `0` is `0`.
pub proof fn law_with_seed_zero_is_default()
    ensures
        spec_quality_with_seed(0) == spec_fixed_default(),
{
    assert(spec_folded_multiply(0, ARBITRARY8) == 0) by {
        assert((0u128 >> 64u128) == 0u128) by (bit_vector);
        assert((0u128 as u64) ^ (0u64) == 0u64) by (bit_vector);
    }
    fast::law_with_seed_zero_is_default();
}

/// Hashers built from a fixed state with the seed `0` and from the default
/// one give the same hash after the same writes.
pub proof fn law_with_seed_zero_hashes_as_default(writes: Seq<Seq<u8>>)
    ensures
        spec_quality_finish(fast::written_all(spec_with_seed(spec_quality_with_seed(0), fixed_global_seed()), writes))
            == spec_quality_finish(fast::written_all(spec_with_seed(spec_fixed_default(), fixed_global_seed()), writes)),
{
    law_with_seed_zero_is_default();
}

} // verus!
