//! A hasher that feeds integers as their little-endian bytes whatever the
//! architecture, forwarding everything to the hasher it wraps.
use vstd::prelude::*;
use crate::shared::Hasher;
use crate::siphasher::{sip13_128, Hash128, SipHasher13};

verus! {

pub struct PortableSipHasher<H> {
    inner: H,
}

impl<H> PortableSipHasher<H> {
    /// The wrapped hasher.
    pub closed spec fn inner(&self) -> H {
        self.inner
    }

    pub fn new(inner: H) -> (r: Self)
        ensures
            r.inner() == inner,
    {
        Self { inner }
    }
}

impl<H: Hasher> Hasher for PortableSipHasher<H> {
    open spec fn valid(&self) -> bool {
        self.inner().valid()
    }

    open spec fn written(&self) -> Seq<u8> {
        self.inner().written()
    }

    open spec fn keys(&self) -> (u64, u64) {
        self.inner().keys()
    }

    fn write(&mut self, bytes: &[u8]) {
        self.inner.write(bytes)
    }

    fn write_u8(&mut self, i: u8) {
        self.inner.write_u8(i)
    }

    // Integers go to the inner hasher as values, which it feeds as their
    // little-endian bytes.
    fn write_u16(&mut self, i: u16) {
        self.inner.write_u16(i);
    }

    fn write_u32(&mut self, i: u32) {
        self.inner.write_u32(i);
    }

    fn write_u64(&mut self, i: u64) {
        self.inner.write_u64(i);
    }

    fn write_u128(&mut self, i: u128) {
        self.inner.write_u128(i);
    }

    fn write_usize(&mut self, i: usize) {
        self.inner.write_usize(i);
    }
}

impl PortableSipHasher<SipHasher13> {
    /// The 64-bit hash of the inner SipHash 1-3 hasher.
    pub fn finish(&self) -> (r: u64)
        requires
            self.inner().wf(),
        ensures
            r == sip13_128(self.inner().key0(), self.inner().key1(), self.inner()@).h2,
    {
        self.inner.finish()
    }

    /// The 128-bit hash of the inner SipHash 1-3 hasher.
    pub fn finish128(&self) -> (r: Hash128)
        requires
            self.inner().wf(),
        ensures
            r == sip13_128(self.inner().key0(), self.inner().key1(), self.inner()@),
    {
        self.inner.finish128()
    }
}

} // verus!
