//! A vector of fixed capacity, backed by an array.
use vstd::prelude::*;

verus! {

/// A vector holding at most `N` elements in an array.
#[derive(Clone, Copy)]
pub struct ArrayVec<T: Copy, const N: usize> {
    arr: [T; N],
    len: usize,
}

impl<T: Copy, const N: usize> View for ArrayVec<T, N> {
    type V = Seq<T>;

    /// The elements held, in order.
    closed spec fn view(&self) -> Seq<T> {
        self.arr@.take(self.len as int)
    }
}

impl<T: Copy, const N: usize> ArrayVec<T, N> {
    /// The length never passes the capacity.
    pub closed spec fn wf(&self) -> bool {
        self.len <= N
    }

    /// A well-formed vector holds at most `N` elements.
    pub proof fn law_len_within_capacity(&self)
        requires
            self.wf(),
        ensures
            self@.len() <= N,
    {
    }

    /// An empty vector whose backing array is filled with `marker`.
    pub fn new_empty(marker: T) -> (r: Self)
        ensures
            r.wf(),
            r@ == Seq::<T>::empty(),
    {
        let r = Self { arr: [marker; N], len: 0 };
        proof {
            assert(r@ =~= Seq::<T>::empty());
        }
        r
    }

    /// A full vector: `N` copies of `marker`.
    pub fn new_full(marker: T) -> (r: Self)
        ensures
            r.wf(),
            r@ == Seq::new(N as nat, |_i: int| marker),
    {
        let r = Self { arr: [marker; N], len: N };
        proof {
            assert(r@ =~= Seq::new(N as nat, |_i: int| marker));
        }
        r
    }

    /// The number of elements held.
    pub fn len(&self) -> (r: usize)
        requires
            self.wf(),
        ensures
            r == self@.len(),
    {
        self.len
    }

    /// The number of elements the vector can hold.
    pub fn capacity(&self) -> (r: usize)
        ensures
            r == N,
    {
        N
    }

    /// Appends `value`; the vector must not be full.
    pub fn push(&mut self, value: T)
        requires
            old(self).wf(),
            old(self)@.len() < N,
        ensures
            final(self).wf(),
            final(self)@ == old(self)@.push(value),
    {
        let len = self.len;
        self.arr.set(len, value);
        self.len = len + 1;
        proof {
            assert(final(self)@ =~= old(self)@.push(value));
        }
    }

    /// Removes every element.
    pub fn clear(&mut self)
        requires
            old(self).wf(),
        ensures
            final(self).wf(),
            final(self)@ == Seq::<T>::empty(),
    {
        self.len = 0;
        proof {
            assert(final(self)@ =~= Seq::<T>::empty());
        }
    }

    /// The element at `i`, which must be held.
    pub fn get(&self, i: usize) -> (r: T)
        requires
            self.wf(),
            i < self@.len(),
        ensures
            r == self@[i as int],
    {
        self.arr[i]
    }

    /// A reference to the element at `i`, which must be held.
    pub fn get_ref(&self, i: usize) -> (r: &T)
        requires
            self.wf(),
            i < self@.len(),
        ensures
            *r == self@[i as int],
    {
        &self.arr[i]
    }

    /// Overwrites the element at `i`, or appends when `i` is the length.
    pub fn set(&mut self, i: usize, value: T)
        requires
            old(self).wf(),
            i <= old(self)@.len(),
            i == old(self)@.len() ==> old(self)@.len() < N,
        ensures
            final(self).wf(),
            i < old(self)@.len() ==> final(self)@ == old(self)@.update(i as int, value),
            i == old(self)@.len() ==> final(self)@ == old(self)@.push(value),
    {
        if i == self.len {
            self.push(value);
        } else {
            self.arr.set(i, value);
            proof {
                assert(final(self)@ =~= old(self)@.update(i as int, value));
            }
        }
    }
}

} // verus!
