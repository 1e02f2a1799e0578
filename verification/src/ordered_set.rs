//! An order-preserving immutable set with a perfect hash index.
use vstd::prelude::*;
use crate::ordered_map::{holds, finds, Entries, OrderedMap};
use crate::shared::{PhfBorrow, PhfEq, PhfHash};

verus! {

/// An order-preserving immutable set constructed at compile time.
///
/// Unlike a `Set`, iteration order is guaranteed to match the definition
/// order.
///
/// ## Note
///
/// The fields of this struct are public so that they may be initialized by the
/// builders and code generation. They are subject to change at any time and
/// should never be accessed directly.
pub struct OrderedSet<T> {
    pub map: OrderedMap<T, ()>,
}

impl<T: PhfHash> OrderedSet<T> {
    /// The underlying map is well formed.
    pub open spec fn wf(&self) -> bool {
        self.map.wf()
    }

    /// The views of the values, in definition order.
    pub open spec fn values_view(&self) -> Seq<T::V> {
        self.map.keys_view()
    }

    /// Returns the number of elements in the `OrderedSet`.
    pub fn len(&self) -> (r: usize)
        ensures
            r == self.values_view().len(),
    {
        self.map.len()
    }

    /// Returns true if the `OrderedSet` contains no elements.
    pub fn is_empty(&self) -> (r: bool)
        ensures
            r == (self.values_view().len() == 0),
    {
        self.len() == 0
    }

    /// Returns a reference to the set's internal static instance of the given
    /// key.
    ///
    /// This can be useful for interning schemes.
    pub fn get_key<U: ?Sized + PhfHash + PhfEq>(&self, key: &U) -> (r: Option<&T>) where
        T: PhfBorrow<U>,

        requires
            self.wf(),
            U::phf_bytes(key@).len() <= usize::MAX,
        ensures
            match r {
                Some(k) => exists|i: int|
                    #[trigger] finds::<T, U>(self.values_view(), key@, i) && k == &self.map.entries@[i].0,
                None => !holds::<T, U>(self.values_view(), key@),
            },
    {
        let r = self.map.get_key(key);
        proof {
            if r is Some {
                let i = choose|i: int|
                    #[trigger] finds::<T, U>(self.map.keys_view(), key@, i) && r->0
                        == &self.map.entries@[i].0;
                assert(finds::<T, U>(self.values_view(), key@, i));
            }
        }
        r
    }

    /// Returns the index of the key within the list used to initialize
    /// the ordered set.
    pub fn get_index<U: ?Sized + PhfHash + PhfEq>(&self, key: &U) -> (r: Option<usize>) where
        T: PhfBorrow<U>,

        requires
            self.wf(),
            U::phf_bytes(key@).len() <= usize::MAX,
        ensures
            match r {
                Some(i) => finds::<T, U>(self.values_view(), key@, i as int),
                None => !holds::<T, U>(self.values_view(), key@),
            },
    {
        self.map.get_index(key)
    }

    /// Returns the element at `index` in definition order.
    pub fn index(&self, index: usize) -> (r: Option<&T>)
        ensures
            match r {
                Some(k) => index < self.map.entries@.len() && k == &self.map.entries@[index as int].0,
                None => index >= self.map.entries@.len(),
            },
    {
        match self.map.index(index) {
            Some(e) => Some(e.0),
            None => None,
        }
    }

    /// Returns true if `value` is in the `OrderedSet`.
    pub fn contains<U: ?Sized + PhfHash + PhfEq>(&self, value: &U) -> (r: bool) where
        T: PhfBorrow<U>,

        requires
            self.wf(),
            U::phf_bytes(value@).len() <= usize::MAX,
        ensures
            r == holds::<T, U>(self.values_view(), value@),
    {
        self.map.contains_key(value)
    }

    /// Returns the values in the same order in which they were defined.
    pub fn iter(&self) -> (r: Iter<'_, T>)
        ensures
            r.items() == self.map.entries@,
            r.position() == 0,
    {
        Iter { iter: self.map.entries() }
    }
}

impl<T: PhfHash + PhfEq + PhfBorrow<T>> OrderedSet<T> {
    /// Returns true if `other` shares no elements with `self`.
    pub fn is_disjoint(&self, other: &OrderedSet<T>) -> (r: bool)
        requires
            self.wf(),
            other.wf(),
        ensures
            r == forall|i: int|
                0 <= i < self.values_view().len() ==> !holds::<T, T>(
                    other.values_view(),
                    #[trigger] self.values_view()[i],
                ),
    {
        let mut i: usize = 0;
        while i < self.map.entries.len()
            invariant
                self.wf(),
                other.wf(),
                i <= self.values_view().len(),
                forall|j: int|
                    0 <= j < i ==> !holds::<T, T>(other.values_view(), #[trigger] self.values_view()[j]),
            decreases self.values_view().len() - i,
        {
            let value = &self.map.entries[i].0;
            proof {
                assert(value@ == self.values_view()[i as int]);
            }
            if other.contains(value) {
                return false;
            }
            i = i + 1;
        }
        true
    }

    /// Returns true if `other` contains all values in `self`.
    pub fn is_subset(&self, other: &OrderedSet<T>) -> (r: bool)
        requires
            self.wf(),
            other.wf(),
        ensures
            r == forall|i: int|
                0 <= i < self.values_view().len() ==> holds::<T, T>(
                    other.values_view(),
                    #[trigger] self.values_view()[i],
                ),
    {
        let mut i: usize = 0;
        while i < self.map.entries.len()
            invariant
                self.wf(),
                other.wf(),
                i <= self.values_view().len(),
                forall|j: int|
                    0 <= j < i ==> holds::<T, T>(other.values_view(), #[trigger] self.values_view()[j]),
            decreases self.values_view().len() - i,
        {
            let value = &self.map.entries[i].0;
            proof {
                assert(value@ == self.values_view()[i as int]);
            }
            if !other.contains(value) {
                return false;
            }
            i = i + 1;
        }
        true
    }

    /// Returns true if `self` contains all values in `other`.
    pub fn is_superset(&self, other: &OrderedSet<T>) -> (r: bool)
        requires
            self.wf(),
            other.wf(),
        ensures
            r == forall|i: int|
                0 <= i < other.values_view().len() ==> holds::<T, T>(
                    self.values_view(),
                    #[trigger] other.values_view()[i],
                ),
    {
        other.is_subset(self)
    }
}

/// The values of an `OrderedSet`, in definition order.
pub struct Iter<'a, T> {
    iter: Entries<'a, T, ()>,
}

impl<'a, T> Iter<'a, T> {
    /// All the entries whose values are handed out.
    pub closed spec fn items(&self) -> Seq<(T, ())> {
        self.iter.items()
    }

    /// How many values have been handed out.
    pub closed spec fn position(&self) -> nat {
        self.iter.position()
    }

    /// Hands out the next value, if any is left.
    pub fn next(&mut self) -> (r: Option<&'a T>)
        requires
            old(self).position() <= old(self).items().len(),
        ensures
            final(self).items() == old(self).items(),
            final(self).position() <= final(self).items().len(),
            match r {
                Some(v) => {
                    let p = old(self).position() as int;
                    &&& p < old(self).items().len()
                    &&& final(self).position() == p + 1
                    &&& v == &old(self).items()[p].0
                },
                None => {
                    &&& old(self).position() == old(self).items().len()
                    &&& final(self).position() == old(self).position()
                },
            },
    {
        match self.iter.next() {
            Some(e) => Some(e.0),
            None => None,
        }
    }
}

} // verus!
