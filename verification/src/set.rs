//! An immutable set whose values sit in the slots of a perfect hash.
use vstd::prelude::*;
use crate::map::{Entries, PhfMap};
use crate::ordered_map::{finds, holds};
use crate::shared::{PhfBorrow, PhfEq, PhfHash};

verus! {

/// An immutable set constructed at compile time.
///
/// ## Note
///
/// The fields of this struct are public so that they may be initialized by the
/// builders and code generation. They are subject to change at any time and
/// should never be accessed directly.
pub struct PhfSet<T> {
    pub map: PhfMap<T, ()>,
}

impl<T: PhfHash> PhfSet<T> {
    /// The underlying map is well formed.
    pub open spec fn wf(&self) -> bool {
        self.map.wf()
    }

    /// The views of the values, in the order of their slots.
    pub open spec fn values_view(&self) -> Seq<T::V> {
        self.map.keys_view()
    }

    /// Returns the number of elements in the `PhfSet`.
    pub fn len(&self) -> (r: usize)
        ensures
            r == self.values_view().len(),
    {
        self.map.len()
    }

    /// Returns true if the `PhfSet` contains no elements.
    pub fn is_empty(&self) -> (r: bool)
        ensures
            r == (self.values_view().len() == 0),
    {
        self.len() == 0
    }

    /// Returns a reference to the set's internal static instance of the given
    /// key.
    ///
    /// This can be useful for interning schemes.
    pub fn get_key<U: ?Sized + PhfHash + PhfEq>(&self, key: &U) -> (r: Option<&T>) where
        T: PhfBorrow<U>,

        requires
            self.wf(),
            U::phf_bytes(key@).len() <= usize::MAX,
        ensures
            match r {
                Some(k) => exists|i: int|
                    #[trigger] finds::<T, U>(self.values_view(), key@, i) && k == &self.map.entries@[i].0,
                None => !holds::<T, U>(self.values_view(), key@),
            },
    {
        let r = self.map.get_key(key);
        proof {
            if r is Some {
                let i = choose|i: int|
                    #[trigger] finds::<T, U>(self.map.keys_view(), key@, i) && r->0
                        == &self.map.entries@[i].0;
                assert(finds::<T, U>(self.values_view(), key@, i));
            }
        }
        r
    }

    /// Returns true if `value` is in the `PhfSet`.
    pub fn contains<U: ?Sized + PhfHash + PhfEq>(&self, value: &U) -> (r: bool) where
        T: PhfBorrow<U>,

        requires
            self.wf(),
            U::phf_bytes(value@).len() <= usize::MAX,
        ensures
            r == holds::<T, U>(self.values_view(), value@),
    {
        self.map.contains_key(value)
    }

    /// Returns the values in the order of their slots.
    pub fn iter(&self) -> (r: Iter<'_, T>)
        ensures
            r.items() == self.map.entries@,
            r.position() == 0,
    {
        Iter { iter: self.map.entries() }
    }
}

impl<T: PhfHash + PhfEq + PhfBorrow<T>> PhfSet<T> {
    /// Returns true if `other` shares no elements with `self`.
    pub fn is_disjoint(&self, other: &PhfSet<T>) -> (r: bool)
        requires
            self.wf(),
            other.wf(),
        ensures
            r == forall|i: int|
                0 <= i < self.values_view().len() ==> !holds::<T, T>(
                    other.values_view(),
                    #[trigger] self.values_view()[i],
                ),
    {
        let mut i: usize = 0;
        while i < self.map.entries.len()
            invariant
                self.wf(),
                other.wf(),
                i <= self.values_view().len(),
                forall|j: int|
                    0 <= j < i ==> !holds::<T, T>(other.values_view(), #[trigger] self.values_view()[j]),
            decreases self.values_view().len() - i,
        {
            let value = &self.map.entries[i].0;
            proof {
                assert(value@ == self.values_view()[i as int]);
            }
            if other.contains(value) {
                return false;
            }
            i = i + 1;
        }
        true
    }

    /// Returns true if `other` contains all values in `self`.
    pub fn is_subset(&self, other: &PhfSet<T>) -> (r: bool)
        requires
            self.wf(),
            other.wf(),
        ensures
            r == forall|i: int|
                0 <= i < self.values_view().len() ==> holds::<T, T>(
                    other.values_view(),
                    #[trigger] self.values_view()[i],
                ),
    {
        let mut i: usize = 0;
        while i < self.map.entries.len()
            invariant
                self.wf(),
                other.wf(),
                i <= self.values_view().len(),
                forall|j: int|
                    0 <= j < i ==> holds::<T, T>(other.values_view(), #[trigger] self.values_view()[j]),
            decreases self.values_view().len() - i,
        {
            let value = &self.map.entries[i].0;
            proof {
                assert(value@ == self.values_view()[i as int]);
            }
            if !other.contains(value) {
                return false;
            }
            i = i + 1;
        }
        true
    }

    /// Returns true if `self` contains all values in `other`.
    pub fn is_superset(&self, other: &PhfSet<T>) -> (r: bool)
        requires
            self.wf(),
            other.wf(),
        ensures
            r == forall|i: int|
                0 <= i < other.values_view().len() ==> holds::<T, T>(
                    self.values_view(),
                    #[trigger] other.values_view()[i],
                ),
    {
        other.is_subset(self)
    }
}

/// The values of an `PhfSet`, in the order of their slots.
pub struct Iter<'a, T> {
    iter: Entries<'a, T, ()>,
}

impl<'a, T> Iter<'a, T> {
    /// All the entries whose values are handed out.
    pub closed spec fn items(&self) -> Seq<(T, ())> {
        self.iter.items()
    }

    /// How many values have been handed out.
    pub closed spec fn position(&self) -> nat {
        self.iter.position()
    }

    /// Hands out the next value, if any is left.
    pub fn next(&mut self) -> (r: Option<&'a T>)
        requires
            old(self).position() <= old(self).items().len(),
        ensures
            final(self).items() == old(self).items(),
            final(self).position() <= final(self).items().len(),
            match r {
                Some(v) => {
                    let p = old(self).position() as int;
                    &&& p < old(self).items().len()
                    &&& final(self).position() == p + 1
                    &&& v == &old(self).items()[p].0
                },
                None => {
                    &&& old(self).position() == old(self).items().len()
                    &&& final(self).position() == old(self).position()
                },
            },
    {
        match self.iter.next() {
            Some(e) => Some(e.0),
            None => None,
        }
    }
}

/// Every value of `a` is held in `b`: what `is_subset` answers for sets
/// holding `a` and `b`, and `is_superset` for sets holding `b` and `a`.
pub open spec fn subset_of<T: PhfBorrow<T>>(a: Seq<T::V>, b: Seq<T::V>) -> bool {
    forall|i: int| 0 <= i < a.len() ==> holds::<T, T>(b, #[trigger] a[i])
}

/// No value of `a` is held in `b`: what `is_disjoint` answers.
pub open spec fn disjoint_from<T: PhfBorrow<T>>(a: Seq<T::V>, b: Seq<T::V>) -> bool {
    forall|i: int| 0 <= i < a.len() ==> !holds::<T, T>(b, #[trigger] a[i])
}

/// A set is a subset of itself, where a value borrows as itself.
pub proof fn law_subset_is_reflexive<T: PhfBorrow<T>>(a: Seq<T::V>)
    requires
        forall|v: T::V| #[trigger] T::borrowed(v) == v,
    ensures
        subset_of::<T>(a, a),
{
    assert forall|i: int| 0 <= i < a.len() implies holds::<T, T>(a, #[trigger] a[i]) by {
        assert(finds::<T, T>(a, a[i], i));
    }
}

/// `a` is a superset of `b` exactly when `b` is a subset of `a`.
pub proof fn law_superset_is_reversed_subset<T: PhfBorrow<T>>(a: Seq<T::V>, b: Seq<T::V>)
    ensures
        (forall|i: int| 0 <= i < b.len() ==> holds::<T, T>(a, #[trigger] b[i])) == subset_of::<T>(b, a),
{
}

/// Disjointness is symmetric, where a value borrows as itself.
pub proof fn law_disjoint_is_symmetric<T: PhfBorrow<T>>(a: Seq<T::V>, b: Seq<T::V>)
    requires
        forall|v: T::V| #[trigger] T::borrowed(v) == v,
    ensures
        disjoint_from::<T>(a, b) == disjoint_from::<T>(b, a),
{
    if disjoint_from::<T>(a, b) {
        assert forall|j: int| 0 <= j < b.len() implies !holds::<T, T>(a, #[trigger] b[j]) by {
            if holds::<T, T>(a, b[j]) {
                let i = choose|i: int| finds::<T, T>(a, b[j], i);
                assert(finds::<T, T>(b, a[i], j));
            }
        }
    }
    if disjoint_from::<T>(b, a) {
        assert forall|i: int| 0 <= i < a.len() implies !holds::<T, T>(b, #[trigger] a[i]) by {
            if holds::<T, T>(b, a[i]) {
                let j = choose|j: int| finds::<T, T>(b, a[i], j);
                assert(finds::<T, T>(a, b[j], i));
            }
        }
    }
}

} // verus!
