//! An immutable map whose entries sit in the slots of a perfect hash.
use vstd::prelude::*;
use crate::generator::buckets_len;
use crate::ordered_map::{all_distinct, entry_keys, finds, hashable, holds, key_hashes};
use crate::shared::{get_index, hash, spec_get_index, HashKey, Hashes, PhfBorrow, PhfEq, PhfHash};

verus! {

/// Each entry sits in the slot that the displacements give its key.
pub open spec fn in_own_slots(hashes: Seq<Hashes>, disps: Seq<(u32, u32)>) -> bool {
    &&& disps.len() == buckets_len(hashes.len())
    &&& forall|s: int|
        0 <= s < hashes.len() ==> spec_get_index(#[trigger] hashes[s], disps, hashes.len()) == s
}

/// An immutable map constructed at compile time.
///
/// ## Note
///
/// The fields of this struct are public so that they may be initialized by the
/// builders and code generation. They are subject to change at any time and
/// should never be accessed directly.
pub struct PhfMap<K, V> {
    pub key: HashKey,
    pub disps: Vec<(u32, u32)>,
    pub entries: Vec<(K, V)>,
}

impl<K: PhfHash, V> PhfMap<K, V> {
    /// Each entry sits in its own slot; the keys are distinct and hashable.
    pub open spec fn wf(&self) -> bool {
        let keys = entry_keys(self.entries@);
        &&& self.entries@.len() <= u32::MAX
        &&& hashable::<K>(keys)
        &&& all_distinct(keys)
        &&& in_own_slots(key_hashes::<K>(keys, self.key), self.disps@)
    }

    /// The views of the keys, in the order of their slots.
    pub open spec fn keys_view(&self) -> Seq<K::V> {
        entry_keys(self.entries@)
    }

    /// Returns the number of entries in the `PhfMap`.
    pub fn len(&self) -> (r: usize)
        ensures
            r == self.entries@.len(),
    {
        self.entries.len()
    }

    /// Returns true if the `PhfMap` is empty.
    pub fn is_empty(&self) -> (r: bool)
        ensures
            r == (self.entries@.len() == 0),
    {
        self.len() == 0
    }

    /// Determines if `key` is in the `PhfMap`.
    pub fn contains_key<T: ?Sized + PhfHash + PhfEq>(&self, key: &T) -> (r: bool) where
        K: PhfBorrow<T>,

        requires
            self.wf(),
            T::phf_bytes(key@).len() <= usize::MAX,
        ensures
            r == holds::<K, T>(self.keys_view(), key@),
    {
        self.get(key).is_some()
    }

    /// Returns a reference to the value that `key` maps to.
    pub fn get<T: ?Sized + PhfHash + PhfEq>(&self, key: &T) -> (r: Option<&V>) where
        K: PhfBorrow<T>,

        requires
            self.wf(),
            T::phf_bytes(key@).len() <= usize::MAX,
        ensures
            match r {
                Some(v) => exists|i: int|
                    #[trigger] finds::<K, T>(self.keys_view(), key@, i) && v == &self.entries@[i].1,
                None => !holds::<K, T>(self.keys_view(), key@),
            },
    {
        match self.get_entry(key) {
            Some(e) => Some(e.1),
            None => None,
        }
    }

    /// Returns a reference to the map's internal static instance of the given
    /// key.
    ///
    /// This can be useful for interning schemes.
    pub fn get_key<T: ?Sized + PhfHash + PhfEq>(&self, key: &T) -> (r: Option<&K>) where
        K: PhfBorrow<T>,

        requires
            self.wf(),
            T::phf_bytes(key@).len() <= usize::MAX,
        ensures
            match r {
                Some(k) => exists|i: int|
                    #[trigger] finds::<K, T>(self.keys_view(), key@, i) && k == &self.entries@[i].0,
                None => !holds::<K, T>(self.keys_view(), key@),
            },
    {
        match self.get_entry(key) {
            Some(e) => Some(e.0),
            None => None,
        }
    }

    /// Like `get`, but returns both the key and the value.
    pub fn get_entry<T: ?Sized + PhfHash + PhfEq>(&self, key: &T) -> (r: Option<(&K, &V)>) where
        K: PhfBorrow<T>,

        requires
            self.wf(),
            T::phf_bytes(key@).len() <= usize::MAX,
        ensures
            match r {
                Some(e) => exists|i: int|
                    #[trigger] finds::<K, T>(self.keys_view(), key@, i) && e.0 == &self.entries@[i].0
                        && e.1 == &self.entries@[i].1,
                None => !holds::<K, T>(self.keys_view(), key@),
            },
    {
        // Prevent panic on empty map
        if self.disps.len() == 0 {
            return None;
        }
        let hashes = hash(key, &self.key);
        let slot = get_index(&hashes, self.disps.as_slice(), self.entries.len()) as usize;
        let entry = &self.entries[slot];
        if entry.0.borrow().phf_eq(key) {
            proof {
                assert(finds::<K, T>(self.keys_view(), key@, slot as int));
            }
            Some((&entry.0, &entry.1))
        } else {
            proof {
                let keys = self.keys_view();
                if holds::<K, T>(keys, key@) {
                    let i = choose|i: int| finds::<K, T>(keys, key@, i);
                    K::lemma_borrowed(keys[i], keys[i]);
                    assert(key_hashes::<K>(keys, self.key)[i] == hashes);
                }
            }
            None
        }
    }

    /// Returns the entries, in the order of their slots.
    pub fn entries(&self) -> (r: Entries<'_, K, V>)
        ensures
            r.items() == self.entries@,
            r.position() == 0,
    {
        Entries { entries: self.entries.as_slice(), pos: 0 }
    }

    /// Returns the keys, in the order of their slots.
    pub fn keys(&self) -> (r: Keys<'_, K, V>)
        ensures
            r.items() == self.entries@,
            r.position() == 0,
    {
        Keys { iter: self.entries() }
    }

    /// Returns the values, in the order of their slots.
    pub fn values(&self) -> (r: Values<'_, K, V>)
        ensures
            r.items() == self.entries@,
            r.position() == 0,
    {
        Values { iter: self.entries() }
    }
}

/// The entries of a `PhfMap`, in the order of their slots.
pub struct Entries<'a, K, V> {
    entries: &'a [(K, V)],
    pos: usize,
}

impl<'a, K, V> Entries<'a, K, V> {
    /// All the entries, those handed out and those to come.
    pub closed spec fn items(&self) -> Seq<(K, V)> {
        self.entries@
    }

    /// How many entries have been handed out.
    pub closed spec fn position(&self) -> nat {
        self.pos as nat
    }

    /// Hands out the next entry, if any is left.
    pub fn next(&mut self) -> (r: Option<(&'a K, &'a V)>)
        requires
            old(self).position() <= old(self).items().len(),
        ensures
            final(self).items() == old(self).items(),
            final(self).position() <= final(self).items().len(),
            match r {
                Some(e) => {
                    let p = old(self).position() as int;
                    &&& p < old(self).items().len()
                    &&& final(self).position() == p + 1
                    &&& e.0 == &old(self).items()[p].0
                    &&& e.1 == &old(self).items()[p].1
                },
                None => {
                    &&& old(self).position() == old(self).items().len()
                    &&& final(self).position() == old(self).position()
                },
            },
    {
        if self.pos < self.entries.len() {
            let e = &self.entries[self.pos];
            self.pos = self.pos + 1;
            Some((&e.0, &e.1))
        } else {
            None
        }
    }
}

/// The keys of a `PhfMap`, in the order of their slots.
pub struct Keys<'a, K, V> {
    iter: Entries<'a, K, V>,
}

impl<'a, K, V> Keys<'a, K, V> {
    /// All the entries whose keys are handed out.
    pub closed spec fn items(&self) -> Seq<(K, V)> {
        self.iter.items()
    }

    /// How many keys have been handed out.
    pub closed spec fn position(&self) -> nat {
        self.iter.position()
    }

    /// Hands out the next key, if any is left.
    pub fn next(&mut self) -> (r: Option<&'a K>)
        requires
            old(self).position() <= old(self).items().len(),
        ensures
            final(self).items() == old(self).items(),
            final(self).position() <= final(self).items().len(),
            match r {
                Some(k) => {
                    let p = old(self).position() as int;
                    &&& p < old(self).items().len()
                    &&& final(self).position() == p + 1
                    &&& k == &old(self).items()[p].0
                },
                None => {
                    &&& old(self).position() == old(self).items().len()
                    &&& final(self).position() == old(self).position()
                },
            },
    {
        match self.iter.next() {
            Some(e) => Some(e.0),
            None => None,
        }
    }
}

/// The values of a `PhfMap`, in the order of their slots.
pub struct Values<'a, K, V> {
    iter: Entries<'a, K, V>,
}

impl<'a, K, V> Values<'a, K, V> {
    /// All the entries whose values are handed out.
    pub closed spec fn items(&self) -> Seq<(K, V)> {
        self.iter.items()
    }

    /// How many values have been handed out.
    pub closed spec fn position(&self) -> nat {
        self.iter.position()
    }

    /// Hands out the next value, if any is left.
    pub fn next(&mut self) -> (r: Option<&'a V>)
        requires
            old(self).position() <= old(self).items().len(),
        ensures
            final(self).items() == old(self).items(),
            final(self).position() <= final(self).items().len(),
            match r {
                Some(v) => {
                    let p = old(self).position() as int;
                    &&& p < old(self).items().len()
                    &&& final(self).position() == p + 1
                    &&& v == &old(self).items()[p].1
                },
                None => {
                    &&& old(self).position() == old(self).items().len()
                    &&& final(self).position() == old(self).position()
                },
            },
    {
        match self.iter.next() {
            Some(e) => Some(e.1),
            None => None,
        }
    }
}

} // verus!
