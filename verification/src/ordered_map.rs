//! An order-preserving immutable map with a perfect hash index.
use vstd::prelude::*;
use crate::generator::is_perfect;
use crate::shared::{get_index, hash, spec_hash, HashKey, Hashes, PhfBorrow, PhfEq, PhfHash};

verus! {

/// The views of the keys of `entries`.
pub open spec fn entry_keys<K: View, V>(entries: Seq<(K, V)>) -> Seq<K::V> {
    entries.map_values(|e: (K, V)| e.0@)
}

/// The hashes of the keys whose views are `keys`, under the hash key `key`.
pub open spec fn key_hashes<K: PhfHash>(keys: Seq<K::V>, key: HashKey) -> Seq<Hashes> {
    Seq::new(keys.len(), |i: int| spec_hash(K::phf_bytes(keys[i]), key))
}

/// No two of `keys` are equal.
pub open spec fn all_distinct<A>(keys: Seq<A>) -> bool {
    forall|i: int, j: int| 0 <= i < keys.len() && 0 <= j < keys.len() && i != j ==> keys[i] != keys[j]
}

/// The keys can be hashed: each feeds at most `usize::MAX` bytes.
pub open spec fn hashable<K: PhfHash>(keys: Seq<K::V>) -> bool {
    forall|i: int| 0 <= i < keys.len() ==> (#[trigger] K::phf_bytes(keys[i])).len() <= usize::MAX
}

/// Where a lookup of a key whose borrowed view is `k` finds it among `keys`.
pub open spec fn finds<K: PhfBorrow<T>, T: ?Sized + PhfHash>(keys: Seq<K::V>, k: T::V, i: int) -> bool {
    0 <= i < keys.len() && K::borrowed(keys[i]) == k
}

/// `keys` holds a key that borrows as `k`.
pub open spec fn holds<K: PhfBorrow<T>, T: ?Sized + PhfHash>(keys: Seq<K::V>, k: T::V) -> bool {
    exists|i: int| finds::<K, T>(keys, k, i)
}

/// In a map with distinct keys, a key is found at one position at most: a
/// lookup's answer is the entry of the one key that borrows as the key
/// looked up.
pub proof fn lemma_finds_unique<K: PhfBorrow<T>, T: ?Sized + PhfHash>(
    keys: Seq<K::V>,
    k: T::V,
    i: int,
    j: int,
)
    requires
        all_distinct(keys),
        finds::<K, T>(keys, k, i),
        finds::<K, T>(keys, k, j),
    ensures
        i == j,
{
    K::lemma_borrowed(keys[i], keys[j]);
}

/// An order-preserving immutable map constructed at compile time.
///
/// Unlike a `Map`, iteration order is guaranteed to match the definition
/// order.
///
/// ## Note
///
/// The fields of this struct are public so that they may be initialized by the
/// builders and code generation. They are subject to change at any time and
/// should never be accessed directly.
pub struct OrderedMap<K, V> {
    pub key: HashKey,
    pub disps: Vec<(u32, u32)>,
    pub idxs: Vec<usize>,
    pub entries: Vec<(K, V)>,
}

impl<K: PhfHash, V> OrderedMap<K, V> {
    /// The index is a perfect placement of the keys, which are distinct and
    /// hashable.
    pub open spec fn wf(&self) -> bool {
        let keys = entry_keys(self.entries@);
        &&& self.entries@.len() <= u32::MAX
        &&& hashable::<K>(keys)
        &&& all_distinct(keys)
        &&& is_perfect(key_hashes::<K>(keys, self.key), self.disps@, self.idxs@)
    }

    /// The views of the keys, in definition order.
    pub open spec fn keys_view(&self) -> Seq<K::V> {
        entry_keys(self.entries@)
    }

    /// Returns the number of entries in the `Map`.
    pub fn len(&self) -> (r: usize)
        ensures
            r == self.entries@.len(),
    {
        self.entries.len()
    }

    /// Returns true if the `Map` is empty.
    pub fn is_empty(&self) -> (r: bool)
        ensures
            r == (self.entries@.len() == 0),
    {
        self.len() == 0
    }

    /// Returns a reference to the value that `key` maps to.
    pub fn get<T: ?Sized + PhfHash + PhfEq>(&self, key: &T) -> (r: Option<&V>) where
        K: PhfBorrow<T>,

        requires
            self.wf(),
            T::phf_bytes(key@).len() <= usize::MAX,
        ensures
            match r {
                Some(v) => exists|i: int|
                    #[trigger] finds::<K, T>(self.keys_view(), key@, i) && v == &self.entries@[i].1,
                None => !holds::<K, T>(self.keys_view(), key@),
            },
    {
        match self.get_internal(key) {
            Some((_, e)) => Some(e.1),
            None => None,
        }
    }

    /// Returns a reference to the map's internal static instance of the given
    /// key.
    ///
    /// This can be useful for interning schemes.
    pub fn get_key<T: ?Sized + PhfHash + PhfEq>(&self, key: &T) -> (r: Option<&K>) where
        K: PhfBorrow<T>,

        requires
            self.wf(),
            T::phf_bytes(key@).len() <= usize::MAX,
        ensures
            match r {
                Some(k) => exists|i: int|
                    #[trigger] finds::<K, T>(self.keys_view(), key@, i) && k == &self.entries@[i].0,
                None => !holds::<K, T>(self.keys_view(), key@),
            },
    {
        match self.get_internal(key) {
            Some((_, e)) => Some(e.0),
            None => None,
        }
    }

    /// Determines if `key` is in the `Map`.
    pub fn contains_key<T: ?Sized + PhfHash + PhfEq>(&self, key: &T) -> (r: bool) where
        K: PhfBorrow<T>,

        requires
            self.wf(),
            T::phf_bytes(key@).len() <= usize::MAX,
        ensures
            r == holds::<K, T>(self.keys_view(), key@),
    {
        self.get(key).is_some()
    }

    /// Returns the index of the key within the list used to initialize
    /// the ordered map.
    pub fn get_index<T: ?Sized + PhfHash + PhfEq>(&self, key: &T) -> (r: Option<usize>) where
        K: PhfBorrow<T>,

        requires
            self.wf(),
            T::phf_bytes(key@).len() <= usize::MAX,
        ensures
            match r {
                Some(i) => finds::<K, T>(self.keys_view(), key@, i as int),
                None => !holds::<K, T>(self.keys_view(), key@),
            },
    {
        match self.get_internal(key) {
            Some((i, _)) => Some(i),
            None => None,
        }
    }

    /// Like `get`, but returns both the key and the value.
    pub fn get_entry<T: ?Sized + PhfHash + PhfEq>(&self, key: &T) -> (r: Option<(&K, &V)>) where
        K: PhfBorrow<T>,

        requires
            self.wf(),
            T::phf_bytes(key@).len() <= usize::MAX,
        ensures
            match r {
                Some(e) => exists|i: int|
                    #[trigger] finds::<K, T>(self.keys_view(), key@, i) && e.0 == &self.entries@[i].0 && e.1
                        == &self.entries@[i].1,
                None => !holds::<K, T>(self.keys_view(), key@),
            },
    {
        match self.get_internal(key) {
            Some((_, e)) => Some(e),
            None => None,
        }
    }

    /// Returns the entry at `index` in definition order.
    pub fn index(&self, index: usize) -> (r: Option<(&K, &V)>)
        ensures
            match r {
                Some(e) => index < self.entries@.len() && e.0 == &self.entries@[index as int].0
                    && e.1 == &self.entries@[index as int].1,
                None => index >= self.entries@.len(),
            },
    {
        if index < self.entries.len() {
            let e = &self.entries[index];
            Some((&e.0, &e.1))
        } else {
            None
        }
    }

    fn get_internal<T: ?Sized + PhfHash + PhfEq>(&self, key: &T) -> (r: Option<(usize, (&K, &V))>) where
        K: PhfBorrow<T>,

        requires
            self.wf(),
            T::phf_bytes(key@).len() <= usize::MAX,
        ensures
            match r {
                Some((i, e)) => finds::<K, T>(self.keys_view(), key@, i as int) && e.0
                    == &self.entries@[i as int].0 && e.1 == &self.entries@[i as int].1,
                None => !holds::<K, T>(self.keys_view(), key@),
            },
    {
        // An empty map holds no key (and has no buckets to look in).
        if self.disps.len() == 0 {
            proof {
                assert(self.entries@.len() == 0);
            }
            return None;
        }
        let hashes = hash(key, &self.key);
        let slot = get_index(&hashes, self.disps.as_slice(), self.idxs.len()) as usize;
        let idx = self.idxs[slot];
        let entry = &self.entries[idx];

        if entry.0.borrow().phf_eq(key) {
            Some((idx, (&entry.0, &entry.1)))
        } else {
            proof {
                let keys = self.keys_view();
                if holds::<K, T>(keys, key@) {
                    let i = choose|i: int| finds::<K, T>(keys, key@, i);
                    K::lemma_borrowed(keys[i], keys[i]);
                    assert(key_hashes::<K>(keys, self.key)[i] == hashes);
                    assert(self.idxs@[slot as int] == i);
                }
            }
            None
        }
    }

    /// Returns the entries in the same order in which they were defined.
    pub fn entries(&self) -> (r: Entries<'_, K, V>)
        ensures
            r.items() == self.entries@,
            r.position() == 0,
    {
        Entries { entries: self.entries.as_slice(), pos: 0 }
    }

    /// Returns the keys in the same order in which they were defined.
    pub fn keys(&self) -> (r: Keys<'_, K, V>)
        ensures
            r.items() == self.entries@,
            r.position() == 0,
    {
        Keys { iter: self.entries() }
    }

    /// Returns the values in the same order in which they were defined.
    pub fn values(&self) -> (r: Values<'_, K, V>)
        ensures
            r.items() == self.entries@,
            r.position() == 0,
    {
        Values { iter: self.entries() }
    }
}

/// The entries of an `OrderedMap`, in definition order.
pub struct Entries<'a, K, V> {
    entries: &'a [(K, V)],
    pos: usize,
}

impl<'a, K, V> Entries<'a, K, V> {
    /// All the entries, those handed out and those to come.
    pub closed spec fn items(&self) -> Seq<(K, V)> {
        self.entries@
    }

    /// How many entries have been handed out.
    pub closed spec fn position(&self) -> nat {
        self.pos as nat
    }

    /// Hands out the next entry, if any is left.
    pub fn next(&mut self) -> (r: Option<(&'a K, &'a V)>)
        requires
            old(self).position() <= old(self).items().len(),
        ensures
            final(self).items() == old(self).items(),
            final(self).position() <= final(self).items().len(),
            match r {
                Some(e) => {
                    let p = old(self).position() as int;
                    &&& p < old(self).items().len()
                    &&& final(self).position() == p + 1
                    &&& e.0 == &old(self).items()[p].0
                    &&& e.1 == &old(self).items()[p].1
                },
                None => {
                    &&& old(self).position() == old(self).items().len()
                    &&& final(self).position() == old(self).position()
                },
            },
    {
        if self.pos < self.entries.len() {
            let e = &self.entries[self.pos];
            self.pos = self.pos + 1;
            Some((&e.0, &e.1))
        } else {
            None
        }
    }
}

/// The keys of an `OrderedMap`, in definition order.
pub struct Keys<'a, K, V> {
    iter: Entries<'a, K, V>,
}

impl<'a, K, V> Keys<'a, K, V> {
    /// All the entries whose keys are handed out.
    pub closed spec fn items(&self) -> Seq<(K, V)> {
        self.iter.items()
    }

    /// How many keys have been handed out.
    pub closed spec fn position(&self) -> nat {
        self.iter.position()
    }

    /// Hands out the next key, if any is left.
    pub fn next(&mut self) -> (r: Option<&'a K>)
        requires
            old(self).position() <= old(self).items().len(),
        ensures
            final(self).items() == old(self).items(),
            final(self).position() <= final(self).items().len(),
            match r {
                Some(k) => {
                    let p = old(self).position() as int;
                    &&& p < old(self).items().len()
                    &&& final(self).position() == p + 1
                    &&& k == &old(self).items()[p].0
                },
                None => {
                    &&& old(self).position() == old(self).items().len()
                    &&& final(self).position() == old(self).position()
                },
            },
    {
        match self.iter.next() {
            Some(e) => Some(e.0),
            None => None,
        }
    }
}

/// The values of an `OrderedMap`, in definition order.
pub struct Values<'a, K, V> {
    iter: Entries<'a, K, V>,
}

impl<'a, K, V> Values<'a, K, V> {
    /// All the entries whose values are handed out.
    pub closed spec fn items(&self) -> Seq<(K, V)> {
        self.iter.items()
    }

    /// How many values have been handed out.
    pub closed spec fn position(&self) -> nat {
        self.iter.position()
    }

    /// Hands out the next value, if any is left.
    pub fn next(&mut self) -> (r: Option<&'a V>)
        requires
            old(self).position() <= old(self).items().len(),
        ensures
            final(self).items() == old(self).items(),
            final(self).position() <= final(self).items().len(),
            match r {
                Some(v) => {
                    let p = old(self).position() as int;
                    &&& p < old(self).items().len()
                    &&& final(self).position() == p + 1
                    &&& v == &old(self).items()[p].1
                },
                None => {
                    &&& old(self).position() == old(self).items().len()
                    &&& final(self).position() == old(self).position()
                },
            },
    {
        match self.iter.next() {
            Some(e) => Some(e.1),
            None => None,
        }
    }
}

} // verus!
