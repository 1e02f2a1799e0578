//! An immutable bidirectional map: entries are found by either side.
use vstd::prelude::*;
use crate::generator::is_perfect;
use crate::ordered_map::{all_distinct, finds, hashable, holds, key_hashes};
use crate::shared::{get_index, hash, HashKey, PhfBorrow, PhfEq, PhfHash};

verus! {

/// The views of the left sides of `entries`.
pub open spec fn left_views<L: View, R>(entries: Seq<(L, R)>) -> Seq<L::V> {
    entries.map_values(|e: (L, R)| e.0@)
}

/// The views of the right sides of `entries`.
pub open spec fn right_views<L, R: View>(entries: Seq<(L, R)>) -> Seq<R::V> {
    entries.map_values(|e: (L, R)| e.1@)
}

/// An immutable bidirectional-map constructed at compile time.
///
/// ## Note
///
/// The fields of this struct are public so that they may be initialized by
/// code generation. They are subject to change at any time and should never
/// be accessed directly.
pub struct BiMap<L, R> {
    pub key0: HashKey,
    pub key1: HashKey,
    pub disps0: Vec<(u32, u32)>,
    pub disps1: Vec<(u32, u32)>,
    pub idxs0: Vec<usize>,
    pub idxs1: Vec<usize>,
    pub entries: Vec<(L, R)>,
}

impl<L: PhfHash, R: PhfHash> BiMap<L, R> {
    /// Both indexes place their side perfectly; each side's values are
    /// distinct and hashable.
    pub open spec fn wf(&self) -> bool {
        let lefts = left_views(self.entries@);
        let rights = right_views(self.entries@);
        &&& self.entries@.len() <= u32::MAX
        &&& hashable::<L>(lefts)
        &&& hashable::<R>(rights)
        &&& all_distinct(lefts)
        &&& all_distinct(rights)
        &&& is_perfect(key_hashes::<L>(lefts, self.key0), self.disps0@, self.idxs0@)
        &&& is_perfect(key_hashes::<R>(rights, self.key1), self.disps1@, self.idxs1@)
    }

    /// Create a new, empty, immutable map.
    pub fn new() -> (r: Self)
        ensures
            r.wf(),
            r.entries@ == Seq::<(L, R)>::empty(),
    {
        let r = Self {
            key0: 0,
            key1: 0,
            disps0: Vec::new(),
            disps1: Vec::new(),
            idxs0: Vec::new(),
            idxs1: Vec::new(),
            entries: Vec::new(),
        };
        proof {
            assert(key_hashes::<L>(left_views(r.entries@), 0) =~= Seq::empty());
            assert(key_hashes::<R>(right_views(r.entries@), 0) =~= Seq::empty());
        }
        r
    }

    /// Returns the number of entries in the `Map`.
    pub fn len(&self) -> (r: usize)
        ensures
            r == self.entries@.len(),
    {
        self.entries.len()
    }

    /// Returns true if the `Map` is empty.
    pub fn is_empty(&self) -> (r: bool)
        ensures
            r == (self.entries@.len() == 0),
    {
        self.len() == 0
    }

    /// Determines if `key` is a left value in the `Map`.
    pub fn contains_left<T: ?Sized + PhfHash + PhfEq>(&self, key: &T) -> (r: bool) where
        L: PhfBorrow<T>,

        requires
            self.wf(),
            T::phf_bytes(key@).len() <= usize::MAX,
        ensures
            r == holds::<L, T>(left_views(self.entries@), key@),
    {
        self.get_entry_by_left(key).is_some()
    }

    /// Determines if `key` is a right value in the `Map`.
    pub fn contains_right<T: ?Sized + PhfHash + PhfEq>(&self, key: &T) -> (r: bool) where
        R: PhfBorrow<T>,

        requires
            self.wf(),
            T::phf_bytes(key@).len() <= usize::MAX,
        ensures
            r == holds::<R, T>(right_views(self.entries@), key@),
    {
        self.get_entry_by_right(key).is_some()
    }

    /// Returns the entry whose left value is `key`.
    pub fn get_entry_by_left<T: ?Sized + PhfHash + PhfEq>(&self, key: &T) -> (r: Option<(&L, &R)>) where
        L: PhfBorrow<T>,

        requires
            self.wf(),
            T::phf_bytes(key@).len() <= usize::MAX,
        ensures
            match r {
                Some(e) => exists|i: int|
                    #[trigger] finds::<L, T>(left_views(self.entries@), key@, i) && e.0
                        == &self.entries@[i].0 && e.1 == &self.entries@[i].1,
                None => !holds::<L, T>(left_views(self.entries@), key@),
            },
    {
        if self.disps0.len() == 0 {
            return None;
        }  //Prevent panic on empty map
        let hashes = hash(key, &self.key0);
        let idx_index = get_index(&hashes, self.disps0.as_slice(), self.entries.len());
        let idx = self.idxs0[idx_index as usize];
        let entry = &self.entries[idx];

        if entry.0.borrow().phf_eq(key) {
            proof {
                assert(finds::<L, T>(left_views(self.entries@), key@, idx as int));
            }
            Some((&entry.0, &entry.1))
        } else {
            proof {
                let lefts = left_views(self.entries@);
                if holds::<L, T>(lefts, key@) {
                    let i = choose|i: int| finds::<L, T>(lefts, key@, i);
                    L::lemma_borrowed(lefts[i], lefts[i]);
                    assert(key_hashes::<L>(lefts, self.key0)[i] == hashes);
                }
            }
            None
        }
    }

    /// Returns the entry whose right value is `key`.
    pub fn get_entry_by_right<T: ?Sized + PhfHash + PhfEq>(&self, key: &T) -> (r: Option<(&L, &R)>) where
        R: PhfBorrow<T>,

        requires
            self.wf(),
            T::phf_bytes(key@).len() <= usize::MAX,
        ensures
            match r {
                Some(e) => exists|i: int|
                    #[trigger] finds::<R, T>(right_views(self.entries@), key@, i) && e.0
                        == &self.entries@[i].0 && e.1 == &self.entries@[i].1,
                None => !holds::<R, T>(right_views(self.entries@), key@),
            },
    {
        if self.disps0.len() == 0 {
            return None;
        }  //Prevent panic on empty map
        let hashes = hash(key, &self.key1);
        let idx_index = get_index(&hashes, self.disps1.as_slice(), self.entries.len());
        let idx = self.idxs1[idx_index as usize];
        let entry = &self.entries[idx];

        if entry.1.borrow().phf_eq(key) {
            proof {
                assert(finds::<R, T>(right_views(self.entries@), key@, idx as int));
            }
            Some((&entry.0, &entry.1))
        } else {
            proof {
                let rights = right_views(self.entries@);
                if holds::<R, T>(rights, key@) {
                    let i = choose|i: int| finds::<R, T>(rights, key@, i);
                    R::lemma_borrowed(rights[i], rights[i]);
                    assert(key_hashes::<R>(rights, self.key1)[i] == hashes);
                }
            }
            None
        }
    }

    /// Each side of an entry finds that entry and no other: a lookup by the
    /// left value of an entry, and one by its right value, both answer that
    /// entry.
    pub proof fn law_sides_find_their_entry<T: ?Sized + PhfHash, U: ?Sized + PhfHash>(&self, i: int) where
        L: PhfBorrow<T>,
        R: PhfBorrow<U>,

        requires
            self.wf(),
            0 <= i < self.entries@.len(),
        ensures
            holds::<L, T>(left_views(self.entries@), L::borrowed(self.entries@[i].0@)),
            holds::<R, U>(right_views(self.entries@), R::borrowed(self.entries@[i].1@)),
            forall|j: int|
                finds::<L, T>(left_views(self.entries@), L::borrowed(self.entries@[i].0@), j) ==> j == i,
            forall|j: int|
                finds::<R, U>(right_views(self.entries@), R::borrowed(self.entries@[i].1@), j) ==> j == i,
    {
        let lefts = left_views(self.entries@);
        let rights = right_views(self.entries@);
        assert(finds::<L, T>(lefts, L::borrowed(self.entries@[i].0@), i));
        assert(finds::<R, U>(rights, R::borrowed(self.entries@[i].1@), i));
        assert forall|j: int| finds::<L, T>(lefts, L::borrowed(self.entries@[i].0@), j) implies j == i by {
            crate::ordered_map::lemma_finds_unique::<L, T>(lefts, L::borrowed(self.entries@[i].0@), i, j);
        }
        assert forall|j: int| finds::<R, U>(rights, R::borrowed(self.entries@[i].1@), j) implies j == i by {
            crate::ordered_map::lemma_finds_unique::<R, U>(rights, R::borrowed(self.entries@[i].1@), i, j);
        }
    }

    /// Returns the entries, in the order they were given in.
    pub fn entries(&self) -> (r: Entries<'_, L, R>)
        ensures
            r.items() == self.entries@,
            r.position() == 0,
    {
        Entries { entries: self.entries.as_slice(), pos: 0 }
    }

    /// Returns the left values, in the order they were given in.
    pub fn left_entries(&self) -> (r: LeftEntries<'_, L, R>)
        ensures
            r.items() == self.entries@,
            r.position() == 0,
    {
        LeftEntries { iter: self.entries() }
    }

    /// Returns the right values, in the order they were given in.
    pub fn right_entries(&self) -> (r: RightEntries<'_, L, R>)
        ensures
            r.items() == self.entries@,
            r.position() == 0,
    {
        RightEntries { iter: self.entries() }
    }
}

impl<L: PhfHash, R: PhfHash> Default for BiMap<L, R> {
    fn default() -> (r: Self)
        ensures
            r.wf(),
            r.entries@ == Seq::<(L, R)>::empty(),
    {
        Self::new()
    }
}

/// The entries of a `BiMap`, in the order they were given in.
pub struct Entries<'a, L, R> {
    entries: &'a [(L, R)],
    pos: usize,
}

impl<'a, L, R> Entries<'a, L, R> {
    /// All the entries, those handed out and those to come.
    pub closed spec fn items(&self) -> Seq<(L, R)> {
        self.entries@
    }

    /// How many entries have been handed out.
    pub closed spec fn position(&self) -> nat {
        self.pos as nat
    }

    /// Hands out the next entry, if any is left.
    pub fn next(&mut self) -> (r: Option<(&'a L, &'a R)>)
        requires
            old(self).position() <= old(self).items().len(),
        ensures
            final(self).items() == old(self).items(),
            final(self).position() <= final(self).items().len(),
            match r {
                Some(e) => {
                    let p = old(self).position() as int;
                    &&& p < old(self).items().len()
                    &&& final(self).position() == p + 1
                    &&& e.0 == &old(self).items()[p].0
                    &&& e.1 == &old(self).items()[p].1
                },
                None => {
                    &&& old(self).position() == old(self).items().len()
                    &&& final(self).position() == old(self).position()
                },
            },
    {
        if self.pos < self.entries.len() {
            let e = &self.entries[self.pos];
            self.pos = self.pos + 1;
            Some((&e.0, &e.1))
        } else {
            None
        }
    }
}

/// The left values of a `BiMap`, in the order they were given in.
pub struct LeftEntries<'a, L, R> {
    iter: Entries<'a, L, R>,
}

impl<'a, L, R> LeftEntries<'a, L, R> {
    /// All the entries whose keys are handed out.
    pub closed spec fn items(&self) -> Seq<(L, R)> {
        self.iter.items()
    }

    /// How many keys have been handed out.
    pub closed spec fn position(&self) -> nat {
        self.iter.position()
    }

    /// Hands out the next key, if any is left.
    pub fn next(&mut self) -> (r: Option<&'a L>)
        requires
            old(self).position() <= old(self).items().len(),
        ensures
            final(self).items() == old(self).items(),
            final(self).position() <= final(self).items().len(),
            match r {
                Some(k) => {
                    let p = old(self).position() as int;
                    &&& p < old(self).items().len()
                    &&& final(self).position() == p + 1
                    &&& k == &old(self).items()[p].0
                },
                None => {
                    &&& old(self).position() == old(self).items().len()
                    &&& final(self).position() == old(self).position()
                },
            },
    {
        match self.iter.next() {
            Some(e) => Some(e.0),
            None => None,
        }
    }
}

/// The right values of a `BiMap`, in the order they were given in.
pub struct RightEntries<'a, L, R> {
    iter: Entries<'a, L, R>,
}

impl<'a, L, R> RightEntries<'a, L, R> {
    /// All the entries whose values are handed out.
    pub closed spec fn items(&self) -> Seq<(L, R)> {
        self.iter.items()
    }

    /// How many values have been handed out.
    pub closed spec fn position(&self) -> nat {
        self.iter.position()
    }

    /// Hands out the next value, if any is left.
    pub fn next(&mut self) -> (r: Option<&'a R>)
        requires
            old(self).position() <= old(self).items().len(),
        ensures
            final(self).items() == old(self).items(),
            final(self).position() <= final(self).items().len(),
            match r {
                Some(v) => {
                    let p = old(self).position() as int;
                    &&& p < old(self).items().len()
                    &&& final(self).position() == p + 1
                    &&& v == &old(self).items()[p].1
                },
                None => {
                    &&& old(self).position() == old(self).items().len()
                    &&& final(self).position() == old(self).position()
                },
            },
    {
        match self.iter.next() {
            Some(e) => Some(e.1),
            None => None,
        }
    }
}

} // verus!
