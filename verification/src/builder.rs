//! Builders that collect entries at run time and solve their perfect hash.
use vstd::prelude::*;
use crate::generator::{chd_generated, generate_hash, is_perfect, unsolvable, HashState};
use crate::map::PhfMap;
use crate::ordered_map::{all_distinct, entry_keys, hashable, key_hashes, OrderedMap as PhfOrderedMap};
use crate::ordered_set::OrderedSet as PhfOrderedSet;
use crate::set::PhfSet;
use crate::shared::{spec_hash, PhfBorrow, PhfHash};

verus! {

/// The views of `keys`.
pub open spec fn views<K: View>(keys: Seq<K>) -> Seq<K::V> {
    keys.map_values(|k: K| k@)
}

/// `keys` paired with `values`, position by position.
pub open spec fn zipped<K, V>(keys: Seq<K>, values: Seq<V>) -> Seq<(K, V)> {
    Seq::new(keys.len(), |i: int| (keys[i], values[i]))
}

/// What `build` needs of the keys: they are distinct, hashable, and few
/// enough to be indexed by `u32`.
pub open spec fn buildable<K: PhfHash>(keys: Seq<K>) -> bool {
    &&& keys.len() <= u32::MAX
    &&& hashable::<K>(views(keys))
    &&& all_distinct(views(keys))
}

/// `entries` holds the pairs of `keys` and `values`, each once, in some order.
pub open spec fn is_reordering<K, V>(entries: Seq<(K, V)>, keys: Seq<K>, values: Seq<V>) -> bool {
    exists|p: Seq<usize>|
        #![trigger p.len()]
        p.len() == keys.len() && entries.len() == keys.len() && (forall|s: int|
            0 <= s < p.len() ==> #[trigger] p[s] < keys.len() && entries[s] == (
                keys[p[s] as int],
                values[p[s] as int],
            )) && (forall|s: int, t: int|
            0 <= s < p.len() && 0 <= t < p.len() && s != t ==> p[s] != p[t])
}

/// A builder for the `phf::Map` type.
pub struct MapBuilder<K, V> {
    keys: Vec<K>,
    values: Vec<V>,
}

impl<K: PhfHash, V> MapBuilder<K, V> {
    /// The keys added so far.
    pub closed spec fn pending_keys(&self) -> Seq<K> {
        self.keys@
    }

    /// The values added so far.
    pub closed spec fn pending_values(&self) -> Seq<V> {
        self.values@
    }

    /// A key and a value were added together each time.
    pub closed spec fn wf(&self) -> bool {
        self.keys@.len() == self.values@.len()
    }

    /// Creates a new `phf::Map` builder.
    pub fn new() -> (r: Self)
        ensures
            r.wf(),
            r.pending_keys() == Seq::<K>::empty(),
            r.pending_values() == Seq::<V>::empty(),
    {
        MapBuilder { keys: Vec::new(), values: Vec::new() }
    }

    /// Adds an entry to the builder.
    pub fn entry(&mut self, key: K, value: V) -> (r: &mut Self)
        requires
            old(self).wf(),
        ensures
            r.wf(),
            r.pending_keys() == old(self).pending_keys().push(key),
            r.pending_values() == old(self).pending_values().push(value),
            *final(self) == *final(r),
    {
        self.keys.push(key);
        self.values.push(value);
        self
    }

    /// Constructs a `phf::Map`.
    ///
    /// The keys must be distinct. `None` only if the generator runs out of
    /// hash keys to try.
    pub fn build(self) -> (r: Option<PhfMap<K, V>>)
        requires
            self.wf(),
            buildable(self.pending_keys()),
        ensures
            match r {
                Some(m) => m.wf() && is_reordering(
                    m.entries@,
                    self.pending_keys(),
                    self.pending_values(),
                ),
                None => self.pending_keys().len() > 0 && unsolvable(self.pending_keys()),
            },
            r matches Some(m) ==> exists|st: HashState|
                #[trigger] chd_generated(self.pending_keys(), Some(st)) && m.key == st.key && m.disps@ == st.disps@
                    && m.entries@.len() == st.map@.len() && forall|s: int|
                    0 <= s < m.entries@.len() ==> #[trigger] m.entries@[s] == (
                        self.pending_keys()[st.map@[s] as int],
                        self.pending_values()[st.map@[s] as int],
                    ),
            r is None ==> chd_generated(self.pending_keys(), None),
    {
        proof {
            assert forall|i: int| 0 <= i < self.keys@.len() implies (#[trigger] K::phf_bytes(
                self.keys@[i]@,
            )).len() <= usize::MAX by {
                assert(views(self.keys@)[i] == self.keys@[i]@);
            }
        }
        let state = match generate_hash(self.keys.as_slice()) {
            Some(state) => state,
            None => return None,
        };
        let ghost ks = self.keys@;
        let ghost vs = self.values@;
        let ghost hs = Seq::new(ks.len(), |i: int| spec_hash(K::phf_bytes(ks[i]@), state.key));
        proof {
            assert(hs =~= key_hashes::<K>(views(ks), state.key));
        }
        let MapBuilder { mut keys, mut values } = self;
        let n = keys.len();

        // Hold each entry at its position until it goes to its slot.
        let mut pending: Vec<Option<(K, V)>> = Vec::new();
        let mut i: usize = 0;
        while i < n
            invariant
                i <= n,
                pending@.len() == i,
                forall|j: int| 0 <= j < i ==> (#[trigger] pending@[j]) is None,
            decreases n - i,
        {
            pending.push(None);
            i = i + 1;
        }
        let mut j: usize = n;
        while j > 0
            invariant
                j <= n,
                n == ks.len(),
                ks.len() == vs.len(),
                keys@ == ks.take(j as int),
                values@ == vs.take(j as int),
                pending@.len() == n,
                forall|t: int| 0 <= t < j ==> (#[trigger] pending@[t]) is None,
                forall|t: int| j <= t < n ==> #[trigger] pending@[t] == Some((ks[t], vs[t])),
            decreases j,
        {
            j = j - 1;
            let key = keys.pop().unwrap();
            let value = values.pop().unwrap();
            proof {
                assert(ks.take(j as int + 1).drop_last() =~= ks.take(j as int));
                assert(vs.take(j as int + 1).drop_last() =~= vs.take(j as int));
            }
            pending.set(j, Some((key, value)));
        }

        // Move each entry to the slot that holds its index.
        let mut entries: Vec<(K, V)> = Vec::new();
        let mut s: usize = 0;
        while s < n
            invariant
                s <= n,
                n == ks.len(),
                ks.len() == vs.len(),
                hs.len() == n,
                is_perfect(hs, state.disps@, state.map@),
                pending@.len() == n,
                entries@.len() == s,
                forall|t: int|
                    0 <= t < s ==> #[trigger] entries@[t] == (
                        ks[state.map@[t] as int],
                        vs[state.map@[t] as int],
                    ),
                forall|x: int|
                    0 <= x < n ==> (#[trigger] pending@[x] is None <==> exists|t: int|
                        0 <= t < s && state.map@[t] == x),
                forall|x: int|
                    0 <= x < n && pending@[x] is Some ==> #[trigger] pending@[x] == Some(
                        (ks[x], vs[x]),
                    ),
            decreases n - s,
        {
            let slot_key = state.map[s];
            let mut taken: Option<(K, V)> = None;
            proof {
                if pending@[slot_key as int] is None {
                    let t = choose|t: int| 0 <= t < s && state.map@[t] == slot_key;
                    assert(spec_get_index_of(hs, state.disps@, state.map@, t) == t);
                    assert(spec_get_index_of(hs, state.disps@, state.map@, s as int) == s);
                }
            }
            pending.set_and_swap(slot_key, &mut taken);
            match taken {
                Some(e) => {
                    entries.push(e);
                },
                None => {
                    proof {
                        assert(false);
                    }
                },
            }
            proof {
                assert forall|x: int|
                    0 <= x < n implies (#[trigger] pending@[x] is None <==> exists|t: int|
                        0 <= t < s + 1 && state.map@[t] == x) by {
                    if x == slot_key {
                        assert(state.map@[s as int] == x);
                    }
                }
            }
            s = s + 1;
        }
        let ghost st = state;
        let map = PhfMap { key: state.key, disps: state.disps, entries };
        proof {
            assert(chd_generated(ks, Some(st)));
            let p = state.map@;
            assert forall|t: int, u: int|
                0 <= t < n && 0 <= u < n && t != u implies p[t] != p[u] by {
                assert(spec_get_index_of(hs, state.disps@, p, t) == t);
                assert(spec_get_index_of(hs, state.disps@, p, u) == u);
            }
            assert(is_reordering(map.entries@, ks, vs));
            let keys_out = entry_keys(map.entries@);
            assert forall|t: int| 0 <= t < n implies #[trigger] keys_out[t] == ks[p[t] as int]@ by {
            }
            assert forall|t: int, u: int|
                0 <= t < n && 0 <= u < n && t != u implies keys_out[t] != keys_out[u] by {
                assert(views(ks)[p[t] as int] == keys_out[t]);
                assert(views(ks)[p[u] as int] == keys_out[u]);
            }
            assert forall|t: int| 0 <= t < n implies (#[trigger] K::phf_bytes(keys_out[t])).len()
                <= usize::MAX by {
                assert(views(ks)[p[t] as int] == keys_out[t]);
            }
            assert forall|t: int| 0 <= t < n implies crate::shared::spec_get_index(
                #[trigger] key_hashes::<K>(keys_out, state.key)[t],
                state.disps@,
                n as nat,
            ) == t by {
                assert(key_hashes::<K>(keys_out, state.key)[t] == hs[p[t] as int]);
                assert(spec_get_index_of(hs, state.disps@, p, t) == t);
            }
        }
        Some(map)
    }
}

/// Pairs `keys` with `values`, position by position.
fn zip_entries<K, V>(keys: Vec<K>, values: Vec<V>) -> (r: Vec<(K, V)>)
    requires
        keys@.len() == values@.len(),
    ensures
        r@ == zipped(keys@, values@),
{
    let ghost ks = keys@;
    let ghost vs = values@;
    let mut keys = keys;
    let mut values = values;
    let n = keys.len();
    // Pop from the back, then pop again to restore the order.
    let mut rev: Vec<(K, V)> = Vec::new();
    while keys.len() > 0
        invariant
            n == ks.len(),
            ks.len() == vs.len(),
            keys@.len() == values@.len(),
            keys@.len() <= n,
            keys@ == ks.take(keys@.len() as int),
            values@ == vs.take(keys@.len() as int),
            rev@.len() == n - keys@.len(),
            forall|t: int|
                0 <= t < rev@.len() ==> #[trigger] rev@[t] == (ks[n - 1 - t], vs[n - 1 - t]),
        decreases keys@.len(),
    {
        let ghost m = keys@.len();
        let key = keys.pop().unwrap();
        let value = values.pop().unwrap();
        proof {
            assert(ks.take(m as int).drop_last() =~= ks.take(m - 1));
            assert(vs.take(m as int).drop_last() =~= vs.take(m - 1));
        }
        rev.push((key, value));
    }
    let mut entries: Vec<(K, V)> = Vec::new();
    while rev.len() > 0
        invariant
            n == ks.len(),
            ks.len() == vs.len(),
            rev@.len() <= n,
            entries@.len() == n - rev@.len(),
            forall|t: int|
                0 <= t < rev@.len() ==> #[trigger] rev@[t] == (ks[n - 1 - t], vs[n - 1 - t]),
            forall|t: int| 0 <= t < entries@.len() ==> #[trigger] entries@[t] == (ks[t], vs[t]),
        decreases rev@.len(),
    {
        let e = rev.pop().unwrap();
        entries.push(e);
    }
    proof {
        assert(entries@ =~= zipped(ks, vs));
    }
    entries
}

/// A builder for the `phf::Set` type.
pub struct SetBuilder<T> {
    map: MapBuilder<T, ()>,
}

impl<T: PhfHash> SetBuilder<T> {
    /// The values added so far.
    pub closed spec fn pending(&self) -> Seq<T> {
        self.map.pending_keys()
    }

    /// The underlying builder is well formed.
    pub closed spec fn wf(&self) -> bool {
        self.map.wf()
    }

    /// Constructs a new `phf::Set` builder.
    pub fn new() -> (r: Self)
        ensures
            r.wf(),
            r.pending() == Seq::<T>::empty(),
    {
        SetBuilder { map: MapBuilder::new() }
    }

    /// Adds an entry to the builder.
    pub fn entry(&mut self, entry: T) -> (r: &mut Self)
        requires
            old(self).wf(),
        ensures
            r.wf(),
            r.pending() == old(self).pending().push(entry),
            *final(self) == *final(r),
    {
        self.map.entry(entry, ());
        self
    }

    /// Constructs a `phf::Set`.
    ///
    /// The values must be distinct. `None` only if the generator runs out of
    /// hash keys to try.
    pub fn build(self) -> (r: Option<PhfSet<T>>)
        requires
            self.wf(),
            buildable(self.pending()),
        ensures
            match r {
                Some(set) => set.wf() && is_reordering(
                    set.map.entries@,
                    self.pending(),
                    Seq::new(self.pending().len(), |_i: int| ()),
                ),
                None => self.pending().len() > 0 && unsolvable(self.pending()),
            },
            r matches Some(set) ==> exists|st: HashState|
                #[trigger] chd_generated(self.pending(), Some(st)) && set.map.key == st.key && set.map.disps@
                    == st.disps@ && set.map.entries@.len() == st.map@.len() && forall|s: int|
                    0 <= s < set.map.entries@.len() ==> #[trigger] set.map.entries@[s].0 == self.pending()[st.map@[s] as int],
            r is None ==> chd_generated(self.pending(), None),
    {
        proof {
            assert(self.map.pending_values() =~= Seq::new(self.pending().len(), |_i: int| ()));
        }
        match self.map.build() {
            Some(map) => Some(PhfSet { map }),
            None => None,
        }
    }
}

/// A builder for the `phf::OrderedMap` type.
pub struct OrderedMap<K, V> {
    keys: Vec<K>,
    values: Vec<V>,
}

impl<K: PhfHash, V> OrderedMap<K, V> {
    /// The keys added so far.
    pub closed spec fn pending_keys(&self) -> Seq<K> {
        self.keys@
    }

    /// The values added so far.
    pub closed spec fn pending_values(&self) -> Seq<V> {
        self.values@
    }

    /// A key and a value were added together each time.
    pub closed spec fn wf(&self) -> bool {
        self.keys@.len() == self.values@.len()
    }

    /// Constructs a new `phf::OrderedMap` builder.
    pub fn new() -> (r: Self)
        ensures
            r.wf(),
            r.pending_keys() == Seq::<K>::empty(),
            r.pending_values() == Seq::<V>::empty(),
    {
        OrderedMap { keys: Vec::new(), values: Vec::new() }
    }

    /// Adds an entry to the builder.
    pub fn entry(&mut self, key: K, value: V) -> (r: &mut Self)
        requires
            old(self).wf(),
        ensures
            r.wf(),
            r.pending_keys() == old(self).pending_keys().push(key),
            r.pending_values() == old(self).pending_values().push(value),
            *final(self) == *final(r),
    {
        self.keys.push(key);
        self.values.push(value);
        self
    }

    /// Constructs a `phf::OrderedMap`: the entries keep the order in which
    /// they were added.
    ///
    /// The keys must be distinct. `None` only if the generator runs out of
    /// hash keys to try.
    pub fn build(self) -> (r: Option<PhfOrderedMap<K, V>>)
        requires
            self.wf(),
            buildable(self.pending_keys()),
        ensures
            match r {
                Some(m) => m.wf() && m.entries@ == zipped(
                    self.pending_keys(),
                    self.pending_values(),
                ),
                None => self.pending_keys().len() > 0 && unsolvable(self.pending_keys()),
            },
            r matches Some(m) ==> exists|st: HashState|
                #[trigger] chd_generated(self.pending_keys(), Some(st)) && m.key == st.key && m.disps@ == st.disps@
                    && m.idxs@ == st.map@,
            r is None ==> chd_generated(self.pending_keys(), None),
    {
        proof {
            assert forall|i: int| 0 <= i < self.keys@.len() implies (#[trigger] K::phf_bytes(
                self.keys@[i]@,
            )).len() <= usize::MAX by {
                assert(views(self.keys@)[i] == self.keys@[i]@);
            }
        }
        let state = match generate_hash(self.keys.as_slice()) {
            Some(state) => state,
            None => return None,
        };
        let ghost ks = self.keys@;
        let ghost vs = self.values@;
        let OrderedMap { keys, values } = self;
        let entries = zip_entries(keys, values);
        let ghost st = state;
        let map = PhfOrderedMap { key: state.key, disps: state.disps, idxs: state.map, entries };
        proof {
            assert(chd_generated(ks, Some(st)));
            assert(entry_keys(map.entries@) =~= views(ks));
            assert(key_hashes::<K>(entry_keys(map.entries@), state.key) =~= Seq::new(
                ks.len(),
                |i: int| spec_hash(K::phf_bytes(ks[i]@), state.key),
            ));
        }
        Some(map)
    }
}

/// A builder for the `phf::OrderedSet` type.
pub struct OrderedSet<T> {
    map: OrderedMap<T, ()>,
}

impl<T: PhfHash> OrderedSet<T> {
    /// The values added so far.
    pub closed spec fn pending(&self) -> Seq<T> {
        self.map.pending_keys()
    }

    /// The underlying builder is well formed.
    pub closed spec fn wf(&self) -> bool {
        self.map.wf()
    }

    /// Constructs a new `phf::OrderedSet` builder.
    pub fn new() -> (r: Self)
        ensures
            r.wf(),
            r.pending() == Seq::<T>::empty(),
    {
        OrderedSet { map: OrderedMap::new() }
    }

    /// Adds an entry to the builder.
    pub fn entry(&mut self, entry: T) -> (r: &mut Self)
        requires
            old(self).wf(),
        ensures
            r.wf(),
            r.pending() == old(self).pending().push(entry),
            *final(self) == *final(r),
    {
        self.map.entry(entry, ());
        self
    }

    /// Constructs a `phf::OrderedSet`: the values keep the order in which
    /// they were added.
    ///
    /// The values must be distinct. `None` only if the generator runs out of
    /// hash keys to try.
    pub fn build(self) -> (r: Option<PhfOrderedSet<T>>)
        requires
            self.wf(),
            buildable(self.pending()),
        ensures
            match r {
                Some(set) => set.wf() && set.map.entries@ == zipped(
                    self.pending(),
                    Seq::new(self.pending().len(), |_i: int| ()),
                ),
                None => self.pending().len() > 0 && unsolvable(self.pending()),
            },
            r matches Some(set) ==> exists|st: HashState|
                #[trigger] chd_generated(self.pending(), Some(st)) && set.map.key == st.key && set.map.disps@
                    == st.disps@ && set.map.idxs@ == st.map@,
            r is None ==> chd_generated(self.pending(), None),
    {
        proof {
            assert(self.map.pending_values() =~= Seq::new(self.pending().len(), |_i: int| ()));
        }
        match self.map.build() {
            Some(map) => Some(PhfOrderedSet { map }),
            None => None,
        }
    }
}

/// What a lookup gives back of what was built: in an ordered map built from
/// `keys` and `values`, a lookup of the `i`th key finds the `i`th entry,
/// which holds the `i`th value, and nothing else.
pub proof fn law_ordered_map_lookup_after_build<K: PhfBorrow<K>, V>(
    keys: Seq<K>,
    values: Seq<V>,
    map: PhfOrderedMap<K, V>,
    i: int,
    j: int,
)
    requires
        keys.len() == values.len(),
        buildable(keys),
        map.wf(),
        map.entries@ == zipped(keys, values),
        0 <= i < keys.len(),
    ensures
        crate::ordered_map::holds::<K, K>(map.keys_view(), K::borrowed(keys[i]@)),
        crate::ordered_map::finds::<K, K>(map.keys_view(), K::borrowed(keys[i]@), j) <==> j == i,
        map.entries@[i].1 == values[i],
{
    assert(map.keys_view()[i] == keys[i]@);
    assert(crate::ordered_map::finds::<K, K>(map.keys_view(), K::borrowed(keys[i]@), i));
    if crate::ordered_map::finds::<K, K>(map.keys_view(), K::borrowed(keys[i]@), j) {
        crate::ordered_map::lemma_finds_unique::<K, K>(
            map.keys_view(),
            K::borrowed(keys[i]@),
            i,
            j,
        );
    }
}

/// What a lookup gives back of what was built: in a map built from `keys`
/// and `values`, a lookup of the `i`th key finds exactly one slot, and that
/// slot holds the `i`th key with the `i`th value.
pub proof fn law_map_lookup_after_build<K: PhfBorrow<K>, V>(
    keys: Seq<K>,
    values: Seq<V>,
    map: PhfMap<K, V>,
    i: int,
)
    requires
        keys.len() == values.len(),
        buildable(keys),
        map.wf(),
        is_reordering(map.entries@, keys, values),
        0 <= i < keys.len(),
    ensures
        exists|s: int|
            #[trigger] crate::ordered_map::finds::<K, K>(map.keys_view(), K::borrowed(keys[i]@), s)
                && map.entries@[s] == (keys[i], values[i]),
        forall|s: int, t: int|
            crate::ordered_map::finds::<K, K>(map.keys_view(), K::borrowed(keys[i]@), s)
                && crate::ordered_map::finds::<K, K>(map.keys_view(), K::borrowed(keys[i]@), t)
                ==> s == t,
{
    let p = choose|p: Seq<usize>|
        #![trigger p.len()]
        p.len() == keys.len() && map.entries@.len() == keys.len() && (forall|s: int|
            0 <= s < p.len() ==> #[trigger] p[s] < keys.len() && map.entries@[s] == (
                keys[p[s] as int],
                values[p[s] as int],
            )) && (forall|s: int, t: int|
            0 <= s < p.len() && 0 <= t < p.len() && s != t ==> p[s] != p[t]);
    let ps = Seq::new(p.len(), |s: int| p[s] as int);
    crate::generator::lemma_distinct_covers(ps, keys.len());
    assert(crate::generator::takes(ps, i));
    let s = choose|s: int| 0 <= s < ps.len() && ps[s] == i;
    assert(map.keys_view()[s] == keys[i]@);
    assert(crate::ordered_map::finds::<K, K>(map.keys_view(), K::borrowed(keys[i]@), s));
    assert forall|s: int, t: int|
        crate::ordered_map::finds::<K, K>(map.keys_view(), K::borrowed(keys[i]@), s)
            && crate::ordered_map::finds::<K, K>(map.keys_view(), K::borrowed(keys[i]@), t)
            implies s == t by {
        crate::ordered_map::lemma_finds_unique::<K, K>(
            map.keys_view(),
            K::borrowed(keys[i]@),
            s,
            t,
        );
    }
}

/// The slot that the displacements give the key held in slot `s`.
spec fn spec_get_index_of(hs: Seq<crate::shared::Hashes>, disps: Seq<(u32, u32)>, map: Seq<usize>, s: int) -> int {
    crate::shared::spec_get_index(hs[map[s] as int], disps, hs.len()) as int
}

} // verus!
