//! Code generation: builders whose result prints the Rust source of a PHF
//! map or set, to be written out by a build script.
use vstd::prelude::*;
use vstd::string::StringExecFns;
use crate::builder::{buildable, views};
use crate::generator::{chd_generated, generate_hash, is_perfect, unsolvable, HashState};
use crate::ordered_map::key_hashes;
use crate::shared::{decimal, push_decimal, FmtConst, PhfHash};

verus! {

/// The views of some strings.
pub open spec fn texts(values: Seq<String>) -> Seq<Seq<char>> {
    values.map_values(|s: String| s@)
}

/// The lines of the displacement list, one `(d1, d2),` per bucket.
pub open spec fn disps_text(disps: Seq<(u32, u32)>) -> Seq<char>
    decreases disps.len(),
{
    if disps.len() == 0 {
        Seq::empty()
    } else {
        disps_text(disps.drop_last()) + "\n        ("@ + decimal(disps.last().0 as nat) + ", "@
            + decimal(disps.last().1 as nat) + "),"@
    }
}

/// The line of one entry: `(key, value),`.
pub open spec fn entry_text<K: FmtConst>(key: K::V, value: Seq<char>) -> Seq<char> {
    "\n        ("@ + K::const_text(key) + ", "@ + value + "),"@
}

/// The lines of the entries in the order of the slots that hold them.
pub open spec fn slot_entries_text<K: FmtConst>(
    keys: Seq<K::V>,
    values: Seq<Seq<char>>,
    map: Seq<usize>,
) -> Seq<char>
    decreases map.len(),
{
    if map.len() == 0 {
        Seq::empty()
    } else {
        slot_entries_text::<K>(keys, values, map.drop_last()) + entry_text::<K>(
            keys[map.last() as int],
            values[map.last() as int],
        )
    }
}

/// The lines of the entries in the order in which they were added.
pub open spec fn ordered_entries_text<K: FmtConst>(keys: Seq<K::V>, values: Seq<Seq<char>>) -> Seq<
    char,
>
    decreases keys.len(),
{
    if keys.len() == 0 {
        Seq::empty()
    } else {
        ordered_entries_text::<K>(keys.drop_last(), values) + entry_text::<K>(
            keys.last(),
            values[keys.len() - 1],
        )
    }
}

/// The lines of the slot list, one index per slot.
pub open spec fn idxs_text(map: Seq<usize>) -> Seq<char>
    decreases map.len(),
{
    if map.len() == 0 {
        Seq::empty()
    } else {
        idxs_text(map.drop_last()) + "\n        "@ + decimal(map.last() as nat) + ","@
    }
}

/// The source of a `Map` whose entries sit in their slots.
pub open spec fn map_text<K: FmtConst>(
    path: Seq<char>,
    key: u64,
    disps: Seq<(u32, u32)>,
    keys: Seq<K::V>,
    values: Seq<Seq<char>>,
    map: Seq<usize>,
) -> Seq<char> {
    path + "::Map {\n    key: "@ + decimal(key as nat) + ",\n    disps: &["@ + disps_text(disps)
        + "\n    ],\n    entries: &["@ + slot_entries_text::<K>(keys, values, map) + "\n    ],\n}"@
}

/// The source of an `OrderedMap`: the slot list, and the entries in the
/// order in which they were added.
pub open spec fn ordered_map_text<K: FmtConst>(
    path: Seq<char>,
    key: u64,
    disps: Seq<(u32, u32)>,
    keys: Seq<K::V>,
    values: Seq<Seq<char>>,
    map: Seq<usize>,
) -> Seq<char> {
    path + "::OrderedMap {\n    key: "@ + decimal(key as nat) + ",\n    disps: &["@ + disps_text(
        disps,
    ) + "\n    ],\n    idxs: &["@ + idxs_text(map) + "\n    ],\n    entries: &["@
        + ordered_entries_text::<K>(keys, values) + "\n    ],\n}"@
}

fn push_disps(out: &mut String, disps: &Vec<(u32, u32)>)
    ensures
        final(out)@ == old(out)@ + disps_text(disps@),
{
    let ghost start = out@;
    let mut i: usize = 0;
    while i < disps.len()
        invariant
            i <= disps@.len(),
            out@ == start + disps_text(disps@.take(i as int)),
        decreases disps@.len() - i,
    {
        let (d1, d2) = disps[i];
        out.append("\n        (");
        push_decimal(out, d1 as u128);
        out.append(", ");
        push_decimal(out, d2 as u128);
        out.append("),");
        proof {
            let t = disps@.take(i + 1);
            assert(t.drop_last() =~= disps@.take(i as int));
            assert(t.last() == disps@[i as int]);
            assert(out@ =~= start + disps_text(t));
        }
        i = i + 1;
    }
    proof {
        assert(disps@.take(i as int) =~= disps@);
    }
}

fn push_entry<K: FmtConst>(out: &mut String, key: &K, value: &String)
    ensures
        final(out)@ == old(out)@ + entry_text::<K>(key@, value@),
{
    out.append("\n        (");
    key.fmt_const(out);
    out.append(", ");
    out.append(value.as_str());
    out.append("),");
    proof {
        assert(final(out)@ =~= old(out)@ + entry_text::<K>(key@, value@));
    }
}

fn push_slot_entries<K: FmtConst>(out: &mut String, keys: &[K], values: &[String], map: &Vec<usize>)
    requires
        keys@.len() == values@.len(),
        forall|s: int| 0 <= s < map@.len() ==> #[trigger] map@[s] < keys@.len(),
    ensures
        final(out)@ == old(out)@ + slot_entries_text::<K>(views(keys@), texts(values@), map@),
{
    let ghost start = out@;
    let mut s: usize = 0;
    while s < map.len()
        invariant
            s <= map@.len(),
            keys@.len() == values@.len(),
            forall|t: int| 0 <= t < map@.len() ==> #[trigger] map@[t] < keys@.len(),
            out@ == start + slot_entries_text::<K>(
                views(keys@),
                texts(values@),
                map@.take(s as int),
            ),
        decreases map@.len() - s,
    {
        let idx = map[s];
        push_entry(out, &keys[idx], &values[idx]);
        proof {
            let t = map@.take(s + 1);
            assert(t.drop_last() =~= map@.take(s as int));
            assert(t.last() == idx);
            assert(views(keys@)[idx as int] == keys@[idx as int]@);
            assert(texts(values@)[idx as int] == values@[idx as int]@);
            assert(out@ =~= start + slot_entries_text::<K>(views(keys@), texts(values@), t));
        }
        s = s + 1;
    }
    proof {
        assert(map@.take(s as int) =~= map@);
    }
}

fn push_ordered_entries<K: FmtConst>(out: &mut String, keys: &[K], values: &[String])
    requires
        keys@.len() == values@.len(),
    ensures
        final(out)@ == old(out)@ + ordered_entries_text::<K>(views(keys@), texts(values@)),
{
    let ghost start = out@;
    let mut i: usize = 0;
    while i < keys.len()
        invariant
            i <= keys@.len(),
            keys@.len() == values@.len(),
            out@ == start + ordered_entries_text::<K>(views(keys@).take(i as int), texts(values@)),
        decreases keys@.len() - i,
    {
        push_entry(out, &keys[i], &values[i]);
        proof {
            let t = views(keys@).take(i + 1);
            assert(t.drop_last() =~= views(keys@).take(i as int));
            assert(t.last() == keys@[i as int]@);
            assert(texts(values@)[i as int] == values@[i as int]@);
            assert(out@ =~= start + ordered_entries_text::<K>(t, texts(values@)));
        }
        i = i + 1;
    }
    proof {
        assert(views(keys@).take(i as int) =~= views(keys@));
    }
}

fn push_idxs(out: &mut String, map: &Vec<usize>)
    ensures
        final(out)@ == old(out)@ + idxs_text(map@),
{
    let ghost start = out@;
    let mut s: usize = 0;
    while s < map.len()
        invariant
            s <= map@.len(),
            out@ == start + idxs_text(map@.take(s as int)),
        decreases map@.len() - s,
    {
        out.append("\n        ");
        push_decimal(out, map[s] as u128);
        out.append(",");
        proof {
            let t = map@.take(s + 1);
            assert(t.drop_last() =~= map@.take(s as int));
            assert(t.last() == map@[s as int]);
            assert(out@ =~= start + idxs_text(t));
        }
        s = s + 1;
    }
    proof {
        assert(map@.take(s as int) =~= map@);
    }
}


/// A builder for the `phf::Map` type.
pub struct MapBuilder<K> {
    keys: Vec<K>,
    values: Vec<String>,
    path: String,
}

impl<K: PhfHash + FmtConst> MapBuilder<K> {
    /// The keys added so far.
    pub closed spec fn pending_keys(&self) -> Seq<K> {
        self.keys@
    }

    /// The value texts added so far.
    pub closed spec fn pending_values(&self) -> Seq<Seq<char>> {
        texts(self.values@)
    }

    /// The path to the `phf` crate written in front of the type.
    pub closed spec fn crate_path(&self) -> Seq<char> {
        self.path@
    }

    /// A key and a value were added together each time.
    pub closed spec fn wf(&self) -> bool {
        self.keys@.len() == self.values@.len()
    }

    /// Creates a new `phf::Map` builder.
    pub fn new() -> (r: Self)
        ensures
            r.wf(),
            r.pending_keys() == Seq::<K>::empty(),
            r.pending_values() == Seq::<Seq<char>>::empty(),
            r.crate_path() == "::phf"@,
    {
        let r = MapBuilder { keys: Vec::new(), values: Vec::new(), path: "::phf".to_owned() };
        proof {
            assert(r.pending_values() =~= Seq::<Seq<char>>::empty());
        }
        r
    }

    /// Set the path to the `phf` crate from the global namespace.
    pub fn phf_path(&mut self, path: &str) -> (r: &mut Self)
        requires
            old(self).wf(),
        ensures
            r.wf(),
            r.crate_path() == path@,
            r.pending_keys() == old(self).pending_keys(),
            r.pending_values() == old(self).pending_values(),
            *final(self) == *final(r),
    {
        self.path = path.to_owned();
        self
    }

    /// Adds an entry to the builder.
    ///
    /// `value` will be written exactly as provided in the constructed source.
    pub fn entry(&mut self, key: K, value: &str) -> (r: &mut Self)
        requires
            old(self).wf(),
        ensures
            r.wf(),
            r.crate_path() == old(self).crate_path(),
            r.pending_keys() == old(self).pending_keys().push(key),
            r.pending_values() == old(self).pending_values().push(value@),
            *final(self) == *final(r),
    {
        self.keys.push(key);
        self.values.push(value.to_owned());
        proof {
            assert(texts(self.values@) =~= texts(old(self).values@).push(value@));
        }
        self
    }

    /// Calculate the hash parameters and return a value that prints the
    /// constructed `phf::Map`.
    ///
    /// The keys must be distinct. `None` only if the generator runs out of
    /// hash keys to try.
    pub fn build(&self) -> (r: Option<DisplayMap<'_, K>>)
        requires
            self.wf(),
            buildable(self.pending_keys()),
        ensures
            match r {
                Some(d) => {
                    &&& d.wf()
                    &&& d.keys() == self.pending_keys()
                    &&& d.values() == self.pending_values()
                    &&& d.crate_path() == self.crate_path()
                },
                None => self.pending_keys().len() > 0 && unsolvable(self.pending_keys()),
            },
            r matches Some(d) ==> exists|st: HashState|
                #[trigger] chd_generated(self.pending_keys(), Some(st)) && d.hash_key() == st.key && d.disps()
                    == st.disps@ && d.slots() == st.map@,
            r is None ==> chd_generated(self.pending_keys(), None),
    {
        proof {
            assert forall|i: int| 0 <= i < self.keys@.len() implies (#[trigger] K::phf_bytes(
                self.keys@[i]@,
            )).len() <= usize::MAX by {
                assert(views(self.keys@)[i] == self.keys@[i]@);
            }
        }
        let state = match generate_hash(self.keys.as_slice()) {
            Some(state) => state,
            None => return None,
        };
        let ghost st = state;
        proof {
            assert(chd_generated(self.keys@, Some(st)));
        }
        let r = DisplayMap {
            path: self.path.as_str(),
            state,
            keys: self.keys.as_slice(),
            values: self.values.as_slice(),
        };
        proof {
            assert(key_hashes::<K>(views(self.keys@), r.state.key) =~= Seq::new(
                self.keys@.len(),
                |i: int| crate::shared::spec_hash(K::phf_bytes(self.keys@[i]@), r.state.key),
            ));
        }
        Some(r)
    }
}

/// An adapter for printing a `Map`.
pub struct DisplayMap<'a, K> {
    path: &'a str,
    state: HashState,
    keys: &'a [K],
    values: &'a [String],
}

impl<'a, K: PhfHash + FmtConst> DisplayMap<'a, K> {
    /// The keys, in the order in which they were added.
    pub closed spec fn keys(&self) -> Seq<K> {
        self.keys@
    }

    /// The value texts, in the order in which they were added.
    pub closed spec fn values(&self) -> Seq<Seq<char>> {
        texts(self.values@)
    }

    /// The path to the `phf` crate.
    pub closed spec fn crate_path(&self) -> Seq<char> {
        self.path@
    }

    /// The hash key that was found.
    pub closed spec fn hash_key(&self) -> u64 {
        self.state.key
    }

    /// The displacements that were found.
    pub closed spec fn disps(&self) -> Seq<(u32, u32)> {
        self.state.disps@
    }

    /// For each slot, the index of the key it holds.
    pub closed spec fn slots(&self) -> Seq<usize> {
        self.state.map@
    }

    /// The solved table places the keys perfectly.
    pub closed spec fn wf(&self) -> bool {
        &&& self.keys@.len() == self.values@.len()
        &&& is_perfect(key_hashes::<K>(views(self.keys@), self.state.key), self.state.disps@, self.state.map@)
    }

    /// The printed source.
    pub open spec fn text(&self) -> Seq<char> {
        map_text::<K>(
            self.crate_path(),
            self.hash_key(),
            self.disps(),
            views(self.keys()),
            self.values(),
            self.slots(),
        )
    }

    /// The source of the map: its entries in the order of their slots.
    pub fn to_string(&self) -> (r: String)
        requires
            self.wf(),
        ensures
            r@ == self.text(),
    {
        let mut out = String::new();
        out.append(self.path);
        out.append("::Map {\n    key: ");
        push_decimal(&mut out, self.state.key as u128);
        out.append(",\n    disps: &[");
        push_disps(&mut out, &self.state.disps);
        out.append("\n    ],\n    entries: &[");
        proof {
            assert forall|s: int| 0 <= s < self.state.map@.len() implies #[trigger] self.state.map@[s]
                < self.keys@.len() by {
                assert(self.state.map@[s] < key_hashes::<K>(views(self.keys@), self.state.key).len());
            }
        }
        push_slot_entries(&mut out, self.keys, self.values, &self.state.map);
        out.append("\n    ],\n}");
        proof {
            assert(out@ =~= self.text());
        }
        out
    }
}

/// A builder for the `phf::Set` type.
pub struct SetBuilder<T> {
    map: MapBuilder<T>,
}

impl<T: PhfHash + FmtConst> SetBuilder<T> {
    /// The values added so far.
    pub closed spec fn pending(&self) -> Seq<T> {
        self.map.pending_keys()
    }

    /// The path to the `phf` crate written in front of the type.
    pub closed spec fn crate_path(&self) -> Seq<char> {
        self.map.crate_path()
    }

    /// Each value was added with the unit value.
    pub closed spec fn wf(&self) -> bool {
        &&& self.map.wf()
        &&& self.map.pending_values() == Seq::new(self.map.pending_keys().len(), |_i: int| "()"@)
    }

    /// Constructs a new `phf::Set` builder.
    pub fn new() -> (r: Self)
        ensures
            r.wf(),
            r.pending() == Seq::<T>::empty(),
            r.crate_path() == "::phf"@,
    {
        let r = SetBuilder { map: MapBuilder::new() };
        proof {
            assert(r.map.pending_values() =~= Seq::new(0, |_i: int| "()"@));
        }
        r
    }

    /// Set the path to the `phf` crate from the global namespace.
    pub fn phf_path(&mut self, path: &str) -> (r: &mut Self)
        requires
            old(self).wf(),
        ensures
            r.wf(),
            r.crate_path() == path@,
            r.pending() == old(self).pending(),
            *final(self) == *final(r),
    {
        self.map.phf_path(path);
        self
    }

    /// Adds an entry to the builder.
    pub fn entry(&mut self, entry: T) -> (r: &mut Self)
        requires
            old(self).wf(),
        ensures
            r.wf(),
            r.crate_path() == old(self).crate_path(),
            r.pending() == old(self).pending().push(entry),
            *final(self) == *final(r),
    {
        self.map.entry(entry, "()");
        proof {
            assert(self.map.pending_values() =~= Seq::new(
                self.map.pending_keys().len(),
                |_i: int| "()"@,
            ));
        }
        self
    }

    /// Calculate the hash parameters and return a value that prints the
    /// constructed `phf::Set`.
    ///
    /// The values must be distinct. `None` only if the generator runs out of
    /// hash keys to try.
    pub fn build(&self) -> (r: Option<DisplaySet<'_, T>>)
        requires
            self.wf(),
            buildable(self.pending()),
        ensures
            match r {
                Some(d) => {
                    &&& d.wf()
                    &&& d.inner().keys() == self.pending()
                    &&& d.inner().values() == Seq::new(self.pending().len(), |_i: int| "()"@)
                    &&& d.inner().crate_path() == self.crate_path()
                },
                None => self.pending().len() > 0 && unsolvable(self.pending()),
            },
            r matches Some(d) ==> exists|st: HashState|
                #[trigger] chd_generated(self.pending(), Some(st)) && d.inner().hash_key() == st.key
                    && d.inner().disps() == st.disps@ && d.inner().slots() == st.map@,
            r is None ==> chd_generated(self.pending(), None),
    {
        match self.map.build() {
            Some(inner) => Some(DisplaySet { inner }),
            None => None,
        }
    }
}

/// An adapter for printing a `Set`.
pub struct DisplaySet<'a, T> {
    inner: DisplayMap<'a, T>,
}

impl<'a, T: PhfHash + FmtConst> DisplaySet<'a, T> {
    /// The map of the values to the unit value.
    pub closed spec fn inner(&self) -> DisplayMap<'a, T> {
        self.inner
    }

    /// The underlying map is well formed.
    pub open spec fn wf(&self) -> bool {
        self.inner().wf()
    }

    /// The printed source.
    pub open spec fn text(&self) -> Seq<char> {
        self.inner().crate_path() + "::Set { map: "@ + self.inner().text() + " }"@
    }

    /// The source of the set: the map of its values to `()`.
    pub fn to_string(&self) -> (r: String)
        requires
            self.wf(),
        ensures
            r@ == self.text(),
    {
        let mut out = String::new();
        out.append(self.inner.path);
        out.append("::Set { map: ");
        let map = self.inner.to_string();
        out.append(map.as_str());
        out.append(" }");
        proof {
            assert(out@ =~= self.text());
        }
        out
    }
}

/// A builder for the `phf::OrderedMap` type.
pub struct OrderedMap<K> {
    keys: Vec<K>,
    values: Vec<String>,
    path: String,
}

impl<K: PhfHash + FmtConst> OrderedMap<K> {
    /// The keys added so far.
    pub closed spec fn pending_keys(&self) -> Seq<K> {
        self.keys@
    }

    /// The value texts added so far.
    pub closed spec fn pending_values(&self) -> Seq<Seq<char>> {
        texts(self.values@)
    }

    /// The path to the `phf` crate written in front of the type.
    pub closed spec fn crate_path(&self) -> Seq<char> {
        self.path@
    }

    /// A key and a value were added together each time.
    pub closed spec fn wf(&self) -> bool {
        self.keys@.len() == self.values@.len()
    }

    /// Creates a new `phf::OrderedMap` builder.
    pub fn new() -> (r: Self)
        ensures
            r.wf(),
            r.pending_keys() == Seq::<K>::empty(),
            r.pending_values() == Seq::<Seq<char>>::empty(),
            r.crate_path() == "::phf"@,
    {
        let r = OrderedMap { keys: Vec::new(), values: Vec::new(), path: "::phf".to_owned() };
        proof {
            assert(r.pending_values() =~= Seq::<Seq<char>>::empty());
        }
        r
    }

    /// Set the path to the `phf` crate from the global namespace.
    pub fn phf_path(&mut self, path: &str) -> (r: &mut Self)
        requires
            old(self).wf(),
        ensures
            r.wf(),
            r.crate_path() == path@,
            r.pending_keys() == old(self).pending_keys(),
            r.pending_values() == old(self).pending_values(),
            *final(self) == *final(r),
    {
        self.path = path.to_owned();
        self
    }

    /// Adds an entry to the builder.
    ///
    /// `value` will be written exactly as provided in the constructed source.
    pub fn entry(&mut self, key: K, value: &str) -> (r: &mut Self)
        requires
            old(self).wf(),
        ensures
            r.wf(),
            r.crate_path() == old(self).crate_path(),
            r.pending_keys() == old(self).pending_keys().push(key),
            r.pending_values() == old(self).pending_values().push(value@),
            *final(self) == *final(r),
    {
        self.keys.push(key);
        self.values.push(value.to_owned());
        proof {
            assert(texts(self.values@) =~= texts(old(self).values@).push(value@));
        }
        self
    }

    /// Calculate the hash parameters and return a value that prints the
    /// constructed `phf::OrderedMap`.
    ///
    /// The keys must be distinct. `None` only if the generator runs out of
    /// hash keys to try.
    pub fn build(&self) -> (r: Option<DisplayOrderedMap<'_, K>>)
        requires
            self.wf(),
            buildable(self.pending_keys()),
        ensures
            match r {
                Some(d) => {
                    &&& d.wf()
                    &&& d.keys() == self.pending_keys()
                    &&& d.values() == self.pending_values()
                    &&& d.crate_path() == self.crate_path()
                },
                None => self.pending_keys().len() > 0 && unsolvable(self.pending_keys()),
            },
            r matches Some(d) ==> exists|st: HashState|
                #[trigger] chd_generated(self.pending_keys(), Some(st)) && d.hash_key() == st.key && d.disps()
                    == st.disps@ && d.slots() == st.map@,
            r is None ==> chd_generated(self.pending_keys(), None),
    {
        proof {
            assert forall|i: int| 0 <= i < self.keys@.len() implies (#[trigger] K::phf_bytes(
                self.keys@[i]@,
            )).len() <= usize::MAX by {
                assert(views(self.keys@)[i] == self.keys@[i]@);
            }
        }
        let state = match generate_hash(self.keys.as_slice()) {
            Some(state) => state,
            None => return None,
        };
        let ghost st = state;
        proof {
            assert(chd_generated(self.keys@, Some(st)));
        }
        let r = DisplayOrderedMap {
            path: self.path.as_str(),
            state,
            keys: self.keys.as_slice(),
            values: self.values.as_slice(),
        };
        proof {
            assert(key_hashes::<K>(views(self.keys@), r.state.key) =~= Seq::new(
                self.keys@.len(),
                |i: int| crate::shared::spec_hash(K::phf_bytes(self.keys@[i]@), r.state.key),
            ));
        }
        Some(r)
    }
}

/// An adapter for printing an `OrderedMap`.
pub struct DisplayOrderedMap<'a, K> {
    path: &'a str,
    state: HashState,
    keys: &'a [K],
    values: &'a [String],
}

impl<'a, K: PhfHash + FmtConst> DisplayOrderedMap<'a, K> {
    /// The keys, in the order in which they were added.
    pub closed spec fn keys(&self) -> Seq<K> {
        self.keys@
    }

    /// The value texts, in the order in which they were added.
    pub closed spec fn values(&self) -> Seq<Seq<char>> {
        texts(self.values@)
    }

    /// The path to the `phf` crate.
    pub closed spec fn crate_path(&self) -> Seq<char> {
        self.path@
    }

    /// The hash key that was found.
    pub closed spec fn hash_key(&self) -> u64 {
        self.state.key
    }

    /// The displacements that were found.
    pub closed spec fn disps(&self) -> Seq<(u32, u32)> {
        self.state.disps@
    }

    /// For each slot, the index of the key it holds.
    pub closed spec fn slots(&self) -> Seq<usize> {
        self.state.map@
    }

    /// The solved table places the keys perfectly.
    pub closed spec fn wf(&self) -> bool {
        &&& self.keys@.len() == self.values@.len()
        &&& is_perfect(key_hashes::<K>(views(self.keys@), self.state.key), self.state.disps@, self.state.map@)
    }

    /// The printed source.
    pub open spec fn text(&self) -> Seq<char> {
        ordered_map_text::<K>(
            self.crate_path(),
            self.hash_key(),
            self.disps(),
            views(self.keys()),
            self.values(),
            self.slots(),
        )
    }

    /// The source of the map: the slot list, and the entries in the order in
    /// which they were added.
    pub fn to_string(&self) -> (r: String)
        requires
            self.wf(),
        ensures
            r@ == self.text(),
    {
        let mut out = String::new();
        out.append(self.path);
        out.append("::OrderedMap {\n    key: ");
        push_decimal(&mut out, self.state.key as u128);
        out.append(",\n    disps: &[");
        push_disps(&mut out, &self.state.disps);
        out.append("\n    ],\n    idxs: &[");
        push_idxs(&mut out, &self.state.map);
        out.append("\n    ],\n    entries: &[");
        push_ordered_entries(&mut out, self.keys, self.values);
        out.append("\n    ],\n}");
        proof {
            assert(out@ =~= self.text());
        }
        out
    }
}

/// A builder for the `phf::OrderedSet` type.
pub struct OrderedSet<T> {
    map: OrderedMap<T>,
}

impl<T: PhfHash + FmtConst> OrderedSet<T> {
    /// The values added so far.
    pub closed spec fn pending(&self) -> Seq<T> {
        self.map.pending_keys()
    }

    /// The path to the `phf` crate written in front of the type.
    pub closed spec fn crate_path(&self) -> Seq<char> {
        self.map.crate_path()
    }

    /// Each value was added with the unit value.
    pub closed spec fn wf(&self) -> bool {
        &&& self.map.wf()
        &&& self.map.pending_values() == Seq::new(self.map.pending_keys().len(), |_i: int| "()"@)
    }

    /// Constructs a new `phf::OrderedSet` builder.
    pub fn new() -> (r: Self)
        ensures
            r.wf(),
            r.pending() == Seq::<T>::empty(),
            r.crate_path() == "::phf"@,
    {
        let r = OrderedSet { map: OrderedMap::new() };
        proof {
            assert(r.map.pending_values() =~= Seq::new(0, |_i: int| "()"@));
        }
        r
    }

    /// Set the path to the `phf` crate from the global namespace.
    pub fn phf_path(&mut self, path: &str) -> (r: &mut Self)
        requires
            old(self).wf(),
        ensures
            r.wf(),
            r.crate_path() == path@,
            r.pending() == old(self).pending(),
            *final(self) == *final(r),
    {
        self.map.phf_path(path);
        self
    }

    /// Adds an entry to the builder.
    pub fn entry(&mut self, entry: T) -> (r: &mut Self)
        requires
            old(self).wf(),
        ensures
            r.wf(),
            r.crate_path() == old(self).crate_path(),
            r.pending() == old(self).pending().push(entry),
            *final(self) == *final(r),
    {
        self.map.entry(entry, "()");
        proof {
            assert(self.map.pending_values() =~= Seq::new(
                self.map.pending_keys().len(),
                |_i: int| "()"@,
            ));
        }
        self
    }

    /// Calculate the hash parameters and return a value that prints the
    /// constructed `phf::OrderedSet`.
    ///
    /// The values must be distinct. `None` only if the generator runs out of
    /// hash keys to try.
    pub fn build(&self) -> (r: Option<DisplayOrderedSet<'_, T>>)
        requires
            self.wf(),
            buildable(self.pending()),
        ensures
            match r {
                Some(d) => {
                    &&& d.wf()
                    &&& d.inner().keys() == self.pending()
                    &&& d.inner().values() == Seq::new(self.pending().len(), |_i: int| "()"@)
                    &&& d.inner().crate_path() == self.crate_path()
                },
                None => self.pending().len() > 0 && unsolvable(self.pending()),
            },
            r matches Some(d) ==> exists|st: HashState|
                #[trigger] chd_generated(self.pending(), Some(st)) && d.inner().hash_key() == st.key
                    && d.inner().disps() == st.disps@ && d.inner().slots() == st.map@,
            r is None ==> chd_generated(self.pending(), None),
    {
        match self.map.build() {
            Some(inner) => Some(DisplayOrderedSet { inner }),
            None => None,
        }
    }
}

/// An adapter for printing an `OrderedSet`.
pub struct DisplayOrderedSet<'a, T> {
    inner: DisplayOrderedMap<'a, T>,
}

impl<'a, T: PhfHash + FmtConst> DisplayOrderedSet<'a, T> {
    /// The map of the values to the unit value.
    pub closed spec fn inner(&self) -> DisplayOrderedMap<'a, T> {
        self.inner
    }

    /// The underlying map is well formed.
    pub open spec fn wf(&self) -> bool {
        self.inner().wf()
    }

    /// The printed source.
    pub open spec fn text(&self) -> Seq<char> {
        self.inner().crate_path() + "::OrderedSet { map: "@ + self.inner().text() + " }"@
    }

    /// The source of the set: the map of its values to `()`.
    pub fn to_string(&self) -> (r: String)
        requires
            self.wf(),
        ensures
            r@ == self.text(),
    {
        let mut out = String::new();
        out.append(self.inner.path);
        out.append("::OrderedSet { map: ");
        let map = self.inner.to_string();
        out.append(map.as_str());
        out.append(" }");
        proof {
            assert(out@ =~= self.text());
        }
        out
    }
}

} // verus!
