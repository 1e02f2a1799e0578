//! A map from string keys held in sorted order and searched by bisection.
use vstd::prelude::*;

verus! {

/// `a` comes before `b` in byte-wise lexicographic order.
pub open spec fn lex_lt(a: Seq<u8>, b: Seq<u8>) -> bool
    decreases a.len(),
{
    if a.len() == 0 {
        b.len() > 0
    } else if b.len() == 0 {
        false
    } else if a[0] != b[0] {
        a[0] < b[0]
    } else {
        lex_lt(a.drop_first(), b.drop_first())
    }
}

/// No sequence comes before itself.
pub proof fn lemma_lex_irreflexive(a: Seq<u8>)
    ensures
        !lex_lt(a, a),
    decreases a.len(),
{
    if a.len() > 0 {
        lemma_lex_irreflexive(a.drop_first());
    }
}

/// Of two different sequences, one comes before the other, and not both.
pub proof fn lemma_lex_total(a: Seq<u8>, b: Seq<u8>)
    ensures
        a != b ==> (lex_lt(a, b) || lex_lt(b, a)),
        !(lex_lt(a, b) && lex_lt(b, a)),
    decreases a.len(),
{
    if a.len() > 0 && b.len() > 0 && a[0] == b[0] {
        lemma_lex_total(a.drop_first(), b.drop_first());
        if a != b {
            assert(a.drop_first() != b.drop_first()) by {
                if a.drop_first() == b.drop_first() {
                    assert(a =~= seq![a[0]] + a.drop_first());
                    assert(b =~= seq![b[0]] + b.drop_first());
                }
            }
        }
    } else if a.len() == 0 && b.len() == 0 {
        assert(a =~= b);
    }
}

/// The order is transitive.
pub proof fn lemma_lex_transitive(a: Seq<u8>, b: Seq<u8>, c: Seq<u8>)
    requires
        lex_lt(a, b),
        lex_lt(b, c),
    ensures
        lex_lt(a, c),
    decreases a.len(),
{
    if a.len() > 0 && b.len() > 0 && c.len() > 0 && a[0] == b[0] && b[0] == c[0] {
        lemma_lex_transitive(a.drop_first(), b.drop_first(), c.drop_first());
    }
}

/// The order of two sequences that agree on a prefix is that of the rests.
proof fn lemma_lex_skip(a: Seq<u8>, b: Seq<u8>, i: int)
    requires
        0 <= i < a.len(),
        i < b.len(),
        a[i] == b[i],
    ensures
        lex_lt(a.skip(i), b.skip(i)) == lex_lt(a.skip(i + 1), b.skip(i + 1)),
{
    assert(a.skip(i).drop_first() =~= a.skip(i + 1));
    assert(b.skip(i).drop_first() =~= b.skip(i + 1));
}

/// The byte-wise lexicographic order of `a` and `b`: negative, zero or
/// positive.
pub(crate) fn compare_bytes(a: &[u8], b: &[u8]) -> (r: i8)
    ensures
        r < 0 <==> lex_lt(a@, b@),
        r == 0 <==> a@ == b@,
        r > 0 <==> lex_lt(b@, a@),
{
    let mut i: usize = 0;
    proof {
        assert(a@.skip(0) =~= a@);
        assert(b@.skip(0) =~= b@);
    }
    while i < a.len() && i < b.len()
        invariant
            i <= a@.len(),
            i <= b@.len(),
            a@.subrange(0, i as int) == b@.subrange(0, i as int),
            lex_lt(a@, b@) == lex_lt(a@.skip(i as int), b@.skip(i as int)),
            lex_lt(b@, a@) == lex_lt(b@.skip(i as int), a@.skip(i as int)),
        decreases a@.len() - i,
    {
        if a[i] != b[i] {
            proof {
                assert(a@.skip(i as int)[0] == a@[i as int]);
                assert(b@.skip(i as int)[0] == b@[i as int]);
                if a@ == b@ {
                    assert(a@[i as int] == b@[i as int]);
                }
            }
            if a[i] < b[i] {
                return -1;
            } else {
                return 1;
            }
        }
        proof {
            lemma_lex_skip(a@, b@, i as int);
            lemma_lex_skip(b@, a@, i as int);
            assert(a@.subrange(0, i + 1) =~= a@.subrange(0, i as int).push(a@[i as int]));
            assert(b@.subrange(0, i + 1) =~= b@.subrange(0, i as int).push(b@[i as int]));
        }
        i = i + 1;
    }
    proof {
        if a@.len() == b@.len() {
            assert(a@ =~= a@.subrange(0, i as int));
            assert(b@ =~= b@.subrange(0, i as int));
        } else if a@.len() < b@.len() {
            assert(a@.skip(i as int).len() == 0);
            assert(a@ != b@);
        } else {
            assert(b@.skip(i as int).len() == 0);
            assert(a@ != b@);
        }
    }
    if a.len() < b.len() {
        -1
    } else if a.len() == b.len() {
        0
    } else {
        1
    }
}

/// The UTF-8 bytes of a key.
pub open spec fn key_bytes(s: Seq<char>) -> Seq<u8> {
    vstd::utf8::encode_utf8(s)
}

/// A map from string keys, held sorted so that a key is found by
/// bisection.
pub struct PhfMap<T: 'static> {
    pub entries: Vec<(&'static str, T)>,
}

/// The entries of a map with the keys `k` hold strictly increasing keys.
pub open spec fn keys_sorted<T>(entries: Seq<(&'static str, T)>) -> bool {
    forall|i: int, j: int|
        0 <= i < j < entries.len() ==> lex_lt(
            key_bytes(#[trigger] entries[i].0@),
            key_bytes(#[trigger] entries[j].0@),
        )
}

impl<T> PhfMap<T> {
    /// The keys are sorted, each before the next.
    pub open spec fn wf(&self) -> bool {
        keys_sorted(self.entries@)
    }

    /// The number of entries.
    pub fn len(&self) -> (r: usize)
        ensures
            r == self.entries@.len(),
    {
        self.entries.len()
    }

    /// The value of the entry whose key is `key`, by bisection over the
    /// sorted keys.
    pub fn find(&self, key: &str) -> (r: Option<&T>)
        requires
            self.wf(),
        ensures
            match r {
                Some(v) => exists|i: int|
                    0 <= i < self.entries@.len() && #[trigger] self.entries@[i].0@ == key@ && v
                        == &self.entries@[i].1,
                None => forall|i: int| 0 <= i < self.entries@.len() ==> #[trigger] self.entries@[i].0@ != key@,
            },
    {
        let ghost k = key_bytes(key@);
        let kb = key.as_bytes();
        let mut lo: usize = 0;
        let mut hi: usize = self.entries.len();
        while lo < hi
            invariant
                self.wf(),
                k == key_bytes(key@),
                kb@ == k,
                lo <= hi <= self.entries@.len(),
                forall|j: int| 0 <= j < lo ==> lex_lt(key_bytes(#[trigger] self.entries@[j].0@), k),
                forall|j: int| hi <= j < self.entries@.len() ==> lex_lt(k, key_bytes(#[trigger] self.entries@[j].0@)),
            decreases hi - lo,
        {
            let mid = lo + (hi - lo) / 2;
            let c = compare_bytes(self.entries[mid].0.as_bytes(), kb);
            if c == 0 {
                proof {
                    vstd::utf8::encode_utf8_decode_utf8(self.entries@[mid as int].0@);
                    vstd::utf8::encode_utf8_decode_utf8(key@);
                    let e = self.entries@[mid as int].0@;
                    assert(key_bytes(e) == k);
                    assert(vstd::utf8::decode_utf8(vstd::utf8::encode_utf8(e)) == e);
                    assert(vstd::utf8::decode_utf8(vstd::utf8::encode_utf8(key@)) == key@);
                    assert(vstd::utf8::encode_utf8(e) == vstd::utf8::encode_utf8(key@));
                    assert(e == key@);
                }
                return Some(&self.entries[mid].1);
            } else if c < 0 {
                proof {
                    assert forall|j: int| 0 <= j < mid + 1 implies lex_lt(
                        key_bytes(#[trigger] self.entries@[j].0@),
                        k,
                    ) by {
                        if j < mid {
                            lemma_lex_transitive(
                                key_bytes(self.entries@[j].0@),
                                key_bytes(self.entries@[mid as int].0@),
                                k,
                            );
                        }
                    }
                }
                lo = mid + 1;
            } else {
                proof {
                    assert forall|j: int| mid <= j < self.entries@.len() implies lex_lt(
                        k,
                        key_bytes(#[trigger] self.entries@[j].0@),
                    ) by {
                        if j > mid {
                            lemma_lex_transitive(
                                k,
                                key_bytes(self.entries@[mid as int].0@),
                                key_bytes(self.entries@[j].0@),
                            );
                        }
                    }
                }
                hi = mid;
            }
        }
        proof {
            assert forall|i: int| 0 <= i < self.entries@.len() implies #[trigger] self.entries@[i].0@
                != key@ by {
                if self.entries@[i].0@ == key@ {
                    lemma_lex_irreflexive(k);
                }
            }
        }
        None
    }

    /// The entries, in key order.
    pub fn entries(&self) -> (r: PhfMapEntries<'_, T>)
        ensures
            r.items() == self.entries@,
            r.position() == 0,
    {
        PhfMapEntries { entries: self.entries.as_slice(), pos: 0 }
    }

    /// The keys, in order.
    pub fn keys(&self) -> (r: PhfMapKeys<'_, T>)
        ensures
            r.items() == self.entries@,
            r.position() == 0,
    {
        PhfMapKeys { iter: self.entries() }
    }

    /// The values, in key order.
    pub fn values(&self) -> (r: PhfMapValues<'_, T>)
        ensures
            r.items() == self.entries@,
            r.position() == 0,
    {
        PhfMapValues { iter: self.entries() }
    }
}

/// The entries of a `PhfMap`, in key order.
pub struct PhfMapEntries<'a, T: 'static> {
    entries: &'a [(&'static str, T)],
    pos: usize,
}

impl<'a, T> PhfMapEntries<'a, T> {
    /// All the entries, those handed out and those to come.
    pub closed spec fn items(&self) -> Seq<(&'static str, T)> {
        self.entries@
    }

    /// How many entries have been handed out.
    pub closed spec fn position(&self) -> nat {
        self.pos as nat
    }

    /// Hands out the next entry, if any is left.
    pub fn next(&mut self) -> (r: Option<(&'static str, &'a T)>)
        requires
            old(self).position() <= old(self).items().len(),
        ensures
            final(self).items() == old(self).items(),
            final(self).position() <= final(self).items().len(),
            match r {
                Some(e) => {
                    let p = old(self).position() as int;
                    &&& p < old(self).items().len()
                    &&& final(self).position() == p + 1
                    &&& e.0 == old(self).items()[p].0
                    &&& e.1 == &old(self).items()[p].1
                },
                None => {
                    &&& old(self).position() == old(self).items().len()
                    &&& final(self).position() == old(self).position()
                },
            },
    {
        if self.pos < self.entries.len() {
            let e = &self.entries[self.pos];
            self.pos = self.pos + 1;
            Some((e.0, &e.1))
        } else {
            None
        }
    }
}

/// The keys of a `PhfMap`, in order.
pub struct PhfMapKeys<'a, T: 'static> {
    iter: PhfMapEntries<'a, T>,
}

impl<'a, T> PhfMapKeys<'a, T> {
    /// All the entries whose keys are handed out.
    pub closed spec fn items(&self) -> Seq<(&'static str, T)> {
        self.iter.items()
    }

    /// How many keys have been handed out.
    pub closed spec fn position(&self) -> nat {
        self.iter.position()
    }

    /// Hands out the next key, if any is left.
    pub fn next(&mut self) -> (r: Option<&'static str>)
        requires
            old(self).position() <= old(self).items().len(),
        ensures
            final(self).items() == old(self).items(),
            final(self).position() <= final(self).items().len(),
            match r {
                Some(k) => {
                    let p = old(self).position() as int;
                    &&& p < old(self).items().len()
                    &&& final(self).position() == p + 1
                    &&& k == old(self).items()[p].0
                },
                None => {
                    &&& old(self).position() == old(self).items().len()
                    &&& final(self).position() == old(self).position()
                },
            },
    {
        match self.iter.next() {
            Some(e) => Some(e.0),
            None => None,
        }
    }
}

/// The values of a `PhfMap`, in key order.
pub struct PhfMapValues<'a, T: 'static> {
    iter: PhfMapEntries<'a, T>,
}

impl<'a, T> PhfMapValues<'a, T> {
    /// All the entries whose values are handed out.
    pub closed spec fn items(&self) -> Seq<(&'static str, T)> {
        self.iter.items()
    }

    /// How many values have been handed out.
    pub closed spec fn position(&self) -> nat {
        self.iter.position()
    }

    /// Hands out the next value, if any is left.
    pub fn next(&mut self) -> (r: Option<&'a T>)
        requires
            old(self).position() <= old(self).items().len(),
        ensures
            final(self).items() == old(self).items(),
            final(self).position() <= final(self).items().len(),
            match r {
                Some(v) => {
                    let p = old(self).position() as int;
                    &&& p < old(self).items().len()
                    &&& final(self).position() == p + 1
                    &&& v == &old(self).items()[p].1
                },
                None => {
                    &&& old(self).position() == old(self).items().len()
                    &&& final(self).position() == old(self).position()
                },
            },
    {
        match self.iter.next() {
            Some(e) => Some(e.1),
            None => None,
        }
    }
}

} // verus!
