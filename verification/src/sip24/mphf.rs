//! The map macro's table: the keys, sorted, must differ; two random SipHash
//! 2-4 keys split each key into three words, and a displacement pair per
//! bucket sends every key to its own slot.
use vstd::prelude::*;
use vstd::string::StringExecFns;
use crate::macros::joined;
use crate::shared::{decimal, push_decimal, PhfHash};
use crate::sip24::keyed::{displace, hash, spec_displace_usize};
use crate::sip24::{sip24_64, spec_words};
use crate::sorted_map::{compare_bytes, key_bytes, lemma_lex_irreflexive, lemma_lex_total, lemma_lex_transitive, lex_lt};

verus! {

/// The average number of keys per bucket.
pub const DEFAULT_LAMBDA: usize = 5;

/// One entry of the macro's input: the key's string, and the source text
/// of the key and of the value.
pub struct Entry {
    pub key_str: String,
    pub key: String,
    pub value: String,
}

/// A solved table: the two SipHash keys, a displacement pair per bucket,
/// and for each slot the index of the entry it holds.
pub struct HashState {
    pub k1: u64,
    pub k2: u64,
    pub disps: Vec<(usize, usize)>,
    pub map: Vec<Option<usize>>,
}

/// The three words of a key under the SipHash keys `k1` and `k2`.
pub open spec fn key_words(key: Seq<char>, k1: u64, k2: u64) -> (int, int, int) {
    spec_words(sip24_64(k1, k2, <str as PhfHash>::phf_bytes(key)))
}

/// The words of the keys of `entries`.
pub open spec fn entry_words(entries: Seq<Entry>, k1: u64, k2: u64) -> Seq<(int, int, int)> {
    Seq::new(entries.len(), |i: int| key_words(entries[i].key_str@, k1, k2))
}

/// `ceil(n / 5)`: the number of buckets for `n` keys.
pub open spec fn spec_buckets_len(n: nat) -> nat {
    ((n + 4) / 5) as nat
}

/// The slot, of `n`, that the displacements `d` give a key with the words `w`.
pub open spec fn slot_for(w: (int, int, int), d: (usize, usize), n: nat) -> int {
    spec_displace_usize(w.1 as usize, w.2 as usize, d.0, d.1) % (n as int)
}

/// The slot of the `i`th key: its bucket is its first word modulo the
/// number of buckets, and that bucket's displacements place it.
pub open spec fn displaced(words: Seq<(int, int, int)>, disps: Seq<(usize, usize)>, i: int) -> int {
    slot_for(words[i], disps[words[i].0 % (disps.len() as int)], words.len())
}

/// Every key's slot holds that key.
pub open spec fn table_solved(words: Seq<(int, int, int)>, disps: Seq<(usize, usize)>, map: Seq<Option<usize>>) -> bool {
    &&& map.len() == words.len()
    &&& disps.len() == spec_buckets_len(words.len())
    &&& forall|i: int| 0 <= i < words.len() ==> map[#[trigger] displaced(words, disps, i)] == Some(i as usize)
}

/// `s` lists each number below `m` once.
spec fn is_perm(s: Seq<usize>, m: nat) -> bool {
    &&& s.len() == m
    &&& forall|j: int| 0 <= j < m ==> #[trigger] s[j] < m
    &&& forall|j: int, k: int| 0 <= j < m && 0 <= k < m && j != k ==> s[j] != s[k]
}

/// Where `x` stands in `o`.
spec fn pos_in(o: Seq<usize>, x: usize) -> int {
    choose|p: int| 0 <= p < o.len() && o[p] == x
}

/// In the order by number of keys, most first, bucket `x` comes before
/// bucket `y`: it has more keys, or as many and came first in `o0`.
spec fn sorts_before(lens: Seq<usize>, o0: Seq<usize>, x: usize, y: usize) -> bool {
    lens[x as int] > lens[y as int] || (lens[x as int] == lens[y as int] && pos_in(o0, x) < pos_in(o0, y))
}

proof fn lemma_pos_in(o: Seq<usize>, m: nat, p: int)
    requires
        is_perm(o, m),
        0 <= p < m,
    ensures
        pos_in(o, o[p]) == p,
{
    let q = pos_in(o, o[p]);
    assert(o[q] == o[p]);
}

/// Orders the buckets by their number of keys, most first, keeping the
/// order of buckets of the same size.
fn sort_descending(lens: &Vec<usize>, order: &mut Vec<usize>)
    requires
        is_perm(old(order)@, lens@.len()),
    ensures
        is_perm(final(order)@, lens@.len()),
        forall|j: int, k: int|
            0 <= j < k < lens@.len() ==> sorts_before(
                lens@,
                old(order)@,
                #[trigger] final(order)@[j],
                #[trigger] final(order)@[k],
            ),
{
    let ghost m = lens@.len();
    let ghost o0 = order@;
    let ghost ls = lens@;
    let mut i: usize = 1;
    while i < order.len()
        invariant
            m == lens@.len(),
            ls == lens@,
            o0 == old(order)@,
            is_perm(o0, m),
            is_perm(order@, m),
            1 <= i,
            m > 0 ==> i <= m,
            forall|p: int| i <= p < m ==> #[trigger] order@[p] == o0[p],
            forall|p: int| 0 <= p < i && p < m ==> pos_in(o0, #[trigger] order@[p]) < i,
            forall|a: int, b: int|
                0 <= a < b < i && b < m ==> sorts_before(ls, o0, #[trigger] order@[a], #[trigger] order@[b]),
        decreases order@.len() - i,
    {
        proof {
            lemma_pos_in(o0, m, i as int);
        }
        let mut j: usize = i;
        while j > 0 && lens[order[j - 1]] < lens[order[j]]
            invariant
                m == lens@.len(),
                ls == lens@,
                is_perm(o0, m),
                is_perm(order@, m),
                j <= i < m,
                order@[j as int] == o0[i as int],
                pos_in(o0, o0[i as int]) == i,
                forall|p: int| i < p < m ==> #[trigger] order@[p] == o0[p],
                forall|p: int| 0 <= p <= i && p != j ==> pos_in(o0, #[trigger] order@[p]) < i,
                forall|a: int, b: int|
                    0 <= a < b <= i && a != j && b != j ==> sorts_before(
                        ls,
                        o0,
                        #[trigger] order@[a],
                        #[trigger] order@[b],
                    ),
                forall|k: int| j < k <= i ==> sorts_before(ls, o0, order@[j as int], #[trigger] order@[k]),
            decreases j,
        {
            let ghost bo0 = order@;
            let x = order[j];
            let y = order[j - 1];
            order.set(j, y);
            order.set(j - 1, x);
            proof {
                assert(order@ =~= bo0.update(j as int, y).update(j - 1, x));
                assert forall|a: int, b: int| 0 <= a < m && 0 <= b < m && a != b implies order@[a]
                    != order@[b] by {
                    let a0 = if a == j { j - 1 } else if a == j - 1 { j as int } else { a };
                    let b0 = if b == j { j - 1 } else if b == j - 1 { j as int } else { b };
                    assert(order@[a] == bo0[a0]);
                    assert(order@[b] == bo0[b0]);
                }
                assert forall|p: int| 0 <= p <= i && p != j - 1 implies pos_in(o0, #[trigger] order@[p]) < i by {
                    if p == j {
                        assert(order@[p] == bo0[j - 1]);
                    } else {
                        assert(order@[p] == bo0[p]);
                    }
                }
                assert forall|a: int, b: int|
                    0 <= a < b <= i && a != j - 1 && b != j - 1 implies sorts_before(
                        ls,
                        o0,
                        #[trigger] order@[a],
                        #[trigger] order@[b],
                    ) by {
                    if a == j {
                        assert(sorts_before(ls, o0, bo0[j - 1], bo0[b]));
                    } else if b == j {
                        assert(sorts_before(ls, o0, bo0[a], bo0[j - 1]));
                    } else {
                        assert(sorts_before(ls, o0, bo0[a], bo0[b]));
                    }
                }
                assert forall|k: int| j - 1 < k <= i implies sorts_before(
                    ls,
                    o0,
                    order@[j - 1],
                    #[trigger] order@[k],
                ) by {
                    if k > j {
                        assert(sorts_before(ls, o0, bo0[j as int], bo0[k]));
                    }
                }
            }
            j = j - 1;
        }
        proof {
            if j > 0 {
                assert(pos_in(o0, order@[j - 1]) < i);
                assert(sorts_before(ls, o0, order@[j - 1], order@[j as int]));
            }
            assert forall|a: int, b: int|
                0 <= a < b < i + 1 && b < m implies sorts_before(
                    ls,
                    o0,
                    #[trigger] order@[a],
                    #[trigger] order@[b],
                ) by {
                if b == j && a < j - 1 {
                    assert(sorts_before(ls, o0, order@[a], order@[j - 1]));
                }
            }
            assert forall|p: int| 0 <= p < i + 1 && p < m implies pos_in(o0, #[trigger] order@[p]) < i + 1 by {
                if p != j {
                    assert(pos_in(o0, order@[p]) < i);
                }
            }
        }
        i = i + 1;
    }
}

/// The slot, of `n`, that the displacements `d` give the key with the words `w`.
spec fn word_slot(w: (usize, usize, usize), d: (usize, usize), n: nat) -> int {
    spec_displace_usize(w.1, w.2, d.0, d.1) % (n as int)
}

/// The displacements `d` send the keys `keys` to free slots of `map`, no two
/// to the same slot.
spec fn disps_fit(ws: Seq<(usize, usize, usize)>, keys: Seq<usize>, d: (usize, usize), map: Seq<Option<usize>>) -> bool {
    &&& forall|k: int| 0 <= k < keys.len() ==> map[#[trigger] word_slot(ws[keys[k] as int], d, ws.len())] is None
    &&& forall|a: int, b: int|
        0 <= a < keys.len() && 0 <= b < keys.len() && a != b ==> #[trigger] word_slot(ws[keys[a] as int], d, ws.len())
            != #[trigger] word_slot(ws[keys[b] as int], d, ws.len())
}

/// Tries the displacements `(d1, d2)` on the keys `keys`: succeeds exactly
/// when their slots are free and pairwise different, listing each slot with
/// its key in `values_to_add`.
fn try_disps(
    words: &Vec<(usize, usize, usize)>,
    keys: &Vec<usize>,
    d1: usize,
    d2: usize,
    map: &Vec<Option<usize>>,
    values_to_add: &mut Vec<(usize, usize)>,
) -> (ok: bool)
    requires
        words@.len() > 0,
        map@.len() == words@.len(),
        forall|p: int| 0 <= p < keys@.len() ==> #[trigger] keys@[p] < words@.len(),
    ensures
        ok == disps_fit(words@, keys@, (d1, d2), map@),
        ok ==> {
            &&& final(values_to_add)@.len() == keys@.len()
            &&& forall|k: int|
                0 <= k < keys@.len() ==> #[trigger] final(values_to_add)@[k] == (
                    (spec_displace_usize(words@[keys@[k] as int].1, words@[keys@[k] as int].2, d1, d2)
                        % (words@.len() as int)) as usize,
                    keys@[k],
                )
            &&& forall|k: int| 0 <= k < keys@.len() ==> map@[(#[trigger] final(values_to_add)@[k]).0 as int] is None
            &&& forall|a: int, b: int|
                0 <= a < keys@.len() && 0 <= b < keys@.len() && a != b ==> (
                #[trigger] final(values_to_add)@[a]).0 != (#[trigger] final(values_to_add)@[b]).0
        },
{
    let table_len = words.len();
    values_to_add.clear();
    let mut k: usize = 0;
    while k < keys.len()
        invariant
            table_len == words@.len(),
            table_len > 0,
            map@.len() == table_len,
            k <= keys@.len(),
            forall|p: int| 0 <= p < keys@.len() ==> #[trigger] keys@[p] < words@.len(),
            values_to_add@.len() == k,
            forall|j: int|
                0 <= j < k ==> #[trigger] values_to_add@[j] == (
                    (spec_displace_usize(words@[keys@[j] as int].1, words@[keys@[j] as int].2, d1, d2)
                        % (words@.len() as int)) as usize,
                    keys@[j],
                ),
            forall|j: int| 0 <= j < k ==> map@[(#[trigger] values_to_add@[j]).0 as int] is None,
            forall|a: int, b: int|
                0 <= a < k && 0 <= b < k && a != b ==> (#[trigger] values_to_add@[a]).0
                    != (#[trigger] values_to_add@[b]).0,
        decreases keys@.len() - k,
    {
        let key = keys[k];
        let w = words[key];
        let idx = displace(w.1, w.2, d1, d2) % table_len;
        let mut seen = false;
        let mut q: usize = 0;
        while q < values_to_add.len()
            invariant
                q <= values_to_add@.len(),
                seen == exists|j: int| 0 <= j < q && (#[trigger] values_to_add@[j]).0 == idx,
            decreases values_to_add@.len() - q,
        {
            if values_to_add[q].0 == idx {
                seen = true;
            }
            q = q + 1;
        }
        proof {
            assert(idx as int == word_slot(words@[keys@[k as int] as int], (d1, d2), words@.len()));
        }
        if map[idx].is_some() || seen {
            proof {
                let ws = words@;
                let n = ws.len();
                if map@[idx as int] is Some {
                    assert(!(map@[word_slot(ws[keys@[k as int] as int], (d1, d2), n)] is None));
                } else {
                    let j = choose|j: int| 0 <= j < k && (#[trigger] values_to_add@[j]).0 == idx;
                    assert(word_slot(ws[keys@[j] as int], (d1, d2), n) == values_to_add@[j].0 as int);
                    assert(word_slot(ws[keys@[j] as int], (d1, d2), n) == word_slot(ws[keys@[k as int] as int], (d1, d2), n));
                }
            }
            return false;
        }
        values_to_add.push((idx, key));
        k = k + 1;
    }
    proof {
        let ws = words@;
        let n = ws.len();
        assert forall|j: int| 0 <= j < keys@.len() implies word_slot(ws[keys@[j] as int], (d1, d2), n) == values_to_add@[j].0 as int by {
        }
        assert forall|a: int, b: int|
            0 <= a < keys@.len() && 0 <= b < keys@.len() && a != b implies #[trigger] word_slot(ws[keys@[a] as int], (d1, d2), n)
                != #[trigger] word_slot(ws[keys@[b] as int], (d1, d2), n) by {
            assert(values_to_add@[a].0 != values_to_add@[b].0);
            assert(word_slot(ws[keys@[a] as int], (d1, d2), n) == values_to_add@[a].0 as int);
            assert(word_slot(ws[keys@[b] as int], (d1, d2), n) == values_to_add@[b].0 as int);
        }
        assert forall|j: int| 0 <= j < keys@.len() implies map@[#[trigger] word_slot(ws[keys@[j] as int], (d1, d2), n)] is None by {
            assert(word_slot(ws[keys@[j] as int], (d1, d2), n) == values_to_add@[j].0 as int);
            assert(map@[values_to_add@[j].0 as int] is None);
        }
    }
    true
}

/// The bucket, of `bl`, of a key with the words `w`.
pub open spec fn bucket_of(w: (int, int, int), bl: nat) -> int {
    w.0 % (bl as int)
}

/// The placement so far: a key whose bucket has displacements sits in its
/// slot, and a slot that holds a key holds it where its bucket's
/// displacements send it.
pub open spec fn solved_so_far(
    ws: Seq<(int, int, int)>,
    bl: nat,
    disps: Seq<Option<(usize, usize)>>,
    map: Seq<Option<usize>>,
) -> bool {
    &&& map.len() == ws.len()
    &&& disps.len() == bl
    &&& forall|i: int|
        0 <= i < ws.len() && (#[trigger] disps[bucket_of(ws[i], bl)]) is Some ==> map[slot_for(
            ws[i],
            disps[bucket_of(ws[i], bl)]->0,
            ws.len(),
        )] == Some(i as usize)
    &&& forall|s: int|
        0 <= s < map.len() && (#[trigger] map[s]) is Some ==> {
            let i = map[s]->0 as int;
            &&& i < ws.len()
            &&& disps[bucket_of(ws[i], bl)] is Some
            &&& slot_for(ws[i], disps[bucket_of(ws[i], bl)]->0, ws.len()) == s
        }
}

/// The displacements `d` send the keys of bucket `c` to free slots of `map`,
/// no two to the same slot.
pub open spec fn bucket_fits(ws: Seq<(int, int, int)>, bl: nat, c: int, d: (usize, usize), map: Seq<Option<usize>>) -> bool {
    &&& forall|i: int|
        #![trigger slot_for(ws[i], d, ws.len())]
        0 <= i < ws.len() && bucket_of(ws[i], bl) == c ==> map[slot_for(ws[i], d, ws.len())] is None
    &&& forall|i: int, j: int|
        0 <= i < ws.len() && 0 <= j < ws.len() && i != j && bucket_of(ws[i], bl) == c && bucket_of(ws[j], bl) == c
            ==> #[trigger] slot_for(ws[i], d, ws.len()) != #[trigger] slot_for(ws[j], d, ws.len())
}

/// The search is stuck: in a partial table `(disps, map)` that places the
/// buckets with displacements, the bucket `c` has none and no pair below
/// the number of keys fits it.
pub open spec fn stuck(ws: Seq<(int, int, int)>, bl: nat, c: int, disps: Seq<Option<(usize, usize)>>, map: Seq<Option<usize>>) -> bool {
    &&& 0 <= c < bl
    &&& solved_so_far(ws, bl, disps, map)
    &&& disps[c] is None
    &&& forall|d1: usize, d2: usize| d1 < ws.len() && d2 < ws.len() ==> !#[trigger] bucket_fits(ws, bl, c, (d1, d2), map)
}

/// Displacements that fit a bucket fit the list of its keys.
proof fn lemma_bucket_fits_keys(
    words: Seq<(usize, usize, usize)>,
    ws: Seq<(int, int, int)>,
    bl: nat,
    c: int,
    keys: Seq<usize>,
    d: (usize, usize),
    map: Seq<Option<usize>>,
)
    requires
        words_match(words, ws),
        bucket_keys(ws, bl, c, keys),
        forall|j: int, k: int| 0 <= j < k < keys.len() ==> #[trigger] keys[j] < #[trigger] keys[k],
        bucket_fits(ws, bl, c, d, map),
    ensures
        disps_fit(words, keys, d, map),
{
    assert forall|k: int| 0 <= k < keys.len() implies map[#[trigger] word_slot(words[keys[k] as int], d, words.len())] is None by {
        let i = keys[k] as int;
        assert(keys[k] < ws.len() && bucket_of(ws[i], bl) == c);
        assert(word_slot(words[i], d, words.len()) == slot_for(ws[i], d, ws.len()));
    }
    assert forall|a: int, b: int|
        0 <= a < keys.len() && 0 <= b < keys.len() && a != b implies #[trigger] word_slot(words[keys[a] as int], d, words.len())
            != #[trigger] word_slot(words[keys[b] as int], d, words.len()) by {
        let ia = keys[a] as int;
        let ib = keys[b] as int;
        assert(keys[a] < ws.len() && bucket_of(ws[ia], bl) == c);
        assert(keys[b] < ws.len() && bucket_of(ws[ib], bl) == c);
        assert(word_slot(words[ia], d, words.len()) == slot_for(ws[ia], d, ws.len()));
        assert(word_slot(words[ib], d, words.len()) == slot_for(ws[ib], d, ws.len()));
        if a < b {
            assert(keys[a] < keys[b]);
        } else {
            assert(keys[b] < keys[a]);
        }
    }
}

/// `keys` lists exactly the keys of bucket `b`.
spec fn bucket_keys(ws: Seq<(int, int, int)>, bl: nat, b: int, keys: Seq<usize>) -> bool {
    &&& forall|j: int|
        0 <= j < keys.len() ==> (#[trigger] keys[j]) < ws.len() && bucket_of(ws[keys[j] as int], bl) == b
    &&& forall|i: int| 0 <= i < ws.len() && bucket_of(ws[i], bl) == b ==> keys.contains(i as usize)
}

/// The words of the exec table are those of the spec.
spec fn words_match(words: Seq<(usize, usize, usize)>, ws: Seq<(int, int, int)>) -> bool {
    &&& words.len() == ws.len()
    &&& forall|i: int|
        0 <= i < ws.len() ==> (#[trigger] words[i]).0 as int == ws[i].0 && words[i].1 as int == ws[i].1
            && words[i].2 as int == ws[i].2
}

/// Records the displacements `(d1, d2)` of bucket `b` and puts its keys in
/// the slots `values_to_add` lists.
fn place(
    words: &Vec<(usize, usize, usize)>,
    keys: &Vec<usize>,
    b: usize,
    d1: usize,
    d2: usize,
    values_to_add: &Vec<(usize, usize)>,
    map: &mut Vec<Option<usize>>,
    disps: &mut Vec<Option<(usize, usize)>>,
    Ghost(ws): Ghost<Seq<(int, int, int)>>,
    Ghost(bl): Ghost<nat>,
)
    requires
        0 < words@.len() <= usize::MAX,
        words_match(words@, ws),
        solved_so_far(ws, bl, old(disps)@, old(map)@),
        b < bl,
        old(disps)@[b as int] is None,
        bucket_keys(ws, bl, b as int, keys@),
        values_to_add@.len() == keys@.len(),
        forall|k: int|
            0 <= k < keys@.len() ==> #[trigger] values_to_add@[k] == (
                (spec_displace_usize(words@[keys@[k] as int].1, words@[keys@[k] as int].2, d1, d2)
                    % (words@.len() as int)) as usize,
                keys@[k],
            ),
        forall|k: int| 0 <= k < keys@.len() ==> old(map)@[(#[trigger] values_to_add@[k]).0 as int] is None,
        forall|a: int, c: int|
            0 <= a < keys@.len() && 0 <= c < keys@.len() && a != c ==> (#[trigger] values_to_add@[a]).0
                != (#[trigger] values_to_add@[c]).0,
    ensures
        final(disps)@ == old(disps)@.update(b as int, Some((d1, d2))),
        solved_so_far(ws, bl, final(disps)@, final(map)@),
{
    let ghost n = ws.len();
    let ghost m0 = map@;
    let ghost slot_of_key = |k: int| values_to_add@[k].0 as int;
    proof {
        assert forall|k: int| 0 <= k < keys@.len() implies slot_for(ws[keys@[k] as int], (d1, d2), n)
            == #[trigger] values_to_add@[k].0 as int && 0 <= values_to_add@[k].0 < n by {
            let i = keys@[k] as int;
            assert(ws[i].1 as usize == words@[i].1);
            assert(ws[i].2 as usize == words@[i].2);
            let x = spec_displace_usize(words@[i].1, words@[i].2, d1, d2);
            vstd::arithmetic::div_mod::lemma_mod_pos_bound(x, n as int);
            assert(values_to_add@[k].0 as int == x % (n as int));
        }
    }
    disps.set(b, Some((d1, d2)));
    let mut w: usize = 0;
    while w < values_to_add.len()
        invariant
            n == ws.len(),
            n == words@.len(),
            m0.len() == n,
            map@.len() == n,
            w <= values_to_add@.len(),
            values_to_add@.len() == keys@.len(),
            forall|k: int| 0 <= k < keys@.len() ==> 0 <= (#[trigger] values_to_add@[k]).0 < n,
            forall|k: int| 0 <= k < w ==> map@[(#[trigger] values_to_add@[k]).0 as int] == Some(keys@[k]),
            forall|s: int|
                0 <= s < n && (forall|k: int| 0 <= k < w ==> (#[trigger] values_to_add@[k]).0 != s)
                    ==> #[trigger] map@[s] == m0[s],
            forall|k: int| 0 <= k < keys@.len() ==> (#[trigger] values_to_add@[k]).1 == keys@[k],
            forall|a: int, c: int|
                0 <= a < keys@.len() && 0 <= c < keys@.len() && a != c ==> (#[trigger] values_to_add@[a]).0
                    != (#[trigger] values_to_add@[c]).0,
        decreases values_to_add@.len() - w,
    {
        let (idx, key) = values_to_add[w];
        let ghost prev = map@;
        map.set(idx, Some(key));
        proof {
            assert forall|k: int| 0 <= k < w + 1 implies map@[(#[trigger] values_to_add@[k]).0 as int]
                == Some(keys@[k]) by {
                if k < w {
                    assert(values_to_add@[k].0 != values_to_add@[w as int].0);
                }
            }
            assert forall|s: int|
                0 <= s < n && (forall|k: int| 0 <= k < w + 1 ==> (#[trigger] values_to_add@[k]).0 != s)
                    implies #[trigger] map@[s] == m0[s] by {
                assert(values_to_add@[w as int].0 != s);
            }
        }
        w = w + 1;
    }
    proof {
        let nd = disps@;
        // A slot is either one of the bucket's, now holding its key, or as it was.
        assert forall|s: int| 0 <= s < n implies (#[trigger] map@[s] == m0[s]) || (exists|k: int|
            0 <= k < keys@.len() && values_to_add@[k].0 == s && map@[s] == Some(keys@[k])
                && m0[s] is None) by {
            if exists|k: int| 0 <= k < keys@.len() && (#[trigger] values_to_add@[k]).0 == s {
                let k = choose|k: int| 0 <= k < keys@.len() && (#[trigger] values_to_add@[k]).0 == s;
                assert(map@[s] == Some(keys@[k]));
            }
        }
        assert forall|i: int|
            0 <= i < n && (#[trigger] nd[bucket_of(ws[i], bl)]) is Some implies map@[slot_for(
            ws[i],
            nd[bucket_of(ws[i], bl)]->0,
            n,
        )] == Some(i as usize) by {
            if bucket_of(ws[i], bl) == b {
                assert(keys@.contains(i as usize));
                let k = choose|k: int| 0 <= k < keys@.len() && keys@[k] == i as usize;
                assert(slot_for(ws[keys@[k] as int], (d1, d2), n) == values_to_add@[k].0 as int);
            } else {
                let s = slot_for(ws[i], nd[bucket_of(ws[i], bl)]->0, n);
                assert(m0[s] == Some(i as usize));
                if map@[s] != m0[s] {
                    let k = choose|k: int|
                        0 <= k < keys@.len() && values_to_add@[k].0 == s && map@[s] == Some(keys@[k])
                            && m0[s] is None;
                }
            }
        }
        assert forall|s: int| 0 <= s < n && (#[trigger] map@[s]) is Some implies {
            let i = map@[s]->0 as int;
            &&& i < n
            &&& nd[bucket_of(ws[i], bl)] is Some
            &&& slot_for(ws[i], nd[bucket_of(ws[i], bl)]->0, n) == s
        } by {
            if map@[s] != m0[s] {
                let k = choose|k: int|
                    0 <= k < keys@.len() && values_to_add@[k].0 == s && map@[s] == Some(keys@[k])
                        && m0[s] is None;
                assert(keys@[k] < n);
                assert(bucket_of(ws[keys@[k] as int], bl) == b);
            } else {
                let i = m0[s]->0 as int;
                assert(m0[s] is Some);
                if bucket_of(ws[i], bl) == b {
                    assert(false);
                }
            }
        }
    }
}

/// The largest number of entries a table takes.
pub const MAX_SIZE: usize = 0x20_0000;

/// The keys of `entries` can be hashed: each feeds at most `usize::MAX`
/// bytes.
pub open spec fn hashable(entries: Seq<Entry>) -> bool {
    forall|i: int|
        0 <= i < entries.len() ==> (#[trigger] <str as PhfHash>::phf_bytes(entries[i].key_str@)).len()
            <= usize::MAX
}

/// The words of each entry's key.
fn entry_word_table(entries: &[Entry], k1: u64, k2: u64) -> (words: Vec<(usize, usize, usize)>)
    requires
        hashable(entries@),
    ensures
        words_match(words@, entry_words(entries@, k1, k2)),
{
    let ghost ws = entry_words(entries@, k1, k2);
    let mut words: Vec<(usize, usize, usize)> = Vec::new();
    let mut i: usize = 0;
    while i < entries.len()
        invariant
            i <= entries@.len(),
            hashable(entries@),
            ws == entry_words(entries@, k1, k2),
            words@.len() == i,
            forall|j: int|
                0 <= j < i ==> (#[trigger] words@[j]).0 as int == ws[j].0 && words@[j].1 as int
                    == ws[j].1 && words@[j].2 as int == ws[j].2,
        decreases entries@.len() - i,
    {
        let w = hash(entries[i].key_str.as_str(), k1, k2);
        proof {
            assert(<str as PhfHash>::phf_bytes(entries@[i as int].key_str@).len() <= usize::MAX);
        }
        words.push(w);
        i = i + 1;
    }
    words
}

/// Lists each key in its bucket.
fn fill_buckets(words: &Vec<(usize, usize, usize)>, buckets_len: usize, Ghost(ws): Ghost<Seq<(int, int, int)>>) -> (buckets: Vec<Vec<usize>>)
    requires
        buckets_len > 0,
        words_match(words@, ws),
    ensures
        buckets@.len() == buckets_len,
        forall|b: int| 0 <= b < buckets_len ==> bucket_keys(ws, buckets_len as nat, b, #[trigger] buckets@[b]@),
        forall|b: int, j: int, k: int|
            0 <= b < buckets_len && 0 <= j < k < buckets@[b]@.len() ==> #[trigger] buckets@[b]@[j] < #[trigger] buckets@[b]@[k],
{
    let ghost bl = buckets_len as nat;
    let mut buckets: Vec<Vec<usize>> = Vec::new();
    let mut b: usize = 0;
    while b < buckets_len
        invariant
            b <= buckets_len,
            buckets@.len() == b,
            forall|c: int| 0 <= c < b ==> (#[trigger] buckets@[c])@.len() == 0,
        decreases buckets_len - b,
    {
        buckets.push(Vec::new());
        b = b + 1;
    }
    let mut i: usize = 0;
    while i < words.len()
        invariant
            i <= words@.len(),
            words_match(words@, ws),
            buckets_len > 0,
            bl == buckets_len,
            buckets@.len() == buckets_len,
            forall|c: int, j: int|
                0 <= c < buckets_len && 0 <= j < buckets@[c]@.len() ==> (#[trigger] buckets@[c]@[j]) < i
                    && bucket_of(ws[buckets@[c]@[j] as int], bl) == c,
            forall|k: int| 0 <= k < i ==> (#[trigger] buckets@[bucket_of(ws[k], bl)])@.contains(k as usize),
            forall|c: int, j: int, k: int|
                0 <= c < buckets_len && 0 <= j < k < buckets@[c]@.len() ==> #[trigger] buckets@[c]@[j] < #[trigger] buckets@[c]@[k],
        decreases words@.len() - i,
    {
        let bucket = words[i].0 % buckets_len;
        let ghost before = buckets@;
        proof {
            assert(bucket as int == bucket_of(ws[i as int], bl));
        }
        let mut entry: Vec<usize> = Vec::new();
        buckets.set_and_swap(bucket, &mut entry);
        entry.push(i);
        buckets.set_and_swap(bucket, &mut entry);
        proof {
            assert(buckets@ =~= before.update(bucket as int, buckets@[bucket as int]));
            assert forall|k: int| 0 <= k < i + 1 implies (#[trigger] buckets@[bucket_of(ws[k], bl)])@.contains(
                k as usize,
            ) by {
                let c = bucket_of(ws[k], bl);
                if k == i {
                    assert(buckets@[bucket as int]@.last() == i);
                } else if c == bucket {
                    let j = choose|j: int| 0 <= j < before[c]@.len() && before[c]@[j] == k as usize;
                    assert(buckets@[c]@[j] == k as usize);
                } else {
                    assert(buckets@[c] == before[c]);
                }
            }
        }
        i = i + 1;
    }
    buckets
}

/// Searches displacements for `entries` under the SipHash keys `k1` and
/// `k2`: the keys go to `ceil(n / 5)` buckets by their first word; the
/// buckets, largest first, each take the first pair `(d1, d2)` below `n`,
/// `d1` first, that sends their keys to free slots that differ. `None`
/// when a bucket finds no such pair.
pub fn generate_hash_with_keys(entries: &[Entry], k1: u64, k2: u64) -> (r: Option<HashState>)
    requires
        entries@.len() <= MAX_SIZE,
        hashable(entries@),
    ensures
        r matches Some(st) ==> st.k1 == k1 && st.k2 == k2 && table_solved(
            entry_words(entries@, k1, k2),
            st.disps@,
            st.map@,
        ),
        entries@.len() == 0 ==> r is Some,
        r is None ==> exists|c: int, disps: Seq<Option<(usize, usize)>>, map: Seq<Option<usize>>|
            #[trigger] stuck(entry_words(entries@, k1, k2), spec_buckets_len(entries@.len()), c, disps, map),
{
    let ghost ws = entry_words(entries@, k1, k2);
    let n = entries.len();
    let words = entry_word_table(entries, k1, k2);
    let buckets_len = (n + DEFAULT_LAMBDA - 1) / DEFAULT_LAMBDA;
    let ghost bl = buckets_len as nat;
    let mut map: Vec<Option<usize>> = crate::generator::filled(None, n);
    let mut disps: Vec<Option<(usize, usize)>> = crate::generator::filled(None, buckets_len);
    if n == 0 {
        return Some(HashState { k1, k2, disps: Vec::new(), map: Vec::new() });
    }
    let buckets = fill_buckets(&words, buckets_len, Ghost(ws));
    let mut lens: Vec<usize> = Vec::new();
    let mut b: usize = 0;
    while b < buckets_len
        invariant
            b <= buckets_len,
            buckets@.len() == buckets_len,
            lens@.len() == b,
        decreases buckets_len - b,
    {
        lens.push(buckets[b].len());
        b = b + 1;
    }
    let mut order: Vec<usize> = Vec::new();
    let mut b: usize = 0;
    while b < buckets_len
        invariant
            b <= buckets_len,
            order@.len() == b,
            forall|j: int| 0 <= j < b ==> #[trigger] order@[j] == j,
        decreases buckets_len - b,
    {
        order.push(b);
        b = b + 1;
    }
    proof {
        assert forall|j: int, k: int| 0 <= j < bl && 0 <= k < bl && j != k implies order@[j] != order@[k] by {}
    }
    sort_descending(&lens, &mut order);
    let mut values_to_add: Vec<(usize, usize)> = Vec::new();
    proof {
        assert(solved_so_far(ws, bl, disps@, map@));
    }
    let mut t: usize = 0;
    while t < buckets_len
        invariant
            0 < n <= MAX_SIZE,
            n == ws.len(),
            words_match(words@, ws),
            bl == buckets_len,
            buckets_len > 0,
            buckets@.len() == buckets_len,
            forall|c: int| 0 <= c < buckets_len ==> bucket_keys(ws, bl, c, #[trigger] buckets@[c]@),
            is_perm(order@, bl),
            t <= buckets_len,
            solved_so_far(ws, bl, disps@, map@),
            forall|u: int| 0 <= u < t ==> (#[trigger] disps@[order@[u] as int]) is Some,
            forall|u: int| t <= u < bl ==> (#[trigger] disps@[order@[u] as int]) is None,
            forall|c: int, j: int, k: int|
                0 <= c < buckets_len && 0 <= j < k < buckets@[c]@.len() ==> #[trigger] buckets@[c]@[j] < #[trigger] buckets@[c]@[k],
            bl == spec_buckets_len(n as nat),
            n == entries@.len(),
            ws == entry_words(entries@, k1, k2),
        decreases buckets_len - t,
    {
        let bucket = order[t];
        proof {
            assert(bucket_keys(ws, bl, bucket as int, buckets@[bucket as int]@));
            assert forall|p: int| 0 <= p < buckets@[bucket as int]@.len() implies #[trigger] buckets@[bucket as int]@[p]
                < words@.len() by {}
        }
        let ghost dz = disps@;
        let ghost mz = map@;
        let mut found = false;
        let mut d1: usize = 0;
        while d1 < n && !found
            invariant
                0 < n <= MAX_SIZE,
                n == ws.len(),
                n == words@.len(),
                words_match(words@, ws),
                bl == buckets_len,
                bucket < bl,
                bucket_keys(ws, bl, bucket as int, buckets@[bucket as int]@),
                buckets@.len() == buckets_len,
                forall|p: int|
                    0 <= p < buckets@[bucket as int]@.len() ==> #[trigger] buckets@[bucket as int]@[p]
                        < words@.len(),
                solved_so_far(ws, bl, disps@, map@),
                dz.len() == bl,
                dz[bucket as int] is None,
                !found ==> disps@ == dz && map@ == mz,
                found ==> disps@[bucket as int] is Some && forall|c: int|
                    0 <= c < bl && c != bucket ==> #[trigger] disps@[c] == dz[c],
                !found ==> forall|e1: usize, e2: usize|
                    e1 < d1 && e2 < n ==> !#[trigger] disps_fit(words@, buckets@[bucket as int]@, (e1, e2), mz),
            decreases n - d1 + (if found { 0int } else { 1int }),
        {
            let mut d2: usize = 0;
            while d2 < n && !found
                invariant
                    0 < n <= MAX_SIZE,
                    n == ws.len(),
                    n == words@.len(),
                    words_match(words@, ws),
                    bl == buckets_len,
                    bucket < bl,
                    bucket_keys(ws, bl, bucket as int, buckets@[bucket as int]@),
                    buckets@.len() == buckets_len,
                    forall|p: int|
                        0 <= p < buckets@[bucket as int]@.len() ==> #[trigger] buckets@[bucket as int]@[p]
                            < words@.len(),
                    solved_so_far(ws, bl, disps@, map@),
                    dz.len() == bl,
                    dz[bucket as int] is None,
                    !found ==> disps@ == dz && map@ == mz,
                    found ==> disps@[bucket as int] is Some && forall|c: int|
                        0 <= c < bl && c != bucket ==> #[trigger] disps@[c] == dz[c],
                    d1 < n,
                    !found ==> forall|e1: usize, e2: usize|
                        e1 < d1 && e2 < n ==> !#[trigger] disps_fit(words@, buckets@[bucket as int]@, (e1, e2), mz),
                    !found ==> forall|e2: usize|
                        e2 < d2 ==> !#[trigger] disps_fit(words@, buckets@[bucket as int]@, (d1, e2), mz),
                decreases n - d2,
            {
                if try_disps(&words, &buckets[bucket], d1, d2, &map, &mut values_to_add) {
                    place(
                        &words,
                        &buckets[bucket],
                        bucket,
                        d1,
                        d2,
                        &values_to_add,
                        &mut map,
                        &mut disps,
                        Ghost(ws),
                        Ghost(bl),
                    );
                    found = true;
                }
                d2 = d2 + 1;
            }
            proof {
                assert forall|e1: usize, e2: usize|
                    e1 < d1 + 1 && e2 < n && !found implies !#[trigger] disps_fit(
                        words@,
                        buckets@[bucket as int]@,
                        (e1, e2),
                        mz,
                    ) by {
                    if e1 == d1 {
                        assert(!disps_fit(words@, buckets@[bucket as int]@, (d1, e2), mz));
                    }
                }
            }
            d1 = d1 + 1;
        }
        if !found {
            proof {
                assert forall|e1: usize, e2: usize| e1 < ws.len() && e2 < ws.len() implies !#[trigger] bucket_fits(
                    ws,
                    bl,
                    bucket as int,
                    (e1, e2),
                    map@,
                ) by {
                    if bucket_fits(ws, bl, bucket as int, (e1, e2), map@) {
                        lemma_bucket_fits_keys(words@, ws, bl, bucket as int, buckets@[bucket as int]@, (e1, e2), map@);
                    }
                }
                assert(stuck(ws, bl, bucket as int, disps@, map@));
            }
            return None;
        }
        proof {
            assert forall|u: int| 0 <= u < t + 1 implies (#[trigger] disps@[order@[u] as int]) is Some by {
                if u < t {
                    assert(order@[u] != order@[t as int]);
                }
            }
            assert forall|u: int| t + 1 <= u < bl implies (#[trigger] disps@[order@[u] as int]) is None by {
                assert(order@[u] != order@[t as int]);
            }
        }
        t = t + 1;
    }
    proof {
        let o = Seq::new(bl, |u: int| order@[u] as int);
        assert forall|i: int| 0 <= i < bl implies 0 <= #[trigger] o[i] < bl by {}
        assert forall|i: int, j: int| 0 <= i < bl && 0 <= j < bl && i != j implies o[i] != o[j] by {}
        crate::generator::lemma_distinct_covers(o, bl);
        assert forall|c: int| 0 <= c < bl implies (#[trigger] disps@[c]) is Some by {
            assert(crate::generator::takes(o, c));
            let u = choose|u: int| 0 <= u < o.len() && o[u] == c;
            assert(disps@[order@[u] as int] is Some);
        }
    }
    let mut out: Vec<(usize, usize)> = Vec::new();
    let mut c: usize = 0;
    while c < buckets_len
        invariant
            c <= buckets_len,
            disps@.len() == buckets_len,
            forall|e: int| 0 <= e < buckets_len ==> (#[trigger] disps@[e]) is Some,
            out@.len() == c,
            forall|e: int| 0 <= e < c ==> #[trigger] out@[e] == disps@[e]->0,
        decreases buckets_len - c,
    {
        out.push(disps[c].unwrap());
        c = c + 1;
    }
    proof {
        assert forall|i: int| 0 <= i < n implies map@[#[trigger] displaced(ws, out@, i)] == Some(i as usize) by {
            let bi = bucket_of(ws[i], bl);
            vstd::arithmetic::div_mod::lemma_mod_pos_bound(ws[i].0, bl as int);
            assert(out@[bi] == disps@[bi]->0);
        }
    }
    Some(HashState { k1, k2, disps: out, map })
}

/// `fastrand::u64` over the whole range, from the thread's own generator:
/// a random number. Nothing is stated of it.
#[verifier::external_body]
fn random_u64() -> (x: u64) {
    fastrand::u64(..)
}

/// Draws two random SipHash keys and searches displacements for `entries`
/// under them; `None` when a bucket finds no displacements.
pub fn generate_hash(entries: &[Entry]) -> (r: Option<HashState>)
    requires
        entries@.len() <= MAX_SIZE,
        hashable(entries@),
    ensures
        r matches Some(st) ==> table_solved(entry_words(entries@, st.k1, st.k2), st.disps@, st.map@),
        entries@.len() == 0 ==> r is Some,
        r is None ==> exists|k1: u64, k2: u64, c: int, disps: Seq<Option<(usize, usize)>>, map: Seq<Option<usize>>|
            #[trigger] stuck(entry_words(entries@, k1, k2), spec_buckets_len(entries@.len()), c, disps, map),
{
    let k1 = random_u64();
    let k2 = random_u64();
    generate_hash_with_keys(entries, k1, k2)
}

/// The key of `y` does not come before that of `x`.
pub open spec fn key_le(x: Entry, y: Entry) -> bool {
    !lex_lt(key_bytes(y.key_str@), key_bytes(x.key_str@))
}

/// The keys of `entries` never decrease.
pub open spec fn keys_nondecreasing(entries: Seq<Entry>) -> bool {
    forall|a: int, b: int| 0 <= a < b < entries.len() ==> key_le(#[trigger] entries[a], #[trigger] entries[b])
}

/// `p` lists each number below `n` once.
pub open spec fn perm_of(p: Seq<int>, n: nat) -> bool {
    &&& p.len() == n
    &&& forall|j: int| 0 <= j < n ==> 0 <= #[trigger] p[j] < n
    &&& forall|j: int, k: int| 0 <= j < n && 0 <= k < n && j != k ==> p[j] != p[k]
}

/// `sorted` holds the entries of `entries`, each once.
pub open spec fn rearranged(entries: Seq<Entry>, sorted: Seq<Entry>) -> bool {
    exists|p: Seq<int>|
        #[trigger] perm_of(p, entries.len()) && sorted.len() == entries.len() && forall|j: int|
            0 <= j < sorted.len() ==> sorted[j] == entries[p[j]]
}

proof fn lemma_key_le_transitive(x: Entry, y: Entry, z: Entry)
    requires
        key_le(x, y),
        key_le(y, z),
    ensures
        key_le(x, z),
{
    let a = key_bytes(x.key_str@);
    let b = key_bytes(y.key_str@);
    let c = key_bytes(z.key_str@);
    if lex_lt(c, a) {
        lemma_lex_total(a, b);
        lemma_lex_total(b, c);
        if a == b {
            assert(!lex_lt(c, b));
        } else {
            assert(lex_lt(a, b));
            if b == c {
                lemma_lex_total(a, c);
            } else {
                lemma_lex_transitive(a, b, c);
                lemma_lex_total(a, c);
            }
        }
    }
}

/// The order of the keys of `entries`, stably sorted: indices of entries
/// with keys that come first come first, and equal keys keep their order.
fn sorted_order(entries: &Vec<Entry>) -> (order: Vec<usize>)
    ensures
        is_perm(order@, entries@.len()),
        forall|a: int, b: int|
            0 <= a < b < entries@.len() ==> key_le(
                entries@[#[trigger] order@[a] as int],
                entries@[#[trigger] order@[b] as int],
            ),
{
    let ghost m = entries@.len();
    let ghost es = entries@;
    let mut order: Vec<usize> = Vec::new();
    let mut b: usize = 0;
    while b < entries.len()
        invariant
            b <= entries@.len(),
            order@.len() == b,
            forall|j: int| 0 <= j < b ==> #[trigger] order@[j] == j,
        decreases entries@.len() - b,
    {
        order.push(b);
        b = b + 1;
    }
    proof {
        assert forall|j: int, k: int| 0 <= j < m && 0 <= k < m && j != k implies order@[j] != order@[k] by {}
    }
    let mut i: usize = 0;
    while i < order.len()
        invariant
            i <= m,
            m == entries@.len(),
            es == entries@,
            is_perm(order@, m),
            forall|a: int, c: int|
                0 <= a < c < i ==> key_le(es[#[trigger] order@[a] as int], es[#[trigger] order@[c] as int]),
        decreases m - i,
    {
        let mut j: usize = i;
        while j > 0 && compare_bytes(
            entries[order[j]].key_str.as_str().as_bytes(),
            entries[order[j - 1]].key_str.as_str().as_bytes(),
        ) < 0
            invariant
                j <= i < m,
                m == entries@.len(),
                es == entries@,
                is_perm(order@, m),
                forall|a: int, c: int|
                    0 <= a < c <= i && a != j && c != j ==> key_le(
                        es[#[trigger] order@[a] as int],
                        es[#[trigger] order@[c] as int],
                    ),
                forall|k: int|
                    j < k <= i ==> lex_lt(
                        key_bytes(es[order@[j as int] as int].key_str@),
                        key_bytes(es[#[trigger] order@[k] as int].key_str@),
                    ),
            decreases j,
        {
            let ghost o0 = order@;
            let x = order[j];
            let y = order[j - 1];
            order.set(j, y);
            order.set(j - 1, x);
            proof {
                assert(order@ =~= o0.update(j as int, y).update(j - 1, x));
                assert forall|a: int, c: int| 0 <= a < m && 0 <= c < m && a != c implies order@[a]
                    != order@[c] by {
                    let a0 = if a == j { j - 1 } else if a == j - 1 { j as int } else { a };
                    let c0 = if c == j { j - 1 } else if c == j - 1 { j as int } else { c };
                    assert(order@[a] == o0[a0]);
                    assert(order@[c] == o0[c0]);
                }
                let kx = key_bytes(es[x as int].key_str@);
                let ky = key_bytes(es[y as int].key_str@);
                assert(lex_lt(kx, ky));
                assert forall|a: int, c: int|
                    0 <= a < c <= i && a != j - 1 && c != j - 1 implies key_le(
                        es[#[trigger] order@[a] as int],
                        es[#[trigger] order@[c] as int],
                    ) by {
                    if a == j {
                        assert(key_le(es[o0[j - 1] as int], es[o0[c] as int]));
                    } else if c == j {
                        assert(key_le(es[o0[a] as int], es[o0[j - 1] as int]));
                    } else {
                        assert(key_le(es[o0[a] as int], es[o0[c] as int]));
                    }
                }
                assert forall|k: int| j - 1 < k <= i implies lex_lt(
                    key_bytes(es[order@[j - 1] as int].key_str@),
                    key_bytes(es[#[trigger] order@[k] as int].key_str@),
                ) by {
                    if k > j {
                        assert(lex_lt(kx, key_bytes(es[o0[k] as int].key_str@)));
                    } else {
                        assert(order@[k] == y);
                    }
                }
            }
            j = j - 1;
        }
        proof {
            assert forall|a: int, c: int|
                0 <= a < c < i + 1 implies key_le(es[#[trigger] order@[a] as int], es[#[trigger] order@[c] as int]) by {
                if c == j && a < j {
                    // the loop stopped: the key at `j` does not come before the one at `j - 1`
                    assert(!lex_lt(
                        key_bytes(es[order@[j as int] as int].key_str@),
                        key_bytes(es[order@[j - 1] as int].key_str@),
                    ));
                    if a < j - 1 {
                        assert(key_le(es[order@[a] as int], es[order@[j - 1] as int]));
                        lemma_key_le_transitive(es[order@[a] as int], es[order@[j - 1] as int], es[order@[j as int] as int]);
                    }
                } else if a == j && c > j {
                    let ka = key_bytes(es[order@[a] as int].key_str@);
                    let kc = key_bytes(es[order@[c] as int].key_str@);
                    assert(lex_lt(ka, kc));
                    lemma_lex_total(ka, kc);
                }
            }
        }
        i = i + 1;
    }
    order
}

/// Takes the entries out in the order `order` lists them.
fn take_in_order(entries: Vec<Entry>, order: &Vec<usize>) -> (sorted: Vec<Entry>)
    requires
        is_perm(order@, entries@.len()),
    ensures
        sorted@.len() == entries@.len(),
        forall|j: int| 0 <= j < sorted@.len() ==> #[trigger] sorted@[j] == entries@[order@[j] as int],
{
    let ghost orig = entries@;
    let ghost n = orig.len();
    let mut entries = entries;
    let mut sorted: Vec<Entry> = Vec::new();
    let mut j: usize = 0;
    while j < order.len()
        invariant
            n == orig.len(),
            is_perm(order@, n),
            j <= n,
            entries@.len() == n,
            sorted@.len() == j,
            forall|k: int| 0 <= k < j ==> #[trigger] sorted@[k] == orig[order@[k] as int],
            forall|x: int|
                0 <= x < n && (forall|k: int| 0 <= k < j ==> #[trigger] order@[k] != x) ==> #[trigger] entries@[x]
                    == orig[x],
        decreases n - j,
    {
        let mut e = Entry { key_str: String::new(), key: String::new(), value: String::new() };
        let x = order[j];
        proof {
            assert forall|k: int| 0 <= k < j implies #[trigger] order@[k] != x by {}
        }
        let ghost before = entries@;
        entries.set_and_swap(x, &mut e);
        sorted.push(e);
        proof {
            assert forall|y: int|
                0 <= y < n && (forall|k: int| 0 <= k < j + 1 ==> #[trigger] order@[k] != y) implies #[trigger] entries@[y]
                == orig[y] by {
                assert(order@[j as int] != y);
                assert(entries@[y] == before[y]);
            }
        }
        j = j + 1;
    }
    sorted
}

/// Whether two neighbouring entries have the same key.
pub fn check_for_duplicates(entries: &[Entry]) -> (dups: bool)
    ensures
        dups == exists|j: int|
            0 <= j && j + 1 < entries@.len() && #[trigger] entries@[j].key_str@ == entries@[j + 1].key_str@,
{
    let mut j: usize = 0;
    while j < entries.len() && j + 1 < entries.len()
        invariant
            j <= entries@.len(),
            forall|k: int| 0 <= k < j && k + 1 < entries@.len() ==> #[trigger] entries@[k].key_str@ != entries@[k + 1].key_str@,
        decreases entries@.len() - j,
    {
        let c = compare_bytes(entries[j].key_str.as_str().as_bytes(), entries[j + 1].key_str.as_str().as_bytes());
        proof {
            vstd::utf8::encode_utf8_decode_utf8(entries@[j as int].key_str@);
            vstd::utf8::encode_utf8_decode_utf8(entries@[j + 1].key_str@);
        }
        if c == 0 {
            proof {
                assert(vstd::utf8::encode_utf8(entries@[j as int].key_str@) == vstd::utf8::encode_utf8(
                    entries@[j + 1].key_str@,
                ));
                assert(entries@[j as int].key_str@ == entries@[j + 1].key_str@);
            }
            return true;
        }
        j = j + 1;
    }
    false
}

/// `(d1, d2)` for each bucket.
pub open spec fn disp_items(disps: Seq<(usize, usize)>) -> Seq<Seq<char>> {
    disps.map_values(|d: (usize, usize)| "("@ + decimal(d.0 as nat) + ", "@ + decimal(d.1 as nat) + ")"@)
}

/// `Some((key, value))` for a slot that holds an entry, `None` for another.
pub open spec fn slot_item(entries: Seq<Entry>, slot: Option<usize>) -> Seq<char> {
    match slot {
        Some(i) => "Some(("@ + entries[i as int].key@ + ", "@ + entries[i as int].value@ + "))"@,
        None => "None"@,
    }
}

/// The source of the map: its length, its keys, the displacements, and the
/// slots in order.
pub open spec fn map_source(entries: Seq<Entry>, state: HashState) -> Seq<char> {
    "PhfMap { len: "@ + decimal(entries.len()) + ", k1: "@ + decimal(state.k1 as nat) + ", k2: "@
        + decimal(state.k2 as nat) + ", disps: &'static ["@ + joined(disp_items(state.disps@))
        + "], entries: &'static ["@ + joined(state.map@.map_values(|slot: Option<usize>| slot_item(entries, slot)))
        + "], }"@
}

/// Writes the source of the map for `entries` placed by `state`.
pub fn create_map(entries: &[Entry], state: &HashState) -> (r: String)
    requires
        forall|s: int| 0 <= s < state.map@.len() && (#[trigger] state.map@[s]) is Some ==> state.map@[s]->0 < entries@.len(),
    ensures
        r@ == map_source(entries@, *state),
{
    let mut out = String::new();
    out.append("PhfMap { len: ");
    push_decimal(&mut out, entries.len() as u128);
    out.append(", k1: ");
    push_decimal(&mut out, state.k1 as u128);
    out.append(", k2: ");
    push_decimal(&mut out, state.k2 as u128);
    out.append(", disps: &'static [");
    let ghost mid = out@;
    let ghost ditems = disp_items(state.disps@);
    let mut i: usize = 0;
    while i < state.disps.len()
        invariant
            i <= state.disps@.len(),
            ditems == disp_items(state.disps@),
            ditems.len() == state.disps@.len(),
            out@ == mid + joined(ditems.take(i as int)),
        decreases state.disps@.len() - i,
    {
        if i > 0 {
            out.append(", ");
        }
        let (d1, d2) = state.disps[i];
        out.append("(");
        push_decimal(&mut out, d1 as u128);
        out.append(", ");
        push_decimal(&mut out, d2 as u128);
        out.append(")");
        proof {
            let t = ditems.take(i + 1);
            assert(t.drop_last() =~= ditems.take(i as int));
            assert(t.last() == ditems[i as int]);
            if i == 0 {
                assert(t.len() == 1);
            }
            assert(out@ =~= mid + joined(t));
        }
        i = i + 1;
    }
    proof {
        assert(ditems.take(i as int) =~= ditems);
    }
    out.append("], entries: &'static [");
    let ghost mid2 = out@;
    let ghost sitems = state.map@.map_values(|slot: Option<usize>| slot_item(entries@, slot));
    let mut s: usize = 0;
    while s < state.map.len()
        invariant
            s <= state.map@.len(),
            sitems == state.map@.map_values(|slot: Option<usize>| slot_item(entries@, slot)),
            sitems.len() == state.map@.len(),
            forall|t: int| 0 <= t < state.map@.len() && (#[trigger] state.map@[t]) is Some ==> state.map@[t]->0 < entries@.len(),
            out@ == mid2 + joined(sitems.take(s as int)),
        decreases state.map@.len() - s,
    {
        if s > 0 {
            out.append(", ");
        }
        match state.map[s] {
            Some(idx) => {
                out.append("Some((");
                out.append(entries[idx].key.as_str());
                out.append(", ");
                out.append(entries[idx].value.as_str());
                out.append("))");
            },
            None => {
                out.append("None");
            },
        }
        proof {
            let t = sitems.take(s + 1);
            assert(t.drop_last() =~= sitems.take(s as int));
            assert(t.last() == sitems[s as int]);
            if s == 0 {
                assert(t.len() == 1);
            }
            assert(out@ =~= mid2 + joined(t));
        }
        s = s + 1;
    }
    proof {
        assert(sitems.take(s as int) =~= sitems);
    }
    out.append("], }");
    proof {
        assert(out@ =~= map_source(entries@, *state));
    }
    out
}

/// Two entries of `entries` have the same key.
pub open spec fn has_duplicate_keys(entries: Seq<Entry>) -> bool {
    exists|i: int, j: int| 0 <= i < j < entries.len() && #[trigger] entries[i].key_str@ == #[trigger] entries[j].key_str@
}

/// Why the map macro refuses its input.
pub enum ExpandError {
    /// Two entries have the same key.
    DuplicateKey,
    /// No random keys tried gave a table.
    Unsolvable,
    /// More than `MAX_SIZE` entries.
    TooManyEntries,
}

/// Keys that do not come before each other are equal.
proof fn lemma_key_le_antisymmetric(x: Entry, y: Entry)
    requires
        key_le(x, y),
        key_le(y, x),
    ensures
        x.key_str@ == y.key_str@,
{
    let a = key_bytes(x.key_str@);
    let b = key_bytes(y.key_str@);
    lemma_lex_total(a, b);
    vstd::utf8::encode_utf8_decode_utf8(x.key_str@);
    vstd::utf8::encode_utf8_decode_utf8(y.key_str@);
}

/// Sorted entries have two neighbours with the same key exactly when some
/// two entries have the same key.
proof fn lemma_sorted_duplicates(entries: Seq<Entry>, sorted: Seq<Entry>, p: Seq<int>)
    requires
        perm_of(p, entries.len()),
        sorted.len() == entries.len(),
        forall|j: int| 0 <= j < sorted.len() ==> #[trigger] sorted[j] == entries[p[j]],
        keys_nondecreasing(sorted),
    ensures
        (exists|j: int| 0 <= j && j + 1 < sorted.len() && #[trigger] sorted[j].key_str@ == sorted[j + 1].key_str@)
            == has_duplicate_keys(entries),
{
    let n = entries.len();
    if exists|j: int| 0 <= j && j + 1 < sorted.len() && #[trigger] sorted[j].key_str@ == sorted[j + 1].key_str@ {
        let j = choose|j: int| 0 <= j && j + 1 < sorted.len() && #[trigger] sorted[j].key_str@ == sorted[j + 1].key_str@;
        let (a, b) = if p[j] < p[j + 1] { (p[j], p[j + 1]) } else { (p[j + 1], p[j]) };
        assert(entries[a].key_str@ == entries[b].key_str@);
        assert(has_duplicate_keys(entries));
    }
    if has_duplicate_keys(entries) {
        let (i, k) = choose|i: int, k: int| 0 <= i < k < entries.len() && #[trigger] entries[i].key_str@ == #[trigger] entries[k].key_str@;
        let o = Seq::new(n, |t: int| p[t]);
        assert(o =~= p);
        crate::generator::lemma_distinct_covers(p, n);
        assert(crate::generator::takes(p, i));
        assert(crate::generator::takes(p, k));
        let a0 = choose|t: int| 0 <= t < p.len() && p[t] == i;
        let b0 = choose|t: int| 0 <= t < p.len() && p[t] == k;
        let (a, b) = if a0 < b0 { (a0, b0) } else { (b0, a0) };
        assert(a != b);
        assert(sorted[a].key_str@ == sorted[b].key_str@);
        // every key between equals them; in particular the one right after `a`
        assert(key_le(sorted[a], sorted[a + 1]));
        if a + 1 < b {
            assert(key_le(sorted[a + 1], sorted[b]));
            assert(key_bytes(sorted[b].key_str@) == key_bytes(sorted[a].key_str@));
            assert(key_le(sorted[a + 1], sorted[a]));
        } else {
            assert(a + 1 == b);
            assert(key_le(sorted[a + 1], sorted[a]));
        }
        lemma_key_le_antisymmetric(sorted[a], sorted[a + 1]);
        assert(sorted[a].key_str@ == sorted[a + 1].key_str@);
    }
}

/// Expands the map macro: sorts the entries by key, refuses duplicate keys,
/// draws random SipHash keys until a table is found, and writes the map's
/// source.
pub fn expand_mphf_map(entries: Vec<Entry>) -> (r: Result<String, ExpandError>)
    requires
        hashable(entries@),
    ensures
        (r matches Err(ExpandError::TooManyEntries)) <==> entries@.len() > MAX_SIZE,
        (r matches Err(ExpandError::DuplicateKey)) <==> entries@.len() <= MAX_SIZE && has_duplicate_keys(entries@),
        r matches Ok(text) ==> exists|sorted: Seq<Entry>, state: HashState|
            #![trigger rearranged(entries@, sorted), map_source(sorted, state)]
            rearranged(entries@, sorted) && keys_nondecreasing(sorted) && table_solved(
                entry_words(sorted, state.k1, state.k2),
                state.disps@,
                state.map@,
            ) && text@ == map_source(sorted, state),
        entries@.len() == 0 ==> r is Ok,
        (r matches Err(ExpandError::Unsolvable)) ==> !has_duplicate_keys(entries@) && exists|sorted: Seq<Entry>, k1: u64, k2: u64|
            #![trigger rearranged(entries@, sorted), entry_words(sorted, k1, k2)]
            rearranged(entries@, sorted) && keys_nondecreasing(sorted) && exists|
                c: int,
                disps: Seq<Option<(usize, usize)>>,
                map: Seq<Option<usize>>,
            | #[trigger] stuck(entry_words(sorted, k1, k2), spec_buckets_len(entries@.len()), c, disps, map),
{
    if entries.len() > MAX_SIZE {
        return Err(ExpandError::TooManyEntries);
    }
    let ghost orig = entries@;
    let order = sorted_order(&entries);
    let sorted = take_in_order(entries, &order);
    let ghost p = Seq::new(orig.len(), |j: int| order@[j] as int);
    proof {
        assert(perm_of(p, orig.len()));
        assert forall|j: int| 0 <= j < sorted@.len() implies #[trigger] sorted@[j] == orig[p[j]] by {}
        assert(rearranged(orig, sorted@));
        assert forall|a: int, b: int| 0 <= a < b < sorted@.len() implies key_le(#[trigger] sorted@[a], #[trigger] sorted@[b]) by {
            assert(key_le(orig[order@[a] as int], orig[order@[b] as int]));
        }
        lemma_sorted_duplicates(orig, sorted@, p);
        assert forall|i: int| 0 <= i < sorted@.len() implies (#[trigger] <str as PhfHash>::phf_bytes(
            sorted@[i].key_str@,
        )).len() <= usize::MAX by {
            assert(<str as PhfHash>::phf_bytes(orig[p[i]].key_str@).len() <= usize::MAX);
        }
    }
    if check_for_duplicates(sorted.as_slice()) {
        return Err(ExpandError::DuplicateKey);
    }
    let mut tried: u64 = 0;
    proof {
        assert(!has_duplicate_keys(orig));
    }
    while tried < u64::MAX
        invariant
            sorted@.len() <= MAX_SIZE,
            sorted@.len() == orig.len(),
            hashable(sorted@),
            orig == entries@,
            rearranged(orig, sorted@),
            keys_nondecreasing(sorted@),
            !has_duplicate_keys(orig),
            orig.len() == 0 ==> tried == 0,
            tried > 0 ==> exists|k1: u64, k2: u64, c: int, disps: Seq<Option<(usize, usize)>>, map: Seq<Option<usize>>|
                #[trigger] stuck(entry_words(sorted@, k1, k2), spec_buckets_len(orig.len()), c, disps, map),
        decreases u64::MAX - tried,
    {
        match generate_hash(sorted.as_slice()) {
            Some(state) => {
                proof {
                    assert forall|s: int| 0 <= s < state.map@.len() && (#[trigger] state.map@[s]) is Some implies state.map@[s]->0
                        < sorted@.len() by {
                        let ws = entry_words(sorted@, state.k1, state.k2);
                        lemma_table_slots(ws, state.disps@, state.map@, s);
                    }
                }
                let text = create_map(sorted.as_slice(), &state);
                return Ok(text);
            },
            None => {},
        }
        tried = tried + 1;
    }
    proof {
        let (k1, k2, c, disps, map) = choose|k1: u64, k2: u64, c: int, disps: Seq<Option<(usize, usize)>>, map: Seq<Option<usize>>|
            #[trigger] stuck(entry_words(sorted@, k1, k2), spec_buckets_len(orig.len()), c, disps, map);
        assert(stuck(entry_words(sorted@, k1, k2), spec_buckets_len(orig.len()), c, disps, map));
        assert(rearranged(orig, sorted@));
    }
    Err(ExpandError::Unsolvable)
}

/// In a solved table, a slot that holds something holds the index of a key.
proof fn lemma_table_slots(
    ws: Seq<(int, int, int)>,
    disps: Seq<(usize, usize)>,
    map: Seq<Option<usize>>,
    s: int,
)
    requires
        table_solved(ws, disps, map),
        ws.len() <= usize::MAX,
        0 <= s < map.len(),
        map[s] is Some,
    ensures
        map[s]->0 < ws.len(),
{
    // `n` keys fill `n` slots, one each: the key in slot `s` is one of them.
    let n = ws.len();
    let o = Seq::new(n, |i: int| displaced(ws, disps, i));
    assert forall|i: int| 0 <= i < n implies 0 <= #[trigger] o[i] < n by {
        assert(o[i] == displaced(ws, disps, i));
        lemma_displaced_bound(ws, disps, i);
    }
    assert forall|i: int, j: int| 0 <= i < n && 0 <= j < n && i != j implies o[i] != o[j] by {
        assert(map[displaced(ws, disps, i)] == Some(i as usize));
        assert(map[displaced(ws, disps, j)] == Some(j as usize));
    }
    crate::generator::lemma_distinct_covers(o, n);
    assert(crate::generator::takes(o, s));
    let i = choose|i: int| 0 <= i < o.len() && o[i] == s;
    assert(map[displaced(ws, disps, i)] == Some(i as usize));
}

/// In a solved table each slot holds a key, and each key sits in one slot
/// only: the one its bucket's displacements give it.
pub proof fn law_each_key_once(ws: Seq<(int, int, int)>, disps: Seq<(usize, usize)>, map: Seq<Option<usize>>)
    requires
        table_solved(ws, disps, map),
        ws.len() <= usize::MAX,
    ensures
        forall|s: int| 0 <= s < map.len() ==> (#[trigger] map[s]) is Some,
        forall|s: int, i: int|
            #![trigger map[s], displaced(ws, disps, i)]
            0 <= s < map.len() && 0 <= i < ws.len() && map[s] == Some(i as usize) ==> s == displaced(
                ws,
                disps,
                i,
            ),
{
    let n = ws.len();
    let o = Seq::new(n, |i: int| displaced(ws, disps, i));
    assert forall|i: int| 0 <= i < n implies 0 <= #[trigger] o[i] < n by {
        lemma_displaced_bound(ws, disps, i);
    }
    assert forall|i: int, j: int| 0 <= i < n && 0 <= j < n && i != j implies o[i] != o[j] by {
        assert(map[displaced(ws, disps, i)] == Some(i as usize));
        assert(map[displaced(ws, disps, j)] == Some(j as usize));
    }
    crate::generator::lemma_distinct_covers(o, n);
    assert forall|s: int| 0 <= s < map.len() implies (#[trigger] map[s]) is Some by {
        assert(crate::generator::takes(o, s));
        let i = choose|i: int| 0 <= i < o.len() && o[i] == s;
        assert(map[displaced(ws, disps, i)] == Some(i as usize));
    }
    assert forall|s: int, i: int|
        #![trigger map[s], displaced(ws, disps, i)]
        0 <= s < map.len() && 0 <= i < ws.len() && map[s] == Some(i as usize) implies s == displaced(
            ws,
            disps,
            i,
        ) by {
        assert(crate::generator::takes(o, s));
        let j = choose|j: int| 0 <= j < o.len() && o[j] == s;
        assert(map[displaced(ws, disps, j)] == Some(j as usize));
    }
}

proof fn lemma_displaced_bound(ws: Seq<(int, int, int)>, disps: Seq<(usize, usize)>, i: int)
    requires
        0 <= i < ws.len(),
    ensures
        0 <= displaced(ws, disps, i) < ws.len(),
{
    let d = disps[ws[i].0 % (disps.len() as int)];
    vstd::arithmetic::div_mod::lemma_mod_pos_bound(
        spec_displace_usize(ws[i].1 as usize, ws[i].2 as usize, d.0, d.1),
        ws.len() as int,
    );
}

} // verus!
