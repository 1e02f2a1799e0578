//! The macros' table over keys hashed into three words with SipHash 2-4:
//! a xorshift generator with a fixed seed draws the hash key, and a
//! displacement pair per bucket sends every key to its own slot.
use vstd::prelude::*;
use vstd::string::StringExecFns;
use rand_xorshift::XorShiftRng;
use crate::generator::HashState;
use crate::macros::{disp_items, joined, IntSuffix, KeyValue};
use crate::shared::{decimal, push_decimal, spec_displace, PhfHash as KeyBytes};
use crate::sip24::shared::{displace, spec_split, PhfHash};
use crate::sip24::sip24_64;
use crate::sorted_map::compare_bytes;

verus! {

/// The average number of keys per bucket.
pub const DEFAULT_LAMBDA: usize = 5;

/// The seed of the generator that draws hash keys.
pub const FIXED_SEED: [u32; 4] = [3141592653, 589793238, 462643383, 2795028841];

/// A key as the macros read it.
pub enum Key {
    Str(String),
    Binary(Vec<u8>),
    Char(char),
    U8(u8),
    I8(i8),
    U16(u16),
    I16(i16),
    U32(u32),
    I32(i32),
    U64(u64),
    I64(i64),
    Bool(bool),
}

impl View for Key {
    type V = KeyValue;

    open spec fn view(&self) -> KeyValue {
        match self {
            Key::Str(s) => KeyValue::Str(s@),
            Key::Binary(b) => KeyValue::Binary(b@),
            Key::Char(c) => KeyValue::Char(*c),
            Key::U8(x) => KeyValue::U8(*x),
            Key::I8(x) => KeyValue::I8(*x),
            Key::U16(x) => KeyValue::U16(*x),
            Key::I16(x) => KeyValue::I16(*x),
            Key::U32(x) => KeyValue::U32(*x),
            Key::I32(x) => KeyValue::I32(*x),
            Key::U64(x) => KeyValue::U64(*x),
            Key::I64(x) => KeyValue::I64(*x),
            Key::Bool(x) => KeyValue::Bool(*x),
        }
    }
}

/// Each key is read as its own type's key would be.
impl PhfHash for Key {
    open spec fn sip_bytes(&self) -> Seq<u8> {
        match self {
            Key::Str(s) => vstd::utf8::encode_utf8(s@).push(0xffu8),
            Key::Binary(b) => b@,
            Key::Char(c) => <char as KeyBytes>::phf_bytes(*c),
            Key::U8(x) => <u8 as KeyBytes>::phf_bytes(*x),
            Key::I8(x) => <i8 as KeyBytes>::phf_bytes(*x),
            Key::U16(x) => <u16 as KeyBytes>::phf_bytes(*x),
            Key::I16(x) => <i16 as KeyBytes>::phf_bytes(*x),
            Key::U32(x) => <u32 as KeyBytes>::phf_bytes(*x),
            Key::I32(x) => <i32 as KeyBytes>::phf_bytes(*x),
            Key::U64(x) => <u64 as KeyBytes>::phf_bytes(*x),
            Key::I64(x) => <i64 as KeyBytes>::phf_bytes(*x),
            Key::Bool(x) => <bool as KeyBytes>::phf_bytes(*x),
        }
    }

    fn phf_hash(&self, seed: u64) -> (r: (u32, u32, u32)) {
        match self {
            Key::Str(s) => <&str as PhfHash>::phf_hash(&s.as_str(), seed),
            Key::Binary(b) => <&[u8] as PhfHash>::phf_hash(&b.as_slice(), seed),
            Key::Char(c) => <char as PhfHash>::phf_hash(c, seed),
            Key::U8(b) => <u8 as PhfHash>::phf_hash(b, seed),
            Key::I8(b) => <i8 as PhfHash>::phf_hash(b, seed),
            Key::U16(b) => <u16 as PhfHash>::phf_hash(b, seed),
            Key::I16(b) => <i16 as PhfHash>::phf_hash(b, seed),
            Key::U32(b) => <u32 as PhfHash>::phf_hash(b, seed),
            Key::I32(b) => <i32 as PhfHash>::phf_hash(b, seed),
            Key::U64(b) => <u64 as PhfHash>::phf_hash(b, seed),
            Key::I64(b) => <i64 as PhfHash>::phf_hash(b, seed),
            Key::Bool(b) => <bool as PhfHash>::phf_hash(b, seed),
        }
    }
}

/// The key an integer literal with the digits' value `value` and the
/// suffix `suffix` stands for, negated when it stands under a `-`: the value
/// is cut to the suffix's width, and a signed one is negated, wrapping.
/// Only the 8- to 64-bit suffixes are keys, and only signed ones negate.
pub open spec fn int_literal(value: u64, suffix: IntSuffix, negative: bool) -> Option<KeyValue> {
    match suffix {
        IntSuffix::I8 => Some(KeyValue::I8(if negative { 0i8.wrapping_sub(value as i8) } else { value as i8 })),
        IntSuffix::I16 => Some(KeyValue::I16(if negative { 0i16.wrapping_sub(value as i16) } else { value as i16 })),
        IntSuffix::I32 => Some(KeyValue::I32(if negative { 0i32.wrapping_sub(value as i32) } else { value as i32 })),
        IntSuffix::I64 => Some(KeyValue::I64(if negative { 0i64.wrapping_sub(value as i64) } else { value as i64 })),
        IntSuffix::U8 => if negative { None } else { Some(KeyValue::U8(value as u8)) },
        IntSuffix::U16 => if negative { None } else { Some(KeyValue::U16(value as u16)) },
        IntSuffix::U32 => if negative { None } else { Some(KeyValue::U32(value as u32)) },
        IntSuffix::U64 => if negative { None } else { Some(KeyValue::U64(value)) },
        _ => None,
    }
}

/// The key of an integer literal; `None` for a suffix that makes no key.
pub fn int_literal_key(value: u64, suffix: IntSuffix, negative: bool) -> (r: Option<Key>)
    ensures
        match r {
            Some(k) => int_literal(value, suffix, negative) == Some(k@),
            None => int_literal(value, suffix, negative) is None,
        },
{
    match suffix {
        IntSuffix::I8 => {
            let v = value as i8;
            Some(Key::I8(if negative { 0i8.wrapping_sub(v) } else { v }))
        },
        IntSuffix::I16 => {
            let v = value as i16;
            Some(Key::I16(if negative { 0i16.wrapping_sub(v) } else { v }))
        },
        IntSuffix::I32 => {
            let v = value as i32;
            Some(Key::I32(if negative { 0i32.wrapping_sub(v) } else { v }))
        },
        IntSuffix::I64 => {
            let v = value as i64;
            Some(Key::I64(if negative { 0i64.wrapping_sub(v) } else { v }))
        },
        IntSuffix::U8 => if negative { None } else { Some(Key::U8(value as u8)) },
        IntSuffix::U16 => if negative { None } else { Some(Key::U16(value as u16)) },
        IntSuffix::U32 => if negative { None } else { Some(Key::U32(value as u32)) },
        IntSuffix::U64 => if negative { None } else { Some(Key::U64(value)) },
        _ => None,
    }
}

/// Whether two keys are equal.
pub fn key_eq(a: &Key, b: &Key) -> (r: bool)
    ensures
        r == (a@ == b@),
{
    match (a, b) {
        (Key::Str(x), Key::Str(y)) => {
            proof {
                vstd::utf8::encode_utf8_decode_utf8(x@);
                vstd::utf8::encode_utf8_decode_utf8(y@);
            }
            let c = compare_bytes(x.as_str().as_bytes(), y.as_str().as_bytes());
            proof {
                if c == 0 {
                    assert(vstd::utf8::encode_utf8(x@) == vstd::utf8::encode_utf8(y@));
                }
            }
            c == 0
        },
        (Key::Binary(x), Key::Binary(y)) => compare_bytes(x.as_slice(), y.as_slice()) == 0,
        (Key::Char(x), Key::Char(y)) => *x == *y,
        (Key::U8(x), Key::U8(y)) => *x == *y,
        (Key::I8(x), Key::I8(y)) => *x == *y,
        (Key::U16(x), Key::U16(y)) => *x == *y,
        (Key::I16(x), Key::I16(y)) => *x == *y,
        (Key::U32(x), Key::U32(y)) => *x == *y,
        (Key::I32(x), Key::I32(y)) => *x == *y,
        (Key::U64(x), Key::U64(y)) => *x == *y,
        (Key::I64(x), Key::I64(y)) => *x == *y,
        (Key::Bool(x), Key::Bool(y)) => *x == *y,
        _ => false,
    }
}

/// One entry of a macro's input: its key, and the source text of the key
/// and of the value.
pub struct Entry {
    pub key_contents: Key,
    pub key: String,
    pub value: String,
}

/// Two entries have equal keys.
pub open spec fn has_duplicate_keys(entries: Seq<Entry>) -> bool {
    exists|i: int, j: int|
        0 <= i < j < entries.len() && #[trigger] entries[i].key_contents@ == #[trigger] entries[j].key_contents@
}

/// Whether two entries have equal keys.
pub fn has_duplicates(entries: &[Entry]) -> (dups: bool)
    ensures
        dups == has_duplicate_keys(entries@),
{
    let mut j: usize = 0;
    while j < entries.len()
        invariant
            j <= entries@.len(),
            forall|a: int, b: int|
                0 <= a < b < j ==> #[trigger] entries@[a].key_contents@ != #[trigger] entries@[b].key_contents@,
        decreases entries@.len() - j,
    {
        let mut i: usize = 0;
        while i < j
            invariant
                i <= j < entries@.len(),
                forall|a: int| 0 <= a < i ==> #[trigger] entries@[a].key_contents@ != entries@[j as int].key_contents@,
            decreases j - i,
        {
            if key_eq(&entries[i].key_contents, &entries[j].key_contents) {
                proof {
                    assert(entries@[i as int].key_contents@ == entries@[j as int].key_contents@);
                }
                return true;
            }
            i = i + 1;
        }
        j = j + 1;
    }
    false
}

/// The three words of each entry's key under the hash key `key`.
pub open spec fn entry_words(entries: Seq<Entry>, key: u64) -> Seq<(u32, u32, u32)> {
    Seq::new(entries.len(), |i: int| spec_split(sip24_64(0, key, entries[i].key_contents.sip_bytes())))
}

/// The bucket, of `bl`, of a key with the words `w`.
pub open spec fn bucket_of(w: (u32, u32, u32), bl: nat) -> int {
    (w.0 % (bl as u32)) as int
}

/// The slot, of `n`, that the displacements `d` give a key with the words `w`.
pub open spec fn slot_for(w: (u32, u32, u32), d: (u32, u32), n: nat) -> int {
    (spec_displace(w.1, w.2, d.0, d.1) % (n as u32)) as int
}

/// `ceil(n / 5)`: the number of buckets for `n` keys.
pub open spec fn spec_buckets_len(n: nat) -> nat {
    ((n + 4) / 5) as nat
}

/// Every key's slot holds that key's index, and every slot holds a key's
/// index.
pub open spec fn table_solved(ws: Seq<(u32, u32, u32)>, disps: Seq<(u32, u32)>, map: Seq<usize>) -> bool {
    &&& map.len() == ws.len()
    &&& disps.len() == spec_buckets_len(ws.len())
    &&& forall|i: int|
        0 <= i < ws.len() ==> map[#[trigger] slot_for(ws[i], disps[bucket_of(ws[i], disps.len())], ws.len())]
            == i
    &&& forall|s: int| 0 <= s < map.len() ==> #[trigger] map[s] < ws.len()
}

/// `s` lists each number below `m` once.
spec fn is_perm(s: Seq<usize>, m: nat) -> bool {
    &&& s.len() == m
    &&& forall|j: int| 0 <= j < m ==> #[trigger] s[j] < m
    &&& forall|j: int, k: int| 0 <= j < m && 0 <= k < m && j != k ==> s[j] != s[k]
}

/// The placement so far: a key whose bucket has displacements sits in its
/// slot, and a slot that holds a key holds it where its bucket's
/// displacements send it.
pub open spec fn solved_so_far(
    ws: Seq<(u32, u32, u32)>,
    bl: nat,
    disps: Seq<Option<(u32, u32)>>,
    map: Seq<Option<usize>>,
) -> bool {
    &&& map.len() == ws.len()
    &&& disps.len() == bl
    &&& forall|i: int|
        0 <= i < ws.len() && (#[trigger] disps[bucket_of(ws[i], bl)]) is Some ==> map[slot_for(
            ws[i],
            disps[bucket_of(ws[i], bl)]->0,
            ws.len(),
        )] == Some(i as usize)
    &&& forall|s: int|
        0 <= s < map.len() && (#[trigger] map[s]) is Some ==> {
            let i = map[s]->0 as int;
            &&& i < ws.len()
            &&& disps[bucket_of(ws[i], bl)] is Some
            &&& slot_for(ws[i], disps[bucket_of(ws[i], bl)]->0, ws.len()) == s
        }
}

/// The displacements `d` send the keys of bucket `c` to free slots of `map`,
/// no two to the same slot.
pub open spec fn bucket_fits(
    ws: Seq<(u32, u32, u32)>,
    bl: nat,
    c: int,
    d: (u32, u32),
    map: Seq<Option<usize>>,
) -> bool {
    &&& forall|i: int|
        #![trigger slot_for(ws[i], d, ws.len())]
        0 <= i < ws.len() && bucket_of(ws[i], bl) == c ==> map[slot_for(ws[i], d, ws.len())] is None
    &&& forall|i: int, j: int|
        0 <= i < ws.len() && 0 <= j < ws.len() && i != j && bucket_of(ws[i], bl) == c && bucket_of(ws[j], bl) == c
            ==> #[trigger] slot_for(ws[i], d, ws.len()) != #[trigger] slot_for(ws[j], d, ws.len())
}

/// The search is stuck: in a partial table `(disps, map)` that places the
/// buckets with displacements, the bucket `c` has none and no pair below
/// the number of keys fits it.
pub open spec fn stuck(ws: Seq<(u32, u32, u32)>, bl: nat, c: int, disps: Seq<Option<(u32, u32)>>, map: Seq<Option<usize>>) -> bool {
    &&& 0 <= c < bl
    &&& solved_so_far(ws, bl, disps, map)
    &&& disps[c] is None
    &&& forall|d1: u32, d2: u32| d1 < ws.len() && d2 < ws.len() ==> !#[trigger] bucket_fits(ws, bl, c, (d1, d2), map)
}

/// Displacements that fit a bucket fit the list of its keys.
proof fn lemma_bucket_fits_keys(
    ws: Seq<(u32, u32, u32)>,
    bl: nat,
    c: int,
    keys: Seq<usize>,
    d: (u32, u32),
    map: Seq<Option<usize>>,
)
    requires
        bucket_keys(ws, bl, c, keys),
        forall|j: int, k: int| 0 <= j < k < keys.len() ==> #[trigger] keys[j] < #[trigger] keys[k],
        bucket_fits(ws, bl, c, d, map),
    ensures
        disps_fit(ws, keys, d, map),
{
    assert forall|k: int| 0 <= k < keys.len() implies map[#[trigger] slot_for(ws[keys[k] as int], d, ws.len())] is None by {
        assert(keys[k] < ws.len() && bucket_of(ws[keys[k] as int], bl) == c);
    }
    assert forall|a: int, b: int|
        0 <= a < keys.len() && 0 <= b < keys.len() && a != b implies #[trigger] slot_for(ws[keys[a] as int], d, ws.len())
            != #[trigger] slot_for(ws[keys[b] as int], d, ws.len()) by {
        assert(keys[a] < ws.len() && bucket_of(ws[keys[a] as int], bl) == c);
        assert(keys[b] < ws.len() && bucket_of(ws[keys[b] as int], bl) == c);
        if a < b {
            assert(keys[a] < keys[b]);
        } else {
            assert(keys[b] < keys[a]);
        }
    }
}

/// `keys` lists exactly the keys of bucket `b`.
spec fn bucket_keys(ws: Seq<(u32, u32, u32)>, bl: nat, b: int, keys: Seq<usize>) -> bool {
    &&& forall|j: int|
        0 <= j < keys.len() ==> (#[trigger] keys[j]) < ws.len() && bucket_of(ws[keys[j] as int], bl) == b
    &&& forall|i: int| 0 <= i < ws.len() && bucket_of(ws[i], bl) == b ==> keys.contains(i as usize)
}

/// Where `x` stands in `o`.
spec fn pos_in(o: Seq<usize>, x: usize) -> int {
    choose|p: int| 0 <= p < o.len() && o[p] == x
}

/// In the order by number of keys, most first, bucket `x` comes before
/// bucket `y`: it has more keys, or as many and came first in `o0`.
spec fn sorts_before(lens: Seq<usize>, o0: Seq<usize>, x: usize, y: usize) -> bool {
    lens[x as int] > lens[y as int] || (lens[x as int] == lens[y as int] && pos_in(o0, x) < pos_in(o0, y))
}

proof fn lemma_pos_in(o: Seq<usize>, m: nat, p: int)
    requires
        is_perm(o, m),
        0 <= p < m,
    ensures
        pos_in(o, o[p]) == p,
{
    let q = pos_in(o, o[p]);
    assert(o[q] == o[p]);
}

/// Orders the buckets by their number of keys, most first, keeping the
/// order of buckets of the same size.
fn sort_descending(lens: &Vec<usize>, order: &mut Vec<usize>)
    requires
        is_perm(old(order)@, lens@.len()),
    ensures
        is_perm(final(order)@, lens@.len()),
        forall|j: int, k: int|
            0 <= j < k < lens@.len() ==> sorts_before(
                lens@,
                old(order)@,
                #[trigger] final(order)@[j],
                #[trigger] final(order)@[k],
            ),
{
    let ghost m = lens@.len();
    let ghost o0 = order@;
    let ghost ls = lens@;
    let mut i: usize = 1;
    while i < order.len()
        invariant
            m == lens@.len(),
            ls == lens@,
            o0 == old(order)@,
            is_perm(o0, m),
            is_perm(order@, m),
            1 <= i,
            m > 0 ==> i <= m,
            forall|p: int| i <= p < m ==> #[trigger] order@[p] == o0[p],
            forall|p: int| 0 <= p < i && p < m ==> pos_in(o0, #[trigger] order@[p]) < i,
            forall|a: int, b: int|
                0 <= a < b < i && b < m ==> sorts_before(ls, o0, #[trigger] order@[a], #[trigger] order@[b]),
        decreases order@.len() - i,
    {
        proof {
            lemma_pos_in(o0, m, i as int);
        }
        let mut j: usize = i;
        while j > 0 && lens[order[j - 1]] < lens[order[j]]
            invariant
                m == lens@.len(),
                ls == lens@,
                is_perm(o0, m),
                is_perm(order@, m),
                j <= i < m,
                order@[j as int] == o0[i as int],
                pos_in(o0, o0[i as int]) == i,
                forall|p: int| i < p < m ==> #[trigger] order@[p] == o0[p],
                forall|p: int| 0 <= p <= i && p != j ==> pos_in(o0, #[trigger] order@[p]) < i,
                forall|a: int, b: int|
                    0 <= a < b <= i && a != j && b != j ==> sorts_before(
                        ls,
                        o0,
                        #[trigger] order@[a],
                        #[trigger] order@[b],
                    ),
                forall|k: int| j < k <= i ==> sorts_before(ls, o0, order@[j as int], #[trigger] order@[k]),
            decreases j,
        {
            let ghost bo0 = order@;
            let x = order[j];
            let y = order[j - 1];
            order.set(j, y);
            order.set(j - 1, x);
            proof {
                assert(order@ =~= bo0.update(j as int, y).update(j - 1, x));
                assert forall|a: int, b: int| 0 <= a < m && 0 <= b < m && a != b implies order@[a]
                    != order@[b] by {
                    let a0 = if a == j { j - 1 } else if a == j - 1 { j as int } else { a };
                    let b0 = if b == j { j - 1 } else if b == j - 1 { j as int } else { b };
                    assert(order@[a] == bo0[a0]);
                    assert(order@[b] == bo0[b0]);
                }
                assert forall|p: int| 0 <= p <= i && p != j - 1 implies pos_in(o0, #[trigger] order@[p]) < i by {
                    if p == j {
                        assert(order@[p] == bo0[j - 1]);
                    } else {
                        assert(order@[p] == bo0[p]);
                    }
                }
                assert forall|a: int, b: int|
                    0 <= a < b <= i && a != j - 1 && b != j - 1 implies sorts_before(
                        ls,
                        o0,
                        #[trigger] order@[a],
                        #[trigger] order@[b],
                    ) by {
                    if a == j {
                        assert(sorts_before(ls, o0, bo0[j - 1], bo0[b]));
                    } else if b == j {
                        assert(sorts_before(ls, o0, bo0[a], bo0[j - 1]));
                    } else {
                        assert(sorts_before(ls, o0, bo0[a], bo0[b]));
                    }
                }
                assert forall|k: int| j - 1 < k <= i implies sorts_before(
                    ls,
                    o0,
                    order@[j - 1],
                    #[trigger] order@[k],
                ) by {
                    if k > j {
                        assert(sorts_before(ls, o0, bo0[j as int], bo0[k]));
                    }
                }
            }
            j = j - 1;
        }
        proof {
            if j > 0 {
                assert(pos_in(o0, order@[j - 1]) < i);
                assert(sorts_before(ls, o0, order@[j - 1], order@[j as int]));
            }
            assert forall|a: int, b: int|
                0 <= a < b < i + 1 && b < m implies sorts_before(
                    ls,
                    o0,
                    #[trigger] order@[a],
                    #[trigger] order@[b],
                ) by {
                if b == j && a < j - 1 {
                    assert(sorts_before(ls, o0, order@[a], order@[j - 1]));
                }
            }
            assert forall|p: int| 0 <= p < i + 1 && p < m implies pos_in(o0, #[trigger] order@[p]) < i + 1 by {
                if p != j {
                    assert(pos_in(o0, order@[p]) < i);
                }
            }
        }
        i = i + 1;
    }
}

/// The displacements `d` send the keys `keys` to free slots of `map`, no two
/// to the same slot.
spec fn disps_fit(ws: Seq<(u32, u32, u32)>, keys: Seq<usize>, d: (u32, u32), map: Seq<Option<usize>>) -> bool {
    &&& forall|k: int| 0 <= k < keys.len() ==> map[#[trigger] slot_for(ws[keys[k] as int], d, ws.len())] is None
    &&& forall|a: int, b: int|
        0 <= a < keys.len() && 0 <= b < keys.len() && a != b ==> #[trigger] slot_for(ws[keys[a] as int], d, ws.len())
            != #[trigger] slot_for(ws[keys[b] as int], d, ws.len())
}

/// Tries the displacements `(d1, d2)` on the keys `keys`: succeeds exactly
/// when their slots are free and pairwise different, listing each slot with
/// its key in `values_to_add`.
fn try_disps(
    words: &Vec<(u32, u32, u32)>,
    keys: &Vec<usize>,
    d1: u32,
    d2: u32,
    map: &Vec<Option<usize>>,
    values_to_add: &mut Vec<(usize, usize)>,
) -> (ok: bool)
    requires
        0 < words@.len() <= u32::MAX,
        map@.len() == words@.len(),
        forall|p: int| 0 <= p < keys@.len() ==> #[trigger] keys@[p] < words@.len(),
    ensures
        ok == disps_fit(words@, keys@, (d1, d2), map@),
        ok ==> {
            &&& final(values_to_add)@.len() == keys@.len()
            &&& forall|k: int|
                0 <= k < keys@.len() ==> #[trigger] final(values_to_add)@[k] == (
                    slot_for(words@[keys@[k] as int], (d1, d2), words@.len()) as usize,
                    keys@[k],
                )
            &&& forall|k: int| 0 <= k < keys@.len() ==> map@[(#[trigger] final(values_to_add)@[k]).0 as int] is None
            &&& forall|a: int, b: int|
                0 <= a < keys@.len() && 0 <= b < keys@.len() && a != b ==> (
                #[trigger] final(values_to_add)@[a]).0 != (#[trigger] final(values_to_add)@[b]).0
        },
{
    let table_len = words.len() as u32;
    values_to_add.clear();
    let mut k: usize = 0;
    while k < keys.len()
        invariant
            table_len == words@.len(),
            0 < words@.len() <= u32::MAX,
            map@.len() == words@.len(),
            k <= keys@.len(),
            forall|p: int| 0 <= p < keys@.len() ==> #[trigger] keys@[p] < words@.len(),
            values_to_add@.len() == k,
            forall|j: int|
                0 <= j < k ==> #[trigger] values_to_add@[j] == (
                    slot_for(words@[keys@[j] as int], (d1, d2), words@.len()) as usize,
                    keys@[j],
                ),
            forall|j: int| 0 <= j < k ==> map@[(#[trigger] values_to_add@[j]).0 as int] is None,
            forall|a: int, b: int|
                0 <= a < k && 0 <= b < k && a != b ==> (#[trigger] values_to_add@[a]).0
                    != (#[trigger] values_to_add@[b]).0,
        decreases keys@.len() - k,
    {
        let key = keys[k];
        let w = words[key];
        let idx = (displace(w.1, w.2, d1, d2) % table_len) as usize;
        let mut seen = false;
        let mut q: usize = 0;
        while q < values_to_add.len()
            invariant
                q <= values_to_add@.len(),
                seen == exists|j: int| 0 <= j < q && (#[trigger] values_to_add@[j]).0 == idx,
            decreases values_to_add@.len() - q,
        {
            if values_to_add[q].0 == idx {
                seen = true;
            }
            q = q + 1;
        }
        proof {
            let x = spec_displace(w.1, w.2, d1, d2);
            assert(x % table_len < table_len);
            assert(idx as int == slot_for(words@[keys@[k as int] as int], (d1, d2), words@.len()));
        }
        if map[idx].is_some() || seen {
            proof {
                let ws = words@;
                let n = ws.len();
                if map@[idx as int] is Some {
                    assert(!(map@[slot_for(ws[keys@[k as int] as int], (d1, d2), n)] is None));
                } else {
                    let j = choose|j: int| 0 <= j < k && (#[trigger] values_to_add@[j]).0 == idx;
                    let xj = spec_displace(ws[keys@[j] as int].1, ws[keys@[j] as int].2, d1, d2);
                    assert(xj % table_len < table_len);
                    assert(slot_for(ws[keys@[j] as int], (d1, d2), n) == slot_for(ws[keys@[k as int] as int], (d1, d2), n));
                }
            }
            return false;
        }
        values_to_add.push((idx, key));
        k = k + 1;
    }
    proof {
        let ws = words@;
        let n = ws.len();
        assert forall|j: int| 0 <= j < keys@.len() implies slot_for(ws[keys@[j] as int], (d1, d2), n) == values_to_add@[j].0 as int by {
            let xj = spec_displace(ws[keys@[j] as int].1, ws[keys@[j] as int].2, d1, d2);
            assert(xj % table_len < table_len);
        }
        assert forall|a: int, b: int|
            0 <= a < keys@.len() && 0 <= b < keys@.len() && a != b implies #[trigger] slot_for(ws[keys@[a] as int], (d1, d2), n)
                != #[trigger] slot_for(ws[keys@[b] as int], (d1, d2), n) by {
            assert(values_to_add@[a].0 != values_to_add@[b].0);
        }
        assert forall|j: int| 0 <= j < keys@.len() implies map@[#[trigger] slot_for(ws[keys@[j] as int], (d1, d2), n)] is None by {
            assert(map@[values_to_add@[j].0 as int] is None);
        }
    }
    true
}

/// Records the displacements `(d1, d2)` of bucket `b` and puts its keys in
/// the slots `values_to_add` lists.
fn place(
    words: &Vec<(u32, u32, u32)>,
    keys: &Vec<usize>,
    b: usize,
    d1: u32,
    d2: u32,
    values_to_add: &Vec<(usize, usize)>,
    map: &mut Vec<Option<usize>>,
    disps: &mut Vec<Option<(u32, u32)>>,
    Ghost(bl): Ghost<nat>,
)
    requires
        0 < words@.len() <= u32::MAX,
        solved_so_far(words@, bl, old(disps)@, old(map)@),
        b < bl <= u32::MAX,
        old(disps)@[b as int] is None,
        bucket_keys(words@, bl, b as int, keys@),
        values_to_add@.len() == keys@.len(),
        forall|k: int|
            0 <= k < keys@.len() ==> #[trigger] values_to_add@[k] == (
                slot_for(words@[keys@[k] as int], (d1, d2), words@.len()) as usize,
                keys@[k],
            ),
        forall|k: int| 0 <= k < keys@.len() ==> old(map)@[(#[trigger] values_to_add@[k]).0 as int] is None,
        forall|a: int, c: int|
            0 <= a < keys@.len() && 0 <= c < keys@.len() && a != c ==> (#[trigger] values_to_add@[a]).0
                != (#[trigger] values_to_add@[c]).0,
    ensures
        final(disps)@ == old(disps)@.update(b as int, Some((d1, d2))),
        solved_so_far(words@, bl, final(disps)@, final(map)@),
{
    let ghost ws = words@;
    let ghost n = ws.len();
    let ghost m0 = map@;
    proof {
        assert forall|k: int| 0 <= k < keys@.len() implies slot_for(ws[keys@[k] as int], (d1, d2), n)
            == #[trigger] values_to_add@[k].0 as int && 0 <= values_to_add@[k].0 < n by {
            let i = keys@[k] as int;
            let x = spec_displace(ws[i].1, ws[i].2, d1, d2);
            assert(x % (n as u32) < n);
        }
    }
    disps.set(b, Some((d1, d2)));
    let mut w: usize = 0;
    while w < values_to_add.len()
        invariant
            n == ws.len(),
            m0.len() == n,
            map@.len() == n,
            w <= values_to_add@.len(),
            values_to_add@.len() == keys@.len(),
            forall|k: int| 0 <= k < keys@.len() ==> 0 <= (#[trigger] values_to_add@[k]).0 < n,
            forall|k: int| 0 <= k < w ==> map@[(#[trigger] values_to_add@[k]).0 as int] == Some(keys@[k]),
            forall|s: int|
                0 <= s < n && (forall|k: int| 0 <= k < w ==> (#[trigger] values_to_add@[k]).0 != s)
                    ==> #[trigger] map@[s] == m0[s],
            forall|k: int| 0 <= k < keys@.len() ==> (#[trigger] values_to_add@[k]).1 == keys@[k],
            forall|a: int, c: int|
                0 <= a < keys@.len() && 0 <= c < keys@.len() && a != c ==> (#[trigger] values_to_add@[a]).0
                    != (#[trigger] values_to_add@[c]).0,
        decreases values_to_add@.len() - w,
    {
        let (idx, key) = values_to_add[w];
        map.set(idx, Some(key));
        proof {
            assert forall|k: int| 0 <= k < w + 1 implies map@[(#[trigger] values_to_add@[k]).0 as int]
                == Some(keys@[k]) by {
                if k < w {
                    assert(values_to_add@[k].0 != values_to_add@[w as int].0);
                }
            }
            assert forall|s: int|
                0 <= s < n && (forall|k: int| 0 <= k < w + 1 ==> (#[trigger] values_to_add@[k]).0 != s)
                    implies #[trigger] map@[s] == m0[s] by {
                assert(values_to_add@[w as int].0 != s);
            }
        }
        w = w + 1;
    }
    proof {
        let nd = disps@;
        assert forall|i: int| 0 <= i < n implies 0 <= #[trigger] bucket_of(ws[i], bl) < bl by {}
        assert forall|s: int| 0 <= s < n implies (#[trigger] map@[s] == m0[s]) || (exists|k: int|
            0 <= k < keys@.len() && values_to_add@[k].0 == s && map@[s] == Some(keys@[k])
                && m0[s] is None) by {
            if exists|k: int| 0 <= k < keys@.len() && (#[trigger] values_to_add@[k]).0 == s {
                let k = choose|k: int| 0 <= k < keys@.len() && (#[trigger] values_to_add@[k]).0 == s;
                assert(map@[s] == Some(keys@[k]));
            }
        }
        assert forall|i: int|
            0 <= i < n && (#[trigger] nd[bucket_of(ws[i], bl)]) is Some implies map@[slot_for(
            ws[i],
            nd[bucket_of(ws[i], bl)]->0,
            n,
        )] == Some(i as usize) by {
            if bucket_of(ws[i], bl) == b {
                assert(keys@.contains(i as usize));
                let k = choose|k: int| 0 <= k < keys@.len() && keys@[k] == i as usize;
                assert(slot_for(ws[keys@[k] as int], (d1, d2), n) == values_to_add@[k].0 as int);
            } else {
                let s = slot_for(ws[i], nd[bucket_of(ws[i], bl)]->0, n);
                assert(m0[s] == Some(i as usize));
                if map@[s] != m0[s] {
                    let k = choose|k: int|
                        0 <= k < keys@.len() && values_to_add@[k].0 == s && map@[s] == Some(keys@[k])
                            && m0[s] is None;
                }
            }
        }
        assert forall|s: int| 0 <= s < n && (#[trigger] map@[s]) is Some implies {
            let i = map@[s]->0 as int;
            &&& i < n
            &&& nd[bucket_of(ws[i], bl)] is Some
            &&& slot_for(ws[i], nd[bucket_of(ws[i], bl)]->0, n) == s
        } by {
            if map@[s] != m0[s] {
                let k = choose|k: int|
                    0 <= k < keys@.len() && values_to_add@[k].0 == s && map@[s] == Some(keys@[k])
                        && m0[s] is None;
                assert(keys@[k] < n);
                assert(bucket_of(ws[keys@[k] as int], bl) == b);
            } else {
                let i = m0[s]->0 as int;
                assert(m0[s] is Some);
                if bucket_of(ws[i], bl) == b {
                    assert(false);
                }
            }
        }
    }
}

/// Lists each key in its bucket.
fn fill_buckets(words: &Vec<(u32, u32, u32)>, buckets_len: usize) -> (buckets: Vec<Vec<usize>>)
    requires
        0 < buckets_len <= u32::MAX,
    ensures
        buckets@.len() == buckets_len,
        forall|b: int| 0 <= b < buckets_len ==> bucket_keys(words@, buckets_len as nat, b, #[trigger] buckets@[b]@),
        forall|b: int, j: int, k: int|
            0 <= b < buckets_len && 0 <= j < k < buckets@[b]@.len() ==> #[trigger] buckets@[b]@[j] < #[trigger] buckets@[b]@[k],
{
    let ghost bl = buckets_len as nat;
    let ghost ws = words@;
    let mut buckets: Vec<Vec<usize>> = Vec::new();
    let mut b: usize = 0;
    while b < buckets_len
        invariant
            b <= buckets_len,
            buckets@.len() == b,
            forall|c: int| 0 <= c < b ==> (#[trigger] buckets@[c])@.len() == 0,
        decreases buckets_len - b,
    {
        buckets.push(Vec::new());
        b = b + 1;
    }
    let mut i: usize = 0;
    while i < words.len()
        invariant
            i <= words@.len(),
            ws == words@,
            0 < buckets_len <= u32::MAX,
            bl == buckets_len,
            buckets@.len() == buckets_len,
            forall|c: int, j: int|
                0 <= c < buckets_len && 0 <= j < buckets@[c]@.len() ==> (#[trigger] buckets@[c]@[j]) < i
                    && bucket_of(ws[buckets@[c]@[j] as int], bl) == c,
            forall|k: int| 0 <= k < i ==> (#[trigger] buckets@[bucket_of(ws[k], bl)])@.contains(k as usize),
            forall|c: int, j: int, k: int|
                0 <= c < buckets_len && 0 <= j < k < buckets@[c]@.len() ==> #[trigger] buckets@[c]@[j] < #[trigger] buckets@[c]@[k],
        decreases words@.len() - i,
    {
        let bucket = (words[i].0 % (buckets_len as u32)) as usize;
        let ghost before = buckets@;
        let mut entry: Vec<usize> = Vec::new();
        buckets.set_and_swap(bucket, &mut entry);
        entry.push(i);
        buckets.set_and_swap(bucket, &mut entry);
        proof {
            assert(buckets@ =~= before.update(bucket as int, buckets@[bucket as int]));
            assert forall|k: int| 0 <= k < i + 1 implies (#[trigger] buckets@[bucket_of(ws[k], bl)])@.contains(
                k as usize,
            ) by {
                let c = bucket_of(ws[k], bl);
                if k == i {
                    assert(buckets@[bucket as int]@.last() == i);
                } else if c == bucket {
                    let j = choose|j: int| 0 <= j < before[c]@.len() && before[c]@[j] == k as usize;
                    assert(buckets@[c]@[j] == k as usize);
                } else {
                    assert(buckets@[c] == before[c]);
                }
            }
        }
        i = i + 1;
    }
    buckets
}

/// The keys of `entries` can be hashed: each is read as at most
/// `usize::MAX` bytes.
pub open spec fn hashable(entries: Seq<Entry>) -> bool {
    forall|i: int| 0 <= i < entries.len() ==> (#[trigger] entries[i].key_contents.sip_bytes()).len() <= usize::MAX
}

/// Searches displacements for `entries` under the hash key `key`: the keys
/// go to `ceil(n / 5)` buckets by their first word; the buckets, largest
/// first, each take the first pair `(d1, d2)` below `n`, `d1` first, that
/// sends their keys to free slots that differ. `None` when a bucket finds
/// no such pair.
pub fn try_generate_hash(entries: &[Entry], key: u64) -> (r: Option<HashState>)
    requires
        entries@.len() <= u32::MAX,
        hashable(entries@),
    ensures
        r matches Some(st) ==> st.key == key && table_solved(entry_words(entries@, key), st.disps@, st.map@),
        entries@.len() == 0 ==> r is Some,
        r is None ==> exists|c: int, disps: Seq<Option<(u32, u32)>>, map: Seq<Option<usize>>|
            #[trigger] stuck(entry_words(entries@, key), spec_buckets_len(entries@.len()), c, disps, map),
{
    let ghost ws = entry_words(entries@, key);
    let n = entries.len();
    let mut words: Vec<(u32, u32, u32)> = Vec::new();
    let mut i: usize = 0;
    while i < n
        invariant
            n == entries@.len(),
            i <= n,
            hashable(entries@),
            ws == entry_words(entries@, key),
            words@ == ws.take(i as int),
        decreases n - i,
    {
        proof {
            assert(entries@[i as int].key_contents.sip_bytes().len() <= usize::MAX);
        }
        let w = <Key as PhfHash>::phf_hash(&entries[i].key_contents, key);
        words.push(w);
        i = i + 1;
        proof {
            assert(words@ =~= ws.take(i as int));
        }
    }
    proof {
        assert(words@ =~= ws);
    }
    let buckets_len = ((n as u64 + DEFAULT_LAMBDA as u64 - 1) / DEFAULT_LAMBDA as u64) as usize;
    let ghost bl = buckets_len as nat;
    if n == 0 {
        return Some(HashState { key, disps: Vec::new(), map: Vec::new() });
    }
    let buckets = fill_buckets(&words, buckets_len);
    let mut lens: Vec<usize> = Vec::new();
    let mut b: usize = 0;
    while b < buckets_len
        invariant
            b <= buckets_len,
            buckets@.len() == buckets_len,
            lens@.len() == b,
        decreases buckets_len - b,
    {
        lens.push(buckets[b].len());
        b = b + 1;
    }
    let mut order: Vec<usize> = Vec::new();
    let mut b: usize = 0;
    while b < buckets_len
        invariant
            b <= buckets_len,
            order@.len() == b,
            forall|j: int| 0 <= j < b ==> #[trigger] order@[j] == j,
        decreases buckets_len - b,
    {
        order.push(b);
        b = b + 1;
    }
    proof {
        assert forall|j: int, k: int| 0 <= j < bl && 0 <= k < bl && j != k implies order@[j] != order@[k] by {}
    }
    sort_descending(&lens, &mut order);
    let mut map: Vec<Option<usize>> = crate::generator::filled(None, n);
    let mut disps: Vec<Option<(u32, u32)>> = crate::generator::filled(None, buckets_len);
    let mut values_to_add: Vec<(usize, usize)> = Vec::new();
    let table_len = n as u32;
    proof {
        assert(solved_so_far(ws, bl, disps@, map@));
    }
    let mut t: usize = 0;
    while t < buckets_len
        invariant
            0 < n <= u32::MAX,
            table_len == n,
            n == ws.len(),
            words@ == ws,
            bl == buckets_len,
            0 < buckets_len <= u32::MAX,
            buckets@.len() == buckets_len,
            forall|c: int| 0 <= c < buckets_len ==> bucket_keys(ws, bl, c, #[trigger] buckets@[c]@),
            is_perm(order@, bl),
            t <= buckets_len,
            solved_so_far(ws, bl, disps@, map@),
            forall|u: int| 0 <= u < t ==> (#[trigger] disps@[order@[u] as int]) is Some,
            forall|u: int| t <= u < bl ==> (#[trigger] disps@[order@[u] as int]) is None,
            forall|c: int, j: int, k: int|
                0 <= c < buckets_len && 0 <= j < k < buckets@[c]@.len() ==> #[trigger] buckets@[c]@[j] < #[trigger] buckets@[c]@[k],
            bl == spec_buckets_len(n as nat),
            n == entries@.len(),
            ws == entry_words(entries@, key),
        decreases buckets_len - t,
    {
        let bucket = order[t];
        proof {
            assert(bucket_keys(ws, bl, bucket as int, buckets@[bucket as int]@));
            assert forall|p: int| 0 <= p < buckets@[bucket as int]@.len() implies #[trigger] buckets@[bucket as int]@[p]
                < words@.len() by {}
        }
        let ghost dz = disps@;
        let ghost mz = map@;
        let mut found = false;
        let mut d1: u32 = 0;
        while d1 < table_len && !found
            invariant
                0 < n <= u32::MAX,
                table_len == n,
                n == ws.len(),
                words@ == ws,
                bl == buckets_len,
                0 < buckets_len <= u32::MAX,
                bucket < bl,
                bucket_keys(ws, bl, bucket as int, buckets@[bucket as int]@),
                buckets@.len() == buckets_len,
                forall|p: int|
                    0 <= p < buckets@[bucket as int]@.len() ==> #[trigger] buckets@[bucket as int]@[p]
                        < words@.len(),
                solved_so_far(ws, bl, disps@, map@),
                dz.len() == bl,
                dz[bucket as int] is None,
                !found ==> disps@ == dz && map@ == mz,
                found ==> disps@[bucket as int] is Some && forall|c: int|
                    0 <= c < bl && c != bucket ==> #[trigger] disps@[c] == dz[c],
                !found ==> forall|e1: u32, e2: u32|
                    e1 < d1 && e2 < n ==> !#[trigger] disps_fit(ws, buckets@[bucket as int]@, (e1, e2), mz),
            decreases table_len - d1 + (if found { 0int } else { 1int }),
        {
            let mut d2: u32 = 0;
            while d2 < table_len && !found
                invariant
                    0 < n <= u32::MAX,
                    table_len == n,
                    n == ws.len(),
                    words@ == ws,
                    bl == buckets_len,
                    0 < buckets_len <= u32::MAX,
                    bucket < bl,
                    bucket_keys(ws, bl, bucket as int, buckets@[bucket as int]@),
                    buckets@.len() == buckets_len,
                    forall|p: int|
                        0 <= p < buckets@[bucket as int]@.len() ==> #[trigger] buckets@[bucket as int]@[p]
                            < words@.len(),
                    solved_so_far(ws, bl, disps@, map@),
                    dz.len() == bl,
                    dz[bucket as int] is None,
                    !found ==> disps@ == dz && map@ == mz,
                    found ==> disps@[bucket as int] is Some && forall|c: int|
                        0 <= c < bl && c != bucket ==> #[trigger] disps@[c] == dz[c],
                    d1 < n,
                    !found ==> forall|e1: u32, e2: u32|
                        e1 < d1 && e2 < n ==> !#[trigger] disps_fit(ws, buckets@[bucket as int]@, (e1, e2), mz),
                    !found ==> forall|e2: u32|
                        e2 < d2 ==> !#[trigger] disps_fit(ws, buckets@[bucket as int]@, (d1, e2), mz),
                decreases table_len - d2,
            {
                if try_disps(&words, &buckets[bucket], d1, d2, &map, &mut values_to_add) {
                    place(
                        &words,
                        &buckets[bucket],
                        bucket,
                        d1,
                        d2,
                        &values_to_add,
                        &mut map,
                        &mut disps,
                        Ghost(bl),
                    );
                    found = true;
                }
                d2 = d2 + 1;
            }
            proof {
                assert forall|e1: u32, e2: u32|
                    e1 < d1 + 1 && e2 < n && !found implies !#[trigger] disps_fit(
                        ws,
                        buckets@[bucket as int]@,
                        (e1, e2),
                        mz,
                    ) by {
                    if e1 == d1 {
                        assert(!disps_fit(ws, buckets@[bucket as int]@, (d1, e2), mz));
                    }
                }
            }
            d1 = d1 + 1;
        }
        if !found {
            proof {
                assert forall|e1: u32, e2: u32| e1 < ws.len() && e2 < ws.len() implies !#[trigger] bucket_fits(
                    ws,
                    bl,
                    bucket as int,
                    (e1, e2),
                    map@,
                ) by {
                    if bucket_fits(ws, bl, bucket as int, (e1, e2), map@) {
                        lemma_bucket_fits_keys(ws, bl, bucket as int, buckets@[bucket as int]@, (e1, e2), map@);
                    }
                }
                assert(stuck(ws, bl, bucket as int, disps@, map@));
            }
            return None;
        }
        proof {
            assert forall|u: int| 0 <= u < t + 1 implies (#[trigger] disps@[order@[u] as int]) is Some by {
                if u < t {
                    assert(order@[u] != order@[t as int]);
                }
            }
            assert forall|u: int| t + 1 <= u < bl implies (#[trigger] disps@[order@[u] as int]) is None by {
                assert(order@[u] != order@[t as int]);
            }
        }
        t = t + 1;
    }
    proof {
        let o = Seq::new(bl, |u: int| order@[u] as int);
        assert forall|i: int| 0 <= i < bl implies 0 <= #[trigger] o[i] < bl by {}
        assert forall|i: int, j: int| 0 <= i < bl && 0 <= j < bl && i != j implies o[i] != o[j] by {}
        crate::generator::lemma_distinct_covers(o, bl);
        assert forall|c: int| 0 <= c < bl implies (#[trigger] disps@[c]) is Some by {
            assert(crate::generator::takes(o, c));
            let u = choose|u: int| 0 <= u < o.len() && o[u] == c;
            assert(disps@[order@[u] as int] is Some);
        }
        lemma_all_slots_filled(ws, bl, disps@, map@);
    }
    let mut out: Vec<(u32, u32)> = Vec::new();
    let mut c: usize = 0;
    while c < buckets_len
        invariant
            c <= buckets_len,
            disps@.len() == buckets_len,
            forall|e: int| 0 <= e < buckets_len ==> (#[trigger] disps@[e]) is Some,
            out@.len() == c,
            forall|e: int| 0 <= e < c ==> #[trigger] out@[e] == disps@[e]->0,
        decreases buckets_len - c,
    {
        out.push(disps[c].unwrap());
        c = c + 1;
    }
    let mut slots: Vec<usize> = Vec::new();
    let mut s: usize = 0;
    while s < n
        invariant
            s <= n,
            map@.len() == n,
            forall|e: int| 0 <= e < n ==> (#[trigger] map@[e]) is Some,
            slots@.len() == s,
            forall|e: int| 0 <= e < s ==> Some(#[trigger] slots@[e]) == map@[e],
        decreases n - s,
    {
        slots.push(map[s].unwrap());
        s = s + 1;
    }
    proof {
        assert forall|i: int| 0 <= i < n implies slots@[#[trigger] slot_for(
            ws[i],
            out@[bucket_of(ws[i], out@.len())],
            n as nat,
        )] == i by {
            let bi = bucket_of(ws[i], bl);
            assert(out@[bi] == disps@[bi]->0);
            let x = slot_for(ws[i], out@[bi], n as nat);
            assert(x < n);
            assert(map@[x] == Some(i as usize));
        }
        assert forall|e: int| 0 <= e < n implies #[trigger] slots@[e] < n by {
            assert(map@[e] is Some);
        }
    }
    Some(HashState { key, disps: out, map: slots })
}

/// When every bucket has displacements, every slot holds a key: the `n`
/// keys sit in `n` different slots.
proof fn lemma_all_slots_filled(
    ws: Seq<(u32, u32, u32)>,
    bl: nat,
    disps: Seq<Option<(u32, u32)>>,
    map: Seq<Option<usize>>,
)
    requires
        0 < bl <= u32::MAX,
        ws.len() <= u32::MAX,
        solved_so_far(ws, bl, disps, map),
        forall|c: int| 0 <= c < bl ==> (#[trigger] disps[c]) is Some,
    ensures
        forall|s: int| 0 <= s < ws.len() ==> (#[trigger] map[s]) is Some,
{
    let n = ws.len();
    let o = Seq::new(n, |i: int| slot_for(ws[i], disps[bucket_of(ws[i], bl)]->0, n));
    assert forall|i: int| 0 <= i < n implies 0 <= #[trigger] o[i] < n by {
        assert(0 <= bucket_of(ws[i], bl) < bl);
        assert(map[o[i]] == Some(i as usize));
    }
    assert forall|i: int, j: int| 0 <= i < n && 0 <= j < n && i != j implies o[i] != o[j] by {
        assert(0 <= bucket_of(ws[i], bl) < bl);
        assert(0 <= bucket_of(ws[j], bl) < bl);
        assert(map[o[i]] == Some(i as usize));
        assert(map[o[j]] == Some(j as usize));
    }
    crate::generator::lemma_distinct_covers(o, n);
    assert forall|s: int| 0 <= s < n implies (#[trigger] map[s]) is Some by {
        assert(crate::generator::takes(o, s));
        let i = choose|i: int| 0 <= i < o.len() && o[i] == s;
        assert(0 <= bucket_of(ws[i], bl) < bl);
        assert(map[o[i]] == Some(i as usize));
    }
}

/// A xorshift state: four words, not all zero.
pub type XorShiftState = (u32, u32, u32, u32);

/// The number a xorshift generator in the state `st` gives next.
pub open spec fn xorshift_word(st: XorShiftState) -> u32 {
    let t = st.0 ^ (st.0 << 11u32);
    st.3 ^ (st.3 >> 19u32) ^ (t ^ (t >> 8u32))
}

/// The state after one step from `st`: the words move down and the new
/// number comes in last.
pub open spec fn xorshift_advance(st: XorShiftState) -> XorShiftState {
    (st.1, st.2, st.3, xorshift_word(st))
}

/// No word of `st` is set.
pub open spec fn xorshift_zero(st: XorShiftState) -> bool {
    st.0 == 0 && st.1 == 0 && st.2 == 0 && st.3 == 0
}

/// The state of the generator seeded with `FIXED_SEED` after `t` steps.
pub open spec fn xorshift_state(t: nat) -> XorShiftState
    decreases t,
{
    if t == 0 {
        (FIXED_SEED[0], FIXED_SEED[1], FIXED_SEED[2], FIXED_SEED[3])
    } else {
        xorshift_advance(xorshift_state((t - 1) as nat))
    }
}

/// The `t`th hash key drawn: the generator's numbers `2t` and `2t + 1`, the
/// first as the high half.
pub open spec fn drawn_key(t: nat) -> u64 {
    ((xorshift_word(xorshift_state(2 * t)) as u64) << 32u64) | (xorshift_word(xorshift_state(2 * t + 1)) as u64)
}

/// A step never clears every word.
proof fn lemma_xorshift_nonzero(st: XorShiftState)
    requires
        !xorshift_zero(st),
    ensures
        !xorshift_zero(xorshift_advance(st)),
{
    let x = st.0;
    let w = st.3;
    if st.1 == 0 && st.2 == 0 && w == 0 {
        assert(x != 0);
        assert(x != 0 && w == 0 ==> w ^ (w >> 19u32) ^ ((x ^ (x << 11u32)) ^ ((x ^ (x << 11u32)) >> 8u32)) != 0u32)
            by (bit_vector);
    }
}

/// One number of a xorshift generator in the state `st`: a generator made
/// by `rand_xorshift::XorShiftRng::from_seed` from the words of `st`,
/// little-endian, gives `rand_core::RngCore::next_u32`. By `rand_xorshift`'s
/// source, `from_seed` reads the seed's words little-endian (and replaces
/// only an all-zero seed, which `requires` rules out), and `next_u32` gives
/// the xorshift word that the contract states.
#[verifier::external_body]
fn xorshift_next(st: XorShiftState) -> (x: u32)
    requires
        !xorshift_zero(st),
    ensures
        x == xorshift_word(st),
{
    let mut seed = [0u8; 16];
    seed[0..4].copy_from_slice(&st.0.to_le_bytes());
    seed[4..8].copy_from_slice(&st.1.to_le_bytes());
    seed[8..12].copy_from_slice(&st.2.to_le_bytes());
    seed[12..16].copy_from_slice(&st.3.to_le_bytes());
    let mut rng = <XorShiftRng as rand_core::SeedableRng>::from_seed(seed);
    rand_core::RngCore::next_u32(&mut rng)
}

/// The entries' keys leave the search stuck under the hash key `key`.
pub open spec fn stuck_under_key(entries: Seq<Entry>, key: u64) -> bool {
    exists|c: int, disps: Seq<Option<(u32, u32)>>, map: Seq<Option<usize>>|
        #[trigger] stuck(entry_words(entries, key), spec_buckets_len(entries.len()), c, disps, map)
}

/// Searches a table for `entries`: hash keys are drawn from a xorshift
/// generator seeded with `FIXED_SEED` (each key its next two numbers, the
/// first as the high half) until one admits a table; `None` only once
/// `u64::MAX` keys have failed.
pub fn generate_hash(entries: &[Entry]) -> (r: Option<HashState>)
    requires
        entries@.len() <= u32::MAX,
        hashable(entries@),
    ensures
        r matches Some(st) ==> table_solved(entry_words(entries@, st.key), st.disps@, st.map@),
        r matches Some(st) ==> exists|t: nat|
            t < u64::MAX && st.key == #[trigger] drawn_key(t) && forall|u: nat|
                u < t ==> stuck_under_key(entries@, #[trigger] drawn_key(u)),
        entries@.len() == 0 ==> r is Some,
        r is None ==> forall|t: nat| t < u64::MAX ==> stuck_under_key(entries@, #[trigger] drawn_key(t)),
{
    let mut st: XorShiftState = (FIXED_SEED[0], FIXED_SEED[1], FIXED_SEED[2], FIXED_SEED[3]);
    let mut tried: u64 = 0;
    while tried < u64::MAX
        invariant
            entries@.len() <= u32::MAX,
            hashable(entries@),
            entries@.len() == 0 ==> tried == 0,
            st == xorshift_state(2 * tried as nat),
            !xorshift_zero(st),
            forall|u: nat| u < tried ==> stuck_under_key(entries@, #[trigger] drawn_key(u)),
        decreases u64::MAX - tried,
    {
        let hi = xorshift_next(st);
        proof {
            lemma_xorshift_nonzero(st);
        }
        st = (st.1, st.2, st.3, hi);
        let lo = xorshift_next(st);
        proof {
            lemma_xorshift_nonzero(st);
        }
        st = (st.1, st.2, st.3, lo);
        let key = ((hi as u64) << 32) | (lo as u64);
        proof {
            assert(xorshift_state((2 * tried + 1) as nat) == xorshift_advance(xorshift_state(2 * tried as nat)));
            assert(xorshift_state((2 * tried + 2) as nat) == xorshift_advance(xorshift_state((2 * tried + 1) as nat)));
            assert(key == drawn_key(tried as nat));
        }
        match try_generate_hash(entries, key) {
            Some(state) => {
                return Some(state);
            },
            None => {},
        }
        proof {
            assert forall|u: nat| u < tried + 1 implies stuck_under_key(entries@, #[trigger] drawn_key(u)) by {
                if u == tried {
                    assert(drawn_key(u) == drawn_key(tried as nat));
                }
            }
        }
        tried = tried + 1;
    }
    None
}

/// `(key, value)` for an entry.
pub open spec fn entry_item(e: Entry) -> Seq<char> {
    "("@ + e.key@ + ", "@ + e.value@ + ")"@
}

/// The source of a `phf::Map` holding `entries` as `state` places them.
pub open spec fn map_source(entries: Seq<Entry>, state: HashState) -> Seq<char> {
    "::phf::Map { key: "@ + decimal(state.key as nat) + "u64, disps: &["@ + joined(disp_items(state.disps@))
        + "], entries: &["@ + joined(state.map@.map_values(|i: usize| entry_item(entries[i as int])))
        + "], }"@
}

/// The source of a `phf::OrderedMap` holding `entries` in their order.
pub open spec fn ordered_map_source(entries: Seq<Entry>, state: HashState) -> Seq<char> {
    "::phf::OrderedMap { key: "@ + decimal(state.key as nat) + "u64, disps: &["@ + joined(
        disp_items(state.disps@),
    ) + "], idxs: &["@ + joined(state.map@.map_values(|i: usize| decimal(i as nat) + "usize"@))
        + "], entries: &["@ + joined(entries.map_values(|e: Entry| entry_item(e))) + "], }"@
}

fn push_disps(out: &mut String, disps: &Vec<(u32, u32)>)
    ensures
        final(out)@ == old(out)@ + joined(disp_items(disps@)),
{
    let ghost start = out@;
    let ghost items = disp_items(disps@);
    let mut i: usize = 0;
    while i < disps.len()
        invariant
            i <= disps@.len(),
            items == disp_items(disps@),
            items.len() == disps@.len(),
            out@ == start + joined(items.take(i as int)),
        decreases disps@.len() - i,
    {
        if i > 0 {
            out.append(", ");
        }
        let (d1, d2) = disps[i];
        out.append("(");
        push_decimal(out, d1 as u128);
        out.append("u32, ");
        push_decimal(out, d2 as u128);
        out.append("u32)");
        proof {
            let t = items.take(i + 1);
            assert(t.drop_last() =~= items.take(i as int));
            assert(t.last() == items[i as int]);
            if i == 0 {
                assert(t.len() == 1);
            }
            assert(out@ =~= start + joined(t));
        }
        i = i + 1;
    }
    proof {
        assert(items.take(i as int) =~= items);
    }
}

fn push_entry_item(out: &mut String, e: &Entry)
    ensures
        final(out)@ == old(out)@ + entry_item(*e),
{
    out.append("(");
    out.append(e.key.as_str());
    out.append(", ");
    out.append(e.value.as_str());
    out.append(")");
    proof {
        assert(final(out)@ =~= old(out)@ + entry_item(*e));
    }
}

/// Writes the source of the `phf::Map` holding `entries` as `state`
/// places them: the entries in the order of their slots.
pub fn create_map(entries: &[Entry], state: &HashState) -> (r: String)
    requires
        forall|s: int| 0 <= s < state.map@.len() ==> #[trigger] state.map@[s] < entries@.len(),
    ensures
        r@ == map_source(entries@, *state),
{
    let mut out = String::new();
    out.append("::phf::Map { key: ");
    push_decimal(&mut out, state.key as u128);
    out.append("u64, disps: &[");
    push_disps(&mut out, &state.disps);
    out.append("], entries: &[");
    let ghost mid = out@;
    let ghost items = state.map@.map_values(|i: usize| entry_item(entries@[i as int]));
    let mut s: usize = 0;
    while s < state.map.len()
        invariant
            s <= state.map@.len(),
            items == state.map@.map_values(|i: usize| entry_item(entries@[i as int])),
            items.len() == state.map@.len(),
            forall|t: int| 0 <= t < state.map@.len() ==> #[trigger] state.map@[t] < entries@.len(),
            out@ == mid + joined(items.take(s as int)),
        decreases state.map@.len() - s,
    {
        if s > 0 {
            out.append(", ");
        }
        push_entry_item(&mut out, &entries[state.map[s]]);
        proof {
            let t = items.take(s + 1);
            assert(t.drop_last() =~= items.take(s as int));
            assert(t.last() == items[s as int]);
            if s == 0 {
                assert(t.len() == 1);
            }
            assert(out@ =~= mid + joined(t));
        }
        s = s + 1;
    }
    proof {
        assert(items.take(s as int) =~= items);
    }
    out.append("], }");
    proof {
        assert(out@ =~= map_source(entries@, *state));
    }
    out
}

/// Writes the source of the `phf::Set` of `entries`: the map of them.
pub fn create_set(entries: &[Entry], state: &HashState) -> (r: String)
    requires
        forall|s: int| 0 <= s < state.map@.len() ==> #[trigger] state.map@[s] < entries@.len(),
    ensures
        r@ == "::phf::Set { map: "@ + map_source(entries@, *state) + " }"@,
{
    let map = create_map(entries, state);
    let mut out = String::new();
    out.append("::phf::Set { map: ");
    out.append(map.as_str());
    out.append(" }");
    out
}

/// Writes the source of the `phf::OrderedMap` of `entries`: the slot list,
/// and the entries in their order.
pub fn create_ordered_map(entries: &[Entry], state: &HashState) -> (r: String)
    ensures
        r@ == ordered_map_source(entries@, *state),
{
    let mut out = String::new();
    out.append("::phf::OrderedMap { key: ");
    push_decimal(&mut out, state.key as u128);
    out.append("u64, disps: &[");
    push_disps(&mut out, &state.disps);
    out.append("], idxs: &[");
    let ghost mid = out@;
    let ghost items = state.map@.map_values(|i: usize| decimal(i as nat) + "usize"@);
    let mut s: usize = 0;
    while s < state.map.len()
        invariant
            s <= state.map@.len(),
            items == state.map@.map_values(|i: usize| decimal(i as nat) + "usize"@),
            out@ == mid + joined(items.take(s as int)),
        decreases state.map@.len() - s,
    {
        if s > 0 {
            out.append(", ");
        }
        push_decimal(&mut out, state.map[s] as u128);
        out.append("usize");
        proof {
            let t = items.take(s + 1);
            assert(t.drop_last() =~= items.take(s as int));
            assert(t.last() == items[s as int]);
            if s == 0 {
                assert(t.len() == 1);
            }
            assert(out@ =~= mid + joined(t));
        }
        s = s + 1;
    }
    proof {
        assert(items.take(s as int) =~= items);
    }
    out.append("], entries: &[");
    let ghost mid2 = out@;
    let ghost eitems = entries@.map_values(|e: Entry| entry_item(e));
    let mut i: usize = 0;
    while i < entries.len()
        invariant
            i <= entries@.len(),
            eitems == entries@.map_values(|e: Entry| entry_item(e)),
            out@ == mid2 + joined(eitems.take(i as int)),
        decreases entries@.len() - i,
    {
        if i > 0 {
            out.append(", ");
        }
        push_entry_item(&mut out, &entries[i]);
        proof {
            let t = eitems.take(i + 1);
            assert(t.drop_last() =~= eitems.take(i as int));
            assert(t.last() == eitems[i as int]);
            if i == 0 {
                assert(t.len() == 1);
            }
            assert(out@ =~= mid2 + joined(t));
        }
        i = i + 1;
    }
    proof {
        assert(eitems.take(i as int) =~= eitems);
    }
    out.append("], }");
    proof {
        assert(out@ =~= ordered_map_source(entries@, *state));
    }
    out
}

/// Writes the source of the `phf::OrderedSet` of `entries`: the ordered
/// map of them.
pub fn create_ordered_set(entries: &[Entry], state: &HashState) -> (r: String)
    ensures
        r@ == "::phf::OrderedSet { map: "@ + ordered_map_source(entries@, *state) + " }"@,
{
    let map = create_ordered_map(entries, state);
    let mut out = String::new();
    out.append("::phf::OrderedSet { map: ");
    out.append(map.as_str());
    out.append(" }");
    out
}

/// A solved table is a bijection: different keys have different slots,
/// and each slot holds a key whose slot it is.
pub proof fn law_table_is_bijection(ws: Seq<(u32, u32, u32)>, disps: Seq<(u32, u32)>, map: Seq<usize>)
    requires
        table_solved(ws, disps, map),
        ws.len() <= u32::MAX,
    ensures
        forall|i: int, j: int|
            0 <= i < ws.len() && 0 <= j < ws.len() && i != j ==> slot_for(
                #[trigger] ws[i],
                disps[bucket_of(ws[i], disps.len())],
                ws.len(),
            ) != slot_for(#[trigger] ws[j], disps[bucket_of(ws[j], disps.len())], ws.len()),
        forall|s: int|
            0 <= s < map.len() ==> slot_for(
                ws[#[trigger] map[s] as int],
                disps[bucket_of(ws[map[s] as int], disps.len())],
                ws.len(),
            ) == s,
{
    let n = ws.len();
    let o = Seq::new(n, |i: int| slot_for(ws[i], disps[bucket_of(ws[i], disps.len())], n));
    assert forall|i: int, j: int| 0 <= i < n && 0 <= j < n && i != j implies o[i] != o[j] by {
        assert(map[o[i]] == i);
        assert(map[o[j]] == j);
    }
    assert forall|i: int| 0 <= i < n implies 0 <= #[trigger] o[i] < n by {
        let x = spec_displace(ws[i].1, ws[i].2, disps[bucket_of(ws[i], disps.len())].0, disps[bucket_of(ws[i], disps.len())].1);
        if n > 0 {
            assert(x % (n as u32) < n);
        }
    }
    crate::generator::lemma_distinct_covers(o, n);
    assert forall|s: int| 0 <= s < map.len() implies slot_for(
        ws[#[trigger] map[s] as int],
        disps[bucket_of(ws[map[s] as int], disps.len())],
        ws.len(),
    ) == s by {
        assert(crate::generator::takes(o, s));
        let i = choose|i: int| 0 <= i < o.len() && o[i] == s;
        assert(map[o[i]] == i);
    }
    assert forall|i: int, j: int|
        0 <= i < n && 0 <= j < n && i != j implies slot_for(
        #[trigger] ws[i],
        disps[bucket_of(ws[i], disps.len())],
        n,
    ) != slot_for(#[trigger] ws[j], disps[bucket_of(ws[j], disps.len())], n) by {
        assert(o[i] != o[j]);
    }
}


/// An integer literal reads as the key of its suffix's type holding the
/// literal's value, and under a `-` a signed one holds `0 - value`: this for
/// every value up to the type's maximum. An unsigned literal under a `-` is
/// no key.
pub proof fn law_int_literal_value(value: u64)
    ensures
        value <= i8::MAX ==> (int_literal(value, IntSuffix::I8, false) matches Some(KeyValue::I8(x)) && x == value),
        value <= i8::MAX ==> (int_literal(value, IntSuffix::I8, true) matches Some(KeyValue::I8(x)) && x == 0 - value),
        value <= i16::MAX ==> (int_literal(value, IntSuffix::I16, false) matches Some(KeyValue::I16(x)) && x == value),
        value <= i16::MAX ==> (int_literal(value, IntSuffix::I16, true) matches Some(KeyValue::I16(x)) && x == 0 - value),
        value <= i32::MAX ==> (int_literal(value, IntSuffix::I32, false) matches Some(KeyValue::I32(x)) && x == value),
        value <= i32::MAX ==> (int_literal(value, IntSuffix::I32, true) matches Some(KeyValue::I32(x)) && x == 0 - value),
        value <= i64::MAX ==> (int_literal(value, IntSuffix::I64, false) matches Some(KeyValue::I64(x)) && x == value),
        value <= i64::MAX ==> (int_literal(value, IntSuffix::I64, true) matches Some(KeyValue::I64(x)) && x == 0 - value),
        value <= u8::MAX ==> (int_literal(value, IntSuffix::U8, false) matches Some(KeyValue::U8(x)) && x == value),
        value <= u16::MAX ==> (int_literal(value, IntSuffix::U16, false) matches Some(KeyValue::U16(x)) && x == value),
        value <= u32::MAX ==> (int_literal(value, IntSuffix::U32, false) matches Some(KeyValue::U32(x)) && x == value),
        int_literal(value, IntSuffix::U64, false) matches Some(KeyValue::U64(x)) && x == value,
        int_literal(value, IntSuffix::U8, true) is None,
        int_literal(value, IntSuffix::U16, true) is None,
        int_literal(value, IntSuffix::U32, true) is None,
        int_literal(value, IntSuffix::U64, true) is None,
{
}


/// The emitted `::phf::Map` lists, at each slot, the entry whose key the
/// table sends to that slot: given any list that holds each entry at its
/// key's slot, the source is the hash key, the displacements and that list.
pub proof fn law_map_source_places_entries(entries: Seq<Entry>, state: HashState, items: Seq<Seq<char>>)
    requires
        table_solved(entry_words(entries, state.key), state.disps@, state.map@),
        entries.len() <= u32::MAX,
        items.len() == entries.len(),
        forall|i: int|
            0 <= i < entries.len() ==> items[slot_for(
                #[trigger] entry_words(entries, state.key)[i],
                state.disps@[bucket_of(entry_words(entries, state.key)[i], state.disps@.len())],
                entries.len(),
            )] == entry_item(entries[i]),
    ensures
        map_source(entries, state) == "::phf::Map { key: "@ + decimal(state.key as nat) + "u64, disps: &["@
            + joined(disp_items(state.disps@)) + "], entries: &["@ + joined(items) + "], }"@,
{
    let ws = entry_words(entries, state.key);
    let slots = state.map@.map_values(|i: usize| entry_item(entries[i as int]));
    law_table_is_bijection(ws, state.disps@, state.map@);
    assert forall|s: int| 0 <= s < entries.len() implies items[s] == #[trigger] slots[s] by {
        let i = state.map@[s] as int;
        assert(slot_for(ws[i], state.disps@[bucket_of(ws[i], state.disps@.len())], ws.len()) == s);
    }
    assert(items =~= slots);
}

/// The emitted `::phf::OrderedMap` lists the entries in their written
/// order, and, at each slot, the index of the entry whose key the table
/// sends to that slot: given any list that holds each index at its key's
/// slot, the source is the hash key, the displacements, that list and the
/// entries.
pub proof fn law_ordered_map_source_places_indices(entries: Seq<Entry>, state: HashState, idxs: Seq<Seq<char>>)
    requires
        table_solved(entry_words(entries, state.key), state.disps@, state.map@),
        entries.len() <= u32::MAX,
        idxs.len() == entries.len(),
        forall|i: int|
            0 <= i < entries.len() ==> idxs[slot_for(
                #[trigger] entry_words(entries, state.key)[i],
                state.disps@[bucket_of(entry_words(entries, state.key)[i], state.disps@.len())],
                entries.len(),
            )] == decimal(i as nat) + "usize"@,
    ensures
        ordered_map_source(entries, state) == "::phf::OrderedMap { key: "@ + decimal(state.key as nat)
            + "u64, disps: &["@ + joined(disp_items(state.disps@)) + "], idxs: &["@ + joined(idxs)
            + "], entries: &["@ + joined(Seq::new(entries.len(), |i: int| entry_item(entries[i])))
            + "], }"@,
{
    let ws = entry_words(entries, state.key);
    let slots = state.map@.map_values(|i: usize| decimal(i as nat) + "usize"@);
    law_table_is_bijection(ws, state.disps@, state.map@);
    assert forall|s: int| 0 <= s < entries.len() implies idxs[s] == #[trigger] slots[s] by {
        let i = state.map@[s] as int;
        assert(slot_for(ws[i], state.disps@[bucket_of(ws[i], state.disps@.len())], ws.len()) == s);
    }
    assert(idxs =~= slots);
    assert(Seq::new(entries.len(), |i: int| entry_item(entries[i])) =~= entries.map_values(|e: Entry| entry_item(e)));
}

} // verus!
