//! The PtrHash generator: each bucket gets a pilot that sends its keys to
//! free slots; a bucket that finds none evicts the buckets in its way, which
//! are placed again in turn.
use vstd::prelude::*;
use vstd::set_lib::{lemma_int_range, lemma_map_size, set_int_range};
use crate::ptrhash::{
    fast_reduct32, hash as ptrhash_hash, hash_pilot, spec_fast_reduct32, spec_get_index,
    spec_hash_pilot, spec_low, spec_high, spec_slot_index, sip13_64, lemma_fast_reduct32_bound,
};
use crate::shared::{HashKey, PhfHash};

verus! {

/// `ceil(n / 0.99)`, plus one when that is a power of two: the number of
/// slots for `n` keys.
pub open spec fn spec_slots_len(n: nat) -> nat {
    let len = (100 * n + 98) / 99;
    if is_power_of_two(len as int) {
        (len + 1) as nat
    } else {
        len as nat
    }
}

/// `ceil(n / 3) + 3`: the number of buckets for `n` keys.
pub open spec fn spec_buckets_len(n: nat) -> nat {
    ((n + 2) / 3 + 3) as nat
}

/// `x` is a power of two.
pub open spec fn is_power_of_two(x: int) -> bool
    decreases x,
{
    if x <= 0 {
        false
    } else if x == 1 {
        true
    } else {
        x % 2 == 0 && is_power_of_two(x / 2)
    }
}

fn power_of_two(x: u32) -> (r: bool)
    ensures
        r == is_power_of_two(x as int),
{
    let mut y = x;
    while y > 1 && y % 2 == 0
        invariant
            is_power_of_two(x as int) == is_power_of_two(y as int),
        decreases y,
    {
        y = y / 2;
    }
    y == 1
}

/// The number of slots for `keys_len` keys: `keys_len / 0.99` rounded up,
/// plus one when that is a power of two. The quotient is taken exactly as
/// `(100 * keys_len + 98) / 99`.
fn adjusted_slots_len(keys_len: u32) -> (r: u32)
    requires
        keys_len <= 0xfd70_a3d5,
    ensures
        r == spec_slots_len(keys_len as nat),
{
    let len = ((100 * (keys_len as u64) + 98) / 99) as u32;
    len + if power_of_two(len) {
        1
    } else {
        0
    }
}

/// The number of buckets for `keys_len` keys: `keys_len / 3` rounded up,
/// plus three.
fn adjusted_buckets_len(keys_len: u32) -> (r: u32)
    ensures
        r == spec_buckets_len(keys_len as nat),
{
    ((keys_len as u64 + 2) / 3 + 3) as u32
}

/// The bucket, of `bl`, of a key with the hash `h`.
pub open spec fn bucket_of(h: u64, bl: nat) -> int {
    spec_fast_reduct32(spec_low(h), bl as u32) as int
}

/// The slot, of `sl`, that the pilot `pilot` gives a key with the hash `h`.
pub open spec fn slot_of(seed: u64, h: u64, pilot: u8, sl: nat) -> int {
    spec_slot_index(h, spec_hash_pilot(seed, pilot), sl as u32) as int
}

/// What a slot holds during the search: a key and its bucket.
#[derive(Clone, Copy)]
pub struct Slot {
    pub bucket: usize,
    pub key: usize,
}

/// The keys of a bucket.
pub struct Bucket {
    pub keys: Vec<usize>,
}

/// Each bucket lists keys of its own, and each key is listed by its bucket.
pub open spec fn keys_listed(hashes: Seq<u64>, buckets: Seq<Bucket>) -> bool {
    &&& forall|b: int, j: int|
        #![trigger buckets[b].keys@[j]]
        0 <= b < buckets.len() && 0 <= j < buckets[b].keys@.len() ==> buckets[b].keys@[j]
            < hashes.len() && bucket_of(hashes[buckets[b].keys@[j] as int], buckets.len()) == b
    &&& forall|k: int|
        0 <= k < hashes.len() ==> buckets[bucket_of(hashes[k], buckets.len())].keys@.contains(
            k as usize,
        )
}

fn low(v: u64) -> (r: u32)
    ensures
        r == spec_low(v),
{
    proof {
        assert(v as u32 == (v % 0x1_0000_0000) as u32) by (bit_vector);
    }
    v as u32
}

fn high(v: u64) -> (r: u32)
    ensures
        r == spec_high(v),
{
    proof {
        assert((v >> 32u64) as u32 == (v / 0x1_0000_0000) as u32) by (bit_vector);
    }
    (v >> 32) as u32
}

#[inline]
fn slot_index(hash: u64, pilot_hash: u64, slots_len: u32) -> (r: u32)
    ensures
        r == spec_slot_index(hash, pilot_hash, slots_len),
        slots_len > 0 ==> r < slots_len,
{
    fast_reduct32(high(hash) ^ high(pilot_hash) ^ low(pilot_hash), slots_len)
}

/// Lists each key in its bucket.
fn fill_buckets(hashes: &[u64], buckets_len: usize) -> (buckets: Vec<Bucket>)
    requires
        0 < buckets_len <= u32::MAX,
        hashes@.len() <= u32::MAX,
    ensures
        buckets@.len() == buckets_len,
        keys_listed(hashes@, buckets@),
{
    let mut buckets: Vec<Bucket> = Vec::new();
    let mut b: usize = 0;
    while b < buckets_len
        invariant
            b <= buckets_len,
            buckets@.len() == b,
            forall|c: int| 0 <= c < b ==> (#[trigger] buckets@[c]).keys@.len() == 0,
        decreases buckets_len - b,
    {
        buckets.push(Bucket { keys: Vec::new() });
        b = b + 1;
    }
    let mut idx: usize = 0;
    while idx < hashes.len()
        invariant
            idx <= hashes@.len(),
            hashes@.len() <= u32::MAX,
            0 < buckets_len <= u32::MAX,
            buckets@.len() == buckets_len,
            forall|b: int, j: int|
                #![trigger buckets@[b].keys@[j]]
                0 <= b < buckets@.len() && 0 <= j < buckets@[b].keys@.len() ==> buckets@[b].keys@[j]
                    < idx && bucket_of(hashes@[buckets@[b].keys@[j] as int], buckets@.len()) == b,
            forall|k: int|
                0 <= k < idx ==> buckets@[bucket_of(hashes@[k], buckets@.len())].keys@.contains(
                    k as usize,
                ),
        decreases hashes@.len() - idx,
    {
        let bucket = fast_reduct32(low(hashes[idx]), buckets_len as u32) as usize;
        let mut entry = Bucket { keys: Vec::new() };
        proof {
            assert(bucket < buckets@.len());
        }
        // Take the bucket out, add the key, and put it back.
        let ghost before = buckets@;
        buckets.set_and_swap(bucket, &mut entry);
        entry.keys.push(idx);
        buckets.set_and_swap(bucket, &mut entry);
        proof {
            assert(buckets@ =~= before.update(bucket as int, buckets@[bucket as int]));
            assert forall|k: int|
                0 <= k < idx + 1 implies buckets@[bucket_of(
                hashes@[k],
                buckets@.len(),
            )].keys@.contains(k as usize) by {
                let c = bucket_of(hashes@[k], buckets@.len());
                lemma_fast_reduct32_bound(spec_low(hashes@[k]), buckets_len as u32);
                if k == idx {
                    assert(buckets@[bucket as int].keys@.last() == idx);
                } else if c == bucket {
                    let j = choose|j: int|
                        0 <= j < before[c].keys@.len() && before[c].keys@[j] == k as usize;
                    assert(buckets@[c].keys@[j] == k as usize);
                } else {
                    assert(c != bucket as int);
                    assert(before.update(bucket as int, buckets@[bucket as int])[c] == before[c]);
                    assert(buckets@[c] == before[c]);
                }
            }
        }
        idx = idx + 1;
    }
    buckets
}

/// `s` lists each number below `m` once.
pub open spec fn is_perm(s: Seq<usize>, m: nat) -> bool {
    &&& s.len() == m
    &&& forall|j: int| 0 <= j < m ==> #[trigger] s[j] < m
    &&& forall|j: int, k: int| 0 <= j < m && 0 <= k < m && j != k ==> s[j] != s[k]
}

/// Bucket `x` is tried before bucket `y`: buckets with more keys first, then
/// the lower index.
pub open spec fn goes_before(buckets: Seq<Bucket>, x: usize, y: usize) -> bool {
    buckets[x as int].keys@.len() > buckets[y as int].keys@.len() || (buckets[x as int].keys@.len()
        == buckets[y as int].keys@.len() && x < y)
}

fn goes_before_exec(buckets: &Vec<Bucket>, x: usize, y: usize) -> (r: bool)
    requires
        x < buckets@.len(),
        y < buckets@.len(),
    ensures
        r == goes_before(buckets@, x, y),
{
    buckets[x].keys.len() > buckets[y].keys.len() || (buckets[x].keys.len() == buckets[y].keys.len() && x < y)
}

/// Orders the buckets: those with more keys first. (Ties, which the sort
/// leaves open, go by index.)
fn sort_bucket_order(buckets: &Vec<Bucket>, bucket_order: &mut Vec<usize>)
    requires
        is_perm(old(bucket_order)@, buckets@.len()),
    ensures
        is_perm(final(bucket_order)@, buckets@.len()),
        forall|j: int, k: int|
            0 <= j < k < buckets@.len() ==> goes_before(
                buckets@,
                #[trigger] final(bucket_order)@[j],
                #[trigger] final(bucket_order)@[k],
            ),
{
    let ghost m = buckets@.len();
    let mut i: usize = 0;
    while i < bucket_order.len()
        invariant
            i <= m,
            m == buckets@.len(),
            is_perm(bucket_order@, m),
            forall|a: int, b: int|
                0 <= a < b < i ==> goes_before(
                    buckets@,
                    #[trigger] bucket_order@[a],
                    #[trigger] bucket_order@[b],
                ),
        decreases m - i,
    {
        let mut j: usize = i;
        while j > 0 && goes_before_exec(buckets, bucket_order[j], bucket_order[j - 1])
            invariant
                j <= i < m,
                m == buckets@.len(),
                is_perm(bucket_order@, m),
                forall|a: int, b: int|
                    0 <= a < b <= i && a != j && b != j ==> goes_before(
                        buckets@,
                        #[trigger] bucket_order@[a],
                        #[trigger] bucket_order@[b],
                    ),
                forall|k: int|
                    j < k <= i ==> goes_before(
                        buckets@,
                        bucket_order@[j as int],
                        #[trigger] bucket_order@[k],
                    ),
            decreases j,
        {
            let ghost bo0 = bucket_order@;
            let x = bucket_order[j];
            let y = bucket_order[j - 1];
            bucket_order.set(j, y);
            bucket_order.set(j - 1, x);
            proof {
                assert(bucket_order@ =~= bo0.update(j as int, y).update(j - 1, x));
                assert forall|a: int, b: int|
                    0 <= a < m && 0 <= b < m && a != b implies bucket_order@[a]
                    != bucket_order@[b] by {
                    let a0 = if a == j { j - 1 } else if a == j - 1 { j as int } else { a };
                    let b0 = if b == j { j - 1 } else if b == j - 1 { j as int } else { b };
                    assert(bucket_order@[a] == bo0[a0]);
                    assert(bucket_order@[b] == bo0[b0]);
                }
                assert forall|a: int, b: int|
                    0 <= a < b <= i && a != j - 1 && b != j - 1 implies goes_before(
                        buckets@,
                        #[trigger] bucket_order@[a],
                        #[trigger] bucket_order@[b],
                    ) by {
                    if a == j {
                        assert(goes_before(buckets@, bo0[j - 1], bo0[b]));
                    } else if b == j {
                        assert(goes_before(buckets@, bo0[a], bo0[j - 1]));
                    } else {
                        assert(goes_before(buckets@, bo0[a], bo0[b]));
                    }
                }
                assert forall|k: int| j - 1 < k <= i implies goes_before(
                    buckets@,
                    bucket_order@[j - 1],
                    #[trigger] bucket_order@[k],
                ) by {
                    if k > j {
                        assert(goes_before(buckets@, bo0[j as int], bo0[k]));
                    }
                }
            }
            j = j - 1;
        }
        proof {
            assert forall|a: int, b: int|
                0 <= a < b < i + 1 implies goes_before(
                    buckets@,
                    #[trigger] bucket_order@[a],
                    #[trigger] bucket_order@[b],
                ) by {
                if b == j && a < j - 1 {
                    assert(goes_before(buckets@, bucket_order@[a], bucket_order@[j - 1]));
                }
                if b == j && j > 0 {
                    assert(bucket_order@[j - 1] != bucket_order@[j as int]);
                }
            }
        }
        i = i + 1;
    }
}


/// The slot that the pilot of bucket `b` gives its `j`th key.
pub open spec fn key_slot(seed: u64, hashes: Seq<u64>, buckets: Seq<Bucket>, pilots: Seq<u8>, b: int, j: int, sl: nat) -> int {
    slot_of(seed, hashes[buckets[b].keys@[j] as int], pilots[b], sl)
}

/// Bucket `b`'s keys all sit in the slots its pilot gives them.
pub open spec fn placed(
    seed: u64,
    hashes: Seq<u64>,
    buckets: Seq<Bucket>,
    pilots: Seq<u8>,
    slots: Seq<Option<Slot>>,
    b: int,
) -> bool {
    forall|j: int|
        0 <= j < buckets[b].keys@.len() ==> slots[#[trigger] key_slot(
            seed,
            hashes,
            buckets,
            pilots,
            b,
            j,
            slots.len(),
        )] == Some(Slot { bucket: b as usize, key: buckets[b].keys@[j] })
}

/// No slot holds a key of bucket `b`.
pub open spec fn unplaced(slots: Seq<Option<Slot>>, b: int) -> bool {
    forall|s: int| 0 <= s < slots.len() && (#[trigger] slots[s]) is Some ==> slots[s]->0.bucket != b
}

/// Every slot that holds a key holds it where its bucket's pilot sends it.
pub open spec fn consistent(
    seed: u64,
    hashes: Seq<u64>,
    buckets: Seq<Bucket>,
    pilots: Seq<u8>,
    slots: Seq<Option<Slot>>,
) -> bool {
    forall|s: int|
        0 <= s < slots.len() && (#[trigger] slots[s]) is Some ==> {
            let sl = slots[s]->0;
            &&& sl.key < hashes.len()
            &&& sl.bucket < buckets.len()
            &&& bucket_of(hashes[sl.key as int], buckets.len()) == sl.bucket
            &&& slot_of(seed, hashes[sl.key as int], pilots[sl.bucket as int], slots.len()) == s
        }
}

/// Every bucket with a key in a slot, other than `except`, is placed.
pub open spec fn occupants_placed(
    seed: u64,
    hashes: Seq<u64>,
    buckets: Seq<Bucket>,
    pilots: Seq<u8>,
    slots: Seq<Option<Slot>>,
    except: int,
) -> bool {
    forall|s: int|
        0 <= s < slots.len() && (#[trigger] slots[s]) is Some && slots[s]->0.bucket != except
            ==> placed(seed, hashes, buckets, pilots, slots, slots[s]->0.bucket as int)
}

/// The pilot `pilot` sends the keys of bucket `b` to slots that differ.
pub open spec fn distinct_slots(seed: u64, hashes: Seq<u64>, buckets: Seq<Bucket>, b: int, pilot: u8, sl: nat) -> bool {
    forall|i: int, j: int|
        0 <= i < buckets[b].keys@.len() && 0 <= j < buckets[b].keys@.len() && i != j
            ==> slot_of(seed, hashes[buckets[b].keys@[i] as int], pilot, sl) != slot_of(
            seed,
            hashes[buckets[b].keys@[j] as int],
            pilot,
            sl,
        )
}

/// The basic facts of a search: sizes, and the buckets list their keys.
pub open spec fn search_shape(hashes: Seq<u64>, buckets: Seq<Bucket>, pilots: Seq<u8>, slots: Seq<Option<Slot>>) -> bool {
    &&& 0 < slots.len() <= u32::MAX
    &&& 0 < buckets.len() <= u32::MAX
    &&& hashes.len() <= u32::MAX
    &&& pilots.len() == buckets.len()
    &&& keys_listed(hashes, buckets)
}

proof fn lemma_slot_of_bound(seed: u64, h: u64, pilot: u8, sl: nat)
    requires
        0 < sl <= u32::MAX,
    ensures
        0 <= slot_of(seed, h, pilot, sl) < sl,
{
    lemma_fast_reduct32_bound(
        spec_high(h) ^ spec_high(spec_hash_pilot(seed, pilot)) ^ spec_low(spec_hash_pilot(seed, pilot)),
        sl as u32,
    );
}

/// Whether `slot` is among the first slots of `values`.
fn seen_slot(values: &Vec<(u32, usize)>, slot: u32) -> (r: bool)
    ensures
        r == exists|i: int| 0 <= i < values@.len() && (#[trigger] values@[i]).0 == slot,
{
    let mut i: usize = 0;
    while i < values.len()
        invariant
            i <= values@.len(),
            forall|k: int| 0 <= k < i ==> (#[trigger] values@[k]).0 != slot,
        decreases values@.len() - i,
    {
        if values[i].0 == slot {
            return true;
        }
        i = i + 1;
    }
    false
}

/// The pilot `pilot` sends the keys of bucket `b` to free slots of
/// `slots`, no two to the same slot.
pub open spec fn pilot_fits(seed: u64, hashes: Seq<u64>, buckets: Seq<Bucket>, b: int, pilot: u8, slots: Seq<Option<Slot>>) -> bool {
    &&& forall|i: int|
        0 <= i < buckets[b].keys@.len() ==> slots[slot_of(seed, hashes[#[trigger] buckets[b].keys@[i] as int], pilot, slots.len())] is None
    &&& distinct_slots(seed, hashes, buckets, b, pilot, slots.len())
}

/// Tries the pilot `pilot` on `bucket`: succeeds exactly when its keys go
/// to free slots that differ, and then places them there.
fn try_place_bucket(
    buckets: &Vec<Bucket>,
    slots: &mut Vec<Option<Slot>>,
    pilots: &mut Vec<u8>,
    values_to_add: &mut Vec<(u32, usize)>,
    hashes: &[u64],
    seed: u64,
    bucket: usize,
    pilot: u8,
) -> (ok: bool)
    requires
        search_shape(hashes@, buckets@, old(pilots)@, old(slots)@),
        bucket < buckets@.len(),
        consistent(seed, hashes@, buckets@, old(pilots)@, old(slots)@),
        occupants_placed(seed, hashes@, buckets@, old(pilots)@, old(slots)@, -1),
        unplaced(old(slots)@, bucket as int),
    ensures
        final(slots)@.len() == old(slots)@.len(),
        final(pilots)@.len() == old(pilots)@.len(),
        !ok ==> final(slots)@ == old(slots)@ && final(pilots)@ == old(pilots)@,
        ok == pilot_fits(seed, hashes@, buckets@, bucket as int, pilot, old(slots)@),
        ok ==> {
            &&& final(pilots)@ == old(pilots)@.update(bucket as int, pilot)
            &&& consistent(seed, hashes@, buckets@, final(pilots)@, final(slots)@)
            &&& occupants_placed(seed, hashes@, buckets@, final(pilots)@, final(slots)@, -1)
            &&& placed(seed, hashes@, buckets@, final(pilots)@, final(slots)@, bucket as int)
            &&& forall|q: int|
                0 <= q < buckets@.len() && q != bucket && placed(
                    seed,
                    hashes@,
                    buckets@,
                    old(pilots)@,
                    old(slots)@,
                    q,
                ) ==> placed(seed, hashes@, buckets@, final(pilots)@, final(slots)@, q)
            &&& forall|q: int|
                q != bucket && unplaced(old(slots)@, q) ==> unplaced(final(slots)@, q)
        },
{
    let ghost sl = slots@.len();
    let ghost keys = buckets@[bucket as int].keys@;
    let pilot_hash = hash_pilot(seed, pilot);
    let slots_len = slots.len() as u32;
    values_to_add.clear();

    let mut j: usize = 0;
    while j < buckets[bucket].keys.len()
        invariant
            j <= keys.len(),
            keys == buckets@[bucket as int].keys@,
            bucket < buckets@.len(),
            search_shape(hashes@, buckets@, old(pilots)@, old(slots)@),
            slots@ == old(slots)@,
            pilots@ == old(pilots)@,
            sl == slots@.len(),
            slots_len == sl,
            pilot_hash == spec_hash_pilot(seed, pilot),
            values_to_add@.len() == j,
            forall|i: int|
                0 <= i < j ==> #[trigger] values_to_add@[i] == (
                    slot_of(seed, hashes@[keys[i] as int], pilot, sl) as u32,
                    keys[i],
                ),
            forall|i: int| 0 <= i < j ==> slots@[(#[trigger] values_to_add@[i]).0 as int] is None,
            forall|i: int, k: int|
                0 <= i < j && 0 <= k < j && i != k ==> (#[trigger] values_to_add@[i]).0
                    != (#[trigger] values_to_add@[k]).0,
        decreases keys.len() - j,
    {
        let key = buckets[bucket].keys[j];
        proof {
            assert(buckets@[bucket as int].keys@[j as int] == key);
            lemma_slot_of_bound(seed, hashes@[key as int], pilot, sl);
        }
        let slot = slot_index(hashes[key], pilot_hash, slots_len);
        if slots[slot as usize].is_some() || seen_slot(values_to_add, slot) {
            proof {
                if slots@[slot as int] is None {
                    let i = choose|i: int| 0 <= i < values_to_add@.len() && (#[trigger] values_to_add@[i]).0 == slot;
                    lemma_slot_of_bound(seed, hashes@[keys[i] as int], pilot, sl);
                    assert(slot_of(seed, hashes@[keys[i] as int], pilot, sl) == slot_of(seed, hashes@[keys[j as int] as int], pilot, sl));
                    assert(!distinct_slots(seed, hashes@, buckets@, bucket as int, pilot, sl));
                } else {
                    assert(keys[j as int] == key);
                }
            }
            return false;
        }
        values_to_add.push((slot, key));
        j = j + 1;
    }
    proof {
        assert forall|i: int, k: int|
            0 <= i < keys.len() && 0 <= k < keys.len() && i != k implies slot_of(seed, hashes@[keys[i] as int], pilot, sl)
                != slot_of(seed, hashes@[keys[k] as int], pilot, sl) by {
            lemma_slot_of_bound(seed, hashes@[keys[i] as int], pilot, sl);
            lemma_slot_of_bound(seed, hashes@[keys[k] as int], pilot, sl);
            assert(values_to_add@[i].0 != values_to_add@[k].0);
        }
        assert forall|i: int| 0 <= i < keys.len() implies slots@[slot_of(seed, hashes@[#[trigger] keys[i] as int], pilot, sl)] is None by {
            lemma_slot_of_bound(seed, hashes@[keys[i] as int], pilot, sl);
            assert(slots@[values_to_add@[i].0 as int] is None);
        }
        assert(pilot_fits(seed, hashes@, buckets@, bucket as int, pilot, old(slots)@));
    }

    pilots.set(bucket, pilot);
    let ghost slots0 = slots@;
    let mut w: usize = 0;
    while w < values_to_add.len()
        invariant
            w <= values_to_add@.len(),
            values_to_add@.len() == keys.len(),
            keys == buckets@[bucket as int].keys@,
            bucket < buckets@.len(),
            slots0 == old(slots)@,
            slots@.len() == sl,
            sl == old(slots)@.len(),
            0 < sl <= u32::MAX,
            forall|i: int|
                0 <= i < keys.len() ==> #[trigger] values_to_add@[i] == (
                    slot_of(seed, hashes@[keys[i] as int], pilot, sl) as u32,
                    keys[i],
                ),
            forall|i: int| 0 <= i < keys.len() ==> slots0[(#[trigger] values_to_add@[i]).0 as int] is None,
            forall|i: int, k: int|
                0 <= i < keys.len() && 0 <= k < keys.len() && i != k ==> (
                #[trigger] values_to_add@[i]).0 != (#[trigger] values_to_add@[k]).0,
            forall|i: int|
                0 <= i < w ==> slots@[(#[trigger] values_to_add@[i]).0 as int] == Some(
                    Slot { bucket, key: keys[i] },
                ),
            forall|s: int|
                0 <= s < sl && (forall|i: int| 0 <= i < w ==> (#[trigger] values_to_add@[i]).0 != s)
                    ==> #[trigger] slots@[s] == slots0[s],
        decreases values_to_add@.len() - w,
    {
        let (slot, key) = values_to_add[w];
        proof {
            lemma_slot_of_bound(seed, hashes@[keys[w as int] as int], pilot, sl);
        }
        let ghost prev = slots@;
        slots.set(slot as usize, Some(Slot { bucket, key }));
        proof {
            assert(key == keys[w as int]);
            assert(slot == values_to_add@[w as int].0);
            assert(slots@[slot as int] == Some(Slot { bucket, key }));
            assert(slots@[values_to_add@[w as int].0 as int] == Some(Slot { bucket, key: keys[w as int] }));
            assert forall|i: int| 0 <= i < w + 1 implies slots@[(#[trigger] values_to_add@[i]).0 as int]
                == Some(Slot { bucket, key: keys[i] }) by {
                if i < w {
                    lemma_slot_of_bound(seed, hashes@[keys[i] as int], pilot, sl);
                    assert(values_to_add@[i].0 != values_to_add@[w as int].0);
                    assert(prev[values_to_add@[i].0 as int] == Some(Slot { bucket, key: keys[i] }));
                    assert(slots@ == prev.update(slot as int, Some(Slot { bucket, key })));
                    assert(slots@[values_to_add@[i].0 as int] == prev[values_to_add@[i].0 as int]);
                } else {
                    assert(i == w);
                }
            }
            assert forall|s: int|
                0 <= s < sl && (forall|i: int| 0 <= i < w + 1 ==> (#[trigger] values_to_add@[i]).0 != s)
                    implies #[trigger] slots@[s] == slots0[s] by {
                assert(values_to_add@[w as int].0 != s);
            }
        }
        w = w + 1;
    }
    proof {
        let pl = pilots@;
        // The new occupants.
        assert forall|j: int| 0 <= j < keys.len() implies slots@[#[trigger] key_slot(
            seed,
            hashes@,
            buckets@,
            pl,
            bucket as int,
            j,
            sl,
        )] == Some(Slot { bucket: bucket as usize, key: keys[j] }) by {
            assert(values_to_add@[j] == (
                slot_of(seed, hashes@[keys[j] as int], pilot, sl) as u32,
                keys[j],
            ));
            lemma_slot_of_bound(seed, hashes@[keys[j] as int], pilot, sl);
        }
        // A slot is either new, or as it was.
        assert forall|s: int| 0 <= s < sl implies (#[trigger] slots@[s] == slots0[s]) || (exists|i: int|
            0 <= i < keys.len() && values_to_add@[i].0 == s && slots@[s] == Some(
                Slot { bucket, key: keys[i] },
            ) && slots0[s] is None) by {
            if exists|i: int| 0 <= i < keys.len() && (#[trigger] values_to_add@[i]).0 == s {
                let i = choose|i: int| 0 <= i < keys.len() && (#[trigger] values_to_add@[i]).0 == s;
                assert(slots@[s] == Some(Slot { bucket, key: keys[i] }));
            }
        }
        assert forall|q: int|
            0 <= q < buckets@.len() && q != bucket && placed(
                seed,
                hashes@,
                buckets@,
                old(pilots)@,
                old(slots)@,
                q,
            ) implies placed(seed, hashes@, buckets@, pl, slots@, q) by {
            assert forall|j: int| 0 <= j < buckets@[q].keys@.len() implies slots@[#[trigger] key_slot(
                seed,
                hashes@,
                buckets@,
                pl,
                q,
                j,
                sl,
            )] == Some(Slot { bucket: q as usize, key: buckets@[q].keys@[j] }) by {
                let ks = key_slot(seed, hashes@, buckets@, old(pilots)@, q, j, sl);
                assert(key_slot(seed, hashes@, buckets@, pl, q, j, sl) == ks);
                assert(slots0[ks] == Some(Slot { bucket: q as usize, key: buckets@[q].keys@[j] }));
                lemma_slot_of_bound(seed, hashes@[buckets@[q].keys@[j] as int], old(pilots)@[q], sl);
            }
        }
        assert forall|s: int| 0 <= s < sl && (#[trigger] slots@[s]) is Some implies {
            let o = slots@[s]->0;
            &&& o.key < hashes@.len()
            &&& o.bucket < buckets@.len()
            &&& bucket_of(hashes@[o.key as int], buckets@.len()) == o.bucket
            &&& slot_of(seed, hashes@[o.key as int], pl[o.bucket as int], sl) == s
        } by {
            if slots@[s] != slots0[s] {
                let i = choose|i: int|
                    0 <= i < keys.len() && values_to_add@[i].0 == s && slots@[s] == Some(
                        Slot { bucket, key: keys[i] },
                    ) && slots0[s] is None;
                assert(buckets@[bucket as int].keys@[i] == keys[i]);
                lemma_slot_of_bound(seed, hashes@[keys[i] as int], pilot, sl);
            } else {
                assert(slots0[s]->0.bucket != bucket);
            }
        }
        assert forall|s: int|
            0 <= s < sl && (#[trigger] slots@[s]) is Some && slots@[s]->0.bucket != -1 implies placed(
            seed,
            hashes@,
            buckets@,
            pl,
            slots@,
            slots@[s]->0.bucket as int,
        ) by {
            if slots@[s] == slots0[s] {
                let q = slots0[s]->0.bucket as int;
                assert(q != bucket);
                assert(placed(seed, hashes@, buckets@, old(pilots)@, old(slots)@, q));
            }
        }
        assert forall|q: int| q != bucket && unplaced(old(slots)@, q) implies unplaced(slots@, q) by {
            assert forall|s: int| 0 <= s < sl && (#[trigger] slots@[s]) is Some implies slots@[s]->0.bucket
                != q by {
                if slots@[s] == slots0[s] {
                }
            }
        }
    }
    true
}

/// `s` is a slot that the pilot `pilot` gives a key of bucket `b`.
pub open spec fn bucket_slot(seed: u64, hashes: Seq<u64>, buckets: Seq<Bucket>, b: int, pilot: u8, s: int, sl: nat) -> bool {
    exists|m: int|
        0 <= m < buckets[b].keys@.len() && #[trigger] slot_of(
            seed,
            hashes[buckets[b].keys@[m] as int],
            pilot,
            sl,
        ) == s
}

/// Empties the slots that the pilot `previous_pilot` gives the keys of
/// bucket `previous`, but for `keep`.
fn clear_bucket_slots(
    buckets: &Vec<Bucket>,
    slots: &mut Vec<Option<Slot>>,
    hashes: &[u64],
    seed: u64,
    previous: usize,
    previous_pilot: u8,
    keep: usize,
)
    requires
        keys_listed(hashes@, buckets@),
        0 < old(slots)@.len() <= u32::MAX,
        previous < buckets@.len(),
    ensures
        final(slots)@.len() == old(slots)@.len(),
        forall|s: int|
            0 <= s < old(slots)@.len() ==> #[trigger] final(slots)@[s] == (if s != keep && bucket_slot(
                seed,
                hashes@,
                buckets@,
                previous as int,
                previous_pilot,
                s,
                old(slots)@.len(),
            ) {
                None
            } else {
                old(slots)@[s]
            }),
{
    let ghost sl = slots@.len();
    let ghost keys = buckets@[previous as int].keys@;
    let previous_hash = hash_pilot(seed, previous_pilot);
    let slots_len = slots.len() as u32;
    let mut m: usize = 0;
    while m < buckets[previous].keys.len()
        invariant
            m <= keys.len(),
            keys == buckets@[previous as int].keys@,
            previous < buckets@.len(),
            keys_listed(hashes@, buckets@),
            slots@.len() == sl,
            sl == old(slots)@.len(),
            0 < sl <= u32::MAX,
            slots_len == sl,
            previous_hash == spec_hash_pilot(seed, previous_pilot),
            forall|s: int|
                0 <= s < sl ==> #[trigger] slots@[s] == (if s != keep && exists|k: int|
                    0 <= k < m && #[trigger] slot_of(seed, hashes@[keys[k] as int], previous_pilot, sl)
                        == s {
                    None
                } else {
                    old(slots)@[s]
                }),
        decreases keys.len() - m,
    {
        let key = buckets[previous].keys[m];
        proof {
            assert(keys[m as int] == key);
            assert(key < hashes@.len());
            lemma_slot_of_bound(seed, hashes@[key as int], previous_pilot, sl);
        }
        let previous_slot = slot_index(hashes[key], previous_hash, slots_len) as usize;
        if previous_slot != keep {
            slots.set(previous_slot, None);
        }
        proof {
            assert forall|s: int| 0 <= s < sl implies #[trigger] slots@[s] == (if s != keep
                && exists|k: int|
                0 <= k < m + 1 && #[trigger] slot_of(seed, hashes@[keys[k] as int], previous_pilot, sl)
                    == s {
                None
            } else {
                old(slots)@[s]
            }) by {
                if s == previous_slot && s != keep {
                    assert(slot_of(seed, hashes@[keys[m as int] as int], previous_pilot, sl) == s);
                }
                if exists|k: int|
                    0 <= k < m + 1 && #[trigger] slot_of(seed, hashes@[keys[k] as int], previous_pilot, sl)
                        == s {
                    let k = choose|k: int|
                        0 <= k < m + 1 && #[trigger] slot_of(seed, hashes@[keys[k] as int], previous_pilot, sl)
                            == s;
                    if k < m {
                    }
                }
            }
        }
        m = m + 1;
    }
}

/// Bucket `q` was pushed onto the stack past its first `from` entries.
pub open spec fn pushed(stack: Seq<usize>, from: int, q: int) -> bool {
    exists|t: int| from <= t < stack.len() && stack[t] == q
}

/// A key of `bucket`, under the pilot `pilot`, goes to a slot of `slots`
/// that holds a key of bucket `q`.
pub open spec fn evicted_by(
    seed: u64,
    hashes: Seq<u64>,
    buckets: Seq<Bucket>,
    bucket: int,
    pilot: u8,
    slots: Seq<Option<Slot>>,
    q: usize,
) -> bool {
    exists|i: int|
        0 <= i < buckets[bucket].keys@.len() && slots[#[trigger] trial_slot(seed, hashes, buckets, bucket, pilot, slots.len(), i)]
            is Some && slots[trial_slot(seed, hashes, buckets, bucket, pilot, slots.len(), i)]->0.bucket == q
}

/// The state while `place_evicting` puts the first `j` keys of `bucket` in
/// their slots.
pub open spec fn placing(
    seed: u64,
    hashes: Seq<u64>,
    buckets: Seq<Bucket>,
    pilots: Seq<u8>,
    slots: Seq<Option<Slot>>,
    stack: Seq<usize>,
    old_pilots: Seq<u8>,
    old_slots: Seq<Option<Slot>>,
    old_stack: Seq<usize>,
    bucket: int,
    pilot: u8,
    j: int,
) -> bool {
    let sl = slots.len();
    let keys = buckets[bucket].keys@;
    &&& pilots == old_pilots.update(bucket, pilot)
    &&& sl == old_slots.len()
    &&& forall|i: int|
        0 <= i < j ==> slots[#[trigger] slot_of(seed, hashes[keys[i] as int], pilot, sl)] == Some(
            Slot { bucket: bucket as usize, key: keys[i] },
        )
    &&& consistent(seed, hashes, buckets, pilots, slots)
    &&& occupants_placed(seed, hashes, buckets, pilots, slots, bucket)
    &&& forall|s: int|
        0 <= s < sl && (#[trigger] slots[s]) is Some && slots[s]->0.bucket == bucket ==> exists|i: int|
            0 <= i < j && slot_of(seed, hashes[keys[i] as int], pilot, sl) == s
    &&& old_stack.len() <= stack.len()
    &&& stack.take(old_stack.len() as int) == old_stack
    &&& forall|t: int|
        old_stack.len() <= t < stack.len() ==> {
            &&& (#[trigger] stack[t]) < buckets.len()
            &&& stack[t] != bucket
            &&& unplaced(slots, stack[t] as int)
            &&& !unplaced(old_slots, stack[t] as int)
        }
    &&& forall|t: int, u: int|
        old_stack.len() <= t < stack.len() && old_stack.len() <= u < stack.len() && t != u
            ==> #[trigger] stack[t] != #[trigger] stack[u]
    &&& forall|q: int|
        0 <= q < buckets.len() && q != bucket && placed(seed, hashes, buckets, old_pilots, old_slots, q)
            ==> placed(seed, hashes, buckets, pilots, slots, q) || pushed(stack, old_stack.len() as int, q)
    &&& forall|q: int| q != bucket && unplaced(old_slots, q) ==> unplaced(slots, q)
    &&& forall|s: int|
        0 <= s < sl && (#[trigger] slots[s]) is Some && slots[s]->0.bucket != bucket ==> old_slots[s]
            == slots[s]
}

/// Gives `bucket` the pilot `pilot` and puts its keys in their slots; a
/// bucket with a key in one of those slots is evicted: its other slots are
/// emptied and it goes on the stack.
fn place_evicting(
    buckets: &Vec<Bucket>,
    slots: &mut Vec<Option<Slot>>,
    pilots: &mut Vec<u8>,
    stack: &mut Vec<usize>,
    hashes: &[u64],
    seed: u64,
    bucket: usize,
    pilot: u8,
)
    requires
        search_shape(hashes@, buckets@, old(pilots)@, old(slots)@),
        bucket < buckets@.len(),
        consistent(seed, hashes@, buckets@, old(pilots)@, old(slots)@),
        occupants_placed(seed, hashes@, buckets@, old(pilots)@, old(slots)@, -1),
        unplaced(old(slots)@, bucket as int),
        distinct_slots(seed, hashes@, buckets@, bucket as int, pilot, old(slots)@.len()),
    ensures
        placing(
            seed,
            hashes@,
            buckets@,
            final(pilots)@,
            final(slots)@,
            final(stack)@,
            old(pilots)@,
            old(slots)@,
            old(stack)@,
            bucket as int,
            pilot,
            buckets@[bucket as int].keys@.len() as int,
        ),
        placed(seed, hashes@, buckets@, final(pilots)@, final(slots)@, bucket as int),
        occupants_placed(seed, hashes@, buckets@, final(pilots)@, final(slots)@, -1),
        forall|t: int|
            old(stack)@.len() <= t < final(stack)@.len() ==> #[trigger] evicted_by(
                seed,
                hashes@,
                buckets@,
                bucket as int,
                pilot,
                old(slots)@,
                final(stack)@[t],
            ),
{
    let ghost sl = slots@.len();
    let ghost keys = buckets@[bucket as int].keys@;
    let ghost old_pilots = pilots@;
    let ghost old_slots = slots@;
    let ghost old_stack = stack@;
    pilots.set(bucket, pilot);
    let pilot_hash = hash_pilot(seed, pilot);
    let slots_len = slots.len() as u32;
    proof {
        assert(stack@.take(old_stack.len() as int) =~= old_stack);
        assert forall|q: int|
            0 <= q < buckets@.len() && q != bucket && placed(seed, hashes@, buckets@, old_pilots, old_slots, q)
                implies placed(seed, hashes@, buckets@, pilots@, slots@, q) by {
            assert forall|m: int| 0 <= m < buckets@[q].keys@.len() implies slots@[#[trigger] key_slot(
                seed,
                hashes@,
                buckets@,
                pilots@,
                q,
                m,
                sl,
            )] == Some(Slot { bucket: q as usize, key: buckets@[q].keys@[m] }) by {
                assert(key_slot(seed, hashes@, buckets@, pilots@, q, m, sl) == key_slot(
                    seed,
                    hashes@,
                    buckets@,
                    old_pilots,
                    q,
                    m,
                    sl,
                ));
            }
        }
        assert forall|s: int|
            0 <= s < sl && (#[trigger] slots@[s]) is Some && slots@[s]->0.bucket != bucket implies placed(
            seed,
            hashes@,
            buckets@,
            pilots@,
            slots@,
            slots@[s]->0.bucket as int,
        ) by {
            let q = slots@[s]->0.bucket as int;
            assert(placed(seed, hashes@, buckets@, old_pilots, old_slots, q));
        }
        assert(placing(
            seed,
            hashes@,
            buckets@,
            pilots@,
            slots@,
            stack@,
            old_pilots,
            old_slots,
            old_stack,
            bucket as int,
            pilot,
            0,
        ));
    }
    let mut j: usize = 0;
    while j < buckets[bucket].keys.len()
        invariant
            j <= keys.len(),
            keys == buckets@[bucket as int].keys@,
            bucket < buckets@.len(),
            search_shape(hashes@, buckets@, old_pilots, old_slots),
            sl == old_slots.len(),
            slots_len == sl,
            pilot_hash == spec_hash_pilot(seed, pilot),
            distinct_slots(seed, hashes@, buckets@, bucket as int, pilot, sl),
            old_pilots == old(pilots)@,
            old_slots == old(slots)@,
            old_stack == old(stack)@,
            placing(
                seed,
                hashes@,
                buckets@,
                pilots@,
                slots@,
                stack@,
                old_pilots,
                old_slots,
                old_stack,
                bucket as int,
                pilot,
                j as int,
            ),
            forall|t: int|
                old_stack.len() <= t < stack@.len() ==> #[trigger] evicted_by(
                    seed,
                    hashes@,
                    buckets@,
                    bucket as int,
                    pilot,
                    old_slots,
                    stack@[t],
                ),
        decreases keys.len() - j,
    {
        let key = buckets[bucket].keys[j];
        proof {
            assert(keys[j as int] == key);
            lemma_slot_of_bound(seed, hashes@[key as int], pilot, sl);
        }
        let slot = slot_index(hashes[key], pilot_hash, slots_len) as usize;
        let previous = slots[slot];
        let ghost s0 = slots@;
        let ghost st0 = stack@;
        slots.set(slot, Some(Slot { bucket, key }));
        match previous {
            Some(prev) => {
                stack.push(prev.bucket);
                proof {
                    assert(prev.bucket != bucket) by {
                        if prev.bucket == bucket {
                            let i = choose|i: int|
                                0 <= i < j && slot_of(seed, hashes@[keys[i] as int], pilot, sl) == slot as int;
                            assert(slot_of(seed, hashes@[keys[j as int] as int], pilot, sl) == slot as int);
                        }
                    }
                    assert(old_slots[slot as int] == s0[slot as int]);
                    assert(trial_slot(seed, hashes@, buckets@, bucket as int, pilot, sl, j as int) == slot as int);
                    assert(evicted_by(seed, hashes@, buckets@, bucket as int, pilot, old_slots, prev.bucket));
                    assert forall|t: int| old_stack.len() <= t < stack@.len() implies #[trigger] evicted_by(
                        seed,
                        hashes@,
                        buckets@,
                        bucket as int,
                        pilot,
                        old_slots,
                        stack@[t],
                    ) by {
                        if t < st0.len() {
                            assert(stack@[t] == st0[t]);
                        }
                    }
                }
                let ghost s1 = slots@;
                proof {
                    lemma_evicted_bucket(
                        seed,
                        hashes@,
                        buckets@,
                        pilots@,
                        s0,
                        st0,
                        old_pilots,
                        old_slots,
                        old_stack,
                        bucket as int,
                        pilot,
                        j as int,
                        slot as int,
                    );
                }
                let previous_pilot = pilots[prev.bucket];
                clear_bucket_slots(buckets, slots, hashes, seed, prev.bucket, previous_pilot, slot);
                proof {
                    lemma_evict_step(
                        seed,
                        hashes@,
                        buckets@,
                        pilots@,
                        s0,
                        slots@,
                        st0,
                        stack@,
                        old_pilots,
                        old_slots,
                        old_stack,
                        bucket as int,
                        pilot,
                        j as int,
                        slot as int,
                    );
                }
            },
            None => {
                proof {
                    lemma_free_step(
                        seed,
                        hashes@,
                        buckets@,
                        pilots@,
                        s0,
                        slots@,
                        stack@,
                        old_pilots,
                        old_slots,
                        old_stack,
                        bucket as int,
                        pilot,
                        j as int,
                        slot as int,
                    );
                }
            },
        }
        j = j + 1;
    }
    proof {
        assert forall|m: int| 0 <= m < keys.len() implies slots@[#[trigger] key_slot(
            seed,
            hashes@,
            buckets@,
            pilots@,
            bucket as int,
            m,
            sl,
        )] == Some(Slot { bucket: bucket as usize, key: keys[m] }) by {
            assert(slots@[slot_of(seed, hashes@[keys[m] as int], pilot, sl)] == Some(
                Slot { bucket: bucket as usize, key: keys[m] },
            ));
        }
        assert forall|s: int|
            0 <= s < sl && (#[trigger] slots@[s]) is Some && slots@[s]->0.bucket != -1 implies placed(
            seed,
            hashes@,
            buckets@,
            pilots@,
            slots@,
            slots@[s]->0.bucket as int,
        ) by {
        }
    }
}

/// A placed bucket stays placed while the slots holding its keys stay.
proof fn lemma_placed_frame(
    seed: u64,
    hashes: Seq<u64>,
    buckets: Seq<Bucket>,
    pilots: Seq<u8>,
    s0: Seq<Option<Slot>>,
    s1: Seq<Option<Slot>>,
    q: int,
)
    requires
        s0.len() == s1.len(),
        0 < s0.len() <= u32::MAX,
        0 <= q < buckets.len() <= u32::MAX,
        placed(seed, hashes, buckets, pilots, s0, q),
        forall|x: int|
            0 <= x < s0.len() && (#[trigger] s0[x]) is Some && s0[x]->0.bucket == q ==> s1[x] == s0[x],
    ensures
        placed(seed, hashes, buckets, pilots, s1, q),
{
    assert forall|m: int| 0 <= m < buckets[q].keys@.len() implies s1[#[trigger] key_slot(
        seed,
        hashes,
        buckets,
        pilots,
        q,
        m,
        s1.len(),
    )] == Some(Slot { bucket: q as usize, key: buckets[q].keys@[m] }) by {
        let x = key_slot(seed, hashes, buckets, pilots, q, m, s0.len());
        lemma_slot_of_bound(seed, hashes[buckets[q].keys@[m] as int], pilots[q], s0.len());
        assert(s0[x] == Some(Slot { bucket: q as usize, key: buckets[q].keys@[m] }));
    }
}

/// Putting a key of `bucket` in a free slot keeps the placing state.
proof fn lemma_free_step(
    seed: u64,
    hashes: Seq<u64>,
    buckets: Seq<Bucket>,
    pilots: Seq<u8>,
    s0: Seq<Option<Slot>>,
    s1: Seq<Option<Slot>>,
    stack: Seq<usize>,
    old_pilots: Seq<u8>,
    old_slots: Seq<Option<Slot>>,
    old_stack: Seq<usize>,
    bucket: int,
    pilot: u8,
    j: int,
    slot: int,
)
    requires
        search_shape(hashes, buckets, old_pilots, old_slots),
        0 <= bucket < buckets.len(),
        0 <= j < buckets[bucket].keys@.len(),
        distinct_slots(seed, hashes, buckets, bucket, pilot, s0.len()),
        placing(seed, hashes, buckets, pilots, s0, stack, old_pilots, old_slots, old_stack, bucket, pilot, j),
        slot == slot_of(seed, hashes[buckets[bucket].keys@[j] as int], pilot, s0.len()),
        s0[slot] is None,
        s1 == s0.update(slot, Some(Slot { bucket: bucket as usize, key: buckets[bucket].keys@[j] })),
    ensures
        placing(seed, hashes, buckets, pilots, s1, stack, old_pilots, old_slots, old_stack, bucket, pilot, j + 1),
{
    let sl = s0.len();
    let keys = buckets[bucket].keys@;
    lemma_slot_of_bound(seed, hashes[keys[j] as int], pilot, sl);
    assert(keys[j] < hashes.len());
    // The slots other than `slot` are as they were.
    assert forall|x: int| 0 <= x < sl && x != slot implies #[trigger] s1[x] == s0[x] by {}
    assert forall|i: int| 0 <= i < j + 1 implies s1[#[trigger] slot_of(
        seed,
        hashes[keys[i] as int],
        pilot,
        sl,
    )] == Some(Slot { bucket: bucket as usize, key: keys[i] }) by {
        if i < j {
            lemma_slot_of_bound(seed, hashes[keys[i] as int], pilot, sl);
        }
    }
    assert forall|x: int|
        0 <= x < sl && (#[trigger] s1[x]) is Some implies {
        let o = s1[x]->0;
        &&& o.key < hashes.len()
        &&& o.bucket < buckets.len()
        &&& bucket_of(hashes[o.key as int], buckets.len()) == o.bucket
        &&& slot_of(seed, hashes[o.key as int], pilots[o.bucket as int], sl) == x
    } by {
        if x != slot {
            assert(s0[x] is Some);
        }
    }
    assert forall|q: int|
        0 <= q < buckets.len() && q != bucket && placed(seed, hashes, buckets, pilots, s0, q)
            implies placed(seed, hashes, buckets, pilots, s1, q) by {
        lemma_placed_frame(seed, hashes, buckets, pilots, s0, s1, q);
    }
    assert forall|x: int|
        0 <= x < sl && (#[trigger] s1[x]) is Some && s1[x]->0.bucket != bucket implies placed(
        seed,
        hashes,
        buckets,
        pilots,
        s1,
        s1[x]->0.bucket as int,
    ) by {
        assert(s0[x] is Some);
        assert(placed(seed, hashes, buckets, pilots, s0, s0[x]->0.bucket as int));
    }
    assert forall|x: int|
        0 <= x < sl && (#[trigger] s1[x]) is Some && s1[x]->0.bucket == bucket implies exists|i: int|
        0 <= i < j + 1 && slot_of(seed, hashes[keys[i] as int], pilot, sl) == x by {
        if x != slot {
            assert(s0[x] is Some);
        }
    }
    assert forall|q: int| q != bucket && unplaced(s0, q) implies unplaced(s1, q) by {
        assert forall|x: int| 0 <= x < sl && (#[trigger] s1[x]) is Some implies s1[x]->0.bucket != q by {
            if x != slot {
                assert(s0[x] is Some);
            }
        }
    }
    assert forall|t: int| old_stack.len() <= t < stack.len() implies unplaced(s1, #[trigger] stack[t] as int) by {
    }
    assert forall|q: int|
        0 <= q < buckets.len() && q != bucket && placed(seed, hashes, buckets, old_pilots, old_slots, q)
            implies placed(seed, hashes, buckets, pilots, s1, q) || pushed(
            stack,
            old_stack.len() as int,
            q,
        ) by {
        if placed(seed, hashes, buckets, pilots, s0, q) {
            lemma_placed_frame(seed, hashes, buckets, pilots, s0, s1, q);
        }
    }
    assert forall|x: int|
        0 <= x < sl && (#[trigger] s1[x]) is Some && s1[x]->0.bucket != bucket implies old_slots[x]
        == s1[x] by {
        assert(s0[x] is Some);
    }
}

/// A key in a slot of `bucket`'s `j`th key belongs to another bucket, which
/// is placed and held that slot from the start.
proof fn lemma_evicted_bucket(
    seed: u64,
    hashes: Seq<u64>,
    buckets: Seq<Bucket>,
    pilots: Seq<u8>,
    s0: Seq<Option<Slot>>,
    stack: Seq<usize>,
    old_pilots: Seq<u8>,
    old_slots: Seq<Option<Slot>>,
    old_stack: Seq<usize>,
    bucket: int,
    pilot: u8,
    j: int,
    slot: int,
)
    requires
        search_shape(hashes, buckets, old_pilots, old_slots),
        0 <= bucket < buckets.len(),
        0 <= j < buckets[bucket].keys@.len(),
        distinct_slots(seed, hashes, buckets, bucket, pilot, s0.len()),
        placing(seed, hashes, buckets, pilots, s0, stack, old_pilots, old_slots, old_stack, bucket, pilot, j),
        slot == slot_of(seed, hashes[buckets[bucket].keys@[j] as int], pilot, s0.len()),
        s0[slot] is Some,
    ensures
        s0[slot]->0.bucket < buckets.len(),
        s0[slot]->0.bucket != bucket,
        placed(seed, hashes, buckets, pilots, s0, s0[slot]->0.bucket as int),
        !unplaced(old_slots, s0[slot]->0.bucket as int),
        old_slots[slot] == s0[slot],
{
    let sl = s0.len();
    let keys = buckets[bucket].keys@;
    lemma_slot_of_bound(seed, hashes[keys[j] as int], pilot, sl);
    if s0[slot]->0.bucket == bucket {
        let i = choose|i: int| 0 <= i < j && slot_of(seed, hashes[keys[i] as int], pilot, sl) == slot;
        assert(false);
    }
    assert(old_slots[slot] == s0[slot]);
    assert(old_slots[slot] is Some);
}

/// Putting a key of `bucket` in a slot that another bucket held, and
/// emptying that bucket's other slots, keeps the placing state with the
/// evicted bucket pushed.
proof fn lemma_evict_step(
    seed: u64,
    hashes: Seq<u64>,
    buckets: Seq<Bucket>,
    pilots: Seq<u8>,
    s0: Seq<Option<Slot>>,
    s2: Seq<Option<Slot>>,
    st0: Seq<usize>,
    st2: Seq<usize>,
    old_pilots: Seq<u8>,
    old_slots: Seq<Option<Slot>>,
    old_stack: Seq<usize>,
    bucket: int,
    pilot: u8,
    j: int,
    slot: int,
)
    requires
        search_shape(hashes, buckets, old_pilots, old_slots),
        0 <= bucket < buckets.len(),
        0 <= j < buckets[bucket].keys@.len(),
        distinct_slots(seed, hashes, buckets, bucket, pilot, s0.len()),
        placing(seed, hashes, buckets, pilots, s0, st0, old_pilots, old_slots, old_stack, bucket, pilot, j),
        slot == slot_of(seed, hashes[buckets[bucket].keys@[j] as int], pilot, s0.len()),
        s0[slot] is Some,
        st2 == st0.push(s0[slot]->0.bucket),
        s2.len() == s0.len(),
        forall|x: int|
            0 <= x < s0.len() ==> #[trigger] s2[x] == (if x != slot && bucket_slot(
                seed,
                hashes,
                buckets,
                s0[slot]->0.bucket as int,
                pilots[s0[slot]->0.bucket as int],
                x,
                s0.len(),
            ) {
                None
            } else {
                s0.update(
                    slot,
                    Some(Slot { bucket: bucket as usize, key: buckets[bucket].keys@[j] }),
                )[x]
            }),
    ensures
        placing(seed, hashes, buckets, pilots, s2, st2, old_pilots, old_slots, old_stack, bucket, pilot, j + 1),
{
    let sl = s0.len();
    let keys = buckets[bucket].keys@;
    let p = s0[slot]->0.bucket as int;
    let pp = pilots[p];
    let new = Some(Slot { bucket: bucket as usize, key: keys[j] });
    lemma_evicted_bucket(
        seed,
        hashes,
        buckets,
        pilots,
        s0,
        st0,
        old_pilots,
        old_slots,
        old_stack,
        bucket,
        pilot,
        j,
        slot,
    );
    lemma_slot_of_bound(seed, hashes[keys[j] as int], pilot, sl);
    assert(keys[j] < hashes.len());
    // The slots of `p` are those that hold its keys.
    assert forall|x: int| 0 <= x < sl && (#[trigger] s0[x]) is Some && s0[x]->0.bucket == p implies bucket_slot(
        seed,
        hashes,
        buckets,
        p,
        pp,
        x,
        sl,
    ) by {
        let k = s0[x]->0.key;
        assert(buckets[p].keys@.contains(k));
        let m = choose|m: int| 0 <= m < buckets[p].keys@.len() && buckets[p].keys@[m] == k;
        assert(slot_of(seed, hashes[buckets[p].keys@[m] as int], pp, sl) == x);
    }
    assert forall|x: int| 0 <= x < sl && bucket_slot(seed, hashes, buckets, p, pp, x, sl) implies (
    #[trigger] s0[x]) is Some && s0[x]->0.bucket == p by {
        let m = choose|m: int|
            0 <= m < buckets[p].keys@.len() && #[trigger] slot_of(
                seed,
                hashes[buckets[p].keys@[m] as int],
                pp,
                sl,
            ) == x;
        assert(key_slot(seed, hashes, buckets, pilots, p, m, sl) == x);
    }
    // A slot that holds a key of a bucket other than `p` keeps it, but for `slot`.
    assert forall|x: int|
        0 <= x < sl && x != slot && (#[trigger] s0[x]) is Some && s0[x]->0.bucket != p implies s2[x]
        == s0[x] by {
        assert(!bucket_slot(seed, hashes, buckets, p, pp, x, sl));
    }
    // Every slot of `s2` is empty, the new one, or as it was.
    assert forall|x: int| 0 <= x < sl && (#[trigger] s2[x]) is Some && x != slot implies s2[x] == s0[x]
        && s0[x]->0.bucket != p by {
        if bucket_slot(seed, hashes, buckets, p, pp, x, sl) {
        }
    }
    assert(s2[slot] == new);
    assert forall|i: int| 0 <= i < j + 1 implies s2[#[trigger] slot_of(
        seed,
        hashes[keys[i] as int],
        pilot,
        sl,
    )] == Some(Slot { bucket: bucket as usize, key: keys[i] }) by {
        if i < j {
            let x = slot_of(seed, hashes[keys[i] as int], pilot, sl);
            lemma_slot_of_bound(seed, hashes[keys[i] as int], pilot, sl);
            assert(x != slot);
            assert(s0[x] == Some(Slot { bucket: bucket as usize, key: keys[i] }));
        }
    }
    assert forall|x: int|
        0 <= x < sl && (#[trigger] s2[x]) is Some implies {
        let o = s2[x]->0;
        &&& o.key < hashes.len()
        &&& o.bucket < buckets.len()
        &&& bucket_of(hashes[o.key as int], buckets.len()) == o.bucket
        &&& slot_of(seed, hashes[o.key as int], pilots[o.bucket as int], sl) == x
    } by {
        if x != slot {
            assert(s0[x] is Some);
        }
    }
    assert forall|q: int|
        0 <= q < buckets.len() && q != bucket && q != p && placed(seed, hashes, buckets, pilots, s0, q)
            implies placed(seed, hashes, buckets, pilots, s2, q) by {
        assert forall|x: int|
            0 <= x < sl && (#[trigger] s0[x]) is Some && s0[x]->0.bucket == q implies s2[x] == s0[x] by {
        }
        lemma_placed_frame(seed, hashes, buckets, pilots, s0, s2, q);
    }
    assert forall|x: int|
        0 <= x < sl && (#[trigger] s2[x]) is Some && s2[x]->0.bucket != bucket implies placed(
        seed,
        hashes,
        buckets,
        pilots,
        s2,
        s2[x]->0.bucket as int,
    ) by {
        assert(s0[x] is Some);
        assert(placed(seed, hashes, buckets, pilots, s0, s0[x]->0.bucket as int));
    }
    assert forall|x: int|
        0 <= x < sl && (#[trigger] s2[x]) is Some && s2[x]->0.bucket == bucket implies exists|i: int|
        0 <= i < j + 1 && slot_of(seed, hashes[keys[i] as int], pilot, sl) == x by {
        if x != slot {
            assert(s0[x] is Some);
        }
    }
    assert(unplaced(s2, p));
    assert forall|q: int| q != bucket && unplaced(s0, q) implies unplaced(s2, q) by {
        assert forall|x: int| 0 <= x < sl && (#[trigger] s2[x]) is Some implies s2[x]->0.bucket != q by {
            if x != slot {
                assert(s0[x] is Some);
            }
        }
    }
    assert(st2.take(old_stack.len() as int) =~= old_stack) by {
        assert(st0.take(old_stack.len() as int) == old_stack);
    }
    assert forall|t: int| old_stack.len() <= t < st2.len() implies {
        &&& (#[trigger] st2[t]) < buckets.len()
        &&& st2[t] != bucket
        &&& unplaced(s2, st2[t] as int)
        &&& !unplaced(old_slots, st2[t] as int)
    } by {
        if t < st0.len() {
            assert(st2[t] == st0[t]);
        }
    }
    assert forall|t: int, u: int|
        old_stack.len() <= t < st2.len() && old_stack.len() <= u < st2.len() && t != u
            implies #[trigger] st2[t] != #[trigger] st2[u] by {
        if t == st0.len() && u < st0.len() {
            assert(unplaced(s0, st0[u] as int));
            assert(!unplaced(s0, p));
        } else if u == st0.len() && t < st0.len() {
            assert(unplaced(s0, st0[t] as int));
            assert(!unplaced(s0, p));
        } else if t < st0.len() && u < st0.len() {
            assert(st2[t] == st0[t]);
            assert(st2[u] == st0[u]);
        }
    }
    assert forall|q: int|
        0 <= q < buckets.len() && q != bucket && placed(seed, hashes, buckets, old_pilots, old_slots, q)
            implies placed(seed, hashes, buckets, pilots, s2, q) || pushed(st2, old_stack.len() as int, q) by {
        if q == p {
            assert(st2[st0.len() as int] == p);
        } else if placed(seed, hashes, buckets, pilots, s0, q) {
        } else {
            assert(pushed(st0, old_stack.len() as int, q));
            let t = choose|t: int| old_stack.len() <= t < st0.len() && st0[t] == q;
            assert(st2[t] == st0[t]);
            assert(pushed(st2, old_stack.len() as int, q));
        }
    }
    assert forall|x: int|
        0 <= x < sl && (#[trigger] s2[x]) is Some && s2[x]->0.bucket != bucket implies old_slots[x]
        == s2[x] by {
        assert(s0[x] is Some);
    }
}

/// Every slot that holds a key names a bucket below `bl`.
pub open spec fn occupants_known(slots: Seq<Option<Slot>>, bl: nat) -> bool {
    forall|s: int| 0 <= s < slots.len() && (#[trigger] slots[s]) is Some ==> slots[s]->0.bucket < bl
}

/// Distinct numbers below `n` that leave out one of them are fewer than `n`.
proof fn lemma_short_of_all(v: Seq<usize>, n: nat, missing: usize)
    requires
        forall|t: int| 0 <= t < v.len() ==> #[trigger] v[t] < n,
        forall|t: int, u: int| 0 <= t < v.len() && 0 <= u < v.len() && t != u ==> #[trigger] v[t] != #[trigger] v[u],
        missing < n,
        !v.contains(missing),
    ensures
        v.len() < n,
{
    if v.len() >= n {
        let o = Seq::new(n, |t: int| v[t] as int);
        crate::generator::lemma_distinct_covers(o, n);
        assert(crate::generator::takes(o, missing as int));
        let t = choose|t: int| 0 <= t < o.len() && o[t] == missing as int;
        assert(v[t] == missing);
    }
}

/// Whether `b` is listed in `v`.
fn listed_in(v: &Vec<usize>, b: usize) -> (r: bool)
    ensures
        r == v@.contains(b),
{
    let mut i: usize = 0;
    while i < v.len()
        invariant
            i <= v@.len(),
            forall|k: int| 0 <= k < i ==> v@[k] != b,
        decreases v@.len() - i,
    {
        if v[i] == b {
            assert(v@[i as int] == b);
            return true;
        }
        i = i + 1;
    }
    false
}

/// The square of the number of keys of bucket `b`.
fn squared_len(buckets: &Vec<Bucket>, b: usize) -> (r: u128)
    requires
        b < buckets@.len(),
    ensures
        r == buckets@[b as int].keys@.len() * buckets@[b as int].keys@.len(),
{
    let n = buckets[b].keys.len() as u128;
    proof {
        assert(n * n <= 0xffff_ffff_ffff_ffffu128 * 0xffff_ffff_ffff_ffffu128) by (nonlinear_arith)
            requires
                n <= 0xffff_ffff_ffff_ffffu128,
        ;
    }
    n * n
}

/// The slot that the pilot `pilot` gives the `i`th key of bucket `b`.
pub open spec fn trial_slot(seed: u64, hashes: Seq<u64>, buckets: Seq<Bucket>, b: int, pilot: u8, sl: nat, i: int) -> int {
    slot_of(seed, hashes[buckets[b].keys@[i] as int], pilot, sl)
}

/// The buckets that the first `j` keys of bucket `b` would evict under the
/// pilot `pilot`, each listed once in the order first met, and the sum of
/// their squared sizes.
pub open spec fn evictions(
    seed: u64,
    hashes: Seq<u64>,
    buckets: Seq<Bucket>,
    b: int,
    pilot: u8,
    slots: Seq<Option<Slot>>,
    j: int,
) -> (Seq<usize>, int)
    decreases j,
{
    if j <= 0 {
        (Seq::empty(), 0)
    } else {
        let (met, total) = evictions(seed, hashes, buckets, b, pilot, slots, j - 1);
        let occupant = slots[trial_slot(seed, hashes, buckets, b, pilot, slots.len(), j - 1)];
        if occupant is Some && !met.contains(occupant->0.bucket) {
            let size = buckets[occupant->0.bucket as int].keys@.len();
            (met.push(occupant->0.bucket), total + size * size)
        } else {
            (met, total)
        }
    }
}

/// The score of the pilot `pilot` for bucket `b`: the sum of the squared
/// sizes of the buckets it would evict, capped at `u128::MAX`.
pub open spec fn pilot_score(seed: u64, hashes: Seq<u64>, buckets: Seq<Bucket>, b: int, pilot: u8, slots: Seq<Option<Slot>>) -> int {
    let total = evictions(seed, hashes, buckets, b, pilot, slots, buckets[b].keys@.len() as int).1;
    if total < u128::MAX {
        total
    } else {
        u128::MAX as int
    }
}

/// Some key of bucket `b` would, under the pilot `pilot`, evict a bucket
/// listed in `recent`.
pub open spec fn hits_recent(
    seed: u64,
    hashes: Seq<u64>,
    buckets: Seq<Bucket>,
    b: int,
    pilot: u8,
    slots: Seq<Option<Slot>>,
    recent: Seq<usize>,
) -> bool {
    exists|i: int|
        0 <= i < buckets[b].keys@.len() && slots[#[trigger] trial_slot(seed, hashes, buckets, b, pilot, slots.len(), i)] is Some
            && recent.contains(slots[trial_slot(seed, hashes, buckets, b, pilot, slots.len(), i)]->0.bucket)
}

/// The pilot `pilot` keeps the keys of bucket `b` apart and evicts no
/// bucket of `recent`.
pub open spec fn admissible(
    seed: u64,
    hashes: Seq<u64>,
    buckets: Seq<Bucket>,
    b: int,
    pilot: u8,
    slots: Seq<Option<Slot>>,
    recent: Seq<usize>,
) -> bool {
    distinct_slots(seed, hashes, buckets, b, pilot, slots.len()) && !hits_recent(
        seed,
        hashes,
        buckets,
        b,
        pilot,
        slots,
        recent,
    )
}

/// The running sum of the evictions never decreases.
proof fn lemma_evictions_grow(
    seed: u64,
    hashes: Seq<u64>,
    buckets: Seq<Bucket>,
    b: int,
    pilot: u8,
    slots: Seq<Option<Slot>>,
    i: int,
    j: int,
)
    requires
        0 <= i <= j,
    ensures
        0 <= evictions(seed, hashes, buckets, b, pilot, slots, i).1 <= evictions(seed, hashes, buckets, b, pilot, slots, j).1,
    decreases j - i,
{
    if i < j {
        lemma_evictions_grow(seed, hashes, buckets, b, pilot, slots, i, j - 1);
        let (met, total) = evictions(seed, hashes, buckets, b, pilot, slots, j - 1);
        let occupant = slots[trial_slot(seed, hashes, buckets, b, pilot, slots.len(), j - 1)];
        if occupant is Some && !met.contains(occupant->0.bucket) {
            let size = buckets[occupant->0.bucket as int].keys@.len();
            assert(size * size >= 0) by (nonlinear_arith);
        }
    } else {
        lemma_evictions_nonneg(seed, hashes, buckets, b, pilot, slots, i);
    }
}

proof fn lemma_evictions_nonneg(
    seed: u64,
    hashes: Seq<u64>,
    buckets: Seq<Bucket>,
    b: int,
    pilot: u8,
    slots: Seq<Option<Slot>>,
    j: int,
)
    ensures
        0 <= evictions(seed, hashes, buckets, b, pilot, slots, j).1,
    decreases j,
{
    if j > 0 {
        lemma_evictions_nonneg(seed, hashes, buckets, b, pilot, slots, j - 1);
        let (met, total) = evictions(seed, hashes, buckets, b, pilot, slots, j - 1);
        let occupant = slots[trial_slot(seed, hashes, buckets, b, pilot, slots.len(), j - 1)];
        if occupant is Some && !met.contains(occupant->0.bucket) {
            let size = buckets[occupant->0.bucket as int].keys@.len();
            assert(size * size >= 0) by (nonlinear_arith);
        }
    }
}

/// Scores the pilot `pilot` for `bucket`: the sum of the squared sizes of
/// the buckets it would evict, each counted once. `None` when two keys of
/// `bucket` meet in a slot, when a bucket of `recent` would be evicted, or
/// when the score reaches `bound`.
fn score_pilot(
    buckets: &Vec<Bucket>,
    slots: &Vec<Option<Slot>>,
    values_to_add: &mut Vec<(u32, usize)>,
    already_scored: &mut Vec<usize>,
    recent: &Vec<usize>,
    hashes: &[u64],
    seed: u64,
    bucket: usize,
    pilot: u8,
    bound: Option<u128>,
) -> (r: Option<u128>)
    requires
        keys_listed(hashes@, buckets@),
        0 < slots@.len() <= u32::MAX,
        bucket < buckets@.len(),
        occupants_known(slots@, buckets@.len()),
    ensures
        r is Some ==> distinct_slots(seed, hashes@, buckets@, bucket as int, pilot, slots@.len()),
        r is Some <==> admissible(seed, hashes@, buckets@, bucket as int, pilot, slots@, recent@) && !(bound matches Some(
            l,
        ) && buckets@[bucket as int].keys@.len() > 0 && pilot_score(seed, hashes@, buckets@, bucket as int, pilot, slots@) >= l),
        r matches Some(sc) ==> sc == pilot_score(seed, hashes@, buckets@, bucket as int, pilot, slots@),
{
    let ghost sl = slots@.len();
    let ghost keys = buckets@[bucket as int].keys@;
    let pilot_hash = hash_pilot(seed, pilot);
    let slots_len = slots.len() as u32;
    let mut score: u128 = 0;
    values_to_add.clear();
    already_scored.clear();
    let mut j: usize = 0;
    while j < buckets[bucket].keys.len()
        invariant
            j <= keys.len(),
            keys == buckets@[bucket as int].keys@,
            bucket < buckets@.len(),
            keys_listed(hashes@, buckets@),
            occupants_known(slots@, buckets@.len()),
            sl == slots@.len(),
            0 < sl <= u32::MAX,
            slots_len == sl,
            pilot_hash == spec_hash_pilot(seed, pilot),
            values_to_add@.len() == j,
            forall|i: int|
                0 <= i < j ==> #[trigger] values_to_add@[i] == (
                    slot_of(seed, hashes@[keys[i] as int], pilot, sl) as u32,
                    keys[i],
                ),
            forall|i: int, k: int|
                0 <= i < j && 0 <= k < j && i != k ==> (#[trigger] values_to_add@[i]).0
                    != (#[trigger] values_to_add@[k]).0,
            already_scored@ == evictions(seed, hashes@, buckets@, bucket as int, pilot, slots@, j as int).0,
            score as int == (if evictions(seed, hashes@, buckets@, bucket as int, pilot, slots@, j as int).1 < u128::MAX {
                evictions(seed, hashes@, buckets@, bucket as int, pilot, slots@, j as int).1
            } else {
                u128::MAX as int
            }),
            forall|i: int|
                0 <= i < j ==> !(slots@[#[trigger] trial_slot(seed, hashes@, buckets@, bucket as int, pilot, sl, i)] is Some
                    && recent@.contains(slots@[trial_slot(seed, hashes@, buckets@, bucket as int, pilot, sl, i)]->0.bucket)),
            j > 0 ==> !(bound matches Some(l) && score >= l),
        decreases keys.len() - j,
    {
        let key = buckets[bucket].keys[j];
        proof {
            assert(buckets@[bucket as int].keys@[j as int] == key);
            lemma_slot_of_bound(seed, hashes@[key as int], pilot, sl);
            lemma_evictions_nonneg(seed, hashes@, buckets@, bucket as int, pilot, slots@, j as int);
        }
        let slot = slot_index(hashes[key], pilot_hash, slots_len);
        let ghost ts = trial_slot(seed, hashes@, buckets@, bucket as int, pilot, sl, j as int);
        proof {
            assert(slot as int == ts);
        }
        if seen_slot(values_to_add, slot) {
            proof {
                let i = choose|i: int| 0 <= i < values_to_add@.len() && (#[trigger] values_to_add@[i]).0 == slot;
                lemma_slot_of_bound(seed, hashes@[keys[i] as int], pilot, sl);
                assert(slot_of(seed, hashes@[keys[i] as int], pilot, sl) == slot_of(seed, hashes@[keys[j as int] as int], pilot, sl));
                assert(!distinct_slots(seed, hashes@, buckets@, bucket as int, pilot, sl));
            }
            return None;
        }
        let ghost ev = evictions(seed, hashes@, buckets@, bucket as int, pilot, slots@, j as int);
        let extra: u128 = match slots[slot as usize] {
            None => 0,
            Some(occupant) => {
                if listed_in(recent, occupant.bucket) {
                    proof {
                        assert(slots@[trial_slot(seed, hashes@, buckets@, bucket as int, pilot, sl, j as int)] is Some);
                        assert(hits_recent(seed, hashes@, buckets@, bucket as int, pilot, slots@, recent@));
                    }
                    return None;
                }
                if !listed_in(already_scored, occupant.bucket) {
                    already_scored.push(occupant.bucket);
                    squared_len(buckets, occupant.bucket)
                } else {
                    0
                }
            },
        };
        proof {
            assert(already_scored@ == evictions(seed, hashes@, buckets@, bucket as int, pilot, slots@, j + 1).0);
            assert(extra + ev.1 == evictions(seed, hashes@, buckets@, bucket as int, pilot, slots@, j + 1).1);
        }
        values_to_add.push((slot, key));
        score = score.saturating_add(extra);
        match bound {
            Some(limit) => {
                if score >= limit {
                    proof {
                        lemma_evictions_grow(seed, hashes@, buckets@, bucket as int, pilot, slots@, j + 1, keys.len() as int);
                    }
                    return None;
                }
            },
            None => {},
        }
        j = j + 1;
    }
    proof {
        assert forall|i: int, k: int|
            0 <= i < keys.len() && 0 <= k < keys.len() && i != k implies slot_of(
            seed,
            hashes@[keys[i] as int],
            pilot,
            sl,
        ) != slot_of(seed, hashes@[keys[k] as int], pilot, sl) by {
            lemma_slot_of_bound(seed, hashes@[keys[i] as int], pilot, sl);
            lemma_slot_of_bound(seed, hashes@[keys[k] as int], pilot, sl);
            assert(values_to_add@[i].0 != values_to_add@[k].0);
        }
    }
    Some(score)
}

/// No pilot is admissible for bucket `b`.
pub open spec fn no_pilot(seed: u64, hashes: Seq<u64>, buckets: Seq<Bucket>, b: int, slots: Seq<Option<Slot>>, recent: Seq<usize>) -> bool {
    forall|p: u8| !#[trigger] admissible(seed, hashes, buckets, b, p, slots, recent)
}

/// The pilot tried at `offset`: `0x42` on, wrapping past `0xff`.
pub open spec fn pilot_at(offset: int) -> u8 {
    if offset + 0x42 > 0xff {
        (offset + 0x42 - 256) as u8
    } else {
        (offset + 0x42) as u8
    }
}

/// The pilot tried at `offset` is admissible for bucket `b`.
pub open spec fn ok_at(
    seed: u64,
    hashes: Seq<u64>,
    buckets: Seq<Bucket>,
    b: int,
    slots: Seq<Option<Slot>>,
    recent: Seq<usize>,
    offset: int,
) -> bool {
    admissible(seed, hashes, buckets, b, pilot_at(offset), slots, recent)
}

/// The score of the pilot tried at `offset`.
pub open spec fn cost_at(seed: u64, hashes: Seq<u64>, buckets: Seq<Bucket>, b: int, slots: Seq<Option<Slot>>, offset: int) -> int {
    pilot_score(seed, hashes, buckets, b, pilot_at(offset), slots)
}

/// Picks a pilot for `bucket` when none sends its keys to free slots only:
/// of the pilots that keep its keys apart and evict no bucket of `recent`,
/// the first with the lowest score, tried from `0x42` on; the search stops
/// early at a pilot whose score is the square of the bucket's size.
fn best_pilot(
    buckets: &Vec<Bucket>,
    slots: &Vec<Option<Slot>>,
    values_to_add: &mut Vec<(u32, usize)>,
    already_scored: &mut Vec<usize>,
    recent: &Vec<usize>,
    hashes: &[u64],
    seed: u64,
    bucket: usize,
) -> (r: Option<u8>)
    requires
        keys_listed(hashes@, buckets@),
        0 < slots@.len() <= u32::MAX,
        bucket < buckets@.len(),
        occupants_known(slots@, buckets@.len()),
    ensures
        r matches Some(p) ==> distinct_slots(seed, hashes@, buckets@, bucket as int, p, slots@.len()),
        r is None <==> forall|o: int| 0 <= o < 256 ==> !#[trigger] ok_at(seed, hashes@, buckets@, bucket as int, slots@, recent@, o),
        r is None ==> forall|p: u8| !#[trigger] admissible(seed, hashes@, buckets@, bucket as int, p, slots@, recent@),
        r matches Some(p) ==> exists|op: int| {
            &&& 0 <= op < 256
            &&& p == pilot_at(op)
            &&& #[trigger] ok_at(seed, hashes@, buckets@, bucket as int, slots@, recent@, op)
            &&& forall|o: int|
                0 <= o < op && #[trigger] ok_at(seed, hashes@, buckets@, bucket as int, slots@, recent@, o) ==> cost_at(
                    seed,
                    hashes@,
                    buckets@,
                    bucket as int,
                    slots@,
                    o,
                ) > cost_at(seed, hashes@, buckets@, bucket as int, slots@, op)
            &&& forall|o: int|
                op < o < 256 && #[trigger] ok_at(seed, hashes@, buckets@, bucket as int, slots@, recent@, o) ==> cost_at(
                    seed,
                    hashes@,
                    buckets@,
                    bucket as int,
                    slots@,
                    o,
                ) >= cost_at(seed, hashes@, buckets@, bucket as int, slots@, op) || cost_at(
                    seed,
                    hashes@,
                    buckets@,
                    bucket as int,
                    slots@,
                    op,
                ) == buckets@[bucket as int].keys@.len() * buckets@[bucket as int].keys@.len()
        },
{
    let ghost hs = hashes@;
    let ghost bs = buckets@;
    let ghost sls = slots@;
    let ghost rc = recent@;
    let ghost b = bucket as int;
    let full = squared_len(buckets, bucket);
    let mut best: Option<(u128, u8)> = None;
    let mut offset: u16 = 0;
    proof {
        assert(evictions(seed, hs, bs, b, pilot_at(0), sls, 0).1 == 0);
    }
    while offset < 256
        invariant_except_break
            keys_listed(hashes@, buckets@),
            0 < slots@.len() <= u32::MAX,
            bucket < buckets@.len(),
            occupants_known(slots@, buckets@.len()),
            hs == hashes@,
            bs == buckets@,
            sls == slots@,
            rc == recent@,
            b == bucket as int,
            full == bs[b].keys@.len() * bs[b].keys@.len(),
            best matches Some(x) ==> distinct_slots(seed, hashes@, buckets@, bucket as int, x.1, slots@.len()),
            offset <= 256,
            best is None <==> forall|o: int| 0 <= o < offset ==> !#[trigger] ok_at(seed, hs, bs, b, sls, rc, o),
            best matches Some(x) ==> x.0 != full,
            best matches Some(x) ==> exists|op: int| {
                &&& 0 <= op < offset
                &&& x.1 == pilot_at(op)
                &&& #[trigger] ok_at(seed, hs, bs, b, sls, rc, op)
                &&& x.0 == cost_at(seed, hs, bs, b, sls, op)
                &&& forall|o: int| 0 <= o < op && #[trigger] ok_at(seed, hs, bs, b, sls, rc, o) ==> cost_at(seed, hs, bs, b, sls, o) > x.0
                &&& forall|o: int| op < o < offset && #[trigger] ok_at(seed, hs, bs, b, sls, rc, o) ==> cost_at(seed, hs, bs, b, sls, o) >= x.0
            },
        ensures
            best matches Some(x) ==> distinct_slots(seed, hashes@, buckets@, bucket as int, x.1, slots@.len()),
            best is None <==> forall|o: int| 0 <= o < 256 ==> !#[trigger] ok_at(seed, hs, bs, b, sls, rc, o),
            best matches Some(x) ==> exists|op: int| {
                &&& 0 <= op < 256
                &&& x.1 == pilot_at(op)
                &&& #[trigger] ok_at(seed, hs, bs, b, sls, rc, op)
                &&& x.0 == cost_at(seed, hs, bs, b, sls, op)
                &&& forall|o: int| 0 <= o < op && #[trigger] ok_at(seed, hs, bs, b, sls, rc, o) ==> cost_at(seed, hs, bs, b, sls, o) > x.0
                &&& forall|o: int| op < o < 256 && #[trigger] ok_at(seed, hs, bs, b, sls, rc, o) ==> cost_at(seed, hs, bs, b, sls, o) >= x.0 || x.0 == full
            },
        decreases 256 - offset,
    {
        let pilot = (offset as u8).wrapping_add(0x42);
        let bound = match best {
            Some(b) => Some(b.0),
            None => None,
        };
        match score_pilot(
            buckets,
            slots,
            values_to_add,
            already_scored,
            recent,
            hashes,
            seed,
            bucket,
            pilot,
            bound,
        ) {
            Some(score) => {
                proof {
                    assert(pilot == pilot_at(offset as int));
                    assert(ok_at(seed, hs, bs, b, sls, rc, offset as int));
                    if bs[b].keys@.len() == 0 {
                        assert(evictions(seed, hs, bs, b, pilot, sls, 0).1 == 0);
                        assert(score == 0);
                    }
                }
                best = Some((score, pilot));
                if score == full {
                    break;
                }
            },
            None => {
                proof {
                    assert(pilot == pilot_at(offset as int));
                }
            },
        }
        offset = offset + 1;
    }
    match best {
        Some(x) => Some(x.1),
        None => {
            proof {
                assert forall|p: u8| !#[trigger] admissible(seed, hashes@, buckets@, bucket as int, p, slots@, recent@) by {
                    let o: int = if p >= 0x42 { p - 0x42 } else { p + 256 - 0x42 };
                    assert(pilot_at(o) == p);
                    assert(!ok_at(seed, hs, bs, b, sls, rc, o));
                }
            }
            None
        },
    }
}

/// Takes from `stack` a bucket with the most keys (the last such).
fn pop_largest(buckets: &Vec<Bucket>, stack: &mut Vec<usize>) -> (b: usize)
    requires
        old(stack)@.len() > 0,
        forall|t: int| 0 <= t < old(stack)@.len() ==> #[trigger] old(stack)@[t] < buckets@.len(),
    ensures
        exists|t: int|
            0 <= t < old(stack)@.len() && b == old(stack)@[t] && final(stack)@ == old(stack)@.remove(t),
        forall|t: int|
            0 <= t < old(stack)@.len() ==> buckets@[#[trigger] old(stack)@[t] as int].keys@.len()
                <= buckets@[b as int].keys@.len(),
{
    let mut best: usize = 0;
    let mut i: usize = 1;
    while i < stack.len()
        invariant
            0 < stack@.len(),
            stack@ == old(stack)@,
            forall|t: int| 0 <= t < stack@.len() ==> #[trigger] stack@[t] < buckets@.len(),
            best < i <= stack@.len(),
            forall|t: int|
                0 <= t < i ==> buckets@[#[trigger] stack@[t] as int].keys@.len() <= buckets@[stack@[best as int] as int].keys@.len(),
        decreases stack@.len() - i,
    {
        if buckets[stack[i]].keys.len() >= buckets[stack[best]].keys.len() {
            best = i;
        }
        i = i + 1;
    }
    let ghost s0 = stack@;
    let b = stack.remove(best);
    proof {
        assert(b == s0[best as int]);
    }
    b
}

/// The search between two placements: the slots agree with the pilots, and
/// every bucket with a key in a slot has all its keys in their slots.
pub open spec fn settled(seed: u64, hashes: Seq<u64>, buckets: Seq<Bucket>, pilots: Seq<u8>, slots: Seq<Option<Slot>>) -> bool {
    &&& search_shape(hashes, buckets, pilots, slots)
    &&& consistent(seed, hashes, buckets, pilots, slots)
    &&& occupants_placed(seed, hashes, buckets, pilots, slots, -1)
}

/// The buckets on `stack` differ, lie below `bl`, and have no key in a slot.
pub open spec fn stack_unplaced(stack: Seq<usize>, bl: nat, slots: Seq<Option<Slot>>) -> bool {
    &&& forall|t: int|
        0 <= t < stack.len() ==> (#[trigger] stack[t]) < bl && unplaced(slots, stack[t] as int)
    &&& forall|t: int, u: int|
        0 <= t < stack.len() && 0 <= u < stack.len() && t != u ==> #[trigger] stack[t]
            != #[trigger] stack[u]
}

/// What placing `bucket` from `(p0, s0)` to `(p1, s1)` keeps and gives.
pub open spec fn placed_step(
    seed: u64,
    hashes: Seq<u64>,
    buckets: Seq<Bucket>,
    p0: Seq<u8>,
    s0: Seq<Option<Slot>>,
    p1: Seq<u8>,
    s1: Seq<Option<Slot>>,
    bucket: int,
) -> bool {
    &&& s1.len() == s0.len()
    &&& p1.len() == p0.len()
    &&& consistent(seed, hashes, buckets, p1, s1)
    &&& occupants_placed(seed, hashes, buckets, p1, s1, -1)
    &&& placed(seed, hashes, buckets, p1, s1, bucket)
    &&& forall|q: int|
        0 <= q < buckets.len() && q != bucket && placed(seed, hashes, buckets, p0, s0, q) ==> placed(
            seed,
            hashes,
            buckets,
            p1,
            s1,
            q,
        )
    &&& forall|q: int| q != bucket && unplaced(s0, q) ==> unplaced(s1, q)
}

/// Every bucket below `bl` that was placed in `(op, os)` or stood on `ost`
/// is placed in `(pilots, slots)` or stands on `stack`; one that was neither
/// placed nor on `ost` is still unplaced and off `stack`.
pub open spec fn covers(
    seed: u64,
    hashes: Seq<u64>,
    buckets: Seq<Bucket>,
    op: Seq<u8>,
    os: Seq<Option<Slot>>,
    ost: Seq<usize>,
    pilots: Seq<u8>,
    slots: Seq<Option<Slot>>,
    stack: Seq<usize>,
) -> bool {
    &&& forall|q: int|
        0 <= q < buckets.len() && (placed(seed, hashes, buckets, op, os, q) || ost.contains(
            q as usize,
        )) ==> placed(seed, hashes, buckets, pilots, slots, q) || stack.contains(q as usize)
    &&& forall|q: int|
        0 <= q < buckets.len() && unplaced(os, q) && !ost.contains(q as usize) ==> unplaced(slots, q)
            && !stack.contains(q as usize)
}

/// The entries of `st0` with the one at `t0` taken out.
proof fn lemma_remove_index(st0: Seq<usize>, t0: int, st1: Seq<usize>)
    requires
        0 <= t0 < st0.len(),
        st1 == st0.remove(t0),
    ensures
        st1.len() == st0.len() - 1,
        forall|i: int| 0 <= i < st1.len() ==> #[trigger] st1[i] == (if i < t0 {
            st0[i]
        } else {
            st0[i + 1]
        }),
{
}

/// Placing the bucket taken from the stack without evicting keeps the stack
/// unplaced and the coverage.
proof fn lemma_after_place(
    seed: u64,
    hashes: Seq<u64>,
    buckets: Seq<Bucket>,
    op: Seq<u8>,
    os: Seq<Option<Slot>>,
    ost: Seq<usize>,
    p0: Seq<u8>,
    s0: Seq<Option<Slot>>,
    st0: Seq<usize>,
    p1: Seq<u8>,
    s1: Seq<Option<Slot>>,
    st1: Seq<usize>,
    t0: int,
)
    requires
        buckets.len() <= u32::MAX,
        stack_unplaced(st0, buckets.len(), s0),
        covers(seed, hashes, buckets, op, os, ost, p0, s0, st0),
        0 <= t0 < st0.len(),
        st1 == st0.remove(t0),
        placed_step(seed, hashes, buckets, p0, s0, p1, s1, st0[t0] as int),
    ensures
        stack_unplaced(st1, buckets.len(), s1),
        covers(seed, hashes, buckets, op, os, ost, p1, s1, st1),
{
    let bl = buckets.len();
    let bucket = st0[t0];
    lemma_remove_index(st0, t0, st1);
    assert forall|t: int| 0 <= t < st1.len() implies (#[trigger] st1[t]) < bl && unplaced(
        s1,
        st1[t] as int,
    ) by {
        let u = if t < t0 { t } else { t + 1 };
        assert(st1[t] == st0[u]);
        assert(st0[u] != st0[t0]);
    }
    assert forall|t: int, u: int|
        0 <= t < st1.len() && 0 <= u < st1.len() && t != u implies #[trigger] st1[t]
        != #[trigger] st1[u] by {
        let t1 = if t < t0 { t } else { t + 1 };
        let u1 = if u < t0 { u } else { u + 1 };
        assert(st1[t] == st0[t1]);
        assert(st1[u] == st0[u1]);
    }
    assert forall|q: int|
        0 <= q < bl && (placed(seed, hashes, buckets, op, os, q) || ost.contains(q as usize))
            implies placed(seed, hashes, buckets, p1, s1, q) || st1.contains(q as usize) by {
        if q != bucket && !placed(seed, hashes, buckets, p0, s0, q) {
            assert(st0.contains(q as usize));
            let u = choose|u: int| 0 <= u < st0.len() && st0[u] == q as usize;
            assert(u != t0);
            let v = if u < t0 { u } else { u - 1 };
            assert(st1[v] == q as usize);
        }
    }
    assert forall|q: int|
        0 <= q < bl && unplaced(os, q) && !ost.contains(q as usize) implies unplaced(s1, q)
            && !st1.contains(q as usize) by {
        assert(unplaced(s0, q) && !st0.contains(q as usize));
        assert(q != bucket);
        if st1.contains(q as usize) {
            let v = choose|v: int| 0 <= v < st1.len() && st1[v] == q as usize;
            let u = if v < t0 { v } else { v + 1 };
            assert(st0[u] == q as usize);
        }
    }
}

/// Placing the bucket taken from the stack by evicting, which pushes the
/// evicted buckets, keeps the stack unplaced and the coverage.
proof fn lemma_after_evict(
    seed: u64,
    hashes: Seq<u64>,
    buckets: Seq<Bucket>,
    op: Seq<u8>,
    os: Seq<Option<Slot>>,
    ost: Seq<usize>,
    p0: Seq<u8>,
    s0: Seq<Option<Slot>>,
    st0: Seq<usize>,
    p1: Seq<u8>,
    s1: Seq<Option<Slot>>,
    st1: Seq<usize>,
    st2: Seq<usize>,
    t0: int,
    pilot: u8,
)
    requires
        buckets.len() <= u32::MAX,
        0 <= t0 < st0.len(),
        st0[t0] < buckets.len(),
        stack_unplaced(st0, buckets.len(), s0),
        covers(seed, hashes, buckets, op, os, ost, p0, s0, st0),
        st1 == st0.remove(t0),
        placing(
            seed,
            hashes,
            buckets,
            p1,
            s1,
            st2,
            p0,
            s0,
            st1,
            st0[t0] as int,
            pilot,
            buckets[st0[t0] as int].keys@.len() as int,
        ),
        placed(seed, hashes, buckets, p1, s1, st0[t0] as int),
    ensures
        stack_unplaced(st2, buckets.len(), s1),
        covers(seed, hashes, buckets, op, os, ost, p1, s1, st2),
{
    let bl = buckets.len();
    let bucket = st0[t0];
    lemma_remove_index(st0, t0, st1);
    let n1 = st1.len();
    assert forall|t: int| 0 <= t < n1 implies #[trigger] st2[t] == st1[t] by {
        assert(st2.take(n1 as int)[t] == st2[t]);
    }
    assert forall|t: int| 0 <= t < st2.len() implies (#[trigger] st2[t]) < bl && unplaced(
        s1,
        st2[t] as int,
    ) by {
        if t < n1 {
            let u = if t < t0 { t } else { t + 1 };
            assert(st2[t] == st0[u]);
            assert(st0[u] != st0[t0]);
        }
    }
    assert forall|t: int, u: int|
        0 <= t < st2.len() && 0 <= u < st2.len() && t != u implies #[trigger] st2[t]
        != #[trigger] st2[u] by {
        if t < n1 && u < n1 {
            let t1 = if t < t0 { t } else { t + 1 };
            let u1 = if u < t0 { u } else { u + 1 };
            assert(st2[t] == st0[t1]);
            assert(st2[u] == st0[u1]);
        } else if t < n1 {
            let t1 = if t < t0 { t } else { t + 1 };
            assert(st2[t] == st0[t1]);
            assert(unplaced(s0, st2[t] as int));
            assert(!unplaced(s0, st2[u] as int));
        } else if u < n1 {
            let u1 = if u < t0 { u } else { u + 1 };
            assert(st2[u] == st0[u1]);
            assert(unplaced(s0, st2[u] as int));
            assert(!unplaced(s0, st2[t] as int));
        }
    }
    assert forall|q: int|
        0 <= q < bl && (placed(seed, hashes, buckets, op, os, q) || ost.contains(q as usize))
            implies placed(seed, hashes, buckets, p1, s1, q) || st2.contains(q as usize) by {
        if q != bucket {
            if placed(seed, hashes, buckets, p0, s0, q) {
                if !placed(seed, hashes, buckets, p1, s1, q) {
                    assert(pushed(st2, n1 as int, q));
                    let t = choose|t: int| n1 <= t < st2.len() && st2[t] == q;
                    assert(st2[t] == q as usize);
                }
            } else {
                assert(st0.contains(q as usize));
                let u = choose|u: int| 0 <= u < st0.len() && st0[u] == q as usize;
                assert(u != t0);
                let v = if u < t0 { u } else { u - 1 };
                assert(st1[v] == q as usize);
                assert(st2[v] == q as usize);
            }
        }
    }
    assert forall|q: int|
        0 <= q < bl && unplaced(os, q) && !ost.contains(q as usize) implies unplaced(s1, q)
            && !st2.contains(q as usize) by {
        assert(unplaced(s0, q) && !st0.contains(q as usize));
        assert(q != bucket);
        if st2.contains(q as usize) {
            let v = choose|v: int| 0 <= v < st2.len() && st2[v] == q as usize;
            if v < n1 {
                let u = if v < t0 { v } else { v + 1 };
                assert(st0[u] == q as usize);
            } else {
                assert(!unplaced(s0, st2[v] as int));
            }
        }
    }
}

/// Places the buckets on `stack` and those they evict, until the stack is
/// empty. A bucket taken off the stack is not evicted again, so each
/// bucket is taken at most once. Fails exactly when a bucket finds no pilot
/// that keeps its keys apart and evicts none of the buckets taken so far.
fn settle(
    buckets: &Vec<Bucket>,
    slots: &mut Vec<Option<Slot>>,
    pilots: &mut Vec<u8>,
    stack: &mut Vec<usize>,
    recent: &mut Vec<usize>,
    values_to_add: &mut Vec<(u32, usize)>,
    already_scored: &mut Vec<usize>,
    hashes: &[u64],
    seed: u64,
) -> (ok: bool)
    requires
        settled(seed, hashes@, buckets@, old(pilots)@, old(slots)@),
        stack_unplaced(old(stack)@, buckets@.len(), old(slots)@),
        old(recent)@.len() == 0,
    ensures
        final(pilots)@.len() == old(pilots)@.len(),
        final(slots)@.len() == old(slots)@.len(),
        ok ==> settled(seed, hashes@, buckets@, final(pilots)@, final(slots)@),
        ok ==> covers(
            seed,
            hashes@,
            buckets@,
            old(pilots)@,
            old(slots)@,
            old(stack)@,
            final(pilots)@,
            final(slots)@,
            Seq::empty(),
        ),
        settled(seed, hashes@, buckets@, final(pilots)@, final(slots)@),
        !ok ==> exists|c: int|
            0 <= c < buckets@.len() && #[trigger] no_pilot(seed, hashes@, buckets@, c, final(slots)@, final(recent)@),
{
    let ghost bl = buckets@.len();
    let ghost op = pilots@;
    let ghost os = slots@;
    let ghost ost = stack@;
    while stack.len() > 0
        invariant
            bl == buckets@.len(),
            op == old(pilots)@,
            os == old(slots)@,
            ost == old(stack)@,
            settled(seed, hashes@, buckets@, pilots@, slots@),
            pilots@.len() == op.len(),
            slots@.len() == os.len(),
            stack_unplaced(stack@, bl, slots@),
            covers(seed, hashes@, buckets@, op, os, ost, pilots@, slots@, stack@),
            forall|t: int| 0 <= t < recent@.len() ==> #[trigger] recent@[t] < bl,
            forall|t: int, u: int| 0 <= t < recent@.len() && 0 <= u < recent@.len() && t != u ==> #[trigger] recent@[t] != #[trigger] recent@[u],
            forall|t: int| 0 <= t < stack@.len() ==> !recent@.contains(#[trigger] stack@[t]),
            recent@.len() <= bl,
        decreases bl - recent@.len(),
    {
        proof {
            lemma_short_of_all(recent@, bl, stack@[0]);
        }
        let ghost st0 = stack@;
        let ghost s0 = slots@;
        let ghost p0 = pilots@;
        let bucket = pop_largest(buckets, stack);
        let ghost st1 = stack@;
        let ghost t0 = choose|t: int|
            0 <= t < st0.len() && bucket == st0[t] && st1 == st0.remove(t);
        let ghost r0 = recent@;
        proof {
            assert(st0[t0] == bucket);
            assert(!r0.contains(bucket));
            assert forall|t: int| 0 <= t < st1.len() implies !r0.push(bucket).contains(#[trigger] st1[t]) by {
                let u = if t < t0 { t } else { t + 1 };
                assert(st1[t] == st0[u]);
                assert(u != t0);
                if r0.push(bucket).contains(st1[t]) {
                    let w = choose|w: int| 0 <= w < r0.push(bucket).len() && r0.push(bucket)[w] == st1[t];
                    if w < r0.len() {
                        assert(r0.contains(st0[u]));
                    }
                }
            }
            assert(unplaced(s0, bucket as int));
        }
        recent.push(bucket);
        let mut placed_now = false;
        let mut pilot: u16 = 0;
        while pilot < 256 && !placed_now
            invariant
                pilot <= 256,
                bucket < bl,
                bl == buckets@.len(),
                settled(seed, hashes@, buckets@, p0, s0),
                unplaced(s0, bucket as int),
                !placed_now ==> slots@ == s0 && pilots@ == p0,
                placed_now ==> placed_step(seed, hashes@, buckets@, p0, s0, pilots@, slots@, bucket as int),
            decreases 256 - pilot,
        {
            placed_now = try_place_bucket(
                buckets,
                slots,
                pilots,
                values_to_add,
                hashes,
                seed,
                bucket,
                pilot as u8,
            );
            pilot = pilot + 1;
        }
        if placed_now {
            proof {
                lemma_after_place(seed, hashes@, buckets@, op, os, ost, p0, s0, st0, pilots@, slots@, st1, t0);
            }
        } else {
            proof {
                assert forall|s: int| 0 <= s < slots@.len() && (#[trigger] slots@[s]) is Some implies slots@[s]->0.bucket
                    < buckets@.len() by {}
            }
            match best_pilot(buckets, slots, values_to_add, already_scored, recent, hashes, seed, bucket) {
                None => {
                    proof {
                        assert(no_pilot(seed, hashes@, buckets@, bucket as int, slots@, recent@));
                    }
                    return false;
                },
                Some(p) => {
                    let ghost rc = recent@;
                    proof {
                        let op2 = choose|op2: int| {
                            &&& 0 <= op2 < 256
                            &&& p == pilot_at(op2)
                            &&& #[trigger] ok_at(seed, hashes@, buckets@, bucket as int, slots@, recent@, op2)
                            &&& forall|o: int|
                                0 <= o < op2 && #[trigger] ok_at(seed, hashes@, buckets@, bucket as int, slots@, recent@, o) ==> cost_at(
                                    seed,
                                    hashes@,
                                    buckets@,
                                    bucket as int,
                                    slots@,
                                    o,
                                ) > cost_at(seed, hashes@, buckets@, bucket as int, slots@, op2)
                            &&& forall|o: int|
                                op2 < o < 256 && #[trigger] ok_at(seed, hashes@, buckets@, bucket as int, slots@, recent@, o) ==> cost_at(
                                    seed,
                                    hashes@,
                                    buckets@,
                                    bucket as int,
                                    slots@,
                                    o,
                                ) >= cost_at(seed, hashes@, buckets@, bucket as int, slots@, op2) || cost_at(
                                    seed,
                                    hashes@,
                                    buckets@,
                                    bucket as int,
                                    slots@,
                                    op2,
                                ) == buckets@[bucket as int].keys@.len() * buckets@[bucket as int].keys@.len()
                        };
                        assert(admissible(seed, hashes@, buckets@, bucket as int, p, slots@, recent@));
                    }
                    place_evicting(buckets, slots, pilots, stack, hashes, seed, bucket, p);
                    proof {
                        assert forall|t: int| 0 <= t < stack@.len() implies !rc.contains(#[trigger] stack@[t]) by {
                            if t < st1.len() {
                                assert(stack@.take(st1.len() as int)[t] == st1[t]);
                            } else {
                                assert(evicted_by(seed, hashes@, buckets@, bucket as int, p, s0, stack@[t]));
                                let i = choose|i: int|
                                    0 <= i < buckets@[bucket as int].keys@.len() && s0[#[trigger] trial_slot(seed, hashes@, buckets@, bucket as int, p, s0.len(), i)]
                                        is Some && s0[trial_slot(seed, hashes@, buckets@, bucket as int, p, s0.len(), i)]->0.bucket == stack@[t];
                                if rc.contains(stack@[t]) {
                                    assert(hits_recent(seed, hashes@, buckets@, bucket as int, p, s0, rc));
                                }
                            }
                        }
                        lemma_after_evict(
                            seed,
                            hashes@,
                            buckets@,
                            op,
                            os,
                            ost,
                            p0,
                            s0,
                            st0,
                            pilots@,
                            slots@,
                            st1,
                            stack@,
                            t0,
                            p,
                        );
                    }
                },
            }
        }
    }
    proof {
        assert(stack@ =~= Seq::<usize>::empty());
    }
    true
}

/// How many of the first `m` slots hold a key.
pub open spec fn count_some(slots: Seq<Option<Slot>>, m: int) -> nat
    decreases m,
{
    if m <= 0 {
        0
    } else {
        count_some(slots, m - 1) + if slots[m - 1] is Some {
            1nat
        } else {
            0nat
        }
    }
}

/// The first `m` slots that hold a key.
pub open spec fn some_set(slots: Seq<Option<Slot>>, m: int) -> Set<int> {
    Set::new(|s: int| 0 <= s < m && slots[s] is Some)
}

proof fn lemma_count_some_set(slots: Seq<Option<Slot>>, m: int)
    requires
        0 <= m,
    ensures
        some_set(slots, m).finite(),
        some_set(slots, m).len() == count_some(slots, m),
    decreases m,
{
    if m == 0 {
        assert(some_set(slots, m) =~= Set::empty());
    } else {
        lemma_count_some_set(slots, m - 1);
        if slots[m - 1] is Some {
            assert(some_set(slots, m) =~= some_set(slots, m - 1).insert(m - 1));
        } else {
            assert(some_set(slots, m) =~= some_set(slots, m - 1));
        }
    }
}

proof fn lemma_count_some_mono(slots: Seq<Option<Slot>>, a: int, b: int)
    requires
        0 <= a <= b,
    ensures
        count_some(slots, a) <= count_some(slots, b),
    decreases b - a,
{
    if a < b {
        lemma_count_some_mono(slots, a, b - 1);
    }
}

/// When every key sits in its slot and the slots agree with the pilots,
/// exactly as many slots hold a key as there are keys.
proof fn lemma_count_keys(
    seed: u64,
    hashes: Seq<u64>,
    buckets: Seq<Bucket>,
    pilots: Seq<u8>,
    slots: Seq<Option<Slot>>,
)
    requires
        search_shape(hashes, buckets, pilots, slots),
        consistent(seed, hashes, buckets, pilots, slots),
        forall|i: int|
            0 <= i < hashes.len() ==> slots[slot_of(
                seed,
                #[trigger] hashes[i],
                pilots[bucket_of(hashes[i], buckets.len())],
                slots.len(),
            )] == Some(Slot { bucket: bucket_of(hashes[i], buckets.len()) as usize, key: i as usize }),
    ensures
        count_some(slots, slots.len() as int) == hashes.len(),
{
    let n = hashes.len() as int;
    let sl = slots.len() as int;
    let x = some_set(slots, sl);
    let f = |s: int| slots[s]->0.key as int;
    let y = set_int_range(0, n);
    lemma_count_some_set(slots, sl);
    lemma_int_range(0, n);
    assert(vstd::relations::injective_on(f, x)) by {
        assert forall|s1: int, s2: int| x.contains(s1) && x.contains(s2) && f(s1) == f(s2) implies s1 == s2 by {
            assert(slots[s1] is Some && slots[s2] is Some);
        }
    }
    assert(x.map(f) =~= y) by {
        assert forall|k: int| x.map(f).contains(k) implies y.contains(k) by {
            let s = choose|s: int| x.contains(s) && f(s) == k;
            assert(slots[s] is Some);
        }
        assert forall|k: int| y.contains(k) implies x.map(f).contains(k) by {
            let b = bucket_of(hashes[k], buckets.len());
            let s = slot_of(seed, hashes[k], pilots[b], slots.len());
            lemma_fast_reduct32_bound(spec_low(hashes[k]), buckets.len() as u32);
            lemma_slot_of_bound(seed, hashes[k], pilots[b], slots.len());
            assert(slots[s] == Some(Slot { bucket: b as usize, key: k as usize }));
            assert(x.contains(s) && f(s) == k);
        }
    }
    lemma_map_size(x, y, f);
}

/// Where a lookup that lands in slot `t` reads: the slot itself below `n`,
/// else the slot that `remap` gives.
pub open spec fn table_index(remap: Seq<u32>, n: nat, t: int) -> int {
    if t < n {
        t
    } else {
        remap[t - n] as int
    }
}

/// Builds the key table and the remap table from the slots: a key in a slot
/// below `table_len` stays there; a key in a slot past it moves to the last
/// free slot below `table_len` seen so far, and the remap table records the
/// move. With as many keys as `table_len`, a free slot is always left.
fn build_tables(slots: &Vec<Option<Slot>>, table_len: usize) -> (t: (Vec<usize>, Vec<u32>))
    requires
        0 < table_len <= slots@.len() <= u32::MAX,
        count_some(slots@, slots@.len() as int) == table_len,
    ensures
        t.0@.len() == table_len,
        t.1@.len() == slots@.len() - table_len,
        forall|j: int| 0 <= j < t.1@.len() ==> #[trigger] t.1@[j] < table_len,
        forall|s: int|
            0 <= s < slots@.len() && (#[trigger] slots@[s]) is Some ==> {
                let x = table_index(t.1@, table_len as nat, s);
                0 <= x < table_len && t.0@[x] == slots@[s]->0.key
            },
{
    let ghost n = table_len as nat;
    let mut map: Vec<usize> = crate::generator::filled(0usize, table_len);
    let mut remap: Vec<u32> = crate::generator::filled(0u32, slots.len() - table_len);
    let mut free_slots: Vec<usize> = Vec::new();
    let mut s: usize = 0;
    while s < slots.len()
        invariant
            n == table_len,
            0 < table_len <= slots@.len() <= u32::MAX,
            s <= slots@.len(),
            map@.len() == n,
            remap@.len() == slots@.len() - n,
            forall|j: int| 0 <= j < remap@.len() ==> #[trigger] remap@[j] < n,
            count_some(slots@, slots@.len() as int) == n,
            free_slots@.len() + count_some(slots@, s as int) == if s < n { s as int } else { n as int },
            forall|t: int|
                0 <= t < s && (#[trigger] slots@[t]) is Some ==> {
                    let x = table_index(remap@, n, t);
                    0 <= x < n && map@[x] == slots@[t]->0.key
                },
            forall|u: int|
                0 <= u < free_slots@.len() ==> {
                    &&& (#[trigger] free_slots@[u]) < n
                    &&& free_slots@[u] < s
                    &&& slots@[free_slots@[u] as int] is None
                },
            forall|u: int, v: int|
                0 <= u < free_slots@.len() && 0 <= v < free_slots@.len() && u != v
                    ==> #[trigger] free_slots@[u] != #[trigger] free_slots@[v],
            forall|u: int, t: int|
                0 <= u < free_slots@.len() && n <= t < s && (#[trigger] slots@[t]) is Some
                    ==> #[trigger] free_slots@[u] != remap@[t - n],
        decreases slots@.len() - s,
    {
        let ghost m0 = map@;
        let ghost r0 = remap@;
        let ghost f0 = free_slots@;
        match slots[s] {
            Some(entry) => {
                if s < table_len {
                    map.set(s, entry.key);
                    proof {
                        assert forall|t: int|
                            0 <= t < s + 1 && (#[trigger] slots@[t]) is Some implies {
                            let x = table_index(remap@, n, t);
                            0 <= x < n && map@[x] == slots@[t]->0.key
                        } by {
                            if t < s {
                                assert(table_index(remap@, n, t) == t);
                            }
                        }
                    }
                } else {
                    proof {
                        lemma_count_some_mono(slots@, s + 1, slots@.len() as int);
                    }
                    let remapped = free_slots.pop().unwrap();
                    proof {
                        assert(free_slots@ == f0.drop_last());
                        assert(remapped == f0[f0.len() - 1]);
                    }
                    remap.set(s - table_len, remapped as u32);
                    map.set(remapped, entry.key);
                    proof {
                        assert forall|t: int|
                            0 <= t < s + 1 && (#[trigger] slots@[t]) is Some implies {
                            let x = table_index(remap@, n, t);
                            0 <= x < n && map@[x] == slots@[t]->0.key
                        } by {
                            if t < s {
                                let x0 = table_index(r0, n, t);
                                assert(table_index(remap@, n, t) == x0);
                                if t < n {
                                    assert(x0 != remapped);
                                } else {
                                    assert(f0[f0.len() - 1] != r0[t - n]);
                                }
                            } else {
                                assert(table_index(remap@, n, t) == remapped);
                            }
                        }
                        assert forall|u: int, t: int|
                            0 <= u < free_slots@.len() && n <= t < s + 1 && (
                            #[trigger] slots@[t]) is Some implies #[trigger] free_slots@[u]
                            != remap@[t - n] by {
                            assert(free_slots@[u] == f0[u]);
                            if t == s {
                                assert(f0[u] != f0[f0.len() - 1]);
                            } else {
                                assert(remap@[t - n] == r0[t - n]);
                            }
                        }
                    }
                }
            },
            None => {
                if s < table_len {
                    free_slots.push(s);
                    proof {
                        assert forall|u: int| 0 <= u < free_slots@.len() implies {
                            &&& (#[trigger] free_slots@[u]) < n
                            &&& free_slots@[u] < s + 1
                            &&& slots@[free_slots@[u] as int] is None
                        } by {
                            if u < f0.len() {
                                assert(free_slots@[u] == f0[u]);
                            }
                        }
                        assert forall|u: int, v: int|
                            0 <= u < free_slots@.len() && 0 <= v < free_slots@.len() && u != v
                                implies #[trigger] free_slots@[u] != #[trigger] free_slots@[v] by {
                            if u < f0.len() {
                                assert(free_slots@[u] == f0[u]);
                            }
                            if v < f0.len() {
                                assert(free_slots@[v] == f0[v]);
                            }
                        }
                    }
                }
            },
        }
        s = s + 1;
    }
    (map, remap)
}

/// A solved PtrHash table: the seed, a pilot per bucket, where each slot
/// past the keys is sent back, and for each index the key it holds.
pub struct HashState {
    pub seed: u64,
    pub pilots: Vec<u8>,
    pub remap: Vec<u32>,
    pub map: Vec<usize>,
}

/// The lookup of each of `hashes`, with `seed`, `pilots` and `remap`, reads
/// an index of `map` that holds the key's own index; the tables fit the
/// lookup.
pub open spec fn ptr_is_perfect(
    seed: u64,
    hashes: Seq<u64>,
    pilots: Seq<u8>,
    remap: Seq<u32>,
    map: Seq<usize>,
) -> bool {
    &&& map.len() == hashes.len()
    &&& hashes.len() > 0 ==> 0 < pilots.len() <= u32::MAX && map.len() + remap.len() <= u32::MAX
    &&& forall|i: int|
        0 <= i < hashes.len() ==> {
            let x = spec_get_index(seed, #[trigger] hashes[i], pilots, remap, map.len()) as int;
            x < map.len() && map[x] == i
        }
}

/// `0, 1, ..., n - 1`.
fn indices(n: usize) -> (v: Vec<usize>)
    ensures
        v@.len() == n,
        forall|i: int| 0 <= i < n ==> #[trigger] v@[i] == i,
{
    let mut v: Vec<usize> = Vec::new();
    let mut i: usize = 0;
    while i < n
        invariant
            i <= n,
            v@.len() == i,
            forall|j: int| 0 <= j < i ==> #[trigger] v@[j] == j,
        decreases n - i,
    {
        v.push(i);
        i = i + 1;
    }
    v
}

/// The search under `seed` is stuck: the buckets list the keys, the slots
/// and pilots hold a consistent partial placement, and bucket `c` has no
/// pilot that keeps its keys apart and evicts none of the buckets `recent`.
pub open spec fn ptr_stuck(
    seed: u64,
    hashes: Seq<u64>,
    buckets: Seq<Bucket>,
    pilots: Seq<u8>,
    slots: Seq<Option<Slot>>,
    recent: Seq<usize>,
    c: int,
) -> bool {
    &&& buckets.len() == spec_buckets_len(hashes.len())
    &&& slots.len() == spec_slots_len(hashes.len())
    &&& settled(seed, hashes, buckets, pilots, slots)
    &&& 0 <= c < buckets.len()
    &&& no_pilot(seed, hashes, buckets, c, slots, recent)
}

/// Searches pilots for `hashes` under `seed`: buckets are taken largest
/// first, and each is placed, evicting others where it must, until every
/// bucket is placed; then the keys past the table are sent back into its
/// free slots. `None` when a bucket finds no pilot that keeps its keys
/// apart, or when the search has taken `u64::MAX` buckets off its stack.
fn try_generate_hash(seed: u64, hashes: &[u64]) -> (r: Option<HashState>)
    requires
        0 < hashes@.len() <= 0xfd70_a3d5,
    ensures
        r matches Some(st) ==> st.seed == seed && ptr_is_perfect(
            seed,
            hashes@,
            st.pilots@,
            st.remap@,
            st.map@,
        ),
        r matches Some(st) ==> st.pilots@.len() == spec_buckets_len(hashes@.len()) && st.remap@.len()
            == spec_slots_len(hashes@.len()) - hashes@.len() && forall|j: int|
            0 <= j < st.remap@.len() ==> #[trigger] st.remap@[j] < hashes@.len(),
        r is None ==> exists|buckets: Seq<Bucket>, pilots: Seq<u8>, slots: Seq<Option<Slot>>, recent: Seq<usize>, c: int|
            #[trigger] ptr_stuck(seed, hashes@, buckets, pilots, slots, recent, c),
{
    let table_len = hashes.len();
    let slots_len = adjusted_slots_len(table_len as u32) as usize;
    let buckets_len = adjusted_buckets_len(table_len as u32) as usize;
    proof {
        let n = table_len as int;
        assert((100 * n + 98) / 99 >= n) by (nonlinear_arith)
            requires
                n >= 0,
        ;
        assert(slots_len >= table_len);
    }
    let buckets = fill_buckets(hashes, buckets_len);
    let mut pilots: Vec<u8> = crate::generator::filled(0u8, buckets_len);
    let mut order = indices(buckets_len);
    proof {
        assert forall|j: int, k: int|
            0 <= j < buckets_len && 0 <= k < buckets_len && j != k implies order@[j] != order@[k] by {}
    }
    sort_bucket_order(&buckets, &mut order);
    let mut slots: Vec<Option<Slot>> = crate::generator::filled(None, slots_len);
    let mut stack: Vec<usize> = Vec::new();
    let mut recent: Vec<usize> = Vec::new();
    let mut values_to_add: Vec<(u32, usize)> = Vec::new();
    let mut already_scored: Vec<usize> = Vec::new();
    let ghost bl = buckets_len as nat;
    proof {
        assert(search_shape(hashes@, buckets@, pilots@, slots@));
    }
    let mut k: usize = 0;
    while k < buckets_len
        invariant
            k <= buckets_len,
            bl == buckets_len,
            buckets@.len() == bl,
            0 < table_len <= slots_len <= u32::MAX,
            table_len == hashes@.len(),
            buckets_len == spec_buckets_len(table_len as nat),
            slots_len == spec_slots_len(table_len as nat),
            pilots@.len() == bl,
            slots@.len() == slots_len,
            is_perm(order@, bl),
            settled(seed, hashes@, buckets@, pilots@, slots@),
            forall|t: int| 0 <= t < k ==> placed(seed, hashes@, buckets@, pilots@, slots@, #[trigger] order@[t] as int),
            forall|t: int| k <= t < bl ==> unplaced(slots@, #[trigger] order@[t] as int),
        decreases buckets_len - k,
    {
        let bucket = order[k];
        if buckets[bucket].keys.len() > 0 {
            recent.clear();
            stack.clear();
            stack.push(bucket);
            let ghost p0 = pilots@;
            let ghost s0 = slots@;
            let ghost st0 = stack@;
            proof {
                assert(st0 =~= seq![bucket]);
                assert(unplaced(s0, bucket as int));
            }
            let ok = settle(
                &buckets,
                &mut slots,
                &mut pilots,
                &mut stack,
                &mut recent,
                &mut values_to_add,
                &mut already_scored,
                hashes,
                seed,
            );
            if !ok {
                proof {
                    let c = choose|c: int|
                        0 <= c < buckets@.len() && #[trigger] no_pilot(seed, hashes@, buckets@, c, slots@, recent@);
                    assert(ptr_stuck(seed, hashes@, buckets@, pilots@, slots@, recent@, c));
                }
                return None;
            }
            proof {
                assert forall|t: int| 0 <= t < k + 1 implies placed(
                    seed,
                    hashes@,
                    buckets@,
                    pilots@,
                    slots@,
                    #[trigger] order@[t] as int,
                ) by {
                    if t == k {
                        assert(st0[0] == bucket);
                        assert(st0.contains(bucket));
                    }
                }
                assert forall|t: int| k + 1 <= t < bl implies unplaced(slots@, #[trigger] order@[t] as int) by {
                    assert(order@[t] != order@[k as int]);
                    if st0.contains(order@[t]) {
                        assert(st0[0] == bucket);
                    }
                }
            }
        } else {
            proof {
                assert(placed(seed, hashes@, buckets@, pilots@, slots@, order@[k as int] as int));
            }
        }
        k = k + 1;
    }
    proof {
        lemma_all_keys_placed(seed, hashes@, buckets@, pilots@, slots@, order@);
    }
    proof {
        lemma_count_keys(seed, hashes@, buckets@, pilots@, slots@);
    }
    let (map, remap) = build_tables(&slots, table_len);
    proof {
        assert forall|i: int| 0 <= i < hashes@.len() implies {
            let x = spec_get_index(seed, #[trigger] hashes@[i], pilots@, remap@, map@.len()) as int;
            x < map@.len() && map@[x] == i
        } by {
            let b = bucket_of(hashes@[i], bl);
            lemma_fast_reduct32_bound(spec_low(hashes@[i]), bl as u32);
            let s = slot_of(seed, hashes@[i], pilots@[b], slots@.len());
            lemma_slot_of_bound(seed, hashes@[i], pilots@[b], slots@.len());
            assert(slots@[s] == Some(Slot { bucket: b as usize, key: i as usize }));
            assert(spec_get_index(seed, hashes@[i], pilots@, remap@, map@.len()) as int
                == table_index(remap@, table_len as nat, s));
        }
    }
    Some(HashState { seed, pilots, remap, map })
}

/// Once every bucket is placed, every key sits in the slot its bucket's
/// pilot gives it.
proof fn lemma_all_keys_placed(
    seed: u64,
    hashes: Seq<u64>,
    buckets: Seq<Bucket>,
    pilots: Seq<u8>,
    slots: Seq<Option<Slot>>,
    order: Seq<usize>,
)
    requires
        search_shape(hashes, buckets, pilots, slots),
        is_perm(order, buckets.len()),
        forall|t: int| 0 <= t < buckets.len() ==> placed(seed, hashes, buckets, pilots, slots, #[trigger] order[t] as int),
    ensures
        forall|i: int|
            0 <= i < hashes.len() ==> slots[slot_of(
                seed,
                #[trigger] hashes[i],
                pilots[bucket_of(hashes[i], buckets.len())],
                slots.len(),
            )] == Some(Slot { bucket: bucket_of(hashes[i], buckets.len()) as usize, key: i as usize }),
{
    let bl = buckets.len();
    let o = Seq::new(bl, |t: int| order[t] as int);
    crate::generator::lemma_distinct_covers(o, bl);
    assert forall|i: int| 0 <= i < hashes.len() implies slots[slot_of(
        seed,
        #[trigger] hashes[i],
        pilots[bucket_of(hashes[i], bl)],
        slots.len(),
    )] == Some(Slot { bucket: bucket_of(hashes[i], bl) as usize, key: i as usize }) by {
        let b = bucket_of(hashes[i], bl);
        lemma_fast_reduct32_bound(spec_low(hashes[i]), bl as u32);
        assert(crate::generator::takes(o, b));
        let t = choose|t: int| 0 <= t < o.len() && o[t] == b;
        assert(placed(seed, hashes, buckets, pilots, slots, order[t] as int));
        assert(buckets[b].keys@.contains(i as usize));
        let m = choose|m: int| 0 <= m < buckets[b].keys@.len() && buckets[b].keys@[m] == i as usize;
        assert(key_slot(seed, hashes, buckets, pilots, b, m, slots.len()) == slot_of(
            seed,
            hashes[i],
            pilots[b],
            slots.len(),
        ));
    }
}

/// `state` solves `entries` under some hashes that `hash_fn` may give them
/// with `state.seed`.
pub open spec fn ptr_solves<T, F: Fn(&T, &HashKey) -> u64>(entries: Seq<T>, hash_fn: F, state: HashState) -> bool {
    exists|hs: Seq<u64>|
        #![trigger ptr_is_perfect(state.seed, hs, state.pilots@, state.remap@, state.map@)]
        hs.len() == entries.len() && (forall|i: int|
            0 <= i < entries.len() ==> call_ensures(
                hash_fn,
                (&entries[i], &state.seed),
                #[trigger] hs[i],
            )) && ptr_is_perfect(state.seed, hs, state.pilots@, state.remap@, state.map@)
}

/// The state of an empty table: seed `0` and no entries anywhere.
pub open spec fn is_empty_state(state: HashState) -> bool {
    &&& state.seed == 0
    &&& state.pilots@.len() == 0
    &&& state.remap@.len() == 0
    &&& state.map@.len() == 0
}

/// The hashes that `hash_fn` may give `entries` under `seed` leave the pilot
/// search stuck: some bucket finds no pilot that keeps its keys apart and
/// evicts none of the buckets taken before it in its round.
pub open spec fn ptr_stuck_under<T, F: Fn(&T, &HashKey) -> u64>(entries: Seq<T>, hash_fn: F, seed: u64) -> bool {
    exists|hs: Seq<u64>, buckets: Seq<Bucket>, pilots: Seq<u8>, slots: Seq<Option<Slot>>, recent: Seq<usize>, c: int|
        #![trigger ptr_stuck(seed, hs, buckets, pilots, slots, recent, c)]
        hs.len() == entries.len() && (forall|i: int|
            0 <= i < entries.len() ==> call_ensures(hash_fn, (&entries[i], &seed), #[trigger] hs[i]))
            && ptr_stuck(seed, hs, buckets, pilots, slots, recent, c)
}

/// The table's layout for `n` keys: a pilot per bucket, a remap entry per
/// slot past the `n`th, each naming a slot below `n`.
pub open spec fn ptr_layout(n: nat, state: HashState) -> bool {
    &&& state.pilots@.len() == spec_buckets_len(n)
    &&& state.remap@.len() == spec_slots_len(n) - n
    &&& forall|j: int| 0 <= j < state.remap@.len() ==> #[trigger] state.remap@[j] < n
}

/// Solves a PtrHash table for `entries`, hashing them with `hash_fn`.
///
/// No entries give the empty table. Otherwise seeds are drawn from a
/// generator with a fixed seed until one admits a solution of the hashes
/// that `hash_fn` gives under it; `None` only once `u64::MAX` seeds have
/// failed.
pub fn generate_hash_with_hash_fn<T, F>(entries: &[T], hash_fn: F) -> (r: Option<HashState>) where
    F: Fn(&T, &HashKey) -> u64,

    requires
        entries@.len() <= 0xfd70_a3d5,
        forall|i: int, key: HashKey|
            0 <= i < entries@.len() ==> #[trigger] call_requires(hash_fn, (&entries@[i], &key)),
    ensures
        entries@.len() == 0 ==> (r matches Some(state) && is_empty_state(state)),
        r matches Some(state) ==> ptr_solves(entries@, hash_fn, state),
        entries@.len() > 0 ==> (r matches Some(state) ==> ptr_layout(entries@.len(), state) && exists|t: nat|
            t < u64::MAX && state.seed == #[trigger] crate::generator::drawn_key(t) && forall|u: nat|
                u < t ==> ptr_stuck_under(entries@, hash_fn, #[trigger] crate::generator::drawn_key(u))),
        r is None ==> forall|t: nat|
            t < u64::MAX ==> ptr_stuck_under(entries@, hash_fn, #[trigger] crate::generator::drawn_key(t)),
{
    if entries.len() == 0 {
        let state = HashState { seed: 0, pilots: Vec::new(), remap: Vec::new(), map: Vec::new() };
        proof {
            let hs = Seq::<u64>::empty();
            assert(ptr_is_perfect(state.seed, hs, state.pilots@, state.remap@, state.map@));
        }
        return Some(state);
    }
    let mut rng_state: u64 = crate::generator::FIXED_SEED;
    let mut tried: u64 = 0;
    while tried < u64::MAX
        invariant
            0 < entries@.len() <= 0xfd70_a3d5,
            forall|i: int, key: HashKey|
                0 <= i < entries@.len() ==> #[trigger] call_requires(hash_fn, (&entries@[i], &key)),
            rng_state == crate::generator::seed_state(tried as nat),
            forall|u: nat|
                u < tried ==> ptr_stuck_under(entries@, hash_fn, #[trigger] crate::generator::drawn_key(u)),
        decreases u64::MAX - tried,
    {
        let (next, seed) = crate::generator::wyrand_step(rng_state);
        rng_state = next;
        proof {
            assert(seed == crate::generator::drawn_key(tried as nat));
            assert(rng_state == crate::generator::seed_state((tried + 1) as nat));
        }
        let mut hashes: Vec<u64> = Vec::new();
        let mut i: usize = 0;
        while i < entries.len()
            invariant
                i <= entries@.len(),
                hashes@.len() == i,
                forall|i: int, key: HashKey|
                    0 <= i < entries@.len() ==> #[trigger] call_requires(hash_fn, (&entries@[i], &key)),
                forall|j: int|
                    0 <= j < i ==> call_ensures(hash_fn, (&entries@[j], &seed), #[trigger] hashes@[j]),
            decreases entries@.len() - i,
        {
            let h = hash_fn(&entries[i], &seed);
            hashes.push(h);
            i = i + 1;
        }
        match try_generate_hash(seed, hashes.as_slice()) {
            Some(state) => {
                proof {
                    let hs = hashes@;
                    assert(forall|j: int|
                        0 <= j < entries@.len() ==> call_ensures(
                            hash_fn,
                            (&entries@[j], &state.seed),
                            #[trigger] hs[j],
                        ));
                    assert(ptr_is_perfect(state.seed, hs, state.pilots@, state.remap@, state.map@));
                    assert(state.seed == crate::generator::drawn_key(tried as nat));
                }
                return Some(state);
            },
            None => {
                proof {
                    let hs = hashes@;
                    let (buckets, pilots, slots, recent, c) = choose|
                        buckets: Seq<Bucket>,
                        pilots: Seq<u8>,
                        slots: Seq<Option<Slot>>,
                        recent: Seq<usize>,
                        c: int,
                    | #[trigger] ptr_stuck(seed, hs, buckets, pilots, slots, recent, c);
                    assert(ptr_stuck(seed, hs, buckets, pilots, slots, recent, c));
                    assert(ptr_stuck_under(entries@, hash_fn, crate::generator::drawn_key(tried as nat)));
                    assert forall|u: nat| u < tried + 1 implies ptr_stuck_under(
                        entries@,
                        hash_fn,
                        #[trigger] crate::generator::drawn_key(u),
                    ) by {
                        if u == tried {
                            assert(crate::generator::drawn_key(u) == crate::generator::drawn_key(tried as nat));
                        }
                    }
                }
            },
        }
        tried = tried + 1;
    }
    None
}

/// Solves a PtrHash table for `entries`, hashing them with `ptrhash::hash`.
pub fn generate_hash<H: PhfHash>(entries: &[H]) -> (r: Option<HashState>)
    requires
        entries@.len() <= 0xfd70_a3d5,
        forall|i: int|
            0 <= i < entries@.len() ==> (#[trigger] H::phf_bytes(entries@[i]@)).len() <= usize::MAX,
    ensures
        entries@.len() == 0 ==> (r matches Some(state) && is_empty_state(state)),
        r matches Some(state) ==> ptr_is_perfect(
            state.seed,
            Seq::new(entries@.len(), |i: int| sip13_64(state.seed, H::phf_bytes(entries@[i]@))),
            state.pilots@,
            state.remap@,
            state.map@,
        ),
        entries@.len() > 0 ==> (r matches Some(state) ==> ptr_layout(entries@.len(), state) && exists|t: nat|
            t < u64::MAX && state.seed == #[trigger] crate::generator::drawn_key(t) && forall|u: nat|
                u < t ==> ptr_stuck_under(entries@, ptrhash_hash::<H>, #[trigger] crate::generator::drawn_key(u))),
        r is None ==> forall|t: nat|
            t < u64::MAX ==> ptr_stuck_under(entries@, ptrhash_hash::<H>, #[trigger] crate::generator::drawn_key(t)),
{
    let r = generate_hash_with_hash_fn(entries, ptrhash_hash::<H>);
    proof {
        if r is Some {
            let state = r->0;
            let hs = choose|hs: Seq<u64>|
                #![trigger ptr_is_perfect(state.seed, hs, state.pilots@, state.remap@, state.map@)]
                hs.len() == entries@.len() && (forall|i: int|
                    0 <= i < entries@.len() ==> call_ensures(
                        ptrhash_hash::<H>,
                        (&entries@[i], &state.seed),
                        #[trigger] hs[i],
                    )) && ptr_is_perfect(state.seed, hs, state.pilots@, state.remap@, state.map@);
            assert(hs =~= Seq::new(
                entries@.len(),
                |i: int| sip13_64(state.seed, H::phf_bytes(entries@[i]@)),
            ));
        }
    }
    r
}

/// A solved PtrHash table is a bijection: different keys are read from
/// different indices, and every index of the key table holds a key whose
/// lookup reads that index.
pub proof fn law_ptr_perfect_is_bijection(
    seed: u64,
    hashes: Seq<u64>,
    pilots: Seq<u8>,
    remap: Seq<u32>,
    map: Seq<usize>,
)
    requires
        ptr_is_perfect(seed, hashes, pilots, remap, map),
    ensures
        forall|i: int, j: int|
            0 <= i < hashes.len() && 0 <= j < hashes.len() && i != j ==> spec_get_index(
                seed,
                #[trigger] hashes[i],
                pilots,
                remap,
                map.len(),
            ) != spec_get_index(seed, #[trigger] hashes[j], pilots, remap, map.len()),
        forall|s: int|
            0 <= s < map.len() ==> #[trigger] map[s] < map.len() && spec_get_index(
                seed,
                hashes[map[s] as int],
                pilots,
                remap,
                map.len(),
            ) == s,
{
    let n = hashes.len();
    let o = Seq::new(n, |i: int| spec_get_index(seed, hashes[i], pilots, remap, map.len()) as int);
    assert forall|i: int, j: int| 0 <= i < n && 0 <= j < n && i != j implies o[i] != o[j] by {
        assert(map[o[i]] == i);
        assert(map[o[j]] == j);
    }
    assert forall|i: int| 0 <= i < n implies 0 <= #[trigger] o[i] < n by {
        assert(o[i] == spec_get_index(seed, hashes[i], pilots, remap, map.len()) as int);
    }
    crate::generator::lemma_distinct_covers(o, n);
    assert forall|s: int| 0 <= s < map.len() implies #[trigger] map[s] < map.len() && spec_get_index(
        seed,
        hashes[map[s] as int],
        pilots,
        remap,
        map.len(),
    ) == s by {
        assert(crate::generator::takes(o, s));
        let i = choose|i: int| 0 <= i < o.len() && o[i] == s;
        assert(map[o[i]] == i);
    }
    assert forall|i: int, j: int|
        0 <= i < n && 0 <= j < n && i != j implies spec_get_index(
        seed,
        #[trigger] hashes[i],
        pilots,
        remap,
        map.len(),
    ) != spec_get_index(seed, #[trigger] hashes[j], pilots, remap, map.len()) by {
        assert(o[i] != o[j]);
    }
}

} // verus!
