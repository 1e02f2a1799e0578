//! The CHD ("compress, hash, displace") generator: finds a hash key and a
//! displacement per bucket that place every key in a slot of its own.
use vstd::prelude::*;
use vstd::set_lib::{lemma_int_range, lemma_map_size, lemma_subset_equality, set_int_range};
use crate::shared::{displace, hash, spec_displace, spec_get_index, spec_hash, HashKey, Hashes, PhfHash};

verus! {

const DEFAULT_LAMBDA: usize = 3;

/// The seed of the generator that draws the hash keys.
pub const FIXED_SEED: u64 = 1234567890;

/// The mark of a slot that holds no key.
pub const EMPTY_SLOT: usize = usize::MAX;

/// The number of buckets the keys of a table of `n` keys are spread over:
/// `n / 3`, rounded up.
pub open spec fn buckets_len(n: nat) -> nat {
    ((n + 2) / 3) as nat
}

/// `disps` and `map` place the keys with the hashes `hashes` perfectly: the
/// slot that the displacements give each key holds that key's index, and
/// every slot holds the index of a key that the displacements send there.
pub open spec fn is_perfect(hashes: Seq<Hashes>, disps: Seq<(u32, u32)>, map: Seq<usize>) -> bool {
    let n = hashes.len();
    &&& map.len() == n
    &&& disps.len() == buckets_len(n)
    &&& forall|i: int|
        0 <= i < n ==> map[spec_get_index(#[trigger] hashes[i], disps, n) as int] == i
    &&& forall|s: int|
        0 <= s < n ==> #[trigger] map[s] < n && spec_get_index(hashes[map[s] as int], disps, n)
            == s
}

/// `s` takes the value `v` somewhere.
pub open spec fn takes(s: Seq<int>, v: int) -> bool {
    exists|i: int| 0 <= i < s.len() && s[i] == v
}

/// A perfect placement is a bijection: different slots hold different keys,
/// and different keys are sent to different slots.
pub proof fn law_perfect_is_bijection(hashes: Seq<Hashes>, disps: Seq<(u32, u32)>, map: Seq<usize>)
    requires
        is_perfect(hashes, disps, map),
    ensures
        forall|s: int, t: int|
            0 <= s < hashes.len() && 0 <= t < hashes.len() && s != t ==> map[s] != map[t],
        forall|i: int, j: int|
            0 <= i < hashes.len() && 0 <= j < hashes.len() && i != j ==> spec_get_index(
                hashes[i],
                disps,
                hashes.len(),
            ) != spec_get_index(hashes[j], disps, hashes.len()),
{
    assert forall|s: int, t: int|
        0 <= s < hashes.len() && 0 <= t < hashes.len() && s != t implies map[s] != map[t] by {
        assert(map[s] < hashes.len());
        assert(map[t] < hashes.len());
    }
    assert forall|i: int, j: int|
        0 <= i < hashes.len() && 0 <= j < hashes.len() && i != j implies spec_get_index(
            hashes[i],
            disps,
            hashes.len(),
        ) != spec_get_index(hashes[j], disps, hashes.len()) by {
        assert(map[spec_get_index(hashes[i], disps, hashes.len()) as int] == i);
        assert(map[spec_get_index(hashes[j], disps, hashes.len()) as int] == j);
    }
}

/// A sequence of `n` distinct values below `n` takes every value below `n`.
pub proof fn lemma_distinct_covers(s: Seq<int>, n: nat)
    requires
        s.len() == n,
        forall|i: int| 0 <= i < n ==> 0 <= #[trigger] s[i] < n,
        forall|i: int, j: int| 0 <= i < n && 0 <= j < n && i != j ==> s[i] != s[j],
    ensures
        forall|v: int| 0 <= v < n ==> #[trigger] takes(s, v),
{
    let x = set_int_range(0, n as int);
    let f = |i: int| s[i];
    let y = x.map(f);
    lemma_int_range(0, n as int);
    assert(vstd::relations::injective_on(f, x));
    lemma_map_size(x, y, f);
    assert(y.subset_of(x)) by {
        assert forall|v: int| y.contains(v) implies x.contains(v) by {
            let i = choose|i: int| x.contains(i) && f(i) == v;
            assert(0 <= s[i] < n);
        }
    }
    lemma_subset_equality(y, x);
    assert forall|v: int| 0 <= v < n implies #[trigger] takes(s, v) by {
        assert(x.contains(v));
        assert(y.contains(v));
        let i = choose|i: int| x.contains(i) && f(i) == v;
        assert(s[i] == v);
    }
}

/// How many of the first `m` keys fall in bucket `b`.
pub open spec fn count_in(kb: Seq<usize>, b: int, m: nat) -> nat
    decreases m,
{
    if m == 0 {
        0
    } else {
        count_in(kb, b, (m - 1) as nat) + (if kb[m - 1] == b { 1nat } else { 0nat })
    }
}

/// How many of the first `m` keys fall in a bucket below `b`.
spec fn count_below(kb: Seq<usize>, b: int, m: nat) -> nat
    decreases m,
{
    if m == 0 {
        0
    } else {
        count_below(kb, b, (m - 1) as nat) + (if kb[m - 1] < b { 1nat } else { 0nat })
    }
}

proof fn lemma_count_in_le(kb: Seq<usize>, b: int, m: nat)
    ensures
        count_in(kb, b, m) <= m,
        count_below(kb, b, m) <= m,
    decreases m,
{
    if m > 0 {
        lemma_count_in_le(kb, b, (m - 1) as nat);
    }
}

/// Counting further never counts fewer, and passing a key of the bucket
/// counts one more.
proof fn lemma_count_in_mono(kb: Seq<usize>, b: int, j: nat, m: nat)
    requires
        j <= m,
    ensures
        count_in(kb, b, j) <= count_in(kb, b, m),
        j < m && kb[j as int] == b ==> count_in(kb, b, j) < count_in(kb, b, m),
    decreases m - j,
{
    if j < m {
        lemma_count_in_mono(kb, b, (j + 1) as nat, m);
    }
}

proof fn lemma_count_below_step(kb: Seq<usize>, b: int, m: nat)
    ensures
        count_below(kb, b + 1, m) == count_below(kb, b, m) + count_in(kb, b, m),
    decreases m,
{
    if m > 0 {
        lemma_count_below_step(kb, b, (m - 1) as nat);
    }
}

proof fn lemma_count_below_mono(kb: Seq<usize>, b1: int, b2: int, m: nat)
    requires
        b1 <= b2,
    ensures
        count_below(kb, b1, m) <= count_below(kb, b2, m),
    decreases m,
{
    if m > 0 {
        lemma_count_below_mono(kb, b1, b2, (m - 1) as nat);
    }
}

proof fn lemma_count_below_bounds(kb: Seq<usize>, bl: int, m: nat)
    requires
        m <= kb.len(),
        forall|j: int| 0 <= j < m ==> kb[j] < bl,
    ensures
        count_below(kb, bl, m) == m,
        count_below(kb, 0, m) == 0,
    decreases m,
{
    if m > 0 {
        lemma_count_below_bounds(kb, bl, (m - 1) as nat);
    }
}

/// Where the counting sort puts key `j`: after the keys of lower buckets and
/// the earlier keys of its own bucket.
spec fn sorted_pos(kb: Seq<usize>, n: nat, j: int) -> int {
    (count_below(kb, kb[j] as int, n) + count_in(kb, kb[j] as int, j as nat)) as int
}

/// Once each key `j` sits at `sorted_pos(j)`, no key is listed twice.
proof fn lemma_listed_once(kb: Seq<usize>, bl: int, bucket_keys: Seq<usize>)
    requires
        bucket_keys.len() == kb.len(),
        kb.len() <= u32::MAX,
        forall|j: int| 0 <= j < kb.len() ==> #[trigger] kb[j] < bl,
        forall|j: int| 0 <= j < kb.len() ==> bucket_keys[#[trigger] sorted_pos(kb, kb.len(), j)] == j,
    ensures
        forall|p: int, q: int|
            0 <= p < kb.len() && 0 <= q < kb.len() && p != q ==> #[trigger] bucket_keys[p] != #[trigger] bucket_keys[q],
{
    let n = kb.len();
    lemma_count_below_bounds(kb, bl, n);
    let o = Seq::new(n, |j: int| sorted_pos(kb, n, j));
    assert forall|j: int| 0 <= j < n implies 0 <= #[trigger] o[j] < n by {
        lemma_sorted_pos_in_range(kb, n, j);
        lemma_count_below_mono(kb, kb[j] as int + 1, bl, n);
    }
    assert forall|i: int, j: int| 0 <= i < n && 0 <= j < n && i != j implies o[i] != o[j] by {
        if i < j {
            lemma_sorted_pos_injective(kb, n, i, j);
        } else {
            lemma_sorted_pos_injective(kb, n, j, i);
        }
    }
    lemma_distinct_covers(o, n);
    assert forall|p: int, q: int|
        0 <= p < n && 0 <= q < n && p != q implies #[trigger] bucket_keys[p] != #[trigger] bucket_keys[q] by {
        assert(takes(o, p));
        assert(takes(o, q));
        let jp = choose|j: int| 0 <= j < o.len() && o[j] == p;
        let jq = choose|j: int| 0 <= j < o.len() && o[j] == q;
        assert(bucket_keys[p] == jp);
        assert(bucket_keys[q] == jq);
    }
}

/// Key `j`'s position lies inside its bucket's range.
proof fn lemma_sorted_pos_in_range(kb: Seq<usize>, n: nat, j: int)
    requires
        0 <= j < n,
        n <= kb.len(),
    ensures
        count_below(kb, kb[j] as int, n) <= sorted_pos(kb, n, j),
        sorted_pos(kb, n, j) < count_below(kb, kb[j] as int + 1, n),
{
    lemma_count_in_mono(kb, kb[j] as int, j as nat, n);
    lemma_count_below_step(kb, kb[j] as int, n);
}

/// Different keys go to different positions.
proof fn lemma_sorted_pos_injective(kb: Seq<usize>, n: nat, i: int, j: int)
    requires
        0 <= i < j < n,
        n <= kb.len(),
    ensures
        sorted_pos(kb, n, i) != sorted_pos(kb, n, j),
{
    lemma_sorted_pos_in_range(kb, n, i);
    lemma_sorted_pos_in_range(kb, n, j);
    if kb[i] == kb[j] {
        lemma_count_in_mono(kb, kb[i] as int, i as nat, j as nat);
    } else if kb[i] < kb[j] {
        lemma_count_below_mono(kb, kb[i] as int + 1, kb[j] as int, n);
    } else {
        lemma_count_below_mono(kb, kb[j] as int + 1, kb[i] as int, n);
    }
}

/// Counts depend on the first `m` keys alone.
proof fn lemma_count_prefix(kb1: Seq<usize>, kb2: Seq<usize>, b: int, m: nat)
    requires
        m <= kb1.len(),
        m <= kb2.len(),
        forall|j: int| 0 <= j < m ==> kb1[j] == kb2[j],
    ensures
        count_in(kb1, b, m) == count_in(kb2, b, m),
        count_below(kb1, b, m) == count_below(kb2, b, m),
    decreases m,
{
    if m > 0 {
        lemma_count_prefix(kb1, kb2, b, (m - 1) as nat);
    }
}

/// A bucket: its keys are `bucket_keys[start..start + len]`.
#[derive(Clone, Copy)]
struct Bucket {
    idx: usize,
    start: usize,
    len: usize,
    cursor: usize,
}

/// The bucket of a key with the hashes `h`, of `bl` buckets.
pub open spec fn bucket_of(h: Hashes, bl: nat) -> int {
    (h.g % (bl as u32)) as int
}

/// Puts each key in its bucket and counts the keys of each bucket.
fn count_bucket_keys(hashes: &Vec<Hashes>, buckets: &mut Vec<Bucket>, key_buckets: &mut Vec<usize>)
    requires
        hashes@.len() <= u32::MAX,
        old(buckets)@.len() <= u32::MAX,
        hashes@.len() > 0 ==> old(buckets)@.len() > 0,
        old(key_buckets)@.len() == hashes@.len(),
        forall|b: int| 0 <= b < old(buckets)@.len() ==> (#[trigger] old(buckets)@[b]).len == 0,
    ensures
        final(buckets)@.len() == old(buckets)@.len(),
        final(key_buckets)@.len() == hashes@.len(),
        forall|i: int|
            0 <= i < hashes@.len() ==> #[trigger] final(key_buckets)@[i] == bucket_of(
                hashes@[i],
                old(buckets)@.len(),
            ) && final(key_buckets)@[i] < old(buckets)@.len(),
        forall|b: int|
            0 <= b < old(buckets)@.len() ==> (#[trigger] final(buckets)@[b]).idx == old(
                buckets,
            )@[b].idx && final(buckets)@[b].len == count_in(
                final(key_buckets)@,
                b,
                hashes@.len(),
            ),
{
    let ghost bl = buckets@.len();
    let buckets_len = buckets.len() as u32;
    let mut i: usize = 0;
    while i < hashes.len()
        invariant
            i <= hashes@.len(),
            hashes@.len() <= u32::MAX,
            buckets_len == bl,
            bl <= u32::MAX,
            hashes@.len() > 0 ==> bl > 0,
            buckets@.len() == bl,
            key_buckets@.len() == hashes@.len(),
            forall|j: int|
                0 <= j < i ==> #[trigger] key_buckets@[j] == bucket_of(hashes@[j], bl)
                    && key_buckets@[j] < bl,
            forall|b: int|
                0 <= b < bl ==> (#[trigger] buckets@[b]).idx == old(buckets)@[b].idx
                    && buckets@[b].len == count_in(key_buckets@, b, i as nat),
        decreases hashes@.len() - i,
    {
        let b = (hashes[i].g % buckets_len) as usize;
        let ghost kb0 = key_buckets@;
        key_buckets.set(i, b);
        proof {
            lemma_count_prefix(kb0, key_buckets@, b as int, i as nat);
            lemma_count_in_le(key_buckets@, b as int, i as nat);
        }
        let mut bucket = buckets[b];
        bucket.len = bucket.len + 1;
        buckets.set(b, bucket);
        proof {
            assert forall|c: int| 0 <= c < bl implies (#[trigger] buckets@[c]).len == count_in(
                key_buckets@,
                c,
                (i + 1) as nat,
            ) by {
                lemma_count_prefix(kb0, key_buckets@, c, i as nat);
            }
        }
        i = i + 1;
    }
}

/// Gives each bucket its start: the number of keys in the buckets below it.
fn assign_bucket_starts(buckets: &mut Vec<Bucket>, Ghost(kb): Ghost<Seq<usize>>, Ghost(n): Ghost<nat>)
    requires
        n <= kb.len(),
        n <= u32::MAX,
        forall|j: int| 0 <= j < n ==> #[trigger] kb[j] < old(buckets)@.len(),
        forall|b: int|
            0 <= b < old(buckets)@.len() ==> (#[trigger] old(buckets)@[b]).len == count_in(kb, b, n),
    ensures
        final(buckets)@.len() == old(buckets)@.len(),
        forall|b: int|
            0 <= b < old(buckets)@.len() ==> {
                &&& (#[trigger] final(buckets)@[b]).idx == old(buckets)@[b].idx
                &&& final(buckets)@[b].len == old(buckets)@[b].len
                &&& final(buckets)@[b].start == count_below(kb, b, n)
                &&& final(buckets)@[b].cursor == final(buckets)@[b].start
            },
{
    let mut start: usize = 0;
    let mut b: usize = 0;
    proof {
        lemma_count_below_bounds(kb, old(buckets)@.len() as int, n);
    }
    while b < buckets.len()
        invariant
            b <= buckets@.len(),
            buckets@.len() == old(buckets)@.len(),
            n <= kb.len(),
            n <= u32::MAX,
            forall|j: int| 0 <= j < n ==> #[trigger] kb[j] < old(buckets)@.len(),
            count_below(kb, old(buckets)@.len() as int, n) == n,
            start == count_below(kb, b as int, n),
            forall|c: int|
                0 <= c < old(buckets)@.len() ==> (#[trigger] buckets@[c]).idx == old(buckets)@[c].idx
                    && buckets@[c].len == old(buckets)@[c].len,
            forall|c: int| b <= c < old(buckets)@.len() ==> (#[trigger] buckets@[c]).len == count_in(kb, c, n),
            forall|c: int|
                0 <= c < b ==> (#[trigger] buckets@[c]).start == count_below(kb, c, n)
                    && buckets@[c].cursor == buckets@[c].start,
        decreases buckets@.len() - b,
    {
        proof {
            lemma_count_below_step(kb, b as int, n);
            lemma_count_below_mono(kb, b as int + 1, old(buckets)@.len() as int, n);
        }
        let mut bucket = buckets[b];
        bucket.start = start;
        bucket.cursor = start;
        start = start + bucket.len;
        buckets.set(b, bucket);
        b = b + 1;
    }
}

/// Lists the keys bucket by bucket: key `j` goes to `sorted_pos(j)`.
fn fill_bucket_keys(key_buckets: &Vec<usize>, buckets: &mut Vec<Bucket>, bucket_keys: &mut Vec<usize>)
    requires
        key_buckets@.len() == old(bucket_keys)@.len(),
        key_buckets@.len() <= u32::MAX,
        forall|j: int| 0 <= j < key_buckets@.len() ==> #[trigger] key_buckets@[j] < old(buckets)@.len(),
        forall|b: int|
            0 <= b < old(buckets)@.len() ==> {
                &&& (#[trigger] old(buckets)@[b]).len == count_in(key_buckets@, b, key_buckets@.len())
                &&& old(buckets)@[b].start == count_below(key_buckets@, b, key_buckets@.len())
                &&& old(buckets)@[b].cursor == old(buckets)@[b].start
            },
    ensures
        final(buckets)@.len() == old(buckets)@.len(),
        final(bucket_keys)@.len() == old(bucket_keys)@.len(),
        forall|b: int|
            0 <= b < old(buckets)@.len() ==> {
                &&& (#[trigger] final(buckets)@[b]).idx == old(buckets)@[b].idx
                &&& final(buckets)@[b].len == old(buckets)@[b].len
                &&& final(buckets)@[b].start == old(buckets)@[b].start
            },
        forall|j: int|
            0 <= j < key_buckets@.len() ==> final(bucket_keys)@[sorted_pos(
                key_buckets@,
                key_buckets@.len(),
                j,
            )] == j,
{
    let ghost kb = key_buckets@;
    let ghost n = kb.len();
    proof {
        lemma_count_below_bounds(kb, old(buckets)@.len() as int, n);
    }
    let mut i: usize = 0;
    while i < key_buckets.len()
        invariant
            kb == key_buckets@,
            n == kb.len(),
            i <= n,
            n <= u32::MAX,
            bucket_keys@.len() == n,
            buckets@.len() == old(buckets)@.len(),
            count_below(kb, old(buckets)@.len() as int, n) == n,
            forall|j: int| 0 <= j < n ==> #[trigger] kb[j] < old(buckets)@.len(),
            forall|b: int|
                0 <= b < old(buckets)@.len() ==> {
                    &&& (#[trigger] buckets@[b]).idx == old(buckets)@[b].idx
                    &&& buckets@[b].len == old(buckets)@[b].len
                    &&& buckets@[b].start == old(buckets)@[b].start
                    &&& buckets@[b].start == count_below(kb, b, n)
                    &&& buckets@[b].cursor == buckets@[b].start + count_in(kb, b, i as nat)
                },
            forall|j: int| 0 <= j < i ==> bucket_keys@[#[trigger] sorted_pos(kb, n, j)] == j,
        decreases n - i,
    {
        let b = key_buckets[i];
        proof {
            lemma_sorted_pos_in_range(kb, n, i as int);
            lemma_count_below_mono(kb, b as int + 1, old(buckets)@.len() as int, n);
            assert forall|j: int| 0 <= j < i implies #[trigger] sorted_pos(kb, n, j) != sorted_pos(
                kb,
                n,
                i as int,
            ) by {
                lemma_sorted_pos_injective(kb, n, j, i as int);
            }
        }
        let mut bucket = buckets[b];
        assert(bucket.cursor == sorted_pos(kb, n, i as int));
        let ghost bk0 = bucket_keys@;
        bucket_keys.set(bucket.cursor, i);
        bucket.cursor = bucket.cursor + 1;
        buckets.set(b, bucket);
        proof {
            assert forall|j: int| 0 <= j < i + 1 implies bucket_keys@[#[trigger] sorted_pos(
                kb,
                n,
                j,
            )] == j by {
                if j < i {
                    lemma_sorted_pos_injective(kb, n, j, i as int);
                    lemma_sorted_pos_in_range(kb, n, j);
                    lemma_count_below_mono(kb, kb[j] as int + 1, old(buckets)@.len() as int, n);
                    assert(bk0[sorted_pos(kb, n, j)] == j);
                }
            }
        }
        i = i + 1;
    }
}

/// The keys of bucket `b` are listed in its range, and nothing else is.
spec fn listed(kb: Seq<usize>, buckets: Seq<Bucket>, bucket_keys: Seq<usize>, i: int) -> bool {
    let b = kb[i] as int;
    exists|p: int|
        buckets[b].start <= p < buckets[b].start + buckets[b].len && #[trigger] bucket_keys[p] == i
}

/// `bucket_keys` lists the keys bucket by bucket.
spec fn partitioned(kb: Seq<usize>, buckets: Seq<Bucket>, bucket_keys: Seq<usize>, n: nat) -> bool {
    &&& forall|b: int| 0 <= b < buckets.len() ==> #[trigger] buckets[b].start + buckets[b].len <= n
    &&& forall|b: int, p: int|
        #![trigger buckets[b], bucket_keys[p]]
        0 <= b < buckets.len() && buckets[b].start <= p < buckets[b].start + buckets[b].len
            ==> bucket_keys[p] < n && kb[bucket_keys[p] as int] == b
    &&& forall|i: int| 0 <= i < n ==> #[trigger] listed(kb, buckets, bucket_keys, i)
}

proof fn lemma_partitioned(kb: Seq<usize>, buckets: Seq<Bucket>, bucket_keys: Seq<usize>, n: nat)
    requires
        n == kb.len(),
        bucket_keys.len() == n,
        forall|j: int| 0 <= j < n ==> #[trigger] kb[j] < buckets.len(),
        forall|b: int|
            0 <= b < buckets.len() ==> {
                &&& (#[trigger] buckets[b]).len == count_in(kb, b, n)
                &&& buckets[b].start == count_below(kb, b, n)
            },
        forall|j: int| 0 <= j < n ==> bucket_keys[#[trigger] sorted_pos(kb, n, j)] == j,
    ensures
        partitioned(kb, buckets, bucket_keys, n),
{
    lemma_count_below_bounds(kb, buckets.len() as int, n);
    assert forall|b: int| 0 <= b < buckets.len() implies #[trigger] buckets[b].start + buckets[b].len
        <= n by {
        lemma_count_below_step(kb, b, n);
        lemma_count_below_mono(kb, b + 1, buckets.len() as int, n);
    }
    let pos = Seq::new(n, |j: int| sorted_pos(kb, n, j));
    assert forall|j: int| 0 <= j < n implies 0 <= #[trigger] pos[j] < n by {
        lemma_sorted_pos_in_range(kb, n, j);
        lemma_count_below_mono(kb, kb[j] as int + 1, buckets.len() as int, n);
    }
    assert forall|i: int, j: int| 0 <= i < n && 0 <= j < n && i != j implies pos[i] != pos[j] by {
        if i < j {
            lemma_sorted_pos_injective(kb, n, i, j);
        } else {
            lemma_sorted_pos_injective(kb, n, j, i);
        }
    }
    lemma_distinct_covers(pos, n);
    assert forall|b: int, p: int|
        #![trigger buckets[b], bucket_keys[p]]
        0 <= b < buckets.len() && buckets[b].start <= p < buckets[b].start + buckets[b].len
            implies bucket_keys[p] < n && kb[bucket_keys[p] as int] == b by {
        assert(buckets[b].start + buckets[b].len <= n);
        assert(takes(pos, p));
        let j = choose|j: int| 0 <= j < pos.len() && pos[j] == p;
        lemma_sorted_pos_in_range(kb, n, j);
        lemma_count_below_step(kb, b, n);
        if kb[j] < b {
            lemma_count_below_mono(kb, kb[j] as int + 1, b, n);
        } else if kb[j] > b {
            lemma_count_below_mono(kb, b + 1, kb[j] as int, n);
        }
    }
    assert forall|i: int| 0 <= i < n implies #[trigger] listed(kb, buckets, bucket_keys, i) by {
        lemma_sorted_pos_in_range(kb, n, i);
        lemma_count_below_step(kb, kb[i] as int, n);
        assert(bucket_keys[sorted_pos(kb, n, i)] == i);
    }
}

/// `s` lists each number below `m` once.
spec fn is_perm(s: Seq<usize>, m: nat) -> bool {
    &&& s.len() == m
    &&& forall|j: int| 0 <= j < m ==> #[trigger] s[j] < m
    &&& forall|j: int, k: int| 0 <= j < m && 0 <= k < m && j != k ==> s[j] != s[k]
}

/// Bucket `x` is tried before bucket `y`: buckets with more keys first, then
/// the lower index.
spec fn goes_before(buckets: Seq<Bucket>, x: usize, y: usize) -> bool {
    buckets[x as int].len > buckets[y as int].len || (buckets[x as int].len
        == buckets[y as int].len && x < y)
}

fn goes_before_exec(buckets: &Vec<Bucket>, x: usize, y: usize) -> (r: bool)
    requires
        x < buckets@.len(),
        y < buckets@.len(),
    ensures
        r == goes_before(buckets@, x, y),
{
    buckets[x].len > buckets[y].len || (buckets[x].len == buckets[y].len && x < y)
}

/// Orders the buckets: those with more keys first, ties by index.
fn sort_bucket_order(buckets: &Vec<Bucket>, bucket_order: &mut Vec<usize>)
    requires
        is_perm(old(bucket_order)@, buckets@.len()),
    ensures
        is_perm(final(bucket_order)@, buckets@.len()),
        forall|j: int, k: int|
            0 <= j < k < buckets@.len() ==> goes_before(
                buckets@,
                #[trigger] final(bucket_order)@[j],
                #[trigger] final(bucket_order)@[k],
            ),
{
    let ghost m = buckets@.len();
    let mut i: usize = 0;
    while i < bucket_order.len()
        invariant
            i <= m,
            m == buckets@.len(),
            is_perm(bucket_order@, m),
            forall|a: int, b: int|
                0 <= a < b < i ==> goes_before(
                    buckets@,
                    #[trigger] bucket_order@[a],
                    #[trigger] bucket_order@[b],
                ),
        decreases m - i,
    {
        let mut j: usize = i;
        while j > 0 && goes_before_exec(buckets, bucket_order[j], bucket_order[j - 1])
            invariant
                j <= i < m,
                m == buckets@.len(),
                is_perm(bucket_order@, m),
                forall|a: int, b: int|
                    0 <= a < b <= i && a != j && b != j ==> goes_before(
                        buckets@,
                        #[trigger] bucket_order@[a],
                        #[trigger] bucket_order@[b],
                    ),
                forall|k: int|
                    j < k <= i ==> goes_before(
                        buckets@,
                        bucket_order@[j as int],
                        #[trigger] bucket_order@[k],
                    ),
            decreases j,
        {
            let ghost bo0 = bucket_order@;
            let x = bucket_order[j];
            let y = bucket_order[j - 1];
            bucket_order.set(j, y);
            bucket_order.set(j - 1, x);
            proof {
                assert(bucket_order@ =~= bo0.update(j as int, y).update(j - 1, x));
                assert forall|a: int, b: int|
                    0 <= a < m && 0 <= b < m && a != b implies bucket_order@[a]
                    != bucket_order@[b] by {
                    let a0 = if a == j { j - 1 } else if a == j - 1 { j as int } else { a };
                    let b0 = if b == j { j - 1 } else if b == j - 1 { j as int } else { b };
                    assert(bucket_order@[a] == bo0[a0]);
                    assert(bucket_order@[b] == bo0[b0]);
                }
                assert forall|a: int, b: int|
                    0 <= a < b <= i && a != j - 1 && b != j - 1 implies goes_before(
                        buckets@,
                        #[trigger] bucket_order@[a],
                        #[trigger] bucket_order@[b],
                    ) by {
                    if a == j {
                        assert(goes_before(buckets@, bo0[j - 1], bo0[b]));
                    } else if b == j {
                        assert(goes_before(buckets@, bo0[a], bo0[j - 1]));
                    } else {
                        assert(goes_before(buckets@, bo0[a], bo0[b]));
                    }
                }
                assert forall|k: int| j - 1 < k <= i implies goes_before(
                    buckets@,
                    bucket_order@[j - 1],
                    #[trigger] bucket_order@[k],
                ) by {
                    if k > j {
                        assert(goes_before(buckets@, bo0[j as int], bo0[k]));
                    }
                }
            }
            j = j - 1;
        }
        proof {
            assert forall|a: int, b: int|
                0 <= a < b < i + 1 implies goes_before(
                    buckets@,
                    #[trigger] bucket_order@[a],
                    #[trigger] bucket_order@[b],
                ) by {
                if b == j && a < j - 1 {
                    assert(goes_before(buckets@, bucket_order@[a], bucket_order@[j - 1]));
                }
                if b == j && j > 0 {
                    assert(bucket_order@[j - 1] != bucket_order@[j as int]);
                }
            }
        }
        i = i + 1;
    }
}

/// The slot that the displacements `d` give a key with the hashes `h` in a
/// table of `n` slots.
pub open spec fn slot_of(h: Hashes, d: (u32, u32), n: nat) -> int {
    (spec_displace(h.f1, h.f2, d.0, d.1) % (n as u32)) as int
}

/// The displacements `d` send the keys `bucket_keys[start..start + len]` to
/// empty slots of `map`, no two to the same slot.
spec fn disps_fit(
    hashes: Seq<Hashes>,
    bucket_keys: Seq<usize>,
    start: int,
    len: int,
    d: (u32, u32),
    map: Seq<usize>,
) -> bool {
    &&& forall|k: int|
        0 <= k < len ==> map[#[trigger] slot_of(hashes[bucket_keys[start + k] as int], d, hashes.len())]
            == EMPTY_SLOT
    &&& forall|a: int, b: int|
        0 <= a < len && 0 <= b < len && a != b ==> #[trigger] slot_of(
            hashes[bucket_keys[start + a] as int],
            d,
            hashes.len(),
        ) != #[trigger] slot_of(hashes[bucket_keys[start + b] as int], d, hashes.len())
}

/// Tries the displacements `(d1, d2)` on the keys `bucket_keys[start..start + len]`:
/// succeeds exactly when their slots are free and pairwise different, and
/// then lists each slot with its key in `values_to_add`.
fn try_disps(
    hashes: &Vec<Hashes>,
    bucket_keys: &Vec<usize>,
    start: usize,
    len: usize,
    d1: u32,
    d2: u32,
    map: &Vec<usize>,
    try_map: &mut Vec<u128>,
    generation: u128,
    values_to_add: &mut Vec<(usize, usize)>,
) -> (ok: bool)
    requires
        0 < hashes@.len() <= u32::MAX,
        map@.len() == hashes@.len(),
        old(try_map)@.len() == hashes@.len(),
        start + len <= bucket_keys@.len(),
        forall|p: int| start <= p < start + len ==> #[trigger] bucket_keys@[p] < hashes@.len(),
        forall|x: int| 0 <= x < hashes@.len() ==> #[trigger] old(try_map)@[x] < generation,
    ensures
        final(try_map)@.len() == hashes@.len(),
        forall|x: int| 0 <= x < hashes@.len() ==> #[trigger] final(try_map)@[x] <= generation,
        ok == disps_fit(hashes@, bucket_keys@, start as int, len as int, (d1, d2), map@),
        ok ==> {
            &&& final(values_to_add)@.len() == len
            &&& forall|k: int|
                0 <= k < len ==> #[trigger] final(values_to_add)@[k] == (
                    slot_of(hashes@[bucket_keys@[start + k] as int], (d1, d2), hashes@.len())
                        as usize,
                    bucket_keys@[start + k],
                )
            &&& forall|k: int|
                0 <= k < len ==> map@[(#[trigger] final(values_to_add)@[k]).0 as int]
                    == EMPTY_SLOT
            &&& forall|k1: int, k2: int|
                0 <= k1 < len && 0 <= k2 < len && k1 != k2
                    ==> (#[trigger] final(values_to_add)@[k1]).0
                    != (#[trigger] final(values_to_add)@[k2]).0
        },
{
    let ghost n = hashes@.len();
    let table_len = hashes.len() as u32;
    let keys_len = bucket_keys.len();
    values_to_add.clear();
    let mut k: usize = 0;
    while k < len
        invariant
            keys_len == bucket_keys@.len(),
            n == hashes@.len(),
            table_len == n,
            0 < n <= u32::MAX,
            k <= len,
            start + len <= bucket_keys@.len(),
            map@.len() == n,
            try_map@.len() == n,
            forall|p: int| start <= p < start + len ==> #[trigger] bucket_keys@[p] < n,
            forall|x: int| 0 <= x < n ==> #[trigger] try_map@[x] <= generation,
            values_to_add@.len() == k,
            forall|j: int|
                0 <= j < k ==> #[trigger] values_to_add@[j] == (
                    slot_of(hashes@[bucket_keys@[start + j] as int], (d1, d2), n) as usize,
                    bucket_keys@[start + j],
                ),
            forall|j: int|
                0 <= j < k ==> map@[(#[trigger] values_to_add@[j]).0 as int] == EMPTY_SLOT
                    && try_map@[values_to_add@[j].0 as int] == generation,
            forall|j1: int, j2: int|
                0 <= j1 < k && 0 <= j2 < k && j1 != j2 ==> (#[trigger] values_to_add@[j1]).0
                    != (#[trigger] values_to_add@[j2]).0,
            forall|x: int|
                0 <= x < n && #[trigger] try_map@[x] == generation ==> exists|j: int|
                    0 <= j < k && (#[trigger] values_to_add@[j]).0 == x,
        decreases len - k,
    {
        let key = bucket_keys[start + k];
        let h = hashes[key];
        let idx = (displace(h.f1, h.f2, d1, d2) % table_len) as usize;
        proof {
            let x = spec_displace(h.f1, h.f2, d1, d2);
            assert(x % table_len < table_len);
            assert(idx as int == slot_of(hashes@[bucket_keys@[start + k] as int], (d1, d2), n));
        }
        if map[idx] != EMPTY_SLOT || try_map[idx] == generation {
            proof {
                if map@[idx as int] == EMPTY_SLOT {
                    let j = choose|j: int| 0 <= j < k && (#[trigger] values_to_add@[j]).0 == idx;
                    assert(slot_of(hashes@[bucket_keys@[start + j] as int], (d1, d2), n) == values_to_add@[j].0 as int);
                    assert(slot_of(hashes@[bucket_keys@[start + j] as int], (d1, d2), n)
                        == slot_of(hashes@[bucket_keys@[start + k] as int], (d1, d2), n));
                }
            }
            return false;
        }
        let ghost tm0 = try_map@;
        let ghost va0 = values_to_add@;
        try_map.set(idx, generation);
        values_to_add.push((idx, key));
        proof {
            assert forall|x: int|
                0 <= x < n && #[trigger] try_map@[x] == generation implies exists|j: int|
                    0 <= j < k + 1 && (#[trigger] values_to_add@[j]).0 == x by {
                if x == idx {
                    assert(values_to_add@[k as int].0 == x);
                } else {
                    assert(tm0[x] == generation);
                    let j = choose|j: int| 0 <= j < k && (#[trigger] va0[j]).0 == x;
                    assert(values_to_add@[j] == va0[j]);
                }
            }
        }
        k = k + 1;
    }
    proof {
        assert forall|j: int| 0 <= j < len implies slot_of(hashes@[bucket_keys@[start + j] as int], (d1, d2), n) == values_to_add@[j].0 as int by {
            let h = hashes@[bucket_keys@[start + j] as int];
            let x = spec_displace(h.f1, h.f2, d1, d2);
            assert(x % table_len < table_len);
        }
        assert forall|a: int, b: int|
            0 <= a < len && 0 <= b < len && a != b implies #[trigger] slot_of(
                hashes@[bucket_keys@[start + a] as int],
                (d1, d2),
                n,
            ) != #[trigger] slot_of(hashes@[bucket_keys@[start + b] as int], (d1, d2), n) by {
            assert(values_to_add@[a].0 != values_to_add@[b].0);
        }
        assert forall|j: int| 0 <= j < len implies map@[#[trigger] slot_of(hashes@[bucket_keys@[start + j] as int], (d1, d2), n)]
            == EMPTY_SLOT by {
            assert(map@[values_to_add@[j].0 as int] == EMPTY_SLOT);
        }
    }
    true
}

proof fn lemma_trial_bound(g0: int, d1: int, d2: int, n: int)
    requires
        0 <= d1 < n,
        0 <= d2 < n,
    ensures
        g0 + d1 * n + d2 + 1 <= g0 + n * n,
        g0 + d1 * n + n == g0 + (d1 + 1) * n,
{
    assert(d1 * n + d2 + 1 <= n * n) by (nonlinear_arith)
        requires
            0 <= d1 < n,
            0 <= d2 < n,
    ;
    assert(d1 * n + n == (d1 + 1) * n) by (nonlinear_arith);
}

/// The displacements `d` send the keys of bucket `c` to empty slots of
/// `map`, no two to the same slot.
pub open spec fn chd_bucket_fits(hashes: Seq<Hashes>, c: int, d: (u32, u32), map: Seq<usize>) -> bool {
    let n = hashes.len();
    let bl = buckets_len(n);
    &&& forall|i: int|
        #![trigger slot_of(hashes[i], d, n)]
        0 <= i < n && bucket_of(hashes[i], bl) == c ==> map[slot_of(hashes[i], d, n)] == EMPTY_SLOT
    &&& forall|i: int, j: int|
        0 <= i < n && 0 <= j < n && i != j && bucket_of(hashes[i], bl) == c && bucket_of(hashes[j], bl) == c
            ==> #[trigger] slot_of(hashes[i], d, n) != #[trigger] slot_of(hashes[j], d, n)
}

/// The search for the keys with the hashes `hashes` is stuck: `(disps, map)`
/// places exactly the keys of the buckets in `placed`, each where its
/// bucket's displacements send it, and the bucket `c`, not placed, has no
/// displacements below the number of keys that fit it.
pub open spec fn chd_stuck(hashes: Seq<Hashes>, placed: Set<int>, c: int, disps: Seq<(u32, u32)>, map: Seq<usize>) -> bool {
    let n = hashes.len();
    let bl = buckets_len(n);
    &&& map.len() == n
    &&& disps.len() == bl
    &&& 0 <= c < bl
    &&& !placed.contains(c)
    &&& forall|i: int|
        0 <= i < n && placed.contains(#[trigger] bucket_of(hashes[i], bl)) ==> map[slot_of(
            hashes[i],
            disps[bucket_of(hashes[i], bl)],
            n,
        )] == i
    &&& forall|s: int|
        0 <= s < n && #[trigger] map[s] != EMPTY_SLOT ==> {
            let i = map[s] as int;
            &&& i < n
            &&& placed.contains(bucket_of(hashes[i], bl))
            &&& slot_of(hashes[i], disps[bucket_of(hashes[i], bl)], n) == s
        }
    &&& forall|d1: u32, d2: u32| d1 < n && d2 < n ==> !#[trigger] chd_bucket_fits(hashes, c, (d1, d2), map)
}

/// The bucket of each key, of `buckets_len(n)`.
pub open spec fn key_bucket_list(hashes: Seq<Hashes>) -> Seq<usize> {
    Seq::new(hashes.len(), |i: int| bucket_of(hashes[i], buckets_len(hashes.len())) as usize)
}

/// The number of keys in bucket `b`.
pub open spec fn bucket_size(hashes: Seq<Hashes>, b: int) -> nat {
    count_in(key_bucket_list(hashes), b, hashes.len())
}

/// Bucket `x` is placed before bucket `y`: it has more keys, or as many and
/// a lower index.
pub open spec fn placed_before(hashes: Seq<Hashes>, x: usize, y: usize) -> bool {
    bucket_size(hashes, x as int) > bucket_size(hashes, y as int) || (bucket_size(hashes, x as int)
        == bucket_size(hashes, y as int) && x < y)
}

/// `order` lists every bucket once, in the order they are placed.
pub open spec fn placement_order(hashes: Seq<Hashes>, order: Seq<usize>) -> bool {
    let bl = buckets_len(hashes.len());
    &&& order.len() == bl
    &&& forall|j: int| 0 <= j < bl ==> #[trigger] order[j] < bl
    &&& forall|j: int, k: int| 0 <= j < bl && 0 <= k < bl && j != k ==> order[j] != order[k]
    &&& forall|j: int, k: int| 0 <= j < k < bl ==> placed_before(hashes, #[trigger] order[j], #[trigger] order[k])
}

/// The displacements `d`, below the number of keys, fit bucket `c` in `map`,
/// and none tried before them does.
pub open spec fn first_fit(hashes: Seq<Hashes>, c: int, map: Seq<usize>, d: (u32, u32)) -> bool {
    let n = hashes.len();
    &&& d.0 < n && d.1 < n
    &&& chd_bucket_fits(hashes, c, d, map)
    &&& forall|e: (u32, u32)|
        tried_before(e, d) && e.1 < n ==> !#[trigger] chd_bucket_fits(hashes, c, e, map)
}

/// `map` with the keys of bucket `c` put in the slots `d` gives them.
pub open spec fn fill_bucket(hashes: Seq<Hashes>, c: int, d: (u32, u32), map: Seq<usize>) -> Seq<usize> {
    let n = hashes.len();
    let bl = buckets_len(n);
    Seq::new(
        n,
        |s: int|
            if exists|i: int| 0 <= i < n && bucket_of(hashes[i], bl) == c && slot_of(hashes[i], d, n) == s {
                (choose|i: int| 0 <= i < n && bucket_of(hashes[i], bl) == c && slot_of(hashes[i], d, n) == s) as usize
            } else {
                map[s]
            },
    )
}

/// The table after the first `k` buckets of `order` are placed, each with
/// the first displacements that fit it; `None` once one finds none.
pub open spec fn greedy(hashes: Seq<Hashes>, order: Seq<usize>, k: nat) -> Option<(Seq<(u32, u32)>, Seq<usize>)>
    decreases k,
{
    if k == 0 {
        Some(
            (
                Seq::new(buckets_len(hashes.len()), |_b: int| (0u32, 0u32)),
                Seq::new(hashes.len(), |_s: int| EMPTY_SLOT),
            ),
        )
    } else {
        match greedy(hashes, order, (k - 1) as nat) {
            None => None,
            Some(t) => {
                let c = order[k - 1] as int;
                if exists|d: (u32, u32)| first_fit(hashes, c, t.1, d) {
                    let d = choose|d: (u32, u32)| first_fit(hashes, c, t.1, d);
                    Some((t.0.update(c, d), fill_bucket(hashes, c, d, t.1)))
                } else {
                    None
                }
            },
        }
    }
}

/// The table the search gives the keys with the hashes `hashes`: the
/// buckets in their placement order, each with its first fitting
/// displacements.
pub open spec fn chd_solution(hashes: Seq<Hashes>) -> Option<(Seq<(u32, u32)>, Seq<usize>)> {
    greedy(
        hashes,
        choose|o: Seq<usize>| placement_order(hashes, o),
        buckets_len(hashes.len()),
    )
}

/// At most one pair is the first that fits.
proof fn lemma_first_fit_unique(hashes: Seq<Hashes>, c: int, map: Seq<usize>, d: (u32, u32), e: (u32, u32))
    requires
        first_fit(hashes, c, map, d),
        first_fit(hashes, c, map, e),
    ensures
        d == e,
{
    if d != e {
        if tried_before(e, d) {
            assert(!chd_bucket_fits(hashes, c, e, map));
        } else {
            assert(tried_before(d, e));
            assert(!chd_bucket_fits(hashes, c, d, map));
        }
    }
}

/// At most one order is the placement order.
proof fn lemma_order_unique(hashes: Seq<Hashes>, o1: Seq<usize>, o2: Seq<usize>)
    requires
        placement_order(hashes, o1),
        placement_order(hashes, o2),
    ensures
        o1 == o2,
{
    let bl = buckets_len(hashes.len());
    let a1 = Seq::new(bl, |j: int| o1[j] as int);
    let a2 = Seq::new(bl, |j: int| o2[j] as int);
    lemma_distinct_covers(a1, bl);
    lemma_distinct_covers(a2, bl);
    assert forall|j: int| 0 <= j < bl implies o1[j] == o2[j] by {
        lemma_order_agrees(hashes, o1, o2, j);
    }
    assert(o1 =~= o2);
}

proof fn lemma_order_agrees(hashes: Seq<Hashes>, o1: Seq<usize>, o2: Seq<usize>, j: int)
    requires
        placement_order(hashes, o1),
        placement_order(hashes, o2),
        0 <= j < buckets_len(hashes.len()),
    ensures
        forall|i: int| 0 <= i <= j ==> o1[i] == o2[i],
    decreases j,
{
    let bl = buckets_len(hashes.len());
    if j > 0 {
        lemma_order_agrees(hashes, o1, o2, j - 1);
    }
    let a1 = Seq::new(bl, |k: int| o1[k] as int);
    let a2 = Seq::new(bl, |k: int| o2[k] as int);
    lemma_distinct_covers(a1, bl);
    lemma_distinct_covers(a2, bl);
    if o1[j] != o2[j] {
        let x = o1[j];
        let y = o2[j];
        assert(takes(a2, x as int));
        let p = choose|p: int| 0 <= p < a2.len() && a2[p] == x as int;
        assert(takes(a1, y as int));
        let q = choose|q: int| 0 <= q < a1.len() && a1[q] == y as int;
        if p < j {
            assert(o1[p] == o2[p]);
        }
        if q < j {
            assert(o1[q] == o2[q]);
        }
        assert(p > j && q > j);
        assert(placed_before(hashes, o2[j], o2[p]));
        assert(placed_before(hashes, o1[j], o1[q]));
    }
}

/// One step of the search: the next bucket takes its first fitting
/// displacements.
proof fn lemma_greedy_step(
    hashes: Seq<Hashes>,
    order: Seq<usize>,
    k: nat,
    disps: Seq<(u32, u32)>,
    map: Seq<usize>,
    d: (u32, u32),
)
    requires
        greedy(hashes, order, k) == Some((disps, map)),
        first_fit(hashes, order[k as int] as int, map, d),
    ensures
        greedy(hashes, order, k + 1) == Some((disps.update(order[k as int] as int, d), fill_bucket(hashes, order[k as int] as int, d, map))),
{
    let c = order[k as int] as int;
    let d2 = choose|d2: (u32, u32)| first_fit(hashes, c, map, d2);
    lemma_first_fit_unique(hashes, c, map, d, d2);
    assert(((k + 1) - 1) as nat == k);
}

/// Once the search fails it stays failed.
proof fn lemma_greedy_stays_failed(hashes: Seq<Hashes>, order: Seq<usize>, k: nat, m: nat)
    requires
        k <= m,
        greedy(hashes, order, k) is None,
    ensures
        greedy(hashes, order, m) is None,
    decreases m - k,
{
    if k < m {
        lemma_greedy_stays_failed(hashes, order, k, (m - 1) as nat);
    }
}

/// Displacements that fit a bucket's range in `bucket_keys` fit its keys.
proof fn lemma_range_fits_bucket(
    hashes: Seq<Hashes>,
    kb: Seq<usize>,
    buckets: Seq<Bucket>,
    bucket_keys: Seq<usize>,
    c: int,
    d: (u32, u32),
    map: Seq<usize>,
)
    requires
        kb.len() == hashes.len(),
        bucket_keys.len() == hashes.len(),
        0 <= c < buckets.len(),
        buckets.len() == buckets_len(hashes.len()),
        partitioned(kb, buckets, bucket_keys, hashes.len()),
        forall|i: int| 0 <= i < hashes.len() ==> #[trigger] kb[i] == bucket_of(hashes[i], buckets.len()),
        disps_fit(hashes, bucket_keys, buckets[c].start as int, buckets[c].len as int, d, map),
    ensures
        chd_bucket_fits(hashes, c, d, map),
{
    let n = hashes.len();
    let bl = buckets_len(n);
    let st = buckets[c].start as int;
    assert forall|i: int| 0 <= i < n && bucket_of(hashes[i], bl) == c implies map[slot_of(hashes[i], d, n)] == EMPTY_SLOT by {
        assert(listed(kb, buckets, bucket_keys, i));
        let p = choose|p: int| buckets[c].start <= p < buckets[c].start + buckets[c].len && #[trigger] bucket_keys[p] == i;
        assert(bucket_keys[st + (p - st)] == i);
    }
    assert forall|i: int, j: int|
        0 <= i < n && 0 <= j < n && i != j && bucket_of(hashes[i], bl) == c && bucket_of(hashes[j], bl) == c
            implies #[trigger] slot_of(hashes[i], d, n) != #[trigger] slot_of(hashes[j], d, n) by {
        assert(listed(kb, buckets, bucket_keys, i));
        assert(listed(kb, buckets, bucket_keys, j));
        let p = choose|p: int| buckets[c].start <= p < buckets[c].start + buckets[c].len && #[trigger] bucket_keys[p] == i;
        let q = choose|q: int| buckets[c].start <= q < buckets[c].start + buckets[c].len && #[trigger] bucket_keys[q] == j;
        assert(bucket_keys[st + (p - st)] == i);
        assert(bucket_keys[st + (q - st)] == j);
    }
}

/// Displacements that fit a bucket's keys fit its range in `bucket_keys`.
proof fn lemma_bucket_fits_range(
    hashes: Seq<Hashes>,
    kb: Seq<usize>,
    buckets: Seq<Bucket>,
    bucket_keys: Seq<usize>,
    c: int,
    d: (u32, u32),
    map: Seq<usize>,
)
    requires
        kb.len() == hashes.len(),
        bucket_keys.len() == hashes.len(),
        0 <= c < buckets.len(),
        buckets.len() == buckets_len(hashes.len()),
        partitioned(kb, buckets, bucket_keys, hashes.len()),
        forall|i: int| 0 <= i < hashes.len() ==> #[trigger] kb[i] == bucket_of(hashes[i], buckets.len()),
        forall|p: int, q: int|
            0 <= p < hashes.len() && 0 <= q < hashes.len() && p != q ==> #[trigger] bucket_keys[p] != #[trigger] bucket_keys[q],
        chd_bucket_fits(hashes, c, d, map),
    ensures
        disps_fit(hashes, bucket_keys, buckets[c].start as int, buckets[c].len as int, d, map),
{
    let n = hashes.len();
    let st = buckets[c].start as int;
    let len = buckets[c].len as int;
    assert forall|k: int| 0 <= k < len implies map[#[trigger] slot_of(hashes[bucket_keys[st + k] as int], d, n)]
        == EMPTY_SLOT by {
        assert(bucket_keys[st + k] < n && kb[bucket_keys[st + k] as int] == c);
    }
    assert forall|a: int, b: int|
        0 <= a < len && 0 <= b < len && a != b implies #[trigger] slot_of(hashes[bucket_keys[st + a] as int], d, n)
            != #[trigger] slot_of(hashes[bucket_keys[st + b] as int], d, n) by {
        assert(bucket_keys[st + a] < n && kb[bucket_keys[st + a] as int] == c);
        assert(bucket_keys[st + b] < n && kb[bucket_keys[st + b] as int] == c);
        assert(bucket_keys[st + a] != bucket_keys[st + b]);
    }
}

/// `e` comes before `d` in the order the search tries displacements: by the
/// first, then by the second.
pub open spec fn tried_before(e: (u32, u32), d: (u32, u32)) -> bool {
    e.0 < d.0 || (e.0 == d.0 && e.1 < d.1)
}

/// Searches the displacements of one bucket: tries each `(d1, d2)` below the
/// table's length, `d1` first, and on the first that fits places the
/// bucket's keys and records the displacements. Fails, changing neither the
/// table nor the displacements, exactly when none fits.
fn place_bucket(
    hashes: &Vec<Hashes>,
    bucket_keys: &Vec<usize>,
    start: usize,
    len: usize,
    bucket: usize,
    disps: &mut Vec<(u32, u32)>,
    map: &mut Vec<usize>,
    try_map: &mut Vec<u128>,
    generation: &mut u128,
    values_to_add: &mut Vec<(usize, usize)>,
) -> (ok: bool)
    requires
        0 < hashes@.len() <= u32::MAX,
        old(map)@.len() == hashes@.len(),
        old(try_map)@.len() == hashes@.len(),
        bucket < old(disps)@.len(),
        start + len <= bucket_keys@.len(),
        forall|p: int| start <= p < start + len ==> #[trigger] bucket_keys@[p] < hashes@.len(),
        forall|x: int| 0 <= x < hashes@.len() ==> #[trigger] old(try_map)@[x] <= *old(generation),
        *old(generation) + hashes@.len() * hashes@.len() <= u128::MAX,
        forall|s: int|
            0 <= s < hashes@.len() ==> #[trigger] old(map)@[s] == EMPTY_SLOT || old(map)@[s]
                < hashes@.len(),
    ensures
        final(disps)@.len() == old(disps)@.len(),
        final(map)@.len() == hashes@.len(),
        final(try_map)@.len() == hashes@.len(),
        forall|x: int|
            0 <= x < hashes@.len() ==> #[trigger] final(try_map)@[x] <= *final(generation),
        *old(generation) <= *final(generation) <= *old(generation) + hashes@.len()
            * hashes@.len(),
        forall|s: int|
            0 <= s < hashes@.len() ==> #[trigger] final(map)@[s] == EMPTY_SLOT || final(map)@[s]
                < hashes@.len(),
        !ok ==> final(map)@ == old(map)@ && final(disps)@ == old(disps)@,
        !ok ==> forall|e1: u32, e2: u32|
            e1 < hashes@.len() && e2 < hashes@.len() ==> !#[trigger] disps_fit(
                hashes@,
                bucket_keys@,
                start as int,
                len as int,
                (e1, e2),
                old(map)@,
            ),
        ok ==> {
            let d = final(disps)@[bucket as int];
            &&& d.0 < hashes@.len() && d.1 < hashes@.len()
            &&& disps_fit(hashes@, bucket_keys@, start as int, len as int, d, old(map)@)
            &&& forall|e: (u32, u32)|
                tried_before(e, d) && e.1 < hashes@.len() ==> !#[trigger] disps_fit(
                    hashes@,
                    bucket_keys@,
                    start as int,
                    len as int,
                    e,
                    old(map)@,
                )
        },
        ok ==> forall|s: int|
            0 <= s < hashes@.len() && #[trigger] final(map)@[s] != old(map)@[s] ==> exists|p: int|
                start <= p < start + len && final(map)@[s] == bucket_keys@[p] && slot_of(
                    hashes@[#[trigger] bucket_keys@[p] as int],
                    final(disps)@[bucket as int],
                    hashes@.len(),
                ) == s,
        ok ==> {
            &&& forall|b: int|
                0 <= b < old(disps)@.len() && b != bucket
                    ==> #[trigger] final(disps)@[b] == old(disps)@[b]
            &&& forall|s: int|
                0 <= s < hashes@.len() && old(map)@[s] != EMPTY_SLOT ==> #[trigger] final(map)@[s]
                    == old(map)@[s]
            &&& forall|p: int|
                start <= p < start + len ==> final(map)@[slot_of(
                    hashes@[#[trigger] bucket_keys@[p] as int],
                    final(disps)@[bucket as int],
                    hashes@.len(),
                )] == bucket_keys@[p]
        },
{
    let ghost n = hashes@.len();
    let ghost g0 = *generation as int;
    let table_len = hashes.len() as u32;
    let mut d1: u32 = 0;
    while d1 < table_len
        invariant
            n == hashes@.len(),
            table_len == n,
            0 < n <= u32::MAX,
            d1 <= n,
            map@.len() == n,
            map@ == old(map)@,
            disps@ == old(disps)@,
            try_map@.len() == n,
            bucket < disps@.len(),
            start + len <= bucket_keys@.len(),
            forall|p: int| start <= p < start + len ==> #[trigger] bucket_keys@[p] < n,
            forall|x: int| 0 <= x < n ==> #[trigger] try_map@[x] <= *generation,
            *generation == g0 + d1 * n,
            g0 == *old(generation),
            forall|s: int|
                0 <= s < n ==> #[trigger] old(map)@[s] == EMPTY_SLOT || old(map)@[s] < n,
            g0 + n * n <= u128::MAX,
            forall|e: (u32, u32)|
                e.0 < d1 && e.1 < n ==> !#[trigger] disps_fit(
                    hashes@,
                    bucket_keys@,
                    start as int,
                    len as int,
                    e,
                    old(map)@,
                ),
        decreases n - d1,
    {
        let mut d2: u32 = 0;
        while d2 < table_len
            invariant
                n == hashes@.len(),
                table_len == n,
                0 < n <= u32::MAX,
                d1 < n,
                d2 <= n,
                map@ == old(map)@,
                disps@ == old(disps)@,
                map@.len() == n,
                try_map@.len() == n,
                bucket < disps@.len(),
                start + len <= bucket_keys@.len(),
                forall|p: int| start <= p < start + len ==> #[trigger] bucket_keys@[p] < n,
                forall|x: int| 0 <= x < n ==> #[trigger] try_map@[x] <= *generation,
                *generation == g0 + d1 * n + d2,
                g0 == *old(generation),
                forall|s: int|
                    0 <= s < n ==> #[trigger] old(map)@[s] == EMPTY_SLOT || old(map)@[s] < n,
                g0 + n * n <= u128::MAX,
                forall|e: (u32, u32)|
                    tried_before(e, (d1, d2)) && e.1 < n ==> !#[trigger] disps_fit(
                        hashes@,
                        bucket_keys@,
                        start as int,
                        len as int,
                        e,
                        old(map)@,
                    ),
            decreases n - d2,
        {
            proof {
                lemma_trial_bound(g0, d1 as int, d2 as int, n as int);
            }
            *generation = *generation + 1;
            let fits = try_disps(
                hashes,
                bucket_keys,
                start,
                len,
                d1,
                d2,
                map,
                try_map,
                *generation,
                values_to_add,
            );
            if fits {
                // We've picked a good set of disps
                disps.set(bucket, (d1, d2));
                let ghost map0 = map@;
                let mut w: usize = 0;
                while w < values_to_add.len()
                    invariant
                        n == hashes@.len(),
                        0 < n <= u32::MAX,
                        map@.len() == n,
                        w <= values_to_add@.len(),
                        values_to_add@.len() == len,
                        map0 == old(map)@,
                        start + len <= bucket_keys@.len(),
                        forall|p: int| start <= p < start + len ==> #[trigger] bucket_keys@[p] < n,
                        forall|k: int|
                            0 <= k < len ==> #[trigger] values_to_add@[k] == (
                                slot_of(hashes@[bucket_keys@[start + k] as int], (d1, d2), n)
                                    as usize,
                                bucket_keys@[start + k],
                            ),
                        forall|k: int|
                            0 <= k < len ==> map0[(#[trigger] values_to_add@[k]).0 as int]
                                == EMPTY_SLOT,
                        forall|k1: int, k2: int|
                            0 <= k1 < len && 0 <= k2 < len && k1 != k2 ==> (
                            #[trigger] values_to_add@[k1]).0 != (
                            #[trigger] values_to_add@[k2]).0,
                        forall|k: int|
                            0 <= k < w ==> map@[(#[trigger] values_to_add@[k]).0 as int]
                                == values_to_add@[k].1,
                        forall|s: int|
                            0 <= s < n && (forall|k: int|
                                0 <= k < w ==> (#[trigger] values_to_add@[k]).0 != s)
                                ==> #[trigger] map@[s] == map0[s],
                    decreases values_to_add@.len() - w,
                {
                    let (idx, key) = values_to_add[w];
                    proof {
                        assert(slot_of(hashes@[bucket_keys@[start + w] as int], (d1, d2), n)
                            < n);
                    }
                    map.set(idx, key);
                    proof {
                        assert forall|s: int|
                            0 <= s < n && (forall|k: int|
                                0 <= k < w + 1 ==> (#[trigger] values_to_add@[k]).0 != s)
                                implies #[trigger] map@[s] == map0[s] by {
                            assert(values_to_add@[w as int].0 != s);
                        }
                    }
                    w = w + 1;
                }
                proof {
                    assert forall|s: int|
                        0 <= s < n implies #[trigger] map@[s] == EMPTY_SLOT || map@[s] < n by {
                        if exists|k: int| 0 <= k < len && (#[trigger] values_to_add@[k]).0 == s {
                            let k = choose|k: int| 0 <= k < len && (#[trigger] values_to_add@[k]).0 == s;
                            assert(map@[s] == values_to_add@[k].1);
                            assert(bucket_keys@[start + k] < n);
                        } else {
                            assert(map@[s] == map0[s]);
                        }
                    }
                    assert forall|s: int|
                        0 <= s < n && old(map)@[s] != EMPTY_SLOT implies #[trigger] map@[s]
                        == old(map)@[s] by {
                        if exists|k: int| 0 <= k < len && (#[trigger] values_to_add@[k]).0 == s {
                            let k = choose|k: int| 0 <= k < len && (#[trigger] values_to_add@[k]).0 == s;
                            assert(map0[values_to_add@[k].0 as int] == EMPTY_SLOT);
                        }
                    }
                    assert forall|s: int|
                        0 <= s < n && #[trigger] map@[s] != old(map)@[s] implies exists|p: int|
                            start <= p < start + len && map@[s] == bucket_keys@[p] && slot_of(
                                hashes@[#[trigger] bucket_keys@[p] as int],
                                disps@[bucket as int],
                                n,
                            ) == s by {
                        if exists|k: int| 0 <= k < len && (#[trigger] values_to_add@[k]).0 == s {
                            let k = choose|k: int| 0 <= k < len && (#[trigger] values_to_add@[k]).0 == s;
                            assert(map@[s] == values_to_add@[k].1);
                            assert(slot_of(hashes@[bucket_keys@[start + k] as int], (d1, d2), n) < n);
                            assert(bucket_keys@[start + k] == values_to_add@[k].1);
                        } else {
                            assert(map@[s] == map0[s]);
                        }
                    }
                    assert forall|p: int| start <= p < start + len implies map@[slot_of(
                        hashes@[#[trigger] bucket_keys@[p] as int],
                        disps@[bucket as int],
                        n,
                    )] == bucket_keys@[p] by {
                        let k = p - start;
                        assert(values_to_add@[k] == (
                            slot_of(hashes@[bucket_keys@[start + k] as int], (d1, d2), n)
                                as usize,
                            bucket_keys@[start + k],
                        ));
                        assert(slot_of(hashes@[bucket_keys@[p] as int], (d1, d2), n) < n);
                    }
                }
                return true;
            }
            proof {
                assert forall|e: (u32, u32)|
                    tried_before(e, (d1, (d2 + 1) as u32)) && e.1 < n implies !#[trigger] disps_fit(
                        hashes@,
                        bucket_keys@,
                        start as int,
                        len as int,
                        e,
                        old(map)@,
                    ) by {
                    if e != (d1, d2) {
                        assert(tried_before(e, (d1, d2)));
                    }
                }
            }
            d2 = d2 + 1;
        }
        proof {
            lemma_trial_bound(g0, d1 as int, 0, n as int);
            assert forall|e: (u32, u32)|
                e.0 < d1 + 1 && e.1 < n implies !#[trigger] disps_fit(
                    hashes@,
                    bucket_keys@,
                    start as int,
                    len as int,
                    e,
                    old(map)@,
                ) by {
                if e.0 == d1 {
                    assert(tried_before(e, (d1, d2)));
                }
            }
        }
        d1 = d1 + 1;
    }
    // Unable to find displacements for a bucket
    false
}

/// A vector of `n` copies of `value`.
pub(crate) fn filled<T: Copy>(value: T, n: usize) -> (v: Vec<T>)
    ensures
        v@ == Seq::new(n as nat, |_i: int| value),
{
    let mut v: Vec<T> = Vec::new();
    let mut i: usize = 0;
    while i < n
        invariant
            i <= n,
            v@ == Seq::new(i as nat, |_i: int| value),
        decreases n - i,
    {
        v.push(value);
        i = i + 1;
        proof {
            assert(v@ =~= Seq::new(i as nat, |_i: int| value));
        }
    }
    v
}

/// Overwrites every element of `v` with `value`.
fn fill_with<T: Copy>(v: &mut Vec<T>, value: T)
    ensures
        final(v)@ == Seq::new(old(v)@.len(), |_i: int| value),
{
    let mut i: usize = 0;
    while i < v.len()
        invariant
            i <= v@.len(),
            v@.len() == old(v)@.len(),
            forall|j: int| 0 <= j < i ==> #[trigger] v@[j] == value,
        decreases v@.len() - i,
    {
        v.set(i, value);
        i = i + 1;
    }
    proof {
        assert(v@ =~= Seq::new(old(v)@.len(), |_i: int| value));
    }
}

/// The working state of the search, reused from one hash key to the next.
struct Generator {
    hashes: Vec<Hashes>,
    buckets: Vec<Bucket>,
    bucket_order: Vec<usize>,
    bucket_keys: Vec<usize>,
    key_buckets: Vec<usize>,
    disps: Vec<(u32, u32)>,
    map: Vec<usize>,
    try_map: Vec<u128>,
}

impl Generator {
    /// The generator is sized for a table of `n` keys.
    spec fn shaped(&self, n: nat) -> bool {
        &&& n <= u32::MAX
        &&& self.buckets@.len() == buckets_len(n)
        &&& forall|b: int| 0 <= b < self.buckets@.len() ==> (#[trigger] self.buckets@[b]).idx == b
        &&& is_perm(self.bucket_order@, buckets_len(n))
        &&& self.bucket_keys@.len() == n
        &&& self.key_buckets@.len() == n
        &&& self.disps@.len() == buckets_len(n)
        &&& self.map@.len() == n
        &&& self.try_map@.len() == n
    }

    /// The hashes are in and nothing has been counted or placed yet.
    spec fn fresh(&self) -> bool {
        &&& self.shaped(self.hashes@.len())
        &&& forall|b: int| 0 <= b < self.buckets@.len() ==> (#[trigger] self.buckets@[b]).len == 0
        &&& forall|s: int| 0 <= s < self.map@.len() ==> #[trigger] self.map@[s] == EMPTY_SLOT
        &&& forall|x: int| 0 <= x < self.try_map@.len() ==> #[trigger] self.try_map@[x] == 0
        &&& forall|b: int| 0 <= b < self.disps@.len() ==> #[trigger] self.disps@[b] == (0u32, 0u32)
    }

    fn new(table_len: usize) -> (g: Self)
        requires
            table_len <= u32::MAX,
        ensures
            g.shaped(table_len as nat),
    {
        let hashes = Vec::new();

        // `table_len / DEFAULT_LAMBDA`, rounded up, without overflow
        let buckets_len = table_len / DEFAULT_LAMBDA + if table_len % DEFAULT_LAMBDA == 0 {
            0
        } else {
            1
        };
        let mut buckets: Vec<Bucket> = Vec::new();
        let mut bucket_order: Vec<usize> = Vec::new();
        let mut i: usize = 0;
        while i < buckets_len
            invariant
                i <= buckets_len,
                buckets@.len() == i,
                bucket_order@.len() == i,
                forall|b: int| 0 <= b < i ==> (#[trigger] buckets@[b]).idx == b,
                forall|b: int| 0 <= b < i ==> #[trigger] bucket_order@[b] == b,
            decreases buckets_len - i,
        {
            buckets.push(Bucket { idx: i, start: 0, len: 0, cursor: 0 });
            bucket_order.push(i);
            i = i + 1;
        }
        let bucket_keys = filled(0usize, table_len);
        let key_buckets = filled(0usize, table_len);
        let disps = filled((0u32, 0u32), buckets_len);

        let map = filled(EMPTY_SLOT, table_len);
        let try_map = filled(0u128, table_len);

        Self { hashes, buckets, bucket_order, bucket_keys, key_buckets, disps, map, try_map }
    }

    /// Starts over with the hashes of the keys under a new hash key.
    fn reset(&mut self, hashes: Vec<Hashes>)
        requires
            old(self).shaped(hashes@.len()),
        ensures
            final(self).fresh(),
            final(self).hashes@ == hashes@,
    {
        let ghost bl = self.buckets@.len();
        let mut b: usize = 0;
        while b < self.buckets.len()
            invariant
                b <= bl,
                self.buckets@.len() == bl,
                self.bucket_order@ == old(self).bucket_order@,
                self.bucket_keys@ == old(self).bucket_keys@,
                self.key_buckets@ == old(self).key_buckets@,
                self.disps@ == old(self).disps@,
                self.map@ == old(self).map@,
                self.try_map@ == old(self).try_map@,
                forall|c: int| 0 <= c < bl ==> (#[trigger] self.buckets@[c]).idx == old(self).buckets@[c].idx,
                forall|c: int| 0 <= c < b ==> (#[trigger] self.buckets@[c]).len == 0,
            decreases bl - b,
        {
            let mut bucket = self.buckets[b];
            bucket.start = 0;
            bucket.len = 0;
            bucket.cursor = 0;
            self.buckets.set(b, bucket);
            b = b + 1;
        }
        fill_with(&mut self.disps, (0, 0));
        fill_with(&mut self.map, EMPTY_SLOT);
        fill_with(&mut self.try_map, 0);

        self.hashes = hashes;
    }

    /// Looks for displacements under the current hashes: buckets with more
    /// keys go first, and the first displacements that fit are kept.
    fn try_generate_hash(&mut self) -> (ok: bool)
        requires
            old(self).fresh(),
        ensures
            final(self).shaped(old(self).hashes@.len()),
            final(self).hashes@ == old(self).hashes@,
            ok ==> is_perfect(final(self).hashes@, final(self).disps@, final(self).map@),
            !ok ==> partitioned(
                final(self).key_buckets@,
                final(self).buckets@,
                final(self).bucket_keys@,
                old(self).hashes@.len(),
            ),
            !ok ==> forall|i: int|
                0 <= i < old(self).hashes@.len() ==> #[trigger] final(self).key_buckets@[i] == bucket_of(
                    old(self).hashes@[i],
                    buckets_len(old(self).hashes@.len()),
                ),
            ok ==> forall|b: int|
                0 <= b < final(self).disps@.len() ==> (#[trigger] final(self).disps@[b]).0 < old(self).hashes@.len()
                    && final(self).disps@[b].1 < old(self).hashes@.len(),
            !ok ==> exists|placed: Set<int>, c: int|
                #[trigger] chd_stuck(old(self).hashes@, placed, c, final(self).disps@, final(self).map@),
            ok ==> chd_solution(old(self).hashes@) == Some((final(self).disps@, final(self).map@)),
            !ok ==> chd_solution(old(self).hashes@) is None,
            old(self).hashes@.len() == 0 ==> ok,
    {
        let ghost n = self.hashes@.len();
        let ghost bl = self.buckets@.len();
        // Store bucket contents in one flat buffer instead of allocating a Vec per bucket.
        count_bucket_keys(&self.hashes, &mut self.buckets, &mut self.key_buckets);
        assign_bucket_starts(&mut self.buckets, Ghost(self.key_buckets@), Ghost(n));
        fill_bucket_keys(&self.key_buckets, &mut self.buckets, &mut self.bucket_keys);
        proof {
            lemma_partitioned(self.key_buckets@, self.buckets@, self.bucket_keys@, n);
        }
        sort_bucket_order(&self.buckets, &mut self.bucket_order);
        proof {
            lemma_listed_once(self.key_buckets@, bl as int, self.bucket_keys@);
            assert(self.key_buckets@ =~= key_bucket_list(self.hashes@));
            assert forall|j: int, k: int| 0 <= j < k < bl implies placed_before(
                self.hashes@,
                #[trigger] self.bucket_order@[j],
                #[trigger] self.bucket_order@[k],
            ) by {
                assert(goes_before(self.buckets@, self.bucket_order@[j], self.bucket_order@[k]));
            }
            assert(placement_order(self.hashes@, self.bucket_order@));
            let o = choose|o: Seq<usize>| placement_order(self.hashes@, o);
            lemma_order_unique(self.hashes@, o, self.bucket_order@);
            assert(greedy(self.hashes@, self.bucket_order@, 0) == Some((self.disps@, self.map@))) by {
                assert(self.disps@ =~= Seq::new(bl, |_b: int| (0u32, 0u32)));
                assert(self.map@ =~= Seq::new(n, |_s: int| EMPTY_SLOT));
            }
        }

        // Each placement attempt is a generation of its own; `try_map` marks
        // the slots taken in the current attempt with its generation.
        let mut generation: u128 = 0;
        let mut values_to_add: Vec<(usize, usize)> = Vec::new();
        let mut k: usize = 0;
        while k < self.bucket_order.len()
            invariant
                n == self.hashes@.len(),
                self.hashes@ == old(self).hashes@,
                bl == buckets_len(n),
                self.shaped(n),
                k <= bl,
                forall|i: int|
                    0 <= i < n ==> #[trigger] self.key_buckets@[i] == bucket_of(self.hashes@[i], bl)
                        && self.key_buckets@[i] < bl,
                partitioned(self.key_buckets@, self.buckets@, self.bucket_keys@, n),
                forall|x: int| 0 <= x < n ==> #[trigger] self.try_map@[x] <= generation,
                generation <= k * n * n,
                forall|s: int|
                    0 <= s < n ==> #[trigger] self.map@[s] == EMPTY_SLOT || self.map@[s] < n,
                forall|i: int|
                    0 <= i < n && self.bucket_order@.take(k as int).contains(
                        #[trigger] self.key_buckets@[i],
                    ) ==> self.map@[slot_of(
                        self.hashes@[i],
                        self.disps@[self.key_buckets@[i] as int],
                        n,
                    )] == i,
            forall|p: int, q: int|
                0 <= p < n && 0 <= q < n && p != q ==> #[trigger] self.bucket_keys@[p] != #[trigger] self.bucket_keys@[q],
            forall|s: int|
                0 <= s < n && #[trigger] self.map@[s] != EMPTY_SLOT ==> {
                    let i = self.map@[s] as int;
                    &&& i < n
                    &&& self.bucket_order@.take(k as int).contains(self.key_buckets@[i])
                    &&& slot_of(self.hashes@[i], self.disps@[self.key_buckets@[i] as int], n) == s
                },
            forall|j: int|
                0 <= j < k ==> (#[trigger] self.disps@[self.bucket_order@[j] as int]).0 < n
                    && self.disps@[self.bucket_order@[j] as int].1 < n,
            placement_order(self.hashes@, self.bucket_order@),
            self.key_buckets@ == key_bucket_list(self.hashes@),
            greedy(self.hashes@, self.bucket_order@, k as nat) == Some((self.disps@, self.map@)),
            chd_solution(self.hashes@) == greedy(self.hashes@, self.bucket_order@, bl),
            self.buckets@.len() == bl,
            decreases bl - k,
        {
            let bucket_idx = self.bucket_order[k];
            let bucket = self.buckets[bucket_idx];
            let ghost map0 = self.map@;
            let ghost disps0 = self.disps@;
            let ghost bo = self.bucket_order@;
            proof {
                assert(self.buckets@[bucket_idx as int].start + self.buckets@[bucket_idx as int].len
                    <= n);
                assert forall|p: int| bucket.start <= p < bucket.start + bucket.len implies #[trigger] self.bucket_keys@[p] < n by {
                    assert(self.buckets@[bucket_idx as int] == bucket);
                }
                lemma_generation_bound(generation as int, k as int, bl as int, n as int);
            }
            let ok = place_bucket(
                &self.hashes,
                &self.bucket_keys,
                bucket.start,
                bucket.len,
                bucket.idx,
                &mut self.disps,
                &mut self.map,
                &mut self.try_map,
                &mut generation,
                &mut values_to_add,
            );
            if !ok {
                proof {
                    let placed = Set::new(|b: int| exists|j: int| 0 <= j < k && bo[j] as int == b);
                    let c = bucket_idx as int;
                    assert(c == self.buckets@[c].idx);
                    assert(!placed.contains(c)) by {
                        if placed.contains(c) {
                            let j = choose|j: int| 0 <= j < k && bo[j] as int == c;
                            assert(bo[j] == bo[k as int]);
                        }
                    }
                    assert forall|i: int|
                        0 <= i < n && placed.contains(#[trigger] bucket_of(self.hashes@[i], bl)) implies self.map@[slot_of(
                            self.hashes@[i],
                            self.disps@[bucket_of(self.hashes@[i], bl)],
                            n,
                        )] == i by {
                        let j = choose|j: int| 0 <= j < k && bo[j] as int == bucket_of(self.hashes@[i], bl);
                        assert(bo.take(k as int)[j] == self.key_buckets@[i]);
                    }
                    assert forall|s: int|
                        0 <= s < n && #[trigger] self.map@[s] != EMPTY_SLOT implies {
                            let i = self.map@[s] as int;
                            &&& i < n
                            &&& placed.contains(bucket_of(self.hashes@[i], bl))
                            &&& slot_of(self.hashes@[i], self.disps@[bucket_of(self.hashes@[i], bl)], n) == s
                        } by {
                        let i = self.map@[s] as int;
                        let j = choose|j: int| 0 <= j < bo.take(k as int).len() && bo.take(k as int)[j] == self.key_buckets@[i];
                        assert(bo[j] as int == bucket_of(self.hashes@[i], bl));
                    }
                    assert forall|d1: u32, d2: u32| d1 < n && d2 < n implies !#[trigger] chd_bucket_fits(
                        self.hashes@,
                        c,
                        (d1, d2),
                        self.map@,
                    ) by {
                        if chd_bucket_fits(self.hashes@, c, (d1, d2), self.map@) {
                            lemma_bucket_fits_range(
                                self.hashes@,
                                self.key_buckets@,
                                self.buckets@,
                                self.bucket_keys@,
                                c,
                                (d1, d2),
                                self.map@,
                            );
                            assert(disps_fit(
                                self.hashes@,
                                self.bucket_keys@,
                                bucket.start as int,
                                bucket.len as int,
                                (d1, d2),
                                map0,
                            ));
                        }
                    }
                    assert(chd_stuck(self.hashes@, placed, c, self.disps@, self.map@));
                    assert(!exists|d: (u32, u32)| first_fit(self.hashes@, c, map0, d)) by {
                        if exists|d: (u32, u32)| first_fit(self.hashes@, c, map0, d) {
                            let d = choose|d: (u32, u32)| first_fit(self.hashes@, c, map0, d);
                            assert(!chd_bucket_fits(self.hashes@, c, (d.0, d.1), self.map@));
                        }
                    }
                    assert(bo[k as int] == bucket_idx);
                    assert(greedy(self.hashes@, bo, (k + 1) as nat) is None);
                    lemma_greedy_stays_failed(self.hashes@, bo, (k + 1) as nat, bl);
                }
                // Unable to find displacements for a bucket
                return false;
            }
            proof {
                assert(bo.take(k + 1) =~= bo.take(k as int).push(bucket_idx));
                assert(!bo.take(k as int).contains(bucket_idx)) by {
                    if bo.take(k as int).contains(bucket_idx) {
                        let j = choose|j: int| 0 <= j < k && bo.take(k as int)[j] == bucket_idx;
                        assert(bo[j] == bo[k as int]);
                    }
                }
                assert(bucket.idx == bucket_idx);
                assert forall|s: int|
                    0 <= s < n && #[trigger] self.map@[s] != EMPTY_SLOT implies {
                        let i = self.map@[s] as int;
                        &&& i < n
                        &&& self.bucket_order@.take(k + 1).contains(self.key_buckets@[i])
                        &&& slot_of(self.hashes@[i], self.disps@[self.key_buckets@[i] as int], n) == s
                    } by {
                    let i = self.map@[s] as int;
                    if self.map@[s] != map0[s] {
                        let p = choose|p: int|
                            bucket.start <= p < bucket.start + bucket.len && self.map@[s] == self.bucket_keys@[p]
                                && slot_of(
                                self.hashes@[#[trigger] self.bucket_keys@[p] as int],
                                self.disps@[bucket_idx as int],
                                n,
                            ) == s;
                        assert(self.buckets@[bucket_idx as int] == bucket);
                        assert(self.key_buckets@[self.bucket_keys@[p] as int] == bucket_idx);
                        assert(self.bucket_order@.take(k + 1)[k as int] == bucket_idx);
                    } else {
                        assert(map0[s] != EMPTY_SLOT);
                        let j = choose|j: int| 0 <= j < bo.take(k as int).len() && bo.take(k as int)[j] == self.key_buckets@[i];
                        assert(self.bucket_order@.take(k + 1)[j] == self.key_buckets@[i]);
                        assert(self.key_buckets@[i] != bucket_idx);
                        assert(self.disps@[self.key_buckets@[i] as int] == disps0[self.key_buckets@[i] as int]);
                    }
                }
                assert forall|j: int| 0 <= j < k + 1 implies (#[trigger] self.disps@[self.bucket_order@[j] as int]).0 < n
                    && self.disps@[self.bucket_order@[j] as int].1 < n by {
                    if j < k {
                        assert(bo[j] != bucket_idx);
                    }
                }
                let hs = self.hashes@;
                let c = bucket_idx as int;
                let d = self.disps@[c];
                assert(self.buckets@[c] == bucket);
                lemma_range_fits_bucket(hs, self.key_buckets@, self.buckets@, self.bucket_keys@, c, d, map0);
                assert forall|e: (u32, u32)| tried_before(e, d) && e.1 < n implies !#[trigger] chd_bucket_fits(hs, c, e, map0) by {
                    if chd_bucket_fits(hs, c, e, map0) {
                        lemma_bucket_fits_range(hs, self.key_buckets@, self.buckets@, self.bucket_keys@, c, e, map0);
                    }
                }
                assert(first_fit(hs, c, map0, d));
                let d2 = choose|d2: (u32, u32)| first_fit(hs, c, map0, d2);
                lemma_first_fit_unique(hs, c, map0, d, d2);
                assert(self.disps@ =~= disps0.update(c, d));
                assert forall|s: int| 0 <= s < n implies self.map@[s] == #[trigger] fill_bucket(hs, c, d, map0)[s] by {
                    if exists|i: int| 0 <= i < n && bucket_of(hs[i], bl) == c && slot_of(hs[i], d, n) == s {
                        let i = choose|i: int| 0 <= i < n && bucket_of(hs[i], bl) == c && slot_of(hs[i], d, n) == s;
                        assert(listed(self.key_buckets@, self.buckets@, self.bucket_keys@, i));
                        let p = choose|p: int|
                            self.buckets@[c].start <= p < self.buckets@[c].start + self.buckets@[c].len
                                && #[trigger] self.bucket_keys@[p] == i;
                        assert(self.map@[slot_of(hs[self.bucket_keys@[p] as int], d, n)] == self.bucket_keys@[p]);
                    } else {
                        if self.map@[s] != map0[s] {
                            let p = choose|p: int|
                                bucket.start <= p < bucket.start + bucket.len && self.map@[s] == self.bucket_keys@[p]
                                    && slot_of(hs[#[trigger] self.bucket_keys@[p] as int], self.disps@[bucket_idx as int], n) == s;
                            let i = self.bucket_keys@[p] as int;
                            assert(self.key_buckets@[i] == bucket_idx);
                            assert(i < n && bucket_of(hs[i], bl) == c && slot_of(hs[i], d, n) == s);
                        }
                    }
                }
                assert(self.map@ =~= fill_bucket(hs, c, d, map0));
                assert(bo[k as int] == bucket_idx);
                assert(greedy(hs, bo, k as nat) == Some((disps0, map0)));
                lemma_greedy_step(hs, bo, k as nat, disps0, map0, d);
                assert(greedy(hs, bo, (k + 1) as nat) == Some((self.disps@, self.map@)));
                assert forall|i: int|
                    0 <= i < n && self.bucket_order@.take(k + 1).contains(
                        #[trigger] self.key_buckets@[i],
                    ) implies self.map@[slot_of(
                    self.hashes@[i],
                    self.disps@[self.key_buckets@[i] as int],
                    n,
                )] == i by {
                    let b = self.key_buckets@[i] as int;
                    if b == bucket_idx {
                        assert(listed(self.key_buckets@, self.buckets@, self.bucket_keys@, i));
                        let p = choose|p: int|
                            self.buckets@[b].start <= p < self.buckets@[b].start
                                + self.buckets@[b].len && #[trigger] self.bucket_keys@[p] == i;
                        assert(self.bucket_keys@[p] == i);
                    } else {
                        assert(bo.take(k as int).contains(self.key_buckets@[i]));
                        let j = choose|j: int| 0 <= j < k && bo.take(k as int)[j] == b;
                        assert(bo[j] == b);
                        assert(self.disps@[b] == disps0[b]);
                        assert(map0[slot_of(self.hashes@[i], disps0[b], n)] == i);
                    }
                }
            }
            k = k + 1;
        }
        proof {
            lemma_all_placed(self.hashes@, self.key_buckets@, self.bucket_order@, self.disps@, self.map@);
            let bos = Seq::new(bl, |j: int| self.bucket_order@[j] as int);
            lemma_distinct_covers(bos, bl);
            assert forall|b: int| 0 <= b < self.disps@.len() implies (#[trigger] self.disps@[b]).0 < n && self.disps@[b].1 < n by {
                assert(takes(bos, b));
                let j = choose|j: int| 0 <= j < bos.len() && bos[j] == b;
                assert(self.bucket_order@[j] as int == b);
            }
        }
        true
    }
}

proof fn lemma_generation_bound(g: int, k: int, bl: int, n: int)
    requires
        0 <= g <= k * n * n,
        0 <= k < bl,
        bl <= n,
        n <= u32::MAX,
    ensures
        g + n * n <= (k + 1) * n * n,
        (k + 1) * n * n <= u128::MAX,
{
    assert((k + 1) * n * n == k * n * n + n * n) by (nonlinear_arith);
    assert((k + 1) * n * n <= n * n * n) by (nonlinear_arith)
        requires
            0 <= k + 1 <= n,
    ;
    assert(n * n * n <= 0xffff_ffff * 0xffff_ffff * 0xffff_ffff) by (nonlinear_arith)
        requires
            0 <= n <= 0xffff_ffff,
    ;
}

/// Once every bucket has been placed, the placement is perfect.
proof fn lemma_all_placed(
    hashes: Seq<Hashes>,
    kb: Seq<usize>,
    bo: Seq<usize>,
    disps: Seq<(u32, u32)>,
    map: Seq<usize>,
)
    requires
        hashes.len() <= u32::MAX,
        kb.len() == hashes.len(),
        map.len() == hashes.len(),
        disps.len() == buckets_len(hashes.len()),
        is_perm(bo, buckets_len(hashes.len())),
        forall|i: int|
            0 <= i < hashes.len() ==> #[trigger] kb[i] == bucket_of(hashes[i], disps.len())
                && kb[i] < disps.len(),
        forall|i: int|
            0 <= i < hashes.len() && bo.take(bo.len() as int).contains(#[trigger] kb[i])
                ==> map[slot_of(hashes[i], disps[kb[i] as int], hashes.len())] == i,
    ensures
        is_perfect(hashes, disps, map),
{
    let n = hashes.len();
    let bl = disps.len();
    let bos = Seq::new(bl, |j: int| bo[j] as int);
    lemma_distinct_covers(bos, bl);
    assert(bo.take(bo.len() as int) =~= bo);
    assert forall|i: int| 0 <= i < n implies map[spec_get_index(
        #[trigger] hashes[i],
        disps,
        n,
    ) as int] == i by {
        assert(takes(bos, kb[i] as int));
        let j = choose|j: int| 0 <= j < bos.len() && bos[j] == kb[i] as int;
        assert(bo[j] == kb[i]);
        assert(bo.contains(kb[i]));
    }
    let slots = Seq::new(n, |i: int| spec_get_index(hashes[i], disps, n) as int);
    assert forall|i: int| 0 <= i < n implies 0 <= #[trigger] slots[i] < n by {
        assert(map[spec_get_index(hashes[i], disps, n) as int] == i);
    }
    assert forall|i: int, j: int| 0 <= i < n && 0 <= j < n && i != j implies slots[i] != slots[j] by {
        assert(map[spec_get_index(hashes[i], disps, n) as int] == i);
        assert(map[spec_get_index(hashes[j], disps, n) as int] == j);
    }
    lemma_distinct_covers(slots, n);
    assert forall|s: int| 0 <= s < n implies #[trigger] map[s] < n && spec_get_index(
        hashes[map[s] as int],
        disps,
        n,
    ) == s by {
        assert(takes(slots, s));
        let i = choose|i: int| 0 <= i < slots.len() && slots[i] == s;
        assert(map[spec_get_index(hashes[i], disps, n) as int] == i);
    }
}

/// The state of fastrand's generator after one step from `state`: it grows
/// by a constant, wrapping.
pub open spec fn wyrand_advance(state: u64) -> u64 {
    ((state as int + 0x2d35_8dcc_aa6c_78a5) % 0x1_0000_0000_0000_0000) as u64
}

/// The number fastrand's generator gives in one step from `state`: the new
/// state times itself mixed with a second constant, as a 128-bit product,
/// with its low and high halves xor-ed together.
pub open spec fn wyrand_output(state: u64) -> u64 {
    let s = wyrand_advance(state);
    let t = s as int * ((s ^ 0x8bb8_4b93_962e_acc9u64) as int);
    ((t % 0x1_0000_0000_0000_0000) as u64) ^ ((t / 0x1_0000_0000_0000_0000) as u64)
}

/// The state of the generator started from `FIXED_SEED` after `t` steps.
pub open spec fn seed_state(t: nat) -> u64
    decreases t,
{
    if t == 0 {
        FIXED_SEED
    } else {
        wyrand_advance(seed_state((t - 1) as nat))
    }
}

/// The `t`th number drawn from the generator started from `FIXED_SEED`.
pub open spec fn drawn_key(t: nat) -> u64 {
    wyrand_output(seed_state(t))
}

/// One step of fastrand's generator from the state `state`: a generator
/// made by `fastrand::Rng::with_seed(state)` gives `fastrand::Rng::u64(..)`,
/// and `fastrand::Rng::get_seed` reads its state afterwards. By fastrand's
/// source (`gen_u64`), the state grows by a constant and the number mixes the
/// new state with a second constant; the contract states both.
#[verifier::external_body]
pub(crate) fn wyrand_step(state: u64) -> (r: (u64, u64))
    ensures
        r.0 == wyrand_advance(state),
        r.1 == wyrand_output(state),
{
    let mut rng = fastrand::Rng::with_seed(state);
    let x = rng.u64(..);
    (rng.get_seed(), x)
}

/// A solved table: the hash key, a displacement pair per bucket, and for
/// each slot the index of the key it holds.
pub struct HashState {
    pub key: HashKey,
    pub disps: Vec<(u32, u32)>,
    pub map: Vec<usize>,
}

/// Solves a table for `entries`, hashing them with `shared::hash`.
///
/// Keys are drawn from a generator with a fixed seed until one admits a
/// perfect placement; `None` only if every key the generator can give has
/// been tried.
pub fn generate_hash<H: PhfHash>(entries: &[H]) -> (r: Option<HashState>)
    requires
        entries@.len() <= u32::MAX,
        forall|i: int|
            0 <= i < entries@.len() ==> (#[trigger] H::phf_bytes(entries@[i]@)).len() <= usize::MAX,
    ensures
        r matches Some(state) ==> is_perfect(
            Seq::new(entries@.len(), |i: int| spec_hash(H::phf_bytes(entries@[i]@), state.key)),
            state.disps@,
            state.map@,
        ),
        r matches Some(state) ==> exists|t: nat|
            t < u64::MAX && state.key == #[trigger] drawn_key(t) && forall|u: nat|
                u < t ==> stuck_under(entries@, hash::<H>, #[trigger] drawn_key(u)),
        r is None ==> unsolvable(entries@),
        entries@.len() == 0 ==> r is Some,
        chd_generated(entries@, r),
{
    let r = generate_hash_with_hash_fn(entries, hash::<H>);
    proof {
        assert forall|key: HashKey| fails_under(entries@, hash::<H>, key) implies (#[trigger] chd_solution(
            hashes_under(entries@, key),
        )) is None by {
            let hs = choose|hs: Seq<Hashes>|
                #![trigger chd_solution(hs)]
                hs.len() == entries@.len() && (forall|i: int|
                    0 <= i < entries@.len() ==> call_ensures(hash::<H>, (&entries@[i], &key), #[trigger] hs[i]))
                    && chd_solution(hs) is None;
            assert(hs =~= hashes_under(entries@, key));
        }
        if r is Some {
            let st = r->0;
            let t = choose|t: nat|
                t < u64::MAX && st.key == #[trigger] drawn_key(t) && solves_under(
                    entries@,
                    hash::<H>,
                    drawn_key(t),
                    st.disps@,
                    st.map@,
                ) && forall|u: nat| u < t ==> fails_under(entries@, hash::<H>, #[trigger] drawn_key(u));
            let hs = choose|hs: Seq<Hashes>|
                #![trigger chd_solution(hs)]
                hs.len() == entries@.len() && (forall|i: int|
                    0 <= i < entries@.len() ==> call_ensures(hash::<H>, (&entries@[i], &drawn_key(t)), #[trigger] hs[i]))
                    && chd_solution(hs) == Some((st.disps@, st.map@));
            assert(hs =~= hashes_under(entries@, drawn_key(t)));
            assert forall|u: nat| u < t implies (#[trigger] chd_solution(hashes_under(entries@, drawn_key(u)))) is None by {
                assert(fails_under(entries@, hash::<H>, drawn_key(u)));
            }
            assert(chd_generated(entries@, r));
        } else {
            assert forall|t: nat| t < u64::MAX implies (#[trigger] chd_solution(hashes_under(entries@, drawn_key(t)))) is None by {
                assert(fails_under(entries@, hash::<H>, drawn_key(t)));
            }
        }
        if r is Some {
            let state = r->0;
            let hs = choose|hs: Seq<Hashes>|
                #![trigger is_perfect(hs, state.disps@, state.map@)]
                hs.len() == entries@.len() && (forall|i: int|
                    0 <= i < entries@.len() ==> call_ensures(
                        hash::<H>,
                        (&entries@[i], &state.key),
                        #[trigger] hs[i],
                    )) && is_perfect(hs, state.disps@, state.map@);
            assert(hs =~= Seq::new(
                entries@.len(),
                |i: int| spec_hash(H::phf_bytes(entries@[i]@), state.key),
            ));
        }
    }
    r
}

/// `state` places `entries` perfectly under some hashes that `hash_fn` may
/// give them with `state.key`.
pub open spec fn solves<T, F: Fn(&T, &HashKey) -> Hashes>(
    entries: Seq<T>,
    hash_fn: F,
    state: HashState,
) -> bool {
    exists|hs: Seq<Hashes>|
        #![trigger is_perfect(hs, state.disps@, state.map@)]
        hs.len() == entries.len() && (forall|i: int|
            0 <= i < entries.len() ==> call_ensures(
                hash_fn,
                (&entries[i], &state.key),
                #[trigger] hs[i],
            )) && is_perfect(hs, state.disps@, state.map@)
}

/// The hashes `hash_fn` may give `entries` under `key` leave the search
/// stuck at some bucket.
pub open spec fn stuck_under<T, F: Fn(&T, &HashKey) -> Hashes>(entries: Seq<T>, hash_fn: F, key: HashKey) -> bool {
    exists|hs: Seq<Hashes>, placed: Set<int>, c: int, disps: Seq<(u32, u32)>, map: Seq<usize>|
        #![trigger chd_stuck(hs, placed, c, disps, map)]
        hs.len() == entries.len() && (forall|i: int|
            0 <= i < entries.len() ==> call_ensures(hash_fn, (&entries[i], &key), #[trigger] hs[i]))
            && chd_stuck(hs, placed, c, disps, map)
}

/// Some hashes that `hash_fn` may give `entries` under `key` leave the
/// search without a table.
pub open spec fn fails_under<T, F: Fn(&T, &HashKey) -> Hashes>(entries: Seq<T>, hash_fn: F, key: HashKey) -> bool {
    exists|hs: Seq<Hashes>|
        #![trigger chd_solution(hs)]
        hs.len() == entries.len() && (forall|i: int|
            0 <= i < entries.len() ==> call_ensures(hash_fn, (&entries[i], &key), #[trigger] hs[i]))
            && chd_solution(hs) is None
}

/// Some hashes that `hash_fn` may give `entries` under `key` give the
/// table `(disps, map)`.
pub open spec fn solves_under<T, F: Fn(&T, &HashKey) -> Hashes>(
    entries: Seq<T>,
    hash_fn: F,
    key: HashKey,
    disps: Seq<(u32, u32)>,
    map: Seq<usize>,
) -> bool {
    exists|hs: Seq<Hashes>|
        #![trigger chd_solution(hs)]
        hs.len() == entries.len() && (forall|i: int|
            0 <= i < entries.len() ==> call_ensures(hash_fn, (&entries[i], &key), #[trigger] hs[i]))
            && chd_solution(hs) == Some((disps, map))
}

/// The hashes of `entries` under `key`.
pub open spec fn hashes_under<H: PhfHash>(entries: Seq<H>, key: HashKey) -> Seq<Hashes> {
    Seq::new(entries.len(), |i: int| spec_hash(H::phf_bytes(entries[i]@), key))
}

/// What `generate_hash` gives `entries`: the table of the first key drawn
/// from the generator started from `FIXED_SEED` under which the search
/// finds one, or `None` when none of the `u64::MAX` keys drawn does.
pub open spec fn chd_generated<H: PhfHash>(entries: Seq<H>, r: Option<HashState>) -> bool {
    match r {
        Some(st) => exists|t: nat|
            t < u64::MAX && st.key == #[trigger] drawn_key(t) && chd_solution(hashes_under(entries, drawn_key(t)))
                == Some((st.disps@, st.map@)) && forall|u: nat|
                u < t ==> (#[trigger] chd_solution(hashes_under(entries, drawn_key(u)))) is None,
        None => forall|t: nat| t < u64::MAX ==> (#[trigger] chd_solution(hashes_under(entries, drawn_key(t)))) is None,
    }
}

/// Under every one of the `u64::MAX` keys drawn from the generator started
/// from `FIXED_SEED`, the hashes of `keys` leave the search stuck.
pub open spec fn unsolvable<H: PhfHash>(keys: Seq<H>) -> bool {
    forall|t: nat| t < u64::MAX ==> stuck_under(keys, hash::<H>, #[trigger] drawn_key(t))
}

/// Solves a table for `entries`, hashing them with `hash_fn`.
///
/// Keys are drawn from a generator with a fixed seed until one admits a
/// perfect placement of the hashes that `hash_fn` gives under it; `None`
/// only if every key the generator can give has been tried.
pub fn generate_hash_with_hash_fn<T, F>(entries: &[T], hash_fn: F) -> (r: Option<HashState>) where
    F: Fn(&T, &HashKey) -> Hashes,

    requires
        entries@.len() <= u32::MAX,
        forall|i: int, key: HashKey|
            0 <= i < entries@.len() ==> #[trigger] call_requires(hash_fn, (&entries@[i], &key)),
    ensures
        r matches Some(state) ==> solves(entries@, hash_fn, state),
        r matches Some(state) ==> exists|t: nat|
            t < u64::MAX && state.key == #[trigger] drawn_key(t) && solves_under(
                entries@,
                hash_fn,
                drawn_key(t),
                state.disps@,
                state.map@,
            ) && forall|u: nat| u < t ==> fails_under(entries@, hash_fn, #[trigger] drawn_key(u)),
        r is None ==> forall|t: nat| t < u64::MAX ==> fails_under(entries@, hash_fn, #[trigger] drawn_key(t)),
        r matches Some(state) ==> exists|t: nat|
            t < u64::MAX && state.key == #[trigger] drawn_key(t) && forall|u: nat|
                u < t ==> stuck_under(entries@, hash_fn, #[trigger] drawn_key(u)),
        r is None ==> forall|t: nat| t < u64::MAX ==> stuck_under(entries@, hash_fn, #[trigger] drawn_key(t)),
        entries@.len() == 0 ==> r is Some,
{
    let mut generator = Generator::new(entries.len());
    let mut state: u64 = FIXED_SEED;
    let mut tried: u64 = 0;
    while tried < u64::MAX
        invariant
            entries@.len() <= u32::MAX,
            generator.shaped(entries@.len()),
            forall|i: int, key: HashKey|
                0 <= i < entries@.len() ==> #[trigger] call_requires(hash_fn, (&entries@[i], &key)),
            entries@.len() == 0 ==> tried == 0,
            state == seed_state(tried as nat),
            forall|u: nat| u < tried ==> stuck_under(entries@, hash_fn, #[trigger] drawn_key(u)),
            forall|u: nat| u < tried ==> fails_under(entries@, hash_fn, #[trigger] drawn_key(u)),
        decreases u64::MAX - tried,
    {
        let (next, key) = wyrand_step(state);
        state = next;
        proof {
            assert(key == drawn_key(tried as nat));
            assert(state == seed_state((tried + 1) as nat));
        }
        let mut hashes: Vec<Hashes> = Vec::new();
        let mut i: usize = 0;
        while i < entries.len()
            invariant
                i <= entries@.len(),
                hashes@.len() == i,
                forall|i: int, key: HashKey|
                    0 <= i < entries@.len() ==> #[trigger] call_requires(hash_fn, (&entries@[i], &key)),
                forall|j: int|
                    0 <= j < i ==> call_ensures(hash_fn, (&entries@[j], &key), #[trigger] hashes@[j]),
            decreases entries@.len() - i,
        {
            let h = hash_fn(&entries[i], &key);
            hashes.push(h);
            i = i + 1;
        }
        let ghost hs = hashes@;
        generator.reset(hashes);

        if generator.try_generate_hash() {
            let Generator { disps, map, .. } = generator;
            let state = HashState { key, disps, map };
            proof {
                assert(state.key == drawn_key(tried as nat));
                assert(hs.len() == entries@.len());
                assert(forall|j: int|
                    0 <= j < entries@.len() ==> call_ensures(
                        hash_fn,
                        (&entries@[j], &state.key),
                        #[trigger] hs[j],
                    ));
                assert(is_perfect(hs, state.disps@, state.map@));
                assert(solves(entries@, hash_fn, state));
                assert(chd_solution(hs) == Some((state.disps@, state.map@)));
                assert(solves_under(entries@, hash_fn, drawn_key(tried as nat), state.disps@, state.map@));
            }
            return Some(state);
        }
        proof {
            let (placed, c) = choose|placed: Set<int>, c: int|
                #[trigger] chd_stuck(hs, placed, c, generator.disps@, generator.map@);
            assert(chd_stuck(hs, placed, c, generator.disps@, generator.map@));
            assert(stuck_under(entries@, hash_fn, drawn_key(tried as nat)));
            assert(chd_solution(hs) is None);
            assert(fails_under(entries@, hash_fn, drawn_key(tried as nat)));
            assert forall|u: nat| u < tried + 1 implies stuck_under(entries@, hash_fn, #[trigger] drawn_key(u)) by {
                if u == tried {
                    assert(drawn_key(u) == drawn_key(tried as nat));
                }
            }
            assert forall|u: nat| u < tried + 1 implies fails_under(entries@, hash_fn, #[trigger] drawn_key(u)) by {
                if u == tried {
                    assert(drawn_key(u) == drawn_key(tried as nat));
                }
            }
        }
        tried = tried + 1;
    }
    None
}

/// Generation is reproducible: keys with the same views give the same
/// result, the same hash key and the same table.
pub proof fn law_generation_is_deterministic<H: PhfHash>(
    a: Seq<H>,
    b: Seq<H>,
    ra: Option<HashState>,
    rb: Option<HashState>,
)
    requires
        a.len() == b.len(),
        forall|i: int| 0 <= i < a.len() ==> #[trigger] a[i]@ == b[i]@,
        chd_generated(a, ra),
        chd_generated(b, rb),
    ensures
        ra is Some <==> rb is Some,
        ra matches Some(x) ==> rb matches Some(y) && x.key == y.key && x.disps@ == y.disps@ && x.map@ == y.map@,
{
    assert forall|key: HashKey| #[trigger] hashes_under(a, key) == hashes_under(b, key) by {
        assert(hashes_under(a, key) =~= hashes_under(b, key));
    }
    match (ra, rb) {
        (Some(x), Some(y)) => {
            let tx = choose|t: nat|
                t < u64::MAX && x.key == #[trigger] drawn_key(t) && chd_solution(hashes_under(a, drawn_key(t)))
                    == Some((x.disps@, x.map@)) && forall|u: nat|
                    u < t ==> (#[trigger] chd_solution(hashes_under(a, drawn_key(u)))) is None;
            let ty = choose|t: nat|
                t < u64::MAX && y.key == #[trigger] drawn_key(t) && chd_solution(hashes_under(b, drawn_key(t)))
                    == Some((y.disps@, y.map@)) && forall|u: nat|
                    u < t ==> (#[trigger] chd_solution(hashes_under(b, drawn_key(u)))) is None;
            assert(hashes_under(a, drawn_key(tx)) == hashes_under(b, drawn_key(tx)));
            assert(hashes_under(a, drawn_key(ty)) == hashes_under(b, drawn_key(ty)));
            if tx < ty {
                assert(chd_solution(hashes_under(b, drawn_key(tx))) is None);
            } else if ty < tx {
                assert(chd_solution(hashes_under(a, drawn_key(ty))) is None);
            }
        },
        (Some(x), None) => {
            let tx = choose|t: nat|
                t < u64::MAX && x.key == #[trigger] drawn_key(t) && chd_solution(hashes_under(a, drawn_key(t)))
                    == Some((x.disps@, x.map@)) && forall|u: nat|
                    u < t ==> (#[trigger] chd_solution(hashes_under(a, drawn_key(u)))) is None;
            assert(hashes_under(a, drawn_key(tx)) == hashes_under(b, drawn_key(tx)));
            assert(chd_solution(hashes_under(b, drawn_key(tx))) is None);
        },
        (None, Some(y)) => {
            let ty = choose|t: nat|
                t < u64::MAX && y.key == #[trigger] drawn_key(t) && chd_solution(hashes_under(b, drawn_key(t)))
                    == Some((y.disps@, y.map@)) && forall|u: nat|
                    u < t ==> (#[trigger] chd_solution(hashes_under(b, drawn_key(u)))) is None;
            assert(hashes_under(a, drawn_key(ty)) == hashes_under(b, drawn_key(ty)));
            assert(chd_solution(hashes_under(a, drawn_key(ty))) is None);
        },
        (None, None) => {},
    }
}

/// With a hash function that gives each key one value under each hash key,
/// a table that `generate_hash_with_hash_fn` returns places the keys by
/// those values perfectly.
pub proof fn law_solves_with_deterministic_hash<T, F: Fn(&T, &HashKey) -> Hashes>(
    entries: Seq<T>,
    hash_fn: F,
    f: spec_fn(T, HashKey) -> Hashes,
    state: HashState,
)
    requires
        forall|e: T, k: HashKey, h: Hashes| #[trigger] call_ensures(hash_fn, (&e, &k), h) ==> h == f(e, k),
        solves(entries, hash_fn, state),
    ensures
        is_perfect(Seq::new(entries.len(), |i: int| f(entries[i], state.key)), state.disps@, state.map@),
{
    let hs = choose|hs: Seq<Hashes>|
        #![trigger is_perfect(hs, state.disps@, state.map@)]
        hs.len() == entries.len() && (forall|i: int|
            0 <= i < entries.len() ==> call_ensures(hash_fn, (&entries[i], &state.key), #[trigger] hs[i]))
            && is_perfect(hs, state.disps@, state.map@);
    assert forall|i: int| 0 <= i < entries.len() implies hs[i] == f(entries[i], state.key) by {
        assert(call_ensures(hash_fn, (&entries[i], &state.key), hs[i]));
    }
    assert(hs =~= Seq::new(entries.len(), |i: int| f(entries[i], state.key)));
}

} // verus!
