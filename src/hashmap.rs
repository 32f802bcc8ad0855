//! A separately chained hash map with `u64` keys.
//!
//! Each key is hashed by feeding its eight little-endian bytes to a
//! multiplicative hasher started from the map's seed; the bucket of a key is
//! its hash modulo the number of buckets. The bucket array doubles when the
//! number of entries reaches three quarters of it.
use vstd::prelude::*;

verus! {

/// The multiplier of the hasher.
pub const HASH_MUL: u64 = 0x85EB_CA77_B2DE_4D5F;

/// The seed of a map made by `HashMap::new`.
pub const DEFAULT_SEED: u64 = 0x9E37_79B9_7F4A_7C15;

/// The bucket array stops doubling beyond this many buckets.
const MAX_BUCKETS: usize = usize::MAX / 4;

/// One step of the hasher: multiply by a fixed odd constant, add the byte.
pub open spec fn mix(h: u64, b: u8) -> u64 {
    h.wrapping_mul(HASH_MUL).wrapping_add(b as u64)
}

/// The hasher's state after `bytes`, started from `seed`.
pub open spec fn fold_bytes(seed: u64, bytes: Seq<u8>) -> u64
    decreases bytes.len(),
{
    if bytes.len() == 0 {
        seed
    } else {
        mix(fold_bytes(seed, bytes.drop_last()), bytes.last())
    }
}

/// The eight little-endian bytes of `key`.
pub open spec fn key_bytes(key: u64) -> Seq<u8> {
    Seq::new(8, |i: int| (key >> ((8 * i) as u64)) as u8)
}

/// The hash of `key` under `seed`.
pub open spec fn key_hash(seed: u64, key: u64) -> u64 {
    fold_bytes(seed, key_bytes(key))
}

struct CustomHasher {
    seed: u64,
}

impl CustomHasher {
    fn new(seed: u64) -> (r: Self)
        ensures
            r.seed == seed,
    {
        CustomHasher { seed }
    }

    fn write(&mut self, bytes: &[u8])
        ensures
            final(self).seed == fold_bytes(old(self).seed, bytes@),
    {
        let ghost s0 = self.seed;
        let mut i: usize = 0;
        while i < bytes.len()
            invariant
                i <= bytes.len(),
                self.seed == fold_bytes(s0, bytes@.take(i as int)),
            decreases bytes.len() - i,
        {
            proof {
                assert(bytes@.take(i + 1).drop_last() =~= bytes@.take(i as int));
            }
            self.seed = self.seed.wrapping_mul(HASH_MUL).wrapping_add(bytes[i] as u64);
            i = i + 1;
        }
        proof {
            assert(bytes@.take(bytes@.len() as int) =~= bytes@);
        }
    }

    fn finish(&self) -> (r: u64)
        ensures
            r == self.seed,
    {
        self.seed
    }
}

struct Entry<V> {
    key: u64,
    value: V,
    hash: u64,
}

/// A map from `u64` keys to values of type `V`.
pub struct HashMap<V> {
    buckets: Vec<Vec<Entry<V>>>,
    /// Number of entries, for the load check; it stops counting at `usize::MAX`.
    size: usize,
    seed: u64,
    contents: Ghost<Map<u64, V>>,
}

spec fn entry_ok<V>(e: Entry<V>, i: int, n: int, seed: u64, m: Map<u64, V>) -> bool {
    &&& e.hash == key_hash(seed, e.key)
    &&& e.hash as int % n == i
    &&& m.contains_key(e.key)
    &&& m[e.key] == e.value
}

spec fn bucket_ok<V>(b: Seq<Entry<V>>, i: int, n: int, seed: u64, m: Map<u64, V>) -> bool {
    &&& forall|j: int| 0 <= j < b.len() ==> entry_ok(#[trigger] b[j], i, n, seed, m)
    &&& forall|j1: int, j2: int|
        0 <= j1 < b.len() && 0 <= j2 < b.len() && j1 != j2 ==> #[trigger] b[j1].key != #[trigger] b[j2].key
}

spec fn has_key<V>(b: Seq<Entry<V>>, k: u64) -> bool {
    exists|j: int| 0 <= j < b.len() && #[trigger] b[j].key == k
}

spec fn slot(seed: u64, k: u64, n: int) -> int {
    key_hash(seed, k) as int % n
}

#[verifier::opaque]
spec fn buckets_ok<V>(bs: Seq<Vec<Entry<V>>>, seed: u64, m: Map<u64, V>) -> bool {
    &&& bs.len() > 0
    &&& forall|i: int| 0 <= i < bs.len() ==> bucket_ok(#[trigger] bs[i]@, i, bs.len() as int, seed, m)
    &&& forall|k: u64| #[trigger] m.contains_key(k) ==> has_key(bs[slot(seed, k, bs.len() as int)]@, k)
}

/// The new bucket array of a resize: every entry sits in its bucket, keys are
/// unique per bucket, and the moved keys `done` are exactly those present.
#[verifier::opaque]
spec fn moved_ok<V>(nb: Seq<Vec<Entry<V>>>, n: int, seed: u64, m: Map<u64, V>, done: Set<u64>) -> bool {
    &&& nb.len() == n
    &&& forall|i: int| 0 <= i < n ==> bucket_ok(#[trigger] nb[i]@, i, n, seed, m)
    &&& forall|i: int, j: int| 0 <= i < n && 0 <= j < nb[i]@.len() ==> done.contains(#[trigger] nb[i]@[j].key)
    &&& forall|k: u64| #[trigger] done.contains(k) ==> has_key(nb[slot(seed, k, n)]@, k)
}

/// No key of the old buckets below `hi` has been moved.
#[verifier::opaque]
spec fn none_moved<V>(ob: Seq<Vec<Entry<V>>>, hi: int, done: Set<u64>) -> bool {
    forall|i: int, j: int| 0 <= i < hi && 0 <= j < ob[i]@.len() ==> !done.contains(#[trigger] ob[i]@[j].key)
}

/// Every key of the old buckets from `lo` on has been moved.
#[verifier::opaque]
spec fn all_moved<V>(ob: Seq<Vec<Entry<V>>>, lo: int, done: Set<u64>) -> bool {
    forall|i: int, j: int| lo <= i < ob.len() && 0 <= j < ob[i]@.len() ==> done.contains(#[trigger] ob[i]@[j].key)
}

/// The keys of `b` below `mid` are not moved yet, the others are.
#[verifier::opaque]
spec fn part_moved<V>(b: Seq<Entry<V>>, mid: int, done: Set<u64>) -> bool {
    &&& forall|j: int| 0 <= j < mid ==> !done.contains(#[trigger] b[j].key)
    &&& forall|j: int| mid <= j < b.len() ==> done.contains(#[trigger] b[j].key)
}

proof fn lemma_resize_start<V>(ob: Seq<Vec<Entry<V>>>, nb: Seq<Vec<Entry<V>>>, n: int, seed: u64, m: Map<u64, V>)
    requires
        nb.len() == n,
        forall|t: int| 0 <= t < n ==> (#[trigger] nb[t])@.len() == 0,
    ensures
        moved_ok(nb, n, seed, m, Set::empty()),
        none_moved(ob, ob.len() as int, Set::empty()),
        all_moved(ob, ob.len() as int, Set::empty()),
{
    reveal(moved_ok);
    reveal(none_moved);
    reveal(all_moved);
    assert forall|i: int| 0 <= i < n implies bucket_ok(#[trigger] nb[i]@, i, n, seed, m) by {
        assert(nb[i]@.len() == 0);
    }
}

proof fn lemma_bucket_begin<V>(ob: Seq<Vec<Entry<V>>>, oi: int, done: Set<u64>)
    requires
        0 <= oi < ob.len(),
        none_moved(ob, oi + 1, done),
    ensures
        none_moved(ob, oi, done),
        part_moved(ob[oi]@, ob[oi]@.len() as int, done),
{
    reveal(none_moved);
    reveal(part_moved);
    assert forall|j: int| 0 <= j < ob[oi]@.len() implies !done.contains(#[trigger] ob[oi]@[j].key) by {
        assert(!done.contains(ob[oi]@[j].key));
    }
}

proof fn lemma_bucket_end<V>(ob: Seq<Vec<Entry<V>>>, oi: int, done: Set<u64>)
    requires
        0 <= oi < ob.len(),
        part_moved(ob[oi]@, 0, done),
        all_moved(ob, oi + 1, done),
    ensures
        all_moved(ob, oi, done),
{
    reveal(all_moved);
    reveal(part_moved);
    assert forall|i: int, j: int| oi <= i < ob.len() && 0 <= j < ob[i]@.len() implies done.contains(
        #[trigger] ob[i]@[j].key,
    ) by {
        if i == oi {
            assert(done.contains(ob[oi]@[j].key));
        }
    }
}

proof fn lemma_move_step<V>(
    ob: Seq<Vec<Entry<V>>>,
    oi: int,
    bl: int,
    nb0: Seq<Vec<Entry<V>>>,
    nb1: Seq<Vec<Entry<V>>>,
    n: int,
    seed: u64,
    m: Map<u64, V>,
    done: Set<u64>,
    ni: int,
)
    requires
        buckets_ok(ob, seed, m),
        0 <= oi < ob.len(),
        0 <= bl < ob[oi]@.len(),
        n > 0,
        0 <= ni < n,
        ob[oi]@[bl].hash as int % n == ni,
        moved_ok(nb0, n, seed, m, done),
        none_moved(ob, oi, done),
        part_moved(ob[oi]@, bl + 1, done),
        all_moved(ob, oi + 1, done),
        nb1.len() == n,
        nb1[ni]@ == nb0[ni]@.push(ob[oi]@[bl]),
        forall|i: int| 0 <= i < n && i != ni ==> nb1[i] == nb0[i],
    ensures
        moved_ok(nb1, n, seed, m, done.insert(ob[oi]@[bl].key)),
        none_moved(ob, oi, done.insert(ob[oi]@[bl].key)),
        part_moved(ob[oi]@, bl, done.insert(ob[oi]@[bl].key)),
        all_moved(ob, oi + 1, done.insert(ob[oi]@[bl].key)),
{
    reveal(buckets_ok);
    reveal(moved_ok);
    reveal(none_moved);
    reveal(part_moved);
    reveal(all_moved);
    let on = ob.len() as int;
    let e = ob[oi]@[bl];
    let d2 = done.insert(e.key);
    assert(bucket_ok(ob[oi]@, oi, on, seed, m));
    assert(entry_ok(ob[oi]@[bl], oi, on, seed, m));
    assert(!done.contains(ob[oi]@[bl].key));
    assert forall|i: int| 0 <= i < n implies bucket_ok(#[trigger] nb1[i]@, i, n, seed, m) by {
        assert(bucket_ok(nb0[i]@, i, n, seed, m));
        if i == ni {
            let b = nb1[i]@;
            assert forall|j: int| 0 <= j < b.len() implies entry_ok(#[trigger] b[j], i, n, seed, m) by {
                if j < b.len() - 1 {
                    assert(b[j] == nb0[i]@[j]);
                }
            }
            assert forall|j1: int, j2: int|
                0 <= j1 < b.len() && 0 <= j2 < b.len() && j1 != j2 implies #[trigger] b[j1].key
                != #[trigger] b[j2].key by {
                if j1 < b.len() - 1 {
                    assert(b[j1] == nb0[i]@[j1]);
                    assert(done.contains(nb0[i]@[j1].key));
                }
                if j2 < b.len() - 1 {
                    assert(b[j2] == nb0[i]@[j2]);
                    assert(done.contains(nb0[i]@[j2].key));
                }
            }
        }
    }
    assert forall|i: int, j: int| 0 <= i < n && 0 <= j < nb1[i]@.len() implies d2.contains(
        #[trigger] nb1[i]@[j].key,
    ) by {
        if i == ni && j == nb1[i]@.len() - 1 {
        } else {
            assert(nb1[i]@[j] == nb0[i]@[j]);
            assert(done.contains(nb0[i]@[j].key));
        }
    }
    assert forall|k: u64| #[trigger] d2.contains(k) implies has_key(nb1[slot(seed, k, n)]@, k) by {
        if k == e.key {
            assert(nb1[ni]@[nb0[ni]@.len() as int] == e);
        } else {
            assert(has_key(nb0[slot(seed, k, n)]@, k));
            let s = slot(seed, k, n);
            let j = choose|j: int| 0 <= j < nb0[s]@.len() && #[trigger] nb0[s]@[j].key == k;
            assert(nb1[s]@[j] == nb0[s]@[j]);
        }
    }
    assert forall|i: int, j: int| 0 <= i < oi && 0 <= j < ob[i]@.len() implies !d2.contains(
        #[trigger] ob[i]@[j].key,
    ) by {
        assert(bucket_ok(ob[i]@, i, on, seed, m));
        assert(entry_ok(ob[i]@[j], i, on, seed, m));
        assert(!done.contains(ob[i]@[j].key));
    }
    assert forall|j: int| 0 <= j < bl implies !d2.contains(#[trigger] ob[oi]@[j].key) by {
        assert(ob[oi]@[j].key != ob[oi]@[bl].key);
        assert(!done.contains(ob[oi]@[j].key));
    }
    assert forall|j: int| bl <= j < ob[oi]@.len() implies d2.contains(#[trigger] ob[oi]@[j].key) by {
        if j > bl {
            assert(done.contains(ob[oi]@[j].key));
        }
    }
    assert forall|i: int, j: int| oi + 1 <= i < on && 0 <= j < ob[i]@.len() implies d2.contains(
        #[trigger] ob[i]@[j].key,
    ) by {
        assert(done.contains(ob[i]@[j].key));
    }
}

proof fn lemma_resize_end<V>(ob: Seq<Vec<Entry<V>>>, nb: Seq<Vec<Entry<V>>>, n: int, seed: u64, m: Map<u64, V>, done: Set<u64>)
    requires
        n > 0,
        buckets_ok(ob, seed, m),
        all_moved(ob, 0, done),
        moved_ok(nb, n, seed, m, done),
    ensures
        buckets_ok(nb, seed, m),
{
    reveal(buckets_ok);
    reveal(moved_ok);
    reveal(all_moved);
    let on = ob.len() as int;
    assert forall|k: u64| #[trigger] m.contains_key(k) implies has_key(nb[slot(seed, k, n)]@, k) by {
        assert(has_key(ob[slot(seed, k, on)]@, k));
        let j = choose|j: int| 0 <= j < ob[slot(seed, k, on)]@.len() && #[trigger] ob[slot(seed, k, on)]@[j].key == k;
        assert(done.contains(ob[slot(seed, k, on)]@[j].key));
    }
}

/// Storing entry `e` at position `j` of its bucket (replacing the entry of
/// the same key, or appending) keeps the buckets consistent with the map
/// updated at `e.key`.
proof fn lemma_after_store<V>(bs: Seq<Vec<Entry<V>>>, bs2: Seq<Vec<Entry<V>>>, seed: u64, m: Map<u64, V>, e: Entry<V>, idx: int, j: int)
    requires
        buckets_ok(bs, seed, m),
        bs2.len() == bs.len(),
        e.hash == key_hash(seed, e.key),
        idx == e.hash as int % (bs.len() as int),
        forall|i: int| 0 <= i < bs.len() && i != idx ==> bs2[i] == bs[i],
        0 <= j <= bs[idx]@.len(),
        j < bs[idx]@.len() ==> bs[idx]@[j].key == e.key && bs2[idx]@ == bs[idx]@.update(j, e),
        j == bs[idx]@.len() ==> !has_key(bs[idx]@, e.key) && bs2[idx]@ == bs[idx]@.push(e),
    ensures
        buckets_ok(bs2, seed, m.insert(e.key, e.value)),
{
    reveal(buckets_ok);
    let n = bs.len() as int;
    let m2 = m.insert(e.key, e.value);
    assert(0 <= idx < n);
    assert forall|i: int| 0 <= i < n implies bucket_ok(#[trigger] bs2[i]@, i, n, seed, m2) by {
        assert(bucket_ok(bs[i]@, i, n, seed, m));
        let b = bs2[i]@;
        if i != idx {
            assert forall|t: int| 0 <= t < b.len() implies entry_ok(#[trigger] b[t], i, n, seed, m2) by {
                assert(entry_ok(bs[i]@[t], i, n, seed, m));
            }
        } else {
            assert forall|t: int| 0 <= t < b.len() implies entry_ok(#[trigger] b[t], i, n, seed, m2) by {
                if t != j {
                    assert(b[t] == bs[i]@[t]);
                    assert(entry_ok(bs[i]@[t], i, n, seed, m));
                    assert(bs[i]@[t].key != e.key);
                }
            }
            assert forall|t1: int, t2: int|
                0 <= t1 < b.len() && 0 <= t2 < b.len() && t1 != t2 implies #[trigger] b[t1].key
                != #[trigger] b[t2].key by {
                if t1 != j && t2 != j {
                    assert(b[t1] == bs[i]@[t1]);
                    assert(b[t2] == bs[i]@[t2]);
                } else if t1 == j {
                    assert(b[t2] == bs[i]@[t2]);
                } else {
                    assert(b[t1] == bs[i]@[t1]);
                }
            }
        }
    }
    assert forall|k: u64| #[trigger] m2.contains_key(k) implies has_key(bs2[slot(seed, k, n)]@, k) by {
        if k == e.key {
            assert(bs2[idx]@[j] == e);
        } else {
            assert(m.contains_key(k));
            let s = slot(seed, k, n);
            assert(has_key(bs[s]@, k));
            let t = choose|t: int| 0 <= t < bs[s]@.len() && #[trigger] bs[s]@[t].key == k;
            assert(bs2[s]@[t] == bs[s]@[t]);
        }
    }
}

/// `s` lists the entries of `m`, each key once, in some order.
pub open spec fn lists<V>(s: Seq<(u64, V)>, m: Map<u64, V>) -> bool {
    &&& forall|t: int| 0 <= t < s.len() ==> m.contains_key(#[trigger] s[t].0) && m[s[t].0] == s[t].1
    &&& forall|k: u64| #[trigger] m.contains_key(k) ==> exists|t: int| 0 <= t < s.len() && #[trigger] s[t].0 == k
    &&& forall|t1: int, t2: int| 0 <= t1 < s.len() && 0 <= t2 < s.len() && t1 != t2 ==> #[trigger] s[t1].0 != #[trigger] s[t2].0
}

spec fn deref_items<V>(s: Seq<(u64, &V)>) -> Seq<(u64, V)> {
    s.map_values(|p: (u64, &V)| (p.0, *p.1))
}

/// `s` lists the entries of buckets before `i`, then the first `j` entries of
/// bucket `i`.
#[verifier::opaque]
spec fn collected<V>(s: Seq<(u64, V)>, bs: Seq<Vec<Entry<V>>>, i: int, j: int, seed: u64, m: Map<u64, V>) -> bool {
    let n = bs.len() as int;
    &&& forall|t: int| 0 <= t < s.len() ==> m.contains_key(#[trigger] s[t].0) && m[s[t].0] == s[t].1
    &&& forall|t: int| 0 <= t < s.len() ==> slot(seed, #[trigger] s[t].0, n) < i || (slot(seed, s[t].0, n) == i
        && has_key(bs[i]@.take(j), s[t].0))
    &&& forall|t1: int, t2: int| 0 <= t1 < s.len() && 0 <= t2 < s.len() && t1 != t2 ==> #[trigger] s[t1].0 != #[trigger] s[t2].0
    &&& forall|k: u64| #[trigger] m.contains_key(k) && (slot(seed, k, n) < i || (slot(seed, k, n) == i && has_key(bs[i]@.take(j), k)))
        ==> exists|t: int| 0 <= t < s.len() && #[trigger] s[t].0 == k
}

proof fn lemma_collect_step<V>(s: Seq<(u64, V)>, bs: Seq<Vec<Entry<V>>>, i: int, j: int, seed: u64, m: Map<u64, V>)
    requires
        buckets_ok(bs, seed, m),
        0 <= i < bs.len(),
        0 <= j < bs[i]@.len(),
        collected(s, bs, i, j, seed, m),
    ensures
        collected(s.push((bs[i]@[j].key, bs[i]@[j].value)), bs, i, j + 1, seed, m),
{
    reveal(buckets_ok);
    reveal(collected);
    let n = bs.len() as int;
    let b = bs[i]@;
    let e = b[j];
    let s2 = s.push((e.key, e.value));
    assert(bucket_ok(b, i, n, seed, m));
    assert(entry_ok(b[j], i, n, seed, m));
    assert(b.take(j + 1)[j] == e);
    assert forall|k: u64| has_key(b.take(j), k) implies has_key(b.take(j + 1), k) by {
        let p = choose|p: int| 0 <= p < b.take(j).len() && #[trigger] b.take(j)[p].key == k;
        assert(b.take(j + 1)[p] == b.take(j)[p]);
    }
    assert forall|t: int| 0 <= t < s2.len() implies slot(seed, #[trigger] s2[t].0, n) < i || (slot(seed, s2[t].0, n)
        == i && has_key(b.take(j + 1), s2[t].0)) by {
        if t < s.len() {
            assert(s2[t] == s[t]);
        }
    }
    assert forall|t1: int, t2: int| 0 <= t1 < s2.len() && 0 <= t2 < s2.len() && t1 != t2 implies #[trigger] s2[t1].0
        != #[trigger] s2[t2].0 by {
        if t1 < s.len() && t2 < s.len() {
            assert(s2[t1] == s[t1] && s2[t2] == s[t2]);
        } else {
            let t = if t1 < s.len() { t1 } else { t2 };
            assert(s2[t] == s[t]);
            if slot(seed, s[t].0, n) == i {
                assert(has_key(b.take(j), s[t].0));
                let p = choose|p: int| 0 <= p < b.take(j).len() && #[trigger] b.take(j)[p].key == s[t].0;
                assert(b[p].key != b[j].key);
            }
        }
    }
    assert forall|k: u64| #[trigger] m.contains_key(k) && (slot(seed, k, n) < i || (slot(seed, k, n) == i && has_key(
        b.take(j + 1),
        k,
    ))) implies exists|t: int| 0 <= t < s2.len() && #[trigger] s2[t].0 == k by {
        if k == e.key {
            assert(s2[s.len() as int].0 == k);
        } else {
            if slot(seed, k, n) == i {
                let p = choose|p: int| 0 <= p < b.take(j + 1).len() && #[trigger] b.take(j + 1)[p].key == k;
                assert(p != j);
                assert(b.take(j)[p] == b[p]);
                assert(has_key(b.take(j), k));
            }
            let t = choose|t: int| 0 <= t < s.len() && #[trigger] s[t].0 == k;
            assert(s2[t] == s[t]);
        }
    }
}

proof fn lemma_collect_next<V>(s: Seq<(u64, V)>, bs: Seq<Vec<Entry<V>>>, i: int, seed: u64, m: Map<u64, V>)
    requires
        buckets_ok(bs, seed, m),
        0 <= i < bs.len(),
        collected(s, bs, i, bs[i]@.len() as int, seed, m),
    ensures
        collected(s, bs, i + 1, 0, seed, m),
{
    reveal(buckets_ok);
    reveal(collected);
    let n = bs.len() as int;
    assert(bs[i]@.take(bs[i]@.len() as int) =~= bs[i]@);
    assert forall|k: u64| #[trigger] m.contains_key(k) && (slot(seed, k, n) < i + 1 || (slot(seed, k, n) == i + 1
        && has_key(bs[i + 1]@.take(0), k))) implies exists|t: int| 0 <= t < s.len() && #[trigger] s[t].0 == k by {
        if slot(seed, k, n) == i {
            assert(has_key(bs[i]@, k));
        }
    }
}

proof fn lemma_collect_end<V>(s: Seq<(u64, V)>, bs: Seq<Vec<Entry<V>>>, seed: u64, m: Map<u64, V>)
    requires
        buckets_ok(bs, seed, m),
        collected(s, bs, bs.len() as int, 0, seed, m),
    ensures
        lists(s, m),
{
    reveal(buckets_ok);
    reveal(collected);
    let n = bs.len() as int;
    assert forall|k: u64| #[trigger] m.contains_key(k) implies exists|t: int| 0 <= t < s.len() && #[trigger] s[t].0 == k by {
        assert(0 <= slot(seed, k, n) < n);
    }
}

/// The entries of a map, each key once, in bucket order.
pub struct Iter<'a, V> {
    items: Vec<(u64, &'a V)>,
    pos: usize,
}

impl<'a, V> View for Iter<'a, V> {
    type V = Seq<(u64, V)>;

    /// The entries not yet handed out.
    closed spec fn view(&self) -> Seq<(u64, V)> {
        deref_items(self.items@).subrange(self.pos as int, self.items@.len() as int)
    }
}

impl<'a, V> Iter<'a, V> {
    pub closed spec fn wf(&self) -> bool {
        self.pos <= self.items@.len()
    }

    /// The next entry, or `None` when all have been handed out.
    pub fn next(&mut self) -> (r: Option<(u64, &'a V)>)
        requires
            old(self).wf(),
        ensures
            final(self).wf(),
            old(self)@.len() == 0 ==> r is None && final(self)@ == old(self)@,
            old(self)@.len() > 0 ==> (r matches Some(p) && p.0 == old(self)@[0].0 && *p.1 == old(self)@[0].1
                && final(self)@ == old(self)@.drop_first()),
    {
        if self.pos < self.items.len() {
            let p = self.items[self.pos];
            self.pos = self.pos + 1;
            proof {
                assert(self@ =~= old(self)@.drop_first());
            }
            Some(p)
        } else {
            None
        }
    }
}

/// The keys of a map, each once.
pub struct Keys<'a, V> {
    inner: Iter<'a, V>,
}

impl<'a, V> Keys<'a, V> {
    pub closed spec fn wf(&self) -> bool {
        self.inner.wf()
    }

    /// The entries whose keys are not yet handed out.
    pub closed spec fn entries(&self) -> Seq<(u64, V)> {
        self.inner@
    }

    /// The next key, or `None` when all have been handed out.
    pub fn next(&mut self) -> (r: Option<u64>)
        requires
            old(self).wf(),
        ensures
            final(self).wf(),
            old(self).entries().len() == 0 ==> r is None && final(self).entries() == old(self).entries(),
            old(self).entries().len() > 0 ==> r == Some(old(self).entries()[0].0) && final(self).entries()
                == old(self).entries().drop_first(),
    {
        match self.inner.next() {
            Some(p) => Some(p.0),
            None => None,
        }
    }
}

/// The values of a map, one per key.
pub struct Values<'a, V> {
    inner: Iter<'a, V>,
}

impl<'a, V> Values<'a, V> {
    pub closed spec fn wf(&self) -> bool {
        self.inner.wf()
    }

    /// The entries whose values are not yet handed out.
    pub closed spec fn entries(&self) -> Seq<(u64, V)> {
        self.inner@
    }

    /// The next value, or `None` when all have been handed out.
    pub fn next(&mut self) -> (r: Option<&'a V>)
        requires
            old(self).wf(),
        ensures
            final(self).wf(),
            old(self).entries().len() == 0 ==> r is None && final(self).entries() == old(self).entries(),
            old(self).entries().len() > 0 ==> (r matches Some(v) && *v == old(self).entries()[0].1
                && final(self).entries() == old(self).entries().drop_first()),
    {
        match self.inner.next() {
            Some(p) => Some(p.1),
            None => None,
        }
    }
}

impl<V> View for HashMap<V> {
    type V = Map<u64, V>;

    closed spec fn view(&self) -> Map<u64, V> {
        self.contents@
    }
}

fn find_in<V>(bucket: &Vec<Entry<V>>, key: u64) -> (r: Option<usize>)
    ensures
        r matches Some(j) ==> j < bucket@.len() && bucket@[j as int].key == key,
        r is None ==> !has_key(bucket@, key),
{
    let mut j: usize = 0;
    while j < bucket.len()
        invariant
            j <= bucket@.len(),
            forall|t: int| 0 <= t < j ==> bucket@[t].key != key,
        decreases bucket.len() - j,
    {
        if bucket[j].key == key {
            return Some(j);
        }
        j = j + 1;
    }
    None
}

impl<V> HashMap<V> {
    pub closed spec fn wf(&self) -> bool {
        buckets_ok(self.buckets@, self.seed, self.contents@)
    }

    /// An empty map with hashes seeded by `seed`.
    pub fn with_seed(seed: u64) -> (r: Self)
        ensures
            r.wf(),
            r@ == Map::<u64, V>::empty(),
    {
        proof {
            reveal(buckets_ok);
        }
        let mut buckets: Vec<Vec<Entry<V>>> = Vec::with_capacity(1);
        buckets.push(Vec::new());
        HashMap { buckets, size: 0, seed, contents: Ghost(Map::empty()) }
    }

    /// An empty map with hashes seeded by `DEFAULT_SEED`.
    pub fn new() -> (r: Self)
        ensures
            r.wf(),
            r@ == Map::<u64, V>::empty(),
    {
        Self::with_seed(DEFAULT_SEED)
    }

    fn hash_key(&self, key: &u64) -> (r: u64)
        ensures
            r == key_hash(self.seed, *key),
    {
        let k = *key;
        let mut bytes: Vec<u8> = Vec::new();
        let mut i: u64 = 0;
        while i < 8
            invariant
                i <= 8,
                bytes@ =~= key_bytes(k).take(i as int),
            decreases 8 - i,
        {
            bytes.push((k >> (8 * i)) as u8);
            i = i + 1;
        }
        proof {
            assert(key_bytes(k).take(8) =~= key_bytes(k));
        }
        let mut hasher = CustomHasher::new(self.seed);
        hasher.write(bytes.as_slice());
        hasher.finish()
    }

    /// Stores `value` under `key` and returns the value it replaces, if any.
    pub fn insert(&mut self, key: u64, value: V) -> (r: Option<V>)
        requires
            old(self).wf(),
        ensures
            final(self).wf(),
            final(self)@ == old(self)@.insert(key, value),
            old(self)@.contains_key(key) ==> r == Some(old(self)@[key]),
            !old(self)@.contains_key(key) ==> r is None,
    {
        proof {
            reveal(buckets_ok);
        }
        if self.buckets.len() <= MAX_BUCKETS && self.size >= self.buckets.len() * 3 / 4 {
            self.resize();
        }
        proof {
            reveal(buckets_ok);
        }
        let hash = self.hash_key(&key);
        let n = self.buckets.len();
        let idx = (hash % (n as u64)) as usize;
        let ghost m = self.contents@;
        let ghost bs = self.buckets@;
        let ghost e = Entry { key, value, hash };
        match find_in(&self.buckets[idx], key) {
            Some(j) => {
                proof {
                    assert(bucket_ok(bs[idx as int]@, idx as int, n as int, self.seed, m));
                    assert(entry_ok(bs[idx as int]@[j as int], idx as int, n as int, self.seed, m));
                }
                let bucket = &mut self.buckets[idx];
                let old_e = bucket.remove(j);
                bucket.insert(j, Entry { key, value, hash });
                proof {
                    self.contents@ = m.insert(key, value);
                    assert(self.buckets@[idx as int]@ =~= bs[idx as int]@.update(j as int, e));
                    lemma_after_store(bs, self.buckets@, self.seed, m, e, idx as int, j as int);
                }
                Some(old_e.value)
            },
            None => {
                self.buckets[idx].push(Entry { key, value, hash });
                if self.size < usize::MAX {
                    self.size = self.size + 1;
                }
                proof {
                    self.contents@ = m.insert(key, value);
                    assert(self.buckets@[idx as int]@ =~= bs[idx as int]@.push(e));
                    lemma_after_store(bs, self.buckets@, self.seed, m, e, idx as int, bs[idx as int]@.len() as int);
                }
                None
            },
        }
    }

    /// Doubles the bucket array and moves every entry to its new bucket.
    fn resize(&mut self)
        requires
            old(self).wf(),
            old(self).buckets@.len() <= MAX_BUCKETS,
        ensures
            final(self).wf(),
            final(self)@ == old(self)@,
            final(self).seed == old(self).seed,
            final(self).size == old(self).size,
    {
        proof {
            reveal(buckets_ok);
        }
        let new_capacity = self.buckets.len() * 2;
        let mut new_buckets: Vec<Vec<Entry<V>>> = Vec::with_capacity(new_capacity);
        let mut i: usize = 0;
        while i < new_capacity
            invariant
                i <= new_capacity,
                new_buckets@.len() == i,
                forall|t: int| 0 <= t < i ==> (#[trigger] new_buckets@[t])@.len() == 0,
            decreases new_capacity - i,
        {
            new_buckets.push(Vec::new());
            i = i + 1;
        }
        let ghost m = self.contents@;
        let ghost seed = self.seed;
        let ghost n = new_capacity as int;
        let mut old_buckets: Vec<Vec<Entry<V>>> = Vec::new();
        std::mem::swap(&mut old_buckets, &mut self.buckets);
        let ghost ob = old_buckets@;
        let ghost mut done: Set<u64> = Set::empty();
        proof {
            lemma_resize_start(ob, new_buckets@, n, seed, m);
        }
        while old_buckets.len() > 0
            invariant
                buckets_ok(ob, seed, m),
                n == new_capacity,
                n > 0,
                old_buckets@.len() <= ob.len(),
                old_buckets@ == ob.take(old_buckets@.len() as int),
                moved_ok(new_buckets@, n, seed, m, done),
                none_moved(ob, old_buckets@.len() as int, done),
                all_moved(ob, old_buckets@.len() as int, done),
            decreases old_buckets@.len(),
        {
            let ghost olen = old_buckets@.len() as int;
            let mut bucket = old_buckets.pop().unwrap();
            let ghost oi = old_buckets@.len() as int;
            proof {
                assert(bucket == ob[oi]);
                assert(old_buckets@ =~= ob.take(oi));
                lemma_bucket_begin(ob, oi, done);
            }
            while bucket.len() > 0
                invariant
                    buckets_ok(ob, seed, m),
                    n == new_capacity,
                    n > 0,
                    0 <= oi < ob.len(),
                    bucket@.len() <= ob[oi]@.len(),
                    bucket@ == ob[oi]@.take(bucket@.len() as int),
                    moved_ok(new_buckets@, n, seed, m, done),
                    none_moved(ob, oi, done),
                    part_moved(ob[oi]@, bucket@.len() as int, done),
                    all_moved(ob, oi + 1, done),
                decreases bucket@.len(),
            {
                let e = bucket.pop().unwrap();
                let ghost bl = bucket@.len() as int;
                assert(e == ob[oi]@[bl]);
                let ni = (e.hash % (new_capacity as u64)) as usize;
                let ghost nb0 = new_buckets@;
                let ghost k = e.key;
                proof {
                    reveal(moved_ok);
                }
                new_buckets[ni].push(e);
                proof {
                    assert(new_buckets@[ni as int]@ =~= nb0[ni as int]@.push(ob[oi]@[bl]));
                    lemma_move_step(ob, oi, bl, nb0, new_buckets@, n, seed, m, done, ni as int);
                    done = done.insert(k);
                    assert(bucket@ =~= ob[oi]@.take(bl));
                }
            }
            proof {
                lemma_bucket_end(ob, oi, done);
            }
        }
        proof {
            lemma_resize_end(ob, new_buckets@, n, seed, m, done);
        }
        self.buckets = new_buckets;
    }

    /// All entries, each key once, in bucket order.
    pub fn iter(&self) -> (r: Iter<'_, V>)
        requires
            self.wf(),
        ensures
            r.wf(),
            lists(r@, self@),
    {
        let ghost bs = self.buckets@;
        let ghost m = self@;
        let ghost seed = self.seed;
        let mut items: Vec<(u64, &V)> = Vec::new();
        proof {
            reveal(buckets_ok);
            reveal(collected);
            assert(deref_items(items@) =~= Seq::<(u64, V)>::empty());
        }
        let mut i: usize = 0;
        while i < self.buckets.len()
            invariant
                buckets_ok(bs, seed, m),
                bs == self.buckets@,
                m == self@,
                seed == self.seed,
                i <= bs.len(),
                collected(deref_items(items@), bs, i as int, 0, seed, m),
            decreases bs.len() - i,
        {
            let bucket = &self.buckets[i];
            let mut j: usize = 0;
            while j < bucket.len()
                invariant
                    buckets_ok(bs, seed, m),
                    bs == self.buckets@,
                    i < bs.len(),
                    *bucket == bs[i as int],
                    j <= bucket@.len(),
                    collected(deref_items(items@), bs, i as int, j as int, seed, m),
                decreases bucket@.len() - j,
            {
                let e = &bucket[j];
                let ghost s0 = deref_items(items@);
                items.push((e.key, &e.value));
                proof {
                    assert(deref_items(items@) =~= s0.push((bs[i as int]@[j as int].key, bs[i as int]@[j as int].value)));
                    lemma_collect_step(s0, bs, i as int, j as int, seed, m);
                }
                j = j + 1;
            }
            proof {
                lemma_collect_next(deref_items(items@), bs, i as int, seed, m);
            }
            i = i + 1;
        }
        proof {
            lemma_collect_end(deref_items(items@), bs, seed, m);
            assert(deref_items(items@).subrange(0, items@.len() as int) =~= deref_items(items@));
        }
        Iter { items, pos: 0 }
    }

    /// All keys, each once.
    pub fn keys(&self) -> (r: Keys<'_, V>)
        requires
            self.wf(),
        ensures
            r.wf(),
            lists(r.entries(), self@),
    {
        Keys { inner: self.iter() }
    }

    /// All values, one per key.
    pub fn values(&self) -> (r: Values<'_, V>)
        requires
            self.wf(),
        ensures
            r.wf(),
            lists(r.entries(), self@),
    {
        Values { inner: self.iter() }
    }

    /// The value stored under `key`, if any.
    pub fn get(&self, key: &u64) -> (r: Option<&V>)
        requires
            self.wf(),
        ensures
            r matches Some(v) ==> self@.contains_key(*key) && *v == self@[*key],
            r is None ==> !self@.contains_key(*key),
    {
        proof {
            reveal(buckets_ok);
        }
        let hash = self.hash_key(key);
        let idx = (hash % (self.buckets.len() as u64)) as usize;
        let bucket = &self.buckets[idx];
        match find_in(bucket, *key) {
            Some(j) => {
                proof {
                    assert(entry_ok(bucket@[j as int], idx as int, self.buckets@.len() as int, self.seed, self@));
                }
                Some(&bucket[j].value)
            },
            None => {
                proof {
                    if self@.contains_key(*key) {
                        assert(has_key(self.buckets@[slot(self.seed, *key, self.buckets@.len() as int)]@, *key));
                    }
                }
                None
            },
        }
    }
}

} // verus!
