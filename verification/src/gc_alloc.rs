//! Comparing what is known of buckets: before and after a collection, and in
//! the alloc and freespace trees.

use crate::btree::Btree;
use crate::buckets::{BchAllocEntry, BchAllocator, BchDataType, Bucket};
use crate::engine::{tree_ok, BtreeEngine};
use crate::error::StorageError;
use crate::gc::Discrepancy;
use crate::ids::BtreeId;
use crate::key::{BtreeEntry, KeyType, KeyValue};
use std::collections::{HashMap, HashSet};
use vstd::prelude::*;

verus! {

// ── before and after a collection ───────────────────────────────────────

/// Those of the first `n` buckets that are in use, with what for.
pub open spec fn in_use(bs: Seq<Bucket>, n: int) -> Seq<(u64, BchDataType)>
    decreases n,
{
    if n <= 0 {
        Seq::empty()
    } else if bs[n - 1].spec_in_use() {
        in_use(bs, n - 1).push(((n - 1) as u64, bs[n - 1].state))
    } else {
        in_use(bs, n - 1)
    }
}

/// The buckets that are in use, with what for.
pub fn bch2_gc_alloc_start(allocator: &BchAllocator) -> (r: Vec<(u64, BchDataType)>)
    ensures
        r@ == in_use(allocator.buckets@, allocator.buckets@.len() as int),
{
    let ghost bs = allocator.buckets@;
    let mut out: Vec<(u64, BchDataType)> = Vec::new();
    let mut i: usize = 0;
    assert(out@ =~= in_use(bs, 0));
    while i < allocator.buckets.len()
        invariant
            bs == allocator.buckets@,
            i <= bs.len(),
            out@ == in_use(bs, i as int),
        decreases bs.len() - i,
    {
        let b = allocator.buckets[i];
        if b.in_use() {
            out.push((i as u64, b.state));
        }
        i = i + 1;
    }
    out
}

/// Whether bucket `b` exists and is in use.
pub open spec fn used(bs: Seq<Bucket>, b: u64) -> bool {
    b < bs.len() && bs[b as int].spec_in_use()
}

/// Whether a snapshot has bucket `b`.
pub open spec fn noted(snap: Seq<(u64, BchDataType)>, b: u64) -> bool {
    exists|i: int| 0 <= i < snap.len() && (#[trigger] snap[i]).0 == b
}

/// Those of the first `n` buckets of a snapshot that are not in use any more.
pub open spec fn released(snap: Seq<(u64, BchDataType)>, bs: Seq<Bucket>, n: int) -> Seq<Discrepancy>
    decreases n,
{
    if n <= 0 {
        Seq::empty()
    } else if !used(bs, snap[n - 1].0) {
        released(snap, bs, n - 1).push(
            Discrepancy::Released { bucket: snap[n - 1].0, was: snap[n - 1].1 },
        )
    } else {
        released(snap, bs, n - 1)
    }
}

/// Those of the first `n` buckets that are in use and not in a snapshot.
pub open spec fn allocated(
    snap: Seq<(u64, BchDataType)>,
    bs: Seq<Bucket>,
    n: int,
) -> Seq<Discrepancy>
    decreases n,
{
    if n <= 0 {
        Seq::empty()
    } else if bs[n - 1].spec_in_use() && !noted(snap, (n - 1) as u64) {
        allocated(snap, bs, n - 1).push(
            Discrepancy::Allocated { bucket: (n - 1) as u64, now: bs[n - 1].state },
        )
    } else {
        allocated(snap, bs, n - 1)
    }
}

/// Those of the first `n` buckets of a snapshot that are used for something
/// else now.
pub open spec fn changed(snap: Seq<(u64, BchDataType)>, bs: Seq<Bucket>, n: int) -> Seq<Discrepancy>
    decreases n,
{
    if n <= 0 {
        Seq::empty()
    } else if used(bs, snap[n - 1].0) && bs[snap[n - 1].0 as int].state != snap[n - 1].1 {
        changed(snap, bs, n - 1).push(
            Discrepancy::Changed {
                bucket: snap[n - 1].0,
                was: snap[n - 1].1,
                now: bs[snap[n - 1].0 as int].state,
            },
        )
    } else {
        changed(snap, bs, n - 1)
    }
}

fn state_if_used(allocator: &BchAllocator, b: u64) -> (r: Option<BchDataType>)
    ensures
        r == (if used(allocator.buckets@, b) {
            Some(allocator.buckets@[b as int].state)
        } else {
            None
        }),
{
    let n: usize = allocator.buckets.len();
    if b >= n as u64 {
        return None;
    }
    let bucket = allocator.buckets[b as usize];
    if bucket.in_use() {
        Some(bucket.state)
    } else {
        None
    }
}

fn snapshot_buckets(snapshot: &Vec<(u64, BchDataType)>) -> (r: HashSet<u64>)
    ensures
        forall|b: u64| #[trigger] r@.contains(b) <==> noted(snapshot@, b),
{
    broadcast use vstd::std_specs::hash::group_hash_axioms;

    let ghost snap = snapshot@;
    let mut out: HashSet<u64> = HashSet::new();
    let mut i: usize = 0;
    while i < snapshot.len()
        invariant
            snap == snapshot@,
            i <= snap.len(),
            forall|b: u64| #[trigger]
                out@.contains(b) <==> exists|j: int| 0 <= j < i && (#[trigger] snap[j]).0 == b,
        decreases snap.len() - i,
    {
        let ghost before = out@;
        let k: u64 = snapshot[i].0;
        out.insert(k);
        proof {
            assert forall|b: u64| #[trigger] out@.contains(b) <==> exists|j: int|
                0 <= j < i + 1 && (#[trigger] snap[j]).0 == b by {
                if out@.contains(b) && b != k {
                    assert(before.contains(b));
                }
                if b == k {
                    assert(snap[i as int].0 == b);
                }
            }
        }
        i = i + 1;
    }
    out
}

/// How the buckets differ from a snapshot: those that are not in use any more,
/// those that were not in use, and those that are used for something else.
pub fn bch2_gc_alloc_done(
    _engine: &BtreeEngine,
    allocator: &BchAllocator,
    snapshot: Vec<(u64, BchDataType)>,
) -> (r: Result<Vec<Discrepancy>, StorageError>)
    ensures
        r is Ok,
        ({
            let snap = snapshot@;
            let bs = allocator.buckets@;
            r->Ok_0@ == released(snap, bs, snap.len() as int) + allocated(
                snap,
                bs,
                bs.len() as int,
            ) + changed(snap, bs, snap.len() as int)
        }),
{
    let ghost snap = snapshot@;
    let ghost bs = allocator.buckets@;
    let mut out: Vec<Discrepancy> = Vec::new();
    let mut i: usize = 0;
    assert(out@ =~= released(snap, bs, 0));
    while i < snapshot.len()
        invariant
            snap == snapshot@,
            bs == allocator.buckets@,
            i <= snap.len(),
            out@ == released(snap, bs, i as int),
        decreases snap.len() - i,
    {
        let (b, was) = snapshot[i];
        if state_if_used(allocator, b).is_none() {
            out.push(Discrepancy::Released { bucket: b, was });
        }
        i = i + 1;
    }
    let ghost first = out@;
    let known: HashSet<u64> = snapshot_buckets(&snapshot);
    let mut j: usize = 0;
    assert(out@ =~= first + allocated(snap, bs, 0));
    while j < allocator.buckets.len()
        invariant
            snap == snapshot@,
            bs == allocator.buckets@,
            j <= bs.len(),
            forall|b: u64| #[trigger] known@.contains(b) <==> noted(snap, b),
            out@ == first + allocated(snap, bs, j as int),
        decreases bs.len() - j,
    {
        broadcast use vstd::std_specs::hash::group_hash_axioms;

        let b = allocator.buckets[j];
        let ghost before = out@;
        if b.in_use() && !known.contains(&(j as u64)) {
            out.push(Discrepancy::Allocated { bucket: j as u64, now: b.state });
        }
        assert(out@ =~= first + allocated(snap, bs, j + 1));
        j = j + 1;
    }
    let ghost second = out@;
    let mut k: usize = 0;
    assert(out@ =~= second + changed(snap, bs, 0));
    while k < snapshot.len()
        invariant
            snap == snapshot@,
            bs == allocator.buckets@,
            k <= snap.len(),
            out@ == second + changed(snap, bs, k as int),
        decreases snap.len() - k,
    {
        let (b, was) = snapshot[k];
        if let Some(now) = state_if_used(allocator, b) {
            if now != was {
                out.push(Discrepancy::Changed { bucket: b, was, now });
            }
        }
        assert(out@ =~= second + changed(snap, bs, k + 1));
        k = k + 1;
    }
    Ok(out)
}

/// Whether bucket `b` is in use, and for what a snapshot says.
pub open spec fn as_noted(bs: Seq<Bucket>, x: (u64, BchDataType)) -> bool {
    used(bs, x.0) && bs[x.0 as int].state == x.1
}

/// How many of the first `n` buckets of a snapshot are not in use as it says.
pub open spec fn count_differing(
    snap: Seq<(u64, BchDataType)>,
    bs: Seq<Bucket>,
    n: int,
) -> int
    decreases n,
{
    if n <= 0 {
        0
    } else {
        count_differing(snap, bs, n - 1) + (if as_noted(bs, snap[n - 1]) {
            0int
        } else {
            1int
        })
    }
}

/// How many of the first `n` buckets are in use and not in a snapshot.
pub open spec fn count_new(snap: Seq<(u64, BchDataType)>, bs: Seq<Bucket>, n: int) -> int
    decreases n,
{
    if n <= 0 {
        0
    } else {
        count_new(snap, bs, n - 1) + (if bs[n - 1].spec_in_use() && !noted(snap, (n - 1) as u64) {
            1int
        } else {
            0int
        })
    }
}

/// A comparison with a snapshot reports each bucket of the snapshot that is not
/// in use as it says, and each other bucket in use, once. It reports nothing if
/// and only if the snapshot has just the buckets in use, with what for.
pub proof fn lemma_compared(snap: Seq<(u64, BchDataType)>, bs: Seq<Bucket>)
    requires
        bs.len() <= u64::MAX,
    ensures
        ({
            let r = released(snap, bs, snap.len() as int) + allocated(
                snap,
                bs,
                bs.len() as int,
            ) + changed(snap, bs, snap.len() as int);
            &&& r.len() == count_differing(snap, bs, snap.len() as int) + count_new(
                snap,
                bs,
                bs.len() as int,
            )
            &&& r.len() == 0 <==> (forall|i: int|
                0 <= i < snap.len() ==> as_noted(bs, #[trigger] snap[i])) && (forall|b: u64|
                b < bs.len() && (#[trigger] bs[b as int]).spec_in_use() ==> noted(snap, b))
        }),
{
    lemma_compared_pairs(snap, bs, snap.len() as int);
    lemma_compared_buckets(snap, bs, bs.len() as int);
    let c = count_new(snap, bs, bs.len() as int);
    if c == 0 {
        assert forall|b: u64| b < bs.len() && (#[trigger] bs[b as int]).spec_in_use() implies noted(
            snap,
            b,
        ) by {}
    }
    if forall|b: u64| b < bs.len() && (#[trigger] bs[b as int]).spec_in_use() ==> noted(snap, b) {
        assert forall|i: int| 0 <= i < bs.len() && (#[trigger] bs[i]).spec_in_use() implies noted(
            snap,
            i as u64,
        ) by {
            assert(bs[(i as u64) as int].spec_in_use());
        }
    }
}

proof fn lemma_compared_pairs(snap: Seq<(u64, BchDataType)>, bs: Seq<Bucket>, n: int)
    requires
        0 <= n <= snap.len(),
    ensures
        released(snap, bs, n).len() + changed(snap, bs, n).len() == count_differing(snap, bs, n),
        count_differing(snap, bs, n) >= 0,
        count_differing(snap, bs, n) == 0 <==> forall|i: int|
            0 <= i < n ==> as_noted(bs, #[trigger] snap[i]),
    decreases n,
{
    if n > 0 {
        lemma_compared_pairs(snap, bs, n - 1);
        if count_differing(snap, bs, n) == 0 {
            assert(as_noted(bs, snap[n - 1]));
        }
    }
}

proof fn lemma_compared_buckets(snap: Seq<(u64, BchDataType)>, bs: Seq<Bucket>, n: int)
    requires
        0 <= n <= bs.len() <= u64::MAX,
    ensures
        allocated(snap, bs, n).len() == count_new(snap, bs, n),
        count_new(snap, bs, n) >= 0,
        count_new(snap, bs, n) == 0 <==> forall|i: int|
            0 <= i < n && (#[trigger] bs[i]).spec_in_use() ==> noted(snap, i as u64),
    decreases n,
{
    if n > 0 {
        lemma_compared_buckets(snap, bs, n - 1);
        if count_new(snap, bs, n) == 0 {
            assert(bs[n - 1].spec_in_use() ==> noted(snap, (n - 1) as u64));
        }
    }
}

/// Nothing differs from a snapshot that was just taken.
pub proof fn lemma_fresh_snapshot(bs: Seq<Bucket>)
    requires
        bs.len() <= u64::MAX,
    ensures
        ({
            let snap = in_use(bs, bs.len() as int);
            &&& released(snap, bs, snap.len() as int).len() == 0
            &&& allocated(snap, bs, bs.len() as int).len() == 0
            &&& changed(snap, bs, snap.len() as int).len() == 0
        }),
{
    let snap = in_use(bs, bs.len() as int);
    lemma_in_use(bs, bs.len() as int);
    lemma_fresh_pairs(bs, snap, snap.len() as int);
    lemma_fresh_buckets(bs, snap, bs.len() as int);
}

proof fn lemma_in_use(bs: Seq<Bucket>, n: int)
    requires
        0 <= n <= bs.len(),
        bs.len() <= u64::MAX,
    ensures
        forall|i: int|
            0 <= i < in_use(bs, n).len() ==> used(bs, (#[trigger] in_use(bs, n)[i]).0)
                && bs[in_use(bs, n)[i].0 as int].state == in_use(bs, n)[i].1,
        forall|b: u64| b < n && (#[trigger] bs[b as int]).spec_in_use() ==> noted(in_use(bs, n), b),
    decreases n,
{
    if n > 0 {
        lemma_in_use(bs, n - 1);
        let f = in_use(bs, n - 1);
        let s = in_use(bs, n);
        assert forall|b: u64| b < n && (#[trigger] bs[b as int]).spec_in_use() implies noted(s, b) by {
            if b < n - 1 {
                assert(noted(f, b));
                let i = choose|i: int| 0 <= i < f.len() && (#[trigger] f[i]).0 == b;
                assert(s[i] == f[i]);
            } else {
                assert(s[s.len() - 1].0 == b);
            }
        }
    }
}

proof fn lemma_fresh_pairs(bs: Seq<Bucket>, snap: Seq<(u64, BchDataType)>, n: int)
    requires
        0 <= n <= snap.len(),
        forall|i: int|
            0 <= i < snap.len() ==> used(bs, (#[trigger] snap[i]).0) && bs[snap[i].0 as int].state
                == snap[i].1,
    ensures
        released(snap, bs, n).len() == 0,
        changed(snap, bs, n).len() == 0,
    decreases n,
{
    if n > 0 {
        lemma_fresh_pairs(bs, snap, n - 1);
        assert(used(bs, snap[n - 1].0));
    }
}

proof fn lemma_fresh_buckets(bs: Seq<Bucket>, snap: Seq<(u64, BchDataType)>, n: int)
    requires
        0 <= n <= bs.len(),
        bs.len() <= u64::MAX,
        forall|b: u64| b < bs.len() && (#[trigger] bs[b as int]).spec_in_use() ==> noted(snap, b),
    ensures
        allocated(snap, bs, n).len() == 0,
    decreases n,
{
    if n > 0 {
        lemma_fresh_buckets(bs, snap, n - 1);
        let b = (n - 1) as u64;
        if bs[n - 1].spec_in_use() {
            assert(bs[b as int].spec_in_use());
        }
    }
}

// ── the alloc and freespace trees ───────────────────────────────────────

/// The raw value of a normal entry.
pub open spec fn raw_value(e: BtreeEntry) -> Option<Vec<u8>> {
    match e.value {
        KeyValue::Raw(b) => if e.key_type == KeyType::Normal {
            Some(b)
        } else {
            None
        },
        _ => None,
    }
}

/// Whether `ds` is what `decode` made of the raw values of `es`.
pub open spec fn decoded<F: Fn(&Vec<u8>) -> Option<BchAllocEntry>>(
    decode: F,
    es: Seq<BtreeEntry>,
    ds: Seq<Option<BchAllocEntry>>,
) -> bool {
    &&& ds.len() == es.len()
    &&& forall|i: int|
        0 <= i < es.len() ==> match raw_value(#[trigger] es[i]) {
            Some(b) => decode.ensures((&b,), ds[i]),
            None => ds[i] is None,
        }
}

/// Those of the first `n` entries whose value cannot be read.
pub open spec fn bad_values(
    es: Seq<BtreeEntry>,
    ds: Seq<Option<BchAllocEntry>>,
    n: int,
) -> Seq<Discrepancy>
    decreases n,
{
    if n <= 0 {
        Seq::empty()
    } else if raw_value(es[n - 1]) is Some && ds[n - 1] is None {
        bad_values(es, ds, n - 1).push(
            Discrepancy::BadAllocValue { bucket: es[n - 1].pos.offset },
        )
    } else {
        bad_values(es, ds, n - 1)
    }
}

/// The last of the first `n` entries with a value that is about bucket `b`.
pub open spec fn alloc_index(
    es: Seq<BtreeEntry>,
    ds: Seq<Option<BchAllocEntry>>,
    b: u64,
    n: int,
) -> Option<int>
    decreases n,
{
    if n <= 0 {
        None
    } else if ds[n - 1] is Some && es[n - 1].pos.offset == b {
        Some(n - 1)
    } else {
        alloc_index(es, ds, b, n - 1)
    }
}

/// The generations of the freespace keys of bucket `b`.
pub open spec fn versions(fs: Seq<BtreeEntry>, b: u64) -> Seq<u32>
    decreases fs.len(),
{
    if fs.len() == 0 {
        Seq::empty()
    } else if fs.last().key_type == KeyType::Normal && fs.last().pos.offset == b {
        versions(fs.drop_last(), b).push(fs.last().pos.snapshot)
    } else {
        versions(fs.drop_last(), b)
    }
}

/// What is wrong with the alloc key of bucket `b`.
pub open spec fn alloc_faults(
    bucket: Bucket,
    b: u64,
    es: Seq<BtreeEntry>,
    ds: Seq<Option<BchAllocEntry>>,
) -> Seq<Discrepancy> {
    match alloc_index(es, ds, b, es.len() as int) {
        Some(j) => if ds[j]->0 == bucket.spec_entry() {
            Seq::empty()
        } else {
            seq![
                Discrepancy::AllocMismatch {
                    bucket: b,
                    alloc: ds[j]->0,
                    allocator: bucket.spec_entry(),
                },
            ]
        },
        None => seq![Discrepancy::MissingAllocEntry { bucket: b }],
    }
}

/// What is wrong with the first `n` freespace keys, of these generations, of
/// bucket `b`.
pub open spec fn stale(bucket: Bucket, b: u64, vs: Seq<u32>, n: int) -> Seq<Discrepancy>
    decreases n,
{
    if n <= 0 {
        Seq::empty()
    } else if bucket.state != BchDataType::Free {
        stale(bucket, b, vs, n - 1).push(
            Discrepancy::StaleAllocatedFreespace { bucket: b, version: vs[n - 1] },
        )
    } else if vs[n - 1] != bucket.version {
        stale(bucket, b, vs, n - 1).push(
            Discrepancy::StaleFreespace {
                bucket: b,
                version: vs[n - 1],
                expected: bucket.version,
            },
        )
    } else {
        stale(bucket, b, vs, n - 1)
    }
}

/// What is wrong with the freespace keys of bucket `b`.
pub open spec fn freespace_faults(bucket: Bucket, b: u64, vs: Seq<u32>) -> Seq<Discrepancy> {
    (if bucket.state == BchDataType::Free && !vs.contains(bucket.version) {
        seq![Discrepancy::MissingFreespace { bucket: b, version: bucket.version }]
    } else {
        Seq::empty()
    }) + stale(bucket, b, vs, vs.len() as int)
}

/// What is wrong with the first `n` buckets.
pub open spec fn bucket_faults(
    bs: Seq<Bucket>,
    es: Seq<BtreeEntry>,
    ds: Seq<Option<BchAllocEntry>>,
    fs: Seq<BtreeEntry>,
    n: int,
) -> Seq<Discrepancy>
    decreases n,
{
    if n <= 0 {
        Seq::empty()
    } else {
        let b = (n - 1) as u64;
        bucket_faults(bs, es, ds, fs, n - 1) + alloc_faults(bs[n - 1], b, es, ds)
            + freespace_faults(bs[n - 1], b, versions(fs, b))
    }
}

/// Those of the first `n` entries that are about buckets that do not exist;
/// of several about one bucket the last one.
pub open spec fn missing_buckets(
    es: Seq<BtreeEntry>,
    ds: Seq<Option<BchAllocEntry>>,
    buckets: int,
    n: int,
) -> Seq<Discrepancy>
    decreases n,
{
    if n <= 0 {
        Seq::empty()
    } else if ds[n - 1] is Some && es[n - 1].pos.offset >= buckets && alloc_index(
        es,
        ds,
        es[n - 1].pos.offset,
        es.len() as int,
    ) == Some(n - 1) {
        missing_buckets(es, ds, buckets, n - 1).push(
            Discrepancy::MissingBucket { bucket: es[n - 1].pos.offset, alloc: ds[n - 1]->0 },
        )
    } else {
        missing_buckets(es, ds, buckets, n - 1)
    }
}

/// Everything that does not agree between the buckets and the two trees.
pub open spec fn alloc_info_faults(
    bs: Seq<Bucket>,
    es: Seq<BtreeEntry>,
    ds: Seq<Option<BchAllocEntry>>,
    fs: Seq<BtreeEntry>,
) -> Seq<Discrepancy> {
    bad_values(es, ds, es.len() as int) + bucket_faults(bs, es, ds, fs, bs.len() as int)
        + missing_buckets(es, ds, bs.len() as int, es.len() as int)
}

proof fn lemma_alloc_index(es: Seq<BtreeEntry>, ds: Seq<Option<BchAllocEntry>>, b: u64, n: int)
    requires
        0 <= n <= es.len(),
        ds.len() == es.len(),
    ensures
        alloc_index(es, ds, b, n) matches Some(i) ==> 0 <= i < n && ds[i] is Some
            && es[i].pos.offset == b,
    decreases n,
{
    if n > 0 {
        lemma_alloc_index(es, ds, b, n - 1);
    }
}

/// Reads the alloc keys: what is about each bucket last, and what cannot be
/// read.
fn read_alloc<F: Fn(&Vec<u8>) -> Option<BchAllocEntry>>(
    all: &Vec<BtreeEntry>,
    decode: &F,
    out: &mut Vec<Discrepancy>,
) -> (r: (Vec<Option<BchAllocEntry>>, HashMap<u64, usize>))
    requires
        forall|b: &Vec<u8>| #[trigger] decode.requires((b,)),
        old(out)@.len() == 0,
    ensures
        decoded(*decode, all@, (r.0)@),
        forall|b: u64| #[trigger]
            alloc_index(all@, (r.0)@, b, all@.len() as int) == (if (r.1)@.contains_key(b) {
                Some((r.1)@[b] as int)
            } else {
                None
            }),
        forall|b: u64| #[trigger] (r.1)@.contains_key(b) ==> (r.1)@[b] < all@.len(),
        final(out)@ == bad_values(all@, (r.0)@, all@.len() as int),
{
    broadcast use vstd::std_specs::hash::group_hash_axioms;

    let ghost es = all@;
    let mut values: Vec<Option<BchAllocEntry>> = Vec::new();
    let mut last: HashMap<u64, usize> = HashMap::new();
    let mut i: usize = 0;
    assert(out@ =~= bad_values(es, values@, 0));
    while i < all.len()
        invariant
            es == all@,
            i <= es.len(),
            values@.len() == i,
            forall|b: &Vec<u8>| #[trigger] decode.requires((b,)),
            forall|j: int|
                0 <= j < i ==> match raw_value(#[trigger] es[j]) {
                    Some(b) => decode.ensures((&b,), values@[j]),
                    None => values@[j] is None,
                },
            forall|b: u64| #[trigger]
                alloc_index(es, values@, b, i as int) == (if last@.contains_key(b) {
                    Some(last@[b] as int)
                } else {
                    None
                }),
            forall|b: u64| #[trigger] last@.contains_key(b) ==> last@[b] < i,
            out@ == bad_values(es, values@, i as int),
        decreases es.len() - i,
    {
        let ghost v0 = values@;
        let ghost l0 = last@;
        let e = &all[i];
        let mut value: Option<BchAllocEntry> = None;
        if e.key_type == KeyType::Normal {
            if let KeyValue::Raw(b) = &e.value {
                value = decode(b);
                if value.is_none() {
                    out.push(Discrepancy::BadAllocValue { bucket: e.pos.offset });
                }
            }
        }
        if value.is_some() {
            last.insert(e.pos.offset, i);
        }
        values.push(value);
        proof {
            lemma_prefix(es, v0, values@, i as int);
            assert forall|b: u64| #[trigger]
                alloc_index(es, values@, b, i + 1) == (if last@.contains_key(b) {
                    Some(last@[b] as int)
                } else {
                    None
                }) by {
                assert(alloc_index(es, values@, b, i as int) == alloc_index(es, v0, b, i as int));
            }
        }
        i = i + 1;
    }
    (values, last)
}

/// What is said of the first entries does not depend on later ones.
proof fn lemma_prefix(
    es: Seq<BtreeEntry>,
    a: Seq<Option<BchAllocEntry>>,
    b: Seq<Option<BchAllocEntry>>,
    n: int,
)
    requires
        0 <= n <= a.len() <= b.len(),
        forall|i: int| 0 <= i < n ==> #[trigger] a[i] == b[i],
    ensures
        bad_values(es, a, n) == bad_values(es, b, n),
        forall|k: u64| #[trigger] alloc_index(es, a, k, n) == alloc_index(es, b, k, n),
    decreases n,
{
    if n > 0 {
        lemma_prefix(es, a, b, n - 1);
        assert(a[n - 1] == b[n - 1]);
        assert forall|k: u64| #[trigger] alloc_index(es, a, k, n) == alloc_index(es, b, k, n) by {
            assert(alloc_index(es, a, k, n - 1) == alloc_index(es, b, k, n - 1));
        }
    }
}

/// Reads the freespace keys: the generations for each bucket.
fn read_freespace(all: &Vec<BtreeEntry>) -> (r: HashMap<u64, Vec<u32>>)
    ensures
        forall|b: u64| #[trigger]
            versions(all@, b) == (if r@.contains_key(b) {
                r@[b]@
            } else {
                Seq::empty()
            }),
{
    broadcast use vstd::std_specs::hash::group_hash_axioms;

    let ghost fs = all@;
    let mut out: HashMap<u64, Vec<u32>> = HashMap::new();
    let mut i: usize = 0;
    assert(fs.take(0) =~= Seq::<BtreeEntry>::empty());
    while i < all.len()
        invariant
            fs == all@,
            i <= fs.len(),
            forall|b: u64| #[trigger]
                versions(fs.take(i as int), b) == (if out@.contains_key(b) {
                    out@[b]@
                } else {
                    Seq::empty()
                }),
        decreases fs.len() - i,
    {
        let ghost o0 = out@;
        let e = &all[i];
        proof {
            assert(fs.take(i + 1).drop_last() =~= fs.take(i as int));
            assert(fs.take(i + 1).last() == fs[i as int]);
        }
        if e.key_type == KeyType::Normal {
            let k: u64 = e.pos.offset;
            let mut vs: Vec<u32> = match out.remove(&k) {
                Some(v) => v,
                None => Vec::new(),
            };
            let ghost before = vs@;
            vs.push(e.pos.snapshot);
            let ghost gv = vs;
            out.insert(k, vs);
            proof {
                assert(before =~= versions(fs.take(i as int), k));
                assert(out@[k] == gv);
            }
        }
        proof {
            assert forall|b: u64| #[trigger]
                versions(fs.take(i + 1), b) == (if out@.contains_key(b) {
                    out@[b]@
                } else {
                    Seq::empty()
                }) by {
                assert(versions(fs.take(i as int), b) == (if o0.contains_key(b) {
                    o0[b]@
                } else {
                    Seq::empty()
                }));
            }
        }
        i = i + 1;
    }
    assert(fs.take(fs.len() as int) =~= fs);
    out
}

/// Adds what is wrong with the freespace keys of a bucket.
fn push_freespace(bucket: &Bucket, b: u64, vs: &Vec<u32>, out: &mut Vec<Discrepancy>)
    ensures
        final(out)@ == old(out)@ + freespace_faults(*bucket, b, vs@),
{
    let ghost o0 = out@;
    let mut i: usize = 0;
    let mut found: bool = false;
    while i < vs.len()
        invariant
            i <= vs@.len(),
            found == exists|j: int| 0 <= j < i && vs@[j] == bucket.version,
        decreases vs@.len() - i,
    {
        if vs[i] == bucket.version {
            found = true;
        }
        i = i + 1;
    }
    assert(found == vs@.contains(bucket.version));
    if bucket.state == BchDataType::Free && !found {
        out.push(Discrepancy::MissingFreespace { bucket: b, version: bucket.version });
    }
    let ghost o1 = out@;
    let mut j: usize = 0;
    assert(out@ =~= o1 + stale(*bucket, b, vs@, 0));
    while j < vs.len()
        invariant
            j <= vs@.len(),
            out@ == o1 + stale(*bucket, b, vs@, j as int),
        decreases vs@.len() - j,
    {
        if bucket.state != BchDataType::Free {
            out.push(Discrepancy::StaleAllocatedFreespace { bucket: b, version: vs[j] });
        } else if vs[j] != bucket.version {
            out.push(
                Discrepancy::StaleFreespace {
                    bucket: b,
                    version: vs[j],
                    expected: bucket.version,
                },
            );
        }
        assert(out@ =~= o1 + stale(*bucket, b, vs@, j + 1));
        j = j + 1;
    }
    assert(out@ =~= o0 + freespace_faults(*bucket, b, vs@));
}

/// Compares the buckets with the alloc tree, whose values `decode` reads, and
/// with the freespace tree: every bucket has an alloc key that agrees with it,
/// free buckets have one freespace key of their generation, others none.
pub fn bch2_check_alloc_info<F: Fn(&Vec<u8>) -> Option<BchAllocEntry>>(
    engine: &BtreeEngine,
    allocator: &BchAllocator,
    decode: &F,
) -> (r: Result<Vec<Discrepancy>, StorageError>)
    requires
        engine.wf(),
        forall|b: &Vec<u8>| #[trigger] decode.requires((b,)),
    ensures
        r is Ok,
        exists|es: Seq<BtreeEntry>, ds: Seq<Option<BchAllocEntry>>, fs: Seq<BtreeEntry>|
            engine.tree(BtreeId::Alloc).lists(es) && engine.tree(BtreeId::Freespace).lists(fs)
                && decoded(*decode, es, ds) && r->Ok_0@ == #[trigger] alloc_info_faults(
                allocator.buckets@,
                es,
                ds,
                fs,
            ),
{
    let mut out: Vec<Discrepancy> = Vec::new();
    let all: Vec<BtreeEntry> = engine.get(BtreeId::Alloc).for_each_entry();
    let (values, last) = read_alloc(&all, decode, &mut out);
    let free: Vec<BtreeEntry> = engine.get(BtreeId::Freespace).for_each_entry();
    let gens: HashMap<u64, Vec<u32>> = read_freespace(&free);
    let ghost es = all@;
    let ghost ds = values@;
    let ghost fs = free@;
    let ghost bs = allocator.buckets@;
    let ghost first = out@;
    let none: Vec<u32> = Vec::new();
    let n: usize = allocator.buckets.len();
    let mut i: usize = 0;
    assert(out@ =~= first + bucket_faults(bs, es, ds, fs, 0));
    while i < n
        invariant
            i <= n == bs.len(),
            bs == allocator.buckets@,
            es == all@,
            ds == values@,
            ds.len() == es.len(),
            none@ == Seq::<u32>::empty(),
            forall|b: u64| #[trigger]
                alloc_index(es, ds, b, es.len() as int) == (if last@.contains_key(b) {
                    Some(last@[b] as int)
                } else {
                    None
                }),
            forall|b: u64| #[trigger] last@.contains_key(b) ==> last@[b] < es.len(),
            forall|b: u64| #[trigger]
                versions(fs, b) == (if gens@.contains_key(b) {
                    gens@[b]@
                } else {
                    Seq::empty()
                }),
            out@ == first + bucket_faults(bs, es, ds, fs, i as int),
        decreases n - i,
    {
        broadcast use vstd::std_specs::hash::group_hash_axioms;

        let b: u64 = i as u64;
        let bucket = allocator.buckets[i];
        let ghost before = out@;
        proof {
            lemma_alloc_index(es, ds, b, es.len() as int);
        }
        match last.get(&b) {
            Some(j) => {
                if let Some(alloc) = values[*j] {
                    let expected = bucket.entry();
                    if alloc != expected {
                        out.push(
                            Discrepancy::AllocMismatch { bucket: b, alloc, allocator: expected },
                        );
                    }
                }
            },
            None => {
                out.push(Discrepancy::MissingAllocEntry { bucket: b });
            },
        }
        assert(out@ =~= before + alloc_faults(bucket, b, es, ds));
        match gens.get(&b) {
            Some(vs) => {
                push_freespace(&bucket, b, vs, &mut out);
            },
            None => {
                push_freespace(&bucket, b, &none, &mut out);
            },
        }
        assert(out@ =~= first + bucket_faults(bs, es, ds, fs, i + 1));
        i = i + 1;
    }
    let ghost second = out@;
    let mut j: usize = 0;
    assert(out@ =~= second + missing_buckets(es, ds, bs.len() as int, 0));
    while j < all.len()
        invariant
            j <= es.len(),
            n == bs.len(),
            es == all@,
            ds == values@,
            ds.len() == es.len(),
            forall|b: u64| #[trigger]
                alloc_index(es, ds, b, es.len() as int) == (if last@.contains_key(b) {
                    Some(last@[b] as int)
                } else {
                    None
                }),
            out@ == second + missing_buckets(es, ds, bs.len() as int, j as int),
        decreases es.len() - j,
    {
        broadcast use vstd::std_specs::hash::group_hash_axioms;

        if let Some(alloc) = values[j] {
            let b: u64 = all[j].pos.offset;
            assert(alloc_index(es, ds, b, es.len() as int) == (if last@.contains_key(b) {
                Some(last@[b] as int)
            } else {
                None
            }));
            let newest: bool = match last.get(&b) {
                Some(k) => *k == j,
                None => false,
            };
            if b >= n as u64 && newest {
                out.push(Discrepancy::MissingBucket { bucket: b, alloc });
            }
        }
        assert(out@ =~= second + missing_buckets(es, ds, bs.len() as int, j + 1));
        j = j + 1;
    }
    proof {
        assert(out@ =~= alloc_info_faults(bs, es, ds, fs));
    }
    Ok(out)
}

// ── shards ──────────────────────────────────────────────────────────────

/// Splits the roots of all trees that are leaves with a shard boundary to be
/// split at.
pub fn bch2_presplit_shard_boundaries(engine: &mut BtreeEngine) -> (r: Result<(), StorageError>)
    requires
        old(engine).wf(),
        forall|i: int| 0 <= i < 7 ==> (#[trigger] old(engine).trees@[i]).can_grow(),
    ensures
        r is Ok,
        final(engine).wf(),
        *final(engine) == (BtreeEngine { trees: final(engine).trees, ..*old(engine) }),
        forall|i: int|
            0 <= i < 7 ==> (#[trigger] old(engine).trees@[i]).was_presplit(
                final(engine).trees@[i],
            ),
{
    let ghost e0 = *engine;
    let mut i: usize = 0;
    while i < 7
        invariant
            i <= 7,
            e0.wf(),
            engine.wf(),
            *engine == (BtreeEngine { trees: engine.trees, ..e0 }),
            forall|j: int| 0 <= j < 7 ==> (#[trigger] e0.trees@[j]).can_grow(),
            forall|j: int| i <= j < 7 ==> #[trigger] engine.trees@[j] == e0.trees@[j],
            forall|j: int|
                0 <= j < i ==> (#[trigger] e0.trees@[j]).was_presplit(engine.trees@[j]),
        decreases 7 - i,
    {
        let ghost before = *engine;
        assert(e0.trees@[i as int].can_grow());
        let t: &mut Btree = &mut engine.trees[i];
        let _split: bool = t.presplit_shard_boundaries();
        proof {
            assert forall|j: int| 0 <= j < 7 implies tree_ok(#[trigger] engine.trees@[j]) by {
                if j != i {
                    assert(engine.trees@[j] == before.trees@[j]);
                }
            }
            assert forall|j: int| 0 <= j < i + 1 implies (#[trigger] e0.trees@[j]).was_presplit(
                engine.trees@[j],
            ) by {
                if j != i {
                    assert(engine.trees@[j] == before.trees@[j]);
                }
            }
        }
        i = i + 1;
    }
    Ok(())
}

} // verus!
