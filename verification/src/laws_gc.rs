//! What a collection does to buckets, and what the checks of buckets report.

use crate::buckets::{BchAllocEntry, BchDataType, Bucket};
use crate::gc::{
    all_marked, any_refers, bucket_of, lists_marked, marked, pointed, raw_bucket, reclaimed,
    refers, skipped, swept, unreferenced, Discrepancy, ReclaimStats,
};
use crate::gc_alloc::{
    alloc_faults, alloc_index, alloc_info_faults, allocated, bad_values, bucket_faults, changed,
    freespace_faults, in_use, missing_buckets, noted, raw_value, released, stale, versions,
};
use crate::key::{BtreeEntry, KeyType, KeyValue};
use crate::le::{le_at, lemma_pow256_values};
use vstd::prelude::*;

verus! {

/// What a sequence holds after one more was added.
pub proof fn lemma_in_push<A>(s: Seq<A>, x: A, y: A)
    ensures
        s.push(x).contains(y) <==> s.contains(y) || y == x,
{
    if s.contains(y) {
        let j = choose|j: int| 0 <= j < s.len() && s[j] == y;
        assert(s.push(x)[j] == y);
    }
    assert(s.push(x)[s.len() as int] == x);
}

/// What two sequences hold behind each other.
pub proof fn lemma_in_concat<A>(a: Seq<A>, b: Seq<A>, y: A)
    ensures
        (a + b).contains(y) <==> a.contains(y) || b.contains(y),
{
    let c = a + b;
    if a.contains(y) {
        let j = choose|j: int| 0 <= j < a.len() && a[j] == y;
        assert(c[j] == y);
    }
    if b.contains(y) {
        let j = choose|j: int| 0 <= j < b.len() && b[j] == y;
        assert(c[a.len() + j] == y);
    }
    if c.contains(y) {
        let j = choose|j: int| 0 <= j < c.len() && c[j] == y;
        if j < a.len() {
            assert(a[j] == y);
        } else {
            assert(b[j - a.len()] == y);
        }
    }
}

// ── marking ─────────────────────────────────────────────────────────────

/// The block address in the value of an entry: that of an extent or a pointer, or
/// the first six bytes of plain ones; 0 where those are fewer.
pub open spec fn address_in(e: BtreeEntry) -> int {
    match e.value {
        KeyValue::Extent(v) => v.paddr.addr as int,
        KeyValue::BtreePtr(p) => p.block_addr as int,
        KeyValue::Raw(b) => if b@.len() < 6 {
            0
        } else {
            le_at(b@, 0, 6) as int
        },
    }
}

/// Whether an entry points into bucket `i`: buckets have 256 blocks, and block 0
/// and addresses of more than 48 bits point nowhere.
pub open spec fn points_into(e: BtreeEntry, i: int) -> bool {
    0 < address_in(e) < 0x1_0000_0000_0000 && 256 * i <= address_in(e) < 256 * i + 256
}

/// How many of these entries point into bucket `i`.
pub open spec fn pointers_into(es: Seq<BtreeEntry>, i: int) -> nat
    decreases es.len(),
{
    if es.len() == 0 {
        0
    } else {
        pointers_into(es.drop_last(), i) + (if points_into(es.last(), i) {
            1nat
        } else {
            0nat
        })
    }
}

/// Once an entry was marked, the bucket that it points into is user data of the
/// next generation, whatever it was used for before, and is else as it was; every
/// other bucket is as it was.
pub proof fn lemma_marked(bs: Seq<Bucket>, e: BtreeEntry, i: int)
    requires
        0 <= i < bs.len(),
    ensures
        marked(bs, e).len() == bs.len(),
        points_into(e, i) ==> {
            let b = marked(bs, e)[i];
            &&& b.state == BchDataType::User
            &&& b.version == (if bs[i].version == 0xffff_ffff {
                0
            } else {
                bs[i].version + 1
            })
            &&& b == (Bucket { state: b.state, version: b.version, ..bs[i] })
        },
        !points_into(e, i) ==> marked(bs, e)[i] == bs[i],
{
    assert(pointed(e) == address_in(e));
    let a = address_in(e);
    if 0 < a < 0x1_0000_0000_0000 {
        let j = bucket_of(a)->0;
        assert(256 * j <= a < 256 * j + 256);
    }
}

/// After a list of entries was marked every bucket that one of them points into
/// is user data, and its generation has grown by the number of those that do;
/// every other bucket is as it was.
pub proof fn lemma_all_marked(bs: Seq<Bucket>, es: Seq<BtreeEntry>, i: int)
    requires
        0 <= i < bs.len(),
    ensures
        all_marked(bs, es).len() == bs.len(),
        ({
            let b = all_marked(bs, es)[i];
            let n = pointers_into(es, i);
            &&& b.version == (bs[i].version + n) % 0x1_0000_0000
            &&& b.state == (if n > 0 {
                BchDataType::User
            } else {
                bs[i].state
            })
            &&& b == (Bucket { state: b.state, version: b.version, ..bs[i] })
        }),
        (exists|j: int| 0 <= j < es.len() && points_into(#[trigger] es[j], i)) <==> pointers_into(
            es,
            i,
        ) > 0,
    decreases es.len(),
{
    if es.len() > 0 {
        let f = es.drop_last();
        lemma_all_marked(bs, f, i);
        lemma_marked(all_marked(bs, f), es.last(), i);
        if exists|j: int| 0 <= j < f.len() && points_into(#[trigger] f[j], i) {
            let j = choose|j: int| 0 <= j < f.len() && points_into(#[trigger] f[j], i);
            assert(points_into(es[j], i));
        }
        if exists|j: int| 0 <= j < es.len() && points_into(#[trigger] es[j], i) {
            let j = choose|j: int| 0 <= j < es.len() && points_into(#[trigger] es[j], i);
            if j < f.len() {
                assert(points_into(f[j], i));
            }
        }
        assert(es[es.len() - 1] == es.last());
    }
}

/// After all trees were marked every bucket that an entry points into is user
/// data of a later generation, unless the counter came round, and every other
/// bucket is as it was.
pub proof fn lemma_lists_marked(bs: Seq<Bucket>, ls: Seq<Seq<BtreeEntry>>, i: int)
    requires
        0 <= i < bs.len(),
    ensures
        lists_marked(bs, ls).len() == bs.len(),
        (exists|j: int, k: int|
            0 <= j < ls.len() && 0 <= k < ls[j].len() && points_into(#[trigger] ls[j][k], i))
            ==> lists_marked(bs, ls)[i].state == BchDataType::User,
        (forall|j: int, k: int|
            0 <= j < ls.len() && 0 <= k < ls[j].len() ==> !points_into(#[trigger] ls[j][k], i))
            ==> lists_marked(bs, ls)[i] == bs[i],
        bs[i].state == BchDataType::User ==> lists_marked(bs, ls)[i].state == BchDataType::User,
    decreases ls.len(),
{
    if ls.len() > 0 {
        let f = ls.drop_last();
        lemma_lists_marked(bs, f, i);
        lemma_all_marked(lists_marked(bs, f), ls.last(), i);
        assert(ls[ls.len() - 1] == ls.last());
        if exists|j: int, k: int|
            0 <= j < ls.len() && 0 <= k < ls[j].len() && points_into(#[trigger] ls[j][k], i) {
            let (j, k) = choose|j: int, k: int|
                0 <= j < ls.len() && 0 <= k < ls[j].len() && points_into(#[trigger] ls[j][k], i);
            if j < f.len() {
                assert(f[j][k] == ls[j][k]);
                assert(points_into(f[j][k], i));
            } else {
                assert(points_into(ls.last()[k], i));
            }
        }
        if forall|j: int, k: int|
            0 <= j < ls.len() && 0 <= k < ls[j].len() ==> !points_into(#[trigger] ls[j][k], i) {
            assert forall|j: int, k: int| 0 <= j < f.len() && 0 <= k < f[j].len() implies
                !points_into(#[trigger] f[j][k], i) by {
                assert(f[j][k] == ls[j][k]);
            }
            assert forall|k: int| 0 <= k < ls.last().len() implies !points_into(
                #[trigger] ls.last()[k],
                i,
            ) by {
                assert(ls[ls.len() - 1][k] == ls.last()[k]);
            }
        }
    }
}

// ── sweeping ────────────────────────────────────────────────────────────

/// An entry refers to the bucket of the block whose address its first six bytes
/// hold.
pub proof fn lemma_raw_bucket(e: BtreeEntry, b: u64)
    ensures
        raw_bucket(e) == Some(b) <==> e.value is Raw && points_into(e, b as int),
{
    let a = address_in(e);
    lemma_pow256_values();
    if e.value is Raw && e.value->Raw_0@.len() >= 6 {
        assert(a == le_at(e.value->Raw_0@, 0, 6));
        if 0 < a < 0x1_0000_0000_0000 {
            let j = bucket_of(a)->0;
            assert(256 * j <= a < 256 * j + 256);
        }
    }
}

/// A bucket counts as referenced just if an entry of one of the trees points into
/// it by its plain bytes.
pub proof fn lemma_any_refers(ls: Seq<Seq<BtreeEntry>>, b: u64)
    ensures
        any_refers(ls, b) <==> exists|j: int, k: int|
            0 <= j < ls.len() && 0 <= k < ls[j].len() && (#[trigger] ls[j][k]).value is Raw
                && points_into(ls[j][k], b as int),
{
    if any_refers(ls, b) {
        let j = choose|j: int| 0 <= j < ls.len() && refers(#[trigger] ls[j], b);
        let k = choose|k: int| 0 <= k < ls[j].len() && raw_bucket(#[trigger] ls[j][k]) == Some(b);
        lemma_raw_bucket(ls[j][k], b);
        assert(points_into(ls[j][k], b as int));
    }
    if exists|j: int, k: int|
        0 <= j < ls.len() && 0 <= k < ls[j].len() && (#[trigger] ls[j][k]).value is Raw
            && points_into(ls[j][k], b as int) {
        let (j, k) = choose|j: int, k: int|
            0 <= j < ls.len() && 0 <= k < ls[j].len() && (#[trigger] ls[j][k]).value is Raw
                && points_into(ls[j][k], b as int);
        lemma_raw_bucket(ls[j][k], b);
        assert(refers(ls[j], b));
    }
}

proof fn lemma_reclaimed(bs: Seq<Bucket>, ls: Seq<Seq<BtreeEntry>>, n: int, b: u64)
    requires
        0 <= n <= bs.len() <= u64::MAX,
    ensures
        reclaimed(bs, ls, n).contains(b) <==> b < n && ((bs[b as int].state == BchDataType::User
            && !any_refers(ls, b)) || bs[b as int].state == BchDataType::NeedGcGens),
        forall|i: int, j: int|
            0 <= i < j < reclaimed(bs, ls, n).len() ==> (#[trigger] reclaimed(bs, ls, n)[i]) < (
            #[trigger] reclaimed(bs, ls, n)[j]),
        forall|i: int| 0 <= i < reclaimed(bs, ls, n).len() ==> (#[trigger] reclaimed(bs, ls, n)[i]) < n,
        0 <= skipped(bs, n) <= n,
        skipped(bs, n) == 0 <==> forall|i: int|
            0 <= i < n ==> (#[trigger] bs[i]).state == BchDataType::User || bs[i].state
                == BchDataType::NeedGcGens,
    decreases n,
{
    if n > 0 {
        lemma_reclaimed(bs, ls, n - 1, b);
        lemma_in_push(reclaimed(bs, ls, n - 1), (n - 1) as u64, b);
        if skipped(bs, n) == 0 {
            assert(bs[n - 1].state == BchDataType::User || bs[n - 1].state
                == BchDataType::NeedGcGens);
        }
    }
}

/// A sweep frees the user data that nothing refers to and what waits for a
/// collection, and nothing else: user data that an entry refers to, and buckets
/// that are used for anything else, stay as they are. What it freed it lists, in
/// rising order. A bucket that is freed keeps its generation.
pub proof fn lemma_swept(
    old: Seq<Bucket>,
    new: Seq<Bucket>,
    ls: Seq<Seq<BtreeEntry>>,
    stats: ReclaimStats,
    b: u64,
)
    requires
        swept(old, new, ls, stats),
        b < old.len() <= u64::MAX,
    ensures
        new.len() == old.len(),
        old[b as int].state == BchDataType::User ==> new[b as int] == (if any_refers(ls, b) {
            old[b as int]
        } else {
            Bucket { state: BchDataType::Free, ..old[b as int] }
        }),
        old[b as int].state == BchDataType::NeedGcGens ==> new[b as int] == (Bucket {
            state: BchDataType::Free,
            ..old[b as int]
        }),
        old[b as int].state != BchDataType::User && old[b as int].state != BchDataType::NeedGcGens
            ==> new[b as int] == old[b as int],
        stats.reclaimed_buckets@.contains(b) <==> new[b as int] != old[b as int],
        forall|i: int, j: int|
            0 <= i < j < stats.reclaimed_buckets@.len() ==> (#[trigger] stats.reclaimed_buckets@[i])
                < (#[trigger] stats.reclaimed_buckets@[j]),
        forall|i: int|
            0 <= i < stats.reclaimed_buckets@.len() ==> (#[trigger] stats.reclaimed_buckets@[i])
                < old.len(),
        stats.reclaimed_count == stats.reclaimed_buckets@.len(),
        stats.skipped_state == 0 <==> forall|i: int|
            0 <= i < old.len() ==> (#[trigger] old[i]).state == BchDataType::User || old[i].state
                == BchDataType::NeedGcGens,
{
    lemma_reclaimed(old, ls, old.len() as int, b);
}

/// A sweep after all trees were marked frees no bucket that an entry refers to,
/// whatever it was used for before.
pub proof fn lemma_mark_and_sweep(
    old: Seq<Bucket>,
    new: Seq<Bucket>,
    ls: Seq<Seq<BtreeEntry>>,
    stats: ReclaimStats,
    b: u64,
)
    requires
        swept(lists_marked(old, ls), new, ls, stats),
        b < old.len() <= u64::MAX,
        any_refers(ls, b),
    ensures
        new.len() == old.len(),
        new[b as int].state == BchDataType::User,
        !stats.reclaimed_buckets@.contains(b),
{
    lemma_lists_marked(old, ls, b as int);
    lemma_any_refers(ls, b);
    lemma_swept(lists_marked(old, ls), new, ls, stats, b);
}

// ── checks of buckets ───────────────────────────────────────────────────

/// What the alloc tree should have about a bucket.
pub proof fn lemma_bucket_entry(b: Bucket)
    ensures
        b.spec_entry().state == b.state,
        b.spec_entry().version == b.version,
        b.spec_entry().journal_seq == b.journal_seq,
        b.spec_entry().dirty_sectors == b.dirty_sectors,
        b.spec_entry().cached_sectors == b.cached_sectors,
        b.spec_entry().group == b.group,
        b.stripe < 0x1_0000 ==> b.spec_entry().stripe == b.stripe,
        b.spec_entry().io_time_read == 0,
        b.spec_entry().nr_external_backpointers == 0,
{
}

/// The check of allocations reports the buckets in use that no entry refers to,
/// each with what it is used for, in rising order, and nothing else.
pub proof fn lemma_unreferenced(bs: Seq<Bucket>, ls: Seq<Seq<BtreeEntry>>, n: int, d: Discrepancy)
    requires
        0 <= n <= bs.len() <= u64::MAX,
    ensures
        unreferenced(bs, ls, n).contains(d) <==> (d matches Discrepancy::Unreferenced {
            bucket,
            state,
        } && bucket < n && bs[bucket as int].state == state && state != BchDataType::Free && state
            != BchDataType::NeedDiscard && !any_refers(ls, bucket)),
        unreferenced(bs, ls, n).no_duplicates(),
    decreases n,
{
    if n > 0 {
        lemma_unreferenced(bs, ls, n - 1, d);
        let f = unreferenced(bs, ls, n - 1);
        let x = Discrepancy::Unreferenced { bucket: (n - 1) as u64, state: bs[n - 1].state };
        lemma_in_push(f, x, d);
        lemma_unreferenced(bs, ls, n - 1, x);
        assert(unreferenced(bs, ls, n).no_duplicates()) by {
            let s = unreferenced(bs, ls, n);
            assert forall|i: int, j: int| 0 <= i < s.len() && 0 <= j < s.len() && i != j implies s[i]
                != s[j] by {
                if i < f.len() {
                    assert(f.contains(f[i]));
                }
                if j < f.len() {
                    assert(f.contains(f[j]));
                }
            }
        }
    }
}

/// A snapshot has the buckets in use, each with what for.
pub proof fn lemma_in_use(bs: Seq<Bucket>, n: int, b: u64, s: BchDataType)
    requires
        0 <= n <= bs.len() <= u64::MAX,
    ensures
        in_use(bs, n).contains((b, s)) <==> b < n && bs[b as int].state == s && s
            != BchDataType::Free && s != BchDataType::NeedDiscard,
        forall|i: int, j: int|
            0 <= i < j < in_use(bs, n).len() ==> (#[trigger] in_use(bs, n)[i]).0 < (
            #[trigger] in_use(bs, n)[j]).0,
        forall|i: int| 0 <= i < in_use(bs, n).len() ==> (#[trigger] in_use(bs, n)[i]).0 < n,
    decreases n,
{
    if n > 0 {
        lemma_in_use(bs, n - 1, b, s);
        lemma_in_push(in_use(bs, n - 1), ((n - 1) as u64, bs[n - 1].state), (b, s));
    }
}

/// Whether a bucket exists and is in use: neither free nor to be discarded.
pub open spec fn occupied(bs: Seq<Bucket>, b: u64) -> bool {
    b < bs.len() && bs[b as int].state != BchDataType::Free && bs[b as int].state
        != BchDataType::NeedDiscard
}

proof fn lemma_released(snap: Seq<(u64, BchDataType)>, bs: Seq<Bucket>, n: int, d: Discrepancy)
    requires
        0 <= n <= snap.len(),
    ensures
        released(snap, bs, n).contains(d) <==> (d matches Discrepancy::Released { bucket, was }
            && snap.take(n).contains((bucket, was)) && !occupied(bs, bucket)),
        changed(snap, bs, n).contains(d) <==> (d matches Discrepancy::Changed { bucket, was, now }
            && snap.take(n).contains((bucket, was)) && occupied(bs, bucket) && bs[bucket as int].state
            == now && now != was),
    decreases n,
{
    if n > 0 {
        lemma_released(snap, bs, n - 1, d);
        let x = snap[n - 1];
        assert(snap.take(n) =~= snap.take(n - 1).push(x));
        let r = Discrepancy::Released { bucket: x.0, was: x.1 };
        let c = Discrepancy::Changed { bucket: x.0, was: x.1, now: bs[x.0 as int].state };
        lemma_in_push(released(snap, bs, n - 1), r, d);
        lemma_in_push(changed(snap, bs, n - 1), c, d);
        match d {
            Discrepancy::Released { bucket, was } => {
                lemma_in_push(snap.take(n - 1), x, (bucket, was));
            },
            Discrepancy::Changed { bucket, was, now } => {
                lemma_in_push(snap.take(n - 1), x, (bucket, was));
            },
            _ => {},
        }
    }
}

proof fn lemma_allocated(snap: Seq<(u64, BchDataType)>, bs: Seq<Bucket>, n: int, d: Discrepancy)
    requires
        0 <= n <= bs.len() <= u64::MAX,
    ensures
        allocated(snap, bs, n).contains(d) <==> (d matches Discrepancy::Allocated { bucket, now }
            && bucket < n && occupied(bs, bucket) && bs[bucket as int].state == now && forall|
            i: int,
        |
            0 <= i < snap.len() ==> (#[trigger] snap[i]).0 != bucket),
    decreases n,
{
    if n > 0 {
        lemma_allocated(snap, bs, n - 1, d);
        let b = (n - 1) as u64;
        lemma_in_push(
            allocated(snap, bs, n - 1),
            Discrepancy::Allocated { bucket: b, now: bs[n - 1].state },
            d,
        );
        assert(!noted(snap, b) <==> forall|i: int|
            0 <= i < snap.len() ==> (#[trigger] snap[i]).0 != b);
    }
}

/// A comparison with a snapshot reports just these: what was in use and is not any
/// more, what is in use and was not, and what is used for something else.
pub proof fn lemma_compared_exactly(
    snap: Seq<(u64, BchDataType)>,
    bs: Seq<Bucket>,
    d: Discrepancy,
)
    requires
        bs.len() <= u64::MAX,
    ensures
        (released(snap, bs, snap.len() as int) + allocated(snap, bs, bs.len() as int) + changed(
            snap,
            bs,
            snap.len() as int,
        )).contains(d) <==> (match d {
            Discrepancy::Released { bucket, was } => snap.contains((bucket, was)) && !occupied(
                bs,
                bucket,
            ),
            Discrepancy::Allocated { bucket, now } => occupied(bs, bucket) && bs[bucket as int].state
                == now && forall|i: int| 0 <= i < snap.len() ==> (#[trigger] snap[i]).0 != bucket,
            Discrepancy::Changed { bucket, was, now } => snap.contains((bucket, was)) && occupied(
                bs,
                bucket,
            ) && bs[bucket as int].state == now && now != was,
            _ => false,
        }),
{
    let a = released(snap, bs, snap.len() as int);
    let b = allocated(snap, bs, bs.len() as int);
    let c = changed(snap, bs, snap.len() as int);
    lemma_released(snap, bs, snap.len() as int, d);
    lemma_allocated(snap, bs, bs.len() as int, d);
    lemma_in_concat(a + b, c, d);
    lemma_in_concat(a, b, d);
    assert(snap.take(snap.len() as int) =~= snap);
}

// ── the alloc and freespace trees ───────────────────────────────────────

/// Whether the entry number `i` is the last one with a value that can be read that
/// is about bucket `b`.
pub open spec fn speaks_for(
    es: Seq<BtreeEntry>,
    ds: Seq<Option<BchAllocEntry>>,
    b: u64,
    i: int,
) -> bool {
    &&& 0 <= i < es.len()
    &&& ds[i] is Some
    &&& es[i].pos.offset == b
    &&& forall|j: int|
        i < j < es.len() ==> !((#[trigger] ds[j]) is Some && es[j].pos.offset == b)
}

/// Whether the freespace tree has a key of generation `v` of bucket `b`.
pub open spec fn has_free_key(fs: Seq<BtreeEntry>, b: u64, v: u32) -> bool {
    exists|i: int|
        0 <= i < fs.len() && (#[trigger] fs[i]).key_type == KeyType::Normal && fs[i].pos.offset == b
            && fs[i].pos.snapshot == v
}

proof fn lemma_alloc_index(
    es: Seq<BtreeEntry>,
    ds: Seq<Option<BchAllocEntry>>,
    b: u64,
    n: int,
)
    requires
        0 <= n <= es.len(),
        ds.len() == es.len(),
    ensures
        match alloc_index(es, ds, b, n) {
            Some(i) => 0 <= i < n && ds[i] is Some && es[i].pos.offset == b && forall|j: int|
                i < j < n ==> !((#[trigger] ds[j]) is Some && es[j].pos.offset == b),
            None => forall|j: int|
                0 <= j < n ==> !((#[trigger] ds[j]) is Some && es[j].pos.offset == b),
        },
    decreases n,
{
    if n > 0 {
        lemma_alloc_index(es, ds, b, n - 1);
    }
}

proof fn lemma_versions(fs: Seq<BtreeEntry>, b: u64, v: u32)
    ensures
        versions(fs, b).contains(v) <==> has_free_key(fs, b, v),
    decreases fs.len(),
{
    if fs.len() > 0 {
        let f = fs.drop_last();
        let x = fs.last();
        lemma_versions(f, b, v);
        lemma_in_push(versions(f, b), x.pos.snapshot, v);
        if has_free_key(f, b, v) {
            let i = choose|i: int|
                0 <= i < f.len() && (#[trigger] f[i]).key_type == KeyType::Normal && f[i].pos.offset
                    == b && f[i].pos.snapshot == v;
            assert(fs[i] == f[i]);
        }
        if has_free_key(fs, b, v) {
            let i = choose|i: int|
                0 <= i < fs.len() && (#[trigger] fs[i]).key_type == KeyType::Normal
                    && fs[i].pos.offset == b && fs[i].pos.snapshot == v;
            if i < f.len() {
                assert(f[i] == fs[i]);
            }
        }
        assert(fs[fs.len() - 1] == x);
    }
}

proof fn lemma_stale(bucket: Bucket, b: u64, vs: Seq<u32>, n: int, d: Discrepancy)
    requires
        0 <= n <= vs.len(),
    ensures
        stale(bucket, b, vs, n).contains(d) <==> (match d {
            Discrepancy::StaleAllocatedFreespace { bucket: x, version } => x == b && bucket.state
                != BchDataType::Free && vs.take(n).contains(version),
            Discrepancy::StaleFreespace { bucket: x, version, expected } => x == b && bucket.state
                == BchDataType::Free && vs.take(n).contains(version) && version != bucket.version
                && expected == bucket.version,
            _ => false,
        }),
    decreases n,
{
    if n > 0 {
        lemma_stale(bucket, b, vs, n - 1, d);
        let v = vs[n - 1];
        assert(vs.take(n) =~= vs.take(n - 1).push(v));
        let f = stale(bucket, b, vs, n - 1);
        lemma_in_push(f, Discrepancy::StaleAllocatedFreespace { bucket: b, version: v }, d);
        lemma_in_push(
            f,
            Discrepancy::StaleFreespace { bucket: b, version: v, expected: bucket.version },
            d,
        );
        match d {
            Discrepancy::StaleAllocatedFreespace { bucket: x, version } => {
                lemma_in_push(vs.take(n - 1), v, version);
            },
            Discrepancy::StaleFreespace { bucket: x, version, expected } => {
                lemma_in_push(vs.take(n - 1), v, version);
            },
            _ => {},
        }
    }
}

/// What is reported of one bucket.
pub open spec fn bucket_reported(
    bucket: Bucket,
    b: u64,
    es: Seq<BtreeEntry>,
    ds: Seq<Option<BchAllocEntry>>,
    fs: Seq<BtreeEntry>,
    d: Discrepancy,
) -> bool {
    match d {
        Discrepancy::MissingAllocEntry { bucket: x } => x == b && forall|i: int|
            0 <= i < es.len() ==> !((#[trigger] ds[i]) is Some && es[i].pos.offset == b),
        Discrepancy::AllocMismatch { bucket: x, alloc, allocator } => x == b && allocator
            == bucket.spec_entry() && alloc != allocator && exists|i: int| #[trigger]
            speaks_for(es, ds, b, i) && ds[i] == Some(alloc),
        Discrepancy::MissingFreespace { bucket: x, version } => x == b && bucket.state
            == BchDataType::Free && version == bucket.version && !has_free_key(fs, b, version),
        Discrepancy::StaleFreespace { bucket: x, version, expected } => x == b && bucket.state
            == BchDataType::Free && expected == bucket.version && version != expected
            && has_free_key(fs, b, version),
        Discrepancy::StaleAllocatedFreespace { bucket: x, version } => x == b && bucket.state
            != BchDataType::Free && has_free_key(fs, b, version),
        _ => false,
    }
}

#[verifier::rlimit(40)]
proof fn lemma_one_bucket(
    bucket: Bucket,
    b: u64,
    es: Seq<BtreeEntry>,
    ds: Seq<Option<BchAllocEntry>>,
    fs: Seq<BtreeEntry>,
    d: Discrepancy,
)
    requires
        ds.len() == es.len(),
    ensures
        (alloc_faults(bucket, b, es, ds) + freespace_faults(bucket, b, versions(fs, b))).contains(d)
            <==> bucket_reported(bucket, b, es, ds, fs, d),
{
    let x = alloc_faults(bucket, b, es, ds);
    let y = freespace_faults(bucket, b, versions(fs, b));
    let vs = versions(fs, b);
    lemma_in_concat(x, y, d);
    lemma_alloc_index(es, ds, b, es.len() as int);
    assert(x.contains(d) <==> (d is MissingAllocEntry || d is AllocMismatch) && bucket_reported(
        bucket,
        b,
        es,
        ds,
        fs,
        d,
    )) by {
        match alloc_index(es, ds, b, es.len() as int) {
            Some(i) => {
                assert(speaks_for(es, ds, b, i));
                assert forall|j: int| #[trigger] speaks_for(es, ds, b, j) implies j == i by {
                    if j < i {
                        assert(ds[i] is Some);
                    }
                }
                let m = Discrepancy::AllocMismatch {
                    bucket: b,
                    alloc: ds[i]->0,
                    allocator: bucket.spec_entry(),
                };
                assert(ds[i] is Some && es[i].pos.offset == b);
                lemma_in_push(Seq::<Discrepancy>::empty(), m, d);
                assert(Seq::<Discrepancy>::empty().push(m) =~= seq![m]);
            },
            None => {
                let m = Discrepancy::MissingAllocEntry { bucket: b };
                lemma_in_push(Seq::<Discrepancy>::empty(), m, d);
                assert(Seq::<Discrepancy>::empty().push(m) =~= seq![m]);
                assert forall|j: int| !#[trigger] speaks_for(es, ds, b, j) by {
                    if speaks_for(es, ds, b, j) {
                        assert(ds[j] is Some);
                    }
                }
            },
        }
    }
    let first = if bucket.state == BchDataType::Free && !vs.contains(bucket.version) {
        seq![Discrepancy::MissingFreespace { bucket: b, version: bucket.version }]
    } else {
        Seq::empty()
    };
    lemma_in_concat(first, stale(bucket, b, vs, vs.len() as int), d);
    lemma_stale(bucket, b, vs, vs.len() as int, d);
    assert(vs.take(vs.len() as int) =~= vs);
    let m = Discrepancy::MissingFreespace { bucket: b, version: bucket.version };
    lemma_in_push(Seq::<Discrepancy>::empty(), m, d);
    assert(Seq::<Discrepancy>::empty().push(m) =~= seq![m]);
    lemma_versions(fs, b, bucket.version);
    match d {
        Discrepancy::StaleFreespace { bucket: x0, version, expected } => {
            lemma_versions(fs, b, version);
        },
        Discrepancy::StaleAllocatedFreespace { bucket: x0, version } => {
            lemma_versions(fs, b, version);
        },
        _ => {},
    }
}

proof fn lemma_bucket_faults(
    bs: Seq<Bucket>,
    es: Seq<BtreeEntry>,
    ds: Seq<Option<BchAllocEntry>>,
    fs: Seq<BtreeEntry>,
    n: int,
    d: Discrepancy,
)
    requires
        ds.len() == es.len(),
        0 <= n <= bs.len() <= u64::MAX,
    ensures
        bucket_faults(bs, es, ds, fs, n).contains(d) <==> exists|b: u64|
            b < n && #[trigger] bucket_reported(bs[b as int], b, es, ds, fs, d),
    decreases n,
{
    if n > 0 {
        let b = (n - 1) as u64;
        lemma_bucket_faults(bs, es, ds, fs, n - 1, d);
        lemma_one_bucket(bs[n - 1], b, es, ds, fs, d);
        let f = bucket_faults(bs, es, ds, fs, n - 1);
        let x = alloc_faults(bs[n - 1], b, es, ds);
        let y = freespace_faults(bs[n - 1], b, versions(fs, b));
        lemma_in_concat(f + x, y, d);
        lemma_in_concat(f, x, d);
        lemma_in_concat(x, y, d);
        assert(bs[b as int] == bs[n - 1]);
    }
}

proof fn lemma_bad_values(
    es: Seq<BtreeEntry>,
    ds: Seq<Option<BchAllocEntry>>,
    n: int,
    d: Discrepancy,
)
    requires
        ds.len() == es.len(),
        0 <= n <= es.len(),
    ensures
        bad_values(es, ds, n).contains(d) <==> (d matches Discrepancy::BadAllocValue { bucket }
            && exists|i: int|
            0 <= i < n && (#[trigger] es[i]).key_type == KeyType::Normal && es[i].value is Raw
                && ds[i] is None && es[i].pos.offset == bucket),
    decreases n,
{
    if n > 0 {
        lemma_bad_values(es, ds, n - 1, d);
        let x = Discrepancy::BadAllocValue { bucket: es[n - 1].pos.offset };
        lemma_in_push(bad_values(es, ds, n - 1), x, d);
        assert(raw_value(es[n - 1]) is Some <==> es[n - 1].key_type == KeyType::Normal
            && es[n - 1].value is Raw);
    }
}

#[verifier::rlimit(40)]
proof fn lemma_missing_buckets(
    es: Seq<BtreeEntry>,
    ds: Seq<Option<BchAllocEntry>>,
    buckets: int,
    n: int,
    d: Discrepancy,
)
    requires
        ds.len() == es.len(),
        0 <= n <= es.len(),
    ensures
        missing_buckets(es, ds, buckets, n).contains(d) <==> (d matches Discrepancy::MissingBucket {
            bucket,
            alloc,
        } && bucket >= buckets && exists|i: int|
            i < n && #[trigger] speaks_for(es, ds, bucket, i) && ds[i] == Some(alloc)),
    decreases n,
{
    if n > 0 {
        lemma_missing_buckets(es, ds, buckets, n - 1, d);
        let i = n - 1;
        let b = es[i].pos.offset;
        lemma_in_push(
            missing_buckets(es, ds, buckets, n - 1),
            Discrepancy::MissingBucket { bucket: b, alloc: ds[i]->0 },
            d,
        );
        lemma_alloc_index(es, ds, b, es.len() as int);
        if ds[i] is Some {
            assert(alloc_index(es, ds, b, es.len() as int) == Some(i) <==> speaks_for(
                es,
                ds,
                b,
                i,
            )) by {
                match alloc_index(es, ds, b, es.len() as int) {
                    Some(j) => {
                        if j > i {
                            assert(ds[j] is Some && es[j].pos.offset == b);
                        }
                    },
                    None => {},
                }
            }
        }
        if let Discrepancy::MissingBucket { bucket, alloc } = d {
            if exists|j: int|
                j < n && #[trigger] speaks_for(es, ds, bucket, j) && ds[j] == Some(alloc) {
                let j = choose|j: int|
                    j < n && #[trigger] speaks_for(es, ds, bucket, j) && ds[j] == Some(alloc);
                if j < n - 1 {
                    assert(speaks_for(es, ds, bucket, j));
                }
            }
        }
    }
}

/// The check of the alloc and freespace trees reports just these: values that
/// cannot be read; buckets without an alloc key, or with one that says something
/// else; free buckets without a freespace key of their generation; freespace keys
/// of another generation, or of buckets that are not free; and alloc keys of
/// buckets that do not exist.
#[verifier::rlimit(40)]
pub proof fn lemma_alloc_info(
    bs: Seq<Bucket>,
    es: Seq<BtreeEntry>,
    ds: Seq<Option<BchAllocEntry>>,
    fs: Seq<BtreeEntry>,
    d: Discrepancy,
)
    requires
        ds.len() == es.len(),
        bs.len() <= u64::MAX,
    ensures
        alloc_info_faults(bs, es, ds, fs).contains(d) <==> (match d {
            Discrepancy::BadAllocValue { bucket } => exists|i: int|
                0 <= i < es.len() && (#[trigger] es[i]).key_type == KeyType::Normal
                    && es[i].value is Raw && ds[i] is None && es[i].pos.offset == bucket,
            Discrepancy::MissingBucket { bucket, alloc } => bucket >= bs.len() && exists|i: int|
                #[trigger] speaks_for(es, ds, bucket, i) && ds[i] == Some(alloc),
            Discrepancy::MissingAllocEntry { bucket } => bucket < bs.len() && bucket_reported(
                bs[bucket as int],
                bucket,
                es,
                ds,
                fs,
                d,
            ),
            Discrepancy::AllocMismatch { bucket, alloc, allocator } => bucket < bs.len()
                && bucket_reported(bs[bucket as int], bucket, es, ds, fs, d),
            Discrepancy::MissingFreespace { bucket, version } => bucket < bs.len()
                && bucket_reported(bs[bucket as int], bucket, es, ds, fs, d),
            Discrepancy::StaleFreespace { bucket, version, expected } => bucket < bs.len()
                && bucket_reported(bs[bucket as int], bucket, es, ds, fs, d),
            Discrepancy::StaleAllocatedFreespace { bucket, version } => bucket < bs.len()
                && bucket_reported(bs[bucket as int], bucket, es, ds, fs, d),
            _ => false,
        }),
{
    let a = bad_values(es, ds, es.len() as int);
    let b = bucket_faults(bs, es, ds, fs, bs.len() as int);
    let c = missing_buckets(es, ds, bs.len() as int, es.len() as int);
    lemma_in_concat(a + b, c, d);
    lemma_in_concat(a, b, d);
    lemma_bad_values(es, ds, es.len() as int, d);
    lemma_bucket_faults(bs, es, ds, fs, bs.len() as int, d);
    lemma_missing_buckets(es, ds, bs.len() as int, es.len() as int, d);
    if let Discrepancy::MissingBucket { bucket, alloc } = d {
        assert forall|i: int| #[trigger] speaks_for(es, ds, bucket, i) implies i < es.len() by {}
    }
    assert forall|b: u64| b < bs.len() && #[trigger] bucket_reported(
        bs[b as int],
        b,
        es,
        ds,
        fs,
        d,
    ) implies (match d {
        Discrepancy::MissingAllocEntry { bucket } => bucket == b,
        Discrepancy::AllocMismatch { bucket, alloc, allocator } => bucket == b,
        Discrepancy::MissingFreespace { bucket, version } => bucket == b,
        Discrepancy::StaleFreespace { bucket, version, expected } => bucket == b,
        Discrepancy::StaleAllocatedFreespace { bucket, version } => bucket == b,
        _ => false,
    }) by {}
}

} // verus!
