//! Runs of entries: order, last-write-wins merging and lookup.

use crate::key::{BtreeEntry, BtreeKey, EntryView, KeyType};
use vstd::prelude::*;

verus! {

/// The entries that a vector holds.
pub open spec fn views(v: Seq<BtreeEntry>) -> Seq<EntryView> {
    v.map_values(|e: BtreeEntry| e@)
}

/// Whether an entry is read as one of a node at `level`.
pub open spec fn read_at(level: u8, e: BtreeEntry) -> bool {
    e.value.decodes(level, e@.value)
}

/// Whether entries are read as those of a node at `level`: which values are
/// pointers and which are plain bytes.
pub open spec fn all_read_at(level: u8, v: Seq<BtreeEntry>) -> bool {
    forall|i: int| 0 <= i < v.len() ==> read_at(level, #[trigger] v[i])
}

/// Whether entries are read as those of a node at any level at which others are.
pub open spec fn read_like(v: Seq<BtreeEntry>, w: Seq<BtreeEntry>) -> bool {
    forall|level: u8| #[trigger] all_read_at(level, w) ==> all_read_at(level, v)
}

/// A copy is read as its original is.
pub proof fn lemma_read_copy(w: Seq<BtreeEntry>, j: int, e: BtreeEntry)
    requires
        0 <= j < w.len(),
        e.same(w[j]),
        e@ == w[j]@,
    ensures
        forall|level: u8| #[trigger] all_read_at(level, w) ==> read_at(level, e),
{
    assert forall|level: u8| #[trigger] all_read_at(level, w) implies read_at(level, e) by {
        assert(read_at(level, w[j]));
    }
}

/// One more entry, or another one in the place of one.
pub proof fn lemma_read_put(v: Seq<BtreeEntry>, i: int, e: BtreeEntry)
    requires
        0 <= i <= v.len(),
    ensures
        forall|level: u8| #[trigger]
            all_read_at(level, v) && read_at(level, e) ==> all_read_at(level, v.insert(i, e))
                && (i < v.len() ==> all_read_at(level, v.update(i, e))),
{
    assert forall|level: u8| #[trigger] all_read_at(level, v) && read_at(level, e) implies all_read_at(
        level,
        v.insert(i, e),
    ) && (i < v.len() ==> all_read_at(level, v.update(i, e))) by {
        let r = v.insert(i, e);
        assert forall|j: int| 0 <= j < r.len() implies read_at(level, #[trigger] r[j]) by {
            if j < i {
                assert(r[j] == v[j]);
            } else if j > i {
                assert(r[j] == v[j - 1]);
            }
        }
    }
}

/// Whether the keys of a run rise strictly.
pub open spec fn sorted(es: Seq<EntryView>) -> bool {
    forall|i: int, j: int| 0 <= i < j < es.len() ==> (#[trigger] es[i]).key().lt(
        (#[trigger] es[j]).key(),
    )
}

/// The number of leading entries whose keys come before `k`.
pub open spec fn lower_bound(es: Seq<EntryView>, k: BtreeKey) -> int
    decreases es.len(),
{
    if es.len() == 0 || !es[0].key().lt(k) {
        0
    } else {
        1 + lower_bound(es.skip(1), k)
    }
}

/// The run with `e` put at its place; an entry of the same slot gives way.
pub open spec fn upsert(es: Seq<EntryView>, e: EntryView) -> Seq<EntryView> {
    let i = lower_bound(es, e.key());
    if i < es.len() && es[i].key().same_slot(e.key()) {
        es.update(i, e)
    } else {
        es.insert(i, e)
    }
}

/// The entries in key order, the last of each slot only.
pub open spec fn merged(es: Seq<EntryView>) -> Seq<EntryView>
    decreases es.len(),
{
    if es.len() == 0 {
        Seq::<EntryView>::empty()
    } else {
        upsert(merged(es.drop_last()), es.last())
    }
}

/// Whether the entry is no tombstone.
pub open spec fn not_deleted(e: EntryView) -> bool {
    e.key_type != KeyType::Deleted
}

/// The entries without the tombstones.
pub open spec fn undeleted(es: Seq<EntryView>) -> Seq<EntryView>
    decreases es.len(),
{
    if es.len() == 0 {
        es
    } else if not_deleted(es.last()) {
        undeleted(es.drop_last()).push(es.last())
    } else {
        undeleted(es.drop_last())
    }
}

/// The live entries of a run: the last entry of each slot in key order,
/// without the slots whose last entry is a tombstone.
pub open spec fn live(es: Seq<EntryView>) -> Seq<EntryView> {
    undeleted(merged(es))
}

/// The last entry in the slot of `k`.
pub open spec fn last_in(es: Seq<EntryView>, k: BtreeKey) -> Option<EntryView>
    decreases es.len(),
{
    if es.len() == 0 {
        None
    } else if es.last().key().same_slot(k) {
        Some(es.last())
    } else {
        last_in(es.drop_last(), k)
    }
}

/// The first entry in the slot of `k` that is no tombstone.
pub open spec fn first_live(es: Seq<EntryView>, k: BtreeKey) -> Option<EntryView>
    decreases es.len(),
{
    if es.len() == 0 {
        None
    } else if es[0].key().same_slot(k) && not_deleted(es[0]) {
        Some(es[0])
    } else {
        first_live(es.skip(1), k)
    }
}

pub proof fn lemma_lower_bound_range(es: Seq<EntryView>, k: BtreeKey)
    ensures
        0 <= lower_bound(es, k) <= es.len(),
        forall|j: int| 0 <= j < lower_bound(es, k) ==> (#[trigger] es[j]).key().lt(k),
        lower_bound(es, k) < es.len() ==> !es[lower_bound(es, k)].key().lt(k),
    decreases es.len(),
{
    if es.len() > 0 && es[0].key().lt(k) {
        let t = es.skip(1);
        lemma_lower_bound_range(t, k);
        assert forall|j: int| 0 <= j < lower_bound(es, k) implies (#[trigger] es[j]).key().lt(
            k,
        ) by {
            if j > 0 {
                assert(es[j] == t[j - 1]);
            }
        }
    }
}

/// The place of a key is where smaller keys end.
pub proof fn lemma_lower_bound_unique(es: Seq<EntryView>, k: BtreeKey, i: int)
    requires
        0 <= i <= es.len(),
        forall|j: int| 0 <= j < i ==> (#[trigger] es[j]).key().lt(k),
        i < es.len() ==> !es[i].key().lt(k),
    ensures
        lower_bound(es, k) == i,
{
    lemma_lower_bound_range(es, k);
    let l = lower_bound(es, k);
    if l < i {
        assert(es[l].key().lt(k));
    } else if i < l {
        assert(es[i].key().lt(k));
    }
}

/// Putting an entry into a sorted run keeps it sorted and changes one slot.
pub proof fn lemma_upsert(es: Seq<EntryView>, e: EntryView)
    requires
        sorted(es),
    ensures
        sorted(upsert(es, e)),
        es.len() <= upsert(es, e).len() <= es.len() + 1,
        upsert(es, e).contains(e),
        forall|x: EntryView| #[trigger]
            upsert(es, e).contains(x) <==> x == e || (es.contains(x) && !x.key().same_slot(
                e.key(),
            )),
{
    let k = e.key();
    let i = lower_bound(es, k);
    let r = upsert(es, e);
    lemma_lower_bound_range(es, k);
    assert(r[i] == e);
    if i < es.len() && es[i].key().same_slot(k) {
        assert forall|a: int, b: int| 0 <= a < b < r.len() implies (#[trigger] r[a]).key().lt(
            (#[trigger] r[b]).key(),
        ) by {
            assert(es[a].key().lt(es[b].key()));
        }
        assert forall|x: EntryView| #[trigger] r.contains(x) implies x == e || (es.contains(x)
            && !x.key().same_slot(k)) by {
            let j = choose|j: int| 0 <= j < r.len() && r[j] == x;
            if j != i {
                assert(es[j] == x);
                if j < i {
                    assert(es[j].key().lt(es[i].key()));
                } else {
                    assert(es[i].key().lt(es[j].key()));
                }
            }
        }
        assert forall|x: EntryView| x == e || (es.contains(x) && !x.key().same_slot(
            k,
        )) implies #[trigger] r.contains(x) by {
            if x != e {
                let j = choose|j: int| 0 <= j < es.len() && es[j] == x;
                assert(r[j] == x);
            }
        }
    } else {
        assert forall|a: int, b: int| 0 <= a < b < r.len() implies (#[trigger] r[a]).key().lt(
            (#[trigger] r[b]).key(),
        ) by {
            if b < i {
                assert(es[a].key().lt(es[b].key()));
            } else if b == i {
                assert(es[a].key().lt(k));
            } else if a < i {
                assert(es[a].key().lt(es[b - 1].key()));
            } else if a == i {
                if b - 1 > i {
                    assert(es[i].key().lt(es[b - 1].key()));
                }
            } else {
                assert(es[a - 1].key().lt(es[b - 1].key()));
            }
        }
        assert forall|x: EntryView| #[trigger] r.contains(x) implies x == e || (es.contains(x)
            && !x.key().same_slot(k)) by {
            let j = choose|j: int| 0 <= j < r.len() && r[j] == x;
            if j < i {
                assert(es[j] == x);
            } else if j > i {
                assert(es[j - 1] == x);
                if j - 1 > i {
                    assert(es[i].key().lt(es[j - 1].key()));
                }
            }
        }
        assert forall|x: EntryView| x == e || (es.contains(x) && !x.key().same_slot(
            k,
        )) implies #[trigger] r.contains(x) by {
            if x != e {
                let j = choose|j: int| 0 <= j < es.len() && es[j] == x;
                if j < i {
                    assert(r[j] == x);
                } else {
                    assert(r[j + 1] == x);
                }
            }
        }
    }
}

/// Merging sorts the run and keeps exactly the last entry of each slot.
pub proof fn lemma_merged(es: Seq<EntryView>)
    ensures
        sorted(merged(es)),
        merged(es).len() <= es.len(),
        forall|x: EntryView| #[trigger]
            merged(es).contains(x) <==> last_in(es, x.key()) == Some(x),
    decreases es.len(),
{
    if es.len() > 0 {
        let front = es.drop_last();
        let e = es.last();
        lemma_merged(front);
        lemma_upsert(merged(front), e);
        assert forall|x: EntryView| #[trigger] merged(es).contains(x) <==> last_in(es, x.key())
            == Some(x) by {
            assert(upsert(merged(front), e).contains(x) <==> x == e || (merged(front).contains(x)
                && !x.key().same_slot(e.key())));
        }
    }
}

pub proof fn lemma_undeleted(es: Seq<EntryView>)
    ensures
        undeleted(es).len() <= es.len(),
        sorted(es) ==> sorted(undeleted(es)),
        forall|x: EntryView| #[trigger]
            undeleted(es).contains(x) <==> es.contains(x) && not_deleted(x),
        forall|i: int|
            0 <= i < undeleted(es).len() ==> not_deleted(#[trigger] undeleted(es)[i]),
    decreases es.len(),
{
    if es.len() > 0 {
        let front = es.drop_last();
        let r = undeleted(es);
        lemma_undeleted(front);
        let f = undeleted(front);
        assert forall|x: EntryView| #[trigger] r.contains(x) <==> es.contains(x) && not_deleted(
            x,
        ) by {
            if r.contains(x) {
                let j = choose|j: int| 0 <= j < r.len() && r[j] == x;
                if j < f.len() {
                    assert(f[j] == x);
                    assert(f.contains(x));
                    let m = choose|m: int| 0 <= m < front.len() && front[m] == x;
                    assert(es[m] == x);
                } else {
                    assert(es[es.len() - 1] == x);
                }
            }
            if es.contains(x) && not_deleted(x) {
                let m = choose|m: int| 0 <= m < es.len() && es[m] == x;
                if m < front.len() {
                    assert(front[m] == x);
                    assert(f.contains(x));
                    let j = choose|j: int| 0 <= j < f.len() && f[j] == x;
                    assert(r[j] == x);
                } else {
                    assert(r[r.len() - 1] == x);
                }
            }
        }
        if sorted(es) {
            assert(sorted(front)) by {
                assert forall|i: int, j: int| 0 <= i < j < front.len() implies (
                #[trigger] front[i]).key().lt((#[trigger] front[j]).key()) by {
                    assert(es[i].key().lt(es[j].key()));
                }
            }
            if not_deleted(es.last()) {
                assert forall|i: int, j: int| 0 <= i < j < r.len() implies (
                #[trigger] r[i]).key().lt((#[trigger] r[j]).key()) by {
                    if j < f.len() {
                        assert(f[i].key().lt(f[j].key()));
                    } else {
                        assert(f.contains(f[i]));
                        let m = choose|m: int| 0 <= m < front.len() && front[m] == f[i];
                        assert(es[m].key().lt(es[es.len() - 1].key()));
                    }
                }
            }
        }
        assert forall|i: int| 0 <= i < r.len() implies not_deleted(#[trigger] r[i]) by {
            if i < f.len() {
                assert(r[i] == f[i]);
            }
        }
    }
}

/// The live entries of a run are sorted and hold exactly those entries that
/// are the last of their slot and no tombstones.
pub proof fn lemma_live(es: Seq<EntryView>)
    ensures
        sorted(live(es)),
        live(es).len() <= es.len(),
        forall|x: EntryView| #[trigger]
            live(es).contains(x) <==> last_in(es, x.key()) == Some(x) && not_deleted(x),
        forall|i: int| 0 <= i < live(es).len() ==> not_deleted(#[trigger] live(es)[i]),
{
    lemma_merged(es);
    lemma_undeleted(merged(es));
}

/// A sorted run without tombstones is live as it is: merging twice gives what
/// merging once gave.
pub proof fn lemma_live_idempotent(es: Seq<EntryView>)
    requires
        sorted(es),
        forall|i: int| 0 <= i < es.len() ==> not_deleted(#[trigger] es[i]),
    ensures
        merged(es) == es,
        live(es) == es,
    decreases es.len(),
{
    lemma_merged_sorted(es);
    lemma_undeleted_all(es);
}

pub proof fn lemma_merged_sorted(es: Seq<EntryView>)
    requires
        sorted(es),
    ensures
        merged(es) == es,
    decreases es.len(),
{
    if es.len() > 0 {
        let front = es.drop_last();
        assert forall|i: int, j: int| 0 <= i < j < front.len() implies (#[trigger] front[i]).key().lt(
            (#[trigger] front[j]).key(),
        ) by {
            assert(es[i].key().lt(es[j].key()));
        }
        lemma_merged_sorted(front);
        let n = front.len() as int;
        assert forall|j: int| 0 <= j < n implies (#[trigger] front[j]).key().lt(
            es.last().key(),
        ) by {
            assert(es[j].key().lt(es[es.len() - 1].key()));
        }
        lemma_lower_bound_unique(front, es.last().key(), n);
        assert(upsert(front, es.last()) =~= es);
    } else {
        assert(merged(es) =~= es);
    }
}

pub proof fn lemma_undeleted_all(es: Seq<EntryView>)
    requires
        forall|i: int| 0 <= i < es.len() ==> not_deleted(#[trigger] es[i]),
    ensures
        undeleted(es) == es,
    decreases es.len(),
{
    if es.len() > 0 {
        let front = es.drop_last();
        assert forall|i: int| 0 <= i < front.len() implies not_deleted(#[trigger] front[i]) by {
            assert(front[i] == es[i]);
        }
        lemma_undeleted_all(front);
        assert(not_deleted(es[es.len() - 1]));
        assert(front.push(es.last()) =~= es);
    }
}

pub proof fn lemma_first_live_append(a: Seq<EntryView>, b: Seq<EntryView>, k: BtreeKey)
    ensures
        first_live(a + b, k) == (match first_live(a, k) {
            Some(e) => Some(e),
            None => first_live(b, k),
        }),
    decreases a.len(),
{
    if a.len() == 0 {
        assert(a + b =~= b);
    } else {
        assert((a + b).skip(1) =~= a.skip(1) + b);
        lemma_first_live_append(a.skip(1), b, k);
    }
}

/// No live entry in the slot, or the first one.
pub proof fn lemma_first_live_at(es: Seq<EntryView>, k: BtreeKey, i: int)
    requires
        0 <= i <= es.len(),
        forall|j: int|
            0 <= j < i ==> !((#[trigger] es[j]).key().same_slot(k) && not_deleted(es[j])),
        i < es.len() ==> es[i].key().same_slot(k) && not_deleted(es[i]),
    ensures
        first_live(es, k) == (if i < es.len() {
            Some(es[i])
        } else {
            None
        }),
    decreases es.len(),
{
    if es.len() > 0 && i > 0 {
        assert(!(es[0].key().same_slot(k) && not_deleted(es[0])));
        let t = es.skip(1);
        assert forall|j: int| 0 <= j < i - 1 implies !((#[trigger] t[j]).key().same_slot(k)
            && not_deleted(t[j])) by {
            assert(t[j] == es[j + 1]);
        }
        lemma_first_live_at(t, k, i - 1);
    }
}

/// Puts `e` into a sorted vector of entries.
pub fn upsert_entry(v: &mut Vec<BtreeEntry>, e: BtreeEntry)
    requires
        sorted(views(old(v)@)),
    ensures
        views(final(v)@) == upsert(views(old(v)@), e@),
        sorted(views(final(v)@)),
        forall|level: u8| #[trigger]
            all_read_at(level, old(v)@) && read_at(level, e) ==> all_read_at(level, final(v)@),
{
    let ghost es = views(v@);
    let key = BtreeKey::from_bpos(e.pos, e.key_type);
    let n: usize = v.len();
    let mut lo: usize = 0;
    let mut hi: usize = n;
    while lo < hi
        invariant
            lo <= hi <= n,
            n == v@.len(),
            es == views(v@),
            sorted(es),
            forall|j: int| 0 <= j < lo ==> (#[trigger] es[j]).key().lt(key),
            forall|j: int| hi <= j < n ==> !(#[trigger] es[j]).key().lt(key),
        decreases hi - lo,
    {
        let mid: usize = lo + (hi - lo) / 2;
        let k = BtreeKey::from_bpos(v[mid].pos, v[mid].key_type);
        assert(es[mid as int].key() == k);
        if k.precedes(&key) {
            assert forall|j: int| 0 <= j < mid + 1 implies (#[trigger] es[j]).key().lt(key) by {
                if j < mid {
                    assert(es[j].key().lt(es[mid as int].key()));
                }
            }
            lo = mid + 1;
        } else {
            assert forall|j: int| mid <= j < n implies !(#[trigger] es[j]).key().lt(key) by {
                if j > mid {
                    assert(es[mid as int].key().lt(es[j].key()));
                }
            }
            hi = mid;
        }
    }
    proof {
        lemma_lower_bound_unique(es, key, lo as int);
        lemma_upsert(es, e@);
        lemma_read_put(v@, lo as int, e);
    }
    if lo < n && v[lo].pos.offset == e.pos.offset && v[lo].pos.snapshot == e.pos.snapshot {
        assert(es[lo as int].key().same_slot(key));
        v.set(lo, e);
        assert(views(v@) =~= es.update(lo as int, e@));
    } else {
        v.insert(lo, e);
        assert(views(v@) =~= es.insert(lo as int, e@));
    }
}

/// The live entries of `all`.
pub fn live_of(all: Vec<BtreeEntry>) -> (r: Vec<BtreeEntry>)
    ensures
        views(r@) == live(views(all@)),
        read_like(r@, all@),
{
    let ghost es = views(all@);
    let mut m: Vec<BtreeEntry> = Vec::with_capacity(all.len());
    assert(views(m@) =~= merged(es.take(0)));
    let mut i: usize = 0;
    while i < all.len()
        invariant
            i <= all@.len(),
            es == views(all@),
            views(m@) == merged(es.take(i as int)),
            sorted(views(m@)),
            read_like(m@, all@),
        decreases all@.len() - i,
    {
        let e = all[i].duplicate();
        proof {
            assert(es.take(i + 1).drop_last() =~= es.take(i as int));
            assert(es.take(i + 1).last() == all[i as int]@);
            lemma_read_copy(all@, i as int, e);
        }
        upsert_entry(&mut m, e);
        i = i + 1;
    }
    assert(es.take(es.len() as int) =~= es);
    let ghost ms = views(m@);
    let mut r: Vec<BtreeEntry> = Vec::with_capacity(m.len());
    let mut j: usize = 0;
    assert(views(r@) =~= undeleted(ms.take(0)));
    while j < m.len()
        invariant
            j <= m@.len(),
            ms == views(m@),
            views(r@) == undeleted(ms.take(j as int)),
            read_like(r@, m@),
        decreases m@.len() - j,
    {
        proof {
            assert(ms.take(j + 1).drop_last() =~= ms.take(j as int));
            assert(ms.take(j + 1).last() == m[j as int]@);
        }
        if m[j].key_type != KeyType::Deleted {
            let ghost r0 = views(r@);
            let e = m[j].duplicate();
            let ghost ev = e@;
            proof {
                lemma_read_copy(m@, j as int, e);
                lemma_read_put(r@, r@.len() as int, e);
                assert(r@.insert(r@.len() as int, e) =~= r@.push(e));
            }
            r.push(e);
            assert(views(r@) =~= r0.push(ev));
        }
        j = j + 1;
    }
    assert(ms.take(ms.len() as int) =~= ms);
    r
}

/// The last entry in a slot of two runs, one behind the other.
pub proof fn lemma_last_in_append(a: Seq<EntryView>, b: Seq<EntryView>, k: BtreeKey)
    ensures
        last_in(a + b, k) == (match last_in(b, k) {
            Some(e) => Some(e),
            None => last_in(a, k),
        }),
    decreases b.len(),
{
    if b.len() == 0 {
        assert(a + b =~= a);
    } else {
        assert((a + b).drop_last() =~= a + b.drop_last());
        assert((a + b).last() == b.last());
        lemma_last_in_append(a, b.drop_last(), k);
    }
}

} // verus!
