//! Nodes whose entries are all live extents, and what routing entries say of
//! them.

use crate::key::{BchVal, BtreeKey, EntryView, KeyType};
use crate::laws_split::{lemma_settled_live, settled};
use crate::node::{drop_aux, free_start, lemma_run_bound, set_readable, BtreeNode};
use crate::node_delete::{
    lemma_live_after_delete, lemma_live_after_mark, lemma_live_after_shadowed_mark,
    lemma_newest_index, tombstone, whiteout_last,
};
use crate::node_edit::lemma_extent_size;
use crate::node_split::{lemma_split_point, split_point};
use crate::packed::{lemma_total_append, total_size};
use crate::route::{best_at_most, extents, lemma_best_range, routing_index};
use crate::run::{lemma_live, live};
use crate::tree_insert::{split_halves, split_key};
use vstd::prelude::*;

verus! {

/// Whether all entries are live extents, one in each slot, and fit the node.
pub open spec fn neat(n: BtreeNode) -> bool {
    &&& settled(n.all())
    &&& forall|i: int| 0 <= i < n.all().len() ==> (#[trigger] n.all()[i]).u64s() == 4
    &&& n.key_count == n.all().len()
    &&& 32 * n.all().len() <= n.node_size
}

/// A neat node that is well formed.
pub open spec fn tidy(n: BtreeNode) -> bool {
    n.wf() && neat(n)
}

/// Whether all entries are as long as extents and fit the node.
pub open spec fn leaf_ok(n: BtreeNode) -> bool {
    &&& n.wf()
    &&& forall|i: int| 0 <= i < n.all().len() ==> (#[trigger] n.all()[i]).u64s() == 4
    &&& 32 * n.all().len() <= n.node_size
}

/// Whether no entry of a run is in the slot of `k`.
pub open spec fn unused(es: Seq<EntryView>, k: BtreeKey) -> bool {
    forall|e: EntryView| #[trigger] es.contains(e) ==> !e.key().same_slot(k)
}

/// Whether `new` has the entries of `old` and `x`.
pub open spec fn adds(old: Seq<EntryView>, new: Seq<EntryView>, x: EntryView) -> bool {
    forall|e: EntryView| #[trigger] new.contains(e) <==> old.contains(e) || e == x
}

/// The routing entry that a node has for `k`.
pub open spec fn pick(n: BtreeNode, k: BtreeKey) -> EntryView {
    n.all()[routing_index(extents(n.all()), k)]
}

/// Whether a node has a routing entry that does not come behind `k`.
pub open spec fn covers(n: BtreeNode, k: BtreeKey) -> bool {
    best_at_most(extents(n.all()), k) is Some
}

/// Whether `x` has the greatest key of a run that does not come behind `k`.
pub open spec fn is_best(es: Seq<EntryView>, k: BtreeKey, x: EntryView) -> bool {
    &&& es.contains(x)
    &&& !k.lt(x.key())
    &&& forall|y: EntryView| #[trigger] es.contains(y) && !k.lt(y.key()) ==> !x.key().lt(y.key())
}

/// The routing entry for `k` once `x` is added.
pub open spec fn picked(n: BtreeNode, x: EntryView, k: BtreeKey) -> EntryView {
    if !k.lt(x.key()) && pick(n, k) == pick(n, x.key()) {
        x
    } else {
        pick(n, k)
    }
}

/// In a settled run an entry is known by its slot.
pub proof fn lemma_settled_unique(es: Seq<EntryView>, x: EntryView, y: EntryView)
    requires
        settled(es),
        es.contains(x),
        es.contains(y),
        x.key().same_slot(y.key()),
    ensures
        x == y,
{
    let i = choose|i: int| 0 <= i < es.len() && es[i] == x;
    let j = choose|j: int| 0 <= j < es.len() && es[j] == y;
    if i < j {
        assert(!es[i].key().same_slot(es[j].key()));
    } else if j < i {
        assert(!es[j].key().same_slot(es[i].key()));
    }
}

/// What the routing entry for a key is.
pub proof fn lemma_pick(n: BtreeNode, k: BtreeKey)
    requires
        covers(n, k),
    ensures
        is_best(n.all(), k, pick(n, k)),
{
    let es = extents(n.all());
    lemma_best_range(es, k);
    let b = best_at_most(es, k)->0;
    let x = pick(n, k);
    assert(n.all()[b] == x);
    assert(es[b].0 == x.key());
    assert forall|y: EntryView| #[trigger] n.all().contains(y) && !k.lt(y.key()) implies !x.key().lt(
        y.key(),
    ) by {
        let j = choose|j: int| 0 <= j < n.all().len() && n.all()[j] == y;
        assert(es[j].0 == y.key());
    }
}

/// The best entry is the one that is picked.
pub proof fn lemma_pick_is(n: BtreeNode, k: BtreeKey, x: EntryView)
    requires
        settled(n.all()),
        is_best(n.all(), k, x),
    ensures
        covers(n, k),
        pick(n, k) == x,
{
    let es = extents(n.all());
    lemma_best_range(es, k);
    let j = choose|j: int| 0 <= j < n.all().len() && n.all()[j] == x;
    assert(es[j].0 == x.key());
    let b = best_at_most(es, k)->0;
    assert(es[b].0 == n.all()[b].key());
    assert(n.all().contains(n.all()[b]));
    lemma_settled_unique(n.all(), x, n.all()[b]);
}

/// The entry that is picked once `x` is added is the best one of all.
pub proof fn lemma_picked(n: BtreeNode, x: EntryView, k: BtreeKey)
    requires
        settled(n.all()),
        covers(n, k),
        covers(n, x.key()),
        unused(n.all(), x.key()),
    ensures
        n.all().contains(picked(n, x, k)) || picked(n, x, k) == x,
        !k.lt(picked(n, x, k).key()),
        forall|y: EntryView| #[trigger]
            n.all().contains(y) && !k.lt(y.key()) ==> !picked(n, x, k).key().lt(y.key()),
        !k.lt(x.key()) ==> !picked(n, x, k).key().lt(x.key()),
{
    lemma_pick(n, k);
    lemma_pick(n, x.key());
    let y = pick(n, k);
    if !k.lt(x.key()) {
        if y.key().lt(x.key()) {
            lemma_pick_is(n, x.key(), y);
        } else {
            assert(!y.key().same_slot(x.key()));
        }
    }
}

/// A node that has the picked entry, and otherwise nothing but what `n` has and
/// `x`, picks it.
pub proof fn lemma_pick_among(n: BtreeNode, h: BtreeNode, x: EntryView, k: BtreeKey)
    requires
        settled(n.all()),
        settled(h.all()),
        covers(n, k),
        covers(n, x.key()),
        unused(n.all(), x.key()),
        h.all().contains(picked(n, x, k)),
        forall|e: EntryView| #[trigger] h.all().contains(e) ==> n.all().contains(e) || e == x,
    ensures
        covers(h, k),
        pick(h, k) == picked(n, x, k),
{
    lemma_picked(n, x, k);
    lemma_pick_is(h, k, picked(n, x, k));
}

/// The entries of a node take no more than what stands before its free space.
proof fn lemma_total_below_free(n: BtreeNode)
    requires
        n.wf(),
    ensures
        total_size(n.all()) <= free_start(drop_aux(n.sets@)) <= free_start(n.sets@),
{
    reveal(BtreeNode::wf);
    assert(set_readable(n.data@, n.sets@[0]));
    assert(set_readable(n.data@, n.sets@[1]));
    assert(set_readable(n.data@, n.sets@[2]));
    lemma_run_bound(n.data@, n.sets@[0]);
    lemma_run_bound(n.data@, n.sets@[1]);
    lemma_run_bound(n.data@, n.sets@[2]);
    lemma_total_append(n.run(0) + n.run(1), n.run(2));
    lemma_total_append(n.run(0), n.run(1));
}

/// Entries of four u64s take 32 bytes each.
pub proof fn lemma_narrow_total(es: Seq<EntryView>)
    requires
        forall|i: int| 0 <= i < es.len() ==> (#[trigger] es[i]).u64s() == 4,
    ensures
        total_size(es) == 32 * es.len(),
    decreases es.len(),
{
    if es.len() > 0 {
        let t = es.skip(1);
        assert forall|i: int| 0 <= i < t.len() implies (#[trigger] t[i]).u64s() == 4 by {
            assert(t[i] == es[i + 1]);
        }
        lemma_narrow_total(t);
        assert(es[0].u64s() == 4);
    }
}

/// A compaction leaves a tidy node tidy, with the same entries.
pub proof fn lemma_tidy_compacted(n: BtreeNode, c: BtreeNode)
    requires
        tidy(n),
        n.compacted_to(c),
    ensures
        tidy(c),
        c.node_size == n.node_size,
        forall|e: EntryView| #[trigger] c.all().contains(e) <==> n.all().contains(e),
{
    lemma_tidy_live(n);
}

/// The live entries of a neat node are its entries, sorted.
proof fn lemma_tidy_live(n: BtreeNode)
    requires
        neat(n),
    ensures
        forall|e: EntryView| #[trigger] n.live().contains(e) <==> n.all().contains(e),
        settled(n.live()),
        n.live().len() <= n.all().len(),
        forall|i: int| 0 <= i < n.live().len() ==> (#[trigger] n.live()[i]).u64s() == 4,
        crate::run::sorted(n.live()),
{
    let es = n.live();
    lemma_live(n.all());
    assert forall|e: EntryView| #[trigger] es.contains(e) <==> n.all().contains(e) by {
        lemma_settled_live(n.all(), e);
    }
    assert forall|i: int| 0 <= i < es.len() implies (#[trigger] es[i]).u64s() == 4
        && es[i].key_type != KeyType::Deleted by {
        assert(es.contains(es[i]));
        let j = choose|j: int| 0 <= j < n.all().len() && n.all()[j] == es[i];
        assert(n.all()[j].u64s() == 4);
    }
    assert forall|i: int, j: int| 0 <= i < j < es.len() implies !(
    #[trigger] es[i]).key().same_slot((#[trigger] es[j]).key()) by {
        assert(es[i].key().lt(es[j].key()));
    }
}

/// Adding an extent in an unused slot leaves a tidy node tidy.
pub proof fn lemma_tidy_added(n: BtreeNode, new: BtreeNode, k: BtreeKey, v: BchVal)
    requires
        tidy(n),
        n.added(new, EntryView::extent(k, v)),
        n.has_room(32),
        k.key_type != KeyType::Deleted,
        unused(n.all(), k),
    ensures
        tidy(new),
        new.node_size == n.node_size,
        adds(n.all(), new.all(), EntryView::extent(k, v)),
{
    let e = EntryView::extent(k, v);
    lemma_extent_size(k, v);
    lemma_total_below_free(n);
    lemma_narrow_total(n.all());
    let fs = new.all();
    assert(fs == n.all().push(e));
    lemma_adds_push(n.all(), e);
    assert forall|i: int, j: int| 0 <= i < j < fs.len() implies !(
    #[trigger] fs[i]).key().same_slot((#[trigger] fs[j]).key()) by {
        assert(n.all().contains(n.all()[i]));
        assert(fs[i] == n.all()[i]);
        if j < n.all().len() {
            assert(fs[j] == n.all()[j]);
        }
    }
    assert forall|i: int| 0 <= i < fs.len() implies (#[trigger] fs[i]).key_type != KeyType::Deleted
        && fs[i].u64s() == 4 by {
        if i < n.all().len() {
            assert(fs[i] == n.all()[i]);
        }
    }
}

proof fn lemma_adds_push(es: Seq<EntryView>, x: EntryView)
    ensures
        adds(es, es.push(x), x),
{
    let fs = es.push(x);
    assert forall|e: EntryView| #[trigger] fs.contains(e) <==> es.contains(e) || e == x by {
        if es.contains(e) {
            let j = choose|j: int| 0 <= j < es.len() && es[j] == e;
            assert(fs[j] == e);
        }
        if e == x {
            assert(fs[es.len() as int] == e);
        }
        if fs.contains(e) {
            let j = choose|j: int| 0 <= j < fs.len() && fs[j] == e;
            if j < es.len() {
                assert(es[j] == e);
            }
        }
    }
}

/// A tidy node that takes an extent in an unused slot stays tidy.
pub proof fn lemma_tidy_grown(n: BtreeNode, new: BtreeNode, k: BtreeKey, v: BchVal, keep_aux: bool)
    requires
        tidy(n),
        n.grown(new, EntryView::extent(k, v), keep_aux),
        k.key_type != KeyType::Deleted,
        unused(n.all(), k),
    ensures
        tidy(new),
        new.node_size == n.node_size,
        adds(n.all(), new.all(), EntryView::extent(k, v)),
{
    let e = EntryView::extent(k, v);
    lemma_extent_size(k, v);
    if n.has_room(32) {
        lemma_tidy_added(n, new, k, v);
    } else {
        let c = choose|c: BtreeNode| #[trigger]
            n.compacted_to(c) && BtreeNode::takes(c, e.u64s() * 8, keep_aux) && c.added(new, e);
        lemma_tidy_compacted(n, c);
        lemma_tidy_added(c, new, k, v);
    }
}

/// Whether `left` and `right` share out the entries of `n` and `x` by whether
/// they come before `s`, which is the key of an entry, but not the smallest.
pub open spec fn shared_by(
    n: BtreeNode,
    left: BtreeNode,
    right: BtreeNode,
    x: EntryView,
    s: BtreeKey,
) -> bool {
    &&& tidy(left)
    &&& tidy(right)
    &&& forall|e: EntryView| #[trigger]
        left.all().contains(e) <==> (n.all().contains(e) || e == x) && e.key().lt(s)
    &&& forall|e: EntryView| #[trigger]
        right.all().contains(e) <==> (n.all().contains(e) || e == x) && !e.key().lt(s)
    &&& s.key_type != KeyType::Deleted
    &&& exists|z: EntryView| #[trigger] n.all().contains(z) && z.key() == s
    &&& exists|z: EntryView| #[trigger] n.all().contains(z) && z.key().lt(s)
    &&& n.node_size >= 64
}

/// A split of a neat node with an extent added in an unused slot.
pub proof fn lemma_tidy_halves(
    n: BtreeNode,
    left: BtreeNode,
    right: BtreeNode,
    k: BtreeKey,
    v: BchVal,
    seq: Option<u64>,
)
    requires
        neat(n),
        split_halves(n, left, right, Some((k, v)), seq),
        k.key_type != KeyType::Deleted,
        unused(n.all(), k),
    ensures
        shared_by(n, left, right, EntryView::extent(k, v), split_key(n)),
{
    let es = n.live();
    let s = split_key(n);
    let x = EntryView::extent(k, v);
    let mid = split_point(es);
    lemma_tidy_live(n);
    lemma_split_point(es);
    lemma_extent_size(k, v);
    let lp = es.take(mid);
    let rp = es.skip(mid);
    assert forall|i: int| 0 <= i < lp.len() implies (#[trigger] lp[i]).u64s() == 4 by {
        assert(lp[i] == es[i]);
    }
    assert forall|i: int| 0 <= i < rp.len() implies (#[trigger] rp[i]).u64s() == 4 by {
        assert(rp[i] == es[mid + i]);
    }
    lemma_narrow_total(lp);
    lemma_narrow_total(rp);
    assert(es.contains(es[mid]) && es.contains(es[0]));
    assert(es[0].key().lt(es[mid].key()));
    assert(n.all().contains(es[mid]) && n.all().contains(es[0]));
    lemma_leaf_parts(es, mid);
    assert(unused(es, k));
    assert(es[mid].key_type != KeyType::Deleted);
    lemma_part_tidy(es, lp, k, x);
    lemma_part_tidy(es, rp, k, x);
    lemma_adds_push(lp, x);
    lemma_adds_push(rp, x);
}

/// A part of a settled run, alone or with an extent in an unused slot behind
/// it, is settled.
proof fn lemma_part_tidy(es: Seq<EntryView>, part: Seq<EntryView>, k: BtreeKey, x: EntryView)
    requires
        settled(es),
        exists|lo: int, hi: int| 0 <= lo <= hi <= es.len() && part == #[trigger] es.subrange(lo, hi),
        unused(es, k),
        x.key() == k,
        k.key_type != KeyType::Deleted,
        x.u64s() == 4,
        forall|i: int| 0 <= i < es.len() ==> (#[trigger] es[i]).u64s() == 4,
    ensures
        settled(part),
        settled(part.push(x)),
        forall|i: int| 0 <= i < part.len() ==> (#[trigger] part[i]).u64s() == 4,
        forall|i: int| 0 <= i < part.len() + 1 ==> (#[trigger] part.push(x)[i]).u64s() == 4,
{
    let (lo, hi) = choose|lo: int, hi: int|
        0 <= lo <= hi <= es.len() && part == #[trigger] es.subrange(lo, hi);
    assert forall|i: int| 0 <= i < part.len() implies (#[trigger] part[i]) == es[lo + i] by {}
    let fs = part.push(x);
    assert forall|i: int, j: int| 0 <= i < j < fs.len() implies !(
    #[trigger] fs[i]).key().same_slot((#[trigger] fs[j]).key()) by {
        assert(fs[i] == part[i]);
        assert(es.contains(es[lo + i]));
        if j < part.len() {
            assert(fs[j] == part[j]);
            assert(!es[lo + i].key().same_slot(es[lo + j].key()));
        }
    }
    assert forall|i: int, j: int| 0 <= i < j < part.len() implies !(
    #[trigger] part[i]).key().same_slot((#[trigger] part[j]).key()) by {
        assert(!es[lo + i].key().same_slot(es[lo + j].key()));
    }
    assert forall|i: int| 0 <= i < fs.len() implies (#[trigger] fs[i]).key_type != KeyType::Deleted
        && fs[i].u64s() == 4 by {
        if i < part.len() {
            assert(fs[i] == part[i]);
        }
    }
}

/// The half that `k` belongs to.
pub open spec fn half_of(left: BtreeNode, right: BtreeNode, s: BtreeKey, k: BtreeKey) -> BtreeNode {
    if k.lt(s) {
        left
    } else {
        right
    }
}

/// The half for a key picks what the node with `x` added would have picked,
/// and that is on the side of the key.
pub proof fn lemma_pick_in_half(
    n: BtreeNode,
    left: BtreeNode,
    right: BtreeNode,
    x: EntryView,
    s: BtreeKey,
    k: BtreeKey,
)
    requires
        shared_by(n, left, right, x, s),
        settled(n.all()),
        covers(n, k),
        covers(n, x.key()),
        unused(n.all(), x.key()),
    ensures
        covers(half_of(left, right, s, k), k),
        pick(half_of(left, right, s, k), k) == picked(n, x, k),
        picked(n, x, k).key().lt(s) == k.lt(s),
{
    lemma_picked(n, x, k);
    let y = picked(n, x, k);
    let z = choose|z: EntryView| #[trigger] n.all().contains(z) && z.key() == s;
    if !k.lt(s) {
        assert(!y.key().lt(z.key()));
    }
    lemma_pick_among(n, half_of(left, right, s, k), x, k);
}

// ── leaves with tombstones and rewritten keys ───────────────────────────

/// Whether `left` and `right` have nothing but entries of `n` and `x`, parted at
/// `s`, which is the key of an entry, but not the smallest.
pub open spec fn parted(
    n: BtreeNode,
    left: BtreeNode,
    right: BtreeNode,
    x: EntryView,
    s: BtreeKey,
) -> bool {
    &&& forall|e: EntryView| #[trigger]
        left.all().contains(e) ==> (n.all().contains(e) || e == x) && e.key().lt(s)
    &&& forall|e: EntryView| #[trigger]
        right.all().contains(e) ==> (n.all().contains(e) || e == x) && !e.key().lt(s)
    &&& s.key_type != KeyType::Deleted
    &&& exists|z: EntryView| #[trigger] n.all().contains(z) && z.key() == s
    &&& exists|z: EntryView| #[trigger] n.all().contains(z) && z.key().lt(s)
    &&& n.node_size >= 64
}

/// Live entries are entries.
pub proof fn lemma_live_in(es: Seq<EntryView>, e: EntryView)
    requires
        live(es).contains(e),
    ensures
        es.contains(e),
        e.key_type != KeyType::Deleted,
{
    let i = choose|i: int| 0 <= i < live(es).len() && live(es)[i] == e;
    crate::node_compact::lemma_live_member(es, i);
    let j = choose|j: int| 0 <= j < es.len() && es[j] == live(es)[i];
    lemma_live(es);
    assert(crate::run::not_deleted(live(es)[i]));
    assert(es[j] == e);
}

/// What a compaction leaves of a leaf.
pub proof fn lemma_leaf_compacted(n: BtreeNode, c: BtreeNode)
    requires
        leaf_ok(n),
        n.compacted_to(c),
    ensures
        leaf_ok(c),
        c.live() == n.live(),
        c.node_size == n.node_size,
        forall|e: EntryView| #[trigger] c.all().contains(e) ==> n.all().contains(e),
{
    let es = n.live();
    lemma_live(n.all());
    crate::node_compact::lemma_compact_idempotent(n.all());
    assert forall|e: EntryView| #[trigger] es.contains(e) implies n.all().contains(e) by {
        lemma_live_in(n.all(), e);
    }
    assert forall|i: int| 0 <= i < es.len() implies (#[trigger] es[i]).u64s() == 4 by {
        lemma_leaf_live_kind(n, es[i]);
    }
}

/// Of what kind the live entries of a leaf are.
pub proof fn lemma_leaf_live_kind(n: BtreeNode, e: EntryView)
    requires
        leaf_ok(n),
        n.live().contains(e),
    ensures
        e.u64s() == 4,
        e.key_type != KeyType::Deleted,
{
    lemma_live_in(n.all(), e);
    let j = choose|j: int| 0 <= j < n.all().len() && n.all()[j] == e;
    assert(n.all()[j].u64s() == 4);
}

/// What a leaf holds that took an entry behind what it has.
proof fn lemma_leaf_added(n: BtreeNode, new: BtreeNode, e: EntryView)
    requires
        leaf_ok(n),
        n.added(new, e),
        n.has_room(32),
        e.padded() == e,
        e.u64s() == 4,
    ensures
        leaf_ok(new),
        adds(n.all(), new.all(), e),
{
    lemma_total_below_free(n);
    lemma_narrow_total(n.all());
    let fs = new.all();
    assert(fs == n.all().push(e));
    lemma_adds_push(n.all(), e);
    assert forall|i: int| 0 <= i < fs.len() implies (#[trigger] fs[i]).u64s() == 4 by {
        if i < n.all().len() {
            assert(fs[i] == n.all()[i]);
        }
    }
}

/// Whether the live entries of `new` are those of `n`, but `x` in its slot.
pub open spec fn wrote(n: BtreeNode, new: BtreeNode, x: EntryView) -> bool {
    forall|e: EntryView| #[trigger]
        new.live().contains(e) <==> e == x || (n.live().contains(e) && !e.key().same_slot(x.key()))
}

/// A leaf that took an extent.
pub proof fn lemma_leaf_grown(n: BtreeNode, new: BtreeNode, k: BtreeKey, v: BchVal, keep_aux: bool)
    requires
        leaf_ok(n),
        n.grown(new, EntryView::extent(k, v), keep_aux),
        k.key_type != KeyType::Deleted,
    ensures
        leaf_ok(new),
        new.node_size == n.node_size,
        wrote(n, new, EntryView::extent(k, v)),
        forall|e: EntryView| #[trigger]
            new.all().contains(e) ==> n.all().contains(e) || e == EntryView::extent(k, v),
{
    let e = EntryView::extent(k, v);
    lemma_extent_size(k, v);
    n.lemma_grown(new, e, keep_aux);
    if n.has_room(32) {
        lemma_leaf_added(n, new, e);
    } else {
        let c = choose|c: BtreeNode| #[trigger]
            n.compacted_to(c) && BtreeNode::takes(c, e.u64s() * 8, keep_aux) && c.added(new, e);
        lemma_leaf_compacted(n, c);
        lemma_leaf_added(c, new, e);
    }
}

/// A part of the live entries of a leaf, with `e` behind it.
proof fn lemma_part_live(n: BtreeNode, lo: int, hi: int, e: EntryView)
    requires
        leaf_ok(n),
        0 <= lo <= hi <= n.live().len(),
        e.u64s() == 4,
        e.key_type != KeyType::Deleted,
    ensures
        ({
            let part = n.live().subrange(lo, hi);
            &&& live(part) == part
            &&& total_size(part) == 32 * part.len()
            &&& forall|i: int|
                0 <= i < part.len() ==> (#[trigger] part[i]).u64s() == 4 && part[i].key_type != KeyType::Deleted
            &&& forall|i: int|
                0 <= i <= part.len() ==> (#[trigger] part.push(e)[i]).u64s() == 4 && part.push(
                    e,
                )[i].key_type != KeyType::Deleted
            &&& forall|x: EntryView| #[trigger]
                live(part.push(e)).contains(x) <==> x == e || (part.contains(x)
                    && !x.key().same_slot(e.key()))
        }),
{
    let es = n.live();
    let part = es.subrange(lo, hi);
    lemma_live(n.all());
    assert forall|i: int| 0 <= i < part.len() implies (#[trigger] part[i]).u64s() == 4
        && part[i].key_type != KeyType::Deleted by {
        assert(es.contains(es[lo + i]));
        lemma_leaf_live_kind(n, es[lo + i]);
    }
    assert forall|i: int, j: int| 0 <= i < j < part.len() implies (#[trigger] part[i]).key().lt(
        (#[trigger] part[j]).key(),
    ) by {
        assert(es[lo + i].key().lt(es[lo + j].key()));
    }
    crate::run::lemma_live_idempotent(part);
    lemma_narrow_total(part);
    crate::node_delete::lemma_live_after_write(part, e);
    assert forall|i: int| 0 <= i <= part.len() implies (#[trigger] part.push(e)[i]).u64s() == 4
        && part.push(e)[i].key_type != KeyType::Deleted by {
        if i < part.len() {
            assert(part.push(e)[i] == part[i]);
        }
    }
}

/// The halves of a leaf that was split to take an extent.
pub proof fn lemma_leaf_halves(
    n: BtreeNode,
    left: BtreeNode,
    right: BtreeNode,
    k: BtreeKey,
    v: BchVal,
    seq: Option<u64>,
)
    requires
        leaf_ok(n),
        split_halves(n, left, right, Some((k, v)), seq),
        k.key_type != KeyType::Deleted,
    ensures
        parted(n, left, right, EntryView::extent(k, v), split_key(n)),
        leaf_ok(left),
        leaf_ok(right),
        forall|e: EntryView| #[trigger]
            half_of(left, right, split_key(n), e.key()).live().contains(e) <==> e
                == EntryView::extent(k, v) || (n.live().contains(e) && !e.key().same_slot(k)),
{
    let es = n.live();
    let s = split_key(n);
    let x = EntryView::extent(k, v);
    let mid = split_point(es);
    lemma_live(n.all());
    lemma_split_point(es);
    lemma_extent_size(k, v);
    let lp = es.take(mid);
    let rp = es.skip(mid);
    assert(lp =~= es.subrange(0, mid));
    assert(rp =~= es.subrange(mid, es.len() as int));
    lemma_part_live(n, 0, mid, x);
    lemma_part_live(n, mid, es.len() as int, x);
    lemma_leaf_parts(es, mid);
    assert(es.contains(es[mid]) && es.contains(es[0]));
    assert(es[0].key().lt(es[mid].key()));
    lemma_live_in(n.all(), es[mid]);
    lemma_live_in(n.all(), es[0]);
    lemma_leaf_live_kind(n, es[mid]);
    lemma_adds_push(lp, x);
    lemma_adds_push(rp, x);
    assert forall|e: EntryView| #[trigger] left.all().contains(e) implies (n.all().contains(e) || e
        == x) && e.key().lt(s) by {
        if lp.contains(e) {
            lemma_live_in(n.all(), e);
        }
    }
    assert forall|e: EntryView| #[trigger] right.all().contains(e) implies (n.all().contains(e)
        || e == x) && !e.key().lt(s) by {
        if rp.contains(e) {
            lemma_live_in(n.all(), e);
        }
    }
    assert forall|e: EntryView| #[trigger]
        half_of(left, right, s, e.key()).live().contains(e) <==> e == x || (es.contains(e)
            && !e.key().same_slot(k)) by {
        if e.key().lt(s) {
            assert(lp.contains(e) <==> es.contains(e));
        } else {
            assert(rp.contains(e) <==> es.contains(e));
        }
    }
}

/// The halves of a leaf that was split with nothing added.
pub proof fn lemma_leaf_cut(n: BtreeNode, left: BtreeNode, right: BtreeNode, seq: Option<u64>)
    requires
        leaf_ok(n),
        split_halves(n, left, right, None, seq),
    ensures
        parted(n, left, right, n.live()[0], split_key(n)),
        tidy(left),
        tidy(right),
        forall|e: EntryView| #[trigger]
            half_of(left, right, split_key(n), e.key()).live().contains(e) <==> n.live().contains(e),
{
    let es = n.live();
    let s = split_key(n);
    let x = es[0];
    let mid = split_point(es);
    lemma_live(n.all());
    lemma_split_point(es);
    assert(es.contains(es[mid]) && es.contains(x));
    lemma_leaf_live_kind(n, x);
    lemma_leaf_live_kind(n, es[mid]);
    let lp = es.take(mid);
    let rp = es.skip(mid);
    assert(lp =~= es.subrange(0, mid));
    assert(rp =~= es.subrange(mid, es.len() as int));
    lemma_part_live(n, 0, mid, x);
    lemma_part_live(n, mid, es.len() as int, x);
    lemma_leaf_parts(es, mid);
    assert(es[0].key().lt(es[mid].key()));
    lemma_live_in(n.all(), es[mid]);
    lemma_live_in(n.all(), x);
    assert forall|e: EntryView| #[trigger] left.all().contains(e) implies n.all().contains(e)
        && e.key().lt(s) by {
        lemma_live_in(n.all(), e);
    }
    assert forall|e: EntryView| #[trigger] right.all().contains(e) implies n.all().contains(e)
        && !e.key().lt(s) by {
        lemma_live_in(n.all(), e);
    }
    assert(settled(lp)) by {
        assert forall|i: int, j: int| 0 <= i < j < lp.len() implies !(
        #[trigger] lp[i]).key().same_slot((#[trigger] lp[j]).key()) by {
            assert(es[i].key().lt(es[j].key()));
        }
    }
    assert(settled(rp)) by {
        assert forall|i: int, j: int| 0 <= i < j < rp.len() implies !(
        #[trigger] rp[i]).key().same_slot((#[trigger] rp[j]).key()) by {
            assert(es[mid + i].key().lt(es[mid + j].key()));
        }
    }
}

/// A leaf that was compacted is tidy.
pub proof fn lemma_compacted_tidy(n: BtreeNode, c: BtreeNode)
    requires
        leaf_ok(n),
        n.compacted_to(c),
    ensures
        tidy(c),
{
    let es = n.live();
    lemma_leaf_compacted(n, c);
    lemma_live(n.all());
    assert forall|i: int| 0 <= i < es.len() implies (#[trigger] es[i]).key_type != KeyType::Deleted
        && es[i].u64s() == 4 by {
        assert(es.contains(es[i]));
        lemma_leaf_live_kind(n, es[i]);
    }
    assert forall|i: int, j: int| 0 <= i < j < es.len() implies !(
    #[trigger] es[i]).key().same_slot((#[trigger] es[j]).key()) by {
        assert(es[i].key().lt(es[j].key()));
    }
}

/// The parts of a sorted run.
proof fn lemma_leaf_parts(es: Seq<EntryView>, mid: int)
    requires
        crate::run::sorted(es),
        0 <= mid < es.len(),
    ensures
        forall|e: EntryView| #[trigger]
            es.take(mid).contains(e) <==> es.contains(e) && e.key().lt(es[mid].key()),
        forall|e: EntryView| #[trigger]
            es.skip(mid).contains(e) <==> es.contains(e) && !e.key().lt(es[mid].key()),
{
    let lp = es.take(mid);
    let rp = es.skip(mid);
    let s = es[mid].key();
    assert forall|e: EntryView| #[trigger] lp.contains(e) <==> es.contains(e) && e.key().lt(s) by {
        if es.contains(e) && e.key().lt(s) {
            let j = choose|j: int| 0 <= j < es.len() && es[j] == e;
            if j > mid {
                assert(es[mid].key().lt(es[j].key()));
            }
            assert(lp[j] == e);
        }
        if lp.contains(e) {
            let j = choose|j: int| 0 <= j < lp.len() && lp[j] == e;
            assert(es[j] == e);
            assert(es[j].key().lt(es[mid].key()));
        }
    }
    assert forall|e: EntryView| #[trigger] rp.contains(e) <==> es.contains(e) && !e.key().lt(s) by {
        if es.contains(e) && !e.key().lt(s) {
            let j = choose|j: int| 0 <= j < es.len() && es[j] == e;
            if j < mid {
                assert(es[j].key().lt(es[mid].key()));
            }
            assert(rp[j - mid] == e);
        }
        if rp.contains(e) {
            let j = choose|j: int| 0 <= j < rp.len() && rp[j] == e;
            assert(es[mid + j] == e);
            if j > 0 {
                assert(es[mid].key().lt(es[mid + j].key()));
            }
        }
    }
}

/// Whether the live entries of `new` are those of `n`, but none in the slot of
/// `k` where that can be emptied.
pub open spec fn wiped(n: BtreeNode, new: BtreeNode, k: BtreeKey) -> bool {
    forall|e: EntryView| #[trigger]
        new.live().contains(e) <==> n.live().contains(e) && !(e.key().same_slot(k) && n.can_empty(k))
}

/// A leaf from which an entry was deleted.
pub proof fn lemma_leaf_deleted(n: BtreeNode, new: BtreeNode, k: BtreeKey)
    requires
        leaf_ok(n),
        n.after_delete(new, k),
        n.spec_has_live_entry(k),
    ensures
        leaf_ok(new),
        wiped(n, new, k),
        forall|e: EntryView| #[trigger]
            new.all().contains(e) ==> n.all().contains(e) || e.key().same_slot(k),
{
    let es = n.all();
    let fs = n.entries_after_delete(k);
    let y = tombstone(k);
    lemma_extent_size(BtreeKey { key_type: KeyType::Deleted, ..k }, BchVal::spec_new(0, 0));
    lemma_total_below_free(n);
    lemma_narrow_total(es);
    if n.has_room(32) {
        lemma_live_after_delete(es, k);
        lemma_adds_push(es, y);
    } else {
        if whiteout_last(es, k) {
            lemma_live_after_shadowed_mark(es, k);
        } else {
            lemma_live_after_mark(es, k);
        }
        lemma_newest_index(es, k);
    }
    assert forall|i: int| 0 <= i < fs.len() implies (#[trigger] fs[i]).u64s() == 4 && (
    es.contains(fs[i]) || fs[i].key().same_slot(k)) by {
        if i < es.len() {
            assert(es.contains(es[i]));
            assert(es[i].u64s() == 4);
        }
    }
    lemma_live(fs);
    crate::node_compact::lemma_compact_idempotent(fs);
    assert forall|e: EntryView| #[trigger] live(fs).contains(e) implies fs.contains(e) by {
        lemma_live_in(fs, e);
    }
    if BtreeNode::compaction_due(n.key_count, n.one_more_whiteout()) {
        let gs = live(fs);
        assert forall|i: int| 0 <= i < gs.len() implies (#[trigger] gs[i]).u64s() == 4 by {
            assert(gs.contains(gs[i]));
            let j = choose|j: int| 0 <= j < fs.len() && fs[j] == gs[i];
            assert(fs[j].u64s() == 4);
        }
    }
}

} // verus!
