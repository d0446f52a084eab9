//! What is done to a node around its I/O: checks and sorting after a read,
//! sorting before a write, cleaning up after it.

use crate::error::{Fault, StorageError};
use crate::key::{Bpos, BtreeEntry, EntryView};
use crate::node::{
    max_int, round8, set_bytes, set_readable, BsetTree, BtreeNode, DEFAULT_NODE_SIZE,
    NODE_JUST_WRITTEN, NODE_READ_IN_FLIGHT, NODE_WRITE_IN_FLIGHT,
};
use crate::node_compact::{lemma_live_member, lemma_total_live};
use crate::node_split::lemma_wf_same;
use crate::packed::{all_fit, all_padded, entry_at, lemma_total_append, total_size};
use crate::run::{lemma_live, live, live_of, views};
use crate::sort::{lemma_stable_sort, sort_entries, stable_sort};
use crate::text::{dec, push_dec, push_text};
use crate::validate::{
    bch2_validate_bset, bch2_validate_bset_keys, checked, keys_between, keys_fault, set_fault,
};
use vstd::prelude::*;

verus! {

// ── after a read ────────────────────────────────────────────────────────

/// The first fault of the sets from number `i` on, of those in use.
pub open spec fn sets_fault(n: BtreeNode, i: int) -> Option<Fault>
    decreases 3 - i,
{
    if i < 0 || i >= n.spec_nsets() || i >= 3 {
        None
    } else if set_fault(n.sets@[i], i, n.node_size) is Some {
        set_fault(n.sets@[i], i, n.node_size)
    } else if keys_fault(n.data@, n.sets@[i], i) is Some {
        keys_fault(n.data@, n.sets@[i], i)
    } else {
        sets_fault(n, i + 1)
    }
}

/// Sets without a fault lie in the buffer.
proof fn lemma_checked_inside(n: BtreeNode)
    requires
        n.node_size <= n.data@.len() <= DEFAULT_NODE_SIZE,
        sets_fault(n, 0) is None,
    ensures
        n.sets_inside(),
{
    reveal_with_fuel(sets_fault, 4);
    assert forall|i: int| 0 <= i < 3 && (#[trigger] n.sets@[i]).size > 0 implies n.sets@[i].data_offset
        <= n.sets@[i].end_offset <= n.data@.len() by {
        assert(i < n.spec_nsets());
        assert(set_fault(n.sets@[i], i, n.node_size) is None);
    }
}

fn find_sets_fault(node: &BtreeNode) -> (r: Result<(), StorageError>)
    requires
        node.node_size <= node.data@.len() <= DEFAULT_NODE_SIZE,
    ensures
        r == checked(sets_fault(*node, 0)),
{
    let nsets: usize = node.nsets() as usize;
    let mut i: usize = 0;
    while i < nsets
        invariant
            i <= nsets <= 3,
            nsets == node.spec_nsets(),
            node.node_size <= node.data@.len() <= DEFAULT_NODE_SIZE,
            sets_fault(*node, 0) == sets_fault(*node, i as int),
        decreases nsets - i,
    {
        if let Err(e) = bch2_validate_bset(node, i) {
            return Err(e);
        }
        if let Err(e) = bch2_validate_bset_keys(node, i) {
            return Err(e);
        }
        i = i + 1;
    }
    Ok(())
}

/// The live entries of a node whose sets were read: of several sets they are
/// sorted by position first.
pub open spec fn merged_live(n: BtreeNode) -> Seq<EntryView> {
    if n.spec_nsets() <= 1 {
        live(n.read_run(0))
    } else {
        live(stable_sort(n.read_all(), true))
    }
}

/// Whether several sets hold more than fits into the node.
pub open spec fn too_much(n: BtreeNode) -> bool {
    n.spec_nsets() > 1 && total_size(n.read_all()) > n.node_size
}

/// What is known of live entries of padded entries that fit.
proof fn lemma_live_padded(es: Seq<EntryView>)
    requires
        all_fit(es),
        forall|i: int| 0 <= i < es.len() ==> (#[trigger] es[i]).is_padded(),
    ensures
        all_fit(live(es)),
        all_padded(live(es)) == live(es),
        total_size(live(es)) <= total_size(es),
{
    lemma_total_live(es);
    lemma_live(es);
    assert forall|i: int| 0 <= i < live(es).len() implies (#[trigger] live(es)[i]).fits()
        && live(es)[i].padded() == live(es)[i] by {
        lemma_live_member(es, i);
        let j = choose|j: int| 0 <= j < es.len() && es[j] == live(es)[i];
        assert(es[j].is_padded());
        crate::key::lemma_padded(es[j]);
    }
    assert(all_padded(live(es)) =~= live(es));
}

/// Fills the node with the live entries of `all`.
fn refill(node: &mut BtreeNode, all: Vec<BtreeEntry>)
    requires
        old(node).node_size <= old(node).data@.len() <= DEFAULT_NODE_SIZE,
        all_fit(views(all@)),
        forall|i: int| 0 <= i < all@.len() ==> (#[trigger] views(all@)[i]).is_padded(),
        total_size(views(all@)) <= old(node).data@.len(),
    ensures
        final(node).wf(),
        final(node).holds_compacted(live(views(all@))),
        final(node).data@.len() == old(node).data@.len(),
        *final(node) == old(node).with_contents(*final(node)),
{
    let ghost es = views(all@);
    let entries: Vec<BtreeEntry> = live_of(all);
    proof {
        lemma_live_padded(es);
        lemma_live(es);
        assert(entries@.len() == views(entries@).len());
    }
    node.fill_compacted(&entries);
}

/// Whether whole packed keys, up to a zero byte if there is one, lie between
/// `off` and `end`.
pub open spec fn keys_readable(d: Seq<u8>, off: int, end: int) -> bool
    decreases end - off,
{
    off >= end || (off + 3 <= d.len() && (d[off] == 0 || (d[off] >= 3 && off + d[off] * 8 <= end
        && keys_readable(d, off + d[off] * 8, end))))
}

/// Whether the sets in use lie in the buffer and their keys can be read.
pub open spec fn sets_readable(n: BtreeNode) -> bool {
    &&& n.sets_inside()
    &&& forall|i: int|
        0 <= i < 3 && (#[trigger] n.sets@[i]).size > 0 ==> keys_readable(
            n.data@,
            n.sets@[i].data_offset as int,
            n.sets@[i].end_offset as int,
        )
}

/// Keys that pass the check can be read.
proof fn lemma_checked_keys(d: Seq<u8>, off: int, end: int, set: int, prev: Option<Bpos>, count: int)
    requires
        keys_between(d, off, end, set, prev, count) is Ok,
    ensures
        keys_readable(d, off, end),
    decreases end - off,
{
    if off < end && d[off] != 0 {
        lemma_checked_keys(
            d,
            off + d[off] * 8,
            end,
            set,
            Some(entry_at(d, off).pos),
            count + 1,
        );
    }
}

/// Sets without a fault can be read.
proof fn lemma_checked_readable(n: BtreeNode)
    requires
        n.node_size <= n.data@.len() <= DEFAULT_NODE_SIZE,
        sets_fault(n, 0) is None,
    ensures
        sets_readable(n),
{
    lemma_checked_inside(n);
    reveal_with_fuel(sets_fault, 4);
    assert forall|i: int| 0 <= i < 3 && (#[trigger] n.sets@[i]).size > 0 implies keys_readable(
        n.data@,
        n.sets@[i].data_offset as int,
        n.sets@[i].end_offset as int,
    ) by {
        let t = n.sets@[i];
        assert(i < n.spec_nsets());
        assert(keys_fault(n.data@, t, i) is None);
        lemma_checked_keys(n.data@, t.data_offset as int, t.end_offset as int, i, None, 0);
    }
}

/// Merges the sets of a node that was read into one, compacted. Their keys may
/// stand in any order, and more than once.
pub fn bch2_read_done_sort(node: &mut BtreeNode) -> (r: Result<(), StorageError>)
    requires
        sets_readable(*old(node)),
    ensures
        if too_much(*old(node)) {
            r == Err::<(), StorageError>(StorageError::CorruptData(Fault::SortOverflow))
                && *final(node) == *old(node)
        } else {
            r is Ok && final(node).wf() && final(node).holds_compacted(merged_live(*old(node)))
                && final(node).data@.len() == old(node).data@.len() && *final(node) == old(
                node,
            ).with_contents(*final(node))
        },
{
    proof {
        node.lemma_read_all();
    }
    let ghost n0 = *node;
    let mut all: Vec<BtreeEntry> = Vec::new();
    assert(views(all@) =~= Seq::<EntryView>::empty());
    let a = node.trimmed(0);
    node.collect_set(&a, &mut all);
    if node.nsets() <= 1 {
        proof {
            assert(views(all@) =~= n0.read_run(0));
            assert(n0.sets@[1].size == 0 && n0.sets@[2].size == 0);
            assert(n0.read_all() =~= n0.read_run(0));
        }
        refill(node, all);
        return Ok(());
    }
    let b = node.trimmed(1);
    node.collect_set(&b, &mut all);
    let c = node.trimmed(2);
    node.collect_set(&c, &mut all);
    assert(views(all@) =~= n0.read_all());
    let bytes: u64 = (a.end_offset - a.data_offset) as u64 + (b.end_offset - b.data_offset) as u64
        + (c.end_offset - c.data_offset) as u64;
    proof {
        crate::packed::lemma_parse_shape(set_bytes(n0.data@, a));
        crate::packed::lemma_parse_shape(set_bytes(n0.data@, b));
        crate::packed::lemma_parse_shape(set_bytes(n0.data@, c));
        lemma_total_append(n0.read_run(0), n0.read_run(1));
        lemma_total_append(n0.read_run(0) + n0.read_run(1), n0.read_run(2));
    }
    if bytes > node.node_size as u64 {
        return Err(StorageError::CorruptData(Fault::SortOverflow));
    }
    let sorted: Vec<BtreeEntry> = sort_entries(all, true);
    proof {
        let es = n0.read_all();
        let s = stable_sort(es, true);
        lemma_stable_sort(es, true);
        assert forall|i: int| 0 <= i < s.len() implies (#[trigger] s[i]).is_padded() && s[i].fits() by {
            assert(s.contains(s[i]));
            let j = choose|j: int| 0 <= j < es.len() && es[j] == s[i];
            assert(es[j].is_padded() && es[j].fits());
        }
    }
    refill(node, sorted);
    Ok(())
}

/// The entries of a run that lie in a range, both ends included.
pub open spec fn within(es: Seq<EntryView>, min: Bpos, max: Bpos) -> Seq<EntryView>
    decreases es.len(),
{
    if es.len() == 0 {
        es
    } else {
        let f = within(es.drop_last(), min, max);
        if !es.last().pos.lt(min) && !max.lt(es.last().pos) {
            f.push(es.last())
        } else {
            f
        }
    }
}

proof fn lemma_within(es: Seq<EntryView>, min: Bpos, max: Bpos)
    ensures
        within(es, min, max).len() <= es.len(),
        total_size(within(es, min, max)) <= total_size(es),
        forall|i: int|
            0 <= i < within(es, min, max).len() ==> es.contains(
                #[trigger] within(es, min, max)[i],
            ),
    decreases es.len(),
{
    if es.len() > 0 {
        let f = es.drop_last();
        let w = within(f, min, max);
        lemma_within(f, min, max);
        crate::packed::lemma_total_push(f, es.last());
        crate::packed::lemma_total_push(w, es.last());
        assert(es =~= f.push(es.last()));
        assert forall|i: int| 0 <= i < within(es, min, max).len() implies es.contains(
            #[trigger] within(es, min, max)[i],
        ) by {
            if i < w.len() {
                assert(f.contains(w[i]));
                let j = choose|j: int| 0 <= j < f.len() && f[j] == w[i];
                assert(es[j] == w[i]);
            } else {
                assert(es[es.len() - 1] == es.last());
            }
        }
    }
}

fn keep_within(all: &Vec<BtreeEntry>, min: &Bpos, max: &Bpos) -> (r: Vec<BtreeEntry>)
    ensures
        views(r@) == within(views(all@), *min, *max),
        r@.len() == within(views(all@), *min, *max).len(),
{
    let ghost es = views(all@);
    let mut kept: Vec<BtreeEntry> = Vec::new();
    let mut i: usize = 0;
    assert(es.take(0) =~= Seq::<EntryView>::empty());
    assert(views(kept@) =~= within(es.take(0), *min, *max));
    while i < all.len()
        invariant
            i <= all@.len(),
            es == views(all@),
            views(kept@) == within(es.take(i as int), *min, *max),
        decreases all@.len() - i,
    {
        proof {
            assert(es.take(i + 1).drop_last() =~= es.take(i as int));
            assert(es.take(i + 1).last() == all@[i as int]@);
        }
        let p = all[i].pos;
        if !p.precedes(min) && !max.precedes(&p) {
            let e = all[i].duplicate();
            let ghost before = views(kept@);
            let ghost ev = e@;
            kept.push(e);
            assert(views(kept@) =~= before.push(ev));
        }
        i = i + 1;
    }
    assert(es.take(es.len() as int) =~= es);
    assert(kept@.len() == views(kept@).len());
    kept
}

/// Whether a node has entries and a range to hold them against.
pub open spec fn has_range(n: BtreeNode) -> bool {
    n.key_count > 0 && !n.max_key.lt(n.min_key)
}

/// Drops the entries outside the range of the node and compacts the rest; a
/// node without entries, or without a range, stays as it is.
pub fn bch2_btree_node_drop_keys_outside_node(node: &mut BtreeNode) -> (r: Result<
    (),
    StorageError,
>)
    requires
        old(node).wf(),
    ensures
        r is Ok,
        final(node).wf(),
        if has_range(*old(node)) {
            final(node).holds_compacted(
                live(within(old(node).all(), old(node).min_key, old(node).max_key)),
            ) && final(node).data@.len() == old(node).data@.len() && *final(node) == old(
                node,
            ).with_contents(*final(node))
        } else {
            *final(node) == *old(node)
        },
{
    if node.key_count == 0 || node.max_key.precedes(&node.min_key) {
        return Ok(());
    }
    let ghost es = node.all();
    let min = node.min_key;
    let max = node.max_key;
    proof {
        node.lemma_all();
    }
    let all: Vec<BtreeEntry> = node.all_entries();
    let kept: Vec<BtreeEntry> = keep_within(&all, &min, &max);
    proof {
        let w = within(es, min, max);
        lemma_within(es, min, max);
        assert forall|j: int| 0 <= j < w.len() implies (#[trigger] w[j]).is_padded() && w[j].fits() by {
            assert(es.contains(w[j]));
            let k = choose|k: int| 0 <= k < es.len() && es[k] == w[j];
            assert(es[k].is_padded() && es[k].fits());
        }
    }
    refill(node, kept);
    Ok(())
}

/// What is wrong with a node that was read.
pub open spec fn read_fault(n: BtreeNode) -> Option<Fault> {
    if n.data@.len() == 0 {
        Some(Fault::EmptyBuffer)
    } else if n.node_size == 0 {
        Some(Fault::ZeroNodeSize)
    } else if sets_fault(n, 0) is Some {
        sets_fault(n, 0)
    } else if too_much(n) {
        Some(Fault::SortOverflow)
    } else {
        None
    }
}

/// Whether `new` is the node `n`, which was read without a fault, with its sets
/// merged and only the entries in its range.
pub open spec fn read_to(n: BtreeNode, new: BtreeNode) -> bool {
    let es = merged_live(n);
    &&& new.wf()
    &&& new.data@.len() == n.data@.len()
    &&& new.holds_compacted(
        if es.len() > 0 && !n.max_key.lt(n.min_key) {
            live(within(es, n.min_key, n.max_key))
        } else {
            es
        },
    )
    &&& new == (BtreeNode {
        flags: n.flags & !NODE_READ_IN_FLIGHT,
        read_in_flight: false,
        ..n.with_contents(new)
    })
}

/// Ends the read of a node: checks its sets, merges them into one and drops
/// the entries outside its range. The node does not count as being read any
/// more, whatever comes out.
pub fn bch2_btree_node_read_done(node: &mut BtreeNode) -> (r: Result<(), StorageError>)
    requires
        old(node).data@.len() <= DEFAULT_NODE_SIZE,
        old(node).data@.len() > 0 ==> old(node).node_size <= old(node).data@.len(),
    ensures
        r == checked(read_fault(*old(node))),
        r is Ok ==> read_to(*old(node), *final(node)),
        r is Err ==> *final(node) == (BtreeNode {
            flags: old(node).flags & !NODE_READ_IN_FLIGHT,
            read_in_flight: false,
            ..*old(node)
        }),
{
    let r = read_done_inner(node);
    node.clear_read_in_flight();
    r
}

fn read_done_inner(node: &mut BtreeNode) -> (r: Result<(), StorageError>)
    requires
        old(node).data@.len() <= DEFAULT_NODE_SIZE,
        old(node).data@.len() > 0 ==> old(node).node_size <= old(node).data@.len(),
    ensures
        r == checked(read_fault(*old(node))),
        r is Err ==> *final(node) == *old(node),
        r is Ok ==> ({
            let n = *old(node);
            let new = *final(node);
            let es = merged_live(n);
            &&& new.wf()
            &&& new.data@.len() == n.data@.len()
            &&& new.holds_compacted(
                if es.len() > 0 && !n.max_key.lt(n.min_key) {
                    live(within(es, n.min_key, n.max_key))
                } else {
                    es
                },
            )
            &&& new == n.with_contents(new)
        }),
{
    if node.data.len() == 0 {
        return Err(StorageError::CorruptData(Fault::EmptyBuffer));
    }
    if node.node_size == 0 {
        return Err(StorageError::CorruptData(Fault::ZeroNodeSize));
    }
    if let Err(e) = find_sets_fault(node) {
        return Err(e);
    }
    proof {
        lemma_checked_readable(*node);
    }
    if let Err(e) = bch2_read_done_sort(node) {
        return Err(e);
    }
    let _r: Result<(), StorageError> = bch2_btree_node_drop_keys_outside_node(node);
    Ok(())
}

// ── around a write ──────────────────────────────────────────────────────

/// Merges the sets of a node into one before it is written. A single set is
/// compacted only where it has tombstones or no aux array.
pub fn bch2_btree_node_sort_keys(node: &mut BtreeNode) -> (r: Result<(), StorageError>)
    requires
        old(node).wf(),
    ensures
        final(node).wf(),
        final(node).data@.len() == old(node).data@.len(),
        ({
            let n = *old(node);
            let new = *final(node);
            let es = n.all();
            if n.spec_nsets() > 1 && es.len() > 0 && total_size(es) > n.node_size {
                r == Err::<(), StorageError>(StorageError::CorruptData(Fault::SortOverflow))
                    && new == n
            } else if n.spec_nsets() > 1 && es.len() > 0 {
                r is Ok && new.holds_compacted(live(stable_sort(es, true))) && new
                    == n.with_contents(new)
            } else if n.spec_nsets() <= 1 && (n.whiteout_count > 0 || n.sets@[0].aux_offset == 0) {
                r is Ok && n.compacted_to(new)
            } else {
                r is Ok && new == n
            }
        }),
{
    let nsets: u8 = node.nsets();
    if nsets <= 1 {
        if node.whiteout_count > 0 || node.sets[0].aux_offset == 0 {
            node.compact();
        }
        return Ok(());
    }
    let ghost n0 = *node;
    let ghost es = node.all();
    proof {
        node.lemma_all();
    }
    let all: Vec<BtreeEntry> = node.all_entries();
    assert(all@.len() == views(all@).len());
    if all.len() == 0 {
        return Ok(());
    }
    if node.total_data_bytes() > node.node_size {
        return Err(StorageError::CorruptData(Fault::SortOverflow));
    }
    let sorted: Vec<BtreeEntry> = sort_entries(all, true);
    proof {
        let s = stable_sort(es, true);
        lemma_stable_sort(es, true);
        assert forall|i: int| 0 <= i < s.len() implies (#[trigger] s[i]).is_padded() && s[i].fits() by {
            assert(s.contains(s[i]));
            let j = choose|j: int| 0 <= j < es.len() && es[j] == s[i];
            assert(es[j].is_padded() && es[j].fits());
        }
    }
    refill(node, sorted);
    Ok(())
}

/// The sets with a new one set up behind those in use: empty, where free space
/// starts.
pub open spec fn sets_with_next(n: BtreeNode) -> Seq<BsetTree> {
    let s = n.sets@;
    if n.spec_nsets() == 3 {
        s
    } else {
        let top = if n.spec_nsets() == 1 {
            s[0].top()
        } else {
            max_int(s[0].top(), s[1].top())
        };
        let at = round8(top) as u32;
        s.update(
            n.spec_nsets() as int,
            BsetTree { data_offset: at, end_offset: at, aux_offset: 0, size: 0, extra: 0 },
        )
    }
}

/// Sets up the next set for new entries.
pub fn bch2_btree_init_next(node: &mut BtreeNode)
    requires
        old(node).wf(),
        old(node).data@.len() % 8 == 0,
    ensures
        final(node).wf(),
        final(node).all() == old(node).all(),
        final(node).sets@ == sets_with_next(*old(node)),
        *final(node) == (BtreeNode { sets: final(node).sets, ..*old(node) }),
{
    let ghost n0 = *node;
    let nsets: usize = node.nsets() as usize;
    if nsets >= 3 {
        return ;
    }
    proof {
        reveal(BtreeNode::wf);
        assert(set_readable(n0.data@, n0.sets@[0]));
        assert(set_readable(n0.data@, n0.sets@[1]));
        assert(set_readable(n0.data@, n0.sets@[2]));
    }
    let t0: u32 = node.set_top(0);
    let top: u32 = if nsets == 1 {
        t0
    } else {
        let t1: u32 = node.set_top(1);
        if t0 >= t1 {
            t0
        } else {
            t1
        }
    };
    let at: u32 = (top + 7) / 8 * 8;
    node.sets[nsets] = BsetTree {
        data_offset: at,
        end_offset: at,
        aux_offset: 0,
        size: 0,
        extra: 0,
    };
    proof {
        let d = n0.data@;
        assert(node.sets@ =~= sets_with_next(n0));
        assert(set_bytes(d, node.sets@[nsets as int]).len() == 0);
        assert(node.run(nsets as int) =~= Seq::<EntryView>::empty());
        assert(set_bytes(d, n0.sets@[nsets as int]).len() == 0);
        assert(n0.run(nsets as int) =~= Seq::<EntryView>::empty());
        assert forall|i: int| 0 <= i < 3 implies #[trigger] node.run(i) == n0.run(i) by {}
        assert(node.all() =~= n0.all());
        assert forall|i: int| 0 <= i < 3 implies set_readable(d, #[trigger] node.sets@[i])
            && node.sets@[i].size == node.run(i).len() by {
            assert(set_readable(d, n0.sets@[i]));
        }
    }
}

/// Whether a node is to be compacted after it was written: it has several
/// sets, tombstones, or entries without an aux array.
pub open spec fn wants_cleanup(n: BtreeNode) -> bool {
    n.spec_nsets() > 1 || n.whiteout_count > 0 || (n.sets@[0].size > 0 && n.sets@[0].aux_offset
        == 0)
}

/// Cleans up after a write: compacts the node where that is of use, and sets up
/// the next set for new entries. Returns whether places in the node changed.
pub fn bch2_btree_post_write_cleanup(node: &mut BtreeNode) -> (r: bool)
    requires
        old(node).wf(),
        old(node).data@.len() % 8 == 0,
    ensures
        final(node).wf(),
        r == wants_cleanup(*old(node)),
        exists|mid: BtreeNode| #[trigger]
            cleaned(*old(node), mid) && final(node).sets@ == sets_with_next(mid) && *final(node)
                == (BtreeNode { sets: final(node).sets, ..mid }),
        final(node).all() == (if r {
            old(node).live()
        } else {
            old(node).all()
        }),
{
    let ghost n0 = *node;
    if node.is_just_written() {
        node.clear_just_written();
    }
    proof {
        let f = n0.flags;
        assert(f & 0x10u8 == 0 ==> f & !0x10u8 == f) by (bit_vector);
        lemma_wf_same(n0, *node);
        assert(node.flags == n0.flags & !NODE_JUST_WRITTEN);
    }
    let wanted: bool = node.nsets() > 1 || node.whiteout_count > 0 || (node.sets[0].size > 0
        && node.sets[0].aux_offset == 0);
    if wanted {
        node.compact();
    }
    assert(cleaned(n0, *node));
    bch2_btree_init_next(node);
    wanted
}

/// Whether `new` is the node `n` compacted where that is of use, and not just
/// written any more.
pub open spec fn cleaned(n: BtreeNode, new: BtreeNode) -> bool {
    let m = BtreeNode { flags: n.flags & !NODE_JUST_WRITTEN, ..n };
    if wants_cleanup(n) {
        m.compacted_to(new)
    } else {
        new == m
    }
}

/// Ends a write.
pub fn bch2_btree_node_io_unlock(node: &mut BtreeNode)
    ensures
        old(node).with_flags(*final(node), old(node).flags & !NODE_WRITE_IN_FLIGHT),
{
    node.clear_write_in_flight();
}

/// Where a node is to be written that the journal wants written.
pub fn flush_block_addr(node: &BtreeNode) -> (r: Result<u64, StorageError>)
    ensures
        r == (if node.block_addr == 0 {
            Err::<u64, StorageError>(StorageError::InvalidArgument(Fault::NoBlockAddr))
        } else {
            Ok::<u64, StorageError>(node.block_addr)
        }),
{
    if node.block_addr == 0 {
        return Err(StorageError::InvalidArgument(Fault::NoBlockAddr));
    }
    Ok(node.block_addr)
}

/// After a node was written: lets go of the journal entry that it holds back,
/// if that is the one that changed it last. Returns that entry.
pub fn release_pin(node: &mut BtreeNode) -> (r: Option<u64>)
    ensures
        r == (if old(node).journal_pin == Some(old(node).journal_seq) {
            Some(old(node).journal_seq)
        } else {
            None
        }),
        *final(node) == (BtreeNode {
            journal_pin: if r is Some {
                None
            } else {
                old(node).journal_pin
            },
            ..*old(node)
        }),
        final(node).wf() == old(node).wf(),
        final(node).all() == old(node).all(),
{
    let pinned: bool = match node.journal_pin {
        Some(seq) => seq == node.journal_seq,
        None => false,
    };
    if !pinned {
        return None;
    }
    node.journal_pin = None;
    proof {
        lemma_wf_same(*old(node), *node);
    }
    Some(node.journal_seq)
}

/// All reads are done by the time they return.
pub fn bch2_btree_flush_all_reads() -> (r: bool)
    ensures
        r,
{
    true
}

/// All writes are done by the time they return.
pub fn bch2_btree_flush_all_writes() -> (r: bool)
    ensures
        r,
{
    true
}

/// All writes are done by the time they return: there is none to cancel.
pub fn bch2_btree_cancel_all_writes() {
}

/// How the keys of a node are packed.
#[derive(Clone, Copy, Debug, PartialEq, Eq, Structural)]
pub struct BkeyFormat {
    /// The size of a packed key in words.
    pub key_u64s: u8,
    pub nr_fields: u8,
}

/// No format needs a conversion.
pub fn compat_bformat(
    _level: u8,
    _btree_id: u32,
    _version: u32,
    _big_endian: u32,
    _write: bool,
    format: &mut BkeyFormat,
)
    ensures
        *final(format) == *old(format),
{
}

/// No position needs a conversion.
pub fn compat_bpos(
    _level: u8,
    _btree_id: u32,
    _version: u32,
    _big_endian: u32,
    _write: bool,
    pos: &mut Bpos,
)
    ensures
        *final(pos) == *old(pos),
{
}

// ── text ────────────────────────────────────────────────────────────────

/// A position as text: inode, offset and snapshot.
pub open spec fn bpos_text(p: Bpos) -> Seq<char> {
    dec(p.inode as nat) + ":"@ + dec(p.offset as nat) + ":"@ + dec(p.snapshot as nat)
}

/// Adds a position as text.
pub fn push_bpos(s: &mut String, p: &Bpos)
    ensures
        final(s)@ == old(s)@ + bpos_text(*p),
{
    let ghost s0 = s@;
    push_dec(s, p.inode);
    push_text(s, ":");
    push_dec(s, p.offset);
    push_text(s, ":");
    push_dec(s, p.snapshot as u64);
    assert(s@ =~= s0 + bpos_text(*p));
}

/// What matters about a node, as text.
pub open spec fn header_text(n: BtreeNode) -> Seq<char> {
    "BtreeNode(level="@ + dec(n.level as nat) + ", key_count="@ + dec(n.key_count as nat)
        + ", whiteout="@ + dec(n.whiteout_count as nat) + ", nsets="@ + dec(n.spec_nsets() as nat)
        + ", min_key="@ + bpos_text(n.min_key) + ", max_key="@ + bpos_text(n.max_key)
        + ", journal_seq="@ + dec(n.journal_seq as nat) + ", node_size="@ + dec(n.node_size as nat)
        + ", data_len="@ + dec(n.data@.len()) + ")"@
}

/// What matters about a node, as text.
pub fn bch2_btree_node_header_to_text(node: &BtreeNode) -> (r: String)
    ensures
        r@ == header_text(*node),
{
    let mut s = String::new();
    push_text(&mut s, "BtreeNode(level=");
    push_dec(&mut s, node.level as u64);
    push_text(&mut s, ", key_count=");
    push_dec(&mut s, node.key_count as u64);
    push_text(&mut s, ", whiteout=");
    push_dec(&mut s, node.whiteout_count as u64);
    push_text(&mut s, ", nsets=");
    push_dec(&mut s, node.nsets() as u64);
    push_text(&mut s, ", min_key=");
    push_bpos(&mut s, &node.min_key);
    push_text(&mut s, ", max_key=");
    push_bpos(&mut s, &node.max_key);
    push_text(&mut s, ", journal_seq=");
    push_dec(&mut s, node.journal_seq);
    push_text(&mut s, ", node_size=");
    push_dec(&mut s, node.node_size as u64);
    push_text(&mut s, ", data_len=");
    push_dec(&mut s, node.data.len() as u64);
    push_text(&mut s, ")");
    assert(s@ =~= header_text(*node));
    s
}

} // verus!
