//! What a write leaves to be written out: every node that it changed.

use crate::btree::Btree;
use crate::cache::NodeCache;
use crate::key::{BchVal, Bpos, BtreeKey, EntryView};
use crate::node::BtreeNode;
use crate::run::{lemma_live, lemma_live_idempotent};
use crate::tree_insert::{split_halves, split_key};
use crate::tree_write::LeafStep;
use vstd::prelude::*;

verus! {

/// Whether every node that is another one in `new` than in `t` counts as changed
/// there, the one at `but` aside, and nothing that counted as changed ceased to.
pub open spec fn noted_but(t: Btree, new: Btree, but: u64) -> bool {
    &&& forall|a: u64| #[trigger]
        new.nodes().contains_key(a) && a != but && !(t.nodes().contains_key(a) && t.nodes()[a]
            == new.nodes()[a]) ==> new.cache.dirty@.contains(a)
    &&& forall|a: u64| #[trigger]
        t.cache.dirty@.contains(a) ==> new.cache.dirty@.contains(a)
    &&& new.root.node != t.root.node ==> new.root_modified
    &&& t.root_modified ==> new.root_modified
}

/// `noted_but`, with no node aside, for a tree whose root still lies where it lay.
pub open spec fn noted(t: Btree, new: Btree) -> bool {
    &&& new.root.ptr == t.root.ptr
    &&& forall|a: u64| #[trigger]
        new.nodes().contains_key(a) && !(t.nodes().contains_key(a) && t.nodes()[a]
            == new.nodes()[a]) ==> new.cache.dirty@.contains(a)
    &&& forall|a: u64| #[trigger]
        t.cache.dirty@.contains(a) ==> new.cache.dirty@.contains(a)
    &&& new.root.node != t.root.node ==> new.root_modified
    &&& t.root_modified ==> new.root_modified
}

proof fn lemma_marked_in(dirty: Seq<u64>, a: u64, x: u64)
    ensures
        NodeCache::marked(dirty, a).contains(x) <==> dirty.contains(x) || x == a,
{
    crate::laws_gc::lemma_in_push(dirty, a, x);
}

proof fn lemma_noted_both(a: Btree, b: Btree, c: Btree)
    requires
        noted(a, b),
        noted(b, c),
    ensures
        noted(a, c),
{
    assert forall|x: u64| #[trigger]
        c.nodes().contains_key(x) && !(a.nodes().contains_key(x) && a.nodes()[x]
            == c.nodes()[x]) implies c.cache.dirty@.contains(x) by {
        if b.nodes().contains_key(x) && b.nodes()[x] == c.nodes()[x] {
            assert(b.cache.dirty@.contains(x));
        }
    }
    assert forall|x: u64| #[trigger]
        a.cache.dirty@.contains(x) implies c.cache.dirty@.contains(x) by {
        assert(b.cache.dirty@.contains(x));
    }
}

proof fn lemma_replaced_noted(t: Btree, new: Btree, a: u64, n: BtreeNode)
    requires
        t.node_replaced(new, a, n, true),
    ensures
        noted(t, new),
        new.cache.dirty@.contains(a),
{
    assert forall|x: u64| new.cache.dirty@.contains(x) <==> t.cache.dirty@.contains(x) || x == a by {
        lemma_marked_in(t.cache.dirty@, a, x);
    }
}

proof fn lemma_split_noted(t: Btree, new: Btree, a: u64, left: BtreeNode, right: BtreeNode)
    requires
        t.node_split(new, a, left, right),
    ensures
        noted(t, new),
        new.cache.dirty@.contains(a),
        new.cache.dirty@.contains(t.cache.next_addr),
{
    let ra = t.cache.next_addr;
    assert forall|x: u64|
        new.cache.dirty@.contains(x) <==> t.cache.dirty@.contains(x) || x == a || x == ra by {
        lemma_marked_in(NodeCache::marked(t.cache.dirty@, ra), a, x);
        lemma_marked_in(t.cache.dirty@, ra, x);
    }
}

proof fn lemma_root_split_noted(
    t: Btree,
    new: Btree,
    e: Option<(BtreeKey, BchVal)>,
    seq: u64,
    left: BtreeNode,
    right: BtreeNode,
)
    requires
        t.root_split(new, e, seq, left, right),
    ensures
        noted(t, new),
{
    let la = t.cache.next_addr;
    let ra = (la + 1) as u64;
    assert forall|x: u64|
        new.cache.dirty@.contains(x) <==> t.cache.dirty@.contains(x) || x == la || x == ra by {
        lemma_marked_in(NodeCache::marked(t.cache.dirty@, la), ra, x);
        lemma_marked_in(t.cache.dirty@, la, x);
    }
}

/// Adding a routing entry, whatever nodes it splits, notes every node that it
/// changed.
#[verifier::rlimit(80)]
pub proof fn lemma_routed_noted(
    t: Btree,
    new: Btree,
    k: BtreeKey,
    child: u64,
    path: Seq<u64>,
    pos: int,
    seq: u64,
)
    requires
        t.routed(new, k, child, path, pos, seq, true),
    ensures
        noted(t, new),
    decreases
            if 0 <= pos < path.len() {
                pos + 1
            } else {
                0
            },
{
    reveal_with_fuel(Btree::routed, 2);
    let e = crate::tree_insert::routing(k, child);
    let root = t.root.node;
    if pos < 0 || pos >= path.len() {
        if root.grown(new.root.node, e, false) && t.root_replaced(new) {
        } else {
            let (mid, left, right) = choose|mid: Btree, left: BtreeNode, right: BtreeNode|
                root.full_stripped(mid.root.node, 32) && mid == (Btree {
                    root: crate::iter::BtreeRoot { node: mid.root.node, ..t.root },
                    ..t
                }) && #[trigger] mid.root_split(
                    new,
                    Some((k, BchVal::spec_new(child, 0))),
                    seq,
                    left,
                    right,
                );
            lemma_root_split_noted(
                mid,
                new,
                Some((k, BchVal::spec_new(child, 0))),
                seq,
                left,
                right,
            );
        }
    } else {
        let a = path[pos];
        let parent = t.nodes()[a];
        if exists|n: BtreeNode|
            parent.grown(n, e, true) && #[trigger] t.node_replaced(new, a, n, true) {
            let n = choose|n: BtreeNode|
                parent.grown(n, e, true) && #[trigger] t.node_replaced(new, a, n, true);
            lemma_replaced_noted(t, new, a, n);
        } else {
            let (mid, n, left, right) = choose|
                mid: Btree,
                n: BtreeNode,
                left: BtreeNode,
                right: BtreeNode,
            |
                parent.full(n, 32, true) && split_halves(
                    n,
                    left,
                    right,
                    Some((k, BchVal::spec_new(child, 0))),
                    None,
                ) && #[trigger] t.node_split_via(mid, a, n, left, right) && mid.routed(
                    new,
                    split_key(n),
                    t.cache.next_addr,
                    path,
                    Btree::parent_place(path, pos),
                    seq,
                    true,
                );
            lemma_split_noted(t, mid, a, left, right);
            lemma_routed_noted(
                mid,
                new,
                split_key(n),
                t.cache.next_addr,
                path,
                Btree::parent_place(path, pos),
                seq,
            );
            lemma_noted_both(t, mid, new);
        }
    }
}

/// An insert notes every node that it changed, so that the next flush writes it:
/// the leaf or the halves of a leaf that was split, and the nodes above them that
/// route to new ones. A root that is a leaf and has a place on disk is cached there
/// as it stands, and counts as changed as the root.
#[verifier::rlimit(80)]
pub proof fn lemma_insert_noted(t: Btree, new: Btree, k: BtreeKey, v: BchVal, seq: u64)
    requires
        t.was_inserted(new, k, v, seq, true),
    ensures
        noted_but(t, new, t.root.ptr.block_addr),
        t.root.depth == 0 ==> new.root_modified,
{
    let e = EntryView::extent(k, v);
    let done = choose|done: Btree| #[trigger]
        t.tree_inserted(done, k, v, seq, true, true) && done.rounded_off(
            new,
            Bpos::spec_from_key(k),
        );
    assert(t.tree_inserted(done, k, v, seq, true, true) && done.rounded_off(
        new,
        Bpos::spec_from_key(k),
    ));
    assert(noted(t, done) && (t.root.depth == 0 ==> done.root_modified)) by {
        if t.root.depth == 0 {
            if exists|n: BtreeNode| #[trigger] t.root_took(done, n, e, seq, true) {
            } else {
                let mid = choose|mid: Btree| #[trigger]
                    t.root_full(mid, true) && mid.root_split_counted(
                        done,
                        Some((k, v)),
                        seq,
                        true,
                    );
                let (left, right) = choose|left: BtreeNode, right: BtreeNode| #[trigger]
                    mid.root_split(
                        Btree { total_key_count: mid.total_key_count, ..done },
                        Some((k, v)),
                        seq,
                        left,
                        right,
                    );
                lemma_root_split_noted(
                    mid,
                    Btree { total_key_count: mid.total_key_count, ..done },
                    Some((k, v)),
                    seq,
                    left,
                    right,
                );
            }
        } else {
            lemma_multi_noted(t, done, k, v, seq);
        }
    }
}

#[verifier::rlimit(80)]
proof fn lemma_multi_noted(t: Btree, new: Btree, k: BtreeKey, v: BchVal, seq: u64)
    requires
        t.root.depth > 0,
        t.inserted_multi(new, k, v, seq, true),
    ensures
        noted(t, new),
{
    let a = t.leaf_addr(k);
    let e = EntryView::extent(k, v);
    if t.leaf_step(new, a, e, seq, LeafStep::Done) {
        let leaf = t.nodes()[a];
        let n = choose|n: BtreeNode|
            leaf.grown(n, e, true) && #[trigger] t.node_replaced(
                Btree { total_key_count: t.total_key_count, ..new },
                a,
                BtreeNode { journal_seq: seq, ..n },
                true,
            );
        lemma_replaced_noted(
            t,
            Btree { total_key_count: t.total_key_count, ..new },
            a,
            BtreeNode { journal_seq: seq, ..n },
        );
    } else {
        let path = t.spec_path(k);
        let mid = choose|mid: Btree| #[trigger]
            t.leaf_step(mid, a, e, seq, LeafStep::NeedsSplit) && mid.leaf_was_split(
                new,
                a,
                (k, v),
                path,
                seq,
                true,
            );
        assert(t.leaf_step(mid, a, e, seq, LeafStep::NeedsSplit));
        let n = choose|n: BtreeNode| #[trigger] t.node_replaced(mid, a, n, false);
        let (halves, done, left, right) = choose|
            halves: Btree,
            done: Btree,
            left: BtreeNode,
            right: BtreeNode,
        | #[trigger]
            mid.split_routed(new, halves, done, left, right, a, (k, v), path, seq, true);
        let held = Btree { write_blocked: true, commit_lock: true, ..mid };
        let counted = Btree { total_key_count: mid.one_more_key(), ..halves };
        lemma_split_noted(held, halves, a, left, right);
        lemma_routed_noted(
            counted,
            done,
            split_key(mid.nodes()[a]),
            mid.cache.next_addr,
            path,
            Btree::last_place(path),
            seq,
        );
        assert(noted(held, counted));
        lemma_noted_both(held, counted, done);
        assert(counted.cache.dirty@.contains(a));
        assert(done.cache.dirty@.contains(a));
        assert(noted(held, new));
        assert forall|x: u64| #[trigger]
            new.nodes().contains_key(x) && !(t.nodes().contains_key(x) && t.nodes()[x]
                == new.nodes()[x]) implies new.cache.dirty@.contains(x) by {
            if x != a {
                assert(held.nodes().contains_key(x) == t.nodes().contains_key(x));
            }
        }
        assert forall|x: u64| #[trigger]
            t.cache.dirty@.contains(x) implies new.cache.dirty@.contains(x) by {
            assert(held.cache.dirty@.contains(x));
        }
    }
}

/// The node that took a key is under the journal entry of the insert: the root
/// where it is a leaf, both halves and the new root where that was split, and the
/// leaf for the key in a deeper tree where nothing was split.
#[verifier::rlimit(80)]
pub proof fn lemma_insert_journalled(t: Btree, new: Btree, k: BtreeKey, v: BchVal, seq: u64)
    requires
        t.was_inserted(new, k, v, seq, true),
    ensures
        t.root.depth == 0 ==> new.root.node.journal_seq == seq,
        t.root.depth == 0 && new.root.depth > 0 && t.cache.next_addr < u64::MAX ==> ({
            let l = t.cache.next_addr;
            let r = (l + 1) as u64;
            new.nodes().contains_key(l) && new.nodes()[l].journal_seq == seq
                && new.nodes().contains_key(r) && new.nodes()[r].journal_seq == seq
        }),
        t.root.depth > 0 && t.leaf_step(
            Btree { cache: new.cache, total_key_count: new.total_key_count, ..t },
            t.leaf_addr(k),
            EntryView::extent(k, v),
            seq,
            LeafStep::Done,
        ) ==> new.nodes()[t.leaf_addr(k)].journal_seq == seq,
{
    let e = EntryView::extent(k, v);
    let done = choose|done: Btree| #[trigger]
        t.tree_inserted(done, k, v, seq, true, true) && done.rounded_off(
            new,
            Bpos::spec_from_key(k),
        );
    assert(t.tree_inserted(done, k, v, seq, true, true) && done.rounded_off(
        new,
        Bpos::spec_from_key(k),
    ));
    if t.root.depth == 0 {
        if exists|n: BtreeNode| #[trigger] t.root_took(done, n, e, seq, true) {
        } else {
            let mid = choose|mid: Btree| #[trigger]
                t.root_full(mid, true) && mid.root_split_counted(done, Some((k, v)), seq, true);
            let (left, right) = choose|left: BtreeNode, right: BtreeNode| #[trigger]
                mid.root_split(
                    Btree { total_key_count: mid.total_key_count, ..done },
                    Some((k, v)),
                    seq,
                    left,
                    right,
                );
            assert(left.journal_seq == seq && right.journal_seq == seq);
        }
    } else {
        let a = t.leaf_addr(k);
        let x = Btree { cache: new.cache, total_key_count: new.total_key_count, ..t };
        if t.leaf_step(x, a, e, seq, LeafStep::Done) {
            let leaf = t.nodes()[a];
            let n = choose|n: BtreeNode|
                leaf.grown(n, e, true) && #[trigger] t.node_replaced(
                    Btree { total_key_count: t.total_key_count, ..x },
                    a,
                    BtreeNode { journal_seq: seq, ..n },
                    true,
                );
            assert(x.nodes()[a].journal_seq == seq);
        }
    }
}

// ── deletes ─────────────────────────────────────────────────────────────

/// Whether every node that shows an entry in `new` that it did not show in `old`
/// counts as changed there, and nothing that counted as changed ceased to.
pub open spec fn gains_noted(old: NodeCache, new: NodeCache) -> bool {
    &&& forall|a: u64, e: EntryView|
        new.nodes@.contains_key(a) && #[trigger] new.nodes@[a].live().contains(e) && !(
        old.nodes@.contains_key(a) && old.nodes@[a].live().contains(e)) ==> new.dirty@.contains(a)
    &&& forall|a: u64| #[trigger] old.dirty@.contains(a) ==> new.dirty@.contains(a)
}

proof fn lemma_gains_both(a: NodeCache, b: NodeCache, c: NodeCache)
    requires
        gains_noted(a, b),
        gains_noted(b, c),
    ensures
        gains_noted(a, c),
{
    assert forall|x: u64, e: EntryView|
        c.nodes@.contains_key(x) && #[trigger] c.nodes@[x].live().contains(e) && !(
        a.nodes@.contains_key(x) && a.nodes@[x].live().contains(e)) implies c.dirty@.contains(x) by {
        if b.nodes@.contains_key(x) && b.nodes@[x].live().contains(e) {
            assert(b.dirty@.contains(x));
        }
    }
    assert forall|x: u64| #[trigger] a.dirty@.contains(x) implies c.dirty@.contains(x) by {
        assert(b.dirty@.contains(x));
    }
}

proof fn lemma_noted_gains(t: Btree, new: Btree)
    requires
        noted(t, new),
    ensures
        gains_noted(t.cache, new.cache),
{
    assert forall|a: u64, e: EntryView|
        new.cache.nodes@.contains_key(a) && #[trigger] new.cache.nodes@[a].live().contains(e) && !(
        t.cache.nodes@.contains_key(a) && t.cache.nodes@[a].live().contains(
            e,
        )) implies new.cache.dirty@.contains(a) by {
        assert(new.nodes().contains_key(a));
    }
}

/// A compaction shows what was shown.
proof fn lemma_compacted_live(n: BtreeNode, c: BtreeNode)
    requires
        n.compacted_to(c),
    ensures
        c.live() == n.live(),
{
    lemma_live(n.all());
    lemma_live_idempotent(n.live());
}

proof fn lemma_new_live(n: BtreeNode)
    requires
        n.is_new(0),
    ensures
        n.live().len() == 0,
{
    assert forall|i: int| 0 <= i < 3 implies #[trigger] n.sets@[i]
        == crate::node::BsetTree::spec_empty() by {}
    n.lemma_empty_wf();
    lemma_live(n.all());
}

proof fn lemma_routing_noted(
    t: Btree,
    new: Btree,
    ancestors: Seq<u64>,
    survivor: u64,
    gone: u64,
    r: bool,
)
    requires
        t.routing_merged(new, ancestors, survivor, gone, r),
    ensures
        gains_noted(t.cache, new.cache),
{
    if ancestors.len() > 0 && t.nodes().contains_key(ancestors.last()) {
        let a = ancestors.last();
        let (n, p) = choose|n: BtreeNode, p: Seq<BtreeNode>|
            t.nodes()[a].rerouted_after_merge(n, p, survivor, gone, r) && #[trigger] t.replaced_via(
                new,
                a,
                n,
                p,
            );
        lemma_replaced_noted(t, new, a, n);
    }
}

proof fn lemma_3to2_noted(
    t: Btree,
    new: Btree,
    ancestors: Seq<u64>,
    first: u64,
    middle: u64,
    last: u64,
    median: BtreeKey,
)
    requires
        t.routing_3to2(new, ancestors, first, middle, last, median),
    ensures
        gains_noted(t.cache, new.cache),
{
    if ancestors.len() > 0 && t.nodes().contains_key(ancestors.last()) {
        let a = ancestors.last();
        let (n, p) = choose|n: BtreeNode, p: Seq<BtreeNode>|
            t.nodes()[a].rerouted_3to2(n, p, first, middle, last, median)
                && #[trigger] t.replaced_via(new, a, n, p);
        lemma_replaced_noted(t, new, a, n);
    }
}

/// Sharing three nodes out, seen from a tree that has nodes which show the same at
/// their addresses.
#[verifier::rlimit(80)]
proof fn lemma_shared_noted(
    t: Btree,
    mid: Btree,
    new: Btree,
    ancestors: Seq<u64>,
    a: (u64, u64, u64),
    n: (BtreeNode, BtreeNode, BtreeNode),
    r: bool,
)
    requires
        mid.shared_out(new, ancestors, a, n, r),
        gains_noted(t.cache, mid.cache),
        t.nodes().contains_key(a.0) && t.nodes()[a.0].live() == n.0.live(),
        t.nodes().contains_key(a.1) && t.nodes()[a.1].live() == n.1.live(),
        t.nodes().contains_key(a.2) && t.nodes()[a.2].live() == n.2.live(),
    ensures
        gains_noted(t.cache, new.cache),
{
    let p = crate::merge::pooled(n.0, n.1, n.2);
    let m = crate::merge::share_left(p.len() as int);
    if crate::tree_merge::can_share(n) {
        let (put, x) = choose|put: Btree, x: (BtreeNode, BtreeNode, BtreeNode)|
            #![trigger mid.shares_put(put, a, x)]
            x.1.is_new(0) && mid.shares_put(put, a, x) && put.routing_3to2(
                new,
                ancestors,
                a.0,
                a.1,
                a.2,
                p[m].key(),
            );
        lemma_new_live(x.1);
        assert forall|y: u64|
            put.cache.dirty@.contains(y) <==> mid.cache.dirty@.contains(y) || y == a.0 || y == a.2 by {
            lemma_marked_in(NodeCache::marked(mid.cache.dirty@, a.0), a.2, y);
            lemma_marked_in(mid.cache.dirty@, a.0, y);
        }
        assert(gains_noted(t.cache, put.cache)) by {
            assert forall|y: u64, e: EntryView|
                put.nodes().contains_key(y) && #[trigger] put.nodes()[y].live().contains(e) && !(
                t.nodes().contains_key(y) && t.nodes()[y].live().contains(
                    e,
                )) implies put.cache.dirty@.contains(y) by {
                if y != a.0 && y != a.2 && y != a.1 {
                    assert(mid.nodes()[y].live().contains(e));
                }
            }
        }
        lemma_3to2_noted(put, new, ancestors, a.0, a.1, a.2, p[m].key());
        lemma_gains_both(t.cache, put.cache, new.cache);
    } else {
        assert forall|y: u64, e: EntryView|
            new.nodes().contains_key(y) && #[trigger] new.nodes()[y].live().contains(e) && !(
            t.nodes().contains_key(y) && t.nodes()[y].live().contains(
                e,
            )) implies new.cache.dirty@.contains(y) by {
            if y != a.0 && y != a.2 && y != a.1 {
                assert(mid.nodes()[y].live().contains(e));
            }
        }
    }
}

#[verifier::rlimit(80)]
proof fn lemma_absorbed_noted(
    t: Btree,
    mid: Btree,
    new: Btree,
    ancestors: Seq<u64>,
    survivor: u64,
    into: BtreeNode,
    gone: u64,
    from: BtreeNode,
    r: bool,
)
    requires
        mid.absorbed_and_routed(new, ancestors, survivor, into, gone, from, r),
        gains_noted(t.cache, mid.cache),
    ensures
        gains_noted(t.cache, new.cache),
{
    reveal(Btree::absorbed_and_routed);
    let (put, x) = choose|put: Btree, x: BtreeNode| #[trigger]
        mid.absorbed_put(put, survivor, into, from, x) && put.routing_merged(
            new,
            ancestors,
            survivor,
            gone,
            r,
        );
    assert forall|y: u64|
        put.cache.dirty@.contains(y) <==> mid.cache.dirty@.contains(y) || y == survivor by {
        lemma_marked_in(mid.cache.dirty@, survivor, y);
    }
    assert(gains_noted(t.cache, put.cache)) by {
        assert forall|y: u64, e: EntryView|
            put.nodes().contains_key(y) && #[trigger] put.nodes()[y].live().contains(e) && !(
            t.nodes().contains_key(y) && t.nodes()[y].live().contains(
                e,
            )) implies put.cache.dirty@.contains(y) by {
            if y != survivor {
                assert(mid.nodes()[y].live().contains(e));
            }
        }
    }
    lemma_routing_noted(put, new, ancestors, survivor, gone, r);
    lemma_gains_both(t.cache, put.cache, new.cache);
}

/// A cache with nodes taken out shows nothing new.
proof fn lemma_fewer(old: NodeCache, new: NodeCache)
    requires
        new.dirty@ == old.dirty@,
        new.nodes@.submap_of(old.nodes@),
    ensures
        gains_noted(old, new),
{
}

/// Sharing three nodes out, two of which were taken out of `t` before.
#[verifier::rlimit(80)]
proof fn lemma_three_noted(
    t: Btree,
    mid: Btree,
    new: Btree,
    ancestors: Seq<u64>,
    a: u64,
    n: BtreeNode,
    s: u64,
    right: bool,
    r: bool,
)
    requires
        t.nodes().contains_key(a),
        t.nodes().contains_key(s),
        t.nodes()[a].live() == n.live(),
        t.pair_taken(mid, a, n, s),
        mid.three_merged(new, ancestors, a, n, s, t.nodes()[s], right, r),
    ensures
        gains_noted(t.cache, new.cache),
{
    reveal(Btree::three_merged);
    let sib = t.nodes()[s];
    let third = mid.third_addr(ancestors, s, right);
    if third is Some && mid.nodes().contains_key(third->0) {
        let w = third->0;
        let (out, tc, sc) = choose|out: Btree, tc: BtreeNode, sc: BtreeNode| #[trigger]
            mid.third_taken(out, w, tc, sib, sc) && (if right {
                out.shared_out(new, ancestors, (w, a, s), (tc, n, sc), r)
            } else {
                out.shared_out(new, ancestors, (a, s, w), (n, sc, tc), r)
            });
        lemma_compacted_live(mid.nodes()[w], tc);
        lemma_compacted_live(sib, sc);
        assert(t.nodes()[w] == mid.nodes()[w]);
        lemma_fewer(t.cache, out.cache);
        if right {
            lemma_shared_noted(t, out, new, ancestors, (w, a, s), (tc, n, sc), r);
        } else {
            lemma_shared_noted(t, out, new, ancestors, (a, s, w), (n, sc, tc), r);
        }
    } else {
        assert(mid.pair_put_back(new, a, n, s, sib));
        assert forall|y: u64, e: EntryView|
            new.cache.nodes@.contains_key(y) && #[trigger] new.cache.nodes@[y].live().contains(e)
                && !(t.cache.nodes@.contains_key(y) && t.cache.nodes@[y].live().contains(
                e,
            )) implies new.cache.dirty@.contains(y) by {}
    }
}

/// A merge notes every node that shows more than before.
#[verifier::rlimit(60)]
pub proof fn lemma_merge_noted(t: Btree, new: Btree, a: u64, ancestors: Seq<u64>, r: bool)
    requires
        t.merge_tried(new, a, ancestors, r),
    ensures
        gains_noted(t.cache, new.cache),
{
    if t.nodes().contains_key(a) && crate::merge::spec_underfull(t.nodes()[a]) {
        if t.only_compacted(new, a) {
            let n = choose|n: BtreeNode|
                t.nodes()[a].compacted_to(n) && #[trigger] t.node_replaced(new, a, n, false);
            lemma_compacted_live(t.nodes()[a], n);
        } else {
            let (s, right) = t.merge_partner(a, ancestors)->0;
            let (mid, n) = choose|mid: Btree, n: BtreeNode| #[trigger]
                t.pair_taken(mid, a, n, s) && mid.merged_with(
                    new,
                    ancestors,
                    a,
                    n,
                    s,
                    t.nodes()[s],
                    right,
                    r,
                );
            let sib = t.nodes()[s];
            lemma_compacted_live(t.nodes()[a], n);
            assert(gains_noted(t.cache, mid.cache));
            if right && sib.spec_can_absorb(n) {
                lemma_absorbed_noted(t, mid, new, ancestors, s, sib, a, n, r);
            } else if !right && n.spec_can_absorb(sib) {
                lemma_absorbed_noted(t, mid, new, ancestors, a, n, s, sib, r);
            } else if !crate::tree_merge::backs_off(n, sib, right) {
                lemma_three_noted(t, mid, new, ancestors, a, n, s, right, r);
            }
        }
    }
}

proof fn lemma_cascade_noted(t: Btree, new: Btree, path: Seq<u64>, level: int)
    requires
        t.cascaded(new, path, level),
    ensures
        gains_noted(t.cache, new.cache),
    decreases path.len() + 1 - level,
{
    if 1 <= level <= path.len() {
        let i = path.len() - level;
        let (mid, r) = choose|mid: Btree, r: bool| #[trigger]
            t.merge_tried(mid, path[i], path.take(i), r) && (if r {
                mid.cascaded(new, path, level + 1)
            } else {
                new == mid
            });
        lemma_merge_noted(t, mid, path[i], path.take(i), r);
        if r {
            lemma_cascade_noted(mid, new, path, level + 1);
            lemma_gains_both(t.cache, mid.cache, new.cache);
        }
    }
}

proof fn lemma_collapse_noted(t: Btree, new: Btree)
    requires
        t.fully_collapsed(new),
    ensures
        gains_noted(t.cache, new.cache),
    decreases t.root.depth,
{
    let (mid, r) = choose|mid: Btree, r: bool| #[trigger]
        t.collapsed(mid, r) && (if r && mid.root.depth < t.root.depth {
            mid.fully_collapsed(new)
        } else {
            new == mid
        });
    assert(gains_noted(t.cache, mid.cache));
    if r && mid.root.depth < t.root.depth {
        lemma_collapse_noted(mid, new);
        lemma_gains_both(t.cache, mid.cache, new.cache);
    }
}

proof fn lemma_merged_up_noted(t: Btree, new: Btree, a: u64, path: Seq<u64>)
    requires
        t.merged_up(new, a, path),
    ensures
        gains_noted(t.cache, new.cache),
{
    let (one, r) = choose|one: Btree, r: bool| #[trigger]
        t.merge_tried(one, a, path, r) && (if r {
            exists|x: Btree| #[trigger] one.cascaded(x, path, 1) && x.fully_collapsed(new)
        } else {
            new == one
        });
    lemma_merge_noted(t, one, a, path, r);
    if r {
        let x = choose|x: Btree| #[trigger] one.cascaded(x, path, 1) && x.fully_collapsed(new);
        lemma_cascade_noted(one, x, path, 1);
        lemma_collapse_noted(x, new);
        lemma_gains_both(one.cache, x.cache, new.cache);
        lemma_gains_both(t.cache, one.cache, new.cache);
    }
}

#[verifier::rlimit(80)]
proof fn lemma_deleted_noted(t: Btree, new: Btree, k: BtreeKey, seq: u64)
    requires
        t.root.depth > 0,
        t.deleted_multi(new, k, seq, true),
    ensures
        gains_noted(t.cache, new.cache),
        new.cache.dirty@.contains(t.leaf_addr(k)),
{
    let a = t.leaf_addr(k);
    let path = t.spec_path(k);
    let (mid, n) = choose|mid: Btree, n: BtreeNode| #[trigger]
        t.leaf_deleted(mid, a, n, k, seq) && (if t.commit_lock {
            new == mid
        } else {
            exists|done: Btree| #[trigger]
                (Btree { write_blocked: true, commit_lock: true, ..mid }).merged_up(done, a, path)
                    && new == (Btree { write_blocked: false, commit_lock: false, ..done })
        });
    lemma_replaced_noted(t, mid, a, n);
    lemma_noted_gains(t, mid);
    if !t.commit_lock {
        let held = Btree { write_blocked: true, commit_lock: true, ..mid };
        let done = choose|done: Btree| #[trigger]
            held.merged_up(done, a, path) && new == (Btree {
                write_blocked: false,
                commit_lock: false,
                ..done
            });
        lemma_merged_up_noted(held, done, a, path);
        assert(gains_noted(mid.cache, new.cache));
        lemma_gains_both(t.cache, mid.cache, new.cache);
    }
}

/// A delete notes the leaf that it deleted from, or the root where that is a leaf,
/// and every node that shows more than before because it took in others: the next
/// flush writes them.
pub proof fn lemma_delete_noted(t: Btree, new: Btree, k: BtreeKey, seq: u64)
    requires
        t.was_deleted(new, k, seq, true),
    ensures
        gains_noted(t.cache, new.cache),
        t.root.depth == 0 ==> new.root_modified,
        t.root.depth > 0 ==> new.cache.dirty@.contains(t.leaf_addr(k)),
{
    let done = choose|done: Btree| #[trigger]
        t.tree_deleted(done, k, seq, true) && new == (Btree {
            total_key_count: done.one_key_less(),
            key_cache: new.key_cache,
            ..done
        }) && done.key_cache.invalidated(new.key_cache, Bpos::spec_from_key(k));
    assert(t.tree_deleted(done, k, seq, true));
    if t.root.depth > 0 {
        lemma_deleted_noted(t, done, k, seq);
    }
}

} // verus!
