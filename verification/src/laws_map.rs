//! A tree that grew by inserts of new keys is a map.

use crate::btree::Btree;
use crate::key::{ADDR48_LIMIT, BchVal, Bpos, BtreeKey, EntryView, KeyType};
use crate::laws::{leaf_find, lemma_extent_reads, lemma_find_live};
use crate::laws_split::lemma_settled_live;
use crate::layout::{
    all_roomy, at, back, cached_at, good_at, kept_at, laid, lemma_close, lemma_descent,
    lemma_halves_route, lemma_leaf_layout, lemma_put_halves, lemma_root_halves_route,
    lemma_root_layout, lemma_split_layout, linked_at, moved, nested_at, no_gap, put_above,
    put_halves, put_leaf, put_root, raised, roomy, roomy_at, slot_at, Gap, Layout,
};
use crate::node::BtreeNode;
use crate::node_edit::lemma_extent_size;
use crate::node_read::as_extent;
use crate::node_split::lemma_wf_same;
use crate::packed::total_size;
use crate::reroute::lemma_compacted_room;
use crate::run::{first_live, lemma_live};
use crate::tidy::{
    half_of, leaf_ok, lemma_compacted_tidy, lemma_leaf_compacted, lemma_leaf_cut, lemma_leaf_grown,
    lemma_leaf_halves, lemma_narrow_total, lemma_settled_unique, lemma_tidy_compacted,
    lemma_tidy_grown, lemma_tidy_halves, neat, parted, shared_by, tidy, unused,
};
use crate::tree_insert::{is_routing_root, routing, split_halves, split_key};
use crate::tree_write::LeafStep;
use vstd::prelude::*;

verus! {

/// Whether `new` is laid out without a gap, with the leaves that `t` has by `al`.
/// Nodes keep their sizes.
pub open spec fn same_leaves(t: Btree, al: Layout, new: Btree, al2: Layout) -> bool {
    &&& laid(new, al2, no_gap())
    &&& forall|k: BtreeKey| #[trigger]
        at(new, al2, new.root.depth as int, k) == at(t, al, t.root.depth as int, k)
    &&& all_roomy(t, al) ==> all_roomy(new, al2)
}

/// What is shared out does not depend on how a node holds its entries.
proof fn lemma_shared_same(
    n: BtreeNode,
    p: BtreeNode,
    left: BtreeNode,
    right: BtreeNode,
    x: EntryView,
    s: BtreeKey,
)
    requires
        shared_by(n, left, right, x, s),
        p.node_size == n.node_size,
        forall|e: EntryView| #[trigger] n.all().contains(e) <==> p.all().contains(e),
    ensures
        shared_by(p, left, right, x, s),
{
    let z = choose|z: EntryView| #[trigger] n.all().contains(z) && z.key() == s;
    let z0 = choose|z: EntryView| #[trigger] n.all().contains(z) && z.key().lt(s);
    assert(p.all().contains(z) && p.all().contains(z0));
}

/// A new root over two nodes is tidy.
proof fn lemma_tidy_root(n: BtreeNode, level: int, size: u32, seq: u64, la: u64, s: BtreeKey, ra: u64)
    requires
        is_routing_root(n, level, size, seq, la, s, ra),
        size >= 64,
        s.key_type != KeyType::Deleted,
        BtreeKey::spec_min_key().lt(s),
    ensures
        tidy(n),
{
    let min = BtreeKey::spec_min_key();
    crate::node_edit::lemma_extent_size(min, BchVal::spec_new(la, 0));
    crate::node_edit::lemma_extent_size(s, BchVal::spec_new(ra, 0));
    let all = n.all();
    assert(all.len() == 2 && all[0] == routing(min, la) && all[1] == routing(s, ra));
    assert(all[0].key() == min && all[1].key() == s);
}

/// Routing to the right half of a split node, in all the nodes above it, leads
/// every key to its leaf.
#[verifier::rlimit(40)]
proof fn lemma_routed_layout(
    t: Btree,
    new: Btree,
    al: Layout,
    g: Gap,
    path: Seq<u64>,
    pos: int,
    k0: BtreeKey,
    seq: u64,
)
    requires
        laid(t, al, g),
        g.level >= 1,
        t.cache.next_addr + g.level + 1 <= ADDR48_LIMIT,
        t.routed(new, g.from, g.right, path, pos, seq, true),
        back(g, g.level, al.addr(g.level, k0)) == g.left,
        path.len() == t.root.depth - 1,
        if g.level == 1 {
            pos == path.len()
        } else {
            pos == g.level - 2
        },
        forall|q: int| 0 <= q <= g.level - 2 ==> #[trigger] path[q] == al.addr(q + 1, k0),
    ensures
        exists|al2: Layout| #[trigger] same_leaves(t, al, new, al2),
    decreases g.level,
{
    reveal(Btree::routed);
    let v = BchVal::spec_new(g.right, 0);
    let e = routing(g.from, g.right);
    let j = g.level;
    assert(nested_at(t, al, g, j, k0, g.from));
    assert(back(g, j, al.addr(j, g.from)) == g.left);
    let p = at(t, al, j - 1, g.from);
    if j == 1 {
        if p.grown(new.root.node, e, false) && t.root_replaced(new) {
            lemma_gap_closed(t, new, al, g, new.root.node, false);
        } else {
            let (mid, left, right) = choose|mid: Btree, left: BtreeNode, right: BtreeNode|
                p.full_stripped(mid.root.node, 32) && mid == (Btree {
                    root: crate::iter::BtreeRoot { node: mid.root.node, ..t.root },
                    ..t
                }) && #[trigger] mid.root_split(new, Some((g.from, v)), seq, left, right);
            lemma_routed_root_split(t, new, al, g, mid, left, right, seq);
        }
    } else {
        let a = path[pos];
        assert(a == al.addr(j - 1, k0));
        assert(a == al.addr(j - 1, g.from));
        assert(cached_at(t, al, j - 1, g.from));
        assert(t.nodes()[a] == p);
        if exists|n: BtreeNode| p.grown(n, e, true) && #[trigger] t.node_replaced(new, a, n, true) {
            let n = choose|n: BtreeNode|
                p.grown(n, e, true) && #[trigger] t.node_replaced(new, a, n, true);
            lemma_gap_closed(t, new, al, g, n, true);
        } else {
            let (mid, n, left, right) = choose|
                mid: Btree,
                n: BtreeNode,
                left: BtreeNode,
                right: BtreeNode,
            |
                p.full(n, 32, true) && split_halves(n, left, right, Some((g.from, v)), None)
                    && #[trigger] t.node_split_via(mid, a, n, left, right) && mid.routed(
                    new,
                    split_key(n),
                    t.cache.next_addr,
                    path,
                    Btree::parent_place(path, pos),
                    seq,
                    true,
                );
            let s = split_key(n);
            let ra = t.cache.next_addr;
            lemma_gap_raised(t, mid, al, g, n, left, right);
            let al2 = moved(al, j - 1, a, s, ra);
            let h = Gap { level: j - 1, left: a, from: s, right: ra };
            lemma_routed_layout(
                mid,
                new,
                al2,
                h,
                path,
                Btree::parent_place(path, pos),
                k0,
                seq,
            );
            let al3 = choose|al3: Layout| #[trigger] same_leaves(mid, al2, new, al3);
            assert(same_leaves(t, al, new, al3));
        }
    }
}

/// The node above a gap took the routing entry for it.
proof fn lemma_gap_closed(t: Btree, new: Btree, al: Layout, g: Gap, n: BtreeNode, keep_aux: bool)
    requires
        laid(t, al, g),
        g.level >= 1,
        put_above(t, new, al, g, n),
        at(t, al, g.level - 1, g.from).grown(n, routing(g.from, g.right), keep_aux),
    ensures
        same_leaves(t, al, new, al),
{
    let v = BchVal::spec_new(g.right, 0);
    let p = at(t, al, g.level - 1, g.from);
    assert(good_at(t, al, g.level - 1, g.from));
    lemma_tidy_grown(p, n, g.from, v, keep_aux);
    if all_roomy(t, al) {
        assert(roomy_at(t, al, g.level - 1, g.from));
    }
    lemma_close(t, new, al, g, n);
}

/// The node above a gap, below the root, was split to take the routing entry for
/// it, which leaves a gap one level up.
proof fn lemma_gap_raised(
    t: Btree,
    mid: Btree,
    al: Layout,
    g: Gap,
    n: BtreeNode,
    left: BtreeNode,
    right: BtreeNode,
)
    requires
        laid(t, al, g),
        g.level >= 2,
        t.cache.next_addr < ADDR48_LIMIT,
        at(t, al, g.level - 1, g.from).compacted_to(n),
        split_halves(n, left, right, Some((g.from, BchVal::spec_new(g.right, 0))), None),
        put_halves(t, mid, al.addr(g.level - 1, g.from), left, right),
    ensures
        ({
            let a = al.addr(g.level - 1, g.from);
            let s = split_key(n);
            let ra = t.cache.next_addr;
            let al2 = moved(al, g.level - 1, a, s, ra);
            &&& laid(mid, al2, Gap { level: g.level - 1, left: a, from: s, right: ra })
            &&& forall|k: BtreeKey| #[trigger]
                at(mid, al2, t.root.depth as int, k) == at(t, al, t.root.depth as int, k)
            &&& all_roomy(t, al) ==> all_roomy(mid, al2)
        }),
{
    let v = BchVal::spec_new(g.right, 0);
    let e = routing(g.from, g.right);
    let p = at(t, al, g.level - 1, g.from);
    let s = split_key(n);
    assert(good_at(t, al, g.level - 1, g.from));
    lemma_tidy_compacted(p, n);
    lemma_tidy_halves(n, left, right, g.from, v, None);
    lemma_shared_same(n, p, left, right, e, s);
    lemma_halves_route(t, al, g, left, right, s);
    crate::laws_split::lemma_routing_reads(g.from, g.right);
    if all_roomy(t, al) {
        assert(roomy_at(t, al, g.level - 1, g.from));
    }
    lemma_split_layout(t, mid, al, g, g.level - 1, g.from, left, right, e, s);
}

/// Routing to the right half of a node below a root that has to be split.
proof fn lemma_routed_root_split(
    t: Btree,
    new: Btree,
    al: Layout,
    g: Gap,
    mid: Btree,
    left: BtreeNode,
    right: BtreeNode,
    seq: u64,
)
    requires
        laid(t, al, g),
        g.level == 1,
        t.cache.next_addr + 2 <= ADDR48_LIMIT,
        t.root.node.full_stripped(mid.root.node, 32),
        mid == (Btree {
            root: crate::iter::BtreeRoot { node: mid.root.node, ..t.root },
            ..t
        }),
        mid.root_split(new, Some((g.from, BchVal::spec_new(g.right, 0))), seq, left, right),
    ensures
        exists|al2: Layout| #[trigger] same_leaves(t, al, new, al2),
{
    let v = BchVal::spec_new(g.right, 0);
    let e = routing(g.from, g.right);
    let p = t.root.node;
    let n = mid.root.node;
    let s = split_key(n);
    let la = t.cache.next_addr;
    let ra = (la + 1) as u64;
    assert(good_at(t, al, 0, g.from));
    let c = choose|c: BtreeNode| #[trigger]
        p.compacted_to(c) && !c.has_room(32) && c.refused(n) && n == c.with_contents(n);
    lemma_tidy_compacted(p, c);
    assert(neat(n));
    lemma_tidy_halves(n, left, right, g.from, v, Some(seq));
    lemma_shared_same(n, p, left, right, e, s);
    lemma_root_halves_route(t, al, g, left, right, s);
    lemma_tidy_root(new.root.node, n.level + 1, n.node_size, seq, la, s, ra);
    assert(put_root(t, new, new.root.node, left, right));
    if all_roomy(t, al) {
        assert(roomy_at(t, al, 0, g.from));
    }
    lemma_root_layout(t, new, al, g, new.root.node, left, right, e, s);
    let al2 = raised(al, s, la, ra);
    assert(same_leaves(t, al, new, al2));
}

/// Whether every key of a tree is routed to the leaf that it belongs to.
pub open spec fn reachable(t: Btree) -> bool {
    exists|al: Layout| #[trigger] laid(t, al, no_gap())
}

/// Whether a tree holds an entry: it is live in the leaf that a lookup of its
/// key comes to.
pub open spec fn held(t: Btree, e: EntryView) -> bool {
    t.leaf_for(e.key()) matches Some(n) && n.live().contains(e)
}

/// Whether `new` holds `x` in its slot, and otherwise what `t` holds.
pub open spec fn written(t: Btree, new: Btree, x: EntryView) -> bool {
    forall|e: EntryView| #[trigger]
        held(new, e) <==> e == x || (held(t, e) && !e.key().same_slot(x.key()))
}

/// Whether every leaf is tidy.
pub open spec fn tidy_leaves(t: Btree, al: Layout) -> bool {
    forall|k: BtreeKey| tidy(#[trigger] at(t, al, t.root.depth as int, k))
}

/// Whether the leaf for `k` in `new` holds under `k` what that in `t` holds, but
/// `x` in its slot.
pub open spec fn leaf_wrote(
    t: Btree,
    al: Layout,
    new: Btree,
    al2: Layout,
    x: EntryView,
    k: BtreeKey,
) -> bool {
    forall|e: EntryView|
        e.key() == k ==> (#[trigger] at(new, al2, new.root.depth as int, k).live().contains(e)
            <==> e == x || (at(t, al, t.root.depth as int, k).live().contains(e) && !k.same_slot(
            x.key(),
        )))
}

/// Whether `new`, laid out without a gap, holds what `t` holds, but `x` in its
/// slot. Tidy leaves stay tidy if the slot was not in use. Nodes keep their
/// sizes.
pub open spec fn leaves_wrote(t: Btree, al: Layout, new: Btree, al2: Layout, x: EntryView) -> bool {
    &&& laid(new, al2, no_gap())
    &&& forall|k: BtreeKey| #[trigger] leaf_wrote(t, al, new, al2, x, k)
    &&& tidy_leaves(t, al) && unused(at(t, al, t.root.depth as int, x.key()).all(), x.key())
        ==> tidy_leaves(new, al2)
    &&& all_roomy(t, al) ==> all_roomy(new, al2)
}

/// What the leaves hold is what the tree holds.
pub proof fn lemma_held(t: Btree, al: Layout, e: EntryView)
    requires
        laid(t, al, no_gap()),
    ensures
        held(t, e) == at(t, al, t.root.depth as int, e.key()).live().contains(e),
{
    lemma_descent(t, al, e.key(), t.root.depth as int);
}

/// A layout speaks of the nodes and the addresses alone.
pub proof fn lemma_same_laid(t: Btree, new: Btree, al: Layout, g: Gap)
    requires
        laid(t, al, g),
        new.root.depth == t.root.depth,
        new.root.node == t.root.node,
        if t.root.depth > 0 {
            new.nodes() == t.nodes() && new.cache.next_addr == t.cache.next_addr
        } else {
            g.level == 0
        },
    ensures
        laid(new, al, g),
        forall|i: int, k: BtreeKey|
            0 <= i <= t.root.depth ==> #[trigger] at(new, al, i, k) == at(t, al, i, k),
        all_roomy(t, al) ==> all_roomy(new, al),
{
    let d = t.root.depth as int;
    assert forall|i: int, k: BtreeKey| 0 <= i <= d implies #[trigger] at(new, al, i, k) == at(
        t,
        al,
        i,
        k,
    ) by {}
    assert forall|i: int, k: BtreeKey| 1 <= i <= d implies #[trigger] cached_at(new, al, i, k) by {
        assert(cached_at(t, al, i, k));
    }
    assert forall|i: int, k: BtreeKey| 0 <= i <= d implies #[trigger] good_at(new, al, i, k) by {
        assert(good_at(t, al, i, k));
    }
    assert forall|i: int, k: BtreeKey| 1 <= i <= d implies #[trigger] kept_at(new, al, i, k) by {
        assert(kept_at(t, al, i, k));
    }
    assert forall|i: int, k: BtreeKey, k2: BtreeKey| 1 <= i <= d implies #[trigger] nested_at(
        new,
        al,
        g,
        i,
        k,
        k2,
    ) by {
        assert(nested_at(t, al, g, i, k, k2));
    }
    assert forall|i: int, k: BtreeKey| 1 <= i <= d implies #[trigger] linked_at(
        new,
        al,
        g,
        i,
        k,
    ) by {
        assert(linked_at(t, al, g, i, k));
    }
    if all_roomy(t, al) {
        assert forall|i: int, k: BtreeKey| 0 <= i < d + 1 implies #[trigger] roomy_at(
            new,
            al,
            i,
            k,
        ) by {
            assert(roomy_at(t, al, i, k));
        }
    }
}

/// A leaf that took an extent.
proof fn lemma_leaf_took(
    t: Btree,
    new: Btree,
    al: Layout,
    n: BtreeNode,
    placed: BtreeNode,
    k: BtreeKey,
    v: BchVal,
)
    requires
        laid(t, al, no_gap()),
        k.key_type != KeyType::Deleted,
        at(t, al, t.root.depth as int, k).grown(n, EntryView::extent(k, v), true),
        placed == (BtreeNode { journal_seq: placed.journal_seq, ..n }),
        put_leaf(t, new, al, k, placed),
    ensures
        leaves_wrote(t, al, new, al, EntryView::extent(k, v)),
{
    let d = t.root.depth as int;
    let leaf = at(t, al, d, k);
    let x = EntryView::extent(k, v);
    lemma_extent_size(k, v);
    assert(x.key() == k);
    assert(good_at(t, al, d, k));
    lemma_leaf_grown(leaf, n, k, v, true);
    lemma_wf_same(n, placed);
    assert(leaf_ok(placed));
    if d > 0 {
        assert(kept_at(t, al, d, k));
    }
    if all_roomy(t, al) {
        assert(roomy_at(t, al, d, k));
    }
    lemma_leaf_layout(t, new, al, k, placed);
    assert forall|k2: BtreeKey| #[trigger] leaf_wrote(t, al, new, al, x, k2) by {
        if d > 0 && al.addr(d, k2) != al.addr(d, k) {
            assert(at(new, al, d, k2) == at(t, al, d, k2));
            assert(slot_at(al, d, k, k2));
        } else {
            assert(at(t, al, d, k2) == leaf);
            assert(at(new, al, d, k2) == placed);
        }
    }
    if tidy_leaves(t, al) && unused(leaf.all(), k) {
        lemma_tidy_grown(leaf, n, k, v, true);
        assert forall|k2: BtreeKey| tidy(#[trigger] at(new, al, d, k2)) by {
            assert(tidy(at(t, al, d, k2)));
        }
    }
}

/// A root that is a leaf and was split to take an extent.
proof fn lemma_root_leaf_split(
    t: Btree,
    new: Btree,
    al: Layout,
    n: BtreeNode,
    left: BtreeNode,
    right: BtreeNode,
    k: BtreeKey,
    v: BchVal,
    seq: u64,
)
    requires
        laid(t, al, no_gap()),
        t.root.depth == 0,
        t.cache.next_addr + 2 <= ADDR48_LIMIT,
        k.key_type != KeyType::Deleted,
        t.root.node.compacted_to(n),
        split_halves(n, left, right, Some((k, v)), Some(seq)),
        put_root(t, new, new.root.node, left, right),
        is_routing_root(
            new.root.node,
            n.level + 1,
            n.node_size,
            seq,
            t.cache.next_addr,
            split_key(n),
            (t.cache.next_addr + 1) as u64,
        ),
    ensures
        exists|al2: Layout| #[trigger] leaves_wrote(t, al, new, al2, EntryView::extent(k, v)),
{
    let p = t.root.node;
    let x = EntryView::extent(k, v);
    let s = split_key(n);
    let la = t.cache.next_addr;
    let ra = (la + 1) as u64;
    lemma_extent_size(k, v);
    assert(good_at(t, al, 0, k));
    lemma_leaf_compacted(p, n);
    lemma_leaf_halves(n, left, right, k, v, Some(seq));
    lemma_parted_same(n, p, left, right, x, s);
    lemma_tidy_root(new.root.node, n.level + 1, n.node_size, seq, la, s, ra);
    if all_roomy(t, al) {
        assert(roomy_at(t, al, 0, k));
    }
    lemma_root_layout(t, new, al, no_gap(), new.root.node, left, right, x, s);
    let al2 = raised(al, s, la, ra);
    assert forall|k2: BtreeKey| #[trigger] leaf_wrote(t, al, new, al2, x, k2) by {
        assert(at(new, al2, 1, k2) == half_of(left, right, s, k2));
    }
    if tidy_leaves(t, al) && unused(p.all(), k) {
        assert(tidy(at(t, al, 0, k)));
        lemma_tidy_compacted(p, n);
        lemma_tidy_halves(n, left, right, k, v, Some(seq));
        assert forall|k2: BtreeKey| tidy(#[trigger] at(new, al2, 1, k2)) by {
            assert(at(new, al2, 1, k2) == half_of(left, right, s, k2));
        }
    }
    assert(at(new, al2, 1, k) == half_of(left, right, s, k));
    assert(leaves_wrote(t, al, new, al2, x));
}

/// What is parted does not depend on whether the node was compacted before.
proof fn lemma_parted_same(
    n: BtreeNode,
    p: BtreeNode,
    left: BtreeNode,
    right: BtreeNode,
    x: EntryView,
    s: BtreeKey,
)
    requires
        parted(n, left, right, x, s),
        p.node_size == n.node_size,
        forall|e: EntryView| #[trigger] n.all().contains(e) ==> p.all().contains(e),
    ensures
        parted(p, left, right, x, s),
{
    let z = choose|z: EntryView| #[trigger] n.all().contains(z) && z.key() == s;
    let z0 = choose|z: EntryView| #[trigger] n.all().contains(z) && z.key().lt(s);
    assert(p.all().contains(z) && p.all().contains(z0));
}

/// A leaf below the root that was split to take an extent.
#[verifier::rlimit(40)]
proof fn lemma_leaf_split(
    t: Btree,
    new: Btree,
    al: Layout,
    k: BtreeKey,
    v: BchVal,
    path: Seq<u64>,
    seq: u64,
)
    requires
        laid(t, al, no_gap()),
        t.root.depth > 0,
        t.cache.next_addr + 512 <= ADDR48_LIMIT,
        k.key_type != KeyType::Deleted,
        t.leaf_was_split(new, al.addr(t.root.depth as int, k), (k, v), path, seq, true),
        path.len() == t.root.depth - 1,
        forall|q: int| 0 <= q < path.len() ==> #[trigger] path[q] == al.addr(q + 1, k),
    ensures
        exists|al2: Layout| #[trigger] leaves_wrote(t, al, new, al2, EntryView::extent(k, v)),
{
    let d = t.root.depth as int;
    let a = al.addr(d, k);
    let leaf = at(t, al, d, k);
    let x = EntryView::extent(k, v);
    let (halves, done, left, right) = choose|
        halves: Btree,
        done: Btree,
        left: BtreeNode,
        right: BtreeNode,
    | #[trigger]
        t.split_routed(new, halves, done, left, right, a, (k, v), path, seq, true);
    let counted = Btree { total_key_count: t.one_more_key(), ..halves };
    let s = split_key(leaf);
    let ra = t.cache.next_addr;
    lemma_extent_size(k, v);
    assert(good_at(t, al, d, k));
    assert(cached_at(t, al, d, k));
    lemma_leaf_halves(leaf, left, right, k, v, Some(seq));
    assert(put_halves(t, counted, a, left, right));
    if all_roomy(t, al) {
        assert(roomy_at(t, al, d, k));
    }
    lemma_split_layout(t, counted, al, no_gap(), d, k, left, right, x, s);
    let al2 = moved(al, d, a, s, ra);
    let g = Gap { level: d, left: a, from: s, right: ra };
    assert forall|q: int| 0 <= q <= d - 2 implies #[trigger] path[q] == al2.addr(q + 1, k) by {}
    lemma_routed_layout(counted, done, al2, g, path, Btree::last_place(path), k, seq);
    let al3 = choose|al3: Layout| #[trigger] same_leaves(counted, al2, done, al3);
    lemma_same_laid(done, new, al3, no_gap());
    let d2 = new.root.depth as int;
    assert forall|k2: BtreeKey| #[trigger] at(new, al3, d2, k2) == (if al.addr(d, k2) == a {
        half_of(left, right, s, k2)
    } else {
        at(t, al, d, k2)
    }) by {
        assert(at(new, al3, d2, k2) == at(done, al3, d2, k2));
        assert(at(done, al3, d2, k2) == at(counted, al2, d, k2));
    }
    assert forall|k2: BtreeKey| #[trigger] leaf_wrote(t, al, new, al3, x, k2) by {
        let n = at(new, al3, d2, k2);
        if al.addr(d, k2) == a {
            assert(n == half_of(left, right, s, k2));
            assert(at(t, al, d, k2) == leaf);
        } else {
            assert(n == at(t, al, d, k2));
            assert(slot_at(al, d, k, k2));
        }
    }
    if tidy_leaves(t, al) && unused(leaf.all(), k) {
        assert(tidy(leaf));
        lemma_tidy_halves(leaf, left, right, k, v, Some(seq));
        assert forall|k2: BtreeKey| tidy(#[trigger] at(new, al3, d2, k2)) by {
            assert(tidy(at(t, al, d, k2)));
        }
    }
    assert(at(new, al3, d2, k) == half_of(left, right, s, k));
    assert(leaves_wrote(t, al, new, al3, x));
}

/// A tree below whose root a key was inserted.
#[verifier::rlimit(40)]
proof fn lemma_inserted_multi(t: Btree, new: Btree, al: Layout, k: BtreeKey, v: BchVal, seq: u64)
    requires
        laid(t, al, no_gap()),
        t.root.depth > 0,
        t.can_grow(),
        k.key_type != KeyType::Deleted,
        t.inserted_multi(new, k, v, seq, true),
    ensures
        exists|al2: Layout| #[trigger] leaves_wrote(t, al, new, al2, EntryView::extent(k, v)),
{
    let d = t.root.depth as int;
    let x = EntryView::extent(k, v);
    let a = t.leaf_addr(k);
    lemma_descent(t, al, k, d);
    assert(a == al.addr(d, k));
    assert(cached_at(t, al, d, k));
    let leaf = t.nodes()[a];
    assert(leaf == at(t, al, d, k));
    if t.leaf_step(new, a, x, seq, LeafStep::Done) {
        let n = choose|n: BtreeNode|
            leaf.grown(n, x, true) && #[trigger] t.node_replaced(
                Btree { total_key_count: t.total_key_count, ..new },
                a,
                BtreeNode { journal_seq: seq, ..n },
                true,
            ) && new.total_key_count == t.one_more_key();
        let placed = BtreeNode { journal_seq: seq, ..n };
        assert(put_leaf(t, new, al, k, placed));
        lemma_leaf_took(t, new, al, n, placed, k, v);
    } else {
        let mid = choose|mid: Btree| #[trigger]
            t.leaf_step(mid, a, x, seq, LeafStep::NeedsSplit) && mid.leaf_was_split(
                new,
                a,
                (k, v),
                t.spec_path(k),
                seq,
                true,
            );
        let n = choose|n: BtreeNode|
            (if crate::tree_write::over_share(leaf) {
                n == leaf
            } else {
                leaf.full(n, 32, true)
            }) && #[trigger] t.node_replaced(mid, a, n, false);
        assert(put_leaf(t, mid, al, k, n));
        lemma_leaf_repacked(t, mid, al, k, n);
        assert(at(mid, al, d, k) == n);
        let path = t.spec_path(k);
        assert forall|q: int| 0 <= q < path.len() implies #[trigger] path[q] == al.addr(q + 1, k) by {
            lemma_descent(t, al, k, q + 1);
        }
        lemma_extent_size(k, v);
        lemma_leaf_split(mid, new, al, k, v, path, seq);
        let al2 = choose|al2: Layout| #[trigger] leaves_wrote(mid, al, new, al2, x);
        assert forall|k2: BtreeKey| #[trigger] leaf_wrote(t, al, new, al2, x, k2) by {
            assert(leaf_wrote(mid, al, new, al2, x, k2));
            assert(at(mid, al, d, k2).live() == at(t, al, d, k2).live());
        }
        assert(leaves_wrote(t, al, new, al2, x));
    }
}

/// A leaf that was compacted, or left as it was, holds what it held.
pub proof fn lemma_leaf_repacked(t: Btree, new: Btree, al: Layout, k: BtreeKey, n: BtreeNode)
    requires
        laid(t, al, no_gap()),
        put_leaf(t, new, al, k, n),
        ({
            let leaf = at(t, al, t.root.depth as int, k);
            n == leaf || leaf.compacted_to(n)
        }),
    ensures
        laid(new, al, no_gap()),
        forall|k2: BtreeKey| #[trigger]
            at(new, al, t.root.depth as int, k2).live() == at(
                t,
                al,
                t.root.depth as int,
                k2,
            ).live(),
        tidy_leaves(t, al) ==> tidy_leaves(new, al),
        all_roomy(t, al) ==> all_roomy(new, al),
        forall|k2: BtreeKey, e: EntryView| #[trigger]
            at(new, al, t.root.depth as int, k2).all().contains(e) ==> at(
                t,
                al,
                t.root.depth as int,
                k2,
            ).all().contains(e),
        forall|q: BtreeKey|
            unused(at(t, al, t.root.depth as int, k).all(), q) ==> #[trigger] unused(
                at(new, al, t.root.depth as int, k).all(),
                q,
            ),
{
    let d = t.root.depth as int;
    let leaf = at(t, al, d, k);
    assert(good_at(t, al, d, k));
    if d > 0 {
        assert(kept_at(t, al, d, k));
    }
    if n != leaf {
        lemma_leaf_compacted(leaf, n);
    }
    if all_roomy(t, al) {
        assert(roomy_at(t, al, d, k));
    }
    lemma_leaf_layout(t, new, al, k, n);
    assert(at(new, al, d, k) == n);
    assert forall|k2: BtreeKey| #[trigger] at(new, al, d, k2).live() == at(t, al, d, k2).live() by {
        if d == 0 || al.addr(d, k2) == al.addr(d, k) {
            assert(at(t, al, d, k2) == leaf);
        }
    }
    assert forall|k2: BtreeKey, e: EntryView| #[trigger]
        at(new, al, d, k2).all().contains(e) implies at(t, al, d, k2).all().contains(e) by {
        if d == 0 || al.addr(d, k2) == al.addr(d, k) {
            assert(at(t, al, d, k2) == leaf);
            assert(at(new, al, d, k2) == n);
        } else {
            assert(at(new, al, d, k2) == at(t, al, d, k2));
        }
    }
    if tidy_leaves(t, al) {
        assert(tidy(leaf));
        if n != leaf {
            lemma_tidy_compacted(leaf, n);
        }
        assert forall|k2: BtreeKey| tidy(#[trigger] at(new, al, d, k2)) by {
            assert(tidy(at(t, al, d, k2)));
        }
    }
}

/// An insert of a key, whatever nodes it compacts or splits.
#[verifier::rlimit(40)]
pub proof fn lemma_inserted(t: Btree, new: Btree, al: Layout, k: BtreeKey, v: BchVal, seq: u64)
    requires
        laid(t, al, no_gap()),
        t.can_grow(),
        k.key_type != KeyType::Deleted,
        t.was_inserted(new, k, v, seq, true),
    ensures
        exists|al2: Layout| #[trigger] leaves_wrote(t, al, new, al2, EntryView::extent(k, v)),
{
    let d = t.root.depth as int;
    let x = EntryView::extent(k, v);
    let mid = choose|mid: Btree| #[trigger]
        t.tree_inserted(mid, k, v, seq, true, true) && mid.rounded_off(
            new,
            Bpos::spec_from_key(k),
        );
    assert(t.tree_inserted(mid, k, v, seq, true, true));
    let al2 = if d > 0 {
        lemma_inserted_multi(t, mid, al, k, v, seq);
        choose|al2: Layout| #[trigger] leaves_wrote(t, al, mid, al2, x)
    } else if exists|n: BtreeNode| #[trigger] t.root_took(mid, n, x, seq, true) {
        let n = choose|n: BtreeNode| #[trigger] t.root_took(mid, n, x, seq, true);
        assert(put_leaf(t, mid, al, k, mid.root.node));
        lemma_leaf_took(t, mid, al, n, mid.root.node, k, v);
        al
    } else {
        let full = choose|full: Btree| #[trigger]
            t.root_full(full, true) && full.root_split_counted(mid, Some((k, v)), seq, true);
        let (left, right) = choose|left: BtreeNode, right: BtreeNode| #[trigger]
            full.root_split(
                Btree { total_key_count: full.total_key_count, ..mid },
                Some((k, v)),
                seq,
                left,
                right,
            );
        assert(put_root(t, mid, mid.root.node, left, right));
        lemma_root_leaf_split(t, mid, al, full.root.node, left, right, k, v, seq);
        choose|al2: Layout| #[trigger] leaves_wrote(t, al, mid, al2, x)
    };
    lemma_same_laid(mid, new, al2, no_gap());
    let d2 = mid.root.depth as int;
    assert forall|k2: BtreeKey| #[trigger] leaf_wrote(t, al, new, al2, x, k2) by {
        assert(leaf_wrote(t, al, mid, al2, x, k2));
        assert(at(new, al2, d2, k2) == at(mid, al2, d2, k2));
    }
    assert(at(new, al2, d2, k) == at(mid, al2, d2, k));
    assert(leaves_wrote(t, al, new, al2, x));
}

/// An insert into a tree whose keys are all reachable, whatever nodes it
/// compacts or splits: all keys stay reachable, the tree holds the new entry in
/// its slot, and everything else that it held.
pub proof fn lemma_insert(t: Btree, new: Btree, k: BtreeKey, v: BchVal, seq: u64)
    requires
        reachable(t),
        t.can_grow(),
        k.key_type != KeyType::Deleted,
        t.was_inserted(new, k, v, seq, true),
    ensures
        reachable(new),
        written(t, new, EntryView::extent(k, v)),
        new.cached_get(k) is None,
{
    let al = choose|al: Layout| #[trigger] laid(t, al, no_gap());
    lemma_inserted(t, new, al, k, v, seq);
    let x = EntryView::extent(k, v);
    let al2 = choose|al2: Layout| #[trigger] leaves_wrote(t, al, new, al2, x);
    assert forall|e: EntryView| #[trigger] held(new, e) <==> e == x || (held(t, e)
        && !e.key().same_slot(x.key())) by {
        lemma_held(t, al, e);
        lemma_held(new, al2, e);
        assert(leaf_wrote(t, al, new, al2, x, e.key()));
    }
}

// ── lookups ─────────────────────────────────────────────────────────────

/// Whether the keys of a tree are reachable and its leaves tidy.
pub open spec fn orderly(t: Btree) -> bool {
    exists|al: Layout| #[trigger] laid(t, al, no_gap()) && tidy_leaves(t, al)
}

/// A lookup in a tree whose keys are reachable gives the entry that the tree
/// holds.
pub proof fn lemma_get_held(t: Btree, k: BtreeKey)
    requires
        reachable(t),
        k.key_type != KeyType::Deleted,
    ensures
        forall|e: EntryView| #[trigger]
            held(t, e) && e.key() == k ==> t.tree_get(k) == Some(as_extent(e)),
        t.tree_get(k) is Some ==> exists|e: EntryView| #[trigger]
            held(t, e) && e.key() == k && t.tree_get(k) == Some(as_extent(e)),
{
    let al = choose|al: Layout| #[trigger] laid(t, al, no_gap());
    let d = t.root.depth as int;
    let n = at(t, al, d, k);
    lemma_descent(t, al, k, d);
    t.lemma_get_in_leaf(k);
    lemma_find_live(n, k);
    if let Some(e) = leaf_find(n, k) {
        assert(held(t, e));
    }
}

/// Lookups in trees that hold the same give the same.
pub proof fn lemma_same_gets(t: Btree, new: Btree, k: BtreeKey)
    requires
        reachable(t),
        reachable(new),
        same_held(t, new),
        k.key_type != KeyType::Deleted,
    ensures
        new.tree_get(k) == t.tree_get(k),
{
    lemma_get_held(t, k);
    lemma_get_held(new, k);
    if t.tree_get(k) is Some {
        let e = choose|e: EntryView| #[trigger]
            held(t, e) && e.key() == k && t.tree_get(k) == Some(as_extent(e));
        assert(held(new, e));
    }
    if new.tree_get(k) is Some {
        let e = choose|e: EntryView| #[trigger]
            held(new, e) && e.key() == k && new.tree_get(k) == Some(as_extent(e));
        assert(held(t, e));
    }
}

/// What a search finds in a run without tombstones.
proof fn lemma_first_live(es: Seq<EntryView>, k: BtreeKey)
    requires
        forall|i: int| 0 <= i < es.len() ==> (#[trigger] es[i]).key_type != KeyType::Deleted,
    ensures
        match first_live(es, k) {
            Some(e) => es.contains(e) && e.key().same_slot(k),
            None => unused(es, k),
        },
    decreases es.len(),
{
    if es.len() > 0 {
        let f = es.skip(1);
        assert forall|i: int| 0 <= i < f.len() implies (#[trigger] f[i]).key_type
            != KeyType::Deleted by {
            assert(f[i] == es[i + 1]);
        }
        lemma_first_live(f, k);
        assert(es[0].key_type != KeyType::Deleted);
        assert(es.contains(es[0]));
        if !es[0].key().same_slot(k) {
            match first_live(f, k) {
                Some(e) => {
                    let j = choose|j: int| 0 <= j < f.len() && f[j] == e;
                    assert(es[j + 1] == e);
                },
                None => {
                    assert forall|e: EntryView| #[trigger] es.contains(e) implies !e.key().same_slot(
                        k,
                    ) by {
                        let j = choose|j: int| 0 <= j < es.len() && es[j] == e;
                        if j > 0 {
                            assert(f[j - 1] == e);
                            assert(f.contains(e));
                        }
                    }
                },
            }
        }
    }
}

/// A search in an orderly tree gives the entry that the tree holds in the slot.
pub proof fn lemma_search_held(t: Btree, k: BtreeKey)
    requires
        orderly(t),
    ensures
        forall|e: EntryView| #[trigger]
            held(t, e) && e.key().same_slot(k) ==> t.leaf_search(k) == Some(as_extent(e)),
        t.leaf_search(k) is Some ==> exists|e: EntryView| #[trigger]
            held(t, e) && e.key().same_slot(k) && t.leaf_search(k) == Some(as_extent(e)),
{
    let al = choose|al: Layout| #[trigger] laid(t, al, no_gap()) && tidy_leaves(t, al);
    let d = t.root.depth as int;
    let n = at(t, al, d, k);
    lemma_descent(t, al, k, d);
    assert(tidy(n));
    lemma_first_live(n.all(), k);
    assert forall|e: EntryView| e.key().same_slot(k) implies (#[trigger] held(t, e)
        <==> n.all().contains(e)) by {
        lemma_held(t, al, e);
        if d > 0 {
            assert(slot_at(al, d, e.key(), k));
        }
        lemma_settled_live(n.all(), e);
    }
    assert forall|e: EntryView| #[trigger] held(t, e) && e.key().same_slot(k) implies t.leaf_search(
        k,
    ) == Some(as_extent(e)) by {
        assert(n.all().contains(e));
        lemma_settled_unique(n.all(), e, first_live(n.all(), k)->0);
    }
    if let Some(e) = first_live(n.all(), k) {
        assert(held(t, e));
    }
}

/// An empty tree is laid out without a gap.
pub proof fn lemma_new_laid(t: Btree, al: Layout)
    requires
        t.root.depth == 0,
        t.root.node.wf(),
        t.root.node.all() == Seq::<EntryView>::empty(),
        t.root.node.key_count == 0,
    ensures
        laid(t, al, no_gap()),
        tidy_leaves(t, al),
{
    assert forall|i: int, q: BtreeKey| 0 <= i <= 0 implies #[trigger] good_at(t, al, i, q) by {}
}

/// An empty tree is orderly, and holds nothing.
pub proof fn lemma_new_orderly(t: Btree)
    requires
        t.root.depth == 0,
        t.root.node.wf(),
        t.root.node.all() == Seq::<EntryView>::empty(),
        t.root.node.key_count == 0,
    ensures
        orderly(t),
        reachable(t),
        forall|e: EntryView| !#[trigger] held(t, e),
{
    let al = Layout { of: |i: int, q: BtreeKey| 0u64 };
    lemma_new_laid(t, al);
    assert forall|e: EntryView| !#[trigger] held(t, e) by {
        lemma_held(t, al, e);
        lemma_live(t.root.node.all());
    }
}

/// Whether the leaf for `k` has nothing in the slot of `k`.
pub open spec fn is_new_key(t: Btree, k: BtreeKey) -> bool {
    t.leaf_for(k) matches Some(n) && unused(n.all(), k)
}

/// An insert of any key but a tombstone into a tree whose keys are reachable,
/// whatever nodes it compacts or splits: lookups give the value back for the key,
/// nothing for a key of another type in its slot, and for every other key what
/// they gave before. The count grows by one, and the depth by at most one.
pub proof fn lemma_get_after_insert(t: Btree, new: Btree, k: BtreeKey, v: BchVal, seq: u64)
    requires
        reachable(t),
        t.can_grow(),
        k.key_type != KeyType::Deleted,
        v == BchVal::spec_new(v.paddr.addr, v.ver),
        t.was_inserted(new, k, v, seq, true),
    ensures
        reachable(new),
        new.cached_get(k) is None,
        new.tree_get(k) == Some((k, v)),
        forall|k2: BtreeKey|
            k2.key_type != KeyType::Deleted && k2 != k ==> #[trigger] new.tree_get(k2) == (
            if k2.same_slot(k) {
                None
            } else {
                t.tree_get(k2)
            }),
        new.total_key_count == t.one_more_key(),
        t.root.depth <= new.root.depth <= t.root.depth + 1,
{
    let x = EntryView::extent(k, v);
    lemma_extent_reads(k, v);
    assert(x.key() == k);
    lemma_insert(t, new, k, v, seq);
    assert(held(new, x));
    lemma_get_held(new, k);
    assert forall|k2: BtreeKey| k2.key_type != KeyType::Deleted && k2 != k implies
        #[trigger] new.tree_get(k2) == (if k2.same_slot(k) {
            None
        } else {
            t.tree_get(k2)
        }) by {
        lemma_get_held(t, k2);
        lemma_get_held(new, k2);
        if t.tree_get(k2) is Some && !k2.same_slot(k) {
            let e = choose|e: EntryView| #[trigger]
                held(t, e) && e.key() == k2 && t.tree_get(k2) == Some(as_extent(e));
            assert(held(new, e));
        }
        if new.tree_get(k2) is Some {
            let e = choose|e: EntryView| #[trigger]
                held(new, e) && e.key() == k2 && new.tree_get(k2) == Some(as_extent(e));
            assert(held(t, e));
        }
    }
    lemma_insert_counts(t, new, k, v, seq);
}

/// What an insert does to the count and the depth.
proof fn lemma_insert_counts(t: Btree, new: Btree, k: BtreeKey, v: BchVal, seq: u64)
    requires
        t.was_inserted(new, k, v, seq, true),
    ensures
        new.total_key_count == t.one_more_key(),
        t.root.depth <= new.root.depth <= t.root.depth + 1,
{
    let x = EntryView::extent(k, v);
    let mid = choose|mid: Btree| #[trigger]
        t.tree_inserted(mid, k, v, seq, true, true) && mid.rounded_off(
            new,
            Bpos::spec_from_key(k),
        );
    assert(t.tree_inserted(mid, k, v, seq, true, true));
    if t.root.depth > 0 {
        let a = t.leaf_addr(k);
        if !t.leaf_step(mid, a, x, seq, LeafStep::Done) {
            let cut = choose|cut: Btree| #[trigger]
                t.leaf_step(cut, a, x, seq, LeafStep::NeedsSplit) && cut.leaf_was_split(
                    mid,
                    a,
                    (k, v),
                    t.spec_path(k),
                    seq,
                    true,
                );
            let (halves, done, left, right) = choose|
                halves: Btree,
                done: Btree,
                left: BtreeNode,
                right: BtreeNode,
            | #[trigger]
                cut.split_routed(
                    mid,
                    halves,
                    done,
                    left,
                    right,
                    a,
                    (k, v),
                    t.spec_path(k),
                    seq,
                    true,
                );
            let counted = Btree { total_key_count: cut.one_more_key(), ..halves };
            lemma_routed_counts(
                counted,
                done,
                split_key(cut.nodes()[a]),
                cut.cache.next_addr,
                t.spec_path(k),
                Btree::last_place(t.spec_path(k)),
                seq,
                true,
            );
        }
    }
}

/// What adding routing entries does to the count and the depth.
proof fn lemma_routed_counts(
    t: Btree,
    new: Btree,
    k: BtreeKey,
    child: u64,
    path: Seq<u64>,
    pos: int,
    seq: u64,
    r: bool,
)
    requires
        t.routed(new, k, child, path, pos, seq, r),
    ensures
        new.total_key_count == t.total_key_count,
        t.root.depth <= new.root.depth <= t.root.depth + 1,
    decreases
            if 0 <= pos < path.len() {
                pos + 1
            } else {
                0
            },
{
    reveal(Btree::routed);
    if 0 <= pos < path.len() && t.nodes().contains_key(path[pos]) {
        let a = path[pos];
        let p = t.nodes()[a];
        let e = routing(k, child);
        if !(exists|n: BtreeNode| p.grown(n, e, true) && #[trigger] t.node_replaced(new, a, n, true))
            && !(exists|n: BtreeNode|
            p.full(n, 32, true) && #[trigger] t.node_replaced(new, a, n, false)) {
            let (mid, n, left, right) = choose|
                mid: Btree,
                n: BtreeNode,
                left: BtreeNode,
                right: BtreeNode,
            |
                p.full(n, 32, true) && split_halves(
                    n,
                    left,
                    right,
                    Some((k, BchVal::spec_new(child, 0))),
                    None,
                ) && #[trigger] t.node_split_via(mid, a, n, left, right) && mid.routed(
                    new,
                    split_key(n),
                    t.cache.next_addr,
                    path,
                    Btree::parent_place(path, pos),
                    seq,
                    r,
                );
            lemma_routed_counts(
                mid,
                new,
                split_key(n),
                t.cache.next_addr,
                path,
                Btree::parent_place(path, pos),
                seq,
                r,
            );
        }
    }
}

// ── success ─────────────────────────────────────────────────────────────

/// A tidy node that is full even compacted has two entries or more.
proof fn lemma_full_has_two(n: BtreeNode, c: BtreeNode)
    requires
        tidy(n),
        n.node_size >= 128,
        n.compacted_to(c),
        !c.has_room(32) || !BtreeNode::takes(c, 32, true),
    ensures
        n.live().len() >= 2,
{
    if n.live().len() < 2 {
        let es = n.live();
        lemma_leaf_compacted(n, c);
        lemma_narrow_total(c.all());
        lemma_compacted_room(n, c);
        assert(total_size(es) == 32 * es.len());
        assert(c.sets@[0].top() <= 32 + crate::node::AUX_ENTRY_BYTES);
        assert(c.sets@[1].top() == 0 && c.sets@[2].top() == 0);
        assert(crate::node::free_start(c.sets@) + 32 <= c.node_size);
    }
}

/// Routing to the right half of a split node does not fail where nodes have 128
/// bytes or more.
#[verifier::rlimit(40)]
proof fn lemma_routed_succeeds(
    t: Btree,
    new: Btree,
    al: Layout,
    g: Gap,
    path: Seq<u64>,
    pos: int,
    k0: BtreeKey,
    seq: u64,
    r: bool,
)
    requires
        laid(t, al, g),
        g.level >= 1,
        t.cache.next_addr + g.level + 1 <= ADDR48_LIMIT,
        t.routed(new, g.from, g.right, path, pos, seq, r),
        back(g, g.level, al.addr(g.level, k0)) == g.left,
        path.len() == t.root.depth - 1,
        if g.level == 1 {
            pos == path.len()
        } else {
            pos == g.level - 2
        },
        forall|q: int| 0 <= q <= g.level - 2 ==> #[trigger] path[q] == al.addr(q + 1, k0),
        roomy(t, al, g.level),
    ensures
        r,
    decreases g.level,
{
    reveal(Btree::routed);
    let v = BchVal::spec_new(g.right, 0);
    let j = g.level;
    assert(nested_at(t, al, g, j, k0, g.from));
    assert(back(g, j, al.addr(j, g.from)) == g.left);
    let p = at(t, al, j - 1, g.from);
    assert(good_at(t, al, j - 1, g.from));
    assert(roomy_at(t, al, j - 1, g.from));
    if !r {
        if j == 1 {
            let c = choose|c: BtreeNode| #[trigger]
                p.compacted_to(c) && !c.has_room(32) && c.refused(new.root.node) && new.root.node
                    == c.with_contents(new.root.node);
            lemma_full_has_two(p, c);
        } else {
            let a = path[pos];
            assert(a == al.addr(j - 1, g.from));
            assert(cached_at(t, al, j - 1, g.from));
            assert(t.nodes()[a] == p);
            if p.live().len() < 2 && exists|n: BtreeNode|
                p.full(n, 32, true) && #[trigger] t.node_replaced(new, a, n, false) {
                let n = choose|n: BtreeNode|
                    p.full(n, 32, true) && #[trigger] t.node_replaced(new, a, n, false);
                lemma_full_has_two(p, n);
            } else {
                let (mid, n, left, right) = choose|
                    mid: Btree,
                    n: BtreeNode,
                    left: BtreeNode,
                    right: BtreeNode,
                |
                    p.full(n, 32, true) && split_halves(n, left, right, Some((g.from, v)), None)
                        && #[trigger] t.node_split_via(mid, a, n, left, right) && mid.routed(
                        new,
                        split_key(n),
                        t.cache.next_addr,
                        path,
                        Btree::parent_place(path, pos),
                        seq,
                        r,
                    );
                let s = split_key(n);
                let ra = t.cache.next_addr;
                lemma_gap_raised(t, mid, al, g, n, left, right);
                let al2 = moved(al, j - 1, a, s, ra);
                assert forall|i: int, k: BtreeKey| 0 <= i < j - 1 implies #[trigger] roomy_at(
                    mid,
                    al2,
                    i,
                    k,
                ) by {
                    assert(roomy_at(t, al, i, k));
                    lemma_put_halves(t, mid, al, g, j - 1, g.from, left, right, s, i, k);
                }
                lemma_routed_succeeds(
                    mid,
                    new,
                    al2,
                    Gap { level: j - 1, left: a, from: s, right: ra },
                    path,
                    Btree::parent_place(path, pos),
                    k0,
                    seq,
                    r,
                );
            }
        }
    }
}

/// A split of a leaf below the root, and the routing entry for its right half,
/// do not fail where the leaf has two entries and nodes have 128 bytes or more.
proof fn lemma_leaf_split_succeeds(
    t: Btree,
    new: Btree,
    al: Layout,
    k: BtreeKey,
    v: BchVal,
    path: Seq<u64>,
    seq: u64,
    r: bool,
)
    requires
        laid(t, al, no_gap()),
        t.root.depth > 0,
        t.cache.next_addr + 512 <= ADDR48_LIMIT,
        k.key_type != KeyType::Deleted,
        t.leaf_was_split(new, al.addr(t.root.depth as int, k), (k, v), path, seq, r),
        at(t, al, t.root.depth as int, k).live().len() >= 2,
        path.len() == t.root.depth - 1,
        forall|q: int| 0 <= q < path.len() ==> #[trigger] path[q] == al.addr(q + 1, k),
        roomy(t, al, t.root.depth as int),
    ensures
        r,
{
    let d = t.root.depth as int;
    let a = al.addr(d, k);
    let leaf = at(t, al, d, k);
    let x = EntryView::extent(k, v);
    let (halves, done, left, right) = choose|
        halves: Btree,
        done: Btree,
        left: BtreeNode,
        right: BtreeNode,
    | #[trigger]
        t.split_routed(new, halves, done, left, right, a, (k, v), path, seq, r);
    let counted = Btree { total_key_count: t.one_more_key(), ..halves };
    let s = split_key(leaf);
    let ra = t.cache.next_addr;
    lemma_extent_size(k, v);
    assert(good_at(t, al, d, k));
    assert(cached_at(t, al, d, k));
    lemma_leaf_halves(leaf, left, right, k, v, Some(seq));
    assert(put_halves(t, counted, a, left, right));
    lemma_split_layout(t, counted, al, no_gap(), d, k, left, right, x, s);
    let al2 = moved(al, d, a, s, ra);
    let g = Gap { level: d, left: a, from: s, right: ra };
    assert forall|q: int| 0 <= q <= d - 2 implies #[trigger] path[q] == al2.addr(q + 1, k) by {}
    assert forall|i: int, q: BtreeKey| 0 <= i < d implies #[trigger] roomy_at(
        counted,
        al2,
        i,
        q,
    ) by {
        assert(roomy_at(t, al, i, q));
        lemma_put_halves(t, counted, al, no_gap(), d, k, left, right, s, i, q);
    }
    lemma_routed_succeeds(counted, done, al2, g, path, Btree::last_place(path), k, seq, r);
}

/// Whether a tree is orderly and its nodes have 128 bytes or more.
pub open spec fn spacious(t: Btree) -> bool {
    exists|al: Layout| #[trigger]
        laid(t, al, no_gap()) && tidy_leaves(t, al) && all_roomy(t, al)
}

/// An empty tree with a root of 128 bytes or more is spacious.
pub proof fn lemma_new_spacious(t: Btree)
    requires
        t.root.depth == 0,
        t.root.node.wf(),
        t.root.node.all() == Seq::<EntryView>::empty(),
        t.root.node.key_count == 0,
        t.root.node.node_size >= 128,
    ensures
        spacious(t),
{
    let al = Layout { of: |i: int, q: BtreeKey| 0u64 };
    lemma_new_laid(t, al);
    assert(all_roomy(t, al));
}

/// An insert of a new key leaves a spacious tree spacious.
pub proof fn lemma_insert_spacious(t: Btree, new: Btree, k: BtreeKey, v: BchVal, seq: u64)
    requires
        spacious(t),
        t.can_grow(),
        is_new_key(t, k),
        k.key_type != KeyType::Deleted,
        t.was_inserted(new, k, v, seq, true),
    ensures
        spacious(new),
{
    let al = choose|al: Layout| #[trigger]
        laid(t, al, no_gap()) && tidy_leaves(t, al) && all_roomy(t, al);
    let x = EntryView::extent(k, v);
    lemma_descent(t, al, k, t.root.depth as int);
    lemma_inserted(t, new, al, k, v, seq);
    let al2 = choose|al2: Layout| #[trigger] leaves_wrote(t, al, new, al2, x);
    lemma_extent_size(k, v);
    assert(laid(new, al2, no_gap()) && tidy_leaves(new, al2) && all_roomy(new, al2));
}

/// An insert into a spacious tree does not fail, unless another change is under
/// way.
#[verifier::rlimit(40)]
pub proof fn lemma_insert_succeeds(t: Btree, new: Btree, k: BtreeKey, v: BchVal, seq: u64, r: bool)
    requires
        spacious(t),
        t.can_grow(),
        !t.write_blocked,
        !t.commit_lock,
        k.key_type != KeyType::Deleted,
        t.was_inserted(new, k, v, seq, r),
    ensures
        r,
{
    let al = choose|al: Layout| #[trigger]
        laid(t, al, no_gap()) && tidy_leaves(t, al) && all_roomy(t, al);
    let d = t.root.depth as int;
    let x = EntryView::extent(k, v);
    assert(roomy_at(t, al, d, k));
    let leaf = at(t, al, d, k);
    assert(tidy(leaf));
    lemma_descent(t, al, k, d);
    if !r {
        if d == 0 {
            let full = choose|full: Btree| #[trigger]
                t.root_full(full, true) && full.root_split_counted(new, Some((k, v)), seq, false);
            lemma_full_has_two(leaf, full.root.node);
            lemma_leaf_compacted(leaf, full.root.node);
        } else {
            let a = t.leaf_addr(k);
            assert(cached_at(t, al, d, k));
            let mid = choose|mid: Btree| #[trigger]
                t.leaf_step(mid, a, x, seq, LeafStep::NeedsSplit) && mid.leaf_was_split(
                    new,
                    a,
                    (k, v),
                    t.spec_path(k),
                    seq,
                    false,
                );
            let n = choose|n: BtreeNode|
                (if crate::tree_write::over_share(leaf) {
                    n == leaf
                } else {
                    leaf.full(n, 32, true)
                }) && #[trigger] t.node_replaced(mid, a, n, false);
            assert(put_leaf(t, mid, al, k, n));
            lemma_leaf_repacked(t, mid, al, k, n);
            assert(at(mid, al, d, k) == n);
            assert(n.live().len() >= 2) by {
                if crate::tree_write::over_share(leaf) {
                    lemma_narrow_total(leaf.all());
                    lemma_tidy_len(leaf);
                } else {
                    lemma_full_has_two(leaf, n);
                    lemma_leaf_compacted(leaf, n);
                }
            }
            let path = t.spec_path(k);
            assert forall|q: int| 0 <= q < path.len() implies #[trigger] path[q] == al.addr(q + 1, k) by {
                lemma_descent(t, al, k, q + 1);
            }
            assert forall|i: int, q: BtreeKey| 0 <= i < d implies #[trigger] roomy_at(
                mid,
                al,
                i,
                q,
            ) by {
                assert(roomy_at(t, al, i, q));
                if i > 0 {
                    assert(al.addr(i, q) != al.addr(d, k));
                }
            }
            lemma_leaf_split_succeeds(mid, new, al, k, v, path, seq, false);
        }
    }
}

/// All entries of a tidy node are live.
proof fn lemma_tidy_len(n: BtreeNode)
    requires
        tidy(n),
    ensures
        n.live().len() == n.all().len(),
{
    let es = n.all();
    let fs = n.live();
    lemma_live(es);
    assert forall|e: EntryView| #[trigger] fs.contains(e) <==> es.contains(e) by {
        lemma_settled_live(es, e);
    }
    assert(es.no_duplicates()) by {
        assert forall|i: int, j: int| 0 <= i < j < es.len() implies es[i] != es[j] by {
            assert(!es[i].key().same_slot(es[j].key()));
        }
    }
    es.unique_seq_to_set();
    fs.lemma_cardinality_of_set();
    assert(fs.to_set() =~= es.to_set());
}

/// Whether two trees hold the same.
pub open spec fn same_held(t: Btree, new: Btree) -> bool {
    forall|e: EntryView| #[trigger] held(new, e) <==> held(t, e)
}

/// A tree that is one leaf holds after a compaction what it held before, and
/// every lookup finds it.
pub proof fn lemma_compact_orderly(t: Btree, new: Btree)
    requires
        reachable(t),
        t.root.depth == 0,
        new.root.depth == 0,
        t.root.node.compacted_to(new.root.node),
        new.nodes() == t.nodes(),
        new.cache.next_addr == t.cache.next_addr,
    ensures
        orderly(new),
        same_held(t, new),
{
    let al = choose|al: Layout| #[trigger] laid(t, al, no_gap());
    let k = BtreeKey::spec_min_key();
    let n = new.root.node;
    assert(put_leaf(t, new, al, k, n));
    lemma_leaf_repacked(t, new, al, k, n);
    assert(good_at(t, al, 0, k));
    lemma_compacted_tidy(t.root.node, n);
    assert(tidy_leaves(new, al));
    assert forall|e: EntryView| #[trigger] held(new, e) <==> held(t, e) by {
        lemma_held(t, al, e);
        lemma_held(new, al, e);
        assert(at(new, al, 0, e.key()).live() == at(t, al, 0, e.key()).live());
    }
}

/// A split of a tree that is one leaf at a shard boundary keeps what it holds,
/// and every lookup finds it.
pub proof fn lemma_presplit_orderly(t: Btree, new: Btree)
    requires
        reachable(t),
        t.can_grow(),
        t.wants_presplit(),
        t.was_presplit(new),
    ensures
        orderly(new),
        same_held(t, new),
{
    let al = choose|al: Layout| #[trigger] laid(t, al, no_gap());
    let (left, right) = choose|left: BtreeNode, right: BtreeNode| #[trigger]
        t.root_split(new, None, 0, left, right);
    let n = t.root.node;
    let s = split_key(n);
    let la = t.cache.next_addr;
    let ra = (la + 1) as u64;
    assert(good_at(t, al, 0, s));
    lemma_leaf_cut(n, left, right, Some(0));
    lemma_tidy_root(new.root.node, n.level + 1, n.node_size, 0, la, s, ra);
    assert(put_root(t, new, new.root.node, left, right));
    lemma_root_layout(t, new, al, no_gap(), new.root.node, left, right, n.live()[0], s);
    let al2 = raised(al, s, la, ra);
    assert forall|k: BtreeKey| tidy(#[trigger] at(new, al2, 1, k)) by {
        assert(at(new, al2, 1, k) == half_of(left, right, s, k));
    }
    assert(laid(new, al2, no_gap()) && tidy_leaves(new, al2));
    assert forall|e: EntryView| #[trigger] held(new, e) <==> held(t, e) by {
        lemma_held(t, al, e);
        lemma_held(new, al2, e);
        assert(at(new, al2, 1, e.key()) == half_of(left, right, s, e.key()));
    }
}

} // verus!
