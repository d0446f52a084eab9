//! What merges and deletes leave to be found.

use crate::btree::Btree;
use crate::key::{ADDR48_LIMIT, Bpos, BtreeKey, EntryView, KeyType};
use crate::laws::lemma_last_in_index;
use crate::laws_map::{
    held, lemma_get_held, lemma_held, lemma_leaf_repacked, lemma_same_gets, lemma_same_laid,
    orderly, reachable, same_held, tidy_leaves,
};
use crate::laws_split::{lemma_routing_reads, lemma_settled_live, settled};
use crate::layout::{
    at, cached_at, good_at, kept_at, laid, lemma_descent, lemma_leaf_layout, linked_at, nested_at,
    no_gap, put_leaf, slot_at, Layout,
};
use crate::layout_merge::{
    join_ok, joined, lemma_collapse_layout, lemma_merge_layout, lowered, neighbours, put_joined,
};
use crate::merge::{addr_index, lemma_addr_index_range, spec_sibling};
use crate::node::BtreeNode;
use crate::node_delete::{lemma_last_in_at, lemma_newest_is_last, whiteout_last};
use crate::node_read::as_extent;
use crate::node_split::lemma_wf_same;
use crate::reroute::{lemma_addr_met, lemma_rerouted, replaces};
use crate::run::{last_in, lemma_live, live};
use crate::sort::{lemma_stable_sort, stable_sort};
use crate::tidy::{
    covers, is_best, leaf_ok, lemma_leaf_deleted, lemma_leaf_live_kind, lemma_live_in,
    lemma_narrow_total, lemma_pick, lemma_pick_is, lemma_settled_unique, lemma_tidy_compacted, pick,
    tidy,
};
use crate::tree_insert::routing;
use crate::walk::descent_addr;
use vstd::prelude::*;

verus! {

/// A node that absorbed another, with no slot in use in both, has the live
/// entries of both and nothing else.
proof fn lemma_absorbed(into: BtreeNode, from: BtreeNode, x: BtreeNode)
    requires
        leaf_ok(into),
        leaf_ok(from),
        into.spec_can_absorb(from),
        into.absorbed(x, from),
        forall|e: EntryView, f: EntryView|
            #![trigger into.all().contains(e), from.all().contains(f)]
            into.all().contains(e) && from.all().contains(f) ==> !e.key().same_slot(f.key()),
    ensures
        tidy(x),
        leaf_ok(x),
        x.live() == x.all(),
        forall|e: EntryView| #[trigger]
            x.all().contains(e) <==> into.live().contains(e) || from.live().contains(e),
{
    let a = into.live();
    let b = from.live();
    let es = a + b;
    lemma_live(into.all());
    lemma_live(from.all());
    assert forall|i: int| 0 <= i < es.len() implies (#[trigger] es[i]).key_type != KeyType::Deleted
        && es[i].u64s() == 4 by {
        if i < a.len() {
            assert(a.contains(a[i]));
            lemma_leaf_live_kind(into, a[i]);
        } else {
            assert(b.contains(b[i - a.len()]));
            lemma_leaf_live_kind(from, b[i - a.len()]);
        }
    }
    assert forall|i: int, j: int| 0 <= i < j < es.len() implies !(
    #[trigger] es[i]).key().same_slot((#[trigger] es[j]).key()) by {
        if j < a.len() {
            assert(a[i].key().lt(a[j].key()));
        } else if i >= a.len() {
            assert(b[i - a.len()].key().lt(b[j - a.len()].key()));
        } else {
            assert(a.contains(a[i]) && b.contains(b[j - a.len()]));
            lemma_live_in(into.all(), a[i]);
            lemma_live_in(from.all(), b[j - a.len()]);
        }
    }
    assert(settled(es));
    let fs = live(es);
    lemma_live(es);
    assert forall|e: EntryView| #[trigger] fs.contains(e) <==> a.contains(e) || b.contains(e) by {
        lemma_settled_live(es, e);
        if a.contains(e) {
            let j = choose|j: int| 0 <= j < a.len() && a[j] == e;
            assert(es[j] == e);
        }
        if b.contains(e) {
            let j = choose|j: int| 0 <= j < b.len() && b[j] == e;
            assert(es[a.len() + j] == e);
        }
        if es.contains(e) {
            let j = choose|j: int| 0 <= j < es.len() && es[j] == e;
            if j < a.len() {
                assert(a[j] == e);
            } else {
                assert(b[j - a.len()] == e);
            }
        }
    }
    assert forall|i: int| 0 <= i < fs.len() implies (#[trigger] fs[i]).key_type != KeyType::Deleted
        && fs[i].u64s() == 4 by {
        assert(fs.contains(fs[i]));
        if a.contains(fs[i]) {
            lemma_leaf_live_kind(into, fs[i]);
        } else {
            lemma_leaf_live_kind(from, fs[i]);
        }
    }
    assert forall|i: int, j: int| 0 <= i < j < fs.len() implies !(
    #[trigger] fs[i]).key().same_slot((#[trigger] fs[j]).key()) by {
        assert(fs[i].key().lt(fs[j].key()));
    }
    lemma_narrow_total(into.all());
    lemma_narrow_total(from.all());
    crate::node_compact::lemma_compact_idempotent(es);
}

/// Whether `new`, laid out without a gap, holds what `t` holds. Tidy leaves stay
/// tidy.
pub open spec fn leaves_kept(t: Btree, al: Layout, new: Btree, al2: Layout) -> bool {
    &&& laid(new, al2, no_gap())
    &&& forall|k: BtreeKey| #[trigger] leaf_same(t, al, new, al2, k)
    &&& tidy_leaves(t, al) ==> tidy_leaves(new, al2)
}

/// `leaves_kept`, with no level above `d` changed.
pub open spec fn kept_above(t: Btree, al: Layout, new: Btree, al2: Layout, d: int) -> bool {
    &&& leaves_kept(t, al, new, al2)
    &&& new.root.depth == t.root.depth
    &&& forall|i: int, k: BtreeKey| 0 < i < d ==> #[trigger] al2.addr(i, k) == al.addr(i, k)
}

/// Whether the leaf for `k` in `new` holds under `k` what that in `t` holds, and
/// has nothing else under it.
pub open spec fn leaf_same(t: Btree, al: Layout, new: Btree, al2: Layout, k: BtreeKey) -> bool {
    let m = at(t, al, t.root.depth as int, k);
    let n = at(new, al2, new.root.depth as int, k);
    &&& forall|e: EntryView|
        e.key() == k ==> (#[trigger] n.live().contains(e) <==> m.live().contains(e))
    &&& forall|e: EntryView|
        e.key() == k && #[trigger] n.all().contains(e) ==> m.all().contains(e)
}

/// A node above the leaves can be replaced by one with the same entries.
proof fn lemma_inner_repacked(t: Btree, new: Btree, al: Layout, d: int, k0: BtreeKey, n: BtreeNode)
    requires
        laid(t, al, no_gap()),
        1 <= d < t.root.depth,
        tidy(n),
        forall|e: EntryView| #[trigger]
            n.all().contains(e) <==> at(t, al, d, k0).all().contains(e),
        new.root.node == t.root.node,
        new.root.depth == t.root.depth,
        new.cache.next_addr == t.cache.next_addr,
        new.nodes() == t.nodes().insert(al.addr(d, k0), n),
    ensures
        laid(new, al, no_gap()),
        forall|k: BtreeKey| #[trigger]
            at(new, al, t.root.depth as int, k) == at(t, al, t.root.depth as int, k),
{
    let dd = t.root.depth as int;
    let h = no_gap();
    let a = al.addr(d, k0);
    assert(good_at(t, al, d, k0));
    assert forall|i: int, k: BtreeKey| 0 <= i <= dd implies #[trigger] at(new, al, i, k) == (if i
        == d && al.addr(i, k) == a {
        n
    } else {
        at(t, al, i, k)
    }) by {
        if i >= 1 && i < d {
            assert(al.addr(i, k) != al.addr(d, k0));
        } else if i > d {
            assert(al.addr(d, k0) != al.addr(i, k));
        }
    }
    assert forall|i: int, k: BtreeKey| 0 <= i < dd implies covers(
        #[trigger] at(new, al, i, k),
        k,
    ) && pick(at(new, al, i, k), k) == pick(at(t, al, i, k), k) by {
        assert(good_at(t, al, i, k));
        let p = at(t, al, i, k);
        if i == d && al.addr(i, k) == a {
            assert(p == at(t, al, d, k0));
            lemma_pick(p, k);
            assert(is_best(n.all(), k, pick(p, k)));
            lemma_pick_is(n, k, pick(p, k));
        }
    }
    assert forall|i: int, k: BtreeKey| 1 <= i <= dd implies #[trigger] cached_at(new, al, i, k) by {
        assert(cached_at(t, al, i, k));
    }
    assert forall|i: int, k: BtreeKey| 0 <= i <= dd implies #[trigger] good_at(new, al, i, k) by {
        assert(good_at(t, al, i, k));
        assert(at(new, al, i, k) == at(new, al, i, k));
    }
    assert forall|i: int, k: BtreeKey| 1 <= i <= dd implies #[trigger] kept_at(new, al, i, k) by {
        assert(kept_at(t, al, i, k));
        assert(kept_at(t, al, d, k0));
    }
    assert forall|i: int, k: BtreeKey, k2: BtreeKey| 1 <= i <= dd implies #[trigger] nested_at(
        new,
        al,
        h,
        i,
        k,
        k2,
    ) by {
        assert(nested_at(t, al, h, i, k, k2));
        assert(pick(at(new, al, i - 1, k), k) == pick(at(t, al, i - 1, k), k));
        assert(pick(at(new, al, i - 1, k2), k2) == pick(at(t, al, i - 1, k2), k2));
    }
    assert forall|i: int, k: BtreeKey| 1 <= i <= dd implies #[trigger] linked_at(new, al, h, i, k) by {
        assert(linked_at(t, al, h, i, k));
        assert(pick(at(new, al, i - 1, k), k) == pick(at(t, al, i - 1, k), k));
    }
}

/// Leaves that are as they were are tidy as they were.
proof fn lemma_tidy_same(t: Btree, al: Layout, new: Btree, al2: Layout)
    requires
        forall|k: BtreeKey| #[trigger]
            at(new, al2, new.root.depth as int, k) == at(t, al, t.root.depth as int, k),
    ensures
        tidy_leaves(t, al) ==> tidy_leaves(new, al2),
{
    if tidy_leaves(t, al) {
        assert forall|k: BtreeKey| tidy(#[trigger] at(new, al2, new.root.depth as int, k)) by {
            assert(tidy(at(t, al, t.root.depth as int, k)));
        }
    }
}

/// A node that was compacted, on any level below the root.
proof fn lemma_node_repacked(t: Btree, new: Btree, al: Layout, d: int, k0: BtreeKey, n: BtreeNode)
    requires
        laid(t, al, no_gap()),
        1 <= d <= t.root.depth,
        at(t, al, d, k0).compacted_to(n),
        new.root.node == t.root.node,
        new.root.depth == t.root.depth,
        new.cache.next_addr == t.cache.next_addr,
        new.nodes() == t.nodes().insert(al.addr(d, k0), n),
    ensures
        leaves_kept(t, al, new, al),
{
    let dd = t.root.depth as int;
    assert(good_at(t, al, d, k0));
    if d < dd {
        lemma_tidy_compacted(at(t, al, d, k0), n);
        lemma_inner_repacked(t, new, al, d, k0, n);
        assert forall|k: BtreeKey| #[trigger] leaf_same(t, al, new, al, k) by {
            assert(at(new, al, dd, k) == at(t, al, dd, k));
        }
        lemma_tidy_same(t, al, new, al);
    } else {
        assert(put_leaf(t, new, al, k0, n));
        lemma_leaf_repacked(t, new, al, k0, n);
        assert forall|k: BtreeKey| #[trigger] leaf_same(t, al, new, al, k) by {
            let n2 = at(new, al, dd, k);
            assert(n2.live() == at(t, al, dd, k).live());
            assert forall|e: EntryView| e.key() == k && #[trigger] n2.all().contains(e) implies at(
                t,
                al,
                dd,
                k,
            ).all().contains(e) by {
                assert(at(new, al, dd, k).all().contains(e));
            }
        }
    }
}

/// Addresses in entries have 48 bits.
proof fn lemma_addr_bound(e: EntryView)
    ensures
        e.bch_val().paddr.addr < ADDR48_LIMIT,
{
    crate::le::lemma_pow256_values();
    let full = crate::key::pad_to(e.value, 8);
    crate::le::lemma_le_val_bound(full.subrange(0, 6));
}

/// Every entry of the node above level `d` leads its own key to its child, and
/// no two lead to the same one.
pub proof fn lemma_own_child(t: Btree, al: Layout, d: int, k0: BtreeKey, y: EntryView)
    requires
        laid(t, al, no_gap()),
        1 <= d <= t.root.depth,
        at(t, al, d - 1, k0).all().contains(y),
    ensures
        d == 1 || al.addr(d - 1, y.key()) == al.addr(d - 1, k0),
        at(t, al, d - 1, y.key()) == at(t, al, d - 1, k0),
        pick(at(t, al, d - 1, k0), y.key()) == y,
        al.addr(d, y.key()) == y.bch_val().paddr.addr,
{
    let p = at(t, al, d - 1, k0);
    assert(good_at(t, al, d - 1, k0));
    if d > 1 {
        assert(kept_at(t, al, d - 1, k0));
    }
    assert(is_best(p.all(), y.key(), y));
    lemma_pick_is(p, y.key(), y);
    assert(linked_at(t, al, no_gap(), d, y.key()));
}

proof fn lemma_one_entry(t: Btree, al: Layout, d: int, k0: BtreeKey, y: EntryView, z: EntryView)
    requires
        laid(t, al, no_gap()),
        1 <= d <= t.root.depth,
        at(t, al, d - 1, k0).all().contains(y),
        at(t, al, d - 1, k0).all().contains(z),
        y.bch_val().paddr.addr == z.bch_val().paddr.addr,
    ensures
        y == z,
{
    lemma_own_child(t, al, d, k0, y);
    lemma_own_child(t, al, d, k0, z);
    assert(nested_at(t, al, no_gap(), d, y.key(), z.key()));
}

/// Whether `a` is the node for `k0` on level `d`, below `ancestors`.
pub open spec fn on_path(
    t: Btree,
    al: Layout,
    d: int,
    k0: BtreeKey,
    a: u64,
    ancestors: Seq<u64>,
) -> bool {
    &&& 1 <= d <= t.root.depth
    &&& a == al.addr(d, k0)
    &&& ancestors.len() == d - 1
    &&& forall|q: int| 0 <= q < d - 1 ==> #[trigger] ancestors[q] == al.addr(q + 1, k0)
}

/// The routing entry for the node at `a`.
pub open spec fn entry_for(t: Btree, al: Layout, d: int, k0: BtreeKey) -> EntryView {
    pick(at(t, al, d - 1, k0), k0)
}

/// What the neighbour in key order of a child is.
#[verifier::rlimit(40)]
proof fn lemma_sibling(
    t: Btree,
    al: Layout,
    d: int,
    k0: BtreeKey,
    y: EntryView,
    z: EntryView,
    is_left: bool,
)
    requires
        laid(t, al, no_gap()),
        1 <= d <= t.root.depth,
        at(t, al, d - 1, k0).all().contains(y),
        ({
            let p = at(t, al, d - 1, k0);
            let s = stable_sort(p.all(), false);
            let i = addr_index(s, y.bch_val().paddr.addr);
            if is_left {
                0 < i < s.len() && z == s[i - 1]
            } else {
                i + 1 < s.len() && z == s[i + 1]
            }
        }),
    ensures
        ({
            let p = at(t, al, d - 1, k0);
            let (l, r) = if is_left {
                (z, y)
            } else {
                (y, z)
            };
            &&& p.all().contains(z)
            &&& l.key().lt(r.key())
            &&& forall|e: EntryView| #[trigger]
                p.all().contains(e) ==> !(l.key().lt(e.key()) && e.key().lt(r.key()))
            &&& spec_sibling(p, z.bch_val().paddr.addr, !is_left) matches Some((_k, b)) && b
                == y.bch_val().paddr.addr
        }),
{
    let p = at(t, al, d - 1, k0);
    let es = p.all();
    let s = stable_sort(es, false);
    let a = y.bch_val().paddr.addr;
    let i = addr_index(s, a);
    lemma_stable_sort(es, false);
    lemma_addr_index_range(s, a);
    crate::laws_split::lemma_addr_found(s, a);
    assert(s.contains(s[i]));
    lemma_one_entry(t, al, d, k0, s[i], y);
    let j = if is_left {
        i - 1
    } else {
        i + 1
    };
    assert(s.contains(s[j]));
    assert(good_at(t, al, d - 1, k0));
    let (lo, hi) = if is_left {
        (j, i)
    } else {
        (i, j)
    };
    assert(!crate::sort::before(s[hi], s[lo], false));
    assert(s[lo] != s[hi]) by {
        if s[lo] == s[hi] {
            lemma_sorted_twice(es, lo, hi);
        }
    }
    if s[lo].key().same_slot(s[hi].key()) {
        lemma_settled_unique(es, s[lo], s[hi]);
    }
    assert forall|e: EntryView| #[trigger] es.contains(e) implies !(s[lo].key().lt(e.key())
        && e.key().lt(s[hi].key())) by {
        assert(s.contains(e));
        let q = choose|q: int| 0 <= q < s.len() && s[q] == e;
        if q < lo {
            assert(!crate::sort::before(s[lo], s[q], false));
        } else if q > hi {
            assert(!crate::sort::before(s[q], s[hi], false));
        }
    }
    let b = z.bch_val().paddr.addr;
    lemma_addr_met(s, b, j);
    lemma_addr_index_range(s, b);
    crate::laws_split::lemma_addr_found(s, b);
    let w = addr_index(s, b);
    assert(s.contains(s[w]));
    lemma_one_entry(t, al, d, k0, s[w], z);
    assert(w == j) by {
        if w < j {
            lemma_sorted_twice(es, w, j);
        }
    }
    assert(p.key_count > 0);
}

/// Sorting a settled run repeats no entry.
proof fn lemma_sorted_twice(es: Seq<EntryView>, i: int, j: int)
    requires
        settled(es),
        0 <= i < j < es.len(),
    ensures
        stable_sort(es, false)[i] != stable_sort(es, false)[j],
{
    let s = stable_sort(es, false);
    lemma_stable_sort(es, false);
    assert(es.no_duplicates()) by {
        assert forall|x: int, y: int| 0 <= x < y < es.len() implies es[x] != es[y] by {
            assert(!es[x].key().same_slot(es[y].key()));
        }
    }
    es.unique_seq_to_set();
    s.lemma_cardinality_of_set();
    assert(s.to_set() =~= es.to_set());
    s.lemma_no_dup_set_cardinality();
}

/// The parent of a node on a path.
proof fn lemma_parent(t: Btree, al: Layout, d: int, k0: BtreeKey, a: u64, ancestors: Seq<u64>)
    requires
        laid(t, al, no_gap()),
        on_path(t, al, d, k0, a, ancestors),
    ensures
        t.parent_of(ancestors) == Some(at(t, al, d - 1, k0)),
        at(t, al, d - 1, k0).all().contains(entry_for(t, al, d, k0)),
        entry_for(t, al, d, k0).bch_val().paddr.addr == a,
        d > 1 ==> ancestors.last() == al.addr(d - 1, k0),
{
    assert(good_at(t, al, d - 1, k0));
    lemma_pick(at(t, al, d - 1, k0), k0);
    assert(linked_at(t, al, no_gap(), d, k0));
    if d > 1 {
        assert(ancestors[d - 2] == al.addr(d - 1, k0));
        assert(cached_at(t, al, d - 1, k0));
    }
}

/// The routing entry for the neighbour that a node is merged with.
pub open spec fn is_partner(
    t: Btree,
    al: Layout,
    d: int,
    k0: BtreeKey,
    z: EntryView,
    right: bool,
) -> bool {
    let p = at(t, al, d - 1, k0);
    let y = entry_for(t, al, d, k0);
    let (l, r) = if right {
        (y, z)
    } else {
        (z, y)
    };
    &&& p.all().contains(z)
    &&& l.key().lt(r.key())
    &&& forall|e: EntryView| #[trigger]
        p.all().contains(e) ==> !(l.key().lt(e.key()) && e.key().lt(r.key()))
}

/// The neighbour that a node is merged with, whose neighbour on the side of the
/// node is the node itself.
proof fn lemma_partner(
    t: Btree,
    al: Layout,
    d: int,
    k0: BtreeKey,
    a: u64,
    ancestors: Seq<u64>,
    s: u64,
    right: bool,
) -> (z: EntryView)
    requires
        laid(t, al, no_gap()),
        on_path(t, al, d, k0, a, ancestors),
        t.merge_partner(a, ancestors) == Some((s, right)),
    ensures
        is_partner(t, al, d, k0, z, right),
        z.bch_val().paddr.addr == s,
        t.third_addr(ancestors, s, right) == Some(a),
{
    lemma_parent(t, al, d, k0, a, ancestors);
    let p = at(t, al, d - 1, k0);
    let y = entry_for(t, al, d, k0);
    let ss = stable_sort(p.all(), false);
    let i = addr_index(ss, a);
    let z = if right {
        ss[i + 1]
    } else {
        ss[i - 1]
    };
    lemma_addr_index_range(ss, a);
    lemma_sibling(t, al, d, k0, y, z, !right);
    z
}

/// Whether `yl` and `yr` are routing entries next to each other in the node
/// above level `d` for `k0`.
pub open spec fn next_entries(
    t: Btree,
    al: Layout,
    d: int,
    k0: BtreeKey,
    yl: EntryView,
    yr: EntryView,
) -> bool {
    let p = at(t, al, d - 1, k0);
    &&& 1 <= d <= t.root.depth
    &&& p.all().contains(yl)
    &&& p.all().contains(yr)
    &&& yl.key().lt(yr.key())
    &&& forall|e: EntryView| #[trigger]
        p.all().contains(e) ==> !(yl.key().lt(e.key()) && e.key().lt(yr.key()))
}

/// The children of two routing entries next to each other are neighbours.
proof fn lemma_next_entries(
    t: Btree,
    al: Layout,
    d: int,
    k0: BtreeKey,
    yl: EntryView,
    yr: EntryView,
)
    requires
        laid(t, al, no_gap()),
        next_entries(t, al, d, k0, yl, yr),
    ensures
        neighbours(t, al, d, yl.key(), yr.key()),
        al.addr(d, yl.key()) == yl.bch_val().paddr.addr,
        al.addr(d, yr.key()) == yr.bch_val().paddr.addr,
        al.addr(d, yl.key()) != al.addr(d, yr.key()),
        d > 1 ==> al.addr(d - 1, yl.key()) == al.addr(d - 1, k0),
        at(t, al, d - 1, yl.key()) == at(t, al, d - 1, k0),
        pick(at(t, al, d - 1, k0), yl.key()) == yl,
        pick(at(t, al, d - 1, k0), yr.key()) == yr,
{
    lemma_own_child(t, al, d, k0, yl);
    lemma_own_child(t, al, d, k0, yr);
    if al.addr(d, yl.key()) == al.addr(d, yr.key()) {
        lemma_one_entry(t, al, d, k0, yl, yr);
    }
}

/// What came of one of two neighbours that absorbed the other.
proof fn lemma_pair_node(
    t: Btree,
    al: Layout,
    d: int,
    k1: BtreeKey,
    k2: BtreeKey,
    into: BtreeNode,
    from: BtreeNode,
    x: BtreeNode,
)
    requires
        laid(t, al, no_gap()),
        1 <= d <= t.root.depth,
        al.addr(d, k1) != al.addr(d, k2),
        repacked_from(at(t, al, d, k1), into),
        repacked_from(at(t, al, d, k2), from),
        into.spec_can_absorb(from),
        into.absorbed(x, from),
    ensures
        tidy(x),
        leaf_ok(x),
        x.live() == x.all(),
        forall|z: EntryView| #[trigger]
            x.all().contains(z) <==> at(t, al, d, k1).live().contains(z) || at(
                t,
                al,
                d,
                k2,
            ).live().contains(z),
        forall|z: EntryView| #[trigger]
            x.all().contains(z) ==> at(t, al, d, k1).all().contains(z) || at(
                t,
                al,
                d,
                k2,
            ).all().contains(z),
        d < t.root.depth ==> forall|z: EntryView|
            at(t, al, d, k1).all().contains(z) || at(t, al, d, k2).all().contains(z)
                ==> #[trigger] x.all().contains(z),
{
    let m1 = at(t, al, d, k1);
    let m2 = at(t, al, d, k2);
    assert(good_at(t, al, d, k1) && good_at(t, al, d, k2));
    assert(kept_at(t, al, d, k1) && kept_at(t, al, d, k2));
    lemma_repacked(m1, into);
    lemma_repacked(m2, from);
    assert forall|e: EntryView, f: EntryView|
        #![trigger into.all().contains(e), from.all().contains(f)]
        into.all().contains(e) && from.all().contains(f) implies !e.key().same_slot(f.key()) by {
        assert(slot_at(al, d, e.key(), f.key()));
    }
    lemma_absorbed(into, from, x);
    assert forall|z: EntryView| #[trigger] x.all().contains(z) implies m1.all().contains(z)
        || m2.all().contains(z) by {
        if into.live().contains(z) {
            lemma_live_in(into.all(), z);
        } else {
            lemma_live_in(from.all(), z);
        }
    }
    if d < t.root.depth {
        assert forall|z: EntryView| m1.all().contains(z) || m2.all().contains(z) implies
            #[trigger] x.all().contains(z) by {
            lemma_settled_live(m1.all(), z);
            lemma_settled_live(m2.all(), z);
        }
    }
}

/// What came of the node above two neighbours that became one.
#[verifier::rlimit(40)]
proof fn lemma_pair_parent(
    t: Btree,
    mid: Btree,
    new: Btree,
    al: Layout,
    d: int,
    k0: BtreeKey,
    ancestors: Seq<u64>,
    yl: EntryView,
    yr: EntryView,
    survivor: EntryView,
    gone: EntryView,
    x: BtreeNode,
    r: bool,
) -> (n: BtreeNode)
    requires
        laid(t, al, no_gap()),
        next_entries(t, al, d, k0, yl, yr),
        ancestors.len() == d - 1,
        d > 1 ==> ancestors.last() == al.addr(d - 1, k0),
        (survivor == yl && gone == yr) || (survivor == yr && gone == yl),
        mid.root == t.root,
        mid.cache.next_addr == t.cache.next_addr,
        mid.nodes() == t.nodes().remove(al.addr(d, yl.key())).remove(al.addr(d, yr.key())).insert(
            survivor.bch_val().paddr.addr,
            x,
        ),
        mid.routing_merged(
            new,
            ancestors,
            survivor.bch_val().paddr.addr,
            gone.bch_val().paddr.addr,
            r,
        ),
    ensures
        tidy(n),
        replaces(
            at(t, al, d - 1, k0),
            n,
            yl,
            yr,
            routing(yl.key(), survivor.bch_val().paddr.addr),
        ),
        put_joined(
            t,
            new,
            al,
            d,
            yl.key(),
            yr.key(),
            survivor.bch_val().paddr.addr,
            x,
            n,
        ),
{
    let kl = yl.key();
    let kr = yr.key();
    let p = at(t, al, d - 1, k0);
    let sv = survivor.bch_val().paddr.addr;
    let gn = gone.bch_val().paddr.addr;
    lemma_next_entries(t, al, d, k0, yl, yr);
    assert(good_at(t, al, d - 1, k0));
    assert forall|e: EntryView| #[trigger]
        p.all().contains(e) && e.bch_val().paddr.addr == gn implies e == gone by {
        lemma_one_entry(t, al, d, k0, e, gone);
    }
    assert forall|e: EntryView| #[trigger]
        p.all().contains(e) && e.bch_val().paddr.addr == sv implies e == survivor by {
        lemma_one_entry(t, al, d, k0, e, survivor);
    }
    if d == 1 {
        let q = choose|q: Seq<BtreeNode>| #[trigger]
            mid.root.node.rerouted_after_merge(new.root.node, q, sv, gn, r);
        lemma_rerouted(p, new.root.node, q, sv, gn, r, gone, survivor);
        new.root.node
    } else {
        let pa = al.addr(d - 1, k0);
        assert(cached_at(t, al, d - 1, k0));
        assert(al.addr(d - 1, k0) != al.addr(d, kl) && al.addr(d - 1, k0) != al.addr(d, kr));
        assert(mid.nodes().contains_key(pa) && mid.nodes()[pa] == p);
        let (n, q) = choose|n: BtreeNode, q: Seq<BtreeNode>|
            mid.nodes()[pa].rerouted_after_merge(n, q, sv, gn, r) && #[trigger] mid.replaced_via(
                new,
                pa,
                n,
                q,
            );
        lemma_rerouted(p, n, q, sv, gn, r, gone, survivor);
        n
    }
}

/// Two neighbours, one of them compacted, were taken out and one absorbed the
/// other, with the parent brought up to date.
#[verifier::rlimit(40)]
proof fn lemma_pair_absorbed(
    t: Btree,
    mid: Btree,
    new: Btree,
    al: Layout,
    d: int,
    k0: BtreeKey,
    ancestors: Seq<u64>,
    yl: EntryView,
    yr: EntryView,
    survivor: EntryView,
    gone: EntryView,
    into: BtreeNode,
    from: BtreeNode,
    r: bool,
)
    requires
        laid(t, al, no_gap()),
        next_entries(t, al, d, k0, yl, yr),
        ancestors.len() == d - 1,
        d > 1 ==> ancestors.last() == al.addr(d - 1, k0),
        (survivor == yl && gone == yr) || (survivor == yr && gone == yl),
        repacked_from(at(t, al, d, survivor.key()), into),
        repacked_from(at(t, al, d, gone.key()), from),
        into.spec_can_absorb(from),
        mid.root == t.root,
        mid.cache.next_addr == t.cache.next_addr,
        mid.nodes() =~= t.nodes().remove(yl.bch_val().paddr.addr).remove(yr.bch_val().paddr.addr),
        mid.absorbed_and_routed(
            new,
            ancestors,
            survivor.bch_val().paddr.addr,
            into,
            gone.bch_val().paddr.addr,
            from,
            r,
        ),
    ensures
        exists|al2: Layout| #[trigger] kept_above(t, al, new, al2, d),
{
    reveal(Btree::absorbed_and_routed);
    let kl = yl.key();
    let kr = yr.key();
    let sv = survivor.bch_val().paddr.addr;
    let gn = gone.bch_val().paddr.addr;
    let (mid2, x) = choose|mid2: Btree, x: BtreeNode| #[trigger]
        mid.absorbed_put(mid2, sv, into, from, x) && mid2.routing_merged(
            new,
            ancestors,
            sv,
            gn,
            r,
        );
    lemma_next_entries(t, al, d, k0, yl, yr);
    lemma_pair_node(t, al, d, survivor.key(), gone.key(), into, from, x);
    let n = lemma_pair_parent(
        t,
        mid2,
        new,
        al,
        d,
        k0,
        ancestors,
        yl,
        yr,
        survivor,
        gone,
        x,
        r,
    );
    let e = routing(kl, sv);
    lemma_addr_bound(survivor);
    lemma_routing_reads(kl, sv);
    lemma_joined_kept(t, new, al, d, kl, kr, sv, x, n, e);
    assert(kept_above(t, al, new, joined(al, d, al.addr(d, kl), al.addr(d, kr), sv), d));
}

/// A node that has the live entries of two neighbours in place of them keeps
/// what the tree holds.
#[verifier::rlimit(40)]
proof fn lemma_joined_kept(
    t: Btree,
    new: Btree,
    al: Layout,
    d: int,
    kl: BtreeKey,
    kr: BtreeKey,
    sv: u64,
    x: BtreeNode,
    n: BtreeNode,
    e: EntryView,
)
    requires
        join_ok(t, new, al, d, kl, kr, sv, x, n, e),
        al.addr(d, kl) != al.addr(d, kr),
        tidy(x),
        x.live() == x.all(),
        forall|z: EntryView| #[trigger]
            x.all().contains(z) <==> at(t, al, d, kl).live().contains(z) || at(
                t,
                al,
                d,
                kr,
            ).live().contains(z),
    ensures
        kept_above(t, al, new, joined(al, d, al.addr(d, kl), al.addr(d, kr), sv), d),
{
    let al2 = joined(al, d, al.addr(d, kl), al.addr(d, kr), sv);
    let dd = t.root.depth as int;
    let nl = at(t, al, d, kl);
    let nr = at(t, al, d, kr);
    lemma_merge_layout(t, new, al, d, kl, kr, sv, x, n, e);
    assert(kept_at(t, al, d, kl) && kept_at(t, al, d, kr));
    assert forall|k: BtreeKey| #[trigger] leaf_same(t, al, new, al2, k) by {
        let m = at(t, al, dd, k);
        assert(at(new, al2, dd, k) == (if d == dd && (al.addr(d, k) == al.addr(d, kl) || al.addr(d, k) == al.addr(d, kr)) {
            x
        } else {
            m
        }));
        if d == dd && (al.addr(d, k) == al.addr(d, kl) || al.addr(d, k) == al.addr(d, kr)) {
            assert forall|z: EntryView| z.key() == k implies (#[trigger] x.live().contains(z)
                <==> m.live().contains(z)) by {
                // An entry under `k` is live in no other leaf.
                if nl.live().contains(z) {
                    lemma_live_in(nl.all(), z);
                }
                if nr.live().contains(z) {
                    lemma_live_in(nr.all(), z);
                }
            }
            assert forall|z: EntryView| z.key() == k && #[trigger] x.all().contains(z) implies
                m.all().contains(z) by {
                assert(nl.all().contains(z) || nr.all().contains(z));
            }
        }
    }
    if tidy_leaves(t, al) {
        assert forall|k: BtreeKey| tidy(#[trigger] at(new, al2, dd, k)) by {
            assert(tidy(at(t, al, dd, k)));
        }
    }
}

/// Whether `n` is `m`, as it was or compacted.
pub open spec fn repacked_from(m: BtreeNode, n: BtreeNode) -> bool {
    n == m || m.compacted_to(n)
}

/// A node holds what it held when it is compacted.
proof fn lemma_repacked(m: BtreeNode, n: BtreeNode)
    requires
        leaf_ok(m),
        repacked_from(m, n),
    ensures
        leaf_ok(n),
        n.live() == m.live(),
        forall|e: EntryView| #[trigger] n.all().contains(e) ==> m.all().contains(e),
{
    if n != m {
        crate::tidy::lemma_leaf_compacted(m, n);
    }
}

/// A tree with the same nodes holds the same.
proof fn lemma_same_kept(t: Btree, new: Btree, al: Layout, d: int)
    requires
        laid(t, al, no_gap()),
        new.root.node == t.root.node,
        new.root.depth == t.root.depth,
        new.nodes() == t.nodes(),
        new.cache.next_addr == t.cache.next_addr,
    ensures
        kept_above(t, al, new, al, d),
{
    lemma_same_laid(t, new, al, no_gap());
    let dd = t.root.depth as int;
    assert forall|k: BtreeKey| #[trigger] leaf_same(t, al, new, al, k) by {
        assert(at(new, al, dd, k) == at(t, al, dd, k));
    }
    lemma_tidy_same(t, al, new, al);
}

/// What is kept twice is kept.
proof fn lemma_kept_twice(t: Btree, al: Layout, mid: Btree, al2: Layout, new: Btree, al3: Layout)
    requires
        leaves_kept(t, al, mid, al2),
        leaves_kept(mid, al2, new, al3),
    ensures
        leaves_kept(t, al, new, al3),
{
    assert forall|k: BtreeKey| #[trigger] leaf_same(t, al, new, al3, k) by {
        assert(leaf_same(t, al, mid, al2, k));
        assert(leaf_same(mid, al2, new, al3, k));
    }
}

/// A node that was taken out, compacted and put back with its neighbour.
proof fn lemma_pair_put_back(
    t: Btree,
    mid: Btree,
    new: Btree,
    al: Layout,
    d: int,
    k0: BtreeKey,
    n: BtreeNode,
    s: u64,
)
    requires
        laid(t, al, no_gap()),
        1 <= d <= t.root.depth,
        t.pair_taken(mid, al.addr(d, k0), n, s),
        s != al.addr(d, k0),
        t.nodes().contains_key(s),
        mid.pair_put_back(new, al.addr(d, k0), n, s, t.nodes()[s]),
    ensures
        kept_above(t, al, new, al, d),
{
    let a = al.addr(d, k0);
    assert(cached_at(t, al, d, k0));
    assert(new.nodes() =~= t.nodes().insert(a, n));
    lemma_node_repacked(t, new, al, d, k0, n);
}

/// Trying to merge a node with its neighbour keeps what the tree holds.
#[verifier::rlimit(40)]
proof fn lemma_merge_tried(
    t: Btree,
    new: Btree,
    al: Layout,
    d: int,
    k0: BtreeKey,
    a: u64,
    ancestors: Seq<u64>,
    r: bool,
)
    requires
        laid(t, al, no_gap()),
        on_path(t, al, d, k0, a, ancestors),
        t.merge_tried(new, a, ancestors, r),
    ensures
        exists|al2: Layout| #[trigger] kept_above(t, al, new, al2, d),
{
    assert(cached_at(t, al, d, k0));
    let same = t.same_nodes(new);
    if same {
        lemma_same_kept(t, new, al, d);
    } else if t.only_compacted(new, a) {
        let n = choose|n: BtreeNode|
            t.nodes()[a].compacted_to(n) && #[trigger] t.node_replaced(new, a, n, false);
        lemma_node_repacked(t, new, al, d, k0, n);
        assert(kept_above(t, al, new, al, d));
    } else {
        let (s, right) = t.merge_partner(a, ancestors)->0;
        let (mid, n) = choose|mid: Btree, n: BtreeNode| #[trigger]
            t.pair_taken(mid, a, n, s) && mid.merged_with(
                new,
                ancestors,
                a,
                n,
                s,
                t.nodes()[s],
                right,
                r,
            );
        let z = lemma_partner(t, al, d, k0, a, ancestors, s, right);
        lemma_parent(t, al, d, k0, a, ancestors);
        let y = entry_for(t, al, d, k0);
        lemma_own_child(t, al, d, k0, y);
        lemma_own_child(t, al, d, k0, z);
        let sib = t.nodes()[s];
        assert(at(t, al, d, y.key()) == t.nodes()[a]);
        assert(at(t, al, d, z.key()) == sib);
        assert(t.nodes().remove(a).remove(s) =~= t.nodes().remove(s).remove(a));
        if right && sib.spec_can_absorb(n) {
            lemma_pair_absorbed(t, mid, new, al, d, k0, ancestors, y, z, z, y, sib, n, r);
        } else if !right && n.spec_can_absorb(sib) {
            lemma_pair_absorbed(t, mid, new, al, d, k0, ancestors, z, y, y, z, n, sib, r);
        } else {
            if !crate::tree_merge::backs_off(n, sib, right) {
                reveal(Btree::three_merged);
                // The other neighbour of the neighbour is the node itself.
                if d > 1 {
                    assert(cached_at(t, al, d - 1, k0));
                    assert(al.addr(d - 1, k0) != al.addr(d, y.key()) && al.addr(d - 1, k0) != al.addr(d, z.key()));
                }
                assert(mid.parent_of(ancestors) == t.parent_of(ancestors));
                assert(mid.third_addr(ancestors, s, right) == Some(a));
            }
            lemma_pair_put_back(t, mid, new, al, d, k0, n, s);
        }
    }
}

/// Merging the nodes of a path upwards keeps what the tree holds.
proof fn lemma_cascaded(
    t: Btree,
    new: Btree,
    al: Layout,
    k0: BtreeKey,
    path: Seq<u64>,
    level: int,
)
    requires
        laid(t, al, no_gap()),
        1 <= level,
        path.len() == t.root.depth - 1,
        forall|q: int| 0 <= q <= path.len() - level ==> #[trigger] path[q] == al.addr(q + 1, k0),
        t.cascaded(new, path, level),
    ensures
        exists|al2: Layout| #[trigger] leaves_kept(t, al, new, al2),
    decreases path.len() + 1 - level,
{
    if level > path.len() {
        lemma_same_kept(t, new, al, 0);
    } else {
        let i = path.len() - level;
        let d = i + 1;
        let (mid, r) = choose|mid: Btree, r: bool| #[trigger]
            t.merge_tried(mid, path[i], path.take(i), r) && (if r {
                mid.cascaded(new, path, level + 1)
            } else {
                new == mid
            });
        let anc = path.take(i);
        assert forall|q: int| 0 <= q < d - 1 implies #[trigger] anc[q] == al.addr(q + 1, k0) by {
            assert(anc[q] == path[q]);
        }
        assert(path[i] == al.addr(i + 1, k0));
        lemma_merge_tried(t, mid, al, d, k0, path[i], anc, r);
        let al2 = choose|al2: Layout| #[trigger] kept_above(t, al, mid, al2, d);
        if r {
            assert forall|q: int| 0 <= q <= path.len() - (level + 1) implies #[trigger] path[q]
                == al2.addr(q + 1, k0) by {
                assert(al2.addr(q + 1, k0) == al.addr(q + 1, k0));
            }
            lemma_cascaded(mid, new, al2, k0, path, level + 1);
            let al3 = choose|al3: Layout| #[trigger] leaves_kept(mid, al2, new, al3);
            lemma_kept_twice(t, al, mid, al2, new, al3);
        }
    }
}

/// Dropping roots with one child keeps what the tree holds.
proof fn lemma_fully_collapsed(t: Btree, new: Btree, al: Layout)
    requires
        laid(t, al, no_gap()),
        t.fully_collapsed(new),
    ensures
        exists|al2: Layout| #[trigger] leaves_kept(t, al, new, al2),
    decreases t.root.depth,
{
    let (mid, r) = choose|mid: Btree, r: bool| #[trigger]
        t.collapsed(mid, r) && (if r && mid.root.depth < t.root.depth {
            mid.fully_collapsed(new)
        } else {
            new == mid
        });
    let all = t.root.node.all();
    let child = all[0].bch_val().paddr.addr;
    if r {
        let dd = t.root.depth as int;
        assert forall|k: BtreeKey| #[trigger] al.addr(1, k) == child by {
            assert(good_at(t, al, 0, k));
            lemma_pick(t.root.node, k);
            let j = choose|j: int| 0 <= j < all.len() && all[j] == pick(t.root.node, k);
            assert(j == 0);
            assert(linked_at(t, al, no_gap(), 1, k));
        }
        lemma_collapse_layout(t, mid, al, child);
        let al2 = lowered(al);
        assert forall|k: BtreeKey| #[trigger] leaf_same(t, al, mid, al2, k) by {
            assert(at(mid, al2, mid.root.depth as int, k) == at(t, al, dd, k));
        }
        lemma_tidy_same(t, al, mid, al2);
        assert(leaves_kept(t, al, mid, al2));
        lemma_fully_collapsed(mid, new, al2);
        let al3 = choose|al3: Layout| #[trigger] leaves_kept(mid, al2, new, al3);
        lemma_kept_twice(t, al, mid, al2, new, al3);
    } else {
        lemma_same_kept(t, mid, al, 0);
    }
}

/// Merging a leaf and what is above it keeps what the tree holds.
proof fn lemma_merged_up(
    t: Btree,
    new: Btree,
    al: Layout,
    k0: BtreeKey,
    a: u64,
    path: Seq<u64>,
)
    requires
        laid(t, al, no_gap()),
        on_path(t, al, t.root.depth as int, k0, a, path),
        t.merged_up(new, a, path),
    ensures
        exists|al2: Layout| #[trigger] leaves_kept(t, al, new, al2),
{
    let d = t.root.depth as int;
    let (mid, r) = choose|mid: Btree, r: bool| #[trigger]
        t.merge_tried(mid, a, path, r) && (if r {
            exists|top: Btree| #[trigger] mid.cascaded(top, path, 1) && top.fully_collapsed(new)
        } else {
            new == mid
        });
    lemma_merge_tried(t, mid, al, d, k0, a, path, r);
    let al2 = choose|al2: Layout| #[trigger] kept_above(t, al, mid, al2, d);
    if r {
        let top = choose|top: Btree| #[trigger]
            mid.cascaded(top, path, 1) && top.fully_collapsed(new);
        assert forall|q: int| 0 <= q <= path.len() - 1 implies #[trigger] path[q] == al2.addr(
            q + 1,
            k0,
        ) by {
            assert(al2.addr(q + 1, k0) == al.addr(q + 1, k0));
        }
        lemma_cascaded(mid, top, al2, k0, path, 1);
        let al3 = choose|al3: Layout| #[trigger] leaves_kept(mid, al2, top, al3);
        lemma_fully_collapsed(top, new, al3);
        let al4 = choose|al4: Layout| #[trigger] leaves_kept(top, al3, new, al4);
        lemma_kept_twice(t, al, mid, al2, top, al3);
        lemma_kept_twice(t, al, top, al3, new, al4);
    }
}

/// Trying to merge a node that a lookup comes by with its neighbour keeps all
/// keys reachable, what the tree holds and what lookups give, the count and the
/// depth. An orderly tree stays orderly.
pub proof fn lemma_merge(
    t: Btree,
    new: Btree,
    k: BtreeKey,
    d: int,
    a: u64,
    ancestors: Seq<u64>,
    r: bool,
)
    requires
        reachable(t),
        1 <= d <= t.root.depth,
        a == descent_addr(t.nodes(), t.root.node, k, d),
        ancestors == Seq::new(
            (d - 1) as nat,
            |i: int| descent_addr(t.nodes(), t.root.node, k, i + 1),
        ),
        t.merge_tried(new, a, ancestors, r),
    ensures
        reachable(new),
        same_held(t, new),
        orderly(t) ==> orderly(new),
        forall|q: BtreeKey|
            q.key_type != KeyType::Deleted ==> #[trigger] new.tree_get(q) == t.tree_get(q),
        new.total_key_count == t.total_key_count,
        new.root.depth == t.root.depth,
{
    let al = if orderly(t) {
        choose|al: Layout| #[trigger] laid(t, al, no_gap()) && tidy_leaves(t, al)
    } else {
        choose|al: Layout| #[trigger] laid(t, al, no_gap())
    };
    lemma_descent(t, al, k, d);
    assert forall|q: int| 0 <= q < d - 1 implies #[trigger] ancestors[q] == al.addr(q + 1, k) by {
        lemma_descent(t, al, k, q + 1);
    }
    lemma_merge_tried(t, new, al, d, k, a, ancestors, r);
    let al2 = choose|al2: Layout| #[trigger] kept_above(t, al, new, al2, d);
    assert forall|e: EntryView| #[trigger] held(new, e) <==> held(t, e) by {
        lemma_held(t, al, e);
        lemma_held(new, al2, e);
        assert(leaf_same(t, al, new, al2, e.key()));
    }
    assert forall|q: BtreeKey| q.key_type != KeyType::Deleted implies #[trigger] new.tree_get(q)
        == t.tree_get(q) by {
        lemma_same_gets(t, new, q);
    }
    if orderly(t) {
        assert(laid(new, al2, no_gap()) && tidy_leaves(new, al2));
    }
    lemma_merge_count(t, new, a, ancestors, r);
}

/// A merge does not count keys anew.
proof fn lemma_merge_count(t: Btree, new: Btree, a: u64, ancestors: Seq<u64>, r: bool)
    requires
        t.merge_tried(new, a, ancestors, r),
    ensures
        new.total_key_count == t.total_key_count,
{
    reveal(Btree::absorbed_and_routed);
    reveal(Btree::three_merged);
}

/// Merging upwards does not count keys anew.
proof fn lemma_cascade_count(t: Btree, new: Btree, path: Seq<u64>, level: int)
    requires
        t.cascaded(new, path, level),
    ensures
        new.total_key_count == t.total_key_count,
    decreases path.len() + 1 - level,
{
    if 1 <= level <= path.len() {
        let i = path.len() - level;
        let (mid, r) = choose|mid: Btree, r: bool| #[trigger]
            t.merge_tried(mid, path[i], path.take(i), r) && (if r {
                mid.cascaded(new, path, level + 1)
            } else {
                new == mid
            });
        lemma_merge_count(t, mid, path[i], path.take(i), r);
        if r {
            lemma_cascade_count(mid, new, path, level + 1);
        }
    }
}

/// Dropping roots does not count keys anew.
proof fn lemma_collapse_count(t: Btree, new: Btree)
    requires
        t.fully_collapsed(new),
    ensures
        new.total_key_count == t.total_key_count,
    decreases t.root.depth,
{
    let (mid, r) = choose|mid: Btree, r: bool| #[trigger]
        t.collapsed(mid, r) && (if r && mid.root.depth < t.root.depth {
            mid.fully_collapsed(new)
        } else {
            new == mid
        });
    if r && mid.root.depth < t.root.depth {
        lemma_collapse_count(mid, new);
    }
}

/// A delete counts one key less.
proof fn lemma_delete_count(t: Btree, new: Btree, k: BtreeKey, seq: u64)
    requires
        t.was_deleted(new, k, seq, true),
    ensures
        new.total_key_count == t.one_key_less(),
{
    let mid = choose|mid: Btree| #[trigger]
        t.tree_deleted(mid, k, seq, true) && new == (Btree {
            total_key_count: mid.one_key_less(),
            key_cache: new.key_cache,
            ..mid
        }) && mid.key_cache.invalidated(new.key_cache, Bpos::spec_from_key(k));
    assert(t.tree_deleted(mid, k, seq, true));
    if t.root.depth > 0 {
        let a = t.leaf_addr(k);
        let path = t.spec_path(k);
        let (first, n) = choose|first: Btree, n: BtreeNode| #[trigger]
            t.leaf_deleted(first, a, n, k, seq) && (if t.commit_lock {
                mid == first
            } else {
                exists|done: Btree| #[trigger]
                    (Btree { write_blocked: true, commit_lock: true, ..first }).merged_up(
                        done,
                        a,
                        path,
                    ) && mid == (Btree { write_blocked: false, commit_lock: false, ..done })
            });
        if !t.commit_lock {
            let held_tree = Btree { write_blocked: true, commit_lock: true, ..first };
            let done = choose|done: Btree| #[trigger]
                held_tree.merged_up(done, a, path) && mid == (Btree {
                    write_blocked: false,
                    commit_lock: false,
                    ..done
                });
            let (m2, r) = choose|m2: Btree, r: bool| #[trigger]
                held_tree.merge_tried(m2, a, path, r) && (if r {
                    exists|top: Btree| #[trigger]
                        m2.cascaded(top, path, 1) && top.fully_collapsed(done)
                } else {
                    done == m2
                });
            lemma_merge_count(held_tree, m2, a, path, r);
            if r {
                let top = choose|top: Btree| #[trigger]
                    m2.cascaded(top, path, 1) && top.fully_collapsed(done);
                lemma_cascade_count(m2, top, path, 1);
                lemma_collapse_count(top, done);
            }
        }
    }
}

// ── deletes ─────────────────────────────────────────────────────────────

/// Whether a delete of `k` empties its slot. It does not where the leaf is full
/// and has a whiteout last in the slot: the entry in front of the whiteout goes,
/// and the whiteout stays.
pub open spec fn can_erase(t: Btree, k: BtreeKey) -> bool {
    t.leaf_for(k) matches Some(n) && n.can_empty(k)
}

/// Whether `new` holds nothing in the slot of `k`, where that can be emptied, and
/// otherwise what `t` holds.
pub open spec fn erased(t: Btree, new: Btree, k: BtreeKey) -> bool {
    forall|e: EntryView| #[trigger]
        held(new, e) <==> held(t, e) && !(e.key().same_slot(k) && can_erase(t, k))
}

/// Whether the leaf for `q` in `new` holds under `q` what that in `t` holds, but
/// nothing in the slot of `k` where that can be emptied.
pub open spec fn leaf_lost(
    t: Btree,
    al: Layout,
    new: Btree,
    al2: Layout,
    k: BtreeKey,
    q: BtreeKey,
) -> bool {
    forall|e: EntryView|
        e.key() == q ==> (#[trigger] at(new, al2, new.root.depth as int, q).live().contains(e)
            <==> at(t, al, t.root.depth as int, q).live().contains(e) && !(q.same_slot(k) && at(
            t,
            al,
            t.root.depth as int,
            k,
        ).can_empty(k)))
}

/// Whether `new`, laid out without a gap, holds what `t` holds, but nothing in
/// the slot of `k` where that can be emptied.
pub open spec fn leaves_lost(t: Btree, al: Layout, new: Btree, al2: Layout, k: BtreeKey) -> bool {
    &&& laid(new, al2, no_gap())
    &&& forall|q: BtreeKey| #[trigger] leaf_lost(t, al, new, al2, k, q)
}

/// A leaf from which an entry was deleted.
proof fn lemma_leaf_wiped(
    t: Btree,
    new: Btree,
    al: Layout,
    n: BtreeNode,
    placed: BtreeNode,
    k: BtreeKey,
)
    requires
        laid(t, al, no_gap()),
        at(t, al, t.root.depth as int, k).after_delete(n, k),
        at(t, al, t.root.depth as int, k).spec_has_live_entry(k),
        placed == (BtreeNode { journal_seq: placed.journal_seq, ..n }),
        put_leaf(t, new, al, k, placed),
    ensures
        leaves_lost(t, al, new, al, k),
{
    let d = t.root.depth as int;
    let leaf = at(t, al, d, k);
    assert(good_at(t, al, d, k));
    lemma_leaf_deleted(leaf, n, k);
    lemma_wf_same(n, placed);
    assert(leaf_ok(placed));
    if d > 0 {
        assert(kept_at(t, al, d, k));
    }
    assert forall|e: EntryView| #[trigger] placed.all().contains(e) && d > 0 implies al.addr(d, e.key())
        == al.addr(d, k) by {
        assert(slot_at(al, d, e.key(), k));
    }
    lemma_leaf_layout(t, new, al, k, placed);
    assert forall|q: BtreeKey| #[trigger] leaf_lost(t, al, new, al, k, q) by {
        if d > 0 && al.addr(d, q) != al.addr(d, k) {
            assert(at(new, al, d, q) == at(t, al, d, q));
            assert(slot_at(al, d, q, k));
        } else {
            assert(at(t, al, d, q) == leaf);
            assert(at(new, al, d, q) == placed);
        }
    }
}

/// What is lost and then kept is lost.
proof fn lemma_lost_kept(
    t: Btree,
    al: Layout,
    mid: Btree,
    al2: Layout,
    new: Btree,
    al3: Layout,
    k: BtreeKey,
)
    requires
        leaves_lost(t, al, mid, al2, k),
        leaves_kept(mid, al2, new, al3),
    ensures
        leaves_lost(t, al, new, al3, k),
{
    assert forall|q: BtreeKey| #[trigger] leaf_lost(t, al, new, al3, k, q) by {
        assert(leaf_lost(t, al, mid, al2, k, q));
        assert(leaf_same(mid, al2, new, al3, q));
    }
}

/// A delete of a key, whatever nodes it compacts or merges.
#[verifier::rlimit(40)]
proof fn lemma_deleted(t: Btree, new: Btree, al: Layout, k: BtreeKey, seq: u64)
    requires
        laid(t, al, no_gap()),
        t.was_deleted(new, k, seq, true),
    ensures
        exists|al2: Layout| #[trigger] leaves_lost(t, al, new, al2, k),
{
    let d = t.root.depth as int;
    let mid = choose|mid: Btree| #[trigger]
        t.tree_deleted(mid, k, seq, true) && new == (Btree {
            total_key_count: mid.one_key_less(),
            key_cache: new.key_cache,
            ..mid
        }) && mid.key_cache.invalidated(new.key_cache, Bpos::spec_from_key(k));
    assert(t.tree_deleted(mid, k, seq, true));
    if d == 0 {
        let n = choose|n: BtreeNode| #[trigger]
            t.root.node.after_delete(n, k) && mid == (Btree {
                root: crate::iter::BtreeRoot {
                    node: (BtreeNode { journal_seq: seq, ..n }),
                    ..t.root
                },
                root_modified: true,
                ..t
            });
        assert(t.root.node.after_delete(n, k));
        assert(put_leaf(t, new, al, k, new.root.node));
        lemma_leaf_wiped(t, new, al, n, new.root.node, k);
    } else {
        let a = t.leaf_addr(k);
        lemma_descent(t, al, k, d);
        let (first, n) = choose|first: Btree, n: BtreeNode| #[trigger]
            t.leaf_deleted(first, a, n, k, seq) && (if t.commit_lock {
                mid == first
            } else {
                exists|done: Btree| #[trigger]
                    (Btree { write_blocked: true, commit_lock: true, ..first }).merged_up(
                        done,
                        a,
                        t.spec_path(k),
                    ) && mid == (Btree { write_blocked: false, commit_lock: false, ..done })
            });
        let m = choose|m: BtreeNode| #[trigger]
            t.nodes()[a].after_delete(m, k) && n == (BtreeNode { journal_seq: seq, ..m });
        assert(put_leaf(t, first, al, k, n));
        lemma_leaf_wiped(t, first, al, m, n, k);
        if t.commit_lock {
            lemma_same_kept(first, new, al, 0);
            lemma_lost_kept(t, al, first, al, new, al, k);
        } else {
            let held_tree = Btree { write_blocked: true, commit_lock: true, ..first };
            let path = t.spec_path(k);
            let done = choose|done: Btree| #[trigger]
                held_tree.merged_up(done, a, path) && mid == (Btree {
                    write_blocked: false,
                    commit_lock: false,
                    ..done
                });
            lemma_same_kept(first, held_tree, al, 0);
            assert forall|q: int| 0 <= q < d - 1 implies #[trigger] path[q] == al.addr(q + 1, k) by {
                lemma_descent(t, al, k, q + 1);
            }
            lemma_merged_up(held_tree, done, al, k, a, path);
            let al2 = choose|al2: Layout| #[trigger] leaves_kept(held_tree, al, done, al2);
            lemma_same_kept(done, new, al2, 0);
            lemma_lost_kept(t, al, first, al, held_tree, al, k);
            lemma_lost_kept(t, al, held_tree, al, done, al2, k);
            lemma_lost_kept(t, al, done, al2, new, al2, k);
        }
    }
}

/// A delete from a tree whose keys are all reachable, whatever nodes it
/// compacts or merges and whatever levels it drops: all keys stay reachable, and
/// the tree holds what it held but nothing in the slot of the key, where that can
/// be emptied.
pub proof fn lemma_delete(t: Btree, new: Btree, k: BtreeKey, seq: u64)
    requires
        reachable(t),
        t.was_deleted(new, k, seq, true),
    ensures
        reachable(new),
        erased(t, new, k),
        new.cached_get(k) is None,
{
    let al = choose|al: Layout| #[trigger] laid(t, al, no_gap());
    lemma_descent(t, al, k, t.root.depth as int);
    lemma_deleted(t, new, al, k, seq);
    let al2 = choose|al2: Layout| #[trigger] leaves_lost(t, al, new, al2, k);
    assert forall|e: EntryView| #[trigger] held(new, e) <==> held(t, e) && !(e.key().same_slot(k)
        && can_erase(t, k)) by {
        lemma_held(t, al, e);
        lemma_held(new, al2, e);
        assert(leaf_lost(t, al, new, al2, k, e.key()));
    }
}

/// A key that was deleted is not found any more, nor one of another type in its
/// slot where that can be emptied; and every other key is found as before,
/// whatever nodes the delete compacts or merges and whatever levels it drops. The
/// count falls by one.
pub proof fn lemma_get_after_delete(t: Btree, new: Btree, k: BtreeKey, seq: u64)
    requires
        reachable(t),
        t.was_deleted(new, k, seq, true),
    ensures
        reachable(new),
        new.cached_get(k) is None,
        forall|k2: BtreeKey|
            k2.key_type != KeyType::Deleted ==> #[trigger] new.tree_get(k2) == (if k2.same_slot(
                k,
            ) && can_erase(t, k) {
                None
            } else {
                t.tree_get(k2)
            }),
        k.key_type == KeyType::Normal ==> new.tree_get(k) is None,
        new.total_key_count == t.one_key_less(),
{
    lemma_delete_count(t, new, k, seq);
    lemma_delete(t, new, k, seq);
    assert forall|k2: BtreeKey| k2.key_type != KeyType::Deleted implies #[trigger] new.tree_get(k2)
        == (if k2.same_slot(k) && can_erase(t, k) {
        None
    } else {
        t.tree_get(k2)
    }) by {
        lemma_get_held(t, k2);
        lemma_get_held(new, k2);
        if t.tree_get(k2) is Some {
            let e = choose|e: EntryView| #[trigger]
                held(t, e) && e.key() == k2 && t.tree_get(k2) == Some(as_extent(e));
            if !(k2.same_slot(k) && can_erase(t, k)) {
                assert(held(new, e));
            }
        }
        if new.tree_get(k2) is Some {
            let e = choose|e: EntryView| #[trigger]
                held(new, e) && e.key() == k2 && new.tree_get(k2) == Some(as_extent(e));
            assert(held(t, e));
        }
    }
    if k.key_type == KeyType::Normal && !can_erase(t, k) && new.tree_get(k) is Some {
        // What is last in the slot is a whiteout, and not this key.
        let al = choose|al: Layout| #[trigger] laid(t, al, no_gap());
        let d = t.root.depth as int;
        lemma_descent(t, al, k, d);
        lemma_get_held(t, k);
        let e = choose|e: EntryView| #[trigger] held(t, e) && e.key() == k;
        lemma_held(t, al, e);
        lemma_live(at(t, al, d, k).all());
    }
}

/// Unless another change is under way, a normal key that is held is deleted when
/// asked for; and where no whiteout is last in the slot, a delete comes about just
/// if something is held in it.
pub proof fn lemma_delete_succeeds(t: Btree, new: Btree, k: BtreeKey, seq: u64, r: bool)
    requires
        reachable(t),
        t.was_deleted(new, k, seq, r),
        t.root.depth == 0 || !t.write_blocked,
    ensures
        (exists|e: EntryView| #[trigger]
            held(t, e) && e.key().same_slot(k) && e.key_type == KeyType::Normal) ==> r,
        (t.leaf_for(k) matches Some(n) ==> !whiteout_last(n.all(), k)) ==> (r <==> exists|
            e: EntryView,
        | #[trigger]
            held(t, e) && e.key().same_slot(k)),
{
    let al = choose|al: Layout| #[trigger] laid(t, al, no_gap());
    let d = t.root.depth as int;
    let n = at(t, al, d, k);
    lemma_descent(t, al, k, d);
    assert(good_at(t, al, d, k));
    if d > 0 {
        assert(cached_at(t, al, d, k));
    }
    lemma_live(n.all());
    assert forall|e: EntryView| #[trigger] held(t, e) && e.key().same_slot(k) implies last_in(
        n.all(),
        k,
    ) == Some(e) by {
        lemma_held(t, al, e);
        if d > 0 {
            assert(slot_at(al, d, e.key(), k));
        }
        assert(n.live().contains(e));
        let i = lemma_last_in_index(n.all(), e.key());
        lemma_last_in_at(n.all(), k, i);
    }
    if !whiteout_last(n.all(), k) {
        lemma_newest_is_last(n.all(), k);
        if n.spec_has_live_entry(k) {
            let i = lemma_last_in_index(n.all(), k);
            let e = n.all()[i];
            lemma_last_in_at(n.all(), e.key(), i);
            assert(n.live().contains(e));
            if d > 0 {
                assert(slot_at(al, d, e.key(), k));
            }
            lemma_held(t, al, e);
            assert(held(t, e));
        }
        if exists|e: EntryView| #[trigger] held(t, e) && e.key().same_slot(k) {
            let e = choose|e: EntryView| #[trigger] held(t, e) && e.key().same_slot(k);
            lemma_held(t, al, e);
            if d > 0 {
                assert(slot_at(al, d, e.key(), k));
            }
            lemma_leaf_live_kind(n, e);
        }
    }
    if r {
        let mid = choose|mid: Btree| #[trigger]
            t.tree_deleted(mid, k, seq, true) && new == (Btree {
                total_key_count: mid.one_key_less(),
                key_cache: new.key_cache,
                ..mid
            }) && mid.key_cache.invalidated(new.key_cache, Bpos::spec_from_key(k));
        assert(t.tree_deleted(mid, k, seq, true));
    }
}

} // verus!
