//! What a walk over a tree visits.

use crate::btree::{last_normal, later_than, Btree};
use crate::key::{Bpos, BtreeKey, EntryView, KeyType};
use crate::laws::lemma_last_visited;
use crate::laws_map::{held, reachable};
use crate::laws_merge::lemma_own_child;
use crate::layout::{
    at, cached_at, good_at, kept_at, laid, lemma_descent, linked_at, nested_at, no_gap, slot_at,
    Layout,
};
use crate::node::BtreeNode;
use crate::node_read::as_extent;
use crate::route::{extents, lemma_best_range, lemma_smallest_range, route, routing_index};
use crate::run::last_in;
use crate::tidy::{covers, lemma_live_in, lemma_pick, pick, tidy};
use crate::walk::{
    behind, child_at, children_behind, first_behind, leaf_rest, lemma_first_behind,
    lemma_next_child, look, next_child, sibling_items, subtree_items,
};
use vstd::prelude::*;

verus! {

/// Whether `e` is in the leaf that its key belongs to, below the node for `k`.
pub open spec fn below(t: Btree, al: Layout, i: int, k: BtreeKey, e: EntryView) -> bool {
    &&& i <= 0 || al.addr(i, e.key()) == al.addr(i, k)
    &&& at(t, al, t.root.depth as int, e.key()).all().contains(e)
}

/// Whether the child number `j` of a node comes behind the child number `i`,
/// both counted from 0.
pub open spec fn child_behind(n: BtreeNode, j: int, i: int) -> bool {
    behind(n.all()[j].key(), j, n.all()[i].key(), i)
}

/// Whether `e` is below one of the children of the node for `k` behind the child
/// number `idx`, counted from 1.
pub open spec fn below_behind(
    t: Btree,
    al: Layout,
    i: int,
    k: BtreeKey,
    idx: int,
    e: EntryView,
) -> bool {
    let n = at(t, al, i, k);
    exists|j: int|
        0 <= j < n.all().len() && #[trigger] child_behind(n, j, idx - 1) && below(
            t,
            al,
            i + 1,
            n.all()[j].key(),
            e,
        )
}

/// The child behind another one in key order.
proof fn lemma_next(n: BtreeNode, idx: int)
    requires
        1 <= idx <= n.all().len(),
    ensures
        match next_child(Some(n), idx) {
            Some(j) => 1 <= j <= n.all().len() && child_behind(n, j - 1, idx - 1) && forall|l: int|
                0 <= l < n.all().len() && l != j - 1 && #[trigger] child_behind(n, l, idx - 1)
                    ==> child_behind(n, l, j - 1),
            None => forall|l: int|
                0 <= l < n.all().len() ==> !#[trigger] child_behind(n, l, idx - 1),
        },
        next_child(Some(n), idx) matches Some(j) ==> children_behind(Some(n), j)
            < children_behind(Some(n), idx),
{
    let es = extents(n.all());
    lemma_next_child(Some(n), idx);
    lemma_first_behind(es, es[idx - 1].0, idx - 1);
    assert forall|l: int| 0 <= l < n.all().len() implies (#[trigger] es[l]).0 == n.all()[l].key() by {
        assert(es[l] == as_extent(n.all()[l]));
    }
    match first_behind(es, es[idx - 1].0, idx - 1) {
        Some(j) => {
            assert forall|l: int|
                0 <= l < n.all().len() && l != j && #[trigger] child_behind(
                    n,
                    l,
                    idx - 1,
                ) implies child_behind(n, l, j) by {
                assert(es[l].0 == n.all()[l].key());
            }
        },
        None => {
            assert forall|l: int| 0 <= l < n.all().len() implies !#[trigger] child_behind(
                n,
                l,
                idx - 1,
            ) by {
                assert(es[l].0 == n.all()[l].key());
            }
        },
    }
}

/// A node sends a key to a child, and the smallest key of all to one that all
/// others come behind.
proof fn lemma_first_child(n: BtreeNode, k: BtreeKey)
    requires
        tidy(n),
        n.all().len() > 0,
    ensures
        1 <= route(Some(n), k).1 <= n.all().len(),
        route(Some(n), k).0 == n.all()[route(Some(n), k).1 - 1].bch_val().paddr.addr,
        covers(n, k) ==> n.all()[route(Some(n), k).1 - 1] == pick(n, k),
        k == BtreeKey::spec_min_key() ==> forall|j: int|
            0 <= j < n.all().len() && j != route(Some(n), k).1 - 1 ==> #[trigger] child_behind(
                n,
                j,
                route(Some(n), k).1 - 1,
            ),
{
    let all = n.all();
    let es = extents(all);
    n.lemma_all();
    lemma_best_range(es, k);
    lemma_smallest_range(es);
    let i = routing_index(es, k);
    assert(es[i] == as_extent(all[i]));
    if k == BtreeKey::spec_min_key() {
        assert forall|j: int| 0 <= j < all.len() && j != i implies #[trigger] child_behind(
            n,
            j,
            i,
        ) by {
            assert(es[j] == as_extent(all[j]));
            if j < i {
                assert(!all[j].key().same_slot(all[i].key()));
            } else {
                assert(!all[i].key().same_slot(all[j].key()));
            }
        }
    }
}

/// A leaf is visited from its first entry to its last.
proof fn lemma_leaf_rest(n: BtreeNode)
    ensures
        leaf_rest(Some(n), 1) == n.all(),
{
    assert(leaf_rest(Some(n), 1) =~= n.all());
}

/// What is visited below a node is what is in the leaves below it.
#[verifier::rlimit(40)]
proof fn lemma_subtree(t: Btree, al: Layout, i: int, k: BtreeKey, e: EntryView)
    requires
        laid(t, al, no_gap()),
        0 <= i <= t.root.depth,
    ensures
        subtree_items(t.nodes(), Some(at(t, al, i, k)), t.root.depth - i).contains(e) <==> below(
            t,
            al,
            i,
            k,
            e,
        ),
    decreases t.root.depth - i, 1int, 0nat,
{
    let d = t.root.depth as int;
    let n = at(t, al, i, k);
    let m = t.nodes();
    if i == d {
        lemma_leaf_rest(n);
        if i > 0 {
            assert(kept_at(t, al, i, k));
        }
        if n.all().contains(e) {
            assert(at(t, al, d, e.key()) == n);
        }
    } else {
        assert(good_at(t, al, i, k));
        lemma_pick(n, k);
        let min = BtreeKey::spec_min_key();
        lemma_first_child(n, min);
        let all = n.all();
        let ci = route(Some(n), min).1 as int;
        let y = all[ci - 1];
        assert(all.contains(y));
        lemma_own_child(t, al, i + 1, k, y);
        assert(cached_at(t, al, i + 1, y.key()));
        assert(look(m, y.bch_val().paddr.addr) == Some(at(t, al, i + 1, y.key())));
        lemma_subtree(t, al, i + 1, y.key(), e);
        lemma_siblings(t, al, i, k, ci, e);
        let first = subtree_items(m, Some(at(t, al, i + 1, y.key())), d - i - 1);
        let rest = sibling_items(m, Some(n), d - i, ci);
        assert(subtree_items(m, Some(n), d - i) == first + rest);
        lemma_concat(first, rest, e);
        lemma_below_children(t, al, i, k, ci, e);
    }
}

/// What is visited below the children of a node behind one.
#[verifier::rlimit(40)]
proof fn lemma_siblings(t: Btree, al: Layout, i: int, k: BtreeKey, idx: int, e: EntryView)
    requires
        laid(t, al, no_gap()),
        0 <= i < t.root.depth,
        1 <= idx <= at(t, al, i, k).all().len(),
    ensures
        sibling_items(t.nodes(), Some(at(t, al, i, k)), t.root.depth - i, idx).contains(e)
            <==> below_behind(t, al, i, k, idx, e),
    decreases t.root.depth - i, 0int, children_behind(Some(at(t, al, i, k)), idx),
{
    let d = t.root.depth as int;
    let n = at(t, al, i, k);
    let m = t.nodes();
    let all = n.all();
    assert(good_at(t, al, i, k));
    lemma_next(n, idx);
    match next_child(Some(n), idx) {
        Some(nx) => {
            let y = all[nx - 1];
            assert(all.contains(y));
            lemma_own_child(t, al, i + 1, k, y);
            assert(cached_at(t, al, i + 1, y.key()));
            assert(child_at(m, Some(n), nx) == Some(at(t, al, i + 1, y.key())));
            lemma_subtree(t, al, i + 1, y.key(), e);
            lemma_siblings(t, al, i, k, nx, e);
            let first = subtree_items(m, Some(at(t, al, i + 1, y.key())), d - i - 1);
            let rest = sibling_items(m, Some(n), d - i, nx);
            assert(sibling_items(m, Some(n), d - i, idx) == first + rest);
            lemma_concat(first, rest, e);
            if below_behind(t, al, i, k, idx, e) {
                let j = choose|j: int|
                    0 <= j < all.len() && #[trigger] child_behind(n, j, idx - 1) && below(
                        t,
                        al,
                        i + 1,
                        all[j].key(),
                        e,
                    );
                if j != nx - 1 {
                    assert(child_behind(n, j, nx - 1));
                    assert(below_behind(t, al, i, k, nx, e));
                }
            }
            if below(t, al, i + 1, y.key(), e) {
                assert(child_behind(n, nx - 1, idx - 1));
                assert(below_behind(t, al, i, k, idx, e));
            }
            if below_behind(t, al, i, k, nx, e) {
                let j = choose|j: int|
                    0 <= j < all.len() && #[trigger] child_behind(n, j, nx - 1) && below(
                        t,
                        al,
                        i + 1,
                        all[j].key(),
                        e,
                    );
                assert(child_behind(n, j, idx - 1));
                assert(below_behind(t, al, i, k, idx, e));
            }
        },
        None => {},
    }
}

proof fn lemma_concat(a: Seq<EntryView>, b: Seq<EntryView>, e: EntryView)
    ensures
        (a + b).contains(e) <==> a.contains(e) || b.contains(e),
{
    let c = a + b;
    if a.contains(e) {
        let j = choose|j: int| 0 <= j < a.len() && a[j] == e;
        assert(c[j] == e);
    }
    if b.contains(e) {
        let j = choose|j: int| 0 <= j < b.len() && b[j] == e;
        assert(c[a.len() + j] == e);
    }
    if c.contains(e) {
        let j = choose|j: int| 0 <= j < c.len() && c[j] == e;
        if j < a.len() {
            assert(a[j] == e);
        } else {
            assert(b[j - a.len()] == e);
        }
    }
}

/// The children of a node have different entries below them, all of which are
/// below the node. Where all others come behind the child number `idx`, there
/// is nothing else below the node.
proof fn lemma_below_children(t: Btree, al: Layout, i: int, k: BtreeKey, idx: int, e: EntryView)
    requires
        laid(t, al, no_gap()),
        0 <= i < t.root.depth,
        1 <= idx <= at(t, al, i, k).all().len(),
    ensures
        ({
            let n = at(t, al, i, k);
            let y = n.all()[idx - 1].key();
            &&& below(t, al, i + 1, y, e) ==> below(t, al, i, k, e)
            &&& below_behind(t, al, i, k, idx, e) ==> below(t, al, i, k, e) && !below(
                t,
                al,
                i + 1,
                y,
                e,
            )
            &&& (forall|j: int|
                0 <= j < n.all().len() && j != idx - 1 ==> #[trigger] child_behind(n, j, idx - 1))
                ==> (below(t, al, i, k, e) <==> below(t, al, i + 1, y, e) || below_behind(
                t,
                al,
                i,
                k,
                idx,
                e,
            ))
        }),
{
    let n = at(t, al, i, k);
    let all = n.all();
    let h = no_gap();
    let y = all[idx - 1];
    assert(all.contains(y));
    lemma_own_child(t, al, i + 1, k, y);
    if below(t, al, i + 1, y.key(), e) {
        assert(nested_at(t, al, h, i + 1, e.key(), y.key()));
    }
    if below_behind(t, al, i, k, idx, e) {
        let j = choose|j: int|
            0 <= j < all.len() && #[trigger] child_behind(n, j, idx - 1) && below(
                t,
                al,
                i + 1,
                all[j].key(),
                e,
            );
        assert(all.contains(all[j]));
        lemma_own_child(t, al, i + 1, k, all[j]);
        assert(nested_at(t, al, h, i + 1, e.key(), all[j].key()));
        if below(t, al, i + 1, y.key(), e) {
            assert(nested_at(t, al, h, i + 1, y.key(), all[j].key()));
            assert(good_at(t, al, i, k));
            assert(j != idx - 1);
            if j < idx - 1 {
                assert(!all[j].key().same_slot(all[idx - 1].key()));
            } else {
                assert(!all[idx - 1].key().same_slot(all[j].key()));
            }
        }
    }
    if below(t, al, i, k, e) {
        let q = e.key();
        assert(at(t, al, i, q) == n);
        assert(good_at(t, al, i, q));
        lemma_pick(n, q);
        let j = choose|j: int| 0 <= j < all.len() && all[j] == pick(n, q);
        assert(linked_at(t, al, h, i + 1, q));
        lemma_own_child(t, al, i + 1, k, all[j]);
        assert(below(t, al, i + 1, all[j].key(), e));
        if (forall|l: int|
            0 <= l < all.len() && l != idx - 1 ==> #[trigger] child_behind(n, l, idx - 1)) && j
            != idx - 1 {
            assert(child_behind(n, j, idx - 1));
        }
    }
}

/// What a walk that went down for `k` visits behind the node of step `i` is not
/// below that node; for the smallest key it is everything that is not.
#[verifier::rlimit(40)]
proof fn lemma_later(t: Btree, al: Layout, k: BtreeKey, i: int, e: EntryView)
    requires
        laid(t, al, no_gap()),
        0 <= i <= t.root.depth,
    ensures
        ({
            let later = later_than(t.nodes(), t.root.node, t.root.depth as int, k, i);
            &&& later.contains(e) ==> below(t, al, 0, k, e) && !below(t, al, i, k, e)
            &&& k == BtreeKey::spec_min_key() ==> (below(t, al, 0, k, e) <==> below(
                t,
                al,
                i,
                k,
                e,
            ) || later.contains(e))
        }),
    decreases i,
{
    let d = t.root.depth as int;
    let m = t.nodes();
    if i > 0 {
        lemma_later(t, al, k, i - 1, e);
        lemma_descent(t, al, k, i - 1);
        lemma_descent(t, al, k, i);
        let n = at(t, al, i - 1, k);
        assert(good_at(t, al, i - 1, k));
        lemma_pick(n, k);
        lemma_first_child(n, k);
        let all = n.all();
        let ci = route(Some(n), k).1 as int;
        let y = all[ci - 1];
        assert(all.contains(y));
        lemma_own_child(t, al, i, k, y);
        assert(al.addr(i, k) == al.addr(i, y.key()));
        let sib = sibling_items(m, Some(n), d - i + 1, ci);
        let rest = later_than(m, t.root.node, d, k, i - 1);
        assert(later_than(m, t.root.node, d, k, i) == sib + rest);
        lemma_concat(sib, rest, e);
        lemma_siblings(t, al, i - 1, k, ci, e);
        lemma_below_children(t, al, i - 1, k, ci, e);
        assert(below(t, al, i, k, e) == below(t, al, i, y.key(), e));
    }
}

/// A walk from the start of a tree whose keys are reachable visits just the
/// entries of its leaves, tombstones and rewritten ones included.
pub proof fn lemma_walk_visits(t: Btree, e: EntryView)
    requires
        reachable(t),
    ensures
        t.items(BtreeKey::spec_min_key()).contains(e) <==> (t.leaf_for(e.key()) matches Some(n)
            && n.all().contains(e)),
        held(t, e) ==> t.items(BtreeKey::spec_min_key()).contains(e),
{
    let al = choose|al: Layout| #[trigger] laid(t, al, no_gap());
    let k = BtreeKey::spec_min_key();
    let d = t.root.depth as int;
    lemma_descent(t, al, k, d);
    lemma_descent(t, al, e.key(), d);
    let n = at(t, al, d, k);
    lemma_leaf_rest(n);
    lemma_later(t, al, k, d, e);
    let later = later_than(t.nodes(), t.root.node, d, k, d);
    lemma_concat(n.all(), later, e);
    assert(t.items(k) =~= n.all() + later);
    if n.all().contains(e) && d > 0 {
        assert(kept_at(t, al, d, k));
    }
    if held(t, e) {
        lemma_live_in(at(t, al, d, e.key()).all(), e);
    }
}

/// What a lookup of a position gives in a tree whose keys are reachable: the
/// last entry in its slot, if that is a normal one. All entries of the slot have
/// to be at the position.
pub proof fn lemma_entry_newest(t: Btree, p: Bpos)
    requires
        reachable(t),
        ({
            let k = BtreeKey::spec_from_bpos(p, KeyType::Normal);
            t.leaf_for(k) matches Some(n) && (last_in(n.all(), k) matches Some(e) ==> e.pos == p)
        }),
    ensures
        ({
            let k = BtreeKey::spec_from_bpos(p, KeyType::Normal);
            last_normal(t.items(k), p) == (match last_in(t.leaf_for(k)->0.all(), k) {
                Some(e) => if e.key_type == KeyType::Normal {
                    Some(e)
                } else {
                    None
                },
                None => None,
            })
        }),
{
    let al = choose|al: Layout| #[trigger] laid(t, al, no_gap());
    let k = BtreeKey::spec_from_bpos(p, KeyType::Normal);
    let d = t.root.depth as int;
    lemma_descent(t, al, k, d);
    let n = at(t, al, d, k);
    assert(good_at(t, al, d, k));
    lemma_last_visited(n, p);
    let first = leaf_rest(Some(n), n.spec_seek(k));
    let later = later_than(t.nodes(), t.root.node, d, k, d);
    assert(t.items(k) == first + later);
    assert forall|j: int| 0 <= j < later.len() implies (#[trigger] later[j]).pos != p by {
        let e = later[j];
        assert(later.contains(e));
        lemma_later(t, al, k, d, e);
        if e.pos == p {
            if d > 0 {
                assert(slot_at(al, d, e.key(), k));
            }
            assert(false);
        }
    }
    lemma_last_normal_append(first, later, p);
}

proof fn lemma_last_normal_append(a: Seq<EntryView>, b: Seq<EntryView>, p: Bpos)
    requires
        forall|j: int| 0 <= j < b.len() ==> (#[trigger] b[j]).pos != p,
    ensures
        last_normal(a + b, p) == last_normal(a, p),
    decreases b.len(),
{
    if b.len() == 0 {
        assert(a + b =~= a);
    } else {
        assert(b[b.len() - 1].pos != p);
        assert((a + b).drop_last() =~= a + b.drop_last());
        assert((a + b).last() == b.last());
        let f = b.drop_last();
        assert forall|j: int| 0 <= j < f.len() implies (#[trigger] f[j]).pos != p by {
            assert(f[j] == b[j]);
        }
        lemma_last_normal_append(a, f, p);
    }
}

} // verus!
