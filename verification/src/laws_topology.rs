//! What it means that a tree passes the check of its nodes, or does not, and what
//! is found by a scan and by a load.

use crate::btree::Btree;
use crate::engine::BtreeEngine;
use crate::error::Fault;
use crate::ids::BtreeId;
use crate::key::{lemma_bpos_order, Bpos, BtreeEntry, BtreePtrV2, EntryView};
use crate::load::{taken, wrong_level};
use crate::node::BtreeNode;
use crate::node_scan::{at_most, those_in, FoundBtreeNode};
use crate::sort::lemma_stable_sort;
use crate::topology::{
    check_child, check_children, check_leaf, check_node, check_tree, first_repeated,
    first_unordered, in_order, positions,
};
use vstd::prelude::*;

verus! {

// ── nodes ───────────────────────────────────────────────────────────────

/// A leaf passes just if none of its entries lies before its range or behind it;
/// a leaf whose range was never set passes in any case.
#[verifier::rlimit(40)]
pub proof fn lemma_leaf_passes(ty: BtreeId, n: BtreeNode)
    ensures
        check_leaf(ty, n) is None <==> forall|e: EntryView| #[trigger]
            n.all().contains(e) ==> (n.min_key == Bpos::spec_max() || !(Bpos {
                inode: 0,
                ..e.pos
            }).lt(n.min_key)) && (n.max_key == Bpos::spec_min() || !n.max_key.lt(
                Bpos { inode: 0, ..e.pos },
            )),
        check_leaf(ty, n) matches Some(f) ==> f == Fault::LeafMinKey(ty) || f == Fault::LeafMaxKey(
            ty,
        ),
{
    let es = in_order(n);
    lemma_stable_sort(n.all(), false);
    if es.len() > 0 {
        let first = es[0];
        let last = es.last();
        assert(es.contains(first));
        assert(es.contains(last));
        assert(Bpos::spec_from_key(first.key()) == (Bpos { inode: 0, ..first.pos }));
        assert(Bpos::spec_from_key(last.key()) == (Bpos { inode: 0, ..last.pos }));
        assert forall|e: EntryView| #[trigger] n.all().contains(e) implies !(Bpos {
            inode: 0,
            ..e.pos
        }).lt(Bpos { inode: 0, ..first.pos }) && !(Bpos { inode: 0, ..last.pos }).lt(
            Bpos { inode: 0, ..e.pos },
        ) by {
            assert(es.contains(e));
            let i = choose|i: int| 0 <= i < es.len() && es[i] == e;
            if i > 0 {
                assert(!crate::sort::before(es[i], es[0], false));
            }
            if i < es.len() - 1 {
                assert(!crate::sort::before(es[es.len() - 1], es[i], false));
            }
        }
        if check_leaf(ty, n) is None {
            assert forall|e: EntryView| #[trigger] n.all().contains(e) implies (n.min_key
                == Bpos::spec_max() || !(Bpos { inode: 0, ..e.pos }).lt(n.min_key)) && (n.max_key
                == Bpos::spec_min() || !n.max_key.lt(Bpos { inode: 0, ..e.pos })) by {
                let p = Bpos { inode: 0, ..e.pos };
                let a = Bpos { inode: 0, ..first.pos };
                let b = Bpos { inode: 0, ..last.pos };
                lemma_bpos_order(a, p, n.min_key);
                lemma_bpos_order(n.max_key, p, b);
            }
        }
    } else {
        assert forall|e: EntryView| !#[trigger] n.all().contains(e) by {
            if n.all().contains(e) {
                assert(es.contains(e));
            }
        }
    }
}

/// A child passes just if it is there, was not seen before, lies one level below
/// its parent and starts behind the one in front of it; else it is told which of
/// these does not hold.
pub proof fn lemma_child_passes(
    ty: BtreeId,
    level: u8,
    addr: u64,
    m: Map<u64, BtreeNode>,
    seen: Set<u64>,
    prev: Option<Bpos>,
)
    ensures
        check_child(ty, level, addr, m, seen, prev) is None <==> addr != 0 && !seen.contains(addr)
            && m.contains_key(addr) && m[addr].level + 1 == level && (prev matches Some(p) ==> p.lt(
            m[addr].min_key,
        )),
        check_child(ty, level, addr, m, seen, prev) matches Some(f) ==> match f {
            Fault::NullChild(t) => t == ty && addr == 0,
            Fault::ChildTwice(t, a) => t == ty && a == addr && seen.contains(addr),
            Fault::ChildMissing(t, a) => t == ty && a == addr && !m.contains_key(addr),
            Fault::ChildLevel { btree, parent, child } => btree == ty && parent == level && child
                == m[addr].level && child + 1 != level,
            Fault::ChildOverlap(t, a) => t == ty && a == addr && prev is Some && !(prev->0).lt(
                m[addr].min_key,
            ),
            _ => false,
        },
{
}

/// The address in the routing entry number `i` of a node, in key order.
pub open spec fn child_at(n: BtreeNode, i: int) -> u64 {
    in_order(n)[i].bch_val().paddr.addr
}

/// Where a node passes, the nodes below it are other ones than those that were
/// seen before, and have been seen then.
proof fn lemma_seen(ty: BtreeId, n: BtreeNode, m: Map<u64, BtreeNode>, seen: Set<u64>)
    requires
        check_node(ty, n, m, seen) is Ok,
    ensures
        seen.subset_of(check_node(ty, n, m, seen)->Ok_0),
        n.level > 0 ==> forall|i: int|
            0 <= i < in_order(n).len() ==> check_node(ty, n, m, seen)->Ok_0.contains(
                #[trigger] child_at(n, i),
            ) && !seen.contains(child_at(n, i)),
    decreases n.level, 1int, 0int,
{
    if n.level > 0 {
        lemma_seen_from(ty, n, m, seen, 0, None);
    }
}

#[verifier::rlimit(40)]
proof fn lemma_seen_from(
    ty: BtreeId,
    n: BtreeNode,
    m: Map<u64, BtreeNode>,
    seen: Set<u64>,
    i: int,
    prev: Option<Bpos>,
)
    requires
        n.level > 0,
        0 <= i <= in_order(n).len(),
        check_children(ty, n, m, seen, i, prev) is Ok,
    ensures
        seen.subset_of(check_children(ty, n, m, seen, i, prev)->Ok_0),
        forall|j: int|
            i <= j < in_order(n).len() ==> check_children(ty, n, m, seen, i, prev)->Ok_0.contains(
                #[trigger] child_at(n, j),
            ) && !seen.contains(child_at(n, j)) && child_at(n, j) != 0 && m.contains_key(
                child_at(n, j),
            ) && m[child_at(n, j)].level + 1 == n.level,
        forall|j: int, k: int|
            i <= j < k < in_order(n).len() ==> #[trigger] child_at(n, j) != #[trigger] child_at(n, k),
        forall|j: int|
            i < j < in_order(n).len() ==> m[child_at(n, j - 1)].max_key.lt(
                m[#[trigger] child_at(n, j)].min_key,
            ),
        i < in_order(n).len() ==> (prev matches Some(p) ==> p.lt(m[child_at(n, i)].min_key)),
        forall|j: int|
            i <= j < in_order(n).len() ==> exists|s: Set<u64>|
                check_node(ty, m[#[trigger] child_at(n, j)], m, s) is Ok && #[trigger] seen.subset_of(
                    s,
                ),
    decreases n.level, 0int, in_order(n).len() - i,
{
    if i < in_order(n).len() {
        let a = child_at(n, i);
        lemma_child_passes(ty, n.level, a, m, seen, prev);
        let s1 = seen.insert(a);
        lemma_seen(ty, m[a], m, s1);
        let s = check_node(ty, m[a], m, s1)->Ok_0;
        lemma_seen_from(ty, n, m, s, i + 1, Some(m[a].max_key));
        let r = check_children(ty, n, m, seen, i, prev)->Ok_0;
        assert(seen.subset_of(s1));
        assert(s1.contains(a) && s.contains(a) && r.contains(a));
        assert(seen.subset_of(s));
        assert forall|j: int| i <= j < in_order(n).len() implies exists|x: Set<u64>|
            check_node(ty, m[#[trigger] child_at(n, j)], m, x) is Ok && #[trigger] seen.subset_of(
                x,
            ) by {
            if j > i {
                let x = choose|x: Set<u64>|
                    check_node(ty, m[child_at(n, j)], m, x) is Ok && #[trigger] s.subset_of(x);
                assert(seen.subset_of(x));
            } else {
                assert(check_node(ty, m[child_at(n, j)], m, s1) is Ok);
            }
        }
    }
}

/// Below an inner node that passes no two routing entries have the same child,
/// every child ends before the next one starts, and every child passes itself.
pub proof fn lemma_node_passes(
    ty: BtreeId,
    n: BtreeNode,
    m: Map<u64, BtreeNode>,
    seen: Set<u64>,
    i: int,
    j: int,
)
    requires
        n.level > 0,
        check_node(ty, n, m, seen) is Ok,
        0 <= i < j < in_order(n).len(),
    ensures
        child_at(n, i) != child_at(n, j),
        !seen.contains(child_at(n, i)),
        m.contains_key(child_at(n, i)) && m.contains_key(child_at(n, j)),
        m[child_at(n, i)].level + 1 == n.level,
        j == i + 1 ==> m[child_at(n, i)].max_key.lt(m[child_at(n, j)].min_key),
        exists|s: Set<u64>|
            check_node(ty, m[child_at(n, i)], m, s) is Ok && #[trigger] seen.subset_of(s),
{
    lemma_seen_from(ty, n, m, seen, 0, None);
}

/// No node is reached twice: a node below one child of a node that passes is none
/// of the other children.
pub proof fn lemma_nodes_apart(
    ty: BtreeId,
    n: BtreeNode,
    m: Map<u64, BtreeNode>,
    seen: Set<u64>,
    i: int,
    g: int,
    j: int,
)
    requires
        n.level > 1,
        check_node(ty, n, m, seen) is Ok,
        0 <= i < j < in_order(n).len(),
        0 <= g < in_order(m[child_at(n, i)]).len(),
    ensures
        child_at(m[child_at(n, i)], g) != child_at(n, j),
        !seen.contains(child_at(m[child_at(n, i)], g)),
{
    lemma_apart_from(ty, n, m, seen, 0, None, i, g, j);
}

#[verifier::rlimit(40)]
proof fn lemma_apart_from(
    ty: BtreeId,
    n: BtreeNode,
    m: Map<u64, BtreeNode>,
    seen: Set<u64>,
    at: int,
    prev: Option<Bpos>,
    i: int,
    g: int,
    j: int,
)
    requires
        n.level > 1,
        check_children(ty, n, m, seen, at, prev) is Ok,
        0 <= at <= i < j < in_order(n).len(),
        0 <= g < in_order(m[child_at(n, i)]).len(),
    ensures
        child_at(m[child_at(n, i)], g) != child_at(n, j),
        !seen.contains(child_at(m[child_at(n, i)], g)),
    decreases i - at,
{
    let a = child_at(n, at);
    lemma_child_passes(ty, n.level, a, m, seen, prev);
    let s1 = seen.insert(a);
    lemma_seen(ty, m[a], m, s1);
    let s = check_node(ty, m[a], m, s1)->Ok_0;
    if at == i {
        assert(m[a].level > 0);
        let c = child_at(m[a], g);
        assert(s.contains(c) && !s1.contains(c));
        lemma_seen_from(ty, n, m, s, at + 1, Some(m[a].max_key));
        assert(!s.contains(child_at(n, j)));
    } else {
        lemma_apart_from(ty, n, m, s, at + 1, Some(m[a].max_key), i, g, j);
        assert(seen.subset_of(s));
    }
}

/// An inner node without routing entries does not pass.
pub proof fn lemma_empty_fails(ty: BtreeId, n: BtreeNode, m: Map<u64, BtreeNode>, seen: Set<u64>)
    requires
        n.level > 0,
        n.all().len() == 0,
    ensures
        check_node(ty, n, m, seen) == Err::<Set<u64>, Fault>(Fault::EmptyInnerNode(ty, n.level)),
{
    lemma_stable_sort(n.all(), false);
}

// ── entries ─────────────────────────────────────────────────────────────

/// Whether every position comes before the ones behind it.
pub open spec fn rises(es: Seq<BtreeEntry>) -> bool {
    forall|i: int, j: int|
        0 <= i < j < es.len() ==> (#[trigger] es[i]).pos.lt((#[trigger] es[j]).pos)
}

proof fn lemma_unordered(ps: Seq<Bpos>, i: int)
    requires
        1 <= i,
    ensures
        first_unordered(ps, i) matches Some(k) ==> i <= k < ps.len() && ps[k].lt(ps[k - 1]),
        first_repeated(ps, i) matches Some(k) ==> i <= k < ps.len() && ps[k] == ps[k - 1],
    decreases ps.len() - i,
{
    if i < ps.len() {
        lemma_unordered(ps, i + 1);
    }
}

proof fn lemma_ordered_to(ps: Seq<Bpos>, i: int, j: int)
    requires
        1 <= i <= j < ps.len(),
        first_unordered(ps, i) matches Some(k) ==> j < k,
    ensures
        !ps[j].lt(ps[j - 1]),
    decreases j - i,
{
    if i < j {
        lemma_ordered_to(ps, i + 1, j);
    }
}

proof fn lemma_ordered_pair(ps: Seq<Bpos>, i: int, j: int)
    requires
        0 <= i < j < ps.len(),
        first_unordered(ps, 1) matches Some(k) ==> j < k,
    ensures
        !ps[j].lt(ps[i]),
    decreases j - i,
{
    lemma_ordered_to(ps, 1, j);
    if i < j - 1 {
        lemma_ordered_pair(ps, i, j - 1);
        lemma_bpos_order(ps[j], ps[i], ps[j - 1]);
        lemma_bpos_order(ps[j - 1], ps[j], ps[i]);
    }
}

/// A tree passes just if its nodes do and every position comes before the ones
/// behind it. Where an entry comes before the one in front of it, the first such
/// is named; else a position that occurs twice.
#[verifier::rlimit(40)]
pub proof fn lemma_tree_passes(ty: BtreeId, t: Btree, es: Seq<BtreeEntry>)
    requires
        es.len() <= u64::MAX,
    ensures
        ({
            let nodes = check_node(ty, t.root.node, t.nodes(), Set::empty());
            let r = check_tree(ty, t, es);
            &&& r is None <==> nodes is Ok && rises(es)
            &&& nodes matches Err(f) ==> r == Some(f)
            &&& nodes is Ok && r is Some ==> match r->0 {
                Fault::EntryOrder(b, i) => b == ty && 1 <= i < es.len() && es[i as int].pos.lt(
                    es[i - 1].pos,
                ) && forall|x: int, y: int|
                    0 <= x < y < i ==> !(#[trigger] es[y]).pos.lt((#[trigger] es[x]).pos),
                Fault::DuplicateEntry(b, p) => b == ty && exists|i: int|
                    1 <= i < es.len() && (#[trigger] es[i]).pos == p && es[i - 1].pos == p,
                _ => false,
            }
        }),
{
    let ps = positions(es);
    let nodes = check_node(ty, t.root.node, t.nodes(), Set::empty());
    let r = check_tree(ty, t, es);
    lemma_unordered(ps, 1);
    if nodes is Ok {
        if let Some(i) = first_unordered(ps, 1) {
            assert(es[i].pos == ps[i] && es[i - 1].pos == ps[i - 1]);
            lemma_bpos_order(ps[i], ps[i - 1], ps[i]);
            assert(!rises(es));
            assert forall|x: int, y: int| 0 <= x < y < i implies !(#[trigger] es[y]).pos.lt(
                (#[trigger] es[x]).pos,
            ) by {
                lemma_ordered_pair(ps, x, y);
                assert(es[x].pos == ps[x] && es[y].pos == ps[y]);
            }
        } else if let Some(i) = first_repeated(ps, 1) {
            assert(es[i].pos == ps[i] && es[i - 1].pos == ps[i - 1]);
            lemma_bpos_order(ps[i], ps[i - 1], ps[i]);
            assert(!rises(es));
        } else {
            assert forall|i: int, j: int| 0 <= i < j < es.len() implies (
            #[trigger] es[i]).pos.lt((#[trigger] es[j]).pos) by {
                crate::topology::lemma_checked_order(ty, t, es, i, j);
            }
        }
    }
}

/// All trees pass just if each does; else the fault is that of the first that does
/// not.
pub proof fn lemma_trees_pass(e: BtreeEngine, ls: Seq<Seq<BtreeEntry>>, i: int)
    requires
        0 <= i <= 7,
    ensures
        e.check_from(ls, i) is None <==> forall|j: int|
            i <= j < 7 ==> check_tree(
                BtreeId::spec_from(j)->0,
                #[trigger] e.trees@[j],
                ls[j],
            ) is None,
        e.check_from(ls, i) matches Some(f) ==> exists|j: int|
            i <= j < 7 && check_tree(BtreeId::spec_from(j)->0, #[trigger] e.trees@[j], ls[j])
                == Some(f) && forall|k: int|
                i <= k < j ==> check_tree(
                    BtreeId::spec_from(k)->0,
                    #[trigger] e.trees@[k],
                    ls[k],
                ) is None,
    decreases 7 - i,
{
    if i < 7 {
        lemma_trees_pass(e, ls, i + 1);
        if check_tree(BtreeId::spec_from(i)->0, e.trees@[i], ls[i]) is None && e.check_from(
            ls,
            i + 1,
        ) is Some {
            let f = e.check_from(ls, i + 1)->0;
            let j = choose|j: int|
                i + 1 <= j < 7 && check_tree(BtreeId::spec_from(j)->0, #[trigger] e.trees@[j], ls[j])
                    == Some(f) && forall|k: int|
                    i + 1 <= k < j ==> check_tree(
                        BtreeId::spec_from(k)->0,
                        #[trigger] e.trees@[k],
                        ls[k],
                    ) is None;
            assert(check_tree(BtreeId::spec_from(j)->0, e.trees@[j], ls[j]) == Some(f));
        }
    }
}

// ── scans and loads ─────────────────────────────────────────────────────

/// A scan hands out the nodes of the tree and the level that lie in the range,
/// bounds included, in the order in which they were found: all of them, or as many
/// as were asked for.
pub proof fn lemma_scanned(
    nodes: Seq<FoundBtreeNode>,
    btree_id: u32,
    level: u16,
    min_pos: u64,
    max_pos: u64,
    most: usize,
)
    ensures
        ({
            let all = those_in(nodes, btree_id, level, min_pos, max_pos);
            let r = at_most(all, most);
            &&& forall|i: int|
                0 <= i < all.len() ==> 0 <= #[trigger] all[i] < nodes.len()
                    && nodes[all[i]].btree_id == btree_id && nodes[all[i]].level == level
                    && nodes[all[i]].min_key >= min_pos && nodes[all[i]].max_key <= max_pos
            &&& forall|i: int, j: int|
                0 <= i < j < all.len() ==> (#[trigger] all[i]) < (#[trigger] all[j])
            &&& forall|k: int|
                0 <= k < nodes.len() && (#[trigger] nodes[k]).btree_id == btree_id && nodes[k].level
                    == level && nodes[k].min_key >= min_pos && nodes[k].max_key <= max_pos
                    ==> all.contains(k)
            &&& r.len() == (if all.len() < most {
                all.len() as int
            } else {
                most as int
            })
            &&& forall|i: int| 0 <= i < r.len() ==> #[trigger] r[i] == all[i]
        }),
    decreases nodes.len(),
{
    if nodes.len() > 0 {
        let f = nodes.drop_last();
        lemma_scanned(f, btree_id, level, min_pos, max_pos, most);
        let a = those_in(f, btree_id, level, min_pos, max_pos);
        let all = those_in(nodes, btree_id, level, min_pos, max_pos);
        assert forall|i: int| 0 <= i < a.len() implies #[trigger] all[i] == a[i] && nodes[a[i]]
            == f[a[i]] by {}
        assert forall|k: int|
            0 <= k < nodes.len() && (#[trigger] nodes[k]).btree_id == btree_id && nodes[k].level
                == level && nodes[k].min_key >= min_pos && nodes[k].max_key
                <= max_pos implies all.contains(k) by {
            if k < f.len() {
                assert(f[k] == nodes[k]);
                assert(a.contains(k));
                let i = choose|i: int| 0 <= i < a.len() && a[i] == k;
                assert(all[i] == k);
            } else {
                assert(all[a.len() as int] == k);
            }
        }
    }
}

/// The children of a node that was read are all of the level below it, or the
/// first one that is not is told.
pub proof fn lemma_wrong_level(ptrs: Seq<BtreePtrV2>, level: int, i: int)
    requires
        0 <= i,
    ensures
        match wrong_level(ptrs, level, i) {
            Some(k) => i <= k < ptrs.len() && ptrs[k].level != level && forall|j: int|
                i <= j < k ==> (#[trigger] ptrs[j]).level == level,
            None => forall|j: int| i <= j < ptrs.len() ==> (#[trigger] ptrs[j]).level == level,
        },
    decreases ptrs.len() - i,
{
    if i < ptrs.len() {
        lemma_wrong_level(ptrs, level, i + 1);
    }
}

/// A node that was read is found at the place that it was read from, with all that
/// it holds; every other node is where it was, and nothing counts as changed that
/// did not. No address that is given out later is its own.
pub proof fn lemma_node_taken(t: Btree, new: Btree, node: BtreeNode, ptr: BtreePtrV2, a: u64)
    requires
        t.node_taken(new, node, ptr),
        ptr.block_addr < u64::MAX,
        a != ptr.block_addr,
    ensures
        new.nodes().contains_key(ptr.block_addr),
        new.nodes()[ptr.block_addr].data == node.data,
        new.nodes()[ptr.block_addr].sets == node.sets,
        new.nodes()[ptr.block_addr].level == node.level,
        new.nodes()[ptr.block_addr].key_count == node.key_count,
        new.nodes()[ptr.block_addr].block_addr == ptr.block_addr,
        new.nodes().contains_key(a) == t.nodes().contains_key(a),
        t.nodes().contains_key(a) ==> new.nodes()[a] == t.nodes()[a],
        new.root == t.root,
        new.cache.dirty@ == t.cache.dirty@,
        new.cache.next_addr > ptr.block_addr,
        new.cache.next_addr >= t.cache.next_addr,
        new.cache.next_addr == t.cache.next_addr || new.cache.next_addr == ptr.block_addr + 1,
{
}

/// A node is known again by its address and its generation together.
pub proof fn lemma_taken_before(seen: Seq<(u64, u32)>, ptr: BtreePtrV2)
    ensures
        taken(seen, ptr) <==> exists|i: int|
            0 <= i < seen.len() && (#[trigger] seen[i]).0 == ptr.block_addr && seen[i].1
                == ptr.generation,
{
    if exists|i: int|
        0 <= i < seen.len() && (#[trigger] seen[i]).0 == ptr.block_addr && seen[i].1
            == ptr.generation {
        let i = choose|i: int|
            0 <= i < seen.len() && (#[trigger] seen[i]).0 == ptr.block_addr && seen[i].1
                == ptr.generation;
        assert(seen[i] == (ptr.block_addr, ptr.generation));
    }
}

} // verus!
