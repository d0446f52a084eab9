//! The order in which a walk visits the entries of a tree.

use crate::key::{BchVal, BtreeKey, EntryView};
use crate::node::BtreeNode;
use crate::route::{
    extents, lemma_best_range, lemma_routing_range, lemma_smallest_range, route, routing_index,
};
use vstd::prelude::*;

verus! {

/// The node at an address; none where it is not cached.
pub open spec fn look(m: Map<u64, BtreeNode>, a: u64) -> Option<BtreeNode> {
    if m.contains_key(a) {
        Some(m[a])
    } else {
        None
    }
}

/// The entries of a node; a node that is not there has none.
pub open spec fn entries_of(n: Option<BtreeNode>) -> Seq<EntryView> {
    match n {
        Some(node) => node.all(),
        None => Seq::<EntryView>::empty(),
    }
}

/// The number of keys of a node.
pub open spec fn count_of(n: Option<BtreeNode>) -> int {
    match n {
        Some(node) => node.key_count as int,
        None => 0,
    }
}

/// What a walk visits in a leaf: all entries from the number `offset`, counted
/// from 1, on.
pub open spec fn leaf_rest(n: Option<BtreeNode>, offset: int) -> Seq<EntryView> {
    let es = entries_of(n);
    if offset < 1 || offset > es.len() {
        Seq::<EntryView>::empty()
    } else {
        es.subrange(offset - 1, es.len() as int)
    }
}

/// The child that the entry number `idx`, counted from 1, of a node points to.
pub open spec fn child_at(m: Map<u64, BtreeNode>, n: Option<BtreeNode>, idx: int) -> Option<
    BtreeNode,
> {
    look(m, entries_of(n)[idx - 1].bch_val().paddr.addr)
}

/// Whether the entry number `j` with the key `kj` comes behind the entry number
/// `i` with the key `ki`: by key, and by number where the keys tie.
pub open spec fn behind(kj: BtreeKey, j: int, ki: BtreeKey, i: int) -> bool {
    ki.lt(kj) || (!kj.lt(ki) && j > i)
}

/// The first one of the entries behind the entry number `i` with the key `k`.
pub open spec fn first_behind(es: Seq<(BtreeKey, BchVal)>, k: BtreeKey, i: int) -> Option<int>
    decreases es.len(),
{
    if es.len() == 0 {
        None
    } else {
        let b = first_behind(es.drop_last(), k, i);
        let e = es.last().0;
        if behind(e, es.len() - 1, k, i) && (b is None || e.lt(es[b->0].0)) {
            Some(es.len() - 1)
        } else {
            b
        }
    }
}

/// The number of entries behind the entry number `i` with the key `k`.
pub open spec fn count_behind(es: Seq<(BtreeKey, BchVal)>, k: BtreeKey, i: int) -> nat
    decreases es.len(),
{
    if es.len() == 0 {
        0
    } else {
        count_behind(es.drop_last(), k, i) + (if behind(es.last().0, es.len() - 1, k, i) {
            1nat
        } else {
            0nat
        })
    }
}

/// The number, counted from 1, of the child behind the child number `idx` in key
/// order.
pub open spec fn next_child(n: Option<BtreeNode>, idx: int) -> Option<int> {
    let es = extents(entries_of(n));
    if 1 <= idx <= es.len() {
        match first_behind(es, es[idx - 1].0, idx - 1) {
            Some(j) => Some(j + 1),
            None => None,
        }
    } else {
        None
    }
}

/// The number of children behind the child number `idx` in key order.
pub open spec fn children_behind(n: Option<BtreeNode>, idx: int) -> nat {
    let es = extents(entries_of(n));
    if 1 <= idx <= es.len() {
        count_behind(es, es[idx - 1].0, idx - 1)
    } else {
        0
    }
}

/// What `first_behind` picks: an entry behind which all others behind lie.
pub proof fn lemma_first_behind(es: Seq<(BtreeKey, BchVal)>, k: BtreeKey, i: int)
    ensures
        match first_behind(es, k, i) {
            Some(j) => 0 <= j < es.len() && behind(es[j].0, j, k, i) && forall|l: int|
                0 <= l < es.len() && l != j && behind((#[trigger] es[l]).0, l, k, i) ==> behind(
                    es[l].0,
                    l,
                    es[j].0,
                    j,
                ),
            None => forall|l: int|
                0 <= l < es.len() ==> !behind((#[trigger] es[l]).0, l, k, i),
        },
    decreases es.len(),
{
    if es.len() > 0 {
        let f = es.drop_last();
        let n = es.len() - 1;
        lemma_first_behind(f, k, i);
        assert(forall|l: int| 0 <= l < n ==> #[trigger] es[l] == f[l]);
        match first_behind(es, k, i) {
            Some(j) => {
                assert forall|l: int|
                    0 <= l < es.len() && l != j && behind(
                        (#[trigger] es[l]).0,
                        l,
                        k,
                        i,
                    ) implies behind(es[l].0, l, es[j].0, j) by {
                    if l < n {
                        assert(f[l] == es[l]);
                        assert(behind(f[l].0, l, k, i));
                    }
                }
            },
            None => {
                assert forall|l: int| 0 <= l < es.len() implies !behind(
                    (#[trigger] es[l]).0,
                    l,
                    k,
                    i,
                ) by {
                    if l < n {
                        assert(f[l] == es[l]);
                    }
                }
            },
        }
    }
}

/// Fewer entries lie behind an entry that lies behind another one.
proof fn lemma_count_behind(es: Seq<(BtreeKey, BchVal)>, k: BtreeKey, i: int, kj: BtreeKey, j: int)
    requires
        behind(kj, j, k, i),
        0 <= j,
        j < es.len() ==> es[j].0 == kj,
    ensures
        count_behind(es, kj, j) + (if j < es.len() {
            1nat
        } else {
            0nat
        }) <= count_behind(es, k, i),
    decreases es.len(),
{
    if es.len() > 0 {
        let f = es.drop_last();
        lemma_count_behind(f, k, i, kj, j);
    }
}

/// The children behind the next child are fewer.
pub proof fn lemma_next_child(n: Option<BtreeNode>, idx: int)
    ensures
        next_child(n, idx) matches Some(j) ==> 1 <= j <= entries_of(n).len() && children_behind(n, j)
            < children_behind(n, idx),
{
    let es = extents(entries_of(n));
    if 1 <= idx <= es.len() {
        let k = es[idx - 1].0;
        lemma_first_behind(es, k, idx - 1);
        if let Some(j) = first_behind(es, k, idx - 1) {
            lemma_count_behind(es, k, idx - 1, es[j].0, j);
        }
    }
}

/// What a walk visits below a node `lvl` levels above the leaves: it goes down
/// to the child for the smallest key, and on to the children behind it.
pub open spec fn subtree_items(m: Map<u64, BtreeNode>, n: Option<BtreeNode>, lvl: int) -> Seq<
    EntryView,
>
    decreases lvl, 1int, 0int,
{
    if lvl <= 0 {
        leaf_rest(n, 1)
    } else {
        let (a, ci) = route(n, BtreeKey::spec_min_key());
        subtree_items(m, look(m, a), lvl - 1) + sibling_items(m, n, lvl, ci as int)
    }
}

/// What a walk visits below the children of a node behind the child number
/// `idx`, in key order.
pub open spec fn sibling_items(
    m: Map<u64, BtreeNode>,
    n: Option<BtreeNode>,
    lvl: int,
    idx: int,
) -> Seq<EntryView>
    decreases lvl, 0int, children_behind(n, idx),
{
    match next_child(n, idx) {
        Some(j) => if lvl > 0 && children_behind(n, j) < children_behind(n, idx) {
            subtree_items(m, child_at(m, n, j), lvl - 1) + sibling_items(m, n, lvl, j)
        } else {
            Seq::<EntryView>::empty()
        },
        None => Seq::<EntryView>::empty(),
    }
}

/// The number of the child that a walk goes down to first; 0 for a node without
/// keys.
pub open spec fn first_child(n: Option<BtreeNode>) -> int {
    route(n, BtreeKey::spec_min_key()).1 as int
}

/// Whether a walk comes by the child number `idx`: it is the first one or lies
/// behind it.
pub open spec fn on_walk(n: Option<BtreeNode>, idx: int) -> bool {
    let es = extents(entries_of(n));
    let c = first_child(n);
    idx == c || (1 <= c <= es.len() && 1 <= idx <= es.len() && behind(
        es[idx - 1].0,
        idx - 1,
        es[c - 1].0,
        c - 1,
    ))
}

/// The child number `idx` of a node; a node without keys has its child at the
/// address 0.
pub open spec fn child_no(m: Map<u64, BtreeNode>, n: Option<BtreeNode>, idx: int) -> Option<
    BtreeNode,
> {
    if 1 <= idx <= entries_of(n).len() {
        child_at(m, n, idx)
    } else {
        look(m, 0)
    }
}

/// How many nodes a walk comes by below a node.
pub open spec fn subtree_work(m: Map<u64, BtreeNode>, n: Option<BtreeNode>, lvl: int) -> nat
    decreases lvl, 1int, 0int,
{
    if lvl <= 0 {
        1
    } else {
        let (a, ci) = route(n, BtreeKey::spec_min_key());
        1 + subtree_work(m, look(m, a), lvl - 1) + sibling_work(m, n, lvl, ci as int)
    }
}

/// How many nodes a walk comes by below the children behind the number `idx`.
pub open spec fn sibling_work(
    m: Map<u64, BtreeNode>,
    n: Option<BtreeNode>,
    lvl: int,
    idx: int,
) -> nat
    decreases lvl, 0int, children_behind(n, idx),
{
    match next_child(n, idx) {
        Some(j) => if lvl > 0 && children_behind(n, j) < children_behind(n, idx) {
            1 + subtree_work(m, child_at(m, n, j), lvl - 1) + sibling_work(m, n, lvl, j)
        } else {
            0
        },
        None => 0,
    }
}

/// The node that a descent for `k` comes to after `i` steps.
pub open spec fn descent_node(m: Map<u64, BtreeNode>, root: BtreeNode, k: BtreeKey, i: int) -> Option<
    BtreeNode,
>
    decreases i,
{
    if i <= 0 {
        Some(root)
    } else {
        look(m, route(descent_node(m, root, k, i - 1), k).0)
    }
}

/// The address that a descent for `k` goes to in its step number `i`, counted
/// from 1.
pub open spec fn descent_addr(m: Map<u64, BtreeNode>, root: BtreeNode, k: BtreeKey, i: int) -> u64 {
    route(descent_node(m, root, k, i - 1), k).0
}

/// Below a node that is not there a walk visits nothing at its own level.
pub proof fn lemma_route_index(n: Option<BtreeNode>, k: BtreeKey)
    requires
        n matches Some(node) ==> node.wf(),
    ensures
        route(n, k).1 <= 10922,
        count_of(n) <= entries_of(n).len() <= 10922,
        route(n, k).1 > 0 ==> route(n, k).0 == entries_of(n)[route(n, k).1 - 1].bch_val().paddr.addr
            && route(n, k).1 <= entries_of(n).len(),
{
    if let Some(node) = n {
        node.lemma_all();
        if node.key_count > 0 {
            lemma_routing_range(extents(node.all()), k);
        }
    }
}

/// A walk comes by the child that a key is sent to.
pub proof fn lemma_child_no(m: Map<u64, BtreeNode>, n: Option<BtreeNode>, k: BtreeKey)
    requires
        n matches Some(node) ==> node.wf(),
    ensures
        child_no(m, n, route(n, k).1 as int) == look(m, route(n, k).0),
        on_walk(n, route(n, k).1 as int),
{
    let min = BtreeKey::spec_min_key();
    lemma_route_index(n, k);
    lemma_route_index(n, min);
    if let Some(node) = n {
        node.lemma_all();
        if node.key_count > 0 {
            let es = extents(node.all());
            lemma_routing_range(es, k);
            lemma_routing_range(es, min);
            lemma_best_range(es, k);
            lemma_best_range(es, min);
            lemma_smallest_range(es);
            let i = routing_index(es, k);
            let c = routing_index(es, min);
            assert(!es[i].0.lt(es[c].0));
            assert(i == c || behind(es[i].0, i, es[c].0, c));
        }
    }
}

/// A walk comes by the next child too.
pub proof fn lemma_next_on_walk(m: Map<u64, BtreeNode>, n: Option<BtreeNode>, idx: int)
    requires
        on_walk(n, idx),
    ensures
        next_child(n, idx) matches Some(j) ==> on_walk(n, j) && child_no(m, n, j) == child_at(
            m,
            n,
            j,
        ),
{
    let es = extents(entries_of(n));
    if 1 <= idx <= es.len() {
        lemma_first_behind(es, es[idx - 1].0, idx - 1);
    }
}

impl BtreeNode {
    /// The number of entries in all sets.
    pub fn entry_count(&self) -> (r: u16)
        requires
            self.wf(),
        ensures
            r == self.all().len(),
            r <= 10922,
    {
        let (n0, n1, n2) = self.set_counts();
        (n0 + n1 + n2) as u16
    }

    /// The number of the child behind the child number `idx` in key order.
    pub fn next_child_idx(&self, idx: u16) -> (r: Option<u16>)
        requires
            self.wf(),
        ensures
            (match r {
                Some(j) => Some(j as int),
                None => None::<int>,
            }) == next_child(Some(*self), idx as int),
            r matches Some(j) ==> 1 <= j <= 10922,
    {
        let all = self.all_extents();
        let ghost es = extents(self.all());
        let n: usize = all.len();
        if idx == 0 || idx as usize > n {
            return None;
        }
        let at: usize = idx as usize - 1;
        let k = all[at].0;
        let mut best: Option<usize> = None;
        let mut i: usize = 0;
        assert(es.take(0) =~= Seq::<(BtreeKey, BchVal)>::empty());
        while i < n
            invariant
                all@ == es,
                n == es.len(),
                n <= 10922,
                i <= n,
                best matches Some(j) ==> j < i,
                (match best {
                    Some(j) => Some(j as int),
                    None => None::<int>,
                }) == first_behind(es.take(i as int), k, at as int),
            decreases n - i,
        {
            let e = all[i].0;
            proof {
                assert(es.take(i + 1).drop_last() =~= es.take(i as int));
                assert(es.take(i + 1).last() == es[i as int]);
            }
            if k.precedes(&e) || (!e.precedes(&k) && i > at) {
                match best {
                    None => {
                        best = Some(i);
                    },
                    Some(j) => {
                        assert(es.take(i + 1)[j as int] == es[j as int]);
                        if e.precedes(&all[j].0) {
                            best = Some(i);
                        }
                    },
                }
            }
            i = i + 1;
        }
        assert(es.take(n as int) =~= es);
        match best {
            Some(j) => Some((j + 1) as u16),
            None => None,
        }
    }
}

} // verus!
