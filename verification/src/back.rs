//! Stepping back along a walk.

use crate::cache::NodeCache;
use crate::iter::{
    lemma_links_at, lemma_links_pop, lemma_links_push, lemma_links_same, links, rest_up, BtreeIter,
    BtreePathLevel,
};
use crate::iter_path::copy_path;
use crate::key::{BchVal, Bpos, BtreeKey, EntryView};
use crate::node::BtreeNode;
use crate::node_read::as_extent;
use crate::route::extents;
use crate::walk::{
    behind, child_no, entries_of, first_behind, first_child, lemma_child_no, lemma_first_behind,
    leaf_rest, lemma_next_child, lemma_route_index, next_child, on_walk, sibling_items, subtree_items,
};
use vstd::prelude::*;

verus! {

/// The last one of the entries that the entry number `i` with the key `k` lies
/// behind.
pub open spec fn last_before(es: Seq<(BtreeKey, BchVal)>, k: BtreeKey, i: int) -> Option<int>
    decreases es.len(),
{
    if es.len() == 0 {
        None
    } else {
        let b = last_before(es.drop_last(), k, i);
        let e = es.last().0;
        if behind(k, i, e, es.len() - 1) && (b is None || !e.lt(es[b->0].0)) {
            Some(es.len() - 1)
        } else {
            b
        }
    }
}

/// The number of entries that the entry number `i` with the key `k` lies behind.
pub open spec fn count_before(es: Seq<(BtreeKey, BchVal)>, k: BtreeKey, i: int) -> nat
    decreases es.len(),
{
    if es.len() == 0 {
        0
    } else {
        count_before(es.drop_last(), k, i) + (if behind(k, i, es.last().0, es.len() - 1) {
            1nat
        } else {
            0nat
        })
    }
}

/// The entry with the greatest key; the last one of those that tie.
pub open spec fn greatest(es: Seq<(BtreeKey, BchVal)>) -> int
    decreases es.len(),
{
    if es.len() <= 1 {
        0
    } else {
        let b = greatest(es.drop_last());
        if es.last().0.lt(es[b].0) {
            b
        } else {
            es.len() - 1
        }
    }
}

/// The number of the child that a walk goes down to last.
pub open spec fn last_child(n: Option<BtreeNode>) -> int {
    if first_child(n) == 0 {
        0
    } else {
        greatest(extents(entries_of(n))) + 1
    }
}

/// The number of the child that a walk comes by before the child number `idx`.
pub open spec fn prev_child(n: Option<BtreeNode>, idx: int) -> Option<int> {
    let es = extents(entries_of(n));
    if idx != first_child(n) && on_walk(n, idx) {
        match last_before(es, es[idx - 1].0, idx - 1) {
            Some(j) => Some(j + 1),
            None => None,
        }
    } else {
        None
    }
}

/// The number of children before the child number `idx` in key order.
pub open spec fn children_before(n: Option<BtreeNode>, idx: int) -> nat {
    let es = extents(entries_of(n));
    if 1 <= idx <= es.len() {
        count_before(es, es[idx - 1].0, idx - 1)
    } else {
        0
    }
}

/// What a walk visits below the children of a node before the child number
/// `idx`.
pub open spec fn siblings_before(
    m: Map<u64, BtreeNode>,
    n: Option<BtreeNode>,
    lvl: int,
    idx: int,
) -> Seq<EntryView>
    decreases children_before(n, idx),
{
    match prev_child(n, idx) {
        Some(j) => if children_before(n, j) < children_before(n, idx) {
            siblings_before(m, n, lvl, j) + subtree_items(m, child_no(m, n, j), lvl - 1)
        } else {
            Seq::<EntryView>::empty()
        },
        None => Seq::<EntryView>::empty(),
    }
}

/// What a walk visits before the node number `i` of a path of a tree with
/// `depth` levels below the root.
pub open spec fn before_up(
    m: Map<u64, BtreeNode>,
    path: Seq<BtreePathLevel>,
    i: int,
    depth: int,
) -> Seq<EntryView>
    decreases i,
{
    if i <= 0 {
        Seq::<EntryView>::empty()
    } else {
        before_up(m, path, i - 1, depth) + siblings_before(
            m,
            path[i - 1].view_node(),
            depth - i + 1,
            path[i].child_idx as int,
        )
    }
}

/// What a walk visits in a leaf before the entry number `offset`, counted from 1.
pub open spec fn leaf_before(n: Option<BtreeNode>, offset: int) -> Seq<EntryView> {
    let es = entries_of(n);
    if offset < 1 {
        Seq::<EntryView>::empty()
    } else if offset > es.len() {
        es
    } else {
        es.take(offset - 1)
    }
}

/// What a walk visits before the place at which a path ends.
pub open spec fn before_place(
    m: Map<u64, BtreeNode>,
    path: Seq<BtreePathLevel>,
    depth: int,
) -> Seq<EntryView> {
    before_up(m, path, depth, depth) + leaf_before(
        path[depth].view_node(),
        path[depth].offset as int,
    )
}

// ── lemmas ──────────────────────────────────────────────────────────────

proof fn lemma_last_before(es: Seq<(BtreeKey, BchVal)>, k: BtreeKey, i: int)
    ensures
        match last_before(es, k, i) {
            Some(j) => 0 <= j < es.len() && behind(k, i, es[j].0, j) && forall|l: int|
                0 <= l < es.len() && l != j && behind(k, i, (#[trigger] es[l]).0, l) ==> behind(
                    es[j].0,
                    j,
                    es[l].0,
                    l,
                ),
            None => forall|l: int|
                0 <= l < es.len() ==> !behind(k, i, (#[trigger] es[l]).0, l),
        },
    decreases es.len(),
{
    if es.len() > 0 {
        let f = es.drop_last();
        let n = es.len() - 1;
        lemma_last_before(f, k, i);
        assert(forall|l: int| 0 <= l < n ==> #[trigger] es[l] == f[l]);
        match last_before(es, k, i) {
            Some(j) => {
                assert forall|l: int|
                    0 <= l < es.len() && l != j && behind(
                        k,
                        i,
                        (#[trigger] es[l]).0,
                        l,
                    ) implies behind(es[j].0, j, es[l].0, l) by {
                    if l < n {
                        assert(f[l] == es[l]);
                        assert(behind(k, i, f[l].0, l));
                    }
                }
            },
            None => {
                assert forall|l: int| 0 <= l < es.len() implies !behind(
                    k,
                    i,
                    (#[trigger] es[l]).0,
                    l,
                ) by {
                    if l < n {
                        assert(f[l] == es[l]);
                    }
                }
            },
        }
    }
}

proof fn lemma_greatest(es: Seq<(BtreeKey, BchVal)>)
    requires
        es.len() > 0,
    ensures
        0 <= greatest(es) < es.len(),
        forall|l: int|
            0 <= l < es.len() && l != greatest(es) ==> behind(
                es[greatest(es)].0,
                greatest(es),
                (#[trigger] es[l]).0,
                l,
            ),
    decreases es.len(),
{
    if es.len() > 1 {
        let f = es.drop_last();
        let n = es.len() - 1;
        lemma_greatest(f);
        assert(forall|l: int| 0 <= l < n ==> #[trigger] es[l] == f[l]);
        assert forall|l: int| 0 <= l < es.len() && l != greatest(es) implies behind(
            es[greatest(es)].0,
            greatest(es),
            (#[trigger] es[l]).0,
            l,
        ) by {
            if l < n {
                assert(f[l] == es[l]);
            }
        }
    }
}

/// An entry lies behind more entries than one that it lies behind.
proof fn lemma_count_before(es: Seq<(BtreeKey, BchVal)>, k: BtreeKey, i: int, kj: BtreeKey, j: int)
    requires
        behind(k, i, kj, j),
        0 <= j,
        j < es.len() ==> es[j].0 == kj,
    ensures
        count_before(es, kj, j) + (if j < es.len() {
            1nat
        } else {
            0nat
        }) <= count_before(es, k, i),
    decreases es.len(),
{
    if es.len() > 0 {
        let f = es.drop_last();
        lemma_count_before(f, k, i, kj, j);
    }
}

/// The child before another one: a walk comes by it, fewer children are before
/// it, and the other child is the next one.
proof fn lemma_prev_child(n: Option<BtreeNode>, idx: int)
    requires
        n matches Some(node) ==> node.wf(),
    ensures
        prev_child(n, idx) is Some == (idx != first_child(n) && on_walk(n, idx)),
        prev_child(n, idx) matches Some(j) ==> 1 <= j <= entries_of(n).len() && on_walk(n, j)
            && next_child(n, j) == Some(idx) && children_before(n, j) < children_before(n, idx),
{
    let es = extents(entries_of(n));
    let c = first_child(n);
    if idx != c && on_walk(n, idx) {
        let k = es[idx - 1].0;
        lemma_last_before(es, k, idx - 1);
        assert(behind(k, idx - 1, es[c - 1].0, c - 1));
        let p = last_before(es, k, idx - 1)->0;
        lemma_count_before(es, k, idx - 1, es[p].0, p);
        lemma_first_behind(es, es[p].0, p);
        assert(behind(es[idx - 1].0, idx - 1, es[p].0, p));
        let j = first_behind(es, es[p].0, p)->0;
        if j != idx - 1 {
            assert(behind(es[idx - 1].0, idx - 1, es[j].0, j));
            assert(j != p);
            assert(behind(es[p].0, p, es[j].0, j));
            assert(false);
        }
    }
}

/// What is visited below a node: what is below the children before one that a
/// walk comes by, what is below it, and what is below those behind it.
pub proof fn lemma_around_child(m: Map<u64, BtreeNode>, n: Option<BtreeNode>, lvl: int, idx: int)
    requires
        n matches Some(node) ==> node.wf(),
        on_walk(n, idx),
        lvl > 0,
    ensures
        subtree_items(m, n, lvl) == siblings_before(m, n, lvl, idx) + subtree_items(
            m,
            child_no(m, n, idx),
            lvl - 1,
        ) + sibling_items(m, n, lvl, idx),
    decreases children_before(n, idx),
{
    let min = BtreeKey::spec_min_key();
    lemma_route_index(n, min);
    let at = subtree_items(m, child_no(m, n, idx), lvl - 1);
    let later = sibling_items(m, n, lvl, idx);
    if idx == first_child(n) {
        lemma_child_no(m, n, min);
        assert(siblings_before(m, n, lvl, idx) =~= Seq::<EntryView>::empty());
        assert(Seq::<EntryView>::empty() + at =~= at);
    } else {
        lemma_prev_child(n, idx);
        let p = prev_child(n, idx)->0;
        lemma_around_child(m, n, lvl, p);
        lemma_next_child(n, p);
        assert(sibling_items(m, n, lvl, p) == at + later);
        let a = siblings_before(m, n, lvl, p);
        let b = subtree_items(m, child_no(m, n, p), lvl - 1);
        assert(a + b + (at + later) =~= a + b + at + later);
    }
}

/// The last child that a walk comes by has none behind it.
proof fn lemma_last_child(m: Map<u64, BtreeNode>, n: Option<BtreeNode>, lvl: int)
    requires
        n matches Some(node) ==> node.wf(),
        lvl > 0,
    ensures
        0 <= last_child(n) <= entries_of(n).len(),
        on_walk(n, last_child(n)),
        subtree_items(m, n, lvl) == siblings_before(m, n, lvl, last_child(n)) + subtree_items(
            m,
            child_no(m, n, last_child(n)),
            lvl - 1,
        ),
{
    let es = extents(entries_of(n));
    let c = first_child(n);
    let l = last_child(n);
    lemma_route_index(n, BtreeKey::spec_min_key());
    if c > 0 {
        lemma_greatest(es);
        assert(l == c || behind(es[l - 1].0, l - 1, es[c - 1].0, c - 1));
        lemma_first_behind(es, es[l - 1].0, l - 1);
        if let Some(j) = first_behind(es, es[l - 1].0, l - 1) {
            assert(behind(es[j].0, j, es[l - 1].0, l - 1));
            assert(behind(es[l - 1].0, l - 1, es[j].0, j));
        }
    }
    assert(next_child(n, l) is None);
    lemma_around_child(m, n, lvl, l);
    assert(sibling_items(m, n, lvl, l) =~= Seq::<EntryView>::empty());
    let a = siblings_before(m, n, lvl, l) + subtree_items(m, child_no(m, n, l), lvl - 1);
    assert(a + Seq::<EntryView>::empty() =~= a);
}

/// Only the path up to the node matters.
proof fn lemma_before_prefix(
    m: Map<u64, BtreeNode>,
    p: Seq<BtreePathLevel>,
    q: Seq<BtreePathLevel>,
    i: int,
    depth: int,
)
    requires
        i < p.len(),
        i < q.len(),
        forall|j: int|
            0 <= j <= i ==> (#[trigger] p[j]).node == q[j].node && p[j].child_idx == q[j].child_idx,
    ensures
        before_up(m, p, i, depth) == before_up(m, q, i, depth),
    decreases i,
{
    if i > 0 {
        assert(p[i].node == q[i].node);
        assert(p[i - 1].node == q[i - 1].node);
        lemma_before_prefix(m, p, q, i - 1, depth);
    }
}

// ── nodes ───────────────────────────────────────────────────────────────

impl BtreeNode {
    /// The number of the child that a walk comes by before the child number
    /// `idx`.
    pub fn prev_child_idx(&self, idx: u16) -> (r: Option<u16>)
        requires
            self.wf(),
        ensures
            (match r {
                Some(j) => Some(j as int),
                None => None::<int>,
            }) == prev_child(Some(*self), idx as int),
            r matches Some(j) ==> 1 <= j <= 10922,
    {
        let all = self.all_extents();
        let ghost es = extents(self.all());
        let n: usize = all.len();
        let (_addr, first) = self.find_child_node(&BtreeKey::min_key());
        if idx == first || idx == 0 || idx as usize > n || first == 0 || first as usize > n {
            return None;
        }
        let at: usize = idx as usize - 1;
        let start: usize = first as usize - 1;
        let k = all[at].0;
        let k0 = all[start].0;
        if !(k0.precedes(&k) || (!k.precedes(&k0) && at > start)) {
            return None;
        }
        let mut best: Option<usize> = None;
        let mut i: usize = 0;
        assert(es.take(0) =~= Seq::<(BtreeKey, BchVal)>::empty());
        while i < n
            invariant
                all@ == es,
                n == es.len(),
                n <= 10922,
                i <= n,
                best matches Some(j) ==> j < i,
                (match best {
                    Some(j) => Some(j as int),
                    None => None::<int>,
                }) == last_before(es.take(i as int), k, at as int),
            decreases n - i,
        {
            let e = all[i].0;
            proof {
                assert(es.take(i + 1).drop_last() =~= es.take(i as int));
                assert(es.take(i + 1).last() == es[i as int]);
            }
            if e.precedes(&k) || (!k.precedes(&e) && at > i) {
                match best {
                    None => {
                        best = Some(i);
                    },
                    Some(j) => {
                        assert(es.take(i + 1)[j as int] == es[j as int]);
                        if !e.precedes(&all[j].0) {
                            best = Some(i);
                        }
                    },
                }
            }
            i = i + 1;
        }
        assert(es.take(n as int) =~= es);
        match best {
            Some(j) => Some((j + 1) as u16),
            None => None,
        }
    }

    /// The number of the child that a walk goes down to last.
    pub fn last_child_idx(&self) -> (r: u16)
        requires
            self.wf(),
        ensures
            r == last_child(Some(*self)),
            r <= 10922,
    {
        let all = self.all_extents();
        let ghost es = extents(self.all());
        let n: usize = all.len();
        let (_addr, first) = self.find_child_node(&BtreeKey::min_key());
        if first == 0 {
            return 0;
        }
        proof {
            lemma_route_index(Some(*self), BtreeKey::spec_min_key());
        }
        let mut best: usize = 0;
        let mut i: usize = 1;
        while i < n
            invariant
                all@ == es,
                n == es.len(),
                n <= 10922,
                1 <= i <= n,
                best < i,
                best == greatest(es.take(i as int)),
            decreases n - i,
        {
            proof {
                assert(es.take(i + 1).drop_last() =~= es.take(i as int));
                assert(es.take(i + 1)[best as int] == es[best as int]);
            }
            if !all[i].0.precedes(&all[best].0) {
                best = i;
            }
            i = i + 1;
        }
        assert(es.take(n as int) =~= es);
        (best + 1) as u16
    }
}

impl<'a> BtreePathLevel<'a> {
    /// The number of the child before the child number `idx`.
    fn prev_child_idx(&self, idx: u16) -> (r: Option<u16>)
        requires
            self.wf(),
        ensures
            (match r {
                Some(j) => Some(j as int),
                None => None::<int>,
            }) == prev_child(self.view_node(), idx as int),
            r matches Some(j) ==> 1 <= j <= 10922,
    {
        match self.node {
            Some(n) => n.prev_child_idx(idx),
            None => None,
        }
    }

    /// The number of the last child.
    fn last_child_idx(&self) -> (r: u16)
        requires
            self.wf(),
        ensures
            r == last_child(self.view_node()),
            r <= 10922,
    {
        match self.node {
            Some(n) => n.last_child_idx(),
            None => 0,
        }
    }
}

// ── paths ───────────────────────────────────────────────────────────────

/// Whether `new` is a path to the last of `items`, which a walk visits behind
/// `before`.
#[verifier::opaque]
spec fn backed<'a>(
    m: Map<u64, BtreeNode>,
    depth: int,
    new: Seq<BtreePathLevel<'a>>,
    before: Seq<EntryView>,
    items: Seq<EntryView>,
) -> bool {
    let leaf = new[depth];
    &&& new.len() == depth + 1
    &&& items.len() > 0
    &&& 1 <= leaf.offset <= entries_of(leaf.view_node()).len()
    &&& entries_of(leaf.view_node())[leaf.offset - 1] == items.last()
    &&& before_place(m, new, depth) == before + items.drop_last()
}

/// Goes down from the last node of a path to the last entry below it. False, and
/// no change, where nothing is below it.
fn back_into<'a>(cache: &'a NodeCache, depth: u8, path: &mut Vec<BtreePathLevel<'a>>) -> (r: bool)
    requires
        cache.wf(),
        1 <= old(path)@.len() <= depth + 1,
        forall|j: int| 0 <= j < old(path)@.len() ==> (#[trigger] old(path)@[j]).wf(),
    ensures
        forall|j: int| 0 <= j < final(path)@.len() ==> (#[trigger] final(path)@[j]).wf(),
        ({
            let m = cache.nodes@;
            let i = old(path)@.len() - 1;
            let items = subtree_items(m, old(path)@.last().view_node(), depth - i);
            &&& r == (items.len() > 0)
            &&& !r ==> final(path)@ == old(path)@
            &&& r ==> final(path)@.take(i) == old(path)@.take(i)
            &&& r ==> backed(
                m,
                depth as int,
                final(path)@,
                before_up(m, old(path)@, i, depth as int),
                items,
            )
        }),
        final(path)@[0].node == old(path)@[0].node,
        links(cache.nodes@, old(path)@) ==> links(cache.nodes@, final(path)@),
    decreases depth + 1 - old(path)@.len(), 1int, 0nat,
{
    let ghost m = cache.nodes@;
    let ghost d = depth as int;
    let ghost p0 = path@;
    let n: usize = path.len();
    let top = path[n - 1];
    if n == depth as usize + 1 {
        let total: u16 = top.entry_count();
        let ghost es = entries_of(top.view_node());
        proof {
            assert(subtree_items(m, top.view_node(), 0) =~= es);
        }
        if total == 0 {
            return false;
        }
        path.set(n - 1, BtreePathLevel { offset: total, ..top });
        proof {
            lemma_before_prefix(m, p0, path@, d, d);
            if links(m, p0) {
                lemma_links_same(m, p0, path@);
            }
            assert(path@.take(d) =~= p0.take(d));
            assert(es.take(total - 1) =~= es.drop_last());
            reveal(backed);
        }
        return true;
    }
    let idx: u16 = top.last_child_idx();
    proof {
        lemma_last_child(m, top.view_node(), d - (n - 1));
    }
    let r = back_to_child(cache, depth, path, idx);
    proof {
        if r {
            reveal(backed);
            assert(path@.take(n - 1) =~= path@.take(n as int).take(n - 1));
            assert(p0.take(n - 1) =~= p0.take(n as int).take(n - 1));
            assert(p0.take(n as int) =~= p0);
        }
    }
    r
}

/// Goes down from the last node of a path to the last entry below the child
/// number `idx` or one before it. False, and no change, where there is none.
fn back_to_child<'a>(
    cache: &'a NodeCache,
    depth: u8,
    path: &mut Vec<BtreePathLevel<'a>>,
    idx: u16,
) -> (r: bool)
    requires
        cache.wf(),
        1 <= old(path)@.len() <= depth,
        idx <= 10922,
        on_walk(old(path)@.last().view_node(), idx as int),
        forall|j: int| 0 <= j < old(path)@.len() ==> (#[trigger] old(path)@[j]).wf(),
    ensures
        forall|j: int| 0 <= j < final(path)@.len() ==> (#[trigger] final(path)@[j]).wf(),
        ({
            let m = cache.nodes@;
            let i = old(path)@.len() - 1;
            let top = old(path)@.last().view_node();
            let lvl = depth - i;
            let items = siblings_before(m, top, lvl, idx as int) + subtree_items(
                m,
                child_no(m, top, idx as int),
                lvl - 1,
            );
            &&& r == (items.len() > 0)
            &&& !r ==> final(path)@ == old(path)@
            &&& r ==> final(path)@.take(i + 1) == old(path)@
            &&& r ==> backed(
                m,
                depth as int,
                final(path)@,
                before_up(m, old(path)@, i, depth as int),
                items,
            )
        }),
        final(path)@[0].node == old(path)@[0].node,
        links(cache.nodes@, old(path)@) ==> links(cache.nodes@, final(path)@),
    decreases
            depth + 1 - old(path)@.len(),
            0int,
            children_before(old(path)@.last().view_node(), idx as int),
{
    let ghost m = cache.nodes@;
    let ghost d = depth as int;
    let ghost p0 = path@;
    let n: usize = path.len();
    let ghost i0 = n - 1;
    let ghost lvl = d - i0;
    let top = path[n - 1];
    let ghost tn = top.view_node();
    let addr: u64 = match top.read(idx) {
        Some((_k, v)) => v.paddr.addr,
        None => 0,
    };
    let child = cache.get(addr);
    let level = BtreePathLevel::locked(child, 1, idx);
    path.push(level);
    let ghost p1 = path@;
    let ghost here = subtree_items(m, child_no(m, tn, idx as int), lvl - 1);
    let ghost earlier = siblings_before(m, tn, lvl, idx as int);
    let ghost up = before_up(m, p0, i0, d);
    proof {
        assert(level.view_node() == child_no(m, tn, idx as int));
        if links(m, p0) {
            lemma_links_push(m, p0, level);
        }
        lemma_before_prefix(m, p0, p1, i0, d);
        assert(p1[i0] == top);
        assert(p1[n as int] == level);
        assert(before_up(m, p1, n as int, d) == up + earlier);
    }
    if back_into(cache, depth, path) {
        proof {
            assert(path@.take(n as int) =~= p0) by {
                assert(p1.take(n as int) =~= p0);
            }
            assert((earlier + here).drop_last() =~= earlier + here.drop_last());
            assert(up + earlier + here.drop_last() =~= up + (earlier + here.drop_last()));
            assert((earlier + here).last() == here.last());
            reveal(backed);
        }
        return true;
    }
    let _popped = path.pop();
    proof {
        assert(path@ =~= p0);
        assert(earlier + here =~= earlier);
        lemma_prev_child(tn, idx as int);
    }
    match top.prev_child_idx(idx) {
        Some(j) => back_to_child(cache, depth, path, j),
        None => false,
    }
}

/// What comes before may be counted among the items.
proof fn lemma_backed_join<'a>(
    m: Map<u64, BtreeNode>,
    depth: int,
    new: Seq<BtreePathLevel<'a>>,
    up: Seq<EntryView>,
    below: Seq<EntryView>,
)
    requires
        backed(m, depth, new, up, below),
    ensures
        backed(m, depth, new, Seq::<EntryView>::empty(), up + below),
{
    reveal(backed);
    let items = up + below;
    assert(items.drop_last() =~= up + below.drop_last());
    assert(items.last() == below.last());
    assert(Seq::<EntryView>::empty() + items.drop_last() =~= items.drop_last());
}

/// Leaves the last node of a path, and goes to the last entry below a child
/// before it of its parent. False, and no more change, where there is none.
fn back_before<'a>(cache: &'a NodeCache, depth: u8, path: &mut Vec<BtreePathLevel<'a>>) -> (r: bool)
    requires
        cache.wf(),
        2 <= old(path)@.len() <= depth + 1,
        forall|j: int| 0 <= j < old(path)@.len() ==> (#[trigger] old(path)@[j]).wf(),
    ensures
        forall|j: int| 0 <= j < final(path)@.len() ==> (#[trigger] final(path)@[j]).wf(),
        ({
            let m = cache.nodes@;
            let d = depth as int;
            let n = old(path)@.len() as int;
            let items = before_up(m, old(path)@, n - 1, d);
            &&& r ==> backed(m, d, final(path)@, Seq::<EntryView>::empty(), items)
            &&& !r ==> final(path)@.len() == n - 1 && before_up(m, final(path)@, n - 2, d) == items
        }),
        final(path)@[0].node == old(path)@[0].node,
        links(cache.nodes@, old(path)@) ==> links(cache.nodes@, final(path)@),
{
    let ghost m = cache.nodes@;
    let ghost d = depth as int;
    let n: usize = path.len();
    let cur = path[n - 1];
    let ghost p0 = path@;
    let _popped = path.pop();
    let ghost p1 = path@;
    let parent = path[n - 2];
    let ghost pn = parent.view_node();
    let ghost up = before_up(m, p1, n - 2, d);
    let ghost below = siblings_before(m, pn, d - (n - 2), cur.child_idx as int);
    proof {
        assert(forall|j: int| 0 <= j < p1.len() ==> #[trigger] p1[j] == p0[j]);
        lemma_before_prefix(m, p0, p1, n - 2, d);
        if links(m, p0) {
            lemma_links_pop(m, p0);
            assert(p1 =~= p0.drop_last());
        }
        lemma_prev_child(pn, cur.child_idx as int);
        assert(before_up(m, p0, n - 1, d) == up + below);
    }
    if let Some(j) = parent.prev_child_idx(cur.child_idx) {
        if back_to_child(cache, depth, path, j) {
            proof {
                lemma_backed_join(m, d, path@, up, below);
            }
            return true;
        }
    }
    assert(up + below =~= up);
    false
}

/// Goes back before the last node of a path: to the last entry before it.
fn back_up<'a>(cache: &'a NodeCache, depth: u8, path: &mut Vec<BtreePathLevel<'a>>) -> (r: bool)
    requires
        cache.wf(),
        1 <= old(path)@.len() <= depth + 1,
        forall|j: int| 0 <= j < old(path)@.len() ==> (#[trigger] old(path)@[j]).wf(),
    ensures
        forall|j: int| 0 <= j < final(path)@.len() ==> (#[trigger] final(path)@[j]).wf(),
        ({
            let m = cache.nodes@;
            let d = depth as int;
            let items = before_up(m, old(path)@, old(path)@.len() - 1, d);
            &&& r == (items.len() > 0)
            &&& r ==> backed(m, d, final(path)@, Seq::<EntryView>::empty(), items)
        }),
        final(path)@[0].node == old(path)@[0].node,
        links(cache.nodes@, old(path)@) ==> links(cache.nodes@, final(path)@),
{
    let ghost m = cache.nodes@;
    let ghost d = depth as int;
    let ghost items = before_up(m, path@, path@.len() - 1, d);
    while path.len() >= 2
        invariant
            cache.wf(),
            m == cache.nodes@,
            d == depth,
            1 <= path@.len() <= depth + 1,
            forall|j: int| 0 <= j < path@.len() ==> (#[trigger] path@[j]).wf(),
            items == before_up(m, path@, path@.len() - 1, d),
            items == before_up(m, old(path)@, old(path)@.len() - 1, d),
            path@[0].node == old(path)@[0].node,
            links(m, old(path)@) ==> links(m, path@),
        decreases path@.len(),
    {
        if back_before(cache, depth, path) {
            proof {
                reveal(backed);
            }
            return true;
        }
    }
    false
}

// ── iterators ───────────────────────────────────────────────────────────

impl<'a> BtreeIter<'a> {
    /// What a walk visits before the current place. An iterator that came off
    /// its leaf stands behind everything below the last node of its path.
    pub open spec fn before(self) -> Seq<EntryView> {
        let m = self.cache.nodes@;
        let d = self.depth as int;
        let n = self.path@.len() as int;
        if n == 0 {
            Seq::<EntryView>::empty()
        } else if self.in_leaf() {
            before_place(m, self.path@, d)
        } else {
            before_up(m, self.path@, n - 1, d) + subtree_items(
                m,
                self.path@.last().view_node(),
                d - (n - 1),
            )
        }
    }

    /// Whether moving back by one entry turned this iterator into `new`, with
    /// the result `r`: whether there was an entry to move to.
    pub open spec fn stepped_back(self, new: BtreeIter<'a>, r: bool) -> bool {
        &&& new.wf()
        &&& new.moved_from(self)
        &&& r == (self.before().len() > 0)
        &&& r ==> new.in_leaf() && new.current() == Some(self.before().last()) && new.before()
            == self.before().drop_last() && new.pos_ok() && new.path@[0].node == self.path@[0].node
        &&& !r ==> new == self
    }

    /// Moves back by one entry: within the leaf, or to the last entry of a leaf
    /// before it; false, and no change, where there is none.
    #[verifier::rlimit(20)]
    fn retreat(&mut self) -> (r: bool)
        requires
            old(self).wf(),
        ensures
            final(self).wf(),
            old(self).stepped_back(*final(self), r),
            old(self).linked() ==> final(self).linked(),
    {
        let ghost s0 = *self;
        let ghost m = self.cache.nodes@;
        let ghost d = self.depth as int;
        let n: usize = self.path.len();
        if n == 0 {
            return false;
        }
        let cache: &'a NodeCache = self.cache;
        let mut path = copy_path(self.path.as_slice());
        let leaf = path[n - 1];
        let ghost items = self.before();
        if n == self.depth as usize + 1 {
            let total: u16 = leaf.entry_count();
            let ghost es = entries_of(leaf.view_node());
            if leaf.offset > 1 && total > 0 {
                let offset: u16 = if leaf.offset - 1 < total {
                    leaf.offset - 1
                } else {
                    total
                };
                path.set(n - 1, BtreePathLevel { offset, ..leaf });
                proof {
                    let up = before_up(m, s0.path@, d, d);
                    lemma_before_prefix(m, s0.path@, path@, d, d);
                    if s0.linked() {
                        lemma_links_same(m, s0.path@, path@);
                    }
                    let lb = leaf_before(leaf.view_node(), leaf.offset as int);
                    assert(lb =~= es.take(offset as int));
                    assert(lb.drop_last() =~= leaf_before(leaf.view_node(), offset as int));
                    assert(items.drop_last() =~= up + lb.drop_last());
                    reveal(backed);
                    assert(Seq::<EntryView>::empty() + items.drop_last() =~= items.drop_last());
                    assert(backed(m, d, path@, Seq::<EntryView>::empty(), items));
                }
            } else {
                proof {
                    assert(items =~= before_up(m, s0.path@, d, d));
                }
                if !back_up(cache, self.depth, &mut path) {
                    return false;
                }
            }
        } else {
            let ghost up = before_up(m, s0.path@, n - 1, d);
            let ghost below = subtree_items(m, leaf.view_node(), d - (n - 1));
            if back_into(cache, self.depth, &mut path) {
                proof {
                    lemma_backed_join(m, d, path@, up, below);
                }
            } else {
                assert(items =~= up);
                if !back_up(cache, self.depth, &mut path) {
                    return false;
                }
            }
        }
        proof {
            reveal(backed);
        }
        let last = path[self.depth as usize];
        let found = last.read(last.offset);
        self.path = path;
        if let Some((k, _v)) = found {
            self.pos = k;
        }
        proof {
            assert(self.path@.last() == last);
            assert(self.leaf_items()[0] == items.last());
            assert(Seq::<EntryView>::empty() + items.drop_last() =~= items.drop_last());
        }
        true
    }

    /// The entry before the current place as key and extent value: that of the
    /// iterator's own overlay where it is consulted and holds one, else that of
    /// the leaf.
    pub open spec fn spec_peek_prev(self) -> Option<(BtreeKey, BchVal)> {
        let e = self.before().last();
        let shadow = match self.overlay {
            Some(o) => if self.flags.with_journal {
                o.spec_lookup(self.btree_type, Bpos::spec_from_key(e.key()))
            } else {
                None
            },
            None => None,
        };
        if self.before().len() == 0 {
            None
        } else {
            match shadow {
                Some(jk) => Some(as_extent(jk.entry@)),
                None => Some(as_extent(e)),
            }
        }
    }

    /// Moves back by one entry and returns it.
    pub fn prev_slot(&mut self) -> (r: Option<(BtreeKey, BchVal)>)
        requires
            old(self).wf(),
        ensures
            final(self).wf(),
            r == old(self).spec_peek_prev(),
            old(self).stepped_back(*final(self), r is Some),
            old(self).linked() ==> final(self).linked(),
    {
        if self.retreat() {
            self.peek()
        } else {
            None
        }
    }

    /// The entry before the current one, if it does not lie below `min`.
    pub fn peek_prev_min(&self, min: Bpos) -> (r: Option<(BtreeKey, BchVal)>)
        requires
            self.wf(),
        ensures
            r == (match self.spec_peek_prev() {
                Some(kv) => if Bpos::spec_from_key(kv.0).lt(min) {
                    None
                } else {
                    Some(kv)
                },
                None => None,
            }),
    {
        let mut it = self.fork_shared_path();
        match it.prev_slot() {
            Some((k, v)) => if Bpos::from_key(&k).precedes(&min) {
                None
            } else {
                Some((k, v))
            },
            None => None,
        }
    }
}

// ── laws ────────────────────────────────────────────────────────────────

/// What is visited below the root of a path: what is before a node of the path,
/// what is below it, and what is behind it.
proof fn lemma_around_node<'a>(
    m: Map<u64, BtreeNode>,
    path: Seq<BtreePathLevel<'a>>,
    i: int,
    depth: int,
)
    requires
        links(m, path),
        0 <= i < path.len() <= depth + 1,
        forall|j: int| 0 <= j < path.len() ==> (#[trigger] path[j]).wf(),
    ensures
        subtree_items(m, path[0].view_node(), depth) == before_up(m, path, i, depth)
            + subtree_items(m, path[i].view_node(), depth - i) + rest_up(m, path, i, depth),
    decreases i,
{
    if i <= 0 {
        let a = subtree_items(m, path[0].view_node(), depth);
        assert(Seq::<EntryView>::empty() + a + Seq::<EntryView>::empty() =~= a);
    } else {
        lemma_around_node(m, path, i - 1, depth);
        lemma_links_at(m, path, i);
        let n = path[i - 1].view_node();
        let idx = path[i].child_idx as int;
        let lvl = depth - i + 1;
        assert(path[i - 1].wf());
        lemma_around_child(m, n, lvl, idx);
        let up = before_up(m, path, i - 1, depth);
        let a = siblings_before(m, n, lvl, idx);
        let b = subtree_items(m, path[i].view_node(), lvl - 1);
        let c = sibling_items(m, n, lvl, idx);
        let rest = rest_up(m, path, i - 1, depth);
        assert(up + (a + b + c) + rest =~= (up + a) + b + (c + rest));
    }
}

/// What a walk visits before the place of an iterator and what is left to visit
/// are together all that is visited below the root of its path.
pub proof fn lemma_before_and_rest<'a>(it: BtreeIter<'a>)
    requires
        it.wf(),
        it.in_leaf(),
        it.linked(),
    ensures
        it.before() + it.rest() == subtree_items(
            it.cache.nodes@,
            it.path@[0].view_node(),
            it.depth as int,
        ),
{
    let m = it.cache.nodes@;
    let d = it.depth as int;
    let n = it.path@[d].view_node();
    let off = it.path@[d].offset as int;
    let es = entries_of(n);
    lemma_around_node(m, it.path@, d, d);
    assert(it.path@.last() == it.path@[d]);
    assert(subtree_items(m, n, 0) =~= es);
    assert(leaf_before(n, off) + leaf_rest(n, off) =~= es);
    let up = before_up(m, it.path@, d, d);
    let later = rest_up(m, it.path@, d, d);
    assert((up + leaf_before(n, off)) + (leaf_rest(n, off) + later) =~= up + es + later);
}

/// An iterator that moves on by one entry has the entry that it stood at, and
/// what was before it, before itself.
pub proof fn lemma_step_before<'a>(a: BtreeIter<'a>, b: BtreeIter<'a>)
    requires
        a.wf(),
        a.linked(),
        b.linked(),
        a.current() is Some,
        a.stepped(b, true),
    ensures
        b.before() == a.before().push(a.current()->0),
{
    lemma_before_and_rest(a);
    lemma_before_and_rest(b);
    let e = a.current()->0;
    let whole = a.before() + a.rest();
    assert(a.rest()[0] == e);
    assert(a.rest() =~= seq![e] + b.rest());
    assert(b.path@[0].view_node() == a.path@[0].view_node());
    assert(b.before() + b.rest() == whole);
    let n = a.before().len() as int;
    assert(a.rest().len() == b.rest().len() + 1);
    assert((b.before() + b.rest()).len() == b.before().len() + b.rest().len());
    assert(whole.len() == n + a.rest().len());
    assert(b.before() =~= whole.take(n + 1));
    assert(a.before().push(e) =~= whole.take(n + 1));
}

/// An iterator that moves on by one entry and back stands where it stood.
pub proof fn lemma_forth_and_back<'a>(a: BtreeIter<'a>, b: BtreeIter<'a>, c: BtreeIter<'a>, r: bool)
    requires
        a.wf(),
        a.linked(),
        b.linked(),
        a.current() is Some,
        a.stepped(b, true),
        b.stepped_back(c, r),
    ensures
        r,
        c.current() == a.current(),
        c.before() == a.before(),
        c.pos == a.current()->0.key(),
{
    lemma_step_before(a, b);
    assert(a.before().push(a.current()->0).drop_last() =~= a.before());
}

/// An iterator that moves back by one entry and on stands where it stood.
pub proof fn lemma_back_and_forth<'a>(a: BtreeIter<'a>, b: BtreeIter<'a>, c: BtreeIter<'a>, r: bool)
    requires
        a.wf(),
        a.in_leaf(),
        a.linked(),
        b.linked(),
        a.current() is Some,
        a.stepped_back(b, true),
        b.stepped(c, r),
    ensures
        r,
        c.current() == a.current(),
        c.rest() == a.rest(),
        c.pos == a.current()->0.key(),
{
    lemma_before_and_rest(a);
    lemma_before_and_rest(b);
    let whole = a.before() + a.rest();
    let n = a.before().len() as int;
    assert(b.path@[0].view_node() == a.path@[0].view_node());
    assert(b.before() + b.rest() == whole);
    assert(b.rest() =~= whole.skip(n - 1));
    assert(b.rest().skip(1) =~= a.rest());
    assert(a.rest()[0] == a.current()->0);
    assert(c.rest()[0] == c.current()->0);
}

} // verus!
