//! Whether the nodes of a tree hold together.

use crate::btree::Btree;
use crate::cache::NodeCache;
use crate::engine::BtreeEngine;
use crate::error::{Fault, StorageError};
use crate::ids::BtreeId;
use crate::key::{lemma_bpos_order, Bpos, BtreeEntry, BtreeKey, EntryView};
use crate::node::BtreeNode;
use crate::run::views;
use crate::sort::{sort_entries, stable_sort};
use vstd::prelude::*;

verus! {

/// The entries of a node in key order.
pub open spec fn in_order(n: BtreeNode) -> Seq<EntryView> {
    stable_sort(n.all(), false)
}

/// The range of a leaf against its entries.
pub open spec fn check_leaf(ty: BtreeId, n: BtreeNode) -> Option<Fault> {
    let es = in_order(n);
    if es.len() == 0 {
        None
    } else if n.min_key != Bpos::spec_max() && Bpos::spec_from_key(es[0].key()).lt(n.min_key) {
        Some(Fault::LeafMinKey(ty))
    } else if n.max_key != Bpos::spec_min() && n.max_key.lt(Bpos::spec_from_key(es.last().key())) {
        Some(Fault::LeafMaxKey(ty))
    } else {
        None
    }
}

/// What is wrong with a child at first sight: that there is none, that it was
/// seen before, that it is missing or at the wrong level, or that it starts
/// before the end of the one in front of it.
pub open spec fn check_child(
    ty: BtreeId,
    level: u8,
    addr: u64,
    m: Map<u64, BtreeNode>,
    seen: Set<u64>,
    prev: Option<Bpos>,
) -> Option<Fault> {
    if addr == 0 {
        Some(Fault::NullChild(ty))
    } else if seen.contains(addr) {
        Some(Fault::ChildTwice(ty, addr))
    } else if !m.contains_key(addr) {
        Some(Fault::ChildMissing(ty, addr))
    } else if m[addr].level != level - 1 {
        Some(Fault::ChildLevel { btree: ty, parent: level, child: m[addr].level })
    } else if prev matches Some(p) && !p.lt(m[addr].min_key) {
        Some(Fault::ChildOverlap(ty, addr))
    } else {
        None
    }
}

/// What is wrong below a node, or the children that were seen.
pub open spec fn check_node(
    ty: BtreeId,
    n: BtreeNode,
    m: Map<u64, BtreeNode>,
    seen: Set<u64>,
) -> Result<Set<u64>, Fault>
    decreases n.level, 1int, 0int,
{
    if n.level == 0 {
        match check_leaf(ty, n) {
            Some(f) => Err(f),
            None => Ok(seen),
        }
    } else if in_order(n).len() == 0 {
        Err(Fault::EmptyInnerNode(ty, n.level))
    } else {
        check_children(ty, n, m, seen, 0, None)
    }
}

/// `check_node` for the children from number `i` on, behind one that ends at
/// `prev`.
pub open spec fn check_children(
    ty: BtreeId,
    n: BtreeNode,
    m: Map<u64, BtreeNode>,
    seen: Set<u64>,
    i: int,
    prev: Option<Bpos>,
) -> Result<Set<u64>, Fault>
    decreases n.level, 0int, in_order(n).len() - i,
{
    if i < 0 || i >= in_order(n).len() {
        Ok(seen)
    } else {
        let addr = in_order(n)[i].bch_val().paddr.addr;
        match check_child(ty, n.level, addr, m, seen, prev) {
            Some(f) => Err(f),
            None => if m[addr].level < n.level {
                match check_node(ty, m[addr], m, seen.insert(addr)) {
                    Err(f) => Err(f),
                    Ok(s) => check_children(ty, n, m, s, i + 1, Some(m[addr].max_key)),
                }
            } else {
                Ok(seen)
            },
        }
    }
}

/// Below an inner node that passes the check every routing entry has a child,
/// which is cached and one level further down.
pub proof fn lemma_checked_children(
    ty: BtreeId,
    n: BtreeNode,
    m: Map<u64, BtreeNode>,
    seen: Set<u64>,
    i: int,
)
    requires
        n.level > 0,
        check_node(ty, n, m, seen) is Ok,
        0 <= i < in_order(n).len(),
    ensures
        ({
            let addr = in_order(n)[i].bch_val().paddr.addr;
            addr != 0 && m.contains_key(addr) && m[addr].level == n.level - 1
        }),
{
    lemma_checked_from(ty, n, m, seen, 0, None, i);
}

proof fn lemma_checked_from(
    ty: BtreeId,
    n: BtreeNode,
    m: Map<u64, BtreeNode>,
    seen: Set<u64>,
    i: int,
    prev: Option<Bpos>,
    j: int,
)
    requires
        n.level > 0,
        check_children(ty, n, m, seen, i, prev) is Ok,
        0 <= i <= j < in_order(n).len(),
    ensures
        ({
            let addr = in_order(n)[j].bch_val().paddr.addr;
            addr != 0 && m.contains_key(addr) && m[addr].level == n.level - 1
        }),
    decreases j - i,
{
    let addr = in_order(n)[i].bch_val().paddr.addr;
    if i < j {
        match check_node(ty, m[addr], m, seen.insert(addr)) {
            Ok(s) => lemma_checked_from(ty, n, m, s, i + 1, Some(m[addr].max_key), j),
            Err(_f) => {},
        }
    }
}

/// The entries of a node in key order.
fn sorted_entries(node: &BtreeNode) -> (r: Vec<BtreeEntry>)
    requires
        node.wf(),
    ensures
        views(r@) == in_order(*node),
{
    sort_entries(node.all_entries(), false)
}

fn validate_leaf(ty: BtreeId, node: &BtreeNode, es: &Vec<BtreeEntry>) -> (r: Option<Fault>)
    requires
        views(es@) == in_order(*node),
    ensures
        r == check_leaf(ty, *node),
{
    let n: usize = es.len();
    if n == 0 {
        return None;
    }
    proof {
        assert(views(es@)[0] == es@[0]@);
        assert(views(es@)[n - 1] == es@[n - 1]@);
    }
    let first = Bpos::from_key(&BtreeKey::from_bpos(es[0].pos, es[0].key_type));
    let last = Bpos::from_key(&BtreeKey::from_bpos(es[n - 1].pos, es[n - 1].key_type));
    if node.min_key != Bpos::max_pos() && first.precedes(&node.min_key) {
        return Some(Fault::LeafMinKey(ty));
    }
    if node.max_key != Bpos::min_pos() && node.max_key.precedes(&last) {
        return Some(Fault::LeafMaxKey(ty));
    }
    None
}

fn seen_before(seen: &Vec<u64>, addr: u64) -> (r: bool)
    ensures
        r == seen@.to_set().contains(addr),
{
    let mut i: usize = 0;
    while i < seen.len()
        invariant
            i <= seen@.len(),
            forall|j: int| 0 <= j < i ==> seen@[j] != addr,
        decreases seen@.len() - i,
    {
        if seen[i] == addr {
            assert(seen@[i as int] == addr);
            return true;
        }
        i = i + 1;
    }
    assert(!seen@.contains(addr));
    false
}

fn validate_child(
    ty: BtreeId,
    level: u8,
    addr: u64,
    cache: &NodeCache,
    seen: &Vec<u64>,
    prev: Option<Bpos>,
) -> (r: Option<Fault>)
    requires
        level > 0,
    ensures
        r == check_child(ty, level, addr, cache.nodes@, seen@.to_set(), prev),
{
    if addr == 0 {
        return Some(Fault::NullChild(ty));
    }
    if seen_before(seen, addr) {
        return Some(Fault::ChildTwice(ty, addr));
    }
    let child = match cache.get(addr) {
        Some(c) => c,
        None => {
            return Some(Fault::ChildMissing(ty, addr));
        },
    };
    if child.level != level - 1 {
        return Some(Fault::ChildLevel { btree: ty, parent: level, child: child.level });
    }
    match prev {
        Some(p) => if !p.precedes(&child.min_key) {
            Some(Fault::ChildOverlap(ty, addr))
        } else {
            None
        },
        None => None,
    }
}

/// Checks a node and everything below it; `seen` collects the children.
fn validate_tree_node(ty: BtreeId, node: &BtreeNode, cache: &NodeCache, seen: &mut Vec<u64>) -> (r:
    Result<(), Fault>)
    requires
        node.wf(),
        cache.wf(),
    ensures
        match check_node(ty, *node, cache.nodes@, old(seen)@.to_set()) {
            Ok(s) => r is Ok && final(seen)@.to_set() == s,
            Err(f) => r == Err::<(), Fault>(f),
        },
    decreases node.level,
{
    let es: Vec<BtreeEntry> = sorted_entries(node);
    if node.level == 0 {
        return match validate_leaf(ty, node, &es) {
            Some(f) => Err(f),
            None => Ok(()),
        };
    }
    if es.len() == 0 {
        return Err(Fault::EmptyInnerNode(ty, node.level));
    }
    let mut prev: Option<Bpos> = None;
    let mut i: usize = 0;
    let ghost m = cache.nodes@;
    let ghost start = seen@.to_set();
    while i < es.len()
        invariant
            i <= es@.len(),
            views(es@) == in_order(*node),
            node.level > 0,
            node.wf(),
            cache.wf(),
            m == cache.nodes@,
            check_children(ty, *node, m, start, 0, None) == check_children(
                ty,
                *node,
                m,
                seen@.to_set(),
                i as int,
                prev,
            ),
            check_node(ty, *node, m, start) == check_children(ty, *node, m, start, 0, None),
            start == old(seen)@.to_set(),
        decreases es@.len() - i,
    {
        assert(views(es@)[i as int] == es@[i as int]@);
        let (_k, v) = es[i].to_legacy();
        let addr: u64 = v.paddr.addr;
        if let Some(f) = validate_child(ty, node.level, addr, cache, seen, prev) {
            return Err(f);
        }
        let ghost before = seen@;
        seen.push(addr);
        assert(seen@.to_set() =~= before.to_set().insert(addr)) by {
            assert forall|x: u64| seen@.contains(x) == (before.contains(x) || x == addr) by {
                if before.contains(x) {
                    let j = choose|j: int| 0 <= j < before.len() && before[j] == x;
                    assert(seen@[j] == x);
                }
                if x == addr {
                    assert(seen@[before.len() as int] == x);
                }
            }
        }
        match cache.get(addr) {
            Some(child) => {
                if let Err(f) = validate_tree_node(ty, child, cache, seen) {
                    return Err(f);
                }
                prev = Some(child.max_key);
            },
            None => {},
        }
        i = i + 1;
    }
    Ok(())
}

/// The first entry that comes before the one in front of it.
pub open spec fn first_unordered(ps: Seq<Bpos>, i: int) -> Option<int>
    decreases ps.len() - i,
{
    if i < 1 || i >= ps.len() {
        None
    } else if ps[i].lt(ps[i - 1]) {
        Some(i)
    } else {
        first_unordered(ps, i + 1)
    }
}

/// The first entry at the same position as the one in front of it.
pub open spec fn first_repeated(ps: Seq<Bpos>, i: int) -> Option<int>
    decreases ps.len() - i,
{
    if i < 1 || i >= ps.len() {
        None
    } else if ps[i] == ps[i - 1] {
        Some(i)
    } else {
        first_repeated(ps, i + 1)
    }
}

/// The positions of entries.
pub open spec fn positions(es: Seq<BtreeEntry>) -> Seq<Bpos> {
    es.map_values(|e: BtreeEntry| e.pos)
}

/// What is wrong with a tree whose entries are `es`: with its nodes, else with
/// the order of its entries, else that two are at one position.
pub open spec fn check_tree(ty: BtreeId, t: Btree, es: Seq<BtreeEntry>) -> Option<Fault> {
    let ps = positions(es);
    match check_node(ty, t.root.node, t.nodes(), Set::empty()) {
        Err(f) => Some(f),
        Ok(_s) => match first_unordered(ps, 1) {
            Some(i) => Some(Fault::EntryOrder(ty, i as u64)),
            None => match first_repeated(ps, 1) {
                Some(i) => Some(Fault::DuplicateEntry(ty, ps[i])),
                None => None,
            },
        },
    }
}

/// In a tree that passes the check every position comes before the ones behind
/// it: no position occurs twice.
pub proof fn lemma_checked_order(ty: BtreeId, t: Btree, es: Seq<BtreeEntry>, i: int, j: int)
    requires
        check_tree(ty, t, es) is None,
        0 <= i < j < es.len(),
    ensures
        es[i].pos.lt(es[j].pos),
    decreases j - i,
{
    let ps = positions(es);
    lemma_no_fault_between(ps, 1, j);
    lemma_bpos_order(ps[j - 1], ps[j], ps[j]);
    if i < j - 1 {
        lemma_checked_order(ty, t, es, i, j - 1);
        lemma_bpos_order(ps[i], ps[j - 1], ps[j]);
    }
}

proof fn lemma_no_fault_between(ps: Seq<Bpos>, i: int, j: int)
    requires
        1 <= i <= j < ps.len(),
        first_unordered(ps, i) is None,
        first_repeated(ps, i) is None,
    ensures
        !ps[j].lt(ps[j - 1]),
        ps[j] != ps[j - 1],
    decreases j - i,
{
    if i < j {
        lemma_no_fault_between(ps, i + 1, j);
    }
}

/// Checks a tree.
fn validate_tree(ty: BtreeId, t: &Btree) -> (r: Option<Fault>)
    requires
        t.wf(),
    ensures
        exists|es: Seq<BtreeEntry>| #[trigger] t.lists(es) && r == check_tree(ty, *t, es),
{
    let es: Vec<BtreeEntry> = t.for_each_entry();
    let ghost ps = positions(es@);
    assert(t.lists(es@));
    let mut seen: Vec<u64> = Vec::new();
    assert(seen@.to_set() =~= Set::<u64>::empty());
    if let Err(f) = validate_tree_node(ty, &t.root.node, &t.cache, &mut seen) {
        return Some(f);
    }
    let mut i: usize = 1;
    while i < es.len()
        invariant
            1 <= i,
            t.lists(es@),
            ps == positions(es@),
            first_unordered(ps, 1) == first_unordered(ps, i as int),
            check_node(ty, t.root.node, t.nodes(), Set::empty()) is Ok,
        decreases es@.len() - i,
    {
        assert(ps[i as int] == es@[i as int].pos && ps[i - 1] == es@[i - 1].pos);
        if es[i].pos.precedes(&es[i - 1].pos) {
            return Some(Fault::EntryOrder(ty, i as u64));
        }
        i = i + 1;
    }
    let mut j: usize = 1;
    while j < es.len()
        invariant
            1 <= j,
            t.lists(es@),
            ps == positions(es@),
            first_unordered(ps, 1) is None,
            first_repeated(ps, 1) == first_repeated(ps, j as int),
            check_node(ty, t.root.node, t.nodes(), Set::empty()) is Ok,
        decreases es@.len() - j,
    {
        assert(ps[j as int] == es@[j as int].pos && ps[j - 1] == es@[j - 1].pos);
        if es[j].pos == es[j - 1].pos {
            return Some(Fault::DuplicateEntry(ty, es[j].pos));
        }
        j = j + 1;
    }
    None
}

impl BtreeEngine {
    /// Whether `ls` holds the entries of every tree.
    pub open spec fn lists_all(self, ls: Seq<Seq<BtreeEntry>>) -> bool {
        &&& ls.len() == self.trees@.len()
        &&& forall|i: int| 0 <= i < ls.len() ==> self.trees@[i].lists(#[trigger] ls[i])
    }

    /// What is wrong with the first tree, from number `i` on, that does not
    /// pass the check.
    pub open spec fn check_from(self, ls: Seq<Seq<BtreeEntry>>, i: int) -> Option<Fault>
        decreases 7 - i,
    {
        if i < 0 || i >= 7 {
            None
        } else {
            match check_tree(BtreeId::spec_from(i)->0, self.trees@[i], ls[i]) {
                Some(f) => Some(f),
                None => self.check_from(ls, i + 1),
            }
        }
    }
}

/// Checks that the nodes of every tree hold together, and that its entries are
/// in order, no two at one position.
pub fn bch2_check_topology(engine: &BtreeEngine) -> (r: Result<(), StorageError>)
    requires
        engine.wf(),
    ensures
        exists|ls: Seq<Seq<BtreeEntry>>| #[trigger]
            engine.lists_all(ls) && r == (match engine.check_from(ls, 0) {
                Some(f) => Err::<(), StorageError>(StorageError::Transaction(f)),
                None => Ok::<(), StorageError>(()),
            }),
{
    let ids: Vec<BtreeId> = BtreeId::all();
    let mut found: Option<Fault> = None;
    let ghost mut ls: Seq<Seq<BtreeEntry>> = Seq::empty();
    let mut i: usize = 7;
    while i > 0
        invariant
            i <= 7,
            engine.wf(),
            ids@.len() == 7,
            forall|j: int| 0 <= j < 7 ==> BtreeId::spec_from(j) == Some(#[trigger] ids@[j]),
            ls.len() == 7 - i,
            forall|j: int| 0 <= j < ls.len() ==> engine.trees@[i + j].lists(#[trigger] ls[j]),
            found == engine.check_from(Seq::new(i as nat, |j: int| Seq::empty()) + ls, i as int),
        decreases i,
    {
        i = i - 1;
        let ghost ls0 = ls;
        let f = validate_tree(ids[i], &engine.trees[i]);
        proof {
            let es = choose|es: Seq<BtreeEntry>| #[trigger]
                engine.trees@[i as int].lists(es) && f == check_tree(
                    ids@[i as int],
                    engine.trees@[i as int],
                    es,
                );
            ls = seq![es] + ls0;
            let a = Seq::new((i + 1) as nat, |j: int| Seq::<BtreeEntry>::empty()) + ls0;
            let b = Seq::new(i as nat, |j: int| Seq::<BtreeEntry>::empty()) + ls;
            assert forall|j: int| i + 1 <= j < 7 implies #[trigger] a[j] == b[j] by {}
            lemma_check_from(*engine, a, b, i + 1);
            assert(b[i as int] == es);
            assert forall|j: int| 0 <= j < ls.len() implies engine.trees@[i + j].lists(
                #[trigger] ls[j],
            ) by {
                if j > 0 {
                    assert(ls[j] == ls0[j - 1]);
                    assert(engine.trees@[i + 1 + (j - 1)].lists(ls0[j - 1]));
                }
            }
        }
        if f.is_some() {
            found = f;
        }
    }
    proof {
        assert(Seq::new(0, |j: int| Seq::<BtreeEntry>::empty()) + ls =~= ls);
        assert(engine.lists_all(ls));
    }
    match found {
        Some(f) => Err(StorageError::Transaction(f)),
        None => Ok(()),
    }
}

proof fn lemma_check_from(
    e: BtreeEngine,
    a: Seq<Seq<BtreeEntry>>,
    b: Seq<Seq<BtreeEntry>>,
    i: int,
)
    requires
        0 <= i <= 7,
        a.len() == 7,
        b.len() == 7,
        forall|j: int| i <= j < 7 ==> #[trigger] a[j] == b[j],
    ensures
        e.check_from(a, i) == e.check_from(b, i),
    decreases 7 - i,
{
    if i < 7 {
        assert(a[i] == b[i]);
        lemma_check_from(e, a, b, i + 1);
    }
}

} // verus!
