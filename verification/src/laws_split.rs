//! What splits leave to be found.

use crate::key::{ADDR48_LIMIT, BchVal, BtreeKey, EntryView, KeyType};
use crate::laws::{leaf_find, lemma_extent_reads, lemma_find_live};
use crate::node::BtreeNode;
use crate::node_read::as_extent;
use crate::node_split::{lemma_split_point, split_point};
use crate::packed::total_size;
use crate::route::{
    best_at_most, extents, lemma_best_range, lemma_best_unique, lemma_smallest_range, route,
    routing_index,
};
use crate::run::{last_in, lemma_last_in_append, lemma_live, live, not_deleted, sorted};
use crate::tree_insert::{routing, split_halves, split_key};
use vstd::prelude::*;

verus! {

/// Where the routing entries of a node send a key after one for `addr` from
/// `median` on was added: to `addr` from `median` on, as far as they went where
/// `median` went; elsewhere as before.
pub proof fn lemma_route_after_split(
    p: BtreeNode,
    new: BtreeNode,
    median: BtreeKey,
    addr: u64,
    k: BtreeKey,
)
    requires
        new.all() == p.all().push(routing(median, addr)),
        p.key_count > 0,
        new.key_count > 0,
        addr < ADDR48_LIMIT,
        p.all().len() < 0xffff,
        best_at_most(extents(p.all()), median) is Some,
    ensures
        ({
            let es = extents(p.all());
            route(Some(new), k) == (if !k.lt(median) && routing_index(es, k) == routing_index(
                es,
                median,
            ) {
                (addr, (p.all().len() + 1) as u16)
            } else {
                route(Some(p), k)
            })
        }),
{
    let es = extents(p.all());
    let e = routing(median, addr);
    let fs = extents(new.all());
    lemma_routing_reads(median, addr);
    assert(fs =~= es.push((median, BchVal::spec_new(addr, 0))));
    assert(fs.drop_last() =~= es);
    lemma_best_range(es, k);
    lemma_best_range(es, median);
    let m = best_at_most(es, median)->0;
    match best_at_most(es, k) {
        Some(b) => {
            if !k.lt(median) {
                if !median.lt(es[b].0) {
                    // The best entry for `k` is the best one for `median` too.
                    lemma_best_unique(es, median, b);
                } else {
                    assert(b != m);
                }
            }
        },
        None => {
            assert(k.lt(es[m].0));
            assert(k.lt(median));
            lemma_smallest_range(es);
            lemma_smallest_range(fs);
            lemma_best_range(fs, k);
            assert(crate::route::smallest(fs) == crate::route::smallest(es));
        },
    }
}

/// A routing entry reads as the key and the address that it was made of.
pub proof fn lemma_routing_reads(k: BtreeKey, addr: u64)
    requires
        addr < ADDR48_LIMIT,
    ensures
        as_extent(routing(k, addr)) == (k, BchVal::spec_new(addr, 0)),
{
    lemma_extent_reads(k, BchVal::spec_new(addr, 0));
}

/// The half of a split that a key belongs to, and what of the run it holds.
pub open spec fn half_for(n: BtreeNode, left: BtreeNode, right: BtreeNode, k: BtreeKey) -> BtreeNode {
    if k.lt(split_key(n)) {
        left
    } else {
        right
    }
}

/// Every live entry of a node is found in its half after a split, and so is
/// the key that was added where there was room for it.
pub proof fn lemma_find_after_split(
    n: BtreeNode,
    left: BtreeNode,
    right: BtreeNode,
    e: Option<(BtreeKey, BchVal)>,
    seq: Option<u64>,
    j: int,
)
    requires
        split_halves(n, left, right, e, seq),
        0 <= j < n.live().len(),
        e matches Some((k, v)) ==> !k.same_slot(n.live()[j].key()),
    ensures
        leaf_find(half_for(n, left, right, n.live()[j].key()), n.live()[j].key()) == Some(
            n.live()[j],
        ),
{
    let es = n.live();
    let mid = split_point(es);
    lemma_live(n.all());
    lemma_split_point(es);
    let x = es[j];
    if j < mid {
        assert(x.key().lt(es[mid].key()));
        assert(left.run(0)[j] == x);
        assert(sorted(left.run(0))) by {
            lemma_part_sorted(es, 0, mid);
            assert(es.subrange(0, mid) =~= es.take(mid));
        }
        lemma_find_in_half(left, e, j);
    } else {
        if j > mid {
            assert(es[mid].key().lt(x.key()));
        }
        assert(right.run(0)[j - mid] == x);
        assert(sorted(right.run(0))) by {
            lemma_part_sorted(es, mid, es.len() as int);
            assert(es.subrange(mid, es.len() as int) =~= es.skip(mid));
        }
        lemma_find_in_half(right, e, j - mid);
    }
}

/// An entry of a sorted first set is found, where at most an entry in another
/// slot stands behind that set.
proof fn lemma_find_in_half(h: BtreeNode, e: Option<(BtreeKey, BchVal)>, j: int)
    requires
        sorted(h.run(0)),
        0 <= j < h.run(0).len(),
        h.all() == h.run(0) || (e is Some && h.all() == h.run(0).push(
            EntryView::extent((e->0).0, (e->0).1),
        )),
        e matches Some((k, v)) ==> !k.same_slot(h.run(0)[j].key()),
    ensures
        leaf_find(h, h.run(0)[j].key()) == Some(h.run(0)[j]),
{
    let p = h.run(0);
    lemma_last_in_sorted(p, j);
    if h.all() != p {
        crate::node_edit::lemma_extent_size((e->0).0, (e->0).1);
        assert(h.all().drop_last() =~= p);
    }
}

proof fn lemma_part_sorted(es: Seq<EntryView>, lo: int, hi: int)
    requires
        sorted(es),
        0 <= lo <= hi <= es.len(),
    ensures
        sorted(es.subrange(lo, hi)),
{
    let p = es.subrange(lo, hi);
    assert forall|i: int, j: int| 0 <= i < j < p.len() implies (#[trigger] p[i]).key().lt(
        (#[trigger] p[j]).key(),
    ) by {
        assert(es[lo + i].key().lt(es[lo + j].key()));
    }
}

/// The key that was added at a split is found in its half, where there was room
/// for it.
pub proof fn lemma_find_added_after_split(
    n: BtreeNode,
    left: BtreeNode,
    right: BtreeNode,
    k: BtreeKey,
    v: BchVal,
    seq: Option<u64>,
)
    requires
        split_halves(n, left, right, Some((k, v)), seq),
        total_size(half_for(n, left, right, k).run(0)) + 32 <= n.node_size,
    ensures
        leaf_find(half_for(n, left, right, k), k) == Some(EntryView::extent(k, v)),
{
    crate::node_edit::lemma_extent_size(k, v);
}

// ── merges ──────────────────────────────────────────────────────────────

/// After a node absorbed another, every live entry of the other one is found in
/// it, and every live entry of its own whose slot the other one does not use.
pub proof fn lemma_find_after_absorb(n: BtreeNode, new: BtreeNode, other: BtreeNode, x: EntryView)
    requires
        n.absorbed(new, other),
        other.live().contains(x) || (n.live().contains(x) && forall|j: int|
            0 <= j < other.live().len() ==> !(#[trigger] other.live()[j]).key().same_slot(x.key())),
    ensures
        leaf_find(new, x.key()) == Some(x),
{
    let a = n.live();
    let b = other.live();
    let es = a + b;
    lemma_live(n.all());
    lemma_live(other.all());
    lemma_live(es);
    assert(last_in(es, x.key()) == Some(x)) by {
        lemma_last_in_append(a, b, x.key());
        if b.contains(x) {
            let j = choose|j: int| 0 <= j < b.len() && b[j] == x;
            lemma_last_in_sorted(b, j);
        } else {
            let j = choose|j: int| 0 <= j < a.len() && a[j] == x;
            lemma_last_in_sorted(a, j);
            lemma_last_in_absent(b, x.key());
        }
    }
    assert(not_deleted(x)) by {
        if b.contains(x) {
            let j = choose|j: int| 0 <= j < b.len() && b[j] == x;
            assert(not_deleted(other.live()[j]));
        } else {
            let j = choose|j: int| 0 <= j < a.len() && a[j] == x;
            assert(not_deleted(n.live()[j]));
        }
    }
    assert(live(es).contains(x));
    crate::node_compact::lemma_compact_idempotent(es);
    lemma_find_live(new, x.key());
    assert(new.live().contains(x));
}

proof fn lemma_last_in_sorted(es: Seq<EntryView>, j: int)
    requires
        sorted(es),
        0 <= j < es.len(),
    ensures
        last_in(es, es[j].key()) == Some(es[j]),
    decreases es.len(),
{
    if j < es.len() - 1 {
        assert(es[j].key().lt(es[es.len() - 1].key()));
        let f = es.drop_last();
        lemma_part_sorted(es, 0, es.len() - 1);
        assert(es.subrange(0, es.len() - 1) =~= f);
        lemma_last_in_sorted(f, j);
    }
}

proof fn lemma_last_in_absent(es: Seq<EntryView>, k: BtreeKey)
    requires
        forall|j: int| 0 <= j < es.len() ==> !(#[trigger] es[j]).key().same_slot(k),
    ensures
        last_in(es, k) is None,
    decreases es.len(),
{
    if es.len() > 0 {
        let f = es.drop_last();
        assert forall|j: int| 0 <= j < f.len() implies !(#[trigger] f[j]).key().same_slot(k) by {
            assert(f[j] == es[j]);
        }
        lemma_last_in_absent(f, k);
        assert(!es[es.len() - 1].key().same_slot(k));
    }
}

/// Whether no entry of a run is a tombstone, and no two of them are in one slot.
pub open spec fn settled(es: Seq<EntryView>) -> bool {
    &&& forall|i: int| 0 <= i < es.len() ==> (#[trigger] es[i]).key_type != KeyType::Deleted
    &&& forall|i: int, j: int|
        0 <= i < j < es.len() ==> !(#[trigger] es[i]).key().same_slot((#[trigger] es[j]).key())
}

/// In a settled run everything is live.
pub proof fn lemma_settled_live(es: Seq<EntryView>, x: EntryView)
    requires
        settled(es),
    ensures
        live(es).contains(x) <==> es.contains(x),
{
    lemma_live(es);
    assert(live(es).contains(x) <==> last_in(es, x.key()) == Some(x) && not_deleted(x));
    lemma_settled_last(es, x.key());
    if es.contains(x) {
        let j = choose|j: int| 0 <= j < es.len() && es[j] == x;
        assert(x.key().same_slot(x.key()));
    }
}

proof fn lemma_settled_last(es: Seq<EntryView>, k: BtreeKey)
    requires
        settled(es),
    ensures
        match last_in(es, k) {
            Some(e) => es.contains(e) && e.key().same_slot(k),
            None => forall|j: int| 0 <= j < es.len() ==> !(#[trigger] es[j]).key().same_slot(k),
        },
        forall|j: int|
            0 <= j < es.len() && (#[trigger] es[j]).key().same_slot(k) ==> last_in(es, k) == Some(
                es[j],
            ),
    decreases es.len(),
{
    if es.len() > 0 {
        let f = es.drop_last();
        assert(settled(f)) by {
            assert forall|i: int| 0 <= i < f.len() implies (#[trigger] f[i]).key_type
                != KeyType::Deleted by {
                assert(f[i] == es[i]);
            }
            assert forall|i: int, j: int| 0 <= i < j < f.len() implies !(
            #[trigger] f[i]).key().same_slot((#[trigger] f[j]).key()) by {
                assert(!es[i].key().same_slot(es[j].key()));
            }
        }
        lemma_settled_last(f, k);
        let m = es.len() - 1;
        assert(es[m] == es.last());
        assert forall|j: int| 0 <= j < es.len() && (#[trigger] es[j]).key().same_slot(
            k,
        ) implies last_in(es, k) == Some(es[j]) by {
            if j < m {
                assert(f[j] == es[j]);
                assert(!es[j].key().same_slot(es[m].key()));
            }
        }
        if !es.last().key().same_slot(k) {
            match last_in(f, k) {
                Some(e) => {
                    let j = choose|j: int| 0 <= j < f.len() && f[j] == e;
                    assert(es[j] == e);
                },
                None => {
                    assert forall|j: int| 0 <= j < es.len() implies !(
                    #[trigger] es[j]).key().same_slot(k) by {
                        if j < m {
                            assert(f[j] == es[j]);
                        }
                    }
                },
            }
        }
    }
}

/// The entry at the index of an address points to it.
pub proof fn lemma_addr_found(es: Seq<EntryView>, addr: u64)
    requires
        crate::merge::addr_index(es, addr) < es.len(),
    ensures
        es[crate::merge::addr_index(es, addr)].bch_val().paddr.addr == addr,
    decreases es.len(),
{
    crate::merge::lemma_addr_index_range(es, addr);
    if es[0].bch_val().paddr.addr != addr {
        let t = es.skip(1);
        lemma_addr_found(t, addr);
        crate::merge::lemma_addr_index_range(t, addr);
        assert(t[crate::merge::addr_index(t, addr)] == es[crate::merge::addr_index(es, addr)]);
    }
}

} // verus!
