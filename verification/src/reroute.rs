//! What a parent routes to after two of its children were merged.

use crate::key::{BchVal, EntryView, KeyType};
use crate::laws_split::{lemma_addr_found, lemma_settled_live, settled};
use crate::merge::{addr_index, lemma_addr_index_range};
use crate::node::{drop_aux, free_start, BtreeNode};
use crate::node_drop::lemma_without_slot;
use crate::node_edit::lemma_extent_size;
use crate::packed::total_size;
use crate::run::lemma_live;
use crate::tidy::{
    leaf_ok, lemma_leaf_compacted, lemma_narrow_total, lemma_settled_unique, lemma_tidy_added, tidy,
    unused,
};
use crate::tree_insert::routing;
use vstd::prelude::*;

verus! {

/// Whether `new` has the entries of `n` but `yl` and `yr`, and `e`.
pub open spec fn replaces(
    n: BtreeNode,
    new: BtreeNode,
    yl: EntryView,
    yr: EntryView,
    e: EntryView,
) -> bool {
    forall|x: EntryView| #[trigger]
        new.all().contains(x) <==> (n.all().contains(x) && x != yl && x != yr) || x == e
}

/// A compacted leaf with space for one more entry has room for it.
pub proof fn lemma_compacted_room(n: BtreeNode, c: BtreeNode)
    requires
        leaf_ok(n),
        n.compacted_to(c),
        32 * c.all().len() + 32 <= c.node_size,
    ensures
        c.has_room(32),
{
    lemma_leaf_compacted(n, c);
    lemma_packed_room(c, n.live());
}

proof fn lemma_packed_room(c: BtreeNode, es: Seq<EntryView>)
    requires
        c.wf(),
        c.holds_compacted(es),
        forall|i: int| 0 <= i < es.len() ==> (#[trigger] es[i]).u64s() == 4,
        32 * es.len() + 32 <= c.node_size,
    ensures
        c.has_room(32),
{
    lemma_narrow_total(es);
    reveal(BtreeNode::wf);
    assert(c.sets@[0].end_offset == total_size(es));
    assert(free_start(drop_aux(c.sets@)) == total_size(es));
}

/// A tidy node without one of its entries is tidy, with room for another one.
proof fn lemma_one_dropped(n: BtreeNode, c: BtreeNode, y: EntryView)
    requires
        tidy(n),
        n.all().contains(y),
        n.slot_dropped(c, y.key()),
    ensures
        tidy(c),
        c.has_room(32),
        c.node_size == n.node_size,
        forall|x: EntryView| #[trigger] c.all().contains(x) <==> n.all().contains(x) && x != y,
{
    let es = n.all();
    let fs = c.all();
    let k = y.key();
    lemma_without_slot(n.live(), k);
    lemma_live(es);
    assert forall|x: EntryView| #[trigger] fs.contains(x) <==> es.contains(x) && x != y by {
        lemma_settled_live(es, x);
        if es.contains(x) && x.key().same_slot(k) {
            lemma_settled_unique(es, x, y);
        }
    }
    assert forall|i: int| 0 <= i < fs.len() implies (#[trigger] fs[i]).key_type != KeyType::Deleted
        && fs[i].u64s() == 4 by {
        assert(fs.contains(fs[i]));
        let j = choose|j: int| 0 <= j < es.len() && es[j] == fs[i];
        assert(es[j].u64s() == 4);
    }
    assert forall|i: int, j: int| 0 <= i < j < fs.len() implies !(
    #[trigger] fs[i]).key().same_slot((#[trigger] fs[j]).key()) by {
        assert(fs[i].key().lt(fs[j].key()));
    }
    assert(fs.len() + 1 <= es.len()) by {
        lemma_fewer(fs, es, y);
    }
    lemma_packed_room(c, fs);
}

/// A run without repetitions whose entries another one has, and one that it has
/// not, is shorter.
proof fn lemma_fewer(fs: Seq<EntryView>, es: Seq<EntryView>, y: EntryView)
    requires
        settled(fs),
        settled(es),
        es.contains(y),
        !fs.contains(y),
        forall|x: EntryView| #[trigger] fs.contains(x) ==> es.contains(x),
    ensures
        fs.len() < es.len(),
{
    assert(fs.no_duplicates()) by {
        assert forall|i: int, j: int| 0 <= i < j < fs.len() implies fs[i] != fs[j] by {
            assert(!fs[i].key().same_slot(fs[j].key()));
        }
    }
    assert(es.no_duplicates()) by {
        assert forall|i: int, j: int| 0 <= i < j < es.len() implies es[i] != es[j] by {
            assert(!es[i].key().same_slot(es[j].key()));
        }
    }
    fs.unique_seq_to_set();
    es.unique_seq_to_set();
    let s = fs.to_set();
    let r = es.to_set();
    assert(s.insert(y).subset_of(r));
    vstd::set_lib::lemma_len_subset(s.insert(y), r);
}

/// A tidy parent after two children, to which one entry each points, were
/// merged: one entry for the survivor under the smaller key stands for both.
pub proof fn lemma_rerouted(
    n: BtreeNode,
    new: BtreeNode,
    p: Seq<BtreeNode>,
    survivor: u64,
    absorbed: u64,
    r: bool,
    y: EntryView,
    z: EntryView,
)
    requires
        tidy(n),
        n.rerouted_after_merge(new, p, survivor, absorbed, r),
        n.all().contains(y),
        n.all().contains(z),
        y != z,
        y.bch_val().paddr.addr == absorbed,
        z.bch_val().paddr.addr == survivor,
        forall|x: EntryView| #[trigger]
            n.all().contains(x) && x.bch_val().paddr.addr == absorbed ==> x == y,
        forall|x: EntryView| #[trigger]
            n.all().contains(x) && x.bch_val().paddr.addr == survivor ==> x == z,
    ensures
        r,
        tidy(new),
        replaces(
            n,
            new,
            y,
            z,
            routing(
                if y.key().lt(z.key()) {
                    y.key()
                } else {
                    z.key()
                },
                survivor,
            ),
        ),
{
    reveal(BtreeNode::rerouted_after_merge);
    let es = n.all();
    let iy = choose|i: int| 0 <= i < es.len() && es[i] == y;
    let iz = choose|i: int| 0 <= i < es.len() && es[i] == z;
    lemma_addr_met(es, absorbed, iy);
    lemma_addr_met(es, survivor, iz);
    lemma_addr_found(es, absorbed);
    lemma_addr_found(es, survivor);
    lemma_addr_index_range(es, absorbed);
    lemma_addr_index_range(es, survivor);
    assert(es.contains(es[addr_index(es, absorbed)]));
    assert(es.contains(es[addr_index(es, survivor)]));
    assert(n.key_to(absorbed) == Some(y.key()));
    assert(n.key_to(survivor) == Some(z.key()));
    if y.key().same_slot(z.key()) {
        lemma_settled_unique(es, y, z);
    }
    lemma_one_dropped(n, p[0], y);
    lemma_one_dropped(p[0], p[1], z);
    let lo = BtreeNode::smaller_key(y.key(), z.key());
    let v = BchVal::spec_new(survivor, 0);
    let e = routing(lo, survivor);
    lemma_extent_size(lo, v);
    assert(unused(p[1].all(), lo)) by {
        assert forall|x: EntryView| #[trigger] p[1].all().contains(x) implies !x.key().same_slot(
            lo,
        ) by {
            if x.key().same_slot(y.key()) {
                lemma_settled_unique(es, x, y);
            }
            if x.key().same_slot(z.key()) {
                lemma_settled_unique(es, x, z);
            }
        }
    }
    lemma_tidy_added(p[1], p[2], lo, v);
}

/// An address that an entry points to is found.
pub proof fn lemma_addr_met(es: Seq<EntryView>, addr: u64, i: int)
    requires
        0 <= i < es.len(),
        es[i].bch_val().paddr.addr == addr,
    ensures
        addr_index(es, addr) <= i,
    decreases es.len(),
{
    if es[0].bch_val().paddr.addr != addr {
        assert(es.skip(1)[i - 1] == es[i]);
        lemma_addr_met(es.skip(1), addr, i - 1);
    }
}

} // verus!
