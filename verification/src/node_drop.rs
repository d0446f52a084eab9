//! Taking out of a node what is in a slot, whatever its type.

use crate::key::{BtreeEntry, BtreeKey, EntryView};
use crate::node::BtreeNode;
use crate::packed::{all_fit, all_padded, lemma_total_push, total_size};
use crate::run::{not_deleted, sorted, views};
use vstd::prelude::*;

verus! {

/// The run without the entries in the slot of `k`.
pub open spec fn without_slot(es: Seq<EntryView>, k: BtreeKey) -> Seq<EntryView>
    decreases es.len(),
{
    if es.len() == 0 {
        es
    } else if es.last().key().same_slot(k) {
        without_slot(es.drop_last(), k)
    } else {
        without_slot(es.drop_last(), k).push(es.last())
    }
}

/// A run without a slot has the other entries, in their order.
pub proof fn lemma_without_slot(es: Seq<EntryView>, k: BtreeKey)
    ensures
        without_slot(es, k).len() <= es.len(),
        total_size(without_slot(es, k)) <= total_size(es),
        forall|e: EntryView| #[trigger]
            without_slot(es, k).contains(e) <==> es.contains(e) && !e.key().same_slot(k),
        sorted(es) ==> sorted(without_slot(es, k)),
    decreases es.len(),
{
    let r = without_slot(es, k);
    if es.len() > 0 {
        let f = es.drop_last();
        let q = without_slot(f, k);
        let x = es.last();
        lemma_without_slot(f, k);
        assert(es =~= f.push(x));
        lemma_total_push(f, x);
        lemma_total_push(q, x);
        assert forall|e: EntryView| #[trigger] r.contains(e) <==> es.contains(e)
            && !e.key().same_slot(k) by {
            assert(es.contains(e) <==> f.contains(e) || e == x) by {
                if f.contains(e) {
                    let j = choose|j: int| 0 <= j < f.len() && f[j] == e;
                    assert(es[j] == e);
                }
                if es.contains(e) && e != x {
                    let j = choose|j: int| 0 <= j < es.len() && es[j] == e;
                    assert(f[j] == e);
                }
                assert(es[es.len() - 1] == x);
            }
            if !x.key().same_slot(k) {
                assert(q.push(x).contains(e) <==> q.contains(e) || e == x) by {
                    if q.contains(e) {
                        let j = choose|j: int| 0 <= j < q.len() && q[j] == e;
                        assert(q.push(x)[j] == e);
                    }
                    assert(q.push(x)[q.len() as int] == x);
                }
            }
        }
        if sorted(es) {
            assert(sorted(f)) by {
                assert forall|i: int, j: int| 0 <= i < j < f.len() implies (
                #[trigger] f[i]).key().lt((#[trigger] f[j]).key()) by {
                    assert(es[i].key().lt(es[j].key()));
                }
            }
            assert forall|i: int, j: int| 0 <= i < j < r.len() implies (#[trigger] r[i]).key().lt(
                (#[trigger] r[j]).key(),
            ) by {
                if j == q.len() {
                    assert(q.contains(r[i]));
                    let m = choose|m: int| 0 <= m < f.len() && f[m] == r[i];
                    assert(es[m].key().lt(es[es.len() - 1].key()));
                } else {
                    assert(r[i] == q[i] && r[j] == q[j]);
                }
            }
        }
    }
}

impl BtreeNode {
    /// Whether `new` is this node compacted, with nothing in the slot of `k`.
    pub open spec fn slot_dropped(self, new: BtreeNode, k: BtreeKey) -> bool {
        &&& new.wf()
        &&& new.holds_compacted(without_slot(self.live(), k))
        &&& new.data@.len() == self.data@.len()
        &&& new == self.with_contents(new)
    }

    /// Compacts the node without what is in the slot of `k`.
    pub fn drop_slot(&mut self, k: &BtreeKey)
        requires
            old(self).wf(),
        ensures
            old(self).slot_dropped(*final(self), *k),
    {
        let all: Vec<BtreeEntry> = self.collect_all_entries();
        let ghost es = self.live();
        let mut out: Vec<BtreeEntry> = Vec::with_capacity(all.len());
        let mut i: usize = 0;
        assert(views(out@) =~= without_slot(es.take(0), *k));
        while i < all.len()
            invariant
                i <= all@.len(),
                es == views(all@),
                views(out@) == without_slot(es.take(i as int), *k),
            decreases all@.len() - i,
        {
            proof {
                assert(es.take(i + 1).drop_last() =~= es.take(i as int));
                assert(es.take(i + 1).last() == all@[i as int]@);
            }
            let pos = all[i].pos;
            if pos.offset != k.vaddr || pos.snapshot != k.snapshot_id {
                let e = all[i].duplicate();
                let ghost o0 = out@;
                out.push(e);
                assert(views(out@) =~= views(o0).push(all@[i as int]@));
            }
            i = i + 1;
        }
        proof {
            assert(es.take(es.len() as int) =~= es);
            self.lemma_live_facts();
            lemma_without_slot(es, *k);
            let r = without_slot(es, *k);
            assert forall|j: int| 0 <= j < r.len() implies (#[trigger] r[j]).fits()
                && r[j].padded() == r[j] && not_deleted(r[j]) by {
                assert(r.contains(r[j]));
                let m = choose|m: int| 0 <= m < es.len() && es[m] == r[j];
                assert(all_padded(es)[m] == es[m].padded());
            }
            assert(all_padded(r) =~= r);
            assert(all_fit(r));
        }
        self.fill_compacted(&out);
    }

    /// Whether a compaction leaves something in the slot of `k`.
    pub open spec fn shows(self, k: BtreeKey) -> bool {
        exists|i: int|
            0 <= i < self.live().len() && (#[trigger] self.live()[i]).key().same_slot(k)
    }

    /// Whether a compaction leaves something in the slot of `k`.
    pub fn shows_slot(&self, k: &BtreeKey) -> (r: bool)
        requires
            self.wf(),
        ensures
            r == self.shows(*k),
    {
        let all: Vec<BtreeEntry> = self.collect_all_entries();
        let ghost es = self.live();
        let mut i: usize = 0;
        while i < all.len()
            invariant
                i <= all@.len(),
                es == views(all@),
                es == self.live(),
                forall|j: int| 0 <= j < i ==> !(#[trigger] es[j]).key().same_slot(*k),
            decreases all@.len() - i,
        {
            assert(es[i as int] == all@[i as int]@);
            let pos = all[i].pos;
            if pos.offset == k.vaddr && pos.snapshot == k.snapshot_id {
                return true;
            }
            i = i + 1;
        }
        false
    }
}

} // verus!
