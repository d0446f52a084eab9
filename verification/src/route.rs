//! Routing in nodes above the leaves.

use crate::key::{BchVal, BtreeKey, EntryView, ADDR48_LIMIT};
use crate::node::{lemma_run_bound, set_readable, set_run, BtreeNode};
use crate::node_read::as_extent;
use crate::packed::{entry_at, lemma_step, parse, well_packed};
use vstd::prelude::*;

verus! {

/// The keys and extent values of a run.
pub open spec fn extents(es: Seq<EntryView>) -> Seq<(BtreeKey, BchVal)> {
    es.map_values(|e: EntryView| as_extent(e))
}

/// The number of the entry with the greatest key that does not come behind
/// `k`; the last one of those that tie.
pub open spec fn best_at_most(es: Seq<(BtreeKey, BchVal)>, k: BtreeKey) -> Option<int>
    decreases es.len(),
{
    if es.len() == 0 {
        None
    } else {
        let b = best_at_most(es.drop_last(), k);
        let e = es.last().0;
        if !k.lt(e) && (b is None || !e.lt(es[b->0].0)) {
            Some(es.len() - 1)
        } else {
            b
        }
    }
}

/// The number of the entry with the smallest key; the first one of those that tie.
pub open spec fn smallest(es: Seq<(BtreeKey, BchVal)>) -> int
    decreases es.len(),
{
    if es.len() <= 1 {
        0
    } else {
        let b = smallest(es.drop_last());
        if es.last().0.lt(es[b].0) {
            es.len() - 1
        } else {
            b
        }
    }
}

/// The number of the routing entry for `k`.
pub open spec fn routing_index(es: Seq<(BtreeKey, BchVal)>, k: BtreeKey) -> int {
    match best_at_most(es, k) {
        Some(i) => i,
        None => smallest(es),
    }
}

pub proof fn lemma_smallest_range(es: Seq<(BtreeKey, BchVal)>)
    requires
        es.len() > 0,
    ensures
        0 <= smallest(es) < es.len(),
        forall|j: int| 0 <= j < es.len() ==> !(#[trigger] es[j]).0.lt(es[smallest(es)].0),
        forall|j: int| 0 <= j < smallest(es) ==> es[smallest(es)].0.lt((#[trigger] es[j]).0),
    decreases es.len(),
{
    if es.len() > 1 {
        let f = es.drop_last();
        lemma_smallest_range(f);
        let b = smallest(f);
        assert forall|j: int| 0 <= j < es.len() implies !(#[trigger] es[j]).0.lt(
            es[smallest(es)].0,
        ) by {
            if j < f.len() {
                assert(!f[j].0.lt(f[b].0));
            }
        }
        assert forall|j: int| 0 <= j < smallest(es) implies es[smallest(es)].0.lt((
        #[trigger] es[j]).0) by {
            assert(!f[j].0.lt(f[b].0));
            if smallest(es) == b {
                assert(f[b].0.lt(f[j].0));
            }
        }
    }
}

/// What the best routing entry is: none behind `k` has a greater key, and none
/// of those that tie comes later.
pub proof fn lemma_best_range(es: Seq<(BtreeKey, BchVal)>, k: BtreeKey)
    ensures
        match best_at_most(es, k) {
            Some(i) => {
                &&& 0 <= i < es.len()
                &&& !k.lt(es[i].0)
                &&& forall|j: int|
                    0 <= j < es.len() && !k.lt((#[trigger] es[j]).0) ==> !es[i].0.lt(es[j].0)
                &&& forall|j: int|
                    i < j < es.len() && !k.lt((#[trigger] es[j]).0) ==> es[j].0.lt(es[i].0)
            },
            None => forall|j: int| 0 <= j < es.len() ==> k.lt((#[trigger] es[j]).0),
        },
    decreases es.len(),
{
    if es.len() > 0 {
        let f = es.drop_last();
        lemma_best_range(f, k);
        let m = es.len() - 1;
        match best_at_most(es, k) {
            Some(i) => {
                assert forall|j: int| 0 <= j < es.len() && !k.lt(
                    (#[trigger] es[j]).0,
                ) implies !es[i].0.lt(es[j].0) by {
                    if j < m {
                        assert(f[j] == es[j]);
                        assert(!k.lt(f[j].0));
                    }
                }
                assert forall|j: int| i < j < es.len() && !k.lt((#[trigger] es[j]).0) implies es[j].0.lt(
                es[i].0) by {
                    if j < m {
                        assert(f[j] == es[j]);
                        assert(!k.lt(f[j].0));
                    }
                }
            },
            None => {
                assert forall|j: int| 0 <= j < es.len() implies k.lt((#[trigger] es[j]).0) by {
                    if j < m {
                        assert(f[j] == es[j]);
                        assert(k.lt(f[j].0));
                    }
                }
            },
        }
    }
}

/// The best routing entry is the only one of its description.
pub proof fn lemma_best_unique(es: Seq<(BtreeKey, BchVal)>, k: BtreeKey, i: int)
    requires
        0 <= i < es.len(),
        !k.lt(es[i].0),
        forall|j: int| 0 <= j < es.len() && !k.lt((#[trigger] es[j]).0) ==> !es[i].0.lt(es[j].0),
        forall|j: int| i < j < es.len() && !k.lt((#[trigger] es[j]).0) ==> es[j].0.lt(es[i].0),
    ensures
        best_at_most(es, k) == Some(i),
{
    lemma_best_range(es, k);
    match best_at_most(es, k) {
        Some(b) => {
            assert(!k.lt(es[b].0));
            if b < i {
                assert(es[i].0.lt(es[b].0));
                assert(!es[i].0.lt(es[b].0));
            } else if i < b {
                assert(es[b].0.lt(es[i].0));
                assert(!es[b].0.lt(es[i].0));
            }
        },
        None => {
            assert(k.lt(es[i].0));
        },
    }
}

/// A key routes to an entry of the node.
pub proof fn lemma_routing_range(es: Seq<(BtreeKey, BchVal)>, k: BtreeKey)
    requires
        es.len() > 0,
    ensures
        0 <= routing_index(es, k) < es.len(),
{
    lemma_best_range(es, k);
    lemma_smallest_range(es);
}

/// Where a node sends `k`: the address of the child and the number of its
/// routing entry, counted from 1; nowhere for a node without keys.
pub open spec fn route(n: Option<BtreeNode>, k: BtreeKey) -> (u64, u16) {
    match n {
        Some(node) => if node.key_count == 0 {
            (0, 0)
        } else {
            let es = extents(node.all());
            let i = routing_index(es, k);
            (es[i].1.paddr.addr, (i + 1) as u16)
        },
        None => (0, 0),
    }
}

impl BtreeNode {
    /// The keys and extent values of the node, set by set.
    pub fn all_extents(&self) -> (r: Vec<(BtreeKey, BchVal)>)
        requires
            self.wf(),
        ensures
            r@ == extents(self.all()),
            r@.len() <= 10922,
            forall|i: int| 0 <= i < r@.len() ==> (#[trigger] r@[i]).1.paddr.addr < ADDR48_LIMIT,
    {
        proof {
            reveal(BtreeNode::wf);
        }
        let mut out: Vec<(BtreeKey, BchVal)> = Vec::new();
        proof {
            assert(set_readable(self.data@, self.sets@[0]));
            assert(set_readable(self.data@, self.sets@[1]));
            assert(set_readable(self.data@, self.sets@[2]));
            self.lemma_all();
        }
        self.push_extents(0, &mut out);
        self.push_extents(1, &mut out);
        self.push_extents(2, &mut out);
        assert(out@ =~= extents(self.all()));
        out
    }

    /// Adds the keys and extent values of one set to `out`.
    fn push_extents(&self, si: usize, out: &mut Vec<(BtreeKey, BchVal)>)
        requires
            self.wf(),
            si < 3,
            forall|i: int|
                0 <= i < old(out)@.len() ==> (#[trigger] old(out)@[i]).1.paddr.addr < ADDR48_LIMIT,
        ensures
            final(out)@ == old(out)@ + extents(self.run(si as int)),
            forall|i: int|
                0 <= i < final(out)@.len() ==> (#[trigger] final(out)@[i]).1.paddr.addr
                    < ADDR48_LIMIT,
    {
        proof {
            reveal(BtreeNode::wf);
        }
        let set = self.sets[si];
        let ghost d = self.data@;
        proof {
            assert(set_readable(d, self.sets@[si as int]));
        }
        let ghost es = set_run(d, set);
        let ghost end = set.end_offset as int;
        let ghost out0 = out@;
        let mut cur: usize = set.data_offset as usize;
        let ghost mut n: int = 0;
        proof {
            assert(es.skip(0) =~= es);
            assert(out@ =~= out0 + extents(es.take(0)));
        }
        while cur < set.end_offset as usize
            invariant
                d == self.data@,
                es == set_run(d, set),
                end == set.end_offset,
                set_readable(d, set),
                set.data_offset <= cur <= end,
                0 <= n <= es.len(),
                well_packed(d.subrange(cur as int, end)),
                parse(d.subrange(cur as int, end)) == es.skip(n),
                out@ == out0 + extents(es.take(n)),
                forall|i: int|
                    0 <= i < out@.len() ==> (#[trigger] out@[i]).1.paddr.addr < ADDR48_LIMIT,
            decreases end - cur,
        {
            proof {
                lemma_step(d, cur as int, end);
                let next = cur + d[cur as int] * 8;
                assert(parse(d.subrange(cur as int, end))[0] == entry_at(d, cur as int));
                assert(es.skip(n).len() > 0);
                assert(es.skip(n)[0] == es[n]);
                assert(es.skip(n + 1) =~= es.skip(n).skip(1));
                assert(parse(d.subrange(next, end)) =~= parse(d.subrange(cur as int, end)).skip(1));
                assert(extents(es.take(n + 1)) =~= extents(es.take(n)).push(as_extent(es[n])));
            }
            let kv = self.read_packed_entry(cur);
            out.push(kv);
            proof {
                assert(out@ =~= out0 + extents(es.take(n + 1)));
                n = n + 1;
            }
            cur = cur + self.data[cur] as usize * 8;
        }
        proof {
            assert(d.subrange(end, end) =~= Seq::<u8>::empty());
            assert(es.skip(n).len() == 0);
            assert(es.take(n) =~= es);
        }
    }

    /// Where the node sends `target`. A compacted node without later entries is
    /// searched by halving, any other entry by entry.
    pub fn find_child_node(&self, target: &BtreeKey) -> (r: (u64, u16))
        requires
            self.wf(),
        ensures
            r == route(Some(*self), *target),
            r.0 < ADDR48_LIMIT,
    {
        proof {
            reveal(BtreeNode::wf);
        }
        if self.key_count == 0 {
            return (0, 0);
        }
        proof {
            self.lemma_all();
        }
        if self.sets[0].aux_offset > 0 && self.sets[1].size == 0 && self.sets[2].size == 0 {
            return self.find_child_sorted(target);
        }
        let es: Vec<(BtreeKey, BchVal)> = self.all_extents();
        let n: usize = es.len();
        let mut best: Option<usize> = None;
        let mut low: usize = 0;
        let mut i: usize = 0;
        assert(es@.take(0) =~= Seq::<(BtreeKey, BchVal)>::empty());
        while i < n
            invariant
                i <= n,
                n == es@.len(),
                low < n || n == 0,
                best matches Some(b) ==> b < i,
                best_at_most(es@.take(i as int), *target) == (match best {
                    Some(b) => Some(b as int),
                    None => None,
                }),
                i > 0 ==> low == smallest(es@.take(i as int)) && low < i,
                i == 0 ==> low == 0,
            decreases n - i,
        {
            let ghost t = es@.take(i + 1);
            proof {
                assert(t.drop_last() =~= es@.take(i as int));
                assert(t.last() == es@[i as int]);
                if i > 0 {
                    assert(t[low as int] == es@[low as int]);
                }
            }
            let k = es[i].0;
            if !target.precedes(&k) {
                match best {
                    None => {
                        best = Some(i);
                    },
                    Some(b) => {
                        assert(t[b as int] == es@[b as int]);
                        if !k.precedes(&es[b].0) {
                            best = Some(i);
                        }
                    },
                }
            }
            if i > 0 && k.precedes(&es[low].0) {
                low = i;
            }
            i = i + 1;
        }
        assert(es@.take(n as int) =~= es@);
        proof {
            assert(es@ == extents(self.all()));
            assert(n > 0);
        }
        let pick: usize = match best {
            Some(b) => b,
            None => low,
        };
        (es[pick].1.paddr.get(), (pick + 1) as u16)
    }

    /// Routing in a node whose only entries are its compacted ones.
    fn find_child_sorted(&self, target: &BtreeKey) -> (r: (u64, u16))
        requires
            self.wf(),
            self.key_count > 0,
            self.sets@[0].aux_offset > 0,
            self.sets@[1].size == 0,
            self.sets@[2].size == 0,
        ensures
            r == route(Some(*self), *target),
            r.0 < ADDR48_LIMIT,
    {
        proof {
            reveal(BtreeNode::wf);
        }
        let ghost run = self.run(0);
        let ghost es = extents(self.all());
        proof {
            assert(set_readable(self.data@, self.sets@[0]));
            assert(set_readable(self.data@, self.sets@[1]));
            assert(set_readable(self.data@, self.sets@[2]));
            lemma_run_bound(self.data@, self.sets@[0]);
            assert(self.all() =~= run);
            assert forall|i: int, j: int| 0 <= i < j < es.len() implies (
            #[trigger] es[i]).0.lt((#[trigger] es[j]).0) by {
                assert(run[i].key().lt(run[j].key()));
            }
        }
        let n: usize = self.sets[0].size as usize;
        let mut lo: usize = 0;
        let mut hi: usize = n;
        while lo < hi
            invariant
                self.wf(),
                set_readable(self.data@, self.sets@[0]),
                run == self.run(0),
                es == extents(self.all()),
                self.all() == run,
                n == run.len() == es.len(),
                lo <= hi <= n,
                forall|i: int, j: int|
                    0 <= i < j < es.len() ==> (#[trigger] es[i]).0.lt((#[trigger] es[j]).0),
                forall|j: int| 0 <= j < lo ==> !target.lt((#[trigger] es[j]).0),
                forall|j: int| hi <= j < n ==> target.lt((#[trigger] es[j]).0),
            decreases hi - lo,
        {
            let mid: usize = lo + (hi - lo) / 2;
            let (k, _v) = self.read_entry(&self.sets[0], mid + 1);
            assert(es[mid as int].0 == k);
            if target.precedes(&k) {
                assert forall|j: int| mid <= j < n implies target.lt((#[trigger] es[j]).0) by {
                    if j > mid {
                        assert(es[mid as int].0.lt(es[j].0));
                    }
                }
                hi = mid;
            } else {
                assert forall|j: int| 0 <= j < mid + 1 implies !target.lt((#[trigger] es[j]).0) by {
                    if j < mid {
                        assert(es[j].0.lt(es[mid as int].0));
                    }
                }
                lo = mid + 1;
            }
        }
        let pick: usize = if lo > 0 {
            proof {
                assert forall|j: int| 0 <= j < es.len() && !target.lt(
                    (#[trigger] es[j]).0,
                ) implies !es[lo - 1].0.lt(es[j].0) by {
                    if j < lo - 1 {
                        assert(es[j].0.lt(es[lo - 1].0));
                    }
                }
                lemma_best_unique(es, *target, lo - 1);
            }
            lo - 1
        } else {
            proof {
                lemma_best_range(es, *target);
                if let Some(b) = best_at_most(es, *target) {
                    assert(target.lt(es[b].0));
                }
                lemma_smallest_range(es);
                if smallest(es) > 0 {
                    assert(es[0].0.lt(es[smallest(es)].0));
                }
            }
            0
        };
        let (_k, v) = self.read_entry(&self.sets[0], pick + 1);
        assert(es[pick as int] == as_extent(run[pick as int]));
        (v.paddr.get(), (pick + 1) as u16)
    }
}

} // verus!
