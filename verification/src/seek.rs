//! Finding a place among the entries of a node, counted over all its sets.

use crate::key::{BchVal, BtreeEntry, BtreeKey, EntryView, ADDR48_LIMIT};
use crate::node::{set_readable, set_run, BtreeNode};
use crate::node_read::{as_extent, reads_as};
use crate::packed::{entry_at, lemma_step, parse, read_full, read_pos, well_packed};
use crate::run::{last_in, lemma_last_in_append, lemma_lower_bound_unique, lower_bound};
use crate::sort::before;
use vstd::prelude::*;

verus! {

/// The number of the entry with the smallest key that does not come before
/// `t`; the first one of those that tie.
pub open spec fn least_from(es: Seq<EntryView>, t: BtreeKey) -> Option<int>
    decreases es.len(),
{
    if es.len() == 0 {
        None
    } else {
        let b = least_from(es.drop_last(), t);
        let e = es.last().key();
        if !e.lt(t) && (b is None || e.lt(es[b->0].key())) {
            Some(es.len() - 1)
        } else {
            b
        }
    }
}

/// A candidate for a place: a key, and the number of its entry counted from 1
/// over all sets.
pub type Place = (BtreeKey, int);

/// The better one of two candidates, the second from a later set: the smaller
/// key, and for the same key the later set.
pub open spec fn better(a: Option<Place>, b: Option<Place>) -> Option<Place> {
    match (a, b) {
        (None, x) => x,
        (x, None) => x,
        (Some((ka, ia)), Some((kb, ib))) => if kb.lt(ka) || kb == ka {
            Some((kb, ib))
        } else {
            Some((ka, ia))
        },
    }
}

/// The candidate of a sorted set whose entries are counted from `base` on.
pub open spec fn place_sorted(es: Seq<EntryView>, base: int, t: BtreeKey) -> Option<Place> {
    let i = lower_bound(es, t);
    if i < es.len() {
        Some((es[i].key(), base + i + 1))
    } else {
        None
    }
}

/// The candidate of an unsorted set whose entries are counted from `base` on.
pub open spec fn place_unsorted(es: Seq<EntryView>, base: int, t: BtreeKey) -> Option<Place> {
    match least_from(es, t) {
        Some(i) => Some((es[i].key(), base + i + 1)),
        None => None,
    }
}

impl BtreeNode {
    /// The best candidate of the node.
    pub open spec fn best_place(self, t: BtreeKey) -> Option<Place> {
        let n0 = self.run(0).len() as int;
        let n1 = self.run(1).len() as int;
        better(
            better(place_sorted(self.run(0), 0, t), place_unsorted(self.run(1), n0, t)),
            place_unsorted(self.run(2), n0 + n1, t),
        )
    }

    /// Where a walk that looks for `t` starts, counted from 1: at the smallest
    /// key that does not come before `t`, at the start where all do or where
    /// `t` is the smallest key there is, and nowhere (0) in a node without
    /// entries.
    pub open spec fn spec_seek(self, t: BtreeKey) -> int {
        if t == BtreeKey::spec_min_key() {
            1
        } else if self.all().len() == 0 {
            0
        } else {
            match self.best_place(t) {
                Some((_k, i)) => i,
                None => 1,
            }
        }
    }

    /// The number of entries of the first set, and of the first two.
    pub fn set_counts(&self) -> (r: (usize, usize, usize))
        requires
            self.wf(),
        ensures
            r.0 == self.run(0).len(),
            r.1 == self.run(1).len(),
            r.2 == self.run(2).len(),
            r.0 + r.1 + r.2 == self.all().len(),
            r.0 + r.1 + r.2 <= 10922,
    {
        proof {
            reveal(BtreeNode::wf);
        }
        proof {
            self.lemma_all();
            assert(set_readable(self.data@, self.sets@[0]));
            assert(set_readable(self.data@, self.sets@[1]));
            assert(set_readable(self.data@, self.sets@[2]));
        }
        (self.sets[0].size as usize, self.sets[1].size as usize, self.sets[2].size as usize)
    }

    /// The set and the place in it, counted from 1, of the entry number
    /// `global`, counted from 1 over all sets.
    pub fn locate(&self, global: u16) -> (r: Option<(usize, usize)>)
        requires
            self.wf(),
        ensures
            r is Some == (1 <= global <= self.all().len()),
            r matches Some((si, i)) ==> si < 3 && 1 <= i <= self.run(si as int).len() && self.run(
                si as int,
            )[i - 1] == self.all()[global - 1] && set_readable(self.data@, self.sets@[si as int])
                && global == i + (if si > 0 {
                self.run(0).len() as int
            } else {
                0
            }) + (if si > 1 {
                self.run(1).len() as int
            } else {
                0
            }),
    {
        proof {
            reveal(BtreeNode::wf);
        }
        let (n0, n1, n2) = self.set_counts();
        let g: usize = global as usize;
        proof {
            assert(set_readable(self.data@, self.sets@[0]));
            assert(set_readable(self.data@, self.sets@[1]));
            assert(set_readable(self.data@, self.sets@[2]));
        }
        if g == 0 {
            None
        } else if g <= n0 {
            Some((0, g))
        } else if g - n0 <= n1 {
            Some((1, g - n0))
        } else if g - n0 - n1 <= n2 {
            Some((2, g - n0 - n1))
        } else {
            None
        }
    }

    /// The entry number `global`, counted from 1 over all sets.
    pub fn read_entry_by_global_idx(&self, global: u16) -> (r: Option<(BtreeKey, BchVal)>)
        requires
            self.wf(),
        ensures
            r == (if 1 <= global <= self.all().len() {
                Some(as_extent(self.all()[global - 1]))
            } else {
                None
            }),
            r matches Some(kv) ==> kv.1.paddr.addr < ADDR48_LIMIT,
    {
        proof {
            reveal(BtreeNode::wf);
        }
        match self.locate(global) {
            Some((si, i)) => Some(self.read_entry(&self.sets[si], i)),
            None => None,
        }
    }

    /// The entry number `global`, counted from 1 over all sets, with its whole value.
    pub fn read_full_by_global_idx(&self, global: u16) -> (r: Option<BtreeEntry>)
        requires
            self.wf(),
        ensures
            r is Some == (1 <= global <= self.all().len()),
            r matches Some(e) ==> reads_as(self.level, self.all()[global - 1], e),
    {
        proof {
            reveal(BtreeNode::wf);
        }
        match self.locate(global) {
            Some((si, i)) => Some(self.read_entry_raw(&self.sets[si], i)),
            None => None,
        }
    }

    /// The entry number `global`, counted from 1 over all sets, with its whole
    /// value, read as that of a leaf.
    pub fn read_leaf_by_global_idx(&self, global: u16) -> (r: Option<BtreeEntry>)
        requires
            self.wf(),
        ensures
            r is Some == (1 <= global <= self.all().len()),
            r matches Some(e) ==> reads_as(0, self.all()[global - 1], e),
    {
        match self.locate(global) {
            Some((si, i)) => {
                let off: usize = self.entry_offset(&self.sets[si], i);
                Some(read_full(self.data.as_slice(), off, 0))
            },
            None => None,
        }
    }

    /// The candidate of set 0, found by halving.
    fn seek_sorted(&self, t: &BtreeKey) -> (r: Option<(BtreeKey, usize)>)
        requires
            self.wf(),
        ensures
            (match r {
                Some((k, i)) => Some((k, i as int)),
                None => None::<Place>,
            }) == place_sorted(self.run(0), 0, *t),
            r matches Some((k, i)) ==> 1 <= i <= 10922,
    {
        proof {
            reveal(BtreeNode::wf);
        }
        let ghost es = self.run(0);
        let (n, _n1, _n2) = self.set_counts();
        proof {
            assert(set_readable(self.data@, self.sets@[0]));
        }
        let mut lo: usize = 0;
        let mut hi: usize = n;
        while lo < hi
            invariant
                self.wf(),
                set_readable(self.data@, self.sets@[0]),
                es == self.run(0),
                n == es.len(),
                lo <= hi <= n,
                forall|j: int| 0 <= j < lo ==> (#[trigger] es[j]).key().lt(*t),
                forall|j: int| hi <= j < n ==> !(#[trigger] es[j]).key().lt(*t),
            decreases hi - lo,
        {
            let mid: usize = lo + (hi - lo) / 2;
            let (k, _v) = self.read_entry(&self.sets[0], mid + 1);
            proof {
                reveal(BtreeNode::wf);
            }
            if k.precedes(t) {
                assert forall|j: int| 0 <= j < mid + 1 implies (#[trigger] es[j]).key().lt(*t) by {
                    if j < mid {
                        assert(!before(es[mid as int], es[j], false));
                    }
                }
                lo = mid + 1;
            } else {
                assert forall|j: int| mid <= j < n implies !(#[trigger] es[j]).key().lt(*t) by {
                    if j > mid {
                        assert(!before(es[j], es[mid as int], false));
                    }
                }
                hi = mid;
            }
        }
        proof {
            lemma_lower_bound_unique(es, *t, lo as int);
        }
        if lo < n {
            let (k, _v) = self.read_entry(&self.sets[0], lo + 1);
            Some((k, lo + 1))
        } else {
            None
        }
    }

    /// The candidate of a set to which entries were added, found one by one.
    fn seek_unsorted(&self, si: usize, base: usize, t: &BtreeKey) -> (r: Option<(BtreeKey, usize)>)
        requires
            self.wf(),
            si < 3,
            base + self.run(si as int).len() <= 10922,
        ensures
            (match r {
                Some((k, i)) => Some((k, i as int)),
                None => None::<Place>,
            }) == place_unsorted(self.run(si as int), base as int, *t),
            r matches Some((k, i)) ==> 1 <= i <= 10922,
    {
        proof {
            reveal(BtreeNode::wf);
        }
        let ghost es = self.run(si as int);
        proof {
            assert(set_readable(self.data@, self.sets@[si as int]));
        }
        let n: usize = self.sets[si].size as usize;
        let mut best: Option<(BtreeKey, usize)> = None;
        let mut i: usize = 0;
        assert(es.take(0) =~= Seq::<EntryView>::empty());
        while i < n
            invariant
                self.wf(),
                si < 3,
                set_readable(self.data@, self.sets@[si as int]),
                es == self.run(si as int),
                n == es.len(),
                i <= n,
                best is Some == (least_from(es.take(i as int), *t) is Some),
                best matches Some((k, j)) ==> j < i && least_from(es.take(i as int), *t) == Some(
                    j as int,
                ) && k == es[j as int].key(),
            decreases n - i,
        {
            let (k, _v) = self.read_entry(&self.sets[si], i + 1);
            proof {
                assert(es.take(i + 1).drop_last() =~= es.take(i as int));
                assert(es.take(i + 1).last() == es[i as int]);
            }
            if !k.precedes(t) {
                match best {
                    None => {
                        best = Some((k, i));
                    },
                    Some((bk, bj)) => {
                        assert(es.take(i + 1)[bj as int] == es[bj as int]);
                        if k.precedes(&bk) {
                            best = Some((k, i));
                        }
                    },
                }
            }
            i = i + 1;
        }
        assert(es.take(n as int) =~= es);
        match best {
            Some((k, j)) => Some((k, base + j + 1)),
            None => None,
        }
    }

    /// The last entry of a set in the slot of `t`.
    fn last_in_set(&self, si: usize, t: &BtreeKey) -> (r: Option<(BtreeKey, BchVal)>)
        requires
            self.wf(),
            si < 3,
        ensures
            r == (match last_in(self.run(si as int), *t) {
                Some(e) => Some(as_extent(e)),
                None => None,
            }),
    {
        proof {
            reveal(BtreeNode::wf);
        }
        let set = self.sets[si];
        let ghost d = self.data@;
        let ghost es = self.run(si as int);
        let ghost end = set.end_offset as int;
        proof {
            assert(set_readable(self.data@, self.sets@[si as int]));
            assert(es.skip(0) =~= es);
            assert(es.take(0) =~= Seq::<EntryView>::empty());
        }
        let mut cur: usize = set.data_offset as usize;
        let mut best: Option<usize> = None;
        let ghost mut n: int = 0;
        let ghost mut j: int = 0;
        while cur < set.end_offset as usize
            invariant
                d == self.data@,
                es == set_run(d, set),
                end == set.end_offset,
                set_readable(d, set),
                set.data_offset <= cur <= end,
                0 <= n <= es.len(),
                well_packed(d.subrange(cur as int, end)),
                parse(d.subrange(cur as int, end)) == es.skip(n),
                best is Some == last_in(es.take(n), *t) is Some,
                best matches Some(off) ==> 0 <= j < n && last_in(es.take(n), *t) == Some(es[j])
                    && off < end && well_packed(d.subrange(off as int, end)) && set.data_offset
                    <= off && parse(d.subrange(off as int, end)) == es.skip(j),
            decreases end - cur,
        {
            proof {
                lemma_step(d, cur as int, end);
                let next = cur + d[cur as int] * 8;
                assert(parse(d.subrange(cur as int, end))[0] == entry_at(d, cur as int));
                assert(es.skip(n).len() > 0);
                assert(es.skip(n)[0] == es[n]);
                assert(es.skip(n + 1) =~= es.skip(n).skip(1));
                assert(parse(d.subrange(next, end)) =~= parse(d.subrange(cur as int, end)).skip(1));
                assert(es.take(n + 1).drop_last() =~= es.take(n));
                assert(es.take(n + 1).last() == es[n]);
            }
            let pos = read_pos(self.data.as_slice(), cur);
            if pos.offset == t.vaddr && pos.snapshot == t.snapshot_id {
                best = Some(cur);
                proof {
                    j = n;
                }
            }
            proof {
                n = n + 1;
            }
            cur = cur + self.data[cur] as usize * 8;
        }
        proof {
            assert(d.subrange(end, end) =~= Seq::<u8>::empty());
            assert(es.skip(n).len() == 0);
            assert(es.take(n) =~= es);
        }
        match best {
            Some(off) => {
                proof {
                    lemma_step(d, off as int, end);
                    assert(es.skip(j)[0] == es[j]);
                }
                Some(self.read_packed_entry(off))
            },
            None => None,
        }
    }

    /// The last entry of all sets in the slot of `t`, tombstones included.
    pub fn newest(&self, t: &BtreeKey) -> (r: Option<(BtreeKey, BchVal)>)
        requires
            self.wf(),
        ensures
            r == (match last_in(self.all(), *t) {
                Some(e) => Some(as_extent(e)),
                None => None,
            }),
    {
        proof {
            lemma_last_in_append(self.run(0), self.run(1), *t);
            lemma_last_in_append(self.run(0) + self.run(1), self.run(2), *t);
        }
        if let Some(kv) = self.last_in_set(2, t) {
            return Some(kv);
        }
        if let Some(kv) = self.last_in_set(1, t) {
            return Some(kv);
        }
        self.last_in_set(0, t)
    }

    /// Where a walk that looks for `t` starts.
    pub fn seek(&self, t: &BtreeKey) -> (r: u16)
        requires
            self.wf(),
        ensures
            r == self.spec_seek(*t),
            r <= 10922,
            r == 0 ==> self.all().len() == 0,
    {
        proof {
            reveal(BtreeNode::wf);
        }
        let min = BtreeKey::min_key();
        if t.vaddr == min.vaddr && t.snapshot_id == min.snapshot_id && t.key_type == min.key_type {
            return 1;
        }
        let (n0, n1, n2) = self.set_counts();
        if n0 + n1 + n2 == 0 {
            return 0;
        }
        let a = self.seek_sorted(t);
        let b = self.seek_unsorted(1, n0, t);
        let c = self.seek_unsorted(2, n0 + n1, t);
        let ab = pick_place(a, b);
        match pick_place(ab, c) {
            Some((_k, i)) => i as u16,
            None => 1,
        }
    }
}

/// The better one of two candidates.
fn pick_place(a: Option<(BtreeKey, usize)>, b: Option<(BtreeKey, usize)>) -> (r: Option<
    (BtreeKey, usize),
>)
    ensures
        (match r {
            Some((k, i)) => Some((k, i as int)),
            None => None::<Place>,
        }) == better(
            (match a {
                Some((k, i)) => Some((k, i as int)),
                None => None::<Place>,
            }),
            (match b {
                Some((k, i)) => Some((k, i as int)),
                None => None::<Place>,
            }),
        ),
        r == a || r == b,
{
    match a {
        None => b,
        Some((ka, ia)) => match b {
            None => a,
            Some((kb, ib)) => if kb.precedes(&ka) || kb == ka {
                Some((kb, ib))
            } else {
                Some((ka, ia))
            },
        },
    }
}

} // verus!
