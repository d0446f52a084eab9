//! Reading entries out of a node and searching it.

use crate::key::{BchVal, BtreeEntry, BtreeKey, EntryView, KeyType, ADDR48_LIMIT, BKEY_U64S};
use crate::le::{get_le, le_bytes, lemma_le_roundtrip, lemma_pow256_values};
use crate::node::{
    aux_record, aux_slot, lemma_run_bound, record_of, set_readable, set_run, BsetTree,
    BtreeNode, AUX_ENTRY_BYTES, DEFAULT_NODE_SIZE,
};
use crate::node_compact::{
    eytz_below, eytz_entry, eytz_hit, eytz_index, eytz_range, lemma_eytz_below, lemma_eytz_range,
    lemma_eytz_root,
};
use crate::packed::{
    entry_at, lemma_entry_pos, lemma_step, lemma_total_append, parse, read_extent, read_full,
    read_pos, read_type, total_size, well_packed,
};
use crate::run::{
    first_live, lemma_first_live_append, lemma_first_live_at, not_deleted, sorted, views,
};
use std::cmp::Ordering;
use vstd::prelude::*;

verus! {

/// The extent that an entry is read as.
pub open spec fn as_extent(e: EntryView) -> (BtreeKey, BchVal) {
    (e.key(), e.bch_val())
}

/// Whether an entry of a node at `level` reads as `e`.
pub open spec fn reads_as(level: u8, e: EntryView, r: BtreeEntry) -> bool {
    r@ == e && r.value.decodes(level, e.value)
}

/// A record of an aux array, read field by field.
pub proof fn lemma_aux_record(k: BtreeKey, off: int)
    requires
        0 <= off < 0x1_0000_0000,
    ensures
        aux_record(k, off).len() == AUX_ENTRY_BYTES,
        crate::le::le_at(aux_record(k, off), 0, 8) == k.vaddr,
        crate::le::le_at(aux_record(k, off), 8, 4) == k.snapshot_id,
        crate::le::le_at(aux_record(k, off), 16, 4) == off,
{
    lemma_pow256_values();
    lemma_le_roundtrip(k.vaddr as nat, 8);
    lemma_le_roundtrip(k.snapshot_id as nat, 4);
    lemma_le_roundtrip(off as nat, 4);
    let r = aux_record(k, off);
    assert(r.subrange(0, 8) =~= le_bytes(k.vaddr as nat, 8));
    assert(r.subrange(8, 12) =~= le_bytes(k.snapshot_id as nat, 4));
    assert(r.subrange(16, 20) =~= le_bytes(off as nat, 4));
}

/// Reads the key and the offset of the record number `i` of the aux array at `base`.
fn read_aux(d: &[u8], base: usize, i: usize, Ghost(k): Ghost<BtreeKey>, Ghost(o): Ghost<int>) -> (r:
    (u64, u32, u32))
    requires
        base + i * AUX_ENTRY_BYTES + AUX_ENTRY_BYTES <= d@.len() <= DEFAULT_NODE_SIZE,
        aux_slot(d@, base as int, i as int) == aux_record(k, o),
        0 <= o < 0x1_0000_0000,
    ensures
        r.0 == k.vaddr,
        r.1 == k.snapshot_id,
        r.2 == o,
{
    let at: usize = base + i * AUX_ENTRY_BYTES;
    let ghost s = aux_slot(d@, base as int, i as int);
    proof {
        lemma_aux_record(k, o);
        lemma_pow256_values();
        assert(s.subrange(0, 8) =~= d@.subrange(at as int, at + 8));
        assert(s.subrange(8, 12) =~= d@.subrange(at + 8, at + 12));
        assert(s.subrange(16, 20) =~= d@.subrange(at + 16, at + 20));
    }
    let vaddr: u64 = get_le(d, at, 8);
    let snapshot: u64 = get_le(d, at + 8, 4);
    let off: u64 = get_le(d, at + 16, 4);
    (vaddr, snapshot as u32, off as u32)
}

impl BtreeNode {
    /// Whether a packed entry lies wholly inside the buffer at `offset`.
    pub open spec fn entry_inside(self, offset: usize) -> bool {
        &&& offset + 24 <= self.data@.len()
        &&& self.data@[offset as int] >= BKEY_U64S
        &&& offset + self.data@[offset as int] * 8 <= self.data@.len()
    }

    /// The packed entry at `offset`.
    pub open spec fn entry_here(self, offset: usize) -> EntryView {
        entry_at(self.data@, offset as int)
    }

    /// The size byte of the packed entry at `offset`.
    pub fn read_entry_u64s(&self, offset: usize) -> (r: u8)
        requires
            offset < self.data@.len(),
        ensures
            r == self.data@[offset as int],
    {
        self.data[offset]
    }

    /// How the packed entry at `offset` and `target` are ordered.
    pub fn compare_packed_entry(&self, offset: usize, target: &BtreeKey) -> (r: Ordering)
        requires
            self.entry_inside(offset),
        ensures
            (r is Less) == self.entry_here(offset).key().lt(*target),
            (r is Greater) == target.lt(self.entry_here(offset).key()),
            (r is Equal) == self.entry_here(offset).key().same_slot(*target),
    {
        let pos = read_pos(self.data.as_slice(), offset);
        BtreeKey::from_bpos(pos, KeyType::Normal).compare(target)
    }

    /// The packed entry at `offset` as key and extent value.
    pub fn read_packed_entry(&self, offset: usize) -> (r: (BtreeKey, BchVal))
        requires
            self.entry_inside(offset),
        ensures
            r == as_extent(self.entry_here(offset)),
            r.1.paddr.addr < ADDR48_LIMIT,
    {
        read_extent(self.data.as_slice(), offset)
    }

    /// The packed entry at `offset` with its whole value.
    pub fn read_packed_entry_raw(&self, offset: usize) -> (r: BtreeEntry)
        requires
            self.entry_inside(offset),
        ensures
            reads_as(self.level, self.entry_here(offset), r),
    {
        read_full(self.data.as_slice(), offset, self.level)
    }

    /// Where the entry number `idx`, counted from 1, of a set starts: by its
    /// aux array where it has one, else by walking the set.
    pub fn entry_offset(&self, set: &BsetTree, idx: usize) -> (r: usize)
        requires
            set_readable(self.data@, *set),
            1 <= idx <= set_run(self.data@, *set).len(),
        ensures
            r == set.data_offset + total_size(set_run(self.data@, *set).take(idx - 1)),
            r + 24 <= set.end_offset <= self.data@.len(),
            self.data@[r as int] >= BKEY_U64S,
            r + self.data@[r as int] * 8 <= set.end_offset,
            entry_at(self.data@, r as int) == set_run(self.data@, *set)[idx - 1],
    {
        let ghost d = self.data@;
        let ghost es = set_run(d, *set);
        proof {
            lemma_entry_pos(d, set.data_offset as int, set.end_offset as int, idx - 1);
        }
        if set.aux_offset > 0 {
            assert(aux_slot(d, set.aux_offset as int, idx - 1) == record_of(es, idx - 1));
            assert(set.aux_offset + (idx - 1) * AUX_ENTRY_BYTES + AUX_ENTRY_BYTES <= set.aux_offset
                + es.len() * AUX_ENTRY_BYTES);
            let (_v, _s, off) = read_aux(
                self.data.as_slice(),
                set.aux_offset as usize,
                idx - 1,
                Ghost(es[idx - 1].key()),
                Ghost(total_size(es.take(idx - 1))),
            );
            off as usize
        } else {
            let mut cur: usize = set.data_offset as usize;
            let mut count: usize = 1;
            let ghost end = set.end_offset as int;
            proof {
                assert(es.take(0) =~= Seq::<EntryView>::empty());
                assert(es.skip(0) =~= es);
            }
            while count < idx
                invariant
                    1 <= count <= idx <= es.len(),
                    d == self.data@,
                    es == set_run(d, *set),
                    end == set.end_offset,
                    set_readable(d, *set),
                    set.data_offset <= cur <= end,
                    cur == set.data_offset + total_size(es.take(count - 1)),
                    well_packed(d.subrange(cur as int, end)),
                    parse(d.subrange(cur as int, end)) == es.skip(count - 1),
                decreases idx - count,
            {
                proof {
                    lemma_entry_pos(d, set.data_offset as int, end, count - 1);
                    lemma_step(d, cur as int, end);
                    let next = cur + d[cur as int] * 8;
                    assert(es.skip(count as int) =~= es.skip(count - 1).skip(1));
                    assert(parse(d.subrange(next, end)) =~= parse(d.subrange(cur as int, end)).skip(
                        1,
                    ));
                    assert(es.take(count as int) =~= es.take(count - 1).push(es[count - 1]));
                    crate::packed::lemma_total_push(es.take(count - 1), es[count - 1]);
                }
                cur = cur + self.data[cur] as usize * 8;
                count = count + 1;
            }
            cur
        }
    }

    /// The entry number `idx`, counted from 1, of a set, as key and extent value.
    pub fn read_entry(&self, set: &BsetTree, idx: usize) -> (r: (BtreeKey, BchVal))
        requires
            set_readable(self.data@, *set),
            1 <= idx <= set_run(self.data@, *set).len(),
        ensures
            r == as_extent(set_run(self.data@, *set)[idx - 1]),
            r.1.paddr.addr < ADDR48_LIMIT,
    {
        let off: usize = self.entry_offset(set, idx);
        self.read_packed_entry(off)
    }

    /// The entry number `idx`, counted from 1, of a set, with its whole value.
    pub fn read_entry_raw(&self, set: &BsetTree, idx: usize) -> (r: BtreeEntry)
        requires
            set_readable(self.data@, *set),
            1 <= idx <= set_run(self.data@, *set).len(),
        ensures
            reads_as(self.level, set_run(self.data@, *set)[idx - 1], r),
    {
        let off: usize = self.entry_offset(set, idx);
        self.read_packed_entry_raw(off)
    }

    /// Adds the entries of a set to `out`.
    pub fn collect_set(&self, set: &BsetTree, out: &mut Vec<BtreeEntry>)
        requires
            set_readable(self.data@, *set),
        ensures
            views(final(out)@) == views(old(out)@) + set_run(self.data@, *set),
            final(out)@.len() == old(out)@.len() + set_run(self.data@, *set).len(),
            final(out)@.take(old(out)@.len() as int) == old(out)@,
            forall|i: int|
                old(out)@.len() <= i < final(out)@.len() ==> reads_as(
                    self.level,
                    set_run(self.data@, *set)[i - old(out)@.len()],
                    #[trigger] final(out)@[i],
                ),
    {
        let ghost d = self.data@;
        let ghost es = set_run(d, *set);
        let ghost end = set.end_offset as int;
        let ghost out0 = out@;
        let mut cur: usize = set.data_offset as usize;
        let ghost mut n: int = 0;
        proof {
            assert(es.skip(0) =~= es);
            assert(views(out@) =~= views(out0) + es.take(0));
        }
        while cur < set.end_offset as usize
            invariant
                d == self.data@,
                es == set_run(d, *set),
                end == set.end_offset,
                set_readable(d, *set),
                set.data_offset <= cur <= end,
                0 <= n <= es.len(),
                well_packed(d.subrange(cur as int, end)),
                parse(d.subrange(cur as int, end)) == es.skip(n),
                out@.len() == out0.len() + n,
                out@.take(out0.len() as int) =~= out0,
                views(out@) == views(out0) + es.take(n),
                forall|i: int|
                    out0.len() <= i < out@.len() ==> reads_as(
                        self.level,
                        es[i - out0.len()],
                        #[trigger] out@[i],
                    ),
            decreases end - cur,
        {
            proof {
                lemma_step(d, cur as int, end);
                let next = cur + d[cur as int] * 8;
                assert(parse(d.subrange(cur as int, end))[0] == entry_at(d, cur as int));
                assert(es.skip(n).len() > 0);
                assert(es.skip(n)[0] == es[n]);
                assert(es.skip(n + 1) =~= es.skip(n).skip(1));
                assert(parse(d.subrange(next, end)) =~= parse(d.subrange(cur as int, end)).skip(1));
            }
            let e = self.read_packed_entry_raw(cur);
            let ghost before = out@;
            out.push(e);
            proof {
                assert(views(out@) =~= views(before).push(e@));
                assert(es.take(n + 1) =~= es.take(n).push(es[n]));
                assert(views(out@) =~= views(out0) + es.take(n + 1));
                assert(out@.take(out0.len() as int) =~= out0);
                n = n + 1;
            }
            cur = cur + self.data[cur] as usize * 8;
        }
        proof {
            assert(d.subrange(end, end) =~= Seq::<u8>::empty());
            assert(es.skip(n).len() == 0);
            assert(es.take(n) =~= es);
        }
    }

    /// The bytes that all packed entries of the node take.
    pub fn total_data_bytes(&self) -> (r: u32)
        requires
            self.wf(),
        ensures
            r == total_size(self.all()),
            r <= self.data@.len(),
    {
        proof {
            reveal(BtreeNode::wf);
        }
        proof {
            assert(set_readable(self.data@, self.sets@[0]));
            assert(set_readable(self.data@, self.sets@[1]));
            assert(set_readable(self.data@, self.sets@[2]));
            lemma_run_bound(self.data@, self.sets@[0]);
            lemma_run_bound(self.data@, self.sets@[1]);
            lemma_run_bound(self.data@, self.sets@[2]);
            lemma_total_append(self.run(0) + self.run(1), self.run(2));
            lemma_total_append(self.run(0), self.run(1));
        }
        let b0: u32 = self.sets[0].data_bytes();
        let b1: u32 = self.sets[1].data_bytes();
        let b2: u32 = self.sets[2].data_bytes();
        b0 + b1 + b2
    }

    /// Searches a set without an aux array entry by entry.
    fn scan_set(&self, set: &BsetTree, target: &BtreeKey) -> (r: Option<(BtreeKey, BchVal)>)
        requires
            set_readable(self.data@, *set),
        ensures
            r == (match first_live(set_run(self.data@, *set), *target) {
                Some(e) => Some(as_extent(e)),
                None => None,
            }),
    {
        let ghost d = self.data@;
        let ghost es = set_run(d, *set);
        let ghost end = set.end_offset as int;
        let mut cur: usize = set.data_offset as usize;
        let ghost mut n: int = 0;
        proof {
            assert(es.skip(0) =~= es);
        }
        while cur < set.end_offset as usize
            invariant
                d == self.data@,
                es == set_run(d, *set),
                end == set.end_offset,
                set_readable(d, *set),
                set.data_offset <= cur <= end,
                0 <= n <= es.len(),
                well_packed(d.subrange(cur as int, end)),
                parse(d.subrange(cur as int, end)) == es.skip(n),
                forall|j: int|
                    0 <= j < n ==> !((#[trigger] es[j]).key().same_slot(*target) && not_deleted(
                        es[j],
                    )),
            decreases end - cur,
        {
            proof {
                lemma_step(d, cur as int, end);
                let next = cur + d[cur as int] * 8;
                assert(parse(d.subrange(cur as int, end))[0] == entry_at(d, cur as int));
                assert(es.skip(n).len() > 0);
                assert(es.skip(n)[0] == es[n]);
                assert(es.skip(n + 1) =~= es.skip(n).skip(1));
                assert(parse(d.subrange(next, end)) =~= parse(d.subrange(cur as int, end)).skip(1));
            }
            let pos = read_pos(self.data.as_slice(), cur);
            let key_type = read_type(self.data.as_slice(), cur);
            if pos.offset == target.vaddr && pos.snapshot == target.snapshot_id && key_type
                != KeyType::Deleted {
                proof {
                    lemma_first_live_at(es, *target, n);
                }
                return Some(self.read_packed_entry(cur));
            }
            proof {
                n = n + 1;
            }
            cur = cur + self.data[cur] as usize * 8;
        }
        proof {
            assert(d.subrange(end, end) =~= Seq::<u8>::empty());
            assert(es.skip(n).len() == 0);
            lemma_first_live_at(es, *target, n);
        }
        None
    }

    /// Searches the Eytzinger array of set 0 from the root down: finds an entry
    /// if and only if the array has a slot for it.
    fn search_eytzinger(&self, target: &BtreeKey) -> (r: Option<(BtreeKey, BchVal)>)
        requires
            self.wf(),
            self.sets@[0].aux_offset > 0,
            self.sets@[0].extra > 0,
        ensures
            r is Some <==> exists|p: int| #[trigger] eytz_hit(self.run(0), *target, p),
            r matches Some(kv) ==> first_live(self.run(0), *target) is Some && kv == as_extent(
                first_live(self.run(0), *target)->0,
            ),
    {
        proof {
            reveal(BtreeNode::wf);
        }
        let set = self.sets[0];
        let ghost d = self.data@;
        let ghost es = self.run(0);
        assert(set_readable(d, self.sets@[0]));
        let n: usize = set.size as usize;
        let base: usize = set.extra as usize;
        let mut i: usize = 1;
        proof {
            assert forall|p: int| #[trigger] eytz_hit(es, *target, p) implies eytz_below(1, p) by {
                lemma_eytz_root(p);
            }
        }
        while i <= n
            invariant
                set == self.sets@[0],
                d == self.data@,
                es == self.run(0),
                self.wf(),
                set_readable(d, set),
                set.aux_offset > 0,
                set.extra > 0,
                n == set.size == es.len(),
                base == set.extra,
                i >= 1,
                forall|p: int| #[trigger]
                    eytz_hit(es, *target, p) ==> eytz_below(i as int, p),
                forall|a: int|
                    0 <= a < n && (#[trigger] es[a]).key().same_slot(*target) ==> eytz_range(
                        n as int,
                        i as int,
                    ).0 <= a < eytz_range(n as int, i as int).1,
            decreases
                if i <= n {
                    n - i + 1
                } else {
                    0
                },
        {
            let ghost j = eytz_entry(n as int, i as int);
            proof {
                reveal(BtreeNode::wf);
                lemma_eytz_range(n as int, i as int);
                assert(aux_slot(d, base as int, i - 1) == record_of(es, j));
                lemma_entry_pos(d, set.data_offset as int, set.end_offset as int, j);
                assert(base + (i - 1) * AUX_ENTRY_BYTES + AUX_ENTRY_BYTES <= base + n
                    * AUX_ENTRY_BYTES);
            }
            let (v, s, off) = read_aux(
                self.data.as_slice(),
                base,
                i - 1,
                Ghost(es[j].key()),
                Ghost(total_size(es.take(j))),
            );
            if target.vaddr == v && target.snapshot_id == s {
                let kv = self.read_packed_entry(off as usize);
                proof {
                    reveal(BtreeNode::wf);
                    assert forall|a: int| 0 <= a < j implies !((#[trigger] es[a]).key().same_slot(
                        *target,
                    ) && not_deleted(es[a])) by {
                        assert(es[a].key().lt(es[j].key()));
                    }
                    assert(not_deleted(es[j]));
                    lemma_first_live_at(es, *target, j);
                    assert(es[j].key().same_slot(*target));
                    assert(eytz_hit(es, *target, i as int));
                }
                return Some(kv);
            }
            let next: usize = if target.vaddr < v || (target.vaddr == v && target.snapshot_id > s) {
                i * 2
            } else {
                i * 2 + 1
            };
            proof {
                reveal(BtreeNode::wf);
                lemma_eytz_range(n as int, next as int);
                assert forall|a: int| 0 <= a < n && (#[trigger] es[a]).key().same_slot(
                    *target,
                ) implies eytz_range(n as int, next as int).0 <= a < eytz_range(
                    n as int,
                    next as int,
                ).1 by {
                    // The slot has a range, since `a` is in it.
                    if a < j {
                        assert(es[a].key().lt(es[j].key()));
                    } else if j < a {
                        assert(es[j].key().lt(es[a].key()));
                    }
                }
                assert forall|p: int| #[trigger] eytz_hit(es, *target, p) implies eytz_below(
                    next as int,
                    p,
                ) by {
                    let a = eytz_index(n as int, p)->0;
                    lemma_eytz_range(n as int, p);
                    lemma_eytz_below(n as int, i as int, p);
                    assert(es[a].key().same_slot(*target));
                    if p != i {
                        let other = if next == 2 * i {
                            2 * i + 1
                        } else {
                            2 * i
                        };
                        if eytz_below(other, p) {
                            lemma_eytz_below(n as int, other, p);
                        }
                    }
                }
            }
            i = next;
        }
        proof {
            assert forall|p: int| !#[trigger] eytz_hit(es, *target, p) by {
                if eytz_hit(es, *target, p) {
                    lemma_eytz_below(n as int, i as int, p);
                }
            }
        }
        None
    }

    /// Searches the sorted aux array of set 0 by halving.
    fn search_sorted(&self, target: &BtreeKey) -> (r: Option<(BtreeKey, BchVal)>)
        requires
            self.wf(),
            self.sets@[0].aux_offset > 0,
        ensures
            r == (match first_live(self.run(0), *target) {
                Some(e) => Some(as_extent(e)),
                None => None,
            }),
    {
        proof {
            reveal(BtreeNode::wf);
        }
        let set = self.sets[0];
        let ghost d = self.data@;
        let ghost es = self.run(0);
        assert(set_readable(d, self.sets@[0]));
        let n: usize = set.size as usize;
        let mut lo: usize = 0;
        let mut hi: usize = n;
        while lo < hi
            invariant
                set == self.sets@[0],
                d == self.data@,
                es == self.run(0),
                self.wf(),
                set_readable(d, set),
                set.aux_offset > 0,
                n == set.size == es.len(),
                lo <= hi <= n,
                forall|j: int| 0 <= j < lo ==> (#[trigger] es[j]).key().lt(*target),
                forall|j: int| hi <= j < n ==> target.lt((#[trigger] es[j]).key()),
            decreases hi - lo,
        {
            let mid: usize = lo + (hi - lo) / 2;
            proof {
                reveal(BtreeNode::wf);
                assert(aux_slot(d, set.aux_offset as int, mid as int) == record_of(es, mid as int));
                lemma_entry_pos(d, set.data_offset as int, set.end_offset as int, mid as int);
                assert(set.aux_offset + mid * AUX_ENTRY_BYTES + AUX_ENTRY_BYTES <= set.aux_offset
                    + n * AUX_ENTRY_BYTES);
            }
            let (v, s, off) = read_aux(
                self.data.as_slice(),
                set.aux_offset as usize,
                mid,
                Ghost(es[mid as int].key()),
                Ghost(total_size(es.take(mid as int))),
            );
            if target.vaddr == v && target.snapshot_id == s {
                proof {
                    assert forall|a: int| 0 <= a < mid implies !((
                    #[trigger] es[a]).key().same_slot(*target) && not_deleted(es[a])) by {
                        assert(es[a].key().lt(es[mid as int].key()));
                    }
                    assert(not_deleted(es[mid as int]));
                    lemma_first_live_at(es, *target, mid as int);
                }
                return Some(self.read_packed_entry(off as usize));
            }
            if target.vaddr < v || (target.vaddr == v && target.snapshot_id > s) {
                assert forall|j: int| mid <= j < n implies target.lt((#[trigger] es[j]).key()) by {
                    if j > mid {
                        assert(es[mid as int].key().lt(es[j].key()));
                    }
                }
                hi = mid;
            } else {
                assert forall|j: int| 0 <= j < mid + 1 implies (#[trigger] es[j]).key().lt(
                    *target,
                ) by {
                    if j < mid {
                        assert(es[j].key().lt(es[mid as int].key()));
                    }
                }
                lo = mid + 1;
            }
        }
        proof {
            assert forall|a: int| 0 <= a < n implies !((#[trigger] es[a]).key().same_slot(*target)
                && not_deleted(es[a])) by {
                if a < lo {
                    assert(es[a].key().lt(*target));
                } else {
                    assert(target.lt(es[a].key()));
                }
            }
            lemma_first_live_at(es, *target, n as int);
        }
        None
    }

    /// Searches all sets for a live entry in the slot of `target`: the first
    /// one, set by set. Set 0 is searched through its aux arrays where it has
    /// them: the Eytzinger array first, and on a miss the sorted array.
    pub fn search(&self, target: &BtreeKey) -> (r: Option<(BtreeKey, BchVal)>)
        requires
            self.wf(),
        ensures
            r == (match first_live(self.all(), *target) {
                Some(e) => Some(as_extent(e)),
                None => None,
            }),
    {
        proof {
            reveal(BtreeNode::wf);
        }
        proof {
            assert(set_readable(self.data@, self.sets@[0]));
            assert(set_readable(self.data@, self.sets@[1]));
            assert(set_readable(self.data@, self.sets@[2]));
            lemma_first_live_append(self.run(0) + self.run(1), self.run(2), *target);
            lemma_first_live_append(self.run(0), self.run(1), *target);
        }
        if self.sets[0].size > 0 {
            if self.sets[0].aux_offset > 0 {
                if self.sets[0].extra > 0 {
                    let hit = self.search_eytzinger(target);
                    if hit.is_some() {
                        return hit;
                    }
                }
                let hit = self.search_sorted(target);
                if hit.is_some() {
                    return hit;
                }
            } else {
                let hit = self.scan_set(&self.sets[0], target);
                if hit.is_some() {
                    return hit;
                }
            }
        }
        if self.sets[1].size > 0 {
            let hit = self.scan_set(&self.sets[1], target);
            if hit.is_some() {
                return hit;
            }
        }
        if self.sets[2].size > 0 {
            let hit = self.scan_set(&self.sets[2], target);
            if hit.is_some() {
                return hit;
            }
        }
        None
    }

    pub fn bch2_btree_node_search(&self, target: &BtreeKey) -> (r: Option<(BtreeKey, BchVal)>)
        requires
            self.wf(),
        ensures
            r == (match first_live(self.all(), *target) {
                Some(e) => Some(as_extent(e)),
                None => None,
            }),
    {
        proof {
            reveal(BtreeNode::wf);
        }
        self.search(target)
    }
}

} // verus!
