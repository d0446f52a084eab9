//! A node of the tree: a buffer with three bsets of packed entries.
//!
//! Set 0 is the compacted set: sorted, and followed, where there is room, by
//! an array of (key, offset) records for binary search and by the same records
//! in Eytzinger order. Sets 1 and 2 take the entries that were added since.

use crate::key::{Bpos, BtreeKey, EntryView};
use crate::le::le_bytes;
use crate::node_compact::eytz_entry;
use crate::packed::{all_fit, lemma_parse_shape, parse, total_size, well_packed, wrote};
use crate::run::{not_deleted, sorted};
use crate::sort::ordered;
use vstd::prelude::*;

verus! {

pub const DEFAULT_NODE_SIZE: u32 = 262144;

pub const MAX_BSETS: usize = 3;

/// The bytes of one record of an aux array: a key and a data offset.
pub const AUX_ENTRY_BYTES: usize = 20;

/// A compaction is due when tombstones reach this fraction of the keys.
pub const WHITEOUT_THRESHOLD_FRACTION: u32 = 8;

/// The number of entries from which an Eytzinger array is built.
pub const EYTZINGER_MIN_ENTRIES: usize = 16;

pub const BSET_NO_AUX_TREE_VAL: u16 = 0xffff;

pub const BSET_RW_AUX_TREE_VAL: u16 = 0xfffe;

/// The bytes that one record of an auxiliary search tree covers.
pub const BSET_CACHELINE: u32 = 256;

pub const NODE_ACCESSED: u8 = 0x01;

pub const NODE_NEED_REWRITE: u8 = 0x02;

pub const NODE_WRITE_IN_FLIGHT: u8 = 0x04;

pub const NODE_READ_IN_FLIGHT: u8 = 0x08;

pub const NODE_JUST_WRITTEN: u8 = 0x10;

/// A node is split when its live u64s exceed this share of its capacity.
pub const SPLIT_THRESHOLD_NUM: u32 = 3;

pub const SPLIT_THRESHOLD_DEN: u32 = 4;

/// A node is merged when its live u64s fall below this share of its capacity.
pub const MERGE_THRESHOLD_NUM: u32 = 1;

pub const MERGE_THRESHOLD_DEN: u32 = 3;

/// A merged node may take up to this share of the capacity.
pub const MERGE_HIGHER_NUM: u32 = 3;

pub const MERGE_HIGHER_DEN: u32 = 5;

/// Below this share a merge that does not fit is put off.
pub const MERGE_HYSTERESIS_NUM: u32 = 5;

pub const MERGE_HYSTERESIS_DEN: u32 = 12;

/// The share of a split that goes to the left node.
pub const BALANCE_TARGET_NUM: u32 = 3;

pub const BALANCE_TARGET_DEN: u32 = 5;

/// The kind of auxiliary search tree of a bset.
#[derive(Clone, Copy, Debug, PartialEq, Eq, Structural)]
pub enum BsetAuxTreeType {
    NoAuxTree,
    RoAuxTree,
    RwAuxTree,
}

/// Where a bset lies in a node's buffer.
#[derive(Clone, Copy, Debug, PartialEq, Eq, Structural)]
pub struct BsetTree {
    pub data_offset: u32,
    pub end_offset: u32,
    /// Where the sorted aux array starts; 0 where there is none.
    pub aux_offset: u32,
    /// The number of entries.
    pub size: u16,
    /// Where the Eytzinger aux array starts; 0 where there is none.
    pub extra: u16,
}

/// The life of a node.
#[derive(Clone, Copy, Debug, PartialEq, Eq, Structural)]
pub enum NodeState {
    Alive,
    Deleting,
    InFlight,
    Reclaim,
}

/// The sequence number of a node's lock: it rises with every write.
#[derive(Clone, Copy, Debug, PartialEq, Eq, Structural)]
pub struct SixLock {
    pub seq: u64,
}

impl SixLock {
    pub fn new() -> (r: SixLock)
        ensures
            r.seq == 0,
    {
        SixLock { seq: 0 }
    }

    pub fn seq(&self) -> (r: u64)
        ensures
            r == self.seq,
    {
        self.seq
    }

    /// Ends a write: the sequence number moves on.
    pub fn unlock_write(&mut self)
        ensures
            final(self).seq == (old(self).seq + 1) % 0x1_0000_0000_0000_0000,
    {
        self.seq = self.seq.wrapping_add(1);
    }
}

/// A node of the tree.
pub struct BtreeNode {
    pub lock: SixLock,
    pub level: u8,
    pub key_count: u32,
    pub whiteout_count: u32,
    pub node_size: u32,
    pub data: Vec<u8>,
    pub sets: [BsetTree; 3],
    pub refcount: u32,
    pub state: u8,
    pub flags: u8,
    /// The smallest key below this node; the largest position for an empty node.
    pub min_key: Bpos,
    /// The largest key below this node; the smallest position for an empty node.
    pub max_key: Bpos,
    /// The journal entry that changed the node last; 0 for none.
    pub journal_seq: u64,
    /// Where the node lies on disk; 0 where it does not.
    pub block_addr: u64,
    /// Set until a new node has been written for the first time.
    pub will_make_reachable: bool,
    pub pin_count: u32,
    /// The journal entry that the node holds back.
    pub journal_pin: Option<u64>,
    pub read_in_flight: bool,
}

impl BsetTree {
    /// A bset without entries at the start of the buffer.
    pub open spec fn spec_empty() -> BsetTree {
        BsetTree { data_offset: 0, end_offset: 0, aux_offset: 0, size: 0, extra: 0 }
    }

    pub fn empty() -> (r: BsetTree)
        ensures
            r == BsetTree::spec_empty(),
    {
        BsetTree { data_offset: 0, end_offset: 0, aux_offset: 0, size: 0, extra: 0 }
    }

    /// The bytes of packed entries in the set.
    pub open spec fn spec_data_bytes(self) -> int {
        if self.end_offset >= self.data_offset {
            self.end_offset - self.data_offset
        } else {
            0
        }
    }

    pub fn data_bytes(&self) -> (r: u32)
        ensures
            r == self.spec_data_bytes(),
    {
        self.end_offset.saturating_sub(self.data_offset)
    }

    pub open spec fn spec_aux_tree_type(self) -> BsetAuxTreeType {
        if self.extra == BSET_NO_AUX_TREE_VAL {
            BsetAuxTreeType::NoAuxTree
        } else if self.extra == BSET_RW_AUX_TREE_VAL {
            BsetAuxTreeType::RwAuxTree
        } else {
            BsetAuxTreeType::RoAuxTree
        }
    }

    /// The kind of auxiliary tree. Only a set without one may be empty.
    pub fn aux_tree_type(&self) -> (r: BsetAuxTreeType)
        requires
            self.extra == BSET_NO_AUX_TREE_VAL <==> self.size == 0,
        ensures
            r == self.spec_aux_tree_type(),
    {
        if self.extra == BSET_NO_AUX_TREE_VAL {
            BsetAuxTreeType::NoAuxTree
        } else if self.extra == BSET_RW_AUX_TREE_VAL {
            BsetAuxTreeType::RwAuxTree
        } else {
            BsetAuxTreeType::RoAuxTree
        }
    }

    pub fn has_ro_aux_tree(&self) -> (r: bool)
        requires
            self.extra == BSET_NO_AUX_TREE_VAL <==> self.size == 0,
        ensures
            r == (self.spec_aux_tree_type() == BsetAuxTreeType::RoAuxTree),
    {
        self.aux_tree_type() == BsetAuxTreeType::RoAuxTree
    }

    pub fn has_rw_aux_tree(&self) -> (r: bool)
        requires
            self.extra == BSET_NO_AUX_TREE_VAL <==> self.size == 0,
        ensures
            r == (self.spec_aux_tree_type() == BsetAuxTreeType::RwAuxTree),
    {
        self.aux_tree_type() == BsetAuxTreeType::RwAuxTree
    }

    pub fn first_key_offset(&self) -> (r: u32)
        ensures
            r == self.data_offset,
    {
        self.data_offset
    }

    /// One past the last byte that the set and its sorted aux array take.
    pub open spec fn top(self) -> int {
        let aux_end = self.aux_offset + self.size * AUX_ENTRY_BYTES;
        if self.aux_offset > 0 && aux_end > self.end_offset {
            aux_end
        } else {
            self.end_offset as int
        }
    }
}

// ── the shape of a node ─────────────────────────────────────────────────

/// The aux record for a key whose entry lies at `off`.
pub open spec fn aux_record(k: BtreeKey, off: int) -> Seq<u8> {
    le_bytes(k.vaddr as nat, 8) + le_bytes(k.snapshot_id as nat, 4) + seq![
        k.key_type.spec_code(),
        0u8,
        0u8,
        0u8,
    ] + le_bytes(off as nat, 4)
}

/// The record number `i` of the aux array at `base`.
pub open spec fn aux_slot(d: Seq<u8>, base: int, i: int) -> Seq<u8> {
    d.subrange(base + i * AUX_ENTRY_BYTES, base + i * AUX_ENTRY_BYTES + AUX_ENTRY_BYTES)
}

/// The aux record that belongs to the entry number `j` of a run.
pub open spec fn record_of(es: Seq<EntryView>, j: int) -> Seq<u8> {
    aux_record(es[j].key(), total_size(es.take(j)))
}

/// Whether the aux array at `base` lists the run in order.
pub open spec fn aux_valid(d: Seq<u8>, base: int, es: Seq<EntryView>) -> bool {
    forall|i: int| 0 <= i < es.len() ==> #[trigger] aux_slot(d, base, i) == record_of(es, i)
}

/// Whether the aux array at `base` lists the run in Eytzinger order.
pub open spec fn eytz_valid(d: Seq<u8>, base: int, es: Seq<EntryView>) -> bool {
    forall|i: int|
        0 <= i < es.len() ==> #[trigger] aux_slot(d, base, i) == record_of(
            es,
            eytz_entry(es.len() as int, i + 1),
        )
}

/// The bytes of a set.
pub open spec fn set_bytes(d: Seq<u8>, t: BsetTree) -> Seq<u8> {
    d.subrange(t.data_offset as int, t.end_offset as int)
}

/// The entries of a set.
pub open spec fn set_run(d: Seq<u8>, t: BsetTree) -> Seq<EntryView> {
    parse(set_bytes(d, t))
}

/// Whether a set's entries can be read out of the buffer `d`.
pub open spec fn set_readable(d: Seq<u8>, t: BsetTree) -> bool {
    &&& d.len() <= DEFAULT_NODE_SIZE
    &&& t.data_offset <= t.end_offset <= d.len()
    &&& well_packed(set_bytes(d, t))
    &&& t.aux_offset > 0 ==> {
        &&& t.data_offset == 0
        &&& t.end_offset <= t.aux_offset
        &&& t.aux_offset + set_run(d, t).len() * AUX_ENTRY_BYTES <= d.len()
        &&& aux_valid(d, t.aux_offset as int, set_run(d, t))
    }
}

/// `n` rounded up to a multiple of eight.
pub open spec fn round8(n: int) -> int {
    (n + 7) / 8 * 8
}

pub open spec fn max_int(a: int, b: int) -> int {
    if a >= b {
        a
    } else {
        b
    }
}

/// Where free space starts behind the three sets.
pub open spec fn free_start(sets: Seq<BsetTree>) -> int {
    round8(max_int(sets[0].top(), max_int(sets[1].top(), sets[2].top())))
}

/// The sets with set 0 stripped of its aux arrays.
pub open spec fn drop_aux(sets: Seq<BsetTree>) -> Seq<BsetTree> {
    sets.update(0, BsetTree { aux_offset: 0, extra: 0, ..sets[0] })
}

/// The sets with set 0 stripped of its Eytzinger array.
pub open spec fn drop_eytz(sets: Seq<BsetTree>) -> Seq<BsetTree> {
    sets.update(0, BsetTree { extra: 0, ..sets[0] })
}

impl BtreeNode {
    /// The entries of set `i`.
    pub open spec fn run(self, i: int) -> Seq<EntryView> {
        set_run(self.data@, self.sets@[i])
    }

    /// The entries of the three sets, set by set.
    pub open spec fn all(self) -> Seq<EntryView> {
        self.run(0) + self.run(1) + self.run(2)
    }

    /// The live entries of the node in key order.
    pub open spec fn live(self) -> Seq<EntryView> {
        crate::run::live(self.all())
    }

    /// Whether set 0 is what its aux arrays promise.
    pub open spec fn aux_ok(self) -> bool {
        self.sets@[0].aux_offset > 0 ==> {
            &&& sorted(self.run(0))
            &&& forall|i: int| 0 <= i < self.run(0).len() ==> not_deleted(#[trigger] self.run(0)[i])
            &&& self.sets@[0].extra > 0 ==> {
                &&& self.sets@[0].end_offset <= self.sets@[0].extra
                &&& self.sets@[0].extra + self.sets@[0].size * AUX_ENTRY_BYTES <= self.data@.len()
                &&& eytz_valid(self.data@, self.sets@[0].extra as int, self.run(0))
            }
        }
    }

    /// Whether the sets lie one behind the other.
    pub open spec fn layout_ok(self) -> bool {
        let s = self.sets@;
        &&& s[1].aux_offset == 0
        &&& s[2].aux_offset == 0
        &&& s[1].data_offset < s[1].end_offset ==> s[0].top() <= s[1].data_offset
        &&& s[2].data_offset < s[2].end_offset ==> s[0].top() <= s[2].data_offset
        &&& s[1].data_offset < s[1].end_offset && s[2].data_offset < s[2].end_offset
            ==> s[1].end_offset <= s[2].data_offset
    }

    /// Whether the node is well formed.
    #[verifier::opaque]
    pub open spec fn wf(self) -> bool {
        &&& self.data@.len() <= DEFAULT_NODE_SIZE
        &&& self.node_size <= self.data@.len()
        &&& forall|i: int|
            0 <= i < 3 ==> set_readable(self.data@, #[trigger] self.sets@[i]) && self.sets@[i].size
                == self.run(i).len()
        &&& self.layout_ok()
        &&& self.aux_ok()
        &&& ordered(self.run(0), false)
        &&& self.key_count <= self.all().len()
    }

    /// The set that takes new entries.
    pub open spec fn spec_active_inc_set(self) -> int {
        if self.sets@[2].size == 0 && self.sets@[2].spec_data_bytes() == 0 {
            1
        } else {
            2
        }
    }

    /// The sets of the node once `size` bytes are known to have room behind
    /// them: as they are, or without the aux arrays of set 0.
    pub open spec fn sets_with_room(self, size: int) -> Option<Seq<BsetTree>> {
        if free_start(self.sets@) + size <= self.node_size {
            Some(self.sets@)
        } else if self.sets@[0].aux_offset > 0 && free_start(drop_aux(self.sets@)) + size
            <= self.node_size {
            Some(drop_aux(self.sets@))
        } else {
            None
        }
    }

    /// Whether an entry of `size` bytes can be added.
    pub open spec fn has_room(self, size: int) -> bool {
        self.sets_with_room(size) is Some
    }

    /// The sets after an entry of `size` bytes was added.
    pub open spec fn sets_after_append(self, size: int) -> Seq<BsetTree> {
        let s = drop_eytz(self.sets_with_room(size)->0);
        let si = self.spec_active_inc_set();
        let t = s[si];
        let start = if t.end_offset == t.data_offset {
            free_start(s)
        } else {
            t.end_offset as int
        };
        s.update(
            si,
            BsetTree {
                data_offset: if t.end_offset == t.data_offset {
                    start as u32
                } else {
                    t.data_offset
                },
                end_offset: (start + size) as u32,
                size: (t.size + 1) as u16,
                ..t
            },
        )
    }

    /// The sets after an entry found no room: the aux arrays are gone.
    pub open spec fn sets_after_refusal(self) -> Seq<BsetTree> {
        if self.sets@[0].aux_offset > 0 {
            drop_aux(self.sets@)
        } else {
            self.sets@
        }
    }

    /// Whether `new` holds the entries of this node and `e` behind them.
    pub open spec fn appended(self, new: BtreeNode, e: EntryView) -> bool {
        let si = self.spec_active_inc_set();
        &&& new.data@.len() == self.data@.len()
        &&& new.sets@ == self.sets_after_append(e.u64s() * 8)
        &&& new.run(0) == self.run(0)
        &&& new.run(1) == (if si == 1 {
            self.run(1).push(e.padded())
        } else {
            self.run(1)
        })
        &&& new.run(2) == (if si == 2 {
            self.run(2).push(e.padded())
        } else {
            self.run(2)
        })
        &&& new.all() == self.all().push(e.padded())
        &&& wrote(
            self.data@,
            new.data@,
            self.sets_after_append(e.u64s() * 8)[si].end_offset - e.u64s() * 8,
            e,
        )
    }

    /// The node with the bytes, the sets and the counters of `new`.
    pub open spec fn with_contents(self, new: BtreeNode) -> BtreeNode {
        BtreeNode {
            data: new.data,
            sets: new.sets,
            key_count: new.key_count,
            whiteout_count: new.whiteout_count,
            ..self
        }
    }
}

/// The number of entries that a buffer can hold fits into a set's counter.
pub proof fn lemma_run_bound(d: Seq<u8>, t: BsetTree)
    requires
        set_readable(d, t),
    ensures
        set_run(d, t).len() * 24 <= t.end_offset - t.data_offset,
        set_run(d, t).len() <= 10922,
        total_size(set_run(d, t)) == t.end_offset - t.data_offset,
        all_fit(set_run(d, t)),
{
    lemma_parse_shape(set_bytes(d, t));
}

/// Bytes that a set does not cover do not matter to it.
pub proof fn lemma_set_frame(d: Seq<u8>, d2: Seq<u8>, t: BsetTree)
    requires
        set_readable(d, t),
        d2.len() == d.len(),
        forall|i: int| t.data_offset <= i < t.end_offset ==> #[trigger] d2[i] == d[i],
        t.aux_offset > 0 ==> forall|i: int|
            t.aux_offset <= i < t.aux_offset + set_run(d, t).len() * AUX_ENTRY_BYTES
                ==> #[trigger] d2[i] == d[i],
    ensures
        set_readable(d2, t),
        set_run(d2, t) == set_run(d, t),
{
    assert(set_bytes(d2, t) =~= set_bytes(d, t));
    if t.aux_offset > 0 {
        let es = set_run(d, t);
        assert forall|i: int| 0 <= i < es.len() implies #[trigger] aux_slot(
            d2,
            t.aux_offset as int,
            i,
        ) == record_of(es, i) by {
            assert(aux_slot(d2, t.aux_offset as int, i) =~= aux_slot(d, t.aux_offset as int, i));
        }
    }
}

} // verus!
