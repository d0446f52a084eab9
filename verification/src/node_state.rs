//! The state of a node beside its entries: flags, life cycle, place on disk.

use crate::key::Bpos;
use crate::le::zeros;
use crate::node::{
    BsetTree, BtreeNode, NodeState, DEFAULT_NODE_SIZE, NODE_ACCESSED, NODE_JUST_WRITTEN,
    NODE_NEED_REWRITE, NODE_READ_IN_FLIGHT, NODE_WRITE_IN_FLIGHT,
};
use crate::node_split::lemma_wf_same;
use vstd::prelude::*;

verus! {

/// Setting or clearing one flag leaves every other one as it is.
pub proof fn lemma_flags_independent(flags: u8, f: u8, g: u8)
    requires
        f & g == 0,
    ensures
        (flags | f) & g == flags & g,
        (flags & !f) & g == flags & g,
        (flags | f) & f == f,
        (flags & !f) & f == 0,
{
    assert((flags | f) & g == flags & g) by (bit_vector)
        requires
            f & g == 0,
    ;
    assert((flags & !f) & g == flags & g) by (bit_vector)
        requires
            f & g == 0,
    ;
    assert((flags | f) & f == f) by (bit_vector);
    assert((flags & !f) & f == 0) by (bit_vector);
}

/// The flags of a node are different bits.
pub proof fn lemma_flags_distinct()
    ensures
        NODE_ACCESSED & NODE_NEED_REWRITE == 0,
        NODE_ACCESSED & NODE_WRITE_IN_FLIGHT == 0,
        NODE_ACCESSED & NODE_READ_IN_FLIGHT == 0,
        NODE_ACCESSED & NODE_JUST_WRITTEN == 0,
        NODE_NEED_REWRITE & NODE_WRITE_IN_FLIGHT == 0,
        NODE_NEED_REWRITE & NODE_READ_IN_FLIGHT == 0,
        NODE_NEED_REWRITE & NODE_JUST_WRITTEN == 0,
        NODE_WRITE_IN_FLIGHT & NODE_READ_IN_FLIGHT == 0,
        NODE_WRITE_IN_FLIGHT & NODE_JUST_WRITTEN == 0,
        NODE_READ_IN_FLIGHT & NODE_JUST_WRITTEN == 0,
{
    assert(0x01u8 & 0x02 == 0 && 0x01u8 & 0x04 == 0 && 0x01u8 & 0x08 == 0 && 0x01u8 & 0x10 == 0
        && 0x02u8 & 0x04 == 0 && 0x02u8 & 0x08 == 0 && 0x02u8 & 0x10 == 0 && 0x04u8 & 0x08 == 0
        && 0x04u8 & 0x10 == 0 && 0x08u8 & 0x10 == 0) by (bit_vector);
}

impl BtreeNode {
    /// Whether `new` is this node with other flags.
    pub open spec fn with_flags(self, new: BtreeNode, flags: u8) -> bool {
        &&& new == (BtreeNode { flags, ..self })
        &&& new.wf() == self.wf()
        &&& new.all() == self.all()
    }

    /// Whether `new` is this node with other flags, one of them kept twice.
    pub open spec fn with_read_flag(self, new: BtreeNode, flags: u8, reading: bool) -> bool {
        &&& new == (BtreeNode { flags, read_in_flight: reading, ..self })
        &&& new.wf() == self.wf()
        &&& new.all() == self.all()
    }

    fn set_flags(&mut self, flags: u8)
        ensures
            old(self).with_flags(*final(self), flags),
    {
        self.flags = flags;
        proof {
            lemma_wf_same(*old(self), *self);
        }
    }

    fn set_read_flags(&mut self, flags: u8, reading: bool)
        ensures
            old(self).with_read_flag(*final(self), flags, reading),
    {
        self.flags = flags;
        self.read_in_flight = reading;
        proof {
            lemma_wf_same(*old(self), *self);
        }
    }

    /// Whether the node was used lately.
    pub fn is_accessed(&self) -> (r: bool)
        ensures
            r == (self.flags & NODE_ACCESSED != 0),
    {
        self.flags & NODE_ACCESSED != 0
    }

    pub fn set_accessed(&mut self)
        ensures
            old(self).with_flags(*final(self), old(self).flags | NODE_ACCESSED),
    {
        self.set_flags(self.flags | NODE_ACCESSED);
    }

    pub fn clear_accessed(&mut self)
        ensures
            old(self).with_flags(*final(self), old(self).flags & !NODE_ACCESSED),
    {
        self.set_flags(self.flags & !NODE_ACCESSED);
    }

    /// Whether the node is to be written anew.
    pub fn need_rewrite(&self) -> (r: bool)
        ensures
            r == (self.flags & NODE_NEED_REWRITE != 0),
    {
        self.flags & NODE_NEED_REWRITE != 0
    }

    pub fn set_need_rewrite(&mut self)
        ensures
            old(self).with_flags(*final(self), old(self).flags | NODE_NEED_REWRITE),
    {
        self.set_flags(self.flags | NODE_NEED_REWRITE);
    }

    pub fn clear_need_rewrite(&mut self)
        ensures
            old(self).with_flags(*final(self), old(self).flags & !NODE_NEED_REWRITE),
    {
        self.set_flags(self.flags & !NODE_NEED_REWRITE);
    }

    /// Whether the node is being written.
    pub fn is_write_in_flight(&self) -> (r: bool)
        ensures
            r == (self.flags & NODE_WRITE_IN_FLIGHT != 0),
    {
        self.flags & NODE_WRITE_IN_FLIGHT != 0
    }

    pub fn set_write_in_flight(&mut self)
        ensures
            old(self).with_flags(*final(self), old(self).flags | NODE_WRITE_IN_FLIGHT),
    {
        self.set_flags(self.flags | NODE_WRITE_IN_FLIGHT);
    }

    pub fn clear_write_in_flight(&mut self)
        ensures
            old(self).with_flags(*final(self), old(self).flags & !NODE_WRITE_IN_FLIGHT),
    {
        self.set_flags(self.flags & !NODE_WRITE_IN_FLIGHT);
    }

    /// Whether the node is being read.
    pub fn is_read_in_flight(&self) -> (r: bool)
        ensures
            r == (self.flags & NODE_READ_IN_FLIGHT != 0),
    {
        self.flags & NODE_READ_IN_FLIGHT != 0
    }

    pub fn set_read_in_flight(&mut self)
        ensures
            old(self).with_read_flag(*final(self), old(self).flags | NODE_READ_IN_FLIGHT, true),
    {
        self.set_read_flags(self.flags | NODE_READ_IN_FLIGHT, true);
    }

    pub fn clear_read_in_flight(&mut self)
        ensures
            old(self).with_read_flag(*final(self), old(self).flags & !NODE_READ_IN_FLIGHT, false),
    {
        self.set_read_flags(self.flags & !NODE_READ_IN_FLIGHT, false);
    }

    /// Whether the node was just written.
    pub fn is_just_written(&self) -> (r: bool)
        ensures
            r == (self.flags & NODE_JUST_WRITTEN != 0),
    {
        self.flags & NODE_JUST_WRITTEN != 0
    }

    pub fn set_just_written(&mut self)
        ensures
            old(self).with_flags(*final(self), old(self).flags | NODE_JUST_WRITTEN),
    {
        self.set_flags(self.flags | NODE_JUST_WRITTEN);
    }

    pub fn clear_just_written(&mut self)
        ensures
            old(self).with_flags(*final(self), old(self).flags & !NODE_JUST_WRITTEN),
    {
        self.set_flags(self.flags & !NODE_JUST_WRITTEN);
    }

    /// Starts a write; false where one is under way.
    pub fn try_lock_write_in_flight(&mut self) -> (r: bool)
        ensures
            r == (old(self).flags & NODE_WRITE_IN_FLIGHT == 0),
            r ==> old(self).with_flags(*final(self), old(self).flags | NODE_WRITE_IN_FLIGHT),
            !r ==> *final(self) == *old(self),
    {
        if self.is_write_in_flight() {
            return false;
        }
        self.set_write_in_flight();
        true
    }

    /// Starts a read; false where one is under way.
    pub fn try_lock_read_in_flight(&mut self) -> (r: bool)
        ensures
            r == (old(self).flags & NODE_READ_IN_FLIGHT == 0),
            r ==> old(self).with_read_flag(
                *final(self),
                old(self).flags | NODE_READ_IN_FLIGHT,
                true,
            ),
            !r ==> *final(self) == *old(self),
    {
        if self.is_read_in_flight() {
            return false;
        }
        self.set_read_in_flight();
        true
    }

    /// Whether the node has not been written yet.
    pub fn will_make_reachable(&self) -> (r: bool)
        ensures
            r == self.will_make_reachable,
    {
        self.will_make_reachable
    }

    pub fn clear_will_make_reachable(&mut self)
        ensures
            *final(self) == (BtreeNode { will_make_reachable: false, ..*old(self) }),
            final(self).wf() == old(self).wf(),
            final(self).all() == old(self).all(),
    {
        self.will_make_reachable = false;
        proof {
            lemma_wf_same(*old(self), *self);
        }
    }

    /// Moves the node on in its life cycle.
    pub fn bch2_btree_node_transition_state(&mut self, new_state: NodeState)
        ensures
            *final(self) == (BtreeNode { state: new_state.spec_code(), ..*old(self) }),
            final(self).spec_state() == new_state,
            final(self).wf() == old(self).wf(),
            final(self).all() == old(self).all(),
    {
        self.state = new_state.code();
        proof {
            lemma_wf_same(*old(self), *self);
        }
    }

    /// Where the node is in its life cycle; alive for an unknown state.
    pub open spec fn spec_state(self) -> NodeState {
        if self.state == 1 {
            NodeState::Deleting
        } else if self.state == 2 {
            NodeState::InFlight
        } else if self.state == 3 {
            NodeState::Reclaim
        } else {
            NodeState::Alive
        }
    }

    pub fn bch2_btree_node_state(&self) -> (r: NodeState)
        ensures
            r == self.spec_state(),
    {
        match self.state {
            0 => NodeState::Alive,
            1 => NodeState::Deleting,
            2 => NodeState::InFlight,
            3 => NodeState::Reclaim,
            _ => NodeState::Alive,
        }
    }

    pub fn is_alive(&self) -> (r: bool)
        ensures
            r == (self.state == 0),
    {
        self.state == 0
    }

    pub fn refcount(&self) -> (r: u32)
        ensures
            r == self.refcount,
    {
        self.refcount
    }

    /// The number of sets in use; the first one counts in any case.
    pub open spec fn spec_nsets(self) -> u8 {
        if self.sets@[2].size > 0 || self.sets@[2].spec_data_bytes() > 0 {
            3
        } else if self.sets@[1].size > 0 || self.sets@[1].spec_data_bytes() > 0 {
            2
        } else {
            1
        }
    }

    pub fn nsets(&self) -> (r: u8)
        ensures
            r == self.spec_nsets(),
            1 <= r <= 3,
    {
        if self.sets[2].size > 0 || self.sets[2].data_bytes() > 0 {
            3
        } else if self.sets[1].size > 0 || self.sets[1].data_bytes() > 0 {
            2
        } else {
            1
        }
    }

    /// The last set in use.
    pub fn current_bset(&self) -> (r: &BsetTree)
        ensures
            *r == self.sets@[self.spec_nsets() - 1],
    {
        &self.sets[self.nsets() as usize - 1]
    }

    /// Notes where the node lies on disk.
    pub fn set_block_addr(&mut self, block_addr: u64)
        ensures
            *final(self) == (BtreeNode { block_addr, ..*old(self) }),
            final(self).wf() == old(self).wf(),
            final(self).all() == old(self).all(),
    {
        self.block_addr = block_addr;
        proof {
            lemma_wf_same(*old(self), *self);
        }
    }

    pub fn block_addr(&self) -> (r: u64)
        ensures
            r == self.block_addr,
    {
        self.block_addr
    }

    /// Turns the node into an empty one at `level`; its lock and the size of
    /// its buffer stay.
    pub fn reset_for_reuse(&mut self, level: u8)
        ensures
            final(self).data@ == Seq::new(old(self).data@.len(), |i: int| 0u8),
            final(self).sets@ == seq![
                BsetTree::spec_empty(),
                BsetTree::spec_empty(),
                BsetTree::spec_empty(),
            ],
            *final(self) == (BtreeNode {
                lock: old(self).lock,
                level,
                key_count: 0,
                whiteout_count: 0,
                node_size: DEFAULT_NODE_SIZE,
                data: final(self).data,
                sets: final(self).sets,
                refcount: 1,
                state: 0,
                flags: 0,
                min_key: Bpos::spec_max(),
                max_key: Bpos::spec_min(),
                journal_seq: 0,
                block_addr: 0,
                will_make_reachable: false,
                pin_count: 0,
                journal_pin: None,
                read_in_flight: false,
            }),
            old(self).data@.len() == DEFAULT_NODE_SIZE ==> final(self).wf()
                && final(self).all().len() == 0,
    {
        let e = BsetTree::empty();
        self.level = level;
        self.key_count = 0;
        self.whiteout_count = 0;
        self.node_size = DEFAULT_NODE_SIZE;
        self.data = zeros(self.data.len());
        self.sets = [e, e, e];
        self.refcount = 1;
        self.state = 0;
        self.flags = 0;
        self.min_key = Bpos::max_pos();
        self.max_key = Bpos::min_pos();
        self.journal_seq = 0;
        self.block_addr = 0;
        self.will_make_reachable = false;
        self.pin_count = 0;
        self.journal_pin = None;
        self.read_in_flight = false;
        proof {
            assert(self.sets@ =~= seq![
                BsetTree::spec_empty(),
                BsetTree::spec_empty(),
                BsetTree::spec_empty(),
            ]);
            if self.data@.len() == DEFAULT_NODE_SIZE {
                self.lemma_empty_wf();
            }
        }
    }
}

impl NodeState {
    pub open spec fn spec_code(self) -> u8 {
        match self {
            NodeState::Alive => 0,
            NodeState::Deleting => 1,
            NodeState::InFlight => 2,
            NodeState::Reclaim => 3,
        }
    }

    /// The number that stands for the state.
    pub fn code(self) -> (r: u8)
        ensures
            r == self.spec_code(),
    {
        match self {
            NodeState::Alive => 0,
            NodeState::Deleting => 1,
            NodeState::InFlight => 2,
            NodeState::Reclaim => 3,
        }
    }
}

/// The sets in use, with their numbers.
pub fn for_each_bset(b: &BtreeNode) -> (r: Vec<(usize, BsetTree)>)
    ensures
        r@.len() == b.spec_nsets(),
        forall|i: int| 0 <= i < r@.len() ==> #[trigger] r@[i] == (i as usize, b.sets@[i]),
{
    let n: usize = b.nsets() as usize;
    let mut out: Vec<(usize, BsetTree)> = Vec::new();
    let mut i: usize = 0;
    while i < n
        invariant
            i <= n,
            n == b.spec_nsets(),
            n <= 3,
            out@.len() == i,
            forall|j: int| 0 <= j < i ==> #[trigger] out@[j] == (j as usize, b.sets@[j]),
        decreases n - i,
    {
        out.push((i, b.sets[i]));
        i = i + 1;
    }
    out
}

} // verus!
