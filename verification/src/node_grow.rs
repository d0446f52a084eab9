//! Adding to a node that may have to be compacted first.

use crate::key::{BchVal, BtreeEntry, BtreeKey, EntryView};
use crate::node::{free_start, BtreeNode};
use crate::node_delete::lemma_live_after_write;
use crate::run::{live, not_deleted};
use vstd::prelude::*;

verus! {

impl BtreeNode {
    /// Whether `new` is this node after a compaction.
    pub open spec fn compacted_to(self, new: BtreeNode) -> bool {
        &&& new.wf()
        &&& new.holds_compacted(self.live())
        &&& new.data@.len() == self.data@.len()
        &&& new == self.with_contents(new)
    }

    /// Whether `new` is this node with `e` added behind its entries.
    pub open spec fn added(self, new: BtreeNode, e: EntryView) -> bool {
        &&& new.wf()
        &&& self.appended(new, e)
        &&& new.key_count == self.key_count + 1
        &&& new.whiteout_count == self.whiteout_count
        &&& new == self.with_contents(new)
    }

    /// Whether the compacted node `c` takes an entry of `size` bytes: by what
    /// fits behind its aux arrays, or also by giving those up.
    pub open spec fn takes(c: BtreeNode, size: int, keep_aux: bool) -> bool {
        if keep_aux {
            free_start(c.sets@) + size <= c.node_size
        } else {
            c.has_room(size)
        }
    }

    /// Whether `new` is this node with `e` added: as it is where it has room,
    /// else after a compaction that made room.
    pub open spec fn grown(self, new: BtreeNode, e: EntryView, keep_aux: bool) -> bool {
        if self.has_room(e.u64s() * 8) {
            self.added(new, e)
        } else {
            exists|c: BtreeNode| #[trigger]
                self.compacted_to(c) && BtreeNode::takes(c, e.u64s() * 8, keep_aux) && c.added(
                    new,
                    e,
                )
        }
    }

    /// Whether `new` is this node after it took no entry of `size` bytes even
    /// compacted.
    pub open spec fn full(self, new: BtreeNode, size: int, keep_aux: bool) -> bool {
        &&& !self.has_room(size)
        &&& self.compacted_to(new)
        &&& !BtreeNode::takes(new, size, keep_aux)
    }

    /// Whether `new` is this node after a compaction that made no room, and
    /// after one more entry was refused.
    pub open spec fn full_stripped(self, new: BtreeNode, size: int) -> bool {
        &&& new.wf()
        &&& !self.has_room(size)
        &&& exists|c: BtreeNode| #[trigger]
            self.compacted_to(c) && !c.has_room(size) && c.refused(new) && new
                == c.with_contents(new)
    }

    /// Adds an extent, compacting the node where it is full. With `keep_aux`
    /// the compacted node takes the entry only behind its aux arrays.
    pub fn insert_compacting(&mut self, key: BtreeKey, value: BchVal, keep_aux: bool) -> (r: bool)
        requires
            old(self).wf(),
        ensures
            final(self).wf(),
            r ==> old(self).grown(*final(self), EntryView::extent(key, value), keep_aux),
            !r && keep_aux ==> old(self).full(*final(self), 32, true),
            !r && !keep_aux ==> old(self).full_stripped(*final(self), 32),
            final(self).data@.len() == old(self).data@.len(),
            *final(self) == old(self).with_contents(*final(self)),
            !r ==> final(self).all() == old(self).live() && final(self).live() == old(self).live(),
    {
        let ghost n0 = *self;
        proof {
            crate::node_edit::lemma_extent_size(key, value);
        }
        if self.insert(key, value) {
            return true;
        }
        proof {
            assert(self.live() == n0.live());
        }
        self.compact();
        let ghost c = *self;
        proof {
            assert(n0.compacted_to(c));
            crate::node_compact::lemma_compact_idempotent(n0.all());
        }
        if keep_aux && !self.compact_fits(1) {
            return false;
        }
        self.insert(key, value)
    }

    /// Adds an entry, compacting the node where it is full.
    pub fn insert_entry_compacting(&mut self, entry: &BtreeEntry) -> (r: bool)
        requires
            old(self).wf(),
            entry@.fits(),
        ensures
            final(self).wf(),
            r ==> old(self).grown(*final(self), entry@, false),
            !r ==> old(self).full_stripped(*final(self), entry@.u64s() * 8),
            final(self).data@.len() == old(self).data@.len(),
            *final(self) == old(self).with_contents(*final(self)),
            !r ==> final(self).all() == old(self).live() && final(self).live() == old(self).live(),
    {
        let ghost n0 = *self;
        if self.insert_entry(entry) {
            return true;
        }
        proof {
            assert(self.live() == n0.live());
        }
        self.compact();
        let ghost c = *self;
        proof {
            assert(n0.compacted_to(c));
            crate::node_compact::lemma_compact_idempotent(n0.all());
        }
        self.insert_entry(entry)
    }

    /// Whatever way an entry was added: it is live, unless it is a tombstone,
    /// and what was live before is live still, but for its slot.
    pub proof fn lemma_grown(self, new: BtreeNode, e: EntryView, keep_aux: bool)
        requires
            self.wf(),
            self.grown(new, e, keep_aux),
        ensures
            forall|x: EntryView| #[trigger]
                new.live().contains(x) <==> (x == e.padded() && not_deleted(e.padded())) || (
                self.live().contains(x) && !x.key().same_slot(e.padded().key())),
            new.node_size == self.node_size,
            new.level == self.level,
    {
        let all = self.all();
        if self.has_room(e.u64s() * 8) {
            lemma_live_after_write(all, e.padded());
        } else {
            lemma_live_after_write(live(all), e.padded());
            crate::node_compact::lemma_compact_idempotent(all);
            let c = choose|c: BtreeNode| #[trigger]
                self.compacted_to(c) && BtreeNode::takes(c, e.u64s() * 8, keep_aux) && c.added(
                    new,
                    e,
                );
            assert(new.all() == live(all).push(e.padded()));
        }
    }
}

} // verus!
