//! Keys that were written while the journal was still being replayed.

use crate::engine::BtreeEngine;
use crate::ids::BtreeId;
use crate::key::{Bpos, BtreeEntry};
use vstd::prelude::*;

verus! {

/// A key of the overlay.
pub struct JournalKey {
    pub seq: u64,
    pub btree_id: BtreeId,
    pub entry: BtreeEntry,
}

/// The overlay: keys in the order in which they were written.
pub struct JournalKeys {
    pub keys: Vec<JournalKey>,
    /// Whether new keys go to the overlay.
    pub active: bool,
    /// Whether the overlay is being written to the trees.
    pub draining: bool,
}

impl JournalKeys {
    /// The number of the last key of tree `ty` at the offset and snapshot of `pos`.
    pub open spec fn last_key(keys: Seq<JournalKey>, ty: BtreeId, pos: Bpos) -> Option<int>
        decreases keys.len(),
    {
        if keys.len() == 0 {
            None
        } else if keys.last().btree_id == ty && keys.last().entry.pos.same_slot(pos) {
            Some(keys.len() - 1)
        } else {
            JournalKeys::last_key(keys.drop_last(), ty, pos)
        }
    }

    /// The last key of tree `ty` at the offset and snapshot of `pos`.
    pub open spec fn spec_lookup(self, ty: BtreeId, pos: Bpos) -> Option<JournalKey> {
        match JournalKeys::last_key(self.keys@, ty, pos) {
            Some(i) => Some(self.keys@[i]),
            None => None,
        }
    }

    /// Whether the keys fit into nodes.
    pub open spec fn fits(self) -> bool {
        forall|i: int| 0 <= i < self.keys@.len() ==> (#[trigger] self.keys@[i]).entry@.fits()
    }

    pub fn new() -> (r: JournalKeys)
        ensures
            r.keys@.len() == 0,
            !r.active,
            !r.draining,
    {
        JournalKeys { keys: Vec::new(), active: false, draining: false }
    }

    /// Adds a key.
    pub fn push(&mut self, seq: u64, ty: BtreeId, entry: BtreeEntry)
        ensures
            final(self).keys@ == old(self).keys@.push(JournalKey { seq, btree_id: ty, entry }),
            final(self).active == old(self).active,
            final(self).draining == old(self).draining,
            final(self).spec_lookup(ty, entry.pos) == Some(JournalKey { seq, btree_id: ty, entry }),
    {
        self.keys.push(JournalKey { seq, btree_id: ty, entry });
    }

    /// Writes all keys to the trees of `engine`, in the order in which they
    /// came; none is left.
    pub fn drain_all(&mut self, engine: &mut BtreeEngine)
        requires
            old(engine).wf(),
            old(self).fits(),
        ensures
            final(engine).wf(),
            old(engine).drained(*final(engine), old(self).keys@),
            final(engine).journal_overlay == old(engine).journal_overlay,
            final(self).keys@.len() == 0,
            !final(self).active,
            final(self).draining,
    {
        self.active = false;
        self.draining = true;
        let ghost e0 = *engine;
        let ghost keys = self.keys@;
        let mut i: usize = 0;
        assert(keys.take(0) =~= Seq::<JournalKey>::empty());
        while i < self.keys.len()
            invariant
                keys == self.keys@,
                i <= keys.len(),
                self.fits(),
                !self.active,
                self.draining,
                engine.wf(),
                engine.journal_overlay == e0.journal_overlay,
                e0.drained(*engine, keys.take(i as int)),
            decreases keys.len() - i,
        {
            let ghost before = *engine;
            let k = &self.keys[i];
            let entry = k.entry.duplicate();
            let ty = k.btree_id;
            let seq: u64 = k.seq;
            proof {
                assert(keys[i as int].entry@.fits());
                assert(keys.take(i + 1).drop_last() =~= keys.take(i as int));
                assert(keys.take(i + 1).last() == keys[i as int]);
            }
            let r = engine.insert_entry_raw(ty, entry, seq);
            proof {
                assert(before.raw_inserted(*engine, ty, keys[i as int].entry@, seq, r));
                assert(e0.drained(*engine, keys.take(i + 1)));
            }
            i = i + 1;
        }
        assert(keys.take(keys.len() as int) =~= keys);
        self.keys = Vec::new();
    }

    /// The last key of tree `ty` at the offset and snapshot of `pos`.
    pub fn lookup_entry(&self, ty: BtreeId, pos: Bpos) -> (r: Option<&JournalKey>)
        ensures
            match self.spec_lookup(ty, pos) {
                Some(k) => r == Some(&k),
                None => r is None,
            },
    {
        let mut i: usize = self.keys.len();
        assert(self.keys@.take(self.keys@.len() as int) =~= self.keys@);
        while i > 0
            invariant
                i <= self.keys@.len(),
                JournalKeys::last_key(self.keys@, ty, pos) == JournalKeys::last_key(
                    self.keys@.take(i as int),
                    ty,
                    pos,
                ),
            decreases i,
        {
            proof {
                assert(self.keys@.take(i as int).drop_last() =~= self.keys@.take(i - 1));
                assert(self.keys@.take(i as int).last() == self.keys@[i - 1]);
            }
            i = i - 1;
            let k = &self.keys[i];
            if k.btree_id == ty && k.entry.pos.offset == pos.offset && k.entry.pos.snapshot
                == pos.snapshot {
                return Some(k);
            }
        }
        None
    }
}

} // verus!
