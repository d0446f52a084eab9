//! The engine: one tree for each kind of metadata, the overlay of keys that
//! wait for the journal, and the map from inodes to subvolumes.

use crate::btree::Btree;
use crate::ids::BtreeId;
use crate::key::{
    BchVal, Bpos, BtreeEntry, BtreeKey, BtreePtrV2, EntryView, KeyType, KeyValue,
};
use crate::key_cache::{dirty_slots, CachedEntry};
use crate::le::copy_bytes;
use crate::node::BtreeNode;
use crate::overlay::{JournalKey, JournalKeys};
use std::collections::HashMap;
use vstd::prelude::*;

verus! {

/// One operation of a batch.
pub enum BatchEntry {
    Insert { pos: Bpos, data: Vec<u8> },
    Delete { pos: Bpos },
}

/// All trees.
pub struct BtreeEngine {
    /// The trees, each at its place.
    pub trees: Vec<Btree>,
    pub journal_overlay: Option<JournalKeys>,
    /// The next subvolume to be created.
    pub subvol_id_counter: u32,
    /// The subvolumes of each inode.
    pub subvol_ino_map: HashMap<u64, Vec<u32>>,
}

/// Whether a tree can be written to.
pub open spec fn tree_ok(t: Btree) -> bool {
    t.wf() && t.root.ptr.block_addr < u64::MAX
}

impl Btree {
    /// Whether writing the cached key `c` back turned this tree into `new`: it
    /// is clean once the tree took it.
    pub open spec fn key_flushed(self, new: Btree, c: CachedEntry, seq: u64) -> bool {
        ||| self.entry_taken(new, c.entry@, seq, false) && new.key_cache == self.key_cache
        ||| exists|mid: Btree| #[trigger]
            self.entry_taken(mid, c.entry@, seq, true) && mid.key_cache == self.key_cache && new
                == (Btree { key_cache: new.key_cache, ..mid }) && self.key_cache.cleaned(
                new.key_cache,
                c.pos,
            )
    }

    /// Whether writing these cached keys back in order turned this tree into `new`.
    pub open spec fn keys_flushed(self, new: Btree, cs: Seq<CachedEntry>, seq: u64) -> bool
        decreases cs.len(),
    {
        if cs.len() == 0 {
            new == self
        } else {
            exists|mid: Btree|
                self.keys_flushed(mid, cs.drop_last(), seq) && #[trigger] mid.key_flushed(
                    new,
                    cs.last(),
                    seq,
                )
        }
    }

    /// Writes the dirty keys of the key cache back to the tree; returns how
    /// many there were.
    pub fn flush_key_cache(&mut self, journal_seq: u64) -> (r: usize)
        requires
            tree_ok(*old(self)),
        ensures
            tree_ok(*final(self)),
            final(self).root.depth == old(self).root.depth,
            r == dirty_slots(old(self).key_cache.slots@).len(),
            old(self).keys_flushed(
                *final(self),
                dirty_slots(old(self).key_cache.slots@),
                journal_seq,
            ),
    {
        let ghost t0 = *self;
        let ghost cs = dirty_slots(self.key_cache.slots@);
        let dirty: Vec<(Bpos, BtreeEntry)> = self.key_cache.collect_dirty();
        proof {
            lemma_dirty_fits(self.key_cache.slots@);
        }
        let mut i: usize = 0;
        assert(cs.take(0) =~= Seq::<CachedEntry>::empty());
        while i < dirty.len()
            invariant
                i <= dirty@.len() == cs.len(),
                tree_ok(*self),
                self.root.depth == t0.root.depth,
                forall|j: int|
                    0 <= j < cs.len() ==> (#[trigger] dirty@[j]).0 == cs[j].pos && dirty@[j].1@
                        == cs[j].entry@ && cs[j].entry@.fits(),
                t0.keys_flushed(*self, cs.take(i as int), journal_seq),
            decreases dirty@.len() - i,
        {
            let ghost before = *self;
            let entry = dirty[i].1.duplicate();
            proof {
                assert(dirty@[i as int].1@.fits());
                assert(cs.take(i + 1).drop_last() =~= cs.take(i as int));
                assert(cs.take(i + 1).last() == cs[i as int]);
            }
            if self.insert_entry_skip_cache(entry, journal_seq) {
                let ghost mid = *self;
                self.key_cache.mark_clean(&dirty[i].0);
                assert(before.entry_taken(mid, cs[i as int].entry@, journal_seq, true));
            }
            assert(before.key_flushed(*self, cs[i as int], journal_seq));
            assert(t0.keys_flushed(before, cs.take(i + 1).drop_last(), journal_seq));
            assert(t0.keys_flushed(*self, cs.take(i + 1), journal_seq));
            i = i + 1;
        }
        assert(cs.take(cs.len() as int) =~= cs);
        dirty.len()
    }
}

/// Dirty keys fit into nodes where the slots say so.
proof fn lemma_dirty_fits(slots: Seq<CachedEntry>)
    requires
        crate::key_cache::all_dirty_fit(slots),
    ensures
        forall|i: int|
            0 <= i < dirty_slots(slots).len() ==> (#[trigger] dirty_slots(slots)[i]).entry@.fits(),
    decreases slots.len(),
{
    if slots.len() > 0 {
        let f = slots.drop_last();
        assert forall|i: int| 0 <= i < f.len() && (#[trigger] f[i]).dirty implies f[i].entry@.fits() by {
            assert(f[i] == slots[i]);
        }
        lemma_dirty_fits(f);
        assert(slots.last() == slots[slots.len() - 1]);
    }
}

impl Default for BtreeEngine {
    fn default() -> (r: BtreeEngine)
        ensures
            r.wf(),
            r.journal_overlay is None,
            r.subvol_id_counter == 1,
            r.subvol_ino_map@ == Map::<u64, Vec<u32>>::empty(),
            forall|ty: BtreeId| is_new_tree(#[trigger] r.tree(ty)),
    {
        BtreeEngine::new()
    }
}

impl BtreeEngine {
    /// Whether there is a tree for each place, each can be written to, and the
    /// keys of the overlay fit into nodes.
    pub open spec fn wf(self) -> bool {
        &&& self.trees@.len() == 7
        &&& forall|i: int| 0 <= i < 7 ==> tree_ok(#[trigger] self.trees@[i])
        &&& self.journal_overlay matches Some(o) ==> o.fits()
    }

    /// The tree for `ty`.
    pub open spec fn tree(self, ty: BtreeId) -> Btree {
        self.trees@[ty.spec_index()]
    }

    /// Whether `new` is this engine but for the tree for `ty`.
    pub open spec fn same_but_tree(self, new: BtreeEngine, ty: BtreeId) -> bool {
        &&& new == (BtreeEngine { trees: new.trees, ..self })
        &&& new.trees@ == self.trees@.update(ty.spec_index(), new.tree(ty))
    }

    /// An engine with empty trees.
    pub fn new() -> (r: BtreeEngine)
        ensures
            r.wf(),
            r.journal_overlay is None,
            r.subvol_id_counter == 1,
            r.subvol_ino_map@ == Map::<u64, Vec<u32>>::empty(),
            forall|ty: BtreeId| is_new_tree(#[trigger] r.tree(ty)),
    {
        let mut trees: Vec<Btree> = Vec::new();
        let mut i: usize = 0;
        while i < 7
            invariant
                i <= 7,
                trees@.len() == i,
                forall|j: int| 0 <= j < i ==> is_new_tree(#[trigger] trees@[j]),
            decreases 7 - i,
        {
            let t = Btree::new();
            trees.push(t);
            i = i + 1;
        }
        let r = BtreeEngine {
            trees,
            journal_overlay: None,
            subvol_id_counter: 1,
            subvol_ino_map: HashMap::new(),
        };
        proof {
            assert forall|ty: BtreeId| is_new_tree(#[trigger] r.tree(ty)) by {
                assert(is_new_tree(trees@[ty.spec_index()]));
            }
        }
        r
    }

    /// The tree for `ty`.
    pub fn get(&self, ty: BtreeId) -> (r: &Btree)
        requires
            self.wf(),
        ensures
            *r == self.tree(ty),
            tree_ok(*r),
    {
        &self.trees[ty.index()]
    }

    /// The tree for `ty`, to be changed.
    pub fn get_mut(&mut self, ty: BtreeId) -> (r: &mut Btree)
        requires
            old(self).wf(),
        ensures
            *r == old(self).tree(ty),
            tree_ok(*r),
            final(self).tree(ty) == *final(r),
            old(self).same_but_tree(*final(self), ty),
            tree_ok(*final(r)) ==> final(self).wf(),
    {
        &mut self.trees[ty.index()]
    }

    /// Notes where the root of a tree lies on disk.
    pub fn set_root_ptr(&mut self, ty: BtreeId, ptr: BtreePtrV2)
        requires
            old(self).wf(),
            ptr.block_addr < u64::MAX,
        ensures
            final(self).wf(),
            old(self).same_but_tree(*final(self), ty),
            final(self).tree(ty) == (Btree {
                root: crate::iter::BtreeRoot { ptr, ..old(self).tree(ty).root },
                ..old(self).tree(ty)
            }),
    {
        self.get_mut(ty).set_root_ptr_internal(ptr);
    }

    /// Calls `f` with every tree, in the order of their places.
    pub fn for_each<F: Fn(BtreeId, &Btree)>(&self, f: F)
        requires
            self.wf(),
            forall|ty: BtreeId| #[trigger] f.requires((ty, &self.tree(ty))),
        ensures
            forall|ty: BtreeId| #[trigger] f.ensures((ty, &self.tree(ty)), ()),
    {
        f(BtreeId::Extents, self.get(BtreeId::Extents));
        f(BtreeId::Subvolumes, self.get(BtreeId::Subvolumes));
        f(BtreeId::Snapshots, self.get(BtreeId::Snapshots));
        f(BtreeId::SnapshotTrees, self.get(BtreeId::SnapshotTrees));
        f(BtreeId::Alloc, self.get(BtreeId::Alloc));
        f(BtreeId::Freespace, self.get(BtreeId::Freespace));
        f(BtreeId::BucketGens, self.get(BtreeId::BucketGens));
        assert forall|ty: BtreeId| #[trigger] f.ensures((ty, &self.tree(ty)), ()) by {
            match ty {
                BtreeId::Extents => {},
                BtreeId::Subvolumes => {},
                BtreeId::Snapshots => {},
                BtreeId::SnapshotTrees => {},
                BtreeId::Alloc => {},
                BtreeId::Freespace => {},
                BtreeId::BucketGens => {},
            }
        }
    }

    // ── reads ───────────────────────────────────────────────────────────

    /// What the overlay has for a position, unless it is being written to the
    /// trees.
    pub open spec fn overlaid(self, ty: BtreeId, pos: Bpos) -> Option<JournalKey> {
        match self.journal_overlay {
            Some(o) => if o.draining {
                None
            } else {
                o.spec_lookup(ty, pos)
            },
            None => None,
        }
    }

    /// The entry that the overlay has for a position.
    fn overlay_entry(&self, ty: BtreeId, pos: Bpos) -> (r: Option<BtreeEntry>)
        ensures
            match self.overlaid(ty, pos) {
                Some(k) => r matches Some(e) && e.same(k.entry) && e@ == k.entry@,
                None => r is None,
            },
    {
        match &self.journal_overlay {
            Some(o) => if o.draining {
                None
            } else {
                match o.lookup_entry(ty, pos) {
                    Some(k) => Some(k.entry.duplicate()),
                    None => None,
                }
            },
            None => None,
        }
    }

    /// Looks a key up: in the overlay, else in its tree.
    pub fn get_entry(&mut self, ty: BtreeId, key: &BtreeKey) -> (r: Option<(BtreeKey, BchVal)>)
        requires
            old(self).wf(),
        ensures
            final(self).wf(),
            old(self).same_but_tree(*final(self), ty),
            match old(self).overlaid(ty, Bpos::spec_from_key(*key)) {
                Some(k) => r == Some((k.entry@.key(), k.entry@.bch_val())) && *final(self) == *old(
                    self,
                ),
                None => old(self).tree(ty).got(final(self).tree(ty), *key, r),
            },
    {
        if let Some(e) = self.overlay_entry(ty, Bpos::from_key(key)) {
            assert(self.trees@ =~= self.trees@.update(ty.spec_index(), self.tree(ty)));
            return Some(e.to_legacy());
        }
        self.get_mut(ty).get(key)
    }

    /// Looks a key up: in the overlay, else among the live entries of the leaf
    /// for it.
    pub fn search(&self, ty: BtreeId, key: &BtreeKey) -> (r: Option<(BtreeKey, BchVal)>)
        requires
            self.wf(),
        ensures
            r == (match self.overlaid(ty, Bpos::spec_from_key(*key)) {
                Some(k) => Some((k.entry@.key(), k.entry@.bch_val())),
                None => self.tree(ty).leaf_search(*key),
            }),
    {
        if let Some(e) = self.overlay_entry(ty, Bpos::from_key(key)) {
            return Some(e.to_legacy());
        }
        self.get(ty).search(key)
    }

    /// Looks a position up: in the overlay, else in its tree.
    pub fn get_entry_raw(&mut self, ty: BtreeId, pos: Bpos) -> (r: Option<BtreeEntry>)
        requires
            old(self).wf(),
        ensures
            final(self).wf(),
            old(self).same_but_tree(*final(self), ty),
            match old(self).overlaid(ty, pos) {
                Some(k) => r matches Some(e) && e.same(k.entry) && e@ == k.entry@ && *final(self)
                    == *old(self),
                None => old(self).tree(ty).entry_got(final(self).tree(ty), pos, r),
            },
    {
        if let Some(e) = self.overlay_entry(ty, pos) {
            assert(self.trees@ =~= self.trees@.update(ty.spec_index(), self.tree(ty)));
            return Some(e);
        }
        self.get_mut(ty).get_entry(pos)
    }

    // ── writes ──────────────────────────────────────────────────────────

    /// Adds a key to a tree.
    pub fn insert_entry(&mut self, ty: BtreeId, key: BtreeKey, value: BchVal, journal_seq: u64) -> (r:
        bool)
        requires
            old(self).wf(),
            old(self).tree(ty).can_grow(),
        ensures
            final(self).wf(),
            old(self).same_but_tree(*final(self), ty),
            old(self).tree(ty).was_inserted(final(self).tree(ty), key, value, journal_seq, r),
            old(self).tree(ty).took_one(final(self).tree(ty)),
    {
        self.get_mut(ty).insert(key, value, journal_seq)
    }

    /// Adds a key to a tree and leaves the key cache as it is.
    pub fn insert_entry_skip_cache(
        &mut self,
        ty: BtreeId,
        key: BtreeKey,
        value: BchVal,
        journal_seq: u64,
    ) -> (r: bool)
        requires
            old(self).wf(),
        ensures
            final(self).wf(),
            old(self).same_but_tree(*final(self), ty),
            final(self).tree(ty).key_cache == old(self).tree(ty).key_cache,
            old(self).tree(ty).entry_taken(
                final(self).tree(ty),
                normal_extent(key, value),
                journal_seq,
                r,
            ),
    {
        let entry = BtreeEntry::new(Bpos::from_key(&key), KeyType::Normal, KeyValue::Extent(value));
        proof {
            lemma_normal_extent(key, value, entry);
        }
        self.get_mut(ty).insert_entry_skip_cache(entry, journal_seq)
    }

    /// Adds a key to a tree, and to its key cache as dirty.
    pub fn insert_entry_cached(
        &mut self,
        ty: BtreeId,
        key: BtreeKey,
        value: BchVal,
        journal_seq: u64,
    ) -> (r: bool)
        requires
            old(self).wf(),
        ensures
            final(self).wf(),
            old(self).same_but_tree(*final(self), ty),
            ({
                let t = old(self).tree(ty);
                let n = final(self).tree(ty);
                let pos = Bpos::spec_from_key(key);
                let e = BtreeEntry {
                    pos,
                    key_type: KeyType::Normal,
                    value: KeyValue::Extent(value),
                };
                &&& t.entry_taken(
                    Btree { key_cache: t.key_cache, ..n },
                    normal_extent(key, value),
                    journal_seq,
                    r,
                )
                &&& !r ==> n.key_cache == t.key_cache
                &&& r ==> t.key_cache.written(n.key_cache, pos, e, journal_seq)
            }),
    {
        let pos = Bpos::from_key(&key);
        let entry = BtreeEntry::new(pos, KeyType::Normal, KeyValue::Extent(value));
        let copy = BtreeEntry::new(pos, KeyType::Normal, KeyValue::Extent(value));
        proof {
            lemma_normal_extent(key, value, entry);
        }
        let tree: &mut Btree = self.get_mut(ty);
        let ghost t = *tree;
        let r = tree.insert_entry_skip_cache(entry, journal_seq);
        let ghost m = *tree;
        if r {
            tree.key_cache.bch2_btree_insert_key_cached(pos, copy, journal_seq);
        }
        assert(m == (Btree { key_cache: t.key_cache, ..*tree }));
        r
    }

    /// Whether adding the entry `e` at `pos` to a tree turned this engine into
    /// `new`, with the result `r`: the key cache drops the position of an entry
    /// that was added.
    pub open spec fn raw_inserted(
        self,
        new: BtreeEngine,
        ty: BtreeId,
        e: EntryView,
        seq: u64,
        r: bool,
    ) -> bool {
        &&& self.same_but_tree(new, ty)
        &&& self.tree(ty).entry_taken_dropping(new.tree(ty), e, seq, r)
    }

    /// Adds an entry to a tree.
    pub fn insert_entry_raw(&mut self, ty: BtreeId, entry: BtreeEntry, journal_seq: u64) -> (r: bool)
        requires
            old(self).wf(),
            entry@.fits(),
        ensures
            final(self).wf(),
            old(self).raw_inserted(*final(self), ty, entry@, journal_seq, r),
    {
        self.get_mut(ty).insert_entry(entry, journal_seq)
    }

    /// Deletes a key of a tree.
    pub fn delete_entry(&mut self, ty: BtreeId, key: &BtreeKey, journal_seq: u64) -> (r: bool)
        requires
            old(self).wf(),
        ensures
            final(self).wf(),
            old(self).same_but_tree(*final(self), ty),
            old(self).tree(ty).was_deleted(final(self).tree(ty), *key, journal_seq, r),
    {
        self.get_mut(ty).delete(key, journal_seq)
    }

    // ── flushing ────────────────────────────────────────────────────────

    /// Whether writing the dirty keys of every key cache back to its tree
    /// turned this engine into `new`.
    pub open spec fn caches_flushed(self, new: BtreeEngine, seq: u64) -> bool {
        &&& new == (BtreeEngine { trees: new.trees, ..self })
        &&& new.trees@.len() == self.trees@.len()
        &&& forall|i: int|
            0 <= i < self.trees@.len() ==> (#[trigger] self.trees@[i]).keys_flushed(
                new.trees@[i],
                dirty_slots(self.trees@[i].key_cache.slots@),
                seq,
            )
    }

    /// The number of dirty keys in the first `n` trees.
    pub open spec fn count_dirty(self, n: int) -> int
        decreases n,
    {
        if n <= 0 {
            0
        } else {
            self.count_dirty(n - 1) + dirty_slots(self.trees@[n - 1].key_cache.slots@).len()
        }
    }

    /// Writes the dirty keys of every key cache back to its tree; returns how
    /// many there were.
    pub fn flush_cache_dirty_keys(&mut self, journal_seq: u64) -> (r: usize)
        requires
            old(self).wf(),
        ensures
            final(self).wf(),
            old(self).caches_flushed(*final(self), journal_seq),
            r == (if old(self).count_dirty(7) <= usize::MAX {
                old(self).count_dirty(7)
            } else {
                usize::MAX as int
            }),
    {
        let ghost e0 = *self;
        let mut total: usize = 0;
        let mut i: usize = 0;
        while i < 7
            invariant
                i <= 7,
                self.wf(),
                e0.wf(),
                *self == (BtreeEngine { trees: self.trees, ..e0 }),
                forall|j: int| i <= j < 7 ==> #[trigger] self.trees@[j] == e0.trees@[j],
                forall|j: int|
                    0 <= j < i ==> (#[trigger] e0.trees@[j]).keys_flushed(
                        self.trees@[j],
                        dirty_slots(e0.trees@[j].key_cache.slots@),
                        journal_seq,
                    ),
                total == (if e0.count_dirty(i as int) <= usize::MAX {
                    e0.count_dirty(i as int)
                } else {
                    usize::MAX as int
                }),
            decreases 7 - i,
        {
            let ghost before = *self;
            let t: &mut Btree = &mut self.trees[i];
            let n: usize = t.flush_key_cache(journal_seq);
            total = total.saturating_add(n);
            proof {
                assert forall|j: int| 0 <= j < 7 implies tree_ok(#[trigger] self.trees@[j]) by {
                    if j != i {
                        assert(self.trees@[j] == before.trees@[j]);
                    }
                }
                assert forall|j: int| 0 <= j < i + 1 implies (
                #[trigger] e0.trees@[j]).keys_flushed(
                    self.trees@[j],
                    dirty_slots(e0.trees@[j].key_cache.slots@),
                    journal_seq,
                ) by {
                    if j != i {
                        assert(self.trees@[j] == before.trees@[j]);
                    }
                }
            }
            i = i + 1;
        }
        total
    }

    /// Whether a guarded insert turned this engine into `new`, with the result
    /// `r`: the dirty keys are written back first; then the entry goes to the
    /// overlay while it collects keys, else to its tree.
    pub open spec fn guarded(
        self,
        new: BtreeEngine,
        ty: BtreeId,
        entry: BtreeEntry,
        seq: u64,
        r: bool,
    ) -> bool {
        exists|mid: BtreeEngine| #[trigger]
            self.caches_flushed(mid, seq) && (if self.collects() {
                &&& r
                &&& new == (BtreeEngine { journal_overlay: new.journal_overlay, ..mid })
                &&& new.journal_overlay matches Some(o) && o.keys@
                    == self.journal_overlay->0.keys@.push(
                    JournalKey { seq, btree_id: ty, entry },
                ) && o.active && !o.draining
            } else {
                mid.raw_inserted(new, ty, entry@, seq, r)
            })
    }

    /// Whether the overlay collects new keys.
    pub open spec fn collects(self) -> bool {
        self.journal_overlay matches Some(o) && o.active && !o.draining
    }

    /// Adds an entry from outside: to the overlay while it collects keys, else
    /// to its tree.
    pub fn insert_guarded(&mut self, ty: BtreeId, entry: BtreeEntry, journal_seq: u64) -> (r: bool)
        requires
            old(self).wf(),
            entry@.fits(),
        ensures
            final(self).wf(),
            old(self).guarded(*final(self), ty, entry, journal_seq, r),
            old(self).collects() ==> r && final(self).overlaid(ty, entry.pos) == Some(
                JournalKey { seq: journal_seq, btree_id: ty, entry },
            ),
    {
        let ghost e0 = *self;
        let _n: usize = self.flush_cache_dirty_keys(journal_seq);
        let ghost mid = *self;
        assert(e0.caches_flushed(mid, journal_seq));
        if let Some(overlay) = &mut self.journal_overlay {
            if overlay.active && !overlay.draining {
                overlay.push(journal_seq, ty, entry);
                return true;
            }
        }
        assert(*self == mid);
        self.insert_entry_raw(ty, entry, journal_seq)
    }

    /// Lets an empty overlay collect new keys.
    pub fn enable_overlay(&mut self)
        requires
            old(self).wf(),
        ensures
            final(self).wf(),
            *final(self) == (BtreeEngine {
                journal_overlay: final(self).journal_overlay,
                ..*old(self)
            }),
            final(self).journal_overlay matches Some(o) && o.keys@.len() == 0,
            final(self).collects(),
    {
        let mut overlay = JournalKeys::new();
        overlay.active = true;
        self.journal_overlay = Some(overlay);
    }

    /// Whether adding these keys to their trees in order turned this engine
    /// into `new`.
    pub open spec fn drained(self, new: BtreeEngine, keys: Seq<JournalKey>) -> bool
        decreases keys.len(),
    {
        if keys.len() == 0 {
            new == self
        } else {
            let k = keys.last();
            exists|mid: BtreeEngine, r: bool|
                self.drained(mid, keys.drop_last()) && #[trigger] mid.raw_inserted(
                    new,
                    k.btree_id,
                    k.entry@,
                    k.seq,
                    r,
                )
        }
    }

    /// Writes the keys of the overlay to their trees in the order in which they
    /// came, and drops the overlay.
    pub fn drain_overlay(&mut self)
        requires
            old(self).wf(),
        ensures
            final(self).wf(),
            final(self).journal_overlay is None,
            match old(self).journal_overlay {
                Some(o) => (BtreeEngine { journal_overlay: None, ..*old(self) }).drained(
                    *final(self),
                    o.keys@,
                ),
                None => *final(self) == *old(self),
            },
    {
        let taken = self.journal_overlay.take();
        if let Some(mut overlay) = taken {
            overlay.drain_all(self);
        }
    }

    /// Those of the first `n` outputs that hold nodes, with their trees.
    pub open spec fn nonempty(outs: Seq<Seq<(u64, BtreeNode)>>, n: int) -> Seq<
        (BtreeId, Seq<(u64, BtreeNode)>),
    >
        decreases n,
    {
        if n <= 0 {
            Seq::empty()
        } else if outs[n - 1].len() > 0 {
            BtreeEngine::nonempty(outs, n - 1).push((BtreeId::spec_from(n - 1)->0, outs[n - 1]))
        } else {
            BtreeEngine::nonempty(outs, n - 1)
        }
    }

    /// Whether taking copies of the changed nodes of the first `n` trees gave
    /// `outs` and turned this engine into `new`.
    pub open spec fn trees_flushed(
        self,
        new: BtreeEngine,
        outs: Seq<Seq<(u64, BtreeNode)>>,
        n: int,
    ) -> bool {
        &&& new == (BtreeEngine { trees: new.trees, ..self })
        &&& new.trees@.len() == self.trees@.len()
        &&& outs.len() == n
        &&& forall|i: int|
            0 <= i < n ==> (#[trigger] self.trees@[i]).dirty_flushed(new.trees@[i], outs[i])
        &&& forall|i: int| n <= i < self.trees@.len() ==> #[trigger] new.trees@[i] == self.trees@[i]
    }

    /// Copies of the changed nodes of all trees that have some, in the order of
    /// the trees' places; none counts as changed any more.
    pub fn flush_dirty_nodes(&mut self) -> (r: Vec<(BtreeId, Vec<(u64, BtreeNode)>)>)
        requires
            old(self).wf(),
        ensures
            final(self).wf(),
            exists|outs: Seq<Seq<(u64, BtreeNode)>>| #[trigger]
                old(self).trees_flushed(*final(self), outs, 7) && flushed_view(r@)
                    == BtreeEngine::nonempty(outs, 7),
    {
        let ghost e0 = *self;
        let mut out: Vec<(BtreeId, Vec<(u64, BtreeNode)>)> = Vec::new();
        let ghost mut outs: Seq<Seq<(u64, BtreeNode)>> = Seq::empty();
        let ids: Vec<BtreeId> = BtreeId::all();
        let mut i: usize = 0;
        assert(flushed_view(out@) =~= BtreeEngine::nonempty(outs, 0));
        while i < 7
            invariant
                i <= 7,
                self.wf(),
                e0.wf(),
                ids@.len() == 7,
                forall|j: int| 0 <= j < 7 ==> BtreeId::spec_from(j) == Some(#[trigger] ids@[j]),
                e0.trees_flushed(*self, outs, i as int),
                flushed_view(out@) == BtreeEngine::nonempty(outs, i as int),
            decreases 7 - i,
        {
            let ghost before = *self;
            let ghost outs0 = outs;
            let ghost view0 = flushed_view(out@);
            let t: &mut Btree = &mut self.trees[i];
            let nodes: Vec<(u64, BtreeNode)> = t.flush_dirty();
            proof {
                outs = outs.push(nodes@);
                assert forall|j: int| 0 <= j < 7 implies tree_ok(#[trigger] self.trees@[j]) by {
                    if j != i {
                        assert(self.trees@[j] == before.trees@[j]);
                    }
                }
                assert forall|j: int| 0 <= j < i + 1 implies (
                #[trigger] e0.trees@[j]).dirty_flushed(self.trees@[j], outs[j]) by {
                    if j != i {
                        assert(self.trees@[j] == before.trees@[j]);
                        assert(outs[j] == outs0[j]);
                    }
                }
                lemma_nonempty_prefix(outs0, outs, i as int);
            }
            let ghost gn = nodes@;
            if nodes.len() > 0 {
                let ghost out0 = out@;
                out.push((ids[i], nodes));
                assert(flushed_view(out@) =~= view0.push((ids@[i as int], gn)));
            }
            i = i + 1;
        }
        out
    }

    // ── batches ─────────────────────────────────────────────────────────

    /// Whether one operation of a batch turned this engine into `new`, with the
    /// result `r`.
    pub open spec fn batch_step(
        self,
        new: BtreeEngine,
        ty: BtreeId,
        op: BatchEntry,
        seq: u64,
        r: bool,
    ) -> bool {
        match op {
            BatchEntry::Insert { pos, data } => self.raw_inserted(
                new,
                ty,
                EntryView { pos, key_type: KeyType::Normal, value: data@ },
                seq,
                r,
            ),
            BatchEntry::Delete { pos } => self.same_but_tree(new, ty) && self.tree(ty).was_deleted(
                new.tree(ty),
                BtreeKey::spec_from_bpos(pos, KeyType::Normal),
                seq,
                r,
            ),
        }
    }

    /// Whether these operations, in order and up to the first that failed,
    /// turned this engine into `new`, with the result `r`: whether none failed.
    pub open spec fn batched(
        self,
        new: BtreeEngine,
        ty: BtreeId,
        ops: Seq<(BatchEntry, u64)>,
        r: bool,
    ) -> bool
        decreases ops.len(),
    {
        if ops.len() == 0 {
            r && new == self
        } else {
            ||| !r && self.batched(new, ty, ops.drop_last(), false)
            ||| exists|mid: BtreeEngine|
                self.batched(mid, ty, ops.drop_last(), true) && #[trigger] mid.batch_step(
                    new,
                    ty,
                    ops.last().0,
                    ops.last().1,
                    r,
                )
        }
    }

    /// Writes the dirty keys of the key caches back, then does the operations
    /// of a batch on one tree, in order; stops at the first one that fails.
    pub fn batch_write(&mut self, ty: BtreeId, entries: &[(BatchEntry, u64)]) -> (r: bool)
        requires
            old(self).wf(),
            forall|i: int| 0 <= i < entries@.len() ==> op_fits((#[trigger] entries@[i]).0),
        ensures
            final(self).wf(),
            exists|mid: BtreeEngine| #[trigger]
                old(self).caches_flushed(mid, 0) && mid.batched(*final(self), ty, entries@, r),
    {
        let ghost e0 = *self;
        let _n: usize = self.flush_cache_dirty_keys(0);
        assert(e0.caches_flushed(*self, 0));
        self.batch_ops(ty, entries)
    }

    /// Does one operation of a batch.
    fn batch_one(&mut self, ty: BtreeId, op: &BatchEntry, seq: u64) -> (r: bool)
        requires
            old(self).wf(),
            op_fits(*op),
        ensures
            final(self).wf(),
            old(self).batch_step(*final(self), ty, *op, seq, r),
    {
        match op {
            BatchEntry::Insert { pos, data } => {
                let e = BtreeEntry::raw(*pos, KeyType::Normal, copy_bytes(data.as_slice()));
                self.insert_entry_raw(ty, e, seq)
            },
            BatchEntry::Delete { pos } => {
                let key = BtreeKey::from_bpos(*pos, KeyType::Normal);
                self.delete_entry(ty, &key, seq)
            },
        }
    }

    /// Does the operations of a batch, in order, up to the first that fails.
    fn batch_ops(&mut self, ty: BtreeId, entries: &[(BatchEntry, u64)]) -> (r: bool)
        requires
            old(self).wf(),
            forall|i: int| 0 <= i < entries@.len() ==> op_fits((#[trigger] entries@[i]).0),
        ensures
            final(self).wf(),
            old(self).batched(*final(self), ty, entries@, r),
    {
        let ghost mid = *self;
        let ghost ops = entries@;
        let mut i: usize = 0;
        assert(ops.take(0) =~= Seq::<(BatchEntry, u64)>::empty());
        while i < entries.len()
            invariant
                ops == entries@,
                i <= ops.len(),
                self.wf(),
                mid == *old(self),
                mid.batched(*self, ty, ops.take(i as int), true),
                forall|j: int| 0 <= j < ops.len() ==> op_fits((#[trigger] ops[j]).0),
            decreases ops.len() - i,
        {
            let ghost before = *self;
            assert(op_fits(ops[i as int].0));
            let seq: u64 = entries[i].1;
            let ok: bool = self.batch_one(ty, &entries[i].0, seq);
            proof {
                assert(ops.take(i + 1).drop_last() =~= ops.take(i as int));
                assert(ops.take(i + 1).last() == ops[i as int]);
                assert(before.batch_step(*self, ty, ops[i as int].0, seq, ok));
                assert(mid.batched(*self, ty, ops.take(i + 1), ok));
            }
            i = i + 1;
            if !ok {
                proof {
                    lemma_batch_stopped(mid, *self, ty, ops, i as int);
                }
                return false;
            }
        }
        assert(ops.take(ops.len() as int) =~= ops);
        true
    }

    // ── subvolumes of inodes ────────────────────────────────────────────

    /// The subvolumes of an inode, in the order in which they were noted.
    pub open spec fn subvols(self, inode: u64) -> Seq<u32> {
        if self.subvol_ino_map@.contains_key(inode) {
            self.subvol_ino_map@[inode]@
        } else {
            Seq::<u32>::empty()
        }
    }

    /// Whether `new` is this engine but for the subvolumes of `inode`.
    pub open spec fn same_but_inode(self, new: BtreeEngine, inode: u64) -> bool {
        &&& new == (BtreeEngine { subvol_ino_map: new.subvol_ino_map, ..self })
        &&& new.subvol_ino_map@.remove(inode) == self.subvol_ino_map@.remove(inode)
    }

    /// Whether noting a subvolume of `inode` turned this engine into `new`.
    pub open spec fn registered(self, new: BtreeEngine, inode: u64, subvol_id: u32) -> bool {
        &&& self.same_but_inode(new, inode)
        &&& new.subvols(inode) == self.subvols(inode).push(subvol_id)
    }

    /// Whether forgetting a subvolume of `inode` turned this engine into `new`.
    pub open spec fn forgotten(self, new: BtreeEngine, inode: u64, subvol_id: u32) -> bool {
        &&& self.same_but_inode(new, inode)
        &&& new.subvols(inode) == without(self.subvols(inode), subvol_id)
    }

    /// Notes that `subvol_id` is a subvolume of `inode`.
    pub fn register_ino_map(&mut self, inode: u64, subvol_id: u32)
        ensures
            old(self).wf() ==> final(self).wf(),
            old(self).same_but_inode(*final(self), inode),
            final(self).subvol_ino_map@.contains_key(inode),
            final(self).subvols(inode) == old(self).subvols(inode).push(subvol_id),
            old(self).registered(*final(self), inode, subvol_id),
    {
        let ghost m0 = self.subvol_ino_map@;
        let mut ids: Vec<u32> = match self.subvol_ino_map.remove(&inode) {
            Some(v) => v,
            None => Vec::new(),
        };
        ids.push(subvol_id);
        let ghost gids = ids;
        self.subvol_ino_map.insert(inode, ids);
        proof {
            assert(self.subvol_ino_map@.remove(inode) =~= m0.remove(inode));
            assert(self.subvol_ino_map@[inode] == gids);
        }
    }

    /// Forgets that `subvol_id` is a subvolume of `inode`, and an inode that
    /// has none left.
    pub fn cleanup_ino_map(&mut self, inode: u64, subvol_id: u32)
        ensures
            old(self).wf() ==> final(self).wf(),
            old(self).same_but_inode(*final(self), inode),
            final(self).subvols(inode) == old(self).subvols(inode).filter(
                |id: u32| id != subvol_id,
            ),
            final(self).subvol_ino_map@.contains_key(inode) ==> final(self).subvols(inode).len()
                > 0,
            old(self).forgotten(*final(self), inode, subvol_id),
    {
        let ghost m0 = self.subvol_ino_map@;
        let ghost other = |id: u32| id != subvol_id;
        let ids: Vec<u32> = match self.subvol_ino_map.remove(&inode) {
            Some(v) => v,
            None => {
                proof {
                    assert(self.subvol_ino_map@ =~= m0);
                    reveal(Seq::filter);
                    assert(Seq::<u32>::empty().filter(other) =~= Seq::<u32>::empty());
                }
                return ;
            },
        };
        let ghost all = ids@;
        let mut left: Vec<u32> = Vec::new();
        let mut i: usize = 0;
        proof {
            reveal(Seq::filter);
            assert(all.take(0) =~= Seq::<u32>::empty());
            assert(left@ =~= all.take(0).filter(other));
            assert(left@ =~= without(all.take(0), subvol_id));
        }
        while i < ids.len()
            invariant
                i <= ids@.len(),
                all == ids@,
                other == (|id: u32| id != subvol_id),
                left@ == all.take(i as int).filter(other),
                left@ == without(all.take(i as int), subvol_id),
            decreases ids@.len() - i,
        {
            proof {
                reveal(Seq::filter);
                assert(all.take(i + 1).drop_last() =~= all.take(i as int));
                assert(all.take(i + 1).last() == all[i as int]);
            }
            if ids[i] != subvol_id {
                left.push(ids[i]);
            }
            i = i + 1;
        }
        assert(all.take(all.len() as int) =~= all);
        if left.len() > 0 {
            let ghost gleft = left;
            self.subvol_ino_map.insert(inode, left);
            assert(self.subvol_ino_map@[inode] == gleft);
        }
        proof {
            assert(self.subvol_ino_map@.remove(inode) =~= m0.remove(inode));
            if left@.len() == 0 {
                assert(left@ =~= Seq::<u32>::empty());
            }
        }
    }
}

/// The subvolumes of `ids` but `id`, in their order.
pub open spec fn without(ids: Seq<u32>, id: u32) -> Seq<u32>
    decreases ids.len(),
{
    if ids.len() == 0 {
        ids
    } else if ids.last() == id {
        without(ids.drop_last(), id)
    } else {
        without(ids.drop_last(), id).push(ids.last())
    }
}

/// The trees and nodes of an output.
pub open spec fn flushed_view(r: Seq<(BtreeId, Vec<(u64, BtreeNode)>)>) -> Seq<
    (BtreeId, Seq<(u64, BtreeNode)>),
> {
    r.map_values(|p: (BtreeId, Vec<(u64, BtreeNode)>)| (p.0, p.1@))
}

proof fn lemma_nonempty_prefix(
    a: Seq<Seq<(u64, BtreeNode)>>,
    b: Seq<Seq<(u64, BtreeNode)>>,
    n: int,
)
    requires
        0 <= n <= a.len() <= b.len(),
        forall|i: int| 0 <= i < n ==> #[trigger] a[i] == b[i],
    ensures
        BtreeEngine::nonempty(a, n) == BtreeEngine::nonempty(b, n),
    decreases n,
{
    if n > 0 {
        lemma_nonempty_prefix(a, b, n - 1);
        assert(a[n - 1] == b[n - 1]);
    }
}

/// A change to one tree leaves every other tree as it was, and with it what
/// reads of the other trees give.
pub proof fn lemma_trees_independent(old: BtreeEngine, new: BtreeEngine, ty: BtreeId, other: BtreeId)
    requires
        old.trees@.len() == 7,
        old.same_but_tree(new, ty),
        other != ty,
    ensures
        new.tree(other) == old.tree(other),
        forall|k: BtreeKey| new.tree(other).tree_get(k) == #[trigger] old.tree(other).tree_get(k),
        forall|k: BtreeKey| new.tree(other).items(k) == #[trigger] old.tree(other).items(k),
{
    assert(other.spec_index() != ty.spec_index());
}

/// What a guarded insert puts into the overlay is what reads of that position
/// give until the overlay is drained or gets another key there, also where the
/// tree has an entry at that position.
pub proof fn lemma_overlay_read_through(
    e: BtreeEngine,
    keys: Seq<JournalKey>,
    ty: BtreeId,
    entry: BtreeEntry,
    seq: u64,
)
    requires
        e.collects(),
        e.journal_overlay->0.keys@ == keys.push(JournalKey { seq, btree_id: ty, entry }),
    ensures
        e.overlaid(ty, entry.pos) == Some(JournalKey { seq, btree_id: ty, entry }),
        forall|p: Bpos, other: BtreeId|
            !(other == ty && entry.pos.same_slot(p)) ==> JournalKeys::last_key(
                e.journal_overlay->0.keys@,
                other,
                p,
            ) == #[trigger] JournalKeys::last_key(keys, other, p),
{
    let all = e.journal_overlay->0.keys@;
    assert(all.drop_last() =~= keys);
    assert(all.last() == (JournalKey { seq, btree_id: ty, entry }));
}

/// Whether the entry that an operation of a batch adds fits into a node.
pub open spec fn op_fits(op: BatchEntry) -> bool {
    op matches BatchEntry::Insert { pos, data } ==> (EntryView {
        pos,
        key_type: KeyType::Normal,
        value: data@,
    }).fits()
}

/// A batch that failed at one operation did none of those behind it.
proof fn lemma_batch_stopped(
    old: BtreeEngine,
    new: BtreeEngine,
    ty: BtreeId,
    ops: Seq<(BatchEntry, u64)>,
    i: int,
)
    requires
        0 <= i <= ops.len(),
        old.batched(new, ty, ops.take(i), false),
    ensures
        old.batched(new, ty, ops, false),
    decreases ops.len() - i,
{
    if i < ops.len() {
        assert(ops.take(i + 1).drop_last() =~= ops.take(i));
        lemma_batch_stopped(old, new, ty, ops, i + 1);
    } else {
        assert(ops.take(i) =~= ops);
    }
}

/// The entry that holds `value` at the place of `key`.
pub open spec fn normal_extent(key: BtreeKey, value: BchVal) -> EntryView {
    EntryView::extent(BtreeKey { key_type: KeyType::Normal, ..key }, value)
}

proof fn lemma_normal_extent(key: BtreeKey, value: BchVal, entry: BtreeEntry)
    requires
        entry.pos == Bpos::spec_from_key(key),
        entry.key_type == KeyType::Normal,
        entry.value == KeyValue::Extent(value),
    ensures
        entry@ == normal_extent(key, value),
        entry@.fits(),
{
    crate::node_edit::lemma_extent_size(BtreeKey { key_type: KeyType::Normal, ..key }, value);
}

/// Whether a tree is a new one that can be written to.
pub open spec fn is_new_tree(t: Btree) -> bool {
    t.is_new() && tree_ok(t) && t.has_room(255)
}

} // verus!
