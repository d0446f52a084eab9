//! A cache of single keys in front of a tree.
//!
//! A slot stays in the cache for good; dropping a key only marks its slot as
//! invalid. A dirty slot holds a key that is not in the tree yet.

use crate::key::{Bpos, BtreeEntry};
use vstd::prelude::*;

verus! {

/// A slot of the cache.
pub struct CachedEntry {
    pub pos: Bpos,
    pub entry: BtreeEntry,
    pub valid: bool,
    /// Whether the key is still to be written to the tree.
    pub dirty: bool,
    /// The journal entry that the slot holds back.
    pub pin: Option<u64>,
    /// Whether the journal has asked for the key to be written.
    pub flush_pending: bool,
}

/// The cache.
pub struct KeyCache {
    pub slots: Vec<CachedEntry>,
    /// The number of dirty slots.
    pub nr_dirty: u64,
    /// The number of slots.
    pub nr_keys: u64,
    /// Whether there is a journal to hold entries back in.
    pub journal: bool,
}

/// The number of the slot for `pos`.
pub open spec fn slot_for(slots: Seq<CachedEntry>, pos: Bpos) -> Option<int>
    decreases slots.len(),
{
    if slots.len() == 0 {
        None
    } else if slots.last().pos == pos {
        Some(slots.len() - 1)
    } else {
        slot_for(slots.drop_last(), pos)
    }
}

/// Whether no position has two slots.
pub open spec fn distinct(slots: Seq<CachedEntry>) -> bool {
    forall|i: int, j: int|
        0 <= i < j < slots.len() ==> (#[trigger] slots[i]).pos != (#[trigger] slots[j]).pos
}

/// The number of dirty slots.
pub open spec fn count_dirty(slots: Seq<CachedEntry>) -> nat
    decreases slots.len(),
{
    if slots.len() == 0 {
        0
    } else {
        count_dirty(slots.drop_last()) + if slots.last().dirty {
            1nat
        } else {
            0nat
        }
    }
}

/// The dirty slots, in order.
pub open spec fn dirty_slots(slots: Seq<CachedEntry>) -> Seq<CachedEntry>
    decreases slots.len(),
{
    if slots.len() == 0 {
        Seq::<CachedEntry>::empty()
    } else if slots.last().dirty {
        dirty_slots(slots.drop_last()).push(slots.last())
    } else {
        dirty_slots(slots.drop_last())
    }
}

/// The slots with `c` in the place of the slot for its position, or as a new slot.
pub open spec fn put_slot(slots: Seq<CachedEntry>, c: CachedEntry) -> Seq<CachedEntry> {
    match slot_for(slots, c.pos) {
        Some(i) => slots.update(i, c),
        None => slots.push(c),
    }
}

/// The slots with the one for `pos` clean.
pub open spec fn clean_slot(slots: Seq<CachedEntry>, pos: Bpos) -> Seq<CachedEntry> {
    match slot_for(slots, pos) {
        Some(i) => slots.update(
            i,
            CachedEntry {
                dirty: false,
                flush_pending: false,
                pin: if slots[i].dirty {
                    None
                } else {
                    slots[i].pin
                },
                ..slots[i]
            },
        ),
        None => slots,
    }
}

/// The slots with the key at `pos` dropped.
pub open spec fn dropped(slots: Seq<CachedEntry>, pos: Bpos) -> Seq<CachedEntry> {
    match slot_for(slots, pos) {
        Some(i) => slots.update(
            i,
            CachedEntry {
                valid: false,
                dirty: false,
                flush_pending: false,
                pin: if slots[i].dirty {
                    None
                } else {
                    slots[i].pin
                },
                ..slots[i]
            },
        ),
        None => slots,
    }
}

/// Whether asking for everything up to `seq` turned `old` into `new`: just the slots
/// that hold back such an entry are asked for besides those that were.
pub open spec fn asked(old: Seq<CachedEntry>, new: Seq<CachedEntry>, seq: u64) -> bool {
    &&& new.len() == old.len()
    &&& forall|i: int|
        0 <= i < old.len() ==> (#[trigger] new[i]) == (CachedEntry {
            flush_pending: new[i].flush_pending,
            ..old[i]
        }) && (new[i].flush_pending <==> old[i].flush_pending || (old[i].pin matches Some(p) && p
            <= seq))
}

/// Whether the dirty keys fit into nodes.
pub open spec fn all_dirty_fit(slots: Seq<CachedEntry>) -> bool {
    forall|i: int| 0 <= i < slots.len() && (#[trigger] slots[i]).dirty ==> slots[i].entry@.fits()
}

/// `x` changed by one dirty slot less where `was` holds.
pub open spec fn one_less(x: u64, was: bool) -> u64 {
    if was {
        if x == 0 {
            u64::MAX
        } else {
            (x - 1) as u64
        }
    } else {
        x
    }
}

/// `x` changed by one dirty slot more.
pub open spec fn one_more(x: u64) -> u64 {
    if x == u64::MAX {
        0
    } else {
        (x + 1) as u64
    }
}

pub proof fn lemma_slot_for(slots: Seq<CachedEntry>, pos: Bpos)
    ensures
        match slot_for(slots, pos) {
            Some(i) => 0 <= i < slots.len() && slots[i].pos == pos && forall|j: int|
                i < j < slots.len() ==> (#[trigger] slots[j]).pos != pos,
            None => forall|j: int| 0 <= j < slots.len() ==> (#[trigger] slots[j]).pos != pos,
        },
    decreases slots.len(),
{
    if slots.len() > 0 && slots.last().pos != pos {
        let f = slots.drop_last();
        lemma_slot_for(f, pos);
        match slot_for(slots, pos) {
            Some(i) => {
                assert forall|j: int| i < j < slots.len() implies (#[trigger] slots[j]).pos
                    != pos by {
                    if j < f.len() {
                        assert(f[j] == slots[j]);
                    }
                }
            },
            None => {
                assert forall|j: int| 0 <= j < slots.len() implies (#[trigger] slots[j]).pos
                    != pos by {
                    if j < f.len() {
                        assert(f[j] == slots[j]);
                    }
                }
            },
        }
    }
}

pub proof fn lemma_count_update(slots: Seq<CachedEntry>, i: int, c: CachedEntry)
    requires
        0 <= i < slots.len(),
    ensures
        count_dirty(slots.update(i, c)) + (if slots[i].dirty {
            1nat
        } else {
            0nat
        }) == count_dirty(slots) + (if c.dirty {
            1nat
        } else {
            0nat
        }),
        count_dirty(slots) <= slots.len(),
        slots[i].dirty ==> count_dirty(slots) > 0,
    decreases slots.len(),
{
    lemma_count_bound(slots);
    let f = slots.drop_last();
    if i == slots.len() - 1 {
        assert(slots.update(i, c).drop_last() =~= f);
    } else {
        assert(slots.update(i, c).drop_last() =~= f.update(i, c));
        lemma_count_update(f, i, c);
    }
}

pub proof fn lemma_count_bound(slots: Seq<CachedEntry>)
    ensures
        count_dirty(slots) <= slots.len(),
        dirty_slots(slots).len() == count_dirty(slots),
    decreases slots.len(),
{
    if slots.len() > 0 {
        lemma_count_bound(slots.drop_last());
    }
}

impl KeyCache {
    /// Whether the counters are right and no position has two slots.
    pub open spec fn counted(self) -> bool {
        &&& self.nr_dirty == count_dirty(self.slots@)
        &&& self.nr_keys == self.slots@.len()
        &&& distinct(self.slots@)
    }

    /// The slot for a position.
    pub open spec fn slot(self, pos: Bpos) -> Option<CachedEntry> {
        match slot_for(self.slots@, pos) {
            Some(i) => Some(self.slots@[i]),
            None => None,
        }
    }

    /// The cached key at a position.
    pub open spec fn spec_find(self, pos: Bpos) -> Option<BtreeEntry> {
        match self.slot(pos) {
            Some(c) => if c.valid {
                Some(c.entry)
            } else {
                None
            },
            None => None,
        }
    }

    /// Whether caching a clean key at `pos` turned this cache into `new`.
    pub open spec fn inserted(self, new: KeyCache, pos: Bpos, entry: BtreeEntry) -> bool {
        &&& new.slots@ == put_slot(
            self.slots@,
            CachedEntry {
                pos,
                entry,
                valid: true,
                dirty: false,
                pin: match self.slot(pos) {
                    Some(c) => if c.dirty {
                        None
                    } else {
                        c.pin
                    },
                    None => None,
                },
                flush_pending: false,
            },
        )
        &&& new.spec_find(pos) == Some(entry)
        &&& new.nr_dirty == one_less(self.nr_dirty, self.is_dirty(pos))
        &&& new.nr_keys == (if self.slot(pos) is None {
            one_more(self.nr_keys)
        } else {
            self.nr_keys
        })
        &&& new.journal == self.journal
    }

    /// Whether dropping the key at `pos` turned this cache into `new`.
    pub open spec fn invalidated(self, new: KeyCache, pos: Bpos) -> bool {
        &&& new.slots@ == dropped(self.slots@, pos)
        &&& new.spec_find(pos) is None
        &&& new.nr_dirty == one_less(self.nr_dirty, self.is_dirty(pos))
        &&& new.nr_keys == self.nr_keys
        &&& new.journal == self.journal
    }

    /// Whether writing a key at `pos`, to be written to the tree later, turned
    /// this cache into `new`.
    pub open spec fn written(
        self,
        new: KeyCache,
        pos: Bpos,
        entry: BtreeEntry,
        journal_seq: u64,
    ) -> bool {
        &&& new.slots@ == put_slot(
            self.slots@,
            CachedEntry {
                pos,
                entry,
                valid: true,
                dirty: true,
                pin: self.pin_after(
                    match self.slot(pos) {
                        Some(c) => c.pin,
                        None => None,
                    },
                    journal_seq,
                ),
                flush_pending: false,
            },
        )
        &&& new.spec_find(pos) == Some(entry)
        &&& new.is_dirty(pos)
        &&& new.nr_dirty == (if self.is_dirty(pos) {
            self.nr_dirty
        } else {
            one_more(self.nr_dirty)
        })
        &&& new.nr_keys == (if self.slot(pos) is None {
            one_more(self.nr_keys)
        } else {
            self.nr_keys
        })
        &&& new.journal == self.journal
    }

    /// Whether noting that the key at `pos` was written to the tree turned this
    /// cache into `new`.
    pub open spec fn cleaned(self, new: KeyCache, pos: Bpos) -> bool {
        &&& new.slots@ == clean_slot(self.slots@, pos)
        &&& new.spec_find(pos) == self.spec_find(pos)
        &&& !new.is_dirty(pos)
        &&& new.nr_dirty == one_less(self.nr_dirty, self.is_dirty(pos))
        &&& new.nr_keys == self.nr_keys
        &&& new.journal == self.journal
    }

    /// Whether the slot for a position is dirty.
    pub open spec fn is_dirty(self, pos: Bpos) -> bool {
        self.slot(pos) matches Some(c) && c.dirty
    }

    pub fn new() -> (r: KeyCache)
        ensures
            r.slots@.len() == 0,
            r.nr_dirty == 0,
            r.nr_keys == 0,
            !r.journal,
            r.counted(),
    {
        KeyCache { slots: Vec::new(), nr_dirty: 0, nr_keys: 0, journal: false }
    }

    /// Attaches the journal.
    pub fn set_journal(&mut self)
        ensures
            *final(self) == (KeyCache { journal: true, ..*old(self) }),
    {
        self.journal = true;
    }

    /// The number of the slot for a position.
    fn find_slot(&self, pos: &Bpos) -> (r: Option<usize>)
        ensures
            match slot_for(self.slots@, *pos) {
                Some(i) => r matches Some(j) && j == i && 0 <= i < self.slots@.len(),
                None => r is None,
            },
    {
        let mut i: usize = self.slots.len();
        assert(self.slots@.take(i as int) =~= self.slots@);
        while i > 0
            invariant
                i <= self.slots@.len(),
                slot_for(self.slots@, *pos) == slot_for(self.slots@.take(i as int), *pos),
            decreases i,
        {
            proof {
                assert(self.slots@.take(i as int).drop_last() =~= self.slots@.take(i - 1));
                assert(self.slots@.take(i as int).last() == self.slots@[i - 1]);
            }
            i = i - 1;
            if self.slots[i].pos == *pos {
                return Some(i);
            }
        }
        None
    }

    /// The cached key at a position.
    pub fn find(&self, pos: &Bpos) -> (r: Option<BtreeEntry>)
        ensures
            match self.spec_find(*pos) {
                Some(e) => r matches Some(f) && f.same(e) && f@ == e@,
                None => r is None,
            },
    {
        match self.find_slot(pos) {
            Some(i) => {
                let c = &self.slots[i];
                if c.valid {
                    Some(c.entry.duplicate())
                } else {
                    None
                }
            },
            None => None,
        }
    }

    /// Caches a key that was read from the tree.
    pub fn insert(&mut self, pos: Bpos, entry: BtreeEntry)
        ensures
            old(self).inserted(*final(self), pos, entry),
            all_dirty_fit(old(self).slots@) ==> all_dirty_fit(final(self).slots@),
            old(self).counted() ==> final(self).counted(),
    {
        let ghost s0 = self.slots@;
        proof {
            lemma_slot_for(s0, pos);
        }
        match self.find_slot(&pos) {
            Some(i) => {
                let was: bool = self.slots[i].dirty;
                let pin: Option<u64> = if was {
                    None
                } else {
                    self.slots[i].pin
                };
                if was {
                    self.nr_dirty = self.nr_dirty.wrapping_sub(1);
                }
                let c = CachedEntry {
                    pos,
                    entry,
                    valid: true,
                    dirty: false,
                    pin,
                    flush_pending: false,
                };
                proof {
                    lemma_count_update(s0, i as int, c);
                    lemma_slot_updated(s0, i as int, c);
                }
                self.slots.set(i, c);
            },
            None => {
                let c = CachedEntry {
                    pos,
                    entry,
                    valid: true,
                    dirty: false,
                    pin: None,
                    flush_pending: false,
                };
                self.slots.push(c);
                assert(self.slots@.drop_last() =~= s0);
                let _slots: usize = self.slots.len();
                self.nr_keys = self.nr_keys.wrapping_add(1);
            },
        }
    }

    /// Drops the key at a position; the slot stays.
    pub fn invalidate(&mut self, pos: &Bpos)
        ensures
            old(self).invalidated(*final(self), *pos),
            all_dirty_fit(old(self).slots@) ==> all_dirty_fit(final(self).slots@),
            old(self).counted() ==> final(self).counted(),
    {
        let ghost s0 = self.slots@;
        proof {
            lemma_slot_for(s0, *pos);
        }
        match self.find_slot(pos) {
            Some(i) => {
                let was: bool = self.slots[i].dirty;
                let pin: Option<u64> = if was {
                    None
                } else {
                    self.slots[i].pin
                };
                if was {
                    self.nr_dirty = self.nr_dirty.wrapping_sub(1);
                }
                self.rewrite_slot(i, false, false, pin);
                proof {
                    lemma_count_update(s0, i as int, self.slots@[i as int]);
                    lemma_slot_updated(s0, i as int, self.slots@[i as int]);
                }
            },
            None => {},
        }
    }

    /// Sets the marks of a slot and keeps its key.
    fn rewrite_slot(&mut self, i: usize, valid: bool, dirty: bool, pin: Option<u64>)
        requires
            i < old(self).slots@.len(),
        ensures
            final(self).slots@ == old(self).slots@.update(
                i as int,
                CachedEntry {
                    valid,
                    dirty,
                    pin,
                    flush_pending: false,
                    ..old(self).slots@[i as int]
                },
            ),
            final(self).nr_dirty == old(self).nr_dirty,
            final(self).nr_keys == old(self).nr_keys,
            final(self).journal == old(self).journal,
    {
        let ghost s0 = self.slots@;
        let c: &mut CachedEntry = &mut self.slots[i];
        c.valid = valid;
        c.dirty = dirty;
        c.pin = pin;
        c.flush_pending = false;
        assert(self.slots@ =~= s0.update(i as int, self.slots@[i as int]));
    }

    pub fn bch2_btree_key_cache_find(&self, pos: &Bpos) -> (r: Option<BtreeEntry>)
        ensures
            match self.spec_find(*pos) {
                Some(e) => r matches Some(f) && f.same(e) && f@ == e@,
                None => r is None,
            },
    {
        self.find(pos)
    }

    pub fn bch2_btree_key_cache_drop(&mut self, pos: &Bpos)
        ensures
            old(self).invalidated(*final(self), *pos),
            old(self).counted() ==> final(self).counted(),
    {
        self.invalidate(pos);
    }

    /// The journal entry that a dirty slot holds back after a write under
    /// `journal_seq`: that one, where there is a journal and it is not 0.
    pub open spec fn pin_after(self, before: Option<u64>, journal_seq: u64) -> Option<u64> {
        if journal_seq == 0 || !self.journal {
            before
        } else {
            Some(journal_seq)
        }
    }

    /// Caches a key that is still to be written to the tree.
    pub fn bch2_btree_insert_key_cached(&mut self, pos: Bpos, entry: BtreeEntry, journal_seq: u64)
        ensures
            old(self).written(*final(self), pos, entry, journal_seq),
            all_dirty_fit(old(self).slots@) && entry@.fits() ==> all_dirty_fit(final(self).slots@),
            old(self).counted() ==> final(self).counted(),
    {
        let ghost s0 = self.slots@;
        proof {
            lemma_slot_for(s0, pos);
            lemma_count_bound(s0);
        }
        let before: Option<u64> = match self.find_slot(&pos) {
            Some(i) => self.slots[i].pin,
            None => None,
        };
        let pin: Option<u64> = if journal_seq == 0 || !self.journal {
            before
        } else {
            Some(journal_seq)
        };
        let c = CachedEntry { pos, entry, valid: true, dirty: true, pin, flush_pending: false };
        let _slots: usize = self.slots.len();
        match self.find_slot(&pos) {
            Some(i) => {
                if !self.slots[i].dirty {
                    self.nr_dirty = self.nr_dirty.wrapping_add(1);
                }
                proof {
                    lemma_count_update(s0, i as int, c);
                    lemma_slot_updated(s0, i as int, c);
                    lemma_count_bound(s0.update(i as int, c));
                }
                self.slots.set(i, c);
            },
            None => {
                self.nr_dirty = self.nr_dirty.wrapping_add(1);
                self.nr_keys = self.nr_keys.wrapping_add(1);
                self.slots.push(c);
                assert(self.slots@.drop_last() =~= s0);
                let _slots: usize = self.slots.len();
                proof {
                    lemma_count_bound(self.slots@);
                }
            },
        }
    }

    /// The journal wants everything up to `seq` written: the dirty slots that
    /// hold back such entries are asked for.
    pub fn request_flush(&mut self, seq: u64)
        ensures
            final(self).slots@.len() == old(self).slots@.len(),
            forall|i: int|
                0 <= i < old(self).slots@.len() ==> #[trigger] final(self).slots@[i] == (CachedEntry {
                    flush_pending: old(self).slots@[i].flush_pending || (old(
                        self,
                    ).slots@[i].pin matches Some(p) && p <= seq),
                    ..old(self).slots@[i]
                }),
            asked(old(self).slots@, final(self).slots@, seq),
            final(self).nr_dirty == old(self).nr_dirty,
            final(self).nr_keys == old(self).nr_keys,
            final(self).journal == old(self).journal,
            old(self).counted() ==> final(self).counted(),
    {
        let ghost s0 = self.slots@;
        let n: usize = self.slots.len();
        let mut i: usize = 0;
        while i < n
            invariant
                i <= n,
                n == s0.len(),
                s0 == old(self).slots@,
                self.slots@.len() == n,
                forall|j: int| i <= j < n ==> #[trigger] self.slots@[j] == s0[j],
                forall|j: int|
                    0 <= j < i ==> #[trigger] self.slots@[j] == (CachedEntry {
                        flush_pending: s0[j].flush_pending || (s0[j].pin matches Some(p) && p
                            <= seq),
                        ..s0[j]
                    }),
                self.nr_dirty == old(self).nr_dirty,
                self.nr_keys == old(self).nr_keys,
                self.journal == old(self).journal,
            decreases n - i,
        {
            let hit: bool = match self.slots[i].pin {
                Some(p) => p <= seq,
                None => false,
            };
            if hit {
                let c: &mut CachedEntry = &mut self.slots[i];
                c.flush_pending = true;
            }
            i = i + 1;
        }
        proof {
            lemma_same_dirty(s0, self.slots@);
            assert(distinct(s0) ==> distinct(self.slots@)) by {
                assert(forall|j: int| 0 <= j < n ==> (#[trigger] self.slots@[j]).pos == s0[j].pos);
            }
        }
    }

    /// The dirty keys, in the order of their slots.
    pub fn collect_dirty(&self) -> (r: Vec<(Bpos, BtreeEntry)>)
        ensures
            r@.len() == dirty_slots(self.slots@).len(),
            r@.len() == count_dirty(self.slots@),
            forall|i: int|
                0 <= i < r@.len() ==> ({
                    let c = dirty_slots(self.slots@)[i];
                    let p = #[trigger] r@[i];
                    p.0 == c.pos && p.1.same(c.entry) && p.1@ == c.entry@
                }),
    {
        let mut out: Vec<(Bpos, BtreeEntry)> = Vec::new();
        let mut i: usize = 0;
        let ghost s = self.slots@;
        proof {
            lemma_count_bound(s);
        }
        assert(s.take(0) =~= Seq::<CachedEntry>::empty());
        while i < self.slots.len()
            invariant
                s == self.slots@,
                i <= s.len(),
                out@.len() == dirty_slots(s.take(i as int)).len(),
                forall|j: int|
                    0 <= j < out@.len() ==> ({
                        let c = dirty_slots(s.take(i as int))[j];
                        let p = #[trigger] out@[j];
                        p.0 == c.pos && p.1.same(c.entry) && p.1@ == c.entry@
                    }),
            decreases s.len() - i,
        {
            proof {
                assert(s.take(i + 1).drop_last() =~= s.take(i as int));
                assert(s.take(i + 1).last() == s[i as int]);
            }
            if self.slots[i].dirty {
                let e = self.slots[i].entry.duplicate();
                out.push((self.slots[i].pos, e));
            }
            i = i + 1;
        }
        assert(s.take(s.len() as int) =~= s);
        out
    }

    /// Notes that the key at a position was written to the tree.
    pub fn mark_clean(&mut self, pos: &Bpos)
        ensures
            old(self).cleaned(*final(self), *pos),
            all_dirty_fit(old(self).slots@) ==> all_dirty_fit(final(self).slots@),
            old(self).counted() ==> final(self).counted(),
    {
        let ghost s0 = self.slots@;
        proof {
            lemma_slot_for(s0, *pos);
        }
        match self.find_slot(pos) {
            Some(i) => {
                let was: bool = self.slots[i].dirty;
                let valid: bool = self.slots[i].valid;
                let pin: Option<u64> = if was {
                    None
                } else {
                    self.slots[i].pin
                };
                if was {
                    self.nr_dirty = self.nr_dirty.wrapping_sub(1);
                }
                self.rewrite_slot(i, valid, false, pin);
                proof {
                    lemma_count_update(s0, i as int, self.slots@[i as int]);
                    lemma_slot_updated(s0, i as int, self.slots@[i as int]);
                }
            },
            None => {},
        }
    }

    /// The dirty keys over those that may stay dirty: 1024, and half of all keys.
    pub open spec fn over_limit(self) -> int {
        if self.nr_dirty > 1024 + self.nr_keys / 2 {
            self.nr_dirty - (1024 + self.nr_keys / 2)
        } else {
            0
        }
    }

    /// Whether so many keys are dirty that writers have to wait.
    pub open spec fn must_wait(self) -> bool {
        self.nr_dirty > 4096 + self.nr_keys as int * 3 / 4
    }

    /// Whether so few keys are dirty that writers which wait may go on.
    pub open spec fn wait_done(self) -> bool {
        self.nr_dirty <= 2048 + self.nr_keys as int * 5 / 8
    }

    /// The dirty keys that are over what may stay dirty.
    pub fn bch2_nr_btree_keys_need_flush(&self) -> (r: u64)
        ensures
            r == (if self.nr_dirty > 1024 + self.nr_keys / 2 {
                self.nr_dirty - (1024 + self.nr_keys / 2)
            } else {
                0
            }),
            r == self.over_limit(),
    {
        let max_dirty: u64 = 1024 + self.nr_keys / 2;
        self.nr_dirty.saturating_sub(max_dirty)
    }

    pub fn nr_dirty_keys(&self) -> (r: u64)
        ensures
            r == self.nr_dirty,
    {
        self.nr_dirty
    }

    pub fn nr_keys(&self) -> (r: u64)
        ensures
            r == self.nr_keys,
    {
        self.nr_keys
    }

    /// Whether writers have to wait: too many keys are dirty.
    pub fn bch2_btree_key_cache_must_wait(&self) -> (r: bool)
        ensures
            r == (self.nr_dirty as int > 4096 + self.nr_keys as int * 3 / 4),
            r == self.must_wait(),
    {
        self.nr_dirty as u128 > 4096 + self.nr_keys as u128 * 3 / 4
    }

    /// Whether writers need not wait any more.
    pub fn bch2_btree_key_cache_wait_done(&self) -> (r: bool)
        ensures
            r == (self.nr_dirty as int <= 2048 + self.nr_keys as int * 5 / 8),
            r == self.wait_done(),
    {
        self.nr_dirty as u128 <= 2048 + self.nr_keys as u128 * 5 / 8
    }

    /// Nothing has to be set up beyond `new`.
    pub fn bch2_fs_btree_key_cache_init() {
    }

    /// Empties the cache.
    pub fn bch2_fs_btree_key_cache_exit(&mut self)
        ensures
            final(self).slots@.len() == 0,
            final(self).nr_keys == 0,
            final(self).nr_dirty == 0,
            final(self).journal == old(self).journal,
            final(self).counted(),
            forall|pos: Bpos| #[trigger] final(self).spec_find(pos) is None,
    {
        self.slots = Vec::new();
        self.nr_keys = 0;
        self.nr_dirty = 0;
    }

    /// Hands every dirty key to `writer`; those that it wrote are clean then.
    /// Returns how many it wrote.
    pub fn flush_dirty<F: Fn(&Bpos, &BtreeEntry) -> bool>(&mut self, writer: F) -> (r: usize)
        requires
            forall|p: &Bpos, e: &BtreeEntry| #[trigger] writer.requires((p, e)),
        ensures
            exists|done: Seq<(Bpos, BtreeEntry, bool)>|
                {
                    &&& #[trigger] done.len() == dirty_slots(old(self).slots@).len()
                    &&& forall|i: int|
                        0 <= i < done.len() ==> ({
                            let c = dirty_slots(old(self).slots@)[i];
                            let d = #[trigger] done[i];
                            &&& d.0 == c.pos
                            &&& d.1.same(c.entry)
                            &&& writer.ensures((&d.0, &d.1), d.2)
                        })
                    &&& final(self).slots@ == flushed(old(self).slots@, done)
                    &&& r == wrote(done)
                },
            final(self).nr_keys == old(self).nr_keys,
            final(self).journal == old(self).journal,
            old(self).counted() ==> final(self).counted(),
    {
        let ghost s0 = self.slots@;
        let dirty: Vec<(Bpos, BtreeEntry)> = self.collect_dirty();
        let mut n: usize = 0;
        let mut i: usize = 0;
        let ghost mut done: Seq<(Bpos, BtreeEntry, bool)> = Seq::empty();
        while i < dirty.len()
            invariant
                i <= dirty@.len(),
                done.len() == i,
                n <= i,
                forall|p: &Bpos, e: &BtreeEntry| #[trigger] writer.requires((p, e)),
                dirty@.len() == dirty_slots(s0).len(),
                forall|j: int|
                    0 <= j < dirty@.len() ==> ({
                        let c = dirty_slots(s0)[j];
                        let p = #[trigger] dirty@[j];
                        p.0 == c.pos && p.1.same(c.entry) && p.1@ == c.entry@
                    }),
                forall|j: int|
                    0 <= j < done.len() ==> ({
                        let c = dirty_slots(s0)[j];
                        let d = #[trigger] done[j];
                        &&& d.0 == c.pos
                        &&& d.1.same(c.entry)
                        &&& writer.ensures((&d.0, &d.1), d.2)
                    }),
                self.slots@ == flushed(s0, done),
                n == wrote(done),
                self.nr_keys == old(self).nr_keys,
                self.journal == old(self).journal,
                old(self).counted() ==> self.counted(),
            decreases dirty@.len() - i,
        {
            let ok: bool = writer(&dirty[i].0, &dirty[i].1);
            if ok {
                self.mark_clean(&dirty[i].0);
                n = n + 1;
            }
            proof {
                let d = (dirty@[i as int].0, dirty@[i as int].1, ok);
                let next = done.push(d);
                assert(next.drop_last() =~= done);
                done = next;
            }
            i = i + 1;
        }
        assert(done.len() == dirty_slots(old(self).slots@).len());
        n
    }

    /// Writes dirty keys before the file system turns read-only; true as long
    /// as some were written.
    pub fn bch2_btree_key_cache_flush_going_ro<F: Fn(&Bpos, &BtreeEntry) -> bool>(
        &mut self,
        writer: F,
    ) -> (r: bool)
        requires
            forall|p: &Bpos, e: &BtreeEntry| #[trigger] writer.requires((p, e)),
        ensures
            exists|done: Seq<(Bpos, BtreeEntry, bool)>|
                {
                    &&& #[trigger] done.len() == dirty_slots(old(self).slots@).len()
                    &&& forall|i: int|
                        0 <= i < done.len() ==> ({
                            let c = dirty_slots(old(self).slots@)[i];
                            let d = #[trigger] done[i];
                            &&& d.0 == c.pos
                            &&& d.1.same(c.entry)
                            &&& writer.ensures((&d.0, &d.1), d.2)
                        })
                    &&& final(self).slots@ == flushed(old(self).slots@, done)
                    &&& r == (wrote(done) > 0)
                },
            final(self).nr_keys == old(self).nr_keys,
            final(self).journal == old(self).journal,
            old(self).counted() ==> final(self).counted(),
    {
        let n: usize = self.flush_dirty(writer);
        n > 0
    }
}

/// The slots after the keys that were written became clean.
pub open spec fn flushed(slots: Seq<CachedEntry>, done: Seq<(Bpos, BtreeEntry, bool)>) -> Seq<
    CachedEntry,
>
    decreases done.len(),
{
    if done.len() == 0 {
        slots
    } else {
        let s = flushed(slots, done.drop_last());
        if done.last().2 {
            clean_slot(s, done.last().0)
        } else {
            s
        }
    }
}

/// How many keys were written.
pub open spec fn wrote(done: Seq<(Bpos, BtreeEntry, bool)>) -> nat
    decreases done.len(),
{
    if done.len() == 0 {
        0
    } else {
        wrote(done.drop_last()) + if done.last().2 {
            1nat
        } else {
            0nat
        }
    }
}

/// A slot keeps its number when it is rewritten.
pub proof fn lemma_slot_updated(slots: Seq<CachedEntry>, i: int, c: CachedEntry)
    requires
        slot_for(slots, c.pos) == Some(i),
    ensures
        slot_for(slots.update(i, c), c.pos) == Some(i),
        0 <= i < slots.len(),
    decreases slots.len(),
{
    lemma_slot_for(slots, c.pos);
    let s = slots.update(i, c);
    lemma_slot_for(s, c.pos);
    match slot_for(s, c.pos) {
        Some(j) => {
            if j > i {
                assert(s[j] == slots[j]);
            } else if j < i {
                assert(s[i].pos != c.pos);
            }
        },
        None => {
            assert(s[i].pos != c.pos);
        },
    }
}

/// Writing or dropping the key at one position leaves what is cached at every
/// other position alone.
pub proof fn lemma_positions_independent(slots: Seq<CachedEntry>, c: CachedEntry, other: Bpos)
    requires
        other != c.pos,
    ensures
        match slot_for(slots, other) {
            Some(i) => slot_for(put_slot(slots, c), other) == Some(i) && put_slot(slots, c)[i]
                == slots[i],
            None => slot_for(put_slot(slots, c), other) is None,
        },
{
    let s = put_slot(slots, c);
    lemma_slot_for(slots, c.pos);
    lemma_slot_for(slots, other);
    lemma_slot_for(s, other);
    let at = match slot_for(slots, c.pos) {
        Some(i) => i,
        None => slots.len() as int,
    };
    assert(s[at] == c);
    match slot_for(slots, other) {
        Some(i) => {
            assert(i != at);
            assert(s[i] == slots[i]);
            match slot_for(s, other) {
                Some(j) => {
                    if j > i {
                        assert(j != at);
                        assert(s[j] == slots[j]);
                    } else if j < i {
                        assert(s[i].pos != other);
                    }
                },
                None => {
                    assert(s[i].pos != other);
                },
            }
        },
        None => {
            if let Some(j) = slot_for(s, other) {
                assert(j != at);
                assert(s[j] == slots[j]);
            }
        },
    }
}

/// The number of dirty slots depends on the marks alone.
proof fn lemma_same_dirty(a: Seq<CachedEntry>, b: Seq<CachedEntry>)
    requires
        a.len() == b.len(),
        forall|i: int| 0 <= i < a.len() ==> (#[trigger] a[i]).dirty == b[i].dirty,
    ensures
        count_dirty(a) == count_dirty(b),
    decreases a.len(),
{
    if a.len() > 0 {
        assert(a[a.len() - 1].dirty == b[b.len() - 1].dirty);
        let f = a.drop_last();
        let g = b.drop_last();
        assert forall|i: int| 0 <= i < f.len() implies (#[trigger] f[i]).dirty == g[i].dirty by {
            assert(f[i] == a[i] && g[i] == b[i]);
            assert(a[i].dirty == b[i].dirty);
        }
        lemma_same_dirty(f, g);
    }
}

/// After a clean key was cached it is found, nothing at its position is dirty,
/// and what is cached elsewhere is as it was.
pub proof fn lemma_insert_cached(
    c: KeyCache,
    new: KeyCache,
    pos: Bpos,
    entry: BtreeEntry,
    other: Bpos,
)
    requires
        c.counted(),
        c.inserted(new, pos, entry),
        other != pos,
    ensures
        new.spec_find(pos) == Some(entry),
        forall|i: int|
            0 <= i < new.slots@.len() && (#[trigger] new.slots@[i]).pos == pos
                ==> !new.slots@[i].dirty,
        new.slot(other) == c.slot(other),
        new.spec_find(other) == c.spec_find(other),
{
    let s = c.slots@;
    lemma_slot_for(s, pos);
    let x = match slot_for(s, pos) {
        Some(i) => new.slots@[i],
        None => new.slots@.last(),
    };
    lemma_positions_independent(s, x, other);
    assert(new.slots@ == put_slot(s, x));
    assert forall|i: int| 0 <= i < new.slots@.len() && (#[trigger] new.slots@[i]).pos
        == pos implies !new.slots@[i].dirty by {
        if i < s.len() {
            match slot_for(s, pos) {
                Some(j) => {
                    if i != j {
                        assert(s[i] == new.slots@[i]);
                        if i < j {
                            assert(s[i].pos != s[j].pos);
                        }
                    }
                },
                None => {
                    assert(s[i] == new.slots@[i]);
                },
            }
        }
    }
}

/// After a key was dropped it is not found, nothing at its position is dirty or
/// valid, and what is cached elsewhere is as it was.
pub proof fn lemma_invalidate_cached(c: KeyCache, new: KeyCache, pos: Bpos, other: Bpos)
    requires
        c.counted(),
        c.invalidated(new, pos),
        other != pos,
    ensures
        new.spec_find(pos) is None,
        forall|i: int|
            0 <= i < new.slots@.len() && (#[trigger] new.slots@[i]).pos == pos
                ==> !new.slots@[i].dirty && !new.slots@[i].valid,
        new.slot(other) == c.slot(other),
        new.spec_find(other) == c.spec_find(other),
{
    let s = c.slots@;
    lemma_slot_for(s, pos);
    if let Some(j) = slot_for(s, pos) {
        let x = new.slots@[j];
        lemma_positions_independent(s, x, other);
        assert(new.slots@ == put_slot(s, x));
        assert forall|i: int| 0 <= i < new.slots@.len() && (#[trigger] new.slots@[i]).pos
            == pos implies !new.slots@[i].dirty && !new.slots@[i].valid by {
            if i != j {
                assert(s[i] == new.slots@[i]);
                if i < j {
                    assert(s[i].pos != s[j].pos);
                }
            }
        }
    }
}

} // verus!
