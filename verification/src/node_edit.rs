//! Adding to and removing from a node.

use crate::key::{
    lemma_padded, BchVal, Bpos, BtreeEntry, BtreeKey, EntryView, KeyType, ADDR48_LIMIT, BKEY_U64S,
};
use crate::le::{splice, zeros};
use crate::node::{
    drop_aux, drop_eytz, free_start, lemma_run_bound, lemma_set_frame, set_bytes, set_readable,
    set_run, BsetTree, BtreeNode, SixLock, DEFAULT_NODE_SIZE,
};
use crate::packed::{encode, lemma_encode_len, lemma_parse_push, write_packed, wrote};
use vstd::prelude::*;

verus! {

/// The bytes of an extent entry: the smallest entry that carries a value.
pub fn entry_size() -> (r: u32)
    ensures
        r == 32,
{
    (BKEY_U64S as u32 + 1) * 8
}

/// An extent entry takes four u64s.
pub proof fn lemma_extent_size(k: BtreeKey, v: BchVal)
    ensures
        EntryView::extent(k, v).u64s() == 4,
        EntryView::extent(k, v).fits(),
        EntryView::extent(k, v).padded() == EntryView::extent(k, v),
        EntryView::extent(k, v).key() == k,
        v.paddr.addr < ADDR48_LIMIT ==> EntryView::extent(k, v).bch_val() == v,
{
    crate::le::lemma_le_bytes_len(v.paddr.addr as nat, 6);
    crate::le::lemma_le_bytes_len(v.ver as nat, 2);
    lemma_padded(EntryView::extent(k, v));
    if v.paddr.addr < ADDR48_LIMIT {
        crate::key::lemma_bch_val_roundtrip(v);
    }
}

impl BtreeNode {
    /// An empty node of the default size.
    pub open spec fn is_new(self, level: u8) -> bool {
        &&& self.data@ == Seq::new(DEFAULT_NODE_SIZE as nat, |i: int| 0u8)
        &&& self.sets@ == seq![
            BsetTree::spec_empty(),
            BsetTree::spec_empty(),
            BsetTree::spec_empty(),
        ]
        &&& self.lock.seq == 0
        &&& self.level == level
        &&& self.key_count == 0
        &&& self.whiteout_count == 0
        &&& self.node_size == DEFAULT_NODE_SIZE
        &&& self.refcount == 1
        &&& self.state == 0
        &&& self.flags == 0
        &&& self.min_key == Bpos::spec_max()
        &&& self.max_key == Bpos::spec_min()
        &&& self.journal_seq == 0
        &&& self.block_addr == 0
        &&& !self.will_make_reachable
        &&& self.pin_count == 0
        &&& self.journal_pin is None
        &&& !self.read_in_flight
    }

    pub fn new(level: u8) -> (r: BtreeNode)
        ensures
            r.is_new(level),
            r.wf(),
            r.all() == Seq::<EntryView>::empty(),
    {
        proof {
            reveal(BtreeNode::wf);
        }
        let data: Vec<u8> = zeros(DEFAULT_NODE_SIZE as usize);
        let e = BsetTree::empty();
        let r = BtreeNode {
            lock: SixLock::new(),
            level,
            key_count: 0,
            whiteout_count: 0,
            node_size: DEFAULT_NODE_SIZE,
            data,
            sets: [e, e, e],
            refcount: 1,
            state: 0,
            flags: 0,
            min_key: Bpos::max_pos(),
            max_key: Bpos::min_pos(),
            journal_seq: 0,
            block_addr: 0,
            will_make_reachable: false,
            pin_count: 0,
            journal_pin: None,
            read_in_flight: false,
        };
        proof {
            assert(r.sets@ =~= seq![e, e, e]);
            r.lemma_empty_wf();
        }
        r
    }

    /// A node without entries is well formed.
    pub proof fn lemma_empty_wf(self)
        requires
            self.data@.len() <= DEFAULT_NODE_SIZE,
            self.node_size <= self.data@.len(),
            self.key_count == 0,
            forall|i: int| 0 <= i < 3 ==> #[trigger] self.sets@[i] == BsetTree::spec_empty(),
        ensures
            self.wf(),
            self.all() == Seq::<EntryView>::empty(),
            forall|i: int| 0 <= i < 3 ==> #[trigger] self.run(i) == Seq::<EntryView>::empty(),
    {
        reveal(BtreeNode::wf);
        assert forall|i: int| 0 <= i < 3 implies set_readable(
            self.data@,
            #[trigger] self.sets@[i],
        ) && self.sets@[i].size == self.run(i).len() && self.run(i) == Seq::<EntryView>::empty() by {
            assert(set_bytes(self.data@, self.sets@[i]) =~= Seq::<u8>::empty());
            assert(self.run(i) =~= Seq::<EntryView>::empty());
        }
        assert(set_readable(self.data@, self.sets@[0]));
        assert(set_readable(self.data@, self.sets@[1]));
        assert(set_readable(self.data@, self.sets@[2]));
        assert(self.all() =~= Seq::<EntryView>::empty());
    }

    /// An empty leaf.
    pub fn new_leaf() -> (r: BtreeNode)
        ensures
            r.is_new(0),
            r.wf(),
            r.all() == Seq::<EntryView>::empty(),
    {
        proof {
            reveal(BtreeNode::wf);
        }
        BtreeNode::new(0)
    }

    /// An empty node one level above the leaves.
    pub fn new_internal() -> (r: BtreeNode)
        ensures
            r.is_new(1),
            r.wf(),
            r.all() == Seq::<EntryView>::empty(),
    {
        proof {
            reveal(BtreeNode::wf);
        }
        BtreeNode::new(1)
    }

    /// Writes an extent entry at `offset`; returns its size in bytes.
    pub fn write_entry(&mut self, offset: u32, key: &BtreeKey, value: &BchVal) -> (r: u32)
        requires
            offset + 32 <= old(self).data@.len(),
        ensures
            r == 32,
            final(self).data@ == splice(
                old(self).data@,
                offset as int,
                encode(EntryView::extent(*key, *value)),
            ),
            *final(self) == (BtreeNode { data: final(self).data, ..*old(self) }),
    {
        let bytes: Vec<u8> = value.to_bytes();
        let pos = Bpos::from_key(key);
        proof {
            lemma_extent_size(*key, *value);
        }
        let n: usize = write_packed(
            &mut self.data,
            offset as usize,
            &pos,
            key.key_type,
            bytes.as_slice(),
        );
        n as u32
    }

    /// Writes an entry at `offset`; returns its size in bytes.
    pub fn write_entry_bytes(&mut self, offset: u32, entry: &BtreeEntry) -> (r: u32)
        requires
            entry@.fits(),
            offset + entry@.u64s() * 8 <= old(self).data@.len(),
        ensures
            r == entry@.u64s() * 8,
            final(self).data@ == splice(old(self).data@, offset as int, encode(entry@)),
            *final(self) == (BtreeNode { data: final(self).data, ..*old(self) }),
    {
        let bytes: Vec<u8> = entry.value.to_bytes();
        let n: usize = write_packed(
            &mut self.data,
            offset as usize,
            &entry.pos,
            entry.key_type,
            bytes.as_slice(),
        );
        n as u32
    }

    /// The set that takes new entries: set 1 until set 2 is in use.
    pub fn active_inc_set(&self) -> (r: usize)
        ensures
            r == self.spec_active_inc_set(),
    {
        if self.sets[2].size == 0 && self.sets[2].data_bytes() == 0 {
            1
        } else {
            2
        }
    }

    /// One past the last byte that set `i` and its aux array take.
    pub fn set_top(&self, i: usize) -> (r: u32)
        requires
            self.wf(),
            i < 3,
        ensures
            r == self.sets@[i as int].top(),
            r <= self.data@.len(),
    {
        proof {
            reveal(BtreeNode::wf);
        }
        proof {
            assert(set_readable(self.data@, self.sets@[i as int]));
        }
        let t = self.sets[i];
        if t.aux_offset > 0 {
            let aux_end: u32 = t.aux_offset + t.size as u32 * 20;
            if aux_end > t.end_offset {
                return aux_end;
            }
        }
        t.end_offset
    }

    /// Where free space starts behind the three sets.
    pub fn calc_free_start(&self) -> (r: u32)
        requires
            self.wf(),
        ensures
            r == free_start(self.sets@),
            r <= self.data@.len() + 7,
            forall|i: int| 0 <= i < 3 ==> (#[trigger] self.sets@[i]).top() <= r,
    {
        proof {
            reveal(BtreeNode::wf);
        }
        let t0: u32 = self.set_top(0);
        let t1: u32 = self.set_top(1);
        let t2: u32 = self.set_top(2);
        let mut raw: u32 = t0;
        if t1 > raw {
            raw = t1;
        }
        if t2 > raw {
            raw = t2;
        }
        (raw + 7) / 8 * 8
    }

    /// A node stays well formed when set 0 loses its aux arrays.
    pub proof fn lemma_drop_aux(self, new: BtreeNode)
        requires
            self.wf(),
            new.data@ == self.data@,
            new.node_size == self.node_size,
            new.key_count == self.key_count,
            new.sets@ == drop_aux(self.sets@) || new.sets@ == drop_eytz(self.sets@),
        ensures
            new.wf(),
            new.run(0) == self.run(0),
            new.run(1) == self.run(1),
            new.run(2) == self.run(2),
            new.all() == self.all(),
    {
        reveal(BtreeNode::wf);
        assert(set_readable(self.data@, self.sets@[0]));
        assert(set_readable(self.data@, self.sets@[1]));
        assert(set_readable(self.data@, self.sets@[2]));
        assert(set_bytes(new.data@, new.sets@[0]) =~= set_bytes(self.data@, self.sets@[0]));
        assert forall|i: int| 0 <= i < 3 implies set_readable(new.data@, #[trigger] new.sets@[i])
            && new.sets@[i].size == new.run(i).len() by {}
    }

    /// What writing one more entry behind the set `si` at `start` gives.
    proof fn lemma_appended(self, new: BtreeNode, si: int, start: int, e: EntryView)
        requires
            self.wf(),
            e.fits(),
            self.sets@[0].extra == 0,
            si == self.spec_active_inc_set(),
            start == (if self.sets@[si].end_offset == self.sets@[si].data_offset {
                free_start(self.sets@)
            } else {
                self.sets@[si].end_offset as int
            }),
            start + e.u64s() * 8 <= self.node_size,
            new.data@ == splice(self.data@, start, encode(e)),
            new.node_size == self.node_size,
            new.key_count == self.key_count,
            new.sets@ == self.sets@.update(
                si,
                BsetTree {
                    data_offset: if self.sets@[si].end_offset == self.sets@[si].data_offset {
                        start as u32
                    } else {
                        self.sets@[si].data_offset
                    },
                    end_offset: (start + e.u64s() * 8) as u32,
                    size: (self.sets@[si].size + 1) as u16,
                    ..self.sets@[si]
                },
            ),
        ensures
            new.wf(),
            new.run(0) == self.run(0),
            new.run(1) == (if si == 1 {
                self.run(1).push(e.padded())
            } else {
                self.run(1)
            }),
            new.run(2) == (if si == 2 {
                self.run(2).push(e.padded())
            } else {
                self.run(2)
            }),
            new.all() == self.all().push(e.padded()),
    {
        reveal(BtreeNode::wf);
        let d = new.data@;
        let t = self.sets@[si];
        let nt = new.sets@[si];
        assert(set_readable(self.data@, self.sets@[0]));
        assert(set_readable(self.data@, self.sets@[1]));
        assert(set_readable(self.data@, self.sets@[2]));
        lemma_run_bound(self.data@, self.sets@[0]);
        lemma_run_bound(self.data@, self.sets@[1]);
        lemma_run_bound(self.data@, self.sets@[2]);
        lemma_encode_len(e);
        assert(start >= 0);
        if t.end_offset == t.data_offset {
            assert(set_bytes(self.data@, t) =~= Seq::<u8>::empty());
            assert(set_bytes(d, nt) =~= Seq::<u8>::empty() + encode(e));
            lemma_parse_push(Seq::<u8>::empty(), e);
        } else {
            assert(set_bytes(d, nt) =~= set_bytes(self.data@, t) + encode(e));
            lemma_parse_push(set_bytes(self.data@, t), e);
        }
        assert(set_run(d, nt) == self.run(si).push(e.padded()));
        assert(self.sets@[0].top() <= start);
        lemma_set_frame(self.data@, d, self.sets@[0]);
        if si == 1 {
            lemma_set_frame(self.data@, d, self.sets@[2]);
            assert(self.run(2).len() == 0);
            assert(new.all() =~= self.all().push(e.padded()));
        } else {
            assert(self.sets@[1].data_offset < self.sets@[1].end_offset ==> self.sets@[1].top()
                <= start);
            lemma_set_frame(self.data@, d, self.sets@[1]);
            assert(new.all() =~= self.all().push(e.padded()));
        }
        assert forall|i: int| 0 <= i < 3 implies set_readable(d, #[trigger] new.sets@[i])
            && new.sets@[i].size == new.run(i).len() by {}
    }

    /// Finds room for `size` bytes behind the sets, giving up the aux arrays
    /// of set 0 where that helps; returns where free space starts.
    fn make_room(&mut self, size: u32) -> (r: Option<u32>)
        requires
            old(self).wf(),
            size <= 0x1000,
        ensures
            final(self).wf(),
            final(self).all() == old(self).all(),
            final(self).run(0) == old(self).run(0),
            final(self).run(1) == old(self).run(1),
            final(self).run(2) == old(self).run(2),
            r is Some == old(self).has_room(size as int),
            r matches Some(fs) ==> final(self).sets@ == drop_eytz(
                old(self).sets_with_room(size as int)->0,
            ) && fs == free_start(final(self).sets@) && fs + size <= old(self).node_size,
            r is None ==> final(self).sets@ == old(self).sets_after_refusal(),
            *final(self) == (BtreeNode { sets: final(self).sets, ..*old(self) }),
    {
        proof {
            reveal(BtreeNode::wf);
        }
        let ghost n0 = *self;
        let mut fs: u32 = self.calc_free_start();
        if fs + size > self.node_size {
            if self.sets[0].aux_offset > 0 {
                let t = self.sets[0];
                self.sets[0] = BsetTree { aux_offset: 0, extra: 0, ..t };
                proof {
                    assert(self.sets@ =~= drop_aux(n0.sets@));
                    n0.lemma_drop_aux(*self);
                }
                fs = self.calc_free_start();
            }
            if fs + size > self.node_size {
                return None;
            }
        }
        let ghost n1 = *self;
        let t0 = self.sets[0];
        self.sets[0] = BsetTree { extra: 0, ..t0 };
        proof {
            assert(self.sets@ =~= drop_eytz(n1.sets@));
            n1.lemma_drop_aux(*self);
        }
        Some(fs)
    }

    /// Adds an entry to the active set; false where there is no room for it.
    pub fn append(&mut self, pos: &Bpos, key_type: KeyType, value: &[u8]) -> (r: bool)
        requires
            old(self).wf(),
            (EntryView { pos: *pos, key_type, value: value@ }).fits(),
        ensures
            final(self).wf(),
            r == old(self).has_room(
                (EntryView { pos: *pos, key_type, value: value@ }).u64s() * 8,
            ),
            r ==> old(self).appended(
                *final(self),
                EntryView { pos: *pos, key_type, value: value@ },
            ),
            !r ==> final(self).data == old(self).data && final(self).sets@ == old(
                self,
            ).sets_after_refusal() && final(self).all() == old(self).all(),
            *final(self) == (BtreeNode {
                data: final(self).data,
                sets: final(self).sets,
                ..*old(self)
            }),
    {
        proof {
            reveal(BtreeNode::wf);
        }
        let ghost e = EntryView { pos: *pos, key_type, value: value@ };
        let ghost n0 = *self;
        let si: usize = self.active_inc_set();
        let size: u32 = ((3 + (value.len() + 7) / 8) * 8) as u32;
        assert(size == e.u64s() * 8);
        let fs: u32 = match self.make_room(size) {
            Some(fs) => fs,
            None => {
                return false;
            },
        };
        self.append_at(si, fs, pos, key_type, value);
        assert(self.sets@ =~= n0.sets_after_append(size as int));
        true
    }

    /// Writes an entry behind set `si`, or at `fs` where the set is empty.
    fn append_at(&mut self, si: usize, fs: u32, pos: &Bpos, key_type: KeyType, value: &[u8])
        requires
            old(self).wf(),
            old(self).sets@[0].extra == 0,
            si == old(self).spec_active_inc_set(),
            fs == free_start(old(self).sets@),
            (EntryView { pos: *pos, key_type, value: value@ }).fits(),
            fs + (EntryView { pos: *pos, key_type, value: value@ }).u64s() * 8 <= old(
                self,
            ).node_size,
        ensures
            final(self).wf(),
            ({
                let e = EntryView { pos: *pos, key_type, value: value@ };
                let t = old(self).sets@[si as int];
                let start = if t.end_offset == t.data_offset {
                    fs as int
                } else {
                    t.end_offset as int
                };
                &&& final(self).sets@ == old(self).sets@.update(
                    si as int,
                    BsetTree {
                        data_offset: if t.end_offset == t.data_offset {
                            start as u32
                        } else {
                            t.data_offset
                        },
                        end_offset: (start + e.u64s() * 8) as u32,
                        size: (t.size + 1) as u16,
                        ..t
                    },
                )
                &&& final(self).run(0) == old(self).run(0)
                &&& final(self).run(1) == (if si == 1 {
                    old(self).run(1).push(e.padded())
                } else {
                    old(self).run(1)
                })
                &&& final(self).run(2) == (if si == 2 {
                    old(self).run(2).push(e.padded())
                } else {
                    old(self).run(2)
                })
                &&& final(self).all() == old(self).all().push(e.padded())
                &&& wrote(old(self).data@, final(self).data@, start, e)
            }),
            final(self).data@.len() == old(self).data@.len(),
            *final(self) == (BtreeNode {
                data: final(self).data,
                sets: final(self).sets,
                ..*old(self)
            }),
    {
        proof {
            reveal(BtreeNode::wf);
        }
        let ghost e = EntryView { pos: *pos, key_type, value: value@ };
        let ghost n2 = *self;
        let t = self.sets[si];
        proof {
            assert(set_readable(n2.data@, n2.sets@[si as int]));
            lemma_run_bound(n2.data@, n2.sets@[si as int]);
        }
        let start: u32 = if t.end_offset == t.data_offset {
            fs
        } else {
            t.end_offset
        };
        let lo: u32 = if t.end_offset == t.data_offset {
            fs
        } else {
            t.data_offset
        };
        assert(t.top() <= fs);
        let size: usize = write_packed(&mut self.data, start as usize, pos, key_type, value);
        self.sets[si] = BsetTree {
            data_offset: lo,
            end_offset: start + size as u32,
            size: t.size + 1,
            ..t
        };
        proof {
            assert(self.sets@ =~= n2.sets@.update(si as int, self.sets@[si as int]));
            n2.lemma_appended(*self, si as int, start as int, e);
            reveal(wrote);
        }
    }

    /// Adds an extent entry to the active set; false where there is no room.
    pub fn insert(&mut self, key: BtreeKey, value: BchVal) -> (r: bool)
        requires
            old(self).wf(),
        ensures
            final(self).wf(),
            r == old(self).has_room(32),
            r ==> old(self).appended(*final(self), EntryView::extent(key, value))
                && final(self).key_count == old(self).key_count + 1,
            !r ==> old(self).refused(*final(self)),
            final(self).whiteout_count == old(self).whiteout_count,
            *final(self) == old(self).with_contents(*final(self)),
    {
        proof {
            reveal(BtreeNode::wf);
        }
        let bytes: Vec<u8> = value.to_bytes();
        let pos = Bpos::from_key(&key);
        proof {
            lemma_extent_size(key, value);
        }
        let ghost n0 = *self;
        if !self.append(&pos, key.key_type, bytes.as_slice()) {
            return false;
        }
        self.count_key();
        true
    }

    /// Whether `new` is this node after it refused an entry: its entries are
    /// untouched, its aux arrays gone.
    pub open spec fn refused(self, new: BtreeNode) -> bool {
        &&& new.data == self.data
        &&& new.sets@ == self.sets_after_refusal()
        &&& new.all() == self.all()
        &&& new.key_count == self.key_count
        &&& new.whiteout_count == self.whiteout_count
    }

    /// Counts one more key.
    fn count_key(&mut self)
        requires
            old(self).wf(),
            old(self).key_count < old(self).all().len(),
        ensures
            final(self).wf(),
            *final(self) == (BtreeNode {
                key_count: (old(self).key_count + 1) as u32,
                ..*old(self)
            }),
            final(self).all() == old(self).all(),
    {
        proof {
            reveal(BtreeNode::wf);
        }
        proof {
            assert(set_readable(self.data@, self.sets@[0]));
            assert(set_readable(self.data@, self.sets@[1]));
            assert(set_readable(self.data@, self.sets@[2]));
            lemma_run_bound(self.data@, self.sets@[0]);
            lemma_run_bound(self.data@, self.sets@[1]);
            lemma_run_bound(self.data@, self.sets@[2]);
        }
        let ghost n0 = *self;
        self.key_count = self.key_count + 1;
        proof {
            assert forall|i: int| 0 <= i < 3 implies set_readable(
                self.data@,
                #[trigger] self.sets@[i],
            ) && self.sets@[i].size == self.run(i).len() by {
                assert(set_readable(n0.data@, n0.sets@[i]));
            }
        }
    }

    /// Adds an entry to the active set; false where there is no room.
    pub fn insert_entry(&mut self, entry: &BtreeEntry) -> (r: bool)
        requires
            old(self).wf(),
            entry@.fits(),
        ensures
            final(self).wf(),
            r == old(self).has_room(entry@.u64s() * 8),
            r ==> old(self).appended(*final(self), entry@) && final(self).key_count == old(
                self,
            ).key_count + 1,
            !r ==> old(self).refused(*final(self)),
            final(self).whiteout_count == old(self).whiteout_count,
            *final(self) == old(self).with_contents(*final(self)),
    {
        proof {
            reveal(BtreeNode::wf);
        }
        let bytes: Vec<u8> = entry.value.to_bytes();
        if !self.append(&entry.pos, entry.key_type, bytes.as_slice()) {
            return false;
        }
        self.count_key();
        true
    }

    pub fn bch2_bset_insert(&mut self, key: BtreeKey, value: BchVal) -> (r: bool)
        requires
            old(self).wf(),
        ensures
            final(self).wf(),
            r == old(self).has_room(32),
            r ==> old(self).appended(*final(self), EntryView::extent(key, value))
                && final(self).key_count == old(self).key_count + 1,
            !r ==> old(self).refused(*final(self)),
            final(self).whiteout_count == old(self).whiteout_count,
            *final(self) == old(self).with_contents(*final(self)),
    {
        proof {
            reveal(BtreeNode::wf);
        }
        self.insert(key, value)
    }

    pub fn bch2_bset_insert_entry(&mut self, entry: &BtreeEntry) -> (r: bool)
        requires
            old(self).wf(),
            entry@.fits(),
        ensures
            final(self).wf(),
            r == old(self).has_room(entry@.u64s() * 8),
            r ==> old(self).appended(*final(self), entry@) && final(self).key_count == old(
                self,
            ).key_count + 1,
            !r ==> old(self).refused(*final(self)),
            final(self).whiteout_count == old(self).whiteout_count,
            *final(self) == old(self).with_contents(*final(self)),
    {
        proof {
            reveal(BtreeNode::wf);
        }
        self.insert_entry(entry)
    }

    /// Whether an entry with a value of `entry_u64s` u64s fits behind the sets
    /// as they are.
    pub fn compact_fits(&self, entry_u64s: u32) -> (r: bool)
        requires
            self.wf(),
            entry_u64s <= 0x1000_0000,
        ensures
            r == (free_start(self.sets@) + (BKEY_U64S + entry_u64s) * 8 <= self.node_size),
    {
        proof {
            reveal(BtreeNode::wf);
        }
        let fs: u32 = self.calc_free_start();
        let es: u32 = (BKEY_U64S as u32 + entry_u64s) * 8;
        fs + es <= self.node_size
    }

    /// Empties all sets.
    pub fn bch2_btree_keys_init(&mut self)
        ensures
            final(self).sets@ == seq![
                BsetTree::spec_empty(),
                BsetTree::spec_empty(),
                BsetTree::spec_empty(),
            ],
            final(self).key_count == 0,
            final(self).whiteout_count == 0,
            final(self).data == old(self).data,
            *final(self) == old(self).with_contents(*final(self)),
            old(self).wf() ==> final(self).wf() && final(self).all() == Seq::<EntryView>::empty(),
    {
        proof {
            reveal(BtreeNode::wf);
        }
        let e = BsetTree::empty();
        self.sets = [e, e, e];
        self.key_count = 0;
        self.whiteout_count = 0;
        proof {
            assert(self.sets@ =~= seq![e, e, e]);
            if old(self).wf() {
                self.lemma_empty_wf();
            }
        }
    }
}

} // verus!
