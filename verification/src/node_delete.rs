//! Deleting from a node.
//!
//! A delete adds a tombstone behind the entry; a compaction then drops both.

use crate::key::{BchVal, Bpos, BtreeKey, EntryView, KeyType};
use crate::node::{
    lemma_set_frame, set_bytes, set_readable, set_run, BsetTree, BtreeNode,
    WHITEOUT_THRESHOLD_FRACTION,
};
use crate::node_edit::lemma_extent_size;
use crate::packed::{
    decode, entry_at, lemma_entry_pos, lemma_step, parse, read_pos, read_type, total_size,
    well_packed, wrote,
};
use crate::run::{
    first_live, last_in, lemma_first_live_at, lemma_live, live, not_deleted,
};
use crate::sort::{before, ordered};
use vstd::prelude::*;

verus! {

/// The number of the newest entry in the slot of `k`, whiteouts aside.
pub open spec fn newest_index(es: Seq<EntryView>, k: BtreeKey) -> Option<int>
    decreases es.len(),
{
    if es.len() == 0 {
        None
    } else if es.last().key().same_slot(k) && es.last().key_type != KeyType::Whiteout {
        Some(es.len() - 1)
    } else {
        newest_index(es.drop_last(), k)
    }
}

/// Whether the newest entry in the slot of `k` is a normal one: no tombstone
/// shadows it.
pub open spec fn newest_is_normal(es: Seq<EntryView>, k: BtreeKey) -> bool {
    newest_index(es, k) matches Some(i) && es[i].key_type == KeyType::Normal
}

/// Whether the last entry in the slot of `k` is a whiteout.
pub open spec fn whiteout_last(es: Seq<EntryView>, k: BtreeKey) -> bool {
    last_in(es, k) matches Some(e) && e.key_type == KeyType::Whiteout
}

/// The run with the newest entry in the slot of `k` turned into a tombstone
/// where that entry is normal.
pub open spec fn mark_newest(es: Seq<EntryView>, k: BtreeKey) -> Seq<EntryView> {
    if newest_is_normal(es, k) {
        let i = newest_index(es, k)->0;
        es.update(i, EntryView { key_type: KeyType::Deleted, ..es[i] })
    } else {
        es
    }
}

/// The tombstone for the slot of `k`.
pub open spec fn tombstone(k: BtreeKey) -> EntryView {
    EntryView::extent(
        BtreeKey { key_type: KeyType::Deleted, ..k },
        BchVal::spec_new(0, 0),
    )
}

/// What the newest entry of a slot is.
pub proof fn lemma_newest_index(es: Seq<EntryView>, k: BtreeKey)
    ensures
        match newest_index(es, k) {
            Some(i) => 0 <= i < es.len() && es[i].key().same_slot(k) && es[i].key_type
                != KeyType::Whiteout && forall|j: int|
                i < j < es.len() && (#[trigger] es[j]).key().same_slot(k) ==> es[j].key_type
                    == KeyType::Whiteout,
            None => forall|j: int|
                0 <= j < es.len() && (#[trigger] es[j]).key().same_slot(k) ==> es[j].key_type
                    == KeyType::Whiteout,
        },
    decreases es.len(),
{
    if es.len() > 0 {
        let f = es.drop_last();
        lemma_newest_index(f, k);
        assert forall|j: int| 0 <= j < f.len() implies #[trigger] es[j] == f[j] by {}
    }
}

/// The newest entry of two runs, one behind the other.
proof fn lemma_newest_append(a: Seq<EntryView>, b: Seq<EntryView>, k: BtreeKey)
    ensures
        newest_index(a + b, k) == (match newest_index(b, k) {
            Some(j) => Some(a.len() + j),
            None => newest_index(a, k),
        }),
    decreases b.len(),
{
    if b.len() == 0 {
        assert(a + b =~= a);
    } else {
        assert((a + b).drop_last() =~= a + b.drop_last());
        assert((a + b).last() == b.last());
        lemma_newest_append(a, b.drop_last(), k);
    }
}

/// The newest entry depends on the slot alone.
pub proof fn lemma_newest_slot(es: Seq<EntryView>, k: BtreeKey, l: BtreeKey)
    requires
        k.same_slot(l),
    ensures
        newest_index(es, k) == newest_index(es, l),
    decreases es.len(),
{
    if es.len() > 0 {
        lemma_newest_slot(es.drop_last(), k, l);
    }
}

/// Changing the type byte of one packed entry changes that entry only.
proof fn lemma_retype(b: Seq<u8>, j: int)
    requires
        well_packed(b),
        0 <= j < parse(b).len(),
    ensures
        ({
            let off = total_size(parse(b).take(j));
            let c = b.update(off + 2, 1u8);
            &&& 0 <= off
            &&& off + 24 <= b.len()
            &&& well_packed(c)
            &&& parse(c) == parse(b).update(
                j,
                EntryView { key_type: KeyType::Deleted, ..parse(b)[j] },
            )
        }),
    decreases j,
{
    let p = parse(b);
    let off = total_size(p.take(j));
    let c = b.update(off + 2, 1u8);
    let h = b[0] * 8;
    let rest = b.skip(h);
    if j == 0 {
        assert(p.take(0) =~= Seq::<EntryView>::empty());
        assert(c[0] == b[0]);
        assert(c.skip(h) =~= rest);
        let x = b.take(h);
        let y = c.take(h);
        assert(y.subrange(3, 11) =~= x.subrange(3, 11));
        assert(y.subrange(11, 19) =~= x.subrange(11, 19));
        assert(y.subrange(19, 23) =~= x.subrange(19, 23));
        assert(y.skip(24) =~= x.skip(24));
        assert(decode(y) =~= (EntryView { key_type: KeyType::Deleted, ..decode(x) }));
        assert(parse(c) =~= p.update(0, EntryView { key_type: KeyType::Deleted, ..p[0] }));
    } else {
        assert(p.skip(1) =~= parse(rest));
        assert(p.take(j).skip(1) =~= parse(rest).take(j - 1));
        lemma_retype(rest, j - 1);
        let roff = total_size(parse(rest).take(j - 1));
        assert(off == h + roff);
        assert(c[0] == b[0]);
        assert(c.skip(h) =~= rest.update(roff + 2, 1u8));
        assert(c.take(h) =~= b.take(h));
        assert(parse(c) =~= p.update(j, EntryView { key_type: KeyType::Deleted, ..p[j] }));
    }
}

impl BtreeNode {
    /// Where the newest entry of a set in the slot of `k` starts, and its type;
    /// whiteouts are passed over.
    fn find_newest(&self, set: &BsetTree, k: &BtreeKey) -> (r: Option<(usize, KeyType)>)
        requires
            set_readable(self.data@, *set),
        ensures
            r is Some == newest_index(set_run(self.data@, *set), *k) is Some,
            r matches Some((off, key_type)) ==> ({
                let es = set_run(self.data@, *set);
                let i = newest_index(es, *k)->0;
                &&& 0 <= i < es.len()
                &&& off == set.data_offset + total_size(es.take(i))
                &&& key_type == es[i].key_type
            }),
    {
        let ghost d = self.data@;
        let ghost es = set_run(d, *set);
        let ghost end = set.end_offset as int;
        let mut cur: usize = set.data_offset as usize;
        let mut best: Option<(usize, KeyType)> = None;
        let ghost mut n: int = 0;
        proof {
            assert(es.skip(0) =~= es);
            assert(es.take(0) =~= Seq::<EntryView>::empty());
        }
        while cur < set.end_offset as usize
            invariant
                d == self.data@,
                es == set_run(d, *set),
                end == set.end_offset,
                set_readable(d, *set),
                set.data_offset <= cur <= end,
                0 <= n <= es.len(),
                cur == set.data_offset + total_size(es.take(n)),
                well_packed(d.subrange(cur as int, end)),
                parse(d.subrange(cur as int, end)) == es.skip(n),
                best is Some == newest_index(es.take(n), *k) is Some,
                best matches Some((off, key_type)) ==> ({
                    let i = newest_index(es.take(n), *k)->0;
                    &&& 0 <= i < n
                    &&& off == set.data_offset + total_size(es.take(i))
                    &&& key_type == es[i].key_type
                }),
            decreases end - cur,
        {
            proof {
                lemma_step(d, cur as int, end);
                let next = cur + d[cur as int] * 8;
                assert(parse(d.subrange(cur as int, end))[0] == entry_at(d, cur as int));
                assert(es.skip(n).len() > 0);
                assert(es.skip(n)[0] == es[n]);
                assert(es.skip(n + 1) =~= es.skip(n).skip(1));
                assert(parse(d.subrange(next, end)) =~= parse(d.subrange(cur as int, end)).skip(1));
                assert(es.take(n + 1) =~= es.take(n).push(es[n]));
                assert(es.take(n + 1).drop_last() =~= es.take(n));
                crate::packed::lemma_total_push(es.take(n), es[n]);
            }
            let pos = read_pos(self.data.as_slice(), cur);
            let key_type = read_type(self.data.as_slice(), cur);
            if pos.offset == k.vaddr && pos.snapshot == k.snapshot_id && key_type
                != KeyType::Whiteout {
                best = Some((cur, key_type));
            }
            proof {
                n = n + 1;
            }
            cur = cur + self.data[cur] as usize * 8;
        }
        proof {
            assert(d.subrange(end, end) =~= Seq::<u8>::empty());
            assert(es.skip(n).len() == 0);
            assert(es.take(n) =~= es);
        }
        best
    }

    /// Whether a delete leaves nothing in the slot of `k`: there is room for a
    /// tombstone, or no whiteout stands behind the entry that is marked.
    pub open spec fn can_empty(self, k: BtreeKey) -> bool {
        self.has_room(32) || !whiteout_last(self.all(), k)
    }

    /// Whether a normal entry is in the slot that no tombstone shadows.
    pub open spec fn spec_has_live_entry(self, k: BtreeKey) -> bool {
        newest_is_normal(self.all(), k)
    }

    /// Whether a normal entry is in the slot (`vaddr`, `sid`) that no tombstone
    /// shadows.
    pub fn has_live_entry(&self, vaddr: u64, sid: u32) -> (r: bool)
        requires
            self.wf(),
        ensures
            r == self.spec_has_live_entry(
                BtreeKey { vaddr, snapshot_id: sid, key_type: KeyType::Normal },
            ),
    {
        proof {
            reveal(BtreeNode::wf);
        }
        let k = BtreeKey::new(vaddr, sid, KeyType::Normal);
        proof {
            assert(set_readable(self.data@, self.sets@[0]));
            assert(set_readable(self.data@, self.sets@[1]));
            assert(set_readable(self.data@, self.sets@[2]));
            lemma_newest_append(self.run(0), self.run(1), k);
            lemma_newest_append(self.run(0) + self.run(1), self.run(2), k);
        }
        if let Some((_off, t)) = self.find_newest(&self.sets[2], &k) {
            return t == KeyType::Normal;
        }
        if let Some((_off, t)) = self.find_newest(&self.sets[1], &k) {
            return t == KeyType::Normal;
        }
        match self.find_newest(&self.sets[0], &k) {
            Some((_off, t)) => t == KeyType::Normal,
            None => false,
        }
    }

    /// Turns the newest entry of a set in the slot of `k` into a tombstone where
    /// it is normal; false where there is none.
    fn mark_in_set(&mut self, si: usize, k: &BtreeKey) -> (r: bool)
        requires
            si < 3,
            old(self).wf(),
            old(self).sets@[0].aux_offset == 0,
        ensures
            final(self).wf(),
            r == newest_index(old(self).run(si as int), *k) is Some,
            final(self).run(si as int) == mark_newest(old(self).run(si as int), *k),
            forall|i: int| 0 <= i < 3 && i != si ==> #[trigger] final(self).run(i) == old(
                self,
            ).run(i),
            *final(self) == (BtreeNode { data: final(self).data, ..*old(self) }),
            final(self).data@.len() == old(self).data@.len(),
    {
        proof {
            reveal(BtreeNode::wf);
        }
        let ghost n0 = *self;
        let set = self.sets[si];
        proof {
            assert(set_readable(self.data@, self.sets@[si as int]));
        }
        match self.find_newest(&set, k) {
            Some((off, key_type)) => {
                let ghost n = newest_index(n0.run(si as int), *k)->0;
                proof {
                    lemma_entry_pos(n0.data@, set.data_offset as int, set.end_offset as int, n);
                }
                if key_type == KeyType::Normal {
                    self.data.set(off + 2, 1);
                    proof {
                        n0.lemma_marked(*self, si as int, n);
                    }
                }
                true
            },
            None => false,
        }
    }

    /// What changing the type byte of the entry number `j` of set `si` gives.
    proof fn lemma_marked(self, new: BtreeNode, si: int, j: int)
        requires
            self.wf(),
            self.sets@[0].aux_offset == 0,
            0 <= si < 3,
            0 <= j < self.run(si).len(),
            new.data@ == self.data@.update(
                self.sets@[si].data_offset + total_size(self.run(si).take(j)) + 2,
                1u8,
            ),
            new == (BtreeNode { data: new.data, ..self }),
        ensures
            new.wf(),
            new.run(si) == self.run(si).update(
                j,
                EntryView { key_type: KeyType::Deleted, ..self.run(si)[j] },
            ),
            forall|i: int| 0 <= i < 3 && i != si ==> #[trigger] new.run(i) == self.run(i),
    {
        reveal(BtreeNode::wf);
        let d = self.data@;
        let t = self.sets@[si];
        assert(set_readable(d, self.sets@[0]));
        assert(set_readable(d, self.sets@[1]));
        assert(set_readable(d, self.sets@[2]));
        let b = set_bytes(d, t);
        lemma_retype(b, j);
        let off = total_size(parse(b).take(j));
        assert(set_bytes(new.data@, t) =~= b.update(off + 2, 1u8));
        assert forall|i: int| 0 <= i < 3 && i != si implies #[trigger] new.run(i) == self.run(i)
            && set_readable(new.data@, self.sets@[i]) by {
            lemma_set_frame(d, new.data@, self.sets@[i]);
        }
        assert forall|i: int| 0 <= i < 3 implies set_readable(new.data@, #[trigger] new.sets@[i])
            && new.sets@[i].size == new.run(i).len() by {
            if i != si {
                assert(new.run(i) == self.run(i));
            }
        }
        assert(ordered(new.run(0), false)) by {
            let a = self.run(0);
            let b = new.run(0);
            assert forall|i: int, j: int| 0 <= i < j < b.len() implies !before(
                #[trigger] b[j],
                #[trigger] b[i],
                false,
            ) by {
                assert(!before(a[j], a[i], false));
            }
        }
        assert(new.run(0).len() == self.run(0).len());
        assert(new.run(1).len() == self.run(1).len());
        assert(new.run(2).len() == self.run(2).len());
    }

    /// Turns the newest entry in the slot of `k` into a tombstone where it is
    /// normal; false where there is none. Set 0 must have no aux arrays.
    pub fn mark_entry_deleted_inplace(&mut self, vaddr: u64, sid: u32) -> (r: bool)
        requires
            old(self).wf(),
            old(self).sets@[0].aux_offset == 0,
        ensures
            final(self).wf(),
            final(self).all() == mark_newest(
                old(self).all(),
                BtreeKey { vaddr, snapshot_id: sid, key_type: KeyType::Normal },
            ),
            r == newest_index(
                old(self).all(),
                BtreeKey { vaddr, snapshot_id: sid, key_type: KeyType::Normal },
            ) is Some,
            *final(self) == (BtreeNode { data: final(self).data, ..*old(self) }),
            final(self).data@.len() == old(self).data@.len(),
    {
        let k = BtreeKey::new(vaddr, sid, KeyType::Normal);
        let ghost n0 = *self;
        let ghost ab = n0.run(0) + n0.run(1);
        proof {
            lemma_newest_append(n0.run(0), n0.run(1), k);
            lemma_newest_append(ab, n0.run(2), k);
            lemma_newest_index(n0.run(0), k);
            lemma_newest_index(n0.run(1), k);
            lemma_newest_index(n0.run(2), k);
        }
        if self.mark_in_set(2, &k) {
            assert(self.run(0) == n0.run(0) && self.run(1) == n0.run(1));
            assert(self.all() =~= mark_newest(n0.all(), k));
            return true;
        }
        assert(self.run(2) =~= n0.run(2));
        assert(self.run(0) == n0.run(0) && self.run(1) == n0.run(1));
        if self.mark_in_set(1, &k) {
            assert(self.run(0) == n0.run(0) && self.run(2) == n0.run(2));
            assert(self.all() =~= mark_newest(n0.all(), k));
            return true;
        }
        assert(self.run(1) =~= n0.run(1));
        assert(self.run(0) == n0.run(0) && self.run(2) == n0.run(2));
        let r = self.mark_in_set(0, &k);
        assert(self.run(1) == n0.run(1) && self.run(2) == n0.run(2));
        assert(self.all() =~= mark_newest(n0.all(), k));
        r
    }

    /// Whether tombstones have reached their share of `key_count` keys.
    pub open spec fn compaction_due(key_count: u32, whiteouts: u32) -> bool {
        key_count > 0 && whiteouts >= key_count / WHITEOUT_THRESHOLD_FRACTION
    }

    /// Compacts the node when tombstones have reached their share.
    pub fn maybe_compact(&mut self)
        requires
            old(self).wf(),
        ensures
            final(self).wf(),
            BtreeNode::compaction_due(old(self).key_count, old(self).whiteout_count)
                ==> final(self).holds_compacted(old(self).live()),
            !BtreeNode::compaction_due(old(self).key_count, old(self).whiteout_count)
                ==> *final(self) == *old(self),
            final(self).data@.len() == old(self).data@.len(),
            *final(self) == old(self).with_contents(*final(self)),
    {
        proof {
            reveal(BtreeNode::wf);
        }
        if self.key_count > 0 && self.whiteout_count >= self.key_count
            / WHITEOUT_THRESHOLD_FRACTION {
            self.compact();
        }
    }

    /// The entries of the node after a delete in the slot of `k`: a tombstone
    /// behind them where there is room, else the newest entry itself marked.
    pub open spec fn entries_after_delete(self, k: BtreeKey) -> Seq<EntryView> {
        if self.has_room(32) {
            self.all().push(tombstone(k))
        } else {
            mark_newest(self.all(), k)
        }
    }

    /// One more tombstone; the counter stays at its maximum.
    pub open spec fn one_more_whiteout(self) -> u32 {
        if self.whiteout_count < u32::MAX {
            (self.whiteout_count + 1) as u32
        } else {
            u32::MAX
        }
    }

    /// Whether `new` is this node after `delete_key(k)` found a live entry.
    pub open spec fn deleted(self, new: BtreeNode, k: BtreeKey) -> bool {
        if BtreeNode::compaction_due(self.key_count, self.one_more_whiteout()) {
            new.holds_compacted(live(self.entries_after_delete(k)))
        } else {
            &&& new.all() == self.entries_after_delete(k)
            &&& new.key_count == self.key_count
            &&& new.whiteout_count == self.one_more_whiteout()
            &&& new.sets@ == (if self.has_room(32) {
                self.sets_after_append(32)
            } else {
                self.sets_after_refusal()
            })
            &&& self.has_room(32) ==> wrote(
                self.data@,
                new.data@,
                self.sets_after_append(32)[self.spec_active_inc_set()].end_offset - 32,
                tombstone(k),
            )
        }
    }

    /// Deletes the live entry in the slot of `target`: adds a tombstone, or,
    /// where the node is full, marks the entry in place; then compacts the node
    /// if tombstones have reached their share. False where no entry is live.
    pub fn delete_key(&mut self, target: &BtreeKey) -> (r: bool)
        requires
            old(self).wf(),
        ensures
            final(self).wf(),
            r == old(self).spec_has_live_entry(*target),
            !r ==> *final(self) == *old(self),
            r ==> old(self).deleted(*final(self), *target),
            final(self).data@.len() == old(self).data@.len(),
            *final(self) == old(self).with_contents(*final(self)),
    {
        proof {
            reveal(BtreeNode::wf);
        }
        let ghost n0 = *self;
        let ghost k = BtreeKey { key_type: KeyType::Normal, ..*target };
        proof {
            lemma_newest_slot(n0.all(), k, *target);
        }
        if !self.has_live_entry(target.vaddr, target.snapshot_id) {
            return false;
        }
        let pos = Bpos::from_key(target);
        let none = BchVal::new(0, 0);
        let bytes: Vec<u8> = none.to_bytes();
        proof {
            lemma_extent_size(BtreeKey { key_type: KeyType::Deleted, ..*target }, none);
        }
        if !self.append(&pos, KeyType::Deleted, bytes.as_slice()) {
            let ghost n1 = *self;
            let marked = self.mark_entry_deleted_inplace(target.vaddr, target.snapshot_id);
            assert(self.all() == n0.entries_after_delete(*target));
            assert(marked);
        }
        self.note_whiteout();
        self.maybe_compact();
        true
    }

    /// Counts one more tombstone.
    fn note_whiteout(&mut self)
        requires
            old(self).wf(),
        ensures
            final(self).wf(),
            *final(self) == (BtreeNode {
                whiteout_count: old(self).one_more_whiteout(),
                ..*old(self)
            }),
            final(self).all() == old(self).all(),
    {
        proof {
            reveal(BtreeNode::wf);
        }
        let ghost n0 = *self;
        self.whiteout_count = self.whiteout_count.saturating_add(1);
        proof {
            assert forall|i: int| 0 <= i < 3 implies set_readable(
                self.data@,
                #[trigger] self.sets@[i],
            ) && self.sets@[i].size == self.run(i).len() by {
                assert(set_readable(n0.data@, n0.sets@[i]));
            }
        }
    }

    pub fn bch2_bset_delete(&mut self, target: &BtreeKey) -> (r: bool)
        requires
            old(self).wf(),
        ensures
            final(self).wf(),
            r == old(self).spec_has_live_entry(*target),
            !r ==> *final(self) == *old(self),
            r ==> old(self).deleted(*final(self), *target),
            final(self).data@.len() == old(self).data@.len(),
            *final(self) == old(self).with_contents(*final(self)),
    {
        proof {
            reveal(BtreeNode::wf);
        }
        self.delete_key(target)
    }
}

// ── what writes do to the live entries ──────────────────────────────────

/// What is written last in a slot is what the slot holds; other slots keep
/// what they hold.
pub proof fn lemma_live_after_write(es: Seq<EntryView>, e: EntryView)
    ensures
        not_deleted(e) ==> live(es.push(e)).contains(e),
        forall|x: EntryView| #[trigger]
            live(es.push(e)).contains(x) <==> (x == e && not_deleted(e)) || (live(es).contains(x)
                && !x.key().same_slot(e.key())),
{
    let f = es.push(e);
    lemma_live(es);
    lemma_live(f);
    assert(f.drop_last() =~= es);
    assert forall|x: EntryView| #[trigger] live(f).contains(x) <==> (x == e && not_deleted(e)) || (
    live(es).contains(x) && !x.key().same_slot(e.key())) by {
        assert(live(es).contains(x) <==> last_in(es, x.key()) == Some(x) && not_deleted(x));
    }
    assert(live(f).contains(e) <==> last_in(f, e.key()) == Some(e) && not_deleted(e));
}

/// A tombstone empties its slot and no other.
pub proof fn lemma_live_after_delete(es: Seq<EntryView>, k: BtreeKey)
    ensures
        forall|x: EntryView| #[trigger]
            live(es.push(tombstone(k))).contains(x) <==> live(es).contains(x)
                && !x.key().same_slot(k),
{
    lemma_extent_size(BtreeKey { key_type: KeyType::Deleted, ..k }, BchVal::spec_new(0, 0));
    lemma_live_after_write(es, tombstone(k));
    assert forall|x: EntryView| #[trigger]
        live(es.push(tombstone(k))).contains(x) <==> live(es).contains(x) && !x.key().same_slot(
        k,
    ) by {
        assert(live(es.push(tombstone(k))).contains(x) <==> (x == tombstone(k) && not_deleted(
            tombstone(k),
        )) || (live(es).contains(x) && !x.key().same_slot(tombstone(k).key())));
    }
}

/// After a compaction a search finds the last entry written in a slot, and
/// nothing where that was a tombstone or nothing was written.
pub proof fn lemma_search_after_compact(es: Seq<EntryView>, k: BtreeKey)
    ensures
        first_live(live(es), k) == (match last_in(es, k) {
            Some(e) => if not_deleted(e) {
                Some(e)
            } else {
                None
            },
            None => None,
        }),
{
    lemma_live(es);
    let l = live(es);
    lemma_last_in_slot(es, k);
    match last_in(es, k) {
        Some(e) => {
            lemma_last_in_slot_eq(es, k, e.key());
            if not_deleted(e) {
                assert(l.contains(e));
                let i = choose|i: int| 0 <= i < l.len() && l[i] == e;
                assert forall|j: int| 0 <= j < i implies !((#[trigger] l[j]).key().same_slot(k)
                    && not_deleted(l[j])) by {
                    assert(l[j].key().lt(l[i].key()));
                }
                lemma_first_live_at(l, k, i);
            } else {
                assert forall|j: int| 0 <= j < l.len() implies !((
                #[trigger] l[j]).key().same_slot(k) && not_deleted(l[j])) by {
                    assert(l.contains(l[j]));
                    if l[j].key().same_slot(k) {
                        lemma_last_in_slot_eq(es, k, l[j].key());
                    }
                }
                lemma_first_live_at(l, k, l.len() as int);
            }
        },
        None => {
            assert forall|j: int| 0 <= j < l.len() implies !((#[trigger] l[j]).key().same_slot(k)
                && not_deleted(l[j])) by {
                assert(l.contains(l[j]));
                if l[j].key().same_slot(k) {
                    lemma_last_in_slot_eq(es, k, l[j].key());
                }
            }
            lemma_first_live_at(l, k, l.len() as int);
        },
    }
}

/// What is last in a slot is one of the entries, in that slot.
pub proof fn lemma_last_in_slot(es: Seq<EntryView>, k: BtreeKey)
    ensures
        last_in(es, k) matches Some(e) ==> e.key().same_slot(k) && es.contains(e),
    decreases es.len(),
{
    if es.len() > 0 {
        assert(es.contains(es.last()));
        if !es.last().key().same_slot(k) {
            let f = es.drop_last();
            lemma_last_in_slot(f, k);
            if let Some(e) = last_in(f, k) {
                let j = choose|j: int| 0 <= j < f.len() && f[j] == e;
                assert(es[j] == e);
            }
        }
    }
}

proof fn lemma_last_in_slot_eq(es: Seq<EntryView>, k: BtreeKey, l: BtreeKey)
    requires
        k.same_slot(l),
    ensures
        last_in(es, k) == last_in(es, l),
    decreases es.len(),
{
    if es.len() > 0 {
        lemma_last_in_slot_eq(es.drop_last(), k, l);
    }
}

/// Marking the newest entry of a slot empties that slot and no other, where no
/// whiteout was written last in it.
pub proof fn lemma_live_after_mark(es: Seq<EntryView>, k: BtreeKey)
    requires
        newest_is_normal(es, k),
        !whiteout_last(es, k),
    ensures
        mark_newest(es, k).len() == es.len(),
        forall|x: EntryView| #[trigger]
            live(mark_newest(es, k)).contains(x) <==> live(es).contains(x) && !x.key().same_slot(k),
{
    let i = newest_index(es, k)->0;
    lemma_newest_index(es, k);
    lemma_newest_is_last(es, k);
    let y = EntryView { key_type: KeyType::Deleted, ..es[i] };
    let fs = mark_newest(es, k);
    assert(fs == es.update(i, y));
    lemma_live(es);
    lemma_live(fs);
    assert forall|x: EntryView| #[trigger] live(fs).contains(x) <==> live(es).contains(x)
        && !x.key().same_slot(k) by {
        if x.key().same_slot(k) {
            assert forall|j: int| i < j < fs.len() implies !(#[trigger] fs[j]).key().same_slot(
                x.key(),
            ) by {
                assert(es[j] == fs[j]);
            }
            lemma_last_in_at(fs, x.key(), i);
        } else {
            lemma_last_in_marked(es, i, y, x.key());
        }
    }
}

/// The entry behind which none is in a slot is the last one in it.
pub proof fn lemma_last_in_at(es: Seq<EntryView>, k: BtreeKey, i: int)
    requires
        0 <= i < es.len(),
        es[i].key().same_slot(k),
        forall|j: int| i < j < es.len() ==> !(#[trigger] es[j]).key().same_slot(k),
    ensures
        last_in(es, k) == Some(es[i]),
    decreases es.len(),
{
    if i < es.len() - 1 {
        assert(!es[es.len() - 1].key().same_slot(k));
        let f = es.drop_last();
        assert forall|j: int| i < j < f.len() implies !(#[trigger] f[j]).key().same_slot(k) by {
            assert(f[j] == es[j]);
        }
        lemma_last_in_at(f, k, i);
    }
}

/// An entry that gets another type does not change what is last in other slots.
pub proof fn lemma_last_in_marked(es: Seq<EntryView>, i: int, y: EntryView, q: BtreeKey)
    requires
        0 <= i < es.len(),
        y.key().same_slot(es[i].key()),
        !q.same_slot(es[i].key()),
    ensures
        last_in(es.update(i, y), q) == last_in(es, q),
    decreases es.len(),
{
    let fs = es.update(i, y);
    if i == es.len() - 1 {
        assert(fs.drop_last() =~= es.drop_last());
    } else {
        assert(fs.drop_last() =~= es.drop_last().update(i, y));
        assert(fs.last() == es.last());
        lemma_last_in_marked(es.drop_last(), i, y, q);
    }
}

/// Marking the newest entry of a slot in which a whiteout was written last changes
/// nothing that is live: the whiteout shadows it.
pub proof fn lemma_live_after_shadowed_mark(es: Seq<EntryView>, k: BtreeKey)
    requires
        newest_is_normal(es, k),
        whiteout_last(es, k),
    ensures
        mark_newest(es, k).len() == es.len(),
        forall|x: EntryView| #[trigger]
            live(mark_newest(es, k)).contains(x) <==> live(es).contains(x),
{
    let i = newest_index(es, k)->0;
    lemma_newest_index(es, k);
    let y = EntryView { key_type: KeyType::Deleted, ..es[i] };
    let fs = mark_newest(es, k);
    assert(fs == es.update(i, y));
    lemma_live(es);
    lemma_live(fs);
    assert forall|x: EntryView| #[trigger] live(fs).contains(x) <==> live(es).contains(x) by {
        if x.key().same_slot(k) {
            lemma_last_in_slot_eq(es, k, x.key());
            lemma_last_in_shadowed(es, i, y, x.key());
        } else {
            lemma_last_in_marked(es, i, y, x.key());
        }
    }
}

/// An entry in front of a whiteout that gets another type does not change what
/// is last in the slot.
proof fn lemma_last_in_shadowed(es: Seq<EntryView>, i: int, y: EntryView, q: BtreeKey)
    requires
        0 <= i < es.len(),
        y.key().same_slot(es[i].key()),
        es[i].key_type != KeyType::Whiteout,
        whiteout_last(es, q),
    ensures
        last_in(es.update(i, y), q) == last_in(es, q),
    decreases es.len(),
{
    let fs = es.update(i, y);
    if i == es.len() - 1 {
        assert(fs.drop_last() =~= es.drop_last());
    } else {
        assert(fs.drop_last() =~= es.drop_last().update(i, y));
        assert(fs.last() == es.last());
        if !es.last().key().same_slot(q) {
            lemma_last_in_shadowed(es.drop_last(), i, y, q);
        }
    }
}

/// Where no whiteout was written last in a slot, its newest entry is the last
/// one in it.
pub proof fn lemma_newest_is_last(es: Seq<EntryView>, k: BtreeKey)
    requires
        !whiteout_last(es, k),
    ensures
        newest_is_normal(es, k) <==> (last_in(es, k) matches Some(e) && e.key_type
            == KeyType::Normal),
        newest_index(es, k) matches Some(i) ==> forall|j: int|
            i < j < es.len() ==> !(#[trigger] es[j]).key().same_slot(k),
    decreases es.len(),
{
    if es.len() > 0 && !es.last().key().same_slot(k) {
        let f = es.drop_last();
        lemma_newest_is_last(f, k);
        lemma_newest_index(f, k);
        if let Some(i) = newest_index(es, k) {
            assert(es[i] == f[i]);
            assert forall|j: int| i < j < es.len() implies !(#[trigger] es[j]).key().same_slot(
                k,
            ) by {
                if j < f.len() {
                    assert(es[j] == f[j]);
                }
            }
        }
    }
}

} // verus!
