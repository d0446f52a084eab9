//! What the key cache holds after a write, and what writing it back leaves in a
//! tree that is one leaf.

use crate::btree::Btree;
use crate::engine::BtreeEngine;
use crate::ids::BtreeId;
use crate::key::{Bpos, BtreeEntry, BtreeKey, EntryView, KeyType};
use crate::key_cache::{
    asked, clean_slot, dirty_slots, distinct, flushed, lemma_positions_independent, lemma_slot_for,
    lemma_slot_updated, put_slot, slot_for, wrote, CachedEntry, KeyCache,
};
use crate::laws_engine::{lemma_taken, shown_in};
use crate::overlay::JournalKeys;
use crate::packed::total_size;
use crate::run::last_in;
use vstd::prelude::*;

verus! {

// ── single slots ────────────────────────────────────────────────────────

/// After a slot was put, it is the one for its position, and the others are as
/// they were.
proof fn lemma_put(slots: Seq<CachedEntry>, c: CachedEntry)
    ensures
        slot_for(put_slot(slots, c), c.pos) matches Some(i) && put_slot(slots, c)[i] == c,
{
    match slot_for(slots, c.pos) {
        Some(i) => {
            lemma_slot_updated(slots, i, c);
        },
        None => {},
    }
}

/// After a write the key is found and is to be written to the tree; where there is
/// a journal the slot holds its entry back, unless that is number 0. Nothing else
/// in the cache changes.
pub proof fn lemma_written_cached(
    c: KeyCache,
    new: KeyCache,
    pos: Bpos,
    entry: BtreeEntry,
    seq: u64,
    other: Bpos,
)
    requires
        c.written(new, pos, entry, seq),
        other != pos,
    ensures
        new.slot(pos) matches Some(s) && s.pos == pos && s.entry == entry && s.valid && s.dirty
            && !s.flush_pending && s.pin == (if c.journal && seq > 0 {
            Some(seq)
        } else {
            match c.slot(pos) {
                Some(old) => old.pin,
                None => None,
            }
        }),
        new.spec_find(pos) == Some(entry),
        new.slot(other) == c.slot(other),
        new.spec_find(other) == c.spec_find(other),
        new.slots@.len() == c.slots@.len() + (if c.slot(pos) is None {
            1int
        } else {
            0
        }),
{
    let s = c.slots@;
    lemma_slot_for(s, pos);
    lemma_slot_for(new.slots@, pos);
    let x = new.slot(pos)->0;
    let y = CachedEntry {
        pos,
        entry,
        valid: true,
        dirty: true,
        pin: c.pin_after(
            match c.slot(pos) {
                Some(o) => o.pin,
                None => None,
            },
            seq,
        ),
        flush_pending: false,
    };
    lemma_put(s, y);
    lemma_positions_independent(s, y, other);
    assert(x == y);
}

/// A key that was read from the tree is found, is clean and waits for nothing; a
/// journal entry that a dirty slot held back is let go. Nothing else in the cache
/// changes.
pub proof fn lemma_read_cached(
    c: KeyCache,
    new: KeyCache,
    pos: Bpos,
    entry: BtreeEntry,
    other: Bpos,
)
    requires
        c.inserted(new, pos, entry),
        other != pos,
    ensures
        new.slot(pos) matches Some(s) && s.pos == pos && s.entry == entry && s.valid && !s.dirty
            && !s.flush_pending && s.pin == (match c.slot(pos) {
            Some(old) => if old.dirty {
                None
            } else {
                old.pin
            },
            None => None,
        }),
        new.slot(other) == c.slot(other),
        new.spec_find(other) == c.spec_find(other),
        new.slots@.len() == c.slots@.len() + (if c.slot(pos) is None {
            1int
        } else {
            0
        }),
{
    let s = c.slots@;
    lemma_slot_for(s, pos);
    let y = CachedEntry {
        pos,
        entry,
        valid: true,
        dirty: false,
        pin: match c.slot(pos) {
            Some(o) => if o.dirty {
                None
            } else {
                o.pin
            },
            None => None,
        },
        flush_pending: false,
    };
    lemma_put(s, y);
    lemma_positions_independent(s, y, other);
}

/// A key that was written to the tree stays where it was and is clean; it holds
/// nothing back. What is found does not change anywhere.
pub proof fn lemma_cleaned_cached(c: KeyCache, new: KeyCache, pos: Bpos, other: Bpos)
    requires
        c.cleaned(new, pos),
    ensures
        c.slot(pos) is None ==> new.slot(pos) is None,
        c.slot(pos) matches Some(old) ==> new.slot(pos) == Some(
            CachedEntry {
                dirty: false,
                flush_pending: false,
                pin: if old.dirty {
                    None
                } else {
                    old.pin
                },
                ..old
            },
        ),
        other != pos ==> new.slot(other) == c.slot(other),
        new.spec_find(other) == c.spec_find(other),
        new.slots@.len() == c.slots@.len(),
{
    let s = c.slots@;
    lemma_slot_for(s, pos);
    if let Some(i) = slot_for(s, pos) {
        let y = clean_slot(s, pos)[i];
        assert(clean_slot(s, pos) == put_slot(s, y));
        lemma_put(s, y);
        lemma_slot_updated(s, i, y);
        if other != pos {
            lemma_positions_independent(s, y, other);
        }
    }
}

/// A key that was dropped is not found, whatever it was, and is not to be written;
/// what is cached elsewhere does not change.
pub proof fn lemma_dropped_cached(c: KeyCache, new: KeyCache, pos: Bpos, other: Bpos)
    requires
        c.invalidated(new, pos),
        other != pos,
    ensures
        c.slot(pos) is None ==> new.slot(pos) is None,
        c.slot(pos) matches Some(old) ==> new.slot(pos) == Some(
            CachedEntry {
                valid: false,
                dirty: false,
                flush_pending: false,
                pin: if old.dirty {
                    None
                } else {
                    old.pin
                },
                ..old
            },
        ),
        new.spec_find(pos) is None,
        new.slot(other) == c.slot(other),
        new.spec_find(other) == c.spec_find(other),
        new.slots@.len() == c.slots@.len(),
{
    let s = c.slots@;
    lemma_slot_for(s, pos);
    if let Some(i) = slot_for(s, pos) {
        let y = new.slots@[i];
        assert(new.slots@ == put_slot(s, y));
        lemma_put(s, y);
        lemma_slot_updated(s, i, y);
        lemma_positions_independent(s, y, other);
    }
}

// ── dirty keys ──────────────────────────────────────────────────────────

/// The keys to be written back are the dirty slots, all of them and no others.
pub proof fn lemma_dirty_slots(slots: Seq<CachedEntry>, c: CachedEntry)
    ensures
        dirty_slots(slots).contains(c) <==> slots.contains(c) && c.dirty,
    decreases slots.len(),
{
    if slots.len() > 0 {
        let f = slots.drop_last();
        let x = slots.last();
        lemma_dirty_slots(f, c);
        assert(slots =~= f.push(x));
        crate::laws_gc::lemma_in_push(f, x, c);
        crate::laws_gc::lemma_in_push(dirty_slots(f), x, c);
    }
}

/// They are written in the order of their slots.
pub proof fn lemma_dirty_order(slots: Seq<CachedEntry>, i: int, j: int)
    requires
        0 <= i < j < dirty_slots(slots).len(),
    ensures
        exists|a: int, b: int|
            0 <= a < b < slots.len() && #[trigger] slots[a] == dirty_slots(slots)[i]
                && #[trigger] slots[b] == dirty_slots(slots)[j],
    decreases slots.len(),
{
    let f = slots.drop_last();
    let d = dirty_slots(slots);
    if j < dirty_slots(f).len() {
        lemma_dirty_order(f, i, j);
        let (a, b) = choose|a: int, b: int|
            0 <= a < b < f.len() && #[trigger] f[a] == dirty_slots(f)[i] && #[trigger] f[b]
                == dirty_slots(f)[j];
        assert(slots[a] == f[a] && slots[b] == f[b]);
        assert(slots[a] == d[i] && slots[b] == d[j]);
    } else {
        let x = dirty_slots(f)[i];
        lemma_dirty_slots(f, x);
        assert(dirty_slots(f).contains(x));
        let a = choose|a: int| 0 <= a < f.len() && f[a] == x;
        assert(slots[a] == f[a] && slots[slots.len() - 1] == slots.last());
        assert(slots[a] == d[i] && slots[slots.len() - 1] == d[j]);
    }
}

/// After dirty keys were handed to a writer, just those that it wrote are clean
/// and hold nothing back; the others are as they were. The count is that of the
/// keys written: 0 just if there were none, and all just if none was refused.
#[verifier::rlimit(40)]
pub proof fn lemma_flushed_slots(
    slots: Seq<CachedEntry>,
    done: Seq<(Bpos, BtreeEntry, bool)>,
    j: int,
)
    requires
        distinct(slots),
        forall|i: int|
            0 <= i < done.len() ==> exists|s: int|
                0 <= s < slots.len() && (#[trigger] slots[s]).dirty && slots[s].pos == (
                #[trigger] done[i]).0,
        0 <= j < slots.len(),
    ensures
        flushed(slots, done).len() == slots.len(),
        (exists|i: int|
            0 <= i < done.len() && (#[trigger] done[i]).0 == slots[j].pos && done[i].2) ==> flushed(
            slots,
            done,
        )[j] == (CachedEntry { dirty: false, flush_pending: false, pin: None, ..slots[j] }),
        (forall|i: int|
            0 <= i < done.len() && (#[trigger] done[i]).0 == slots[j].pos ==> !done[i].2)
            ==> flushed(slots, done)[j] == slots[j],
        forall|s: int|
            0 <= s < slots.len() ==> (#[trigger] flushed(slots, done)[s]).pos == slots[s].pos,
        wrote(done) <= done.len(),
        wrote(done) == 0 <==> forall|i: int| 0 <= i < done.len() ==> !(#[trigger] done[i]).2,
        wrote(done) == done.len() <==> forall|i: int| 0 <= i < done.len() ==> (#[trigger] done[i]).2,
    decreases done.len(),
{
    if done.len() > 0 {
        let g = done.drop_last();
        let d = done.last();
        assert(done[done.len() - 1] == d);
        assert forall|i: int| 0 <= i < g.len() implies exists|s: int|
            0 <= s < slots.len() && (#[trigger] slots[s]).dirty && slots[s].pos == (
            #[trigger] g[i]).0 by {
            assert(g[i] == done[i]);
        }
        lemma_flushed_slots(slots, g, j);
        assert forall|i: int| 0 <= i < g.len() implies #[trigger] g[i] == done[i] by {}
        let f = flushed(slots, g);
        if d.2 {
            lemma_slot_for(f, d.0);
            let s = choose|s: int|
                0 <= s < slots.len() && (#[trigger] slots[s]).dirty && slots[s].pos == d.0;
            lemma_flushed_slots(slots, g, s);
            assert(f[s].pos == d.0);
            let k = slot_for(f, d.0)->0;
            assert(f[k].pos == slots[k].pos);
            assert(k == s) by {
                if k < s {
                    assert(slots[k].pos != slots[s].pos);
                } else if s < k {
                    assert(slots[s].pos != slots[k].pos);
                }
            }
            assert(slots[j].pos == d.0 ==> j == s) by {
                if j < s {
                    assert(slots[j].pos != slots[s].pos);
                } else if s < j {
                    assert(slots[s].pos != slots[j].pos);
                }
            }
            if exists|i: int| 0 <= i < g.len() && (#[trigger] g[i]).0 == d.0 && g[i].2 {
                let i = choose|i: int| 0 <= i < g.len() && (#[trigger] g[i]).0 == d.0 && g[i].2;
                assert(f[s] == (CachedEntry { dirty: false, flush_pending: false, pin: None, ..slots[s] }));
            } else {
                assert(f[s] == slots[s]);
            }
        }
        if exists|i: int| 0 <= i < done.len() && (#[trigger] done[i]).0 == slots[j].pos && done[i].2 {
            let i = choose|i: int|
                0 <= i < done.len() && (#[trigger] done[i]).0 == slots[j].pos && done[i].2;
            if i < g.len() {
                assert(g[i] == done[i]);
            }
        }
        if forall|i: int| 0 <= i < done.len() ==> !(#[trigger] done[i]).2 {
            assert(forall|i: int| 0 <= i < g.len() ==> !(#[trigger] g[i]).2);
        }
        if forall|i: int| 0 <= i < done.len() ==> (#[trigger] done[i]).2 {
            assert(forall|i: int| 0 <= i < g.len() ==> (#[trigger] g[i]).2);
        }
        if wrote(done) == 0 {
            assert forall|i: int| 0 <= i < done.len() implies !(#[trigger] done[i]).2 by {
                if i < g.len() {
                    assert(g[i] == done[i]);
                }
            }
        }
        if wrote(done) == done.len() {
            assert forall|i: int| 0 <= i < done.len() implies (#[trigger] done[i]).2 by {
                if i < g.len() {
                    assert(g[i] == done[i]);
                }
            }
        }
    }
}

/// Once everything up to a journal entry was asked for, nothing holds that entry or
/// an earlier one back without being asked for; asking again for no later one
/// changes nothing.
pub proof fn lemma_asked(
    a: Seq<CachedEntry>,
    b: Seq<CachedEntry>,
    c: Seq<CachedEntry>,
    seq: u64,
    again: u64,
    i: int,
)
    requires
        asked(a, b, seq),
        asked(b, c, again),
        again <= seq,
        0 <= i < a.len(),
    ensures
        a[i].pin matches Some(p) && p <= seq ==> b[i].flush_pending,
        a[i].flush_pending ==> b[i].flush_pending,
        b[i].flush_pending && !a[i].flush_pending ==> a[i].pin is Some && a[i].pin->0 <= seq,
        b[i].entry == a[i].entry && b[i].pos == a[i].pos && b[i].dirty == a[i].dirty && b[i].pin
            == a[i].pin && b[i].valid == a[i].valid,
        c == b,
{
    assert(b[i].pin == a[i].pin);
    assert forall|j: int| 0 <= j < b.len() implies c[j] == b[j] by {
        assert(b[j].pin == a[j].pin);
        assert(c[j] == (CachedEntry { flush_pending: c[j].flush_pending, ..b[j] }));
    }
    assert(c =~= b);
}

/// Writers that may go on need not wait; where they have to wait there are more than 3072 keys over
/// what may stay dirty, and with nothing over that writers never have to wait. Once
/// nothing is dirty nobody waits.
pub proof fn lemma_waits(c: KeyCache)
    ensures
        c.wait_done() ==> !c.must_wait(),
        c.must_wait() ==> c.over_limit() > 3072,
        c.over_limit() == 0 ==> c.wait_done(),
        c.nr_dirty == 0 ==> c.wait_done() && c.over_limit() == 0,
        0 <= c.over_limit() <= c.nr_dirty,
        c.over_limit() > 0 ==> 2 * (c.nr_dirty - c.over_limit() - 1024) <= c.nr_keys < 2 * (c.nr_dirty
            - c.over_limit() - 1024) + 2,
{
}

// ── writing back ────────────────────────────────────────────────────────

/// The bytes that the keys of these slots take in a node.
pub open spec fn bytes_of(cs: Seq<CachedEntry>) -> int
    decreases cs.len(),
{
    if cs.len() == 0 {
        0
    } else {
        bytes_of(cs.drop_last()) + cs.last().entry@.u64s() * 8
    }
}

/// What a slot of a run shows where the last entry in it is that of `c`: nothing
/// for a tombstone.
pub open spec fn shown_of(c: CachedEntry) -> Option<EntryView> {
    if c.entry.key_type == KeyType::Deleted {
        None
    } else {
        Some(c.entry@.padded())
    }
}

/// Writing one key back to a leaf that has space for it.
#[verifier::rlimit(40)]
proof fn lemma_key_flushed(t: Btree, new: Btree, c: CachedEntry, seq: u64)
    requires
        t.root.depth == 0,
        t.root.node.wf(),
        t.key_flushed(new, c, seq),
        total_size(t.root.node.all()) + c.entry@.u64s() * 8 <= t.root.node.node_size,
    ensures
        new.root.depth == 0,
        new.root.node.wf(),
        new.root.node.node_size == t.root.node.node_size,
        shown_in(new.root.node.all(), c.entry@.key()) == shown_of(c),
        forall|k: BtreeKey|
            !k.same_slot(c.entry@.key()) ==> #[trigger] shown_in(new.root.node.all(), k)
                == shown_in(t.root.node.all(), k),
        total_size(new.root.node.all()) <= total_size(t.root.node.all()) + c.entry@.u64s() * 8,
        forall|p: Bpos| #[trigger] new.key_cache.spec_find(p) == t.key_cache.spec_find(p),
        forall|p: Bpos| #[trigger]
            new.key_cache.is_dirty(p) == (t.key_cache.is_dirty(p) && p != c.pos),
{
    if t.entry_taken(new, c.entry@, seq, false) {
        lemma_taken(t, new, c.entry@, seq, false);
    } else {
        let mid = choose|mid: Btree| #[trigger]
            t.entry_taken(mid, c.entry@, seq, true) && mid.key_cache == t.key_cache && new
                == (Btree { key_cache: new.key_cache, ..mid }) && t.key_cache.cleaned(
                new.key_cache,
                c.pos,
            );
        lemma_taken(t, mid, c.entry@, seq, true);
        assert forall|p: Bpos| #[trigger] new.key_cache.spec_find(p) == t.key_cache.spec_find(p) by {
            lemma_cleaned_cached(t.key_cache, new.key_cache, c.pos, p);
        }
        assert forall|p: Bpos| #[trigger]
            new.key_cache.is_dirty(p) == (t.key_cache.is_dirty(p) && p != c.pos) by {
            lemma_cleaned_cached(t.key_cache, new.key_cache, c.pos, p);
        }
    }
}

/// Whether writing these keys back to a leaf with space for all of them turned
/// this tree into `new`.
pub open spec fn flushed_with_room(t: Btree, new: Btree, cs: Seq<CachedEntry>, seq: u64) -> bool {
    &&& t.root.depth == 0
    &&& t.root.node.wf()
    &&& t.keys_flushed(new, cs, seq)
    &&& total_size(t.root.node.all()) + bytes_of(cs) <= t.root.node.node_size
}

/// The last step of writing keys back.
proof fn lemma_last_flushed(t: Btree, new: Btree, cs: Seq<CachedEntry>, seq: u64) -> (mid: Btree)
    requires
        flushed_with_room(t, new, cs, seq),
        cs.len() > 0,
    ensures
        flushed_with_room(t, mid, cs.drop_last(), seq),
        mid.key_flushed(new, cs.last(), seq),
{
    let f = cs.drop_last();
    choose|mid: Btree| t.keys_flushed(mid, f, seq) && #[trigger] mid.key_flushed(new, cs.last(), seq)
}

/// Writing keys back keeps the leaf, and what the cache shows.
proof fn lemma_keys_kept(t: Btree, new: Btree, cs: Seq<CachedEntry>, seq: u64)
    requires
        flushed_with_room(t, new, cs, seq),
    ensures
        new.root.depth == 0,
        new.root.node.wf(),
        new.root.node.node_size == t.root.node.node_size,
        total_size(new.root.node.all()) <= total_size(t.root.node.all()) + bytes_of(cs),
        forall|p: Bpos| #[trigger] new.key_cache.spec_find(p) == t.key_cache.spec_find(p),
    decreases cs.len(),
{
    if cs.len() > 0 {
        let mid = lemma_last_flushed(t, new, cs, seq);
        lemma_keys_kept(t, mid, cs.drop_last(), seq);
        lemma_key_flushed(mid, new, cs.last(), seq);
        assert forall|p: Bpos| #[trigger] new.key_cache.spec_find(p) == t.key_cache.spec_find(p) by {
            assert(new.key_cache.spec_find(p) == mid.key_cache.spec_find(p));
        }
    }
}

/// After keys were written back, just those are clean that were, or that are among
/// them.
pub proof fn lemma_keys_clean(t: Btree, new: Btree, cs: Seq<CachedEntry>, seq: u64, p: Bpos)
    requires
        flushed_with_room(t, new, cs, seq),
    ensures
        new.key_cache.is_dirty(p) <==> t.key_cache.is_dirty(p) && forall|i: int|
            0 <= i < cs.len() ==> (#[trigger] cs[i]).pos != p,
    decreases cs.len(),
{
    if cs.len() > 0 {
        let f = cs.drop_last();
        let mid = lemma_last_flushed(t, new, cs, seq);
        lemma_keys_kept(t, mid, f, seq);
        lemma_keys_clean(t, mid, f, seq, p);
        lemma_key_flushed(mid, new, cs.last(), seq);
        assert(new.key_cache.is_dirty(p) == (mid.key_cache.is_dirty(p) && p != cs.last().pos));
        assert(cs[cs.len() - 1] == cs.last());
        if forall|i: int| 0 <= i < f.len() ==> (#[trigger] f[i]).pos != p {
            assert forall|i: int| 0 <= i < cs.len() - 1 implies (#[trigger] cs[i]).pos != p by {
                assert(f[i].pos != p);
            }
        } else {
            let i = choose|i: int| 0 <= i < f.len() && (#[trigger] f[i]).pos == p;
            assert(cs[i].pos == p);
        }
    }
}

/// After keys were written back, a slot in which none of them lies shows what it
/// showed.
pub proof fn lemma_keys_elsewhere(t: Btree, new: Btree, cs: Seq<CachedEntry>, seq: u64, k: BtreeKey)
    requires
        flushed_with_room(t, new, cs, seq),
        forall|i: int| 0 <= i < cs.len() ==> !k.same_slot((#[trigger] cs[i]).entry@.key()),
    ensures
        shown_in(new.root.node.all(), k) == shown_in(t.root.node.all(), k),
    decreases cs.len(),
{
    if cs.len() > 0 {
        let f = cs.drop_last();
        let mid = lemma_last_flushed(t, new, cs, seq);
        assert forall|i: int| 0 <= i < f.len() implies !k.same_slot(
            (#[trigger] f[i]).entry@.key(),
        ) by {
            assert(f[i] == cs[i]);
        }
        lemma_keys_kept(t, mid, f, seq);
        lemma_keys_elsewhere(t, mid, f, seq, k);
        lemma_key_flushed(mid, new, cs.last(), seq);
        assert(!k.same_slot(cs[cs.len() - 1].entry@.key()));
    }
}

/// After keys were written back in order, each slot shows the last of them that
/// lies in it.
#[verifier::rlimit(40)]
pub proof fn lemma_keys_shown(t: Btree, new: Btree, cs: Seq<CachedEntry>, seq: u64, i: int)
    requires
        flushed_with_room(t, new, cs, seq),
        0 <= i < cs.len(),
        forall|j: int|
            i < j < cs.len() ==> !cs[i].entry@.key().same_slot((#[trigger] cs[j]).entry@.key()),
    ensures
        shown_in(new.root.node.all(), cs[i].entry@.key()) == shown_of(cs[i]),
    decreases cs.len(),
{
    let f = cs.drop_last();
    let mid = lemma_last_flushed(t, new, cs, seq);
    lemma_keys_kept(t, mid, f, seq);
    lemma_key_flushed(mid, new, cs.last(), seq);
    if i < f.len() {
        assert(f[i] == cs[i]);
        assert forall|j: int| i < j < f.len() implies !f[i].entry@.key().same_slot(
            (#[trigger] f[j]).entry@.key(),
        ) by {
            assert(f[j] == cs[j]);
        }
        lemma_keys_shown(t, mid, f, seq, i);
        assert(!cs[i].entry@.key().same_slot(cs[cs.len() - 1].entry@.key()));
    }
}

/// After the dirty keys of a tree that is one leaf were written back, with space
/// for all of them, the cache has no dirty key and shows what it showed, and the
/// leaf shows the last of them in every slot.
#[verifier::rlimit(40)]
pub proof fn lemma_flushed_back(t: Btree, new: Btree, seq: u64, p: Bpos)
    requires
        t.root.depth == 0,
        t.root.node.wf(),
        t.keys_flushed(new, dirty_slots(t.key_cache.slots@), seq),
        total_size(t.root.node.all()) + bytes_of(dirty_slots(t.key_cache.slots@))
            <= t.root.node.node_size,
    ensures
        !new.key_cache.is_dirty(p),
        new.key_cache.spec_find(p) == t.key_cache.spec_find(p),
        t.key_cache.slot(p) matches Some(c) ==> c.dirty && (forall|i: int|
            0 <= i < t.key_cache.slots@.len() && (#[trigger] t.key_cache.slots@[i]).dirty
                && t.key_cache.slots@[i].entry@.key().same_slot(c.entry@.key())
                ==> t.key_cache.slots@[i] == c) ==> shown_in(
            new.root.node.all(),
            c.entry@.key(),
        ) == shown_of(c),
{
    let slots = t.key_cache.slots@;
    let cs = dirty_slots(slots);
    lemma_keys_kept(t, new, cs, seq);
    lemma_keys_clean(t, new, cs, seq, p);
    lemma_slot_for(slots, p);
    if t.key_cache.is_dirty(p) {
        let c = t.key_cache.slot(p)->0;
        assert(slots.contains(c));
        lemma_dirty_slots(slots, c);
        assert(cs.contains(c));
        if forall|i: int|
            0 <= i < slots.len() && (#[trigger] slots[i]).dirty && slots[i].entry@.key().same_slot(
                c.entry@.key(),
            ) ==> slots[i] == c {
            lemma_last_of(cs, c);
            let i = choose|i: int|
                0 <= i < cs.len() && cs[i] == c && forall|j: int| i < j < cs.len() ==> #[trigger] cs[j] != c;
            assert forall|j: int| i < j < cs.len() implies !cs[i].entry@.key().same_slot(
                (#[trigger] cs[j]).entry@.key(),
            ) by {
                assert(cs.contains(cs[j]));
                lemma_dirty_slots(slots, cs[j]);
                let s = choose|s: int| 0 <= s < slots.len() && slots[s] == cs[j];
                assert(slots[s].dirty);
            }
            lemma_keys_shown(t, new, cs, seq, i);
        }
        let i = choose|i: int| 0 <= i < cs.len() && cs[i] == c;
        assert(cs[i].pos == p);
    }
}

/// What a sequence holds, it holds at a last place.
proof fn lemma_last_of(cs: Seq<CachedEntry>, c: CachedEntry)
    requires
        cs.contains(c),
    ensures
        exists|i: int|
            0 <= i < cs.len() && #[trigger] cs[i] == c && forall|j: int|
                i < j < cs.len() ==> #[trigger] cs[j] != c,
    decreases cs.len(),
{
    let f = cs.drop_last();
    if cs.last() == c {
        assert(cs[cs.len() - 1] == c);
    } else {
        let k = choose|k: int| 0 <= k < cs.len() && cs[k] == c;
        assert(f[k] == c);
        lemma_last_of(f, c);
        let i = choose|i: int|
            0 <= i < f.len() && #[trigger] f[i] == c && forall|j: int|
                i < j < f.len() ==> #[trigger] f[j] != c;
        assert(cs[i] == c);
        assert forall|j: int| i < j < cs.len() implies #[trigger] cs[j] != c by {
            if j < f.len() {
                assert(f[j] == cs[j]);
            }
        }
    }
}

/// Writing every key cache back cleans that of every tree, whichever it is; the
/// overlay and the subvolumes are as they were.
#[verifier::rlimit(40)]
pub proof fn lemma_caches_flushed(e: BtreeEngine, new: BtreeEngine, seq: u64, ty: BtreeId, p: Bpos)
    requires
        e.wf(),
        e.caches_flushed(new, seq),
        e.tree(ty).root.depth == 0,
        total_size(e.tree(ty).root.node.all()) + bytes_of(
            dirty_slots(e.tree(ty).key_cache.slots@),
        ) <= e.tree(ty).root.node.node_size,
    ensures
        !new.tree(ty).key_cache.is_dirty(p),
        new.tree(ty).key_cache.spec_find(p) == e.tree(ty).key_cache.spec_find(p),
        e.tree(ty).keys_flushed(new.tree(ty), dirty_slots(e.tree(ty).key_cache.slots@), seq),
        new.journal_overlay == e.journal_overlay,
        new.subvol_id_counter == e.subvol_id_counter,
        new.subvol_ino_map == e.subvol_ino_map,
{
    assert(e.trees@[ty.spec_index()] == e.tree(ty));
    lemma_flushed_back(e.tree(ty), new.tree(ty), seq, p);
}

/// The number of dirty keys is 0 just if no slot of any tree is dirty.
pub proof fn lemma_none_dirty(e: BtreeEngine)
    requires
        e.wf(),
    ensures
        e.count_dirty(7) == 0 <==> forall|ty: BtreeId, i: int|
            0 <= i < e.tree(ty).key_cache.slots@.len() ==> !(
            #[trigger] e.tree(ty).key_cache.slots@[i]).dirty,
{
    lemma_none_dirty_before(e, 7);
    if e.count_dirty(7) == 0 {
        assert forall|ty: BtreeId, i: int|
            0 <= i < e.tree(ty).key_cache.slots@.len() implies !(
        #[trigger] e.tree(ty).key_cache.slots@[i]).dirty by {
            let j = ty.spec_index();
            assert(e.trees@[j] == e.tree(ty));
            let c = e.tree(ty).key_cache.slots@[i];
            lemma_dirty_slots(e.tree(ty).key_cache.slots@, c);
            assert(dirty_slots(e.trees@[j].key_cache.slots@).len() == 0);
            assert(e.tree(ty).key_cache.slots@.contains(c));
        }
    }
    if forall|ty: BtreeId, i: int|
        0 <= i < e.tree(ty).key_cache.slots@.len() ==> !(
        #[trigger] e.tree(ty).key_cache.slots@[i]).dirty {
        assert forall|j: int| 0 <= j < 7 implies dirty_slots(
            (#[trigger] e.trees@[j]).key_cache.slots@,
        ).len() == 0 by {
            let ty = BtreeId::spec_from(j)->0;
            assert(ty.spec_index() == j);
            assert(e.tree(ty) == e.trees@[j]);
            let slots = e.trees@[j].key_cache.slots@;
            if dirty_slots(slots).len() > 0 {
                let c = dirty_slots(slots)[0];
                lemma_dirty_slots(slots, c);
                assert(dirty_slots(slots).contains(c));
                let i = choose|i: int| 0 <= i < slots.len() && slots[i] == c;
                assert(!e.tree(ty).key_cache.slots@[i].dirty);
            }
        }
    }
}

proof fn lemma_none_dirty_before(e: BtreeEngine, n: int)
    requires
        0 <= n <= e.trees@.len(),
    ensures
        e.count_dirty(n) >= 0,
        e.count_dirty(n) == 0 <==> forall|j: int|
            0 <= j < n ==> dirty_slots((#[trigger] e.trees@[j]).key_cache.slots@).len() == 0,
    decreases n,
{
    if n > 0 {
        lemma_none_dirty_before(e, n - 1);
    }
}

/// An entry from outside that finds no overlay to collect it goes to its tree,
/// after the dirty keys: a leaf with space for all of them takes it, and shows it
/// in its slot whatever the cache had for it.
#[verifier::rlimit(40)]
pub proof fn lemma_guarded(
    e: BtreeEngine,
    new: BtreeEngine,
    ty: BtreeId,
    entry: BtreeEntry,
    seq: u64,
    r: bool,
)
    requires
        e.wf(),
        e.guarded(new, ty, entry, seq, r),
        match e.journal_overlay {
            Some(o) => !o.active || o.draining,
            None => true,
        },
        e.tree(ty).root.depth == 0,
        total_size(e.tree(ty).root.node.all()) + bytes_of(
            dirty_slots(e.tree(ty).key_cache.slots@),
        ) + entry@.u64s() * 8 <= e.tree(ty).root.node.node_size,
    ensures
        r,
        last_in(new.tree(ty).root.node.all(), entry@.key()) == Some(entry@.padded()),
        new.tree(ty).key_cache.spec_find(entry.pos) is None,
        new.journal_overlay == e.journal_overlay,
{
    let mid = choose|mid: BtreeEngine| #[trigger]
        e.caches_flushed(mid, seq) && mid.raw_inserted(new, ty, entry@, seq, r);
    let t = e.tree(ty);
    assert(e.trees@[ty.spec_index()] == t);
    lemma_keys_kept(t, mid.tree(ty), dirty_slots(t.key_cache.slots@), seq);
    lemma_taken(mid.tree(ty), new.tree(ty), entry@, seq, r);
}

/// An entry from outside that finds an overlay which collects keys goes there and
/// nowhere else: a read of its position gives it, and the trees only have the dirty
/// keys written back.
#[verifier::rlimit(40)]
pub proof fn lemma_guarded_collected(
    e: BtreeEngine,
    new: BtreeEngine,
    ty: BtreeId,
    entry: BtreeEntry,
    seq: u64,
    r: bool,
)
    requires
        e.guarded(new, ty, entry, seq, r),
        e.journal_overlay matches Some(o) && o.active && !o.draining,
    ensures
        r,
        new.overlaid(ty, entry.pos) matches Some(k) && k.entry == entry && k.seq == seq,
        forall|t: BtreeId, p: Bpos|
            !(t == ty && entry.pos.same_slot(p)) ==> #[trigger] new.overlaid(t, p) == e.overlaid(
                t,
                p,
            ),
        exists|mid: BtreeEngine| #[trigger] e.caches_flushed(mid, seq) && new.trees == mid.trees,
{
    let mid = choose|mid: BtreeEngine| #[trigger]
        e.caches_flushed(mid, seq) && new == (BtreeEngine {
            journal_overlay: new.journal_overlay,
            ..mid
        });
    assert(e.caches_flushed(mid, seq) && new.trees == mid.trees);
    let a = e.journal_overlay->0.keys@;
    let b = new.journal_overlay->0.keys@;
    assert(b.drop_last() =~= a);
    assert forall|t: BtreeId, p: Bpos|
        !(t == ty && entry.pos.same_slot(p)) implies #[trigger] new.overlaid(t, p) == e.overlaid(
        t,
        p,
    ) by {
        crate::laws_engine::lemma_last_key(a, t, p);
        assert(JournalKeys::last_key(b, t, p) == JournalKeys::last_key(a, t, p));
    }
}

// ── reads ───────────────────────────────────────────────────────────────

/// A key that was written to the key cache is what a lookup of its position gives,
/// whatever the tree has there, and the lookup changes nothing.
pub proof fn lemma_cached_read(
    t: Btree,
    n: Btree,
    after: Btree,
    pos: Bpos,
    entry: BtreeEntry,
    seq: u64,
    r: Option<BtreeEntry>,
)
    requires
        t.key_cache.written(n.key_cache, pos, entry, seq),
        n.entry_got(after, pos, r),
    ensures
        r matches Some(f) && f.pos == entry.pos && f.key_type == entry.key_type && f@ == entry@,
        after == n,
{
    lemma_written_cached(t.key_cache, n.key_cache, pos, entry, seq, Bpos { inode: if pos.inode == 0 {
        1
    } else {
        0
    }, ..pos });
}

/// What the overlay has for a position: the newest key of that tree at its offset
/// and snapshot, and nothing once it is being written to the trees.
pub proof fn lemma_overlaid(e: BtreeEngine, ty: BtreeId, p: Bpos, i: int)
    ensures
        e.journal_overlay is None ==> e.overlaid(ty, p) is None,
        e.journal_overlay matches Some(o) ==> ({
            &&& o.draining ==> e.overlaid(ty, p) is None
            &&& !o.draining && 0 <= i < o.keys@.len() && o.keys@[i].btree_id == ty
                && o.keys@[i].entry.pos.offset == p.offset && o.keys@[i].entry.pos.snapshot
                == p.snapshot && (forall|j: int|
                i < j < o.keys@.len() ==> !((#[trigger] o.keys@[j]).btree_id == ty
                    && o.keys@[j].entry.pos.offset == p.offset && o.keys@[j].entry.pos.snapshot
                    == p.snapshot)) ==> e.overlaid(ty, p) == Some(o.keys@[i])
            &&& (forall|j: int|
                0 <= j < o.keys@.len() ==> !((#[trigger] o.keys@[j]).btree_id == ty
                    && o.keys@[j].entry.pos.offset == p.offset && o.keys@[j].entry.pos.snapshot
                    == p.snapshot)) ==> e.overlaid(ty, p) is None
        }),
{
    if let Some(o) = e.journal_overlay {
        crate::laws_engine::lemma_last_key(o.keys@, ty, p);
        if let Some(l) = JournalKeys::last_key(o.keys@, ty, p) {
            assert(crate::laws_engine::goes_to(o.keys@[l], ty, p));
            if 0 <= i < o.keys@.len() && l < i {
                assert(!crate::laws_engine::goes_to(o.keys@[i], ty, p));
            }
        } else if 0 <= i < o.keys@.len() {
            assert(!crate::laws_engine::goes_to(o.keys@[i], ty, p));
        }
    }
}

/// Writing the key caches back leaves a tree without dirty keys as it is: a batch
/// then starts from what the tree has.
pub proof fn lemma_clean_tree_kept(e: BtreeEngine, new: BtreeEngine, seq: u64, ty: BtreeId)
    requires
        e.wf(),
        e.caches_flushed(new, seq),
        forall|i: int|
            0 <= i < e.tree(ty).key_cache.slots@.len() ==> !(
            #[trigger] e.tree(ty).key_cache.slots@[i]).dirty,
    ensures
        new.tree(ty) == e.tree(ty),
{
    let slots = e.tree(ty).key_cache.slots@;
    assert(e.trees@[ty.spec_index()] == e.tree(ty));
    if dirty_slots(slots).len() > 0 {
        let c = dirty_slots(slots)[0];
        lemma_dirty_slots(slots, c);
        assert(dirty_slots(slots).contains(c));
        let i = choose|i: int| 0 <= i < slots.len() && slots[i] == c;
        assert(!e.tree(ty).key_cache.slots@[i].dirty);
    }
}

} // verus!
