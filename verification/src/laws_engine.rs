//! What batches and the overlay leave in trees that are one leaf.

use crate::btree::{last_normal, Btree};
use crate::engine::{BatchEntry, BtreeEngine};
use crate::ids::BtreeId;
use crate::key::{BchVal, Bpos, BtreeEntry, BtreeKey, EntryView, KeyType};
use crate::key_cache::{lemma_slot_for, slot_for, KeyCache};
use crate::laws::lemma_last_visited;
use crate::laws_lookup::lemma_entry_got_is;
use crate::node::{drop_aux, free_start, BtreeNode};
use crate::node_compact::lemma_total_live;
use crate::node_delete::{
    lemma_last_in_marked, lemma_last_in_slot, lemma_newest_index, mark_newest, newest_index, tombstone,
};
use crate::node_edit::lemma_extent_size;
use crate::node_split::lemma_wf_same;
use crate::overlay::{JournalKey, JournalKeys};
use crate::packed::{lemma_total_push, total_size};
use crate::run::{last_in, lemma_live, live};
use crate::walk::leaf_rest;
use vstd::prelude::*;

verus! {

/// The last entry in a slot of a run, unless that is a tombstone.
pub open spec fn shown_in(es: Seq<EntryView>, k: BtreeKey) -> Option<EntryView> {
    match last_in(es, k) {
        Some(e) => if e.key_type == KeyType::Deleted {
            None
        } else {
            Some(e)
        },
        None => None,
    }
}

/// A compaction keeps what is shown in every slot.
proof fn lemma_shown_live(es: Seq<EntryView>, k: BtreeKey)
    ensures
        shown_in(live(es), k) == shown_in(es, k),
{
    let l = live(es);
    lemma_live(es);
    lemma_last_in_slot(es, k);
    lemma_last_in_slot(l, k);
    match last_in(es, k) {
        Some(e) => {
            lemma_same_slot_last(es, k, e.key());
            if e.key_type != KeyType::Deleted {
                assert(l.contains(e));
                let i = choose|i: int| 0 <= i < l.len() && l[i] == e;
                crate::laws::lemma_last_in_some(l, k, i);
                let f = last_in(l, k)->0;
                assert(l.contains(f));
                lemma_same_slot_last(es, k, f.key());
            } else if last_in(l, k) is Some {
                let f = last_in(l, k)->0;
                assert(l.contains(f));
                lemma_same_slot_last(es, k, f.key());
            }
        },
        None => {
            if last_in(l, k) is Some {
                let f = last_in(l, k)->0;
                assert(l.contains(f));
                lemma_same_slot_last(es, k, f.key());
            }
        },
    }
}

/// Which entry is last in a slot does not depend on the type of the key.
proof fn lemma_same_slot_last(es: Seq<EntryView>, k: BtreeKey, q: BtreeKey)
    requires
        k.same_slot(q),
    ensures
        last_in(es, k) == last_in(es, q),
    decreases es.len(),
{
    if es.len() > 0 {
        lemma_same_slot_last(es.drop_last(), k, q);
    }
}

/// Adding an entry changes what is shown in its own slot only.
proof fn lemma_shown_push(es: Seq<EntryView>, e: EntryView, k: BtreeKey)
    ensures
        !e.key().same_slot(k) ==> shown_in(es.push(e), k) == shown_in(es, k),
        e.key().same_slot(k) ==> last_in(es.push(e), k) == Some(e),
{
    assert(es.push(e).drop_last() =~= es);
}

/// What a lookup of a position gives in a tree that is one leaf: the last entry in
/// its slot, where that is a normal one at the position.
pub proof fn lemma_leaf_lookup(t: Btree, p: Bpos)
    requires
        t.root.node.wf(),
        t.root.depth == 0,
        last_in(t.root.node.all(), BtreeKey::spec_from_bpos(p, KeyType::Normal)) matches Some(e)
            ==> e.pos == p,
    ensures
        last_normal(t.items(BtreeKey::spec_from_bpos(p, KeyType::Normal)), p) == (match last_in(
            t.root.node.all(),
            BtreeKey::spec_from_bpos(p, KeyType::Normal),
        ) {
            Some(e) => if e.key_type == KeyType::Normal {
                Some(e)
            } else {
                None
            },
            None => None,
        }),
{
    let k = BtreeKey::spec_from_bpos(p, KeyType::Normal);
    let n = t.root.node;
    lemma_last_visited(n, p);
    assert(t.leaf_for(k) == Some(n));
    assert(t.items(k) =~= leaf_rest(Some(n), n.spec_seek(k)));
}

// ── single entries ──────────────────────────────────────────────────────

/// A leaf that took an entry shows it in its slot, and what it showed elsewhere.
#[verifier::rlimit(40)]
proof fn lemma_leaf_grew(node: BtreeNode, n: BtreeNode, e: EntryView)
    requires
        node.wf(),
        node.grown(n, e, false),
    ensures
        n.wf(),
        n.node_size == node.node_size,
        last_in(n.all(), e.key()) == Some(e.padded()),
        forall|k: BtreeKey|
            !k.same_slot(e.key()) ==> #[trigger] shown_in(n.all(), k) == shown_in(node.all(), k),
        total_size(n.all()) <= total_size(node.all()) + e.u64s() * 8,
{
    let all = node.all();
    let size = e.u64s() * 8;
    let f = e.padded();
    lemma_total_live(all);
    assert(f.u64s() == e.u64s());
    let base = if node.has_room(size) {
        all
    } else {
        live(all)
    };
    assert(n.all() == base.push(f)) by {
        if !node.has_room(size) {
            let c = choose|c: BtreeNode| #[trigger]
                node.compacted_to(c) && BtreeNode::takes(c, size, false) && c.added(n, e);
            assert(c.all() == live(all));
        }
    }
    lemma_total_push(base, f);
    lemma_shown_push(base, f, e.key());
    assert forall|k: BtreeKey| !k.same_slot(e.key()) implies #[trigger] shown_in(n.all(), k)
        == shown_in(all, k) by {
        lemma_shown_push(base, f, k);
        lemma_shown_live(all, k);
    }
}

/// A leaf that refused an entry shows what it showed, and has no space for it.
#[verifier::rlimit(80)]
proof fn lemma_leaf_refused(node: BtreeNode, n: BtreeNode, size: int)
    requires
        node.wf(),
        node.full_stripped(n, size),
    ensures
        n.wf(),
        n.node_size == node.node_size,
        forall|k: BtreeKey| #[trigger] shown_in(n.all(), k) == shown_in(node.all(), k),
        total_size(n.all()) <= total_size(node.all()),
        total_size(node.all()) + size > node.node_size,
{
    let all = node.all();
    lemma_total_live(all);
    node.lemma_live_facts();
    let c = choose|c: BtreeNode| #[trigger]
        node.compacted_to(c) && !c.has_room(size) && c.refused(n) && n == c.with_contents(n);
    assert(n.all() == live(all));
    assert forall|k: BtreeKey| #[trigger] shown_in(n.all(), k) == shown_in(all, k) by {
        lemma_shown_live(all, k);
    }
    assert(free_start(drop_aux(c.sets@)) == total_size(live(all))) by {
        crate::record::lemma_total_multiple(live(all));
        assert(c.sets@[0].end_offset == total_size(live(all)));
    }
    assert(free_start(drop_aux(c.sets@)) + size > c.node_size);
}

/// Trying to add an entry to a tree that is one leaf: an entry that was added is
/// the last one in its slot, and every other slot shows what it showed. It is
/// refused only where the entries and the new one do not fit the leaf.
#[verifier::rlimit(40)]
pub proof fn lemma_taken(t: Btree, new: Btree, e: EntryView, seq: u64, r: bool)
    requires
        t.root.depth == 0,
        t.root.node.wf(),
        t.entry_taken(new, e, seq, r),
    ensures
        new.root.depth == 0,
        new.root.node.wf(),
        new.root.node.node_size == t.root.node.node_size,
        r ==> last_in(new.root.node.all(), e.key()) == Some(e.padded()),
        forall|k: BtreeKey|
            !(r && k.same_slot(e.key())) ==> #[trigger] shown_in(new.root.node.all(), k)
                == shown_in(t.root.node.all(), k),
        total_size(new.root.node.all()) <= total_size(t.root.node.all()) + (if r {
            e.u64s() * 8
        } else {
            0
        }),
        total_size(t.root.node.all()) + e.u64s() * 8 <= t.root.node.node_size ==> r,
{
    if r {
        let n = choose|n: BtreeNode| #[trigger] t.entry_added(new, n, e, seq);
        lemma_leaf_grew(t.root.node, n, e);
        lemma_wf_same(n, new.root.node);
    } else {
        lemma_leaf_refused(t.root.node, new.root.node, e.u64s() * 8);
    }
}

/// A position that is not cached is not cached after another one was dropped.
proof fn lemma_uncached_kept(c: KeyCache, new: KeyCache, dropped: Bpos, p: Bpos)
    requires
        c.invalidated(new, dropped),
        c.spec_find(p) is None,
    ensures
        new.spec_find(p) is None,
{
    let s = c.slots@;
    lemma_slot_for(s, dropped);
    lemma_slot_for(s, p);
    lemma_slot_for(new.slots@, p);
    if slot_for(new.slots@, p) is Some {
        let j = slot_for(new.slots@, p)->0;
        assert(new.slots@[j].pos == s[j].pos);
        if slot_for(s, p) is None {
            assert(s[j].pos != p);
        } else {
            let i = slot_for(s, p)->0;
            assert(new.slots@[i].pos == s[i].pos);
            if j < i {
                assert(new.slots@[i].pos != p);
            } else if j > i {
                assert(s[j].pos != p);
            }
        }
    }
}

/// An attempt to add an entry keeps the uncached positions uncached, and an entry
/// that was added is not cached.
proof fn lemma_taken_uncached(t: Btree, new: Btree, e: EntryView, seq: u64, r: bool, p: Bpos)
    requires
        t.entry_taken_dropping(new, e, seq, r),
    ensures
        t.key_cache.spec_find(p) is None ==> new.key_cache.spec_find(p) is None,
        r ==> new.key_cache.spec_find(e.pos) is None,
{
    if r && t.key_cache.spec_find(p) is None {
        lemma_uncached_kept(t.key_cache, new.key_cache, e.pos, p);
    }
}

/// Trying to delete a key from a tree that is one leaf: every slot but that of the
/// key shows what it showed, and the slot of a key that was deleted shows nothing,
/// unless the leaf is full and has a whiteout last in it.
#[verifier::rlimit(40)]
pub proof fn lemma_removed(t: Btree, new: Btree, k: BtreeKey, seq: u64, r: bool)
    requires
        t.root.depth == 0,
        t.root.node.wf(),
        t.was_deleted(new, k, seq, r),
    ensures
        new.root.depth == 0,
        new.root.node.wf(),
        new.root.node.node_size == t.root.node.node_size,
        r ==> t.root.node.can_empty(k) ==> shown_in(new.root.node.all(), k) is None,
        r ==> new.key_cache.spec_find(Bpos::spec_from_key(k)) is None,
        !r ==> new == t,
        forall|q: BtreeKey|
            !(r && q.same_slot(k)) ==> #[trigger] shown_in(new.root.node.all(), q) == shown_in(
                t.root.node.all(),
                q,
            ),
        forall|p: Bpos|
            t.key_cache.spec_find(p) is None ==> #[trigger] new.key_cache.spec_find(p) is None,
{
    if r {
        let mid = choose|mid: Btree| #[trigger]
            t.tree_deleted(mid, k, seq, true) && new == (Btree {
                total_key_count: mid.one_key_less(),
                key_cache: new.key_cache,
                ..mid
            }) && mid.key_cache.invalidated(new.key_cache, Bpos::spec_from_key(k));
        assert(t.tree_deleted(mid, k, seq, true));
        let node = t.root.node;
        let d = choose|d: BtreeNode| #[trigger]
            node.after_delete(d, k) && mid == (Btree {
                root: crate::iter::BtreeRoot {
                    node: (BtreeNode { journal_seq: seq, ..d }),
                    ..t.root
                },
                root_modified: true,
                ..t
            });
        assert(node.after_delete(d, k));
        lemma_wf_same(d, new.root.node);
        let es = node.all();
        let fs = node.entries_after_delete(k);
        lemma_extent_size(BtreeKey { key_type: KeyType::Deleted, ..k }, BchVal::spec_new(0, 0));
        assert forall|q: BtreeKey| !q.same_slot(k) implies #[trigger] shown_in(fs, q) == shown_in(
            es,
            q,
        ) by {
            if node.has_room(32) {
                lemma_shown_push(es, tombstone(k), q);
            } else {
                lemma_newest_index(es, k);
                let i = newest_index(es, k)->0;
                let y = EntryView { key_type: KeyType::Deleted, ..es[i] };
                assert(mark_newest(es, k) == es.update(i, y));
                lemma_last_in_marked(es, i, y, q);
            }
        }
        if node.can_empty(k) {
            if node.has_room(32) {
                lemma_shown_push(es, tombstone(k), k);
            } else {
                crate::node_delete::lemma_newest_is_last(es, k);
                lemma_newest_index(es, k);
                let i = newest_index(es, k)->0;
                let y = EntryView { key_type: KeyType::Deleted, ..es[i] };
                assert(fs == es.update(i, y));
                assert forall|j: int| i < j < fs.len() implies !(#[trigger] fs[j]).key().same_slot(
                    k,
                ) by {
                    assert(fs[j] == es[j]);
                }
                crate::node_delete::lemma_last_in_at(fs, k, i);
            }
        }
        assert(new.root.node.all() == fs || new.root.node.all() == live(fs));
        assert forall|q: BtreeKey| #[trigger] shown_in(new.root.node.all(), q) == shown_in(
            fs,
            q,
        ) by {
            lemma_shown_live(fs, q);
        }
        assert forall|p: Bpos| t.key_cache.spec_find(p) is None implies #[trigger]
            new.key_cache.spec_find(p) is None by {
            lemma_uncached_kept(t.key_cache, new.key_cache, Bpos::spec_from_key(k), p);
        }
    }
}

// ── batches ─────────────────────────────────────────────────────────────

/// The position that an operation of a batch is about.
pub open spec fn op_pos(op: BatchEntry) -> Bpos {
    match op {
        BatchEntry::Insert { pos, data } => pos,
        BatchEntry::Delete { pos } => pos,
    }
}

/// The slot of a position.
pub open spec fn slot_of(p: Bpos) -> BtreeKey {
    BtreeKey { vaddr: p.offset, snapshot_id: p.snapshot, key_type: KeyType::Normal }
}

/// One operation of a batch on a tree that is one leaf shows its data in its slot
/// or empties it, and leaves every other slot, and every other tree, alone.
#[verifier::rlimit(40)]
pub proof fn lemma_batch_step(
    e: BtreeEngine,
    new: BtreeEngine,
    ty: BtreeId,
    op: BatchEntry,
    seq: u64,
    r: bool,
)
    requires
        e.trees@.len() == 7,
        e.tree(ty).root.depth == 0,
        e.tree(ty).root.node.wf(),
        e.batch_step(new, ty, op, seq, r),
    ensures
        new.trees@.len() == 7,
        new.tree(ty).root.depth == 0,
        new.tree(ty).root.node.wf(),
        new.journal_overlay == e.journal_overlay,
        forall|other: BtreeId| other != ty ==> #[trigger] new.tree(other) == e.tree(other),
        r ==> (op matches BatchEntry::Insert { pos, data } ==> last_in(
            new.tree(ty).root.node.all(),
            slot_of(pos),
        ) == Some(EntryView { pos, key_type: KeyType::Normal, value: data@ }.padded())),
        r ==> (op matches BatchEntry::Insert { pos, data } ==> new.tree(ty).key_cache.spec_find(
            pos,
        ) is None),
        r ==> (op matches BatchEntry::Delete { pos } ==> (e.tree(ty).root.node.can_empty(
            slot_of(pos),
        ) ==> shown_in(new.tree(ty).root.node.all(), slot_of(pos)) is None)),
        forall|k: BtreeKey|
            !(r && k.same_slot(slot_of(op_pos(op)))) ==> #[trigger] shown_in(
                new.tree(ty).root.node.all(),
                k,
            ) == shown_in(e.tree(ty).root.node.all(), k),
        forall|p: Bpos|
            e.tree(ty).key_cache.spec_find(p) is None ==> #[trigger] new.tree(
                ty,
            ).key_cache.spec_find(p) is None,
{
    let t = e.tree(ty);
    let n = new.tree(ty);
    assert(e.same_but_tree(new, ty));
    assert forall|other: BtreeId| other != ty implies #[trigger] new.tree(other) == e.tree(
        other,
    ) by {
        crate::engine::lemma_trees_independent(e, new, ty, other);
    }
    match op {
        BatchEntry::Insert { pos, data } => {
            let x = EntryView { pos, key_type: KeyType::Normal, value: data@ };
            assert(t.entry_taken_dropping(n, x, seq, r));
            lemma_taken(t, n, x, seq, r);
            assert(x.key() == slot_of(pos));
            assert forall|p: Bpos| t.key_cache.spec_find(p) is None implies #[trigger]
                n.key_cache.spec_find(p) is None by {
                lemma_taken_uncached(t, n, x, seq, r, p);
            }
            lemma_taken_uncached(t, n, x, seq, r, pos);
        },
        BatchEntry::Delete { pos } => {
            lemma_removed(t, n, slot_of(pos), seq, r);
        },
    }
}

/// What the first operations of a batch leave.
#[verifier::rlimit(40)]
proof fn lemma_batched(e: BtreeEngine, new: BtreeEngine, ty: BtreeId, ops: Seq<(BatchEntry, u64)>)
    requires
        e.trees@.len() == 7,
        e.tree(ty).root.depth == 0,
        e.tree(ty).root.node.wf(),
        e.batched(new, ty, ops, true),
    ensures
        new.trees@.len() == 7,
        new.tree(ty).root.depth == 0,
        new.tree(ty).root.node.wf(),
        new.journal_overlay == e.journal_overlay,
        forall|other: BtreeId| other != ty ==> #[trigger] new.tree(other) == e.tree(other),
        forall|k: BtreeKey|
            (forall|j: int|
                0 <= j < ops.len() ==> !k.same_slot(slot_of(op_pos((#[trigger] ops[j]).0))))
                ==> #[trigger] shown_in(new.tree(ty).root.node.all(), k) == shown_in(
                e.tree(ty).root.node.all(),
                k,
            ),
    decreases ops.len(),
{
    if ops.len() > 0 {
        let f = ops.drop_last();
        let mid = choose|mid: BtreeEngine|
            e.batched(mid, ty, f, true) && #[trigger] mid.batch_step(
                new,
                ty,
                ops.last().0,
                ops.last().1,
                true,
            );
        lemma_batched(e, mid, ty, f);
        lemma_batch_step(mid, new, ty, ops.last().0, ops.last().1, true);
        assert forall|k: BtreeKey|
            (forall|j: int|
                0 <= j < ops.len() ==> !k.same_slot(slot_of(op_pos((#[trigger] ops[j]).0)))) implies
            #[trigger] shown_in(new.tree(ty).root.node.all(), k) == shown_in(
            e.tree(ty).root.node.all(),
            k,
        ) by {
            assert forall|j: int| 0 <= j < f.len() implies !k.same_slot(
                slot_of(op_pos((#[trigger] f[j]).0)),
            ) by {
                assert(f[j] == ops[j]);
            }
            assert(ops[ops.len() - 1] == ops.last());
        }
    }
}

#[verifier::rlimit(80)]
proof fn lemma_batch_kept(
    e: BtreeEngine,
    new: BtreeEngine,
    ty: BtreeId,
    ops: Seq<(BatchEntry, u64)>,
    i: int,
    pos: Bpos,
    data: Vec<u8>,
)
    requires
        e.trees@.len() == 7,
        e.tree(ty).root.depth == 0,
        e.tree(ty).root.node.wf(),
        e.batched(new, ty, ops, true),
        0 <= i < ops.len(),
        ops[i].0 == (BatchEntry::Insert { pos, data }),
        forall|j: int|
            i < j < ops.len() ==> !slot_of(pos).same_slot(slot_of(op_pos((#[trigger] ops[j]).0))),
    ensures
        last_in(new.tree(ty).root.node.all(), slot_of(pos)) == Some(
            EntryView { pos, key_type: KeyType::Normal, value: data@ }.padded(),
        ),
        new.tree(ty).key_cache.spec_find(pos) is None,
    decreases ops.len(),
{
    let f = ops.drop_last();
    let mid = choose|mid: BtreeEngine|
        e.batched(mid, ty, f, true) && #[trigger] mid.batch_step(
            new,
            ty,
            ops.last().0,
            ops.last().1,
            true,
        );
    lemma_batched(e, mid, ty, f);
    lemma_batch_step(mid, new, ty, ops.last().0, ops.last().1, true);
    if i < ops.len() - 1 {
        assert(f[i] == ops[i]);
        assert forall|j: int| i < j < f.len() implies !slot_of(pos).same_slot(
            slot_of(op_pos((#[trigger] f[j]).0)),
        ) by {
            assert(f[j] == ops[j]);
        }
        lemma_batch_kept(e, mid, ty, f, i, pos, data);
        assert(ops[ops.len() - 1] == ops.last());
        let x = EntryView { pos, key_type: KeyType::Normal, value: data@ }.padded();
        assert(shown_in(mid.tree(ty).root.node.all(), slot_of(pos)) == Some(x));
        assert(shown_in(new.tree(ty).root.node.all(), slot_of(pos)) == Some(x));
    }
}

/// After a batch that came through on a tree that is one leaf, a lookup of a
/// position gives the data of the last insert there, byte for byte and padded to
/// whole u64s, if no later operation is about its offset and snapshot.
#[verifier::rlimit(40)]
pub proof fn lemma_batch_read_back(
    e: BtreeEngine,
    new: BtreeEngine,
    ty: BtreeId,
    ops: Seq<(BatchEntry, u64)>,
    i: int,
    pos: Bpos,
    data: Vec<u8>,
    after: Btree,
    r: Option<BtreeEntry>,
)
    requires
        e.wf(),
        e.tree(ty).root.depth == 0,
        e.batched(new, ty, ops, true),
        0 <= i < ops.len(),
        ops[i].0 == (BatchEntry::Insert { pos, data }),
        forall|j: int|
            i < j < ops.len() ==> op_pos((#[trigger] ops[j]).0).offset != pos.offset || op_pos(
                ops[j].0,
            ).snapshot != pos.snapshot,
        new.tree(ty).entry_got(after, pos, r),
    ensures
        last_normal(
            new.tree(ty).items(BtreeKey::spec_from_bpos(pos, KeyType::Normal)),
            pos,
        ) == Some(EntryView { pos, key_type: KeyType::Normal, value: data@ }.padded()),
        r matches Some(f) && f.pos == pos && f.key_type == KeyType::Normal && f@.value.len()
            >= data@.len() && f@.value.take(data@.len() as int) == data@ && (data@.len() % 8 == 0
            ==> f@.value == data@),
{
    assert(crate::engine::tree_ok(e.trees@[ty.spec_index()]));
    lemma_batch_kept(e, new, ty, ops, i, pos, data);
    lemma_batched(e, new, ty, ops);
    let t = new.tree(ty);
    lemma_leaf_lookup(t, pos);
    lemma_entry_got_is(t, after, pos, r);
    let x = EntryView { pos, key_type: KeyType::Normal, value: data@ };
    assert(x.padded().value.take(data@.len() as int) =~= data@);
    if data@.len() % 8 == 0 {
        crate::key::lemma_padded(x);
    }
}

/// A batch changes its own tree only, and there only what its operations are
/// about.
#[verifier::rlimit(40)]
pub proof fn lemma_batch_frame(
    e: BtreeEngine,
    new: BtreeEngine,
    ty: BtreeId,
    ops: Seq<(BatchEntry, u64)>,
    p: Bpos,
)
    requires
        e.wf(),
        e.tree(ty).root.depth == 0,
        e.batched(new, ty, ops, true),
        forall|j: int|
            0 <= j < ops.len() ==> op_pos((#[trigger] ops[j]).0).offset != p.offset || op_pos(
                ops[j].0,
            ).snapshot != p.snapshot,
    ensures
        forall|other: BtreeId| other != ty ==> #[trigger] new.tree(other) == e.tree(other),
        new.journal_overlay == e.journal_overlay,
        shown_in(new.tree(ty).root.node.all(), slot_of(p)) == shown_in(
            e.tree(ty).root.node.all(),
            slot_of(p),
        ),
{
    assert(crate::engine::tree_ok(e.trees@[ty.spec_index()]));
    lemma_batched(e, new, ty, ops);
}

/// A batch that did not come through did its operations up to one that failed,
/// and none behind it.
#[verifier::rlimit(40)]
pub proof fn lemma_batch_stops(
    e: BtreeEngine,
    new: BtreeEngine,
    ty: BtreeId,
    ops: Seq<(BatchEntry, u64)>,
) -> (i: int)
    requires
        e.batched(new, ty, ops, false),
    ensures
        0 <= i < ops.len(),
        exists|mid: BtreeEngine|
            e.batched(mid, ty, ops.take(i), true) && #[trigger] mid.batch_step(
                new,
                ty,
                ops[i].0,
                ops[i].1,
                false,
            ),
    decreases ops.len(),
{
    let f = ops.drop_last();
    if e.batched(new, ty, f, false) {
        let i = lemma_batch_stops(e, new, ty, f);
        assert(f.take(i) =~= ops.take(i));
        assert(f[i] == ops[i]);
        i
    } else {
        let i = ops.len() - 1;
        assert(ops.take(i) =~= f);
        assert(ops[i] == ops.last());
        i
    }
}

// ── the overlay ─────────────────────────────────────────────────────────

/// The bytes that those of the keys take that go to tree `ty`.
pub open spec fn bytes_for(keys: Seq<JournalKey>, ty: BtreeId) -> int
    decreases keys.len(),
{
    if keys.len() == 0 {
        0
    } else {
        bytes_for(keys.drop_last(), ty) + (if keys.last().btree_id == ty {
            keys.last().entry@.u64s() * 8
        } else {
            0
        })
    }
}

/// Whether a key goes to the offset and snapshot of `p` in tree `ty`.
pub open spec fn goes_to(k: JournalKey, ty: BtreeId, p: Bpos) -> bool {
    k.btree_id == ty && k.entry.pos.offset == p.offset && k.entry.pos.snapshot == p.snapshot
}

#[verifier::rlimit(40)]
proof fn lemma_drained(e: BtreeEngine, new: BtreeEngine, keys: Seq<JournalKey>, ty: BtreeId, p: Bpos)
    requires
        e.trees@.len() == 7,
        e.tree(ty).root.depth == 0,
        e.tree(ty).root.node.wf(),
        e.drained(new, keys),
    ensures
        new.trees@.len() == 7,
        new.tree(ty).root.depth == 0,
        new.tree(ty).root.node.wf(),
        new.tree(ty).root.node.node_size == e.tree(ty).root.node.node_size,
        total_size(new.tree(ty).root.node.all()) <= total_size(e.tree(ty).root.node.all())
            + bytes_for(keys, ty),
        (forall|j: int| 0 <= j < keys.len() ==> !goes_to(#[trigger] keys[j], ty, p)) ==> shown_in(
            new.tree(ty).root.node.all(),
            slot_of(p),
        ) == shown_in(e.tree(ty).root.node.all(), slot_of(p)),
        e.tree(ty).key_cache.spec_find(p) is None ==> new.tree(ty).key_cache.spec_find(p) is None,
    decreases keys.len(),
{
    if keys.len() > 0 {
        let k = keys.last();
        let f = keys.drop_last();
        let (mid, r) = choose|mid: BtreeEngine, r: bool|
            e.drained(mid, f) && #[trigger] mid.raw_inserted(new, k.btree_id, k.entry@, k.seq, r);
        lemma_drained(e, mid, f, ty, p);
        if forall|j: int| 0 <= j < keys.len() ==> !goes_to(#[trigger] keys[j], ty, p) {
            assert forall|j: int| 0 <= j < f.len() implies !goes_to(#[trigger] f[j], ty, p) by {
                assert(f[j] == keys[j]);
            }
            assert(!goes_to(keys[keys.len() - 1], ty, p));
        }
        if k.btree_id == ty {
            lemma_taken(mid.tree(ty), new.tree(ty), k.entry@, k.seq, r);
            lemma_taken_uncached(mid.tree(ty), new.tree(ty), k.entry@, k.seq, r, p);
        } else {
            crate::engine::lemma_trees_independent(mid, new, k.btree_id, ty);
        }
    }
}

#[verifier::rlimit(80)]
proof fn lemma_drain_kept(
    e: BtreeEngine,
    new: BtreeEngine,
    keys: Seq<JournalKey>,
    ty: BtreeId,
    i: int,
)
    requires
        e.trees@.len() == 7,
        e.tree(ty).root.depth == 0,
        e.tree(ty).root.node.wf(),
        e.drained(new, keys),
        total_size(e.tree(ty).root.node.all()) + bytes_for(keys, ty)
            <= e.tree(ty).root.node.node_size,
        0 <= i < keys.len(),
        keys[i].btree_id == ty,
        forall|j: int| i < j < keys.len() ==> !goes_to(#[trigger] keys[j], ty, keys[i].entry.pos),
    ensures
        shown_in(new.tree(ty).root.node.all(), slot_of(keys[i].entry.pos)) == (
        if keys[i].entry.key_type == KeyType::Deleted {
            None
        } else {
            Some(keys[i].entry@.padded())
        }),
        new.tree(ty).key_cache.spec_find(keys[i].entry.pos) is None,
    decreases keys.len(),
{
    let k = keys.last();
    let f = keys.drop_last();
    let p = keys[i].entry.pos;
    let (mid, r) = choose|mid: BtreeEngine, r: bool|
        e.drained(mid, f) && #[trigger] mid.raw_inserted(new, k.btree_id, k.entry@, k.seq, r);
    lemma_drained(e, mid, f, ty, p);
    let a = mid.tree(ty);
    let b = new.tree(ty);
    if i < keys.len() - 1 {
        assert(f[i] == keys[i]);
        assert forall|j: int| i < j < f.len() implies !goes_to(#[trigger] f[j], ty, p) by {
            assert(f[j] == keys[j]);
        }
        lemma_drain_kept(e, mid, f, ty, i);
        assert(!goes_to(keys[keys.len() - 1], ty, p));
        if k.btree_id == ty {
            lemma_taken(a, b, k.entry@, k.seq, r);
            lemma_taken_uncached(a, b, k.entry@, k.seq, r, p);
            assert(!slot_of(p).same_slot(k.entry@.key()));
            assert(shown_in(b.root.node.all(), slot_of(p)) == shown_in(
                a.root.node.all(),
                slot_of(p),
            ));
        } else {
            crate::engine::lemma_trees_independent(mid, new, k.btree_id, ty);
        }
    } else {
        lemma_taken(a, b, k.entry@, k.seq, r);
        lemma_taken_uncached(a, b, k.entry@, k.seq, r, p);
        assert(r);
        lemma_same_slot_last(b.root.node.all(), slot_of(p), k.entry@.key());
    }
}

/// The key that the overlay shows for a position is the last one that was written
/// to its offset and snapshot in the tree; none where none was.
pub proof fn lemma_last_key(keys: Seq<JournalKey>, ty: BtreeId, p: Bpos)
    ensures
        match JournalKeys::last_key(keys, ty, p) {
            Some(i) => 0 <= i < keys.len() && goes_to(keys[i], ty, p) && forall|j: int|
                i < j < keys.len() ==> !goes_to(#[trigger] keys[j], ty, p),
            None => forall|j: int| 0 <= j < keys.len() ==> !goes_to(#[trigger] keys[j], ty, p),
        },
    decreases keys.len(),
{
    if keys.len() > 0 && !goes_to(keys.last(), ty, p) {
        let f = keys.drop_last();
        lemma_last_key(f, ty, p);
        let lo = match JournalKeys::last_key(f, ty, p) {
            Some(i) => i,
            None => -1,
        };
        assert forall|j: int| lo < j < keys.len() implies !goes_to(#[trigger] keys[j], ty, p) by {
            if j < f.len() {
                assert(f[j] == keys[j]);
            }
        }
    }
}

/// After the overlay was drained into a tree that is one leaf with space for its
/// keys, a lookup of a position gives what the overlay showed there before: the
/// last write. A whiteout or a tombstone there leaves nothing to find.
#[verifier::rlimit(40)]
pub proof fn lemma_drain_read_back(
    e: BtreeEngine,
    new: BtreeEngine,
    o: JournalKeys,
    ty: BtreeId,
    pos: Bpos,
    k: JournalKey,
    after: Btree,
    r: Option<BtreeEntry>,
)
    requires
        e.wf(),
        e.tree(ty).root.depth == 0,
        total_size(e.tree(ty).root.node.all()) + bytes_for(o.keys@, ty)
            <= e.tree(ty).root.node.node_size,
        e.drained(new, o.keys@),
        o.spec_lookup(ty, pos) == Some(k),
        k.entry.pos == pos,
        new.tree(ty).entry_got(after, pos, r),
    ensures
        k.entry.key_type == KeyType::Normal ==> last_normal(
            new.tree(ty).items(BtreeKey::spec_from_bpos(pos, KeyType::Normal)),
            pos,
        ) == Some(k.entry@.padded()),
        k.entry.key_type == KeyType::Normal ==> (r matches Some(f) && f@ == k.entry@.padded()),
        k.entry.key_type != KeyType::Normal && last_in(
            new.tree(ty).root.node.all(),
            slot_of(pos),
        ) is Some ==> (last_in(new.tree(ty).root.node.all(), slot_of(pos))->0.pos == pos ==> r is None),
        shown_in(new.tree(ty).root.node.all(), slot_of(pos)) == (if k.entry.key_type
            == KeyType::Deleted {
            None
        } else {
            Some(k.entry@.padded())
        }),
{
    let keys = o.keys@;
    assert(crate::engine::tree_ok(e.trees@[ty.spec_index()]));
    lemma_last_key(keys, ty, pos);
    let i = JournalKeys::last_key(keys, ty, pos)->0;
    lemma_drain_kept(e, new, keys, ty, i);
    lemma_drained(e, new, keys, ty, pos);
    let t = new.tree(ty);
    lemma_entry_got_is(t, after, pos, r);
    if last_in(t.root.node.all(), slot_of(pos)) matches Some(x) ==> x.pos == pos {
        lemma_leaf_lookup(t, pos);
    }
}

/// A drain leaves every position alone that the overlay has no key for.
#[verifier::rlimit(40)]
pub proof fn lemma_drain_frame(
    e: BtreeEngine,
    new: BtreeEngine,
    o: JournalKeys,
    ty: BtreeId,
    pos: Bpos,
)
    requires
        e.wf(),
        e.tree(ty).root.depth == 0,
        e.drained(new, o.keys@),
        o.spec_lookup(ty, pos) is None,
    ensures
        shown_in(new.tree(ty).root.node.all(), slot_of(pos)) == shown_in(
            e.tree(ty).root.node.all(),
            slot_of(pos),
        ),
{
    assert(crate::engine::tree_ok(e.trees@[ty.spec_index()]));
    lemma_last_key(o.keys@, ty, pos);
    lemma_drained(e, new, o.keys@, ty, pos);
}

} // verus!
