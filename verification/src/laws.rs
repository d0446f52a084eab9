//! What reads give back of writes.

use crate::btree::{last_normal, Btree};
use crate::key::{BchVal, Bpos, BtreeKey, EntryView, KeyType};
use crate::node::BtreeNode;
use crate::node_compact::lemma_compact_idempotent;
use crate::node_delete::{
    lemma_live_after_delete, lemma_live_after_mark, lemma_live_after_shadowed_mark, tombstone,
    whiteout_last,
};
use crate::node_read::as_extent;
use crate::run::{last_in, lemma_live, lemma_lower_bound_range, live, lower_bound, not_deleted};
use crate::seek::least_from;
use crate::sort::before;
use crate::walk::leaf_rest;
use vstd::prelude::*;

verus! {

/// What a lookup of `k` finds in a leaf: the last entry in its slot, if it has
/// that very key.
pub open spec fn leaf_find(n: BtreeNode, k: BtreeKey) -> Option<EntryView> {
    match last_in(n.all(), k) {
        Some(e) => if e.key() == k {
            Some(e)
        } else {
            None
        },
        None => None,
    }
}

/// A lookup of a key that is no tombstone finds the live entry under it.
pub proof fn lemma_find_live(n: BtreeNode, k: BtreeKey)
    requires
        k.key_type != KeyType::Deleted,
    ensures
        forall|e: EntryView| #[trigger]
            n.live().contains(e) && e.key() == k ==> leaf_find(n, k) == Some(e),
        leaf_find(n, k) matches Some(e) ==> n.live().contains(e) && e.key() == k,
{
    lemma_live(n.all());
    assert forall|e: EntryView| #[trigger] n.live().contains(e) && e.key() == k implies leaf_find(
        n,
        k,
    ) == Some(e) by {
        assert(live(n.all()).contains(e));
    }
    if let Some(e) = leaf_find(n, k) {
        assert(not_deleted(e));
        assert(live(n.all()).contains(e));
    }
}

/// Whatever way an extent was added to a leaf, a lookup of its key finds it, and
/// a lookup of a key in another slot finds what it found before.
pub proof fn lemma_find_after_grow(
    n: BtreeNode,
    new: BtreeNode,
    k: BtreeKey,
    v: BchVal,
    keep_aux: bool,
    other: BtreeKey,
)
    requires
        n.wf(),
        n.grown(new, EntryView::extent(k, v), keep_aux),
        k.key_type != KeyType::Deleted,
        other.key_type != KeyType::Deleted,
        !other.same_slot(k),
    ensures
        leaf_find(new, k) == Some(EntryView::extent(k, v)),
        leaf_find(new, other) == leaf_find(n, other),
{
    let e = EntryView::extent(k, v);
    crate::node_edit::lemma_extent_size(k, v);
    n.lemma_grown(new, e, keep_aux);
    lemma_find_live(n, other);
    lemma_find_live(new, other);
    lemma_find_live(new, k);
    assert(not_deleted(e));
    assert(new.live().contains(e));
    if let Some(x) = leaf_find(n, other) {
        assert(new.live().contains(x));
    }
    if let Some(x) = leaf_find(new, other) {
        assert(n.live().contains(x));
    }
}

/// After a delete a lookup finds nothing in the slot, where that can be emptied,
/// and otherwise what it found before.
pub proof fn lemma_find_after_delete(n: BtreeNode, new: BtreeNode, k: BtreeKey, other: BtreeKey)
    requires
        n.after_delete(new, k),
        n.spec_has_live_entry(k),
        other.key_type != KeyType::Deleted,
    ensures
        leaf_find(new, other) == (if other.same_slot(k) && n.can_empty(k) {
            None
        } else {
            leaf_find(n, other)
        }),
{
    let es = n.all();
    let fs = n.entries_after_delete(k);
    if n.has_room(32) {
        lemma_live_after_delete(es, k);
    } else if whiteout_last(es, k) {
        lemma_live_after_shadowed_mark(es, k);
    } else {
        lemma_live_after_mark(es, k);
    }
    lemma_compact_idempotent(fs);
    assert(new.live() == live(fs));
    lemma_find_live(n, other);
    lemma_find_live(new, other);
    if let Some(x) = leaf_find(n, other) {
        if !(other.same_slot(k) && n.can_empty(k)) {
            assert(new.live().contains(x));
        }
    }
    if let Some(x) = leaf_find(new, other) {
        assert(n.live().contains(x));
    }
}

impl Btree {
    /// The leaf for `k`.
    pub open spec fn leaf_for(self, k: BtreeKey) -> Option<BtreeNode> {
        crate::walk::descent_node(self.nodes(), self.root.node, k, self.root.depth as int)
    }

    /// What a lookup in the tree gives is what it finds in the leaf.
    pub proof fn lemma_get_in_leaf(self, k: BtreeKey)
        ensures
            self.tree_get(k) == (match self.leaf_for(k) {
                Some(n) => match leaf_find(n, k) {
                    Some(e) => Some(as_extent(e)),
                    None => None,
                },
                None => None,
            }),
    {
    }
}

/// An extent entry reads as the key and value that it was made of.
pub proof fn lemma_extent_reads(k: BtreeKey, v: BchVal)
    requires
        v == BchVal::spec_new(v.paddr.addr, v.ver),
    ensures
        as_extent(EntryView::extent(k, v)) == (k, v),
{
    crate::key::lemma_bch_val_roundtrip(v);
}

// ── lookups by position ─────────────────────────────────────────────────

/// The entry that `least_from` picks.
pub proof fn lemma_least_from(es: Seq<EntryView>, t: BtreeKey)
    ensures
        match least_from(es, t) {
            Some(i) => 0 <= i < es.len() && !es[i].key().lt(t) && forall|j: int|
                0 <= j < es.len() && !(#[trigger] es[j]).key().lt(t) ==> !es[j].key().lt(
                    es[i].key(),
                ),
            None => forall|j: int| 0 <= j < es.len() ==> (#[trigger] es[j]).key().lt(t),
        },
    decreases es.len(),
{
    if es.len() > 0 {
        let f = es.drop_last();
        lemma_least_from(f, t);
        let b = least_from(f, t);
        match least_from(es, t) {
            Some(i) => {
                assert forall|j: int|
                    0 <= j < es.len() && !(#[trigger] es[j]).key().lt(t) implies !es[j].key().lt(
                    es[i].key(),
                ) by {
                    if j < f.len() {
                        assert(f[j] == es[j]);
                    }
                }
            },
            None => {
                assert forall|j: int| 0 <= j < es.len() implies (#[trigger] es[j]).key().lt(t) by {
                    if j < f.len() {
                        assert(f[j] == es[j]);
                    }
                }
            },
        }
    }
}

/// The number that a lookup starts at is that of an entry whose key does not
/// come before the one looked for.
pub proof fn lemma_best_place(n: BtreeNode, t: BtreeKey)
    ensures
        match n.best_place(t) {
            Some((k, i)) => 1 <= i <= n.all().len() && n.all()[i - 1].key() == k && !k.lt(t),
            None => forall|j: int| 0 <= j < n.all().len() ==> (#[trigger] n.all()[j]).key().lt(t),
        },
{
    let a = n.run(0);
    let b = n.run(1);
    let c = n.run(2);
    lemma_lower_bound_range(a, t);
    lemma_least_from(b, t);
    lemma_least_from(c, t);
    let all = n.all();
    assert forall|j: int| 0 <= j < all.len() implies #[trigger] all[j] == (if j < a.len() {
        a[j]
    } else if j < a.len() + b.len() {
        b[j - a.len()]
    } else {
        c[j - a.len() - b.len()]
    }) by {}
}

/// A walk that looks for `k` does not start behind the last entry in its slot.
pub proof fn lemma_seek_before_last(n: BtreeNode, k: BtreeKey, i: int)
    requires
        n.wf(),
        0 <= i < n.all().len(),
        n.all()[i].key().same_slot(k),
        forall|j: int| i < j < n.all().len() ==> !(#[trigger] n.all()[j]).key().same_slot(k),
    ensures
        1 <= n.spec_seek(k) <= i + 1,
{
    let a = n.run(0);
    let b = n.run(1);
    let c = n.run(2);
    let all = n.all();
    lemma_lower_bound_range(a, k);
    lemma_least_from(b, k);
    lemma_least_from(c, k);
    lemma_best_place(n, k);
    assert forall|j: int| 0 <= j < all.len() implies #[trigger] all[j] == (if j < a.len() {
        a[j]
    } else if j < a.len() + b.len() {
        b[j - a.len()]
    } else {
        c[j - a.len() - b.len()]
    }) by {}
    if k != BtreeKey::spec_min_key() {
        let s = n.spec_seek(k);
        if i < a.len() {
            let l = lower_bound(a, k);
            assert(a[i].key().same_slot(k));
            assert(l <= i);
            reveal(BtreeNode::wf);
            assert(l < i ==> !before(a[i], a[l], false));
            assert(all[l] == a[l]);
        } else if i < a.len() + b.len() {
            assert(b[i - a.len()].key().same_slot(k));
        } else {
            assert(c[i - a.len() - b.len()].key().same_slot(k));
        }
        match n.best_place(k) {
            Some((bk, p)) => {
                assert(bk.same_slot(k));
                assert(all[p - 1].key().same_slot(k));
                if p - 1 > i {
                    assert(!all[p - 1].key().same_slot(k));
                }
            },
            None => {
                assert(all[i].key().lt(k));
            },
        }
    }
}

/// What is visited last at a position is the last entry in its slot, if that is
/// at the position.
pub proof fn lemma_last_visited(n: BtreeNode, p: Bpos)
    requires
        n.wf(),
        last_in(n.all(), BtreeKey::spec_from_bpos(p, KeyType::Normal)) matches Some(e) ==> e.pos
            == p,
    ensures
        ({
            let k = BtreeKey::spec_from_bpos(p, KeyType::Normal);
            last_normal(leaf_rest(Some(n), n.spec_seek(k)), p) == (match last_in(n.all(), k) {
                Some(e) => if e.key_type == KeyType::Normal {
                    Some(e)
                } else {
                    None
                },
                None => None,
            })
        }),
{
    let k = BtreeKey::spec_from_bpos(p, KeyType::Normal);
    let all = n.all();
    let s = n.spec_seek(k);
    let rest = leaf_rest(Some(n), s);
    match last_in(all, k) {
        Some(e) => {
            let i = lemma_last_in_index(all, k);
            lemma_seek_before_last(n, k, i);
            assert(rest[i - (s - 1)] == e);
            assert forall|j: int| i - (s - 1) < j < rest.len() implies (#[trigger] rest[j]).pos
                != p by {
                assert(rest[j] == all[j + s - 1]);
                assert(!all[j + s - 1].key().same_slot(k));
            }
            lemma_last_normal_at(rest, p, i - (s - 1));
        },
        None => {
            assert forall|j: int| 0 <= j < rest.len() implies (#[trigger] rest[j]).pos != p by {
                assert(rest[j] == all[j + s - 1]);
                if all[j + s - 1].key().same_slot(k) {
                    lemma_last_in_some(all, k, j + s - 1);
                }
            }
            lemma_last_normal_none(rest, p);
        },
    }
}

/// The number of the last entry in a slot.
pub proof fn lemma_last_in_index(es: Seq<EntryView>, k: BtreeKey) -> (i: int)
    requires
        last_in(es, k) is Some,
    ensures
        0 <= i < es.len(),
        last_in(es, k) == Some(es[i]),
        es[i].key().same_slot(k),
        forall|j: int| i < j < es.len() ==> !(#[trigger] es[j]).key().same_slot(k),
    decreases es.len(),
{
    if es.last().key().same_slot(k) {
        es.len() - 1
    } else {
        let f = es.drop_last();
        let i = lemma_last_in_index(f, k);
        assert forall|j: int| i < j < es.len() implies !(#[trigger] es[j]).key().same_slot(k) by {
            if j < f.len() {
                assert(f[j] == es[j]);
            }
        }
        i
    }
}

/// A slot with an entry has a last one.
pub proof fn lemma_last_in_some(es: Seq<EntryView>, k: BtreeKey, i: int)
    requires
        0 <= i < es.len(),
        es[i].key().same_slot(k),
    ensures
        last_in(es, k) is Some,
    decreases es.len(),
{
    if i < es.len() - 1 {
        assert(es.drop_last()[i] == es[i]);
        lemma_last_in_some(es.drop_last(), k, i);
    }
}

proof fn lemma_last_normal_at(es: Seq<EntryView>, p: Bpos, i: int)
    requires
        0 <= i < es.len(),
        es[i].pos == p,
        forall|j: int| i < j < es.len() ==> (#[trigger] es[j]).pos != p,
    ensures
        last_normal(es, p) == (if es[i].key_type == KeyType::Normal {
            Some(es[i])
        } else {
            None
        }),
    decreases es.len(),
{
    if i < es.len() - 1 {
        assert(es[es.len() - 1].pos != p);
        let f = es.drop_last();
        assert forall|j: int| i < j < f.len() implies (#[trigger] f[j]).pos != p by {
            assert(f[j] == es[j]);
        }
        lemma_last_normal_at(f, p, i);
    }
}

proof fn lemma_last_normal_none(es: Seq<EntryView>, p: Bpos)
    requires
        forall|j: int| 0 <= j < es.len() ==> (#[trigger] es[j]).pos != p,
    ensures
        last_normal(es, p) is None,
    decreases es.len(),
{
    if es.len() > 0 {
        assert(es[es.len() - 1].pos != p);
        let f = es.drop_last();
        assert forall|j: int| 0 <= j < f.len() implies (#[trigger] f[j]).pos != p by {
            assert(f[j] == es[j]);
        }
        lemma_last_normal_none(f, p);
    }
}

/// An entry that was added to a tree that is one leaf is what a lookup of its
/// position gives back, whatever was there before, tombstones included.
pub proof fn lemma_entry_after_insert(t: Btree, new: Btree, e: EntryView, seq: u64)
    requires
        t.entry_taken_dropping(new, e, seq, true),
        t.root.depth == 0,
        e.key_type == KeyType::Normal,
    ensures
        last_normal(
            new.items(BtreeKey::spec_from_bpos(e.pos, KeyType::Normal)),
            e.pos,
        ) == Some(e.padded()),
        new.key_cache.spec_find(e.pos) is None,
{
    let k = BtreeKey::spec_from_bpos(e.pos, KeyType::Normal);
    let n = choose|n: BtreeNode| #[trigger] t.entry_added(new, n, e, seq);
    let node = t.root.node;
    let size = e.u64s() * 8;
    if node.has_room(size) {
        assert(n.all() == node.all().push(e.padded()));
    } else {
        let c = choose|c: BtreeNode| #[trigger]
            node.compacted_to(c) && BtreeNode::takes(c, size, false) && c.added(n, e);
        assert(n.all() == c.all().push(e.padded()));
    }
    crate::node_split::lemma_wf_same(n, new.root.node);
    let r = new.root.node;
    assert(r.all().last() == e.padded());
    lemma_last_visited(r, e.pos);
    assert(new.leaf_for(k) == Some(r));
    assert(new.items(k) =~= leaf_rest(Some(r), r.spec_seek(k)));
}

} // verus!
