//! What lookups through the key cache give.

use crate::btree::{last_any, last_normal, leaf_reads, Btree};
use crate::key::{BchVal, Bpos, BtreeEntry, BtreeKey, EntryView, KeyType, KeyValue};
use crate::key_cache::lemma_insert_cached;
use crate::laws::lemma_entry_after_insert;
use vstd::prelude::*;

verus! {

/// Whether the entry number `i` is the last one of a run at a position.
pub open spec fn last_at(items: Seq<EntryView>, pos: Bpos, i: int) -> bool {
    &&& 0 <= i < items.len()
    &&& items[i].pos == pos
    &&& forall|j: int| i < j < items.len() ==> (#[trigger] items[j]).pos != pos
}

/// What is found at a position is the last entry that a walk visits there; a
/// lookup takes it for nothing where it is a tombstone or a whiteout.
pub proof fn lemma_last_found(items: Seq<EntryView>, pos: Bpos)
    ensures
        forall|i: int| #[trigger]
            last_at(items, pos, i) ==> last_any(items, pos) == Some(items[i]) && last_normal(
                items,
                pos,
            ) == (if items[i].key_type == KeyType::Normal {
                Some(items[i])
            } else {
                None
            }),
        (forall|i: int| 0 <= i < items.len() ==> (#[trigger] items[i]).pos != pos) ==> last_any(
            items,
            pos,
        ) is None && last_normal(items, pos) is None,
        last_any(items, pos) is Some ==> exists|i: int| #[trigger] last_at(items, pos, i),
        last_normal(items, pos) is Some ==> exists|i: int| #[trigger] last_at(items, pos, i),
    decreases items.len(),
{
    if items.len() > 0 {
        let n = items.len() - 1;
        if items.last().pos == pos {
            assert(last_at(items, pos, n));
            assert forall|i: int| #[trigger] last_at(items, pos, i) implies i == n by {
                if i < n {
                    assert(items[n].pos != pos);
                }
            }
        } else {
            let f = items.drop_last();
            lemma_last_found(f, pos);
            assert forall|i: int| #[trigger] last_at(items, pos, i) implies last_at(f, pos, i) by {
                assert(items[i] == f[i]);
            }
            assert forall|i: int| #[trigger] last_at(f, pos, i) implies last_at(items, pos, i) by {
                assert(items[i] == f[i]);
                assert forall|j: int| i < j < items.len() implies (#[trigger] items[j]).pos
                    != pos by {
                    if j < n {
                        assert(f[j] == items[j]);
                    }
                }
            }
            if forall|i: int| 0 <= i < items.len() ==> (#[trigger] items[i]).pos != pos {
                assert forall|i: int| 0 <= i < f.len() implies (#[trigger] f[i]).pos != pos by {
                    assert(f[i] == items[i]);
                }
            }
        }
    }
}

/// Looking a position up twice gives the same entry: what the first lookup found
/// is what the key cache has from then on. Neither lookup changes the tree, nor
/// what is cached at any other position.
#[verifier::rlimit(40)]
pub proof fn lemma_entry_got_twice(
    t: Btree,
    mid: Btree,
    new: Btree,
    pos: Bpos,
    r: Option<BtreeEntry>,
    again: Option<BtreeEntry>,
)
    requires
        t.wf(),
        t.entry_got(mid, pos, r),
        mid.entry_got(new, pos, again),
    ensures
        r is Some == again is Some,
        r matches Some(f) ==> mid.key_cache.spec_find(pos) matches Some(g) && g@ == f@ && g.same(f),
        r matches Some(f) ==> again matches Some(g) && g@ == f@ && g.same(f),
        new == mid,
        mid.root == t.root,
        mid.cache == t.cache,
        mid.total_key_count == t.total_key_count,
        r is None ==> mid == t,
        t.key_cache.spec_find(pos) is Some ==> mid == t,
        forall|p: Bpos|
            p != pos ==> #[trigger] mid.key_cache.spec_find(p) == t.key_cache.spec_find(p),
{
    if t.key_cache.spec_find(pos) is None && r is Some {
        let f = r->0;
        let items = t.items(BtreeKey::spec_from_bpos(pos, KeyType::Normal));
        let e = last_normal(items, pos)->0;
        let g = choose|g: BtreeEntry|
            g.same(f) && g@ == e && #[trigger] t.key_cache.inserted(mid.key_cache, pos, g);
        assert(mid.key_cache.spec_find(pos) == Some(g));
        assert(g@ == f@ && g.same(f));
        assert forall|p: Bpos| p != pos implies #[trigger] mid.key_cache.spec_find(p)
            == t.key_cache.spec_find(p) by {
            lemma_insert_cached(t.key_cache, mid.key_cache, pos, g, p);
        }
        if let Some(h) = again {
            assert(h.same(g));
        }
    }
}

/// What a lookup of a position gives: an entry that is cached there; else a normal
/// entry at the position that the tree has, read as a leaf's; nothing where both
/// have none.
pub proof fn lemma_entry_got_is(t: Btree, new: Btree, pos: Bpos, r: Option<BtreeEntry>)
    requires
        t.entry_got(new, pos, r),
    ensures
        t.key_cache.spec_find(pos) matches Some(e) ==> r matches Some(f) && f@ == e@ && f.same(e),
        t.key_cache.spec_find(pos) is None ==> (r matches Some(f) ==> f.pos == pos && f.key_type
            == KeyType::Normal && f.value.decodes(0, f@.value) && t.items(
            BtreeKey::spec_from_bpos(pos, KeyType::Normal),
        ).contains(f@)),
        t.key_cache.spec_find(pos) is None ==> (match last_normal(
            t.items(BtreeKey::spec_from_bpos(pos, KeyType::Normal)),
            pos,
        ) {
            Some(e) => r matches Some(f) && f@ == e,
            None => r is None,
        }),
{
    let items = t.items(BtreeKey::spec_from_bpos(pos, KeyType::Normal));
    lemma_last_found(items, pos);
    if last_normal(items, pos) is Some {
        let i = choose|i: int| #[trigger] last_at(items, pos, i);
        assert(items.contains(items[i]));
    }
}

/// An entry that was added to a tree that is one leaf is what lookups of its
/// position give, the first one and, through the key cache, every later one.
#[verifier::rlimit(40)]
pub proof fn lemma_entry_read_back(
    t: Btree,
    new: Btree,
    first: Btree,
    second: Btree,
    e: EntryView,
    seq: u64,
    r: Option<BtreeEntry>,
    again: Option<BtreeEntry>,
)
    requires
        new.wf(),
        t.root.depth == 0,
        e.key_type == KeyType::Normal,
        t.entry_taken_dropping(new, e, seq, true),
        new.entry_got(first, e.pos, r),
        first.entry_got(second, e.pos, again),
    ensures
        r matches Some(f) && f@ == e.padded(),
        again matches Some(f) && f@ == e.padded(),
{
    lemma_entry_after_insert(t, new, e, seq);
    lemma_entry_got_is(new, first, e.pos, r);
    lemma_entry_got_twice(new, first, second, e.pos, r, again);
}

/// Looking a key up twice gives the same value, and neither lookup changes the
/// tree, nor what is cached at any other position.
#[verifier::rlimit(40)]
pub proof fn lemma_got_twice(
    t: Btree,
    mid: Btree,
    new: Btree,
    k: BtreeKey,
    r: Option<(BtreeKey, BchVal)>,
    again: Option<(BtreeKey, BchVal)>,
)
    requires
        t.wf(),
        t.got(mid, k, r),
        mid.got(new, k, again),
    ensures
        again == r,
        r matches Some(kv) ==> kv.0 == k,
        new == mid,
        mid.root == t.root,
        mid.cache == t.cache,
        mid.total_key_count == t.total_key_count,
        r is None ==> mid == t,
        t.cached_get(k) is Some ==> r == t.cached_get(k) && mid == t,
        t.cached_get(k) is None ==> r == t.tree_get(k),
        forall|p: Bpos|
            p != Bpos::spec_from_key(k) ==> #[trigger] mid.key_cache.spec_find(p)
                == t.key_cache.spec_find(p),
{
    if t.cached_get(k) is None && r is Some {
        let pos = Bpos::spec_from_key(k);
        let g = BtreeEntry {
            pos,
            key_type: k.key_type,
            value: crate::key::KeyValue::Extent((r->0).1),
        };
        assert(mid.key_cache.spec_find(pos) == Some(g));
        assert forall|p: Bpos| p != pos implies #[trigger] mid.key_cache.spec_find(p)
            == t.key_cache.spec_find(p) by {
            lemma_insert_cached(t.key_cache, mid.key_cache, pos, g, p);
        }
    }
}

/// Entries that are the same are at one position, of one type, and hold the same
/// bytes in a value of the same kind.
pub proof fn lemma_same_entries(a: BtreeEntry, b: BtreeEntry)
    requires
        a.same(b),
    ensures
        a.pos == b.pos,
        a.key_type == b.key_type,
        a@ == b@,
        a.value is Extent == b.value is Extent,
        a.value is BtreePtr == b.value is BtreePtr,
        a.value is Raw == b.value is Raw,
        a@.value == b@.value,
        b.same(a),
{
}

/// An entry that is read from a leaf holds the bytes of the leaf as they are.
pub proof fn lemma_leaf_value(e: EntryView, r: BtreeEntry)
    requires
        leaf_reads(e, r),
    ensures
        r.pos == e.pos,
        r.key_type == e.key_type,
        r.value matches KeyValue::Raw(b) && b@ == e.value,
{
}

} // verus!
