//! The key cache.

use volmount_btree::engine::BtreeEngine;
use volmount_btree::ids::BtreeId;
use volmount_btree::key::{Bpos, BtreeEntry, KeyType, KeyValue};
use volmount_btree::key_cache::KeyCache;

fn test_cache() -> KeyCache {
    KeyCache::new()
}

#[test]
fn test_cache_miss_returns_none() {
    let cache = test_cache();
    let pos = Bpos::new(1, 100, 42);
    assert!(cache.find(&pos).is_none());
}

#[test]
fn test_cache_insert_and_find() {
    let mut cache = test_cache();
    let pos = Bpos::new(1, 100, 42);
    let entry = BtreeEntry::new(pos, KeyType::Normal, KeyValue::extent(0xABCD, 1));

    cache.insert(pos, entry.clone());

    let found = cache.find(&pos);
    assert_eq!(found, Some(entry));
}

#[test]
fn test_cache_invalidate_removes_entry() {
    let mut cache = test_cache();
    let pos = Bpos::new(1, 100, 42);
    let entry = BtreeEntry::new(pos, KeyType::Normal, KeyValue::extent(0x100, 1));

    cache.insert(pos, entry);
    assert!(cache.find(&pos).is_some());

    cache.invalidate(&pos);
    assert!(cache.find(&pos).is_none());
}

#[test]
fn test_cache_different_pos_independent() {
    let mut cache = test_cache();
    let pos1 = Bpos::new(1, 10, 0);
    let pos2 = Bpos::new(2, 20, 1);

    cache.insert(pos1, BtreeEntry::new(pos1, KeyType::Normal, KeyValue::extent(0x100, 1)));
    cache.insert(pos2, BtreeEntry::new(pos2, KeyType::Normal, KeyValue::extent(0x200, 2)));

    cache.invalidate(&pos1);

    assert!(cache.find(&pos1).is_none());
    assert!(cache.find(&pos2).is_some());
}

#[test]
fn test_bcachefs_alias_find() {
    let mut cache = test_cache();
    let pos = Bpos::new(1, 100, 42);
    let entry = BtreeEntry::new(pos, KeyType::Normal, KeyValue::extent(0xABCD, 1));

    cache.insert(pos, entry.clone());
    assert_eq!(cache.bch2_btree_key_cache_find(&pos), Some(entry));
}

#[test]
fn test_bcachefs_alias_drop() {
    let mut cache = test_cache();
    let pos = Bpos::new(1, 100, 42);
    cache.insert(pos, BtreeEntry::new(pos, KeyType::Normal, KeyValue::extent(0x100, 1)));
    assert!(cache.bch2_btree_key_cache_find(&pos).is_some());

    cache.bch2_btree_key_cache_drop(&pos);
    assert!(cache.bch2_btree_key_cache_find(&pos).is_none());
}

#[test]
fn test_insert_key_cached_stores_dirty_entry() {
    let mut cache = test_cache();
    let pos = Bpos::new(1, 100, 42);
    let entry = BtreeEntry::new(pos, KeyType::Normal, KeyValue::extent(0x100, 1));

    cache.bch2_btree_insert_key_cached(pos, entry.clone(), 42);
    assert_eq!(cache.find(&pos), Some(entry));
    assert_eq!(cache.nr_dirty_keys(), 1);
}

#[test]
fn test_dirty_tracking() {
    let mut cache = test_cache();
    let pos = Bpos::new(1, 100, 42);
    let entry1 = BtreeEntry::new(pos, KeyType::Normal, KeyValue::extent(0x100, 1));
    let entry2 = BtreeEntry::new(pos, KeyType::Deleted, KeyValue::extent(0x200, 2));

    assert_eq!(cache.nr_dirty_keys(), 0);

    cache.bch2_btree_insert_key_cached(pos, entry1, 42);
    assert_eq!(cache.nr_dirty_keys(), 1);

    cache.insert(pos, entry2.clone());
    assert_eq!(cache.nr_dirty_keys(), 0);
    assert_eq!(cache.find(&pos), Some(entry2));
}

#[test]
fn test_journal_seq() {
    let mut cache = test_cache();
    let pos = Bpos::new(1, 100, 42);
    let entry = BtreeEntry::new(pos, KeyType::Normal, KeyValue::extent(0x100, 1));

    cache.bch2_btree_insert_key_cached(pos, entry, 42);
    assert!(cache.find(&pos).is_some());
    assert_eq!(cache.nr_dirty_keys(), 1);
}

#[test]
fn test_journal_pin_integration() {
    let mut cache = test_cache();
    let pos = Bpos::new(1, 100, 42);
    let entry = BtreeEntry::new(pos, KeyType::Normal, KeyValue::extent(0x100, 1));

    cache.bch2_btree_insert_key_cached(pos, entry.clone(), 42);
    assert_eq!(cache.nr_dirty_keys(), 1);
    assert_eq!(cache.slots[0].pin, None);

    cache.invalidate(&pos);
    assert_eq!(cache.nr_dirty_keys(), 0);
}

#[test]
fn test_journal_pin_with_instance() {
    let mut cache = test_cache();
    cache.set_journal();

    let pos = Bpos::new(1, 100, 42);
    let entry = BtreeEntry::new(pos, KeyType::Normal, KeyValue::extent(0x100, 1));

    cache.bch2_btree_insert_key_cached(pos, entry.clone(), 2);
    assert_eq!(cache.nr_dirty_keys(), 1);
    assert_eq!(cache.slots[0].pin, Some(2));

    cache.invalidate(&pos);
    assert_eq!(cache.nr_dirty_keys(), 0);
    assert_eq!(cache.slots[0].pin, None);
}

#[test]
fn test_collect_dirty_and_mark_clean() {
    let mut cache = test_cache();
    let pos1 = Bpos::new(1, 10, 0);
    let pos2 = Bpos::new(2, 20, 1);
    let entry1 = BtreeEntry::new(pos1, KeyType::Normal, KeyValue::extent(0x100, 1));
    let entry2 = BtreeEntry::new(pos2, KeyType::Normal, KeyValue::extent(0x200, 2));

    cache.bch2_btree_insert_key_cached(pos1, entry1, 0);
    cache.bch2_btree_insert_key_cached(pos2, entry2, 0);
    assert_eq!(cache.nr_dirty_keys(), 2);

    let dirty = cache.collect_dirty();
    assert_eq!(dirty.len(), 2);

    cache.mark_clean(&pos1);
    assert_eq!(cache.nr_dirty_keys(), 1);

    assert!(cache.find(&pos1).is_some());

    cache.mark_clean(&pos2);
    assert_eq!(cache.nr_dirty_keys(), 0);
}

#[test]
fn test_flush_dirty_callback() {
    let mut cache = test_cache();
    let pos = Bpos::new(1, 100, 42);
    let entry = BtreeEntry::new(pos, KeyType::Normal, KeyValue::extent(0x100, 1));

    cache.bch2_btree_insert_key_cached(pos, entry.clone(), 0);
    assert_eq!(cache.nr_dirty_keys(), 1);

    let flushed = cache.flush_dirty(|p, e| {
        assert_eq!(*p, pos);
        assert_eq!(*e, entry);
        true
    });
    assert_eq!(flushed, 1);
    assert_eq!(cache.nr_dirty_keys(), 0);
    assert!(cache.find(&pos).is_some());
}

#[test]
fn test_flush_dirty_skip_failed_writes() {
    let mut cache = test_cache();
    let pos = Bpos::new(1, 100, 42);
    let entry = BtreeEntry::new(pos, KeyType::Normal, KeyValue::extent(0x100, 1));

    cache.bch2_btree_insert_key_cached(pos, entry, 0);
    assert_eq!(cache.nr_dirty_keys(), 1);

    let flushed: usize = cache.flush_dirty(|_, _| false);
    assert_eq!(flushed, 0);
    assert_eq!(cache.nr_dirty_keys(), 1);
}

#[test]
fn test_key_cache_flush_thresholds_match_bcachefs_formula() {
    let mut cache = test_cache();
    cache.nr_keys = 1000;

    cache.nr_dirty = 1499;
    assert_eq!(cache.bch2_nr_btree_keys_need_flush(), 0);
    assert!(!cache.bch2_btree_key_cache_must_wait());
    assert!(cache.bch2_btree_key_cache_wait_done());

    cache.nr_dirty = 1525;
    assert_eq!(cache.bch2_nr_btree_keys_need_flush(), 1);
    assert!(!cache.bch2_btree_key_cache_must_wait());
    assert!(cache.bch2_btree_key_cache_wait_done());

    cache.nr_dirty = 4847;
    assert!(cache.bch2_btree_key_cache_must_wait());
    assert!(!cache.bch2_btree_key_cache_wait_done());
}

#[test]
fn test_engine_flush_cache_dirty_keys() {
    let mut engine = BtreeEngine::new();
    let ty = BtreeId::Extents;
    let pos = Bpos::new(1, 100, 42);
    let entry = BtreeEntry::new(pos, KeyType::Normal, KeyValue::extent(0x100, 1));

    engine.get_mut(ty).key_cache.bch2_btree_insert_key_cached(pos, entry.clone(), 0);
    assert_eq!(engine.get(ty).key_cache.nr_dirty_keys(), 1);

    let total = engine.flush_cache_dirty_keys(0);
    assert_eq!(total, 1);

    assert_eq!(engine.get(ty).key_cache.nr_dirty_keys(), 0);
    let cached = engine.get(ty).key_cache.find(&pos);
    assert!(cached.is_some());

    let btree_found = engine.get_mut(ty).get_entry(pos);
    assert!(btree_found.is_some());
}

#[test]
fn test_flush_callback_triggers() {
    let mut cache = test_cache();
    cache.set_journal();

    let pos = Bpos::new(1, 100, 42);
    let entry = BtreeEntry::new(pos, KeyType::Normal, KeyValue::extent(0x100, 1));

    cache.bch2_btree_insert_key_cached(pos, entry.clone(), 1);

    cache.request_flush(1);
    assert!(cache.slots[0].flush_pending);

    assert_eq!(cache.find(&pos), Some(entry));
    cache.invalidate(&pos);
    assert!(cache.find(&pos).is_none());
}

#[test]
fn test_exit_clears_all() {
    let mut cache = test_cache();
    cache.insert(
        Bpos::new(1, 10, 0),
        BtreeEntry::new(Bpos::new(1, 10, 0), KeyType::Normal, KeyValue::extent(0x100, 1)),
    );
    cache.insert(
        Bpos::new(2, 20, 1),
        BtreeEntry::new(Bpos::new(2, 20, 1), KeyType::Normal, KeyValue::extent(0x200, 2)),
    );

    cache.bch2_fs_btree_key_cache_exit();
    assert!(cache.find(&Bpos::new(1, 10, 0)).is_none());
    assert!(cache.find(&Bpos::new(2, 20, 1)).is_none());
}

#[test]
fn test_overwrite_existing_entry() {
    let mut cache = test_cache();
    let pos = Bpos::new(1, 100, 42);

    let entry1 = BtreeEntry::new(pos, KeyType::Normal, KeyValue::extent(0xAAA, 1));
    let entry2 = BtreeEntry::new(pos, KeyType::Deleted, KeyValue::extent(0xBBB, 2));

    cache.insert(pos, entry1);
    cache.insert(pos, entry2.clone());

    assert_eq!(cache.find(&pos), Some(entry2));
}

#[test]
fn test_slot_reuse() {
    let mut cache = test_cache();
    let pos = Bpos::new(1, 100, 42);
    let entry1 = BtreeEntry::new(pos, KeyType::Normal, KeyValue::extent(0x100, 1));
    let entry2 = BtreeEntry::new(pos, KeyType::Deleted, KeyValue::extent(0x200, 2));

    cache.insert(pos, entry1);
    assert!(cache.find(&pos).is_some());
    cache.invalidate(&pos);
    assert!(cache.find(&pos).is_none());
    cache.insert(pos, entry2.clone());
    assert_eq!(cache.find(&pos), Some(entry2));
}

#[test]
fn test_drop_keeps_slot() {
    let mut cache = test_cache();
    let pos = Bpos::new(1, 100, 42);
    let entry = BtreeEntry::new(pos, KeyType::Normal, KeyValue::extent(0x100, 1));

    cache.insert(pos, entry);

    cache.invalidate(&pos);
    assert!(cache.find(&pos).is_none());

    let entry2 = BtreeEntry::new(pos, KeyType::Deleted, KeyValue::extent(0x200, 2));
    cache.insert(pos, entry2.clone());
    assert_eq!(cache.find(&pos), Some(entry2));
    assert_eq!(cache.slots.len(), 1);
}

#[test]
fn test_flush_going_ro_returns_false_when_clean() {
    let mut cache = test_cache();
    assert!(
        !cache.bch2_btree_key_cache_flush_going_ro(|_, _| true),
        "flush_going_ro on empty cache should return false"
    );
}

#[test]
fn test_flush_going_ro_returns_true_when_dirty() {
    let mut cache = test_cache();
    let pos = Bpos::new(1, 50, 0);
    let entry = BtreeEntry::new(pos, KeyType::Normal, KeyValue::extent(0x200, 1));
    cache.bch2_btree_insert_key_cached(pos, entry, 42);
    assert!(
        cache.bch2_btree_key_cache_flush_going_ro(|_, _| true),
        "flush_going_ro with dirty entries should return true"
    );
    assert_eq!(cache.nr_dirty_keys(), 0, "dirty should be cleared after flush");
}

#[test]
fn counts_follow_the_slots() {
    let mut c = test_cache();
    let p = Bpos::new(1, 100, 42);
    let e = BtreeEntry::new(p, KeyType::Normal, KeyValue::extent(0x100, 1));
    c.bch2_btree_insert_key_cached(p, e.clone(), 42);
    assert_eq!(c.find(&p), Some(e.clone()));
    assert_eq!((c.nr_keys(), c.nr_dirty_keys()), (1, 1));
    // The same place again makes no new slot.
    c.bch2_btree_insert_key_cached(p, e.clone(), 43);
    assert_eq!((c.nr_keys(), c.nr_dirty_keys()), (1, 1));
    c.insert(p, e.clone());
    assert_eq!(c.find(&p), Some(e));
    c.invalidate(&p);
    assert_eq!(c.find(&p), None);
    assert_eq!(c.nr_dirty_keys(), 0);
}

#[test]
fn an_exit_leaves_nothing_dirty() {
    let mut c = test_cache();
    for i in 0..3u64 {
        let p = Bpos::new(1, i, 0);
        c.bch2_btree_insert_key_cached(
            p,
            BtreeEntry::new(p, KeyType::Normal, KeyValue::extent(0x100, 1)),
            0,
        );
    }
    assert_eq!((c.nr_keys(), c.nr_dirty_keys()), (3, 3));
    c.bch2_fs_btree_key_cache_exit();
    assert!(c.find(&Bpos::new(1, 0, 0)).is_none());
    assert_eq!((c.nr_keys(), c.nr_dirty_keys()), (0, 0));
    assert!(c.collect_dirty().is_empty());
}
