//! The engine and the overlay.

use std::cell::Cell;
use std::collections::HashSet;
use volmount_btree::engine::{BatchEntry, BtreeEngine};
use volmount_btree::ids::{btree_node_type, BtreeId, BtreeNodeType};
use volmount_btree::key::{
    BchVal, Bpos, BtreeEntry, BtreeKey, BtreePtrV2, KeyType, KeyValue,
};

fn extent(offset: u64, paddr: u64) -> BtreeEntry {
    BtreeEntry::new(Bpos::new(1, offset, 0), KeyType::Normal, KeyValue::extent(paddr, 1))
}

#[test]
fn test_btree_type_all_coverage() {
    assert_eq!(BtreeId::all().len(), BtreeId::count());
    let mut set = HashSet::new();
    for ty in BtreeId::all() {
        assert!(set.insert(ty), "duplicate BtreeId variant in ALL");
    }
    assert_eq!(set.len(), BtreeId::count());
}

#[test]
fn test_btree_type_index_roundtrip() {
    let mut indices = HashSet::new();
    for ty in BtreeId::all() {
        let idx = ty.index();
        assert!(idx < BtreeId::count(), "index {} >= count {}", idx, BtreeId::count());
        assert!(indices.insert(idx), "duplicate index {}", idx);
        assert_eq!(BtreeId::from_u8(idx as u8), Some(ty));
    }
    assert_eq!(BtreeId::from_u8(7), None);
}

#[test]
fn test_btree_type_name_not_empty() {
    for ty in BtreeId::all() {
        let n = ty.name();
        assert!(!n.is_empty(), "empty name for {:?}", ty);
    }
    assert_eq!(BtreeId::SnapshotTrees.name(), "snapshot_trees");
}

#[test]
fn nodes_hold_pointers_or_data() {
    assert_eq!(btree_node_type(1, BtreeId::Alloc), BtreeNodeType::BtreePtr);
    assert_eq!(btree_node_type(0, BtreeId::Alloc), BtreeNodeType::BtreeData(5));
}

#[test]
fn test_btree_engine_new_all_initialized() {
    let mut engine = BtreeEngine::new();
    for (i, ty) in BtreeId::all().into_iter().enumerate() {
        engine.set_root_ptr(
            ty,
            BtreePtrV2 { block_addr: i as u64 + 1, sectors_written: 8, level: 0, generation: 1 },
        );
    }
    let roots: HashSet<u64> =
        BtreeId::all().iter().map(|ty| engine.get(*ty).root().ptr.block_addr).collect();
    assert_eq!(roots.len(), BtreeId::count());
}

#[test]
fn test_btree_engine_insert_and_get() {
    let mut engine = BtreeEngine::new();
    let key = BtreeKey::from_bpos(Bpos::new(1, 100, 42), KeyType::Normal);
    let val = BchVal::new(0x1234, 1);

    assert!(engine.insert_entry(BtreeId::Extents, key, val, 0));
    let got = engine.get_entry(BtreeId::Extents, &key);
    assert_eq!(got, Some((key, val)));
}

#[test]
fn test_btree_engine_types_independent() {
    let mut engine = BtreeEngine::new();

    let ext_key = BtreeKey::from_bpos(Bpos::new(1, 10, 0), KeyType::Normal);
    let ext_val = BchVal::new(0x100, 1);
    engine.insert_entry(BtreeId::Extents, ext_key, ext_val, 0);

    let snap_key = BtreeKey::from_bpos(Bpos::new(2, 20, 1), KeyType::Normal);
    let snap_val = BchVal::new(0x200, 2);
    engine.insert_entry(BtreeId::Snapshots, snap_key, snap_val, 0);

    assert_eq!(engine.get_entry(BtreeId::Extents, &snap_key), None);
    assert_eq!(engine.get_entry(BtreeId::Snapshots, &ext_key), None);
}

#[test]
fn test_btree_engine_delete() {
    let mut engine = BtreeEngine::new();
    let key = BtreeKey::from_bpos(Bpos::new(1, 50, 0), KeyType::Normal);
    let val = BchVal::new(0xABC, 1);

    assert!(engine.insert_entry(BtreeId::Extents, key, val, 0));
    assert_eq!(engine.get_entry(BtreeId::Extents, &key), Some((key, val)));

    assert!(engine.delete_entry(BtreeId::Extents, &key, 0));
    assert_eq!(engine.get_entry(BtreeId::Extents, &key), None);

    assert!(!engine.delete_entry(BtreeId::Extents, &key, 0));
}

#[test]
fn test_btree_engine_for_each() {
    let engine = BtreeEngine::new();
    let count = Cell::new(0);
    engine.for_each(|ty, bt| {
        count.set(count.get() + 1);
        assert_eq!(bt.key_count(), 0, "btree {:?} not empty", ty);
    });
    assert_eq!(count.get(), BtreeId::count());
}

#[test]
fn test_btree_engine_default() {
    let engine: BtreeEngine = Default::default();
    assert!(engine.get(BtreeId::Alloc).key_count() == 0);
}

#[test]
fn test_overlay_read_through_get_entry() {
    let mut engine = BtreeEngine::new();

    let key = BtreeKey::from_bpos(Bpos::new(1, 10, 0), KeyType::Normal);
    engine.insert_entry_raw(BtreeId::Extents, extent(10, 0x100), 0);

    engine.enable_overlay();
    engine.insert_guarded(BtreeId::Extents, extent(10, 0x200), 1);

    let got = engine.get_entry(BtreeId::Extents, &key);
    assert!(got.is_some(), "should find entry via overlay");
    assert_eq!(got.unwrap().1.paddr.addr, 0x200, "overlay value should win");
}

#[test]
fn test_overlay_read_through_search() {
    let mut engine = BtreeEngine::new();

    engine.insert_entry_raw(BtreeId::Extents, extent(10, 0x100), 0);

    engine.enable_overlay();
    engine.insert_guarded(BtreeId::Extents, extent(10, 0x200), 1);

    let key = BtreeKey::from_bpos(Bpos::new(1, 10, 0), KeyType::Normal);
    let got = engine.search(BtreeId::Extents, &key);
    assert!(got.is_some(), "search should find entry via overlay");
    assert_eq!(got.unwrap().1.paddr.addr, 0x200, "overlay value should win");
}

#[test]
fn test_overlay_read_through_get_entry_raw() {
    let mut engine = BtreeEngine::new();

    engine.insert_entry_raw(BtreeId::Extents, extent(10, 0x100), 0);

    engine.enable_overlay();
    engine.insert_guarded(BtreeId::Extents, extent(10, 0x200), 1);

    let got = engine.get_entry_raw(BtreeId::Extents, Bpos::new(1, 10, 0));
    assert!(got.is_some(), "should find entry via overlay raw");
    assert_eq!(
        got.unwrap().value.as_extent().unwrap().paddr.addr,
        0x200,
        "overlay value should win"
    );
}

#[test]
fn test_overlay_read_through_draining_uses_btree() {
    let mut engine = BtreeEngine::new();

    engine.enable_overlay();
    engine.insert_guarded(BtreeId::Extents, extent(10, 0x200), 1);

    let key = BtreeKey::from_bpos(Bpos::new(1, 10, 0), KeyType::Normal);
    let got = engine.get_entry(BtreeId::Extents, &key);
    assert!(got.is_some(), "should see overlay entry before drain");
    assert_eq!(got.unwrap().1.paddr.addr, 0x200, "overlay value before drain");

    engine.drain_overlay();
    assert!(engine.journal_overlay.is_none(), "overlay removed after drain");

    let got = engine.get_entry(BtreeId::Extents, &key);
    assert!(got.is_some(), "engine get_entry should find entry in btree after drain");
    assert_eq!(got.unwrap().1.paddr.addr, 0x200, "drained value in btree");
}

#[test]
fn test_overlay_read_through_no_overlay() {
    let mut engine = BtreeEngine::new();

    let key = BtreeKey::from_bpos(Bpos::new(1, 10, 0), KeyType::Normal);
    engine.insert_entry_raw(BtreeId::Extents, extent(10, 0x100), 0);

    let got = engine.get_entry(BtreeId::Extents, &key);
    assert!(got.is_some());
    assert_eq!(got.unwrap().1.paddr.addr, 0x100);
}

#[test]
fn test_overlay_read_through_key_not_in_overlay() {
    let mut engine = BtreeEngine::new();

    engine.insert_entry_raw(BtreeId::Extents, extent(10, 0x100), 0);

    engine.enable_overlay();
    engine.insert_guarded(BtreeId::Extents, extent(20, 0x200), 1);

    let key = BtreeKey::from_bpos(Bpos::new(1, 10, 0), KeyType::Normal);
    let got = engine.get_entry(BtreeId::Extents, &key);
    assert!(got.is_some(), "should find entry in btree");
    assert_eq!(got.unwrap().1.paddr.addr, 0x100);
}

#[test]
fn test_insert_guarded_flushes_dirty_key_cache() {
    let mut engine = BtreeEngine::new();
    let dirty_pos = Bpos::new(1, 50, 0);
    let dirty_entry = BtreeEntry::new(dirty_pos, KeyType::Normal, KeyValue::extent(0x111, 1));

    engine.trees[BtreeId::Extents.index()].key_cache.bch2_btree_insert_key_cached(
        dirty_pos,
        dirty_entry,
        0,
    );
    assert_eq!(engine.trees[BtreeId::Extents.index()].key_cache.nr_dirty_keys(), 1);

    let write_pos = Bpos::new(1, 60, 0);
    let write_entry = BtreeEntry::new(write_pos, KeyType::Normal, KeyValue::extent(0x222, 1));

    assert!(engine.insert_guarded(BtreeId::Extents, write_entry, 0));
    assert_eq!(engine.trees[BtreeId::Extents.index()].key_cache.nr_dirty_keys(), 0);

    let cached_key = BtreeKey::from_bpos(dirty_pos, KeyType::Normal);
    let got = engine.get_entry(BtreeId::Extents, &cached_key);
    assert!(got.is_some(), "dirty key should still be readable after flush");
    assert_eq!(got.unwrap().1.paddr.addr, 0x111);
}

#[test]
fn test_batch_write_flushes_dirty_key_cache() {
    let mut engine = BtreeEngine::new();
    let dirty_pos = Bpos::new(1, 70, 0);
    let dirty_entry = BtreeEntry::new(dirty_pos, KeyType::Normal, KeyValue::extent(0x333, 1));

    engine.trees[BtreeId::Extents.index()].key_cache.bch2_btree_insert_key_cached(
        dirty_pos,
        dirty_entry,
        0,
    );
    assert_eq!(engine.trees[BtreeId::Extents.index()].key_cache.nr_dirty_keys(), 1);

    let batch_pos = Bpos::new(1, 80, 0);
    let batch_entry = BatchEntry::Insert { pos: batch_pos, data: vec![0x10, 0x20, 0x30, 0x40] };

    assert!(engine.batch_write(BtreeId::Extents, &[(batch_entry, 0)]));
    assert_eq!(engine.trees[BtreeId::Extents.index()].key_cache.nr_dirty_keys(), 0);

    let cached_key = BtreeKey::from_bpos(dirty_pos, KeyType::Normal);
    let got = engine.get_entry(BtreeId::Extents, &cached_key);
    assert!(got.is_some(), "dirty key should remain readable after batch flush");
    assert_eq!(got.unwrap().1.paddr.addr, 0x333);
}

#[test]
fn batches_stop_at_the_first_failure() {
    let mut engine = BtreeEngine::new();
    let insert = |o: u64| BatchEntry::Insert { pos: Bpos::new(0, o, 0), data: vec![1; 8] };
    let delete = |o: u64| BatchEntry::Delete { pos: Bpos::new(0, o, 0) };
    assert!(engine.batch_write(BtreeId::Alloc, &[(insert(1), 1), (delete(1), 2), (insert(2), 3)]));
    assert!(!engine.batch_write(BtreeId::Alloc, &[(insert(3), 4), (delete(9), 5), (insert(4), 6)]));
    assert!(engine.get_entry_raw(BtreeId::Alloc, Bpos::new(0, 1, 0)).is_none());
    assert!(engine.get_entry_raw(BtreeId::Alloc, Bpos::new(0, 2, 0)).is_some());
    assert!(engine.get_entry_raw(BtreeId::Alloc, Bpos::new(0, 3, 0)).is_some());
    assert!(engine.get_entry_raw(BtreeId::Alloc, Bpos::new(0, 4, 0)).is_none());
}

#[test]
fn cached_writes_reach_tree_and_cache() {
    let mut engine = BtreeEngine::new();
    let key = BtreeKey::new(5, 1, KeyType::Normal);
    assert!(engine.insert_entry_cached(BtreeId::Extents, key, BchVal::new(7, 1), 3));
    assert_eq!(engine.get(BtreeId::Extents).key_cache.nr_dirty_keys(), 1);
    assert_eq!(engine.get_entry(BtreeId::Extents, &key).unwrap().1, BchVal::new(7, 1));
    assert_eq!(engine.search(BtreeId::Extents, &key).unwrap().1, BchVal::new(7, 1));
    let other = BtreeKey::new(6, 1, KeyType::Normal);
    assert!(engine.insert_entry_skip_cache(BtreeId::Extents, other, BchVal::new(8, 1), 4));
    assert_eq!(engine.get(BtreeId::Extents).root().node.journal_seq, 4);
    assert_eq!(engine.flush_cache_dirty_keys(9), 1);
    assert_eq!(engine.flush_cache_dirty_keys(9), 0);
}

#[test]
fn changed_nodes_are_flushed_tree_by_tree() {
    let mut engine = BtreeEngine::new();
    assert!(engine.flush_dirty_nodes().is_empty());
    engine.insert_entry_raw(BtreeId::Freespace, extent(1, 1), 0);
    engine.insert_entry_raw(BtreeId::Subvolumes, extent(1, 1), 0);
    let flushed = engine.flush_dirty_nodes();
    let ids: Vec<BtreeId> = flushed.iter().map(|f| f.0).collect();
    assert_eq!(ids, vec![BtreeId::Subvolumes, BtreeId::Freespace]);
    assert_eq!(flushed[0].1.len(), 1);
    assert_eq!(flushed[0].1[0].1.key_count, 1);
    assert!(engine.flush_dirty_nodes().is_empty());
}

#[test]
fn inodes_know_their_subvolumes() {
    let mut engine = BtreeEngine::new();
    engine.register_ino_map(10, 1);
    engine.register_ino_map(10, 2);
    engine.register_ino_map(10, 1);
    engine.register_ino_map(11, 1);
    assert_eq!(engine.subvol_ino_map[&10], vec![1, 2, 1]);
    engine.cleanup_ino_map(10, 1);
    assert_eq!(engine.subvol_ino_map[&10], vec![2]);
    engine.cleanup_ino_map(10, 2);
    assert!(!engine.subvol_ino_map.contains_key(&10));
    engine.cleanup_ino_map(99, 2);
    assert_eq!(engine.subvol_ino_map[&11], vec![1]);
}

#[test]
fn every_tree_of_a_default_engine_is_empty() {
    let mut engine = BtreeEngine::default();
    assert_eq!(engine.trees.len(), BtreeId::count());
    for t in &engine.trees {
        assert_eq!((t.depth(), t.key_count()), (0, 0));
    }
    assert!(engine.journal_overlay.is_none());
    assert!(engine.subvol_ino_map.is_empty());
    assert_eq!(engine.subvol_id_counter, BtreeEngine::new().subvol_id_counter);
    let key = BtreeKey::new(5, 1, KeyType::Normal);
    assert!(engine.insert_entry(BtreeId::Extents, key, BchVal::new(7, 1), 1));
    assert_eq!(engine.search(BtreeId::Extents, &key).unwrap().1, BchVal::new(7, 1));
}
