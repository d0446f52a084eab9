//! Garbage collection, topology checks and buckets.

use std::cmp::Ordering;
use volmount_btree::btree::Btree;
use volmount_btree::buckets::{BchAllocEntry, BchAllocator, BchDataType, BLOCKS_PER_BUCKET};
use volmount_btree::cache::NodeCache;
use volmount_btree::engine::BtreeEngine;
use volmount_btree::error::{Fault, StorageError};
use volmount_btree::gc::{
    bch2_check_allocations, bch2_fs_btree_gc_init_early, bch2_gc_accounting_done,
    bch2_gc_accounting_start, bch2_gc_btrees, bch2_gc_gens, bch2_gc_gens_async, bch2_gc_mark_key,
    bch2_gc_pos_from_sb, bch2_gc_pos_to_sb, bch2_gc_pos_to_text, bch2_gc_sweep,
    bch2_merge_btree_nodes, gc_mark_entry, gc_phase, gc_pos_btree, gc_pos_cmp, gc_trigger, gc_visited, BchSb,
    BtreeGc, Discrepancy, GcPhase,
};
use volmount_btree::gc_alloc::{
    bch2_check_alloc_info, bch2_gc_alloc_done, bch2_gc_alloc_start, bch2_presplit_shard_boundaries,
};
use volmount_btree::ids::BtreeId;
use volmount_btree::iter::BtreeRoot;
use volmount_btree::key::{
    BchVal, Bpos, BtreeEntry, BtreeKey, BtreePtrV2, KeyType, KeyValue,
};
use volmount_btree::node::{BsetTree, BtreeNode};
use volmount_btree::topology::bch2_check_topology;

fn allocator() -> BchAllocator {
    BchAllocator::new(1024 * 256)
}

fn extent(offset: u64, paddr: u64) -> BtreeEntry {
    BtreeEntry::new(Bpos::new(0, offset, 0), KeyType::Normal, KeyValue::extent(paddr, 1))
}

fn state(a: &BchAllocator, bucket: u64) -> BchDataType {
    a.buckets[bucket as usize].state
}

#[test]
fn test_gc_phase_order() {
    assert!(GcPhase::NotRunning < GcPhase::Start);
    assert!(GcPhase::Start < GcPhase::Sb);
    assert!(GcPhase::Sb < GcPhase::Btree);
}

#[test]
fn test_gc_pos_cmp() {
    let a = gc_phase(GcPhase::Start);
    let b = gc_phase(GcPhase::Btree);
    assert_eq!(gc_pos_cmp(&a, &b), Ordering::Less);
}

#[test]
fn gc_places_compare_part_by_part() {
    let p = gc_pos_btree(1, 2, 3);
    assert_eq!(gc_pos_cmp(&p, &gc_pos_btree(1, 2, 4)), Ordering::Less);
    assert_eq!(gc_pos_cmp(&p, &gc_pos_btree(1, 1, 9)), Ordering::Greater);
    assert_eq!(gc_pos_cmp(&p, &gc_pos_btree(0, 9, 9)), Ordering::Greater);
    assert_eq!(gc_pos_cmp(&p, &p), Ordering::Equal);
}

#[test]
fn test_gc_visited() {
    let gc = BtreeGc::new();
    let pos = gc_phase(GcPhase::Start);
    assert!(!gc_visited(&gc, &pos), "gc should not have visited Start yet");
    assert!(gc_visited(&gc, &gc_phase(GcPhase::NotRunning)));
}

#[test]
fn test_gc_default() {
    let gc = BtreeGc::default();
    assert_eq!(gc.pos.phase, GcPhase::NotRunning);
    assert!(!gc.running);
}

#[test]
fn test_gc_trigger() {
    let mut gc = BtreeGc::new();
    bch2_gc_gens_async(&mut gc);
    assert!(gc.triggered);
    bch2_fs_btree_gc_init_early(&mut gc);
    assert!(!gc.triggered);
}

#[test]
fn gc_place_survives_the_superblock() {
    let mut gc = BtreeGc::new();
    gc.pos = gc_pos_btree(4, 1, 99);
    let mut sb = BchSb { gc_pos: gc_phase(GcPhase::NotRunning), gc_pos_valid: false };
    assert_eq!(bch2_gc_pos_from_sb(&sb), None);
    bch2_gc_pos_to_sb(&gc, &mut sb);
    assert_eq!(bch2_gc_pos_from_sb(&sb), Some(gc.pos));
    assert_eq!(bch2_gc_pos_to_text(&gc.pos), "GC phase=Btree btree=4 level=1 pos=99");
    assert_eq!(
        bch2_merge_btree_nodes() + bch2_gc_accounting_start() + bch2_gc_accounting_done(),
        0
    );
}

#[test]
fn test_gc_gens_basic() {
    let mut gc = BtreeGc::new();
    let mut engine = BtreeEngine::new();
    let mut allocator = allocator();

    let paddr = 0x1000u64;
    engine.insert_entry_raw(BtreeId::Extents, extent(1, paddr), 0);

    let result = bch2_gc_gens(&engine, &mut allocator, &mut gc, 1);
    assert!(result.is_ok(), "bch2_gc_gens should succeed");

    let bucket_idx = paddr / BLOCKS_PER_BUCKET;
    assert_eq!(bucket_idx, 16);
    assert_eq!(state(&allocator, bucket_idx), BchDataType::User);
    assert_eq!(state(&allocator, 17), BchDataType::Free);
    assert_eq!(gc.pos.journal_seq, 1);
}

#[test]
fn test_check_topology_basic() {
    let mut engine = BtreeEngine::new();
    engine.insert_entry_raw(BtreeId::Extents, extent(10, 0x100), 0);
    engine.insert_entry_raw(BtreeId::Extents, extent(20, 0x200), 0);

    let result = bch2_check_topology(&engine);
    assert!(result.is_ok(), "topology check on consistent btree should pass");
}

#[test]
fn test_check_topology_empty_btree() {
    let engine = BtreeEngine::new();
    let result = bch2_check_topology(&engine);
    assert!(result.is_ok(), "topology check on empty btree should pass");
}

fn make_two_level_tree() -> Btree {
    let mut cache = NodeCache::new();

    let mut left = BtreeNode::new_leaf();
    left.insert(BtreeKey::new(10, 1, KeyType::Normal), BchVal::new(100, 0));
    left.insert(BtreeKey::new(20, 1, KeyType::Normal), BchVal::new(200, 0));
    left.insert(BtreeKey::new(30, 1, KeyType::Normal), BchVal::new(300, 0));

    let mut right = BtreeNode::new_leaf();
    right.insert(BtreeKey::new(40, 1, KeyType::Normal), BchVal::new(400, 0));
    right.insert(BtreeKey::new(50, 1, KeyType::Normal), BchVal::new(500, 0));

    let left_addr = cache.alloc_addr();
    let right_addr = cache.alloc_addr();
    cache.insert(left_addr, left);
    cache.insert(right_addr, right);

    let mut internal = BtreeNode::new_internal();
    let mut cur = 0u32;
    cur += internal.write_entry(cur, &BtreeKey::min_key(), &BchVal::new(left_addr, 0));
    cur += internal.write_entry(
        cur,
        &BtreeKey::new(40, 1, KeyType::Normal),
        &BchVal::new(right_addr, 0),
    );
    internal.sets[0] =
        BsetTree { data_offset: 0, end_offset: cur, aux_offset: 0, size: 2, extra: 0 };
    internal.key_count = 2;

    Btree::from_root(BtreeRoot::new(internal, 1), cache)
}

fn child_addrs(tree: &Btree) -> (u64, u64) {
    let root = &tree.root().node;
    let set = &root.sets[0];
    let (_, left_val) = root.read_entry(set, 1);
    let (_, right_val) = root.read_entry(set, 2);
    (left_val.paddr.addr, right_val.paddr.addr)
}

#[test]
fn test_check_allocations_basic() {
    let engine = BtreeEngine::new();
    let allocator = allocator();

    let result = bch2_check_allocations(&engine, &allocator);
    assert!(result.is_ok(), "allocations check should succeed");
    let discrepancies = result.unwrap();
    assert!(discrepancies.is_empty(), "expected no discrepancies, got: {:?}", discrepancies);
}

#[test]
fn allocations_without_references_are_found() {
    let mut engine = BtreeEngine::new();
    engine.insert_entry_raw(BtreeId::Extents, extent(1, 5 * 256), 0);
    let mut allocator = allocator();
    allocator.set_state(5, BchDataType::User);
    allocator.set_state(7, BchDataType::Btree);
    allocator.set_state(9, BchDataType::NeedDiscard);
    assert_eq!(
        bch2_check_allocations(&engine, &allocator).unwrap(),
        vec![Discrepancy::Unreferenced { bucket: 7, state: BchDataType::Btree }]
    );
}

#[test]
fn test_check_topology_with_root_range() {
    let mut engine = BtreeEngine::new();
    engine.insert_entry_raw(BtreeId::Extents, extent(10, 0x100), 0);
    engine.insert_entry_raw(BtreeId::Extents, extent(20, 0x200), 0);
    let result = bch2_check_topology(&engine);
    assert!(result.is_ok(), "topology check should pass with correct root range");
}

#[test]
fn test_check_topology_detects_out_of_order() {
    let mut engine = BtreeEngine::new();
    engine.insert_entry_raw(BtreeId::Extents, extent(20, 0x200), 0);
    engine.insert_entry_raw(BtreeId::Extents, extent(10, 0x100), 0);
    let result = bch2_check_topology(&engine);
    assert!(result.is_err(), "topology check should detect out-of-order entries");
    assert_eq!(result, Err(StorageError::Transaction(Fault::EntryOrder(BtreeId::Extents, 1))));
}

#[test]
fn topology_check_detects_duplicates() {
    let mut engine = BtreeEngine::new();
    engine.insert_entry_raw(BtreeId::Alloc, extent(10, 0x100), 0);
    engine.insert_entry_raw(BtreeId::Alloc, extent(10, 0x200), 0);
    assert_eq!(
        bch2_check_topology(&engine),
        Err(StorageError::Transaction(Fault::DuplicateEntry(
            BtreeId::Alloc,
            Bpos::new(0, 10, 0)
        )))
    );
}

#[test]
fn test_check_topology_recursive_tree() {
    let btree = make_two_level_tree();
    let mut engine = BtreeEngine::new();
    *engine.get_mut(BtreeId::Extents) = btree;

    let result = bch2_check_topology(&engine);
    assert!(result.is_ok(), "recursive topology check should pass");
}

#[test]
fn test_check_topology_detects_child_boundary_overlap() {
    let mut btree = make_two_level_tree();
    let (left_addr, right_addr) = child_addrs(&btree);
    let cache = btree.cache_mut();

    let mut right = cache.take_node(right_addr).expect("right child should exist in cache");
    right.min_key = Bpos::new(25, 1, 0);
    cache.insert(right_addr, right);

    let mut engine = BtreeEngine::new();
    *engine.get_mut(BtreeId::Extents) = btree;

    let result = bch2_check_topology(&engine);
    assert!(result.is_err(), "overlapping child boundary should fail topology check");

    assert_ne!(left_addr, right_addr);
}

#[test]
fn topology_check_detects_overlap_of_children() {
    let mut btree = make_two_level_tree();
    let (left_addr, right_addr) = child_addrs(&btree);
    let cache = btree.cache_mut();
    let mut left = cache.take_node(left_addr).unwrap();
    left.max_key = Bpos::new(0, 45, 1);
    cache.insert(left_addr, left);
    let mut right = cache.take_node(right_addr).unwrap();
    right.min_key = Bpos::new(0, 40, 1);
    cache.insert(right_addr, right);
    let mut engine = BtreeEngine::new();
    *engine.get_mut(BtreeId::Extents) = btree;
    assert_eq!(
        bch2_check_topology(&engine),
        Err(StorageError::Transaction(Fault::ChildOverlap(BtreeId::Extents, right_addr)))
    );
}

#[test]
fn topology_check_holds_leaves_against_their_range() {
    for (min, max, fault) in [
        (Bpos::new(0, 15, 1), Bpos::max_pos(), Fault::LeafMinKey(BtreeId::Extents)),
        (Bpos::new(0, 10, 1), Bpos::new(0, 25, 1), Fault::LeafMaxKey(BtreeId::Extents)),
    ] {
        let mut btree = make_two_level_tree();
        let (left_addr, _) = child_addrs(&btree);
        let mut left = btree.cache_mut().take_node(left_addr).unwrap();
        left.min_key = min;
        left.max_key = max;
        btree.cache_mut().insert(left_addr, left);
        let mut engine = BtreeEngine::new();
        *engine.get_mut(BtreeId::Extents) = btree;
        assert_eq!(bch2_check_topology(&engine), Err(StorageError::Transaction(fault)));
    }
}

#[test]
fn topology_check_detects_bad_children() {
    let mut empty = BtreeEngine::new();
    *empty.get_mut(BtreeId::Snapshots) =
        Btree::from_root(BtreeRoot::new(BtreeNode::new_internal(), 1), NodeCache::new());
    assert_eq!(
        bch2_check_topology(&empty),
        Err(StorageError::Transaction(Fault::EmptyInnerNode(BtreeId::Snapshots, 1)))
    );

    let mut null = BtreeEngine::new();
    let mut root = BtreeNode::new_internal();
    root.insert(BtreeKey::min_key(), BchVal::new(0, 0));
    *null.get_mut(BtreeId::Extents) =
        Btree::from_root(BtreeRoot::new(root, 1), NodeCache::new());
    assert_eq!(
        bch2_check_topology(&null),
        Err(StorageError::Transaction(Fault::NullChild(BtreeId::Extents)))
    );

    let mut tree = make_two_level_tree();
    let (left_addr, _) = child_addrs(&tree);
    tree.root.node.insert(BtreeKey::new(70, 1, KeyType::Normal), BchVal::new(left_addr, 0));
    let mut twice = BtreeEngine::new();
    *twice.get_mut(BtreeId::Extents) = tree;
    assert_eq!(
        bch2_check_topology(&twice),
        Err(StorageError::Transaction(Fault::ChildTwice(BtreeId::Extents, left_addr)))
    );

    let mut tree = make_two_level_tree();
    let (left_addr, _) = child_addrs(&tree);
    let mut left = tree.cache_mut().take_node(left_addr).unwrap();
    left.level = 3;
    tree.cache_mut().insert(left_addr, left);
    let mut levels = BtreeEngine::new();
    *levels.get_mut(BtreeId::Extents) = tree;
    assert_eq!(
        bch2_check_topology(&levels),
        Err(StorageError::Transaction(Fault::ChildLevel {
            btree: BtreeId::Extents,
            parent: 1,
            child: 3
        }))
    );
}

#[test]
fn test_check_topology_detects_missing_child() {
    let mut btree = make_two_level_tree();
    let (_, right_addr) = child_addrs(&btree);
    let _ = btree.cache_mut().take_node(right_addr).expect("right child should exist");

    let mut engine = BtreeEngine::new();
    *engine.get_mut(BtreeId::Extents) = btree;

    let result = bch2_check_topology(&engine);
    assert!(result.is_err(), "missing child node should fail topology check");
    assert_eq!(
        result,
        Err(StorageError::Transaction(Fault::ChildMissing(BtreeId::Extents, right_addr)))
    );
}

#[test]
fn test_gc_btrees_with_registry_none() {
    let mut engine = BtreeEngine::new();
    let paddr = 0x2000u64;
    engine.insert_entry_raw(BtreeId::Extents, extent(1, paddr), 0);

    let mut allocator = allocator();
    let result = bch2_gc_btrees(&engine, &mut allocator);
    assert!(result.is_ok(), "bch2_gc_btrees should succeed");

    let bucket_idx = paddr / BLOCKS_PER_BUCKET;
    assert_eq!(state(&allocator, bucket_idx), BchDataType::User);
    assert_eq!(allocator.buckets[bucket_idx as usize].version, 1);
}

#[test]
fn test_gc_btrees_collects_entries() {
    let mut engine = BtreeEngine::new();
    engine.insert_entry_raw(BtreeId::Extents, extent(1, 0x3000), 0);
    engine.insert_entry_raw(BtreeId::Alloc, extent(5, 0x4000), 0);

    let mut allocator = allocator();
    let result = bch2_gc_btrees(&engine, &mut allocator);
    assert!(result.is_ok(), "bch2_gc_btrees with multiple btrees should succeed");

    assert_eq!(state(&allocator, 0x3000 / BLOCKS_PER_BUCKET), BchDataType::User);
    assert_eq!(state(&allocator, 0x4000 / BLOCKS_PER_BUCKET), BchDataType::User);
}

#[test]
fn gc_btrees_marks_nothing_in_a_broken_tree() {
    let mut engine = BtreeEngine::new();
    engine.insert_entry_raw(BtreeId::Extents, extent(20, 0x3000), 0);
    engine.insert_entry_raw(BtreeId::Extents, extent(10, 0x4000), 0);
    let mut allocator = allocator();
    assert!(bch2_gc_btrees(&engine, &mut allocator).is_err());
    assert_eq!(state(&allocator, 0x3000 / BLOCKS_PER_BUCKET), BchDataType::Free);
}

#[test]
fn marking_follows_every_kind_of_value() {
    let engine = BtreeEngine::new();
    let mut a = allocator();
    a.buckets[3].version = u32::MAX;
    let at = Bpos::new(0, 1, 0);
    bch2_gc_mark_key(&engine, &mut a, &extent(1, 2 * 256)).unwrap();
    let ptr = BtreePtrV2 { block_addr: 3 * 256 + 7, sectors_written: 8, level: 0, generation: 1 };
    bch2_gc_mark_key(
        &engine,
        &mut a,
        &BtreeEntry::new(at, KeyType::Normal, KeyValue::BtreePtr(ptr)),
    )
    .unwrap();
    bch2_gc_mark_key(
        &engine,
        &mut a,
        &BtreeEntry::raw(at, KeyType::Normal, vec![0, 4, 0, 0, 0, 0, 9, 9]),
    )
    .unwrap();
    bch2_gc_mark_key(&engine, &mut a, &BtreeEntry::raw(at, KeyType::Normal, vec![0, 5, 0])).unwrap();
    assert_eq!(state(&a, 2), BchDataType::User);
    assert_eq!(state(&a, 3), BchDataType::User);
    assert_eq!(a.buckets[3].version, 0);
    assert_eq!(state(&a, 4), BchDataType::User);
    assert_eq!(state(&a, 5), BchDataType::Free);
}

#[test]
fn triggers_are_told_keys_and_values_as_bytes() {
    let e = BtreeEntry::raw(Bpos::new(9, 0x0102, 3), KeyType::Whiteout, vec![7, 8]);
    let t = gc_trigger(BtreeId::Freespace, &e);
    assert_eq!(t.btree, BtreeId::Freespace);
    assert_eq!(t.key_type, 2);
    assert_eq!(t.key, vec![2, 1, 0, 0, 0, 0, 0, 0, 3, 0, 0, 0, 2, 0, 0, 0]);
    assert_eq!(t.value, vec![7, 8]);
}

#[test]
fn test_gc_sweep_reclaims_unreferenced_user_bucket() {
    let mut engine = BtreeEngine::new();
    let mut allocator = allocator();

    let paddr = 0x5000u64;
    engine.insert_entry_raw(BtreeId::Extents, extent(1, paddr), 0);

    let bucket_ref = paddr / BLOCKS_PER_BUCKET;
    let bucket_unref = 30u64;

    for b in [bucket_ref, bucket_unref] {
        allocator.set_state(b, BchDataType::User);
        allocator.buckets[b as usize].version += 1;
    }

    let stats = bch2_gc_sweep(&engine, &mut allocator).unwrap();

    assert_eq!(state(&allocator, bucket_ref), BchDataType::User);
    assert_eq!(state(&allocator, bucket_unref), BchDataType::Free);

    assert_eq!(stats.reclaimed_count, 1, "should reclaim 1 bucket");
    assert_eq!(stats.reclaimed_buckets, vec![bucket_unref]);
}

#[test]
fn test_gc_sweep_preserves_sb_journal_btree() {
    let engine = BtreeEngine::new();
    let mut allocator = allocator();

    allocator.set_state(0, BchDataType::Sb);
    allocator.set_state(1, BchDataType::Journal);
    allocator.set_state(2, BchDataType::Btree);

    let stats = bch2_gc_sweep(&engine, &mut allocator).unwrap();

    assert_eq!(state(&allocator, 0), BchDataType::Sb);
    assert_eq!(state(&allocator, 1), BchDataType::Journal);
    assert_eq!(state(&allocator, 2), BchDataType::Btree);

    assert!(stats.skipped_state > 0, "should have skipped non-User/non-NeedGcGens buckets");
    assert_eq!(stats.skipped_state, 1024);
}

#[test]
fn test_gc_sweep_cleans_needgcgens_transient() {
    let engine = BtreeEngine::new();
    let mut allocator = allocator();

    allocator.set_state(5, BchDataType::NeedGcGens);
    allocator.set_state(10, BchDataType::NeedGcGens);

    let stats = bch2_gc_sweep(&engine, &mut allocator).unwrap();

    assert_eq!(state(&allocator, 5), BchDataType::Free);
    assert_eq!(state(&allocator, 10), BchDataType::Free);

    assert_eq!(stats.reclaimed_count, 2, "should reclaim 2 NeedGcGens buckets");
}

#[test]
fn test_gc_sweep_empty_engine_no_reclaim() {
    let engine = BtreeEngine::new();
    let mut allocator = allocator();

    let stats = bch2_gc_sweep(&engine, &mut allocator).unwrap();

    assert_eq!(stats.reclaimed_count, 0);
}

#[test]
fn snapshots_of_buckets_show_what_changed() {
    let engine = BtreeEngine::new();
    let mut a = allocator();
    a.set_state(1, BchDataType::User);
    a.set_state(2, BchDataType::Btree);
    let before = bch2_gc_alloc_start(&a);
    assert_eq!(before, vec![(1, BchDataType::User), (2, BchDataType::Btree)]);
    assert_eq!(bch2_gc_alloc_done(&engine, &a, before.clone()).unwrap(), vec![]);
    a.set_state(1, BchDataType::Free);
    a.set_state(2, BchDataType::Journal);
    a.set_state(3, BchDataType::Sb);
    assert_eq!(
        bch2_gc_alloc_done(&engine, &a, before).unwrap(),
        vec![
            Discrepancy::Released { bucket: 1, was: BchDataType::User },
            Discrepancy::Allocated { bucket: 3, now: BchDataType::Sb },
            Discrepancy::Changed {
                bucket: 2,
                was: BchDataType::Btree,
                now: BchDataType::Journal
            },
        ]
    );
}

#[test]
fn alloc_info_is_compared_with_buckets() {
    let mut engine = BtreeEngine::new();
    let mut a = BchAllocator::new(5 * 256);
    a.set_state(1, BchDataType::User);
    a.buckets[2].version = 7;
    let raw = |offset: u64, snapshot: u32, v: Vec<u8>| {
        BtreeEntry::raw(Bpos::new(0, offset, snapshot), KeyType::Normal, v)
    };
    // A value of one byte stands for the bucket of that number as it is now.
    let buckets = a.buckets.clone();
    let decode = |b: &Vec<u8>| -> Option<BchAllocEntry> {
        if (b[0] as usize) < buckets.len() {
            Some(buckets[b[0] as usize].entry())
        } else {
            None
        }
    };
    for (offset, v) in [(0u64, 0u8), (1, 1), (2, 0), (4, 99), (9, 3)] {
        assert!(engine.insert_entry_raw(BtreeId::Alloc, raw(offset, 0, vec![v]), 0));
    }
    for (offset, version) in [(0u64, 0u32), (1, 5), (2, 6), (3, 0)] {
        assert!(engine.insert_entry_raw(BtreeId::Freespace, raw(offset, version, vec![]), 0));
    }
    let found = bch2_check_alloc_info(&engine, &a, &decode).unwrap();
    assert_eq!(
        found,
        vec![
            Discrepancy::BadAllocValue { bucket: 4 },
            Discrepancy::StaleAllocatedFreespace { bucket: 1, version: 5 },
            Discrepancy::AllocMismatch {
                bucket: 2,
                alloc: a.buckets[0].entry(),
                allocator: a.buckets[2].entry()
            },
            Discrepancy::MissingFreespace { bucket: 2, version: 7 },
            Discrepancy::StaleFreespace { bucket: 2, version: 6, expected: 7 },
            Discrepancy::MissingAllocEntry { bucket: 3 },
            Discrepancy::MissingAllocEntry { bucket: 4 },
            Discrepancy::MissingFreespace { bucket: 4, version: 0 },
            Discrepancy::MissingBucket { bucket: 9, alloc: a.buckets[3].entry() },
        ]
    );
}

#[test]
fn presplit_leaves_short_trees_alone() {
    let mut engine = BtreeEngine::new();
    engine.insert_entry_raw(BtreeId::Extents, extent(1, 256), 0);
    assert!(bch2_presplit_shard_boundaries(&mut engine).is_ok());
    assert_eq!(engine.get(BtreeId::Extents).depth(), 0);

    for i in 0..10u64 {
        engine.insert_entry_raw(BtreeId::Alloc, extent(1020 + i, 256), 0);
    }
    assert!(bch2_presplit_shard_boundaries(&mut engine).is_ok());
    assert_eq!(engine.get(BtreeId::Extents).depth(), 0);
    assert_eq!(engine.get(BtreeId::Alloc).depth(), 1);
}

#[test]
fn buckets_behind_a_pending_tombstone_stay() {
    let mut engine = BtreeEngine::new();
    let mut allocator = allocator();
    for i in 0..16u64 {
        engine.insert_entry_raw(BtreeId::Extents, extent(i, (i + 10) * BLOCKS_PER_BUCKET), 0);
    }
    engine.get_mut(BtreeId::Extents).compact();
    assert!(engine.delete_entry(BtreeId::Extents, &BtreeKey::new(3, 0, KeyType::Normal), 1));
    engine.insert_entry_raw(BtreeId::Extents, extent(3, 40 * BLOCKS_PER_BUCKET), 2);
    for b in [25, 40, 50] {
        allocator.set_state(b, BchDataType::User);
    }
    assert_eq!(
        bch2_check_allocations(&engine, &allocator).unwrap(),
        vec![Discrepancy::Unreferenced { bucket: 50, state: BchDataType::User }]
    );
    let stats = bch2_gc_sweep(&engine, &mut allocator).unwrap();
    assert_eq!(stats.reclaimed_buckets, vec![50]);
    assert_eq!(state(&allocator, 25), BchDataType::User);
    assert_eq!(state(&allocator, 40), BchDataType::User);
}

#[test]
fn an_entry_is_marked_and_told_of() {
    let engine = BtreeEngine::new();
    let mut allocator = allocator();
    let e = extent(1, 7 * BLOCKS_PER_BUCKET);
    let t = gc_mark_entry(&engine, &mut allocator, BtreeId::Extents, &e).unwrap();
    let alone = gc_trigger(BtreeId::Extents, &e);
    assert_eq!((t.btree, t.key_type), (alone.btree, alone.key_type));
    assert_eq!((t.key, t.value), (alone.key, alone.value));
    let mut other = BchAllocator::new(1024 * 256);
    bch2_gc_mark_key(&engine, &mut other, &e).unwrap();
    assert_eq!(state(&allocator, 7), state(&other, 7));
}

#[test]
fn a_snapshot_agrees_with_itself_alone() {
    let engine = BtreeEngine::new();
    let mut allocator = allocator();
    allocator.set_state(3, BchDataType::User);
    allocator.set_state(4, BchDataType::Btree);
    let snap = bch2_gc_alloc_start(&allocator);
    assert!(bch2_gc_alloc_done(&engine, &allocator, snap.clone()).unwrap().is_empty());
    allocator.set_state(3, BchDataType::Free);
    allocator.set_state(4, BchDataType::Journal);
    allocator.set_state(5, BchDataType::Parity);
    let found = bch2_gc_alloc_done(&engine, &allocator, snap).unwrap();
    assert_eq!(found.len(), 3);
}

#[test]
fn discrepancies_as_text() {
    let user = BchDataType::User;
    assert_eq!(
        Discrepancy::Unreferenced { bucket: 7, state: user }.to_text(),
        "bucket 7 allocated (User) but not referenced by any extent"
    );
    assert_eq!(
        Discrepancy::Released { bucket: 8, was: user }.to_text(),
        "bucket 8 was User but is now free/unreferenced"
    );
    assert_eq!(
        Discrepancy::Allocated { bucket: 9, now: BchDataType::Btree }.to_text(),
        "bucket 9 is now Btree but was not previously allocated"
    );
    assert_eq!(
        Discrepancy::Changed { bucket: 10, was: user, now: BchDataType::Cached }.to_text(),
        "bucket 10 changed from User to Cached"
    );
    assert_eq!(
        Discrepancy::BadAllocValue { bucket: 11 }.to_text(),
        "alloc key 11 failed to deserialize"
    );
    assert_eq!(
        Discrepancy::MissingAllocEntry { bucket: 12 }.to_text(),
        "missing alloc entry for bucket 12"
    );
    assert_eq!(
        Discrepancy::MissingFreespace { bucket: 13, version: 2 }.to_text(),
        "missing freespace entry for free bucket 13 gen 2"
    );
    assert_eq!(
        Discrepancy::StaleFreespace { bucket: 14, version: 2, expected: 3 }.to_text(),
        "stale freespace entry for bucket 14 gen 2 (expected 3)"
    );
    assert_eq!(
        Discrepancy::StaleAllocatedFreespace { bucket: 15, version: 1 }.to_text(),
        "stale freespace entry for allocated bucket 15 gen 1"
    );
}
