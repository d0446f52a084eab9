//! Nodes and their records.

use volmount_btree::crc::crc32c;
use volmount_btree::error::{Fault, StorageError};
use volmount_btree::header::{
    BsetHeader, BtreeNodeDiskEntry, BtreeNodeHeader, BLOCK_SIZE, BTREE_NODE_ENTRY_MAGIC,
    BTREE_NODE_MAGIC, BTREE_NODE_VERSION, SECTORS_PER_BLOCK, SECTOR_SIZE,
};
use volmount_btree::key::{
    BchVal, Bpos, BtreeEntry, BtreeKey, BtreePtrV2, KeyType, KeyValue,
};
use volmount_btree::node::{BtreeNode, NodeState, DEFAULT_NODE_SIZE};
use volmount_btree::record::write_record_crc;
use volmount_btree::node_split::{
    balance_target_u64s, btree_max_u64s, merge_fits_high_mark, should_merge, should_split,
};

fn key(v: u64) -> BtreeKey {
    BtreeKey::new(v, 1, KeyType::Normal)
}

#[test]
fn test_new() {
    let n = BtreeNode::new_leaf();
    assert_eq!(n.level, 0);
    assert_eq!(n.node_size, DEFAULT_NODE_SIZE);
    assert!(n.is_alive());
}

#[test]
fn test_internal() {
    assert_eq!(BtreeNode::new_internal().level, 1);
}

#[test]
fn test_write_read() {
    let mut n = BtreeNode::new_leaf();
    let k = BtreeKey::new(100, 1, KeyType::Normal);
    let v = BchVal::new(0xABCD, 42);
    n.sets[0].data_offset = 64;
    let written = n.write_entry(64, &k, &v);
    n.sets[0].end_offset = 64 + written;
    assert_eq!(n.read_entry(&n.sets[0], 1), (k, v));
}

#[test]
fn test_eytzinger_build() {
    let keys = vec![
        (BtreeKey::new(10, 1, KeyType::Normal), BchVal::new(1, 0)),
        (BtreeKey::new(20, 1, KeyType::Normal), BchVal::new(2, 0)),
        (BtreeKey::new(30, 1, KeyType::Normal), BchVal::new(3, 0)),
    ];
    let eyt = BtreeNode::build_eytzinger(&keys);
    assert_eq!(eyt.len(), 4);
    assert_eq!(eyt[1].0.get_vaddr(), 20);
    assert_eq!(eyt[2].0.get_vaddr(), 10);
    assert_eq!(eyt[3].0.get_vaddr(), 30);
}

#[test]
fn test_search() {
    let mut n = BtreeNode::new_leaf();
    let key = BtreeKey::new(42, 1, KeyType::Normal);
    let val = BchVal::new(0xFF, 1);
    n.sets[0].data_offset = 64;
    let written = n.write_entry(64, &key, &val);
    n.sets[0].end_offset = 64 + written;
    n.sets[0].size = 1;
    assert_eq!(n.search(&key), Some((key, val)));
    assert!(n.search(&BtreeKey::new(99, 1, KeyType::Normal)).is_none());
}

#[test]
fn test_insert() {
    let mut n = BtreeNode::new_leaf();
    assert!(n.insert(key(100), BchVal::new(1, 0)));
    assert!(n.search(&key(100)).is_some());
}

#[test]
fn test_insert_multi() {
    let mut n = BtreeNode::new_leaf();
    for i in 0..20 {
        assert!(n.insert(key(i as u64), BchVal::new(i as u64, i as u16)));
    }
    for i in 0..20 {
        let found = n.search(&key(i as u64));
        assert!(found.is_some(), "key {} not found", i);
    }
}

#[test]
fn test_compact() {
    let mut n = BtreeNode::new_leaf();
    n.insert(key(50), BchVal::new(1, 0));
    n.insert(key(100), BchVal::new(2, 0));
    n.compact();
    assert_eq!(n.key_count, 2);
    assert!(n.search(&key(50)).is_some());
    assert!(n.search(&key(100)).is_some());
}

#[test]
fn test_compact_dedup() {
    let mut n = BtreeNode::new_leaf();
    n.insert(key(100), BchVal::new(1, 0));
    n.insert(key(100), BchVal::new(2, 0));
    n.compact();
    assert_eq!(n.key_count, 1);
}

#[test]
fn test_compact_roundtrip() {
    let mut n = BtreeNode::new_leaf();
    for i in 0..15 {
        n.insert(key(i as u64), BchVal::new(i as u64, 0));
    }
    n.compact();
    for i in 0..15 {
        assert!(n.search(&key(i as u64)).is_some(), "lost {}", i);
    }
}

#[test]
fn test_multi_set_search() {
    let mut n = BtreeNode::new_leaf();
    n.sets[0].data_offset = 64;
    let written = n.write_entry(64, &key(10), &BchVal::new(1, 0));
    n.sets[0].end_offset = 64 + written;
    n.sets[0].size = 1;
    n.insert(key(20), BchVal::new(2, 0));
    assert!(n.search(&key(10)).is_some());
}

#[test]
fn test_state() {
    let mut n = BtreeNode::new_leaf();
    assert!(n.is_alive());
    n.bch2_btree_node_transition_state(NodeState::Deleting);
    assert!(!n.is_alive());
}

#[test]
fn test_refcount() {
    let mut n = BtreeNode::new_leaf();
    assert_eq!(n.refcount(), 1);
    n.refcount += 1;
    assert_eq!(n.refcount(), 2);
}

#[test]
fn test_large_insert() {
    let mut n = BtreeNode::new_leaf();
    for i in 0..100 {
        assert!(n.insert(key(i as u64), BchVal::new(i as u64, 0)), "insert {}", i);
    }
    n.compact();
    for i in 0..100 {
        assert!(n.search(&key(i as u64)).is_some(), "lost {}", i);
    }
}

#[test]
fn test_delete_bcachefs_insert_deleted_entry() {
    let mut n = BtreeNode::new_leaf();
    for i in 0..50 {
        n.insert(key(i as u64), BchVal::new(i, 0));
    }
    assert!(n.delete_key(&key(42)), "delete should succeed");

    assert!(n.search(&key(42)).is_some(), "search still finds Normal entry before compact");

    n.compact();
    assert!(n.search(&key(42)).is_none(), "after compact, deleted key is gone");
    assert!(n.search(&key(0)).is_some(), "other keys survive");
}

#[test]
fn test_delete_nonexistent_key() {
    let mut n = BtreeNode::new_leaf();
    n.insert(key(100), BchVal::new(1, 0));
    assert!(!n.delete_key(&key(999)), "nonexistent key");
}

#[test]
fn test_delete_then_insert_overwrite() {
    let mut n = BtreeNode::new_leaf();
    n.insert(key(100), BchVal::new(1, 0));
    n.delete_key(&key(100));
    n.insert(key(100), BchVal::new(2, 0));

    n.compact();
    let found = n.search(&key(100));
    assert!(found.is_some(), "insert-after-delete should restore key");
    assert_eq!(found.unwrap().1, BchVal::new(2, 0), "last value wins");
    assert_eq!(n.key_count, 1);
}

#[test]
fn test_delete_twice_idempotent() {
    let mut n = BtreeNode::new_leaf();
    n.insert(key(100), BchVal::new(1, 0));

    assert!(n.delete_key(&key(100)), "first delete");
    assert!(!n.delete_key(&key(100)), "second delete returns false");

    n.compact();
    assert_eq!(n.key_count, 0, "after compact, key is gone");
}

#[test]
fn test_delete_multiple_keys() {
    let mut n = BtreeNode::new_leaf();
    n.insert(key(10), BchVal::new(10, 0));
    n.insert(key(20), BchVal::new(20, 0));
    n.insert(key(30), BchVal::new(30, 0));

    n.delete_key(&key(20));
    n.compact();

    assert_eq!(n.key_count, 2);
    assert!(n.search(&key(10)).is_some(), "key 10 survives");
    assert!(n.search(&key(20)).is_none(), "key 20 deleted");
    assert!(n.search(&key(30)).is_some(), "key 30 survives");
}

#[test]
fn test_delete_triggers_auto_compact() {
    let mut n = BtreeNode::new_leaf();
    for i in 0..9 {
        n.insert(key(i as u64), BchVal::new(i, 0));
    }
    n.delete_key(&key(1));
    n.delete_key(&key(3));
    assert_eq!(n.whiteout_count, 0, "auto-compact should reset whiteout_count");
    assert!(n.search(&key(1)).is_none(), "key 1 gone");
    assert!(n.search(&key(3)).is_none(), "key 3 gone");
    assert!(n.search(&key(5)).is_some(), "key 5 survives");
}

#[test]
fn test_delete_empty_node() {
    let mut n = BtreeNode::new_leaf();
    assert!(!n.delete_key(&key(100)), "empty node");
}

#[test]
fn test_delete_compact_dedup_insert_delete_mixed() {
    let mut n = BtreeNode::new_leaf();
    for i in 0..30 {
        n.insert(key(i as u64), BchVal::new(i * 10, 0));
    }
    n.insert(key(1), BchVal::new(11, 0));
    n.insert(key(2), BchVal::new(21, 0));
    n.insert(key(1), BchVal::new(12, 0));
    n.delete_key(&key(1));
    n.delete_key(&key(2));
    n.insert(key(1), BchVal::new(13, 0));

    n.compact();
    let a = n.search(&key(1)).unwrap();
    assert_eq!(a.1, BchVal::new(13, 0), "key 1 has latest value");
    let b = n.search(&key(2));
    assert!(b.is_none(), "key 2 was deleted and not re-inserted");
    assert!(n.search(&key(0)).is_some(), "baseline key 0 survives");
}

fn build_filled_node(count: u32) -> BtreeNode {
    let mut node = BtreeNode::new_leaf();
    for i in 0..count {
        node.insert(key(i as u64), BchVal::new(i as u64, i as u16));
    }
    node
}

#[test]
fn test_header_roundtrip() {
    let h = BtreeNodeHeader {
        magic: BTREE_NODE_MAGIC,
        version: BTREE_NODE_VERSION,
        level: 0,
        node_type: 0,
        key_count: 42,
        bset_count: 1,
        crc32: 0xDEADBEEF,
        seq: 0,
        bucket_addr: 100,
        generation: 7,
        record_bytes: BLOCK_SIZE as u32,
        min_key_inode: Bpos::min_pos().inode,
        min_key_offset: Bpos::min_pos().offset,
        min_key_snapshot: Bpos::min_pos().snapshot,
        max_key_inode: Bpos::max_pos().inode,
        max_key_offset: Bpos::max_pos().offset,
        max_key_snapshot: Bpos::max_pos().snapshot,
    };
    let bytes = h.to_bytes();
    assert_eq!(bytes.len(), 88, "BtreeNodeHeader must be exactly 88 bytes packed");
    let start = (h.magic, h.version, h.level, h.node_type, h.key_count, h.bset_count, h.crc32);
    let middle = (h.seq, h.bucket_addr, h.generation, h.record_bytes);
    let range = (
        h.min_key_inode,
        h.min_key_offset,
        h.min_key_snapshot,
        h.max_key_inode,
        h.max_key_offset,
        h.max_key_snapshot,
        [0u8; 6],
    );
    assert_eq!(bytes, bincode::serialize(&(start, middle, range)).unwrap());
    let h2 = BtreeNodeHeader::from_bytes(&bytes);
    assert_eq!(h.magic, h2.magic);
    assert_eq!(h.key_count, h2.key_count);
    assert_eq!(h.crc32, h2.crc32);
    assert_eq!(h.level, h2.level);
    assert_eq!(h.bucket_addr, h2.bucket_addr);
    assert_eq!(h.min_key(), h2.min_key());
    assert_eq!(h.max_key(), h2.max_key());
    assert_eq!(h, h2);
}

#[test]
fn test_disk_entry_roundtrip() {
    let e = BtreeNodeDiskEntry {
        magic: BTREE_NODE_ENTRY_MAGIC,
        version: BTREE_NODE_VERSION,
        _flags: 0,
        seq: 42,
        generation: 3,
        record_bytes: BLOCK_SIZE as u32,
        crc32: 0xCAFEBABE,
        _pad: 0,
    };
    let bytes = e.to_bytes();
    let e2 = BtreeNodeDiskEntry::read_at(&bytes, 0);
    assert_eq!(e.magic, e2.magic);
    assert_eq!(e.seq, e2.seq);
    assert_eq!(e.generation, e2.generation);
    assert_eq!(e.record_bytes, e2.record_bytes);
    assert_eq!(e.crc32, e2.crc32);
}

#[test]
fn test_serialize_deserialize_roundtrip() {
    let mut node = build_filled_node(20);
    node.compact();
    let bucket_addr = 100;
    let data = node.serialize_to_bucket(bucket_addr).unwrap();
    assert_eq!(data.len(), BLOCK_SIZE);

    let restored = BtreeNode::deserialize_from_bucket(&data).unwrap();
    assert_eq!(restored.key_count, node.key_count);
    assert_eq!(restored.level, node.level);
    for i in 0..20 {
        assert!(restored.search(&key(i)).is_some(), "key {} lost in roundtrip", i);
    }
}

#[test]
fn test_empty_node_roundtrip() {
    let node = BtreeNode::new_leaf();
    let bucket_addr = 200;
    let data = node.serialize_to_bucket(bucket_addr).unwrap();
    assert_eq!(data.len(), BLOCK_SIZE);

    let restored = BtreeNode::deserialize_from_bucket(&data).unwrap();
    assert_eq!(restored.key_count, 0);
    assert_eq!(restored.level, 0);
}

#[test]
fn test_pack_bset() {
    let mut node = build_filled_node(20);
    node.compact();
    let packed = node.pack_bset().unwrap();
    assert!(!packed.is_empty(), "pack_bset should return non-empty for 20 entries");
    assert!(packed.len() < BLOCK_SIZE, "packed bset should fit in one block");
    assert_eq!(packed.len(), 20 * 32);
}

#[test]
fn test_serialize_size() {
    let mut node = build_filled_node(20);
    node.compact();
    let data = node.serialize_to_bucket(100).unwrap();
    assert_eq!(data.len(), BLOCK_SIZE);
}

#[test]
fn test_serialize_existing_btree() {
    let mut node = build_filled_node(20);
    node.compact();
    let key_count_before = node.key_count;
    let data_before = node.data.clone();

    let _serialized = node.serialize_to_bucket(100).unwrap();

    assert_eq!(node.key_count, key_count_before);
    assert_eq!(node.data, data_before);
}

fn ptr_for(record: &[u8], addr: u64, level: u8, generation: u32) -> BtreePtrV2 {
    BtreePtrV2 {
        block_addr: addr,
        sectors_written: (record.len() / SECTOR_SIZE) as u16,
        level,
        generation,
    }
}

#[test]
fn test_extent_rejects_corrupt_committed_crc() {
    let mut node = build_filled_node(20);
    node.compact();
    let mut record = node.serialize_initial_record(100, 7).unwrap();
    record[200] ^= 0x80;
    let ptr = ptr_for(&record, 100, 0, 7);
    assert!(matches!(
        BtreeNode::deserialize_from_extent(&record, ptr),
        Err(StorageError::ChecksumMismatch { .. })
    ));
}

#[test]
fn test_extent_rejects_wrong_generation() {
    let node = build_filled_node(5);
    let record = node.serialize_initial_record(100, 7).unwrap();
    let ptr = ptr_for(&record, 100, 0, 8);
    assert!(matches!(
        BtreeNode::deserialize_from_extent(&record, ptr),
        Err(StorageError::InvalidData(_))
    ));
}

#[test]
fn test_extent_rejects_append_with_wrong_bset_offset() {
    let mut node = build_filled_node(5);
    let initial = node.serialize_initial_record(100, 3).unwrap();
    let initial_sectors = (initial.len() / SECTOR_SIZE) as u16;
    node.insert(key(99), BchVal::new(99, 1));
    let mut append = node.serialize_append_record(3, initial_sectors).unwrap();
    let bset_offset = 32;
    let mut bset = BsetHeader::read_at(&append, bset_offset);
    bset.flags = ((initial_sectors + SECTORS_PER_BLOCK) as u32) << 16;
    append[bset_offset..bset_offset + 24].copy_from_slice(&bset.to_bytes());
    write_record_crc(&mut append, 24);

    let mut extent = initial;
    extent.extend_from_slice(&append);
    let ptr = ptr_for(&extent, 100, 0, 3);
    assert!(matches!(
        BtreeNode::deserialize_from_extent(&extent, ptr),
        Err(StorageError::InvalidData(_))
    ));
}

#[test]
fn test_internal_pointer_value_roundtrip() {
    let mut node = BtreeNode::new_internal();
    let child = BtreePtrV2 { block_addr: 0x400, sectors_written: 16, level: 0, generation: 4 };
    assert!(node.insert_entry(&BtreeEntry::new(
        Bpos::min_pos(),
        KeyType::Normal,
        KeyValue::BtreePtr(child),
    )));
    let record = node.serialize_initial_record(0x800, 2).unwrap();
    let root_ptr = ptr_for(&record, 0x800, 1, 2);
    let restored = BtreeNode::deserialize_from_extent(&record, root_ptr).unwrap();
    let entry = restored.read_entry_raw(&restored.sets[0], 1);
    assert_eq!(entry.value.as_btree_ptr(), Some(&child));
}

// ── faults of records ───────────────────────────────────────────────────

fn fault(data: &[u8], ptr: BtreePtrV2) -> StorageError {
    match BtreeNode::deserialize_from_extent(data, ptr) {
        Ok(_) => panic!("accepted"),
        Err(e) => e,
    }
}

#[test]
fn pointers_are_checked_first() {
    let record = build_filled_node(3).serialize_initial_record(100, 1).unwrap();
    let good = ptr_for(&record, 100, 0, 1);
    assert_eq!(
        fault(&record, BtreePtrV2 { block_addr: 0, ..good }),
        StorageError::InvalidData(Fault::InvalidPointer)
    );
    assert_eq!(
        fault(&record, BtreePtrV2 { sectors_written: 3, ..good }),
        StorageError::InvalidData(Fault::PointerNotAligned)
    );
    assert!(matches!(
        fault(&record[..100], good),
        StorageError::InvalidData(Fault::ExtentTooShort { .. })
    ));
}

#[test]
fn appends_need_a_block_boundary_and_entries() {
    assert_eq!(
        BtreeNode::new_leaf().serialize_append_record(1, 8).err(),
        Some(StorageError::InvalidData(Fault::EmptyAppend))
    );
    let n = build_filled_node(3);
    assert_eq!(
        n.serialize_append_record(1, 3).err(),
        Some(StorageError::InvalidData(Fault::AppendNotAligned(3)))
    );
}

#[test]
fn records_that_do_not_fit_their_node_are_refused() {
    let mut n = build_filled_node(3);
    n.node_size = 1000;
    assert_eq!(
        n.serialize_initial_record(1, 1).err(),
        Some(StorageError::InvalidBlockSize(4096))
    );
}

#[test]
fn checksum_of_known_bytes() {
    assert_eq!(crc32c(b"123456789", 0), 0xE306_9283);
}

#[test]
fn shares_of_a_node() {
    assert_eq!(btree_max_u64s(1024), 128);
    assert!(should_split(97, 1024) && !should_split(96, 1024));
    assert!(should_merge(41, 1024) && !should_merge(42, 1024));
    assert!(merge_fits_high_mark(76, 1024) && !merge_fits_high_mark(77, 1024));
    assert_eq!(balance_target_u64s(100), 60);
}

#[test]
fn values_are_read_by_the_level_of_their_node() {
    let child = BtreePtrV2 { block_addr: 0x400, sectors_written: 16, level: 0, generation: 4 };
    let pos = Bpos::new(1, 5, 0);
    let entry = BtreeEntry { pos, key_type: KeyType::Normal, value: KeyValue::BtreePtr(child) };
    let bytes = entry.value.to_bytes();
    assert_eq!(bytes.len(), 16);

    let mut leaf = BtreeNode::new_leaf();
    assert!(leaf.insert_entry(&entry));
    assert_eq!(leaf.all_entries()[0].value, KeyValue::Raw(bytes.clone()));
    assert_eq!(leaf.collect_all_entries()[0].value, KeyValue::Raw(bytes));

    let mut inner = BtreeNode::new_internal();
    assert!(inner.insert_entry(&entry));
    assert!(inner.insert(key(9), BchVal::new(3, 1)));
    for es in [inner.all_entries(), inner.collect_all_entries()] {
        assert_eq!(es.len(), 2);
        assert!(es.iter().any(|e| e.value == KeyValue::BtreePtr(child)));
        assert!(es.iter().any(|e| e.value == KeyValue::Raw(BchVal::new(3, 1).to_bytes())));
    }
}

#[test]
fn merged_children_lose_both_entries_whatever_their_types() {
    let blank = |v: u64| BtreeKey::new(v, 1, KeyType::Whiteout);
    for (left, right) in [
        (key(10), key(20)),
        (blank(10), key(20)),
        (key(10), blank(20)),
        (blank(10), blank(20)),
    ] {
        let mut parent = BtreeNode::new_internal();
        parent.node_size = 128;
        for (k, addr) in [(BtreeKey::min_key(), 5), (left, 6), (right, 7), (blank(30), 8)] {
            assert!(parent.insert(k, BchVal::new(addr, 0)));
        }
        assert!(parent.update_parent_routing_after_merge(7, 6));
        let es: Vec<(BtreeKey, BchVal)> =
            parent.all_entries().iter().map(|e| e.to_legacy()).collect();
        assert_eq!(es.len(), 3);
        assert!(es.contains(&(BtreeKey::min_key(), BchVal::new(5, 0))));
        assert!(es.contains(&(left, BchVal::new(7, 0))));
        assert!(es.contains(&(blank(30), BchVal::new(8, 0))));
    }
}

#[test]
fn three_merged_children_lose_their_entries_whatever_their_types() {
    let blank = |v: u64| BtreeKey::new(v, 1, KeyType::Whiteout);
    let mut parent = BtreeNode::new_internal();
    for (k, addr) in [(key(5), 5), (blank(10), 6), (blank(20), 7), (key(30), 8)] {
        assert!(parent.insert(k, BchVal::new(addr, 0)));
    }
    assert!(parent.update_parent_routing_3to2(5, 6, 7, key(15)));
    let es: Vec<(BtreeKey, BchVal)> = parent.all_entries().iter().map(|e| e.to_legacy()).collect();
    assert_eq!(
        es,
        vec![
            (key(30), BchVal::new(8, 0)),
            (BtreeKey::min_key(), BchVal::new(5, 0)),
            (key(15), BchVal::new(7, 0)),
        ]
    );
}

#[test]
fn dropping_a_slot_compacts_the_rest() {
    let mut n = BtreeNode::new_leaf();
    n.insert(key(3), BchVal::new(3, 1));
    n.insert(key(1), BchVal::new(1, 1));
    n.insert(key(3), BchVal::new(33, 1));
    n.insert(BtreeKey::new(2, 1, KeyType::Whiteout), BchVal::new(2, 1));
    assert!(n.shows_slot(&key(2)));
    n.drop_slot(&key(2));
    assert!(!n.shows_slot(&key(2)));
    n.drop_slot(&key(9));
    let es: Vec<(BtreeKey, BchVal)> = n.all_entries().iter().map(|e| e.to_legacy()).collect();
    assert_eq!(es, vec![(key(1), BchVal::new(1, 1)), (key(3), BchVal::new(33, 1))]);
    assert_eq!(n.key_count, 2);
}

#[test]
fn absorbed_entries_lie_in_the_range_of_their_node() {
    let entry = |offset: u64| {
        BtreeEntry::new(Bpos::new(9, offset, 1), KeyType::Normal, KeyValue::extent(offset, 1))
    };
    let mut a = BtreeNode::new_leaf();
    let mut b = BtreeNode::new_leaf();
    assert!(a.insert_entry(&entry(5)) && a.insert_entry(&entry(4)));
    assert!(b.insert_entry(&entry(7)) && b.insert_entry(&entry(6)));
    a.absorb(&mut b);
    assert_eq!(a.min_key, Bpos::new(9, 4, 1));
    assert_eq!(a.max_key, Bpos::new(9, 7, 1));
    assert_eq!(a.key_count, 4);
    assert_eq!(b.key_count, 0);
}
