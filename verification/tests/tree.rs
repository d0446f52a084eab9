//! Trees: inserts, lookups, deletes, splits and merges.

use std::collections::HashMap;
use volmount_btree::btree::Btree;
use volmount_btree::bucket_io::{committed_blocks, initial_pointer, initial_write, record_start_block};
use volmount_btree::cache::NodeCache;
use volmount_btree::error::{Fault, StorageError};
use volmount_btree::header::{BLOCK_SIZE, SECTORS_PER_BLOCK, SECTOR_SIZE};
use volmount_btree::ids::BtreeId;
use volmount_btree::iter::{BtreeIter, BtreeRoot, IterFlags};
use volmount_btree::key::{BchVal, Bpos, BtreeEntry, BtreeKey, BtreePtrV2, KeyType, KeyValue};
use volmount_btree::node::{BsetTree, BtreeNode};
use volmount_btree::trans::BtreeTrans;

fn key(v: u64) -> BtreeKey {
    BtreeKey::new(v, 1, KeyType::Normal)
}

/// Blocks in memory.
struct Blocks {
    blocks: HashMap<u64, Vec<u8>>,
}

impl Blocks {
    fn new() -> Blocks {
        Blocks { blocks: HashMap::new() }
    }

    fn read(&self, start: u64, count: usize) -> Vec<u8> {
        let mut out = Vec::new();
        for i in 0..count as u64 {
            match self.blocks.get(&(start + i)) {
                Some(b) => out.extend_from_slice(b),
                None => out.extend_from_slice(&[0u8; BLOCK_SIZE]),
            }
        }
        out
    }

    fn write_record(&mut self, extent: u64, sector: u16, record: &[u8]) -> Result<(), StorageError> {
        let start = record_start_block(extent, sector, record.len())?;
        for (i, b) in record.chunks_exact(BLOCK_SIZE).enumerate() {
            self.blocks.insert(start + i as u64, b.to_vec());
        }
        Ok(())
    }

    fn write_initial(&mut self, node: &BtreeNode, addr: u64, generation: u32) -> BtreePtrV2 {
        let (record, ptr) = initial_write(node, addr, generation).unwrap();
        self.write_record(addr, 0, &record).unwrap();
        ptr
    }

    fn load(&self, ptr: BtreePtrV2) -> Result<BtreeNode, StorageError> {
        let n = committed_blocks(&ptr)?;
        let data = self.read(ptr.block_addr, n);
        BtreeNode::deserialize_from_extent(&data, ptr)
    }

    fn load_addr(&self, addr: u64) -> Result<(BtreeNode, BtreePtrV2), StorageError> {
        let first = self.read(addr, 1);
        let ptr = initial_pointer(&first, addr)?;
        let data = self.read(addr, ptr.sectors_written as usize / SECTORS_PER_BLOCK as usize);
        Ok((BtreeNode::deserialize_from_extent(&data, ptr)?, ptr))
    }

    fn load_tree(&self, tree: &mut Btree, node: BtreeNode, ptr: BtreePtrV2) -> Result<(), StorageError> {
        let mut seen = Vec::new();
        let mut stack = vec![(node, ptr)];
        while let Some((n, p)) = stack.pop() {
            for child in tree.take_loaded(n, p, &mut seen)? {
                stack.push((self.load(child)?, child));
            }
        }
        tree.finish_load(ptr)
    }
}

/// A root over two leaves.
fn make_two_level_tree() -> Btree {
    let mut cache = NodeCache::new();

    let mut left = BtreeNode::new_leaf();
    left.insert(key(10), BchVal::new(100, 0));
    left.insert(key(20), BchVal::new(200, 0));
    left.insert(key(30), BchVal::new(300, 0));

    let mut right = BtreeNode::new_leaf();
    right.insert(key(40), BchVal::new(400, 0));
    right.insert(key(50), BchVal::new(500, 0));

    let left_addr = cache.alloc_addr();
    let right_addr = cache.alloc_addr();
    cache.insert(left_addr, left);
    cache.insert(right_addr, right);

    let mut internal = BtreeNode::new_internal();
    let mut cur = 0u32;
    cur += internal.write_entry(cur, &BtreeKey::min_key(), &BchVal::new(left_addr, 0));
    cur += internal.write_entry(cur, &key(40), &BchVal::new(right_addr, 0));
    internal.sets[0] =
        BsetTree { data_offset: 0, end_offset: cur, aux_offset: 0, size: 2, extra: 0 };
    internal.key_count = 2;

    Btree::from_root(BtreeRoot::new(internal, 1), cache)
}

#[test]
fn test_load_root_from_ptr_recursively_loads_children() {
    let mut backend = Blocks::new();

    let mut left = BtreeNode::new_leaf();
    left.insert(key(10), BchVal::new(100, 0));
    left.insert(key(20), BchVal::new(200, 0));
    left.compact();
    let left_ptr = backend.write_initial(&left, 100, 7);

    let mut right = BtreeNode::new_leaf();
    right.insert(key(40), BchVal::new(400, 0));
    right.insert(key(50), BchVal::new(500, 0));
    right.compact();
    let right_ptr = backend.write_initial(&right, 200, 8);

    let mut root = BtreeNode::new_internal();
    let left_entry = BtreeEntry::new(
        BtreeKey::min_key().to_bpos(),
        KeyType::Normal,
        KeyValue::BtreePtr(left_ptr),
    );
    let right_entry =
        BtreeEntry::new(key(40).to_bpos(), KeyType::Normal, KeyValue::BtreePtr(right_ptr));
    assert!(root.insert_entry(&left_entry));
    assert!(root.insert_entry(&right_entry));
    root.compact();
    let root_ptr = backend.write_initial(&root, 300, 9);

    let mut btree = Btree::new();
    let node = backend.load(root_ptr).unwrap();
    backend.load_tree(&mut btree, node, root_ptr).unwrap();

    assert_eq!(btree.root_ptr(), &root_ptr);
    assert!(btree.cache.get(left_ptr.block_addr).is_some());
    assert!(btree.cache.get(right_ptr.block_addr).is_some());
    assert_eq!(btree.get(&key(10)).unwrap().1, BchVal::new(100, 0));
    assert_eq!(btree.get(&key(50)).unwrap().1, BchVal::new(500, 0));
}

#[test]
fn load_refuses_child_of_wrong_level() {
    let mut root = BtreeNode::new_internal();
    let child = BtreePtrV2 { block_addr: 100, sectors_written: 8, level: 3, generation: 1 };
    root.insert_entry(&BtreeEntry::new(
        BtreeKey::min_key().to_bpos(),
        KeyType::Normal,
        KeyValue::BtreePtr(child),
    ));
    let ptr = BtreePtrV2 { block_addr: 300, sectors_written: 8, level: 1, generation: 1 };
    let mut btree = Btree::new();
    let mut seen = Vec::new();
    let r = btree.take_loaded(root, ptr, &mut seen);
    assert_eq!(
        r.err(),
        Some(StorageError::InvalidData(Fault::ChildPtrLevel { parent: 1, child: 3 }))
    );
    assert_eq!(
        Btree::new().finish_load(ptr),
        Err(StorageError::NotFound(Fault::RootMissing))
    );
}

#[test]
fn test_btree_multi_level_insert() {
    let mut b = make_two_level_tree();

    assert!(b.insert(key(15), BchVal::new(150, 0), 0));
    let found = b.get(&key(15));
    assert!(found.is_some(), "inserted key 15 should be found");
    assert_eq!(found.unwrap().1, BchVal::new(150, 0));

    assert!(b.insert(key(45), BchVal::new(450, 0), 0));
    let found = b.get(&key(45));
    assert!(found.is_some(), "inserted key 45 should be found");
    assert_eq!(found.unwrap().1, BchVal::new(450, 0));

    assert!(b.get(&key(10)).is_some());
    assert!(b.get(&key(50)).is_some());
}

#[test]
fn test_btree_multi_level_delete() {
    let mut b = make_two_level_tree();

    assert!(b.delete(&key(10), 0));
    assert!(b.get(&key(10)).is_none(), "deleted key 10 gone");

    assert!(b.delete(&key(50), 0));
    assert!(b.get(&key(50)).is_none(), "deleted key 50 gone");

    assert!(b.get(&key(20)).is_some());
    assert!(b.get(&key(40)).is_some());

    assert!(!b.delete(&key(999), 0));
}

#[test]
fn test_btree_multi_level_insert_after_delete() {
    let mut b = make_two_level_tree();

    assert!(b.delete(&key(20), 0));
    assert!(b.get(&key(20)).is_none());

    assert!(b.insert(key(20), BchVal::new(999, 0), 0));
    let found = b.get(&key(20));
    assert!(found.is_some(), "re-inserted key 20 should be found");
    assert_eq!(found.unwrap().1, BchVal::new(999, 0));
}

#[test]
fn test_btree_multi_level_leaf_split() {
    let mut b = make_two_level_tree();

    let fill_count = 9040;
    for i in 31..=fill_count {
        assert!(b.insert(key(i), BchVal::new(i * 10, 0), 0));
    }

    let mid = fill_count / 2 + 30;
    assert!(b.get(&key(mid)).is_some(), "key {} should be findable after split", mid);
    assert!(
        b.get(&key(fill_count)).is_some(),
        "key {} should be findable after split",
        fill_count
    );

    assert!(b.get(&key(10)).is_some());
    assert!(b.get(&key(50)).is_some());

    assert_eq!(b.depth(), 1);
}

#[test]
fn test_btree_new() {
    let b = Btree::new();
    assert_eq!(b.depth(), 0);
    assert_eq!(b.key_count(), 0);
}

#[test]
fn test_btree_insert_and_count() {
    let mut b = Btree::new();
    let k = BtreeKey::new(100, 1, KeyType::Normal);
    let v = BchVal::new(0xABCD, 1);
    assert!(b.insert(k, v, 0));
    assert!(b.key_count() > 0);
}

#[test]
fn test_btree_get_empty() {
    let mut b = Btree::new();
    let result = b.get(&BtreeKey::new(100, 1, KeyType::Normal));
    assert!(result.is_none());
}

#[test]
fn test_btree_get_after_insert() {
    let mut b = Btree::new();
    let k = BtreeKey::new(42, 1, KeyType::Normal);
    let v = BchVal::new(0xFF, 1);
    assert!(b.insert(k, v, 0));
    let found = b.get(&k);
    assert!(found.is_some());
    assert_eq!(found.unwrap().0, k);
}

#[test]
fn test_btree_delete_no_panic() {
    let mut b = Btree::new();
    let k = BtreeKey::new(42, 1, KeyType::Normal);
    b.insert(k, BchVal::new(0xFF, 1), 0);
    b.delete(&k, 0);
}

#[test]
fn test_btree_transaction() {
    let b = Btree::new();
    let result = b.with_transaction(|trans: BtreeTrans| {
        let iter = BtreeIter::init(
            b.root(),
            &BtreeKey::new(100, 1, KeyType::Normal),
            IterFlags::default(),
            b.cache(),
            BtreeId::Extents,
            None,
        );
        assert!(iter.peek().is_none());
        ((), trans)
    });
    assert!(result.is_ok());
}

#[test]
fn transaction_that_starts_over_too_often_fails() {
    let b = Btree::new();
    let result = b.with_transaction(|trans: BtreeTrans| {
        let mut t = trans;
        for _ in 0..10_000 {
            t.trigger_node_split();
        }
        ((), t)
    });
    assert_eq!(result, Err(StorageError::Transaction(Fault::RestartLimit)));
}

#[test]
fn test_btree_multiple_inserts() {
    let mut b = Btree::new();
    for i in 0..10 {
        let k = BtreeKey::new(i, 1, KeyType::Normal);
        assert!(b.insert(k, BchVal::new(i * 10, 1), 0));
    }
    assert_eq!(b.key_count(), 10);
}

#[test]
fn test_split_propagation_3level() {
    let mut b = Btree::new();
    let small_size = 512u32;
    b.root.node.node_size = small_size;

    let total_keys = 5000u64;
    for i in 0..total_keys {
        assert!(
            b.insert(key(i), BchVal::new(i * 10, 0), 0),
            "insert failed at i={}, depth={}, cache_len={}",
            i,
            b.depth(),
            b.cache().len()
        );
    }
    assert_eq!(b.depth(), 3);
    assert_eq!(b.key_count(), total_keys as u32);

    for i in 0..total_keys {
        let found = b.get(&key(i));
        assert!(found.is_some(), "key {} should be reachable after split propagation", i);
        assert_eq!(found.unwrap().1, BchVal::new(i * 10, 0));
    }
}

#[test]
fn test_insert_routing_no_wrap_panic() {
    let mut b = Btree::new();
    b.root.node.node_size = 256;

    let total = 3000u64;
    for i in 0..total {
        assert!(
            b.insert(key(i), BchVal::new(i * 10, 0), 0),
            "insert failed at i={}, depth={}",
            i,
            b.depth()
        );
    }
    assert!(b.depth() >= 2);

    for i in 0..total {
        let found = b.get(&key(i));
        assert!(found.is_some(), "key {} should be reachable", i);
        assert_eq!(found.unwrap().1, BchVal::new(i * 10, 0));
    }
}

#[test]
fn test_insert_routing_path_empty() {
    let mut b = Btree::new();
    b.root.node.node_size = 256;

    let total = 200u64;
    for i in 0..total {
        assert!(b.insert(key(i), BchVal::new(i * 5, 0), 0), "insert failed at i={}", i);
    }
    assert!(b.depth() >= 1, "tree should have depth >=1 after split_root");
    assert_eq!(b.key_count(), total as u32, "all keys counted");

    for i in 0..total {
        let found = b.get(&key(i));
        assert!(found.is_some(), "key {} should be reachable after split_root", i);
    }
}

#[test]
fn test_split_root_propagates_journal_seq() {
    let mut b = Btree::new();
    let split_seq = 77u64;
    {
        let root = b.root_node_mut_internal();
        root.node_size = 256;
        root.journal_seq = 13;
        for i in 0..8u64 {
            assert!(root.insert(key(i), BchVal::new(i * 3, 0)));
        }
    }
    assert!(b.split_root(None, split_seq));

    let flushed = b.flush_dirty();
    assert!(!flushed.is_empty(), "split_root should leave dirty nodes to flush");
    for (addr, node) in flushed {
        assert_eq!(
            node.journal_seq, split_seq,
            "node {} should inherit the split journal_seq",
            addr
        );
    }
}

#[test]
fn test_split_balanced_byte_size() {
    let mut node = BtreeNode::new_leaf();
    for i in 0..9 {
        assert!(node.insert(key(i as u64), BchVal::new(i as u64 * 10, 0)));
    }
    let (median_key, right_half) = node.split().expect("split should succeed with 9 entries");
    assert!(median_key.get_vaddr() > 0, "median_key should be valid");

    let left_bytes = node.total_data_bytes();
    let right_bytes = right_half.total_data_bytes();
    let total_bytes = left_bytes + right_bytes;
    let half_bytes = total_bytes / 2;

    let left_diff_pct = if left_bytes > half_bytes {
        (left_bytes - half_bytes) as f64 / half_bytes as f64 * 100.0
    } else {
        (half_bytes - left_bytes) as f64 / half_bytes as f64 * 100.0
    };
    let right_diff_pct = if right_bytes > half_bytes {
        (right_bytes - half_bytes) as f64 / half_bytes as f64 * 100.0
    } else {
        (half_bytes - right_bytes) as f64 / half_bytes as f64 * 100.0
    };

    assert!(left_diff_pct <= 35.0);
    assert!(right_diff_pct <= 35.0);

    for i in 0..6 {
        let found = node.search(&key(i));
        assert!(found.is_some(), "left entry {} should survive split", i);
    }
    for i in 6..9 {
        let found = right_half.search(&key(i));
        assert!(found.is_some(), "right entry {} should survive split", i);
    }
}

#[test]
fn test_insert_routing_clean_loop() {
    let mut b = Btree::new();
    b.root.node.node_size = 512;

    let total = 2000u64;
    for i in 0..total {
        assert!(
            b.insert(key(i), BchVal::new(i * 10, 0), 0),
            "insert failed at i={}, depth={}",
            i,
            b.depth()
        );
    }

    assert!(b.depth() >= 2);
    assert_eq!(b.key_count(), total as u32);

    for i in 0..total {
        let found = b.get(&key(i));
        assert!(found.is_some(), "key {} lost after routing loop", i);
        assert_eq!(found.unwrap().1, BchVal::new(i * 10, 0));
    }
}

#[test]
fn test_insert_routing_at_path_boundary() {
    let mut b = Btree::new();
    b.root.node.node_size = 384;

    let total = 4000u64;
    for i in 0..total {
        assert!(
            b.insert(key(i), BchVal::new(i * 10, 0), 0),
            "insert failed at i={}, depth={}",
            i,
            b.depth()
        );
    }

    assert!(b.depth() >= 2);
    assert_eq!(b.key_count(), total as u32);

    for i in 0..total {
        let found = b.get(&key(i));
        assert!(found.is_some(), "key {} lost after at_path_boundary split", i);
    }
}

#[test]
fn test_leaf_merge_after_delete() {
    let mut b = Btree::new();
    b.root.node.node_size = 512;

    for i in 0..30u64 {
        assert!(b.insert(key(i), BchVal::new(i * 10, 0), 0), "insert failed at i={}", i);
    }
    assert_eq!(b.depth(), 1, "should be depth=1 after split");
    assert_eq!(b.key_count(), 30, "all 30 keys inserted");

    for i in 0..10u64 {
        assert!(b.delete(&key(i), 0), "delete failed at i={}", i);
    }

    assert_eq!(b.key_count(), 20);

    for i in 0..10u64 {
        assert!(b.get(&key(i)).is_none(), "deleted key {} should not exist", i);
    }

    for i in 10..30u64 {
        let found = b.get(&key(i));
        assert!(found.is_some(), "key {} should be reachable after merge", i);
        assert_eq!(found.unwrap().1, BchVal::new(i * 10, 0));
    }
}

#[test]
fn test_leaf_no_merge_above_threshold() {
    let mut b = Btree::new();
    b.root.node.node_size = 512;

    for i in 0..30u64 {
        assert!(b.insert(key(i), BchVal::new(i * 10, 0), 0));
    }
    let cache_len_before = b.cache().len();
    assert_eq!(b.key_count(), 30);

    assert!(b.delete(&key(0), 0));

    assert_eq!(b.cache().len(), cache_len_before);
    assert_eq!(b.key_count(), 29, "should have 29 keys after single delete");

    assert!(b.get(&key(0)).is_none());

    for i in 1..30u64 {
        let found = b.get(&key(i));
        assert!(found.is_some(), "key {} should exist", i);
    }
}

#[test]
fn test_leaf_merge_left_sibling() {
    let mut b = Btree::new();
    b.root.node.node_size = 256;

    let total = 120u64;
    for i in 0..total {
        assert!(b.insert(key(i), BchVal::new(i * 10, 0), 0), "insert failed at i={}", i);
    }
    assert!(b.depth() >= 2, "should have depth >= 2 (got {})", b.depth());

    let delete_start = 90u64;
    for i in delete_start..total {
        assert!(b.delete(&key(i), 0), "delete failed at i={}", i);
    }

    assert_eq!(b.key_count(), delete_start as u32);

    for i in 0..delete_start {
        let found = b.get(&key(i));
        assert!(found.is_some(), "key {} should be reachable", i);
        assert_eq!(found.unwrap().1, BchVal::new(i * 10, 0));
    }
}

#[test]
fn test_leaf_merge_edge_min_key() {
    let mut b = Btree::new();
    b.root.node.node_size = 512;

    for i in 0..30u64 {
        assert!(b.insert(key(i), BchVal::new(i * 10, 0), 0));
    }
    assert_eq!(b.depth(), 1);
    assert_eq!(b.key_count(), 30);

    for i in 0..12u64 {
        assert!(b.delete(&key(i), 0), "delete failed at i={}", i);
    }

    assert_eq!(b.key_count(), 18);

    for i in 0..12u64 {
        assert!(b.get(&key(i)).is_none(), "deleted key {} should not exist", i);
    }

    for i in 12..30u64 {
        let found = b.get(&key(i));
        assert!(found.is_some(), "key {} should be reachable", i);
        assert_eq!(found.unwrap().1, BchVal::new(i * 10, 0));
    }
}

#[test]
fn test_cascade_merge_3level() {
    let mut b = Btree::new();
    b.root.node.node_size = 512;

    let total = 5000u64;
    for i in 0..total {
        assert!(b.insert(key(i), BchVal::new(i * 10, 0), 0), "insert failed at i={}", i);
    }
    assert_eq!(b.depth(), 3);
    assert_eq!(b.key_count(), total as u32);

    let check_keys: &[u64] = &[312, 313, 314, 315, 320, 350, 400, 500];

    for i in 250..400u64 {
        assert!(b.delete(&key(i), 0), "delete failed at i={}", i);
        if i % 5 == 0 {
            for &ck in check_keys {
                if ck > i {
                    assert!(b.get(&key(ck)).is_some(), "key {} unreachable at i={}", ck, i);
                }
            }
        }
    }
    let keep = (total * 5 / 100) as u64;
    for i in 400..total {
        assert!(b.delete(&key(i), 0), "delete failed at i={}", i);
    }

    assert_eq!(b.key_count(), keep as u32);

    assert!(b.depth() <= 2, "depth should be <= 2 after cascade collapse (got {})", b.depth());

    for i in 0..keep {
        let found = b.get(&key(i));
        assert!(found.is_some(), "key {} should be reachable (depth={})", i, b.depth());
        assert_eq!(found.unwrap().1, BchVal::new(i * 10, 0));
    }

    for i in keep..(keep + 50).min(total) {
        assert!(b.get(&key(i)).is_none(), "deleted key {} should not exist after cascade", i);
    }
}

#[test]
fn test_btree_load_root_from_backend() {
    let mut backend = Blocks::new();
    let mut btree = Btree::new();

    let mut node = BtreeNode::new_leaf();
    node.insert(key(10), BchVal::new(100, 0));
    node.insert(key(20), BchVal::new(200, 0));
    node.compact();

    let data = node.serialize_to_bucket(100).unwrap();
    backend.blocks.insert(100, data);

    let (loaded, ptr) = backend.load_addr(100).unwrap();
    backend.load_tree(&mut btree, loaded, ptr).unwrap();

    assert_eq!(btree.depth(), 0);
    assert!(btree.get(&key(10)).is_some());
    assert!(btree.get(&key(20)).is_some());
}

#[test]
fn test_btree_load_root_corrupt() {
    let mut backend = Blocks::new();
    let mut block = vec![0u8; BLOCK_SIZE];
    for b in block.iter_mut().take(64) {
        *b = 0xFF;
    }
    backend.blocks.insert(999, block);
    let result = backend.load_addr(999);
    assert!(result.is_err());
}

// ── records on blocks ───────────────────────────────────────────────────

fn build_filled_node(count: u32) -> BtreeNode {
    let mut node = BtreeNode::new_leaf();
    for i in 0..count {
        node.insert(key(i as u64), BchVal::new(i as u64, i as u16));
    }
    node
}

#[test]
fn test_bucket_io_roundtrip() {
    let mut backend = Blocks::new();
    let mut node = build_filled_node(20);
    node.compact();

    let ptr = backend.write_initial(&node, 100, 7);
    let loaded = backend.load(ptr).unwrap();

    assert_eq!(loaded.key_count, node.key_count);
    assert_eq!(loaded.level, node.level);
    for i in 0..20 {
        assert!(loaded.search(&key(i)).is_some(), "key {} lost in bucket io", i);
    }
}

#[test]
fn test_load_btree_node_rejects_corrupt_initial_record() {
    let mut backend = Blocks::new();
    let mut node = build_filled_node(20);
    node.compact();

    let mut record = node.serialize_initial_record(100, 7).unwrap();
    let record_mid = record.len() / 2;
    record[record_mid] ^= 0x80;
    backend.write_record(100, 0, &record).unwrap();

    let ptr = BtreePtrV2 {
        block_addr: 100,
        sectors_written: (record.len() / SECTOR_SIZE) as u16,
        level: node.level,
        generation: 7,
    };
    let result = backend.load(ptr);
    assert!(matches!(result, Err(StorageError::ChecksumMismatch { .. })));
}

#[test]
fn test_multi_block_initial_record_roundtrip() {
    let mut backend = Blocks::new();
    let mut node = build_filled_node(180);
    node.compact();

    let ptr = backend.write_initial(&node, 500, 3);
    assert!(ptr.sectors_written > SECTORS_PER_BLOCK);
    let loaded = backend.load(ptr).unwrap();
    assert_eq!(loaded.key_count, node.key_count);
    assert!(loaded.search(&key(179)).is_some());
}

#[test]
fn test_load_btree_node_rejects_corrupt_append_record() {
    let mut backend = Blocks::new();
    let mut node = build_filled_node(20);
    node.compact();
    let initial = backend.write_initial(&node, 900, 4);

    node.insert(key(1000), BchVal::new(0xCAFE, 1));
    let mut append = node.serialize_append_record(4, initial.sectors_written).unwrap();
    let append_mid = append.len() / 2;
    append[append_mid] ^= 0x20;
    backend.write_record(initial.block_addr, initial.sectors_written, &append).unwrap();

    let ptr = BtreePtrV2 {
        sectors_written: initial.sectors_written + (append.len() / SECTOR_SIZE) as u16,
        ..initial
    };
    let result = backend.load(ptr);
    assert!(matches!(result, Err(StorageError::ChecksumMismatch { .. })));
}

#[test]
fn test_append_record_respects_pointer_boundary() {
    let mut backend = Blocks::new();
    let mut node = build_filled_node(20);
    node.compact();
    let initial_ptr = backend.write_initial(&node, 900, 4);

    node.insert(key(1000), BchVal::new(0xCAFE, 1));
    let append = node.serialize_append_record(4, initial_ptr.sectors_written).unwrap();
    backend.write_record(initial_ptr.block_addr, initial_ptr.sectors_written, &append).unwrap();

    let before_commit = backend.load(initial_ptr).unwrap();
    assert!(before_commit.search(&key(1000)).is_none());

    let committed_ptr = BtreePtrV2 {
        sectors_written: initial_ptr.sectors_written + (append.len() / SECTOR_SIZE) as u16,
        ..initial_ptr
    };
    let after_commit = backend.load(committed_ptr).unwrap();
    assert!(after_commit.search(&key(1000)).is_some());
}

#[test]
fn records_off_block_boundaries_are_refused() {
    assert_eq!(
        record_start_block(10, 4, 4096),
        Err(StorageError::InvalidData(Fault::RecordNotAligned))
    );
    assert_eq!(
        record_start_block(10, 8, 100),
        Err(StorageError::InvalidData(Fault::RecordNotAligned))
    );
    assert_eq!(record_start_block(10, 24, 8192), Ok(13));
    let none = BtreePtrV2 { block_addr: 1, sectors_written: 0, level: 0, generation: 0 };
    assert_eq!(
        committed_blocks(&none),
        Err(StorageError::InvalidData(Fault::PointerNotAligned))
    );
    assert_eq!(
        initial_pointer(&[0u8; 20], 1),
        Err(StorageError::InvalidData(Fault::ShortInitialHeader))
    );
    assert_eq!(
        initial_pointer(&[0u8; 4096], 1),
        Err(StorageError::InvalidData(Fault::InitialMismatch))
    );
}

#[test]
fn progress_counts_sectors_and_free_u64s() {
    let mut n = BtreeNode::new(0);
    n.node_size = 4096;
    assert_eq!(Btree::node_progress(&n), (0, 8, 512));
    for i in 0..17u64 {
        assert!(n.insert(key(i), BchVal::new(i, 0)));
    }
    // 17 extents of 32 bytes.
    assert_eq!(Btree::node_progress(&n), (2, 8, 444));
}

#[test]
fn transactions_start_over_only_where_a_node_is_split() {
    let mut b = Btree::new();
    b.root.node.node_size = 512;
    let mut splits = 0;
    for i in 0..40u64 {
        let nodes = (b.cache.len(), b.depth());
        let (ok, trans) =
            b.insert_with_transaction(key(i), BchVal::new(i, 0), Some(BtreeTrans::new()), 1);
        assert!(ok);
        let split = nodes != (b.cache.len(), b.depth());
        assert_eq!(trans.unwrap().restart_count > 0, split);
        if split {
            splits += 1;
        }
    }
    assert!(b.depth() >= 1);
    assert!(splits >= 1 && splits < 20);
}

#[test]
fn what_is_written_after_a_delete_is_found() {
    let mut b = Btree::new();
    for i in 0..16u64 {
        assert!(b.insert(key(i), BchVal::new(i + 1, 0), 1));
    }
    b.compact();
    let pos = Bpos::new(0, 5, 1);
    assert!(b.delete(&key(5), 2));
    assert_eq!(b.get(&key(5)), None);
    assert_eq!(b.get_entry(pos), None);
    let e = BtreeEntry::new(pos, KeyType::Normal, KeyValue::extent(0x500, 1));
    assert!(b.insert_entry(e.clone(), 3));
    let found = b.get_entry(pos).unwrap();
    assert_eq!((found.pos, found.key_type), (e.pos, e.key_type));
    assert_eq!(found.value.to_bytes(), e.value.to_bytes());
    assert_eq!(b.get(&key(5)), Some((key(5), BchVal::new(0x500, 1))));
    // The last key of the leaf is still visited.
    assert!(b.for_each().iter().any(|(k, _)| *k == key(15)));
    assert!(b.delete(&key(5), 4));
    assert_eq!(b.get(&key(5)), None);
    assert!(!b.delete(&key(5), 5));
}

#[test]
fn flushed_nodes_keep_their_pins() {
    let mut b = Btree::new();
    let mut n = BtreeNode::new_leaf();
    assert!(n.insert(key(4), BchVal::new(40, 1)));
    n.pin_count = 2;
    n.journal_pin = Some(9);
    let data = n.data.clone();
    b.cache_mut().insert_dirty(50, n);
    let flushed = b.flush_dirty();
    assert_eq!(flushed.len(), 1);
    assert_eq!(flushed[0].0, 50);
    assert_eq!(flushed[0].1.pin_count, 2);
    assert_eq!(flushed[0].1.journal_pin, Some(9));
    assert_eq!(flushed[0].1.data, data);
    assert!(b.flush_dirty().is_empty());
}

#[test]
fn the_default_tree_is_a_new_one() {
    let mut b = Btree::default();
    assert_eq!(b.depth(), 0);
    assert_eq!(b.key_count(), 0);
    assert_eq!(b.cache.next_addr, Btree::new().cache.next_addr);
    assert!(b.flush_dirty().is_empty());
    assert!(b.insert(key(1), BchVal::new(10, 1), 1));
    assert_eq!(b.get(&key(1)), Some((key(1), BchVal::new(10, 1))));
}
