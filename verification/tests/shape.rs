//! Changes to the shape of trees.

use volmount_btree::btree::Btree;
use volmount_btree::cache::NodeCache;
use volmount_btree::interior::{
    btree_increase_depth, btree_merge, btree_node_compact, btree_node_needs_merge,
    btree_node_reset_sib_u64s, btree_node_rewrite, btree_node_rewrite_key, btree_root_alloc_fake, btree_set_root,
    btree_set_root_for_read, btree_split, btree_split_leaf, btree_update_reserve_required,
    BTREE_MAX_DEPTH,
};
use volmount_btree::key::{BchVal, Bpos, BtreeKey, KeyType};
use volmount_btree::node::BtreeNode;
use volmount_btree::node_scan::{
    bch2_btree_has_scanned_nodes, bch2_btree_node_is_stale, bch2_find_btree_nodes_exit,
    bch2_find_btree_nodes_init, bch2_found_btree_node_to_text, bch2_get_scanned_nodes,
    bch2_scan_for_btree_nodes, FindBtreeNodes, FoundBtreeNode,
};

fn key(v: u64) -> BtreeKey {
    BtreeKey::new(v, 1, KeyType::Normal)
}

#[test]
fn test_btree_update_reserve_required_leaf() {
    let r = btree_update_reserve_required(3, 0);
    assert_eq!(r, 7);
}

#[test]
fn test_btree_update_reserve_required_max_depth() {
    let r = btree_update_reserve_required(BTREE_MAX_DEPTH as u8, 0);
    assert_eq!(r, BTREE_MAX_DEPTH * 2 - 1);
}

#[test]
fn test_btree_node_needs_merge_empty_leaf() {
    let node = BtreeNode::new_leaf();
    assert!(btree_node_needs_merge(&node));
}

#[test]
fn test_btree_node_needs_merge_full_leaf() {
    let mut node = BtreeNode::new_leaf();
    for i in 0..6000u64 {
        if !node.insert(key(i), BchVal::new(i * 10, 0)) {
            break;
        }
    }
    assert!(node.total_data_bytes() > node.node_size / 3);
    assert!(!btree_node_needs_merge(&node));
}

#[test]
fn test_btree_set_root_basic() {
    let mut btree = Btree::new();
    let old_depth = btree.depth();

    let new_node = BtreeNode::new_internal();
    assert_eq!(new_node.level, 1);

    btree_set_root(&mut btree, new_node);
    assert_eq!(btree.depth(), old_depth + 1);
}

#[test]
fn test_btree_set_root_for_read() {
    let mut btree = Btree::new();
    let mut node = BtreeNode::new_leaf();
    node.insert(key(1), BchVal::new(1, 0));
    btree_set_root_for_read(&mut btree, node);
    assert_eq!(btree.depth(), 0);
    assert_eq!(btree.key_count(), 1);
}

#[test]
fn test_btree_root_alloc_fake_leaf() {
    let mut cache = NodeCache::new();
    let (addr, node) = btree_root_alloc_fake(&mut cache, 0);
    assert!(addr > 0, "fake root addr should be > 0");
    assert_eq!(node.level, 0);
    assert!(node.need_rewrite(), "fake root should require rewrite");
    assert_eq!(node.min_key, Bpos::min_pos());
    assert_eq!(node.max_key, Bpos::max_pos());
    assert!(cache.get(addr).is_some());
}

#[test]
fn test_btree_root_alloc_fake_internal() {
    let mut cache = NodeCache::new();
    let (addr, node) = btree_root_alloc_fake(&mut cache, 1);
    assert_eq!(node.level, 1);
    assert!(node.need_rewrite(), "fake root should require rewrite");
    assert!(cache.get(addr).is_some());
}

#[test]
fn test_btree_node_rewrite_small_node() {
    let mut btree = Btree::new();
    let addr = btree.cache_mut().alloc_addr();
    let mut node = BtreeNode::new_leaf();
    for i in 0..10u64 {
        node.insert(key(i), BchVal::new(i * 10, 0));
    }
    btree.cache_mut().insert(addr, node);

    assert!(btree_node_rewrite(&mut btree, addr));
    assert!(btree_node_rewrite_key(&mut btree, addr, 0, 0));
    assert!(!btree_node_rewrite(&mut btree, 12345));

    let node_after = btree.cache_mut().get(addr).expect("node should be in cache after rewrite");
    assert!(node_after.search(&key(5)).is_some());
}

#[test]
fn test_btree_node_compact_after_insert() {
    let mut cache = NodeCache::new();
    let addr = cache.alloc_addr();
    let mut node = BtreeNode::new_leaf();
    node.insert(key(10), BchVal::new(100, 0));
    node.insert(key(20), BchVal::new(200, 0));
    node.insert(key(10), BchVal::new(150, 0));
    cache.insert(addr, node);

    assert!(btree_node_compact(&mut cache, addr));

    let n = cache.get(addr).unwrap();
    let found = n.search(&key(10));
    assert!(found.is_some());
    assert_eq!(found.unwrap().1, BchVal::new(150, 0));
    assert_eq!(n.key_count, 2);
}

#[test]
fn test_btree_split_leaf_basic() {
    let mut btree = Btree::new();
    let root = btree.root_node_mut_internal();
    root.node_size = 256;

    let mut inserted = 0u64;
    for i in 0..50u64 {
        if btree.insert(key(i), BchVal::new(i * 10, 0), 0) {
            inserted += 1;
        }
    }
    assert_eq!(inserted, 50);
    for i in 0..50u64 {
        let found = btree.get(&key(i));
        assert!(found.is_some(), "key {} should exist after splits", i);
    }
}

#[test]
fn splits_by_key() {
    let mut btree = Btree::new();
    btree.root_node_mut_internal().node_size = 256;
    for i in 0..20u64 {
        assert!(btree_split_leaf(&mut btree, &key(i), &BchVal::new(i, 0)));
    }
    assert!(btree.depth() >= 1);
    let mut path = Vec::new();
    let leaf = btree.find_path_to_leaf(&key(40), &mut path).unwrap();
    assert!(!btree_split(&mut btree, leaf + 1000, &key(40), &BchVal::new(40, 0)));
    assert!(btree_split(&mut btree, leaf, &key(40), &BchVal::new(40, 0)));
    assert_eq!(btree.get(&key(40)).unwrap().1, BchVal::new(40, 0));
    assert!(btree_split(&mut Btree::new(), 77, &key(1), &BchVal::new(1, 0)));
}

#[test]
fn test_btree_increase_depth_small() {
    let mut btree = Btree::new();
    let child_addr = 42;
    let new_addr = btree_increase_depth(&mut btree, child_addr).unwrap();

    assert_eq!(btree.depth(), 1);
    assert!(new_addr > 0);
    assert_eq!(btree.root().node.key_count, 1);

    let set = &btree.root().node.sets[0];
    let (k, value) = btree.root().node.read_entry(set, 1);
    assert_eq!(k, BtreeKey::min_key());
    assert_eq!(value, BchVal::new(child_addr, 0));

    let dirty = btree.flush_dirty();
    assert_eq!(dirty.len(), 1);
    assert_eq!(dirty[0].0, new_addr);
}

#[test]
fn depth_ends_somewhere() {
    let mut btree = Btree::new();
    for _ in 0..BTREE_MAX_DEPTH {
        assert!(btree_increase_depth(&mut btree, 42).is_some());
    }
    assert_eq!(btree_increase_depth(&mut btree, 42), None);
    assert_eq!(btree.depth() as usize, BTREE_MAX_DEPTH);
}

#[test]
fn test_btree_merge_after_delete() {
    let mut btree = Btree::new();

    btree.root_node_mut_internal().node_size = 512;

    for i in 0..30u64 {
        assert!(btree.insert(key(i), BchVal::new(i * 10, 0), 0));
    }

    for i in 0..12u64 {
        btree.delete(&key(i), 0);
    }

    for i in 12..30u64 {
        let found = btree.get(&key(i));
        assert!(found.is_some(), "key {} should exist after merge", i);
    }
    assert_eq!(btree.key_count(), 18);
}

#[test]
fn merges_of_unknown_nodes_do_nothing() {
    let mut btree = Btree::new();
    assert!(!btree_merge(&mut btree, 5, &[]));
}

#[test]
fn test_btree_reserve_required_constants() {
    assert_eq!(btree_update_reserve_required(2, 1), 3);
    assert_eq!(btree_update_reserve_required(5, 0), 11);
}

#[test]
fn test_found_btree_node_to_text() {
    let node = FoundBtreeNode {
        btree_id: 0,
        level: 1,
        sectors_written: 8,
        seq: 42,
        journal_seq: 100,
        min_key: 0,
        max_key: 1000,
        nr_ptrs: 2,
        ptrs: vec![100, 200],
    };
    let text = bch2_found_btree_node_to_text(&node);
    assert!(text.contains("btree_id=0"));
    assert!(text.contains("level=1"));
    assert!(text.contains("seq=42"));
    assert_eq!(
        text,
        "FoundBtreeNode(btree_id=0, level=1, seq=42, journal_seq=100, min_key=0, max_key=1000, sectors=8, nr_ptrs=2)"
    );
    assert!(!bch2_btree_node_is_stale(&node));
}

fn found_node() -> FoundBtreeNode {
    FoundBtreeNode {
        btree_id: 1,
        level: 0,
        sectors_written: 4,
        seq: 1,
        journal_seq: 10,
        min_key: 0,
        max_key: 500,
        nr_ptrs: 1,
        ptrs: vec![50],
    }
}

#[test]
fn test_find_nodes_init_exit() {
    let mut result = FindBtreeNodes::new();
    result.nodes.push(found_node());
    assert_eq!(result.nodes.len(), 1);

    bch2_find_btree_nodes_exit(&mut result);
    assert!(result.nodes.is_empty());
    result.ret = 5;
    bch2_find_btree_nodes_init(&mut result);
    assert_eq!(result.ret, 0);
}

#[test]
fn test_get_scanned_nodes() {
    let mut result = FindBtreeNodes::new();
    result.nodes.push(found_node());
    let nodes = bch2_get_scanned_nodes(&result, 1, 0, 0, 1000, 10);
    assert_eq!(nodes.len(), 1);
    assert_eq!(nodes[0].ptrs, vec![50]);
    assert!(bch2_btree_has_scanned_nodes(&result, 1));
    assert!(!bch2_btree_has_scanned_nodes(&result, 2));
    assert_eq!(bch2_scan_for_btree_nodes(&mut result), 0);
}

#[test]
fn scanned_nodes_are_limited_by_range_and_number() {
    let mut result = FindBtreeNodes::new();
    for (min_key, max_key, ptr) in [(0, 99, 1), (100, 199, 2), (200, 299, 3)] {
        result.nodes.push(FoundBtreeNode { min_key, max_key, ptrs: vec![ptr], ..found_node() });
    }
    let first = |level: u16, min: u64, max: u64, n: usize| -> Vec<u64> {
        bch2_get_scanned_nodes(&result, 1, level, min, max, n).iter().map(|f| f.ptrs[0]).collect()
    };
    assert_eq!(first(0, 0, 299, 10), vec![1, 2, 3]);
    assert_eq!(first(0, 0, 299, 2), vec![1, 2]);
    assert_eq!(first(0, 50, 299, 10), vec![2, 3]);
    assert_eq!(first(0, 0, 298, 10), vec![1, 2]);
    assert!(first(1, 0, 299, 10).is_empty());
    assert!(first(0, 0, 299, 0).is_empty());
}

#[test]
fn fake_roots_have_the_level_asked_for() {
    let mut cache = NodeCache::new();
    let (addr, node) = btree_root_alloc_fake(&mut cache, 2);
    assert_eq!(node.level, 2);
    assert_eq!(node.key_count, 0);
    assert!(node.need_rewrite());
    assert_eq!((node.min_key, node.max_key), (Bpos::min_pos(), Bpos::max_pos()));
    assert_eq!(cache.get(addr).unwrap().level, 2);
}

#[test]
fn merge_of_a_node_that_needs_none_is_done() {
    let mut btree = Btree::new();
    let mut node = BtreeNode::new_leaf();
    node.node_size = 512;
    for i in 0..8u64 {
        node.insert(key(i), BchVal::new(i * 10, 0));
    }
    assert!(!btree_node_needs_merge(&node));
    btree_node_reset_sib_u64s(&node);
    let addr = btree.cache.alloc_addr();
    btree.cache.insert(addr, node);
    assert!(btree_merge(&mut btree, addr, &[]));
    assert_eq!(btree.cache.get(addr).unwrap().key_count, 8);
    assert_eq!(btree.key_count(), 0);
}
