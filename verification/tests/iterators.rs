//! Iterators over trees and nodes.

use std::cell::RefCell;
use std::rc::Rc;
use volmount_btree::cache::NodeCache;
use volmount_btree::ids::BtreeId;
use volmount_btree::iter::{BtreeIter, BtreeNodeLockedType, BtreeRoot, IterFlags};
use volmount_btree::iter_path::SharedBtreePath;
use volmount_btree::key::{BchVal, Bpos, BtreeEntry, BtreeKey, KeyType, KeyValue};
use volmount_btree::node::{BsetTree, BtreeNode};
use volmount_btree::node_iter::{
    bch2_btree_node_iter_advance, bch2_btree_node_iter_init, bch2_btree_node_iter_init_from_start,
    bch2_btree_node_iter_next_all, bch2_btree_node_iter_peek, bch2_btree_node_iter_peek_all,
    bch2_btree_node_iter_set_drop, bset, bset_next_set, bset_u64s, btree_aux_data_bytes,
    btree_bset_first, btree_bset_last, btree_keys_cachelines, BtreeNodeIter,
};
use volmount_btree::overlay::JournalKeys;
use volmount_btree::packed::read_pos;

fn make_root_with_cache() -> (BtreeRoot, NodeCache) {
    (BtreeRoot::new(BtreeNode::new_leaf(), 0), NodeCache::new())
}

fn start<'a>(root: &'a BtreeRoot, cache: &'a NodeCache, target: &BtreeKey) -> BtreeIter<'a> {
    BtreeIter::init(root, target, IterFlags::default(), cache, BtreeId::Extents, None)
}

fn key100() -> BtreeKey {
    BtreeKey::new(100, 1, KeyType::Normal)
}

const ROOT: u32 = 1;
const S2: u32 = 2;
const S3: u32 = 3;
const S4: u32 = 4;

/// The tree of snapshots: 1 over 2 and 4, 2 over 3.
fn is_ancestor(a: u32, b: u32) -> bool {
    let parent = |s: u32| match s {
        S2 | S4 => ROOT,
        S3 => S2,
        _ => 0,
    };
    let mut s = b;
    while s != 0 {
        if s == a {
            return true;
        }
        s = parent(s);
    }
    false
}

#[test]
fn test_iter_init_single_leaf() {
    let (root, cache) = make_root_with_cache();
    let iter = start(&root, &cache, &key100());
    assert_eq!(iter.path.len(), 1);
    assert!(iter.at_leaf());
}

#[test]
fn test_iter_peek_empty() {
    let (root, cache) = make_root_with_cache();
    let iter = start(&root, &cache, &key100());
    assert!(iter.peek().is_none());
}

#[test]
fn test_iter_init_intent() {
    let (root, cache) = make_root_with_cache();
    let flags = IterFlags { intent: true, forward: true, with_journal: false };
    let iter = BtreeIter::init(&root, &key100(), flags, &cache, BtreeId::Extents, None);
    assert_eq!(iter.flags.intent, true);
}

#[test]
fn test_iter_restart() {
    let (root, cache) = make_root_with_cache();
    let mut iter = start(&root, &cache, &key100());
    assert!(!iter.had_restart);
    iter.restart(&root);
    assert!(iter.had_restart);
}

#[test]
fn test_iter_shared_path_fork_shares_snapshot() {
    let (root, cache) = make_root_with_cache();
    let mut iter = start(&root, &cache, &key100());
    let shared = Rc::new(RefCell::new(SharedBtreePath::new(&iter.path)));
    shared.borrow_mut().refresh(&iter.path);
    let forked = (iter.fork_shared_path(), Rc::clone(&shared));

    assert_eq!(Rc::strong_count(&shared), 2);
    assert_eq!(Rc::strong_count(&forked.1), 2);
    assert_eq!(forked.1.borrow().generation(), shared.borrow().generation());
    assert_eq!(forked.1.borrow().snapshot().len(), iter.path.len());
    assert_eq!(forked.0.path.len(), iter.path.len());

    iter.restart(&root);
    shared.borrow_mut().refresh(&iter.path);
    assert!(iter.had_restart);
    assert_eq!(forked.1.borrow().generation(), 2);
    assert_eq!(forked.1.borrow().generation(), shared.borrow().generation());
    assert_eq!(forked.1.borrow().snapshot().len(), iter.path.len());
}

#[test]
fn test_iter_advance_empty() {
    let (root, cache) = make_root_with_cache();
    let mut iter = start(&root, &cache, &key100());
    assert!(!iter.advance());
}

#[test]
fn test_iter_leaf_key_count() {
    let (root, cache) = make_root_with_cache();
    let iter = start(&root, &cache, &key100());
    assert_eq!(iter.leaf_key_count(), 0);
}

fn fill_snapshots(leaf: &mut BtreeNode) {
    leaf.insert(BtreeKey::new(10, S3, KeyType::Normal), BchVal::new(100, 0));
    leaf.insert(BtreeKey::new(20, S2, KeyType::Normal), BchVal::new(200, 0));
    leaf.insert(BtreeKey::new(30, S2, KeyType::Whiteout), BchVal::new(300, 0));
    leaf.insert(BtreeKey::new(40, ROOT, KeyType::Normal), BchVal::new(400, 0));
    leaf.insert(BtreeKey::new(50, S4, KeyType::Normal), BchVal::new(500, 0));
}

#[test]
fn test_iter_snapshot_filter_s2() {
    let (mut root, cache) = make_root_with_cache();
    fill_snapshots(&mut root.node);

    let mut iter = start(&root, &cache, &BtreeKey::min_key());
    iter.set_snapshot_filter(S2);

    let first = iter.peek_visible(None, &is_ancestor);
    assert!(first.is_some(), "should find first visible entry");
    assert_eq!(first.unwrap().0, BtreeKey::new(10, S3, KeyType::Normal));

    assert!(iter.advance_visible(None, &is_ancestor), "should advance to next visible");
    let second = iter.peek_visible(None, &is_ancestor);
    assert!(second.is_some(), "should find second visible");
    assert_eq!(second.unwrap().0, BtreeKey::new(20, S2, KeyType::Normal));

    assert!(!iter.advance_visible(None, &is_ancestor));
    assert!(iter.peek_visible(None, &is_ancestor).is_none());
}

#[test]
fn test_iter_snapshot_filter_s4() {
    let (mut root, cache) = make_root_with_cache();
    fill_snapshots(&mut root.node);

    let mut iter = start(&root, &cache, &BtreeKey::min_key());
    iter.set_snapshot_filter(S4);

    let first = iter.peek_visible(None, &is_ancestor);
    assert!(first.is_some(), "should find visible entry from s4");
    assert_eq!(first.unwrap().0, BtreeKey::new(50, S4, KeyType::Normal));

    assert!(!iter.advance_visible(None, &is_ancestor), "should have no more visible from s4");
}

#[test]
fn test_iter_snapshot_filter_root() {
    let (mut root, cache) = make_root_with_cache();
    fill_snapshots(&mut root.node);

    let mut iter = start(&root, &cache, &BtreeKey::min_key());
    iter.set_snapshot_filter(ROOT);

    let mut entries: Vec<BtreeKey> = Vec::new();
    while let Some((k, _)) = iter.peek_visible(None, &is_ancestor) {
        entries.push(k);
        if !iter.advance_visible(None, &is_ancestor) {
            break;
        }
    }

    assert_eq!(entries.len(), 4, "root should see 4 visible entries");
    assert_eq!(entries[0], BtreeKey::new(10, S3, KeyType::Normal));
    assert_eq!(entries[1], BtreeKey::new(20, S2, KeyType::Normal));
    assert_eq!(entries[2], BtreeKey::new(40, ROOT, KeyType::Normal));
    assert_eq!(entries[3], BtreeKey::new(50, S4, KeyType::Normal));
}

#[test]
fn test_iter_peek_visible_no_filter() {
    let (mut root, cache) = make_root_with_cache();
    root.node.insert(BtreeKey::new(10, 3, KeyType::Normal), BchVal::new(100, 0));
    root.node.insert(BtreeKey::new(20, 2, KeyType::Whiteout), BchVal::new(200, 0));
    root.node.insert(BtreeKey::new(30, 1, KeyType::Normal), BchVal::new(300, 0));

    let mut iter = start(&root, &cache, &BtreeKey::min_key());
    let first = iter.peek_visible(None, &is_ancestor);
    assert!(first.is_some(), "peek_visible without filter should find first entry");
    assert_eq!(first.unwrap().0, BtreeKey::new(10, 3, KeyType::Normal));

    assert!(iter.advance_visible(None, &is_ancestor), "should advance past whiteout");
    let second = iter.peek_visible(None, &is_ancestor);
    assert!(second.is_some(), "second entry should exist");
    assert_eq!(second.unwrap().0, BtreeKey::new(30, 1, KeyType::Normal));

    assert!(!iter.advance_visible(None, &is_ancestor), "no more entries");
    assert!(iter.peek_visible(None, &is_ancestor).is_none(), "should be at end");
}

fn two_leaves() -> (BtreeRoot, NodeCache) {
    let mut cache = NodeCache::new();

    let mut left_node = BtreeNode::new_leaf();
    left_node.insert(BtreeKey::new(10, 1, KeyType::Normal), BchVal::new(100, 0));
    left_node.insert(BtreeKey::new(20, 1, KeyType::Normal), BchVal::new(200, 0));
    left_node.insert(BtreeKey::new(30, 1, KeyType::Normal), BchVal::new(300, 0));

    let mut right_node = BtreeNode::new_leaf();
    right_node.insert(BtreeKey::new(40, 1, KeyType::Normal), BchVal::new(400, 0));
    right_node.insert(BtreeKey::new(50, 1, KeyType::Normal), BchVal::new(500, 0));

    let left_addr = 1;
    let right_addr = 2;
    cache.insert(left_addr, left_node);
    cache.insert(right_addr, right_node);

    let mut internal = BtreeNode::new_internal();
    let mut cur = 0u32;
    cur += internal.write_entry(cur, &BtreeKey::min_key(), &BchVal::new(left_addr, 0));
    let median = BtreeKey::new(40, 1, KeyType::Normal);
    cur += internal.write_entry(cur, &median, &BchVal::new(right_addr, 0));
    internal.sets[0] =
        BsetTree { data_offset: 0, end_offset: cur, aux_offset: 0, size: 2, extra: 0 };
    internal.key_count = 2;

    (BtreeRoot::new(internal, 1), cache)
}

#[test]
fn test_iter_multi_level_traversal() {
    let (root, cache) = two_leaves();

    let iter = start(&root, &cache, &BtreeKey::new(20, 1, KeyType::Normal));
    let result = iter.peek();
    assert!(result.is_some(), "should find key=20");
    assert_eq!(result.unwrap().0, BtreeKey::new(20, 1, KeyType::Normal));
    assert_eq!(result.unwrap().1, BchVal::new(200, 0));

    let iter = start(&root, &cache, &BtreeKey::new(50, 1, KeyType::Normal));
    let result = iter.peek();
    assert!(result.is_some(), "should find key=50");
    assert_eq!(result.unwrap().0, BtreeKey::new(50, 1, KeyType::Normal));
    assert_eq!(result.unwrap().1, BchVal::new(500, 0));

    let iter = start(&root, &cache, &BtreeKey::new(35, 1, KeyType::Normal));
    let result = iter.peek();
    assert!(result.is_some(), "should fallback to first entry in leaf");
    assert_eq!(result.unwrap().0, BtreeKey::new(10, 1, KeyType::Normal));
}

#[test]
fn iterators_walk_from_leaf_to_leaf() {
    let (root, cache) = two_leaves();
    let mut iter = start(&root, &cache, &BtreeKey::new(20, 1, KeyType::Normal));
    assert_eq!(iter.next().unwrap().0.vaddr, 30);
    assert_eq!(iter.next_slot().unwrap().0.vaddr, 40);
    assert_eq!(iter.bch2_btree_iter_peek().unwrap().0.vaddr, 40);
    assert_eq!(iter.bch2_btree_iter_peek_slot().unwrap().0.vaddr, 40);
    assert!(iter.peek_max(&Bpos::new(0, 39, 1)).is_none());
    assert_eq!(iter.peek_max(&Bpos::new(0, 40, 1)).unwrap().0.vaddr, 40);
    assert_eq!(iter.to_text(), "BtreeIter[pos=0:40:1]");
    assert_eq!(iter.next().unwrap().0.vaddr, 50);
    assert!(iter.next().is_none());
}

#[test]
fn iterators_step_back_from_leaf_to_leaf() {
    let (root, cache) = two_leaves();
    let mut iter = start(&root, &cache, &BtreeKey::new(50, 1, KeyType::Normal));
    assert_eq!(iter.peek_prev_min(Bpos::min_pos()).unwrap().0.vaddr, 40);
    assert_eq!(iter.peek_prev_min(Bpos::new(0, 40, 1)).unwrap().0.vaddr, 40);
    assert!(iter.peek_prev_min(Bpos::new(0, 41, 1)).is_none());
    assert_eq!(iter.pos.vaddr, 50);
    for expected in [40, 30, 20, 10] {
        let (k, v) = iter.prev_slot().unwrap();
        assert_eq!(k.vaddr, expected);
        assert_eq!(v, BchVal::new(expected * 10, 0));
        assert_eq!(iter.pos.vaddr, expected);
    }
    assert!(iter.prev_slot().is_none());
    assert!(iter.peek_prev_min(Bpos::min_pos()).is_none());
    assert_eq!(iter.peek().unwrap().0.vaddr, 10);
    // Forth and back again.
    for expected in [20, 30, 40] {
        assert_eq!(iter.next().unwrap().0.vaddr, expected);
    }
    assert_eq!(iter.prev_slot().unwrap().0.vaddr, 30);
}

#[test]
fn an_iterator_at_the_end_steps_back_to_the_last_entry() {
    let (root, cache) = two_leaves();
    let mut iter = start(&root, &cache, &BtreeKey::new(50, 1, KeyType::Normal));
    assert!(iter.next().is_none());
    assert_eq!(iter.prev_slot().unwrap().0.vaddr, 50);
    assert_eq!(iter.prev_slot().unwrap().0.vaddr, 40);
}

#[test]
fn stepping_back_shows_the_overlay_first() {
    let (mut root, cache) = make_root_with_cache();
    root.node.insert(key100(), BchVal::new(1, 0));
    root.node.insert(BtreeKey::new(200, 1, KeyType::Normal), BchVal::new(2, 0));
    let k200 = BtreeKey::new(200, 1, KeyType::Normal);
    let mut o = JournalKeys::new();
    o.push(
        7,
        BtreeId::Extents,
        BtreeEntry::new(key100().to_bpos(), KeyType::Normal, KeyValue::extent(9, 0)),
    );
    let flags = IterFlags::default();
    let mut iter = BtreeIter::init(&root, &k200, flags, &cache, BtreeId::Extents, Some(&o));
    assert_eq!(iter.peek().unwrap(), (k200, BchVal::new(2, 0)));
    assert_eq!(iter.peek_prev_min(Bpos::min_pos()).unwrap().1, BchVal::new(9, 0));
    assert_eq!(iter.prev_slot().unwrap(), (key100(), BchVal::new(9, 0)));
    assert!(iter.prev_slot().is_none());
}

#[test]
fn snapshot_iterators_and_restarted_ones_stand_at_their_key() {
    let (root, cache) = two_leaves();
    let k = BtreeKey::new(20, 1, KeyType::Normal);
    let mut iter = BtreeIter::init_with_snapshot(
        &root,
        &k,
        IterFlags::default(),
        &cache,
        7,
        BtreeId::Extents,
    );
    assert_eq!(iter.snapshot, 7);
    assert!(!iter.had_restart);
    assert_eq!(iter.peek().unwrap().0, k);
    assert_eq!(iter.path[1].offset, 2);
    iter.restart(&root);
    assert!(iter.had_restart);
    assert_eq!(iter.peek().unwrap().0, k);
    assert_eq!(iter.path[1].offset, 2);
    assert_eq!(iter.next().unwrap().0.vaddr, 30);
}

#[test]
fn paths_are_rebuilt_where_they_lead_astray() {
    let (root, cache) = two_leaves();
    let mut iter = start(&root, &cache, &BtreeKey::new(20, 1, KeyType::Normal));
    // The leaves carry no range: the path counts as lost.
    assert!(iter.traverse());
    assert_eq!(iter.peek().unwrap().0.vaddr, 20);
    iter.pos = BtreeKey::new(45, 1, KeyType::Normal);
    assert!(iter.traverse());
    assert_eq!(iter.peek().unwrap().0.vaddr, 50);
    assert_eq!(iter.pos.vaddr, 50);
    iter.path.clear();
    assert!(!iter.traverse());

    let (flat, none) = make_root_with_cache();
    let mut iter = start(&flat, &none, &key100());
    assert!(iter.traverse());
    assert_eq!(iter.pos, key100());
}

#[test]
fn overlays_come_first() {
    let (mut root, cache) = make_root_with_cache();
    root.node.insert(key100(), BchVal::new(1, 0));
    let mut o = JournalKeys::new();
    o.push(
        7,
        BtreeId::Extents,
        BtreeEntry::new(key100().to_bpos(), KeyType::Normal, KeyValue::extent(2, 0)),
    );
    let mut iter = start(&root, &cache, &key100());
    assert_eq!(iter.peek().unwrap().1, BchVal::new(1, 0));
    assert_eq!(iter.peek_with_journal(&o).unwrap().1, BchVal::new(2, 0));
    assert_eq!(iter.peek_visible(Some(&o), &is_ancestor).unwrap().1, BchVal::new(2, 0));
    o.draining = true;
    assert_eq!(iter.peek_visible(Some(&o), &is_ancestor).unwrap().1, BchVal::new(1, 0));
    o.draining = false;
    let with = BtreeIter::init(
        &root,
        &key100(),
        IterFlags::default(),
        &cache,
        BtreeId::Extents,
        Some(&o),
    );
    assert_eq!(with.peek().unwrap().1, BchVal::new(2, 0));
}

#[test]
fn test_restart_optimized_skips_when_seq_unchanged() {
    let (root, cache) = make_root_with_cache();
    let mut iter = start(&root, &cache, &key100());

    let skipped = iter.restart_optimized(&root);
    assert!(!skipped, "should skip restart when seq unchanged");
    for level in &iter.path {
        assert_eq!(level.lock_state, BtreeNodeLockedType::Unlocked, "lock should be released");
    }
    assert!(!iter.had_restart, "had_restart should be false after skip");
}

#[test]
fn test_restart_optimized_falls_back_when_seq_changed() {
    let (root, cache) = make_root_with_cache();
    let mut written = BtreeRoot::new(root.node.duplicate(), 0);
    written.node.lock.unlock_write();
    let mut iter = start(&root, &cache, &key100());

    let restarted = iter.restart_optimized(&written);
    assert!(restarted, "should fall back to full restart when seq changed");
    assert!(iter.had_restart, "had_restart should be true after restart");
}

#[test]
fn test_restart_optimized_empty_path() {
    let (root, cache) = make_root_with_cache();
    let flags = IterFlags { intent: false, forward: true, with_journal: false };
    let mut iter = BtreeIter::init(&root, &key100(), flags, &cache, BtreeId::Extents, None);
    iter.path.clear();
    let result = iter.restart_optimized(&root);
    assert!(result, "empty path should fall back to restart");
    assert!(!iter.path.is_empty(), "restart should restore path");
}

#[test]
fn test_snapshot_visible_cache_shared_across_calls() {
    let (mut root, cache) = make_root_with_cache();
    root.node.insert(BtreeKey::new(10, S3, KeyType::Normal), BchVal::new(100, 0));
    root.node.insert(BtreeKey::new(20, S3, KeyType::Normal), BchVal::new(200, 0));

    let mut iter = start(&root, &cache, &BtreeKey::min_key());
    iter.set_snapshot_filter(S2);

    let first = iter.peek_visible(None, &is_ancestor);
    assert!(first.is_some(), "first peek should find entry");
    assert_eq!(first.as_ref().unwrap().0, BtreeKey::new(10, S3, KeyType::Normal));

    assert!(iter.advance_visible(None, &is_ancestor), "should advance to next");
    let second = iter.peek_visible(None, &is_ancestor);
    assert!(second.is_some(), "second peek should find entry");
    assert_eq!(second.as_ref().unwrap().0, BtreeKey::new(20, S3, KeyType::Normal));

    assert!(
        !iter.snapshot_visible_cache.is_empty(),
        "cache should have entries after peek_visible calls"
    );
    assert_eq!(iter.snapshot_visible_cache, vec![(S2, S3, true)]);
}

#[test]
fn test_snapshot_visible_cache_cleared_on_filter_change() {
    let (mut root, cache) = make_root_with_cache();
    root.node.insert(BtreeKey::new(10, S2, KeyType::Normal), BchVal::new(100, 0));
    root.node.insert(BtreeKey::new(20, S4, KeyType::Normal), BchVal::new(200, 0));

    let mut iter = start(&root, &cache, &BtreeKey::min_key());

    iter.set_snapshot_filter(S2);
    let first = iter.peek_visible(None, &is_ancestor);
    assert!(first.is_some());
    assert_eq!(first.as_ref().unwrap().0, BtreeKey::new(10, S2, KeyType::Normal));

    iter.set_snapshot_filter(S4);
    let first_s4 = iter.peek_visible(None, &is_ancestor);
    assert!(first_s4.is_some());
    assert_eq!(first_s4.as_ref().unwrap().0, BtreeKey::new(20, S4, KeyType::Normal));
}

// ── iterating over one node ─────────────────────────────────────────────

fn mixed_node() -> BtreeNode {
    let mut n = BtreeNode::new_leaf();
    for v in [10u64, 30, 50] {
        n.insert(BtreeKey::new(v, 1, KeyType::Normal), BchVal::new(v, 0));
    }
    n.compact();
    n.insert(BtreeKey::new(20, 1, KeyType::Normal), BchVal::new(20, 0));
    n.insert(BtreeKey::new(40, 1, KeyType::Deleted), BchVal::new(40, 0));
    n
}

fn offset_of(b: &[u8]) -> u64 {
    read_pos(b, 0).offset
}

#[test]
fn node_iterators_merge_sets() {
    let n = mixed_node();
    let mut it = BtreeNodeIter::default();
    assert!(it.is_end());
    bch2_btree_node_iter_init_from_start(&mut it, &n);
    let mut all = Vec::new();
    while let Some(b) = bch2_btree_node_iter_next_all(&mut it, &n) {
        all.push(offset_of(b));
    }
    assert_eq!(all, vec![10, 20, 30, 40, 50]);

    bch2_btree_node_iter_init_from_start(&mut it, &n);
    let mut live = Vec::new();
    while let Some(b) = bch2_btree_node_iter_peek(&mut it, &n) {
        live.push(offset_of(b));
        bch2_btree_node_iter_advance(&mut it, &n);
    }
    assert_eq!(live, vec![10, 20, 30, 50]);
}

#[test]
fn node_iterators_start_at_a_key() {
    let n = mixed_node();
    let mut it = BtreeNodeIter::default();
    bch2_btree_node_iter_init(&mut it, &n, &BtreeKey::new(25, 1, KeyType::Normal));
    assert_eq!(offset_of(bch2_btree_node_iter_peek_all(&it, &n).unwrap()), 30);
    // Without the set of 30 and 50 the one of 20 and 40 is left.
    bch2_btree_node_iter_set_drop(&mut it, &n, 0);
    assert_eq!(offset_of(bch2_btree_node_iter_peek_all(&it, &n).unwrap()), 40);
    it.reset();
    assert!(it.set_end(0) && it.set_end(1) && it.set_end(2));
    assert!(bch2_btree_node_iter_peek_all(&it, &n).is_none());
}

#[test]
fn sets_as_bytes() {
    let n = mixed_node();
    assert_eq!(btree_bset_first(&n).len(), 96);
    assert_eq!(btree_bset_last(&n).len(), 64);
    assert_eq!(bset(&n, &n.sets[0]), btree_bset_first(&n));
    assert_eq!(bset_u64s(&n.sets[1]), 8);
    assert_eq!(bset_next_set(&n, &n.sets[0]), 4096);
    assert_eq!(btree_keys_cachelines(18), 1024);
    assert_eq!(btree_aux_data_bytes(18), 8192);
}
