//! Nodes around their I/O.

use volmount_btree::bucket_io::{committed_blocks, initial_pointer, initial_write};
use volmount_btree::error::{Fault, StorageError};
use volmount_btree::header::BLOCK_SIZE;
use volmount_btree::ids::BtreeId;
use volmount_btree::key::{BchVal, Bpos, BtreeKey, KeyType};
use volmount_btree::node::{BtreeNode, NodeState, NODE_ACCESSED, NODE_NEED_REWRITE};
use volmount_btree::node_io::{
    bch2_btree_cancel_all_writes, bch2_btree_flush_all_reads, bch2_btree_flush_all_writes, bch2_btree_init_next,
    bch2_btree_node_drop_keys_outside_node, bch2_btree_node_header_to_text,
    bch2_btree_node_io_unlock, bch2_btree_node_read_done, bch2_btree_node_sort_keys,
    bch2_btree_post_write_cleanup, bch2_read_done_sort, compat_bformat, compat_bpos,
    flush_block_addr, release_pin, BkeyFormat,
};
use volmount_btree::node_state::for_each_bset;
use volmount_btree::packed::read_pos;
use volmount_btree::sort_iter::SortIter;
use volmount_btree::validate::{bch2_validate_bset, bch2_validate_bset_keys, MAX_BSETS};

fn key(v: u64) -> BtreeKey {
    BtreeKey::new(v, 1, KeyType::Normal)
}

/// Writes a node as one record and reads it back.
fn through_record(node: &BtreeNode, addr: u64) -> BtreeNode {
    let (record, _) = initial_write(node, addr, 1).unwrap();
    let ptr = initial_pointer(&record[..BLOCK_SIZE], addr).unwrap();
    assert_eq!(committed_blocks(&ptr).unwrap() * BLOCK_SIZE, record.len());
    let mut n = BtreeNode::deserialize_from_extent(&record, ptr).unwrap();
    bch2_btree_node_read_done(&mut n).unwrap();
    n
}

#[test]
fn test_bch2_btree_node_read_write() {
    let mut node = BtreeNode::new_leaf();
    node.insert(key(1), BchVal::new(0x100, 1));
    node.compact();

    let loaded = through_record(&node, 42);
    assert_eq!(loaded.key_count, node.key_count);
}

#[test]
fn test_bch2_btree_root_read() {
    let node = BtreeNode::new_leaf();
    let root = through_record(&node, 99);
    assert_eq!(root.level, 0);
}

#[test]
fn test_btree_node_write_does_not_create_pin_by_itself() {
    let mut leaf = BtreeNode::new(0);
    leaf.journal_seq = 1;
    assert_eq!(release_pin(&mut leaf), None);
    assert!(leaf.journal_pin.is_none(), "direct write should not synthesize a journal pin");

    let mut interior = BtreeNode::new(5);
    interior.journal_seq = 2;
    assert_eq!(release_pin(&mut interior), None);
    assert!(interior.journal_pin.is_none(), "direct write should not synthesize a journal pin");
}

#[test]
fn pins_are_released_for_the_last_change_only() {
    let mut n = BtreeNode::new_leaf();
    n.journal_seq = 5;
    n.journal_pin = Some(4);
    assert_eq!(release_pin(&mut n), None);
    assert_eq!(n.journal_pin, Some(4));
    n.journal_pin = Some(5);
    assert_eq!(release_pin(&mut n), Some(5));
    assert_eq!(n.journal_pin, None);
}

#[test]
fn flushing_needs_a_place() {
    let mut n = BtreeNode::new_leaf();
    assert_eq!(
        flush_block_addr(&n),
        Err(StorageError::InvalidArgument(Fault::NoBlockAddr))
    );
    n.set_block_addr(77);
    assert_eq!(flush_block_addr(&n), Ok(77));
    assert_eq!(n.block_addr(), 77);
}

#[test]
fn test_read_done_validates() {
    let mut node = BtreeNode::new_leaf();
    assert!(bch2_btree_node_read_done(&mut node).is_ok());
    let text = bch2_btree_node_header_to_text(&node);
    assert!(text.contains("level=0"));
}

#[test]
fn test_validate_bset_rejects_invalid() {
    let mut node = BtreeNode::new_leaf();

    node.insert(key(1), BchVal::new(0x100, 1));
    node.insert(key(2), BchVal::new(0x200, 1));
    node.compact();

    assert!(bch2_validate_bset(&node, 0).is_ok());

    assert!(bch2_validate_bset(&node, MAX_BSETS).is_err());
    assert!(bch2_validate_bset(&node, MAX_BSETS + 1).is_err());

    let mut bad_node = BtreeNode::new_leaf();
    bad_node.sets[0].data_offset = 99999;
    bad_node.sets[0].size = 10;
    assert!(bch2_validate_bset(&bad_node, 0).is_err());
}

#[test]
fn misplaced_sets_are_told_apart() {
    let mut n = BtreeNode::new_leaf();
    n.node_size = 1000;
    n.sets[0].data_offset = 1001;
    assert_eq!(
        bch2_validate_bset(&n, 0),
        Err(StorageError::CorruptData(Fault::BsetStart { set: 0, offset: 1001, node_size: 1000 }))
    );
    n.sets[0].data_offset = 0;
    n.sets[0].end_offset = 1008;
    assert_eq!(
        bch2_validate_bset(&n, 0),
        Err(StorageError::CorruptData(Fault::BsetEnd { set: 0, offset: 1008, node_size: 1000 }))
    );
    n.sets[0].end_offset = 0;
    n.sets[0].size = 1;
    assert_eq!(
        bch2_validate_bset(&n, 0),
        Err(StorageError::CorruptData(Fault::BsetEmptyRange { set: 0, size: 1, start: 0, end: 0 }))
    );
    n.sets[0].end_offset = 12;
    assert_eq!(
        bch2_validate_bset(&n, 0),
        Err(StorageError::CorruptData(Fault::BsetNotAligned { set: 0, end: 12 }))
    );
    assert_eq!(
        bch2_validate_bset(&n, 3),
        Err(StorageError::CorruptData(Fault::BsetIndex(3)))
    );
}

#[test]
fn test_validate_bset_keys_rejects_out_of_order() {
    let mut node = BtreeNode::new_leaf();
    node.insert(key(3), BchVal::new(0x300, 1));
    node.insert(key(1), BchVal::new(0x100, 1));
    node.insert(key(2), BchVal::new(0x200, 1));

    assert!(node.sets[1].size > 0, "insert should write to set[1]");
    let result = bch2_validate_bset_keys(&node, 1);
    assert!(result.is_err(), "unsorted entries in set[1] should fail: {:?}", result);
    assert_eq!(
        result,
        Err(StorageError::CorruptData(Fault::KeyOrder { set: 1, entry: 2 }))
    );

    node.compact();
    assert!(bch2_validate_bset_keys(&node, 0).is_ok());
}

#[test]
fn broken_keys_are_told_apart() {
    let fresh = || {
        let mut n = BtreeNode::new_leaf();
        n.insert(key(1), BchVal::new(1, 1));
        n.insert(key(2), BchVal::new(2, 1));
        n.compact();
        n
    };
    let fault = |n: &BtreeNode| match bch2_validate_bset_keys(n, 0) {
        Err(StorageError::CorruptData(f)) => f,
        other => panic!("{:?}", other),
    };
    let mut n = fresh();
    n.data[1] = 5;
    assert_eq!(fault(&n), Fault::KeyFormat { set: 0, entry: 1, format: 5 });
    let mut n = fresh();
    n.data[0] = 2;
    assert_eq!(fault(&n), Fault::KeyTooShort { set: 0, entry: 1, u64s: 2 });
    let mut n = fresh();
    n.data[32] = 200;
    assert_eq!(fault(&n), Fault::EntryTooLong { offset: 32, bytes: 1600, end: 64 });
    let mut n = fresh();
    n.data[32] = 0;
    assert_eq!(fault(&n), Fault::BsetSize { set: 0, declared: 2, actual: 1 });
    let mut n = fresh();
    n.data[32 + 11] = 1;
    assert_eq!(fault(&n), Fault::DuplicateKey { set: 0, entry: 2 });
    let mut n = fresh();
    n.data.truncate(34);
    n.sets[0].end_offset = 34;
    assert_eq!(fault(&n), Fault::EntryHeaderCut { offset: 32, remaining: 2 });
    assert_eq!(
        bch2_validate_bset_keys(&fresh(), 7),
        Err(StorageError::CorruptData(Fault::BsetIndex(7)))
    );
}

#[test]
fn test_read_done_rejects_empty_data() {
    let mut node = BtreeNode::new_leaf();
    node.data.clear();
    assert!(bch2_btree_node_read_done(&mut node).is_err());
}

#[test]
fn read_done_rejects_nodes_without_a_size() {
    let mut node = BtreeNode::new_leaf();
    node.node_size = 0;
    node.set_read_in_flight();
    assert_eq!(
        bch2_btree_node_read_done(&mut node),
        Err(StorageError::CorruptData(Fault::ZeroNodeSize))
    );
    assert!(!node.is_read_in_flight());
}

#[test]
fn sets_that_overlap_may_hold_too_much() {
    let mut n = BtreeNode::new_leaf();
    for i in 0..4 {
        n.insert(key(i), BchVal::new(i, 1));
    }
    n.compact();
    n.node_size = 128;
    n.sets[0].aux_offset = 0;
    n.sets[1] = n.sets[0];
    assert_eq!(
        bch2_read_done_sort(&mut n),
        Err(StorageError::CorruptData(Fault::SortOverflow))
    );
}

#[test]
fn test_validate_bset_keys_zero_size_ok() {
    let node = BtreeNode::new_leaf();
    assert!(bch2_validate_bset_keys(&node, 0).is_ok());
}

#[test]
fn test_write_sorts_multiple_bsets() {
    let mut node = BtreeNode::new_leaf();

    node.insert(key(1), BchVal::new(0x100, 1));
    node.insert(key(3), BchVal::new(0x300, 1));
    node.compact();

    node.insert(key(2), BchVal::new(0x200, 1));
    node.insert(key(4), BchVal::new(0x400, 1));

    let loaded = through_record(&node, 77);
    let roundtrip = loaded.serialize_to_bucket(77).unwrap();
    assert!(bch2_btree_node_read_done(
        &mut BtreeNode::deserialize_from_bucket(&roundtrip).unwrap()
    )
    .is_ok());
}

#[test]
fn test_drop_keys_outside_node_removes_out_of_range() {
    let mut node = BtreeNode::new_leaf();

    node.insert(key(10), BchVal::new(0x100, 1));
    node.insert(key(20), BchVal::new(0x200, 1));
    node.insert(key(30), BchVal::new(0x300, 1));
    node.compact();

    node.min_key = Bpos { inode: 0, offset: 15, snapshot: 1 };
    node.max_key = Bpos { inode: 0, offset: 25, snapshot: 1 };

    bch2_btree_node_drop_keys_outside_node(&mut node).unwrap();
    assert_eq!(node.key_count, 1);
    assert!(node.search(&key(20)).is_some());
}

#[test]
fn nodes_without_a_range_keep_their_keys() {
    let mut node = BtreeNode::new_leaf();
    node.insert(key(10), BchVal::new(0x100, 1));
    bch2_btree_node_drop_keys_outside_node(&mut node).unwrap();
    assert_eq!(node.key_count, 1);
}

#[test]
fn test_header_to_text_format() {
    let mut node = BtreeNode::new_leaf();
    node.insert(key(42), BchVal::new(0x100, 1));
    node.compact();
    let text = bch2_btree_node_header_to_text(&node);
    assert!(text.contains("level=0"));
    assert!(text.contains("key_count=1"));
    assert!(text.contains("nsets=1"));
    assert!(text.contains("node_size=262144, data_len=262144)"));
}

#[test]
fn test_io_lock_unlock() {
    let mut node = BtreeNode::new_leaf();

    assert!(!node.is_write_in_flight());

    assert!(node.try_lock_write_in_flight());
    assert!(node.is_write_in_flight());

    assert!(!node.try_lock_write_in_flight());

    bch2_btree_node_io_unlock(&mut node);
    assert!(!node.is_write_in_flight());

    assert!(node.try_lock_write_in_flight());
    assert!(node.is_write_in_flight());
    bch2_btree_node_io_unlock(&mut node);
}

#[test]
fn test_read_in_flight_flags() {
    let mut node = BtreeNode::new_leaf();

    assert!(!node.is_read_in_flight());
    assert!(node.try_lock_read_in_flight());
    assert!(node.is_read_in_flight());
    assert!(!node.try_lock_read_in_flight());

    node.clear_read_in_flight();
    assert!(!node.is_read_in_flight());
}

#[test]
fn test_just_written_flag() {
    let mut node = BtreeNode::new_leaf();

    assert!(!node.is_just_written());
    node.set_just_written();
    assert!(node.is_just_written());

    bch2_btree_post_write_cleanup(&mut node);
    assert!(!node.is_just_written());
}

#[test]
fn test_sort_iter_single_bset() {
    let mut node = BtreeNode::new_leaf();
    node.insert(key(3), BchVal::new(0x300, 1));
    node.insert(key(1), BchVal::new(0x100, 1));
    node.insert(key(2), BchVal::new(0x200, 1));

    let mut iter = SortIter::init_from_node(&node);
    iter.add_all_bsets(&node);
    assert_eq!(iter.total_keys(), 3);

    let mut buf = vec![0u8; node.node_size as usize];
    let written = iter.sort_into(&mut buf).unwrap();
    assert!(written > 0);

    let sorted_node_data = &buf[..written];
    let mut offset = 0usize;
    let mut prev_offset = 0u64;
    while offset + 3 <= sorted_node_data.len() {
        let u64s = sorted_node_data[offset];
        if u64s == 0 {
            break;
        }
        let bpos = read_pos(sorted_node_data, offset);
        assert!(bpos.offset >= prev_offset);
        prev_offset = bpos.offset;
        offset += (u64s as u32) as usize * 8;
    }
}

#[test]
fn test_sort_iter_multiple_bsets() {
    let mut node = BtreeNode::new_leaf();

    node.insert(key(10), BchVal::new(0x100, 1));
    node.insert(key(30), BchVal::new(0x300, 1));
    node.insert(key(50), BchVal::new(0x500, 1));
    node.compact();
    assert!(node.sets[0].size == 3);

    node.insert(key(20), BchVal::new(0x200, 1));
    node.insert(key(40), BchVal::new(0x400, 1));

    assert!(node.sets[1].size == 2);
    assert_eq!(node.nsets(), 2);

    let mut iter = SortIter::init_from_node(&node);
    iter.add_all_bsets(&node);
    assert_eq!(iter.total_keys(), 5);

    let mut buf = vec![0u8; node.node_size as usize];
    let written = iter.sort_into(&mut buf).unwrap();
    assert!(written > 0);

    let sorted_node_data = &buf[..written];
    let mut offset = 0usize;
    let mut prev_offset = 0u64;
    while offset + 3 <= sorted_node_data.len() {
        let u64s = sorted_node_data[offset];
        if u64s == 0 {
            break;
        }
        let bpos = read_pos(sorted_node_data, offset);
        assert!(bpos.offset >= prev_offset, "key order violation");
        prev_offset = bpos.offset;
        offset += (u64s as u32) as usize * 8;
    }
    assert_eq!(prev_offset, 50);
}

#[test]
fn test_sort_iter_empty() {
    let node = BtreeNode::new_leaf();
    let mut iter = SortIter::init_from_node(&node);
    iter.add_all_bsets(&node);
    assert_eq!(iter.total_keys(), 0);

    let mut buf = vec![0u8; 256];
    let written = iter.sort_into(&mut buf).unwrap();
    assert_eq!(written, 0);
}

#[test]
fn sorting_into_a_short_buffer_fails() {
    let mut node = BtreeNode::new_leaf();
    node.insert(key(3), BchVal::new(0x300, 1));
    node.insert(key(1), BchVal::new(0x100, 1));
    let mut iter = SortIter::init_from_node(&node);
    iter.add_all_bsets(&node);
    let mut buf = vec![0u8; 40];
    assert_eq!(
        iter.sort_into(&mut buf),
        Err(StorageError::CorruptData(Fault::SortOverflow))
    );
}

#[test]
fn test_read_done_sort_integration() {
    let mut node = BtreeNode::new_leaf();
    for i in 0..5 {
        node.insert(key(i as u64 + 1), BchVal::new((i as u64 + 1) * 0x100, 1));
    }
    node.compact();

    let mut loaded = through_record(&node, 100);

    let result = bch2_btree_node_read_done(&mut loaded);
    assert!(result.is_ok(), "read_done failed: {:?}", result);

    assert_eq!(loaded.key_count, 5);
    assert!(loaded.search(&key(1)).is_some());
    assert!(loaded.search(&key(5)).is_some());
}

#[test]
fn test_bch2_btree_node_sort_keys_integration() {
    let mut node = BtreeNode::new_leaf();

    node.insert(key(5), BchVal::new(0x500, 1));
    node.insert(key(3), BchVal::new(0x300, 1));
    node.compact();
    node.insert(key(4), BchVal::new(0x400, 1));
    node.insert(key(1), BchVal::new(0x100, 1));

    bch2_btree_node_sort_keys(&mut node).unwrap();

    assert_eq!(node.nsets(), 1);
    assert_eq!(node.key_count, 4);
    assert!(node.search(&key(1)).is_some());
    assert!(node.search(&key(5)).is_some());
}

#[test]
fn test_write_mut_with_sort() {
    let mut node = BtreeNode::new_leaf();

    node.insert(key(10), BchVal::new(0x1000, 1));
    node.insert(key(30), BchVal::new(0x3000, 1));
    node.compact();
    node.insert(key(20), BchVal::new(0x2000, 1));

    assert!(node.try_lock_write_in_flight());
    bch2_btree_node_sort_keys(&mut node).unwrap();
    node.set_just_written();
    let loaded = through_record(&node, 55);
    bch2_btree_post_write_cleanup(&mut node);
    bch2_btree_node_io_unlock(&mut node);

    assert_eq!(loaded.key_count, 3);
}

#[test]
fn test_checksum_validation_on_deserialize() {
    let mut node = BtreeNode::new_leaf();
    for i in 0..20 {
        node.insert(key(i as u64), BchVal::new(i as u64 * 0x100, 1));
    }
    node.compact();

    let data = node.serialize_to_bucket(42).unwrap();
    assert!(data.len() == BLOCK_SIZE);

    assert!(BtreeNode::deserialize_from_bucket(&data).is_ok());

    let bset_offset = 128usize;
    let mut corrupted = data.clone();
    corrupted[bset_offset] ^= 0xFF;
    let result = BtreeNode::deserialize_from_bucket(&corrupted);
    assert!(result.is_err(), "corrupted bset data should trigger CRC error");
}

#[test]
fn test_negative_read_done_with_additional_bsets() {
    let mut node = BtreeNode::new_leaf();

    node.insert(key(2), BchVal::new(0x200, 1));
    node.insert(key(4), BchVal::new(0x400, 1));
    node.compact();

    node.sets[1].data_offset = 0;
    node.sets[1].end_offset = 8;
    node.sets[1].size = 10;

    let result = bch2_btree_node_read_done(&mut node);
    assert!(result.is_err(), "should reject bset with non-8-aligned end_offset");
}

#[test]
fn test_roundtrip_write_read_with_read_done() {
    let mut node = BtreeNode::new_leaf();

    for i in 0..10 {
        node.insert(key(i as u64), BchVal::new(i as u64 * 0x100, 1));
    }
    node.compact();

    let mut loaded = through_record(&node, 200);

    assert!(bch2_btree_node_read_done(&mut loaded).is_ok());

    for i in 0..10 {
        assert!(loaded.search(&key(i as u64)).is_some(), "key {} should survive roundtrip", i);
    }
}

#[test]
fn test_post_write_cleanup_single_bset() {
    let mut node = BtreeNode::new_leaf();
    node.insert(key(1), BchVal::new(0x100, 1));
    node.insert(key(2), BchVal::new(0x200, 1));
    node.compact();

    assert!(!bch2_btree_post_write_cleanup(&mut node));

    assert_eq!(node.nsets(), 1);
    assert!(
        node.sets[1].end_offset > 0,
        "init_next should set end_offset for the next bset"
    );
    assert!(node.insert(key(3), BchVal::new(0x300, 1)));
    assert_eq!(node.search(&key(3)).unwrap().1, BchVal::new(0x300, 1));
}

#[test]
fn next_sets_start_behind_the_others() {
    let mut node = BtreeNode::new_leaf();
    node.insert(key(1), BchVal::new(0x100, 1));
    node.compact();
    bch2_btree_init_next(&mut node);
    // One entry of 32 bytes and one aux record of 20.
    assert_eq!(node.sets[1].data_offset, 56);
    assert_eq!(for_each_bset(&node).len(), 1);
    assert_eq!(node.current_bset().size, 1);
}

#[test]
fn test_post_write_cleanup_with_whiteout() {
    let mut node = BtreeNode::new_leaf();
    for i in 0..10 {
        node.insert(key(i as u64), BchVal::new(i as u64 * 0x100, 1));
    }
    node.compact();

    node.delete_key(&key(3));

    if node.whiteout_count > 0 {
        assert!(bch2_btree_post_write_cleanup(&mut node));
    }
}

#[test]
fn test_read_done_empty_node_ok() {
    let mut node = BtreeNode::new_leaf();
    assert!(bch2_btree_node_read_done(&mut node).is_ok());
    assert_eq!(node.key_count, 0);
}

#[test]
fn test_node_flags_independence() {
    let mut node = BtreeNode::new_leaf();

    node.set_write_in_flight();
    assert!(node.is_write_in_flight());
    assert!(!node.is_read_in_flight());
    assert!(!node.is_just_written());

    node.set_read_in_flight();
    assert!(node.is_write_in_flight());
    assert!(node.is_read_in_flight());

    node.set_just_written();
    assert!(node.is_just_written());

    node.clear_write_in_flight();
    assert!(!node.is_write_in_flight());
    assert!(node.is_read_in_flight());
    assert!(node.is_just_written());

    node.clear_read_in_flight();
    node.clear_just_written();
    assert!(!node.is_read_in_flight());
    assert!(!node.is_just_written());
}

#[test]
fn other_flags_and_states() {
    let mut n = BtreeNode::new_leaf();
    n.set_accessed();
    n.set_need_rewrite();
    assert_eq!(n.flags, NODE_ACCESSED | NODE_NEED_REWRITE);
    n.clear_accessed();
    assert!(!n.is_accessed() && n.need_rewrite());
    n.clear_need_rewrite();
    assert_eq!(n.flags, 0);
    n.set_will_make_reachable();
    assert!(n.will_make_reachable());
    n.clear_will_make_reachable();
    assert!(!n.will_make_reachable());
    for s in [NodeState::Deleting, NodeState::InFlight, NodeState::Reclaim, NodeState::Alive] {
        n.bch2_btree_node_transition_state(s);
        assert_eq!(n.bch2_btree_node_state(), s);
        assert_eq!(n.is_alive(), s == NodeState::Alive);
    }
    n.state = 9;
    assert_eq!(n.bch2_btree_node_state(), NodeState::Alive);
    assert_eq!(n.refcount(), 1);
    n.insert(key(1), BchVal::new(1, 1));
    n.reset_for_reuse(3);
    assert_eq!((n.level, n.key_count, n.nsets()), (3, 0, 1));
    assert!(n.search(&key(1)).is_none());
    assert!(bch2_btree_flush_all_reads() && bch2_btree_flush_all_writes());
    let mut p = Bpos::new(1, 2, 3);
    compat_bpos(0, 0, 0, 0, false, &mut p);
    assert_eq!(p, Bpos::new(1, 2, 3));
}

#[test]
fn test_sort_keys_single_bset() {
    let mut node = BtreeNode::new_leaf();
    node.insert(key(3), BchVal::new(0x300, 1));
    node.insert(key(1), BchVal::new(0x100, 1));
    node.compact();

    bch2_btree_node_sort_keys(&mut node).unwrap();
    assert_eq!(node.nsets(), 1);
    assert_eq!(node.key_count, 2);
}

#[test]
fn test_io_lock_reentry_safe() {
    let mut node = BtreeNode::new_leaf();

    assert!(node.try_lock_write_in_flight());

    assert!(!node.try_lock_write_in_flight());

    node.clear_write_in_flight();
    assert!(node.try_lock_write_in_flight());
    node.clear_write_in_flight();
}

#[test]
fn values_change_in_place() {
    let mut n = BtreeNode::new_leaf();
    n.insert(key(1), BchVal::new(1, 1));
    n.insert(key(2), BchVal::new(2, 1));
    n.compact();
    n.insert(key(3), BchVal::new(3, 1));
    assert!(n.update_value_at(2, &BchVal::new(0xABCDEF, 7)));
    assert!(n.update_value_at(3, &BchVal::new(9, 9)));
    assert!(!n.update_value_at(4, &BchVal::new(9, 9)));
    assert!(!n.update_value_at(0, &BchVal::new(9, 9)));
    assert_eq!(n.search(&key(1)).unwrap().1, BchVal::new(1, 1));
    assert_eq!(n.search(&key(2)).unwrap().1, BchVal::new(0xABCDEF, 7));
    assert_eq!(n.search(&key(3)).unwrap().1, BchVal::new(9, 9));
}

#[test]
fn a_range_may_hold_a_single_position() {
    let mut n = BtreeNode::new_leaf();
    for v in [10u64, 20, 30] {
        n.insert(key(v), BchVal::new(v * 0x10, 1));
    }
    n.compact();
    n.min_key = Bpos::new(0, 20, 1);
    n.max_key = Bpos::new(0, 20, 1);
    assert_eq!(bch2_btree_node_drop_keys_outside_node(&mut n), Ok(()));
    assert_eq!(n.key_count, 1);
    assert_eq!(n.search(&key(20)), Some((key(20), BchVal::new(0x140, 1))));
    assert_eq!(n.search(&key(10)), None);
    // A range that ends before it starts holds nothing back.
    n.min_key = Bpos::new(0, 25, 1);
    assert_eq!(bch2_btree_node_drop_keys_outside_node(&mut n), Ok(()));
    assert_eq!(n.key_count, 1);
}

#[test]
fn only_the_first_set_may_be_empty() {
    let n = BtreeNode::new_leaf();
    assert_eq!(bch2_validate_bset(&n, 0), Ok(()));
    assert_eq!(
        bch2_validate_bset(&n, 1),
        Err(StorageError::CorruptData(Fault::BsetNoEntries(1)))
    );
}

#[test]
fn nothing_is_converted_or_cancelled() {
    let mut f = BkeyFormat { key_u64s: 5, nr_fields: 6 };
    compat_bformat(0, 1, 2, 0, true, &mut f);
    assert_eq!(f, BkeyFormat { key_u64s: 5, nr_fields: 6 });
    bch2_btree_cancel_all_writes();
    assert!(bch2_btree_flush_all_writes());
}

#[test]
fn faults_as_text() {
    assert_eq!(Fault::AppendNotAligned(7).to_text(), "append offset 7 is not block aligned");
    assert_eq!(
        Fault::ExtentTooShort { have: 10, committed: 4096 }.to_text(),
        "btree extent has 10 bytes, pointer commits 4096"
    );
    assert_eq!(Fault::UnsupportedVersion(9).to_text(), "unsupported btree node format version 9");
    assert_eq!(Fault::ZeroSizedKey.to_text(), "zero-sized packed bkey");
    assert_eq!(
        Fault::BsetEmptyRange { set: 1, size: 2, start: 30, end: 20 }.to_text(),
        "bset[1] size=2 but data_offset=30 >= end_offset=20"
    );
    assert_eq!(
        Fault::KeyTooShort { set: 0, entry: 3, u64s: 2 }.to_text(),
        "bset[0] entry 3: u64s=2 less than minimum BKEY_U64S"
    );
    assert_eq!(Fault::BsetNoEntries(2).to_text(), "bset[2] has no entries");
    assert_eq!(
        Fault::DuplicateEntry(BtreeId::Extents, Bpos::new(1, 2, 3)).to_text(),
        "check_topology: btree Extents duplicate entry at 1:2:3"
    );
    assert_eq!(
        Fault::ChildPtrLevel { parent: 2, child: 0 }.to_text(),
        "btree child level mismatch: parent level 2 child level 0"
    );
}

/// Where the keys of a set of a node begin, with the bytes of each: all are as
/// long as extents.
fn extent_bytes(node: &BtreeNode, set: usize) -> (usize, Vec<Vec<u8>>) {
    let start = node.sets[set].data_offset as usize;
    let end = start + node.sets[set].size as usize * 32;
    (start, node.data[start..end].chunks(32).map(|c| c.to_vec()).collect())
}

#[test]
fn sorting_moves_the_bytes_of_a_key_as_they_stand() {
    let mut node = BtreeNode::new_leaf();
    node.insert(key(1), BchVal::new(0x100, 1));
    node.insert(key(2), BchVal::new(0x200, 1));
    node.compact();
    let (start, keys) = extent_bytes(&node, 0);
    assert_eq!(keys[0][1], 1);
    node.data[start + 1] = 0x81;
    node.data[start + 23] = 0x55;
    let (_, kept) = extent_bytes(&node, 0);
    // The keys in the wrong order.
    node.data[start..start + 32].copy_from_slice(&kept[1]);
    node.data[start + 32..start + 64].copy_from_slice(&kept[0]);

    let mut iter = SortIter::init_from_node(&node);
    iter.add(node.sets[0].data_offset, node.sets[0].data_offset + 64);
    let mut buf = vec![0u8; 80];
    assert_eq!(iter.sort_into(&mut buf), Ok(64));
    assert_eq!(buf[..32], kept[0][..]);
    assert_eq!(buf[32..64], kept[1][..]);
    assert_eq!(buf[1], 0x81);
    assert_eq!(buf[23], 0x55);
    assert_eq!(buf[64..], [0u8; 16]);
}

#[test]
fn keys_at_one_position_are_sorted_as_they_came() {
    let mut node = BtreeNode::new_leaf();
    node.insert(key(7), BchVal::new(0x100, 1));
    node.compact();
    node.insert(key(3), BchVal::new(0x300, 1));
    node.insert(key(7), BchVal::new(0x200, 1));
    let (first, keys) = extent_bytes(&node, 0);
    let (second, added) = extent_bytes(&node, 1);
    assert_eq!((keys.len(), added.len()), (1, 2));
    let mut iter = SortIter::init_from_node(&node);
    iter.add(second as u32, second as u32 + 64);
    iter.add(first as u32, first as u32 + 32);
    let mut buf = vec![0u8; 96];
    assert_eq!(iter.sort_into(&mut buf), Ok(96));
    let seven: Vec<Vec<u8>> = added.iter().filter(|k| read_pos(k, 0).offset == 7).cloned().collect();
    assert_eq!(read_pos(&buf, 0).offset, 3);
    assert_eq!(buf[32..64], seven[0][..]);
    assert_eq!(buf[64..], keys[0][..]);
}

#[test]
fn sets_that_are_out_of_order_are_merged_all_the_same() {
    let mut n = BtreeNode::new_leaf();
    for i in 0..4 {
        n.insert(key(i), BchVal::new(i + 10, 1));
    }
    n.compact();
    let (start, keys) = extent_bytes(&n, 0);
    // Three, two, one and one once more.
    for (at, from) in [3usize, 2, 1, 1].into_iter().enumerate() {
        n.data[start + 32 * at..start + 32 * at + 32].copy_from_slice(&keys[from]);
    }
    n.data[start + 32 * 3 + 24] = 99;
    assert!(bch2_validate_bset_keys(&n, 0).is_err());
    assert_eq!(bch2_read_done_sort(&mut n), Ok(()));
    assert_eq!(n.key_count, 3);
    assert_eq!(n.search(&key(0)), None);
    assert_eq!(n.search(&key(1)), Some((key(1), BchVal::new(99, 1))));
    assert_eq!(n.search(&key(2)), Some((key(2), BchVal::new(12, 1))));
    assert_eq!(n.search(&key(3)), Some((key(3), BchVal::new(13, 1))));
}

#[test]
fn keys_that_do_not_lie_in_the_buffer_are_not_sorted() {
    let mut node = BtreeNode::new_leaf();
    node.insert(key(1), BchVal::new(0x100, 1));
    node.compact();
    let start = node.sets[0].data_offset;
    let len = node.data.len() as u32;
    let mut buf = vec![7u8; 64];

    let mut iter = SortIter::init_from_node(&node);
    iter.add(start, start + 32);
    iter.add(len - 2, len);
    let cut = Fault::SortKeyCut(len as u64 - 2);
    assert_eq!(cut.to_text(), format!("sort_iter: truncated key header at offset {}", len - 2));
    assert_eq!(iter.sort_into(&mut buf), Err(StorageError::CorruptData(cut)));
    assert_eq!(buf, vec![7u8; 64]);

    node.data[len as usize - 8] = 4;
    let mut iter = SortIter::init_from_node(&node);
    iter.add(len - 8, len);
    let long = Fault::SortKeyTooLong(len as u64 - 8);
    assert_eq!(
        long.to_text(),
        format!("sort_iter: key at offset {} exceeds data buffer", len - 8)
    );
    assert_eq!(iter.sort_into(&mut buf), Err(StorageError::CorruptData(long)));
    assert_eq!(iter.total_keys(), 1);
}

#[test]
fn a_size_of_zero_ends_a_range() {
    let mut node = BtreeNode::new_leaf();
    node.insert(key(1), BchVal::new(0x100, 1));
    node.compact();
    let (start, keys) = extent_bytes(&node, 0);
    node.data[start + 32..start + 64].fill(0);
    let mut iter = SortIter::init_from_node(&node);
    iter.add(start as u32, start as u32 + 64);
    assert_eq!(iter.total_keys(), 1);
    let mut buf = vec![0u8; 64];
    assert_eq!(iter.sort_into(&mut buf), Ok(32));
    assert_eq!(buf[..32], keys[0][..]);
}

#[test]
fn values_in_the_first_set_change_under_its_arrays() {
    let mut n = BtreeNode::new_leaf();
    for i in 0..20 {
        n.insert(key(i), BchVal::new(i, 1));
    }
    n.compact();
    let set = n.sets[0];
    assert!(set.extra > 0);
    assert!(n.update_value_at(8, &BchVal::new(0xABC, 3)));
    assert_eq!(n.sets[0], set);
    assert_eq!(n.search(&key(7)), Some((key(7), BchVal::new(0xABC, 3))));
    for i in (0..20).filter(|i| *i != 7) {
        assert_eq!(n.search(&key(i)), Some((key(i), BchVal::new(i, 1))));
    }
}

#[test]
fn compacted_nodes_pass_the_checks_of_a_read() {
    let mut n = BtreeNode::new_leaf();
    for i in [9u64, 2, 7, 2, 40] {
        n.insert(key(i), BchVal::new(i, 1));
    }
    assert!(bch2_validate_bset_keys(&n, 1).is_err());
    n.compact();
    for set in 0..3 {
        assert!(bch2_validate_bset_keys(&n, set).is_ok());
    }
    assert_eq!(bch2_btree_node_read_done(&mut n), Ok(()));
    assert_eq!(n.key_count, 4);
}
