//! What holds of trees whatever was done to them.

use std::collections::BTreeMap;
use volmount_btree::btree::Btree;
use volmount_btree::key::{BchVal, BtreeEntry, BtreeKey, KeyType};

fn key(v: u64) -> BtreeKey {
    BtreeKey::new(v, 1, KeyType::Normal)
}

fn val(v: u64) -> BchVal {
    BchVal::new(v * 7 + 3, (v % 5) as u16)
}

/// The numbers below `n` in an order that jumps about; `step` shares no factor
/// with `n`.
fn scattered(n: u64, step: u64) -> Vec<u64> {
    (0..n).map(|i| (i * step) % n).collect()
}

fn grown(n: u64, step: u64) -> Btree {
    let mut b = Btree::new();
    b.root.node.node_size = 512;
    for i in scattered(n, step) {
        assert!(b.insert(key(i * 3 + 1), val(i), 1));
    }
    b
}

#[test]
fn inserts_of_new_keys_are_found_whatever_was_split() {
    let mut b = Btree::new();
    b.root.node.node_size = 512;
    for (done, i) in scattered(600, 247).into_iter().enumerate() {
        assert!(b.insert(key(i * 3 + 1), val(i), 1));
        if done % 97 == 0 {
            for &j in scattered(600, 247).iter().take(done + 1) {
                assert_eq!(b.search(&key(j * 3 + 1)), Some((key(j * 3 + 1), val(j))));
            }
        }
    }
    assert!(b.depth() >= 2);
    for i in 0..600u64 {
        assert_eq!(b.get(&key(i * 3 + 1)), Some((key(i * 3 + 1), val(i))));
        assert_eq!(b.get(&key(i * 3 + 2)), None);
    }
}

#[test]
fn walk_visits_every_inserted_key_once() {
    let b = grown(500, 171);
    assert!(b.depth() >= 2);
    let visited = b.for_each();
    assert_eq!(visited.len(), 500);
    let found: BTreeMap<u64, BchVal> = visited.into_iter().map(|(k, v)| (k.vaddr, v)).collect();
    let wanted: BTreeMap<u64, BchVal> = (0..500u64).map(|i| (i * 3 + 1, val(i))).collect();
    assert_eq!(found, wanted);
}

#[test]
fn deletes_lose_one_key_each_whatever_was_merged() {
    let mut b = grown(400, 123);
    let deep = b.depth();
    let mut left: BTreeMap<u64, BchVal> = (0..400u64).map(|i| (i * 3 + 1, val(i))).collect();
    for i in scattered(400, 77).into_iter().take(390) {
        assert!(b.delete(&key(i * 3 + 1), 2));
        left.remove(&(i * 3 + 1));
        assert_eq!(b.get(&key(i * 3 + 1)), None);
    }
    assert!(b.depth() < deep);
    assert_eq!(left.len(), 10);
    for (k, v) in &left {
        assert_eq!(b.get(&key(*k)), Some((key(*k), *v)));
    }
    assert!(!b.delete(&key(2), 3));
}

#[test]
fn rewritten_key_reads_back_the_new_value() {
    let mut b = Btree::new();
    for i in 0..20u64 {
        assert!(b.insert(key(i), val(i), 1));
    }
    b.compact();
    assert!(b.insert(key(7), val(100), 2));
    assert_eq!(b.get(&key(7)), Some((key(7), val(100))));
    assert_eq!(b.get(&key(8)), Some((key(8), val(8))));
}

#[test]
fn compaction_settles_a_key_that_was_rewritten_twice() {
    let mut b = Btree::new();
    assert!(b.insert(key(7), val(1), 1));
    assert!(b.insert(key(7), val(2), 2));
    assert!(b.insert(key(9), val(3), 3));
    b.compact();
    assert_eq!(b.search(&key(7)), Some((key(7), val(2))));
    assert_eq!(b.search(&key(9)), Some((key(9), val(3))));
}

#[test]
fn presplit_at_a_shard_boundary_keeps_every_key() {
    let mut b = Btree::new();
    for i in 0..10u64 {
        assert!(b.insert(key(1000 + i * 5), val(i), 1));
    }
    assert!(b.presplit_shard_boundaries());
    assert_eq!(b.depth(), 1);
    for i in 0..10u64 {
        assert_eq!(b.search(&key(1000 + i * 5)), Some((key(1000 + i * 5), val(i))));
    }
}

#[test]
fn walks_visit_what_is_left_whatever_was_merged() {
    let mut b = grown(300, 77);
    let mut left: BTreeMap<u64, BchVal> = (0..300u64).map(|i| (i * 3 + 1, val(i))).collect();
    for i in scattered(300, 71).into_iter().take(240) {
        assert!(b.delete(&key(i * 3 + 1), 2));
        left.remove(&(i * 3 + 1));
    }
    let mut seen: BTreeMap<u64, BchVal> = BTreeMap::new();
    for (k, v) in b.for_each() {
        if b.get(&k).is_some() {
            seen.insert(k.vaddr, v);
        }
    }
    assert_eq!(seen, left);
    assert_eq!(b.key_count(), 60);
}

#[test]
fn deletes_and_inserts_in_turn() {
    let mut b = grown(200, 77);
    for round in 0..3u64 {
        for i in (0..200u64).step_by(7) {
            let k = key(i * 3 + 1);
            assert!(b.delete(&k, round));
            assert_eq!(b.get(&k), None);
            assert!(b.insert(k, val(i + round), round));
            assert_eq!(b.get(&k), Some((k, val(i + round))));
        }
    }
    for i in 0..200u64 {
        let k = key(i * 3 + 1);
        let v = if i % 7 == 0 { val(i + 2) } else { val(i) };
        assert_eq!(b.get(&k), Some((k, v)));
    }
}

#[test]
fn whiteouts_are_held_like_other_keys() {
    let mut b = grown(300, 77);
    let keys = b.key_count();
    let blank = BtreeKey::new(2, 1, KeyType::Whiteout);
    assert_eq!(b.get(&blank), None);
    assert!(b.insert(blank, val(9), 2));
    assert_eq!(b.get(&blank), Some((blank, val(9))));
    assert_eq!(b.get(&key(2)), None);
    assert_eq!(b.key_count(), keys + 1);
    for i in 0..300u64 {
        assert_eq!(b.get(&key(i * 3 + 1)), Some((key(i * 3 + 1), val(i))));
    }
}

#[test]
fn whiteouts_hide_what_was_in_their_slot() {
    let mut b = grown(100, 77);
    let depth = b.depth();
    for i in (0..100u64).step_by(9) {
        let blank = BtreeKey::new(i * 3 + 1, 1, KeyType::Whiteout);
        assert!(b.insert(blank, val(i + 1), 2));
        assert_eq!(b.get(&blank), Some((blank, val(i + 1))));
        assert_eq!(b.get(&key(i * 3 + 1)), None);
    }
    assert!(b.depth() <= depth + 12);
    for i in (0..100u64).filter(|i| i % 9 != 0) {
        assert_eq!(b.get(&key(i * 3 + 1)), Some((key(i * 3 + 1), val(i))));
    }
}

#[test]
fn one_insert_takes_a_bounded_number_of_addresses() {
    let mut b = Btree::new();
    b.root.node.node_size = 512;
    for i in scattered(600, 247) {
        let (addr, depth) = (b.cache.next_addr, b.depth());
        assert!(b.insert(key(i * 3 + 1), val(i), 1));
        assert!(b.cache.next_addr <= addr + 258);
        assert!(b.depth() <= depth + 1);
    }
}

#[test]
fn deletes_leave_whiteouts_in_other_slots_alone() {
    let mut b = grown(300, 77);
    let deep = b.depth();
    let blank = BtreeKey::new(2, 1, KeyType::Whiteout);
    assert!(b.insert(blank, val(9), 2));
    for i in scattered(300, 71).into_iter().take(280) {
        assert!(b.delete(&key(i * 3 + 1), 3));
        assert_eq!(b.get(&key(i * 3 + 1)), None);
    }
    assert!(b.depth() < deep);
    assert_eq!(b.get(&blank), Some((blank, val(9))));
    assert_eq!(b.key_count(), 21);
    for i in scattered(300, 71).into_iter().skip(280) {
        assert_eq!(b.get(&key(i * 3 + 1)), Some((key(i * 3 + 1), val(i))));
    }
    assert!(!b.delete(&key(2), 4));
}

/// Whether a node above the leaves routes by a whiteout.
fn routes_by_whiteout(b: &Btree) -> bool {
    let blank = |es: Vec<BtreeEntry>| es.iter().any(|e| e.key_type == KeyType::Whiteout);
    blank(b.root.node.all_entries())
        || b.cache.nodes.values().any(|n| n.level > 0 && blank(n.all_entries()))
}

#[test]
fn deletes_below_whiteouts_lose_one_key_each() {
    let mut b = Btree::new();
    b.root.node.node_size = 512;
    let kind = |i: u64| if i % 3 == 0 { KeyType::Normal } else { KeyType::Whiteout };
    let named = |i: u64| BtreeKey::new(i * 3 + 1, 1, kind(i));
    for i in scattered(400, 123) {
        assert!(b.insert(named(i), val(i), 1));
    }
    assert!(b.depth() >= 2);
    assert!(routes_by_whiteout(&b));
    let deep = b.depth();
    let mut left: BTreeMap<u64, BchVal> = (0..400u64).map(|i| (i, val(i))).collect();
    for i in scattered(400, 77).into_iter().filter(|i| i % 3 == 0) {
        assert!(b.delete(&named(i), 2));
        left.remove(&i);
        assert_eq!(b.get(&named(i)), None);
        if i % 15 == 0 {
            for (j, v) in &left {
                assert_eq!(b.get(&named(*j)), Some((named(*j), *v)));
            }
        }
    }
    for (j, v) in &left {
        assert_eq!(b.get(&named(*j)), Some((named(*j), *v)));
    }
    assert!(b.depth() <= deep);
    assert_eq!(b.key_count() as usize, left.len());
}

#[test]
fn a_whiteout_in_a_full_leaf_outlives_a_delete() {
    let mut b = Btree::new();
    b.root.node.node_size = 256;
    let blank = BtreeKey::new(7, 1, KeyType::Whiteout);
    assert!(b.root.node.insert(key(7), val(7)));
    for i in 20..26 {
        assert!(b.root.node.insert(key(i), val(i)));
    }
    assert!(b.root.node.insert(blank, val(1)));
    assert!(!b.root.node.insert(key(30), val(30)));
    b.reset_key_count();
    assert!(b.delete(&key(7), 2));
    assert_eq!(b.get(&key(7)), None);
    assert_eq!(b.get(&blank), Some((blank, val(1))));
    for i in 20..26 {
        assert_eq!(b.get(&key(i)), Some((key(i), val(i))));
    }
}
