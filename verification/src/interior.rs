//! Changes to the shape of a tree: splits, merges, new roots, rewrites.

use crate::btree::Btree;
use crate::cache::NodeCache;
use crate::iter::BtreeRoot;
use crate::key::{BchVal, Bpos, BtreeEntry, BtreeKey, BtreePtrV2, KeyValue, ADDR48_LIMIT};
use crate::merge::{node_underfull, spec_underfull};
use crate::node::{BtreeNode, NODE_NEED_REWRITE};
use crate::node_edit::lemma_extent_size;
use crate::node_split::lemma_wf_same;
use crate::packed::{all_padded, total_size};
use crate::run::views;
use crate::sort::ordered;
use crate::tree_insert::{has_new_state, routing};
use vstd::prelude::*;

verus! {

/// The largest number of levels below a root.
pub const BTREE_MAX_DEPTH: usize = 8;

/// Why a node is written anew.
#[derive(Clone, Copy, Debug, PartialEq, Eq, Structural)]
pub enum BtreeNodeRewriteReason {
    NotRewritten,
    Format,
    Corrupt,
    InternalFormat,
    PreSplit,
    SnapshotCleanup,
}

/// The number of nodes that a split may need in the worst case: two for each
/// level above the node, and a new root unless the tree is as deep as it gets.
pub fn btree_update_reserve_required(depth: u8, node_level: u8) -> (r: usize)
    requires
        node_level <= depth,
        depth >= BTREE_MAX_DEPTH ==> node_level < depth,
    ensures
        r == (if depth < BTREE_MAX_DEPTH {
            (depth - node_level) * 2 + 1
        } else {
            (depth - node_level) * 2 - 1
        }),
{
    let above: usize = (depth - node_level) as usize;
    if (depth as usize) < BTREE_MAX_DEPTH {
        above * 2 + 1
    } else {
        above * 2 - 1
    }
}

/// Whether a node is filled too little.
pub fn btree_node_needs_merge(b: &BtreeNode) -> (r: bool)
    requires
        b.wf(),
    ensures
        r == spec_underfull(*b),
{
    node_underfull(b)
}

/// Nodes hold no estimate of the size of their siblings: there is nothing to
/// reset.
pub fn btree_node_reset_sib_u64s(_b: &BtreeNode) {
}

/// Adds a key; a leaf without room is split.
pub fn btree_split_leaf(btree: &mut Btree, target: &BtreeKey, value: &BchVal) -> (r: bool)
    requires
        old(btree).wf(),
        old(btree).can_grow(),
    ensures
        final(btree).wf(),
        r ==> exists|mid: Btree| #[trigger]
            old(btree).tree_inserted(mid, *target, *value, 0, false, true) && mid.rounded_off(
                *final(btree),
                Bpos::spec_from_key(*target),
            ),
        !r ==> old(btree).tree_inserted(*final(btree), *target, *value, 0, false, false),
        old(btree).took_one(*final(btree)),
{
    let (r, _t) = btree.insert_with_transaction(*target, *value, None, 0);
    r
}

/// Adds the key that made a split necessary, which splits the node at
/// `node_addr` where it is the leaf for that key, or the tree is one leaf.
/// False, with nothing changed, for any other node.
pub fn btree_split(btree: &mut Btree, node_addr: u64, trigger_key: &BtreeKey, trigger_val: &BchVal) -> (r:
    bool)
    requires
        old(btree).wf(),
        old(btree).can_grow(),
    ensures
        final(btree).wf(),
        if old(btree).root.depth == 0 || node_addr == old(btree).leaf_addr(*trigger_key) {
            old(btree).was_inserted(*final(btree), *trigger_key, *trigger_val, 0, r)
        } else {
            !r && *final(btree) == *old(btree)
        },
        old(btree).took_one(*final(btree)),
{
    if btree.depth() == 0 {
        return btree.insert(*trigger_key, *trigger_val, 0);
    }
    let mut path: Vec<u64> = Vec::new();
    match btree.find_path_to_leaf_internal(trigger_key, &mut path) {
        Some(a) => if a == node_addr {
            btree.insert(*trigger_key, *trigger_val, 0)
        } else {
            false
        },
        None => false,
    }
}

/// Makes `new_root` the root; the tree is as deep as its level says.
pub fn btree_set_root(btree: &mut Btree, new_root: BtreeNode)
    requires
        old(btree).wf(),
        new_root.wf(),
        new_root.level == old(btree).root.depth + 1 || new_root.level == old(btree).root.depth,
    ensures
        final(btree).wf(),
        *final(btree) == (Btree {
            root: BtreeRoot {
                node: new_root,
                depth: new_root.level,
                ptr: BtreePtrV2::spec_invalid(),
            },
            ..*old(btree)
        }),
{
    btree.set_root_internal(new_root);
}

/// Makes a node that was read the root, and counts the keys anew.
pub fn btree_set_root_for_read(btree: &mut Btree, node: BtreeNode)
    requires
        old(btree).wf(),
        node.wf(),
    ensures
        final(btree).wf(),
        ({
            let root = BtreeRoot { node, depth: node.level, ptr: BtreePtrV2::spec_invalid() };
            *final(btree) == (Btree {
                root,
                total_key_count: Btree::spec_count(root, old(btree).nodes()),
                ..*old(btree)
            })
        }),
{
    btree.set_root_internal(node);
    btree.reset_key_count();
}

/// Whether `n` is a root over the one child at `child_addr`, above `below`.
pub open spec fn is_root_over(n: BtreeNode, below: BtreeNode, depth: u8, child_addr: u64) -> bool {
    &&& n.wf()
    &&& n.level == depth + 1
    &&& n.node_size == below.node_size
    &&& n.holds_packed(seq![routing(BtreeKey::spec_min_key(), child_addr)])
    &&& n.all() == seq![routing(BtreeKey::spec_min_key(), child_addr)]
    &&& n.min_key == below.min_key
    &&& n.max_key == below.max_key
    &&& n.will_make_reachable
    &&& n.journal_seq == 0
    &&& has_new_state(n)
}

fn root_over(below: &BtreeNode, depth: u8, child_addr: u64) -> (r: BtreeNode)
    requires
        below.wf(),
        depth < 255,
    ensures
        is_root_over(r, *below, depth, child_addr),
{
    let min = BtreeKey::min_key();
    let v = BchVal::new(child_addr, 0);
    let mut es: Vec<BtreeEntry> = Vec::new();
    es.push(BtreeEntry::new(Bpos::from_key(&min), min.key_type, KeyValue::Extent(v)));
    let mut n = BtreeNode::new(depth + 1);
    proof {
        let e = routing(min, child_addr);
        lemma_extent_size(min, v);
        assert(views(es@) =~= seq![e]);
        assert(views(es@).subrange(0, 1) =~= seq![e]);
        assert(seq![e].skip(1) =~= Seq::<crate::key::EntryView>::empty());
        assert(total_size(seq![e].skip(1)) == 0);
        assert(total_size(seq![e]) == 32);
        assert(ordered(seq![e], false));
        assert(all_padded(seq![e]) =~= seq![e]);
        below.lemma_all();
    }
    n.repack(&es, 0, 1);
    n.set_node_size(below.node_size);
    let ghost n0 = n;
    n.min_key = below.min_key;
    n.max_key = below.max_key;
    proof {
        lemma_wf_same(n0, n);
    }
    n.set_will_make_reachable();
    n
}

/// Puts a new root over the tree, with one child at `child_addr`. Returns the
/// address of the new root; nothing for a tree as deep as it gets.
pub fn btree_increase_depth(btree: &mut Btree, child_addr: u64) -> (r: Option<u64>)
    requires
        old(btree).wf(),
        old(btree).cache.next_addr < ADDR48_LIMIT,
    ensures
        final(btree).wf(),
        match r {
            Some(a) => old(btree).root.depth < BTREE_MAX_DEPTH && a == old(btree).cache.next_addr
                && is_root_over(
                final(btree).root.node,
                old(btree).root.node,
                old(btree).root.depth,
                child_addr,
            ) && final(btree).root.depth == old(btree).root.depth + 1
                && final(btree).root.ptr == BtreePtrV2::spec_invalid()
                && final(btree).nodes().contains_key(a) && final(btree).root.node.is_shared(
                final(btree).nodes()[a],
            ) && final(btree).nodes() == old(btree).nodes().insert(a, final(btree).nodes()[a])
                && final(btree).cache.dirty@ == NodeCache::marked(old(btree).cache.dirty@, a)
                && final(btree).cache.next_addr == a + 1 && *final(btree) == (Btree {
                root: final(btree).root,
                cache: final(btree).cache,
                ..*old(btree)
            }),
            None => old(btree).root.depth >= BTREE_MAX_DEPTH && *final(btree) == *old(btree),
        },
{
    let depth: u8 = btree.root.depth;
    if depth as usize >= BTREE_MAX_DEPTH {
        return None;
    }
    let n = root_over(&btree.root.node, depth, child_addr);
    let a: u64 = btree.cache.alloc_addr();
    let copy = n.share();
    btree.cache.insert_dirty(a, copy);
    btree.set_root_internal(n);
    Some(a)
}

/// Merges a node with a neighbour if it is filled too little. Returns whether
/// that is done, or the node needs no merge.
pub fn btree_merge(btree: &mut Btree, node_addr: u64, ancestors: &[u64]) -> (r: bool)
    requires
        old(btree).wf(),
    ensures
        final(btree).wf(),
        exists|merged: bool| #[trigger]
            old(btree).merge_tried(*final(btree), node_addr, ancestors@, merged) && r == (merged
                || old(btree).needs_no_merge(node_addr)),
{
    let unneeded: bool = match btree.cache.get(node_addr) {
        Some(n) => !node_underfull(n),
        None => false,
    };
    let merged = btree.try_merge_node(node_addr, ancestors);
    merged || unneeded
}

impl Btree {
    /// Whether a node is cached and not filled too little.
    pub open spec fn needs_no_merge(self, node_addr: u64) -> bool {
        self.nodes().contains_key(node_addr) && !spec_underfull(self.nodes()[node_addr])
    }
}

/// Whether `new` is the cache `old` with the node at `a` compacted and marked
/// as changed.
pub open spec fn compacted_in_cache(old: NodeCache, new: NodeCache, a: u64) -> bool {
    &&& new.nodes@.contains_key(a)
    &&& old.nodes@[a].compacted_to(new.nodes@[a])
    &&& new.nodes@ == old.nodes@.insert(a, new.nodes@[a])
    &&& new.dirty@ == NodeCache::marked(old.dirty@, a)
    &&& new.next_addr == old.next_addr
}

/// Compacts a cached node. False where it is not cached.
pub fn btree_node_compact(cache: &mut NodeCache, node_addr: u64) -> (r: bool)
    requires
        old(cache).wf(),
    ensures
        final(cache).wf(),
        r == old(cache).nodes@.contains_key(node_addr),
        r ==> compacted_in_cache(*old(cache), *final(cache), node_addr),
        !r ==> final(cache).nodes@ == old(cache).nodes@ && final(cache).dirty@ == old(cache).dirty@
            && final(cache).next_addr == old(cache).next_addr,
{
    let ghost c0 = *cache;
    match cache.take_node(node_addr) {
        Some(mut n) => {
            n.compact();
            let ghost done = n;
            cache.insert_dirty(node_addr, n);
            assert(cache.nodes@ =~= c0.nodes@.insert(node_addr, done));
            true
        },
        None => {
            assert(cache.nodes@ =~= c0.nodes@);
            false
        },
    }
}

/// Writes a node anew: its live entries stay, in order and without gaps. False
/// where the node is not cached.
pub fn btree_node_rewrite(btree: &mut Btree, node_addr: u64) -> (r: bool)
    requires
        old(btree).wf(),
    ensures
        final(btree).wf(),
        *final(btree) == (Btree { cache: final(btree).cache, ..*old(btree) }),
        r == old(btree).nodes().contains_key(node_addr),
        r ==> compacted_in_cache(old(btree).cache, final(btree).cache, node_addr),
        !r ==> old(btree).same_nodes(*final(btree)),
{
    btree_node_compact(&mut btree.cache, node_addr)
}

/// Writes a node anew; its kind and level do not matter.
pub fn btree_node_rewrite_key(btree: &mut Btree, node_addr: u64, _btree_id: u8, _level: u8) -> (r:
    bool)
    requires
        old(btree).wf(),
    ensures
        final(btree).wf(),
        *final(btree) == (Btree { cache: final(btree).cache, ..*old(btree) }),
        r == old(btree).nodes().contains_key(node_addr),
        r ==> compacted_in_cache(old(btree).cache, final(btree).cache, node_addr),
        !r ==> old(btree).same_nodes(*final(btree)),
{
    btree_node_rewrite(btree, node_addr)
}

/// Whether `n` is a new node at `level`, over all positions and to be written
/// anew.
pub open spec fn is_fake(n: BtreeNode, level: u8) -> bool {
    &&& n.wf()
    &&& n.all() == Seq::<crate::key::EntryView>::empty()
    &&& n.flags == 0u8 | NODE_NEED_REWRITE
    &&& n.min_key == Bpos::spec_min()
    &&& n.max_key == Bpos::spec_max()
    &&& BtreeNode {
        flags: 0,
        min_key: Bpos::spec_max(),
        max_key: Bpos::spec_min(),
        ..n
    }.is_new(level)
}

/// Caches an empty root, in place of one that is lost, to be written anew.
pub fn btree_root_alloc_fake(cache: &mut NodeCache, level: u8) -> (r: (u64, BtreeNode))
    requires
        old(cache).wf(),
        old(cache).next_addr < ADDR48_LIMIT,
    ensures
        final(cache).wf(),
        r.0 == old(cache).next_addr,
        is_fake(r.1, level),
        final(cache).nodes@.contains_key(r.0),
        r.1.is_shared(final(cache).nodes@[r.0]),
        final(cache).nodes@ == old(cache).nodes@.insert(r.0, final(cache).nodes@[r.0]),
        final(cache).dirty@ == old(cache).dirty@,
        final(cache).next_addr == r.0 + 1,
{
    let a: u64 = cache.alloc_addr();
    let mut node = BtreeNode::new(level);
    node.set_need_rewrite();
    let ghost n0 = node;
    node.min_key = Bpos::min_pos();
    node.max_key = Bpos::max_pos();
    proof {
        lemma_wf_same(n0, node);
    }
    let copy = node.share();
    cache.insert(a, copy);
    (a, node)
}

} // verus!
