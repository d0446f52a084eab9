//! A tree.

use crate::cache::{NodeCache, ROOT_CACHE_ADDR};
use crate::ids::BtreeId;
use crate::iter::{rest_up, BtreeIter, BtreeRoot, IterFlags};
use crate::key::{
    BchVal, Bpos, BtreeEntry, BtreeKey, BtreePtrV2, EntryView, KeyType, KeyValue, ADDR48_LIMIT,
};
use crate::key_cache::KeyCache;
use crate::node::BtreeNode;
use crate::node_read::{as_extent, reads_as};
use crate::packed::total_size;
use crate::route::{extents, route};
use crate::run::{last_in, undeleted};
use crate::walk::{descent_addr, descent_node, leaf_rest, sibling_items};
use vstd::prelude::*;

verus! {

/// A tree: a root, and a cache of the nodes below it.
pub struct Btree {
    pub root: BtreeRoot,
    pub cache: NodeCache,
    /// The number of keys in all leaves.
    pub total_key_count: u32,
    /// Set while nodes are being split or merged.
    pub write_blocked: bool,
    /// Set while such a change is being committed.
    pub commit_lock: bool,
    pub key_cache: KeyCache,
    /// Whether the root was changed since the last flush.
    pub root_modified: bool,
}

/// Where a walk that looks for `k` starts in a leaf.
pub open spec fn seek_in(leaf: Option<BtreeNode>, k: BtreeKey) -> int {
    match leaf {
        Some(n) => n.spec_seek(k),
        None => if k == BtreeKey::spec_min_key() {
            1
        } else {
            0
        },
    }
}

/// What a walk that went down for `k` visits behind the node of step `i`.
pub open spec fn later_than(
    m: Map<u64, BtreeNode>,
    root: BtreeNode,
    depth: int,
    k: BtreeKey,
    i: int,
) -> Seq<EntryView>
    decreases i,
{
    if i <= 0 {
        Seq::<EntryView>::empty()
    } else {
        let parent = descent_node(m, root, k, i - 1);
        sibling_items(m, parent, depth - i + 1, route(parent, k).1 as int) + later_than(
            m,
            root,
            depth,
            k,
            i - 1,
        )
    }
}

/// What a walk that looks for `k` visits: the leaf for `k` from where it seeks
/// `k` on, and all leaves behind it.
pub open spec fn walk_items(root: BtreeRoot, m: Map<u64, BtreeNode>, k: BtreeKey) -> Seq<EntryView> {
    let leaf = descent_node(m, root.node, k, root.depth as int);
    let first = leaf_rest(leaf, seek_in(leaf, k));
    first + later_than(m, root.node, root.depth as int, k, root.depth as int)
}

/// The last entry at `pos` that a walk visits; none where that is a tombstone
/// or a whiteout.
pub open spec fn last_normal(items: Seq<EntryView>, pos: Bpos) -> Option<EntryView>
    decreases items.len(),
{
    if items.len() == 0 {
        None
    } else if items.last().pos == pos {
        if items.last().key_type == KeyType::Normal {
            Some(items.last())
        } else {
            None
        }
    } else {
        last_normal(items.drop_last(), pos)
    }
}

/// The last entry at `pos` that a walk visits.
pub open spec fn last_any(items: Seq<EntryView>, pos: Bpos) -> Option<EntryView>
    decreases items.len(),
{
    if items.len() == 0 {
        None
    } else if items.last().pos == pos {
        Some(items.last())
    } else {
        last_any(items.drop_last(), pos)
    }
}

/// `n`, or the largest counter value where that is less.
pub open spec fn capped(n: int) -> u32 {
    if n <= u32::MAX {
        n as u32
    } else {
        u32::MAX
    }
}

/// The items behind an iterator that was just created.
pub proof fn lemma_init_rest(it: BtreeIter, root: BtreeRoot, k: BtreeKey, i: int)
    requires
        it.path@.len() == root.depth + 1,
        it.depth == root.depth,
        0 <= i <= root.depth,
        forall|j: int|
            0 <= j <= root.depth ==> (#[trigger] it.path@[j]).view_node() == descent_node(
                it.cache.nodes@,
                root.node,
                k,
                j,
            ) && it.path@[j].child_idx == (if j == 0 {
                0
            } else {
                route(descent_node(it.cache.nodes@, root.node, k, j - 1), k).1
            }),
    ensures
        rest_up(it.cache.nodes@, it.path@, i, root.depth as int) == later_than(
            it.cache.nodes@,
            root.node,
            root.depth as int,
            k,
            i,
        ),
    decreases i,
{
    if i > 0 {
        assert(it.path@[i].child_idx == route(
            descent_node(it.cache.nodes@, root.node, k, i - 1),
            k,
        ).1);
        assert(it.path@[i - 1].view_node() == descent_node(it.cache.nodes@, root.node, k, i - 1));
        lemma_init_rest(it, root, k, i - 1);
    }
}

/// An iterator over a tree that stands where a walk looking for `k` starts.
fn start<'a>(root: &'a BtreeRoot, cache: &'a NodeCache, k: &BtreeKey) -> (it: BtreeIter<'a>)
    requires
        root.node.wf(),
        cache.wf(),
    ensures
        it.wf(),
        it.pos_ok(),
        it.in_leaf(),
        it.overlay is None,
        it.depth == root.depth,
        it.cache == cache,
        it.rest() == walk_items(*root, cache.nodes@, *k),
{
    let it = BtreeIter::init(root, k, IterFlags::default(), cache, BtreeId::Extents, None);
    proof {
        lemma_init_rest(it, *root, *k, root.depth as int);
        let last = it.path@[root.depth as int];
        assert(it.path@.last() == last);
        assert(it.leaf_items() == leaf_rest(
            last.view_node(),
            seek_in(last.view_node(), *k),
        ));
        if root.depth == 0 {
            assert(descent_node(cache.nodes@, root.node, *k, 0) == Some(root.node));
        }
    }
    it
}

/// Whether `r` reads as the entry `e` of a leaf.
pub open spec fn leaf_reads(e: EntryView, r: BtreeEntry) -> bool {
    reads_as(0, e, r)
}

/// The current entry of an iterator over a tree.
fn peek_item(it: &BtreeIter) -> (r: BtreeEntry)
    requires
        it.wf(),
        it.current() is Some,
    ensures
        leaf_reads(it.current()->0, r),
        it.rest().len() > 0,
        it.rest()[0] == it.current()->0,
{
    proof {
        assert(it.rest()[0] == it.leaf_items()[0]);
    }
    it.peek_leaf_entry().unwrap()
}

/// All entries that a walk that looks for `k` visits.
fn walk_entries(root: &BtreeRoot, cache: &NodeCache, k: &BtreeKey) -> (r: Vec<BtreeEntry>)
    requires
        root.node.wf(),
        cache.wf(),
    ensures
        r@.len() == walk_items(*root, cache.nodes@, *k).len(),
        forall|i: int|
            0 <= i < r@.len() ==> leaf_reads(walk_items(*root, cache.nodes@, *k)[i],
                #[trigger] r@[i],
            ),
{
    let ghost items = walk_items(*root, cache.nodes@, *k);
    let mut out: Vec<BtreeEntry> = Vec::new();
    let mut it = start(root, cache, k);
    assert(it.rest() =~= items.skip(0));
    let mut more: bool = it.peek_entry().is_some();
    if !more {
        more = it.advance();
    }
    while more
        invariant
            it.wf(),
            it.pos_ok(),
            root.depth == it.depth,
            more ==> it.current() is Some && it.rest() == items.skip(out@.len() as int) && out@.len()
                < items.len(),
            !more ==> out@.len() == items.len(),
            forall|i: int|
                0 <= i < out@.len() ==> leaf_reads(items[i], #[trigger] out@[i]),
        decreases items.len() - out@.len(),
    {
        let ghost n = out@.len() as int;
        let ghost rest = it.rest();
        let e = peek_item(&it);
        assert(rest[0] == items[n]);
        out.push(e);
        more = it.advance();
        proof {
            assert(rest.skip(1) =~= items.skip(n + 1));
        }
    }
    out
}

impl Btree {
    /// Whether all nodes are well formed.
    pub open spec fn wf(self) -> bool {
        &&& self.root.node.wf()
        &&& self.cache.wf()
        &&& crate::key_cache::all_dirty_fit(self.key_cache.slots@)
        &&& self.key_cache.counted()
    }

    /// The nodes below the root.
    pub open spec fn nodes(self) -> Map<u64, BtreeNode> {
        self.cache.nodes@
    }

    /// What a walk that looks for `k` visits.
    pub open spec fn items(self, k: BtreeKey) -> Seq<EntryView> {
        walk_items(self.root, self.nodes(), k)
    }

    /// Whether only the cached keys of `new` differ.
    pub open spec fn same_but_key_cache(self, new: Btree) -> bool {
        new == (Btree { key_cache: new.key_cache, ..self })
    }

    /// Whether the tree is as a new one: an empty leaf as its root, nothing
    /// cached or changed, and no lock held.
    pub open spec fn is_new(self) -> bool {
        &&& self.wf()
        &&& self.root.node.is_new(0)
        &&& self.root.node.all() == Seq::<EntryView>::empty()
        &&& self.root.depth == 0
        &&& self.root.ptr == BtreePtrV2::spec_invalid()
        &&& self.nodes() == Map::<u64, BtreeNode>::empty()
        &&& self.cache.dirty@.len() == 0
        &&& self.cache.next_addr == 1
        &&& self.total_key_count == 0
        &&& !self.write_blocked
        &&& !self.commit_lock
        &&& !self.root_modified
        &&& self.key_cache.slots@.len() == 0
        &&& self.key_cache.nr_dirty == 0
        &&& self.key_cache.nr_keys == 0
        &&& !self.key_cache.journal
    }

    /// An empty tree: a leaf as its root.
    pub fn new() -> (r: Btree)
        ensures
            r.is_new(),
    {
        Btree {
            root: BtreeRoot::new(BtreeNode::new_leaf(), 0),
            cache: NodeCache::new(),
            total_key_count: 0,
            write_blocked: false,
            commit_lock: false,
            key_cache: KeyCache::new(),
            root_modified: false,
        }
    }

    /// The number of keys of a tree: that of the root where it is a leaf, else
    /// the number of entries that are no tombstones.
    pub open spec fn spec_count(root: BtreeRoot, m: Map<u64, BtreeNode>) -> u32 {
        if root.depth == 0 {
            root.node.key_count
        } else {
            capped(
                undeleted(walk_items(root, m, BtreeKey::spec_min_key())).len() as int,
            )
        }
    }

    /// How far a node is filled: the sectors that its entries take, the sectors
    /// that it has, and the u64s that are left.
    pub fn node_progress(node: &BtreeNode) -> (r: (u16, u16, u16))
        requires
            node.wf(),
        ensures
            r.0 == (total_size(node.all()) + 511) / 512,
            r.1 == node.node_size as int / 512,
            r.2 == (if total_size(node.all()) < node.node_size {
                (node.node_size - total_size(node.all()) + 7) / 8
            } else {
                0
            }),
    {
        let used: u32 = node.total_data_bytes();
        proof {
            node.lemma_all();
            reveal(BtreeNode::wf);
        }
        let left: u32 = if used < node.node_size {
            node.node_size - used
        } else {
            0
        };
        (((used + 511) / 512) as u16, (node.node_size / 512) as u16, ((left + 7) / 8) as u16)
    }

    pub fn count_entries(root: &BtreeRoot, cache: &NodeCache) -> (r: u32)
        requires
            root.node.wf(),
            cache.wf(),
        ensures
            r == Btree::spec_count(*root, cache.nodes@),
    {
        if root.depth == 0 {
            return root.node.key_count;
        }
        let ghost items = walk_items(*root, cache.nodes@, BtreeKey::spec_min_key());
        let all: Vec<BtreeEntry> = walk_entries(root, cache, &BtreeKey::min_key());
        let mut count: u32 = 0;
        let mut i: usize = 0;
        assert(items.take(0) =~= Seq::<EntryView>::empty());
        while i < all.len()
            invariant
                i <= all@.len() == items.len(),
                forall|j: int|
                    0 <= j < all@.len() ==> leaf_reads(items[j], #[trigger] all@[j]),
                count == capped(undeleted(items.take(i as int)).len() as int),
            decreases all@.len() - i,
        {
            proof {
                assert(items.take(i + 1).drop_last() =~= items.take(i as int));
                assert(items.take(i + 1).last() == items[i as int]);
                assert(leaf_reads(items[i as int], all@[i as int]));
            }
            if all[i].key_type != KeyType::Deleted {
                count = count.saturating_add(1);
            }
            i = i + 1;
        }
        assert(items.take(items.len() as int) =~= items);
        count
    }

    /// A tree with the given root and nodes.
    pub fn from_root(root: BtreeRoot, cache: NodeCache) -> (r: Btree)
        requires
            root.node.wf(),
            cache.wf(),
        ensures
            r.wf(),
            r.root == root,
            r.cache == cache,
            r.total_key_count == Btree::spec_count(root, cache.nodes@),
            !r.write_blocked,
            !r.commit_lock,
            !r.root_modified,
            r.key_cache.slots@.len() == 0,
            r.key_cache.counted(),
    {
        let total_key_count: u32 = Btree::count_entries(&root, &cache);
        Btree {
            root,
            cache,
            total_key_count,
            write_blocked: false,
            commit_lock: false,
            key_cache: KeyCache::new(),
            root_modified: false,
        }
    }

    pub fn root(&self) -> (r: &BtreeRoot)
        ensures
            *r == self.root,
    {
        &self.root
    }

    /// The persistent pointer to the root.
    pub fn root_ptr(&self) -> (r: &BtreePtrV2)
        ensures
            *r == self.root.ptr,
    {
        &self.root.ptr
    }

    /// The number of levels below the root.
    pub fn depth(&self) -> (r: u8)
        ensures
            r == self.root.depth,
    {
        self.root.depth
    }

    /// The number of keys in all leaves.
    pub fn key_count(&self) -> (r: u32)
        ensures
            r == self.total_key_count,
    {
        self.total_key_count
    }

    pub fn cache(&self) -> (r: &NodeCache)
        ensures
            *r == self.cache,
    {
        &self.cache
    }

    pub fn cache_mut(&mut self) -> (r: &mut NodeCache)
        ensures
            *r == old(self).cache,
            *final(self) == (Btree { cache: *final(r), ..*old(self) }),
    {
        &mut self.cache
    }

    /// What the leaf for `target` holds under that very key: the last entry in
    /// its slot, if it has that key.
    pub open spec fn tree_get(self, target: BtreeKey) -> Option<(BtreeKey, BchVal)> {
        match descent_node(self.nodes(), self.root.node, target, self.root.depth as int) {
            Some(leaf) => match last_in(leaf.all(), target) {
                Some(e) => if e.key() == target {
                    Some(as_extent(e))
                } else {
                    None
                },
                None => None,
            },
            None => None,
        }
    }

    /// What is cached under a key as an extent.
    pub open spec fn cached_get(self, target: BtreeKey) -> Option<(BtreeKey, BchVal)> {
        match self.key_cache.spec_find(Bpos::spec_from_key(target)) {
            Some(e) => if e.key_type == target.key_type {
                match e.value {
                    KeyValue::Extent(v) => Some((target, v)),
                    _ => None,
                }
            } else {
                None
            },
            None => None,
        }
    }

    /// Whether looking up `target` gave `r` and turned this tree into `new`.
    pub open spec fn got(self, new: Btree, target: BtreeKey, r: Option<(BtreeKey, BchVal)>) -> bool {
        &&& self.same_but_key_cache(new)
        &&& r == (match self.cached_get(target) {
            Some(kv) => Some(kv),
            None => self.tree_get(target),
        })
        &&& self.cached_get(target) is Some || r is None ==> new == self
        &&& self.cached_get(target) is None && r is Some ==> self.key_cache.inserted(
            new.key_cache,
            Bpos::spec_from_key(target),
            BtreeEntry {
                pos: Bpos::spec_from_key(target),
                key_type: target.key_type,
                value: KeyValue::Extent((r->0).1),
            },
        )
    }

    /// Looks a key up: in the key cache, else in the tree. A key found in the
    /// tree is cached.
    pub fn get(&mut self, target: &BtreeKey) -> (r: Option<(BtreeKey, BchVal)>)
        requires
            old(self).wf(),
        ensures
            final(self).wf(),
            old(self).got(*final(self), *target, r),
    {
        let pos = Bpos::from_key(target);
        if let Some(entry) = self.key_cache.find(&pos) {
            if entry.key_type == target.key_type {
                if let KeyValue::Extent(v) = entry.value {
                    return Some((BtreeKey::from_bpos(pos, entry.key_type), v));
                }
            }
        }
        let newest: Option<(BtreeKey, BchVal)> = match self.find_leaf(target) {
            Some(leaf) => leaf.newest(target),
            None => None,
        };
        let found: Option<(BtreeKey, BchVal)> = match newest {
            Some((k, v)) => if k == *target {
                Some((k, v))
            } else {
                None
            },
            None => None,
        };
        if let Some((k, v)) = found {
            let entry = BtreeEntry::new(pos, k.key_type, KeyValue::Extent(v));
            self.key_cache.insert(pos, entry);
        }
        found
    }

    /// The leaf for a key; none where it is not cached.
    fn find_leaf(&self, target: &BtreeKey) -> (r: Option<&BtreeNode>)
        requires
            self.wf(),
        ensures
            (match r {
                Some(n) => Some(*n),
                None => None,
            }) == descent_node(
                self.nodes(),
                self.root.node,
                *target,
                self.root.depth as int,
            ),
            r matches Some(n) ==> n.wf(),
    {
        let mut cur: Option<&BtreeNode> = Some(&self.root.node);
        let mut i: u8 = 0;
        while i < self.root.depth
            invariant
                self.wf(),
                i <= self.root.depth,
                cur matches Some(n) ==> n.wf(),
                (match cur {
                    Some(n) => Some(*n),
                    None => None,
                }) == descent_node(self.nodes(), self.root.node, *target, i as int),
            decreases self.root.depth - i,
        {
            let addr: u64 = match cur {
                Some(n) => n.find_child_node(target).0,
                None => 0,
            };
            cur = self.cache.get(addr);
            i = i + 1;
        }
        cur
    }

    /// The first live entry in the slot of a key in the leaf for it.
    pub open spec fn leaf_search(self, target: BtreeKey) -> Option<(BtreeKey, BchVal)> {
        match descent_node(self.nodes(), self.root.node, target, self.root.depth as int) {
            Some(leaf) => match crate::run::first_live(leaf.all(), target) {
                Some(e) => Some(as_extent(e)),
                None => None,
            },
            None => None,
        }
    }

    /// Looks for live entries in the slot of a key in the leaf for it.
    pub fn search(&self, target: &BtreeKey) -> (r: Option<(BtreeKey, BchVal)>)
        requires
            self.wf(),
        ensures
            r == self.leaf_search(*target),
    {
        match self.find_leaf(target) {
            Some(n) => n.search(target),
            None => None,
        }
    }

    /// The newest entry at a position, looked up in the tree alone.
    fn get_entry_inner(&self, pos: Bpos) -> (r: Option<BtreeEntry>)
        requires
            self.wf(),
        ensures
            match last_normal(
                self.items(BtreeKey::spec_from_bpos(pos, KeyType::Normal)),
                pos,
            ) {
                Some(e) => r matches Some(f) && leaf_reads(e, f),
                None => r is None,
            },
    {
        let target = BtreeKey::from_bpos(pos, KeyType::Normal);
        let ghost items = self.items(target);
        let all: Vec<BtreeEntry> = walk_entries(&self.root, &self.cache, &target);
        let mut i: usize = all.len();
        assert(items.take(items.len() as int) =~= items);
        while i > 0
            invariant
                i <= all@.len() == items.len(),
                items == self.items(BtreeKey::spec_from_bpos(pos, KeyType::Normal)),
                forall|j: int|
                    0 <= j < all@.len() ==> leaf_reads(items[j], #[trigger] all@[j]),
                last_normal(items, pos) == last_normal(items.take(i as int), pos),
            decreases i,
        {
            proof {
                assert(items.take(i as int).drop_last() =~= items.take(i - 1));
                assert(items.take(i as int).last() == items[i - 1]);
                assert(leaf_reads(items[i - 1], all@[i - 1]));
            }
            i = i - 1;
            if all[i].pos == pos {
                if all[i].key_type == KeyType::Normal {
                    let e = all[i].duplicate();
                    proof {
                        lemma_duplicate_reads(items[i as int], all@[i as int], e);
                    }
                    return Some(e);
                }
                return None;
            }
        }
        None
    }

    /// The newest entry at a position, tombstones and whiteouts included.
    pub fn get_entry_allow_whiteout(&self, pos: Bpos) -> (r: Option<BtreeEntry>)
        requires
            self.wf(),
        ensures
            match last_any(self.items(BtreeKey::spec_from_bpos(pos, KeyType::Normal)), pos) {
                Some(e) => r matches Some(f) && leaf_reads(e, f),
                None => r is None,
            },
    {
        let target = BtreeKey::from_bpos(pos, KeyType::Normal);
        let ghost items = self.items(target);
        let all: Vec<BtreeEntry> = walk_entries(&self.root, &self.cache, &target);
        let mut i: usize = all.len();
        assert(items.take(items.len() as int) =~= items);
        while i > 0
            invariant
                i <= all@.len() == items.len(),
                items == self.items(BtreeKey::spec_from_bpos(pos, KeyType::Normal)),
                forall|j: int|
                    0 <= j < all@.len() ==> leaf_reads(items[j], #[trigger] all@[j]),
                last_any(items, pos) == last_any(items.take(i as int), pos),
            decreases i,
        {
            proof {
                assert(items.take(i as int).drop_last() =~= items.take(i - 1));
                assert(items.take(i as int).last() == items[i - 1]);
                assert(leaf_reads(items[i - 1], all@[i - 1]));
            }
            i = i - 1;
            if all[i].pos == pos {
                let e = all[i].duplicate();
                proof {
                    lemma_duplicate_reads(items[i as int], all@[i as int], e);
                }
                return Some(e);
            }
        }
        None
    }

    /// Whether looking up `pos` gave `r` and turned this tree into `new`.
    pub open spec fn entry_got(self, new: Btree, pos: Bpos, r: Option<BtreeEntry>) -> bool {
        &&& self.same_but_key_cache(new)
        &&& match self.key_cache.spec_find(pos) {
            Some(e) => r matches Some(f) && f.same(e) && f@ == e@ && new == self,
            None => match last_normal(
                self.items(BtreeKey::spec_from_bpos(pos, KeyType::Normal)),
                pos,
            ) {
                Some(e) => r matches Some(f) && leaf_reads(e, f) && exists|
                    g: BtreeEntry,
                |
                    g.same(f) && g@ == e && #[trigger] self.key_cache.inserted(
                        new.key_cache,
                        pos,
                        g,
                    ),
                None => r is None && new == self,
            },
        }
    }

    /// Looks a position up: in the key cache, else in the tree, where the
    /// newest entry counts. An entry found in the tree is cached.
    pub fn get_entry(&mut self, pos: Bpos) -> (r: Option<BtreeEntry>)
        requires
            old(self).wf(),
        ensures
            final(self).wf(),
            old(self).entry_got(*final(self), pos, r),
    {
        if let Some(e) = self.key_cache.find(&pos) {
            return Some(e);
        }
        let found = self.get_entry_inner(pos);
        if let Some(e) = &found {
            let copy = e.duplicate();
            self.key_cache.insert(pos, copy);
        }
        found
    }

    /// All entries but the tombstones, as keys and extent values.
    pub fn for_each(&self) -> (r: Vec<(BtreeKey, BchVal)>)
        requires
            self.wf(),
        ensures
            r@ == extents(undeleted(self.items(BtreeKey::spec_min_key()))),
    {
        let ghost items = self.items(BtreeKey::spec_min_key());
        let all: Vec<BtreeEntry> = walk_entries(&self.root, &self.cache, &BtreeKey::min_key());
        let mut out: Vec<(BtreeKey, BchVal)> = Vec::new();
        let mut i: usize = 0;
        assert(items.take(0) =~= Seq::<EntryView>::empty());
        assert(out@ =~= extents(undeleted(items.take(0))));
        while i < all.len()
            invariant
                i <= all@.len() == items.len(),
                forall|j: int|
                    0 <= j < all@.len() ==> leaf_reads(items[j], #[trigger] all@[j]),
                out@ == extents(undeleted(items.take(i as int))),
            decreases all@.len() - i,
        {
            proof {
                assert(items.take(i + 1).drop_last() =~= items.take(i as int));
                assert(items.take(i + 1).last() == items[i as int]);
                assert(leaf_reads(items[i as int], all@[i as int]));
            }
            if all[i].key_type != KeyType::Deleted {
                let ghost u = undeleted(items.take(i as int));
                let kv = all[i].to_legacy();
                out.push(kv);
                assert(extents(u.push(items[i as int])) =~= extents(u).push(kv));
            }
            i = i + 1;
        }
        assert(items.take(items.len() as int) =~= items);
        out
    }

    /// Whether `es` are all entries but the tombstones.
    pub open spec fn lists(self, es: Seq<BtreeEntry>) -> bool {
        let items = undeleted(self.items(BtreeKey::spec_min_key()));
        &&& es.len() == items.len()
        &&& forall|i: int| 0 <= i < es.len() ==> leaf_reads(items[i], #[trigger] es[i])
    }

    /// All entries but the tombstones.
    pub fn for_each_entry(&self) -> (r: Vec<BtreeEntry>)
        requires
            self.wf(),
        ensures
            self.lists(r@),
    {
        let ghost items = self.items(BtreeKey::spec_min_key());
        let all: Vec<BtreeEntry> = walk_entries(&self.root, &self.cache, &BtreeKey::min_key());
        let mut out: Vec<BtreeEntry> = Vec::new();
        let mut i: usize = 0;
        assert(items.take(0) =~= Seq::<EntryView>::empty());
        while i < all.len()
            invariant
                i <= all@.len() == items.len(),
                forall|j: int|
                    0 <= j < all@.len() ==> leaf_reads(items[j], #[trigger] all@[j]),
                out@.len() == undeleted(items.take(i as int)).len(),
                forall|j: int|
                    0 <= j < out@.len() ==> leaf_reads(undeleted(items.take(i as int))[j],
                        #[trigger] out@[j],
                    ),
            decreases all@.len() - i,
        {
            proof {
                assert(items.take(i + 1).drop_last() =~= items.take(i as int));
                assert(items.take(i + 1).last() == items[i as int]);
                assert(leaf_reads(items[i as int], all@[i as int]));
            }
            if all[i].key_type != KeyType::Deleted {
                let e = all[i].duplicate();
                proof {
                    lemma_duplicate_reads(items[i as int], all@[i as int], e);
                }
                out.push(e);
            }
            i = i + 1;
        }
        assert(items.take(items.len() as int) =~= items);
        out
    }

    /// Compacts the root where it is a leaf.
    pub fn compact(&mut self)
        requires
            old(self).wf(),
        ensures
            final(self).wf(),
            final(self).root.node == old(self).root.node || old(self).root.depth == 0,
            old(self).root.depth == 0 ==> old(self).root.node.compacted_to(final(self).root.node),
            *final(self) == (Btree {
                root: BtreeRoot { node: final(self).root.node, ..old(self).root },
                ..*old(self)
            }),
    {
        if self.root.depth == 0 {
            self.root.node.compact();
        }
    }

    /// Whether taking the changed nodes gave `r` and turned this tree
    /// into `new`.
    pub open spec fn dirty_flushed(self, new: Btree, r: Seq<(u64, BtreeNode)>) -> bool {
        let below = crate::cache::dirty_below(self.nodes(), self.cache.dirty@, 256);
        &&& new == (Btree { cache: new.cache, root_modified: false, ..self })
        &&& new.nodes() == self.nodes()
        &&& new.cache.next_addr == self.cache.next_addr
        &&& new.cache.dirty@.len() == 0
        &&& r.len() == below.len() + (if self.root_modified {
            1int
        } else {
            0int
        })
        &&& forall|i: int|
            0 <= i < below.len() ==> (#[trigger] r[i]).0 == below[i] && self.nodes().contains_key(
                below[i],
            ) && self.nodes()[below[i]].is_shared(r[i].1)
        &&& self.root_modified ==> r.last().0 == ROOT_CACHE_ADDR && self.root.node.is_shared(
            r.last().1,
        )
    }

    /// All changed nodes as they stand, leaves first, then level by level, the
    /// root last where it was changed; none counts as changed any more.
    pub fn flush_dirty(&mut self) -> (r: Vec<(u64, BtreeNode)>)
        requires
            old(self).wf(),
        ensures
            final(self).wf(),
            old(self).dirty_flushed(*final(self), r@),
    {
        let ghost t0 = *self;
        let mut out: Vec<(u64, BtreeNode)> = self.cache.flush_dirty();
        let ghost firsts = out@.map_values(|p: (u64, BtreeNode)| p.0);
        let ghost below = crate::cache::dirty_below(t0.nodes(), t0.cache.dirty@, 256);
        assert forall|i: int| 0 <= i < below.len() implies (#[trigger] out@[i]).0 == below[i] by {
            assert(firsts[i] == out@[i].0);
        }
        let ghost before = out@;
        if self.root_modified {
            self.root_modified = false;
            let copy = self.root.node.share();
            out.push((ROOT_CACHE_ADDR, copy));
        }
        assert forall|i: int| 0 <= i < below.len() implies out@[i] == #[trigger] before[i] by {}
        out
    }

    // ── control of changes to inner nodes ───────────────────────────────

    /// Starts a change to inner nodes; false where one is under way.
    pub fn try_start_interior_update(&mut self) -> (r: bool)
        ensures
            r == !old(self).write_blocked,
            *final(self) == (Btree { write_blocked: true, ..*old(self) }),
    {
        let free: bool = !self.write_blocked;
        self.write_blocked = true;
        free
    }

    pub fn finish_interior_update(&mut self)
        ensures
            *final(self) == (Btree { write_blocked: false, ..*old(self) }),
    {
        self.write_blocked = false;
    }

    pub fn is_write_blocked(&self) -> (r: bool)
        ensures
            r == self.write_blocked,
    {
        self.write_blocked
    }

    /// Starts a commit; false where one is under way.
    pub fn try_acquire_commit_lock(&mut self) -> (r: bool)
        ensures
            r == !old(self).commit_lock,
            *final(self) == (Btree { commit_lock: true, ..*old(self) }),
    {
        let free: bool = !self.commit_lock;
        self.commit_lock = true;
        free
    }

    pub fn release_commit_lock(&mut self)
        ensures
            *final(self) == (Btree { commit_lock: false, ..*old(self) }),
    {
        self.commit_lock = false;
    }

    /// Makes `node` the root.
    pub fn set_root_internal(&mut self, node: BtreeNode)
        ensures
            *final(self) == (Btree {
                root: BtreeRoot { node, depth: node.level, ptr: BtreePtrV2::spec_invalid() },
                ..*old(self)
            }),
    {
        let depth: u8 = node.level;
        self.root = BtreeRoot::new(node, depth);
    }

    /// Notes where the root lies on disk.
    pub fn set_root_ptr_internal(&mut self, ptr: BtreePtrV2)
        ensures
            *final(self) == (Btree { root: BtreeRoot { ptr, ..old(self).root }, ..*old(self) }),
    {
        self.root.ptr = ptr;
    }

    pub fn root_node_mut_internal(&mut self) -> (r: &mut BtreeNode)
        ensures
            *r == old(self).root.node,
            *final(self) == (Btree {
                root: BtreeRoot { node: *final(r), ..old(self).root },
                ..*old(self)
            }),
    {
        &mut self.root.node
    }

    /// Sets the size of the root node.
    pub fn set_root_node_size(&mut self, size: u32)
        ensures
            *final(self) == (Btree {
                root: BtreeRoot {
                    node: BtreeNode { node_size: size, ..old(self).root.node },
                    ..old(self).root
                },
                ..*old(self)
            }),
    {
        self.root.node.node_size = size;
    }

    /// Counts the keys of the tree anew.
    pub fn reset_key_count(&mut self)
        requires
            old(self).wf(),
        ensures
            final(self).wf(),
            *final(self) == (Btree {
                total_key_count: Btree::spec_count(old(self).root, old(self).nodes()),
                ..*old(self)
            }),
    {
        self.total_key_count = Btree::count_entries(&self.root, &self.cache);
    }

    /// The addresses that a descent for `k` passes between the root and the leaf.
    pub open spec fn spec_path(self, k: BtreeKey) -> Seq<u64> {
        Seq::new(
            (self.root.depth - 1) as nat,
            |i: int| descent_addr(self.nodes(), self.root.node, k, i + 1),
        )
    }

    /// The address of the leaf for `k`.
    pub open spec fn leaf_addr(self, k: BtreeKey) -> u64 {
        descent_addr(self.nodes(), self.root.node, k, self.root.depth as int)
    }

    /// Finds the leaf for `target` and the nodes on the way to it; nothing
    /// where the root is a leaf.
    pub fn find_path_to_leaf(&self, target: &BtreeKey, path: &mut Vec<u64>) -> (r: Option<u64>)
        requires
            self.wf(),
        ensures
            self.root.depth == 0 ==> r is None && final(path)@ == old(path)@,
            self.root.depth > 0 ==> r == Some(self.leaf_addr(*target)) && final(path)@
                == self.spec_path(*target) && self.leaf_addr(*target) < ADDR48_LIMIT
                && forall|i: int|
                0 <= i < final(path)@.len() ==> #[trigger] final(path)@[i] < ADDR48_LIMIT,
    {
        if self.root.depth == 0 {
            return None;
        }
        path.clear();
        let mut cur: Option<&BtreeNode> = Some(&self.root.node);
        let mut i: u8 = 1;
        let ghost m = self.nodes();
        while i < self.root.depth
            invariant
                self.wf(),
                m == self.nodes(),
                1 <= i <= self.root.depth,
                cur matches Some(n) ==> n.wf(),
                (match cur {
                    Some(n) => Some(*n),
                    None => None,
                }) == descent_node(m, self.root.node, *target, i - 1),
                path@.len() == i - 1,
                forall|j: int|
                    0 <= j < path@.len() ==> #[trigger] path@[j] == descent_addr(
                        m,
                        self.root.node,
                        *target,
                        j + 1,
                    ) && path@[j] < ADDR48_LIMIT,
            decreases self.root.depth - i,
        {
            let addr: u64 = match cur {
                Some(n) => n.find_child_node(target).0,
                None => 0,
            };
            path.push(addr);
            cur = self.cache.get(addr);
            i = i + 1;
        }
        assert(path@ =~= self.spec_path(*target));
        let addr: u64 = match cur {
            Some(n) => n.find_child_node(target).0,
            None => 0,
        };
        Some(addr)
    }

    pub fn find_path_to_leaf_internal(&self, target: &BtreeKey, path: &mut Vec<u64>) -> (r: Option<
        u64,
    >)
        requires
            self.wf(),
        ensures
            self.root.depth == 0 ==> r is None && final(path)@ == old(path)@,
            self.root.depth > 0 ==> r == Some(self.leaf_addr(*target)) && final(path)@
                == self.spec_path(*target),
    {
        self.find_path_to_leaf(target, path)
    }

    /// The pointers to children that a node loaded from disk holds.
    pub fn collect_child_ptrs(node: &BtreeNode) -> (r: Vec<BtreePtrV2>)
        requires
            node.wf(),
        ensures
            r@ == child_ptrs(node.all(), node.level),
    {
        let ghost es = node.all();
        proof {
            reveal(BtreeNode::wf);
            node.lemma_all();
        }
        let total: u16 = node.sets[0].size + node.sets[1].size + node.sets[2].size;
        let mut out: Vec<BtreePtrV2> = Vec::new();
        let mut i: u16 = 0;
        assert(es.take(0) =~= Seq::<EntryView>::empty());
        while i < total
            invariant
                node.wf(),
                es == node.all(),
                total == es.len(),
                i <= total <= 10922,
                out@ == child_ptrs(es.take(i as int), node.level),
            decreases total - i,
        {
            proof {
                assert(es.take(i + 1).drop_last() =~= es.take(i as int));
                assert(es.take(i + 1).last() == es[i as int]);
            }
            if let Some(e) = node.read_full_by_global_idx(i + 1) {
                if let KeyValue::BtreePtr(p) = e.value {
                    out.push(p);
                }
            }
            i = i + 1;
        }
        assert(es.take(es.len() as int) =~= es);
        out
    }
}

/// The pointers among the values of a run of a node at `level`.
pub open spec fn child_ptrs(es: Seq<EntryView>, level: u8) -> Seq<BtreePtrV2>
    decreases es.len(),
{
    if es.len() == 0 {
        Seq::<BtreePtrV2>::empty()
    } else {
        let r = child_ptrs(es.drop_last(), level);
        match BtreePtrV2::spec_from_bytes(es.last().value) {
            Some(p) => if level > 0 {
                r.push(p)
            } else {
                r
            },
            None => r,
        }
    }
}

/// A copy of an entry reads as the entry does.
proof fn lemma_duplicate_reads(e: EntryView, a: BtreeEntry, b: BtreeEntry)
    requires
        leaf_reads(e, a),
        b.same(a),
        b@ == a@,
    ensures
        leaf_reads(e, b),
{
}

impl Default for Btree {
    fn default() -> (r: Btree)
        ensures
            r.is_new(),
    {
        Btree::new()
    }
}

} // verus!
