//! Iterators over a tree.
//!
//! An iterator keeps the path from the root to a leaf and a place in that leaf.

use crate::cache::NodeCache;
use crate::ids::BtreeId;
use crate::key::{BchVal, Bpos, BtreeEntry, BtreeKey, BtreePtrV2, EntryView, ADDR48_LIMIT};
use crate::node::BtreeNode;
use crate::node_read::{as_extent, reads_as};
use crate::overlay::{JournalKey, JournalKeys};
use crate::route::route;
use crate::walk::{
    child_at, child_no, count_of, descent_node, entries_of, leaf_rest, lemma_child_no,
    lemma_next_child, lemma_next_on_walk, lemma_route_index, look, next_child, on_walk,
    sibling_items, sibling_work, subtree_items, subtree_work,
};
use vstd::prelude::*;

verus! {

/// How a node on a path is locked.
#[derive(Clone, Copy, Debug, PartialEq, Eq, Structural)]
pub enum BtreeNodeLockedType {
    Unlocked,
    Read,
    Intent,
    Write,
}

/// The root of a tree.
pub struct BtreeRoot {
    pub node: BtreeNode,
    /// The number of levels below the root.
    pub depth: u8,
    pub ptr: BtreePtrV2,
}

impl BtreeRoot {
    pub fn new(node: BtreeNode, depth: u8) -> (r: BtreeRoot)
        ensures
            r == (BtreeRoot { node, depth, ptr: BtreePtrV2::spec_invalid() }),
    {
        BtreeRoot { node, depth, ptr: BtreePtrV2::invalid() }
    }

    pub fn with_ptr(node: BtreeNode, depth: u8, ptr: BtreePtrV2) -> (r: BtreeRoot)
        ensures
            r == (BtreeRoot { node, depth, ptr }),
    {
        BtreeRoot { node, depth, ptr }
    }
}

/// How an iterator works.
#[derive(Clone, Copy, Debug, PartialEq, Eq, Structural)]
pub struct IterFlags {
    /// Keeps the path locked for a later write.
    pub intent: bool,
    pub forward: bool,
    /// Looks into the overlay first.
    pub with_journal: bool,
}

impl Default for IterFlags {
    fn default() -> (r: IterFlags)
        ensures
            r == (IterFlags { intent: false, forward: true, with_journal: true }),
    {
        IterFlags { intent: false, forward: true, with_journal: true }
    }
}

/// One node on a path. A node that is not cached counts as an empty one.
#[derive(Clone, Copy)]
pub struct BtreePathLevel<'a> {
    pub node: Option<&'a BtreeNode>,
    pub lock_state: BtreeNodeLockedType,
    /// The place in the node, counted from 1; 0 for none.
    pub offset: u16,
    /// The number of the entry of the parent that led here, counted from 1.
    pub child_idx: u16,
    /// The sequence number of the node's lock when it was locked.
    pub locked_seq: u64,
}

impl<'a> BtreePathLevel<'a> {
    pub open spec fn view_node(self) -> Option<BtreeNode> {
        match self.node {
            Some(n) => Some(*n),
            None => None,
        }
    }

    pub open spec fn lock_seq(self) -> u64 {
        match self.node {
            Some(n) => n.lock.seq,
            None => 0,
        }
    }

    pub open spec fn wf(self) -> bool {
        &&& self.node matches Some(n) ==> n.wf()
        &&& self.child_idx <= 10922
    }

    /// A node on a path that was just locked for reading.
    pub fn locked(node: Option<&'a BtreeNode>, offset: u16, child_idx: u16) -> (r: BtreePathLevel<
        'a,
    >)
        ensures
            r == (BtreePathLevel {
                node,
                lock_state: BtreeNodeLockedType::Read,
                offset,
                child_idx,
                locked_seq: r.lock_seq(),
            }),
    {
        let locked_seq: u64 = match node {
            Some(n) => n.lock.seq,
            None => 0,
        };
        BtreePathLevel { node, lock_state: BtreeNodeLockedType::Read, offset, child_idx, locked_seq }
    }

    pub fn key_count(&self) -> (r: u32)
        ensures
            r == count_of(self.view_node()),
    {
        match self.node {
            Some(n) => n.key_count,
            None => 0,
        }
    }

    /// The number of entries of the node.
    pub fn entry_count(&self) -> (r: u16)
        requires
            self.wf(),
        ensures
            r == entries_of(self.view_node()).len(),
            r <= 10922,
    {
        match self.node {
            Some(n) => n.entry_count(),
            None => 0,
        }
    }

    /// The number of the child behind the child number `idx`.
    fn next_child_idx(&self, idx: u16) -> (r: Option<u16>)
        requires
            self.wf(),
        ensures
            (match r {
                Some(j) => Some(j as int),
                None => None::<int>,
            }) == next_child(self.view_node(), idx as int),
            r matches Some(j) ==> 1 <= j <= 10922,
    {
        match self.node {
            Some(n) => n.next_child_idx(idx),
            None => None,
        }
    }

    /// The entry at a place of the node.
    pub fn read(&self, offset: u16) -> (r: Option<(BtreeKey, BchVal)>)
        requires
            self.wf(),
        ensures
            r == (if 1 <= offset <= entries_of(self.view_node()).len() {
                Some(as_extent(entries_of(self.view_node())[offset - 1]))
            } else {
                None
            }),
            r matches Some(kv) ==> kv.1.paddr.addr < ADDR48_LIMIT,
    {
        match self.node {
            Some(n) => n.read_entry_by_global_idx(offset),
            None => None,
        }
    }

    /// Where the node sends a key.
    pub fn find_child(&self, target: &BtreeKey) -> (r: (u64, u16))
        requires
            self.wf(),
        ensures
            r == route(self.view_node(), *target),
            r.1 <= 10922,
    {
        proof {
            lemma_route_index(self.view_node(), *target);
        }
        match self.node {
            Some(n) => n.find_child_node(target),
            None => (0, 0),
        }
    }
}

/// What a walk visits behind the node number `i` of a path of a tree with
/// `depth` levels below the root.
pub open spec fn rest_up(
    m: Map<u64, BtreeNode>,
    path: Seq<BtreePathLevel>,
    i: int,
    depth: int,
) -> Seq<EntryView>
    decreases i,
{
    if i <= 0 {
        Seq::<EntryView>::empty()
    } else {
        sibling_items(m, path[i - 1].view_node(), depth - i + 1, path[i].child_idx as int) + rest_up(
            m,
            path,
            i - 1,
            depth,
        )
    }
}

/// How many nodes a walk comes by behind the node number `i` of a path.
pub open spec fn work_up(
    m: Map<u64, BtreeNode>,
    path: Seq<BtreePathLevel>,
    i: int,
    depth: int,
) -> nat
    decreases i,
{
    if i <= 0 {
        0
    } else {
        1 + sibling_work(m, path[i - 1].view_node(), depth - i + 1, path[i].child_idx as int)
            + work_up(m, path, i - 1, depth)
    }
}

/// Only the path up to the node matters.
proof fn lemma_up_prefix(
    m: Map<u64, BtreeNode>,
    p: Seq<BtreePathLevel>,
    q: Seq<BtreePathLevel>,
    i: int,
    depth: int,
)
    requires
        i < p.len(),
        i < q.len(),
        forall|j: int|
            0 <= j <= i ==> (#[trigger] p[j]).node == q[j].node && p[j].child_idx == q[j].child_idx,
    ensures
        rest_up(m, p, i, depth) == rest_up(m, q, i, depth),
        work_up(m, p, i, depth) == work_up(m, q, i, depth),
    decreases i,
{
    if i > 0 {
        assert(p[i].node == q[i].node);
        assert(p[i - 1].node == q[i - 1].node);
        lemma_up_prefix(m, p, q, i - 1, depth);
    }
}

/// Whether each node of a path is the child of the one above it that its number
/// says, and one that a walk comes by, and no node was written since it was
/// locked.
#[verifier::opaque]
pub open spec fn links(m: Map<u64, BtreeNode>, path: Seq<BtreePathLevel>) -> bool {
    &&& forall|i: int|
        1 <= i < path.len() ==> on_walk(
            path[i - 1].view_node(),
            (#[trigger] path[i]).child_idx as int,
        ) && path[i].view_node() == child_no(
            m,
            path[i - 1].view_node(),
            path[i].child_idx as int,
        )
    &&& forall|i: int|
        0 <= i < path.len() ==> (#[trigger] path[i]).locked_seq == path[i].lock_seq()
}

/// A child may be put under the end of a path.
pub proof fn lemma_links_push<'a>(
    m: Map<u64, BtreeNode>,
    path: Seq<BtreePathLevel<'a>>,
    l: BtreePathLevel<'a>,
)
    requires
        links(m, path),
        path.len() > 0,
        on_walk(path.last().view_node(), l.child_idx as int),
        l.view_node() == child_no(m, path.last().view_node(), l.child_idx as int),
        l.locked_seq == l.lock_seq(),
    ensures
        links(m, path.push(l)),
{
    reveal(links);
    let q = path.push(l);
    assert forall|i: int| 0 <= i < q.len() implies (#[trigger] q[i]).locked_seq == q[i].lock_seq() by {
        if i < path.len() {
            assert(q[i] == path[i]);
        }
    }
    assert forall|i: int| 1 <= i < q.len() implies on_walk(
        q[i - 1].view_node(),
        (#[trigger] q[i]).child_idx as int,
    ) && q[i].view_node() == child_no(m, q[i - 1].view_node(), q[i].child_idx as int) by {
        if i < path.len() {
            assert(q[i] == path[i]);
            assert(q[i - 1] == path[i - 1]);
        }
    }
}

/// The end of a path may be taken off.
pub proof fn lemma_links_pop<'a>(m: Map<u64, BtreeNode>, path: Seq<BtreePathLevel<'a>>)
    requires
        links(m, path),
        path.len() > 0,
    ensures
        links(m, path.drop_last()),
{
    reveal(links);
    let q = path.drop_last();
    assert forall|i: int| 0 <= i < q.len() implies (#[trigger] q[i]).locked_seq == q[i].lock_seq() by {
        assert(q[i] == path[i]);
    }
    assert forall|i: int| 1 <= i < q.len() implies on_walk(
        q[i - 1].view_node(),
        (#[trigger] q[i]).child_idx as int,
    ) && q[i].view_node() == child_no(m, q[i - 1].view_node(), q[i].child_idx as int) by {
        assert(q[i] == path[i]);
        assert(q[i - 1] == path[i - 1]);
    }
}

/// What holds of one node of a path.
pub proof fn lemma_links_at<'a>(m: Map<u64, BtreeNode>, path: Seq<BtreePathLevel<'a>>, i: int)
    requires
        links(m, path),
        1 <= i < path.len(),
    ensures
        on_walk(path[i - 1].view_node(), path[i].child_idx as int),
        path[i].view_node() == child_no(m, path[i - 1].view_node(), path[i].child_idx as int),
        path[i].locked_seq == path[i].lock_seq(),
{
    reveal(links);
}

/// Only the nodes and their numbers matter.
pub proof fn lemma_links_same<'a>(
    m: Map<u64, BtreeNode>,
    p: Seq<BtreePathLevel<'a>>,
    q: Seq<BtreePathLevel<'a>>,
)
    requires
        links(m, p),
        p.len() == q.len(),
        forall|j: int|
            0 <= j < p.len() ==> (#[trigger] q[j]).node == p[j].node && q[j].child_idx
                == p[j].child_idx && q[j].locked_seq == p[j].locked_seq,
    ensures
        links(m, q),
{
    reveal(links);
    assert forall|i: int| 0 <= i < q.len() implies (#[trigger] q[i]).locked_seq == q[i].lock_seq() by {
        assert(p[i].locked_seq == p[i].lock_seq());
        assert(q[i].node == p[i].node);
    }
    assert forall|i: int| 1 <= i < q.len() implies on_walk(
        q[i - 1].view_node(),
        (#[trigger] q[i]).child_idx as int,
    ) && q[i].view_node() == child_no(m, q[i - 1].view_node(), q[i].child_idx as int) by {
        assert(q[i].node == p[i].node);
        assert(q[i - 1].node == p[i - 1].node);
    }
}

/// An iterator over a tree.
pub struct BtreeIter<'a> {
    /// The nodes from the root to the leaf.
    pub path: Vec<BtreePathLevel<'a>>,
    /// The key at the current place.
    pub pos: BtreeKey,
    pub flags: IterFlags,
    pub had_restart: bool,
    pub cache: &'a NodeCache,
    /// Only what this snapshot sees is shown; 0 shows everything.
    pub snapshot: u32,
    pub btree_type: BtreeId,
    /// The number of levels below the root.
    pub depth: u8,
    /// What is known of who sees whom: pairs of snapshots and the answer.
    pub snapshot_visible_cache: Vec<(u32, u32, bool)>,
    pub overlay: Option<&'a JournalKeys>,
}

impl<'a> BtreeIter<'a> {
    /// Whether the cache and all nodes on the path are well formed.
    pub open spec fn wf(self) -> bool {
        &&& self.cache.wf()
        &&& self.path@.len() <= self.depth + 1
        &&& forall|i: int| 0 <= i < self.path@.len() ==> (#[trigger] self.path@[i]).wf()
        &&& self.in_leaf() && self.path@.last().offset == 0 ==> entries_of(
            self.path@.last().view_node(),
        ).len() == 0
    }

    /// Whether the iterator stands in a leaf.
    pub open spec fn in_leaf(self) -> bool {
        self.path@.len() == self.depth + 1
    }

    /// Whether the path goes from child to child, past no node that was written
    /// since. An iterator borrows its nodes: the moves keep this.
    pub open spec fn linked(self) -> bool {
        links(self.cache.nodes@, self.path@)
    }

    /// What is left to visit in the current leaf, the current entry first.
    pub open spec fn leaf_items(self) -> Seq<EntryView> {
        if self.in_leaf() {
            leaf_rest(self.path@.last().view_node(), self.path@.last().offset as int)
        } else {
            Seq::<EntryView>::empty()
        }
    }

    /// What is left to visit behind the current leaf.
    pub open spec fn later_items(self) -> Seq<EntryView> {
        if self.in_leaf() {
            rest_up(self.cache.nodes@, self.path@, self.depth as int, self.depth as int)
        } else {
            Seq::<EntryView>::empty()
        }
    }

    /// The entry at the current place.
    pub open spec fn current(self) -> Option<EntryView> {
        if self.leaf_items().len() > 0 {
            Some(self.leaf_items()[0])
        } else {
            None
        }
    }

    /// What is left to visit, the current entry first where there is one.
    pub open spec fn rest(self) -> Seq<EntryView> {
        self.leaf_items() + self.later_items()
    }

    /// Whether the position is that of the current entry.
    pub open spec fn pos_ok(self) -> bool {
        self.current() matches Some(e) ==> self.pos == e.key()
    }

    /// Whether only the place of the iterator differs from `old`.
    pub open spec fn moved_from(self, old: BtreeIter<'a>) -> bool {
        self == (BtreeIter { path: self.path, pos: self.pos, ..old })
    }

    /// Whether the iterator stands where a walk looking for `target` starts: at
    /// the leaf for `target`, where that seeks it.
    pub open spec fn starts_at(
        self,
        root: BtreeRoot,
        target: BtreeKey,
        flags: IterFlags,
        cache: NodeCache,
    ) -> bool {
        &&& self.in_leaf()
        &&& self.pos_ok()
        &&& self.current() is None ==> self.pos == target
        &&& self.depth == root.depth
        &&& *self.cache == cache
        &&& self.flags == flags
        &&& forall|i: int|
            0 <= i <= root.depth ==> ({
                let l = #[trigger] self.path@[i];
                &&& l.view_node() == descent_node(cache.nodes@, root.node, target, i)
                &&& l.locked_seq == l.lock_seq()
                &&& l.child_idx == (if i == 0 {
                    0
                } else {
                    route(descent_node(cache.nodes@, root.node, target, i - 1), target).1
                })
                &&& l.lock_state == (if i == root.depth {
                    if flags.intent {
                        BtreeNodeLockedType::Intent
                    } else {
                        BtreeNodeLockedType::Read
                    }
                } else if flags.intent {
                    BtreeNodeLockedType::Read
                } else {
                    BtreeNodeLockedType::Unlocked
                })
                &&& l.offset == (if i < root.depth {
                    0
                } else {
                    match descent_node(cache.nodes@, root.node, target, i) {
                        Some(n) => n.spec_seek(target),
                        None => if target == BtreeKey::spec_min_key() {
                            1
                        } else {
                            0
                        },
                    }
                })
            })
    }

    /// Creates an iterator that stands where a walk looking for `target`
    /// starts: it goes down to the leaf for `target` and seeks it there.
    pub fn init(
        root: &'a BtreeRoot,
        target: &BtreeKey,
        flags: IterFlags,
        cache: &'a NodeCache,
        btree_type: BtreeId,
        overlay: Option<&'a JournalKeys>,
    ) -> (r: BtreeIter<'a>)
        requires
            root.node.wf(),
            cache.wf(),
        ensures
            r.wf(),
            r.btree_type == btree_type,
            r.overlay == overlay,
            r.snapshot == 0,
            !r.had_restart,
            r.snapshot_visible_cache@.len() == 0,
            r.starts_at(*root, *target, flags, *cache),
            r.linked(),
    {
        let depth: u8 = root.depth;
        let ghost m = cache.nodes@;
        let mut path: Vec<BtreePathLevel<'a>> = Vec::new();
        let mut top = BtreePathLevel::locked(Some(&root.node), 0, 0);
        let mut i: u8 = 0;
        let above = if flags.intent {
            BtreeNodeLockedType::Read
        } else {
            BtreeNodeLockedType::Unlocked
        };
        assert(links(m, path@.push(top))) by {
            reveal(links);
        }
        while i < depth
            invariant
                cache.wf(),
                m == cache.nodes@,
                links(m, path@.push(top)),
                depth == root.depth,
                i <= depth,
                path@.len() == i,
                above == (if flags.intent {
                    BtreeNodeLockedType::Read
                } else {
                    BtreeNodeLockedType::Unlocked
                }),
                top.wf(),
                top.view_node() == descent_node(m, root.node, *target, i as int),
                top.locked_seq == top.lock_seq(),
                top.offset == 0,
                top.child_idx == (if i == 0 {
                    0
                } else {
                    route(descent_node(m, root.node, *target, i - 1), *target).1
                }),
                forall|j: int|
                    0 <= j < i ==> ({
                        let l = #[trigger] path@[j];
                        &&& l.wf()
                        &&& l.view_node() == descent_node(m, root.node, *target, j)
                        &&& l.locked_seq == l.lock_seq()
                        &&& l.child_idx == (if j == 0 {
                            0
                        } else {
                            route(descent_node(m, root.node, *target, j - 1), *target).1
                        })
                        &&& l.lock_state == above
                        &&& l.offset == 0
                    }),
            decreases depth - i,
        {
            let (addr, child_idx) = top.find_child(target);
            let child = cache.get(addr);
            let ghost p1 = path@.push(top);
            let ghost tn = top.view_node();
            path.push(BtreePathLevel { lock_state: above, ..top });
            top = BtreePathLevel::locked(child, 0, child_idx);
            assert(top.view_node() == look(m, addr));
            proof {
                lemma_links_same(m, p1, path@);
                lemma_child_no(m, tn, *target);
                lemma_links_push(m, path@, top);
            }
            i = i + 1;
        }
        let min = BtreeKey::min_key();
        let offset: u16 = match top.node {
            Some(n) => n.seek(target),
            None => if target.vaddr == min.vaddr && target.snapshot_id == min.snapshot_id
                && target.key_type == min.key_type {
                1
            } else {
                0
            },
        };
        let leaf_lock = if flags.intent {
            BtreeNodeLockedType::Intent
        } else {
            BtreeNodeLockedType::Read
        };
        let pos: BtreeKey = match top.read(offset) {
            Some((k, _v)) => k,
            None => *target,
        };
        let ghost p1 = path@.push(top);
        path.push(BtreePathLevel { lock_state: leaf_lock, offset, ..top });
        proof {
            lemma_links_same(m, p1, path@);
        }
        BtreeIter {
            path,
            pos,
            flags,
            had_restart: false,
            cache,
            snapshot: 0,
            btree_type,
            depth,
            snapshot_visible_cache: Vec::new(),
            overlay,
        }
    }

    /// Like `init`, for what the snapshot `snapshot_id` sees.
    pub fn init_with_snapshot(
        root: &'a BtreeRoot,
        target: &BtreeKey,
        flags: IterFlags,
        cache: &'a NodeCache,
        snapshot_id: u32,
        btree_type: BtreeId,
    ) -> (r: BtreeIter<'a>)
        requires
            root.node.wf(),
            cache.wf(),
        ensures
            r.wf(),
            r.btree_type == btree_type,
            r.overlay is None,
            r.snapshot == snapshot_id,
            !r.had_restart,
            r.snapshot_visible_cache@.len() == 0,
            r.starts_at(*root, *target, flags, *cache),
            r.linked(),
    {
        let mut it = BtreeIter::init(root, target, flags, cache, btree_type, None);
        let ghost before = it;
        it.snapshot = snapshot_id;
        assert(it.rest() == before.rest());
        it
    }

    /// The key of the overlay `o` at the position of the iterator.
    pub open spec fn overlay_at(self, o: JournalKeys) -> Option<JournalKey> {
        o.spec_lookup(self.btree_type, Bpos::spec_from_key(self.pos))
    }

    /// The current entry as key and extent value: that of the iterator's own
    /// overlay where it is consulted and holds one, else that of the leaf.
    pub open spec fn spec_peek(self) -> Option<(BtreeKey, BchVal)> {
        let shadow = match self.overlay {
            Some(o) => if self.flags.with_journal {
                self.overlay_at(*o)
            } else {
                None
            },
            None => None,
        };
        match shadow {
            Some(jk) => Some(as_extent(jk.entry@)),
            None => match self.current() {
                Some(e) => Some(as_extent(e)),
                None => None,
            },
        }
    }

    /// The entry of the leaf at the current place.
    fn peek_leaf(&self) -> (r: Option<(BtreeKey, BchVal)>)
        requires
            self.wf(),
        ensures
            r == (match self.current() {
                Some(e) => Some(as_extent(e)),
                None => None,
            }),
    {
        let n: usize = self.path.len();
        if n != self.depth as usize + 1 {
            return None;
        }
        let leaf = self.path[n - 1];
        leaf.read(leaf.offset)
    }

    /// The current entry as key and extent value.
    pub fn peek(&self) -> (r: Option<(BtreeKey, BchVal)>)
        requires
            self.wf(),
        ensures
            r == self.spec_peek(),
    {
        if self.flags.with_journal {
            if let Some(o) = self.overlay {
                if let Some(jk) = o.lookup_entry(self.btree_type, Bpos::from_key(&self.pos)) {
                    return Some(jk.entry.to_legacy());
                }
            }
        }
        self.peek_leaf()
    }

    /// The current entry of the leaf with its whole value.
    pub fn peek_entry(&self) -> (r: Option<BtreeEntry>)
        requires
            self.wf(),
        ensures
            r is Some == self.current() is Some,
            r matches Some(e) ==> self.path@.last().node is Some && reads_as(
                self.path@.last().node->0.level,
                self.current()->0,
                e,
            ),
    {
        let n: usize = self.path.len();
        if n != self.depth as usize + 1 {
            return None;
        }
        let leaf = self.path[n - 1];
        match leaf.node {
            Some(node) => node.read_full_by_global_idx(leaf.offset),
            None => None,
        }
    }

    /// The current entry with its whole value, read as that of a leaf.
    pub fn peek_leaf_entry(&self) -> (r: Option<BtreeEntry>)
        requires
            self.wf(),
        ensures
            r is Some == self.current() is Some,
            r matches Some(e) ==> reads_as(0, self.current()->0, e),
    {
        let n: usize = self.path.len();
        if n != self.depth as usize + 1 {
            return None;
        }
        let leaf = self.path[n - 1];
        match leaf.node {
            Some(node) => node.read_leaf_by_global_idx(leaf.offset),
            None => None,
        }
    }

    /// The current entry as key and extent value, that of `overlay` first.
    pub fn peek_with_journal(&self, overlay: &JournalKeys) -> (r: Option<(BtreeKey, BchVal)>)
        requires
            self.wf(),
        ensures
            r == (match self.overlay_at(*overlay) {
                Some(jk) => Some(as_extent(jk.entry@)),
                None => self.spec_peek(),
            }),
    {
        match overlay.lookup_entry(self.btree_type, Bpos::from_key(&self.pos)) {
            Some(jk) => Some(jk.entry.to_legacy()),
            None => self.peek(),
        }
    }

    /// The current entry with its whole value, that of `overlay` first.
    pub fn peek_entry_with_journal(&self, overlay: &JournalKeys) -> (r: Option<BtreeEntry>)
        requires
            self.wf(),
        ensures
            match self.overlay_at(*overlay) {
                Some(jk) => r matches Some(e) && e.same(jk.entry) && e@ == jk.entry@,
                None => r is Some == self.current() is Some && (r matches Some(e) ==>
                    self.path@.last().node is Some && reads_as(
                    self.path@.last().node->0.level,
                    self.current()->0,
                    e,
                )),
            },
    {
        match overlay.lookup_entry(self.btree_type, Bpos::from_key(&self.pos)) {
            Some(jk) => Some(jk.entry.duplicate()),
            None => self.peek_entry(),
        }
    }

    /// Goes down from the last node of the path to the leaf that a walk comes
    /// to first below it.
    fn descend_to_first_leaf(&mut self)
        requires
            old(self).wf(),
            1 <= old(self).path@.len(),
            old(self).path@.len() == old(self).depth + 1 ==> old(self).path@.last().offset == 1,
        ensures
            final(self).wf(),
            final(self).in_leaf(),
            final(self).path@.last().offset == 1,
            *final(self) == (BtreeIter { path: final(self).path, ..*old(self) }),
            final(self).path@.take(old(self).path@.len() as int) == old(self).path@,
            old(self).linked() ==> final(self).linked(),
            ({
                let m = old(self).cache.nodes@;
                let d = old(self).depth as int;
                let i = old(self).path@.len() - 1;
                let top = old(self).path@.last().view_node();
                &&& final(self).rest() == subtree_items(m, top, d - i) + rest_up(
                    m,
                    old(self).path@,
                    i,
                    d,
                )
                &&& work_up(m, final(self).path@, d, d) + 1 == subtree_work(m, top, d - i)
                    + work_up(m, old(self).path@, i, d)
            }),
    {
        let ghost m = self.cache.nodes@;
        let ghost d = self.depth as int;
        let ghost i0 = self.path@.len() - 1;
        let ghost p0 = self.path@;
        let ghost items = subtree_items(m, p0.last().view_node(), d - i0) + rest_up(m, p0, i0, d);
        let ghost work = subtree_work(m, p0.last().view_node(), d - i0) + work_up(m, p0, i0, d);
        let min = BtreeKey::min_key();
        let total: usize = self.depth as usize + 1;
        while self.path.len() < total
            invariant
                self.wf(),
                *self == (BtreeIter { path: self.path, ..*old(self) }),
                total == self.depth + 1,
                m == self.cache.nodes@,
                d == self.depth,
                min == BtreeKey::spec_min_key(),
                1 <= p0.len() <= self.path@.len() <= total,
                self.path@.take(p0.len() as int) == p0,
                old(self).linked() ==> self.linked(),
                self.path@.len() == total ==> self.path@.last().offset == 1,
                items == subtree_items(
                    m,
                    self.path@.last().view_node(),
                    d - (self.path@.len() - 1),
                ) + rest_up(m, self.path@, self.path@.len() - 1, d),
                work == subtree_work(
                    m,
                    self.path@.last().view_node(),
                    d - (self.path@.len() - 1),
                ) + work_up(m, self.path@, self.path@.len() - 1, d),
            decreases total - self.path@.len(),
        {
            let n: usize = self.path.len();
            let top = self.path[n - 1];
            let (addr, child_idx) = top.find_child(&min);
            let child = self.cache.get(addr);
            let ghost before = self.path@;
            let level = BtreePathLevel::locked(child, 1, child_idx);
            self.path.push(level);
            proof {
                let after = self.path@;
                let lvl = d - (n - 1);
                lemma_up_prefix(m, before, after, n - 1, d);
                assert(after[n - 1] == top);
                assert(after[n as int] == level);
                assert(level.view_node() == look(m, addr));
                lemma_child_no(m, top.view_node(), min);
                if old(self).linked() {
                    lemma_links_push(m, before, level);
                    assert(after =~= before.push(level));
                }
                let a = subtree_items(m, look(m, addr), lvl - 1);
                let b = sibling_items(m, top.view_node(), lvl, child_idx as int);
                let c = rest_up(m, before, n - 1, d);
                assert(subtree_items(m, top.view_node(), lvl) == a + b);
                assert(rest_up(m, after, n as int, d) == b + c);
                assert((a + b) + c =~= a + (b + c));
                assert(self.path@.take(p0.len() as int) =~= p0);
            }
        }
        proof {
            assert(self.path@.len() - 1 == d);
        }
    }

    /// Leaves the last node of the path: goes to the first leaf below the next
    /// child of its parent, or up to the parent where there is no next child.
    fn next_sibling(&mut self) -> (r: bool)
        requires
            old(self).wf(),
            2 <= old(self).path@.len(),
        ensures
            final(self).wf(),
            *final(self) == (BtreeIter { path: final(self).path, ..*old(self) }),
            final(self).path@.len() >= 1,
            final(self).path@[0] == old(self).path@[0],
            old(self).linked() ==> final(self).linked(),
            ({
                let m = old(self).cache.nodes@;
                let d = old(self).depth as int;
                let i = old(self).path@.len() - 1;
                let j = final(self).path@.len() - 1;
                &&& work_up(m, final(self).path@, j, d) < work_up(m, old(self).path@, i, d)
                &&& r ==> final(self).in_leaf() && final(self).rest() == rest_up(
                    m,
                    old(self).path@,
                    i,
                    d,
                )
                &&& !r ==> j == i - 1 && rest_up(m, final(self).path@, j, d) == rest_up(
                    m,
                    old(self).path@,
                    i,
                    d,
                )
            }),
    {
        let ghost m = self.cache.nodes@;
        let ghost d = self.depth as int;
        let n: usize = self.path.len();
        let ghost before = self.path@;
        let ghost items = rest_up(m, before, n - 1, d);
        let cur = self.path[n - 1];
        let _popped = self.path.pop();
        let ghost short = self.path@;
        let parent = self.path[n - 2];
        let ghost lvl = d - (n - 2);
        proof {
            assert(before[n - 1] == cur);
            assert(before[n - 2] == parent);
            assert forall|j: int| 0 <= j < short.len() implies (#[trigger] short[j]).wf() by {
                assert(short[j] == before[j]);
            }
            lemma_up_prefix(m, before, short, n - 2, d);
            if old(self).linked() {
                lemma_links_pop(m, before);
                lemma_links_at(m, before, n - 1);
                assert(short =~= before.drop_last());
                lemma_next_on_walk(m, parent.view_node(), cur.child_idx as int);
            }
            lemma_next_child(parent.view_node(), cur.child_idx as int);
            assert(items == sibling_items(
                m,
                parent.view_node(),
                lvl,
                cur.child_idx as int,
            ) + rest_up(m, short, n - 2, d));
        }
        let idx: u16 = match parent.next_child_idx(cur.child_idx) {
            Some(idx) => idx,
            None => {
                proof {
                    assert(sibling_items(m, parent.view_node(), lvl, cur.child_idx as int)
                        =~= Seq::<EntryView>::empty());
                    assert(items =~= rest_up(m, short, n - 2, d));
                }
                return false;
            },
        };
        let addr: u64 = match parent.read(idx) {
            Some((_k, v)) => v.paddr.addr,
            None => 0,
        };
        let child = self.cache.get(addr);
        let level = BtreePathLevel::locked(child, 1, idx);
        self.path.push(level);
        let ghost with_child = self.path@;
        proof {
            assert(level.view_node() == child_at(m, parent.view_node(), idx as int));
            if old(self).linked() {
                lemma_links_push(m, short, level);
                assert(with_child =~= short.push(level));
            }
            lemma_up_prefix(m, short, with_child, n - 2, d);
            assert(with_child[n - 1] == level);
            assert(with_child[n - 2] == parent);
            let a = subtree_items(m, level.view_node(), lvl - 1);
            let b = sibling_items(m, parent.view_node(), lvl, idx as int);
            let c = rest_up(m, short, n - 2, d);
            assert(rest_up(m, with_child, n - 1, d) == b + c);
            assert((a + b) + c =~= a + (b + c));
            assert(items == a + rest_up(m, with_child, n - 1, d));
        }
        self.descend_to_first_leaf();
        assert(self.path@[0] == self.path@.take(n as int)[0]);
        true
    }

    /// Goes on behind the current leaf: to the next leaf with an entry. Where
    /// there is none the iterator is left without a leaf, unless the root is one.
    fn back_up_and_advance(&mut self) -> (r: bool)
        requires
            old(self).wf(),
            old(self).in_leaf(),
        ensures
            final(self).wf(),
            final(self).moved_from(*old(self)),
            final(self).pos_ok() || !r,
            r == (old(self).later_items().len() > 0),
            r ==> final(self).in_leaf() && final(self).current() is Some && final(self).rest()
                == old(self).later_items(),
            r ==> final(self).path@[0].node == old(self).path@[0].node,
            !r && old(self).depth == 0 ==> *final(self) == *old(self),
            !r && old(self).depth > 0 ==> final(self).path@ == old(self).path@.take(1)
                && final(self).pos == old(self).pos,
            old(self).linked() ==> final(self).linked(),
    {
        if self.depth == 0 {
            return false;
        }
        let ghost m = self.cache.nodes@;
        let ghost d = self.depth as int;
        let ghost items = self.later_items();
        let ghost p0 = self.path@;
        while self.path.len() >= 2
            invariant
                self.wf(),
                *self == (BtreeIter { path: self.path, ..*old(self) }),
                m == self.cache.nodes@,
                d == self.depth,
                d > 0,
                1 <= self.path@.len(),
                p0 == old(self).path@,
                p0.len() == d + 1,
                self.path@[0] == p0[0],
                items == old(self).later_items(),
                old(self).linked() ==> self.linked(),
                items == rest_up(m, self.path@, self.path@.len() - 1, d),
            decreases work_up(m, self.path@, self.path@.len() - 1, d),
        {
            if self.next_sibling() {
                if let Some((k, _v)) = self.peek_leaf() {
                    let ghost r0 = *self;
                    self.pos = k;
                    assert(self.rest() == r0.rest());
                    assert(self.current() == r0.current());
                    return true;
                }
                proof {
                    assert(self.leaf_items() =~= Seq::<EntryView>::empty());
                    assert(self.rest() =~= self.later_items());
                }
            }
        }
        proof {
            assert(items =~= Seq::<EntryView>::empty());
            assert(self.path@ =~= p0.take(1));
        }
        false
    }

    /// Whether moving on by one entry turned this iterator into `new`, with the
    /// result `r`: whether there was an entry to move to.
    pub open spec fn stepped(self, new: BtreeIter<'a>, r: bool) -> bool {
        let left = if self.current() is Some {
            self.rest().skip(1)
        } else {
            self.rest()
        };
        &&& new.wf()
        &&& new.moved_from(self)
        &&& r == (left.len() > 0)
        &&& r ==> new.in_leaf() && new.current() is Some && new.rest() == left && new.pos_ok()
        &&& r ==> new.path@[0].node == self.path@[0].node
        &&& !r && (self.depth == 0 || !self.in_leaf()) ==> new == self
        &&& !r && self.depth > 0 && self.in_leaf() ==> new.path@ == self.path@.take(1) && new.pos
            == self.pos
    }

    /// Moves on by one entry: within the leaf, or to the next leaf with an
    /// entry; false where there is none.
    pub fn advance(&mut self) -> (r: bool)
        requires
            old(self).wf(),
        ensures
            final(self).wf(),
            old(self).stepped(*final(self), r),
            old(self).pos_ok() ==> final(self).pos_ok(),
            old(self).linked() ==> final(self).linked(),
    {
        let n: usize = self.path.len();
        if n != self.depth as usize + 1 {
            return false;
        }
        let leaf = self.path[n - 1];
        proof {
            lemma_route_index(leaf.view_node(), BtreeKey::spec_min_key());
        }
        let ghost s0 = *self;
        let ghost es = entries_of(leaf.view_node());
        let total: u16 = leaf.entry_count();
        if leaf.offset < total {
            let next: u16 = leaf.offset + 1;
            let ghost m = self.cache.nodes@;
            let ghost d = self.depth as int;
            let ghost p0 = self.path@;
            if let Some((k, _v)) = leaf.read(next) {
                self.path.set(n - 1, BtreePathLevel { offset: next, ..leaf });
                self.pos = k;
                proof {
                    lemma_up_prefix(m, p0, self.path@, d, d);
                    if s0.linked() {
                        lemma_links_same(m, p0, self.path@);
                    }
                    assert(self.path@.last().view_node() == leaf.view_node());
                    assert(self.leaf_items() == leaf_rest(leaf.view_node(), next as int));
                    assert(self.leaf_items()[0] == es[next - 1]);
                    if s0.current() is Some {
                        assert(s0.leaf_items().skip(1) =~= self.leaf_items());
                        assert(s0.rest().skip(1) =~= self.rest());
                    }
                }
                return true;
            }
            assert(false);
        }
        proof {
            if s0.current() is Some {
                assert(s0.leaf_items().len() == 1);
                assert(s0.rest().skip(1) =~= s0.later_items());
            } else {
                assert(s0.rest() =~= s0.later_items());
            }
        }
        self.back_up_and_advance()
    }
}

} // verus!
