//! The cache of nodes.

use crate::key::ADDR48_LIMIT;
use crate::node::{BtreeNode, SixLock};
use std::collections::HashMap;
use vstd::prelude::*;

verus! {

broadcast use vstd::std_specs::hash::group_hash_axioms;

/// Stands for the root in lists of nodes: no node is cached at this address.
pub const ROOT_CACHE_ADDR: u64 = 0;

impl BtreeNode {
    /// Whether `r` is a copy of this node: its lock is new and it is not pinned.
    pub open spec fn is_copy(self, r: BtreeNode) -> bool {
        &&& r.data@ == self.data@
        &&& r == (BtreeNode {
            data: r.data,
            lock: SixLock { seq: 0 },
            pin_count: 0,
            journal_pin: None,
            ..self
        })
    }

    /// Whether `r` is this node as it stands, lock and pins included.
    pub open spec fn is_shared(self, r: BtreeNode) -> bool {
        r.data@ == self.data@ && r == (BtreeNode { data: r.data, ..self })
    }

    /// The node as it stands, for another holder.
    pub fn share(&self) -> (r: BtreeNode)
        ensures
            self.is_shared(r),
            r.wf() == self.wf(),
            r.all() == self.all(),
            r.live() == self.live(),
            forall|i: int| #[trigger] r.run(i) == self.run(i),
    {
        let mut r = self.duplicate();
        r.lock = self.lock;
        r.pin_count = self.pin_count;
        r.journal_pin = self.journal_pin;
        proof {
            lemma_copy(*self, r);
        }
        r
    }

    pub fn duplicate(&self) -> (r: BtreeNode)
        ensures
            self.is_copy(r),
            r.wf() == self.wf(),
            r.all() == self.all(),
            r.live() == self.live(),
            forall|i: int| #[trigger] r.run(i) == self.run(i),
    {
        let data: Vec<u8> = crate::le::copy_bytes(self.data.as_slice());
        let r = BtreeNode {
            lock: SixLock::new(),
            level: self.level,
            key_count: self.key_count,
            whiteout_count: self.whiteout_count,
            node_size: self.node_size,
            data,
            sets: self.sets,
            refcount: self.refcount,
            state: self.state,
            flags: self.flags,
            min_key: self.min_key,
            max_key: self.max_key,
            journal_seq: self.journal_seq,
            block_addr: self.block_addr,
            will_make_reachable: self.will_make_reachable,
            pin_count: 0,
            journal_pin: None,
            read_in_flight: self.read_in_flight,
        };
        proof {
            lemma_copy(*self, r);
        }
        r
    }
}

/// A copy has the entries of its original.
pub proof fn lemma_copy(a: BtreeNode, r: BtreeNode)
    requires
        a.is_copy(r) || a.is_shared(r),
    ensures
        r.wf() == a.wf(),
        r.all() == a.all(),
        r.live() == a.live(),
        forall|i: int| #[trigger] r.run(i) == a.run(i),
{
    reveal(BtreeNode::wf);
    assert forall|i: int| #[trigger] r.run(i) == a.run(i) by {}
    if a.wf() {
        assert forall|i: int| 0 <= i < 3 implies crate::node::set_readable(
            r.data@,
            #[trigger] r.sets@[i],
        ) && r.sets@[i].size == r.run(i).len() by {
            assert(crate::node::set_readable(a.data@, a.sets@[i]));
        }
    }
    if r.wf() {
        assert forall|i: int| 0 <= i < 3 implies crate::node::set_readable(
            a.data@,
            #[trigger] a.sets@[i],
        ) && a.sets@[i].size == a.run(i).len() by {
            assert(crate::node::set_readable(r.data@, r.sets@[i]));
        }
    }
}

/// The nodes of a tree below the root, by address.
pub struct NodeCache {
    pub nodes: HashMap<u64, BtreeNode>,
    /// The addresses of nodes that were changed, in the order of the changes.
    pub dirty: Vec<u64>,
    /// Every address in use is below this one.
    pub next_addr: u64,
}

/// The addresses of `dirty` whose nodes are cached at `level`, in order.
pub open spec fn dirty_at_level(
    nodes: Map<u64, BtreeNode>,
    dirty: Seq<u64>,
    level: int,
) -> Seq<u64>
    decreases dirty.len(),
{
    if dirty.len() == 0 {
        Seq::<u64>::empty()
    } else {
        let r = dirty_at_level(nodes, dirty.drop_last(), level);
        let a = dirty.last();
        if nodes.contains_key(a) && nodes[a].level == level {
            r.push(a)
        } else {
            r
        }
    }
}

/// The addresses of `dirty` whose nodes are cached below `level`: leaves
/// first, then level by level.
pub open spec fn dirty_below(nodes: Map<u64, BtreeNode>, dirty: Seq<u64>, level: int) -> Seq<u64>
    decreases level,
{
    if level <= 0 {
        Seq::<u64>::empty()
    } else {
        dirty_below(nodes, dirty, level - 1) + dirty_at_level(nodes, dirty, level - 1)
    }
}

impl NodeCache {
    /// Whether every node is well formed and lies below the next address.
    pub open spec fn wf(self) -> bool {
        &&& 1 <= self.next_addr
        &&& forall|a: u64| #[trigger]
            self.nodes@.contains_key(a) ==> self.nodes@[a].wf() && a < self.next_addr
    }

    /// The dirty list with `a` in it.
    pub open spec fn marked(dirty: Seq<u64>, a: u64) -> Seq<u64> {
        if dirty.contains(a) {
            dirty
        } else {
            dirty.push(a)
        }
    }

    pub fn new() -> (r: NodeCache)
        ensures
            r.wf(),
            r.nodes@ == Map::<u64, BtreeNode>::empty(),
            r.dirty@ == Seq::<u64>::empty(),
            r.next_addr == 1,
    {
        NodeCache { nodes: HashMap::new(), dirty: Vec::new(), next_addr: 1 }
    }

    /// An address that no node has. There are no more than 2^48 of them.
    pub fn alloc_addr(&mut self) -> (r: u64)
        requires
            old(self).wf(),
            old(self).next_addr < ADDR48_LIMIT,
        ensures
            final(self).wf(),
            r == old(self).next_addr,
            !old(self).nodes@.contains_key(r),
            r != ROOT_CACHE_ADDR,
            final(self).next_addr == r + 1,
            final(self).nodes@ == old(self).nodes@,
            final(self).dirty@ == old(self).dirty@,
    {
        let a: u64 = self.next_addr;
        self.next_addr = a + 1;
        a
    }

    /// The next address once `a` is in use.
    pub open spec fn next_after(self, a: u64) -> u64 {
        if a >= self.next_addr {
            (a + 1) as u64
        } else {
            self.next_addr
        }
    }

    /// Caches a node.
    pub fn insert(&mut self, addr: u64, node: BtreeNode)
        requires
            old(self).wf(),
            node.wf(),
            addr < u64::MAX,
        ensures
            final(self).wf(),
            final(self).nodes@ == old(self).nodes@.insert(addr, node),
            final(self).dirty@ == old(self).dirty@,
            final(self).next_addr == old(self).next_after(addr),
    {
        if addr >= self.next_addr {
            self.next_addr = addr + 1;
        }
        self.nodes.insert(addr, node);
    }

    /// Notes that the node at `addr` was changed.
    fn mark_dirty(&mut self, addr: u64)
        ensures
            final(self).nodes == old(self).nodes,
            final(self).next_addr == old(self).next_addr,
            final(self).dirty@ == NodeCache::marked(old(self).dirty@, addr),
    {
        let mut i: usize = 0;
        while i < self.dirty.len()
            invariant
                *self == *old(self),
                i <= self.dirty@.len(),
                forall|j: int| 0 <= j < i ==> self.dirty@[j] != addr,
            decreases self.dirty@.len() - i,
        {
            if self.dirty[i] == addr {
                assert(self.dirty@[i as int] == addr);
                return ;
            }
            i = i + 1;
        }
        assert(!self.dirty@.contains(addr));
        self.dirty.push(addr);
    }

    /// Caches a node that was changed.
    pub fn insert_dirty(&mut self, addr: u64, node: BtreeNode)
        requires
            old(self).wf(),
            node.wf(),
            addr < u64::MAX,
        ensures
            final(self).wf(),
            final(self).nodes@ == old(self).nodes@.insert(addr, node),
            final(self).dirty@ == NodeCache::marked(old(self).dirty@, addr),
            final(self).next_addr == old(self).next_after(addr),
    {
        self.insert(addr, node);
        self.mark_dirty(addr);
    }

    /// The node at `addr`.
    pub fn get(&self, addr: u64) -> (r: Option<&BtreeNode>)
        ensures
            match r {
                Some(n) => self.nodes@.contains_key(addr) && *n == self.nodes@[addr],
                None => !self.nodes@.contains_key(addr),
            },
    {
        self.nodes.get(&addr)
    }

    /// Takes the node at `addr` out of the cache, to be changed.
    pub fn take_node(&mut self, addr: u64) -> (r: Option<BtreeNode>)
        requires
            old(self).wf(),
        ensures
            final(self).wf(),
            match r {
                Some(n) => old(self).nodes@.contains_key(addr) && n == old(self).nodes@[addr]
                    && n.wf() && addr < old(self).next_addr,
                None => !old(self).nodes@.contains_key(addr),
            },
            final(self).nodes@ == old(self).nodes@.remove(addr),
            final(self).dirty@ == old(self).dirty@,
            final(self).next_addr == old(self).next_addr,
    {
        self.nodes.remove(&addr)
    }

    /// Puts a node back that was taken and not changed.
    pub fn put_node(&mut self, addr: u64, node: BtreeNode)
        requires
            old(self).wf(),
            node.wf(),
            addr < u64::MAX,
        ensures
            final(self).wf(),
            final(self).nodes@ == old(self).nodes@.insert(addr, node),
            final(self).dirty@ == old(self).dirty@,
            final(self).next_addr == old(self).next_after(addr),
    {
        self.insert(addr, node);
    }

    /// The number of cached nodes.
    pub fn len(&self) -> (r: usize)
        ensures
            r == self.nodes@.dom().len(),
    {
        self.nodes.len()
    }

    /// The changed nodes as they stand, leaves first, then level by level; none
    /// counts as changed any more.
    pub fn flush_dirty(&mut self) -> (r: Vec<(u64, BtreeNode)>)
        requires
            old(self).wf(),
        ensures
            final(self).wf(),
            final(self).nodes == old(self).nodes,
            final(self).next_addr == old(self).next_addr,
            final(self).dirty@.len() == 0,
            r@.map_values(|p: (u64, BtreeNode)| p.0) == dirty_below(
                old(self).nodes@,
                old(self).dirty@,
                256,
            ),
            forall|i: int|
                0 <= i < r@.len() ==> old(self).nodes@.contains_key((#[trigger] r@[i]).0) && old(
                    self,
                ).nodes@[r@[i].0].is_shared(r@[i].1),
    {
        let ghost nodes = self.nodes@;
        let ghost dirty = self.dirty@;
        let mut out: Vec<(u64, BtreeNode)> = Vec::new();
        let ghost firsts = |p: (u64, BtreeNode)| p.0;
        let mut level: u16 = 0;
        assert(out@.map_values(firsts) =~= dirty_below(nodes, dirty, 0));
        while level < 256
            invariant
                *self == *old(self),
                level <= 256,
                nodes == self.nodes@,
                dirty == self.dirty@,
                firsts == (|p: (u64, BtreeNode)| p.0),
                out@.map_values(firsts) == dirty_below(nodes, dirty, level as int),
                forall|i: int|
                    0 <= i < out@.len() ==> nodes.contains_key((#[trigger] out@[i]).0)
                        && nodes[out@[i].0].is_shared(out@[i].1),
            decreases 256 - level,
        {
            let ghost below = out@.map_values(firsts);
            let mut i: usize = 0;
            proof {
                assert(dirty.take(0) =~= Seq::<u64>::empty());
                assert(below + dirty_at_level(nodes, dirty.take(0), level as int) =~= below);
            }
            while i < self.dirty.len()
                invariant
                    *self == *old(self),
                    level < 256,
                    i <= self.dirty@.len(),
                    nodes == self.nodes@,
                    dirty == self.dirty@,
                    firsts == (|p: (u64, BtreeNode)| p.0),
                    out@.map_values(firsts) == below + dirty_at_level(
                        nodes,
                        dirty.take(i as int),
                        level as int,
                    ),
                    forall|i: int|
                        0 <= i < out@.len() ==> nodes.contains_key((#[trigger] out@[i]).0)
                            && nodes[out@[i].0].is_shared(out@[i].1),
                decreases self.dirty@.len() - i,
            {
                let a: u64 = self.dirty[i];
                proof {
                    assert(dirty.take(i + 1).drop_last() =~= dirty.take(i as int));
                    assert(dirty.take(i + 1).last() == a);
                }
                match self.get(a) {
                    Some(n) => {
                        if n.level as u16 == level {
                            let copy = n.share();
                            let ghost before = out@;
                            out.push((a, copy));
                            assert(out@.map_values(firsts) =~= before.map_values(firsts).push(a));
                        }
                    },
                    None => {},
                }
                i = i + 1;
            }
            assert(dirty.take(dirty.len() as int) =~= dirty);
            level = level + 1;
        }
        self.dirty = Vec::new();
        out
    }
}

} // verus!
