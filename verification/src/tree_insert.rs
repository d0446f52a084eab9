//! Adding to a tree: inserts, splits and the routing entries that they need.

use crate::btree::Btree;
use crate::cache::NodeCache;
use crate::iter::BtreeRoot;
use crate::key::{BchVal, Bpos, BtreeEntry, BtreeKey, EntryView, KeyValue, ADDR48_LIMIT};
use crate::node::{free_start, set_readable, BtreeNode, DEFAULT_NODE_SIZE};
use crate::node_edit::lemma_extent_size;
use crate::node_split::{lemma_split_point, split_point};
use crate::packed::{all_padded, starts_with, total_size, wrote};
use crate::run::views;
use crate::sort::ordered;
use vstd::prelude::*;

verus! {

/// The routing entry for a child at `addr` from `k` on.
pub open spec fn routing(k: BtreeKey, addr: u64) -> EntryView {
    EntryView::extent(k, BchVal::spec_new(addr, 0))
}

/// Whether `n` holds the run `part`, and `e` behind it where there is room.
pub open spec fn is_half(
    n: BtreeNode,
    part: Seq<EntryView>,
    e: Option<(BtreeKey, BchVal)>,
    level: u8,
    node_size: u32,
    seq: u64,
) -> bool {
    &&& n.wf()
    &&& n.level == level
    &&& n.node_size == node_size
    &&& n.journal_seq == seq
    &&& n.min_key == part[0].pos
    &&& n.max_key == part.last().pos
    &&& starts_with(n.data@, part)
    &&& n.run(0) == part
    &&& n.run(2) == Seq::<EntryView>::empty()
    &&& if e is Some && total_size(part) + 32 <= node_size {
        &&& n.run(1) == seq![EntryView::extent((e->0).0, (e->0).1)]
        &&& n.all() == part.push(EntryView::extent((e->0).0, (e->0).1))
        &&& n.key_count == part.len() + 1
    } else {
        &&& n.run(1) == Seq::<EntryView>::empty()
        &&& n.all() == part
        &&& n.key_count == part.len()
    }
}

/// Whether `left` is what a split leaves of `n`, but for its entries, its range
/// and its journal entry.
pub open spec fn keeps_state(n: BtreeNode, left: BtreeNode) -> bool {
    &&& left.whiteout_count == n.whiteout_count
    &&& left.flags == n.flags
    &&& left.state == n.state
    &&& left.refcount == n.refcount
    &&& left.block_addr == n.block_addr
    &&& left.read_in_flight == n.read_in_flight
}

/// Whether a node is as new, but for its entries, its range, its level, its size
/// and its journal entry.
pub open spec fn has_new_state(n: BtreeNode) -> bool {
    &&& n.data@.len() == DEFAULT_NODE_SIZE
    &&& n.whiteout_count == 0
    &&& n.lock.seq == 0
    &&& n.flags == 0
    &&& n.state == 0
    &&& n.refcount == 1
    &&& n.block_addr == 0
    &&& n.pin_count == 0
    &&& n.journal_pin is None
    &&& !n.read_in_flight
}

/// Whether a split of `n` gave `left` and `right`, with `e` added to the half
/// that its key belongs to and both halves under the journal entry `seq` where
/// one is given.
pub open spec fn split_halves(
    n: BtreeNode,
    left: BtreeNode,
    right: BtreeNode,
    e: Option<(BtreeKey, BchVal)>,
    seq: Option<u64>,
) -> bool {
    let es = n.live();
    let mid = split_point(es);
    let to_right = e is Some && !(e->0).0.lt(es[mid].key());
    &&& es.len() >= 2
    &&& keeps_state(n, left)
    &&& has_new_state(right)
    &&& is_half(
        left,
        es.take(mid),
        if to_right {
            None
        } else {
            e
        },
        n.level,
        n.node_size,
        if seq is Some {
            seq->0
        } else {
            n.journal_seq
        },
    )
    &&& is_half(
        right,
        es.skip(mid),
        if to_right {
            e
        } else {
            None
        },
        n.level,
        n.node_size,
        if seq is Some {
            seq->0
        } else {
            0
        },
    )
}

/// The key from which on a split of `n` moves entries to the right.
pub open spec fn split_key(n: BtreeNode) -> BtreeKey {
    n.live()[split_point(n.live())].key()
}

impl BtreeNode {
    /// Adds an extent to a node that was just packed, where there is room.
    fn add_to_half(&mut self, e: Option<(BtreeKey, BchVal)>, Ghost(part): Ghost<Seq<EntryView>>)
        requires
            old(self).wf(),
            old(self).holds_packed(part),
            all_padded(part) == part,
        ensures
            is_half(
                *final(self),
                part,
                e,
                old(self).level,
                old(self).node_size,
                old(self).journal_seq,
            ) || old(self).min_key != part[0].pos || old(self).max_key != part.last().pos,
            final(self).wf(),
            final(self).data@.len() == old(self).data@.len(),
            *final(self) == old(self).with_contents(*final(self)),
            final(self).whiteout_count == old(self).whiteout_count,
    {
        proof {
            reveal(BtreeNode::wf);
            assert(set_readable(self.data@, self.sets@[0]));
            crate::node::lemma_run_bound(self.data@, self.sets@[0]);
            crate::record::lemma_total_multiple(part);
            assert(self.sets@[0].top() == total_size(part));
            assert(self.sets@[1].top() == 0 && self.sets@[2].top() == 0);
            assert(free_start(self.sets@) == total_size(part));
            assert(self.has_room(32) == (total_size(part) + 32 <= self.node_size));
        }
        if let Some((k, v)) = e {
            proof {
                lemma_extent_size(k, v);
            }
            let ghost d0 = self.data@;
            let added: bool = self.insert(k, v);
            proof {
                let x = EntryView::extent(k, v);
                if added {
                    reveal(starts_with);
                    reveal(wrote);
                    assert(self.data@.take(total_size(part)) =~= d0.take(total_size(part)));
                }
                assert(Seq::<EntryView>::empty().push(x) =~= seq![x]);
            }
        }
    }

    /// Splits the node and adds `e` to the half that its key belongs to.
    /// Returns the first key of the right half and the right half; nothing for
    /// fewer than two live entries.
    pub fn split_adding(&mut self, e: Option<(BtreeKey, BchVal)>, seq: Option<u64>) -> (r: Option<
        (BtreeKey, BtreeNode),
    >)
        requires
            old(self).wf(),
        ensures
            final(self).wf(),
            r is Some == (old(self).live().len() >= 2),
            r is None ==> *final(self) == *old(self),
            r matches Some((key, right)) ==> key == split_key(*old(self)) && right.wf()
                && split_halves(*old(self), *final(self), right, e, seq)
                && right.will_make_reachable == false && final(self).will_make_reachable == old(
                self,
            ).will_make_reachable && final(self).data@.len() == old(self).data@.len(),
    {
        let ghost n0 = *self;
        let size: u32 = self.node_size;
        match self.split() {
            None => None,
            Some((key, mut right)) => {
                proof {
                    n0.lemma_live_facts();
                    lemma_split_point(n0.live());
                    lemma_parts_padded(n0.live(), split_point(n0.live()));
                }
                right.set_node_size(size);
                let ghost mid = split_point(n0.live());
                let ghost lpart = n0.live().take(mid);
                let ghost rpart = n0.live().skip(mid);
                if let Some(s) = seq {
                    self.set_journal_seq(s);
                    right.set_journal_seq(s);
                }
                let to_right: bool = match e {
                    Some((k, _v)) => !k.precedes(&key),
                    None => false,
                };
                if to_right {
                    right.add_to_half(e, Ghost(rpart));
                    self.add_to_half(None, Ghost(lpart));
                } else {
                    self.add_to_half(e, Ghost(lpart));
                    right.add_to_half(None, Ghost(rpart));
                }
                Some((key, right))
            },
        }
    }

    /// Sets the node size; no more than the buffer has.
    pub fn set_node_size(&mut self, size: u32)
        requires
            old(self).wf(),
            size <= old(self).data@.len(),
        ensures
            final(self).wf(),
            *final(self) == (BtreeNode { node_size: size, ..*old(self) }),
            final(self).all() == old(self).all(),
            forall|i: int| #[trigger] final(self).run(i) == old(self).run(i),
    {
        let ghost n0 = *self;
        self.node_size = size;
        proof {
            reveal(BtreeNode::wf);
            assert forall|i: int| #[trigger] self.run(i) == n0.run(i) by {}
            assert forall|i: int| 0 <= i < 3 implies set_readable(
                self.data@,
                #[trigger] self.sets@[i],
            ) && self.sets@[i].size == self.run(i).len() by {
                assert(set_readable(n0.data@, n0.sets@[i]));
            }
        }
    }

    /// Marks a new node as not written yet.
    pub fn set_will_make_reachable(&mut self)
        ensures
            *final(self) == (BtreeNode { will_make_reachable: true, ..*old(self) }),
            final(self).wf() == old(self).wf(),
            final(self).all() == old(self).all(),
    {
        self.will_make_reachable = true;
        proof {
            crate::node_split::lemma_wf_same(*old(self), *self);
        }
    }
}

proof fn lemma_parts_padded(es: Seq<EntryView>, mid: int)
    requires
        all_padded(es) == es,
        0 <= mid <= es.len(),
    ensures
        all_padded(es.take(mid)) == es.take(mid),
        all_padded(es.skip(mid)) == es.skip(mid),
{
    assert forall|i: int| 0 <= i < es.len() implies (#[trigger] es[i]).padded() == es[i] by {
        assert(all_padded(es)[i] == es[i].padded());
    }
    assert(all_padded(es.take(mid)) =~= es.take(mid));
    assert(all_padded(es.skip(mid)) =~= es.skip(mid));
}

/// What came of adding a routing entry to a cached node.
#[derive(Clone, Copy, Debug)]
pub enum RouteStep {
    /// The node is not cached.
    Missing,
    Done,
    /// The node is full and cannot be split.
    Stuck,
    /// The node was split: its parent needs this routing entry.
    Split(BtreeKey, u64),
}

/// Whether `n` is a new root over two nodes, the right one from `median` on; its
/// range is not set yet.
pub open spec fn is_routing_root(
    n: BtreeNode,
    level: int,
    node_size: u32,
    seq: u64,
    left_addr: u64,
    median: BtreeKey,
    right_addr: u64,
) -> bool {
    &&& n.wf()
    &&& n.level == level
    &&& n.node_size == node_size
    &&& n.journal_seq == seq
    &&& n.will_make_reachable
    &&& has_new_state(n)
    &&& n.min_key == Bpos::spec_max()
    &&& n.max_key == Bpos::spec_min()
    &&& n.holds_packed(
        seq![routing(BtreeKey::spec_min_key(), left_addr), routing(median, right_addr)],
    )
    &&& n.all() == seq![
        routing(BtreeKey::spec_min_key(), left_addr),
        routing(median, right_addr),
    ]
}

/// Builds a new root over two nodes.
fn routing_root(
    level: u8,
    node_size: u32,
    seq: u64,
    left_addr: u64,
    median: BtreeKey,
    right_addr: u64,
) -> (r: BtreeNode)
    requires
        node_size <= DEFAULT_NODE_SIZE,
    ensures
        is_routing_root(r, level as int, node_size, seq, left_addr, median, right_addr),
{
    let min = BtreeKey::min_key();
    let lv = BchVal::new(left_addr, 0);
    let rv = BchVal::new(right_addr, 0);
    let mut es: Vec<BtreeEntry> = Vec::new();
    es.push(BtreeEntry::new(Bpos::from_key(&min), min.key_type, KeyValue::Extent(lv)));
    es.push(BtreeEntry::new(Bpos::from_key(&median), median.key_type, KeyValue::Extent(rv)));
    let mut n = BtreeNode::new(level);
    proof {
        let a = routing(min, left_addr);
        let b = routing(median, right_addr);
        lemma_extent_size(min, lv);
        lemma_extent_size(median, rv);
        assert(views(es@) =~= seq![a, b]);
        assert(views(es@).subrange(0, 2) =~= seq![a, b]);
        assert(seq![a, b].skip(1) =~= seq![b]);
        assert(seq![b].skip(1) =~= Seq::<EntryView>::empty());
        assert(total_size(seq![b].skip(1)) == 0);
        assert(total_size(seq![b]) == 32);
        assert(total_size(seq![a, b]) == 64);
        assert(ordered(seq![a, b], false));
        assert(all_padded(seq![a, b]) =~= seq![a, b]);
    }
    n.repack(&es, 0, 2);
    n.set_node_size(node_size);
    n.set_journal_seq(seq);
    n.set_will_make_reachable();
    n
}

impl Btree {
    /// Whether there are addresses and levels left for new nodes, and the root
    /// can be cached under its own address.
    pub open spec fn can_grow(self) -> bool {
        &&& self.root.depth < 255
        &&& self.root.node.level < 255
        &&& self.cache.next_addr + 512 <= ADDR48_LIMIT
        &&& self.root.ptr.block_addr < u64::MAX
    }

    /// Every address of a node, that of the root on disk too, is below this one.
    pub open spec fn addr_top(self) -> int {
        if self.root.ptr.block_addr >= self.cache.next_addr {
            self.root.ptr.block_addr + 1
        } else {
            self.cache.next_addr as int
        }
    }

    /// Whether there is room for `n` more inserts, one after the other: each
    /// takes no more than one level and 258 addresses.
    pub open spec fn has_room(self, n: int) -> bool {
        &&& self.root.depth + n <= 255
        &&& self.root.node.level + n <= 255
        &&& self.addr_top() + 258 * n + 254 <= ADDR48_LIMIT
        &&& self.root.ptr.block_addr < u64::MAX
    }

    /// Whether `new` took no more of what there is than `n` addresses and one
    /// level.
    pub open spec fn grew_within(self, new: Btree, n: int) -> bool {
        &&& new.root.ptr == self.root.ptr
        &&& new.root.depth <= self.root.depth + 1
        &&& new.root.node.level <= self.root.node.level + 1
        &&& self.cache.next_addr <= new.cache.next_addr <= self.cache.next_addr + n
    }

    /// Whether `new` took no more of what there is than one insert may.
    pub open spec fn took_one(self, new: Btree) -> bool {
        &&& new.root.ptr == self.root.ptr
        &&& new.root.depth <= self.root.depth + 1
        &&& new.root.node.level <= self.root.node.level + 1
        &&& new.addr_top() <= self.addr_top() + 258
    }

    /// A tree with room for some inserts can grow, and has room for one less
    /// after one of them.
    pub proof fn lemma_room(self, new: Btree, n: int)
        requires
            self.has_room(n),
            n >= 1,
            self.took_one(new),
        ensures
            self.can_grow(),
            new.has_room(n - 1),
    {
    }

    /// Whether `new` is this tree but for its root, its nodes and its dirty marks.
    pub open spec fn same_but_nodes(self, new: Btree) -> bool {
        new == (Btree {
            root: BtreeRoot { ptr: self.root.ptr, ..new.root },
            cache: new.cache,
            root_modified: new.root_modified,
            ..self
        })
    }

    /// Whether `new` still has the pointer to the root and the key cache of
    /// this tree, and no fewer levels.
    pub open spec fn kept(self, new: Btree) -> bool {
        &&& new.root.ptr == self.root.ptr
        &&& new.key_cache == self.key_cache
        &&& new.root.depth >= self.root.depth
    }

    /// Whether `new` is this tree after its root was split: two nodes with new
    /// addresses, and a new root over them.
    pub open spec fn root_split(
        self,
        new: Btree,
        e: Option<(BtreeKey, BchVal)>,
        seq: u64,
        left: BtreeNode,
        right: BtreeNode,
    ) -> bool {
        let la = self.cache.next_addr;
        let ra = (la + 1) as u64;
        &&& self.same_but_nodes(new)
        &&& split_halves(self.root.node, left, right, e, Some(seq))
        &&& left.will_make_reachable
        &&& right.will_make_reachable
        &&& new.nodes() == self.nodes().insert(la, left).insert(ra, right)
        &&& new.cache.next_addr == la + 2
        &&& new.cache.dirty@ == NodeCache::marked(NodeCache::marked(self.cache.dirty@, la), ra)
        &&& is_routing_root(
            new.root.node,
            self.root.node.level + 1,
            self.root.node.node_size,
            seq,
            la,
            split_key(self.root.node),
            ra,
        )
        &&& new.root.depth == self.root.depth + 1
        &&& new.root_modified
    }

    /// Splits the root and puts a new root over the two halves, with `entry`
    /// added to the half that its key belongs to. False, with nothing changed,
    /// for a root with fewer than two live entries.
    pub fn split_root(&mut self, entry: Option<(BtreeKey, BchVal)>, journal_seq: u64) -> (r: bool)
        requires
            old(self).wf(),
            old(self).root.depth < 255,
            old(self).root.node.level < 255,
            old(self).cache.next_addr + 2 <= ADDR48_LIMIT,
        ensures
            final(self).wf(),
            r == (old(self).root.node.live().len() >= 2),
            r ==> exists|left: BtreeNode, right: BtreeNode| #[trigger]
                old(self).root_split(*final(self), entry, journal_seq, left, right),
            !r ==> *final(self) == *old(self),
            old(self).grew_within(*final(self), 2),
    {
        let ghost t0 = *self;
        let level: u8 = self.root.node.level;
        let node_size: u32 = self.root.node.node_size;
        proof {
            self.root.node.lemma_all();
        }
        let (median, mut right) = match self.root.node.split_adding(entry, Some(journal_seq)) {
            Some(kn) => kn,
            None => {
                return false;
            },
        };
        let mut left = self.root.node.duplicate();
        left.set_will_make_reachable();
        right.set_will_make_reachable();
        let la: u64 = self.cache.alloc_addr();
        let ra: u64 = self.cache.alloc_addr();
        let ghost gl = left;
        let ghost gr = right;
        self.cache.insert_dirty(la, left);
        self.cache.insert_dirty(ra, right);
        let node = routing_root(level + 1, node_size, journal_seq, la, median, ra);
        self.root.node = node;
        self.root.depth = self.root.depth + 1;
        self.root_modified = true;
        proof {
            assert(t0.root_split(*self, entry, journal_seq, gl, gr));
        }
        true
    }

    /// The place in a path of the parent of the node at place `pos`; the
    /// length of the path stands for the root.
    pub open spec fn parent_place(path: Seq<u64>, pos: int) -> int {
        if pos > 0 {
            pos - 1
        } else {
            path.len() as int
        }
    }

    /// Whether `new` is this tree with the node at `a` replaced by `n`, which
    /// counts as changed where `dirty` holds.
    pub open spec fn node_replaced(self, new: Btree, a: u64, n: BtreeNode, dirty: bool) -> bool {
        &&& self.same_but_nodes(new)
        &&& new.root == self.root
        &&& new.root_modified == self.root_modified
        &&& new.nodes() == self.nodes().insert(a, n)
        &&& new.cache.next_addr == self.cache.next_addr
        &&& new.cache.dirty@ == (if dirty {
            NodeCache::marked(self.cache.dirty@, a)
        } else {
            self.cache.dirty@
        })
    }

    /// Whether `new` is this tree with the node at `a` split into `left`, in
    /// its place, and `right`, at a new address.
    pub open spec fn node_split(self, new: Btree, a: u64, left: BtreeNode, right: BtreeNode) -> bool {
        let ra = self.cache.next_addr;
        &&& self.same_but_nodes(new)
        &&& new.root == self.root
        &&& new.root_modified == self.root_modified
        &&& new.nodes() == self.nodes().insert(ra, right).insert(a, left)
        &&& new.cache.next_addr == ra + 1
        &&& new.cache.dirty@ == NodeCache::marked(NodeCache::marked(self.cache.dirty@, ra), a)
        &&& new.wf()
    }

    /// Whether `new` is this tree with another root node that counts as changed.
    pub open spec fn root_replaced(self, new: Btree) -> bool {
        new == (Btree {
            root: BtreeRoot { node: new.root.node, ..self.root },
            root_modified: true,
            ..self
        })
    }

    /// Whether adding the routing entry for `child` from `k` on to the node at
    /// place `pos` of `path`, or to the root, turned this tree into `new`, with
    /// the result `r`. A node that is full even compacted is split, and its
    /// parent gets a routing entry in turn.
    #[verifier::opaque]
    pub open spec fn routed(
        self,
        new: Btree,
        k: BtreeKey,
        child: u64,
        path: Seq<u64>,
        pos: int,
        seq: u64,
        r: bool,
    ) -> bool
        decreases
                if 0 <= pos < path.len() {
                    pos + 1
                } else {
                    0
                },
    {
        let e = routing(k, child);
        let root = self.root.node;
        if pos < 0 || pos >= path.len() {
            ||| r && root.grown(new.root.node, e, false) && self.root_replaced(new)
            ||| r && exists|mid: Btree, left: BtreeNode, right: BtreeNode|
                root.full_stripped(mid.root.node, 32) && mid == (Btree {
                    root: BtreeRoot { node: mid.root.node, ..self.root },
                    ..self
                }) && #[trigger] mid.root_split(
                    new,
                    Some((k, BchVal::spec_new(child, 0))),
                    seq,
                    left,
                    right,
                )
            ||| !r && root.full_stripped(new.root.node, 32) && root.live().len() < 2 && new == (Btree {
                root: BtreeRoot { node: new.root.node, ..self.root },
                ..self
            })
        } else {
            let a = path[pos];
            let parent = self.nodes()[a];
            if !self.nodes().contains_key(a) {
                !r && self.same_but_nodes(new) && new.root == self.root && new.root_modified
                    == self.root_modified && new.nodes() == self.nodes() && new.cache.next_addr
                    == self.cache.next_addr && new.cache.dirty@ == self.cache.dirty@
            } else {
                ||| r && exists|n: BtreeNode|
                    parent.grown(n, e, true) && #[trigger] self.node_replaced(new, a, n, true)
                ||| !r && parent.live().len() < 2 && exists|n: BtreeNode|
                    parent.full(n, 32, true) && #[trigger] self.node_replaced(new, a, n, false)
                ||| exists|mid: Btree, n: BtreeNode, left: BtreeNode, right: BtreeNode|
                    parent.full(n, 32, true) && split_halves(
                        n,
                        left,
                        right,
                        Some((k, BchVal::spec_new(child, 0))),
                        None,
                    ) && #[trigger] self.node_split_via(mid, a, n, left, right) && mid.routed(
                        new,
                        split_key(n),
                        self.cache.next_addr,
                        path,
                        Btree::parent_place(path, pos),
                        seq,
                        r,
                    )
            }
        }
    }

    /// `node_split`, with the compacted node that was split.
    pub open spec fn node_split_via(
        self,
        new: Btree,
        a: u64,
        n: BtreeNode,
        left: BtreeNode,
        right: BtreeNode,
    ) -> bool {
        self.node_split(new, a, left, right)
    }

    /// Adds a routing entry to the root.
    fn route_in_root(&mut self, k: BtreeKey, child: u64, journal_seq: u64) -> (r: bool)
        requires
            old(self).wf(),
            old(self).root.depth < 255,
            old(self).root.node.level < 255,
            old(self).cache.next_addr + 2 <= ADDR48_LIMIT,
        ensures
            final(self).wf(),
            old(self).routed(*final(self), k, child, Seq::<u64>::empty(), 0, journal_seq, r),
            old(self).kept(*final(self)),
            old(self).grew_within(*final(self), 2),
    {
        proof {
            reveal(Btree::routed);
        }
        let v = BchVal::new(child, 0);
        if self.root.node.insert_compacting(k, v, false) {
            self.root_modified = true;
            return true;
        }
        let ghost mid = *self;
        if self.split_root(Some((k, v)), journal_seq) {
            return true;
        }
        false
    }

    /// Adds the routing entry for `child` from `k` on to the node at place
    /// `pos` of `path`, or to the root where that is beyond the path; a full
    /// node is split, and its parent gets a routing entry in turn.
    pub fn insert_routing_entry_at(
        &mut self,
        k: BtreeKey,
        child: u64,
        path: &Vec<u64>,
        pos: usize,
        journal_seq: u64,
    ) -> (r: bool)
        requires
            old(self).wf(),
            old(self).root.depth < 255,
            old(self).root.node.level < 255,
            path@.len() <= 255,
            old(self).cache.next_addr + 3 + pos <= ADDR48_LIMIT || pos >= path@.len(),
            old(self).cache.next_addr + 2 <= ADDR48_LIMIT,
        ensures
            final(self).wf(),
            old(self).routed(*final(self), k, child, path@, pos as int, journal_seq, r),
            old(self).kept(*final(self)),
            old(self).grew_within(
                *final(self),
                if pos < path@.len() {
                    pos + 3
                } else {
                    2
                },
            ),
        decreases
                if pos < path@.len() {
                    pos + 1
                } else {
                    0
                },
    {
        let ghost t0 = *self;
        proof {
            reveal(Btree::routed);
        }
        if pos >= path.len() {
            let r = self.route_in_root(k, child, journal_seq);
            proof {
                t0.lemma_routed_root(*self, k, child, path@, pos as int, journal_seq, r);
            }
            return r;
        }
        let a: u64 = path[pos];
        match self.route_in_node(a, k, child) {
            RouteStep::Missing => false,
            RouteStep::Done => true,
            RouteStep::Stuck => false,
            RouteStep::Split(median, ra) => {
                let next: usize = if pos > 0 {
                    pos - 1
                } else {
                    path.len()
                };
                self.insert_routing_entry_at(median, ra, path, next, journal_seq)
            },
        }
    }

    /// Whether adding a routing entry to the cached node at `a` alone turned
    /// this tree into `new`, with the outcome `step`.
    pub open spec fn route_step(
        self,
        new: Btree,
        a: u64,
        k: BtreeKey,
        child: u64,
        step: RouteStep,
    ) -> bool {
        let e = routing(k, child);
        let parent = self.nodes()[a];
        match step {
            RouteStep::Missing => !self.nodes().contains_key(a) && self.same_but_nodes(new)
                && new.root == self.root && new.root_modified == self.root_modified && new.nodes()
                == self.nodes() && new.cache.next_addr == self.cache.next_addr && new.cache.dirty@
                == self.cache.dirty@,
            RouteStep::Done => self.nodes().contains_key(a) && exists|n: BtreeNode|
                parent.grown(n, e, true) && #[trigger] self.node_replaced(new, a, n, true),
            RouteStep::Stuck => self.nodes().contains_key(a) && parent.live().len() < 2 && exists|
                n: BtreeNode,
            |
                parent.full(n, 32, true) && #[trigger] self.node_replaced(new, a, n, false),
            RouteStep::Split(median, ra) => self.nodes().contains_key(a) && ra
                == self.cache.next_addr && exists|n: BtreeNode, left: BtreeNode, right: BtreeNode|
                parent.full(n, 32, true) && median == split_key(n) && split_halves(
                    n,
                    left,
                    right,
                    Some((k, BchVal::spec_new(child, 0))),
                    None,
                ) && #[trigger] self.node_split_via(new, a, n, left, right),
        }
    }

    /// Adds a routing entry to the cached node at `a`; a full node is split.
    fn route_in_node(&mut self, a: u64, k: BtreeKey, child: u64) -> (r: RouteStep)
        requires
            old(self).wf(),
            old(self).cache.next_addr + 1 <= ADDR48_LIMIT,
        ensures
            final(self).wf(),
            old(self).route_step(*final(self), a, k, child, r),
            old(self).kept(*final(self)),
            final(self).root == old(self).root,
            old(self).grew_within(*final(self), 1),
    {
        let ghost t0 = *self;
        let mut parent = match self.cache.take_node(a) {
            Some(n) => n,
            None => {
                assert(self.nodes() =~= t0.nodes());
                return RouteStep::Missing;
            },
        };
        let v = BchVal::new(child, 0);
        if parent.insert_compacting(k, v, true) {
            let ghost n = parent;
            self.cache.insert_dirty(a, parent);
            proof {
                assert(self.nodes() =~= t0.nodes().insert(a, n));
                assert(t0.node_replaced(*self, a, n, true));
            }
            return RouteStep::Done;
        }
        let ghost n = parent;
        match parent.split_adding(Some((k, v)), None) {
            None => {
                self.cache.put_node(a, parent);
                proof {
                    assert(self.nodes() =~= t0.nodes().insert(a, n));
                    assert(t0.node_replaced(*self, a, n, false));
                }
                RouteStep::Stuck
            },
            Some((median, right)) => {
                let ghost gl = parent;
                let ghost gr = right;
                let ra: u64 = self.cache.alloc_addr();
                self.cache.insert_dirty(ra, right);
                self.cache.insert_dirty(a, parent);
                proof {
                    assert(self.nodes() =~= t0.nodes().insert(ra, gr).insert(a, gl));
                    assert(t0.node_split_via(*self, a, n, gl, gr));
                }
                RouteStep::Split(median, ra)
            },
        }
    }

    /// Beyond the path it does not matter how long the path is.
    proof fn lemma_routed_root(
        self,
        new: Btree,
        k: BtreeKey,
        child: u64,
        path: Seq<u64>,
        pos: int,
        seq: u64,
        r: bool,
    )
        requires
            self.routed(new, k, child, Seq::<u64>::empty(), 0, seq, r),
            pos >= path.len(),
        ensures
            self.routed(new, k, child, path, pos, seq, r),
    {
        reveal(Btree::routed);
    }
}

} // verus!
