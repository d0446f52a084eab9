//! Deleting from a tree: tombstones, merges of nodes that are filled too
//! little, and the loss of levels.

use crate::btree::Btree;
use crate::cache::NodeCache;
use crate::iter::BtreeRoot;
use crate::key::{Bpos, BtreeEntry, BtreeKey, EntryView, ADDR48_LIMIT};
use crate::merge::{
    find_sibling, lemma_extent_run, lemma_pooled, node_underfull, pool, pooled, share_left,
    spec_sibling, spec_underfull, split_pool,
};
use crate::node::{
    BtreeNode, MERGE_HIGHER_DEN, MERGE_HIGHER_NUM, MERGE_HYSTERESIS_DEN, MERGE_HYSTERESIS_NUM,
};
use crate::node_edit::entry_size;
use crate::packed::{all_fit, total_size};
use crate::run::views;
use crate::sort::{before, ordered};
use crate::walk::look;
use vstd::prelude::*;
use vstd::slice::slice_subrange;

verus! {

/// Whether a merge of `node` with `sibling`, which it does not fit together
/// with, is put off: together they are over three fifths of the size of the
/// node that would absorb the other, the sibling where `right` holds, and
/// `node` is under five twelfths.
pub open spec fn backs_off(node: BtreeNode, sibling: BtreeNode, right: bool) -> bool {
    let size = if right {
        sibling.node_size as int
    } else {
        node.node_size as int
    };
    &&& total_size(node.all()) + total_size(sibling.all()) + 32 > size * 3 / 5
    &&& total_size(node.all()) < size * 5 / 12
}

fn merge_backs_off(node: &BtreeNode, sibling: &BtreeNode, right: bool) -> (r: bool)
    requires
        node.wf(),
        sibling.wf(),
    ensures
        r == backs_off(*node, *sibling, right),
{
    proof {
        node.lemma_all();
        sibling.lemma_all();
    }
    let size: u32 = if right {
        sibling.node_size
    } else {
        node.node_size
    };
    let nb: u32 = node.total_data_bytes();
    let sb: u32 = sibling.total_data_bytes();
    let combined: u32 = nb + sb + entry_size();
    combined > size * MERGE_HIGHER_NUM / MERGE_HIGHER_DEN && nb < size * MERGE_HYSTERESIS_NUM
        / MERGE_HYSTERESIS_DEN
}

impl Btree {
    /// The parent of a node: the last ancestor, or the root.
    pub open spec fn parent_of(self, ancestors: Seq<u64>) -> Option<BtreeNode> {
        if ancestors.len() == 0 {
            Some(self.root.node)
        } else {
            look(self.nodes(), ancestors.last())
        }
    }

    /// The neighbour to merge a node with: the right one, else the left one.
    pub open spec fn merge_partner(self, a: u64, ancestors: Seq<u64>) -> Option<(u64, bool)> {
        match self.parent_of(ancestors) {
            Some(p) => match spec_sibling(p, a, false) {
                Some((_k, s)) => Some((s, true)),
                None => match spec_sibling(p, a, true) {
                    Some((_k, s)) => Some((s, false)),
                    None => None,
                },
            },
            None => None,
        }
    }

    /// The child next to the one at `a` in its parent.
    fn sibling_in_parent(&self, ancestors: &[u64], a: u64, is_left: bool) -> (r: Option<u64>)
        requires
            self.wf(),
        ensures
            r == (match self.parent_of(ancestors@) {
                Some(p) => match spec_sibling(p, a, is_left) {
                    Some((_k, s)) => Some(s),
                    None => None,
                },
                None => None,
            }),
            r matches Some(s) ==> s < ADDR48_LIMIT,
    {
        let found = if ancestors.len() == 0 {
            find_sibling(&self.root.node, a, is_left)
        } else {
            match self.cache.get(ancestors[ancestors.len() - 1]) {
                Some(p) => find_sibling(p, a, is_left),
                None => None,
            }
        };
        match found {
            Some((_k, s)) => Some(s),
            None => None,
        }
    }

    /// Finds the neighbour to merge a node with.
    fn find_partner(&self, ancestors: &[u64], a: u64) -> (r: Option<(u64, bool)>)
        requires
            self.wf(),
        ensures
            r == self.merge_partner(a, ancestors@),
            r matches Some((s, right)) ==> s < ADDR48_LIMIT,
    {
        match self.sibling_in_parent(ancestors, a, false) {
            Some(s) => Some((s, true)),
            None => match self.sibling_in_parent(ancestors, a, true) {
                Some(s) => Some((s, false)),
                None => None,
            },
        }
    }

    /// Whether `new` is this tree with the routing entries of the parent
    /// brought up to date after `survivor` absorbed `absorbed`.
    pub open spec fn routing_merged(
        self,
        new: Btree,
        ancestors: Seq<u64>,
        survivor: u64,
        absorbed: u64,
        r: bool,
    ) -> bool {
        if ancestors.len() == 0 {
            &&& exists|p: Seq<BtreeNode>| #[trigger]
                self.root.node.rerouted_after_merge(new.root.node, p, survivor, absorbed, r)
            &&& new == (Btree {
                root: BtreeRoot { node: new.root.node, ..self.root },
                root_modified: self.root_modified || r,
                ..self
            })
        } else {
            let a = ancestors.last();
            if !self.nodes().contains_key(a) {
                r && self.same_nodes(new)
            } else {
                exists|n: BtreeNode, p: Seq<BtreeNode>|
                    self.nodes()[a].rerouted_after_merge(n, p, survivor, absorbed, r)
                        && #[trigger] self.replaced_via(new, a, n, p)
            }
        }
    }

    /// `node_replaced` by a changed node, with the steps that led to it.
    pub open spec fn replaced_via(self, new: Btree, a: u64, n: BtreeNode, p: Seq<BtreeNode>) -> bool {
        self.node_replaced(new, a, n, true)
    }

    /// Brings the routing entries of the parent up to date after a merge.
    fn route_merged(&mut self, ancestors: &[u64], survivor: u64, absorbed: u64) -> (r: bool)
        requires
            old(self).wf(),
        ensures
            final(self).wf(),
            final(self).root.ptr == old(self).root.ptr,
            final(self).key_cache == old(self).key_cache,
            old(self).routing_merged(*final(self), ancestors@, survivor, absorbed, r),
    {
        let ghost t0 = *self;
        if ancestors.len() == 0 {
            let r = self.root.node.update_parent_routing_after_merge(survivor, absorbed);
            if r {
                self.root_modified = true;
            }
            return r;
        }
        let a: u64 = ancestors[ancestors.len() - 1];
        let mut parent = match self.cache.take_node(a) {
            Some(n) => n,
            None => {
                assert(self.nodes() =~= t0.nodes());
                return true;
            },
        };
        let ghost p0 = parent;
        let r = parent.update_parent_routing_after_merge(survivor, absorbed);
        let ghost n = parent;
        self.cache.insert_dirty(a, parent);
        proof {
            assert(self.nodes() =~= t0.nodes().insert(a, n));
            let p = choose|p: Seq<BtreeNode>| #[trigger]
                p0.rerouted_after_merge(n, p, survivor, absorbed, r);
            assert(t0.replaced_via(*self, a, n, p));
        }
        r
    }

    /// Whether `new` is this tree with the routing entries of the parent
    /// brought up to date after three children were merged into two.
    pub open spec fn routing_3to2(
        self,
        new: Btree,
        ancestors: Seq<u64>,
        first: u64,
        middle: u64,
        last: u64,
        median: BtreeKey,
    ) -> bool {
        if ancestors.len() == 0 {
            &&& exists|p: Seq<BtreeNode>| #[trigger]
                self.root.node.rerouted_3to2(new.root.node, p, first, middle, last, median)
            &&& new == (Btree {
                root: BtreeRoot { node: new.root.node, ..self.root },
                root_modified: true,
                ..self
            })
        } else {
            let a = ancestors.last();
            if !self.nodes().contains_key(a) {
                self.same_nodes(new)
            } else {
                exists|n: BtreeNode, p: Seq<BtreeNode>|
                    self.nodes()[a].rerouted_3to2(n, p, first, middle, last, median)
                        && #[trigger] self.replaced_via(new, a, n, p)
            }
        }
    }

    /// Brings the routing entries of the parent up to date after three
    /// children were merged into two.
    fn route_3to2(
        &mut self,
        ancestors: &[u64],
        first: u64,
        middle: u64,
        last: u64,
        median: BtreeKey,
    )
        requires
            old(self).wf(),
        ensures
            final(self).wf(),
            final(self).root.ptr == old(self).root.ptr,
            final(self).key_cache == old(self).key_cache,
            old(self).routing_3to2(*final(self), ancestors@, first, middle, last, median),
    {
        let ghost t0 = *self;
        if ancestors.len() == 0 {
            let _r: bool = self.root.node.update_parent_routing_3to2(first, middle, last, median);
            self.root_modified = true;
            return ;
        }
        let a: u64 = ancestors[ancestors.len() - 1];
        let mut parent = match self.cache.take_node(a) {
            Some(n) => n,
            None => {
                assert(self.nodes() =~= t0.nodes());
                return ;
            },
        };
        let ghost p0 = parent;
        let _r: bool = parent.update_parent_routing_3to2(first, middle, last, median);
        let ghost n = parent;
        self.cache.insert_dirty(a, parent);
        proof {
            assert(self.nodes() =~= t0.nodes().insert(a, n));
            let p = choose|p: Seq<BtreeNode>| #[trigger]
                p0.rerouted_3to2(n, p, first, middle, last, median);
            assert(t0.replaced_via(*self, a, n, p));
        }
    }

    /// Whether `new` is this tree with these nodes and dirty marks.
    pub open spec fn with_nodes(self, new: Btree, nodes: Map<u64, BtreeNode>, dirty: Seq<u64>) -> bool {
        &&& self.same_but_nodes(new)
        &&& new.root == self.root
        &&& new.root_modified == self.root_modified
        &&& new.cache.next_addr == self.cache.next_addr
        &&& new.nodes() == nodes
        &&& new.cache.dirty@ == dirty
    }

    /// Whether sharing out what three nodes, not cached in this tree, hold
    /// among the first and the last turned it into `new`, with the result `r`.
    /// The middle one is left empty. Where there is too little to share out, or
    /// too much for the nodes, they are cached as they were.
    pub open spec fn shared_out(
        self,
        new: Btree,
        ancestors: Seq<u64>,
        a: (u64, u64, u64),
        n: (BtreeNode, BtreeNode, BtreeNode),
        r: bool,
    ) -> bool {
        let p = pooled(n.0, n.1, n.2);
        let m = share_left(p.len() as int);
        if !can_share(n) {
            !r && self.with_nodes(
                new,
                self.nodes().insert(a.0, n.0).insert(a.1, n.1).insert(a.2, n.2),
                self.cache.dirty@,
            )
        } else {
            r && exists|mid: Btree, x: (BtreeNode, BtreeNode, BtreeNode)|
                #![trigger self.shares_put(mid, a, x)]
                repacked_with(n.0, x.0, p.take(m)) && x.1.is_new(0) && repacked_with(
                    n.2,
                    x.2,
                    p.skip(m),
                ) && self.shares_put(mid, a, x) && mid.routing_3to2(
                    new,
                    ancestors,
                    a.0,
                    a.1,
                    a.2,
                    p[m].key(),
                )
        }
    }

    /// Whether `new` is this tree with three nodes cached, the first and the
    /// last as changed.
    pub open spec fn shares_put(
        self,
        new: Btree,
        a: (u64, u64, u64),
        x: (BtreeNode, BtreeNode, BtreeNode),
    ) -> bool {
        self.with_nodes(
            new,
            self.nodes().insert(a.1, x.1).insert(a.0, x.0).insert(a.2, x.2),
            NodeCache::marked(NodeCache::marked(self.cache.dirty@, a.0), a.2),
        )
    }

    /// Shares out what three nodes hold among the first and the last.
    fn share_out(
        &mut self,
        ancestors: &[u64],
        a: (u64, u64, u64),
        first: BtreeNode,
        middle: BtreeNode,
        last: BtreeNode,
    ) -> (r: bool)
        requires
            old(self).wf(),
            first.wf(),
            middle.wf(),
            last.wf(),
            a.0 < old(self).cache.next_addr,
            a.1 < old(self).cache.next_addr,
            a.2 < old(self).cache.next_addr,
        ensures
            final(self).wf(),
            final(self).root.ptr == old(self).root.ptr,
            final(self).key_cache == old(self).key_cache,
            old(self).shared_out(*final(self), ancestors@, a, (first, middle, last), r),
    {
        let ghost t0 = *self;
        let ghost n = (first, middle, last);
        let mut first = first;
        let mut last = last;
        let median = match share_pool(&mut first, &middle, &mut last) {
            Some(k) => k,
            None => {
                self.cache.put_node(a.0, first);
                self.cache.put_node(a.1, middle);
                self.cache.put_node(a.2, last);
                return false;
            },
        };
        let empty = BtreeNode::new_leaf();
        let ghost x = (first, empty, last);
        self.cache.put_node(a.1, empty);
        self.cache.insert_dirty(a.0, first);
        self.cache.insert_dirty(a.2, last);
        let ghost m = *self;
        proof {
            assert(t0.shares_put(m, a, x));
        }
        self.route_3to2(ancestors, a.0, a.1, a.2, median);
        true
    }

    /// The neighbour of the child at `s`, on its other side where `right`
    /// holds.
    pub open spec fn third_addr(self, ancestors: Seq<u64>, s: u64, right: bool) -> Option<u64> {
        match self.parent_of(ancestors) {
            Some(p) => match spec_sibling(p, s, right) {
                Some((_k, t)) => Some(t),
                None => None,
            },
            None => None,
        }
    }

    /// Whether `new` is this tree with the node `n` cached at `a` as changed,
    /// which came of absorbing `from` into `into`.
    pub open spec fn absorbed_put(
        self,
        new: Btree,
        a: u64,
        into: BtreeNode,
        from: BtreeNode,
        n: BtreeNode,
    ) -> bool {
        &&& into.absorbed(n, from)
        &&& self.with_nodes(new, self.nodes().insert(a, n), NodeCache::marked(self.cache.dirty@, a))
    }

    /// Whether `new` is this tree with the node at `t` taken out, and the two
    /// others compacted: `tc` is that node and `sc` is `sib`.
    pub open spec fn third_taken(
        self,
        new: Btree,
        t: u64,
        tc: BtreeNode,
        sib: BtreeNode,
        sc: BtreeNode,
    ) -> bool {
        &&& self.nodes()[t].compacted_to(tc)
        &&& sib.compacted_to(sc)
        &&& self.with_nodes(new, self.nodes().remove(t), self.cache.dirty@)
    }

    /// Whether absorbing `from`, which was at `gone`, into `into`, which is
    /// cached at `survivor` afterwards, turned this tree into `new`, with the
    /// result `r`.
    #[verifier::opaque]
    pub open spec fn absorbed_and_routed(
        self,
        new: Btree,
        ancestors: Seq<u64>,
        survivor: u64,
        into: BtreeNode,
        gone: u64,
        from: BtreeNode,
        r: bool,
    ) -> bool {
        exists|mid: Btree, x: BtreeNode| #[trigger]
            self.absorbed_put(mid, survivor, into, from, x) && mid.routing_merged(
                new,
                ancestors,
                survivor,
                gone,
                r,
            )
    }

    /// Whether sharing out three nodes, after two did not fit into one, turned
    /// this tree into `new`, with the result `r`: the node `n` from `a`, its
    /// neighbour `sib` from `s`, and the neighbour's other neighbour.
    #[verifier::opaque]
    pub open spec fn three_merged(
        self,
        new: Btree,
        ancestors: Seq<u64>,
        a: u64,
        n: BtreeNode,
        s: u64,
        sib: BtreeNode,
        right: bool,
        r: bool,
    ) -> bool {
        match self.third_addr(ancestors, s, right) {
            Some(t) => if self.nodes().contains_key(t) {
                exists|mid: Btree, tc: BtreeNode, sc: BtreeNode| #[trigger]
                    self.third_taken(mid, t, tc, sib, sc) && (if right {
                        mid.shared_out(new, ancestors, (t, a, s), (tc, n, sc), r)
                    } else {
                        mid.shared_out(new, ancestors, (a, s, t), (n, sc, tc), r)
                    })
            } else {
                !r && self.pair_put_back(new, a, n, s, sib)
            },
            None => !r && self.pair_put_back(new, a, n, s, sib),
        }
    }

    /// Whether `new` is this tree with two nodes cached, not as changed.
    pub open spec fn pair_put_back(
        self,
        new: Btree,
        a: u64,
        n: BtreeNode,
        s: u64,
        sib: BtreeNode,
    ) -> bool {
        self.with_nodes(new, self.nodes().insert(a, n).insert(s, sib), self.cache.dirty@)
    }

    /// Whether merging the node `n` from `a` with its neighbour `sib` from `s`,
    /// its right one where `right` holds and both not cached in this tree,
    /// turned it into `new`, with the result `r`. The right neighbour absorbs
    /// the node, and the node its left neighbour, if both fit into one.
    pub open spec fn merged_with(
        self,
        new: Btree,
        ancestors: Seq<u64>,
        a: u64,
        n: BtreeNode,
        s: u64,
        sib: BtreeNode,
        right: bool,
        r: bool,
    ) -> bool {
        if right && sib.spec_can_absorb(n) {
            self.absorbed_and_routed(new, ancestors, s, sib, a, n, r)
        } else if !right && n.spec_can_absorb(sib) {
            self.absorbed_and_routed(new, ancestors, a, n, s, sib, r)
        } else if backs_off(n, sib, right) {
            !r && self.pair_put_back(new, a, n, s, sib)
        } else {
            self.three_merged(new, ancestors, a, n, s, sib, right, r)
        }
    }

    /// Lets the node `into`, cached at `survivor` afterwards, absorb `from`.
    fn absorb_and_route(
        &mut self,
        ancestors: &[u64],
        survivor: u64,
        into: BtreeNode,
        gone: u64,
        from: BtreeNode,
    ) -> (r: bool)
        requires
            old(self).wf(),
            into.wf(),
            from.wf(),
            into.spec_can_absorb(from),
            survivor < old(self).cache.next_addr,
        ensures
            final(self).wf(),
            final(self).root.ptr == old(self).root.ptr,
            final(self).key_cache == old(self).key_cache,
            old(self).absorbed_and_routed(*final(self), ancestors@, survivor, into, gone, from, r),
    {
        let ghost t0 = *self;
        let ghost i0 = into;
        let ghost f0 = from;
        proof {
            reveal(Btree::absorbed_and_routed);
        }
        let mut into = into;
        let mut from = from;
        proof {
            into.lemma_live_facts();
            from.lemma_live_facts();
        }
        into.absorb(&mut from);
        let ghost x = into;
        self.cache.insert_dirty(survivor, into);
        proof {
            assert(t0.absorbed_put(*self, survivor, i0, f0, x));
        }
        self.route_merged(ancestors, survivor, gone)
    }

    /// Shares out what a node, its neighbour and the neighbour's other
    /// neighbour hold, after the first two did not fit into one.
    fn merge_three(
        &mut self,
        ancestors: &[u64],
        a: u64,
        node: BtreeNode,
        s: u64,
        sibling: BtreeNode,
        right: bool,
    ) -> (r: bool)
        requires
            old(self).wf(),
            node.wf(),
            sibling.wf(),
            a < old(self).cache.next_addr,
            s < old(self).cache.next_addr,
        ensures
            final(self).wf(),
            final(self).root.ptr == old(self).root.ptr,
            final(self).key_cache == old(self).key_cache,
            old(self).three_merged(*final(self), ancestors@, a, node, s, sibling, right, r),
    {
        let ghost t0 = *self;
        proof {
            reveal(Btree::three_merged);
        }
        let third = self.sibling_in_parent(ancestors, s, right);
        let t: u64 = match third {
            Some(t) => t,
            None => {
                self.cache.put_node(a, node);
                self.cache.put_node(s, sibling);
                return false;
            },
        };
        let mut third_node = match self.cache.take_node(t) {
            Some(n) => n,
            None => {
                assert(self.nodes() =~= t0.nodes());
                self.cache.put_node(a, node);
                self.cache.put_node(s, sibling);
                return false;
            },
        };
        let ghost sib0 = sibling;
        let mut sibling = sibling;
        third_node.compact();
        sibling.compact();
        proof {
            assert(t0.third_taken(*self, t, third_node, sib0, sibling));
        }
        if right {
            self.share_out(ancestors, (t, a, s), third_node, node, sibling)
        } else {
            self.share_out(ancestors, (a, s, t), node, sibling, third_node)
        }
    }

    /// Merges a node with its neighbour, both taken out of the cache.
    fn merge_with(
        &mut self,
        ancestors: &[u64],
        a: u64,
        node: BtreeNode,
        s: u64,
        sibling: BtreeNode,
        right: bool,
    ) -> (r: bool)
        requires
            old(self).wf(),
            node.wf(),
            sibling.wf(),
            a < old(self).cache.next_addr,
            s < old(self).cache.next_addr,
        ensures
            final(self).wf(),
            final(self).root.ptr == old(self).root.ptr,
            final(self).key_cache == old(self).key_cache,
            old(self).merged_with(*final(self), ancestors@, a, node, s, sibling, right, r),
    {
        let fits: bool = if right {
            sibling.can_absorb(&node)
        } else {
            node.can_absorb(&sibling)
        };
        if fits {
            return if right {
                self.absorb_and_route(ancestors, s, sibling, a, node)
            } else {
                self.absorb_and_route(ancestors, a, node, s, sibling)
            };
        }
        if merge_backs_off(&node, &sibling, right) {
            self.cache.put_node(a, node);
            self.cache.put_node(s, sibling);
            return false;
        }
        self.merge_three(ancestors, a, node, s, sibling, right)
    }

    /// Whether `new` is this tree without the nodes at `a` and `s`, and `n` is
    /// the first one compacted.
    pub open spec fn pair_taken(self, new: Btree, a: u64, n: BtreeNode, s: u64) -> bool {
        &&& self.nodes()[a].compacted_to(n)
        &&& self.with_nodes(new, self.nodes().remove(a).remove(s), self.cache.dirty@)
    }

    /// Whether merging the node at `a` with its neighbour at `s` turned this
    /// tree into `new`, with the result `r`.
    pub open spec fn pair_merged(
        self,
        new: Btree,
        a: u64,
        ancestors: Seq<u64>,
        s: u64,
        right: bool,
        r: bool,
    ) -> bool {
        exists|mid: Btree, n: BtreeNode| #[trigger]
            self.pair_taken(mid, a, n, s) && mid.merged_with(
                new,
                ancestors,
                a,
                n,
                s,
                self.nodes()[s],
                right,
                r,
            )
    }

    /// Whether `new` is this tree with the node at `a` compacted.
    pub open spec fn only_compacted(self, new: Btree, a: u64) -> bool {
        exists|n: BtreeNode|
            self.nodes()[a].compacted_to(n) && #[trigger] self.node_replaced(new, a, n, false)
    }

    /// Whether trying to merge the node at `a`, below `ancestors`, turned this
    /// tree into `new`, with the result `r`.
    pub open spec fn merge_tried(self, new: Btree, a: u64, ancestors: Seq<u64>, r: bool) -> bool {
        if !self.nodes().contains_key(a) || !spec_underfull(self.nodes()[a]) {
            !r && self.same_nodes(new)
        } else if ancestors.len() > 0 && ancestors.last() == a {
            !r && self.only_compacted(new, a)
        } else {
            match self.merge_partner(a, ancestors) {
                Some((s, right)) => if s != a && self.nodes().contains_key(s) {
                    self.pair_merged(new, a, ancestors, s, right, r)
                } else {
                    !r && self.only_compacted(new, a)
                },
                None => !r && self.only_compacted(new, a),
            }
        }
    }

    /// Merges the node at `node_addr` with a neighbour if it is filled too
    /// little; `ancestors` are the nodes above it, from below the root down.
    /// Returns whether nodes were merged and the parent was brought up to date.
    pub fn try_merge_node(&mut self, node_addr: u64, ancestors: &[u64]) -> (r: bool)
        requires
            old(self).wf(),
        ensures
            final(self).wf(),
            final(self).root.ptr == old(self).root.ptr,
            final(self).key_cache == old(self).key_cache,
            old(self).merge_tried(*final(self), node_addr, ancestors@, r),
    {
        let ghost t0 = *self;
        let mut node = match self.cache.take_node(node_addr) {
            Some(n) => n,
            None => {
                assert(self.nodes() =~= t0.nodes());
                return false;
            },
        };
        let ghost n0 = node;
        if !node_underfull(&node) {
            self.cache.put_node(node_addr, node);
            assert(self.nodes() =~= t0.nodes());
            return false;
        }
        node.compact();
        let ghost n = node;
        let (s, right) = match self.find_partner(ancestors, node_addr) {
            Some(p) => p,
            None => {
                self.cache.put_node(node_addr, node);
                assert(self.nodes() =~= t0.nodes().insert(node_addr, n));
                assert(t0.node_replaced(*self, node_addr, n, false));
                return false;
            },
        };
        let sibling = match self.cache.take_node(s) {
            Some(sib) => sib,
            None => {
                self.cache.put_node(node_addr, node);
                assert(self.nodes() =~= t0.nodes().insert(node_addr, n));
                assert(t0.node_replaced(*self, node_addr, n, false));
                return false;
            },
        };
        proof {
            assert(t0.pair_taken(*self, node_addr, n, s));
            assert(sibling == t0.nodes()[s]);
        }
        self.merge_with(ancestors, node_addr, node, s, sibling, right)
    }

    /// Whether merging the nodes of `path`, from the one `level` places before
    /// its end up, as long as merges succeed, turned this tree into `new`.
    pub open spec fn cascaded(self, new: Btree, path: Seq<u64>, level: int) -> bool
        decreases path.len() + 1 - level,
    {
        if level < 1 || level > path.len() {
            new == self
        } else {
            let i = path.len() - level;
            exists|mid: Btree, r: bool| #[trigger]
                self.merge_tried(mid, path[i], path.take(i), r) && (if r {
                    mid.cascaded(new, path, level + 1)
                } else {
                    new == mid
                })
        }
    }

    /// Merges upwards along `path`.
    fn cascade(&mut self, path: &Vec<u64>, level: usize)
        requires
            old(self).wf(),
            1 <= level <= path@.len() + 1,
            path@.len() < usize::MAX,
        ensures
            final(self).wf(),
            final(self).root.ptr == old(self).root.ptr,
            final(self).key_cache == old(self).key_cache,
            old(self).cascaded(*final(self), path@, level as int),
        decreases path@.len() + 1 - level,
    {
        if level > path.len() {
            return ;
        }
        let ghost t0 = *self;
        let i: usize = path.len() - level;
        let ancestors = slice_subrange(path.as_slice(), 0, i);
        assert(path@.subrange(0, i as int) =~= path@.take(i as int));
        let r = self.try_merge_node(path[i], ancestors);
        assert(t0.merge_tried(*self, path@[i as int], path@.take(i as int), r));
        if r {
            self.cascade(path, level + 1);
        }
    }

    /// Whether dropping a root with one child turned this tree into `new`,
    /// with the result `r`: the child is the new root.
    pub open spec fn collapsed(self, new: Btree, r: bool) -> bool {
        let all = self.root.node.all();
        let child = all[0].bch_val().paddr.addr;
        if self.root.depth == 0 || self.root.node.key_count != 1 || all.len() == 0
            || !self.nodes().contains_key(child) {
            !r && self.same_nodes(new)
        } else {
            &&& r
            &&& self.same_but_nodes(new)
            &&& new.root == (BtreeRoot {
                node: self.nodes()[child],
                depth: (self.root.depth - 1) as u8,
                ..self.root
            })
            &&& new.root_modified == self.root_modified
            &&& new.nodes() == self.nodes().remove(child)
            &&& new.cache.next_addr == self.cache.next_addr
            &&& new.cache.dirty@ == self.cache.dirty@
        }
    }

    /// Makes the child of a root that has only one the root.
    fn collapse_root(&mut self) -> (r: bool)
        requires
            old(self).wf(),
        ensures
            final(self).wf(),
            final(self).root.ptr == old(self).root.ptr,
            final(self).key_cache == old(self).key_cache,
            old(self).collapsed(*final(self), r),
            r ==> final(self).root.depth < old(self).root.depth,
    {
        let ghost t0 = *self;
        if self.root.depth == 0 || self.root.node.key_count != 1 {
            return false;
        }
        let child: u64 = match self.root.node.read_entry_by_global_idx(1) {
            Some((_k, v)) => v.paddr.addr,
            None => {
                return false;
            },
        };
        match self.cache.take_node(child) {
            Some(n) => {
                self.root.node = n;
                self.root.depth = self.root.depth - 1;
                true
            },
            None => {
                assert(self.nodes() =~= t0.nodes());
                false
            },
        }
    }

    /// Whether dropping roots with one child, as long as there is one, turned
    /// this tree into `new`.
    pub open spec fn fully_collapsed(self, new: Btree) -> bool
        decreases self.root.depth,
    {
        exists|mid: Btree, r: bool| #[trigger]
            self.collapsed(mid, r) && (if r && mid.root.depth < self.root.depth {
                mid.fully_collapsed(new)
            } else {
                new == mid
            })
    }

    fn collapse_all(&mut self)
        requires
            old(self).wf(),
        ensures
            final(self).wf(),
            final(self).root.ptr == old(self).root.ptr,
            final(self).key_cache == old(self).key_cache,
            old(self).fully_collapsed(*final(self)),
        decreases old(self).root.depth,
    {
        let ghost t0 = *self;
        let r = self.collapse_root();
        assert(t0.collapsed(*self, r));
        if r {
            self.collapse_all();
        }
    }

    /// Whether merging the leaf at `a`, below `path`, then the nodes above it,
    /// and dropping roots with one child turned this tree into `new`.
    pub open spec fn merged_up(self, new: Btree, a: u64, path: Seq<u64>) -> bool {
        exists|mid: Btree, r: bool| #[trigger]
            self.merge_tried(mid, a, path, r) && (if r {
                exists|top: Btree| #[trigger]
                    mid.cascaded(top, path, 1) && top.fully_collapsed(new)
            } else {
                new == mid
            })
    }

    /// Merges the leaf at `a` and what is above it.
    fn merge_up(&mut self, a: u64, path: &Vec<u64>)
        requires
            old(self).wf(),
            path@.len() < usize::MAX,
        ensures
            final(self).wf(),
            final(self).root.ptr == old(self).root.ptr,
            final(self).key_cache == old(self).key_cache,
            old(self).merged_up(*final(self), a, path@),
    {
        let ghost t0 = *self;
        let r = self.try_merge_node(a, path.as_slice());
        let ghost mid = *self;
        assert(t0.merge_tried(mid, a, path@, r));
        if r {
            self.cascade(path, 1);
            let ghost top = *self;
            assert(mid.cascaded(top, path@, 1));
            self.collapse_all();
        }
    }

    /// Whether `new` is this tree after `key` was deleted in the leaf at `a`,
    /// which `n` replaces.
    pub open spec fn leaf_deleted(self, new: Btree, a: u64, n: BtreeNode, key: BtreeKey, seq: u64) -> bool {
        &&& exists|d: BtreeNode| #[trigger]
            self.nodes()[a].after_delete(d, key) && n == (BtreeNode { journal_seq: seq, ..d })
        &&& self.node_replaced(new, a, n, true)
    }

    /// Whether `delete_multi` turned this tree into `new`, with the result `r`.
    pub open spec fn deleted_multi(self, new: Btree, key: BtreeKey, seq: u64, r: bool) -> bool {
        let a = self.leaf_addr(key);
        if self.write_blocked || self.root.depth == 0 {
            !r && new == self
        } else if !self.nodes().contains_key(a) || !self.nodes()[a].spec_has_live_entry(key) {
            !r && self.same_nodes(new)
        } else {
            r && exists|mid: Btree, n: BtreeNode| #[trigger]
                self.leaf_deleted(mid, a, n, key, seq) && (if self.commit_lock {
                    new == mid
                } else {
                    exists|done: Btree| #[trigger]
                        (Btree { write_blocked: true, commit_lock: true, ..mid }).merged_up(
                            done,
                            a,
                            self.spec_path(key),
                        ) && new == (Btree { write_blocked: false, commit_lock: false, ..done })
                })
        }
    }

    /// Deletes a key in the leaf for it, in a tree with levels below its root,
    /// and merges nodes that are filled too little. False, with nothing
    /// changed, while another change is under way, or where the leaf is missing
    /// or has no live entry at the key.
    pub fn delete_multi(&mut self, key: &BtreeKey, journal_seq: u64) -> (r: bool)
        requires
            old(self).wf(),
        ensures
            final(self).wf(),
            final(self).root.ptr == old(self).root.ptr,
            final(self).key_cache == old(self).key_cache,
            old(self).deleted_multi(*final(self), *key, journal_seq, r),
    {
        let ghost t0 = *self;
        if self.write_blocked {
            return false;
        }
        let mut path: Vec<u64> = Vec::new();
        let a: u64 = match self.find_path_to_leaf(key, &mut path) {
            Some(a) => a,
            None => {
                return false;
            },
        };
        let mut leaf = match self.cache.take_node(a) {
            Some(n) => n,
            None => {
                assert(self.nodes() =~= t0.nodes());
                return false;
            },
        };
        let ghost n0 = leaf;
        if !leaf.delete_key(key) {
            self.cache.put_node(a, leaf);
            assert(self.nodes() =~= t0.nodes());
            return false;
        }
        let ghost d = leaf;
        leaf.set_journal_seq(journal_seq);
        let ghost n = leaf;
        self.cache.insert_dirty(a, leaf);
        let ghost mid = *self;
        proof {
            assert(n0.after_delete(d, *key));
            assert(self.nodes() =~= t0.nodes().insert(a, n));
            assert(t0.leaf_deleted(mid, a, n, *key, journal_seq));
        }
        if self.commit_lock {
            return true;
        }
        self.commit_lock = true;
        self.write_blocked = true;
        self.merge_up(a, &path);
        self.write_blocked = false;
        self.commit_lock = false;
        true
    }

    /// One key less; the counter stops at zero.
    pub open spec fn one_key_less(self) -> u32 {
        if self.total_key_count > 0 {
            (self.total_key_count - 1) as u32
        } else {
            0
        }
    }

    /// Whether deleting `key` turned this tree into `new`, with the result `r`,
    /// but for the counter and the key cache.
    pub open spec fn tree_deleted(self, new: Btree, key: BtreeKey, seq: u64, r: bool) -> bool {
        if self.root.depth == 0 {
            if self.root.node.spec_has_live_entry(key) {
                r && exists|d: BtreeNode| #[trigger]
                    self.root.node.after_delete(d, key) && new == (Btree {
                        root: BtreeRoot {
                            node: (BtreeNode { journal_seq: seq, ..d }),
                            ..self.root
                        },
                        root_modified: true,
                        ..self
                    })
            } else {
                !r && new == self
            }
        } else {
            self.deleted_multi(new, key, seq, r)
        }
    }

    /// Whether `delete` turned this tree into `new`, with the result `r`.
    pub open spec fn was_deleted(self, new: Btree, key: BtreeKey, seq: u64, r: bool) -> bool {
        if r {
            exists|mid: Btree| #[trigger]
                self.tree_deleted(mid, key, seq, true) && new == (Btree {
                    total_key_count: mid.one_key_less(),
                    key_cache: new.key_cache,
                    ..mid
                }) && mid.key_cache.invalidated(new.key_cache, Bpos::spec_from_key(key))
        } else {
            self.tree_deleted(new, key, seq, false)
        }
    }

    /// Deletes a key: a tombstone takes the place of its live entry, and the
    /// key cache drops the position. False, with the entries unchanged, where
    /// no entry is live there, or while another change is under way.
    pub fn delete(&mut self, key: &BtreeKey, journal_seq: u64) -> (r: bool)
        requires
            old(self).wf(),
        ensures
            final(self).wf(),
            old(self).was_deleted(*final(self), *key, journal_seq, r),
            final(self).root.ptr == old(self).root.ptr,
    {
        let ghost t0 = *self;
        let pos = Bpos::from_key(key);
        let r: bool = if self.root.depth == 0 {
            let deleted: bool = self.root.node.delete_key(key);
            if deleted {
                let ghost d = self.root.node;
                self.root.node.set_journal_seq(journal_seq);
                self.root_modified = true;
                assert(t0.root.node.after_delete(d, *key));
            }
            deleted
        } else {
            self.delete_multi(key, journal_seq)
        };
        let ghost mid = *self;
        assert(t0.tree_deleted(mid, *key, journal_seq, r));
        if r {
            self.total_key_count = if self.total_key_count > 0 {
                self.total_key_count - 1
            } else {
                0
            };
            self.key_cache.invalidate(&pos);
        }
        r
    }
}

/// Whether what three nodes hold together can be shared out among the first
/// and the last.
pub open spec fn can_share(n: (BtreeNode, BtreeNode, BtreeNode)) -> bool {
    let p = pooled(n.0, n.1, n.2);
    let m = share_left(p.len() as int);
    p.len() >= 2 && 32 * m <= n.0.data@.len() && 32 * (p.len() - m) <= n.2.data@.len()
}

/// Shares out what three nodes hold together among the first and the last.
/// Returns the first key of the last one; nothing where it cannot be done.
fn share_pool(first: &mut BtreeNode, middle: &BtreeNode, last: &mut BtreeNode) -> (r: Option<
    BtreeKey,
>)
    requires
        old(first).wf(),
        middle.wf(),
        old(last).wf(),
    ensures
        r is Some == can_share((*old(first), *middle, *old(last))),
        r is None ==> *final(first) == *old(first) && *final(last) == *old(last),
        ({
            let p = pooled(*old(first), *middle, *old(last));
            let m = share_left(p.len() as int);
            r matches Some(k) ==> k == p[m].key() && repacked_with(
                *old(first),
                *final(first),
                p.take(m),
            ) && repacked_with(*old(last), *final(last), p.skip(m))
        }),
{
    let all: Vec<BtreeEntry> = pool(first, middle, last);
    let ghost p = views(all@);
    let total: usize = all.len();
    proof {
        lemma_pooled(*first, *middle, *last);
        first.lemma_live_facts();
        middle.lemma_live_facts();
        last.lemma_live_facts();
        reveal(BtreeNode::wf);
    }
    if total < 2 {
        return None;
    }
    let mid: usize = split_pool(total);
    if mid > first.data.len() / 32 || total - mid > last.data.len() / 32 {
        return None;
    }
    let median = BtreeKey::from_bpos(all[mid].pos, all[mid].key_type);
    proof {
        assert(p[mid as int] == all@[mid as int]@);
        lemma_pool_parts(p, mid as int);
    }
    first.repack(&all, 0, mid);
    last.repack(&all, mid, total);
    Some(median)
}

/// Whether `new` is `n` repacked with the run `es`.
pub open spec fn repacked_with(n: BtreeNode, new: BtreeNode, es: Seq<EntryView>) -> bool {
    &&& new.wf()
    &&& new.holds_packed(es)
    &&& new.data@.len() == n.data@.len()
    &&& new == (BtreeNode {
        data: new.data,
        sets: new.sets,
        key_count: new.key_count,
        ..n
    })
}

proof fn lemma_pool_parts(p: Seq<EntryView>, mid: int)
    requires
        0 <= mid <= p.len(),
        ordered(p, false),
        forall|i: int| 0 <= i < p.len() ==> crate::merge::is_extent_entry(#[trigger] p[i]),
    ensures
        p.subrange(0, mid) == p.take(mid),
        p.subrange(mid, p.len() as int) == p.skip(mid),
        ordered(p.take(mid), false),
        ordered(p.skip(mid), false),
        all_fit(p.take(mid)),
        all_fit(p.skip(mid)),
        total_size(p.take(mid)) == 32 * mid,
        total_size(p.skip(mid)) == 32 * (p.len() - mid),
{
    let l = p.take(mid);
    let h = p.skip(mid);
    assert(p.subrange(0, mid) =~= l);
    assert(p.subrange(mid, p.len() as int) =~= h);
    assert forall|i: int| 0 <= i < l.len() implies crate::merge::is_extent_entry(#[trigger] l[i]) by {
        assert(l[i] == p[i]);
    }
    assert forall|i: int| 0 <= i < h.len() implies crate::merge::is_extent_entry(#[trigger] h[i]) by {
        assert(h[i] == p[i + mid]);
    }
    lemma_extent_run(l);
    lemma_extent_run(h);
    assert forall|i: int, j: int| 0 <= i < j < l.len() implies !before(
        #[trigger] l[j],
        #[trigger] l[i],
        false,
    ) by {
        assert(!before(p[j], p[i], false));
    }
    assert forall|i: int, j: int| 0 <= i < j < h.len() implies !before(
        #[trigger] h[j],
        #[trigger] h[i],
        false,
    ) by {
        assert(!before(p[j + mid], p[i + mid], false));
    }
}

} // verus!
