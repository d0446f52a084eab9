//! Looking for nodes on a device whose roots are lost.

use crate::text::{dec, push_dec, push_text};
use vstd::prelude::*;

verus! {

/// A node that was found.
#[derive(Clone, Debug)]
pub struct FoundBtreeNode {
    pub btree_id: u8,
    pub level: u8,
    pub sectors_written: u32,
    pub seq: u32,
    pub journal_seq: u64,
    pub min_key: u64,
    pub max_key: u64,
    pub nr_ptrs: u8,
    pub ptrs: Vec<u64>,
}

/// What a scan found.
#[derive(Debug)]
pub struct FindBtreeNodes {
    pub ret: i32,
    pub nodes: Vec<FoundBtreeNode>,
}

impl FoundBtreeNode {
    /// Whether both say the same.
    pub open spec fn same(self, other: FoundBtreeNode) -> bool {
        &&& self == (FoundBtreeNode { ptrs: self.ptrs, ..other })
        &&& self.ptrs@ == other.ptrs@
    }

    fn duplicate(&self) -> (r: FoundBtreeNode)
        ensures
            r.same(*self),
    {
        let mut ptrs: Vec<u64> = Vec::new();
        let mut i: usize = 0;
        while i < self.ptrs.len()
            invariant
                i <= self.ptrs@.len(),
                ptrs@ =~= self.ptrs@.take(i as int),
            decreases self.ptrs@.len() - i,
        {
            ptrs.push(self.ptrs[i]);
            i = i + 1;
        }
        assert(self.ptrs@.take(self.ptrs@.len() as int) =~= self.ptrs@);
        FoundBtreeNode {
            btree_id: self.btree_id,
            level: self.level,
            sectors_written: self.sectors_written,
            seq: self.seq,
            journal_seq: self.journal_seq,
            min_key: self.min_key,
            max_key: self.max_key,
            nr_ptrs: self.nr_ptrs,
            ptrs,
        }
    }
}

impl FindBtreeNodes {
    pub fn new() -> (r: FindBtreeNodes)
        ensures
            r.ret == 0,
            r.nodes@.len() == 0,
    {
        FindBtreeNodes { ret: 0, nodes: Vec::new() }
    }
}

impl Default for FindBtreeNodes {
    fn default() -> (r: FindBtreeNodes)
        ensures
            r.ret == 0,
            r.nodes@.len() == 0,
    {
        FindBtreeNodes::new()
    }
}

/// Without access to a device there is nothing to be found.
pub fn bch2_scan_for_btree_nodes(_result: &mut FindBtreeNodes) -> (r: i32)
    ensures
        r == 0,
        *final(_result) == *old(_result),
{
    0
}

/// A node that was found, as text.
pub open spec fn found_text(n: FoundBtreeNode) -> Seq<char> {
    "FoundBtreeNode(btree_id="@ + dec(n.btree_id as nat) + ", level="@ + dec(n.level as nat)
        + ", seq="@ + dec(n.seq as nat) + ", journal_seq="@ + dec(n.journal_seq as nat)
        + ", min_key="@ + dec(n.min_key as nat) + ", max_key="@ + dec(n.max_key as nat)
        + ", sectors="@ + dec(n.sectors_written as nat) + ", nr_ptrs="@ + dec(n.nr_ptrs as nat)
        + ")"@
}

/// A node that was found, as text.
pub fn bch2_found_btree_node_to_text(node: &FoundBtreeNode) -> (r: String)
    ensures
        r@ == found_text(*node),
{
    let mut s = String::new();
    push_text(&mut s, "FoundBtreeNode(btree_id=");
    push_dec(&mut s, node.btree_id as u64);
    push_text(&mut s, ", level=");
    push_dec(&mut s, node.level as u64);
    push_text(&mut s, ", seq=");
    push_dec(&mut s, node.seq as u64);
    push_text(&mut s, ", journal_seq=");
    push_dec(&mut s, node.journal_seq);
    push_text(&mut s, ", min_key=");
    push_dec(&mut s, node.min_key);
    push_text(&mut s, ", max_key=");
    push_dec(&mut s, node.max_key);
    push_text(&mut s, ", sectors=");
    push_dec(&mut s, node.sectors_written as u64);
    push_text(&mut s, ", nr_ptrs=");
    push_dec(&mut s, node.nr_ptrs as u64);
    push_text(&mut s, ")");
    assert(s@ =~= found_text(*node));
    s
}

/// No node counts as stale.
pub fn bch2_btree_node_is_stale(_node: &FoundBtreeNode) -> (r: bool)
    ensures
        !r,
{
    false
}

/// Whether nodes of a tree were found.
pub fn bch2_btree_has_scanned_nodes(result: &FindBtreeNodes, btree_id: u32) -> (r: bool)
    ensures
        r == exists|i: int|
            0 <= i < result.nodes@.len() && (#[trigger] result.nodes@[i]).btree_id == btree_id,
{
    let mut i: usize = 0;
    while i < result.nodes.len()
        invariant
            i <= result.nodes@.len(),
            forall|j: int| 0 <= j < i ==> (#[trigger] result.nodes@[j]).btree_id != btree_id,
        decreases result.nodes@.len() - i,
    {
        if result.nodes[i].btree_id as u32 == btree_id {
            return true;
        }
        i = i + 1;
    }
    false
}

/// Whether a node that was found is of a tree and a level, and lies in a range.
pub open spec fn lies_in(
    n: FoundBtreeNode,
    btree_id: u32,
    level: u16,
    min_pos: u64,
    max_pos: u64,
) -> bool {
    n.btree_id == btree_id && n.level == level && min_pos <= n.min_key && n.max_key <= max_pos
}

/// The numbers of the nodes of a tree and a level in a range, in order.
pub open spec fn those_in(
    nodes: Seq<FoundBtreeNode>,
    btree_id: u32,
    level: u16,
    min_pos: u64,
    max_pos: u64,
) -> Seq<int>
    decreases nodes.len(),
{
    if nodes.len() == 0 {
        Seq::<int>::empty()
    } else {
        let front = those_in(nodes.drop_last(), btree_id, level, min_pos, max_pos);
        if lies_in(nodes.last(), btree_id, level, min_pos, max_pos) {
            front.push(nodes.len() - 1)
        } else {
            front
        }
    }
}

/// The first ones of a run; all of them where there are no more than `n`.
pub open spec fn at_most(s: Seq<int>, n: usize) -> Seq<int> {
    if s.len() <= n {
        s
    } else {
        s.take(n as int)
    }
}

/// The nodes of a tree and a level that were found in a range, no more than
/// `max_nodes` of them.
pub fn bch2_get_scanned_nodes(
    result: &FindBtreeNodes,
    btree_id: u32,
    level: u16,
    min_pos: u64,
    max_pos: u64,
    max_nodes: usize,
) -> (r: Vec<FoundBtreeNode>)
    ensures
        ({
            let is = at_most(
                those_in(result.nodes@, btree_id, level, min_pos, max_pos),
                max_nodes,
            );
            &&& r@.len() == is.len()
            &&& forall|i: int|
                0 <= i < r@.len() ==> 0 <= is[i] < result.nodes@.len() && (#[trigger] r@[i]).same(
                    result.nodes@[is[i]],
                ) && lies_in(r@[i], btree_id, level, min_pos, max_pos)
        }),
{
    let mut out: Vec<FoundBtreeNode> = Vec::new();
    let mut i: usize = 0;
    let ghost all = result.nodes@;
    let ghost mut found: Seq<int> = Seq::empty();
    assert(all.take(0) =~= Seq::<FoundBtreeNode>::empty());
    while i < result.nodes.len()
        invariant
            all == result.nodes@,
            i <= all.len(),
            found == at_most(
                those_in(all.take(i as int), btree_id, level, min_pos, max_pos),
                max_nodes,
            ),
            out@.len() == found.len(),
            forall|j: int| 0 <= j < out@.len() ==> 0 <= #[trigger] found[j] < i,
            forall|j: int|
                0 <= j < out@.len() ==> (#[trigger] out@[j]).same(all[found[j]]) && lies_in(
                    out@[j],
                    btree_id,
                    level,
                    min_pos,
                    max_pos,
                ),
        decreases all.len() - i,
    {
        let ghost is0 = those_in(all.take(i as int), btree_id, level, min_pos, max_pos);
        let ghost is1 = those_in(all.take(i + 1), btree_id, level, min_pos, max_pos);
        proof {
            assert(all.take(i + 1).drop_last() =~= all.take(i as int));
            assert(all.take(i + 1).last() == all[i as int]);
        }
        let n = &result.nodes[i];
        if n.btree_id as u32 == btree_id && n.level as u16 == level && min_pos <= n.min_key
            && n.max_key <= max_pos {
            assert(is1 == is0.push(i as int));
            if out.len() < max_nodes {
                let d = n.duplicate();
                out.push(d);
                proof {
                    assert(at_most(is1, max_nodes) =~= found.push(i as int));
                    found = found.push(i as int);
                }
            } else {
                assert(at_most(is1, max_nodes) =~= found);
            }
        }
        i = i + 1;
    }
    assert(all.take(all.len() as int) =~= all);
    assert(forall|j: int| 0 <= j < out@.len() ==> out@[j].same(all[#[trigger] found[j]]));
    out
}

pub fn bch2_find_btree_nodes_init(result: &mut FindBtreeNodes)
    ensures
        final(result).ret == 0,
        final(result).nodes@.len() == 0,
{
    result.ret = 0;
    result.nodes = Vec::new();
}

pub fn bch2_find_btree_nodes_exit(result: &mut FindBtreeNodes)
    ensures
        final(result).ret == old(result).ret,
        final(result).nodes@.len() == 0,
{
    result.nodes = Vec::new();
}

} // verus!
