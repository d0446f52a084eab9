//! Building a tree from nodes that are read one by one.
//!
//! The caller reads a node, hands it over, and reads the children that it is
//! told of, until none is left.

use crate::btree::{child_ptrs, Btree};
use crate::error::{Fault, StorageError};
use crate::iter::BtreeRoot;
use crate::key::BtreePtrV2;
use crate::node::BtreeNode;
use vstd::prelude::*;

verus! {

/// Whether a node was taken in before.
pub open spec fn taken(seen: Seq<(u64, u32)>, ptr: BtreePtrV2) -> bool {
    seen.contains((ptr.block_addr, ptr.generation))
}

/// The first pointer, from number `i` on, whose level is not `level`.
pub open spec fn wrong_level(ptrs: Seq<BtreePtrV2>, level: int, i: int) -> Option<int>
    decreases ptrs.len() - i,
{
    if i < 0 || i >= ptrs.len() {
        None
    } else if ptrs[i].level != level {
        Some(i)
    } else {
        wrong_level(ptrs, level, i + 1)
    }
}

impl Btree {
    /// Whether `new` is this tree with the node that was read from `ptr` cached.
    pub open spec fn node_taken(self, new: Btree, node: BtreeNode, ptr: BtreePtrV2) -> bool {
        &&& new == (Btree { cache: new.cache, ..self })
        &&& new.nodes() == self.nodes().insert(
            ptr.block_addr,
            BtreeNode { block_addr: ptr.block_addr, ..node },
        )
        &&& new.cache.dirty@ == self.cache.dirty@
        &&& new.cache.next_addr == self.cache.next_after(ptr.block_addr)
    }

    /// Takes in a node that was read from `ptr`; `seen` are the nodes that were
    /// taken in before. Returns the children to be read next: none below a
    /// leaf, and none for a node that was taken in before.
    pub fn take_loaded(&mut self, node: BtreeNode, ptr: BtreePtrV2, seen: &mut Vec<(u64, u32)>) -> (r:
        Result<Vec<BtreePtrV2>, StorageError>)
        requires
            old(self).wf(),
            node.wf(),
            ptr.block_addr < u64::MAX,
        ensures
            final(self).wf(),
            if taken(old(seen)@, ptr) {
                r matches Ok(v) && v@.len() == 0 && *final(self) == *old(self) && final(seen)@
                    == old(seen)@
            } else {
                &&& final(seen)@ == old(seen)@.push((ptr.block_addr, ptr.generation))
                &&& old(self).node_taken(*final(self), node, ptr)
                &&& if ptr.level == 0 {
                    r matches Ok(v) && v@.len() == 0
                } else {
                    let ptrs = child_ptrs(node.all(), node.level);
                    match wrong_level(ptrs, ptr.level - 1, 0) {
                        Some(i) => r == Err::<Vec<BtreePtrV2>, StorageError>(
                            StorageError::InvalidData(
                                Fault::ChildPtrLevel { parent: ptr.level, child: ptrs[i].level },
                            ),
                        ),
                        None => r matches Ok(v) && v@ == ptrs,
                    }
                }
            },
    {
        let ghost s0 = seen@;
        let mut i: usize = 0;
        while i < seen.len()
            invariant
                seen@ == s0,
                i <= s0.len(),
                forall|j: int|
                    0 <= j < i ==> #[trigger] s0[j] != (ptr.block_addr, ptr.generation),
                *self == *old(self),
                self.wf(),
                s0 == old(seen)@,
            decreases s0.len() - i,
        {
            let (a, g) = seen[i];
            if a == ptr.block_addr && g == ptr.generation {
                assert(s0[i as int] == (ptr.block_addr, ptr.generation));
                return Ok(Vec::new());
            }
            i = i + 1;
        }
        assert(!taken(s0, ptr));
        seen.push((ptr.block_addr, ptr.generation));
        let children: Vec<BtreePtrV2> = Btree::collect_child_ptrs(&node);
        let mut placed = node;
        placed.set_block_addr(ptr.block_addr);
        self.cache.insert(ptr.block_addr, placed);
        let ghost t1 = *self;
        if ptr.level == 0 {
            return Ok(Vec::new());
        }
        let expected: u8 = ptr.level - 1;
        let mut k: usize = 0;
        while k < children.len()
            invariant
                k <= children@.len(),
                *self == t1,
                self.wf(),
                expected == ptr.level - 1,
                ptr.level > 0,
                !taken(s0, ptr),
                s0 == old(seen)@,
                seen@ == s0.push((ptr.block_addr, ptr.generation)),
                children@ == child_ptrs(node.all(), node.level),
                wrong_level(children@, expected as int, 0) == wrong_level(
                    children@,
                    expected as int,
                    k as int,
                ),
                old(self).node_taken(*self, node, ptr),
            decreases children@.len() - k,
        {
            if children[k].level != expected {
                return Err(
                    StorageError::InvalidData(
                        Fault::ChildPtrLevel { parent: ptr.level, child: children[k].level },
                    ),
                );
            }
            k = k + 1;
        }
        Ok(children)
    }

    /// Makes the node at `root_ptr` the root once all nodes are taken in, and
    /// counts the keys.
    pub fn finish_load(&mut self, root_ptr: BtreePtrV2) -> (r: Result<(), StorageError>)
        requires
            old(self).wf(),
        ensures
            final(self).wf(),
            if old(self).nodes().contains_key(root_ptr.block_addr) {
                &&& r is Ok
                &&& final(self).root.depth == root_ptr.level
                &&& final(self).root.ptr == root_ptr
                &&& old(self).nodes()[root_ptr.block_addr].is_shared(final(self).root.node)
                &&& *final(self) == (Btree {
                    root: final(self).root,
                    total_key_count: Btree::spec_count(final(self).root, old(self).nodes()),
                    ..*old(self)
                })
            } else {
                r == Err::<(), StorageError>(StorageError::NotFound(Fault::RootMissing))
                    && *final(self) == *old(self)
            },
    {
        let node = match self.cache.get(root_ptr.block_addr) {
            Some(n) => n.share(),
            None => {
                return Err(StorageError::NotFound(Fault::RootMissing));
            },
        };
        self.root = BtreeRoot::with_ptr(node, root_ptr.level, root_ptr);
        self.total_key_count = Btree::count_entries(&self.root, &self.cache);
        Ok(())
    }
}

} // verus!
