//! The trees of the engine.

use vstd::prelude::*;

verus! {

/// The number of trees.
pub const BTREE_ID_COUNT: usize = 7;

/// What a tree holds.
#[derive(Clone, Copy, Debug, PartialEq, Eq, Hash, Structural)]
pub enum BtreeId {
    /// Data extents.
    Extents,
    Subvolumes,
    Snapshots,
    SnapshotTrees,
    /// The state of buckets.
    Alloc,
    /// Free buckets.
    Freespace,
    /// The generations of buckets.
    BucketGens,
}

/// What a node holds: pointers to children, or the data of a tree.
#[derive(Clone, Copy, Debug, PartialEq, Eq, Hash, Structural)]
pub enum BtreeNodeType {
    BtreePtr,
    BtreeData(u8),
}

/// What a node of a tree at `level` holds.
pub fn btree_node_type(level: u8, btree_id: BtreeId) -> (r: BtreeNodeType)
    ensures
        r == (if level > 0 {
            BtreeNodeType::BtreePtr
        } else {
            BtreeNodeType::BtreeData((btree_id.spec_index() + 1) as u8)
        }),
{
    if level > 0 {
        BtreeNodeType::BtreePtr
    } else {
        BtreeNodeType::BtreeData((btree_id.index() + 1) as u8)
    }
}

impl BtreeId {
    /// The place of the tree in the engine.
    pub open spec fn spec_index(self) -> int {
        match self {
            BtreeId::Extents => 0,
            BtreeId::Subvolumes => 1,
            BtreeId::Snapshots => 2,
            BtreeId::SnapshotTrees => 3,
            BtreeId::Alloc => 4,
            BtreeId::Freespace => 5,
            BtreeId::BucketGens => 6,
        }
    }

    /// The tree at a place.
    pub open spec fn spec_from(i: int) -> Option<BtreeId> {
        if i == 0 {
            Some(BtreeId::Extents)
        } else if i == 1 {
            Some(BtreeId::Subvolumes)
        } else if i == 2 {
            Some(BtreeId::Snapshots)
        } else if i == 3 {
            Some(BtreeId::SnapshotTrees)
        } else if i == 4 {
            Some(BtreeId::Alloc)
        } else if i == 5 {
            Some(BtreeId::Freespace)
        } else if i == 6 {
            Some(BtreeId::BucketGens)
        } else {
            None
        }
    }

    pub open spec fn spec_name(self) -> Seq<char> {
        match self {
            BtreeId::Extents => "extents"@,
            BtreeId::Subvolumes => "subvolumes"@,
            BtreeId::Snapshots => "snapshots"@,
            BtreeId::SnapshotTrees => "snapshot_trees"@,
            BtreeId::Alloc => "alloc"@,
            BtreeId::Freespace => "freespace"@,
            BtreeId::BucketGens => "bucket_gens"@,
        }
    }

    pub fn name(self) -> (r: &'static str)
        ensures
            r@ == self.spec_name(),
    {
        match self {
            BtreeId::Extents => "extents",
            BtreeId::Subvolumes => "subvolumes",
            BtreeId::Snapshots => "snapshots",
            BtreeId::SnapshotTrees => "snapshot_trees",
            BtreeId::Alloc => "alloc",
            BtreeId::Freespace => "freespace",
            BtreeId::BucketGens => "bucket_gens",
        }
    }

    /// The number of trees.
    pub fn count() -> (r: usize)
        ensures
            r == 7,
    {
        BTREE_ID_COUNT
    }

    pub fn index(self) -> (r: usize)
        ensures
            r == self.spec_index(),
            r < 7,
    {
        match self {
            BtreeId::Extents => 0,
            BtreeId::Subvolumes => 1,
            BtreeId::Snapshots => 2,
            BtreeId::SnapshotTrees => 3,
            BtreeId::Alloc => 4,
            BtreeId::Freespace => 5,
            BtreeId::BucketGens => 6,
        }
    }

    pub fn from_u8(v: u8) -> (r: Option<BtreeId>)
        ensures
            r == BtreeId::spec_from(v as int),
    {
        match v {
            0 => Some(BtreeId::Extents),
            1 => Some(BtreeId::Subvolumes),
            2 => Some(BtreeId::Snapshots),
            3 => Some(BtreeId::SnapshotTrees),
            4 => Some(BtreeId::Alloc),
            5 => Some(BtreeId::Freespace),
            6 => Some(BtreeId::BucketGens),
            _ => None,
        }
    }

    /// All trees, in the order of their places.
    pub fn all() -> (r: Vec<BtreeId>)
        ensures
            r@.len() == 7,
            forall|i: int| 0 <= i < 7 ==> BtreeId::spec_from(i) == Some(#[trigger] r@[i]),
    {
        vec![
            BtreeId::Extents,
            BtreeId::Subvolumes,
            BtreeId::Snapshots,
            BtreeId::SnapshotTrees,
            BtreeId::Alloc,
            BtreeId::Freespace,
            BtreeId::BucketGens,
        ]
    }
}

/// A tree comes back from its place, a place from its tree, and there are no
/// other places.
pub proof fn lemma_id_roundtrip(id: BtreeId, i: int)
    ensures
        BtreeId::spec_from(id.spec_index()) == Some(id),
        0 <= id.spec_index() < 7,
        BtreeId::spec_from(i) matches Some(t) ==> t.spec_index() == i,
        BtreeId::spec_from(i) is Some <==> 0 <= i < 7,
{
}

} // verus!
