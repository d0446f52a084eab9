//! What is decided about the I/O of nodes: which blocks a record takes, how
//! many blocks a pointer commits, and which pointer stands for a record.

use crate::error::{Fault, StorageError};
use crate::header::{
    BtreeNodeHeader, BLOCK_SIZE, BTREE_NODE_MAGIC, BTREE_NODE_VERSION, NODE_HEADER_BYTES,
    SECTORS_PER_BLOCK, SECTOR_SIZE,
};
use crate::key::BtreePtrV2;
use crate::node::BtreeNode;
use vstd::prelude::*;

verus! {

/// The block at which a record at `sector_offset` of an extent starts. Records
/// start and end at block boundaries.
pub fn record_start_block(extent_start: u64, sector_offset: u16, record_len: usize) -> (r: Result<
    u64,
    StorageError,
>)
    requires
        extent_start + sector_offset / 8 <= u64::MAX,
    ensures
        r == (if sector_offset % 8 != 0 || record_len % 4096 != 0 {
            Err::<u64, StorageError>(StorageError::InvalidData(Fault::RecordNotAligned))
        } else {
            Ok::<u64, StorageError>((extent_start + sector_offset / 8) as u64)
        }),
{
    if sector_offset % SECTORS_PER_BLOCK != 0 || record_len % BLOCK_SIZE != 0 {
        return Err(StorageError::InvalidData(Fault::RecordNotAligned));
    }
    Ok(extent_start + (sector_offset / SECTORS_PER_BLOCK) as u64)
}

/// The number of blocks that a pointer commits.
pub fn committed_blocks(ptr: &BtreePtrV2) -> (r: Result<usize, StorageError>)
    ensures
        r == (if ptr.sectors_written == 0 || ptr.sectors_written % 8 != 0 {
            Err::<usize, StorageError>(StorageError::InvalidData(Fault::PointerNotAligned))
        } else {
            Ok::<usize, StorageError>((ptr.sectors_written / 8) as usize)
        }),
{
    if ptr.sectors_written == 0 || ptr.sectors_written % SECTORS_PER_BLOCK != 0 {
        return Err(StorageError::InvalidData(Fault::PointerNotAligned));
    }
    Ok((ptr.sectors_written / SECTORS_PER_BLOCK) as usize)
}

/// The pointer to the initial record, and it alone, of the node at `addr`
/// whose first block is `first`.
pub open spec fn initial_pointer_spec(first: Seq<u8>, addr: u64) -> Result<
    BtreePtrV2,
    StorageError,
> {
    let h = BtreeNodeHeader::spec_from_bytes(first);
    if first.len() < NODE_HEADER_BYTES {
        Err(StorageError::InvalidData(Fault::ShortInitialHeader))
    } else if h.magic != BTREE_NODE_MAGIC || h.version != BTREE_NODE_VERSION {
        Err(StorageError::InvalidData(Fault::InitialMismatch))
    } else if h.record_bytes == 0 || h.record_bytes % 4096 != 0 {
        Err(
            StorageError::InvalidData(
                Fault::RecordLength { record: h.record_bytes as u64, available: first.len() as u64 },
            ),
        )
    } else {
        Ok(
            BtreePtrV2 {
                block_addr: addr,
                sectors_written: ((h.record_bytes / 512) % 0x1_0000) as u16,
                level: h.level,
                generation: h.generation,
            },
        )
    }
}

/// The pointer to the initial record, and it alone, of the node at `addr`
/// whose first block is `first`.
pub fn initial_pointer(first: &[u8], addr: u64) -> (r: Result<BtreePtrV2, StorageError>)
    ensures
        r == initial_pointer_spec(first@, addr),
{
    if first.len() < NODE_HEADER_BYTES {
        return Err(StorageError::InvalidData(Fault::ShortInitialHeader));
    }
    let h = BtreeNodeHeader::from_bytes(first);
    if h.magic != BTREE_NODE_MAGIC || h.version != BTREE_NODE_VERSION {
        return Err(StorageError::InvalidData(Fault::InitialMismatch));
    }
    if h.record_bytes == 0 || h.record_bytes as usize % BLOCK_SIZE != 0 {
        return Err(
            StorageError::InvalidData(
                Fault::RecordLength { record: h.record_bytes as u64, available: first.len() as u64 },
            ),
        );
    }
    Ok(
        BtreePtrV2 {
            block_addr: addr,
            sectors_written: ((h.record_bytes / SECTOR_SIZE as u32) % 0x1_0000) as u16,
            level: h.level,
            generation: h.generation,
        },
    )
}

impl BtreeNode {
    /// The pointer that commits the initial record of the node.
    pub open spec fn committing_ptr(self, addr: u64, generation: u32) -> BtreePtrV2 {
        BtreePtrV2 {
            block_addr: addr,
            sectors_written: (self.initial_len() / 512) as u16,
            level: self.level,
            generation,
        }
    }
}

/// The bytes of the initial record of a node, and the pointer that commits
/// them.
pub fn initial_write(node: &BtreeNode, addr: u64, generation: u32) -> (r: Result<
    (Vec<u8>, BtreePtrV2),
    StorageError,
>)
    requires
        node.wf(),
    ensures
        match r {
            Ok((record, ptr)) => node.initial_len() <= node.node_size && record@
                == node.initial_record(addr, generation) && record@.len() == node.initial_len()
                && ptr == node.committing_ptr(addr, generation),
            Err(e) => node.initial_len() > node.node_size && e == StorageError::InvalidBlockSize(
                node.initial_len() as u64,
            ),
        },
{
    proof {
        node.lemma_all();
    }
    match node.serialize_initial_record(addr, generation) {
        Ok(record) => {
            let sectors: usize = record.len() / SECTOR_SIZE;
            let ptr = BtreePtrV2 {
                block_addr: addr,
                sectors_written: (sectors % 0x1_0000) as u16,
                level: node.level,
                generation,
            };
            Ok((record, ptr))
        },
        Err(e) => Err(e),
    }
}

} // verus!
