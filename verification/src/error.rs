//! What can go wrong.

use crate::ids::BtreeId;
use crate::key::Bpos;
use vstd::prelude::*;

verus! {

/// What is wrong with stored data or with an argument.
#[derive(Clone, Copy, Debug, PartialEq, Eq, Structural)]
#[allow(inconsistent_fields)]
pub enum Fault {
    /// An append record would start at this sector, which is no block boundary.
    AppendNotAligned(u16),
    /// There is nothing to append.
    EmptyAppend,
    /// A record does not start or end at a block boundary.
    RecordNotAligned,
    InvalidPointer,
    PointerNotAligned,
    /// The extent has fewer bytes than the pointer commits.
    ExtentTooShort { have: u64, committed: u64 },
    ShortInitialHeader,
    /// The initial record does not match the pointer.
    InitialMismatch,
    /// A record's length is zero, no multiple of a block, or beyond the data.
    RecordLength { record: u64, available: u64 },
    KeyCountMismatch,
    TruncatedAppendHeader,
    AppendMismatch,
    CapacityExceeded,
    ShortHeader,
    /// Not a node, or a node of this other format version.
    UnsupportedVersion(u16),
    TruncatedBset,
    BsetMismatch,
    BsetOverrun,
    TruncatedKey,
    ZeroSizedKey,
    /// A packed key claims fewer u64s than a key takes.
    ShortKey,
    KeyOverrun,
    BadPointerValue,
    /// The number of a bset is beyond the last one.
    BsetIndex(u64),
    BsetStart { set: u64, offset: u32, node_size: u32 },
    BsetEnd { set: u64, offset: u32, node_size: u32 },
    BsetEmptyRange { set: u64, size: u16, start: u32, end: u32 },
    BsetNotAligned { set: u64, end: u32 },
    /// A set that is not the first one has no entries.
    BsetNoEntries(u64),
    /// The entry at this offset is cut off by the end of the buffer.
    EntryHeaderCut { offset: u64, remaining: u64 },
    /// The entry at this offset reaches beyond its bset or the buffer.
    EntryTooLong { offset: u64, bytes: u32, end: u64 },
    KeyFormat { set: u64, entry: u64, format: u8 },
    KeyTooShort { set: u64, entry: u64, u64s: u8 },
    KeyOrder { set: u64, entry: u64 },
    DuplicateKey { set: u64, entry: u64 },
    BsetSize { set: u64, declared: u16, actual: u64 },
    /// The key to sort at this offset is cut off by the end of the buffer.
    SortKeyCut(u64),
    /// The key to sort at this offset reaches beyond the buffer.
    SortKeyTooLong(u64),
    SortOverflow,
    EmptyBuffer,
    /// A node has no place on disk.
    NoBlockAddr,
    /// A node is being written already.
    WriteInFlight,
    /// The thread or the runtime for a write could not be had.
    NoRuntime,
    ZeroNodeSize,
    /// A leaf starts behind its first entry.
    LeafMinKey(BtreeId),
    /// A leaf ends before its last entry.
    LeafMaxKey(BtreeId),
    /// An inner node at this level has no children.
    EmptyInnerNode(BtreeId, u8),
    /// A routing entry has no child.
    NullChild(BtreeId),
    /// The child at this address occurs more than once.
    ChildTwice(BtreeId, u64),
    ChildMissing(BtreeId, u64),
    /// A child's level is not one below that of its parent.
    ChildLevel { btree: BtreeId, parent: u8, child: u8 },
    /// A child starts before the end of the one in front of it.
    ChildOverlap(BtreeId, u64),
    /// The entry at this place comes before the one in front of it.
    EntryOrder(BtreeId, u64),
    DuplicateEntry(BtreeId, Bpos),
    /// A pointer to a child is not one level below that of its parent.
    ChildPtrLevel { parent: u8, child: u8 },
    RootMissing,
    RestartLimit,
}

/// An error of the storage layer.
#[derive(Clone, Copy, Debug, PartialEq, Eq, Structural)]
pub enum StorageError {
    InvalidData(Fault),
    InvalidBlockSize(u64),
    ChecksumMismatch { expected: u32, actual: u32 },
    CorruptData(Fault),
    Transaction(Fault),
    NotFound(Fault),
    InvalidArgument(Fault),
    JournalError(Fault),
}

} // verus!
