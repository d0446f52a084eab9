//! Faults and discrepancies as text.

use crate::buckets::{BchAllocEntry, BchDataType};
use crate::error::Fault;
use crate::gc::Discrepancy;
use crate::ids::BtreeId;
use crate::node_io::{bpos_text, push_bpos};
use crate::text::{dec, push_dec, push_text};
use vstd::prelude::*;

verus! {

/// The name of a tree.
pub open spec fn tree_text(ty: BtreeId) -> Seq<char> {
    match ty {
        BtreeId::Extents => "Extents"@,
        BtreeId::Subvolumes => "Subvolumes"@,
        BtreeId::Snapshots => "Snapshots"@,
        BtreeId::SnapshotTrees => "SnapshotTrees"@,
        BtreeId::Alloc => "Alloc"@,
        BtreeId::Freespace => "Freespace"@,
        BtreeId::BucketGens => "BucketGens"@,
    }
}

fn push_tree(s: &mut String, ty: BtreeId)
    ensures
        final(s)@ == old(s)@ + tree_text(ty),
{
    match ty {
        BtreeId::Extents => push_text(s, "Extents"),
        BtreeId::Subvolumes => push_text(s, "Subvolumes"),
        BtreeId::Snapshots => push_text(s, "Snapshots"),
        BtreeId::SnapshotTrees => push_text(s, "SnapshotTrees"),
        BtreeId::Alloc => push_text(s, "Alloc"),
        BtreeId::Freespace => push_text(s, "Freespace"),
        BtreeId::BucketGens => push_text(s, "BucketGens"),
    }
}

/// The name of what a bucket is used for.
pub open spec fn state_text(state: BchDataType) -> Seq<char> {
    match state {
        BchDataType::Free => "Free"@,
        BchDataType::Sb => "Sb"@,
        BchDataType::Journal => "Journal"@,
        BchDataType::Btree => "Btree"@,
        BchDataType::User => "User"@,
        BchDataType::Cached => "Cached"@,
        BchDataType::Parity => "Parity"@,
        BchDataType::Stripe => "Stripe"@,
        BchDataType::NeedGcGens => "NeedGcGens"@,
        BchDataType::NeedDiscard => "NeedDiscard"@,
        BchDataType::Reserved => "Reserved"@,
    }
}

fn push_state(s: &mut String, state: BchDataType)
    ensures
        final(s)@ == old(s)@ + state_text(state),
{
    match state {
        BchDataType::Free => push_text(s, "Free"),
        BchDataType::Sb => push_text(s, "Sb"),
        BchDataType::Journal => push_text(s, "Journal"),
        BchDataType::Btree => push_text(s, "Btree"),
        BchDataType::User => push_text(s, "User"),
        BchDataType::Cached => push_text(s, "Cached"),
        BchDataType::Parity => push_text(s, "Parity"),
        BchDataType::Stripe => push_text(s, "Stripe"),
        BchDataType::NeedGcGens => push_text(s, "NeedGcGens"),
        BchDataType::NeedDiscard => push_text(s, "NeedDiscard"),
        BchDataType::Reserved => push_text(s, "Reserved"),
    }
}

/// What the alloc tree has about a bucket, as text.
pub open spec fn alloc_text(a: BchAllocEntry) -> Seq<char> {
    "(state "@ + state_text(a.state) + ", gen "@ + dec(a.version as nat) + ", journal_seq "@ + dec(
        a.journal_seq as nat,
    ) + ", dirty "@ + dec(a.dirty_sectors as nat) + ", cached "@ + dec(a.cached_sectors as nat)
        + ", stripe "@ + dec(a.stripe as nat) + ", group "@ + dec(a.group as nat) + ")"@
}

fn push_alloc(s: &mut String, a: BchAllocEntry)
    ensures
        final(s)@ == old(s)@ + alloc_text(a),
{
    let ghost s0 = s@;
    push_text(s, "(state ");
    push_state(s, a.state);
    push_text(s, ", gen ");
    push_dec(s, a.version as u64);
    push_text(s, ", journal_seq ");
    push_dec(s, a.journal_seq);
    push_text(s, ", dirty ");
    push_dec(s, a.dirty_sectors as u64);
    push_text(s, ", cached ");
    push_dec(s, a.cached_sectors as u64);
    push_text(s, ", stripe ");
    push_dec(s, a.stripe as u64);
    push_text(s, ", group ");
    push_dec(s, a.group as u64);
    push_text(s, ")");
    assert(s@ =~= s0 + alloc_text(a));
}

impl Discrepancy {
    /// What does not agree, as text.
    pub open spec fn spec_text(self) -> Seq<char> {
        match self {
            Discrepancy::Unreferenced { bucket, state } => "bucket "@ + dec(bucket as nat) + " allocated ("@ + state_text(state) + ") but not referenced by any extent"@,
            Discrepancy::Released { bucket, was } => "bucket "@ + dec(bucket as nat) + " was "@ + state_text(was) + " but is now free/unreferenced"@,
            Discrepancy::Allocated { bucket, now } => "bucket "@ + dec(bucket as nat) + " is now "@ + state_text(now) + " but was not previously allocated"@,
            Discrepancy::Changed { bucket, was, now } => "bucket "@ + dec(bucket as nat) + " changed from "@ + state_text(was) + " to "@ + state_text(now),
            Discrepancy::BadAllocValue { bucket } => "alloc key "@ + dec(bucket as nat) + " failed to deserialize"@,
            Discrepancy::AllocMismatch { bucket, alloc, allocator } => "alloc bucket "@ + dec(bucket as nat) + " mismatch: alloc="@ + alloc_text(alloc) + " allocator="@ + alloc_text(allocator),
            Discrepancy::MissingAllocEntry { bucket } => "missing alloc entry for bucket "@ + dec(bucket as nat),
            Discrepancy::MissingFreespace { bucket, version } => "missing freespace entry for free bucket "@ + dec(bucket as nat) + " gen "@ + dec(version as nat),
            Discrepancy::StaleFreespace { bucket, version, expected } => "stale freespace entry for bucket "@ + dec(bucket as nat) + " gen "@ + dec(version as nat) + " (expected "@ + dec(expected as nat) + ")"@,
            Discrepancy::StaleAllocatedFreespace { bucket, version } => "stale freespace entry for allocated bucket "@ + dec(bucket as nat) + " gen "@ + dec(version as nat),
            Discrepancy::MissingBucket { bucket, alloc } => "alloc entry "@ + dec(bucket as nat) + " references missing bucket "@ + alloc_text(alloc),
        }
    }

    /// What does not agree, as text.
    pub fn to_text(&self) -> (r: String)
        ensures
            r@ == self.spec_text(),
    {
        let mut s = String::new();
        match *self {
            Discrepancy::Unreferenced { bucket, state } => {
                push_text(&mut s, "bucket ");
                push_dec(&mut s, bucket as u64);
                push_text(&mut s, " allocated (");
                push_state(&mut s, state);
                push_text(&mut s, ") but not referenced by any extent");
            },
            Discrepancy::Released { bucket, was } => {
                push_text(&mut s, "bucket ");
                push_dec(&mut s, bucket as u64);
                push_text(&mut s, " was ");
                push_state(&mut s, was);
                push_text(&mut s, " but is now free/unreferenced");
            },
            Discrepancy::Allocated { bucket, now } => {
                push_text(&mut s, "bucket ");
                push_dec(&mut s, bucket as u64);
                push_text(&mut s, " is now ");
                push_state(&mut s, now);
                push_text(&mut s, " but was not previously allocated");
            },
            Discrepancy::Changed { bucket, was, now } => {
                push_text(&mut s, "bucket ");
                push_dec(&mut s, bucket as u64);
                push_text(&mut s, " changed from ");
                push_state(&mut s, was);
                push_text(&mut s, " to ");
                push_state(&mut s, now);
            },
            Discrepancy::BadAllocValue { bucket } => {
                push_text(&mut s, "alloc key ");
                push_dec(&mut s, bucket as u64);
                push_text(&mut s, " failed to deserialize");
            },
            Discrepancy::AllocMismatch { bucket, alloc, allocator } => {
                push_text(&mut s, "alloc bucket ");
                push_dec(&mut s, bucket as u64);
                push_text(&mut s, " mismatch: alloc=");
                push_alloc(&mut s, alloc);
                push_text(&mut s, " allocator=");
                push_alloc(&mut s, allocator);
            },
            Discrepancy::MissingAllocEntry { bucket } => {
                push_text(&mut s, "missing alloc entry for bucket ");
                push_dec(&mut s, bucket as u64);
            },
            Discrepancy::MissingFreespace { bucket, version } => {
                push_text(&mut s, "missing freespace entry for free bucket ");
                push_dec(&mut s, bucket as u64);
                push_text(&mut s, " gen ");
                push_dec(&mut s, version as u64);
            },
            Discrepancy::StaleFreespace { bucket, version, expected } => {
                push_text(&mut s, "stale freespace entry for bucket ");
                push_dec(&mut s, bucket as u64);
                push_text(&mut s, " gen ");
                push_dec(&mut s, version as u64);
                push_text(&mut s, " (expected ");
                push_dec(&mut s, expected as u64);
                push_text(&mut s, ")");
            },
            Discrepancy::StaleAllocatedFreespace { bucket, version } => {
                push_text(&mut s, "stale freespace entry for allocated bucket ");
                push_dec(&mut s, bucket as u64);
                push_text(&mut s, " gen ");
                push_dec(&mut s, version as u64);
            },
            Discrepancy::MissingBucket { bucket, alloc } => {
                push_text(&mut s, "alloc entry ");
                push_dec(&mut s, bucket as u64);
                push_text(&mut s, " references missing bucket ");
                push_alloc(&mut s, alloc);
            },
        }
        assert(s@ =~= self.spec_text());
        s
    }
}

impl Fault {
    /// What is wrong, as text.
    pub open spec fn spec_text(self) -> Seq<char> {
        match self {
            Fault::AppendNotAligned(x0) => "append offset "@ + dec(x0 as nat) + " is not block aligned"@,
            Fault::EmptyAppend => "cannot append an empty btree record"@,
            Fault::RecordNotAligned => "btree node record I/O must be block aligned"@,
            Fault::InvalidPointer => "invalid btree pointer"@,
            Fault::PointerNotAligned => "btree pointer sectors_written is not block aligned"@,
            Fault::ExtentTooShort { have, committed } => "btree extent has "@ + dec(have as nat) + " bytes, pointer commits "@ + dec(committed as nat),
            Fault::ShortInitialHeader => "btree extent is shorter than initial header"@,
            Fault::InitialMismatch => "btree initial record does not match pointer"@,
            Fault::RecordLength { record, available } => "invalid btree record length "@ + dec(record as nat) + " (available "@ + dec(available as nat) + ")"@,
            Fault::KeyCountMismatch => "btree initial key count mismatch"@,
            Fault::TruncatedAppendHeader => "truncated btree append header"@,
            Fault::AppendMismatch => "invalid btree append record header"@,
            Fault::CapacityExceeded => "decoded btree entries exceed node capacity"@,
            Fault::ShortHeader => "data too short for btree node header"@,
            Fault::UnsupportedVersion(x0) => "unsupported btree node format version "@ + dec(x0 as nat),
            Fault::TruncatedBset => "truncated bset header"@,
            Fault::BsetMismatch => "btree bset version/offset mismatch"@,
            Fault::BsetOverrun => "btree bset extends beyond record"@,
            Fault::TruncatedKey => "truncated packed bkey"@,
            Fault::ZeroSizedKey => "zero-sized packed bkey"@,
            Fault::ShortKey => "packed bkey is shorter than a key"@,
            Fault::KeyOverrun => "packed bkey extends beyond bset"@,
            Fault::BadPointerValue => "invalid btree pointer value"@,
            Fault::BsetIndex(x0) => "bset index "@ + dec(x0 as nat) + " exceeds MAX_BSETS 3"@,
            Fault::BsetStart { set, offset, node_size } => "bset["@ + dec(set as nat) + "] data_offset "@ + dec(offset as nat) + " exceeds node_size "@ + dec(node_size as nat),
            Fault::BsetEnd { set, offset, node_size } => "bset["@ + dec(set as nat) + "] end_offset "@ + dec(offset as nat) + " exceeds node_size "@ + dec(node_size as nat),
            Fault::BsetEmptyRange { set, size, start, end } => "bset["@ + dec(set as nat) + "] size="@ + dec(size as nat) + " but data_offset="@ + dec(start as nat) + " >= end_offset="@ + dec(end as nat),
            Fault::BsetNotAligned { set, end } => "bset["@ + dec(set as nat) + "] end_offset "@ + dec(end as nat) + " not 8-byte aligned"@,
            Fault::BsetNoEntries(x0) => "bset["@ + dec(x0 as nat) + "] has no entries"@,
            Fault::EntryHeaderCut { offset, remaining } => "bset entry at offset "@ + dec(offset as nat) + ": only "@ + dec(remaining as nat) + " bytes remaining, need at least 3"@,
            Fault::EntryTooLong { offset, bytes, end } => "bset entry at offset "@ + dec(offset as nat) + ": entry size "@ + dec(bytes as nat) + " bytes exceeds bset end "@ + dec(end as nat),
            Fault::KeyFormat { set, entry, format } => "bset["@ + dec(set as nat) + "] entry "@ + dec(entry as nat) + ": invalid format "@ + dec(format as nat),
            Fault::KeyTooShort { set, entry, u64s } => "bset["@ + dec(set as nat) + "] entry "@ + dec(entry as nat) + ": u64s="@ + dec(u64s as nat) + " less than minimum BKEY_U64S"@,
            Fault::KeyOrder { set, entry } => "bset["@ + dec(set as nat) + "] key order violation at entry "@ + dec(entry as nat),
            Fault::DuplicateKey { set, entry } => "bset["@ + dec(set as nat) + "] duplicate key at entry "@ + dec(entry as nat),
            Fault::BsetSize { set, declared, actual } => "bset["@ + dec(set as nat) + "] declared size="@ + dec(declared as nat) + " but actual entries="@ + dec(actual as nat),
            Fault::SortKeyCut(x0) => "sort_iter: truncated key header at offset "@ + dec(x0 as nat),
            Fault::SortKeyTooLong(x0) => "sort_iter: key at offset "@ + dec(x0 as nat) + " exceeds data buffer"@,
            Fault::SortOverflow => "sort_iter: destination buffer overflow"@,
            Fault::EmptyBuffer => "btree node has empty data buffer"@,
            Fault::NoBlockAddr => "btree node has no bound physical block address"@,
            Fault::WriteInFlight => "btree node write is already in flight"@,
            Fault::NoRuntime => "btree writeback thread panicked"@,
            Fault::ZeroNodeSize => "btree node has zero node_size"@,
            Fault::LeafMinKey(x0) => "check_topology: btree "@ + tree_text(x0) + " leaf min_key > first entry"@,
            Fault::LeafMaxKey(x0) => "check_topology: btree "@ + tree_text(x0) + " leaf max_key < last entry"@,
            Fault::EmptyInnerNode(x0, x1) => "check_topology: btree "@ + tree_text(x0) + " empty interior node at level "@ + dec(x1 as nat),
            Fault::NullChild(x0) => "check_topology: btree "@ + tree_text(x0) + " interior entry has null child pointer"@,
            Fault::ChildTwice(x0, x1) => "check_topology: btree "@ + tree_text(x0) + " child node "@ + dec(x1 as nat) + " visited twice"@,
            Fault::ChildMissing(x0, x1) => "check_topology: btree "@ + tree_text(x0) + " missing child node "@ + dec(x1 as nat),
            Fault::ChildLevel { btree, parent, child } => "check_topology: btree "@ + tree_text(btree) + " cached child level mismatch: child.level="@ + dec(child as nat) + " parent.level="@ + dec(parent as nat),
            Fault::ChildOverlap(x0, x1) => "check_topology: btree "@ + tree_text(x0) + " child boundary overlap at node "@ + dec(x1 as nat),
            Fault::EntryOrder(x0, x1) => "check_topology: btree "@ + tree_text(x0) + " entries out of order at index "@ + dec(x1 as nat),
            Fault::DuplicateEntry(x0, x1) => "check_topology: btree "@ + tree_text(x0) + " duplicate entry at "@ + bpos_text(x1),
            Fault::ChildPtrLevel { parent, child } => "btree child level mismatch: parent level "@ + dec(parent as nat) + " child level "@ + dec(child as nat),
            Fault::RootMissing => "btree root missing after load"@,
            Fault::RestartLimit => "transaction restart limit exceeded"@,
        }
    }

    /// What is wrong, as text.
    pub fn to_text(&self) -> (r: String)
        ensures
            r@ == self.spec_text(),
    {
        let mut s = String::new();
        match *self {
            Fault::AppendNotAligned(x0) => {
                push_text(&mut s, "append offset ");
                push_dec(&mut s, x0 as u64);
                push_text(&mut s, " is not block aligned");
            },
            Fault::EmptyAppend => {
                push_text(&mut s, "cannot append an empty btree record");
            },
            Fault::RecordNotAligned => {
                push_text(&mut s, "btree node record I/O must be block aligned");
            },
            Fault::InvalidPointer => {
                push_text(&mut s, "invalid btree pointer");
            },
            Fault::PointerNotAligned => {
                push_text(&mut s, "btree pointer sectors_written is not block aligned");
            },
            Fault::ExtentTooShort { have, committed } => {
                push_text(&mut s, "btree extent has ");
                push_dec(&mut s, have as u64);
                push_text(&mut s, " bytes, pointer commits ");
                push_dec(&mut s, committed as u64);
            },
            Fault::ShortInitialHeader => {
                push_text(&mut s, "btree extent is shorter than initial header");
            },
            Fault::InitialMismatch => {
                push_text(&mut s, "btree initial record does not match pointer");
            },
            Fault::RecordLength { record, available } => {
                push_text(&mut s, "invalid btree record length ");
                push_dec(&mut s, record as u64);
                push_text(&mut s, " (available ");
                push_dec(&mut s, available as u64);
                push_text(&mut s, ")");
            },
            Fault::KeyCountMismatch => {
                push_text(&mut s, "btree initial key count mismatch");
            },
            Fault::TruncatedAppendHeader => {
                push_text(&mut s, "truncated btree append header");
            },
            Fault::AppendMismatch => {
                push_text(&mut s, "invalid btree append record header");
            },
            Fault::CapacityExceeded => {
                push_text(&mut s, "decoded btree entries exceed node capacity");
            },
            Fault::ShortHeader => {
                push_text(&mut s, "data too short for btree node header");
            },
            Fault::UnsupportedVersion(x0) => {
                push_text(&mut s, "unsupported btree node format version ");
                push_dec(&mut s, x0 as u64);
            },
            Fault::TruncatedBset => {
                push_text(&mut s, "truncated bset header");
            },
            Fault::BsetMismatch => {
                push_text(&mut s, "btree bset version/offset mismatch");
            },
            Fault::BsetOverrun => {
                push_text(&mut s, "btree bset extends beyond record");
            },
            Fault::TruncatedKey => {
                push_text(&mut s, "truncated packed bkey");
            },
            Fault::ZeroSizedKey => {
                push_text(&mut s, "zero-sized packed bkey");
            },
            Fault::ShortKey => {
                push_text(&mut s, "packed bkey is shorter than a key");
            },
            Fault::KeyOverrun => {
                push_text(&mut s, "packed bkey extends beyond bset");
            },
            Fault::BadPointerValue => {
                push_text(&mut s, "invalid btree pointer value");
            },
            Fault::BsetIndex(x0) => {
                push_text(&mut s, "bset index ");
                push_dec(&mut s, x0 as u64);
                push_text(&mut s, " exceeds MAX_BSETS 3");
            },
            Fault::BsetStart { set, offset, node_size } => {
                push_text(&mut s, "bset[");
                push_dec(&mut s, set as u64);
                push_text(&mut s, "] data_offset ");
                push_dec(&mut s, offset as u64);
                push_text(&mut s, " exceeds node_size ");
                push_dec(&mut s, node_size as u64);
            },
            Fault::BsetEnd { set, offset, node_size } => {
                push_text(&mut s, "bset[");
                push_dec(&mut s, set as u64);
                push_text(&mut s, "] end_offset ");
                push_dec(&mut s, offset as u64);
                push_text(&mut s, " exceeds node_size ");
                push_dec(&mut s, node_size as u64);
            },
            Fault::BsetEmptyRange { set, size, start, end } => {
                push_text(&mut s, "bset[");
                push_dec(&mut s, set as u64);
                push_text(&mut s, "] size=");
                push_dec(&mut s, size as u64);
                push_text(&mut s, " but data_offset=");
                push_dec(&mut s, start as u64);
                push_text(&mut s, " >= end_offset=");
                push_dec(&mut s, end as u64);
            },
            Fault::BsetNotAligned { set, end } => {
                push_text(&mut s, "bset[");
                push_dec(&mut s, set as u64);
                push_text(&mut s, "] end_offset ");
                push_dec(&mut s, end as u64);
                push_text(&mut s, " not 8-byte aligned");
            },
            Fault::BsetNoEntries(x0) => {
                push_text(&mut s, "bset[");
                push_dec(&mut s, x0 as u64);
                push_text(&mut s, "] has no entries");
            },
            Fault::EntryHeaderCut { offset, remaining } => {
                push_text(&mut s, "bset entry at offset ");
                push_dec(&mut s, offset as u64);
                push_text(&mut s, ": only ");
                push_dec(&mut s, remaining as u64);
                push_text(&mut s, " bytes remaining, need at least 3");
            },
            Fault::EntryTooLong { offset, bytes, end } => {
                push_text(&mut s, "bset entry at offset ");
                push_dec(&mut s, offset as u64);
                push_text(&mut s, ": entry size ");
                push_dec(&mut s, bytes as u64);
                push_text(&mut s, " bytes exceeds bset end ");
                push_dec(&mut s, end as u64);
            },
            Fault::KeyFormat { set, entry, format } => {
                push_text(&mut s, "bset[");
                push_dec(&mut s, set as u64);
                push_text(&mut s, "] entry ");
                push_dec(&mut s, entry as u64);
                push_text(&mut s, ": invalid format ");
                push_dec(&mut s, format as u64);
            },
            Fault::KeyTooShort { set, entry, u64s } => {
                push_text(&mut s, "bset[");
                push_dec(&mut s, set as u64);
                push_text(&mut s, "] entry ");
                push_dec(&mut s, entry as u64);
                push_text(&mut s, ": u64s=");
                push_dec(&mut s, u64s as u64);
                push_text(&mut s, " less than minimum BKEY_U64S");
            },
            Fault::KeyOrder { set, entry } => {
                push_text(&mut s, "bset[");
                push_dec(&mut s, set as u64);
                push_text(&mut s, "] key order violation at entry ");
                push_dec(&mut s, entry as u64);
            },
            Fault::DuplicateKey { set, entry } => {
                push_text(&mut s, "bset[");
                push_dec(&mut s, set as u64);
                push_text(&mut s, "] duplicate key at entry ");
                push_dec(&mut s, entry as u64);
            },
            Fault::BsetSize { set, declared, actual } => {
                push_text(&mut s, "bset[");
                push_dec(&mut s, set as u64);
                push_text(&mut s, "] declared size=");
                push_dec(&mut s, declared as u64);
                push_text(&mut s, " but actual entries=");
                push_dec(&mut s, actual as u64);
            },
            Fault::SortKeyCut(x0) => {
                push_text(&mut s, "sort_iter: truncated key header at offset ");
                push_dec(&mut s, x0 as u64);
            },
            Fault::SortKeyTooLong(x0) => {
                push_text(&mut s, "sort_iter: key at offset ");
                push_dec(&mut s, x0 as u64);
                push_text(&mut s, " exceeds data buffer");
            },
            Fault::SortOverflow => {
                push_text(&mut s, "sort_iter: destination buffer overflow");
            },
            Fault::EmptyBuffer => {
                push_text(&mut s, "btree node has empty data buffer");
            },
            Fault::NoBlockAddr => {
                push_text(&mut s, "btree node has no bound physical block address");
            },
            Fault::WriteInFlight => {
                push_text(&mut s, "btree node write is already in flight");
            },
            Fault::NoRuntime => {
                push_text(&mut s, "btree writeback thread panicked");
            },
            Fault::ZeroNodeSize => {
                push_text(&mut s, "btree node has zero node_size");
            },
            Fault::LeafMinKey(x0) => {
                push_text(&mut s, "check_topology: btree ");
                push_tree(&mut s, x0);
                push_text(&mut s, " leaf min_key > first entry");
            },
            Fault::LeafMaxKey(x0) => {
                push_text(&mut s, "check_topology: btree ");
                push_tree(&mut s, x0);
                push_text(&mut s, " leaf max_key < last entry");
            },
            Fault::EmptyInnerNode(x0, x1) => {
                push_text(&mut s, "check_topology: btree ");
                push_tree(&mut s, x0);
                push_text(&mut s, " empty interior node at level ");
                push_dec(&mut s, x1 as u64);
            },
            Fault::NullChild(x0) => {
                push_text(&mut s, "check_topology: btree ");
                push_tree(&mut s, x0);
                push_text(&mut s, " interior entry has null child pointer");
            },
            Fault::ChildTwice(x0, x1) => {
                push_text(&mut s, "check_topology: btree ");
                push_tree(&mut s, x0);
                push_text(&mut s, " child node ");
                push_dec(&mut s, x1 as u64);
                push_text(&mut s, " visited twice");
            },
            Fault::ChildMissing(x0, x1) => {
                push_text(&mut s, "check_topology: btree ");
                push_tree(&mut s, x0);
                push_text(&mut s, " missing child node ");
                push_dec(&mut s, x1 as u64);
            },
            Fault::ChildLevel { btree, parent, child } => {
                push_text(&mut s, "check_topology: btree ");
                push_tree(&mut s, btree);
                push_text(&mut s, " cached child level mismatch: child.level=");
                push_dec(&mut s, child as u64);
                push_text(&mut s, " parent.level=");
                push_dec(&mut s, parent as u64);
            },
            Fault::ChildOverlap(x0, x1) => {
                push_text(&mut s, "check_topology: btree ");
                push_tree(&mut s, x0);
                push_text(&mut s, " child boundary overlap at node ");
                push_dec(&mut s, x1 as u64);
            },
            Fault::EntryOrder(x0, x1) => {
                push_text(&mut s, "check_topology: btree ");
                push_tree(&mut s, x0);
                push_text(&mut s, " entries out of order at index ");
                push_dec(&mut s, x1 as u64);
            },
            Fault::DuplicateEntry(x0, x1) => {
                push_text(&mut s, "check_topology: btree ");
                push_tree(&mut s, x0);
                push_text(&mut s, " duplicate entry at ");
                push_bpos(&mut s, &x1);
            },
            Fault::ChildPtrLevel { parent, child } => {
                push_text(&mut s, "btree child level mismatch: parent level ");
                push_dec(&mut s, parent as u64);
                push_text(&mut s, " child level ");
                push_dec(&mut s, child as u64);
            },
            Fault::RootMissing => {
                push_text(&mut s, "btree root missing after load");
            },
            Fault::RestartLimit => {
                push_text(&mut s, "transaction restart limit exceeded");
            },
        }
        assert(s@ =~= self.spec_text());
        s
    }
}

} // verus!
