//! Node records on disk.
//!
//! A node's extent starts with an initial record; append records may follow.
//! Every record is whole blocks long and carries a checksum over all of it,
//! the checksum itself taken as zero.

use crate::crc::{crc32c, spec_crc32c};
use crate::error::{Fault, StorageError};
use crate::header::{
    BsetHeader, BtreeNodeDiskEntry, BtreeNodeHeader, BLOCK_SIZE, BSET_HEADER_BYTES,
    BTREE_NODE_ENTRY_MAGIC, BTREE_NODE_MAGIC, BTREE_NODE_VERSION, DISK_ENTRY_BYTES,
    ENTRY_CRC_OFFSET, NODE_CRC_OFFSET, NODE_HEADER_BYTES, SECTORS_PER_BLOCK, SECTOR_SIZE,
};
use crate::key::{pad_to, Bpos, BtreeEntry, BtreePtrV2, EntryView, KeyType, BKEY_U64S};
use crate::le::{
    copy_bytes, le_at, le_bytes, lemma_le_bytes_len, lemma_le_roundtrip, lemma_pow256_values,
    lemma_splice_subrange, put_bytes, put_le, put_zeros, splice, zeros,
};
use crate::node::{BtreeNode, DEFAULT_NODE_SIZE};
use crate::packed::{
    all_fit, all_padded, decode, encode, encode_all, lemma_encode_len, lemma_total_append,
    lemma_total_bound, lemma_total_push, read_full, total_size, write_packed,
};
use crate::run::{all_read_at, lemma_undeleted, live, undeleted, views};
use crate::sort::{lemma_stable_sort, ordered, sort_entries, stable_sort};
use vstd::prelude::*;
use vstd::slice::slice_subrange;

verus! {

// ── checksums ───────────────────────────────────────────────────────────

/// Four zero bytes.
pub open spec fn zero4() -> Seq<u8> {
    seq![0u8, 0u8, 0u8, 0u8]
}

/// The checksum of a record whose checksum lies at `off`.
pub open spec fn record_crc(r: Seq<u8>, off: int) -> u32 {
    spec_crc32c(splice(r, off, zero4()), 0)
}

/// The record with its checksum written at `off`.
pub open spec fn sealed(r: Seq<u8>, off: int) -> Seq<u8> {
    splice(r, off, le_bytes(record_crc(r, off) as nat, 4))
}

/// A sealed record carries its own checksum.
pub proof fn lemma_sealed(r: Seq<u8>, off: int)
    requires
        0 <= off,
        off + 4 <= r.len(),
    ensures
        sealed(r, off).len() == r.len(),
        record_crc(sealed(r, off), off) == record_crc(r, off),
        le_at(sealed(r, off), off, 4) == record_crc(r, off),
{
    let c = record_crc(r, off);
    lemma_pow256_values();
    lemma_le_roundtrip(c as nat, 4);
    lemma_splice_subrange(r, off, le_bytes(c as nat, 4));
    assert(splice(sealed(r, off), off, zero4()) =~= splice(r, off, zero4()));
}

/// Computes the checksum of a record and writes it at `crc_offset`.
pub fn write_record_crc(record: &mut Vec<u8>, crc_offset: usize)
    requires
        crc_offset + 4 <= old(record)@.len(),
    ensures
        final(record)@ == sealed(old(record)@, crc_offset as int),
{
    let ghost r0 = record@;
    put_zeros(record, crc_offset, 4);
    proof {
        assert(Seq::new(4, |i: int| 0u8) =~= zero4());
    }
    let crc: u32 = crc32c(record.as_slice(), 0);
    put_le(record, crc_offset, 4, crc as u64);
    proof {
        lemma_le_bytes_len(crc as nat, 4);
        assert(record@ =~= sealed(r0, crc_offset as int));
    }
}

/// Checks the checksum of a record against `stored_crc`.
pub fn verify_record_crc(record: &[u8], crc_offset: usize, stored_crc: u32) -> (r: Result<
    (),
    StorageError,
>)
    requires
        crc_offset + 4 <= record@.len(),
    ensures
        r == (if record_crc(record@, crc_offset as int) == stored_crc {
            Ok::<(), StorageError>(())
        } else {
            Err::<(), StorageError>(
                StorageError::ChecksumMismatch {
                    expected: stored_crc,
                    actual: record_crc(record@, crc_offset as int),
                },
            )
        }),
{
    let mut copy: Vec<u8> = copy_bytes(record);
    put_zeros(&mut copy, crc_offset, 4);
    proof {
        assert(Seq::new(4, |i: int| 0u8) =~= zero4());
    }
    let actual: u32 = crc32c(copy.as_slice(), 0);
    if actual != stored_crc {
        return Err(StorageError::ChecksumMismatch { expected: stored_crc, actual });
    }
    Ok(())
}

// ── writing ─────────────────────────────────────────────────────────────

/// `n` rounded up to whole blocks.
pub open spec fn whole_blocks(n: int) -> int {
    (n + 4095) / 4096 * 4096
}

/// The length of a record with `content_bytes` bytes of content.
pub fn record_bytes(content_bytes: usize) -> (r: Result<usize, StorageError>)
    requires
        content_bytes <= 0xffff_0000,
    ensures
        r == Ok::<usize, StorageError>(whole_blocks(content_bytes as int) as usize),
{
    let blocks: usize = content_bytes / BLOCK_SIZE + if content_bytes % BLOCK_SIZE == 0 {
        0usize
    } else {
        1usize
    };
    Ok(blocks * BLOCK_SIZE)
}

/// The bset header of a record at `sector` with `payload` bytes of entries.
pub open spec fn bset_header_for(seq: u64, sector: u16, payload: int) -> BsetHeader {
    BsetHeader {
        seq,
        journal_seq: seq,
        flags: (sector * 65536) as u32,
        version: BTREE_NODE_VERSION,
        u64s: (payload / 8) as u16,
    }
}

pub fn make_bset_header(seq: u64, sector_offset: u16, payload_bytes: usize) -> (r: Result<
    BsetHeader,
    StorageError,
>)
    ensures
        r == (if payload_bytes % 8 != 0 || payload_bytes / 8 > 0xffff {
            Err::<BsetHeader, StorageError>(StorageError::InvalidBlockSize(payload_bytes as u64))
        } else {
            Ok::<BsetHeader, StorageError>(
                bset_header_for(seq, sector_offset, payload_bytes as int),
            )
        }),
{
    if payload_bytes % 8 != 0 || payload_bytes / 8 > 0xffff {
        return Err(StorageError::InvalidBlockSize(payload_bytes as u64));
    }
    Ok(
        BsetHeader {
            seq,
            journal_seq: seq,
            flags: sector_offset as u32 * 65536,
            version: BTREE_NODE_VERSION,
            u64s: (payload_bytes / 8) as u16,
        },
    )
}

/// The packed bytes of entries.
pub fn pack_entries(entries: &Vec<BtreeEntry>) -> (r: Vec<u8>)
    requires
        all_fit(views(entries@)),
        total_size(views(entries@)) <= DEFAULT_NODE_SIZE,
    ensures
        r@ == encode_all(views(entries@)),
        r@.len() == total_size(views(entries@)),
{
    let ghost es = views(entries@);
    let mut total: usize = 0;
    let mut i: usize = 0;
    proof {
        assert(es.take(0) =~= Seq::<EntryView>::empty());
    }
    while i < entries.len()
        invariant
            i <= entries@.len(),
            es == views(entries@),
            all_fit(es),
            total_size(es) <= DEFAULT_NODE_SIZE,
            total == total_size(es.take(i as int)),
        decreases entries@.len() - i,
    {
        proof {
            lemma_take_step(es, i as int);
            assert(es[i as int] == entries@[i as int]@);
        }
        total = total + entries[i].packed_size();
        i = i + 1;
    }
    let mut out: Vec<u8> = zeros(total);
    let mut cur: usize = 0;
    let mut j: usize = 0;
    proof {
        assert(es.take(es.len() as int) =~= es);
        assert(out@.subrange(0, 0) =~= encode_all(es.take(0)));
    }
    while j < entries.len()
        invariant
            j <= entries@.len(),
            es == views(entries@),
            all_fit(es),
            total_size(es) <= DEFAULT_NODE_SIZE,
            out@.len() == total_size(es),
            cur == total_size(es.take(j as int)),
            cur <= out@.len(),
            out@.subrange(0, cur as int) == encode_all(es.take(j as int)),
        decreases entries@.len() - j,
    {
        let ghost o0 = out@;
        proof {
            lemma_take_step(es, j as int);
            assert(es[j as int] == entries@[j as int]@);
            lemma_encode_len(es[j as int]);
            assert(es.take(j + 1).drop_last() =~= es.take(j as int));
        }
        let bytes: Vec<u8> = entries[j].value.to_bytes();
        let size: usize = write_packed(
            &mut out,
            cur,
            &entries[j].pos,
            entries[j].key_type,
            bytes.as_slice(),
        );
        proof {
            assert(out@.subrange(0, cur + size) =~= o0.subrange(0, cur as int) + encode(
                es[j as int],
            ));
        }
        cur = cur + size;
        j = j + 1;
    }
    assert(out@.subrange(0, out@.len() as int) =~= out@);
    out
}

proof fn lemma_take_step(es: Seq<EntryView>, i: int)
    requires
        0 <= i < es.len(),
    ensures
        total_size(es.take(i + 1)) == total_size(es.take(i)) + es[i].u64s() * 8,
        total_size(es.take(i + 1)) <= total_size(es),
        es.take(i + 1) == es.take(i).push(es[i]),
        0 <= total_size(es.take(i)),
{
    assert(es.take(i + 1) =~= es.take(i).push(es[i]));
    lemma_total_push(es.take(i), es[i]);
    assert(es =~= es.take(i + 1) + es.skip(i + 1));
    lemma_total_append(es.take(i + 1), es.skip(i + 1));
    lemma_total_bound(es.skip(i + 1));
    lemma_total_bound(es.take(i));
}

/// Lays out a record: the header, the bset header, the entries, zeros.
fn lay_out(header: &Vec<u8>, bset: &Vec<u8>, payload: &Vec<u8>, len: usize) -> (r: Vec<u8>)
    requires
        header@.len() + bset@.len() + payload@.len() <= len,
    ensures
        r@ == pad_to(header@ + bset@ + payload@, len as int),
        r@.len() == len,
{
    let mut r: Vec<u8> = zeros(len);
    put_bytes(&mut r, 0, header.as_slice());
    put_bytes(&mut r, header.len(), bset.as_slice());
    put_bytes(&mut r, header.len() + bset.len(), payload.as_slice());
    assert(r@ =~= pad_to(header@ + bset@ + payload@, len as int));
    r
}

impl BtreeNode {
    /// The length of the initial record of this node.
    pub open spec fn initial_len(self) -> int {
        whole_blocks(NODE_HEADER_BYTES + BSET_HEADER_BYTES + total_size(self.live()))
    }

    /// The header of the initial record of this node, without its checksum.
    pub open spec fn initial_header(self, bucket_addr: u64, generation: u32) -> BtreeNodeHeader {
        BtreeNodeHeader {
            magic: BTREE_NODE_MAGIC,
            version: BTREE_NODE_VERSION,
            level: self.level,
            node_type: 0,
            key_count: self.live().len() as u32,
            bset_count: if self.live().len() > 0 {
                1
            } else {
                0
            },
            crc32: 0,
            seq: self.journal_seq,
            bucket_addr,
            generation,
            record_bytes: self.initial_len() as u32,
            min_key_inode: self.min_key.inode,
            min_key_offset: self.min_key.offset,
            min_key_snapshot: self.min_key.snapshot,
            max_key_inode: self.max_key.inode,
            max_key_offset: self.max_key.offset,
            max_key_snapshot: self.max_key.snapshot,
        }
    }

    /// The initial record of this node, without its checksum.
    pub open spec fn initial_body(self, bucket_addr: u64, generation: u32) -> Seq<u8> {
        pad_to(
            self.initial_header(bucket_addr, generation).spec_bytes() + bset_header_for(
                self.journal_seq,
                0,
                total_size(self.live()),
            ).spec_bytes() + encode_all(self.live()),
            self.initial_len(),
        )
    }

    /// The initial record of this node.
    #[verifier::opaque]
    pub open spec fn initial_record(self, bucket_addr: u64, generation: u32) -> Seq<u8> {
        sealed(self.initial_body(bucket_addr, generation), NODE_CRC_OFFSET as int)
    }

    /// Encodes the node as the initial record of an extent at `bucket_addr`; an
    /// error where the record is longer than the node size.
    pub fn serialize_initial_record(&self, bucket_addr: u64, generation: u32) -> (r: Result<
        Vec<u8>,
        StorageError,
    >)
        requires
            self.wf(),
        ensures
            match r {
                Ok(record) => self.initial_len() <= self.node_size && record@
                    == self.initial_record(bucket_addr, generation) && record@.len()
                    == self.initial_len(),
                Err(e) => self.initial_len() > self.node_size && e
                    == StorageError::InvalidBlockSize(self.initial_len() as u64),
            },
    {
        let entries: Vec<BtreeEntry> = self.collect_all_entries();
        proof {
            self.lemma_live_facts();
            lemma_total_multiple(self.live());
        }
        let payload: Vec<u8> = pack_entries(&entries);
        let len: usize = match record_bytes(NODE_HEADER_BYTES + BSET_HEADER_BYTES + payload.len()) {
            Ok(len) => len,
            Err(e) => {
                return Err(e);
            },
        };
        if len > self.node_size as usize {
            return Err(StorageError::InvalidBlockSize(len as u64));
        }
        let bset = match make_bset_header(self.journal_seq, 0, payload.len()) {
            Ok(b) => b,
            Err(e) => {
                return Err(e);
            },
        };
        let header = BtreeNodeHeader {
            magic: BTREE_NODE_MAGIC,
            version: BTREE_NODE_VERSION,
            level: self.level,
            node_type: 0,
            key_count: entries.len() as u32,
            bset_count: if entries.len() > 0 {
                1
            } else {
                0
            },
            crc32: 0,
            seq: self.journal_seq,
            bucket_addr,
            generation,
            record_bytes: len as u32,
            min_key_inode: self.min_key.inode,
            min_key_offset: self.min_key.offset,
            min_key_snapshot: self.min_key.snapshot,
            max_key_inode: self.max_key.inode,
            max_key_offset: self.max_key.offset,
            max_key_snapshot: self.max_key.snapshot,
        };
        let hb: Vec<u8> = header.to_bytes();
        let bb: Vec<u8> = bset.to_bytes();
        let mut record: Vec<u8> = lay_out(&hb, &bb, &payload, len);
        write_record_crc(&mut record, NODE_CRC_OFFSET);
        proof {
            reveal(BtreeNode::initial_record);
        }
        Ok(record)
    }

    /// Encodes the node as the initial record of generation 1.
    pub fn serialize_to_bucket(&self, bucket_addr: u64) -> (r: Result<Vec<u8>, StorageError>)
        requires
            self.wf(),
        ensures
            match r {
                Ok(record) => self.initial_len() <= self.node_size && record@
                    == self.initial_record(bucket_addr, 1) && record@.len() == self.initial_len(),
                Err(e) => self.initial_len() > self.node_size && e
                    == StorageError::InvalidBlockSize(self.initial_len() as u64),
            },
    {
        self.serialize_initial_record(bucket_addr, 1)
    }

    /// The length of an append record of this node.
    pub open spec fn append_len(self) -> int {
        whole_blocks(DISK_ENTRY_BYTES + BSET_HEADER_BYTES + total_size(self.live()))
    }

    /// The header of an append record of this node, without its checksum.
    pub open spec fn append_header(self, generation: u32) -> BtreeNodeDiskEntry {
        BtreeNodeDiskEntry {
            magic: BTREE_NODE_ENTRY_MAGIC,
            version: BTREE_NODE_VERSION,
            _flags: 0,
            seq: self.journal_seq,
            generation,
            record_bytes: self.append_len() as u32,
            crc32: 0,
            _pad: 0,
        }
    }

    /// An append record of this node at `sector`, without its checksum.
    pub open spec fn append_body(self, generation: u32, sector: u16) -> Seq<u8> {
        pad_to(
            self.append_header(generation).spec_bytes() + bset_header_for(
                self.journal_seq,
                sector,
                total_size(self.live()),
            ).spec_bytes() + encode_all(self.live()),
            self.append_len(),
        )
    }

    /// An append record of this node at `sector`.
    #[verifier::opaque]
    pub open spec fn append_record(self, generation: u32, sector: u16) -> Seq<u8> {
        sealed(self.append_body(generation, sector), ENTRY_CRC_OFFSET as int)
    }

    /// Encodes the node as an append record at `sector_offset`: an error for
    /// an offset that is no block boundary, for a node without live entries,
    /// and for a record that would not end within the node size.
    pub fn serialize_append_record(&self, generation: u32, sector_offset: u16) -> (r: Result<
        Vec<u8>,
        StorageError,
    >)
        requires
            self.wf(),
        ensures
            ({
                let bad_offset = sector_offset == 0 || sector_offset % SECTORS_PER_BLOCK != 0;
                let empty = self.live().len() == 0;
                let too_long = sector_offset + self.append_len() / 512 > self.node_size as int
                    / 512;
                match r {
                    Ok(record) => !bad_offset && !empty && !too_long && record@
                        == self.append_record(generation, sector_offset) && record@.len()
                        == self.append_len(),
                    Err(e) => if bad_offset {
                        e == StorageError::InvalidData(Fault::AppendNotAligned(sector_offset))
                    } else if empty {
                        e == StorageError::InvalidData(Fault::EmptyAppend)
                    } else {
                        too_long && e == StorageError::InvalidBlockSize(self.append_len() as u64)
                    },
                }
            }),
    {
        if sector_offset == 0 || sector_offset % SECTORS_PER_BLOCK != 0 {
            return Err(StorageError::InvalidData(Fault::AppendNotAligned(sector_offset)));
        }
        let entries: Vec<BtreeEntry> = self.collect_all_entries();
        proof {
            self.lemma_live_facts();
            lemma_total_multiple(self.live());
        }
        if entries.len() == 0 {
            return Err(StorageError::InvalidData(Fault::EmptyAppend));
        }
        let payload: Vec<u8> = pack_entries(&entries);
        let len: usize = match record_bytes(DISK_ENTRY_BYTES + BSET_HEADER_BYTES + payload.len()) {
            Ok(len) => len,
            Err(e) => {
                return Err(e);
            },
        };
        let end_sectors: usize = sector_offset as usize + len / SECTOR_SIZE;
        if end_sectors > self.node_size as usize / SECTOR_SIZE {
            return Err(StorageError::InvalidBlockSize(len as u64));
        }
        let bset = match make_bset_header(self.journal_seq, sector_offset, payload.len()) {
            Ok(b) => b,
            Err(e) => {
                return Err(e);
            },
        };
        let header = BtreeNodeDiskEntry {
            magic: BTREE_NODE_ENTRY_MAGIC,
            version: BTREE_NODE_VERSION,
            _flags: 0,
            seq: self.journal_seq,
            generation,
            record_bytes: len as u32,
            crc32: 0,
            _pad: 0,
        };
        let hb: Vec<u8> = header.to_bytes();
        let bb: Vec<u8> = bset.to_bytes();
        let mut record: Vec<u8> = lay_out(&hb, &bb, &payload, len);
        write_record_crc(&mut record, ENTRY_CRC_OFFSET);
        proof {
            reveal(BtreeNode::append_record);
        }
        Ok(record)
    }

    /// The live entries of the node, packed, without any header.
    pub fn pack_bset(&self) -> (r: Result<Vec<u8>, StorageError>)
        requires
            self.wf(),
        ensures
            r matches Ok(b) && b@ == encode_all(self.live()) && b@.len() == total_size(self.live()),
    {
        let entries: Vec<BtreeEntry> = self.collect_all_entries();
        proof {
            self.lemma_live_facts();
        }
        Ok(pack_entries(&entries))
    }
}

/// Packed entries are whole u64s.
pub proof fn lemma_total_multiple(es: Seq<EntryView>)
    ensures
        total_size(es) % 8 == 0,
        total_size(es) >= 0,
    decreases es.len(),
{
    if es.len() > 0 {
        lemma_total_multiple(es.skip(1));
    }
}

// ── reading ─────────────────────────────────────────────────────────────

/// `a` in front of what was read, where reading went well.
pub open spec fn prepend(a: Seq<EntryView>, r: Result<Seq<EntryView>, Fault>) -> Result<
    Seq<EntryView>,
    Fault,
> {
    match r {
        Ok(s) => Ok(a + s),
        Err(e) => Err(e),
    }
}

/// What is wrong with the entry that the stored bytes `b` of a node at `level`
/// start with.
pub open spec fn head_fault(b: Seq<u8>, level: u8) -> Option<Fault> {
    if b.len() < 3 {
        Some(Fault::TruncatedKey)
    } else if b[0] == 0 {
        Some(Fault::ZeroSizedKey)
    } else if b[0] * 8 > b.len() {
        Some(Fault::KeyOverrun)
    } else if b[0] < BKEY_U64S {
        Some(Fault::ShortKey)
    } else if level > 0 && b[0] == 5 && BtreePtrV2::spec_from_bytes(b.subrange(24, 40)) is None {
        Some(Fault::BadPointerValue)
    } else {
        None
    }
}

/// The entries that the stored bytes `b` of a node at `level` hold.
pub open spec fn stored_entries(b: Seq<u8>, level: u8) -> Result<Seq<EntryView>, Fault>
    decreases b.len(),
{
    if b.len() == 0 {
        Ok(Seq::<EntryView>::empty())
    } else {
        match head_fault(b, level) {
            Some(f) => Err(f),
            None => prepend(
                seq![decode(b.take(b[0] * 8))],
                stored_entries(b.skip(b[0] * 8), level),
            ),
        }
    }
}

/// The entries of a record of a node at `level` that starts at `sector` of
/// its extent and whose bset header lies at `off`.
pub open spec fn record_entries(record: Seq<u8>, off: int, sector: u16, level: u8) -> Result<
    Seq<EntryView>,
    Fault,
> {
    if off + BSET_HEADER_BYTES > record.len() {
        Err(Fault::TruncatedBset)
    } else {
        let h = BsetHeader::spec_at(record, off);
        let start = off + BSET_HEADER_BYTES;
        if h.version != BTREE_NODE_VERSION || h.flags / 65536 != sector {
            Err(Fault::BsetMismatch)
        } else if start + h.u64s * 8 > record.len() {
            Err(Fault::BsetOverrun)
        } else {
            stored_entries(record.subrange(start, start + h.u64s * 8), level)
        }
    }
}

/// Whether a length cannot be that of a record with `available` bytes left.
pub open spec fn bad_record_len(record_bytes: int, available: int) -> bool {
    record_bytes == 0 || record_bytes % 4096 != 0 || record_bytes > available
}

pub fn validate_record_len(record_bytes: usize, available: usize) -> (r: Result<(), StorageError>)
    ensures
        r == (if bad_record_len(record_bytes as int, available as int) {
            Err::<(), StorageError>(
                StorageError::InvalidData(
                    Fault::RecordLength { record: record_bytes as u64, available: available as u64 },
                ),
            )
        } else {
            Ok::<(), StorageError>(())
        }),
{
    if record_bytes == 0 || record_bytes % BLOCK_SIZE != 0 || record_bytes > available {
        return Err(
            StorageError::InvalidData(
                Fault::RecordLength { record: record_bytes as u64, available: available as u64 },
            ),
        );
    }
    Ok(())
}

/// Reads the entries of a record of a node at `level`.
pub fn parse_record_bset(
    record: &[u8],
    bset_offset: usize,
    expected_sector_offset: u16,
    level: u8,
) -> (r: Result<Vec<BtreeEntry>, StorageError>)
    requires
        bset_offset <= 0x1000,
    ensures
        match record_entries(record@, bset_offset as int, expected_sector_offset, level) {
            Ok(es) => r matches Ok(v) && views(v@) == es && all_read_at(level, v@),
            Err(f) => r matches Err(e) && e == StorageError::InvalidData(f),
        },
{
    if bset_offset + BSET_HEADER_BYTES > record.len() {
        return Err(StorageError::InvalidData(Fault::TruncatedBset));
    }
    let h = BsetHeader::read_at(record, bset_offset);
    if h.version != BTREE_NODE_VERSION || h.flags / 65536 != expected_sector_offset as u32 {
        return Err(StorageError::InvalidData(Fault::BsetMismatch));
    }
    let start: usize = bset_offset + BSET_HEADER_BYTES;
    let end: usize = start + h.data_bytes();
    if end > record.len() {
        return Err(StorageError::InvalidData(Fault::BsetOverrun));
    }
    let ghost d = record@;
    let ghost whole = d.subrange(start as int, end as int);
    let mut out: Vec<BtreeEntry> = Vec::new();
    let mut off: usize = start;
    proof {
        assert(views(out@) =~= Seq::<EntryView>::empty());
        assert(prepend(views(out@), stored_entries(whole, level)) =~= stored_entries(whole, level))
            by {
            if let Ok(s) = stored_entries(whole, level) {
                assert(views(out@) + s =~= s);
            }
        }
    }
    while off < end
        invariant
            d == record@,
            start <= off <= end <= d.len(),
            whole == d.subrange(start as int, end as int),
            stored_entries(whole, level) == prepend(
                views(out@),
                stored_entries(d.subrange(off as int, end as int), level),
            ),
            record_entries(record@, bset_offset as int, expected_sector_offset, level)
                == stored_entries(whole, level),
            all_read_at(level, out@),
        decreases end - off,
    {
        let ghost rest = d.subrange(off as int, end as int);
        proof {
            assert(rest.len() > 0);
            assert(rest[0] == d[off as int]);
        }
        if end - off < 3 {
            return Err(StorageError::InvalidData(Fault::TruncatedKey));
        }
        let u64s: usize = record[off] as usize;
        if u64s == 0 {
            return Err(StorageError::InvalidData(Fault::ZeroSizedKey));
        }
        let bytes: usize = u64s * 8;
        if bytes > end - off {
            return Err(StorageError::InvalidData(Fault::KeyOverrun));
        }
        if u64s < 3 {
            return Err(StorageError::InvalidData(Fault::ShortKey));
        }
        if level > 0 && u64s == 5 {
            let value = slice_subrange(record, off + 24, off + 40);
            assert(value@ =~= rest.subrange(24, 40));
            if BtreePtrV2::from_bytes(value).is_none() {
                return Err(StorageError::InvalidData(Fault::BadPointerValue));
            }
        }
        let ghost o0 = views(out@);
        let e = read_full(record, off, level);
        proof {
            assert(head_fault(rest, level) is None);
            assert(rest.take(bytes as int) =~= d.subrange(off as int, off + bytes));
            assert(e@ == decode(rest.take(bytes as int)));
            assert(rest.skip(bytes as int) =~= d.subrange(off + bytes, end as int));
        }
        let ghost ev = e@;
        out.push(e);
        proof {
            assert(views(out@) =~= o0.push(ev));
            let tail = stored_entries(d.subrange(off + bytes, end as int), level);
            if let Ok(s) = tail {
                assert(o0 + (seq![ev] + s) =~= o0.push(ev) + s);
            }
        }
        off = off + bytes;
    }
    proof {
        assert(d.subrange(end as int, end as int) =~= Seq::<u8>::empty());
        assert(views(out@) + Seq::<EntryView>::empty() =~= views(out@));
    }
    Ok(out)
}

/// The number of the first entry at `pos`; the length of the run where there
/// is none.
pub open spec fn pos_index(es: Seq<EntryView>, pos: Bpos) -> int
    decreases es.len(),
{
    if es.len() == 0 || es[0].pos == pos {
        0
    } else {
        1 + pos_index(es.skip(1), pos)
    }
}

/// The run with `e` in the place of the entry at its position, or behind all
/// entries where there is none.
pub open spec fn put_latest(es: Seq<EntryView>, e: EntryView) -> Seq<EntryView> {
    let i = pos_index(es, e.pos);
    if i < es.len() {
        es.update(i, e)
    } else {
        es.push(e)
    }
}

/// The run `acc` after the entries `es` were put, one after the other.
pub open spec fn put_all(acc: Seq<EntryView>, es: Seq<EntryView>) -> Seq<EntryView>
    decreases es.len(),
{
    if es.len() == 0 {
        acc
    } else {
        put_latest(put_all(acc, es.drop_last()), es.last())
    }
}

proof fn lemma_pos_index(es: Seq<EntryView>, pos: Bpos, i: int)
    requires
        0 <= i <= es.len(),
        forall|j: int| 0 <= j < i ==> (#[trigger] es[j]).pos != pos,
        i < es.len() ==> es[i].pos == pos,
    ensures
        pos_index(es, pos) == i,
    decreases es.len(),
{
    if es.len() > 0 && i > 0 {
        assert(es[0].pos != pos);
        let t = es.skip(1);
        assert forall|j: int| 0 <= j < i - 1 implies (#[trigger] t[j]).pos != pos by {
            assert(t[j] == es[j + 1]);
        }
        lemma_pos_index(t, pos, i - 1);
    }
}

/// Puts entries into `acc`, each in the place of the one at its position.
fn put_entries(acc: &mut Vec<BtreeEntry>, es: &Vec<BtreeEntry>)
    ensures
        views(final(acc)@) == put_all(views(old(acc)@), views(es@)),
{
    let ghost a0 = views(acc@);
    let ghost ev = views(es@);
    let mut k: usize = 0;
    assert(ev.take(0) =~= Seq::<EntryView>::empty());
    while k < es.len()
        invariant
            k <= es@.len(),
            ev == views(es@),
            views(acc@) == put_all(a0, ev.take(k as int)),
        decreases es@.len() - k,
    {
        let ghost cur = views(acc@);
        let e = es[k].duplicate();
        let n: usize = acc.len();
        let mut i: usize = 0;
        while i < n && acc[i].pos != e.pos
            invariant
                i <= n,
                n == acc@.len(),
                cur == views(acc@),
                forall|j: int| 0 <= j < i ==> (#[trigger] cur[j]).pos != e.pos,
            decreases n - i,
        {
            assert(cur[i as int] == acc@[i as int]@);
            i = i + 1;
        }
        proof {
            if i < n {
                assert(cur[i as int] == acc@[i as int]@);
            }
            lemma_pos_index(cur, e.pos, i as int);
            assert(ev.take(k + 1).drop_last() =~= ev.take(k as int));
            assert(ev.take(k + 1).last() == es@[k as int]@);
        }
        let ghost view = e@;
        if i < n {
            acc.set(i, e);
            assert(views(acc@) =~= cur.update(i as int, view));
        } else {
            acc.push(e);
            assert(views(acc@) =~= cur.push(view));
        }
        k = k + 1;
    }
    assert(ev.take(ev.len() as int) =~= ev);
}

/// What an extent holds.
pub struct ExtentView {
    /// The live entries in key order.
    pub entries: Seq<EntryView>,
    pub min_key: Bpos,
    pub max_key: Bpos,
    /// The latest journal entry of any record.
    pub seq: u64,
}

pub open spec fn max_u64(a: u64, b: u64) -> u64 {
    if a >= b {
        a
    } else {
        b
    }
}

/// The latest entry at each position and the latest journal entry after the
/// append records from `off` up to `end` of `data`.
pub open spec fn read_appends(
    data: Seq<u8>,
    ptr: BtreePtrV2,
    off: int,
    end: int,
    acc: Seq<EntryView>,
    seq: u64,
) -> Result<(Seq<EntryView>, u64), StorageError>
    decreases end - off,
{
    if off >= end {
        Ok((acc, seq))
    } else if end - off < DISK_ENTRY_BYTES {
        Err(StorageError::InvalidData(Fault::TruncatedAppendHeader))
    } else {
        let h = BtreeNodeDiskEntry::spec_at(data, off);
        let len = h.record_bytes as int;
        let record = data.subrange(off, off + len);
        if h.magic != BTREE_NODE_ENTRY_MAGIC || h.version != BTREE_NODE_VERSION || h.generation
            != ptr.generation {
            Err(StorageError::InvalidData(Fault::AppendMismatch))
        } else if bad_record_len(len, end - off) {
            Err(
                StorageError::InvalidData(
                    Fault::RecordLength { record: len as u64, available: (end - off) as u64 },
                ),
            )
        } else if record_crc(record, ENTRY_CRC_OFFSET as int) != h.crc32 {
            Err(
                StorageError::ChecksumMismatch {
                    expected: h.crc32,
                    actual: record_crc(record, ENTRY_CRC_OFFSET as int),
                },
            )
        } else {
            match record_entries(record, DISK_ENTRY_BYTES as int, (off / 512) as u16, ptr.level) {
                Err(f) => Err(StorageError::InvalidData(f)),
                Ok(es) => read_appends(
                    data,
                    ptr,
                    off + len,
                    end,
                    put_all(acc, es),
                    max_u64(seq, h.seq),
                ),
            }
        }
    }
}

/// The bytes that a pointer commits.
pub open spec fn committed(ptr: BtreePtrV2) -> int {
    ptr.sectors_written * 512
}

/// What the extent `data` that `ptr` points to holds.
#[verifier::opaque]
pub open spec fn read_extent_spec(data: Seq<u8>, ptr: BtreePtrV2) -> Result<
    ExtentView,
    StorageError,
> {
    let end = committed(ptr);
    if !ptr.spec_is_valid() {
        Err(StorageError::InvalidData(Fault::InvalidPointer))
    } else if ptr.sectors_written % SECTORS_PER_BLOCK != 0 {
        Err(StorageError::InvalidData(Fault::PointerNotAligned))
    } else if data.len() < end {
        Err(
            StorageError::InvalidData(
                Fault::ExtentTooShort { have: data.len() as u64, committed: end as u64 },
            ),
        )
    } else if end < NODE_HEADER_BYTES {
        Err(StorageError::InvalidData(Fault::ShortInitialHeader))
    } else {
        let h = BtreeNodeHeader::spec_from_bytes(data);
        let len = h.record_bytes as int;
        let record = data.subrange(0, len);
        if h.magic != BTREE_NODE_MAGIC || h.version != BTREE_NODE_VERSION || h.level != ptr.level
            || h.bucket_addr != ptr.block_addr || h.generation != ptr.generation {
            Err(StorageError::InvalidData(Fault::InitialMismatch))
        } else if bad_record_len(len, end) {
            Err(
                StorageError::InvalidData(
                    Fault::RecordLength { record: len as u64, available: end as u64 },
                ),
            )
        } else if record_crc(record, NODE_CRC_OFFSET as int) != h.crc32 {
            Err(
                StorageError::ChecksumMismatch {
                    expected: h.crc32,
                    actual: record_crc(record, NODE_CRC_OFFSET as int),
                },
            )
        } else {
            match record_entries(record, NODE_HEADER_BYTES as int, 0, ptr.level) {
                Err(f) => Err(StorageError::InvalidData(f)),
                Ok(es) => if es.len() != h.key_count {
                    Err(StorageError::InvalidData(Fault::KeyCountMismatch))
                } else {
                    match read_appends(
                        data,
                        ptr,
                        len,
                        end,
                        put_all(Seq::<EntryView>::empty(), es),
                        h.seq,
                    ) {
                        Err(e) => Err(e),
                        Ok((acc, seq)) => {
                            let entries = stable_sort(undeleted(acc), false);
                            if total_size(entries) > DEFAULT_NODE_SIZE {
                                Err(StorageError::InvalidData(Fault::CapacityExceeded))
                            } else {
                                Ok(
                                    ExtentView {
                                        entries,
                                        min_key: h.spec_min_key(),
                                        max_key: h.spec_max_key(),
                                        seq,
                                    },
                                )
                            }
                        },
                    }
                },
            }
        }
    }
}

/// The entries without the tombstones.
fn drop_deleted(v: Vec<BtreeEntry>) -> (r: Vec<BtreeEntry>)
    ensures
        views(r@) == undeleted(views(v@)),
{
    let ghost es = views(v@);
    let mut r: Vec<BtreeEntry> = Vec::with_capacity(v.len());
    let mut j: usize = 0;
    assert(views(r@) =~= undeleted(es.take(0)));
    while j < v.len()
        invariant
            j <= v@.len(),
            es == views(v@),
            views(r@) == undeleted(es.take(j as int)),
        decreases v@.len() - j,
    {
        proof {
            assert(es.take(j + 1).drop_last() =~= es.take(j as int));
            assert(es.take(j + 1).last() == v[j as int]@);
        }
        if v[j].key_type != KeyType::Deleted {
            let ghost r0 = views(r@);
            let e = v[j].duplicate();
            let ghost ev = e@;
            r.push(e);
            assert(views(r@) =~= r0.push(ev));
        }
        j = j + 1;
    }
    assert(es.take(es.len() as int) =~= es);
    r
}

/// The bytes that entries take, where that is no more than a node holds.
fn total_of(v: &Vec<BtreeEntry>) -> (r: Option<usize>)
    requires
        all_fit(views(v@)),
    ensures
        r is Some == (total_size(views(v@)) <= DEFAULT_NODE_SIZE),
        r matches Some(n) ==> n == total_size(views(v@)),
{
    let ghost es = views(v@);
    let mut total: usize = 0;
    let mut i: usize = 0;
    proof {
        assert(es.take(0) =~= Seq::<EntryView>::empty());
    }
    while i < v.len()
        invariant
            i <= v@.len(),
            es == views(v@),
            all_fit(es),
            total == total_size(es.take(i as int)),
            total <= DEFAULT_NODE_SIZE,
        decreases v@.len() - i,
    {
        proof {
            lemma_take_step(es, i as int);
            assert(es[i as int] == v@[i as int]@);
        }
        let size: usize = v[i].packed_size();
        if total + size > DEFAULT_NODE_SIZE as usize {
            return None;
        }
        total = total + size;
        i = i + 1;
    }
    assert(es.take(es.len() as int) =~= es);
    Some(total)
}

/// Stored entries have sizes that fit their size byte, and whole-u64 values.
proof fn lemma_stored_shape(b: Seq<u8>, level: u8)
    ensures
        stored_entries(b, level) matches Ok(es) ==> all_fit(es) && all_padded(es) == es
            && total_size(es) == b.len(),
    decreases b.len(),
{
    if b.len() > 0 && head_fault(b, level) is None {
        let h = b[0] * 8;
        lemma_stored_shape(b.skip(h), level);
        if let Ok(t) = stored_entries(b.skip(h), level) {
            let e = decode(b.take(h));
            let es = seq![e] + t;
            assert(e.value.len() == h - 24);
            crate::key::lemma_padded(e);
            assert forall|i: int| 0 <= i < es.len() implies (#[trigger] es[i]).fits() by {
                if i > 0 {
                    assert(es[i] == t[i - 1]);
                }
            }
            assert(all_padded(es) =~= seq![e.padded()] + all_padded(t));
            assert(es.skip(1) =~= t);
        }
    } else if b.len() == 0 {
        assert(all_padded(Seq::<EntryView>::empty()) =~= Seq::<EntryView>::empty());
    }
}

/// Whether every entry fits its size byte and is padded.
pub open spec fn clean(es: Seq<EntryView>) -> bool {
    forall|i: int| 0 <= i < es.len() ==> (#[trigger] es[i]).fits() && es[i].padded() == es[i]
}

proof fn lemma_clean_put_all(acc: Seq<EntryView>, es: Seq<EntryView>)
    requires
        clean(acc),
        clean(es),
    ensures
        clean(put_all(acc, es)),
    decreases es.len(),
{
    if es.len() > 0 {
        let f = es.drop_last();
        assert forall|i: int| 0 <= i < f.len() implies (#[trigger] f[i]).fits() && f[i].padded()
            == f[i] by {
            assert(f[i] == es[i]);
        }
        lemma_clean_put_all(acc, f);
        assert(es[es.len() - 1].fits());
        lemma_pos_index_range(put_all(acc, f), es.last().pos);
    }
}

proof fn lemma_pos_index_range(es: Seq<EntryView>, pos: Bpos)
    ensures
        0 <= pos_index(es, pos) <= es.len(),
        forall|j: int| 0 <= j < pos_index(es, pos) ==> (#[trigger] es[j]).pos != pos,
        pos_index(es, pos) < es.len() ==> es[pos_index(es, pos)].pos == pos,
    decreases es.len(),
{
    if es.len() > 0 && es[0].pos != pos {
        let t = es.skip(1);
        lemma_pos_index_range(t, pos);
        assert forall|j: int| 0 <= j < pos_index(es, pos) implies (#[trigger] es[j]).pos != pos by {
            if j > 0 {
                assert(es[j] == t[j - 1]);
            }
        }
    }
}

proof fn lemma_clean_sub(a: Seq<EntryView>, b: Seq<EntryView>)
    requires
        clean(a),
        forall|x: EntryView| #[trigger] b.contains(x) ==> a.contains(x),
    ensures
        clean(b),
        all_fit(b),
        all_padded(b) == b,
{
    assert forall|i: int| 0 <= i < b.len() implies (#[trigger] b[i]).fits() && b[i].padded()
        == b[i] by {
        assert(b.contains(b[i]));
        let j = choose|j: int| 0 <= j < a.len() && a[j] == b[i];
        assert(a[j].fits());
    }
    assert(all_padded(b) =~= b);
}

proof fn lemma_clean_stored(b: Seq<u8>, level: u8)
    ensures
        stored_entries(b, level) matches Ok(es) ==> clean(es),
{
    lemma_stored_shape(b, level);
    if let Ok(es) = stored_entries(b, level) {
        assert forall|i: int| 0 <= i < es.len() implies (#[trigger] es[i]).fits() && es[i].padded()
            == es[i] by {
            assert(all_padded(es)[i] == es[i].padded());
        }
    }
}

impl BtreeNode {
    /// Whether the node is a new node at `level` but for what the extent holds.
    pub open spec fn is_loaded(self, level: u8, x: ExtentView) -> bool {
        &&& self.holds_packed(x.entries)
        &&& self.all() == x.entries
        &&& self.level == level
        &&& self.min_key == x.min_key
        &&& self.max_key == x.max_key
        &&& self.journal_seq == x.seq
        &&& self.node_size == DEFAULT_NODE_SIZE
        &&& self.data@.len() == DEFAULT_NODE_SIZE
        &&& self.whiteout_count == 0
        &&& self.lock.seq == 0
        &&& self.refcount == 1
        &&& self.state == 0
        &&& self.flags == 0
        &&& self.block_addr == 0
        &&& !self.will_make_reachable
        &&& self.pin_count == 0
        &&& self.journal_pin is None
        &&& !self.read_in_flight
    }

    /// Reads the append records from `off` up to `end` into `latest`; returns
    /// the latest journal entry.
    fn read_append_records(
        data: &[u8],
        ptr: &BtreePtrV2,
        off: usize,
        end: usize,
        latest: &mut Vec<BtreeEntry>,
        seq: u64,
    ) -> (r: Result<u64, StorageError>)
        requires
            off <= end <= data@.len(),
            end <= 0xffff * 512,
            clean(views(old(latest)@)),
        ensures
            match read_appends(data@, *ptr, off as int, end as int, views(old(latest)@), seq) {
                Ok((acc, s)) => r == Ok::<u64, StorageError>(s) && views(final(latest)@) == acc,
                Err(e) => r == Err::<u64, StorageError>(e),
            },
            clean(views(final(latest)@)),
    {
        let ghost all = read_appends(
            data@,
            *ptr,
            off as int,
            end as int,
            views(latest@),
            seq,
        );
        let mut cur: usize = off;
        let mut max_seq: u64 = seq;
        while cur < end
            invariant
                cur <= end <= data@.len(),
                end <= 0xffff * 512,
                clean(views(latest@)),
                all == read_appends(
                    data@,
                    *ptr,
                    off as int,
                    end as int,
                    views(old(latest)@),
                    seq,
                ),
                all == read_appends(
                    data@,
                    *ptr,
                    cur as int,
                    end as int,
                    views(latest@),
                    max_seq,
                ),
            decreases end - cur,
        {
            if end - cur < DISK_ENTRY_BYTES {
                return Err(StorageError::InvalidData(Fault::TruncatedAppendHeader));
            }
            let h = BtreeNodeDiskEntry::read_at(data, cur);
            if h.magic != BTREE_NODE_ENTRY_MAGIC || h.version != BTREE_NODE_VERSION || h.generation
                != ptr.generation {
                return Err(StorageError::InvalidData(Fault::AppendMismatch));
            }
            let len: usize = h.record_bytes as usize;
            match validate_record_len(len, end - cur) {
                Ok(()) => {},
                Err(e) => {
                    return Err(e);
                },
            }
            let record = slice_subrange(data, cur, cur + len);
            match verify_record_crc(record, ENTRY_CRC_OFFSET, h.crc32) {
                Ok(()) => {},
                Err(e) => {
                    return Err(e);
                },
            }
            let sector: u16 = (cur / SECTOR_SIZE) as u16;
            let entries: Vec<BtreeEntry> = match parse_record_bset(
                record,
                DISK_ENTRY_BYTES,
                sector,
                ptr.level,
            ) {
                Ok(es) => es,
                Err(e) => {
                    return Err(e);
                },
            };
            proof {
                lemma_clean_record(record@, DISK_ENTRY_BYTES as int, sector, ptr.level);
                lemma_clean_put_all(views(latest@), views(entries@));
            }
            put_entries(latest, &entries);
            if h.seq > max_seq {
                max_seq = h.seq;
            }
            cur = cur + len;
        }
        Ok(max_seq)
    }

    /// Builds the node that `entries` make up.
    fn from_entries(level: u8, entries: &Vec<BtreeEntry>, min_key: Bpos, max_key: Bpos, seq: u64) -> (r:
        BtreeNode)
        requires
            all_fit(views(entries@)),
            all_padded(views(entries@)) == views(entries@),
            total_size(views(entries@)) <= DEFAULT_NODE_SIZE,
            ordered(views(entries@), false),
        ensures
            r.wf(),
            r.is_loaded(level, ExtentView { entries: views(entries@), min_key, max_key, seq }),
    {
        let mut node = BtreeNode::new(level);
        proof {
            assert(views(entries@).subrange(0, entries@.len() as int) =~= views(entries@));
        }
        node.repack(entries, 0, entries.len());
        node.set_range(min_key, max_key);
        node.set_journal_seq(seq);
        node
    }

    /// Notes the journal entry that changed the node last.
    pub fn set_journal_seq(&mut self, seq: u64)
        ensures
            *final(self) == (BtreeNode { journal_seq: seq, ..*old(self) }),
            final(self).wf() == old(self).wf(),
            final(self).all() == old(self).all(),
            forall|i: int| #[trigger] final(self).run(i) == old(self).run(i),
    {
        self.journal_seq = seq;
        proof {
            crate::node_split::lemma_wf_same(*old(self), *self);
        }
    }

    /// Reads the node that `ptr` points to out of its extent: the initial
    /// record and all append records up to the sectors that the pointer
    /// commits. Later records win their positions; tombstones go.
    pub fn deserialize_from_extent(data: &[u8], ptr: BtreePtrV2) -> (r: Result<
        BtreeNode,
        StorageError,
    >)
        ensures
            match read_extent_spec(data@, ptr) {
                Ok(x) => r matches Ok(node) && node.wf() && node.is_loaded(ptr.level, x),
                Err(e) => r matches Err(f) && f == e,
            },
    {
        proof {
            reveal(read_extent_spec);
        }
        if !ptr.is_valid() {
            return Err(StorageError::InvalidData(Fault::InvalidPointer));
        }
        if ptr.sectors_written % SECTORS_PER_BLOCK != 0 {
            return Err(StorageError::InvalidData(Fault::PointerNotAligned));
        }
        let end: usize = ptr.sectors_written as usize * SECTOR_SIZE;
        if data.len() < end {
            return Err(
                StorageError::InvalidData(
                    Fault::ExtentTooShort { have: data.len() as u64, committed: end as u64 },
                ),
            );
        }
        if end < NODE_HEADER_BYTES {
            return Err(StorageError::InvalidData(Fault::ShortInitialHeader));
        }
        let h = BtreeNodeHeader::from_bytes(data);
        if h.magic != BTREE_NODE_MAGIC || h.version != BTREE_NODE_VERSION || h.level != ptr.level
            || h.bucket_addr != ptr.block_addr || h.generation != ptr.generation {
            return Err(StorageError::InvalidData(Fault::InitialMismatch));
        }
        let len: usize = h.record_bytes as usize;
        match validate_record_len(len, end) {
            Ok(()) => {},
            Err(e) => {
                return Err(e);
            },
        }
        let record = slice_subrange(data, 0, len);
        match verify_record_crc(record, NODE_CRC_OFFSET, h.crc32) {
            Ok(()) => {},
            Err(e) => {
                return Err(e);
            },
        }
        let entries: Vec<BtreeEntry> = match parse_record_bset(
            record,
            NODE_HEADER_BYTES,
            0,
            ptr.level,
        ) {
            Ok(es) => es,
            Err(e) => {
                return Err(e);
            },
        };
        if entries.len() != h.key_count as usize {
            return Err(StorageError::InvalidData(Fault::KeyCountMismatch));
        }
        let mut latest: Vec<BtreeEntry> = Vec::new();
        proof {
            assert(views(latest@) =~= Seq::<EntryView>::empty());
            lemma_clean_record(record@, NODE_HEADER_BYTES as int, 0, ptr.level);
            lemma_clean_put_all(Seq::<EntryView>::empty(), views(entries@));
        }
        put_entries(&mut latest, &entries);
        let seq: u64 = match BtreeNode::read_append_records(
            data,
            &ptr,
            len,
            end,
            &mut latest,
            h.seq,
        ) {
            Ok(s) => s,
            Err(e) => {
                return Err(e);
            },
        };
        let ghost acc = views(latest@);
        let kept: Vec<BtreeEntry> = sort_entries(drop_deleted(latest), false);
        proof {
            lemma_undeleted(acc);
            lemma_stable_sort(undeleted(acc), false);
            lemma_clean_sub(acc, views(kept@));
        }
        if total_of(&kept).is_none() {
            return Err(StorageError::InvalidData(Fault::CapacityExceeded));
        }
        Ok(BtreeNode::from_entries(ptr.level, &kept, h.min_key(), h.max_key(), seq))
    }

    /// The pointer to an extent that consists of the initial record `data`.
    pub open spec fn initial_ptr(data: Seq<u8>) -> BtreePtrV2 {
        let h = BtreeNodeHeader::spec_from_bytes(data);
        BtreePtrV2 {
            block_addr: h.bucket_addr,
            sectors_written: (h.record_bytes / 512 % 65536) as u16,
            level: h.level,
            generation: h.generation,
        }
    }

    /// Reads a node out of its initial record alone.
    pub fn deserialize_from_bucket(data: &[u8]) -> (r: Result<BtreeNode, StorageError>)
        ensures
            ({
                let h = BtreeNodeHeader::spec_from_bytes(data@);
                let len = h.record_bytes as int;
                if data@.len() < NODE_HEADER_BYTES {
                    r matches Err(e) && e == StorageError::InvalidData(Fault::ShortHeader)
                } else if h.magic != BTREE_NODE_MAGIC || h.version != BTREE_NODE_VERSION {
                    r matches Err(e) && e == StorageError::InvalidData(
                        Fault::UnsupportedVersion(h.version),
                    )
                } else if bad_record_len(len, data@.len() as int) {
                    r matches Err(e) && e == StorageError::InvalidData(
                        Fault::RecordLength { record: len as u64, available: data@.len() as u64 },
                    )
                } else {
                    match read_extent_spec(data@.subrange(0, len), BtreeNode::initial_ptr(data@)) {
                        Ok(x) => r matches Ok(node) && node.wf() && node.is_loaded(h.level, x),
                        Err(e) => r matches Err(f) && f == e,
                    }
                }
            }),
    {
        if data.len() < NODE_HEADER_BYTES {
            return Err(StorageError::InvalidData(Fault::ShortHeader));
        }
        let h = BtreeNodeHeader::from_bytes(data);
        if h.magic != BTREE_NODE_MAGIC || h.version != BTREE_NODE_VERSION {
            return Err(StorageError::InvalidData(Fault::UnsupportedVersion(h.version)));
        }
        let len: usize = h.record_bytes as usize;
        match validate_record_len(len, data.len()) {
            Ok(()) => {},
            Err(e) => {
                return Err(e);
            },
        }
        let ptr = BtreePtrV2 {
            block_addr: h.bucket_addr,
            sectors_written: (h.record_bytes / 512 % 65536) as u16,
            level: h.level,
            generation: h.generation,
        };
        BtreeNode::deserialize_from_extent(slice_subrange(data, 0, len), ptr)
    }
}

proof fn lemma_clean_record(record: Seq<u8>, off: int, sector: u16, level: u8)
    ensures
        record_entries(record, off, sector, level) matches Ok(es) ==> clean(es),
{
    if off + BSET_HEADER_BYTES <= record.len() {
        let h = BsetHeader::spec_at(record, off);
        let start = off + BSET_HEADER_BYTES;
        lemma_clean_stored(record.subrange(start, start + h.u64s * 8), level);
    }
}

} // verus!
