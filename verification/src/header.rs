//! The headers of node records on disk.

use crate::key::Bpos;
use crate::le::{
    get_le, le_at, le_bytes, lemma_le_bytes_len, lemma_le_roundtrip, lemma_pow256_values, put_bytes,
    put_le, zeros,
};
use vstd::prelude::*;

verus! {

/// Marks the initial record of a node.
pub const BTREE_NODE_MAGIC: u32 = 0x5654_4e42;

/// Marks an append record.
pub const BTREE_NODE_ENTRY_MAGIC: u32 = 0x4554_4e42;

/// The version of the record format; no other is read.
pub const BTREE_NODE_VERSION: u16 = 3;

/// The unit of I/O.
pub const BLOCK_SIZE: usize = 4096;

/// The unit of persistent pointers.
pub const SECTOR_SIZE: usize = 512;

pub const SECTORS_PER_BLOCK: u16 = 8;

pub const NODE_HEADER_BYTES: usize = 88;

pub const BSET_HEADER_BYTES: usize = 24;

pub const DISK_ENTRY_BYTES: usize = 32;

/// Where the checksum of an initial record lies.
pub const NODE_CRC_OFFSET: usize = 14;

/// Where the checksum of an append record lies.
pub const ENTRY_CRC_OFFSET: usize = 24;

/// The header of a bset on disk.
#[derive(Clone, Copy, Debug, PartialEq, Eq, Structural)]
pub struct BsetHeader {
    pub seq: u64,
    pub journal_seq: u64,
    /// The sector of the record in the upper half.
    pub flags: u32,
    pub version: u16,
    /// The u64s of packed entries, header not included.
    pub u64s: u16,
}

/// The header of an initial record.
#[derive(Clone, Copy, Debug, PartialEq, Eq, Structural)]
pub struct BtreeNodeHeader {
    pub magic: u32,
    pub version: u16,
    pub level: u8,
    pub node_type: u8,
    pub key_count: u32,
    pub bset_count: u16,
    pub crc32: u32,
    pub seq: u64,
    pub bucket_addr: u64,
    pub generation: u32,
    pub record_bytes: u32,
    pub min_key_inode: u64,
    pub min_key_offset: u64,
    pub min_key_snapshot: u32,
    pub max_key_inode: u64,
    pub max_key_offset: u64,
    pub max_key_snapshot: u32,
}

/// The header of an append record.
#[derive(Clone, Copy, Debug, PartialEq, Eq, Structural)]
pub struct BtreeNodeDiskEntry {
    pub magic: u32,
    pub version: u16,
    pub _flags: u16,
    pub seq: u64,
    pub generation: u32,
    pub record_bytes: u32,
    pub crc32: u32,
    pub _pad: u32,
}

impl BsetHeader {
    /// The twenty-four bytes of the header.
    pub open spec fn spec_bytes(self) -> Seq<u8> {
        le_bytes(self.seq as nat, 8) + le_bytes(self.journal_seq as nat, 8) + le_bytes(
            self.flags as nat,
            4,
        ) + le_bytes(self.version as nat, 2) + le_bytes(self.u64s as nat, 2)
    }

    /// The header that starts at `off` of `b`.
    pub open spec fn spec_at(b: Seq<u8>, off: int) -> BsetHeader {
        BsetHeader {
            seq: le_at(b, off, 8) as u64,
            journal_seq: le_at(b, off + 8, 8) as u64,
            flags: le_at(b, off + 16, 4) as u32,
            version: le_at(b, off + 20, 2) as u16,
            u64s: le_at(b, off + 22, 2) as u16,
        }
    }

    /// The bytes of packed entries.
    pub fn data_bytes(&self) -> (r: usize)
        ensures
            r == self.u64s * 8,
    {
        self.u64s as usize * 8
    }

    pub fn to_bytes(&self) -> (r: Vec<u8>)
        ensures
            r@ == self.spec_bytes(),
            r@.len() == BSET_HEADER_BYTES,
    {
        let mut r: Vec<u8> = zeros(BSET_HEADER_BYTES);
        put_le(&mut r, 0, 8, self.seq);
        put_le(&mut r, 8, 8, self.journal_seq);
        put_le(&mut r, 16, 4, self.flags as u64);
        put_le(&mut r, 20, 2, self.version as u64);
        put_le(&mut r, 22, 2, self.u64s as u64);
        proof {
            lemma_le_bytes_len(self.seq as nat, 8);
            lemma_le_bytes_len(self.journal_seq as nat, 8);
            lemma_le_bytes_len(self.flags as nat, 4);
            lemma_le_bytes_len(self.version as nat, 2);
            lemma_le_bytes_len(self.u64s as nat, 2);
            assert(r@ =~= self.spec_bytes());
        }
        r
    }

    pub fn read_at(b: &[u8], off: usize) -> (r: BsetHeader)
        requires
            off + BSET_HEADER_BYTES <= b@.len(),
        ensures
            r == BsetHeader::spec_at(b@, off as int),
    {
        let total: usize = b.len();
        proof {
            lemma_pow256_values();
        }
        let seq: u64 = get_le(b, off, 8);
        let journal_seq: u64 = get_le(b, off + 8, 8);
        let flags: u64 = get_le(b, off + 16, 4);
        let version: u64 = get_le(b, off + 20, 2);
        let u64s: u64 = get_le(b, off + 22, 2);
        BsetHeader {
            seq,
            journal_seq,
            flags: flags as u32,
            version: version as u16,
            u64s: u64s as u16,
        }
    }
}

/// A bset header reads back as it was written.
pub proof fn lemma_bset_header(h: BsetHeader, b: Seq<u8>, off: int)
    requires
        0 <= off,
        off + BSET_HEADER_BYTES <= b.len(),
        b.subrange(off, off + BSET_HEADER_BYTES) == h.spec_bytes(),
    ensures
        BsetHeader::spec_at(b, off) == h,
{
    lemma_pow256_values();
    lemma_le_roundtrip(h.seq as nat, 8);
    lemma_le_roundtrip(h.journal_seq as nat, 8);
    lemma_le_roundtrip(h.flags as nat, 4);
    lemma_le_roundtrip(h.version as nat, 2);
    lemma_le_roundtrip(h.u64s as nat, 2);
    let s = b.subrange(off, off + BSET_HEADER_BYTES);
    assert(b.subrange(off, off + 8) =~= s.subrange(0, 8));
    assert(b.subrange(off + 8, off + 16) =~= s.subrange(8, 16));
    assert(b.subrange(off + 16, off + 20) =~= s.subrange(16, 20));
    assert(b.subrange(off + 20, off + 22) =~= s.subrange(20, 22));
    assert(b.subrange(off + 22, off + 24) =~= s.subrange(22, 24));
    assert(s.subrange(0, 8) =~= le_bytes(h.seq as nat, 8));
    assert(s.subrange(8, 16) =~= le_bytes(h.journal_seq as nat, 8));
    assert(s.subrange(16, 20) =~= le_bytes(h.flags as nat, 4));
    assert(s.subrange(20, 22) =~= le_bytes(h.version as nat, 2));
    assert(s.subrange(22, 24) =~= le_bytes(h.u64s as nat, 2));
}

impl BtreeNodeHeader {
    /// The bytes before the checksum.
    pub open spec fn head_bytes(self) -> Seq<u8> {
        le_bytes(self.magic as nat, 4) + le_bytes(self.version as nat, 2) + seq![
            self.level,
            self.node_type,
        ] + le_bytes(self.key_count as nat, 4) + le_bytes(self.bset_count as nat, 2)
    }

    /// The bytes between the checksum and the key range.
    pub open spec fn place_bytes(self) -> Seq<u8> {
        le_bytes(self.seq as nat, 8) + le_bytes(self.bucket_addr as nat, 8) + le_bytes(
            self.generation as nat,
            4,
        ) + le_bytes(self.record_bytes as nat, 4)
    }

    /// The bytes of the key range.
    pub open spec fn range_bytes(self) -> Seq<u8> {
        le_bytes(self.min_key_inode as nat, 8) + le_bytes(self.min_key_offset as nat, 8) + le_bytes(
            self.min_key_snapshot as nat,
            4,
        ) + le_bytes(self.max_key_inode as nat, 8) + le_bytes(self.max_key_offset as nat, 8)
            + le_bytes(self.max_key_snapshot as nat, 4)
    }

    /// The eighty-eight bytes of the header; the last six are zero.
    pub open spec fn spec_bytes(self) -> Seq<u8> {
        self.head_bytes() + le_bytes(self.crc32 as nat, 4) + self.place_bytes()
            + self.range_bytes() + seq![0u8, 0u8, 0u8, 0u8, 0u8, 0u8]
    }

    /// The header that `b` starts with.
    pub open spec fn spec_from_bytes(b: Seq<u8>) -> BtreeNodeHeader {
        BtreeNodeHeader {
            magic: le_at(b, 0, 4) as u32,
            version: le_at(b, 4, 2) as u16,
            level: b[6],
            node_type: b[7],
            key_count: le_at(b, 8, 4) as u32,
            bset_count: le_at(b, 12, 2) as u16,
            crc32: le_at(b, 14, 4) as u32,
            seq: le_at(b, 18, 8) as u64,
            bucket_addr: le_at(b, 26, 8) as u64,
            generation: le_at(b, 34, 4) as u32,
            record_bytes: le_at(b, 38, 4) as u32,
            min_key_inode: le_at(b, 42, 8) as u64,
            min_key_offset: le_at(b, 50, 8) as u64,
            min_key_snapshot: le_at(b, 58, 4) as u32,
            max_key_inode: le_at(b, 62, 8) as u64,
            max_key_offset: le_at(b, 70, 8) as u64,
            max_key_snapshot: le_at(b, 78, 4) as u32,
        }
    }

    pub open spec fn spec_min_key(self) -> Bpos {
        Bpos {
            inode: self.min_key_inode,
            offset: self.min_key_offset,
            snapshot: self.min_key_snapshot,
        }
    }

    pub open spec fn spec_max_key(self) -> Bpos {
        Bpos {
            inode: self.max_key_inode,
            offset: self.max_key_offset,
            snapshot: self.max_key_snapshot,
        }
    }

    pub fn min_key(&self) -> (r: Bpos)
        ensures
            r == self.spec_min_key(),
    {
        Bpos::new(self.min_key_inode, self.min_key_offset, self.min_key_snapshot)
    }

    pub fn set_min_key(&mut self, key: Bpos)
        ensures
            *final(self) == (BtreeNodeHeader {
                min_key_inode: key.inode,
                min_key_offset: key.offset,
                min_key_snapshot: key.snapshot,
                ..*old(self)
            }),
            final(self).spec_min_key() == key,
    {
        self.min_key_inode = key.inode;
        self.min_key_offset = key.offset;
        self.min_key_snapshot = key.snapshot;
    }

    pub fn max_key(&self) -> (r: Bpos)
        ensures
            r == self.spec_max_key(),
    {
        Bpos::new(self.max_key_inode, self.max_key_offset, self.max_key_snapshot)
    }

    pub fn set_max_key(&mut self, key: Bpos)
        ensures
            *final(self) == (BtreeNodeHeader {
                max_key_inode: key.inode,
                max_key_offset: key.offset,
                max_key_snapshot: key.snapshot,
                ..*old(self)
            }),
            final(self).spec_max_key() == key,
    {
        self.max_key_inode = key.inode;
        self.max_key_offset = key.offset;
        self.max_key_snapshot = key.snapshot;
    }

    pub fn to_bytes(&self) -> (r: Vec<u8>)
        ensures
            r@ == self.spec_bytes(),
            r@.len() == NODE_HEADER_BYTES,
    {
        let mut head: Vec<u8> = zeros(14);
        put_le(&mut head, 0, 4, self.magic as u64);
        put_le(&mut head, 4, 2, self.version as u64);
        head.set(6, self.level);
        head.set(7, self.node_type);
        put_le(&mut head, 8, 4, self.key_count as u64);
        put_le(&mut head, 12, 2, self.bset_count as u64);
        proof {
            lemma_header_lens(*self);
            assert(head@ =~= self.head_bytes());
        }
        let mut place: Vec<u8> = zeros(24);
        put_le(&mut place, 0, 8, self.seq);
        put_le(&mut place, 8, 8, self.bucket_addr);
        put_le(&mut place, 16, 4, self.generation as u64);
        put_le(&mut place, 20, 4, self.record_bytes as u64);
        proof {
            assert(place@ =~= self.place_bytes());
        }
        let mut range: Vec<u8> = zeros(40);
        put_le(&mut range, 0, 8, self.min_key_inode);
        put_le(&mut range, 8, 8, self.min_key_offset);
        put_le(&mut range, 16, 4, self.min_key_snapshot as u64);
        put_le(&mut range, 20, 8, self.max_key_inode);
        put_le(&mut range, 28, 8, self.max_key_offset);
        put_le(&mut range, 36, 4, self.max_key_snapshot as u64);
        proof {
            assert(range@ =~= self.range_bytes());
        }
        let mut r: Vec<u8> = zeros(NODE_HEADER_BYTES);
        put_bytes(&mut r, 0, head.as_slice());
        put_le(&mut r, 14, 4, self.crc32 as u64);
        put_bytes(&mut r, 18, place.as_slice());
        put_bytes(&mut r, 42, range.as_slice());
        proof {
            assert(r@ =~= self.spec_bytes());
        }
        r
    }

    pub fn from_bytes(b: &[u8]) -> (r: BtreeNodeHeader)
        requires
            b@.len() >= NODE_HEADER_BYTES,
        ensures
            r == BtreeNodeHeader::spec_from_bytes(b@),
    {
        proof {
            lemma_pow256_values();
        }
        let magic: u64 = get_le(b, 0, 4);
        let version: u64 = get_le(b, 4, 2);
        let key_count: u64 = get_le(b, 8, 4);
        let bset_count: u64 = get_le(b, 12, 2);
        let crc32: u64 = get_le(b, 14, 4);
        let seq: u64 = get_le(b, 18, 8);
        let bucket_addr: u64 = get_le(b, 26, 8);
        let generation: u64 = get_le(b, 34, 4);
        let record_bytes: u64 = get_le(b, 38, 4);
        let min_key_inode: u64 = get_le(b, 42, 8);
        let min_key_offset: u64 = get_le(b, 50, 8);
        let min_key_snapshot: u64 = get_le(b, 58, 4);
        let max_key_inode: u64 = get_le(b, 62, 8);
        let max_key_offset: u64 = get_le(b, 70, 8);
        let max_key_snapshot: u64 = get_le(b, 78, 4);
        BtreeNodeHeader {
            magic: magic as u32,
            version: version as u16,
            level: b[6],
            node_type: b[7],
            key_count: key_count as u32,
            bset_count: bset_count as u16,
            crc32: crc32 as u32,
            seq,
            bucket_addr,
            generation: generation as u32,
            record_bytes: record_bytes as u32,
            min_key_inode,
            min_key_offset,
            min_key_snapshot: min_key_snapshot as u32,
            max_key_inode,
            max_key_offset,
            max_key_snapshot: max_key_snapshot as u32,
        }
    }
}

pub proof fn lemma_header_lens(h: BtreeNodeHeader)
    ensures
        h.head_bytes().len() == 14,
        h.place_bytes().len() == 24,
        h.range_bytes().len() == 40,
        h.spec_bytes().len() == NODE_HEADER_BYTES,
        le_bytes(h.magic as nat, 4).len() == 4,
        le_bytes(h.version as nat, 2).len() == 2,
        le_bytes(h.key_count as nat, 4).len() == 4,
        le_bytes(h.bset_count as nat, 2).len() == 2,
        le_bytes(h.crc32 as nat, 4).len() == 4,
        le_bytes(h.seq as nat, 8).len() == 8,
        le_bytes(h.bucket_addr as nat, 8).len() == 8,
        le_bytes(h.generation as nat, 4).len() == 4,
        le_bytes(h.record_bytes as nat, 4).len() == 4,
        le_bytes(h.min_key_inode as nat, 8).len() == 8,
        le_bytes(h.min_key_offset as nat, 8).len() == 8,
        le_bytes(h.min_key_snapshot as nat, 4).len() == 4,
        le_bytes(h.max_key_inode as nat, 8).len() == 8,
        le_bytes(h.max_key_offset as nat, 8).len() == 8,
        le_bytes(h.max_key_snapshot as nat, 4).len() == 4,
{
    lemma_le_bytes_len(h.magic as nat, 4);
    lemma_le_bytes_len(h.version as nat, 2);
    lemma_le_bytes_len(h.key_count as nat, 4);
    lemma_le_bytes_len(h.bset_count as nat, 2);
    lemma_le_bytes_len(h.crc32 as nat, 4);
    lemma_le_bytes_len(h.seq as nat, 8);
    lemma_le_bytes_len(h.bucket_addr as nat, 8);
    lemma_le_bytes_len(h.generation as nat, 4);
    lemma_le_bytes_len(h.record_bytes as nat, 4);
    lemma_le_bytes_len(h.min_key_inode as nat, 8);
    lemma_le_bytes_len(h.min_key_offset as nat, 8);
    lemma_le_bytes_len(h.min_key_snapshot as nat, 4);
    lemma_le_bytes_len(h.max_key_inode as nat, 8);
    lemma_le_bytes_len(h.max_key_offset as nat, 8);
    lemma_le_bytes_len(h.max_key_snapshot as nat, 4);
}

/// A node header reads back as it was written, whatever follows it.
pub proof fn lemma_node_header(h: BtreeNodeHeader, b: Seq<u8>)
    requires
        b.len() >= NODE_HEADER_BYTES,
        b.take(NODE_HEADER_BYTES as int) == h.spec_bytes(),
    ensures
        BtreeNodeHeader::spec_from_bytes(b) == h,
        h.spec_bytes().len() == NODE_HEADER_BYTES,
{
    lemma_header_lens(h);
    lemma_pow256_values();
    let s = h.spec_bytes();
    assert forall|i: int| 0 <= i < NODE_HEADER_BYTES implies b[i] == s[i] by {
        assert(b.take(NODE_HEADER_BYTES as int)[i] == b[i]);
    }
    let hd = h.head_bytes();
    assert(b.subrange(0, 14) =~= hd);
    assert(b.subrange(14, 18) =~= le_bytes(h.crc32 as nat, 4));
    assert(b.subrange(18, 42) =~= h.place_bytes());
    assert(b.subrange(42, 82) =~= h.range_bytes());
    lemma_le_roundtrip(h.crc32 as nat, 4);
    // head
    assert(b.subrange(0, 4) =~= b.subrange(0, 14).subrange(0, 4));
    assert(b.subrange(4, 6) =~= b.subrange(0, 14).subrange(4, 6));
    assert(b.subrange(8, 12) =~= b.subrange(0, 14).subrange(8, 12));
    assert(b.subrange(12, 14) =~= b.subrange(0, 14).subrange(12, 14));
    assert(hd.subrange(0, 4) =~= le_bytes(h.magic as nat, 4));
    assert(hd.subrange(4, 6) =~= le_bytes(h.version as nat, 2));
    assert(hd.subrange(8, 12) =~= le_bytes(h.key_count as nat, 4));
    assert(hd.subrange(12, 14) =~= le_bytes(h.bset_count as nat, 2));
    assert(b[6] == b.subrange(0, 14)[6] && b[7] == b.subrange(0, 14)[7]);
    lemma_le_roundtrip(h.magic as nat, 4);
    lemma_le_roundtrip(h.version as nat, 2);
    lemma_le_roundtrip(h.key_count as nat, 4);
    lemma_le_roundtrip(h.bset_count as nat, 2);
    // place
    let pl = h.place_bytes();
    assert(b.subrange(18, 26) =~= b.subrange(18, 42).subrange(0, 8));
    assert(b.subrange(26, 34) =~= b.subrange(18, 42).subrange(8, 16));
    assert(b.subrange(34, 38) =~= b.subrange(18, 42).subrange(16, 20));
    assert(b.subrange(38, 42) =~= b.subrange(18, 42).subrange(20, 24));
    assert(pl.subrange(0, 8) =~= le_bytes(h.seq as nat, 8));
    assert(pl.subrange(8, 16) =~= le_bytes(h.bucket_addr as nat, 8));
    assert(pl.subrange(16, 20) =~= le_bytes(h.generation as nat, 4));
    assert(pl.subrange(20, 24) =~= le_bytes(h.record_bytes as nat, 4));
    lemma_le_roundtrip(h.seq as nat, 8);
    lemma_le_roundtrip(h.bucket_addr as nat, 8);
    lemma_le_roundtrip(h.generation as nat, 4);
    lemma_le_roundtrip(h.record_bytes as nat, 4);
    // range
    let rg = h.range_bytes();
    assert(b.subrange(42, 50) =~= b.subrange(42, 82).subrange(0, 8));
    assert(b.subrange(50, 58) =~= b.subrange(42, 82).subrange(8, 16));
    assert(b.subrange(58, 62) =~= b.subrange(42, 82).subrange(16, 20));
    assert(b.subrange(62, 70) =~= b.subrange(42, 82).subrange(20, 28));
    assert(b.subrange(70, 78) =~= b.subrange(42, 82).subrange(28, 36));
    assert(b.subrange(78, 82) =~= b.subrange(42, 82).subrange(36, 40));
    assert(rg.subrange(0, 8) =~= le_bytes(h.min_key_inode as nat, 8));
    assert(rg.subrange(8, 16) =~= le_bytes(h.min_key_offset as nat, 8));
    assert(rg.subrange(16, 20) =~= le_bytes(h.min_key_snapshot as nat, 4));
    assert(rg.subrange(20, 28) =~= le_bytes(h.max_key_inode as nat, 8));
    assert(rg.subrange(28, 36) =~= le_bytes(h.max_key_offset as nat, 8));
    assert(rg.subrange(36, 40) =~= le_bytes(h.max_key_snapshot as nat, 4));
    lemma_le_roundtrip(h.min_key_inode as nat, 8);
    lemma_le_roundtrip(h.min_key_offset as nat, 8);
    lemma_le_roundtrip(h.min_key_snapshot as nat, 4);
    lemma_le_roundtrip(h.max_key_inode as nat, 8);
    lemma_le_roundtrip(h.max_key_offset as nat, 8);
    lemma_le_roundtrip(h.max_key_snapshot as nat, 4);
}

impl BtreeNodeDiskEntry {
    /// The thirty-two bytes of the header.
    pub open spec fn spec_bytes(self) -> Seq<u8> {
        le_bytes(self.magic as nat, 4) + le_bytes(self.version as nat, 2) + le_bytes(
            self._flags as nat,
            2,
        ) + le_bytes(self.seq as nat, 8) + le_bytes(self.generation as nat, 4) + le_bytes(
            self.record_bytes as nat,
            4,
        ) + le_bytes(self.crc32 as nat, 4) + le_bytes(self._pad as nat, 4)
    }

    /// The header that starts at `off` of `b`.
    pub open spec fn spec_at(b: Seq<u8>, off: int) -> BtreeNodeDiskEntry {
        BtreeNodeDiskEntry {
            magic: le_at(b, off, 4) as u32,
            version: le_at(b, off + 4, 2) as u16,
            _flags: le_at(b, off + 6, 2) as u16,
            seq: le_at(b, off + 8, 8) as u64,
            generation: le_at(b, off + 16, 4) as u32,
            record_bytes: le_at(b, off + 20, 4) as u32,
            crc32: le_at(b, off + 24, 4) as u32,
            _pad: le_at(b, off + 28, 4) as u32,
        }
    }

    pub fn to_bytes(&self) -> (r: Vec<u8>)
        ensures
            r@ == self.spec_bytes(),
            r@.len() == DISK_ENTRY_BYTES,
    {
        let mut r: Vec<u8> = zeros(DISK_ENTRY_BYTES);
        put_le(&mut r, 0, 4, self.magic as u64);
        put_le(&mut r, 4, 2, self.version as u64);
        put_le(&mut r, 6, 2, self._flags as u64);
        put_le(&mut r, 8, 8, self.seq);
        put_le(&mut r, 16, 4, self.generation as u64);
        put_le(&mut r, 20, 4, self.record_bytes as u64);
        put_le(&mut r, 24, 4, self.crc32 as u64);
        put_le(&mut r, 28, 4, self._pad as u64);
        proof {
            lemma_le_bytes_len(self.magic as nat, 4);
            lemma_le_bytes_len(self.version as nat, 2);
            lemma_le_bytes_len(self._flags as nat, 2);
            lemma_le_bytes_len(self.seq as nat, 8);
            lemma_le_bytes_len(self.generation as nat, 4);
            lemma_le_bytes_len(self.record_bytes as nat, 4);
            lemma_le_bytes_len(self.crc32 as nat, 4);
            lemma_le_bytes_len(self._pad as nat, 4);
            assert(r@ =~= self.spec_bytes());
        }
        r
    }

    pub fn read_at(b: &[u8], off: usize) -> (r: BtreeNodeDiskEntry)
        requires
            off + DISK_ENTRY_BYTES <= b@.len(),
        ensures
            r == BtreeNodeDiskEntry::spec_at(b@, off as int),
    {
        let total: usize = b.len();
        proof {
            lemma_pow256_values();
        }
        let magic: u64 = get_le(b, off, 4);
        let version: u64 = get_le(b, off + 4, 2);
        let flags: u64 = get_le(b, off + 6, 2);
        let seq: u64 = get_le(b, off + 8, 8);
        let generation: u64 = get_le(b, off + 16, 4);
        let record_bytes: u64 = get_le(b, off + 20, 4);
        let crc32: u64 = get_le(b, off + 24, 4);
        let pad: u64 = get_le(b, off + 28, 4);
        BtreeNodeDiskEntry {
            magic: magic as u32,
            version: version as u16,
            _flags: flags as u16,
            seq,
            generation: generation as u32,
            record_bytes: record_bytes as u32,
            crc32: crc32 as u32,
            _pad: pad as u32,
        }
    }
}

/// An append header reads back as it was written.
pub proof fn lemma_disk_entry(h: BtreeNodeDiskEntry, b: Seq<u8>, off: int)
    requires
        0 <= off,
        off + DISK_ENTRY_BYTES <= b.len(),
        b.subrange(off, off + DISK_ENTRY_BYTES) == h.spec_bytes(),
    ensures
        BtreeNodeDiskEntry::spec_at(b, off) == h,
{
    lemma_pow256_values();
    lemma_le_roundtrip(h.magic as nat, 4);
    lemma_le_roundtrip(h.version as nat, 2);
    lemma_le_roundtrip(h._flags as nat, 2);
    lemma_le_roundtrip(h.seq as nat, 8);
    lemma_le_roundtrip(h.generation as nat, 4);
    lemma_le_roundtrip(h.record_bytes as nat, 4);
    lemma_le_roundtrip(h.crc32 as nat, 4);
    lemma_le_roundtrip(h._pad as nat, 4);
    let s = b.subrange(off, off + DISK_ENTRY_BYTES);
    assert(b.subrange(off, off + 4) =~= s.subrange(0, 4));
    assert(b.subrange(off + 4, off + 6) =~= s.subrange(4, 6));
    assert(b.subrange(off + 6, off + 8) =~= s.subrange(6, 8));
    assert(b.subrange(off + 8, off + 16) =~= s.subrange(8, 16));
    assert(b.subrange(off + 16, off + 20) =~= s.subrange(16, 20));
    assert(b.subrange(off + 20, off + 24) =~= s.subrange(20, 24));
    assert(b.subrange(off + 24, off + 28) =~= s.subrange(24, 28));
    assert(b.subrange(off + 28, off + 32) =~= s.subrange(28, 32));
    assert(s.subrange(0, 4) =~= le_bytes(h.magic as nat, 4));
    assert(s.subrange(4, 6) =~= le_bytes(h.version as nat, 2));
    assert(s.subrange(6, 8) =~= le_bytes(h._flags as nat, 2));
    assert(s.subrange(8, 16) =~= le_bytes(h.seq as nat, 8));
    assert(s.subrange(16, 20) =~= le_bytes(h.generation as nat, 4));
    assert(s.subrange(20, 24) =~= le_bytes(h.record_bytes as nat, 4));
    assert(s.subrange(24, 28) =~= le_bytes(h.crc32 as nat, 4));
    assert(s.subrange(28, 32) =~= le_bytes(h._pad as nat, 4));
}

} // verus!
