//! Keys, values and entries.

use crate::le::{
    copy_bytes, get_le, le_at, le_bytes, lemma_le_bytes_len, lemma_le_bytes_of_val,
    lemma_le_roundtrip, lemma_le_val_bound, lemma_pow256_values, lemma_splice_join, put_le, zeros,
};
use std::cmp::Ordering;
use vstd::prelude::*;

verus! {

/// The u64s that a packed key takes, header included.
pub const BKEY_U64S: u8 = 3;

/// The format byte of a packed key.
pub const KEY_FORMAT_CURRENT: u8 = 1;

/// One past the largest 48-bit block address.
pub const ADDR48_LIMIT: u64 = 0x1_0000_0000_0000;

/// A position in the key space. Positions are ordered by inode, then by
/// offset, then by snapshot, newest snapshot first.
#[derive(Clone, Copy, Debug, PartialEq, Eq, Hash, Structural)]
pub struct Bpos {
    pub inode: u64,
    pub offset: u64,
    pub snapshot: u32,
}

/// What an entry stands for.
#[derive(Clone, Copy, Debug, PartialEq, Eq, Hash, Structural)]
pub enum KeyType {
    Normal,
    Deleted,
    Whiteout,
}

/// The key of an extent: a virtual address in a snapshot. Keys are ordered by
/// address, then by snapshot, newest first; the type takes no part in the order.
#[derive(Clone, Copy, Debug, PartialEq, Eq, Hash, Structural)]
pub struct BtreeKey {
    pub vaddr: u64,
    pub snapshot_id: u32,
    pub key_type: KeyType,
}

/// A block address of 48 bits.
#[derive(Clone, Copy, Debug, PartialEq, Eq, Hash, Structural)]
pub struct Addr48 {
    pub addr: u64,
}

/// The value of an extent: a physical address and a version.
#[derive(Clone, Copy, Debug, PartialEq, Eq, Hash, Structural)]
pub struct BchVal {
    pub paddr: Addr48,
    pub ver: u16,
}

/// A persistent pointer to a node's extent on disk.
#[derive(Clone, Copy, Debug, PartialEq, Eq, Hash, Structural)]
pub struct BtreePtrV2 {
    pub block_addr: u64,
    pub sectors_written: u16,
    pub level: u8,
    pub generation: u32,
}

/// The value of an entry.
#[derive(Clone, Debug, PartialEq, Eq)]
pub enum KeyValue {
    Extent(BchVal),
    BtreePtr(BtreePtrV2),
    Raw(Vec<u8>),
}

/// A key with its value.
#[derive(Clone, Debug, PartialEq, Eq)]
pub struct BtreeEntry {
    pub pos: Bpos,
    pub key_type: KeyType,
    pub value: KeyValue,
}

/// An entry as its position, its type and the bytes of its value.
#[verifier::ext_equal]
pub struct EntryView {
    pub pos: Bpos,
    pub key_type: KeyType,
    pub value: Seq<u8>,
}

// ── order ───────────────────────────────────────────────────────────────

/// Whether (`o1`, `s1`) comes before (`o2`, `s2`): by offset, then by
/// snapshot, newest first.
pub open spec fn slot_lt(o1: u64, s1: u32, o2: u64, s2: u32) -> bool {
    o1 < o2 || (o1 == o2 && s1 > s2)
}

impl Bpos {
    /// The smallest position.
    pub open spec fn spec_min() -> Bpos {
        Bpos { inode: 0, offset: 0, snapshot: u32::MAX }
    }

    /// The largest position.
    pub open spec fn spec_max() -> Bpos {
        Bpos { inode: u64::MAX, offset: u64::MAX, snapshot: 0 }
    }

    /// Whether this position comes before `other`.
    pub open spec fn lt(self, other: Bpos) -> bool {
        self.inode < other.inode || (self.inode == other.inode && slot_lt(
            self.offset,
            self.snapshot,
            other.offset,
            other.snapshot,
        ))
    }

    /// Whether both lie at the same offset in the same snapshot.
    pub open spec fn same_slot(self, other: Bpos) -> bool {
        self.offset == other.offset && self.snapshot == other.snapshot
    }

    pub fn new(inode: u64, offset: u64, snapshot: u32) -> (r: Bpos)
        ensures
            r == (Bpos { inode, offset, snapshot }),
    {
        Bpos { inode, offset, snapshot }
    }

    /// The smallest position.
    pub fn min_pos() -> (r: Bpos)
        ensures
            r == Bpos::spec_min(),
    {
        Bpos { inode: 0, offset: 0, snapshot: u32::MAX }
    }

    /// The largest position.
    pub fn max_pos() -> (r: Bpos)
        ensures
            r == Bpos::spec_max(),
    {
        Bpos { inode: u64::MAX, offset: u64::MAX, snapshot: 0 }
    }

    /// The position of a key, in inode 0.
    pub open spec fn spec_from_key(key: BtreeKey) -> Bpos {
        Bpos { inode: 0, offset: key.vaddr, snapshot: key.snapshot_id }
    }

    pub fn from_key(key: &BtreeKey) -> (r: Bpos)
        ensures
            r == Bpos::spec_from_key(*key),
    {
        Bpos { inode: 0, offset: key.vaddr, snapshot: key.snapshot_id }
    }

    /// Whether this position comes before `other`.
    pub fn precedes(&self, other: &Bpos) -> (r: bool)
        ensures
            r == self.lt(*other),
    {
        self.inode < other.inode || (self.inode == other.inode && (self.offset < other.offset || (
        self.offset == other.offset && self.snapshot > other.snapshot)))
    }
}

/// How `a` and `b` are ordered.
pub fn bpos_cmp(a: &Bpos, b: &Bpos) -> (r: Ordering)
    ensures
        (r is Less) == a.lt(*b),
        (r is Greater) == b.lt(*a),
        (r is Equal) == (*a == *b),
{
    if a.precedes(b) {
        Ordering::Less
    } else if b.precedes(a) {
        Ordering::Greater
    } else {
        Ordering::Equal
    }
}

/// The order of positions is total: exactly one of "before", "equal" and
/// "after" holds, it is transitive, and the smallest and the largest position
/// bound every position.
pub proof fn lemma_bpos_order(a: Bpos, b: Bpos, c: Bpos)
    ensures
        a.lt(b) || a == b || b.lt(a),
        !(a.lt(b) && b.lt(a)),
        !a.lt(a),
        a.lt(b) && b.lt(c) ==> a.lt(c),
        !a.lt(Bpos::spec_min()),
        !Bpos::spec_max().lt(a),
{
}

impl KeyType {
    /// The byte that stands for the type.
    pub open spec fn spec_code(self) -> u8 {
        match self {
            KeyType::Normal => 0,
            KeyType::Deleted => 1,
            KeyType::Whiteout => 2,
        }
    }

    /// The type that a byte stands for; an unknown byte stands for a normal key.
    pub open spec fn spec_from_u8(b: u8) -> KeyType {
        if b == 1 {
            KeyType::Deleted
        } else if b == 2 {
            KeyType::Whiteout
        } else {
            KeyType::Normal
        }
    }

    pub fn code(&self) -> (r: u8)
        ensures
            r == self.spec_code(),
    {
        match self {
            KeyType::Normal => 0,
            KeyType::Deleted => 1,
            KeyType::Whiteout => 2,
        }
    }

    pub fn from_u8(b: u8) -> (r: KeyType)
        ensures
            r == KeyType::spec_from_u8(b),
    {
        if b == 1 {
            KeyType::Deleted
        } else if b == 2 {
            KeyType::Whiteout
        } else {
            KeyType::Normal
        }
    }
}

/// A type survives being written as a byte.
pub proof fn lemma_key_type_roundtrip(t: KeyType)
    ensures
        KeyType::spec_from_u8(t.spec_code()) == t,
{
}

impl BtreeKey {
    /// The key that no key comes before.
    pub open spec fn spec_min_key() -> BtreeKey {
        BtreeKey { vaddr: 0, snapshot_id: u32::MAX, key_type: KeyType::Normal }
    }

    /// Whether this key comes before `other`.
    pub open spec fn lt(self, other: BtreeKey) -> bool {
        slot_lt(self.vaddr, self.snapshot_id, other.vaddr, other.snapshot_id)
    }

    /// Whether neither key comes before the other.
    pub open spec fn same_slot(self, other: BtreeKey) -> bool {
        self.vaddr == other.vaddr && self.snapshot_id == other.snapshot_id
    }

    pub fn new(vaddr: u64, snapshot_id: u32, key_type: KeyType) -> (r: BtreeKey)
        ensures
            r == (BtreeKey { vaddr, snapshot_id, key_type }),
    {
        BtreeKey { vaddr, snapshot_id, key_type }
    }

    /// The key that no key comes before.
    pub fn min_key() -> (r: BtreeKey)
        ensures
            r == BtreeKey::spec_min_key(),
    {
        BtreeKey { vaddr: 0, snapshot_id: u32::MAX, key_type: KeyType::Normal }
    }

    /// The key at a position; the inode is dropped.
    pub open spec fn spec_from_bpos(pos: Bpos, key_type: KeyType) -> BtreeKey {
        BtreeKey { vaddr: pos.offset, snapshot_id: pos.snapshot, key_type }
    }

    pub fn from_bpos(pos: Bpos, key_type: KeyType) -> (r: BtreeKey)
        ensures
            r == BtreeKey::spec_from_bpos(pos, key_type),
    {
        BtreeKey { vaddr: pos.offset, snapshot_id: pos.snapshot, key_type }
    }

    pub fn to_bpos(&self) -> (r: Bpos)
        ensures
            r == Bpos::spec_from_key(*self),
    {
        Bpos::from_key(self)
    }

    pub fn get_vaddr(&self) -> (r: u64)
        ensures
            r == self.vaddr,
    {
        self.vaddr
    }

    pub fn get_snapshot_id(&self) -> (r: u32)
        ensures
            r == self.snapshot_id,
    {
        self.snapshot_id
    }

    /// Whether this key comes before `other`.
    pub fn precedes(&self, other: &BtreeKey) -> (r: bool)
        ensures
            r == self.lt(*other),
    {
        self.vaddr < other.vaddr || (self.vaddr == other.vaddr && self.snapshot_id
            > other.snapshot_id)
    }

    /// How this key and `other` are ordered.
    pub fn compare(&self, other: &BtreeKey) -> (r: Ordering)
        ensures
            (r is Less) == self.lt(*other),
            (r is Greater) == other.lt(*self),
            (r is Equal) == self.same_slot(*other),
    {
        if self.precedes(other) {
            Ordering::Less
        } else if other.precedes(self) {
            Ordering::Greater
        } else {
            Ordering::Equal
        }
    }
}

/// The order of keys is total, the smallest key bounds every key, and a key
/// comes back from its position.
pub proof fn lemma_key_order(a: BtreeKey, b: BtreeKey, c: BtreeKey)
    ensures
        a.lt(b) || a.same_slot(b) || b.lt(a),
        !(a.lt(b) && b.lt(a)),
        !a.lt(a),
        a.lt(b) && b.lt(c) ==> a.lt(c),
        !a.lt(BtreeKey::spec_min_key()),
        BtreeKey::spec_from_bpos(Bpos::spec_from_key(a), a.key_type) == a,
{
}

// ── values ──────────────────────────────────────────────────────────────

impl Addr48 {
    pub fn new(addr: u64) -> (r: Addr48)
        ensures
            r.addr == addr % ADDR48_LIMIT,
    {
        Addr48 { addr: addr % ADDR48_LIMIT }
    }

    pub fn get(&self) -> (r: u64)
        ensures
            r == self.addr,
    {
        self.addr
    }
}

impl BchVal {
    /// The value with the low 48 bits of `paddr`, and `ver`.
    pub open spec fn spec_new(paddr: u64, ver: u16) -> BchVal {
        BchVal { paddr: Addr48 { addr: (paddr % ADDR48_LIMIT) as u64 }, ver }
    }

    /// The value that the first eight bytes of `b` hold; bytes that are not
    /// there count as zero.
    pub open spec fn spec_from_bytes(b: Seq<u8>) -> BchVal {
        let full = pad_to(b, 8);
        BchVal {
            paddr: Addr48 { addr: le_at(full, 0, 6) as u64 },
            ver: le_at(full, 6, 2) as u16,
        }
    }

    /// The eight bytes of the value: six of the address, two of the version.
    pub open spec fn spec_bytes(self) -> Seq<u8> {
        le_bytes(self.paddr.addr as nat, 6) + le_bytes(self.ver as nat, 2)
    }

    pub fn new(paddr: u64, ver: u16) -> (r: BchVal)
        ensures
            r == BchVal::spec_new(paddr, ver),
    {
        BchVal { paddr: Addr48::new(paddr), ver }
    }

    pub fn from_bytes(b: &[u8]) -> (r: BchVal)
        ensures
            r == BchVal::spec_from_bytes(b@),
            r.paddr.addr < ADDR48_LIMIT,
    {
        proof {
            lemma_pow256_values();
        }
        if b.len() >= 8 {
            let addr: u64 = get_le(b, 0, 6);
            let ver: u64 = get_le(b, 6, 2);
            proof {
                assert(pad_to(b@, 8) =~= b@);
            }
            BchVal { paddr: Addr48 { addr }, ver: ver as u16 }
        } else {
            let mut full: Vec<u8> = copy_bytes(b);
            while full.len() < 8
                invariant
                    b@.len() <= full@.len() <= 8,
                    full@ =~= pad_to(b@, full@.len() as int),
                decreases 8 - full@.len(),
            {
                full.push(0);
            }
            let addr: u64 = get_le(full.as_slice(), 0, 6);
            let ver: u64 = get_le(full.as_slice(), 6, 2);
            BchVal { paddr: Addr48 { addr }, ver: ver as u16 }
        }
    }

    pub fn to_bytes(&self) -> (r: Vec<u8>)
        ensures
            r@ == self.spec_bytes(),
            r@.len() == 8,
    {
        let mut r: Vec<u8> = zeros(8);
        let ghost z = r@;
        put_le(&mut r, 0, 6, self.paddr.addr);
        put_le(&mut r, 6, 2, self.ver as u64);
        proof {
            lemma_le_bytes_len(self.paddr.addr as nat, 6);
            lemma_le_bytes_len(self.ver as nat, 2);
            lemma_splice_join(
                z,
                0,
                le_bytes(self.paddr.addr as nat, 6),
                le_bytes(self.ver as nat, 2),
            );
            assert(r@ =~= self.spec_bytes());
        }
        r
    }
}

/// `b` with zero bytes added up to length `n`.
pub open spec fn pad_to(b: Seq<u8>, n: int) -> Seq<u8> {
    if b.len() >= n {
        b
    } else {
        b + Seq::new((n - b.len()) as nat, |i: int| 0u8)
    }
}

/// `b` with zero bytes added up to a multiple of eight.
pub open spec fn pad8(b: Seq<u8>) -> Seq<u8> {
    pad_to(b, (b.len() as int + 7) / 8 * 8)
}

/// A value of 48 bits and a version survive being written as bytes.
pub proof fn lemma_bch_val_roundtrip(v: BchVal)
    requires
        v.paddr.addr < ADDR48_LIMIT,
    ensures
        v.spec_bytes().len() == 8,
        BchVal::spec_from_bytes(v.spec_bytes()) == v,
{
    lemma_pow256_values();
    lemma_le_roundtrip(v.paddr.addr as nat, 6);
    lemma_le_roundtrip(v.ver as nat, 2);
    let b = v.spec_bytes();
    assert(b.subrange(0, 6) =~= le_bytes(v.paddr.addr as nat, 6));
    assert(b.subrange(6, 8) =~= le_bytes(v.ver as nat, 2));
}

/// The bytes that a persistent pointer takes.
pub const PTR_DISK_BYTES: usize = 16;

impl BtreePtrV2 {
    /// The pointer that points nowhere.
    pub open spec fn spec_invalid() -> BtreePtrV2 {
        BtreePtrV2 { block_addr: 0, sectors_written: 0, level: 0, generation: 0 }
    }

    /// Whether the pointer points somewhere.
    pub open spec fn spec_is_valid(self) -> bool {
        self.block_addr != 0
    }

    /// The sixteen bytes of the pointer.
    pub open spec fn spec_bytes(self) -> Seq<u8> {
        le_bytes(self.block_addr as nat, 8) + le_bytes(self.sectors_written as nat, 2) + seq![
            self.level,
            0u8,
        ] + le_bytes(self.generation as nat, 4)
    }

    /// The pointer that `b` holds: sixteen bytes, the twelfth of them zero.
    pub open spec fn spec_from_bytes(b: Seq<u8>) -> Option<BtreePtrV2> {
        if b.len() == PTR_DISK_BYTES && b[11] == 0 {
            Some(
                BtreePtrV2 {
                    block_addr: le_at(b, 0, 8) as u64,
                    sectors_written: le_at(b, 8, 2) as u16,
                    level: b[10],
                    generation: le_at(b, 12, 4) as u32,
                },
            )
        } else {
            None
        }
    }

    /// The pointer that points nowhere.
    pub fn invalid() -> (r: BtreePtrV2)
        ensures
            r == BtreePtrV2::spec_invalid(),
    {
        BtreePtrV2 { block_addr: 0, sectors_written: 0, level: 0, generation: 0 }
    }

    pub fn is_valid(&self) -> (r: bool)
        ensures
            r == self.spec_is_valid(),
    {
        self.block_addr != 0
    }

    pub fn from_bytes(b: &[u8]) -> (r: Option<BtreePtrV2>)
        ensures
            r == BtreePtrV2::spec_from_bytes(b@),
    {
        if b.len() == PTR_DISK_BYTES && b[11] == 0 {
            proof {
                lemma_pow256_values();
            }
            let block_addr: u64 = get_le(b, 0, 8);
            let sectors: u64 = get_le(b, 8, 2);
            let generation: u64 = get_le(b, 12, 4);
            Some(
                BtreePtrV2 {
                    block_addr,
                    sectors_written: sectors as u16,
                    level: b[10],
                    generation: generation as u32,
                },
            )
        } else {
            None
        }
    }

    pub fn to_bytes(&self) -> (r: Vec<u8>)
        ensures
            r@ == self.spec_bytes(),
            r@.len() == PTR_DISK_BYTES,
    {
        let mut r: Vec<u8> = zeros(16);
        let ghost z = r@;
        put_le(&mut r, 0, 8, self.block_addr);
        put_le(&mut r, 8, 2, self.sectors_written as u64);
        r.set(10, self.level);
        put_le(&mut r, 12, 4, self.generation as u64);
        proof {
            lemma_le_bytes_len(self.block_addr as nat, 8);
            lemma_le_bytes_len(self.sectors_written as nat, 2);
            lemma_le_bytes_len(self.generation as nat, 4);
            assert(r@ =~= self.spec_bytes());
        }
        r
    }
}

/// A pointer survives being written as bytes, and sixteen bytes that hold a
/// pointer are the bytes of that pointer.
pub proof fn lemma_ptr_roundtrip(p: BtreePtrV2, b: Seq<u8>)
    ensures
        p.spec_bytes().len() == PTR_DISK_BYTES,
        BtreePtrV2::spec_from_bytes(p.spec_bytes()) == Some(p),
        BtreePtrV2::spec_from_bytes(b) matches Some(q) ==> q.spec_bytes() == b,
{
    lemma_pow256_values();
    lemma_le_roundtrip(p.block_addr as nat, 8);
    lemma_le_roundtrip(p.sectors_written as nat, 2);
    lemma_le_roundtrip(p.generation as nat, 4);
    let c = p.spec_bytes();
    assert(c.subrange(0, 8) =~= le_bytes(p.block_addr as nat, 8));
    assert(c.subrange(8, 10) =~= le_bytes(p.sectors_written as nat, 2));
    assert(c.subrange(12, 16) =~= le_bytes(p.generation as nat, 4));
    if let Some(q) = BtreePtrV2::spec_from_bytes(b) {
        lemma_le_bytes_of_val(b.subrange(0, 8));
        lemma_le_bytes_of_val(b.subrange(8, 10));
        lemma_le_bytes_of_val(b.subrange(12, 16));
        lemma_le_val_bound(b.subrange(0, 8));
        lemma_le_val_bound(b.subrange(8, 10));
        lemma_le_val_bound(b.subrange(12, 16));
        assert(q.spec_bytes() =~= b);
    }
}

impl KeyValue {
    /// The bytes of the value.
    pub open spec fn spec_bytes(self) -> Seq<u8> {
        match self {
            KeyValue::Extent(v) => v.spec_bytes(),
            KeyValue::BtreePtr(p) => p.spec_bytes(),
            KeyValue::Raw(b) => b@,
        }
    }

    /// The value of an entry of a node at `level` whose bytes are `b`: in a
    /// node above the leaves, sixteen bytes that hold a pointer are a pointer.
    pub open spec fn decodes(self, level: u8, b: Seq<u8>) -> bool {
        if level > 0 && BtreePtrV2::spec_from_bytes(b) is Some {
            self == KeyValue::BtreePtr(BtreePtrV2::spec_from_bytes(b)->0)
        } else {
            self matches KeyValue::Raw(r) && r@ == b
        }
    }

    pub fn extent(paddr: u64, ver: u16) -> (r: KeyValue)
        ensures
            r == KeyValue::Extent(BchVal::spec_new(paddr, ver)),
    {
        KeyValue::Extent(BchVal::new(paddr, ver))
    }

    pub fn to_bytes(&self) -> (r: Vec<u8>)
        ensures
            r@ == self.spec_bytes(),
    {
        match self {
            KeyValue::Extent(v) => v.to_bytes(),
            KeyValue::BtreePtr(p) => p.to_bytes(),
            KeyValue::Raw(b) => copy_bytes(b.as_slice()),
        }
    }

    /// The length of the value in bytes.
    pub fn byte_len(&self) -> (r: usize)
        ensures
            r == self.spec_bytes().len(),
    {
        match self {
            KeyValue::Extent(v) => {
                proof {
                    lemma_le_bytes_len(v.paddr.addr as nat, 6);
                    lemma_le_bytes_len(v.ver as nat, 2);
                }
                8
            },
            KeyValue::BtreePtr(p) => {
                proof {
                    lemma_ptr_roundtrip(*p, Seq::<u8>::empty());
                }
                16
            },
            KeyValue::Raw(b) => b.len(),
        }
    }

    /// The value of an entry of a node at `level` whose bytes are `b`.
    pub fn decode(level: u8, b: &[u8]) -> (r: KeyValue)
        ensures
            r.decodes(level, b@),
            r.spec_bytes() == b@,
    {
        if level > 0 {
            if let Some(p) = BtreePtrV2::from_bytes(b) {
                proof {
                    lemma_ptr_roundtrip(p, b@);
                }
                return KeyValue::BtreePtr(p);
            }
        }
        KeyValue::Raw(copy_bytes(b))
    }

    pub fn as_extent(&self) -> (r: Option<&BchVal>)
        ensures
            match *self {
                KeyValue::Extent(v) => r == Some(&v),
                _ => r is None,
            },
    {
        match self {
            KeyValue::Extent(v) => Some(v),
            _ => None,
        }
    }

    pub fn as_btree_ptr(&self) -> (r: Option<&BtreePtrV2>)
        ensures
            match *self {
                KeyValue::BtreePtr(p) => r == Some(&p),
                _ => r is None,
            },
    {
        match self {
            KeyValue::BtreePtr(p) => Some(p),
            _ => None,
        }
    }

    /// Whether both are of the same kind and hold the same.
    pub open spec fn same(self, other: KeyValue) -> bool {
        match (self, other) {
            (KeyValue::Extent(a), KeyValue::Extent(b)) => a == b,
            (KeyValue::BtreePtr(a), KeyValue::BtreePtr(b)) => a == b,
            (KeyValue::Raw(a), KeyValue::Raw(b)) => a@ == b@,
            _ => false,
        }
    }

    pub fn duplicate(&self) -> (r: KeyValue)
        ensures
            r.same(*self),
            r.spec_bytes() == self.spec_bytes(),
    {
        match self {
            KeyValue::Extent(v) => KeyValue::Extent(*v),
            KeyValue::BtreePtr(p) => KeyValue::BtreePtr(*p),
            KeyValue::Raw(b) => KeyValue::Raw(copy_bytes(b.as_slice())),
        }
    }
}

// ── entries ─────────────────────────────────────────────────────────────

impl EntryView {
    /// The key of the entry.
    pub open spec fn key(self) -> BtreeKey {
        BtreeKey::spec_from_bpos(self.pos, self.key_type)
    }

    /// The value of the entry, read as that of an extent.
    pub open spec fn bch_val(self) -> BchVal {
        BchVal::spec_from_bytes(self.value)
    }

    /// The u64s that the packed entry takes.
    pub open spec fn u64s(self) -> int {
        BKEY_U64S + (self.value.len() + 7) / 8
    }

    /// Whether the entry's size fits into its size byte.
    pub open spec fn fits(self) -> bool {
        self.u64s() <= 255
    }

    /// The entry with its value padded to whole u64s, as a node holds it.
    pub open spec fn padded(self) -> EntryView {
        EntryView { value: pad8(self.value), ..self }
    }

    /// Whether the value is whole u64s already.
    pub open spec fn is_padded(self) -> bool {
        self.value.len() % 8 == 0
    }

    /// An extent entry.
    pub open spec fn extent(key: BtreeKey, val: BchVal) -> EntryView {
        EntryView {
            pos: Bpos::spec_from_key(key),
            key_type: key.key_type,
            value: val.spec_bytes(),
        }
    }
}

/// An entry as it is stored: the value is taken by its bytes. Which variant
/// holds them, the contracts of what reads entries say by `KeyValue::decodes`.
impl View for BtreeEntry {
    type V = EntryView;

    open spec fn view(&self) -> EntryView {
        EntryView { pos: self.pos, key_type: self.key_type, value: self.value.spec_bytes() }
    }
}

impl BtreeEntry {
    pub fn new(pos: Bpos, key_type: KeyType, value: KeyValue) -> (r: BtreeEntry)
        ensures
            r == (BtreeEntry { pos, key_type, value }),
    {
        BtreeEntry { pos, key_type, value }
    }

    /// An entry with plain bytes as its value.
    pub fn raw(pos: Bpos, key_type: KeyType, bytes: Vec<u8>) -> (r: BtreeEntry)
        ensures
            r == (BtreeEntry { pos, key_type, value: KeyValue::Raw(bytes) }),
    {
        BtreeEntry { pos, key_type, value: KeyValue::Raw(bytes) }
    }

    /// Whether both entries hold the same.
    pub open spec fn same(self, other: BtreeEntry) -> bool {
        self.pos == other.pos && self.key_type == other.key_type && self.value.same(other.value)
    }

    pub fn duplicate(&self) -> (r: BtreeEntry)
        ensures
            r.same(*self),
            r@ == self@,
    {
        BtreeEntry { pos: self.pos, key_type: self.key_type, value: self.value.duplicate() }
    }

    /// The entry read as an extent: its key, and the value that its bytes hold.
    pub fn to_legacy(&self) -> (r: (BtreeKey, BchVal))
        ensures
            r == (self@.key(), self@.bch_val()),
    {
        let bytes: Vec<u8> = self.value.to_bytes();
        (BtreeKey::from_bpos(self.pos, self.key_type), BchVal::from_bytes(bytes.as_slice()))
    }

    /// The bytes that the packed entry takes.
    pub fn packed_size(&self) -> (r: usize)
        requires
            self@.fits(),
        ensures
            r == self@.u64s() * 8,
    {
        let n: usize = self.value.byte_len();
        (3 + (n + 7) / 8) * 8
    }
}

/// The bytes that the packed entry takes.
pub fn entry_packed_size(e: &BtreeEntry) -> (r: u32)
    requires
        e@.fits(),
    ensures
        r == e@.u64s() * 8,
{
    e.packed_size() as u32
}

/// Padding leaves whole u64s alone and changes no entry's size.
pub proof fn lemma_padded(e: EntryView)
    ensures
        e.padded().is_padded(),
        e.padded().u64s() == e.u64s(),
        e.is_padded() ==> e.padded() == e,
        e.padded().key() == e.key(),
{
    if e.is_padded() {
        assert(pad8(e.value) =~= e.value);
    }
}

} // verus!
