//! What reading a record gives back of what was written.

use crate::error::{Fault, StorageError};
use crate::header::{
    lemma_bset_header, lemma_disk_entry, lemma_header_lens, lemma_node_header, BsetHeader,
    BtreeNodeDiskEntry, BtreeNodeHeader, BSET_HEADER_BYTES, BTREE_NODE_VERSION, DISK_ENTRY_BYTES,
    ENTRY_CRC_OFFSET, NODE_CRC_OFFSET, NODE_HEADER_BYTES,
};
use crate::key::{pad_to, Bpos, BtreePtrV2, EntryView};
use crate::le::{le_bytes, lemma_le_bytes_len, splice};
use crate::node::{BtreeNode, DEFAULT_NODE_SIZE};
use crate::packed::{encode_all, lemma_parse_encode_all, parse, total_size, well_packed};
use crate::record::{
    bad_record_len, bset_header_for, committed, head_fault, lemma_sealed, lemma_total_multiple,
    pos_index, put_all, read_appends, read_extent_spec, record_crc, record_entries, sealed,
    stored_entries, ExtentView,
};
use crate::run::{lemma_undeleted_all, undeleted};
use crate::sort::{before, lemma_sort_ordered, ordered, stable_sort};
use vstd::prelude::*;

verus! {

/// Whether every sixteen-byte value of a run in a node at `level` above the
/// leaves is a pointer.
pub open spec fn pointers_ok(es: Seq<EntryView>, level: u8) -> bool {
    level > 0 ==> forall|i: int|
        0 <= i < es.len() && (#[trigger] es[i]).value.len() == 16 ==> BtreePtrV2::spec_from_bytes(
            es[i].value,
        ) is Some
}

/// A packed run reads back from disk as it reads from a node.
proof fn lemma_stored_parse(b: Seq<u8>, level: u8)
    requires
        well_packed(b),
        pointers_ok(parse(b), level),
    ensures
        stored_entries(b, level) == Ok::<Seq<EntryView>, Fault>(parse(b)),
    decreases b.len(),
{
    if b.len() > 0 {
        let h = b[0] * 8;
        let rest = b.skip(h);
        let p = parse(b);
        assert(p.skip(1) =~= parse(rest));
        assert(pointers_ok(parse(rest), level)) by {
            if level > 0 {
                assert forall|i: int|
                    0 <= i < parse(rest).len() && (
                    #[trigger] parse(rest)[i]).value.len() == 16 implies BtreePtrV2::spec_from_bytes(
                parse(rest)[i].value) is Some by {
                    assert(p[i + 1] == parse(rest)[i]);
                }
            }
        }
        lemma_stored_parse(rest, level);
        if b[0] == 5 {
            assert(p[0].value =~= b.subrange(24, 40));
            assert(p[0].value.len() == 16);
        }
        assert(head_fault(b, level) is None);
    } else {
        assert(parse(b) =~= Seq::<EntryView>::empty());
    }
}

/// Entries at positions of their own are put one behind the other.
proof fn lemma_put_all_distinct(es: Seq<EntryView>)
    requires
        forall|i: int, j: int|
            0 <= i < j < es.len() ==> (#[trigger] es[i]).pos != (#[trigger] es[j]).pos,
    ensures
        put_all(Seq::<EntryView>::empty(), es) == es,
    decreases es.len(),
{
    if es.len() > 0 {
        let f = es.drop_last();
        assert forall|i: int, j: int| 0 <= i < j < f.len() implies (#[trigger] f[i]).pos != (
        #[trigger] f[j]).pos by {
            assert(es[i].pos != es[j].pos);
        }
        lemma_put_all_distinct(f);
        assert forall|j: int| 0 <= j < f.len() implies (#[trigger] f[j]).pos != es.last().pos by {
            assert(es[j].pos != es[es.len() - 1].pos);
        }
        lemma_absent(f, es.last().pos);
        assert(f.push(es.last()) =~= es);
    }
}

proof fn lemma_absent(es: Seq<EntryView>, pos: Bpos)
    requires
        forall|j: int| 0 <= j < es.len() ==> (#[trigger] es[j]).pos != pos,
    ensures
        pos_index(es, pos) == es.len(),
    decreases es.len(),
{
    if es.len() > 0 {
        assert(es[0].pos != pos);
        let t = es.skip(1);
        assert forall|j: int| 0 <= j < t.len() implies (#[trigger] t[j]).pos != pos by {
            assert(t[j] == es[j + 1]);
        }
        lemma_absent(t, pos);
    }
}

/// Bytes laid out as headers and packed entries, then sealed, read back.
proof fn lemma_laid_out(
    head: Seq<u8>,
    bset: BsetHeader,
    payload: Seq<u8>,
    len: int,
    crc_off: int,
)
    requires
        0 <= crc_off,
        crc_off + 4 <= head.len(),
        head.len() + BSET_HEADER_BYTES + payload.len() <= len,
    ensures
        ({
            let r = sealed(pad_to(head + bset.spec_bytes() + payload, len), crc_off);
            let body = pad_to(head + bset.spec_bytes() + payload, len);
            let start = head.len() + BSET_HEADER_BYTES;
            &&& bset.spec_bytes().len() == BSET_HEADER_BYTES
            &&& r.len() == len
            &&& r.take(head.len() as int) == splice(
                head,
                crc_off,
                le_bytes(record_crc(body, crc_off) as nat, 4),
            )
            &&& BsetHeader::spec_at(r, head.len() as int) == bset
            &&& r.subrange(start, start + payload.len()) == payload
            &&& record_crc(r, crc_off) == record_crc(body, crc_off)
        }),
{
    let body = pad_to(head + bset.spec_bytes() + payload, len);
    let r = sealed(body, crc_off);
    let c = record_crc(body, crc_off);
    lemma_le_bytes_len(bset.seq as nat, 8);
    lemma_le_bytes_len(bset.journal_seq as nat, 8);
    lemma_le_bytes_len(bset.flags as nat, 4);
    lemma_le_bytes_len(bset.version as nat, 2);
    lemma_le_bytes_len(bset.u64s as nat, 2);
    lemma_le_bytes_len(c as nat, 4);
    assert(body.len() == len);
    lemma_sealed(body, crc_off);
    let n = head.len() as int;
    assert(r.take(n) =~= splice(head, crc_off, le_bytes(c as nat, 4)));
    assert(r.subrange(n, n + BSET_HEADER_BYTES) =~= bset.spec_bytes());
    lemma_bset_header(bset, r, n);
    assert(r.subrange(n + BSET_HEADER_BYTES, n + BSET_HEADER_BYTES + payload.len()) =~= payload);
}

/// The entries of a laid-out record.
proof fn lemma_record_entries(r: Seq<u8>, off: int, seq: u64, sector: u16, es: Seq<EntryView>, level: u8)
    requires
        0 <= off,
        crate::packed::all_fit(es),
        crate::packed::all_padded(es) == es,
        total_size(es) <= DEFAULT_NODE_SIZE,
        off + BSET_HEADER_BYTES + total_size(es) <= r.len(),
        BsetHeader::spec_at(r, off) == bset_header_for(seq, sector, total_size(es)),
        r.subrange(
            off + BSET_HEADER_BYTES,
            off + BSET_HEADER_BYTES + total_size(es),
        ) == encode_all(es),
        pointers_ok(es, level),
    ensures
        record_entries(r, off, sector, level) == Ok::<Seq<EntryView>, Fault>(es),
{
    lemma_parse_encode_all(es);
    lemma_stored_parse(encode_all(es), level);
    lemma_total_multiple(es);
    let h = BsetHeader::spec_at(r, off);
    assert(h.u64s * 8 == total_size(es));
    assert((sector as int * 65536) as u32 as int / 65536 == sector);
}

/// What is known of the live entries of a node that is written.
proof fn lemma_live_written(n: BtreeNode)
    requires
        n.wf(),
    ensures
        put_all(Seq::<EntryView>::empty(), n.live()) == n.live(),
        undeleted(n.live()) == n.live(),
        stable_sort(n.live(), false) == n.live(),
        n.initial_len() % 4096 == 0,
        n.append_len() % 4096 == 0,
        n.initial_len() >= NODE_HEADER_BYTES + BSET_HEADER_BYTES + total_size(n.live()),
        n.append_len() >= DISK_ENTRY_BYTES + BSET_HEADER_BYTES + total_size(n.live()),
        n.initial_len() <= 0x10_0000,
        n.append_len() <= 0x10_0000,
{
    n.lemma_live_facts();
    let es = n.live();
    assert forall|i: int, j: int| 0 <= i < j < es.len() implies (#[trigger] es[i]).pos != (
    #[trigger] es[j]).pos by {
        assert(es[i].key().lt(es[j].key()));
    }
    lemma_put_all_distinct(es);
    lemma_undeleted_all(es);
    assert(ordered(es, false)) by {
        assert forall|i: int, j: int| 0 <= i < j < es.len() implies !before(
            #[trigger] es[j],
            #[trigger] es[i],
            false,
        ) by {
            assert(es[i].key().lt(es[j].key()));
        }
    }
    lemma_sort_ordered(es, false);
}

/// What the initial record of a node looks like to a reader.
pub proof fn lemma_initial_parts(n: BtreeNode, addr: u64, generation: u32)
    requires
        n.wf(),
        pointers_ok(n.live(), n.level),
    ensures
        ({
            let r = n.initial_record(addr, generation);
            let c = record_crc(n.initial_body(addr, generation), NODE_CRC_OFFSET as int);
            &&& r.len() == n.initial_len()
            &&& BtreeNodeHeader::spec_from_bytes(r) == (BtreeNodeHeader {
                crc32: c,
                ..n.initial_header(addr, generation)
            })
            &&& record_crc(r, NODE_CRC_OFFSET as int) == c
            &&& record_entries(r, NODE_HEADER_BYTES as int, 0, n.level) == Ok::<
                Seq<EntryView>,
                Fault,
            >(n.live())
        }),
{
    let h = n.initial_header(addr, generation);
    let r = n.initial_record(addr, generation);
    let c = record_crc(n.initial_body(addr, generation), NODE_CRC_OFFSET as int);
    let h2 = BtreeNodeHeader { crc32: c, ..h };
    reveal(BtreeNode::initial_record);
    let bset = bset_header_for(n.journal_seq, 0, total_size(n.live()));
    lemma_live_written(n);
    n.lemma_live_facts();
    lemma_header_lens(h);
    lemma_header_lens(h2);
    lemma_parse_encode_all(n.live());
    lemma_laid_out(
        h.spec_bytes(),
        bset,
        encode_all(n.live()),
        n.initial_len(),
        NODE_CRC_OFFSET as int,
    );
    assert(h2.head_bytes() == h.head_bytes());
    assert(h2.place_bytes() == h.place_bytes());
    assert(h2.range_bytes() == h.range_bytes());
    assert(splice(h.spec_bytes(), NODE_CRC_OFFSET as int, le_bytes(c as nat, 4))
        =~= h2.spec_bytes());
    lemma_node_header(h2, r);
    lemma_record_entries(r, NODE_HEADER_BYTES as int, n.journal_seq, 0, n.live(), n.level);
}

/// Reading an extent whose records are all in order.
proof fn lemma_read_extent(
    data: Seq<u8>,
    ptr: BtreePtrV2,
    h: BtreeNodeHeader,
    es: Seq<EntryView>,
    acc: Seq<EntryView>,
    seq: u64,
)
    requires
        ptr.spec_is_valid(),
        ptr.sectors_written % 8 == 0,
        NODE_HEADER_BYTES <= committed(ptr) <= data.len(),
        h == BtreeNodeHeader::spec_from_bytes(data),
        h.magic == crate::header::BTREE_NODE_MAGIC,
        h.version == BTREE_NODE_VERSION,
        h.level == ptr.level,
        h.bucket_addr == ptr.block_addr,
        h.generation == ptr.generation,
        !bad_record_len(h.record_bytes as int, committed(ptr)),
        record_crc(data.subrange(0, h.record_bytes as int), NODE_CRC_OFFSET as int) == h.crc32,
        record_entries(
            data.subrange(0, h.record_bytes as int),
            NODE_HEADER_BYTES as int,
            0,
            ptr.level,
        ) == Ok::<Seq<EntryView>, Fault>(es),
        es.len() == h.key_count,
        read_appends(
            data,
            ptr,
            h.record_bytes as int,
            committed(ptr),
            put_all(Seq::<EntryView>::empty(), es),
            h.seq,
        ) == Ok::<(Seq<EntryView>, u64), StorageError>((acc, seq)),
    ensures
        ({
            let entries = stable_sort(undeleted(acc), false);
            read_extent_spec(data, ptr) == (if total_size(entries) > DEFAULT_NODE_SIZE {
                Err::<ExtentView, StorageError>(StorageError::InvalidData(Fault::CapacityExceeded))
            } else {
                Ok::<ExtentView, StorageError>(
                    ExtentView {
                        entries,
                        min_key: h.spec_min_key(),
                        max_key: h.spec_max_key(),
                        seq,
                    },
                )
            })
        }),
{
    reveal(read_extent_spec);
}

/// What was written as an initial record is what is read back: the live
/// entries in order, the range and the journal entry.
pub proof fn lemma_initial_roundtrip(n: BtreeNode, addr: u64, generation: u32, ptr: BtreePtrV2)
    requires
        n.wf(),
        n.initial_len() <= n.node_size,
        addr != 0,
        pointers_ok(n.live(), n.level),
        ptr == (BtreePtrV2 {
            block_addr: addr,
            sectors_written: (n.initial_len() / 512) as u16,
            level: n.level,
            generation,
        }),
    ensures
        read_extent_spec(n.initial_record(addr, generation), ptr) == Ok::<ExtentView, StorageError>(
            ExtentView {
                entries: n.live(),
                min_key: n.min_key,
                max_key: n.max_key,
                seq: n.journal_seq,
            },
        ),
{
    let r = n.initial_record(addr, generation);
    lemma_initial_parts(n, addr, generation);
    lemma_live_written(n);
    assert(total_size(n.live()) <= DEFAULT_NODE_SIZE && n.live().len() <= 10922) by {
        n.lemma_live_facts();
    }
    let h = BtreeNodeHeader::spec_from_bytes(r);
    assert(h.record_bytes == n.initial_len());
    lemma_single_record(r, ptr, h, n.live());
}

/// An initial record alone.
proof fn lemma_single_record(a: Seq<u8>, ptr: BtreePtrV2, h: BtreeNodeHeader, es: Seq<EntryView>)
    requires
        ptr.spec_is_valid(),
        NODE_HEADER_BYTES <= a.len(),
        a.len() % 4096 == 0,
        a.len() == committed(ptr),
        h == BtreeNodeHeader::spec_from_bytes(a),
        h.record_bytes == a.len(),
        h.magic == crate::header::BTREE_NODE_MAGIC,
        h.version == BTREE_NODE_VERSION,
        h.level == ptr.level,
        h.bucket_addr == ptr.block_addr,
        h.generation == ptr.generation,
        record_crc(a, NODE_CRC_OFFSET as int) == h.crc32,
        record_entries(a, NODE_HEADER_BYTES as int, 0, ptr.level) == Ok::<Seq<EntryView>, Fault>(
            es,
        ),
        es.len() == h.key_count,
        put_all(Seq::<EntryView>::empty(), es) == es,
        undeleted(es) == es,
        stable_sort(es, false) == es,
        total_size(es) <= DEFAULT_NODE_SIZE,
    ensures
        read_extent_spec(a, ptr) == Ok::<ExtentView, StorageError>(
            ExtentView {
                entries: es,
                min_key: h.spec_min_key(),
                max_key: h.spec_max_key(),
                seq: h.seq,
            },
        ),
{
    assert(a.subrange(0, a.len() as int) =~= a);
    lemma_read_extent(a, ptr, h, es, es, h.seq);
}

/// A record of a node in the middle of an extent.
proof fn lemma_append_parts(n: BtreeNode, generation: u32, sector: u16, data: Seq<u8>, off: int)
    requires
        n.wf(),
        pointers_ok(n.live(), n.level),
        0 <= off,
        off + n.append_len() <= data.len(),
        data.subrange(off, off + n.append_len()) == n.append_record(generation, sector),
    ensures
        ({
            let r = n.append_record(generation, sector);
            let c = record_crc(n.append_body(generation, sector), ENTRY_CRC_OFFSET as int);
            &&& BtreeNodeDiskEntry::spec_at(data, off) == (BtreeNodeDiskEntry {
                crc32: c,
                ..n.append_header(generation)
            })
            &&& record_crc(r, ENTRY_CRC_OFFSET as int) == c
            &&& record_entries(r, DISK_ENTRY_BYTES as int, sector, n.level) == Ok::<
                Seq<EntryView>,
                Fault,
            >(n.live())
        }),
{
    let h = n.append_header(generation);
    let r = n.append_record(generation, sector);
    let c = record_crc(n.append_body(generation, sector), ENTRY_CRC_OFFSET as int);
    let h2 = BtreeNodeDiskEntry { crc32: c, ..h };
    reveal(BtreeNode::append_record);
    let bset = bset_header_for(n.journal_seq, sector, total_size(n.live()));
    lemma_live_written(n);
    n.lemma_live_facts();
    lemma_parse_encode_all(n.live());
    lemma_le_bytes_len(h.magic as nat, 4);
    lemma_le_bytes_len(h.version as nat, 2);
    lemma_le_bytes_len(h._flags as nat, 2);
    lemma_le_bytes_len(h.seq as nat, 8);
    lemma_le_bytes_len(h.generation as nat, 4);
    lemma_le_bytes_len(h.record_bytes as nat, 4);
    lemma_le_bytes_len(0, 4);
    lemma_le_bytes_len(c as nat, 4);
    assert(h.spec_bytes().len() == DISK_ENTRY_BYTES);
    lemma_laid_out(
        h.spec_bytes(),
        bset,
        encode_all(n.live()),
        n.append_len(),
        ENTRY_CRC_OFFSET as int,
    );
    assert(splice(h.spec_bytes(), ENTRY_CRC_OFFSET as int, le_bytes(c as nat, 4))
        =~= h2.spec_bytes());
    assert(data.subrange(off, off + DISK_ENTRY_BYTES) =~= r.take(DISK_ENTRY_BYTES as int));
    lemma_disk_entry(h2, data, off);
    lemma_record_entries(r, DISK_ENTRY_BYTES as int, n.journal_seq, sector, n.live(), n.level);
}

/// An append record behind an initial record is read as well: its entries win
/// their positions, and its journal entry counts where it is the later one.
#[verifier::rlimit(60)]
pub proof fn lemma_append_roundtrip(
    first: BtreeNode,
    second: BtreeNode,
    addr: u64,
    generation: u32,
    ptr: BtreePtrV2,
)
    requires
        first.wf(),
        second.wf(),
        second.level == first.level,
        first.initial_len() + second.append_len() <= DEFAULT_NODE_SIZE,
        addr != 0,
        pointers_ok(first.live(), first.level),
        pointers_ok(second.live(), second.level),
        ptr == (BtreePtrV2 {
            block_addr: addr,
            sectors_written: ((first.initial_len() + second.append_len()) / 512) as u16,
            level: first.level,
            generation,
        }),
    ensures
        ({
            let sector = (first.initial_len() / 512) as u16;
            let data = first.initial_record(addr, generation) + second.append_record(
                generation,
                sector,
            );
            let entries = stable_sort(undeleted(put_all(first.live(), second.live())), false);
            read_extent_spec(data, ptr) == (if total_size(entries) > DEFAULT_NODE_SIZE {
                Err::<ExtentView, StorageError>(StorageError::InvalidData(Fault::CapacityExceeded))
            } else {
                Ok::<ExtentView, StorageError>(
                    ExtentView {
                        entries,
                        min_key: first.min_key,
                        max_key: first.max_key,
                        seq: crate::record::max_u64(first.journal_seq, second.journal_seq),
                    },
                )
            })
        }),
{
    let sector = (first.initial_len() / 512) as u16;
    let a = first.initial_record(addr, generation);
    let b = second.append_record(generation, sector);
    let data = a + b;
    lemma_initial_parts(first, addr, generation);
    lemma_live_written(first);
    lemma_live_written(second);
    assert(first.live().len() <= 10922) by {
        first.lemma_live_facts();
    }
    lemma_append_record_len(second, generation, sector);
    let h = BtreeNodeHeader::spec_from_bytes(a);
    assert(h.record_bytes == first.initial_len());
    lemma_two_records(a, b, ptr, h, first.live(), second, sector);
    assert(a + b == data);
}

/// An initial record and one append record behind it.
proof fn lemma_two_records(
    a: Seq<u8>,
    b: Seq<u8>,
    ptr: BtreePtrV2,
    h: BtreeNodeHeader,
    es: Seq<EntryView>,
    n: BtreeNode,
    sector: u16,
)
    requires
        ptr.spec_is_valid(),
        NODE_HEADER_BYTES <= a.len(),
        a.len() % 4096 == 0,
        b.len() % 4096 == 0,
        a.len() + b.len() == committed(ptr),
        h == BtreeNodeHeader::spec_from_bytes(a),
        h.record_bytes == a.len(),
        h.magic == crate::header::BTREE_NODE_MAGIC,
        h.version == BTREE_NODE_VERSION,
        h.level == ptr.level,
        h.bucket_addr == ptr.block_addr,
        h.generation == ptr.generation,
        record_crc(a, NODE_CRC_OFFSET as int) == h.crc32,
        record_entries(a, NODE_HEADER_BYTES as int, 0, ptr.level) == Ok::<Seq<EntryView>, Fault>(
            es,
        ),
        es.len() == h.key_count,
        put_all(Seq::<EntryView>::empty(), es) == es,
        n.wf(),
        n.level == ptr.level,
        pointers_ok(n.live(), n.level),
        b == n.append_record(ptr.generation, sector),
        b.len() == n.append_len(),
        sector == (a.len() as int / 512) as u16,
    ensures
        ({
            let entries = stable_sort(undeleted(put_all(es, n.live())), false);
            read_extent_spec(a + b, ptr) == (if total_size(entries) > DEFAULT_NODE_SIZE {
                Err::<ExtentView, StorageError>(StorageError::InvalidData(Fault::CapacityExceeded))
            } else {
                Ok::<ExtentView, StorageError>(
                    ExtentView {
                        entries,
                        min_key: h.spec_min_key(),
                        max_key: h.spec_max_key(),
                        seq: crate::record::max_u64(h.seq, n.journal_seq),
                    },
                )
            })
        }),
{
    let data = a + b;
    let off = a.len() as int;
    assert(data.subrange(0, off) =~= a);
    assert(data.subrange(off, data.len() as int) =~= b);
    lemma_same_header(data, a, NODE_HEADER_BYTES as int);
    let acc = put_all(es, n.live());
    let seq = crate::record::max_u64(h.seq, n.journal_seq);
    lemma_one_append(data, ptr, off, es, h.seq, n, sector);
    lemma_read_extent(data, ptr, h, es, acc, seq);
}

proof fn lemma_append_record_len(n: BtreeNode, generation: u32, sector: u16)
    requires
        n.wf(),
    ensures
        n.append_record(generation, sector).len() == n.append_len(),
{
    reveal(BtreeNode::append_record);
    let h = n.append_header(generation);
    n.lemma_live_facts();
    lemma_live_written(n);
    lemma_parse_encode_all(n.live());
    lemma_le_bytes_len(h.magic as nat, 4);
    lemma_le_bytes_len(h.version as nat, 2);
    lemma_le_bytes_len(h._flags as nat, 2);
    lemma_le_bytes_len(h.seq as nat, 8);
    lemma_le_bytes_len(h.generation as nat, 4);
    lemma_le_bytes_len(h.record_bytes as nat, 4);
    lemma_le_bytes_len(0, 4);
    assert(h.spec_bytes().len() == DISK_ENTRY_BYTES);
    lemma_laid_out(
        h.spec_bytes(),
        bset_header_for(n.journal_seq, sector, total_size(n.live())),
        encode_all(n.live()),
        n.append_len(),
        ENTRY_CRC_OFFSET as int,
    );
}

/// One append record that ends where the committed sectors end.
proof fn lemma_one_append(
    data: Seq<u8>,
    ptr: BtreePtrV2,
    off: int,
    acc: Seq<EntryView>,
    seq: u64,
    n: BtreeNode,
    sector: u16,
)
    requires
        n.wf(),
        pointers_ok(n.live(), n.level),
        0 <= off,
        n.level == ptr.level,
        sector == (off / 512) as u16,
        off + n.append_len() == data.len(),
        data.subrange(off, data.len() as int) == n.append_record(ptr.generation, sector),
    ensures
        read_appends(data, ptr, off, data.len() as int, acc, seq) == Ok::<
            (Seq<EntryView>, u64),
            StorageError,
        >((put_all(acc, n.live()), crate::record::max_u64(seq, n.journal_seq))),
{
    let end = data.len() as int;
    lemma_live_written(n);
    n.lemma_live_facts();
    lemma_append_parts(n, ptr.generation, sector, data, off);
    let acc2 = put_all(acc, n.live());
    let seq2 = crate::record::max_u64(seq, n.journal_seq);
    let h = BtreeNodeDiskEntry::spec_at(data, off);
    assert(h.record_bytes == n.append_len());
    assert(off + h.record_bytes == end);
    assert(read_appends(data, ptr, end, end, acc2, seq2) == Ok::<
        (Seq<EntryView>, u64),
        StorageError,
    >((acc2, seq2)));
}

/// Buffers that agree on the first bytes carry the same node header.
proof fn lemma_same_header(a: Seq<u8>, b: Seq<u8>, n: int)
    requires
        n == NODE_HEADER_BYTES,
        n <= a.len(),
        n <= b.len(),
        forall|i: int| 0 <= i < n ==> a[i] == b[i],
    ensures
        BtreeNodeHeader::spec_from_bytes(a) == BtreeNodeHeader::spec_from_bytes(b),
{
    assert(a.subrange(0, 4) =~= b.subrange(0, 4));
    assert(a.subrange(4, 6) =~= b.subrange(4, 6));
    assert(a.subrange(8, 12) =~= b.subrange(8, 12));
    assert(a.subrange(12, 14) =~= b.subrange(12, 14));
    assert(a.subrange(14, 18) =~= b.subrange(14, 18));
    assert(a.subrange(18, 26) =~= b.subrange(18, 26));
    assert(a.subrange(26, 34) =~= b.subrange(26, 34));
    assert(a.subrange(34, 38) =~= b.subrange(34, 38));
    assert(a.subrange(38, 42) =~= b.subrange(38, 42));
    assert(a.subrange(42, 50) =~= b.subrange(42, 50));
    assert(a.subrange(50, 58) =~= b.subrange(50, 58));
    assert(a.subrange(58, 62) =~= b.subrange(58, 62));
    assert(a.subrange(62, 70) =~= b.subrange(62, 70));
    assert(a.subrange(70, 78) =~= b.subrange(70, 78));
    assert(a.subrange(78, 82) =~= b.subrange(78, 82));
}

proof fn lemma_appends_prefix(
    data: Seq<u8>,
    ptr: BtreePtrV2,
    off: int,
    end: int,
    acc: Seq<EntryView>,
    seq: u64,
)
    requires
        0 <= off,
        0 <= end <= data.len(),
    ensures
        read_appends(data, ptr, off, end, acc, seq) == read_appends(
            data.take(end),
            ptr,
            off,
            end,
            acc,
            seq,
        ),
    decreases end - off,
{
    if off < end && end - off >= DISK_ENTRY_BYTES {
        let d = data.take(end);
        assert(d.subrange(off, off + 4) =~= data.subrange(off, off + 4));
        assert(d.subrange(off + 4, off + 6) =~= data.subrange(off + 4, off + 6));
        assert(d.subrange(off + 6, off + 8) =~= data.subrange(off + 6, off + 8));
        assert(d.subrange(off + 8, off + 16) =~= data.subrange(off + 8, off + 16));
        assert(d.subrange(off + 16, off + 20) =~= data.subrange(off + 16, off + 20));
        assert(d.subrange(off + 20, off + 24) =~= data.subrange(off + 20, off + 24));
        assert(d.subrange(off + 24, off + 28) =~= data.subrange(off + 24, off + 28));
        assert(d.subrange(off + 28, off + 32) =~= data.subrange(off + 28, off + 32));
        let h = BtreeNodeDiskEntry::spec_at(data, off);
        assert(h == BtreeNodeDiskEntry::spec_at(d, off));
        let len = h.record_bytes as int;
        if !bad_record_len(len, end - off) {
            assert(d.subrange(off, off + len) =~= data.subrange(off, off + len));
            let record = data.subrange(off, off + len);
            if let Ok(es) = record_entries(
                record,
                DISK_ENTRY_BYTES as int,
                (off / 512) as u16,
                ptr.level,
            ) {
                lemma_appends_prefix(
                    data,
                    ptr,
                    off + len,
                    end,
                    put_all(acc, es),
                    crate::record::max_u64(seq, h.seq),
                );
            }
        }
    }
}

/// Bytes behind the sectors that a pointer commits do not matter.
pub proof fn lemma_pointer_boundary(data: Seq<u8>, ptr: BtreePtrV2)
    requires
        committed(ptr) <= data.len(),
    ensures
        read_extent_spec(data, ptr) == read_extent_spec(data.take(committed(ptr)), ptr),
{
    reveal(read_extent_spec);
    let end = committed(ptr);
    let d = data.take(end);
    if end >= NODE_HEADER_BYTES {
        lemma_same_header(data, d, NODE_HEADER_BYTES as int);
        let h = BtreeNodeHeader::spec_from_bytes(data);
        let len = h.record_bytes as int;
        if !bad_record_len(len, end) {
            assert(d.subrange(0, len) =~= data.subrange(0, len));
            let record = data.subrange(0, len);
            if let Ok(es) = record_entries(record, NODE_HEADER_BYTES as int, 0, ptr.level) {
                lemma_appends_prefix(
                    data,
                    ptr,
                    len,
                    end,
                    put_all(Seq::<EntryView>::empty(), es),
                    h.seq,
                );
            }
        }
    }
}

/// Whatever was changed in the initial record of an extent: unless the change
/// also yields the stored checksum, the extent is refused.
pub proof fn lemma_bad_checksum_refused(data: Seq<u8>, ptr: BtreePtrV2)
    requires
        ({
            let h = BtreeNodeHeader::spec_from_bytes(data);
            record_crc(data.subrange(0, h.record_bytes as int), NODE_CRC_OFFSET as int) != h.crc32
        }),
    ensures
        read_extent_spec(data, ptr) is Err,
{
    reveal(read_extent_spec);
}

} // verus!
