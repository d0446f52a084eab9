//! What is read from extents and from nodes, and how they are laid out.

use crate::bucket_io::initial_pointer_spec;
use crate::error::StorageError;
use crate::header::BtreeNodeHeader;
use crate::key::{BchVal, Bpos, BtreePtrV2, EntryView, KeyType};
use crate::node::{BtreeNode, NODE_JUST_WRITTEN};
use crate::node_io::{
    cleaned, merged_live, read_fault, read_to, sets_fault, sets_with_next, too_much, within,
};
use crate::node_update::revalued;
use crate::packed::{parse, total_size, well_packed};
use crate::record::{
    pos_index, put_all, put_latest, read_appends, read_extent_spec, record_crc, stored_entries,
    whole_blocks,
};
use crate::record_laws::{lemma_initial_parts, pointers_ok};
use crate::run::{
    lemma_live, lemma_live_idempotent, lemma_undeleted, not_deleted, sorted, undeleted,
};
use crate::sort::{lemma_stable_sort, stable_sort};
use crate::text::{dec, digit};
use crate::validate::{keys_fault, set_fault};
use vstd::prelude::*;

verus! {

// ── extents ─────────────────────────────────────────────────────────────

/// Records take whole blocks, and no more of them than they need.
pub proof fn lemma_whole_blocks(n: int)
    requires
        0 <= n,
    ensures
        n <= whole_blocks(n) < n + 4096,
        whole_blocks(n) % 4096 == 0,
{
}

/// Whether no position occurs twice in a run.
pub open spec fn one_each(es: Seq<EntryView>) -> bool {
    forall|i: int, j: int|
        0 <= i < j < es.len() ==> (#[trigger] es[i]).pos != (#[trigger] es[j]).pos
}

proof fn lemma_pos_index(es: Seq<EntryView>, pos: Bpos)
    ensures
        0 <= pos_index(es, pos) <= es.len(),
        pos_index(es, pos) < es.len() ==> es[pos_index(es, pos)].pos == pos,
        forall|j: int| 0 <= j < pos_index(es, pos) ==> (#[trigger] es[j]).pos != pos,
    decreases es.len(),
{
    if es.len() > 0 && es[0].pos != pos {
        let f = es.skip(1);
        lemma_pos_index(f, pos);
        assert forall|j: int| 0 <= j < pos_index(es, pos) implies (#[trigger] es[j]).pos != pos by {
            if j > 0 {
                assert(es[j] == f[j - 1]);
            }
        }
        if pos_index(es, pos) < es.len() {
            assert(es[pos_index(es, pos)] == f[pos_index(f, pos)]);
        }
    }
}

/// An entry that is put wins its position, and the others stay.
proof fn lemma_put_latest(es: Seq<EntryView>, e: EntryView, x: EntryView)
    requires
        one_each(es),
    ensures
        one_each(put_latest(es, e)),
        put_latest(es, e).contains(x) <==> x == e || (es.contains(x) && x.pos != e.pos),
{
    let i = pos_index(es, e.pos);
    let r = put_latest(es, e);
    lemma_pos_index(es, e.pos);
    if i < es.len() {
        assert(r[i] == e);
        assert forall|a: int, b: int| 0 <= a < b < r.len() implies (#[trigger] r[a]).pos != (
        #[trigger] r[b]).pos by {
            assert(es[a].pos != es[b].pos);
        }
        if es.contains(x) && x.pos != e.pos {
            let j = choose|j: int| 0 <= j < es.len() && es[j] == x;
            assert(r[j] == x);
        }
        if r.contains(x) && x != e {
            let j = choose|j: int| 0 <= j < r.len() && r[j] == x;
            assert(es[j] == x);
            if j < i {
                assert(es[j].pos != es[i].pos);
            } else {
                assert(es[i].pos != es[j].pos);
            }
        }
    } else {
        assert(r[es.len() as int] == e);
        assert forall|a: int, b: int| 0 <= a < b < r.len() implies (#[trigger] r[a]).pos != (
        #[trigger] r[b]).pos by {
            if b < es.len() {
                assert(es[a].pos != es[b].pos);
            } else {
                assert(es[a].pos != e.pos);
            }
        }
        if es.contains(x) {
            let j = choose|j: int| 0 <= j < es.len() && es[j] == x;
            assert(r[j] == x);
            assert(es[j].pos != e.pos);
        }
        if r.contains(x) && x != e {
            let j = choose|j: int| 0 <= j < r.len() && r[j] == x;
            assert(es[j] == x);
        }
    }
}

/// Whether `x` is the last entry of a run at its position.
pub open spec fn last_of_pos(es: Seq<EntryView>, x: EntryView) -> bool {
    exists|i: int|
        0 <= i < es.len() && #[trigger] es[i] == x && forall|j: int|
            i < j < es.len() ==> (#[trigger] es[j]).pos != x.pos
}

/// After the entries of a record were put, every position has the last of them
/// there, and where there is none what it had; no position occurs twice.
#[verifier::rlimit(40)]
pub proof fn lemma_put_all(acc: Seq<EntryView>, es: Seq<EntryView>, x: EntryView)
    requires
        one_each(acc),
    ensures
        one_each(put_all(acc, es)),
        put_all(acc, es).contains(x) <==> last_of_pos(es, x) || (acc.contains(x) && forall|i: int|
            0 <= i < es.len() ==> (#[trigger] es[i]).pos != x.pos),
    decreases es.len(),
{
    if es.len() > 0 {
        let f = es.drop_last();
        let e = es.last();
        lemma_put_all(acc, f, x);
        lemma_put_latest(put_all(acc, f), e, x);
        assert(es[es.len() - 1] == e);
        assert forall|i: int| 0 <= i < f.len() implies #[trigger] f[i] == es[i] by {}
        if x == e {
            assert(last_of_pos(es, x));
        } else if x.pos == e.pos {
            if last_of_pos(es, x) {
                let i = choose|i: int|
                    0 <= i < es.len() && #[trigger] es[i] == x && forall|j: int|
                        i < j < es.len() ==> (#[trigger] es[j]).pos != x.pos;
                assert(es[es.len() - 1].pos == x.pos);
            }
        } else {
            if last_of_pos(f, x) {
                let i = choose|i: int|
                    0 <= i < f.len() && #[trigger] f[i] == x && forall|j: int|
                        i < j < f.len() ==> (#[trigger] f[j]).pos != x.pos;
                assert(es[i] == x);
                assert forall|j: int| i < j < es.len() implies (#[trigger] es[j]).pos != x.pos by {
                    if j < f.len() {
                        assert(f[j] == es[j]);
                    }
                }
            }
            if last_of_pos(es, x) {
                let i = choose|i: int|
                    0 <= i < es.len() && #[trigger] es[i] == x && forall|j: int|
                        i < j < es.len() ==> (#[trigger] es[j]).pos != x.pos;
                assert(f[i] == x);
                assert forall|j: int| i < j < f.len() implies (#[trigger] f[j]).pos != x.pos by {
                    assert(f[j] == es[j]);
                }
            }
            if forall|i: int| 0 <= i < f.len() ==> (#[trigger] f[i]).pos != x.pos {
                assert forall|i: int| 0 <= i < es.len() implies (#[trigger] es[i]).pos != x.pos by {
                    if i < f.len() {
                        assert(f[i] == es[i]);
                    }
                }
            }
            if forall|i: int| 0 <= i < es.len() ==> (#[trigger] es[i]).pos != x.pos {
                assert forall|i: int| 0 <= i < f.len() implies (#[trigger] f[i]).pos != x.pos by {
                    assert(f[i] == es[i]);
                }
            }
        }
    }
}

/// What an append record leaves of an initial one: a read gives the last entry at
/// every position, that of the later record where both have one, and no tombstones.
pub proof fn lemma_append_wins(first: Seq<EntryView>, second: Seq<EntryView>, x: EntryView)
    requires
        one_each(first),
        one_each(second),
    ensures
        stable_sort(undeleted(put_all(first, second)), false).contains(x) <==> x.key_type
            != KeyType::Deleted && (second.contains(x) || (first.contains(x) && forall|i: int|
            0 <= i < second.len() ==> (#[trigger] second[i]).pos != x.pos)),
{
    let p = put_all(first, second);
    lemma_put_all(first, second, x);
    lemma_undeleted(p);
    lemma_stable_sort(undeleted(p), false);
    if second.contains(x) {
        let i = choose|i: int| 0 <= i < second.len() && second[i] == x;
        assert forall|j: int| i < j < second.len() implies (#[trigger] second[j]).pos != x.pos by {
            assert(second[i].pos != second[j].pos);
        }
        assert(last_of_pos(second, x));
    }
}

/// The stored entries of a record are its packed entries, one behind the other up
/// to its end; in an inner node all values that are as long as pointers are
/// pointers.
pub proof fn lemma_stored(b: Seq<u8>, level: u8)
    ensures
        stored_entries(b, level) matches Ok(es) ==> well_packed(b) && es == parse(b) && (level > 0
            ==> forall|i: int|
            0 <= i < es.len() && (#[trigger] es[i]).value.len() == 16
                ==> BtreePtrV2::spec_from_bytes(es[i].value) is Some),
    decreases b.len(),
{
    if b.len() > 0 && stored_entries(b, level) is Ok {
        let h = b[0] * 8;
        lemma_stored(b.skip(h), level);
        let es = stored_entries(b, level)->Ok_0;
        let rest = stored_entries(b.skip(h), level)->Ok_0;
        let e = crate::packed::decode(b.take(h));
        assert(es == seq![e] + rest);
        assert(b.take(h).subrange(24, h) =~= b.subrange(24, h));
        assert forall|i: int|
            level > 0 && 0 <= i < es.len() && (
            #[trigger] es[i]).value.len() == 16 implies BtreePtrV2::spec_from_bytes(
            es[i].value,
        ) is Some by {
            if i > 0 {
                assert(es[i] == rest[i - 1]);
            } else {
                assert(h == 40);
                assert(es[0].value =~= b.subrange(24, 40));
            }
        }
    }
}

/// The journal entry of an extent is the latest of its records: it never falls
/// behind that of an earlier record.
#[verifier::rlimit(40)]
proof fn lemma_appends_seq(
    data: Seq<u8>,
    ptr: BtreePtrV2,
    off: int,
    end: int,
    acc: Seq<EntryView>,
    seq: u64,
)
    requires
        one_each(acc),
    ensures
        read_appends(data, ptr, off, end, acc, seq) matches Ok(r) ==> r.1 >= seq && one_each(r.0),
    decreases end - off,
{
    if off < end && read_appends(data, ptr, off, end, acc, seq) is Ok {
        let h = crate::header::BtreeNodeDiskEntry::spec_at(data, off);
        let len = h.record_bytes as int;
        let record = data.subrange(off, off + len);
        let es = crate::record::record_entries(
            record,
            crate::header::DISK_ENTRY_BYTES as int,
            (off / 512) as u16,
            ptr.level,
        )->Ok_0;
        assert(one_each(put_all(acc, es))) by {
            lemma_put_all(acc, es, arbitrary());
        }
        lemma_appends_seq(
            data,
            ptr,
            off + len,
            end,
            put_all(acc, es),
            crate::record::max_u64(seq, h.seq),
        );
    }
}

/// An extent is read only where its pointer is valid, commits whole blocks that
/// are all there, and names the node that lies there: the same level, address and
/// generation, under a checksum that is right. What is read has no tombstones, is
/// in key order, has no position twice and fits a node; its journal entry is not
/// before that of the initial record, whose range it has.
#[verifier::rlimit(40)]
pub proof fn lemma_extent_read(data: Seq<u8>, ptr: BtreePtrV2)
    requires
        read_extent_spec(data, ptr) is Ok,
    ensures
        ({
            let x = read_extent_spec(data, ptr)->Ok_0;
            let h = BtreeNodeHeader::spec_from_bytes(data);
            &&& ptr.block_addr != 0
            &&& ptr.sectors_written % 8 == 0
            &&& ptr.sectors_written * 512 <= data.len()
            &&& h.level == ptr.level
            &&& h.bucket_addr == ptr.block_addr
            &&& h.generation == ptr.generation
            &&& 0 < h.record_bytes <= ptr.sectors_written * 512
            &&& h.record_bytes % 4096 == 0
            &&& record_crc(
                data.subrange(0, h.record_bytes as int),
                crate::header::NODE_CRC_OFFSET as int,
            ) == h.crc32
            &&& crate::sort::ordered(x.entries, false)
            &&& forall|i: int|
                0 <= i < x.entries.len() ==> (#[trigger] x.entries[i]).key_type != KeyType::Deleted
            &&& total_size(x.entries) <= 262144
            &&& x.seq >= h.seq
            &&& x.min_key == (Bpos {
                inode: h.min_key_inode,
                offset: h.min_key_offset,
                snapshot: h.min_key_snapshot,
            })
            &&& x.max_key == (Bpos {
                inode: h.max_key_inode,
                offset: h.max_key_offset,
                snapshot: h.max_key_snapshot,
            })
        }),
{
    reveal(read_extent_spec);
    let x = read_extent_spec(data, ptr)->Ok_0;
    let h = BtreeNodeHeader::spec_from_bytes(data);
    let len = h.record_bytes as int;
    let es = crate::record::record_entries(
        data.subrange(0, len),
        crate::header::NODE_HEADER_BYTES as int,
        0,
        ptr.level,
    )->Ok_0;
    let first = put_all(Seq::<EntryView>::empty(), es);
    lemma_put_all(Seq::<EntryView>::empty(), es, arbitrary());
    lemma_appends_seq(data, ptr, len, crate::record::committed(ptr), first, h.seq);
    let r = read_appends(data, ptr, len, crate::record::committed(ptr), first, h.seq)->Ok_0;
    lemma_undeleted(r.0);
    lemma_stable_sort(undeleted(r.0), false);
    assert forall|i: int| 0 <= i < x.entries.len() implies (#[trigger] x.entries[i]).key_type
        != KeyType::Deleted by {
        assert(x.entries.contains(x.entries[i]));
        assert(undeleted(r.0).contains(x.entries[i]));
    }
}

/// The pointer that commits the initial record of a node is the one that is made of
/// the record, and the one that is read back from its first block: to its address, over its whole length, at its level
/// and in its generation.
#[verifier::rlimit(40)]
pub proof fn lemma_initial_pointer(n: BtreeNode, addr: u64, generation: u32)
    requires
        n.wf(),
        pointers_ok(n.live(), n.level),
        n.initial_len() <= n.node_size,
    ensures
        initial_pointer_spec(n.initial_record(addr, generation), addr) == Ok::<
            BtreePtrV2,
            StorageError,
        >(n.committing_ptr(addr, generation)),
        n.committing_ptr(addr, generation).sectors_written * 512 == n.initial_record(
            addr,
            generation,
        ).len(),
        BtreeNode::initial_ptr(n.initial_record(addr, generation)) == n.committing_ptr(
            addr,
            generation,
        ),
        n.committing_ptr(addr, generation).block_addr == addr,
        n.committing_ptr(addr, generation).level == n.level,
        n.committing_ptr(addr, generation).generation == generation,
{
    lemma_initial_parts(n, addr, generation);
    n.lemma_live_facts();
    crate::record::lemma_total_multiple(n.live());
    lemma_whole_blocks(
        crate::header::NODE_HEADER_BYTES + crate::header::BSET_HEADER_BYTES + total_size(n.live()),
    );
    assert(n.node_size <= 262144) by {
        reveal(BtreeNode::wf);
    }
}

// ── nodes that were read ────────────────────────────────────────────────

/// The entries in a range are those of the run that lie in it, both ends included,
/// in their order.
pub proof fn lemma_within(es: Seq<EntryView>, min: Bpos, max: Bpos)
    ensures
        forall|x: EntryView| #[trigger]
            within(es, min, max).contains(x) <==> es.contains(x) && !x.pos.lt(min) && !max.lt(
                x.pos,
            ),
        sorted(es) ==> sorted(within(es, min, max)),
    decreases es.len(),
{
    if es.len() > 0 {
        let f = es.drop_last();
        let e = es.last();
        lemma_within(f, min, max);
        let w = within(es, min, max);
        let v = within(f, min, max);
        assert(es =~= f.push(e));
        assert forall|x: EntryView| #[trigger] w.contains(x) <==> es.contains(x) && !x.pos.lt(min)
            && !max.lt(x.pos) by {
            crate::laws_gc::lemma_in_push(f, e, x);
            crate::laws_gc::lemma_in_push(v, e, x);
        }
        if sorted(es) {
            assert forall|i: int, j: int| 0 <= i < j < f.len() implies (#[trigger] f[i]).key().lt(
                (#[trigger] f[j]).key(),
            ) by {
                assert(es[i].key().lt(es[j].key()));
            }
            assert(sorted(v));
            assert forall|i: int, j: int| 0 <= i < j < w.len() implies (#[trigger] w[i]).key().lt(
                (#[trigger] w[j]).key(),
            ) by {
                if j < v.len() {
                    assert(v[i].key().lt(v[j].key()));
                } else {
                    assert(v.contains(w[i]));
                    let k = choose|k: int| 0 <= k < f.len() && f[k] == w[i];
                    assert(es[k].key().lt(es[es.len() - 1].key()));
                }
            }
        }
    }
}

/// A read keeps the live entries of a node that lie in its range, and no others; a
/// node whose range is empty keeps them all.
#[verifier::rlimit(40)]
pub proof fn lemma_read_keeps(n: BtreeNode, new: BtreeNode, x: EntryView)
    requires
        read_to(n, new),
    ensures
        !n.max_key.lt(n.min_key) ==> (new.all().contains(x) <==> merged_live(n).contains(x)
            && !x.pos.lt(n.min_key) && !n.max_key.lt(x.pos)),
        n.max_key.lt(n.min_key) ==> (new.all().contains(x) <==> merged_live(n).contains(x)),
        sorted(new.all()),
{
    let es = merged_live(n);
    let w = within(es, n.min_key, n.max_key);
    lemma_live(n.read_run(0));
    lemma_live(stable_sort(n.read_all(), true));
    lemma_within(es, n.min_key, n.max_key);
    assert forall|i: int| 0 <= i < w.len() implies not_deleted(#[trigger] w[i]) by {
        assert(w.contains(w[i]));
        let j = choose|j: int| 0 <= j < es.len() && es[j] == w[i];
        assert(not_deleted(es[j]));
    }
    lemma_live_idempotent(w);
}

/// A node is read without a fault just if it has space, every set in use lies well
/// and holds good keys, and the sets together fit; else the first set that does
/// not is told.
pub proof fn lemma_read_fault(n: BtreeNode)
    ensures
        read_fault(n) is None <==> n.data@.len() > 0 && n.node_size > 0 && !too_much(n) && forall|
            i: int,
        |
            0 <= i < n.spec_nsets() ==> set_fault(#[trigger] n.sets@[i], i, n.node_size) is None
                && keys_fault(n.data@, n.sets@[i], i) is None,
{
    lemma_sets_fault(n, 0);
}

proof fn lemma_sets_fault(n: BtreeNode, i: int)
    requires
        0 <= i <= 3,
    ensures
        sets_fault(n, i) is None <==> forall|j: int|
            i <= j < n.spec_nsets() ==> set_fault(#[trigger] n.sets@[j], j, n.node_size) is None
                && keys_fault(n.data@, n.sets@[j], j) is None,
    decreases 3 - i,
{
    if i < n.spec_nsets() {
        lemma_sets_fault(n, i + 1);
    }
}

/// A node that is tidied up after it was written shows what it showed, and does
/// not count as just written.
pub proof fn lemma_cleaned_shows(n: BtreeNode, new: BtreeNode)
    requires
        cleaned(n, new),
    ensures
        new.live() == n.live(),
        new.flags & NODE_JUST_WRITTEN == 0,
        new.level == n.level,
        new.min_key == n.min_key && new.max_key == n.max_key,
{
    let m = BtreeNode { flags: n.flags & !NODE_JUST_WRITTEN, ..n };
    let f = n.flags;
    assert((f & !0x10u8) & 0x10u8 == 0) by (bit_vector);
    lemma_live(m.all());
    assert(m.all() == n.all()) by {
        assert(m.run(0) == n.run(0) && m.run(1) == n.run(1) && m.run(2) == n.run(2));
    }
    lemma_live_idempotent(m.live());
}

/// A set that is set up for more entries is empty, starts at a multiple of 8
/// behind all sets in use, and leaves those as they are.
pub proof fn lemma_next_set(n: BtreeNode, i: int)
    requires
        n.sets@.len() == 3,
        n.spec_nsets() < 3,
        0 <= i < n.spec_nsets(),
        forall|j: int|
            0 <= j < 3 ==> (#[trigger] n.sets@[j]).end_offset <= 0x1_0000_0000 - 8
                && n.sets@[j].aux_offset + n.sets@[j].size * 20 < 0x1_0000_0000 - 8,
    ensures
        ({
            let s = sets_with_next(n);
            let k = n.spec_nsets() as int;
            &&& s.len() == 3
            &&& s[i] == n.sets@[i]
            &&& s[k].size == 0
            &&& s[k].data_offset == s[k].end_offset
            &&& s[k].data_offset % 8 == 0
            &&& s[k].data_offset >= n.sets@[i].end_offset
        }),
{
}

// ── values ──────────────────────────────────────────────────────────────

/// An entry whose value was replaced as that of an extent reads as the new one; it
/// stays where it was, and the bytes of its value behind the first eight stay.
pub proof fn lemma_revalued(e: EntryView, v: BchVal)
    requires
        v.paddr.addr < 0x1_0000_0000_0000,
        e.value.len() >= 8,
    ensures
        revalued(e, v).bch_val() == v,
        revalued(e, v).pos == e.pos,
        revalued(e, v).key_type == e.key_type,
        revalued(e, v).value.len() == e.value.len(),
        forall|i: int|
            8 <= i < e.value.len() ==> #[trigger] revalued(e, v).value[i] == e.value[i],
{
    crate::key::lemma_bch_val_roundtrip(v);
    let b = v.spec_bytes();
    let r = revalued(e, v).value;
    assert(r.subrange(0, 6) =~= b.subrange(0, 6));
    assert(r.subrange(6, 8) =~= b.subrange(6, 8));
}

// ── numbers as text ─────────────────────────────────────────────────────

/// The number that a run of decimal digits stands for.
pub open spec fn number_of(s: Seq<char>) -> int
    decreases s.len(),
{
    if s.len() == 0 {
        0
    } else {
        number_of(s.drop_last()) * 10 + (s.last() as int - 48)
    }
}

/// A number in decimal has digits only, stands for the number, and does not start
/// with a zero unless it is one.
pub proof fn lemma_dec(v: nat)
    ensures
        dec(v).len() > 0,
        forall|i: int| 0 <= i < dec(v).len() ==> 48 <= (#[trigger] dec(v)[i]) as int <= 57,
        number_of(dec(v)) == v,
        v > 0 ==> dec(v)[0] as int != 48,
    decreases v,
{
    if v < 10 {
        assert(dec(v).drop_last() =~= Seq::<char>::empty());
        assert(dec(v).last() == digit(v as int));
        lemma_digit(v as int);
        assert(number_of(dec(v).drop_last()) == 0);
    } else {
        lemma_dec(v / 10);
        lemma_digit((v % 10) as int);
        assert(dec(v).drop_last() =~= dec(v / 10));
        assert(dec(v).last() == digit((v % 10) as int));
        assert(number_of(dec(v)) == number_of(dec(v / 10)) * 10 + v % 10);
    }
}

proof fn lemma_digit(d: int)
    requires
        0 <= d < 10,
    ensures
        digit(d) as int == 48 + d,
{
    let x = ('0' as u8 + d) as u8;
    assert(x == 48 + d);
    assert(x as char as int == x);
}

} // verus!
