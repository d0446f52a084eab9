//! Packed entries: how a run of entries lies in a byte buffer.
//!
//! An entry starts with three bytes (its size in u64s, the format, the type),
//! followed by the inode, the offset and the snapshot, a zero byte, and the
//! value padded to whole u64s.

use crate::key::{
    pad8, BchVal, Bpos, BtreeEntry, BtreeKey, EntryView, KeyType, KeyValue, BKEY_U64S,
    KEY_FORMAT_CURRENT,
};
use crate::le::{
    get_le, le_at, le_bytes, lemma_le_bytes_len, lemma_le_roundtrip, lemma_pow256_values, put_bytes,
    put_le, put_zeros, splice,
};
use vstd::prelude::*;
use vstd::slice::slice_subrange;

verus! {

/// The bytes of one packed entry.
pub open spec fn encode(e: EntryView) -> Seq<u8> {
    seq![e.u64s() as u8, KEY_FORMAT_CURRENT, e.key_type.spec_code()] + le_bytes(
        e.pos.inode as nat,
        8,
    ) + le_bytes(e.pos.offset as nat, 8) + le_bytes(e.pos.snapshot as nat, 4) + seq![0u8] + pad8(
        e.value,
    )
}

/// The bytes of a run of packed entries.
pub open spec fn encode_all(es: Seq<EntryView>) -> Seq<u8>
    decreases es.len(),
{
    if es.len() == 0 {
        Seq::<u8>::empty()
    } else {
        encode_all(es.drop_last()) + encode(es.last())
    }
}

/// The entry whose packed bytes are `b`.
pub open spec fn decode(b: Seq<u8>) -> EntryView {
    EntryView {
        pos: Bpos {
            inode: le_at(b, 3, 8) as u64,
            offset: le_at(b, 11, 8) as u64,
            snapshot: le_at(b, 19, 4) as u32,
        },
        key_type: KeyType::spec_from_u8(b[2]),
        value: b.skip(24),
    }
}

/// Whether `b` starts with an entry that lies wholly inside it.
pub open spec fn head_ok(b: Seq<u8>) -> bool {
    b.len() > 0 && b[0] >= BKEY_U64S && b[0] * 8 <= b.len()
}

/// Whether `b` is a run of packed entries and nothing else.
pub open spec fn well_packed(b: Seq<u8>) -> bool
    decreases b.len(),
{
    b.len() == 0 || (head_ok(b) && well_packed(b.skip(b[0] * 8)))
}

/// The entries that `b` starts with.
pub open spec fn parse(b: Seq<u8>) -> Seq<EntryView>
    decreases b.len(),
{
    if head_ok(b) {
        seq![decode(b.take(b[0] * 8))] + parse(b.skip(b[0] * 8))
    } else {
        Seq::<EntryView>::empty()
    }
}

/// The bytes that a run of entries takes.
pub open spec fn total_size(es: Seq<EntryView>) -> int
    decreases es.len(),
{
    if es.len() == 0 {
        0
    } else {
        es[0].u64s() * 8 + total_size(es.skip(1))
    }
}

/// Whether every entry fits into its size byte.
pub open spec fn all_fit(es: Seq<EntryView>) -> bool {
    forall|i: int| 0 <= i < es.len() ==> (#[trigger] es[i]).fits()
}

/// The entries with their values padded to whole u64s.
pub open spec fn all_padded(es: Seq<EntryView>) -> Seq<EntryView> {
    es.map_values(|e: EntryView| e.padded())
}

/// The entry at offset `off` of `d`.
pub open spec fn entry_at(d: Seq<u8>, off: int) -> EntryView {
    decode(d.subrange(off, off + d[off] * 8))
}

/// Whether `d` starts with the entries `es`, packed.
#[verifier::opaque]
pub open spec fn starts_with(d: Seq<u8>, es: Seq<EntryView>) -> bool {
    total_size(es) <= d.len() && d.take(total_size(es)) == encode_all(es)
}

/// Whether `new` is `d` with `e`, packed, written at `off`.
#[verifier::opaque]
pub open spec fn wrote(d: Seq<u8>, new: Seq<u8>, off: int, e: EntryView) -> bool {
    new == splice(d, off, encode(e))
}

/// The bytes of a run hold each of its entries where those before it end.
pub proof fn lemma_encoded_at(es: Seq<EntryView>, j: int)
    requires
        all_fit(es),
        0 <= j < es.len(),
    ensures
        0 <= total_size(es.take(j)),
        total_size(es.take(j + 1)) == total_size(es.take(j)) + es[j].u64s() * 8,
        total_size(es.take(j + 1)) <= encode_all(es).len(),
        encode_all(es).subrange(total_size(es.take(j)), total_size(es.take(j + 1))) == encode(
            es[j],
        ),
    decreases es.len(),
{
    let f = es.drop_last();
    assert(es.take(j + 1) =~= es.take(j).push(es[j]));
    lemma_total_push(es.take(j), es[j]);
    lemma_total_bound(es.take(j));
    lemma_parse_encode_all(f);
    lemma_encode_len(es.last());
    if j == es.len() - 1 {
        assert(es.take(j) =~= f);
        assert(encode_all(es).subrange(total_size(f), encode_all(es).len() as int) =~= encode(
            es.last(),
        ));
    } else {
        lemma_encoded_at(f, j);
        assert(f.take(j) =~= es.take(j));
        assert(f.take(j + 1) =~= es.take(j + 1));
        assert(encode_all(es).subrange(total_size(es.take(j)), total_size(es.take(j + 1)))
            =~= encode_all(f).subrange(total_size(es.take(j)), total_size(es.take(j + 1))));
    }
}

pub proof fn lemma_encode_len(e: EntryView)
    requires
        e.fits(),
    ensures
        encode(e).len() == e.u64s() * 8,
        pad8(e.value).len() == (e.u64s() - 3) * 8,
        e.u64s() >= 3,
{
    lemma_le_bytes_len(e.pos.inode as nat, 8);
    lemma_le_bytes_len(e.pos.offset as nat, 8);
    lemma_le_bytes_len(e.pos.snapshot as nat, 4);
}

/// A packed entry reads back as the entry, its value padded.
pub proof fn lemma_decode_encode(e: EntryView)
    requires
        e.fits(),
    ensures
        encode(e).len() == e.u64s() * 8,
        encode(e)[0] as int == e.u64s(),
        decode(encode(e)) == e.padded(),
        head_ok(encode(e)),
        well_packed(encode(e)),
        parse(encode(e)) == seq![e.padded()],
{
    lemma_encode_len(e);
    lemma_pow256_values();
    lemma_le_roundtrip(e.pos.inode as nat, 8);
    lemma_le_roundtrip(e.pos.offset as nat, 8);
    lemma_le_roundtrip(e.pos.snapshot as nat, 4);
    let b = encode(e);
    assert(b.subrange(3, 11) =~= le_bytes(e.pos.inode as nat, 8));
    assert(b.subrange(11, 19) =~= le_bytes(e.pos.offset as nat, 8));
    assert(b.subrange(19, 23) =~= le_bytes(e.pos.snapshot as nat, 4));
    assert(b.skip(24) =~= pad8(e.value));
    assert(b[2] == e.key_type.spec_code());
    assert(decode(b) =~= e.padded());
    assert(b.take(b[0] * 8) =~= b);
    assert(b.skip(b[0] * 8) =~= Seq::<u8>::empty());
    assert(parse(b.skip(b[0] * 8)) =~= Seq::<EntryView>::empty());
    assert(well_packed(b.skip(b[0] * 8)));
    assert(parse(b) =~= seq![e.padded()]);
}

/// A run of entries followed by more bytes parses as the run followed by what
/// the rest parses as.
pub proof fn lemma_parse_append(a: Seq<u8>, b: Seq<u8>)
    requires
        well_packed(a),
    ensures
        parse(a + b) == parse(a) + parse(b),
        well_packed(a + b) == well_packed(b),
    decreases a.len(),
{
    if a.len() == 0 {
        assert(a + b =~= b);
        assert(parse(a) + parse(b) =~= parse(b));
    } else {
        let h = a[0] * 8;
        let c = a + b;
        assert(c[0] == a[0]);
        assert(c.take(h) =~= a.take(h));
        assert(c.skip(h) =~= a.skip(h) + b);
        lemma_parse_append(a.skip(h), b);
        assert(parse(c) =~= parse(a) + parse(b));
    }
}

/// One more packed entry behind a run of entries.
pub proof fn lemma_parse_push(a: Seq<u8>, e: EntryView)
    requires
        well_packed(a),
        e.fits(),
    ensures
        well_packed(a + encode(e)),
        parse(a + encode(e)) == parse(a).push(e.padded()),
{
    lemma_decode_encode(e);
    lemma_parse_append(a, encode(e));
    assert(parse(a) + seq![e.padded()] =~= parse(a).push(e.padded()));
}

/// A packed run reads back as the run, its values padded.
pub proof fn lemma_parse_encode_all(es: Seq<EntryView>)
    requires
        all_fit(es),
    ensures
        well_packed(encode_all(es)),
        parse(encode_all(es)) == all_padded(es),
        encode_all(es).len() == total_size(es),
    decreases es.len(),
{
    if es.len() > 0 {
        let front = es.drop_last();
        lemma_parse_encode_all(front);
        lemma_parse_push(encode_all(front), es.last());
        lemma_encode_len(es.last());
        assert(all_padded(es) =~= all_padded(front).push(es.last().padded()));
        assert(es =~= front.push(es.last()));
        lemma_total_push(front, es.last());
    } else {
        assert(all_padded(es) =~= Seq::<EntryView>::empty());
    }
}

pub proof fn lemma_total_push(es: Seq<EntryView>, e: EntryView)
    ensures
        total_size(es.push(e)) == total_size(es) + e.u64s() * 8,
    decreases es.len(),
{
    if es.len() == 0 {
        assert(es.push(e).skip(1) =~= Seq::<EntryView>::empty());
        assert(total_size(es.push(e).skip(1)) == 0);
    } else {
        lemma_total_push(es.skip(1), e);
        assert(es.push(e).skip(1) =~= es.skip(1).push(e));
    }
}

pub proof fn lemma_total_append(a: Seq<EntryView>, b: Seq<EntryView>)
    ensures
        total_size(a + b) == total_size(a) + total_size(b),
    decreases a.len(),
{
    if a.len() == 0 {
        assert(a + b =~= b);
    } else {
        lemma_total_append(a.skip(1), b);
        assert((a + b).skip(1) =~= a.skip(1) + b);
    }
}

/// Every entry takes at least a packed key.
pub proof fn lemma_total_bound(es: Seq<EntryView>)
    ensures
        total_size(es) >= 24 * es.len(),
    decreases es.len(),
{
    if es.len() > 0 {
        lemma_total_bound(es.skip(1));
    }
}

/// What the entries of a packed run look like, and that they fill it.
pub proof fn lemma_parse_shape(b: Seq<u8>)
    requires
        well_packed(b),
    ensures
        total_size(parse(b)) == b.len(),
        parse(b).len() * 24 <= b.len(),
        all_fit(parse(b)),
        forall|i: int| 0 <= i < parse(b).len() ==> (#[trigger] parse(b)[i]).is_padded(),
        all_padded(parse(b)) == parse(b),
    decreases b.len(),
{
    let p = parse(b);
    if b.len() > 0 {
        let h = b[0] * 8;
        let rest = b.skip(h);
        lemma_parse_shape(rest);
        assert(p.skip(1) =~= parse(rest));
        assert(p[0].value.len() == h - 24);
        assert forall|i: int| 0 <= i < p.len() implies (#[trigger] p[i]).is_padded()
            && p[i].fits() by {
            if i > 0 {
                assert(p[i] == parse(rest)[i - 1]);
            }
        }
    }
    assert forall|i: int| 0 <= i < p.len() implies (#[trigger] p[i]).padded() == p[i] by {
        crate::key::lemma_padded(p[i]);
    }
    assert(all_padded(p) =~= p);
}

/// Where the entry number `j` of a packed run lies.
pub proof fn lemma_parse_at(b: Seq<u8>, j: int)
    requires
        well_packed(b),
        0 <= j <= parse(b).len(),
    ensures
        ({
            let off = total_size(parse(b).take(j));
            &&& 0 <= off <= b.len()
            &&& well_packed(b.skip(off))
            &&& parse(b.skip(off)) == parse(b).skip(j)
            &&& j < parse(b).len() ==> off < b.len() && head_ok(b.skip(off)) && entry_at(b, off)
                == parse(b)[j] && b[off] as int == parse(b)[j].u64s() && off + b[off] * 8
                <= b.len()
        }),
    decreases j,
{
    let p = parse(b);
    let off = total_size(p.take(j));
    if j == 0 {
        assert(p.take(0) =~= Seq::<EntryView>::empty());
        assert(b.skip(0) =~= b);
        assert(p.skip(0) =~= p);
        if p.len() > 0 {
            assert(b.subrange(0, b[0] * 8) =~= b.take(b[0] * 8));
        }
    } else {
        let h = b[0] * 8;
        let rest = b.skip(h);
        assert(p.skip(1) =~= parse(rest));
        assert(p.take(j).skip(1) =~= parse(rest).take(j - 1));
        lemma_parse_at(rest, j - 1);
        let roff = total_size(parse(rest).take(j - 1));
        assert(off == h + roff);
        assert(b.skip(off) =~= rest.skip(roff));
        assert(p.skip(j) =~= parse(rest).skip(j - 1));
        if j < p.len() {
            assert(b[off] == rest[roff]);
            assert(b.subrange(off, off + b[off] * 8) =~= rest.subrange(
                roff,
                roff + rest[roff] * 8,
            ));
            assert(p[j] == parse(rest)[j - 1]);
        }
    }
}

/// One step along a packed run.
pub proof fn lemma_step(d: Seq<u8>, cur: int, end: int)
    requires
        0 <= cur < end <= d.len(),
        well_packed(d.subrange(cur, end)),
    ensures
        BKEY_U64S <= d[cur],
        cur + d[cur] * 8 <= end,
        well_packed(d.subrange(cur + d[cur] * 8, end)),
        parse(d.subrange(cur, end)) == seq![entry_at(d, cur)] + parse(
            d.subrange(cur + d[cur] * 8, end),
        ),
        entry_at(d, cur).is_padded(),
        entry_at(d, cur).u64s() == d[cur],
{
    let b = d.subrange(cur, end);
    let h = b[0] * 8;
    assert(b[0] == d[cur]);
    assert(b.take(h) =~= d.subrange(cur, cur + h));
    assert(b.skip(h) =~= d.subrange(cur + h, end));
    assert(entry_at(d, cur).value.len() == h - 24);
}

/// Where the entry number `j` of the run between `lo` and `hi` lies.
pub proof fn lemma_entry_pos(d: Seq<u8>, lo: int, hi: int, j: int)
    requires
        0 <= lo <= hi <= d.len(),
        well_packed(d.subrange(lo, hi)),
        0 <= j < parse(d.subrange(lo, hi)).len(),
    ensures
        ({
            let es = parse(d.subrange(lo, hi));
            let off = lo + total_size(es.take(j));
            &&& lo <= off
            &&& off + 24 <= hi
            &&& d[off] >= BKEY_U64S
            &&& d[off] as int == es[j].u64s()
            &&& off + d[off] * 8 <= hi
            &&& entry_at(d, off) == es[j]
        }),
{
    let b = d.subrange(lo, hi);
    let es = parse(b);
    lemma_parse_at(b, j);
    let r = total_size(es.take(j));
    assert(b.subrange(r, r + b[r] * 8) =~= d.subrange(lo + r, lo + r + b[r] * 8));
    assert(b.skip(r)[0] == b[r]);
}

/// Writes the packed entry with the given parts at `off`; returns its size in bytes.
pub fn write_packed(
    d: &mut Vec<u8>,
    off: usize,
    pos: &Bpos,
    key_type: KeyType,
    value: &[u8],
) -> (size: usize)
    requires
        (EntryView { pos: *pos, key_type, value: value@ }).fits(),
        off + (EntryView { pos: *pos, key_type, value: value@ }).u64s() * 8 <= old(d)@.len(),
    ensures
        ({
            let e = EntryView { pos: *pos, key_type, value: value@ };
            &&& size == e.u64s() * 8
            &&& final(d)@ == splice(old(d)@, off as int, encode(e))
        }),
{
    let ghost e = EntryView { pos: *pos, key_type, value: value@ };
    let ghost d0 = d@;
    let total: usize = d.len();
    let n: usize = value.len();
    let words: usize = (n + 7) / 8;
    let u64s: usize = 3 + words;
    let code: u8 = key_type.code();
    d.set(off, u64s as u8);
    d.set(off + 1, KEY_FORMAT_CURRENT);
    d.set(off + 2, code);
    let ghost p0 = seq![u64s as u8, KEY_FORMAT_CURRENT, code];
    assert(d@ =~= splice(d0, off as int, p0));
    put_le(d, off + 3, 8, pos.inode);
    put_le(d, off + 11, 8, pos.offset);
    put_le(d, off + 19, 4, pos.snapshot as u64);
    d.set(off + 23, 0);
    put_bytes(d, off + 24, value);
    put_zeros(d, off + 24 + n, words * 8 - n);
    proof {
        let p1 = le_bytes(pos.inode as nat, 8);
        let p2 = le_bytes(pos.offset as nat, 8);
        let p3 = le_bytes(pos.snapshot as nat, 4);
        let z = Seq::new((words * 8 - n) as nat, |i: int| 0u8);
        lemma_le_bytes_len(pos.inode as nat, 8);
        lemma_le_bytes_len(pos.offset as nat, 8);
        lemma_le_bytes_len(pos.snapshot as nat, 4);
        assert(pad8(value@) =~= value@ + z);
        assert(d@ =~= splice(d0, off as int, encode(e)));
    }
    u64s * 8
}

/// The position of the packed entry at `off`.
pub fn read_pos(d: &[u8], off: usize) -> (r: Bpos)
    requires
        off + 24 <= d@.len(),
        off + d@[off as int] * 8 <= d@.len(),
        d@[off as int] >= BKEY_U64S,
    ensures
        r == entry_at(d@, off as int).pos,
{
    let total: usize = d.len();
    let ghost b = d@.subrange(off as int, off + d@[off as int] * 8);
    proof {
        lemma_pow256_values();
        assert(b.subrange(3, 11) =~= d@.subrange(off + 3, off + 11));
        assert(b.subrange(11, 19) =~= d@.subrange(off + 11, off + 19));
        assert(b.subrange(19, 23) =~= d@.subrange(off + 19, off + 23));
    }
    let inode: u64 = get_le(d, off + 3, 8);
    let offset: u64 = get_le(d, off + 11, 8);
    let snapshot: u64 = get_le(d, off + 19, 4);
    Bpos { inode, offset, snapshot: snapshot as u32 }
}

/// The type of the packed entry at `off`.
pub fn read_type(d: &[u8], off: usize) -> (r: KeyType)
    requires
        off + 24 <= d@.len(),
        d@[off as int] >= BKEY_U64S,
        off + d@[off as int] * 8 <= d@.len(),
    ensures
        r == entry_at(d@, off as int).key_type,
{
    let total: usize = d.len();
    KeyType::from_u8(d[off + 2])
}

/// The value bytes of the packed entry at `off`.
pub fn read_value<'a>(d: &'a [u8], off: usize) -> (r: &'a [u8])
    requires
        off + 24 <= d@.len(),
        d@[off as int] >= BKEY_U64S,
        off + d@[off as int] * 8 <= d@.len(),
    ensures
        r@ == entry_at(d@, off as int).value,
{
    let total: usize = d.len();
    let end: usize = off + d[off] as usize * 8;
    let r = slice_subrange(d, off + 24, end);
    assert(r@ =~= entry_at(d@, off as int).value);
    r
}

/// The packed entry at `off` as key and extent value.
pub fn read_extent(d: &[u8], off: usize) -> (r: (BtreeKey, BchVal))
    requires
        off + 24 <= d@.len(),
        d@[off as int] >= BKEY_U64S,
        off + d@[off as int] * 8 <= d@.len(),
    ensures
        r == (entry_at(d@, off as int).key(), entry_at(d@, off as int).bch_val()),
        r.1.paddr.addr < crate::key::ADDR48_LIMIT,
{
    let pos = read_pos(d, off);
    let key_type = read_type(d, off);
    let val = BchVal::from_bytes(read_value(d, off));
    (BtreeKey::from_bpos(pos, key_type), val)
}

/// The packed entry at `off` of a node at `level`.
pub fn read_full(d: &[u8], off: usize, level: u8) -> (r: BtreeEntry)
    requires
        off + 24 <= d@.len(),
        d@[off as int] >= BKEY_U64S,
        off + d@[off as int] * 8 <= d@.len(),
    ensures
        r@ == entry_at(d@, off as int),
        r.value.decodes(level, entry_at(d@, off as int).value),
{
    let pos = read_pos(d, off);
    let key_type = read_type(d, off);
    let value = KeyValue::decode(level, read_value(d, off));
    BtreeEntry { pos, key_type, value }
}

} // verus!
