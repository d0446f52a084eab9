//! Compaction: all sets become one sorted set with aux arrays.

use crate::key::{lemma_padded, BchVal, BtreeEntry, BtreeKey, EntryView};
use crate::le::{lemma_le_bytes_len, lemma_splice_frame, lemma_splice_subrange, put_le, splice};
use crate::node::{
    aux_record, aux_slot, aux_valid, lemma_run_bound, record_of, set_bytes, set_readable,
    BsetTree, BtreeNode, AUX_ENTRY_BYTES, DEFAULT_NODE_SIZE, EYTZINGER_MIN_ENTRIES,
};
use crate::node_read::lemma_aux_record;
use crate::packed::{
    all_fit, all_padded, encode, encode_all, lemma_encode_len, lemma_parse_encode_all,
    lemma_parse_shape, lemma_total_append, lemma_total_bound, lemma_total_push, starts_with,
    total_size,
};
use crate::run::{
    all_read_at, lemma_live, lemma_live_idempotent, lemma_lower_bound_range, live, live_of, merged,
    not_deleted, read_at, sorted, undeleted, views,
};
use crate::sort::{lemma_padded_ordered, lemma_sorted_ordered, ordered};
use vstd::prelude::*;

verus! {

// ── sizes of merged runs ────────────────────────────────────────────────

proof fn lemma_total_update(es: Seq<EntryView>, i: int, e: EntryView)
    requires
        0 <= i < es.len(),
    ensures
        total_size(es.update(i, e)) == total_size(es) - es[i].u64s() * 8 + e.u64s() * 8,
    decreases es.len(),
{
    if i == 0 {
        assert(es.update(0, e).skip(1) =~= es.skip(1));
    } else {
        lemma_total_update(es.skip(1), i - 1, e);
        assert(es.update(i, e).skip(1) =~= es.skip(1).update(i - 1, e));
    }
}

proof fn lemma_total_insert(es: Seq<EntryView>, i: int, e: EntryView)
    requires
        0 <= i <= es.len(),
    ensures
        total_size(es.insert(i, e)) == total_size(es) + e.u64s() * 8,
{
    assert(es.insert(i, e) =~= es.take(i).push(e) + es.skip(i));
    assert(es =~= es.take(i) + es.skip(i));
    lemma_total_append(es.take(i).push(e), es.skip(i));
    lemma_total_append(es.take(i), es.skip(i));
    lemma_total_push(es.take(i), e);
}

proof fn lemma_total_merged(es: Seq<EntryView>)
    ensures
        total_size(merged(es)) <= total_size(es),
        merged(es).len() <= es.len(),
    decreases es.len(),
{
    if es.len() > 0 {
        let front = es.drop_last();
        let m = merged(front);
        let e = es.last();
        lemma_total_merged(front);
        lemma_lower_bound_range(m, e.key());
        let i = crate::run::lower_bound(m, e.key());
        if i < m.len() && m[i].key().same_slot(e.key()) {
            lemma_total_update(m, i, e);
        } else {
            lemma_total_insert(m, i, e);
        }
        assert(es =~= front.push(e));
        lemma_total_push(front, e);
    }
}

proof fn lemma_total_undeleted(es: Seq<EntryView>)
    ensures
        total_size(undeleted(es)) <= total_size(es),
    decreases es.len(),
{
    if es.len() > 0 {
        let front = es.drop_last();
        lemma_total_undeleted(front);
        assert(es =~= front.push(es.last()));
        lemma_total_push(front, es.last());
        lemma_total_push(undeleted(front), es.last());
    }
}

/// The live entries take no more room than the entries they come from.
pub proof fn lemma_total_live(es: Seq<EntryView>)
    ensures
        total_size(live(es)) <= total_size(es),
        live(es).len() <= es.len(),
{
    lemma_total_merged(es);
    lemma_total_undeleted(merged(es));
    lemma_live(es);
}

/// Every live entry is an entry.
pub proof fn lemma_live_member(es: Seq<EntryView>, i: int)
    requires
        0 <= i < live(es).len(),
    ensures
        es.contains(live(es)[i]),
{
    lemma_live(es);
    assert(live(es).contains(live(es)[i]));
    lemma_last_in_member(es, live(es)[i].key());
}

proof fn lemma_last_in_member(es: Seq<EntryView>, k: BtreeKey)
    ensures
        crate::run::last_in(es, k) matches Some(e) ==> es.contains(e),
    decreases es.len(),
{
    if es.len() > 0 {
        if es.last().key().same_slot(k) {
            assert(es[es.len() - 1] == es.last());
        } else {
            lemma_last_in_member(es.drop_last(), k);
            if let Some(e) = crate::run::last_in(es.drop_last(), k) {
                let j = choose|j: int| 0 <= j < es.drop_last().len() && es.drop_last()[j] == e;
                assert(es[j] == e);
            }
        }
    }
}

impl BtreeNode {
    /// What is known of the entries of a well-formed node.
    pub proof fn lemma_all(self)
        requires
            self.wf(),
        ensures
            all_fit(self.all()),
            forall|i: int| 0 <= i < self.all().len() ==> (#[trigger] self.all()[i]).is_padded(),
            total_size(self.all()) <= self.data@.len(),
            self.all().len() <= 10922,
            self.all().len() * 24 <= self.data@.len(),
            self.key_count <= self.all().len(),
            self.node_size <= self.data@.len() <= DEFAULT_NODE_SIZE,
    {
        reveal(BtreeNode::wf);
        assert(set_readable(self.data@, self.sets@[0]));
        assert(set_readable(self.data@, self.sets@[1]));
        assert(set_readable(self.data@, self.sets@[2]));
        lemma_parse_shape(set_bytes(self.data@, self.sets@[0]));
        lemma_parse_shape(set_bytes(self.data@, self.sets@[1]));
        lemma_parse_shape(set_bytes(self.data@, self.sets@[2]));
        lemma_total_append(self.run(0) + self.run(1), self.run(2));
        lemma_total_append(self.run(0), self.run(1));
        lemma_total_bound(self.all());
        let n0 = self.run(0).len() as int;
        let n1 = self.run(1).len() as int;
        assert forall|i: int| 0 <= i < self.all().len() implies (
        #[trigger] self.all()[i]).is_padded() && self.all()[i].fits() by {
            if i < n0 {
                assert(self.all()[i] == self.run(0)[i]);
            } else if i < n0 + n1 {
                assert(self.all()[i] == self.run(1)[i - n0]);
            } else {
                assert(self.all()[i] == self.run(2)[i - n0 - n1]);
            }
        }
    }

    /// What is known of the live entries of a well-formed node.
    pub proof fn lemma_live_facts(self)
        requires
            self.wf(),
        ensures
            all_fit(self.live()),
            all_padded(self.live()) == self.live(),
            total_size(self.live()) <= total_size(self.all()) <= self.data@.len(),
            self.node_size <= self.data@.len() <= DEFAULT_NODE_SIZE,
            self.live().len() <= self.all().len() <= 10922,
            self.live().len() * 24 <= total_size(self.live()),
            sorted(self.live()),
            forall|i: int| 0 <= i < self.live().len() ==> not_deleted(#[trigger] self.live()[i]),
    {
        reveal(BtreeNode::wf);
        let es = self.all();
        self.lemma_all();
        lemma_total_live(es);
        lemma_live(es);
        lemma_total_bound(live(es));
        assert forall|i: int| 0 <= i < live(es).len() implies (#[trigger] live(es)[i]).fits()
            && live(es)[i].padded() == live(es)[i] by {
            lemma_live_member(es, i);
            let j = choose|j: int| 0 <= j < es.len() && es[j] == live(es)[i];
            assert(es[j].is_padded());
            lemma_padded(es[j]);
        }
        assert(all_padded(live(es)) =~= live(es));
    }

    /// The entries of the three sets, set by set.
    pub fn all_entries(&self) -> (r: Vec<BtreeEntry>)
        requires
            self.wf(),
        ensures
            views(r@) == self.all(),
            r@.len() == self.all().len(),
            all_read_at(self.level, r@),
    {
        proof {
            reveal(BtreeNode::wf);
        }
        let mut all: Vec<BtreeEntry> = Vec::new();
        proof {
            assert(set_readable(self.data@, self.sets@[0]));
            assert(set_readable(self.data@, self.sets@[1]));
            assert(set_readable(self.data@, self.sets@[2]));
            assert(views(all@) =~= Seq::<EntryView>::empty());
        }
        self.collect_set(&self.sets[0], &mut all);
        let ghost a0 = all@;
        self.collect_set(&self.sets[1], &mut all);
        let ghost a1 = all@;
        self.collect_set(&self.sets[2], &mut all);
        proof {
            assert(views(all@) =~= self.all());
            assert forall|i: int| 0 <= i < all@.len() implies read_at(
                self.level,
                #[trigger] all@[i],
            ) by {
                if i < a1.len() {
                    assert(all@.take(a1.len() as int)[i] == a1[i]);
                    if i < a0.len() {
                        assert(a1.take(a0.len() as int)[i] == a0[i]);
                    }
                }
            }
        }
        all
    }

    /// The live entries of the node in key order, the last write of each slot.
    pub fn collect_all_entries(&self) -> (r: Vec<BtreeEntry>)
        requires
            self.wf(),
        ensures
            views(r@) == self.live(),
            r@.len() == self.live().len(),
            all_read_at(self.level, r@),
    {
        live_of(self.all_entries())
    }

    /// Whether the node holds exactly the run `es`, packed into set 0 from the
    /// start of the buffer, without aux arrays.
    pub open spec fn holds_packed(self, es: Seq<EntryView>) -> bool {
        &&& starts_with(self.data@, es)
        &&& self.run(0) == all_padded(es)
        &&& self.run(1) == Seq::<EntryView>::empty()
        &&& self.run(2) == Seq::<EntryView>::empty()
        &&& self.all() == all_padded(es)
        &&& self.sets@ == seq![
            BsetTree {
                data_offset: 0,
                end_offset: total_size(es) as u32,
                aux_offset: 0,
                size: es.len() as u16,
                extra: 0,
            },
            BsetTree::spec_empty(),
            BsetTree::spec_empty(),
        ]
        &&& self.key_count == es.len()
    }

    /// Writes the entries from `from` up to `to` as the only contents of the node.
    pub fn repack(&mut self, entries: &Vec<BtreeEntry>, from: usize, to: usize)
        requires
            from <= to <= entries@.len(),
            all_fit(views(entries@).subrange(from as int, to as int)),
            total_size(views(entries@).subrange(from as int, to as int)) <= old(self).data@.len(),
            old(self).data@.len() <= DEFAULT_NODE_SIZE,
            old(self).node_size <= old(self).data@.len(),
            ordered(views(entries@).subrange(from as int, to as int), false),
        ensures
            final(self).wf(),
            final(self).holds_packed(views(entries@).subrange(from as int, to as int)),
            final(self).data@.len() == old(self).data@.len(),
            *final(self) == (BtreeNode {
                data: final(self).data,
                sets: final(self).sets,
                key_count: final(self).key_count,
                ..*old(self)
            }),
    {
        proof {
            reveal(BtreeNode::wf);
        }
        let ghost all = views(entries@);
        let ghost es = all.subrange(from as int, to as int);
        let ghost len = self.data@.len();
        let mut cur: u32 = 0;
        let mut i: usize = from;
        proof {
            assert(es.take(0) =~= Seq::<EntryView>::empty());
            assert(self.data@.subrange(0, 0) =~= encode_all(es.take(0)));
            lemma_total_bound(es);
        }
        let ghost old_self = *self;
        while i < to
            invariant
                from <= i <= to <= entries@.len(),
                all == views(entries@),
                es == all.subrange(from as int, to as int),
                all_fit(es),
                total_size(es) <= len <= DEFAULT_NODE_SIZE,
                self.data@.len() == len,
                cur == total_size(es.take(i - from)),
                cur <= len,
                self.data@.subrange(0, cur as int) == encode_all(es.take(i - from)),
                *self == (BtreeNode { data: self.data, ..old_self }),
            decreases to - i,
        {
            let ghost j = i - from;
            let ghost d0 = self.data@;
            proof {
                assert(es[j] == entries@[i as int]@);
                assert(es.take(j + 1) =~= es.take(j).push(es[j]));
                assert(es.take(j + 1).drop_last() =~= es.take(j));
                lemma_total_push(es.take(j), es[j]);
                assert(es =~= es.take(j + 1) + es.skip(j + 1));
                lemma_total_append(es.take(j + 1), es.skip(j + 1));
                lemma_total_bound(es.skip(j + 1));
                lemma_encode_len(es[j]);
            }
            let size: u32 = self.write_entry_bytes(cur, &entries[i]);
            proof {
                assert(self.data@.subrange(0, cur + size) =~= d0.subrange(0, cur as int) + encode(
                    es[j],
                ));
            }
            cur = cur + size;
            i = i + 1;
        }
        proof {
            assert(es.take(es.len() as int) =~= es);
            lemma_parse_encode_all(es);
            reveal(starts_with);
            assert(self.data@.take(total_size(es)) =~= self.data@.subrange(0, cur as int));
        }
        let n: usize = to - from;
        self.sets = [
            BsetTree { data_offset: 0, end_offset: cur, aux_offset: 0, size: n as u16, extra: 0 },
            BsetTree::empty(),
            BsetTree::empty(),
        ];
        self.key_count = n as u32;
        proof {
            let d = self.data@;
            assert(set_bytes(d, self.sets@[1]) =~= Seq::<u8>::empty());
            assert(set_bytes(d, self.sets@[2]) =~= Seq::<u8>::empty());
            assert(self.run(1) =~= Seq::<EntryView>::empty());
            assert(self.run(2) =~= Seq::<EntryView>::empty());
            assert(self.all() =~= self.run(0));
            lemma_padded_ordered(es);
            assert forall|i: int| 0 <= i < 3 implies set_readable(d, #[trigger] self.sets@[i])
                && self.sets@[i].size == self.run(i).len() by {}
            assert(self.sets@ =~= seq![self.sets@[0], BsetTree::spec_empty(), BsetTree::spec_empty()]);
        }
    }
}

// ── aux arrays ──────────────────────────────────────────────────────────

/// The entries that the slot `p` of an Eytzinger array over `n` entries stands
/// for: from the first number up to the second. Slot 1 stands for all; the
/// slots 2p and 2p + 1 stand for what lies before and behind the middle entry.
pub open spec fn eytz_range(n: int, p: int) -> (int, int)
    decreases p,
{
    if p <= 1 {
        (0, n)
    } else {
        let (l, r) = eytz_range(n, p / 2);
        let mid = l + (r - l) / 2;
        if l >= r {
            (l, l)
        } else if p % 2 == 0 {
            (l, mid)
        } else {
            (mid + 1, r)
        }
    }
}

/// The entry that the slot `p` of an Eytzinger array over `n` entries holds:
/// the middle one of its range; none for an empty range.
pub open spec fn eytz_index(n: int, p: int) -> Option<int> {
    let (l, r) = eytz_range(n, p);
    if l < r {
        Some(l + (r - l) / 2)
    } else {
        None
    }
}

/// The entry whose record stands in the slot `p`: the one that the slot holds,
/// or the first one where it holds none.
pub open spec fn eytz_entry(n: int, p: int) -> int {
    match eytz_index(n, p) {
        Some(i) => i,
        None => 0,
    }
}

/// Whether `p` is a slot of the Eytzinger array over a run, and holds an entry
/// in the slot of `k`.
pub open spec fn eytz_hit(es: Seq<EntryView>, k: BtreeKey, p: int) -> bool {
    &&& 1 <= p <= es.len()
    &&& eytz_index(es.len() as int, p) matches Some(j) && es[j].key().same_slot(k)
}

/// Whether a walk down from the slot `i` can come to the slot `p`.
pub open spec fn eytz_below(i: int, p: int) -> bool
    decreases p,
{
    p == i || (p > i && p > 1 && eytz_below(i, p / 2))
}

/// What lies below a slot lies below one of the two next to it, and its range
/// within that of the slot.
pub proof fn lemma_eytz_below(n: int, i: int, p: int)
    requires
        0 <= n,
        1 <= i,
        eytz_below(i, p),
    ensures
        i <= p,
        p == i || eytz_below(2 * i, p) || eytz_below(2 * i + 1, p),
        eytz_range(n, i).0 <= eytz_range(n, p).0,
        eytz_range(n, p).1 <= eytz_range(n, i).1,
    decreases p,
{
    if p != i {
        lemma_eytz_below(n, i, p / 2);
        lemma_eytz_range(n, p / 2);
        if p / 2 == i {
            assert(p == 2 * i || p == 2 * i + 1);
        } else if eytz_below(2 * i, p / 2) {
            lemma_eytz_below(n, 2 * i, p / 2);
        } else {
            lemma_eytz_below(n, 2 * i + 1, p / 2);
        }
    }
}

/// Every slot lies below the first one.
pub proof fn lemma_eytz_root(p: int)
    requires
        1 <= p,
    ensures
        eytz_below(1, p),
    decreases p,
{
    if p > 1 {
        lemma_eytz_root(p / 2);
    }
}

pub proof fn lemma_eytz_range(n: int, p: int)
    requires
        0 <= n,
    ensures
        0 <= eytz_range(n, p).0 <= eytz_range(n, p).1 <= n,
        eytz_index(n, p) matches Some(i) ==> 0 <= i < n,
    decreases p,
{
    if p > 1 {
        lemma_eytz_range(n, p / 2);
    }
}

/// The ranges of the slots of an Eytzinger array over `n` entries.
fn eytz_ranges(n: usize) -> (r: Vec<(usize, usize)>)
    requires
        n < usize::MAX,
    ensures
        r@.len() == n + 1,
        forall|p: int|
            1 <= p <= n ==> (#[trigger] r@[p]).0 as int == eytz_range(n as int, p).0 && r@[p].1 as int
                == eytz_range(n as int, p).1,
{
    let mut r: Vec<(usize, usize)> = Vec::with_capacity(n + 1);
    r.push((0, n));
    let mut p: usize = 1;
    while p <= n
        invariant
            1 <= p <= n + 1,
            n < usize::MAX,
            r@.len() == p,
            forall|q: int|
                1 <= q < p ==> (#[trigger] r@[q]).0 as int == eytz_range(n as int, q).0
                    && r@[q].1 as int == eytz_range(n as int, q).1,
        decreases n + 1 - p,
    {
        if p == 1 {
            r.push((0, n));
        } else {
            let h: usize = p / 2;
            proof {
                lemma_eytz_range(n as int, h as int);
                assert(r@[h as int].0 as int == eytz_range(n as int, h as int).0);
            }
            let (l, t) = r[h];
            if l >= t {
                r.push((l, l));
            } else {
                let mid: usize = l + (t - l) / 2;
                if p % 2 == 0 {
                    r.push((l, mid));
                } else {
                    r.push((mid + 1, t));
                }
            }
        }
        p = p + 1;
    }
    r
}

/// Writes the record number `i` of the aux array at `base`.
fn write_aux(d: &mut Vec<u8>, base: usize, i: usize, key: &BtreeKey, off: u32)
    requires
        base + i * AUX_ENTRY_BYTES + AUX_ENTRY_BYTES <= old(d)@.len() <= DEFAULT_NODE_SIZE,
    ensures
        final(d)@ == splice(
            old(d)@,
            base + i * AUX_ENTRY_BYTES,
            aux_record(*key, off as int),
        ),
        aux_record(*key, off as int).len() == AUX_ENTRY_BYTES,
{
    let ghost d0 = d@;
    let at: usize = base + i * AUX_ENTRY_BYTES;
    let code: u8 = key.key_type.code();
    put_le(d, at, 8, key.vaddr);
    put_le(d, at + 8, 4, key.snapshot_id as u64);
    d.set(at + 12, code);
    d.set(at + 13, 0);
    d.set(at + 14, 0);
    d.set(at + 15, 0);
    put_le(d, at + 16, 4, off as u64);
    proof {
        lemma_aux_record(*key, off as int);
        lemma_le_bytes_len(key.vaddr as nat, 8);
        lemma_le_bytes_len(key.snapshot_id as nat, 4);
        lemma_le_bytes_len(off as nat, 4);
        assert(d@ =~= splice(d0, at as int, aux_record(*key, off as int)));
    }
}

/// A record of an aux array that a write elsewhere leaves alone.
proof fn lemma_aux_slot_frame(d: Seq<u8>, at: int, s: Seq<u8>, base: int, i: int)
    requires
        0 <= base,
        0 <= i,
        base + i * AUX_ENTRY_BYTES + AUX_ENTRY_BYTES <= d.len(),
        at >= base + i * AUX_ENTRY_BYTES + AUX_ENTRY_BYTES || at + s.len() <= base + i
            * AUX_ENTRY_BYTES,
    ensures
        aux_slot(splice(d, at, s), base, i) == aux_slot(d, base, i),
{
    lemma_splice_frame(
        d,
        at,
        s,
        base + i * AUX_ENTRY_BYTES,
        base + i * AUX_ENTRY_BYTES + AUX_ENTRY_BYTES,
    );
}

/// Where each entry of a run starts.
pub open spec fn offsets_of(es: Seq<EntryView>, offs: Seq<u32>) -> bool {
    &&& offs.len() == es.len()
    &&& forall|i: int| 0 <= i < es.len() ==> #[trigger] offs[i] == total_size(es.take(i))
}

/// Writes the sorted aux array for the run `entries` at `base`.
fn write_sorted_aux(d: &mut Vec<u8>, base: usize, entries: &Vec<BtreeEntry>, offs: &Vec<u32>)
    requires
        offsets_of(views(entries@), offs@),
        base + entries@.len() * AUX_ENTRY_BYTES <= old(d)@.len() <= DEFAULT_NODE_SIZE,
    ensures
        final(d)@.len() == old(d)@.len(),
        final(d)@.subrange(0, base as int) == old(d)@.subrange(0, base as int),
        aux_valid(final(d)@, base as int, views(entries@)),
{
    let ghost es = views(entries@);
    let mut i: usize = 0;
    while i < entries.len()
        invariant
            i <= entries@.len(),
            es == views(entries@),
            offsets_of(es, offs@),
            base + entries@.len() * AUX_ENTRY_BYTES <= old(d)@.len() <= DEFAULT_NODE_SIZE,
            d@.len() == old(d)@.len(),
            d@.subrange(0, base as int) =~= old(d)@.subrange(0, base as int),
            forall|j: int|
                0 <= j < i ==> #[trigger] aux_slot(d@, base as int, j) == record_of(es, j),
        decreases entries@.len() - i,
    {
        let k = BtreeKey::from_bpos(entries[i].pos, entries[i].key_type);
        let ghost d0 = d@;
        assert(i * AUX_ENTRY_BYTES + AUX_ENTRY_BYTES <= entries@.len() * AUX_ENTRY_BYTES);
        write_aux(d, base, i, &k, offs[i]);
        proof {
            assert(k == es[i as int].key());
            let rec = aux_record(k, offs@[i as int] as int);
            let at = base + i * AUX_ENTRY_BYTES;
            lemma_splice_subrange(d0, at, rec);
            assert(aux_slot(d@, base as int, i as int) == record_of(es, i as int));
            assert forall|j: int| 0 <= j < i implies #[trigger] aux_slot(d@, base as int, j)
                == record_of(es, j) by {
                lemma_aux_slot_frame(d0, at, rec, base as int, j);
                assert(aux_slot(d0, base as int, j) == record_of(es, j));
            }
        }
        i = i + 1;
    }
}

/// Writes the Eytzinger aux array for the run `entries` at `base`.
fn write_eytz_aux(d: &mut Vec<u8>, base: usize, entries: &Vec<BtreeEntry>, offs: &Vec<u32>)
    requires
        offsets_of(views(entries@), offs@),
        base + entries@.len() * AUX_ENTRY_BYTES <= old(d)@.len() <= DEFAULT_NODE_SIZE,
    ensures
        final(d)@.len() == old(d)@.len(),
        final(d)@.subrange(0, base as int) == old(d)@.subrange(0, base as int),
        forall|p: int|
            1 <= p <= entries@.len() ==> #[trigger] aux_slot(final(d)@, base as int, p - 1)
                == record_of(views(entries@), eytz_entry(entries@.len() as int, p)),
{
    let ghost es = views(entries@);
    let n: usize = entries.len();
    let ranges: Vec<(usize, usize)> = eytz_ranges(n);
    let mut p: usize = 1;
    while p <= n
        invariant
            1 <= p <= n + 1,
            n == entries@.len(),
            es == views(entries@),
            offsets_of(es, offs@),
            base + entries@.len() * AUX_ENTRY_BYTES <= old(d)@.len() <= DEFAULT_NODE_SIZE,
            d@.len() == old(d)@.len(),
            d@.subrange(0, base as int) =~= old(d)@.subrange(0, base as int),
            ranges@.len() == n + 1,
            forall|q: int|
                1 <= q <= n ==> (#[trigger] ranges@[q]).0 as int == eytz_range(n as int, q).0
                    && ranges@[q].1 as int == eytz_range(n as int, q).1,
            forall|q: int|
                1 <= q < p ==> #[trigger] aux_slot(d@, base as int, q - 1) == record_of(
                    es,
                    eytz_entry(n as int, q),
                ),
        decreases n + 1 - p,
    {
        assert(ranges@[p as int].0 as int == eytz_range(n as int, p as int).0);
        let (l, r) = ranges[p];
        proof {
            lemma_eytz_range(n as int, p as int);
        }
        let idx: usize = if l < r {
            l + (r - l) / 2
        } else {
            0
        };
        let k = BtreeKey::from_bpos(entries[idx].pos, entries[idx].key_type);
        let ghost d0 = d@;
        assert((p - 1) * AUX_ENTRY_BYTES + AUX_ENTRY_BYTES <= entries@.len() * AUX_ENTRY_BYTES);
        write_aux(d, base, p - 1, &k, offs[idx]);
        proof {
            assert(k == es[idx as int].key());
            let rec = aux_record(k, offs@[idx as int] as int);
            let at = base + (p - 1) * AUX_ENTRY_BYTES;
            lemma_splice_subrange(d0, at, rec);
            assert(aux_slot(d@, base as int, p - 1) == record_of(es, idx as int));
            assert forall|q: int| 1 <= q < p implies #[trigger] aux_slot(d@, base as int, q - 1)
                == record_of(es, eytz_entry(n as int, q)) by {
                lemma_aux_slot_frame(d0, at, rec, base as int, q - 1);
                assert(aux_slot(d0, base as int, q - 1) == aux_slot(d0, base as int, q - 1));
            }
        }
        p = p + 1;
    }
}

impl BtreeNode {
    /// An Eytzinger array, counted from 1, over sorted keys.
    pub fn build_eytzinger(keys: &[(BtreeKey, BchVal)]) -> (r: Vec<(BtreeKey, BchVal)>)
        requires
            keys@.len() < usize::MAX,
        ensures
            keys@.len() == 0 ==> r@.len() == 0,
            keys@.len() > 0 ==> r@.len() == keys@.len() + 1 && r@[0] == (
                BtreeKey::spec_min_key(),
                BchVal::spec_new(0, 0),
            ),
            forall|p: int|
                1 <= p <= keys@.len() && keys@.len() > 0 ==> #[trigger] r@[p] == (match eytz_index(
                    keys@.len() as int,
                    p,
                ) {
                    Some(i) => keys@[i],
                    None => (BtreeKey::spec_min_key(), BchVal::spec_new(0, 0)),
                }),
    {
        let n: usize = keys.len();
        let mut out: Vec<(BtreeKey, BchVal)> = Vec::new();
        if n == 0 {
            return out;
        }
        let none = (BtreeKey::min_key(), BchVal::new(0, 0));
        let ranges: Vec<(usize, usize)> = eytz_ranges(n);
        out.push(none);
        let mut p: usize = 1;
        while p <= n
            invariant
                1 <= p <= n + 1,
                n == keys@.len(),
                n < usize::MAX,
                none == (BtreeKey::spec_min_key(), BchVal::spec_new(0, 0)),
                out@.len() == p,
                out@[0] == none,
                ranges@.len() == n + 1,
                forall|q: int|
                    1 <= q <= n ==> (#[trigger] ranges@[q]).0 as int == eytz_range(n as int, q).0
                        && ranges@[q].1 as int == eytz_range(n as int, q).1,
                forall|q: int|
                    1 <= q < p ==> #[trigger] out@[q] == (match eytz_index(n as int, q) {
                        Some(i) => keys@[i],
                        None => none,
                    }),
            decreases n + 1 - p,
        {
            assert(ranges@[p as int].0 as int == eytz_range(n as int, p as int).0);
            let (l, r) = ranges[p];
            proof {
                lemma_eytz_range(n as int, p as int);
            }
            if l < r {
                out.push(keys[l + (r - l) / 2]);
            } else {
                out.push(none);
            }
            p = p + 1;
        }
        out
    }

    /// Where the sorted aux array of a compacted node starts: behind the data,
    /// where it fits; 0 where it does not.
    pub open spec fn aux_place(es: Seq<EntryView>, node_size: u32) -> int {
        let ds = total_size(es);
        if ds + es.len() * AUX_ENTRY_BYTES <= node_size {
            ds
        } else {
            0
        }
    }

    /// Where the Eytzinger array of a compacted node starts: behind the sorted
    /// array, for enough entries, where it fits and the offset can be recorded.
    pub open spec fn eytz_place(es: Seq<EntryView>, node_size: u32) -> int {
        let base = total_size(es) + es.len() * AUX_ENTRY_BYTES;
        if es.len() >= EYTZINGER_MIN_ENTRIES && base + es.len() * AUX_ENTRY_BYTES <= node_size
            && base <= 0xfffc {
            base
        } else {
            0
        }
    }

    /// Whether this node holds the run `es` as a compaction leaves it.
    pub open spec fn holds_compacted(self, es: Seq<EntryView>) -> bool {
        &&& starts_with(self.data@, es)
        &&& self.run(0) == es
        &&& self.run(1) == Seq::<EntryView>::empty()
        &&& self.run(2) == Seq::<EntryView>::empty()
        &&& self.all() == es
        &&& self.sets@ == seq![
            BsetTree {
                data_offset: 0,
                end_offset: total_size(es) as u32,
                aux_offset: BtreeNode::aux_place(es, self.node_size) as u32,
                size: es.len() as u16,
                extra: BtreeNode::eytz_place(es, self.node_size) as u16,
            },
            BsetTree::spec_empty(),
            BsetTree::spec_empty(),
        ]
        &&& self.key_count == es.len()
        &&& self.whiteout_count == 0
    }

    /// Adds the aux arrays to a node that was just packed.
    fn build_aux(&mut self, entries: &Vec<BtreeEntry>)
        requires
            old(self).wf(),
            old(self).holds_packed(views(entries@)),
            all_padded(views(entries@)) == views(entries@),
            all_fit(views(entries@)),
            sorted(views(entries@)),
            forall|i: int| 0 <= i < entries@.len() ==> not_deleted(#[trigger] views(entries@)[i]),
            old(self).whiteout_count == 0,
        ensures
            final(self).wf(),
            final(self).holds_compacted(views(entries@)),
            final(self).data@.len() == old(self).data@.len(),
            *final(self) == (BtreeNode {
                data: final(self).data,
                sets: final(self).sets,
                ..*old(self)
            }),
    {
        proof {
            reveal(BtreeNode::wf);
        }
        let ghost es = views(entries@);
        let ghost n0 = *self;
        let n: usize = entries.len();
        let ds: u32 = self.sets[0].end_offset;
        proof {
            assert(set_readable(n0.data@, n0.sets@[0]));
            lemma_run_bound(n0.data@, n0.sets@[0]);
            lemma_total_bound(es);
        }
        let aux_used: usize = n * AUX_ENTRY_BYTES;
        if ds as usize + aux_used > self.node_size as usize || n == 0 {
            proof {
                if n == 0 {
                    assert(es =~= Seq::<EntryView>::empty());
                }
                assert(self.sets@ =~= seq![
                    self.sets@[0],
                    BsetTree::spec_empty(),
                    BsetTree::spec_empty(),
                ]);
            }
            return;
        }
        let mut offs: Vec<u32> = Vec::with_capacity(n);
        let mut cur: u32 = 0;
        let mut i: usize = 0;
        assert(es.take(0) =~= Seq::<EntryView>::empty());
        while i < n
            invariant
                i <= n,
                n == entries@.len(),
                es == views(entries@),
                all_fit(es),
                ds == total_size(es),
                ds <= DEFAULT_NODE_SIZE,
                cur == total_size(es.take(i as int)),
                cur <= ds,
                offs@.len() == i,
                forall|j: int| 0 <= j < i ==> #[trigger] offs@[j] == total_size(es.take(j)),
            decreases n - i,
        {
            offs.push(cur);
            proof {
                assert(es[i as int] == entries@[i as int]@);
                assert(es.take(i + 1) =~= es.take(i as int).push(es[i as int]));
                lemma_total_push(es.take(i as int), es[i as int]);
                assert(es =~= es.take(i + 1) + es.skip(i + 1));
                lemma_total_append(es.take(i + 1), es.skip(i + 1));
                lemma_total_bound(es.skip(i + 1));
            }
            cur = cur + entries[i].packed_size() as u32;
            i = i + 1;
        }
        write_sorted_aux(&mut self.data, ds as usize, entries, &offs);
        let ghost d1 = self.data@;
        let eytz_base: usize = ds as usize + aux_used;
        let mut extra: u16 = 0;
        if n >= EYTZINGER_MIN_ENTRIES && eytz_base + aux_used <= self.node_size as usize
            && eytz_base <= 0xfffc {
            write_eytz_aux(&mut self.data, eytz_base, entries, &offs);
            extra = eytz_base as u16;
            proof {
                lemma_aux_prefix(d1, self.data@, ds as int, es);
            }
        }
        self.sets[0] = BsetTree {
            data_offset: 0,
            end_offset: ds,
            aux_offset: ds,
            size: n as u16,
            extra,
        };
        proof {
            let d = self.data@;
            assert(es.len() > 0);
            assert(es[0].u64s() >= 3);
            assert(d.subrange(0, ds as int) =~= d1.subrange(0, ds as int)) by {
                if extra > 0 {
                    assert(d.subrange(0, eytz_base as int).subrange(0, ds as int) =~= d.subrange(
                        0,
                        ds as int,
                    ));
                    assert(d1.subrange(0, eytz_base as int).subrange(0, ds as int)
                        =~= d1.subrange(0, ds as int));
                }
            }
            assert(set_bytes(d, self.sets@[0]) =~= set_bytes(n0.data@, n0.sets@[0]));
            assert(starts_with(d, es)) by {
                reveal(starts_with);
                assert(d.take(ds as int) =~= set_bytes(d, self.sets@[0]));
                assert(n0.data@.take(ds as int) =~= set_bytes(n0.data@, n0.sets@[0]));
            }
            assert(self.run(0) == es);
            assert(set_bytes(d, self.sets@[1]) =~= Seq::<u8>::empty());
            assert(set_bytes(d, self.sets@[2]) =~= Seq::<u8>::empty());
            assert(self.run(1) =~= Seq::<EntryView>::empty());
            assert(self.run(2) =~= Seq::<EntryView>::empty());
            assert(self.all() =~= es);
            assert forall|i: int| 0 <= i < 3 implies set_readable(d, #[trigger] self.sets@[i])
                && self.sets@[i].size == self.run(i).len() by {}
            if extra > 0 {
                assert forall|i: int| 0 <= i < es.len() implies #[trigger] aux_slot(
                    d,
                    extra as int,
                    i,
                ) == record_of(es, eytz_entry(es.len() as int, i + 1)) by {
                    let p = i + 1;
                    assert(aux_slot(d, eytz_base as int, p - 1) == record_of(
                        es,
                        eytz_entry(n as int, p),
                    ));
                }
            }
            assert(self.layout_ok());
            assert(self.aux_ok());
            lemma_sorted_ordered(es, 0, es.len() as int);
            assert(self.sets@ =~= seq![
                self.sets@[0],
                BsetTree::spec_empty(),
                BsetTree::spec_empty(),
            ]);
        }
    }

    /// Fills the node with a run as a compaction leaves it.
    pub fn fill_compacted(&mut self, entries: &Vec<BtreeEntry>)
        requires
            old(self).node_size <= old(self).data@.len() <= DEFAULT_NODE_SIZE,
            all_padded(views(entries@)) == views(entries@),
            all_fit(views(entries@)),
            sorted(views(entries@)),
            forall|i: int| 0 <= i < entries@.len() ==> not_deleted(#[trigger] views(entries@)[i]),
            total_size(views(entries@)) <= old(self).data@.len(),
        ensures
            final(self).wf(),
            final(self).holds_compacted(views(entries@)),
            final(self).data@.len() == old(self).data@.len(),
            *final(self) == old(self).with_contents(*final(self)),
    {
        proof {
            assert(views(entries@).subrange(0, entries@.len() as int) =~= views(entries@));
            lemma_sorted_ordered(views(entries@), 0, entries@.len() as int);
        }
        self.repack(entries, 0, entries.len());
        self.whiteout_count = 0;
        proof {
            reveal(BtreeNode::wf);
            assert(set_readable(self.data@, self.sets@[0]));
            assert(set_readable(self.data@, self.sets@[1]));
            assert(set_readable(self.data@, self.sets@[2]));
        }
        self.build_aux(entries);
    }

    /// Compacts all sets into set 0: the live entries in key order, followed by
    /// the aux arrays where they fit.
    pub fn compact(&mut self)
        requires
            old(self).wf(),
        ensures
            final(self).wf(),
            final(self).holds_compacted(old(self).live()),
            final(self).data@.len() == old(self).data@.len(),
            *final(self) == old(self).with_contents(*final(self)),
    {
        proof {
            self.lemma_live_facts();
        }
        let entries: Vec<BtreeEntry> = self.collect_all_entries();
        self.fill_compacted(&entries);
    }

    pub fn bch2_bset_build_aux_tree(&mut self)
        requires
            old(self).wf(),
        ensures
            final(self).wf(),
            final(self).holds_compacted(old(self).live()),
            final(self).data@.len() == old(self).data@.len(),
            *final(self) == old(self).with_contents(*final(self)),
    {
        proof {
            reveal(BtreeNode::wf);
        }
        self.compact();
    }
}

/// A sorted aux array that lies wholly in an unchanged prefix stays valid.
proof fn lemma_aux_prefix(d1: Seq<u8>, d2: Seq<u8>, base: int, es: Seq<EntryView>)
    requires
        d1.len() == d2.len(),
        0 <= base,
        base + es.len() * AUX_ENTRY_BYTES <= d1.len(),
        d2.subrange(0, base + es.len() * AUX_ENTRY_BYTES) == d1.subrange(
            0,
            base + es.len() * AUX_ENTRY_BYTES,
        ),
        aux_valid(d1, base, es),
    ensures
        aux_valid(d2, base, es),
{
    let top = base + es.len() * AUX_ENTRY_BYTES;
    assert forall|i: int| 0 <= i < es.len() implies #[trigger] aux_slot(d2, base, i) == record_of(
        es,
        i,
    ) by {
        assert(aux_slot(d1, base, i) == record_of(es, i));
        assert forall|x: int| 0 <= x < top implies d2[x] == d1[x] by {
            assert(d2.subrange(0, top)[x] == d1.subrange(0, top)[x]);
        }
        assert(aux_slot(d2, base, i) =~= aux_slot(d1, base, i));
    }
}

/// Compacting a compacted node changes none of its entries.
pub proof fn lemma_compact_idempotent(es: Seq<EntryView>)
    ensures
        live(live(es)) == live(es),
{
    lemma_live(es);
    lemma_live_idempotent(live(es));
}

} // verus!
