//! Sorting the packed keys of several ranges of a buffer.

use crate::error::{Fault, StorageError};
use crate::key::{EntryView, BKEY_U64S};
use crate::le::{put_bytes, splice};
use crate::node::{set_readable, BsetTree, BtreeNode, DEFAULT_NODE_SIZE};
use crate::packed::{decode, head_ok, lemma_parse_shape, lemma_step, parse, read_pos, well_packed};
use crate::sort::{
    before, lemma_stable_sort, lemma_upper_bound_range, lemma_upper_bound_unique, ordered,
    stable_sort, upper_bound,
};
use vstd::prelude::*;
use vstd::slice::slice_subrange;

verus! {

/// Ranges of packed keys in a buffer.
pub struct SortIter<'a> {
    pub data: &'a [u8],
    /// Where each range starts and ends.
    pub ranges: Vec<(u32, u32)>,
}

/// Whether a range is a run of packed keys.
pub open spec fn range_ok(d: Seq<u8>, r: (u32, u32)) -> bool {
    r.0 <= r.1 <= d.len() && well_packed(d.subrange(r.0 as int, r.1 as int))
}

/// The entries of the first `n` ranges.
pub open spec fn range_entries(d: Seq<u8>, ranges: Seq<(u32, u32)>, n: int) -> Seq<EntryView>
    decreases n,
{
    if n <= 0 {
        Seq::empty()
    } else {
        range_entries(d, ranges, n - 1) + parse(
            d.subrange(ranges[n - 1].0 as int, ranges[n - 1].1 as int),
        )
    }
}

/// Where those of the first `n` sets that hold keys start and end.
pub open spec fn set_ranges(sets: Seq<BsetTree>, n: int) -> Seq<(u32, u32)>
    decreases n,
{
    if n <= 0 {
        Seq::empty()
    } else {
        let t = sets[n - 1];
        if t.size > 0 && t.data_offset < t.end_offset {
            set_ranges(sets, n - 1).push((t.data_offset, t.end_offset))
        } else {
            set_ranges(sets, n - 1)
        }
    }
}

/// The bytes of each of the packed keys that `b` starts with.
pub open spec fn keys_of(b: Seq<u8>) -> Seq<Seq<u8>>
    decreases b.len(),
{
    if head_ok(b) {
        seq![b.take(b[0] * 8)] + keys_of(b.skip(b[0] * 8))
    } else {
        Seq::<Seq<u8>>::empty()
    }
}

/// The bytes of each of the packed keys of the first `n` ranges.
pub open spec fn range_keys(d: Seq<u8>, ranges: Seq<(u32, u32)>, n: int) -> Seq<Seq<u8>>
    decreases n,
{
    if n <= 0 {
        Seq::empty()
    } else {
        range_keys(d, ranges, n - 1) + keys_of(
            d.subrange(ranges[n - 1].0 as int, ranges[n - 1].1 as int),
        )
    }
}

/// The entries that packed keys hold.
pub open spec fn decoded(ks: Seq<Seq<u8>>) -> Seq<EntryView> {
    ks.map_values(|k: Seq<u8>| decode(k))
}

/// Packed keys in the order of their positions; keys that tie keep their order.
pub open spec fn sorted_keys(ks: Seq<Seq<u8>>) -> Seq<Seq<u8>>
    decreases ks.len(),
{
    if ks.len() == 0 {
        Seq::<Seq<u8>>::empty()
    } else {
        let s = sorted_keys(ks.drop_last());
        s.insert(upper_bound(decoded(s), decode(ks.last()), true), ks.last())
    }
}

/// Packed keys one behind the other.
pub open spec fn joined(ks: Seq<Seq<u8>>) -> Seq<u8>
    decreases ks.len(),
{
    if ks.len() == 0 {
        Seq::<u8>::empty()
    } else {
        joined(ks.drop_last()) + ks.last()
    }
}

/// The bytes of the packed key at `off` of `d`.
pub open spec fn key_at(d: Seq<u8>, off: u32) -> Seq<u8> {
    d.subrange(off as int, off + d[off as int] * 8)
}

/// The bytes of the packed keys at some places of `d`.
pub open spec fn keys_at(d: Seq<u8>, offs: Seq<u32>) -> Seq<Seq<u8>> {
    offs.map_values(|o: u32| key_at(d, o))
}

/// Whether a whole packed key lies at each of some places of `d`.
pub open spec fn all_keys(d: Seq<u8>, offs: Seq<u32>) -> bool {
    forall|i: int|
        0 <= i < offs.len() ==> (#[trigger] offs[i]) + 24 <= d.len() && d[offs[i] as int]
            >= BKEY_U64S && offs[i] + d[offs[i] as int] * 8 <= d.len()
}

/// Where packed keys start from `cur` on, up to `end` or to a size of zero, or
/// what is wrong with one that does not lie in `d`.
pub open spec fn scan(d: Seq<u8>, cur: int, end: int) -> Result<Seq<u32>, Fault>
    decreases
        (if cur < end {
            end - cur
        } else {
            0
        }),
{
    if cur >= end {
        Ok(Seq::empty())
    } else if cur + 3 > d.len() {
        Err(Fault::SortKeyCut(cur as u64))
    } else if d[cur] == 0 {
        Ok(Seq::empty())
    } else if cur + d[cur] * 8 > d.len() {
        Err(Fault::SortKeyTooLong(cur as u64))
    } else {
        match scan(d, cur + d[cur] * 8, end) {
            Ok(s) => Ok(seq![cur as u32] + s),
            Err(f) => Err(f),
        }
    }
}

/// Where the packed keys of the first `n` ranges start, or the first fault.
pub open spec fn scan_all(d: Seq<u8>, ranges: Seq<(u32, u32)>, n: int) -> Result<Seq<u32>, Fault>
    decreases n,
{
    if n <= 0 {
        Ok(Seq::empty())
    } else {
        match scan_all(d, ranges, n - 1) {
            Ok(a) => match scan(d, ranges[n - 1].0 as int, ranges[n - 1].1 as int) {
                Ok(b) => Ok(a + b),
                Err(f) => Err(f),
            },
            Err(f) => Err(f),
        }
    }
}

/// How many packed keys start from `cur` on, up to `end`, to the end of `d` or
/// to a size of zero.
pub open spec fn count(d: Seq<u8>, cur: int, end: int) -> nat
    decreases
        (if cur < end {
            end - cur
        } else {
            0
        }),
{
    if cur >= end || cur >= d.len() || d[cur] == 0 {
        0
    } else {
        1 + count(d, cur + d[cur] * 8, end)
    }
}

/// How many packed keys start in the first `n` ranges.
pub open spec fn count_all(d: Seq<u8>, ranges: Seq<(u32, u32)>, n: int) -> nat
    decreases n,
{
    if n <= 0 {
        0
    } else {
        count_all(d, ranges, n - 1) + count(d, ranges[n - 1].0 as int, ranges[n - 1].1 as int)
    }
}

/// Whether the first `n` keys fit into `len` bytes, and one more does not.
pub open spec fn first_keys_fit(ks: Seq<Seq<u8>>, n: int, len: int) -> bool {
    &&& 0 <= n < ks.len()
    &&& joined(ks.take(n)).len() <= len < joined(ks.take(n + 1)).len()
}

/// The longest buffer in which every offset of a key, and the one behind it, can
/// be told.
pub const MAX_SORT_BYTES: u32 = 0xffff_f000;

impl<'a> SortIter<'a> {
    /// Where the packed keys of all ranges start, range by range, or the first
    /// fault.
    pub open spec fn scanned(self) -> Result<Seq<u32>, Fault> {
        scan_all(self.data@, self.ranges@, self.ranges@.len() as int)
    }

    /// Whether the keys can be told apart and compared: none is shorter than its
    /// own position.
    pub open spec fn readable(self) -> bool {
        &&& self.data@.len() <= MAX_SORT_BYTES
        &&& self.scanned() matches Ok(offs) ==> all_keys(self.data@, offs)
    }

    /// How many packed keys start in the ranges.
    pub open spec fn counted(self) -> nat {
        count_all(self.data@, self.ranges@, self.ranges@.len() as int)
    }

    /// Whether all ranges are runs of packed keys.
    pub open spec fn wf(self) -> bool {
        &&& self.data@.len() <= DEFAULT_NODE_SIZE
        &&& self.ranges@.len() <= 0x1_0000
        &&& forall|i: int|
            0 <= i < self.ranges@.len() ==> range_ok(self.data@, #[trigger] self.ranges@[i])
    }

    /// The entries of all ranges, range by range.
    pub open spec fn entries(self) -> Seq<EntryView> {
        range_entries(self.data@, self.ranges@, self.ranges@.len() as int)
    }

    /// The bytes of each packed key of all ranges, range by range.
    pub open spec fn keys(self) -> Seq<Seq<u8>> {
        range_keys(self.data@, self.ranges@, self.ranges@.len() as int)
    }

    /// Starts without a range.
    pub fn init_from_node(node: &'a BtreeNode) -> (r: SortIter<'a>)
        ensures
            r.data@ == node.data@,
            r.ranges@ == Seq::<(u32, u32)>::empty(),
            r.entries() == Seq::<EntryView>::empty(),
            node.wf() ==> r.wf(),
    {
        proof {
            if node.wf() {
                node.lemma_all();
            }
        }
        SortIter { data: node.data.as_slice(), ranges: Vec::new() }
    }

    /// Adds a range, unless it is empty.
    pub fn add(&mut self, start_offset: u32, end_offset: u32)
        ensures
            final(self).data == old(self).data,
            final(self).ranges@ == (if start_offset < end_offset {
                old(self).ranges@.push((start_offset, end_offset))
            } else {
                old(self).ranges@
            }),
    {
        if start_offset < end_offset {
            self.ranges.push((start_offset, end_offset));
        }
    }

    /// Whether the sets of a node are more ranges of packed keys.
    pub open spec fn takes(self, node: BtreeNode) -> bool {
        &&& self.wf()
        &&& self.ranges@.len() < 0xfff0
        &&& node.wf()
        &&& self.data@ == node.data@
    }

    /// Adds the sets of a node that hold keys.
    pub fn add_all_bsets(&mut self, node: &BtreeNode)
        ensures
            final(self).data == old(self).data,
            final(self).ranges@ == old(self).ranges@ + set_ranges(node.sets@, 3),
            old(self).takes(*node) ==> final(self).wf() && final(self).entries() == old(
                self,
            ).entries() + node.all(),
    {
        let ghost s0 = *self;
        let n: usize = node.nsets() as usize;
        let mut i: usize = 0;
        assert(self.ranges@ =~= s0.ranges@ + set_ranges(node.sets@, 0));
        while i < n
            invariant
                i <= n <= 3,
                n == node.spec_nsets(),
                self.data == s0.data,
                self.ranges@ == s0.ranges@ + set_ranges(node.sets@, i as int),
            decreases n - i,
        {
            let t = node.sets[i];
            if t.size > 0 {
                self.add(t.data_offset, t.end_offset);
            }
            i = i + 1;
            assert(self.ranges@ =~= s0.ranges@ + set_ranges(node.sets@, i as int));
        }
        proof {
            reveal_with_fuel(set_ranges, 4);
            assert(set_ranges(node.sets@, n as int) =~= set_ranges(node.sets@, 3));
            if s0.takes(*node) {
                lemma_sets_added(s0, self.ranges@, *node, 3);
                reveal_with_fuel(runs_before, 4);
                assert(runs_before(*node, 3) =~= node.all());
            }
        }
    }

    /// The number of keys.
    pub fn total_keys(&self) -> (r: usize)
        requires
            self.data@.len() <= MAX_SORT_BYTES,
            self.counted() <= usize::MAX,
        ensures
            r == self.counted(),
    {
        let mut total: usize = 0;
        let mut i: usize = 0;
        while i < self.ranges.len()
            invariant
                self.data@.len() <= MAX_SORT_BYTES,
                self.counted() <= usize::MAX,
                i <= self.ranges@.len(),
                total == count_all(self.data@, self.ranges@, i as int),
            decreases self.ranges@.len() - i,
        {
            let (start, end) = self.ranges[i];
            proof {
                lemma_count_all(self.data@, self.ranges@, i + 1, self.ranges@.len() as int);
            }
            total = total + self.count_range(start, end);
            i = i + 1;
        }
        total
    }

    /// The number of keys between `start` and `end`.
    fn count_range(&self, start: u32, end: u32) -> (r: usize)
        requires
            self.data@.len() <= MAX_SORT_BYTES,
        ensures
            r == count(self.data@, start as int, end as int),
    {
        let mut n: usize = 0;
        let mut cur: u32 = start;
        while cur < end
            invariant
                self.data@.len() <= MAX_SORT_BYTES,
                start <= cur,
                n <= cur - start,
                n + count(self.data@, cur as int, end as int) == count(
                    self.data@,
                    start as int,
                    end as int,
                ),
            decreases
                (if cur < end {
                    end - cur
                } else {
                    0
                }),
        {
            if cur as usize >= self.data.len() {
                return n;
            }
            let u64s: u8 = self.data[cur as usize];
            if u64s == 0 {
                return n;
            }
            n = n + 1;
            cur = cur + u64s as u32 * 8;
        }
        n
    }

    /// Adds where the packed keys between `start` and `end` start.
    fn scan_range(&self, start: u32, end: u32, out: &mut Vec<u32>) -> (r: Result<(), StorageError>)
        requires
            self.data@.len() <= MAX_SORT_BYTES,
        ensures
            match scan(self.data@, start as int, end as int) {
                Ok(s) => r is Ok && final(out)@ == old(out)@ + s,
                Err(f) => r == Err::<(), StorageError>(StorageError::CorruptData(f)),
            },
    {
        let ghost d = self.data@;
        let ghost mut got: Seq<u32> = Seq::empty();
        let mut cur: u32 = start;
        assert(out@ =~= old(out)@ + got);
        proof {
            if let Ok(s) = scan(d, start as int, end as int) {
                assert(got + s =~= s);
            }
        }
        while cur < end
            invariant
                d == self.data@,
                d.len() <= MAX_SORT_BYTES,
                start <= cur,
                out@ == old(out)@ + got,
                match scan(d, cur as int, end as int) {
                    Ok(s) => scan(d, start as int, end as int) == Ok::<Seq<u32>, Fault>(got + s),
                    Err(f) => scan(d, start as int, end as int) == Err::<Seq<u32>, Fault>(f),
                },
            decreases
                (if cur < end {
                    end - cur
                } else {
                    0
                }),
        {
            let len: usize = self.data.len();
            if cur as usize >= len || len - (cur as usize) < 3 {
                return Err(StorageError::CorruptData(Fault::SortKeyCut(cur as u64)));
            }
            let u64s: u8 = self.data[cur as usize];
            if u64s == 0 {
                assert(got + Seq::<u32>::empty() =~= got);
                return Ok(());
            }
            let n: u32 = u64s as u32 * 8;
            if n as usize > len - cur as usize {
                return Err(StorageError::CorruptData(Fault::SortKeyTooLong(cur as u64)));
            }
            proof {
                if let Ok(s) = scan(d, cur + n, end as int) {
                    assert(got + (seq![cur] + s) =~= got.push(cur) + s);
                }
                got = got.push(cur);
            }
            out.push(cur);
            assert(out@ =~= old(out)@ + got);
            cur = cur + n;
        }
        assert(got + Seq::<u32>::empty() =~= got);
        Ok(())
    }

    /// Where the packed keys start, range by range.
    fn key_offsets(&self) -> (r: Result<Vec<u32>, StorageError>)
        requires
            self.data@.len() <= MAX_SORT_BYTES,
        ensures
            match self.scanned() {
                Ok(offs) => r matches Ok(v) && v@ == offs,
                Err(f) => r matches Err(e) && e == StorageError::CorruptData(f),
            },
    {
        let mut out: Vec<u32> = Vec::new();
        let mut i: usize = 0;
        assert(out@ =~= Seq::<u32>::empty());
        while i < self.ranges.len()
            invariant
                self.data@.len() <= MAX_SORT_BYTES,
                i <= self.ranges@.len(),
                scan_all(self.data@, self.ranges@, i as int) == Ok::<Seq<u32>, Fault>(out@),
            decreases self.ranges@.len() - i,
        {
            let (start, end) = self.ranges[i];
            match self.scan_range(start, end, &mut out) {
                Ok(_) => {},
                Err(e) => {
                    proof {
                        lemma_scan_failed(
                            self.data@,
                            self.ranges@,
                            i + 1,
                            self.ranges@.len() as int,
                        );
                    }
                    return Err(e);
                },
            }
            i = i + 1;
        }
        Ok(out)
    }

    /// Sorts places of packed keys by the positions of the keys; places of keys
    /// that tie keep their order.
    fn sort_offsets(&self, offs: &Vec<u32>) -> (r: Vec<u32>)
        requires
            all_keys(self.data@, offs@),
        ensures
            all_keys(self.data@, r@),
            r@.len() == offs@.len(),
            keys_at(self.data@, r@) == sorted_keys(keys_at(self.data@, offs@)),
    {
        let ghost d = self.data@;
        let ghost ks = keys_at(d, offs@);
        let mut out: Vec<u32> = Vec::with_capacity(offs.len());
        let mut i: usize = 0;
        assert(keys_at(d, out@) =~= sorted_keys(ks.take(0)));
        while i < offs.len()
            invariant
                d == self.data@,
                ks == keys_at(d, offs@),
                i <= offs@.len(),
                all_keys(d, offs@),
                all_keys(d, out@),
                out@.len() == i,
                keys_at(d, out@) == sorted_keys(ks.take(i as int)),
            decreases offs@.len() - i,
        {
            let ghost s = keys_at(d, out@);
            let ghost sv = decoded(s);
            let off: u32 = offs[i];
            let ghost ev = decode(key_at(d, off));
            proof {
                lemma_sorted_keys(ks.take(i as int));
                assert(ks.take(i + 1).drop_last() =~= ks.take(i as int));
                assert(ks.take(i + 1).last() == key_at(d, off));
            }
            let pos = read_pos(self.data, off as usize);
            let n: usize = out.len();
            let mut lo: usize = 0;
            let mut hi: usize = n;
            while lo < hi
                invariant
                    lo <= hi <= n,
                    n == out@.len(),
                    d == self.data@,
                    s == keys_at(d, out@),
                    sv == decoded(s),
                    all_keys(d, out@),
                    ordered(sv, true),
                    pos == ev.pos,
                    forall|j: int| 0 <= j < lo ==> !before(ev, #[trigger] sv[j], true),
                    forall|j: int| hi <= j < n ==> before(ev, #[trigger] sv[j], true),
                decreases hi - lo,
            {
                let mid: usize = lo + (hi - lo) / 2;
                let at = read_pos(self.data, out[mid] as usize);
                assert(sv[mid as int] == decode(key_at(d, out@[mid as int])));
                if pos.precedes(&at) {
                    assert forall|j: int| mid <= j < n implies before(
                        ev,
                        #[trigger] sv[j],
                        true,
                    ) by {
                        if j > mid {
                            assert(!before(sv[j], sv[mid as int], true));
                        }
                    }
                    hi = mid;
                } else {
                    assert forall|j: int| 0 <= j < mid + 1 implies !before(
                        ev,
                        #[trigger] sv[j],
                        true,
                    ) by {
                        if j < mid {
                            assert(!before(sv[mid as int], sv[j], true));
                        }
                    }
                    lo = mid + 1;
                }
            }
            proof {
                lemma_upper_bound_unique(sv, ev, true, lo as int);
            }
            let ghost o0 = out@;
            out.insert(lo, off);
            proof {
                assert(out@ == o0.insert(lo as int, off));
                assert(keys_at(d, out@) =~= s.insert(lo as int, key_at(d, off)));
                assert forall|j: int| 0 <= j < out@.len() implies (#[trigger] out@[j]) + 24 <= d.len()
                    && d[out@[j] as int] >= BKEY_U64S && out@[j] + d[out@[j] as int] * 8
                    <= d.len() by {
                    if j < lo {
                        assert(out@[j] == o0[j]);
                    } else if j > lo {
                        assert(out@[j] == o0[j - 1]);
                    }
                }
            }
            i = i + 1;
        }
        assert(ks.take(ks.len() as int) =~= ks);
        out
    }

    /// Copies all packed keys as they are, sorted by position, to the start of
    /// `dst`. Returns how many bytes they take; an error, with as many copied as
    /// fit, where `dst` is too short, and with none copied where a key does not
    /// lie in the buffer.
    pub fn sort_into(&self, dst: &mut Vec<u8>) -> (r: Result<usize, StorageError>)
        requires
            self.readable(),
        ensures
            final(dst)@.len() == old(dst)@.len(),
            match self.scanned() {
                Ok(offs) => {
                    let ks = keys_at(self.data@, offs);
                    let total = joined(ks).len();
                    if total <= old(dst)@.len() {
                        r == Ok::<usize, StorageError>(total as usize) && final(dst)@ == splice(
                            old(dst)@,
                            0,
                            joined(sorted_keys(ks)),
                        )
                    } else {
                        r == Err::<usize, StorageError>(
                            StorageError::CorruptData(Fault::SortOverflow),
                        ) && exists|n: int|
                            #![trigger first_keys_fit(sorted_keys(ks), n, old(dst)@.len() as int)]
                            first_keys_fit(sorted_keys(ks), n, old(dst)@.len() as int)
                                && final(dst)@ == splice(
                                old(dst)@,
                                0,
                                joined(sorted_keys(ks).take(n)),
                            )
                    }
                },
                Err(f) => r == Err::<usize, StorageError>(StorageError::CorruptData(f))
                    && final(dst)@ == old(dst)@,
            },
    {
        let ghost d = self.data@;
        let offs: Vec<u32> = match self.key_offsets() {
            Ok(v) => v,
            Err(e) => {
                return Err(e);
            },
        };
        let ghost ks = keys_at(d, offs@);
        let sorted: Vec<u32> = self.sort_offsets(&offs);
        let ghost s = sorted_keys(ks);
        let ghost d0 = dst@;
        let cap: usize = dst.len();
        let mut cur: usize = 0;
        let mut i: usize = 0;
        proof {
            lemma_sorted_keys(ks);
            assert(s.take(0) =~= Seq::<Seq<u8>>::empty());
            assert(dst@ =~= splice(d0, 0, joined(s.take(0))));
        }
        while i < sorted.len()
            invariant
                d == self.data@,
                s == keys_at(d, sorted@),
                s == sorted_keys(ks),
                self.scanned() == Ok::<Seq<u32>, Fault>(offs@),
                ks == keys_at(d, offs@),
                d0 == old(dst)@,
                i <= sorted@.len(),
                all_keys(d, sorted@),
                cap == d0.len(),
                cur <= cap,
                joined(s.take(i as int)).len() == cur,
                dst@ == splice(d0, 0, joined(s.take(i as int))),
                joined(s).len() == joined(ks).len(),
            decreases sorted@.len() - i,
        {
            let off: usize = sorted[i] as usize;
            let size: usize = self.data[off] as usize * 8;
            let ghost k = key_at(d, sorted@[i as int]);
            proof {
                assert(s[i as int] == k);
                assert(s.take(i + 1).drop_last() =~= s.take(i as int));
                assert(s.take(i + 1).last() == k);
                assert(joined(s.take(i + 1)) == joined(s.take(i as int)) + k);
            }
            if size > cap - cur {
                proof {
                    assert(first_keys_fit(s, i as int, cap as int));
                    lemma_joined_take(s, i + 1);
                }
                return Err(StorageError::CorruptData(Fault::SortOverflow));
            }
            let bytes = slice_subrange(self.data, off, off + size);
            put_bytes(dst, cur, bytes);
            proof {
                assert(bytes@ =~= k);
                assert(dst@ =~= splice(d0, 0, joined(s.take(i + 1))));
            }
            cur = cur + size;
            i = i + 1;
        }
        assert(s.take(s.len() as int) =~= s);
        Ok(cur)
    }
}

/// The packed keys of a run hold its entries.
proof fn lemma_keys_of(b: Seq<u8>)
    ensures
        decoded(keys_of(b)) == parse(b),
    decreases b.len(),
{
    if head_ok(b) {
        lemma_keys_of(b.skip(b[0] * 8));
        assert(decoded(keys_of(b)) =~= parse(b));
    } else {
        assert(decoded(keys_of(b)) =~= parse(b));
    }
}

/// The packed keys of the ranges hold their entries.
pub proof fn lemma_range_keys(it: SortIter, n: int)
    requires
        0 <= n <= it.ranges@.len(),
    ensures
        decoded(range_keys(it.data@, it.ranges@, n)) == range_entries(it.data@, it.ranges@, n),
    decreases n,
{
    if n > 0 {
        lemma_range_keys(it, n - 1);
        let r = it.ranges@[n - 1];
        lemma_keys_of(it.data@.subrange(r.0 as int, r.1 as int));
    }
    assert(decoded(range_keys(it.data@, it.ranges@, n)) =~= range_entries(
        it.data@,
        it.ranges@,
        n,
    ));
}

/// A fault in one of the first ranges is what is found in all of them.
proof fn lemma_scan_failed(d: Seq<u8>, ranges: Seq<(u32, u32)>, i: int, n: int)
    requires
        i <= n,
        scan_all(d, ranges, i) is Err,
    ensures
        scan_all(d, ranges, n) == scan_all(d, ranges, i),
    decreases n - i,
{
    if i < n {
        lemma_scan_failed(d, ranges, i, n - 1);
        assert(n > 0);
    }
}

/// More ranges have no fewer keys.
proof fn lemma_count_all(d: Seq<u8>, ranges: Seq<(u32, u32)>, i: int, n: int)
    requires
        i <= n,
    ensures
        count_all(d, ranges, i) <= count_all(d, ranges, n),
    decreases n - i,
{
    if i < n {
        lemma_count_all(d, ranges, i, n - 1);
    }
}

/// The keys of a run of packed keys are found where they start.
proof fn lemma_scan_packed(d: Seq<u8>, cur: int, end: int)
    requires
        0 <= cur <= end <= d.len() <= DEFAULT_NODE_SIZE,
        well_packed(d.subrange(cur, end)),
    ensures
        scan(d, cur, end) matches Ok(s) && all_keys(d, s) && keys_at(d, s) == keys_of(
            d.subrange(cur, end),
        ) && count(d, cur, end) == s.len() && 24 * s.len() <= end - cur,
    decreases end - cur,
{
    let b = d.subrange(cur, end);
    if cur < end {
        lemma_step(d, cur, end);
        let n = d[cur] * 8;
        lemma_scan_packed(d, cur + n, end);
        let t = scan(d, cur + n, end)->Ok_0;
        let s = seq![cur as u32] + t;
        assert(b[0] == d[cur]);
        assert(b.take(n) =~= key_at(d, cur as u32));
        assert(b.skip(n) =~= d.subrange(cur + n, end));
        assert(keys_at(d, s) =~= seq![key_at(d, cur as u32)] + keys_at(d, t));
        assert forall|i: int| 0 <= i < s.len() implies (#[trigger] s[i]) + 24 <= d.len()
            && d[s[i] as int] >= BKEY_U64S && s[i] + d[s[i] as int] * 8 <= d.len() by {
            if i > 0 {
                assert(s[i] == t[i - 1]);
            }
        }
    } else {
        assert(keys_at(d, Seq::empty()) =~= keys_of(b));
    }
}

/// Ranges that are runs of packed keys can be sorted: no key is at fault, and
/// those that are found hold the entries of the ranges.
pub proof fn lemma_wf_readable(it: SortIter)
    requires
        it.wf(),
    ensures
        it.readable(),
        it.scanned() matches Ok(offs) && keys_at(it.data@, offs) == it.keys(),
        decoded(it.keys()) == it.entries(),
        it.counted() == it.entries().len(),
        it.counted() <= usize::MAX,
{
    let n = it.ranges@.len() as int;
    lemma_wf_scanned(it, n);
    lemma_range_keys(it, n);
    assert(n * DEFAULT_NODE_SIZE <= 0x1_0000 * DEFAULT_NODE_SIZE) by (nonlinear_arith)
        requires
            n <= 0x1_0000,
    ;
}

proof fn lemma_wf_scanned(it: SortIter, n: int)
    requires
        it.wf(),
        0 <= n <= it.ranges@.len(),
    ensures
        scan_all(it.data@, it.ranges@, n) matches Ok(s) && all_keys(it.data@, s) && keys_at(
            it.data@,
            s,
        ) == range_keys(it.data@, it.ranges@, n) && count_all(it.data@, it.ranges@, n) == s.len()
            && 24 * s.len() <= n * DEFAULT_NODE_SIZE,
    decreases n,
{
    let d = it.data@;
    if n > 0 {
        let r = it.ranges@[n - 1];
        assert(range_ok(d, r));
        lemma_wf_scanned(it, n - 1);
        lemma_scan_packed(d, r.0 as int, r.1 as int);
        let a = scan_all(d, it.ranges@, n - 1)->Ok_0;
        let b = scan(d, r.0 as int, r.1 as int)->Ok_0;
        let s = a + b;
        assert(keys_at(d, s) =~= keys_at(d, a) + keys_at(d, b));
        assert forall|i: int| 0 <= i < s.len() implies (#[trigger] s[i]) + 24 <= d.len()
            && d[s[i] as int] >= BKEY_U64S && s[i] + d[s[i] as int] * 8 <= d.len() by {
            if i < a.len() {
                assert(s[i] == a[i]);
            } else {
                assert(s[i] == b[i - a.len()]);
            }
        }
        assert(n * DEFAULT_NODE_SIZE == (n - 1) * DEFAULT_NODE_SIZE + DEFAULT_NODE_SIZE)
            by (nonlinear_arith);
    } else {
        assert(keys_at(d, Seq::empty()) =~= range_keys(d, it.ranges@, n));
    }
}

/// Keys taken from the start take no more bytes than all of them.
proof fn lemma_joined_take(ks: Seq<Seq<u8>>, n: int)
    requires
        0 <= n <= ks.len(),
    ensures
        joined(ks.take(n)).len() <= joined(ks).len(),
    decreases ks.len(),
{
    if n < ks.len() {
        lemma_joined_take(ks.drop_last(), n);
        assert(ks.drop_last().take(n) =~= ks.take(n));
    } else {
        assert(ks.take(n) =~= ks);
    }
}

/// One more key among others adds its bytes.
proof fn lemma_joined_insert(ks: Seq<Seq<u8>>, i: int, k: Seq<u8>)
    requires
        0 <= i <= ks.len(),
    ensures
        joined(ks.insert(i, k)).len() == joined(ks).len() + k.len(),
    decreases ks.len(),
{
    let r = ks.insert(i, k);
    if i == ks.len() {
        assert(r.drop_last() =~= ks);
    } else {
        lemma_joined_insert(ks.drop_last(), i, k);
        assert(r.drop_last() =~= ks.drop_last().insert(i, k));
        assert(r.last() == ks.last());
    }
}

/// Sorting keeps the packed keys, each as it is, and their size. The entries
/// that they hold come to stand in the order of their positions, and those that
/// tie keep their order.
pub proof fn lemma_sorted_keys(ks: Seq<Seq<u8>>)
    ensures
        sorted_keys(ks).len() == ks.len(),
        sorted_keys(ks).to_multiset() == ks.to_multiset(),
        joined(sorted_keys(ks)).len() == joined(ks).len(),
        decoded(sorted_keys(ks)) == stable_sort(decoded(ks), true),
        ordered(decoded(sorted_keys(ks)), true),
    decreases ks.len(),
{
    broadcast use vstd::seq_lib::group_to_multiset_ensures;

    lemma_stable_sort(decoded(ks), true);
    if ks.len() > 0 {
        let f = ks.drop_last();
        let k = ks.last();
        lemma_sorted_keys(f);
        let s = sorted_keys(f);
        let i = upper_bound(decoded(s), decode(k), true);
        lemma_upper_bound_range(decoded(s), decode(k), true);
        lemma_joined_insert(s, i, k);
        assert(ks =~= f.push(k));
        assert(s.insert(i, k).to_multiset() =~= s.to_multiset().insert(k));
        assert(decoded(ks).drop_last() =~= decoded(f));
        assert(decoded(s.insert(i, k)) =~= decoded(s).insert(i, decode(k)));
    } else {
        assert(sorted_keys(ks) =~= ks);
        assert(decoded(sorted_keys(ks)) =~= stable_sort(decoded(ks), true));
    }
}

/// The entries of the first `n` sets of a node.
pub open spec fn runs_before(node: BtreeNode, n: int) -> Seq<EntryView>
    decreases n,
{
    if n <= 0 {
        Seq::empty()
    } else {
        runs_before(node, n - 1) + node.run(n - 1)
    }
}

/// With the ranges of the first `n` sets of a node come their entries.
proof fn lemma_sets_added(it: SortIter, rs: Seq<(u32, u32)>, node: BtreeNode, n: int)
    requires
        it.takes(node),
        0 <= n <= 3,
        rs == it.ranges@ + set_ranges(node.sets@, n),
    ensures
        rs.len() <= it.ranges@.len() + n,
        forall|i: int| 0 <= i < rs.len() ==> range_ok(node.data@, #[trigger] rs[i]),
        range_entries(node.data@, rs, rs.len() as int) == it.entries() + runs_before(node, n),
    decreases n,
{
    let d = node.data@;
    if n == 0 {
        assert(rs =~= it.ranges@);
    } else {
        let t = node.sets@[n - 1];
        let qs = it.ranges@ + set_ranges(node.sets@, n - 1);
        lemma_sets_added(it, qs, node, n - 1);
        reveal(BtreeNode::wf);
        assert(set_readable(d, t));
        lemma_parse_shape(d.subrange(t.data_offset as int, t.end_offset as int));
        if t.size == 0 || t.data_offset >= t.end_offset {
            assert(rs =~= qs);
            assert(node.run(n - 1) =~= Seq::<EntryView>::empty());
        } else {
            assert(rs =~= qs.push((t.data_offset, t.end_offset)));
            lemma_ranges_prefix(d, qs, rs, qs.len() as int);
            assert forall|i: int| 0 <= i < rs.len() implies range_ok(d, #[trigger] rs[i]) by {
                if i < qs.len() {
                    assert(rs[i] == qs[i]);
                }
            }
        }
    }
    assert(range_entries(d, rs, rs.len() as int) =~= it.entries() + runs_before(node, n));
}

proof fn lemma_ranges_prefix(d: Seq<u8>, a: Seq<(u32, u32)>, b: Seq<(u32, u32)>, n: int)
    requires
        0 <= n <= a.len() <= b.len(),
        forall|i: int| 0 <= i < n ==> #[trigger] a[i] == b[i],
    ensures
        range_entries(d, a, n) == range_entries(d, b, n),
    decreases n,
{
    if n > 0 {
        assert(a[n - 1] == b[n - 1]);
        lemma_ranges_prefix(d, a, b, n - 1);
    }
}

} // verus!
