//! Stable sorting of entries.

use crate::key::{BtreeEntry, BtreeKey, EntryView};
use crate::packed::{lemma_total_append, lemma_total_push, total_size};
use crate::run::{lemma_read_copy, lemma_read_put, read_like, views};
use vstd::prelude::*;

verus! {

/// Whether `a` comes before `b`: by position, or by slot alone.
pub open spec fn before(a: EntryView, b: EntryView, by_pos: bool) -> bool {
    if by_pos {
        a.pos.lt(b.pos)
    } else {
        a.key().lt(b.key())
    }
}

/// The number of leading entries that do not come behind `e`.
pub open spec fn upper_bound(es: Seq<EntryView>, e: EntryView, by_pos: bool) -> int
    decreases es.len(),
{
    if es.len() == 0 || before(e, es[0], by_pos) {
        0
    } else {
        1 + upper_bound(es.skip(1), e, by_pos)
    }
}

/// The run in order; entries that tie keep their order.
pub open spec fn stable_sort(es: Seq<EntryView>, by_pos: bool) -> Seq<EntryView>
    decreases es.len(),
{
    if es.len() == 0 {
        Seq::<EntryView>::empty()
    } else {
        let s = stable_sort(es.drop_last(), by_pos);
        s.insert(upper_bound(s, es.last(), by_pos), es.last())
    }
}

/// Whether no entry comes before an earlier one.
pub open spec fn ordered(es: Seq<EntryView>, by_pos: bool) -> bool {
    forall|i: int, j: int|
        0 <= i < j < es.len() ==> !before(#[trigger] es[j], #[trigger] es[i], by_pos)
}

pub proof fn lemma_upper_bound_range(es: Seq<EntryView>, e: EntryView, by_pos: bool)
    ensures
        0 <= upper_bound(es, e, by_pos) <= es.len(),
        forall|j: int|
            0 <= j < upper_bound(es, e, by_pos) ==> !before(e, #[trigger] es[j], by_pos),
        upper_bound(es, e, by_pos) < es.len() ==> before(
            e,
            es[upper_bound(es, e, by_pos)],
            by_pos,
        ),
    decreases es.len(),
{
    if es.len() > 0 && !before(e, es[0], by_pos) {
        let t = es.skip(1);
        lemma_upper_bound_range(t, e, by_pos);
        assert forall|j: int| 0 <= j < upper_bound(es, e, by_pos) implies !before(
            e,
            #[trigger] es[j],
            by_pos,
        ) by {
            if j > 0 {
                assert(es[j] == t[j - 1]);
            }
        }
        if upper_bound(es, e, by_pos) < es.len() {
            assert(es[upper_bound(es, e, by_pos)] == t[upper_bound(t, e, by_pos)]);
        }
    }
}

pub proof fn lemma_upper_bound_unique(es: Seq<EntryView>, e: EntryView, by_pos: bool, i: int)
    requires
        0 <= i <= es.len(),
        forall|j: int| 0 <= j < i ==> !before(e, #[trigger] es[j], by_pos),
        i < es.len() ==> before(e, es[i], by_pos),
    ensures
        upper_bound(es, e, by_pos) == i,
{
    lemma_upper_bound_range(es, e, by_pos);
    let u = upper_bound(es, e, by_pos);
    if u < i {
        assert(!before(e, es[u], by_pos));
    } else if i < u {
        assert(!before(e, es[i], by_pos));
    }
}

/// Sorting orders a run and keeps its entries, their number and their size.
pub proof fn lemma_stable_sort(es: Seq<EntryView>, by_pos: bool)
    ensures
        ordered(stable_sort(es, by_pos), by_pos),
        stable_sort(es, by_pos).len() == es.len(),
        stable_sort(es, by_pos).to_multiset() == es.to_multiset(),
        total_size(stable_sort(es, by_pos)) == total_size(es),
        forall|x: EntryView| #[trigger] stable_sort(es, by_pos).contains(x) <==> es.contains(x),
    decreases es.len(),
{
    broadcast use vstd::seq_lib::group_to_multiset_ensures;

    if es.len() > 0 {
        let front = es.drop_last();
        let e = es.last();
        lemma_stable_sort(front, by_pos);
        let s = stable_sort(front, by_pos);
        let i = upper_bound(s, e, by_pos);
        lemma_upper_bound_range(s, e, by_pos);
        let r = s.insert(i, e);
        assert(es =~= front.push(e));
        assert(r =~= s.take(i).push(e) + s.skip(i));
        assert(s =~= s.take(i) + s.skip(i));
        lemma_total_append(s.take(i).push(e), s.skip(i));
        lemma_total_append(s.take(i), s.skip(i));
        lemma_total_push(s.take(i), e);
        lemma_total_push(front, e);
        assert(r.to_multiset() =~= s.to_multiset().insert(e));
        assert forall|a: int, b: int| 0 <= a < b < r.len() implies !before(
            #[trigger] r[b],
            #[trigger] r[a],
            by_pos,
        ) by {
            if b < i {
                assert(!before(s[b], s[a], by_pos));
            } else if b == i {
                assert(!before(e, s[a], by_pos));
            } else if a < i {
                assert(!before(s[b - 1], s[a], by_pos));
            } else if a == i {
                if b - 1 > i {
                    assert(!before(s[b - 1], s[i], by_pos));
                }
            } else {
                assert(!before(s[b - 1], s[a - 1], by_pos));
            }
        }
        assert forall|x: EntryView| #[trigger] r.contains(x) <==> es.contains(x) by {
            if r.contains(x) {
                let j = choose|j: int| 0 <= j < r.len() && r[j] == x;
                if j < i {
                    assert(s[j] == x);
                    assert(s.contains(x));
                    let m = choose|m: int| 0 <= m < front.len() && front[m] == x;
                    assert(es[m] == x);
                } else if j == i {
                    assert(es[es.len() - 1] == x);
                } else {
                    assert(s[j - 1] == x);
                    assert(s.contains(x));
                    let m = choose|m: int| 0 <= m < front.len() && front[m] == x;
                    assert(es[m] == x);
                }
            }
            if es.contains(x) {
                let m = choose|m: int| 0 <= m < es.len() && es[m] == x;
                if m == es.len() - 1 {
                    assert(r[i] == x);
                } else {
                    assert(front[m] == x);
                    assert(front.contains(x));
                    assert(s.contains(x));
                    let j = choose|j: int| 0 <= j < s.len() && s[j] == x;
                    if j < i {
                        assert(r[j] == x);
                    } else {
                        assert(r[j + 1] == x);
                    }
                }
            }
        }
    } else {
        assert(stable_sort(es, by_pos) =~= es);
    }
}

/// A run in order stays as it is.
pub proof fn lemma_sort_ordered(es: Seq<EntryView>, by_pos: bool)
    requires
        ordered(es, by_pos),
    ensures
        stable_sort(es, by_pos) == es,
    decreases es.len(),
{
    if es.len() > 0 {
        let front = es.drop_last();
        assert(ordered(front, by_pos)) by {
            assert forall|i: int, j: int| 0 <= i < j < front.len() implies !before(
                #[trigger] front[j],
                #[trigger] front[i],
                by_pos,
            ) by {
                assert(!before(es[j], es[i], by_pos));
            }
        }
        lemma_sort_ordered(front, by_pos);
        assert forall|j: int| 0 <= j < front.len() implies !before(
            es.last(),
            #[trigger] front[j],
            by_pos,
        ) by {
            assert(!before(es[es.len() - 1], es[j], by_pos));
        }
        lemma_upper_bound_unique(front, es.last(), by_pos, front.len() as int);
        assert(front.insert(front.len() as int, es.last()) =~= es);
    } else {
        assert(stable_sort(es, by_pos) =~= es);
    }
}

/// Strictly rising keys are in order, and so is any part of them.
pub proof fn lemma_sorted_ordered(es: Seq<EntryView>, from: int, to: int)
    requires
        crate::run::sorted(es),
        0 <= from <= to <= es.len(),
    ensures
        ordered(es.subrange(from, to), false),
        ordered(es, false),
{
    assert forall|i: int, j: int| 0 <= i < j < es.len() implies !before(
        #[trigger] es[j],
        #[trigger] es[i],
        false,
    ) by {
        assert(es[i].key().lt(es[j].key()));
    }
    let s = es.subrange(from, to);
    assert forall|i: int, j: int| 0 <= i < j < s.len() implies !before(
        #[trigger] s[j],
        #[trigger] s[i],
        false,
    ) by {
        assert(!before(es[from + j], es[from + i], false));
    }
}

/// Padding does not move entries.
pub proof fn lemma_padded_ordered(es: Seq<EntryView>)
    requires
        ordered(es, false),
    ensures
        ordered(crate::packed::all_padded(es), false),
{
    let p = crate::packed::all_padded(es);
    assert forall|i: int, j: int| 0 <= i < j < p.len() implies !before(
        #[trigger] p[j],
        #[trigger] p[i],
        false,
    ) by {
        assert(!before(es[j], es[i], false));
    }
}

/// Whether `a` comes before `b`.
fn comes_before(a: &BtreeEntry, b: &BtreeEntry, by_pos: bool) -> (r: bool)
    ensures
        r == before(a@, b@, by_pos),
{
    if by_pos {
        a.pos.precedes(&b.pos)
    } else {
        BtreeKey::from_bpos(a.pos, a.key_type).precedes(&BtreeKey::from_bpos(b.pos, b.key_type))
    }
}

/// The entries in order; entries that tie keep their order.
pub fn sort_entries(v: Vec<BtreeEntry>, by_pos: bool) -> (r: Vec<BtreeEntry>)
    ensures
        views(r@) == stable_sort(views(v@), by_pos),
        r@.len() == v@.len(),
        read_like(r@, v@),
{
    let ghost es = views(v@);
    let mut out: Vec<BtreeEntry> = Vec::with_capacity(v.len());
    assert(views(out@) =~= stable_sort(es.take(0), by_pos));
    let mut i: usize = 0;
    while i < v.len()
        invariant
            i <= v@.len(),
            es == views(v@),
            out@.len() == i,
            views(out@) == stable_sort(es.take(i as int), by_pos),
            read_like(out@, v@),
        decreases v@.len() - i,
    {
        let ghost s = views(out@);
        proof {
            lemma_stable_sort(es.take(i as int), by_pos);
            assert(es.take(i + 1).drop_last() =~= es.take(i as int));
            assert(es.take(i + 1).last() == v@[i as int]@);
        }
        let e = v[i].duplicate();
        let n: usize = out.len();
        let mut lo: usize = 0;
        let mut hi: usize = n;
        while lo < hi
            invariant
                lo <= hi <= n,
                n == out@.len(),
                s == views(out@),
                ordered(s, by_pos),
                forall|j: int| 0 <= j < lo ==> !before(e@, #[trigger] s[j], by_pos),
                forall|j: int| hi <= j < n ==> before(e@, #[trigger] s[j], by_pos),
            decreases hi - lo,
        {
            let mid: usize = lo + (hi - lo) / 2;
            assert(s[mid as int] == out@[mid as int]@);
            if comes_before(&e, &out[mid], by_pos) {
                assert forall|j: int| mid <= j < n implies before(
                    e@,
                    #[trigger] s[j],
                    by_pos,
                ) by {
                    if j > mid {
                        assert(!before(s[j], s[mid as int], by_pos));
                    }
                }
                hi = mid;
            } else {
                assert forall|j: int| 0 <= j < mid + 1 implies !before(
                    e@,
                    #[trigger] s[j],
                    by_pos,
                ) by {
                    if j < mid {
                        assert(!before(s[mid as int], s[j], by_pos));
                    }
                }
                lo = mid + 1;
            }
        }
        proof {
            lemma_upper_bound_unique(s, e@, by_pos, lo as int);
            lemma_read_copy(v@, i as int, e);
            lemma_read_put(out@, lo as int, e);
        }
        let ghost ev = e@;
        out.insert(lo, e);
        assert(views(out@) =~= s.insert(lo as int, ev));
        i = i + 1;
    }
    assert(es.take(es.len() as int) =~= es);
    out
}

} // verus!
