//! Iterating over the entries of one node, across its sets.

use crate::header::BLOCK_SIZE;
use crate::key::{BtreeKey, EntryView, KeyType};
use crate::node::{set_readable, BsetTree, BtreeNode, BSET_CACHELINE, DEFAULT_NODE_SIZE};
use crate::packed::{entry_at, lemma_step, parse, read_pos, read_type, well_packed};
use vstd::prelude::*;
use vstd::slice::slice_subrange;

verus! {

/// What is left of a set: the bytes from `k` to `end`.
#[derive(Clone, Copy, Debug, PartialEq, Eq, Structural)]
pub struct BtreeNodeIterSet {
    pub k: u32,
    pub end: u32,
}

/// What is left of the three sets; the one with the smallest key comes first.
#[derive(Clone, Debug)]
pub struct BtreeNodeIter {
    pub data: [BtreeNodeIterSet; 3],
}

impl Default for BtreeNodeIter {
    fn default() -> (r: BtreeNodeIter)
        ensures
            r.data@ == seq![nothing(), nothing(), nothing()],
    {
        let e = BtreeNodeIterSet { k: 0, end: 0 };
        let r = BtreeNodeIter { data: [e, e, e] };
        assert(r.data@ =~= seq![nothing(), nothing(), nothing()]);
        r
    }
}

/// Nothing left.
pub open spec fn nothing() -> BtreeNodeIterSet {
    BtreeNodeIterSet { k: 0, end: 0 }
}

/// Whether what is left of a set is a run of packed entries of `d`.
pub open spec fn left_ok(d: Seq<u8>, s: BtreeNodeIterSet) -> bool {
    s.k <= s.end <= d.len() && well_packed(d.subrange(s.k as int, s.end as int))
}

/// The entries that are left of a set.
pub open spec fn left(d: Seq<u8>, s: BtreeNodeIterSet) -> Seq<EntryView> {
    parse(d.subrange(s.k as int, s.end as int))
}

/// Whether `a` goes before `b`: it has entries left, and `b` has none, or one
/// with a larger key first.
pub open spec fn goes_first(d: Seq<u8>, a: BtreeNodeIterSet, b: BtreeNodeIterSet) -> bool {
    left(d, a).len() > 0 && (left(d, b).len() == 0 || left(d, a)[0].key().lt(left(d, b)[0].key()))
}

/// `s` with the sets at `i` and `j` in order.
pub open spec fn in_order_at(d: Seq<u8>, s: Seq<BtreeNodeIterSet>, i: int, j: int) -> Seq<
    BtreeNodeIterSet,
> {
    if goes_first(d, s[j], s[i]) {
        s.update(i, s[j]).update(j, s[i])
    } else {
        s
    }
}

/// Three sets in order.
pub open spec fn three_in_order(d: Seq<u8>, s: Seq<BtreeNodeIterSet>) -> Seq<BtreeNodeIterSet> {
    in_order_at(d, in_order_at(d, in_order_at(d, s, 0, 1), 0, 2), 1, 2)
}

impl BtreeNodeIter {
    /// Whether the iterator fits the node.
    pub open spec fn fits(self, b: BtreeNode) -> bool {
        &&& b.data@.len() <= DEFAULT_NODE_SIZE
        &&& left_ok(b.data@, self.data@[0])
        &&& left_ok(b.data@, self.data@[1])
        &&& left_ok(b.data@, self.data@[2])
    }

    /// Whether no set goes before the first one.
    pub open spec fn first_is_least(self, b: BtreeNode) -> bool {
        &&& !goes_first(b.data@, self.data@[1], self.data@[0])
        &&& !goes_first(b.data@, self.data@[2], self.data@[0])
    }

    /// The number of entries left.
    pub open spec fn remaining(self, b: BtreeNode) -> nat {
        left(b.data@, self.data@[0]).len() + left(b.data@, self.data@[1]).len() + left(
            b.data@,
            self.data@[2],
        ).len()
    }

    /// Whether nothing is left of a set.
    pub fn set_end(&self, i: usize) -> (r: bool)
        requires
            i < 3,
        ensures
            r == (self.data@[i as int].k == self.data@[i as int].end),
    {
        self.data[i].k == self.data[i].end
    }

    /// Whether nothing is left of the first set.
    pub fn is_end(&self) -> (r: bool)
        ensures
            r == (self.data@[0].k == self.data@[0].end),
    {
        self.set_end(0)
    }

    /// Leaves nothing.
    pub fn reset(&mut self)
        ensures
            final(self).data@ == seq![nothing(), nothing(), nothing()],
    {
        let e = BtreeNodeIterSet { k: 0, end: 0 };
        self.data = [e, e, e];
        assert(self.data@ =~= seq![nothing(), nothing(), nothing()]);
    }

    fn order_at(&mut self, b: &BtreeNode, i: usize, j: usize)
        requires
            old(self).fits(*b),
            i < j < 3,
        ensures
            final(self).fits(*b),
            final(self).data@ == in_order_at(b.data@, old(self).data@, i as int, j as int),
            final(self).remaining(*b) == old(self).remaining(*b),
    {
        let ghost d = b.data@;
        let ghost s0 = self.data@;
        let x = self.data[i];
        let y = self.data[j];
        proof {
            lemma_left(d, x);
            lemma_left(d, y);
        }
        if y.k >= y.end {
            return ;
        }
        let swap: bool = if x.k >= x.end {
            true
        } else {
            let xk = BtreeKey::from_bpos(read_pos(b.data.as_slice(), x.k as usize), KeyType::Normal);
            let yk = BtreeKey::from_bpos(read_pos(b.data.as_slice(), y.k as usize), KeyType::Normal);
            yk.precedes(&xk)
        };
        if swap {
            self.data[i] = y;
            self.data[j] = x;
            assert(self.data@ =~= s0.update(i as int, y).update(j as int, x));
        }
    }
}

/// What is left of a set, at its first entry.
pub proof fn lemma_left(d: Seq<u8>, s: BtreeNodeIterSet)
    requires
        left_ok(d, s),
    ensures
        s.k >= s.end ==> left(d, s).len() == 0,
        s.k < s.end ==> left(d, s).len() > 0 && left(d, s)[0] == entry_at(d, s.k as int)
            && d[s.k as int] >= 3 && s.k + d[s.k as int] * 8 <= s.end && left_ok(
            d,
            BtreeNodeIterSet { k: (s.k + d[s.k as int] * 8) as u32, end: s.end },
        ) && left(
            d,
            BtreeNodeIterSet { k: (s.k + d[s.k as int] * 8) as u32, end: s.end },
        ) == left(d, s).skip(1),
{
    if s.k < s.end {
        lemma_step(d, s.k as int, s.end as int);
        let n = BtreeNodeIterSet { k: (s.k + d[s.k as int] * 8) as u32, end: s.end };
        assert(left(d, s) == seq![entry_at(d, s.k as int)] + left(d, n));
        assert(left(d, s).skip(1) =~= left(d, n));
    } else {
        assert(d.subrange(s.k as int, s.end as int).len() == 0);
    }
}

/// Of three sets in order none goes before the first one.
proof fn lemma_first_of_three(d: Seq<u8>, s: Seq<BtreeNodeIterSet>)
    requires
        s.len() == 3,
    ensures
        !goes_first(d, three_in_order(d, s)[1], three_in_order(d, s)[0]),
        !goes_first(d, three_in_order(d, s)[2], three_in_order(d, s)[0]),
{
    let a = in_order_at(d, s, 0, 1);
    let b = in_order_at(d, a, 0, 2);
    assert(!goes_first(d, a[1], a[0])) by {
        lemma_goes_first(d, s[0], s[1], s[1]);
    }
    assert(!goes_first(d, b[1], b[0]) && !goes_first(d, b[2], b[0])) by {
        lemma_goes_first(d, a[2], a[0], a[1]);
    }
}

/// How sets go before each other.
proof fn lemma_goes_first(
    d: Seq<u8>,
    x: BtreeNodeIterSet,
    y: BtreeNodeIterSet,
    z: BtreeNodeIterSet,
)
    ensures
        goes_first(d, x, y) ==> !goes_first(d, y, x),
        goes_first(d, y, x) ==> !goes_first(d, x, y),
        !goes_first(d, y, x) && !goes_first(d, z, y) ==> !goes_first(d, z, x),
{
}

/// Brings the sets into order.
pub fn bch2_btree_node_iter_sort(iter: &mut BtreeNodeIter, b: &BtreeNode)
    requires
        old(iter).fits(*b),
    ensures
        final(iter).fits(*b),
        final(iter).data@ == three_in_order(b.data@, old(iter).data@),
        final(iter).first_is_least(*b),
        final(iter).remaining(*b) == old(iter).remaining(*b),
{
    proof {
        lemma_first_of_three(b.data@, iter.data@);
    }
    iter.order_at(b, 0, 1);
    iter.order_at(b, 0, 2);
    iter.order_at(b, 1, 2);
}

/// The number of leading entries that come before `pos`.
pub open spec fn leading_before(es: Seq<EntryView>, pos: BtreeKey) -> int
    decreases es.len(),
{
    if es.len() > 0 && es[0].key().lt(pos) {
        1 + leading_before(es.skip(1), pos)
    } else {
        0
    }
}

/// What is left of a set from the first entry on that does not come before
/// `pos`.
fn skip_before(b: &BtreeNode, s: BtreeNodeIterSet, pos: &BtreeKey) -> (r: BtreeNodeIterSet)
    requires
        b.data@.len() <= DEFAULT_NODE_SIZE,
        left_ok(b.data@, s),
    ensures
        left_ok(b.data@, r),
        r.end == s.end,
        left(b.data@, r) == left(b.data@, s).skip(leading_before(left(b.data@, s), *pos)),
{
    let ghost d = b.data@;
    let ghost es = left(d, s);
    let mut k: u32 = s.k;
    let mut done: bool = false;
    let ghost mut n: int = 0;
    assert(es.skip(0) =~= es);
    while k < s.end && !done
        invariant
            d == b.data@,
            d.len() <= DEFAULT_NODE_SIZE,
            es == left(d, s),
            left_ok(d, BtreeNodeIterSet { k, end: s.end }),
            0 <= n <= es.len(),
            left(d, BtreeNodeIterSet { k, end: s.end }) == es.skip(n),
            leading_before(es, *pos) == n + leading_before(es.skip(n), *pos),
            done ==> leading_before(es.skip(n), *pos) == 0,
        decreases
            s.end - k,
            if done {
                0int
            } else {
                1int
            },
    {
        let ghost cur = BtreeNodeIterSet { k, end: s.end };
        proof {
            lemma_left(d, cur);
        }
        let key = BtreeKey::from_bpos(read_pos(b.data.as_slice(), k as usize), KeyType::Normal);
        if key.precedes(pos) {
            let u64s: u8 = b.read_entry_u64s(k as usize);
            k = k + u64s as u32 * 8;
            proof {
                assert(es.skip(n).skip(1) =~= es.skip(n + 1));
                n = n + 1;
            }
        } else {
            done = true;
        }
    }
    proof {
        let cur = BtreeNodeIterSet { k, end: s.end };
        lemma_left(d, cur);
    }
    BtreeNodeIterSet { k, end: s.end }
}

/// All of a set; nothing of one without entries.
pub open spec fn whole(t: BsetTree) -> BtreeNodeIterSet {
    if t.size > 0 {
        BtreeNodeIterSet { k: t.data_offset, end: t.end_offset }
    } else {
        nothing()
    }
}

fn whole_set(b: &BtreeNode, i: usize) -> (r: BtreeNodeIterSet)
    requires
        b.wf(),
        i < 3,
    ensures
        r == whole(b.sets@[i as int]),
        left_ok(b.data@, r),
        left(b.data@, r) == b.run(i as int),
        b.data@.len() <= DEFAULT_NODE_SIZE,
{
    proof {
        reveal(BtreeNode::wf);
        assert(set_readable(b.data@, b.sets@[i as int]));
        assert(b.sets@[i as int].size == b.run(i as int).len());
        lemma_left(b.data@, nothing());
        assert(b.data@.subrange(0, 0).len() == 0);
        if b.sets@[i as int].size == 0 {
            assert(b.run(i as int) =~= left(b.data@, nothing()));
        }
    }
    let t = b.sets[i];
    if t.size > 0 {
        BtreeNodeIterSet { k: t.data_offset, end: t.end_offset }
    } else {
        BtreeNodeIterSet { k: 0, end: 0 }
    }
}

/// Starts at the first entry of each set.
pub fn bch2_btree_node_iter_init_from_start(iter: &mut BtreeNodeIter, b: &BtreeNode)
    requires
        b.wf(),
    ensures
        final(iter).fits(*b),
        final(iter).data@ == three_in_order(
            b.data@,
            seq![whole(b.sets@[0]), whole(b.sets@[1]), whole(b.sets@[2])],
        ),
        final(iter).first_is_least(*b),
        final(iter).remaining(*b) == b.all().len(),
{
    let x = whole_set(b, 0);
    let y = whole_set(b, 1);
    let z = whole_set(b, 2);
    iter.data = [x, y, z];
    assert(iter.data@ =~= seq![x, y, z]);
    bch2_btree_node_iter_sort(iter, b);
}

/// Starts in each set at the first entry that does not come before `pos`.
pub fn bch2_btree_node_iter_init(iter: &mut BtreeNodeIter, b: &BtreeNode, pos: &BtreeKey)
    requires
        b.wf(),
    ensures
        final(iter).fits(*b),
        final(iter).first_is_least(*b),
        exists|s: Seq<BtreeNodeIterSet>|
            final(iter).data@ == three_in_order(b.data@, s) && #[trigger] starts_at(*b, s, *pos),
{
    let x = skip_before(b, whole_set(b, 0), pos);
    let y = skip_before(b, whole_set(b, 1), pos);
    let z = skip_before(b, whole_set(b, 2), pos);
    iter.data = [x, y, z];
    let ghost s = iter.data@;
    assert(starts_at(*b, s, *pos));
    bch2_btree_node_iter_sort(iter, b);
}

/// Whether each set is left from the first entry on that does not come before
/// `pos`.
pub open spec fn starts_at(b: BtreeNode, s: Seq<BtreeNodeIterSet>, pos: BtreeKey) -> bool {
    &&& s.len() == 3
    &&& forall|i: int|
        0 <= i < 3 ==> left_ok(b.data@, #[trigger] s[i]) && left(b.data@, s[i]) == b.run(i).skip(
            leading_before(b.run(i), pos),
        ) && s[i].end == whole(b.sets@[i]).end
}

/// The packed bytes of the current entry.
pub open spec fn current_bytes(iter: BtreeNodeIter, b: BtreeNode) -> Option<Seq<u8>> {
    let k = iter.data@[0].k as int;
    if iter.data@[0].k < iter.data@[0].end {
        Some(b.data@.subrange(k, k + b.data@[k] * 8))
    } else {
        None
    }
}

/// The packed bytes of the current entry, tombstones not left out.
pub fn bch2_btree_node_iter_peek_all<'a>(iter: &BtreeNodeIter, b: &'a BtreeNode) -> (r: Option<
    &'a [u8],
>)
    requires
        iter.fits(*b),
    ensures
        match current_bytes(*iter, *b) {
            Some(s) => r matches Some(x) && x@ == s && crate::packed::decode(s) == left(
                b.data@,
                iter.data@[0],
            )[0],
            None => r is None && left(b.data@, iter.data@[0]).len() == 0,
        },
{
    let s = iter.data[0];
    proof {
        lemma_left(b.data@, s);
    }
    if s.k < s.end {
        let start: usize = s.k as usize;
        let n: usize = b.read_entry_u64s(start) as usize * 8;
        Some(slice_subrange(b.data.as_slice(), start, start + n))
    } else {
        None
    }
}

/// What an iterator becomes by going on by one entry.
pub open spec fn advanced(iter: BtreeNodeIter, b: BtreeNode) -> Seq<BtreeNodeIterSet> {
    let s = iter.data@[0];
    if s.k < s.end {
        three_in_order(
            b.data@,
            iter.data@.update(
                0,
                BtreeNodeIterSet { k: (s.k + b.data@[s.k as int] * 8) as u32, end: s.end },
            ),
        )
    } else {
        three_in_order(b.data@, iter.data@)
    }
}

/// Goes on by one entry.
pub fn bch2_btree_node_iter_advance(iter: &mut BtreeNodeIter, b: &BtreeNode)
    requires
        old(iter).fits(*b),
    ensures
        final(iter).fits(*b),
        final(iter).data@ == advanced(*old(iter), *b),
        final(iter).first_is_least(*b),
        old(iter).data@[0].k < old(iter).data@[0].end ==> final(iter).remaining(*b) == old(
            iter,
        ).remaining(*b) - 1,
        old(iter).data@[0].k >= old(iter).data@[0].end ==> final(iter).remaining(*b) == old(
            iter,
        ).remaining(*b),
{
    let s = iter.data[0];
    let ghost s0 = iter.data@;
    proof {
        lemma_left(b.data@, s);
    }
    if s.k < s.end {
        let u64s: u8 = b.read_entry_u64s(s.k as usize);
        iter.data[0] = BtreeNodeIterSet { k: s.k + u64s as u32 * 8, end: s.end };
        assert(iter.data@ =~= s0.update(
            0,
            BtreeNodeIterSet { k: (s.k + b.data@[s.k as int] * 8) as u32, end: s.end },
        ));
    }
    bch2_btree_node_iter_sort(iter, b);
}

/// The packed bytes of the current entry; then goes on by one.
pub fn bch2_btree_node_iter_next_all<'a>(iter: &mut BtreeNodeIter, b: &'a BtreeNode) -> (r: Option<
    &'a [u8],
>)
    requires
        old(iter).fits(*b),
    ensures
        final(iter).fits(*b),
        match current_bytes(*old(iter), *b) {
            Some(s) => r matches Some(x) && x@ == s && final(iter).data@ == advanced(
                *old(iter),
                *b,
            ),
            None => r is None && final(iter).data@ == old(iter).data@,
        },
{
    let r = bch2_btree_node_iter_peek_all(iter, b);
    if r.is_some() {
        bch2_btree_node_iter_advance(iter, b);
    }
    r
}

/// Where an iterator is once it has passed the tombstones at its front, as far
/// as `n` entries.
pub open spec fn past_tombstones(iter: BtreeNodeIter, b: BtreeNode, new: BtreeNodeIter, n: nat) -> bool
    decreases n,
{
    let s = iter.data@[0];
    if s.k < s.end && left(b.data@, s)[0].key_type == KeyType::Deleted {
        n > 0 && exists|mid: BtreeNodeIter|
            #![trigger mid.fits(b)]
            mid.data@ == advanced(iter, b) && mid.fits(b) && past_tombstones(
                mid,
                b,
                new,
                (n - 1) as nat,
            )
    } else {
        new.data@ == iter.data@
    }
}

/// Passes tombstones; the packed bytes of the entry behind them.
pub fn bch2_btree_node_iter_peek<'a>(iter: &mut BtreeNodeIter, b: &'a BtreeNode) -> (r: Option<
    &'a [u8],
>)
    requires
        old(iter).fits(*b),
    ensures
        final(iter).fits(*b),
        past_tombstones(*old(iter), *b, *final(iter), old(iter).remaining(*b)),
        match current_bytes(*final(iter), *b) {
            Some(s) => r matches Some(x) && x@ == s && left(
                b.data@,
                final(iter).data@[0],
            )[0].key_type != KeyType::Deleted,
            None => r is None,
        },
    decreases old(iter).remaining(*b),
{
    let s = iter.data[0];
    let ghost i0 = *iter;
    proof {
        lemma_left(b.data@, s);
    }
    if s.k >= s.end {
        return None;
    }
    if read_type(b.data.as_slice(), s.k as usize) != KeyType::Deleted {
        return bch2_btree_node_iter_peek_all(iter, b);
    }
    bch2_btree_node_iter_advance(iter, b);
    let ghost mid = *iter;
    proof {
        assert(mid.fits(*b));
    }
    bch2_btree_node_iter_peek(iter, b)
}

/// Leaves nothing of one set.
pub fn bch2_btree_node_iter_set_drop(iter: &mut BtreeNodeIter, b: &BtreeNode, idx: usize)
    requires
        old(iter).fits(*b),
    ensures
        final(iter).fits(*b),
        final(iter).data@ == three_in_order(
            b.data@,
            if idx < 3 {
                old(iter).data@.update(idx as int, nothing())
            } else {
                old(iter).data@
            },
        ),
        final(iter).first_is_least(*b),
{
    let ghost s0 = iter.data@;
    if idx < 3 {
        iter.data[idx] = BtreeNodeIterSet { k: 0, end: 0 };
        proof {
            assert(iter.data@ =~= s0.update(idx as int, nothing()));
            assert(b.data@.subrange(0, 0).len() == 0);
        }
    }
    bch2_btree_node_iter_sort(iter, b);
}

/// Where the entries of each set are in key order, the iterator visits all
/// entries in key order: the one that comes next never comes before the
/// current one.
pub proof fn lemma_visits_in_order(iter: BtreeNodeIter, b: BtreeNode, new: BtreeNodeIter)
    requires
        iter.fits(b),
        iter.first_is_least(b),
        left(b.data@, iter.data@[0]).len() > 0,
        left(b.data@, iter.data@[0]).len() > 1 ==> !left(b.data@, iter.data@[0])[1].key().lt(
            left(b.data@, iter.data@[0])[0].key(),
        ),
        new.data@ == advanced(iter, b),
        left(b.data@, new.data@[0]).len() > 0,
    ensures
        !left(b.data@, new.data@[0])[0].key().lt(left(b.data@, iter.data@[0])[0].key()),
{
    let d = b.data@;
    let s = iter.data@[0];
    lemma_left(d, s);
    let n = BtreeNodeIterSet { k: (s.k + d[s.k as int] * 8) as u32, end: s.end };
    assert(left(d, n) == left(d, s).skip(1));
    if left(d, n).len() > 0 {
        assert(left(d, n)[0] == left(d, s)[1]);
    }
    let t = iter.data@.update(0, n);
    let f = three_in_order(d, t)[0];
    assert(f == n || f == iter.data@[1] || f == iter.data@[2]);
}

// ── sets ────────────────────────────────────────────────────────────────

/// Where a set behind `t` starts: at the next block boundary.
pub fn bset_next_set(_b: &BtreeNode, t: &BsetTree) -> (r: u32)
    requires
        t.end_offset <= u32::MAX - 4096,
    ensures
        r % 4096 == 0,
        t.end_offset <= r < t.end_offset + 4096,
{
    let block: u32 = BLOCK_SIZE as u32;
    (t.end_offset + block - 1) / block * block
}

/// The number of cache lines in `2^byte_order` bytes.
pub fn btree_keys_cachelines(byte_order: u32) -> (r: u32)
    requires
        byte_order < 32,
    ensures
        r == (1u32 << byte_order) / BSET_CACHELINE,
{
    (1u32 << byte_order) / BSET_CACHELINE
}

/// The bytes of auxiliary data for `2^byte_order` bytes: eight for each cache
/// line.
pub fn btree_aux_data_bytes(byte_order: u32) -> (r: u32)
    requires
        byte_order < 32,
    ensures
        r == (1u32 << byte_order) / BSET_CACHELINE * 8,
{
    btree_keys_cachelines(byte_order) * 8
}

/// The bytes of a set.
pub fn bset<'a>(b: &'a BtreeNode, t: &BsetTree) -> (r: &'a [u8])
    requires
        t.data_offset <= t.end_offset <= b.data@.len(),
    ensures
        r@ == b.data@.subrange(t.data_offset as int, t.end_offset as int),
{
    slice_subrange(b.data.as_slice(), t.data_offset as usize, t.end_offset as usize)
}

/// The number of u64s of a set.
pub fn bset_u64s(t: &BsetTree) -> (r: u32)
    requires
        t.data_offset <= t.end_offset,
    ensures
        r == (t.end_offset - t.data_offset) / 8,
{
    (t.end_offset - t.data_offset) / 8
}

/// The bytes of the first set.
pub fn btree_bset_first(b: &BtreeNode) -> (r: &[u8])
    requires
        b.wf(),
    ensures
        r@ == b.data@.subrange(b.sets@[0].data_offset as int, b.sets@[0].end_offset as int),
{
    proof {
        reveal(BtreeNode::wf);
        assert(set_readable(b.data@, b.sets@[0]));
    }
    bset(b, &b.sets[0])
}

/// The bytes of the last set in use.
pub fn btree_bset_last(b: &BtreeNode) -> (r: &[u8])
    requires
        b.wf(),
    ensures
        ({
            let t = b.sets@[b.spec_nsets() - 1];
            r@ == b.data@.subrange(t.data_offset as int, t.end_offset as int)
        }),
{
    let last: usize = b.nsets() as usize - 1;
    proof {
        reveal(BtreeNode::wf);
        assert(set_readable(b.data@, b.sets@[last as int]));
    }
    bset(b, &b.sets[last])
}

} // verus!
