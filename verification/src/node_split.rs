//! Splitting a node in two and merging two nodes into one.

use crate::key::{Bpos, BtreeEntry, BtreeKey, EntryView, BKEY_U64S};
use crate::node::{
    set_readable, BsetTree, BtreeNode, BALANCE_TARGET_DEN, BALANCE_TARGET_NUM, DEFAULT_NODE_SIZE,
    MERGE_HIGHER_DEN, MERGE_HIGHER_NUM, MERGE_THRESHOLD_DEN, MERGE_THRESHOLD_NUM,
    SPLIT_THRESHOLD_DEN, SPLIT_THRESHOLD_NUM,
};
use crate::node_compact::{lemma_live_member, lemma_total_live};
use crate::node_edit::entry_size;
use crate::packed::{
    all_fit, all_padded, lemma_total_append, lemma_total_bound, lemma_total_push, total_size,
};
use crate::run::{lemma_live, live, live_of, sorted, views};
use crate::sort::lemma_sorted_ordered;
use vstd::prelude::*;

verus! {

/// Split points are preferred where the offset passes a multiple of this.
pub const SHARD_FACTOR: u64 = 1024;

/// The u64s that a node can hold.
pub fn btree_max_u64s(node_size: u32) -> (r: u32)
    ensures
        r == node_size / 8,
{
    node_size / 8
}

/// Whether `live_u64s` exceed three quarters of the capacity.
pub fn should_split(live_u64s: u32, node_size: u32) -> (r: bool)
    ensures
        r == (live_u64s > (node_size as int / 8) * 3 / 4),
{
    let max: u32 = btree_max_u64s(node_size);
    live_u64s > max * SPLIT_THRESHOLD_NUM / SPLIT_THRESHOLD_DEN
}

/// Whether `live_u64s` are below a third of the capacity.
pub fn should_merge(live_u64s: u32, node_size: u32) -> (r: bool)
    ensures
        r == (live_u64s < (node_size as int / 8) / 3),
{
    let max: u32 = btree_max_u64s(node_size);
    live_u64s < max * MERGE_THRESHOLD_NUM / MERGE_THRESHOLD_DEN
}

/// Whether `live_u64s` stay within three fifths of the capacity.
pub fn merge_fits_high_mark(live_u64s: u32, node_size: u32) -> (r: bool)
    ensures
        r == (live_u64s <= (node_size as int / 8) * 3 / 5),
{
    let max: u32 = btree_max_u64s(node_size);
    live_u64s <= max * MERGE_HIGHER_NUM / MERGE_HIGHER_DEN
}

/// The u64s that should go to the left node: three fifths.
pub fn balance_target_u64s(total_u64s: u32) -> (r: u32)
    requires
        total_u64s <= 0x5555_5555,
    ensures
        r == total_u64s as int * 3 / 5,
{
    total_u64s * BALANCE_TARGET_NUM / BALANCE_TARGET_DEN
}

/// The u64s of a run, aux records included.
pub open spec fn eff_u64s(es: Seq<EntryView>) -> int {
    total_size(es) / 8 + 3 * es.len()
}

/// The bytes of a run, aux records included.
pub open spec fn side_bytes(es: Seq<EntryView>) -> int {
    total_size(es) + 20 * es.len()
}

/// The first number from `i` on of entries that hold `target` u64s; half of
/// the entries where no number short of all does.
pub open spec fn balance_point(es: Seq<EntryView>, target: int, i: int) -> int
    decreases es.len() - i,
{
    if i >= es.len() {
        es.len() as int / 2
    } else if eff_u64s(es.take(i)) >= target {
        i
    } else {
        balance_point(es, target, i + 1)
    }
}

/// Whether the entries `i - 1` and `i` lie in different shards, and `i` is
/// more than a fifth away from both ends.
pub open spec fn is_shard_split(es: Seq<EntryView>, i: int) -> bool {
    let n = es.len() as int;
    &&& 0 < i < n
    &&& es[i - 1].pos.offset / SHARD_FACTOR < es[i].pos.offset / SHARD_FACTOR
    &&& i > n / 5
    &&& i < n * 4 / 5
}

/// The first shard split from `i` on.
pub open spec fn shard_point(es: Seq<EntryView>, i: int) -> Option<int>
    decreases es.len() - i,
{
    if i >= es.len() {
        None
    } else if is_shard_split(es, i) {
        Some(i)
    } else {
        shard_point(es, i + 1)
    }
}

/// `x`, kept between `lo` and `hi`.
pub open spec fn clamp_to(x: int, lo: int, hi: int) -> int {
    if x < lo {
        lo
    } else if x > hi {
        hi
    } else {
        x
    }
}

/// How many entries of a run of at least two go to the left node: up to the
/// first shard boundary away from the ends where there is one, else up to
/// three fifths of the u64s; at least a fifth of the entries on either side.
pub open spec fn split_point(es: Seq<EntryView>) -> int {
    let n = es.len() as int;
    let m = match (if n < 3 {
        None
    } else {
        shard_point(es, 1)
    }) {
        Some(i) => i,
        None => balance_point(es, eff_u64s(es) * 3 / 5, 1),
    };
    clamp_to(m, n / 5, n - n / 5)
}

proof fn lemma_points(es: Seq<EntryView>, target: int, i: int)
    requires
        es.len() >= 2,
        1 <= i,
    ensures
        1 <= balance_point(es, target, i) < es.len(),
        shard_point(es, i) matches Some(j) ==> 1 <= j < es.len(),
    decreases es.len() - i,
{
    if i < es.len() {
        lemma_points(es, target, i + 1);
    }
}

/// Both sides of a split get an entry.
pub proof fn lemma_split_point(es: Seq<EntryView>)
    requires
        es.len() >= 2,
    ensures
        1 <= split_point(es) < es.len(),
        es.len() as int / 5 <= split_point(es) <= es.len() - es.len() as int / 5,
{
    lemma_points(es, eff_u64s(es) * 3 / 5, 1);
}

proof fn lemma_prefix(es: Seq<EntryView>, i: int)
    requires
        0 <= i < es.len(),
    ensures
        total_size(es.take(i + 1)) == total_size(es.take(i)) + es[i].u64s() * 8,
        eff_u64s(es.take(i + 1)) == eff_u64s(es.take(i)) + es[i].u64s() + 3,
        total_size(es.take(i + 1)) <= total_size(es),
        0 <= total_size(es.take(i)),
        side_bytes(es.take(i + 1)) <= side_bytes(es),
        es[i].u64s() >= 3,
{
    assert(es.take(i + 1) =~= es.take(i).push(es[i]));
    lemma_total_push(es.take(i), es[i]);
    assert(es =~= es.take(i + 1) + es.skip(i + 1));
    lemma_total_append(es.take(i + 1), es.skip(i + 1));
    lemma_total_bound(es.skip(i + 1));
    lemma_total_bound(es.take(i));
}

/// The u64s of one packed entry.
fn entry_u64s(e: &BtreeEntry) -> (r: u32)
    requires
        e@.u64s() <= 0x5555_5555,
    ensures
        r == e@.u64s(),
{
    let n: usize = e.value.byte_len();
    (BKEY_U64S as usize + (n / 8 + if n % 8 == 0 {
        0usize
    } else {
        1usize
    })) as u32
}

impl BtreeNode {
    /// The bytes that the two sides of a split at `split_idx` would take, aux
    /// records included.
    pub fn predict_split_bias(entries: &[BtreeEntry], split_idx: usize) -> (r: (u32, u32))
        requires
            split_idx <= entries@.len(),
            side_bytes(views(entries@)) <= 0x5555_5555,
        ensures
            r.0 == side_bytes(views(entries@).take(split_idx as int)),
            r.1 == side_bytes(views(entries@).skip(split_idx as int)),
    {
        let ghost es = views(entries@);
        let mut left: u32 = 0;
        let mut total: u32 = 0;
        let mut i: usize = 0;
        proof {
            assert(es.take(0) =~= Seq::<EntryView>::empty());
        }
        while i < entries.len()
            invariant
                i <= entries@.len(),
                split_idx <= entries@.len(),
                es == views(entries@),
                side_bytes(es) <= 0x5555_5555,
                total == side_bytes(es.take(i as int)),
                left == side_bytes(
                    es.take(
                        if i <= split_idx {
                            i as int
                        } else {
                            split_idx as int
                        },
                    ),
                ),
                left <= total,
            decreases entries@.len() - i,
        {
            proof {
                lemma_prefix(es, i as int);
                assert(es[i as int] == entries@[i as int]@);
                assert(es.take(i as int).len() == i);
                assert(es.take(i + 1).len() == i + 1);
            }
            let bytes: u32 = entry_u64s(&entries[i]) * 8 + 20;
            total = total + bytes;
            if i < split_idx {
                left = left + bytes;
            }
            i = i + 1;
        }
        proof {
            assert(es.take(es.len() as int) =~= es);
            assert(es =~= es.take(split_idx as int) + es.skip(split_idx as int));
            lemma_total_append(es.take(split_idx as int), es.skip(split_idx as int));
        }
        (left, total - left)
    }

    /// The first place where the offsets of sorted entries pass a shard
    /// boundary more than a fifth away from both ends.
    pub fn find_shard_split(entries: &[BtreeEntry]) -> (r: Option<usize>)
        requires
            entries@.len() <= 0x5555_5555,
        ensures
            r is Some == (entries@.len() >= 3 && shard_point(views(entries@), 1) is Some),
            r matches Some(i) ==> shard_point(views(entries@), 1) == Some(i as int),
    {
        let ghost es = views(entries@);
        let n: usize = entries.len();
        if n < 3 {
            return None;
        }
        let mut i: usize = 1;
        while i < n
            invariant
                3 <= n == entries@.len() <= 0x5555_5555,
                1 <= i <= n,
                es == views(entries@),
                shard_point(es, 1) == shard_point(es, i as int),
            decreases n - i,
        {
            let prev: u64 = entries[i - 1].pos.offset;
            let cur: u64 = entries[i].pos.offset;
            assert(es[i as int].pos.offset == cur && es[i - 1].pos.offset == prev);
            if prev / SHARD_FACTOR < cur / SHARD_FACTOR {
                if i > n / 5 && i < n / 5 * 4 + n % 5 * 4 / 5 {
                    assert(is_shard_split(es, i as int));
                    return Some(i);
                }
            }
            assert(!is_shard_split(es, i as int));
            i = i + 1;
        }
        None
    }

    /// Where to split sorted entries: the number of entries for the left node
    /// and the key of the first entry for the right node. A left side that is
    /// over three quarters of the node size is moved on only if that makes it
    /// fit, which more entries never do.
    pub fn find_balanced_split(entries: &[BtreeEntry], node_size: u32) -> (r: Option<
        (usize, BtreeKey),
    >)
        requires
            side_bytes(views(entries@)) <= 0x5555_5555,
            node_size <= 0x5555_5555,
        ensures
            r is Some == (entries@.len() >= 2),
            r matches Some((mid, key)) ==> mid == split_point(views(entries@)) && 1 <= mid
                < entries@.len() && key == views(entries@)[mid as int].key(),
    {
        let ghost es = views(entries@);
        let n: usize = entries.len();
        if n < 2 {
            return None;
        }
        let mut total: u32 = 0;
        let mut i: usize = 0;
        proof {
            assert(es.take(0) =~= Seq::<EntryView>::empty());
            lemma_total_bound(es);
        }
        while i < n
            invariant
                i <= n == entries@.len(),
                es == views(entries@),
                side_bytes(es) <= 0x5555_5555,
                total == eff_u64s(es.take(i as int)),
                total <= side_bytes(es.take(i as int)),
                0 <= side_bytes(es.take(i as int)) <= side_bytes(es),
            decreases n - i,
        {
            proof {
                lemma_prefix(es, i as int);
                assert(es[i as int] == entries@[i as int]@);
            }
            total = total + entry_u64s(&entries[i]) + 3;
            i = i + 1;
        }
        assert(es.take(es.len() as int) =~= es);
        let target: u32 = balance_target_u64s(total);
        let mut mid: usize = n / 2;
        let mut acc: u32 = 0;
        let mut j: usize = 0;
        let mut done: bool = false;
        while j < n && !done
            invariant
                2 <= n == entries@.len(),
                j <= n,
                es == views(entries@),
                side_bytes(es) <= 0x5555_5555,
                target == eff_u64s(es) * 3 / 5,
                !done ==> acc == eff_u64s(es.take(j as int)),
                !done ==> acc <= side_bytes(es.take(j as int)) <= side_bytes(es),
                !done ==> mid == n / 2,
                !done && j >= 1 ==> balance_point(es, target as int, 1) == balance_point(
                    es,
                    target as int,
                    j as int,
                ),
                done ==> mid == balance_point(es, target as int, 1),
            decreases
                n - j,
                if done {
                    0int
                } else {
                    1int
                },
        {
            if acc >= target && j > 0 {
                mid = j;
                done = true;
            } else {
                proof {
                    lemma_prefix(es, j as int);
                    assert(es[j as int] == entries@[j as int]@);
                }
                acc = acc + entry_u64s(&entries[j]) + 3;
                j = j + 1;
            }
        }
        assert(mid == balance_point(es, target as int, 1));
        if let Some(s) = BtreeNode::find_shard_split(entries) {
            mid = s;
        }
        let min_split: usize = n / 5;
        let max_split: usize = n - n / 5;
        if mid < min_split {
            mid = min_split;
        } else if mid > max_split {
            mid = max_split;
        }
        proof {
            lemma_split_point(es);
        }
        assert(mid == split_point(es));
        if node_size > 0 {
            let max_side: u32 = node_size * 3 / 4;
            let (left, _right) = BtreeNode::predict_split_bias(entries, mid);
            if left > max_side && mid < max_split {
                let ghost start = mid as int;
                let mut new_mid: usize = mid + 1;
                while new_mid <= max_split && new_mid < n
                    invariant
                        max_split <= n == entries@.len(),
                        es == views(entries@),
                        side_bytes(es) <= 0x5555_5555,
                        mid == start,
                        mid < new_mid <= n,
                        left == side_bytes(es.take(start)),
                        left > max_side,
                        side_bytes(es.take(new_mid - 1)) >= left,
                    decreases n - new_mid,
                {
                    let (new_left, _r) = BtreeNode::predict_split_bias(entries, new_mid);
                    proof {
                        lemma_prefix(es, new_mid - 1);
                    }
                    if new_left <= max_side {
                        mid = new_mid;
                        break;
                    }
                    new_mid = new_mid + 1;
                }
            }
        }
        let key = BtreeKey::from_bpos(entries[mid].pos, entries[mid].key_type);
        assert(es[mid as int].key() == key);
        Some((mid, key))
    }

    /// Whether `right` is a new node but for its entries and their range.
    pub open spec fn is_split_off(self, level: u8, es: Seq<EntryView>) -> bool {
        &&& self.holds_packed(es)
        &&& self.level == level
        &&& self.node_size == DEFAULT_NODE_SIZE
        &&& self.data@.len() == DEFAULT_NODE_SIZE
        &&& self.min_key == es[0].pos
        &&& self.max_key == es.last().pos
        &&& self.whiteout_count == 0
        &&& self.lock.seq == 0
        &&& self.refcount == 1
        &&& self.state == 0
        &&& self.flags == 0
        &&& self.journal_seq == 0
        &&& self.block_addr == 0
        &&& !self.will_make_reachable
        &&& self.pin_count == 0
        &&& self.journal_pin is None
        &&& !self.read_in_flight
    }

    /// Whether `left` is this node with the run `es` as its only entries.
    pub open spec fn is_split_left(self, left: BtreeNode, es: Seq<EntryView>) -> bool {
        &&& left.holds_packed(es)
        &&& left.data@.len() == self.data@.len()
        &&& left.min_key == es[0].pos
        &&& left.max_key == es.last().pos
        &&& left == (BtreeNode {
            data: left.data,
            sets: left.sets,
            key_count: left.key_count,
            min_key: left.min_key,
            max_key: left.max_key,
            ..self
        })
    }

    /// Packs the first `mid` entries into this node and the rest into `right`,
    /// with the ranges of both nodes.
    fn pack_entries_into(&mut self, entries: &Vec<BtreeEntry>, mid: usize, right: &mut BtreeNode)
        requires
            old(self).wf(),
            1 <= mid < entries@.len(),
            all_fit(views(entries@)),
            sorted(views(entries@)),
            total_size(views(entries@)) <= old(self).data@.len(),
            old(right).is_new(old(self).level),
            old(right).wf(),
        ensures
            final(self).wf(),
            final(right).wf(),
            old(self).is_split_left(*final(self), views(entries@).take(mid as int)),
            final(right).is_split_off(old(self).level, views(entries@).skip(mid as int)),
    {
        proof {
            reveal(BtreeNode::wf);
        }
        let ghost es = views(entries@);
        let n: usize = entries.len();
        let ghost l0 = *self;
        proof {
            assert(es =~= es.take(mid as int) + es.skip(mid as int));
            lemma_total_append(es.take(mid as int), es.skip(mid as int));
            lemma_total_bound(es.take(mid as int));
            lemma_total_bound(es.skip(mid as int));
            lemma_sorted_ordered(es, 0, mid as int);
            lemma_sorted_ordered(es, mid as int, n as int);
            assert(es.subrange(0, mid as int) =~= es.take(mid as int));
            assert(es.subrange(mid as int, n as int) =~= es.skip(mid as int));
            assert(es[0] == entries@[0]@);
            assert(es[mid - 1] == entries@[mid - 1]@);
            assert(es[mid as int] == entries@[mid as int]@);
            assert(es[n - 1] == entries@[n - 1]@);
        }
        self.repack(entries, 0, mid);
        self.set_range(entries[0].pos, entries[mid - 1].pos);
        right.repack(entries, mid, n);
        right.set_range(entries[mid].pos, entries[n - 1].pos);
    }

    /// Sets the range of keys below the node.
    pub fn set_range(&mut self, min_key: Bpos, max_key: Bpos)
        ensures
            *final(self) == (BtreeNode { min_key, max_key, ..*old(self) }),
            final(self).wf() == old(self).wf(),
            final(self).all() == old(self).all(),
            forall|i: int| #[trigger] final(self).run(i) == old(self).run(i),
    {
        proof {
            reveal(BtreeNode::wf);
        }
        self.min_key = min_key;
        self.max_key = max_key;
        proof {
            lemma_wf_same(*old(self), *self);
        }
    }

    /// Splits the node: it keeps the left part of its live entries, and a new
    /// node takes the rest. Returns the first key of the new node and the new
    /// node; nothing for fewer than two live entries.
    pub fn split(&mut self) -> (r: Option<(BtreeKey, BtreeNode)>)
        requires
            old(self).wf(),
        ensures
            final(self).wf(),
            r is Some == (old(self).live().len() >= 2),
            r is None ==> *final(self) == *old(self),
            r matches Some((key, right)) ==> ({
                let es = old(self).live();
                let mid = split_point(es);
                &&& 1 <= mid < es.len()
                &&& key == es[mid].key()
                &&& right.wf()
                &&& old(self).is_split_left(*final(self), es.take(mid))
                &&& right.is_split_off(old(self).level, es.skip(mid))
            }),
    {
        proof {
            reveal(BtreeNode::wf);
        }
        let ghost n0 = *self;
        let entries: Vec<BtreeEntry> = self.collect_all_entries();
        proof {
            n0.lemma_live_facts();
        }
        if entries.len() < 2 {
            return None;
        }
        match BtreeNode::find_balanced_split(entries.as_slice(), self.node_size) {
            Some((mid, key)) => {
                let mut right = BtreeNode::new(self.level);
                self.pack_entries_into(&entries, mid, &mut right);
                Some((key, right))
            },
            None => None,
        }
    }

    /// Whether the entries of both nodes fit into this one, with room for one
    /// more extent.
    pub open spec fn spec_can_absorb(self, other: BtreeNode) -> bool {
        total_size(self.all()) + total_size(other.all()) + 32 + 64 <= self.node_size
    }

    pub fn can_absorb(&self, other: &BtreeNode) -> (r: bool)
        requires
            self.wf(),
            other.wf(),
        ensures
            r == self.spec_can_absorb(*other),
    {
        proof {
            reveal(BtreeNode::wf);
        }
        let a: u32 = self.total_data_bytes();
        let b: u32 = other.total_data_bytes();
        a + b + entry_size() + 64 <= self.node_size
    }

    /// The live entries of this node and `other` together; those of `other`
    /// win their slots.
    pub open spec fn live_with(self, other: BtreeNode) -> Seq<EntryView> {
        live(self.live() + other.live())
    }

    /// Whether `new` is this node after it absorbed `other`.
    pub open spec fn absorbed(self, new: BtreeNode, other: BtreeNode) -> bool {
        let es = self.live_with(other);
        &&& new.wf()
        &&& new.holds_compacted(es)
        &&& new.data@.len() == self.data@.len()
        &&& new == (BtreeNode {
            min_key: if es.len() > 0 {
                es[0].pos
            } else {
                self.min_key
            },
            max_key: if es.len() > 0 {
                es.last().pos
            } else {
                self.max_key
            },
            ..self.with_contents(new)
        })
    }

    /// Takes all live entries of `other` into this node, compacts it and sets
    /// its range; `other` is left empty.
    pub fn absorb(&mut self, other: &mut BtreeNode)
        requires
            old(self).wf(),
            old(other).wf(),
            total_size(old(self).live()) + total_size(old(other).live()) <= old(self).data@.len(),
        ensures
            final(self).wf(),
            old(self).absorbed(*final(self), *old(other)),
            final(other).wf(),
            final(other).all() == Seq::<EntryView>::empty(),
            final(other).sets@ == seq![
                BsetTree::spec_empty(),
                BsetTree::spec_empty(),
                BsetTree::spec_empty(),
            ],
            final(other).key_count == 0,
            final(other).whiteout_count == 0,
            final(other).data@.len() == old(other).data@.len(),
            *final(other) == old(other).with_contents(*final(other)),
    {
        proof {
            reveal(BtreeNode::wf);
        }
        let ghost a = *self;
        let ghost b = *other;
        let mut both: Vec<BtreeEntry> = self.collect_all_entries();
        let mut more: Vec<BtreeEntry> = other.collect_all_entries();
        let ghost va = both@;
        let ghost vb = more@;
        both.append(&mut more);
        let ghost cat = a.live() + b.live();
        assert(views(both@) =~= views(va) + views(vb));
        let all: Vec<BtreeEntry> = live_of(both);
        proof {
            a.lemma_live_facts();
            b.lemma_live_facts();
            lemma_total_append(a.live(), b.live());
            lemma_total_live(cat);
            lemma_live(cat);
            crate::run::lemma_live_idempotent(live(cat));
            let m = live(cat);
            assert forall|i: int| 0 <= i < m.len() implies (#[trigger] m[i]).fits()
                && m[i].padded() == m[i] by {
                lemma_live_member(cat, i);
                let j = choose|j: int| 0 <= j < cat.len() && cat[j] == m[i];
                if j < a.live().len() {
                    assert(cat[j] == a.live()[j]);
                    assert(all_padded(a.live())[j] == a.live()[j].padded());
                } else {
                    let k = j - a.live().len();
                    assert(cat[j] == b.live()[k]);
                    assert(all_padded(b.live())[k] == b.live()[k].padded());
                }
            }
            assert(all_padded(m) =~= m);
            assert(views(all@).subrange(0, all@.len() as int) =~= m);
            lemma_sorted_ordered(m, 0, m.len() as int);
        }
        self.repack(&all, 0, all.len());
        self.compact();
        if all.len() > 0 {
            proof {
                assert(views(all@)[0] == all@[0]@);
                assert(views(all@).last() == all@[all@.len() - 1]@);
            }
            self.set_range(all[0].pos, all[all.len() - 1].pos);
        }
        other.bch2_btree_keys_init();
    }
}

/// Fields that say nothing of the entries do not matter to them.
pub proof fn lemma_wf_same(a: BtreeNode, b: BtreeNode)
    requires
        a.data == b.data,
        a.sets == b.sets,
        a.node_size == b.node_size,
        a.key_count == b.key_count,
    ensures
        a.wf() == b.wf(),
        a.all() == b.all(),
        a.live() == b.live(),
        forall|i: int| #[trigger] a.run(i) == b.run(i),
{
    reveal(BtreeNode::wf);
    assert forall|i: int| #[trigger] a.run(i) == b.run(i) by {}
    if a.wf() {
        assert forall|i: int| 0 <= i < 3 implies set_readable(b.data@, #[trigger] b.sets@[i])
            && b.sets@[i].size == b.run(i).len() by {
            assert(set_readable(a.data@, a.sets@[i]));
        }
    }
    if b.wf() {
        assert forall|i: int| 0 <= i < 3 implies set_readable(a.data@, #[trigger] a.sets@[i])
            && a.sets@[i].size == a.run(i).len() by {
            assert(set_readable(b.data@, b.sets@[i]));
        }
    }
}

/// A split loses no live entry and adds none: the two parts, one behind the
/// other, are the live entries before the split, and the keys of the left part
/// come before those of the right part.
pub proof fn lemma_split_partition(old: BtreeNode, left: BtreeNode, right: BtreeNode)
    requires
        old.wf(),
        old.live().len() >= 2,
        old.is_split_left(left, old.live().take(split_point(old.live()))),
        right.is_split_off(old.level, old.live().skip(split_point(old.live()))),
    ensures
        left.all() + right.all() == old.live(),
        left.live() == left.all(),
        right.live() == right.all(),
        forall|i: int, j: int|
            0 <= i < left.all().len() && 0 <= j < right.all().len() ==> (
            #[trigger] left.all()[i]).key().lt((#[trigger] right.all()[j]).key()),
{
    reveal(BtreeNode::wf);
    let es = old.live();
    let mid = split_point(es);
    lemma_split_point(es);
    old.lemma_live_facts();
    assert forall|i: int| 0 <= i < es.len() implies (#[trigger] es[i]).padded() == es[i] by {
        assert(all_padded(es)[i] == es[i].padded());
    }
    assert(all_padded(es.take(mid)) =~= es.take(mid));
    assert(all_padded(es.skip(mid)) =~= es.skip(mid));
    assert(left.all() + right.all() =~= es);
    assert(left.all() == es.take(mid));
    assert(right.all() == es.skip(mid));
    assert forall|i: int, j: int| 0 <= i < left.all().len() && 0 <= j < right.all().len() implies (
    #[trigger] left.all()[i]).key().lt((#[trigger] right.all()[j]).key()) by {
        assert(es[i].key().lt(es[mid + j].key()));
    }
    assert forall|i: int, j: int| 0 <= i < j < left.all().len() implies (
    #[trigger] left.all()[i]).key().lt((#[trigger] left.all()[j]).key()) by {
        assert(es[i].key().lt(es[j].key()));
    }
    assert forall|i: int, j: int| 0 <= i < j < right.all().len() implies (
    #[trigger] right.all()[i]).key().lt((#[trigger] right.all()[j]).key()) by {
        assert(es[mid + i].key().lt(es[mid + j].key()));
    }
    crate::run::lemma_live_idempotent(left.all());
    crate::run::lemma_live_idempotent(right.all());
}

} // verus!
