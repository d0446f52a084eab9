//! How splits and merges choose, when paths hold, and what a checked set is.

use crate::btree::Btree;
use crate::iter::{BtreeIter, BtreeNodeLockedType, BtreeRoot};
use crate::iter_path::descent_from;
use crate::key::{Bpos, BtreeKey, EntryView};
use crate::merge::{addr_index, share_left, spec_sibling, spec_underfull};
use crate::node::{BsetTree, BtreeNode, NodeState};
use crate::node_split::{
    balance_point, eff_u64s, is_shard_split, shard_point, split_point,
};
use crate::packed::{entry_at, parse, total_size};
use crate::sort::{lemma_stable_sort, stable_sort};
use crate::tree_merge::backs_off;
use crate::tree_write::over_share;
use crate::validate::{keys_between, known_format, set_fault};
use crate::walk::descent_node;
use vstd::prelude::*;

verus! {

// ── merges ──────────────────────────────────────────────────────────────

/// Of two nodes of one size that are both filled too little, each can take in the
/// other.
pub proof fn lemma_underfull_pair(a: BtreeNode, b: BtreeNode)
    requires
        spec_underfull(a),
        spec_underfull(b),
        a.node_size == b.node_size,
        a.node_size >= 288,
    ensures
        a.spec_can_absorb(b),
        b.spec_can_absorb(a),
        3 * total_size(a.all()) < a.node_size,
{
}

/// A node that is not filled too little takes at least about a third of its space.
pub proof fn lemma_well_filled(a: BtreeNode)
    requires
        !spec_underfull(a),
    ensures
        3 * total_size(a.all()) + 2 >= a.node_size,
{
}

/// A node that takes in another one has space for both and for one more extent
/// behind them.
pub proof fn lemma_absorb_room(a: BtreeNode, b: BtreeNode)
    requires
        a.spec_can_absorb(b),
    ensures
        total_size(a.all()) + total_size(b.all()) + 32 <= a.node_size,
        b.node_size == a.node_size ==> b.spec_can_absorb(a),
{
}

/// A leaf that is split before it takes one more key is filled over three quarters,
/// to within a u64 of its space; one that is not is not.
pub proof fn lemma_split_share(n: BtreeNode)
    ensures
        over_share(n) ==> 4 * total_size(n.all()) > 3 * n.node_size - 32,
        !over_share(n) ==> 4 * total_size(n.all()) < 3 * n.node_size + 32,
{
}

/// A merge is put off only where the two nodes together are over three fifths of
/// the size of the one that would absorb the other, and the node itself is under
/// five twelfths.
pub proof fn lemma_put_off(node: BtreeNode, sibling: BtreeNode, right: bool)
    requires
        backs_off(node, sibling, right),
    ensures
        ({
            let size = if right {
                sibling.node_size as int
            } else {
                node.node_size as int
            };
            &&& 5 * (total_size(node.all()) + total_size(sibling.all()) + 32) > 3 * size - 5
            &&& 12 * total_size(node.all()) < 5 * size
        }),
{
}

/// A node is merged with its right neighbour, and the outermost one with its left
/// neighbour; an only child with none.
#[verifier::rlimit(40)]
pub proof fn lemma_partner(t: Btree, a: u64, ancestors: Seq<u64>, parent: BtreeNode, p: int)
    requires
        ancestors.len() == 0 ==> parent == t.root.node,
        ancestors.len() > 0 ==> t.nodes().contains_key(ancestors.last())
            && t.nodes()[ancestors.last()] == parent,
        parent.key_count > 0,
        routed_at(parent, a, p),
    ensures
        ({
            let s = stable_sort(parent.all(), false);
            t.merge_partner(a, ancestors) == (if p + 1 < s.len() {
                Some((s[p + 1].bch_val().paddr.addr, true))
            } else if p > 0 {
                Some((s[p - 1].bch_val().paddr.addr, false))
            } else {
                None
            })
        }),
{
    lemma_neighbour(parent, a, p);
}

/// Two nodes share extents three to two, as near as whole extents go; both get
/// some.
pub proof fn lemma_shares(n: int)
    requires
        n >= 2,
    ensures
        1 <= share_left(n) < n,
        3 * n - 5 < 5 * share_left(n) < 3 * n + 5,
{
}

proof fn lemma_first_to(es: Seq<EntryView>, addr: u64)
    ensures
        0 <= addr_index(es, addr) <= es.len(),
        addr_index(es, addr) < es.len() ==> es[addr_index(es, addr)].bch_val().paddr.addr == addr,
        forall|j: int|
            0 <= j < addr_index(es, addr) ==> (#[trigger] es[j]).bch_val().paddr.addr != addr,
    decreases es.len(),
{
    if es.len() > 0 && es[0].bch_val().paddr.addr != addr {
        let f = es.skip(1);
        lemma_first_to(f, addr);
        assert forall|j: int| 0 <= j < addr_index(es, addr) implies (
        #[trigger] es[j]).bch_val().paddr.addr != addr by {
            if j > 0 {
                assert(es[j] == f[j - 1]);
            }
        }
        if addr_index(es, addr) < es.len() {
            assert(es[addr_index(es, addr)] == f[addr_index(f, addr)]);
        }
    }
}

/// Whether `p` is the place, in key order, of the first routing entry of a node for
/// `child`.
pub open spec fn routed_at(parent: BtreeNode, child: u64, p: int) -> bool {
    let s = stable_sort(parent.all(), false);
    &&& 0 <= p < s.len()
    &&& s[p].bch_val().paddr.addr == child
    &&& forall|j: int| 0 <= j < p ==> (#[trigger] s[j]).bch_val().paddr.addr != child
}

/// The neighbour of a child is the child of the routing entry right before that of
/// the child in key order, or right behind it: no routing entry lies between them.
/// There is none just if the child is the outermost one on that side.
#[verifier::rlimit(40)]
pub proof fn lemma_neighbour(parent: BtreeNode, child: u64, p: int)
    requires
        parent.key_count > 0,
        routed_at(parent, child, p),
    ensures
        ({
            let s = stable_sort(parent.all(), false);
            &&& spec_sibling(parent, child, true) == (if p == 0 {
                None
            } else {
                Some((s[p - 1].key(), s[p - 1].bch_val().paddr.addr))
            })
            &&& spec_sibling(parent, child, false) == (if p == s.len() - 1 {
                None
            } else {
                Some((s[p + 1].key(), s[p + 1].bch_val().paddr.addr))
            })
        }),
{
    let s = stable_sort(parent.all(), false);
    lemma_first_to(s, child);
    let q = addr_index(s, child);
    if q < p {
        assert(s[q].bch_val().paddr.addr != child);
    } else if p < q {
        assert(s[p].bch_val().paddr.addr != child);
    }
}

/// A child that a node does not route to has no neighbours there.
pub proof fn lemma_no_neighbour(parent: BtreeNode, child: u64, is_left: bool)
    requires
        forall|e: EntryView| #[trigger]
            parent.all().contains(e) ==> e.bch_val().paddr.addr != child,
    ensures
        spec_sibling(parent, child, is_left) is None,
{
    let s = stable_sort(parent.all(), false);
    lemma_stable_sort(parent.all(), false);
    lemma_first_to(s, child);
    let q = addr_index(s, child);
    if q < s.len() {
        assert(s.contains(s[q]));
    }
}

/// The neighbour on one side has the child as its neighbour on the other side,
/// where every child is routed to once.
#[verifier::rlimit(40)]
pub proof fn lemma_neighbours_agree(parent: BtreeNode, child: u64, other: u64, k: BtreeKey)
    requires
        parent.key_count > 0,
        spec_sibling(parent, child, false) == Some((k, other)),
        ({
            let s = stable_sort(parent.all(), false);
            forall|i: int, j: int|
                0 <= i < j < s.len() ==> (#[trigger] s[i]).bch_val().paddr.addr != (
                #[trigger] s[j]).bch_val().paddr.addr
        }),
    ensures
        spec_sibling(parent, other, true) matches Some(x) && x.1 == child,
{
    let s = stable_sort(parent.all(), false);
    lemma_first_to(s, child);
    lemma_first_to(s, other);
    let p = addr_index(s, child);
    let q = addr_index(s, other);
    if q < p + 1 {
        assert(s[q].bch_val().paddr.addr != s[p + 1].bch_val().paddr.addr);
    } else if q > p + 1 {
        assert(s[p + 1].bch_val().paddr.addr != other);
    }
}

// ── splits ──────────────────────────────────────────────────────────────

proof fn lemma_shard_point(es: Seq<EntryView>, i: int)
    requires
        0 < i,
    ensures
        match shard_point(es, i) {
            Some(k) => i <= k < es.len() && is_shard_split(es, k) && forall|j: int|
                i <= j < k ==> !#[trigger] is_shard_split(es, j),
            None => forall|j: int| i <= j < es.len() ==> !#[trigger] is_shard_split(es, j),
        },
    decreases es.len() - i,
{
    if i < es.len() {
        lemma_shard_point(es, i + 1);
    }
}

proof fn lemma_balance_point(es: Seq<EntryView>, target: int, i: int)
    requires
        0 < i,
    ensures
        ({
            let k = balance_point(es, target, i);
            (i <= k < es.len() && eff_u64s(es.take(k)) >= target && forall|j: int|
                i <= j < k ==> eff_u64s(#[trigger] es.take(j)) < target) || (k == es.len() as int
                / 2 && forall|j: int|
                i <= j < es.len() ==> eff_u64s(#[trigger] es.take(j)) < target)
        }),
    decreases es.len() - i,
{
    if i < es.len() {
        lemma_balance_point(es, target, i + 1);
    }
}

/// A split of three or more entries falls between two blocks of 1024 offsets where
/// that is possible away from both ends: more than a fifth and less than four
/// fifths of the entries go to the left then, and the split is the first such.
pub proof fn lemma_split_at_shard(es: Seq<EntryView>, i: int)
    requires
        es.len() >= 3,
        0 < i < es.len(),
        es[i - 1].pos.offset as int / 1024 < es[i].pos.offset as int / 1024,
        i > es.len() as int / 5,
        i < es.len() * 4 / 5,
    ensures
        ({
            let p = split_point(es);
            &&& 0 < p <= i
            &&& es[p - 1].pos.offset as int / 1024 < es[p].pos.offset as int / 1024
            &&& es.len() as int / 5 < p < es.len() * 4 / 5
        }),
{
    lemma_shard_point(es, 1);
    assert(is_shard_split(es, i));
}

/// A split of entries of one block of offsets gives the left node the first
/// entries that take three fifths of the space, and no more than it needs for
/// that, but for a fifth of the entries that either side gets in any case.
#[verifier::rlimit(40)]
pub proof fn lemma_split_balanced(es: Seq<EntryView>)
    requires
        es.len() >= 2,
        forall|i: int|
            0 < i < es.len() ==> (#[trigger] es[i]).pos.offset as int / 1024 == es[0].pos.offset as int
                / 1024,
    ensures
        ({
            let n = es.len() as int;
            let p = split_point(es);
            let target = eff_u64s(es) * 3 / 5;
            ||| p == n / 5
            ||| p == n - n / 5
            ||| p == n / 2
            ||| 0 < p < n && eff_u64s(es.take(p)) >= target && (p > 1 ==> eff_u64s(
                es.take(p - 1),
            ) < target)
        }),
{
    lemma_shard_point(es, 1);
    assert forall|j: int| 1 <= j < es.len() implies !#[trigger] is_shard_split(es, j) by {
        assert(es[j].pos.offset as int / 1024 == es[0].pos.offset as int / 1024);
        if j > 1 {
            assert(es[j - 1].pos.offset as int / 1024 == es[0].pos.offset as int / 1024);
        }
    }
    lemma_balance_point(es, eff_u64s(es) * 3 / 5, 1);
    let p = split_point(es);
    if p > 1 {
        assert(es.take(p - 1) == es.take(p - 1));
    }
}

// ── sets ────────────────────────────────────────────────────────────────

/// A set passes just if it lies in the node, ends at a multiple of 8, is not empty
/// where it says that it has entries, and has some unless it is the first.
pub proof fn lemma_set_passes(t: BsetTree, set: int, node_size: u32)
    ensures
        set_fault(t, set, node_size) is None <==> t.data_offset <= node_size && t.end_offset
            <= node_size && (t.size == 0 || t.data_offset < t.end_offset) && t.end_offset % 8 == 0
            && (set <= 0 || t.size > 0),
{
}

/// The known formats are 0 and 1, each with the mark or without.
pub proof fn lemma_formats(b: u8)
    ensures
        known_format(b) <==> b == 0 || b == 1 || b == 128 || b == 129,
{
    assert(b & 0x7f == 1 || b & 0x7f == 0 <==> b == 0 || b == 1 || b == 128 || b == 129)
        by (bit_vector);
}

/// In a run of packed keys that passes every key fits, has a known format and at
/// least its head, and comes behind the one in front of it.
pub proof fn lemma_keys_pass(
    d: Seq<u8>,
    off: int,
    end: int,
    set: int,
    prev: Option<Bpos>,
    count: int,
)
    requires
        0 <= off < end <= d.len(),
        keys_between(d, off, end, set, prev, count) is Ok,
        d[off] != 0,
    ensures
        off + 8 * d[off] <= end,
        d[off] >= 3,
        d[off + 1] == 0 || d[off + 1] == 1 || d[off + 1] == 128 || d[off + 1] == 129,
        prev matches Some(p) ==> p.lt(entry_at(d, off).pos),
        keys_between(
            d,
            off + 8 * d[off],
            end,
            set,
            Some(entry_at(d, off).pos),
            count + 1,
        ) == keys_between(d, off, end, set, prev, count),
{
    lemma_formats(d[off + 1]);
    if let Some(p) = prev {
        crate::key::lemma_bpos_order(p, entry_at(d, off).pos, p);
    }
}

/// The positions of a run of packed keys that passes rise from the first key to the
/// last, and all come behind the one in front of the run.
#[verifier::rlimit(40)]
pub proof fn lemma_keys_rise(
    d: Seq<u8>,
    off: int,
    end: int,
    set: int,
    prev: Option<Bpos>,
    count: int,
)
    requires
        0 <= off <= end <= d.len(),
        keys_between(d, off, end, set, prev, count) is Ok,
    ensures
        ({
            let es = parse(d.subrange(off, end));
            &&& forall|i: int|
                0 <= i < es.len() ==> (prev matches Some(p) ==> p.lt((#[trigger] es[i]).pos))
            &&& forall|i: int, j: int|
                0 <= i < j < es.len() ==> (#[trigger] es[i]).pos.lt((#[trigger] es[j]).pos)
        }),
    decreases end - off,
{
    let b = d.subrange(off, end);
    let es = parse(b);
    if off < end {
        assert(b[0] == d[off]);
        if d[off] != 0 {
            let n = 8 * d[off];
            lemma_keys_pass(d, off, end, set, prev, count);
            assert(b.skip(n) =~= d.subrange(off + n, end));
            let e = entry_at(d, off);
            let rest = parse(d.subrange(off + n, end));
            lemma_keys_rise(d, off + n, end, set, Some(e.pos), count + 1);
            assert(b.take(n) =~= d.subrange(off, off + n));
            assert(es =~= seq![e] + rest);
            assert forall|i: int| 0 <= i < es.len() implies (prev matches Some(p) ==> p.lt(
                (#[trigger] es[i]).pos,
            )) by {
                if let Some(p) = prev {
                    if i > 0 {
                        assert(es[i] == rest[i - 1]);
                        crate::key::lemma_bpos_order(p, e.pos, es[i].pos);
                    }
                }
            }
            assert forall|i: int, j: int| 0 <= i < j < es.len() implies (#[trigger] es[i]).pos.lt(
                (#[trigger] es[j]).pos,
            ) by {
                assert(es[j] == rest[j - 1]);
                if i > 0 {
                    assert(es[i] == rest[i - 1]);
                }
            }
        }
    }
}

// ── paths ───────────────────────────────────────────────────────────────

/// A descent that starts at the root is the one that lookups make.
pub proof fn lemma_descents_agree(
    m: Map<u64, BtreeNode>,
    root: BtreeNode,
    k: BtreeKey,
    i: int,
)
    ensures
        descent_from(m, Some(root), k, i) == descent_node(m, root, k, i),
    decreases i,
{
    if i > 0 {
        lemma_descents_agree(m, root, k, i - 1);
    }
}

/// A path that is found unchanged has no locked node that was written since: the
/// lock of each has the number that it had. One write to a locked node, or to the
/// leaf, is enough for it not to hold.
pub proof fn lemma_path_unchanged<'a>(it: BtreeIter<'a>, root: BtreeRoot, i: int)
    requires
        0 <= i < it.path@.len(),
    ensures
        it.unchanged(root) && it.path@[i].lock_state != BtreeNodeLockedType::Unlocked
            ==> it.path@[i].locked_seq == (if i == 0 {
            root.node.lock.seq
        } else {
            match it.path@[i].node {
                Some(n) => n.lock.seq,
                None => 0,
            }
        }),
        it.unchanged(root) && i == it.path@.len() - 1 && i > 0 ==> it.path@[i].locked_seq == (
        match it.path@[i].node {
            Some(n) => n.lock.seq,
            None => 0,
        }),
        (forall|j: int|
            0 <= j < it.path@.len() ==> (#[trigger] it.path@[j]).locked_seq == (if j == 0 {
                root.node.lock.seq
            } else {
                match it.path@[j].node {
                    Some(n) => n.lock.seq,
                    None => 0,
                }
            })) ==> it.unchanged(root),
{
    if forall|j: int|
        0 <= j < it.path@.len() ==> (#[trigger] it.path@[j]).locked_seq == (if j == 0 {
            root.node.lock.seq
        } else {
            match it.path@[j].node {
                Some(n) => n.lock.seq,
                None => 0,
            }
        }) {
        let l = it.path@.len() - 1;
        assert(it.path@[l] == it.path@.last());
        assert(it.seq_now(root, l) == it.path@[l].locked_seq);
    }
}

// ── states ──────────────────────────────────────────────────────────────

/// The state of a node is the one whose code it holds.
pub proof fn lemma_state_codes(n: BtreeNode, s: NodeState)
    ensures
        n.state == s.spec_code() ==> n.spec_state() == s,
        n.state <= 3 ==> n.spec_state().spec_code() == n.state,
        n.state > 3 ==> n.spec_state() == NodeState::Alive,
{
}

/// The sets behind those in use are empty, and the last one in use is not, unless
/// it is the first.
pub proof fn lemma_sets_in_use(n: BtreeNode, i: int)
    requires
        n.sets@.len() == 3,
        0 <= i < 3,
    ensures
        1 <= n.spec_nsets() <= 3,
        i >= n.spec_nsets() ==> n.sets@[i].size == 0 && n.sets@[i].end_offset
            <= n.sets@[i].data_offset,
        i > 0 && i == n.spec_nsets() - 1 ==> n.sets@[i].size > 0 || n.sets@[i].end_offset
            > n.sets@[i].data_offset,
{
}

} // verus!
