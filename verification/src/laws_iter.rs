//! Where walks start, what they show, and what iterators over a node leave.

use crate::btree::{lemma_init_rest, seek_in, walk_items};
use crate::cache::NodeCache;
use crate::iter::{BtreeIter, BtreeNodeLockedType, BtreeRoot, IterFlags};
use crate::key::{Bpos, BtreeKey, EntryView, KeyType};
use crate::laws::lemma_least_from;
use crate::laws_choice::lemma_descents_agree;
use crate::laws_engine::lemma_last_key;
use crate::node::BtreeNode;
use crate::node_iter::{
    advanced, in_order_at, leading_before, left, lemma_left, past_tombstones, three_in_order,
    BtreeNodeIter, BtreeNodeIterSet,
};
use crate::overlay::{JournalKey, JournalKeys};
use crate::run::{lemma_lower_bound_range, sorted};
use crate::trans::{BtreeTrans, RestartReason};
use crate::walk::{descent_node, leaf_rest};
use vstd::multiset::Multiset;
use vstd::prelude::*;

verus! {

// ── starts ──────────────────────────────────────────────────────────────

/// A walk in a node starts at the smallest key that does not come before the one
/// looked for: no entry lies between them.
#[verifier::rlimit(40)]
pub proof fn lemma_seek_least(n: BtreeNode, t: BtreeKey, j: int)
    requires
        sorted(n.run(0)),
        t != BtreeKey::spec_min_key(),
        0 <= j < n.all().len(),
        !n.all()[j].key().lt(t),
    ensures
        1 <= n.spec_seek(t) <= n.all().len(),
        !n.all()[n.spec_seek(t) - 1].key().lt(t),
        !n.all()[j].key().lt(n.all()[n.spec_seek(t) - 1].key()),
{
    let a = n.run(0);
    let b = n.run(1);
    let c = n.run(2);
    lemma_lower_bound_range(a, t);
    lemma_least_from(b, t);
    lemma_least_from(c, t);
    let all = n.all();
    assert forall|j: int| 0 <= j < all.len() implies #[trigger] all[j] == (if j < a.len() {
        a[j]
    } else if j < a.len() + b.len() {
        b[j - a.len()]
    } else {
        c[j - a.len() - b.len()]
    }) by {}
    let x = all[j];
    let l = crate::run::lower_bound(a, t);
    if j < a.len() {
        if j > l {
            assert(a[l].key().lt(a[j].key()));
        }
    }
}

/// An iterator that stands where a walk for a key starts has that walk before it;
/// it holds the locks that its flags ask for: the leaf for a read or, where a write
/// is to follow, for that, and then the nodes above it for reading.
#[verifier::rlimit(40)]
pub proof fn lemma_started<'a>(
    it: BtreeIter<'a>,
    root: BtreeRoot,
    target: BtreeKey,
    flags: IterFlags,
    cache: NodeCache,
)
    requires
        it.starts_at(root, target, flags, cache),
    ensures
        it.rest() == walk_items(root, cache.nodes@, target),
        flags.intent ==> it.path@.last().lock_state == BtreeNodeLockedType::Intent,
        !flags.intent ==> it.path@.last().lock_state == BtreeNodeLockedType::Read,
        forall|i: int|
            0 <= i < root.depth ==> (flags.intent <==> (#[trigger] it.path@[i]).lock_state
                == BtreeNodeLockedType::Read) && (!flags.intent <==> it.path@[i].lock_state
                == BtreeNodeLockedType::Unlocked),
        it.rest().len() > 0 && it.current() is Some ==> it.pos == it.rest()[0].key(),
{
    let d = root.depth as int;
    assert(it.path@[d] == it.path@.last());
    lemma_init_rest(it, root, target, d);
    let last = it.path@[d];
    assert(it.leaf_items() == leaf_rest(last.view_node(), seek_in(last.view_node(), target)));
}

/// An iterator that was started over stands where a new one for its position
/// would.
pub proof fn lemma_restarted<'a>(it: BtreeIter<'a>, new: BtreeIter<'a>, root: BtreeRoot)
    requires
        it.restarted(new, root),
    ensures
        new.rest() == walk_items(root, it.cache.nodes@, it.pos),
        new.had_restart,
        new.flags == it.flags,
        new.cache == it.cache,
{
    lemma_started(new, root, it.pos, it.flags, *it.cache);
}

/// An iterator whose path was rebuilt below the root stands where a walk for its
/// position starts, and has the nodes below the root locked for reading.
#[verifier::rlimit(40)]
pub proof fn lemma_rebuilt<'a>(it: BtreeIter<'a>, new: BtreeIter<'a>, root: BtreeRoot)
    requires
        it.rebuilt(new),
        it.depth == root.depth,
        it.path@.len() > 0,
        it.path@[0].view_node() == Some(root.node),
        it.path@[0].child_idx == 0,
    ensures
        new.rest() == walk_items(root, it.cache.nodes@, it.pos),
        forall|i: int|
            1 <= i <= root.depth ==> (#[trigger] new.path@[i]).lock_state
                == BtreeNodeLockedType::Read,
{
    let d = root.depth as int;
    let m = it.cache.nodes@;
    assert forall|j: int| 0 <= j <= d implies (#[trigger] new.path@[j]).view_node() == descent_node(
        m,
        root.node,
        it.pos,
        j,
    ) && new.path@[j].child_idx == (if j == 0 {
        0
    } else {
        crate::route::route(descent_node(m, root.node, it.pos, j - 1), it.pos).1
    }) by {
        lemma_descents_agree(m, root.node, it.pos, j);
        if j > 0 {
            lemma_descents_agree(m, root.node, it.pos, j - 1);
        }
    }
    lemma_descents_agree(m, root.node, it.pos, d);
    lemma_init_rest(new, root, it.pos, d);
    assert(new.path@[d] == new.path@.last());
    let last = new.path@[d];
    assert(new.leaf_items() == leaf_rest(last.view_node(), seek_in(last.view_node(), it.pos)));
}

/// A look at the current place gives the newest key that the overlay has there,
/// where the iterator has an overlay and is to look into it, and what the leaf has
/// else.
#[verifier::rlimit(40)]
pub proof fn lemma_peek<'a>(it: BtreeIter<'a>)
    ensures
        !it.flags.with_journal || it.overlay is None ==> it.spec_peek() == (match it.current() {
            Some(e) => Some((e.key(), e.bch_val())),
            None => None,
        }),
        it.flags.with_journal ==> (it.overlay matches Some(o) ==> ({
            let p = Bpos { inode: 0, offset: it.pos.vaddr, snapshot: it.pos.snapshot_id };
            &&& forall|i: int|
                0 <= i < o.keys@.len() && shows_at(o.keys@, i, it.btree_type, p)
                    ==> it.spec_peek() == Some(
                    ((#[trigger] o.keys@[i]).entry@.key(), o.keys@[i].entry@.bch_val()),
                )
            &&& (forall|i: int|
                0 <= i < o.keys@.len() ==> !((#[trigger] o.keys@[i]).btree_id == it.btree_type
                    && o.keys@[i].entry.pos.same_slot(p))) ==> it.spec_peek() == (
            match it.current() {
                Some(e) => Some((e.key(), e.bch_val())),
                None => None,
            })
        })),
{
    if let Some(o) = it.overlay {
        let p = Bpos { inode: 0, offset: it.pos.vaddr, snapshot: it.pos.snapshot_id };
        assert(Bpos::spec_from_key(it.pos) == p);
        lemma_last_key(o.keys@, it.btree_type, p);
        let l = JournalKeys::last_key(o.keys@, it.btree_type, p);
        assert forall|i: int|
            0 <= i < o.keys@.len() && shows_at(o.keys@, i, it.btree_type, p) implies l == Some(
            i,
        ) by {
            match l {
                Some(j) => {
                    if j < i {
                        assert(!crate::laws_engine::goes_to(o.keys@[i], it.btree_type, p));
                    } else if i < j {
                        assert(!(o.keys@[j].btree_id == it.btree_type
                            && o.keys@[j].entry.pos.same_slot(p)));
                    }
                },
                None => {
                    assert(!crate::laws_engine::goes_to(o.keys@[i], it.btree_type, p));
                },
            }
        }
    }
}

/// Whether the key number `i` is the newest one of a tree in a slot.
pub open spec fn shows_at(keys: Seq<JournalKey>, i: int, ty: crate::ids::BtreeId, p: Bpos) -> bool {
    &&& keys[i].btree_id == ty
    &&& keys[i].entry.pos.same_slot(p)
    &&& forall|j: int|
        i < j < keys.len() ==> !((#[trigger] keys[j]).btree_id == ty && keys[j].entry.pos.same_slot(
            p,
        ))
}

// ── iterators over a node ───────────────────────────────────────────────

/// The entries that are left of three sets.
pub open spec fn all_left(d: Seq<u8>, s: Seq<BtreeNodeIterSet>) -> Multiset<EntryView> {
    left(d, s[0]).to_multiset().add(left(d, s[1]).to_multiset()).add(left(d, s[2]).to_multiset())
}

proof fn lemma_swap_left(d: Seq<u8>, s: Seq<BtreeNodeIterSet>, i: int, j: int)
    requires
        s.len() == 3,
        0 <= i < j < 3,
    ensures
        in_order_at(d, s, i, j).len() == 3,
        all_left(d, in_order_at(d, s, i, j)) =~= all_left(d, s),
{
}

/// Putting the sets in order loses no entry and makes none up.
pub proof fn lemma_sort_left(d: Seq<u8>, s: Seq<BtreeNodeIterSet>)
    requires
        s.len() == 3,
    ensures
        three_in_order(d, s).len() == 3,
        all_left(d, three_in_order(d, s)) == all_left(d, s),
{
    let a = in_order_at(d, s, 0, 1);
    let b = in_order_at(d, a, 0, 2);
    lemma_swap_left(d, s, 0, 1);
    lemma_swap_left(d, a, 0, 2);
    lemma_swap_left(d, b, 1, 2);
}

/// Going on by one entry leaves all entries but the current one.
pub proof fn lemma_advanced_left(iter: BtreeNodeIter, b: BtreeNode)
    requires
        iter.fits(b),
        left(b.data@, iter.data@[0]).len() > 0,
    ensures
        all_left(b.data@, advanced(iter, b)) == all_left(b.data@, iter.data@).remove(
            left(b.data@, iter.data@[0])[0],
        ),
        all_left(b.data@, iter.data@).contains(left(b.data@, iter.data@[0])[0]),
{
    broadcast use vstd::seq_lib::group_to_multiset_ensures;

    let d = b.data@;
    let s = iter.data@[0];
    lemma_left(d, s);
    let n = BtreeNodeIterSet { k: (s.k + d[s.k as int] * 8) as u32, end: s.end };
    let t = iter.data@.update(0, n);
    lemma_sort_left(d, t);
    let l = left(d, s);
    assert(l.skip(1) =~= l.remove(0));
    assert(l.to_multiset().contains(l[0])) by {
        assert(l.contains(l[0]));
    }
    assert(all_left(d, t) =~= all_left(d, iter.data@).remove(l[0]));
}

/// An iterator that passed the tombstones at its front stands at no tombstone, and
/// has all other entries still before it.
pub proof fn lemma_past_tombstones(
    iter: BtreeNodeIter,
    b: BtreeNode,
    new: BtreeNodeIter,
    n: nat,
    e: EntryView,
)
    requires
        iter.fits(b),
        past_tombstones(iter, b, new, n),
        e.key_type != KeyType::Deleted,
    ensures
        left(b.data@, new.data@[0]).len() > 0 ==> left(b.data@, new.data@[0])[0].key_type
            != KeyType::Deleted,
        all_left(b.data@, new.data@).count(e) == all_left(b.data@, iter.data@).count(e),
    decreases n,
{
    let s = iter.data@[0];
    lemma_left(b.data@, s);
    if s.k < s.end && left(b.data@, s)[0].key_type == KeyType::Deleted {
        let mid = choose|mid: BtreeNodeIter|
            #![trigger mid.fits(b)]
            mid.data@ == advanced(iter, b) && mid.fits(b) && past_tombstones(
                mid,
                b,
                new,
                (n - 1) as nat,
            );
        lemma_advanced_left(iter, b);
        lemma_past_tombstones(mid, b, new, (n - 1) as nat, e);
    }
}

/// What is left of a set that an iterator looks for a key in: all that come before
/// the key at its front are passed, and the next one does not.
pub proof fn lemma_leading(es: Seq<EntryView>, pos: BtreeKey)
    ensures
        0 <= leading_before(es, pos) <= es.len(),
        forall|j: int| 0 <= j < leading_before(es, pos) ==> (#[trigger] es[j]).key().lt(pos),
        leading_before(es, pos) < es.len() ==> !es[leading_before(es, pos)].key().lt(pos),
    decreases es.len(),
{
    if es.len() > 0 && es[0].key().lt(pos) {
        let f = es.skip(1);
        lemma_leading(f, pos);
        assert forall|j: int| 0 <= j < leading_before(es, pos) implies (#[trigger] es[j]).key().lt(
            pos,
        ) by {
            if j > 0 {
                assert(es[j] == f[j - 1]);
            }
        }
    }
}

// ── looks back, and moves that stay ─────────────────────────────────────

/// A look back gives what the overlay has newest at the position of the entry
/// before the current place, where the iterator has an overlay and is to look into
/// it, and that entry else; nothing where no entry lies before.
pub proof fn lemma_peek_prev<'a>(it: BtreeIter<'a>)
    ensures
        it.before().len() == 0 ==> it.spec_peek_prev() is None,
        it.before().len() > 0 ==> ({
            let e = it.before().last();
            let p = Bpos { inode: 0, offset: e.pos.offset, snapshot: e.pos.snapshot };
            &&& !it.flags.with_journal || it.overlay is None ==> it.spec_peek_prev() == Some(
                (e.key(), e.bch_val()),
            )
            &&& it.flags.with_journal ==> (it.overlay matches Some(o) ==> (match JournalKeys::last_key(
                o.keys@,
                it.btree_type,
                p,
            ) {
                Some(i) => it.spec_peek_prev() == Some(
                    (o.keys@[i].entry@.key(), o.keys@[i].entry@.bch_val()),
                ),
                None => it.spec_peek_prev() == Some((e.key(), e.bch_val())),
            }))
        }),
{
}

/// Passing the last entry of a leaf leaves what lies behind the leaf, and nothing
/// of the leaf; an iterator that stands further in front stays where it is.
pub proof fn lemma_passed<'a>(it: BtreeIter<'a>, new: BtreeIter<'a>)
    requires
        it.passed(new),
        it.in_leaf(),
        it.path@.last().view_node() matches Some(n) ==> n.all().len() < 65535,
    ensures
        new.in_leaf(),
        it.leaf_items().len() > 1 ==> new == it,
        it.leaf_items().len() <= 1 && it.path@.last().offset > 0 ==> new.leaf_items().len() == 0,
        new.path@.len() == it.path@.len(),
        forall|i: int|
            0 <= i < it.path@.len() ==> (#[trigger] new.path@[i]).node == it.path@[i].node
                && new.path@[i].child_idx == it.path@[i].child_idx,
        new.pos == it.pos,
{
}

/// Letting go of the locks of a path moves the iterator nowhere.
pub proof fn lemma_all_unlocked<'a>(it: BtreeIter<'a>, new: BtreeIter<'a>)
    requires
        it.all_unlocked(new),
    ensures
        forall|i: int|
            0 <= i < new.path@.len() ==> (#[trigger] new.path@[i]).lock_state
                == BtreeNodeLockedType::Unlocked,
        new.leaf_items() == it.leaf_items(),
        new.pos == it.pos,
        new.path@.len() == it.path@.len(),
        !new.had_restart,
{
    if it.path@.len() > 0 {
        let l = it.path@.len() - 1;
        assert(new.path@[l] == new.path@.last());
        assert(it.path@[l] == it.path@.last());
    }
}

/// A path below the root holds just if the range of its last node has the position.
pub proof fn lemma_path_holds<'a>(it: BtreeIter<'a>)
    requires
        it.path@.len() > 1,
    ensures
        it.path_holds() <==> (it.path@.last().node matches Some(n) && ({
            let p = Bpos { inode: 0, offset: it.pos.vaddr, snapshot: it.pos.snapshot_id };
            (n.min_key == p || n.min_key.lt(p)) && (p == n.max_key || p.lt(n.max_key))
        })),
{
    if let Some(n) = it.path@.last().node {
        let p = Bpos { inode: 0, offset: it.pos.vaddr, snapshot: it.pos.snapshot_id };
        crate::key::lemma_bpos_order(n.min_key, p, n.max_key);
        crate::key::lemma_bpos_order(p, n.max_key, n.min_key);
        crate::key::lemma_bpos_order(n.max_key, n.min_key, p);
        crate::key::lemma_bpos_order(n.min_key, n.max_key, p);
    }
}

/// A transaction that is told to start over knows why, and counts it; it is as
/// active as it was.
pub proof fn lemma_told(t: BtreeTrans, why: RestartReason)
    ensures
        t.told(why).restart == Some(why),
        t.restart_count < u32::MAX ==> t.told(why).restart_count == t.restart_count + 1,
        t.told(why).restart_count >= t.restart_count,
        t.told(why).active == t.active,
{
}

} // verus!
