//! How merges and the loss of a root change which node each key belongs to.

use crate::btree::Btree;
use crate::key::{BtreeKey, EntryView};
use crate::layout::{
    apart, at, cached_at, good_at, kept_at, laid, linked_at, nested_at, no_gap, slot_at, Layout,
};
use crate::node::BtreeNode;
use crate::reroute::replaces;
use crate::tidy::{
    covers, is_best, leaf_ok, lemma_pick, lemma_pick_is, lemma_settled_unique, pick, tidy,
};
use vstd::prelude::*;

verus! {

/// Whether the nodes for `kl` and `kr` are neighbours below one node, that for
/// `kl` on the left.
pub open spec fn neighbours(t: Btree, al: Layout, d: int, kl: BtreeKey, kr: BtreeKey) -> bool {
    let p = at(t, al, d - 1, kl);
    let yl = pick(p, kl);
    let yr = pick(p, kr);
    &&& 1 <= d <= t.root.depth
    &&& d == 1 || al.addr(d - 1, kl) == al.addr(d - 1, kr)
    &&& yl.key().lt(yr.key())
    &&& forall|e: EntryView| #[trigger]
        p.all().contains(e) ==> !(yl.key().lt(e.key()) && e.key().lt(yr.key()))
}

/// The layout after the nodes at `l` and `r` on level `d` became one at `sv`.
pub open spec fn joined(al: Layout, d: int, l: u64, r: u64, sv: u64) -> Layout {
    Layout {
        of: |i: int, k: BtreeKey|
            if i == d && (al.addr(i, k) == l || al.addr(i, k) == r) {
                sv
            } else {
                al.addr(i, k)
            },
    }
}

/// Whether `new` is `t` with `x` at `sv` in place of the nodes for `kl` and
/// `kr`, and `n` in place of the one above them.
pub open spec fn put_joined(
    t: Btree,
    new: Btree,
    al: Layout,
    d: int,
    kl: BtreeKey,
    kr: BtreeKey,
    sv: u64,
    x: BtreeNode,
    n: BtreeNode,
) -> bool {
    let m = t.nodes().remove(al.addr(d, kl)).remove(al.addr(d, kr)).insert(sv, x);
    &&& sv == al.addr(d, kl) || sv == al.addr(d, kr)
    &&& new.root.depth == t.root.depth
    &&& new.cache.next_addr == t.cache.next_addr
    &&& if d == 1 {
        new.root.node == n && new.nodes() == m
    } else {
        new.root.node == t.root.node && new.nodes() == m.insert(al.addr(d - 1, kl), n)
    }
}

/// What the parent of two merged nodes picks.
proof fn lemma_pick_over(
    p: BtreeNode,
    n: BtreeNode,
    yl: EntryView,
    yr: EntryView,
    e: EntryView,
    k: BtreeKey,
)
    requires
        tidy(p),
        tidy(n),
        replaces(p, n, yl, yr, e),
        p.all().contains(yl),
        p.all().contains(yr),
        e.key() == yl.key(),
        yl.key().lt(yr.key()),
        forall|z: EntryView| #[trigger]
            p.all().contains(z) ==> !(yl.key().lt(z.key()) && z.key().lt(yr.key())),
        covers(p, k),
    ensures
        covers(n, k),
        pick(n, k) == (if pick(p, k) == yl || pick(p, k) == yr {
            e
        } else {
            pick(p, k)
        }),
{
    lemma_pick(p, k);
    let y = pick(p, k);
    if y == yl || y == yr {
        assert forall|z: EntryView| #[trigger] n.all().contains(z) && !k.lt(z.key()) implies !e.key().lt(
            z.key(),
        ) by {
            if z != e {
                assert(p.all().contains(z));
                assert(!y.key().lt(z.key()));
                if z.key().same_slot(yr.key()) {
                    lemma_settled_unique(p.all(), z, yr);
                }
            }
        }
        assert(is_best(n.all(), k, e));
        lemma_pick_is(n, k, e);
    } else {
        assert forall|z: EntryView| #[trigger] n.all().contains(z) && !k.lt(z.key()) implies !y.key().lt(
            z.key(),
        ) by {
            if z == e {
                assert(!k.lt(yl.key()));
            }
        }
        assert(is_best(n.all(), k, y));
        lemma_pick_is(n, k, y);
    }
}

/// Keys of the left one of two neighbours come before keys of the right one.
proof fn lemma_sides(
    t: Btree,
    al: Layout,
    d: int,
    kl: BtreeKey,
    kr: BtreeKey,
    k1: BtreeKey,
    k2: BtreeKey,
)
    requires
        laid(t, al, no_gap()),
        neighbours(t, al, d, kl, kr),
        al.addr(d, k1) == al.addr(d, kl),
        al.addr(d, k2) == al.addr(d, kr),
    ensures
        k1.lt(k2),
{
    assert(nested_at(t, al, no_gap(), d, k1, kl));
    assert(nested_at(t, al, no_gap(), d, k2, kr));
    let p = at(t, al, d - 1, kl);
    assert(at(t, al, d - 1, k1) == p && at(t, al, d - 1, k2) == p);
    assert(good_at(t, al, d - 1, k1) && good_at(t, al, d - 1, k2));
    lemma_pick(p, k1);
    lemma_pick(p, k2);
}

/// Two neighbours are two nodes.
proof fn lemma_two_nodes(t: Btree, al: Layout, d: int, kl: BtreeKey, kr: BtreeKey)
    requires
        laid(t, al, no_gap()),
        neighbours(t, al, d, kl, kr),
    ensures
        al.addr(d, kl) != al.addr(d, kr),
        at(t, al, d - 1, kr) == at(t, al, d - 1, kl),
{
    if al.addr(d, kl) == al.addr(d, kr) {
        lemma_sides(t, al, d, kl, kr, kl, kl);
    }
}

/// What the node that two neighbours above the leaves became picks.
proof fn lemma_pick_joined(
    t: Btree,
    al: Layout,
    d: int,
    kl: BtreeKey,
    kr: BtreeKey,
    x: BtreeNode,
    k: BtreeKey,
)
    requires
        laid(t, al, no_gap()),
        neighbours(t, al, d, kl, kr),
        d < t.root.depth,
        tidy(x),
        forall|e: EntryView| #[trigger]
            x.all().contains(e) <==> at(t, al, d, kl).all().contains(e) || at(
                t,
                al,
                d,
                kr,
            ).all().contains(e),
        al.addr(d, k) == al.addr(d, kl) || al.addr(d, k) == al.addr(d, kr),
    ensures
        covers(x, k),
        pick(x, k) == pick(at(t, al, d, k), k),
{
    let n = at(t, al, d, k);
    assert(good_at(t, al, d, k));
    lemma_pick(n, k);
    let y = pick(n, k);
    assert(kept_at(t, al, d, kl) && kept_at(t, al, d, kr));
    assert(x.all().contains(y));
    assert forall|z: EntryView| #[trigger] x.all().contains(z) && !k.lt(z.key()) implies !y.key().lt(
        z.key(),
    ) by {
        if !n.all().contains(z) {
            if al.addr(d, k) == al.addr(d, kl) {
                lemma_sides(t, al, d, kl, kr, k, z.key());
            } else {
                lemma_sides(t, al, d, kl, kr, z.key(), y.key());
            }
        }
    }
    assert(is_best(x.all(), k, y));
    lemma_pick_is(x, k, y);
}

/// The nodes after two became one.
proof fn lemma_put_joined(
    t: Btree,
    new: Btree,
    al: Layout,
    d: int,
    kl: BtreeKey,
    kr: BtreeKey,
    sv: u64,
    x: BtreeNode,
    n: BtreeNode,
    i: int,
    k: BtreeKey,
)
    requires
        laid(t, al, no_gap()),
        neighbours(t, al, d, kl, kr),
        put_joined(t, new, al, d, kl, kr, sv, x, n),
        0 <= i <= t.root.depth,
    ensures
        at(new, joined(al, d, al.addr(d, kl), al.addr(d, kr), sv), i, k) == (if i == d - 1 && (i == 0 || al.addr(
            i,
            k,
        ) == al.addr(i, kl)) {
            n
        } else if i == d && (al.addr(d, k) == al.addr(d, kl) || al.addr(d, k) == al.addr(d, kr)) {
            x
        } else {
            at(t, al, i, k)
        }),
        i > 0 ==> new.nodes().contains_key(joined(al, d, al.addr(d, kl), al.addr(d, kr), sv).addr(i, k)),
{
    if i >= 1 {
        assert(cached_at(t, al, i, k));
        if i < d {
            assert(al.addr(i, k) != al.addr(d, kl) && al.addr(i, k) != al.addr(d, kr));
            if d > 1 && i < d - 1 {
                assert(al.addr(i, k) != al.addr(d - 1, kl));
            }
        } else if i > d {
            assert(al.addr(d, kl) != al.addr(i, k) && al.addr(d, kr) != al.addr(i, k));
            if d > 1 {
                assert(al.addr(d - 1, kl) != al.addr(i, k));
            }
        } else if d > 1 {
            assert(al.addr(d - 1, kl) != al.addr(d, k));
            assert(al.addr(d - 1, kl) != al.addr(d, kl) && al.addr(d - 1, kl) != al.addr(d, kr));
        }
    }
}

/// Whether `x` can stand for two neighbours, with `n` as the node above and `e`
/// as its routing entry in it.
pub open spec fn join_ok(
    t: Btree,
    new: Btree,
    al: Layout,
    d: int,
    kl: BtreeKey,
    kr: BtreeKey,
    sv: u64,
    x: BtreeNode,
    n: BtreeNode,
    e: EntryView,
) -> bool {
    let p = at(t, al, d - 1, kl);
    let nl = at(t, al, d, kl);
    let nr = at(t, al, d, kr);
    &&& laid(t, al, no_gap())
    &&& neighbours(t, al, d, kl, kr)
    &&& put_joined(t, new, al, d, kl, kr, sv, x, n)
    &&& tidy(n)
    &&& replaces(p, n, pick(p, kl), pick(p, kr), e)
    &&& e.key() == pick(p, kl).key()
    &&& e.bch_val().paddr.addr == sv
    &&& forall|z: EntryView| #[trigger]
        x.all().contains(z) ==> nl.all().contains(z) || nr.all().contains(z)
    &&& if d < t.root.depth {
        tidy(x) && forall|z: EntryView|
            nl.all().contains(z) || nr.all().contains(z) ==> #[trigger] x.all().contains(z)
    } else {
        leaf_ok(x)
    }
}

/// The nodes are good after two became one.
proof fn lemma_join_good(
    t: Btree,
    new: Btree,
    al: Layout,
    d: int,
    kl: BtreeKey,
    kr: BtreeKey,
    sv: u64,
    x: BtreeNode,
    n: BtreeNode,
    e: EntryView,
    i: int,
    k: BtreeKey,
)
    requires
        join_ok(t, new, al, d, kl, kr, sv, x, n, e),
        0 <= i <= t.root.depth,
    ensures
        good_at(new, joined(al, d, al.addr(d, kl), al.addr(d, kr), sv), i, k),
{
    let p = at(t, al, d - 1, kl);
    assert(good_at(t, al, i, k));
    lemma_two_nodes(t, al, d, kl, kr);
    lemma_put_joined(t, new, al, d, kl, kr, sv, x, n, i, k);
    if i == d - 1 && (i == 0 || al.addr(i, k) == al.addr(i, kl)) {
        assert(at(t, al, i, k) == p);
        assert(good_at(t, al, d - 1, kl) && good_at(t, al, d - 1, kr));
        lemma_pick(p, kl);
        lemma_pick(p, kr);
        lemma_pick_over(p, n, pick(p, kl), pick(p, kr), e, k);
    } else if i == d && i < t.root.depth && (al.addr(d, k) == al.addr(d, kl) || al.addr(d, k) == al.addr(d, kr)) {
        lemma_pick_joined(t, al, d, kl, kr, x, k);
    }
}

/// Keys belong to their nodes after two became one.
proof fn lemma_join_kept(
    t: Btree,
    new: Btree,
    al: Layout,
    d: int,
    kl: BtreeKey,
    kr: BtreeKey,
    sv: u64,
    x: BtreeNode,
    n: BtreeNode,
    e: EntryView,
    i: int,
    k: BtreeKey,
)
    requires
        join_ok(t, new, al, d, kl, kr, sv, x, n, e),
        1 <= i <= t.root.depth,
    ensures
        kept_at(new, joined(al, d, al.addr(d, kl), al.addr(d, kr), sv), i, k),
{
    let p = at(t, al, d - 1, kl);
    assert(kept_at(t, al, i, k));
    assert(kept_at(t, al, d, kl) && kept_at(t, al, d, kr));
    lemma_put_joined(t, new, al, d, kl, kr, sv, x, n, i, k);
    if i == d - 1 && al.addr(i, k) == al.addr(i, kl) {
        assert(at(t, al, i, k) == p);
        assert(good_at(t, al, d - 1, kl));
        lemma_pick(p, kl);
        assert(al.addr(i, pick(p, kl).key()) == al.addr(i, k));
    }
}

/// Keys of one node come by one routing entry after two became one.
proof fn lemma_join_nested(
    t: Btree,
    new: Btree,
    al: Layout,
    d: int,
    kl: BtreeKey,
    kr: BtreeKey,
    sv: u64,
    x: BtreeNode,
    n: BtreeNode,
    e: EntryView,
    i: int,
    k: BtreeKey,
    k2: BtreeKey,
)
    requires
        join_ok(t, new, al, d, kl, kr, sv, x, n, e),
        1 <= i <= t.root.depth,
    ensures
        nested_at(new, joined(al, d, al.addr(d, kl), al.addr(d, kr), sv), no_gap(), i, k, k2),
{
    let al2 = joined(al, d, al.addr(d, kl), al.addr(d, kr), sv);
    if al2.addr(i, k) == al2.addr(i, k2) {
        lemma_put_joined(t, new, al, d, kl, kr, sv, x, n, i - 1, k);
        lemma_put_joined(t, new, al, d, kl, kr, sv, x, n, i - 1, k2);
        assert(nested_at(t, al, no_gap(), i, k, k2));
        if i == d {
            lemma_nested_joined(t, al, d, kl, kr, n, e, k, sv);
            lemma_nested_joined(t, al, d, kl, kr, n, e, k2, sv);
        } else if i == d + 1 {
            if al.addr(d, k) == al.addr(d, kl) || al.addr(d, k) == al.addr(d, kr) {
                lemma_pick_joined(t, al, d, kl, kr, x, k);
                lemma_pick_joined(t, al, d, kl, kr, x, k2);
            }
        }
    }
}

/// Keys are routed to their nodes after two became one.
proof fn lemma_join_linked(
    t: Btree,
    new: Btree,
    al: Layout,
    d: int,
    kl: BtreeKey,
    kr: BtreeKey,
    sv: u64,
    x: BtreeNode,
    n: BtreeNode,
    e: EntryView,
    i: int,
    k: BtreeKey,
)
    requires
        join_ok(t, new, al, d, kl, kr, sv, x, n, e),
        1 <= i <= t.root.depth,
    ensures
        linked_at(new, joined(al, d, al.addr(d, kl), al.addr(d, kr), sv), no_gap(), i, k),
{
    assert(linked_at(t, al, no_gap(), i, k));
    lemma_put_joined(t, new, al, d, kl, kr, sv, x, n, i - 1, k);
    if i == d {
        lemma_nested_joined(t, al, d, kl, kr, n, e, k, sv);
    } else if i == d + 1 && (al.addr(d, k) == al.addr(d, kl) || al.addr(d, k) == al.addr(d, kr)) {
        lemma_pick_joined(t, al, d, kl, kr, x, k);
    }
}

/// Levels stay apart after two nodes became one.
proof fn lemma_join_apart(
    t: Btree,
    new: Btree,
    al: Layout,
    d: int,
    kl: BtreeKey,
    kr: BtreeKey,
    sv: u64,
    x: BtreeNode,
    n: BtreeNode,
    e: EntryView,
)
    requires
        join_ok(t, new, al, d, kl, kr, sv, x, n, e),
    ensures
        apart(new, joined(al, d, al.addr(d, kl), al.addr(d, kr), sv)),
{
    let al2 = joined(al, d, al.addr(d, kl), al.addr(d, kr), sv);
    assert forall|i: int, k: BtreeKey, i2: int, k2: BtreeKey|
        1 <= i < i2 <= t.root.depth implies (#[trigger] al2.addr(i, k)) != #[trigger] al2.addr(i2, k2) by {
        assert(al.addr(i, k) != al.addr(i2, k2));
        if i == d {
            assert(al.addr(d, kl) != al.addr(i2, k2) && al.addr(d, kr) != al.addr(i2, k2));
        }
        if i2 == d {
            assert(al.addr(i, k) != al.addr(d, kl) && al.addr(i, k) != al.addr(d, kr));
        }
    }
}

/// Two neighbours that became one: every key is still led to where its entry is.
#[verifier::rlimit(40)]
pub proof fn lemma_merge_layout(
    t: Btree,
    new: Btree,
    al: Layout,
    d: int,
    kl: BtreeKey,
    kr: BtreeKey,
    sv: u64,
    x: BtreeNode,
    n: BtreeNode,
    e: EntryView,
)
    requires
        join_ok(t, new, al, d, kl, kr, sv, x, n, e),
    ensures
        laid(new, joined(al, d, al.addr(d, kl), al.addr(d, kr), sv), no_gap()),
        forall|k: BtreeKey| #[trigger]
            at(new, joined(al, d, al.addr(d, kl), al.addr(d, kr), sv), t.root.depth as int, k) == (if d
                == t.root.depth && (al.addr(d, k) == al.addr(d, kl) || al.addr(d, k) == al.addr(d, kr)) {
                x
            } else {
                at(t, al, t.root.depth as int, k)
            }),
{
    let al2 = joined(al, d, al.addr(d, kl), al.addr(d, kr), sv);
    let h = no_gap();
    let dd = t.root.depth as int;
    assert(new.root.depth == dd);
    assert(cached_at(t, al, d, kl) && cached_at(t, al, d, kr));
    assert forall|i: int, k: BtreeKey| 1 <= i <= dd implies #[trigger] cached_at(new, al2, i, k) by {
        assert(cached_at(t, al, i, k));
        lemma_put_joined(t, new, al, d, kl, kr, sv, x, n, i, k);
    }
    assert forall|i: int, k: BtreeKey| 0 <= i <= dd implies #[trigger] good_at(new, al2, i, k) by {
        lemma_join_good(t, new, al, d, kl, kr, sv, x, n, e, i, k);
    }
    assert forall|i: int, k: BtreeKey| 1 <= i <= dd implies #[trigger] kept_at(new, al2, i, k) by {
        lemma_join_kept(t, new, al, d, kl, kr, sv, x, n, e, i, k);
    }
    assert forall|i: int, k: BtreeKey, k2: BtreeKey| 1 <= i <= dd implies #[trigger] nested_at(
        new,
        al2,
        h,
        i,
        k,
        k2,
    ) by {
        lemma_join_nested(t, new, al, d, kl, kr, sv, x, n, e, i, k, k2);
    }
    assert forall|i: int, k: BtreeKey| 1 <= i <= dd implies #[trigger] linked_at(new, al2, h, i, k) by {
        lemma_join_linked(t, new, al, d, kl, kr, sv, x, n, e, i, k);
    }
    assert forall|i: int, k: BtreeKey, k2: BtreeKey| 1 <= i <= dd implies #[trigger] slot_at(
        al2,
        i,
        k,
        k2,
    ) by {
        assert(slot_at(al, i, k, k2));
    }
    lemma_join_apart(t, new, al, d, kl, kr, sv, x, n, e);
    assert forall|k: BtreeKey| #[trigger] at(new, al2, dd, k) == (if d == dd && (al.addr(d, k) == al.addr(
        d,
        kl,
    ) || al.addr(d, k) == al.addr(d, kr)) {
        x
    } else {
        at(t, al, dd, k)
    }) by {
        lemma_put_joined(t, new, al, d, kl, kr, sv, x, n, dd, k);
    }
}

/// How keys come to the level on which two neighbours became one.
proof fn lemma_nested_joined(
    t: Btree,
    al: Layout,
    d: int,
    kl: BtreeKey,
    kr: BtreeKey,
    n: BtreeNode,
    e: EntryView,
    k: BtreeKey,
    sv: u64,
)
    requires
        laid(t, al, no_gap()),
        neighbours(t, al, d, kl, kr),
        tidy(n),
        ({
            let p = at(t, al, d - 1, kl);
            replaces(p, n, pick(p, kl), pick(p, kr), e) && e.key() == pick(p, kl).key()
        }),
        e.bch_val().paddr.addr == sv,
    ensures
        al.addr(d, k) == al.addr(d, kl) || al.addr(d, k) == al.addr(d, kr) ==> (d == 1 || al.addr(d - 1, k) == al.addr(d - 1, kl))
            && pick(n, k) == e,
        al.addr(d, k) != al.addr(d, kl) && al.addr(d, k) != al.addr(d, kr) && (d == 1 || al.addr(d - 1, k) == al.addr(d - 1, kl))
            ==> pick(n, k) == pick(at(t, al, d - 1, k), k),
{
    let p = at(t, al, d - 1, kl);
    let h = no_gap();
    lemma_two_nodes(t, al, d, kl, kr);
    assert(good_at(t, al, d - 1, kl) && good_at(t, al, d - 1, kr) && good_at(t, al, d - 1, k));
    lemma_pick(p, kl);
    lemma_pick(p, kr);
    assert(nested_at(t, al, h, d, k, kl) && nested_at(t, al, h, d, k, kr));
    assert(linked_at(t, al, h, d, k) && linked_at(t, al, h, d, kl) && linked_at(t, al, h, d, kr));
    if d == 1 || al.addr(d - 1, k) == al.addr(d - 1, kl) {
        assert(at(t, al, d - 1, k) == p);
        lemma_pick_over(p, n, pick(p, kl), pick(p, kr), e, k);
    }
}

/// The layout after the child of a root became the root.
pub open spec fn lowered(al: Layout) -> Layout {
    Layout { of: |i: int, k: BtreeKey| al.addr(i + 1, k) }
}

/// A root with one child can give way to it.
pub proof fn lemma_collapse_layout(t: Btree, new: Btree, al: Layout, child: u64)
    requires
        laid(t, al, no_gap()),
        t.root.depth > 0,
        forall|k: BtreeKey| #[trigger] al.addr(1, k) == child,
        new.root.node == t.nodes()[child],
        new.root.depth == t.root.depth - 1,
        new.nodes() == t.nodes().remove(child),
        new.cache.next_addr == t.cache.next_addr,
    ensures
        laid(new, lowered(al), no_gap()),
        forall|k: BtreeKey| #[trigger]
            at(new, lowered(al), new.root.depth as int, k) == at(t, al, t.root.depth as int, k),
{
    let al2 = lowered(al);
    let h = no_gap();
    let dd = new.root.depth as int;
    assert forall|i: int, k: BtreeKey| 0 <= i <= dd implies #[trigger] at(new, al2, i, k) == at(
        t,
        al,
        i + 1,
        k,
    ) && (i > 0 ==> al.addr(i + 1, k) != child) by {
        assert(al.addr(1, k) == child);
        if i > 0 {
            assert(al.addr(1, k) != al.addr(i + 1, k));
        }
    }
    assert forall|i: int, k: BtreeKey| 1 <= i <= dd implies #[trigger] cached_at(new, al2, i, k) by {
        assert(cached_at(t, al, i + 1, k));
        assert(at(new, al2, i, k) == at(t, al, i + 1, k));
    }
    assert forall|i: int, k: BtreeKey| 0 <= i <= dd implies #[trigger] good_at(new, al2, i, k) by {
        assert(good_at(t, al, i + 1, k));
        assert(at(new, al2, i, k) == at(t, al, i + 1, k));
    }
    assert forall|i: int, k: BtreeKey| 1 <= i <= dd implies #[trigger] kept_at(new, al2, i, k) by {
        assert(kept_at(t, al, i + 1, k));
        assert(at(new, al2, i, k) == at(t, al, i + 1, k));
    }
    assert forall|i: int, k: BtreeKey, k2: BtreeKey| 1 <= i <= dd implies #[trigger] nested_at(
        new,
        al2,
        h,
        i,
        k,
        k2,
    ) by {
        assert(nested_at(t, al, h, i + 1, k, k2));
        assert(at(new, al2, i - 1, k) == at(t, al, i, k));
        assert(at(new, al2, i - 1, k2) == at(t, al, i, k2));
    }
    assert forall|i: int, k: BtreeKey| 1 <= i <= dd implies #[trigger] linked_at(new, al2, h, i, k) by {
        assert(linked_at(t, al, h, i + 1, k));
        assert(at(new, al2, i - 1, k) == at(t, al, i, k));
    }
    assert forall|i: int, k: BtreeKey, k2: BtreeKey| 1 <= i <= dd implies #[trigger] slot_at(
        al2,
        i,
        k,
        k2,
    ) by {
        assert(slot_at(al, i + 1, k, k2));
    }
    assert(apart(new, al2)) by {
        assert forall|i: int, k: BtreeKey, i2: int, k2: BtreeKey| 1 <= i < i2 <= dd implies (
        #[trigger] al2.addr(i, k)) != #[trigger] al2.addr(i2, k2) by {
            assert(al.addr(i + 1, k) != al.addr(i2 + 1, k2));
        }
    }
    assert forall|k: BtreeKey| #[trigger] at(new, al2, dd, k) == at(t, al, t.root.depth as int, k) by {
        assert(at(new, al2, dd, k) == at(t, al, dd + 1, k));
    }
}

} // verus!
