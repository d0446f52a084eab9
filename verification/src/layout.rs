//! Which node each key belongs to on each level of a tree, and how splits
//! change that.

use crate::btree::Btree;
use crate::key::{ADDR48_LIMIT, BtreeKey, EntryView, KeyType};
use crate::laws_split::lemma_routing_reads;
use crate::node::BtreeNode;
use crate::route::route;
use crate::tidy::{
    adds, covers, half_of, is_best, leaf_ok, lemma_pick, lemma_pick_among, lemma_pick_in_half,
    lemma_pick_is, lemma_picked, parted, pick, picked, shared_by, tidy, unused,
};
use crate::tree_insert::routing;
use crate::walk::{descent_addr, descent_node};
use vstd::prelude::*;

verus! {

/// The address of the node that a key belongs to on a level, counted from 1
/// below the root.
pub ghost struct Layout {
    pub of: spec_fn(int, BtreeKey) -> u64,
}

impl Layout {
    /// The address of the node that `k` belongs to on level `i`.
    pub open spec fn addr(self, i: int, k: BtreeKey) -> u64 {
        (self.of)(i, k)
    }
}

/// A node that was split on level `level`: keys from `from` on moved from
/// `left` to `right`, to which the level above does not route yet. Level 0
/// stands for no such node.
pub ghost struct Gap {
    pub level: int,
    pub left: u64,
    pub from: BtreeKey,
    pub right: u64,
}

/// No node that is not routed to.
pub open spec fn no_gap() -> Gap {
    Gap { level: 0, left: 0, from: BtreeKey::spec_min_key(), right: 0 }
}

/// The node that `k` belongs to on a level.
pub open spec fn at(t: Btree, al: Layout, i: int, k: BtreeKey) -> BtreeNode {
    if i <= 0 {
        t.root.node
    } else {
        t.nodes()[al.addr(i, k)]
    }
}

/// The address that the level above routes to for a node.
pub open spec fn back(g: Gap, i: int, a: u64) -> u64 {
    if i == g.level && a == g.right {
        g.left
    } else {
        a
    }
}

/// Whether the node for `k` is cached under an address that was given out.
pub open spec fn cached_at(t: Btree, al: Layout, i: int, k: BtreeKey) -> bool {
    t.nodes().contains_key(al.addr(i, k)) && al.addr(i, k) < t.cache.next_addr
}

/// Whether the node for `k` is tidy and routes `k` above the leaves, and holds
/// extents and tombstones as a leaf.
pub open spec fn good_at(t: Btree, al: Layout, i: int, k: BtreeKey) -> bool {
    if i < t.root.depth {
        tidy(at(t, al, i, k)) && covers(at(t, al, i, k), k)
    } else {
        leaf_ok(at(t, al, i, k))
    }
}

/// Whether two keys in one slot belong to one node.
pub open spec fn slot_at(al: Layout, i: int, k: BtreeKey, k2: BtreeKey) -> bool {
    k.same_slot(k2) ==> al.addr(i, k) == al.addr(i, k2)
}

/// Whether the keys of the node for `k` belong to it.
pub open spec fn kept_at(t: Btree, al: Layout, i: int, k: BtreeKey) -> bool {
    forall|e: EntryView| #[trigger]
        at(t, al, i, k).all().contains(e) ==> al.addr(i, e.key()) == al.addr(i, k)
}

/// Whether two keys that belong to one node come to it by one routing entry.
pub open spec fn nested_at(t: Btree, al: Layout, g: Gap, i: int, k: BtreeKey, k2: BtreeKey) -> bool {
    back(g, i, al.addr(i, k)) == back(g, i, al.addr(i, k2)) ==> {
        &&& i > 1 ==> al.addr(i - 1, k) == al.addr(i - 1, k2)
        &&& pick(at(t, al, i - 1, k), k) == pick(at(t, al, i - 1, k2), k2)
    }
}

/// Whether the level above routes `k` to its node.
pub open spec fn linked_at(t: Btree, al: Layout, g: Gap, i: int, k: BtreeKey) -> bool {
    pick(at(t, al, i - 1, k), k).bch_val().paddr.addr == back(g, i, al.addr(i, k))
}

/// Whether nodes on different levels have different addresses.
pub open spec fn apart(t: Btree, al: Layout) -> bool {
    forall|i: int, k: BtreeKey, i2: int, k2: BtreeKey|
        1 <= i < i2 <= t.root.depth ==> #[trigger] al.addr(i, k) != #[trigger] al.addr(i2, k2)
}

/// Whether the keys of the two nodes at a gap part at its key, which has a slot
/// of its own in the node above.
pub open spec fn gap_ok(t: Btree, al: Layout, g: Gap) -> bool {
    g.level == 0 || {
        &&& 1 <= g.level <= t.root.depth
        &&& g.left != g.right
        &&& g.right < ADDR48_LIMIT
        &&& g.from.key_type != KeyType::Deleted
        &&& al.addr(g.level, g.from) == g.right
        &&& forall|k: BtreeKey| #[trigger]
            back(g, g.level, al.addr(g.level, k)) == g.left ==> (al.addr(g.level, k) == g.right <==> !k.lt(
                g.from,
            ))
        &&& unused(at(t, al, g.level - 1, g.from).all(), g.from)
    }
}

/// Whether every key belongs to the nodes that `al` says, with `g` left to be
/// routed to.
pub open spec fn laid(t: Btree, al: Layout, g: Gap) -> bool {
    &&& forall|i: int, k: BtreeKey| 1 <= i <= t.root.depth ==> #[trigger] cached_at(t, al, i, k)
    &&& forall|i: int, k: BtreeKey| 0 <= i <= t.root.depth ==> #[trigger] good_at(t, al, i, k)
    &&& forall|i: int, k: BtreeKey| 1 <= i <= t.root.depth ==> #[trigger] kept_at(t, al, i, k)
    &&& forall|i: int, k: BtreeKey, k2: BtreeKey|
        1 <= i <= t.root.depth ==> #[trigger] nested_at(t, al, g, i, k, k2)
    &&& forall|i: int, k: BtreeKey| 1 <= i <= t.root.depth ==> #[trigger] linked_at(t, al, g, i, k)
    &&& forall|i: int, k: BtreeKey, k2: BtreeKey|
        1 <= i <= t.root.depth ==> #[trigger] slot_at(al, i, k, k2)
    &&& apart(t, al)
    &&& gap_ok(t, al, g)
}

/// Whether the nodes of the levels above `j` have 128 bytes or more.
pub open spec fn roomy(t: Btree, al: Layout, j: int) -> bool {
    forall|i: int, k: BtreeKey| 0 <= i < j ==> #[trigger] roomy_at(t, al, i, k)
}

/// Whether the node for `k` on a level has 128 bytes or more.
pub open spec fn roomy_at(t: Btree, al: Layout, i: int, k: BtreeKey) -> bool {
    at(t, al, i, k).node_size >= 128
}

/// Whether all nodes have 128 bytes or more.
pub open spec fn all_roomy(t: Btree, al: Layout) -> bool {
    roomy(t, al, t.root.depth + 1)
}

/// Without a gap a descent for a key comes by the nodes that it belongs to.
pub proof fn lemma_descent(t: Btree, al: Layout, k: BtreeKey, i: int)
    requires
        laid(t, al, no_gap()),
        0 <= i <= t.root.depth,
    ensures
        descent_node(t.nodes(), t.root.node, k, i) == Some(at(t, al, i, k)),
        i > 0 ==> descent_addr(t.nodes(), t.root.node, k, i) == al.addr(i, k),
    decreases i,
{
    if i > 0 {
        lemma_descent(t, al, k, i - 1);
        let n = at(t, al, i - 1, k);
        assert(good_at(t, al, i - 1, k));
        assert(linked_at(t, al, no_gap(), i, k));
        assert(cached_at(t, al, i, k));
        lemma_pick_route(n, k);
    }
}

/// A node routes a key by the entry that it picks.
proof fn lemma_pick_route(n: BtreeNode, k: BtreeKey)
    requires
        tidy(n),
        covers(n, k),
    ensures
        route(Some(n), k).0 == pick(n, k).bch_val().paddr.addr,
{
    lemma_pick(n, k);
    let es = crate::route::extents(n.all());
    crate::route::lemma_best_range(es, k);
    let i = crate::route::routing_index(es, k);
    assert(es[i] == crate::node_read::as_extent(n.all()[i]));
    assert(n.all().len() > 0);
}

/// The keys that a gap moves are those for which the node above will pick the
/// new routing entry.
proof fn lemma_gap_picks(t: Btree, al: Layout, g: Gap, k: BtreeKey)
    requires
        laid(t, al, g),
        g.level >= 1,
        g.level == 1 || al.addr(g.level - 1, k) == al.addr(g.level - 1, g.from),
    ensures
        ({
            let p = at(t, al, g.level - 1, g.from);
            let x = routing(g.from, g.right);
            &&& picked(p, x, k) == (if al.addr(g.level, k) == g.right {
                x
            } else {
                pick(p, k)
            })
            &&& picked(p, x, k).bch_val().paddr.addr == al.addr(g.level, k)
            &&& x.key() == g.from
            &&& covers(p, g.from)
            &&& covers(p, k)
            &&& settled_at(p)
        }),
{
    let j = g.level;
    let p = at(t, al, j - 1, g.from);
    let x = routing(g.from, g.right);
    lemma_routing_reads(g.from, g.right);
    assert(x.key() == g.from);
    assert(at(t, al, j - 1, k) == p);
    assert(good_at(t, al, j - 1, g.from) && good_at(t, al, j - 1, k));
    assert(linked_at(t, al, g, j, k));
    assert(linked_at(t, al, g, j, g.from));
    assert(nested_at(t, al, g, j, k, g.from));
    assert(back(g, j, al.addr(j, k)) == g.left ==> (al.addr(j, k) == g.right <==> !k.lt(g.from)));
}

/// Whether the entries of a node have a slot each.
pub open spec fn settled_at(n: BtreeNode) -> bool {
    crate::laws_split::settled(n.all())
}

/// Where `n` stands for the node above the gap of `t`.
pub open spec fn put_above(t: Btree, new: Btree, al: Layout, g: Gap, n: BtreeNode) -> bool {
    &&& new.root.depth == t.root.depth
    &&& new.cache.next_addr == t.cache.next_addr
    &&& if g.level == 1 {
        new.root.node == n && new.nodes() == t.nodes()
    } else {
        new.root.node == t.root.node && new.nodes() == t.nodes().insert(
            al.addr(g.level - 1, g.from),
            n,
        )
    }
}

/// The nodes after one above a gap was replaced.
proof fn lemma_put_above(t: Btree, new: Btree, al: Layout, g: Gap, n: BtreeNode, i: int, k: BtreeKey)
    requires
        laid(t, al, g),
        g.level >= 1,
        put_above(t, new, al, g, n),
        0 <= i <= t.root.depth,
    ensures
        at(new, al, i, k) == (if i == g.level - 1 && (i == 0 || al.addr(i, k) == al.addr(i, g.from)) {
            n
        } else {
            at(t, al, i, k)
        }),
{
    let j = g.level;
    if i >= 1 && j > 1 && i != j - 1 {
        if i < j - 1 {
            assert(al.addr(i, k) != al.addr(j - 1, g.from));
        } else {
            assert(al.addr(j - 1, g.from) != al.addr(i, k));
        }
    }
}

/// A gap is closed by adding the routing entry for it to the node above.
#[verifier::rlimit(40)]
pub proof fn lemma_close(t: Btree, new: Btree, al: Layout, g: Gap, n: BtreeNode)
    requires
        laid(t, al, g),
        g.level >= 1,
        put_above(t, new, al, g, n),
        tidy(n),
        adds(at(t, al, g.level - 1, g.from).all(), n.all(), routing(g.from, g.right)),
    ensures
        laid(new, al, no_gap()),
        forall|k: BtreeKey| #[trigger]
            at(new, al, t.root.depth as int, k) == at(t, al, t.root.depth as int, k),
        all_roomy(t, al) && n.node_size >= 128 ==> all_roomy(new, al),
{
    let j = g.level;
    let d = t.root.depth as int;
    let p = at(t, al, j - 1, g.from);
    let x = routing(g.from, g.right);
    let h = no_gap();
    assert forall|i: int, k: BtreeKey| 1 <= i <= d implies #[trigger] cached_at(new, al, i, k) by {
        assert(cached_at(t, al, i, k));
    }
    assert forall|k: BtreeKey|
        (j == 1 || al.addr(j - 1, k) == al.addr(j - 1, g.from)) implies #[trigger] covers(n, k) && pick(n, k)
        == picked(p, x, k) by {
        lemma_gap_picks(t, al, g, k);
        lemma_picked(p, x, k);
        lemma_pick_among(p, n, x, k);
    }
    assert forall|i: int, k: BtreeKey| 0 <= i <= d implies #[trigger] good_at(new, al, i, k) by {
        assert(good_at(t, al, i, k));
        lemma_put_above(t, new, al, g, n, i, k);
        if i == j - 1 && (i == 0 || al.addr(i, k) == al.addr(i, g.from)) {
            assert(covers(n, k));
        }
    }
    assert forall|i: int, k: BtreeKey| 1 <= i <= d implies #[trigger] kept_at(new, al, i, k) by {
        assert(kept_at(t, al, i, k));
        lemma_put_above(t, new, al, g, n, i, k);
        if i == j - 1 && al.addr(i, k) == al.addr(i, g.from) {
            lemma_routing_reads(g.from, g.right);
            assert(p == at(t, al, i, k));
        }
    }
    assert forall|i: int, k: BtreeKey, k2: BtreeKey| 1 <= i <= d implies #[trigger] nested_at(
        new,
        al,
        h,
        i,
        k,
        k2,
    ) by {
        assert(nested_at(t, al, g, i, k, k2));
        lemma_put_above(t, new, al, g, n, i - 1, k);
        lemma_put_above(t, new, al, g, n, i - 1, k2);
        if al.addr(i, k) == al.addr(i, k2) && i == j && (j == 1 || al.addr(j - 1, k) == al.addr(j - 1, g.from)) {
            lemma_gap_picks(t, al, g, k);
            lemma_gap_picks(t, al, g, k2);
            assert(covers(n, k) && covers(n, k2));
        }
    }
    assert forall|i: int, k: BtreeKey| 1 <= i <= d implies #[trigger] linked_at(new, al, h, i, k) by {
        assert(linked_at(t, al, g, i, k));
        lemma_put_above(t, new, al, g, n, i - 1, k);
        if i == j {
            if j == 1 || al.addr(j - 1, k) == al.addr(j - 1, g.from) {
                lemma_gap_picks(t, al, g, k);
                assert(covers(n, k));
            } else {
                assert(nested_at(t, al, g, j, k, g.from));
            }
        }
    }
    assert forall|k: BtreeKey| #[trigger] at(new, al, d, k) == at(t, al, d, k) by {
        lemma_put_above(t, new, al, g, n, d, k);
    }
    if all_roomy(t, al) && n.node_size >= 128 {
        assert forall|i: int, k: BtreeKey| 0 <= i < d + 1 implies #[trigger] roomy_at(
            new,
            al,
            i,
            k,
        ) by {
            assert(roomy_at(t, al, i, k));
            lemma_put_above(t, new, al, g, n, i, k);
        }
    }
}

/// The layout after the node at `a` on level `d` gave its keys from `s` on to
/// the node at `ra`.
pub open spec fn moved(al: Layout, d: int, a: u64, s: BtreeKey, ra: u64) -> Layout {
    Layout {
        of: |i: int, k: BtreeKey|
            if i == d && al.addr(i, k) == a && !k.lt(s) {
                ra
            } else {
                al.addr(i, k)
            },
    }
}

/// What the halves of a split node above the leaves pick: what leads a key to
/// the node that it belongs to.
pub open spec fn halves_route(
    t: Btree,
    al: Layout,
    d: int,
    a: u64,
    left: BtreeNode,
    right: BtreeNode,
    s: BtreeKey,
) -> bool {
    &&& forall|k: BtreeKey| #[trigger]
        al.addr(d, k) == a ==> covers(half_of(left, right, s, k), k) && pick(
            half_of(left, right, s, k),
            k,
        ).bch_val().paddr.addr == al.addr(d + 1, k)
    &&& forall|k: BtreeKey, k2: BtreeKey| #[trigger]
        al.addr(d, k) == a && #[trigger] al.addr(d, k2) == a && al.addr(d + 1, k) == al.addr(d + 1, k2) ==> pick(
            half_of(left, right, s, k),
            k,
        ) == pick(half_of(left, right, s, k2), k2) && k.lt(s) == k2.lt(s)
}

/// Whether `new` is `t` with the node at `a` split into `left` and `right`.
pub open spec fn put_halves(t: Btree, new: Btree, a: u64, left: BtreeNode, right: BtreeNode) -> bool {
    let ra = t.cache.next_addr;
    &&& new.root.node == t.root.node
    &&& new.root.depth == t.root.depth
    &&& new.nodes() == t.nodes().insert(ra, right).insert(a, left)
    &&& new.cache.next_addr == ra + 1
}

/// The nodes after one was split.
pub proof fn lemma_put_halves(
    t: Btree,
    new: Btree,
    al: Layout,
    g: Gap,
    d: int,
    kp: BtreeKey,
    left: BtreeNode,
    right: BtreeNode,
    s: BtreeKey,
    i: int,
    k: BtreeKey,
)
    requires
        laid(t, al, g),
        1 <= d <= t.root.depth,
        put_halves(t, new, al.addr(d, kp), left, right),
        0 <= i <= t.root.depth,
    ensures
        ({
            let al2 = moved(al, d, al.addr(d, kp), s, t.cache.next_addr);
            at(new, al2, i, k) == (if i == d && al.addr(d, k) == al.addr(d, kp) {
                half_of(left, right, s, k)
            } else {
                at(t, al, i, k)
            })
        }),
{
    let a = al.addr(d, kp);
    assert(cached_at(t, al, d, kp));
    if i >= 1 {
        assert(cached_at(t, al, i, k));
        if i < d {
            assert(al.addr(i, k) != al.addr(d, kp));
        } else if i > d {
            assert(al.addr(d, kp) != al.addr(i, k));
        }
    }
}

/// A node that is split leaves a gap, and closes the one below it.
#[verifier::rlimit(40)]
pub proof fn lemma_split_layout(
    t: Btree,
    new: Btree,
    al: Layout,
    g: Gap,
    d: int,
    kp: BtreeKey,
    left: BtreeNode,
    right: BtreeNode,
    x: EntryView,
    s: BtreeKey,
)
    requires
        laid(t, al, g),
        1 <= d <= t.root.depth,
        t.cache.next_addr < ADDR48_LIMIT,
        put_halves(t, new, al.addr(d, kp), left, right),
        parted(at(t, al, d, kp), left, right, x, s),
        al.addr(d, x.key()) == al.addr(d, kp),
        if d < t.root.depth {
            &&& g.level == d + 1
            &&& halves_route(t, al, d, al.addr(d, kp), left, right, s)
            &&& tidy(left)
            &&& tidy(right)
        } else {
            g.level == 0 && leaf_ok(left) && leaf_ok(right)
        },
        d < t.root.depth ==> forall|k: BtreeKey|
            al.addr(d, k) != al.addr(d, kp) ==> #[trigger] al.addr(d + 1, k) != g.right,
    ensures
        laid(
            new,
            moved(al, d, al.addr(d, kp), s, t.cache.next_addr),
            Gap { level: d, left: al.addr(d, kp), from: s, right: t.cache.next_addr },
        ),
        forall|k: BtreeKey| #[trigger]
            at(new, moved(al, d, al.addr(d, kp), s, t.cache.next_addr), t.root.depth as int, k) == (
            if d == t.root.depth && al.addr(d, k) == al.addr(d, kp) {
                half_of(left, right, s, k)
            } else {
                at(t, al, t.root.depth as int, k)
            }),
        all_roomy(t, al) && left.node_size >= 128 && right.node_size >= 128 ==> all_roomy(
            new,
            moved(al, d, al.addr(d, kp), s, t.cache.next_addr),
        ),
{
    let a = al.addr(d, kp);
    let ra = t.cache.next_addr;
    let al2 = moved(al, d, a, s, ra);
    let h = Gap { level: d, left: a, from: s, right: ra };
    let dd = t.root.depth as int;
    let p = at(t, al, d, kp);
    assert(cached_at(t, al, d, kp));
    assert forall|i: int, k: BtreeKey| 1 <= i <= dd implies #[trigger] cached_at(new, al2, i, k) by {
        assert(cached_at(t, al, i, k));
    }
    assert forall|i: int, k: BtreeKey| 0 <= i <= dd implies #[trigger] good_at(new, al2, i, k) by {
        assert(good_at(t, al, i, k));
        lemma_put_halves(t, new, al, g, d, kp, left, right, s, i, k);
    }
    assert forall|i: int, k: BtreeKey| 1 <= i <= dd implies #[trigger] kept_at(new, al2, i, k) by {
        assert(kept_at(t, al, i, k));
        lemma_put_halves(t, new, al, g, d, kp, left, right, s, i, k);
        if i == d && al.addr(d, k) == a {
            assert(at(t, al, i, k) == p);
        }
    }
    assert forall|i: int, k: BtreeKey, k2: BtreeKey| 1 <= i <= dd implies #[trigger] nested_at(
        new,
        al2,
        h,
        i,
        k,
        k2,
    ) by {
        assert(nested_at(t, al, g, i, k, k2));
        assert(cached_at(t, al, i, k) && cached_at(t, al, i, k2));
        lemma_put_halves(t, new, al, g, d, kp, left, right, s, i - 1, k);
        lemma_put_halves(t, new, al, g, d, kp, left, right, s, i - 1, k2);
    }
    assert forall|i: int, k: BtreeKey| 1 <= i <= dd implies #[trigger] linked_at(new, al2, h, i, k) by {
        assert(linked_at(t, al, g, i, k));
        assert(cached_at(t, al, i, k));
        lemma_put_halves(t, new, al, g, d, kp, left, right, s, i - 1, k);
        if i == d + 1 && al.addr(d, k) != a {
            assert(al.addr(d + 1, k) != g.right);
        }
    }
    assert forall|i: int, k: BtreeKey, k2: BtreeKey| 1 <= i <= dd implies #[trigger] slot_at(
        al2,
        i,
        k,
        k2,
    ) by {
        assert(slot_at(al, i, k, k2));
    }
    assert(apart(new, al2)) by {
        assert forall|i: int, k: BtreeKey, i2: int, k2: BtreeKey| 1 <= i < i2 <= dd implies (
        #[trigger] al2.addr(i, k)) != #[trigger] al2.addr(i2, k2) by {
            assert(cached_at(t, al, i, k) && cached_at(t, al, i2, k2));
            assert(al.addr(i, k) != al.addr(i2, k2));
        }
    }
    let z = choose|z: EntryView| #[trigger] p.all().contains(z) && z.key() == s;
    let z0 = choose|z: EntryView| #[trigger] p.all().contains(z) && z.key().lt(s);
    assert(kept_at(t, al, d, kp));
    assert(al.addr(d, s) == a && al.addr(d, z0.key()) == a);
    assert(gap_ok(new, al2, h)) by {
        assert forall|k: BtreeKey| #[trigger] back(h, d, al2.addr(d, k)) == a implies (al2.addr(d, k) == ra
            <==> !k.lt(s)) by {
            assert(cached_at(t, al, d, k));
        }
        lemma_put_halves(t, new, al, g, d, kp, left, right, s, d - 1, s);
        let up = at(t, al, d - 1, s);
        assert(nested_at(t, al, g, d, z0.key(), s));
        assert(good_at(t, al, d - 1, s) && good_at(t, al, d - 1, z0.key()));
        assert(at(t, al, d - 1, z0.key()) == up);
        lemma_pick(up, z0.key());
        assert forall|e: EntryView| #[trigger] up.all().contains(e) implies !e.key().same_slot(s) by {
            if e.key().same_slot(s) {
                assert(is_best(up.all(), s, e));
                lemma_pick_is(up, s, e);
            }
        }
    }
    assert forall|k: BtreeKey| #[trigger] at(new, al2, dd, k) == (if d == dd && al.addr(d, k) == a {
        half_of(left, right, s, k)
    } else {
        at(t, al, dd, k)
    }) by {
        lemma_put_halves(t, new, al, g, d, kp, left, right, s, dd, k);
    }
    if all_roomy(t, al) && left.node_size >= 128 && right.node_size >= 128 {
        assert forall|i: int, k: BtreeKey| 0 <= i < dd + 1 implies #[trigger] roomy_at(
            new,
            al2,
            i,
            k,
        ) by {
            assert(roomy_at(t, al, i, k));
            lemma_put_halves(t, new, al, g, d, kp, left, right, s, i, k);
        }
    }
}

/// The halves of a node above a gap, with the routing entry for the gap in
/// them, route to the nodes below.
pub proof fn lemma_halves_route(
    t: Btree,
    al: Layout,
    g: Gap,
    left: BtreeNode,
    right: BtreeNode,
    s: BtreeKey,
)
    requires
        laid(t, al, g),
        g.level >= 2,
        shared_by(at(t, al, g.level - 1, g.from), left, right, routing(g.from, g.right), s),
    ensures
        halves_route(t, al, g.level - 1, al.addr(g.level - 1, g.from), left, right, s),
        forall|k: BtreeKey|
            al.addr(g.level - 1, k) != al.addr(g.level - 1, g.from) ==> #[trigger] al.addr(g.level, k) != g.right,
{
    let d = g.level - 1;
    let a = al.addr(d, g.from);
    let p = at(t, al, d, g.from);
    let x = routing(g.from, g.right);
    assert forall|k: BtreeKey| #[trigger] al.addr(d, k) == a implies covers(
        half_of(left, right, s, k),
        k,
    ) && pick(half_of(left, right, s, k), k).bch_val().paddr.addr == al.addr(d + 1, k) by {
        lemma_gap_picks(t, al, g, k);
        lemma_pick_in_half(p, left, right, x, s, k);
    }
    assert forall|k: BtreeKey, k2: BtreeKey| #[trigger]
        al.addr(d, k) == a && #[trigger] al.addr(d, k2) == a && al.addr(d + 1, k) == al.addr(d + 1, k2) implies pick(
        half_of(left, right, s, k),
        k,
    ) == pick(half_of(left, right, s, k2), k2) && k.lt(s) == k2.lt(s) by {
        lemma_gap_picks(t, al, g, k);
        lemma_gap_picks(t, al, g, k2);
        lemma_pick_in_half(p, left, right, x, s, k);
        lemma_pick_in_half(p, left, right, x, s, k2);
        assert(nested_at(t, al, g, d + 1, k, k2));
    }
    assert forall|k: BtreeKey| al.addr(d, k) != a implies #[trigger] al.addr(d + 1, k) != g.right by {
        assert(nested_at(t, al, g, d + 1, k, g.from));
    }
}

/// The layout after a new root was put over the nodes at `la` and `ra`, which
/// part at `s`.
pub open spec fn raised(al: Layout, s: BtreeKey, la: u64, ra: u64) -> Layout {
    Layout {
        of: |i: int, k: BtreeKey|
            if i >= 2 {
                al.addr(i - 1, k)
            } else if k.lt(s) {
                la
            } else {
                ra
            },
    }
}

/// Whether `new` is `t` with its root split into `left` and `right`, and `n` as
/// the root over them.
pub open spec fn put_root(
    t: Btree,
    new: Btree,
    n: BtreeNode,
    left: BtreeNode,
    right: BtreeNode,
) -> bool {
    let la = t.cache.next_addr;
    let ra = (la + 1) as u64;
    &&& new.root.node == n
    &&& new.root.depth == t.root.depth + 1
    &&& new.nodes() == t.nodes().insert(la, left).insert(ra, right)
    &&& new.cache.next_addr == la + 2
}

/// Whether the half of a split root for `k` routes it to its node.
pub open spec fn half_routes(
    al: Layout,
    left: BtreeNode,
    right: BtreeNode,
    s: BtreeKey,
    k: BtreeKey,
) -> bool {
    let h = half_of(left, right, s, k);
    covers(h, k) && pick(h, k).bch_val().paddr.addr == al.addr(1, k)
}

/// Whether two keys that belong to one node below a split root come to it by
/// one routing entry.
pub open spec fn halves_agree(
    al: Layout,
    left: BtreeNode,
    right: BtreeNode,
    s: BtreeKey,
    k: BtreeKey,
    k2: BtreeKey,
) -> bool {
    al.addr(1, k) == al.addr(1, k2) ==> pick(half_of(left, right, s, k), k) == pick(
        half_of(left, right, s, k2),
        k2,
    ) && k.lt(s) == k2.lt(s)
}

/// What the halves of a split root pick.
pub open spec fn root_halves_route(
    al: Layout,
    left: BtreeNode,
    right: BtreeNode,
    s: BtreeKey,
) -> bool {
    &&& forall|k: BtreeKey| #[trigger] half_routes(al, left, right, s, k)
    &&& forall|k: BtreeKey, k2: BtreeKey| #[trigger] halves_agree(al, left, right, s, k, k2)
}

/// A root over two nodes picks by the key at which they part.
proof fn lemma_pick_in_root(n: BtreeNode, la: u64, s: BtreeKey, ra: u64, k: BtreeKey)
    requires
        tidy(n),
        n.all() == seq![routing(BtreeKey::spec_min_key(), la), routing(s, ra)],
        la < ADDR48_LIMIT,
        ra < ADDR48_LIMIT,
    ensures
        covers(n, k),
        pick(n, k) == (if k.lt(s) {
            routing(BtreeKey::spec_min_key(), la)
        } else {
            routing(s, ra)
        }),
        pick(n, k).bch_val().paddr.addr == (if k.lt(s) {
            la
        } else {
            ra
        }),
{
    let min = BtreeKey::spec_min_key();
    let x = routing(min, la);
    let y = routing(s, ra);
    lemma_routing_reads(min, la);
    lemma_routing_reads(s, ra);
    assert(n.all()[0] == x && n.all()[1] == y);
    assert(n.all().contains(x) && n.all().contains(y));
    let b = if k.lt(s) {
        x
    } else {
        y
    };
    assert(is_best(n.all(), k, b)) by {
        assert forall|e: EntryView| #[trigger] n.all().contains(e) && !k.lt(e.key()) implies !b.key().lt(
            e.key(),
        ) by {
            let j = choose|j: int| 0 <= j < n.all().len() && n.all()[j] == e;
            assert(j == 0 || j == 1);
        }
    }
    lemma_pick_is(n, k, b);
}

/// The nodes after a root was split.
proof fn lemma_put_root(
    t: Btree,
    new: Btree,
    al: Layout,
    g: Gap,
    n: BtreeNode,
    left: BtreeNode,
    right: BtreeNode,
    s: BtreeKey,
    i: int,
    k: BtreeKey,
)
    requires
        laid(t, al, g),
        t.cache.next_addr + 2 <= ADDR48_LIMIT,
        put_root(t, new, n, left, right),
        0 <= i <= t.root.depth + 1,
    ensures
        at(new, raised(al, s, t.cache.next_addr, (t.cache.next_addr + 1) as u64), i, k) == (if i
            == 0 {
            n
        } else if i == 1 {
            half_of(left, right, s, k)
        } else {
            at(t, al, i - 1, k)
        }),
{
    if i >= 2 {
        assert(cached_at(t, al, i - 1, k));
    }
}

/// A root that is split closes the gap below it.
#[verifier::rlimit(40)]
pub proof fn lemma_root_layout(
    t: Btree,
    new: Btree,
    al: Layout,
    g: Gap,
    n: BtreeNode,
    left: BtreeNode,
    right: BtreeNode,
    x: EntryView,
    s: BtreeKey,
)
    requires
        laid(t, al, g),
        t.cache.next_addr + 2 <= ADDR48_LIMIT,
        put_root(t, new, n, left, right),
        parted(t.root.node, left, right, x, s),
        tidy(n),
        n.all() == seq![
            routing(BtreeKey::spec_min_key(), t.cache.next_addr),
            routing(s, (t.cache.next_addr + 1) as u64),
        ],
        if t.root.depth > 0 {
            g.level == 1 && root_halves_route(al, left, right, s) && tidy(left) && tidy(right)
        } else {
            g.level == 0 && leaf_ok(left) && leaf_ok(right)
        },
    ensures
        laid(new, raised(al, s, t.cache.next_addr, (t.cache.next_addr + 1) as u64), no_gap()),
        forall|k: BtreeKey| #[trigger]
            at(
                new,
                raised(al, s, t.cache.next_addr, (t.cache.next_addr + 1) as u64),
                t.root.depth + 1,
                k,
            ) == (if t.root.depth == 0 {
                half_of(left, right, s, k)
            } else {
                at(t, al, t.root.depth as int, k)
            }),
        all_roomy(t, al) && n.node_size >= 128 && left.node_size >= 128 && right.node_size >= 128
            ==> all_roomy(
            new,
            raised(al, s, t.cache.next_addr, (t.cache.next_addr + 1) as u64),
        ),
{
    let la = t.cache.next_addr;
    let ra = (la + 1) as u64;
    let al2 = raised(al, s, la, ra);
    let h = no_gap();
    let dd = t.root.depth + 1;
    assert forall|i: int, k: BtreeKey| 1 <= i <= dd implies #[trigger] cached_at(new, al2, i, k) by {
        if i >= 2 {
            assert(cached_at(t, al, i - 1, k));
        }
    }
    assert forall|i: int, k: BtreeKey| 0 <= i <= dd implies #[trigger] good_at(new, al2, i, k) by {
        lemma_put_root(t, new, al, g, n, left, right, s, i, k);
        if i == 0 {
            lemma_pick_in_root(n, la, s, ra, k);
        } else if i == 1 {
            if t.root.depth > 0 {
                assert(half_routes(al, left, right, s, k));
            }
        } else {
            assert(good_at(t, al, i - 1, k));
        }
    }
    assert forall|i: int, k: BtreeKey| 1 <= i <= dd implies #[trigger] kept_at(new, al2, i, k) by {
        lemma_put_root(t, new, al, g, n, left, right, s, i, k);
        if i >= 2 {
            assert(kept_at(t, al, i - 1, k));
        }
    }
    assert forall|i: int, k: BtreeKey, k2: BtreeKey| 1 <= i <= dd implies #[trigger] nested_at(
        new,
        al2,
        h,
        i,
        k,
        k2,
    ) by {
        lemma_put_root(t, new, al, g, n, left, right, s, i - 1, k);
        lemma_put_root(t, new, al, g, n, left, right, s, i - 1, k2);
        if i == 1 {
            lemma_pick_in_root(n, la, s, ra, k);
            lemma_pick_in_root(n, la, s, ra, k2);
        } else if i == 2 {
            assert(halves_agree(al, left, right, s, k, k2));
        } else {
            assert(nested_at(t, al, g, i - 1, k, k2));
        }
    }
    assert forall|i: int, k: BtreeKey| 1 <= i <= dd implies #[trigger] linked_at(new, al2, h, i, k) by {
        lemma_put_root(t, new, al, g, n, left, right, s, i - 1, k);
        if i == 1 {
            lemma_pick_in_root(n, la, s, ra, k);
        } else {
            assert(linked_at(t, al, g, i - 1, k));
            if i == 2 {
                assert(half_routes(al, left, right, s, k));
            }
        }
    }
    assert forall|i: int, k: BtreeKey, k2: BtreeKey| 1 <= i <= dd implies #[trigger] slot_at(
        al2,
        i,
        k,
        k2,
    ) by {
        if i >= 2 {
            assert(slot_at(al, i - 1, k, k2));
        }
    }
    assert(apart(new, al2)) by {
        assert forall|i: int, k: BtreeKey, i2: int, k2: BtreeKey| 1 <= i < i2 <= dd implies (
        #[trigger] al2.addr(i, k)) != #[trigger] al2.addr(i2, k2) by {
            assert(cached_at(t, al, i2 - 1, k2));
            if i >= 2 {
                assert(al.addr(i - 1, k) != al.addr(i2 - 1, k2));
            }
        }
    }
    assert forall|k: BtreeKey| #[trigger] at(new, al2, dd, k) == (if t.root.depth == 0 {
        half_of(left, right, s, k)
    } else {
        at(t, al, t.root.depth as int, k)
    }) by {
        lemma_put_root(t, new, al, g, n, left, right, s, dd, k);
    }
    if all_roomy(t, al) && n.node_size >= 128 && left.node_size >= 128 && right.node_size >= 128 {
        assert forall|i: int, k: BtreeKey| 0 <= i < dd + 1 implies #[trigger] roomy_at(
            new,
            al2,
            i,
            k,
        ) by {
            lemma_put_root(t, new, al, g, n, left, right, s, i, k);
            if i >= 2 {
                assert(roomy_at(t, al, i - 1, k));
            }
        }
    }
}

/// The halves of a root above a gap, with the routing entry for the gap in
/// them, route to the nodes below.
pub proof fn lemma_root_halves_route(
    t: Btree,
    al: Layout,
    g: Gap,
    left: BtreeNode,
    right: BtreeNode,
    s: BtreeKey,
)
    requires
        laid(t, al, g),
        g.level == 1,
        shared_by(t.root.node, left, right, routing(g.from, g.right), s),
    ensures
        root_halves_route(al, left, right, s),
{
    let p = t.root.node;
    let x = routing(g.from, g.right);
    assert forall|k: BtreeKey| #[trigger] half_routes(al, left, right, s, k) by {
        lemma_gap_picks(t, al, g, k);
        lemma_pick_in_half(p, left, right, x, s, k);
    }
    assert forall|k: BtreeKey, k2: BtreeKey| #[trigger]
        halves_agree(al, left, right, s, k, k2) by {
        lemma_gap_picks(t, al, g, k);
        lemma_gap_picks(t, al, g, k2);
        lemma_pick_in_half(p, left, right, x, s, k);
        lemma_pick_in_half(p, left, right, x, s, k2);
        assert(nested_at(t, al, g, 1, k, k2));
    }
}

/// Whether `new` is `t` with the leaf for `kp` replaced by `n`.
pub open spec fn put_leaf(t: Btree, new: Btree, al: Layout, kp: BtreeKey, n: BtreeNode) -> bool {
    let d = t.root.depth as int;
    &&& new.root.depth == t.root.depth
    &&& new.cache.next_addr == t.cache.next_addr
    &&& if d == 0 {
        new.root.node == n
    } else {
        new.root.node == t.root.node && new.nodes() == t.nodes().insert(al.addr(d, kp), n)
    }
}

/// A leaf can be replaced by one whose keys belong to it.
pub proof fn lemma_leaf_layout(t: Btree, new: Btree, al: Layout, kp: BtreeKey, n: BtreeNode)
    requires
        laid(t, al, no_gap()),
        put_leaf(t, new, al, kp, n),
        leaf_ok(n),
        forall|e: EntryView| #[trigger]
            n.all().contains(e) && t.root.depth > 0 ==> al.addr(t.root.depth as int, e.key()) == al.addr(
                t.root.depth as int,
                kp,
            ),
    ensures
        laid(new, al, no_gap()),
        forall|k: BtreeKey| #[trigger]
            at(new, al, t.root.depth as int, k) == (if t.root.depth == 0 || al.addr(
                t.root.depth as int,
                k,
            ) == al.addr(t.root.depth as int, kp) {
                n
            } else {
                at(t, al, t.root.depth as int, k)
            }),
        all_roomy(t, al) && n.node_size >= 128 ==> all_roomy(new, al),
{
    let d = t.root.depth as int;
    let h = no_gap();
    assert forall|i: int, k: BtreeKey| 0 <= i < d implies #[trigger] at(new, al, i, k) == at(
        t,
        al,
        i,
        k,
    ) by {
        if i >= 1 {
            assert(al.addr(i, k) != al.addr(d, kp));
        }
    }
    assert forall|i: int, k: BtreeKey| 1 <= i <= d implies #[trigger] cached_at(new, al, i, k) by {
        assert(cached_at(t, al, i, k));
    }
    assert forall|i: int, k: BtreeKey| 0 <= i <= d implies #[trigger] good_at(new, al, i, k) by {
        assert(good_at(t, al, i, k));
        if i < d {
            assert(at(new, al, i, k) == at(t, al, i, k));
        }
    }
    assert forall|i: int, k: BtreeKey| 1 <= i <= d implies #[trigger] kept_at(new, al, i, k) by {
        assert(kept_at(t, al, i, k));
        if i < d {
            assert(at(new, al, i, k) == at(t, al, i, k));
        }
    }
    assert forall|i: int, k: BtreeKey, k2: BtreeKey| 1 <= i <= d implies #[trigger] nested_at(
        new,
        al,
        h,
        i,
        k,
        k2,
    ) by {
        assert(nested_at(t, al, h, i, k, k2));
        assert(at(new, al, i - 1, k) == at(t, al, i - 1, k));
        assert(at(new, al, i - 1, k2) == at(t, al, i - 1, k2));
    }
    assert forall|i: int, k: BtreeKey| 1 <= i <= d implies #[trigger] linked_at(new, al, h, i, k) by {
        assert(linked_at(t, al, h, i, k));
        assert(at(new, al, i - 1, k) == at(t, al, i - 1, k));
    }
    if all_roomy(t, al) && n.node_size >= 128 {
        assert forall|i: int, k: BtreeKey| 0 <= i < d + 1 implies #[trigger] roomy_at(
            new,
            al,
            i,
            k,
        ) by {
            assert(roomy_at(t, al, i, k));
            if i < d {
                assert(at(new, al, i, k) == at(t, al, i, k));
            }
        }
    }
}

} // verus!
