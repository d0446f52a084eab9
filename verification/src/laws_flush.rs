//! What is written out of a tree, what is listed of it, and how it is counted.

use crate::btree::{child_ptrs, Btree};
use crate::cache::{dirty_at_level, dirty_below, NodeCache, ROOT_CACHE_ADDR};
use crate::engine::{without, BtreeEngine};
use crate::ids::BtreeId;
use crate::interior::{compacted_in_cache, is_fake, is_root_over};
use crate::key::{Bpos, BtreeEntry, BtreeKey, BtreePtrV2, EntryView, KeyType};
use crate::laws_gc::lemma_in_push;
use crate::laws_map::reachable;
use crate::laws_walk::lemma_walk_visits;
use crate::node::{BtreeNode, NODE_NEED_REWRITE};
use crate::run::{lemma_undeleted, undeleted};
use vstd::prelude::*;

verus! {

// ── changed nodes ───────────────────────────────────────────────────────

proof fn lemma_at_level(nodes: Map<u64, BtreeNode>, dirty: Seq<u64>, level: int, a: u64)
    ensures
        dirty_at_level(nodes, dirty, level).contains(a) <==> dirty.contains(a)
            && nodes.contains_key(a) && nodes[a].level == level,
        forall|i: int|
            0 <= i < dirty_at_level(nodes, dirty, level).len() ==> nodes.contains_key(
                #[trigger] dirty_at_level(nodes, dirty, level)[i],
            ) && nodes[dirty_at_level(nodes, dirty, level)[i]].level == level,
    decreases dirty.len(),
{
    if dirty.len() > 0 {
        let f = dirty.drop_last();
        lemma_at_level(nodes, f, level, a);
        assert(dirty =~= f.push(dirty.last()));
        lemma_in_push(f, dirty.last(), a);
        lemma_in_push(dirty_at_level(nodes, f, level), dirty.last(), a);
    }
}

proof fn lemma_below(nodes: Map<u64, BtreeNode>, dirty: Seq<u64>, level: int, a: u64)
    requires
        0 <= level,
    ensures
        dirty_below(nodes, dirty, level).contains(a) <==> dirty.contains(a) && nodes.contains_key(a)
            && nodes[a].level < level,
        forall|i: int|
            0 <= i < dirty_below(nodes, dirty, level).len() ==> nodes.contains_key(
                #[trigger] dirty_below(nodes, dirty, level)[i],
            ) && nodes[dirty_below(nodes, dirty, level)[i]].level < level,
        forall|i: int, j: int|
            0 <= i < j < dirty_below(nodes, dirty, level).len() ==> nodes[
                #[trigger] dirty_below(nodes, dirty, level)[i]].level <= nodes[
                #[trigger] dirty_below(nodes, dirty, level)[j]].level,
    decreases level,
{
    if level > 0 {
        let x = dirty_below(nodes, dirty, level - 1);
        let y = dirty_at_level(nodes, dirty, level - 1);
        lemma_below(nodes, dirty, level - 1, a);
        lemma_at_level(nodes, dirty, level - 1, a);
        crate::laws_gc::lemma_in_concat(x, y, a);
        let z = dirty_below(nodes, dirty, level);
        assert forall|i: int| 0 <= i < z.len() implies nodes.contains_key(#[trigger] z[i])
            && nodes[z[i]].level < level && (i >= x.len() ==> nodes[z[i]].level == level - 1) && (i
            < x.len() ==> z[i] == x[i]) by {
            if i < x.len() {
                assert(z[i] == x[i]);
            } else {
                assert(z[i] == y[i - x.len()]);
            }
        }
    }
}

/// What is written out of a tree is every changed node that is cached, as it
/// stands, and the root where it was changed; nothing else. Children come before
/// their parents, and the root last. Nothing counts as changed then, and the
/// nodes stay.
#[verifier::rlimit(40)]
pub proof fn lemma_changed_written(t: Btree, new: Btree, r: Seq<(u64, BtreeNode)>, a: u64)
    requires
        t.dirty_flushed(new, r),
        a != ROOT_CACHE_ADDR,
        !t.nodes().contains_key(ROOT_CACHE_ADDR),
    ensures
        (exists|i: int| 0 <= i < r.len() && (#[trigger] r[i]).0 == a) <==> t.cache.dirty@.contains(a)
            && t.nodes().contains_key(a),
        (exists|i: int| 0 <= i < r.len() && (#[trigger] r[i]).0 == ROOT_CACHE_ADDR)
            <==> t.root_modified,
        forall|i: int|
            0 <= i < r.len() ==> ({
                let n = if (#[trigger] r[i]).0 == ROOT_CACHE_ADDR {
                    t.root.node
                } else {
                    t.nodes()[r[i].0]
                };
                r[i].1.data@ == n.data@ && r[i].1 == (BtreeNode { data: r[i].1.data, ..n })
            }),
        forall|i: int, j: int|
            0 <= i < j < r.len() ==> (#[trigger] r[j]).0 == ROOT_CACHE_ADDR || (
            #[trigger] r[i]).1.level <= r[j].1.level,
        forall|i: int| 0 <= i < r.len() - 1 ==> (#[trigger] r[i]).0 != ROOT_CACHE_ADDR,
        new.nodes() == t.nodes(),
        new.root == t.root,
        new.cache.dirty@.len() == 0,
        !new.root_modified,
{
    let below = dirty_below(t.nodes(), t.cache.dirty@, 256);
    lemma_below(t.nodes(), t.cache.dirty@, 256, a);
    assert forall|i: int| 0 <= i < below.len() implies (#[trigger] r[i]).0 == below[i] && r[i].0
        != ROOT_CACHE_ADDR by {
        assert(t.nodes().contains_key(below[i]));
    }
    if below.contains(a) {
        let i = choose|i: int| 0 <= i < below.len() && below[i] == a;
        assert(r[i].0 == a);
    }
    if exists|i: int| 0 <= i < r.len() && (#[trigger] r[i]).0 == a {
        let i = choose|i: int| 0 <= i < r.len() && (#[trigger] r[i]).0 == a;
        assert(i < below.len());
        assert(below[i] == a);
    }
    if t.root_modified {
        assert(r[r.len() - 1].0 == ROOT_CACHE_ADDR);
    }
    assert forall|i: int, j: int|
        0 <= i < j < r.len() implies (#[trigger] r[j]).0 == ROOT_CACHE_ADDR || (
    #[trigger] r[i]).1.level <= r[j].1.level by {
        if j < below.len() {
            assert(r[i].0 == below[i] && r[j].0 == below[j]);
        } else {
            assert(r[j] == r.last());
        }
    }
}

/// The output of a flush has one part for every tree with changed nodes, in the
/// order of the trees' places, and none for the others.
pub proof fn lemma_trees_written(outs: Seq<Seq<(u64, BtreeNode)>>, n: int, ty: BtreeId)
    requires
        0 <= n <= 7,
        outs.len() >= n,
    ensures
        ({
            let r = BtreeEngine::nonempty(outs, n);
            &&& (exists|i: int| 0 <= i < r.len() && (#[trigger] r[i]).0 == ty) <==> ty.spec_index()
                < n && outs[ty.spec_index()].len() > 0
            &&& forall|i: int|
                0 <= i < r.len() ==> (#[trigger] r[i]).1 == outs[r[i].0.spec_index()]
                    && r[i].1.len() > 0 && 0 <= r[i].0.spec_index() < n
            &&& forall|i: int, j: int|
                0 <= i < j < r.len() ==> (#[trigger] r[i]).0.spec_index() < (
                #[trigger] r[j]).0.spec_index()
        }),
    decreases n,
{
    if n > 0 {
        lemma_trees_written(outs, n - 1, ty);
        let f = BtreeEngine::nonempty(outs, n - 1);
        let r = BtreeEngine::nonempty(outs, n);
        let id = BtreeId::spec_from(n - 1)->0;
        assert(id.spec_index() == n - 1);
        if exists|i: int| 0 <= i < f.len() && (#[trigger] f[i]).0 == ty {
            let i = choose|i: int| 0 <= i < f.len() && (#[trigger] f[i]).0 == ty;
            assert(r[i].0 == ty);
        }
        if exists|i: int| 0 <= i < r.len() && (#[trigger] r[i]).0 == ty {
            let i = choose|i: int| 0 <= i < r.len() && (#[trigger] r[i]).0 == ty;
            if i < f.len() {
                assert(f[i].0 == ty);
            }
        }
        if ty.spec_index() == n - 1 && outs[n - 1].len() > 0 {
            assert(id == ty);
            assert(r[f.len() as int].0 == ty);
        }
        assert forall|i: int| 0 <= i < f.len() implies #[trigger] r[i] == f[i] by {}
    }
}

// ── listings ────────────────────────────────────────────────────────────

/// A listing of a tree whose keys are reachable has every entry that is no
/// tombstone of every leaf that lookups come to, and no tombstones.
#[verifier::rlimit(40)]
pub proof fn lemma_listed(t: Btree, es: Seq<BtreeEntry>, e: EntryView)
    requires
        reachable(t),
        t.lists(es),
    ensures
        (exists|i: int| 0 <= i < es.len() && (#[trigger] es[i])@ == e) <==> e.key_type
            != KeyType::Deleted && (t.leaf_for(e.key()) matches Some(n) && n.all().contains(e)),
        forall|i: int| 0 <= i < es.len() ==> (#[trigger] es[i]).key_type != KeyType::Deleted,
{
    let items = t.items(BtreeKey::spec_min_key());
    let u = undeleted(items);
    lemma_walk_visits(t, e);
    lemma_undeleted(items);
    assert forall|i: int| 0 <= i < es.len() implies (#[trigger] es[i])@ == u[i] by {}
    assert forall|i: int| 0 <= i < es.len() implies (#[trigger] es[i]).key_type
        != KeyType::Deleted by {
        assert(es[i]@ == u[i]);
    }
    if u.contains(e) {
        let i = choose|i: int| 0 <= i < u.len() && u[i] == e;
        assert(es[i]@ == e);
    }
    if exists|i: int| 0 <= i < es.len() && (#[trigger] es[i])@ == e {
        let i = choose|i: int| 0 <= i < es.len() && (#[trigger] es[i])@ == e;
        assert(u[i] == e);
        assert(u.contains(e));
    }
}

/// A tree with nodes below its root has as many keys as a listing of it has
/// entries, as far as the counter goes.
pub proof fn lemma_counted_as_listed(t: Btree, es: Seq<BtreeEntry>)
    requires
        t.lists(es),
        t.root.depth > 0,
    ensures
        es.len() < 0x1_0000_0000 ==> Btree::spec_count(t.root, t.nodes()) == es.len(),
        es.len() >= 0x1_0000_0000 ==> Btree::spec_count(t.root, t.nodes()) == 0xffff_ffff,
{
}

/// The children of a node are the pointers that the values of its entries hold, in
/// order; a leaf has none.
pub proof fn lemma_child_ptrs(es: Seq<EntryView>, level: u8, p: BtreePtrV2)
    ensures
        level == 0 ==> child_ptrs(es, level).len() == 0,
        child_ptrs(es, level).contains(p) <==> level > 0 && exists|i: int|
            0 <= i < es.len() && BtreePtrV2::spec_from_bytes((#[trigger] es[i]).value) == Some(p),
        level > 0 && (forall|i: int|
            0 <= i < es.len() ==> BtreePtrV2::spec_from_bytes((#[trigger] es[i]).value) is Some)
            ==> child_ptrs(es, level).len() == es.len() && forall|i: int|
            0 <= i < es.len() ==> Some(#[trigger] child_ptrs(es, level)[i])
                == BtreePtrV2::spec_from_bytes(es[i].value),
    decreases es.len(),
{
    if es.len() > 0 {
        let f = es.drop_last();
        let x = es.last();
        lemma_child_ptrs(f, level, p);
        if let Some(q) = BtreePtrV2::spec_from_bytes(x.value) {
            lemma_in_push(child_ptrs(f, level), q, p);
        }
        assert(es[es.len() - 1] == x);
        if exists|i: int|
            0 <= i < f.len() && BtreePtrV2::spec_from_bytes((#[trigger] f[i]).value) == Some(p) {
            let i = choose|i: int|
                0 <= i < f.len() && BtreePtrV2::spec_from_bytes((#[trigger] f[i]).value) == Some(p);
            assert(es[i] == f[i]);
        }
        if exists|i: int|
            0 <= i < es.len() && BtreePtrV2::spec_from_bytes((#[trigger] es[i]).value) == Some(p) {
            let i = choose|i: int|
                0 <= i < es.len() && BtreePtrV2::spec_from_bytes((#[trigger] es[i]).value) == Some(
                    p,
                );
            if i < f.len() {
                assert(f[i] == es[i]);
            }
        }
        if forall|i: int|
            0 <= i < es.len() ==> BtreePtrV2::spec_from_bytes((#[trigger] es[i]).value) is Some {
            assert forall|i: int| 0 <= i < f.len() implies BtreePtrV2::spec_from_bytes(
                (#[trigger] f[i]).value,
            ) is Some by {
                assert(f[i] == es[i]);
            }
            assert(BtreePtrV2::spec_from_bytes(es[es.len() - 1].value) is Some);
        }
    }
}

/// The nodes on the way to a leaf are those of a descent: each lies where the one
/// above it sends the key, the first one where the root does, and the last of them
/// sends it to the leaf that lookups read.
pub proof fn lemma_path(t: Btree, k: BtreeKey)
    requires
        t.root.depth > 0,
    ensures
        t.spec_path(k).len() == t.root.depth - 1,
        forall|i: int|
            0 <= i < t.spec_path(k).len() ==> #[trigger] t.spec_path(k)[i] == crate::route::route(
                if i == 0 {
                    Some(t.root.node)
                } else {
                    crate::walk::look(t.nodes(), t.spec_path(k)[i - 1])
                },
                k,
            ).0,
        t.leaf_addr(k) == crate::route::route(
            if t.root.depth == 1 {
                Some(t.root.node)
            } else {
                crate::walk::look(t.nodes(), t.spec_path(k).last())
            },
            k,
        ).0,
        t.leaf_for(k) == crate::walk::look(t.nodes(), t.leaf_addr(k)),
{
}

/// A flush of all trees leaves none with changed nodes, whichever it is; the nodes,
/// the overlay and the subvolumes stay.
pub proof fn lemma_all_written(
    e: BtreeEngine,
    new: BtreeEngine,
    outs: Seq<Seq<(u64, BtreeNode)>>,
    ty: BtreeId,
)
    requires
        e.wf(),
        e.trees_flushed(new, outs, 7),
    ensures
        new.tree(ty).cache.dirty@.len() == 0,
        !new.tree(ty).root_modified,
        new.tree(ty).nodes() == e.tree(ty).nodes(),
        new.tree(ty).root == e.tree(ty).root,
        new.tree(ty).key_cache == e.tree(ty).key_cache,
        e.tree(ty).dirty_flushed(new.tree(ty), outs[ty.spec_index()]),
        new.journal_overlay == e.journal_overlay,
        new.subvol_ino_map == e.subvol_ino_map,
{
    assert(e.trees@[ty.spec_index()] == e.tree(ty));
}

/// A change to the subvolumes of one inode leaves those of every other.
pub proof fn lemma_inodes_independent(e: BtreeEngine, new: BtreeEngine, inode: u64, other: u64)
    requires
        e.same_but_inode(new, inode),
        other != inode,
    ensures
        new.subvols(other) == e.subvols(other),
        new.trees == e.trees,
        new.subvol_id_counter == e.subvol_id_counter,
{
    let a = new.subvol_ino_map@;
    let b = e.subvol_ino_map@;
    assert(a.remove(inode).contains_key(other) == a.contains_key(other));
    assert(b.remove(inode).contains_key(other) == b.contains_key(other));
    if a.contains_key(other) {
        assert(a.remove(inode)[other] == a[other]);
        assert(b.remove(inode)[other] == b[other]);
    }
}

/// A compaction of a cached node keeps what it shows and notes it as changed; every
/// other node stays as it is.
pub proof fn lemma_compacted_cached(old: NodeCache, new: NodeCache, a: u64, other: u64)
    requires
        compacted_in_cache(old, new, a),
        other != a,
    ensures
        new.nodes@.contains_key(a),
        new.nodes@[a].live() == old.nodes@[a].live(),
        new.nodes@[a].all() == old.nodes@[a].live(),
        new.dirty@.contains(a),
        new.nodes@.contains_key(other) == old.nodes@.contains_key(other),
        old.nodes@.contains_key(other) ==> new.nodes@[other] == old.nodes@[other],
        old.dirty@.contains(other) <==> new.dirty@.contains(other),
{
    let n = old.nodes@[a];
    crate::run::lemma_live(n.all());
    crate::run::lemma_live_idempotent(n.live());
    lemma_in_push(old.dirty@, a, a);
    lemma_in_push(old.dirty@, a, other);
}

/// A stand-in for a node that is lost shows nothing, takes in every position, and is
/// to be written anew.
pub proof fn lemma_stand_in(n: BtreeNode, level: u8, p: Bpos)
    requires
        is_fake(n, level),
    ensures
        n.all().len() == 0,
        n.level == level,
        !p.lt(n.min_key),
        !n.max_key.lt(p),
        n.flags & NODE_NEED_REWRITE != 0,
{
    crate::key::lemma_bpos_order(p, p, p);
    assert((0u8 | 0x02u8) & 0x02u8 != 0) by (bit_vector);
}

/// A root over one child sends every key there.
#[verifier::rlimit(40)]
pub proof fn lemma_root_over(n: BtreeNode, below: BtreeNode, depth: u8, child: u64, k: BtreeKey)
    requires
        is_root_over(n, below, depth, child),
        child < 0x1_0000_0000_0000,
    ensures
        crate::route::route(Some(n), k).0 == child,
        n.level == depth + 1,
        n.min_key == below.min_key && n.max_key == below.max_key,
{
    let x = crate::tree_insert::routing(BtreeKey::spec_min_key(), child);
    assert(n.all() == seq![x]);
    n.lemma_all();
    crate::laws::lemma_extent_reads(BtreeKey::spec_min_key(), crate::key::BchVal::spec_new(child, 0));
    let es = crate::route::extents(n.all());
    assert(es.len() == 1);
    assert(es[0].1.paddr.addr == child);
    crate::route::lemma_routing_range(es, k);
    assert(n.key_count == 1) by {
        reveal(BtreeNode::wf);
    }
}

/// A subvolume that was noted is among those of its inode, behind all others; once
/// it is forgotten it is not, and the others are as they were, in their order.
pub proof fn lemma_registered_and_forgotten(
    a: BtreeEngine,
    b: BtreeEngine,
    c: BtreeEngine,
    inode: u64,
    id: u32,
    other: u32,
)
    requires
        a.registered(b, inode, id),
        b.forgotten(c, inode, id),
    ensures
        b.subvols(inode).contains(id),
        b.subvols(inode).len() == a.subvols(inode).len() + 1,
        !c.subvols(inode).contains(id),
        other != id ==> (c.subvols(inode).contains(other) <==> a.subvols(inode).contains(other)),
        !a.subvols(inode).contains(id) ==> c.subvols(inode) == a.subvols(inode),
{
    let s = a.subvols(inode);
    lemma_in_push(s, id, id);
    lemma_without(s, id, id);
    lemma_without(s, id, other);
    assert(s.push(id).drop_last() =~= s);
}

proof fn lemma_without(s: Seq<u32>, id: u32, other: u32)
    ensures
        without(s, id).contains(other) <==> other != id && s.contains(other),
        !s.contains(id) ==> without(s, id) == s,
    decreases s.len(),
{
    if s.len() > 0 {
        let f = s.drop_last();
        lemma_without(f, id, other);
        assert(s =~= f.push(s.last()));
        lemma_in_push(f, s.last(), other);
        lemma_in_push(without(f, id), s.last(), other);
        lemma_in_push(f, s.last(), id);
    }
}

} // verus!
