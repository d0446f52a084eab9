//! Merging nodes: siblings, redistribution, and the routing entries of the
//! parent.

use crate::key::{BchVal, Bpos, BtreeEntry, BtreeKey, EntryView, KeyValue, ADDR48_LIMIT};
use crate::node::BtreeNode;
use crate::node_edit::lemma_extent_size;
use crate::node_read::as_extent;
use crate::packed::{all_fit, all_padded, lemma_total_push, total_size};
use crate::route::extents;
use crate::run::views;
use crate::sort::{before, lemma_stable_sort, ordered, sort_entries, stable_sort};
use crate::tree_insert::routing;
use vstd::prelude::*;

verus! {

/// Whether a node is filled to less than a third.
pub open spec fn spec_underfull(n: BtreeNode) -> bool {
    total_size(n.all()) < n.node_size / 3
}

/// Whether a node is filled to less than a third.
pub fn node_underfull(node: &BtreeNode) -> (r: bool)
    requires
        node.wf(),
    ensures
        r == spec_underfull(*node),
{
    node.total_data_bytes() < node.node_size / 3
}

/// The number of the first entry of a run that points to `addr`; the length
/// of the run where none does.
pub open spec fn addr_index(es: Seq<EntryView>, addr: u64) -> int
    decreases es.len(),
{
    if es.len() == 0 || es[0].bch_val().paddr.addr == addr {
        0
    } else {
        1 + addr_index(es.skip(1), addr)
    }
}

proof fn lemma_addr_index(es: Seq<EntryView>, addr: u64, i: int)
    requires
        0 <= i <= es.len(),
        forall|j: int| 0 <= j < i ==> (#[trigger] es[j]).bch_val().paddr.addr != addr,
        i < es.len() ==> es[i].bch_val().paddr.addr == addr,
    ensures
        addr_index(es, addr) == i,
    decreases es.len(),
{
    if es.len() > 0 && i > 0 {
        assert(es[0].bch_val().paddr.addr != addr);
        let t = es.skip(1);
        assert forall|j: int| 0 <= j < i - 1 implies (#[trigger] t[j]).bch_val().paddr.addr
            != addr by {
            assert(t[j] == es[j + 1]);
        }
        lemma_addr_index(t, addr, i - 1);
    }
}

pub proof fn lemma_addr_index_range(es: Seq<EntryView>, addr: u64)
    ensures
        0 <= addr_index(es, addr) <= es.len(),
    decreases es.len(),
{
    if es.len() > 0 && es[0].bch_val().paddr.addr != addr {
        lemma_addr_index_range(es.skip(1), addr);
    }
}

/// The number, counted from 1 over all sets, of the first entry that points to
/// `target_addr`.
pub fn find_entry_index(node: &BtreeNode, target_addr: u64) -> (r: Option<u16>)
    requires
        node.wf(),
    ensures
        r == (if addr_index(node.all(), target_addr) < node.all().len() {
            Some((addr_index(node.all(), target_addr) + 1) as u16)
        } else {
            None
        }),
        r matches Some(i) ==> 1 <= i <= node.all().len(),
{
    let es: Vec<(BtreeKey, BchVal)> = node.all_extents();
    let ghost run = node.all();
    let mut i: usize = 0;
    while i < es.len()
        invariant
            i <= es@.len() <= 10922,
            run == node.all(),
            es@ == extents(run),
            forall|j: int| 0 <= j < i ==> (#[trigger] run[j]).bch_val().paddr.addr != target_addr,
        decreases es@.len() - i,
    {
        assert(es@[i as int] == as_extent(run[i as int]));
        if es[i].1.paddr.addr == target_addr {
            proof {
                lemma_addr_index(run, target_addr, i as int);
            }
            return Some((i + 1) as u16);
        }
        i = i + 1;
    }
    proof {
        lemma_addr_index(run, target_addr, run.len() as int);
    }
    None
}

/// The entry in key order before or behind the first one that points to `child`.
pub open spec fn spec_sibling(parent: BtreeNode, child: u64, is_left: bool) -> Option<
    (BtreeKey, u64),
> {
    let s = stable_sort(parent.all(), false);
    let p = addr_index(s, child);
    if parent.key_count == 0 || p >= s.len() {
        None
    } else if is_left {
        if p > 0 {
            Some((s[p - 1].key(), s[p - 1].bch_val().paddr.addr))
        } else {
            None
        }
    } else if p + 1 < s.len() {
        Some((s[p + 1].key(), s[p + 1].bch_val().paddr.addr))
    } else {
        None
    }
}

/// The neighbour, in key order, of the child at `child_addr`.
pub fn find_sibling(parent: &BtreeNode, child_addr: u64, is_left: bool) -> (r: Option<
    (BtreeKey, u64),
>)
    requires
        parent.wf(),
    ensures
        r == spec_sibling(*parent, child_addr, is_left),
        r matches Some((k, a)) ==> a < ADDR48_LIMIT,
{
    if parent.key_count == 0 {
        return None;
    }
    let sorted: Vec<BtreeEntry> = sort_entries(parent.all_entries(), false);
    let ghost s = stable_sort(parent.all(), false);
    let n: usize = sorted.len();
    let mut i: usize = 0;
    let mut found: bool = false;
    while i < n && !found
        invariant
            i <= n == sorted@.len(),
            s == views(sorted@),
            forall|j: int| 0 <= j < i ==> (#[trigger] s[j]).bch_val().paddr.addr != child_addr,
            found ==> i < n && s[i as int].bch_val().paddr.addr == child_addr,
        decreases
            n - i,
            if found {
                0int
            } else {
                1int
            },
    {
        assert(s[i as int] == sorted@[i as int]@);
        let (_k, v) = sorted[i].to_legacy();
        if v.paddr.addr == child_addr {
            found = true;
        } else {
            i = i + 1;
        }
    }
    proof {
        lemma_addr_index(s, child_addr, i as int);
    }
    if !found {
        return None;
    }
    let at: usize = if is_left {
        if i == 0 {
            return None;
        }
        i - 1
    } else {
        if i + 1 >= n {
            return None;
        }
        i + 1
    };
    assert(s[at as int] == sorted@[at as int]@);
    let bytes: Vec<u8> = sorted[at].value.to_bytes();
    let v = BchVal::from_bytes(bytes.as_slice());
    Some((BtreeKey::from_bpos(sorted[at].pos, sorted[at].key_type), v.paddr.addr))
}

// ── three nodes into two ────────────────────────────────────────────────

/// A run as extents, without inodes and with the values read as extents.
pub open spec fn as_extents(es: Seq<EntryView>) -> Seq<EntryView> {
    es.map_values(|e: EntryView| EntryView::extent(e.key(), e.bch_val()))
}

/// A run without the entries whose key is that of the entry kept before.
pub open spec fn dedup(es: Seq<EntryView>) -> Seq<EntryView>
    decreases es.len(),
{
    if es.len() == 0 {
        es
    } else {
        let r = dedup(es.drop_last());
        if r.len() > 0 && r.last().key() == es.last().key() {
            r
        } else {
            r.push(es.last())
        }
    }
}

/// What three nodes hold together, in key order.
pub open spec fn pooled(a: BtreeNode, b: BtreeNode, c: BtreeNode) -> Seq<EntryView> {
    dedup(stable_sort(as_extents(a.live() + b.live() + c.live()), false))
}

/// How many of `n` extents go to the left of two nodes: three fifths, rounded up.
pub open spec fn share_left(n: int) -> int {
    let target = n * 4 * 3 / 5;
    let m = (target + 3) / 4;
    if 1 <= m < n {
        m
    } else if m < 1 {
        1
    } else {
        n / 2
    }
}

/// Adds the live entries of a node as extents to `out`.
fn push_live_extents(node: &BtreeNode, out: &mut Vec<BtreeEntry>)
    requires
        node.wf(),
    ensures
        views(final(out)@) == views(old(out)@) + as_extents(node.live()),
{
    let live: Vec<BtreeEntry> = node.collect_all_entries();
    let ghost es = node.live();
    let ghost o0 = views(out@);
    let mut i: usize = 0;
    assert(views(out@) =~= o0 + as_extents(es.take(0)));
    while i < live.len()
        invariant
            i <= live@.len(),
            es == views(live@),
            views(out@) == o0 + as_extents(es.take(i as int)),
        decreases live@.len() - i,
    {
        let (k, v) = live[i].to_legacy();
        let e = BtreeEntry::new(Bpos::from_key(&k), k.key_type, KeyValue::Extent(v));
        let ghost before = out@;
        out.push(e);
        proof {
            assert(es[i as int] == live@[i as int]@);
            assert(views(out@) =~= views(before).push(e@));
            assert(as_extents(es.take(i + 1)) =~= as_extents(es.take(i as int)).push(e@));
            assert(views(out@) =~= o0 + as_extents(es.take(i + 1)));
        }
        i = i + 1;
    }
    assert(es.take(es.len() as int) =~= es);
}

/// What three nodes hold together, in key order.
pub fn pool(a: &BtreeNode, b: &BtreeNode, c: &BtreeNode) -> (r: Vec<BtreeEntry>)
    requires
        a.wf(),
        b.wf(),
        c.wf(),
    ensures
        views(r@) == pooled(*a, *b, *c),
{
    let mut all: Vec<BtreeEntry> = Vec::new();
    assert(views(all@) =~= Seq::<EntryView>::empty());
    push_live_extents(a, &mut all);
    push_live_extents(b, &mut all);
    push_live_extents(c, &mut all);
    assert(views(all@) =~= as_extents(a.live() + b.live() + c.live()));
    let sorted: Vec<BtreeEntry> = sort_entries(all, false);
    let ghost s = views(sorted@);
    let mut out: Vec<BtreeEntry> = Vec::new();
    let mut i: usize = 0;
    assert(views(out@) =~= dedup(s.take(0)));
    while i < sorted.len()
        invariant
            i <= sorted@.len(),
            s == views(sorted@),
            views(out@) == dedup(s.take(i as int)),
        decreases sorted@.len() - i,
    {
        proof {
            assert(s.take(i + 1).drop_last() =~= s.take(i as int));
            assert(s.take(i + 1).last() == sorted@[i as int]@);
        }
        let k = BtreeKey::from_bpos(sorted[i].pos, sorted[i].key_type);
        let n: usize = out.len();
        let dup: bool = if n > 0 {
            assert(views(out@).last() == out@[n - 1]@);
            BtreeKey::from_bpos(out[n - 1].pos, out[n - 1].key_type) == k
        } else {
            false
        };
        if !dup {
            let e = sorted[i].duplicate();
            let ghost before = views(out@);
            let ghost ev = e@;
            out.push(e);
            assert(views(out@) =~= before.push(ev));
        }
        i = i + 1;
    }
    assert(s.take(s.len() as int) =~= s);
    out
}

/// What is known of pooled entries.
pub proof fn lemma_pooled(a: BtreeNode, b: BtreeNode, c: BtreeNode)
    ensures
        ordered(pooled(a, b, c), false),
        all_fit(pooled(a, b, c)),
        all_padded(pooled(a, b, c)) == pooled(a, b, c),
        total_size(pooled(a, b, c)) == 32 * pooled(a, b, c).len(),
        forall|i: int|
            0 <= i < pooled(a, b, c).len() ==> is_extent_entry(#[trigger] pooled(a, b, c)[i]),
        pooled(a, b, c).len() <= a.live().len() + b.live().len() + c.live().len(),
{
    let x = a.live() + b.live() + c.live();
    let es = as_extents(x);
    let s = stable_sort(es, false);
    lemma_stable_sort(es, false);
    assert forall|i: int| 0 <= i < s.len() implies is_extent_entry(#[trigger] s[i]) by {
        assert(s.contains(s[i]));
        let j = choose|j: int| 0 <= j < es.len() && es[j] == s[i];
        lemma_extent_size(x[j].key(), x[j].bch_val());
    }
    lemma_dedup(s);
    lemma_extent_run(dedup(s));
}

/// Whether an entry takes four u64s and needs no padding.
pub open spec fn is_extent_entry(e: EntryView) -> bool {
    e.u64s() == 4 && e.padded() == e
}

proof fn lemma_dedup(s: Seq<EntryView>)
    requires
        ordered(s, false),
        forall|i: int| 0 <= i < s.len() ==> is_extent_entry(#[trigger] s[i]),
    ensures
        ordered(dedup(s), false),
        forall|i: int| 0 <= i < dedup(s).len() ==> is_extent_entry(#[trigger] dedup(s)[i]),
        forall|i: int| 0 <= i < dedup(s).len() ==> s.contains(#[trigger] dedup(s)[i]),
        dedup(s).len() <= s.len(),
    decreases s.len(),
{
    if s.len() > 0 {
        let f = s.drop_last();
        assert forall|i: int, j: int| 0 <= i < j < f.len() implies !before(
            #[trigger] f[j],
            #[trigger] f[i],
            false,
        ) by {
            assert(!before(s[j], s[i], false));
        }
        assert forall|i: int| 0 <= i < f.len() implies is_extent_entry(#[trigger] f[i]) by {
            assert(f[i] == s[i]);
        }
        lemma_dedup(f);
        let r = dedup(f);
        let d = dedup(s);
        assert forall|i: int| 0 <= i < d.len() implies s.contains(#[trigger] d[i]) by {
            if i < r.len() {
                assert(d[i] == r[i]);
                assert(f.contains(r[i]));
                let j = choose|j: int| 0 <= j < f.len() && f[j] == r[i];
                assert(s[j] == d[i]);
            } else {
                assert(s[s.len() - 1] == d[i]);
            }
        }
        assert forall|i: int, j: int| 0 <= i < j < d.len() implies !before(
            #[trigger] d[j],
            #[trigger] d[i],
            false,
        ) by {
            if j < r.len() {
                assert(!before(r[j], r[i], false));
            } else {
                assert(d[i] == r[i]);
                assert(f.contains(r[i]));
                let m = choose|m: int| 0 <= m < f.len() && f[m] == r[i];
                assert(!before(s[s.len() - 1], s[m], false));
            }
        }
        assert forall|i: int| 0 <= i < d.len() implies is_extent_entry(#[trigger] d[i]) by {
            if i < r.len() {
                assert(d[i] == r[i]);
            } else {
                assert(d[i] == s[s.len() - 1]);
            }
        }
    }
}

pub proof fn lemma_extent_run(es: Seq<EntryView>)
    requires
        forall|i: int| 0 <= i < es.len() ==> is_extent_entry(#[trigger] es[i]),
    ensures
        all_fit(es),
        all_padded(es) == es,
        total_size(es) == 32 * es.len(),
    decreases es.len(),
{
    assert(all_padded(es) =~= es);
    if es.len() > 0 {
        let f = es.drop_last();
        assert forall|i: int| 0 <= i < f.len() implies is_extent_entry(#[trigger] f[i]) by {
            assert(f[i] == es[i]);
        }
        lemma_extent_run(f);
        assert(es =~= f.push(es.last()));
        assert(is_extent_entry(es[es.len() - 1]));
        lemma_total_push(f, es.last());
    }
}

/// How many of `n` extents go to the left of two nodes.
pub fn split_pool(n: usize) -> (r: usize)
    requires
        2 <= n <= 0x1000_0000,
    ensures
        r == share_left(n as int),
        1 <= r < n,
{
    let entry_u64s: u32 = 4;
    let total: u32 = n as u32 * entry_u64s;
    let target: u32 = total * 3 / 5;
    let mut mid: usize = n / 2;
    let mut acc: u32 = 0;
    let mut i: usize = 0;
    let mut done: bool = false;
    while i < n && !done
        invariant
            2 <= n <= 0x1000_0000,
            i <= n,
            entry_u64s == 4,
            target == n * 4 * 3 / 5,
            !done ==> acc == 4 * i,
            !done ==> mid == n / 2,
            !done && i > 1 ==> 4 * (i - 1) < target,
            done ==> mid == share_left(n as int),
            i == 0 ==> !done,
        decreases
            n - i,
            if done {
                0int
            } else {
                1int
            },
    {
        if i > 0 && acc >= target {
            mid = i;
            done = true;
        } else {
            acc = acc + entry_u64s;
            i = i + 1;
        }
    }
    mid
}

// ── routing entries of the parent ───────────────────────────────────────

impl BtreeNode {
    /// Whether `new` is this node after `delete_key(k)`.
    pub open spec fn after_delete(self, new: BtreeNode, k: BtreeKey) -> bool {
        &&& new.wf()
        &&& new.data@.len() == self.data@.len()
        &&& new == self.with_contents(new)
        &&& if self.spec_has_live_entry(k) {
            self.deleted(new, k)
        } else {
            new == self
        }
    }

    /// Whether `new` is this node after an extent entry was added where there
    /// was room, or refused.
    pub open spec fn after_insert(self, new: BtreeNode, e: EntryView) -> bool {
        if self.has_room(32) {
            self.added(new, e)
        } else {
            new.wf() && self.refused(new) && new == self.with_contents(new)
        }
    }

    /// The key of the first entry that points to `addr`.
    pub open spec fn key_to(self, addr: u64) -> Option<BtreeKey> {
        if addr_index(self.all(), addr) < self.all().len() {
            Some(self.all()[addr_index(self.all(), addr)].key())
        } else {
            None
        }
    }

    /// The key of the first entry that points to `addr`.
    fn find_key_to(&self, addr: u64) -> (r: Option<BtreeKey>)
        requires
            self.wf(),
        ensures
            r == self.key_to(addr),
    {
        proof {
            self.lemma_all();
            lemma_addr_index_range(self.all(), addr);
        }
        match find_entry_index(self, addr) {
            Some(i) => match self.read_entry_by_global_idx(i) {
                Some((k, _v)) => Some(k),
                None => None,
            },
            None => None,
        }
    }

    /// Whether `new` is this node after the slot of the first entry that points
    /// to `addr`, where there is one, was emptied: by a delete, and where that
    /// leaves a whiteout, by dropping what is left.
    pub open spec fn after_unroute(self, new: BtreeNode, addr: u64) -> bool {
        match self.key_to(addr) {
            Some(k) => exists|m: BtreeNode| #[trigger]
                self.after_delete(m, k) && (if m.shows(k) {
                    m.slot_dropped(new, k)
                } else {
                    new == m
                }),
            None => new == self,
        }
    }

    /// Empties the slot of the first entry that points to `addr`.
    fn unroute(&mut self, addr: u64)
        requires
            old(self).wf(),
        ensures
            final(self).wf(),
            old(self).after_unroute(*final(self), addr),
            *final(self) == old(self).with_contents(*final(self)),
            final(self).data@.len() == old(self).data@.len(),
    {
        match self.find_key_to(addr) {
            Some(k) => {
                let _deleted: bool = self.delete_key(&k);
                let ghost m = *self;
                assert(old(self).after_delete(m, k));
                if self.shows_slot(&k) {
                    self.drop_slot(&k);
                }
            },
            None => {},
        }
    }

    /// Whether the steps of `update_parent_routing_3to2` lead from this node
    /// over `p` to `new`: the entries of three children go, the node is
    /// compacted, and entries for the two that are left come in.
    #[verifier::opaque]
    pub open spec fn rerouted_3to2(
        self,
        new: BtreeNode,
        p: Seq<BtreeNode>,
        first: u64,
        middle: u64,
        last: u64,
        median: BtreeKey,
    ) -> bool {
        &&& p.len() == 5
        &&& self.after_unroute(p[0], first)
        &&& p[0].after_unroute(p[1], middle)
        &&& p[1].after_unroute(p[2], last)
        &&& p[2].compacted_to(p[3])
        &&& p[3].after_insert(p[4], routing(BtreeKey::spec_min_key(), first))
        &&& p[4].after_insert(new, routing(median, last))
    }

    /// Updates the routing entries of a parent after three of its children were
    /// merged into two.
    pub fn update_parent_routing_3to2(
        &mut self,
        first: u64,
        middle: u64,
        last: u64,
        median: BtreeKey,
    ) -> (r: bool)
        requires
            old(self).wf(),
        ensures
            final(self).wf(),
            r,
            exists|p: Seq<BtreeNode>| #[trigger]
                old(self).rerouted_3to2(*final(self), p, first, middle, last, median),
            *final(self) == old(self).with_contents(*final(self)),
            final(self).data@.len() == old(self).data@.len(),
    {
        let ghost n0 = *self;
        self.unroute(first);
        let ghost p0 = *self;
        self.unroute(middle);
        let ghost p1 = *self;
        self.unroute(last);
        let ghost p2 = *self;
        self.compact();
        let ghost p3 = *self;
        proof {
            lemma_extent_size(BtreeKey::spec_min_key(), BchVal::spec_new(first, 0));
            lemma_extent_size(median, BchVal::spec_new(last, 0));
        }
        let _a: bool = self.insert(BtreeKey::min_key(), BchVal::new(first, 0));
        let ghost p4 = *self;
        let _b: bool = self.insert(median, BchVal::new(last, 0));
        proof {
            let p = seq![p0, p1, p2, p3, p4];
            reveal(BtreeNode::rerouted_3to2);
            assert(n0.rerouted_3to2(*self, p, first, middle, last, median));
        }
        true
    }

    /// The smaller one of two keys, the second where they tie.
    pub open spec fn smaller_key(a: BtreeKey, b: BtreeKey) -> BtreeKey {
        if a.lt(b) {
            a
        } else {
            b
        }
    }

    /// Whether the steps of `update_parent_routing_after_merge` lead from this
    /// node over `p` to `new`: both entries go, whatever their types, the node is
    /// compacted, and one entry for the survivor comes in under the smaller key.
    #[verifier::opaque]
    pub open spec fn rerouted_after_merge(
        self,
        new: BtreeNode,
        p: Seq<BtreeNode>,
        survivor: u64,
        absorbed: u64,
        r: bool,
    ) -> bool {
        match (self.key_to(absorbed), self.key_to(survivor)) {
            (Some(ak), Some(sk)) => {
                let e = routing(BtreeNode::smaller_key(ak, sk), survivor);
                &&& p.len() == 4
                &&& self.slot_dropped(p[0], ak)
                &&& p[0].slot_dropped(p[1], sk)
                &&& p[1].after_insert(p[2], e)
                &&& if p[1].has_room(32) {
                    r && new == p[2]
                } else {
                    p[2].compacted_to(p[3]) && p[3].after_insert(new, e) && r == p[3].has_room(32)
                }
            },
            _ => r && new == self,
        }
    }

    /// Updates the routing entries of a parent after one of its children
    /// absorbed another.
    pub fn update_parent_routing_after_merge(&mut self, survivor: u64, absorbed: u64) -> (r: bool)
        requires
            old(self).wf(),
        ensures
            final(self).wf(),
            exists|p: Seq<BtreeNode>| #[trigger]
                old(self).rerouted_after_merge(*final(self), p, survivor, absorbed, r),
            *final(self) == old(self).with_contents(*final(self)),
            final(self).data@.len() == old(self).data@.len(),
    {
        let ghost n0 = *self;
        proof {
            reveal(BtreeNode::rerouted_after_merge);
        }
        let ak = match self.find_key_to(absorbed) {
            Some(k) => k,
            None => {
                assert(n0.rerouted_after_merge(*self, Seq::empty(), survivor, absorbed, true));
                return true;
            },
        };
        let sk = match self.find_key_to(survivor) {
            Some(k) => k,
            None => {
                assert(n0.rerouted_after_merge(*self, Seq::empty(), survivor, absorbed, true));
                return true;
            },
        };
        let new_key = if ak.precedes(&sk) {
            ak
        } else {
            sk
        };
        let v = BchVal::new(survivor, 0);
        proof {
            lemma_extent_size(new_key, v);
        }
        self.drop_slot(&ak);
        let ghost p0 = *self;
        self.drop_slot(&sk);
        let ghost p1 = *self;
        let added: bool = self.insert(new_key, v);
        let ghost p2 = *self;
        if added {
            proof {
                let p = seq![p0, p1, p2, p2];
                assert(n0.rerouted_after_merge(*self, p, survivor, absorbed, true));
            }
            return true;
        }
        self.compact();
        let ghost p3 = *self;
        let r = self.insert(new_key, v);
        proof {
            let p = seq![p0, p1, p2, p3];
            assert(n0.rerouted_after_merge(*self, p, survivor, absorbed, r));
        }
        r
    }
}

} // verus!
