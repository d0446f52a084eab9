//! Paths of iterators: rebuilding them, and starting over.

use crate::btree::seek_in;
use crate::cache::NodeCache;
use crate::iter::{
    lemma_links_push, lemma_links_same, links, BtreeIter, BtreeNodeLockedType, BtreePathLevel,
    BtreeRoot,
};
use crate::key::{BchVal, Bpos, BtreeKey};
use crate::node::BtreeNode;
use crate::node_io::{bpos_text, push_bpos};
use crate::route::route;
use crate::text::push_text;
use crate::walk::{count_of, lemma_child_no, look};
use vstd::prelude::*;

verus! {

/// The node that a descent for `k` from `top` comes to after `i` steps.
pub open spec fn descent_from(
    m: Map<u64, BtreeNode>,
    top: Option<BtreeNode>,
    k: BtreeKey,
    i: int,
) -> Option<BtreeNode>
    decreases i,
{
    if i <= 0 {
        top
    } else {
        look(m, route(descent_from(m, top, k, i - 1), k).0)
    }
}

/// A copy of a path, for those who follow an iterator.
pub struct SharedBtreePath<'a> {
    pub path: Vec<BtreePathLevel<'a>>,
    /// How often the copy was renewed.
    pub generation: u64,
}

pub fn copy_path<'a>(path: &[BtreePathLevel<'a>]) -> (r: Vec<BtreePathLevel<'a>>)
    ensures
        r@ == path@,
{
    let mut out: Vec<BtreePathLevel<'a>> = Vec::new();
    let mut i: usize = 0;
    while i < path.len()
        invariant
            i <= path@.len(),
            out@ =~= path@.take(i as int),
        decreases path@.len() - i,
    {
        out.push(path[i]);
        i = i + 1;
    }
    assert(path@.take(path@.len() as int) =~= path@);
    out
}

impl<'a> SharedBtreePath<'a> {
    pub fn new(path: &[BtreePathLevel<'a>]) -> (r: SharedBtreePath<'a>)
        ensures
            r.path@ == path@,
            r.generation == 0,
    {
        SharedBtreePath { path: copy_path(path), generation: 0 }
    }

    /// Renews the copy.
    pub fn refresh(&mut self, path: &[BtreePathLevel<'a>])
        ensures
            final(self).path@ == path@,
            final(self).generation == (old(self).generation + 1) % 0x1_0000_0000_0000_0000,
    {
        self.path = copy_path(path);
        self.generation = self.generation.wrapping_add(1);
    }

    pub fn snapshot(&self) -> (r: Vec<BtreePathLevel<'a>>)
        ensures
            r@ == self.path@,
    {
        copy_path(self.path.as_slice())
    }

    pub fn generation(&self) -> (r: u64)
        ensures
            r == self.generation,
    {
        self.generation
    }
}

impl<'a> BtreeIter<'a> {
    /// Another iterator at the same place.
    pub fn fork_shared_path(&self) -> (r: BtreeIter<'a>)
        requires
            self.wf(),
        ensures
            r.wf(),
            r.path@ == self.path@,
            r.snapshot_visible_cache@ == self.snapshot_visible_cache@,
            r == (BtreeIter {
                path: r.path,
                snapshot_visible_cache: r.snapshot_visible_cache,
                ..*self
            }),
            r.rest() == self.rest(),
    {
        let mut seen: Vec<(u32, u32, bool)> = Vec::new();
        let mut i: usize = 0;
        while i < self.snapshot_visible_cache.len()
            invariant
                i <= self.snapshot_visible_cache@.len(),
                seen@ =~= self.snapshot_visible_cache@.take(i as int),
            decreases self.snapshot_visible_cache@.len() - i,
        {
            seen.push(self.snapshot_visible_cache[i]);
            i = i + 1;
        }
        assert(self.snapshot_visible_cache@.take(
            self.snapshot_visible_cache@.len() as int,
        ) =~= self.snapshot_visible_cache@);
        BtreeIter {
            path: copy_path(self.path.as_slice()),
            pos: self.pos,
            flags: self.flags,
            had_restart: self.had_restart,
            cache: self.cache,
            snapshot: self.snapshot,
            btree_type: self.btree_type,
            depth: self.depth,
            snapshot_visible_cache: seen,
            overlay: self.overlay,
        }
    }

    /// Whether the path still leads to the position: it ends at the root, or at
    /// a node whose range has the position.
    pub open spec fn path_holds(self) -> bool {
        let p = Bpos::spec_from_key(self.pos);
        self.path@.len() == 1 || (self.path@.last().node matches Some(n) && !p.lt(n.min_key)
            && !n.max_key.lt(p) && !n.max_key.lt(n.min_key))
    }

    /// Whether `new` is this iterator with its path rebuilt below the root: down
    /// to the leaf for the position, where that seeks it.
    pub open spec fn rebuilt(self, new: BtreeIter<'a>) -> bool {
        let m = self.cache.nodes@;
        let top = self.path@[0].view_node();
        let d = self.depth as int;
        &&& new.moved_from(self)
        &&& new.in_leaf()
        &&& new.pos_ok()
        &&& new.current() is None ==> new.pos == self.pos
        &&& new.path@[0] == (if d == 0 {
            BtreePathLevel { offset: new.path@[0].offset, ..self.path@[0] }
        } else {
            self.path@[0]
        })
        &&& new.path@[d].offset == seek_in(descent_from(m, top, self.pos, d), self.pos)
        &&& forall|i: int|
            1 <= i <= d ==> ({
                let l = #[trigger] new.path@[i];
                &&& l.view_node() == descent_from(m, top, self.pos, i)
                &&& l.child_idx == route(descent_from(m, top, self.pos, i - 1), self.pos).1
                &&& l.lock_state == BtreeNodeLockedType::Read
                &&& l.locked_seq == l.lock_seq()
                &&& i < d ==> l.offset == 0
            })
    }

    /// Goes down anew from the root to the position.
    fn full_traverse(&mut self) -> (r: bool)
        requires
            old(self).wf(),
            old(self).path@.len() > 0,
        ensures
            final(self).wf(),
            r,
            old(self).rebuilt(*final(self)),
            old(self).linked() ==> final(self).linked(),
    {
        let ghost s0 = *self;
        let ghost m = self.cache.nodes@;
        let target = self.pos;
        let top = self.path[0];
        let ghost t = top.view_node();
        let mut path: Vec<BtreePathLevel<'a>> = Vec::new();
        let mut cur = top;
        let mut i: u8 = 0;
        proof {
            reveal(links);
        }
        while i < self.depth
            invariant
                *self == s0,
                s0.wf(),
                s0.path@.len() > 0,
                m == self.cache.nodes@,
                t == s0.path@[0].view_node(),
                target == self.pos,
                i <= self.depth,
                path@.len() == i,
                cur.wf(),
                cur.view_node() == descent_from(m, t, target, i as int),
                i == 0 ==> cur == s0.path@[0],
                i > 0 ==> path@[0] == s0.path@[0] && cur.child_idx == route(
                    descent_from(m, t, target, i - 1),
                    target,
                ).1 && cur.lock_state == BtreeNodeLockedType::Read && cur.locked_seq
                    == cur.lock_seq() && cur.offset == 0,
                forall|j: int| 0 <= j < path@.len() ==> (#[trigger] path@[j]).wf(),
                s0.linked() ==> links(m, path@.push(cur)),
                forall|j: int|
                    1 <= j < i ==> ({
                        let l = #[trigger] path@[j];
                        &&& l.view_node() == descent_from(m, t, target, j)
                        &&& l.child_idx == route(descent_from(m, t, target, j - 1), target).1
                        &&& l.lock_state == BtreeNodeLockedType::Read
                        &&& l.offset == 0
                        &&& l.locked_seq == l.lock_seq()
                    }),
            decreases self.depth - i,
        {
            let (addr, child_idx) = cur.find_child(&target);
            let child = self.cache.get(addr);
            let ghost above = cur.view_node();
            path.push(cur);
            cur = BtreePathLevel::locked(child, 0, child_idx);
            assert(cur.view_node() == look(m, addr));
            proof {
                lemma_child_no(m, above, target);
                if s0.linked() {
                    lemma_links_push(m, path@, cur);
                }
            }
            i = i + 1;
        }
        let min = BtreeKey::min_key();
        let offset: u16 = match cur.node {
            Some(n) => n.seek(&target),
            None => if target.vaddr == min.vaddr && target.snapshot_id == min.snapshot_id
                && target.key_type == min.key_type {
                1
            } else {
                0
            },
        };
        let ghost p1 = path@.push(cur);
        path.push(BtreePathLevel { offset, ..cur });
        proof {
            if s0.linked() {
                lemma_links_same(m, p1, path@);
            }
        }
        let found = cur.read(offset);
        self.path = path;
        if let Some((k, _v)) = found {
            self.pos = k;
        }
        proof {
            assert(self.path@.last() == self.path@[self.depth as int]);
        }
        true
    }

    /// Makes sure that the path leads to the position, and rebuilds it below
    /// the root where it does not. False for an iterator without a path.
    pub fn traverse(&mut self) -> (r: bool)
        requires
            old(self).wf(),
        ensures
            final(self).wf(),
            r == (old(self).path@.len() > 0),
            !r || old(self).path_holds() ==> *final(self) == *old(self),
            r && !old(self).path_holds() ==> old(self).rebuilt(*final(self)),
            old(self).linked() ==> final(self).linked(),
    {
        let n: usize = self.path.len();
        if n == 0 {
            return false;
        }
        if n == 1 {
            return true;
        }
        let p = Bpos::from_key(&self.pos);
        match self.path[n - 1].node {
            Some(leaf) => {
                if !leaf.max_key.precedes(&leaf.min_key) && !p.precedes(&leaf.min_key)
                    && !leaf.max_key.precedes(&p) {
                    return true;
                }
            },
            None => {},
        }
        self.full_traverse()
    }

    /// Whether `new` is an iterator that was started over at the position of
    /// this one.
    pub open spec fn restarted(self, new: BtreeIter<'a>, root: BtreeRoot) -> bool {
        &&& new.wf()
        &&& new.had_restart
        &&& new.cache == self.cache
        &&& new.btree_type == self.btree_type
        &&& new.overlay is None
        &&& new.snapshot == 0
        &&& new.snapshot_visible_cache@.len() == 0
        &&& new.starts_at(root, self.pos, self.flags, *self.cache)
    }

    /// Starts over at the root.
    pub fn restart(&mut self, root: &'a BtreeRoot)
        requires
            old(self).wf(),
            root.node.wf(),
        ensures
            final(self).wf(),
            old(self).restarted(*final(self), *root),
            final(self).linked(),
    {
        let ghost s0 = *self;
        let pos = self.pos;
        let cache: &'a NodeCache = self.cache;
        let mut it = BtreeIter::init(root, &pos, self.flags, cache, self.btree_type, None);
        let ghost i0 = it;
        it.had_restart = true;
        proof {
            assert(it.current() == i0.current());
        }
        *self = it;
    }

    /// The sequence number that the lock of the node number `i` of the path has
    /// now; the root is the one given.
    pub open spec fn seq_now(self, root: BtreeRoot, i: int) -> u64 {
        if i == 0 {
            root.node.lock.seq
        } else {
            self.path@[i].lock_seq()
        }
    }

    /// Whether no locked node of the path was written since it was locked, and
    /// the leaf was not written in any case.
    pub open spec fn unchanged(self, root: BtreeRoot) -> bool {
        &&& self.path@.len() > 0
        &&& self.seq_now(root, self.path@.len() - 1) == self.path@.last().locked_seq
        &&& forall|i: int|
            0 <= i < self.path@.len() ==> (#[trigger] self.path@[i]).lock_state
                == BtreeNodeLockedType::Unlocked || self.seq_now(root, i)
                == self.path@[i].locked_seq
    }

    fn is_unchanged(&self, root: &BtreeRoot) -> (r: bool)
        ensures
            r == self.unchanged(*root),
    {
        let n: usize = self.path.len();
        if n == 0 {
            return false;
        }
        let mut i: usize = 0;
        while i < n
            invariant
                i <= n == self.path@.len(),
                forall|j: int|
                    0 <= j < i ==> (#[trigger] self.path@[j]).lock_state
                        == BtreeNodeLockedType::Unlocked || self.seq_now(*root, j)
                        == self.path@[j].locked_seq,
                i == n ==> self.seq_now(*root, n - 1) == self.path@.last().locked_seq,
            decreases n - i,
        {
            let l = self.path[i];
            let seq: u64 = if i == 0 {
                root.node.lock.seq
            } else {
                match l.node {
                    Some(node) => node.lock.seq,
                    None => 0,
                }
            };
            assert(seq == self.seq_now(*root, i as int));
            let held: bool = l.lock_state != BtreeNodeLockedType::Unlocked;
            if seq != l.locked_seq && (held || i == n - 1) {
                return false;
            }
            i = i + 1;
        }
        true
    }

    /// Whether `new` is this iterator with no node of its path locked.
    pub open spec fn all_unlocked(self, new: BtreeIter<'a>) -> bool {
        &&& new == (BtreeIter { path: new.path, had_restart: false, ..self })
        &&& new.path@.len() == self.path@.len()
        &&& forall|i: int|
            0 <= i < self.path@.len() ==> #[trigger] new.path@[i] == (BtreePathLevel {
                lock_state: BtreeNodeLockedType::Unlocked,
                ..self.path@[i]
            })
    }

    /// Starts over only where a node of the path was written since it was
    /// locked; else just gives up the locks. Returns whether it started over.
    pub fn restart_optimized(&mut self, root: &'a BtreeRoot) -> (r: bool)
        requires
            old(self).wf(),
            root.node.wf(),
        ensures
            final(self).wf(),
            r == !old(self).unchanged(*root),
            r ==> old(self).restarted(*final(self), *root),
            !r ==> old(self).all_unlocked(*final(self)),
    {
        if !self.is_unchanged(root) {
            self.restart(root);
            return true;
        }
        let ghost s0 = *self;
        let n: usize = self.path.len();
        let mut i: usize = 0;
        while i < n
            invariant
                i <= n == self.path@.len(),
                n == s0.path@.len(),
                *self == (BtreeIter { path: self.path, ..s0 }),
                forall|j: int| i <= j < n ==> #[trigger] self.path@[j] == s0.path@[j],
                forall|j: int|
                    0 <= j < i ==> #[trigger] self.path@[j] == (BtreePathLevel {
                        lock_state: BtreeNodeLockedType::Unlocked,
                        ..s0.path@[j]
                    }),
            decreases n - i,
        {
            let l = self.path[i];
            self.path.set(i, BtreePathLevel { lock_state: BtreeNodeLockedType::Unlocked, ..l });
            i = i + 1;
        }
        self.had_restart = false;
        proof {
            assert forall|j: int| 0 <= j < self.path@.len() implies (#[trigger] self.path@[j]).wf() by {
                assert(s0.path@[j].wf());
            }
        }
        false
    }

    /// The number of keys of the last node of the path.
    pub fn leaf_key_count(&self) -> (r: u32)
        ensures
            r == (if self.path@.len() > 0 {
                count_of(self.path@.last().view_node())
            } else {
                0
            }),
    {
        let n: usize = self.path.len();
        if n == 0 {
            return 0;
        }
        self.path[n - 1].key_count()
    }

    /// Whether the path ends at a leaf.
    pub fn at_leaf(&self) -> (r: bool)
        ensures
            r == (self.path@.len() > 0 && match self.path@.last().node {
                Some(n) => n.level == 0,
                None => self.in_leaf(),
            }),
    {
        let n: usize = self.path.len();
        if n == 0 {
            return false;
        }
        match self.path[n - 1].node {
            Some(node) => node.level == 0,
            None => n == self.depth as usize + 1,
        }
    }

    /// Shows only what the snapshot `sid` sees from now on.
    pub fn set_snapshot_filter(&mut self, sid: u32)
        requires
            old(self).wf(),
        ensures
            final(self).wf(),
            *final(self) == (BtreeIter {
                snapshot: sid,
                snapshot_visible_cache: final(self).snapshot_visible_cache,
                ..*old(self)
            }),
            old(self).snapshot == sid ==> *final(self) == *old(self),
            old(self).snapshot != sid ==> final(self).snapshot_visible_cache@.len() == 0,
            final(self).rest() == old(self).rest(),
    {
        if self.snapshot != sid {
            self.snapshot = sid;
            self.snapshot_visible_cache = Vec::new();
        }
    }

    pub fn bch2_btree_iter_peek(&self) -> (r: Option<(BtreeKey, BchVal)>)
        requires
            self.wf(),
        ensures
            r == self.spec_peek(),
    {
        self.peek()
    }

    pub fn bch2_btree_iter_peek_slot(&self) -> (r: Option<(BtreeKey, BchVal)>)
        requires
            self.wf(),
        ensures
            r == self.spec_peek(),
    {
        self.peek()
    }

    /// Moves on by one entry and returns it.
    pub fn next(&mut self) -> (r: Option<(BtreeKey, BchVal)>)
        requires
            old(self).wf(),
        ensures
            final(self).wf(),
            exists|ok: bool| #[trigger]
                old(self).stepped(*final(self), ok) && r == (if ok {
                    final(self).spec_peek()
                } else {
                    None
                }),
    {
        let ok = self.advance();
        if ok {
            self.peek()
        } else {
            None
        }
    }

    pub fn next_slot(&mut self) -> (r: Option<(BtreeKey, BchVal)>)
        requires
            old(self).wf(),
        ensures
            final(self).wf(),
            exists|ok: bool| #[trigger]
                old(self).stepped(*final(self), ok) && r == (if ok {
                    final(self).spec_peek()
                } else {
                    None
                }),
    {
        self.next()
    }

    /// The current entry, if it does not lie behind `end`.
    pub fn peek_max(&self, end: &Bpos) -> (r: Option<(BtreeKey, BchVal)>)
        requires
            self.wf(),
        ensures
            r == (match self.spec_peek() {
                Some(kv) => if end.lt(Bpos::spec_from_key(kv.0)) {
                    None
                } else {
                    Some(kv)
                },
                None => None,
            }),
    {
        match self.peek() {
            Some((k, v)) => if end.precedes(&Bpos::from_key(&k)) {
                None
            } else {
                Some((k, v))
            },
            None => None,
        }
    }

    /// The position, as text.
    pub fn to_text(&self) -> (r: String)
        ensures
            r@ == "BtreeIter[pos="@ + bpos_text(Bpos::spec_from_key(self.pos)) + "]"@,
    {
        let mut s = String::new();
        push_text(&mut s, "BtreeIter[pos=");
        push_bpos(&mut s, &Bpos::from_key(&self.pos));
        push_text(&mut s, "]");
        assert(s@ =~= "BtreeIter[pos="@ + bpos_text(Bpos::spec_from_key(self.pos)) + "]"@);
        s
    }
}

} // verus!
