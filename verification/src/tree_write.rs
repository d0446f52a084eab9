//! Inserting keys and entries into a tree.

use crate::btree::{capped, Btree};
use crate::error::StorageError;
use crate::iter::BtreeRoot;
use crate::key::{BchVal, Bpos, BtreeEntry, BtreeKey, EntryView, ADDR48_LIMIT};
use crate::node::BtreeNode;
use crate::node_split::should_split;
use crate::packed::total_size;
use crate::run::undeleted;
use crate::trans::{BtreeTrans, RestartReason};
use crate::tree_insert::{split_halves, split_key};
use crate::walk::descent_node;
use vstd::prelude::*;

verus! {

/// What came of adding a key to a leaf.
#[derive(Clone, Copy, Debug)]
pub enum LeafStep {
    /// The leaf is not cached.
    Missing,
    Done,
    /// The leaf is over its share or full.
    NeedsSplit,
}

/// Whether a leaf is over three quarters of its size.
pub open spec fn over_share(n: BtreeNode) -> bool {
    total_size(n.all()) / 8 > (n.node_size as int / 8) * 3 / 4
}

impl Btree {
    /// Whether `new` is this tree with the same nodes, marks and addresses.
    pub open spec fn same_nodes(self, new: Btree) -> bool {
        &&& self.same_but_nodes(new)
        &&& new.root == self.root
        &&& new.root_modified == self.root_modified
        &&& new.nodes() == self.nodes()
        &&& new.cache.next_addr == self.cache.next_addr
        &&& new.cache.dirty@ == self.cache.dirty@
    }

    /// One more key; the counter stays at its maximum.
    pub open spec fn one_more_key(self) -> u32 {
        capped(self.total_key_count + 1)
    }

    /// Whether adding a key to the leaf at `a` alone turned this tree into
    /// `new`, with the outcome `step`.
    pub open spec fn leaf_step(
        self,
        new: Btree,
        a: u64,
        e: EntryView,
        seq: u64,
        step: LeafStep,
    ) -> bool {
        let leaf = self.nodes()[a];
        match step {
            LeafStep::Missing => !self.nodes().contains_key(a) && self.same_nodes(new),
            LeafStep::Done => self.nodes().contains_key(a) && !over_share(leaf) && exists|
                n: BtreeNode,
            |
                leaf.grown(n, e, true) && #[trigger] self.node_replaced(
                    Btree { total_key_count: self.total_key_count, ..new },
                    a,
                    BtreeNode { journal_seq: seq, ..n },
                    true,
                ) && new.total_key_count == self.one_more_key(),
            LeafStep::NeedsSplit => self.nodes().contains_key(a) && exists|n: BtreeNode|
                (if over_share(leaf) {
                    n == leaf
                } else {
                    leaf.full(n, 32, true)
                }) && #[trigger] self.node_replaced(new, a, n, false),
        }
    }

    /// Adds a key to the leaf at `a` where that is neither over its share nor full.
    fn insert_in_leaf(&mut self, a: u64, key: BtreeKey, value: BchVal, journal_seq: u64) -> (r:
        LeafStep)
        requires
            old(self).wf(),
        ensures
            final(self).wf(),
            old(self).leaf_step(*final(self), a, EntryView::extent(key, value), journal_seq, r),
            old(self).grew_within(*final(self), 0),
    {
        let ghost t0 = *self;
        let mut leaf = match self.cache.take_node(a) {
            Some(n) => n,
            None => {
                assert(self.nodes() =~= t0.nodes());
                return LeafStep::Missing;
            },
        };
        let live_u64s: u32 = leaf.total_data_bytes() / 8;
        if should_split(live_u64s, leaf.node_size) {
            let ghost n = leaf;
            self.cache.put_node(a, leaf);
            proof {
                assert(self.nodes() =~= t0.nodes().insert(a, n));
                assert(t0.node_replaced(*self, a, n, false));
            }
            return LeafStep::NeedsSplit;
        }
        if leaf.insert_compacting(key, value, true) {
            let ghost n = leaf;
            leaf.set_journal_seq(journal_seq);
            let ghost n2 = leaf;
            self.cache.insert_dirty(a, leaf);
            self.total_key_count = self.total_key_count.saturating_add(1);
            proof {
                assert(self.nodes() =~= t0.nodes().insert(a, n2));
                assert(t0.node_replaced(
                    Btree { total_key_count: t0.total_key_count, ..*self },
                    a,
                    BtreeNode { journal_seq, ..n },
                    true,
                ));
            }
            return LeafStep::Done;
        }
        let ghost n = leaf;
        self.cache.put_node(a, leaf);
        proof {
            assert(self.nodes() =~= t0.nodes().insert(a, n));
            assert(t0.node_replaced(*self, a, n, false));
        }
        LeafStep::NeedsSplit
    }

    /// Splits the node at `a`, with `e` added to the half that its key belongs
    /// to; returns the first key and the address of the right half. Nothing,
    /// with nothing changed, for fewer than two live entries.
    fn split_cached(&mut self, a: u64, e: (BtreeKey, BchVal), journal_seq: u64) -> (r: Option<
        (BtreeKey, u64),
    >)
        requires
            old(self).wf(),
            old(self).nodes().contains_key(a),
            old(self).cache.next_addr + 1 <= ADDR48_LIMIT,
        ensures
            final(self).wf(),
            r is Some == (old(self).nodes()[a].live().len() >= 2),
            r is None ==> old(self).same_nodes(*final(self)),
            r matches Some((median, ra)) ==> median == split_key(old(self).nodes()[a]) && ra == old(
                self,
            ).cache.next_addr && exists|left: BtreeNode, right: BtreeNode|
                split_halves(old(self).nodes()[a], left, right, Some(e), Some(journal_seq))
                    && #[trigger] old(self).node_split(*final(self), a, left, right),
            old(self).grew_within(*final(self), 1),
    {
        let ghost t0 = *self;
        let mut leaf = self.cache.take_node(a).unwrap();
        let ghost n0 = leaf;
        match leaf.split_adding(Some(e), Some(journal_seq)) {
            None => {
                self.cache.put_node(a, leaf);
                assert(self.nodes() =~= t0.nodes());
                None
            },
            Some((median, right)) => {
                let ghost gl = leaf;
                let ghost gr = right;
                let ra: u64 = self.cache.alloc_addr();
                self.cache.insert_dirty(ra, right);
                self.cache.insert_dirty(a, leaf);
                proof {
                    assert(self.nodes() =~= t0.nodes().insert(ra, gr).insert(a, gl));
                    assert(t0.node_split(*self, a, gl, gr));
                }
                Some((median, ra))
            },
        }
    }

    /// The place of the last node of a path; 0 for an empty path.
    pub open spec fn last_place(path: Seq<u64>) -> int {
        if path.len() > 0 {
            path.len() - 1
        } else {
            0
        }
    }

    /// Whether this tree, with the locks held and the leaf at `a` split into
    /// `left` and `right` (`halves`), became `done` by routing to the right
    /// half, and `new` by letting the locks go.
    pub open spec fn split_routed(
        self,
        new: Btree,
        halves: Btree,
        done: Btree,
        left: BtreeNode,
        right: BtreeNode,
        a: u64,
        e: (BtreeKey, BchVal),
        path: Seq<u64>,
        seq: u64,
        r: bool,
    ) -> bool {
        let held = Btree { write_blocked: true, commit_lock: true, ..self };
        let leaf = self.nodes()[a];
        let counted = Btree { total_key_count: self.one_more_key(), ..halves };
        &&& split_halves(leaf, left, right, Some(e), Some(seq))
        &&& held.node_split(halves, a, left, right)
        &&& counted.routed(
            done,
            split_key(leaf),
            self.cache.next_addr,
            path,
            Btree::last_place(path),
            seq,
            r,
        )
        &&& new == (Btree { write_blocked: false, commit_lock: false, cache: new.cache, ..done })
        &&& new.cache.dirty@ == done.cache.dirty@
        &&& new.cache.next_addr == done.cache.next_addr
        &&& new.nodes() == (if r {
            done.nodes()
        } else {
            done.nodes().remove(self.cache.next_addr)
        })
    }

    /// Whether the split of the leaf at `a` and the routing entry for its right
    /// half turned this tree into `new`, with the result `r`.
    pub open spec fn leaf_was_split(
        self,
        new: Btree,
        a: u64,
        e: (BtreeKey, BchVal),
        path: Seq<u64>,
        seq: u64,
        r: bool,
    ) -> bool {
        if self.nodes()[a].live().len() < 2 {
            !r && Btree { write_blocked: false, commit_lock: false, ..self }.same_nodes(new)
        } else {
            exists|halves: Btree, done: Btree, left: BtreeNode, right: BtreeNode| #[trigger]
                self.split_routed(new, halves, done, left, right, a, e, path, seq, r)
        }
    }

    /// Splits the leaf at `a` under the locks, adds the key to its half and
    /// the routing entry for the right half to its parents. Where that fails
    /// the right half is given up.
    fn split_leaf_and_route(
        &mut self,
        a: u64,
        e: (BtreeKey, BchVal),
        path: &Vec<u64>,
        journal_seq: u64,
    ) -> (r: bool)
        requires
            old(self).wf(),
            old(self).can_grow(),
            old(self).nodes().contains_key(a),
            path@.len() <= 255,
        ensures
            final(self).wf(),
            old(self).leaf_was_split(*final(self), a, e, path@, journal_seq, r),
            old(self).kept(*final(self)),
            old(self).grew_within(*final(self), 258),
    {
        let ghost t0 = *self;
        self.write_blocked = true;
        self.commit_lock = true;
        let ghost held = *self;
        assert(held == Btree { write_blocked: true, commit_lock: true, ..t0 });
        match self.split_cached(a, e, journal_seq) {
            None => {
                self.write_blocked = false;
                self.commit_lock = false;
                false
            },
            Some((median, ra)) => {
                let ghost halves = *self;
                self.total_key_count = self.total_key_count.saturating_add(1);
                let ghost counted = *self;
                assert(counted == Btree { total_key_count: t0.one_more_key(), ..halves });
                let pos: usize = if path.len() > 0 {
                    path.len() - 1
                } else {
                    0
                };
                let r = self.insert_routing_entry_at(median, ra, path, pos, journal_seq);
                let ghost done = *self;
                if !r {
                    let _gone = self.cache.take_node(ra);
                }
                self.write_blocked = false;
                self.commit_lock = false;
                proof {
                    let (left, right) = choose|left: BtreeNode, right: BtreeNode|
                        split_halves(held.nodes()[a], left, right, Some(e), Some(journal_seq))
                            && #[trigger] held.node_split(halves, a, left, right);
                    assert(t0.split_routed(
                        *self,
                        halves,
                        done,
                        left,
                        right,
                        a,
                        e,
                        path@,
                        journal_seq,
                        r,
                    ));
                }
                r
            },
        }
    }

    /// Whether `insert_multi` turned this tree into `new`, with the result `r`.
    pub open spec fn inserted_multi(
        self,
        new: Btree,
        key: BtreeKey,
        value: BchVal,
        seq: u64,
        r: bool,
    ) -> bool {
        let a = self.leaf_addr(key);
        let e = EntryView::extent(key, value);
        if self.write_blocked || self.root.depth == 0 {
            !r && new == self
        } else {
            ||| !r && self.leaf_step(new, a, e, seq, LeafStep::Missing)
            ||| r && self.leaf_step(new, a, e, seq, LeafStep::Done)
            ||| !r && self.commit_lock && self.leaf_step(new, a, e, seq, LeafStep::NeedsSplit)
            ||| !self.commit_lock && exists|mid: Btree| #[trigger]
                self.leaf_step(mid, a, e, seq, LeafStep::NeedsSplit) && mid.leaf_was_split(
                    new,
                    a,
                    (key, value),
                    self.spec_path(key),
                    seq,
                    r,
                )
        }
    }

    /// Adds a key to the leaf for it, in a tree with levels below its root. A
    /// leaf over three quarters of its size, or full even compacted, is split.
    /// False while another change is under way, or where the leaf is missing
    /// or cannot be split.
    pub fn insert_multi(&mut self, key: BtreeKey, value: BchVal, journal_seq: u64) -> (r: bool)
        requires
            old(self).wf(),
            old(self).can_grow(),
        ensures
            final(self).wf(),
            old(self).inserted_multi(*final(self), key, value, journal_seq, r),
            old(self).kept(*final(self)),
            old(self).grew_within(*final(self), 258),
    {
        let ghost t0 = *self;
        if self.write_blocked {
            return false;
        }
        let mut path: Vec<u64> = Vec::new();
        let a: u64 = match self.find_path_to_leaf(&key, &mut path) {
            Some(a) => a,
            None => {
                return false;
            },
        };
        match self.insert_in_leaf(a, key, value, journal_seq) {
            LeafStep::Missing => {
                return false;
            },
            LeafStep::Done => {
                return true;
            },
            LeafStep::NeedsSplit => {},
        }
        if self.commit_lock {
            return false;
        }
        self.split_leaf_and_route(a, (key, value), &path, journal_seq)
    }

    /// Whether adding a key to the tree turned it into `new`, with the result
    /// `r`: to the root where it is a leaf, which is compacted and then split
    /// where it is full, else to the leaf for the key.
    pub open spec fn tree_inserted(
        self,
        new: Btree,
        key: BtreeKey,
        value: BchVal,
        seq: u64,
        keep_aux: bool,
        r: bool,
    ) -> bool {
        if self.root.depth == 0 {
            ||| r && exists|n: BtreeNode| #[trigger]
                self.root_took(new, n, EntryView::extent(key, value), seq, keep_aux)
            ||| exists|mid: Btree| #[trigger]
                self.root_full(mid, keep_aux) && mid.root_split_counted(
                    new,
                    Some((key, value)),
                    seq,
                    r,
                )
        } else {
            self.inserted_multi(new, key, value, seq, r)
        }
    }

    /// Whether `new` is this tree with `e` added to its root, which was `n`
    /// before it was put under the journal entry `seq`. Without `keep_aux` it
    /// stays under the journal entry that it was under.
    pub open spec fn root_took(
        self,
        new: Btree,
        n: BtreeNode,
        e: EntryView,
        seq: u64,
        keep_aux: bool,
    ) -> bool {
        &&& self.root.node.grown(n, e, keep_aux)
        &&& new == (Btree {
            root: BtreeRoot {
                node: BtreeNode {
                    journal_seq: if keep_aux {
                        seq
                    } else {
                        n.journal_seq
                    },
                    ..n
                },
                ..self.root
            },
            total_key_count: self.one_more_key(),
            root_modified: true,
            ..self
        })
    }

    /// Whether `mid` is this tree after its root took no extent even compacted.
    pub open spec fn root_full(self, mid: Btree, keep_aux: bool) -> bool {
        &&& mid == (Btree { root: BtreeRoot { node: mid.root.node, ..self.root }, ..self })
        &&& if keep_aux {
            self.root.node.full(mid.root.node, 32, true)
        } else {
            self.root.node.full_stripped(mid.root.node, 32)
        }
    }

    /// Whether splitting the root and counting one more key turned this tree
    /// into `new`; nothing changes for fewer than two live entries.
    pub open spec fn root_split_counted(
        self,
        new: Btree,
        e: Option<(BtreeKey, BchVal)>,
        seq: u64,
        r: bool,
    ) -> bool {
        if self.root.node.live().len() < 2 {
            !r && new == self
        } else {
            r && new.total_key_count == self.one_more_key() && exists|
                left: BtreeNode,
                right: BtreeNode,
            | #[trigger]
                self.root_split(
                    Btree { total_key_count: self.total_key_count, ..new },
                    e,
                    seq,
                    left,
                    right,
                )
        }
    }

    /// Whether `new` is this tree after a write at `pos` was rounded off: a
    /// leaf that is a root with a place on disk is cached under its address,
    /// and the key cache drops the position.
    pub open spec fn rounded_off(self, new: Btree, pos: Bpos) -> bool {
        &&& self.root_cached(new)
        &&& self.key_cache.invalidated(new.key_cache, pos)
    }

    /// Whether `new` is this tree with a root that is a leaf with a place on
    /// disk cached under its address, but for the key cache.
    pub open spec fn root_cached(self, new: Btree) -> bool {
        &&& new == (Btree { cache: new.cache, key_cache: new.key_cache, ..self })
        &&& new.cache.dirty@ == self.cache.dirty@
        &&& if self.root.depth == 0 && self.root.ptr.spec_is_valid() {
            let a = self.root.ptr.block_addr;
            &&& new.cache.next_addr == self.cache.next_after(a)
            &&& new.nodes().contains_key(a)
            &&& self.root.node.is_shared(new.nodes()[a])
            &&& new.nodes() == self.nodes().insert(a, new.nodes()[a])
        } else {
            new.nodes() == self.nodes() && new.cache.next_addr == self.cache.next_addr
        }
    }

    /// Caches a root that is a leaf with a place on disk.
    fn cache_root(&mut self)
        requires
            old(self).wf(),
            old(self).root.depth == 0 ==> old(self).root.ptr.block_addr < u64::MAX,
        ensures
            final(self).wf(),
            old(self).root_cached(*final(self)),
            final(self).key_cache == old(self).key_cache,
    {
        let ghost t0 = *self;
        if self.root.depth == 0 && self.root.ptr.is_valid() {
            let copy = self.root.node.share();
            self.cache.insert(self.root.ptr.block_addr, copy);
            assert(self.nodes()[t0.root.ptr.block_addr] == copy);
        }
    }

    /// Adds a key without touching the key cache.
    fn insert_in_tree(&mut self, key: BtreeKey, value: BchVal, journal_seq: u64, keep_aux: bool) -> (r:
        bool)
        requires
            old(self).wf(),
            old(self).can_grow(),
        ensures
            final(self).wf(),
            old(self).tree_inserted(*final(self), key, value, journal_seq, keep_aux, r),
            old(self).kept(*final(self)),
            old(self).grew_within(*final(self), 258),
    {
        let ghost t0 = *self;
        if self.root.depth > 0 {
            return self.insert_multi(key, value, journal_seq);
        }
        if self.root.node.insert_compacting(key, value, keep_aux) {
            let ghost n = self.root.node;
            if keep_aux {
                self.root.node.set_journal_seq(journal_seq);
            }
            self.total_key_count = self.total_key_count.saturating_add(1);
            self.root_modified = true;
            proof {
                assert(t0.root_took(
                    *self,
                    n,
                    EntryView::extent(key, value),
                    journal_seq,
                    keep_aux,
                ));
            }
            return true;
        }
        let ghost mid = *self;
        assert(t0.root_full(mid, keep_aux));
        let r = self.split_root(Some((key, value)), journal_seq);
        if r {
            let ghost after = *self;
            self.total_key_count = self.total_key_count.saturating_add(1);
            assert(Btree { total_key_count: mid.total_key_count, ..*self } == after);
        }
        r
    }

    /// Whether `insert` turned this tree into `new`, with the result `r`.
    pub open spec fn was_inserted(
        self,
        new: Btree,
        key: BtreeKey,
        value: BchVal,
        seq: u64,
        r: bool,
    ) -> bool {
        if r {
            exists|mid: Btree| #[trigger]
                self.tree_inserted(mid, key, value, seq, true, true) && mid.rounded_off(
                    new,
                    Bpos::spec_from_key(key),
                )
        } else {
            self.tree_inserted(new, key, value, seq, true, false)
        }
    }

    /// Adds a key. The key cache drops the position of a key that was added.
    pub fn insert(&mut self, key: BtreeKey, value: BchVal, journal_seq: u64) -> (r: bool)
        requires
            old(self).wf(),
            old(self).can_grow(),
        ensures
            final(self).wf(),
            old(self).was_inserted(*final(self), key, value, journal_seq, r),
            old(self).took_one(*final(self)),
            r ==> final(self).key_cache.spec_find(Bpos::spec_from_key(key)) is None,
    {
        let pos = Bpos::from_key(&key);
        let r = self.insert_in_tree(key, value, journal_seq, true);
        let ghost mid = *self;
        if r {
            self.cache_root();
            self.key_cache.invalidate(&pos);
            assert(mid.rounded_off(*self, pos));
        }
        r
    }

    /// Whether a node was split on the way from this tree to `new`: addresses are
    /// given out for nothing else.
    pub open spec fn split_on_the_way(self, new: Btree) -> bool {
        new.cache.next_addr != self.cache.next_addr
    }

    /// Adds a key for a transaction, which is told to start over where a node
    /// was split. A key added to a root that is a leaf leaves it
    /// under the journal entry that it was under.
    pub fn insert_with_transaction(
        &mut self,
        key: BtreeKey,
        value: BchVal,
        trans: Option<BtreeTrans>,
        journal_seq: u64,
    ) -> (r: (bool, Option<BtreeTrans>))
        requires
            old(self).wf(),
            old(self).can_grow(),
        ensures
            final(self).wf(),
            r.0 ==> exists|mid: Btree| #[trigger]
                old(self).tree_inserted(mid, key, value, journal_seq, false, true)
                    && mid.rounded_off(*final(self), Bpos::spec_from_key(key)) && r.1 == (
                match trans {
                    Some(t) => if old(self).split_on_the_way(mid) {
                        Some(t.told(RestartReason::NodeSplit))
                    } else {
                        Some(t)
                    },
                    None => None,
                }),
            !r.0 ==> old(self).tree_inserted(*final(self), key, value, journal_seq, false, false)
                && r.1 == trans,
            old(self).took_one(*final(self)),
    {
        let pos = Bpos::from_key(&key);
        let next: u64 = self.cache.next_addr;
        let added: bool = self.insert_in_tree(key, value, journal_seq, false);
        let ghost mid = *self;
        let mut out = trans;
        if added {
            if self.cache.next_addr != next {
                if let Some(mut t) = out {
                    t.trigger_node_split();
                    out = Some(t);
                } else {
                    out = None;
                }
            }
            self.cache_root();
            self.key_cache.invalidate(&pos);
            assert(mid.rounded_off(*self, pos));
        }
        (added, out)
    }

    /// Runs `f` in a transaction: an error where the transaction was told to
    /// start over too often, else what `f` gave.
    pub fn with_transaction<F: FnOnce(BtreeTrans) -> (R, BtreeTrans), R>(&self, f: F) -> (r: Result<
        R,
        StorageError,
    >)
        requires
            f.requires((BtreeTrans { active: true, restart: None, restart_count: 0 },)),
        ensures
            exists|out: (R, BtreeTrans)|
                #[trigger] f.ensures(
                    (BtreeTrans { active: true, restart: None, restart_count: 0 },),
                    out,
                ) && r == (if out.1.restart_count > crate::trans::TRANS_RESTART_LIMIT {
                    Err::<R, StorageError>(
                        StorageError::Transaction(crate::error::Fault::RestartLimit),
                    )
                } else {
                    Ok::<R, StorageError>(out.0)
                }),
    {
        let mut t = BtreeTrans::new();
        t.begin();
        let (result, mut done) = f(t);
        match done.commit() {
            Ok(()) => Ok(result),
            Err(e) => Err(e),
        }
    }

    /// Looks a position up like `get_entry`; where the key cache does not have
    /// it the transaction is told to start over.
    pub fn get_entry_with_restart(&mut self, pos: Bpos, trans: &mut BtreeTrans) -> (r: Option<
        BtreeEntry,
    >)
        requires
            old(self).wf(),
        ensures
            final(self).wf(),
            old(self).entry_got(*final(self), pos, r),
            *final(trans) == (if old(self).key_cache.spec_find(pos) is Some {
                *old(trans)
            } else {
                old(trans).told(RestartReason::KeyCacheMiss)
            }),
    {
        if let Some(e) = self.key_cache.find(&pos) {
            return Some(e);
        }
        trans.trigger_key_cache_miss();
        self.get_entry(pos)
    }

    /// Whether `new` is this tree with `e` added to its root, a leaf.
    pub open spec fn entry_added(self, new: Btree, n: BtreeNode, e: EntryView, seq: u64) -> bool {
        self.root.node.grown(n, e, false) && Btree {
            root: BtreeRoot { node: BtreeNode { journal_seq: seq, ..n }, ..self.root },
            total_key_count: self.one_more_key(),
            root_modified: true,
            ..self
        }.root_cached(new)
    }

    /// Whether adding the entry `e` turned this tree into `new`, but for the
    /// key cache, with the result `r`: only a root that is a leaf takes it, and
    /// is compacted where it is full.
    pub open spec fn entry_taken(self, new: Btree, e: EntryView, seq: u64, r: bool) -> bool {
        if self.root.depth > 0 {
            !r && new == self
        } else if r {
            exists|n: BtreeNode| #[trigger] self.entry_added(new, n, e, seq)
        } else {
            &&& self.root.node.full_stripped(new.root.node, e.u64s() * 8)
            &&& new == (Btree { root: BtreeRoot { node: new.root.node, ..self.root }, ..self })
        }
    }

    /// Adds an entry to a root that is a leaf, which is compacted where it is
    /// full; false for a deeper tree and for a root without room.
    pub fn insert_entry_skip_cache(&mut self, entry: BtreeEntry, journal_seq: u64) -> (r: bool)
        requires
            old(self).wf(),
            old(self).root.ptr.block_addr < u64::MAX,
            entry@.fits(),
        ensures
            final(self).wf(),
            final(self).key_cache == old(self).key_cache,
            final(self).root.ptr == old(self).root.ptr,
            final(self).root.depth == old(self).root.depth,
            old(self).entry_taken(*final(self), entry@, journal_seq, r),
    {
        let ghost t0 = *self;
        if self.root.depth > 0 {
            return false;
        }
        if self.root.node.insert_entry_compacting(&entry) {
            let ghost n = self.root.node;
            self.root.node.set_journal_seq(journal_seq);
            self.total_key_count = self.total_key_count.saturating_add(1);
            self.root_modified = true;
            self.cache_root();
            assert(t0.entry_added(*self, n, entry@, journal_seq));
            return true;
        }
        false
    }

    /// `entry_taken`, where the key cache drops the position of an entry that
    /// was added.
    pub open spec fn entry_taken_dropping(self, new: Btree, e: EntryView, seq: u64, r: bool) -> bool {
        &&& self.entry_taken(new, e, seq, r)
        &&& if r {
            self.key_cache.invalidated(new.key_cache, e.pos)
        } else {
            new.key_cache == self.key_cache
        }
    }

    /// Adds an entry to a root that is a leaf; the key cache drops the position
    /// of an entry that was added.
    pub fn insert_entry(&mut self, entry: BtreeEntry, journal_seq: u64) -> (r: bool)
        requires
            old(self).wf(),
            old(self).root.ptr.block_addr < u64::MAX,
            entry@.fits(),
        ensures
            final(self).wf(),
            final(self).root.ptr == old(self).root.ptr,
            final(self).root.depth == old(self).root.depth,
            old(self).entry_taken_dropping(*final(self), entry@, journal_seq, r),
    {
        let ghost t0 = *self;
        let pos = entry.pos;
        if self.insert_entry_skip_cache(entry, journal_seq) {
            let ghost mid = *self;
            self.key_cache.invalidate(&pos);
            proof {
                let n = choose|n: BtreeNode| #[trigger] t0.entry_added(mid, n, entry@, journal_seq);
                assert(t0.entry_added(*self, n, entry@, journal_seq));
            }
            true
        } else {
            false
        }
    }

    /// Whether the root is a leaf with a shard boundary to be split at.
    pub open spec fn wants_presplit(self) -> bool {
        let es = undeleted(self.items(BtreeKey::spec_min_key()));
        self.root.depth == 0 && es.len() >= 3 && crate::node_split::shard_point(es, 1) is Some
            && self.root.node.live().len() >= 2
    }

    /// Whether `presplit_shard_boundaries` turned this tree into `new`.
    pub open spec fn was_presplit(self, new: Btree) -> bool {
        if self.wants_presplit() {
            exists|left: BtreeNode, right: BtreeNode| #[trigger]
                self.root_split(new, None, 0, left, right)
        } else {
            new == self
        }
    }

    /// Splits a root that is a leaf where its entries pass a shard boundary
    /// more than a fifth away from both ends.
    pub fn presplit_shard_boundaries(&mut self) -> (r: bool)
        requires
            old(self).wf(),
            old(self).can_grow(),
        ensures
            final(self).wf(),
            r == old(self).wants_presplit(),
            old(self).was_presplit(*final(self)),
            old(self).took_one(*final(self)),
    {
        if self.root.depth != 0 {
            return false;
        }
        let ghost es = undeleted(self.items(BtreeKey::spec_min_key()));
        let entries: Vec<BtreeEntry> = self.for_each_entry();
        proof {
            assert(crate::run::views(entries@) =~= es) by {
                assert forall|i: int| 0 <= i < es.len() implies #[trigger] entries@[i]@ == es[i] by {
                    assert(crate::btree::leaf_reads(es[i], entries@[i]));
                }
            }
            crate::run::lemma_undeleted(self.items(BtreeKey::spec_min_key()));
            self.root.node.lemma_all();
            self.lemma_items_root(BtreeKey::spec_min_key());
        }
        if BtreeNode::find_shard_split(entries.as_slice()).is_none() {
            return false;
        }
        self.split_root(None, 0)
    }

    /// A walk over a root that is a leaf visits no more entries than it has.
    proof fn lemma_items_root(self, k: BtreeKey)
        requires
            self.wf(),
            self.root.depth == 0,
        ensures
            self.items(k).len() <= self.root.node.all().len(),
    {
        assert(descent_node(self.nodes(), self.root.node, k, 0) == Some(self.root.node));
    }
}

} // verus!
