//! What a snapshot sees of a tree.

use crate::iter::BtreeIter;
use crate::key::{BchVal, BtreeKey, KeyType};
use crate::node_read::as_extent;
use crate::overlay::JournalKeys;
use vstd::prelude::*;

verus! {

/// The answer about two snapshots among those that are known.
pub open spec fn known(answers: Seq<(u32, u32, bool)>, sid: u32, other: u32) -> Option<bool>
    decreases answers.len(),
{
    if answers.len() == 0 {
        None
    } else if answers.last().0 == sid && answers.last().1 == other {
        Some(answers.last().2)
    } else {
        known(answers.drop_last(), sid, other)
    }
}

impl<'a> BtreeIter<'a> {
    /// The key and value shown at the current place: those of `overlay` where
    /// it is consulted and has a key there.
    pub open spec fn shown(self, overlay: Option<&JournalKeys>) -> Option<(BtreeKey, BchVal)> {
        let over = match overlay {
            Some(o) => if self.flags.with_journal && !o.draining {
                self.overlay_at(*o)
            } else {
                None
            },
            None => None,
        };
        match over {
            Some(jk) => Some(as_extent(jk.entry@)),
            None => self.spec_peek(),
        }
    }

    fn show(&self, overlay: Option<&JournalKeys>) -> (r: Option<(BtreeKey, BchVal)>)
        requires
            self.wf(),
        ensures
            r == self.shown(overlay),
    {
        if self.flags.with_journal {
            if let Some(o) = overlay {
                if !o.draining {
                    return self.peek_with_journal(o);
                }
            }
        }
        self.peek()
    }

    /// Whether `v` says if the snapshot of this iterator sees `key`, and `new`
    /// is this iterator with the answer noted: it sees no whiteouts, else the
    /// keys of its own and what `sees` says, which is asked once for each
    /// snapshot. Without a snapshot everything but whiteouts is seen.
    pub open spec fn judged<F: Fn(u32, u32) -> bool>(
        self,
        new: BtreeIter<'a>,
        sees: F,
        key: BtreeKey,
        v: bool,
    ) -> bool {
        let sid = key.snapshot_id;
        if key.key_type == KeyType::Whiteout {
            !v && new == self
        } else if self.snapshot == 0 || self.snapshot == sid {
            v && new == self
        } else {
            match known(self.snapshot_visible_cache@, self.snapshot, sid) {
                Some(a) => v == a && new == self,
                None => sees.ensures((self.snapshot, sid), v) && new == (BtreeIter {
                    snapshot_visible_cache: new.snapshot_visible_cache,
                    ..self
                }) && new.snapshot_visible_cache@ == self.snapshot_visible_cache@.push(
                    (self.snapshot, sid, v),
                ),
            }
        }
    }

    fn judge<F: Fn(u32, u32) -> bool>(&mut self, sees: &F, key: &BtreeKey) -> (v: bool)
        requires
            old(self).wf(),
            forall|a: u32, b: u32| #[trigger] sees.requires((a, b)),
        ensures
            final(self).wf(),
            old(self).judged(*final(self), *sees, *key, v),
            final(self).rest() == old(self).rest(),
            final(self).current() == old(self).current(),
            final(self).depth == old(self).depth,
    {
        if key.key_type == KeyType::Whiteout {
            return false;
        }
        let sid: u32 = key.snapshot_id;
        if self.snapshot == 0 || self.snapshot == sid {
            return true;
        }
        let ghost answers = self.snapshot_visible_cache@;
        let mut i: usize = self.snapshot_visible_cache.len();
        assert(answers.take(answers.len() as int) =~= answers);
        while i > 0
            invariant
                *self == *old(self),
                answers == self.snapshot_visible_cache@,
                i <= answers.len(),
                known(answers, self.snapshot, sid) == known(
                    answers.take(i as int),
                    self.snapshot,
                    sid,
                ),
                key.key_type != KeyType::Whiteout,
                sid == key.snapshot_id,
                self.snapshot != 0,
                self.snapshot != sid,
                self.wf(),
            decreases i,
        {
            proof {
                assert(answers.take(i as int).drop_last() =~= answers.take(i - 1));
                assert(answers.take(i as int).last() == answers[i - 1]);
            }
            i = i - 1;
            let (a, b, v) = self.snapshot_visible_cache[i];
            if a == self.snapshot && b == sid {
                return v;
            }
        }
        let v = sees(self.snapshot, sid);
        self.snapshot_visible_cache.push((self.snapshot, sid, v));
        v
    }

    /// Whether looking for the next entry that is seen, from the current one
    /// on, gave `r` and turned this iterator into `new`.
    pub open spec fn looked<F: Fn(u32, u32) -> bool>(
        self,
        new: BtreeIter<'a>,
        overlay: Option<&JournalKeys>,
        sees: F,
        r: Option<(BtreeKey, BchVal)>,
        fuel: nat,
    ) -> bool
        decreases fuel,
    {
        match self.shown(overlay) {
            None => r is None && new == self,
            Some(kv) => {
                ||| r == Some(kv) && self.judged(new, sees, kv.0, true)
                ||| exists|mid: BtreeIter<'a>, next: BtreeIter<'a>, ok: bool|
                    self.judged(mid, sees, kv.0, false) && #[trigger] mid.stepped(next, ok) && (
                    if ok {
                        fuel > 0 && next.looked(new, overlay, sees, r, (fuel - 1) as nat)
                    } else {
                        r is None && new == next
                    })
            },
        }
    }

    /// Looks for the next entry that is seen, from the current one on, and
    /// stays there.
    fn look_on<F: Fn(u32, u32) -> bool>(&mut self, overlay: Option<&JournalKeys>, sees: &F) -> (r:
        Option<(BtreeKey, BchVal)>)
        requires
            old(self).wf(),
            forall|a: u32, b: u32| #[trigger] sees.requires((a, b)),
        ensures
            final(self).wf(),
            old(self).looked(*final(self), overlay, *sees, r, old(self).rest().len() + 1),
    {
        let ghost s0 = *self;
        let ghost n0 = self.rest().len() + 1;
        let ghost mut fuel: nat = self.rest().len() + 1;
        loop
            invariant
                self.wf(),
                s0 == *old(self),
                n0 == s0.rest().len() + 1,
                fuel >= self.rest().len() + (if self.current() is None {
                    1int
                } else {
                    0int
                }),
                forall|a: u32, b: u32| #[trigger] sees.requires((a, b)),
                forall|new: BtreeIter<'a>, r: Option<(BtreeKey, BchVal)>| #[trigger]
                    self.looked(new, overlay, *sees, r, fuel) ==> s0.looked(
                        new,
                        overlay,
                        *sees,
                        r,
                        n0,
                    ),
            decreases fuel,
        {
            let ghost cur = *self;
            let kv = match self.show(overlay) {
                Some(kv) => kv,
                None => {
                    assert(cur.looked(*self, overlay, *sees, None, fuel));
                    return None;
                },
            };
            let v = self.judge(sees, &kv.0);
            let ghost mid = *self;
            if v {
                assert(cur.looked(*self, overlay, *sees, Some(kv), fuel));
                return Some(kv);
            }
            let ok = self.advance();
            let ghost next = *self;
            assert(mid.stepped(next, ok));
            if !ok {
                assert(cur.looked(next, overlay, *sees, None, fuel));
                return None;
            }
            proof {
                let f = fuel;
                let f1 = (f - 1) as nat;
                assert forall|new: BtreeIter<'a>, r: Option<(BtreeKey, BchVal)>| #[trigger]
                    next.looked(new, overlay, *sees, r, f1) implies s0.looked(
                    new,
                    overlay,
                    *sees,
                    r,
                    n0,
                ) by {
                    assert(mid.stepped(next, ok));
                    assert(cur.looked(new, overlay, *sees, r, f));
                }
                fuel = f1;
            }
        }
    }

    /// The next key and value that the snapshot of this iterator sees, from the
    /// current place on; the iterator stays there. `sees` says whether its
    /// first snapshot sees keys of its second one.
    pub fn peek_visible<F: Fn(u32, u32) -> bool>(
        &mut self,
        overlay: Option<&JournalKeys>,
        sees: &F,
    ) -> (r: Option<(BtreeKey, BchVal)>)
        requires
            old(self).wf(),
            forall|a: u32, b: u32| #[trigger] sees.requires((a, b)),
        ensures
            final(self).wf(),
            old(self).looked(*final(self), overlay, *sees, r, old(self).rest().len() + 1),
            r matches Some(kv) ==> kv.0.key_type != KeyType::Whiteout,
    {
        let r = self.look_on(overlay, sees);
        proof {
            lemma_no_whiteout(*old(self), *self, overlay, *sees, r, old(self).rest().len() + 1);
        }
        r
    }

    /// Whether `new` is this iterator behind the last entry of the last node of
    /// its path.
    pub open spec fn passed(self, new: BtreeIter<'a>) -> bool {
        let n = self.path@.len() as int;
        let l = self.path@.last();
        if n > 0 && l.offset >= crate::walk::entries_of(l.view_node()).len() {
            new.moved_from(self) && new.pos == self.pos && new.path@ == self.path@.update(
                n - 1,
                crate::iter::BtreePathLevel {
                    offset: (crate::walk::entries_of(l.view_node()).len() + 1) as u16,
                    ..l
                },
            )
        } else {
            new == self
        }
    }

    /// Moves on to the next entry that the snapshot of this iterator sees. False
    /// where there is none.
    pub fn advance_visible<F: Fn(u32, u32) -> bool>(
        &mut self,
        overlay: Option<&JournalKeys>,
        sees: &F,
    ) -> (r: bool)
        requires
            old(self).wf(),
            forall|a: u32, b: u32| #[trigger] sees.requires((a, b)),
        ensures
            final(self).wf(),
            exists|mid: BtreeIter<'a>, ok: bool| #[trigger]
                old(self).stepped(mid, ok) && (if ok {
                    exists|kv: Option<(BtreeKey, BchVal)>| #[trigger]
                        mid.looked(*final(self), overlay, *sees, kv, mid.rest().len() + 1) && r
                            == (kv is Some)
                } else {
                    !r && mid.passed(*final(self))
                }),
    {
        let ghost s0 = *self;
        let ok = self.advance();
        let ghost mid = *self;
        assert(s0.stepped(mid, ok));
        if !ok {
            let n: usize = self.path.len();
            if n > 0 {
                let l = self.path[n - 1];
                proof {
                    assert(self.path@[n - 1].wf());
                    crate::walk::lemma_route_index(l.view_node(), BtreeKey::spec_min_key());
                }
                let kc: u16 = l.entry_count();
                if l.offset >= kc {
                    self.path.set(n - 1, crate::iter::BtreePathLevel { offset: kc + 1, ..l });
                    proof {
                        assert forall|j: int| 0 <= j < self.path@.len() implies (
                        #[trigger] self.path@[j]).wf() by {
                            assert(mid.path@[j].wf());
                        }
                    }
                }
            }
            assert(mid.passed(*self));
            return false;
        }
        let kv = self.look_on(overlay, sees);
        kv.is_some()
    }
}

/// What is found to be seen is no whiteout.
proof fn lemma_no_whiteout<'a, F: Fn(u32, u32) -> bool>(
    old: BtreeIter<'a>,
    new: BtreeIter<'a>,
    overlay: Option<&JournalKeys>,
    sees: F,
    r: Option<(BtreeKey, BchVal)>,
    fuel: nat,
)
    requires
        old.looked(new, overlay, sees, r, fuel),
    ensures
        r matches Some(kv) ==> kv.0.key_type != KeyType::Whiteout,
    decreases fuel,
{
    match old.shown(overlay) {
        None => {},
        Some(kv) => {
            if !(r == Some(kv) && old.judged(new, sees, kv.0, true)) {
                let (mid, next, ok) = choose|mid: BtreeIter<'a>, next: BtreeIter<'a>, ok: bool|
                    old.judged(mid, sees, kv.0, false) && #[trigger] mid.stepped(next, ok) && (
                    if ok {
                        fuel > 0 && next.looked(new, overlay, sees, r, (fuel - 1) as nat)
                    } else {
                        r is None && new == next
                    });
                if ok {
                    lemma_no_whiteout(next, new, overlay, sees, r, (fuel - 1) as nat);
                }
            }
        },
    }
}

} // verus!
