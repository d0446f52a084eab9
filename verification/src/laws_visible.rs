//! What a walk for a snapshot shows.

use crate::iter::BtreeIter;
use crate::key::{BchVal, Bpos, BtreeKey, EntryView, KeyType};
use crate::node_read::as_extent;
use crate::overlay::JournalKeys;
use crate::visible::known;
use vstd::prelude::*;

verus! {

/// An answer that is reused is one that was given for that very pair of
/// snapshots, and one that was given is not asked for again.
pub proof fn lemma_known_answers(answers: Seq<(u32, u32, bool)>, sid: u32, other: u32)
    ensures
        known(answers, sid, other) matches Some(v) ==> answers.contains((sid, other, v)),
        known(answers, sid, other) is None ==> forall|v: bool| !#[trigger]
            answers.contains((sid, other, v)),
    decreases answers.len(),
{
    if answers.len() > 0 {
        let f = answers.drop_last();
        let last = answers.last();
        lemma_known_answers(f, sid, other);
        assert(answers[answers.len() - 1] == last);
        assert forall|x: (u32, u32, bool)| #[trigger] f.contains(x) implies answers.contains(x) by {
            let j = choose|j: int| 0 <= j < f.len() && f[j] == x;
            assert(answers[j] == x);
        }
        assert forall|x: (u32, u32, bool)| #[trigger] answers.contains(x) implies x == last
            || f.contains(x) by {
            let j = choose|j: int| 0 <= j < answers.len() && answers[j] == x;
            if j < f.len() {
                assert(f[j] == x);
            }
        }
    }
}

/// Whether every answer that an iterator has noted is one that `sees` gives.
pub open spec fn answers_hold<F: Fn(u32, u32) -> bool>(it: BtreeIter, sees: F) -> bool {
    forall|a: u32, b: u32, v: bool| #[trigger]
        it.snapshot_visible_cache@.contains((a, b, v)) ==> sees.ensures((a, b), v)
}

/// The verdict on a key is what `sees` says of the snapshots, whether it is asked
/// or the answer was noted: whiteouts are never seen, keys of the own snapshot
/// always, and everything else without a snapshot. The answers that are noted
/// stay true.
#[verifier::rlimit(60)]
pub proof fn lemma_judged<'a, F: Fn(u32, u32) -> bool>(
    it: BtreeIter<'a>,
    new: BtreeIter<'a>,
    sees: F,
    key: BtreeKey,
    v: bool,
)
    requires
        it.judged(new, sees, key, v),
        answers_hold(it, sees),
    ensures
        key.key_type == KeyType::Whiteout ==> !v,
        key.key_type != KeyType::Whiteout && (it.snapshot == 0 || key.snapshot_id == it.snapshot)
            ==> v,
        key.key_type != KeyType::Whiteout && it.snapshot != 0 && key.snapshot_id != it.snapshot
            ==> sees.ensures((it.snapshot, key.snapshot_id), v),
        answers_hold(new, sees),
        new == (BtreeIter { snapshot_visible_cache: new.snapshot_visible_cache, ..it }),
{
    lemma_known_answers(it.snapshot_visible_cache@, it.snapshot, key.snapshot_id);
    let old = it.snapshot_visible_cache@;
    let s = new.snapshot_visible_cache@;
    assert forall|a: u32, b: u32, w: bool| #[trigger] s.contains((a, b, w)) implies sees.ensures(
        (a, b),
        w,
    ) by {
        let j = choose|j: int| 0 <= j < s.len() && s[j] == (a, b, w);
        if j < old.len() {
            assert(old[j] == s[j]);
            assert(old.contains((a, b, w)));
        }
    }
}

/// What is shown for an entry that an iterator stands at: what a journal has for
/// its key, the one of the call first, then that of the iterator; else the entry.
pub open spec fn shown_for(it: BtreeIter, overlay: Option<&JournalKeys>, e: EntryView) -> (
    BtreeKey,
    BchVal,
) {
    let p = Bpos::spec_from_key(e.key());
    let of_call = match overlay {
        Some(o) => if it.flags.with_journal && !o.draining {
            o.spec_lookup(it.btree_type, p)
        } else {
            None
        },
        None => None,
    };
    let own = match it.overlay {
        Some(o) => if it.flags.with_journal {
            o.spec_lookup(it.btree_type, p)
        } else {
            None
        },
        None => None,
    };
    match (of_call, own) {
        (Some(k), _) => as_extent(k.entry@),
        (None, Some(k)) => as_extent(k.entry@),
        (None, None) => as_extent(e),
    }
}

/// Whether what is shown is not seen.
pub open spec fn unseen<F: Fn(u32, u32) -> bool>(snapshot: u32, sees: F, k: BtreeKey) -> bool {
    k.key_type == KeyType::Whiteout || (snapshot != 0 && k.snapshot_id != snapshot && sees.ensures(
        (snapshot, k.snapshot_id),
        false,
    ))
}

/// A walk for a snapshot gives the first entry from the current place on that is
/// seen, whatever journal is laid over the tree, and stands there then. It gives
/// nothing just if there is no current entry, or if it comes to the end by entries
/// that are not seen.
#[verifier::rlimit(60)]
pub proof fn lemma_looked_over<'a, F: Fn(u32, u32) -> bool>(
    it: BtreeIter<'a>,
    new: BtreeIter<'a>,
    overlay: Option<&JournalKeys>,
    sees: F,
    r: Option<(BtreeKey, BchVal)>,
    fuel: nat,
)
    requires
        it.looked(new, overlay, sees, r, fuel),
        answers_hold(it, sees),
        it.current() is Some,
        it.pos_ok(),
    ensures
        answers_hold(new, sees),
        new.snapshot == it.snapshot,
        r matches Some(kv) ==> exists|n: int|
            {
                &&& 0 <= n < it.rest().len()
                &&& kv == shown_for(it, overlay, #[trigger] it.rest()[n])
                &&& kv.0.key_type != KeyType::Whiteout
                &&& it.snapshot == 0 || kv.0.snapshot_id == it.snapshot || sees.ensures(
                    (it.snapshot, kv.0.snapshot_id),
                    true,
                )
                &&& new.rest() == it.rest().skip(n)
                &&& new.current() == Some(it.rest()[n])
                &&& forall|j: int|
                    0 <= j < n ==> unseen(
                        it.snapshot,
                        sees,
                        shown_for(it, overlay, #[trigger] it.rest()[j]).0,
                    )
            },
        r is None ==> forall|j: int|
            0 <= j < it.rest().len() ==> unseen(
                it.snapshot,
                sees,
                shown_for(it, overlay, #[trigger] it.rest()[j]).0,
            ),
    decreases fuel,
{
    let rest = it.rest();
    assert(rest[0] == it.current()->0);
    let kv = shown_for(it, overlay, rest[0]);
    assert(it.shown(overlay) == Some(kv));
    if r == Some(kv) && it.judged(new, sees, kv.0, true) {
        lemma_judged(it, new, sees, kv.0, true);
        assert(rest.skip(0) =~= rest);
        assert(new.rest() == rest);
        assert(new.current() == it.current());
        assert(kv == shown_for(it, overlay, it.rest()[0]));
    } else {
        let (mid, next, ok) = choose|mid: BtreeIter<'a>, next: BtreeIter<'a>, ok: bool|
            it.judged(mid, sees, kv.0, false) && #[trigger] mid.stepped(next, ok) && (if ok {
                fuel > 0 && next.looked(new, overlay, sees, r, (fuel - 1) as nat)
            } else {
                r is None && new == next
            });
        lemma_judged(it, mid, sees, kv.0, false);
        assert(mid.rest() == rest);
        assert(mid.current() == it.current());
        assert(unseen(it.snapshot, sees, shown_for(it, overlay, rest[0]).0));
        if ok {
            lemma_looked_over(next, new, overlay, sees, r, (fuel - 1) as nat);
            let left = rest.skip(1);
            assert(next.rest() == left);
            assert forall|e: EntryView| #[trigger] shown_for(next, overlay, e) == shown_for(
                it,
                overlay,
                e,
            ) by {}
            if r is Some {
                let m = choose|n: int|
                    {
                        &&& 0 <= n < left.len()
                        &&& r == Some(shown_for(next, overlay, #[trigger] next.rest()[n]))
                        &&& new.rest() == left.skip(n)
                        &&& new.current() == Some(left[n])
                        &&& forall|j: int|
                            0 <= j < n ==> unseen(
                                it.snapshot,
                                sees,
                                shown_for(next, overlay, #[trigger] next.rest()[j]).0,
                            )
                    };
                assert(rest[m + 1] == left[m]);
                assert(left.skip(m) =~= rest.skip(m + 1));
                assert forall|j: int| 0 <= j < m + 1 implies unseen(
                    it.snapshot,
                    sees,
                    shown_for(it, overlay, #[trigger] it.rest()[j]).0,
                ) by {
                    if j > 0 {
                        assert(next.rest()[j - 1] == rest[j]);
                    }
                }
            } else {
                assert forall|j: int| 0 <= j < rest.len() implies unseen(
                    it.snapshot,
                    sees,
                    shown_for(it, overlay, #[trigger] it.rest()[j]).0,
                ) by {
                    if j > 0 {
                        assert(next.rest()[j - 1] == rest[j]);
                    }
                }
            }
        } else {
            assert(rest.skip(1).len() == 0);
        }
    }
}

/// Without a journal a walk for a snapshot gives the first entry from the current
/// place on whose key is no whiteout, and that is of the own snapshot or of one
/// that `sees` says is seen; without a snapshot, the first that is no whiteout. All
/// entries before it are whiteouts or of snapshots that are not seen.
#[verifier::rlimit(60)]
pub proof fn lemma_looked<'a, F: Fn(u32, u32) -> bool>(
    it: BtreeIter<'a>,
    new: BtreeIter<'a>,
    sees: F,
    r: Option<(BtreeKey, BchVal)>,
    fuel: nat,
)
    requires
        it.looked(new, None, sees, r, fuel),
        answers_hold(it, sees),
        it.current() is Some,
        it.pos_ok(),
        it.overlay is None || !it.flags.with_journal,
    ensures
        r matches Some(kv) ==> exists|n: int|
            {
                &&& 0 <= n < it.rest().len()
                &&& kv == ((#[trigger] it.rest()[n]).key(), it.rest()[n].bch_val())
                &&& it.rest()[n].key_type != KeyType::Whiteout
                &&& it.snapshot == 0 || it.rest()[n].pos.snapshot == it.snapshot || sees.ensures(
                    (it.snapshot, it.rest()[n].pos.snapshot),
                    true,
                )
                &&& new.current() == Some(it.rest()[n])
                &&& forall|j: int|
                    0 <= j < n ==> (#[trigger] it.rest()[j]).key_type == KeyType::Whiteout || (
                    it.snapshot != 0 && it.rest()[j].pos.snapshot != it.snapshot && sees.ensures(
                        (it.snapshot, it.rest()[j].pos.snapshot),
                        false,
                    ))
            },
        r is None ==> forall|j: int|
            0 <= j < it.rest().len() ==> (#[trigger] it.rest()[j]).key_type == KeyType::Whiteout
                || (it.snapshot != 0 && it.rest()[j].pos.snapshot != it.snapshot && sees.ensures(
                (it.snapshot, it.rest()[j].pos.snapshot),
                false,
            )),
{
    lemma_looked_over(it, new, None, sees, r, fuel);
    assert forall|e: EntryView| #[trigger] shown_for(it, None, e) == (e.key(), e.bch_val()) by {}
    if r is Some {
        let m = choose|n: int|
            {
                &&& 0 <= n < it.rest().len()
                &&& r == Some(shown_for(it, None, #[trigger] it.rest()[n]))
                &&& (r->0).0.key_type != KeyType::Whiteout
                &&& it.snapshot == 0 || (r->0).0.snapshot_id == it.snapshot || sees.ensures(
                    (it.snapshot, (r->0).0.snapshot_id),
                    true,
                )
                &&& new.current() == Some(it.rest()[n])
                &&& forall|j: int|
                    0 <= j < n ==> unseen(
                        it.snapshot,
                        sees,
                        shown_for(it, None, #[trigger] it.rest()[j]).0,
                    )
            };
        assert(shown_for(it, None, it.rest()[m]) == (it.rest()[m].key(), it.rest()[m].bch_val()));
        assert forall|j: int| 0 <= j < m implies (#[trigger] it.rest()[j]).key_type
            == KeyType::Whiteout || (it.snapshot != 0 && it.rest()[j].pos.snapshot != it.snapshot
            && sees.ensures((it.snapshot, it.rest()[j].pos.snapshot), false)) by {
            assert(unseen(it.snapshot, sees, shown_for(it, None, it.rest()[j]).0));
        }
    } else {
        assert forall|j: int| 0 <= j < it.rest().len() implies (#[trigger] it.rest()[j]).key_type
            == KeyType::Whiteout || (it.snapshot != 0 && it.rest()[j].pos.snapshot != it.snapshot
            && sees.ensures((it.snapshot, it.rest()[j].pos.snapshot), false)) by {
            assert(unseen(it.snapshot, sees, shown_for(it, None, it.rest()[j]).0));
        }
    }
}

} // verus!
