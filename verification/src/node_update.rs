//! Changing the value of an entry in place.

use crate::key::{BchVal, EntryView};
use crate::le::{put_bytes, splice};
use crate::node::{
    aux_slot, aux_valid, drop_eytz, record_of, set_bytes, set_readable, BsetTree, BtreeNode,
};
use crate::node_compact::{eytz_entry, lemma_eytz_range};
use crate::packed::{decode, lemma_entry_pos, parse, total_size, well_packed};
use crate::sort::{before, ordered};
use vstd::prelude::*;

verus! {

/// An entry with its value, as far as it is that of an extent, replaced.
pub open spec fn revalued(e: EntryView, v: BchVal) -> EntryView {
    EntryView { value: splice(e.value, 0, v.spec_bytes()), ..e }
}

/// Changing the first eight value bytes of one packed entry changes the value
/// of that entry only.
proof fn lemma_revalue(b: Seq<u8>, j: int, v: BchVal)
    requires
        well_packed(b),
        0 <= j < parse(b).len(),
        parse(b)[j].value.len() >= 8,
        v.spec_bytes().len() == 8,
    ensures
        ({
            let off = total_size(parse(b).take(j));
            let c = splice(b, off + 24, v.spec_bytes());
            &&& 0 <= off
            &&& off + 32 <= b.len()
            &&& well_packed(c)
            &&& parse(c) == parse(b).update(j, revalued(parse(b)[j], v))
        }),
    decreases j,
{
    let p = parse(b);
    let off = total_size(p.take(j));
    let c = splice(b, off + 24, v.spec_bytes());
    let h = b[0] * 8;
    let rest = b.skip(h);
    if j == 0 {
        assert(p.take(0) =~= Seq::<EntryView>::empty());
        let x = b.take(h);
        let y = c.take(h);
        assert(p[0] == decode(x));
        assert(x.len() >= 32);
        assert(c[0] == b[0]);
        assert(c.skip(h) =~= rest);
        assert(y.subrange(3, 11) =~= x.subrange(3, 11));
        assert(y.subrange(11, 19) =~= x.subrange(11, 19));
        assert(y.subrange(19, 23) =~= x.subrange(19, 23));
        assert(y[2] == x[2]);
        assert(y.skip(24) =~= splice(x.skip(24), 0, v.spec_bytes()));
        assert(decode(y) =~= revalued(decode(x), v));
        assert(parse(c) =~= p.update(0, revalued(p[0], v)));
    } else {
        assert(p.skip(1) =~= parse(rest));
        assert(p.take(j).skip(1) =~= parse(rest).take(j - 1));
        assert(parse(rest)[j - 1] == p[j]);
        lemma_revalue(rest, j - 1, v);
        let roff = total_size(parse(rest).take(j - 1));
        assert(off == h + roff);
        assert(c[0] == b[0]);
        assert(c.skip(h) =~= splice(rest, roff + 24, v.spec_bytes()));
        assert(c.take(h) =~= b.take(h));
        assert(parse(c) =~= p.update(j, revalued(p[j], v)));
    }
}

/// The records of a run do not depend on values of unchanged length.
proof fn lemma_records_kept(es: Seq<EntryView>, j: int, v: BchVal)
    requires
        0 <= j < es.len(),
    ensures
        forall|i: int| 0 <= i < es.len() ==> #[trigger] record_of(es.update(j, revalued(es[j], v)), i)
            == record_of(es, i),
{
    let fs = es.update(j, revalued(es[j], v));
    assert forall|i: int| 0 <= i < es.len() implies #[trigger] record_of(fs, i) == record_of(es, i) by {
        lemma_sizes_kept(es.take(i), fs.take(i));
        assert(fs[i].key() == es[i].key());
    }
}

proof fn lemma_sizes_kept(a: Seq<EntryView>, b: Seq<EntryView>)
    requires
        a.len() == b.len(),
        forall|i: int| 0 <= i < a.len() ==> (#[trigger] a[i]).u64s() == b[i].u64s(),
    ensures
        total_size(a) == total_size(b),
    decreases a.len(),
{
    if a.len() > 0 {
        assert(a[0].u64s() == b[0].u64s());
        assert forall|i: int| 0 <= i < a.skip(1).len() implies (#[trigger] a.skip(1)[i]).u64s()
            == b.skip(1)[i].u64s() by {
            assert(a[i + 1].u64s() == b[i + 1].u64s());
        }
        lemma_sizes_kept(a.skip(1), b.skip(1));
    }
}

impl BtreeNode {
    /// What changing the value of the entry number `j` of set `si` gives.
    proof fn lemma_revalued(self, new: BtreeNode, si: int, j: int, v: BchVal)
        requires
            self.wf(),
            0 <= si < 3,
            0 <= j < self.run(si).len(),
            self.run(si)[j].value.len() >= 8,
            v.spec_bytes().len() == 8,
            new.data@ == splice(
                self.data@,
                self.sets@[si].data_offset + total_size(self.run(si).take(j)) + 24,
                v.spec_bytes(),
            ),
            new.sets@ == (if si == 0 {
                self.sets@
            } else {
                drop_eytz(self.sets@)
            }),
            new == (BtreeNode { data: new.data, sets: new.sets, ..self }),
        ensures
            new.wf(),
            new.run(si) == self.run(si).update(j, revalued(self.run(si)[j], v)),
            forall|i: int| 0 <= i < 3 && i != si ==> #[trigger] new.run(i) == self.run(i),
    {
        reveal(BtreeNode::wf);
        let d = self.data@;
        let t = self.sets@[si];
        assert(set_readable(d, self.sets@[0]));
        assert(set_readable(d, self.sets@[1]));
        assert(set_readable(d, self.sets@[2]));
        let b = set_bytes(d, t);
        lemma_revalue(b, j, v);
        let off = total_size(parse(b).take(j));
        let at = t.data_offset + off + 24;
        assert(set_bytes(new.data@, t) =~= splice(b, off + 24, v.spec_bytes()));
        let es = self.run(0);
        let fs = new.run(0);
        if si == 0 {
            lemma_records_kept(es, j, v);
        }
        assert forall|i: int| 0 <= i < 3 && i != si implies #[trigger] new.run(i) == self.run(i) by {
            assert(set_bytes(new.data@, self.sets@[i]) =~= set_bytes(d, self.sets@[i]));
        }
        let t0 = self.sets@[0];
        assert(set_bytes(d, new.sets@[0]) == set_bytes(d, t0));
        assert(set_bytes(new.data@, new.sets@[0]) == set_bytes(new.data@, t0));
        assert forall|i: int| 0 <= i < es.len() implies #[trigger] record_of(fs, i) == record_of(
            es,
            i,
        ) by {}
        if t0.aux_offset > 0 {
            assert forall|i: int| 0 <= i < fs.len() implies #[trigger] aux_slot(
                new.data@,
                t0.aux_offset as int,
                i,
            ) == record_of(fs, i) by {
                assert(aux_slot(d, t0.aux_offset as int, i) == record_of(es, i));
                assert(aux_slot(new.data@, t0.aux_offset as int, i) =~= aux_slot(
                    d,
                    t0.aux_offset as int,
                    i,
                ));
            }
            assert(aux_valid(new.data@, t0.aux_offset as int, fs));
            if si == 0 && t0.extra > 0 {
                assert forall|i: int| 0 <= i < fs.len() implies #[trigger] aux_slot(
                    new.data@,
                    t0.extra as int,
                    i,
                ) == record_of(fs, eytz_entry(fs.len() as int, i + 1)) by {
                    let m = eytz_entry(fs.len() as int, i + 1);
                    lemma_eytz_range(fs.len() as int, i + 1);
                    assert(aux_slot(d, t0.extra as int, i) == record_of(es, m));
                    assert(aux_slot(new.data@, t0.extra as int, i) =~= aux_slot(
                        d,
                        t0.extra as int,
                        i,
                    ));
                    assert(record_of(fs, m) == record_of(es, m));
                }
            }
        }
        assert forall|i: int| 0 <= i < 3 implies set_readable(new.data@, #[trigger] new.sets@[i])
            && new.sets@[i].size == new.run(i).len() by {
            assert(set_readable(d, self.sets@[i]));
            if i != si {
                assert(new.run(i) == self.run(i));
                assert(set_bytes(new.data@, self.sets@[i]) =~= set_bytes(d, self.sets@[i]));
            }
        }
        assert(ordered(fs, false)) by {
            assert forall|x: int, y: int| 0 <= x < y < fs.len() implies !before(
                #[trigger] fs[y],
                #[trigger] fs[x],
                false,
            ) by {
                assert(!before(es[y], es[x], false));
            }
        }
        assert(new.aux_ok());
        assert(new.run(0).len() == self.run(0).len());
        assert(new.run(1).len() == self.run(1).len());
        assert(new.run(2).len() == self.run(2).len());
    }

    /// Changes the value of the entry number `global`, counted from 1 over all
    /// sets, in place; an Eytzinger array is given up where the entry is not one of
    /// the set that it lists. False where there is no such entry, or its value is
    /// shorter than that of an extent.
    pub fn update_value_at(&mut self, global: u16, value: &BchVal) -> (r: bool)
        requires
            old(self).wf(),
        ensures
            final(self).wf(),
            r == (1 <= global <= old(self).all().len() && old(self).all()[global
                - 1].value.len() >= 8),
            r ==> final(self).all() == old(self).all().update(
                global - 1,
                revalued(old(self).all()[global - 1], *value),
            ) && final(self).sets@ == (if global <= old(self).run(0).len() {
                old(self).sets@
            } else {
                drop_eytz(old(self).sets@)
            }) && *final(self) == (BtreeNode {
                data: final(self).data,
                sets: final(self).sets,
                ..*old(self)
            }),
            !r ==> *final(self) == *old(self),
    {
        let ghost n0 = *self;
        let (si, i) = match self.locate(global) {
            Some(p) => p,
            None => {
                return false;
            },
        };
        let set = self.sets[si];
        let off: usize = self.entry_offset(&set, i);
        proof {
            lemma_entry_pos(
                n0.data@,
                set.data_offset as int,
                set.end_offset as int,
                i - 1,
            );
        }
        let u64s: u8 = self.data[off];
        if u64s < 4 {
            return false;
        }
        let bytes: Vec<u8> = value.to_bytes();
        put_bytes(&mut self.data, off + 24, bytes.as_slice());
        if si > 0 {
            let first = self.sets[0];
            self.sets[0] = BsetTree { extra: 0, ..first };
            assert(self.sets@ =~= drop_eytz(n0.sets@));
        }
        proof {
            n0.lemma_revalued(*self, si as int, i - 1, *value);
            assert(self.all() =~= n0.all().update(
                global - 1,
                revalued(n0.all()[global - 1], *value),
            ));
        }
        true
    }
}

} // verus!
