//! Checking the sets of a node that was read.

use crate::error::{Fault, StorageError};
use crate::key::Bpos;
use crate::node::{set_bytes, set_readable, set_run, BsetTree, BtreeNode, DEFAULT_NODE_SIZE};
use crate::packed::{
    entry_at, head_ok, lemma_parse_append, lemma_parse_shape, parse, read_pos, well_packed,
};
use vstd::prelude::*;

verus! {

/// The number of sets of a node.
pub const MAX_BSETS: usize = 3;

/// What is wrong with where a set lies.
pub open spec fn set_fault(t: BsetTree, set: int, node_size: u32) -> Option<Fault> {
    if t.data_offset > node_size {
        Some(Fault::BsetStart { set: set as u64, offset: t.data_offset, node_size })
    } else if t.end_offset > node_size {
        Some(Fault::BsetEnd { set: set as u64, offset: t.end_offset, node_size })
    } else if t.size > 0 && t.data_offset >= t.end_offset {
        Some(
            Fault::BsetEmptyRange {
                set: set as u64,
                size: t.size,
                start: t.data_offset,
                end: t.end_offset,
            },
        )
    } else if t.end_offset % 8 != 0 {
        Some(Fault::BsetNotAligned { set: set as u64, end: t.end_offset })
    } else if set > 0 && t.size == 0 {
        Some(Fault::BsetNoEntries(set as u64))
    } else {
        None
    }
}

/// A check that found `f`.
pub open spec fn checked(f: Option<Fault>) -> Result<(), StorageError> {
    match f {
        Some(f) => Err(StorageError::CorruptData(f)),
        None => Ok(()),
    }
}

fn find_set_fault(t: &BsetTree, set: usize, node_size: u32) -> (r: Option<Fault>)
    ensures
        r == set_fault(*t, set as int, node_size),
{
    if t.data_offset > node_size {
        return Some(Fault::BsetStart { set: set as u64, offset: t.data_offset, node_size });
    }
    if t.end_offset > node_size {
        return Some(Fault::BsetEnd { set: set as u64, offset: t.end_offset, node_size });
    }
    if t.size > 0 && t.data_offset >= t.end_offset {
        return Some(
            Fault::BsetEmptyRange {
                set: set as u64,
                size: t.size,
                start: t.data_offset,
                end: t.end_offset,
            },
        );
    }
    if t.end_offset % 8 != 0 {
        return Some(Fault::BsetNotAligned { set: set as u64, end: t.end_offset });
    }
    if set > 0 && t.size == 0 {
        return Some(Fault::BsetNoEntries(set as u64));
    }
    None
}

/// Checks where a set lies: inside the node, with a range that is not empty if
/// it has entries, up to a multiple of eight bytes. A set that is not the first
/// one must have entries.
pub fn bch2_validate_bset(node: &BtreeNode, set_idx: usize) -> (r: Result<(), StorageError>)
    ensures
        r == checked(
            if set_idx >= 3 {
                Some(Fault::BsetIndex(set_idx as u64))
            } else {
                set_fault(node.sets@[set_idx as int], set_idx as int, node.node_size)
            },
        ),
{
    if set_idx >= MAX_BSETS {
        return Err(StorageError::CorruptData(Fault::BsetIndex(set_idx as u64)));
    }
    match find_set_fault(&node.sets[set_idx], set_idx, node.node_size) {
        Some(f) => Err(StorageError::CorruptData(f)),
        None => Ok(()),
    }
}

/// Whether a byte names a known key format; its top bit is a mark.
pub open spec fn known_format(b: u8) -> bool {
    b & 0x7f == 1 || b & 0x7f == 0
}

/// The number of keys between `off` and `end`, up to a zero byte, with `count`
/// of them and one at `prev` before; or what is wrong: a key that is cut off,
/// reaches too far, has an unknown format or is too short, or that does not
/// come behind the one in front of it.
pub open spec fn keys_between(
    d: Seq<u8>,
    off: int,
    end: int,
    set: int,
    prev: Option<Bpos>,
    count: int,
) -> Result<int, Fault>
    decreases end - off,
{
    if off >= end {
        Ok(count)
    } else if off + 3 > d.len() {
        Err(Fault::EntryHeaderCut { offset: off as u64, remaining: (d.len() - off) as u64 })
    } else if d[off] == 0 {
        Ok(count)
    } else if off + d[off] * 8 > end {
        Err(Fault::EntryTooLong { offset: off as u64, bytes: (d[off] * 8) as u32, end: end as u64 })
    } else if !known_format(d[off + 1]) {
        Err(
            Fault::KeyFormat {
                set: set as u64,
                entry: (count + 1) as u64,
                format: d[off + 1] & 0x7f,
            },
        )
    } else if d[off] < 3 {
        Err(Fault::KeyTooShort { set: set as u64, entry: (count + 1) as u64, u64s: d[off] })
    } else {
        let pos = entry_at(d, off).pos;
        if prev matches Some(p) && pos.lt(p) {
            Err(Fault::KeyOrder { set: set as u64, entry: (count + 1) as u64 })
        } else if prev == Some(pos) {
            Err(Fault::DuplicateKey { set: set as u64, entry: (count + 1) as u64 })
        } else {
            keys_between(d, off + d[off] * 8, end, set, Some(pos), count + 1)
        }
    }
}

/// What is wrong with the keys of a set.
pub open spec fn keys_fault(d: Seq<u8>, t: BsetTree, set: int) -> Option<Fault> {
    if t.size == 0 {
        None
    } else {
        match keys_between(d, t.data_offset as int, t.end_offset as int, set, None, 0) {
            Err(f) => Some(f),
            Ok(n) => if n != t.size {
                Some(Fault::BsetSize { set: set as u64, declared: t.size, actual: n as u64 })
            } else {
                None
            },
        }
    }
}

/// What is wrong with one key, as far as it does not depend on others.
fn find_key_fault(d: &[u8], off: usize, end: usize, set: usize, count: u64) -> (r: Option<Fault>)
    requires
        off + 3 <= d@.len(),
        off < end <= d@.len() <= DEFAULT_NODE_SIZE,
        d@[off as int] != 0,
        count < u64::MAX,
    ensures
        match r {
            Some(f) => forall|prev: Option<Bpos>| #[trigger]
                keys_between(d@, off as int, end as int, set as int, prev, count as int) == Err::<
                    int,
                    Fault,
                >(f),
            None => off + d@[off as int] * 8 <= end && known_format(d@[off + 1]) && d@[off as int]
                >= 3,
        },
{
    let u64s: u8 = d[off];
    let bytes: usize = u64s as usize * 8;
    if off + bytes > end {
        return Some(
            Fault::EntryTooLong { offset: off as u64, bytes: bytes as u32, end: end as u64 },
        );
    }
    let format: u8 = d[off + 1] & 0x7f;
    if format != 1 && format != 0 {
        return Some(Fault::KeyFormat { set: set as u64, entry: count + 1, format });
    }
    if u64s < 3 {
        return Some(Fault::KeyTooShort { set: set as u64, entry: count + 1, u64s });
    }
    None
}

fn find_keys_fault(node: &BtreeNode, t: &BsetTree, set: usize) -> (r: Option<Fault>)
    requires
        t.end_offset <= node.data@.len() <= DEFAULT_NODE_SIZE,
    ensures
        r == keys_fault(node.data@, *t, set as int),
{
    if t.size == 0 {
        return None;
    }
    let ghost d = node.data@;
    let ghost all = keys_between(d, t.data_offset as int, t.end_offset as int, set as int, None, 0);
    let end: usize = t.end_offset as usize;
    let mut off: usize = t.data_offset as usize;
    let mut prev: Option<Bpos> = None;
    let mut count: u64 = 0;
    let mut done: bool = false;
    while off < end && !done
        invariant
            d == node.data@,
            end == t.end_offset,
            end <= d.len() <= DEFAULT_NODE_SIZE,
            count * 24 <= off,
            t.size > 0,
            all == keys_between(
                d,
                t.data_offset as int,
                t.end_offset as int,
                set as int,
                None,
                0,
            ),
            !done ==> all == keys_between(
                d,
                off as int,
                end as int,
                set as int,
                prev,
                count as int,
            ),
            done ==> all == Ok::<int, Fault>(count as int),
        decreases
            end - off,
            if done {
                0int
            } else {
                1int
            },
    {
        let len: usize = node.data.len();
        if off + 3 > len {
            return Some(
                Fault::EntryHeaderCut { offset: off as u64, remaining: (len - off) as u64 },
            );
        }
        if node.data[off] == 0 {
            done = true;
        } else {
            if let Some(f) = find_key_fault(node.data.as_slice(), off, end, set, count) {
                return Some(f);
            }
            let pos = read_pos(node.data.as_slice(), off);
            if let Some(p) = prev {
                if pos.precedes(&p) {
                    return Some(Fault::KeyOrder { set: set as u64, entry: count + 1 });
                }
                if p == pos {
                    return Some(Fault::DuplicateKey { set: set as u64, entry: count + 1 });
                }
            }
            prev = Some(pos);
            count = count + 1;
            off = off + node.data[off] as usize * 8;
        }
    }
    if count != t.size as u64 {
        return Some(Fault::BsetSize { set: set as u64, declared: t.size, actual: count });
    }
    None
}

/// Checks the keys of a set: each lies inside the set and can be read, each
/// comes behind the one in front of it, and there are as many as the set says.
pub fn bch2_validate_bset_keys(node: &BtreeNode, set_idx: usize) -> (r: Result<(), StorageError>)
    requires
        set_idx < 3 ==> node.sets@[set_idx as int].end_offset <= node.data@.len(),
        node.data@.len() <= DEFAULT_NODE_SIZE,
    ensures
        r == checked(
            if set_idx >= 3 {
                Some(Fault::BsetIndex(set_idx as u64))
            } else {
                keys_fault(node.data@, node.sets@[set_idx as int], set_idx as int)
            },
        ),
{
    if set_idx >= MAX_BSETS {
        return Err(StorageError::CorruptData(Fault::BsetIndex(set_idx as u64)));
    }
    match find_keys_fault(node, &node.sets[set_idx], set_idx) {
        Some(f) => Err(StorageError::CorruptData(f)),
        None => Ok(()),
    }
}

/// The keys that a check counts are the entries that the bytes start with.
pub proof fn lemma_keys_counted(
    d: Seq<u8>,
    off: int,
    end: int,
    set: int,
    prev: Option<Bpos>,
    count: int,
)
    requires
        0 <= off <= end <= d.len(),
        keys_between(d, off, end, set, prev, count) is Ok,
    ensures
        keys_between(d, off, end, set, prev, count)->Ok_0 == count + parse(
            d.subrange(off, end),
        ).len(),
    decreases end - off,
{
    let b = d.subrange(off, end);
    if off < end {
        assert(b[0] == d[off]);
        if d[off] != 0 {
            let n = d[off] * 8;
            assert(head_ok(b));
            assert(b.skip(n) =~= d.subrange(off + n, end));
            lemma_keys_counted(d, off + n, end, set, Some(entry_at(d, off).pos), count + 1);
        }
    }
}

impl BtreeNode {
    /// The entries that set `i` starts with; none where the set says so.
    pub open spec fn read_run(self, i: int) -> Seq<crate::key::EntryView> {
        if self.sets@[i].size == 0 {
            Seq::empty()
        } else {
            set_run(self.data@, self.sets@[i])
        }
    }

    /// The entries that the sets start with, set by set.
    pub open spec fn read_all(self) -> Seq<crate::key::EntryView> {
        self.read_run(0) + self.read_run(1) + self.read_run(2)
    }

    /// Whether the sets lie in the buffer.
    pub open spec fn sets_inside(self) -> bool {
        &&& self.node_size <= self.data@.len() <= DEFAULT_NODE_SIZE
        &&& forall|i: int|
            0 <= i < 3 && (#[trigger] self.sets@[i]).size > 0 ==> self.sets@[i].data_offset
                <= self.sets@[i].end_offset <= self.data@.len()
    }

    /// The part of set `i` that holds the entries it starts with.
    pub fn trimmed(&self, i: usize) -> (r: BsetTree)
        requires
            self.sets_inside(),
            i < 3,
        ensures
            set_readable(self.data@, r),
            set_run(self.data@, r) == self.read_run(i as int),
    {
        let t = self.sets[i];
        let ghost d = self.data@;
        if t.size == 0 {
            let e = BsetTree::empty();
            proof {
                assert(set_bytes(d, e).len() == 0);
                assert(set_run(d, e) =~= Seq::<crate::key::EntryView>::empty());
            }
            return e;
        }
        let end: u32 = t.end_offset;
        let start: u32 = t.data_offset;
        let mut cur: u32 = start;
        let mut done: bool = false;
        assert(d.subrange(start as int, start as int).len() == 0);
        assert(parse(d.subrange(start as int, end as int)) =~= parse(
            d.subrange(start as int, start as int),
        ) + parse(d.subrange(start as int, end as int)));
        while cur < end && !done
            invariant
                d == self.data@,
                start <= cur <= end <= d.len() <= DEFAULT_NODE_SIZE,
                well_packed(d.subrange(start as int, cur as int)),
                parse(d.subrange(start as int, end as int)) == parse(
                    d.subrange(start as int, cur as int),
                ) + parse(d.subrange(cur as int, end as int)),
                done ==> !head_ok(d.subrange(cur as int, end as int)),
            decreases
                end - cur,
                if done {
                    0int
                } else {
                    1int
                },
        {
            let u64s: u8 = self.data[cur as usize];
            let b = Ghost(d.subrange(cur as int, end as int));
            assert((b@)[0] == u64s);
            if u64s >= 3 && cur + u64s as u32 * 8 <= end {
                let next: u32 = cur + u64s as u32 * 8;
                proof {
                    let a = d.subrange(start as int, cur as int);
                    let x = d.subrange(cur as int, next as int);
                    let z = d.subrange(next as int, end as int);
                    assert(x.skip(x[0] * 8) =~= Seq::<u8>::empty());
                    assert(well_packed(x.skip(x[0] * 8)));
                    assert(well_packed(x));
                    lemma_parse_append(a, x);
                    assert(a + x =~= d.subrange(start as int, next as int));
                    lemma_parse_append(x, z);
                    assert(x + z =~= b@);
                    assert(parse(a) + (parse(x) + parse(z)) =~= (parse(a) + parse(x)) + parse(z));
                }
                cur = next;
            } else {
                done = true;
            }
        }
        let r = BsetTree { data_offset: start, end_offset: cur, aux_offset: 0, size: t.size, extra: 0 };
        proof {
            assert(!head_ok(d.subrange(cur as int, end as int)));
            assert(parse(d.subrange(start as int, end as int)) =~= parse(
                d.subrange(start as int, cur as int),
            ));
        }
        r
    }

    /// What is known of the entries that the sets start with.
    pub proof fn lemma_read_all(self)
        requires
            self.sets_inside(),
        ensures
            crate::packed::all_fit(self.read_all()),
            forall|i: int|
                0 <= i < self.read_all().len() ==> (#[trigger] self.read_all()[i]).is_padded(),
            crate::packed::total_size(self.read_run(0)) <= self.data@.len(),
    {
        self.lemma_read_run(0);
        self.lemma_read_run(1);
        self.lemma_read_run(2);
        let a = self.read_run(0);
        let b = self.read_run(1);
        let c = self.read_run(2);
        let all = self.read_all();
        assert forall|i: int| 0 <= i < all.len() implies (#[trigger] all[i]).is_padded()
            && all[i].fits() by {
            if i < a.len() {
                assert(all[i] == a[i]);
            } else if i < a.len() + b.len() {
                assert(all[i] == b[i - a.len()]);
            } else {
                assert(all[i] == c[i - a.len() - b.len()]);
            }
        }
    }

    proof fn lemma_read_run(self, i: int)
        requires
            self.sets_inside(),
            0 <= i < 3,
        ensures
            crate::packed::all_fit(self.read_run(i)),
            forall|j: int| 0 <= j < self.read_run(i).len() ==> (#[trigger] self.read_run(i)[j]).is_padded(),
            crate::packed::total_size(self.read_run(i)) <= self.data@.len(),
    {
        if self.sets@[i].size > 0 {
            lemma_parse_prefix(set_bytes(self.data@, self.sets@[i]));
        } else {
            assert(self.read_run(i) =~= Seq::<crate::key::EntryView>::empty());
        }
    }
}

/// What the entries that bytes start with look like.
pub proof fn lemma_parse_prefix(b: Seq<u8>)
    ensures
        crate::packed::all_fit(parse(b)),
        forall|i: int| 0 <= i < parse(b).len() ==> (#[trigger] parse(b)[i]).is_padded(),
        crate::packed::total_size(parse(b)) <= b.len(),
    decreases b.len(),
{
    if head_ok(b) {
        let n = b[0] * 8;
        let x = b.take(n);
        let z = b.skip(n);
        lemma_parse_prefix(z);
        assert(x.skip(x[0] * 8) =~= Seq::<u8>::empty());
        assert(well_packed(x.skip(x[0] * 8)));
        assert(x.take(n) =~= x);
        lemma_parse_shape(x);
        lemma_parse_append(x, z);
        assert(x + z =~= b);
        let p = parse(b);
        assert(p == parse(x) + parse(z));
        crate::packed::lemma_total_append(parse(x), parse(z));
        assert forall|i: int| 0 <= i < p.len() implies (#[trigger] p[i]).is_padded() && p[i].fits() by {
            if i < parse(x).len() {
                assert(p[i] == parse(x)[i]);
            } else {
                assert(p[i] == parse(z)[i - parse(x).len()]);
            }
        }
    } else {
        assert(parse(b) =~= Seq::<crate::key::EntryView>::empty());
    }
}

} // verus!
