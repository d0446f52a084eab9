//! The orders of keys, positions and places of a collection, and checksums.

use crate::crc::{crc_bit, crc_bits, crc_fold, spec_crc32c};
use crate::gc::{spec_gc_phase, GcPhase, GcPos};
use crate::key::{Bpos, BtreeKey};
use vstd::prelude::*;

verus! {

// ── orders ──────────────────────────────────────────────────────────────

/// Keys are ordered by their offset, and at one offset the later snapshot comes
/// first; the type does not count.
pub proof fn lemma_keys_ordered(a: BtreeKey, b: BtreeKey)
    ensures
        a.vaddr < b.vaddr ==> a.lt(b),
        a.vaddr == b.vaddr && a.snapshot_id > b.snapshot_id ==> a.lt(b),
        a.vaddr == b.vaddr && a.snapshot_id == b.snapshot_id ==> !a.lt(b) && !b.lt(a)
            && a.same_slot(b),
        a.same_slot(b) ==> a.vaddr == b.vaddr && a.snapshot_id == b.snapshot_id,
        !(a.lt(b) && b.lt(a)),
{
}

/// Positions are ordered by their inode, then as keys are.
pub proof fn lemma_positions_ordered(a: Bpos, b: Bpos)
    ensures
        a.inode < b.inode ==> a.lt(b),
        a.inode == b.inode && a.offset < b.offset ==> a.lt(b),
        a.inode == b.inode && a.offset == b.offset && a.snapshot > b.snapshot ==> a.lt(b),
        a.inode == b.inode && a.offset == b.offset && a.snapshot == b.snapshot ==> !a.lt(b),
        !(a.lt(b) && b.lt(a)),
{
}

/// A collection goes from one phase to the next, and in the trees from one tree to
/// the next, level by level, by rising position.
pub proof fn lemma_places_ordered(a: GcPos, b: GcPos)
    ensures
        a.phase == GcPhase::NotRunning && b.phase != GcPhase::NotRunning ==> a.lt(b),
        a.phase == GcPhase::Start && (b.phase == GcPhase::Sb || b.phase == GcPhase::Btree)
            ==> a.lt(b),
        a.phase == GcPhase::Sb && b.phase == GcPhase::Btree ==> a.lt(b),
        a.phase == b.phase && a.btree < b.btree ==> a.lt(b),
        a.phase == b.phase && a.btree == b.btree && a.level < b.level ==> a.lt(b),
        a.phase == b.phase && a.btree == b.btree && a.level == b.level && a.pos < b.pos ==> a.lt(b),
        a.phase == b.phase && a.btree == b.btree && a.level == b.level && a.pos == b.pos
            ==> !a.lt(b) && !b.lt(a),
        !b.lt(spec_gc_phase(b.phase)),
{
}

// ── checksums ───────────────────────────────────────────────────────────

proof fn lemma_fold_append(c: u32, a: Seq<u8>, b: Seq<u8>)
    ensures
        crc_fold(c, a + b) == crc_fold(crc_fold(c, a), b),
    decreases b.len(),
{
    if b.len() == 0 {
        assert(a + b =~= a);
    } else {
        lemma_fold_append(c, a, b.drop_last());
        assert((a + b).drop_last() =~= a + b.drop_last());
        assert((a + b).last() == b.last());
    }
}

/// The checksum of two runs of bytes is that of the second, continued from that of
/// the first.
pub proof fn lemma_crc_continues(a: Seq<u8>, b: Seq<u8>, seed: u32)
    ensures
        spec_crc32c(a + b, seed) == spec_crc32c(b, spec_crc32c(a, seed)),
        spec_crc32c(Seq::<u8>::empty(), seed) == seed,
{
    lemma_fold_append(!seed, a, b);
    let x = crc_fold(!seed, a);
    assert(!(!x) == x) by (bit_vector);
    assert(!(!seed) == seed) by (bit_vector);
}

proof fn lemma_bits_apart(x: u32, y: u32, n: nat)
    requires
        x != y,
    ensures
        crc_bits(x, n) != crc_bits(y, n),
    decreases n,
{
    if n > 0 {
        lemma_bits_apart(x, y, (n - 1) as nat);
        let a = crc_bits(x, (n - 1) as nat);
        let b = crc_bits(y, (n - 1) as nat);
        assert(crc_bit(a) != crc_bit(b)) by (bit_vector)
            requires
                a != b,
        ;
    }
}

proof fn lemma_fold_apart(x: u32, y: u32, s: Seq<u8>)
    requires
        x != y,
    ensures
        crc_fold(x, s) != crc_fold(y, s),
    decreases s.len(),
{
    if s.len() > 0 {
        lemma_fold_apart(x, y, s.drop_last());
        let a = crc_fold(x, s.drop_last());
        let b = crc_fold(y, s.drop_last());
        let v = s.last() as u32;
        assert(a ^ v != b ^ v) by (bit_vector)
            requires
                a != b,
        ;
        lemma_bits_apart(a ^ v, b ^ v, 8);
    }
}

/// Every byte counts: runs that differ in one byte have different checksums, and
/// so have different seeds for one run.
pub proof fn lemma_crc_apart(a: Seq<u8>, i: int, v: u8, seed: u32, other: u32)
    requires
        0 <= i < a.len(),
        a[i] != v,
    ensures
        spec_crc32c(a, seed) != spec_crc32c(a.update(i, v), seed),
        seed != other ==> spec_crc32c(a, seed) != spec_crc32c(a, other),
{
    let b = a.update(i, v);
    let head = a.take(i);
    let tail = a.skip(i + 1);
    let x = a.take(i + 1);
    let y = b.take(i + 1);
    assert(a =~= x + tail);
    assert(b =~= y + tail);
    lemma_fold_append(!seed, x, tail);
    lemma_fold_append(!seed, y, tail);
    assert(x.drop_last() =~= head && y.drop_last() =~= head);
    let c = crc_fold(!seed, head);
    let p = a[i] as u32;
    let q = v as u32;
    assert(c ^ p != c ^ q) by (bit_vector)
        requires
            p != q,
    ;
    lemma_bits_apart(c ^ p, c ^ q, 8);
    lemma_fold_apart(crc_fold(!seed, x), crc_fold(!seed, y), tail);
    let m = crc_fold(!seed, a);
    let n = crc_fold(!seed, b);
    assert(!m != !n) by (bit_vector)
        requires
            m != n,
    ;
    if seed != other {
        assert(!seed != !other) by (bit_vector)
            requires
                seed != other,
        ;
        lemma_fold_apart(!seed, !other, a);
        let w = crc_fold(!other, a);
        assert(!m != !w) by (bit_vector)
            requires
                m != w,
        ;
    }
}

} // verus!
