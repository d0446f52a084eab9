//! Little-endian fields inside byte buffers.

use vstd::prelude::*;

verus! {

/// The number that the bytes `s` spell, least significant byte first.
pub open spec fn le_val(s: Seq<u8>) -> nat
    decreases s.len(),
{
    if s.len() == 0 {
        0
    } else {
        s[0] as nat + 256 * le_val(s.skip(1))
    }
}

/// The `n` low bytes of `v`, least significant byte first.
pub open spec fn le_bytes(v: nat, n: nat) -> Seq<u8>
    decreases n,
{
    if n == 0 {
        Seq::<u8>::empty()
    } else {
        seq![(v % 256) as u8] + le_bytes(v / 256, (n - 1) as nat)
    }
}

/// 256 to the power `n`.
pub open spec fn pow256(n: nat) -> nat
    decreases n,
{
    if n == 0 {
        1
    } else {
        256 * pow256((n - 1) as nat)
    }
}

/// The `n`-byte field of `b` at offset `off`.
pub open spec fn le_at(b: Seq<u8>, off: int, n: int) -> nat {
    le_val(b.subrange(off, off + n))
}

/// `d` with the bytes from `off` on replaced by `s`.
pub open spec fn splice(d: Seq<u8>, off: int, s: Seq<u8>) -> Seq<u8> {
    Seq::new(
        d.len(),
        |i: int|
            if off <= i < off + s.len() {
                s[i - off]
            } else {
                d[i]
            },
    )
}

pub proof fn lemma_pow256_values()
    ensures
        pow256(0) == 1,
        pow256(1) == 256,
        pow256(2) == 0x1_0000,
        pow256(4) == 0x1_0000_0000,
        pow256(6) == 0x1_0000_0000_0000,
        pow256(8) == 0x1_0000_0000_0000_0000,
{
    reveal_with_fuel(pow256, 9);
}

pub proof fn lemma_pow256_mono(a: nat, b: nat)
    requires
        a <= b,
    ensures
        pow256(a) <= pow256(b),
        pow256(a) >= 1,
    decreases b,
{
    if a < b {
        lemma_pow256_mono(a, (b - 1) as nat);
    } else if a > 0 {
        lemma_pow256_mono((a - 1) as nat, (b - 1) as nat);
    }
}

/// A field of `n` bytes holds less than 256 to the power `n`.
pub proof fn lemma_le_val_bound(s: Seq<u8>)
    ensures
        le_val(s) < pow256(s.len()),
    decreases s.len(),
{
    if s.len() > 0 {
        lemma_le_val_bound(s.skip(1));
    }
}

pub proof fn lemma_le_bytes_len(v: nat, n: nat)
    ensures
        le_bytes(v, n).len() == n,
    decreases n,
{
    if n > 0 {
        lemma_le_bytes_len(v / 256, (n - 1) as nat);
    }
}

/// Writing a number and reading it back gives the number.
pub proof fn lemma_le_roundtrip(v: nat, n: nat)
    requires
        v < pow256(n),
    ensures
        le_bytes(v, n).len() == n,
        le_val(le_bytes(v, n)) == v,
    decreases n,
{
    lemma_le_bytes_len(v, n);
    if n > 0 {
        let m = (n - 1) as nat;
        lemma_le_bytes_len(v / 256, m);
        assert(v / 256 < pow256(m));
        lemma_le_roundtrip(v / 256, m);
        assert(le_bytes(v, n).skip(1) =~= le_bytes(v / 256, m));
    }
}

/// Reading a field and writing it back gives the field.
pub proof fn lemma_le_bytes_of_val(s: Seq<u8>)
    ensures
        le_bytes(le_val(s), s.len()) == s,
    decreases s.len(),
{
    if s.len() > 0 {
        lemma_le_bytes_of_val(s.skip(1));
        let v = le_val(s);
        assert(v % 256 == s[0] as nat);
        assert(v / 256 == le_val(s.skip(1)));
        assert(seq![s[0]] + s.skip(1) =~= s);
    } else {
        assert(le_bytes(le_val(s), s.len()) =~= s);
    }
}

/// Two adjacent writes are one write of both pieces.
pub proof fn lemma_splice_join(d: Seq<u8>, off: int, a: Seq<u8>, b: Seq<u8>)
    ensures
        splice(splice(d, off, a), off + a.len(), b) == splice(d, off, a + b),
{
    assert(splice(splice(d, off, a), off + a.len(), b) =~= splice(d, off, a + b));
}

/// What a write put down can be cut out again.
pub proof fn lemma_splice_subrange(d: Seq<u8>, off: int, s: Seq<u8>)
    requires
        0 <= off,
        off + s.len() <= d.len(),
    ensures
        splice(d, off, s).subrange(off, off + s.len()) == s,
{
    assert(splice(d, off, s).subrange(off, off + s.len()) =~= s);
}

/// A range that a write does not touch stays as it was.
pub proof fn lemma_splice_frame(d: Seq<u8>, off: int, s: Seq<u8>, lo: int, hi: int)
    requires
        0 <= lo <= hi <= d.len(),
        hi <= off || off + s.len() <= lo,
    ensures
        splice(d, off, s).subrange(lo, hi) == d.subrange(lo, hi),
{
    assert(splice(d, off, s).subrange(lo, hi) =~= d.subrange(lo, hi));
}

/// Reads the `n`-byte field at `off`.
pub fn get_le(b: &[u8], off: usize, n: usize) -> (v: u64)
    requires
        n <= 8,
        off + n <= b@.len(),
    ensures
        v as nat == le_at(b@, off as int, n as int),
        v < pow256(n as nat),
{
    let total: usize = b.len();
    let mut i: usize = n;
    let mut v: u64 = 0;
    proof {
        lemma_le_val_bound(b@.subrange(off as int, off + n));
    }
    while i > 0
        invariant
            i <= n <= 8,
            off + n <= total,
            total == b@.len(),
            v as nat == le_val(b@.subrange(off + i, off + n)),
        decreases i,
    {
        let ghost tail = b@.subrange(off + i, off + n);
        i = i - 1;
        let ghost cur = b@.subrange(off + i, off + n);
        proof {
            assert(cur.skip(1) =~= tail);
            lemma_le_val_bound(cur);
            lemma_pow256_mono((n - i) as nat, 8);
            lemma_pow256_values();
        }
        v = v * 256 + b[off + i] as u64;
    }
    proof {
        lemma_le_val_bound(b@.subrange(off as int, off + n));
    }
    v
}

/// Writes the `n` low bytes of `v` at `off`.
pub fn put_le(b: &mut Vec<u8>, off: usize, n: usize, v: u64)
    requires
        off + n <= old(b)@.len(),
    ensures
        final(b)@ == splice(old(b)@, off as int, le_bytes(v as nat, n as nat)),
{
    let total: usize = b.len();
    let mut i: usize = 0;
    let mut rest: u64 = v;
    proof {
        lemma_le_bytes_len(v as nat, n as nat);
        assert(b@ =~= splice(old(b)@, off as int, Seq::<u8>::empty()));
    }
    let ghost mut done = Seq::<u8>::empty();
    while i < n
        invariant
            i <= n,
            off + n <= total,
            total == old(b)@.len(),
            b@.len() == old(b)@.len(),
            done.len() == i,
            b@ == splice(old(b)@, off as int, done),
            done + le_bytes(rest as nat, (n - i) as nat) == le_bytes(v as nat, n as nat),
        decreases n - i,
    {
        let byte: u8 = (rest % 256) as u8;
        let ghost before = b@;
        b.set(off + i, byte);
        proof {
            let piece = seq![byte];
            assert(b@ =~= splice(before, off + i, piece));
            lemma_splice_join(old(b)@, off as int, done, piece);
            assert(done + le_bytes(rest as nat, (n - i) as nat) =~= (done + piece) + le_bytes(
                (rest / 256) as nat,
                (n - i - 1) as nat,
            ));
            done = done + piece;
        }
        rest = rest / 256;
        i = i + 1;
    }
    proof {
        assert(done + le_bytes(rest as nat, 0) =~= done);
    }
}

/// Writes the bytes `s` at `off`.
pub fn put_bytes(b: &mut Vec<u8>, off: usize, s: &[u8])
    requires
        off + s@.len() <= old(b)@.len(),
    ensures
        final(b)@ == splice(old(b)@, off as int, s@),
{
    let total: usize = b.len();
    let mut i: usize = 0;
    while i < s.len()
        invariant
            i <= s@.len(),
            off + s@.len() <= total,
            total == old(b)@.len(),
            b@ =~= splice(old(b)@, off as int, s@.take(i as int)),
        decreases s@.len() - i,
    {
        b.set(off + i, s[i]);
        i = i + 1;
    }
    proof {
        assert(s@.take(s@.len() as int) =~= s@);
    }
}

/// Writes `n` zero bytes at `off`.
pub fn put_zeros(b: &mut Vec<u8>, off: usize, n: usize)
    requires
        off + n <= old(b)@.len(),
    ensures
        final(b)@ == splice(old(b)@, off as int, Seq::new(n as nat, |i: int| 0u8)),
{
    let total: usize = b.len();
    let mut i: usize = 0;
    while i < n
        invariant
            i <= n,
            off + n <= total,
            total == old(b)@.len(),
            b@ =~= splice(old(b)@, off as int, Seq::new(i as nat, |k: int| 0u8)),
        decreases n - i,
    {
        b.set(off + i, 0);
        i = i + 1;
    }
}

/// A vector of `n` zero bytes.
pub fn zeros(n: usize) -> (v: Vec<u8>)
    ensures
        v@ == Seq::new(n as nat, |i: int| 0u8),
{
    let v: Vec<u8> = vec![0u8; n];
    assert(v@ =~= Seq::new(n as nat, |i: int| 0u8));
    v
}

/// A copy of the bytes `s`.
pub fn copy_bytes(s: &[u8]) -> (v: Vec<u8>)
    ensures
        v@ == s@,
{
    let mut v: Vec<u8> = Vec::with_capacity(s.len());
    let mut i: usize = 0;
    while i < s.len()
        invariant
            i <= s@.len(),
            v@ =~= s@.take(i as int),
        decreases s@.len() - i,
    {
        v.push(s[i]);
        i = i + 1;
    }
    assert(s@.take(s@.len() as int) =~= s@);
    v
}

} // verus!
