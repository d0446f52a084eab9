//! CRC-32C (Castagnoli).

use vstd::prelude::*;

verus! {

/// One bit of the division: shift, and subtract the polynomial where a one
/// fell out.
pub open spec fn crc_bit(c: u32) -> u32 {
    if c & 1 == 1 {
        (c >> 1) ^ 0x82f6_3b78
    } else {
        c >> 1
    }
}

/// `n` bits of the division.
pub open spec fn crc_bits(c: u32, n: nat) -> u32
    decreases n,
{
    if n == 0 {
        c
    } else {
        crc_bit(crc_bits(c, (n - 1) as nat))
    }
}

/// The remainder after the bytes `s`, starting from `c`.
pub open spec fn crc_fold(c: u32, s: Seq<u8>) -> u32
    decreases s.len(),
{
    if s.len() == 0 {
        c
    } else {
        crc_bits(crc_fold(c, s.drop_last()) ^ (s.last() as u32), 8)
    }
}

/// The CRC-32C of `s`, continuing from `seed`.
pub open spec fn spec_crc32c(s: Seq<u8>, seed: u32) -> u32 {
    !crc_fold(!seed, s)
}

/// The CRC-32C of `data`, continuing from `seed`.
pub fn crc32c(data: &[u8], seed: u32) -> (r: u32)
    ensures
        r == spec_crc32c(data@, seed),
{
    let mut c: u32 = !seed;
    let mut i: usize = 0;
    assert(data@.take(0) =~= Seq::<u8>::empty());
    while i < data.len()
        invariant
            i <= data@.len(),
            c == crc_fold(!seed, data@.take(i as int)),
        decreases data@.len() - i,
    {
        let start: u32 = c ^ (data[i] as u32);
        let mut x: u32 = start;
        let mut k: usize = 0;
        while k < 8
            invariant
                k <= 8,
                x == crc_bits(start, k as nat),
            decreases 8 - k,
        {
            if x & 1 == 1 {
                x = (x >> 1) ^ 0x82f6_3b78;
            } else {
                x = x >> 1;
            }
            k = k + 1;
        }
        c = x;
        proof {
            assert(data@.take(i + 1).drop_last() =~= data@.take(i as int));
        }
        i = i + 1;
    }
    assert(data@.take(data@.len() as int) =~= data@);
    !c
}

} // verus!
