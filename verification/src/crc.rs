//! CRC-32 (IEEE 802.3) over byte ranges, as PNG chunks carry it.

use vstd::prelude::*;

verus! {

/// One bit step of the reflected CRC-32 polynomial.
pub open spec fn spec_crc_bit(s: u32) -> u32 {
    if s & 1 == 1 {
        (s >> 1) ^ 0xEDB8_8320
    } else {
        s >> 1
    }
}

/// `n` bit steps.
pub open spec fn spec_crc_bits(s: u32, n: nat) -> u32
    decreases n,
{
    if n == 0 {
        s
    } else {
        spec_crc_bit(spec_crc_bits(s, (n - 1) as nat))
    }
}

/// Absorb one byte into the CRC state.
pub open spec fn spec_crc_byte(s: u32, b: u8) -> u32 {
    spec_crc_bits(s ^ (b as u32), 8)
}

/// The CRC state after absorbing all of `data`, starting from the
/// all-ones initial state.
pub open spec fn spec_crc_state(data: Seq<u8>) -> u32
    decreases data.len(),
{
    if data.len() == 0 {
        0xFFFF_FFFFu32
    } else {
        spec_crc_byte(spec_crc_state(data.drop_last()), data.last())
    }
}

/// The CRC-32 checksum of `data`.
pub open spec fn spec_crc32(data: Seq<u8>) -> u32 {
    spec_crc_state(data) ^ 0xFFFF_FFFFu32
}

/// CRC-32 of `data[start..end]`.
pub fn crc32_range(data: &[u8], start: usize, end: usize) -> (r: u32)
    requires
        start <= end <= data.len(),
    ensures
        r == spec_crc32(data@.subrange(start as int, end as int)),
{
    let ghost whole = data@.subrange(start as int, end as int);
    let mut s: u32 = 0xFFFF_FFFF;
    let mut i: usize = start;
    while i < end
        invariant
            start <= i <= end <= data.len(),
            whole == data@.subrange(start as int, end as int),
            s == spec_crc_state(data@.subrange(start as int, i as int)),
        decreases end - i,
    {
        let b = data[i];
        let mut t: u32 = s ^ (b as u32);
        let mut j: u8 = 0;
        while j < 8
            invariant
                j <= 8,
                t == spec_crc_bits(s ^ (b as u32), j as nat),
            decreases 8 - j,
        {
            t = if t & 1 == 1 {
                (t >> 1) ^ 0xEDB8_8320
            } else {
                t >> 1
            };
            j = j + 1;
        }
        proof {
            let pre = data@.subrange(start as int, i as int);
            let cur = data@.subrange(start as int, i + 1 as int);
            assert(cur.drop_last() =~= pre);
            assert(cur.last() == data@[i as int]);
        }
        s = t;
        i = i + 1;
    }
    assert(data@.subrange(start as int, i as int) == whole);
    s ^ 0xFFFF_FFFF
}

} // verus!
