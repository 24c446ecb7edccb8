//! Packed-sample access: reading and writing samples of 1, 2, 4, 8 or 16
//! bits inside a byte-aligned scanline, most significant bits first.

use vstd::prelude::*;
use vstd::arithmetic::power2::{pow2, lemma2_to64, lemma_pow2_pos};
use vstd::bits::{lemma_u8_shr_is_div, lemma_u8_low_bits_mask_is_mod, low_bits_mask};

verus! {

/// True for the bit widths at which PNG packs samples.
pub open spec fn valid_bits(bits: nat) -> bool {
    bits == 1 || bits == 2 || bits == 4 || bits == 8 || bits == 16
}

/// Bytes occupied by a scanline of `n` samples packed at `bits` bits each.
pub open spec fn spec_row_bytes(n: nat, bits: nat) -> nat {
    (n * bits + 7) / 8
}

pub fn row_bytes(n: usize, bits: u8) -> (r: usize)
    requires
        valid_bits(bits as nat),
        n * bits + 7 <= usize::MAX,
    ensures
        r as nat == spec_row_bytes(n as nat, bits as nat),
{
    (n * bits as usize + 7) / 8
}

/// Samples per byte at a sub-byte depth.
pub open spec fn per_byte(bits: nat) -> int {
    if bits == 1 {
        8
    } else if bits == 2 {
        4
    } else {
        2
    }
}

/// The right-shift that brings sub-byte sample `i` down to the low bits of
/// its byte.
pub open spec fn sub_shift(bits: nat, i: int) -> nat {
    if bits == 1 {
        (7 - i % 8) as nat
    } else if bits == 2 {
        (6 - 2 * (i % 4)) as nat
    } else {
        (4 - 4 * (i % 2)) as nat
    }
}

/// The value of sample `i` in a run of samples packed at `bits` bits each,
/// starting at byte `base` of `data`. Sub-byte samples are packed most
/// significant bits first; 16-bit samples are big-endian.
pub open spec fn spec_sample(data: Seq<u8>, base: int, bits: nat, i: int) -> nat {
    if bits == 16 {
        data[base + 2 * i] as nat * 256 + data[base + 2 * i + 1] as nat
    } else if bits == 8 {
        data[base + i] as nat
    } else {
        (data[base + i / per_byte(bits)] as nat / pow2(sub_shift(bits, i))) % pow2(bits)
    }
}

/// First byte, relative to the base, holding sample `i`.
pub open spec fn spec_sample_start(bits: nat, i: int) -> int {
    if bits == 16 {
        2 * i
    } else if bits == 8 {
        i
    } else {
        i / per_byte(bits)
    }
}

/// Exclusive end, relative to the base, of the bytes holding sample `i`.
pub open spec fn spec_sample_end(bits: nat, i: int) -> int {
    if bits == 16 {
        2 * i + 2
    } else {
        spec_sample_start(bits, i) + 1
    }
}

/// The largest value a sample of this width can hold.
pub open spec fn spec_sample_max(bits: nat) -> nat {
    (pow2(bits) - 1) as nat
}

pub proof fn lemma_sample_max_values()
    ensures
        spec_sample_max(1) == 1,
        spec_sample_max(2) == 3,
        spec_sample_max(4) == 15,
        spec_sample_max(8) == 255,
        spec_sample_max(16) == 65535,
{
    lemma2_to64();
}

/// Every sample value lies within the width's range.
pub proof fn lemma_sample_bound(data: Seq<u8>, base: int, bits: nat, i: int)
    requires
        valid_bits(bits),
    ensures
        spec_sample(data, base, bits, i) <= spec_sample_max(bits),
{
    lemma2_to64();
    if bits == 16 {
    } else if bits == 8 {
    } else {
        lemma_pow2_pos(bits);
        let b = data[base + i / per_byte(bits)] as nat;
        let q = b / pow2(sub_shift(bits, i));
        assert(q % pow2(bits) < pow2(bits)) by {
            vstd::arithmetic::div_mod::lemma_mod_bound(q as int, pow2(bits) as int);
        }
    }
}

/// A sample read out of all-zero bytes is zero.
pub proof fn lemma_zero_sample(data: Seq<u8>, base: int, bits: nat, i: int)
    requires
        valid_bits(bits),
        0 <= base + spec_sample_start(bits, i),
        base + spec_sample_end(bits, i) <= data.len(),
        forall|j: int|
            base + spec_sample_start(bits, i) <= j < base + spec_sample_end(bits, i)
                ==> data[j] == 0,
    ensures
        spec_sample(data, base, bits, i) == 0,
{
    lemma2_to64();
    if bits < 8 {
        lemma_pow2_pos(bits);
        lemma_pow2_pos(sub_shift(bits, i));
        assert(data[base + i / per_byte(bits)] == 0);
        let p = pow2(sub_shift(bits, i));
        let q = pow2(bits);
        assert(0nat / p == 0) by (nonlinear_arith)
            requires p > 0,
        ;
        assert(0nat % q == 0) by (nonlinear_arith)
            requires q > 0,
        ;
    }
}

/// Read sample `i` of the packed run starting at `base`.
pub fn get_packed_sample(data: &Vec<u8>, base: usize, bits: u8, i: usize) -> (v: u16)
    requires
        valid_bits(bits as nat),
        base + spec_sample_end(bits as nat, i as int) <= data.len(),
    ensures
        v as nat == spec_sample(data@, base as int, bits as nat, i as int),
{
    if bits == 16 {
        let hi = data[base + 2 * i];
        let lo = data[base + 2 * i + 1];
        (hi as u16) * 256 + (lo as u16)
    } else if bits == 8 {
        data[base + i] as u16
    } else if bits == 4 {
        let byte = data[base + i / 2];
        let r: u8 = (i % 2) as u8;
        let shift: u8 = 4 - r * 4;
        let v: u8 = (byte >> shift) & 0xf;
        proof {
            lemma_get_sub(byte, shift, 4, 0xf);
            assert(shift as nat == sub_shift(4, i as int));
        }
        v as u16
    } else if bits == 2 {
        let byte = data[base + i / 4];
        let r: u8 = (i % 4) as u8;
        let shift: u8 = 6 - r * 2;
        let v: u8 = (byte >> shift) & 0x3;
        proof {
            lemma_get_sub(byte, shift, 2, 0x3);
            assert(shift as nat == sub_shift(2, i as int));
        }
        v as u16
    } else {
        let byte = data[base + i / 8];
        let r: u8 = (i % 8) as u8;
        let shift: u8 = 7 - r;
        let v: u8 = (byte >> shift) & 0x1;
        proof {
            lemma_get_sub(byte, shift, 1, 0x1);
            assert(shift as nat == sub_shift(1, i as int));
        }
        v as u16
    }
}

/// Facts about the sub-byte shift: it leaves room for the sample and is a
/// multiple of the sample width.
proof fn lemma_sub_shift_facts(bits: u8, i: int)
    requires
        bits == 1 || bits == 2 || bits == 4,
    ensures
        sub_shift(bits as nat, i) + bits <= 8,
        sub_shift(bits as nat, i) % (bits as nat) == 0,
{
    let d = per_byte(bits as nat);
    let r = i % d;
    if bits == 1 {
        assert(d == 8);
        assert(0 <= r < 8) by {
            vstd::arithmetic::div_mod::lemma_mod_bound(i, 8);
        }
    } else if bits == 2 {
        assert(d == 4);
        assert(0 <= r < 4) by {
            vstd::arithmetic::div_mod::lemma_mod_bound(i, 4);
        }
    } else {
        assert(d == 2);
        assert(0 <= r < 2) by {
            vstd::arithmetic::div_mod::lemma_mod_bound(i, 2);
        }
    }
}

/// Shift-and-mask extraction equals the division form used by `spec_sample`.
proof fn lemma_get_sub(byte: u8, shift: u8, bits: u8, mask: u8)
    requires
        bits == 1 || bits == 2 || bits == 4,
        shift + bits <= 8,
        (bits == 1 && mask == 1) || (bits == 2 && mask == 3) || (bits == 4 && mask == 15),
    ensures
        ((byte >> shift) & mask) as nat == (byte as nat / pow2(shift as nat)) % pow2(bits as nat),
{
    lemma2_to64();
    vstd::bits::lemma_low_bits_mask_values();
    lemma_u8_shr_is_div(byte, shift);
    let q: u8 = byte >> shift;
    assert(mask == low_bits_mask(bits as nat) as u8);
    lemma_u8_low_bits_mask_is_mod(q, bits as nat);
    lemma_pow2_pos(bits as nat);
    assert((q % (pow2(bits as nat) as u8)) as nat == q as nat % pow2(bits as nat));
}

/// Write sample `i` of the packed run starting at `base`, replacing whatever
/// the destination bits held.
pub fn set_packed_sample(data: &mut Vec<u8>, base: usize, bits: u8, i: usize, v: u16)
    requires
        valid_bits(bits as nat),
        base + spec_sample_end(bits as nat, i as int) <= old(data).len(),
        v as nat <= spec_sample_max(bits as nat),
    ensures
        final(data).len() == old(data).len(),
        spec_sample(final(data)@, base as int, bits as nat, i as int) == v as nat,
        forall|j: int|
            0 <= j < final(data).len() && !(base + spec_sample_start(bits as nat, i as int) <= j
                < base + spec_sample_end(bits as nat, i as int)) ==> final(data)@[j] == old(
                data,
            )@[j],
        forall|k: int|
            k != i && 0 <= base + spec_sample_start(bits as nat, k) && base + spec_sample_end(
                bits as nat,
                k,
            ) <= final(data).len() ==> spec_sample(final(data)@, base as int, bits as nat, k)
                == spec_sample(old(data)@, base as int, bits as nat, k),
{
    proof {
        lemma_sample_max_values();
    }
    if bits == 16 {
        let hi: u8 = (v >> 8) as u8;
        let lo: u8 = (v & 0xff) as u8;
        data.set(base + 2 * i, hi);
        data.set(base + 2 * i + 1, lo);
        proof {
            assert(((v >> 8) as u8) as nat * 256 + ((v & 0xff) as u8) as nat == v as nat)
                by (bit_vector);
            assert forall|k: int|
                k != i && 0 <= base + spec_sample_start(16, k) && base + spec_sample_end(16, k)
                    <= data.len() implies spec_sample(data@, base as int, 16, k) == spec_sample(
                old(data)@,
                base as int,
                16,
                k,
            ) by {
                assert(2 * k + 1 < 2 * i || 2 * k > 2 * i + 1);
            }
        }
    } else if bits == 8 {
        data.set(base + i, v as u8);
    } else {
        let ghost pre = data@;
        let (d, shift): (usize, u8) = if bits == 4 {
            (2, 4 - ((i % 2) as u8) * 4)
        } else if bits == 2 {
            (4, 6 - ((i % 4) as u8) * 2)
        } else {
            (8, 7 - ((i % 8) as u8))
        };
        proof {
            assert(d as int == per_byte(bits as nat));
            assert(shift as nat == sub_shift(bits as nat, i as int));
            lemma_sub_shift_facts(bits, i as int);
        }
        let idx = base + i / d;
        let b = data[idx];
        let mask: u8 = if bits == 4 {
            0xf
        } else if bits == 2 {
            0x3
        } else {
            0x1
        };
        let nb: u8 = (b & !(mask << shift)) | ((v as u8) << shift);
        data.set(idx, nb);
        proof {
            lemma_set_sub_preserves(b, nb, v as u8, shift, bits, i as int, base as int, idx as int,
                pre, data@);
        }
    }
}

/// After OR-ing a sub-byte sample into place, that sample reads back as the
/// written value and every other sample of the run is unchanged.
proof fn lemma_set_sub_preserves(
    b: u8,
    nb: u8,
    v: u8,
    shift: u8,
    bits: u8,
    i: int,
    base: int,
    idx: int,
    old_data: Seq<u8>,
    new_data: Seq<u8>,
)
    requires
        bits == 1 || bits == 2 || bits == 4,
        shift as nat == sub_shift(bits as nat, i),
        idx == base + i / per_byte(bits as nat),
        0 <= idx < old_data.len(),
        old_data[idx] == b,
        new_data == old_data.update(idx, nb),
        nb == (b & !((if bits == 1 {
            1u8
        } else if bits == 2 {
            3u8
        } else {
            15u8
        }) << shift)) | (v << shift),
        v as nat <= spec_sample_max(bits as nat),
    ensures
        spec_sample(new_data, base, bits as nat, i) == v as nat,
        forall|k: int|
            k != i && 0 <= base + spec_sample_start(bits as nat, k) && base + spec_sample_end(
                bits as nat,
                k,
            ) <= new_data.len() ==> spec_sample(new_data, base, bits as nat, k) == spec_sample(
                old_data,
                base,
                bits as nat,
                k,
            ),
{
    lemma2_to64();
    lemma_sample_max_values();
    lemma_sub_shift_facts(bits, i);
    let d = per_byte(bits as nat);
    let r = i % d;
    let mask: u8 = if bits == 1 {
        1
    } else if bits == 2 {
        3
    } else {
        15
    };
    assert(((nb >> shift) & mask) == v) by (bit_vector)
        requires
            nb == (b & !(mask << shift)) | (v << shift),
            shift + bits <= 8,
            bits == 1 || bits == 2 || bits == 4,
            (bits == 1 && mask == 1) || (bits == 2 && mask == 3) || (bits == 4 && mask == 15),
            v <= mask,
    ;
    assert(spec_sample(new_data, base, bits as nat, i) == v as nat) by {
        lemma_get_sub(nb, shift, bits, mask);
    }
    assert forall|k: int|
        k != i && 0 <= base + spec_sample_start(bits as nat, k) && base + spec_sample_end(
            bits as nat,
            k,
        ) <= new_data.len() implies spec_sample(new_data, base, bits as nat, k) == spec_sample(
        old_data,
        base,
        bits as nat,
        k,
    ) by {
        if base + k / d == idx {
            lemma_sub_shift_facts(bits, k);
            let rk = k % d;
            assert(rk != r) by {
                vstd::arithmetic::div_mod::lemma_fundamental_div_mod(k, d);
                vstd::arithmetic::div_mod::lemma_fundamental_div_mod(i, d);
            }
            assert(sub_shift(bits as nat, k) <= 7);
            let sk: u8 = sub_shift(bits as nat, k) as u8;
            assert(sk != shift) by {
                assert(0 <= rk < d && 0 <= r < d) by {
                    vstd::arithmetic::div_mod::lemma_mod_bound(k, d);
                    vstd::arithmetic::div_mod::lemma_mod_bound(i, d);
                }
                if bits == 1 {
                    assert(sk as int == 7 - rk && shift as int == 7 - r);
                } else if bits == 2 {
                    assert(sk as int == 6 - 2 * rk && shift as int == 6 - 2 * r);
                } else {
                    assert(sk as int == 4 - 4 * rk && shift as int == 4 - 4 * r);
                }
            }
            assert(((nb >> sk) & mask) == ((b >> sk) & mask)) by (bit_vector)
                requires
                    nb == (b & !(mask << shift)) | (v << shift),
                    shift + bits <= 8,
                    sk + bits <= 8,
                    shift % bits == 0,
                    sk % bits == 0,
                    sk != shift,
                    bits == 1 || bits == 2 || bits == 4,
                    (bits == 1 && mask == 1) || (bits == 2 && mask == 3) || (bits == 4 && mask
                        == 15),
                    v <= mask,
            ;
            assert(new_data[base + k / d] == nb);
            assert(spec_sample(new_data, base, bits as nat, k) == ((nb >> sk) & mask) as nat) by {
                lemma_get_sub(nb, sk, bits, mask);
            }
            assert(spec_sample(old_data, base, bits as nat, k) == ((b >> sk) & mask) as nat) by {
                lemma_get_sub(b, sk, bits, mask);
            }
        } else {
            assert(new_data[base + k / d] == old_data[base + k / d]);
        }
    }
}

/// Every sample of a row lies inside the row's bytes.
pub proof fn lemma_sample_in_row(n: nat, bits: nat, i: int)
    requires
        valid_bits(bits),
        0 <= i < n,
    ensures
        0 <= spec_sample_start(bits, i),
        spec_sample_end(bits, i) <= spec_row_bytes(n, bits),
{
    if bits == 16 {
        assert((n * 16 + 7) / 8 == 2 * n) by (nonlinear_arith);
        assert(2 * i + 2 <= 2 * n);
    } else if bits == 8 {
        assert((n * 8 + 7) / 8 == n) by (nonlinear_arith);
    } else if bits == 4 {
        assert(i / 2 + 1 <= (n * 4 + 7) / 8) by (nonlinear_arith)
            requires
                0 <= i < n,
        ;
        assert(i / 2 >= 0) by (nonlinear_arith)
            requires
                i >= 0,
        ;
    } else if bits == 2 {
        assert(i / 4 + 1 <= (n * 2 + 7) / 8) by (nonlinear_arith)
            requires
                0 <= i < n,
        ;
        assert(i / 4 >= 0) by (nonlinear_arith)
            requires
                i >= 0,
        ;
    } else {
        assert(i / 8 + 1 <= (n * 1 + 7) / 8) by (nonlinear_arith)
            requires
                0 <= i < n,
        ;
        assert(i / 8 >= 0) by (nonlinear_arith)
            requires
                i >= 0,
        ;
    }
}

/// A row's bytes lie inside a buffer of `h` rows.
pub proof fn lemma_row_extent(y: int, h: int, rb: nat)
    requires
        0 <= y < h,
    ensures
        0 <= y * rb,
        y * rb + rb <= h * rb,
{
    assert(0 <= y * rb && y * rb + rb <= h * rb) by (nonlinear_arith)
        requires
            0 <= y < h,
    ;
}

} // verus!
