//! Single bits of 64-bit masks.

use vstd::prelude::*;

verus! {

/// Bit `j` of `mask` is set.
pub open spec fn bit_set(mask: u64, j: int) -> bool {
    0 <= j < 64 && (mask >> (j as u64)) & 1 == 1
}

pub proof fn lemma_bit_of_zero(j: u64)
    by (bit_vector)
    requires
        j < 64,
    ensures
        (0u64 >> j) & 1 == 0,
{
}

pub proof fn lemma_bit_after_set(mask: u64, j: u64, t: u64)
    by (bit_vector)
    requires
        j < 64,
        t < 64,
    ensures
        ((mask | (1u64 << j)) >> t) & 1 == (if t == j {
            1u64
        } else {
            (mask >> t) & 1
        }),
{
}

pub proof fn lemma_bit_after_clearing_lowest(m: u64, pos: u64, t: u64)
    by (bit_vector)
    requires
        pos < 64,
        t < 64,
        (m >> pos) & 1 == 1,
        pos == 0 || m << ((64 - pos) as u64) == 0,
    ensures
        m != 0,
        ((m & ((m - 1) as u64)) >> t) & 1 == (if t == pos {
            0u64
        } else {
            (m >> t) & 1
        }),
{
}

pub proof fn lemma_bit_of_joined_halves(lo: u64, hi: u64, t: u64)
    by (bit_vector)
    requires
        t < 64,
        lo >> 32 == 0,
        hi >> 32 == 0,
    ensures
        ((lo | (hi << 32)) >> t) & 1 == (if t < 32 {
            (lo >> t) & 1
        } else {
            (hi >> ((t - 32) as u64)) & 1
        }),
{
}

pub proof fn lemma_bit_after_clear(m: u64, pos: u64, t: u64)
    by (bit_vector)
    requires
        pos < 64,
        t < 64,
    ensures
        ((m & !(1u64 << pos)) >> t) & 1 == (if t == pos {
            0u64
        } else {
            (m >> t) & 1
        }),
{
}

pub proof fn lemma_low_bit_is_parity(x: u32)
    by (bit_vector)
    ensures
        (x & 1 == 1) <==> (x % 2 == 1),
{
}

/// `mask` has bit `j` set exactly where byte `offset + j` of `data` is
/// `needle`, for the first `width` bytes, and no other bit.
pub open spec fn mask_of(mask: u64, data: Seq<u8>, offset: int, width: int, needle: u8) -> bool {
    forall|j: int|
        0 <= j < 64 ==> (#[trigger] bit_set(mask, j) <==> (j < width && data[offset + j]
            == needle))
}

/// The mask of the bytes equal to `needle` among the `width` bytes at
/// `offset`: one bit per byte, the lowest bit for the first byte.
pub fn byte_mask(data: &[u8], offset: usize, width: usize, needle: u8) -> (mask: u64)
    requires
        width <= 64,
        offset + width <= data.len(),
    ensures
        mask_of(mask, data@, offset as int, width as int, needle),
        width <= 32 ==> mask >> 32 == 0,
{
    let mut mask: u64 = 0;
    let mut j: usize = 0;
    proof {
        assert forall|t: int| 0 <= t < 64 implies !bit_set(mask, t) by {
            lemma_bit_of_zero(t as u64);
        }
        assert(0u64 >> 32 == 0) by (bit_vector);
    }
    while j < width
        invariant
            j <= width <= 64,
            offset + width <= data.len(),
            mask_of(mask, data@, offset as int, j as int, needle),
            j <= 32 ==> mask >> 32 == 0,
        decreases width - j,
    {
        let before: u64 = mask;
        if data[offset + j] == needle {
            mask = mask | (1u64 << j);
        }
        proof {
            let jj: u64 = j as u64;
            assert forall|t: int| 0 <= t < 64 implies (#[trigger] bit_set(mask, t) <==> (t < j + 1
                && data@[offset + t] == needle)) by {
                lemma_bit_after_set(before, jj, t as u64);
                assert(bit_set(before, t) <==> (t < j && data@[offset + t] == needle));
            }
            if j + 1 <= 32 {
                assert((before | (1u64 << jj)) >> 32 == 0) by (bit_vector)
                    requires
                        before >> 32 == 0,
                        jj < 32,
                ;
            }
        }
        j += 1;
    }
    mask
}

/// The set bits among the low `bits` bits of `mask`, lowest first, bit `j`
/// given as `base + j`.
pub open spec fn set_bits(mask: u64, base: int, bits: int) -> Seq<int>
    decreases bits,
{
    if bits <= 0 {
        Seq::empty()
    } else {
        let before = set_bits(mask, base, bits - 1);
        if bit_set(mask, bits - 1) {
            before.push(base + bits - 1)
        } else {
            before
        }
    }
}

/// Bits that are not set add nothing.
pub proof fn lemma_set_bits_skip(mask: u64, base: int, from: int, to: int)
    requires
        0 <= from <= to <= 64,
        forall|j: int| from <= j < to ==> !bit_set(mask, j),
    ensures
        set_bits(mask, base, to) == set_bits(mask, base, from),
    decreases to - from,
{
    if from < to {
        lemma_set_bits_skip(mask, base, from, to - 1);
        assert(!bit_set(mask, to - 1));
    }
}

} // verus!
