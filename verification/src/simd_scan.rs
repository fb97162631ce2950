//! Locating line starts: the structural scan.
//!
//! A line starts right after every newline. The scanners append those
//! positions, as absolute offsets, in increasing order. The block kernels work
//! on 64-bit masks with one bit per byte, walking the set bits from the lowest
//! up; the scalar kernel looks at one byte at a time. All kernels meet the same
//! contract, so they are interchangeable.

use crate::ascii::NEWLINE;
use crate::bits::{
    bit_set, byte_mask, lemma_bit_after_clearing_lowest, lemma_bit_of_joined_halves,
    lemma_bit_of_zero, mask_of,
};
use crate::search::{byte_is, count_where};
use vstd::prelude::*;

verus! {

/// Bytes per mask.
pub const BLOCK: usize = 64;

/// Bytes per unrolled step of the block kernels.
pub const UNROLLED: usize = 256;

/// The line starts that the newlines of `data` give, `data` standing at
/// offset `base` of a buffer of `limit` bytes: `base + i + 1` for every
/// newline `data[i]`, in increasing order, left out where it is not below
/// `limit` (no line starts at the end of the buffer).
pub open spec fn line_starts_of(data: Seq<u8>, base: int, limit: int) -> Seq<u64>
    decreases data.len(),
{
    if data.len() == 0 {
        Seq::empty()
    } else {
        let before = line_starts_of(data.drop_last(), base, limit);
        if data.last() == NEWLINE && base + data.len() < limit {
            before.push((base + data.len()) as u64)
        } else {
            before
        }
    }
}

/// The number of newlines in `data`.
pub open spec fn newline_count(data: Seq<u8>) -> nat {
    count_where(data, byte_is(NEWLINE))
}

/// The line starts for the set bits among the low `bits` bits of `mask`, bit
/// `j` standing for the byte at offset `base + j`.
pub open spec fn mask_starts(mask: u64, base: int, limit: int, bits: int) -> Seq<u64>
    decreases bits,
{
    if bits <= 0 {
        Seq::empty()
    } else {
        let before = mask_starts(mask, base, limit, bits - 1);
        if bit_set(mask, bits - 1) && base + bits < limit {
            before.push((base + bits) as u64)
        } else {
            before
        }
    }
}

/// The number of set bits among the low `bits` bits of `mask`.
pub open spec fn bits_set(mask: u64, bits: int) -> nat
    decreases bits,
{
    if bits <= 0 {
        0
    } else {
        bits_set(mask, bits - 1) + if bit_set(mask, bits - 1) {
            1nat
        } else {
            0nat
        }
    }
}

/// The number of ones in the binary representation of `x`.
pub open spec fn ones(x: u64) -> nat
    decreases x,
{
    if x == 0 {
        0
    } else {
        ones(x / 2) + if x % 2 == 1 {
            1nat
        } else {
            0nat
        }
    }
}

/// `mask` has bit `j` set exactly where byte `offset + j` of `data` is a
/// newline, for the first `width` bytes, and no other bit.
pub open spec fn mask_of_block(mask: u64, data: Seq<u8>, offset: int, width: int) -> bool {
    mask_of(mask, data, offset, width, NEWLINE)
}

/// The starts of a buffer are those of its first part followed by those of
/// the rest: scanning can be split at any position.
pub proof fn lemma_line_starts_split(data: Seq<u8>, mid: int, base: int, limit: int)
    requires
        0 <= mid <= data.len(),
    ensures
        line_starts_of(data, base, limit) == line_starts_of(data.take(mid), base, limit)
            + line_starts_of(data.skip(mid), base + mid, limit),
    decreases data.len(),
{
    if mid == data.len() {
        assert(data.take(mid) =~= data);
        assert(data.skip(mid) =~= Seq::<u8>::empty());
        assert(line_starts_of(data, base, limit) =~= line_starts_of(data, base, limit)
            + Seq::<u64>::empty());
    } else {
        let front = data.drop_last();
        lemma_line_starts_split(front, mid, base, limit);
        assert(front.take(mid) =~= data.take(mid));
        assert(front.skip(mid) =~= data.skip(mid).drop_last());
        assert(data.skip(mid).last() == data.last());
        let a = line_starts_of(data.take(mid), base, limit);
        let b = line_starts_of(data.skip(mid).drop_last(), base + mid, limit);
        if data.last() == NEWLINE && base + data.len() < limit {
            assert((a + b).push((base + data.len()) as u64) =~= a + b.push(
                (base + data.len()) as u64,
            ));
        }
    }
}

/// Every start follows a newline, lies in `base + 1..=base + len` and below
/// `limit`, and the starts strictly increase.
pub proof fn lemma_line_starts_sound(data: Seq<u8>, base: int, limit: int)
    requires
        0 <= base,
        base + data.len() <= u64::MAX,
    ensures
        line_starts_of(data, base, limit).len() <= data.len(),
        forall|k: int|
            0 <= k < line_starts_of(data, base, limit).len() ==> {
                let p = #[trigger] line_starts_of(data, base, limit)[k];
                &&& base < p <= base + data.len()
                &&& p < limit
                &&& data[p - base - 1] == NEWLINE
            },
        forall|k: int, l: int|
            0 <= k < l < line_starts_of(data, base, limit).len() ==> line_starts_of(
                data,
                base,
                limit,
            )[k] < line_starts_of(data, base, limit)[l],
    decreases data.len(),
{
    if data.len() > 0 {
        lemma_line_starts_sound(data.drop_last(), base, limit);
        let before = line_starts_of(data.drop_last(), base, limit);
        assert forall|k: int| 0 <= k < before.len() implies data[before[k] - base - 1]
            == NEWLINE by {
            assert(data.drop_last()[before[k] - base - 1] == data[before[k] - base - 1]);
        }
    }
}

/// A buffer without newlines has no line starts.
pub proof fn lemma_line_starts_none(data: Seq<u8>, base: int, limit: int)
    requires
        forall|j: int| 0 <= j < data.len() ==> data[j] != NEWLINE,
    ensures
        line_starts_of(data, base, limit) == Seq::<u64>::empty(),
    decreases data.len(),
{
    if data.len() > 0 {
        assert forall|j: int| 0 <= j < data.len() - 1 implies data.drop_last()[j] != NEWLINE by {
            assert(data.drop_last()[j] == data[j]);
        }
        lemma_line_starts_none(data.drop_last(), base, limit);
    }
}

/// Every newline whose successor lies below `limit` has its start listed.
pub proof fn lemma_line_starts_complete(data: Seq<u8>, base: int, limit: int, i: int)
    requires
        0 <= base,
        base + data.len() <= u64::MAX,
        0 <= i < data.len(),
        data[i] == NEWLINE,
        base + i + 1 < limit,
    ensures
        line_starts_of(data, base, limit).contains((base + i + 1) as u64),
    decreases data.len(),
{
    let all = line_starts_of(data, base, limit);
    if i == data.len() - 1 {
        assert(all.last() == (base + i + 1) as u64);
    } else {
        lemma_line_starts_complete(data.drop_last(), base, limit, i);
        let before = line_starts_of(data.drop_last(), base, limit);
        let k = choose|k: int| 0 <= k < before.len() && before[k] == (base + i + 1) as u64;
        assert(all[k] == (base + i + 1) as u64);
    }
}

/// With `limit` past the end of the data every newline counts: there are as
/// many starts as newlines.
pub proof fn lemma_line_starts_count(data: Seq<u8>, base: int, limit: int)
    requires
        base + data.len() < limit,
    ensures
        line_starts_of(data, base, limit).len() == newline_count(data),
    decreases data.len(),
{
    if data.len() > 0 {
        lemma_line_starts_count(data.drop_last(), base, limit);
    }
}

/// Bits that are not set add no starts.
proof fn lemma_mask_starts_skip(mask: u64, base: int, limit: int, from: int, to: int)
    requires
        0 <= from <= to <= 64,
        forall|j: int| from <= j < to ==> !bit_set(mask, j),
    ensures
        mask_starts(mask, base, limit, to) == mask_starts(mask, base, limit, from),
        bits_set(mask, to) == bits_set(mask, from),
    decreases to - from,
{
    if from < to {
        lemma_mask_starts_skip(mask, base, limit, from, to - 1);
        assert(!bit_set(mask, to - 1));
    }
}

/// `mask` agrees with the newlines of the `width` bytes of `data` at `offset`
/// on its low `width` bits; nothing is said of the higher bits.
pub open spec fn mask_agrees(mask: u64, data: Seq<u8>, offset: int, width: int) -> bool {
    forall|j: int|
        0 <= j < width ==> (#[trigger] bit_set(mask, j) <==> data[offset + j] == NEWLINE)
}

/// The starts read off the low bits of a mask are the starts of the bytes the
/// bits stand for, and the set bits are as many as the newlines.
pub proof fn lemma_mask_reads_block(
    mask: u64,
    data: Seq<u8>,
    offset: int,
    width: int,
    base: int,
    limit: int,
)
    requires
        0 <= offset,
        0 <= width <= 64,
        offset + width <= data.len(),
        mask_agrees(mask, data, offset, width),
    ensures
        mask_starts(mask, base + offset, limit, width) == line_starts_of(
            data.subrange(offset, offset + width),
            base + offset,
            limit,
        ),
        bits_set(mask, width) == newline_count(data.subrange(offset, offset + width)),
    decreases width,
{
    if width > 0 {
        lemma_mask_reads_block(mask, data, offset, width - 1, base, limit);
        let block = data.subrange(offset, offset + width);
        assert(block.drop_last() =~= data.subrange(offset, offset + width - 1));
        assert(block.last() == data[offset + width - 1]);
        assert(bit_set(mask, width - 1) <==> data[offset + (width - 1)] == NEWLINE);
    }
}

/// Scanning `width` more bytes after the first `offset` appends the starts
/// of those bytes.
pub proof fn lemma_line_starts_extend(
    data: Seq<u8>,
    offset: int,
    width: int,
    base: int,
    limit: int,
)
    requires
        0 <= offset,
        0 <= width,
        offset + width <= data.len(),
    ensures
        line_starts_of(data.take(offset + width), base, limit) == line_starts_of(
            data.take(offset),
            base,
            limit,
        ) + line_starts_of(data.subrange(offset, offset + width), base + offset, limit),
{
    let whole = data.take(offset + width);
    lemma_line_starts_split(whole, offset, base, limit);
    assert(whole.take(offset) =~= data.take(offset));
    assert(whole.skip(offset) =~= data.subrange(offset, offset + width));
}

/// The newlines of a string are those of its parts.
pub proof fn lemma_newline_count_extend(data: Seq<u8>, offset: int, width: int)
    requires
        0 <= offset,
        0 <= width,
        offset + width <= data.len(),
    ensures
        newline_count(data.take(offset + width)) == newline_count(data.take(offset))
            + newline_count(data.subrange(offset, offset + width)),
    decreases width,
{
    if width == 0 {
        assert(data.subrange(offset, offset) =~= Seq::<u8>::empty());
    } else {
        lemma_newline_count_extend(data, offset, width - 1);
        assert(data.take(offset + width).drop_last() =~= data.take(offset + width - 1));
        assert(data.subrange(offset, offset + width).drop_last() =~= data.subrange(
            offset,
            offset + width - 1,
        ));
    }
}

/// The ones of a word are its set bits: `ones` of the word shifted down by
/// `k`, together with the set bits below `k`, give all 64.
proof fn lemma_ones_above(x: u64, k: int)
    requires
        0 <= k <= 64,
    ensures
        ones(
            if k >= 64 {
                0u64
            } else {
                x >> (k as u64)
            },
        ) + bits_set(x, k) == bits_set(x, 64),
    decreases 64 - k,
{
    if k < 64 {
        lemma_ones_above(x, k + 1);
        let y: u64 = x >> (k as u64);
        let up: u64 = if k + 1 >= 64 {
            0u64
        } else {
            x >> ((k + 1) as u64)
        };
        let kk: u64 = k as u64;
        assert(y / 2 == up) by (bit_vector)
            requires
                kk < 64,
                y == x >> kk,
                up == (if kk >= 63 {
                    0u64
                } else {
                    x >> ((kk + 1) as u64)
                }),
        ;
        assert(y % 2 == y & 1) by (bit_vector);
        assert(bit_set(x, k) <==> y % 2 == 1);
    }
}

/// `count_ones` counts the set bits of the mask.
pub proof fn lemma_ones_is_bits_set(x: u64)
    ensures
        ones(x) == bits_set(x, 64),
        ones(x) <= 64,
{
    lemma_ones_above(x, 0);
    assert(x >> 0 == x) by (bit_vector);
    lemma_bits_set_bound(x, 64);
}

proof fn lemma_bits_set_bound(x: u64, bits: int)
    requires
        0 <= bits,
    ensures
        bits_set(x, bits) <= bits,
    decreases bits,
{
    if bits > 0 {
        lemma_bits_set_bound(x, bits - 1);
    }
}

/// `u64::count_ones` returns the number of ones in the binary representation
/// of its argument.
pub assume_specification[ u64::count_ones ](x: u64) -> (r: u32)
    ensures
        r == ones(x),
;

/// The mask of the newlines among the `width` bytes at `offset`: one bit per
/// byte, the lowest bit for the first byte.
pub fn newline_mask(data: &[u8], offset: usize, width: usize) -> (mask: u64)
    requires
        width <= 64,
        offset + width <= data.len(),
    ensures
        mask_of_block(mask, data@, offset as int, width as int),
        width <= 32 ==> mask >> 32 == 0,
{
    byte_mask(data, offset, width, NEWLINE)
}

/// The mask of a 64-byte block made of the masks of its two 32-byte lanes.
pub fn joined_mask(data: &[u8], offset: usize) -> (mask: u64)
    requires
        offset + 64 <= data.len(),
    ensures
        mask_of_block(mask, data@, offset as int, 64),
{
    let lo: u64 = newline_mask(data, offset, 32);
    let hi: u64 = newline_mask(data, offset + 32, 32);
    let mask: u64 = lo | (hi << 32);
    proof {
        assert forall|t: int| 0 <= t < 64 implies (#[trigger] bit_set(mask, t) <==> (t < 64
            && data@[offset + t] == NEWLINE)) by {
            lemma_bit_of_joined_halves(lo, hi, t as u64);
            if t < 32 {
                assert(bit_set(lo, t) <==> (t < 32 && data@[offset + t] == NEWLINE));
            } else {
                assert(bit_set(hi, t - 32) <==> (t - 32 < 32 && data@[offset + 32 + (t - 32)]
                    == NEWLINE));
            }
        }
    }
    mask
}

/// Appends the line start after every set bit of `mask`, lowest bit first.
/// Bit `p` stands for the byte at `base_offset + p`; a start that is not
/// below `data_total_len` is dropped.
pub fn extract_positions_from_mask(
    mask: u64,
    base_offset: u64,
    data_total_len: u64,
    line_starts: &mut Vec<u64>,
)
    requires
        forall|j: int| bit_set(mask, j) ==> base_offset + j + 1 <= u64::MAX,
    ensures
        final(line_starts)@ == old(line_starts)@ + mask_starts(
            mask,
            base_offset as int,
            data_total_len as int,
            64,
        ),
{
    let mut m: u64 = mask;
    let ghost mut done: int = 0;
    while m != 0
        invariant
            0 <= done <= 64,
            forall|j: int| bit_set(mask, j) ==> base_offset + j + 1 <= u64::MAX,
            forall|t: int| 0 <= t < 64 ==> (#[trigger] bit_set(m, t) <==> (t >= done && bit_set(
                mask,
                t,
            ))),
            line_starts@ == old(line_starts)@ + mask_starts(
                mask,
                base_offset as int,
                data_total_len as int,
                done,
            ),
        decreases 64 - done, m,
    {
        let pos: u32 = m.trailing_zeros();
        proof {
            vstd::std_specs::bits::axiom_u64_trailing_zeros(m);
            assert(pos < 64);
            assert(bit_set(m, pos as int));
            assert forall|t: int| done <= t < pos implies !bit_set(mask, t) by {
                assert((m >> (t as u64)) & 1u64 == 0u64);
                assert(!bit_set(m, t));
            }
            lemma_mask_starts_skip(
                mask,
                base_offset as int,
                data_total_len as int,
                done,
                pos as int,
            );
            assert(bit_set(mask, pos as int));
        }
        let next_line_start: u64 = base_offset + pos as u64 + 1;
        if next_line_start < data_total_len {
            line_starts.push(next_line_start);
        }
        let lowered: u64 = m & (m - 1);
        proof {
            let p: u64 = pos as u64;
            assert(p == 0 || m << ((64 - p) as u64) == 0);
            assert((m >> p) & 1 == 1);
            assert forall|t: int| 0 <= t < 64 implies (#[trigger] bit_set(lowered, t) <==> (t
                >= pos + 1 && bit_set(mask, t))) by {
                let tt: u64 = t as u64;
                lemma_bit_after_clearing_lowest(m, p, tt);
                assert(lowered == m & ((m - 1) as u64));
                assert(bit_set(m, t) <==> (t >= done && bit_set(mask, t)));
                if t < pos {
                    assert((m >> tt) & 1u64 == 0u64);
                    assert(!bit_set(m, t));
                } else if t == pos {
                    assert(!bit_set(lowered, t));
                } else {
                    assert(bit_set(lowered, t) <==> bit_set(m, t));
                }
            }
            done = pos as int + 1;
        }
        m = lowered;
    }
    proof {
        assert forall|t: int| done <= t < 64 implies !bit_set(mask, t) by {
            lemma_bit_of_zero(t as u64);
            assert(!bit_set(m, t));
        }
        lemma_mask_starts_skip(mask, base_offset as int, data_total_len as int, done, 64);
    }
}

/// Appends the starts of the bytes `from..to` of `data`, byte by byte.
fn scan_bytes(
    data: &[u8],
    from: usize,
    to: usize,
    global_base: u64,
    data_total_len: u64,
    line_starts: &mut Vec<u64>,
)
    requires
        from <= to <= data.len(),
        global_base + data.len() <= u64::MAX,
    ensures
        final(line_starts)@ == old(line_starts)@ + line_starts_of(
            data@.subrange(from as int, to as int),
            global_base + from,
            data_total_len as int,
        ),
{
    let mut i: usize = from;
    proof {
        assert(data@.subrange(from as int, from as int) =~= Seq::<u8>::empty());
        assert(line_starts@ =~= old(line_starts)@ + Seq::<u64>::empty());
    }
    while i < to
        invariant
            from <= i <= to <= data.len(),
            global_base + data.len() <= u64::MAX,
            line_starts@ == old(line_starts)@ + line_starts_of(
                data@.subrange(from as int, i as int),
                global_base + from,
                data_total_len as int,
            ),
        decreases to - i,
    {
        let ghost before = line_starts@;
        if data[i] == NEWLINE {
            let next_line: u64 = global_base + (i as u64) + 1;
            if next_line < data_total_len {
                line_starts.push(next_line);
            }
        }
        proof {
            let seen = data@.subrange(from as int, i + 1);
            assert(seen.drop_last() =~= data@.subrange(from as int, i as int));
            assert(seen.last() == data@[i as int]);
            let prior = line_starts_of(
                data@.subrange(from as int, i as int),
                global_base + from,
                data_total_len as int,
            );
            if data@[i as int] == NEWLINE && global_base + i + 1 < data_total_len {
                assert(line_starts@ =~= old(line_starts)@ + prior.push(
                    (global_base + i + 1) as u64,
                ));
            }
        }
        i += 1;
    }
}

/// Appends the starts of one block of `width` bytes at `offset`, read off its
/// mask. With `joined` the mask is put together from two 32-byte lanes.
fn scan_block(
    data: &[u8],
    offset: usize,
    width: usize,
    joined: bool,
    global_base: u64,
    data_total_len: u64,
    line_starts: &mut Vec<u64>,
)
    requires
        width == 64 || (width == 32 && !joined),
        offset + width <= data.len(),
        global_base + data.len() <= u64::MAX,
    ensures
        final(line_starts)@ == old(line_starts)@ + line_starts_of(
            data@.subrange(offset as int, offset + width),
            global_base + offset,
            data_total_len as int,
        ),
{
    let mask: u64 = if joined {
        joined_mask(data, offset)
    } else {
        newline_mask(data, offset, width)
    };
    proof {
        let block_base: int = global_base + offset;
        assert(mask_agrees(mask, data@, offset as int, width as int)) by {
            assert forall|j: int| 0 <= j < width implies (#[trigger] bit_set(mask, j)
                <==> data@[offset + j] == NEWLINE) by {
                assert(bit_set(mask, j) <==> (j < width && data@[offset + j] == NEWLINE));
            }
        }
        lemma_mask_reads_block(
            mask,
            data@,
            offset as int,
            width as int,
            global_base as int,
            data_total_len as int,
        );
        assert forall|j: int| width <= j < 64 implies !bit_set(mask, j) by {
            assert(bit_set(mask, j) <==> (j < width && data@[offset + j] == NEWLINE));
        }
        lemma_mask_starts_skip(mask, block_base, data_total_len as int, width as int, 64);
        assert forall|j: int| bit_set(mask, j) implies global_base + offset + j + 1
            <= u64::MAX by {
            assert(bit_set(mask, j) <==> (j < width && data@[offset + j] == NEWLINE));
        }
    }
    extract_positions_from_mask(mask, global_base + offset as u64, data_total_len, line_starts);
}

/// The number of newlines in one block of `width` bytes at `offset`, taken
/// as the population count of its mask.
fn count_block(data: &[u8], offset: usize, width: usize, joined: bool) -> (r: u64)
    requires
        width == 64 || (width == 32 && !joined),
        offset + width <= data.len(),
    ensures
        r == newline_count(data@.subrange(offset as int, offset + width)),
        r <= 64,
{
    let mask: u64 = if joined {
        joined_mask(data, offset)
    } else {
        newline_mask(data, offset, width)
    };
    proof {
        assert(mask_agrees(mask, data@, offset as int, width as int)) by {
            assert forall|j: int| 0 <= j < width implies (#[trigger] bit_set(mask, j)
                <==> data@[offset + j] == NEWLINE) by {
                assert(bit_set(mask, j) <==> (j < width && data@[offset + j] == NEWLINE));
            }
        }
        lemma_mask_reads_block(mask, data@, offset as int, width as int, 0, 0);
        assert forall|j: int| width <= j < 64 implies !bit_set(mask, j) by {
            assert(bit_set(mask, j) <==> (j < width && data@[offset + j] == NEWLINE));
        }
        lemma_mask_starts_skip(mask, 0, 0, width as int, 64);
        lemma_ones_is_bits_set(mask);
    }
    mask.count_ones() as u64
}

/// The scalar kernel: one byte at a time.
pub fn scan_region_scalar(
    data: &[u8],
    global_base: u64,
    data_total_len: u64,
    line_starts: &mut Vec<u64>,
)
    requires
        global_base + data.len() <= u64::MAX,
    ensures
        final(line_starts)@ == old(line_starts)@ + line_starts_of(
            data@,
            global_base as int,
            data_total_len as int,
        ),
{
    scan_bytes(data, 0, data.len(), global_base, data_total_len, line_starts);
    assert(data@.subrange(0, data.len() as int) =~= data@);
}

/// The kernel for 64-byte lanes: four masks per unrolled step while 256
/// bytes are left, then one mask per step while 64 are left, then the scalar
/// tail.
pub fn scan_region_lanes64(
    data: &[u8],
    global_base: u64,
    data_total_len: u64,
    line_starts: &mut Vec<u64>,
)
    requires
        global_base + data.len() <= u64::MAX,
    ensures
        final(line_starts)@ == old(line_starts)@ + line_starts_of(
            data@,
            global_base as int,
            data_total_len as int,
        ),
{
    scan_region_lanes(data, false, global_base, data_total_len, line_starts);
}

/// The kernel for 32-byte lanes: as `scan_region_lanes64`, with every 64-bit
/// mask joined from two lanes, and one more loop over single lanes before
/// the scalar tail.
pub fn scan_region_lanes32(
    data: &[u8],
    global_base: u64,
    data_total_len: u64,
    line_starts: &mut Vec<u64>,
)
    requires
        global_base + data.len() <= u64::MAX,
    ensures
        final(line_starts)@ == old(line_starts)@ + line_starts_of(
            data@,
            global_base as int,
            data_total_len as int,
        ),
{
    scan_region_lanes(data, true, global_base, data_total_len, line_starts);
}

fn scan_region_lanes(
    data: &[u8],
    half_lanes: bool,
    global_base: u64,
    data_total_len: u64,
    line_starts: &mut Vec<u64>,
)
    requires
        global_base + data.len() <= u64::MAX,
    ensures
        final(line_starts)@ == old(line_starts)@ + line_starts_of(
            data@,
            global_base as int,
            data_total_len as int,
        ),
{
    let len: usize = data.len();
    let mut offset: usize = 0;
    proof {
        assert(data@.take(0) =~= Seq::<u8>::empty());
        assert(line_starts@ =~= old(line_starts)@ + Seq::<u64>::empty());
    }
    let unrolled_end: usize = if len >= UNROLLED {
        len - (UNROLLED - 1)
    } else {
        0
    };
    while offset < unrolled_end
        invariant
            len == data.len(),
            global_base + data.len() <= u64::MAX,
            offset <= len,
            unrolled_end == (if len >= UNROLLED {
                len - (UNROLLED - 1)
            } else {
                0
            }),
            line_starts@ == old(line_starts)@ + line_starts_of(
                data@.take(offset as int),
                global_base as int,
                data_total_len as int,
            ),
        decreases len - offset,
    {
        let mut lane: usize = 0;
        while lane < 4
            invariant
                len == data.len(),
                global_base + data.len() <= u64::MAX,
                lane <= 4,
                offset + UNROLLED <= len,
                line_starts@ == old(line_starts)@ + line_starts_of(
                    data@.take(offset + lane * BLOCK),
                    global_base as int,
                    data_total_len as int,
                ),
            decreases 4 - lane,
        {
            let at: usize = offset + lane * BLOCK;
            proof {
                lemma_line_starts_extend(
                    data@,
                    at as int,
                    BLOCK as int,
                    global_base as int,
                    data_total_len as int,
                );
            }
            scan_block(data, at, BLOCK, half_lanes, global_base, data_total_len, line_starts);
            lane += 1;
        }
        offset += UNROLLED;
    }
    let single_end: usize = if len >= BLOCK {
        len - (BLOCK - 1)
    } else {
        0
    };
    while offset < single_end
        invariant
            len == data.len(),
            global_base + data.len() <= u64::MAX,
            offset <= len,
            single_end == (if len >= BLOCK {
                len - (BLOCK - 1)
            } else {
                0
            }),
            line_starts@ == old(line_starts)@ + line_starts_of(
                data@.take(offset as int),
                global_base as int,
                data_total_len as int,
            ),
        decreases len - offset,
    {
        proof {
            lemma_line_starts_extend(
                data@,
                offset as int,
                BLOCK as int,
                global_base as int,
                data_total_len as int,
            );
        }
        scan_block(data, offset, BLOCK, half_lanes, global_base, data_total_len, line_starts);
        offset += BLOCK;
    }
    if half_lanes {
        let lane_end: usize = if len >= 32 {
            len - 31
        } else {
            0
        };
        while offset < lane_end
            invariant
                len == data.len(),
                global_base + data.len() <= u64::MAX,
                offset <= len,
                lane_end == (if len >= 32 {
                    len - 31
                } else {
                    0
                }),
                line_starts@ == old(line_starts)@ + line_starts_of(
                    data@.take(offset as int),
                    global_base as int,
                    data_total_len as int,
                ),
            decreases len - offset,
        {
            proof {
                lemma_line_starts_extend(
                    data@,
                    offset as int,
                    32,
                    global_base as int,
                    data_total_len as int,
                );
            }
            scan_block(data, offset, 32, false, global_base, data_total_len, line_starts);
            offset += 32;
        }
    }
    proof {
        lemma_line_starts_extend(
            data@,
            offset as int,
            len - offset,
            global_base as int,
            data_total_len as int,
        );
        assert(data@.take(len as int) =~= data@);
    }
    scan_bytes(data, offset, len, global_base, data_total_len, line_starts);
}

/// The kernels a scan can run on. Which one a machine supports is found out
/// by the caller; the three give the same line starts and the same counts.
#[derive(Debug, Clone, Copy, PartialEq, Eq, Structural)]
pub enum ScanKernel {
    /// 64-byte lanes.
    Avx512,
    /// 32-byte lanes, two to a 64-bit mask.
    Avx2,
    /// One byte at a time.
    Scalar,
}

/// The name under which a kernel is reported.
pub fn simd_capability(kernel: ScanKernel) -> (r: &'static str)
    ensures
        r@ == match kernel {
            ScanKernel::Avx512 => "AVX-512 (512-bit, 64 bytes/compare)"@,
            ScanKernel::Avx2 => "AVX2 (256-bit, 32 bytes/compare)"@,
            ScanKernel::Scalar => "Scalar (no SIMD)"@,
        },
{
    match kernel {
        ScanKernel::Avx512 => "AVX-512 (512-bit, 64 bytes/compare)",
        ScanKernel::Avx2 => "AVX2 (256-bit, 32 bytes/compare)",
        ScanKernel::Scalar => "Scalar (no SIMD)",
    }
}

/// Scans with the lane shape of `kernel`.
pub fn scan_region_with(
    kernel: ScanKernel,
    data: &[u8],
    global_base: u64,
    data_total_len: u64,
    line_starts: &mut Vec<u64>,
)
    requires
        global_base + data.len() <= u64::MAX,
    ensures
        final(line_starts)@ == old(line_starts)@ + line_starts_of(
            data@,
            global_base as int,
            data_total_len as int,
        ),
{
    match kernel {
        ScanKernel::Avx512 => scan_region_lanes64(data, global_base, data_total_len, line_starts),
        ScanKernel::Avx2 => scan_region_lanes32(data, global_base, data_total_len, line_starts),
        ScanKernel::Scalar => scan_region_scalar(data, global_base, data_total_len, line_starts),
    }
}

/// Appends to `line_starts` the absolute offset of every byte of `data` that
/// follows a newline, as far as that offset is below `data_total_len`. `data`
/// stands at offset `global_base` of the whole buffer. No start is appended
/// for the beginning of `data`: the caller seeds it.
pub fn scan_region(
    data: &[u8],
    global_base: u64,
    data_total_len: u64,
    line_starts: &mut Vec<u64>,
)
    requires
        global_base + data.len() <= u64::MAX,
    ensures
        final(line_starts)@ == old(line_starts)@ + line_starts_of(
            data@,
            global_base as int,
            data_total_len as int,
        ),
{
    scan_region_lanes64(data, global_base, data_total_len, line_starts);
}

/// The line starts of a whole buffer: 0, then the position after every
/// newline but one that ends the buffer.
pub open spec fn all_line_starts(data: Seq<u8>) -> Seq<u64> {
    seq![0u64] + line_starts_of(data, 0, data.len() as int)
}

/// The line starts of `data`, beginning with 0.
pub fn scan_newlines(data: &[u8]) -> (r: Vec<u64>)
    ensures
        r@ == all_line_starts(data@),
{
    let mut line_starts: Vec<u64> = Vec::new();
    line_starts.push(0);
    if data.len() == 0 {
        assert(line_starts@ =~= all_line_starts(data@));
        return line_starts;
    }
    let data_len: u64 = data.len() as u64;
    scan_region(data, 0, data_len, &mut line_starts);
    assert(line_starts@ =~= all_line_starts(data@));
    line_starts
}

/// Below this size a buffer is scanned in one piece.
pub const PARALLEL_THRESHOLD: usize = 1_000_000;

/// The line starts of `data`, scanned in `num_threads` pieces of equal size
/// whose results are put together in order. The pieces need not end at line
/// ends. The result is that of `scan_newlines`, whatever the number of
/// pieces.
pub fn scan_newlines_parallel(data: &[u8], num_threads: usize) -> (r: Vec<u64>)
    ensures
        r@ == all_line_starts(data@),
{
    let len: usize = data.len();
    if num_threads <= 1 || len < PARALLEL_THRESHOLD {
        return scan_newlines(data);
    }
    let whole: usize = len / num_threads;
    let partial: usize = len % num_threads;
    assert(whole < len && (whole > 0 || partial != 0)) by (nonlinear_arith)
        requires
            len > 0,
            num_threads >= 2,
            whole == len / num_threads,
            partial == len % num_threads,
    ;
    let chunk_size: usize = if partial != 0 {
        whole + 1
    } else {
        whole
    };
    let data_len: u64 = len as u64;
    let mut merged: Vec<u64> = Vec::new();
    merged.push(0);
    let mut start: usize = 0;
    proof {
        assert(data@.take(0) =~= Seq::<u8>::empty());
        assert(merged@ =~= seq![0u64] + Seq::<u64>::empty());
    }
    while start < len
        invariant
            len == data.len(),
            data_len == len,
            start <= len,
            chunk_size > 0,
            merged@ == seq![0u64] + line_starts_of(data@.take(start as int), 0, len as int),
        decreases len - start,
    {
        let end: usize = if len - start < chunk_size {
            len
        } else {
            start + chunk_size
        };
        let piece: &[u8] = &data[start..end];
        let mut local: Vec<u64> = Vec::new();
        scan_region(piece, start as u64, data_len, &mut local);
        proof {
            lemma_line_starts_extend(data@, start as int, end - start, 0, len as int);
            assert(local@ =~= line_starts_of(
                data@.subrange(start as int, end as int),
                start as int,
                len as int,
            ));
        }
        merged.append(&mut local);
        start = end;
    }
    assert(data@.take(len as int) =~= data@);
    merged
}

/// The scalar counter.
pub fn count_newlines_scalar(data: &[u8]) -> (r: u64)
    ensures
        r == newline_count(data@),
{
    assert(data@.take(0) =~= Seq::<u8>::empty());
    assert(data@.take(data.len() as int) =~= data@);
    count_bytes(data, 0, data.len(), 0)
}

/// Counts the newlines among the bytes `from..to` on top of `count`.
fn count_bytes(data: &[u8], from: usize, to: usize, count: u64) -> (r: u64)
    requires
        from <= to <= data.len(),
        count == newline_count(data@.take(from as int)),
    ensures
        r == newline_count(data@.take(to as int)),
{
    let mut i: usize = from;
    let mut count: u64 = count;
    while i < to
        invariant
            from <= i <= to <= data.len(),
            count == newline_count(data@.take(i as int)),
        decreases to - i,
    {
        proof {
            assert(data@.take(i + 1).drop_last() =~= data@.take(i as int));
            crate::search::lemma_count_where_bound(data@.take(i as int), byte_is(NEWLINE));
        }
        if data[i] == NEWLINE {
            count += 1;
        }
        i += 1;
    }
    count
}

fn count_newlines_lanes(data: &[u8], half_lanes: bool) -> (r: u64)
    ensures
        r == newline_count(data@),
{
    let len: usize = data.len();
    let mut offset: usize = 0;
    let mut count: u64 = 0;
    proof {
        assert(data@.take(0) =~= Seq::<u8>::empty());
    }
    let unrolled_end: usize = if len >= UNROLLED {
        len - (UNROLLED - 1)
    } else {
        0
    };
    while offset < unrolled_end
        invariant
            len == data.len(),
            offset <= len,
            unrolled_end == (if len >= UNROLLED {
                len - (UNROLLED - 1)
            } else {
                0
            }),
            count == newline_count(data@.take(offset as int)),
        decreases len - offset,
    {
        proof {
            lemma_newline_count_extend(data@, offset as int, 64);
            lemma_newline_count_extend(data@, offset + 64, 64);
            lemma_newline_count_extend(data@, offset + 128, 64);
            lemma_newline_count_extend(data@, offset + 192, 64);
            crate::search::lemma_count_where_bound(data@.take(offset + 256), byte_is(NEWLINE));
        }
        let m0: u64 = count_block(data, offset, BLOCK, half_lanes);
        let m1: u64 = count_block(data, offset + 64, BLOCK, half_lanes);
        let m2: u64 = count_block(data, offset + 128, BLOCK, half_lanes);
        let m3: u64 = count_block(data, offset + 192, BLOCK, half_lanes);
        count += m0 + m1 + m2 + m3;
        offset += UNROLLED;
    }
    let single_end: usize = if len >= BLOCK {
        len - (BLOCK - 1)
    } else {
        0
    };
    while offset < single_end
        invariant
            len == data.len(),
            offset <= len,
            single_end == (if len >= BLOCK {
                len - (BLOCK - 1)
            } else {
                0
            }),
            count == newline_count(data@.take(offset as int)),
        decreases len - offset,
    {
        proof {
            lemma_newline_count_extend(data@, offset as int, 64);
            crate::search::lemma_count_where_bound(data@.take(offset + 64), byte_is(NEWLINE));
        }
        let m: u64 = count_block(data, offset, BLOCK, half_lanes);
        count += m;
        offset += BLOCK;
    }
    if half_lanes {
        let lane_end: usize = if len >= 32 {
            len - 31
        } else {
            0
        };
        while offset < lane_end
            invariant
                len == data.len(),
                offset <= len,
                lane_end == (if len >= 32 {
                    len - 31
                } else {
                    0
                }),
                count == newline_count(data@.take(offset as int)),
            decreases len - offset,
        {
            proof {
                lemma_newline_count_extend(data@, offset as int, 32);
                crate::search::lemma_count_where_bound(
                    data@.take(offset + 32),
                    byte_is(NEWLINE),
                );
            }
            let m: u64 = count_block(data, offset, 32, false);
            count += m;
            offset += 32;
        }
    }
    let r: u64 = count_bytes(data, offset, len, count);
    assert(data@.take(len as int) =~= data@);
    r
}

/// The counter for 64-byte lanes.
pub fn count_newlines_lanes64(data: &[u8]) -> (r: u64)
    ensures
        r == newline_count(data@),
{
    count_newlines_lanes(data, false)
}

/// The counter for 32-byte lanes.
pub fn count_newlines_lanes32(data: &[u8]) -> (r: u64)
    ensures
        r == newline_count(data@),
{
    count_newlines_lanes(data, true)
}

/// The number of newlines in `data`.
pub fn count_newlines_in_region(data: &[u8]) -> (r: u64)
    ensures
        r == newline_count(data@),
{
    count_newlines_lanes64(data)
}

/// The kernels agree. On every buffer the three scanners append the same
/// starts and the three counters return the same number: each equals the one
/// value that the buffer determines.
pub proof fn lemma_kernels_agree(
    data: Seq<u8>,
    base: int,
    limit: int,
    by_lanes64: Seq<u64>,
    by_lanes32: Seq<u64>,
    by_scalar: Seq<u64>,
)
    requires
        by_lanes64 == line_starts_of(data, base, limit),
        by_lanes32 == line_starts_of(data, base, limit),
        by_scalar == line_starts_of(data, base, limit),
    ensures
        by_lanes64 == by_lanes32,
        by_lanes32 == by_scalar,
{
}

} // verus!
