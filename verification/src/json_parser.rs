//! The JSON-lines parser: one object per line, its top-level members as
//! fields. Nested objects and arrays are one value each, taken verbatim;
//! strings are delimited, never decoded.

use crate::ascii::{
    BACKSLASH, CARRIAGE_RETURN, CLOSE_BRACE, CLOSE_BRACKET, COLON, COMMA, NEWLINE, OPEN_BRACE,
    OPEN_BRACKET, QUOTE, SPACE, TAB,
};
use crate::bits::{
    bit_set, byte_mask, lemma_bit_after_clear, lemma_bit_after_clearing_lowest, lemma_bit_of_zero,
    lemma_low_bit_is_parity, set_bits,
};
use crate::lines::{line_extent, lines_map, lines_total, starts_within, structured_style, LineStyle};
use crate::search::{
    byte_in2, byte_is, closes, find_byte, find_either, find_quote_end, lemma_block_places,
    lemma_places_step, lemma_quoted_end, lemma_quoted_end_closes, lemma_quoted_end_plain,
    lemma_quoted_end_resumes, lemma_scan_until, lemma_scan_until_unique, places_of, quoted_end,
    run_before, scan_until,
};
use crate::structured::well_known::{classify, classify_key, WellKnownKind};
use crate::structured::{
    building, field_bytes, kinds_of, lemma_building_begins, lemma_building_ends,
    lemma_building_grows, lemma_refs_within, lemma_resolve_record, lemma_within_grows, record_of,
    refs_of, resolve, resolver, slots_of, FieldRef, FieldSpan, RecordView, ResolvedRecord,
    StructuredBatch, Token, ValueSpan,
};
use vstd::prelude::*;

verus! {

/// Space, tab, carriage return or newline.
pub open spec fn json_whitespace(b: u8) -> bool {
    b == SPACE || b == TAB || b == CARRIAGE_RETURN || b == NEWLINE
}

/// A byte that ends a bare value: `,`, `}`, `]` or whitespace.
pub open spec fn json_value_terminator(b: u8) -> bool {
    b == COMMA || b == CLOSE_BRACE || b == CLOSE_BRACKET || json_whitespace(b)
}

/// The stop set of the bytes that are no whitespace.
pub open spec fn not_whitespace() -> spec_fn(u8) -> bool {
    |b: u8| !json_whitespace(b)
}

/// The stop set of the bytes that end a bare value.
pub open spec fn value_terminator() -> spec_fn(u8) -> bool {
    |b: u8| json_value_terminator(b)
}

pub fn is_json_whitespace(b: u8) -> (r: bool)
    ensures
        r == json_whitespace(b),
{
    b == SPACE || b == TAB || b == CARRIAGE_RETURN || b == NEWLINE
}

pub fn is_json_value_terminator(b: u8) -> (r: bool)
    ensures
        r == json_value_terminator(b),
{
    b == COMMA || b == CLOSE_BRACE || b == CLOSE_BRACKET || is_json_whitespace(b)
}

/// The first position at or after `from` that holds no whitespace.
fn skip_whitespace(line: &[u8], from: usize) -> (r: usize)
    requires
        from <= line.len(),
    ensures
        r == scan_until(line@, from as int, not_whitespace()),
        from <= r <= line.len(),
{
    let mut i: usize = from;
    while i < line.len() && is_json_whitespace(line[i])
        invariant
            from <= i <= line.len(),
            forall|j: int| from <= j < i ==> !not_whitespace()(#[trigger] line@[j]),
        decreases line.len() - i,
    {
        i += 1;
    }
    proof {
        lemma_scan_until_unique(line@, from as int, not_whitespace(), i as int);
    }
    i
}

/// Where the quoted string that is open at `start` ends: the position of its
/// closing quote, or `data.len()`.
pub fn find_string_end_scalar(data: &[u8], start: usize) -> (r: usize)
    ensures
        r == quoted_end(data@, start as int),
        r <= data.len(),
{
    find_quote_end(data, start)
}

/// The length of the run of backslashes that ends right below position
/// `pos`: the number of set bits of `bs_mask` at `pos - 1`, `pos - 2`, ...
/// down to the first bit that is clear.
pub open spec fn run_below(bs_mask: u64, pos: int) -> nat
    decreases pos,
{
    if pos <= 0 || !bit_set(bs_mask, pos - 1) {
        0
    } else {
        1 + run_below(bs_mask, pos - 1)
    }
}

/// The quote at `pos` is escaped: an odd number of backslashes stands right
/// before it.
pub open spec fn escaped(bs_mask: u64, pos: int) -> bool {
    run_below(bs_mask, pos) % 2 == 1
}

proof fn lemma_no_backslash_no_run(bs_mask: u64, pos: int)
    requires
        bs_mask == 0,
    ensures
        run_below(bs_mask, pos) == 0,
{
    if 0 < pos <= 64 {
        lemma_bit_of_zero((pos - 1) as u64);
    }
}

/// The quotes of a 64-byte block that close a string: the bits of
/// `quote_mask` without those that an odd run of bits of `bs_mask`, the
/// backslashes, stands right below. Both masks have one bit per byte, the
/// lowest for the first byte.
pub fn resolve_escapes(quote_mask: u64, bs_mask: u64) -> (r: u64)
    ensures
        forall|t: int|
            0 <= t < 64 ==> (#[trigger] bit_set(r, t) <==> (bit_set(quote_mask, t) && !escaped(
                bs_mask,
                t,
            ))),
{
    if bs_mask == 0 {
        proof {
            assert forall|t: int| 0 <= t < 64 implies !escaped(bs_mask, t) by {
                lemma_no_backslash_no_run(bs_mask, t);
            }
        }
        return quote_mask;
    }
    let mut result: u64 = quote_mask;
    let mut m: u64 = quote_mask;
    let ghost mut done: int = 0;
    while m != 0
        invariant
            0 <= done <= 64,
            forall|t: int|
                0 <= t < 64 ==> (#[trigger] bit_set(m, t) <==> (t >= done && bit_set(
                    quote_mask,
                    t,
                ))),
            forall|t: int|
                0 <= t < 64 ==> (#[trigger] bit_set(result, t) <==> (bit_set(quote_mask, t) && (t
                    >= done || !escaped(bs_mask, t)))),
        decreases 64 - done, m,
    {
        let pos: u32 = m.trailing_zeros();
        proof {
            vstd::std_specs::bits::axiom_u64_trailing_zeros(m);
            assert(pos < 64);
            assert(bit_set(m, pos as int));
        }
        let mut below: u32 = pos;
        let mut bs_count: u32 = 0;
        while below > 0 && (bs_mask >> (below - 1)) & 1 == 1
            invariant
                below <= pos < 64,
                bs_count + below == pos,
                run_below(bs_mask, pos as int) == bs_count + run_below(bs_mask, below as int),
            decreases below,
        {
            assert(bit_set(bs_mask, below - 1));
            bs_count += 1;
            below -= 1;
        }
        proof {
            if below > 0 {
                assert(!bit_set(bs_mask, below - 1));
            }
            assert(bs_count == run_below(bs_mask, pos as int));
            lemma_low_bit_is_parity(bs_count);
        }
        let before: u64 = result;
        if bs_count & 1 == 1 {
            result = result & !(1u64 << pos);
        }
        let lowered: u64 = m & (m - 1);
        proof {
            let p: u64 = pos as u64;
            assert(p == 0 || m << ((64 - p) as u64) == 0);
            assert forall|t: int| 0 <= t < 64 implies (#[trigger] bit_set(lowered, t) <==> (t
                >= pos + 1 && bit_set(quote_mask, t))) by {
                let tt: u64 = t as u64;
                lemma_bit_after_clearing_lowest(m, p, tt);
                assert(lowered == m & ((m - 1) as u64));
                assert(bit_set(m, t) <==> (t >= done && bit_set(quote_mask, t)));
                if t < pos {
                    assert((m >> tt) & 1u64 == 0u64);
                    assert(!bit_set(m, t));
                }
            }
            assert forall|t: int| 0 <= t < 64 implies (#[trigger] bit_set(result, t) <==> (bit_set(
                quote_mask,
                t,
            ) && (t >= pos + 1 || !escaped(bs_mask, t)))) by {
                let tt: u64 = t as u64;
                lemma_bit_after_clear(before, p, tt);
                assert(bit_set(before, t) <==> (bit_set(quote_mask, t) && (t >= done || !escaped(
                    bs_mask,
                    t,
                ))));
                assert(bit_set(m, t) <==> (t >= done && bit_set(quote_mask, t)));
                if t < pos && t >= done {
                    assert((m >> tt) & 1u64 == 0u64);
                    assert(!bit_set(m, t));
                }
            }
            done = pos as int + 1;
        }
        m = lowered;
    }
    proof {
        assert forall|t: int| 0 <= t < 64 implies (#[trigger] bit_set(result, t) <==> (bit_set(
            quote_mask,
            t,
        ) && !escaped(bs_mask, t))) by {
            lemma_bit_of_zero(t as u64);
            assert(!bit_set(m, t));
            assert(bit_set(m, t) <==> (t >= done && bit_set(quote_mask, t)));
        }
    }
    result
}

/// Whether the run of set bits of `mask` right below bit `pos` is odd.
fn run_is_odd(mask: u64, pos: u32) -> (r: bool)
    requires
        pos <= 64,
    ensures
        r == escaped(mask, pos as int),
{
    let mut below: u32 = pos;
    let mut count: u32 = 0;
    while below > 0 && (mask >> (below - 1)) & 1 == 1
        invariant
            below <= pos <= 64,
            count + below == pos,
            run_below(mask, pos as int) == count + run_below(mask, below as int),
        decreases below,
    {
        assert(bit_set(mask, below - 1));
        count += 1;
        below -= 1;
    }
    proof {
        if below > 0 {
            assert(!bit_set(mask, below - 1));
        }
        lemma_low_bit_is_parity(count);
    }
    count & 1 == 1
}

/// The masks of a block of 64 bytes at `pos`, with the first byte left out
/// if it is escaped from before the block.
pub open spec fn block_masks(
    s: Seq<u8>,
    pos: int,
    pending: bool,
    quote_mask: u64,
    bs_mask: u64,
) -> bool {
    &&& forall|t: int|
        0 <= t < 64 ==> (#[trigger] bit_set(quote_mask, t) <==> (s[pos + t] == QUOTE && !(pending
            && t == 0)))
    &&& forall|t: int|
        0 <= t < 64 ==> (#[trigger] bit_set(bs_mask, t) <==> (s[pos + t] == BACKSLASH && !(pending
            && t == 0)))
}

/// Inside a block the runs of the backslash mask have the parity of the runs
/// of backslashes in the string, the escape carried in from before the
/// block being taken into the mask.
proof fn lemma_block_runs(
    s: Seq<u8>,
    from: int,
    pos: int,
    pending: bool,
    quote_mask: u64,
    bs_mask: u64,
    t: int,
)
    requires
        0 <= from <= pos,
        pos + 64 <= s.len(),
        0 <= t <= 64,
        block_masks(s, pos, pending, quote_mask, bs_mask),
        pending <==> run_before(s, from, pos) % 2 == 1,
        t == 0 ==> !pending,
    ensures
        run_below(bs_mask, t) % 2 == run_before(s, from, pos + t) % 2,
    decreases t,
{
    if t >= 1 {
        assert(bit_set(bs_mask, t - 1) <==> (s[pos + (t - 1)] == BACKSLASH && !(pending && t - 1
            == 0)));
        if bit_set(bs_mask, t - 1) {
            lemma_block_runs(s, from, pos, pending, quote_mask, bs_mask, t - 1);
        } else if s[pos + t - 1] == BACKSLASH {
            assert(pending && t == 1);
            assert(run_before(s, from, pos + 1) == 1 + run_before(s, from, pos));
        }
    }
}

/// The quotes that `resolve_escapes` leaves in a block are the quotes that
/// close the string.
proof fn lemma_block_closes(
    s: Seq<u8>,
    from: int,
    pos: int,
    pending: bool,
    quote_mask: u64,
    bs_mask: u64,
    kept: u64,
)
    requires
        0 <= from <= pos,
        pos + 64 <= s.len(),
        block_masks(s, pos, pending, quote_mask, bs_mask),
        pending <==> run_before(s, from, pos) % 2 == 1,
        forall|t: int|
            0 <= t < 64 ==> (#[trigger] bit_set(kept, t) <==> (bit_set(quote_mask, t) && !escaped(
                bs_mask,
                t,
            ))),
    ensures
        forall|t: int| 0 <= t < 64 ==> (#[trigger] bit_set(kept, t) <==> closes(s, from, pos + t)),
        escaped(bs_mask, 64) <==> run_before(s, from, pos + 64) % 2 == 1,
{
    assert forall|t: int| 0 <= t < 64 implies (#[trigger] bit_set(kept, t) <==> closes(
        s,
        from,
        pos + t,
    )) by {
        assert(bit_set(quote_mask, t) <==> (s[pos + t] == QUOTE && !(pending && t == 0)));
        if t >= 1 || !pending {
            lemma_block_runs(s, from, pos, pending, quote_mask, bs_mask, t);
        }
    }
    lemma_block_runs(s, from, pos, pending, quote_mask, bs_mask, 64);
}

/// Where the quoted string that is open at `start` ends, found 64 bytes at
/// a time: the quotes and the backslashes of a block are taken as masks,
/// the quotes behind an odd run of backslashes are struck out, and the
/// lowest quote left is the end. A run of backslashes that reaches the end
/// of a block may escape the first byte of the next; the escape is carried
/// over. What is left after the last whole block is searched byte by byte.
/// The result is that of `find_string_end_scalar`.
pub fn find_string_end_simd(data: &[u8], start: usize) -> (r: usize)
    ensures
        r == quoted_end(data@, start as int),
        r <= data.len(),
{
    let len: usize = data.len();
    if start >= len {
        return len;
    }
    let mut pos: usize = start;
    let mut pending: bool = false;
    while len - pos >= 64
        invariant
            start <= pos <= len == data.len(),
            pending <==> run_before(data@, start as int, pos as int) % 2 == 1,
            forall|i: int| start <= i < pos ==> !closes(data@, start as int, i),
        decreases len - pos,
    {
        let quotes: u64 = byte_mask(data, pos, 64, QUOTE);
        let backslashes: u64 = byte_mask(data, pos, 64, BACKSLASH);
        let quote_mask: u64 = if pending {
            quotes & !1u64
        } else {
            quotes
        };
        let bs_mask: u64 = if pending {
            backslashes & !1u64
        } else {
            backslashes
        };
        proof {
            assert(!(1u64 << 0u64) == !1u64) by (bit_vector);
            assert forall|t: int| 0 <= t < 64 implies (#[trigger] bit_set(quote_mask, t) <==> (
            data@[pos + t] == QUOTE && !(pending && t == 0))) by {
                lemma_bit_after_clear(quotes, 0, t as u64);
                assert(bit_set(quotes, t) <==> (t < 64 && data@[pos + t] == QUOTE));
            }
            assert forall|t: int| 0 <= t < 64 implies (#[trigger] bit_set(bs_mask, t) <==> (data@[pos
                + t] == BACKSLASH && !(pending && t == 0))) by {
                lemma_bit_after_clear(backslashes, 0, t as u64);
                assert(bit_set(backslashes, t) <==> (t < 64 && data@[pos + t] == BACKSLASH));
            }
        }
        let real_quotes: u64 = resolve_escapes(quote_mask, bs_mask);
        proof {
            lemma_block_closes(
                data@,
                start as int,
                pos as int,
                pending,
                quote_mask,
                bs_mask,
                real_quotes,
            );
        }
        if real_quotes != 0 {
            let first: u32 = real_quotes.trailing_zeros();
            proof {
                vstd::std_specs::bits::axiom_u64_trailing_zeros(real_quotes);
                assert(first < 64);
                assert(bit_set(real_quotes, first as int));
                assert(closes(data@, start as int, pos + first));
                assert forall|i: int| pos <= i < pos + first implies !closes(
                    data@,
                    start as int,
                    i,
                ) by {
                    let t = i - pos;
                    assert((real_quotes >> (t as u64)) & 1u64 == 0u64);
                    assert(!bit_set(real_quotes, t));
                }
                lemma_quoted_end_closes(data@, start as int);
            }
            return pos + first as usize;
        }
        proof {
            assert forall|i: int| start <= i < pos + 64 implies !closes(data@, start as int, i) by {
                if i >= pos {
                    let t = i - pos;
                    lemma_bit_of_zero(t as u64);
                    assert(!bit_set(real_quotes, t));
                }
            }
        }
        pending = run_is_odd(bs_mask, 64);
        pos += 64;
    }
    proof {
        lemma_quoted_end_closes(data@, start as int);
    }
    if pending {
        if pos >= len {
            return len;
        }
        proof {
            assert(run_before(data@, start as int, pos + 1) % 2 == 0) by {
                if data@[pos as int] == BACKSLASH {
                    assert(run_before(data@, start as int, pos + 1) == 1 + run_before(
                        data@,
                        start as int,
                        pos as int,
                    ));
                }
            }
            lemma_quoted_end_resumes(data@, start as int, pos + 1);
        }
        find_string_end_scalar(data, pos + 1)
    } else {
        proof {
            lemma_quoted_end_resumes(data@, start as int, pos as int);
        }
        find_string_end_scalar(data, pos)
    }
}

/// For every set bit among the low `bits` bits of `mask`, lowest first, the
/// offset `base + j + shift` of the byte that bit `j` stands for.
pub open spec fn mask_offsets(mask: u64, base: int, shift: int, bits: int) -> Seq<u64>
    decreases bits,
{
    if bits <= 0 {
        Seq::empty()
    } else {
        let before = mask_offsets(mask, base, shift, bits - 1);
        if bit_set(mask, bits - 1) {
            before.push((base + (bits - 1) + shift) as u64)
        } else {
            before
        }
    }
}

proof fn lemma_mask_offsets_skip(mask: u64, base: int, shift: int, from: int, to: int)
    requires
        0 <= from <= to <= 64,
        forall|j: int| from <= j < to ==> !bit_set(mask, j),
    ensures
        mask_offsets(mask, base, shift, to) == mask_offsets(mask, base, shift, from),
    decreases to - from,
{
    if from < to {
        lemma_mask_offsets_skip(mask, base, shift, from, to - 1);
        assert(!bit_set(mask, to - 1));
    }
}

fn extract_offsets(mask: u64, base: u64, shift: u64, output: &mut Vec<u64>)
    requires
        shift <= 1,
        base + 64 <= u64::MAX,
    ensures
        final(output)@ == old(output)@ + mask_offsets(mask, base as int, shift as int, 64),
{
    let mut m: u64 = mask;
    let ghost mut done: int = 0;
    proof {
        assert(output@ =~= old(output)@ + mask_offsets(mask, base as int, shift as int, 0));
    }
    while m != 0
        invariant
            0 <= done <= 64,
            shift <= 1,
            base + 64 <= u64::MAX,
            forall|t: int|
                0 <= t < 64 ==> (#[trigger] bit_set(m, t) <==> (t >= done && bit_set(mask, t))),
            output@ == old(output)@ + mask_offsets(mask, base as int, shift as int, done),
        decreases 64 - done, m,
    {
        let pos: u32 = m.trailing_zeros();
        proof {
            vstd::std_specs::bits::axiom_u64_trailing_zeros(m);
            assert(pos < 64);
            assert(bit_set(m, pos as int));
            assert forall|t: int| done <= t < pos implies !bit_set(mask, t) by {
                assert((m >> (t as u64)) & 1u64 == 0u64);
                assert(!bit_set(m, t));
            }
            lemma_mask_offsets_skip(mask, base as int, shift as int, done, pos as int);
            assert(bit_set(mask, pos as int));
        }
        output.push(base + pos as u64 + shift);
        let lowered: u64 = m & (m - 1);
        proof {
            let p: u64 = pos as u64;
            assert(p == 0 || m << ((64 - p) as u64) == 0);
            assert forall|t: int| 0 <= t < 64 implies (#[trigger] bit_set(lowered, t) <==> (t
                >= pos + 1 && bit_set(mask, t))) by {
                let tt: u64 = t as u64;
                lemma_bit_after_clearing_lowest(m, p, tt);
                assert(lowered == m & ((m - 1) as u64));
                assert(bit_set(m, t) <==> (t >= done && bit_set(mask, t)));
                if t < pos {
                    assert((m >> tt) & 1u64 == 0u64);
                    assert(!bit_set(m, t));
                }
            }
            done = pos as int + 1;
        }
        m = lowered;
    }
    proof {
        assert forall|t: int| done <= t < 64 implies !bit_set(mask, t) by {
            lemma_bit_of_zero(t as u64);
            assert(!bit_set(m, t));
        }
        lemma_mask_offsets_skip(mask, base as int, shift as int, done, 64);
    }
}

/// Appends, for every set bit of `mask`, the offset after the byte it stands
/// for: `base + p + 1` for bit `p`, lowest bit first.
pub fn extract_mask_positions(mask: u64, base: u64, output: &mut Vec<u64>)
    requires
        base + 64 <= u64::MAX,
    ensures
        final(output)@ == old(output)@ + mask_offsets(mask, base as int, 1, 64),
{
    extract_offsets(mask, base, 1, output);
}

/// Appends, for every set bit of `mask`, the offset of the byte it stands
/// for: `base + p` for bit `p`, lowest bit first.
pub fn extract_mask_positions_raw(mask: u64, base: u64, output: &mut Vec<u64>)
    requires
        base + 64 <= u64::MAX,
    ensures
        final(output)@ == old(output)@ + mask_offsets(mask, base as int, 0, 64),
{
    extract_offsets(mask, base, 0, output);
}

/// Places as offsets.
pub open spec fn as_offsets(places: Seq<int>) -> Seq<u64> {
    places.map_values(|p: int| p as u64)
}

proof fn lemma_mask_offsets_are_set_bits(mask: u64, base: int, shift: int, bits: int)
    requires
        0 <= bits <= 64,
    ensures
        mask_offsets(mask, base, shift, bits) == as_offsets(set_bits(mask, base + shift, bits)),
    decreases bits,
{
    if bits > 0 {
        lemma_mask_offsets_are_set_bits(mask, base, shift, bits - 1);
        let before = set_bits(mask, base + shift, bits - 1);
        assert(as_offsets(before.push(base + shift + bits - 1)) =~= as_offsets(before).push(
            (base + (bits - 1) + shift) as u64,
        ));
    } else {
        assert(as_offsets(Seq::<int>::empty()) =~= Seq::<u64>::empty());
    }
}

/// One pass over `data`, which stands at offset `global_base` of a buffer,
/// for two things at once: appended to `line_starts` is the offset after
/// every newline, and to `brace_positions` the offset of every `{`, both in
/// increasing order. The bytes are taken 64 at a time, as two lanes of 256
/// bits give them: one mask per block for the newlines and one for the
/// braces; the bytes after the last whole block are taken one by one.
pub fn structural_scan_avx2(
    data: &[u8],
    global_base: u64,
    line_starts: &mut Vec<u64>,
    brace_positions: &mut Vec<u64>,
)
    requires
        global_base + data.len() <= u64::MAX,
    ensures
        final(line_starts)@ == old(line_starts)@ + as_offsets(
            places_of(data@, NEWLINE, global_base + 1),
        ),
        final(brace_positions)@ == old(brace_positions)@ + as_offsets(
            places_of(data@, OPEN_BRACE, global_base as int),
        ),
{
    let len: usize = data.len();
    let mut offset: usize = 0;
    proof {
        assert(data@.take(0) =~= Seq::<u8>::empty());
        assert(line_starts@ =~= old(line_starts)@ + as_offsets(Seq::<int>::empty()));
        assert(brace_positions@ =~= old(brace_positions)@ + as_offsets(Seq::<int>::empty()));
    }
    while len - offset >= 64
        invariant
            offset <= len == data.len(),
            global_base + data.len() <= u64::MAX,
            line_starts@ == old(line_starts)@ + as_offsets(
                places_of(data@.take(offset as int), NEWLINE, global_base + 1),
            ),
            brace_positions@ == old(brace_positions)@ + as_offsets(
                places_of(data@.take(offset as int), OPEN_BRACE, global_base as int),
            ),
        decreases len - offset,
    {
        let newlines: u64 = byte_mask(data, offset, 64, NEWLINE);
        let braces: u64 = byte_mask(data, offset, 64, OPEN_BRACE);
        let base: u64 = global_base + offset as u64;
        extract_mask_positions(newlines, base, line_starts);
        extract_mask_positions_raw(braces, base, brace_positions);
        proof {
            let lines_before = places_of(data@.take(offset as int), NEWLINE, global_base + 1);
            let braces_before = places_of(
                data@.take(offset as int),
                OPEN_BRACE,
                global_base as int,
            );
            lemma_mask_offsets_are_set_bits(newlines, base as int, 1, 64);
            lemma_mask_offsets_are_set_bits(braces, base as int, 0, 64);
            lemma_block_places(data@, offset as int, NEWLINE, newlines, global_base + 1, 64);
            lemma_block_places(data@, offset as int, OPEN_BRACE, braces, global_base as int, 64);
            let lines_here = set_bits(newlines, base + 1, 64);
            let braces_here = set_bits(braces, base as int, 64);
            assert(as_offsets(lines_before + lines_here) =~= as_offsets(lines_before) + as_offsets(
                lines_here,
            ));
            assert(as_offsets(braces_before + braces_here) =~= as_offsets(braces_before)
                + as_offsets(braces_here));
            assert(line_starts@ =~= old(line_starts)@ + as_offsets(lines_before + lines_here));
            assert(brace_positions@ =~= old(brace_positions)@ + as_offsets(
                braces_before + braces_here,
            ));
        }
        offset += 64;
    }
    while offset < len
        invariant
            offset <= len == data.len(),
            global_base + data.len() <= u64::MAX,
            line_starts@ == old(line_starts)@ + as_offsets(
                places_of(data@.take(offset as int), NEWLINE, global_base + 1),
            ),
            brace_positions@ == old(brace_positions)@ + as_offsets(
                places_of(data@.take(offset as int), OPEN_BRACE, global_base as int),
            ),
        decreases len - offset,
    {
        let b: u8 = data[offset];
        proof {
            let lines_before = places_of(data@.take(offset as int), NEWLINE, global_base + 1);
            let braces_before = places_of(
                data@.take(offset as int),
                OPEN_BRACE,
                global_base as int,
            );
            lemma_places_step(data@, NEWLINE, global_base + 1, offset as int);
            lemma_places_step(data@, OPEN_BRACE, global_base as int, offset as int);
            assert(as_offsets(lines_before.push(global_base + 1 + offset)) =~= as_offsets(
                lines_before,
            ).push((global_base + offset + 1) as u64));
            assert(as_offsets(braces_before.push(global_base + offset)) =~= as_offsets(
                braces_before,
            ).push((global_base + offset) as u64));
        }
        if b == NEWLINE {
            line_starts.push(global_base + offset as u64 + 1);
        } else if b == OPEN_BRACE {
            brace_positions.push(global_base + offset as u64);
        }
        proof {
            let lines_before = places_of(data@.take(offset as int), NEWLINE, global_base + 1);
            let braces_before = places_of(
                data@.take(offset as int),
                OPEN_BRACE,
                global_base as int,
            );
            if b == NEWLINE {
                assert(line_starts@ =~= old(line_starts)@ + as_offsets(lines_before).push(
                    (global_base + offset + 1) as u64,
                ));
            } else if b == OPEN_BRACE {
                assert(brace_positions@ =~= old(brace_positions)@ + as_offsets(
                    braces_before,
                ).push((global_base + offset) as u64));
            }
        }
        offset += 1;
    }
    proof {
        assert(data@.take(len as int) =~= data@);
    }
}

/// Where the nested value ends whose body is being read at `i` with `depth`
/// brackets open: the position after the bracket that closes the outermost
/// one, or `s.len()` if it is never closed. Brackets inside strings do not
/// count.
pub open spec fn nested_end(s: Seq<u8>, i: int, depth: nat, open: u8, close: u8) -> int
    decreases s.len() - i,
{
    if i < 0 || i >= s.len() {
        s.len() as int
    } else if depth == 0 {
        i
    } else if s[i] == open {
        nested_end(s, i + 1, depth + 1, open, close)
    } else if s[i] == close {
        nested_end(s, i + 1, (depth - 1) as nat, open, close)
    } else if s[i] == QUOTE {
        let e = quoted_end(s, i + 1);
        proof {
            lemma_quoted_end(s, i + 1);
        }
        if e < s.len() {
            nested_end(s, e + 1, depth, open, close)
        } else {
            s.len() as int
        }
    } else {
        nested_end(s, i + 1, depth, open, close)
    }
}

pub proof fn lemma_nested_end(s: Seq<u8>, i: int, depth: nat, open: u8, close: u8)
    requires
        0 <= i <= s.len(),
    ensures
        i <= nested_end(s, i, depth, open, close) <= s.len(),
    decreases s.len() - i,
{
    if i < s.len() && depth > 0 {
        if s[i] == open {
            lemma_nested_end(s, i + 1, depth + 1, open, close);
        } else if s[i] == close {
            lemma_nested_end(s, i + 1, (depth - 1) as nat, open, close);
        } else if s[i] == QUOTE {
            lemma_quoted_end(s, i + 1);
            let e = quoted_end(s, i + 1);
            if e < s.len() {
                lemma_nested_end(s, e + 1, depth, open, close);
            }
        } else {
            lemma_nested_end(s, i + 1, depth, open, close);
        }
    }
}

/// The value that begins at `i`. A string runs from after its opening quote
/// to its closing quote. An object or array runs from its opening bracket
/// through the bracket that closes it. Anything else runs up to the next
/// terminator. A value that is cut off ends with the line.
pub open spec fn json_value(s: Seq<u8>, i: int) -> ValueSpan {
    let len = s.len() as int;
    if i >= len {
        ValueSpan { start: i, end: i, next: i }
    } else if s[i] == QUOTE {
        let e = quoted_end(s, i + 1);
        ValueSpan {
            start: i + 1,
            end: e,
            next: if e < len {
                e + 1
            } else {
                e
            },
        }
    } else if s[i] == OPEN_BRACE {
        let e = nested_end(s, i + 1, 1, OPEN_BRACE, CLOSE_BRACE);
        ValueSpan { start: i, end: e, next: e }
    } else if s[i] == OPEN_BRACKET {
        let e = nested_end(s, i + 1, 1, OPEN_BRACKET, CLOSE_BRACKET);
        ValueSpan { start: i, end: e, next: e }
    } else {
        let e = scan_until(s, i, value_terminator());
        ValueSpan { start: i, end: e, next: e }
    }
}

pub proof fn lemma_json_value(s: Seq<u8>, i: int)
    requires
        0 <= i <= s.len(),
    ensures
        i <= json_value(s, i).start <= json_value(s, i).end <= json_value(s, i).next <= s.len(),
{
    if i < s.len() {
        if s[i] == QUOTE {
            lemma_quoted_end(s, i + 1);
        } else if s[i] == OPEN_BRACE {
            lemma_nested_end(s, i + 1, 1, OPEN_BRACE, CLOSE_BRACE);
        } else if s[i] == OPEN_BRACKET {
            lemma_nested_end(s, i + 1, 1, OPEN_BRACKET, CLOSE_BRACKET);
        } else {
            lemma_scan_until(s, i, value_terminator());
        }
    }
}

/// The position after the value whose first bracket, `open`, stands before
/// `from`.
fn skip_nested(line: &[u8], from: usize, open: u8, close: u8) -> (r: usize)
    requires
        1 <= from <= line.len(),
        open != close,
        open != QUOTE,
        close != QUOTE,
    ensures
        r == nested_end(line@, from as int, 1, open, close),
        from <= r <= line.len(),
{
    let len: usize = line.len();
    let mut i: usize = from;
    let mut depth: usize = 1;
    proof {
        lemma_nested_end(line@, from as int, 1, open, close);
    }
    while i < len && depth > 0
        invariant
            len == line.len(),
            1 <= from <= i <= len,
            depth <= 1 + (i - from),
            nested_end(line@, from as int, 1, open, close) == nested_end(
                line@,
                i as int,
                depth as nat,
                open,
                close,
            ),
        decreases len - i,
    {
        let byte: u8 = line[i];
        if byte == open {
            depth += 1;
            i += 1;
        } else if byte == close {
            depth -= 1;
            i += 1;
        } else if byte == QUOTE {
            let e: usize = find_quote_end(line, i + 1);
            if e < len {
                i = e + 1;
            } else {
                return len;
            }
        } else {
            i += 1;
        }
    }
    i
}

/// Reads the value at `*i` and moves `*i` past it. Returns where the value
/// starts and ends.
pub fn parse_json_value(line: &[u8], i: &mut usize) -> (r: (usize, usize))
    requires
        *old(i) <= line.len(),
    ensures
        r.0 == json_value(line@, *old(i) as int).start,
        r.1 == json_value(line@, *old(i) as int).end,
        *final(i) == json_value(line@, *old(i) as int).next,
        *old(i) <= r.0 <= r.1 <= *final(i) <= line.len(),
{
    let len: usize = line.len();
    let at: usize = *i;
    proof {
        lemma_json_value(line@, at as int);
    }
    if at >= len {
        return (at, at);
    }
    let first: u8 = line[at];
    if first == QUOTE {
        let val_start: usize = at + 1;
        let val_end: usize = find_quote_end(line, val_start);
        *i = if val_end < len {
            val_end + 1
        } else {
            val_end
        };
        (val_start, val_end)
    } else if first == OPEN_BRACE {
        let end: usize = skip_nested(line, at + 1, OPEN_BRACE, CLOSE_BRACE);
        *i = end;
        (at, end)
    } else if first == OPEN_BRACKET {
        let end: usize = skip_nested(line, at + 1, OPEN_BRACKET, CLOSE_BRACKET);
        *i = end;
        (at, end)
    } else {
        let mut end: usize = at;
        while end < len && !is_json_value_terminator(line[end])
            invariant
                at <= end <= len == line.len(),
                forall|j: int| at <= j < end ==> !value_terminator()(#[trigger] line@[j]),
            decreases len - end,
        {
            end += 1;
        }
        proof {
            lemma_scan_until_unique(line@, at as int, value_terminator(), end as int);
        }
        *i = end;
        // A bare value holds no whitespace, so trimming its end finds nothing.
        let mut val_end: usize = end;
        while val_end > at && is_json_whitespace(line[val_end - 1])
            invariant
                at <= val_end <= end <= line.len(),
                val_end == end,
                forall|j: int| at <= j < end ==> !value_terminator()(#[trigger] line@[j]),
            decreases val_end,
        {
            assert(!value_terminator()(line@[val_end - 1]));
            val_end -= 1;
        }
        (at, val_end)
    }
}

/// The token at or after position `i`, inside the braces of the object.
/// Whitespace is passed over. A `}` ends the object: nothing after it is
/// read. A `,` is passed over. Anything else that is not a quote is passed
/// over up to the next `,` or `}`. A quote opens a key; after the key come
/// an optional `:` amid whitespace, the value, and an optional `,`.
pub open spec fn json_token(s: Seq<u8>, i: int) -> Token {
    let len = s.len() as int;
    let at = scan_until(s, i, not_whitespace());
    if at >= len || s[at] == CLOSE_BRACE {
        Token { field: None, next: len }
    } else if s[at] == COMMA {
        Token { field: None, next: at + 1 }
    } else if s[at] != QUOTE {
        Token { field: None, next: scan_until(s, at, byte_in2(COMMA, CLOSE_BRACE)) }
    } else {
        let key_end = quoted_end(s, at + 1);
        let after_key = if key_end < len {
            key_end + 1
        } else {
            key_end
        };
        let colon = scan_until(s, after_key, not_whitespace());
        let after_colon = if colon < len && s[colon] == COLON {
            colon + 1
        } else {
            colon
        };
        let value = json_value(s, scan_until(s, after_colon, not_whitespace()));
        let comma = scan_until(s, value.next, not_whitespace());
        Token {
            field: Some(
                FieldSpan {
                    key_start: at + 1,
                    key_end,
                    val_start: value.start,
                    val_end: value.end,
                },
            ),
            next: if comma < len && s[comma] == COMMA {
                comma + 1
            } else {
                comma
            },
        }
    }
}

/// A token takes at least one byte, and its field lies inside the line.
pub proof fn lemma_json_token(s: Seq<u8>, i: int)
    requires
        0 <= i < s.len(),
    ensures
        i < json_token(s, i).next <= s.len(),
        match json_token(s, i).field {
            Some(f) => f.inside(s.len() as int) && i < f.key_start,
            None => true,
        },
{
    let len = s.len() as int;
    lemma_scan_until(s, i, not_whitespace());
    let at = scan_until(s, i, not_whitespace());
    if at >= len || s[at] == CLOSE_BRACE {
    } else if s[at] == COMMA {
    } else if s[at] != QUOTE {
        lemma_scan_until(s, at, byte_in2(COMMA, CLOSE_BRACE));
        assert(!byte_in2(COMMA, CLOSE_BRACE)(s[at]));
    } else {
        lemma_quoted_end(s, at + 1);
        let key_end = quoted_end(s, at + 1);
        let after_key = if key_end < len {
            key_end + 1
        } else {
            key_end
        };
        lemma_scan_until(s, after_key, not_whitespace());
        let colon = scan_until(s, after_key, not_whitespace());
        let after_colon = if colon < len && s[colon] == COLON {
            colon + 1
        } else {
            colon
        };
        lemma_scan_until(s, after_colon, not_whitespace());
        let at_value = scan_until(s, after_colon, not_whitespace());
        lemma_json_value(s, at_value);
        lemma_scan_until(s, json_value(s, at_value).next, not_whitespace());
    }
}

/// The fields of the object from position `i` on, in order.
pub open spec fn json_fields(s: Seq<u8>, i: int) -> Seq<FieldSpan>
    decreases s.len() - i,
{
    if i < 0 || i >= s.len() {
        Seq::empty()
    } else {
        let token = json_token(s, i);
        proof {
            lemma_json_token(s, i);
        }
        let rest = json_fields(s, token.next);
        match token.field {
            Some(f) => seq![f] + rest,
            None => rest,
        }
    }
}

/// Every field lies inside the line, and there are no more fields than bytes
/// after `i`.
pub proof fn lemma_json_fields(s: Seq<u8>, i: int)
    requires
        0 <= i <= s.len(),
    ensures
        json_fields(s, i).len() <= s.len() - i,
        forall|k: int|
            0 <= k < json_fields(s, i).len() ==> (#[trigger] json_fields(s, i)[k]).inside(
                s.len() as int,
            ),
    decreases s.len() - i,
{
    if i < s.len() {
        lemma_json_token(s, i);
        lemma_json_fields(s, json_token(s, i).next);
    }
}

/// The members of the object on a line: the fields read from after the
/// first `{`, and none if the line holds no `{`.
pub open spec fn json_members(line: Seq<u8>) -> Seq<FieldSpan> {
    let open = scan_until(line, 0, byte_is(OPEN_BRACE));
    if open < line.len() {
        json_fields(line, open + 1)
    } else {
        Seq::empty()
    }
}

/// Every member lies inside the line, and there are fewer members than
/// bytes.
pub proof fn lemma_json_members(line: Seq<u8>)
    ensures
        json_members(line).len() <= line.len(),
        line.len() > 0 ==> json_members(line).len() < line.len(),
        forall|k: int|
            0 <= k < json_members(line).len() ==> (#[trigger] json_members(line)[k]).inside(
                line.len() as int,
            ),
{
    let open = scan_until(line, 0, byte_is(OPEN_BRACE));
    lemma_scan_until(line, 0, byte_is(OPEN_BRACE));
    if open < line.len() {
        lemma_json_fields(line, open + 1);
    }
}

/// The records that a line gives: one for every line that has bytes, with
/// the members of its object as fields. A line without an object, or with
/// one that is cut short, still gives its record, with the fields that were
/// found. A line without bytes gives none.
pub open spec fn json_records(line: Seq<u8>, base: int) -> Seq<RecordView> {
    if line.len() == 0 {
        Seq::empty()
    } else {
        seq![record_of(line, base, json_members(line))]
    }
}

/// Every field of the record of a line lies inside the line, also where
/// the object is cut short: keys and values are ranges of
/// `base..base + line.len()`.
pub proof fn lemma_json_fields_in_line(line: Seq<u8>, base: int)
    requires
        0 <= base,
        base + line.len() <= u64::MAX,
        line.len() <= u32::MAX,
    ensures
        forall|r: int, k: int|
            0 <= r < json_records(line, base).len() && 0 <= k < json_records(
                line,
                base,
            )[r].fields.len() ==> (#[trigger] json_records(line, base)[r].fields[k]).within(
                base,
                base + line.len(),
            ),
{
    lemma_json_members(line);
    lemma_refs_within(json_members(line), base, line.len() as int);
}

/// Parses one line, which stands at `base_offset`, into one record. A line
/// that holds no `{` gives a record without fields.
#[verifier::rlimit(40)]
pub fn parse_json_line(line: &[u8], base_offset: u64, batch: &mut StructuredBatch)
    requires
        old(batch).complete(),
        base_offset + line.len() <= u64::MAX,
        old(batch).fields@.len() + line.len() < u32::MAX,
    ensures
        final(batch).complete(),
        final(batch)@ == old(batch)@ + json_records(line@, base_offset as int),
        final(batch).fields@.len() <= old(batch).fields@.len() + line.len(),
        forall|n: int|
            old(batch).within(n) && base_offset + line.len() <= n ==> #[trigger] final(batch).within(
                n,
            ),
{
    let len: usize = line.len();
    if len == 0 {
        assert(batch@ =~= old(batch)@ + json_records(line@, base_offset as int));
        return ;
    }
    let open: usize = find_byte(line, 0, OPEN_BRACE);
    let mut i: usize = if open < len {
        open + 1
    } else {
        len
    };

    assert(batch.field_starts.len() == batch.len + 1);
    batch.begin_record(base_offset, len as u32);
    let ghost mut spans: Seq<FieldSpan> = Seq::empty();
    proof {
        lemma_building_begins(*old(batch), *batch, base_offset, len as u32);
        assert(refs_of(spans, base_offset as int) =~= Seq::empty());
        assert(kinds_of(spans, line@) =~= Seq::empty());
        assert(json_fields(line@, len as int) =~= Seq::empty());
        assert(json_members(line@) =~= spans + json_fields(line@, i as int));
    }
    while i < len
        invariant
            0 < i <= len == line.len(),
            base_offset + len <= u64::MAX,
            old(batch).fields@.len() + len < u32::MAX,
            building(
                *old(batch),
                *batch,
                base_offset,
                len as u32,
                refs_of(spans, base_offset as int),
                kinds_of(spans, line@),
            ),
            json_members(line@) == spans + json_fields(line@, i as int),
            spans.len() < i,
            forall|k: int| 0 <= k < spans.len() ==> (#[trigger] spans[k]).inside(len as int),
        decreases len - i,
    {
        proof {
            lemma_json_token(line@, i as int);
        }
        let ghost token = json_token(line@, i as int);
        let ghost before = spans;
        let at: usize = skip_whitespace(line, i);
        if at >= len || line[at] == CLOSE_BRACE {
            i = len;
        } else if line[at] == COMMA {
            i = at + 1;
        } else if line[at] != QUOTE {
            i = find_either(line, at, COMMA, CLOSE_BRACE);
        } else {
            let key_start: usize = at + 1;
            let key_end: usize = find_quote_end(line, key_start);
            let mut next: usize = if key_end < len {
                key_end + 1
            } else {
                key_end
            };
            next = skip_whitespace(line, next);
            if next < len && line[next] == COLON {
                next += 1;
            }
            next = skip_whitespace(line, next);
            let (val_start, val_end) = parse_json_value(line, &mut next);

            let ghost mid = *batch;
            let field_idx: u32 = batch.fields.len() as u32;
            let field = FieldRef {
                key_offset: base_offset + key_start as u64,
                key_len: (key_end - key_start) as u32,
                val_offset: base_offset + val_start as u64,
                val_len: (val_end - val_start) as u32,
            };
            batch.push_field(field);
            let key_bytes: &[u8] = &line[key_start..key_end];
            match classify_key(key_bytes) {
                WellKnownKind::Timestamp => {
                    batch.set_well_known_timestamp(field_idx);
                },
                WellKnownKind::Level => {
                    batch.set_well_known_level(field_idx);
                },
                WellKnownKind::Message => {
                    batch.set_well_known_message(field_idx);
                },
                WellKnownKind::Component => {
                    batch.set_well_known_component(field_idx);
                },
                WellKnownKind::Other => {
                    assert(batch.well_known@ =~= mid.well_known@.update(
                        mid.well_known@.len() - 1,
                        mid.well_known@.last(),
                    ));
                },
            }
            proof {
                let span = token.field.unwrap();
                let refs = refs_of(spans, base_offset as int);
                let kinds = kinds_of(spans, line@);
                let kind = classify(span.key(line@));
                assert(field == span.field_ref(base_offset as int));
                lemma_building_grows(
                    *old(batch),
                    mid,
                    *batch,
                    base_offset,
                    len as u32,
                    refs,
                    kinds,
                    field,
                    kind,
                );
                assert(refs_of(spans.push(span), base_offset as int) =~= refs.push(field));
                assert(kinds_of(spans.push(span), line@) =~= kinds.push(kind));
                spans = spans.push(span);
            }

            next = skip_whitespace(line, next);
            if next < len && line[next] == COMMA {
                next += 1;
            }
            i = next;
        }
        proof {
            assert(i == token.next);
            match token.field {
                Some(f) => {
                    assert(spans == before.push(f));
                    assert(before + (seq![f] + json_fields(line@, token.next)) =~= before.push(f)
                        + json_fields(line@, token.next));
                },
                None => {},
            }
        }
    }
    let ghost last = *batch;
    batch.end_record();
    proof {
        assert(json_fields(line@, len as int) =~= Seq::empty());
        assert(spans =~= json_members(line@));
        lemma_building_ends(
            *old(batch),
            last,
            *batch,
            base_offset,
            len as u32,
            refs_of(spans, base_offset as int),
            kinds_of(spans, line@),
        );
        assert(batch@ =~= old(batch)@ + json_records(line@, base_offset as int));
        lemma_refs_within(spans, base_offset as int, len as int);
        assert forall|n: int|
            old(batch).within(n) && base_offset + line.len() <= n implies #[trigger] batch.within(
            n,
        ) by {
            lemma_within_grows(
                *old(batch),
                *batch,
                base_offset,
                len as u32,
                refs_of(spans, base_offset as int),
                n,
            );
        }
    }
}

/// Every byte of the line is whitespace.
pub open spec fn whitespace_line(line: Seq<u8>) -> bool {
    forall|k: int| 0 <= k < line.len() ==> json_whitespace(#[trigger] line[k])
}

/// What the range parser makes of one line: nothing of a line that is all
/// whitespace, else the records of the line.
pub open spec fn json_line() -> spec_fn(Seq<u8>, int) -> Seq<RecordView> {
    |line: Seq<u8>, base: int|
        if whitespace_line(line) {
            Seq::empty()
        } else {
            json_records(line, base)
        }
}

/// The records of the lines `from..to` of `data`: for every line that has
/// bytes other than whitespace, the records of the line, in the order of the
/// lines.
pub open spec fn json_range(data: Seq<u8>, starts: Seq<u64>, from: int, to: int) -> Seq<
    RecordView,
> {
    lines_map(data, starts, from, to, structured_style(), json_line())
}

/// Text that can be written between quotes as it is: none of its bytes is
/// a quote or a backslash.
pub open spec fn plain_text(text: Seq<u8>) -> bool {
    forall|j: int| 0 <= j < text.len() ==> text[j] != QUOTE && text[j] != BACKSLASH
}

/// The member `"key":"value"`.
pub open spec fn member_written(key: Seq<u8>, value: Seq<u8>) -> Seq<u8> {
    seq![QUOTE] + key + seq![QUOTE, COLON, QUOTE] + value + seq![QUOTE]
}

/// The members that spell the pairs, with a comma between them.
pub open spec fn members_written(pairs: Seq<(Seq<u8>, Seq<u8>)>) -> Seq<u8>
    decreases pairs.len(),
{
    if pairs.len() == 0 {
        Seq::empty()
    } else if pairs.len() == 1 {
        member_written(pairs[0].0, pairs[0].1)
    } else {
        member_written(pairs[0].0, pairs[0].1) + seq![COMMA] + members_written(pairs.skip(1))
    }
}

/// The line that spells the pairs: an object whose members are strings.
pub open spec fn json_written(pairs: Seq<(Seq<u8>, Seq<u8>)>) -> Seq<u8> {
    seq![OPEN_BRACE] + members_written(pairs) + seq![CLOSE_BRACE]
}

proof fn lemma_member_len(key: Seq<u8>, value: Seq<u8>)
    ensures
        member_written(key, value).len() == key.len() + value.len() + 5,
{
    let quote = seq![QUOTE];
    let marks = seq![QUOTE, COLON, QUOTE];
    assert(quote.len() == 1);
    assert(marks.len() == 3);
    let member = quote + key + marks + value + quote;
    assert((quote + key).len() == 1 + key.len());
    assert((quote + key + marks).len() == 4 + key.len());
    assert((quote + key + marks + value).len() == 4 + key.len() + value.len());
    assert(member.len() == 5 + key.len() + value.len());
    assert(member_written(key, value) == member);
}

/// Where the string ends that holds `text` from `from` on and is closed
/// right after it.
proof fn lemma_string_written(line: Seq<u8>, from: int, text: Seq<u8>)
    requires
        0 <= from,
        from + text.len() < line.len(),
        plain_text(text),
        line.subrange(from, from + text.len()) == text,
        line[from + text.len()] == QUOTE,
    ensures
        quoted_end(line, from) == from + text.len(),
{
    let end = from + text.len();
    assert forall|j: int| from <= j < end implies line[j] == text[j - from] by {
        assert(line.subrange(from, end)[j - from] == line[j]);
    }
    assert forall|j: int| from <= j < end implies !byte_is(QUOTE)(#[trigger] line[j]) by {
        assert(line[j] == text[j - from]);
    }
    assert(byte_is(QUOTE)(line[end]));
    lemma_scan_until_unique(line, from, byte_is(QUOTE), end);
    assert forall|j: int| from <= j < scan_until(line, from, byte_is(QUOTE)) implies #[trigger] line[j]
        != BACKSLASH by {
        assert(line[j] == text[j - from]);
    }
    lemma_quoted_end_plain(line, from);
}

/// The token that stands at `at` where the member `"key":"value"` is
/// written there and a comma or the closing brace follows.
proof fn lemma_member_written(line: Seq<u8>, at: int, key: Seq<u8>, value: Seq<u8>)
    requires
        0 <= at,
        at + key.len() + value.len() + 5 < line.len(),
        plain_text(key),
        plain_text(value),
        line.subrange(at, at + key.len() + value.len() + 5) == member_written(key, value),
        line[at + key.len() + value.len() + 5] == COMMA || line[at + key.len() + value.len()
            + 5] == CLOSE_BRACE,
    ensures
        json_token(line, at) == (Token {
            field: Some(
                FieldSpan {
                    key_start: at + 1,
                    key_end: at + 1 + key.len(),
                    val_start: at + key.len() + 4,
                    val_end: at + key.len() + 4 + value.len(),
                },
            ),
            next: if line[at + key.len() + value.len() + 5] == COMMA {
                at + key.len() + value.len() + 6
            } else {
                at + key.len() + value.len() + 5
            },
        }),
        line.subrange(at + 1, at + 1 + key.len()) == key,
        line.subrange(at + key.len() + 4, at + key.len() + 4 + value.len()) == value,
{
    let member = member_written(key, value);
    let size = key.len() + value.len() + 5;
    let key_start = at + 1;
    let key_end = key_start + key.len();
    let val_start = key_end + 3;
    let val_end = val_start + value.len();
    let after = val_end + 1;
    lemma_member_len(key, value);
    assert forall|j: int| 0 <= j < size implies line[at + j] == member[j] by {
        assert(line.subrange(at, at + size)[j] == line[at + j]);
    }
    assert(member[0] == QUOTE);
    assert(line[at] == QUOTE);
    assert(member[key.len() as int + 1] == QUOTE);
    assert(member[key.len() as int + 2] == COLON);
    assert(member[key.len() as int + 3] == QUOTE);
    assert(member[size - 1] == QUOTE);
    assert(line[key_end] == QUOTE);
    assert(line[key_end + 1] == COLON);
    assert(line[key_end + 2] == QUOTE);
    assert(line[val_end] == QUOTE);
    assert(line.subrange(key_start, key_end) =~= key) by {
        assert forall|j: int| 0 <= j < key.len() implies line.subrange(key_start, key_end)[j]
            == key[j] by {
            assert(line[at + (1 + j)] == member[1 + j]);
        }
    }
    assert(line.subrange(val_start, val_end) =~= value) by {
        assert forall|j: int| 0 <= j < value.len() implies line.subrange(val_start, val_end)[j]
            == value[j] by {
            assert(line[at + (key.len() + 4 + j)] == member[key.len() + 4 + j]);
        }
    }
    // nothing to pass over in front of the key
    assert(not_whitespace()(line[at]));
    lemma_scan_until_unique(line, at, not_whitespace(), at);
    // the key
    lemma_string_written(line, key_start, key);
    // the colon, with nothing to pass over around it
    assert(not_whitespace()(line[key_end + 1]));
    lemma_scan_until_unique(line, key_end + 1, not_whitespace(), key_end + 1);
    assert(not_whitespace()(line[key_end + 2]));
    lemma_scan_until_unique(line, key_end + 2, not_whitespace(), key_end + 2);
    // the value
    lemma_string_written(line, val_start, value);
    assert(json_value(line, key_end + 2) == ValueSpan {
        start: val_start,
        end: val_end,
        next: after,
    });
    // the comma or the brace
    assert(not_whitespace()(line[after]));
    lemma_scan_until_unique(line, after, not_whitespace(), after);
}

/// After the closing brace there are no fields.
proof fn lemma_fields_at_brace(line: Seq<u8>, at: int)
    requires
        0 <= at < line.len(),
        line[at] == CLOSE_BRACE,
    ensures
        json_fields(line, at) == Seq::<FieldSpan>::empty(),
{
    assert(not_whitespace()(line[at]));
    lemma_scan_until_unique(line, at, not_whitespace(), at);
    assert(json_token(line, at) == Token { field: None, next: line.len() as int });
    assert(json_fields(line, line.len() as int) =~= Seq::<FieldSpan>::empty());
}

/// Written members are read back: where the rest of a line from `at` on is
/// the members that spell the pairs and a closing brace, the fields from
/// `at` on are the pairs.
proof fn lemma_written_members_read_back(line: Seq<u8>, at: int, pairs: Seq<(Seq<u8>, Seq<u8>)>)
    requires
        0 <= at <= line.len(),
        line.skip(at) == members_written(pairs) + seq![CLOSE_BRACE],
        forall|i: int|
            0 <= i < pairs.len() ==> plain_text((#[trigger] pairs[i]).0) && plain_text(pairs[i].1),
    ensures
        field_bytes(json_fields(line, at), line) == pairs,
    decreases pairs.len(),
{
    let rest_of_line = line.skip(at);
    if pairs.len() == 0 {
        assert(rest_of_line =~= seq![CLOSE_BRACE]);
        assert(line[at] == rest_of_line[0]);
        lemma_fields_at_brace(line, at);
        assert(field_bytes(Seq::<FieldSpan>::empty(), line) =~= pairs);
    } else {
        let key = pairs[0].0;
        let value = pairs[0].1;
        let member = member_written(key, value);
        let size: int = key.len() as int + value.len() as int + 5;
        let rest = pairs.skip(1);
        lemma_member_len(key, value);
        assert(plain_text(pairs[0].0) && plain_text(pairs[0].1));
        let span = FieldSpan {
            key_start: at + 1,
            key_end: at + 1 + key.len(),
            val_start: at + key.len() + 4,
            val_end: at + key.len() + 4 + value.len(),
        };
        let tail_text = if pairs.len() == 1 {
            seq![CLOSE_BRACE]
        } else {
            seq![COMMA] + members_written(rest) + seq![CLOSE_BRACE]
        };
        assert(rest_of_line =~= member + tail_text);
        assert(tail_text.len() >= 1);
        assert(line.subrange(at, at + size) =~= member) by {
            assert forall|j: int| 0 <= j < size implies line.subrange(at, at + size)[j]
                == member[j] by {
                assert(rest_of_line[j] == line[at + j]);
                assert((member + tail_text)[j] == member[j]);
            }
        }
        assert(line[at + size] == tail_text[0]) by {
            assert(rest_of_line[size] == line[at + size]);
            assert((member + tail_text)[size] == tail_text[0]);
        }
        lemma_member_written(line, at, key, value);
        if pairs.len() == 1 {
            lemma_fields_at_brace(line, at + size);
            let all = seq![span] + json_fields(line, at + size);
            assert(json_fields(line, at) == all);
            assert(all =~= seq![span]);
            assert(field_bytes(all, line) =~= pairs);
        } else {
            assert forall|i: int| 0 <= i < rest.len() implies plain_text((#[trigger] rest[i]).0)
                && plain_text(rest[i].1) by {
                assert(rest[i] == pairs[i + 1]);
            }
            assert(line.skip(at + size + 1) =~= members_written(rest) + seq![CLOSE_BRACE]) by {
                assert(line.skip(at + size + 1) =~= rest_of_line.skip(size + 1));
                assert((member + tail_text).skip(size + 1) =~= tail_text.skip(1));
                assert(tail_text.skip(1) =~= members_written(rest) + seq![CLOSE_BRACE]);
            }
            lemma_written_members_read_back(line, at + size + 1, rest);
            let tail = json_fields(line, at + size + 1);
            let all = seq![span] + tail;
            assert(json_fields(line, at) == all);
            assert forall|i: int| 0 <= i < pairs.len() implies field_bytes(all, line)[i]
                == pairs[i] by {
                if i > 0 {
                    assert(all[i] == tail[i - 1]);
                    assert(field_bytes(tail, line)[i - 1] == rest[i - 1]);
                }
            }
            assert(field_bytes(all, line) =~= pairs);
        }
    }
}

/// Writing and reading back: the line that spells pairs of plain texts as an
/// object gives one record, whose fields are these pairs, key for key and
/// value for value.
pub proof fn lemma_json_round_trip(pairs: Seq<(Seq<u8>, Seq<u8>)>, base: int)
    requires
        forall|i: int|
            0 <= i < pairs.len() ==> plain_text((#[trigger] pairs[i]).0) && plain_text(pairs[i].1),
    ensures
        json_records(json_written(pairs), base).len() == 1,
        json_records(json_written(pairs), base)[0].fields.len() == pairs.len(),
        field_bytes(json_members(json_written(pairs)), json_written(pairs)) == pairs,
{
    let line = json_written(pairs);
    assert(line.skip(1) =~= members_written(pairs) + seq![CLOSE_BRACE]);
    lemma_written_members_read_back(line, 1, pairs);
    assert(line[0] == OPEN_BRACE);
    assert(byte_is(OPEN_BRACE)(line[0]));
    lemma_scan_until_unique(line, 0, byte_is(OPEN_BRACE), 0);
    assert(json_members(line) == json_fields(line, 1));
    assert(field_bytes(json_fields(line, 1), line).len() == pairs.len());
}

/// Writing, parsing and reading back: the line that spells pairs of plain
/// texts as an object gives one record, and the keys and values that the
/// record's ranges name in the line are these pairs, in order. The line must
/// fit the 32-bit length of a record.
pub proof fn lemma_json_record_round_trip(pairs: Seq<(Seq<u8>, Seq<u8>)>)
    requires
        forall|i: int|
            0 <= i < pairs.len() ==> plain_text((#[trigger] pairs[i]).0) && plain_text(pairs[i].1),
        json_written(pairs).len() <= u32::MAX,
    ensures
        json_records(json_written(pairs), 0).len() == 1,
        resolve(json_records(json_written(pairs), 0)[0], json_written(pairs)).line == json_written(
            pairs,
        ),
        resolve(json_records(json_written(pairs), 0)[0], json_written(pairs)).fields == pairs,
{
    let line = json_written(pairs);
    lemma_json_round_trip(pairs, 0);
    lemma_json_members(line);
    assert(line.subrange(0, line.len() as int) =~= line);
    lemma_resolve_record(line, 0, line.len() as int, json_members(line));
}

/// What a line says, read from the line itself: nothing if it is all
/// whitespace; else one record with the line, the keys and the values of
/// its members as bytes.
pub open spec fn json_text_line() -> spec_fn(Seq<u8>) -> Seq<ResolvedRecord> {
    |line: Seq<u8>|
        {
            if whitespace_line(line) {
                Seq::empty()
            } else {
                let spans = json_members(line);
                seq![
                    ResolvedRecord {
                        line,
                        fields: field_bytes(spans, line),
                        slots: slots_of(kinds_of(spans, line)),
                    },
                ]
            }
        }
}

/// What a JSON line says does not depend on where it stands: read from the
/// buffer, the records of the line `data[base..end]` are what the line says.
pub proof fn lemma_json_line_anywhere(data: Seq<u8>, base: int, end: int)
    requires
        0 <= base <= end <= data.len(),
        data.len() <= u64::MAX,
        end - base <= u32::MAX,
    ensures
        json_line()(data.subrange(base, end), base).map_values(resolver(data))
            == json_text_line()(data.subrange(base, end)),
{
    let line = data.subrange(base, end);
    let records = json_line()(line, base);
    if whitespace_line(line) {
        assert(records.map_values(resolver(data)) =~= Seq::<ResolvedRecord>::empty());
    } else {
        let spans = json_members(line);
        lemma_json_members(line);
        lemma_resolve_record(data, base, end, spans);
        assert(records.map_values(resolver(data)) =~= json_text_line()(line));
    }
}

fn is_whitespace_line(line: &[u8]) -> (r: bool)
    ensures
        r == whitespace_line(line@),
{
    let mut k: usize = 0;
    while k < line.len()
        invariant
            k <= line.len(),
            forall|j: int| 0 <= j < k ==> json_whitespace(#[trigger] line@[j]),
        decreases line.len() - k,
    {
        if !is_json_whitespace(line[k]) {
            return false;
        }
        k += 1;
    }
    true
}

/// Parses the lines `start_idx..end_idx` of `data`, appending the record of
/// every line that has a byte other than whitespace. `line_starts` holds
/// where the lines start. A carriage return before the newline is not part
/// of the line.
pub fn parse_json_lines_range(
    data: &[u8],
    line_starts: &[u64],
    start_idx: usize,
    end_idx: usize,
    batch: &mut StructuredBatch,
)
    requires
        old(batch).complete(),
        start_idx <= end_idx <= line_starts@.len(),
        starts_within(data@, line_starts@, start_idx as int, end_idx as int),
        old(batch).fields@.len() + lines_total(
            data@,
            line_starts@,
            start_idx as int,
            end_idx as int,
            structured_style(),
        ) < u32::MAX,
    ensures
        final(batch).complete(),
        final(batch)@ == old(batch)@ + json_range(
            data@,
            line_starts@,
            start_idx as int,
            end_idx as int,
        ),
        final(batch).fields@.len() <= old(batch).fields@.len() + lines_total(
            data@,
            line_starts@,
            start_idx as int,
            end_idx as int,
            structured_style(),
        ),
        old(batch).within(data@.len() as int) ==> final(batch).within(data@.len() as int),
{
    let mut i: usize = start_idx;
    proof {
        assert(batch@ =~= old(batch)@ + json_range(
            data@,
            line_starts@,
            start_idx as int,
            start_idx as int,
        ));
    }
    while i < end_idx
        invariant
            start_idx <= i <= end_idx <= line_starts@.len(),
            batch.complete(),
            starts_within(data@, line_starts@, start_idx as int, end_idx as int),
            old(batch).fields@.len() + lines_total(
                data@,
                line_starts@,
                start_idx as int,
                end_idx as int,
                structured_style(),
            ) < u32::MAX,
            batch@ == old(batch)@ + json_range(data@, line_starts@, start_idx as int, i as int),
            batch.fields@.len() <= old(batch).fields@.len() + lines_total(
                data@,
                line_starts@,
                start_idx as int,
                i as int,
                structured_style(),
            ),
            old(batch).within(data@.len() as int) ==> batch.within(data@.len() as int),
        decreases end_idx - i,
    {
        proof {
            if i + 1 < line_starts@.len() {
                assert(line_starts@[i + 1] <= data@.len());
            }
            crate::lines::lemma_lines_total_grows(
                data@,
                line_starts@,
                start_idx as int,
                i + 1,
                end_idx as int,
                structured_style(),
            );
        }
        match line_extent(data, line_starts, i, LineStyle { strip_cr: true, trim_final: false }) {
            Some((line_start, line_end)) => {
                let line: &[u8] = &data[line_start..line_end];
                if !is_whitespace_line(line) {
                    parse_json_line(line, line_start as u64, batch);
                }
            },
            None => {},
        }
        proof {
            assert(batch@ =~= old(batch)@ + json_range(
                data@,
                line_starts@,
                start_idx as int,
                i + 1,
            ));
        }
        i += 1;
    }
}

} // verus!
