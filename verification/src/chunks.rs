//! Cutting a buffer into chunks of whole lines and sharing the chunks out
//! among workers.

use crate::ascii::{CARRIAGE_RETURN, NEWLINE};
use crate::lines::{
    lemma_lines_map_empty_line, lemma_lines_map_local, lemma_lines_map_split, line_span, lines_map,
    starts_sorted, starts_within, LineStyle,
};
use crate::search::{byte_is, end_of_last, find_byte, lemma_scan_until, scan_until};
use crate::simd_scan::{
    lemma_line_starts_complete, lemma_line_starts_none, lemma_line_starts_sound,
    lemma_line_starts_split, line_starts_of, scan_region,
};
use vstd::prelude::*;

verus! {

pub const MIB: usize = 0x10_0000;

/// The chunk size in MiB where none is asked for.
pub const DEFAULT_CHUNK_MB: usize = 64;

/// The chunk size in bytes for a size asked for in MiB: at least one MiB,
/// and no more than a `usize` holds.
pub open spec fn chunk_bytes(chunk_mb: int) -> int {
    let mb = if chunk_mb < 1 {
        1
    } else {
        chunk_mb
    };
    if mb * MIB > usize::MAX {
        usize::MAX as int
    } else {
        mb * MIB
    }
}

pub fn chunk_size_for(chunk_mb: usize) -> (r: usize)
    ensures
        r == chunk_bytes(chunk_mb as int),
        r >= 1,
{
    let mb: usize = if chunk_mb < 1 {
        1
    } else {
        chunk_mb
    };
    match mb.checked_mul(MIB) {
        Some(bytes) => bytes,
        None => usize::MAX,
    }
}

/// Where the chunk that starts at `start` ends: `chunk_size` bytes on, and
/// from there after the next newline; at the end of the buffer if that comes
/// first.
pub open spec fn chunk_end(data: Seq<u8>, start: int, chunk_size: int) -> int {
    let seek = start + chunk_size;
    if seek >= data.len() {
        data.len() as int
    } else {
        let newline = scan_until(data, seek, byte_is(NEWLINE));
        if newline < data.len() {
            newline + 1
        } else {
            data.len() as int
        }
    }
}

pub proof fn lemma_chunk_end(data: Seq<u8>, start: int, chunk_size: int)
    requires
        0 <= start < data.len(),
        chunk_size >= 1,
    ensures
        start < chunk_end(data, start, chunk_size) <= data.len(),
        chunk_end(data, start, chunk_size) < data.len() ==> {
            &&& data[chunk_end(data, start, chunk_size) - 1] == NEWLINE
            &&& chunk_end(data, start, chunk_size) > start + chunk_size
        },
{
    let seek = start + chunk_size;
    if seek < data.len() {
        lemma_scan_until(data, seek, byte_is(NEWLINE));
    }
}

/// The ends of the chunks from `start` on, in order.
#[verifier::opaque]
pub open spec fn boundaries_after(data: Seq<u8>, start: int, chunk_size: int) -> Seq<usize>
    decreases data.len() - start,
{
    if start < 0 || start >= data.len() || chunk_size < 1 {
        Seq::empty()
    } else {
        let end = chunk_end(data, start, chunk_size);
        proof {
            lemma_chunk_end(data, start, chunk_size);
        }
        seq![end as usize] + boundaries_after(data, end, chunk_size)
    }
}

/// The boundaries of the chunks of `data` from `first` on: chunk `c` is
/// `boundaries[c]..boundaries[c + 1]`.
pub open spec fn boundaries_of(data: Seq<u8>, first: int, chunk_size: int) -> Seq<usize> {
    seq![first as usize] + boundaries_after(data, first, chunk_size)
}

/// The boundaries rise strictly from `first` to the end of the buffer, and
/// every boundary inside the buffer stands right after a newline: no chunk
/// begins or ends inside a line.
pub proof fn lemma_boundaries(data: Seq<u8>, first: int, chunk_size: int)
    requires
        0 <= first <= data.len(),
        data.len() <= usize::MAX,
        chunk_size >= 1,
    ensures
        boundaries_of(data, first, chunk_size)[0] == first,
        boundaries_of(data, first, chunk_size).last() == data.len(),
        boundaries_of(data, first, chunk_size).len() <= data.len() - first + 1,
        forall|c: int, d: int|
            0 <= c < d < boundaries_of(data, first, chunk_size).len() ==> boundaries_of(
                data,
                first,
                chunk_size,
            )[c] < boundaries_of(data, first, chunk_size)[d],
        forall|c: int|
            0 < c < boundaries_of(data, first, chunk_size).len() ==> {
                let b = #[trigger] boundaries_of(data, first, chunk_size)[c];
                &&& first < b <= data.len()
                &&& b < data.len() ==> data[b - 1] == NEWLINE
            },
    decreases data.len() - first,
{
    reveal(boundaries_after);
    let all = boundaries_of(data, first, chunk_size);
    if first < data.len() {
        lemma_chunk_end(data, first, chunk_size);
        let end = chunk_end(data, first, chunk_size);
        lemma_boundaries(data, end, chunk_size);
        let rest = boundaries_of(data, end, chunk_size);
        assert(all =~= seq![first as usize] + rest);
        assert forall|c: int, d: int| 0 <= c < d < all.len() implies all[c] < all[d] by {
            if c == 0 {
                if d > 1 {
                    assert(rest[0] < rest[d - 1]);
                }
            } else {
                assert(rest[c - 1] < rest[d - 1]);
            }
        }
        assert forall|c: int| 0 < c < all.len() implies {
            let b = #[trigger] all[c];
            &&& first < b <= data.len()
            &&& b < data.len() ==> data[b - 1] == NEWLINE
        } by {
            if c > 1 {
                let b = rest[c - 1];
                assert(end < b <= data.len());
            }
        }
    } else {
        assert(all =~= seq![first as usize]);
    }
}

/// The boundaries rise strictly and end inside the buffer.
pub open spec fn bounds_ok(bounds: Seq<usize>, data_len: int) -> bool {
    &&& bounds.len() >= 1
    &&& forall|c: int, d: int| 0 <= c < d < bounds.len() ==> bounds[c] < bounds[d]
    &&& bounds.last() <= data_len
}

pub proof fn lemma_bounds_ok(data: Seq<u8>, first: int, chunk_size: int)
    requires
        0 <= first <= data.len(),
        data.len() <= usize::MAX,
        chunk_size >= 1,
    ensures
        bounds_ok(boundaries_of(data, first, chunk_size), data.len() as int),
        boundaries_of(data, first, chunk_size)[0] == first,
{
    lemma_boundaries(data, first, chunk_size);
}

/// The shares of the workers tile the chunks.
pub open spec fn shares_tile(num_chunks: int, workers: int) -> bool {
    &&& share_start(0, num_chunks, workers) == 0
    &&& share_start(workers, num_chunks, workers) == num_chunks
    &&& forall|k: int|
        0 <= k < workers ==> 0 <= #[trigger] share_start(k, num_chunks, workers) <= share_start(
            k + 1,
            num_chunks,
            workers,
        ) <= num_chunks
}

/// The boundaries of the chunks of `data[first..]` for chunks of about
/// `chunk_size` bytes.
pub fn chunk_boundaries(data: &[u8], first: usize, chunk_size: usize) -> (r: Vec<usize>)
    requires
        first <= data.len(),
        chunk_size >= 1,
    ensures
        r@ == boundaries_of(data@, first as int, chunk_size as int),
{
    let len: usize = data.len();
    let mut boundaries: Vec<usize> = Vec::new();
    boundaries.push(first);
    let mut start: usize = first;
    proof {
        reveal(boundaries_after);
        assert(boundaries@ + boundaries_after(data@, start as int, chunk_size as int)
            =~= boundaries_of(data@, first as int, chunk_size as int));
    }
    while start < len
        invariant
            first <= start <= len == data.len(),
            chunk_size >= 1,
            boundaries@ + boundaries_after(data@, start as int, chunk_size as int)
                == boundaries_of(data@, first as int, chunk_size as int),
        decreases len - start,
    {
        proof {
            reveal(boundaries_after);
            lemma_chunk_end(data@, start as int, chunk_size as int);
        }
        let ghost before = boundaries@;
        let end: usize = if len - start <= chunk_size {
            len
        } else {
            let newline: usize = find_byte(data, start + chunk_size, NEWLINE);
            if newline < len {
                newline + 1
            } else {
                len
            }
        };
        boundaries.push(end);
        proof {
            let rest = boundaries_after(data@, end as int, chunk_size as int);
            assert(before + (seq![end] + rest) =~= before.push(end) + rest);
        }
        start = end;
    }
    proof {
        reveal(boundaries_after);
        assert(boundaries@ + Seq::<usize>::empty() =~= boundaries@);
    }
    boundaries
}

/// The line starts of the chunk `start..end` of `data`, as the chunk parsers
/// take them: the start of the chunk, the start after every newline of the
/// chunk but one that ends the buffer, and the end of the chunk, which closes
/// the last line.
pub open spec fn chunk_starts(data: Seq<u8>, start: int, end: int) -> Seq<u64> {
    seq![start as u64] + line_starts_of(data.subrange(start, end), start, data.len() as int)
        + seq![end as u64]
}

/// The starts of a chunk never step down and lie inside the chunk; the first
/// is the start of the chunk and the last its end.
pub proof fn lemma_chunk_starts(data: Seq<u8>, start: int, end: int)
    requires
        0 <= start <= end <= data.len(),
        data.len() <= u64::MAX,
    ensures
        2 <= chunk_starts(data, start, end).len() <= end - start + 2,
        chunk_starts(data, start, end)[0] == start,
        chunk_starts(data, start, end).last() == end,
        starts_sorted(
            chunk_starts(data, start, end),
            0,
            chunk_starts(data, start, end).len() - 1,
        ),
        starts_within(
            data,
            chunk_starts(data, start, end),
            0,
            chunk_starts(data, start, end).len() - 1,
        ),
        forall|k: int|
            0 <= k < chunk_starts(data, start, end).len() ==> start <= #[trigger] chunk_starts(
                data,
                start,
                end,
            )[k] <= end,
{
    let inner = line_starts_of(data.subrange(start, end), start, data.len() as int);
    let all = chunk_starts(data, start, end);
    lemma_line_starts_sound(data.subrange(start, end), start, data.len() as int);
    assert forall|k: int| 0 <= k < all.len() implies start <= #[trigger] all[k] <= end by {
        if 0 < k < all.len() - 1 {
            let p = inner[k - 1];
            assert(start < p <= end);
        }
    }
    assert forall|i: int, j: int| 0 <= i <= j <= all.len() - 1 && j < all.len() implies #[trigger] all[i]
        <= #[trigger] all[j] by {
        if i == j {
        } else if i == 0 {
            assert(start <= all[j] <= end);
        } else if j == all.len() - 1 {
            assert(start <= all[i] <= end);
        } else {
            assert(inner[i - 1] < inner[j - 1]);
        }
    }
    assert forall|k: int| 0 < k <= all.len() - 1 && k < all.len() implies #[trigger] all[k]
        <= data.len() by {
        assert(start <= all[k] <= end);
    }
}

/// What the lines of the chunk `start..end` of `data` give.
pub open spec fn chunk_map<T>(
    data: Seq<u8>,
    start: int,
    end: int,
    style: LineStyle,
    per_line: spec_fn(Seq<u8>, int) -> Seq<T>,
) -> Seq<T> {
    let starts = chunk_starts(data, start, end);
    lines_map(data, starts, 0, starts.len() - 1, style, per_line)
}

/// A place where a chunk may be cut: right after a newline, or at the end
/// of the buffer.
pub open spec fn at_line_start(data: Seq<u8>, at: int) -> bool {
    at == data.len() || (0 < at < data.len() && data[at - 1] == NEWLINE)
}

/// A chunk without bytes gives nothing.
pub proof fn lemma_chunk_map_empty<T>(
    data: Seq<u8>,
    at: int,
    style: LineStyle,
    per_line: spec_fn(Seq<u8>, int) -> Seq<T>,
)
    requires
        0 <= at <= data.len(),
    ensures
        chunk_map(data, at, at, style, per_line) == Seq::<T>::empty(),
{
    let starts = chunk_starts(data, at, at);
    assert(data.subrange(at, at) =~= Seq::<u8>::empty());
    assert(starts =~= seq![at as u64, at as u64]);
    lemma_lines_map_empty_line(data, starts, 0, style, per_line);
}

/// A chunk cut at the start of a line gives what its two parts give, one
/// after the other: no line is lost or read twice at the cut.
pub proof fn lemma_chunk_split<T>(
    data: Seq<u8>,
    start: int,
    mid: int,
    end: int,
    style: LineStyle,
    per_line: spec_fn(Seq<u8>, int) -> Seq<T>,
)
    requires
        0 <= start <= mid <= end <= data.len(),
        data.len() <= u64::MAX,
        mid == start || at_line_start(data, mid),
    ensures
        chunk_map(data, start, end, style, per_line) == chunk_map(
            data,
            start,
            mid,
            style,
            per_line,
        ) + chunk_map(data, mid, end, style, per_line),
{
    let whole = chunk_map(data, start, end, style, per_line);
    if mid == start {
        lemma_chunk_map_empty(data, start, style, per_line);
        assert(Seq::<T>::empty() + whole =~= whole);
    } else if mid == end {
        lemma_chunk_map_empty(data, end, style, per_line);
        assert(whole + Seq::<T>::empty() =~= whole);
    } else {
        let limit = data.len() as int;
        let all = data.subrange(start, end);
        let left = data.subrange(start, mid);
        let right = data.subrange(mid, end);
        lemma_line_starts_split(all, mid - start, start, limit);
        assert(all.take(mid - start) =~= left);
        assert(all.skip(mid - start) =~= right);
        let inner_left = line_starts_of(left, start, limit);
        let inner_right = line_starts_of(right, mid, limit);
        // the left part ends with a newline inside the buffer, so its last
        // start is the cut
        assert(left.last() == data[mid - 1]);
        assert(inner_left == line_starts_of(left.drop_last(), start, limit).push(mid as u64));
        let head = line_starts_of(left.drop_last(), start, limit);
        let s = chunk_starts(data, start, end);
        let s1 = chunk_starts(data, start, mid);
        let s2 = chunk_starts(data, mid, end);
        let n1: int = head.len() as int + 1;
        let n2: int = inner_right.len() as int + 1;
        assert(s =~= seq![start as u64] + head + seq![mid as u64] + inner_right + seq![
            end as u64,
        ]);
        assert(s1 =~= seq![start as u64] + head + seq![mid as u64] + seq![mid as u64]);
        assert(s2 =~= seq![mid as u64] + inner_right + seq![end as u64]);
        assert(s.len() - 1 == n1 + n2);
        assert(s1.len() - 1 == n1 + 1);
        assert(s2.len() - 1 == n2);
        // the left part: its lines are the first lines of the whole, and one
        // line without bytes
        lemma_lines_map_split(data, s1, 0, n1, n1 + 1, style, per_line);
        assert(s1[n1] == s1[n1 + 1]);
        lemma_lines_map_empty_line(data, s1, n1, style, per_line);
        assert forall|k: int| 0 <= k <= 0 + n1 implies #[trigger] s1[k] == s[k - 0 + 0] by {}
        lemma_lines_map_local(data, s1, 0, s, 0, n1, style, per_line);
        // the right part: its lines are the other lines of the whole
        assert forall|k: int| 0 <= k <= 0 + n2 implies #[trigger] s2[k] == s[k - 0 + n1] by {}
        lemma_lines_map_local(data, s2, 0, s, n1, n2, style, per_line);
        lemma_lines_map_split(data, s, 0, n1, n1 + n2, style, per_line);
        let a = lines_map(data, s, 0, n1, style, per_line);
        let b = lines_map(data, s, n1, n1 + n2, style, per_line);
        assert(chunk_map(data, start, mid, style, per_line) =~= a + Seq::<T>::empty());
        assert(a + Seq::<T>::empty() =~= a);
    }
}

/// Where the first line of `bytes` ends without its line end: before the
/// first newline, and before a carriage return in front of that newline if
/// carriage returns are stripped.
pub open spec fn first_line_end(bytes: Seq<u8>, strip_cr: bool) -> int {
    let newline = scan_until(bytes, 0, byte_is(NEWLINE));
    if strip_cr && 0 < newline < bytes.len() && bytes[newline - 1] == CARRIAGE_RETURN {
        newline - 1
    } else {
        newline
    }
}

/// What the lines of `bytes` give, in order, `per_line` being what one line
/// gives. The bytes are cut after every newline; a line is what stands
/// before its newline, without a carriage return in front of the newline if
/// carriage returns are stripped; what follows the last newline is a line
/// too. Lines without bytes give nothing.
pub open spec fn each_line<T>(bytes: Seq<u8>, strip_cr: bool, per_line: spec_fn(Seq<u8>) -> Seq<T>)
    -> Seq<T>
    decreases bytes.len(),
{
    if bytes.len() == 0 {
        Seq::empty()
    } else {
        let newline = scan_until(bytes, 0, byte_is(NEWLINE));
        proof {
            lemma_scan_until(bytes, 0, byte_is(NEWLINE));
        }
        if newline < bytes.len() {
            let end = first_line_end(bytes, strip_cr);
            (if end > 0 {
                per_line(bytes.take(end))
            } else {
                Seq::empty()
            }) + each_line(bytes.skip(newline + 1), strip_cr, per_line)
        } else {
            per_line(bytes)
        }
    }
}

/// A chunk of one line: what a chunk gives that ends with its first newline.
proof fn lemma_chunk_of_one_line<T>(
    data: Seq<u8>,
    start: int,
    end: int,
    style: LineStyle,
    per_line: spec_fn(Seq<u8>, int) -> Seq<T>,
)
    requires
        0 <= start < end <= data.len(),
        data.len() <= u64::MAX,
        scan_until(data.subrange(start, end), 0, byte_is(NEWLINE)) == end - start - 1,
    ensures
        chunk_map(data, start, end, style, per_line) == ({
            let cut = first_line_end(data.subrange(start, end), style.strip_cr);
            if cut > 0 {
                per_line(data.subrange(start, start + cut), start)
            } else {
                Seq::empty()
            }
        }),
{
    let bytes = data.subrange(start, end);
    let limit = data.len() as int;
    let newline = end - start - 1;
    lemma_scan_until(bytes, 0, byte_is(NEWLINE));
    assert(bytes[newline] == NEWLINE);
    assert(data[end - 1] == NEWLINE);
    assert forall|j: int| 0 <= j < bytes.drop_last().len() implies bytes.drop_last()[j]
        != NEWLINE by {
        assert(!byte_is(NEWLINE)(bytes[j]));
    }
    lemma_line_starts_none(bytes.drop_last(), start, limit);
    let starts = chunk_starts(data, start, end);
    let cut = first_line_end(bytes, style.strip_cr);
    if newline >= 1 {
        assert(bytes[newline - 1] == data[end - 2]);
    }
    assert(lines_map(data, starts, 0, 0, style, per_line) =~= Seq::<T>::empty());
    if end < limit {
        assert(starts =~= seq![start as u64, end as u64, end as u64]);
        lemma_lines_map_empty_line(data, starts, 1, style, per_line);
        lemma_lines_map_split(data, starts, 0, 1, 2, style, per_line);
        let first = lines_map(data, starts, 0, 1, style, per_line);
        assert(first + Seq::<T>::empty() =~= first);
    } else {
        assert(starts =~= seq![start as u64, end as u64]);
    }
    if cut > 0 {
        assert(crate::lines::line_span(data, starts, 0, style) == Some((start, start + cut)));
        let line = per_line(data.subrange(start, start + cut), start);
        assert(Seq::<T>::empty() + line =~= line);
    } else {
        assert(crate::lines::line_span(data, starts, 0, style).is_none());
        assert(Seq::<T>::empty() + Seq::<T>::empty() =~= Seq::<T>::empty());
    }
}

/// A chunk without a newline is one line.
proof fn lemma_chunk_without_newline<T>(
    data: Seq<u8>,
    start: int,
    end: int,
    style: LineStyle,
    per_line: spec_fn(Seq<u8>, int) -> Seq<T>,
)
    requires
        0 <= start < end <= data.len(),
        data.len() <= u64::MAX,
        scan_until(data.subrange(start, end), 0, byte_is(NEWLINE)) == end - start,
    ensures
        chunk_map(data, start, end, style, per_line) == per_line(
            data.subrange(start, end),
            start,
        ),
{
    let bytes = data.subrange(start, end);
    lemma_scan_until(bytes, 0, byte_is(NEWLINE));
    assert forall|j: int| 0 <= j < bytes.len() implies bytes[j] != NEWLINE by {
        assert(!byte_is(NEWLINE)(bytes[j]));
    }
    lemma_line_starts_none(bytes, start, data.len() as int);
    let starts = chunk_starts(data, start, end);
    assert(starts =~= seq![start as u64, end as u64]);
    assert(data[end - 1] == bytes[end - start - 1]);
    assert(lines_map(data, starts, 0, 0, style, per_line) =~= Seq::<T>::empty());
    assert(crate::lines::line_span(data, starts, 0, style) == Some((start, end)));
    let line = per_line(data.subrange(start, end), start);
    assert(Seq::<T>::empty() + line =~= line);
}

/// What a chunk gives is told by its bytes alone: where what a line gives
/// does not depend on where the line stands, the chunk gives what its lines
/// give, whatever stands around it in the buffer.
pub proof fn lemma_chunk_is_its_lines<T>(
    data: Seq<u8>,
    start: int,
    end: int,
    style: LineStyle,
    per_line: spec_fn(Seq<u8>, int) -> Seq<T>,
    of_line: spec_fn(Seq<u8>) -> Seq<T>,
)
    requires
        0 <= start <= end <= data.len(),
        data.len() <= u64::MAX,
        forall|s: int, e: int|
            start <= s < e <= end ==> #[trigger] per_line(data.subrange(s, e), s) == of_line(
                data.subrange(s, e),
            ),
    ensures
        chunk_map(data, start, end, style, per_line) == each_line(
            data.subrange(start, end),
            style.strip_cr,
            of_line,
        ),
    decreases end - start,
{
    let bytes = data.subrange(start, end);
    if start == end {
        lemma_chunk_map_empty(data, start, style, per_line);
    } else {
        let newline = scan_until(bytes, 0, byte_is(NEWLINE));
        lemma_scan_until(bytes, 0, byte_is(NEWLINE));
        if newline < bytes.len() {
            let mid = start + newline + 1;
            assert(bytes[newline] == data[mid - 1]);
            lemma_chunk_split(data, start, mid, end, style, per_line);
            lemma_chunk_is_its_lines(data, mid, end, style, per_line, of_line);
            assert(data.subrange(mid, end) =~= bytes.skip(newline + 1));
            // the first line
            let head = data.subrange(start, mid);
            assert(head =~= bytes.take(newline + 1));
            crate::search::lemma_scan_until_prefix(bytes, 0, byte_is(NEWLINE), newline + 1);
            assert(scan_until(head, 0, byte_is(NEWLINE)) == newline);
            lemma_chunk_of_one_line(data, start, mid, style, per_line);
            let cut = first_line_end(bytes, style.strip_cr);
            if newline >= 1 {
                assert(head[newline - 1] == bytes[newline - 1]);
            }
            assert(first_line_end(head, style.strip_cr) == cut);
            if cut > 0 {
                assert(data.subrange(start, start + cut) =~= bytes.take(cut));
            }
        } else {
            lemma_chunk_without_newline(data, start, end, style, per_line);
        }
    }
}

/// What a line gives wherever it stands.
pub open spec fn anywhere<T>(of_line: spec_fn(Seq<u8>) -> Seq<T>) -> spec_fn(Seq<u8>, int) -> Seq<
    T,
> {
    |line: Seq<u8>, base: int| of_line(line)
}

/// Bytes that end with a newline, or no bytes at all: whole lines.
pub open spec fn whole_lines(bytes: Seq<u8>) -> bool {
    bytes.len() == 0 || bytes.last() == NEWLINE
}

/// What whole lines give, followed by what further bytes give, is what both
/// give together.
pub proof fn lemma_each_line_joined<T>(
    front: Seq<u8>,
    back: Seq<u8>,
    strip_cr: bool,
    of_line: spec_fn(Seq<u8>) -> Seq<T>,
)
    requires
        whole_lines(front),
        front.len() + back.len() <= u64::MAX,
    ensures
        each_line(front + back, strip_cr, of_line) == each_line(front, strip_cr, of_line)
            + each_line(back, strip_cr, of_line),
{
    let data = front + back;
    let mid = front.len() as int;
    let end = data.len() as int;
    let style = LineStyle { strip_cr, trim_final: false };
    let per_line = anywhere(of_line);
    if mid > 0 && mid < end {
        assert(data[mid - 1] == front.last());
    }
    lemma_chunk_split(data, 0, mid, end, style, per_line);
    lemma_chunk_is_its_lines(data, 0, end, style, per_line, of_line);
    lemma_chunk_is_its_lines(data, 0, mid, style, per_line, of_line);
    lemma_chunk_is_its_lines(data, mid, end, style, per_line, of_line);
    assert(data.subrange(0, end) =~= data);
    assert(data.subrange(0, mid) =~= front);
    assert(data.subrange(mid, end) =~= back);
}

/// The parts one after the other.
pub open spec fn joined(parts: Seq<Seq<u8>>) -> Seq<u8>
    decreases parts.len(),
{
    if parts.len() == 0 {
        Seq::empty()
    } else {
        joined(parts.drop_last()) + parts.last()
    }
}

/// What the lines of each part give, part after part.
pub open spec fn each_part<T>(
    parts: Seq<Seq<u8>>,
    strip_cr: bool,
    of_line: spec_fn(Seq<u8>) -> Seq<T>,
) -> Seq<T>
    decreases parts.len(),
{
    if parts.len() == 0 {
        Seq::empty()
    } else {
        each_part(parts.drop_last(), strip_cr, of_line) + each_line(
            parts.last(),
            strip_cr,
            of_line,
        )
    }
}

/// Parts of whole lines, of which only the last may end without a newline,
/// give part by part what they give when joined.
pub proof fn lemma_each_part<T>(
    parts: Seq<Seq<u8>>,
    strip_cr: bool,
    of_line: spec_fn(Seq<u8>) -> Seq<T>,
)
    requires
        forall|k: int| 0 <= k < parts.len() - 1 ==> whole_lines(#[trigger] parts[k]),
        joined(parts).len() <= u64::MAX,
    ensures
        each_part(parts, strip_cr, of_line) == each_line(joined(parts), strip_cr, of_line),
        parts.len() > 0 && whole_lines(parts.last()) ==> whole_lines(joined(parts)),
    decreases parts.len(),
{
    if parts.len() > 0 {
        let front = parts.drop_last();
        assert forall|k: int| 0 <= k < front.len() - 1 implies whole_lines(#[trigger] front[k]) by {
            assert(front[k] == parts[k]);
        }
        lemma_each_part(front, strip_cr, of_line);
        if front.len() > 0 {
            assert(front.last() == parts[parts.len() - 2]);
            assert(whole_lines(parts[parts.len() - 2]));
        }
        lemma_each_line_joined(joined(front), parts.last(), strip_cr, of_line);
        if whole_lines(parts.last()) {
            let all = joined(front) + parts.last();
            if parts.last().len() > 0 {
                assert(all.last() == parts.last().last());
            } else {
                assert(all =~= joined(front));
            }
        }
    }
}

/// What the first `count` chunks between `bounds` give, one after the other.
pub open spec fn chunks_map<T>(
    data: Seq<u8>,
    bounds: Seq<usize>,
    count: int,
    style: LineStyle,
    per_line: spec_fn(Seq<u8>, int) -> Seq<T>,
) -> Seq<T>
    decreases count,
{
    if count <= 0 {
        Seq::empty()
    } else {
        chunks_map(data, bounds, count - 1, style, per_line) + chunk_map(
            data,
            bounds[count - 1] as int,
            bounds[count] as int,
            style,
            per_line,
        )
    }
}

/// Chunks that are cut at line starts give, one after the other, what the
/// buffer gives as one chunk: cutting changes nothing.
pub proof fn lemma_chunks_map<T>(
    data: Seq<u8>,
    bounds: Seq<usize>,
    count: int,
    style: LineStyle,
    per_line: spec_fn(Seq<u8>, int) -> Seq<T>,
)
    requires
        0 <= count < bounds.len(),
        data.len() <= u64::MAX,
        forall|c: int, d: int| 0 <= c <= d < bounds.len() ==> bounds[c] <= bounds[d],
        bounds.last() <= data.len(),
        forall|c: int| 0 < c < bounds.len() ==> #[trigger] at_line_start(data, bounds[c] as int),
    ensures
        chunks_map(data, bounds, count, style, per_line) == chunk_map(
            data,
            bounds[0] as int,
            bounds[count] as int,
            style,
            per_line,
        ),
    decreases count,
{
    assert(bounds[count] <= bounds[bounds.len() - 1]);
    if count == 0 {
        lemma_chunk_map_empty(data, bounds[0] as int, style, per_line);
    } else {
        lemma_chunks_map(data, bounds, count - 1, style, per_line);
        assert(bounds[0] <= bounds[count - 1] <= bounds[count]);
        if count - 1 > 0 {
            assert(at_line_start(data, bounds[count - 1] as int));
        }
        lemma_chunk_split(
            data,
            bounds[0] as int,
            bounds[count - 1] as int,
            bounds[count] as int,
            style,
            per_line,
        );
    }
}

/// The boundaries that `chunk_boundaries` finds are places where a chunk may
/// be cut.
pub proof fn lemma_boundaries_at_line_starts(data: Seq<u8>, first: int, chunk_size: int)
    requires
        0 <= first <= data.len(),
        data.len() <= usize::MAX,
        chunk_size >= 1,
    ensures
        forall|c: int|
            0 < c < boundaries_of(data, first, chunk_size).len() ==> #[trigger] at_line_start(
                data,
                boundaries_of(data, first, chunk_size)[c] as int,
            ),
        forall|c: int, d: int|
            0 <= c <= d < boundaries_of(data, first, chunk_size).len() ==> boundaries_of(
                data,
                first,
                chunk_size,
            )[c] <= boundaries_of(data, first, chunk_size)[d],
        boundaries_of(data, first, chunk_size).last() == data.len(),
        boundaries_of(data, first, chunk_size)[0] == first,
{
    lemma_boundaries(data, first, chunk_size);
    let bounds = boundaries_of(data, first, chunk_size);
    assert forall|c: int| 0 < c < bounds.len() implies #[trigger] at_line_start(
        data,
        bounds[c] as int,
    ) by {
        let b = bounds[c];
        assert(first < b <= data.len());
    }
    assert forall|c: int, d: int| 0 <= c <= d < bounds.len() implies bounds[c] <= bounds[d] by {
        if c < d {
            assert(bounds[c] < bounds[d]);
        }
    }
}

/// Scans the chunk `start..end` of `data` for its line starts.
pub fn scan_chunk(data: &[u8], start: usize, end: usize) -> (r: Vec<u64>)
    requires
        start <= end <= data.len(),
    ensures
        r@ == chunk_starts(data@, start as int, end as int),
{
    let chunk: &[u8] = &data[start..end];
    let estimated: usize = if chunk.len() / 80 < 16 {
        16
    } else {
        chunk.len() / 80
    };
    let capacity: usize = if estimated < crate::structured::MAX_RESERVE {
        estimated + 2
    } else {
        crate::structured::MAX_RESERVE
    };
    let mut line_starts: Vec<u64> = Vec::with_capacity(capacity);
    line_starts.push(start as u64);
    scan_region(chunk, start as u64, data.len() as u64, &mut line_starts);
    line_starts.push(end as u64);
    proof {
        assert(line_starts@ =~= chunk_starts(data@, start as int, end as int));
    }
    line_starts
}

/// The position after the last newline of `s`, or 0 if `s` holds none: where
/// the whole lines of `s` end.
pub open spec fn last_line_end(s: Seq<u8>) -> int
    decreases s.len(),
{
    if s.len() == 0 {
        0
    } else if s.last() == NEWLINE {
        s.len() as int
    } else {
        last_line_end(s.drop_last())
    }
}

/// Where the part of a stream ends that can be parsed now: with the last
/// whole line, or with the last byte once the stream is at its end.
pub open spec fn complete_end(work: Seq<u8>, at_eof: bool) -> int {
    if at_eof {
        work.len() as int
    } else {
        last_line_end(work)
    }
}

pub proof fn lemma_last_line_end(s: Seq<u8>)
    ensures
        0 <= last_line_end(s) <= s.len(),
        last_line_end(s) > 0 ==> s[last_line_end(s) - 1] == NEWLINE,
        forall|j: int| last_line_end(s) <= j < s.len() ==> s[j] != NEWLINE,
    decreases s.len(),
{
    if s.len() > 0 && s.last() != NEWLINE {
        lemma_last_line_end(s.drop_last());
        assert forall|j: int| last_line_end(s) <= j < s.len() implies s[j] != NEWLINE by {
            if j < s.len() - 1 {
                assert(s.drop_last()[j] == s[j]);
            }
        }
    }
}

proof fn lemma_last_line_end_is(s: Seq<u8>, e: int)
    requires
        0 <= e <= s.len(),
        e > 0 ==> s[e - 1] == NEWLINE,
        forall|j: int| e <= j < s.len() ==> s[j] != NEWLINE,
    ensures
        last_line_end(s) == e,
    decreases s.len(),
{
    if s.len() > 0 && s.last() != NEWLINE {
        assert(e < s.len());
        assert forall|j: int| e <= j < s.len() - 1 implies s.drop_last()[j] != NEWLINE by {
            assert(s.drop_last()[j] == s[j]);
        }
        if e > 0 {
            assert(s.drop_last()[e - 1] == s[e - 1]);
        }
        lemma_last_line_end_is(s.drop_last(), e);
    } else if s.len() > 0 {
        if e < s.len() {
            assert(s[s.len() - 1] != NEWLINE);
        }
    }
}

/// What is left over from before, followed by the new segment.
pub fn join(leftover: &Vec<u8>, segment: &[u8]) -> (work: Vec<u8>)
    ensures
        work@ == leftover@ + segment@,
{
    let mut work: Vec<u8> = Vec::new();
    work.extend_from_slice(leftover.as_slice());
    work.extend_from_slice(segment);
    assert(work@ =~= leftover@ + segment@);
    work
}

/// A copy of `data[from..to]`.
pub fn copy_range(data: &[u8], from: usize, to: usize) -> (r: Vec<u8>)
    requires
        from <= to <= data.len(),
    ensures
        r@ == data@.subrange(from as int, to as int),
{
    let mut r: Vec<u8> = Vec::new();
    r.extend_from_slice(&data[from..to]);
    assert(r@ =~= data@.subrange(from as int, to as int));
    r
}

/// Where the part of `work` ends that can be parsed now.
pub fn find_complete_end(work: &[u8], at_eof: bool) -> (r: usize)
    ensures
        r == complete_end(work@, at_eof),
        r <= work.len(),
{
    if at_eof {
        work.len()
    } else {
        let r: usize = match end_of_last(work, NEWLINE) {
            Some(end) => end,
            None => 0,
        };
        proof {
            lemma_last_line_end_is(work@, r as int);
        }
        r
    }
}

/// The number of workers for `num_chunks` chunks when `requested` are asked
/// for: at least one, and no more than there are chunks.
pub open spec fn worker_count(requested: int, num_chunks: int) -> int {
    let wanted = if requested < 1 {
        1
    } else {
        requested
    };
    let useful = if num_chunks < 1 {
        1
    } else {
        num_chunks
    };
    if wanted < useful {
        wanted
    } else {
        useful
    }
}

pub fn worker_threads(requested: usize, num_chunks: usize) -> (r: usize)
    ensures
        r == worker_count(requested as int, num_chunks as int),
        r >= 1,
{
    let wanted: usize = if requested < 1 {
        1
    } else {
        requested
    };
    let useful: usize = if num_chunks < 1 {
        1
    } else {
        num_chunks
    };
    if wanted < useful {
        wanted
    } else {
        useful
    }
}

/// The first chunk of worker `worker` when `num_chunks` chunks are shared out
/// among `workers` workers; worker `k` gets the chunks from `share_start(k)`
/// up to `share_start(k + 1)`.
#[verifier::opaque]
pub open spec fn share_start(worker: int, num_chunks: int, workers: int) -> int {
    (worker * num_chunks) / workers
}

/// The shares tile the chunks: the first share begins with chunk 0, every
/// share ends where the next begins, and the last ends with the last chunk.
/// Taken in the order of the workers, the shares are the chunks in order.
pub proof fn lemma_shares_tile(num_chunks: int, workers: int)
    requires
        workers >= 1,
        num_chunks >= 0,
    ensures
        shares_tile(num_chunks, workers),
{
    reveal(share_start);
    assert((0 * num_chunks) / workers == 0) by (nonlinear_arith)
        requires
            workers >= 1,
    ;
    assert((workers * num_chunks) / workers == num_chunks) by (nonlinear_arith)
        requires
            workers >= 1,
    ;
    assert forall|k: int| 0 <= k < workers implies 0 <= #[trigger] share_start(
        k,
        num_chunks,
        workers,
    ) <= share_start(k + 1, num_chunks, workers) <= num_chunks by {
        lemma_share_step(k, num_chunks, workers);
    }
}

proof fn lemma_share_step(k: int, num_chunks: int, workers: int)
    requires
        workers >= 1,
        num_chunks >= 0,
        0 <= k < workers,
    ensures
        0 <= share_start(k, num_chunks, workers) <= share_start(k + 1, num_chunks, workers)
            <= num_chunks,
{
    reveal(share_start);
    let a = k * num_chunks;
    let b = (k + 1) * num_chunks;
    let top = workers * num_chunks;
    assert(0 <= a <= b <= top) by (nonlinear_arith)
        requires
            a == k * num_chunks,
            b == (k + 1) * num_chunks,
            top == workers * num_chunks,
            0 <= k < workers,
            num_chunks >= 0,
    ;
    assert(0 <= a / workers <= b / workers <= top / workers) by (nonlinear_arith)
        requires
            0 <= a <= b <= top,
            workers >= 1,
    ;
    assert(top / workers == num_chunks) by (nonlinear_arith)
        requires
            top == workers * num_chunks,
            workers >= 1,
    ;
}

/// The chunks of worker `worker`: from the first of the pair up to the
/// second.
pub fn worker_chunks(worker: usize, num_chunks: usize, workers: usize) -> (r: (usize, usize))
    requires
        worker < workers,
    ensures
        r.0 == share_start(worker as int, num_chunks as int, workers as int),
        r.1 == share_start(worker + 1, num_chunks as int, workers as int),
        r.0 <= r.1 <= num_chunks,
{
    proof {
        reveal(share_start);
        lemma_share_step(worker as int, num_chunks as int, workers as int);
        assert(worker * num_chunks <= u128::MAX && (worker + 1) * num_chunks <= u128::MAX)
            by (nonlinear_arith)
            requires
                worker < workers,
                workers <= usize::MAX,
                num_chunks <= usize::MAX,
                usize::MAX <= u64::MAX,
        ;
    }
    let first: u128 = (worker as u128 * num_chunks as u128) / workers as u128;
    let past: u128 = ((worker as u128 + 1) * num_chunks as u128) / workers as u128;
    (first as usize, past as usize)
}

/// The bytes `from..to` of `data` are one whole line: they begin the buffer
/// or follow a newline, hold no newline, and end the buffer or stand in
/// front of a newline, or of a carriage return and a newline.
pub open spec fn whole_line(data: Seq<u8>, from: int, to: int) -> bool {
    &&& 0 <= from < to <= data.len()
    &&& from == 0 || data[from - 1] == NEWLINE
    &&& forall|j: int| from <= j < to ==> data[j] != NEWLINE
    &&& to == data.len() || data[to] == NEWLINE || (data[to] == CARRIAGE_RETURN && to + 1
        < data.len() && data[to + 1] == NEWLINE)
}

/// A chunk may be cut out at `start..end`: unless it is empty, it begins
/// where a line begins and ends where a line ends.
pub open spec fn cut_at_lines(data: Seq<u8>, start: int, end: int) -> bool {
    &&& 0 <= start <= end <= data.len()
    &&& start == end || start == 0 || data[start - 1] == NEWLINE
    &&& start == end || end == data.len() || data[end - 1] == NEWLINE
}

/// No line is split: every line with bytes of a chunk that is cut at lines
/// is one whole line of the buffer. It begins at its start, and it ends
/// before the next start, or with the buffer.
pub proof fn lemma_chunk_line_whole(data: Seq<u8>, start: int, end: int, style: LineStyle, i: int)
    requires
        cut_at_lines(data, start, end),
        data.len() <= u64::MAX,
        0 <= i < chunk_starts(data, start, end).len() - 1,
        line_span(data, chunk_starts(data, start, end), i, style).is_some(),
    ensures
        ({
            let starts = chunk_starts(data, start, end);
            let (from, to) = line_span(data, starts, i, style).unwrap();
            &&& whole_line(data, from, to)
            &&& from == starts[i]
            &&& start <= from
            &&& to <= starts[i + 1] <= end
            &&& to < starts[i + 1] || starts[i + 1] == data.len()
        }),
{
    let part = data.subrange(start, end);
    let inner = line_starts_of(part, start, data.len() as int);
    let starts = chunk_starts(data, start, end);
    let (from, to) = line_span(data, starts, i, style).unwrap();
    let next = starts[i + 1] as int;
    lemma_chunk_starts(data, start, end);
    lemma_line_starts_sound(part, start, data.len() as int);
    assert(start <= starts[i] <= end);
    assert(start <= starts[i + 1] <= end);
    if i > 0 {
        let p = inner[i - 1];
        assert(starts[i] == p);
        assert(part[p - start - 1] == NEWLINE);
    }
    if i + 1 < starts.len() - 1 {
        let p = inner[i];
        assert(starts[i + 1] == p);
        assert(part[p - start - 1] == NEWLINE);
    }
    assert forall|j: int| from <= j < to implies data[j] != NEWLINE by {
        if data[j] == NEWLINE {
            assert(part[j - start] == NEWLINE);
            if j + 1 < data.len() {
                lemma_line_starts_complete(part, start, data.len() as int, j - start);
                let k = choose|k: int| 0 <= k < inner.len() && inner[k] == (j + 1) as u64;
                assert(starts[k + 1] == j + 1);
                assert(starts[i] < starts[k + 1] < starts[i + 1]);
                if k + 1 <= i {
                    assert(starts[k + 1] <= starts[i]);
                } else {
                    assert(starts[i + 1] <= starts[k + 1]);
                }
            }
        }
    }
}

} // verus!
