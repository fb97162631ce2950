//! From line starts to line extents.
//!
//! The scanner hands over the offsets at which lines start. A line ends
//! before the newline that precedes the next start; the parsers for
//! structured formats also leave out a carriage return before that newline.

use crate::ascii::{CARRIAGE_RETURN, NEWLINE};
use vstd::prelude::*;

verus! {

/// How a format cuts its lines.
#[derive(Debug, Clone, Copy, PartialEq, Eq, Structural)]
pub struct LineStyle {
    /// A carriage return before the newline is left out of the line.
    pub strip_cr: bool,
    /// The last line also loses a newline and a carriage return that end
    /// the buffer.
    pub trim_final: bool,
}

/// Lines as the plain-text parser cuts them.
pub open spec fn plain_style() -> LineStyle {
    LineStyle { strip_cr: false, trim_final: false }
}

/// Lines as the JSON and logfmt parsers cut them.
pub open spec fn structured_style() -> LineStyle {
    LineStyle { strip_cr: true, trim_final: false }
}

/// Lines as the CSV parser cuts them.
pub open spec fn csv_style() -> LineStyle {
    LineStyle { strip_cr: true, trim_final: true }
}

/// Where line `i` ends. A line that is followed by another start ends
/// before the newline in front of that start (and before a carriage return in
/// front of the newline, if the style strips it); the last line ends with
/// the buffer.
pub open spec fn line_end(data: Seq<u8>, starts: Seq<u64>, i: int, style: LineStyle) -> int {
    if i + 1 < starts.len() {
        let next = starts[i + 1] as int;
        if 0 < next <= data.len() && data[next - 1] == NEWLINE {
            if style.strip_cr && next > 1 && data[next - 2] == CARRIAGE_RETURN {
                next - 2
            } else {
                next - 1
            }
        } else {
            next
        }
    } else if style.trim_final {
        let len = data.len() as int;
        let end = if len > 0 && data[len - 1] == NEWLINE {
            len - 1
        } else {
            len
        };
        if end > 0 && data[end - 1] == CARRIAGE_RETURN {
            end - 1
        } else {
            end
        }
    } else {
        data.len() as int
    }
}

/// The extent of line `i`, or `None` for a line without bytes: one that
/// starts at or past the end of the buffer, or at or past its own end.
pub open spec fn line_span(data: Seq<u8>, starts: Seq<u64>, i: int, style: LineStyle) -> Option<
    (int, int),
> {
    let start = starts[i] as int;
    let end = line_end(data, starts, i, style);
    if start >= data.len() || start >= end {
        None
    } else {
        Some((start, end))
    }
}

/// The bytes of line `i`; empty for a line without bytes.
pub open spec fn line_bytes(data: Seq<u8>, starts: Seq<u64>, i: int, style: LineStyle) -> Seq<
    u8,
> {
    match line_span(data, starts, i, style) {
        Some((start, end)) => data.subrange(start, end),
        None => Seq::empty(),
    }
}

/// The starts after `starts[from]` up to `starts[to]` lie inside the buffer,
/// so that every line `from..to` ends inside it.
pub open spec fn starts_within(data: Seq<u8>, starts: Seq<u64>, from: int, to: int) -> bool {
    forall|k: int| from < k <= to && k < starts.len() ==> #[trigger] starts[k] <= data.len()
}

/// The bytes in the lines `from..to`, all told.
pub open spec fn lines_total(
    data: Seq<u8>,
    starts: Seq<u64>,
    from: int,
    to: int,
    style: LineStyle,
) -> nat
    decreases to - from,
{
    if to <= from {
        0
    } else {
        lines_total(data, starts, from, to - 1, style) + line_bytes(
            data,
            starts,
            to - 1,
            style,
        ).len()
    }
}

/// The lines up to `mid` hold no more bytes than the lines up to `to`.
pub proof fn lemma_lines_total_grows(
    data: Seq<u8>,
    starts: Seq<u64>,
    from: int,
    mid: int,
    to: int,
    style: LineStyle,
)
    requires
        from <= mid <= to,
    ensures
        lines_total(data, starts, from, mid, style) <= lines_total(data, starts, from, to, style),
    decreases to - mid,
{
    if mid < to {
        lemma_lines_total_grows(data, starts, from, mid, to - 1, style);
    }
}

/// The starts from `starts[from]` to `starts[to]` never step down.
pub open spec fn starts_sorted(starts: Seq<u64>, from: int, to: int) -> bool {
    forall|i: int, j: int|
        from <= i <= j <= to && j < starts.len() ==> #[trigger] starts[i] <= #[trigger] starts[j]
}

/// Lines whose starts never step down do not overlap: together they hold no
/// more bytes than lie between the first start and the start after the last
/// line.
pub proof fn lemma_lines_total_sorted(
    data: Seq<u8>,
    starts: Seq<u64>,
    from: int,
    to: int,
    style: LineStyle,
)
    requires
        0 <= from <= to < starts.len(),
        starts_sorted(starts, from, to),
        starts_within(data, starts, from, to),
    ensures
        lines_total(data, starts, from, to, style) <= starts[to] - starts[from],
    decreases to - from,
{
    if from < to {
        lemma_lines_total_sorted(data, starts, from, to - 1, style);
        assert(starts[to - 1] <= starts[to]);
        assert(starts[from] <= starts[to - 1]);
        assert(starts[to] <= data.len());
        assert(line_end(data, starts, to - 1, style) <= starts[to]);
    }
}

/// A line of a buffer lies inside the buffer.
pub proof fn lemma_line_span_within(data: Seq<u8>, starts: Seq<u64>, i: int, style: LineStyle)
    requires
        0 <= i < starts.len(),
        i + 1 < starts.len() ==> starts[i + 1] <= data.len(),
    ensures
        match line_span(data, starts, i, style) {
            Some((start, end)) => 0 <= start < end <= data.len(),
            None => true,
        },
{
}

/// A carriage return in front of the newline that ends a line is not part of
/// the line, for the styles that strip it.
pub proof fn lemma_crlf_is_stripped(data: Seq<u8>, starts: Seq<u64>, i: int, style: LineStyle)
    requires
        style.strip_cr,
        0 <= i,
        i + 1 < starts.len(),
        2 <= starts[i + 1] <= data.len(),
        data[starts[i + 1] - 1] == NEWLINE,
        data[starts[i + 1] - 2] == CARRIAGE_RETURN,
    ensures
        line_end(data, starts, i, style) == starts[i + 1] - 2,
{
}

/// What the lines `from..to` give, in the order of the lines: for every line
/// that has bytes, `per_line` of its bytes and its offset.
pub open spec fn lines_map<T>(
    data: Seq<u8>,
    starts: Seq<u64>,
    from: int,
    to: int,
    style: LineStyle,
    per_line: spec_fn(Seq<u8>, int) -> Seq<T>,
) -> Seq<T>
    decreases to - from,
{
    if to <= from {
        Seq::empty()
    } else {
        lines_map(data, starts, from, to - 1, style, per_line) + match line_span(
            data,
            starts,
            to - 1,
            style,
        ) {
            Some((start, end)) => per_line(data.subrange(start, end), start),
            None => Seq::empty(),
        }
    }
}

/// A range of lines can be cut in two anywhere.
pub proof fn lemma_lines_map_split<T>(
    data: Seq<u8>,
    starts: Seq<u64>,
    from: int,
    mid: int,
    to: int,
    style: LineStyle,
    per_line: spec_fn(Seq<u8>, int) -> Seq<T>,
)
    requires
        from <= mid <= to,
    ensures
        lines_map(data, starts, from, to, style, per_line) == lines_map(
            data,
            starts,
            from,
            mid,
            style,
            per_line,
        ) + lines_map(data, starts, mid, to, style, per_line),
    decreases to - mid,
{
    let left = lines_map(data, starts, from, mid, style, per_line);
    if mid == to {
        assert(left + Seq::<T>::empty() =~= left);
    } else {
        lemma_lines_map_split(data, starts, from, mid, to - 1, style, per_line);
        let last = match line_span(data, starts, to - 1, style) {
            Some((start, end)) => per_line(data.subrange(start, end), start),
            None => Seq::empty(),
        };
        let right = lines_map(data, starts, mid, to - 1, style, per_line);
        assert((left + right) + last =~= left + (right + last));
    }
}

/// What a range of lines gives depends on the starts of these lines and on
/// the start after the last of them alone: two lists of starts that agree
/// there give the same.
pub proof fn lemma_lines_map_local<T>(
    data: Seq<u8>,
    a: Seq<u64>,
    a_from: int,
    b: Seq<u64>,
    b_from: int,
    count: int,
    style: LineStyle,
    per_line: spec_fn(Seq<u8>, int) -> Seq<T>,
)
    requires
        0 <= count,
        0 <= a_from,
        0 <= b_from,
        a_from + count < a.len(),
        b_from + count < b.len(),
        forall|k: int| a_from <= k <= a_from + count ==> #[trigger] a[k] == b[k - a_from + b_from],
    ensures
        lines_map(data, a, a_from, a_from + count, style, per_line) == lines_map(
            data,
            b,
            b_from,
            b_from + count,
            style,
            per_line,
        ),
    decreases count,
{
    if count > 0 {
        lemma_lines_map_local(data, a, a_from, b, b_from, count - 1, style, per_line);
        assert(a[a_from + count - 1] == b[a_from + count - 1 - a_from + b_from]);
        assert(a[a_from + count] == b[a_from + count - a_from + b_from]);
        assert(line_span(data, a, a_from + count - 1, style) == line_span(
            data,
            b,
            b_from + count - 1,
            style,
        ));
    }
}

/// A line whose start is the start after it has no bytes and gives nothing.
pub proof fn lemma_lines_map_empty_line<T>(
    data: Seq<u8>,
    starts: Seq<u64>,
    i: int,
    style: LineStyle,
    per_line: spec_fn(Seq<u8>, int) -> Seq<T>,
)
    requires
        0 <= i,
        i + 1 < starts.len(),
        starts[i] == starts[i + 1],
    ensures
        lines_map(data, starts, i, i + 1, style, per_line) == Seq::<T>::empty(),
{
    assert(lines_map(data, starts, i, i, style, per_line) =~= Seq::<T>::empty());
    assert(line_span(data, starts, i, style).is_none());
}

/// What the lines give when every item is passed through `convert`.
pub open spec fn converted<T, U>(
    per_line: spec_fn(Seq<u8>, int) -> Seq<T>,
    convert: spec_fn(T) -> U,
) -> spec_fn(Seq<u8>, int) -> Seq<U> {
    |line: Seq<u8>, base: int| per_line(line, base).map_values(convert)
}

/// Converting what the lines give is the same as letting every line give
/// converted items.
pub proof fn lemma_lines_map_converted<T, U>(
    data: Seq<u8>,
    starts: Seq<u64>,
    from: int,
    to: int,
    style: LineStyle,
    per_line: spec_fn(Seq<u8>, int) -> Seq<T>,
    convert: spec_fn(T) -> U,
)
    ensures
        lines_map(data, starts, from, to, style, per_line).map_values(convert) == lines_map(
            data,
            starts,
            from,
            to,
            style,
            converted(per_line, convert),
        ),
    decreases to - from,
{
    let all = lines_map(data, starts, from, to, style, per_line);
    if to <= from {
        assert(all.map_values(convert) =~= Seq::<U>::empty());
    } else {
        lemma_lines_map_converted(data, starts, from, to - 1, style, per_line, convert);
        let before = lines_map(data, starts, from, to - 1, style, per_line);
        let last = match line_span(data, starts, to - 1, style) {
            Some((start, end)) => per_line(data.subrange(start, end), start),
            None => Seq::empty(),
        };
        assert((before + last).map_values(convert) =~= before.map_values(convert)
            + last.map_values(convert));
        assert(Seq::<T>::empty().map_values(convert) =~= Seq::<U>::empty());
    }
}

/// The lines among `from..to` that have bytes and that `counts` holds of.
pub open spec fn lines_with(
    data: Seq<u8>,
    starts: Seq<u64>,
    from: int,
    to: int,
    style: LineStyle,
    counts: spec_fn(Seq<u8>) -> bool,
) -> nat
    decreases to - from,
{
    if to <= from {
        0
    } else {
        lines_with(data, starts, from, to - 1, style, counts) + match line_span(
            data,
            starts,
            to - 1,
            style,
        ) {
            Some((start, end)) => if counts(data.subrange(start, end)) {
                1nat
            } else {
                0nat
            },
            None => 0nat,
        }
    }
}

/// Where every line with bytes gives one item if `counts` holds of it and
/// none otherwise, the lines give as many items as there are lines that
/// `counts` holds of.
pub proof fn lemma_lines_map_counts<T>(
    data: Seq<u8>,
    starts: Seq<u64>,
    from: int,
    to: int,
    style: LineStyle,
    per_line: spec_fn(Seq<u8>, int) -> Seq<T>,
    counts: spec_fn(Seq<u8>) -> bool,
)
    requires
        starts_within(data, starts, from, to),
        forall|line: Seq<u8>, base: int|
            line.len() > 0 ==> (#[trigger] per_line(line, base)).len() == if counts(line) {
                1nat
            } else {
                0nat
            },
    ensures
        lines_map(data, starts, from, to, style, per_line).len() == lines_with(
            data,
            starts,
            from,
            to,
            style,
            counts,
        ),
    decreases to - from,
{
    if from < to {
        lemma_lines_map_counts(data, starts, from, to - 1, style, per_line, counts);
        if to < starts.len() {
            assert(starts[to] <= data.len());
        }
        match line_span(data, starts, to - 1, style) {
            Some((start, end)) => {
                assert(data.subrange(start, end).len() > 0);
            },
            None => {},
        }
    }
}

/// There are no more lines that count than there are bytes in the lines.
pub proof fn lemma_lines_with_bound(
    data: Seq<u8>,
    starts: Seq<u64>,
    from: int,
    to: int,
    style: LineStyle,
    counts: spec_fn(Seq<u8>) -> bool,
)
    requires
        starts_within(data, starts, from, to),
    ensures
        lines_with(data, starts, from, to, style, counts) <= lines_total(
            data,
            starts,
            from,
            to,
            style,
        ),
    decreases to - from,
{
    if from < to {
        lemma_lines_with_bound(data, starts, from, to - 1, style, counts);
        if to < starts.len() {
            assert(starts[to] <= data.len());
        }
    }
}

/// Every line with bytes counts where `counts` holds of every line.
pub open spec fn lines_with_bytes(
    data: Seq<u8>,
    starts: Seq<u64>,
    from: int,
    to: int,
    style: LineStyle,
) -> nat {
    lines_with(data, starts, from, to, style, |line: Seq<u8>| true)
}

/// Where `counts` holds of every line of the range that has bytes, the lines
/// it holds of are the lines with bytes.
pub proof fn lemma_lines_with_all(
    data: Seq<u8>,
    starts: Seq<u64>,
    from: int,
    to: int,
    style: LineStyle,
    counts: spec_fn(Seq<u8>) -> bool,
)
    requires
        forall|i: int|
            from <= i < to && line_span(data, starts, i, style).is_some() ==> counts(
                #[trigger] line_bytes(data, starts, i, style),
            ),
    ensures
        lines_with(data, starts, from, to, style, counts) == lines_with_bytes(
            data,
            starts,
            from,
            to,
            style,
        ),
    decreases to - from,
{
    if from < to {
        lemma_lines_with_all(data, starts, from, to - 1, style, counts);
        if line_span(data, starts, to - 1, style).is_some() {
            assert(counts(line_bytes(data, starts, to - 1, style)));
        }
    }
}

/// The extent of line `i` of `data`, or `None` for a line without bytes.
pub fn line_extent(data: &[u8], line_starts: &[u64], i: usize, style: LineStyle) -> (r: Option<
    (usize, usize),
>)
    requires
        i < line_starts@.len(),
        i + 1 < line_starts@.len() ==> line_starts@[i + 1] <= data@.len(),
    ensures
        match r {
            Some((start, end)) => line_span(data@, line_starts@, i as int, style) == Some(
                (start as int, end as int),
            ) && start < end <= data@.len(),
            None => line_span(data@, line_starts@, i as int, style).is_none(),
        },
{
    let len: usize = data.len();
    let num_lines: usize = line_starts.len();
    let start64: u64 = line_starts[i];
    if start64 >= len as u64 {
        return None;
    }
    let start: usize = start64 as usize;
    let end: usize = if i + 1 < num_lines {
        let next: usize = line_starts[i + 1] as usize;
        if next > 0 && data[next - 1] == NEWLINE {
            if style.strip_cr && next > 1 && data[next - 2] == CARRIAGE_RETURN {
                next - 2
            } else {
                next - 1
            }
        } else {
            next
        }
    } else if style.trim_final {
        let mut end: usize = len;
        if end > 0 && data[end - 1] == NEWLINE {
            end -= 1;
        }
        if end > 0 && data[end - 1] == CARRIAGE_RETURN {
            end -= 1;
        }
        end
    } else {
        len
    };
    if start >= end {
        None
    } else {
        Some((start, end))
    }
}

} // verus!
