//! The CSV parser: a header line that names the columns, then one record per
//! line whose fields take their keys from the header by position.

use crate::ascii::{CARRIAGE_RETURN, COMMA, is_blank, NEWLINE, QUOTE, SPACE, TAB};
use crate::lines::{csv_style, line_bytes, line_extent, lines_map, starts_within, LineStyle};
use crate::search::{
    byte_in3, byte_is, find_any3, find_byte, lemma_scan_until, lemma_scan_until_prefix, scan_until,
};
use crate::structured::well_known::{classify, classify_key, WellKnownKind};
use crate::structured::{
    building, lemma_building_begins, lemma_building_ends, lemma_building_grows, lemma_within_grows,
    resolve, resolver, slots_of, FieldRef, RecordView, ResolvedRecord, StructuredBatch, ValueSpan,
};
use vstd::prelude::*;

verus! {

/// The columns of a CSV file: for each the byte range of its name in the
/// buffer the header was read from, and the kind the name stands for.
pub struct CsvHeader {
    pub columns: Vec<(u64, u32)>,
    pub well_known: Vec<WellKnownKind>,
}

/// Where a field begins once leading spaces and tabs are left out.
pub open spec fn trim_start(s: Seq<u8>, from: int, to: int) -> int
    decreases to - from,
{
    if from < to && is_blank(s[from]) {
        trim_start(s, from + 1, to)
    } else {
        from
    }
}

/// Where a field ends once trailing spaces and tabs are left out.
pub open spec fn trim_end(s: Seq<u8>, from: int, to: int) -> int
    decreases to - from,
{
    if from < to && is_blank(s[to - 1]) {
        trim_end(s, from, to - 1)
    } else {
        to
    }
}

/// The extent of a header field without the spaces and tabs around it and
/// without one pair of quotes around what is left.
pub open spec fn trimmed(field: Seq<u8>) -> (int, int) {
    let start = trim_start(field, 0, field.len() as int);
    let end = trim_end(field, start, field.len() as int);
    if end - start >= 2 && field[start] == QUOTE && field[end - 1] == QUOTE {
        (start + 1, end - 1)
    } else {
        (start, end)
    }
}

pub proof fn lemma_trim(s: Seq<u8>, from: int, to: int)
    requires
        from <= to,
    ensures
        from <= trim_start(s, from, to) <= to,
        from <= trim_end(s, from, to) <= to,
    decreases to - from,
{
    if from < to {
        lemma_trim(s, from + 1, to);
        lemma_trim(s, from, to - 1);
    }
}

pub proof fn lemma_trimmed(field: Seq<u8>)
    ensures
        0 <= trimmed(field).0 <= trimmed(field).1 <= field.len(),
{
    lemma_trim(field, 0, field.len() as int);
    lemma_trim(field, trim_start(field, 0, field.len() as int), field.len() as int);
}

/// The extent of `field` without the blanks and the one pair of quotes
/// around it.
pub fn trim_csv_field(field: &[u8]) -> (r: (usize, usize))
    ensures
        r.0 == trimmed(field@).0,
        r.1 == trimmed(field@).1,
        r.0 <= r.1 <= field.len(),
{
    let mut start: usize = 0;
    let mut end: usize = field.len();
    proof {
        lemma_trimmed(field@);
    }
    while start < end && (field[start] == SPACE || field[start] == TAB)
        invariant
            start <= end == field.len(),
            trim_start(field@, 0, end as int) == trim_start(field@, start as int, end as int),
        decreases end - start,
    {
        start += 1;
    }
    while end > start && (field[end - 1] == SPACE || field[end - 1] == TAB)
        invariant
            start <= end <= field.len(),
            start == trim_start(field@, 0, field.len() as int),
            trim_end(field@, start as int, field.len() as int) == trim_end(
                field@,
                start as int,
                end as int,
            ),
        decreases end - start,
    {
        end -= 1;
    }
    if end - start >= 2 && field[start] == QUOTE && field[end - 1] == QUOTE {
        start += 1;
        end -= 1;
    }
    (start, end)
}

/// The extents of the columns named in the header line `line` from position
/// `from` on: the pieces between commas, each trimmed.
pub open spec fn header_columns(line: Seq<u8>, from: int) -> Seq<(int, int)>
    decreases line.len() - from,
{
    if from < 0 || from > line.len() {
        Seq::empty()
    } else {
        let comma = scan_until(line, from, byte_is(COMMA));
        proof {
            lemma_scan_until(line, from, byte_is(COMMA));
        }
        let (start, end) = trimmed(line.subrange(from, comma));
        let column = (from + start, from + end);
        if comma < line.len() {
            seq![column] + header_columns(line, comma + 1)
        } else {
            seq![column]
        }
    }
}

pub proof fn lemma_header_columns(line: Seq<u8>, from: int)
    requires
        0 <= from <= line.len(),
    ensures
        1 <= header_columns(line, from).len() <= line.len() - from + 1,
        forall|k: int|
            0 <= k < header_columns(line, from).len() ==> from <= (#[trigger] header_columns(
                line,
                from,
            )[k]).0 <= header_columns(line, from)[k].1 <= line.len(),
    decreases line.len() - from,
{
    lemma_scan_until(line, from, byte_is(COMMA));
    let comma = scan_until(line, from, byte_is(COMMA));
    lemma_trimmed(line.subrange(from, comma));
    if comma < line.len() {
        lemma_header_columns(line, comma + 1);
    }
}

/// The header line of `data`: its bytes up to the first newline, without a
/// carriage return in front of that newline.
pub open spec fn header_line(data: Seq<u8>) -> Seq<u8> {
    let end = scan_until(data, 0, byte_is(NEWLINE));
    if end > 0 && data[end - 1] == CARRIAGE_RETURN {
        data.subrange(0, end - 1)
    } else {
        data.subrange(0, end)
    }
}

/// Where the records begin: after the first newline, or at the end of a
/// buffer without one.
pub open spec fn header_end(data: Seq<u8>) -> int {
    let end = scan_until(data, 0, byte_is(NEWLINE));
    if end < data.len() {
        end + 1
    } else {
        end
    }
}

/// Once the header line is whole, what follows does not change the header.
pub proof fn lemma_header_stable(work: Seq<u8>, more: Seq<u8>)
    requires
        scan_until(work, 0, byte_is(NEWLINE)) < work.len(),
    ensures
        header_end(work + more) == header_end(work),
        header_line(work + more) == header_line(work),
        header_of(work + more) == header_of(work),
        scan_until(work + more, 0, byte_is(NEWLINE)) < (work + more).len(),
{
    let all = work + more;
    lemma_scan_until(work, 0, byte_is(NEWLINE));
    lemma_scan_until(all, 0, byte_is(NEWLINE));
    lemma_scan_until_prefix(all, 0, byte_is(NEWLINE), work.len() as int);
    assert(all.subrange(0, work.len() as int) =~= work);
    let end = scan_until(work, 0, byte_is(NEWLINE));
    assert(scan_until(all, 0, byte_is(NEWLINE)) == end);
    if end > 0 {
        assert(all[end - 1] == work[end - 1]);
    }
    assert(header_line(all) =~= header_line(work));
}

/// The names of the columns lie inside the header line.
pub proof fn lemma_header_names_within(data: Seq<u8>)
    ensures
        header_line(data).len() <= header_end(data) <= data.len(),
        match header_of(data) {
            Some(h) => forall|k: int|
                0 <= k < h.columns.len() ==> (#[trigger] h.columns[k]).0 + h.columns[k].1
                    <= header_line(data).len(),
            None => true,
        },
{
    lemma_scan_until(data, 0, byte_is(NEWLINE));
    let line = header_line(data);
    if header_of(data).is_some() {
        let h = header_of(data).unwrap();
        lemma_header_columns(line, 0);
        let extents = header_columns(line, 0);
        assert forall|k: int| 0 <= k < h.columns.len() implies (#[trigger] h.columns[k]).0
            + h.columns[k].1 <= line.len() by {
            assert(0 <= extents[k].0 <= extents[k].1 <= line.len());
        }
    }
}

/// The names that columns have in a buffer are told by the beginning of the
/// buffer that holds them.
pub proof fn lemma_column_names_of_prefix(
    columns: Seq<(u64, u32)>,
    data: Seq<u8>,
    other: Seq<u8>,
    shared: int,
)
    requires
        0 <= shared <= data.len(),
        shared <= other.len(),
        data.take(shared) == other.take(shared),
        forall|k: int| 0 <= k < columns.len() ==> (#[trigger] columns[k]).0 + columns[k].1 <= shared,
    ensures
        column_names(columns, data) == column_names(columns, other),
{
    assert forall|k: int| 0 <= k < columns.len() implies column_names(columns, data)[k]
        == column_names(columns, other)[k] by {
        let from = columns[k].0 as int;
        let to = columns[k].0 + columns[k].1;
        assert(to <= shared);
        assert(data.subrange(from, to) =~= data.take(shared).subrange(from, to));
        assert(other.subrange(from, to) =~= other.take(shared).subrange(from, to));
    }
    assert(column_names(columns, data) =~= column_names(columns, other));
}

/// Column `k` of a header is the column with the extent `extent` in `line`.
pub open spec fn column_is(
    columns: Seq<(u64, u32)>,
    kinds: Seq<WellKnownKind>,
    k: int,
    extent: (int, int),
    line: Seq<u8>,
) -> bool {
    &&& columns[k].0 == extent.0
    &&& columns[k].1 == extent.1 - extent.0
    &&& kinds[k] == classify(line.subrange(extent.0, extent.1))
    &&& 0 <= extent.0 <= extent.1 <= line.len()
}

/// The columns of a header as a value: the byte range of each name, and the
/// kind each name stands for.
pub struct HeaderView {
    pub columns: Seq<(u64, u32)>,
    pub kinds: Seq<WellKnownKind>,
}

/// The header that `data` begins with: the columns named in its header line.
/// There is none if the header line is empty, nor if it is longer than
/// `u32::MAX` bytes.
pub open spec fn header_of(data: Seq<u8>) -> Option<HeaderView> {
    let line = header_line(data);
    if line.len() == 0 || line.len() > u32::MAX {
        None
    } else {
        let extents = header_columns(line, 0);
        Some(
            HeaderView {
                columns: Seq::new(
                    extents.len(),
                    |k: int| (extents[k].0 as u64, (extents[k].1 - extents[k].0) as u32),
                ),
                kinds: Seq::new(
                    extents.len(),
                    |k: int| classify(line.subrange(extents[k].0, extents[k].1)),
                ),
            },
        )
    }
}

impl CsvHeader {
    /// Names and kinds are as many.
    pub open spec fn wf(&self) -> bool {
        self.columns@.len() == self.well_known@.len()
    }

    /// Every column name lies inside a buffer of `buffer_len` bytes.
    pub open spec fn within(&self, buffer_len: int) -> bool {
        forall|k: int|
            0 <= k < self.columns@.len() ==> (#[trigger] self.columns@[k]).0
                + self.columns@[k].1 <= buffer_len
    }

    /// The columns as a value.
    pub open spec fn view(&self) -> HeaderView {
        HeaderView { columns: self.columns@, kinds: self.well_known@ }
    }

    /// Reads the header that `data` begins with. There is none if the header
    /// line is empty, nor if it is too long for its columns to be told in 32
    /// bits.
    pub fn parse(data: &[u8]) -> (r: Option<CsvHeader>)
        ensures
            match r {
                Some(h) => header_of(data@) == Some(h@) && h.wf() && h.within(
                    header_line(data@).len() as int,
                ) && h.within(data@.len() as int),
                None => header_of(data@).is_none(),
            },
    {
        let line_end: usize = find_byte(data, 0, NEWLINE);
        let end: usize = if line_end > 0 && data[line_end - 1] == CARRIAGE_RETURN {
            line_end - 1
        } else {
            line_end
        };
        if end == 0 || end > u32::MAX as usize {
            return None;
        }
        let line: &[u8] = &data[0..end];
        let mut columns: Vec<(u64, u32)> = Vec::new();
        let mut well_known_kinds: Vec<WellKnownKind> = Vec::new();
        let mut from: usize = 0;
        let mut done: bool = false;
        let ghost all = header_columns(line@, 0);
        proof {
            lemma_header_columns(line@, 0);
        }
        while !done
            invariant
                from <= end == line@.len(),
                end <= u32::MAX,
                line@ == header_line(data@),
                all == header_columns(line@, 0),
                columns@.len() == well_known_kinds@.len(),
                columns@.len() <= all.len(),
                done ==> columns@.len() == all.len(),
                !done ==> all.skip(columns@.len() as int) == header_columns(line@, from as int),
                forall|k: int|
                    0 <= k < columns@.len() ==> #[trigger] column_is(
                        columns@,
                        well_known_kinds@,
                        k,
                        all[k],
                        line@,
                    ),
            decreases end - from + if done {
                0int
            } else {
                1int
            },
        {
            let comma: usize = find_byte(line, from, COMMA);
            let piece: &[u8] = &line[from..comma];
            let (start, stop) = trim_csv_field(piece);
            let name: &[u8] = &piece[start..stop];
            proof {
                lemma_header_columns(line@, from as int);
                let rest = header_columns(line@, from as int);
                assert(rest[0] == (from + start, from + stop));
                assert(all[columns@.len() as int] == all.skip(columns@.len() as int)[0]);
                assert(name@ =~= line@.subrange(from + start, from + stop));
                if comma < end {
                    assert(all.skip(columns@.len() as int + 1) =~= rest.skip(1));
                    assert(rest.skip(1) =~= header_columns(line@, comma + 1));
                } else {
                    assert(rest.len() == 1);
                    assert(all.skip(columns@.len() as int).len() == all.len() - columns@.len());
                }
            }
            let ghost prior = columns@;
            let ghost prior_kinds = well_known_kinds@;
            columns.push(((from + start) as u64, (stop - start) as u32));
            well_known_kinds.push(classify_key(name));
            proof {
                let n = prior.len() as int;
                assert forall|k: int| 0 <= k < columns@.len() implies #[trigger] column_is(
                    columns@,
                    well_known_kinds@,
                    k,
                    all[k],
                    line@,
                ) by {
                    if k < n {
                        assert(column_is(prior, prior_kinds, k, all[k], line@));
                        assert(columns@[k] == prior[k]);
                        assert(well_known_kinds@[k] == prior_kinds[k]);
                    } else {
                        assert(all[n] == (from + start, from + stop));
                    }
                }
            }
            if comma < end {
                from = comma + 1;
            } else {
                done = true;
            }
        }
        let header = CsvHeader { columns, well_known: well_known_kinds };
        proof {
            let spec_header = header_of(data@).unwrap();
            assert forall|k: int| 0 <= k < all.len() implies header.columns@[k]
                == spec_header.columns[k] && header.well_known@[k] == spec_header.kinds[k] by {
                assert(column_is(header.columns@, header.well_known@, k, all[k], line@));
            }
            assert(header.columns@ =~= spec_header.columns);
            assert(header.well_known@ =~= spec_header.kinds);
            assert forall|k: int| 0 <= k < header.columns@.len() implies (
            #[trigger] header.columns@[k]).0 + header.columns@[k].1 <= line@.len() by {
                assert(column_is(header.columns@, header.well_known@, k, all[k], line@));
            }
        }
        Some(header)
    }

    pub fn num_columns(&self) -> (r: usize)
        ensures
            r == self.columns@.len(),
    {
        self.columns.len()
    }
}

/// Where the records of `data` begin.
pub fn header_end_offset(data: &[u8]) -> (r: usize)
    ensures
        r == header_end(data@),
        r <= data.len(),
{
    let pos: usize = find_byte(data, 0, NEWLINE);
    if pos < data.len() {
        pos + 1
    } else {
        data.len()
    }
}

/// Where the quoted field that is open at `j` ends, and the position after
/// its closing quote. Two quotes in a row stand for a quote inside the
/// field and are passed over. A field that is not closed ends with the line.
pub open spec fn csv_quoted_end(s: Seq<u8>, j: int) -> (int, int)
    decreases s.len() - j,
{
    if j < 0 || j >= s.len() {
        (s.len() as int, s.len() as int)
    } else if s[j] == QUOTE {
        if j + 1 < s.len() && s[j + 1] == QUOTE {
            csv_quoted_end(s, j + 2)
        } else {
            (j, j + 1)
        }
    } else {
        csv_quoted_end(s, j + 1)
    }
}

pub proof fn lemma_csv_quoted_end(s: Seq<u8>, j: int)
    requires
        0 <= j <= s.len(),
    ensures
        j <= csv_quoted_end(s, j).0 <= csv_quoted_end(s, j).1 <= s.len(),
    decreases s.len() - j,
{
    if j < s.len() {
        if s[j] == QUOTE {
            if j + 1 < s.len() && s[j + 1] == QUOTE {
                lemma_csv_quoted_end(s, j + 2);
            }
        } else {
            lemma_csv_quoted_end(s, j + 1);
        }
    }
}

/// The field that begins at `i`. A field that begins with a quote runs from
/// after that quote to its closing quote; any other runs up to the next
/// comma, newline or carriage return.
pub open spec fn csv_field(s: Seq<u8>, i: int) -> ValueSpan {
    if i >= s.len() {
        ValueSpan { start: i, end: i, next: i }
    } else if s[i] == QUOTE {
        let (end, next) = csv_quoted_end(s, i + 1);
        ValueSpan { start: i + 1, end, next }
    } else {
        let end = scan_until(s, i, byte_in3(COMMA, NEWLINE, CARRIAGE_RETURN));
        ValueSpan { start: i, end, next: end }
    }
}

pub proof fn lemma_csv_field(s: Seq<u8>, i: int)
    requires
        0 <= i <= s.len(),
    ensures
        i <= csv_field(s, i).start <= csv_field(s, i).end <= csv_field(s, i).next <= s.len(),
{
    if i < s.len() {
        if s[i] == QUOTE {
            lemma_csv_quoted_end(s, i + 1);
        } else {
            lemma_scan_until(s, i, byte_in3(COMMA, NEWLINE, CARRIAGE_RETURN));
        }
    }
}

/// Reads the field at `*i` and moves `*i` past it. Returns where the field
/// starts and ends.
pub fn parse_csv_field(line: &[u8], i: &mut usize) -> (r: (usize, usize))
    requires
        *old(i) <= line.len(),
    ensures
        r.0 == csv_field(line@, *old(i) as int).start,
        r.1 == csv_field(line@, *old(i) as int).end,
        *final(i) == csv_field(line@, *old(i) as int).next,
        *old(i) <= r.0 <= r.1 <= *final(i) <= line.len(),
{
    let len: usize = line.len();
    let at: usize = *i;
    proof {
        lemma_csv_field(line@, at as int);
    }
    if at >= len {
        return (at, at);
    }
    if line[at] == QUOTE {
        let start: usize = at + 1;
        let mut j: usize = start;
        proof {
            lemma_csv_quoted_end(line@, start as int);
        }
        while j < len
            invariant
                at == *old(i),
                at < len,
                line@[at as int] == QUOTE,
                start == at + 1,
                start <= j <= len == line.len(),
                csv_quoted_end(line@, start as int) == csv_quoted_end(line@, j as int),
                start <= csv_quoted_end(line@, start as int).0 <= csv_quoted_end(
                    line@,
                    start as int,
                ).1 <= len,
            decreases len - j,
        {
            if line[j] == QUOTE {
                if j + 1 < len && line[j + 1] == QUOTE {
                    j += 2;
                } else {
                    *i = j + 1;
                    return (start, j);
                }
            } else {
                j += 1;
            }
        }
        *i = j;
        (start, j)
    } else {
        let end: usize = find_any3(line, at, COMMA, NEWLINE, CARRIAGE_RETURN);
        *i = end;
        (at, end)
    }
}

/// The values of a row from position `i` on, for the columns `col..ncols`:
/// one field per column while the line lasts, each followed by an optional
/// comma. Fields past the last column are not read.
pub open spec fn csv_values(s: Seq<u8>, i: int, col: int, ncols: int) -> Seq<(int, int)>
    decreases ncols - col,
{
    if 0 <= i < s.len() && col < ncols {
        let field = csv_field(s, i);
        let next = if field.next < s.len() && s[field.next] == COMMA {
            field.next + 1
        } else {
            field.next
        };
        seq![(field.start, field.end)] + csv_values(s, next, col + 1, ncols)
    } else {
        Seq::empty()
    }
}

pub proof fn lemma_csv_values(s: Seq<u8>, i: int, col: int, ncols: int)
    requires
        0 <= i <= s.len(),
        0 <= col,
    ensures
        csv_values(s, i, col, ncols).len() <= if ncols > col {
            ncols - col
        } else {
            0
        },
        forall|k: int|
            0 <= k < csv_values(s, i, col, ncols).len() ==> 0 <= (#[trigger] csv_values(
                s,
                i,
                col,
                ncols,
            )[k]).0 <= csv_values(s, i, col, ncols)[k].1 <= s.len(),
    decreases ncols - col,
{
    if i < s.len() && col < ncols {
        lemma_csv_field(s, i);
        let field = csv_field(s, i);
        let next = if field.next < s.len() && s[field.next] == COMMA {
            field.next + 1
        } else {
            field.next
        };
        lemma_csv_values(s, next, col + 1, ncols);
    }
}

/// The fields of a row: value `k` under the name of column `k`.
pub open spec fn csv_refs(values: Seq<(int, int)>, base: int, columns: Seq<(u64, u32)>) -> Seq<
    FieldRef,
> {
    Seq::new(
        values.len(),
        |k: int|
            FieldRef {
                key_offset: columns[k].0,
                key_len: columns[k].1,
                val_offset: (base + values[k].0) as u64,
                val_len: (values[k].1 - values[k].0) as u32,
            },
    )
}

/// The records that a line gives under a header: one, unless the line is
/// empty.
pub open spec fn csv_records(
    line: Seq<u8>,
    base: int,
    columns: Seq<(u64, u32)>,
    kinds: Seq<WellKnownKind>,
) -> Seq<RecordView> {
    if line.len() == 0 {
        Seq::empty()
    } else {
        let values = csv_values(line, 0, 0, columns.len() as int);
        seq![
            RecordView {
                line_offset: base as u64,
                line_len: line.len() as u32,
                fields: csv_refs(values, base, columns),
                slots: slots_of(kinds.take(values.len() as int)),
            },
        ]
    }
}

/// Parses one line, which stands at `base_offset`, into one record whose
/// fields are named by `header`. An empty line gives none.
#[verifier::rlimit(40)]
pub fn parse_csv_line(
    line: &[u8],
    base_offset: u64,
    header: &CsvHeader,
    batch: &mut StructuredBatch,
)
    requires
        old(batch).complete(),
        header.wf(),
        base_offset + line.len() <= u64::MAX,
        line.len() <= u32::MAX,
        old(batch).fields@.len() + header.columns@.len() < u32::MAX,
    ensures
        final(batch).complete(),
        final(batch)@ == old(batch)@ + csv_records(
            line@,
            base_offset as int,
            header.columns@,
            header.well_known@,
        ),
        final(batch).fields@.len() <= old(batch).fields@.len() + header.columns@.len(),
        forall|n: int|
            old(batch).within(n) && header.within(n) && base_offset + line.len() <= n
                ==> #[trigger] final(batch).within(n),
{
    let len: usize = line.len();
    if len == 0 {
        assert(batch@ =~= old(batch)@ + csv_records(
            line@,
            base_offset as int,
            header.columns@,
            header.well_known@,
        ));
        return ;
    }
    assert(batch.field_starts.len() == batch.len + 1);
    batch.begin_record(base_offset, len as u32);
    let ncols: usize = header.num_columns();
    let ghost all = csv_values(line@, 0, 0, ncols as int);
    let ghost mut values: Seq<(int, int)> = Seq::empty();
    proof {
        lemma_building_begins(*old(batch), *batch, base_offset, len as u32);
        lemma_csv_values(line@, 0, 0, ncols as int);
        assert(csv_refs(values, base_offset as int, header.columns@) =~= Seq::empty());
        assert(header.well_known@.take(0) =~= Seq::empty());
        assert(all =~= values + csv_values(line@, 0, 0, ncols as int));
    }
    let mut col_idx: usize = 0;
    let mut i: usize = 0;
    while i < len && col_idx < ncols
        invariant
            i <= len == line.len(),
            len <= u32::MAX,
            col_idx <= ncols == header.columns@.len(),
            header.wf(),
            base_offset + len <= u64::MAX,
            old(batch).fields@.len() + ncols < u32::MAX,
            values.len() == col_idx,
            building(
                *old(batch),
                *batch,
                base_offset,
                len as u32,
                csv_refs(values, base_offset as int, header.columns@),
                header.well_known@.take(col_idx as int),
            ),
            all == values + csv_values(line@, i as int, col_idx as int, ncols as int),
            forall|k: int|
                0 <= k < values.len() ==> 0 <= (#[trigger] values[k]).0 <= values[k].1 <= len,
        decreases ncols - col_idx,
    {
        let ghost field_spec = csv_field(line@, i as int);
        let ghost before = values;
        let (val_start, val_end) = parse_csv_field(line, &mut i);
        let (key_offset, key_len) = header.columns[col_idx];
        let ghost mid = *batch;
        let field_idx: u32 = batch.fields.len() as u32;
        let field = FieldRef {
            key_offset,
            key_len,
            val_offset: base_offset + val_start as u64,
            val_len: (val_end - val_start) as u32,
        };
        batch.push_field(field);
        let kind: WellKnownKind = header.well_known[col_idx];
        match kind {
            WellKnownKind::Timestamp => batch.set_well_known_timestamp(field_idx),
            WellKnownKind::Level => batch.set_well_known_level(field_idx),
            WellKnownKind::Message => batch.set_well_known_message(field_idx),
            WellKnownKind::Component => batch.set_well_known_component(field_idx),
            WellKnownKind::Other => {
                assert(batch.well_known@ =~= mid.well_known@.update(
                    mid.well_known@.len() - 1,
                    mid.well_known@.last(),
                ));
            },
        }
        proof {
            let refs = csv_refs(before, base_offset as int, header.columns@);
            let kinds = header.well_known@.take(col_idx as int);
            lemma_building_grows(
                *old(batch),
                mid,
                *batch,
                base_offset,
                len as u32,
                refs,
                kinds,
                field,
                kind,
            );
            values = before.push((val_start as int, val_end as int));
            assert(csv_refs(values, base_offset as int, header.columns@) =~= refs.push(field));
            assert(header.well_known@.take(col_idx + 1) =~= kinds.push(kind));
        }
        col_idx += 1;
        if i < len && line[i] == COMMA {
            i += 1;
        }
        proof {
            let pair = (val_start as int, val_end as int);
            let rest = csv_values(line@, i as int, col_idx as int, ncols as int);
            assert(before + (seq![pair] + rest) =~= before.push(pair) + rest);
        }
    }
    let ghost last = *batch;
    batch.end_record();
    proof {
        assert(csv_values(line@, i as int, col_idx as int, ncols as int) =~= Seq::empty());
        assert(values =~= all);
        let refs = csv_refs(values, base_offset as int, header.columns@);
        lemma_building_ends(
            *old(batch),
            last,
            *batch,
            base_offset,
            len as u32,
            refs,
            header.well_known@.take(col_idx as int),
        );
        assert(batch@ =~= old(batch)@ + csv_records(
            line@,
            base_offset as int,
            header.columns@,
            header.well_known@,
        ));
        assert forall|n: int|
            old(batch).within(n) && header.within(n) && base_offset + line.len()
                <= n implies #[trigger] batch.within(n) by {
            assert forall|k: int| 0 <= k < refs.len() implies (#[trigger] refs[k]).within(0, n) by {
                assert(header.columns@[k].0 + header.columns@[k].1 <= n);
                assert(0 <= values[k].0 <= values[k].1 <= len);
            }
            lemma_within_grows(*old(batch), *batch, base_offset, len as u32, refs, n);
        }
    }
}

/// What the range parser makes of one line under a header.
pub open spec fn csv_line(columns: Seq<(u64, u32)>, kinds: Seq<WellKnownKind>) -> spec_fn(
    Seq<u8>,
    int,
) -> Seq<RecordView> {
    |line: Seq<u8>, base: int| csv_records(line, base, columns, kinds)
}

/// The records of the lines `from..to` of `data` under a header: for every
/// line that has bytes, the record of the line, in the order of the lines.
pub open spec fn csv_range(
    data: Seq<u8>,
    starts: Seq<u64>,
    from: int,
    to: int,
    columns: Seq<(u64, u32)>,
    kinds: Seq<WellKnownKind>,
) -> Seq<RecordView> {
    lines_map(data, starts, from, to, csv_style(), csv_line(columns, kinds))
}

/// The names of the columns as bytes, read from the buffer that the header
/// points into.
pub open spec fn column_names(columns: Seq<(u64, u32)>, data: Seq<u8>) -> Seq<Seq<u8>> {
    Seq::new(
        columns.len(),
        |k: int| data.subrange(columns[k].0 as int, columns[k].0 + columns[k].1),
    )
}

/// What a line says under columns with the names `names`, read from the
/// line itself: nothing if it is empty; else one record with the line, and
/// for every value the name of its column and the value as bytes.
pub open spec fn csv_text_line(names: Seq<Seq<u8>>, kinds: Seq<WellKnownKind>) -> spec_fn(
    Seq<u8>,
) -> Seq<ResolvedRecord> {
    |line: Seq<u8>|
        if line.len() == 0 {
            Seq::empty()
        } else {
            let values = csv_values(line, 0, 0, names.len() as int);
            seq![
                ResolvedRecord {
                    line,
                    fields: Seq::new(
                        values.len(),
                        |k: int| (names[k], line.subrange(values[k].0, values[k].1)),
                    ),
                    slots: slots_of(kinds.take(values.len() as int)),
                },
            ]
        }
}

/// What a CSV line says does not depend on where it stands: read from the
/// buffer, the records of the line `data[base..end]` are what the line says
/// under the names that the columns have in the buffer.
pub proof fn lemma_csv_line_anywhere(
    data: Seq<u8>,
    base: int,
    end: int,
    columns: Seq<(u64, u32)>,
    kinds: Seq<WellKnownKind>,
)
    requires
        0 <= base <= end <= data.len(),
        data.len() <= u64::MAX,
        end - base <= u32::MAX,
    ensures
        csv_line(columns, kinds)(data.subrange(base, end), base).map_values(resolver(data))
            == csv_text_line(column_names(columns, data), kinds)(data.subrange(base, end)),
{
    let line = data.subrange(base, end);
    let names = column_names(columns, data);
    let records = csv_line(columns, kinds)(line, base);
    if line.len() == 0 {
        assert(records.map_values(resolver(data)) =~= Seq::<ResolvedRecord>::empty());
    } else {
        let values = csv_values(line, 0, 0, columns.len() as int);
        lemma_csv_values(line, 0, 0, columns.len() as int);
        let record = records[0];
        let read = resolve(record, data);
        let said = csv_text_line(names, kinds)(line)[0];
        assert(read.line =~= line);
        assert forall|k: int| 0 <= k < values.len() implies read.fields[k] == said.fields[k] by {
            assert(0 <= values[k].0 <= values[k].1 <= line.len());
            let field = record.fields[k];
            assert(data.subrange(field.val_offset as int, field.val_offset + field.val_len)
                =~= line.subrange(values[k].0, values[k].1));
        }
        assert(read.fields =~= said.fields);
        assert(records.map_values(resolver(data)) =~= csv_text_line(names, kinds)(line));
    }
}

/// Parses the lines `start_idx..end_idx` of `data`, appending one record for
/// every line that has bytes. `line_starts` holds where the lines start. A
/// carriage return before the newline is not part of the line.
pub fn parse_csv_lines_range(
    data: &[u8],
    line_starts: &[u64],
    start_idx: usize,
    end_idx: usize,
    header: &CsvHeader,
    batch: &mut StructuredBatch,
)
    requires
        old(batch).complete(),
        header.wf(),
        start_idx <= end_idx <= line_starts@.len(),
        starts_within(data@, line_starts@, start_idx as int, end_idx as int),
        forall|i: int|
            start_idx <= i < end_idx ==> (#[trigger] line_bytes(
                data@,
                line_starts@,
                i,
                csv_style(),
            )).len() <= u32::MAX,
        old(batch).fields@.len() + (end_idx - start_idx) * header.columns@.len() < u32::MAX,
    ensures
        final(batch).complete(),
        final(batch)@ == old(batch)@ + csv_range(
            data@,
            line_starts@,
            start_idx as int,
            end_idx as int,
            header.columns@,
            header.well_known@,
        ),
        final(batch).fields@.len() <= old(batch).fields@.len() + (end_idx - start_idx)
            * header.columns@.len(),
        old(batch).within(data@.len() as int) && header.within(data@.len() as int)
            ==> final(batch).within(data@.len() as int),
{
    let mut i: usize = start_idx;
    let ghost ncols = header.columns@.len() as int;
    proof {
        assert(batch@ =~= old(batch)@ + csv_range(
            data@,
            line_starts@,
            start_idx as int,
            start_idx as int,
            header.columns@,
            header.well_known@,
        ));
        assert((start_idx - start_idx) * ncols == 0);
    }
    while i < end_idx
        invariant
            start_idx <= i <= end_idx <= line_starts@.len(),
            ncols == header.columns@.len(),
            batch.complete(),
            header.wf(),
            starts_within(data@, line_starts@, start_idx as int, end_idx as int),
            forall|k: int|
                start_idx <= k < end_idx ==> (#[trigger] line_bytes(
                    data@,
                    line_starts@,
                    k,
                    csv_style(),
                )).len() <= u32::MAX,
            old(batch).fields@.len() + (end_idx - start_idx) * ncols < u32::MAX,
            batch@ == old(batch)@ + csv_range(
                data@,
                line_starts@,
                start_idx as int,
                i as int,
                header.columns@,
                header.well_known@,
            ),
            batch.fields@.len() <= old(batch).fields@.len() + (i - start_idx) * ncols,
            old(batch).within(data@.len() as int) && header.within(data@.len() as int)
                ==> batch.within(data@.len() as int),
        decreases end_idx - i,
    {
        proof {
            if i + 1 < line_starts@.len() {
                assert(line_starts@[i + 1] <= data@.len());
            }
            assert(line_bytes(data@, line_starts@, i as int, csv_style()).len() <= u32::MAX);
            assert((i + 1 - start_idx) * ncols == (i - start_idx) * ncols + ncols)
                by (nonlinear_arith);
            assert((i + 1 - start_idx) * ncols <= (end_idx - start_idx) * ncols)
                by (nonlinear_arith)
                requires
                    i + 1 - start_idx <= end_idx - start_idx,
                    0 <= ncols,
            ;
        }
        match line_extent(data, line_starts, i, LineStyle { strip_cr: true, trim_final: true }) {
            Some((line_start, line_end)) => {
                let line: &[u8] = &data[line_start..line_end];
                parse_csv_line(line, line_start as u64, header, batch);
            },
            None => {},
        }
        proof {
            assert(batch@ =~= old(batch)@ + csv_range(
                data@,
                line_starts@,
                start_idx as int,
                i + 1,
                header.columns@,
                header.well_known@,
            ));
        }
        i += 1;
    }
}

} // verus!
