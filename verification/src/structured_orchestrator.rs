//! Parsing a whole buffer of structured records: chunk by chunk, the chunks
//! shared out among workers, the batches put back in the order of the
//! chunks.

use crate::ascii::NEWLINE;
use crate::chunks::{
    boundaries_of, bounds_ok, chunk_boundaries, chunk_map, chunk_size_for, chunk_starts, chunks_map,
    complete_end, copy_range, cut_at_lines, each_line, each_part, find_complete_end, join, joined,
    lemma_boundaries, lemma_boundaries_at_line_starts, lemma_bounds_ok, lemma_chunk_is_its_lines,
    lemma_chunk_line_whole, lemma_chunk_starts, lemma_chunks_map, lemma_each_part,
    lemma_last_line_end, lemma_shares_tile, scan_chunk, share_start, shares_tile, whole_line,
    whole_lines, worker_chunks, worker_threads,
};
use crate::csv_parser::{
    column_names, csv_line, csv_text_line, header_end, header_end_offset, header_of,
    lemma_column_names_of_prefix, lemma_csv_line_anywhere, lemma_header_names_within,
    lemma_header_stable, parse_csv_lines_range, CsvHeader, HeaderView,
};
use crate::format::{detect_format, DETECT_WINDOW, LogFormat};
use crate::json_parser::{
    json_line, json_text_line, lemma_json_line_anywhere, parse_json_lines_range, whitespace_line,
};
use crate::lines::{
    converted, csv_style, lemma_lines_map_converted, lemma_lines_map_counts,
    lemma_lines_total_grows, lemma_lines_total_sorted, lemma_lines_with_all, line_bytes, line_span,
    lines_map, lines_with, lines_with_bytes, starts_sorted, starts_within, structured_style,
    LineStyle,
};
use crate::logfmt_parser::{
    blank_line, lemma_logfmt_line_anywhere, logfmt_line, logfmt_text_line, parse_logfmt_lines_range,
};
use crate::search::{byte_is, find_byte, lemma_scan_until, scan_until};
use crate::structured::{resolve, resolver, RecordView, ResolvedRecord, StructuredBatch};
use vstd::prelude::*;

verus! {

/// What a parse of a whole buffer gives.
pub struct StructuredPipelineResult {
    /// One batch per chunk, in the order of the chunks.
    pub batches: Vec<StructuredBatch>,
    pub total_records: usize,
    pub total_fields: usize,
    /// The format the buffer was parsed as.
    pub format: LogFormat,
    /// The buffers that the batches point into, where the parse owns them:
    /// one per batch for a stream, none for a buffer of the caller's.
    pub _backing_data: Vec<Vec<u8>>,
}

/// The records in `batches`, all told.
pub open spec fn records_in(batches: Seq<StructuredBatch>) -> nat
    decreases batches.len(),
{
    if batches.len() == 0 {
        0
    } else {
        records_in(batches.drop_last()) + batches.last().len as nat
    }
}

/// The fields in `batches`, all told.
pub open spec fn fields_in(batches: Seq<StructuredBatch>) -> nat
    decreases batches.len(),
{
    if batches.len() == 0 {
        0
    } else {
        fields_in(batches.drop_last()) + batches.last().fields@.len()
    }
}

/// `n`, or the largest `usize` if `n` is larger.
pub open spec fn clamped(n: nat) -> usize {
    if n > usize::MAX {
        usize::MAX
    } else {
        n as usize
    }
}

/// The record views of `batches` one after the other.
pub open spec fn all_records(batches: Seq<StructuredBatch>) -> Seq<RecordView>
    decreases batches.len(),
{
    if batches.len() == 0 {
        Seq::empty()
    } else {
        all_records(batches.drop_last()) + batches.last()@
    }
}

impl StructuredPipelineResult {
    /// The totals are those of the batches.
    pub open spec fn totals_agree(&self) -> bool {
        &&& self.total_records == clamped(records_in(self.batches@))
        &&& self.total_fields == clamped(fields_in(self.batches@))
    }

    /// The result of parsing nothing.
    pub fn empty(format: LogFormat) -> (r: Self)
        ensures
            r.batches@.len() == 0,
            r._backing_data@.len() == 0,
            r.total_records == 0,
            r.total_fields == 0,
            r.format == format,
            r.totals_agree(),
    {
        StructuredPipelineResult {
            batches: Vec::new(),
            total_records: 0,
            total_fields: 0,
            format,
            _backing_data: Vec::new(),
        }
    }
}

/// The columns of a header that is lent out, if there is one.
pub open spec fn view_of(header: Option<&CsvHeader>) -> Option<HeaderView> {
    match header {
        Some(h) => Some(h@),
        None => None,
    }
}

/// How a format cuts its lines.
pub open spec fn style_of(format: LogFormat) -> LineStyle {
    match format {
        LogFormat::Csv => csv_style(),
        _ => structured_style(),
    }
}

/// What a format makes of one line. Plain text is read as logfmt; CSV
/// without a header makes nothing of any line.
pub open spec fn per_line_of(format: LogFormat, header: Option<HeaderView>) -> spec_fn(
    Seq<u8>,
    int,
) -> Seq<RecordView> {
    match format {
        LogFormat::Json => json_line(),
        LogFormat::Csv => match header {
            Some(h) => csv_line(h.columns, h.kinds),
            None => |line: Seq<u8>, base: int| Seq::<RecordView>::empty(),
        },
        _ => logfmt_line(),
    }
}

/// The records of the chunk `start..end` of `data`: what the format makes of
/// each of its lines, in order.
pub open spec fn chunk_records(
    data: Seq<u8>,
    start: int,
    end: int,
    format: LogFormat,
    header: Option<HeaderView>,
) -> Seq<RecordView> {
    chunk_map(data, start, end, style_of(format), per_line_of(format, header))
}

/// The chunk can be told in the 32-bit columns of a batch: it is shorter
/// than `u32::MAX` bytes, and for CSV its lines times the columns of the
/// header stay below `u32::MAX` fields.
pub open spec fn chunk_fits(
    data: Seq<u8>,
    start: int,
    end: int,
    format: LogFormat,
    header: Option<HeaderView>,
) -> bool {
    &&& end - start < u32::MAX
    &&& format == LogFormat::Csv ==> match header {
        Some(h) => (chunk_starts(data, start, end).len() - 1) * h.columns.len() < u32::MAX,
        None => true,
    }
}

/// The header, if there is one, is well formed and its names lie inside a
/// buffer of `buffer_len` bytes.
pub open spec fn header_ok(header: Option<&CsvHeader>, buffer_len: int) -> bool {
    match header {
        Some(h) => h.wf() && h.within(buffer_len),
        None => true,
    }
}

/// Without a header no line of a chunk gives a record.
proof fn lemma_headerless(data: Seq<u8>, starts: Seq<u64>, to: int)
    ensures
        lines_map(
            data,
            starts,
            0,
            to,
            csv_style(),
            per_line_of(LogFormat::Csv, None),
        ) == Seq::<RecordView>::empty(),
    decreases to,
{
    if to > 0 {
        lemma_headerless(data, starts, to - 1);
    }
}

/// The starts cut whole lines out of the buffer: there is at least one, they
/// never step down, and the last lies inside the buffer.
pub open spec fn starts_sound(data: Seq<u8>, starts: Seq<u64>) -> bool {
    &&& starts.len() >= 1
    &&& starts_sorted(starts, 0, starts.len() - 1)
    &&& starts.last() <= data.len()
}

/// The lines that `starts` cut out of `data` can be parsed into one batch:
/// the starts are sound, the header is in order, the lines span less than
/// `u32::MAX` bytes, and for CSV the lines times the columns of the header
/// stay below `u32::MAX` fields.
pub open spec fn scanned_fits(
    data: Seq<u8>,
    starts: Seq<u64>,
    format: LogFormat,
    header: Option<&CsvHeader>,
) -> bool {
    &&& starts_sound(data, starts)
    &&& header_ok(header, data.len() as int)
    &&& starts.last() - starts[0] < u32::MAX
    &&& format == LogFormat::Csv ==> match header {
        Some(h) => (starts.len() - 1) * h.columns@.len() < u32::MAX,
        None => true,
    }
}

fn starts_are_sound(data: &[u8], line_starts: &[u64]) -> (ok: bool)
    ensures
        ok == starts_sound(data@, line_starts@),
{
    let count: usize = line_starts.len();
    if count == 0 {
        return false;
    }
    let mut k: usize = 1;
    while k < count
        invariant
            1 <= k <= count == line_starts@.len(),
            starts_sorted(line_starts@, 0, k - 1),
        decreases count - k,
    {
        if line_starts[k - 1] > line_starts[k] {
            return false;
        }
        proof {
            assert forall|i: int, j: int|
                0 <= i <= j <= k && j < line_starts@.len() implies #[trigger] line_starts@[i]
                <= #[trigger] line_starts@[j] by {
                if j == k && i < k {
                    assert(line_starts@[i] <= line_starts@[k - 1]);
                }
            }
        }
        k += 1;
    }
    line_starts[count - 1] <= data.len() as u64
}

fn header_is_ok(csv_header: Option<&CsvHeader>, buffer_len: usize) -> (ok: bool)
    ensures
        ok == header_ok(csv_header, buffer_len as int),
{
    match csv_header {
        None => true,
        Some(header) => {
            if header.columns.len() != header.well_known.len() {
                return false;
            }
            let mut k: usize = 0;
            while k < header.columns.len()
                invariant
                    csv_header == Some(header),
                    k <= header.columns@.len(),
                    forall|j: int|
                        0 <= j < k ==> (#[trigger] header.columns@[j]).0 + header.columns@[j].1
                            <= buffer_len,
                decreases header.columns@.len() - k,
            {
                let (offset, len) = header.columns[k];
                if offset > buffer_len as u64 || len as u64 > buffer_len as u64 - offset {
                    assert(header.columns@[k as int] == (offset, len));
                    assert(!header.within(buffer_len as int));
                    return false;
                }
                k += 1;
            }
            true
        },
    }
}

/// Parses the lines that `line_starts` cut out of `data` into a batch of
/// their own: line `i` runs from start `i` to the line end before start
/// `i + 1`, so that the last start closes the last line. There is no batch
/// if the lines do not fit.
pub fn parse_scanned_chunk(
    data: &[u8],
    line_starts: &[u64],
    format: LogFormat,
    csv_header: Option<&CsvHeader>,
) -> (r: Option<StructuredBatch>)
    ensures
        r.is_some() <==> scanned_fits(data@, line_starts@, format, csv_header),
        r.is_some() ==> {
            &&& r.unwrap().complete()
            &&& r.unwrap().within(data@.len() as int)
            &&& r.unwrap()@ == lines_map(
                data@,
                line_starts@,
                0,
                line_starts@.len() - 1,
                style_of(format),
                per_line_of(format, view_of(csv_header)),
            )
        },
{
    if !starts_are_sound(data, line_starts) || !header_is_ok(csv_header, data.len()) {
        return None;
    }
    let num_lines: usize = line_starts.len() - 1;
    assert(line_starts@[0] <= line_starts@[num_lines as int]);
    if line_starts[num_lines] - line_starts[0] >= u32::MAX as u64 {
        return None;
    }
    let ghost style = style_of(format);
    proof {
        assert(starts_within(data@, line_starts@, 0, num_lines as int)) by {
            assert forall|k: int|
                0 < k <= num_lines && k < line_starts@.len() implies #[trigger] line_starts@[k]
                <= data@.len() by {
                assert(line_starts@[k] <= line_starts@[num_lines as int]);
            }
        }
        lemma_lines_total_sorted(data@, line_starts@, 0, num_lines as int, style);
    }
    let avg_fields: usize = match format {
        LogFormat::Json => 8,
        LogFormat::Logfmt => 6,
        LogFormat::Csv => match csv_header {
            Some(h) => h.num_columns(),
            None => 4,
        },
        LogFormat::PlainText => 4,
    };
    let field_capacity: usize = match num_lines.checked_mul(avg_fields) {
        Some(n) => n,
        None => usize::MAX,
    };
    let mut batch = StructuredBatch::with_capacity(num_lines, field_capacity);
    assert(batch.within(data@.len() as int));
    match format {
        LogFormat::Json => {
            parse_json_lines_range(data, line_starts, 0, num_lines, &mut batch);
        },
        LogFormat::Logfmt | LogFormat::PlainText => {
            parse_logfmt_lines_range(data, line_starts, 0, num_lines, &mut batch);
        },
        LogFormat::Csv => {
            match csv_header {
                Some(header) => {
                    let fields: Option<usize> = num_lines.checked_mul(header.num_columns());
                    let fits: bool = match fields {
                        Some(n) => n < u32::MAX as usize,
                        None => false,
                    };
                    if !fits {
                        return None;
                    }
                    proof {
                        assert forall|i: int| 0 <= i < num_lines implies (#[trigger] line_bytes(
                            data@,
                            line_starts@,
                            i,
                            csv_style(),
                        )).len() <= u32::MAX by {
                            lemma_lines_total_grows(
                                data@,
                                line_starts@,
                                0,
                                i + 1,
                                num_lines as int,
                                csv_style(),
                            );
                        }
                    }
                    parse_csv_lines_range(data, line_starts, 0, num_lines, header, &mut batch);
                },
                None => {
                    proof {
                        lemma_headerless(data@, line_starts@, num_lines as int);
                    }
                },
            }
        },
    }
    Some(batch)
}

/// Scans and parses the chunk `start..end` of `data` into a batch of its
/// own. There is no batch for a chunk that does not fit.
pub fn parse_structured_chunk(
    data: &[u8],
    start: usize,
    end: usize,
    format: LogFormat,
    csv_header: Option<&CsvHeader>,
) -> (r: Option<StructuredBatch>)
    requires
        start <= end <= data.len(),
        header_ok(csv_header, data@.len() as int),
    ensures
        r.is_some() <==> chunk_fits(data@, start as int, end as int, format, view_of(csv_header)),
        r.is_some() ==> {
            &&& r.unwrap().complete()
            &&& r.unwrap().within(data@.len() as int)
            &&& r.unwrap()@ == chunk_records(
                data@,
                start as int,
                end as int,
                format,
                view_of(csv_header),
            )
        },
{
    if end - start >= u32::MAX as usize {
        return None;
    }
    let line_starts: Vec<u64> = scan_chunk(data, start, end);
    proof {
        lemma_chunk_starts(data@, start as int, end as int);
    }
    parse_scanned_chunk(data, line_starts.as_slice(), format, csv_header)
}

/// Every chunk between the boundaries fits.
pub open spec fn all_chunks_fit(
    data: Seq<u8>,
    bounds: Seq<usize>,
    format: LogFormat,
    header: Option<HeaderView>,
) -> bool {
    forall|c: int|
        0 <= c < bounds.len() - 1 ==> #[trigger] chunk_fits(
            data,
            bounds[c] as int,
            bounds[c + 1] as int,
            format,
            header,
        )
}

/// `batch` is the batch of chunk `c`.
pub open spec fn chunk_parsed(
    batch: StructuredBatch,
    c: int,
    data: Seq<u8>,
    bounds: Seq<usize>,
    format: LogFormat,
    header: Option<HeaderView>,
) -> bool {
    &&& batch.complete()
    &&& batch.within(data.len() as int)
    &&& batch@ == chunk_records(data, bounds[c] as int, bounds[c + 1] as int, format, header)
    &&& chunk_fits(data, bounds[c] as int, bounds[c + 1] as int, format, header)
}

/// The batches are those of the first chunks, one each and in order.
pub open spec fn chunks_parsed(
    batches: Seq<StructuredBatch>,
    data: Seq<u8>,
    bounds: Seq<usize>,
    format: LogFormat,
    header: Option<HeaderView>,
) -> bool {
    forall|c: int|
        0 <= c < batches.len() ==> #[trigger] chunk_parsed(
            batches[c],
            c,
            data,
            bounds,
            format,
            header,
        )
}

/// Adds a batch to the totals.
fn count_batch(
    batch: &StructuredBatch,
    totals: &mut (usize, usize),
    Ghost(before): Ghost<Seq<StructuredBatch>>,
)
    requires
        old(totals).0 == clamped(records_in(before)),
        old(totals).1 == clamped(fields_in(before)),
    ensures
        final(totals).0 == clamped(records_in(before.push(*batch))),
        final(totals).1 == clamped(fields_in(before.push(*batch))),
{
    proof {
        assert(before.push(*batch).drop_last() =~= before);
    }
    totals.0 = totals.0.saturating_add(batch.len);
    totals.1 = totals.1.saturating_add(batch.fields.len());
}

/// Parses the chunks `share_first..share_past`, the share of one worker, in
/// order, appending their batches. Returns whether all of them fit; at the
/// first that does not, the work stops.
fn parse_share(
    data: &[u8],
    boundaries: &Vec<usize>,
    share_first: usize,
    share_past: usize,
    format: LogFormat,
    csv_header: Option<&CsvHeader>,
    batches: &mut Vec<StructuredBatch>,
    totals: &mut (usize, usize),
) -> (all_fit: bool)
    requires
        bounds_ok(boundaries@, data@.len() as int),
        share_first <= share_past <= boundaries@.len() - 1,
        header_ok(csv_header, data@.len() as int),
        old(batches)@.len() == share_first,
        chunks_parsed(old(batches)@, data@, boundaries@, format, view_of(csv_header)),
        old(totals).0 == clamped(records_in(old(batches)@)),
        old(totals).1 == clamped(fields_in(old(batches)@)),
    ensures
        chunks_parsed(final(batches)@, data@, boundaries@, format, view_of(csv_header)),
        final(totals).0 == clamped(records_in(final(batches)@)),
        final(totals).1 == clamped(fields_in(final(batches)@)),
        all_fit ==> final(batches)@.len() == share_past,
        !all_fit ==> !all_chunks_fit(data@, boundaries@, format, view_of(csv_header)),
{
    let mut chunk: usize = share_first;
    while chunk < share_past
        invariant
            bounds_ok(boundaries@, data@.len() as int),
            share_first <= chunk <= share_past <= boundaries@.len() - 1,
            header_ok(csv_header, data@.len() as int),
            batches@.len() == chunk,
            chunks_parsed(batches@, data@, boundaries@, format, view_of(csv_header)),
            totals.0 == clamped(records_in(batches@)),
            totals.1 == clamped(fields_in(batches@)),
        decreases share_past - chunk,
    {
        let start: usize = boundaries[chunk];
        let end: usize = boundaries[chunk + 1];
        proof {
            assert(boundaries@[chunk as int] < boundaries@[chunk + 1]);
            assert(boundaries@[chunk + 1] <= boundaries@[boundaries@.len() - 1]);
        }
        match parse_structured_chunk(data, start, end, format, csv_header) {
            Some(batch) => {
                let ghost before = batches@;
                count_batch(&batch, totals, Ghost(before));
                batches.push(batch);
                proof {
                    assert forall|c: int| 0 <= c < batches@.len() implies #[trigger] chunk_parsed(
                        batches@[c],
                        c,
                        data@,
                        boundaries@,
                        format,
                        view_of(csv_header),
                    ) by {
                        if c < before.len() {
                            assert(chunk_parsed(
                                before[c],
                                c,
                                data@,
                                boundaries@,
                                format,
                                view_of(csv_header),
                            ));
                        }
                    }
                }
            },
            None => {
                proof {
                    assert(!chunk_fits(
                        data@,
                        boundaries@[chunk as int] as int,
                        boundaries@[chunk + 1] as int,
                        format,
                        view_of(csv_header),
                    ));
                }
                return false;
            },
        }
        chunk += 1;
    }
    true
}

/// What `parse_format_mmap` returns on `data[first..]`: one batch per chunk,
/// in the order of the chunks, if every chunk fits, and nothing otherwise.
pub open spec fn format_parsed(
    data: Seq<u8>,
    first: int,
    chunk_size: int,
    format: LogFormat,
    header: Option<HeaderView>,
    r: Option<StructuredPipelineResult>,
) -> bool {
    let bounds = boundaries_of(data, first, chunk_size);
    match r {
        Some(result) => {
            &&& all_chunks_fit(data, bounds, format, header)
            &&& result.format == format
            &&& result.totals_agree()
            &&& result._backing_data@.len() == 0
            &&& result.batches@.len() == bounds.len() - 1
            &&& chunks_parsed(result.batches@, data, bounds, format, header)
        },
        None => !all_chunks_fit(data, bounds, format, header),
    }
}

/// Parses `data[first..]` as `format`. The buffer is cut into chunks of whole
/// lines; the chunks are shared out among the workers, each worker parses
/// its share in order, and the batches are put together in the order of the
/// workers, which is the order of the chunks. There is no result if a chunk
/// does not fit.
pub fn parse_format_mmap(
    data: &[u8],
    first: usize,
    num_threads: usize,
    chunk_size: usize,
    format: LogFormat,
    csv_header: Option<&CsvHeader>,
) -> (r: Option<StructuredPipelineResult>)
    requires
        first <= data.len(),
        chunk_size >= 1,
        header_ok(csv_header, data@.len() as int),
    ensures
        format_parsed(
            data@,
            first as int,
            chunk_size as int,
            format,
            view_of(csv_header),
            r,
        ),
{
    let boundaries: Vec<usize> = chunk_boundaries(data, first, chunk_size);
    proof {
        lemma_bounds_ok(data@, first as int, chunk_size as int);
    }
    let num_chunks: usize = boundaries.len() - 1;
    let workers: usize = worker_threads(num_threads, num_chunks);
    proof {
        lemma_shares_tile(num_chunks as int, workers as int);
    }
    let mut batches: Vec<StructuredBatch> = Vec::new();
    let mut totals: (usize, usize) = (0, 0);
    let mut worker: usize = 0;
    while worker < workers
        invariant
            worker <= workers,
            workers >= 1,
            header_ok(csv_header, data@.len() as int),
            boundaries@ == boundaries_of(data@, first as int, chunk_size as int),
            bounds_ok(boundaries@, data@.len() as int),
            num_chunks == boundaries@.len() - 1,
            shares_tile(num_chunks as int, workers as int),
            batches@.len() == share_start(worker as int, num_chunks as int, workers as int),
            chunks_parsed(batches@, data@, boundaries@, format, view_of(csv_header)),
            totals.0 == clamped(records_in(batches@)),
            totals.1 == clamped(fields_in(batches@)),
        decreases workers - worker,
    {
        let (share_first, share_past) = worker_chunks(worker, num_chunks, workers);
        let all_fit: bool = parse_share(
            data,
            &boundaries,
            share_first,
            share_past,
            format,
            csv_header,
            &mut batches,
            &mut totals,
        );
        if !all_fit {
            return None;
        }
        worker += 1;
    }
    proof {
        assert forall|c: int| 0 <= c < boundaries@.len() - 1 implies #[trigger] chunk_fits(
            data@,
            boundaries@[c] as int,
            boundaries@[c + 1] as int,
            format,
            view_of(csv_header),
        ) by {
            assert(chunk_parsed(
                batches@[c],
                c,
                data@,
                boundaries@,
                format,
                view_of(csv_header),
            ));
        }
    }
    Some(
        StructuredPipelineResult {
            batches,
            total_records: totals.0,
            total_fields: totals.1,
            format,
            _backing_data: Vec::new(),
        },
    )
}

/// The records of `data[first..]` read as one chunk.
pub open spec fn buffer_records(
    data: Seq<u8>,
    first: int,
    format: LogFormat,
    header: Option<HeaderView>,
) -> Seq<RecordView> {
    chunk_records(data, first, data.len() as int, format, header)
}

proof fn lemma_all_records_of_chunks(
    batches: Seq<StructuredBatch>,
    data: Seq<u8>,
    bounds: Seq<usize>,
    format: LogFormat,
    header: Option<HeaderView>,
)
    requires
        chunks_parsed(batches, data, bounds, format, header),
    ensures
        all_records(batches) == chunks_map(
            data,
            bounds,
            batches.len() as int,
            style_of(format),
            per_line_of(format, header),
        ),
        records_in(batches) == all_records(batches).len(),
    decreases batches.len(),
{
    if batches.len() > 0 {
        let front = batches.drop_last();
        assert forall|c: int| 0 <= c < front.len() implies #[trigger] chunk_parsed(
            front[c],
            c,
            data,
            bounds,
            format,
            header,
        ) by {
            assert(chunk_parsed(batches[c], c, data, bounds, format, header));
        }
        lemma_all_records_of_chunks(front, data, bounds, format, header);
        assert(chunk_parsed(batches.last(), batches.len() - 1, data, bounds, format, header));
    }
}

/// Cutting into chunks changes nothing: the records of the batches of a
/// parse, in order, are the records of the buffer read as one chunk,
/// whatever the size of the chunks and the number of workers.
pub proof fn lemma_parse_gives_buffer_records(
    data: Seq<u8>,
    first: int,
    chunk_size: int,
    format: LogFormat,
    header: Option<HeaderView>,
    result: StructuredPipelineResult,
)
    requires
        0 <= first <= data.len(),
        data.len() <= usize::MAX,
        chunk_size >= 1,
        format_parsed(data, first, chunk_size, format, header, Some(result)),
    ensures
        all_records(result.batches@) == buffer_records(data, first, format, header),
        records_in(result.batches@) == buffer_records(data, first, format, header).len(),
{
    let bounds = boundaries_of(data, first, chunk_size);
    lemma_boundaries_at_line_starts(data, first, chunk_size);
    lemma_all_records_of_chunks(result.batches@, data, bounds, format, header);
    lemma_chunks_map(
        data,
        bounds,
        bounds.len() - 1,
        style_of(format),
        per_line_of(format, header),
    );
}

/// The number of workers changes nothing: two parses of one buffer with
/// chunks of one size either both fail, or give batch for batch the same
/// records and the same totals.
pub proof fn lemma_workers_do_not_matter(
    data: Seq<u8>,
    first: int,
    chunk_size: int,
    format: LogFormat,
    header: Option<HeaderView>,
    one: Option<StructuredPipelineResult>,
    other: Option<StructuredPipelineResult>,
)
    requires
        format_parsed(data, first, chunk_size, format, header, one),
        format_parsed(data, first, chunk_size, format, header, other),
    ensures
        one.is_some() == other.is_some(),
        one.is_some() ==> {
            &&& views_of(one.unwrap().batches@) == views_of(other.unwrap().batches@)
            &&& all_records(one.unwrap().batches@) == all_records(other.unwrap().batches@)
            &&& records_in(one.unwrap().batches@) == records_in(other.unwrap().batches@)
            &&& one.unwrap().total_records == other.unwrap().total_records
            &&& one.unwrap().format == other.unwrap().format
        },
{
    if one.is_some() {
        let a = one.unwrap().batches@;
        let b = other.unwrap().batches@;
        let bounds = boundaries_of(data, first, chunk_size);
        assert forall|c: int| 0 <= c < a.len() implies views_of(a)[c] == views_of(b)[c] by {
            assert(chunk_parsed(a[c], c, data, bounds, format, header));
            assert(chunk_parsed(b[c], c, data, bounds, format, header));
        }
        assert(views_of(a) =~= views_of(b));
        lemma_all_records_of_chunks(a, data, bounds, format, header);
        lemma_all_records_of_chunks(b, data, bounds, format, header);
    }
}

/// What a line says under a format, read from the line itself. The names of
/// CSV columns are read from `data`, the buffer that the header points into.
pub open spec fn text_line_of(format: LogFormat, header: Option<HeaderView>, data: Seq<u8>)
    -> spec_fn(Seq<u8>) -> Seq<ResolvedRecord> {
    match format {
        LogFormat::Json => json_text_line(),
        LogFormat::Csv => match header {
            Some(h) => csv_text_line(column_names(h.columns, data), h.kinds),
            None => |line: Seq<u8>| Seq::<ResolvedRecord>::empty(),
        },
        _ => logfmt_text_line(),
    }
}

/// The records of `batches` one after the other, each batch read from its
/// buffer.
pub open spec fn resolved_in(batches: Seq<StructuredBatch>, buffers: Seq<Seq<u8>>) -> Seq<
    ResolvedRecord,
>
    decreases batches.len(),
{
    if batches.len() == 0 {
        Seq::empty()
    } else {
        resolved_in(batches.drop_last(), buffers.drop_last()) + batches.last()@.map_values(
            resolver(buffers.last()),
        )
    }
}

/// Read from its buffer, a chunk that fits gives what its lines say,
/// whatever stands around it.
pub proof fn lemma_chunk_resolved(
    data: Seq<u8>,
    start: int,
    end: int,
    format: LogFormat,
    header: Option<HeaderView>,
)
    requires
        0 <= start <= end <= data.len(),
        data.len() <= u64::MAX,
        end - start <= u32::MAX,
    ensures
        chunk_records(data, start, end, format, header).map_values(resolver(data)) == each_line(
            data.subrange(start, end),
            true,
            text_line_of(format, header, data),
        ),
{
    let starts = chunk_starts(data, start, end);
    let per_line = per_line_of(format, header);
    let read = converted(per_line, resolver(data));
    let said = text_line_of(format, header, data);
    lemma_lines_map_converted(
        data,
        starts,
        0,
        starts.len() - 1,
        style_of(format),
        per_line,
        resolver(data),
    );
    assert forall|s: int, e: int| start <= s < e <= end implies #[trigger] read(
        data.subrange(s, e),
        s,
    ) == said(data.subrange(s, e)) by {
        match format {
            LogFormat::Json => {
                lemma_json_line_anywhere(data, s, e);
            },
            LogFormat::Csv => {
                match header {
                    Some(h) => {
                        lemma_csv_line_anywhere(data, s, e, h.columns, h.kinds);
                    },
                    None => {
                        assert(Seq::<RecordView>::empty().map_values(resolver(data))
                            =~= Seq::<ResolvedRecord>::empty());
                    },
                }
            },
            _ => {
                lemma_logfmt_line_anywhere(data, s, e);
            },
        }
    }
    lemma_chunk_is_its_lines(data, start, end, style_of(format), read, said);
}

/// The bytes of the chunks between `bounds`, chunk by chunk.
pub open spec fn chunk_bytes_of(data: Seq<u8>, bounds: Seq<usize>) -> Seq<Seq<u8>> {
    Seq::new(
        (bounds.len() - 1) as nat,
        |c: int| data.subrange(bounds[c] as int, bounds[c + 1] as int),
    )
}

proof fn lemma_resolved_chunks(
    batches: Seq<StructuredBatch>,
    data: Seq<u8>,
    bounds: Seq<usize>,
    count: int,
    format: LogFormat,
    header: Option<HeaderView>,
)
    requires
        data.len() <= u64::MAX,
        0 <= count <= bounds.len() - 1,
        batches.len() == count,
        chunks_parsed(batches, data, bounds, format, header),
        forall|c: int, d: int| 0 <= c <= d < bounds.len() ==> bounds[c] <= bounds[d],
        bounds.last() <= data.len(),
    ensures
        resolved_in(batches, Seq::new(count as nat, |k: int| data)) == each_part(
            chunk_bytes_of(data, bounds).take(count),
            true,
            text_line_of(format, header, data),
        ),
    decreases count,
{
    let buffers = Seq::new(count as nat, |k: int| data);
    let parts = chunk_bytes_of(data, bounds).take(count);
    if count > 0 {
        let front = batches.drop_last();
        assert forall|c: int| 0 <= c < front.len() implies #[trigger] chunk_parsed(
            front[c],
            c,
            data,
            bounds,
            format,
            header,
        ) by {
            assert(chunk_parsed(batches[c], c, data, bounds, format, header));
        }
        lemma_resolved_chunks(front, data, bounds, count - 1, format, header);
        assert(buffers.drop_last() =~= Seq::new((count - 1) as nat, |k: int| data));
        assert(parts.drop_last() =~= chunk_bytes_of(data, bounds).take(count - 1));
        assert(chunk_parsed(batches.last(), count - 1, data, bounds, format, header));
        assert(bounds[count - 1] <= bounds[count] <= bounds[bounds.len() - 1]);
        lemma_chunk_resolved(
            data,
            bounds[count - 1] as int,
            bounds[count] as int,
            format,
            header,
        );
        assert(parts.last() == data.subrange(bounds[count - 1] as int, bounds[count] as int));
    }
}

proof fn lemma_chunk_bytes_joined(data: Seq<u8>, bounds: Seq<usize>, count: int)
    requires
        0 <= count <= bounds.len() - 1,
        forall|c: int, d: int| 0 <= c <= d < bounds.len() ==> bounds[c] <= bounds[d],
        bounds.last() <= data.len(),
    ensures
        joined(chunk_bytes_of(data, bounds).take(count)) == data.subrange(
            bounds[0] as int,
            bounds[count] as int,
        ),
    decreases count,
{
    let parts = chunk_bytes_of(data, bounds).take(count);
    assert(bounds[0] <= bounds[count] <= bounds[bounds.len() - 1]);
    if count == 0 {
        assert(data.subrange(bounds[0] as int, bounds[0] as int) =~= Seq::<u8>::empty());
    } else {
        lemma_chunk_bytes_joined(data, bounds, count - 1);
        assert(parts.drop_last() =~= chunk_bytes_of(data, bounds).take(count - 1));
        assert(bounds[0] <= bounds[count - 1] <= bounds[count]);
        assert(data.subrange(bounds[0] as int, bounds[count - 1] as int) + data.subrange(
            bounds[count - 1] as int,
            bounds[count] as int,
        ) =~= data.subrange(bounds[0] as int, bounds[count] as int));
    }
}

/// Read from the buffer, the records of a parse are what the lines of the
/// buffer say, in order.
pub proof fn lemma_parse_resolved(
    data: Seq<u8>,
    first: int,
    chunk_size: int,
    format: LogFormat,
    header: Option<HeaderView>,
    result: StructuredPipelineResult,
)
    requires
        0 <= first <= data.len(),
        data.len() <= usize::MAX,
        chunk_size >= 1,
        format_parsed(data, first, chunk_size, format, header, Some(result)),
    ensures
        resolved_in(
            result.batches@,
            Seq::new(result.batches@.len(), |k: int| data),
        ) == each_line(
            data.subrange(first, data.len() as int),
            true,
            text_line_of(format, header, data),
        ),
{
    let bounds = boundaries_of(data, first, chunk_size);
    let count = bounds.len() - 1;
    lemma_boundaries_at_line_starts(data, first, chunk_size);
    lemma_resolved_chunks(result.batches@, data, bounds, count, format, header);
    let parts = chunk_bytes_of(data, bounds);
    assert(parts.take(count) =~= parts);
    lemma_chunk_bytes_joined(data, bounds, count);
    lemma_chunk_parts_whole(data, first, chunk_size);
    lemma_each_part(parts, true, text_line_of(format, header, data));
}

/// Every chunk but the last ends with a newline.
proof fn lemma_chunk_parts_whole(data: Seq<u8>, first: int, chunk_size: int)
    requires
        0 <= first <= data.len(),
        data.len() <= usize::MAX,
        chunk_size >= 1,
    ensures
        forall|k: int|
            0 <= k < chunk_bytes_of(data, boundaries_of(data, first, chunk_size)).len() - 1
                ==> whole_lines(
                #[trigger] chunk_bytes_of(data, boundaries_of(data, first, chunk_size))[k],
            ),
{
    let bounds = boundaries_of(data, first, chunk_size);
    let parts = chunk_bytes_of(data, bounds);
    crate::chunks::lemma_boundaries(data, first, chunk_size);
    assert forall|k: int| 0 <= k < parts.len() - 1 implies whole_lines(#[trigger] parts[k]) by {
        let b = bounds[k + 1];
        assert(first < b <= data.len());
        assert(bounds[k + 1] < bounds[k + 2]);
        assert(bounds[k] < bounds[k + 1]);
        assert(parts[k] == data.subrange(bounds[k] as int, bounds[k + 1] as int));
        assert(parts[k].last() == data[bounds[k + 1] - 1]);
    }
}

/// The records stand in the order of the buffer, one whole line each: the
/// line of every record is a whole line of `data` at or after `lo`, it ends
/// before `hi` or with the buffer, and every record's line ends before the
/// line of the next begins. So no line is split, left out of order or
/// told twice.
pub open spec fn in_file_order(data: Seq<u8>, records: Seq<RecordView>, lo: int, hi: int) -> bool {
    &&& forall|k: int|
        0 <= k < records.len() ==> {
            let r = #[trigger] records[k];
            &&& lo <= r.line_offset
            &&& whole_line(data, r.line_offset as int, r.line_offset + r.line_len)
            &&& r.line_offset + r.line_len < hi || (hi == data.len() && r.line_offset + r.line_len
                <= hi)
        }
    &&& forall|k: int, m: int|
        0 <= k < m < records.len() ==> (#[trigger] records[k]).line_offset + records[k].line_len
            < (#[trigger] records[m]).line_offset
}

/// What a format makes of a line is at most one record, and that record
/// names the line.
proof fn lemma_record_names_line(
    format: LogFormat,
    header: Option<HeaderView>,
    line: Seq<u8>,
    base: int,
)
    requires
        0 <= base,
        base + line.len() <= u64::MAX,
        line.len() <= u32::MAX,
    ensures
        per_line_of(format, header)(line, base).len() <= 1,
        forall|k: int|
            0 <= k < per_line_of(format, header)(line, base).len() ==> {
                let r = #[trigger] per_line_of(format, header)(line, base)[k];
                r.line_offset == base && r.line_len == line.len()
            },
{
}

/// The records of the first `to` lines of a chunk stand in the order of the
/// buffer.
proof fn lemma_lines_in_file_order(
    data: Seq<u8>,
    start: int,
    end: int,
    format: LogFormat,
    header: Option<HeaderView>,
    to: int,
)
    requires
        cut_at_lines(data, start, end),
        data.len() <= u64::MAX,
        end - start <= u32::MAX,
        0 <= to <= chunk_starts(data, start, end).len() - 1,
    ensures
        in_file_order(
            data,
            lines_map(
                data,
                chunk_starts(data, start, end),
                0,
                to,
                style_of(format),
                per_line_of(format, header),
            ),
            start,
            chunk_starts(data, start, end)[to] as int,
        ),
    decreases to,
{
    let starts = chunk_starts(data, start, end);
    let style = style_of(format);
    let per_line = per_line_of(format, header);
    let all = lines_map(data, starts, 0, to, style, per_line);
    lemma_chunk_starts(data, start, end);
    if to > 0 {
        lemma_lines_in_file_order(data, start, end, format, header, to - 1);
        let before = lines_map(data, starts, 0, to - 1, style, per_line);
        assert(starts[to - 1] <= starts[to]);
        assert(starts[to] <= data.len());
        match line_span(data, starts, to - 1, style) {
            Some((from, past)) => {
                lemma_chunk_line_whole(data, start, end, style, to - 1);
                let line = data.subrange(from, past);
                let here = per_line(line, from);
                lemma_record_names_line(format, header, line, from);
                assert(all == before + here);
                assert forall|k: int| 0 <= k < all.len() implies {
                    let r = #[trigger] all[k];
                    &&& start <= r.line_offset
                    &&& whole_line(data, r.line_offset as int, r.line_offset + r.line_len)
                    &&& r.line_offset + r.line_len < starts[to] || (starts[to] == data.len()
                        && r.line_offset + r.line_len <= starts[to])
                } by {
                    if k < before.len() {
                        assert(all[k] == before[k]);
                    } else {
                        assert(all[k] == here[k - before.len()]);
                    }
                }
                assert forall|k: int, m: int| 0 <= k < m < all.len() implies (
                #[trigger] all[k]).line_offset + all[k].line_len < (
                #[trigger] all[m]).line_offset by {
                    assert(all[k] == before[k]);
                    if m < before.len() {
                        assert(all[m] == before[m]);
                    } else {
                        assert(all[m] == here[m - before.len()]);
                    }
                }
            },
            None => {
                assert(all =~= before);
            },
        }
    }
}

/// The records of a chunk that is cut at lines stand in the order of the
/// buffer, one whole line each.
pub proof fn lemma_chunk_in_file_order(
    data: Seq<u8>,
    start: int,
    end: int,
    format: LogFormat,
    header: Option<HeaderView>,
)
    requires
        cut_at_lines(data, start, end),
        data.len() <= u64::MAX,
        end - start <= u32::MAX,
    ensures
        in_file_order(data, chunk_records(data, start, end, format, header), start, end),
{
    lemma_chunk_starts(data, start, end);
    lemma_lines_in_file_order(
        data,
        start,
        end,
        format,
        header,
        chunk_starts(data, start, end).len() - 1,
    );
}

/// Records in the order of the buffer up to `mid`, followed by records in
/// that order from `mid` on, are in the order of the buffer.
proof fn lemma_file_order_joins(
    data: Seq<u8>,
    front: Seq<RecordView>,
    back: Seq<RecordView>,
    lo: int,
    mid: int,
    hi: int,
)
    requires
        lo <= mid <= hi <= data.len(),
        in_file_order(data, front, lo, mid),
        in_file_order(data, back, mid, hi),
    ensures
        in_file_order(data, front + back, lo, hi),
{
    let all = front + back;
    assert forall|k: int| 0 <= k < all.len() implies {
        let r = #[trigger] all[k];
        &&& lo <= r.line_offset
        &&& whole_line(data, r.line_offset as int, r.line_offset + r.line_len)
        &&& r.line_offset + r.line_len < hi || (hi == data.len() && r.line_offset + r.line_len
            <= hi)
    } by {
        if k < front.len() {
            assert(all[k] == front[k]);
        } else {
            assert(all[k] == back[k - front.len()]);
        }
    }
    assert forall|k: int, m: int| 0 <= k < m < all.len() implies (#[trigger] all[k]).line_offset
        + all[k].line_len < (#[trigger] all[m]).line_offset by {
        if m < front.len() {
            assert(all[k] == front[k]);
            assert(all[m] == front[m]);
        } else if k >= front.len() {
            assert(all[k] == back[k - front.len()]);
            assert(all[m] == back[m - front.len()]);
        } else {
            assert(all[k] == front[k]);
            assert(all[m] == back[m - front.len()]);
            let r = back[m - front.len()];
            assert(whole_line(data, r.line_offset as int, r.line_offset + r.line_len));
        }
    }
}

/// The records of the first `count` batches of a parse stand in the order
/// of the buffer.
proof fn lemma_batches_in_file_order(
    data: Seq<u8>,
    first: int,
    chunk_size: int,
    format: LogFormat,
    header: Option<HeaderView>,
    batches: Seq<StructuredBatch>,
    count: int,
)
    requires
        cut_at_lines(data, first, data.len() as int),
        data.len() <= usize::MAX,
        chunk_size >= 1,
        0 <= count <= batches.len() <= boundaries_of(data, first, chunk_size).len() - 1,
        chunks_parsed(batches, data, boundaries_of(data, first, chunk_size), format, header),
    ensures
        in_file_order(
            data,
            all_records(batches.take(count)),
            first,
            boundaries_of(data, first, chunk_size)[count] as int,
        ),
    decreases count,
{
    let bounds = boundaries_of(data, first, chunk_size);
    lemma_boundaries(data, first, chunk_size);
    if count > 0 {
        lemma_batches_in_file_order(data, first, chunk_size, format, header, batches, count - 1);
        let front = batches.take(count - 1);
        let batch = batches[count - 1];
        assert(batches.take(count).drop_last() =~= front);
        assert(batches.take(count).last() == batch);
        assert(chunk_parsed(batch, count - 1, data, bounds, format, header));
        let start = bounds[count - 1] as int;
        let end = bounds[count] as int;
        assert(start < end);
        assert(first <= start) by {
            if count - 1 > 0 {
                assert(bounds[0] < bounds[count - 1]);
            }
        }
        assert(cut_at_lines(data, start, end));
        lemma_chunk_in_file_order(data, start, end, format, header);
        lemma_file_order_widens(data, batch@, start, first, end);
        lemma_file_order_joins(data, all_records(front), batch@, first, start, end);
    }
}

/// Records in the order of the buffer from `lo` on are so from any place
/// before `lo` on.
proof fn lemma_file_order_widens(
    data: Seq<u8>,
    records: Seq<RecordView>,
    lo: int,
    lower: int,
    hi: int,
)
    requires
        lower <= lo,
        in_file_order(data, records, lo, hi),
    ensures
        in_file_order(data, records, lower, hi),
{
}

/// The records of a parse come in the order of the buffer, one whole line
/// each: the line of every record begins the records' part of the buffer or
/// follows a newline, holds no newline, and ends the buffer or stands in
/// front of its line ending; and through the batches in order, every line
/// ends before the next begins. No line is split between two chunks, none is
/// told twice, and none comes out of order, whatever the size of the chunks
/// and the number of workers.
pub proof fn lemma_records_in_file_order(
    data: Seq<u8>,
    first: int,
    chunk_size: int,
    format: LogFormat,
    header: Option<HeaderView>,
    result: StructuredPipelineResult,
)
    requires
        cut_at_lines(data, first, data.len() as int),
        data.len() <= usize::MAX,
        chunk_size >= 1,
        format_parsed(data, first, chunk_size, format, header, Some(result)),
    ensures
        in_file_order(data, all_records(result.batches@), first, data.len() as int),
{
    let batches = result.batches@;
    lemma_boundaries(data, first, chunk_size);
    lemma_batches_in_file_order(
        data,
        first,
        chunk_size,
        format,
        header,
        batches,
        batches.len() as int,
    );
    assert(batches.take(batches.len() as int) =~= batches);
}

/// Whether a line with bytes gives a record: a JSON line unless it is all
/// whitespace, a logfmt line unless it is blank, any CSV line under a
/// header.
pub open spec fn gives_record(format: LogFormat, header: Option<HeaderView>) -> spec_fn(
    Seq<u8>,
) -> bool {
    match format {
        LogFormat::Json => |line: Seq<u8>| !whitespace_line(line),
        LogFormat::Csv => |line: Seq<u8>| header.is_some(),
        _ => |line: Seq<u8>| !blank_line(line),
    }
}

/// A parse gives one record for every line that gives a record, counting a
/// last line without a newline.
pub proof fn lemma_record_count(
    data: Seq<u8>,
    first: int,
    chunk_size: int,
    format: LogFormat,
    header: Option<HeaderView>,
    result: StructuredPipelineResult,
)
    requires
        0 <= first <= data.len(),
        data.len() <= usize::MAX,
        chunk_size >= 1,
        format_parsed(data, first, chunk_size, format, header, Some(result)),
    ensures
        records_in(result.batches@) == lines_with(
            data,
            chunk_starts(data, first, data.len() as int),
            0,
            chunk_starts(data, first, data.len() as int).len() - 1,
            style_of(format),
            gives_record(format, header),
        ),
        result.total_records == records_in(result.batches@),
{
    lemma_parse_gives_buffer_records(data, first, chunk_size, format, header, result);
    let starts = chunk_starts(data, first, data.len() as int);
    let per_line = per_line_of(format, header);
    let counts = gives_record(format, header);
    assert forall|line: Seq<u8>, base: int| line.len() > 0 implies (#[trigger] per_line(
        line,
        base,
    )).len() == if counts(line) {
        1nat
    } else {
        0nat
    } by {}
    lemma_chunk_starts(data, first, data.len() as int);
    lemma_lines_map_counts(data, starts, 0, starts.len() - 1, style_of(format), per_line, counts);
    crate::lines::lemma_lines_with_bound(
        data,
        starts,
        0,
        starts.len() - 1,
        style_of(format),
        counts,
    );
    lemma_lines_total_sorted(data, starts, 0, starts.len() - 1, style_of(format));
}

/// Where every line with bytes gives a record, a parse gives as many records
/// as the buffer has lines with bytes.
pub proof fn lemma_record_per_line(
    data: Seq<u8>,
    first: int,
    chunk_size: int,
    format: LogFormat,
    header: Option<HeaderView>,
    result: StructuredPipelineResult,
)
    requires
        0 <= first <= data.len(),
        data.len() <= usize::MAX,
        chunk_size >= 1,
        format_parsed(data, first, chunk_size, format, header, Some(result)),
        forall|i: int|
            0 <= i < chunk_starts(data, first, data.len() as int).len() - 1 && line_span(
                data,
                chunk_starts(data, first, data.len() as int),
                i,
                style_of(format),
            ).is_some() ==> gives_record(format, header)(
                #[trigger] line_bytes(
                    data,
                    chunk_starts(data, first, data.len() as int),
                    i,
                    style_of(format),
                ),
            ),
    ensures
        result.total_records == lines_with_bytes(
            data,
            chunk_starts(data, first, data.len() as int),
            0,
            chunk_starts(data, first, data.len() as int).len() - 1,
            style_of(format),
        ),
{
    lemma_record_count(data, first, chunk_size, format, header, result);
    let starts = chunk_starts(data, first, data.len() as int);
    lemma_lines_with_all(
        data,
        starts,
        0,
        starts.len() - 1,
        style_of(format),
        gives_record(format, header),
    );
}

/// Parses a buffer of JSON lines.
pub fn parse_json_mmap(data: &[u8], num_threads: usize, chunk_size: usize) -> (r: Option<
    StructuredPipelineResult,
>)
    requires
        chunk_size >= 1,
    ensures
        format_parsed(data@, 0, chunk_size as int, LogFormat::Json, None, r),
{
    parse_format_mmap(data, 0, num_threads, chunk_size, LogFormat::Json, None)
}

/// Parses a buffer of logfmt lines.
pub fn parse_logfmt_mmap(data: &[u8], num_threads: usize, chunk_size: usize) -> (r: Option<
    StructuredPipelineResult,
>)
    requires
        chunk_size >= 1,
    ensures
        format_parsed(data@, 0, chunk_size as int, LogFormat::Logfmt, None, r),
{
    parse_format_mmap(data, 0, num_threads, chunk_size, LogFormat::Logfmt, None)
}

/// Parses a buffer of CSV: the header from its first line, the records from
/// the lines after it. Key offsets are those of the column names in the
/// header line, value offsets those of the fields; both are offsets into
/// `data`.
pub fn parse_csv_mmap(data: &[u8], num_threads: usize, chunk_size: usize) -> (r: Option<
    StructuredPipelineResult,
>)
    requires
        chunk_size >= 1,
    ensures
        format_parsed(
            data@,
            header_end(data@),
            chunk_size as int,
            LogFormat::Csv,
            header_of(data@),
            r,
        ),
{
    let csv_header: Option<CsvHeader> = CsvHeader::parse(data);
    let data_start: usize = header_end_offset(data);
    parse_format_mmap(
        data,
        data_start,
        num_threads,
        chunk_size,
        LogFormat::Csv,
        csv_header.as_ref(),
    )
}

/// The format that a buffer is parsed as: the hint if there is one, else
/// what detection says; and plain text is read as logfmt.
pub open spec fn format_used(data: Seq<u8>, format_hint: Option<LogFormat>) -> LogFormat {
    let named = match format_hint {
        Some(format) => format,
        None => detect_format(
            data.take(
                if data.len() < DETECT_WINDOW {
                    data.len() as int
                } else {
                    DETECT_WINDOW as int
                },
            ),
        ),
    };
    if named == LogFormat::PlainText {
        LogFormat::Logfmt
    } else {
        named
    }
}

/// What `parse_structured_mmap` returns.
pub open spec fn structured_parsed(
    data: Seq<u8>,
    chunk_mb: int,
    format_hint: Option<LogFormat>,
    r: Option<StructuredPipelineResult>,
) -> bool {
    if data.len() == 0 {
        &&& r.is_some()
        &&& r.unwrap().batches@.len() == 0
        &&& r.unwrap().total_records == 0
        &&& r.unwrap().total_fields == 0
        &&& r.unwrap().format == LogFormat::PlainText
        &&& r.unwrap()._backing_data@.len() == 0
    } else {
        let format = format_used(data, format_hint);
        format_parsed(
            data,
            if format == LogFormat::Csv {
                header_end(data)
            } else {
                0
            },
            crate::chunks::chunk_bytes(chunk_mb),
            format,
            if format == LogFormat::Csv {
                header_of(data)
            } else {
                None
            },
            r,
        )
    }
}

/// What a parse of a whole buffer starts from: the format that the buffer is
/// read as, the header if that format is CSV and the buffer has one, and
/// where the records begin, which is after the header line for CSV and at
/// the start otherwise.
pub fn plan_structured(data: &[u8], format_hint: Option<LogFormat>) -> (r: (
    LogFormat,
    Option<CsvHeader>,
    usize,
))
    ensures
        r.0 == format_used(data@, format_hint),
        r.2 == if r.0 == LogFormat::Csv {
            header_end(data@)
        } else {
            0
        },
        r.2 <= data@.len(),
        held_view(r.1) == if r.0 == LogFormat::Csv {
            header_of(data@)
        } else {
            None
        },
        held_ok(r.1, data@.len() as int),
{
    let named: LogFormat = match format_hint {
        Some(format) => format,
        None => LogFormat::detect(data),
    };
    match named {
        LogFormat::Json => (LogFormat::Json, None, 0),
        LogFormat::Csv => {
            let csv_header: Option<CsvHeader> = CsvHeader::parse(data);
            let data_start: usize = header_end_offset(data);
            (LogFormat::Csv, csv_header, data_start)
        },
        LogFormat::Logfmt => (LogFormat::Logfmt, None, 0),
        LogFormat::PlainText => (LogFormat::Logfmt, None, 0),
    }
}

/// Parses a whole buffer of structured records. The format is `format_hint`
/// or, without a hint, detected from the buffer; chunks are of about
/// `chunk_mb` MiB. An empty buffer gives an empty result. The batches come in
/// the order of the chunks, whatever the number of workers.
pub fn parse_structured_mmap(
    data: &[u8],
    num_threads: usize,
    chunk_mb: usize,
    format_hint: Option<LogFormat>,
) -> (r: Option<StructuredPipelineResult>)
    ensures
        structured_parsed(data@, chunk_mb as int, format_hint, r),
{
    if data.len() == 0 {
        return Some(StructuredPipelineResult::empty(LogFormat::PlainText));
    }
    let (format, csv_header, first) = plan_structured(data, format_hint);
    let chunk_size: usize = chunk_size_for(chunk_mb);
    parse_format_mmap(data, first, num_threads, chunk_size, format, csv_header.as_ref())
}

/// The records of `parse_structured_mmap` come in the order of the buffer,
/// one whole line each, through the batches in order: no line is split,
/// told twice or out of order, whatever the chunk size and the number of
/// workers.
pub proof fn lemma_parse_in_file_order(
    data: Seq<u8>,
    chunk_mb: int,
    format_hint: Option<LogFormat>,
    parsed: StructuredPipelineResult,
)
    requires
        data.len() <= usize::MAX,
        structured_parsed(data, chunk_mb, format_hint, Some(parsed)),
    ensures
        in_file_order(data, all_records(parsed.batches@), 0, data.len() as int),
{
    if data.len() > 0 {
        let format = format_used(data, format_hint);
        let chunk_size = crate::chunks::chunk_bytes(chunk_mb);
        if format == LogFormat::Csv {
            let first = header_end(data);
            lemma_scan_until(data, 0, byte_is(NEWLINE));
            lemma_records_in_file_order(data, first, chunk_size, format, header_of(data), parsed);
            lemma_file_order_widens(
                data,
                all_records(parsed.batches@),
                first,
                0,
                data.len() as int,
            );
        } else {
            lemma_records_in_file_order(data, 0, chunk_size, format, None, parsed);
        }
    }
}

/// Every batch of `parse_structured_mmap` is a sequence of whole records
/// whose lines and fields lie inside the buffer; the field ranges of its
/// records never step down.
pub proof fn lemma_parse_within_buffer(
    data: Seq<u8>,
    chunk_mb: int,
    format_hint: Option<LogFormat>,
    parsed: StructuredPipelineResult,
)
    requires
        structured_parsed(data, chunk_mb, format_hint, Some(parsed)),
    ensures
        forall|b: int|
            0 <= b < parsed.batches@.len() ==> {
                let batch = #[trigger] parsed.batches@[b];
                &&& batch.complete()
                &&& batch.within(data.len() as int)
                &&& forall|r: int|
                    0 <= r < batch.len ==> batch.field_starts@[r] <= #[trigger] batch.field_starts@[r
                        + 1] <= batch.fields@.len()
            },
{
    if data.len() > 0 {
        let format = format_used(data, format_hint);
        let chunk_size = crate::chunks::chunk_bytes(chunk_mb);
        let first = if format == LogFormat::Csv {
            header_end(data)
        } else {
            0
        };
        let header = if format == LogFormat::Csv {
            header_of(data)
        } else {
            None
        };
        let bounds = boundaries_of(data, first, chunk_size);
        assert forall|b: int| 0 <= b < parsed.batches@.len() implies {
            let batch = #[trigger] parsed.batches@[b];
            &&& batch.complete()
            &&& batch.within(data.len() as int)
            &&& forall|r: int|
                0 <= r < batch.len ==> batch.field_starts@[r] <= #[trigger] batch.field_starts@[r
                    + 1] <= batch.fields@.len()
        } by {
            let batch = parsed.batches@[b];
            assert(chunk_parsed(batch, b, data, bounds, format, header));
            assert forall|r: int| 0 <= r < batch.len implies batch.field_starts@[r]
                <= #[trigger] batch.field_starts@[r + 1] <= batch.fields@.len() by {
                crate::structured::lemma_record_ranges_ordered(batch, r);
            }
        }
    }
}

/// The bytes that detection looks at.
pub open spec fn detect_window(data: Seq<u8>) -> Seq<u8> {
    data.take(
        if data.len() < DETECT_WINDOW {
            data.len() as int
        } else {
            DETECT_WINDOW as int
        },
    )
}

/// The columns of a header that is held, if there is one.
pub open spec fn held_view(header: Option<CsvHeader>) -> Option<HeaderView> {
    match header {
        Some(h) => Some(h@),
        None => None,
    }
}

/// The header that is held, if there is one, is well formed and its names
/// lie inside a buffer of `buffer_len` bytes.
pub open spec fn held_ok(header: Option<CsvHeader>, buffer_len: int) -> bool {
    match header {
        Some(h) => h.wf() && h.within(buffer_len),
        None => true,
    }
}

/// What a stream knows between two segments.
pub struct StructuredStream {
    /// The bytes after the last whole line seen so far.
    pub leftover: Vec<u8>,
    /// The format, once a hint or the first bytes have decided it.
    pub format: Option<LogFormat>,
    /// The CSV header, once it has been read, if the stream has one.
    pub csv_header: Option<CsvHeader>,
    /// The header line of a CSV stream with its line end. Every buffer of a
    /// CSV stream begins with it, so that the column names that the batches
    /// point at lie in the buffer that goes with the batch.
    pub header_bytes: Vec<u8>,
    /// The header line has been seen in full.
    pub header_read: bool,
    /// One batch per parsed region, in the order of the stream.
    pub batches: Vec<StructuredBatch>,
    /// For each batch the buffer it points into.
    pub backing_data: Vec<Vec<u8>>,
    pub total_records: usize,
    pub total_fields: usize,
}

/// The state of a stream as a value.
pub struct StreamView {
    pub leftover: Seq<u8>,
    pub format: Option<LogFormat>,
    pub header: Option<HeaderView>,
    pub header_bytes: Seq<u8>,
    pub header_read: bool,
}

/// A buffer to parse from `start` to its end.
pub struct Region {
    pub buffer: Seq<u8>,
    pub start: int,
}

/// One step of a stream: the state after `segment` has come in, and the
/// region to parse, if a whole line has come together.
///
/// The segment is put after what was left over. The first bytes decide the
/// format unless a hint has. A CSV stream first waits for its header line to
/// be whole, reads the header from it and takes the line off. What is there
/// up to the last newline is the region; the rest is left over for the next
/// step. At the end of the stream everything is the region. The buffer of a
/// CSV region begins with the header line.
pub open spec fn stream_step(s: StreamView, segment: Seq<u8>, at_eof: bool) -> (
    StreamView,
    Option<Region>,
) {
    let work = s.leftover + segment;
    if work.len() == 0 {
        (s, None)
    } else {
        let format = match s.format {
            Some(f) => f,
            None => detect_format(detect_window(work)),
        };
        let reads_header = format == LogFormat::Csv && !s.header_read;
        if reads_header && scan_until(work, 0, byte_is(NEWLINE)) >= work.len() && !at_eof {
            (
                StreamView {
                    leftover: work,
                    format: Some(format),
                    header: s.header,
                    header_bytes: s.header_bytes,
                    header_read: s.header_read,
                },
                None,
            )
        } else {
            let header = if reads_header {
                header_of(work)
            } else {
                s.header
            };
            let header_bytes = if reads_header {
                work.take(header_end(work))
            } else {
                s.header_bytes
            };
            let body = if reads_header {
                work.skip(header_end(work))
            } else {
                work
            };
            let cut = complete_end(body, at_eof);
            let next = StreamView {
                leftover: body.skip(cut),
                format: Some(format),
                header,
                header_bytes,
                header_read: s.header_read || reads_header,
            };
            if cut == 0 {
                (next, None)
            } else if format == LogFormat::Csv {
                (
                    next,
                    Some(
                        Region {
                            buffer: header_bytes + body.take(cut),
                            start: header_bytes.len() as int,
                        },
                    ),
                )
            } else {
                (next, Some(Region { buffer: body.take(cut), start: 0 }))
            }
        }
    }
}

/// Every batch is complete and lies inside the buffer that goes with it.
pub open spec fn batches_backed(batches: Seq<StructuredBatch>, backing: Seq<Vec<u8>>) -> bool {
    &&& batches.len() == backing.len()
    &&& forall|k: int|
        0 <= k < batches.len() ==> (#[trigger] batches[k]).complete() && batches[k].within(
            backing[k]@.len() as int,
        )
}

/// What `feed` does to the batches of a stream: if the step gave a region
/// and the region fits, its batch and buffer are added; else nothing is.
pub open spec fn region_stored(
    before: StructuredStream,
    after: StructuredStream,
    region: Option<Region>,
    fits: bool,
) -> bool {
    match region {
        None => fits && after.batches@ == before.batches@ && after.backing_data@
            == before.backing_data@,
        Some(r) => {
            &&& fits == chunk_fits(
                r.buffer,
                r.start,
                r.buffer.len() as int,
                after@.format.unwrap(),
                after@.header,
            )
            &&& !fits ==> after.batches@ == before.batches@ && after.backing_data@
                == before.backing_data@
            &&& fits ==> {
                &&& after.batches@.len() == before.batches@.len() + 1
                &&& after.backing_data@.len() == before.backing_data@.len() + 1
                &&& after.batches@.drop_last() == before.batches@
                &&& after.backing_data@.drop_last() == before.backing_data@
                &&& after.backing_data@.last()@ == r.buffer
                &&& after.batches@.last()@ == chunk_records(
                    r.buffer,
                    r.start,
                    r.buffer.len() as int,
                    after@.format.unwrap(),
                    after@.header,
                )
            }
        },
    }
}

impl StructuredStream {
    pub open spec fn view(&self) -> StreamView {
        StreamView {
            leftover: self.leftover@,
            format: self.format,
            header: held_view(self.csv_header),
            header_bytes: self.header_bytes@,
            header_read: self.header_read,
        }
    }

    /// The header lies inside the header line, every batch has its buffer,
    /// and the totals are those of the batches.
    pub open spec fn wf(&self) -> bool {
        &&& held_ok(self.csv_header, self.header_bytes@.len() as int)
        &&& batches_backed(self.batches@, self.backing_data@)
        &&& self.total_records == clamped(records_in(self.batches@))
        &&& self.total_fields == clamped(fields_in(self.batches@))
    }

    /// A stream that has seen nothing yet.
    pub fn new(format_hint: Option<LogFormat>) -> (r: Self)
        ensures
            r.wf(),
            r@ == (StreamView {
                leftover: Seq::empty(),
                format: format_hint,
                header: None,
                header_bytes: Seq::empty(),
                header_read: false,
            }),
            r.batches@.len() == 0,
            r.backing_data@.len() == 0,
    {
        StructuredStream {
            leftover: Vec::new(),
            format: format_hint,
            csv_header: None,
            header_bytes: Vec::new(),
            header_read: false,
            batches: Vec::new(),
            backing_data: Vec::new(),
            total_records: 0,
            total_fields: 0,
        }
    }

    /// Parses `buffer[start..]` into a batch of its own and keeps the batch
    /// with the buffer. Returns whether the region fit; one that does not is
    /// dropped.
    fn store_region(&mut self, buffer: Vec<u8>, start: usize, format: LogFormat) -> (fits: bool)
        requires
            old(self).wf(),
            start <= buffer@.len(),
            format == LogFormat::Csv ==> old(self).header_bytes@.len() <= buffer@.len(),
        ensures
            final(self).wf(),
            final(self).leftover == old(self).leftover,
            final(self).format == old(self).format,
            final(self).csv_header == old(self).csv_header,
            final(self).header_bytes == old(self).header_bytes,
            final(self).header_read == old(self).header_read,
            fits == chunk_fits(
                buffer@,
                start as int,
                buffer@.len() as int,
                format,
                held_view(old(self).csv_header),
            ),
            !fits ==> final(self).batches@ == old(self).batches@ && final(self).backing_data@
                == old(self).backing_data@,
            fits ==> {
                &&& final(self).batches@.len() == old(self).batches@.len() + 1
                &&& final(self).backing_data@.len() == old(self).backing_data@.len() + 1
                &&& final(self).batches@.drop_last() == old(self).batches@
                &&& final(self).backing_data@.drop_last() == old(self).backing_data@
                &&& final(self).backing_data@.last()@ == buffer@
                &&& final(self).batches@.last()@ == chunk_records(
                    buffer@,
                    start as int,
                    buffer@.len() as int,
                    format,
                    held_view(old(self).csv_header),
                )
            },
    {
        let parsed: Option<StructuredBatch> = if format == LogFormat::Csv {
            parse_structured_chunk(
                buffer.as_slice(),
                start,
                buffer.len(),
                format,
                self.csv_header.as_ref(),
            )
        } else {
            parse_structured_chunk(buffer.as_slice(), start, buffer.len(), format, None)
        };
        match parsed {
            Some(batch) => {
                let ghost before = self.batches@;
                let ghost before_backing = self.backing_data@;
                let mut totals: (usize, usize) = (self.total_records, self.total_fields);
                count_batch(&batch, &mut totals, Ghost(self.batches@));
                self.total_records = totals.0;
                self.total_fields = totals.1;
                self.batches.push(batch);
                self.backing_data.push(buffer);
                proof {
                    assert(self.batches@.drop_last() =~= before);
                    assert(self.backing_data@.drop_last() =~= before_backing);
                    assert forall|k: int| 0 <= k < self.batches@.len() implies (
                    #[trigger] self.batches@[k]).complete() && self.batches@[k].within(
                        self.backing_data@[k]@.len() as int,
                    ) by {
                        if k < before.len() {
                            assert(before[k].complete());
                            assert(self.backing_data@[k] == before_backing[k]);
                        }
                    }
                }
                true
            },
            None => false,
        }
    }

    /// Reads the header of a CSV stream from `work`, which begins with the
    /// whole header line, and keeps the line. Returns where the records
    /// begin.
    fn read_header(&mut self, work: &[u8]) -> (body_start: usize)
        requires
            old(self).wf(),
        ensures
            final(self).wf(),
            body_start == header_end(work@),
            body_start <= work@.len(),
            final(self).header_read,
            final(self).header_bytes@ == work@.take(header_end(work@)),
            held_view(final(self).csv_header) == header_of(work@),
            final(self).leftover == old(self).leftover,
            final(self).format == old(self).format,
            final(self).batches == old(self).batches,
            final(self).backing_data == old(self).backing_data,
    {
        self.csv_header = CsvHeader::parse(work);
        let body_start: usize = header_end_offset(work);
        self.header_bytes = copy_range(work, 0, body_start);
        self.header_read = true;
        proof {
            assert(self.header_bytes@ =~= work@.take(body_start as int));
            lemma_scan_until(work@, 0, byte_is(NEWLINE));
        }
        body_start
    }

    /// Takes the next segment of the stream; `at_eof` says that it is the
    /// last. If a region has come together it is parsed into a batch of its
    /// own, which is kept with its buffer. Returns whether the region fit;
    /// one that does not is dropped.
    #[verifier::rlimit(50)]
    pub fn feed(&mut self, segment: &[u8], at_eof: bool) -> (fits: bool)
        requires
            old(self).wf(),
        ensures
            final(self).wf(),
            final(self)@ == stream_step(old(self)@, segment@, at_eof).0,
            region_stored(
                *old(self),
                *final(self),
                stream_step(old(self)@, segment@, at_eof).1,
                fits,
            ),
    {
        let work: Vec<u8> = join(&self.leftover, segment);
        if work.len() == 0 {
            assert(self.leftover@ =~= work@);
            return true;
        }
        let format: LogFormat = match self.format {
            Some(format) => format,
            None => LogFormat::detect(work.as_slice()),
        };
        self.format = Some(format);
        let reads_header: bool = format == LogFormat::Csv && !self.header_read;
        let mut body_start: usize = 0;
        if reads_header {
            let first_line_end: usize = find_byte(work.as_slice(), 0, NEWLINE);
            if first_line_end >= work.len() && !at_eof {
                self.leftover = work;
                return true;
            }
            body_start = self.read_header(work.as_slice());
        }
        let body: &[u8] = &work.as_slice()[body_start..work.len()];
        proof {
            assert(body@ =~= if reads_header {
                work@.skip(body_start as int)
            } else {
                work@
            });
        }
        let cut: usize = find_complete_end(body, at_eof);
        self.leftover = copy_range(body, cut, body.len());
        proof {
            assert(self.leftover@ =~= body@.skip(cut as int));
        }
        if cut == 0 {
            return true;
        }
        if format == LogFormat::Csv {
            let region: Vec<u8> = copy_range(body, 0, cut);
            let buffer: Vec<u8> = join(&self.header_bytes, region.as_slice());
            proof {
                assert(buffer@ =~= self.header_bytes@ + body@.take(cut as int));
            }
            let start: usize = self.header_bytes.len();
            self.store_region(buffer, start, format)
        } else {
            let buffer: Vec<u8> = copy_range(body, 0, cut);
            proof {
                assert(buffer@ =~= body@.take(cut as int));
            }
            self.store_region(buffer, 0, format)
        }
    }

    /// The batches of the stream, with their buffers and the totals. A stream
    /// whose format was never decided counts as plain text.
    pub fn finish(self) -> (r: StructuredPipelineResult)
        requires
            self.wf(),
        ensures
            r.batches@ == self.batches@,
            r._backing_data@ == self.backing_data@,
            r.total_records == self.total_records,
            r.total_fields == self.total_fields,
            r.totals_agree(),
            r.format == match self.format {
                Some(format) => format,
                None => LogFormat::PlainText,
            },
    {
        let format: LogFormat = match self.format {
            Some(format) => format,
            None => LogFormat::PlainText,
        };
        StructuredPipelineResult {
            batches: self.batches,
            total_records: self.total_records,
            total_fields: self.total_fields,
            format,
            _backing_data: self.backing_data,
        }
    }
}

/// The state of a stream after the first `count` of `segments` have come in,
/// the last segment of all being the end of the stream; `None` once a region
/// did not fit.
pub open spec fn stream_after(
    segments: Seq<Vec<u8>>,
    count: int,
    format_hint: Option<LogFormat>,
) -> Option<StreamView>
    decreases count,
{
    if count <= 0 {
        Some(
            StreamView {
                leftover: Seq::empty(),
                format: format_hint,
                header: None,
                header_bytes: Seq::empty(),
                header_read: false,
            },
        )
    } else {
        match stream_after(segments, count - 1, format_hint) {
            None => None,
            Some(state) => {
                let (next, region) = stream_step(
                    state,
                    segments[count - 1]@,
                    count == segments.len(),
                );
                match region {
                    Some(r) => if chunk_fits(
                        r.buffer,
                        r.start,
                        r.buffer.len() as int,
                        next.format.unwrap(),
                        next.header,
                    ) {
                        Some(next)
                    } else {
                        None
                    },
                    None => Some(next),
                }
            },
        }
    }
}

/// A region with the format and the header it is parsed under.
pub struct StreamJob {
    pub region: Region,
    pub format: LogFormat,
    pub header: Option<HeaderView>,
}

impl StreamJob {
    /// The records of the region.
    pub open spec fn records(self) -> Seq<RecordView> {
        chunk_records(
            self.region.buffer,
            self.region.start,
            self.region.buffer.len() as int,
            self.format,
            self.header,
        )
    }
}

/// The regions that the first `count` of `segments` give, in order, each
/// with the format and the header of the stream at its time.
pub open spec fn streamed_jobs(
    segments: Seq<Vec<u8>>,
    count: int,
    format_hint: Option<LogFormat>,
) -> Seq<StreamJob>
    decreases count,
{
    if count <= 0 {
        Seq::empty()
    } else {
        let before = streamed_jobs(segments, count - 1, format_hint);
        match stream_after(segments, count - 1, format_hint) {
            None => before,
            Some(state) => {
                let (next, region) = stream_step(
                    state,
                    segments[count - 1]@,
                    count == segments.len(),
                );
                match region {
                    Some(r) => before.push(
                        StreamJob { region: r, format: next.format.unwrap(), header: next.header },
                    ),
                    None => before,
                }
            },
        }
    }
}

/// Batch `k` holds the records of job `k`, and buffer `k` is its buffer.
pub open spec fn jobs_done(
    batches: Seq<StructuredBatch>,
    backing: Seq<Vec<u8>>,
    jobs: Seq<StreamJob>,
) -> bool {
    &&& batches.len() == jobs.len()
    &&& backing.len() == jobs.len()
    &&& forall|k: int|
        0 <= k < jobs.len() ==> (#[trigger] batches[k])@ == jobs[k].records() && backing[k]@
            == jobs[k].region.buffer
}

/// The views of `batches`, batch by batch.
pub open spec fn views_of(batches: Seq<StructuredBatch>) -> Seq<Seq<RecordView>> {
    Seq::new(batches.len(), |k: int| batches[k]@)
}

/// One more segment: the state and the jobs after `count` segments are those
/// after `count - 1` and the step for segment `count - 1`.
proof fn lemma_stream_grows(
    segments: Seq<Vec<u8>>,
    count: int,
    format_hint: Option<LogFormat>,
    before: StructuredStream,
    after: StructuredStream,
    fits: bool,
)
    requires
        0 < count <= segments.len(),
        stream_after(segments, count - 1, format_hint) == Some(before@),
        jobs_done(
            before.batches@,
            before.backing_data@,
            streamed_jobs(segments, count - 1, format_hint),
        ),
        after@ == stream_step(before@, segments[count - 1]@, count == segments.len()).0,
        region_stored(
            before,
            after,
            stream_step(before@, segments[count - 1]@, count == segments.len()).1,
            fits,
        ),
    ensures
        fits ==> stream_after(segments, count, format_hint) == Some(after@),
        fits ==> jobs_done(
            after.batches@,
            after.backing_data@,
            streamed_jobs(segments, count, format_hint),
        ),
        !fits ==> stream_after(segments, count, format_hint).is_none(),
{
    let (next, region) = stream_step(before@, segments[count - 1]@, count == segments.len());
    let jobs_before = streamed_jobs(segments, count - 1, format_hint);
    let jobs = streamed_jobs(segments, count, format_hint);
    match region {
        Some(r) => {
            if fits {
                assert forall|k: int| 0 <= k < jobs.len() implies (#[trigger] after.batches@[k])@
                    == jobs[k].records() && after.backing_data@[k]@ == jobs[k].region.buffer by {
                    if k < jobs_before.len() {
                        assert(after.batches@.drop_last()[k] == after.batches@[k]);
                        assert(after.backing_data@.drop_last()[k] == after.backing_data@[k]);
                        assert(before.batches@[k]@ == jobs_before[k].records());
                    }
                }
            }
        },
        None => {},
    }
}

/// The state of a stream that is `None` stays `None`.
proof fn lemma_stream_failed(
    segments: Seq<Vec<u8>>,
    from: int,
    to: int,
    format_hint: Option<LogFormat>,
)
    requires
        0 <= from <= to,
        stream_after(segments, from, format_hint).is_none(),
    ensures
        stream_after(segments, to, format_hint).is_none(),
    decreases to - from,
{
    if from < to {
        lemma_stream_failed(segments, from, to - 1, format_hint);
    }
}

/// What `parse_structured_streamed` returns: nothing if a region did not
/// fit; else one batch per region with its buffer, and the format of the
/// stream.
pub open spec fn stream_parsed(
    segments: Seq<Vec<u8>>,
    format_hint: Option<LogFormat>,
    r: Option<StructuredPipelineResult>,
) -> bool {
    let end = stream_after(segments, segments.len() as int, format_hint);
    match r {
        Some(result) => {
            &&& end.is_some()
            &&& result.totals_agree()
            &&& batches_backed(result.batches@, result._backing_data@)
            &&& jobs_done(
                result.batches@,
                result._backing_data@,
                streamed_jobs(segments, segments.len() as int, format_hint),
            )
            &&& result.format == match end.unwrap().format {
                Some(format) => format,
                None => LogFormat::PlainText,
            }
        },
        None => end.is_none(),
    }
}

/// Parses a stream that comes in the given segments, the last of which ends
/// it: the segments are fed to a stream one after the other. There is no
/// result if a region does not fit.
pub fn parse_structured_streamed(segments: &Vec<Vec<u8>>, format_hint: Option<LogFormat>) -> (r:
    Option<StructuredPipelineResult>)
    ensures
        stream_parsed(segments@, format_hint, r),
{
    let mut stream = StructuredStream::new(format_hint);
    let count: usize = segments.len();
    let mut i: usize = 0;
    while i < count
        invariant
            i <= count == segments@.len(),
            stream.wf(),
            stream_after(segments@, i as int, format_hint) == Some(stream@),
            jobs_done(
                stream.batches@,
                stream.backing_data@,
                streamed_jobs(segments@, i as int, format_hint),
            ),
        decreases count - i,
    {
        let ghost before = stream;
        let fits: bool = stream.feed(segments[i].as_slice(), i + 1 == count);
        proof {
            lemma_stream_grows(segments@, i + 1, format_hint, before, stream, fits);
        }
        if !fits {
            proof {
                lemma_stream_failed(segments@, i + 1, count as int, format_hint);
            }
            return None;
        }
        i += 1;
    }
    Some(stream.finish())
}

/// The segments as values.
pub open spec fn segment_bytes(segments: Seq<Vec<u8>>) -> Seq<Seq<u8>> {
    Seq::new(segments.len(), |k: int| segments[k]@)
}

/// The buffers as values.
pub open spec fn buffers_of(backing: Seq<Vec<u8>>) -> Seq<Seq<u8>> {
    Seq::new(backing.len(), |k: int| backing[k]@)
}

/// What the jobs parse: of each buffer the part from its start on.
pub open spec fn job_bodies(jobs: Seq<StreamJob>) -> Seq<Seq<u8>> {
    Seq::new(jobs.len(), |k: int| jobs[k].region.buffer.skip(jobs[k].region.start))
}

/// Job `k` of a stream in the format `format` under the header `header`,
/// every buffer of which begins with `head`.
pub open spec fn job_shaped(
    job: StreamJob,
    format: LogFormat,
    header: Option<HeaderView>,
    head: Seq<u8>,
) -> bool {
    &&& job.format == format
    &&& job.header == header
    &&& job.region.start == head.len()
    &&& job.region.buffer.take(head.len() as int) == head
    &&& head.len() <= job.region.buffer.len()
    &&& chunk_fits(
        job.region.buffer,
        job.region.start,
        job.region.buffer.len() as int,
        format,
        header,
    )
}

/// The shape of a stream that is not CSV, after `count` segments: the format
/// is the one hinted at, there is no header, and the regions cut off so far,
/// with what is left over, are what has come in; every region but one cut at
/// the end of the stream is whole lines; and at the end nothing is left
/// over.
pub open spec fn plain_shape(segments: Seq<Vec<u8>>, count: int, format: LogFormat) -> bool {
    let state = stream_after(segments, count, Some(format)).unwrap();
    let jobs = streamed_jobs(segments, count, Some(format));
    let bodies = job_bodies(jobs);
    &&& state.format == Some(format)
    &&& state.header.is_none()
    &&& state.header_bytes.len() == 0
    &&& !state.header_read
    &&& joined(bodies) + state.leftover == joined(segment_bytes(segments).take(count))
    &&& forall|k: int|
        0 <= k < jobs.len() ==> #[trigger] job_shaped(jobs[k], format, None, Seq::empty())
    &&& forall|k: int| 0 <= k < bodies.len() - 1 ==> whole_lines(#[trigger] bodies[k])
    &&& count < segments.len() && bodies.len() > 0 ==> whole_lines(bodies.last())
    &&& count == segments.len() && count > 0 ==> state.leftover.len() == 0
}

proof fn lemma_plain_shape(segments: Seq<Vec<u8>>, count: int, format: LogFormat)
    requires
        0 <= count <= segments.len(),
        format != LogFormat::Csv,
        stream_after(segments, count, Some(format)).is_some(),
    ensures
        plain_shape(segments, count, format),
    decreases count,
{
    let taken = segment_bytes(segments).take(count);
    let jobs = streamed_jobs(segments, count, Some(format));
    let bodies = job_bodies(jobs);
    if count == 0 {
        assert(joined(taken) =~= Seq::<u8>::empty());
        assert(joined(bodies) + Seq::<u8>::empty() =~= Seq::<u8>::empty());
    } else {
        assert(stream_after(segments, count - 1, Some(format)).is_some());
        lemma_plain_shape(segments, count - 1, format);
        let before_state = stream_after(segments, count - 1, Some(format)).unwrap();
        let before = streamed_jobs(segments, count - 1, Some(format));
        let before_bodies = job_bodies(before);
        let segment = segments[count - 1]@;
        let at_eof = count == segments.len();
        let work = before_state.leftover + segment;
        let (next, region) = stream_step(before_state, segment, at_eof);
        let cut = complete_end(work, at_eof);
        lemma_last_line_end(work);
        assert(taken.drop_last() =~= segment_bytes(segments).take(count - 1));
        assert(taken.last() == segment);
        assert(joined(before_bodies) + before_state.leftover + segment =~= joined(before_bodies)
            + work);
        if work.len() == 0 {
            assert(jobs == before);
            assert(before_state.leftover =~= Seq::<u8>::empty());
            assert(segment =~= Seq::<u8>::empty());
            assert(joined(before_bodies) + before_state.leftover =~= joined(before_bodies)
                + before_state.leftover + segment);
        } else if cut == 0 {
            assert(jobs == before);
            assert(work.skip(0) =~= work);
        } else {
            let job = StreamJob {
                region: Region { buffer: work.take(cut), start: 0 },
                format,
                header: None,
            };
            assert(jobs == before.push(job));
            assert(bodies.drop_last() =~= before_bodies);
            assert(bodies.last() =~= work.take(cut));
            assert(joined(before_bodies) + work.take(cut) + work.skip(cut) =~= joined(
                before_bodies,
            ) + work);
            assert forall|k: int| 0 <= k < jobs.len() implies #[trigger] job_shaped(
                jobs[k],
                format,
                None,
                Seq::empty(),
            ) by {
                if k < before.len() {
                    assert(job_shaped(before[k], format, None, Seq::empty()));
                } else {
                    assert(work.take(cut).take(0) =~= Seq::<u8>::empty());
                }
            }
            assert forall|k: int| 0 <= k < bodies.len() - 1 implies whole_lines(
                #[trigger] bodies[k],
            ) by {
                assert(bodies[k] == before_bodies[k]);
                if k == before_bodies.len() - 1 {
                    assert(whole_lines(before_bodies.last()));
                }
            }
            if !at_eof {
                assert(work.take(cut).last() == work[cut - 1]);
            }
        }
    }
}

/// The shape of a CSV stream in the state `state`, with the jobs `jobs`
/// cut off so far, after `seen` has come in; `ended` says that the stream
/// is at its end. Until the header line is whole, everything is left over.
/// From then on the header is the header of what has come in, every buffer
/// begins with the header line, and the header line, the regions cut off so
/// far and what is left over are what has come in; every region but one cut
/// at the end of the stream is whole lines; and at the end nothing is left
/// over.
pub open spec fn csv_shape(state: StreamView, jobs: Seq<StreamJob>, seen: Seq<u8>, ended: bool)
    -> bool {
    let bodies = job_bodies(jobs);
    let head = state.header_bytes;
    &&& state.format == Some(LogFormat::Csv)
    &&& !state.header_read ==> {
        &&& jobs.len() == 0
        &&& state.leftover == seen
        &&& state.header.is_none()
        &&& scan_until(seen, 0, byte_is(NEWLINE)) >= seen.len()
        &&& ended ==> seen.len() == 0
    }
    &&& state.header_read ==> {
        &&& head == seen.take(header_end(seen))
        &&& state.header == header_of(seen)
        &&& !ended ==> scan_until(seen, 0, byte_is(NEWLINE)) < seen.len()
        &&& head + joined(bodies) + state.leftover == seen
        &&& forall|k: int|
            0 <= k < jobs.len() ==> #[trigger] job_shaped(
                jobs[k],
                LogFormat::Csv,
                state.header,
                head,
            )
        &&& forall|k: int| 0 <= k < bodies.len() - 1 ==> whole_lines(#[trigger] bodies[k])
        &&& !ended && bodies.len() > 0 ==> whole_lines(bodies.last())
        &&& ended ==> state.leftover.len() == 0
    }
}

/// The jobs after a step: those before, and one for the region of the step.
pub open spec fn jobs_after(before: Seq<StreamJob>, next: StreamView, region: Option<Region>)
    -> Seq<StreamJob> {
    match region {
        Some(r) => before.push(
            StreamJob { region: r, format: next.format.unwrap(), header: next.header },
        ),
        None => before,
    }
}

/// The step fit.
pub open spec fn step_fits(next: StreamView, region: Option<Region>) -> bool {
    match region {
        Some(r) => chunk_fits(
            r.buffer,
            r.start,
            r.buffer.len() as int,
            next.format.unwrap(),
            next.header,
        ),
        None => true,
    }
}

proof fn lemma_joined_one(part: Seq<u8>)
    ensures
        joined(seq![part]) == part,
{
    let parts = seq![part];
    assert(parts.drop_last() =~= Seq::<Seq<u8>>::empty());
    assert(joined(parts.drop_last()) =~= Seq::<u8>::empty());
    assert(parts.last() == part);
    assert(Seq::<u8>::empty() + part =~= part);
}

proof fn lemma_joined_push(parts: Seq<Seq<u8>>, part: Seq<u8>)
    ensures
        joined(parts.push(part)) == joined(parts) + part,
{
    assert(parts.push(part).drop_last() =~= parts);
}

/// The step in which the header is read keeps the shape.
proof fn lemma_csv_step_reads_header(
    before: StreamView,
    seen: Seq<u8>,
    segment: Seq<u8>,
    at_eof: bool,
)
    requires
        csv_shape(before, Seq::empty(), seen, false),
        !before.header_read,
        (seen + segment).len() > 0,
        step_fits(stream_step(before, segment, at_eof).0, stream_step(before, segment, at_eof).1),
    ensures
        csv_shape(
            stream_step(before, segment, at_eof).0,
            jobs_after(
                Seq::empty(),
                stream_step(before, segment, at_eof).0,
                stream_step(before, segment, at_eof).1,
            ),
            seen + segment,
            at_eof,
        ),
{
    let work = before.leftover + segment;
    let (next, region) = stream_step(before, segment, at_eof);
    let jobs = jobs_after(Seq::empty(), next, region);
    let bodies = job_bodies(jobs);
    assert(work == seen + segment);
    lemma_scan_until(work, 0, byte_is(NEWLINE));
    if scan_until(work, 0, byte_is(NEWLINE)) >= work.len() && !at_eof {
    } else {
        lemma_header_names_within(work);
        let head = work.take(header_end(work));
        let body = work.skip(header_end(work));
        let cut = complete_end(body, at_eof);
        lemma_last_line_end(body);
        assert(head + body =~= work);
        if cut == 0 {
            assert(body.skip(0) =~= body);
            assert(bodies =~= Seq::<Seq<u8>>::empty());
            assert(joined(bodies) =~= Seq::<u8>::empty());
            assert(head + joined(bodies) + body =~= work);
        } else {
            let buffer = head + body.take(cut);
            assert(buffer.skip(head.len() as int) =~= body.take(cut));
            assert(buffer.take(head.len() as int) =~= head);
            assert(bodies =~= seq![body.take(cut)]);
            lemma_joined_one(body.take(cut));
            assert(head + body.take(cut) + body.skip(cut) =~= work);
            assert(job_shaped(jobs[0], LogFormat::Csv, next.header, head));
            if !at_eof {
                assert(body.take(cut).last() == body[cut - 1]);
            }
        }
    }
}

/// A step after the header has been read keeps the shape.
#[verifier::rlimit(60)]
proof fn lemma_csv_step_after_header(
    before: StreamView,
    jobs_before: Seq<StreamJob>,
    seen: Seq<u8>,
    segment: Seq<u8>,
    at_eof: bool,
)
    requires
        csv_shape(before, jobs_before, seen, false),
        before.header_read,
        step_fits(stream_step(before, segment, at_eof).0, stream_step(before, segment, at_eof).1),
    ensures
        csv_shape(
            stream_step(before, segment, at_eof).0,
            jobs_after(
                jobs_before,
                stream_step(before, segment, at_eof).0,
                stream_step(before, segment, at_eof).1,
            ),
            seen + segment,
            at_eof,
        ),
{
    let work = before.leftover + segment;
    let (next, region) = stream_step(before, segment, at_eof);
    let jobs = jobs_after(jobs_before, next, region);
    let bodies = job_bodies(jobs);
    let bodies_before = job_bodies(jobs_before);
    let head = before.header_bytes;
    let all = seen + segment;
    lemma_header_stable(seen, segment);
    lemma_header_names_within(seen);
    assert(all.take(header_end(all)) =~= seen.take(header_end(seen)));
    assert(head + joined(bodies_before) + before.leftover + segment =~= head + joined(
        bodies_before,
    ) + work);
    if work.len() == 0 {
        assert(before.leftover =~= Seq::<u8>::empty());
        assert(segment =~= Seq::<u8>::empty());
        assert(all =~= seen);
    } else {
        let cut = complete_end(work, at_eof);
        lemma_last_line_end(work);
        if cut == 0 {
            assert(work.skip(0) =~= work);
        } else {
            let buffer = head + work.take(cut);
            assert(buffer.skip(head.len() as int) =~= work.take(cut));
            assert(buffer.take(head.len() as int) =~= head);
            assert(bodies =~= bodies_before.push(work.take(cut)));
            lemma_joined_push(bodies_before, work.take(cut));
            assert(head + (joined(bodies_before) + work.take(cut)) + work.skip(cut) =~= head
                + joined(bodies_before) + work);
            assert forall|k: int| 0 <= k < jobs.len() implies #[trigger] job_shaped(
                jobs[k],
                LogFormat::Csv,
                next.header,
                head,
            ) by {
                if k < jobs_before.len() {
                    assert(job_shaped(jobs_before[k], LogFormat::Csv, before.header, head));
                }
            }
            assert forall|k: int| 0 <= k < bodies.len() - 1 implies whole_lines(
                #[trigger] bodies[k],
            ) by {
                assert(bodies[k] == bodies_before[k]);
                if k == bodies_before.len() - 1 {
                    assert(whole_lines(bodies_before.last()));
                }
            }
            if !at_eof {
                assert(work.take(cut).last() == work[cut - 1]);
            }
        }
    }
}

/// A CSV stream has its shape after every segment.
proof fn lemma_csv_shape(segments: Seq<Vec<u8>>, count: int)
    requires
        0 <= count <= segments.len(),
        stream_after(segments, count, Some(LogFormat::Csv)).is_some(),
    ensures
        csv_shape(
            stream_after(segments, count, Some(LogFormat::Csv)).unwrap(),
            streamed_jobs(segments, count, Some(LogFormat::Csv)),
            joined(segment_bytes(segments).take(count)),
            count == segments.len(),
        ),
    decreases count,
{
    let hint = Some(LogFormat::Csv);
    let taken = segment_bytes(segments).take(count);
    let seen = joined(taken);
    if count == 0 {
        assert(seen =~= Seq::<u8>::empty());
        assert(job_bodies(streamed_jobs(segments, 0, hint)) =~= Seq::<Seq<u8>>::empty());
    } else {
        assert(stream_after(segments, count - 1, hint).is_some());
        lemma_csv_shape(segments, count - 1);
        let before = stream_after(segments, count - 1, hint).unwrap();
        let jobs_before = streamed_jobs(segments, count - 1, hint);
        let seen_before = joined(segment_bytes(segments).take(count - 1));
        let segment = segments[count - 1]@;
        let at_eof = count == segments.len();
        assert(taken.drop_last() =~= segment_bytes(segments).take(count - 1));
        assert(taken.last() == segment);
        assert(seen == seen_before + segment);
        let (next, region) = stream_step(before, segment, at_eof);
        assert(streamed_jobs(segments, count, hint) == jobs_after(jobs_before, next, region));
        if before.header_read {
            lemma_csv_step_after_header(before, jobs_before, seen_before, segment, at_eof);
        } else if (seen_before + segment).len() > 0 {
            assert(jobs_before =~= Seq::<StreamJob>::empty());
            lemma_csv_step_reads_header(before, seen_before, segment, at_eof);
        } else {
            assert(before.leftover + segment =~= Seq::<u8>::empty());
            assert(seen_before + segment =~= seen_before);
        }
    }
}

/// Streaming changes nothing, for CSV: read from their buffers, the records
/// of a CSV stream are what the lines after the header line of the whole
/// stream say, in order, however the stream is cut into segments.
pub proof fn lemma_csv_stream_resolved(segments: Seq<Vec<u8>>, result: StructuredPipelineResult)
    requires
        joined(segment_bytes(segments)).len() <= u64::MAX,
        stream_parsed(segments, Some(LogFormat::Csv), Some(result)),
    ensures
        resolved_in(result.batches@, buffers_of(result._backing_data@)) == each_line(
            joined(segment_bytes(segments)).skip(header_end(joined(segment_bytes(segments)))),
            true,
            text_line_of(
                LogFormat::Csv,
                header_of(joined(segment_bytes(segments))),
                joined(segment_bytes(segments)),
            ),
        ),
{
    let format = LogFormat::Csv;
    let count = segments.len() as int;
    let data = joined(segment_bytes(segments));
    let state = stream_after(segments, count, Some(format)).unwrap();
    let jobs = streamed_jobs(segments, count, Some(format));
    let bodies = job_bodies(jobs);
    let header = header_of(data);
    let said = text_line_of(format, header, data);
    lemma_csv_shape(segments, count);
    assert(segment_bytes(segments).take(count) =~= segment_bytes(segments));
    assert(csv_shape(state, jobs, data, true));
    lemma_header_names_within(data);
    if !state.header_read {
        // nothing has come in, or the stream is empty
        assert(jobs.len() == 0);
        assert(result.batches@.len() == 0);
        assert(data.len() == 0);
        assert(data.skip(header_end(data)) =~= Seq::<u8>::empty());
    } else {
        let head = state.header_bytes;
        assert(head == data.take(header_end(data)));
        assert forall|k: int| 0 <= k < jobs.len() implies text_line_of(
            format,
            header,
            (#[trigger] jobs[k]).region.buffer,
        ) == said by {
            assert(job_shaped(jobs[k], format, header, head));
            let buffer = jobs[k].region.buffer;
            match header {
                Some(h) => {
                    assert(data.take(head.len() as int) =~= head);
                    lemma_column_names_of_prefix(h.columns, data, buffer, head.len() as int);
                },
                None => {},
            }
        }
        lemma_resolved_jobs(
            result.batches@,
            result._backing_data@,
            jobs,
            format,
            header,
            head,
            said,
        );
        assert(head + joined(bodies) + state.leftover =~= head + joined(bodies));
        assert((head + joined(bodies)).skip(head.len() as int) =~= joined(bodies));
        lemma_each_part(bodies, true, said);
    }
}

/// A CSV stream and a parse of the whole give the same records: for a buffer
/// that is the segments of a stream one after the other, the records of the
/// stream, read from their buffers, are the records of the parse, read from
/// the buffer.
pub proof fn lemma_csv_streaming_matches_parse(
    segments: Seq<Vec<u8>>,
    streamed: StructuredPipelineResult,
    data: Seq<u8>,
    chunk_size: int,
    parsed: StructuredPipelineResult,
)
    requires
        data == joined(segment_bytes(segments)),
        data.len() <= usize::MAX,
        chunk_size >= 1,
        stream_parsed(segments, Some(LogFormat::Csv), Some(streamed)),
        format_parsed(
            data,
            header_end(data),
            chunk_size,
            LogFormat::Csv,
            header_of(data),
            Some(parsed),
        ),
    ensures
        resolved_in(streamed.batches@, buffers_of(streamed._backing_data@)) == resolved_in(
            parsed.batches@,
            Seq::new(parsed.batches@.len(), |k: int| data),
        ),
{
    lemma_csv_stream_resolved(segments, streamed);
    lemma_header_names_within(data);
    lemma_parse_resolved(
        data,
        header_end(data),
        chunk_size,
        LogFormat::Csv,
        header_of(data),
        parsed,
    );
    assert(data.subrange(header_end(data), data.len() as int) =~= data.skip(header_end(data)));
}

proof fn lemma_resolved_jobs(
    batches: Seq<StructuredBatch>,
    backing: Seq<Vec<u8>>,
    jobs: Seq<StreamJob>,
    format: LogFormat,
    header: Option<HeaderView>,
    head: Seq<u8>,
    said: spec_fn(Seq<u8>) -> Seq<ResolvedRecord>,
)
    requires
        jobs_done(batches, backing, jobs),
        forall|k: int| 0 <= k < jobs.len() ==> #[trigger] job_shaped(jobs[k], format, header, head),
        forall|k: int|
            0 <= k < jobs.len() ==> text_line_of(format, header, (#[trigger] jobs[k]).region.buffer)
                == said,
    ensures
        resolved_in(batches, buffers_of(backing)) == each_part(job_bodies(jobs), true, said),
    decreases batches.len(),
{
    if batches.len() > 0 {
        let front = batches.drop_last();
        let front_backing = backing.drop_last();
        let front_jobs = jobs.drop_last();
        assert(buffers_of(backing).drop_last() =~= buffers_of(front_backing));
        assert(job_bodies(jobs).drop_last() =~= job_bodies(front_jobs));
        assert forall|k: int| 0 <= k < front_jobs.len() implies (#[trigger] front[k])@
            == front_jobs[k].records() && front_backing[k]@ == front_jobs[k].region.buffer by {
            assert(batches[k]@ == jobs[k].records());
        }
        assert forall|k: int| 0 <= k < front_jobs.len() implies #[trigger] job_shaped(
            front_jobs[k],
            format,
            header,
            head,
        ) by {
            assert(job_shaped(jobs[k], format, header, head));
        }
        assert forall|k: int| 0 <= k < front_jobs.len() implies text_line_of(
            format,
            header,
            (#[trigger] front_jobs[k]).region.buffer,
        ) == said by {
            assert(front_jobs[k] == jobs[k]);
        }
        lemma_resolved_jobs(front, front_backing, front_jobs, format, header, head, said);
        let job = jobs.last();
        let buffer = job.region.buffer;
        assert(job_shaped(jobs[jobs.len() - 1], format, header, head));
        assert(batches[batches.len() - 1]@ == jobs[jobs.len() - 1].records());
        assert(backing[backing.len() - 1]@ == buffer);
        assert(buffer.len() == backing[backing.len() - 1].len());
        lemma_chunk_resolved(buffer, job.region.start, buffer.len() as int, format, header);
        assert(buffer.subrange(job.region.start, buffer.len() as int) =~= buffer.skip(
            job.region.start,
        ));
        assert(text_line_of(format, header, jobs[jobs.len() - 1].region.buffer) == said);
    }
}

/// Streaming changes nothing, for JSON and logfmt: read from their buffers,
/// the records of a stream in a format that is hinted at are what the lines
/// of the whole stream say, in order, however the stream is cut into
/// segments.
pub proof fn lemma_stream_resolved(
    segments: Seq<Vec<u8>>,
    format: LogFormat,
    result: StructuredPipelineResult,
)
    requires
        format != LogFormat::Csv,
        joined(segment_bytes(segments)).len() <= u64::MAX,
        stream_parsed(segments, Some(format), Some(result)),
    ensures
        resolved_in(result.batches@, buffers_of(result._backing_data@)) == each_line(
            joined(segment_bytes(segments)),
            true,
            text_line_of(format, None, Seq::empty()),
        ),
{
    let count = segments.len() as int;
    let jobs = streamed_jobs(segments, count, Some(format));
    let bodies = job_bodies(jobs);
    let said = text_line_of(format, None, Seq::empty());
    lemma_plain_shape(segments, count, format);
    assert forall|k: int| 0 <= k < jobs.len() implies text_line_of(
        format,
        None,
        (#[trigger] jobs[k]).region.buffer,
    ) == said by {}
    lemma_resolved_jobs(
        result.batches@,
        result._backing_data@,
        jobs,
        format,
        None,
        Seq::empty(),
        said,
    );
    assert(segment_bytes(segments).take(count) =~= segment_bytes(segments));
    let state = stream_after(segments, count, Some(format)).unwrap();
    if count == 0 {
        assert(joined(segment_bytes(segments)) =~= Seq::<u8>::empty());
        assert(joined(bodies) + state.leftover =~= Seq::<u8>::empty());
        assert(joined(bodies) =~= joined(bodies) + state.leftover);
    } else {
        assert(joined(bodies) + state.leftover =~= joined(bodies));
    }
    lemma_each_part(bodies, true, said);
}

/// A stream and a parse of the whole give the same records, for JSON and
/// logfmt: for a buffer that is the segments of a stream one after the
/// other, and a format that both are told, the records of the stream, read
/// from their buffers, are the records of the parse, read from the buffer.
pub proof fn lemma_streaming_matches_parse(
    segments: Seq<Vec<u8>>,
    format: LogFormat,
    streamed: StructuredPipelineResult,
    data: Seq<u8>,
    chunk_size: int,
    parsed: StructuredPipelineResult,
)
    requires
        format != LogFormat::Csv,
        data == joined(segment_bytes(segments)),
        data.len() <= usize::MAX,
        chunk_size >= 1,
        stream_parsed(segments, Some(format), Some(streamed)),
        format_parsed(data, 0, chunk_size, format, None, Some(parsed)),
    ensures
        resolved_in(streamed.batches@, buffers_of(streamed._backing_data@)) == resolved_in(
            parsed.batches@,
            Seq::new(parsed.batches@.len(), |k: int| data),
        ),
        resolved_in(streamed.batches@, buffers_of(streamed._backing_data@)).len() == records_in(
            parsed.batches@,
        ),
{
    lemma_stream_resolved(segments, format, streamed);
    lemma_parse_resolved(data, 0, chunk_size, format, None, parsed);
    assert(data.subrange(0, data.len() as int) =~= data);
    assert(text_line_of(format, None, data) == text_line_of(format, None, Seq::empty()));
    lemma_resolved_count(parsed.batches@, Seq::new(parsed.batches@.len(), |k: int| data));
    lemma_parse_gives_buffer_records(data, 0, chunk_size, format, None, parsed);
}

/// Reading records from buffers keeps their number.
pub proof fn lemma_resolved_count(batches: Seq<StructuredBatch>, buffers: Seq<Seq<u8>>)
    ensures
        resolved_in(batches, buffers).len() == all_records(batches).len(),
    decreases batches.len(),
{
    if batches.len() > 0 {
        lemma_resolved_count(batches.drop_last(), buffers.drop_last());
    }
}

/// The fields of `records`, all told.
pub open spec fn fields_told(records: Seq<ResolvedRecord>) -> nat
    decreases records.len(),
{
    if records.len() == 0 {
        0
    } else {
        fields_told(records.drop_last()) + records.last().fields.len()
    }
}

proof fn lemma_fields_told_sum(a: Seq<ResolvedRecord>, b: Seq<ResolvedRecord>)
    ensures
        fields_told(a + b) == fields_told(a) + fields_told(b),
    decreases b.len(),
{
    if b.len() == 0 {
        assert(a + b =~= a);
    } else {
        assert((a + b).drop_last() =~= a + b.drop_last());
        lemma_fields_told_sum(a, b.drop_last());
    }
}

proof fn lemma_batch_fields_told(batch: StructuredBatch, data: Seq<u8>, upto: int)
    requires
        batch.complete(),
        0 <= upto <= batch.len,
    ensures
        fields_told(batch@.map_values(resolver(data)).take(upto)) == batch.field_starts@[upto],
    decreases upto,
{
    let all = batch@.map_values(resolver(data));
    if upto > 0 {
        lemma_batch_fields_told(batch, data, upto - 1);
        assert(all.take(upto).drop_last() =~= all.take(upto - 1));
        assert(all.take(upto).last() == resolve(batch@[upto - 1], data));
        assert(batch.field_starts@[upto - 1] <= batch.field_starts@[upto]);
        assert(batch.field_starts@[upto] <= batch.field_starts@[batch.len as int]);
    } else {
        assert(all.take(0) =~= Seq::<ResolvedRecord>::empty());
    }
}

/// Reading records from buffers keeps their number and the number of their
/// fields.
pub proof fn lemma_resolved_totals(batches: Seq<StructuredBatch>, buffers: Seq<Seq<u8>>)
    requires
        forall|k: int| 0 <= k < batches.len() ==> (#[trigger] batches[k]).complete(),
    ensures
        resolved_in(batches, buffers).len() == records_in(batches),
        fields_told(resolved_in(batches, buffers)) == fields_in(batches),
    decreases batches.len(),
{
    if batches.len() > 0 {
        let batch = batches.last();
        let read = batch@.map_values(resolver(buffers.last()));
        assert forall|k: int| 0 <= k < batches.drop_last().len() implies (
        #[trigger] batches.drop_last()[k]).complete() by {
            assert(batches.drop_last()[k] == batches[k]);
        }
        lemma_resolved_totals(batches.drop_last(), buffers.drop_last());
        lemma_fields_told_sum(resolved_in(batches.drop_last(), buffers.drop_last()), read);
        lemma_batch_fields_told(batch, buffers.last(), batch.len as int);
        assert(read.take(batch.len as int) =~= read);
        assert(batches[batches.len() - 1].complete());
    }
}

/// A stream that nothing has come into.
pub open spec fn fresh(format_hint: Option<LogFormat>) -> StreamView {
    StreamView {
        leftover: Seq::empty(),
        format: format_hint,
        header: None,
        header_bytes: Seq::empty(),
        header_read: false,
    }
}

/// The first of the first `count` segments that is not empty; empty if all
/// of them are. Without a hint a stream detects its format on these bytes.
pub open spec fn first_content(segments: Seq<Vec<u8>>, count: int) -> Seq<u8>
    decreases count,
{
    if count <= 0 {
        Seq::empty()
    } else {
        let before = first_content(segments, count - 1);
        if before.len() > 0 {
            before
        } else {
            segments[count - 1]@
        }
    }
}

/// Empty segments leave a stream as it was.
proof fn lemma_stream_idle(segments: Seq<Vec<u8>>, count: int, format_hint: Option<LogFormat>)
    requires
        0 <= count <= segments.len(),
        first_content(segments, count).len() == 0,
    ensures
        stream_after(segments, count, format_hint) == Some(fresh(format_hint)),
        streamed_jobs(segments, count, format_hint) == Seq::<StreamJob>::empty(),
    decreases count,
{
    if count > 0 {
        lemma_stream_idle(segments, count - 1, format_hint);
        assert(fresh(format_hint).leftover + segments[count - 1]@ =~= Seq::<u8>::empty());
    }
}

/// A stream without a hint is the stream with the hint that detection
/// gives on the first bytes that come in.
proof fn lemma_stream_settles(segments: Seq<Vec<u8>>, count: int)
    requires
        0 <= count <= segments.len(),
        first_content(segments, count).len() > 0,
    ensures
        stream_after(segments, count, None) == stream_after(
            segments,
            count,
            Some(detect_format(detect_window(first_content(segments, count)))),
        ),
        streamed_jobs(segments, count, None) == streamed_jobs(
            segments,
            count,
            Some(detect_format(detect_window(first_content(segments, count)))),
        ),
    decreases count,
{
    let format = detect_format(detect_window(first_content(segments, count)));
    if first_content(segments, count - 1).len() > 0 {
        lemma_stream_settles(segments, count - 1);
    } else {
        lemma_stream_idle(segments, count - 1, None);
        lemma_stream_idle(segments, count - 1, Some(format));
        let segment = segments[count - 1]@;
        assert(fresh(None).leftover + segment =~= segment);
        assert(fresh(Some(format)).leftover + segment =~= segment);
    }
}

/// The buffer that empty segments make is empty, and the other way round.
proof fn lemma_first_content(segments: Seq<Vec<u8>>, count: int)
    requires
        0 <= count <= segments.len(),
    ensures
        first_content(segments, count).len() == 0 <==> joined(
            segment_bytes(segments).take(count),
        ).len() == 0,
    decreases count,
{
    let parts = segment_bytes(segments);
    if count > 0 {
        lemma_first_content(segments, count - 1);
        assert(parts.take(count).drop_last() =~= parts.take(count - 1));
        lemma_joined_push(parts.take(count - 1), parts[count - 1]);
        assert(parts.take(count - 1).push(parts[count - 1]) =~= parts.take(count));
    } else {
        assert(parts.take(0) =~= Seq::<Seq<u8>>::empty());
    }
}

/// What is joined is at least as long as each of its parts.
proof fn lemma_joined_covers(parts: Seq<Seq<u8>>, k: int)
    requires
        0 <= k < parts.len(),
    ensures
        joined(parts).len() >= parts[k].len(),
    decreases parts.len(),
{
    if k < parts.len() - 1 {
        lemma_joined_covers(parts.drop_last(), k);
    }
}

/// The records of every batch of a stream come in the order of the batch's
/// buffer, one whole line each: no line is split between two regions, and
/// none is told twice.
pub proof fn lemma_stream_in_file_order(
    segments: Seq<Vec<u8>>,
    format_hint: Option<LogFormat>,
    streamed: StructuredPipelineResult,
)
    requires
        stream_parsed(segments, format_hint, Some(streamed)),
    ensures
        forall|k: int|
            0 <= k < streamed.batches@.len() ==> in_file_order(
                streamed._backing_data@[k]@,
                (#[trigger] streamed.batches@[k])@,
                0,
                streamed._backing_data@[k]@.len() as int,
            ),
{
    let count = segments.len() as int;
    let first = first_content(segments, count);
    if format_hint.is_none() && first.len() == 0 {
        lemma_stream_idle(segments, count, format_hint);
    } else {
        let seen = match format_hint {
            Some(format) => format,
            None => detect_format(detect_window(first)),
        };
        if format_hint.is_none() {
            lemma_stream_settles(segments, count);
        }
        let jobs = streamed_jobs(segments, count, Some(seen));
        let state = stream_after(segments, count, Some(seen)).unwrap();
        let whole = joined(segment_bytes(segments).take(count));
        if seen == LogFormat::Csv {
            lemma_csv_shape(segments, count);
        } else {
            lemma_plain_shape(segments, count, seen);
        }
        assert forall|k: int| 0 <= k < streamed.batches@.len() implies in_file_order(
            streamed._backing_data@[k]@,
            (#[trigger] streamed.batches@[k])@,
            0,
            streamed._backing_data@[k]@.len() as int,
        ) by {
            let job = jobs[k];
            let buffer = job.region.buffer;
            let start = job.region.start;
            assert(streamed.batches@[k]@ == job.records());
            assert(streamed._backing_data@[k]@ == buffer);
            assert(buffer.len() == streamed._backing_data@[k].len());
            if seen == LogFormat::Csv {
                let head = state.header_bytes;
                assert(job_shaped(job, seen, state.header, head));
                if start < buffer.len() {
                    let bodies = job_bodies(jobs);
                    lemma_joined_covers(bodies, k);
                    assert(bodies[k].len() == buffer.len() - start);
                    lemma_scan_until(whole, 0, byte_is(NEWLINE));
                    assert((head + joined(bodies) + state.leftover).len() == whole.len());
                    assert(header_end(whole) < whole.len());
                    assert(head[head.len() - 1] == NEWLINE);
                    assert(buffer.take(head.len() as int)[head.len() - 1] == buffer[start - 1]);
                }
            } else {
                assert(job_shaped(job, seen, None, Seq::empty()));
            }
            lemma_chunk_in_file_order(buffer, start, buffer.len() as int, job.format, job.header);
            lemma_file_order_widens(
                buffer,
                chunk_records(buffer, start, buffer.len() as int, job.format, job.header),
                start,
                0,
                buffer.len() as int,
            );
        }
    }
}

/// The first bytes of a stream begin the buffer that its segments make.
proof fn lemma_first_content_begins(segments: Seq<Vec<u8>>, count: int)
    requires
        0 <= count <= segments.len(),
    ensures
        first_content(segments, count).len() <= joined(segment_bytes(segments).take(count)).len(),
        joined(segment_bytes(segments).take(count)).take(
            first_content(segments, count).len() as int,
        ) == first_content(segments, count),
    decreases count,
{
    let parts = segment_bytes(segments);
    if count > 0 {
        lemma_first_content_begins(segments, count - 1);
        lemma_first_content(segments, count - 1);
        let before = joined(parts.take(count - 1));
        let first = first_content(segments, count - 1);
        lemma_joined_push(parts.take(count - 1), parts[count - 1]);
        assert(parts.take(count - 1).push(parts[count - 1]) =~= parts.take(count));
        if first.len() > 0 {
            assert((before + parts[count - 1]).take(first.len() as int) =~= before.take(
                first.len() as int,
            ));
        } else {
            assert(before + parts[count - 1] =~= parts[count - 1]);
            assert(parts[count - 1].take(parts[count - 1].len() as int) =~= parts[count - 1]);
        }
    } else {
        assert(parts.take(0) =~= Seq::<Seq<u8>>::empty());
        assert(Seq::<u8>::empty().take(0) =~= Seq::<u8>::empty());
    }
}

/// A stream whose first segment with bytes is as long as the window of
/// detection, or is the whole stream, reads the format that a parse of the
/// whole reads. Segments of a chunk's size, of which only the last may be
/// short, are such.
pub proof fn lemma_long_segment_decides(
    segments: Seq<Vec<u8>>,
    format_hint: Option<LogFormat>,
    data: Seq<u8>,
)
    requires
        data == joined(segment_bytes(segments)),
        first_content(segments, segments.len() as int).len() >= DETECT_WINDOW || first_content(
            segments,
            segments.len() as int,
        ).len() == data.len(),
    ensures
        format_used(first_content(segments, segments.len() as int), format_hint) == format_used(
            data,
            format_hint,
        ),
{
    let count = segments.len() as int;
    let first = first_content(segments, count);
    assert(segment_bytes(segments).take(count) =~= segment_bytes(segments));
    lemma_first_content_begins(segments, count);
    assert(data.take(first.len() as int) == first);
    if first.len() == data.len() {
        assert(data.take(data.len() as int) =~= data);
    } else {
        assert(detect_window(first) =~= detect_window(data)) by {
            assert forall|j: int| 0 <= j < DETECT_WINDOW implies first[j] == data[j] by {
                assert(data.take(first.len() as int)[j] == data[j]);
            }
        }
    }
}

/// A stream and a parse of the whole give the same records, where both
/// read the same format: for a buffer that is the segments of a stream one
/// after the other, the records of `parse_structured_streamed`, read from
/// their buffers, are the records of `parse_structured_mmap`, read from
/// the buffer, and there are as many. With a hint both read what the hint
/// says. Without one the stream detects on the first segment that is not
/// empty and the parse on the whole buffer.
pub proof fn lemma_stream_matches_whole(
    segments: Seq<Vec<u8>>,
    format_hint: Option<LogFormat>,
    streamed: StructuredPipelineResult,
    data: Seq<u8>,
    chunk_mb: int,
    parsed: StructuredPipelineResult,
)
    requires
        data == joined(segment_bytes(segments)),
        data.len() <= usize::MAX,
        stream_parsed(segments, format_hint, Some(streamed)),
        structured_parsed(data, chunk_mb, format_hint, Some(parsed)),
        format_used(first_content(segments, segments.len() as int), format_hint) == format_used(
            data,
            format_hint,
        ),
    ensures
        resolved_in(streamed.batches@, buffers_of(streamed._backing_data@)) == resolved_in(
            parsed.batches@,
            Seq::new(parsed.batches@.len(), |k: int| data),
        ),
        streamed.total_records == parsed.total_records,
        streamed.total_fields == parsed.total_fields,
{
    let count = segments.len() as int;
    let first = first_content(segments, count);
    let whole = Seq::new(parsed.batches@.len(), |k: int| data);
    let chunk_size = crate::chunks::chunk_bytes(chunk_mb);
    assert(segment_bytes(segments).take(count) =~= segment_bytes(segments));
    lemma_first_content(segments, count);
    if data.len() == 0 {
        lemma_stream_idle(segments, count, format_hint);
        assert(streamed.batches@.len() == 0);
        assert(parsed.batches@.len() == 0);
    } else {
        let seen = match format_hint {
            Some(format) => format,
            None => detect_format(detect_window(first)),
        };
        if format_hint.is_none() {
            lemma_stream_settles(segments, count);
        }
        assert(stream_parsed(segments, Some(seen), Some(streamed)));
        let format = format_used(data, format_hint);
        let bounds = boundaries_of(
            data,
            if format == LogFormat::Csv {
                header_end(data)
            } else {
                0
            },
            chunk_size,
        );
        let header = if format == LogFormat::Csv {
            header_of(data)
        } else {
            None
        };
        assert forall|k: int| 0 <= k < parsed.batches@.len() implies (
        #[trigger] parsed.batches@[k]).complete() by {
            assert(chunk_parsed(parsed.batches@[k], k, data, bounds, format, header));
        }
        if format == LogFormat::Csv {
            assert(seen == LogFormat::Csv);
            lemma_csv_streaming_matches_parse(segments, streamed, data, chunk_size, parsed);
        } else {
            lemma_stream_resolved(segments, seen, streamed);
            lemma_parse_resolved(data, 0, chunk_size, format, None, parsed);
            assert(data.subrange(0, data.len() as int) =~= data);
            assert(text_line_of(format, None, data) == text_line_of(seen, None, Seq::empty()));
        }
    }
    lemma_resolved_totals(streamed.batches@, buffers_of(streamed._backing_data@));
    lemma_resolved_totals(parsed.batches@, whole);
}

} // verus!
