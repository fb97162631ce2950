//! Parsing a whole buffer of plain-text records: chunk by chunk, the chunks
//! shared out among workers, the batches put back in the order of the
//! chunks.

use crate::chunks::{
    boundaries_of, bounds_ok, chunk_boundaries, chunk_bytes, chunk_map, chunk_size_for,
    chunk_starts, chunks_map, complete_end, copy_range, each_line, each_part, find_complete_end,
    join, joined, lemma_boundaries_at_line_starts, lemma_bounds_ok, lemma_chunk_is_its_lines,
    lemma_chunk_starts, lemma_chunks_map, lemma_each_part, lemma_last_line_end, lemma_shares_tile,
    scan_chunk, share_start, shares_tile, whole_lines, worker_chunks, worker_threads,
};
use crate::data::{LogBatch, LogLevel, PlainRecord};
use crate::lines::{
    converted, lemma_lines_map_converted, lemma_lines_map_counts, lemma_lines_total_grows,
    lemma_lines_total_sorted, lemma_lines_with_bound, line_extent, lines_map, lines_total,
    lines_with_bytes, plain_style, LineStyle,
};
use crate::parser::{first_spaces, parse_line, plain_record};
use crate::search::{byte_is, lemma_scan_until};
use vstd::prelude::*;

verus! {

/// What a parse of a whole buffer gives.
pub struct PipelineResult {
    /// One batch per chunk, in the order of the chunks.
    pub batches: Vec<LogBatch>,
    pub total_lines: usize,
    /// The buffers that the batches point into, where the parse owns them.
    pub _backing_data: Vec<Vec<u8>>,
}

/// What a parse gives that only counts.
pub struct StreamingResult {
    pub total_lines: usize,
}

/// What the chunk parser makes of one line: its record.
pub open spec fn plain_line() -> spec_fn(Seq<u8>, int) -> Seq<PlainRecord> {
    |line: Seq<u8>, base: int| seq![plain_record(line, base)]
}

/// The records of the chunk `start..end` of `data`: the record of each of
/// its lines that has bytes, in order.
pub open spec fn chunk_records(data: Seq<u8>, start: int, end: int) -> Seq<PlainRecord> {
    chunk_map(data, start, end, plain_style(), plain_line())
}

/// The chunk can be told in the 32-bit columns of a batch: it is no longer
/// than `u32::MAX` bytes.
pub open spec fn chunk_fits(start: int, end: int) -> bool {
    end - start <= u32::MAX
}

/// The lines with bytes among the lines `from..to`.
fn count_lines(data: &[u8], line_starts: &[u64], to: usize) -> (count: usize)
    requires
        to < line_starts@.len(),
        crate::lines::starts_within(data@, line_starts@, 0, to as int),
    ensures
        count == lines_map(data@, line_starts@, 0, to as int, plain_style(), plain_line()).len(),
        count <= to,
{
    let mut count: usize = 0;
    let mut i: usize = 0;
    while i < to
        invariant
            i <= to < line_starts@.len(),
            crate::lines::starts_within(data@, line_starts@, 0, to as int),
            count == lines_map(
                data@,
                line_starts@,
                0,
                i as int,
                plain_style(),
                plain_line(),
            ).len(),
            count <= i,
        decreases to - i,
    {
        proof {
            assert(line_starts@[i + 1] <= data@.len());
        }
        match line_extent(data, line_starts, i, LineStyle { strip_cr: false, trim_final: false }) {
            Some(_) => {
                count += 1;
            },
            None => {},
        }
        i += 1;
    }
    count
}

/// The starts cut whole lines out of the buffer: there is at least one, they
/// never step down, and the last lies inside the buffer.
pub open spec fn starts_sound(data: Seq<u8>, starts: Seq<u64>) -> bool {
    &&& starts.len() >= 1
    &&& crate::lines::starts_sorted(starts, 0, starts.len() - 1)
    &&& starts.last() <= data.len()
}

/// The lines that `starts` cut out of `data` can be parsed into one batch:
/// the starts are sound and the lines span no more than `u32::MAX` bytes.
pub open spec fn scanned_fits(data: Seq<u8>, starts: Seq<u64>) -> bool {
    starts_sound(data, starts) && starts.last() - starts[0] <= u32::MAX
}

fn starts_are_sound(data: &[u8], line_starts: &[u64]) -> (ok: bool)
    ensures
        ok == starts_sound(data@, line_starts@),
{
    let count: usize = line_starts.len();
    if count == 0 {
        return false;
    }
    let mut k: usize = 1;
    while k < count
        invariant
            1 <= k <= count == line_starts@.len(),
            crate::lines::starts_sorted(line_starts@, 0, k - 1),
        decreases count - k,
    {
        if line_starts[k - 1] > line_starts[k] {
            return false;
        }
        proof {
            assert forall|i: int, j: int|
                0 <= i <= j <= k && j < line_starts@.len() implies #[trigger] line_starts@[i]
                <= #[trigger] line_starts@[j] by {
                if j == k && i < k {
                    assert(line_starts@[i] <= line_starts@[k - 1]);
                }
            }
        }
        k += 1;
    }
    line_starts[count - 1] <= data.len() as u64
}

/// Parses the lines that `line_starts` cut out of `data` into a batch of
/// their own, one record per line that has bytes: line `i` runs from start
/// `i` to before the newline in front of start `i + 1`, so that the last
/// start closes the last line. There is no batch if the lines do not fit.
pub fn parse_scanned_lines(data: &[u8], line_starts: &[u64]) -> (r: Option<LogBatch>)
    ensures
        r.is_some() <==> scanned_fits(data@, line_starts@),
        r.is_some() ==> {
            &&& r.unwrap().wf()
            &&& r.unwrap()@ == lines_map(
                data@,
                line_starts@,
                0,
                line_starts@.len() - 1,
                plain_style(),
                plain_line(),
            )
            &&& forall|k: int|
                0 <= k < r.unwrap()@.len() ==> (#[trigger] r.unwrap()@[k]).within(
                    line_starts@[0] as int,
                    line_starts@.last() as int,
                )
        },
{
    if !starts_are_sound(data, line_starts) {
        return None;
    }
    let num_lines: usize = line_starts.len() - 1;
    assert(line_starts@[0] <= line_starts@[num_lines as int]);
    if line_starts[num_lines] - line_starts[0] > u32::MAX as u64 {
        return None;
    }
    let ghost start = line_starts@[0] as int;
    let ghost end = line_starts@[num_lines as int] as int;
    proof {
        assert(crate::lines::starts_within(data@, line_starts@, 0, num_lines as int)) by {
            assert forall|k: int|
                0 < k <= num_lines && k < line_starts@.len() implies #[trigger] line_starts@[k]
                <= data@.len() by {
                assert(line_starts@[k] <= line_starts@[num_lines as int]);
            }
        }
        lemma_lines_total_sorted(data@, line_starts@, 0, num_lines as int, plain_style());
    }
    let count: usize = count_lines(data, line_starts, num_lines);
    let mut batch = LogBatch::new(count);
    let ghost all = lines_map(
        data@,
        line_starts@,
        0,
        num_lines as int,
        plain_style(),
        plain_line(),
    );
    let mut filled: usize = 0;
    let mut i: usize = 0;
    while i < num_lines
        invariant
            i <= num_lines == line_starts@.len() - 1,
            start == line_starts@[0],
            end == line_starts@[num_lines as int],
            end <= data@.len(),
            crate::lines::starts_within(data@, line_starts@, 0, num_lines as int),
            crate::lines::starts_sorted(line_starts@, 0, num_lines as int),
            lines_total(data@, line_starts@, 0, num_lines as int, plain_style()) <= u32::MAX,
            batch.wf(),
            batch.len == count == all.len(),
            all == lines_map(
                data@,
                line_starts@,
                0,
                num_lines as int,
                plain_style(),
                plain_line(),
            ),
            filled == lines_map(
                data@,
                line_starts@,
                0,
                i as int,
                plain_style(),
                plain_line(),
            ).len(),
            forall|k: int|
                0 <= k < filled ==> #[trigger] batch@[k] == lines_map(
                    data@,
                    line_starts@,
                    0,
                    i as int,
                    plain_style(),
                    plain_line(),
                )[k],
            forall|k: int| 0 <= k < filled ==> (#[trigger] batch@[k]).within(start, end),
        decreases num_lines - i,
    {
        proof {
            assert(line_starts@[i + 1] <= data@.len());
            lemma_lines_total_grows(
                data@,
                line_starts@,
                0,
                i + 1,
                num_lines as int,
                plain_style(),
            );
            crate::lines::lemma_lines_map_split(
                data@,
                line_starts@,
                0,
                i + 1,
                num_lines as int,
                plain_style(),
                plain_line(),
            );
        }
        match line_extent(data, line_starts, i, LineStyle { strip_cr: false, trim_final: false }) {
            Some((line_start, line_end)) => {
                let line: &[u8] = &data[line_start..line_end];
                let ghost before = batch@;
                parse_line(line, filled, &mut batch, line_start as u64);
                proof {
                    crate::parser::lemma_plain_record_within(line@, line_start as int);
                    assert(line_starts@[i as int] == line_start);
                    assert(line_end <= line_starts@[i + 1]);
                    assert(line_starts@[0] <= line_starts@[i as int]);
                    assert(line_starts@[i + 1] <= line_starts@[num_lines as int]);
                    assert forall|k: int| 0 <= k < filled + 1 implies (#[trigger] batch@[k]).within(
                        start,
                        end,
                    ) by {
                        if k < filled {
                            assert(batch@[k] == before[k]);
                            assert(before[k].within(start, end));
                        }
                    }
                }
                filled += 1;
            },
            None => {},
        }
        i += 1;
    }
    proof {
        assert(batch@ =~= all);
    }
    Some(batch)
}

/// Scans and parses the chunk `start..end` of `data` into a batch of its
/// own, one record per line that has bytes. There is no batch for a chunk
/// that does not fit.
pub fn parse_chunk(data: &[u8], start: usize, end: usize) -> (r: Option<LogBatch>)
    requires
        start <= end <= data.len(),
    ensures
        r.is_some() <==> chunk_fits(start as int, end as int),
        r.is_some() ==> {
            &&& r.unwrap().wf()
            &&& r.unwrap()@ == chunk_records(data@, start as int, end as int)
            &&& forall|k: int|
                0 <= k < r.unwrap()@.len() ==> (#[trigger] r.unwrap()@[k]).within(
                    start as int,
                    end as int,
                )
        },
{
    if end - start > u32::MAX as usize {
        return None;
    }
    let line_starts: Vec<u64> = scan_chunk(data, start, end);
    proof {
        lemma_chunk_starts(data@, start as int, end as int);
    }
    parse_scanned_lines(data, line_starts.as_slice())
}

/// Scans and parses a buffer that is one chunk.
pub fn parse_owned_chunk(data: &[u8]) -> (r: Option<LogBatch>)
    ensures
        r.is_some() <==> chunk_fits(0, data@.len() as int),
        r.is_some() ==> r.unwrap().wf() && r.unwrap()@ == chunk_records(
            data@,
            0,
            data@.len() as int,
        ),
{
    parse_chunk(data, 0, data.len())
}

/// The number of records in the chunk `start..end`, if it fits.
pub fn parse_chunk_streaming(data: &[u8], start: usize, end: usize) -> (r: Option<usize>)
    requires
        start <= end <= data.len(),
    ensures
        r.is_some() <==> chunk_fits(start as int, end as int),
        r.is_some() ==> r.unwrap() == chunk_records(data@, start as int, end as int).len(),
{
    match parse_chunk(data, start, end) {
        Some(batch) => Some(batch.len),
        None => None,
    }
}

/// The records in `batches`, all told.
pub open spec fn lines_in(batches: Seq<LogBatch>) -> nat
    decreases batches.len(),
{
    if batches.len() == 0 {
        0
    } else {
        lines_in(batches.drop_last()) + batches.last().len as nat
    }
}

/// `n`, or the largest `usize` if `n` is larger.
pub open spec fn clamped(n: nat) -> usize {
    if n > usize::MAX {
        usize::MAX
    } else {
        n as usize
    }
}

/// Every chunk between the boundaries fits.
pub open spec fn all_chunks_fit(bounds: Seq<usize>) -> bool {
    forall|c: int|
        0 <= c < bounds.len() - 1 ==> chunk_fits(#[trigger] bounds[c] as int, bounds[c + 1] as int)
}

/// `batch` is the batch of chunk `c`.
pub open spec fn chunk_parsed(batch: LogBatch, c: int, data: Seq<u8>, bounds: Seq<usize>) -> bool {
    &&& batch.wf()
    &&& batch@ == chunk_records(data, bounds[c] as int, bounds[c + 1] as int)
    &&& chunk_fits(bounds[c] as int, bounds[c + 1] as int)
    &&& forall|k: int|
        0 <= k < batch@.len() ==> (#[trigger] batch@[k]).within(
            bounds[c] as int,
            bounds[c + 1] as int,
        )
}

/// The batches are those of the first chunks, one each and in order.
pub open spec fn chunks_parsed(batches: Seq<LogBatch>, data: Seq<u8>, bounds: Seq<usize>) -> bool {
    forall|c: int| 0 <= c < batches.len() ==> #[trigger] chunk_parsed(batches[c], c, data, bounds)
}

/// Parses the chunks `share_first..share_past`, the share of one worker, in
/// order, appending their batches. Returns whether all of them fit; at the
/// first that does not, the work stops.
fn parse_share(
    data: &[u8],
    boundaries: &Vec<usize>,
    share_first: usize,
    share_past: usize,
    batches: &mut Vec<LogBatch>,
    total_lines: &mut usize,
) -> (all_fit: bool)
    requires
        bounds_ok(boundaries@, data@.len() as int),
        share_first <= share_past <= boundaries@.len() - 1,
        old(batches)@.len() == share_first,
        chunks_parsed(old(batches)@, data@, boundaries@),
        *old(total_lines) == clamped(lines_in(old(batches)@)),
    ensures
        chunks_parsed(final(batches)@, data@, boundaries@),
        *final(total_lines) == clamped(lines_in(final(batches)@)),
        all_fit ==> final(batches)@.len() == share_past,
        !all_fit ==> !all_chunks_fit(boundaries@),
{
    let mut chunk: usize = share_first;
    while chunk < share_past
        invariant
            bounds_ok(boundaries@, data@.len() as int),
            share_first <= chunk <= share_past <= boundaries@.len() - 1,
            batches@.len() == chunk,
            chunks_parsed(batches@, data@, boundaries@),
            *total_lines == clamped(lines_in(batches@)),
        decreases share_past - chunk,
    {
        let start: usize = boundaries[chunk];
        let end: usize = boundaries[chunk + 1];
        proof {
            assert(boundaries@[chunk as int] < boundaries@[chunk + 1]);
            assert(boundaries@[chunk + 1] <= boundaries@[boundaries@.len() - 1]);
        }
        match parse_chunk(data, start, end) {
            Some(batch) => {
                let ghost before = batches@;
                *total_lines = total_lines.saturating_add(batch.len);
                batches.push(batch);
                proof {
                    assert(batches@.drop_last() =~= before);
                    assert forall|c: int| 0 <= c < batches@.len() implies #[trigger] chunk_parsed(
                        batches@[c],
                        c,
                        data@,
                        boundaries@,
                    ) by {
                        if c < before.len() {
                            assert(chunk_parsed(before[c], c, data@, boundaries@));
                        }
                    }
                }
            },
            None => {
                proof {
                    assert(!chunk_fits(
                        boundaries@[chunk as int] as int,
                        boundaries@[chunk + 1] as int,
                    ));
                }
                return false;
            },
        }
        chunk += 1;
    }
    true
}

/// What `parse_logs_pipelined` returns: one batch per chunk, in the order of
/// the chunks, if every chunk fits, and nothing otherwise.
pub open spec fn plain_parsed(data: Seq<u8>, chunk_size: int, r: Option<PipelineResult>) -> bool {
    let bounds = boundaries_of(data, 0, chunk_size);
    match r {
        Some(result) => {
            &&& all_chunks_fit(bounds)
            &&& result._backing_data@.len() == 0
            &&& result.batches@.len() == bounds.len() - 1
            &&& chunks_parsed(result.batches@, data, bounds)
            &&& result.total_lines == clamped(lines_in(result.batches@))
        },
        None => !all_chunks_fit(bounds),
    }
}

/// Parses a whole buffer of plain-text lines. The buffer is cut into chunks
/// of whole lines of about `chunk_mb` MiB; the chunks are shared out among
/// the workers, each worker parses its share in order, and the batches are
/// put together in the order of the workers, which is the order of the
/// chunks. An empty buffer gives no batch. There is no result if a chunk
/// does not fit.
pub fn parse_logs_pipelined(data: &[u8], num_threads: usize, chunk_mb: usize) -> (r: Option<
    PipelineResult,
>)
    ensures
        plain_parsed(data@, chunk_bytes(chunk_mb as int), r),
{
    let chunk_size: usize = chunk_size_for(chunk_mb);
    let boundaries: Vec<usize> = chunk_boundaries(data, 0, chunk_size);
    proof {
        assert(data@.len() == data.len());
        lemma_bounds_ok(data@, 0, chunk_size as int);
    }
    let num_chunks: usize = boundaries.len() - 1;
    let workers: usize = worker_threads(num_threads, num_chunks);
    proof {
        lemma_shares_tile(num_chunks as int, workers as int);
    }
    let mut batches: Vec<LogBatch> = Vec::new();
    let mut total_lines: usize = 0;
    let mut worker: usize = 0;
    while worker < workers
        invariant
            worker <= workers,
            workers >= 1,
            chunk_size == chunk_bytes(chunk_mb as int),
            boundaries@ == boundaries_of(data@, 0, chunk_size as int),
            bounds_ok(boundaries@, data@.len() as int),
            num_chunks == boundaries@.len() - 1,
            shares_tile(num_chunks as int, workers as int),
            batches@.len() == share_start(worker as int, num_chunks as int, workers as int),
            chunks_parsed(batches@, data@, boundaries@),
            total_lines == clamped(lines_in(batches@)),
        decreases workers - worker,
    {
        let (share_first, share_past) = worker_chunks(worker, num_chunks, workers);
        let all_fit: bool = parse_share(
            data,
            &boundaries,
            share_first,
            share_past,
            &mut batches,
            &mut total_lines,
        );
        if !all_fit {
            return None;
        }
        worker += 1;
    }
    proof {
        assert forall|c: int| 0 <= c < boundaries@.len() - 1 implies chunk_fits(
            #[trigger] boundaries@[c] as int,
            boundaries@[c + 1] as int,
        ) by {
            assert(chunk_parsed(batches@[c], c, data@, boundaries@));
        }
    }
    Some(PipelineResult { batches, total_lines, _backing_data: Vec::new() })
}

/// The records of `batches` one after the other.
pub open spec fn all_records(batches: Seq<LogBatch>) -> Seq<PlainRecord>
    decreases batches.len(),
{
    if batches.len() == 0 {
        Seq::empty()
    } else {
        all_records(batches.drop_last()) + batches.last()@
    }
}

/// The records of `batches`, batch by batch.
pub open spec fn views_of(batches: Seq<LogBatch>) -> Seq<Seq<PlainRecord>> {
    Seq::new(batches.len(), |k: int| batches[k]@)
}

proof fn lemma_all_records_of_chunks(batches: Seq<LogBatch>, data: Seq<u8>, bounds: Seq<usize>)
    requires
        chunks_parsed(batches, data, bounds),
    ensures
        all_records(batches) == chunks_map(
            data,
            bounds,
            batches.len() as int,
            plain_style(),
            plain_line(),
        ),
        lines_in(batches) == all_records(batches).len(),
    decreases batches.len(),
{
    if batches.len() > 0 {
        let front = batches.drop_last();
        assert forall|c: int| 0 <= c < front.len() implies #[trigger] chunk_parsed(
            front[c],
            c,
            data,
            bounds,
        ) by {
            assert(chunk_parsed(batches[c], c, data, bounds));
        }
        lemma_all_records_of_chunks(front, data, bounds);
        assert(chunk_parsed(batches.last(), batches.len() - 1, data, bounds));
    }
}

/// Cutting into chunks changes nothing: the records of the batches of a
/// parse, in order, are the records of the buffer read as one chunk, one for
/// every line with bytes, whatever the size of the chunks and the number of
/// workers.
pub proof fn lemma_parse_gives_buffer_records(
    data: Seq<u8>,
    chunk_size: int,
    result: PipelineResult,
)
    requires
        data.len() <= usize::MAX,
        chunk_size >= 1,
        plain_parsed(data, chunk_size, Some(result)),
    ensures
        all_records(result.batches@) == chunk_records(data, 0, data.len() as int),
        result.total_lines == lines_with_bytes(
            data,
            chunk_starts(data, 0, data.len() as int),
            0,
            chunk_starts(data, 0, data.len() as int).len() - 1,
            plain_style(),
        ),
{
    let bounds = boundaries_of(data, 0, chunk_size);
    let starts = chunk_starts(data, 0, data.len() as int);
    lemma_boundaries_at_line_starts(data, 0, chunk_size);
    lemma_all_records_of_chunks(result.batches@, data, bounds);
    lemma_chunks_map(data, bounds, bounds.len() - 1, plain_style(), plain_line());
    lemma_chunk_starts(data, 0, data.len() as int);
    let counts = |line: Seq<u8>| true;
    lemma_lines_map_counts(
        data,
        starts,
        0,
        starts.len() - 1,
        plain_style(),
        plain_line(),
        counts,
    );
    lemma_lines_with_bound(data, starts, 0, starts.len() - 1, plain_style(), counts);
    lemma_lines_total_sorted(data, starts, 0, starts.len() - 1, plain_style());
}

/// The number of workers changes nothing: two parses of one buffer with
/// chunks of one size either both fail, or give batch for batch the same
/// records and the same total.
pub proof fn lemma_workers_do_not_matter(
    data: Seq<u8>,
    chunk_size: int,
    one: Option<PipelineResult>,
    other: Option<PipelineResult>,
)
    requires
        plain_parsed(data, chunk_size, one),
        plain_parsed(data, chunk_size, other),
    ensures
        one.is_some() == other.is_some(),
        one.is_some() ==> {
            &&& views_of(one.unwrap().batches@) == views_of(other.unwrap().batches@)
            &&& all_records(one.unwrap().batches@) == all_records(other.unwrap().batches@)
            &&& one.unwrap().total_lines == other.unwrap().total_lines
        },
{
    if one.is_some() {
        let a = one.unwrap().batches@;
        let b = other.unwrap().batches@;
        let bounds = boundaries_of(data, 0, chunk_size);
        assert forall|c: int| 0 <= c < a.len() implies views_of(a)[c] == views_of(b)[c] by {
            assert(chunk_parsed(a[c], c, data, bounds));
            assert(chunk_parsed(b[c], c, data, bounds));
        }
        assert(views_of(a) =~= views_of(b));
        lemma_all_records_of_chunks(a, data, bounds);
        lemma_all_records_of_chunks(b, data, bounds);
    }
}

/// As `parse_logs_pipelined`, keeping the count and not the batches.
pub fn parse_logs_pipelined_streaming(data: &[u8], num_threads: usize, chunk_mb: usize) -> (r:
    Option<StreamingResult>)
    ensures
        r.is_some() <==> all_chunks_fit(boundaries_of(data@, 0, chunk_bytes(chunk_mb as int))),
        r.is_some() ==> exists|batches: Seq<LogBatch>|
            {
                &&& #[trigger] chunks_parsed(
                    batches,
                    data@,
                    boundaries_of(data@, 0, chunk_bytes(chunk_mb as int)),
                )
                &&& batches.len() == boundaries_of(data@, 0, chunk_bytes(chunk_mb as int)).len()
                    - 1
                &&& r.unwrap().total_lines == clamped(lines_in(batches))
            },
{
    match parse_logs_pipelined(data, num_threads, chunk_mb) {
        Some(result) => {
            proof {
                let bounds = boundaries_of(data@, 0, chunk_bytes(chunk_mb as int));
                assert(chunks_parsed(result.batches@, data@, bounds));
            }
            Some(StreamingResult { total_lines: result.total_lines })
        },
        None => None,
    }
}

/// What a stream of plain-text lines knows between two segments.
pub struct PlainStream {
    /// The bytes after the last whole line seen so far.
    pub leftover: Vec<u8>,
    /// One batch per parsed region, in the order of the stream.
    pub batches: Vec<LogBatch>,
    /// For each batch the buffer it points into.
    pub backing_data: Vec<Vec<u8>>,
    pub total_lines: usize,
}

/// One step of a stream: what is left over after `segment` has come in, and
/// the region to parse, if a whole line has come together. The segment is
/// put after what was left over; what is there up to the last newline is the
/// region, and at the end of the stream everything is.
pub open spec fn plain_step(leftover: Seq<u8>, segment: Seq<u8>, at_eof: bool) -> (
    Seq<u8>,
    Option<Seq<u8>>,
) {
    let work = leftover + segment;
    let cut = complete_end(work, at_eof);
    (
        work.skip(cut),
        if cut == 0 {
            None
        } else {
            Some(work.take(cut))
        },
    )
}

/// Every batch is well formed and its records lie inside the buffer that
/// goes with it.
pub open spec fn batches_backed(batches: Seq<LogBatch>, backing: Seq<Vec<u8>>) -> bool {
    &&& batches.len() == backing.len()
    &&& forall|k: int|
        0 <= k < batches.len() ==> (#[trigger] batches[k]).wf() && batches[k]@
            == chunk_records(backing[k]@, 0, backing[k]@.len() as int)
}

/// What `feed` does to the batches of a stream: if the step gave a region
/// and the region fits, its batch and buffer are added; else nothing is.
pub open spec fn region_stored(
    before: PlainStream,
    after: PlainStream,
    region: Option<Seq<u8>>,
    fits: bool,
) -> bool {
    match region {
        None => fits && after.batches@ == before.batches@ && after.backing_data@
            == before.backing_data@,
        Some(r) => {
            &&& fits == chunk_fits(0, r.len() as int)
            &&& !fits ==> after.batches@ == before.batches@ && after.backing_data@
                == before.backing_data@
            &&& fits ==> {
                &&& after.batches@.len() == before.batches@.len() + 1
                &&& after.backing_data@.len() == before.backing_data@.len() + 1
                &&& after.batches@.drop_last() == before.batches@
                &&& after.backing_data@.drop_last() == before.backing_data@
                &&& after.backing_data@.last()@ == r
                &&& after.batches@.last()@ == chunk_records(r, 0, r.len() as int)
            }
        },
    }
}

impl PlainStream {
    /// Every batch has its buffer, and the total is that of the batches.
    pub open spec fn wf(&self) -> bool {
        &&& batches_backed(self.batches@, self.backing_data@)
        &&& self.total_lines == clamped(lines_in(self.batches@))
    }

    /// A stream that has seen nothing yet.
    pub fn new() -> (r: Self)
        ensures
            r.wf(),
            r.leftover@.len() == 0,
            r.batches@.len() == 0,
    {
        PlainStream {
            leftover: Vec::new(),
            batches: Vec::new(),
            backing_data: Vec::new(),
            total_lines: 0,
        }
    }

    /// Takes the next segment of the stream; `at_eof` says that it is the
    /// last. If a region has come together it is parsed into a batch of its
    /// own, which is kept with its buffer. Returns whether the region fit;
    /// one that does not is dropped.
    pub fn feed(&mut self, segment: &[u8], at_eof: bool) -> (fits: bool)
        requires
            old(self).wf(),
        ensures
            final(self).wf(),
            final(self).leftover@ == plain_step(old(self).leftover@, segment@, at_eof).0,
            region_stored(
                *old(self),
                *final(self),
                plain_step(old(self).leftover@, segment@, at_eof).1,
                fits,
            ),
    {
        let work: Vec<u8> = join(&self.leftover, segment);
        let cut: usize = find_complete_end(work.as_slice(), at_eof);
        self.leftover = copy_range(work.as_slice(), cut, work.len());
        proof {
            assert(self.leftover@ =~= work@.skip(cut as int));
        }
        if cut == 0 {
            return true;
        }
        let buffer: Vec<u8> = copy_range(work.as_slice(), 0, cut);
        proof {
            assert(buffer@ =~= work@.take(cut as int));
        }
        match parse_owned_chunk(buffer.as_slice()) {
            Some(batch) => {
                let ghost before = self.batches@;
                let ghost before_backing = self.backing_data@;
                self.total_lines = self.total_lines.saturating_add(batch.len);
                self.batches.push(batch);
                self.backing_data.push(buffer);
                proof {
                    assert(self.batches@.drop_last() =~= before);
                    assert(self.backing_data@.drop_last() =~= before_backing);
                    assert forall|k: int| 0 <= k < self.batches@.len() implies (
                    #[trigger] self.batches@[k]).wf() && self.batches@[k]@ == chunk_records(
                        self.backing_data@[k]@,
                        0,
                        self.backing_data@[k]@.len() as int,
                    ) by {
                        if k < before.len() {
                            assert(before[k].wf());
                            assert(self.backing_data@[k] == before_backing[k]);
                        }
                    }
                }
                true
            },
            None => false,
        }
    }

    /// The batches of the stream, with their buffers and the total.
    pub fn finish(self) -> (r: PipelineResult)
        requires
            self.wf(),
        ensures
            r.batches@ == self.batches@,
            r._backing_data@ == self.backing_data@,
            r.total_lines == self.total_lines,
    {
        PipelineResult {
            batches: self.batches,
            total_lines: self.total_lines,
            _backing_data: self.backing_data,
        }
    }
}

/// What is left over after the first `count` of `segments` have come in, the
/// last segment of all being the end of the stream; `None` once a region did
/// not fit.
pub open spec fn leftover_after(segments: Seq<Vec<u8>>, count: int) -> Option<Seq<u8>>
    decreases count,
{
    if count <= 0 {
        Some(Seq::empty())
    } else {
        match leftover_after(segments, count - 1) {
            None => None,
            Some(leftover) => {
                let (next, region) = plain_step(
                    leftover,
                    segments[count - 1]@,
                    count == segments.len(),
                );
                match region {
                    Some(r) => if chunk_fits(0, r.len() as int) {
                        Some(next)
                    } else {
                        None
                    },
                    None => Some(next),
                }
            },
        }
    }
}

/// The regions that the first `count` of `segments` give, in order.
pub open spec fn regions_of(segments: Seq<Vec<u8>>, count: int) -> Seq<Seq<u8>>
    decreases count,
{
    if count <= 0 {
        Seq::empty()
    } else {
        let before = regions_of(segments, count - 1);
        match leftover_after(segments, count - 1) {
            None => before,
            Some(leftover) => match plain_step(
                leftover,
                segments[count - 1]@,
                count == segments.len(),
            ).1 {
                Some(r) => before.push(r),
                None => before,
            },
        }
    }
}

/// The buffers as values.
pub open spec fn buffers_of(backing: Seq<Vec<u8>>) -> Seq<Seq<u8>> {
    Seq::new(backing.len(), |k: int| backing[k]@)
}

proof fn lemma_stream_grows(
    segments: Seq<Vec<u8>>,
    count: int,
    before: PlainStream,
    after: PlainStream,
    fits: bool,
)
    requires
        0 < count <= segments.len(),
        leftover_after(segments, count - 1) == Some(before.leftover@),
        buffers_of(before.backing_data@) == regions_of(segments, count - 1),
        after.leftover@ == plain_step(
            before.leftover@,
            segments[count - 1]@,
            count == segments.len(),
        ).0,
        region_stored(
            before,
            after,
            plain_step(before.leftover@, segments[count - 1]@, count == segments.len()).1,
            fits,
        ),
    ensures
        fits ==> leftover_after(segments, count) == Some(after.leftover@),
        fits ==> buffers_of(after.backing_data@) == regions_of(segments, count),
        !fits ==> leftover_after(segments, count).is_none(),
{
    let (next, region) = plain_step(
        before.leftover@,
        segments[count - 1]@,
        count == segments.len(),
    );
    match region {
        Some(r) => {
            if fits {
                assert(buffers_of(after.backing_data@) =~= buffers_of(before.backing_data@).push(
                    r,
                )) by {
                    assert forall|k: int| 0 <= k < before.backing_data@.len() implies buffers_of(
                        after.backing_data@,
                    )[k] == buffers_of(before.backing_data@)[k] by {
                        assert(after.backing_data@.drop_last()[k] == after.backing_data@[k]);
                    }
                }
            }
        },
        None => {},
    }
}

proof fn lemma_stream_failed(segments: Seq<Vec<u8>>, from: int, to: int)
    requires
        0 <= from <= to,
        leftover_after(segments, from).is_none(),
    ensures
        leftover_after(segments, to).is_none(),
    decreases to - from,
{
    if from < to {
        lemma_stream_failed(segments, from, to - 1);
    }
}

/// Parses a stream that comes in the given segments, the last of which ends
/// it: the segments are fed to a stream one after the other, and every
/// region is parsed into a batch of its own that is kept with its buffer.
/// There is no result if a region does not fit.
pub fn parse_logs_streamed(segments: &Vec<Vec<u8>>) -> (r: Option<PipelineResult>)
    ensures
        r.is_some() <==> leftover_after(segments@, segments@.len() as int).is_some(),
        r.is_some() ==> {
            &&& batches_backed(r.unwrap().batches@, r.unwrap()._backing_data@)
            &&& buffers_of(r.unwrap()._backing_data@) == regions_of(
                segments@,
                segments@.len() as int,
            )
            &&& r.unwrap().total_lines == clamped(lines_in(r.unwrap().batches@))
        },
{
    let mut stream = PlainStream::new();
    let count: usize = segments.len();
    let mut i: usize = 0;
    proof {
        assert(buffers_of(stream.backing_data@) =~= regions_of(segments@, 0));
        assert(stream.leftover@ =~= Seq::<u8>::empty());
    }
    while i < count
        invariant
            i <= count == segments@.len(),
            stream.wf(),
            leftover_after(segments@, i as int) == Some(stream.leftover@),
            buffers_of(stream.backing_data@) == regions_of(segments@, i as int),
        decreases count - i,
    {
        let ghost before = stream;
        let fits: bool = stream.feed(segments[i].as_slice(), i + 1 == count);
        proof {
            lemma_stream_grows(segments@, i + 1, before, stream, fits);
        }
        if !fits {
            proof {
                lemma_stream_failed(segments@, i + 1, count as int);
            }
            return None;
        }
        i += 1;
    }
    Some(stream.finish())
}

/// A record with its component and its message as bytes.
pub struct ResolvedPlain {
    pub timestamp: u64,
    pub level: LogLevel,
    pub component: Seq<u8>,
    pub message: Seq<u8>,
}

/// The record `record` read from the buffer `data` that it points into.
pub open spec fn resolve(record: PlainRecord, data: Seq<u8>) -> ResolvedPlain {
    ResolvedPlain {
        timestamp: record.timestamp,
        level: record.level,
        component: data.subrange(
            record.component_offset as int,
            record.component_offset + record.component_len,
        ),
        message: data.subrange(
            record.message_offset as int,
            record.message_offset + record.message_len,
        ),
    }
}

/// Reading records from the buffer `data`.
pub open spec fn resolver(data: Seq<u8>) -> spec_fn(PlainRecord) -> ResolvedPlain {
    |record: PlainRecord| resolve(record, data)
}

/// What a line says, read from the line itself.
pub open spec fn plain_text_line() -> spec_fn(Seq<u8>) -> Seq<ResolvedPlain> {
    |line: Seq<u8>| seq![resolve(plain_record(line, 0), line)]
}

/// The records of `batches` one after the other, each batch read from its
/// buffer.
pub open spec fn resolved_in(batches: Seq<LogBatch>, buffers: Seq<Seq<u8>>) -> Seq<ResolvedPlain>
    decreases batches.len(),
{
    if batches.len() == 0 {
        Seq::empty()
    } else {
        resolved_in(batches.drop_last(), buffers.drop_last()) + batches.last()@.map_values(
            resolver(buffers.last()),
        )
    }
}

/// What a record says does not depend on where its line stands: read from
/// the buffer, the record of a line at `base` is the record of the line read
/// from the line.
pub proof fn lemma_resolve_line(data: Seq<u8>, base: int, end: int)
    requires
        0 <= base < end <= data.len(),
        data.len() <= u64::MAX,
        end - base <= u32::MAX,
    ensures
        resolve(plain_record(data.subrange(base, end), base), data) == resolve(
            plain_record(data.subrange(base, end), 0),
            data.subrange(base, end),
        ),
{
    let line = data.subrange(base, end);
    let len = line.len() as int;
    let (s1, s2, s3) = first_spaces(line);
    lemma_scan_until(line, 0, byte_is(crate::ascii::SPACE));
    if s1 < len {
        lemma_scan_until(line, s1 + 1, byte_is(crate::ascii::SPACE));
        if s2 < len {
            lemma_scan_until(line, s2 + 1, byte_is(crate::ascii::SPACE));
        }
    }
    let here = plain_record(line, base);
    let alone = plain_record(line, 0);
    assert(here.component_offset == base + alone.component_offset);
    assert(here.message_offset == base + alone.message_offset);
    assert(here.component_len == alone.component_len);
    assert(here.message_len == alone.message_len);
    assert(alone.component_offset + alone.component_len <= len);
    assert(alone.message_offset + alone.message_len <= len);
    assert(data.subrange(
        here.component_offset as int,
        here.component_offset + here.component_len,
    ) =~= line.subrange(
        alone.component_offset as int,
        alone.component_offset + alone.component_len,
    ));
    assert(data.subrange(here.message_offset as int, here.message_offset + here.message_len)
        =~= line.subrange(
        alone.message_offset as int,
        alone.message_offset + alone.message_len,
    ));
}

/// Read from its buffer, a chunk that fits gives what its lines say,
/// whatever stands around it.
pub proof fn lemma_chunk_resolved(data: Seq<u8>, start: int, end: int)
    requires
        0 <= start <= end <= data.len(),
        data.len() <= u64::MAX,
        chunk_fits(start, end),
    ensures
        chunk_records(data, start, end).map_values(resolver(data)) == each_line(
            data.subrange(start, end),
            false,
            plain_text_line(),
        ),
{
    let starts = chunk_starts(data, start, end);
    let read = converted(plain_line(), resolver(data));
    lemma_lines_map_converted(
        data,
        starts,
        0,
        starts.len() - 1,
        plain_style(),
        plain_line(),
        resolver(data),
    );
    assert forall|s: int, e: int| start <= s < e <= end implies #[trigger] read(
        data.subrange(s, e),
        s,
    ) == plain_text_line()(data.subrange(s, e)) by {
        lemma_resolve_line(data, s, e);
        let line = data.subrange(s, e);
        assert(seq![plain_record(line, s)].map_values(resolver(data)) =~= seq![
            resolve(plain_record(line, s), data),
        ]);
    }
    lemma_chunk_is_its_lines(data, start, end, plain_style(), read, plain_text_line());
}

/// The bytes of the chunks between `bounds`, chunk by chunk.
pub open spec fn chunk_bytes_of(data: Seq<u8>, bounds: Seq<usize>) -> Seq<Seq<u8>> {
    Seq::new(
        (bounds.len() - 1) as nat,
        |c: int| data.subrange(bounds[c] as int, bounds[c + 1] as int),
    )
}

proof fn lemma_resolved_chunks(
    batches: Seq<LogBatch>,
    data: Seq<u8>,
    bounds: Seq<usize>,
    count: int,
)
    requires
        data.len() <= u64::MAX,
        0 <= count <= bounds.len() - 1,
        batches.len() == count,
        chunks_parsed(batches, data, bounds),
        forall|c: int, d: int| 0 <= c <= d < bounds.len() ==> bounds[c] <= bounds[d],
        bounds.last() <= data.len(),
    ensures
        resolved_in(batches, Seq::new(count as nat, |k: int| data)) == each_part(
            chunk_bytes_of(data, bounds).take(count),
            false,
            plain_text_line(),
        ),
    decreases count,
{
    let buffers = Seq::new(count as nat, |k: int| data);
    let parts = chunk_bytes_of(data, bounds).take(count);
    if count > 0 {
        let front = batches.drop_last();
        assert forall|c: int| 0 <= c < front.len() implies #[trigger] chunk_parsed(
            front[c],
            c,
            data,
            bounds,
        ) by {
            assert(chunk_parsed(batches[c], c, data, bounds));
        }
        lemma_resolved_chunks(front, data, bounds, count - 1);
        assert(buffers.drop_last() =~= Seq::new((count - 1) as nat, |k: int| data));
        assert(parts.drop_last() =~= chunk_bytes_of(data, bounds).take(count - 1));
        assert(chunk_parsed(batches.last(), count - 1, data, bounds));
        assert(bounds[count - 1] <= bounds[count] <= bounds[bounds.len() - 1]);
        lemma_chunk_resolved(data, bounds[count - 1] as int, bounds[count] as int);
        assert(parts.last() == data.subrange(bounds[count - 1] as int, bounds[count] as int));
    }
}

proof fn lemma_chunk_bytes_joined(data: Seq<u8>, bounds: Seq<usize>, count: int)
    requires
        0 <= count <= bounds.len() - 1,
        forall|c: int, d: int| 0 <= c <= d < bounds.len() ==> bounds[c] <= bounds[d],
        bounds.last() <= data.len(),
    ensures
        joined(chunk_bytes_of(data, bounds).take(count)) == data.subrange(
            bounds[0] as int,
            bounds[count] as int,
        ),
    decreases count,
{
    let parts = chunk_bytes_of(data, bounds).take(count);
    assert(bounds[0] <= bounds[count] <= bounds[bounds.len() - 1]);
    if count == 0 {
        assert(data.subrange(bounds[0] as int, bounds[0] as int) =~= Seq::<u8>::empty());
    } else {
        lemma_chunk_bytes_joined(data, bounds, count - 1);
        assert(parts.drop_last() =~= chunk_bytes_of(data, bounds).take(count - 1));
        assert(bounds[0] <= bounds[count - 1] <= bounds[count]);
        assert(data.subrange(bounds[0] as int, bounds[count - 1] as int) + data.subrange(
            bounds[count - 1] as int,
            bounds[count] as int,
        ) =~= data.subrange(bounds[0] as int, bounds[count] as int));
    }
}

/// Read from the buffer, the records of a parse are what the lines of the
/// buffer say, in order.
pub proof fn lemma_parse_resolved(data: Seq<u8>, chunk_size: int, result: PipelineResult)
    requires
        data.len() <= usize::MAX,
        chunk_size >= 1,
        plain_parsed(data, chunk_size, Some(result)),
    ensures
        resolved_in(
            result.batches@,
            Seq::new(result.batches@.len(), |k: int| data),
        ) == each_line(data, false, plain_text_line()),
{
    let bounds = boundaries_of(data, 0, chunk_size);
    let count = bounds.len() - 1;
    lemma_boundaries_at_line_starts(data, 0, chunk_size);
    lemma_resolved_chunks(result.batches@, data, bounds, count);
    let parts = chunk_bytes_of(data, bounds);
    assert(parts.take(count) =~= parts);
    lemma_chunk_bytes_joined(data, bounds, count);
    assert(data.subrange(0, data.len() as int) =~= data);
    lemma_chunk_parts_whole(data, chunk_size);
    lemma_each_part(parts, false, plain_text_line());
}

/// Every chunk but the last ends with a newline.
proof fn lemma_chunk_parts_whole(data: Seq<u8>, chunk_size: int)
    requires
        data.len() <= usize::MAX,
        chunk_size >= 1,
    ensures
        forall|k: int|
            0 <= k < chunk_bytes_of(data, boundaries_of(data, 0, chunk_size)).len() - 1
                ==> whole_lines(
                #[trigger] chunk_bytes_of(data, boundaries_of(data, 0, chunk_size))[k],
            ),
{
    let bounds = boundaries_of(data, 0, chunk_size);
    let parts = chunk_bytes_of(data, bounds);
    crate::chunks::lemma_boundaries(data, 0, chunk_size);
    assert forall|k: int| 0 <= k < parts.len() - 1 implies whole_lines(#[trigger] parts[k]) by {
        let b = bounds[k + 1];
        assert(0 < b <= data.len());
        assert(bounds[k + 1] < bounds[k + 2]);
        assert(bounds[k] < bounds[k + 1]);
        assert(parts[k] == data.subrange(bounds[k] as int, bounds[k + 1] as int));
        assert(parts[k].last() == data[bounds[k + 1] - 1]);
    }
}

/// The segments as values.
pub open spec fn segment_bytes(segments: Seq<Vec<u8>>) -> Seq<Seq<u8>> {
    Seq::new(segments.len(), |k: int| segments[k]@)
}

/// What a stream has cut off as regions, with what it has left over, is what
/// has come in; every region but one cut at the end of the stream is whole
/// lines; and at the end of the stream nothing is left over.
pub proof fn lemma_regions(segments: Seq<Vec<u8>>, count: int)
    requires
        0 <= count <= segments.len(),
        leftover_after(segments, count).is_some(),
    ensures
        joined(regions_of(segments, count)) + leftover_after(segments, count).unwrap() == joined(
            segment_bytes(segments).take(count),
        ),
        forall|k: int|
            0 <= k < regions_of(segments, count).len() - 1 ==> whole_lines(
                #[trigger] regions_of(segments, count)[k],
            ),
        count < segments.len() && regions_of(segments, count).len() > 0 ==> whole_lines(
            regions_of(segments, count).last(),
        ),
        count == segments.len() && count > 0 ==> leftover_after(segments, count).unwrap().len()
            == 0,
    decreases count,
{
    let taken = segment_bytes(segments).take(count);
    if count == 0 {
        assert(joined(taken) =~= Seq::<u8>::empty());
        assert(joined(regions_of(segments, 0)) + Seq::<u8>::empty() =~= Seq::<u8>::empty());
    } else {
        assert(leftover_after(segments, count - 1).is_some());
        lemma_regions(segments, count - 1);
        let leftover = leftover_after(segments, count - 1).unwrap();
        let segment = segments[count - 1]@;
        let at_eof = count == segments.len();
        let work = leftover + segment;
        let cut = crate::chunks::complete_end(work, at_eof);
        lemma_last_line_end(work);
        let before = regions_of(segments, count - 1);
        let regions = regions_of(segments, count);
        assert(taken.drop_last() =~= segment_bytes(segments).take(count - 1));
        assert(taken.last() == segment);
        assert(joined(taken) == joined(taken.drop_last()) + segment);
        assert(joined(before) + leftover + segment =~= joined(before) + (leftover + segment));
        if cut == 0 {
            assert(regions == before);
            assert(work.skip(0) =~= work);
        } else {
            assert(regions == before.push(work.take(cut)));
            assert(regions.drop_last() =~= before);
            assert(joined(before) + work.take(cut) + work.skip(cut) =~= joined(before) + work);
            assert forall|k: int| 0 <= k < regions.len() - 1 implies whole_lines(
                #[trigger] regions[k],
            ) by {
                assert(regions[k] == before[k]);
                if k == before.len() - 1 {
                    assert(whole_lines(before.last()));
                }
            }
            if !at_eof {
                assert(work.take(cut).last() == work[cut - 1]);
            }
        }
    }
}

proof fn lemma_resolved_regions(batches: Seq<LogBatch>, backing: Seq<Vec<u8>>)
    requires
        batches_backed(batches, backing),
        forall|k: int| 0 <= k < backing.len() ==> chunk_fits(0, (#[trigger] backing[k])@.len() as int),
    ensures
        resolved_in(batches, buffers_of(backing)) == each_part(
            buffers_of(backing),
            false,
            plain_text_line(),
        ),
    decreases batches.len(),
{
    if batches.len() > 0 {
        let front = batches.drop_last();
        let front_backing = backing.drop_last();
        assert(buffers_of(backing).drop_last() =~= buffers_of(front_backing));
        assert forall|k: int| 0 <= k < front.len() implies (#[trigger] front[k]).wf() && front[k]@
            == chunk_records(front_backing[k]@, 0, front_backing[k]@.len() as int) by {
            assert(batches[k].wf());
        }
        assert forall|k: int| 0 <= k < front_backing.len() implies chunk_fits(
            0,
            (#[trigger] front_backing[k])@.len() as int,
        ) by {
            assert(front_backing[k] == backing[k]);
        }
        lemma_resolved_regions(front, front_backing);
        let buffer = backing.last()@;
        assert(batches.last().wf());
        assert(backing[backing.len() - 1] == backing.last());
        lemma_chunk_resolved(buffer, 0, buffer.len() as int);
        assert(buffer.subrange(0, buffer.len() as int) =~= buffer);
    }
}

/// Every region that a stream cut off fit.
proof fn lemma_regions_fit(segments: Seq<Vec<u8>>, count: int)
    requires
        0 <= count <= segments.len(),
        leftover_after(segments, count).is_some(),
    ensures
        forall|k: int|
            0 <= k < regions_of(segments, count).len() ==> chunk_fits(
                0,
                (#[trigger] regions_of(segments, count)[k]).len() as int,
            ),
    decreases count,
{
    if count > 0 {
        lemma_regions_fit(segments, count - 1);
        let before = regions_of(segments, count - 1);
        let regions = regions_of(segments, count);
        assert forall|k: int| 0 <= k < regions.len() implies chunk_fits(
            0,
            (#[trigger] regions[k]).len() as int,
        ) by {
            if k < before.len() {
                assert(regions[k] == before[k]);
            }
        }
    }
}

/// Streaming changes nothing: read from their buffers, the records of a
/// stream are what the lines of the whole stream say, in order, however the
/// stream is cut into segments; and so they are, record for record, the
/// records of a parse of the whole as one buffer.
pub proof fn lemma_stream_resolved(segments: Seq<Vec<u8>>, result: PipelineResult)
    requires
        joined(segment_bytes(segments)).len() <= u64::MAX,
        leftover_after(segments, segments.len() as int).is_some(),
        batches_backed(result.batches@, result._backing_data@),
        buffers_of(result._backing_data@) == regions_of(segments, segments.len() as int),
    ensures
        resolved_in(result.batches@, buffers_of(result._backing_data@)) == each_line(
            joined(segment_bytes(segments)),
            false,
            plain_text_line(),
        ),
{
    let count = segments.len() as int;
    let regions = regions_of(segments, count);
    lemma_regions(segments, count);
    lemma_regions_fit(segments, count);
    assert forall|k: int| 0 <= k < result._backing_data@.len() implies chunk_fits(
        0,
        (#[trigger] result._backing_data@[k])@.len() as int,
    ) by {
        assert(buffers_of(result._backing_data@)[k] == regions[k]);
    }
    lemma_resolved_regions(result.batches@, result._backing_data@);
    assert(segment_bytes(segments).take(count) =~= segment_bytes(segments));
    if count == 0 {
        assert(joined(regions) + Seq::<u8>::empty() =~= joined(regions));
    } else {
        assert(joined(regions) + leftover_after(segments, count).unwrap() =~= joined(regions));
    }
    lemma_each_part(regions, false, plain_text_line());
}

/// A stream and a parse of the whole give the same records: for a buffer
/// that is the segments of a stream one after the other, the records of the
/// stream, read from their buffers, are the records of the parse, read from
/// the buffer, and the totals are the same.
pub proof fn lemma_streaming_matches_parse(
    segments: Seq<Vec<u8>>,
    streamed: PipelineResult,
    data: Seq<u8>,
    chunk_size: int,
    parsed: PipelineResult,
)
    requires
        data == joined(segment_bytes(segments)),
        data.len() <= usize::MAX,
        chunk_size >= 1,
        leftover_after(segments, segments.len() as int).is_some(),
        batches_backed(streamed.batches@, streamed._backing_data@),
        buffers_of(streamed._backing_data@) == regions_of(segments, segments.len() as int),
        streamed.total_lines == clamped(lines_in(streamed.batches@)),
        plain_parsed(data, chunk_size, Some(parsed)),
    ensures
        resolved_in(streamed.batches@, buffers_of(streamed._backing_data@)) == resolved_in(
            parsed.batches@,
            Seq::new(parsed.batches@.len(), |k: int| data),
        ),
        streamed.total_lines == parsed.total_lines,
{
    lemma_stream_resolved(segments, streamed);
    lemma_parse_resolved(data, chunk_size, parsed);
    lemma_resolved_count(streamed.batches@, buffers_of(streamed._backing_data@));
    lemma_resolved_count(parsed.batches@, Seq::new(parsed.batches@.len(), |k: int| data));
}

/// Reading records from buffers keeps their number.
pub proof fn lemma_resolved_count(batches: Seq<LogBatch>, buffers: Seq<Seq<u8>>)
    ensures
        resolved_in(batches, buffers).len() == lines_in(batches),
    decreases batches.len(),
{
    if batches.len() > 0 {
        lemma_resolved_count(batches.drop_last(), buffers.drop_last());
    }
}

} // verus!
