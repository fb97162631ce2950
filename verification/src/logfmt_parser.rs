//! The logfmt parser: space-separated `key=value`, `key="quoted value"` and
//! lone `key` tokens.

use crate::ascii::{EQUALS, is_blank, QUOTE, SPACE, TAB};
use crate::bits::{
    bit_set, byte_mask, lemma_bit_after_clearing_lowest, lemma_bit_of_zero, lemma_set_bits_skip,
    mask_of, set_bits,
};
use crate::lines::{line_extent, lines_map, lines_total, starts_within, structured_style, LineStyle};
use crate::search::{
    byte_in2, byte_is, byte_is_not, find_byte, find_either, find_quote_end, lemma_block_places,
    lemma_places_step, lemma_quoted_end, lemma_scan_until, lemma_scan_until_unique, places_of,
    quoted_end, scan_until, skip_run,
};
use crate::structured::well_known::{classify, classify_key, WellKnownKind};
use crate::structured::{
    building, field_bytes, kinds_of, lemma_building_begins, lemma_building_ends, lemma_refs_within,
    lemma_resolve_record, lemma_within_grows, push_span, record_of, refs_of, resolve, resolver,
    slots_of, FieldSpan, RecordView, ResolvedRecord, StructuredBatch, Token,
};
use vstd::prelude::*;

verus! {

/// The token at or after position `i` of `line`. Spaces are passed over; the
/// key runs up to the next `=` or space. A key that no `=` follows is a field
/// with an empty value. After `=`, a value that begins with a quote runs up
/// to the closing quote and leaves the quotes out; any other value runs up
/// to the next space.
pub open spec fn logfmt_token(line: Seq<u8>, i: int) -> Token {
    let len = line.len() as int;
    let key_start = scan_until(line, i, byte_is_not(SPACE));
    if key_start >= len {
        Token { field: None, next: len }
    } else {
        let key_end = scan_until(line, key_start, byte_in2(EQUALS, SPACE));
        if key_end >= len || line[key_end] != EQUALS {
            Token {
                field: Some(
                    FieldSpan { key_start, key_end, val_start: key_end, val_end: key_end },
                ),
                next: key_end,
            }
        } else if key_end + 1 < len && line[key_end + 1] == QUOTE {
            let val_end = quoted_end(line, key_end + 2);
            Token {
                field: Some(FieldSpan { key_start, key_end, val_start: key_end + 2, val_end }),
                next: if val_end < len {
                    val_end + 1
                } else {
                    val_end
                },
            }
        } else {
            let val_end = scan_until(line, key_end + 1, byte_is(SPACE));
            Token {
                field: Some(FieldSpan { key_start, key_end, val_start: key_end + 1, val_end }),
                next: val_end,
            }
        }
    }
}

/// A token takes at least one byte, and its field lies between where the
/// token begins and where the next one does.
pub proof fn lemma_logfmt_token(line: Seq<u8>, i: int)
    requires
        0 <= i < line.len(),
    ensures
        i < logfmt_token(line, i).next <= line.len(),
        match logfmt_token(line, i).field {
            Some(f) => f.inside(line.len() as int) && i <= f.key_start && f.val_end
                <= logfmt_token(line, i).next && (f.key_start < f.key_end || f.key_end
                < f.val_start),
            None => true,
        },
{
    let len = line.len() as int;
    lemma_scan_until(line, i, byte_is_not(SPACE));
    let key_start = scan_until(line, i, byte_is_not(SPACE));
    if key_start < len {
        lemma_scan_until(line, key_start, byte_in2(EQUALS, SPACE));
        let key_end = scan_until(line, key_start, byte_in2(EQUALS, SPACE));
        if key_end >= len || line[key_end] != EQUALS {
            assert(byte_is_not(SPACE)(line[key_start]));
        } else if key_end + 1 < len && line[key_end + 1] == QUOTE {
            lemma_quoted_end(line, key_end + 2);
        } else {
            lemma_scan_until(line, key_end + 1, byte_is(SPACE));
        }
    }
}

/// The fields of `line` from position `i` on, in order.
pub open spec fn logfmt_fields(line: Seq<u8>, i: int) -> Seq<FieldSpan>
    decreases line.len() - i,
{
    if i < 0 || i >= line.len() {
        Seq::empty()
    } else {
        let token = logfmt_token(line, i);
        proof {
            lemma_logfmt_token(line, i);
        }
        let rest = logfmt_fields(line, token.next);
        match token.field {
            Some(f) => seq![f] + rest,
            None => rest,
        }
    }
}

/// Every field lies inside the line, and there are no more fields than bytes
/// after `i`.
pub proof fn lemma_logfmt_fields(line: Seq<u8>, i: int)
    requires
        0 <= i <= line.len(),
    ensures
        logfmt_fields(line, i).len() <= line.len() - i,
        forall|k: int|
            0 <= k < logfmt_fields(line, i).len() ==> (#[trigger] logfmt_fields(line, i)[k]).inside(
                line.len() as int,
            ),
    decreases line.len() - i,
{
    if i < line.len() {
        lemma_logfmt_token(line, i);
        lemma_logfmt_fields(line, logfmt_token(line, i).next);
    }
}

/// The records that a line gives: one, unless the line is empty.
pub open spec fn logfmt_records(line: Seq<u8>, base: int) -> Seq<RecordView> {
    if line.len() == 0 {
        Seq::empty()
    } else {
        seq![record_of(line, base, logfmt_fields(line, 0))]
    }
}

/// Every field of the record of a line lies inside the line: keys and
/// values are ranges of `base..base + line.len()`.
pub proof fn lemma_logfmt_fields_in_line(line: Seq<u8>, base: int)
    requires
        0 <= base,
        base + line.len() <= u64::MAX,
        line.len() <= u32::MAX,
    ensures
        forall|r: int, k: int|
            0 <= r < logfmt_records(line, base).len() && 0 <= k < logfmt_records(
                line,
                base,
            )[r].fields.len() ==> (#[trigger] logfmt_records(line, base)[r].fields[k]).within(
                base,
                base + line.len(),
            ),
{
    lemma_logfmt_fields(line, 0);
    lemma_refs_within(logfmt_fields(line, 0), base, line.len() as int);
}

/// Points the slot of the kind of `key_bytes` at `field_idx` in the newest
/// record.
pub fn classify_and_set(key_bytes: &[u8], field_idx: u32, batch: &mut StructuredBatch)
    ensures
        old(batch).well_known@.len() == 0 ==> final(batch).well_known@ == old(batch).well_known@,
        old(batch).well_known@.len() > 0 ==> final(batch).well_known@ == old(
            batch,
        ).well_known@.update(
            old(batch).well_known@.len() - 1,
            old(batch).well_known@.last().with_slot(classify(key_bytes@), field_idx),
        ),
        final(batch).fields@ == old(batch).fields@,
        final(batch).field_starts@ == old(batch).field_starts@,
        final(batch).line_offsets@ == old(batch).line_offsets@,
        final(batch).line_lens@ == old(batch).line_lens@,
        final(batch).len == old(batch).len,
{
    match classify_key(key_bytes) {
        WellKnownKind::Timestamp => batch.set_well_known_timestamp(field_idx),
        WellKnownKind::Level => batch.set_well_known_level(field_idx),
        WellKnownKind::Message => batch.set_well_known_message(field_idx),
        WellKnownKind::Component => batch.set_well_known_component(field_idx),
        WellKnownKind::Other => {
            assert(old(batch).well_known@.len() > 0 ==> batch.well_known@ =~= old(
                batch,
            ).well_known@.update(
                old(batch).well_known@.len() - 1,
                old(batch).well_known@.last(),
            ));
        },
    }
}

/// Parses one line, which stands at `base_offset`, into one record. An empty
/// line gives none.
pub fn parse_logfmt_line(line: &[u8], base_offset: u64, batch: &mut StructuredBatch)
    requires
        old(batch).complete(),
        base_offset + line.len() <= u64::MAX,
        old(batch).fields@.len() + line.len() < u32::MAX,
    ensures
        final(batch).complete(),
        final(batch)@ == old(batch)@ + logfmt_records(line@, base_offset as int),
        final(batch).fields@.len() <= old(batch).fields@.len() + line.len(),
        forall|n: int|
            old(batch).within(n) && base_offset + line.len() <= n ==> #[trigger] final(batch).within(n),
{
    let len: usize = line.len();
    if len == 0 {
        assert(batch@ =~= old(batch)@ + logfmt_records(line@, base_offset as int));
        return ;
    }
    assert(batch.field_starts.len() == batch.len + 1);
    batch.begin_record(base_offset, len as u32);
    let ghost mut spans: Seq<FieldSpan> = Seq::empty();
    proof {
        lemma_building_begins(*old(batch), *batch, base_offset, len as u32);
        assert(refs_of(spans, base_offset as int) =~= Seq::empty());
        assert(kinds_of(spans, line@) =~= Seq::empty());
        assert(logfmt_fields(line@, 0) =~= spans + logfmt_fields(line@, 0));
    }
    let mut i: usize = 0;
    while i < len
        invariant
            i <= len == line.len(),
            len > 0,
            base_offset + len <= u64::MAX,
            old(batch).fields@.len() + len < u32::MAX,
            building(
                *old(batch),
                *batch,
                base_offset,
                len as u32,
                refs_of(spans, base_offset as int),
                kinds_of(spans, line@),
            ),
            logfmt_fields(line@, 0) == spans + logfmt_fields(line@, i as int),
            spans.len() <= i,
            forall|k: int| 0 <= k < spans.len() ==> (#[trigger] spans[k]).inside(len as int),
        decreases len - i,
    {
        proof {
            lemma_logfmt_token(line@, i as int);
        }
        let ghost token = logfmt_token(line@, i as int);
        let ghost before = spans;
        let key_start: usize = skip_run(line, i, SPACE);
        if key_start >= len {
            i = len;
        } else {
            let key_end: usize = find_either(line, key_start, EQUALS, SPACE);
            if key_end >= len || line[key_end] != EQUALS {
                if key_end > key_start {
                    push_span(
                        line,
                        base_offset,
                        (key_start, key_end),
                        (key_end, key_end),
                        batch,
                        Ghost(*old(batch)),
                        Ghost(spans),
                    );
                    proof {
                        spans = spans.push(token.field.unwrap());
                    }
                }
                i = key_end;
            } else {
                let after: usize = key_end + 1;
                if after < len && line[after] == QUOTE {
                    let val_start: usize = after + 1;
                    let val_end: usize = find_quote_end(line, val_start);
                    push_span(
                        line,
                        base_offset,
                        (key_start, key_end),
                        (val_start, val_end),
                        batch,
                        Ghost(*old(batch)),
                        Ghost(spans),
                    );
                    i = if val_end < len {
                        val_end + 1
                    } else {
                        val_end
                    };
                } else {
                    let val_end: usize = find_byte(line, after, SPACE);
                    push_span(
                        line,
                        base_offset,
                        (key_start, key_end),
                        (after, val_end),
                        batch,
                        Ghost(*old(batch)),
                        Ghost(spans),
                    );
                    i = val_end;
                }
                proof {
                    spans = spans.push(token.field.unwrap());
                }
            }
        }
        proof {
            assert(i == token.next);
            match token.field {
                Some(f) => {
                    assert(spans == before.push(f));
                    assert(before + (seq![f] + logfmt_fields(line@, token.next)) =~= before.push(f)
                        + logfmt_fields(line@, token.next));
                },
                None => {},
            }
        }
    }
    let ghost open = *batch;
    batch.end_record();
    proof {
        assert(logfmt_fields(line@, len as int) =~= Seq::empty());
        assert(spans =~= logfmt_fields(line@, 0));
        lemma_building_ends(
            *old(batch),
            open,
            *batch,
            base_offset,
            len as u32,
            refs_of(spans, base_offset as int),
            kinds_of(spans, line@),
        );
        assert(batch@ =~= old(batch)@ + logfmt_records(line@, base_offset as int));
        lemma_refs_within(spans, base_offset as int, len as int);
        assert forall|n: int|
            old(batch).within(n) && base_offset + line.len() <= n implies #[trigger] batch.within(
            n,
        ) by {
            lemma_within_grows(
                *old(batch),
                *batch,
                base_offset,
                len as u32,
                refs_of(spans, base_offset as int),
                n,
            );
        }
    }
}

/// Every byte of the line is a space or a tab.
pub open spec fn blank_line(line: Seq<u8>) -> bool {
    forall|k: int| 0 <= k < line.len() ==> is_blank(#[trigger] line[k])
}

/// What the range parser makes of one line: nothing of a blank line, else
/// the record of the line.
pub open spec fn logfmt_line() -> spec_fn(Seq<u8>, int) -> Seq<RecordView> {
    |line: Seq<u8>, base: int|
        if blank_line(line) {
            Seq::empty()
        } else {
            logfmt_records(line, base)
        }
}

/// The records of the lines `from..to` of `data`: for every line that has
/// bytes and is not blank, the record of the line, in the order of the lines.
pub open spec fn logfmt_range(data: Seq<u8>, starts: Seq<u64>, from: int, to: int) -> Seq<
    RecordView,
> {
    lines_map(data, starts, from, to, structured_style(), logfmt_line())
}

/// A key that can be written as it is: it has bytes, and none of them is a
/// space or `=`.
pub open spec fn plain_key(key: Seq<u8>) -> bool {
    &&& key.len() > 0
    &&& forall|j: int| 0 <= j < key.len() ==> key[j] != SPACE && key[j] != EQUALS
}

/// A value that can be written without quotes: none of its bytes is a space,
/// and it does not begin with a quote.
pub open spec fn plain_value(value: Seq<u8>) -> bool {
    &&& forall|j: int| 0 <= j < value.len() ==> value[j] != SPACE
    &&& value.len() > 0 ==> value[0] != QUOTE
}

/// The line that spells the pairs: `key=value` tokens with one space between
/// them.
pub open spec fn logfmt_written(pairs: Seq<(Seq<u8>, Seq<u8>)>) -> Seq<u8>
    decreases pairs.len(),
{
    if pairs.len() == 0 {
        Seq::empty()
    } else {
        let token = pairs[0].0 + seq![EQUALS] + pairs[0].1;
        if pairs.len() == 1 {
            token
        } else {
            token + seq![SPACE] + logfmt_written(pairs.skip(1))
        }
    }
}

/// The token that stands at `at` where `key=value` is written there and a
/// space or the end of the line follows.
proof fn lemma_token_written(line: Seq<u8>, at: int, key: Seq<u8>, value: Seq<u8>)
    requires
        0 <= at,
        at + key.len() + 1 + value.len() <= line.len(),
        plain_key(key),
        plain_value(value),
        line.subrange(at, at + key.len()) == key,
        line[at + key.len()] == EQUALS,
        line.subrange(at + key.len() + 1, at + key.len() + 1 + value.len()) == value,
        at + key.len() + 1 + value.len() < line.len() ==> line[at + key.len() + 1 + value.len()]
            == SPACE,
    ensures
        logfmt_token(line, at) == (Token {
            field: Some(
                FieldSpan {
                    key_start: at,
                    key_end: at + key.len(),
                    val_start: at + key.len() + 1,
                    val_end: at + key.len() + 1 + value.len(),
                },
            ),
            next: at + key.len() + 1 + value.len(),
        }),
{
    let key_end = at + key.len();
    let val_start = key_end + 1;
    let val_end = val_start + value.len();
    assert forall|j: int| at <= j < key_end implies line[j] == key[j - at] by {
        assert(line.subrange(at, key_end)[j - at] == line[j]);
    }
    assert forall|j: int| val_start <= j < val_end implies line[j] == value[j - val_start] by {
        assert(line.subrange(val_start, val_end)[j - val_start] == line[j]);
    }
    assert(line[at] == key[0]);
    assert(byte_is_not(SPACE)(line[at]));
    lemma_scan_until_unique(line, at, byte_is_not(SPACE), at);
    assert forall|j: int| at <= j < key_end implies !byte_in2(EQUALS, SPACE)(#[trigger] line[j]) by {
        assert(line[j] == key[j - at]);
    }
    assert(byte_in2(EQUALS, SPACE)(line[key_end]));
    lemma_scan_until_unique(line, at, byte_in2(EQUALS, SPACE), key_end);
    if value.len() > 0 {
        assert(line[val_start] == value[0]);
    }
    assert forall|j: int| val_start <= j < val_end implies !byte_is(SPACE)(#[trigger] line[j]) by {
        assert(line[j] == value[j - val_start]);
    }
    if val_end < line.len() {
        assert(byte_is(SPACE)(line[val_end]));
    }
    lemma_scan_until_unique(line, val_start, byte_is(SPACE), val_end);
}

/// A space before a token changes nothing.
proof fn lemma_fields_after_space(line: Seq<u8>, at: int)
    requires
        0 <= at < line.len(),
        line[at] == SPACE,
    ensures
        logfmt_fields(line, at) == logfmt_fields(line, at + 1),
{
    lemma_scan_until(line, at + 1, byte_is_not(SPACE));
    assert(!byte_is_not(SPACE)(line[at]));
    assert(scan_until(line, at, byte_is_not(SPACE)) == scan_until(
        line,
        at + 1,
        byte_is_not(SPACE),
    ));
    assert(logfmt_token(line, at) == logfmt_token(line, at + 1));
    lemma_logfmt_token(line, at);
    if at + 1 >= line.len() {
        assert(logfmt_token(line, at).next == line.len());
        assert(logfmt_fields(line, line.len() as int) =~= Seq::<FieldSpan>::empty());
    }
}

/// Written pairs are read back: behind any beginning of a line, the fields
/// of the line that spells the pairs are the pairs.
proof fn lemma_written_pairs_read_back(before: Seq<u8>, pairs: Seq<(Seq<u8>, Seq<u8>)>)
    requires
        forall|i: int|
            0 <= i < pairs.len() ==> plain_key((#[trigger] pairs[i]).0) && plain_value(pairs[i].1),
    ensures
        field_bytes(
            logfmt_fields(before + logfmt_written(pairs), before.len() as int),
            before + logfmt_written(pairs),
        ) == pairs,
    decreases pairs.len(),
{
    let line = before + logfmt_written(pairs);
    let at = before.len() as int;
    if pairs.len() == 0 {
        assert(line =~= before);
        assert(logfmt_fields(line, at) =~= Seq::<FieldSpan>::empty());
        assert(field_bytes(Seq::<FieldSpan>::empty(), line) =~= pairs);
    } else {
        let key = pairs[0].0;
        let value = pairs[0].1;
        let token = key + seq![EQUALS] + value;
        let key_end = at + key.len();
        let val_start = key_end + 1;
        let val_end = val_start + value.len();
        let rest = pairs.skip(1);
        assert(plain_key(pairs[0].0) && plain_value(pairs[0].1));
        assert forall|i: int| 0 <= i < rest.len() implies plain_key((#[trigger] rest[i]).0)
            && plain_value(rest[i].1) by {
            assert(rest[i] == pairs[i + 1]);
        }
        if pairs.len() == 1 {
            assert(line =~= before + token);
        } else {
            assert(line =~= before + token + seq![SPACE] + logfmt_written(rest));
            assert(line[val_end] == SPACE);
        }
        assert(line.subrange(at, key_end) =~= key);
        assert(line[key_end] == EQUALS);
        assert(line.subrange(val_start, val_end) =~= value);
        lemma_token_written(line, at, key, value);
        let span = FieldSpan { key_start: at, key_end, val_start, val_end };
        let after = logfmt_fields(line, val_end);
        assert(logfmt_fields(line, at) == seq![span] + after);
        if pairs.len() == 1 {
            assert(after =~= Seq::<FieldSpan>::empty());
            assert(field_bytes(seq![span] + after, line) =~= pairs);
        } else {
            let further = before + token + seq![SPACE];
            lemma_written_pairs_read_back(further, rest);
            assert(further + logfmt_written(rest) =~= line);
            assert(further.len() == val_end + 1);
            lemma_fields_after_space(line, val_end);
            let tail = logfmt_fields(line, val_end + 1);
            assert(field_bytes(tail, line) == rest);
            let all = seq![span] + tail;
            assert forall|i: int| 0 <= i < pairs.len() implies field_bytes(all, line)[i]
                == pairs[i] by {
                if i > 0 {
                    assert(all[i] == tail[i - 1]);
                    assert(field_bytes(tail, line)[i - 1] == rest[i - 1]);
                }
            }
            assert(field_bytes(all, line) =~= pairs);
        }
    }
}

/// Writing and reading back: the fields of the line that spells pairs of
/// plain keys and plain values are these pairs, key for key and value for
/// value.
pub proof fn lemma_logfmt_round_trip(pairs: Seq<(Seq<u8>, Seq<u8>)>)
    requires
        forall|i: int|
            0 <= i < pairs.len() ==> plain_key((#[trigger] pairs[i]).0) && plain_value(pairs[i].1),
    ensures
        field_bytes(logfmt_fields(logfmt_written(pairs), 0), logfmt_written(pairs)) == pairs,
{
    lemma_written_pairs_read_back(Seq::empty(), pairs);
    assert(Seq::<u8>::empty() + logfmt_written(pairs) =~= logfmt_written(pairs));
}

/// Writing, parsing and reading back: the line that spells at least one
/// pair of a plain key and a plain value gives one record, and the keys and
/// values that the record's ranges name in the line are these pairs, in
/// order. The line must fit the 32-bit length of a record.
pub proof fn lemma_logfmt_record_round_trip(pairs: Seq<(Seq<u8>, Seq<u8>)>)
    requires
        pairs.len() >= 1,
        forall|i: int|
            0 <= i < pairs.len() ==> plain_key((#[trigger] pairs[i]).0) && plain_value(pairs[i].1),
        logfmt_written(pairs).len() <= u32::MAX,
    ensures
        logfmt_records(logfmt_written(pairs), 0).len() == 1,
        resolve(
            logfmt_records(logfmt_written(pairs), 0)[0],
            logfmt_written(pairs),
        ).line == logfmt_written(pairs),
        resolve(logfmt_records(logfmt_written(pairs), 0)[0], logfmt_written(pairs)).fields == pairs,
{
    let line = logfmt_written(pairs);
    lemma_logfmt_round_trip(pairs);
    lemma_logfmt_fields(line, 0);
    assert(plain_key(pairs[0].0));
    assert(line.len() > 0);
    assert(line.subrange(0, line.len() as int) =~= line);
    lemma_resolve_record(line, 0, line.len() as int, logfmt_fields(line, 0));
}

/// What a line says, read from the line itself: nothing if it is blank;
/// else one record with the line, the keys and the values of its tokens as
/// bytes.
pub open spec fn logfmt_text_line() -> spec_fn(Seq<u8>) -> Seq<ResolvedRecord> {
    |line: Seq<u8>|
        if blank_line(line) || line.len() == 0 {
            Seq::empty()
        } else {
            let spans = logfmt_fields(line, 0);
            seq![
                ResolvedRecord {
                    line,
                    fields: field_bytes(spans, line),
                    slots: slots_of(kinds_of(spans, line)),
                },
            ]
        }
}

/// What a logfmt line says does not depend on where it stands: read from the
/// buffer, the records of the line `data[base..end]` are what the line says.
pub proof fn lemma_logfmt_line_anywhere(data: Seq<u8>, base: int, end: int)
    requires
        0 <= base <= end <= data.len(),
        data.len() <= u64::MAX,
        end - base <= u32::MAX,
    ensures
        logfmt_line()(data.subrange(base, end), base).map_values(resolver(data))
            == logfmt_text_line()(data.subrange(base, end)),
{
    let line = data.subrange(base, end);
    let records = logfmt_line()(line, base);
    if blank_line(line) || line.len() == 0 {
        assert(records.map_values(resolver(data)) =~= Seq::<ResolvedRecord>::empty());
    } else {
        let spans = logfmt_fields(line, 0);
        lemma_logfmt_fields(line, 0);
        lemma_resolve_record(data, base, end, spans);
        assert(records.map_values(resolver(data)) =~= logfmt_text_line()(line));
    }
}

fn is_blank_line(line: &[u8]) -> (r: bool)
    ensures
        r == blank_line(line@),
{
    let mut k: usize = 0;
    while k < line.len()
        invariant
            k <= line.len(),
            forall|j: int| 0 <= j < k ==> is_blank(#[trigger] line@[j]),
        decreases line.len() - k,
    {
        if line[k] != SPACE && line[k] != TAB {
            assert(!is_blank(line@[k as int]));
            return false;
        }
        k += 1;
    }
    true
}

/// Parses the lines `start_idx..end_idx` of `data`, appending one record for
/// every line that has bytes and is not blank. `line_starts` holds where the
/// lines start. A carriage return before the newline is not part of the line.
pub fn parse_logfmt_lines_range(
    data: &[u8],
    line_starts: &[u64],
    start_idx: usize,
    end_idx: usize,
    batch: &mut StructuredBatch,
)
    requires
        old(batch).complete(),
        start_idx <= end_idx <= line_starts@.len(),
        starts_within(data@, line_starts@, start_idx as int, end_idx as int),
        old(batch).fields@.len() + lines_total(
            data@,
            line_starts@,
            start_idx as int,
            end_idx as int,
            structured_style(),
        ) < u32::MAX,
    ensures
        final(batch).complete(),
        final(batch)@ == old(batch)@ + logfmt_range(
            data@,
            line_starts@,
            start_idx as int,
            end_idx as int,
        ),
        final(batch).fields@.len() <= old(batch).fields@.len() + lines_total(
            data@,
            line_starts@,
            start_idx as int,
            end_idx as int,
            structured_style(),
        ),
        old(batch).within(data@.len() as int) ==> final(batch).within(data@.len() as int),
{
    let mut i: usize = start_idx;
    proof {
        assert(batch@ =~= old(batch)@ + logfmt_range(
            data@,
            line_starts@,
            start_idx as int,
            start_idx as int,
        ));
    }
    while i < end_idx
        invariant
            start_idx <= i <= end_idx <= line_starts@.len(),
            batch.complete(),
            starts_within(data@, line_starts@, start_idx as int, end_idx as int),
            old(batch).fields@.len() + lines_total(
                data@,
                line_starts@,
                start_idx as int,
                end_idx as int,
                structured_style(),
            ) < u32::MAX,
            batch@ == old(batch)@ + logfmt_range(
                data@,
                line_starts@,
                start_idx as int,
                i as int,
            ),
            batch.fields@.len() <= old(batch).fields@.len() + lines_total(
                data@,
                line_starts@,
                start_idx as int,
                i as int,
                structured_style(),
            ),
            old(batch).within(data@.len() as int) ==> batch.within(data@.len() as int),
        decreases end_idx - i,
    {
        let ghost before = batch@;
        proof {
            if i + 1 < line_starts@.len() {
                assert(line_starts@[i + 1] <= data@.len());
            }
            crate::lines::lemma_lines_total_grows(
                data@,
                line_starts@,
                start_idx as int,
                i + 1,
                end_idx as int,
                structured_style(),
            );
        }
        match line_extent(data, line_starts, i, LineStyle { strip_cr: true, trim_final: false }) {
            Some((line_start, line_end)) => {
                let line: &[u8] = &data[line_start..line_end];
                if !is_blank_line(line) {
                    parse_logfmt_line(line, line_start as u64, batch);
                    proof {
                        assert(batch@ =~= old(batch)@ + logfmt_range(
                            data@,
                            line_starts@,
                            start_idx as int,
                            i + 1,
                        ));
                    }
                }
            },
            None => {},
        }
        proof {
            assert(batch@ =~= old(batch)@ + logfmt_range(
                data@,
                line_starts@,
                start_idx as int,
                i + 1,
            ));
        }
        i += 1;
    }
}

/// Places as indices.
pub open spec fn as_indices(places: Seq<int>) -> Seq<usize> {
    places.map_values(|p: int| p as usize)
}

/// The index of every `=` in `data`, in increasing order. The bytes are
/// taken 32 at a time, as a lane of 256 bits gives them: one mask per
/// block, whose set bits are read off lowest first; the bytes after the last
/// whole block are taken one by one.
pub fn find_equals_avx2(data: &[u8]) -> (positions: Vec<usize>)
    ensures
        positions@ == as_indices(places_of(data@, EQUALS, 0)),
{
    let len: usize = data.len();
    let mut positions: Vec<usize> = Vec::with_capacity(len / 10);
    let mut offset: usize = 0;
    proof {
        assert(data@.take(0) =~= Seq::<u8>::empty());
        assert(positions@ =~= as_indices(Seq::<int>::empty()));
    }
    while len - offset >= 32
        invariant
            offset <= len == data.len(),
            positions@ == as_indices(places_of(data@.take(offset as int), EQUALS, 0)),
        decreases len - offset,
    {
        let mask: u64 = byte_mask(data, offset, 32, EQUALS);
        let mut m: u64 = mask;
        let ghost before = places_of(data@.take(offset as int), EQUALS, 0);
        let ghost mut done: int = 0;
        proof {
            assert(before + set_bits(mask, offset as int, 0) =~= before);
        }
        while m != 0
            invariant
                0 <= done <= 32,
                offset + 32 <= len == data.len(),
                mask_of(mask, data@, offset as int, 32, EQUALS),
                forall|t: int|
                    0 <= t < 64 ==> (#[trigger] bit_set(m, t) <==> (t >= done && bit_set(mask, t))),
                positions@ == as_indices(before + set_bits(mask, offset as int, done)),
            decreases 64 - done, m,
        {
            let pos: u32 = m.trailing_zeros();
            proof {
                vstd::std_specs::bits::axiom_u64_trailing_zeros(m);
                assert(pos < 64);
                assert(bit_set(m, pos as int));
                assert(bit_set(mask, pos as int));
                assert(pos < 32);
                assert forall|t: int| done <= t < pos implies !bit_set(mask, t) by {
                    assert((m >> (t as u64)) & 1u64 == 0u64);
                    assert(!bit_set(m, t));
                }
                lemma_set_bits_skip(mask, offset as int, done, pos as int);
                let found = set_bits(mask, offset as int, pos as int);
                assert(as_indices(before + found.push(offset + pos)) =~= as_indices(
                    before + found,
                ).push((offset + pos) as usize));
            }
            positions.push(offset + pos as usize);
            let lowered: u64 = m & (m - 1);
            proof {
                let p: u64 = pos as u64;
                assert(p == 0 || m << ((64 - p) as u64) == 0);
                assert forall|t: int| 0 <= t < 64 implies (#[trigger] bit_set(lowered, t) <==> (t
                    >= pos + 1 && bit_set(mask, t))) by {
                    let tt: u64 = t as u64;
                    lemma_bit_after_clearing_lowest(m, p, tt);
                    assert(lowered == m & ((m - 1) as u64));
                    assert(bit_set(m, t) <==> (t >= done && bit_set(mask, t)));
                    if t < pos {
                        assert((m >> tt) & 1u64 == 0u64);
                        assert(!bit_set(m, t));
                    }
                }
                done = pos as int + 1;
            }
            m = lowered;
        }
        proof {
            assert forall|t: int| done <= t < 32 implies !bit_set(mask, t) by {
                lemma_bit_of_zero(t as u64);
                assert(!bit_set(m, t));
            }
            lemma_set_bits_skip(mask, offset as int, done, 32);
            lemma_block_places(data@, offset as int, EQUALS, mask, 0, 32);
        }
        offset += 32;
    }
    while offset < len
        invariant
            offset <= len == data.len(),
            positions@ == as_indices(places_of(data@.take(offset as int), EQUALS, 0)),
        decreases len - offset,
    {
        proof {
            let before = places_of(data@.take(offset as int), EQUALS, 0);
            lemma_places_step(data@, EQUALS, 0, offset as int);
            assert(as_indices(before.push(0 + offset)) =~= as_indices(before).push(offset));
        }
        if data[offset] == EQUALS {
            positions.push(offset);
        }
        offset += 1;
    }
    proof {
        assert(data@.take(len as int) =~= data@);
    }
    positions
}

} // verus!
