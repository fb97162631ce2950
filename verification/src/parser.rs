//! The parser for the fixed plain-text shape
//! `YYYY-MM-DDTHH:MM:SSZ LEVEL component message`.

use crate::ascii::{is_digit, SPACE};
use crate::data::{level_of, LogBatch, LogLevel, PlainRecord};
use crate::lines::{line_bytes, line_extent, line_span, plain_style, starts_within, LineStyle};
use crate::search::{byte_is, find_byte, lemma_scan_until, scan_until};
use vstd::prelude::*;

verus! {

/// Days of a common year before the first of each month.
pub const MONTH_DAYS: [u32; 12] = [0, 31, 59, 90, 120, 151, 181, 212, 243, 273, 304, 334];

/// A timestamp has at least this many bytes.
pub const TIMESTAMP_LEN: usize = 20;

/// Four bytes read as one little-endian word.
pub open spec fn word4(b0: u8, b1: u8, b2: u8, b3: u8) -> int {
    b0 + 0x100 * b1 + 0x1_0000 * b2 + 0x100_0000 * b3
}

/// The number that four bytes spell when read as decimal digits. The bytes
/// are taken as one word, `0x30` is subtracted from all four at once, and
/// the four results are weighted 1000, 100, 10, 1. Bytes that are no digits
/// are not refused: the subtraction then borrows from byte to byte and the
/// number is whatever the weights make of it.
pub open spec fn swar4(b0: u8, b1: u8, b2: u8, b3: u8) -> int {
    let digits = (word4(b0, b1, b2, b3) - 0x3030_3030) % 0x1_0000_0000;
    (digits % 0x100) * 1000 + ((digits / 0x100) % 0x100) * 100 + ((digits / 0x1_0000) % 0x100)
        * 10 + (digits / 0x100_0000) % 0x100
}

/// The number that two bytes spell when read as decimal digits, in the manner
/// of `swar4`.
pub open spec fn swar2(b0: u8, b1: u8) -> int {
    let digits = (b0 + 0x100 * b1 - 0x3030) % 0x1_0000;
    (digits % 0x100) * 10 + (digits / 0x100) % 0x100
}

/// `HH:MM:SS` at `off` as the one number `HHMMSS`.
pub open spec fn swar_hms(b: Seq<u8>, off: int) -> int {
    swar2(b[off], b[off + 1]) * 10000 + swar2(b[off + 3], b[off + 4]) * 100 + swar2(
        b[off + 6],
        b[off + 7],
    )
}

/// On digits `swar4` is the decimal value.
pub proof fn lemma_swar4_digits(b0: u8, b1: u8, b2: u8, b3: u8)
    requires
        is_digit(b0),
        is_digit(b1),
        is_digit(b2),
        is_digit(b3),
    ensures
        swar4(b0, b1, b2, b3) == (b0 - 0x30) * 1000 + (b1 - 0x30) * 100 + (b2 - 0x30) * 10 + (b3
            - 0x30),
{
    let e0 = b0 - 0x30;
    let e1 = b1 - 0x30;
    let e2 = b2 - 0x30;
    let e3 = b3 - 0x30;
    let d = word4(b0, b1, b2, b3) - 0x3030_3030;
    assert(d == e0 + 0x100 * (e1 + 0x100 * (e2 + 0x100 * e3)));
    assert(0 <= d < 0x1_0000_0000);
    assert(d % 0x1_0000_0000 == d);
    assert(d % 0x100 == e0 && d / 0x100 == e1 + 0x100 * (e2 + 0x100 * e3));
    assert(d == (e0 + 0x100 * e1) + 0x1_0000 * (e2 + 0x100 * e3));
    assert(d / 0x1_0000 == e2 + 0x100 * e3);
    assert(d == (e0 + 0x100 * e1 + 0x1_0000 * e2) + 0x100_0000 * e3);
    assert(d / 0x100_0000 == e3);
}

/// On digits `swar2` is the decimal value.
pub proof fn lemma_swar2_digits(b0: u8, b1: u8)
    requires
        is_digit(b0),
        is_digit(b1),
    ensures
        swar2(b0, b1) == (b0 - 0x30) * 10 + (b1 - 0x30),
{
    let d = b0 + 0x100 * b1 - 0x3030;
    assert(d == (b0 - 0x30) + 0x100 * (b1 - 0x30));
}

pub open spec fn leap_year(y: int) -> bool {
    (y % 4 == 0 && y % 100 != 0) || y % 400 == 0
}

/// The days from 1970-01-01 to the first day of `year`. For years up to 1970
/// no leap day is counted.
pub open spec fn days_before_year(year: int) -> int {
    (year - 1970) * 365 + if year > 1970 {
        (year - 1969) / 4 - (year - 1901) / 100 + (year - 1601) / 400
    } else {
        0
    }
}

/// The days from the first day of `year` to the first day of `month`; 0 for
/// a month outside `1..=12`.
pub open spec fn days_before_month(year: int, month: int) -> int {
    if 1 <= month <= 12 {
        MONTH_DAYS@[month - 1] + if month > 2 && leap_year(year) {
            1int
        } else {
            0int
        }
    } else {
        0
    }
}

/// Seconds from the epoch to the given date and time of day, the latter as
/// the one number `HHMMSS`.
pub open spec fn seconds_since_epoch(year: int, month: int, day: int, hms: int) -> int {
    (days_before_year(year) + days_before_month(year, month) + day - 1) * 86400 + (hms / 10000)
        * 3600 + ((hms / 100) % 100) * 60 + hms % 100
}

/// The timestamp that the bytes `b` spell: seconds since 1970-01-01T00:00:00Z,
/// 0 for fewer than 20 bytes and for a time before the epoch. Only the digit
/// positions are read; the separators and the `Z` are not looked at.
pub open spec fn timestamp_of(b: Seq<u8>) -> u64 {
    if b.len() < TIMESTAMP_LEN {
        0
    } else {
        let secs = seconds_since_epoch(
            swar4(b[0], b[1], b[2], b[3]),
            swar2(b[5], b[6]),
            swar2(b[8], b[9]),
            swar_hms(b, 11),
        );
        if secs < 0 {
            0
        } else {
            secs as u64
        }
    }
}

/// The leap years among the years `1970..year`.
pub open spec fn leap_years_before(year: int) -> int
    decreases year - 1970,
{
    if year <= 1970 {
        0
    } else {
        leap_years_before(year - 1) + if leap_year(year - 1) {
            1int
        } else {
            0int
        }
    }
}

proof fn lemma_fourth_year(y: int)
    requires
        y >= 1971,
    ensures
        (y - 1968) / 4 - (y - 1969) / 4 == if y % 4 == 0 {
            1int
        } else {
            0int
        },
{
    let q = y / 4;
    let r = y % 4;
    assert(y == 4 * q + r && 0 <= r < 4);
    assert(y - 1968 == 4 * (q - 492) + r);
    assert((y - 1968) / 4 == q - 492);
    if r == 0 {
        assert(y - 1969 == 4 * (q - 493) + 3);
        assert((y - 1969) / 4 == q - 493);
    } else {
        assert(y - 1969 == 4 * (q - 492) + (r - 1));
        assert((y - 1969) / 4 == q - 492);
    }
}

proof fn lemma_hundredth_year(y: int)
    requires
        y >= 1971,
    ensures
        (y - 1900) / 100 - (y - 1901) / 100 == if y % 100 == 0 {
            1int
        } else {
            0int
        },
{
    let q = y / 100;
    let r = y % 100;
    assert(y == 100 * q + r && 0 <= r < 100);
    assert(y - 1900 == 100 * (q - 19) + r);
    assert((y - 1900) / 100 == q - 19);
    if r == 0 {
        assert(y - 1901 == 100 * (q - 20) + 99);
        assert((y - 1901) / 100 == q - 20);
    } else {
        assert(y - 1901 == 100 * (q - 19) + (r - 1));
        assert((y - 1901) / 100 == q - 19);
    }
}

proof fn lemma_four_hundredth_year(y: int)
    requires
        y >= 1971,
    ensures
        (y - 1600) / 400 - (y - 1601) / 400 == if y % 400 == 0 {
            1int
        } else {
            0int
        },
{
    let q = y / 400;
    let r = y % 400;
    assert(y == 400 * q + r && 0 <= r < 400);
    assert(y - 1600 == 400 * (q - 4) + r);
    assert((y - 1600) / 400 == q - 4);
    if r == 0 {
        assert(y - 1601 == 400 * (q - 5) + 399);
        assert((y - 1601) / 400 == q - 5);
    } else {
        assert(y - 1601 == 400 * (q - 4) + (r - 1));
        assert((y - 1601) / 400 == q - 4);
    }
}

proof fn lemma_leap_by_remainders(y: int)
    requires
        y >= 0,
    ensures
        y % 400 == 0 ==> y % 100 == 0,
        y % 100 == 0 ==> y % 4 == 0,
{
    let q = y / 400;
    let h = y / 100;
    if y % 400 == 0 {
        assert(y == 100 * (4 * q));
    }
    if y % 100 == 0 {
        assert(y == 4 * (25 * h));
    }
}

/// One year on, the days before the year are 365 more, and one more still
/// after a leap year.
proof fn lemma_year_step(year: int)
    requires
        year >= 1970,
    ensures
        days_before_year(year + 1) == days_before_year(year) + 365 + if leap_year(year) {
            1int
        } else {
            0int
        },
{
    if year == 1970 {
        assert(days_before_year(1971) == 365);
    } else {
        lemma_fourth_year(year);
        lemma_hundredth_year(year);
        lemma_four_hundredth_year(year);
        lemma_leap_by_remainders(year);
        let a = (year - 1968) / 4 - (year - 1969) / 4;
        let b = (year - 1900) / 100 - (year - 1901) / 100;
        let c = (year - 1600) / 400 - (year - 1601) / 400;
        assert(days_before_year(year + 1) - days_before_year(year) == 365 + a - b + c);
    }
}

/// The closed form counts the calendar: the days before a year from 1970 on
/// are 365 for every year gone by and one more for every leap year among
/// them.
pub proof fn lemma_days_before_year(year: int)
    requires
        year >= 1970,
    ensures
        days_before_year(year) == 365 * (year - 1970) + leap_years_before(year),
    decreases year - 1970,
{
    if year > 1970 {
        lemma_days_before_year(year - 1);
        lemma_year_step(year - 1);
    }
}

pub fn is_leap_year(y: i64) -> (r: bool)
    ensures
        r == leap_year(y as int),
{
    (y % 4 == 0 && y % 100 != 0) || (y % 400 == 0)
}

/// Four digits at `off` as a number.
pub fn swar_parse_4(b: &[u8], off: usize) -> (r: u32)
    requires
        off + 4 <= b.len(),
    ensures
        r == swar4(b@[off as int], b@[off + 1], b@[off + 2], b@[off + 3]),
        r <= 255 * 1111,
{
    let b0: u8 = b[off];
    let b1: u8 = b[off + 1];
    let b2: u8 = b[off + 2];
    let b3: u8 = b[off + 3];
    let chunk: u32 = (b0 as u32) | ((b1 as u32) << 8) | ((b2 as u32) << 16) | ((b3 as u32) << 24);
    let digits: u32 = chunk.wrapping_sub(0x3030_3030);
    let d0: u32 = digits & 0xFF;
    let d1: u32 = (digits >> 8) & 0xFF;
    let d2: u32 = (digits >> 16) & 0xFF;
    let d3: u32 = (digits >> 24) & 0xFF;
    proof {
        assert(chunk == b0 + 0x100 * b1 + 0x1_0000 * b2 + 0x100_0000 * b3) by (bit_vector)
            requires
                chunk == (b0 as u32) | ((b1 as u32) << 8) | ((b2 as u32) << 16) | ((b3 as u32)
                    << 24),
        ;
        assert(digits == (word4(b0, b1, b2, b3) - 0x3030_3030) % 0x1_0000_0000);
        assert(d0 == digits % 0x100 && d1 == (digits / 0x100) % 0x100 && d2 == (digits
            / 0x1_0000) % 0x100 && d3 == (digits / 0x100_0000) % 0x100) by (bit_vector)
            requires
                d0 == digits & 0xFF,
                d1 == (digits >> 8) & 0xFF,
                d2 == (digits >> 16) & 0xFF,
                d3 == (digits >> 24) & 0xFF,
        ;
    }
    d0 * 1000 + d1 * 100 + d2 * 10 + d3
}

/// Two digits at `off` as a number.
pub fn swar_parse_2(b: &[u8], off: usize) -> (r: u32)
    requires
        off + 2 <= b.len(),
    ensures
        r == swar2(b@[off as int], b@[off + 1]),
        r <= 255 * 11,
{
    let b0: u8 = b[off];
    let b1: u8 = b[off + 1];
    let chunk: u16 = (b0 as u16) | ((b1 as u16) << 8);
    let digits: u16 = chunk.wrapping_sub(0x3030);
    let d0: u32 = (digits & 0xFF) as u32;
    let d1: u32 = ((digits >> 8) & 0xFF) as u32;
    proof {
        assert(chunk == b0 + 0x100 * b1) by (bit_vector)
            requires
                chunk == (b0 as u16) | ((b1 as u16) << 8),
        ;
        assert(digits == (b0 + 0x100 * b1 - 0x3030) % 0x1_0000);
        assert(d0 == digits % 0x100 && d1 == (digits / 0x100) % 0x100) by (bit_vector)
            requires
                d0 == (digits & 0xFF) as u32,
                d1 == ((digits >> 8) & 0xFF) as u32,
        ;
    }
    d0 * 10 + d1
}

/// `HH:MM:SS` at `off` as the one number `HHMMSS`.
pub fn swar_parse_hms(b: &[u8], off: usize) -> (r: u32)
    requires
        off + 8 <= b.len(),
    ensures
        r == swar_hms(b@, off as int),
        r <= 255 * 11 * 10101,
{
    let hh: u32 = swar_parse_2(b, off);
    let mm: u32 = swar_parse_2(b, off + 3);
    let ss: u32 = swar_parse_2(b, off + 6);
    hh * 10000 + mm * 100 + ss
}

/// Seconds since the epoch for the timestamp at the start of `b`.
pub fn parse_timestamp_fast(b: &[u8]) -> (r: u64)
    ensures
        r == timestamp_of(b@),
{
    if b.len() < TIMESTAMP_LEN {
        return 0;
    }
    let year: i64 = swar_parse_4(b, 0) as i64;
    let month: u32 = swar_parse_2(b, 5);
    let day: u32 = swar_parse_2(b, 8);
    let hms: u32 = swar_parse_hms(b, 11);
    let hour: u32 = hms / 10000;
    let min: u32 = (hms / 100) % 100;
    let sec: u32 = hms % 100;

    let mut days: i64 = (year - 1970) * 365;
    if year > 1970 {
        days += (year - 1969) / 4;
        days -= (year - 1901) / 100;
        days += (year - 1601) / 400;
    }
    assert(days == days_before_year(year as int));
    if 1 <= month && month <= 12 {
        days += MONTH_DAYS[(month - 1) as usize] as i64;
        if month > 2 && is_leap_year(year) {
            days += 1;
        }
    }
    assert(days == days_before_year(year as int) + days_before_month(year as int, month as int));
    days += (day as i64) - 1;

    let total_secs: i64 = days * 86400 + hour as i64 * 3600 + min as i64 * 60 + sec as i64;
    if total_secs < 0 {
        0
    } else {
        total_secs as u64
    }
}

/// The positions of the first three spaces of `line`; `line.len()` stands
/// for a space that is not there, and for every space after it.
pub open spec fn first_spaces(line: Seq<u8>) -> (int, int, int) {
    let len = line.len() as int;
    let s1 = scan_until(line, 0, byte_is(SPACE));
    let s2 = if s1 < len {
        scan_until(line, s1 + 1, byte_is(SPACE))
    } else {
        len
    };
    let s3 = if s2 < len {
        scan_until(line, s2 + 1, byte_is(SPACE))
    } else {
        len
    };
    (s1, s2, s3)
}

/// The positions of the first three spaces of `line`, `usize::MAX` for each
/// one that is missing.
pub fn find_first_3_spaces(line: &[u8]) -> (r: [usize; 3])
    ensures
        ({
            let (s1, s2, s3) = first_spaces(line@);
            &&& r@[0] == if s1 < line@.len() {
                s1
            } else {
                usize::MAX as int
            }
            &&& r@[1] == if s2 < line@.len() {
                s2
            } else {
                usize::MAX as int
            }
            &&& r@[2] == if s3 < line@.len() {
                s3
            } else {
                usize::MAX as int
            }
        }),
{
    let len: usize = line.len();
    let mut result: [usize; 3] = [usize::MAX, usize::MAX, usize::MAX];
    let s1: usize = find_byte(line, 0, SPACE);
    if s1 < len {
        result[0] = s1;
        let s2: usize = find_byte(line, s1 + 1, SPACE);
        if s2 < len {
            result[1] = s2;
            let s3: usize = find_byte(line, s2 + 1, SPACE);
            if s3 < len {
                result[2] = s3;
            }
        }
    }
    result
}

/// The record that a line gives. The line is cut at its first three spaces
/// into timestamp, level, component and message. Where separators are
/// missing, what follows the last one found is the message, and the fields
/// that would have stood between are empty; a line without any space is all
/// message. Ranges are absolute: `base` is the offset of the line.
pub open spec fn plain_record(line: Seq<u8>, base: int) -> PlainRecord {
    let len = line.len() as int;
    let (s1, s2, s3) = first_spaces(line);
    if s1 >= len {
        PlainRecord {
            timestamp: 0,
            level: LogLevel::Unknown,
            component_offset: base as u64,
            component_len: 0,
            message_offset: base as u64,
            message_len: len as u32,
        }
    } else if s2 >= len {
        PlainRecord {
            timestamp: timestamp_of(line.subrange(0, s1)),
            level: LogLevel::Unknown,
            component_offset: (base + s1 + 1) as u64,
            component_len: 0,
            message_offset: (base + s1 + 1) as u64,
            message_len: (len - (s1 + 1)) as u32,
        }
    } else if s3 >= len {
        PlainRecord {
            timestamp: timestamp_of(line.subrange(0, s1)),
            level: level_of(line.subrange(s1 + 1, s2)),
            component_offset: (base + s2 + 1) as u64,
            component_len: 0,
            message_offset: (base + s2 + 1) as u64,
            message_len: (len - (s2 + 1)) as u32,
        }
    } else {
        PlainRecord {
            timestamp: timestamp_of(line.subrange(0, s1)),
            level: level_of(line.subrange(s1 + 1, s2)),
            component_offset: (base + s2 + 1) as u64,
            component_len: (s3 - (s2 + 1)) as u32,
            message_offset: (base + s3 + 1) as u64,
            message_len: (len - (s3 + 1)) as u32,
        }
    }
}

/// The component and the message of a record lie inside its line.
pub proof fn lemma_plain_record_within(line: Seq<u8>, base: int)
    requires
        0 <= base,
        base + line.len() <= u64::MAX,
        line.len() <= u32::MAX,
    ensures
        plain_record(line, base).within(base, base + line.len()),
{
    let len = line.len() as int;
    let (s1, s2, s3) = first_spaces(line);
    lemma_scan_until(line, 0, byte_is(SPACE));
    if s1 < len {
        lemma_scan_until(line, s1 + 1, byte_is(SPACE));
        if s2 < len {
            lemma_scan_until(line, s2 + 1, byte_is(SPACE));
        }
    }
}

/// Parses `line`, which stands at `base_offset`, into slot `index`.
pub fn parse_line(line: &[u8], index: usize, batch: &mut LogBatch, base_offset: u64)
    requires
        old(batch).wf(),
        index < old(batch).len,
        base_offset + line.len() <= u64::MAX,
        line.len() <= u32::MAX,
    ensures
        final(batch).wf(),
        final(batch).len == old(batch).len,
        final(batch)@ == old(batch)@.update(index as int, plain_record(line@, base_offset as int)),
{
    let len: usize = line.len();
    let spaces: [usize; 3] = find_first_3_spaces(line);
    let space1: usize = spaces[0];
    proof {
        let (s1, s2, s3) = first_spaces(line@);
        lemma_scan_until(line@, 0, byte_is(SPACE));
        if s1 < len {
            lemma_scan_until(line@, s1 + 1, byte_is(SPACE));
            if s2 < len {
                lemma_scan_until(line@, s2 + 1, byte_is(SPACE));
            }
        }
    }
    if space1 == usize::MAX {
        batch.set_record(
            index,
            PlainRecord {
                timestamp: 0,
                level: LogLevel::Unknown,
                component_offset: base_offset,
                component_len: 0,
                message_offset: base_offset,
                message_len: len as u32,
            },
        );
        return ;
    }
    let timestamp: u64 = parse_timestamp_fast(&line[0..space1]);
    let after_ts: usize = space1 + 1;
    let space2: usize = spaces[1];
    if space2 == usize::MAX {
        batch.set_record(
            index,
            PlainRecord {
                timestamp,
                level: LogLevel::Unknown,
                component_offset: base_offset + after_ts as u64,
                component_len: 0,
                message_offset: base_offset + after_ts as u64,
                message_len: (len - after_ts) as u32,
            },
        );
        return ;
    }
    let level: LogLevel = LogLevel::from_bytes(&line[after_ts..space2]);
    let after_level: usize = space2 + 1;
    let space3: usize = spaces[2];
    if space3 == usize::MAX {
        batch.set_record(
            index,
            PlainRecord {
                timestamp,
                level,
                component_offset: base_offset + after_level as u64,
                component_len: 0,
                message_offset: base_offset + after_level as u64,
                message_len: (len - after_level) as u32,
            },
        );
        return ;
    }
    let after_component: usize = space3 + 1;
    batch.set_record(
        index,
        PlainRecord {
            timestamp,
            level,
            component_offset: base_offset + after_level as u64,
            component_len: (space3 - after_level) as u32,
            message_offset: base_offset + after_component as u64,
            message_len: (len - after_component) as u32,
        },
    );
}

/// The records after the lines `from..to` were parsed into their slots: slot
/// `i` holds the record of line `i`, and the slot of a line without bytes is
/// as it was.
pub open spec fn plain_range(
    records: Seq<PlainRecord>,
    data: Seq<u8>,
    starts: Seq<u64>,
    from: int,
    to: int,
) -> Seq<PlainRecord>
    decreases to - from,
{
    if to <= from {
        records
    } else {
        let before = plain_range(records, data, starts, from, to - 1);
        match line_span(data, starts, to - 1, plain_style()) {
            Some((start, end)) => before.update(
                to - 1,
                plain_record(data.subrange(start, end), start),
            ),
            None => before,
        }
    }
}

/// Parses the lines `start_idx..end_idx` of `data` into the slots of the same
/// numbers. `line_starts` holds where the lines start.
pub fn parse_lines_range(
    data: &[u8],
    line_starts: &[u64],
    start_idx: usize,
    end_idx: usize,
    batch: &mut LogBatch,
)
    requires
        old(batch).wf(),
        start_idx <= end_idx <= line_starts@.len(),
        end_idx <= old(batch).len,
        starts_within(data@, line_starts@, start_idx as int, end_idx as int),
        forall|i: int|
            start_idx <= i < end_idx ==> (#[trigger] line_bytes(
                data@,
                line_starts@,
                i,
                plain_style(),
            )).len() <= u32::MAX,
    ensures
        final(batch).wf(),
        final(batch).len == old(batch).len,
        final(batch)@ == plain_range(
            old(batch)@,
            data@,
            line_starts@,
            start_idx as int,
            end_idx as int,
        ),
{
    let mut i: usize = start_idx;
    while i < end_idx
        invariant
            start_idx <= i <= end_idx <= line_starts@.len(),
            end_idx <= batch.len,
            batch.wf(),
            batch.len == old(batch).len,
            starts_within(data@, line_starts@, start_idx as int, end_idx as int),
            forall|k: int|
                start_idx <= k < end_idx ==> (#[trigger] line_bytes(
                    data@,
                    line_starts@,
                    k,
                    plain_style(),
                )).len() <= u32::MAX,
            batch@ == plain_range(old(batch)@, data@, line_starts@, start_idx as int, i as int),
        decreases end_idx - i,
    {
        proof {
            if i + 1 < line_starts@.len() {
                assert(line_starts@[i + 1] <= data@.len());
            }
            assert(line_bytes(data@, line_starts@, i as int, plain_style()).len() <= u32::MAX);
        }
        match line_extent(data, line_starts, i, LineStyle { strip_cr: false, trim_final: false }) {
            Some((line_start, line_end)) => {
                let line: &[u8] = &data[line_start..line_end];
                parse_line(line, i, batch, line_start as u64);
            },
            None => {},
        }
        i += 1;
    }
}

} // verus!
