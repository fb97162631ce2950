use pandoraslogs::data::{LogBatch, LogLevel};
use pandoraslogs::parser::{
    find_first_3_spaces, is_leap_year, parse_line, parse_lines_range, parse_timestamp_fast,
    swar_parse_2, swar_parse_4, swar_parse_hms,
};

#[test]
fn test_parse_timestamp() {
    let ts = parse_timestamp_fast(b"2025-02-12T10:31:45Z");

    assert_eq!(ts, 1739356305);
}

#[test]
fn test_parse_timestamp_epoch() {
    let ts = parse_timestamp_fast(b"1970-01-01T00:00:00Z");
    assert_eq!(ts, 0);
}

#[test]
fn test_parse_timestamp_short() {
    let ts = parse_timestamp_fast(b"short");
    assert_eq!(ts, 0);
}

#[test]
fn test_parse_line_full() {
    let line = b"2025-02-12T10:31:45Z INFO api-server request_id=abc123 latency_ms=42";
    let mut batch = LogBatch::new(1);

    parse_line(line, 0, &mut batch, 0);

    assert_eq!(batch.timestamps[0], 1739356305);
    assert_eq!(batch.levels[0], LogLevel::Info);
    assert_eq!(batch.component(line, 0), b"api-server");
    assert_eq!(batch.message(line, 0), b"request_id=abc123 latency_ms=42");
}

#[test]
fn test_parse_line_warn() {
    let line = b"2025-02-12T10:31:46Z WARN auth-service auth_failed user=john ip=192.168.1.1";
    let mut batch = LogBatch::new(1);

    parse_line(line, 0, &mut batch, 0);

    assert_eq!(batch.levels[0], LogLevel::Warn);
    assert_eq!(batch.component(line, 0), b"auth-service");
}

#[test]
fn test_parse_line_error() {
    let line =
        b"2025-02-12T10:31:47Z ERROR database-pool connection_timeout retries=3 queue_size=512";
    let mut batch = LogBatch::new(1);

    parse_line(line, 0, &mut batch, 0);

    assert_eq!(batch.levels[0], LogLevel::Error);
    assert_eq!(batch.component(line, 0), b"database-pool");
    assert_eq!(
        batch.message(line, 0),
        b"connection_timeout retries=3 queue_size=512"
    );
}

#[test]
fn test_find_first_3_spaces() {
    let result = find_first_3_spaces(b"a b c d");
    assert_eq!(result, [1, 3, 5]);

    let result = find_first_3_spaces(b"nospaces");
    assert_eq!(result, [usize::MAX, usize::MAX, usize::MAX]);

    let result = find_first_3_spaces(b"one space");
    assert_eq!(result[0], 3);
    assert_eq!(result[1], usize::MAX);
}

#[test]
fn timestamps_count_leap_days() {
    assert_eq!(parse_timestamp_fast(b"1970-01-02T00:00:00Z"), 86400);
    assert_eq!(parse_timestamp_fast(b"1971-01-01T00:00:00Z"), 365 * 86400);
    assert_eq!(parse_timestamp_fast(b"1972-03-01T00:00:00Z"), (730 + 60) * 86400);
    assert_eq!(parse_timestamp_fast(b"2000-03-01T00:00:00Z"), 951868800);
    assert_eq!(parse_timestamp_fast(b"2024-02-29T23:59:59Z"), 1709251199);
    assert_eq!(parse_timestamp_fast(b"2100-03-01T00:00:00Z"), 4107542400);
}

#[test]
fn timestamps_before_the_epoch_are_zero() {
    assert_eq!(parse_timestamp_fast(b"1969-12-31T23:59:59Z"), 0);
    assert_eq!(parse_timestamp_fast(b"1900-01-01T00:00:00Z"), 0);
    assert_eq!(parse_timestamp_fast(b"1970-01-00T00:00:00Z"), 0);
}

#[test]
fn timestamps_need_twenty_bytes() {
    assert_eq!(parse_timestamp_fast(b"2025-02-12T10:31:45"), 0);
    assert_eq!(parse_timestamp_fast(b""), 0);
    assert_eq!(parse_timestamp_fast(b"2025-02-12T10:31:45Zmore"), 1739356305);
}

#[test]
fn timestamp_separators_are_not_read() {
    assert_eq!(parse_timestamp_fast(b"2025x02x12x10x31x45x"), 1739356305);
}

#[test]
fn month_out_of_range_adds_no_days() {
    assert_eq!(
        parse_timestamp_fast(b"1970-13-01T00:00:00Z"),
        parse_timestamp_fast(b"1970-01-01T00:00:00Z")
    );
    assert_eq!(parse_timestamp_fast(b"1970-00-02T00:00:00Z"), 86400);
}

#[test]
fn swar_digits() {
    assert_eq!(swar_parse_4(b"2025", 0), 2025);
    assert_eq!(swar_parse_4(b"xx0000", 2), 0);
    assert_eq!(swar_parse_4(b"9999", 0), 9999);
    assert_eq!(swar_parse_2(b"07", 0), 7);
    assert_eq!(swar_parse_2(b"a59", 1), 59);
    assert_eq!(swar_parse_hms(b"10:31:45", 0), 103145);
    assert_eq!(swar_parse_hms(b"T23:59:59Z", 1), 235959);
}

#[test]
fn swar_on_bytes_that_are_no_digits() {
    // ':' is 0x3A: ten past '0', read as the digit ten.
    assert_eq!(swar_parse_2(b":0", 0), 100);
    assert_eq!(swar_parse_2(b"0:", 0), 10);
    // '/' is 0x2F: the subtraction borrows from the second byte.
    assert_eq!(swar_parse_2(b"/1", 0), 255 * 10);
    assert_eq!(swar_parse_4(b"/111", 0), 255 * 1000 + 10 + 1);
}

#[test]
fn leap_years() {
    assert!(is_leap_year(2000));
    assert!(is_leap_year(2024));
    assert!(!is_leap_year(1900));
    assert!(!is_leap_year(2023));
    assert!(is_leap_year(0));
    assert!(!is_leap_year(-1));
    assert!(is_leap_year(-4));
}

#[test]
fn line_without_space_is_all_message() {
    let line = b"nospaces";
    let mut batch = LogBatch::new(1);
    parse_line(line, 0, &mut batch, 100);
    assert_eq!(batch.timestamps[0], 0);
    assert_eq!(batch.levels[0], LogLevel::Unknown);
    assert_eq!(batch.component_offsets[0], 100);
    assert_eq!(batch.component_lens[0], 0);
    assert_eq!(batch.message_offsets[0], 100);
    assert_eq!(batch.message_lens[0], 8);
}

#[test]
fn remainder_after_last_separator_is_the_message() {
    let line = b"2025-02-12T10:31:45Z rest-of-line";
    let mut batch = LogBatch::new(1);
    parse_line(line, 0, &mut batch, 0);
    assert_eq!(batch.timestamps[0], 1739356305);
    assert_eq!(batch.levels[0], LogLevel::Unknown);
    assert_eq!(batch.component(line, 0), b"");
    assert_eq!(batch.message(line, 0), b"rest-of-line");

    let line = b"2025-02-12T10:31:45Z WARN rest-of-line";
    let mut batch = LogBatch::new(1);
    parse_line(line, 0, &mut batch, 0);
    assert_eq!(batch.levels[0], LogLevel::Warn);
    assert_eq!(batch.component(line, 0), b"");
    assert_eq!(batch.message(line, 0), b"rest-of-line");
}

#[test]
fn empty_message_after_third_space() {
    let line = b"2025-02-12T10:31:45Z INFO api ";
    let mut batch = LogBatch::new(1);
    parse_line(line, 0, &mut batch, 7);
    assert_eq!(batch.component_offsets[0], 7 + 26);
    assert_eq!(batch.component_lens[0], 3);
    assert_eq!(batch.message_offsets[0], 7 + 30);
    assert_eq!(batch.message_lens[0], 0);
}

#[test]
fn range_fills_the_slots_of_its_lines() {
    let data = b"2025-02-12T10:31:45Z INFO a x\n\n2025-02-12T10:31:46Z WARN b y\n";
    let line_starts: Vec<u64> = vec![0, 30, 31];
    let mut batch = LogBatch::new(3);
    parse_lines_range(data, &line_starts, 0, 3, &mut batch);
    assert_eq!(batch.levels[0], LogLevel::Info);
    assert_eq!(batch.message(data, 0), b"x");
    // the empty line leaves its slot blank
    assert_eq!(batch.levels[1], LogLevel::Unknown);
    assert_eq!(batch.timestamps[1], 0);
    assert_eq!(batch.message_lens[1], 0);
    // the last line runs to the end of the buffer, newline included
    assert_eq!(batch.levels[2], LogLevel::Warn);
    assert_eq!(batch.component(data, 2), b"b");
    assert_eq!(batch.message(data, 2), b"y\n");
}

#[test]
fn range_leaves_other_slots_alone() {
    let data = b"a b c d\ne f g h\n";
    let line_starts: Vec<u64> = vec![0, 8, 16];
    let mut batch = LogBatch::new(3);
    parse_lines_range(data, &line_starts, 1, 2, &mut batch);
    assert_eq!(batch.message_lens[0], 0);
    assert_eq!(batch.message(data, 1), b"h");
    assert_eq!(batch.component(data, 1), b"g");
    assert_eq!(batch.message_lens[2], 0);
}
