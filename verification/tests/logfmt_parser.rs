use pandoraslogs::logfmt_parser::{
    classify_and_set, find_equals_avx2, parse_logfmt_line, parse_logfmt_lines_range,
};
use pandoraslogs::structured::{StructuredBatch, ABSENT};

fn make_batch() -> StructuredBatch {
    StructuredBatch::with_capacity(16, 64)
}

fn contains(haystack: &[u8], needle: &[u8]) -> bool {
    haystack.windows(needle.len()).any(|w| w == needle)
}

#[test]
fn test_parse_simple_logfmt() {
    let line = b"level=info msg=hello ts=2025-02-12T10:31:45Z";
    let mut batch = make_batch();

    parse_logfmt_line(line, 0, &mut batch);

    assert_eq!(batch.len, 1);
    assert_eq!(batch.field_count(0), 3);

    let fields = batch.record_fields(0);
    assert_eq!(batch.field_key(line, &fields[0]), b"level");
    assert_eq!(batch.field_value(line, &fields[0]), b"info");
    assert_eq!(batch.field_key(line, &fields[1]), b"msg");
    assert_eq!(batch.field_value(line, &fields[1]), b"hello");
    assert_eq!(batch.field_key(line, &fields[2]), b"ts");
    assert_eq!(batch.field_value(line, &fields[2]), b"2025-02-12T10:31:45Z");
}

#[test]
fn test_parse_logfmt_quoted_value() {
    let line = br#"level=info msg="hello world" latency_ms=42"#;
    let mut batch = make_batch();

    parse_logfmt_line(line, 0, &mut batch);

    assert_eq!(batch.len, 1);
    assert_eq!(batch.field_count(0), 3);

    let fields = batch.record_fields(0);
    assert_eq!(batch.field_value(line, &fields[1]), b"hello world");
}

#[test]
fn test_parse_logfmt_well_known() {
    let line = b"ts=2025-02-12 level=error message=fail component=db";
    let mut batch = make_batch();

    parse_logfmt_line(line, 0, &mut batch);

    assert_eq!(batch.timestamp_value(line, 0), Some(&b"2025-02-12"[..]));
    assert_eq!(batch.level_value(line, 0), Some(&b"error"[..]));
    assert_eq!(batch.message_value(line, 0), Some(&b"fail"[..]));
    assert_eq!(batch.component_value(line, 0), Some(&b"db"[..]));
}

#[test]
fn test_parse_logfmt_escaped_quote() {
    let line = br#"msg="said \"hello\"" level=info"#;
    let mut batch = make_batch();

    parse_logfmt_line(line, 0, &mut batch);

    assert_eq!(batch.len, 1);
    assert_eq!(batch.field_count(0), 2);

    let fields = batch.record_fields(0);
    let msg = batch.field_value(line, &fields[0]);
    assert!(contains(msg, b"hello"));
}

#[test]
fn test_parse_logfmt_empty_value() {
    let line = b"key= other=value";
    let mut batch = make_batch();

    parse_logfmt_line(line, 0, &mut batch);

    assert_eq!(batch.len, 1);
    assert_eq!(batch.field_count(0), 2);

    let fields = batch.record_fields(0);
    assert_eq!(batch.field_key(line, &fields[0]), b"key");
    assert_eq!(batch.field_value(line, &fields[0]), b"");
    assert_eq!(batch.field_key(line, &fields[1]), b"other");
    assert_eq!(batch.field_value(line, &fields[1]), b"value");
}

#[test]
fn test_parse_logfmt_multiple_lines() {
    let data = b"level=info msg=start\nlevel=warn msg=slow\nlevel=error msg=fail\n";
    let mut batch = make_batch();
    let line_starts: Vec<u64> = vec![0, 21, 41];

    parse_logfmt_lines_range(data, &line_starts, 0, 3, &mut batch);

    assert_eq!(batch.len, 3);

    assert_eq!(batch.level_value(data, 0), Some(&b"info"[..]));
    assert_eq!(batch.level_value(data, 1), Some(&b"warn"[..]));
    assert_eq!(batch.level_value(data, 2), Some(&b"error"[..]));
}

#[test]
fn test_parse_logfmt_base_offset() {
    let line = b"key=value";
    let base = 500u64;
    let mut batch = make_batch();

    parse_logfmt_line(line, base, &mut batch);

    let fields = batch.record_fields(0);
    assert_eq!(fields[0].key_offset, base);
    assert_eq!(fields[0].val_offset, base + 4);
}

#[test]
fn escapes_are_kept_verbatim() {
    let line = br#"msg="said \"hi\"" level=info"#;
    let mut batch = make_batch();
    parse_logfmt_line(line, 0, &mut batch);
    assert_eq!(batch.field_count(0), 2);
    let fields = batch.record_fields(0);
    assert_eq!(batch.field_value(line, &fields[0]), br#"said \"hi\""#);
    assert_eq!(batch.level_value(line, 0), Some(&b"info"[..]));
    assert_eq!(batch.message_value(line, 0), Some(&br#"said \"hi\""#[..]));
}

#[test]
fn lone_key_has_an_empty_value() {
    let line = b"  verbose level=info  debug";
    let mut batch = make_batch();
    parse_logfmt_line(line, 10, &mut batch);
    assert_eq!(batch.field_count(0), 3);
    let fields = batch.record_fields(0);
    assert_eq!(fields[0].key_offset, 12);
    assert_eq!(fields[0].key_len, 7);
    assert_eq!(fields[0].val_offset, 19);
    assert_eq!(fields[0].val_len, 0);
    assert_eq!(fields[2].key_offset, 10 + 22);
    assert_eq!(fields[2].key_len, 5);
    assert_eq!(fields[2].val_len, 0);
}

#[test]
fn logfmt_empty_line_gives_no_record() {
    let mut batch = make_batch();
    parse_logfmt_line(b"", 0, &mut batch);
    assert_eq!(batch.len, 0);
    parse_logfmt_line(b"   ", 0, &mut batch);
    assert_eq!(batch.len, 1);
    assert_eq!(batch.field_count(0), 0);
}

#[test]
fn unterminated_quote_runs_to_the_end() {
    let line = br#"a=1 msg="not closed"#;
    let mut batch = make_batch();
    parse_logfmt_line(line, 0, &mut batch);
    assert_eq!(batch.field_count(0), 2);
    let fields = batch.record_fields(0);
    assert_eq!(batch.field_value(line, &fields[1]), b"not closed");
    let line = br#"msg="ends with backslash\"#;
    let mut batch = make_batch();
    parse_logfmt_line(line, 0, &mut batch);
    let fields = batch.record_fields(0);
    assert_eq!(fields[0].val_offset + fields[0].val_len as u64, line.len() as u64);
}

#[test]
fn empty_key_before_equals() {
    let line = b"=x a==b";
    let mut batch = make_batch();
    parse_logfmt_line(line, 0, &mut batch);
    assert_eq!(batch.field_count(0), 2);
    let fields = batch.record_fields(0);
    assert_eq!(batch.field_key(line, &fields[0]), b"");
    assert_eq!(batch.field_value(line, &fields[0]), b"x");
    assert_eq!(batch.field_key(line, &fields[1]), b"a");
    assert_eq!(batch.field_value(line, &fields[1]), b"=b");
}

#[test]
fn token_follows_closing_quote_directly() {
    let line = br#"a="x"b=2"#;
    let mut batch = make_batch();
    parse_logfmt_line(line, 0, &mut batch);
    assert_eq!(batch.field_count(0), 2);
    let fields = batch.record_fields(0);
    assert_eq!(batch.field_value(line, &fields[0]), b"x");
    assert_eq!(batch.field_key(line, &fields[1]), b"b");
    assert_eq!(batch.field_value(line, &fields[1]), b"2");
}

#[test]
fn logfmt_last_key_of_a_kind_wins() {
    let line = b"ts=1 time=2 t=3";
    let mut batch = make_batch();
    parse_logfmt_line(line, 0, &mut batch);
    assert_eq!(batch.timestamp_value(line, 0), Some(&b"3"[..]));
    assert_eq!(batch.well_known[0].timestamp, 2);
    assert_eq!(batch.well_known[0].level, ABSENT);
}

#[test]
fn classify_and_set_points_the_slot() {
    let mut batch = make_batch();
    batch.begin_record(0, 0);
    classify_and_set(b"Severity", 7, &mut batch);
    classify_and_set(b"unknown", 8, &mut batch);
    assert_eq!(batch.well_known[0].level, 7);
    assert_eq!(batch.well_known[0].message, ABSENT);
    assert_eq!(batch.well_known[0].timestamp, ABSENT);
    assert_eq!(batch.well_known[0].component, ABSENT);
}

#[test]
fn logfmt_range_skips_blank_lines_and_strips_carriage_returns() {
    let data = b"a=1\r\n \t \n\nb=2\r\nc=3";
    let mut line_starts: Vec<u64> = vec![0];
    for (i, &b) in data.iter().enumerate() {
        if b == b'\n' && i + 1 < data.len() {
            line_starts.push(i as u64 + 1);
        }
    }
    let n = line_starts.len();
    line_starts.push(data.len() as u64);
    let mut batch = make_batch();
    parse_logfmt_lines_range(data, &line_starts, 0, n, &mut batch);
    assert_eq!(batch.len, 3);
    assert_eq!(batch.raw_line(data, 0), b"a=1");
    assert_eq!(batch.raw_line(data, 1), b"b=2");
    assert_eq!(batch.raw_line(data, 2), b"c=3");
}

#[test]
fn equals_signs_are_found_in_order() {
    let mut data = vec![b'a'; 100];
    let places = [0usize, 1, 31, 32, 33, 63, 64, 95, 96, 99];
    for &p in &places {
        data[p] = b'=';
    }
    assert_eq!(find_equals_avx2(&data), places.to_vec());
    assert_eq!(find_equals_avx2(b""), Vec::<usize>::new());
    assert_eq!(find_equals_avx2(b"no sign here"), Vec::<usize>::new());
    assert_eq!(find_equals_avx2(b"a=1 b=2"), vec![1, 5]);
    assert_eq!(find_equals_avx2(&[b'='; 70]), (0..70).collect::<Vec<usize>>());
}
