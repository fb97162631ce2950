use pandoraslogs::json_parser::{
    extract_mask_positions, extract_mask_positions_raw, find_string_end_scalar,
    find_string_end_simd, is_json_value_terminator, is_json_whitespace, parse_json_line,
    parse_json_lines_range, parse_json_value, resolve_escapes, structural_scan_avx2,
};
use pandoraslogs::structured::{StructuredBatch, ABSENT};

fn make_batch() -> StructuredBatch {
    StructuredBatch::with_capacity(16, 64)
}

fn contains(haystack: &[u8], needle: &[u8]) -> bool {
    haystack.windows(needle.len()).any(|w| w == needle)
}

#[test]
fn test_parse_simple_json_line() {
    let line = br#"{"level":"info","msg":"hello world","ts":"2025-02-12T10:31:45Z"}"#;
    let mut batch = make_batch();

    parse_json_line(line, 0, &mut batch);

    assert_eq!(batch.len, 1);
    assert_eq!(batch.field_count(0), 3);

    let fields = batch.record_fields(0);
    assert_eq!(batch.field_key(line, &fields[0]), b"level");
    assert_eq!(batch.field_value(line, &fields[0]), b"info");
    assert_eq!(batch.field_key(line, &fields[1]), b"msg");
    assert_eq!(batch.field_value(line, &fields[1]), b"hello world");
    assert_eq!(batch.field_key(line, &fields[2]), b"ts");
    assert_eq!(batch.field_value(line, &fields[2]), b"2025-02-12T10:31:45Z");
}

#[test]
fn test_well_known_detection() {
    let line = br#"{"timestamp":"2025-02-12T10:31:45Z","level":"error","message":"disk full","component":"storage"}"#;
    let mut batch = make_batch();

    parse_json_line(line, 0, &mut batch);

    assert_eq!(batch.len, 1);
    assert_eq!(batch.timestamp_value(line, 0), Some(&b"2025-02-12T10:31:45Z"[..]));
    assert_eq!(batch.level_value(line, 0), Some(&b"error"[..]));
    assert_eq!(batch.message_value(line, 0), Some(&b"disk full"[..]));
    assert_eq!(batch.component_value(line, 0), Some(&b"storage"[..]));
}

#[test]
fn test_parse_json_with_numbers() {
    let line = br#"{"latency_ms":42,"status":200,"success":true}"#;
    let mut batch = make_batch();

    parse_json_line(line, 0, &mut batch);

    assert_eq!(batch.len, 1);
    assert_eq!(batch.field_count(0), 3);

    let fields = batch.record_fields(0);
    assert_eq!(batch.field_key(line, &fields[0]), b"latency_ms");
    assert_eq!(batch.field_value(line, &fields[0]), b"42");
    assert_eq!(batch.field_key(line, &fields[1]), b"status");
    assert_eq!(batch.field_value(line, &fields[1]), b"200");
    assert_eq!(batch.field_key(line, &fields[2]), b"success");
    assert_eq!(batch.field_value(line, &fields[2]), b"true");
}

#[test]
fn test_parse_json_with_nested_object() {
    let line = br#"{"msg":"hello","context":{"user":"john","ip":"10.0.0.1"},"level":"info"}"#;
    let mut batch = make_batch();

    parse_json_line(line, 0, &mut batch);

    assert_eq!(batch.len, 1);
    assert_eq!(batch.field_count(0), 3);

    let fields = batch.record_fields(0);
    assert_eq!(batch.field_key(line, &fields[0]), b"msg");
    assert_eq!(batch.field_value(line, &fields[0]), b"hello");
    assert_eq!(batch.field_key(line, &fields[1]), b"context");
    let ctx = batch.field_value(line, &fields[1]);
    assert!(ctx.starts_with(b"{"));
    assert!(contains(ctx, b"john"));
    assert_eq!(batch.field_key(line, &fields[2]), b"level");
    assert_eq!(batch.field_value(line, &fields[2]), b"info");
}

#[test]
fn test_parse_json_with_array() {
    let line = br#"{"tags":["web","prod"],"msg":"deploy"}"#;
    let mut batch = make_batch();

    parse_json_line(line, 0, &mut batch);

    assert_eq!(batch.len, 1);
    assert_eq!(batch.field_count(0), 2);

    let fields = batch.record_fields(0);
    assert_eq!(batch.field_key(line, &fields[0]), b"tags");
    let tags = batch.field_value(line, &fields[0]);
    assert!(tags.starts_with(b"["));
    assert!(contains(tags, b"web"));
}

#[test]
fn test_parse_json_with_escaped_quotes() {
    let line = br#"{"msg":"said \"hello\"","level":"info"}"#;
    let mut batch = make_batch();

    parse_json_line(line, 0, &mut batch);

    assert_eq!(batch.len, 1);
    assert_eq!(batch.field_count(0), 2);

    let fields = batch.record_fields(0);
    assert_eq!(batch.field_key(line, &fields[0]), b"msg");
    let msg = batch.field_value(line, &fields[0]);
    assert!(contains(msg, b"hello"));
}

#[test]
fn test_parse_json_null_value() {
    let line = br#"{"msg":"test","extra":null}"#;
    let mut batch = make_batch();

    parse_json_line(line, 0, &mut batch);

    assert_eq!(batch.len, 1);
    assert_eq!(batch.field_count(0), 2);

    let fields = batch.record_fields(0);
    assert_eq!(batch.field_value(line, &fields[1]), b"null");
}

#[test]
fn test_parse_ndjson_multiple_lines() {
    let data = br#"{"level":"info","msg":"request started"}
{"level":"warn","msg":"slow query"}
{"level":"error","msg":"connection lost"}
"#;
    let mut batch = make_batch();
    let line_starts: Vec<u64> = vec![0, 41, 77, data.len() as u64];

    parse_json_lines_range(data, &line_starts, 0, 3, &mut batch);

    assert_eq!(batch.len, 3);

    assert_eq!(batch.level_value(data, 0), Some(&b"info"[..]));
    assert_eq!(batch.level_value(data, 1), Some(&b"warn"[..]));
    assert_eq!(batch.level_value(data, 2), Some(&b"error"[..]));
    assert_eq!(batch.message_value(data, 0), Some(&b"request started"[..]));
    assert_eq!(batch.message_value(data, 1), Some(&b"slow query"[..]));
    assert_eq!(batch.message_value(data, 2), Some(&b"connection lost"[..]));
}

#[test]
fn test_parse_json_empty_object() {
    let line = b"{}";
    let mut batch = make_batch();

    parse_json_line(line, 0, &mut batch);

    assert_eq!(batch.len, 1);
    assert_eq!(batch.field_count(0), 0);
}

#[test]
fn test_parse_json_with_whitespace() {
    let line = br#"{ "level" : "info" , "msg" : "hello" }"#;
    let mut batch = make_batch();

    parse_json_line(line, 0, &mut batch);

    assert_eq!(batch.len, 1);
    assert_eq!(batch.field_count(0), 2);

    let fields = batch.record_fields(0);
    assert_eq!(batch.field_key(line, &fields[0]), b"level");
    assert_eq!(batch.field_value(line, &fields[0]), b"info");
}

#[test]
fn test_find_string_end_scalar() {
    let data = br#"hello world" rest"#;
    let end = find_string_end_scalar(data, 0);
    assert_eq!(end, 11); // position of closing quote
}

#[test]
fn test_find_string_end_with_escape() {
    let data = br#"hello \"world\"" rest"#;
    let end = find_string_end_scalar(data, 0);
    assert_eq!(data[end], b'"');
}

#[test]
fn test_base_offset_propagation() {
    let line = br#"{"key":"value"}"#;
    let base = 1000u64;
    let mut batch = make_batch();

    parse_json_line(line, base, &mut batch);

    assert_eq!(batch.len, 1);
    let fields = batch.record_fields(0);
    assert_eq!(fields[0].key_offset, base + 2); // "key" starts at offset 2 in line
    assert_eq!(fields[0].val_offset, base + 8); // "value" starts at offset 8
}

#[test]
fn string_end_is_clamped_to_the_data() {
    assert_eq!(find_string_end_scalar(b"abc", 0), 3);
    assert_eq!(find_string_end_scalar(b"abc\\", 0), 4);
    assert_eq!(find_string_end_scalar(b"abc\\\"", 0), 5);
    assert_eq!(find_string_end_scalar(b"abc", 7), 3);
    assert_eq!(find_string_end_scalar(b"", 0), 0);
    assert_eq!(find_string_end_scalar(br#"a\\"b"#, 0), 3);
    assert_eq!(find_string_end_scalar(br#"a\\\"b"c"#, 0), 6);
}

#[test]
fn simd_string_end_matches_scalar() {
    let mut data = vec![b'a'; 200];
    data[62] = b'\\';
    data[63] = b'\\';
    data[64] = b'\\';
    data[65] = b'"';
    data[130] = b'"';
    for start in [0usize, 1, 60, 63, 64, 65, 66, 131, 200] {
        assert_eq!(
            find_string_end_simd(&data, start),
            find_string_end_scalar(&data, start)
        );
    }
    assert_eq!(find_string_end_simd(&data, 0), 130);
    assert_eq!(find_string_end_simd(&data, 64), 130);
    assert_eq!(find_string_end_simd(&data, 63), 65);
}

#[test]
fn string_end_carries_an_escape_into_the_next_block() {
    let mut data = vec![b'a'; 65];
    data[63] = b'\\';
    data[64] = b'"';
    assert_eq!(find_string_end_simd(&data, 0), 65);
    assert_eq!(find_string_end_scalar(&data, 0), 65);
    data.push(b'"');
    assert_eq!(find_string_end_simd(&data, 0), 65);
    data.truncate(64);
    assert_eq!(find_string_end_simd(&data, 0), 64);
    let mut long = vec![b'\\'; 128];
    long.push(b'"');
    long.push(b'"');
    assert_eq!(find_string_end_simd(&long, 0), 128);
    assert_eq!(find_string_end_simd(&long, 1), 129);
    assert_eq!(find_string_end_simd(&long, 300), 130);
}

#[test]
fn character_classes() {
    for b in [b' ', b'\t', b'\r', b'\n'] {
        assert!(is_json_whitespace(b));
        assert!(is_json_value_terminator(b));
    }
    for b in [b',', b'}', b']'] {
        assert!(!is_json_whitespace(b));
        assert!(is_json_value_terminator(b));
    }
    for b in [b'a', b'"', b'{', b'[', b':', 0u8, 0x0B] {
        assert!(!is_json_whitespace(b));
        assert!(!is_json_value_terminator(b));
    }
}

#[test]
fn values_of_every_shape() {
    let line = br#""str" {"a":"}"} [1,[2],"]"] bare,x"#;
    let mut i = 0;
    assert_eq!(parse_json_value(line, &mut i), (1, 4));
    assert_eq!(i, 5);
    i = 6;
    assert_eq!(parse_json_value(line, &mut i), (6, 15));
    assert_eq!(i, 15);
    i = 16;
    assert_eq!(parse_json_value(line, &mut i), (16, 27));
    assert_eq!(i, 27);
    i = 28;
    assert_eq!(parse_json_value(line, &mut i), (28, 32));
    assert_eq!(i, 32);
    i = line.len();
    assert_eq!(parse_json_value(line, &mut i), (line.len(), line.len()));
    assert_eq!(i, line.len());
}

#[test]
fn values_that_are_cut_off_end_with_the_line() {
    let line = br#""abc"#;
    let mut i = 0;
    assert_eq!(parse_json_value(line, &mut i), (1, 4));
    assert_eq!(i, 4);
    let line = br#""abc\"#;
    let mut i = 0;
    assert_eq!(parse_json_value(line, &mut i), (1, 5));
    assert_eq!(i, 5);
    let line = br#"{"a":{"b":1}"#;
    let mut i = 0;
    assert_eq!(parse_json_value(line, &mut i), (0, 12));
    assert_eq!(i, 12);
    let line = br#"["a"#;
    let mut i = 0;
    assert_eq!(parse_json_value(line, &mut i), (0, 3));
    assert_eq!(i, 3);
}

#[test]
fn lines_without_an_object_give_a_record_without_fields() {
    let mut batch = make_batch();
    parse_json_line(b"", 0, &mut batch);
    assert_eq!(batch.len, 0);
    assert_eq!(batch.field_starts, vec![0]);
    parse_json_line(b"{", 10, &mut batch);
    parse_json_line(b"x", 20, &mut batch);
    parse_json_line(b"ab", 30, &mut batch);
    parse_json_line(b"no brace here", 40, &mut batch);
    parse_json_line(b"x{", 60, &mut batch);
    assert_eq!(batch.len, 5);
    assert_eq!(batch.field_starts, vec![0, 0, 0, 0, 0, 0]);
    assert_eq!(batch.line_offsets, vec![10, 20, 30, 40, 60]);
    assert_eq!(batch.line_lens, vec![1, 1, 2, 13, 2]);
    for i in 0..5 {
        assert_eq!(batch.field_count(i), 0);
        assert_eq!(batch.well_known[i].message, ABSENT);
        assert_eq!(batch.well_known[i].level, ABSENT);
    }
    assert!(batch.fields.is_empty());
    parse_json_line(br#"x{"a":1}"#, 70, &mut batch);
    assert_eq!(batch.len, 6);
    assert_eq!(batch.field_count(5), 1);
}

#[test]
fn truncated_object_keeps_the_fields_read() {
    let line = br#"{"a":1,"b":"unterminated"#;
    let mut batch = make_batch();
    parse_json_line(line, 0, &mut batch);
    assert_eq!(batch.len, 1);
    assert_eq!(batch.field_count(0), 2);
    let fields = batch.record_fields(0);
    assert_eq!(batch.field_value(line, &fields[0]), b"1");
    assert_eq!(batch.field_key(line, &fields[1]), b"b");
    assert_eq!(batch.field_value(line, &fields[1]), b"unterminated");

    let line = br#"{"a":1,"key\"#;
    let mut batch = make_batch();
    parse_json_line(line, 0, &mut batch);
    assert_eq!(batch.field_count(0), 2);
    let fields = batch.record_fields(0);
    assert_eq!(batch.field_key(line, &fields[1]), br#"key\"#);
    assert_eq!(batch.field_value(line, &fields[1]), b"");
    for f in fields {
        assert!(f.key_offset + f.key_len as u64 <= line.len() as u64);
        assert!(f.val_offset + f.val_len as u64 <= line.len() as u64);
    }
}

#[test]
fn nothing_is_read_after_the_closing_brace() {
    let line = br#"{"a":1} "b":2"#;
    let mut batch = make_batch();
    parse_json_line(line, 0, &mut batch);
    assert_eq!(batch.field_count(0), 1);
}

#[test]
fn junk_between_members_is_passed_over() {
    let line = br#"{junk,"a":1,,more junk},"b":2}"#;
    let mut batch = make_batch();
    parse_json_line(line, 0, &mut batch);
    assert_eq!(batch.field_count(0), 1);
    let fields = batch.record_fields(0);
    assert_eq!(batch.field_key(line, &fields[0]), b"a");
}

#[test]
fn json_last_key_of_a_kind_wins() {
    let line = br#"{"level":"a","lvl":"b","x":1,"severity":"c","msg":"m"}"#;
    let mut batch = make_batch();
    parse_json_line(line, 0, &mut batch);
    assert_eq!(batch.level_value(line, 0), Some(&b"c"[..]));
    assert_eq!(batch.well_known[0].level, 3);
    assert_eq!(batch.well_known[0].message, 4);
    assert_eq!(batch.well_known[0].timestamp, ABSENT);
}

#[test]
fn slots_are_positions_in_the_batch() {
    let mut batch = make_batch();
    let a = br#"{"x":1,"y":2}"#;
    let b = br#"{"z":0,"msg":"second"}"#;
    parse_json_line(a, 0, &mut batch);
    parse_json_line(b, 100, &mut batch);
    assert_eq!(batch.len, 2);
    assert_eq!(batch.field_starts, vec![0, 2, 4]);
    assert_eq!(batch.well_known[0].message, ABSENT);
    assert_eq!(batch.well_known[1].message, 3);
    assert_eq!(batch.line_offsets, vec![0, 100]);
    assert_eq!(batch.line_lens, vec![a.len() as u32, b.len() as u32]);
}

#[test]
fn json_range_skips_blank_lines_and_strips_carriage_returns() {
    let data = b"{\"a\":1}\r\n\r\n   \n\n{\"b\":2}\n{\"c\":3}";
    let mut line_starts: Vec<u64> = vec![0];
    for (i, &b) in data.iter().enumerate() {
        if b == b'\n' && i + 1 < data.len() {
            line_starts.push(i as u64 + 1);
        }
    }
    let n = line_starts.len();
    line_starts.push(data.len() as u64);
    let mut batch = make_batch();
    parse_json_lines_range(data, &line_starts, 0, n, &mut batch);
    assert_eq!(batch.len, 3);
    assert_eq!(batch.raw_line(data, 0), b"{\"a\":1}");
    assert_eq!(batch.raw_line(data, 1), b"{\"b\":2}");
    assert_eq!(batch.raw_line(data, 2), b"{\"c\":3}");
    assert_eq!(batch.line_offsets, vec![0, 16, 24]);
}

#[test]
fn range_parses_only_its_lines() {
    let data = b"{\"a\":1}\n{\"b\":2}\n{\"c\":3}\n";
    let line_starts: Vec<u64> = vec![0, 8, 16, 24];
    let mut batch = make_batch();
    parse_json_lines_range(data, &line_starts, 1, 2, &mut batch);
    assert_eq!(batch.len, 1);
    assert_eq!(batch.raw_line(data, 0), b"{\"b\":2}");
    parse_json_lines_range(data, &line_starts, 2, 2, &mut batch);
    assert_eq!(batch.len, 1);
}

#[test]
fn test_resolve_escapes_no_backslash() {
    let result = resolve_escapes(0b1010, 0);
    assert_eq!(result, 0b1010);
}

#[test]
fn test_resolve_escapes_with_backslash() {
    let result = resolve_escapes(0b10, 0b01);
    assert_eq!(result, 0); // quote at position 1 is escaped by backslash at position 0
}

#[test]
fn escapes_are_resolved_by_the_parity_of_the_run() {
    // \\" : two backslashes, the quote is real
    assert_eq!(resolve_escapes(0b100, 0b011), 0b100);
    // \\\" : three backslashes, the quote is escaped
    assert_eq!(resolve_escapes(0b1000, 0b0111), 0);
    // a backslash that does not touch the quote escapes nothing
    assert_eq!(resolve_escapes(0b1000, 0b0001), 0b1000);
    // several quotes, each with its own run
    assert_eq!(resolve_escapes(0b1_0010_0010, 0b0_0001_0001), 0b1_0000_0000);
    // the run reaches down to bit 0
    assert_eq!(resolve_escapes(1 << 63, u64::MAX >> 1), 0);
    assert_eq!(resolve_escapes(1 << 62, u64::MAX >> 2), 1 << 62);
    assert_eq!(resolve_escapes(1, u64::MAX), 1);
    assert_eq!(resolve_escapes(0, 0b111), 0);
}

#[test]
fn mask_positions() {
    let mut out = vec![5u64];
    extract_mask_positions(0b1001, 100, &mut out);
    assert_eq!(out, vec![5, 101, 104]);
    let mut out = Vec::new();
    extract_mask_positions_raw(0b1001, 100, &mut out);
    assert_eq!(out, vec![100, 103]);
    let mut out = Vec::new();
    extract_mask_positions_raw(1 << 63, 0, &mut out);
    extract_mask_positions(1 << 63, 0, &mut out);
    extract_mask_positions(0, 0, &mut out);
    assert_eq!(out, vec![63, 64]);
}

#[test]
fn structural_scan_finds_line_starts_and_braces() {
    let mut data = vec![b'a'; 150];
    for p in [5usize, 63, 64, 140] {
        data[p] = b'\n';
    }
    for p in [0usize, 6, 65, 127, 128, 149] {
        data[p] = b'{';
    }
    let mut line_starts: Vec<u64> = vec![7];
    let mut braces: Vec<u64> = vec![9];
    structural_scan_avx2(&data, 1000, &mut line_starts, &mut braces);
    assert_eq!(line_starts, vec![7, 1006, 1064, 1065, 1141]);
    assert_eq!(braces, vec![9, 1000, 1006, 1065, 1127, 1128, 1149]);
    let mut line_starts: Vec<u64> = Vec::new();
    let mut braces: Vec<u64> = Vec::new();
    structural_scan_avx2(b"{\"a\":1}\n{\"b\":{}}\n", 0, &mut line_starts, &mut braces);
    assert_eq!(line_starts, vec![8, 17]);
    assert_eq!(braces, vec![0, 8, 13]);
}
