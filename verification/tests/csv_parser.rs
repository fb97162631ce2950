use pandoraslogs::csv_parser::{
    header_end_offset, parse_csv_field, parse_csv_line, parse_csv_lines_range, trim_csv_field,
    CsvHeader,
};
use pandoraslogs::structured::well_known::WellKnownKind;
use pandoraslogs::structured::{StructuredBatch, ABSENT};

fn make_batch() -> StructuredBatch {
    StructuredBatch::with_capacity(16, 64)
}

#[test]
fn test_parse_csv_header() {
    let data = b"timestamp,level,component,message\n2025-02-12,INFO,api,hello\n";
    let header = CsvHeader::parse(data).unwrap();

    assert_eq!(header.num_columns(), 4);
    assert_eq!(header.well_known[0], WellKnownKind::Timestamp);
    assert_eq!(header.well_known[1], WellKnownKind::Level);
    assert_eq!(header.well_known[2], WellKnownKind::Component);
    assert_eq!(header.well_known[3], WellKnownKind::Message);
}

#[test]
fn test_parse_csv_line() {
    let data = b"timestamp,level,component,message\n2025-02-12,INFO,api-server,request handled\n";
    let header = CsvHeader::parse(data).unwrap();
    let data_start = header_end_offset(data);
    let line = &data[data_start..data.len() - 1]; // strip trailing newline

    let mut batch = make_batch();
    parse_csv_line(line, data_start as u64, &header, &mut batch);

    assert_eq!(batch.len, 1);
    assert_eq!(batch.field_count(0), 4);

    assert_eq!(batch.timestamp_value(data, 0), Some(&b"2025-02-12"[..]));
    assert_eq!(batch.level_value(data, 0), Some(&b"INFO"[..]));
    assert_eq!(batch.component_value(data, 0), Some(&b"api-server"[..]));
    assert_eq!(batch.message_value(data, 0), Some(&b"request handled"[..]));
}

#[test]
fn test_parse_csv_quoted_field() {
    let data = b"msg,level\n\"hello, world\",INFO\n";
    let header = CsvHeader::parse(data).unwrap();
    let data_start = header_end_offset(data);
    let line_end = data.len() - 1;
    let line = &data[data_start..line_end];

    let mut batch = make_batch();
    parse_csv_line(line, data_start as u64, &header, &mut batch);

    assert_eq!(batch.len, 1);
    assert_eq!(batch.message_value(data, 0), Some(&b"hello, world"[..]));
}

#[test]
fn test_header_end_offset() {
    assert_eq!(header_end_offset(b"a,b,c\ndata\n"), 6);
    assert_eq!(header_end_offset(b"no newline"), 10);
}

#[test]
fn test_parse_csv_multiple_lines() {
    let data = b"timestamp,level,message\n2025-01-01,INFO,first\n2025-01-02,WARN,second\n2025-01-03,ERROR,third\n";
    let header = CsvHeader::parse(data).unwrap();
    let data_start = header_end_offset(data);
    let remainder = &data[data_start..];

    let mut line_starts: Vec<u64> = vec![data_start as u64];
    for (i, &b) in remainder.iter().enumerate() {
        if b == b'\n' && data_start + i + 1 < data.len() {
            line_starts.push((data_start + i + 1) as u64);
        }
    }

    let mut batch = make_batch();
    parse_csv_lines_range(data, &line_starts, 0, 3, &header, &mut batch);

    assert_eq!(batch.len, 3);
    assert_eq!(batch.level_value(data, 0), Some(&b"INFO"[..]));
    assert_eq!(batch.level_value(data, 1), Some(&b"WARN"[..]));
    assert_eq!(batch.level_value(data, 2), Some(&b"ERROR"[..]));
    assert_eq!(batch.message_value(data, 0), Some(&b"first"[..]));
    assert_eq!(batch.message_value(data, 1), Some(&b"second"[..]));
    assert_eq!(batch.message_value(data, 2), Some(&b"third"[..]));
}

#[test]
fn header_columns_are_trimmed_and_unquoted() {
    let data = b" time ,\t\"Level\"\t,, \"x ,msg\r\nrow";
    let header = CsvHeader::parse(data).unwrap();
    assert_eq!(header.num_columns(), 5);
    let names: Vec<&[u8]> = header
        .columns
        .iter()
        .map(|&(off, len)| &data[off as usize..off as usize + len as usize])
        .collect();
    assert_eq!(names, vec![&b"time"[..], b"Level", b"", b"\"x", b"msg"]);
    assert_eq!(header.well_known[0], WellKnownKind::Timestamp);
    assert_eq!(header.well_known[1], WellKnownKind::Level);
    assert_eq!(header.well_known[2], WellKnownKind::Other);
    assert_eq!(header.well_known[3], WellKnownKind::Other);
    assert_eq!(header.well_known[4], WellKnownKind::Message);
}

#[test]
fn empty_header_line_gives_no_header() {
    assert!(CsvHeader::parse(b"").is_none());
    assert!(CsvHeader::parse(b"\nrow").is_none());
    assert!(CsvHeader::parse(b"\r\nrow").is_none());
    assert!(CsvHeader::parse(b"a").is_some());
    assert_eq!(CsvHeader::parse(b",").unwrap().num_columns(), 2);
    assert_eq!(CsvHeader::parse(b" ").unwrap().num_columns(), 1);
}

#[test]
fn trimming() {
    assert_eq!(trim_csv_field(b"  a b \t"), (2, 5));
    assert_eq!(trim_csv_field(b"\"a\""), (1, 2));
    assert_eq!(trim_csv_field(b" \"a\" "), (2, 3));
    assert_eq!(trim_csv_field(b"\"\""), (1, 1));
    assert_eq!(trim_csv_field(b"\""), (0, 1));
    assert_eq!(trim_csv_field(b"\"\"a\"\""), (1, 4));
    assert_eq!(trim_csv_field(b"   "), (3, 3));
    assert_eq!(trim_csv_field(b""), (0, 0));
}

#[test]
fn fields_of_every_shape() {
    let line = b"plain,\"quoted, with \"\"quotes\"\"\",\"open";
    let mut i = 0;
    assert_eq!(parse_csv_field(line, &mut i), (0, 5));
    assert_eq!(i, 5);
    i = 6;
    assert_eq!(parse_csv_field(line, &mut i), (7, 30));
    assert_eq!(&line[7..30], b"quoted, with \"\"quotes\"\"");
    assert_eq!(i, 31);
    i = 32;
    assert_eq!(parse_csv_field(line, &mut i), (33, 37));
    assert_eq!(i, 37);
    i = 37;
    assert_eq!(parse_csv_field(line, &mut i), (37, 37));
    let line = b"a\rb";
    let mut i = 0;
    assert_eq!(parse_csv_field(line, &mut i), (0, 1));
    assert_eq!(i, 1);
}

#[test]
fn extra_fields_are_ignored_and_missing_ones_absent() {
    let data = b"level,msg\nINFO,hello,extra,more\nWARN\n";
    let header = CsvHeader::parse(data).unwrap();
    let mut batch = make_batch();
    parse_csv_line(&data[10..31], 10, &header, &mut batch);
    parse_csv_line(&data[32..36], 32, &header, &mut batch);
    assert_eq!(batch.len, 2);
    assert_eq!(batch.field_count(0), 2);
    assert_eq!(batch.field_count(1), 1);
    assert_eq!(batch.message_value(data, 0), Some(&b"hello"[..]));
    assert_eq!(batch.level_value(data, 1), Some(&b"WARN"[..]));
    assert_eq!(batch.message_value(data, 1), None);
    assert_eq!(batch.well_known[1].message, ABSENT);
    let fields = batch.record_fields(1);
    assert_eq!(batch.field_key(data, &fields[0]), b"level");
}

#[test]
fn csv_empty_line_gives_no_record() {
    let data = b"a,b\n";
    let header = CsvHeader::parse(data).unwrap();
    let mut batch = make_batch();
    parse_csv_line(b"", 4, &header, &mut batch);
    assert_eq!(batch.len, 0);
}

#[test]
fn empty_fields_are_fields() {
    let data = b"a,b,c\n,,x\n";
    let header = CsvHeader::parse(data).unwrap();
    let mut batch = make_batch();
    parse_csv_line(&data[6..9], 6, &header, &mut batch);
    assert_eq!(batch.field_count(0), 3);
    let fields = batch.record_fields(0);
    assert_eq!(batch.field_value(data, &fields[0]), b"");
    assert_eq!(batch.field_value(data, &fields[1]), b"");
    assert_eq!(batch.field_value(data, &fields[2]), b"x");
}

#[test]
fn range_strips_line_ends() {
    let data = b"level,msg\r\nINFO,a\r\n\r\nWARN,b\r\n";
    let header = CsvHeader::parse(data).unwrap();
    assert_eq!(header.num_columns(), 2);
    let data_start = header_end_offset(data);
    assert_eq!(data_start, 11);
    let mut line_starts: Vec<u64> = vec![data_start as u64];
    for (i, &b) in data.iter().enumerate() {
        if i >= data_start && b == b'\n' && i + 1 < data.len() {
            line_starts.push(i as u64 + 1);
        }
    }
    let n = line_starts.len();
    let mut batch = make_batch();
    parse_csv_lines_range(data, &line_starts, 0, n, &header, &mut batch);
    assert_eq!(batch.len, 2);
    assert_eq!(batch.raw_line(data, 0), b"INFO,a");
    assert_eq!(batch.raw_line(data, 1), b"WARN,b");
    assert_eq!(batch.message_value(data, 1), Some(&b"b"[..]));
}
