use pandoraslogs::csv_parser::CsvHeader;
use pandoraslogs::format::LogFormat;
use pandoraslogs::structured::well_known::WellKnownKind;
use pandoraslogs::structured_orchestrator::{
    parse_csv_mmap, parse_format_mmap, parse_json_mmap, parse_logfmt_mmap, parse_scanned_chunk,
    parse_structured_chunk, parse_structured_mmap, parse_structured_streamed, plan_structured,
    StructuredPipelineResult, StructuredStream,
};

const CHUNK_MB: usize = 64;

#[test]
fn test_structured_json_mmap() {
    let data = br#"{"level":"info","msg":"started","ts":"2025-02-12T10:31:45Z"}
{"level":"warn","msg":"slow","ts":"2025-02-12T10:31:46Z"}
{"level":"error","msg":"failed","ts":"2025-02-12T10:31:47Z"}
"#;
    let result = parse_structured_mmap(data, 1, CHUNK_MB, Some(LogFormat::Json)).unwrap();
    assert_eq!(result.format, LogFormat::Json);
    assert_eq!(result.total_records, 3);
    assert!(result.total_fields >= 9);

    let batch = &result.batches[0];
    assert_eq!(batch.level_value(data, 0), Some(&b"info"[..]));
    assert_eq!(batch.level_value(data, 1), Some(&b"warn"[..]));
    assert_eq!(batch.level_value(data, 2), Some(&b"error"[..]));
}

#[test]
fn test_structured_logfmt_mmap() {
    let data = b"level=info msg=started ts=2025-02-12\nlevel=warn msg=slow ts=2025-02-13\n";
    let result = parse_structured_mmap(data, 1, CHUNK_MB, Some(LogFormat::Logfmt)).unwrap();
    assert_eq!(result.format, LogFormat::Logfmt);
    assert_eq!(result.total_records, 2);

    let batch = &result.batches[0];
    assert_eq!(batch.level_value(data, 0), Some(&b"info"[..]));
    assert_eq!(batch.level_value(data, 1), Some(&b"warn"[..]));
}

#[test]
fn test_structured_auto_detect_json() {
    let data = br#"{"level":"info","msg":"auto-detected"}
"#;
    let result = parse_structured_mmap(data, 1, CHUNK_MB, None).unwrap();
    assert_eq!(result.format, LogFormat::Json);
    assert_eq!(result.total_records, 1);
}

#[test]
fn test_structured_auto_detect_logfmt() {
    let data = b"level=info msg=\"auto-detected\" ts=2025\n";
    let result = parse_structured_mmap(data, 1, CHUNK_MB, None).unwrap();
    assert_eq!(result.format, LogFormat::Logfmt);
    assert_eq!(result.total_records, 1);
}

#[test]
fn test_structured_empty() {
    let result = parse_structured_mmap(b"", 1, CHUNK_MB, None).unwrap();
    assert_eq!(result.total_records, 0);
}

#[test]
fn test_structured_json_multithreaded() {
    let mut data = Vec::new();
    for i in 0..100 {
        data.extend_from_slice(
            format!(
                "{{\"level\":\"info\",\"msg\":\"request {}\",\"ts\":\"2025-02-12T10:31:{}Z\"}}\n",
                i,
                i % 60
            )
            .as_bytes(),
        );
    }
    let result = parse_structured_mmap(&data, 4, CHUNK_MB, Some(LogFormat::Json)).unwrap();
    assert_eq!(result.total_records, 100);
}

#[test]
fn ndjson_scenario() {
    let data = b"{\"level\":\"info\",\"msg\":\"started\",\"ts\":\"2025-02-12T10:31:45Z\"}\n{\"level\":\"warn\",\"msg\":\"slow\",\"ts\":\"2025-02-12T10:31:46Z\"}\n";
    let result = parse_structured_mmap(data, 2, CHUNK_MB, None).unwrap();
    assert_eq!(result.format, LogFormat::Json);
    assert_eq!(result.total_records, 2);
    assert_eq!(result.total_fields, 6);
    let batch = &result.batches[0];
    assert_eq!(batch.level_value(data, 1), Some(&b"warn"[..]));
    assert_eq!(batch.timestamp_value(data, 0), Some(&b"2025-02-12T10:31:45Z"[..]));
}

#[test]
fn csv_scenario() {
    let data = b"timestamp,level,component,message\n2025-02-12,INFO,api-server,request handled\n";
    let result = parse_structured_mmap(data, 1, CHUNK_MB, None).unwrap();
    assert_eq!(result.format, LogFormat::Csv);
    assert_eq!(result.total_records, 1);
    assert_eq!(result.total_fields, 4);
    let batch = &result.batches[0];
    assert_eq!(batch.timestamp_value(data, 0), Some(&b"2025-02-12"[..]));
    assert_eq!(batch.level_value(data, 0), Some(&b"INFO"[..]));
    assert_eq!(batch.component_value(data, 0), Some(&b"api-server"[..]));
    assert_eq!(batch.message_value(data, 0), Some(&b"request handled"[..]));
    // keys point at the header line of the same buffer
    let fields = batch.record_fields(0);
    assert_eq!(batch.field_key(data, &fields[0]), b"timestamp");
    assert_eq!(batch.field_key(data, &fields[3]), b"message");
    assert_eq!(batch.raw_line(data, 0), b"2025-02-12,INFO,api-server,request handled");
}

#[test]
fn nested_json_scenario() {
    let data = br#"{"msg":"hello","context":{"u":"j","ip":"10.0.0.1"},"level":"info"}"#;
    let result = parse_structured_mmap(data, 1, CHUNK_MB, None).unwrap();
    assert_eq!(result.total_records, 1);
    assert_eq!(result.total_fields, 3);
    let batch = &result.batches[0];
    let fields = batch.record_fields(0);
    let context = batch.field_value(data, &fields[1]);
    assert_eq!(context, br#"{"u":"j","ip":"10.0.0.1"}"#);
}

#[test]
fn empty_input_gives_nothing() {
    for hint in [None, Some(LogFormat::Json), Some(LogFormat::Csv)] {
        let result = parse_structured_mmap(b"", 3, CHUNK_MB, hint).unwrap();
        assert_eq!(result.total_records, 0);
        assert_eq!(result.total_fields, 0);
        assert!(result.batches.is_empty());
        assert_eq!(result.format, LogFormat::PlainText);
        let result = parse_structured_streamed(&Vec::new(), hint).unwrap();
        assert_eq!(result.total_records, 0);
        assert!(result.batches.is_empty());
    }
}

#[test]
fn final_line_without_newline_is_a_record() {
    let data = b"a=1 b=2\nc=3 d=4";
    let result = parse_structured_mmap(data, 1, CHUNK_MB, None).unwrap();
    assert_eq!(result.total_records, 2);
    assert_eq!(result.batches[0].raw_line(data, 1), b"c=3 d=4");
}

#[test]
fn empty_lines_give_no_record() {
    let data = b"a=1 b=2\n\nc=3 d=4\n\n\n";
    let result = parse_structured_mmap(data, 1, CHUNK_MB, None).unwrap();
    assert_eq!(result.total_records, 2);
    let data = b"{\"a\":1}\n\n{\"b\":2}\n";
    let result = parse_structured_mmap(data, 1, CHUNK_MB, None).unwrap();
    assert_eq!(result.total_records, 2);
    let data = b"a,b,c\n1,2,3\n\n4,5,6\n";
    let result = parse_structured_mmap(data, 1, CHUNK_MB, None).unwrap();
    assert_eq!(result.format, LogFormat::Csv);
    assert_eq!(result.total_records, 2);
}

#[test]
fn carriage_returns_are_stripped_from_lines() {
    let data = b"a=1 b=2\r\nc=3 d=4\r\n";
    let result = parse_structured_mmap(data, 1, CHUNK_MB, None).unwrap();
    let batch = &result.batches[0];
    assert_eq!(batch.line_lens, vec![7, 7]);
    assert_eq!(batch.raw_line(data, 1), b"c=3 d=4");
    let fields = batch.record_fields(1);
    assert_eq!(batch.field_value(data, &fields[1]), b"4");

    let data = b"x,y,z\r\n1,2,3\r\n4,5,6\r\n";
    let result = parse_structured_mmap(data, 1, CHUNK_MB, None).unwrap();
    let batch = &result.batches[0];
    assert_eq!(batch.len, 2);
    assert_eq!(batch.line_lens, vec![5, 5]);
    let fields = batch.record_fields(1);
    assert_eq!(batch.field_value(data, &fields[2]), b"6");
    assert_eq!(batch.field_key(data, &fields[2]), b"z");
}

#[test]
fn plain_text_hint_is_read_as_logfmt() {
    let data = b"a=1\n";
    let result = parse_structured_mmap(data, 1, CHUNK_MB, Some(LogFormat::PlainText)).unwrap();
    assert_eq!(result.format, LogFormat::Logfmt);
    assert_eq!(result.total_records, 1);
}

#[test]
fn hint_wins_over_detection() {
    let data = b"{\"a\":1}\n";
    let result = parse_structured_mmap(data, 1, CHUNK_MB, Some(LogFormat::Logfmt)).unwrap();
    assert_eq!(result.format, LogFormat::Logfmt);
    assert_eq!(result.total_records, 1);
    assert_eq!(result.total_fields, 1);
}

#[test]
fn csv_without_a_header_gives_no_records() {
    let data = b"\n1,2,3\n4,5,6\n";
    let result = parse_structured_mmap(data, 1, CHUNK_MB, Some(LogFormat::Csv)).unwrap();
    assert_eq!(result.format, LogFormat::Csv);
    assert_eq!(result.total_records, 0);
    let data = b"a,b\n";
    let result = parse_csv_mmap(data, 1, 1 << 20).unwrap();
    assert_eq!(result.total_records, 0);
    assert!(result.batches.is_empty());
}

fn json_lines(n: usize) -> Vec<u8> {
    let mut data = Vec::new();
    for i in 0..n {
        data.extend_from_slice(
            format!(
                "{{\"level\":\"info\",\"msg\":\"request {}\",\"ts\":\"2025-02-12T10:31:{:02}Z\",\"n\":{}}}\n",
                i,
                i % 60,
                i
            )
            .as_bytes(),
        );
        if i % 9 == 0 {
            data.extend_from_slice(b"\r\n   \n");
        }
    }
    data
}

type Flat = Vec<(Vec<u8>, Vec<(Vec<u8>, Vec<u8>)>, Option<Vec<u8>>)>;

fn flatten(batches: &[pandoraslogs::structured::StructuredBatch], buffers: &[&[u8]]) -> Flat {
    let mut out = Vec::new();
    for (k, batch) in batches.iter().enumerate() {
        let data = buffers[if buffers.len() == 1 { 0 } else { k }];
        for i in 0..batch.len {
            let fields = batch
                .record_fields(i)
                .iter()
                .map(|f| (batch.field_key(data, f).to_vec(), batch.field_value(data, f).to_vec()))
                .collect();
            out.push((
                batch.raw_line(data, i).to_vec(),
                fields,
                batch.message_value(data, i).map(|v| v.to_vec()),
            ));
        }
    }
    out
}

#[test]
fn worker_count_does_not_change_the_records() {
    let data = json_lines(50_000);
    assert!(data.len() > 3 * 1024 * 1024);
    let one = parse_structured_mmap(&data, 1, 1, None).unwrap();
    assert!(one.batches.len() >= 3);
    assert_eq!(one.total_records, 50_000);
    assert_eq!(one.total_fields, 200_000);
    let expected = flatten(&one.batches, &[&data]);
    for threads in [0usize, 2, 3, 8, 100] {
        let other = parse_structured_mmap(&data, threads, 1, None).unwrap();
        assert_eq!(other.batches.len(), one.batches.len());
        assert_eq!(other.total_records, one.total_records);
        assert_eq!(other.total_fields, one.total_fields);
        assert_eq!(flatten(&other.batches, &[&data]), expected);
    }
    // nor does the size of the chunks
    let whole = parse_structured_mmap(&data, 1, CHUNK_MB, None).unwrap();
    assert_eq!(whole.batches.len(), 1);
    assert_eq!(flatten(&whole.batches, &[&data]), expected);
}

#[test]
fn records_lie_inside_the_buffer() {
    let data = json_lines(2_000);
    let result = parse_json_mmap(&data, 3, 1 << 20).unwrap();
    for batch in &result.batches {
        assert_eq!(batch.field_starts.len(), batch.len + 1);
        assert_eq!(batch.field_starts[0], 0);
        assert_eq!(*batch.field_starts.last().unwrap() as usize, batch.fields.len());
        for w in batch.field_starts.windows(2) {
            assert!(w[0] <= w[1]);
        }
        for f in &batch.fields {
            assert!(f.key_offset + f.key_len as u64 <= data.len() as u64);
            assert!(f.val_offset + f.val_len as u64 <= data.len() as u64);
        }
        for w in batch.line_offsets.windows(2) {
            assert!(w[0] <= w[1]);
        }
    }
}

#[test]
fn structured_chunk_of_a_buffer() {
    let data = b"a=1\nb=2 c=3\n\nd=4\n";
    let batch = parse_structured_chunk(data, 4, 13, LogFormat::Logfmt, None).unwrap();
    assert_eq!(batch.len, 1);
    assert_eq!(batch.raw_line(data, 0), b"b=2 c=3");
    assert_eq!(batch.line_offsets, vec![4]);
    let batch = parse_structured_chunk(data, 4, 4, LogFormat::Json, None).unwrap();
    assert_eq!(batch.len, 0);
    let header = CsvHeader::parse(b"x,y\n").unwrap();
    let data = b"x,y\n1,2\n3,4\n";
    let batch = parse_structured_chunk(data, 4, 12, LogFormat::Csv, Some(&header)).unwrap();
    assert_eq!(batch.len, 2);
    let batch = parse_structured_chunk(data, 4, 12, LogFormat::Csv, None).unwrap();
    assert_eq!(batch.len, 0);
    let result: StructuredPipelineResult =
        parse_format_mmap(data, 4, 2, 1, LogFormat::Csv, Some(&header)).unwrap();
    assert_eq!(result.batches.len(), 2);
    assert_eq!(result.total_records, 2);
    let result = parse_logfmt_mmap(b"a=1\nb=2\n", 2, 1).unwrap();
    assert_eq!(result.batches.len(), 2);
}

#[test]
fn stream_carries_the_tail_over() {
    let mut stream = StructuredStream::new(None);
    assert!(stream.feed(b"{\"level\":\"info\",\"m", false));
    assert_eq!(stream.format, Some(LogFormat::Json));
    assert!(stream.batches.is_empty());
    assert!(stream.feed(b"sg\":\"a\"}\n{\"level\":\"wa", false));
    assert_eq!(stream.batches.len(), 1);
    assert_eq!(stream.leftover, b"{\"level\":\"wa");
    assert!(stream.feed(b"rn\"}", true));
    assert_eq!(stream.batches.len(), 2);
    let result = stream.finish();
    assert_eq!(result.format, LogFormat::Json);
    assert_eq!(result.total_records, 2);
    assert_eq!(result.total_fields, 3);
    assert_eq!(result._backing_data[0], b"{\"level\":\"info\",\"msg\":\"a\"}\n");
    assert_eq!(result._backing_data[1], b"{\"level\":\"warn\"}");
    assert_eq!(
        result.batches[1].level_value(&result._backing_data[1], 0),
        Some(&b"warn"[..])
    );
}

#[test]
fn csv_stream_waits_for_its_header() {
    let mut stream = StructuredStream::new(Some(LogFormat::Csv));
    assert!(stream.feed(b"level,", false));
    assert!(!stream.header_read);
    assert!(stream.feed(b"msg\nINFO,first\nWARN,sec", false));
    assert!(stream.header_read);
    assert_eq!(stream.header_bytes, b"level,msg\n");
    assert_eq!(stream.batches.len(), 1);
    assert!(stream.feed(b"ond\n", false));
    assert!(stream.feed(b"", true));
    let result = stream.finish();
    assert_eq!(result.total_records, 2);
    assert_eq!(result.total_fields, 4);
    assert_eq!(result.batches.len(), 2);
    for (batch, buffer) in result.batches.iter().zip(result._backing_data.iter()) {
        assert!(buffer.starts_with(b"level,msg\n"));
        for f in &batch.fields {
            assert!(f.key_offset + f.key_len as u64 <= buffer.len() as u64);
            assert!(f.val_offset + f.val_len as u64 <= buffer.len() as u64);
        }
        let fields = batch.record_fields(0);
        assert_eq!(batch.field_key(buffer, &fields[0]), b"level");
        assert_eq!(batch.field_key(buffer, &fields[1]), b"msg");
    }
    let last = &result.batches[1];
    assert_eq!(last.message_value(&result._backing_data[1], 0), Some(&b"second"[..]));
    assert_eq!(last.level_value(&result._backing_data[1], 0), Some(&b"WARN"[..]));
}

#[test]
fn csv_stream_of_a_header_alone() {
    let result = parse_structured_streamed(&vec![b"a,b,c".to_vec()], Some(LogFormat::Csv)).unwrap();
    assert_eq!(result.total_records, 0);
    assert!(result.batches.is_empty());
}

fn csv_lines(n: usize, quoted: bool) -> Vec<u8> {
    let mut d = b"ts,level,msg\n".to_vec();
    for i in 0..n {
        if quoted {
            d.extend_from_slice(format!("{},INFO,\"line, {}\"\n", i, i).as_bytes());
        } else {
            d.extend_from_slice(format!("{},INFO,line {}\n", i, i).as_bytes());
        }
    }
    d
}

fn logfmt_lines(n: usize) -> Vec<u8> {
    let mut d = Vec::new();
    for i in 0..n {
        d.extend_from_slice(format!("level=info msg=\"line {}\" n={}\r\n", i, i).as_bytes());
    }
    d.extend_from_slice(b"tail=yes");
    d
}

#[test]
fn streaming_gives_the_records_of_the_whole() {
    for (data, hint, format, least) in [
        (json_lines(300), None, LogFormat::Json, 1usize),
        (json_lines(300), Some(LogFormat::Json), LogFormat::Json, 1),
        (logfmt_lines(300), None, LogFormat::Logfmt, 64),
        (logfmt_lines(300), Some(LogFormat::Logfmt), LogFormat::Logfmt, 1),
        (csv_lines(300, true), Some(LogFormat::Csv), LogFormat::Csv, 1),
        (csv_lines(300, false), None, LogFormat::Csv, 64),
        (csv_lines(300, false), Some(LogFormat::Csv), LogFormat::Csv, 1),
    ] {
        let whole = parse_structured_mmap(&data, 1, CHUNK_MB, hint).unwrap();
        assert!(whole.format == format);
        let expected = flatten(&whole.batches, &[&data]);
        assert!(expected.len() >= 300);
        for size in [1usize, 3, 64, 1000, data.len()] {
            if size < least {
                continue;
            }
            let segments: Vec<Vec<u8>> = data.chunks(size).map(|c| c.to_vec()).collect();
            let result = parse_structured_streamed(&segments, hint).unwrap();
            assert!(result.format == format);
            assert_eq!(result.total_records, whole.total_records, "size {}", size);
            assert_eq!(result.total_fields, whole.total_fields);
            let buffers: Vec<&[u8]> = result._backing_data.iter().map(|b| &b[..]).collect();
            assert_eq!(result.batches.len(), buffers.len());
            assert_eq!(flatten(&result.batches, &buffers), expected, "size {}", size);
        }
    }
}

#[test]
fn stream_without_a_hint_settles_on_its_first_bytes() {
    let segments = vec![
        Vec::new(),
        b"ts,level,msg\n".to_vec(),
        b"1,INFO,up\n2,WARN,down\n".to_vec(),
    ];
    let data: Vec<u8> = segments.concat();
    let whole = parse_structured_mmap(&data, 1, CHUNK_MB, None).unwrap();
    assert!(whole.format == LogFormat::Csv);
    assert_eq!(whole.total_records, 2);
    assert_eq!(whole.total_fields, 6);
    let streamed = parse_structured_streamed(&segments, None).unwrap();
    assert!(streamed.format == LogFormat::PlainText);
    assert_eq!(streamed.total_records, 3);
    let told = parse_structured_streamed(&segments, Some(LogFormat::Csv)).unwrap();
    assert!(told.format == LogFormat::Csv);
    assert_eq!(told.total_records, 2);
    assert_eq!(told.total_fields, 6);
    let buffers: Vec<&[u8]> = told._backing_data.iter().map(|b| &b[..]).collect();
    assert_eq!(flatten(&told.batches, &buffers), flatten(&whole.batches, &[&data]));
}

#[test]
fn scanned_chunk_takes_its_starts_from_the_caller() {
    let data = b"a=1\nb=2 c=3\n\nd=4\n";
    let starts: Vec<u64> = vec![0, 4, 12, 13, 17];
    let batch = parse_scanned_chunk(
        data,
        &starts,
        LogFormat::Logfmt,
        None,
    )
    .unwrap();
    assert_eq!(batch.len, 3);
    assert_eq!(batch.raw_line(data, 1), b"b=2 c=3");
    // starts that step down, or run past the buffer, are refused
    for bad in [vec![], vec![4, 0], vec![0, 18], vec![0, 4, 3, 17]] {
        assert!(parse_scanned_chunk(
            data,
            &bad,
            LogFormat::Logfmt,
            None
        )
        .is_none());
    }
    // a header that points outside the buffer is refused
    let header = CsvHeader { columns: vec![(16, 2)], well_known: vec![WellKnownKind::Other] };
    assert!(parse_scanned_chunk(
        data,
        &starts,
        LogFormat::Csv,
        Some(&header)
    )
    .is_none());
    let header = CsvHeader { columns: vec![(0, 1)], well_known: vec![] };
    assert!(parse_scanned_chunk(
        data,
        &starts,
        LogFormat::Csv,
        Some(&header)
    )
    .is_none());
}

#[test]
fn every_line_with_bytes_is_a_record() {
    let result = parse_structured_mmap(b"ab", 1, CHUNK_MB, Some(LogFormat::Json)).unwrap();
    assert_eq!(result.total_records, 1);
    assert_eq!(result.total_fields, 0);
    assert_eq!(result.batches[0].raw_line(b"ab", 0), b"ab");

    let data = b"{\nnot json\n\n  \t\r\n{\"a\":1}\r\n{\"b\":\nx";
    for threads in [1usize, 3] {
        let result = parse_structured_mmap(data, threads, CHUNK_MB, Some(LogFormat::Json)).unwrap();
        assert_eq!(result.total_records, 5);
        assert_eq!(result.total_fields, 2);
        let batch = &result.batches[0];
        assert_eq!(batch.raw_line(data, 0), b"{");
        assert_eq!(batch.raw_line(data, 1), b"not json");
        assert_eq!(batch.raw_line(data, 2), b"{\"a\":1}");
        assert_eq!(batch.raw_line(data, 3), b"{\"b\":");
        assert_eq!(batch.raw_line(data, 4), b"x");
        assert_eq!(batch.field_count(1), 0);
        assert_eq!(batch.field_count(2), 1);
    }
    let streamed = parse_structured_streamed(
        &vec![data[..5].to_vec(), data[5..].to_vec()],
        Some(LogFormat::Json),
    )
    .unwrap();
    assert_eq!(streamed.total_records, 5);
    assert_eq!(streamed.total_fields, 2);

    let logfmt = b"a=1\n   \nplain words\n\nb\n";
    let result = parse_structured_mmap(logfmt, 2, CHUNK_MB, Some(LogFormat::Logfmt)).unwrap();
    assert_eq!(result.total_records, 3);
}

#[test]
fn records_come_in_file_order_one_whole_line_each() {
    let data = json_lines(200);
    for chunk_size in [1usize, 7, 64, 1000, data.len()] {
        for threads in [1usize, 4] {
            let result = parse_json_mmap(&data, threads, chunk_size).unwrap();
            let mut last_end = 0u64;
            let mut seen = 0;
            for batch in &result.batches {
                for i in 0..batch.len {
                    let from = batch.line_offsets[i] as usize;
                    let to = from + batch.line_lens[i] as usize;
                    assert!(seen == 0 || batch.line_offsets[i] > last_end);
                    assert!(from == 0 || data[from - 1] == b'\n');
                    assert!(from < to && !data[from..to].contains(&b'\n'));
                    assert!(
                        to == data.len()
                            || data[to] == b'\n'
                            || (data[to] == b'\r' && data[to + 1] == b'\n')
                    );
                    for field in batch.record_fields(i) {
                        assert!(field.key_offset as usize >= from);
                        assert!((field.val_offset + field.val_len as u64) as usize <= to);
                    }
                    last_end = to as u64;
                    seen += 1;
                }
            }
            assert_eq!(seen, 200);
            assert_eq!(result.total_records, 200);
        }
    }
}

#[test]
fn plan_names_format_header_and_start() {
    let csv = b"ts,level,msg\n1,INFO,up\n2,WARN,down\n";
    let (format, header, first) = plan_structured(csv, None);
    assert!(format == LogFormat::Csv);
    assert_eq!(first, 13);
    assert_eq!(header.unwrap().num_columns(), 3);
    let (format, header, first) = plan_structured(csv, Some(LogFormat::Json));
    assert!(format == LogFormat::Json);
    assert!(header.is_none());
    assert_eq!(first, 0);
    let (format, header, first) = plan_structured(b"just some words\n", None);
    assert!(format == LogFormat::Logfmt);
    assert!(header.is_none());
    assert_eq!(first, 0);
    let (format, _, first) = plan_structured(b"a=1 b=2\n", Some(LogFormat::PlainText));
    assert!(format == LogFormat::Logfmt);
    assert_eq!(first, 0);
    let (format, header, first) = plan_structured(b"no newline", Some(LogFormat::Csv));
    assert!(format == LogFormat::Csv);
    assert_eq!(first, 10);
    assert_eq!(header.unwrap().num_columns(), 1);
    let (format, header, first) = plan_structured(b"", Some(LogFormat::Csv));
    assert!(format == LogFormat::Csv);
    assert_eq!(first, 0);
    assert!(header.is_none());
}

#[test]
fn segments_as_long_as_the_window_read_the_format_of_the_whole() {
    for data in [json_lines(300), logfmt_lines(300), csv_lines(300, false)] {
        assert!(data.len() > 4096);
        let whole = parse_structured_mmap(&data, 1, CHUNK_MB, None).unwrap();
        for size in [4096usize, 5000, data.len()] {
            let mut segments: Vec<Vec<u8>> = vec![Vec::new()];
            segments.extend(data.chunks(size).map(|c| c.to_vec()));
            let streamed = parse_structured_streamed(&segments, None).unwrap();
            assert!(streamed.format == whole.format);
            assert_eq!(streamed.total_records, whole.total_records);
            assert_eq!(streamed.total_fields, whole.total_fields);
            let buffers: Vec<&[u8]> = streamed._backing_data.iter().map(|b| &b[..]).collect();
            assert_eq!(
                flatten(&streamed.batches, &buffers),
                flatten(&whole.batches, &[&data])
            );
        }
    }
}

#[test]
fn stream_batches_come_in_the_order_of_their_buffers() {
    for (data, hint) in [
        (csv_lines(100, true), LogFormat::Csv),
        (json_lines(100), LogFormat::Json),
        (logfmt_lines(100), LogFormat::Logfmt),
    ] {
        let segments: Vec<Vec<u8>> = data.chunks(37).map(|c| c.to_vec()).collect();
        let streamed = parse_structured_streamed(&segments, Some(hint)).unwrap();
        let mut seen = 0;
        for (batch, buffer) in streamed.batches.iter().zip(streamed._backing_data.iter()) {
            let mut last_end = 0usize;
            for i in 0..batch.len {
                let from = batch.line_offsets[i] as usize;
                let to = from + batch.line_lens[i] as usize;
                assert!(i == 0 || from > last_end);
                assert!(from == 0 || buffer[from - 1] == b'\n');
                assert!(from < to && !buffer[from..to].contains(&b'\n'));
                assert!(
                    to == buffer.len()
                        || buffer[to] == b'\n'
                        || (buffer[to] == b'\r' && buffer[to + 1] == b'\n')
                );
                last_end = to;
                seen += 1;
            }
        }
        assert_eq!(seen, streamed.total_records);
        assert!(seen >= 100);
    }
}
