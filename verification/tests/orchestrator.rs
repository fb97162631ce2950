use pandoraslogs::data::LogLevel;
use pandoraslogs::orchestrator::{
    parse_chunk, parse_chunk_streaming, parse_logs_pipelined, parse_logs_pipelined_streaming,
    parse_logs_streamed, parse_owned_chunk, parse_scanned_lines, PipelineResult, PlainStream,
};

const CHUNK_MB: usize = 64;

#[test]
fn test_pipelined_parse_basic() {
    let data = b"2025-02-12T10:31:45Z INFO api-server request_id=abc123\n\
                 2025-02-12T10:31:46Z WARN auth-service auth_failed\n\
                 2025-02-12T10:31:47Z ERROR database-pool connection_timeout\n";

    let result = parse_logs_pipelined(data, 2, CHUNK_MB).unwrap();
    assert_eq!(result.total_lines, 3);

    let first = &result.batches[0];
    assert_eq!(first.levels[0], LogLevel::Info);
    assert_eq!(first.levels[1], LogLevel::Warn);
    assert_eq!(first.levels[2], LogLevel::Error);

    assert_eq!(first.component(data, 0), b"api-server");
    assert_eq!(first.component(data, 1), b"auth-service");
    assert_eq!(first.component(data, 2), b"database-pool");
}

#[test]
fn test_pipelined_parse_single_line() {
    let data = b"2025-02-12T10:31:45Z DEBUG cache-service hit_ratio=0.85\n";
    let result = parse_logs_pipelined(data, 1, CHUNK_MB).unwrap();
    assert_eq!(result.total_lines, 1);
    assert_eq!(result.batches[0].levels[0], LogLevel::Debug);
}

#[test]
fn test_pipelined_parse_many_lines() {
    let mut data = Vec::new();
    for _ in 0..100 {
        data.extend_from_slice(b"2025-02-12T10:31:45Z INFO api-server request_id=abc123\n");
    }

    let result = parse_logs_pipelined(&data, 8, CHUNK_MB).unwrap();
    assert_eq!(result.total_lines, 100);

    for batch in &result.batches {
        for i in 0..batch.len {
            assert_eq!(batch.levels[i], LogLevel::Info);
        }
    }
}

#[test]
fn test_pipelined_parse_large() {
    let mut data = Vec::new();
    for _ in 0..1000 {
        data.extend_from_slice(b"2025-02-12T10:31:45Z INFO api-server request_id=abc123\n");
    }

    let result = parse_logs_pipelined(&data, 4, CHUNK_MB).unwrap();
    assert_eq!(result.total_lines, 1000);

    let first = &result.batches[0];
    assert_eq!(first.levels[0], LogLevel::Info);
    assert_eq!(first.component(&data, 0), b"api-server");
}

#[test]
fn plain_scenario_of_three_lines() {
    let data = b"2025-02-12T10:31:45Z INFO api-server request_id=abc123\n\
2025-02-12T10:31:46Z WARN auth-service auth_failed\n\
2025-02-12T10:31:47Z ERROR database-pool connection_timeout\n";
    let result = parse_logs_pipelined(data, 1, CHUNK_MB).unwrap();
    assert_eq!(result.total_lines, 3);
    assert_eq!(result.batches.len(), 1);
    let batch = &result.batches[0];
    assert_eq!(batch.len, 3);
    assert_eq!(batch.levels, vec![LogLevel::Info, LogLevel::Warn, LogLevel::Error]);
    assert_eq!(batch.timestamps, vec![1739356305, 1739356306, 1739356307]);
    assert_eq!(batch.component(data, 0), b"api-server");
    assert_eq!(batch.component(data, 1), b"auth-service");
    assert_eq!(batch.component(data, 2), b"database-pool");
    assert_eq!(batch.message(data, 0), b"request_id=abc123");
}

#[test]
fn plain_empty_input_gives_nothing() {
    let result = parse_logs_pipelined(b"", 4, CHUNK_MB).unwrap();
    assert_eq!(result.total_lines, 0);
    assert!(result.batches.is_empty());
    assert!(result._backing_data.is_empty());
    let result = parse_logs_pipelined_streaming(b"", 4, CHUNK_MB).unwrap();
    assert_eq!(result.total_lines, 0);
    let result = parse_logs_streamed(&Vec::new()).unwrap();
    assert_eq!(result.total_lines, 0);
    assert!(result.batches.is_empty());
    let result = parse_logs_streamed(&vec![Vec::new(), Vec::new()]).unwrap();
    assert!(result.batches.is_empty());
}

#[test]
fn plain_final_line_without_newline_is_a_record() {
    let data = b"2025-02-12T10:31:45Z INFO a first\n2025-02-12T10:31:46Z WARN b last";
    let result = parse_logs_pipelined(data, 1, CHUNK_MB).unwrap();
    assert_eq!(result.total_lines, 2);
    assert_eq!(result.batches[0].message(data, 1), b"last");
}

#[test]
fn plain_empty_lines_give_no_record() {
    let data = b"2025-02-12T10:31:45Z INFO a first\n\n\n2025-02-12T10:31:46Z WARN b second\n\n";
    let result = parse_logs_pipelined(data, 1, CHUNK_MB).unwrap();
    assert_eq!(result.total_lines, 2);
    let batch = &result.batches[0];
    assert_eq!(batch.len, 2);
    assert_eq!(batch.message(data, 0), b"first");
    assert_eq!(batch.message(data, 1), b"second");
}

fn many_lines(n: usize) -> Vec<u8> {
    let mut data = Vec::new();
    for i in 0..n {
        data.extend_from_slice(
            format!("2025-02-12T10:31:45Z INFO worker-{} message number {}\n", i % 7, i).as_bytes(),
        );
        if i % 5 == 0 {
            data.push(b'\n');
        }
    }
    data
}

fn flatten(result: &PipelineResult, data: &[u8]) -> Vec<(u64, Vec<u8>, Vec<u8>)> {
    let mut out = Vec::new();
    for batch in &result.batches {
        for i in 0..batch.len {
            out.push((
                batch.timestamps[i],
                batch.component(data, i).to_vec(),
                batch.message(data, i).to_vec(),
            ));
        }
    }
    out
}

#[test]
fn plain_worker_count_does_not_change_the_records() {
    // 3 MiB of lines in chunks of 1 MiB
    let data = many_lines(60_000);
    assert!(data.len() > 3 * 1024 * 1024);
    let one = parse_logs_pipelined(&data, 1, 1).unwrap();
    assert!(one.batches.len() >= 3);
    assert_eq!(one.total_lines, 60_000);
    let expected = flatten(&one, &data);
    for threads in [0usize, 2, 3, 8, 100] {
        let other = parse_logs_pipelined(&data, threads, 1).unwrap();
        assert_eq!(other.batches.len(), one.batches.len());
        assert_eq!(other.total_lines, 60_000);
        assert_eq!(flatten(&other, &data), expected);
    }
    let counted = parse_logs_pipelined_streaming(&data, 3, 1).unwrap();
    assert_eq!(counted.total_lines, 60_000);
}

#[test]
fn plain_chunks_hold_whole_lines() {
    let data = many_lines(60_000);
    let result = parse_logs_pipelined(&data, 4, 1).unwrap();
    let mut at = 0usize;
    for batch in &result.batches {
        for i in 0..batch.len {
            let end = (batch.message_offsets[i] + batch.message_lens[i] as u64) as usize;
            assert!(end >= at);
            assert_eq!(data[end], b'\n');
            at = end;
        }
    }
}

#[test]
fn plain_chunk_of_a_buffer() {
    let data = b"x y z first\nx y z second\n\nx y z third\n";
    let batch = parse_chunk(data, 12, 26).unwrap();
    assert_eq!(batch.len, 1);
    assert_eq!(batch.message(data, 0), b"second");
    assert_eq!(batch.message_offsets[0], 18);
    assert_eq!(parse_chunk_streaming(data, 0, data.len()), Some(3));
    assert_eq!(parse_chunk_streaming(data, 12, 12), Some(0));
    let batch = parse_owned_chunk(data).unwrap();
    assert_eq!(batch.len, 3);
    assert_eq!(batch.message(data, 2), b"third");
}

#[test]
fn plain_stream_carries_the_tail_over() {
    let mut stream = PlainStream::new();
    assert!(stream.feed(b"2025-02-12T10:31:45Z INFO a fir", false));
    assert!(stream.batches.is_empty());
    assert_eq!(stream.leftover, b"2025-02-12T10:31:45Z INFO a fir");
    assert!(stream.feed(b"st\n2025-02-12T10:31:46Z WARN b sec", false));
    assert_eq!(stream.batches.len(), 1);
    assert_eq!(stream.leftover, b"2025-02-12T10:31:46Z WARN b sec");
    assert!(stream.feed(b"ond", true));
    assert_eq!(stream.batches.len(), 2);
    assert!(stream.leftover.is_empty());
    let result = stream.finish();
    assert_eq!(result.total_lines, 2);
    assert_eq!(result._backing_data.len(), 2);
    assert_eq!(result._backing_data[0], b"2025-02-12T10:31:45Z INFO a first\n");
    assert_eq!(result.batches[0].message(&result._backing_data[0], 0), b"first");
    assert_eq!(result.batches[1].message(&result._backing_data[1], 0), b"second");
    assert_eq!(result.batches[1].levels[0], LogLevel::Warn);
}

#[test]
fn plain_stream_keeps_every_batch() {
    let data = many_lines(500);
    let whole = parse_logs_pipelined(&data, 1, CHUNK_MB).unwrap();
    let expected = flatten(&whole, &data);
    for size in [1usize, 7, 64, 1000, data.len()] {
        let segments: Vec<Vec<u8>> = data.chunks(size).map(|c| c.to_vec()).collect();
        let result = parse_logs_streamed(&segments).unwrap();
        assert_eq!(result.total_lines, whole.total_lines);
        assert_eq!(result.batches.len(), result._backing_data.len());
        let mut got = Vec::new();
        for (batch, buffer) in result.batches.iter().zip(result._backing_data.iter()) {
            for i in 0..batch.len {
                got.push((
                    batch.timestamps[i],
                    batch.component(buffer, i).to_vec(),
                    batch.message(buffer, i).to_vec(),
                ));
            }
        }
        assert_eq!(got, expected);
    }
}

#[test]
fn scanned_lines_take_their_starts_from_the_caller() {
    let data = b"x y z first\nx y z second\n\nx y z third\n";
    let starts: Vec<u64> = vec![0, 12, 25, 26, 38];
    let batch = parse_scanned_lines(data, &starts).unwrap();
    assert_eq!(batch.len, 3);
    assert_eq!(batch.message(data, 1), b"second");
    for bad in [vec![], vec![4, 0], vec![0, 39]] {
        assert!(parse_scanned_lines(data, &bad).is_none());
    }
    let batch = parse_scanned_lines(data, &[5]).unwrap();
    assert_eq!(batch.len, 0);
}
