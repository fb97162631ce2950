use pandoraslogs::chunks::{
    chunk_boundaries, chunk_size_for, copy_range, find_complete_end, join, scan_chunk,
    worker_chunks, worker_threads,
};

#[test]
fn chunk_size_is_at_least_one_mib() {
    assert_eq!(chunk_size_for(0), 1024 * 1024);
    assert_eq!(chunk_size_for(1), 1024 * 1024);
    assert_eq!(chunk_size_for(64), 64 * 1024 * 1024);
    assert_eq!(chunk_size_for(usize::MAX), usize::MAX);
}

#[test]
fn boundaries_stand_after_newlines() {
    let data = b"aaaa\nbbbb\ncccc\ndddd\n";
    assert_eq!(chunk_boundaries(data, 0, 1), vec![0, 5, 10, 15, 20]);
    assert_eq!(chunk_boundaries(data, 0, 4), vec![0, 5, 10, 15, 20]);
    assert_eq!(chunk_boundaries(data, 0, 5), vec![0, 10, 20]);
    assert_eq!(chunk_boundaries(data, 0, 6), vec![0, 10, 20]);
    assert_eq!(chunk_boundaries(data, 0, 11), vec![0, 15, 20]);
    assert_eq!(chunk_boundaries(data, 0, 19), vec![0, 20]);
    assert_eq!(chunk_boundaries(data, 0, 20), vec![0, 20]);
    assert_eq!(chunk_boundaries(data, 0, 1000), vec![0, 20]);
    assert_eq!(chunk_boundaries(data, 5, 6), vec![5, 15, 20]);
    assert_eq!(chunk_boundaries(data, 20, 6), vec![20]);
}

#[test]
fn boundary_in_mid_line_moves_to_the_next_newline() {
    let data = b"0123456789\nabcdefghij\nxyz";
    // 3 bytes on lands inside the first line: the chunk runs through its newline
    assert_eq!(chunk_boundaries(data, 0, 3), vec![0, 11, 22, 25]);
    // no newline after the seek position: the last chunk runs to the end
    assert_eq!(chunk_boundaries(data, 0, 23), vec![0, 25]);
    for size in 1..30 {
        let bounds = chunk_boundaries(data, 0, size);
        assert_eq!(bounds[0], 0);
        assert_eq!(*bounds.last().unwrap(), data.len());
        for w in bounds.windows(2) {
            assert!(w[0] < w[1]);
            assert!(w[1] == data.len() || data[w[1] - 1] == b'\n');
        }
    }
}

#[test]
fn boundaries_of_nothing() {
    assert_eq!(chunk_boundaries(b"", 0, 5), vec![0]);
    assert_eq!(chunk_boundaries(b"abc", 0, usize::MAX), vec![0, 3]);
}

#[test]
fn workers_are_no_more_than_chunks() {
    assert_eq!(worker_threads(0, 0), 1);
    assert_eq!(worker_threads(0, 5), 1);
    assert_eq!(worker_threads(8, 0), 1);
    assert_eq!(worker_threads(8, 3), 3);
    assert_eq!(worker_threads(2, 3), 2);
    assert_eq!(worker_threads(3, 3), 3);
}

#[test]
fn shares_tile_the_chunks() {
    assert_eq!(worker_chunks(0, 10, 3), (0, 3));
    assert_eq!(worker_chunks(1, 10, 3), (3, 6));
    assert_eq!(worker_chunks(2, 10, 3), (6, 10));
    assert_eq!(worker_chunks(0, 2, 1), (0, 2));
    assert_eq!(worker_chunks(0, 0, 1), (0, 0));
    for chunks in 0..40usize {
        for workers in 1..12usize {
            let mut next = 0;
            for w in 0..workers {
                let (a, b) = worker_chunks(w, chunks, workers);
                assert_eq!(a, next);
                assert!(a <= b);
                next = b;
            }
            assert_eq!(next, chunks);
        }
    }
    assert_eq!(worker_chunks(usize::MAX - 1, usize::MAX, usize::MAX), (usize::MAX - 1, usize::MAX));
}

#[test]
fn chunk_scan_is_seeded_and_closed() {
    let data = b"a\nbb\n\nccc\ndd";
    assert_eq!(scan_chunk(data, 0, data.len()), vec![0, 2, 5, 6, 10, 12]);
    assert_eq!(scan_chunk(data, 2, 10), vec![2, 5, 6, 10, 10]);
    assert_eq!(scan_chunk(data, 5, 5), vec![5, 5]);
    let data = b"a\nb\n";
    assert_eq!(scan_chunk(data, 0, 4), vec![0, 2, 4]);
}

#[test]
fn complete_part_of_a_stream() {
    assert_eq!(find_complete_end(b"abc\ndef\ngh", false), 8);
    assert_eq!(find_complete_end(b"abc\ndef\ngh", true), 10);
    assert_eq!(find_complete_end(b"no newline", false), 0);
    assert_eq!(find_complete_end(b"no newline", true), 10);
    assert_eq!(find_complete_end(b"line\n", false), 5);
    assert_eq!(find_complete_end(b"", false), 0);
    assert_eq!(find_complete_end(b"", true), 0);
}

#[test]
fn joining_and_copying() {
    assert_eq!(join(&b"left".to_vec(), b"over"), b"leftover");
    assert_eq!(join(&Vec::new(), b""), b"");
    assert_eq!(copy_range(b"0123456", 2, 5), b"234");
    assert_eq!(copy_range(b"0123456", 7, 7), b"");
}
