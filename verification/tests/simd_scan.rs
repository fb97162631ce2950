use pandoraslogs::simd_scan::{
    count_newlines_in_region, count_newlines_lanes32, count_newlines_lanes64,
    count_newlines_scalar, extract_positions_from_mask, joined_mask, newline_mask, scan_newlines,
    scan_newlines_parallel, scan_region, scan_region_lanes32, scan_region_lanes64,
    scan_region_scalar, scan_region_with, simd_capability, ScanKernel,
};

fn scan_newlines_reference(data: &[u8]) -> Vec<u64> {
    let mut result = vec![0u64];
    for (i, &b) in data.iter().enumerate() {
        if b == b'\n' && (i + 1) < data.len() {
            result.push((i + 1) as u64);
        }
    }
    result
}

#[test]
fn test_scan_empty() {
    let result = scan_newlines(b"");
    assert_eq!(result, vec![0]);
}

#[test]
fn test_scan_no_newlines() {
    let result = scan_newlines(b"hello world");
    assert_eq!(result, vec![0]);
}

#[test]
fn test_scan_single_newline() {
    let result = scan_newlines(b"hello\nworld");
    assert_eq!(result, vec![0, 6]);
}

#[test]
fn test_scan_multiple_newlines() {
    let data = b"line1\nline2\nline3\n";
    let result = scan_newlines(data);
    let expected = scan_newlines_reference(data);
    assert_eq!(result, expected);
}

#[test]
fn test_scan_large_block() {
    let mut data = Vec::new();
    for i in 0..100 {
        data.extend_from_slice(format!("log line number {} with some content\n", i).as_bytes());
    }
    let result = scan_newlines(&data);
    let expected = scan_newlines_reference(&data);
    assert_eq!(result, expected, "SIMD scan mismatch vs reference");
}

#[test]
fn test_scan_consecutive_newlines() {
    let data = b"a\n\n\nb\n";
    let result = scan_newlines(data);
    let expected = scan_newlines_reference(data);
    assert_eq!(result, expected);
}

#[test]
fn test_scan_boundary_alignment() {
    let mut data = vec![b'x'; 64];
    data[63] = b'\n';
    data.extend_from_slice(b"next line\n");
    let result = scan_newlines(&data);
    let expected = scan_newlines_reference(&data);
    assert_eq!(result, expected);
}

#[test]
fn test_scan_parallel_matches_sequential() {
    let mut data = Vec::new();
    for i in 0..1000 {
        data.extend_from_slice(
            format!(
                "2025-02-12T10:31:45Z INFO api-server request_id=test{}\n",
                i
            )
            .as_bytes(),
        );
    }
    let seq = scan_newlines(&data);
    let par = scan_newlines_parallel(&data, 4);
    assert_eq!(seq, par, "Parallel scan must match sequential scan");
}

#[test]
fn test_count_newlines_empty() {
    assert_eq!(count_newlines_in_region(b""), 0);
}

#[test]
fn test_count_newlines_none() {
    assert_eq!(count_newlines_in_region(b"hello world"), 0);
}

#[test]
fn test_count_newlines_single() {
    assert_eq!(count_newlines_in_region(b"hello\nworld"), 1);
}

#[test]
fn test_count_newlines_multiple() {
    assert_eq!(count_newlines_in_region(b"a\nb\nc\n"), 3);
}

#[test]
fn test_count_newlines_consecutive() {
    assert_eq!(count_newlines_in_region(b"a\n\n\nb\n"), 4);
}

#[test]
fn test_count_newlines_large_block() {
    let mut data = Vec::new();
    for i in 0..1000 {
        data.extend_from_slice(format!("log line number {}\n", i).as_bytes());
    }
    assert_eq!(count_newlines_in_region(&data), 1000);
}

#[test]
fn test_count_newlines_boundary_256() {
    let mut data = vec![b'x'; 256];
    data[63] = b'\n';
    data[127] = b'\n';
    data[191] = b'\n';
    data[255] = b'\n';
    assert_eq!(count_newlines_in_region(&data), 4);
}

#[test]
fn test_count_matches_scan_positions() {
    let mut data = Vec::new();
    for i in 0..500 {
        data.extend_from_slice(
            format!(
                "2025-02-12T10:31:45Z INFO api-server request_id=test{}\n",
                i
            )
            .as_bytes(),
        );
    }
    let scan_result = scan_newlines(&data);
    let newline_count = count_newlines_in_region(&data);

    assert_eq!(scan_result.len() as u64, newline_count);
}

fn sample(len: usize) -> Vec<u8> {
    // newlines at irregular distances, some of them in a row
    let mut data = Vec::with_capacity(len);
    let mut state: u32 = 12345;
    for _ in 0..len {
        state = state.wrapping_mul(1103515245).wrapping_add(12345);
        let r = (state >> 16) % 23;
        data.push(if r < 3 { b'\n' } else { b'a' + (r as u8) });
    }
    data
}

#[test]
fn kernels_agree_on_starts() {
    for len in [0usize, 1, 31, 32, 33, 63, 64, 65, 95, 96, 127, 128, 255, 256, 257, 300, 511, 512, 1000] {
        let data = sample(len);
        let mut expected = Vec::new();
        for (i, &b) in data.iter().enumerate() {
            if b == b'\n' && 7 + i as u64 + 1 < 7 + len as u64 {
                expected.push(7 + i as u64 + 1);
            }
        }
        let mut a = Vec::new();
        scan_region_lanes64(&data, 7, 7 + len as u64, &mut a);
        let mut b = Vec::new();
        scan_region_lanes32(&data, 7, 7 + len as u64, &mut b);
        let mut c = Vec::new();
        scan_region_scalar(&data, 7, 7 + len as u64, &mut c);
        let mut d = Vec::new();
        scan_region(&data, 7, 7 + len as u64, &mut d);
        assert_eq!(a, expected, "len {}", len);
        assert_eq!(b, expected, "len {}", len);
        assert_eq!(c, expected, "len {}", len);
        assert_eq!(d, expected, "len {}", len);
        for kernel in [ScanKernel::Avx512, ScanKernel::Avx2, ScanKernel::Scalar] {
            let mut e = Vec::new();
            scan_region_with(kernel, &data, 7, 7 + len as u64, &mut e);
            assert_eq!(e, expected);
        }
    }
}

#[test]
fn kernels_agree_on_counts() {
    for len in [0usize, 1, 31, 32, 33, 63, 64, 65, 127, 128, 255, 256, 257, 300, 512, 1000] {
        let data = sample(len);
        let expected = data.iter().filter(|&&b| b == b'\n').count() as u64;
        assert_eq!(count_newlines_scalar(&data), expected);
        assert_eq!(count_newlines_lanes64(&data), expected);
        assert_eq!(count_newlines_lanes32(&data), expected);
        assert_eq!(count_newlines_in_region(&data), expected);
    }
}

#[test]
fn scan_appends_after_what_is_there() {
    let mut out = vec![42u64];
    scan_region(b"a\nb\nc", 10, 100, &mut out);
    assert_eq!(out, vec![42, 12, 14]);
}

#[test]
fn start_at_the_limit_is_dropped() {
    let mut out = Vec::new();
    scan_region(b"a\nb\n", 0, 4, &mut out);
    assert_eq!(out, vec![2]);
    let mut out = Vec::new();
    scan_region(b"a\nb\n", 0, 5, &mut out);
    assert_eq!(out, vec![2, 4]);
    let mut out = Vec::new();
    scan_region(b"a\nb\n", 0, 2, &mut out);
    assert_eq!(out, Vec::<u64>::new());
}

#[test]
fn masks_have_one_bit_per_newline() {
    let mut data = vec![b'x'; 64];
    data[0] = b'\n';
    data[31] = b'\n';
    data[32] = b'\n';
    data[63] = b'\n';
    let expected = 1u64 | (1 << 31) | (1 << 32) | (1 << 63);
    assert_eq!(newline_mask(&data, 0, 64), expected);
    assert_eq!(joined_mask(&data, 0), expected);
    assert_eq!(newline_mask(&data, 0, 32), 1u64 | (1 << 31));
    assert_eq!(newline_mask(&data, 32, 32), 1u64 | (1 << 31));
    assert_eq!(newline_mask(&data, 1, 10), 0);
    assert_eq!(newline_mask(&data, 0, 0), 0);
}

#[test]
fn mask_positions_come_out_lowest_first() {
    let mut out = Vec::new();
    extract_positions_from_mask(0b1010_0001, 100, 1000, &mut out);
    assert_eq!(out, vec![101, 106, 108]);
    let mut out = Vec::new();
    extract_positions_from_mask(1 << 63, 0, 1000, &mut out);
    assert_eq!(out, vec![64]);
    let mut out = Vec::new();
    extract_positions_from_mask(u64::MAX, 0, 3, &mut out);
    assert_eq!(out, vec![1, 2]);
    let mut out = vec![9];
    extract_positions_from_mask(0, 0, 3, &mut out);
    assert_eq!(out, vec![9]);
}

#[test]
fn parallel_scan_of_a_large_buffer() {
    let mut data = Vec::new();
    let mut i = 0;
    while data.len() < 1_200_000 {
        data.extend_from_slice(format!("line {} of the large buffer\n", i).as_bytes());
        i += 1;
    }
    data.extend_from_slice(b"no newline at the end");
    let expected = scan_newlines_reference(&data);
    assert_eq!(scan_newlines(&data), expected);
    for threads in [0usize, 1, 2, 3, 4, 7, 64] {
        assert_eq!(scan_newlines_parallel(&data, threads), expected, "{} threads", threads);
    }
}

#[test]
fn kernel_names() {
    assert_eq!(simd_capability(ScanKernel::Avx512), "AVX-512 (512-bit, 64 bytes/compare)");
    assert_eq!(simd_capability(ScanKernel::Avx2), "AVX2 (256-bit, 32 bytes/compare)");
    assert_eq!(simd_capability(ScanKernel::Scalar), "Scalar (no SIMD)");
}
