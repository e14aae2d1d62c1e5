//! Tests of the scanner's components: the pattern compiler, the partition
//! planner, the per-window scanner, and the result aggregator.

use aob_scan::{aggregate_offsets, compile_pattern, plan_partitions, scan_window, CompileError};

#[test]
fn compiler_trims_wildcard_runs_and_records_the_leading_count() {
    let p = compile_pattern("?? AA BB ?").unwrap();
    assert_eq!(p.bytes, vec![0xAA, 0xBB]);
    assert_eq!(p.mask, vec![true, true]);
    assert_eq!(p.leading_trim, 1);
}

#[test]
fn compiler_keeps_inner_wildcards() {
    let p = compile_pattern("AA ? CC").unwrap();
    assert_eq!(p.bytes, vec![0xAA, 0x00, 0xCC]);
    assert_eq!(p.mask, vec![true, false, true]);
    assert_eq!(p.leading_trim, 0);
}

#[test]
fn compiler_decodes_one_and_two_digit_hex_in_either_case() {
    let p = compile_pattern("0 9 a f A F 7e").unwrap();
    assert_eq!(p.bytes, vec![0x00, 0x09, 0x0A, 0x0F, 0x0A, 0x0F, 0x7E]);
    assert!(p.mask.iter().all(|&m| m));
}

#[test]
fn compiler_rejects_tokens_that_are_not_hex_or_wildcard() {
    for bad in ["ZZ", "123", "+F", "-1", "0x1", "?a", "a?", "???"] {
        match compile_pattern(&format!("AA {bad} BB")) {
            Err(CompileError::InvalidToken { token }) => assert_eq!(token, bad),
            _ => panic!("token {bad} should have been rejected"),
        }
    }
}

#[test]
fn compiler_rejects_empty_and_all_wildcard_patterns() {
    assert!(matches!(compile_pattern(""), Err(CompileError::EmptyPattern)));
    assert!(matches!(compile_pattern(" \t "), Err(CompileError::EmptyPattern)));
    assert!(matches!(compile_pattern("?"), Err(CompileError::AllWildcards)));
    assert!(matches!(compile_pattern("?? ? ??"), Err(CompileError::AllWildcards)));
}

#[test]
fn planner_tiles_the_buffer_and_overlaps_reads() {
    let parts = plan_partitions(100, 10, 3);
    assert_eq!(parts.len(), 3);
    assert_eq!(parts[0].search_start, 0);
    assert_eq!(parts[2].search_end, 100);
    for w in parts.windows(2) {
        assert_eq!(w[0].search_end, w[1].search_start);
    }
    // chunk = 33, remainder absorbed by the last partition
    assert_eq!(parts[0].search_end - parts[0].search_start, 33);
    assert_eq!(parts[1].search_end - parts[1].search_start, 33);
    assert_eq!(parts[2].search_end - parts[2].search_start, 34);
    // read ranges extend by m - 1 = 9 bytes each way, clamped at the buffer
    assert_eq!(parts[0].read_start, 0);
    assert_eq!(parts[0].read_end, 42);
    assert_eq!(parts[1].read_start, 24);
    assert_eq!(parts[1].read_end, 75);
    assert_eq!(parts[2].read_start, 57);
    assert_eq!(parts[2].read_end, 100);
}

#[test]
fn planner_handles_more_workers_than_bytes() {
    let parts = plan_partitions(3, 2, 8);
    assert_eq!(parts.len(), 8);
    assert_eq!(parts[0].search_start, 0);
    assert_eq!(parts[7].search_end, 3);
    for w in parts.windows(2) {
        assert_eq!(w[0].search_end, w[1].search_start);
    }
    for p in &parts {
        assert!(p.read_start <= p.search_start);
        assert!(p.search_end <= p.read_end && p.read_end <= 3);
    }
}

#[test]
fn window_scanner_sees_only_its_window() {
    let data = [0xAA, 0xBB, 0x00, 0xAA, 0xBB, 0x00, 0xAA, 0xBB];
    let p = compile_pattern("AA BB").unwrap();
    assert_eq!(scan_window(&data, &p, 0, data.len(), false), vec![0, 3, 6]);
    assert_eq!(scan_window(&data, &p, 3, 8, false), vec![3, 6]);
    // A window that cuts the last occurrence in half does not report it.
    assert_eq!(scan_window(&data, &p, 3, 7, false), vec![3]);
    assert_eq!(scan_window(&data, &p, 0, data.len(), true), vec![0]);
}

#[test]
fn aggregator_sorts_deduplicates_and_truncates() {
    assert_eq!(aggregate_offsets(vec![5, 3, 5, 1, 3], false), vec![1, 3, 5]);
    assert_eq!(aggregate_offsets(vec![5, 3, 5, 1, 3], true), vec![1]);
    assert_eq!(aggregate_offsets(vec![], false), Vec::<usize>::new());
    assert_eq!(aggregate_offsets(vec![], true), Vec::<usize>::new());
    assert_eq!(aggregate_offsets(vec![7], true), vec![7]);
}
