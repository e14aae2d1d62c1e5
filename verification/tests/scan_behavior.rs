//! Behavioural tests of the two scan entry points: sequential/partitioned
//! agreement, boundary cases, wildcard and trimming semantics, stop-at-first,
//! and the error taxonomy.

use aob_scan::{aob_scan_multi_threaded, aob_scan_single_threaded, CompileError, ScanError};

fn buffer_with(pattern_bytes: &[u8], offsets: &[usize], len: usize, filler: u8) -> Vec<u8> {
    let mut data = vec![filler; len];
    for &o in offsets {
        data[o..o + pattern_bytes.len()].copy_from_slice(pattern_bytes);
    }
    data
}

#[test]
fn sequential_and_parallel_agree() {
    let data = buffer_with(&[0xDE, 0xAD, 0xBE, 0xEF], &[3, 40, 41, 97], 120, 0x11);
    let sequential = aob_scan_single_threaded("DE AD BE EF", &data, false).unwrap();
    for workers in 2..=12 {
        let parallel = aob_scan_multi_threaded("DE AD BE EF", &data, false, workers).unwrap();
        assert_eq!(sequential, parallel);
    }
}

#[test]
fn repeating_a_scan_gives_the_same_result() {
    let data = buffer_with(&[0xCA, 0xFE], &[0, 9, 30], 64, 0x00);
    let first = aob_scan_single_threaded("CA FE", &data, false).unwrap();
    let second = aob_scan_single_threaded("CA FE", &data, false).unwrap();
    assert_eq!(first, second);
    let first_par = aob_scan_multi_threaded("CA FE", &data, false, 3).unwrap();
    let second_par = aob_scan_multi_threaded("CA FE", &data, false, 3).unwrap();
    assert_eq!(first_par, second_par);
}

#[test]
fn pattern_as_long_as_buffer_matches_iff_bytes_line_up() {
    let data = [0x10, 0x20, 0x30];
    assert_eq!(
        aob_scan_single_threaded("10 20 30", &data, false).unwrap(),
        vec![0]
    );
    assert_eq!(
        aob_scan_single_threaded("10 21 30", &data, false).unwrap(),
        Vec::<usize>::new()
    );
    // A wildcard in the middle leaves only the concrete bytes to line up.
    assert_eq!(
        aob_scan_single_threaded("10 ?? 30", &data, false).unwrap(),
        vec![0]
    );
}

#[test]
fn pattern_longer_than_buffer_is_empty_not_error() {
    let data = [0xAA, 0xBB];
    assert_eq!(
        aob_scan_single_threaded("AA BB CC", &data, false).unwrap(),
        Vec::<usize>::new()
    );
    let parallel = aob_scan_multi_threaded("AA BB CC", &data, false, 4).unwrap();
    assert_eq!(parallel, Vec::<usize>::new());
}

#[test]
fn match_at_the_very_end_of_the_buffer_is_found() {
    let data = [0x00, 0x00, 0xAB, 0xCD];
    assert_eq!(
        aob_scan_single_threaded("AB CD", &data, false).unwrap(),
        vec![2]
    );
    assert_eq!(
        aob_scan_multi_threaded("AB CD", &data, false, 2).unwrap(),
        vec![2]
    );
}

#[test]
fn wildcard_matches_any_byte() {
    let data = [0xAA, 0x00, 0xCC];
    assert_eq!(
        aob_scan_single_threaded("AA ?? CC", &data, false).unwrap(),
        vec![0]
    );
    let shorter = [0xAA, 0xCC];
    assert_eq!(
        aob_scan_single_threaded("AA ?? CC", &shorter, false).unwrap(),
        Vec::<usize>::new()
    );
}

#[test]
fn leading_wildcard_offsets_are_corrected() {
    let data = [0x00, 0xAA, 0xBB];
    assert_eq!(
        aob_scan_single_threaded("?? AA BB", &data, false).unwrap(),
        vec![0]
    );
}

#[test]
fn leading_wildcard_needs_room_before_the_anchor() {
    // The template "AA" sits at buffer offset 0, but the wildcard before it
    // would begin at offset -1: no occurrence.
    let data = [0xAA, 0x01];
    assert_eq!(
        aob_scan_single_threaded("?? AA", &data, false).unwrap(),
        Vec::<usize>::new()
    );
    let data2 = [0x55, 0xAA];
    assert_eq!(
        aob_scan_single_threaded("?? AA", &data2, false).unwrap(),
        vec![0]
    );
}

#[test]
fn trailing_wildcards_are_trimmed() {
    let data = [0xAA, 0xBB];
    assert_eq!(
        aob_scan_single_threaded("AA ?? ??", &data, false).unwrap(),
        vec![0]
    );
}

#[test]
fn boundary_straddling_occurrence_found_for_every_worker_count() {
    let pattern_bytes: Vec<u8> = (0x60..0x6A).collect();
    let data = buffer_with(&pattern_bytes, &[47], 100, 0x00);
    let text = "60 61 62 63 64 65 66 67 68 69";
    assert_eq!(
        aob_scan_single_threaded(text, &data, false).unwrap(),
        vec![47]
    );
    for workers in [2, 3, 10] {
        assert_eq!(
            aob_scan_multi_threaded(text, &data, false, workers).unwrap(),
            vec![47],
            "worker count {workers}"
        );
    }
}

#[test]
fn stop_at_first_returns_the_smallest_offset() {
    let data = buffer_with(&[0xFE, 0xED, 0xFA, 0xCE], &[5, 5000, 9000], 10000, 0x33);
    assert_eq!(
        aob_scan_single_threaded("FE ED FA CE", &data, true).unwrap(),
        vec![5]
    );
    assert_eq!(
        aob_scan_multi_threaded("FE ED FA CE", &data, true, 4).unwrap(),
        vec![5]
    );
    assert_eq!(
        aob_scan_single_threaded("FE ED FA CE", &data, false).unwrap(),
        vec![5, 5000, 9000]
    );
}

#[test]
fn empty_pattern_is_a_compile_error() {
    let data = [0x01, 0x02];
    assert!(matches!(
        aob_scan_single_threaded("", &data, false),
        Err(ScanError::Compile { error: CompileError::EmptyPattern })
    ));
    assert!(matches!(
        aob_scan_multi_threaded("   ", &data, false, 2),
        Err(ScanError::Compile { error: CompileError::EmptyPattern })
    ));
}

#[test]
fn all_wildcard_pattern_is_a_compile_error() {
    let data = [0x01, 0x02];
    assert!(matches!(
        aob_scan_single_threaded("??", &data, false),
        Err(ScanError::Compile { error: CompileError::AllWildcards })
    ));
    assert!(matches!(
        aob_scan_single_threaded("? ?? ?", &data, false),
        Err(ScanError::Compile { error: CompileError::AllWildcards })
    ));
}

#[test]
fn one_worker_is_a_configuration_error() {
    let data = [0x01, 0x02];
    assert!(matches!(
        aob_scan_multi_threaded("01", &data, false, 1),
        Err(ScanError::Configuration)
    ));
    assert!(matches!(
        aob_scan_multi_threaded("01", &data, false, 0),
        Err(ScanError::Configuration)
    ));
}

#[test]
fn malformed_token_is_named_in_the_error() {
    let data = [0x01, 0x02];
    match aob_scan_single_threaded("ZZ", &data, false) {
        Err(ScanError::Compile { error: CompileError::InvalidToken { token } }) => {
            assert_eq!(token, "ZZ");
        }
        other => panic!("expected an invalid-token error, got {:?}", other.is_ok()),
    }
    match aob_scan_single_threaded("AA 123 BB", &data, false) {
        Err(ScanError::Compile { error: CompileError::InvalidToken { token } }) => {
            assert_eq!(token, "123");
        }
        other => panic!("expected an invalid-token error, got {:?}", other.is_ok()),
    }
}

#[test]
fn first_malformed_token_wins() {
    let data = [0x01];
    match aob_scan_single_threaded("AA ?x +F", &data, false) {
        Err(ScanError::Compile { error: CompileError::InvalidToken { token } }) => {
            assert_eq!(token, "?x");
        }
        other => panic!("expected an invalid-token error, got {:?}", other.is_ok()),
    }
}

#[test]
fn empty_buffer_scans_to_empty_result() {
    let data: [u8; 0] = [];
    assert_eq!(
        aob_scan_single_threaded("AA", &data, false).unwrap(),
        Vec::<usize>::new()
    );
    assert_eq!(
        aob_scan_multi_threaded("AA", &data, false, 3).unwrap(),
        Vec::<usize>::new()
    );
}

#[test]
fn single_byte_pattern_is_a_linear_search() {
    let data = [0xCC, 0x01, 0xCC, 0xCC];
    assert_eq!(
        aob_scan_single_threaded("CC", &data, false).unwrap(),
        vec![0, 2, 3]
    );
}

#[test]
fn overlapping_occurrences_are_all_reported() {
    let data = [0xAA, 0xAA, 0xAA];
    assert_eq!(
        aob_scan_single_threaded("AA AA", &data, false).unwrap(),
        vec![0, 1]
    );
}

#[test]
fn hex_tokens_are_case_insensitive_and_may_be_one_digit() {
    let data = [0x0A, 0x0F, 0x0B, 0xAB];
    assert_eq!(
        aob_scan_single_threaded("a F 0b AB", &data, false).unwrap(),
        vec![0]
    );
    assert_eq!(
        aob_scan_single_threaded("ab", &data, false).unwrap(),
        vec![3]
    );
}

#[test]
fn any_ascii_whitespace_separates_tokens() {
    let data = [0x12, 0x34, 0x56];
    assert_eq!(
        aob_scan_single_threaded("\t12\n34 \r 56  ", &data, false).unwrap(),
        vec![0]
    );
}
