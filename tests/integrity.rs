use embeddenator_testkit::{IntegrityReport, IntegrityValidator, SparseVec};

#[test]
fn test_integrity_report() {
    let mut report = IntegrityReport::new();
    assert!(report.is_ok());

    report.pass();
    assert_eq!(report.checks_total, 1);
    assert_eq!(report.checks_passed, 1);

    report.fail("test failure");
    assert_eq!(report.checks_total, 2);
    assert_eq!(report.checks_passed, 1);
    assert!(!report.is_ok());
}

#[test]
fn test_validate_sparse() {
    let validator = IntegrityValidator::new();

    // Create a valid sparse vector
    let sparse = SparseVec {
        pos: vec![0, 10, 20],
        neg: vec![5, 15, 25],
    };

    let report = validator.validate_sparse(&sparse);
    assert!(report.is_ok());
}

#[test]
fn test_bind_invariants() {
    let validator = IntegrityValidator::new();

    let sparse_a = SparseVec {
        pos: vec![0, 10, 20],
        neg: vec![5, 15, 25],
    };
    let sparse_b = SparseVec {
        pos: vec![1, 11, 21],
        neg: vec![6, 16, 26],
    };

    let report = validator.validate_bind_invariants(&sparse_a, &sparse_b);
    // Should pass commutativity
    assert!(report.checks_passed > 0);
}

#[test]
fn shared_index_is_reported_as_corruption() {
    let v = SparseVec { pos: vec![1, 2], neg: vec![2, 5] };
    let report = IntegrityValidator::new().validate_sparse(&v);
    assert!(!report.is_ok());
    assert_eq!(report.corruption_events, 1);
    assert_eq!(report.checks_total, 3);
    assert_eq!(report.checks_passed, 2);
    assert_eq!(report.failures, vec!["Overlap between pos and neg indices".to_string()]);
}

#[test]
fn unsorted_supports_fail_their_checks() {
    let v = SparseVec { pos: vec![3, 1], neg: vec![9, 9] };
    let report = IntegrityValidator::new().validate_sparse(&v);
    assert_eq!(report.checks_total, 3);
    assert_eq!(report.checks_passed, 1);
    assert_eq!(report.corruption_events, 0);
    assert_eq!(
        report.failures,
        vec!["pos indices not sorted".to_string(), "neg indices not sorted".to_string()]
    );
}

#[test]
fn fresh_report_is_vacuously_healthy() {
    let report = IntegrityReport::new();
    assert!(report.is_ok());
    assert_eq!(report.pass_rate_tenths(), 1000);
    assert_eq!(report.checks_total, 0);
    assert!(report.failures.is_empty());
}

#[test]
fn pass_rate_rounds_to_tenths() {
    let mut report = IntegrityReport::new();
    report.pass();
    report.fail("a");
    report.fail("b");
    assert_eq!(report.pass_rate_tenths(), 333);
    report.pass();
    report.pass();
    report.pass();
    // 4 of 6 is 66.66...%
    assert_eq!(report.pass_rate_tenths(), 667);
}

#[test]
fn counters_and_invariant_messages() {
    let mut report = IntegrityReport::default();
    report.record_bitflip();
    report.record_corruption();
    report.record_invariant_violation("bad law");
    assert_eq!(report.bitflips_detected, 1);
    assert_eq!(report.corruption_events, 1);
    assert_eq!(report.invariant_violations, 1);
    assert_eq!(report.checks_total, 0);
    assert_eq!(report.failures, vec!["INVARIANT: bad law".to_string()]);
    assert!(!report.is_ok());
}

#[test]
fn summary_lists_counters() {
    let mut report = IntegrityReport::new();
    report.pass();
    report.pass();
    report.fail("x");
    report.record_bitflip();
    let text = report.summary();
    assert_eq!(
        text,
        "Integrity Report:\n- Total checks: 3\n- Passed: 2\n- Failed: 1\n- Pass rate: 66.7%\n\
         - Bitflips: 1\n- Corruption events: 0\n- Invariant violations: 0"
    );
    assert!(IntegrityReport::new().summary().contains("Pass rate: 100.0%"));
}

#[test]
fn bundle_commutes_on_sparse_inputs() {
    let a = SparseVec { pos: vec![0, 10, 20], neg: vec![5, 15, 25] };
    let b = SparseVec { pos: vec![1, 15, 21], neg: vec![6, 16, 20] };
    let report = IntegrityValidator::new().validate_bundle_invariants(&a, &b);
    assert!(report.is_ok());
    assert_eq!(report.checks_passed, 1);
}

#[test]
fn bind_of_overlapping_vectors_commutes() {
    let a = SparseVec { pos: vec![1, 2, 3], neg: vec![7, 8] };
    let b = SparseVec { pos: vec![2, 8], neg: vec![3, 9] };
    let report = IntegrityValidator::new().validate_bind_invariants(&a, &b);
    assert!(report.is_ok());
    assert_eq!(report.invariant_violations, 0);
}

#[test]
fn non_commuting_results_are_violations() {
    let ab = SparseVec { pos: vec![1], neg: vec![] };
    let ba = SparseVec { pos: vec![2], neg: vec![] };
    let report = IntegrityValidator::new().verbose().validate_commuted(&ab, &ba, "mismatch");
    assert_eq!(report.invariant_violations, 1);
    assert_eq!(report.checks_total, 0);
    assert_eq!(report.failures, vec!["INVARIANT: mismatch".to_string()]);
    assert!(!report.is_ok());
}

#[test]
fn differences_report_count_drift() {
    let expected = SparseVec { pos: vec![1, 2, 3], neg: vec![4] };
    let actual = SparseVec { pos: vec![1], neg: vec![4] };
    let report = IntegrityValidator::default().detect_differences(&expected, &actual);
    assert_eq!(report.checks_total, 2);
    assert_eq!(report.checks_passed, 1);
    assert_eq!(report.corruption_events, 1);
    assert_eq!(report.failures, vec!["pos indices differ by 2 elements".to_string()]);

    let same = IntegrityValidator::new().detect_differences(&expected, &expected);
    assert!(same.is_ok());

    let moved = SparseVec { pos: vec![1, 2, 9], neg: vec![5] };
    let report = IntegrityValidator::new().detect_differences(&expected, &moved);
    assert_eq!(report.corruption_events, 2);
    assert_eq!(
        report.failures,
        vec![
            "pos indices differ by 0 elements".to_string(),
            "neg indices differ by 0 elements".to_string()
        ]
    );
}
