use rtk::dart::{
    filter_dart_analyze, filter_dart_pub, filter_dart_run, filter_dart_test,
    filter_dart_test_checked, run_dart_analyze, run_dart_pub, run_dart_run, run_dart_test,
};
use rtk::plan::{apply_filter, OutputFilter, OutputMode};

#[test]
fn test_filter_dart_pub_summary() {
    let out = "Resolving dependencies...\n+ pkg 1.0.0\nChanged 12 dependencies!";
    let res = filter_dart_pub(out);
    assert!(res.contains("Changed 12"));
    assert!(!res.contains("+ pkg"));
}

#[test]
fn test_filter_dart_test_counts() {
    let out = "+3 -1: Some tests failed.\n - test foo\nExpected: 1\nActual: 2";
    let res = filter_dart_test(out);
    assert!(res.contains("3 passed, 1 failed"));
}

#[test]
fn test_filter_dart_run_empty() {
    assert_eq!(filter_dart_run("Hello\nWorld"), "ok");
}

#[test]
fn pub_puts_problems_then_last_change_then_outdated() {
    let out = "Changed 1 dependencies!\n3 packages have newer versions incompatible with constraints\nwarning: old sdk\nChanged 4 dependencies!";
    assert_eq!(
        filter_dart_pub(out),
        "warning: old sdk\nChanged 4 dependencies!\n3 packages have newer versions incompatible with constraints"
    );
    assert_eq!(filter_dart_pub("Resolving dependencies...\nGot dependencies!"), "ok");
}

#[test]
fn run_keeps_errors_warnings_exceptions() {
    let out = "Hello\nUnhandled Exception: boom\nWarning: deprecated\nbye";
    assert_eq!(filter_dart_run(out), "Unhandled Exception: boom\nWarning: deprecated");
}

#[test]
fn test_exact_summary_and_report() {
    let out = "+3 -1: Some tests failed.\n - test foo\nExpected: 1\nActual: 2";
    assert_eq!(filter_dart_test(out), "3 passed, 1 failed\n---\n+3 -1: Some tests failed.");
}

#[test]
fn test_failure_blocks() {
    let out = "\u{2713} adds\n\u{2717} subtracts\n  Expected: 1\n  Actual: 2\n\u{2717} divides\n  boom\nSome tests passed";
    assert_eq!(
        filter_dart_test(out),
        "1 passed, 2 failed\n---\n\u{2717} subtracts\nExpected: 1\nActual: 2\n---\n\u{2717} divides\nboom"
    );
}

#[test]
fn test_progress_tokens_sum() {
    let out = "+2: a\n+5 ~1 -2: b\n+x: c";
    assert_eq!(filter_dart_test(out), "7 passed, 2 failed");
}

#[test]
fn test_overflowing_counts_are_refused() {
    let out = format!("+{}: a\n+1: b", usize::MAX);
    assert!(filter_dart_test_checked(&out).is_none());
    assert!(apply_filter(OutputFilter::DartTest, &out).is_none());
    assert_eq!(
        apply_filter(OutputFilter::DartTest, "+1: a").as_deref(),
        Some("1 passed, 0 failed")
    );
}

#[test]
fn analyze_groups_by_file() {
    let out = "  info - Unused import at lib/b.dart:1:8 - unused_import\n  error - Undefined name 'x' at lib/a.dart:3:5 - undefined_identifier\n  info - Unused import at lib/b.dart:1:8 - unused_import\n  warning - Dead code at lib/b.dart:9:1 - dead_code\n3 issues found.";
    assert_eq!(
        filter_dart_analyze(out),
        "3 issues found.\nlib/a.dart:3:5 (1 issues)\n  undefined_identifier: - Undefined name 'x'\nlib/b.dart:1:8 (2 issues)\n  unused_import: - Unused import (x2)\nlib/b.dart:9:1 (1 issues)\n  dead_code: - Dead code"
    );
}

#[test]
fn analyze_without_issues() {
    assert_eq!(filter_dart_analyze("Analyzing app...\nNo issues found!"), "No issues found!");
    assert_eq!(filter_dart_analyze("Analyzing app..."), "ok");
}

#[test]
fn dart_plans() {
    let args = vec!["get".to_string()];
    let p = run_dart_pub(&args, 0);
    assert_eq!(p.program, "dart");
    assert_eq!(p.args, vec!["pub", "get"]);
    assert!(matches!(p.mode, OutputMode::Filtered(OutputFilter::DartPub)));
    assert!(p.announce.is_none());
    assert!(matches!(run_dart_analyze(&[], 0).mode, OutputMode::Filtered(OutputFilter::DartAnalyze)));
    assert!(matches!(run_dart_test(&[], 0).mode, OutputMode::Filtered(OutputFilter::DartTest)));
    let r = run_dart_run(&args, 3);
    assert_eq!(r.label, "dart run");
    assert_eq!(r.announce.as_deref(), Some("Running: dart run get"));
}

#[test]
fn timestamped_progress_lines_are_counted() {
    assert_eq!(
        filter_dart_test("00:01 +3 -1: Some tests failed."),
        "3 passed, 1 failed\n---\n00:01 +3 -1: Some tests failed."
    );
    assert_eq!(
        filter_dart_test("00:00 +0: loading\n00:02 +2: ok\n00:05 +4 -1: done"),
        "6 passed, 1 failed"
    );
    assert_eq!(filter_dart_test("0:01 +3: x"), "0 passed, 0 failed");
}
