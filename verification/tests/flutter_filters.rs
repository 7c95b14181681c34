use rtk::flutter::{
    filter_flutter_analyze, filter_flutter_build, filter_flutter_pub, filter_flutter_test,
    run_flutter_analyze, run_flutter_build, run_flutter_pub, run_flutter_test,
};
use rtk::dart::filter_dart_pub;
use rtk::plan::{OutputFilter, OutputMode};

#[test]
fn test_filter_flutter_pub_summary() {
    let out = "Resolving dependencies...\n+ pkg 1.0.0\nChanged 58 dependencies!\n5 packages have newer versions";
    let res = filter_flutter_pub(out);
    assert!(res.contains("Changed 58"));
    assert!(res.contains("newer versions"));
    assert!(!res.contains("+ pkg"));
}

#[test]
fn test_filter_flutter_analyze_groups() {
    let out = r#"
info • Don't invoke 'print' • lib/main.dart:21:5 • avoid_print
warning • Local variable unused • lib/main.dart:35:9 • unused_local_variable
20 issues found. (ran in 3.4s)
"#;
    let res = filter_flutter_analyze(out);
    assert!(res.contains("20 issues found"));
    assert!(res.contains("unused_local_variable"));
}

#[test]
fn test_filter_flutter_build_errors() {
    let out = "Running Gradle...\nerror: resource not found\nBuild finished";
    let res = filter_flutter_build(out);
    assert!(res.contains("error"));
}

#[test]
fn pub_filters_agree() {
    let out = "Changed 2 dependencies!\nwarning: x\nfoo has incompatible versions";
    assert_eq!(filter_flutter_pub(out), filter_dart_pub(out));
    assert_eq!(
        filter_flutter_pub(out),
        "warning: x\nChanged 2 dependencies!\nfoo has incompatible versions"
    );
}

#[test]
fn analyze_exact_layout() {
    let out = "info \u{2022} Don't invoke 'print' \u{2022} lib/main.dart:21:5 \u{2022} avoid_print\n\
warning \u{2022} Local variable unused \u{2022} lib/main.dart:35:9 \u{2022} unused_local_variable\n\
info \u{2022} Don't invoke 'print' \u{2022} lib/main.dart:21:7 \u{2022} avoid_print\n\
error \u{2022} Missing \u{2022} lib/x.dart:1:1 \u{2022} undefined\n\
20 issues found. (ran in 3.4s)";
    assert_eq!(
        filter_flutter_analyze(out),
        "20 issues found. (ran in 3.4s)\nlib/x.dart:1 (1 issues)\n  error undefined: Missing\nlib/main.dart:35 (1 issues)\n  warning unused_local_variable: Local variable unused\nlib/main.dart:21 (2 issues)\n  info avoid_print: Don't invoke 'print' (x2)"
    );
}

#[test]
fn analyze_without_issue_lines() {
    assert_eq!(filter_flutter_analyze("Analyzing...\nNo issues found!"), "No issues found!");
    assert_eq!(filter_flutter_analyze("Analyzing..."), "ok");
}

#[test]
fn build_trims_and_groups_errors() {
    let out = "  Running Gradle task 'assembleRelease'...  \n\u{2713} Built build/app.apk (21.3MB)\nERROR: bad thing\nnoise";
    assert_eq!(
        filter_flutter_build(out),
        "\u{2713} Built build/app.apk (21.3MB)\n---\nERROR: bad thing"
    );
    assert_eq!(filter_flutter_build("nothing"), "ok");
}

#[test]
fn test_collects_exception_blocks() {
    let out = "00:00 +0: loading\n\u{2550}\u{2550}\u{2561} EXCEPTION CAUGHT BY FLUTTER TEST FRAMEWORK \u{255e}\u{2550}\u{2550}\nThe following TestFailure was thrown:\nExpected: true\n\u{2550}\u{2550}\u{2550}\u{2550}\u{2550}\u{2550}\u{2550}\u{2550}\u{2550}\u{2550}\u{2550}\u{2550}\u{2550}\u{2550}\u{2550}\u{2550}\u{2550}\u{2550}\u{2550}\nTest failed. See exception logs above.\nFailing tests:\nAll tests passed!";
    assert_eq!(
        filter_flutter_test(out),
        "0 passed, 2 failed\n---\n\u{2550}\u{2550}\u{2561} EXCEPTION CAUGHT BY FLUTTER TEST FRAMEWORK \u{255e}\u{2550}\u{2550}\nThe following TestFailure was thrown:\nExpected: true\n---\nTest failed. See exception logs above.\nFailing tests:\nAll tests passed!"
    );
}

#[test]
fn test_all_passed() {
    assert_eq!(filter_flutter_test("00:02 +12: All tests passed!"), "1 passed, 0 failed");
    assert_eq!(filter_flutter_test(""), "0 passed, 0 failed");
}

#[test]
fn flutter_plans() {
    let args = vec!["apk".to_string(), "--release".to_string()];
    let p = run_flutter_build(&args, 1);
    assert_eq!(p.program, "flutter");
    assert_eq!(p.args, vec!["build", "apk", "--release"]);
    assert_eq!(p.announce.as_deref(), Some("Running: flutter build apk --release"));
    assert!(matches!(p.mode, OutputMode::Filtered(OutputFilter::FlutterBuild)));
    assert!(matches!(run_flutter_pub(&[], 0).mode, OutputMode::Filtered(OutputFilter::FlutterPub)));
    assert!(matches!(run_flutter_analyze(&[], 0).mode, OutputMode::Filtered(OutputFilter::FlutterAnalyze)));
    assert!(matches!(run_flutter_test(&[], 0).mode, OutputMode::Filtered(OutputFilter::FlutterTest)));
}
