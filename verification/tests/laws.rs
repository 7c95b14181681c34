use rtk::bun::{filter_bun_install, filter_bun_run, BunTestHandler};
use rtk::dart::{filter_dart_analyze, filter_dart_pub, filter_dart_run};
use rtk::flutter::{filter_flutter_analyze, filter_flutter_pub, filter_flutter_test};
use rtk::plan::{apply_filter, OutputFilter};

fn all_filters() -> Vec<OutputFilter> {
    vec![
        OutputFilter::BunInstall,
        OutputFilter::BunPm,
        OutputFilter::BunBuild,
        OutputFilter::BunRun,
        OutputFilter::BunCreate,
        OutputFilter::DartPub,
        OutputFilter::DartAnalyze,
        OutputFilter::DartTest,
        OutputFilter::DartRun,
        OutputFilter::FlutterPub,
        OutputFilter::FlutterAnalyze,
        OutputFilter::FlutterTest,
        OutputFilter::FlutterBuild,
    ]
}

#[test]
fn every_filter_answers_something() {
    for input in ["", "   \n\t\n", "\x1b[0m\n"] {
        for f in all_filters() {
            let out = apply_filter(f, input).unwrap();
            assert!(!out.is_empty());
        }
    }
    let answers: Vec<String> = all_filters().into_iter().map(|f| apply_filter(f, "").unwrap()).collect();
    assert_eq!(
        answers,
        vec![
            "ok", "ok", "ok", "ok", "ok", "ok", "ok", "0 passed, 0 failed", "ok", "ok", "ok",
            "0 passed, 0 failed", "ok"
        ]
    );
}

#[test]
fn dart_files_with_more_errors_first_and_texts_alphabetical() {
    let out = "warning - Zeta at lib/c.dart:1:1 - z_rule\n\
warning - Alpha at lib/c.dart:1:1 - a_rule\n\
error - Gamma at lib/d.dart:2:2 - b_rule\n\
error - Beta at lib/d.dart:2:2 - b_rule";
    assert_eq!(
        filter_dart_analyze(out),
        "lib/d.dart:2:2 (2 issues)\n  b_rule: - Beta\n  b_rule: - Gamma\nlib/c.dart:1:1 (2 issues)\n  a_rule: - Alpha\n  z_rule: - Zeta"
    );
}

#[test]
fn dart_repeated_issues_are_counted_once_each() {
    let line = "info - Unused import at lib/u.dart:1:1 - unused_import";
    let out = format!("{}\n{}\n{}\nerror - Bad at lib/u.dart:1:1 - bad", line, line, line);
    assert_eq!(
        filter_dart_analyze(&out),
        "lib/u.dart:1:1 (4 issues)\n  bad: - Bad\n  unused_import: - Unused import (x3)"
    );
}

#[test]
fn flutter_locations_by_errors_then_warnings() {
    let out = "info \u{2022} I1 \u{2022} lib/a.dart:1:1 \u{2022} r1\n\
warning \u{2022} W1 \u{2022} lib/b.dart:2:1 \u{2022} r2\n\
warning \u{2022} W2 \u{2022} lib/c.dart:3:1 \u{2022} r3\n\
warning \u{2022} W3 \u{2022} lib/c.dart:3:2 \u{2022} r3\n\
error \u{2022} E1 \u{2022} lib/d.dart:4:1 \u{2022} r4";
    assert_eq!(
        filter_flutter_analyze(out),
        "lib/d.dart:4 (1 issues)\n  error r4: E1\nlib/c.dart:3 (2 issues)\n  warning r3: W2\n  warning r3: W3\nlib/b.dart:2 (1 issues)\n  warning r2: W1\nlib/a.dart:1 (1 issues)\n  info r1: I1"
    );
}

#[test]
fn flutter_entries_by_severity_with_repeats_counted() {
    let out = "info \u{2022} I \u{2022} lib/m.dart:7:1 \u{2022} ri\n\
warning \u{2022} W \u{2022} lib/m.dart:7:2 \u{2022} rw\n\
error \u{2022} E \u{2022} lib/m.dart:7:3 \u{2022} re\n\
info \u{2022} I \u{2022} lib/m.dart:7:4 \u{2022} ri";
    assert_eq!(
        filter_flutter_analyze(out),
        "lib/m.dart:7 (4 issues)\n  error re: E\n  warning rw: W\n  info ri: I (x2)"
    );
}

#[test]
fn bun_test_lines_count_at_most_once() {
    let mut h = BunTestHandler::new();
    let lines = ["(pass) a", "\u{2713} b", "(skip) c", "context", "(fail) d", "(fail) e", "noise"];
    for line in lines {
        assert!(h.can_count());
        h.is_block_start(line);
    }
    assert_eq!(
        h.format_summary(1, "").unwrap(),
        "2 passed, 2 failed, 1 skipped\n---\ncontext\n(fail) d\n---\n(fail) e"
    );
}

#[test]
fn ansi_removal_leaves_plain_text_alone() {
    assert_eq!(filter_dart_run("\x1b[1;31mError: x\x1b[0m"), "Error: x");
    assert_eq!(filter_dart_run("warn: plain [1m text"), "warn: plain [1m text");
    assert_eq!(filter_dart_run("\x1b[2Kwarn: y"), "warn: y");
}

#[test]
fn flutter_pub_matches_dart_pub() {
    for out in ["", "Changed 1 dependency!", "x has newer versions\nERROR boom\nChanged 3 dependencies!"] {
        assert_eq!(filter_flutter_pub(out), filter_dart_pub(out));
    }
    assert_eq!(
        filter_dart_pub("x has newer versions\nERROR boom\nChanged 3 dependencies!"),
        "ERROR boom\nChanged 3 dependencies!\nx has newer versions"
    );
}

#[test]
fn bun_install_filter_is_idempotent() {
    for out in [
        "",
        "Resolving...\nsaved 3 packages\nWARN deprecated foo\n1 lockfile written",
        "\x1b[32minstalled react@18\x1b[0m\nnoise",
        "nothing to keep",
    ] {
        let once = filter_bun_install(out);
        assert_eq!(filter_bun_install(&once), once);
    }
}

#[test]
fn bun_run_filter_is_idempotent() {
    for out in [
        "$ vite build\nwarning: big chunk\nbuilt in 2s\nerror: oops\nnoise",
        "$ bun build ./src/index.ts",
        " Building...\n done",
        "Starting dev server...",
        "ERROR: x\nWARN: y",
    ] {
        let once = filter_bun_run(out);
        assert_eq!(filter_bun_run(&once), once);
    }
    assert_eq!(filter_bun_run("finished"), "finished");
    assert_eq!(filter_bun_run("ok"), "ok");
}

#[test]
fn flutter_test_progress_lines_change_nothing() {
    let base = "\u{2550}\u{2550}\u{2561} EXCEPTION CAUGHT \u{255e}\u{2550}\nExpected: 1\nAll tests passed!";
    let with_progress = "00:00 +0: loading\n\u{2550}\u{2550}\u{2561} EXCEPTION CAUGHT \u{255e}\u{2550}\n  00:00 +1 -1: a test\nExpected: 1\n\x1b[32m00:00 +2\x1b[0m: done\nAll tests passed!";
    assert_eq!(filter_flutter_test(with_progress), filter_flutter_test(base));
    assert_eq!(
        filter_flutter_test(base),
        "0 passed, 1 failed\n---\n\u{2550}\u{2550}\u{2561} EXCEPTION CAUGHT \u{255e}\u{2550}\nExpected: 1\nAll tests passed!"
    );
}

#[test]
fn bun_test_blocks_started_match_failures() {
    let mut h = BunTestHandler::new();
    let mut started = 0;
    let lines = ["ctx 1", "(fail) a", "   ", "[E] b", "(pass) c", "x \u{2717} d", "(skip) e"];
    for line in lines {
        assert!(h.can_count());
        if h.is_block_start(line) {
            started += 1;
        }
    }
    assert_eq!(started, 3);
    assert!(h.format_summary(1, "").unwrap().starts_with("1 passed, 3 failed, 1 skipped"));
}

#[test]
fn bun_test_handler_calls_of_every_kind() {
    let mut h = BunTestHandler::new();
    let mut started = 0;
    for line in ["x", "(fail) one", "  at f.ts:1", "Tests 1 failed", "", "[E] two"] {
        if h.should_skip(line) {
            continue;
        }
        assert!(h.can_count());
        if h.is_block_start(line) {
            started += 1;
        } else {
            h.is_block_continuation(line, &[]);
        }
        h.format_summary(0, "");
    }
    assert_eq!(started, 2);
    assert_eq!(
        h.format_summary(1, "").unwrap(),
        "0 passed, 2 failed, 0 skipped\n---\nx\n(fail) one\n---\n  at f.ts:1\n[E] two"
    );
}
