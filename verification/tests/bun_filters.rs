use rtk::bun::{
    filter_bun_build, filter_bun_create, filter_bun_install, filter_bun_pm, filter_bun_run,
    run_bun_add, run_bun_install, run_bun_test, run_bunx, BunTestHandler, BunxRoute,
};
use rtk::plan::{OutputFilter, OutputMode};

#[test]
fn test_filter_bun_install_empty() {
    assert_eq!(filter_bun_install(""), "ok");
}

#[test]
fn test_filter_bun_install_keeps_summary() {
    let out = "Installing dependencies...\n+ pkg@1.0.0\nsaved 3 packages";
    let res = filter_bun_install(out);
    assert!(res.contains("saved"));
    assert!(!res.contains("Installing"));
}

#[test]
fn test_filter_bun_build_keeps_errors() {
    let out = "Bundling...\nerror: Could not resolve \"missing\"\nBuild failed";
    let res = filter_bun_build(out);
    assert!(res.contains("error"));
}

#[test]
fn test_filter_bun_run_keeps_errors() {
    let out = "Starting dev server...\nWARN: something\nError: failed";
    let res = filter_bun_run(out);
    assert!(res.contains("Error"));
    assert!(!res.contains("Starting"));
}

#[test]
fn test_filter_bun_run_finished() {
    let out = "$ bun run --cwd packages/opencode-plugin build\n$ bun build ./src/index.ts --outdir ./dist --target bun";
    assert_eq!(filter_bun_run(out), "finished");
}

#[test]
fn test_filter_bun_run_done_output() {
    let out = " Building...\n done";
    assert_eq!(filter_bun_run(out), "finished");
}

#[test]
fn install_strips_ansi_and_keeps_order() {
    let out = "\x1b[32msaved 3 packages\x1b[0m\r\nresolving\nWARN deprecated foo\n\n  \n1 lockfile written";
    assert_eq!(
        filter_bun_install(out),
        "saved 3 packages\nWARN deprecated foo\n1 lockfile written"
    );
}

#[test]
fn install_lowercase_match_finds_error() {
    assert_eq!(filter_bun_install("ERROR: boom\nnoise"), "ERROR: boom");
}

#[test]
fn pm_keeps_package_lines() {
    let out = "bun pm ls\n/app node_modules (3)\n├── react@18.2.0\npackage: react\nhash: abc";
    assert_eq!(filter_bun_pm(out), "package: react\nhash: abc");
    assert_eq!(filter_bun_pm("nothing here"), "ok");
}

#[test]
fn create_keeps_next_steps() {
    let out = "Creating...\nCreated my-app\ncd my-app\nbun dev\nscaffolding done\nrandom";
    assert_eq!(filter_bun_create(out), "cd my-app\nbun dev\nscaffolding done");
}

#[test]
fn run_orders_echoes_status_errors_warnings() {
    let out = "$ vite build\nwarning: big chunk\nbuilt in 2s\nerror: oops\nnoise";
    assert_eq!(
        filter_bun_run(out),
        "$ vite build\nbuilt in 2s\n---\nerror: oops\n---\nwarning: big chunk"
    );
}

#[test]
fn run_without_anything_is_ok() {
    assert_eq!(filter_bun_run("hello\nworld"), "ok");
    assert_eq!(filter_bun_run(""), "ok");
}

#[test]
fn build_keeps_bundle_sizes() {
    let out = "[12ms] bundle 3 modules\n  index.js  1.20 KB\nnoise\nerror: bad";
    assert_eq!(filter_bun_build(out), "  index.js  1.20 KB\n---\nerror: bad");
}

#[test]
fn build_keeps_status_words() {
    assert_eq!(filter_bun_build("Build succeeded\nfoo"), "Build succeeded");
    assert_eq!(filter_bun_build("nothing"), "ok");
}

#[test]
fn bun_test_handler_counts_and_reports() {
    let mut h = BunTestHandler::new();
    assert!(h.should_skip("   "));
    assert!(h.should_skip("Tests 3 passed"));
    assert!(!h.should_skip("(pass) a"));
    assert!(!h.is_block_start("(pass) a > works"));
    assert!(!h.is_block_start("expected 1 to be 2"));
    assert!(h.is_block_start("\x1b[31m(fail) a > breaks\x1b[0m"));
    assert!(!h.is_block_start("(skip) a > later"));
    assert!(h.is_block_continuation("  at foo.ts:1", &[]));
    assert!(!h.is_block_continuation("next", &[]));
    assert_eq!(
        h.format_summary(1, "").unwrap(),
        "1 passed, 1 failed, 1 skipped\n---\nexpected 1 to be 2\n(fail) a > breaks"
    );
}

#[test]
fn bun_test_handler_empty_summary() {
    let h = BunTestHandler::new();
    assert_eq!(h.format_summary(0, "").unwrap(), "bun test: no output");
}

#[test]
fn bun_test_handler_keeps_last_six_context_lines() {
    let mut h = BunTestHandler::new();
    for i in 0..15 {
        assert!(!h.is_block_start(&format!("line {}", i)));
    }
    assert!(h.is_block_start("[E] broken"));
    assert_eq!(
        h.format_summary(1, "").unwrap(),
        "0 passed, 1 failed, 0 skipped\n---\nline 9\nline 10\nline 11\nline 12\nline 13\nline 14\n[E] broken"
    );
}

#[test]
fn plans_for_install_family() {
    let args = vec!["--frozen-lockfile".to_string(), "-g".to_string()];
    let p = run_bun_install(&args, 1);
    assert_eq!(p.program, "bun");
    assert_eq!(p.args, vec!["install", "--frozen-lockfile", "-g"]);
    assert_eq!(p.label, "bun install");
    assert_eq!(p.args_display, "--frozen-lockfile -g");
    assert!(matches!(p.mode, OutputMode::Filtered(OutputFilter::BunInstall)));
    assert!(p.tee.is_none());
    assert_eq!(p.announce.as_deref(), Some("Running: bun install --frozen-lockfile -g"));
    let q = run_bun_add(&[], 0);
    assert_eq!(q.args, vec!["add"]);
    assert!(q.announce.is_none());
    assert!(matches!(q.mode, OutputMode::Filtered(OutputFilter::BunInstall)));
}

#[test]
fn plan_for_bun_test_streams_and_tees() {
    let p = run_bun_test(&[], 2);
    assert!(matches!(p.mode, OutputMode::BunTestStream));
    assert_eq!(p.tee.as_deref(), Some("bun test"));
    assert_eq!(p.announce.as_deref(), Some("Running: bun test "));
}

#[test]
fn bunx_routes() {
    let args = vec!["tsc".to_string(), "--noEmit".to_string()];
    match run_bunx(&args, 0) {
        BunxRoute::Tsc(rest) => assert_eq!(rest, vec!["--noEmit"]),
        _ => panic!("expected tsc"),
    }
    let args = vec!["jest".to_string()];
    assert!(matches!(run_bunx(&args, 0), BunxRoute::Vitest(ref r) if r.is_empty()));
    let args = vec!["prisma".to_string(), "generate".to_string()];
    match run_bunx(&args, 1) {
        BunxRoute::Passthrough { args, announce } => {
            assert_eq!(args, vec!["prisma", "generate"]);
            assert_eq!(announce.as_deref(), Some("Running: bunx prisma generate"));
        }
        _ => panic!("expected passthrough"),
    }
}
