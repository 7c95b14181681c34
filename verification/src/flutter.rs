//! Filters for the output of the Flutter SDK's commands (pub, analyze, test, build).
use vstd::prelude::*;
use crate::dart::{last_only, pub_output, summarize_pub, trimmed_lines};
use crate::pattern::{pattern_captures, regex_captures};
use crate::plan::{make_plan, plans, CommandPlan, OutputFilter, OutputMode};
use crate::select::{lemma_select_from, lemma_ok_or_join_has, lemma_select_index, content_lines, content_of, extend_lines, lemma_select_step, lemma_take_all, line_of, ok_or_join, ok_or_join_string, push_line, push_section, push_separated, section, select, with_separators};
use crate::sort::{key_order, key_views, lemma_key_order, sort_positions, LeastFirst, MostFirstPair};
use crate::tally::{lemma_tally_from, tally, tally_from};
use crate::text::{lemma_join_prefix, chars_of, append_chars, append_str, begins, chars_eq, contains, decimal, decimal_chars, has, join, join_chars, lemma_deep_index, lowered, lowercase_chars, starts_with, string_of, trim_chars};

verus! {

broadcast use vstd::string::group_string_axioms;

/// Run `flutter pub`.
///
/// The plan for running it: `flutter pub <args>`, recorded as `flutter pub`.
pub fn run_flutter_pub(args: &[String], verbose: u8) -> (p: CommandPlan)
    ensures
        plans(p, "flutter"@, "pub"@, args.deep_view(), "flutter pub"@, OutputMode::Filtered(OutputFilter::FlutterPub), false, verbose),
{
    make_plan("flutter", "pub", args, "flutter pub", OutputMode::Filtered(OutputFilter::FlutterPub), false, verbose)
}

/// Run `flutter analyze`.
///
/// The plan for running it: `flutter analyze <args>`, recorded as `flutter analyze`.
pub fn run_flutter_analyze(args: &[String], verbose: u8) -> (p: CommandPlan)
    ensures
        plans(p, "flutter"@, "analyze"@, args.deep_view(), "flutter analyze"@, OutputMode::Filtered(OutputFilter::FlutterAnalyze), false, verbose),
{
    make_plan("flutter", "analyze", args, "flutter analyze", OutputMode::Filtered(OutputFilter::FlutterAnalyze), false, verbose)
}

/// Run `flutter test`.
///
/// The plan for running it: `flutter test <args>`, recorded as `flutter test`.
pub fn run_flutter_test(args: &[String], verbose: u8) -> (p: CommandPlan)
    ensures
        plans(p, "flutter"@, "test"@, args.deep_view(), "flutter test"@, OutputMode::Filtered(OutputFilter::FlutterTest), false, verbose),
{
    make_plan("flutter", "test", args, "flutter test", OutputMode::Filtered(OutputFilter::FlutterTest), false, verbose)
}

/// Run `flutter build`.
///
/// The plan for running it: `flutter build <args>`, recorded as `flutter build`.
pub fn run_flutter_build(args: &[String], verbose: u8) -> (p: CommandPlan)
    ensures
        plans(p, "flutter"@, "build"@, args.deep_view(), "flutter build"@, OutputMode::Filtered(OutputFilter::FlutterBuild), false, verbose),
{
    make_plan("flutter", "build", args, "flutter build", OutputMode::Filtered(OutputFilter::FlutterBuild), false, verbose)
}

/// Keeps the errors, warnings, dependency-change summary and outdated-version
/// notes of `flutter pub` output (the same format as `dart pub`).
pub fn filter_flutter_pub(output: &str) -> (r: String)
    ensures
        r@ == pub_output(output@),
{
    summarize_pub(output)
}

/// How `flutter build` treats a trimmed output line.
pub enum FlutterBuildLine {
    /// A line mentioning an error.
    Error,
    /// A status or artifact-size line that stays.
    Kept,
    /// Build noise.
    Dropped,
}

/// The class of a trimmed `flutter build` line, given its lowercase form.
pub open spec fn flutter_build_line_class(t: Seq<char>, lower: Seq<char>) -> FlutterBuildLine {
    if contains(lower, "error"@) {
        FlutterBuildLine::Error
    } else if contains(lower, "built"@) || contains(lower, "success"@) || contains(lower, "fail"@)
        || contains(lower, "installing"@) || contains(lower, "compiling"@) || contains(t, "MB"@)
        || contains(t, "KB"@) {
        FlutterBuildLine::Kept
    } else {
        FlutterBuildLine::Dropped
    }
}

/// The class of a trimmed `flutter build` line.
pub open spec fn flutter_build_class(t: Seq<char>) -> FlutterBuildLine {
    flutter_build_line_class(t, lowered(t))
}

/// The output of `flutter build` after filtering: status and size lines, then
/// the errors after a `---` line, or `"ok"`; lines are trimmed.
pub open spec fn flutter_build_output(s: Seq<char>) -> Seq<char> {
    let ts = trimmed_lines(s);
    ok_or_join(
        select(ts, |t: Seq<char>| flutter_build_class(t) == FlutterBuildLine::Kept) + section(
            select(ts, |t: Seq<char>| flutter_build_class(t) == FlutterBuildLine::Error),
        ),
    )
}

/// The class of the trimmed `flutter build` line `t` whose lowercase form is `lower`.
pub fn flutter_build_line_kind(t: &Vec<char>, lower: &Vec<char>) -> (r: FlutterBuildLine)
    ensures
        r == flutter_build_line_class(t@, lower@),
{
    if has(lower, "error") {
        FlutterBuildLine::Error
    } else if has(lower, "built") || has(lower, "success") || has(lower, "fail") || has(
        lower,
        "installing",
    ) || has(lower, "compiling") || has(t, "MB") || has(t, "KB") {
        FlutterBuildLine::Kept
    } else {
        FlutterBuildLine::Dropped
    }
}

/// Keeps the status, size and error lines of `flutter build` output.
pub fn filter_flutter_build(output: &str) -> (r: String)
    ensures
        r@ == flutter_build_output(output@),
{
    let content = content_of(output);
    let ghost ts = trimmed_lines(output@);
    let ghost p_kept = |t: Seq<char>| flutter_build_class(t) == FlutterBuildLine::Kept;
    let ghost p_error = |t: Seq<char>| flutter_build_class(t) == FlutterBuildLine::Error;
    proof {
        lemma_deep_index(content);
    }
    let mut kept: Vec<Vec<char>> = Vec::new();
    let mut errors: Vec<Vec<char>> = Vec::new();
    for i in 0..content.len()
        invariant
            ts == trimmed_lines(output@),
            ts.len() == content@.len(),
            content.deep_view() == content_lines(output@),
            content.deep_view().len() == content@.len(),
            forall|k: int| 0 <= k < content@.len() ==> #[trigger] content.deep_view()[k] == content@[k]@,
            p_kept == (|t: Seq<char>| flutter_build_class(t) == FlutterBuildLine::Kept),
            p_error == (|t: Seq<char>| flutter_build_class(t) == FlutterBuildLine::Error),
            kept.deep_view() == select(ts.take(i as int), p_kept),
            errors.deep_view() == select(ts.take(i as int), p_error),
    {
        proof {
            lemma_select_step(ts, p_kept, i as int);
            lemma_select_step(ts, p_error, i as int);
        }
        let t = trim_chars(&content[i]);
        assert(ts[i as int] == t@);
        let lower = lowercase_chars(&t);
        match flutter_build_line_kind(&t, &lower) {
            FlutterBuildLine::Error => push_line(&mut errors, t),
            FlutterBuildLine::Kept => push_line(&mut kept, t),
            FlutterBuildLine::Dropped => {},
        }
    }
    proof {
        lemma_take_all(ts);
    }
    push_section(&mut kept, errors);
    ok_or_join_string(&kept)
}

/// Every trimmed line of `flutter build` output that mentions an error, a
/// built artifact, success, a failure, installing or compiling in any letter
/// case, or gives a size in `MB` or `KB`, shows in the filtered output.
pub proof fn law_flutter_build_shows(s: Seq<char>, k: int)
    requires
        0 <= k < trimmed_lines(s).len(),
        ({
            let line = trimmed_lines(s)[k];
            ||| contains(lowered(line), "error"@)
            ||| contains(lowered(line), "built"@)
            ||| contains(lowered(line), "success"@)
            ||| contains(lowered(line), "fail"@)
            ||| contains(lowered(line), "installing"@)
            ||| contains(lowered(line), "compiling"@)
            ||| contains(line, "MB"@)
            ||| contains(line, "KB"@)
        }),
    ensures
        contains(flutter_build_output(s), trimmed_lines(s)[k]),
{
    let ts = trimmed_lines(s);
    let kept = select(ts, |t: Seq<char>| flutter_build_class(t) == FlutterBuildLine::Kept);
    let errors = select(ts, |t: Seq<char>| flutter_build_class(t) == FlutterBuildLine::Error);
    let l = kept + section(errors);
    if flutter_build_class(ts[k]) == FlutterBuildLine::Kept {
        let j = lemma_select_index(ts, |t: Seq<char>| flutter_build_class(t) == FlutterBuildLine::Kept, k);
        assert(l[j] == ts[k]);
        lemma_ok_or_join_has(l, j);
    } else {
        let j = lemma_select_index(ts, |t: Seq<char>| flutter_build_class(t) == FlutterBuildLine::Error, k);
        assert(section(errors)[j + 1] == ts[k]);
        assert(l[kept.len() + j + 1] == ts[k]);
        lemma_ok_or_join_has(l, kept.len() + j + 1);
    }
}

/// The `flutter build` output shows only trimmed lines of the input that
/// mention no error and tell of a built artifact, success, a failure,
/// installing, compiling or a size in `MB`/`KB`, then the error lines after a
/// `---` line; or it says `"ok"`.
pub proof fn law_flutter_build_only(s: Seq<char>)
    ensures
        exists|kept: Seq<Seq<char>>, errors: Seq<Seq<char>>|
            #[trigger] ok_or_join(kept + section(errors)) == flutter_build_output(s) && (forall|j: int|
                0 <= j < kept.len() ==> trimmed_lines(s).contains(#[trigger] kept[j]) && !contains(
                    lowered(kept[j]),
                    "error"@,
                ) && {
                    let line = kept[j];
                    ||| contains(lowered(line), "built"@)
                    ||| contains(lowered(line), "success"@)
                    ||| contains(lowered(line), "fail"@)
                    ||| contains(lowered(line), "installing"@)
                    ||| contains(lowered(line), "compiling"@)
                    ||| contains(line, "MB"@)
                    ||| contains(line, "KB"@)
                }) && (forall|j: int|
                0 <= j < errors.len() ==> trimmed_lines(s).contains(#[trigger] errors[j]) && contains(
                    lowered(errors[j]),
                    "error"@,
                )),
{
    let ts = trimmed_lines(s);
    let kept = select(ts, |t: Seq<char>| flutter_build_class(t) == FlutterBuildLine::Kept);
    let errors = select(ts, |t: Seq<char>| flutter_build_class(t) == FlutterBuildLine::Error);
    lemma_select_from(ts, |t: Seq<char>| flutter_build_class(t) == FlutterBuildLine::Kept);
    lemma_select_from(ts, |t: Seq<char>| flutter_build_class(t) == FlutterBuildLine::Error);
    assert(ok_or_join(kept + section(errors)) == flutter_build_output(s));
}

/// State of the `flutter test` filter while it reads lines.
pub struct FlutterTestState {
    pub passed: nat,
    pub failed: nat,
    /// Finished failure reports.
    pub failures: Seq<Seq<char>>,
    /// Lines of the exception being read.
    pub current: Seq<Seq<char>>,
    pub in_exception: bool,
}

/// The state before any line.
pub open spec fn flutter_test_start() -> FlutterTestState {
    FlutterTestState {
        passed: 0,
        failed: 0,
        failures: Seq::empty(),
        current: Seq::empty(),
        in_exception: false,
    }
}

/// A line that starts a failure: an `[E]` marker, an exception banner, or `Test failed.`.
pub open spec fn starts_failure(t: Seq<char>) -> bool {
    contains(t, "[E]"@) || starts_with(t, "\u{2550}\u{2550}\u{2561} EXCEPTION"@) || contains(t, "Test failed."@)
}

/// The state after the trimmed line `t`.
pub open spec fn flutter_test_step(st: FlutterTestState, t: Seq<char>) -> FlutterTestState {
    if starts_with(t, "00:00 +"@) {
        st
    } else if starts_failure(t) {
        FlutterTestState {
            failed: st.failed + 1,
            failures: if st.current.len() > 0 {
                st.failures.push(join(st.current, "\n"@))
            } else {
                st.failures
            },
            current: seq![t],
            in_exception: true,
            ..st
        }
    } else if st.in_exception {
        if starts_with(t, "\u{2550}\u{2550}\u{2550}\u{2550}\u{2550}\u{2550}\u{2550}\u{2550}\u{2550}\u{2550}\u{2550}\u{2550}\u{2550}\u{2550}\u{2550}\u{2550}\u{2550}"@) {
            FlutterTestState {
                failures: st.failures.push(join(st.current, "\n"@)),
                current: Seq::empty(),
                in_exception: false,
                ..st
            }
        } else {
            FlutterTestState { current: st.current.push(t), ..st }
        }
    } else if starts_with(t, "Failing tests:"@) {
        FlutterTestState { failures: st.failures.push(t), ..st }
    } else if starts_with(t, " /home/"@) || starts_with(t, " /Users/"@) || (starts_with(t, " /"@)
        && contains(t, "test"@)) {
        FlutterTestState { failures: st.failures.push(" -"@ + t), ..st }
    } else if contains(t, "All tests passed!"@) {
        FlutterTestState { passed: st.passed + 1, ..st }
    } else {
        st
    }
}

/// The state after all the trimmed lines `ts`.
pub open spec fn flutter_test_fold(ts: Seq<Seq<char>>) -> FlutterTestState
    decreases ts.len(),
{
    if ts.len() == 0 {
        flutter_test_start()
    } else {
        flutter_test_step(flutter_test_fold(ts.drop_last()), ts.last())
    }
}

/// A trimmed `flutter test` line that reports a failure: not a `00:00 +`
/// progress line, and holding `[E]` or `Test failed.` or starting with an
/// exception banner.
pub open spec fn failure_line(line: Seq<char>) -> bool {
    &&& !starts_with(line, "00:00 +"@)
    &&& contains(line, "[E]"@) || starts_with(line, "\u{2550}\u{2550}\u{2561} EXCEPTION"@) || contains(line, "Test failed."@)
}

/// A failure line counts one failure and opens a report that holds just that
/// line; the report being read before it is kept, and the pass count stays.
pub proof fn law_failure_line_step(st: FlutterTestState, t: Seq<char>)
    requires
        failure_line(t),
    ensures
        ({
            let next = flutter_test_step(st, t);
            &&& next.failed == st.failed + 1
            &&& next.passed == st.passed
            &&& next.current == seq![t]
            &&& next.failures == if st.current.len() > 0 {
                st.failures.push(join(st.current, "\n"@))
            } else {
                st.failures
            }
        }),
{
}

/// Outside an exception block, a line saying `All tests passed!` that is no
/// failure line, progress line, failing-test list or test path counts one pass.
pub proof fn law_flutter_pass_line(st: FlutterTestState, line: Seq<char>)
    requires
        contains(line, "All tests passed!"@),
        !failure_line(line),
        !starts_with(line, "00:00 +"@),
        !st.in_exception,
        !starts_with(line, "Failing tests:"@),
        !starts_with(line, " /"@),
    ensures
        flutter_test_step(st, line) == (FlutterTestState { passed: st.passed + 1, ..st }),
{
    reveal_strlit(" /");
    reveal_strlit(" /home/");
    reveal_strlit(" /Users/");
    assert(!starts_with(line, " /home/"@)) by {
        if starts_with(line, " /home/"@) {
            assert(line.take(2) =~= " /"@);
        }
    }
    assert(!starts_with(line, " /Users/"@)) by {
        if starts_with(line, " /Users/"@) {
            assert(line.take(2) =~= " /"@);
        }
    }
}

/// The failure count is the number of failure lines.
pub proof fn law_flutter_failed_count(ts: Seq<Seq<char>>)
    ensures
        flutter_test_fold(ts).failed == select(ts, |t: Seq<char>| failure_line(t)).len(),
    decreases ts.len(),
{
    if ts.len() > 0 {
        law_flutter_failed_count(ts.drop_last());
    }
}

/// The `flutter test` summary starts with the pass count and the number of
/// failure lines: `P passed, F failed`.
pub proof fn law_flutter_test_counts(s: Seq<char>)
    ensures
        starts_with(
            flutter_test_output(s),
            decimal(flutter_test_fold(trimmed_lines(s)).passed) + " passed, "@ + decimal(
                select(trimmed_lines(s), |t: Seq<char>| failure_line(t)).len(),
            ) + " failed"@,
        ),
{
    let ts = trimmed_lines(s);
    law_flutter_failed_count(ts);
    let st = flutter_test_fold(ts);
    let head = decimal(st.passed) + " passed, "@ + decimal(st.failed) + " failed"@;
    let l = seq![head] + with_separators(flutter_test_reports(st));
    lemma_join_prefix(l, "\n"@);
    assert(l[0] == head);
}

/// A `flutter test` progress line (`00:00 +N ...`).
pub open spec fn is_progress(t: Seq<char>) -> bool {
    starts_with(t, "00:00 +"@)
}

/// The state after some lines is the state after those of them that are not
/// progress lines.
proof fn lemma_fold_skips_progress(ts: Seq<Seq<char>>)
    ensures
        flutter_test_fold(ts) == flutter_test_fold(select(ts, |t: Seq<char>| !is_progress(t))),
    decreases ts.len(),
{
    if ts.len() > 0 {
        let keep = |t: Seq<char>| !is_progress(t);
        let p = ts.drop_last();
        lemma_fold_skips_progress(p);
        if keep(ts.last()) {
            let q = select(p, keep).push(ts.last());
            assert(q.drop_last() =~= select(p, keep));
            assert(q.last() == ts.last());
        }
    }
}

/// Progress lines leave the `flutter test` summary unchanged: two outputs
/// whose trimmed lines agree once the progress lines are taken out are
/// summarised alike.
pub proof fn law_flutter_test_ignores_progress(s1: Seq<char>, s2: Seq<char>)
    requires
        select(trimmed_lines(s1), |t: Seq<char>| !is_progress(t)) == select(
            trimmed_lines(s2),
            |t: Seq<char>| !is_progress(t),
        ),
    ensures
        flutter_test_output(s1) == flutter_test_output(s2),
{
    lemma_fold_skips_progress(trimmed_lines(s1));
    lemma_fold_skips_progress(trimmed_lines(s2));
}

/// The failure reports at the end: an exception still being read counts too.
pub open spec fn flutter_test_reports(st: FlutterTestState) -> Seq<Seq<char>> {
    if st.current.len() > 0 {
        st.failures.push(join(st.current, "\n"@))
    } else {
        st.failures
    }
}

/// The output of `flutter test` after filtering: `P passed, F failed`, then
/// each failure report after a `---` line.
pub open spec fn flutter_test_output(s: Seq<char>) -> Seq<char> {
    let st = flutter_test_fold(trimmed_lines(s));
    join(
        seq![decimal(st.passed) + " passed, "@ + decimal(st.failed) + " failed"@] + with_separators(
            flutter_test_reports(st),
        ),
        "\n"@,
    )
}

/// Counts the tests of `flutter test` output and keeps the failure reports:
/// exception blocks, `[E]` lines and the failing-test list.
pub fn filter_flutter_test(output: &str) -> (r: String)
    ensures
        r@ == flutter_test_output(output@),
{
    let content = content_of(output);
    let ghost ts = trimmed_lines(output@);
    proof {
        lemma_deep_index(content);
    }
    let mut passed: usize = 0;
    let mut failed: usize = 0;
    let mut failures: Vec<Vec<char>> = Vec::new();
    let mut current: Vec<Vec<char>> = Vec::new();
    let mut in_exception = false;
    for i in 0..content.len()
        invariant
            ts == trimmed_lines(output@),
            ts.len() == content@.len(),
            content.deep_view() == content_lines(output@),
            content.deep_view().len() == content@.len(),
            forall|k: int| 0 <= k < content@.len() ==> #[trigger] content.deep_view()[k] == content@[k]@,
            failures.deep_view() == flutter_test_fold(ts.take(i as int)).failures,
            current.deep_view() == flutter_test_fold(ts.take(i as int)).current,
            in_exception == flutter_test_fold(ts.take(i as int)).in_exception,
            passed as nat == flutter_test_fold(ts.take(i as int)).passed,
            failed as nat == flutter_test_fold(ts.take(i as int)).failed,
            passed <= i,
            failed <= i,
    {
        proof {
            assert(ts.take(i + 1).drop_last() =~= ts.take(i as int));
        }
        let t = trim_chars(&content[i]);
        assert(ts.take(i + 1).last() == t@);
        if begins(&t, "00:00 +") {
        } else if has(&t, "[E]") || begins(&t, "\u{2550}\u{2550}\u{2561} EXCEPTION") || has(&t, "Test failed.") {
            if current.len() > 0 {
                let report = join_chars(&current, "\n");
                push_line(&mut failures, report);
            }
            current = Vec::new();
            assert(current.deep_view() =~= Seq::<Seq<char>>::empty());
            push_line(&mut current, t);
            in_exception = true;
            failed = failed + 1;
        } else if in_exception {
            if begins(&t, "\u{2550}\u{2550}\u{2550}\u{2550}\u{2550}\u{2550}\u{2550}\u{2550}\u{2550}\u{2550}\u{2550}\u{2550}\u{2550}\u{2550}\u{2550}\u{2550}\u{2550}") {
                let report = join_chars(&current, "\n");
                push_line(&mut failures, report);
                current = Vec::new();
                assert(current.deep_view() =~= Seq::<Seq<char>>::empty());
                in_exception = false;
            } else {
                push_line(&mut current, t);
            }
        } else if begins(&t, "Failing tests:") {
            push_line(&mut failures, t);
        } else if begins(&t, " /home/") || begins(&t, " /Users/") || (begins(&t, " /") && has(&t, "test")) {
            let mut l = line_of(" -");
            append_chars(&mut l, &t);
            push_line(&mut failures, l);
        } else if has(&t, "All tests passed!") {
            passed = passed + 1;
        }
    }
    assert(ts.take(content.len() as int) =~= ts);
    if current.len() > 0 {
        let report = join_chars(&current, "\n");
        push_line(&mut failures, report);
    }
    let mut head = decimal_chars(passed);
    append_str(&mut head, " passed, ");
    append_chars(&mut head, &decimal_chars(failed));
    append_str(&mut head, " failed");
    let mut lines: Vec<Vec<char>> = Vec::new();
    let ghost hv = head@;
    push_line(&mut lines, head);
    push_separated(&mut lines, &failures);
    assert(lines.deep_view() =~= seq![hv] + with_separators(failures.deep_view()));
    let v = join_chars(&lines, "\n");
    string_of(&v)
}

/// The regular expression for a `flutter analyze` issue line:
/// `severity • message • path:line:col • rule`.
pub const ISSUE_PATTERN: &'static str =
    "^(info|warning|error)\\s+\u{2022}\\s+(.+?)\\s+\u{2022}\\s+(.+?):(\\d+):(\\d+)\\s+\u{2022}\\s+(.+)$";

/// Severity of an analyzer issue.
#[derive(Clone, Copy, PartialEq, Eq, Structural)]
pub enum Sev {
    Error,
    Warning,
    Info,
}

/// The severity a `flutter analyze` severity word names.
pub open spec fn severity_of(w: Seq<char>) -> Sev {
    if w == "error"@ {
        Sev::Error
    } else if w == "warning"@ {
        Sev::Warning
    } else {
        Sev::Info
    }
}

/// Sort rank of a severity: errors first, then warnings, then infos.
pub open spec fn rank(s: Sev) -> nat {
    match s {
        Sev::Error => 0,
        Sev::Warning => 1,
        Sev::Info => 2,
    }
}

/// The word for a severity.
pub open spec fn label(s: Sev) -> Seq<char> {
    match s {
        Sev::Error => "error"@,
        Sev::Warning => "warning"@,
        Sev::Info => "info"@,
    }
}

/// A severity word names the severity shown by that same word.
pub proof fn law_severity_label(w: Seq<char>)
    requires
        w == "error"@ || w == "warning"@ || w == "info"@,
    ensures
        label(severity_of(w)) == w,
{
    reveal_strlit("error");
    reveal_strlit("warning");
    reveal_strlit("info");
}

/// One issue reported by `flutter analyze`.
pub struct FlutterIssue {
    /// `path:line`.
    pub file: Seq<char>,
    pub sev: Sev,
    pub rule: Seq<char>,
    pub message: Seq<char>,
}

/// The issue the capture groups of `ISSUE_PATTERN` describe: severity from
/// group 1, message from group 2, `path:line` from groups 3 and 4, rule from
/// group 6.
pub open spec fn issue_from_groups(g: Seq<Option<Seq<char>>>) -> Option<FlutterIssue> {
    if g.len() > 6 && g[1] is Some && g[2] is Some && g[3] is Some && g[4] is Some && g[6] is Some {
        Some(
            FlutterIssue {
                file: g[3]->0 + ":"@ + g[4]->0,
                sev: severity_of(g[1]->0),
                rule: g[6]->0,
                message: g[2]->0,
            },
        )
    } else {
        None
    }
}

/// The issue on a trimmed `flutter analyze` line, if it matches `ISSUE_PATTERN`.
pub open spec fn flutter_issue(t: Seq<char>) -> Option<FlutterIssue> {
    match regex_captures(ISSUE_PATTERN@, t) {
        Some(g) => issue_from_groups(g),
        None => None,
    }
}

/// A `flutter analyze` line giving the issue count.
pub open spec fn is_flutter_summary(t: Seq<char>) -> bool {
    contains(t, "issues found"@)
}

/// The issues on the trimmed lines `ts`, in order (the count line holds none).
pub open spec fn flutter_issues(ts: Seq<Seq<char>>) -> Seq<FlutterIssue>
    decreases ts.len(),
{
    if ts.len() == 0 {
        Seq::empty()
    } else {
        let r = flutter_issues(ts.drop_last());
        let t = ts.last();
        if is_flutter_summary(t) {
            r
        } else {
            match flutter_issue(t) {
                Some(x) => r.push(x),
                None => r,
            }
        }
    }
}

/// An issue of a file: severity, rule, message.
pub type Entry = (Sev, Seq<char>, Seq<char>);

/// The issues of one `path:line` location.
pub struct FlutterFile {
    pub file: Seq<char>,
    pub entries: Seq<Entry>,
    pub errors: nat,
    pub warnings: nat,
}

/// Index of the first group at or after `i` for `file`.
pub open spec fn flutter_group_from(groups: Seq<FlutterFile>, file: Seq<char>, i: int) -> Option<int>
    decreases groups.len() - i,
{
    if i < 0 || i >= groups.len() {
        None
    } else if groups[i].file == file {
        Some(i)
    } else {
        flutter_group_from(groups, file, i + 1)
    }
}

/// 1 when `c` holds, else 0.
pub open spec fn one_if(c: bool) -> nat {
    if c {
        1
    } else {
        0
    }
}

/// The groups with one more issue: added to its location's group, or to a new
/// group at the end.
pub open spec fn add_flutter_issue(groups: Seq<FlutterFile>, x: FlutterIssue) -> Seq<FlutterFile> {
    let e: Entry = (x.sev, x.rule, x.message);
    match flutter_group_from(groups, x.file, 0) {
        Some(i) => groups.update(
            i,
            FlutterFile {
                file: x.file,
                entries: groups[i].entries.push(e),
                errors: groups[i].errors + one_if(x.sev == Sev::Error),
                warnings: groups[i].warnings + one_if(x.sev == Sev::Warning),
            },
        ),
        None => groups.push(
            FlutterFile {
                file: x.file,
                entries: seq![e],
                errors: one_if(x.sev == Sev::Error),
                warnings: one_if(x.sev == Sev::Warning),
            },
        ),
    }
}

/// The issues grouped by location, in order of first appearance.
pub open spec fn flutter_groups(issues: Seq<FlutterIssue>) -> Seq<FlutterFile>
    decreases issues.len(),
{
    if issues.len() == 0 {
        Seq::empty()
    } else {
        add_flutter_issue(flutter_groups(issues.drop_last()), issues.last())
    }
}

/// The entries of the issues at `file`, in order.
pub open spec fn entries_in(issues: Seq<FlutterIssue>, file: Seq<char>) -> Seq<Entry>
    decreases issues.len(),
{
    if issues.len() == 0 {
        Seq::empty()
    } else {
        let r = entries_in(issues.drop_last(), file);
        let x = issues.last();
        if x.file == file {
            r.push((x.sev, x.rule, x.message))
        } else {
            r
        }
    }
}

/// The number of issues at `file` with severity `sev`.
pub open spec fn severity_count(issues: Seq<FlutterIssue>, file: Seq<char>, sev: Sev) -> nat
    decreases issues.len(),
{
    if issues.len() == 0 {
        0
    } else {
        severity_count(issues.drop_last(), file, sev) + one_if(
            issues.last().file == file && issues.last().sev == sev,
        )
    }
}

/// No location has two groups.
pub open spec fn distinct_locations(groups: Seq<FlutterFile>) -> bool {
    forall|i: int, j: int| 0 <= i < j < groups.len() ==> (#[trigger] groups[i]).file != (#[trigger] groups[j]).file
}

/// A location none of the issues is at has no entries and no counts.
proof fn lemma_location_without_issues(issues: Seq<FlutterIssue>, file: Seq<char>)
    requires
        forall|k: int| 0 <= k < issues.len() ==> (#[trigger] issues[k]).file != file,
    ensures
        entries_in(issues, file) == Seq::<Entry>::empty(),
        severity_count(issues, file, Sev::Error) == 0,
        severity_count(issues, file, Sev::Warning) == 0,
    decreases issues.len(),
{
    if issues.len() > 0 {
        let p = issues.drop_last();
        assert forall|k: int| 0 <= k < p.len() implies (#[trigger] p[k]).file != file by {
            assert(p[k] == issues[k]);
        }
        lemma_location_without_issues(p, file);
        assert(issues[issues.len() - 1].file != file);
    }
}

/// Grouping `flutter analyze` issues by location is a partition: one group
/// per location that has issues, holding that location's entries in order
/// and the numbers of its errors and warnings.
pub proof fn law_flutter_groups(issues: Seq<FlutterIssue>)
    ensures
        distinct_locations(flutter_groups(issues)),
        forall|g: int|
            0 <= g < flutter_groups(issues).len() ==> {
                let grp = #[trigger] flutter_groups(issues)[g];
                &&& grp.entries == entries_in(issues, grp.file)
                &&& grp.errors == severity_count(issues, grp.file, Sev::Error)
                &&& grp.warnings == severity_count(issues, grp.file, Sev::Warning)
            },
        forall|k: int|
            #![trigger issues[k]]
            0 <= k < issues.len() ==> exists|g: int|
                0 <= g < flutter_groups(issues).len() && #[trigger] flutter_groups(issues)[g].file == issues[k].file,
    decreases issues.len(),
{
    if issues.len() > 0 {
        let p = issues.drop_last();
        let x = issues.last();
        let e: Entry = (x.sev, x.rule, x.message);
        let g0 = flutter_groups(p);
        let gs = flutter_groups(issues);
        law_flutter_groups(p);
        lemma_flutter_group_from(g0, x.file, 0);
        assert(entries_in(issues, x.file) == entries_in(p, x.file).push(e));
        assert(severity_count(issues, x.file, Sev::Error) == severity_count(p, x.file, Sev::Error) + one_if(
            x.sev == Sev::Error,
        ));
        assert(severity_count(issues, x.file, Sev::Warning) == severity_count(p, x.file, Sev::Warning)
            + one_if(x.sev == Sev::Warning));
        assert forall|f: Seq<char>| f != x.file implies entries_in(issues, f) == entries_in(p, f)
            && severity_count(issues, f, Sev::Error) == severity_count(p, f, Sev::Error) && severity_count(
            issues,
            f,
            Sev::Warning,
        ) == severity_count(p, f, Sev::Warning) by {}
        match flutter_group_from(g0, x.file, 0) {
            Some(i) => {
                assert(gs == g0.update(
                    i,
                    FlutterFile {
                        file: x.file,
                        entries: g0[i].entries.push(e),
                        errors: g0[i].errors + one_if(x.sev == Sev::Error),
                        warnings: g0[i].warnings + one_if(x.sev == Sev::Warning),
                    },
                ));
                assert forall|a: int, b: int| 0 <= a < b < gs.len() implies (#[trigger] gs[a]).file != (
                #[trigger] gs[b]).file by {
                    assert(gs[a].file == g0[a].file && gs[b].file == g0[b].file);
                }
                assert forall|g: int| 0 <= g < gs.len() implies {
                    let grp = #[trigger] gs[g];
                    &&& grp.entries == entries_in(issues, grp.file)
                    &&& grp.errors == severity_count(issues, grp.file, Sev::Error)
                    &&& grp.warnings == severity_count(issues, grp.file, Sev::Warning)
                } by {
                    if g != i {
                        assert(gs[g] == g0[g]);
                        if g < i {
                            assert(g0[g].file != g0[i].file);
                        } else {
                            assert(g0[i].file != g0[g].file);
                        }
                    }
                }
                assert forall|k: int| #![trigger issues[k]] 0 <= k < issues.len() implies exists|g: int|
                    0 <= g < gs.len() && #[trigger] gs[g].file == issues[k].file by {
                    if k < p.len() {
                        assert(issues[k] == p[k]);
                        let g = choose|g: int| 0 <= g < g0.len() && #[trigger] g0[g].file == p[k].file;
                        assert(gs[g].file == g0[g].file);
                    } else {
                        assert(gs[i].file == issues[k].file);
                    }
                }
            },
            None => {
                let ng = FlutterFile {
                    file: x.file,
                    entries: seq![e],
                    errors: one_if(x.sev == Sev::Error),
                    warnings: one_if(x.sev == Sev::Warning),
                };
                assert(gs == g0.push(ng));
                assert forall|k: int| 0 <= k < p.len() implies (#[trigger] p[k]).file != x.file by {
                    let g = choose|g: int| 0 <= g < g0.len() && #[trigger] g0[g].file == p[k].file;
                    assert(g0[g].file != x.file);
                }
                lemma_location_without_issues(p, x.file);
                assert(entries_in(issues, x.file) =~= seq![e]);
                assert forall|a: int, b: int| 0 <= a < b < gs.len() implies (#[trigger] gs[a]).file != (
                #[trigger] gs[b]).file by {
                    assert(gs[a] == g0[a]);
                    if b < g0.len() {
                        assert(gs[b] == g0[b]);
                    }
                }
                assert forall|g: int| 0 <= g < gs.len() implies {
                    let grp = #[trigger] gs[g];
                    &&& grp.entries == entries_in(issues, grp.file)
                    &&& grp.errors == severity_count(issues, grp.file, Sev::Error)
                    &&& grp.warnings == severity_count(issues, grp.file, Sev::Warning)
                } by {
                    if g < g0.len() {
                        assert(gs[g] == g0[g]);
                    }
                }
                assert forall|k: int| #![trigger issues[k]] 0 <= k < issues.len() implies exists|g: int|
                    0 <= g < gs.len() && #[trigger] gs[g].file == issues[k].file by {
                    if k < p.len() {
                        assert(issues[k] == p[k]);
                        let g = choose|g: int| 0 <= g < g0.len() && #[trigger] g0[g].file == p[k].file;
                        assert(gs[g] == g0[g]);
                    } else {
                        assert(gs[g0.len() as int].file == issues[k].file);
                    }
                }
            },
        }
    }
}

/// The order in which a location's distinct entries are listed: errors,
/// then warnings, then infos, ties in order of first appearance.
pub open spec fn entry_order(t: Seq<(Entry, nat)>) -> Seq<int> {
    key_order::<LeastFirst>(t.map_values(|e: (Entry, nat)| rank(e.0.0)))
}

/// A location's distinct entries are each listed once, by severity.
pub proof fn law_entry_order(t: Seq<(Entry, nat)>)
    ensures
        entry_order(t).len() == t.len(),
        entry_order(t).no_duplicates(),
        forall|k: int| 0 <= k < t.len() ==> 0 <= #[trigger] entry_order(t)[k] < t.len(),
        forall|i: int, j: int|
            0 <= i < j < t.len() ==> rank(t[#[trigger] entry_order(t)[i]].0.0) <= rank(
                t[#[trigger] entry_order(t)[j]].0.0,
            ),
        forall|i: int, j: int|
            0 <= i < j < t.len() ==> {
                let a = t[#[trigger] entry_order(t)[i]].0.0;
                let b = t[#[trigger] entry_order(t)[j]].0.0;
                &&& a == Sev::Info ==> b == Sev::Info
                &&& a == Sev::Warning ==> b != Sev::Error
            },
{
    let keys = t.map_values(|e: (Entry, nat)| rank(e.0.0));
    lemma_key_order::<LeastFirst>(keys);
    assert forall|i: int, j: int| 0 <= i < j < t.len() implies rank(t[#[trigger] entry_order(t)[i]].0.0) <= rank(
        t[#[trigger] entry_order(t)[j]].0.0,
    ) by {
        assert(keys[entry_order(t)[i]] == rank(t[entry_order(t)[i]].0.0));
        assert(keys[entry_order(t)[j]] == rank(t[entry_order(t)[j]].0.0));
    }
}

/// The order in which locations are listed: more errors first, then more
/// warnings, ties in order of first appearance.
pub open spec fn location_order(groups: Seq<FlutterFile>) -> Seq<int> {
    key_order::<MostFirstPair>(groups.map_values(|g: FlutterFile| (g.errors, g.warnings)))
}

/// Every location is listed once; one with more errors, or as many errors
/// and more warnings, comes first.
pub proof fn law_location_order(groups: Seq<FlutterFile>)
    ensures
        location_order(groups).len() == groups.len(),
        location_order(groups).no_duplicates(),
        forall|k: int| 0 <= k < groups.len() ==> 0 <= #[trigger] location_order(groups)[k] < groups.len(),
        forall|i: int, j: int|
            0 <= i < j < groups.len() ==> {
                let a = groups[#[trigger] location_order(groups)[i]];
                let b = groups[#[trigger] location_order(groups)[j]];
                a.errors > b.errors || (a.errors == b.errors && a.warnings >= b.warnings)
            },
{
    let keys = groups.map_values(|g: FlutterFile| (g.errors, g.warnings));
    lemma_key_order::<MostFirstPair>(keys);
    assert forall|i: int, j: int| 0 <= i < j < groups.len() implies {
        let a = groups[#[trigger] location_order(groups)[i]];
        let b = groups[#[trigger] location_order(groups)[j]];
        a.errors > b.errors || (a.errors == b.errors && a.warnings >= b.warnings)
    } by {
        assert(keys[location_order(groups)[i]] == (
            groups[location_order(groups)[i]].errors,
            groups[location_order(groups)[i]].warnings,
        ));
        assert(keys[location_order(groups)[j]] == (
            groups[location_order(groups)[j]].errors,
            groups[location_order(groups)[j]].warnings,
        ));
    }
}

/// An issue line of a group: `  severity rule: message`, with `(xN)` when
/// it occurs `N > 1` times.
pub open spec fn entry_line(e: Entry, count: nat) -> Seq<char> {
    "  "@ + label(e.0) + " "@ + e.1 + ": "@ + e.2 + if count > 1 {
        " (x"@ + decimal(count) + ")"@
    } else {
        Seq::empty()
    }
}

/// The lines for one location: `path:line (N issues)`, then its distinct
/// issues, errors first, then warnings, then infos.
pub open spec fn flutter_group_lines(g: FlutterFile) -> Seq<Seq<char>> {
    let t = tally(g.entries);
    let order = entry_order(t);
    seq![g.file + " ("@ + decimal(g.entries.len()) + " issues)"@] + order.map_values(
        |k: int| entry_line(t[k].0, t[k].1),
    )
}

/// The output of `flutter analyze` after filtering: the issue-count line,
/// then the issues grouped by location (more errors first, then more
/// warnings, ties in order of first appearance), repeated issues collapsed;
/// with no issue, the count line or `"ok"`.
pub open spec fn flutter_analyze_output(s: Seq<char>) -> Seq<char> {
    let ts = trimmed_lines(s);
    let summary = last_only(select(ts, |t: Seq<char>| is_flutter_summary(t)));
    let groups = flutter_groups(flutter_issues(ts));
    if groups.len() == 0 {
        if summary.len() == 0 {
            "ok"@
        } else {
            summary[0]
        }
    } else {
        let order = location_order(groups);
        join(summary + order.map_values(|k: int| flutter_group_lines(groups[k])).flatten(), "\n"@)
    }
}

/// Views of capture groups.
pub open spec fn group_views(g: Seq<Option<String>>) -> Seq<Option<Seq<char>>> {
    g.map_values(|o: Option<String>| match o {
        Some(s) => Some(s@),
        None => None,
    })
}

/// An issue of a location, as the filter keeps it.
pub struct EntryLine {
    pub sev: Sev,
    pub rule: Vec<char>,
    pub message: Vec<char>,
}

impl View for EntryLine {
    type V = Entry;

    open spec fn view(&self) -> Entry {
        (self.sev, self.rule@, self.message@)
    }
}

impl EntryLine {
    /// A copy of the entry.
    pub fn copy(&self) -> (r: EntryLine)
        ensures
            r@ == self@,
    {
        EntryLine { sev: self.sev, rule: self.rule.clone(), message: self.message.clone() }
    }
}

/// An issue parsed from a `flutter analyze` line.
pub struct FlutterIssueLine {
    pub file: Vec<char>,
    pub entry: EntryLine,
}

impl View for FlutterIssueLine {
    type V = FlutterIssue;

    open spec fn view(&self) -> FlutterIssue {
        FlutterIssue {
            file: self.file@,
            sev: self.entry.sev,
            rule: self.entry.rule@,
            message: self.entry.message@,
        }
    }
}

/// The issue described by the capture groups `g` of `ISSUE_PATTERN`.
pub fn issue_of_groups(g: &Vec<Option<String>>) -> (r: Option<FlutterIssueLine>)
    ensures
        r matches Some(x) ==> issue_from_groups(group_views(g@)) == Some(x@),
        r is None ==> issue_from_groups(group_views(g@)) is None,
{
    if g.len() <= 6 {
        return None;
    }
    match (&g[1], &g[2], &g[3], &g[4], &g[6]) {
        (Some(w), Some(message), Some(path), Some(line), Some(rule)) => {
            let sev = if *w == String::from_str("error") {
                Sev::Error
            } else if *w == String::from_str("warning") {
                Sev::Warning
            } else {
                Sev::Info
            };
            let mut file = chars_of(path.as_str());
            append_str(&mut file, ":");
            append_str(&mut file, line.as_str());
            Some(
                FlutterIssueLine {
                    file,
                    entry: EntryLine {
                        sev,
                        rule: chars_of(rule.as_str()),
                        message: chars_of(message.as_str()),
                    },
                },
            )
        },
        _ => None,
    }
}

/// The issue on the trimmed `flutter analyze` line `t`, if it matches `ISSUE_PATTERN`.
fn parse_flutter_issue(t: &Vec<char>) -> (r: Option<FlutterIssueLine>)
    ensures
        r matches Some(x) ==> flutter_issue(t@) == Some(x@),
        r is None ==> flutter_issue(t@) is None,
{
    let text = string_of(t);
    match pattern_captures(ISSUE_PATTERN, text.as_str()) {
        Some(groups) => {
            assert(group_views(groups@) =~= regex_captures(ISSUE_PATTERN@, t@)->0);
            issue_of_groups(&groups)
        },
        None => None,
    }
}

/// The issues of one location, as the `flutter analyze` filter collects them.
pub struct LocationGroup {
    pub file: Vec<char>,
    pub entries: Vec<EntryLine>,
    pub errors: usize,
    pub warnings: usize,
}

/// The views of the entries.
pub open spec fn entries_view(v: Seq<EntryLine>) -> Seq<Entry> {
    v.map_values(|e: EntryLine| e@)
}

impl View for LocationGroup {
    type V = FlutterFile;

    open spec fn view(&self) -> FlutterFile {
        FlutterFile {
            file: self.file@,
            entries: entries_view(self.entries@),
            errors: self.errors as nat,
            warnings: self.warnings as nat,
        }
    }
}

/// The views of the groups.
pub open spec fn locations_view(v: Seq<LocationGroup>) -> Seq<FlutterFile> {
    v.map_values(|g: LocationGroup| g@)
}

proof fn lemma_flutter_group_from(groups: Seq<FlutterFile>, file: Seq<char>, j: int)
    requires
        0 <= j,
    ensures
        flutter_group_from(groups, file, j) matches Some(i) ==> j <= i < groups.len() && groups[i].file == file,
        flutter_group_from(groups, file, j) is None ==> forall|i: int| j <= i < groups.len() ==> groups[i].file != file,
    decreases groups.len() - j,
{
    if j < groups.len() && groups[j].file != file {
        lemma_flutter_group_from(groups, file, j + 1);
    }
}

/// Position of the group for `file`.
fn location_position(groups: &Vec<LocationGroup>, file: &Vec<char>) -> (r: Option<usize>)
    ensures
        r matches Some(i) ==> i < groups@.len() && flutter_group_from(locations_view(groups@), file@, 0) == Some(i as int),
        r is None ==> flutter_group_from(locations_view(groups@), file@, 0) is None,
{
    let ghost gv = locations_view(groups@);
    for i in 0..groups.len()
        invariant
            gv == locations_view(groups@),
            flutter_group_from(gv, file@, 0) == flutter_group_from(gv, file@, i as int),
    {
        if chars_eq(&groups[i].file, file) {
            return Some(i);
        }
    }
    assert(flutter_group_from(gv, file@, groups@.len() as int) is None);
    None
}

/// The groups' counts stay within their sizes, which stay within `bound`.
pub open spec fn locations_bounded(groups: Seq<LocationGroup>, bound: nat) -> bool {
    forall|k: int|
        0 <= k < groups.len() ==> (#[trigger] groups[k]).errors <= groups[k].entries@.len()
            && groups[k].warnings <= groups[k].entries@.len() && groups[k].entries@.len() <= bound
}

/// Adds an issue to its location's group, or to a new group at the end.
pub fn add_location_issue(groups: &mut Vec<LocationGroup>, x: FlutterIssueLine, Ghost(bound): Ghost<nat>)
    requires
        bound < usize::MAX,
        locations_bounded(old(groups)@, bound),
    ensures
        locations_view(final(groups)@) == add_flutter_issue(locations_view(old(groups)@), x@),
        locations_bounded(final(groups)@, bound + 1),
{
    let ghost gv = locations_view(groups@);
    let ghost xv = x@;
    let ghost old_groups = groups@;
    proof {
        lemma_flutter_group_from(gv, xv.file, 0);
    }
    let is_error = x.entry.sev == Sev::Error;
    let is_warning = x.entry.sev == Sev::Warning;
    match location_position(groups, &x.file) {
        Some(i) => {
            let mut g = groups.remove(i);
            let ghost g0 = g;
            assert(g0 == old_groups[i as int]);
            assert(gv[i as int] == g0@);
            g.entries.push(x.entry);
            if is_error {
                g.errors = g.errors + 1;
            }
            if is_warning {
                g.warnings = g.warnings + 1;
            }
            assert(entries_view(g.entries@) =~= entries_view(g0.entries@).push((xv.sev, xv.rule, xv.message)));
            groups.insert(i, g);
            assert(groups@ =~= old_groups.update(i as int, g));
            assert(locations_view(groups@) =~= add_flutter_issue(gv, xv));
            assert forall|k: int| 0 <= k < groups@.len() implies (#[trigger] groups@[k]).errors <= groups@[k].entries@.len()
                && groups@[k].warnings <= groups@[k].entries@.len() && groups@[k].entries@.len() <= bound + 1 by {
                if k != i {
                    assert(groups@[k] == old_groups[k]);
                }
            }
        },
        None => {
            let mut entries: Vec<EntryLine> = Vec::new();
            entries.push(x.entry);
            let g = LocationGroup {
                file: x.file,
                entries,
                errors: if is_error { 1 } else { 0 },
                warnings: if is_warning { 1 } else { 0 },
            };
            assert(entries_view(g.entries@) =~= seq![(xv.sev, xv.rule, xv.message)]);
            groups.push(g);
            assert(locations_view(groups@) =~= add_flutter_issue(gv, xv));
            assert forall|k: int| 0 <= k < groups@.len() implies (#[trigger] groups@[k]).errors <= groups@[k].entries@.len()
                && groups@[k].warnings <= groups@[k].entries@.len() && groups@[k].entries@.len() <= bound + 1 by {
                if k < old_groups.len() {
                    assert(groups@[k] == old_groups[k]);
                } else {
                    assert(groups@[k] == g);
                }
            }
        },
    }
}

/// The tally held by parallel vectors of entries and counts.
pub open spec fn entry_tally_view(ds: Seq<EntryLine>, cs: Seq<usize>) -> Seq<(Entry, nat)> {
    Seq::new(ds.len(), |i: int| (ds[i]@, cs[i] as nat))
}

/// Whether two entries are the same issue.
fn same_entry(a: &EntryLine, b: &EntryLine) -> (r: bool)
    ensures
        r == (a@ == b@),
{
    a.sev == b.sev && chars_eq(&a.rule, &b.rule) && chars_eq(&a.message, &b.message)
}

/// Distinct entries in order of first appearance, with their numbers of occurrences.
pub fn tally_entries(es: &Vec<EntryLine>) -> (r: (Vec<EntryLine>, Vec<usize>))
    ensures
        r.0@.len() == r.1@.len(),
        entry_tally_view(r.0@, r.1@) == tally(entries_view(es@)),
{
    let ghost ev = entries_view(es@);
    let mut ds: Vec<EntryLine> = Vec::new();
    let mut cs: Vec<usize> = Vec::new();
    for i in 0..es.len()
        invariant
            ev == entries_view(es@),
            ds@.len() == cs@.len(),
            entry_tally_view(ds@, cs@) == tally(ev.take(i as int)),
            forall|k: int| 0 <= k < cs@.len() ==> #[trigger] cs@[k] <= i,
    {
        let ghost t0 = entry_tally_view(ds@, cs@);
        proof {
            assert(ev.take(i + 1).drop_last() =~= ev.take(i as int));
            assert(ev.take(i + 1).last() == es@[i as int]@);
            lemma_tally_from(t0, es@[i as int]@, 0);
        }
        let x = &es[i];
        let mut pos: usize = 0;
        while pos < ds.len() && !same_entry(&ds[pos], x)
            invariant
                pos <= ds@.len(),
                ds@.len() == cs@.len(),
                t0 == entry_tally_view(ds@, cs@),
                tally_from(t0, x@, 0) == tally_from(t0, x@, pos as int),
            decreases ds@.len() - pos,
        {
            pos = pos + 1;
        }
        if pos < ds.len() {
            assert(tally_from(t0, x@, pos as int) == Some(pos as int));
            let ghost cs0 = cs@;
            cs[pos] = cs[pos] + 1;
            assert(entry_tally_view(ds@, cs@) =~= t0.update(pos as int, (x@, t0[pos as int].1 + 1)));
            assert forall|k: int| 0 <= k < cs@.len() implies #[trigger] cs@[k] <= i + 1 by {
                if k != pos {
                    assert(cs@[k] == cs0[k]);
                }
            }
        } else {
            assert(tally_from(t0, x@, pos as int) is None);
            let ghost cs0 = cs@;
            ds.push(x.copy());
            cs.push(1);
            assert(entry_tally_view(ds@, cs@) =~= t0.push((x@, 1nat)));
            assert forall|k: int| 0 <= k < cs@.len() implies #[trigger] cs@[k] <= i + 1 by {
                if k < cs0.len() {
                    assert(cs@[k] == cs0[k]);
                }
            }
        }
    }
    assert(ev.take(es@.len() as int) =~= ev);
    (ds, cs)
}

/// `entry_line(e, count)`.
fn entry_line_chars(e: &EntryLine, count: usize) -> (r: Vec<char>)
    ensures
        r@ == entry_line(e@, count as nat),
{
    let mut r = line_of("  ");
    match e.sev {
        Sev::Error => append_str(&mut r, "error"),
        Sev::Warning => append_str(&mut r, "warning"),
        Sev::Info => append_str(&mut r, "info"),
    }
    append_str(&mut r, " ");
    append_chars(&mut r, &e.rule);
    append_str(&mut r, ": ");
    append_chars(&mut r, &e.message);
    if count > 1 {
        append_str(&mut r, " (x");
        append_chars(&mut r, &decimal_chars(count));
        append_str(&mut r, ")");
    } else {
        assert(r@ =~= r@ + Seq::<char>::empty());
    }
    r
}

/// `flutter_group_lines(g)`.
fn flutter_group_lines_of(g: &LocationGroup) -> (r: Vec<Vec<char>>)
    ensures
        r.deep_view() == flutter_group_lines(g@),
{
    let mut head = g.file.clone();
    append_str(&mut head, " (");
    append_chars(&mut head, &decimal_chars(g.entries.len()));
    append_str(&mut head, " issues)");
    let (ds, cs) = tally_entries(&g.entries);
    let ghost t = tally(entries_view(g.entries@));
    let mut keys: Vec<LeastFirst> = Vec::new();
    for k in 0..ds.len()
        invariant
            keys@.len() == k,
            forall|j: int| 0 <= j < k ==> (#[trigger] keys@[j]).0 as nat == rank(ds@[j].sev),
    {
        let r: u8 = match ds[k].sev {
            Sev::Error => 0,
            Sev::Warning => 1,
            Sev::Info => 2,
        };
        keys.push(LeastFirst(r));
    }
    assert(key_views(keys@) =~= t.map_values(|e: (Entry, nat)| rank(e.0.0)));
    let order = sort_positions(&keys);
    let ghost ov = order@.map_values(|i: usize| i as int);
    let mut lines: Vec<Vec<char>> = Vec::new();
    let ghost hv = head@;
    push_line(&mut lines, head);
    for k in 0..order.len()
        invariant
            order@.len() == ds@.len(),
            ds@.len() == cs@.len(),
            forall|j: int| 0 <= j < order@.len() ==> #[trigger] order@[j] < ds@.len(),
            ov == order@.map_values(|i: usize| i as int),
            t == entry_tally_view(ds@, cs@),
            lines.deep_view() == seq![hv] + ov.take(k as int).map_values(|q: int| entry_line(t[q].0, t[q].1)),
    {
        let idx = order[k];
        let line = entry_line_chars(&ds[idx], cs[idx]);
        push_line(&mut lines, line);
        assert(ov.take(k + 1).map_values(|q: int| entry_line(t[q].0, t[q].1)) =~= ov.take(k as int).map_values(
            |q: int| entry_line(t[q].0, t[q].1),
        ).push(entry_line(t[idx as int].0, t[idx as int].1)));
        assert(lines.deep_view() =~= seq![hv] + ov.take(k + 1).map_values(|q: int| entry_line(t[q].0, t[q].1)));
    }
    assert(ov.take(order@.len() as int) =~= ov);
    lines
}

/// Groups `flutter analyze` issues by location, errors and warnings first,
/// and collapses repeated issues.
pub fn filter_flutter_analyze(output: &str) -> (r: String)
    ensures
        r@ == flutter_analyze_output(output@),
{
    let content = content_of(output);
    let ghost ts = trimmed_lines(output@);
    let ghost p_summary = |t: Seq<char>| is_flutter_summary(t);
    proof {
        lemma_deep_index(content);
    }
    let mut summary: Option<Vec<char>> = None;
    let mut groups: Vec<LocationGroup> = Vec::new();
    for i in 0..content.len()
        invariant
            ts == trimmed_lines(output@),
            ts.len() == content@.len(),
            content.deep_view() == content_lines(output@),
            content.deep_view().len() == content@.len(),
            forall|k: int| 0 <= k < content@.len() ==> #[trigger] content.deep_view()[k] == content@[k]@,
            p_summary == (|t: Seq<char>| is_flutter_summary(t)),
            summary is None ==> select(ts.take(i as int), p_summary).len() == 0,
            summary matches Some(c) ==> last_only(select(ts.take(i as int), p_summary)) == seq![c@],
            locations_view(groups@) == flutter_groups(flutter_issues(ts.take(i as int))),
            locations_bounded(groups@, i as nat),
    {
        proof {
            lemma_select_step(ts, p_summary, i as int);
            assert(ts.take(i + 1).drop_last() =~= ts.take(i as int));
        }
        let t = trim_chars(&content[i]);
        assert(ts.take(i + 1).last() == t@);
        if has(&t, "issues found") {
            summary = Some(t);
        } else {
            match parse_flutter_issue(&t) {
                Some(x) => {
                    let ghost xv = x@;
                    let ghost prev = flutter_issues(ts.take(i as int));
                    assert(flutter_issues(ts.take(i + 1)) == prev.push(xv));
                    assert(prev.push(xv).drop_last() =~= prev);
                    add_location_issue(&mut groups, x, Ghost(i as nat));
                },
                None => {},
            }
        }
    }
    assert(ts.take(content.len() as int) =~= ts);
    let ghost gs = flutter_groups(flutter_issues(ts));
    if groups.len() == 0 {
        return match summary {
            Some(c) => string_of(&c),
            None => String::from_str("ok"),
        };
    }
    let mut keys: Vec<MostFirstPair> = Vec::new();
    for k in 0..groups.len()
        invariant
            keys@.len() == k,
            forall|j: int| 0 <= j < k ==> (#[trigger] keys@[j]).0 == groups@[j].errors && keys@[j].1 == groups@[j].warnings,
    {
        keys.push(MostFirstPair(groups[k].errors, groups[k].warnings));
    }
    assert(key_views(keys@) =~= gs.map_values(|g: FlutterFile| (g.errors, g.warnings)));
    let order = sort_positions(&keys);
    let ghost ov = order@.map_values(|i: usize| i as int);
    let ghost per = ov.map_values(|k: int| flutter_group_lines(gs[k]));
    let mut lines: Vec<Vec<char>> = Vec::new();
    match summary {
        Some(c) => push_line(&mut lines, c),
        None => {},
    }
    let ghost head = lines.deep_view();
    assert(head == last_only(select(ts, p_summary)));
    for k in 0..order.len()
        invariant
            order@.len() == groups@.len(),
            forall|j: int| 0 <= j < order@.len() ==> #[trigger] order@[j] < groups@.len(),
            ov == order@.map_values(|i: usize| i as int),
            gs == locations_view(groups@),
            per == ov.map_values(|k: int| flutter_group_lines(gs[k])),
            lines.deep_view() == head + per.take(k as int).flatten(),
    {
        let idx = order[k];
        let part = flutter_group_lines_of(&groups[idx]);
        proof {
            per.take(k as int).lemma_flatten_push(per[k as int]);
            assert(per.take(k + 1) =~= per.take(k as int).push(per[k as int]));
        }
        extend_lines(&mut lines, part);
    }
    assert(per.take(order@.len() as int) =~= per);
    let v = join_chars(&lines, "\n");
    string_of(&v)
}

} // verus!
