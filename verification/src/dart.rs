//! Filters for the output of the Dart SDK's commands (analyze, pub, run, test).
//!
//! `dart analyze` and `dart pub` share output formats with their `flutter`
//! counterparts.
use vstd::prelude::*;
use crate::plan::{make_plan, plans, CommandPlan, OutputFilter, OutputMode};
use crate::select::{lemma_ok_or_join_has, lemma_select_from, lemma_select_index, lemma_select_last, lemma_selected_shown, extend_lines, line_of, content_lines, content_of, keep_lines, lemma_select_step, lemma_take_all, ok_or_join, ok_or_join_string, push_line, push_separated, select, with_separators};
use crate::sort::{key_order, key_views, lemma_key_order, lex_le, sort_positions, Alphabetical, MostFirst};
use crate::tally::{lemma_tally_from, tally, tally_from};
use crate::text::{lemma_find_from, is_digit, chars_eq, occurs_at, rfind, rfind_from, append_chars, append_str, begins, contains, decimal, decimal_chars, find, find_from, has, join, join_chars, lemma_deep_index, lowered, lowercase_chars, parse_usize, sub_chars, parse_usize_chars, starts_with, string_of, trim, trim_chars, words, words_of};

verus! {

broadcast use vstd::string::group_string_axioms;

/// Run `dart pub`.
///
/// The plan for running it: `dart pub <args>`, recorded as `dart pub`.
pub fn run_dart_pub(args: &[String], verbose: u8) -> (p: CommandPlan)
    ensures
        plans(p, "dart"@, "pub"@, args.deep_view(), "dart pub"@, OutputMode::Filtered(OutputFilter::DartPub), false, verbose),
{
    make_plan("dart", "pub", args, "dart pub", OutputMode::Filtered(OutputFilter::DartPub), false, verbose)
}

/// Run `dart analyze`.
///
/// The plan for running it: `dart analyze <args>`, recorded as `dart analyze`.
pub fn run_dart_analyze(args: &[String], verbose: u8) -> (p: CommandPlan)
    ensures
        plans(p, "dart"@, "analyze"@, args.deep_view(), "dart analyze"@, OutputMode::Filtered(OutputFilter::DartAnalyze), false, verbose),
{
    make_plan("dart", "analyze", args, "dart analyze", OutputMode::Filtered(OutputFilter::DartAnalyze), false, verbose)
}

/// Run `dart test`.
///
/// The plan for running it: `dart test <args>`, recorded as `dart test`.
pub fn run_dart_test(args: &[String], verbose: u8) -> (p: CommandPlan)
    ensures
        plans(p, "dart"@, "test"@, args.deep_view(), "dart test"@, OutputMode::Filtered(OutputFilter::DartTest), false, verbose),
{
    make_plan("dart", "test", args, "dart test", OutputMode::Filtered(OutputFilter::DartTest), false, verbose)
}

/// Run `dart run`.
///
/// The plan for running it: `dart run <args>`, recorded as `dart run`.
pub fn run_dart_run(args: &[String], verbose: u8) -> (p: CommandPlan)
    ensures
        plans(p, "dart"@, "run"@, args.deep_view(), "dart run"@, OutputMode::Filtered(OutputFilter::DartRun), false, verbose),
{
    make_plan("dart", "run", args, "dart run", OutputMode::Filtered(OutputFilter::DartRun), false, verbose)
}

/// How `pub` (dart or flutter) treats a clean output line.
pub enum PubLine {
    /// The `Changed N dependencies` summary.
    Changed,
    /// A note about newer or incompatible versions.
    Outdated,
    /// An error or warning.
    Problem,
    /// Resolution noise.
    Other,
}

/// The class of a clean `pub` line, given its lowercase form.
pub open spec fn pub_line_class(c: Seq<char>, lower: Seq<char>) -> PubLine {
    if starts_with(c, "Changed "@) && contains(c, "dependencies"@) {
        PubLine::Changed
    } else if contains(c, "newer versions"@) || contains(c, "incompatible"@) {
        PubLine::Outdated
    } else if contains(lower, "error"@) || contains(lower, "warn"@) {
        PubLine::Problem
    } else {
        PubLine::Other
    }
}

/// The class of a clean `pub` line.
pub open spec fn pub_class(c: Seq<char>) -> PubLine {
    pub_line_class(c, lowered(c))
}

/// The last line, alone, or nothing.
pub open spec fn last_only(ls: Seq<Seq<char>>) -> Seq<Seq<char>> {
    if ls.len() == 0 {
        Seq::empty()
    } else {
        seq![ls.last()]
    }
}

/// The output of `dart pub` / `flutter pub` after filtering: errors and
/// warnings, the last `Changed N dependencies` line, then the outdated-version
/// notes; or `"ok"`.
pub open spec fn pub_output(s: Seq<char>) -> Seq<char> {
    let ls = content_lines(s);
    ok_or_join(
        select(ls, |c: Seq<char>| pub_class(c) == PubLine::Problem) + last_only(
            select(ls, |c: Seq<char>| pub_class(c) == PubLine::Changed),
        ) + select(ls, |c: Seq<char>| pub_class(c) == PubLine::Outdated),
    )
}

/// The class of the clean `pub` line `clean` whose lowercase form is `lower`.
pub fn pub_line_kind(clean: &Vec<char>, lower: &Vec<char>) -> (r: PubLine)
    ensures
        r == pub_line_class(clean@, lower@),
{
    if begins(clean, "Changed ") && has(clean, "dependencies") {
        PubLine::Changed
    } else if has(clean, "newer versions") || has(clean, "incompatible") {
        PubLine::Outdated
    } else if has(lower, "error") || has(lower, "warn") {
        PubLine::Problem
    } else {
        PubLine::Other
    }
}

/// The `pub` filter shared by `dart pub` and `flutter pub`.
pub(crate) fn summarize_pub(output: &str) -> (r: String)
    ensures
        r@ == pub_output(output@),
{
    let content = content_of(output);
    let ghost ls = content.deep_view();
    let ghost p_problem = |c: Seq<char>| pub_class(c) == PubLine::Problem;
    let ghost p_changed = |c: Seq<char>| pub_class(c) == PubLine::Changed;
    let ghost p_outdated = |c: Seq<char>| pub_class(c) == PubLine::Outdated;
    proof {
        lemma_deep_index(content);
    }
    let mut result: Vec<Vec<char>> = Vec::new();
    let mut changed: Option<Vec<char>> = None;
    let mut outdated: Vec<Vec<char>> = Vec::new();
    for i in 0..content.len()
        invariant
            ls == content.deep_view(),
            ls == content_lines(output@),
            ls.len() == content@.len(),
            forall|k: int| 0 <= k < content@.len() ==> #[trigger] ls[k] == content@[k]@,
            p_problem == (|c: Seq<char>| pub_class(c) == PubLine::Problem),
            p_changed == (|c: Seq<char>| pub_class(c) == PubLine::Changed),
            p_outdated == (|c: Seq<char>| pub_class(c) == PubLine::Outdated),
            result.deep_view() == select(ls.take(i as int), p_problem),
            outdated.deep_view() == select(ls.take(i as int), p_outdated),
            changed is None ==> select(ls.take(i as int), p_changed).len() == 0,
            changed matches Some(c) ==> last_only(select(ls.take(i as int), p_changed)) == seq![c@],
    {
        proof {
            lemma_select_step(ls, p_problem, i as int);
            lemma_select_step(ls, p_changed, i as int);
            lemma_select_step(ls, p_outdated, i as int);
        }
        let line = &content[i];
        let lower = lowercase_chars(line);
        match pub_line_kind(line, &lower) {
            PubLine::Changed => {
                changed = Some(line.clone());
            },
            PubLine::Outdated => push_line(&mut outdated, line.clone()),
            PubLine::Problem => push_line(&mut result, line.clone()),
            PubLine::Other => {},
        }
    }
    proof {
        lemma_take_all(ls);
    }
    let ghost problems = result.deep_view();
    match changed {
        Some(c) => push_line(&mut result, c),
        None => {},
    }
    assert(result.deep_view() =~= problems + last_only(select(ls, p_changed)));
    let mut all = result;
    crate::select::extend_lines(&mut all, outdated);
    ok_or_join_string(&all)
}

/// A `pub` line summarising changed dependencies (`Changed N dependencies!`).
pub open spec fn changed_line(line: Seq<char>) -> bool {
    starts_with(line, "Changed "@) && contains(line, "dependencies"@)
}

/// Every clean `pub` line that mentions newer or incompatible versions, or an
/// error or a warning in any letter case, shows in the filtered output, unless
/// it is a changed-dependencies summary; of those, the last one shows.
pub proof fn law_pub_shows(s: Seq<char>, k: int)
    requires
        0 <= k < content_lines(s).len(),
        ({
            let line = content_lines(s)[k];
            ||| !changed_line(line) && (contains(line, "newer versions"@) || contains(line, "incompatible"@)
                || contains(lowered(line), "error"@) || contains(lowered(line), "warn"@))
            ||| changed_line(line) && forall|i: int|
                k < i < content_lines(s).len() ==> !changed_line(#[trigger] content_lines(s)[i])
        }),
    ensures
        contains(pub_output(s), content_lines(s)[k]),
{
    let ls = content_lines(s);
    let problems = select(ls, |c: Seq<char>| pub_class(c) == PubLine::Problem);
    let changed = select(ls, |c: Seq<char>| pub_class(c) == PubLine::Changed);
    let outdated = select(ls, |c: Seq<char>| pub_class(c) == PubLine::Outdated);
    let l = problems + last_only(changed) + outdated;
    if pub_class(ls[k]) == PubLine::Problem {
        let j = lemma_select_index(ls, |c: Seq<char>| pub_class(c) == PubLine::Problem, k);
        assert(l[j] == ls[k]);
        lemma_ok_or_join_has(l, j);
    } else if pub_class(ls[k]) == PubLine::Outdated {
        let j = lemma_select_index(ls, |c: Seq<char>| pub_class(c) == PubLine::Outdated, k);
        assert(l[problems.len() + last_only(changed).len() + j] == ls[k]);
        lemma_ok_or_join_has(l, problems.len() + last_only(changed).len() + j);
    } else {
        assert(changed_line(ls[k]));
        let keep = |c: Seq<char>| pub_class(c) == PubLine::Changed;
        let j = lemma_select_index(ls, keep, k);
        lemma_select_last(ls, keep, k);
        assert(l[problems.len() as int] == ls[k]);
        lemma_ok_or_join_has(l, problems.len() as int);
    }
}

/// The `pub` output shows only lines of the input: error and warning lines,
/// at most one changed-dependencies summary, then lines about newer or
/// incompatible versions; or it says `"ok"`.
pub proof fn law_pub_only(s: Seq<char>)
    ensures
        exists|problems: Seq<Seq<char>>, changed: Seq<Seq<char>>, outdated: Seq<Seq<char>>|
            #[trigger] ok_or_join(problems + changed + outdated) == pub_output(s) && changed.len() <= 1
                && (forall|j: int|
                0 <= j < problems.len() ==> content_lines(s).contains(#[trigger] problems[j]) && (contains(
                    lowered(problems[j]),
                    "error"@,
                ) || contains(lowered(problems[j]), "warn"@))) && (forall|j: int|
                0 <= j < changed.len() ==> content_lines(s).contains(#[trigger] changed[j]) && changed_line(
                    changed[j],
                )) && (forall|j: int|
                0 <= j < outdated.len() ==> content_lines(s).contains(#[trigger] outdated[j]) && (contains(
                    outdated[j],
                    "newer versions"@,
                ) || contains(outdated[j], "incompatible"@))),
{
    let ls = content_lines(s);
    let problems = select(ls, |c: Seq<char>| pub_class(c) == PubLine::Problem);
    let changed = select(ls, |c: Seq<char>| pub_class(c) == PubLine::Changed);
    let outdated = select(ls, |c: Seq<char>| pub_class(c) == PubLine::Outdated);
    lemma_select_from(ls, |c: Seq<char>| pub_class(c) == PubLine::Problem);
    lemma_select_from(ls, |c: Seq<char>| pub_class(c) == PubLine::Changed);
    lemma_select_from(ls, |c: Seq<char>| pub_class(c) == PubLine::Outdated);
    let lc = last_only(changed);
    if changed.len() > 0 {
        assert(lc[0] == changed[changed.len() - 1]);
    }
    assert(ok_or_join(problems + lc + outdated) == pub_output(s));
}

/// Keeps the errors, warnings, dependency-change summary and outdated-version
/// notes of `dart pub` output.
pub fn filter_dart_pub(output: &str) -> (r: String)
    ensures
        r@ == pub_output(output@),
{
    summarize_pub(output)
}

/// Whether `dart run` keeps a line, given its lowercase form.
pub open spec fn dart_run_rule(lower: Seq<char>) -> bool {
    contains(lower, "error"@) || contains(lower, "warn"@) || contains(lower, "exception"@)
}

/// The output of `dart run` after filtering: errors, warnings and exceptions,
/// or `"ok"`.
pub open spec fn dart_run_output(s: Seq<char>) -> Seq<char> {
    ok_or_join(select(content_lines(s), |c: Seq<char>| dart_run_rule(lowered(c))))
}

/// Whether `dart run` keeps a line whose lowercase form is `lower`.
pub fn dart_run_line_kept(lower: &Vec<char>) -> (r: bool)
    ensures
        r == dart_run_rule(lower@),
{
    has(lower, "error") || has(lower, "warn") || has(lower, "exception")
}

fn dart_run_kept(c: &Vec<char>) -> (b: bool)
    ensures
        b == dart_run_rule(lowered(c@)),
{
    let lower = lowercase_chars(c);
    dart_run_line_kept(&lower)
}

/// Every clean `dart run` line that mentions an error, a warning or an
/// exception in any letter case shows in the filtered output.
pub proof fn law_dart_run_shows(s: Seq<char>, k: int)
    requires
        0 <= k < content_lines(s).len(),
        ({
            let line = content_lines(s)[k];
            contains(lowered(line), "error"@) || contains(lowered(line), "warn"@) || contains(
                lowered(line),
                "exception"@,
            )
        }),
    ensures
        contains(dart_run_output(s), content_lines(s)[k]),
{
    lemma_selected_shown(s, |c: Seq<char>| dart_run_rule(lowered(c)), k);
}

/// The `dart run` output shows only lines of the input that mention an
/// error, a warning or an exception, or it says `"ok"`.
pub proof fn law_dart_run_only(s: Seq<char>)
    ensures
        exists|kept: Seq<Seq<char>>|
            #[trigger] ok_or_join(kept) == dart_run_output(s) && forall|j: int|
                0 <= j < kept.len() ==> content_lines(s).contains(#[trigger] kept[j]) && (contains(
                    lowered(kept[j]),
                    "error"@,
                ) || contains(lowered(kept[j]), "warn"@) || contains(lowered(kept[j]), "exception"@)),
{
    let keep = |c: Seq<char>| dart_run_rule(lowered(c));
    lemma_select_from(content_lines(s), keep);
    assert(ok_or_join(select(content_lines(s), keep)) == dart_run_output(s));
}

/// Keeps only the errors, warnings and exceptions of `dart run` output.
pub fn filter_dart_run(output: &str) -> (r: String)
    ensures
        r@ == dart_run_output(output@),
{
    let content = content_of(output);
    let kept = keep_lines(&content, dart_run_kept, Ghost(|c: Seq<char>| dart_run_rule(lowered(c))));
    ok_or_join_string(&kept)
}

/// The trimmed content lines of `s`.
pub open spec fn trimmed_lines(s: Seq<char>) -> Seq<Seq<char>> {
    content_lines(s).map_values(|c: Seq<char>| trim(c))
}

/// The part of a progress line before its first `':'`.
pub open spec fn progress_marker(t: Seq<char>) -> Seq<char> {
    match find_from(t, ":"@, 0) {
        Some(k) => t.take(k),
        None => t,
    }
}

/// A parsed count, or 0 when the text is not a number.
pub open spec fn count_or_zero(n: Seq<char>) -> nat {
    match parse_usize(n) {
        Some(v) => v,
        None => 0,
    }
}

/// Passing and failing counts in the tokens of a progress marker: `+N` adds
/// to the passing count, `-N` to the failing one.
pub open spec fn token_counts(tokens: Seq<Seq<char>>) -> (nat, nat)
    decreases tokens.len(),
{
    if tokens.len() == 0 {
        (0, 0)
    } else {
        let (p, f) = token_counts(tokens.drop_last());
        let t = tokens.last();
        if starts_with(t, "+"@) {
            (p + count_or_zero(t.drop_first()), f)
        } else if starts_with(t, "-"@) {
            (p, f + count_or_zero(t.drop_first()))
        } else {
            (p, f)
        }
    }
}

/// State of the `dart test` filter while it reads lines.
pub struct DartTestState {
    pub passed: nat,
    pub failed: nat,
    /// Finished failure reports.
    pub failures: Seq<Seq<char>>,
    /// Lines of the failure being read.
    pub current: Seq<Seq<char>>,
    pub in_failure: bool,
}

/// The state before any line.
pub open spec fn dart_test_start() -> DartTestState {
    DartTestState {
        passed: 0,
        failed: 0,
        failures: Seq::empty(),
        current: Seq::empty(),
        in_failure: false,
    }
}

/// A progress line of the compact reporter with its `MM:SS` timestamp:
/// two digits, `:`, two digits, a space, then the `+` of the counts.
pub open spec fn timestamped_progress(t: Seq<char>) -> bool {
    &&& t.len() >= 7
    &&& is_digit(t[0]) && is_digit(t[1]) && t[2] == ':' && is_digit(t[3]) && is_digit(t[4])
    &&& t[5] == ' ' && t[6] == '+'
}

/// The counting part of a progress line: the line itself when it starts with
/// `+`, the part after the timestamp when it is timestamped; `None` for other lines.
pub open spec fn progress_body(t: Seq<char>) -> Option<Seq<char>> {
    if starts_with(t, "+"@) {
        Some(t)
    } else if timestamped_progress(t) {
        Some(t.skip(6))
    } else {
        None
    }
}

/// The state after the trimmed line `t`.
pub open spec fn dart_test_step(st: DartTestState, t: Seq<char>) -> DartTestState {
    if progress_body(t) is Some {
        let (p, f) = token_counts(words(progress_marker(progress_body(t)->0)));
        DartTestState {
            passed: st.passed + p,
            failed: st.failed + f,
            failures: if contains(t, "failed"@) || contains(t, "Some tests failed"@) {
                st.failures.push(t)
            } else {
                st.failures
            },
            ..st
        }
    } else if starts_with(t, "\u{2713}"@) {
        DartTestState { passed: st.passed + 1, ..st }
    } else if starts_with(t, "\u{2717}"@) || contains(t, " [E]"@) {
        let flush = st.in_failure && st.current.len() > 0;
        DartTestState {
            failed: st.failed + 1,
            failures: if flush {
                st.failures.push(join(st.current, "\n"@))
            } else {
                st.failures
            },
            current: if flush {
                seq![t]
            } else {
                st.current.push(t)
            },
            in_failure: true,
            ..st
        }
    } else if st.in_failure {
        if starts_with(t, "All tests passed"@) || starts_with(t, "Some tests passed"@) {
            DartTestState {
                failures: if st.current.len() > 0 {
                    st.failures.push(join(st.current, "\n"@))
                } else {
                    st.failures
                },
                current: Seq::empty(),
                in_failure: false,
                ..st
            }
        } else {
            DartTestState { current: st.current.push(t), ..st }
        }
    } else {
        st
    }
}

/// A `✓` line counts one pass and changes nothing else.
pub proof fn law_dart_pass_line(st: DartTestState, line: Seq<char>)
    requires
        starts_with(line, "\u{2713}"@),
    ensures
        dart_test_step(st, line) == (DartTestState { passed: st.passed + 1, ..st }),
{
    reveal_strlit("\u{2713}");
    reveal_strlit("+");
    assert("\u{2713}"@[0] == '\u{2713}');
    assert(line.take(1)[0] == line[0]);
    assert(line[0] == '\u{2713}');
    assert("+"@[0] == '+');
    assert(!starts_with(line, "+"@)) by {
        if starts_with(line, "+"@) {
            assert(line.take(1)[0] == '+');
        }
    }
}

/// A `✗` or ` [E]` line that is no progress or pass line counts one failure
/// and is read into the report of the failure it opens; a report being read
/// before it is finished first.
pub proof fn law_dart_failure_line(st: DartTestState, line: Seq<char>)
    requires
        starts_with(line, "\u{2717}"@) || contains(line, " [E]"@),
        !starts_with(line, "+"@) && !timestamped_progress(line),
        !starts_with(line, "\u{2713}"@),
    ensures
        ({
            let next = dart_test_step(st, line);
            &&& next.failed == st.failed + 1
            &&& next.passed == st.passed
            &&& next.in_failure
            &&& next.current.len() > 0 && next.current.last() == line
            &&& next.failures == if st.in_failure && st.current.len() > 0 {
                st.failures.push(join(st.current, "\n"@))
            } else {
                st.failures
            }
        }),
{
}

/// A progress line with an `MM:SS ` timestamp counts exactly as the same line
/// without it.
pub proof fn law_dart_timestamp_counts(st: DartTestState, stamp: Seq<char>, body: Seq<char>)
    requires
        stamp.len() == 6,
        is_digit(stamp[0]) && is_digit(stamp[1]) && stamp[2] == ':' && is_digit(stamp[3]) && is_digit(stamp[4]),
        stamp[5] == ' ',
        starts_with(body, "+"@),
    ensures
        dart_test_step(st, stamp + body).passed == dart_test_step(st, body).passed,
        dart_test_step(st, stamp + body).failed == dart_test_step(st, body).failed,
{
    reveal_strlit("+");
    let t = stamp + body;
    assert(t[6] == body[0]);
    assert(body.take(1)[0] == '+');
    assert(!starts_with(t, "+"@)) by {
        assert(t.take(1)[0] == stamp[0]);
    }
    assert(timestamped_progress(t));
    assert(t.skip(6) =~= body);
}

/// The state after all the trimmed lines `ts`.
pub open spec fn dart_test_fold(ts: Seq<Seq<char>>) -> DartTestState
    decreases ts.len(),
{
    if ts.len() == 0 {
        dart_test_start()
    } else {
        dart_test_step(dart_test_fold(ts.drop_last()), ts.last())
    }
}

/// The failure reports at the end: a failure still being read counts too.
pub open spec fn dart_test_reports(st: DartTestState) -> Seq<Seq<char>> {
    if st.in_failure && st.current.len() > 0 {
        st.failures.push(join(st.current, "\n"@))
    } else {
        st.failures
    }
}

/// The counts of the `dart test` filter on `s`.
pub open spec fn dart_test_final(s: Seq<char>) -> DartTestState {
    dart_test_fold(trimmed_lines(s))
}

/// Whether the counts of `s` fit in a `usize`.
pub open spec fn dart_test_counts_fit(s: Seq<char>) -> bool {
    dart_test_final(s).passed <= usize::MAX && dart_test_final(s).failed <= usize::MAX
}

/// The output of `dart test` after filtering: `P passed, F failed`, then each
/// failure report after a `---` line.
pub open spec fn dart_test_output(s: Seq<char>) -> Seq<char> {
    let st = dart_test_final(s);
    join(
        seq![decimal(st.passed) + " passed, "@ + decimal(st.failed) + " failed"@] + with_separators(
            dart_test_reports(st),
        ),
        "\n"@,
    )
}

/// The counts in the tokens of a progress marker; `None` when one of them
/// does not fit in a `usize`.
pub fn marker_counts(tokens: &Vec<Vec<char>>) -> (r: Option<(usize, usize)>)
    ensures
        r matches Some((p, f)) ==> token_counts(tokens.deep_view()) == (p as nat, f as nat),
        r is None ==> token_counts(tokens.deep_view()).0 > usize::MAX || token_counts(
            tokens.deep_view(),
        ).1 > usize::MAX,
{
    let ghost ts = tokens.deep_view();
    proof {
        lemma_deep_index(*tokens);
    }
    let mut p: usize = 0;
    let mut f: usize = 0;
    let mut overflow = false;
    for i in 0..tokens.len()
        invariant
            ts == tokens.deep_view(),
            ts.len() == tokens@.len(),
            forall|k: int| 0 <= k < tokens@.len() ==> #[trigger] ts[k] == tokens@[k]@,
            !overflow ==> token_counts(ts.take(i as int)) == (p as nat, f as nat),
            overflow ==> token_counts(ts.take(i as int)).0 > usize::MAX || token_counts(
                ts.take(i as int),
            ).1 > usize::MAX,
    {
        let ghost t = ts.take(i + 1);
        assert(t.drop_last() =~= ts.take(i as int));
        assert(t.last() == tokens@[i as int]@);
        let tok = &tokens[i];
        let n = if tok.len() > 0 {
            let rest = sub_chars(tok, 1, tok.len());
            assert(rest@ =~= tok@.drop_first());
            match parse_usize_chars(&rest) {
                Some(v) => v,
                None => 0,
            }
        } else {
            0
        };
        proof {
            reveal_strlit("+");
            reveal_strlit("-");
        }
        if begins(tok, "+") {
            assert(tok@.len() >= 1);
            if !overflow {
                match p.checked_add(n) {
                    Some(v) => {
                        p = v;
                    },
                    None => {
                        overflow = true;
                    },
                }
            }
        } else if begins(tok, "-") {
            assert(tok@.len() >= 1);
            if !overflow {
                match f.checked_add(n) {
                    Some(v) => {
                        f = v;
                    },
                    None => {
                        overflow = true;
                    },
                }
            }
        }
    }
    assert(ts.take(tokens.len() as int) =~= ts);
    if overflow {
        None
    } else {
        Some((p, f))
    }
}

/// The counting part of a progress line (`progress_body`).
fn progress_part(t: &Vec<char>) -> (r: Option<Vec<char>>)
    ensures
        r is Some <==> progress_body(t@) is Some,
        r matches Some(b) ==> b@ == progress_body(t@)->0,
{
    if begins(t, "+") {
        Some(t.clone())
    } else if t.len() >= 7 && '0' <= t[0] && t[0] <= '9' && '0' <= t[1] && t[1] <= '9' && t[2] == ':' && '0'
        <= t[3] && t[3] <= '9' && '0' <= t[4] && t[4] <= '9' && t[5] == ' ' && t[6] == '+' {
        let b = sub_chars(t, 6, t.len());
        assert(b@ =~= t@.skip(6));
        Some(b)
    } else {
        None
    }
}

/// The text before the first `':'` of `t`, or all of `t`.
fn marker_part(t: &Vec<char>) -> (r: Vec<char>)
    ensures
        r@ == progress_marker(t@),
{
    let colon = line_of(":");
    match find(t, &colon) {
        Some(k) => {
            let r = sub_chars(t, 0, k);
            assert(r@ =~= t@.take(k as int));
            r
        },
        None => t.clone(),
    }
}

/// Counts passing and failing tests and keeps the failure reports of
/// `dart test` output; `None` when a count does not fit in a `usize`.
pub fn filter_dart_test_checked(output: &str) -> (r: Option<String>)
    ensures
        r is Some <==> dart_test_counts_fit(output@),
        r matches Some(s) ==> s@ == dart_test_output(output@),
{
    let content = content_of(output);
    let ghost ts = trimmed_lines(output@);
    proof {
        lemma_deep_index(content);
    }
    let mut passed: usize = 0;
    let mut failed: usize = 0;
    let mut failures: Vec<Vec<char>> = Vec::new();
    let mut current: Vec<Vec<char>> = Vec::new();
    let mut in_failure = false;
    let mut overflow = false;
    for i in 0..content.len()
        invariant
            ts == trimmed_lines(output@),
            ts.len() == content@.len(),
            content.deep_view() == content_lines(output@),
            content.deep_view().len() == content@.len(),
            forall|k: int| 0 <= k < content@.len() ==> #[trigger] content.deep_view()[k] == content@[k]@,
            failures.deep_view() == dart_test_fold(ts.take(i as int)).failures,
            current.deep_view() == dart_test_fold(ts.take(i as int)).current,
            in_failure == dart_test_fold(ts.take(i as int)).in_failure,
            !overflow ==> passed as nat == dart_test_fold(ts.take(i as int)).passed,
            !overflow ==> failed as nat == dart_test_fold(ts.take(i as int)).failed,
            overflow ==> dart_test_fold(ts.take(i as int)).passed > usize::MAX || dart_test_fold(
                ts.take(i as int),
            ).failed > usize::MAX,
    {
        proof {
            assert(ts.take(i + 1).drop_last() =~= ts.take(i as int));
        }
        let t = trim_chars(&content[i]);
        assert(ts.take(i + 1).last() == t@);
        if let Some(b) = progress_part(&t) {
            let marker = marker_part(&b);
            let tokens = words_of(&marker);
            match marker_counts(&tokens) {
                Some((p, f)) => {
                    if !overflow {
                        match (passed.checked_add(p), failed.checked_add(f)) {
                            (Some(a), Some(b)) => {
                                passed = a;
                                failed = b;
                            },
                            _ => {
                                overflow = true;
                            },
                        }
                    }
                },
                None => {
                    overflow = true;
                },
            }
            if has(&t, "failed") || has(&t, "Some tests failed") {
                push_line(&mut failures, t);
            }
        } else if begins(&t, "\u{2713}") {
            if !overflow {
                match passed.checked_add(1) {
                    Some(a) => {
                        passed = a;
                    },
                    None => {
                        overflow = true;
                    },
                }
            }
        } else if begins(&t, "\u{2717}") || has(&t, " [E]") {
            if in_failure && current.len() > 0 {
                let report = join_chars(&current, "\n");
                push_line(&mut failures, report);
                current = Vec::new();
                assert(current.deep_view() =~= Seq::<Seq<char>>::empty());
            }
            in_failure = true;
            if !overflow {
                match failed.checked_add(1) {
                    Some(b) => {
                        failed = b;
                    },
                    None => {
                        overflow = true;
                    },
                }
            }
            push_line(&mut current, t);
        } else if in_failure {
            if begins(&t, "All tests passed") || begins(&t, "Some tests passed") {
                in_failure = false;
                if current.len() > 0 {
                    let report = join_chars(&current, "\n");
                    push_line(&mut failures, report);
                }
                current = Vec::new();
                assert(current.deep_view() =~= Seq::<Seq<char>>::empty());
            } else {
                push_line(&mut current, t);
            }
        }
    }
    assert(ts.take(content.len() as int) =~= ts);
    if overflow {
        return None;
    }
    if in_failure && current.len() > 0 {
        let report = join_chars(&current, "\n");
        push_line(&mut failures, report);
    }
    let mut head = decimal_chars(passed);
    append_str(&mut head, " passed, ");
    append_chars(&mut head, &decimal_chars(failed));
    append_str(&mut head, " failed");
    let mut lines: Vec<Vec<char>> = Vec::new();
    let ghost hv = head@;
    push_line(&mut lines, head);
    push_separated(&mut lines, &failures);
    assert(lines.deep_view() =~= seq![hv] + with_separators(failures.deep_view()));
    let v = join_chars(&lines, "\n");
    Some(string_of(&v))
}

/// Counts passing and failing tests of `dart test` output and keeps the
/// failure reports.
pub fn filter_dart_test(output: &str) -> (r: String)
    requires
        dart_test_counts_fit(output@),
    ensures
        r@ == dart_test_output(output@),
{
    match filter_dart_test_checked(output) {
        Some(s) => s,
        None => String::new(),
    }
}

/// A `dart analyze` line giving the issue count (`N issues found`, `No issues found!`).
pub open spec fn is_analyze_summary(t: Seq<char>) -> bool {
    contains(t, "issues found"@) || contains(t, "No issues found"@)
}

/// One issue reported by `dart analyze`.
pub struct DartIssue {
    pub file: Seq<char>,
    pub is_error: bool,
    /// `rule: message`.
    pub text: Seq<char>,
}

/// `s` after the first occurrence of `p`, or all of `s` when `p` does not occur.
pub open spec fn after_first(s: Seq<char>, p: Seq<char>) -> Seq<char> {
    match find_from(s, p, 0) {
        Some(j) => s.skip(j + p.len()),
        None => s,
    }
}

/// `s` before the first occurrence of `p`, or all of `s`.
pub open spec fn before_first(s: Seq<char>, p: Seq<char>) -> Seq<char> {
    match find_from(s, p, 0) {
        Some(j) => s.take(j),
        None => s,
    }
}

/// `s` after the last occurrence of `p`, or all of `s`.
pub open spec fn after_last(s: Seq<char>, p: Seq<char>) -> Seq<char> {
    match rfind_from(s, p, s.len() as int) {
        Some(j) => s.skip(j + p.len()),
        None => s,
    }
}

/// The issue on a trimmed `dart analyze` line of the form
/// `severity - message at path:line:col - rule`: the file is what follows
/// ` at ` up to the first ` - `, the rule what follows the last ` - `, and the
/// message what follows the first space before ` at `.
pub open spec fn dart_issue(t: Seq<char>) -> Option<DartIssue> {
    match find_from(t, " at "@, 0) {
        None => None,
        Some(k) => {
            let before = t.take(k);
            let after = t.skip(k + 4);
            let message = trim(after_first(before, " "@));
            let file = trim(before_first(after, " - "@));
            let rule = trim(after_last(after, " - "@));
            Some(
                DartIssue {
                    file,
                    is_error: starts_with(before, "error"@),
                    text: rule + ": "@ + message,
                },
            )
        },
    }
}

/// A `dart analyze` line holding ` at ` gives an issue, and the issue is an
/// error exactly when the line starts with `error`.
pub proof fn law_dart_issue_severity(t: Seq<char>)
    requires
        contains(t, " at "@),
    ensures
        dart_issue(t) is Some,
        dart_issue(t)->0.is_error <==> starts_with(t, "error"@),
{
    reveal_strlit(" at ");
    reveal_strlit("error");
    let i = choose|i: int| occurs_at(t, " at "@, i);
    lemma_find_from(t, " at "@, 0, i);
    let k = find_from(t, " at "@, 0)->0;
    assert(t[k] == ' ') by {
        assert(t.subrange(k, k + 4)[0] == t[k]);
    }
    let before = t.take(k);
    if k >= 5 {
        assert(before.take(5) =~= t.take(5));
    } else {
        assert(!starts_with(t, "error"@)) by {
            if starts_with(t, "error"@) {
                assert(t.take(5)[k] == t[k]);
            }
        }
    }
}

/// The issues on the trimmed lines `ts`, in order (summary lines hold none).
pub open spec fn dart_issues(ts: Seq<Seq<char>>) -> Seq<DartIssue>
    decreases ts.len(),
{
    if ts.len() == 0 {
        Seq::empty()
    } else {
        let r = dart_issues(ts.drop_last());
        let t = ts.last();
        if is_analyze_summary(t) {
            r
        } else {
            match dart_issue(t) {
                Some(x) => r.push(x),
                None => r,
            }
        }
    }
}

/// The issues of one file.
pub struct FileTexts {
    pub file: Seq<char>,
    pub texts: Seq<Seq<char>>,
    pub errors: nat,
}

/// Index of the first group at or after `i` for `file`.
pub open spec fn group_from(groups: Seq<FileTexts>, file: Seq<char>, i: int) -> Option<int>
    decreases groups.len() - i,
{
    if i < 0 || i >= groups.len() {
        None
    } else if groups[i].file == file {
        Some(i)
    } else {
        group_from(groups, file, i + 1)
    }
}

/// The groups with one more issue: added to its file's group, or to a new
/// group at the end.
pub open spec fn add_dart_issue(groups: Seq<FileTexts>, x: DartIssue) -> Seq<FileTexts> {
    let extra: nat = if x.is_error {
        1
    } else {
        0
    };
    match group_from(groups, x.file, 0) {
        Some(i) => groups.update(
            i,
            FileTexts { file: x.file, texts: groups[i].texts.push(x.text), errors: groups[i].errors + extra },
        ),
        None => groups.push(FileTexts { file: x.file, texts: seq![x.text], errors: extra }),
    }
}

/// The issues grouped by file, files in order of first appearance.
pub open spec fn dart_groups(issues: Seq<DartIssue>) -> Seq<FileTexts>
    decreases issues.len(),
{
    if issues.len() == 0 {
        Seq::empty()
    } else {
        add_dart_issue(dart_groups(issues.drop_last()), issues.last())
    }
}

/// The texts of the issues in `file`, in order.
pub open spec fn texts_in(issues: Seq<DartIssue>, file: Seq<char>) -> Seq<Seq<char>>
    decreases issues.len(),
{
    if issues.len() == 0 {
        Seq::empty()
    } else {
        let r = texts_in(issues.drop_last(), file);
        if issues.last().file == file {
            r.push(issues.last().text)
        } else {
            r
        }
    }
}

/// The number of errors among the issues in `file`.
pub open spec fn errors_in(issues: Seq<DartIssue>, file: Seq<char>) -> nat
    decreases issues.len(),
{
    if issues.len() == 0 {
        0
    } else {
        errors_in(issues.drop_last(), file) + if issues.last().file == file && issues.last().is_error {
            1nat
        } else {
            0nat
        }
    }
}

/// No file has two groups.
pub open spec fn distinct_files(groups: Seq<FileTexts>) -> bool {
    forall|i: int, j: int| 0 <= i < j < groups.len() ==> (#[trigger] groups[i]).file != (#[trigger] groups[j]).file
}

/// A file none of the issues is in has no texts and no errors.
proof fn lemma_file_without_issues(issues: Seq<DartIssue>, file: Seq<char>)
    requires
        forall|k: int| 0 <= k < issues.len() ==> (#[trigger] issues[k]).file != file,
    ensures
        texts_in(issues, file) == Seq::<Seq<char>>::empty(),
        errors_in(issues, file) == 0,
    decreases issues.len(),
{
    if issues.len() > 0 {
        let p = issues.drop_last();
        assert forall|k: int| 0 <= k < p.len() implies (#[trigger] p[k]).file != file by {
            assert(p[k] == issues[k]);
        }
        lemma_file_without_issues(p, file);
        assert(issues[issues.len() - 1].file != file);
    }
}

/// Grouping `dart analyze` issues by file is a partition: one group per file
/// that has issues, holding that file's issue texts in order and the number
/// of its errors.
pub proof fn law_dart_groups(issues: Seq<DartIssue>)
    ensures
        distinct_files(dart_groups(issues)),
        forall|g: int|
            0 <= g < dart_groups(issues).len() ==> (#[trigger] dart_groups(issues)[g]).texts == texts_in(
                issues,
                dart_groups(issues)[g].file,
            ) && dart_groups(issues)[g].errors == errors_in(issues, dart_groups(issues)[g].file),
        forall|k: int|
            #![trigger issues[k]]
            0 <= k < issues.len() ==> exists|g: int|
                0 <= g < dart_groups(issues).len() && #[trigger] dart_groups(issues)[g].file == issues[k].file,
    decreases issues.len(),
{
    if issues.len() > 0 {
        let p = issues.drop_last();
        let x = issues.last();
        let g0 = dart_groups(p);
        let gs = dart_groups(issues);
        law_dart_groups(p);
        lemma_group_from(g0, x.file, 0);
        let extra: nat = if x.is_error {
            1
        } else {
            0
        };
        assert(texts_in(issues, x.file) == texts_in(p, x.file).push(x.text));
        assert(errors_in(issues, x.file) == errors_in(p, x.file) + extra);
        assert forall|f: Seq<char>| f != x.file implies texts_in(issues, f) == texts_in(p, f) && errors_in(issues, f)
            == errors_in(p, f) by {}
        match group_from(g0, x.file, 0) {
            Some(i) => {
                assert(gs == g0.update(
                    i,
                    FileTexts { file: x.file, texts: g0[i].texts.push(x.text), errors: g0[i].errors + extra },
                ));
                assert forall|a: int, b: int| 0 <= a < b < gs.len() implies (#[trigger] gs[a]).file != (
                #[trigger] gs[b]).file by {
                    assert(gs[a].file == g0[a].file && gs[b].file == g0[b].file);
                }
                assert forall|g: int| 0 <= g < gs.len() implies (#[trigger] gs[g]).texts == texts_in(issues, gs[g].file)
                    && gs[g].errors == errors_in(issues, gs[g].file) by {
                    if g != i {
                        assert(gs[g] == g0[g]);
                        if g < i {
                            assert(g0[g].file != g0[i].file);
                        } else {
                            assert(g0[i].file != g0[g].file);
                        }
                    }
                }
                assert forall|k: int| #![trigger issues[k]] 0 <= k < issues.len() implies exists|g: int|
                    0 <= g < gs.len() && #[trigger] gs[g].file == issues[k].file by {
                    if k < p.len() {
                        assert(issues[k] == p[k]);
                        let g = choose|g: int| 0 <= g < g0.len() && #[trigger] g0[g].file == p[k].file;
                        assert(gs[g].file == g0[g].file);
                    } else {
                        assert(gs[i].file == issues[k].file);
                    }
                }
            },
            None => {
                let ng = FileTexts { file: x.file, texts: seq![x.text], errors: extra };
                assert(gs == g0.push(ng));
                assert forall|k: int| 0 <= k < p.len() implies (#[trigger] p[k]).file != x.file by {
                    let g = choose|g: int| 0 <= g < g0.len() && #[trigger] g0[g].file == p[k].file;
                    assert(g0[g].file != x.file);
                }
                lemma_file_without_issues(p, x.file);
                assert(texts_in(issues, x.file) =~= seq![x.text]);
                assert forall|a: int, b: int| 0 <= a < b < gs.len() implies (#[trigger] gs[a]).file != (
                #[trigger] gs[b]).file by {
                    assert(gs[a] == g0[a]);
                    if b < g0.len() {
                        assert(gs[b] == g0[b]);
                    }
                }
                assert forall|g: int| 0 <= g < gs.len() implies (#[trigger] gs[g]).texts == texts_in(issues, gs[g].file)
                    && gs[g].errors == errors_in(issues, gs[g].file) by {
                    if g < g0.len() {
                        assert(gs[g] == g0[g]);
                    }
                }
                assert forall|k: int| #![trigger issues[k]] 0 <= k < issues.len() implies exists|g: int|
                    0 <= g < gs.len() && #[trigger] gs[g].file == issues[k].file by {
                    if k < p.len() {
                        assert(issues[k] == p[k]);
                        let g = choose|g: int| 0 <= g < g0.len() && #[trigger] g0[g].file == p[k].file;
                        assert(gs[g] == g0[g]);
                    } else {
                        assert(gs[g0.len() as int].file == issues[k].file);
                    }
                }
            },
        }
    }
}

/// An issue line of a group: indented, with `(xN)` when it occurs `N > 1` times.
pub open spec fn counted_line(text: Seq<char>, count: nat) -> Seq<char> {
    "  "@ + text + if count > 1 {
        " (x"@ + decimal(count) + ")"@
    } else {
        Seq::empty()
    }
}

/// The order in which a file's distinct issue texts are listed: alphabetical.
pub open spec fn text_order(t: Seq<(Seq<char>, nat)>) -> Seq<int> {
    key_order::<Alphabetical>(t.map_values(|e: (Seq<char>, nat)| e.0))
}

/// A file's distinct issue texts are each listed once, in alphabetical order.
pub proof fn law_text_order(t: Seq<(Seq<char>, nat)>)
    ensures
        text_order(t).len() == t.len(),
        text_order(t).no_duplicates(),
        forall|k: int| 0 <= k < t.len() ==> 0 <= #[trigger] text_order(t)[k] < t.len(),
        forall|i: int, j: int|
            0 <= i < j < t.len() ==> lex_le(t[#[trigger] text_order(t)[i]].0, t[#[trigger] text_order(t)[j]].0),
{
    let keys = t.map_values(|e: (Seq<char>, nat)| e.0);
    lemma_key_order::<Alphabetical>(keys);
    assert forall|i: int, j: int| 0 <= i < j < t.len() implies lex_le(
        t[#[trigger] text_order(t)[i]].0,
        t[#[trigger] text_order(t)[j]].0,
    ) by {
        assert(keys[text_order(t)[i]] == t[text_order(t)[i]].0);
        assert(keys[text_order(t)[j]] == t[text_order(t)[j]].0);
    }
}

/// The order in which files are listed: more errors first, ties in order of
/// first appearance.
pub open spec fn file_order(groups: Seq<FileTexts>) -> Seq<int> {
    key_order::<MostFirst>(groups.map_values(|g: FileTexts| g.errors))
}

/// Every file is listed once, files with more errors before files with fewer.
pub proof fn law_file_order(groups: Seq<FileTexts>)
    ensures
        file_order(groups).len() == groups.len(),
        file_order(groups).no_duplicates(),
        forall|k: int| 0 <= k < groups.len() ==> 0 <= #[trigger] file_order(groups)[k] < groups.len(),
        forall|i: int, j: int|
            0 <= i < j < groups.len() ==> groups[#[trigger] file_order(groups)[i]].errors >= groups[#[trigger] file_order(
                groups,
            )[j]].errors,
{
    let keys = groups.map_values(|g: FileTexts| g.errors);
    lemma_key_order::<MostFirst>(keys);
    assert forall|i: int, j: int| 0 <= i < j < groups.len() implies groups[#[trigger] file_order(groups)[i]].errors
        >= groups[#[trigger] file_order(groups)[j]].errors by {
        assert(keys[file_order(groups)[i]] == groups[file_order(groups)[i]].errors);
        assert(keys[file_order(groups)[j]] == groups[file_order(groups)[j]].errors);
    }
}

/// The lines for one file: `path (N issues)`, then its distinct issues in
/// alphabetical order.
pub open spec fn dart_group_lines(g: FileTexts) -> Seq<Seq<char>> {
    let t = tally(g.texts);
    let order = text_order(t);
    seq![g.file + " ("@ + decimal(g.texts.len()) + " issues)"@] + order.map_values(
        |k: int| counted_line(t[k].0, t[k].1),
    )
}

/// The output of `dart analyze` after filtering: the issue-count line, then
/// the issues grouped by file (files with more errors first, ties in order
/// of first appearance), each file's distinct issues alphabetically with
/// their repeat count; with no issue, the count line or `"ok"`.
pub open spec fn dart_analyze_output(s: Seq<char>) -> Seq<char> {
    let ts = trimmed_lines(s);
    let summary = last_only(select(ts, |t: Seq<char>| is_analyze_summary(t)));
    let groups = dart_groups(dart_issues(ts));
    if groups.len() == 0 {
        if summary.len() == 0 {
            "ok"@
        } else {
            summary[0]
        }
    } else {
        let order = file_order(groups);
        join(summary + order.map_values(|k: int| dart_group_lines(groups[k])).flatten(), "\n"@)
    }
}

/// An issue parsed from a `dart analyze` line.
pub struct DartIssueLine {
    pub file: Vec<char>,
    pub is_error: bool,
    pub text: Vec<char>,
}

impl View for DartIssueLine {
    type V = DartIssue;

    open spec fn view(&self) -> DartIssue {
        DartIssue { file: self.file@, is_error: self.is_error, text: self.text@ }
    }
}

/// The issue on the trimmed `dart analyze` line `t`, if it names one.
pub fn parse_dart_issue(t: &Vec<char>) -> (r: Option<DartIssueLine>)
    ensures
        r matches Some(x) ==> dart_issue(t@) == Some(x@),
        r is None ==> dart_issue(t@) is None,
{
    proof {
        reveal_strlit(" at ");
        reveal_strlit(" ");
        reveal_strlit(" - ");
    }
    let at = line_of(" at ");
    assert(at@.len() == 4);
    let found = find(t, &at);
    let k = match found {
        Some(k) => k,
        None => return None,
    };
    assert(occurs_at(t@, at@, k as int));
    let n = t.len();
    assert(k + 4 <= n);
    let before = sub_chars(t, 0, k);
    let after = sub_chars(t, k + 4, t.len());
    assert(before@ =~= t@.take(k as int));
    assert(after@ =~= t@.skip(k + 4));
    let msg = match find(&before, &line_of(" ")) {
        Some(j) => sub_chars(&before, j + 1, before.len()),
        None => before.clone(),
    };
    assert(msg@ =~= after_first(before@, " "@));
    let file = match find(&after, &line_of(" - ")) {
        Some(j) => sub_chars(&after, 0, j),
        None => after.clone(),
    };
    assert(file@ =~= before_first(after@, " - "@));
    let rule = match rfind(&after, &line_of(" - ")) {
        Some(j) => sub_chars(&after, j + 3, after.len()),
        None => after.clone(),
    };
    assert(rule@ =~= after_last(after@, " - "@));
    let mut text = trim_chars(&rule);
    append_str(&mut text, ": ");
    append_chars(&mut text, &trim_chars(&msg));
    Some(DartIssueLine { file: trim_chars(&file), is_error: begins(&before, "error"), text })
}

/// The issues of one file, as the `dart analyze` filter collects them.
pub struct FileGroup {
    pub file: Vec<char>,
    pub texts: Vec<Vec<char>>,
    pub errors: usize,
}

impl View for FileGroup {
    type V = FileTexts;

    open spec fn view(&self) -> FileTexts {
        FileTexts { file: self.file@, texts: self.texts.deep_view(), errors: self.errors as nat }
    }
}

/// The views of the groups.
pub open spec fn groups_view(v: Seq<FileGroup>) -> Seq<FileTexts> {
    v.map_values(|g: FileGroup| g@)
}

/// Position of the group for `file`.
fn group_position(groups: &Vec<FileGroup>, file: &Vec<char>) -> (r: Option<usize>)
    ensures
        r matches Some(i) ==> i < groups@.len() && group_from(groups_view(groups@), file@, 0) == Some(i as int),
        r is None ==> group_from(groups_view(groups@), file@, 0) is None,
{
    let ghost gv = groups_view(groups@);
    for i in 0..groups.len()
        invariant
            gv == groups_view(groups@),
            group_from(gv, file@, 0) == group_from(gv, file@, i as int),
    {
        if chars_eq(&groups[i].file, file) {
            return Some(i);
        }
    }
    assert(group_from(gv, file@, groups@.len() as int) is None);
    None
}

proof fn lemma_group_from(groups: Seq<FileTexts>, file: Seq<char>, j: int)
    requires
        0 <= j,
    ensures
        group_from(groups, file, j) matches Some(i) ==> j <= i < groups.len() && groups[i].file == file,
        group_from(groups, file, j) is None ==> forall|i: int| j <= i < groups.len() ==> groups[i].file != file,
    decreases groups.len() - j,
{
    if j < groups.len() && groups[j].file != file {
        lemma_group_from(groups, file, j + 1);
    }
}

/// Adds an issue to its file's group, or to a new group at the end.
pub fn add_issue(groups: &mut Vec<FileGroup>, x: DartIssueLine, Ghost(bound): Ghost<nat>)
    requires
        bound < usize::MAX,
        forall|k: int| 0 <= k < old(groups)@.len() ==> (#[trigger] old(groups)@[k]).errors <= old(groups)@[k].texts@.len() <= bound,
    ensures
        groups_view(final(groups)@) == add_dart_issue(groups_view(old(groups)@), x@),
        forall|k: int| 0 <= k < final(groups)@.len() ==> (#[trigger] final(groups)@[k]).errors <= final(groups)@[k].texts@.len() <= bound + 1,
{
    let ghost gv = groups_view(groups@);
    let ghost xv = x@;
    let ghost old_groups = groups@;
    proof {
        lemma_group_from(gv, xv.file, 0);
    }
    match group_position(groups, &x.file) {
        Some(i) => {
            let mut g = groups.remove(i);
            let ghost g0 = g;
            assert(g0 == old_groups[i as int]);
            assert(gv[i as int] == g0@);
            proof {
                lemma_deep_index(g.texts);
            }
            push_line(&mut g.texts, x.text);
            proof {
                lemma_deep_index(g.texts);
            }
            if x.is_error {
                g.errors = g.errors + 1;
            }
            assert(g@.texts == g0@.texts.push(xv.text));
            assert(g@ == (FileTexts { file: xv.file, texts: g0@.texts.push(xv.text), errors: g0@.errors + if xv.is_error { 1nat } else { 0nat } }));
            groups.insert(i, g);
            assert(groups@ =~= old_groups.update(i as int, g));
            assert(groups_view(groups@) =~= add_dart_issue(gv, xv));
            assert forall|k: int| 0 <= k < groups@.len() implies (#[trigger] groups@[k]).errors <= groups@[k].texts@.len() <= bound + 1 by {
                if k != i {
                    assert(groups@[k] == old_groups[k]);
                }
            }
        },
        None => {
            let mut texts: Vec<Vec<char>> = Vec::new();
            assert(texts.deep_view() =~= Seq::<Seq<char>>::empty());
            push_line(&mut texts, x.text);
            proof {
                lemma_deep_index(texts);
            }
            assert(texts@.len() == 1);
            let g = FileGroup { file: x.file, texts, errors: if x.is_error { 1 } else { 0 } };
            assert(g@ == (FileTexts { file: xv.file, texts: seq![xv.text], errors: if xv.is_error { 1nat } else { 0nat } }));
            groups.push(g);
            assert(groups_view(groups@) =~= add_dart_issue(gv, xv));
            assert forall|k: int| 0 <= k < groups@.len() implies (#[trigger] groups@[k]).errors <= groups@[k].texts@.len() <= bound + 1 by {
                if k < old_groups.len() {
                    assert(groups@[k] == old_groups[k]);
                } else {
                    assert(groups@[k] == g);
                }
            }
        },
    }
}

/// The tally held by parallel vectors of texts and counts.
pub open spec fn tally_view(ds: Seq<Vec<char>>, cs: Seq<usize>) -> Seq<(Seq<char>, nat)> {
    Seq::new(ds.len(), |i: int| (ds[i]@, cs[i] as nat))
}

/// Distinct texts in order of first appearance, with their numbers of occurrences.
pub fn tally_texts(texts: &Vec<Vec<char>>) -> (r: (Vec<Vec<char>>, Vec<usize>))
    ensures
        r.0@.len() == r.1@.len(),
        tally_view(r.0@, r.1@) == tally(texts.deep_view()),
{
    let ghost tv = texts.deep_view();
    proof {
        lemma_deep_index(*texts);
    }
    let mut ds: Vec<Vec<char>> = Vec::new();
    let mut cs: Vec<usize> = Vec::new();
    for i in 0..texts.len()
        invariant
            tv == texts.deep_view(),
            tv.len() == texts@.len(),
            forall|k: int| 0 <= k < texts@.len() ==> #[trigger] tv[k] == texts@[k]@,
            ds@.len() == cs@.len(),
            tally_view(ds@, cs@) == tally(tv.take(i as int)),
            forall|k: int| 0 <= k < cs@.len() ==> #[trigger] cs@[k] <= i,
    {
        let ghost t0 = tally_view(ds@, cs@);
        proof {
            assert(tv.take(i + 1).drop_last() =~= tv.take(i as int));
            assert(tv.take(i + 1).last() == texts@[i as int]@);
            lemma_tally_from(t0, texts@[i as int]@, 0);
        }
        let x = &texts[i];
        let mut pos: usize = 0;
        while pos < ds.len() && !chars_eq(&ds[pos], x)
            invariant
                pos <= ds@.len(),
                ds@.len() == cs@.len(),
                t0 == tally_view(ds@, cs@),
                tally_from(t0, x@, 0) == tally_from(t0, x@, pos as int),
            decreases ds@.len() - pos,
        {
            pos = pos + 1;
        }
        if pos < ds.len() {
            assert(tally_from(t0, x@, pos as int) == Some(pos as int));
            let ghost cs0 = cs@;
            cs[pos] = cs[pos] + 1;
            assert(tally_view(ds@, cs@) =~= t0.update(pos as int, (x@, t0[pos as int].1 + 1)));
            assert forall|k: int| 0 <= k < cs@.len() implies #[trigger] cs@[k] <= i + 1 by {
                if k != pos {
                    assert(cs@[k] == cs0[k]);
                }
            }
        } else {
            assert(tally_from(t0, x@, pos as int) is None);
            let ghost cs0 = cs@;
            ds.push(x.clone());
            cs.push(1);
            assert(tally_view(ds@, cs@) =~= t0.push((x@, 1nat)));
            assert forall|k: int| 0 <= k < cs@.len() implies #[trigger] cs@[k] <= i + 1 by {
                if k < cs0.len() {
                    assert(cs@[k] == cs0[k]);
                }
            }
        }
    }
    assert(tv.take(texts.len() as int) =~= tv);
    (ds, cs)
}

/// `counted_line(text, count)`.
fn counted_line_chars(text: &Vec<char>, count: usize) -> (r: Vec<char>)
    ensures
        r@ == counted_line(text@, count as nat),
{
    let mut r = line_of("  ");
    append_chars(&mut r, text);
    if count > 1 {
        append_str(&mut r, " (x");
        append_chars(&mut r, &decimal_chars(count));
        append_str(&mut r, ")");
    } else {
        assert(r@ =~= r@ + Seq::<char>::empty());
    }
    r
}

/// `dart_group_lines(g)`.
fn dart_group_lines_of(g: &FileGroup) -> (r: Vec<Vec<char>>)
    ensures
        r.deep_view() == dart_group_lines(g@),
{
    let mut head = g.file.clone();
    append_str(&mut head, " (");
    append_chars(&mut head, &decimal_chars(g.texts.len()));
    append_str(&mut head, " issues)");
    proof {
        lemma_deep_index(g.texts);
    }
    let (ds, cs) = tally_texts(&g.texts);
    let ghost t = tally(g.texts.deep_view());
    let mut keys: Vec<Alphabetical> = Vec::new();
    for k in 0..ds.len()
        invariant
            keys@.len() == k,
            forall|j: int| 0 <= j < k ==> (#[trigger] keys@[j]).0@ == ds@[j]@,
    {
        keys.push(Alphabetical(ds[k].clone()));
    }
    assert(key_views(keys@) =~= t.map_values(|e: (Seq<char>, nat)| e.0));
    let order = sort_positions(&keys);
    let ghost ov = order@.map_values(|i: usize| i as int);
    let mut lines: Vec<Vec<char>> = Vec::new();
    let ghost hv = head@;
    push_line(&mut lines, head);
    for k in 0..order.len()
        invariant
            order@.len() == ds@.len(),
            ds@.len() == cs@.len(),
            forall|j: int| 0 <= j < order@.len() ==> #[trigger] order@[j] < ds@.len(),
            ov == order@.map_values(|i: usize| i as int),
            t == tally_view(ds@, cs@),
            lines.deep_view() == seq![hv] + ov.take(k as int).map_values(|q: int| counted_line(t[q].0, t[q].1)),
    {
        let idx = order[k];
        let line = counted_line_chars(&ds[idx], cs[idx]);
        push_line(&mut lines, line);
        assert(ov.take(k + 1).map_values(|q: int| counted_line(t[q].0, t[q].1)) =~= ov.take(k as int).map_values(
            |q: int| counted_line(t[q].0, t[q].1),
        ).push(counted_line(t[idx as int].0, t[idx as int].1)));
        assert(lines.deep_view() =~= seq![hv] + ov.take(k + 1).map_values(|q: int| counted_line(t[q].0, t[q].1)));
    }
    assert(ov.take(order@.len() as int) =~= ov);
    lines
}

/// Groups `dart analyze` issues by file, files with more errors first, and
/// collapses repeated issues.
pub fn filter_dart_analyze(output: &str) -> (r: String)
    ensures
        r@ == dart_analyze_output(output@),
{
    let content = content_of(output);
    let ghost ts = trimmed_lines(output@);
    let ghost p_summary = |t: Seq<char>| is_analyze_summary(t);
    proof {
        lemma_deep_index(content);
    }
    let mut summary: Option<Vec<char>> = None;
    let mut groups: Vec<FileGroup> = Vec::new();
    for i in 0..content.len()
        invariant
            ts == trimmed_lines(output@),
            ts.len() == content@.len(),
            content.deep_view() == content_lines(output@),
            content.deep_view().len() == content@.len(),
            forall|k: int| 0 <= k < content@.len() ==> #[trigger] content.deep_view()[k] == content@[k]@,
            p_summary == (|t: Seq<char>| is_analyze_summary(t)),
            summary is None ==> select(ts.take(i as int), p_summary).len() == 0,
            summary matches Some(c) ==> last_only(select(ts.take(i as int), p_summary)) == seq![c@],
            groups_view(groups@) == dart_groups(dart_issues(ts.take(i as int))),
            forall|k: int| 0 <= k < groups@.len() ==> (#[trigger] groups@[k]).errors <= groups@[k].texts@.len() <= i,
    {
        proof {
            lemma_select_step(ts, p_summary, i as int);
            assert(ts.take(i + 1).drop_last() =~= ts.take(i as int));
        }
        let t = trim_chars(&content[i]);
        assert(ts.take(i + 1).last() == t@);
        if has(&t, "issues found") || has(&t, "No issues found") {
            summary = Some(t);
        } else {
            match parse_dart_issue(&t) {
                Some(x) => {
                    let ghost xv = x@;
                    let ghost prev = dart_issues(ts.take(i as int));
                    assert(dart_issues(ts.take(i + 1)) == prev.push(xv));
                    assert(prev.push(xv).drop_last() =~= prev);
                    add_issue(&mut groups, x, Ghost(i as nat));
                },
                None => {},
            }
        }
    }
    assert(ts.take(content.len() as int) =~= ts);
    let ghost gs = dart_groups(dart_issues(ts));
    if groups.len() == 0 {
        return match summary {
            Some(c) => string_of(&c),
            None => String::from_str("ok"),
        };
    }
    let mut keys: Vec<MostFirst> = Vec::new();
    for k in 0..groups.len()
        invariant
            keys@.len() == k,
            forall|j: int| 0 <= j < k ==> (#[trigger] keys@[j]).0 == groups@[j].errors,
    {
        keys.push(MostFirst(groups[k].errors));
    }
    assert(key_views(keys@) =~= gs.map_values(|g: FileTexts| g.errors));
    let order = sort_positions(&keys);
    let ghost ov = order@.map_values(|i: usize| i as int);
    let ghost per = ov.map_values(|k: int| dart_group_lines(gs[k]));
    let mut lines: Vec<Vec<char>> = Vec::new();
    match summary {
        Some(c) => push_line(&mut lines, c),
        None => {},
    }
    let ghost head = lines.deep_view();
    assert(head == last_only(select(ts, p_summary)));
    for k in 0..order.len()
        invariant
            order@.len() == groups@.len(),
            forall|j: int| 0 <= j < order@.len() ==> #[trigger] order@[j] < groups@.len(),
            ov == order@.map_values(|i: usize| i as int),
            gs == groups_view(groups@),
            per == ov.map_values(|k: int| dart_group_lines(gs[k])),
            lines.deep_view() == head + per.take(k as int).flatten(),
    {
        let idx = order[k];
        let part = dart_group_lines_of(&groups[idx]);
        proof {
            per.take(k as int).lemma_flatten_push(per[k as int]);
            assert(per.take(k + 1) =~= per.take(k as int).push(per[k as int]));
        }
        extend_lines(&mut lines, part);
    }
    assert(per.take(order@.len() as int) =~= per);
    let v = join_chars(&lines, "\n");
    string_of(&v)
}

} // verus!
