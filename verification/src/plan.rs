//! What running a tool command means: the command line, the label, and how
//! its output is turned into a summary.
use vstd::prelude::*;
use crate::bun::{build_class, bun_build_output, bun_create_output, bun_install_output, bun_pm_output, bun_run_output, create_rule, filter_bun_build, filter_bun_create, filter_bun_install, filter_bun_pm, filter_bun_run, install_rule, pm_rule, run_lines, BuildLine, RunLine};
use crate::dart::{dart_analyze_output, dart_group_lines, dart_groups, dart_issues, dart_run_output, dart_run_rule, dart_test_counts_fit, dart_test_output, file_order, filter_dart_analyze, filter_dart_pub, filter_dart_run, filter_dart_test_checked, is_analyze_summary, last_only, law_file_order, pub_class, pub_output, trimmed_lines, PubLine};
use crate::flutter::{filter_flutter_analyze, filter_flutter_build, filter_flutter_pub, filter_flutter_test, flutter_analyze_output, flutter_build_class, flutter_build_output, flutter_group_lines, flutter_groups, flutter_issues, flutter_test_output, is_flutter_summary, law_location_order, location_order, FlutterBuildLine};
use crate::select::{content_lines, lemma_content_not_blank, lemma_ok_or_join_nonempty, lemma_select_from, lemma_selected_not_blank, section, select};
use crate::text::{all_ws, append_chars, append_str, chars_of, join, join_chars, lemma_deep_index, lemma_join_first, lemma_trim_not_blank, lowered, string_of};

verus! {

broadcast use vstd::string::group_string_axioms;

/// The filter that turns a command's captured output into its summary.
pub enum OutputFilter {
    BunInstall,
    BunPm,
    BunBuild,
    BunRun,
    BunCreate,
    DartPub,
    DartAnalyze,
    DartTest,
    DartRun,
    FlutterPub,
    FlutterAnalyze,
    FlutterTest,
    FlutterBuild,
}

/// How the output of a planned command is handled.
pub enum OutputMode {
    /// Captured whole, then passed through a filter.
    Filtered(OutputFilter),
    /// Streamed line by line through the `bun test` block handler.
    BunTestStream,
}

/// A tool command to run, and how to summarise its output.
pub struct CommandPlan {
    /// The program to run.
    pub program: String,
    /// Its arguments: the subcommand, then the user's arguments.
    pub args: Vec<String>,
    /// The label the run is recorded under.
    pub label: String,
    /// The user's arguments joined with spaces, as recorded with the run.
    pub args_display: String,
    /// How the output is summarised.
    pub mode: OutputMode,
    /// Label under which the raw output is also saved, when it is.
    pub tee: Option<String>,
    /// The line announcing the command on stderr in verbose mode.
    pub announce: Option<String>,
}

/// The user's arguments joined with spaces.
pub open spec fn args_line(args: Seq<Seq<char>>) -> Seq<char> {
    join(args, " "@)
}

/// `p` runs `program subcommand args...`, is recorded as `label`, summarises its
/// output as `mode` says, saves its raw output under `label` exactly when `tee`,
/// and in verbose mode (`verbose > 0`) announces
/// `Running: <program> <subcommand> <args joined with spaces>`.
pub open spec fn plans(
    p: CommandPlan,
    program: Seq<char>,
    subcommand: Seq<char>,
    args: Seq<Seq<char>>,
    label: Seq<char>,
    mode: OutputMode,
    tee: bool,
    verbose: u8,
) -> bool {
    &&& p.program@ == program
    &&& p.args.deep_view() == seq![subcommand] + args
    &&& p.label@ == label
    &&& p.args_display@ == args_line(args)
    &&& p.mode == mode
    &&& (p.tee matches Some(t) ==> t@ == label)
    &&& (p.tee is Some <==> tee)
    &&& (p.announce matches Some(a) ==> a@ == "Running: "@ + program + " "@ + subcommand + " "@
        + args_line(args))
    &&& (p.announce is Some <==> verbose > 0)
}

/// Copies of the strings.
pub fn copy_strings(args: &[String]) -> (r: Vec<String>)
    ensures
        r.deep_view() == args.deep_view(),
{
    let mut r: Vec<String> = Vec::new();
    for i in 0..args.len()
        invariant
            r@.len() == i,
            r.deep_view() == args.deep_view().take(i as int),
    {
        let ghost before = r;
        let c = args[i].clone();
        assert(c@ == args@[i as int]@);
        r.push(c);
        assert forall|j: int| 0 <= j <= i implies #[trigger] r.deep_view()[j] == args.deep_view()[j] by {
            if j < i {
                assert(r@[j] == before@[j]);
                assert(before.deep_view()[j] == args.deep_view().take(i as int)[j]);
            }
        }
        assert(r.deep_view() =~= args.deep_view().take(i + 1));
    }
    assert(args.deep_view().take(args.len() as int) =~= args.deep_view());
    r
}

/// The characters of each string.
pub fn strings_chars(args: &[String]) -> (r: Vec<Vec<char>>)
    ensures
        r.deep_view() == args.deep_view(),
{
    let mut r: Vec<Vec<char>> = Vec::new();
    for i in 0..args.len()
        invariant
            r.deep_view() == args.deep_view().take(i as int),
    {
        let ghost before = r;
        let c = chars_of(args[i].as_str());
        r.push(c);
        proof {
            lemma_deep_index(before);
            lemma_deep_index(r);
        }
        assert(r.deep_view() =~= args.deep_view().take(i + 1));
    }
    assert(args.deep_view().take(args.len() as int) =~= args.deep_view());
    r
}

/// The plan for running `program subcommand args...`.
pub fn make_plan(
    program: &str,
    subcommand: &str,
    args: &[String],
    label: &str,
    mode: OutputMode,
    tee: bool,
    verbose: u8,
) -> (p: CommandPlan)
    ensures
        plans(p, program@, subcommand@, args.deep_view(), label@, mode, tee, verbose),
{
    let mut argv: Vec<String> = Vec::new();
    argv.push(String::from_str(subcommand));
    let mut rest = copy_strings(args);
    argv.append(&mut rest);
    assert(argv.deep_view() =~= seq![subcommand@] + args.deep_view());
    let arg_chars = strings_chars(args);
    let joined = join_chars(&arg_chars, " ");
    let announce = if verbose > 0 {
        let mut a = chars_of("Running: ");
        append_str(&mut a, program);
        append_str(&mut a, " ");
        append_str(&mut a, subcommand);
        append_str(&mut a, " ");
        append_chars(&mut a, &joined);
        Some(string_of(&a))
    } else {
        None
    };
    CommandPlan {
        program: String::from_str(program),
        args: argv,
        label: String::from_str(label),
        args_display: string_of(&joined),
        mode,
        tee: if tee {
            Some(String::from_str(label))
        } else {
            None
        },
        announce,
    }
}

/// What the filter `f` makes of the output `s`.
pub open spec fn filter_output(f: OutputFilter, s: Seq<char>) -> Seq<char> {
    match f {
        OutputFilter::BunInstall => bun_install_output(s),
        OutputFilter::BunPm => bun_pm_output(s),
        OutputFilter::BunBuild => bun_build_output(s),
        OutputFilter::BunRun => bun_run_output(s),
        OutputFilter::BunCreate => bun_create_output(s),
        OutputFilter::DartPub => pub_output(s),
        OutputFilter::DartAnalyze => dart_analyze_output(s),
        OutputFilter::DartTest => dart_test_output(s),
        OutputFilter::DartRun => dart_run_output(s),
        OutputFilter::FlutterPub => pub_output(s),
        OutputFilter::FlutterAnalyze => flutter_analyze_output(s),
        OutputFilter::FlutterTest => flutter_test_output(s),
        OutputFilter::FlutterBuild => flutter_build_output(s),
    }
}

/// Whether the filter `f` can summarise `s`: only the `dart test` counts can
/// exceed what a `usize` holds.
pub open spec fn filter_applies(f: OutputFilter, s: Seq<char>) -> bool {
    f == OutputFilter::DartTest ==> dart_test_counts_fit(s)
}

/// Runs the filter `f` on a command's output; `None` when its counts overflow.
pub fn apply_filter(f: OutputFilter, output: &str) -> (r: Option<String>)
    ensures
        r is Some <==> filter_applies(f, output@),
        r matches Some(s) ==> s@ == filter_output(f, output@),
{
    match f {
        OutputFilter::BunInstall => Some(filter_bun_install(output)),
        OutputFilter::BunPm => Some(filter_bun_pm(output)),
        OutputFilter::BunBuild => Some(filter_bun_build(output)),
        OutputFilter::BunRun => Some(filter_bun_run(output)),
        OutputFilter::BunCreate => Some(filter_bun_create(output)),
        OutputFilter::DartPub => Some(filter_dart_pub(output)),
        OutputFilter::DartAnalyze => Some(filter_dart_analyze(output)),
        OutputFilter::DartTest => filter_dart_test_checked(output),
        OutputFilter::DartRun => Some(filter_dart_run(output)),
        OutputFilter::FlutterPub => Some(filter_flutter_pub(output)),
        OutputFilter::FlutterAnalyze => Some(filter_flutter_analyze(output)),
        OutputFilter::FlutterTest => Some(filter_flutter_test(output)),
        OutputFilter::FlutterBuild => Some(filter_flutter_build(output)),
    }
}

/// `flutter pub` output is summarised exactly as `dart pub` output.
pub proof fn law_flutter_pub_is_dart_pub(s: Seq<char>)
    ensures
        filter_output(OutputFilter::FlutterPub, s) == filter_output(OutputFilter::DartPub, s),
{
}

/// Lines selected from the trimmed content lines of `s` are not blank.
proof fn lemma_trimmed_selected(s: Seq<char>, keep: spec_fn(Seq<char>) -> bool)
    ensures
        forall|k: int|
            0 <= k < select(trimmed_lines(s), keep).len() ==> !all_ws(#[trigger] select(trimmed_lines(s), keep)[k]),
{
    let ts = trimmed_lines(s);
    lemma_content_not_blank(s);
    lemma_select_from(ts, keep);
    assert forall|k: int| 0 <= k < select(ts, keep).len() implies !all_ws(#[trigger] select(ts, keep)[k]) by {
        let j = choose|j: int| 0 <= j < ts.len() && ts[j] == select(ts, keep)[k];
        lemma_trim_not_blank(content_lines(s)[j]);
    }
}

/// An analysis summary: the count line (or none), then each group's lines.
proof fn lemma_grouped_summary_nonempty(summary: Seq<Seq<char>>, per: Seq<Seq<Seq<char>>>)
    requires
        summary.len() > 0 ==> summary[0].len() > 0,
        summary.len() > 0 || (per.len() > 0 && per[0].len() > 0 && per[0][0].len() > 0),
    ensures
        join(summary + per.flatten(), "\n"@).len() > 0,
{
    let l = summary + per.flatten();
    if summary.len() == 0 {
        assert(per.flatten() == per[0] + per.drop_first().flatten());
        assert(l[0] == per[0][0]);
    } else {
        assert(l[0] == summary[0]);
    }
    lemma_join_first(l, "\n"@);
}

/// Every filter answers with at least one character: when nothing is worth
/// keeping it still says so (`ok`, `finished`, or the counts).
pub proof fn law_filter_output_nonempty(f: OutputFilter, s: Seq<char>)
    ensures
        filter_output(f, s).len() > 0,
{
    reveal_strlit("ok");
    reveal_strlit("---");
    reveal_strlit("finished");
    reveal_strlit(" passed, ");
    reveal_strlit(" (");
    let ls = content_lines(s);
    lemma_content_not_blank(s);
    match f {
        OutputFilter::BunInstall => {
            let keep = |c: Seq<char>| install_rule(c, lowered(c));
            lemma_selected_not_blank(s, keep);
            lemma_ok_or_join_nonempty(select(ls, keep));
        },
        OutputFilter::BunPm => {
            let keep = |c: Seq<char>| pm_rule(c, lowered(c));
            lemma_selected_not_blank(s, keep);
            lemma_ok_or_join_nonempty(select(ls, keep));
        },
        OutputFilter::BunCreate => {
            let keep = |c: Seq<char>| create_rule(c, lowered(c));
            lemma_selected_not_blank(s, keep);
            lemma_ok_or_join_nonempty(select(ls, keep));
        },
        OutputFilter::DartRun => {
            let keep = |c: Seq<char>| dart_run_rule(lowered(c));
            lemma_selected_not_blank(s, keep);
            lemma_ok_or_join_nonempty(select(ls, keep));
        },
        OutputFilter::BunBuild => {
            let kept = select(ls, |c: Seq<char>| build_class(c) == BuildLine::Kept);
            let errors = select(ls, |c: Seq<char>| build_class(c) == BuildLine::Error);
            lemma_selected_not_blank(s, |c: Seq<char>| build_class(c) == BuildLine::Kept);
            let l = kept + section(errors);
            if kept.len() > 0 {
                assert(l[0] == kept[0]);
            } else if errors.len() > 0 {
                assert(l[0] == "---"@);
            }
            lemma_ok_or_join_nonempty(l);
        },
        OutputFilter::BunRun => {
            let echoes = run_lines(s, RunLine::Echo);
            let status = run_lines(s, RunLine::Status);
            let errors = run_lines(s, RunLine::Error);
            let warnings = run_lines(s, RunLine::Warning);
            if errors.len() > 0 || warnings.len() > 0 {
                lemma_selected_not_blank(s, |c: Seq<char>| crate::bun::run_class(c) == RunLine::Echo);
                lemma_selected_not_blank(s, |c: Seq<char>| crate::bun::run_class(c) == RunLine::Status);
                let l = echoes + status + section(errors) + section(warnings);
                if echoes.len() > 0 {
                    assert(l[0] == echoes[0]);
                } else if status.len() > 0 {
                    assert(l[0] == status[0]);
                } else {
                    assert(l[0] == "---"@);
                }
                lemma_join_first(l, "\n"@);
            }
        },
        OutputFilter::DartPub | OutputFilter::FlutterPub => {
            let problems = select(ls, |c: Seq<char>| pub_class(c) == PubLine::Problem);
            let changed = select(ls, |c: Seq<char>| pub_class(c) == PubLine::Changed);
            let outdated = select(ls, |c: Seq<char>| pub_class(c) == PubLine::Outdated);
            lemma_selected_not_blank(s, |c: Seq<char>| pub_class(c) == PubLine::Problem);
            lemma_selected_not_blank(s, |c: Seq<char>| pub_class(c) == PubLine::Changed);
            lemma_selected_not_blank(s, |c: Seq<char>| pub_class(c) == PubLine::Outdated);
            let l = problems + last_only(changed) + outdated;
            if problems.len() > 0 {
                assert(l[0] == problems[0]);
            } else if changed.len() > 0 {
                assert(l[0] == changed[changed.len() - 1]);
            } else if outdated.len() > 0 {
                assert(l[0] == outdated[0]);
            }
            lemma_ok_or_join_nonempty(l);
        },
        OutputFilter::DartTest => {
            let st = crate::dart::dart_test_final(s);
            let l = seq![crate::text::decimal(st.passed) + " passed, "@ + crate::text::decimal(st.failed) + " failed"@]
                + crate::select::with_separators(crate::dart::dart_test_reports(st));
            assert(l[0].len() > 0);
            lemma_join_first(l, "\n"@);
        },
        OutputFilter::FlutterTest => {
            let st = crate::flutter::flutter_test_fold(trimmed_lines(s));
            let l = seq![crate::text::decimal(st.passed) + " passed, "@ + crate::text::decimal(st.failed) + " failed"@]
                + crate::select::with_separators(crate::flutter::flutter_test_reports(st));
            assert(l[0].len() > 0);
            lemma_join_first(l, "\n"@);
        },
        OutputFilter::FlutterBuild => {
            let ts = trimmed_lines(s);
            let kept = select(ts, |t: Seq<char>| flutter_build_class(t) == FlutterBuildLine::Kept);
            let errors = select(ts, |t: Seq<char>| flutter_build_class(t) == FlutterBuildLine::Error);
            lemma_trimmed_selected(s, |t: Seq<char>| flutter_build_class(t) == FlutterBuildLine::Kept);
            let l = kept + section(errors);
            if kept.len() > 0 {
                assert(l[0] == kept[0]);
            } else if errors.len() > 0 {
                assert(l[0] == "---"@);
            }
            lemma_ok_or_join_nonempty(l);
        },
        OutputFilter::DartAnalyze => {
            let ts = trimmed_lines(s);
            let sel = select(ts, |t: Seq<char>| is_analyze_summary(t));
            let summary = last_only(sel);
            lemma_trimmed_selected(s, |t: Seq<char>| is_analyze_summary(t));
            if summary.len() > 0 {
                assert(summary[0] == sel[sel.len() - 1]);
            }
            let groups = dart_groups(dart_issues(ts));
            if groups.len() > 0 {
                let order = file_order(groups);
                law_file_order(groups);
                let per = order.map_values(|k: int| dart_group_lines(groups[k]));
                assert(per[0][0] == groups[order[0]].file + " ("@ + crate::text::decimal(
                    groups[order[0]].texts.len(),
                ) + " issues)"@);
                lemma_grouped_summary_nonempty(summary, per);
            }
        },
        OutputFilter::FlutterAnalyze => {
            let ts = trimmed_lines(s);
            let sel = select(ts, |t: Seq<char>| is_flutter_summary(t));
            let summary = last_only(sel);
            lemma_trimmed_selected(s, |t: Seq<char>| is_flutter_summary(t));
            if summary.len() > 0 {
                assert(summary[0] == sel[sel.len() - 1]);
            }
            let groups = flutter_groups(flutter_issues(ts));
            if groups.len() > 0 {
                let order = location_order(groups);
                law_location_order(groups);
                let per = order.map_values(|k: int| flutter_group_lines(groups[k]));
                assert(per[0][0] == groups[order[0]].file + " ("@ + crate::text::decimal(
                    groups[order[0]].entries.len(),
                ) + " issues)"@);
                lemma_grouped_summary_nonempty(summary, per);
            }
        },
    }
}

} // verus!
