//! Filters for the output of the `bun` runtime's commands.
use vstd::prelude::*;
use crate::select::{lemma_selected_shown, lemma_select_index, lemma_ok_or_join_has, lemma_join_has, lemma_content_no_newline, lemma_content_not_blank, lemma_content_of_join, lemma_plain_word, lemma_select_concat, lemma_select_from, lemma_select_uniform, plain_line, push_separated, with_separators, content_lines, content_of, extend_lines, keep_lines, lemma_select_step, lemma_take_all, ok_or_join, ok_or_join_string, push_line, push_section, section, select};
use crate::text::{all_ws, append_chars, append_str, decimal, decimal_chars, is_blank, join, join_chars, lemma_deep_index, string_of, strip_ansi, strip_ansi_chars, chars_of};
use crate::pattern::{pattern_is_match, regex_is_match};
use crate::plan::{args_line, make_plan, plans, copy_strings, strings_chars, CommandPlan, OutputFilter, OutputMode};
use crate::text::{no_newline, occurs_at, begins, contains, has, lowered, lowercase_chars, starts_with};

verus! {

broadcast use vstd::string::group_string_axioms;

/// Whether `bun install` keeps a clean line, given its lowercase form.
pub open spec fn install_rule(c: Seq<char>, lower: Seq<char>) -> bool {
    ||| contains(c, "saved "@)
    ||| contains(c, "installed "@)
    ||| contains(c, "removed "@)
    ||| contains(c, "updated "@)
    ||| contains(c, "packages"@)
    ||| contains(c, "lockfile"@)
    ||| contains(lower, "error"@)
    ||| contains(lower, "warn"@)
}

/// The output of `bun install` (also `add`, `remove`, `update`) after filtering:
/// the summary, lockfile, error and warning lines, or `"ok"`.
pub open spec fn bun_install_output(s: Seq<char>) -> Seq<char> {
    ok_or_join(install_lines(s))
}

/// The clean lines of `s` that `bun install` keeps.
pub open spec fn install_lines(s: Seq<char>) -> Seq<Seq<char>> {
    select(content_lines(s), |c: Seq<char>| install_rule(c, lowered(c)))
}

/// Whether `bun install` keeps the clean line `clean` whose lowercase form is `lower`.
pub fn install_line_kept(clean: &Vec<char>, lower: &Vec<char>) -> (r: bool)
    ensures
        r == install_rule(clean@, lower@),
{
    has(clean, "saved ") || has(clean, "installed ") || has(clean, "removed ") || has(
        clean,
        "updated ",
    ) || has(clean, "packages") || has(clean, "lockfile") || has(lower, "error") || has(
        lower,
        "warn",
    )
}

/// Whether `bun install` keeps the clean line `c`.
fn install_kept(c: &Vec<char>) -> (b: bool)
    ensures
        b == install_rule(c@, lowered(c@)),
{
    let lower = lowercase_chars(c);
    install_line_kept(c, &lower)
}

/// Strips progress and download noise from `bun install` output.
pub fn filter_bun_install(output: &str) -> (r: String)
    ensures
        r@ == bun_install_output(output@),
{
    let content = content_of(output);
    let kept = keep_lines(&content, install_kept, Ghost(|c: Seq<char>| install_rule(c, lowered(c))));
    ok_or_join_string(&kept)
}

/// Filtering `bun install` output a second time changes nothing, when the
/// kept lines are free of ANSI sequences and do not end with a carriage return.
pub proof fn law_bun_install_idempotent(s: Seq<char>)
    requires
        forall|k: int|
            0 <= k < install_lines(s).len() ==> strip_ansi(#[trigger] install_lines(s)[k]) == install_lines(s)[k]
                && install_lines(s)[k].last() != '\r',
    ensures
        bun_install_output(bun_install_output(s)) == bun_install_output(s),
{
    let keep = |c: Seq<char>| install_rule(c, lowered(c));
    let kept = install_lines(s);
    reveal_strlit("ok");
    if kept.len() == 0 {
        let ok = "ok"@;
        assert(ok[0] == 'o' && ok[1] == 'k');
        lemma_plain_word(ok);
        lemma_content_of_join(seq![ok]);
        assert(join(seq![ok], "\n"@) == ok);
        reveal_strlit("saved ");
        reveal_strlit("installed ");
        reveal_strlit("removed ");
        reveal_strlit("updated ");
        reveal_strlit("packages");
        reveal_strlit("lockfile");
        reveal_strlit("error");
        reveal_strlit("warn");
        assert(!keep(ok));
        lemma_select_uniform(seq![ok], keep);
    } else {
        lemma_select_from(content_lines(s), keep);
        lemma_content_not_blank(s);
        lemma_content_no_newline(s);
        assert forall|k: int| 0 <= k < kept.len() implies plain_line(#[trigger] kept[k]) && keep(kept[k]) by {
            assert(content_lines(s).contains(kept[k]));
            let j = choose|j: int| 0 <= j < content_lines(s).len() && content_lines(s)[j] == kept[k];
            assert(!all_ws(content_lines(s)[j]));
            assert(no_newline(content_lines(s)[j]));
            assert(strip_ansi(install_lines(s)[k]) == install_lines(s)[k]);
        }
        lemma_content_of_join(kept);
        lemma_select_uniform(kept, keep);
    }
}

/// Every clean line of `bun install` output that tells of packages saved,
/// installed, removed or updated, mentions packages or the lockfile, or
/// mentions an error or a warning in any letter case, shows in the filtered output.
pub proof fn law_bun_install_shows(s: Seq<char>, k: int)
    requires
        0 <= k < content_lines(s).len(),
        ({
            let line = content_lines(s)[k];
            ||| contains(line, "saved "@)
            ||| contains(line, "installed "@)
            ||| contains(line, "removed "@)
            ||| contains(line, "updated "@)
            ||| contains(line, "packages"@)
            ||| contains(line, "lockfile"@)
            ||| contains(lowered(line), "error"@)
            ||| contains(lowered(line), "warn"@)
        }),
    ensures
        contains(bun_install_output(s), content_lines(s)[k]),
{
    lemma_selected_shown(s, |line: Seq<char>| install_rule(line, lowered(line)), k);
}

/// Every clean line of `bun pm` output that mentions a package, a version or
/// a hash, or an error in any letter case, shows in the filtered output.
pub proof fn law_bun_pm_shows(s: Seq<char>, k: int)
    requires
        0 <= k < content_lines(s).len(),
        ({
            let line = content_lines(s)[k];
            ||| contains(line, "package"@)
            ||| contains(line, "version"@)
            ||| contains(line, "hash"@)
            ||| contains(lowered(line), "error"@)
        }),
    ensures
        contains(bun_pm_output(s), content_lines(s)[k]),
{
    lemma_selected_shown(s, |line: Seq<char>| pm_rule(line, lowered(line)), k);
}

/// Every clean line of `bun create` output that tells what was created or
/// scaffolded, mentions the project or an error in any letter case, or gives
/// a next command (`cd ...`, `bun ...`), shows in the filtered output.
pub proof fn law_bun_create_shows(s: Seq<char>, k: int)
    requires
        0 <= k < content_lines(s).len(),
        ({
            let line = content_lines(s)[k];
            ||| contains(line, "created"@)
            ||| contains(line, "scaffold"@)
            ||| contains(line, "project"@)
            ||| contains(lowered(line), "error"@)
            ||| starts_with(line, "cd "@)
            ||| starts_with(line, "bun "@)
        }),
    ensures
        contains(bun_create_output(s), content_lines(s)[k]),
{
    lemma_selected_shown(s, |line: Seq<char>| create_rule(line, lowered(line)), k);
}

/// The `bun install` output shows only such lines: it is `"ok"` or the
/// joining of clean lines of the input each of which tells of packages saved,
/// installed, removed or updated, mentions packages or the lockfile, or
/// mentions an error or a warning.
pub proof fn law_bun_install_only(s: Seq<char>)
    ensures
        exists|kept: Seq<Seq<char>>|
            #[trigger] ok_or_join(kept) == bun_install_output(s) && forall|j: int|
                0 <= j < kept.len() ==> content_lines(s).contains(#[trigger] kept[j]) && {
                    let line = kept[j];
                    ||| contains(line, "saved "@)
                    ||| contains(line, "installed "@)
                    ||| contains(line, "removed "@)
                    ||| contains(line, "updated "@)
                    ||| contains(line, "packages"@)
                    ||| contains(line, "lockfile"@)
                    ||| contains(lowered(line), "error"@)
                    ||| contains(lowered(line), "warn"@)
                },
{
    lemma_select_from(content_lines(s), |c: Seq<char>| install_rule(c, lowered(c)));
    assert(ok_or_join(install_lines(s)) == bun_install_output(s));
}

/// The `bun pm` output shows only package, version, hash and error lines of
/// the input, or says `"ok"`.
pub proof fn law_bun_pm_only(s: Seq<char>)
    ensures
        exists|kept: Seq<Seq<char>>|
            #[trigger] ok_or_join(kept) == bun_pm_output(s) && forall|j: int|
                0 <= j < kept.len() ==> content_lines(s).contains(#[trigger] kept[j]) && {
                    let line = kept[j];
                    ||| contains(line, "package"@)
                    ||| contains(line, "version"@)
                    ||| contains(line, "hash"@)
                    ||| contains(lowered(line), "error"@)
                },
{
    let keep = |c: Seq<char>| pm_rule(c, lowered(c));
    lemma_select_from(content_lines(s), keep);
    assert(ok_or_join(select(content_lines(s), keep)) == bun_pm_output(s));
}

/// The `bun create` output shows only lines of the input that tell what was
/// created or scaffolded, mention the project or an error, or give a next
/// command (`cd ...`, `bun ...`); or it says `"ok"`.
pub proof fn law_bun_create_only(s: Seq<char>)
    ensures
        exists|kept: Seq<Seq<char>>|
            #[trigger] ok_or_join(kept) == bun_create_output(s) && forall|j: int|
                0 <= j < kept.len() ==> content_lines(s).contains(#[trigger] kept[j]) && {
                    let line = kept[j];
                    ||| contains(line, "created"@)
                    ||| contains(line, "scaffold"@)
                    ||| contains(line, "project"@)
                    ||| contains(lowered(line), "error"@)
                    ||| starts_with(line, "cd "@)
                    ||| starts_with(line, "bun "@)
                },
{
    let keep = |c: Seq<char>| create_rule(c, lowered(c));
    lemma_select_from(content_lines(s), keep);
    assert(ok_or_join(select(content_lines(s), keep)) == bun_create_output(s));
}

/// Whether `bun pm` keeps a clean line, given its lowercase form.
pub open spec fn pm_rule(c: Seq<char>, lower: Seq<char>) -> bool {
    ||| contains(c, "package"@)
    ||| contains(c, "version"@)
    ||| contains(c, "hash"@)
    ||| contains(lower, "error"@)
}

/// The output of `bun pm` after filtering: package, version, hash and error
/// lines, or `"ok"`.
pub open spec fn bun_pm_output(s: Seq<char>) -> Seq<char> {
    ok_or_join(select(content_lines(s), |c: Seq<char>| pm_rule(c, lowered(c))))
}

/// Whether `bun pm` keeps the clean line `clean` whose lowercase form is `lower`.
pub fn pm_line_kept(clean: &Vec<char>, lower: &Vec<char>) -> (r: bool)
    ensures
        r == pm_rule(clean@, lower@),
{
    has(clean, "package") || has(clean, "version") || has(clean, "hash") || has(lower, "error")
}

fn pm_kept(c: &Vec<char>) -> (b: bool)
    ensures
        b == pm_rule(c@, lowered(c@)),
{
    let lower = lowercase_chars(c);
    pm_line_kept(c, &lower)
}

/// Keeps the package, version, hash and error lines of `bun pm` output.
pub fn filter_bun_pm(output: &str) -> (r: String)
    ensures
        r@ == bun_pm_output(output@),
{
    let content = content_of(output);
    let kept = keep_lines(&content, pm_kept, Ghost(|c: Seq<char>| pm_rule(c, lowered(c))));
    ok_or_join_string(&kept)
}

/// Whether `bun create` / `bun init` keeps a clean line, given its lowercase form.
pub open spec fn create_rule(c: Seq<char>, lower: Seq<char>) -> bool {
    ||| contains(c, "created"@)
    ||| contains(c, "scaffold"@)
    ||| contains(c, "project"@)
    ||| contains(lower, "error"@)
    ||| starts_with(c, "cd "@)
    ||| starts_with(c, "bun "@)
}

/// The output of `bun create` / `bun init` after filtering: what was created,
/// errors, and the next commands to run, or `"ok"`.
pub open spec fn bun_create_output(s: Seq<char>) -> Seq<char> {
    ok_or_join(select(content_lines(s), |c: Seq<char>| create_rule(c, lowered(c))))
}

/// Whether `bun create` keeps the clean line `clean` whose lowercase form is `lower`.
pub fn create_line_kept(clean: &Vec<char>, lower: &Vec<char>) -> (r: bool)
    ensures
        r == create_rule(clean@, lower@),
{
    has(clean, "created") || has(clean, "scaffold") || has(clean, "project") || has(lower, "error")
        || begins(clean, "cd ") || begins(clean, "bun ")
}

fn create_kept(c: &Vec<char>) -> (b: bool)
    ensures
        b == create_rule(c@, lowered(c@)),
{
    let lower = lowercase_chars(c);
    create_line_kept(c, &lower)
}

/// Keeps only the essential scaffold output of `bun create` and `bun init`.
pub fn filter_bun_create(output: &str) -> (r: String)
    ensures
        r@ == bun_create_output(output@),
{
    let content = content_of(output);
    let kept = keep_lines(&content, create_kept, Ghost(|c: Seq<char>| create_rule(c, lowered(c))));
    ok_or_join_string(&kept)
}

/// Run `bun test` and show only failures plus a compact summary: the output is streamed through `BunTestHandler` and also saved raw.
///
/// The plan for running it: `bun test <args>`, recorded as `bun test`.
pub fn run_bun_test(args: &[String], verbose: u8) -> (p: CommandPlan)
    ensures
        plans(p, "bun"@, "test"@, args.deep_view(), "bun test"@, OutputMode::BunTestStream, true, verbose),
{
    make_plan("bun", "test", args, "bun test", OutputMode::BunTestStream, true, verbose)
}

/// Run `bun run` and strip lifecycle noise.
///
/// The plan for running it: `bun run <args>`, recorded as `bun run`.
pub fn run_bun_run(args: &[String], verbose: u8) -> (p: CommandPlan)
    ensures
        plans(p, "bun"@, "run"@, args.deep_view(), "bun run"@, OutputMode::Filtered(OutputFilter::BunRun), false, verbose),
{
    make_plan("bun", "run", args, "bun run", OutputMode::Filtered(OutputFilter::BunRun), false, verbose)
}

/// Run `bun install` and strip progress / download noise.
///
/// The plan for running it: `bun install <args>`, recorded as `bun install`.
pub fn run_bun_install(args: &[String], verbose: u8) -> (p: CommandPlan)
    ensures
        plans(p, "bun"@, "install"@, args.deep_view(), "bun install"@, OutputMode::Filtered(OutputFilter::BunInstall), false, verbose),
{
    make_plan("bun", "install", args, "bun install", OutputMode::Filtered(OutputFilter::BunInstall), false, verbose)
}

/// Run `bun add` and strip progress / download noise.
///
/// The plan for running it: `bun add <args>`, recorded as `bun add`.
pub fn run_bun_add(args: &[String], verbose: u8) -> (p: CommandPlan)
    ensures
        plans(p, "bun"@, "add"@, args.deep_view(), "bun add"@, OutputMode::Filtered(OutputFilter::BunInstall), false, verbose),
{
    make_plan("bun", "add", args, "bun add", OutputMode::Filtered(OutputFilter::BunInstall), false, verbose)
}

/// Run `bun remove` and strip progress noise.
///
/// The plan for running it: `bun remove <args>`, recorded as `bun remove`.
pub fn run_bun_remove(args: &[String], verbose: u8) -> (p: CommandPlan)
    ensures
        plans(p, "bun"@, "remove"@, args.deep_view(), "bun remove"@, OutputMode::Filtered(OutputFilter::BunInstall), false, verbose),
{
    make_plan("bun", "remove", args, "bun remove", OutputMode::Filtered(OutputFilter::BunInstall), false, verbose)
}

/// Run `bun update` and strip progress / lockfile churn.
///
/// The plan for running it: `bun update <args>`, recorded as `bun update`.
pub fn run_bun_update(args: &[String], verbose: u8) -> (p: CommandPlan)
    ensures
        plans(p, "bun"@, "update"@, args.deep_view(), "bun update"@, OutputMode::Filtered(OutputFilter::BunInstall), false, verbose),
{
    make_plan("bun", "update", args, "bun update", OutputMode::Filtered(OutputFilter::BunInstall), false, verbose)
}

/// Run `bun pm` (package-manager subcommands like `ls`, `migrate`, `hash`).
///
/// The plan for running it: `bun pm <args>`, recorded as `bun pm`.
pub fn run_bun_pm(args: &[String], verbose: u8) -> (p: CommandPlan)
    ensures
        plans(p, "bun"@, "pm"@, args.deep_view(), "bun pm"@, OutputMode::Filtered(OutputFilter::BunPm), false, verbose),
{
    make_plan("bun", "pm", args, "bun pm", OutputMode::Filtered(OutputFilter::BunPm), false, verbose)
}

/// Run `bun build` and strip per-file status spam.
///
/// The plan for running it: `bun build <args>`, recorded as `bun build`.
pub fn run_bun_build(args: &[String], verbose: u8) -> (p: CommandPlan)
    ensures
        plans(p, "bun"@, "build"@, args.deep_view(), "bun build"@, OutputMode::Filtered(OutputFilter::BunBuild), false, verbose),
{
    make_plan("bun", "build", args, "bun build", OutputMode::Filtered(OutputFilter::BunBuild), false, verbose)
}

/// Run `bun create` and keep only the essential scaffold output.
///
/// The plan for running it: `bun create <args>`, recorded as `bun create`.
pub fn run_bun_create(args: &[String], verbose: u8) -> (p: CommandPlan)
    ensures
        plans(p, "bun"@, "create"@, args.deep_view(), "bun create"@, OutputMode::Filtered(OutputFilter::BunCreate), false, verbose),
{
    make_plan("bun", "create", args, "bun create", OutputMode::Filtered(OutputFilter::BunCreate), false, verbose)
}

/// Run `bun init` and keep only the essential init output.
///
/// The plan for running it: `bun init <args>`, recorded as `bun init`.
pub fn run_bun_init(args: &[String], verbose: u8) -> (p: CommandPlan)
    ensures
        plans(p, "bun"@, "init"@, args.deep_view(), "bun init"@, OutputMode::Filtered(OutputFilter::BunCreate), false, verbose),
{
    make_plan("bun", "init", args, "bun init", OutputMode::Filtered(OutputFilter::BunCreate), false, verbose)
}

/// Where `bunx` hands a command.
pub enum BunxRoute {
    /// The TypeScript compiler filter, with the arguments after `tsc`.
    Tsc(Vec<String>),
    /// The ESLint filter, with the arguments after `eslint`.
    Eslint(Vec<String>),
    /// The Prettier filter, with the arguments after `prettier`.
    Prettier(Vec<String>),
    /// The Vitest/Jest filter, with the arguments after `vitest` or `jest`.
    Vitest(Vec<String>),
    /// `bunx <args>` run unfiltered, announced in verbose mode.
    Passthrough { args: Vec<String>, announce: Option<String> },
}

/// The route `bunx args` takes: known tools go to their own filters, anything
/// else (`prisma` included) runs unfiltered.
pub open spec fn bunx_route_ok(r: BunxRoute, args: Seq<Seq<char>>, verbose: u8) -> bool {
    let rest = args.drop_first();
    if args.len() > 0 && args[0] == "tsc"@ {
        r matches BunxRoute::Tsc(a) && a.deep_view() == rest
    } else if args.len() > 0 && args[0] == "eslint"@ {
        r matches BunxRoute::Eslint(a) && a.deep_view() == rest
    } else if args.len() > 0 && args[0] == "prettier"@ {
        r matches BunxRoute::Prettier(a) && a.deep_view() == rest
    } else if args.len() > 0 && (args[0] == "vitest"@ || args[0] == "jest"@) {
        r matches BunxRoute::Vitest(a) && a.deep_view() == rest
    } else {
        &&& r matches BunxRoute::Passthrough { args: a, announce }
        &&& a.deep_view() == args
        &&& (announce is Some <==> verbose > 0)
        &&& (announce matches Some(line) ==> line@ == "Running: bunx "@ + args_line(args))
    }
}

/// Run `bunx`: route known tools to their specialized filters, otherwise pass through.
pub fn run_bunx(args: &[String], verbose: u8) -> (r: BunxRoute)
    ensures
        bunx_route_ok(r, args.deep_view(), verbose),
{
    if args.len() > 0 {
        let first = &args[0];
        if *first == String::from_str("tsc") {
            return BunxRoute::Tsc(copy_tail(args));
        } else if *first == String::from_str("eslint") {
            return BunxRoute::Eslint(copy_tail(args));
        } else if *first == String::from_str("prettier") {
            return BunxRoute::Prettier(copy_tail(args));
        } else if *first == String::from_str("vitest") || *first == String::from_str("jest") {
            return BunxRoute::Vitest(copy_tail(args));
        }
    }
    let all = copy_strings(args);
    let announce = if verbose > 0 {
        let mut a = chars_of("Running: bunx ");
        let joined = join_chars(&strings_chars(args), " ");
        append_chars(&mut a, &joined);
        Some(string_of(&a))
    } else {
        None
    };
    BunxRoute::Passthrough { args: all, announce }
}

/// Copies of all strings but the first.
fn copy_tail(args: &[String]) -> (r: Vec<String>)
    requires
        args@.len() > 0,
    ensures
        r.deep_view() == args.deep_view().drop_first(),
{
    let mut r: Vec<String> = Vec::new();
    for i in 1..args.len()
        invariant
            1 <= args@.len(),
            r@.len() == i - 1,
            r.deep_view() == args.deep_view().subrange(1, i as int),
    {
        let ghost before = r;
        let c = args[i].clone();
        assert(c@ == args@[i as int]@);
        r.push(c);
        assert forall|j: int| 0 <= j < i implies #[trigger] r.deep_view()[j] == args.deep_view()[j + 1] by {
            if j < i - 1 {
                assert(r@[j] == before@[j]);
                assert(before.deep_view()[j] == args.deep_view().subrange(1, i as int)[j]);
            }
        }
        assert(r.deep_view() =~= args.deep_view().subrange(1, i + 1));
    }
    assert(args.deep_view().subrange(1, args@.len() as int) =~= args.deep_view().drop_first());
    r
}

/// How `bun run` treats a clean output line.
pub enum RunLine {
    /// A command echo (`> cmd` or `$ cmd`).
    Echo,
    /// A line mentioning an error.
    Error,
    /// A line mentioning a warning.
    Warning,
    /// A completion status line (done, finished, success, built).
    Status,
    /// Lifecycle noise.
    Other,
}

/// The class of a clean `bun run` line, given its lowercase form.
pub open spec fn run_line_class(c: Seq<char>, lower: Seq<char>) -> RunLine {
    if starts_with(c, ">"@) || starts_with(c, "$"@) {
        RunLine::Echo
    } else if contains(lower, "error"@) {
        RunLine::Error
    } else if contains(lower, "warn"@) {
        RunLine::Warning
    } else if contains(lower, "done"@) || contains(lower, "finished"@) || contains(lower, "success"@)
        || contains(lower, "built"@) {
        RunLine::Status
    } else {
        RunLine::Other
    }
}

/// The class of a clean `bun run` line.
pub open spec fn run_class(c: Seq<char>) -> RunLine {
    run_line_class(c, lowered(c))
}

/// The lines of `s` of the given class, in order.
pub open spec fn run_lines(s: Seq<char>, class: RunLine) -> Seq<Seq<char>> {
    select(content_lines(s), |c: Seq<char>| run_class(c) == class)
}

/// The output of `bun run` after filtering. With errors or warnings: the command
/// echoes, the status lines, then the errors and the warnings, each group after
/// a `---` line. Otherwise `"finished"` when a command was echoed or a status
/// line seen, else `"ok"`.
pub open spec fn bun_run_output(s: Seq<char>) -> Seq<char> {
    let echoes = run_lines(s, RunLine::Echo);
    let status = run_lines(s, RunLine::Status);
    let errors = run_lines(s, RunLine::Error);
    let warnings = run_lines(s, RunLine::Warning);
    if errors.len() > 0 || warnings.len() > 0 {
        join(echoes + status + section(errors) + section(warnings), "\n"@)
    } else if status.len() > 0 || echoes.len() > 0 {
        "finished"@
    } else {
        "ok"@
    }
}

/// The lines `bun run` shows when there are errors or warnings: command
/// echoes, status lines, errors and warnings.
pub open spec fn run_shown(s: Seq<char>) -> Seq<Seq<char>> {
    run_lines(s, RunLine::Echo) + run_lines(s, RunLine::Status) + run_lines(s, RunLine::Error) + run_lines(
        s,
        RunLine::Warning,
    )
}

/// Selecting a class from lines all of one class keeps all of them or none.
proof fn lemma_select_run_class(part: Seq<Seq<char>>, k: RunLine, kind: RunLine)
    requires
        forall|i: int| 0 <= i < part.len() ==> run_class(#[trigger] part[i]) == kind,
    ensures
        select(part, |c: Seq<char>| run_class(c) == k) == if kind == k {
            part
        } else {
            Seq::<Seq<char>>::empty()
        },
{
    lemma_select_uniform(part, |c: Seq<char>| run_class(c) == k);
}

/// The lines of one class of `bun run` output, with a `---` line before them
/// when there are any: selecting one of the four kept classes from them.
proof fn lemma_select_run_section(part: Seq<Seq<char>>, k: RunLine, kind: RunLine)
    requires
        forall|i: int| 0 <= i < part.len() ==> run_class(#[trigger] part[i]) == kind,
        run_class("---"@) == RunLine::Other,
        k != RunLine::Other,
    ensures
        select(section(part), |c: Seq<char>| run_class(c) == k) == if kind == k {
            part
        } else {
            Seq::<Seq<char>>::empty()
        },
{
    lemma_select_run_class(part, k, kind);
    if part.len() > 0 {
        lemma_select_concat(seq!["---"@], part, |c: Seq<char>| run_class(c) == k);
        lemma_select_run_class(seq!["---"@], k, RunLine::Other);
        assert(Seq::<Seq<char>>::empty() + select(part, |c: Seq<char>| run_class(c) == k) =~= select(
            part,
            |c: Seq<char>| run_class(c) == k,
        ));
    }
}

/// The `---` separator is a plain line of no kept class.
proof fn lemma_run_dash()
    ensures
        plain_line("---"@),
        run_class("---"@) == RunLine::Other,
{
    reveal_strlit("---");
    reveal_strlit(">");
    reveal_strlit("$");
    reveal_strlit("error");
    reveal_strlit("warn");
    reveal_strlit("done");
    reveal_strlit("finished");
    reveal_strlit("success");
    reveal_strlit("built");
    let dash = "---"@;
    assert(dash[0] == '-' && dash[1] == '-' && dash[2] == '-');
    lemma_plain_word(dash);
    assert(dash.take(1)[0] != '>');
    assert(dash.take(1)[0] != '$');
}

/// `finished` is a plain line, and a status line.
#[verifier::spinoff_prover]
#[verifier::rlimit(40)]
proof fn lemma_run_finished()
    ensures
        plain_line("finished"@),
        run_class("finished"@) == RunLine::Status,
{
    reveal_strlit("finished");
    reveal_strlit(">");
    reveal_strlit("$");
    reveal_strlit("error");
    reveal_strlit("warn");
    let word = "finished"@;
    assert(word =~= seq!['f', 'i', 'n', 'i', 's', 'h', 'e', 'd']);
    lemma_plain_word(word);
    assert(word.subrange(0, 8) =~= word);
    assert(occurs_at(word, "finished"@, 0));
    assert(!contains(word, "error"@)) by {
        assert forall|i: int| !occurs_at(word, "error"@, i) by {
            if 0 <= i <= 3 {
                assert(word.subrange(i, i + 5)[0] != 'e');
            }
        }
    }
    assert(!contains(word, "warn"@)) by {
        assert forall|i: int| !occurs_at(word, "warn"@, i) by {
            if 0 <= i <= 4 {
                assert(word.subrange(i, i + 4)[0] != 'w');
            }
        }
    }
    assert(word.take(1)[0] != '>');
    assert(word.take(1)[0] != '$');
}

/// `ok` is a plain line of no kept class.
proof fn lemma_run_ok()
    ensures
        plain_line("ok"@),
        run_class("ok"@) == RunLine::Other,
{
    reveal_strlit("ok");
    reveal_strlit(">");
    reveal_strlit("$");
    reveal_strlit("error");
    reveal_strlit("warn");
    reveal_strlit("done");
    reveal_strlit("finished");
    reveal_strlit("success");
    reveal_strlit("built");
    let word = "ok"@;
    assert(word =~= seq!['o', 'k']);
    lemma_plain_word(word);
    assert(word.take(1)[0] != '>');
    assert(word.take(1)[0] != '$');
}

/// The lines of one class that `bun run` shows are plain and of that class.
proof fn lemma_run_lines_plain(s: Seq<char>, k: RunLine)
    requires
        forall|i: int|
            0 <= i < run_shown(s).len() ==> strip_ansi(#[trigger] run_shown(s)[i]) == run_shown(s)[i]
                && run_shown(s)[i].last() != '\r',
        k != RunLine::Other,
    ensures
        forall|i: int|
            0 <= i < run_lines(s, k).len() ==> plain_line(#[trigger] run_lines(s, k)[i]) && run_class(
                run_lines(s, k)[i],
            ) == k,
{
    lemma_content_not_blank(s);
    lemma_content_no_newline(s);
    lemma_select_from(content_lines(s), |c: Seq<char>| run_class(c) == k);
    let e = run_lines(s, RunLine::Echo);
    let st = run_lines(s, RunLine::Status);
    let er = run_lines(s, RunLine::Error);
    let shown = run_shown(s);
    assert forall|i: int| 0 <= i < run_lines(s, k).len() implies plain_line(#[trigger] run_lines(s, k)[i])
        && run_class(run_lines(s, k)[i]) == k by {
        let c = run_lines(s, k)[i];
        assert(content_lines(s).contains(c));
        let j = choose|j: int| 0 <= j < content_lines(s).len() && content_lines(s)[j] == c;
        assert(!all_ws(content_lines(s)[j]));
        assert(no_newline(content_lines(s)[j]));
        if k == RunLine::Echo {
            assert(shown[i] == c);
        } else if k == RunLine::Status {
            assert(shown[e.len() + i] == c);
        } else if k == RunLine::Error {
            assert(shown[e.len() + st.len() + i] == c);
        } else {
            assert(shown[e.len() + st.len() + er.len() + i] == c);
        }
    }
}

/// With errors or warnings, the shown lines come back unchanged.
#[verifier::rlimit(40)]
proof fn lemma_run_problems_idempotent(s: Seq<char>)
    requires
        run_lines(s, RunLine::Error).len() > 0 || run_lines(s, RunLine::Warning).len() > 0,
        forall|i: int|
            0 <= i < run_shown(s).len() ==> strip_ansi(#[trigger] run_shown(s)[i]) == run_shown(s)[i]
                && run_shown(s)[i].last() != '\r',
    ensures
        bun_run_output(bun_run_output(s)) == bun_run_output(s),
{
    let e = run_lines(s, RunLine::Echo);
    let st = run_lines(s, RunLine::Status);
    let er = run_lines(s, RunLine::Error);
    let w = run_lines(s, RunLine::Warning);
    lemma_run_dash();
    lemma_run_lines_plain(s, RunLine::Echo);
    lemma_run_lines_plain(s, RunLine::Status);
    lemma_run_lines_plain(s, RunLine::Error);
    lemma_run_lines_plain(s, RunLine::Warning);
    let r = bun_run_output(s);
    let l = e + st + section(er) + section(w);
    assert forall|i: int| 0 <= i < l.len() implies plain_line(#[trigger] l[i]) by {
        if i < e.len() {
            assert(l[i] == e[i]);
        } else if i < e.len() + st.len() {
            assert(l[i] == st[i - e.len()]);
        } else if i < e.len() + st.len() + section(er).len() {
            let q = i - e.len() - st.len();
            assert(l[i] == section(er)[q]);
            if q > 0 {
                assert(section(er)[q] == er[q - 1]);
            }
        } else {
            let q = i - e.len() - st.len() - section(er).len();
            assert(l[i] == section(w)[q]);
            if q > 0 {
                assert(section(w)[q] == w[q - 1]);
            }
        }
    }
    assert(r == join(l, "\n"@));
    lemma_content_of_join(l);
    assert forall|k: RunLine| k != RunLine::Other implies #[trigger] run_lines(r, k) == run_lines(s, k) by {
        let keep = |c: Seq<char>| run_class(c) == k;
        lemma_select_concat(e + st + section(er), section(w), keep);
        lemma_select_concat(e + st, section(er), keep);
        lemma_select_concat(e, st, keep);
        lemma_select_run_class(e, k, RunLine::Echo);
        lemma_select_run_class(st, k, RunLine::Status);
        lemma_select_run_section(er, k, RunLine::Error);
        lemma_select_run_section(w, k, RunLine::Warning);
        let z = Seq::<Seq<char>>::empty();
        if k == RunLine::Echo {
            assert(e + z + z + z =~= e);
        } else if k == RunLine::Status {
            assert(z + st + z + z =~= st);
        } else if k == RunLine::Error {
            assert(z + z + er + z =~= er);
        } else {
            assert(z + z + z + w =~= w);
        }
    }
    assert(run_lines(r, RunLine::Echo) == e);
    assert(run_lines(r, RunLine::Status) == st);
    assert(run_lines(r, RunLine::Error) == er);
    assert(run_lines(r, RunLine::Warning) == w);
}

/// A one-word answer filters to itself.
proof fn lemma_run_word_idempotent(word: Seq<char>, kind: RunLine)
    requires
        plain_line(word),
        run_class(word) == kind,
        kind == RunLine::Status || kind == RunLine::Other,
        kind == RunLine::Status ==> word == "finished"@,
        kind == RunLine::Other ==> word == "ok"@,
    ensures
        bun_run_output(word) == word,
{
    lemma_content_of_join(seq![word]);
    assert(join(seq![word], "\n"@) == word);
    assert forall|k: RunLine| k != RunLine::Other implies #[trigger] run_lines(word, k) == if k == kind {
        seq![word]
    } else {
        Seq::<Seq<char>>::empty()
    } by {
        lemma_select_run_class(seq![word], k, kind);
    }
    assert(run_lines(word, RunLine::Error).len() == 0);
    assert(run_lines(word, RunLine::Warning).len() == 0);
    assert(run_lines(word, RunLine::Echo).len() == 0);
    if kind == RunLine::Status {
        assert(run_lines(word, RunLine::Status).len() == 1);
    } else {
        assert(run_lines(word, RunLine::Status).len() == 0);
    }
}

/// Filtering `bun run` output a second time changes nothing, when the lines
/// it shows are free of ANSI sequences and do not end with a carriage return.
pub proof fn law_bun_run_idempotent(s: Seq<char>)
    requires
        run_lines(s, RunLine::Error).len() > 0 || run_lines(s, RunLine::Warning).len() > 0 ==> forall|k: int|
            0 <= k < run_shown(s).len() ==> strip_ansi(#[trigger] run_shown(s)[k]) == run_shown(s)[k]
                && run_shown(s)[k].last() != '\r',
    ensures
        bun_run_output(bun_run_output(s)) == bun_run_output(s),
{
    let e = run_lines(s, RunLine::Echo);
    let st = run_lines(s, RunLine::Status);
    let er = run_lines(s, RunLine::Error);
    let w = run_lines(s, RunLine::Warning);
    if er.len() > 0 || w.len() > 0 {
        lemma_run_problems_idempotent(s);
    } else if st.len() > 0 || e.len() > 0 {
        lemma_run_finished();
        lemma_run_word_idempotent("finished"@, RunLine::Status);
    } else {
        lemma_run_ok();
        lemma_run_word_idempotent("ok"@, RunLine::Other);
    }
}

/// Every clean line of `bun run` output that mentions an error or a warning
/// in any letter case, and is not a command echo (`>` or `$` first), shows in
/// the filtered output.
pub proof fn law_bun_run_shows(s: Seq<char>, k: int)
    requires
        0 <= k < content_lines(s).len(),
        ({
            let line = content_lines(s)[k];
            &&& !starts_with(line, ">"@) && !starts_with(line, "$"@)
            &&& contains(lowered(line), "error"@) || contains(lowered(line), "warn"@)
        }),
    ensures
        contains(bun_run_output(s), content_lines(s)[k]),
{
    let ls = content_lines(s);
    let e = run_lines(s, RunLine::Echo);
    let st = run_lines(s, RunLine::Status);
    let er = run_lines(s, RunLine::Error);
    let w = run_lines(s, RunLine::Warning);
    let l = e + st + section(er) + section(w);
    if run_class(ls[k]) == RunLine::Error {
        let j = lemma_select_index(ls, |line: Seq<char>| run_class(line) == RunLine::Error, k);
        assert(section(er)[j + 1] == ls[k]);
        assert(l[e.len() + st.len() + j + 1] == ls[k]);
        lemma_join_has(l, "\n"@, e.len() + st.len() + j + 1);
    } else {
        assert(run_class(ls[k]) == RunLine::Warning);
        let j = lemma_select_index(ls, |line: Seq<char>| run_class(line) == RunLine::Warning, k);
        assert(section(w)[j + 1] == ls[k]);
        assert(l[e.len() + st.len() + section(er).len() + j + 1] == ls[k]);
        lemma_join_has(l, "\n"@, e.len() + st.len() + section(er).len() + j + 1);
    }
}

/// A `bun run` line that shows the run did something: a command echo, or a
/// line saying done, finished, success or built in any letter case.
pub open spec fn run_activity(line: Seq<char>) -> bool {
    ||| starts_with(line, ">"@)
    ||| starts_with(line, "$"@)
    ||| contains(lowered(line), "done"@)
    ||| contains(lowered(line), "finished"@)
    ||| contains(lowered(line), "success"@)
    ||| contains(lowered(line), "built"@)
}

/// When no line of `bun run` output (other than a command echo) mentions an
/// error or a warning, the filter answers `finished` if some line shows the
/// run did something, and `ok` otherwise.
pub proof fn law_bun_run_quiet(s: Seq<char>)
    requires
        forall|k: int|
            0 <= k < content_lines(s).len() ==> {
                let line = #[trigger] content_lines(s)[k];
                ||| starts_with(line, ">"@) || starts_with(line, "$"@)
                ||| !contains(lowered(line), "error"@) && !contains(lowered(line), "warn"@)
            },
    ensures
        bun_run_output(s) == if exists|k: int|
            0 <= k < content_lines(s).len() && run_activity(#[trigger] content_lines(s)[k]) {
            "finished"@
        } else {
            "ok"@
        },
{
    let ls = content_lines(s);
    lemma_select_uniform(ls, |c: Seq<char>| run_class(c) == RunLine::Error);
    lemma_select_uniform(ls, |c: Seq<char>| run_class(c) == RunLine::Warning);
    if exists|k: int| 0 <= k < ls.len() && run_activity(#[trigger] ls[k]) {
        let k = choose|k: int| 0 <= k < ls.len() && run_activity(#[trigger] ls[k]);
        if run_class(ls[k]) == RunLine::Echo {
            lemma_select_index(ls, |c: Seq<char>| run_class(c) == RunLine::Echo, k);
        } else {
            lemma_select_index(ls, |c: Seq<char>| run_class(c) == RunLine::Status, k);
        }
    } else {
        lemma_select_uniform(ls, |c: Seq<char>| run_class(c) == RunLine::Echo);
        lemma_select_uniform(ls, |c: Seq<char>| run_class(c) == RunLine::Status);
    }
}

/// The class of the clean `bun run` line `clean` whose lowercase form is `lower`.
pub fn run_line_kind(clean: &Vec<char>, lower: &Vec<char>) -> (r: RunLine)
    ensures
        r == run_line_class(clean@, lower@),
{
    if begins(clean, ">") || begins(clean, "$") {
        RunLine::Echo
    } else if has(lower, "error") {
        RunLine::Error
    } else if has(lower, "warn") {
        RunLine::Warning
    } else if has(lower, "done") || has(lower, "finished") || has(lower, "success") || has(
        lower,
        "built",
    ) {
        RunLine::Status
    } else {
        RunLine::Other
    }
}

/// Strips lifecycle noise from `bun run` output.
pub fn filter_bun_run(output: &str) -> (r: String)
    ensures
        r@ == bun_run_output(output@),
{
    let content = content_of(output);
    let ghost ls = content.deep_view();
    let ghost p_echo = |c: Seq<char>| run_class(c) == RunLine::Echo;
    let ghost p_status = |c: Seq<char>| run_class(c) == RunLine::Status;
    let ghost p_error = |c: Seq<char>| run_class(c) == RunLine::Error;
    let ghost p_warn = |c: Seq<char>| run_class(c) == RunLine::Warning;
    proof {
        lemma_deep_index(content);
    }
    let mut echoes: Vec<Vec<char>> = Vec::new();
    let mut status: Vec<Vec<char>> = Vec::new();
    let mut errors: Vec<Vec<char>> = Vec::new();
    let mut warnings: Vec<Vec<char>> = Vec::new();
    for i in 0..content.len()
        invariant
            ls == content.deep_view(),
            ls == content_lines(output@),
            ls.len() == content@.len(),
            forall|k: int| 0 <= k < content@.len() ==> #[trigger] ls[k] == content@[k]@,
            p_echo == (|c: Seq<char>| run_class(c) == RunLine::Echo),
            p_status == (|c: Seq<char>| run_class(c) == RunLine::Status),
            p_error == (|c: Seq<char>| run_class(c) == RunLine::Error),
            p_warn == (|c: Seq<char>| run_class(c) == RunLine::Warning),
            echoes.deep_view() == select(ls.take(i as int), p_echo),
            status.deep_view() == select(ls.take(i as int), p_status),
            errors.deep_view() == select(ls.take(i as int), p_error),
            warnings.deep_view() == select(ls.take(i as int), p_warn),
    {
        proof {
            lemma_select_step(ls, p_echo, i as int);
            lemma_select_step(ls, p_status, i as int);
            lemma_select_step(ls, p_error, i as int);
            lemma_select_step(ls, p_warn, i as int);
        }
        let line = &content[i];
        let lower = lowercase_chars(line);
        let kind = run_line_kind(line, &lower);
        match kind {
            RunLine::Echo => push_line(&mut echoes, line.clone()),
            RunLine::Error => push_line(&mut errors, line.clone()),
            RunLine::Warning => push_line(&mut warnings, line.clone()),
            RunLine::Status => push_line(&mut status, line.clone()),
            RunLine::Other => {},
        }
    }
    proof {
        lemma_take_all(ls);
    }
    if errors.len() > 0 || warnings.len() > 0 {
        let mut items: Vec<Vec<char>> = Vec::new();
        extend_lines(&mut items, echoes);
        extend_lines(&mut items, status);
        push_section(&mut items, errors);
        push_section(&mut items, warnings);
        assert(items.deep_view() =~= Seq::<Seq<char>>::empty() + run_lines(output@, RunLine::Echo)
            + run_lines(output@, RunLine::Status) + section(run_lines(output@, RunLine::Error))
            + section(run_lines(output@, RunLine::Warning)));
        let v = join_chars(&items, "\n");
        string_of(&v)
    } else if status.len() > 0 || echoes.len() > 0 {
        String::from_str("finished")
    } else {
        String::from_str("ok")
    }
}

/// The regular expression for a bundle line ending in a size (`out.js  1.2 KB`).
pub const BUNDLE_SIZE_PATTERN: &'static str = "^(.*)\\s+(\\d+(?:\\.\\d+)?\\s*(?:B|KB|MB|GB))\\s*$";

/// How `bun build` treats a clean output line.
pub enum BuildLine {
    /// A line mentioning an error.
    Error,
    /// A status or bundle-size line that stays.
    Kept,
    /// Per-file status noise.
    Dropped,
}

/// The class of a clean `bun build` line, given its lowercase form and whether
/// it matches `BUNDLE_SIZE_PATTERN`.
pub open spec fn build_line_class(c: Seq<char>, lower: Seq<char>, sized: bool) -> BuildLine {
    if contains(lower, "error"@) {
        BuildLine::Error
    } else if contains(c, "built"@) || contains(c, "done"@) || contains(c, "Build"@) || sized {
        BuildLine::Kept
    } else {
        BuildLine::Dropped
    }
}

/// The class of a clean `bun build` line.
pub open spec fn build_class(c: Seq<char>) -> BuildLine {
    build_line_class(c, lowered(c), regex_is_match(BUNDLE_SIZE_PATTERN@, c))
}

/// The output of `bun build` after filtering: the status and bundle-size lines,
/// then the error lines after a `---` line, or `"ok"`.
pub open spec fn bun_build_output(s: Seq<char>) -> Seq<char> {
    let kept = select(content_lines(s), |c: Seq<char>| build_class(c) == BuildLine::Kept);
    let errors = select(content_lines(s), |c: Seq<char>| build_class(c) == BuildLine::Error);
    ok_or_join(kept + section(errors))
}

/// Every clean line of `bun build` output that mentions an error in any
/// letter case, says `built`, `done` or `Build`, or gives a bundle size
/// (matches `BUNDLE_SIZE_PATTERN`), shows in the filtered output.
pub proof fn law_bun_build_shows(s: Seq<char>, k: int)
    requires
        0 <= k < content_lines(s).len(),
        ({
            let line = content_lines(s)[k];
            ||| contains(lowered(line), "error"@)
            ||| contains(line, "built"@)
            ||| contains(line, "done"@)
            ||| contains(line, "Build"@)
            ||| regex_is_match(BUNDLE_SIZE_PATTERN@, line)
        }),
    ensures
        contains(bun_build_output(s), content_lines(s)[k]),
{
    let ls = content_lines(s);
    let kept = select(ls, |line: Seq<char>| build_class(line) == BuildLine::Kept);
    let errors = select(ls, |line: Seq<char>| build_class(line) == BuildLine::Error);
    let l = kept + section(errors);
    if build_class(ls[k]) == BuildLine::Kept {
        let j = lemma_select_index(ls, |line: Seq<char>| build_class(line) == BuildLine::Kept, k);
        assert(l[j] == ls[k]);
        lemma_ok_or_join_has(l, j);
    } else {
        let j = lemma_select_index(ls, |line: Seq<char>| build_class(line) == BuildLine::Error, k);
        assert(section(errors)[j + 1] == ls[k]);
        assert(l[kept.len() + j + 1] == ls[k]);
        lemma_ok_or_join_has(l, kept.len() + j + 1);
    }
}

/// The `bun build` output shows only status and bundle-size lines of the
/// input that mention no error, then the input's error lines after a `---`
/// line; or it says `"ok"`.
pub proof fn law_bun_build_only(s: Seq<char>)
    ensures
        exists|kept: Seq<Seq<char>>, errors: Seq<Seq<char>>|
            #[trigger] ok_or_join(kept + section(errors)) == bun_build_output(s) && (forall|j: int|
                0 <= j < kept.len() ==> content_lines(s).contains(#[trigger] kept[j]) && !contains(
                    lowered(kept[j]),
                    "error"@,
                ) && {
                    let line = kept[j];
                    ||| contains(line, "built"@)
                    ||| contains(line, "done"@)
                    ||| contains(line, "Build"@)
                    ||| regex_is_match(BUNDLE_SIZE_PATTERN@, line)
                }) && (forall|j: int|
                0 <= j < errors.len() ==> content_lines(s).contains(#[trigger] errors[j]) && contains(
                    lowered(errors[j]),
                    "error"@,
                )),
{
    let ls = content_lines(s);
    let kept = select(ls, |c: Seq<char>| build_class(c) == BuildLine::Kept);
    let errors = select(ls, |c: Seq<char>| build_class(c) == BuildLine::Error);
    lemma_select_from(ls, |c: Seq<char>| build_class(c) == BuildLine::Kept);
    lemma_select_from(ls, |c: Seq<char>| build_class(c) == BuildLine::Error);
    assert(ok_or_join(kept + section(errors)) == bun_build_output(s));
}

/// The class of the clean `bun build` line `clean`, whose lowercase form is
/// `lower` and whose match against `BUNDLE_SIZE_PATTERN` is `sized`.
pub fn build_line_kind(clean: &Vec<char>, lower: &Vec<char>, sized: bool) -> (r: BuildLine)
    ensures
        r == build_line_class(clean@, lower@, sized),
{
    if has(lower, "error") {
        BuildLine::Error
    } else if has(clean, "built") || has(clean, "done") || has(clean, "Build") || sized {
        BuildLine::Kept
    } else {
        BuildLine::Dropped
    }
}

fn build_kind(c: &Vec<char>) -> (r: BuildLine)
    ensures
        r == build_class(c@),
{
    let lower = lowercase_chars(c);
    let text = string_of(c);
    let sized = pattern_is_match(BUNDLE_SIZE_PATTERN, text.as_str());
    build_line_kind(c, &lower, sized)
}

/// Strips per-file status spam from `bun build` output, keeping errors.
pub fn filter_bun_build(output: &str) -> (r: String)
    ensures
        r@ == bun_build_output(output@),
{
    let content = content_of(output);
    let ghost ls = content.deep_view();
    let ghost p_kept = |c: Seq<char>| build_class(c) == BuildLine::Kept;
    let ghost p_error = |c: Seq<char>| build_class(c) == BuildLine::Error;
    proof {
        lemma_deep_index(content);
    }
    let mut kept: Vec<Vec<char>> = Vec::new();
    let mut errors: Vec<Vec<char>> = Vec::new();
    for i in 0..content.len()
        invariant
            ls == content.deep_view(),
            ls == content_lines(output@),
            ls.len() == content@.len(),
            forall|k: int| 0 <= k < content@.len() ==> #[trigger] ls[k] == content@[k]@,
            p_kept == (|c: Seq<char>| build_class(c) == BuildLine::Kept),
            p_error == (|c: Seq<char>| build_class(c) == BuildLine::Error),
            kept.deep_view() == select(ls.take(i as int), p_kept),
            errors.deep_view() == select(ls.take(i as int), p_error),
    {
        proof {
            lemma_select_step(ls, p_kept, i as int);
            lemma_select_step(ls, p_error, i as int);
        }
        let line = &content[i];
        match build_kind(line) {
            BuildLine::Error => push_line(&mut errors, line.clone()),
            BuildLine::Kept => push_line(&mut kept, line.clone()),
            BuildLine::Dropped => {},
        }
    }
    proof {
        lemma_take_all(ls);
    }
    push_section(&mut kept, errors);
    ok_or_join_string(&kept)
}

/// Abstract state of the `bun test` stream handler.
pub struct BunTestState {
    pub passed: nat,
    pub failed: nat,
    pub skipped: nat,
    pub current_file: Seq<char>,
    /// One report per failing test: its context, its marker line and its file.
    pub failures: Seq<Seq<char>>,
    /// Recent non-blank lines that may explain the next failure.
    pub context: Seq<Seq<char>>,
}

impl BunTestState {
    /// Every counted failure has its report, at most 12 context lines are
    /// kept and none of them is blank, and no file is recorded.
    pub open spec fn wf(self) -> bool {
        &&& self.failures.len() == self.failed
        &&& self.context.len() <= 12
        &&& forall|i: int| 0 <= i < self.context.len() ==> !all_ws(#[trigger] self.context[i])
        &&& self.current_file.len() == 0
    }
}

/// Whether a clean line marks a failing test.
pub open spec fn is_fail_marker(c: Seq<char>) -> bool {
    contains(c, "(fail)"@) || contains(c, "[E]"@) || contains(c, "\u{2717}"@)
}

/// Whether a clean line marks a passing test.
pub open spec fn is_pass_marker(c: Seq<char>) -> bool {
    contains(c, "(pass)"@) || contains(c, "\u{2713}"@)
}

/// Whether a clean line marks a skipped test.
pub open spec fn is_skip_marker(c: Seq<char>) -> bool {
    contains(c, "(skip)"@) || contains(c, "skip"@)
}

/// The report of a failure: up to the last six context lines, the marker line,
/// and the current file when there is one.
pub open spec fn failure_block(st: BunTestState, clean: Seq<char>) -> Seq<char> {
    let n = st.context.len();
    let recent = if n > 6 {
        st.context.skip(n - 6)
    } else {
        st.context
    };
    let file = if st.current_file.len() > 0 {
        seq!["file: "@ + st.current_file]
    } else {
        Seq::empty()
    };
    join(recent + seq![clean] + file, "\n"@)
}

/// The handler's state after it looked at the clean line `clean` as a possible
/// block start, and its answer.
pub open spec fn block_start_step(st: BunTestState, clean: Seq<char>) -> (BunTestState, bool) {
    if is_fail_marker(clean) {
        (
            BunTestState {
                failures: st.failures.push(failure_block(st, clean)),
                failed: st.failed + 1,
                context: Seq::empty(),
                ..st
            },
            true,
        )
    } else if is_pass_marker(clean) {
        (BunTestState { passed: st.passed + 1, context: Seq::empty(), ..st }, false)
    } else if is_skip_marker(clean) {
        (BunTestState { skipped: st.skipped + 1, ..st }, false)
    } else if !all_ws(clean) {
        let ctx = st.context.push(clean);
        (BunTestState { context: if ctx.len() > 12 { ctx.drop_first() } else { ctx }, ..st }, false)
    } else {
        (st, false)
    }
}

/// Looking at a line counts it at most once: no counter goes down, at most
/// one goes up by one, a block starts exactly when a failure is counted,
/// earlier failure reports stay as they were, the file stays the same, and
/// the handler's invariant is kept.
pub proof fn law_block_start_counts(st: BunTestState, clean: Seq<char>)
    ensures
        ({
            let (next, started) = block_start_step(st, clean);
            &&& st.passed <= next.passed && st.failed <= next.failed && st.skipped <= next.skipped
            &&& next.passed + next.failed + next.skipped <= st.passed + st.failed + st.skipped + 1
            &&& started <==> next.failed == st.failed + 1
            &&& next.failures.take(st.failures.len() as int) == st.failures
            &&& next.current_file == st.current_file
            &&& st.wf() ==> next.wf()
        }),
{
    let next = block_start_step(st, clean).0;
    if is_fail_marker(clean) {
        assert(next.failures.take(st.failures.len() as int) =~= st.failures);
    } else {
        assert(next.failures.take(st.failures.len() as int) =~= st.failures);
    }
}

/// The state of a handler that has seen nothing yet.
pub open spec fn fresh_state() -> BunTestState {
    BunTestState {
        passed: 0,
        failed: 0,
        skipped: 0,
        current_file: Seq::empty(),
        failures: Seq::empty(),
        context: Seq::empty(),
    }
}

/// A pass marker (`(pass)` or `✓`) on a line without a fail marker counts
/// one pass, starts no block, keeps the failures and forgets the buffered
/// context lines.
pub proof fn law_pass_clears_context(st: BunTestState, p: Seq<char>)
    requires
        contains(p, "(pass)"@) || contains(p, "\u{2713}"@),
        !contains(p, "(fail)"@) && !contains(p, "[E]"@) && !contains(p, "\u{2717}"@),
    ensures
        ({
            let (next, started) = block_start_step(st, p);
            &&& !started
            &&& next.passed == st.passed + 1
            &&& next.failed == st.failed && next.skipped == st.skipped
            &&& next.failures == st.failures
            &&& next.context.len() == 0
        }),
{
}

/// A fail marker (`(fail)`, `[E]` or `✗`) starts a block, counts one failure
/// with a report that holds the line, and forgets the buffered context.
pub proof fn law_fail_marker(st: BunTestState, f: Seq<char>)
    requires
        contains(f, "(fail)"@) || contains(f, "[E]"@) || contains(f, "\u{2717}"@),
    ensures
        ({
            let (next, started) = block_start_step(st, f);
            &&& started
            &&& next.failed == st.failed + 1
            &&& next.passed == st.passed && next.skipped == st.skipped
            &&& next.failures.len() == st.failures.len() + 1
            &&& next.failures.take(st.failures.len() as int) == st.failures
            &&& contains(next.failures.last(), f)
            &&& next.context.len() == 0
        }),
{
    let n = st.context.len();
    let recent = if n > 6 {
        st.context.skip(n - 6)
    } else {
        st.context
    };
    let file: Seq<Seq<char>> = if st.current_file.len() > 0 {
        seq!["file: "@ + st.current_file]
    } else {
        Seq::empty()
    };
    let parts = recent + seq![f] + file;
    assert(parts[recent.len() as int] == f);
    lemma_join_has(parts, "\n"@, recent.len() as int);
    let next = block_start_step(st, f).0;
    assert(next.failures.take(st.failures.len() as int) =~= st.failures);
}

/// A skip marker (`skip`) on a line without a pass or fail marker counts one
/// skip and changes nothing else.
pub proof fn law_skip_marker(st: BunTestState, line: Seq<char>)
    requires
        contains(line, "skip"@),
        !contains(line, "(pass)"@) && !contains(line, "\u{2713}"@),
        !contains(line, "(fail)"@) && !contains(line, "[E]"@) && !contains(line, "\u{2717}"@),
    ensures
        block_start_step(st, line) == (BunTestState { skipped: st.skipped + 1, ..st }, false),
{
    reveal_strlit("skip");
    reveal_strlit("(skip)");
    assert(!contains(line, "(skip)"@) || contains(line, "(skip)"@));
}

/// Any other non-blank line is buffered as context: it becomes the last
/// context line, at most the 12 most recent are kept, and no count changes.
pub proof fn law_context_line(st: BunTestState, line: Seq<char>)
    requires
        !all_ws(line),
        !contains(line, "skip"@),
        !contains(line, "(pass)"@) && !contains(line, "\u{2713}"@),
        !contains(line, "(fail)"@) && !contains(line, "[E]"@) && !contains(line, "\u{2717}"@),
        st.context.len() <= 12,
    ensures
        ({
            let (next, started) = block_start_step(st, line);
            &&& !started
            &&& next.passed == st.passed && next.failed == st.failed && next.skipped == st.skipped
            &&& next.failures == st.failures
            &&& next.context.len() == if st.context.len() < 12 { st.context.len() + 1 } else { 12 }
            &&& next.context.last() == line
            &&& next.context == st.context.push(line).skip(st.context.len() + 1 - next.context.len())
        }),
{
    reveal_strlit("skip");
    reveal_strlit("(skip)");
    assert(!contains(line, "(skip)"@)) by {
        if contains(line, "(skip)"@) {
            let i = choose|i: int| occurs_at(line, "(skip)"@, i);
            assert(line.subrange(i + 1, i + 5) =~= "skip"@) by {
                assert(line.subrange(i, i + 6) == "(skip)"@);
                assert forall|j: int| 0 <= j < 4 implies line.subrange(i + 1, i + 5)[j] == "skip"@[j] by {
                    assert(line.subrange(i, i + 6)[j + 1] == line[i + 1 + j]);
                }
            }
            assert(occurs_at(line, "skip"@, i + 1));
        }
    }
    let ctx = st.context.push(line);
    let next = block_start_step(st, line).0;
    if ctx.len() > 12 {
        assert(next.context == ctx.drop_first());
        assert(ctx.drop_first() =~= ctx.skip(1));
    } else {
        assert(ctx.skip(0) =~= ctx);
    }
}

/// A failure right after a pass marker is reported by its own line alone:
/// nothing seen before the pass marker goes into its report.
pub proof fn law_failure_after_pass(st: BunTestState, p: Seq<char>, f: Seq<char>)
    requires
        st.wf(),
        contains(p, "(pass)"@) || contains(p, "\u{2713}"@),
        !contains(p, "(fail)"@) && !contains(p, "[E]"@) && !contains(p, "\u{2717}"@),
        contains(f, "(fail)"@) || contains(f, "[E]"@) || contains(f, "\u{2717}"@),
    ensures
        ({
            let (mid, _) = block_start_step(st, p);
            let (next, started) = block_start_step(mid, f);
            &&& started
            &&& next.failed == st.failed + 1
            &&& next.failures == st.failures.push(f)
            &&& next.context.len() == 0
        }),
{
    law_pass_clears_context(st, p);
    let mid = block_start_step(st, p).0;
    assert(mid.context.skip(0) =~= mid.context);
    assert(mid.context + seq![f] + Seq::<Seq<char>>::empty() =~= seq![f]);
}

/// A call on the `bun test` handler, with the line it is given.
pub enum HandlerCall {
    /// `should_skip(line)`.
    Skip(Seq<char>),
    /// `is_block_start(line)`.
    Start(Seq<char>),
    /// `is_block_continuation(line, ..)`.
    Continue(Seq<char>),
    /// `format_summary(..)`.
    Summary,
}

/// The state of a fresh handler after the calls `cs`, in order, and how many
/// of the `is_block_start` calls answered true. Only `is_block_start` changes
/// the state, as the methods' contracts say.
pub open spec fn handler_fold(cs: Seq<HandlerCall>) -> (BunTestState, nat)
    decreases cs.len(),
{
    if cs.len() == 0 {
        (fresh_state(), 0)
    } else {
        let (st, n) = handler_fold(cs.drop_last());
        match cs.last() {
            HandlerCall::Start(line) => {
                let (next, started) = block_start_step(st, strip_ansi(line));
                (next, n + if started {
                    1nat
                } else {
                    0nat
                })
            },
            _ => (st, n),
        }
    }
}

/// From a fresh handler, after any sequence of calls, the invariant holds
/// (one report per failure, at most 12 context lines, none blank, no file
/// recorded) and the number of `is_block_start` calls that answered true is
/// the number of failures.
pub proof fn law_handler_calls(cs: Seq<HandlerCall>)
    ensures
        handler_fold(cs).0.wf(),
        handler_fold(cs).1 == handler_fold(cs).0.failed,
    decreases cs.len(),
{
    if cs.len() > 0 {
        law_handler_calls(cs.drop_last());
        match cs.last() {
            HandlerCall::Start(line) => {
                law_block_start_counts(handler_fold(cs.drop_last()).0, strip_ansi(line));
            },
            _ => {},
        }
    }
}

/// The summary printed at the end of `bun test`.
pub open spec fn bun_test_summary(st: BunTestState) -> Seq<char> {
    if st.failed == 0 && st.passed == 0 && st.skipped == 0 {
        "bun test: no output"@
    } else {
        join(
            seq![decimal(st.passed) + " passed, "@ + decimal(st.failed) + " failed, "@ + decimal(st.skipped) + " skipped"@]
                + with_separators(st.failures),
            "\n"@,
        )
    }
}

/// Stream handler for `bun test`.
///
/// Bun prints passing tests as `✓` or `(pass)` and failing ones as `(fail)` or
/// `[E]`. Error context comes before the failure marker, so recent lines are
/// buffered and attached to the next failure.
pub struct BunTestHandler {
    passed: usize,
    failed: usize,
    skipped: usize,
    current_file: Vec<char>,
    failures: Vec<Vec<char>>,
    context_buffer: Vec<Vec<char>>,
}

impl View for BunTestHandler {
    type V = BunTestState;

    closed spec fn view(&self) -> BunTestState {
        BunTestState {
            passed: self.passed as nat,
            failed: self.failed as nat,
            skipped: self.skipped as nat,
            current_file: self.current_file@,
            failures: self.failures.deep_view(),
            context: self.context_buffer.deep_view(),
        }
    }
}

impl BunTestHandler {
    /// A handler that has seen nothing yet.
    pub fn new() -> (h: Self)
        ensures
            h@ == fresh_state(),
            h@.wf(),
    {
        let h = BunTestHandler {
            passed: 0,
            failed: 0,
            skipped: 0,
            current_file: Vec::new(),
            failures: Vec::new(),
            context_buffer: Vec::new(),
        };
        assert(h.failures.deep_view() =~= Seq::<Seq<char>>::empty());
        assert(h.context_buffer.deep_view() =~= Seq::<Seq<char>>::empty());
        h
    }

    /// Whether a line is noise to drop before block detection: blank, or one
    /// of bun's own summary lines.
    pub fn should_skip(&mut self, line: &str) -> (r: bool)
        ensures
            final(self)@ == old(self)@,
            r == ({
                let clean = strip_ansi(line@);
                all_ws(clean) || starts_with(clean, "Test Files "@) || starts_with(clean, "Tests "@)
                    || starts_with(clean, "Duration "@)
            }),
    {
        let clean = strip_ansi_chars(&chars_of(line));
        is_blank(&clean) || begins(&clean, "Test Files ") || begins(&clean, "Tests ") || begins(
            &clean,
            "Duration ",
        )
    }

    /// Whether the handler can look at one more line: no counter is at its limit.
    pub fn can_count(&self) -> (r: bool)
        ensures
            r == (self@.passed < usize::MAX && self@.failed < usize::MAX && self@.skipped < usize::MAX),
    {
        self.passed < usize::MAX && self.failed < usize::MAX && self.skipped < usize::MAX
    }

    /// Looks at a line: a failure marker starts a block and records a failure
    /// with its context; pass and skip markers are counted; other non-blank
    /// lines are kept as context.
    pub fn is_block_start(&mut self, line: &str) -> (r: bool)
        requires
            block_start_step(old(self)@, strip_ansi(line@)).0.passed <= usize::MAX,
            block_start_step(old(self)@, strip_ansi(line@)).0.failed <= usize::MAX,
            block_start_step(old(self)@, strip_ansi(line@)).0.skipped <= usize::MAX,
        ensures
            (final(self)@, r) == block_start_step(old(self)@, strip_ansi(line@)),
            old(self)@.wf() ==> final(self)@.wf(),
    {
        let clean = strip_ansi_chars(&chars_of(line));
        let ghost st = self@;
        proof {
            lemma_deep_index(self.context_buffer);
            lemma_deep_index(self.failures);
        }
        if has(&clean, "(fail)") || has(&clean, "[E]") || has(&clean, "\u{2717}") {
            let n = self.context_buffer.len();
            let start = if n > 6 {
                n - 6
            } else {
                0
            };
            let mut block: Vec<Vec<char>> = Vec::new();
            for k in start..n
                invariant
                    n == self.context_buffer.len(),
                    start <= n,
                    self.context_buffer.deep_view() == st.context,
                    st.context.len() == self.context_buffer@.len(),
                    forall|j: int| 0 <= j < n ==> #[trigger] st.context[j] == self.context_buffer@[j]@,
                    block.deep_view() == st.context.subrange(start as int, k as int),
            {
                push_line(&mut block, self.context_buffer[k].clone());
                assert(block.deep_view() =~= st.context.subrange(start as int, k + 1));
            }
            assert(st.context.subrange(start as int, n as int) =~= if n > 6 {
                st.context.skip(n - 6)
            } else {
                st.context
            });
            let ghost recent = block.deep_view();
            let ghost cv = clean@;
            push_line(&mut block, clean);
            let ghost file_part: Seq<Seq<char>> = if st.current_file.len() > 0 {
                seq!["file: "@ + st.current_file]
            } else {
                Seq::empty()
            };
            if self.current_file.len() > 0 {
                let mut f = chars_of("file: ");
                append_chars(&mut f, &self.current_file);
                push_line(&mut block, f);
            }
            assert(block.deep_view() =~= recent + seq![cv] + file_part);
            let report = join_chars(&block, "\n");
            push_line(&mut self.failures, report);
            self.failed = self.failed + 1;
            self.context_buffer = Vec::new();
            assert(self.context_buffer.deep_view() =~= Seq::<Seq<char>>::empty());
            assert(self@ == block_start_step(st, cv).0);
            true
        } else if has(&clean, "(pass)") || has(&clean, "\u{2713}") {
            self.passed = self.passed + 1;
            self.context_buffer = Vec::new();
            assert(self.context_buffer.deep_view() =~= Seq::<Seq<char>>::empty());
            assert(self@ == block_start_step(st, clean@).0);
            false
        } else if has(&clean, "(skip)") || has(&clean, "skip") {
            self.skipped = self.skipped + 1;
            assert(self@ == block_start_step(st, clean@).0);
            false
        } else {
            if !is_blank(&clean) {
                push_line(&mut self.context_buffer, clean);
                if self.context_buffer.len() > 12 {
                    let ghost before = self.context_buffer;
                    self.context_buffer.remove(0);
                    proof {
                        lemma_deep_index(before);
                        lemma_deep_index(self.context_buffer);
                        assert(self.context_buffer.deep_view() =~= before.deep_view().drop_first());
                    }
                }
            }
            assert(self@ == block_start_step(st, clean@).0);
            false
        }
    }

    /// Whether a line continues the current block: indented, or a stack frame.
    pub fn is_block_continuation(&mut self, line: &str, _block: &[String]) -> (r: bool)
        ensures
            final(self)@ == old(self)@,
            r == ({
                let clean = strip_ansi(line@);
                starts_with(clean, "  "@) || starts_with(clean, "\t"@) || starts_with(clean, "at "@)
            }),
    {
        let clean = strip_ansi_chars(&chars_of(line));
        begins(&clean, "  ") || begins(&clean, "\t") || begins(&clean, "at ")
    }

    /// The final summary: counts, then each failure report after a `---` line.
    pub fn format_summary(&self, _exit_code: i32, _raw: &str) -> (r: Option<String>)
        ensures
            r matches Some(s) && s@ == bun_test_summary(self@),
    {
        if self.failed == 0 && self.passed == 0 && self.skipped == 0 {
            return Some(String::from_str("bun test: no output"));
        }
        let mut head = decimal_chars(self.passed);
        append_str(&mut head, " passed, ");
        append_chars(&mut head, &decimal_chars(self.failed));
        append_str(&mut head, " failed, ");
        append_chars(&mut head, &decimal_chars(self.skipped));
        append_str(&mut head, " skipped");
        let mut lines: Vec<Vec<char>> = Vec::new();
        push_line(&mut lines, head);
        push_separated(&mut lines, &self.failures);
        assert(lines.deep_view() =~= seq![
            decimal(self@.passed) + " passed, "@ + decimal(self@.failed) + " failed, "@ + decimal(self@.skipped) + " skipped"@
        ] + with_separators(self@.failures));
        let v = join_chars(&lines, "\n");
        Some(string_of(&v))
    }
}

} // verus!
