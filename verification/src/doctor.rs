//! Diagnosing a set-up: which hooks are installed, whether their manifests are in
//! order, and whether the tools they run can be found.

use crate::config;
use crate::config::{HookResult, HookType, LenientManifest};
use crate::installer;
use crate::runner;
use crate::shell;
use crate::style;
use crate::text;
use vstd::prelude::*;
use vstd::string::*;

verus! {

broadcast use {group_string_axioms, vstd::seq::group_seq_axioms};

// ---- what a script runs ----

/// The words behind each `--config` of a command line.
pub open spec fn config_words(words: Seq<Seq<char>>) -> Seq<Seq<char>>
    decreases words.len(),
{
    if words.len() < 2 {
        seq![]
    } else if words[0] == "--config"@ {
        seq![words[1]] + config_words(words.skip(2))
    } else {
        config_words(words.skip(1))
    }
}

/// The manifests that one line of a script names, if it runs nizm.
pub open spec fn line_configs(line: Seq<char>) -> Seq<Seq<char>> {
    let trimmed = text::trim(line);
    if "nizm"@.is_prefix_of(trimmed) {
        config_words(shell::words(trimmed))
    } else {
        seq![]
    }
}

/// The manifests that lines of a script name.
pub open spec fn baked_configs(lines: Seq<Seq<char>>) -> Seq<Seq<char>>
    decreases lines.len(),
{
    if lines.len() == 0 {
        seq![]
    } else {
        baked_configs(lines.drop_last()) + line_configs(lines.last())
    }
}

/// Adds the words behind each `--config`.
fn add_config_words(out: &mut Vec<String>, words: &Vec<String>)
    ensures
        text::views(final(out)@) == text::views(old(out)@) + config_words(text::views(words@)),
{
    let ghost start = text::views(out@);
    let ghost all = text::views(words@);
    let mut i: usize = 0;
    proof {
        assert(all.skip(0) =~= all);
    }
    while i < words.len() && words.len() - i >= 2
        invariant
            i <= words.len(),
            all == text::views(words@),
            start + config_words(all) =~= text::views(out@) + config_words(all.skip(i as int)),
        decreases words.len() - i,
    {
        let ghost before = text::views(out@);
        let ghost rest = all.skip(i as int);
        proof {
            assert(rest[0] == words@[i as int]@);
            assert(rest[1] == words@[i + 1]@);
            assert(rest.skip(1) =~= all.skip(i + 1));
            assert(rest.skip(2) =~= all.skip(i + 2));
        }
        if text::same(words[i].as_str(), "--config") {
            out.push(words[i + 1].clone());
            proof {
                assert(text::views(out@) =~= before.push(rest[1]));
            }
            i += 2;
        } else {
            i += 1;
        }
    }
    proof {
        assert(config_words(all.skip(i as int)) =~= seq![]);
        assert(text::views(out@) =~= start + config_words(all));
    }
}

/// The manifests that a script names where it runs nizm.
pub fn parse_baked_configs(content: &str) -> (r: Vec<String>)
    ensures
        text::views(r@) == baked_configs(text::lines(content@)),
{
    let lines = text::split_lines(content);
    let ghost all = text::lines(content@);
    let mut r: Vec<String> = Vec::new();
    let mut i: usize = 0;
    proof {
        assert(all.len() == lines@.len());
        assert(text::views(r@) =~= baked_configs(all.take(0)));
    }
    while i < lines.len()
        invariant
            i <= lines.len(),
            all == text::lines(content@),
            text::views(lines@) == all,
            all.len() == lines@.len(),
            text::views(r@) == baked_configs(all.take(i as int)),
        decreases lines.len() - i,
    {
        let ghost before = text::views(r@);
        proof {
            assert(all.take(i + 1).drop_last() =~= all.take(i as int));
            assert(all.take(i + 1).last() == all[i as int]);
            assert(all[i as int] == lines@[i as int]@);
        }
        let trimmed = text::trimmed(lines[i].as_str());
        if text::begins_with(trimmed.as_str(), "nizm") {
            add_config_words(&mut r, &shell::split(trimmed.as_str()));
        }
        proof {
            assert(text::views(r@) =~= before + line_configs(all[i as int]));
        }
        i += 1;
    }
    proof {
        assert(all.take(i as int) =~= all);
    }
    r
}

/// The first word of a command; the command itself if it has none.
pub open spec fn executable(cmd: Seq<char>) -> Seq<char> {
    if text::words(cmd).len() > 0 {
        text::words(cmd)[0]
    } else {
        cmd
    }
}

/// The first word of a command; the command itself if it has none.
pub fn extract_executable(cmd: &str) -> (r: String)
    ensures
        r@ == executable(cmd@),
{
    let words = text::split_words(cmd);
    proof {
        assert(text::words(cmd@).len() == words@.len());
    }
    if words.len() > 0 {
        proof {
            assert(text::words(cmd@)[0] == words@[0]@);
        }
        words[0].clone()
    } else {
        String::from_str(cmd)
    }
}

// ---- the report ----

/// One check: the line that shows it, and how to mend it if it failed.
pub struct Check {
    pub line: Seq<char>,
    pub fix: Option<Seq<char>>,
}

/// What to do about the checks that failed, in their order.
pub open spec fn fixes_of(checks: Seq<Check>) -> Seq<Seq<char>>
    decreases checks.len(),
{
    if checks.len() == 0 {
        seq![]
    } else {
        match checks.last().fix {
            Some(f) => fixes_of(checks.drop_last()).push(f),
            None => fixes_of(checks.drop_last()),
        }
    }
}

/// The lines that show the checks.
pub open spec fn check_lines(checks: Seq<Check>) -> Seq<Seq<char>> {
    Seq::new(checks.len(), |i: int| checks[i].line)
}

/// The checks that were made, how many passed and failed, and what to do about
/// those that failed.
pub struct Counters {
    pub lines: Vec<String>,
    pub pass: usize,
    pub fail: usize,
    pub fixes: Vec<String>,
    pub checks: Ghost<Seq<Check>>,
}

impl Counters {
    /// The lines, the numbers and the fixes are those of the checks. Every check
    /// has one line, and every check that failed has one fix.
    pub open spec fn wf(&self) -> bool {
        &&& text::views(self.lines@) == check_lines(self.checks@)
        &&& text::views(self.fixes@) == fixes_of(self.checks@)
        &&& self.fail == self.fixes@.len()
        &&& self.pass + self.fail == self.lines@.len()
    }

    /// A report of no checks.
    pub fn new() -> (r: Counters)
        ensures
            r.wf(),
            r.checks@ == Seq::<Check>::empty(),
    {
        let r = Counters {
            lines: Vec::new(),
            pass: 0,
            fail: 0,
            fixes: Vec::new(),
            checks: Ghost(Seq::empty()),
        };
        proof {
            assert(text::views(r.lines@) =~= check_lines(seq![]));
            assert(text::views(r.fixes@) =~= fixes_of(seq![]));
        }
        r
    }

    /// Adds a check that passed.
    pub fn ok(&mut self, line: String)
        requires
            old(self).wf(),
        ensures
            final(self).wf(),
            final(self).checks@ == old(self).checks@.push((Check { line: line@, fix: None })),
    {
        let ghost shown = text::views(self.lines@).push(line@);
        let ghost more = self.checks@.push((Check { line: line@, fix: None }));
        self.lines.push(line);
        self.checks = Ghost(more);
        proof {
            assert(text::views(self.lines@) =~= shown);
            assert(shown =~= check_lines(more));
            assert(more.drop_last() =~= old(self).checks@);
            assert(self.lines@.len() <= usize::MAX) by {
                assert(self.lines.len() == self.lines@.len());
            }
        }
        self.pass += 1;
    }

    /// Adds a check that failed, and how to mend it.
    pub fn err(&mut self, line: String, fix: String)
        requires
            old(self).wf(),
        ensures
            final(self).wf(),
            final(self).checks@ == old(self).checks@.push(
                (Check { line: line@, fix: Some(fix@) }),
            ),
    {
        let ghost shown = text::views(self.lines@).push(line@);
        let ghost mended = text::views(self.fixes@).push(fix@);
        let ghost more = self.checks@.push((Check { line: line@, fix: Some(fix@) }));
        self.lines.push(line);
        self.fixes.push(fix);
        self.checks = Ghost(more);
        proof {
            assert(text::views(self.lines@) =~= shown);
            assert(shown =~= check_lines(more));
            assert(text::views(self.fixes@) =~= mended);
            assert(more.drop_last() =~= old(self).checks@);
            assert(self.lines@.len() <= usize::MAX) by {
                assert(self.lines.len() == self.lines@.len());
            }
        }
        self.fail += 1;
    }
}

/// The mark of a check that passed.
pub open spec fn ok_mark(color: bool) -> Seq<char> {
    style::green_text("✓"@, color)
}

/// The mark of a check that failed.
pub open spec fn err_mark(color: bool) -> Seq<char> {
    style::red_bold_text("✗"@, color)
}

/// The mark of a check that passed with reservations.
pub open spec fn warn_mark(color: bool) -> Seq<char> {
    style::yellow_text("~"@, color)
}

/// The line that leads to an item: the last one of its list has a corner.
pub open spec fn branch(last: bool) -> Seq<char> {
    if last {
        "└"@
    } else {
        "├"@
    }
}

/// A line of the tree: what stands before it, its branch and its label.
pub open spec fn tree_line(
    indent: Seq<char>,
    last: bool,
    label: Seq<char>,
    tail: Seq<char>,
) -> Seq<char> {
    indent + branch(last) + " "@ + label + tail
}

/// A line of the tree: what stands before it, its branch and its label.
fn tree_text(indent: &str, last: bool, label: &str, tail: &str) -> (r: String)
    ensures
        r@ == tree_line(indent@, last, label@, tail@),
{
    let mut r = String::from_str(indent);
    r.append(
        if last {
            "└"
        } else {
            "├"
        },
    );
    r.append(" ");
    r.append(label);
    r.append(tail);
    r
}

/// What is behind the label of something that failed: the error and the mark.
pub open spec fn failure_tail(error: Seq<char>, color: bool) -> Seq<char> {
    " — "@ + style::red_bold_text(error, color) + " "@ + err_mark(color)
}

/// What is behind the label of something that failed: the error and the mark.
fn failure_text(error: &str, color: bool) -> (r: String)
    ensures
        r@ == failure_tail(error@, color),
{
    let mut r = String::from_str(" — ");
    r.append(style::red_bold(error, color).as_str());
    r.append(" ");
    r.append(style::red_bold("✗", color).as_str());
    r
}

/// The check of one hook: whether it is in order, and whether its tool is one of
/// those that were found.
pub open spec fn hook_check(
    r: HookResult,
    path: Seq<char>,
    indent: Seq<char>,
    last: bool,
    found: Seq<Seq<char>>,
    color: bool,
) -> Check {
    match r {
        HookResult::Parsed(hook) => {
            let exe = executable(hook.cmd@);
            if found.contains(exe) {
                Check {
                    line: tree_line(
                        indent,
                        last,
                        hook.name@,
                        " ("@ + exe + ") "@ + ok_mark(color),
                    ),
                    fix: None,
                }
            } else {
                Check {
                    line: tree_line(
                        indent,
                        last,
                        hook.name@,
                        failure_tail("\""@ + exe + "\" not found in PATH"@, color),
                    ),
                    fix: Some("install \""@ + exe + "\""@),
                }
            }
        },
        HookResult::Failed { name, error } => Check {
            line: tree_line(indent, last, name@, failure_tail(error@, color)),
            fix: Some("fix \""@ + name@ + "\" in "@ + path),
        },
    }
}

/// Checks one hook.
fn check_hook(
    c: &mut Counters,
    r: &HookResult,
    path: &str,
    indent: &str,
    last: bool,
    found: &Vec<String>,
    color: bool,
)
    requires
        old(c).wf(),
    ensures
        final(c).wf(),
        final(c).checks@ == old(c).checks@.push(
            hook_check(*r, path@, indent@, last, text::views(found@), color),
        ),
{
    match r {
        HookResult::Parsed(hook) => {
            let exe = extract_executable(hook.cmd.as_str());
            if text::listed(found, exe.as_str()) {
                let mut tail = String::from_str(" (");
                tail.append(exe.as_str());
                tail.append(") ");
                tail.append(style::green("✓", color).as_str());
                c.ok(tree_text(indent, last, hook.name.as_str(), tail.as_str()));
            } else {
                let mut error = String::from_str("\"");
                error.append(exe.as_str());
                error.append("\" not found in PATH");
                let mut fix = String::from_str("install \"");
                fix.append(exe.as_str());
                fix.append("\"");
                let tail = failure_text(error.as_str(), color);
                c.err(tree_text(indent, last, hook.name.as_str(), tail.as_str()), fix);
            }
        },
        HookResult::Failed { name, error } => {
            let mut fix = String::from_str("fix \"");
            fix.append(name.as_str());
            fix.append("\" in ");
            fix.append(path);
            let tail = failure_text(error.as_str(), color);
            c.err(tree_text(indent, last, name.as_str(), tail.as_str()), fix);
        },
    }
}

/// All hooks of the list are in order.
pub open spec fn all_parsed(results: Seq<HookResult>) -> bool {
    forall|i: int| 0 <= i < results.len() ==> #[trigger] results[i] is Parsed
}

/// Some hook of the list is in order.
pub open spec fn any_parsed(results: Seq<HookResult>) -> bool {
    exists|i: int| 0 <= i < results.len() && #[trigger] results[i] is Parsed
}

/// The checks of the first `n` hooks of a manifest.
pub open spec fn hook_checks(
    results: Seq<HookResult>,
    n: int,
    path: Seq<char>,
    indent: Seq<char>,
    found: Seq<Seq<char>>,
    color: bool,
) -> Seq<Check> {
    Seq::new(
        n as nat,
        |i: int| hook_check(results[i], path, indent, i == results.len() - 1, found, color),
    )
}

/// The check of a manifest as a whole: it passes if it has no hooks or one that
/// is in order.
pub open spec fn manifest_check(
    path: Seq<char>,
    m: LenientManifest,
    indent: Seq<char>,
    last: bool,
    color: bool,
) -> Check {
    match m {
        LenientManifest::FileError(e) => Check {
            line: tree_line(indent, last, path, failure_tail(e@, color)),
            fix: Some("fix "@ + path),
        },
        LenientManifest::Hooks(results) => if results@.len() == 0 {
            Check {
                line: tree_line(
                    indent,
                    last,
                    path,
                    " — no hooks defined "@ + warn_mark(color),
                ),
                fix: None,
            }
        } else if all_parsed(results@) {
            Check { line: tree_line(indent, last, path, " "@ + ok_mark(color)), fix: None }
        } else if any_parsed(results@) {
            Check { line: tree_line(indent, last, path, " "@ + warn_mark(color)), fix: None }
        } else {
            Check {
                line: tree_line(indent, last, path, " "@ + err_mark(color)),
                fix: Some("fix hooks in "@ + path),
            }
        },
    }
}

/// What stands before the hooks of a manifest.
pub open spec fn hook_indent(indent: Seq<char>, last: bool) -> Seq<char> {
    indent + (if last {
        " "@
    } else {
        "│"@
    }) + "  "@
}

/// The checks of a manifest and of its hooks.
pub open spec fn manifest_checks(
    path: Seq<char>,
    m: LenientManifest,
    indent: Seq<char>,
    last: bool,
    found: Seq<Seq<char>>,
    color: bool,
) -> Seq<Check> {
    seq![manifest_check(path, m, indent, last, color)] + match m {
        LenientManifest::FileError(_) => seq![],
        LenientManifest::Hooks(results) => hook_checks(
            results@,
            results@.len() as int,
            path,
            hook_indent(indent, last),
            found,
            color,
        ),
    }
}

/// Are all hooks of the list in order, and is some?
fn parsed_state(results: &Vec<HookResult>) -> (r: (bool, bool))
    ensures
        r.0 == all_parsed(results@),
        r.1 == any_parsed(results@),
{
    let mut all = true;
    let mut any = false;
    let mut i: usize = 0;
    while i < results.len()
        invariant
            i <= results.len(),
            all == (forall|j: int| 0 <= j < i ==> #[trigger] results@[j] is Parsed),
            any == (exists|j: int| 0 <= j < i && #[trigger] results@[j] is Parsed),
        decreases results.len() - i,
    {
        match &results[i] {
            HookResult::Parsed(_) => {
                any = true;
                proof {
                    assert(results@[i as int] is Parsed);
                }
            },
            HookResult::Failed { name: _, error: _ } => {
                all = false;
                proof {
                    assert(!(results@[i as int] is Parsed));
                }
            },
        }
        i += 1;
    }
    (all, any)
}

/// Checks a manifest and its hooks.
fn check_manifest(
    c: &mut Counters,
    path: &str,
    m: &LenientManifest,
    indent: &str,
    last: bool,
    found: &Vec<String>,
    color: bool,
)
    requires
        old(c).wf(),
    ensures
        final(c).wf(),
        final(c).checks@ == old(c).checks@ + manifest_checks(
            path@,
            *m,
            indent@,
            last,
            text::views(found@),
            color,
        ),
{
    let ghost start = c.checks@;
    let results = match m {
        LenientManifest::FileError(e) => {
            let tail = failure_text(e.as_str(), color);
            let mut fix = String::from_str("fix ");
            fix.append(path);
            c.err(tree_text(indent, last, path, tail.as_str()), fix);
            proof {
                assert(c.checks@ =~= start + manifest_checks(
                    path@,
                    *m,
                    indent@,
                    last,
                    text::views(found@),
                    color,
                ));
            }
            return;
        },
        LenientManifest::Hooks(results) => results,
    };
    let (all, any) = parsed_state(results);
    if results.len() == 0 {
        let mut tail = String::from_str(" — no hooks defined ");
        tail.append(style::yellow("~", color).as_str());
        c.ok(tree_text(indent, last, path, tail.as_str()));
    } else if all {
        let mut tail = String::from_str(" ");
        tail.append(style::green("✓", color).as_str());
        c.ok(tree_text(indent, last, path, tail.as_str()));
    } else if any {
        let mut tail = String::from_str(" ");
        tail.append(style::yellow("~", color).as_str());
        c.ok(tree_text(indent, last, path, tail.as_str()));
    } else {
        let mut tail = String::from_str(" ");
        tail.append(style::red_bold("✗", color).as_str());
        let mut fix = String::from_str("fix hooks in ");
        fix.append(path);
        c.err(tree_text(indent, last, path, tail.as_str()), fix);
    }
    let ghost first = manifest_check(path@, *m, indent@, last, color);
    proof {
        assert(c.checks@ == start.push(first));
    }
    let mut inner = String::from_str(indent);
    inner.append(
        if last {
            " "
        } else {
            "│"
        },
    );
    inner.append("  ");
    let ghost known = text::views(found@);
    let mut i: usize = 0;
    proof {
        assert(start.push(first) =~= start.push(first) + hook_checks(
            results@,
            0,
            path@,
            inner@,
            known,
            color,
        ));
    }
    while i < results.len()
        invariant
            i <= results.len(),
            c.wf(),
            known == text::views(found@),
            c.checks@ == start.push(first) + hook_checks(
                results@,
                i as int,
                path@,
                inner@,
                known,
                color,
            ),
        decreases results.len() - i,
    {
        let ghost before = c.checks@;
        let last_hook = i == results.len() - 1;
        check_hook(c, &results[i], path, inner.as_str(), last_hook, found, color);
        proof {
            assert(c.checks@ =~= start.push(first) + hook_checks(
                results@,
                i + 1,
                path@,
                inner@,
                known,
                color,
            ));
        }
        i += 1;
    }
    proof {
        assert(c.checks@ =~= start + manifest_checks(
            path@,
            *m,
            indent@,
            last,
            known,
            color,
        ));
    }
}

/// The checks of the first `n` manifests of a list, with their hooks.
pub open spec fn config_checks(
    configs: Seq<(String, LenientManifest)>,
    n: int,
    found: Seq<Seq<char>>,
    color: bool,
) -> Seq<Check>
    decreases n,
{
    if n <= 0 {
        seq![]
    } else {
        config_checks(configs, n - 1, found, color) + manifest_checks(
            configs[n - 1].0@,
            configs[n - 1].1,
            "  "@,
            n == configs.len(),
            found,
            color,
        )
    }
}

/// Checks manifests and their hooks.
pub fn print_lenient_configs(
    c: &mut Counters,
    configs: &Vec<(String, LenientManifest)>,
    found: &Vec<String>,
    color: bool,
)
    requires
        old(c).wf(),
    ensures
        final(c).wf(),
        final(c).checks@ == old(c).checks@ + config_checks(
            configs@,
            configs@.len() as int,
            text::views(found@),
            color,
        ),
{
    let ghost start = c.checks@;
    let ghost known = text::views(found@);
    let mut i: usize = 0;
    proof {
        assert(start + config_checks(configs@, 0, known, color) =~= start);
    }
    while i < configs.len()
        invariant
            i <= configs.len(),
            c.wf(),
            known == text::views(found@),
            c.checks@ == start + config_checks(configs@, i as int, known, color),
        decreases configs.len() - i,
    {
        let last = i == configs.len() - 1;
        check_manifest(c, configs[i].0.as_str(), &configs[i].1, "  ", last, found, color);
        proof {
            assert(c.checks@ =~= start + config_checks(configs@, i + 1, known, color));
        }
        i += 1;
    }
}

// ---- a repository with hooks installed ----

/// The checks of one installed hook: that it is there, that it runs nizm, and
/// the manifests that it names.
pub open spec fn installed_checks(
    hook_type: HookType,
    configs: Seq<(String, LenientManifest)>,
    found: Seq<Seq<char>>,
    color: bool,
) -> Seq<Check> {
    let name = config::stage_name(hook_type);
    seq![
        Check {
            line: "  "@ + style::bold_text(name, color) + " (nizm-managed) "@ + ok_mark(color),
            fix: None,
        },
    ] + (if configs.len() == 0 {
        seq![
            Check {
                line: "  └ no nizm run line "@ + err_mark(color),
                fix: Some("reinstall "@ + name + " hook: nizm install"@),
            },
        ]
    } else {
        config_checks(configs, configs.len() as int, found, color)
    })
}

/// The checks of the first `n` installed hooks.
pub open spec fn all_installed_checks(
    installed: Seq<(HookType, Vec<(String, LenientManifest)>)>,
    n: int,
    found: Seq<Seq<char>>,
    color: bool,
) -> Seq<Check>
    decreases n,
{
    if n <= 0 {
        seq![]
    } else {
        all_installed_checks(installed, n - 1, found, color) + installed_checks(
            installed[n - 1].0,
            installed[n - 1].1@,
            found,
            color,
        )
    }
}

/// Checks the installed hooks, each with the manifests that its script names.
pub fn diagnose_installed(
    installed: &Vec<(HookType, Vec<(String, LenientManifest)>)>,
    found: &Vec<String>,
    color: bool,
) -> (r: Counters)
    ensures
        r.wf(),
        r.checks@ == all_installed_checks(
            installed@,
            installed@.len() as int,
            text::views(found@),
            color,
        ),
{
    let mut c = Counters::new();
    let ghost known = text::views(found@);
    let mut i: usize = 0;
    while i < installed.len()
        invariant
            i <= installed.len(),
            c.wf(),
            known == text::views(found@),
            c.checks@ == all_installed_checks(installed@, i as int, known, color),
        decreases installed.len() - i,
    {
        let ghost before = c.checks@;
        let name = installed[i].0.as_str();
        let mut line = String::from_str("  ");
        line.append(style::bold(name, color).as_str());
        line.append(" (nizm-managed) ");
        line.append(style::green("✓", color).as_str());
        c.ok(line);
        if installed[i].1.len() == 0 {
            let mut line = String::from_str("  └ no nizm run line ");
            line.append(style::red_bold("✗", color).as_str());
            let mut fix = String::from_str("reinstall ");
            fix.append(name);
            fix.append(" hook: nizm install");
            c.err(line, fix);
        } else {
            print_lenient_configs(&mut c, &installed[i].1, found, color);
        }
        proof {
            assert(c.checks@ =~= before + installed_checks(
                installed@[i as int].0,
                installed@[i as int].1@,
                known,
                color,
            ));
        }
        i += 1;
    }
    c
}

// ---- a repository without hooks installed ----

/// The manifest has entries for hooks.
pub open spec fn has_hooks(m: LenientManifest) -> bool {
    m matches LenientManifest::Hooks(results) && results@.len() > 0
}

/// Some manifest has entries for hooks.
pub open spec fn any_hooks(parsed: Seq<(String, LenientManifest)>) -> bool {
    exists|i: int| 0 <= i < parsed.len() && has_hooks((#[trigger] parsed[i]).1)
}

/// A hook of the stage that is in order.
pub open spec fn is_of_stage(r: HookResult, t: HookType) -> bool {
    r matches HookResult::Parsed(h) && h.hook_type == t
}

/// Some hook of the list is of the stage and in order.
pub open spec fn any_of_stage(results: Seq<HookResult>, t: HookType) -> bool {
    exists|j: int| 0 <= j < results.len() && is_of_stage(#[trigger] results[j], t)
}

/// The hooks of a manifest include one of the stage that is in order.
pub open spec fn offers_stage(m: LenientManifest, t: HookType) -> bool {
    match m {
        LenientManifest::FileError(_) => false,
        LenientManifest::Hooks(results) => any_of_stage(results@, t),
    }
}

/// Some manifest has a hook of the stage that is in order.
pub open spec fn stage_wanted(parsed: Seq<(String, LenientManifest)>, t: HookType) -> bool {
    exists|i: int| 0 <= i < parsed.len() && offers_stage((#[trigger] parsed[i]).1, t)
}

/// No manifest has a hook that is in order.
pub open spec fn no_stage_wanted(parsed: Seq<(String, LenientManifest)>) -> bool {
    forall|t: HookType| !stage_wanted(parsed, t)
}

/// The check of a stage whose hook is not installed.
pub open spec fn missing_check(t: HookType, color: bool) -> Check {
    Check {
        line: "  "@ + style::bold_text(config::stage_name(t), color) + " "@ + style::red_bold_text(
            "(not installed)"@,
            color,
        ) + " "@ + err_mark(color),
        fix: Some("run `nizm install` to set up "@ + config::stage_name(t) + " hook"@),
    }
}

/// The checks of the stages that hooks are to be installed for: those that some
/// hook in order belongs to, and `pre-commit` if there is none.
pub open spec fn missing_checks(
    types: Seq<HookType>,
    parsed: Seq<(String, LenientManifest)>,
    color: bool,
) -> Seq<Check>
    decreases types.len(),
{
    if types.len() == 0 {
        seq![]
    } else {
        let front = missing_checks(types.drop_last(), parsed, color);
        let t = types.last();
        if stage_wanted(parsed, t) || (no_stage_wanted(parsed) && t == HookType::PreCommit) {
            front.push(missing_check(t, color))
        } else {
            front
        }
    }
}

/// The checks of the manifests that cannot be read.
pub open spec fn file_error_checks(parsed: Seq<(String, LenientManifest)>, color: bool) -> Seq<
    Check,
>
    decreases parsed.len(),
{
    if parsed.len() == 0 {
        seq![]
    } else {
        let front = file_error_checks(parsed.drop_last(), color);
        match parsed.last().1 {
            LenientManifest::FileError(_) => front.push(
                manifest_check(parsed.last().0@, parsed.last().1, "  "@, true, color),
            ),
            LenientManifest::Hooks(_) => front,
        }
    }
}

/// The manifests that have anything to show.
pub open spec fn relevant(parsed: Seq<(String, LenientManifest)>) -> Seq<(String, LenientManifest)> {
    parsed.filter(|e: (String, LenientManifest)| has_hooks(e.1) || e.1 is FileError)
}

/// The checks of a repository without installed hooks: the stages that want one,
/// and the manifests; or that nothing is configured.
pub open spec fn uninstalled_checks(
    parsed: Seq<(String, LenientManifest)>,
    found: Seq<Seq<char>>,
    color: bool,
) -> Seq<Check> {
    if any_hooks(parsed) {
        missing_checks(config::every_type(), parsed, color) + config_checks(
            relevant(parsed),
            relevant(parsed).len() as int,
            found,
            color,
        )
    } else if file_error_checks(parsed, color).len() > 0 {
        file_error_checks(parsed, color)
    } else {
        seq![
            Check {
                line: "  no config found"@,
                fix: Some("run `nizm init` to configure hooks"@),
            },
        ]
    }
}

/// Has the manifest a hook of the stage that is in order?
fn has_stage(m: &LenientManifest, t: HookType) -> (r: bool)
    ensures
        r == offers_stage(*m, t),
{
    match m {
        LenientManifest::FileError(_) => false,
        LenientManifest::Hooks(results) => {
            let mut j: usize = 0;
            while j < results.len()
                invariant
                    j <= results.len(),
                    *m == LenientManifest::Hooks(*results),
                    forall|k: int| 0 <= k < j ==> !is_of_stage(#[trigger] results@[k], t),
                decreases results.len() - j,
            {
                match &results[j] {
                    HookResult::Parsed(h) => {
                        if h.hook_type == t {
                            proof {
                                assert(is_of_stage(results@[j as int], t));
                                assert(any_of_stage(results@, t));
                            }
                            return true;
                        }
                    },
                    HookResult::Failed { name: _, error: _ } => {},
                }
                j += 1;
            }
            false
        },
    }
}

/// Has some manifest a hook of the stage that is in order?
fn is_stage_wanted(parsed: &Vec<(String, LenientManifest)>, t: HookType) -> (r: bool)
    ensures
        r == stage_wanted(parsed@, t),
{
    let mut i: usize = 0;
    while i < parsed.len()
        invariant
            i <= parsed.len(),
            forall|k: int| 0 <= k < i ==> !offers_stage((#[trigger] parsed@[k]).1, t),
        decreases parsed.len() - i,
    {
        if has_stage(&parsed[i].1, t) {
            proof {
                assert(offers_stage(parsed@[i as int].1, t));
            }
            return true;
        }
        i += 1;
    }
    false
}

/// Has some manifest entries for hooks?
fn has_any_hooks(parsed: &Vec<(String, LenientManifest)>) -> (r: bool)
    ensures
        r == any_hooks(parsed@),
{
    let mut i: usize = 0;
    while i < parsed.len()
        invariant
            i <= parsed.len(),
            forall|k: int| 0 <= k < i ==> !has_hooks((#[trigger] parsed@[k]).1),
        decreases parsed.len() - i,
    {
        match &parsed[i].1 {
            LenientManifest::Hooks(results) => {
                if results.len() > 0 {
                    proof {
                        assert(has_hooks(parsed@[i as int].1));
                    }
                    return true;
                }
            },
            LenientManifest::FileError(_) => {},
        }
        i += 1;
    }
    false
}

/// Checks a repository without installed hooks.
pub fn diagnose_uninstalled(
    parsed: Vec<(String, LenientManifest)>,
    found: &Vec<String>,
    color: bool,
) -> (r: Counters)
    ensures
        r.wf(),
        r.checks@ == uninstalled_checks(parsed@, text::views(found@), color),
{
    let mut c = Counters::new();
    let ghost all = parsed@;
    if !has_any_hooks(&parsed) {
        let mut i: usize = 0;
        proof {
            assert(all.take(0).len() == 0);
        }
        while i < parsed.len()
            invariant
                i <= parsed.len(),
                all == parsed@,
                c.wf(),
                c.checks@ == file_error_checks(all.take(i as int), color),
            decreases parsed.len() - i,
        {
            proof {
                assert(all.take(i + 1).drop_last() =~= all.take(i as int));
                assert(all.take(i + 1).last() == all[i as int]);
            }
            match &parsed[i].1 {
                LenientManifest::FileError(e) => {
                    let path = parsed[i].0.as_str();
                    let tail = failure_text(e.as_str(), color);
                    let mut fix = String::from_str("fix ");
                    fix.append(path);
                    c.err(tree_text("  ", true, path, tail.as_str()), fix);
                },
                LenientManifest::Hooks(_) => {},
            }
            i += 1;
        }
        proof {
            assert(all.take(i as int) =~= all);
            assert(c.lines@.len() == check_lines(c.checks@).len()) by {
                assert(text::views(c.lines@).len() == c.lines@.len());
            }
        }
        if c.lines.len() == 0 {
            c.err(
                String::from_str("  no config found"),
                String::from_str("run `nizm init` to configure hooks"),
            );
            proof {
                assert(c.checks@ =~= uninstalled_checks(all, text::views(found@), color));
            }
        }
        return c;
    }
    let types = config::all_hook_types();
    let mut none = true;
    let mut i: usize = 0;
    while i < types.len()
        invariant
            i <= types.len(),
            all == parsed@,
            types@ == config::every_type(),
            none == (forall|k: int| 0 <= k < i ==> !stage_wanted(all, #[trigger] types@[k])),
        decreases types.len() - i,
    {
        if is_stage_wanted(&parsed, types[i]) {
            proof {
                assert(stage_wanted(all, types@[i as int]));
            }
            none = false;
        }
        i += 1;
    }
    proof {
        assert(none == no_stage_wanted(all)) by {
            if none {
                assert forall|t: HookType| !stage_wanted(all, t) by {
                    let k: int = match t {
                        HookType::PreCommit => 0,
                        HookType::PrePush => 1,
                        HookType::CommitMsg => 2,
                        HookType::PrepareCommitMsg => 3,
                    };
                    assert(types@[k] == t);
                }
            } else {
                let k = choose|k: int| 0 <= k < i && stage_wanted(all, #[trigger] types@[k]);
                assert(stage_wanted(all, types@[k]));
            }
        }
        assert(types@.take(0).len() == 0);
    }
    let mut i: usize = 0;
    while i < types.len()
        invariant
            i <= types.len(),
            all == parsed@,
            types@ == config::every_type(),
            none == no_stage_wanted(all),
            c.wf(),
            c.checks@ == missing_checks(types@.take(i as int), all, color),
        decreases types.len() - i,
    {
        let t = types[i];
        proof {
            assert(types@.take(i + 1).drop_last() =~= types@.take(i as int));
            assert(types@.take(i + 1).last() == t);
        }
        if is_stage_wanted(&parsed, t) || (none && t == HookType::PreCommit) {
            let mut line = String::from_str("  ");
            line.append(style::bold(t.as_str(), color).as_str());
            line.append(" ");
            line.append(style::red_bold("(not installed)", color).as_str());
            line.append(" ");
            line.append(style::red_bold("✗", color).as_str());
            let mut fix = String::from_str("run `nizm install` to set up ");
            fix.append(t.as_str());
            fix.append(" hook");
            c.err(line, fix);
        }
        i += 1;
    }
    proof {
        assert(types@.take(i as int) =~= types@);
    }
    let shown = keep_relevant(parsed);
    print_lenient_configs(&mut c, &shown, found, color);
    c
}

/// The manifests that have anything to show.
fn keep_relevant(parsed: Vec<(String, LenientManifest)>) -> (r: Vec<(String, LenientManifest)>)
    ensures
        r@ == relevant(parsed@),
{
    let ghost all = parsed@;
    let ghost keep = |e: (String, LenientManifest)| has_hooks(e.1) || e.1 is FileError;
    let mut rest = parsed;
    let mut r: Vec<(String, LenientManifest)> = Vec::new();
    let ghost mut k: int = 0;
    proof {
        reveal(Seq::filter);
        assert(all.skip(0) =~= all);
        assert(all.take(0).filter(keep) =~= seq![]);
    }
    while rest.len() > 0
        invariant
            0 <= k <= all.len(),
            rest@ == all.skip(k),
            keep == (|e: (String, LenientManifest)| has_hooks(e.1) || e.1 is FileError),
            r@ == all.take(k).filter(keep),
        decreases rest.len(),
    {
        proof {
            reveal(Seq::filter);
            assert(all.take(k + 1).drop_last() =~= all.take(k));
            assert(all.take(k + 1).last() == all[k]);
            assert(rest@[0] == all[k]);
            assert(rest@.remove(0) =~= all.skip(k + 1));
        }
        let e = rest.remove(0);
        let shown = match &e.1 {
            LenientManifest::FileError(_) => true,
            LenientManifest::Hooks(results) => results.len() > 0,
        };
        if shown {
            r.push(e);
        }
        proof {
            k = k + 1;
        }
    }
    proof {
        assert(all.take(k) =~= all);
    }
    r
}

// ---- the tools that hooks run ----

/// The tools that hooks in order run.
pub open spec fn tools_run(results: Seq<HookResult>) -> Seq<Seq<char>>
    decreases results.len(),
{
    if results.len() == 0 {
        seq![]
    } else {
        match results.last() {
            HookResult::Parsed(h) => tools_run(results.drop_last()).push(executable(h.cmd@)),
            HookResult::Failed { name: _, error: _ } => tools_run(results.drop_last()),
        }
    }
}

/// The tools that the hooks of a manifest run.
pub fn needed_tools(m: &LenientManifest) -> (r: Vec<String>)
    ensures
        text::views(r@) == (match *m {
            LenientManifest::FileError(_) => Seq::<Seq<char>>::empty(),
            LenientManifest::Hooks(results) => tools_run(results@),
        }),
{
    let mut r: Vec<String> = Vec::new();
    match m {
        LenientManifest::FileError(_) => {
            proof {
                assert(text::views(r@) =~= seq![]);
            }
        },
        LenientManifest::Hooks(results) => {
            let mut i: usize = 0;
            proof {
                assert(text::views(r@) =~= tools_run(results@.take(0)));
            }
            while i < results.len()
                invariant
                    i <= results.len(),
                    text::views(r@) == tools_run(results@.take(i as int)),
                decreases results.len() - i,
            {
                let ghost before = text::views(r@);
                proof {
                    assert(results@.take(i + 1).drop_last() =~= results@.take(i as int));
                    assert(results@.take(i + 1).last() == results@[i as int]);
                }
                match &results[i] {
                    HookResult::Parsed(h) => {
                        r.push(extract_executable(h.cmd.as_str()));
                        proof {
                            assert(text::views(r@) =~= before.push(executable(h.cmd@)));
                        }
                    },
                    HookResult::Failed { name: _, error: _ } => {},
                }
                i += 1;
            }
            proof {
                assert(results@.take(i as int) =~= results@);
            }
        },
    }
    r
}

// ---- the summary ----

/// The line that counts the checks.
pub open spec fn verdict(pass: nat, fail: nat, color: bool) -> Seq<char> {
    if fail == 0 {
        style::green_text("all "@ + text::decimal(pass) + " checks passed"@, color)
    } else {
        text::decimal(pass) + " passed, "@ + style::red_bold_text(
            text::decimal(fail) + " failed"@,
            color,
        )
    }
}

/// The lines that end a report: an empty one, the count, and the fixes, if there
/// are any.
pub open spec fn summary_lines(
    pass: nat,
    fail: nat,
    fixes: Seq<Seq<char>>,
    color: bool,
) -> Seq<Seq<char>> {
    seq![Seq::<char>::empty(), verdict(pass, fail, color)] + if fixes.len() == 0 {
        seq![]
    } else {
        seq![Seq::<char>::empty(), style::bold_text("suggested fixes"@, color) + ":"@] + Seq::new(
            fixes.len(),
            |i: int| "  → "@ + fixes[i],
        )
    }
}

/// The lines that end a report.
pub fn summary(c: &Counters, color: bool) -> (r: Vec<String>)
    ensures
        text::views(r@) == summary_lines(
            c.pass as nat,
            c.fail as nat,
            text::views(c.fixes@),
            color,
        ),
{
    let mut r: Vec<String> = Vec::new();
    r.push(String::new());
    if c.fail == 0 {
        let mut t = String::from_str("all ");
        t.append(text::decimal_text(c.pass as u128).as_str());
        t.append(" checks passed");
        r.push(style::green(t.as_str(), color));
    } else {
        let mut t = text::decimal_text(c.pass as u128);
        t.append(" passed, ");
        let mut f = text::decimal_text(c.fail as u128);
        f.append(" failed");
        t.append(style::red_bold(f.as_str(), color).as_str());
        r.push(t);
    }
    let ghost head = seq![
        Seq::<char>::empty(),
        verdict(c.pass as nat, c.fail as nat, color),
    ];
    let ghost fixes = text::views(c.fixes@);
    proof {
        assert(text::views(r@) =~= head);
        assert(fixes.len() == c.fixes@.len());
    }
    if c.fixes.len() == 0 {
        proof {
            assert(text::views(r@) =~= summary_lines(
                c.pass as nat,
                c.fail as nat,
                fixes,
                color,
            ));
        }
        return r;
    }
    r.push(String::new());
    let mut t = style::bold("suggested fixes", color);
    t.append(":");
    r.push(t);
    let ghost before = head + seq![
        Seq::<char>::empty(),
        style::bold_text("suggested fixes"@, color) + ":"@,
    ];
    let ghost rows = Seq::new(fixes.len(), |i: int| "  → "@ + fixes[i]);
    let mut i: usize = 0;
    proof {
        assert(text::views(r@) =~= before + rows.take(0));
    }
    while i < c.fixes.len()
        invariant
            i <= c.fixes.len(),
            fixes == text::views(c.fixes@),
            rows == Seq::new(fixes.len(), |i: int| "  → "@ + fixes[i]),
            text::views(r@) =~= before + rows.take(i as int),
        decreases c.fixes.len() - i,
    {
        let ghost so_far = text::views(r@);
        let mut t = String::from_str("  → ");
        t.append(c.fixes[i].as_str());
        r.push(t);
        proof {
            assert(text::views(r@) =~= so_far.push(rows[i as int]));
        }
        i += 1;
    }
    proof {
        assert(rows.take(i as int) =~= rows);
        assert(text::views(r@) =~= summary_lines(
            c.pass as nat,
            c.fail as nat,
            fixes,
            color,
        ));
    }
    r
}

// ---- laws ----

/// A report has no failures exactly if no check failed, and then no fixes.
pub proof fn law_healthy(c: Counters)
    requires
        c.wf(),
    ensures
        c.fail == 0 <==> forall|i: int|
            0 <= i < c.checks@.len() ==> (#[trigger] c.checks@[i]).fix is None,
        c.pass + c.fail == c.checks@.len(),
        c.fixes@.len() == c.fail,
{
    lemma_fixes(c.checks@);
    assert(text::views(c.lines@).len() == c.lines@.len());
    assert(text::views(c.fixes@).len() == c.fixes@.len());
}

proof fn lemma_fixes(checks: Seq<Check>)
    ensures
        fixes_of(checks).len() == 0 <==> forall|i: int|
            0 <= i < checks.len() ==> (#[trigger] checks[i]).fix is None,
    decreases checks.len(),
{
    if checks.len() > 0 {
        let front = checks.drop_last();
        lemma_fixes(front);
        if fixes_of(checks).len() == 0 {
            assert forall|i: int| 0 <= i < checks.len() implies (#[trigger] checks[i]).fix
                is None by {
                if i < front.len() {
                    assert(front[i] == checks[i]);
                }
            }
        } else if checks.last().fix is None {
            let i = choose|i: int| 0 <= i < front.len() && !((#[trigger] front[i]).fix is None);
            assert(checks[i] == front[i]);
        } else {
            assert(!(checks[checks.len() - 1].fix is None));
        }
    }
}

/// A path that a command line can name: not empty, and on one line.
pub open spec fn is_path(path: Seq<char>) -> bool {
    path.len() > 0 && !path.contains('\n')
}

/// The manifests as words of a command line.
spec fn config_tokens(paths: Seq<Seq<char>>) -> Seq<Seq<char>>
    decreases paths.len(),
{
    if paths.len() == 0 {
        seq![]
    } else {
        seq!["--config"@, paths[0]] + config_tokens(paths.skip(1))
    }
}

/// No word of the list is `--config`.
spec fn names_no_config(words: Seq<Seq<char>>) -> bool {
    forall|i: int| 0 <= i < words.len() ==> #[trigger] words[i] != "--config"@
}

proof fn lemma_no_config(words: Seq<Seq<char>>)
    requires
        names_no_config(words),
    ensures
        config_words(words) == Seq::<Seq<char>>::empty(),
    decreases words.len(),
{
    if words.len() >= 2 {
        let rest = words.skip(1);
        assert forall|i: int| 0 <= i < rest.len() implies #[trigger] rest[i] != "--config"@ by {
            assert(rest[i] == words[i + 1]);
        }
        lemma_no_config(rest);
    }
}

proof fn lemma_config_words(paths: Seq<Seq<char>>, tail: Seq<Seq<char>>)
    requires
        names_no_config(tail),
    ensures
        config_words(config_tokens(paths) + tail) == paths,
    decreases paths.len(),
{
    if paths.len() == 0 {
        assert(config_tokens(paths) + tail =~= tail);
        lemma_no_config(tail);
        assert(paths =~= Seq::<Seq<char>>::empty());
    } else {
        let first = paths[0];
        let rest = paths.skip(1);
        assert(paths =~= seq![first] + rest);
        lemma_config_words(rest, tail);
        let all = config_tokens(paths) + tail;
        assert(all[0] == "--config"@ && all[1] == first);
        assert(all.skip(2) =~= config_tokens(rest) + tail);
        assert(config_words(all) =~= paths);
    }
}

proof fn lemma_args_front(paths: Seq<Seq<char>>)
    requires
        paths.len() > 0,
    ensures
        installer::config_args(paths) == installer::config_arg(paths[0]) + installer::config_args(
            paths.skip(1),
        ),
    decreases paths.len(),
{
    let front = paths.drop_last();
    if front.len() == 0 {
        assert(installer::config_args(front) =~= seq![]);
        assert(paths.skip(1) =~= Seq::<Seq<char>>::empty());
        assert(installer::config_args(paths) =~= installer::config_arg(paths[0])
            + installer::config_args(paths.skip(1)));
    } else {
        lemma_args_front(front);
        assert(front[0] == paths[0]);
        assert(paths.skip(1).drop_last() =~= front.skip(1));
        assert(paths.skip(1).last() == paths.last());
        assert(installer::config_args(paths) =~= installer::config_arg(paths[0])
            + installer::config_args(paths.skip(1)));
    }
}

/// The words of a command line with the arguments that name manifests.
proof fn lemma_words_of_args(paths: Seq<Seq<char>>, tail: Seq<char>)
    requires
        forall|i: int| 0 <= i < paths.len() ==> is_path(#[trigger] paths[i]),
        shell::ends_word(tail),
    ensures
        shell::words(installer::config_args(paths) + tail) == config_tokens(paths) + shell::words(
            tail,
        ),
        shell::ends_word(installer::config_args(paths) + tail),
    decreases paths.len(),
{
    if paths.len() == 0 {
        assert(installer::config_args(paths) + tail =~= tail);
        assert(config_tokens(paths) + shell::words(tail) =~= shell::words(tail));
    } else {
        let sp = seq![' '];
        let opt = "--config"@;
        let first = paths[0];
        let others = paths.skip(1);
        assert(is_path(first));
        assert forall|i: int| 0 <= i < others.len() implies is_path(#[trigger] others[i]) by {
            assert(others[i] == paths[i + 1]);
        }
        lemma_words_of_args(others, tail);
        lemma_args_front(paths);
        let rest = installer::config_args(others) + tail;
        let all = installer::config_args(paths) + tail;
        reveal_strlit("--config");
        assert(shell::is_bare(opt));
        let arg = if installer::needs_quotes(first) {
            seq!['\''] + runner::quote_body(first) + seq!['\'']
        } else {
            first
        };
        if installer::needs_quotes(first) {
            reveal_strlit(" --config '");
            reveal_strlit("'");
            shell::lemma_quoted_first(first, rest);
            assert(" --config '"@ =~= sp + opt + sp + seq!['\'']);
            assert("'"@ =~= seq!['\'']);
        } else {
            reveal_strlit(" --config ");
            assert forall|i: int| 0 <= i < first.len() implies !shell::is_blank(
                #[trigger] first[i],
            ) && first[i] != '\'' by {
                assert(!installer::splits_word(first[i]));
            }
            shell::lemma_bare_first(first, rest);
            assert(" --config "@ =~= sp + opt + sp);
        }
        assert(shell::words(arg + rest) == seq![first] + shell::words(rest));
        shell::lemma_space_first(arg + rest);
        shell::lemma_bare_first(opt, sp + (arg + rest));
        shell::lemma_space_first(opt + (sp + (arg + rest)));
        assert(all =~= sp + (opt + (sp + (arg + rest))));
        assert(seq![opt] + (seq![first] + (config_tokens(others) + shell::words(tail)))
            =~= config_tokens(paths) + shell::words(tail));
    }
}

/// The words behind the manifests in the command of a script.
spec fn tail_words(parallel: bool, hook_type: HookType) -> Seq<Seq<char>> {
    (if parallel {
        seq!["--parallel"@]
    } else {
        seq![]
    }) + (if hook_type == HookType::PreCommit {
        seq![]
    } else {
        seq!["--hook-type"@, config::stage_name(hook_type), "--"@, "\"$@\""@]
    }) + seq!["||"@, "exit"@, "$?"@]
}

proof fn lemma_tail_words(parallel: bool, hook_type: HookType)
    ensures
        names_no_config(tail_words(parallel, hook_type)),
        shell::is_bare("--parallel"@),
        shell::is_bare("--hook-type"@),
        shell::is_bare(config::stage_name(hook_type)),
        shell::is_bare("--"@),
        shell::is_bare("\"$@\""@),
        shell::is_bare("||"@),
        shell::is_bare("exit"@),
        shell::is_bare("$?"@),
{
    reveal_strlit("--config");
    reveal_strlit("--parallel");
    reveal_strlit("--hook-type");
    reveal_strlit("--");
    reveal_strlit("\"$@\"");
    reveal_strlit("||");
    reveal_strlit("exit");
    reveal_strlit("$?");
    reveal_strlit("pre-commit");
    reveal_strlit("pre-push");
    reveal_strlit("commit-msg");
    reveal_strlit("prepare-commit-msg");
    assert("--config"@.len() == 8 && "--config"@[0] == '-');
    assert("--parallel"@.len() == 10 && "--hook-type"@.len() == 11 && "--"@.len() == 2);
    assert("\"$@\""@.len() == 4 && "||"@.len() == 2 && "exit"@.len() == 4 && "$?"@.len() == 2);
    assert("pre-push"@[0] == 'p');
    assert("pre-commit"@.len() == 10 && "commit-msg"@.len() == 10);
    assert("prepare-commit-msg"@.len() == 18);
}

/// The words of a line that begins with a space and a bare word.
proof fn lemma_next_word(w: Seq<char>, rest: Seq<char>)
    requires
        shell::is_bare(w),
        shell::ends_word(rest),
    ensures
        shell::words(seq![' '] + w + rest) == seq![w] + shell::words(rest),
        shell::ends_word(seq![' '] + w + rest),
{
    shell::lemma_bare_first(w, rest);
    shell::lemma_space_first(w + rest);
    assert(seq![' '] + w + rest =~= seq![' '] + (w + rest));
}

/// What stands behind the manifests in the command of a script.
spec fn run_tail(parallel: bool, hook_type: HookType) -> Seq<char> {
    (if parallel {
        " --parallel"@
    } else {
        seq![]
    }) + (if hook_type == HookType::PreCommit {
        seq![]
    } else {
        " --hook-type "@ + config::stage_name(hook_type) + " -- \"$@\""@
    }) + " || exit $?"@
}

proof fn lemma_run_tail(parallel: bool, hook_type: HookType)
    ensures
        shell::words(run_tail(parallel, hook_type)) == tail_words(parallel, hook_type),
        shell::ends_word(run_tail(parallel, hook_type)),
{
    let sp = seq![' '];
    let none = Seq::<char>::empty();
    lemma_tail_words(parallel, hook_type);
    assert(shell::words(none) =~= seq![]);
    // from the end to the front
    let e1 = sp + "$?"@ + none;
    let e2 = sp + "exit"@ + e1;
    let e3 = sp + "||"@ + e2;
    lemma_next_word("$?"@, none);
    lemma_next_word("exit"@, e1);
    lemma_next_word("||"@, e2);
    reveal_strlit(" || exit $?");
    reveal_strlit("||");
    reveal_strlit("exit");
    reveal_strlit("$?");
    assert(" || exit $?"@ =~= e3);
    assert(shell::words(e3) =~= seq!["||"@, "exit"@, "$?"@]);
    let name = config::stage_name(hook_type);
    let s1 = sp + "\"$@\""@ + e3;
    let s2 = sp + "--"@ + s1;
    let s3 = sp + name + s2;
    let s4 = sp + "--hook-type"@ + s3;
    let s = if hook_type == HookType::PreCommit {
        e3
    } else {
        s4
    };
    if hook_type != HookType::PreCommit {
        lemma_next_word("\"$@\""@, e3);
        lemma_next_word("--"@, s1);
        lemma_next_word(name, s2);
        lemma_next_word("--hook-type"@, s3);
        reveal_strlit(" --hook-type ");
        reveal_strlit("--hook-type");
        reveal_strlit(" -- \"$@\"");
        reveal_strlit("--");
        reveal_strlit("\"$@\"");
        assert(" --hook-type "@ =~= sp + "--hook-type"@ + sp);
        assert(" -- \"$@\""@ =~= sp + "--"@ + sp + "\"$@\""@);
        assert(s4 =~= " --hook-type "@ + name + " -- \"$@\""@ + e3);
        assert(shell::words(s4) =~= seq!["--hook-type"@, name, "--"@, "\"$@\""@] + seq![
            "||"@,
            "exit"@,
            "$?"@,
        ]);
    }
    if parallel {
        lemma_next_word("--parallel"@, s);
        reveal_strlit(" --parallel");
        reveal_strlit("--parallel");
        assert(" --parallel"@ =~= sp + "--parallel"@);
        assert(run_tail(parallel, hook_type) =~= sp + "--parallel"@ + s);
    } else {
        assert(run_tail(parallel, hook_type) =~= s);
    }
    assert(shell::words(run_tail(parallel, hook_type)) =~= tail_words(parallel, hook_type));
}

/// The words of the command of a script.
proof fn lemma_run_words(paths: Seq<Seq<char>>, parallel: bool, hook_type: HookType)
    requires
        forall|i: int| 0 <= i < paths.len() ==> is_path(#[trigger] paths[i]),
    ensures
        shell::words(installer::run_line(paths, parallel, hook_type)) == seq!["nizm"@, "run"@]
            + config_tokens(paths) + tail_words(parallel, hook_type),
{
    let sp = seq![' '];
    let tail = run_tail(parallel, hook_type);
    lemma_run_tail(parallel, hook_type);
    lemma_words_of_args(paths, tail);
    let rest = installer::config_args(paths) + tail;
    reveal_strlit("nizm run");
    reveal_strlit("nizm");
    reveal_strlit("run");
    assert("nizm run"@ =~= "nizm"@ + sp + "run"@);
    assert(shell::is_bare("nizm"@) && shell::is_bare("run"@));
    lemma_next_word("run"@, rest);
    shell::lemma_bare_first("nizm"@, sp + "run"@ + rest);
    let line = installer::run_line(paths, parallel, hook_type);
    assert(line =~= "nizm"@ + (sp + "run"@ + rest));
    assert(shell::words(line) =~= seq!["nizm"@, "run"@] + config_tokens(paths) + tail_words(
        parallel,
        hook_type,
    ));
}

proof fn lemma_quote_body_one_line(s: Seq<char>)
    requires
        !s.contains('\n'),
    ensures
        !runner::quote_body(s).contains('\n'),
    decreases s.len(),
{
    if s.len() > 0 {
        let t = s.skip(1);
        assert forall|i: int| 0 <= i < t.len() implies t[i] != '\n' by {
            assert(s.contains(s[i + 1]));
        }
        lemma_quote_body_one_line(t);
        reveal_strlit("'\\''");
        assert(s.contains(s[0]));
        lemma_one_line("'\\''"@, runner::quote_body(t));
        lemma_one_line(seq![s[0]], runner::quote_body(t));
    }
}

/// The arguments that name paths on one line hold no line feed.
proof fn lemma_args_one_line(paths: Seq<Seq<char>>)
    requires
        forall|i: int| 0 <= i < paths.len() ==> is_path(#[trigger] paths[i]),
    ensures
        !installer::config_args(paths).contains('\n'),
    decreases paths.len(),
{
    if paths.len() > 0 {
        let front = paths.drop_last();
        let last = paths.last();
        assert(is_path(paths[paths.len() - 1]));
        assert forall|i: int| 0 <= i < front.len() implies is_path(#[trigger] front[i]) by {
            assert(front[i] == paths[i]);
        }
        lemma_args_one_line(front);
        lemma_quote_body_one_line(last);
        reveal_strlit(" --config ");
        reveal_strlit(" --config '");
        reveal_strlit("'");
        let body = runner::quote_body(last);
        lemma_one_line(" --config "@, last);
        lemma_one_line(" --config '"@, body);
        lemma_one_line(" --config '"@ + body, "'"@);
        lemma_one_line(installer::config_args(front), installer::config_arg(last));
    }
}

/// The command of a script is one line with no white space around it.
proof fn lemma_run_line(paths: Seq<Seq<char>>, parallel: bool, hook_type: HookType)
    requires
        forall|i: int| 0 <= i < paths.len() ==> is_path(#[trigger] paths[i]),
    ensures
        ({
            let line = installer::run_line(paths, parallel, hook_type);
            &&& text::is_line(line)
            &&& text::trim(line) == line
            &&& "nizm"@.is_prefix_of(line)
        }),
{
    let line = installer::run_line(paths, parallel, hook_type);
    lemma_args_one_line(paths);
    reveal_strlit("nizm");
    reveal_strlit("nizm run");
    reveal_strlit(" --parallel");
    reveal_strlit(" --hook-type ");
    reveal_strlit(" -- \"$@\"");
    reveal_strlit(" || exit $?");
    reveal_strlit("pre-commit");
    reveal_strlit("pre-push");
    reveal_strlit("commit-msg");
    reveal_strlit("prepare-commit-msg");
    let head = "nizm run"@;
    let args = installer::config_args(paths);
    let flag = if parallel {
        " --parallel"@
    } else {
        seq![]
    };
    let name = config::stage_name(hook_type);
    let stage = if hook_type == HookType::PreCommit {
        seq![]
    } else {
        " --hook-type "@ + name + " -- \"$@\""@
    };
    let end = " || exit $?"@;
    assert(!head.contains('\n') && !flag.contains('\n') && !end.contains('\n'));
    assert(!name.contains('\n'));
    assert(!" --hook-type "@.contains('\n') && !" -- \"$@\""@.contains('\n'));
    lemma_one_line(" --hook-type "@, name);
    lemma_one_line(" --hook-type "@ + name, " -- \"$@\""@);
    assert(!stage.contains('\n'));
    lemma_one_line(head, args);
    lemma_one_line(head + args, flag);
    lemma_one_line(head + args + flag, stage);
    lemma_one_line(head + args + flag + stage, end);
    assert(line == head + args + flag + stage + end);
    assert(end.len() == 11 && end.last() == '?');
    assert(line.last() == '?');
    assert(line[0] == 'n');
    assert(text::trim_start(line) == line);
    assert("nizm"@ =~= line.take(4));
}

proof fn lemma_one_line(a: Seq<char>, b: Seq<char>)
    requires
        !a.contains('\n'),
        !b.contains('\n'),
    ensures
        !(a + b).contains('\n'),
{
    let all = a + b;
    assert forall|i: int| 0 <= i < all.len() implies all[i] != '\n' by {
        if i < a.len() {
            assert(a.contains(a[i]));
        } else {
            assert(b.contains(b[i - a.len()]));
        }
    }
}

/// A line whose first character behind `n` spaces is not `n` names no manifests.
proof fn lemma_other_line(line: Seq<char>, n: int)
    requires
        0 <= n < line.len(),
        forall|i: int| 0 <= i < n ==> text::is_space(#[trigger] line[i]),
        !text::is_space(line[n]),
        line[n] != 'n',
    ensures
        line_configs(line) == Seq::<Seq<char>>::empty(),
{
    lemma_trim_first(line, n);
    reveal_strlit("nizm");
    let t = text::trim(line);
    if "nizm"@.is_prefix_of(t) {
        assert("nizm"@[0] == t[0]);
    }
}

proof fn lemma_trim_first(line: Seq<char>, n: int)
    requires
        0 <= n < line.len(),
        forall|i: int| 0 <= i < n ==> text::is_space(#[trigger] line[i]),
        !text::is_space(line[n]),
    ensures
        text::trim(line).len() > 0,
        text::trim(line)[0] == line[n],
    decreases n,
{
    if n > 0 {
        assert(text::is_space(line[0]));
        let rest = line.skip(1);
        assert forall|i: int| 0 <= i < n - 1 implies text::is_space(#[trigger] rest[i]) by {
            assert(rest[i] == line[i + 1]);
        }
        lemma_trim_first(rest, n - 1);
    } else {
        assert(text::trim_start(line) == line);
        text::lemma_trim_end(line);
        let t = text::trim_end(line);
        if t.len() == 0 {
            assert(text::is_space(line[0]));
        }
    }
}

proof fn lemma_baked_none(lines: Seq<Seq<char>>)
    requires
        forall|i: int|
            0 <= i < lines.len() ==> line_configs(#[trigger] lines[i]) == Seq::<
                Seq<char>,
            >::empty(),
    ensures
        baked_configs(lines) == Seq::<Seq<char>>::empty(),
    decreases lines.len(),
{
    if lines.len() > 0 {
        let front = lines.drop_last();
        assert forall|i: int| 0 <= i < front.len() implies line_configs(#[trigger] front[i])
            == Seq::<Seq<char>>::empty() by {
            assert(front[i] == lines[i]);
        }
        lemma_baked_none(front);
        assert(line_configs(lines[lines.len() - 1]) == Seq::<Seq<char>>::empty());
        assert(baked_configs(lines) =~= Seq::<Seq<char>>::empty());
    }
}

/// What `install` bakes into a script, `doctor` reads back: the same manifests in
/// the same order.
pub proof fn law_baked_configs(paths: Seq<Seq<char>>, parallel: bool, hook_type: HookType)
    requires
        forall|i: int| 0 <= i < paths.len() ==> is_path(#[trigger] paths[i]),
    ensures
        baked_configs(
            text::lines(installer::fresh(installer::block_text(paths, parallel, hook_type))),
        ) == paths,
{
    let none = Seq::<Seq<char>>::empty();
    let block = installer::block_text(paths, parallel, hook_type);
    let all = installer::block_lines(paths, parallel, hook_type);
    let run = installer::run_line(paths, parallel, hook_type);
    installer::law_generated_block(paths, parallel, hook_type);
    installer::lemma_fresh_lines(block);
    installer::lemma_markers();
    lemma_run_line(paths, parallel, hook_type);
    lemma_run_words(paths, parallel, hook_type);
    lemma_tail_words(parallel, hook_type);
    lemma_script_lines();
    assert forall|i: int| 0 <= i < all.len() implies text::is_line(#[trigger] all[i]) by {}
    text::lemma_lines_join(all);
    let whole = text::lines(installer::fresh(block));
    assert(whole == seq!["#!/bin/sh"@] + all);
    // the lines before the command, the command, and the line behind it
    let front = whole.take(7);
    assert forall|i: int| 0 <= i < front.len() implies line_configs(#[trigger] front[i])
        == none by {
        if i > 0 {
            assert(front[i] == all[i - 1]);
        }
    }
    lemma_baked_none(front);
    assert(whole.take(8).drop_last() =~= front);
    assert(whole.take(8).last() == run);
    assert(whole.drop_last() =~= whole.take(8));
    assert(whole.last() == installer::BLOCK_END@);
    let tail = tail_words(parallel, hook_type);
    let words = shell::words(run);
    reveal_strlit("nizm");
    reveal_strlit("run");
    reveal_strlit("--config");
    assert("nizm"@.len() == 4 && "run"@.len() == 3 && "--config"@.len() == 8);
    assert(words[0] == "nizm"@ && words[1] == "run"@);
    assert(words.skip(1)[0] == "run"@);
    assert(words.skip(1).skip(1) =~= config_tokens(paths) + tail);
    lemma_config_words(paths, tail);
    assert(tail.len() >= 3);
    assert(config_words(words) == config_words(words.skip(1)));
    assert(config_words(words.skip(1)) == config_words(words.skip(1).skip(1)));
    assert(line_configs(run) == paths);
    assert(baked_configs(whole.take(8)) =~= paths);
    assert(baked_configs(whole) =~= paths);
}

proof fn lemma_config_tokens(paths: Seq<Seq<char>>, i: int)
    ensures
        config_tokens(paths).len() == 2 * paths.len(),
        0 <= i < paths.len() ==> config_tokens(paths)[2 * i] == "--config"@ && config_tokens(
            paths,
        )[2 * i + 1] == paths[i],
    decreases paths.len(),
{
    if paths.len() > 0 {
        lemma_config_tokens(paths.skip(1), i - 1);
        if 0 < i < paths.len() {
            assert(paths.skip(1)[i - 1] == paths[i]);
            let front = seq!["--config"@, paths[0]];
            let rest = config_tokens(paths.skip(1));
            assert((front + rest)[2 * i] == rest[2 * i - 2]);
            assert((front + rest)[2 * i + 1] == rest[2 * i - 1]);
        }
    }
}

/// What the command that `install` bakes into a script asks for, word by word as a
/// shell reads it: `nizm run` with each manifest behind a `--config`, `--parallel` if
/// that was asked for, and, for every stage but `pre-commit`, the name of the stage
/// behind `--hook-type` and what git handed to the script. If it fails, so does the
/// script, with the same code.
pub proof fn law_baked_command(
    paths: Seq<Seq<char>>,
    parallel: bool,
    hook_type: HookType,
    i: int,
)
    requires
        forall|k: int| 0 <= k < paths.len() ==> is_path(#[trigger] paths[k]),
    ensures
        ({
            let words = shell::words(installer::run_line(paths, parallel, hook_type));
            let flags = 2 + 2 * paths.len() as int;
            let stage = if parallel {
                flags + 1
            } else {
                flags
            };
            &&& words[0] == "nizm"@
            &&& words[1] == "run"@
            &&& 0 <= i < paths.len() ==> words[2 + 2 * i] == "--config"@ && words[3 + 2 * i]
                == paths[i]
            &&& parallel ==> words[flags] == "--parallel"@
            &&& words.skip(stage) == match hook_type {
                HookType::PreCommit => seq!["||"@, "exit"@, "$?"@],
                HookType::PrePush => seq![
                    "--hook-type"@,
                    "pre-push"@,
                    "--"@,
                    "\"$@\""@,
                    "||"@,
                    "exit"@,
                    "$?"@,
                ],
                HookType::CommitMsg => seq![
                    "--hook-type"@,
                    "commit-msg"@,
                    "--"@,
                    "\"$@\""@,
                    "||"@,
                    "exit"@,
                    "$?"@,
                ],
                HookType::PrepareCommitMsg => seq![
                    "--hook-type"@,
                    "prepare-commit-msg"@,
                    "--"@,
                    "\"$@\""@,
                    "||"@,
                    "exit"@,
                    "$?"@,
                ],
            }
        }),
{
    lemma_run_words(paths, parallel, hook_type);
    lemma_config_tokens(paths, i);
    let words = shell::words(installer::run_line(paths, parallel, hook_type));
    let tokens = config_tokens(paths);
    let tail = tail_words(parallel, hook_type);
    let head = seq!["nizm"@, "run"@];
    assert(words == head + tokens + tail);
    if 0 <= i < paths.len() {
        assert(words[2 + 2 * i] == tokens[2 * i]);
        assert(words[3 + 2 * i] == tokens[2 * i + 1]);
    }
    let flags = 2 + 2 * paths.len() as int;
    if parallel {
        assert(words[flags] == tail[0]);
        assert(words.skip(flags + 1) =~= tail.skip(1));
    } else {
        assert(words.skip(flags) =~= tail);
    }
}

/// The names of the stages are as many words as there are stages.
proof fn lemma_stage_words()
    ensures
        "pre-push"@ != "commit-msg"@,
        "pre-push"@ != "prepare-commit-msg"@,
        "commit-msg"@ != "prepare-commit-msg"@,
        "||"@ != "--hook-type"@,
{
    reveal_strlit("pre-push");
    reveal_strlit("commit-msg");
    reveal_strlit("prepare-commit-msg");
    reveal_strlit("||");
    reveal_strlit("--hook-type");
    assert("pre-push"@.len() == 8 && "commit-msg"@.len() == 10);
    assert("prepare-commit-msg"@.len() == 18);
    assert("||"@.len() == 2 && "--hook-type"@.len() == 11);
}

/// Each stage has a block of its own: no two are the same, so that what runs in the
/// script of one stage is not what runs in that of another.
pub proof fn law_stages_have_their_own_blocks(
    paths: Seq<Seq<char>>,
    parallel: bool,
    one: HookType,
    other: HookType,
)
    requires
        forall|k: int| 0 <= k < paths.len() ==> is_path(#[trigger] paths[k]),
        one != other,
    ensures
        shell::words(installer::run_line(paths, parallel, one)) != shell::words(
            installer::run_line(paths, parallel, other),
        ),
        installer::block_text(paths, parallel, one) != installer::block_text(
            paths,
            parallel,
            other,
        ),
{
    let stage = 2 + 2 * paths.len() as int + (if parallel {
        1int
    } else {
        0int
    });
    law_baked_command(paths, parallel, one, 0);
    law_baked_command(paths, parallel, other, 0);
    lemma_stage_words();
    let a = shell::words(installer::run_line(paths, parallel, one)).skip(stage);
    let b = shell::words(installer::run_line(paths, parallel, other)).skip(stage);
    assert(a[0] != b[0] || a[1] != b[1]);
    law_block_lines(paths, parallel, one);
    law_block_lines(paths, parallel, other);
}

/// The lines of a block: the markers, a check that nizm is there, which ends the script
/// with a failure if it is not, and the command.
pub proof fn law_block_lines(paths: Seq<Seq<char>>, parallel: bool, hook_type: HookType)
    requires
        forall|k: int| 0 <= k < paths.len() ==> is_path(#[trigger] paths[k]),
    ensures
        text::lines(installer::block_text(paths, parallel, hook_type)) == seq![
            "# nizm-start"@,
            "# auto-generated by nizm — do not edit"@,
            "if ! command -v nizm >/dev/null 2>&1; then"@,
            "  echo \"nizm: not found in PATH — install it or run: cargo install nizm\" >&2"@,
            "  exit 1"@,
            "fi"@,
            installer::run_line(paths, parallel, hook_type),
            "# nizm-end"@,
        ],
{
    let all = installer::block_lines(paths, parallel, hook_type);
    installer::lemma_markers();
    lemma_run_line(paths, parallel, hook_type);
    lemma_script_lines();
    assert forall|i: int| 0 <= i < all.len() implies text::is_line(#[trigger] all[i]) by {}
    text::lemma_lines_join(all);
}

/// The other lines of a script are single lines and name no manifests.
proof fn lemma_script_lines()
    ensures
        text::is_line("# auto-generated by nizm — do not edit"@),
        text::is_line("if ! command -v nizm >/dev/null 2>&1; then"@),
        text::is_line(
            "  echo \"nizm: not found in PATH — install it or run: cargo install nizm\" >&2"@,
        ),
        text::is_line("  exit 1"@),
        text::is_line("fi"@),
        line_configs("#!/bin/sh"@) == Seq::<Seq<char>>::empty(),
        line_configs(installer::BLOCK_START@) == Seq::<Seq<char>>::empty(),
        line_configs("# auto-generated by nizm — do not edit"@) == Seq::<Seq<char>>::empty(),
        line_configs("if ! command -v nizm >/dev/null 2>&1; then"@) == Seq::<Seq<char>>::empty(),
        line_configs(
            "  echo \"nizm: not found in PATH — install it or run: cargo install nizm\" >&2"@,
        ) == Seq::<Seq<char>>::empty(),
        line_configs("  exit 1"@) == Seq::<Seq<char>>::empty(),
        line_configs("fi"@) == Seq::<Seq<char>>::empty(),
        line_configs(installer::BLOCK_END@) == Seq::<Seq<char>>::empty(),
{
    reveal_strlit("#!/bin/sh");
    reveal_strlit("# nizm-start");
    reveal_strlit("# auto-generated by nizm — do not edit");
    reveal_strlit("if ! command -v nizm >/dev/null 2>&1; then");
    reveal_strlit("  echo \"nizm: not found in PATH — install it or run: cargo install nizm\" >&2");
    reveal_strlit("  exit 1");
    reveal_strlit("fi");
    reveal_strlit("# nizm-end");
    assert(!"# auto-generated by nizm — do not edit"@.contains('\n'));
    assert(!"if ! command -v nizm >/dev/null 2>&1; then"@.contains('\n'));
    assert(
        !"  echo \"nizm: not found in PATH — install it or run: cargo install nizm\" >&2"@.contains(
            '\n',
        ));
    assert(!"  exit 1"@.contains('\n'));
    assert(!"fi"@.contains('\n'));
    lemma_other_line("#!/bin/sh"@, 0);
    lemma_other_line(installer::BLOCK_START@, 0);
    lemma_other_line("# auto-generated by nizm — do not edit"@, 0);
    lemma_other_line("if ! command -v nizm >/dev/null 2>&1; then"@, 0);
    lemma_other_line(
        "  echo \"nizm: not found in PATH — install it or run: cargo install nizm\" >&2"@,
        2,
    );
    lemma_other_line("  exit 1"@, 2);
    lemma_other_line("fi"@, 0);
    lemma_other_line(installer::BLOCK_END@, 0);
}

// ---- what is checked ----

/// The tool that a command runs is its first word, whatever white space stands before it
/// and whatever stands behind it.
pub proof fn law_executable(lead: Seq<char>, w: Seq<char>, rest: Seq<char>)
    requires
        forall|i: int| 0 <= i < lead.len() ==> text::is_space(#[trigger] lead[i]),
        w.len() > 0,
        forall|i: int| 0 <= i < w.len() ==> !text::is_space(#[trigger] w[i]),
        rest.len() > 0 ==> text::is_space(rest[0]),
    ensures
        executable(lead + w + rest) == w,
{
    let cmd = lead + w + rest;
    let t = text::trim_start(cmd);
    let n = cmd.len() - t.len();
    text::lemma_trim_start(cmd);
    assert(cmd[lead.len() as int] == w[0]);
    assert(n == lead.len()) by {
        if n < lead.len() {
            assert(t[0] == cmd[n] && cmd[n] == lead[n]);
        }
        if n > lead.len() {
            assert(text::is_space(cmd[lead.len() as int]));
        }
    }
    assert(t =~= w + rest);
    text::lemma_word_len(t);
    let m = text::word_len(t);
    assert(m == w.len()) by {
        if m < w.len() {
            assert(t[m] == w[m]);
        }
        if m > w.len() {
            assert(t[w.len() as int] == rest[0]);
        }
    }
    assert(t.take(m) =~= w);
    assert(text::words(cmd)[0] == t.take(m));
}

/// A hook passes exactly if it is in order and its tool was found; otherwise the fix is to
/// install that tool, or to mend that hook in its manifest.
pub proof fn law_check_of_a_hook(
    r: HookResult,
    path: Seq<char>,
    indent: Seq<char>,
    last: bool,
    found: Seq<Seq<char>>,
    color: bool,
)
    ensures
        ({
            let c = hook_check(r, path, indent, last, found, color);
            match r {
                HookResult::Parsed(h) => {
                    &&& c.fix is None <==> found.contains(executable(h.cmd@))
                    &&& !found.contains(executable(h.cmd@)) ==> c.fix == Some(
                        "install \""@ + executable(h.cmd@) + "\""@,
                    )
                },
                HookResult::Failed { name, error } => c.fix == Some(
                    "fix \""@ + name@ + "\" in "@ + path,
                ),
            }
        }),
{
}

/// A manifest passes if it could be read and has no hooks or one that is in order;
/// otherwise the fix names it.
pub proof fn law_check_of_a_manifest(
    path: Seq<char>,
    m: LenientManifest,
    indent: Seq<char>,
    last: bool,
    color: bool,
)
    ensures
        ({
            let c = manifest_check(path, m, indent, last, color);
            match m {
                LenientManifest::FileError(_) => c.fix == Some("fix "@ + path),
                LenientManifest::Hooks(results) => {
                    &&& results@.len() == 0 ==> c.fix is None
                    &&& (exists|i: int| 0 <= i < results@.len() && #[trigger] results@[i] is Parsed)
                        ==> c.fix is None
                    &&& results@.len() > 0 && (forall|i: int|
                        0 <= i < results@.len() ==> #[trigger] results@[i] is Failed) ==> c.fix
                        == Some("fix hooks in "@ + path)
                },
            }
        }),
{
    match m {
        LenientManifest::FileError(_) => {},
        LenientManifest::Hooks(results) => {
            if results@.len() > 0 && (forall|i: int|
                0 <= i < results@.len() ==> #[trigger] results@[i] is Failed) {
                assert(results@[0] is Failed);
                assert(!all_parsed(results@));
                assert(!any_parsed(results@));
            }
        },
    }
}

/// Every manifest is checked, and every hook in it, in order: those of one manifest come
/// behind those of the manifests before it.
pub proof fn law_everything_is_checked(
    configs: Seq<(String, LenientManifest)>,
    n: int,
    found: Seq<Seq<char>>,
    color: bool,
    i: int,
)
    requires
        0 < n <= configs.len(),
    ensures
        ({
            let before = config_checks(configs, n - 1, found, color);
            let all = config_checks(configs, n, found, color);
            let path = configs[n - 1].0@;
            let at = before.len() as int;
            &&& before.is_prefix_of(all)
            &&& all[at] == manifest_check(
                path,
                configs[n - 1].1,
                "  "@,
                n == configs.len(),
                color,
            )
            &&& configs[n - 1].1 is FileError ==> all.len() == at + 1
            &&& configs[n - 1].1 matches LenientManifest::Hooks(results) ==> {
                &&& all.len() == at + 1 + results@.len()
                &&& 0 <= i < results@.len() ==> all[at + 1 + i] == hook_check(
                    results@[i],
                    path,
                    hook_indent("  "@, n == configs.len()),
                    i == results@.len() - 1,
                    found,
                    color,
                )
            }
        }),
{
    let before = config_checks(configs, n - 1, found, color);
    let all = config_checks(configs, n, found, color);
    assert(before =~= all.take(before.len() as int));
}

/// An installed hook passes, but one that runs no nizm is to be installed again.
pub proof fn law_check_of_an_installed_hook(
    hook_type: HookType,
    configs: Seq<(String, LenientManifest)>,
    found: Seq<Seq<char>>,
    color: bool,
)
    ensures
        ({
            let all = installed_checks(hook_type, configs, found, color);
            &&& all[0].fix is None
            &&& configs.len() == 0 ==> all.len() == 2 && all[1].fix == Some(
                "reinstall "@ + config::stage_name(hook_type) + " hook: nizm install"@,
            )
            &&& configs.len() > 0 ==> all.skip(1) == config_checks(
                configs,
                configs.len() as int,
                found,
                color,
            )
        }),
{
    let all = installed_checks(hook_type, configs, found, color);
    if configs.len() > 0 {
        assert(all.skip(1) =~= config_checks(configs, configs.len() as int, found, color));
    }
}

/// Every installed hook is checked, one after the other.
pub proof fn law_every_installed_hook_is_checked(
    installed: Seq<(HookType, Vec<(String, LenientManifest)>)>,
    n: int,
    found: Seq<Seq<char>>,
    color: bool,
)
    requires
        0 < n <= installed.len(),
    ensures
        all_installed_checks(installed, 0, found, color).len() == 0,
        all_installed_checks(installed, n, found, color) == all_installed_checks(
            installed,
            n - 1,
            found,
            color,
        ) + installed_checks(installed[n - 1].0, installed[n - 1].1@, found, color),
{
}

proof fn lemma_missing(
    types: Seq<HookType>,
    parsed: Seq<(String, LenientManifest)>,
    color: bool,
    t: HookType,
)
    requires
        types.contains(t),
        stage_wanted(parsed, t) || (no_stage_wanted(parsed) && t == HookType::PreCommit),
    ensures
        missing_checks(types, parsed, color).contains(missing_check(t, color)),
    decreases types.len(),
{
    let less = types.drop_last();
    let front = missing_checks(less, parsed, color);
    let all = missing_checks(types, parsed, color);
    let c = missing_check(t, color);
    if types.last() == t {
        assert(all[all.len() - 1] == c);
    } else {
        let i = choose|i: int| 0 <= i < types.len() && types[i] == t;
        assert(less[i] == t);
        lemma_missing(less, parsed, color, t);
        let k = choose|k: int| 0 <= k < front.len() && front[k] == c;
        assert(all[k] == c);
    }
}

proof fn lemma_nothing_missing(
    types: Seq<HookType>,
    parsed: Seq<(String, LenientManifest)>,
    color: bool,
    k: int,
)
    requires
        0 <= k < missing_checks(types, parsed, color).len(),
    ensures
        exists|t: HookType|
            (stage_wanted(parsed, t) || (no_stage_wanted(parsed) && t == HookType::PreCommit))
                && missing_checks(types, parsed, color)[k] == #[trigger] missing_check(t, color),
    decreases types.len(),
{
    let front = missing_checks(types.drop_last(), parsed, color);
    if k < front.len() {
        lemma_nothing_missing(types.drop_last(), parsed, color, k);
    } else {
        assert(missing_checks(types, parsed, color)[k] == missing_check(types.last(), color));
    }
}

/// Where no hook is installed, what is missing is a script for each stage that some hook
/// in order belongs to, and for no other; for `pre-commit`, if there is no such hook. The
/// fix is to install it.
pub proof fn law_missing_hooks(parsed: Seq<(String, LenientManifest)>, color: bool, t: HookType)
    ensures
        stage_wanted(parsed, t) ==> missing_checks(
            config::every_type(),
            parsed,
            color,
        ).contains(missing_check(t, color)),
        (forall|u: HookType| !stage_wanted(parsed, u)) ==> missing_checks(
            config::every_type(),
            parsed,
            color,
        ).contains(missing_check(HookType::PreCommit, color)),
        forall|k: int|
            0 <= k < missing_checks(config::every_type(), parsed, color).len() ==> exists|
                u: HookType,
            |
                (stage_wanted(parsed, u) || (no_stage_wanted(parsed) && u == HookType::PreCommit))
                    && #[trigger] missing_checks(config::every_type(), parsed, color)[k]
                    == missing_check(u, color),
        missing_check(t, color).fix == Some(
            "run `nizm install` to set up "@ + config::stage_name(t) + " hook"@,
        ),
{
    let types = config::every_type();
    let k: int = match t {
        HookType::PreCommit => 0,
        HookType::PrePush => 1,
        HookType::CommitMsg => 2,
        HookType::PrepareCommitMsg => 3,
    };
    assert(types[k] == t);
    assert(types[0] == HookType::PreCommit);
    if stage_wanted(parsed, t) {
        lemma_missing(types, parsed, color, t);
    }
    if forall|u: HookType| !stage_wanted(parsed, u) {
        lemma_missing(types, parsed, color, HookType::PreCommit);
    }
    assert forall|k: int| 0 <= k < missing_checks(types, parsed, color).len() implies exists|
        u: HookType,
    |
        (stage_wanted(parsed, u) || (no_stage_wanted(parsed) && u == HookType::PreCommit))
            && #[trigger] missing_checks(types, parsed, color)[k] == missing_check(u, color) by {
        lemma_nothing_missing(types, parsed, color, k);
        let u = choose|u: HookType|
            (stage_wanted(parsed, u) || (no_stage_wanted(parsed) && u == HookType::PreCommit))
                && missing_checks(types, parsed, color)[k] == #[trigger] missing_check(u, color);
        assert(missing_checks(types, parsed, color)[k] == missing_check(u, color));
    }
}

/// A stage is wanted exactly if some manifest has a hook of it that is in order.
pub proof fn law_wanted_stages(
    parsed: Seq<(String, LenientManifest)>,
    i: int,
    results: Vec<HookResult>,
    j: int,
    hook: config::Hook,
)
    requires
        0 <= i < parsed.len(),
        parsed[i].1 == LenientManifest::Hooks(results),
        0 <= j < results@.len(),
        results@[j] == HookResult::Parsed(hook),
    ensures
        stage_wanted(parsed, hook.hook_type),
        any_hooks(parsed),
{
    assert(is_of_stage(results@[j], hook.hook_type));
    assert(any_of_stage(results@, hook.hook_type));
    assert(offers_stage(parsed[i].1, hook.hook_type));
    assert(has_hooks(parsed[i].1));
}

/// A repository without any hooks is healthy in no case: the manifests that cannot be
/// read are to be mended, and if there are none, hooks are to be configured.
pub proof fn law_nothing_configured(
    parsed: Seq<(String, LenientManifest)>,
    found: Seq<Seq<char>>,
    color: bool,
)
    requires
        forall|i: int|
            0 <= i < parsed.len() ==> ((#[trigger] parsed[i]).1 matches LenientManifest::Hooks(
                results,
            ) ==> results@.len() == 0),
    ensures
        (forall|i: int| 0 <= i < parsed.len() ==> (#[trigger] parsed[i]).1 is Hooks)
            ==> uninstalled_checks(parsed, found, color).len() == 1 && uninstalled_checks(
            parsed,
            found,
            color,
        )[0].fix == Some("run `nizm init` to configure hooks"@) && uninstalled_checks(
            parsed,
            found,
            color,
        )[0].line == "  no config found"@,
        forall|i: int|
            0 <= i < parsed.len() && (#[trigger] parsed[i]).1 is FileError ==> uninstalled_checks(
                parsed,
                found,
                color,
            ).contains(manifest_check(parsed[i].0@, parsed[i].1, "  "@, true, color)),
{
    if any_hooks(parsed) {
        let i = choose|i: int| 0 <= i < parsed.len() && has_hooks((#[trigger] parsed[i]).1);
        assert(has_hooks(parsed[i].1));
    }
    if forall|i: int| 0 <= i < parsed.len() ==> (#[trigger] parsed[i]).1 is Hooks {
        lemma_no_file_errors(parsed, color);
    }
    assert forall|i: int|
        0 <= i < parsed.len() && (#[trigger] parsed[i]).1 is FileError implies uninstalled_checks(
        parsed,
        found,
        color,
    ).contains(manifest_check(parsed[i].0@, parsed[i].1, "  "@, true, color)) by {
        lemma_file_error(parsed, color, i);
    }
}

proof fn lemma_no_file_errors(parsed: Seq<(String, LenientManifest)>, color: bool)
    requires
        forall|i: int| 0 <= i < parsed.len() ==> (#[trigger] parsed[i]).1 is Hooks,
    ensures
        file_error_checks(parsed, color).len() == 0,
    decreases parsed.len(),
{
    if parsed.len() > 0 {
        let less = parsed.drop_last();
        assert forall|i: int| 0 <= i < less.len() implies (#[trigger] less[i]).1 is Hooks by {
            assert(less[i] == parsed[i]);
        }
        lemma_no_file_errors(less, color);
        assert(parsed[parsed.len() - 1].1 is Hooks);
    }
}

proof fn lemma_file_error(parsed: Seq<(String, LenientManifest)>, color: bool, i: int)
    requires
        0 <= i < parsed.len(),
        parsed[i].1 is FileError,
    ensures
        file_error_checks(parsed, color).contains(
            manifest_check(parsed[i].0@, parsed[i].1, "  "@, true, color),
        ),
    decreases parsed.len(),
{
    let less = parsed.drop_last();
    let front = file_error_checks(less, color);
    let all = file_error_checks(parsed, color);
    let c = manifest_check(parsed[i].0@, parsed[i].1, "  "@, true, color);
    if i < less.len() {
        assert(less[i] == parsed[i]);
        lemma_file_error(less, color, i);
        let k = choose|k: int| 0 <= k < front.len() && front[k] == c;
        assert(all[k] == c);
    } else {
        assert(all[all.len() - 1] == c);
    }
}

/// A repository with hooks but none installed is told of every manifest that has
/// anything to show, and of no other.
pub proof fn law_relevant_manifests(
    parsed: Seq<(String, LenientManifest)>,
    found: Seq<Seq<char>>,
    color: bool,
    e: (String, LenientManifest),
)
    requires
        any_hooks(parsed),
    ensures
        relevant(parsed).contains(e) <==> parsed.contains(e) && match e.1 {
            LenientManifest::FileError(_) => true,
            LenientManifest::Hooks(results) => results@.len() > 0,
        },
        uninstalled_checks(parsed, found, color) == missing_checks(
            config::every_type(),
            parsed,
            color,
        ) + config_checks(relevant(parsed), relevant(parsed).len() as int, found, color),
{
    lemma_relevant(parsed, e);
}

proof fn lemma_relevant(
    parsed: Seq<(String, LenientManifest)>,
    e: (String, LenientManifest),
)
    ensures
        relevant(parsed).contains(e) <==> parsed.contains(e) && (has_hooks(e.1) || e.1 is FileError),
    decreases parsed.len(),
{
    reveal(Seq::filter);
    if parsed.len() > 0 {
        let less = parsed.drop_last();
        let front = relevant(less);
        let all = relevant(parsed);
        lemma_relevant(less, e);
        if front.contains(e) {
            let k = choose|k: int| 0 <= k < front.len() && front[k] == e;
            assert(all[k] == e);
            let i = choose|i: int| 0 <= i < less.len() && less[i] == e;
            assert(parsed[i] == e);
        }
        if parsed.last() == e {
            assert(parsed[parsed.len() - 1] == e);
            if has_hooks(e.1) || e.1 is FileError {
                assert(all[all.len() - 1] == e);
            }
        }
        if parsed.contains(e) && parsed.last() != e {
            let i = choose|i: int| 0 <= i < parsed.len() && parsed[i] == e;
            assert(less[i] == e);
        }
        if all.contains(e) && !front.contains(e) {
            let k = choose|k: int| 0 <= k < all.len() && all[k] == e;
            if k < front.len() {
                assert(front[k] == e);
            }
        }
    }
}

/// The tools that are looked for are those of the hooks in order, in their order.
pub proof fn law_tools_looked_for(
    results: Seq<HookResult>,
    hook: config::Hook,
    name: String,
    error: String,
)
    ensures
        tools_run(Seq::<HookResult>::empty()).len() == 0,
        tools_run(results.push(HookResult::Parsed(hook))) == tools_run(results).push(
            executable(hook.cmd@),
        ),
        tools_run(results.push(HookResult::Failed { name, error })) == tools_run(results),
{
    assert(results.push(HookResult::Parsed(hook)).drop_last() =~= results);
    assert(results.push(HookResult::Failed { name, error }).drop_last() =~= results);
}

/// A report ends in its count and in the fixes, if there are any: all that passed is said
/// to have passed only if nothing failed.
pub proof fn law_summary(pass: nat, fail: nat, fixes: Seq<Seq<char>>, color: bool, i: int)
    ensures
        ({
            let all = summary_lines(pass, fail, fixes, color);
            &&& all[0].len() == 0
            &&& fail == 0 && !color ==> all[1] == "all "@ + text::decimal(pass)
                + " checks passed"@
            &&& fail > 0 && !color ==> all[1] == text::decimal(pass) + " passed, "@
                + text::decimal(fail) + " failed"@
            &&& fixes.len() == 0 ==> all.len() == 2
            &&& fixes.len() > 0 ==> all.len() == 4 + fixes.len()
            &&& 0 <= i < fixes.len() ==> all[4 + i] == "  → "@ + fixes[i]
        }),
{
    if fail > 0 && !color {
        assert(verdict(pass, fail, color) =~= text::decimal(pass) + " passed, "@ + text::decimal(
            fail,
        ) + " failed"@);
    }
}

/// A check that failed adds its fix to the report, and one that passed adds none.
pub proof fn law_fixes(checks: Seq<Check>, c: Check)
    ensures
        fixes_of(Seq::<Check>::empty()).len() == 0,
        c.fix is None ==> fixes_of(checks.push(c)) == fixes_of(checks),
        c.fix is Some ==> fixes_of(checks.push(c)) == fixes_of(checks).push(c.fix->0),
{
    assert(checks.push(c).drop_last() =~= checks);
}

/// What passed and what failed are told apart by their marks, and what failed by its error
/// too.
pub proof fn law_marks(hook: config::Hook, name: String, error: String, path: Seq<char>)
    ensures
        ok_mark(false) == "✓"@,
        err_mark(false) == "✗"@,
        warn_mark(false) == "~"@,
        hook_check(
            HookResult::Failed { name, error },
            path,
            seq![],
            true,
            seq![],
            false,
        ).line == "└"@ + " "@ + name@ + (" — "@ + error@ + " "@ + "✗"@),
        hook_check(
            HookResult::Parsed(hook),
            path,
            seq![],
            false,
            seq![executable(hook.cmd@)],
            false,
        ).line == "├"@ + " "@ + hook.name@ + (" ("@ + executable(hook.cmd@) + ") "@ + "✓"@),
        hook_check(HookResult::Parsed(hook), path, seq![], true, seq![], false).line == "└"@ + " "@
            + hook.name@ + (" — "@ + ("\""@ + executable(hook.cmd@) + "\" not found in PATH"@)
            + " "@ + "✗"@),
{
    let exe = executable(hook.cmd@);
    let none = Seq::<char>::empty();
    assert(seq![exe][0] == exe);
    assert(seq![exe].contains(exe));
    assert(!Seq::<Seq<char>>::empty().contains(exe));
    assert(none + "└"@ =~= "└"@);
    assert(none + "├"@ =~= "├"@);
}

} // verus!
