//! The hook scripts under `.git/hooks` and the block that nizm keeps in them.

use crate::config;
use crate::runner;
use crate::style;
use crate::text;
use vstd::prelude::*;
use vstd::string::*;

verus! {

broadcast use {group_string_axioms, vstd::seq::group_seq_axioms};

/// The line that opens nizm's block in a hook script.
pub const BLOCK_START: &'static str = "# nizm-start";

/// The line that closes nizm's block in a hook script.
pub const BLOCK_END: &'static str = "# nizm-end";

// ---- finding the block ----

/// The lines of a script, without the white space around them.
pub open spec fn script_lines(content: Seq<char>) -> Seq<Seq<char>> {
    text::trims(text::lines(content))
}

/// The first position at or behind `from` that opens a block; the number of
/// lines if there is none.
pub open spec fn start_from(ts: Seq<Seq<char>>, from: int) -> int
    decreases ts.len() - from,
{
    if from < 0 || from >= ts.len() {
        ts.len() as int
    } else if ts[from] == BLOCK_START@ {
        from
    } else {
        start_from(ts, from + 1)
    }
}

/// The last position before `to` that closes a block; -1 if there is none.
pub open spec fn end_before(ts: Seq<Seq<char>>, to: int) -> int
    decreases to,
{
    if to <= 0 {
        -1
    } else if ts[to - 1] == BLOCK_END@ {
        to - 1
    } else {
        end_before(ts, to - 1)
    }
}

/// Where the block begins and ends: from the first line that opens one to the
/// last line that closes one, if that stands further down.
pub open spec fn bounds(ts: Seq<Seq<char>>) -> Option<(int, int)> {
    let s = start_from(ts, 0);
    let e = end_before(ts, ts.len() as int);
    if s < ts.len() && e > s {
        Some((s, e))
    } else {
        None
    }
}

/// A script with a line that opens a block and a line that closes one.
pub open spec fn managed(content: Seq<char>) -> bool {
    script_lines(content).contains(BLOCK_START@) && script_lines(content).contains(BLOCK_END@)
}

pub proof fn lemma_start_from(ts: Seq<Seq<char>>, from: int)
    requires
        0 <= from <= ts.len(),
    ensures
        from <= start_from(ts, from) <= ts.len(),
        start_from(ts, from) < ts.len() ==> ts[start_from(ts, from)] == BLOCK_START@,
        forall|j: int| from <= j < start_from(ts, from) ==> ts[j] != BLOCK_START@,
    decreases ts.len() - from,
{
    if from < ts.len() && ts[from] != BLOCK_START@ {
        lemma_start_from(ts, from + 1);
    }
}

pub proof fn lemma_start_is(ts: Seq<Seq<char>>, from: int, at: int)
    requires
        0 <= from <= at <= ts.len(),
        at < ts.len() ==> ts[at] == BLOCK_START@,
        forall|j: int| from <= j < at ==> ts[j] != BLOCK_START@,
    ensures
        start_from(ts, from) == at,
    decreases ts.len() - from,
{
    if from < at {
        lemma_start_is(ts, from + 1, at);
    }
}

pub proof fn lemma_end_before(ts: Seq<Seq<char>>, to: int)
    requires
        0 <= to <= ts.len(),
    ensures
        -1 <= end_before(ts, to) < to || to == 0,
        end_before(ts, to) >= 0 ==> ts[end_before(ts, to)] == BLOCK_END@,
        forall|j: int| end_before(ts, to) < j < to ==> ts[j] != BLOCK_END@,
    decreases to,
{
    if to > 0 && ts[to - 1] != BLOCK_END@ {
        lemma_end_before(ts, to - 1);
    }
}

pub proof fn lemma_end_is(ts: Seq<Seq<char>>, to: int, at: int)
    requires
        -1 <= at < to <= ts.len(),
        at >= 0 ==> ts[at] == BLOCK_END@,
        forall|j: int| at < j < to ==> ts[j] != BLOCK_END@,
    ensures
        end_before(ts, to) == at,
    decreases to,
{
    if to - 1 > at {
        lemma_end_is(ts, to - 1, at);
    }
}

/// The lines of `content`, without the white space around them.
fn trimmed_lines(content: &str) -> (r: Vec<String>)
    ensures
        text::views(r@) == script_lines(content@),
{
    let lines = text::split_lines(content);
    let mut r: Vec<String> = Vec::new();
    let mut i: usize = 0;
    while i < lines.len()
        invariant
            i <= lines.len(),
            text::views(lines@) == text::lines(content@),
            text::views(r@) =~= text::trims(text::lines(content@)).take(i as int),
        decreases lines.len() - i,
    {
        proof {
            assert(text::views(lines@)[i as int] == lines@[i as int]@);
        }
        let ghost before = text::views(r@);
        r.push(text::trimmed(lines[i].as_str()));
        proof {
            let ts = text::trims(text::lines(content@));
            assert(ts.len() == lines@.len());
            assert(text::views(r@) =~= before.push(ts[i as int]));
            assert(ts.take(i + 1) =~= ts.take(i as int).push(ts[i as int]));
        }
        i += 1;
    }
    proof {
        let ts = text::trims(text::lines(content@));
        assert(ts.len() == lines@.len());
        assert(ts.take(i as int) =~= ts);
    }
    r
}

/// Does the script hold nizm's block?
pub fn is_nizm_managed(content: &str) -> (r: bool)
    ensures
        r == managed(content@),
{
    let lines = trimmed_lines(content);
    text::listed(&lines, BLOCK_START) && text::listed(&lines, BLOCK_END)
}

/// The positions of the lines that open and close the block.
pub fn find_block_bounds(lines: &Vec<String>) -> (r: Option<(usize, usize)>)
    ensures
        r is Some <==> bounds(text::trims(text::views(lines@))) is Some,
        r matches Some(b) ==> {
            &&& bounds(text::trims(text::views(lines@))) == Some((b.0 as int, b.1 as int))
            &&& b.0 < b.1 < lines.len()
        },
{
    let ghost ts = text::trims(text::views(lines@));
    let n = lines.len();
    let mut start: usize = 0;
    while start < n && !text::same(text::trimmed(lines[start].as_str()).as_str(), BLOCK_START)
        invariant
            start <= n,
            n == lines.len(),
            ts == text::trims(text::views(lines@)),
            start_from(ts, 0) == start_from(ts, start as int),
        decreases n - start,
    {
        proof {
            assert(ts[start as int] == text::trim(lines@[start as int]@));
        }
        start += 1;
    }
    proof {
        if start < n {
            assert(ts[start as int] == text::trim(lines@[start as int]@));
        }
    }
    if start >= n {
        return None;
    }
    let mut end: usize = n;
    while end > 0 && !text::same(text::trimmed(lines[end - 1].as_str()).as_str(), BLOCK_END)
        invariant
            end <= n,
            n == lines.len(),
            ts == text::trims(text::views(lines@)),
            end_before(ts, n as int) == end_before(ts, end as int),
        decreases end,
    {
        proof {
            assert(ts[end - 1] == text::trim(lines@[end - 1]@));
        }
        end -= 1;
    }
    proof {
        if end > 0 {
            assert(ts[end - 1] == text::trim(lines@[end - 1]@));
        }
    }
    if end == 0 || end - 1 <= start {
        return None;
    }
    Some((start, end - 1))
}

// ---- comparing and replacing the block ----

/// The script holds exactly this block, but for white space around lines.
pub open spec fn block_is(content: Seq<char>, block: Seq<char>) -> bool {
    let ts = script_lines(content);
    bounds(ts) matches Some(b) && ts.subrange(b.0, b.1 + 1) == script_lines(block)
}

/// Does the script hold exactly this block?
pub fn blocks_match(content: &str, expected_block: &str) -> (r: bool)
    ensures
        r == block_is(content@, expected_block@),
{
    let lines = text::split_lines(content);
    let (start, end) = match find_block_bounds(&lines) {
        Some(b) => b,
        None => return false,
    };
    let existing = trimmed_lines(content);
    let expected = trimmed_lines(expected_block);
    let ghost ts = script_lines(content@);
    let ghost es = script_lines(expected_block@);
    proof {
        assert(existing@.len() == text::views(existing@).len());
        assert(expected@.len() == text::views(expected@).len());
        assert(lines@.len() == text::views(lines@).len());
    }
    if end - start + 1 != expected.len() {
        return false;
    }
    let mut i: usize = 0;
    while i < expected.len()
        invariant
            i <= expected.len(),
            start < end < existing.len(),
            end - start + 1 == expected.len(),
            text::views(existing@) == ts,
            text::views(expected@) == es,
            ts == script_lines(content@),
            es == script_lines(expected_block@),
            bounds(ts) == Some((start as int, end as int)),
            forall|j: int| 0 <= j < i ==> ts[start + j] == #[trigger] es[j],
        decreases expected.len() - i,
    {
        proof {
            assert(text::views(existing@)[start + i] == existing@[start + i]@);
            assert(text::views(expected@)[i as int] == expected@[i as int]@);
        }
        if !text::same(existing[start + i].as_str(), expected[i].as_str()) {
            proof {
                assert(ts.subrange(start as int, end + 1)[i as int] == ts[start + i]);
            }
            return false;
        }
        i += 1;
    }
    proof {
        assert(ts.subrange(start as int, end + 1) =~= es);
    }
    true
}

/// A line of a block that nizm did not write.
pub open spec fn is_custom(line: Seq<char>) -> bool {
    &&& line.len() > 0
    &&& !"if ! command -v nizm"@.is_prefix_of(line)
    &&& !"echo \"nizm:"@.is_prefix_of(line)
    &&& line != "exit 1"@
    &&& line != "fi"@
    &&& !"nizm run"@.is_prefix_of(line)
    &&& line[0] != '#'
}

/// The block holds a line that nizm did not write.
pub open spec fn customized(content: Seq<char>) -> bool {
    let ts = script_lines(content);
    bounds(ts) matches Some(b) && exists|i: int| b.0 < i < b.1 && is_custom(#[trigger] ts[i])
}

/// Is this trimmed line one that nizm did not write?
fn is_custom_line(line: &str) -> (r: bool)
    ensures
        r == is_custom(line@),
{
    if line.is_empty() {
        return false;
    }
    let v = text::chars_of(line);
    !text::begins_with(line, "if ! command -v nizm") && !text::begins_with(line, "echo \"nizm:")
        && !text::same(line, "exit 1") && !text::same(line, "fi") && !text::begins_with(
        line,
        "nizm run",
    ) && v[0] != '#'
}

/// Does the block hold a line that nizm did not write?
pub fn has_custom_block_content(content: &str) -> (r: bool)
    ensures
        r == customized(content@),
{
    let lines = text::split_lines(content);
    let (start, end) = match find_block_bounds(&lines) {
        Some(b) => b,
        None => return false,
    };
    let trimmed = trimmed_lines(content);
    let ghost ts = script_lines(content@);
    proof {
        assert(trimmed@.len() == text::views(trimmed@).len());
        assert(lines@.len() == text::views(lines@).len());
    }
    let mut i: usize = start + 1;
    while i < end
        invariant
            start < i <= end < trimmed.len(),
            text::views(trimmed@) == ts,
            ts == script_lines(content@),
            bounds(ts) == Some((start as int, end as int)),
            forall|j: int| start < j < i ==> !is_custom(#[trigger] ts[j]),
        decreases end - i,
    {
        proof {
            assert(text::views(trimmed@)[i as int] == trimmed@[i as int]@);
        }
        if is_custom_line(trimmed[i].as_str()) {
            proof {
                assert(is_custom(ts[i as int]));
            }
            return true;
        }
        i += 1;
    }
    false
}

/// `\n` behind a script that ends in one.
pub open spec fn final_feed(content: Seq<char>) -> Seq<char> {
    if content.len() > 0 && content.last() == '\n' {
        seq!['\n']
    } else {
        seq![]
    }
}

/// The script with `block` in place of the lines from `b.0` to `b.1`.
pub open spec fn replaced(content: Seq<char>, b: (int, int), block: Seq<char>) -> Seq<char> {
    let ls = text::lines(content);
    text::join(ls.take(b.0) + text::lines(block) + ls.skip(b.1 + 1), seq!['\n']) + final_feed(
        content,
    )
}

/// Does the text end in a line feed?
pub fn ends_in_feed(s: &str) -> (r: bool)
    ensures
        r == (s@.len() > 0 && s@.last() == '\n'),
{
    let v = text::chars_of(s);
    v.len() > 0 && v[v.len() - 1] == '\n'
}

/// Copies the lines from `from` up to `to` behind those of `out`.
pub fn copy_lines(out: &mut Vec<String>, lines: &Vec<String>, from: usize, to: usize)
    requires
        from <= to <= lines.len(),
    ensures
        text::views(final(out)@) == text::views(old(out)@) + text::views(lines@).subrange(
            from as int,
            to as int,
        ),
{
    let ghost before = text::views(out@);
    let mut i: usize = from;
    while i < to
        invariant
            from <= i <= to <= lines.len(),
            before == text::views(old(out)@),
            text::views(out@) =~= before + text::views(lines@).subrange(from as int, i as int),
        decreases to - i,
    {
        let ghost last = text::views(out@);
        out.push(lines[i].clone());
        proof {
            assert(text::views(out@) =~= last.push(lines@[i as int]@));
        }
        i += 1;
    }
}

/// The script with its block replaced by `new_block`; an error if it has none.
pub fn replace_block(content: &str, new_block: &str) -> (r: Result<String, String>)
    ensures
        r is Ok <==> bounds(script_lines(content@)) is Some,
        r matches Ok(t) ==> t@ == replaced(
            content@,
            bounds(script_lines(content@))->0,
            new_block@,
        ),
        r matches Err(e) ==> e@ == "nizm block markers not found"@,
{
    let lines = text::split_lines(content);
    let (start, end) = match find_block_bounds(&lines) {
        Some(b) => b,
        None => return Err(String::from_str("nizm block markers not found")),
    };
    let inserted = text::split_lines(new_block);
    let mut result: Vec<String> = Vec::new();
    proof {
        assert(text::views(result@) =~= seq![]);
    }
    copy_lines(&mut result, &lines, 0, start);
    copy_lines(&mut result, &inserted, 0, inserted.len());
    copy_lines(&mut result, &lines, end + 1, lines.len());
    let mut out = text::joined(&result, "\n");
    proof {
        reveal_strlit("\n");
        assert("\n"@ =~= seq!['\n']);
        let ls = text::lines(content@);
        assert(text::views(result@) =~= ls.take(start as int) + text::lines(new_block@) + ls.skip(
            end + 1,
        ));
    }
    let ghost joined = out@;
    if ends_in_feed(content) {
        out.push('\n');
    }
    proof {
        assert(out@ =~= joined + final_feed(content@));
    }
    Ok(out)
}

// ---- writing the block ----

/// A path that the shell would take apart if it stood bare.
pub open spec fn needs_quotes(path: Seq<char>) -> bool {
    exists|i: int| 0 <= i < path.len() && splits_word(#[trigger] path[i])
}

/// ASCII white space or a single quote.
pub open spec fn splits_word(c: char) -> bool {
    c == ' ' || c == '\t' || c == '\n' || c == '\u{c}' || c == '\r' || c == '\''
}

/// The argument that names one manifest.
pub open spec fn config_arg(path: Seq<char>) -> Seq<char> {
    if needs_quotes(path) {
        " --config '"@ + runner::quote_body(path) + "'"@
    } else {
        " --config "@ + path
    }
}

/// The arguments that name the manifests.
pub open spec fn config_args(paths: Seq<Seq<char>>) -> Seq<char>
    decreases paths.len(),
{
    if paths.len() == 0 {
        seq![]
    } else {
        config_args(paths.drop_last()) + config_arg(paths.last())
    }
}

/// The command that runs the hooks. Every stage but `pre-commit` is named, and
/// hands on what git passed to the script.
pub open spec fn run_line(
    paths: Seq<Seq<char>>,
    parallel: bool,
    hook_type: config::HookType,
) -> Seq<char> {
    "nizm run"@ + config_args(paths) + (if parallel {
        " --parallel"@
    } else {
        seq![]
    }) + (if hook_type == config::HookType::PreCommit {
        seq![]
    } else {
        " --hook-type "@ + config::stage_name(hook_type) + " -- \"$@\""@
    }) + " || exit $?"@
}

/// The lines of the block for one hook script.
pub open spec fn block_lines(
    paths: Seq<Seq<char>>,
    parallel: bool,
    hook_type: config::HookType,
) -> Seq<Seq<char>> {
    seq![
        BLOCK_START@,
        "# auto-generated by nizm — do not edit"@,
        "if ! command -v nizm >/dev/null 2>&1; then"@,
        "  echo \"nizm: not found in PATH — install it or run: cargo install nizm\" >&2"@,
        "  exit 1"@,
        "fi"@,
        run_line(paths, parallel, hook_type),
        BLOCK_END@,
    ]
}

/// The block for one hook script.
pub open spec fn block_text(
    paths: Seq<Seq<char>>,
    parallel: bool,
    hook_type: config::HookType,
) -> Seq<char> {
    text::join(block_lines(paths, parallel, hook_type), seq!['\n'])
}

/// Would the shell take the bare path apart?
fn is_split(path: &str) -> (r: bool)
    ensures
        r == needs_quotes(path@),
{
    let v = text::chars_of(path);
    let mut i: usize = 0;
    while i < v.len()
        invariant
            i <= v.len(),
            v@ == path@,
            forall|j: int| 0 <= j < i ==> !splits_word(#[trigger] path@[j]),
        decreases v.len() - i,
    {
        let c = v[i];
        if c == ' ' || c == '\t' || c == '\n' || c == '\u{c}' || c == '\r' || c == '\'' {
            proof {
                assert(splits_word(path@[i as int]));
            }
            return true;
        }
        i += 1;
    }
    false
}

/// The block for the script of one hook type.
pub fn generate_block(
    manifests: &Vec<String>,
    parallel: bool,
    hook_type: config::HookType,
) -> (r: String)
    ensures
        r@ == block_text(text::views(manifests@), parallel, hook_type),
{
    let mut args = String::new();
    let ghost paths = text::views(manifests@);
    let mut i: usize = 0;
    proof {
        assert(args@ =~= config_args(paths.take(0)));
    }
    while i < manifests.len()
        invariant
            i <= manifests.len(),
            paths == text::views(manifests@),
            args@ == config_args(paths.take(i as int)),
        decreases manifests.len() - i,
    {
        let ghost before = args@;
        let path = manifests[i].as_str();
        if is_split(path) {
            args.append(" --config '");
            args.append(runner::quote_inside(path).as_str());
            args.append("'");
        } else {
            args.append(" --config ");
            args.append(path);
        }
        proof {
            assert(args@ =~= before + config_arg(path@));
            assert(paths.take(i + 1).drop_last() =~= paths.take(i as int));
            assert(paths.take(i + 1).last() == path@);
        }
        i += 1;
    }
    proof {
        assert(paths.take(i as int) =~= paths);
    }
    let mut run = String::from_str("nizm run");
    run.append(args.as_str());
    if parallel {
        run.append(" --parallel");
    }
    if hook_type != config::HookType::PreCommit {
        run.append(" --hook-type ");
        run.append(hook_type.as_str());
        run.append(" -- \"$@\"");
    }
    run.append(" || exit $?");
    proof {
        assert(run@ =~= run_line(paths, parallel, hook_type));
    }
    let mut lines: Vec<String> = Vec::new();
    lines.push(String::from_str(BLOCK_START));
    lines.push(String::from_str("# auto-generated by nizm — do not edit"));
    lines.push(String::from_str("if ! command -v nizm >/dev/null 2>&1; then"));
    lines.push(
        String::from_str(
            "  echo \"nizm: not found in PATH — install it or run: cargo install nizm\" >&2",
        ),
    );
    lines.push(String::from_str("  exit 1"));
    lines.push(String::from_str("fi"));
    lines.push(run);
    lines.push(String::from_str(BLOCK_END));
    proof {
        reveal_strlit("\n");
        assert("\n"@ =~= seq!['\n']);
        assert(text::views(lines@) =~= block_lines(paths, parallel, hook_type));
    }
    text::joined(&lines, "\n")
}

// ---- what becomes of a hook script ----

/// What to do with the script of one hook type.
pub enum HookFilePlan {
    /// There is no script: write this one.
    Create(String),
    /// The script holds the block already.
    UpToDate,
    /// Write the script with its block replaced; `custom` if that drops lines
    /// that nizm did not write.
    Update { content: String, custom: bool },
    /// Write the script with the block behind what it holds.
    Append(String),
    /// The script's block opens behind the line that closes it.
    Broken(String),
}

/// The plan, with what is to be written.
pub enum Plan {
    Create(Seq<char>),
    UpToDate,
    Update(Seq<char>, bool),
    Append(Seq<char>),
    Broken(Seq<char>),
}

impl View for HookFilePlan {
    type V = Plan;

    open spec fn view(&self) -> Plan {
        match self {
            HookFilePlan::Create(t) => Plan::Create(t@),
            HookFilePlan::UpToDate => Plan::UpToDate,
            HookFilePlan::Update { content, custom } => Plan::Update(content@, *custom),
            HookFilePlan::Append(t) => Plan::Append(t@),
            HookFilePlan::Broken(t) => Plan::Broken(t@),
        }
    }
}

/// A new script that holds only the block.
pub open spec fn fresh(block: Seq<char>) -> Seq<char> {
    "#!/bin/sh\n"@ + block + "\n"@
}

/// The script with the block behind an empty line.
pub open spec fn appended(content: Seq<char>, block: Seq<char>) -> Seq<char> {
    content + (if content.len() > 0 && content.last() == '\n' {
        seq![]
    } else {
        seq!['\n']
    }) + seq!['\n'] + block + seq!['\n']
}

/// What to do with a script, or with none, so that it holds the block.
pub open spec fn plan(existing: Option<Seq<char>>, block: Seq<char>) -> Plan {
    match existing {
        None => Plan::Create(fresh(block)),
        Some(content) => if !managed(content) {
            Plan::Append(appended(content, block))
        } else if block_is(content, block) {
            Plan::UpToDate
        } else {
            match bounds(script_lines(content)) {
                Some(b) => Plan::Update(replaced(content, b, block), customized(content)),
                None => Plan::Broken("nizm block markers not found"@),
            }
        },
    }
}

/// What to do with a script, or with none, so that it holds the block.
pub fn plan_hook_file(existing: Option<&str>, block: &str) -> (r: HookFilePlan)
    ensures
        r@ == plan(
            match existing {
                Some(c) => Some(c@),
                None => None,
            },
            block@,
        ),
{
    let content: &str = match existing {
        Some(c) => c,
        None => {
            let mut t = String::from_str("#!/bin/sh\n");
            t.append(block);
            t.append("\n");
            return HookFilePlan::Create(t);
        },
    };
    if is_nizm_managed(content) {
        if blocks_match(content, block) {
            return HookFilePlan::UpToDate;
        }
        let custom = has_custom_block_content(content);
        match replace_block(content, block) {
            Ok(t) => HookFilePlan::Update { content: t, custom },
            Err(e) => HookFilePlan::Broken(e),
        }
    } else {
        let mut t = String::from_str(content);
        if !ends_in_feed(content) {
            t.push('\n');
        }
        t.push('\n');
        t.append(block);
        t.push('\n');
        proof {
            assert(t@ =~= appended(content@, block@));
        }
        HookFilePlan::Append(t)
    }
}

/// The leave to overwrite lines that nizm did not write.
pub enum Consent {
    /// Granted beforehand; the notice is to be shown.
    Granted(String),
    /// To be asked for, under the notice.
    Ask(String),
    /// Not to be had; the error says so.
    Refused(String),
}

/// Lines that nizm did not write may be overwritten without asking.
pub open spec fn is_granted(force: bool, interactive: bool) -> bool {
    force
}

/// The user is to be asked whether lines that nizm did not write may be overwritten.
pub open spec fn is_to_be_asked(force: bool, interactive: bool) -> bool {
    !force && interactive
}

/// Nothing of the user's is overwritten without leave: only `--force` gives it beforehand,
/// and where nobody can be asked it is not to be had otherwise.
pub proof fn law_nothing_is_overwritten_without_leave(interactive: bool)
    ensures
        is_granted(true, interactive) && !is_to_be_asked(true, interactive),
        !is_granted(false, interactive),
        is_to_be_asked(false, true),
        !is_to_be_asked(false, false),
{
}

/// Who decides whether lines that nizm did not write are overwritten: `--force`
/// grants it, a user at the terminal is asked, and otherwise it is refused.
pub fn require_overwrite_consent(
    message: &str,
    force: bool,
    interactive: bool,
    color: bool,
) -> (r: Consent)
    ensures
        r is Granted <==> is_granted(force, interactive),
        r is Ask <==> is_to_be_asked(force, interactive),
        r is Granted <==> force,
        r is Ask <==> !force && interactive,
        r matches Consent::Granted(t) ==> t@ == style::yellow_text("warning:"@, color) + " "@
            + message@ + " (--force)"@,
        r matches Consent::Ask(t) ==> t@ == style::yellow_text("warning:"@, color) + " "@
            + message@,
        r matches Consent::Refused(t) ==> t@ == message@ + " — use --force to overwrite"@,
{
    if force {
        let mut t = style::yellow("warning:", color);
        t.append(" ");
        t.append(message);
        t.append(" (--force)");
        Consent::Granted(t)
    } else if interactive {
        let mut t = style::yellow("warning:", color);
        t.append(" ");
        t.append(message);
        Consent::Ask(t)
    } else {
        let mut t = String::from_str(message);
        t.append(" — use --force to overwrite");
        Consent::Refused(t)
    }
}

/// The line that says what became of the script; empty where nothing did.
pub open spec fn outcome_text(hook_type: config::HookType, done: Plan, color: bool) -> Seq<char> {
    let name = config::stage_name(hook_type);
    match done {
        Plan::Create(_) => style::green_text(name + " hook installed"@, color),
        Plan::UpToDate => style::green_text(name + " hook already up to date"@, color),
        Plan::Update(_, _) => style::green_text(name + " hook updated"@, color),
        Plan::Append(_) => style::green_text("nizm block"@, color) + " appended to existing "@
            + name + " hook"@,
        Plan::Broken(_) => seq![],
    }
}

/// The line that says what became of the script; empty where nothing did.
pub fn outcome_line(hook_type: config::HookType, done: &HookFilePlan, color: bool) -> (r: String)
    ensures
        r@ == outcome_text(hook_type, done@, color),
{
    let mut name = String::from_str(hook_type.as_str());
    match done {
        HookFilePlan::Create(_) => {
            name.append(" hook installed");
            style::green(name.as_str(), color)
        },
        HookFilePlan::UpToDate => {
            name.append(" hook already up to date");
            style::green(name.as_str(), color)
        },
        HookFilePlan::Update { content: _, custom: _ } => {
            name.append(" hook updated");
            style::green(name.as_str(), color)
        },
        HookFilePlan::Append(_) => {
            let mut t = style::green("nizm block", color);
            t.append(" appended to existing ");
            t.append(name.as_str());
            t.append(" hook");
            t
        },
        HookFilePlan::Broken(_) => String::new(),
    }
}

// ---- choosing the manifests ----

/// Which manifests go into the scripts.
pub enum Selection {
    /// These.
    Use(Vec<String>),
    /// There are none: offer to write a `.nizm.toml`.
    OfferFile,
    /// The user picks some of these.
    Pick(Vec<String>),
}

/// The manifests named on the command line, if any; else those found, which the
/// user picks from if there are several.
pub fn select_manifests(explicit: Vec<String>, found: Vec<String>) -> (r: Selection)
    ensures
        explicit@.len() > 0 ==> r == Selection::Use(explicit),
        explicit@.len() == 0 && found@.len() == 0 ==> r == Selection::OfferFile,
        explicit@.len() == 0 && found@.len() == 1 ==> r == Selection::Use(found),
        explicit@.len() == 0 && found@.len() > 1 ==> r == Selection::Pick(found),
{
    if explicit.len() > 0 {
        Selection::Use(explicit)
    } else if found.len() == 0 {
        Selection::OfferFile
    } else if found.len() == 1 {
        Selection::Use(found)
    } else {
        Selection::Pick(found)
    }
}

/// The manifests at the positions that the user ticked.
pub fn picked_manifests(found: &Vec<String>, ticked: &Vec<usize>) -> (r: Vec<String>)
    requires
        forall|i: int| 0 <= i < ticked@.len() ==> (#[trigger] ticked@[i]) < found@.len(),
    ensures
        r@.len() == ticked@.len(),
        forall|i: int|
            0 <= i < r@.len() ==> (#[trigger] r@[i])@ == found@[ticked@[i] as int]@,
{
    let mut r: Vec<String> = Vec::new();
    let mut i: usize = 0;
    while i < ticked.len()
        invariant
            i <= ticked.len(),
            r@.len() == i,
            forall|j: int|
                0 <= j < ticked@.len() ==> (#[trigger] ticked@[j]) < found@.len(),
            forall|j: int| 0 <= j < i ==> (#[trigger] r@[j])@ == found@[ticked@[j] as int]@,
        decreases ticked.len() - i,
    {
        r.push(found[ticked[i]].clone());
        i += 1;
    }
    r
}

/// The names of the hooks.
pub open spec fn hook_names(hooks: Seq<config::Hook>) -> Seq<Seq<char>> {
    Seq::new(hooks.len(), |i: int| hooks[i].name@)
}

/// The line that shows what a manifest holds.
pub open spec fn manifest_line(cfg: config::ManifestConfig, color: bool) -> Seq<char> {
    if cfg.hooks@.len() == 0 {
        "  "@ + style::yellow_text("warning:"@, color) + " "@ + cfg.path@ + " has no nizm hooks"@
    } else {
        "  "@ + cfg.path@ + " — ["@ + text::join(hook_names(cfg.hooks@), ", "@) + "]"@
    }
}

/// The line that shows what a manifest holds.
pub fn manifest_summary(cfg: &config::ManifestConfig, color: bool) -> (r: String)
    ensures
        r@ == manifest_line(*cfg, color),
{
    let mut t = String::from_str("  ");
    if cfg.hooks.len() == 0 {
        t.append(style::yellow("warning:", color).as_str());
        t.append(" ");
        t.append(cfg.path.as_str());
        t.append(" has no nizm hooks");
        return t;
    }
    let mut names: Vec<String> = Vec::new();
    let mut i: usize = 0;
    while i < cfg.hooks.len()
        invariant
            i <= cfg.hooks.len(),
            text::views(names@) =~= hook_names(cfg.hooks@).take(i as int),
        decreases cfg.hooks.len() - i,
    {
        let ghost before = text::views(names@);
        names.push(cfg.hooks[i].name.clone());
        proof {
            assert(text::views(names@) =~= before.push(cfg.hooks@[i as int].name@));
        }
        i += 1;
    }
    proof {
        assert(text::views(names@) =~= hook_names(cfg.hooks@));
    }
    t.append(cfg.path.as_str());
    t.append(" — [");
    t.append(text::joined(&names, ", ").as_str());
    t.append("]");
    t
}

/// Some hook of the manifests belongs to the stage.
pub open spec fn type_used(configs: Seq<config::ManifestConfig>, t: config::HookType) -> bool {
    exists|i: int, j: int|
        0 <= i < configs.len() && 0 <= j < configs[i].hooks@.len() && (
        #[trigger] configs[i].hooks@[j]).hook_type == t
}

/// Does some hook of the manifests belong to the stage?
fn uses_type(configs: &Vec<config::ManifestConfig>, t: config::HookType) -> (r: bool)
    ensures
        r == type_used(configs@, t),
{
    let mut i: usize = 0;
    while i < configs.len()
        invariant
            i <= configs.len(),
            forall|a: int, b: int|
                0 <= a < i && 0 <= b < configs@[a].hooks@.len() ==> (
                #[trigger] configs@[a].hooks@[b]).hook_type != t,
        decreases configs.len() - i,
    {
        let mut j: usize = 0;
        while j < configs[i].hooks.len()
            invariant
                i < configs.len(),
                j <= configs[i as int].hooks.len(),
                forall|b: int|
                    0 <= b < j ==> (#[trigger] configs@[i as int].hooks@[b]).hook_type != t,
            decreases configs[i as int].hooks.len() - j,
        {
            if configs[i].hooks[j].hook_type == t {
                proof {
                    assert(configs@[i as int].hooks@[j as int].hook_type == t);
                }
                return true;
            }
            j += 1;
        }
        i += 1;
    }
    false
}

/// The stages that need a script: those that some hook belongs to.
pub fn types_used(configs: &Vec<config::ManifestConfig>) -> (r: Vec<config::HookType>)
    ensures
        r@ == config::every_type().filter(|t: config::HookType| type_used(configs@, t)),
{
    let all = config::all_hook_types();
    let ghost keep = |t: config::HookType| type_used(configs@, t);
    let mut r: Vec<config::HookType> = Vec::new();
    let mut i: usize = 0;
    proof {
        reveal(Seq::filter);
        assert(all@.take(0).filter(keep) =~= seq![]);
    }
    while i < all.len()
        invariant
            i <= all.len(),
            all@ == config::every_type(),
            keep == (|t: config::HookType| type_used(configs@, t)),
            r@ == all@.take(i as int).filter(keep),
        decreases all.len() - i,
    {
        proof {
            reveal(Seq::filter);
            assert(all@.take(i + 1).drop_last() =~= all@.take(i as int));
            assert(all@.take(i + 1).last() == all@[i as int]);
        }
        if uses_type(configs, all[i]) {
            r.push(all[i]);
        }
        i += 1;
    }
    proof {
        assert(all@.take(i as int) =~= all@);
    }
    r
}

// ---- laws ----

/// A text whose first line opens a block, whose last line closes it, and that
/// no line break ends.
pub open spec fn is_block(block: Seq<char>) -> bool {
    let ts = script_lines(block);
    &&& ts.len() >= 2
    &&& ts[0] == BLOCK_START@
    &&& ts.last() == BLOCK_END@
    &&& block.last() != '\n'
    &&& block.last() != '\r'
}

/// The marker lines are lines with no white space around them.
pub proof fn lemma_markers()
    ensures
        text::is_line(BLOCK_START@),
        text::is_line(BLOCK_END@),
        text::trim(BLOCK_START@) == BLOCK_START@,
        text::trim(BLOCK_END@) == BLOCK_END@,
        BLOCK_START@.len() == 12,
        BLOCK_END@.len() == 10,
        BLOCK_END@.last() == 'd',
        text::trim(Seq::<char>::empty()) == Seq::<char>::empty(),
{
    reveal_strlit("# nizm-start");
    reveal_strlit("# nizm-end");
    assert(BLOCK_START@.len() == 12 && BLOCK_START@[0] == '#' && BLOCK_START@.last() == 't');
    assert(BLOCK_END@.len() == 10 && BLOCK_END@[0] == '#' && BLOCK_END@.last() == 'd');
    assert(!BLOCK_START@.contains('\n'));
    assert(!BLOCK_END@.contains('\n'));
}

/// What `generate_block` writes is a block, whatever the manifests are called.
pub proof fn law_generated_block(
    paths: Seq<Seq<char>>,
    parallel: bool,
    hook_type: config::HookType,
)
    ensures
        is_block(block_text(paths, parallel, hook_type)),
{
    let nl = seq!['\n'];
    let b = block_text(paths, parallel, hook_type);
    let all = block_lines(paths, parallel, hook_type);
    lemma_markers();
    let rest = all.skip(1);
    assert(all =~= seq![BLOCK_START@] + rest);
    text::lemma_join_front(BLOCK_START@, rest, nl);
    text::lemma_lines_split(BLOCK_START@, text::join(rest, nl));
    text::lemma_lines_single(BLOCK_START@);
    let u = text::join(all.drop_last(), nl);
    assert(b == u + nl + BLOCK_END@);
    text::lemma_lines_split(u, BLOCK_END@);
    text::lemma_lines_single(BLOCK_END@);
    let tail = text::join(rest, nl);
    assert(tail == text::join(rest.drop_last(), nl) + nl + BLOCK_END@);
    text::lemma_lines_hold_no_feed(tail);
    let ls = text::lines(b);
    assert(ls[0] == BLOCK_START@);
    assert(ls.last() == BLOCK_END@);
    assert(b.last() == BLOCK_END@.last());
}

/// Lines around a block in which nothing before it opens one and nothing
/// behind it closes one: the block is what `bounds` finds.
proof fn lemma_bounds_around(a: Seq<Seq<char>>, m: Seq<Seq<char>>, z: Seq<Seq<char>>)
    requires
        m.len() >= 2,
        m[0] == BLOCK_START@,
        m.last() == BLOCK_END@,
        forall|i: int| 0 <= i < a.len() ==> #[trigger] a[i] != BLOCK_START@,
        forall|i: int| 0 <= i < z.len() ==> #[trigger] z[i] != BLOCK_END@,
    ensures
        bounds(a + m + z) == Some((a.len() as int, a.len() + m.len() - 1)),
        (a + m + z).subrange(a.len() as int, (a.len() + m.len()) as int) == m,
{
    let ts = a + m + z;
    let s = a.len() as int;
    let e = a.len() + m.len() - 1;
    assert(ts[s] == m[0]);
    assert(ts[e] == m[m.len() - 1]);
    assert forall|j: int| 0 <= j < s implies ts[j] != BLOCK_START@ by {
        assert(ts[j] == a[j]);
    }
    assert forall|j: int| e < j < ts.len() implies ts[j] != BLOCK_END@ by {
        assert(ts[j] == z[j - e - 1]);
    }
    lemma_start_is(ts, 0, s);
    lemma_end_is(ts, ts.len() as int, e);
    assert(ts.subrange(s, e + 1) =~= m);
}

/// A script whose lines are those of a block with others around it holds that
/// block.
pub proof fn lemma_holds_block(
    content: Seq<char>,
    a: Seq<Seq<char>>,
    block: Seq<char>,
    z: Seq<Seq<char>>,
)
    requires
        is_block(block),
        script_lines(content) == a + script_lines(block) + z,
        forall|i: int| 0 <= i < a.len() ==> #[trigger] a[i] != BLOCK_START@,
        forall|i: int| 0 <= i < z.len() ==> #[trigger] z[i] != BLOCK_END@,
    ensures
        managed(content),
        block_is(content, block),
        bounds(script_lines(content)) == Some(
            (a.len() as int, a.len() + script_lines(block).len() - 1),
        ),
{
    let m = script_lines(block);
    let ts = script_lines(content);
    lemma_bounds_around(a, m, z);
    assert(ts[a.len() as int] == m[0]);
    assert(ts[a.len() + m.len() - 1] == m[m.len() - 1]);
}

/// The lines of a new script: the interpreter, then the block.
pub proof fn lemma_fresh_lines(block: Seq<char>)
    requires
        is_block(block),
    ensures
        text::lines(fresh(block)) == seq!["#!/bin/sh"@] + text::lines(block),
        script_lines(fresh(block)) == seq!["#!/bin/sh"@] + script_lines(block),
        "#!/bin/sh"@ != BLOCK_START@,
        text::trim("#!/bin/sh"@) == "#!/bin/sh"@,
{
    let nl = seq!['\n'];
    reveal_strlit("\n");
    reveal_strlit("#!/bin/sh\n");
    reveal_strlit("#!/bin/sh");
    lemma_markers();
    let sh = "#!/bin/sh"@;
    assert(sh.len() == 9 && sh[0] == '#' && sh.last() == 'h');
    assert(!sh.contains('\n'));
    assert(block.len() > 0) by {
        if block.len() == 0 {
            assert(text::lines(block) =~= seq![]);
        }
    }
    assert(fresh(block) =~= sh + nl + (block + nl));
    text::lemma_lines_split(sh, block + nl);
    text::lemma_lines_single(sh);
    text::lemma_lines_terminated(block);
    assert(text::trim(sh) == sh);
    assert(script_lines(fresh(block)) =~= seq![sh] + script_lines(block));
}

/// The lines of a script that the block was appended to: its own, an empty
/// one, then those of the block.
pub proof fn lemma_appended_lines(content: Seq<char>, block: Seq<char>)
    requires
        is_block(block),
        content.len() > 0,
    ensures
        text::trims(text::lines(appended(content, block))) == script_lines(content) + seq![
            Seq::<char>::empty(),
        ] + script_lines(block),
        content.last() == '\n' || content.last() != '\r' ==> text::lines(appended(content, block))
            == text::lines(content) + seq![Seq::<char>::empty()] + text::lines(block),
{
    let nl = seq!['\n'];
    let none = Seq::<char>::empty();
    lemma_markers();
    assert(block.len() > 0) by {
        if block.len() == 0 {
            assert(text::lines(block) =~= seq![]);
        }
    }
    let u = if content.last() == '\n' {
        content.drop_last()
    } else {
        content
    };
    let tail = none + nl + (block + nl);
    assert(appended(content, block) =~= u + nl + tail);
    text::lemma_lines_split(u, tail);
    text::lemma_lines_split(none, block + nl);
    assert(none.len() == 0 && !none.contains('\n'));
    text::lemma_lines_single(none);
    text::lemma_lines_terminated(block);
    let head = text::lines(u + nl);
    assert(text::lines(appended(content, block)) =~= head + seq![none] + text::lines(block));
    assert(text::trims(head + seq![none] + text::lines(block)) =~= text::trims(head) + seq![none]
        + script_lines(block));
    if content.last() == '\n' {
        assert(u + nl =~= content);
    } else {
        lemma_terminated_trims(content);
        if content.last() != '\r' {
            text::lemma_lines_terminated(content);
        }
    }
}

/// A line feed behind a text that ends in none leaves its trimmed lines as they
/// are.
proof fn lemma_terminated_trims(s: Seq<char>)
    requires
        s.len() > 0,
        s.last() != '\n',
    ensures
        text::trims(text::lines(s + seq!['\n'])) == text::trims(text::lines(s)),
    decreases s.len(),
{
    let nl = seq!['\n'];
    let t = s + nl;
    let i = text::index_from(s, '\n', 0);
    text::lemma_index_from(s, '\n', 0);
    assert(t[s.len() as int] == '\n');
    assert forall|j: int| 0 <= j < i implies t[j] != '\n' by {
        assert(t[j] == s[j]);
    }
    if i < s.len() {
        assert(t[i] == s[i]);
        text::lemma_index_is(t, '\n', 0, i);
        let rest = s.skip(i + 1);
        assert(rest.last() == s.last());
        lemma_terminated_trims(rest);
        assert(t.skip(i + 1) =~= rest + nl);
        assert(t.take(i) =~= s.take(i));
        let first = seq![text::strip_cr(s.take(i))];
        let a = text::lines(rest + nl);
        let b = text::lines(rest);
        assert(text::trims(first + a) =~= text::trims(first) + text::trims(a));
        assert(text::trims(first + b) =~= text::trims(first) + text::trims(b));
    } else {
        text::lemma_index_is(t, '\n', 0, i);
        assert(t.take(i) =~= s);
        assert(t.skip(i + 1) =~= Seq::<char>::empty());
        assert(text::lines(t.skip(i + 1)) =~= seq![]);
        assert(text::lines(t) =~= seq![text::strip_cr(s)]);
        text::lemma_trim_strip_cr(s);
        assert(text::trims(text::lines(t)) =~= text::trims(text::lines(s)));
    }
}

/// A script whose block is replaced has the lines before and behind it as
/// they were.
proof fn lemma_replaced_lines(content: Seq<char>, block: Seq<char>)
    requires
        is_block(block),
        bounds(script_lines(content)) is Some,
    ensures
        ({
            let ts = script_lines(content);
            let b = bounds(ts)->0;
            &&& 0 <= b.0 < b.1 < ts.len()
            &&& script_lines(replaced(content, b, block)) == ts.take(b.0) + script_lines(block)
                + ts.skip(b.1 + 1)
            &&& forall|i: int| 0 <= i < b.0 ==> #[trigger] ts.take(b.0)[i] != BLOCK_START@
            &&& forall|i: int|
                0 <= i < ts.skip(b.1 + 1).len() ==> #[trigger] ts.skip(b.1 + 1)[i] != BLOCK_END@
        }),
{
    let nl = seq!['\n'];
    let ls = text::lines(content);
    let ts = script_lines(content);
    let b = bounds(ts)->0;
    lemma_start_from(ts, 0);
    lemma_end_before(ts, ts.len() as int);
    let bl = text::lines(block);
    let all = ls.take(b.0) + bl + ls.skip(b.1 + 1);
    text::lemma_lines_hold_no_feed(content);
    text::lemma_lines_hold_no_feed(block);
    assert forall|i: int| 0 <= i < all.len() implies !(#[trigger] all[i]).contains('\n') by {
        if i < b.0 {
            assert(all[i] == ls[i]);
        } else if i < b.0 + bl.len() {
            assert(all[i] == bl[i - b.0]);
        } else {
            assert(all[i] == ls[i - b.0 - bl.len() + b.1 + 1]);
        }
    }
    text::lemma_trimmed_lines_join(all);
    assert(text::trims(all) =~= ts.take(b.0) + script_lines(block) + ts.skip(b.1 + 1));
    assert(content.len() > 0) by {
        if content.len() == 0 {
            assert(ls =~= seq![]);
        }
    }
    if content.last() == '\n' {
        assert(replaced(content, b, block) == text::join(all, nl) + nl);
    } else {
        assert(replaced(content, b, block) =~= text::join(all, nl));
        if b.1 + 1 < ls.len() {
            assert(all.last() == ls.last());
        } else {
            assert(all.last() == bl.last());
            lemma_markers();
            assert(text::trim(bl.last()) == BLOCK_END@);
            if bl.last().len() == 0 {
                assert(bl.last() =~= Seq::<char>::empty());
            }
        }
    }
}

/// Installing settles a script: once the plan for it is carried out, the next
/// plan finds it up to date. Only a script with a line that opens a block and
/// none that closes one is different, since nizm's block is then taken to begin
/// at that line.
pub proof fn law_install_settles(existing: Option<Seq<char>>, block: Seq<char>)
    requires
        is_block(block),
        existing matches Some(c) ==> (managed(c) || !script_lines(c).contains(BLOCK_START@)),
    ensures
        plan(existing, block) matches Plan::Create(t) ==> plan(Some(t), block) == Plan::UpToDate,
        plan(existing, block) matches Plan::Append(t) ==> plan(Some(t), block) == Plan::UpToDate,
        plan(existing, block) matches Plan::Update(t, _) ==> plan(Some(t), block)
            == Plan::UpToDate,
{
    let none = Seq::<char>::empty();
    let m = script_lines(block);
    match existing {
        None => {
            let t = fresh(block);
            let a = seq!["#!/bin/sh"@];
            let z = Seq::<Seq<char>>::empty();
            lemma_fresh_lines(block);
            assert(script_lines(t) =~= a + m + z);
            lemma_holds_block(t, a, block, z);
        },
        Some(c) => {
            if !managed(c) {
                let t = appended(c, block);
                let z = Seq::<Seq<char>>::empty();
                lemma_markers();
                if c.len() == 0 {
                    let nl = seq!['\n'];
                    let a = seq![none, none];
                    assert(block.len() > 0) by {
                        if block.len() == 0 {
                            assert(text::lines(block) =~= seq![]);
                        }
                    }
                    assert(!none.contains('\n'));
                    assert(t =~= none + nl + (none + nl + (block + nl)));
                    text::lemma_lines_split(none, none + nl + (block + nl));
                    text::lemma_lines_split(none, block + nl);
                    text::lemma_lines_single(none);
                    text::lemma_lines_terminated(block);
                    assert(text::lines(t) =~= seq![none, none] + text::lines(block));
                    assert(script_lines(t) =~= a + m + z);
                    lemma_holds_block(t, a, block, z);
                } else {
                    let ts = script_lines(c);
                    let a = ts + seq![none];
                    lemma_appended_lines(c, block);
                    assert(script_lines(t) =~= a + m + z);
                    assert forall|i: int| 0 <= i < a.len() implies #[trigger] a[i]
                        != BLOCK_START@ by {
                        if i < ts.len() {
                            assert(ts.contains(ts[i]));
                        }
                    }
                    lemma_holds_block(t, a, block, z);
                }
            } else if !block_is(c, block) && bounds(script_lines(c)) is Some {
                let ts = script_lines(c);
                let b = bounds(ts)->0;
                lemma_replaced_lines(c, block);
                lemma_holds_block(
                    replaced(c, b, block),
                    ts.take(b.0),
                    block,
                    ts.skip(b.1 + 1),
                );
            }
        },
    }
}

/// Appending keeps what the script held: it begins with the old text.
pub proof fn law_append_preserves(content: Seq<char>, block: Seq<char>)
    ensures
        content.is_prefix_of(appended(content, block)),
{
    assert(content =~= appended(content, block).take(content.len() as int));
}

/// Replacing the block keeps the lines before and behind it. (Of carriage returns
/// before line feeds, which are no part of a line, this says nothing: a script
/// with them keeps its lines but for white space around them.)
pub proof fn law_replace_preserves(content: Seq<char>, block: Seq<char>)
    requires
        is_block(block),
        bounds(script_lines(content)) is Some,
    ensures
        ({
            let ls = text::lines(content);
            let ts = script_lines(content);
            let b = bounds(ts)->0;
            let done = replaced(content, b, block);
            &&& script_lines(done) == ts.take(b.0) + script_lines(block) + ts.skip(b.1 + 1)
            &&& !content.contains('\r') && !block.contains('\r') ==> text::lines(done) == ls.take(b.0)
                + text::lines(block) + ls.skip(b.1 + 1)
        }),
{
    lemma_replaced_lines(content, block);
    if !content.contains('\r') && !block.contains('\r') {
        let nl = seq!['\n'];
        let ls = text::lines(content);
        let bl = text::lines(block);
        let b = bounds(script_lines(content))->0;
        let all = ls.take(b.0) + bl + ls.skip(b.1 + 1);
        text::lemma_lines_are_lines(content);
        text::lemma_lines_are_lines(block);
        assert(content.len() > 0 && block.len() > 0) by {
            if content.len() == 0 {
                assert(ls =~= seq![]);
            }
            if block.len() == 0 {
                assert(bl =~= seq![]);
            }
        }
        assert forall|i: int| 0 <= i < all.len() implies text::is_line(#[trigger] all[i]) by {
            if i < b.0 {
                assert(all[i] == ls[i]);
            } else if i < b.0 + bl.len() {
                assert(all[i] == bl[i - b.0]);
            } else {
                assert(all[i] == ls[i - b.0 - bl.len() + b.1 + 1]);
            }
        }
        text::lemma_lines_join(all);
        if content.last() != '\n' {
            assert(replaced(content, b, block) =~= text::join(all, nl));
            if b.1 + 1 < ls.len() {
                assert(all.last() == ls.last());
            } else {
                assert(all.last() == bl.last());
            }
        }
    }
}

/// The text of a new `.nizm.toml`.
pub fn nizm_toml() -> (r: &'static str)
    ensures
        r@ == "[hooks]\n# example = { cmd = \"echo {staged_files}\" }\n"@,
{
    "[hooks]\n# example = { cmd = \"echo {staged_files}\" }\n"
}

/// nizm takes a script for its own exactly if both markers stand in it, each on a line of
/// its own but for white space around it.
pub proof fn law_managed(content: Seq<char>)
    ensures
        managed(content) <==> (exists|i: int|
            0 <= i < text::lines(content).len() && text::trim(#[trigger] text::lines(content)[i])
                == "# nizm-start"@) && (exists|i: int|
            0 <= i < text::lines(content).len() && text::trim(#[trigger] text::lines(content)[i])
                == "# nizm-end"@),
{
    let ls = text::lines(content);
    let ts = script_lines(content);
    if managed(content) {
        let i = choose|i: int| 0 <= i < ts.len() && ts[i] == BLOCK_START@;
        let j = choose|j: int| 0 <= j < ts.len() && ts[j] == BLOCK_END@;
        assert(text::trim(text::lines(content)[i]) == "# nizm-start"@);
        assert(text::trim(text::lines(content)[j]) == "# nizm-end"@);
    }
    if exists|i: int| 0 <= i < ls.len() && text::trim(#[trigger] text::lines(content)[i])
        == "# nizm-start"@ {
        let i = choose|i: int|
            0 <= i < ls.len() && text::trim(#[trigger] text::lines(content)[i]) == "# nizm-start"@;
        assert(ts[i] == BLOCK_START@);
    }
    if exists|i: int| 0 <= i < ls.len() && text::trim(#[trigger] text::lines(content)[i])
        == "# nizm-end"@ {
        let i = choose|i: int|
            0 <= i < ls.len() && text::trim(#[trigger] text::lines(content)[i]) == "# nizm-end"@;
        assert(ts[i] == BLOCK_END@);
    }
}

/// What becomes of a script: where there is none it is created, one that is not nizm's
/// keeps what it holds with the block behind it, one that holds the block is left alone,
/// and in any other of nizm's the block is replaced, or nothing is done if the markers
/// stand the wrong way round.
pub proof fn law_what_becomes_of_a_script(content: Seq<char>, block: Seq<char>)
    ensures
        plan(None, block) == Plan::Create("#!/bin/sh\n"@ + block + "\n"@),
        plan(Some(content), block) is Append <==> !managed(content),
        plan(Some(content), block) matches Plan::Append(t) ==> content.is_prefix_of(t) && (block
            + seq!['\n']).is_suffix_of(t),
        plan(Some(content), block) is UpToDate <==> managed(content) && block_is(content, block),
        plan(Some(content), block) is Update <==> managed(content) && !block_is(content, block)
            && bounds(script_lines(content)) is Some,
        plan(Some(content), block) is Broken <==> managed(content) && bounds(
            script_lines(content),
        ) is None,
        plan(Some(content), block) matches Plan::Broken(e) ==> e == "nizm block markers not found"@,
{
    law_append_preserves(content, block);
    let t = appended(content, block);
    let end = block + seq!['\n'];
    assert(end =~= t.skip(t.len() - end.len()));
}

/// The block is from the first line that opens one to the last that closes one: all that
/// lies between two markers in that order is in it.
pub proof fn law_bounds(ts: Seq<Seq<char>>, i: int, j: int)
    requires
        0 <= i < j < ts.len(),
        ts[i] == "# nizm-start"@,
        ts[j] == "# nizm-end"@,
    ensures
        bounds(ts) matches Some(b) && b.0 <= i && j <= b.1 && ts[b.0] == "# nizm-start"@ && ts[b.1]
            == "# nizm-end"@,
{
    lemma_start_from(ts, 0);
    lemma_end_before(ts, ts.len() as int);
}

/// Without two markers in order there is no block.
pub proof fn law_no_bounds(ts: Seq<Seq<char>>)
    requires
        forall|i: int, j: int|
            0 <= i < j < ts.len() && #[trigger] ts[i] == "# nizm-start"@ ==> #[trigger] ts[j]
                != "# nizm-end"@,
    ensures
        bounds(ts) is None,
{
    lemma_start_from(ts, 0);
    lemma_end_before(ts, ts.len() as int);
}

/// A line that is none of nizm's: anything that begins otherwise than the lines of a
/// block do.
pub proof fn law_own_line(line: Seq<char>)
    requires
        line.len() > 0,
        line[0] != '#',
        line[0] != 'n',
        line[0] != 'i' || (line.len() >= 2 && line[1] != 'f'),
        line[0] != 'e' || (line.len() >= 6 && line[5] != '"' && line[1] != 'x'),
        line[0] != 'f' || line.len() != 2,
    ensures
        is_custom(line),
{
    reveal_strlit("if ! command -v nizm");
    reveal_strlit("echo \"nizm:");
    reveal_strlit("exit 1");
    reveal_strlit("fi");
    reveal_strlit("nizm run");
    assert("if ! command -v nizm"@[0] == 'i' && "if ! command -v nizm"@[1] == 'f');
    assert("echo \"nizm:"@[0] == 'e' && "echo \"nizm:"@[5] == '"');
    assert("exit 1"@[0] == 'e' && "exit 1"@[1] == 'x');
    assert("fi"@[0] == 'f' && "fi"@.len() == 2);
    assert("nizm run"@[0] == 'n');
}

/// A line of the user's between the markers is never overwritten unnoticed: where it
/// stands, the plan to replace the block says so.
pub proof fn law_own_lines_are_noticed(content: Seq<char>, block: Seq<char>, i: int, k: int, j: int)
    requires
        0 <= i < k < j < script_lines(content).len(),
        script_lines(content)[i] == "# nizm-start"@,
        script_lines(content)[j] == "# nizm-end"@,
        is_custom(script_lines(content)[k]),
    ensures
        customized(content),
        plan(Some(content), block) is UpToDate || (plan(Some(content), block) matches Plan::Update(
            _,
            custom,
        ) && custom),
{
    let ts = script_lines(content);
    law_bounds(ts, i, j);
    assert(ts.contains(ts[i]) && ts.contains(ts[j]));
    assert(is_custom(ts[k]));
}

/// The lines that a block is made of, but for the command, are none of the user's, nor is
/// a command that begins as nizm's does; so replacing a block that nizm wrote is not
/// reported as a loss.
pub proof fn law_nizms_lines_are_its_own(rest: Seq<char>)
    ensures
        !is_custom("# nizm-start"@),
        !is_custom("# auto-generated by nizm — do not edit"@),
        !is_custom("if ! command -v nizm >/dev/null 2>&1; then"@),
        !is_custom(
            "echo \"nizm: not found in PATH — install it or run: cargo install nizm\" >&2"@,
        ),
        !is_custom("exit 1"@),
        !is_custom("fi"@),
        !is_custom("nizm run"@ + rest),
        !is_custom("# nizm-end"@),
        !is_custom(Seq::<char>::empty()),
        !is_custom(seq!['#'] + rest),
{
    reveal_strlit("# nizm-start");
    reveal_strlit("# auto-generated by nizm — do not edit");
    reveal_strlit("if ! command -v nizm >/dev/null 2>&1; then");
    reveal_strlit("if ! command -v nizm");
    reveal_strlit("echo \"nizm: not found in PATH — install it or run: cargo install nizm\" >&2");
    reveal_strlit("echo \"nizm:");
    reveal_strlit("# nizm-end");
    let a = "if ! command -v nizm >/dev/null 2>&1; then"@;
    let b = "if ! command -v nizm"@;
    assert(b =~= a.take(b.len() as int));
    let c = "echo \"nizm: not found in PATH — install it or run: cargo install nizm\" >&2"@;
    let d = "echo \"nizm:"@;
    assert(d =~= c.take(d.len() as int));
    let e = "nizm run"@;
    assert(e =~= (e + rest).take(e.len() as int));
}

/// A script is needed for exactly the stages that some hook belongs to.
pub proof fn law_stages_in_use(configs: Seq<config::ManifestConfig>, i: int, j: int)
    requires
        0 <= i < configs.len(),
        0 <= j < configs[i].hooks@.len(),
    ensures
        type_used(configs, configs[i].hooks@[j].hook_type),
        config::every_type().filter(|t: config::HookType| type_used(configs, t)).contains(
            configs[i].hooks@[j].hook_type,
        ),
        forall|t: config::HookType|
            (forall|a: int, b: int|
                0 <= a < configs.len() && 0 <= b < configs[a].hooks@.len() ==> (
                #[trigger] configs[a].hooks@[b]).hook_type != t) ==> !#[trigger] type_used(
                configs,
                t,
            ),
{
    let t = configs[i].hooks@[j].hook_type;
    let keep = |t: config::HookType| type_used(configs, t);
    let all = config::every_type();
    assert(type_used(configs, t));
    let k: int = match t {
        config::HookType::PreCommit => 0,
        config::HookType::PrePush => 1,
        config::HookType::CommitMsg => 2,
        config::HookType::PrepareCommitMsg => 3,
    };
    assert(all[k] == t);
    all.lemma_filter_contains(keep, k);
}

/// What is said of a script names its stage, and says whether it was installed, updated,
/// appended to or left alone.
pub proof fn law_outcome_lines(hook_type: config::HookType, t: Seq<char>, custom: bool)
    ensures
        outcome_text(hook_type, Plan::Create(t), false) == config::stage_name(hook_type)
            + " hook installed"@,
        outcome_text(hook_type, Plan::UpToDate, false) == config::stage_name(hook_type)
            + " hook already up to date"@,
        outcome_text(hook_type, Plan::Update(t, custom), false) == config::stage_name(hook_type)
            + " hook updated"@,
        outcome_text(hook_type, Plan::Append(t), false) == "nizm block appended to existing "@
            + config::stage_name(hook_type) + " hook"@,
        outcome_text(hook_type, Plan::Broken(t), false).len() == 0,
{
    reveal_strlit("nizm block");
    reveal_strlit(" appended to existing ");
    reveal_strlit("nizm block appended to existing ");
    assert("nizm block"@ + " appended to existing "@ =~= "nizm block appended to existing "@);
}

/// The line of a manifest names it and its hooks, in order; one without hooks is warned
/// about.
pub proof fn law_line_of_a_manifest(cfg: config::ManifestConfig)
    ensures
        cfg.hooks@.len() == 0 ==> manifest_line(cfg, false) == "  "@ + "warning:"@ + " "@ + cfg.path@
            + " has no nizm hooks"@,
        cfg.hooks@.len() > 0 ==> manifest_line(cfg, false) == "  "@ + cfg.path@ + " — ["@
            + text::join(Seq::new(cfg.hooks@.len(), |i: int| cfg.hooks@[i].name@), ", "@) + "]"@,
{
    assert(hook_names(cfg.hooks@) =~= Seq::new(cfg.hooks@.len(), |i: int| cfg.hooks@[i].name@));
}

/// Replacing the block leaves the end of a script as it was: a line feed behind the last
/// line stays, and none is added.
pub proof fn law_replace_keeps_the_end(content: Seq<char>, b: (int, int), block: Seq<char>)
    ensures
        ({
            let ls = text::lines(content);
            let body = text::join(
                ls.take(b.0) + text::lines(block) + ls.skip(b.1 + 1),
                seq!['\n'],
            );
            &&& content.len() > 0 && content.last() == '\n' ==> replaced(content, b, block) == body
                + seq!['\n']
            &&& content.len() == 0 || content.last() != '\n' ==> replaced(content, b, block)
                == body
        }),
{
    let ls = text::lines(content);
    let body = text::join(ls.take(b.0) + text::lines(block) + ls.skip(b.1 + 1), seq!['\n']);
    assert(body + Seq::<char>::empty() =~= body);
}

} // verus!
