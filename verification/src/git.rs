//! What git says, and what is to be asked of it next.

use crate::style;
use crate::text;
use vstd::prelude::*;
use vstd::string::*;

verus! {

broadcast use {group_string_axioms, vstd::seq::group_seq_axioms};

// ---- listings ----

/// The lines that hold anything.
pub open spec fn filled_lines(ls: Seq<Seq<char>>) -> Seq<Seq<char>> {
    ls.filter(|l: Seq<char>| l.len() > 0)
}

/// The files that a command lists, one to a line.
pub fn file_list(stdout: &str) -> (r: Vec<String>)
    ensures
        text::views(r@) == filled_lines(text::lines(stdout@)),
{
    let lines = text::split_lines(stdout);
    let ghost all = text::lines(stdout@);
    let ghost keep = |l: Seq<char>| l.len() > 0;
    let mut r: Vec<String> = Vec::new();
    let mut i: usize = 0;
    proof {
        reveal(Seq::filter);
        assert(all.len() == lines@.len());
        assert(text::views(r@) =~= all.take(0).filter(keep));
    }
    while i < lines.len()
        invariant
            i <= lines.len(),
            all == text::lines(stdout@),
            text::views(lines@) == all,
            all.len() == lines@.len(),
            keep == (|l: Seq<char>| l.len() > 0),
            text::views(r@) == all.take(i as int).filter(keep),
        decreases lines.len() - i,
    {
        let ghost before = text::views(r@);
        let ghost line = lines@[i as int]@;
        proof {
            reveal(Seq::filter);
            assert(all.take(i + 1).drop_last() =~= all.take(i as int));
            assert(all.take(i + 1).last() == line);
        }
        if !lines[i].as_str().is_empty() {
            r.push(lines[i].clone());
            proof {
                assert(text::views(r@) =~= before.push(line));
            }
        }
        i += 1;
    }
    proof {
        assert(all.take(i as int) =~= all);
    }
    r
}

/// What a command that lists files gave: its files, or the error that names it.
pub fn listing(command: &str, success: bool, stdout: &str, stderr: &str) -> (r: Result<
    Vec<String>,
    String,
>)
    ensures
        r is Ok <==> success,
        r matches Ok(files) ==> text::views(files@) == filled_lines(text::lines(stdout@)),
        r matches Err(e) ==> e@ == command@ + " failed: "@ + stderr@,
{
    if success {
        Ok(file_list(stdout))
    } else {
        let mut m = String::from_str(command);
        m.append(" failed: ");
        m.append(stderr);
        Err(m)
    }
}

/// The files of the repository, as `git ls-files` gave them.
pub fn tracked_files(success: bool, stdout: &str, stderr: &str) -> (r: Result<Vec<String>, String>)
    ensures
        r is Ok <==> success,
        r matches Ok(files) ==> text::views(files@) == filled_lines(text::lines(stdout@)),
        r matches Err(e) ==> e@ == "git ls-files"@ + " failed: "@ + stderr@,
{
    listing("git ls-files", success, stdout, stderr)
}

/// The staged files, as `git diff --cached` gave them.
pub fn staged_files(success: bool, stdout: &str, stderr: &str) -> (r: Result<Vec<String>, String>)
    ensures
        r is Ok <==> success,
        r matches Ok(files) ==> text::views(files@) == filled_lines(text::lines(stdout@)),
        r matches Err(e) ==> e@ == "git diff"@ + " failed: "@ + stderr@,
{
    listing("git diff", success, stdout, stderr)
}

/// The root of the repository, as `git rev-parse` gave it.
pub fn repo_root(success: bool, stdout: &str) -> (r: Result<String, String>)
    ensures
        r is Ok <==> success,
        r matches Ok(root) ==> root@ == text::trim(stdout@),
        r matches Err(e) ==> e@ == "not a git repository"@,
{
    if success {
        Ok(text::trimmed(stdout))
    } else {
        Err(String::from_str("not a git repository"))
    }
}

// ---- staged and unstaged changes ----

/// Some file is in both lists.
pub open spec fn meet(a: Seq<Seq<char>>, b: Seq<Seq<char>>) -> bool {
    exists|i: int| 0 <= i < a.len() && b.contains(#[trigger] a[i])
}

/// Has a staged file unstaged changes, too?
pub fn has_partial_staging(staged: &Vec<String>, unstaged: &Vec<String>) -> (r: bool)
    ensures
        r == meet(text::views(staged@), text::views(unstaged@)),
{
    let ghost all = text::views(staged@);
    let ghost changed = text::views(unstaged@);
    let mut i: usize = 0;
    while i < staged.len()
        invariant
            i <= staged.len(),
            all == text::views(staged@),
            changed == text::views(unstaged@),
            forall|j: int| 0 <= j < i ==> !changed.contains(#[trigger] all[j]),
        decreases staged.len() - i,
    {
        proof {
            assert(all[i as int] == staged@[i as int]@);
        }
        if text::listed(unstaged, staged[i].as_str()) {
            return true;
        }
        i += 1;
    }
    false
}

/// The staged files that have unstaged changes: those that hooks modified.
pub fn modified_staged_files(staged: &Vec<String>, unstaged: &Vec<String>) -> (r: Vec<String>)
    ensures
        text::views(r@) == text::views(staged@).filter(
            |f: Seq<char>| text::views(unstaged@).contains(f),
        ),
{
    let ghost all = text::views(staged@);
    let ghost keep = |f: Seq<char>| text::views(unstaged@).contains(f);
    let mut r: Vec<String> = Vec::new();
    let mut i: usize = 0;
    proof {
        reveal(Seq::filter);
        assert(text::views(r@) =~= all.take(0).filter(keep));
    }
    while i < staged.len()
        invariant
            i <= staged.len(),
            all == text::views(staged@),
            keep == (|f: Seq<char>| text::views(unstaged@).contains(f)),
            text::views(r@) == all.take(i as int).filter(keep),
        decreases staged.len() - i,
    {
        let ghost before = text::views(r@);
        let ghost file = staged@[i as int]@;
        proof {
            reveal(Seq::filter);
            assert(all.take(i + 1).drop_last() =~= all.take(i as int));
            assert(all.take(i + 1).last() == file);
        }
        if text::listed(unstaged, staged[i].as_str()) {
            r.push(staged[i].clone());
            proof {
                assert(text::views(r@) =~= before.push(file));
            }
        }
        i += 1;
    }
    proof {
        assert(all.take(i as int) =~= all);
    }
    r
}

/// Hooks have modified staged files exactly if staging is partial once they ran.
pub proof fn law_modified_iff_partial(staged: Seq<Seq<char>>, unstaged: Seq<Seq<char>>)
    ensures
        meet(staged, unstaged) <==> staged.filter(|f: Seq<char>| unstaged.contains(f)).len() > 0,
    decreases staged.len(),
{
    reveal(Seq::filter);
    let keep = |f: Seq<char>| unstaged.contains(f);
    if staged.len() > 0 {
        let front = staged.drop_last();
        law_modified_iff_partial(front, unstaged);
        if meet(front, unstaged) {
            let i = choose|i: int| 0 <= i < front.len() && unstaged.contains(#[trigger] front[i]);
            assert(staged[i] == front[i]);
        }
        if unstaged.contains(staged.last()) {
            assert(unstaged.contains(staged[staged.len() - 1]));
        }
        if meet(staged, unstaged) && !unstaged.contains(staged.last()) {
            let i = choose|i: int| 0 <= i < staged.len() && unstaged.contains(#[trigger] staged[i]);
            assert(front[i] == staged[i]);
        }
    }
}

// ---- the rescue snapshot ----

/// The snapshot to keep, as `git stash create` gave it; `None` if there was
/// nothing to save.
pub fn rescue_hash(stdout: &str) -> (r: Option<String>)
    ensures
        r is None <==> text::trim(stdout@).len() == 0,
        r matches Some(h) ==> h@ == text::trim(stdout@),
{
    let hash = text::trimmed(stdout);
    if hash.as_str().is_empty() {
        None
    } else {
        Some(hash)
    }
}

/// What came of applying the snapshot.
pub enum Recovery {
    /// The working tree is as it was; the snapshot goes.
    Restored,
    /// It was applied with conflicts, which are the user's to resolve; the
    /// snapshot goes.
    Conflicts(String),
    /// It was rejected; the snapshot stays.
    Rejected(String),
}

/// What came of applying the snapshot: whether git took it, and the files that
/// are in conflict if it did not.
pub fn apply_rescue_ref(applied: bool, conflicted: &Vec<String>, stderr: &str) -> (r: Recovery)
    ensures
        r is Restored <==> applied,
        r is Conflicts <==> !applied && conflicted@.len() > 0,
        r matches Recovery::Conflicts(m) ==> m@
            == "recovery applied with conflicts — resolve them manually"@,
        r matches Recovery::Rejected(m) ==> m@ == "recovery failed: "@ + text::trim(stderr@),
{
    if applied {
        Recovery::Restored
    } else if conflicted.len() > 0 {
        Recovery::Conflicts(
            String::from_str("recovery applied with conflicts — resolve them manually"),
        )
    } else {
        let mut m = String::from_str("recovery failed: ");
        m.append(text::trimmed(stderr).as_str());
        Recovery::Rejected(m)
    }
}

/// The snapshot goes, now that it was applied so.
pub open spec fn drops(r: Recovery) -> bool {
    !(r is Rejected)
}

/// Does the snapshot go, now that it was applied so?
pub fn drops_rescue_ref(r: &Recovery) -> (b: bool)
    ensures
        b == drops(*r),
        b == !(r is Rejected),
{
    match r {
        Recovery::Rejected(_) => false,
        _ => true,
    }
}

// ---- restoring unstaged changes ----

/// What is to be done next to restore the unstaged changes.
#[derive(Debug, Clone, Copy, PartialEq, Eq, Structural)]
pub enum RestoreStep {
    /// Take the unstaged changes out of the stash.
    ExtractDiff,
    /// Write the untracked files of the stash that are not there.
    RestoreUntracked { empty: bool },
    /// Drop the stash.
    DropStash { empty: bool },
    /// Apply the changes to the working tree.
    ApplyPlain,
    /// Apply the changes by a three-way merge.
    ApplyThreeWay,
    /// Ask which files are in conflict.
    ListConflicts,
    /// Keep what the hooks made of the files in conflict.
    KeepOurs,
    /// Nothing more; `conflicts` if there were some.
    Done { conflicts: bool },
}

/// What git answered to a step.
#[derive(Debug, Clone, Copy, PartialEq, Eq, Structural)]
pub enum RestoreEvent {
    /// The step was carried out.
    Finished,
    /// The changes were extracted; `empty` if there are none.
    Extracted { empty: bool },
    /// The changes were applied, or they were not.
    Applied { clean: bool },
    /// So many files are in conflict.
    Conflicted { files: usize },
}

/// The step behind a step.
pub open spec fn restore_after(step: RestoreStep, event: RestoreEvent) -> RestoreStep {
    match (step, event) {
        (RestoreStep::ExtractDiff, RestoreEvent::Extracted { empty }) => {
            RestoreStep::RestoreUntracked { empty }
        },
        (RestoreStep::RestoreUntracked { empty }, _) => RestoreStep::DropStash { empty },
        (RestoreStep::DropStash { empty }, _) => if empty {
            RestoreStep::Done { conflicts: false }
        } else {
            RestoreStep::ApplyPlain
        },
        (RestoreStep::ApplyPlain, RestoreEvent::Applied { clean: true }) => RestoreStep::Done {
            conflicts: false,
        },
        (RestoreStep::ApplyPlain, _) => RestoreStep::ApplyThreeWay,
        (RestoreStep::ApplyThreeWay, RestoreEvent::Applied { clean: true }) => RestoreStep::Done {
            conflicts: false,
        },
        (RestoreStep::ApplyThreeWay, _) => RestoreStep::ListConflicts,
        (RestoreStep::ListConflicts, RestoreEvent::Conflicted { files }) => if files > 0 {
            RestoreStep::KeepOurs
        } else {
            RestoreStep::Done { conflicts: false }
        },
        (RestoreStep::KeepOurs, _) => RestoreStep::Done { conflicts: true },
        _ => step,
    }
}

/// The step behind a step, by what git answered to it. An answer that does not
/// belong to the step leaves it to be done.
pub fn restore_unstaged(step: RestoreStep, event: RestoreEvent) -> (r: RestoreStep)
    ensures
        r == restore_after(step, event),
{
    match (step, event) {
        (RestoreStep::ExtractDiff, RestoreEvent::Extracted { empty }) => {
            RestoreStep::RestoreUntracked { empty }
        },
        (RestoreStep::RestoreUntracked { empty }, _) => RestoreStep::DropStash { empty },
        (RestoreStep::DropStash { empty }, _) => {
            if empty {
                RestoreStep::Done { conflicts: false }
            } else {
                RestoreStep::ApplyPlain
            }
        },
        (RestoreStep::ApplyPlain, RestoreEvent::Applied { clean: true }) => {
            RestoreStep::Done { conflicts: false }
        },
        (RestoreStep::ApplyPlain, _) => RestoreStep::ApplyThreeWay,
        (RestoreStep::ApplyThreeWay, RestoreEvent::Applied { clean: true }) => {
            RestoreStep::Done { conflicts: false }
        },
        (RestoreStep::ApplyThreeWay, _) => RestoreStep::ListConflicts,
        (RestoreStep::ListConflicts, RestoreEvent::Conflicted { files }) => {
            if files > 0 {
                RestoreStep::KeepOurs
            } else {
                RestoreStep::Done { conflicts: false }
            }
        },
        (RestoreStep::KeepOurs, _) => RestoreStep::Done { conflicts: true },
        _ => step,
    }
}

/// The answer is one that git gives to the step.
pub open spec fn answers(step: RestoreStep, event: RestoreEvent) -> bool {
    match step {
        RestoreStep::ExtractDiff => event is Extracted,
        RestoreStep::ApplyPlain => event is Applied,
        RestoreStep::ApplyThreeWay => event is Applied,
        RestoreStep::ListConflicts => event is Conflicted,
        RestoreStep::RestoreUntracked { empty: _ } => event is Finished,
        RestoreStep::DropStash { empty: _ } => event is Finished,
        RestoreStep::KeepOurs => event is Finished,
        RestoreStep::Done { conflicts: _ } => false,
    }
}

/// How far a step is from the end.
pub open spec fn steps_left(step: RestoreStep) -> nat {
    match step {
        RestoreStep::ExtractDiff => 7,
        RestoreStep::RestoreUntracked { empty: _ } => 6,
        RestoreStep::DropStash { empty: _ } => 5,
        RestoreStep::ApplyPlain => 4,
        RestoreStep::ApplyThreeWay => 3,
        RestoreStep::ListConflicts => 2,
        RestoreStep::KeepOurs => 1,
        RestoreStep::Done { conflicts: _ } => 0,
    }
}

/// Restoring comes to an end: every answer leads closer to it. Conflicts are
/// reported only where the hooks' work was kept over the unstaged changes, and
/// changes are never applied before the stash was dropped.
pub proof fn law_restore_ends(step: RestoreStep, event: RestoreEvent)
    requires
        answers(step, event),
    ensures
        steps_left(restore_after(step, event)) < steps_left(step),
        restore_after(step, event) == (RestoreStep::Done { conflicts: true }) <==> step
            == RestoreStep::KeepOurs,
        restore_after(step, event) is ApplyPlain ==> step == (RestoreStep::DropStash {
            empty: false,
        }),
        restore_after(step, event) is KeepOurs ==> (event matches RestoreEvent::Conflicted { files }
            && files > 0),
{
}

/// `file` for one, `files` for any other number.
pub open spec fn files_word(n: nat) -> Seq<char> {
    if n == 1 {
        "file"@
    } else {
        "files"@
    }
}

/// `file` for one, `files` for any other number.
pub fn word_for_files(n: usize) -> (r: &'static str)
    ensures
        r@ == files_word(n as nat),
{
    if n == 1 {
        "file"
    } else {
        "files"
    }
}

/// The lines that tell of conflicts: how many, and how to get back.
pub fn conflict_notice(files: usize, color: bool) -> (r: Vec<String>)
    ensures
        text::views(r@) == seq![
            "nizm: "@ + text::decimal(files as nat) + " "@ + files_word(files as nat)
                + " had conflicting unstaged changes — keeping hook-modified content"@,
            style::bold_text("nizm:"@, color) + " recover original state: "@ + style::bold_text(
                "nizm recover"@,
                color,
            ),
        ],
{
    let mut first = String::from_str("nizm: ");
    first.append(text::decimal_text(files as u128).as_str());
    first.append(" ");
    first.append(word_for_files(files));
    first.append(" had conflicting unstaged changes — keeping hook-modified content");
    let mut second = style::bold("nizm:", color);
    second.append(" recover original state: ");
    second.append(style::bold("nizm recover", color).as_str());
    let mut r: Vec<String> = Vec::new();
    let ghost a = first@;
    let ghost b = second@;
    r.push(first);
    r.push(second);
    proof {
        assert(text::views(r@) =~= seq![a, b]);
    }
    r
}

/// The untracked files of the stash that are to be written: those that are not
/// there.
pub fn untracked_to_restore(stashed: &Vec<String>, present: &Vec<String>) -> (r: Vec<String>)
    ensures
        text::views(r@) == text::views(stashed@).filter(
            |f: Seq<char>| !text::views(present@).contains(f),
        ),
{
    let ghost all = text::views(stashed@);
    let ghost keep = |f: Seq<char>| !text::views(present@).contains(f);
    let mut r: Vec<String> = Vec::new();
    let mut i: usize = 0;
    proof {
        reveal(Seq::filter);
        assert(text::views(r@) =~= all.take(0).filter(keep));
    }
    while i < stashed.len()
        invariant
            i <= stashed.len(),
            all == text::views(stashed@),
            keep == (|f: Seq<char>| !text::views(present@).contains(f)),
            text::views(r@) == all.take(i as int).filter(keep),
        decreases stashed.len() - i,
    {
        let ghost before = text::views(r@);
        let ghost file = stashed@[i as int]@;
        proof {
            reveal(Seq::filter);
            assert(all.take(i + 1).drop_last() =~= all.take(i as int));
            assert(all.take(i + 1).last() == file);
        }
        if !text::listed(present, stashed[i].as_str()) {
            r.push(stashed[i].clone());
            proof {
                assert(text::views(r@) =~= before.push(file));
            }
        }
        i += 1;
    }
    proof {
        assert(all.take(i as int) =~= all);
    }
    r
}

// ---- laws ----

/// A listing holds the lines of what a command wrote that hold anything, in order.
pub proof fn law_listed_files(ls: Seq<Seq<char>>, line: Seq<char>)
    ensures
        filled_lines(Seq::<Seq<char>>::empty()).len() == 0,
        line.len() > 0 ==> filled_lines(ls.push(line)) == filled_lines(ls).push(line),
        line.len() == 0 ==> filled_lines(ls.push(line)) == filled_lines(ls),
        filled_lines(ls).contains(line) <==> ls.contains(line) && line.len() > 0,
{
    reveal(Seq::filter);
    assert(ls.push(line).drop_last() =~= ls);
    text::lemma_filter_contains(ls, |l: Seq<char>| l.len() > 0, line);
}

/// Staging is partial exactly if some file is both staged and changed since.
pub proof fn law_partial_staging(staged: Seq<Seq<char>>, unstaged: Seq<Seq<char>>)
    ensures
        meet(staged, unstaged) <==> exists|f: Seq<char>|
            staged.contains(f) && #[trigger] unstaged.contains(f),
        meet(staged, unstaged) == meet(unstaged, staged),
{
    if meet(staged, unstaged) {
        let i = choose|i: int| 0 <= i < staged.len() && unstaged.contains(#[trigger] staged[i]);
        assert(staged.contains(staged[i]) && unstaged.contains(staged[i]));
        let j = choose|j: int| 0 <= j < unstaged.len() && unstaged[j] == staged[i];
        assert(staged.contains(unstaged[j]));
    }
    if exists|f: Seq<char>| staged.contains(f) && #[trigger] unstaged.contains(f) {
        let f = choose|f: Seq<char>| staged.contains(f) && #[trigger] unstaged.contains(f);
        let i = choose|i: int| 0 <= i < staged.len() && staged[i] == f;
        assert(unstaged.contains(staged[i]));
    }
    if meet(unstaged, staged) {
        let j = choose|j: int| 0 <= j < unstaged.len() && staged.contains(#[trigger] unstaged[j]);
        assert(staged.contains(unstaged[j]) && unstaged.contains(unstaged[j]));
    }
}

/// Where restoring stands once git answered so, one answer after the other.
pub open spec fn restored_to(events: Seq<RestoreEvent>) -> RestoreStep
    decreases events.len(),
{
    if events.len() == 0 {
        RestoreStep::ExtractDiff
    } else {
        restore_after(restored_to(events.drop_last()), events.last())
    }
}

/// How changes are restored. The untracked files come first, then the stash is dropped,
/// whatever the changes are. Without changes that is all; otherwise they are applied, by
/// a merge if they do not apply as they are. Only if that fails and files are in conflict
/// is the hooks' work kept in them, and conflicts are reported.
pub proof fn law_course_of_restoring(empty: bool, files: usize)
    ensures
        ({
            let start = seq![
                RestoreEvent::Extracted { empty },
                RestoreEvent::Finished,
                RestoreEvent::Finished,
            ];
            let plain = start.push(RestoreEvent::Applied { clean: false });
            let merged = plain.push(RestoreEvent::Applied { clean: false });
            let told = merged.push(RestoreEvent::Conflicted { files });
            let done = RestoreStep::Done { conflicts: false };
            &&& restored_to(start.take(1)) is RestoreUntracked
            &&& restored_to(start.take(2)) is DropStash
            &&& empty ==> restored_to(start) == done
            &&& !empty ==> restored_to(start) is ApplyPlain
            &&& !empty ==> restored_to(start.push(RestoreEvent::Applied { clean: true })) == done
            &&& !empty ==> restored_to(plain) is ApplyThreeWay
            &&& !empty ==> restored_to(plain.push(RestoreEvent::Applied { clean: true })) == done
            &&& !empty ==> restored_to(merged) is ListConflicts
            &&& !empty && files == 0 ==> restored_to(told) == done
            &&& !empty && files > 0 ==> restored_to(told) is KeepOurs
            &&& !empty && files > 0 ==> restored_to(told.push(RestoreEvent::Finished)) == (
            RestoreStep::Done { conflicts: true })
        }),
{
    let start = seq![
        RestoreEvent::Extracted { empty },
        RestoreEvent::Finished,
        RestoreEvent::Finished,
    ];
    let plain = start.push(RestoreEvent::Applied { clean: false });
    let merged = plain.push(RestoreEvent::Applied { clean: false });
    let told = merged.push(RestoreEvent::Conflicted { files });
    assert(start.take(1).drop_last() =~= Seq::<RestoreEvent>::empty());
    assert(restored_to(start.take(1).drop_last()) is ExtractDiff);
    assert(start.take(2).drop_last() =~= start.take(1));
    assert(start.drop_last() =~= start.take(2));
    assert(start.push(RestoreEvent::Applied { clean: true }).drop_last() =~= start);
    assert(plain.drop_last() =~= start);
    assert(plain.push(RestoreEvent::Applied { clean: true }).drop_last() =~= plain);
    assert(merged.drop_last() =~= plain);
    assert(told.drop_last() =~= merged);
    assert(told.push(RestoreEvent::Finished).drop_last() =~= told);
}

/// One file is a `file`; any other number are `files`.
pub proof fn law_word_for_files(n: nat)
    ensures
        files_word(n) == "file"@ <==> n == 1,
        files_word(n) == "files"@ <==> n != 1,
{
    reveal_strlit("file");
    reveal_strlit("files");
    assert("file"@.len() == 4 && "files"@.len() == 5);
}

/// The snapshot is lost only where its changes are in the working tree, with or without
/// conflicts.
pub proof fn law_snapshot_is_kept(r: Recovery, applied: bool, conflicted: nat)
    requires
        r is Restored <==> applied,
        r is Conflicts <==> !applied && conflicted > 0,
    ensures
        drops(r) <==> applied || conflicted > 0,
        drops(r) <==> r is Restored || r is Conflicts,
{
}

} // verus!
