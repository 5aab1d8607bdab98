use nizm::git::{
    apply_rescue_ref, conflict_notice, drops_rescue_ref, file_list, has_partial_staging,
    modified_staged_files, repo_root, rescue_hash, restore_unstaged, staged_files, tracked_files,
    untracked_to_restore, Recovery, RestoreEvent, RestoreStep,
};
use nizm::stash::StashGuard;

fn s(args: &[&str]) -> Vec<String> {
    args.iter().map(|a| a.to_string()).collect()
}

#[test]
fn listings_are_one_file_to_a_line() {
    assert_eq!(file_list("a\n\nb c\r\nd"), s(&["a", "b c", "d"]));
    assert!(file_list("").is_empty());
    assert_eq!(tracked_files(true, "a\n", ""), Ok(s(&["a"])));
    assert_eq!(tracked_files(false, "", "boom"), Err("git ls-files failed: boom".to_string()));
    assert_eq!(staged_files(true, "a\nb\n", ""), Ok(s(&["a", "b"])));
    assert_eq!(staged_files(false, "", "boom"), Err("git diff failed: boom".to_string()));
}

#[test]
fn the_root_is_trimmed() {
    assert_eq!(repo_root(true, "/a b/c\n"), Ok("/a b/c".to_string()));
    assert_eq!(repo_root(false, ""), Err("not a git repository".to_string()));
}

#[test]
fn staging_is_partial_if_a_file_is_in_both_lists() {
    let staged = s(&["a", "b", "c"]);
    assert!(has_partial_staging(&staged, &s(&["x", "b"])));
    assert!(!has_partial_staging(&staged, &s(&["x"])));
    assert_eq!(modified_staged_files(&staged, &s(&["c", "x", "a"])), s(&["a", "c"]));
    assert!(modified_staged_files(&staged, &s(&[])).is_empty());
}

#[test]
fn nothing_to_save_leaves_no_snapshot() {
    assert_eq!(rescue_hash("abc123\n"), Some("abc123".to_string()));
    assert_eq!(rescue_hash(" \n"), None);
}

#[test]
fn a_rejected_snapshot_is_kept() {
    let r = apply_rescue_ref(true, &s(&[]), "");
    assert!(matches!(r, Recovery::Restored) && drops_rescue_ref(&r));
    let r = apply_rescue_ref(false, &s(&["a"]), "x");
    assert!(drops_rescue_ref(&r));
    assert!(matches!(r, Recovery::Conflicts(m) if m == "recovery applied with conflicts — resolve them manually"));
    let r = apply_rescue_ref(false, &s(&[]), " dirty \n");
    assert!(!drops_rescue_ref(&r));
    assert!(matches!(r, Recovery::Rejected(m) if m == "recovery failed: dirty"));
}

fn restore(events: &[RestoreEvent]) -> RestoreStep {
    let mut step = RestoreStep::ExtractDiff;
    for e in events {
        step = restore_unstaged(step, *e);
    }
    step
}

#[test]
fn restoring_tries_a_plain_patch_first() {
    let start = [
        RestoreEvent::Extracted { empty: false },
        RestoreEvent::Finished,
        RestoreEvent::Finished,
    ];
    assert_eq!(restore(&start), RestoreStep::ApplyPlain);
    assert_eq!(restore(&start[..1]), RestoreStep::RestoreUntracked { empty: false });
    assert_eq!(restore(&start[..2]), RestoreStep::DropStash { empty: false });
    let mut events = start.to_vec();
    events.push(RestoreEvent::Applied { clean: true });
    assert_eq!(restore(&events), RestoreStep::Done { conflicts: false });
}

#[test]
fn restoring_nothing_is_done_once_the_stash_is_dropped() {
    assert_eq!(
        restore(&[RestoreEvent::Extracted { empty: true }, RestoreEvent::Finished, RestoreEvent::Finished]),
        RestoreStep::Done { conflicts: false }
    );
}

#[test]
fn conflicts_keep_the_work_of_the_hooks() {
    let mut events = vec![
        RestoreEvent::Extracted { empty: false },
        RestoreEvent::Finished,
        RestoreEvent::Finished,
        RestoreEvent::Applied { clean: false },
    ];
    assert_eq!(restore(&events), RestoreStep::ApplyThreeWay);
    events.push(RestoreEvent::Applied { clean: false });
    assert_eq!(restore(&events), RestoreStep::ListConflicts);
    let mut none = events.clone();
    none.push(RestoreEvent::Conflicted { files: 0 });
    assert_eq!(restore(&none), RestoreStep::Done { conflicts: false });
    events.push(RestoreEvent::Conflicted { files: 2 });
    assert_eq!(restore(&events), RestoreStep::KeepOurs);
    events.push(RestoreEvent::Finished);
    assert_eq!(restore(&events), RestoreStep::Done { conflicts: true });
    assert_eq!(
        conflict_notice(1, false),
        s(&[
            "nizm: 1 file had conflicting unstaged changes — keeping hook-modified content",
            "nizm: recover original state: nizm recover",
        ])
    );
}

#[test]
fn files_that_are_there_are_not_overwritten() {
    assert_eq!(untracked_to_restore(&s(&["a", "b", "c"]), &s(&["b"])), s(&["a", "c"]));
}

#[test]
fn changes_come_back_once() {
    assert!(StashGuard::new(false).is_none());
    let mut g = StashGuard::new(true).unwrap();
    assert!(!g.restore());
    g.saved();
    assert!(!g.restore());
    g.stashed();
    assert!(g.restore());
    assert!(!g.restore());
    assert!(g.drops_snapshot(false));
    assert!(!g.drops_snapshot(true));
}
