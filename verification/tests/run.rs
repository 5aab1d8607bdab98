use nizm::config::{parse_manifest, HookType, ManifestConfig};
use nizm::run::{
    add_missing, advance, any_failed, closing_line, exit_code, files_to_stage, gather_configs, ls,
    no_hooks_line, opening_line, parse_skip, record_of, run_code, runs_in_parallel, select_stage,
    show_record, show_records, skipped_record, staged_line, Ran, RunEvent, RunStep, Session, Turn,
    Walk,
};
use nizm::runner::{finished_outcome, skipped_outcome};

fn s(args: &[&str]) -> Vec<String> {
    args.iter().map(|a| a.to_string()).collect()
}

fn manifest(content: &str) -> ManifestConfig {
    parse_manifest(".nizm.toml", content).unwrap().0
}

const HOOKS: &str = "[hooks]\na = { cmd = \"x\" }\nb = { cmd = \"y\", type = \"pre-push\" }\nc = { cmd = \"z\", glob = [\"*.py\", \"!g/**\"] }\n";

fn ended(code: i32, count: usize, stdout: &str) -> Ran {
    Ran::Ended(finished_outcome(count, Some(code), stdout.to_string(), "e\n".to_string()))
}

#[test]
fn named_manifests_have_to_be_in_order() {
    let results = || vec![Ok(manifest(HOOKS)), Err("first".to_string()), Err("second".to_string())];
    assert_eq!(gather_configs(results(), true).err(), Some("first".to_string()));
    assert_eq!(gather_configs(results(), false).unwrap().len(), 1);
}

#[test]
fn only_hooks_of_the_stage_are_run() {
    let configs = select_stage(vec![manifest(HOOKS), manifest("[hooks]\n")], HookType::PreCommit);
    assert_eq!(configs.len(), 1);
    let names: Vec<&str> = configs[0].hooks.iter().map(|h| h.name.as_str()).collect();
    assert_eq!(names, vec!["a", "c"]);
    assert!(select_stage(vec![manifest(HOOKS)], HookType::CommitMsg).is_empty());
}

#[test]
fn skip_lists_are_separated_by_commas() {
    assert_eq!(parse_skip(" mypy, ruff ,,mypy"), s(&["mypy", "ruff"]));
    assert!(parse_skip("").is_empty());
}

fn turns(only: Option<&str>, skip: &[&str], stop_at: usize) -> (Vec<String>, Walk) {
    let hooks = manifest(HOOKS).hooks;
    let mut walk = Walk::new();
    let mut seen = Vec::new();
    loop {
        match walk.turn(&hooks, only, &s(skip), seen.len() >= stop_at, false) {
            Turn::Finished => return (seen, walk),
            Turn::Skip { hook, line } => seen.push(format!("{hook}:{line}")),
            Turn::Run { hook } => seen.push(format!("{hook}")),
        }
    }
}

#[test]
fn hooks_have_their_turns_in_order() {
    let (seen, walk) = turns(None, &["b"], 9);
    assert_eq!(seen, s(&["0", "1:  b skipped (NIZM_SKIP)", "2"]));
    assert!(!walk.stopped);
    assert_eq!(turns(Some("c"), &[], 9).0, s(&["2"]));
    assert!(turns(Some("none"), &[], 9).0.is_empty());
}

#[test]
fn stopping_leaves_the_rest_without_a_turn() {
    let (seen, walk) = turns(None, &[], 1);
    assert_eq!(seen, s(&["0"]));
    assert!(walk.stopped);
    let mut session = Session::new();
    assert!(!session.goes_on(&walk));
    assert!(session.failed);
    let (seen, walk) = turns(None, &[], 3);
    assert_eq!(seen.len(), 3);
    assert!(!walk.stopped);
    let mut session = Session::new();
    assert!(session.goes_on(&walk));
    assert!(!session.failed);
}

#[test]
fn a_failure_fails_the_run_and_does_not_stop_it() {
    let mut session = Session::new();
    let shown = session.ended("a", ended(0, 2, ""), "5ms", false);
    assert_eq!((shown.out.as_str(), shown.err.as_str()), ("  a 2 files (5ms)\n", ""));
    assert!(!session.failed);
    let shown = session.ended("b", ended(-3, 1, ""), "5ms", false);
    assert_eq!((shown.out.as_str(), shown.err.as_str()), ("", "  b failed (exit -3) 1 file (5ms)\n"));
    assert!(session.failed);
    let shown = session.ended("c", ended(0, 0, ""), "0ms", false);
    assert_eq!((shown.out.as_str(), shown.err.as_str()), ("", ""));
    assert!(session.failed);
    let shown = Session::new().ended("d", Ran::Broke("no shell".to_string()), "0ms", false);
    assert_eq!(shown.err, "  d error: no shell\n");
}

#[test]
fn records_are_shown_with_what_the_hook_wrote() {
    let show = |r| {
        let shown = show_record(&r, false);
        (shown.out, shown.err)
    };
    assert_eq!(
        show(record_of("a", ended(2, 1, "o\n"), "7ms")),
        ("o\n".to_string(), "e\n  a failed (exit 2) 1 file (7ms)\n".to_string())
    );
    assert_eq!(
        show(record_of("a", ended(0, 1, "o\n"), "7ms")),
        ("o\n".to_string(), "e\n".to_string())
    );
    assert_eq!(
        show(record_of("a", ended(0, 3, ""), "7ms")),
        ("  a 3 files (7ms)\n".to_string(), "e\n".to_string())
    );
    let silent = finished_outcome(3, Some(0), String::new(), String::new());
    assert_eq!(
        show(record_of("a", Ran::Ended(silent), "7ms")),
        ("  a 3 files (7ms)\n".to_string(), String::new())
    );
    assert_eq!(
        show(record_of("a", Ran::Ended(skipped_outcome()), "0ms")),
        (String::new(), String::new())
    );
    assert_eq!(
        show(record_of("a", Ran::Broke("x".to_string()), "0ms")),
        (String::new(), "  a x\n  a failed (exit 1) \n".to_string())
    );
    assert_eq!(show(skipped_record("a", "  a skipped")), ("  a skipped\n".to_string(), String::new()));
}

#[test]
fn records_are_shown_manifest_by_manifest() {
    let ran = |name: &str| record_of(name, ended(0, 1, &format!("{name}\n")), "1ms");
    let shown = show_records(&vec![vec![ran("a"), ran("b")], Vec::new(), vec![ran("c")]], false);
    let out: String = shown.iter().map(|x| x.out.as_str()).collect();
    let err: String = shown.iter().map(|x| x.err.as_str()).collect();
    assert_eq!((out.as_str(), err.as_str()), ("a\nb\nc\n", "e\ne\ne\n"));
}

#[test]
fn one_failed_record_fails_the_run() {
    let good = || record_of("a", ended(0, 1, ""), "1ms");
    let bad = || record_of("b", ended(1, 1, ""), "1ms");
    assert!(!any_failed(&vec![vec![good()], vec![], vec![good(), good()]]));
    assert!(any_failed(&vec![vec![good()], vec![good(), bad()]]));
    assert!(runs_in_parallel(true, 2));
    assert!(!runs_in_parallel(true, 1));
    assert!(!runs_in_parallel(false, 5));
}

#[test]
fn runs_are_framed_by_lines() {
    assert_eq!(no_hooks_line(false), "nizm: no hooks configured");
    assert_eq!(opening_line(0, true, false), "nizm: no tracked files — skipping");
    assert_eq!(opening_line(1, false, false), "nizm: running against 1 staged file");
    assert_eq!(opening_line(12, true, false), "nizm: running against 12 tracked files");
    assert_eq!(closing_line("461ms", false), "nizm: done in 461ms");
    assert_eq!(staged_line(2, false), "nizm: auto-staged 2 modified files");
}

#[test]
fn interruptions_come_before_failures() {
    assert_eq!(exit_code(false, false), 0);
    assert_eq!(exit_code(false, true), 1);
    assert_eq!(exit_code(true, true), 130);
    assert_eq!(exit_code(true, false), 130);
}

/// The steps that a run takes, by what comes of them.
fn course(all: bool, events: &[RunEvent]) -> Vec<RunStep> {
    let mut steps = vec![RunStep::FindHooks];
    for event in events {
        steps.push(advance(all, *steps.last().unwrap(), *event));
    }
    steps
}

#[test]
fn a_run_stages_before_it_restores() {
    let events = [
        RunEvent::Hooks { any: true },
        RunEvent::Files { any: true },
        RunEvent::Guarded { stashed: true },
        RunEvent::Ran { failed: true },
        RunEvent::Staged,
        RunEvent::Restored,
    ];
    let end = RunStep::End { ran: true, failed: true };
    assert_eq!(
        course(false, &events)[1..],
        [
            RunStep::FindFiles,
            RunStep::Guard,
            RunStep::RunHooks { guarded: true },
            RunStep::Stage { guarded: true, failed: true },
            RunStep::Restore { failed: true },
            end,
        ]
    );
    assert_eq!(run_code(end, false), Some(1));
    assert_eq!(run_code(end, true), Some(130));
    assert_eq!(run_code(RunStep::Guard, true), None);
    let stage = RunStep::Stage { guarded: false, failed: false };
    assert_eq!(advance(false, stage, RunEvent::Staged), RunStep::End { ran: true, failed: false });
    assert_eq!(advance(false, stage, RunEvent::Restored), stage);
}

#[test]
fn a_run_against_all_files_touches_nothing() {
    let events = [RunEvent::Hooks { any: true }, RunEvent::Files { any: true }, RunEvent::Ran { failed: false }];
    assert_eq!(
        course(true, &events)[1..],
        [
            RunStep::FindFiles,
            RunStep::RunHooks { guarded: false },
            RunStep::End { ran: true, failed: false },
        ]
    );
}

#[test]
fn a_run_without_hooks_or_files_succeeds() {
    let end = RunStep::End { ran: false, failed: false };
    assert_eq!(advance(false, RunStep::FindHooks, RunEvent::Hooks { any: false }), end);
    assert_eq!(advance(true, RunStep::FindFiles, RunEvent::Files { any: false }), end);
    assert_eq!(run_code(end, true), Some(0));
}

#[test]
fn files_are_staged_once() {
    let mut files = s(&["a", "b"]);
    add_missing(&mut files, &s(&["c", "a", "c"]));
    assert_eq!(files, s(&["a", "b", "c"]));
}

#[test]
fn modified_and_produced_files_are_staged() {
    let web = "{\"nizm\": {\"hooks\": {\"build\": {\"cmd\": \"x\", \"outputs\": \"dist/**\"}, \"lint\": {\"cmd\": \"y\"}}}}";
    let configs = vec![manifest(HOOKS), parse_manifest("web/package.json", web).unwrap().0];
    let staged = s(&["a.py", "b.py"]);
    let unstaged = s(&["b.py", "c.py"]);
    let changed = s(&["b.py", "c.py", "web/dist/x.js", "dist/y.js"]);
    let stage = |ran: &[(usize, usize)]| {
        files_to_stage(&staged, &unstaged, &changed, &configs, &ran.to_vec())
    };
    assert_eq!(stage(&[]), s(&["b.py"]));
    assert_eq!(stage(&[(0, 0), (1, 0), (1, 1)]), s(&["b.py", "web/dist/x.js"]));
    assert_eq!(stage(&[(1, 1), (1, 7), (5, 0)]), s(&["b.py"]));
}

#[test]
fn hooks_are_listed_in_columns() {
    let cargo = "[package.metadata.nizm.hooks]\nclippy = { cmd = \"cargo clippy\", glob = \"*.rs\" }\nfmt = { cmd = \"cargo fmt\", type = \"pre-push\" }\n";
    let configs = vec![
        parse_manifest("Cargo.toml", cargo).unwrap().0,
        parse_manifest("package.json", "{}").unwrap().0,
        manifest(HOOKS),
    ];
    assert_eq!(
        ls(configs, false),
        s(&[
            "Cargo.toml",
            "  clippy  cargo clippy  *.rs       ",
            "  fmt     cargo fmt     -            [pre-push]",
            "",
            ".nizm.toml",
            "  a       x             -          ",
            "  b       y             -            [pre-push]",
            "  c       z             *.py, !g/**",
        ])
    );
    assert_eq!(ls(Vec::new(), false), s(&["no hooks configured"]));
}
