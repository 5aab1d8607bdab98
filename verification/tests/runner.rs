use nizm::config::{Hook, HookType};
use nizm::pattern::Matcher;
use nizm::runner::{
    exec_hook, exec_hook_captured, finished_outcome, format_duration, outcome_of, output_files,
    resolve_placeholders, scope_files, shell_escape, skipped_outcome, step_for, HookStep,
};

fn s(args: &[&str]) -> Vec<String> {
    args.iter().map(|a| a.to_string()).collect()
}

fn hook(cmd: &str, glob: &[&str]) -> Hook {
    let matcher = if glob.is_empty() { None } else { Some(Matcher::new(&s(glob)).unwrap()) };
    Hook {
        name: "h".to_string(),
        cmd: cmd.to_string(),
        glob: None,
        glob_matcher: matcher,
        outputs: None,
        hook_type: HookType::PreCommit,
    }
}

#[test]
fn substitutes_staged_files() {
    let out = resolve_placeholders("ruff {staged_files}", &s(&["a.py", "b.py"]), &s(&[]));
    assert_eq!(out, "ruff a.py b.py");
}

#[test]
fn staged_files_shell_escaped() {
    let out = resolve_placeholders("ruff {staged_files}", &s(&["a b.py"]), &s(&[]));
    assert_eq!(out, "ruff 'a b.py'");
}

#[test]
fn substitutes_positional_args() {
    let args = s(&[".git/COMMIT_EDITMSG"]);
    let out = resolve_placeholders("commitlint --edit {1}", &s(&[]), &args);
    assert_eq!(out, "commitlint --edit .git/COMMIT_EDITMSG");
}

#[test]
fn shell_escapes_positional_args() {
    let args = s(&["path with space.txt"]);
    let out = resolve_placeholders("cat {1}", &s(&[]), &args);
    assert_eq!(out, "cat 'path with space.txt'");
}

#[test]
fn missing_positional_arg_expands_to_empty() {
    let out = resolve_placeholders("echo {2}", &s(&[]), &s(&["only-one"]));
    assert_eq!(out, "echo ");
}

#[test]
fn unknown_placeholder_is_preserved() {
    let out = resolve_placeholders("echo {nope}", &s(&[]), &s(&[]));
    assert_eq!(out, "echo {nope}");
}

#[test]
fn both_placeholders_in_one_cmd() {
    let args = s(&["msgfile"]);
    let out = resolve_placeholders("lint {staged_files} --msg {1}", &s(&["a.py"]), &args);
    assert_eq!(out, "lint a.py --msg msgfile");
}

#[test]
fn placeholders_stand_inside_shell_groups() {
    let one = s(&["f"]);
    assert_eq!(resolve_placeholders("{ cat {1}; }", &s(&[]), &one), "{ cat f; }");
    assert_eq!(resolve_placeholders("{nope {1}}", &s(&[]), &one), "{nope f}");
    assert_eq!(resolve_placeholders("{{staged_files}", &s(&["a b"]), &one), "{'a b'");
    assert_eq!(resolve_placeholders("${x} {1", &s(&[]), &one), "${x} {1");
}

#[test]
fn odd_placeholders_stay() {
    let files = s(&["a.py"]);
    assert_eq!(resolve_placeholders("x {0} y", &files, &files), "x {0} y");
    assert_eq!(resolve_placeholders("x {} y", &files, &files), "x {} y");
    assert_eq!(resolve_placeholders("x {1", &files, &files), "x {1");
    assert_eq!(resolve_placeholders("x {+1}", &files, &files), "x a.py");
    assert_eq!(resolve_placeholders("a}b", &files, &files), "a}b");
}

#[test]
fn escaping_quotes_what_the_shell_would_read() {
    assert_eq!(shell_escape("src/a-b_c.rs@1:2+3,4"), "src/a-b_c.rs@1:2+3,4");
    assert_eq!(shell_escape("it's"), "'it'\\''s'");
    assert_eq!(shell_escape("$HOME"), "'$HOME'");
    assert_eq!(shell_escape("ä"), "'ä'");
}

#[test]
fn scope_is_seen_from_the_manifest() {
    let files = s(&["a.py", "sub/b.py", "sub/c.rs", "subway/d.py"]);
    let py = Some(Matcher::new(&s(&["*.py"])).unwrap());
    assert_eq!(scope_files(&files, "sub", &py), s(&["b.py"]));
    assert_eq!(scope_files(&files, "", &py), s(&["a.py", "sub/b.py", "subway/d.py"]));
    assert_eq!(scope_files(&files, ".", &None), files);
    assert!(scope_files(&files, "other", &None).is_empty());
}

#[test]
fn a_hook_without_files_in_scope_does_not_run() {
    let h = hook("make", &["*.go"]);
    assert!(matches!(exec_hook(&h, &s(&["a.py"]), "", &s(&[])), HookStep::Skip));
    match exec_hook(&h, &s(&["a.py", "m.go"]), "", &s(&[])) {
        HookStep::Spawn { command, capture, count } => {
            assert_eq!(command, "make");
            assert!(!capture);
            assert_eq!(count, 1);
        }
        HookStep::Skip => panic!("in scope"),
    }
}

#[test]
fn captured_hooks_say_so() {
    let h = hook("fmt {staged_files} {1}", &[]);
    match exec_hook_captured(&h, &s(&["d/x y", "e"]), "d", &s(&["z"])) {
        HookStep::Spawn { command, capture, count } => {
            assert_eq!(command, "fmt 'x y' z");
            assert!(capture);
            assert_eq!(count, 1);
        }
        HookStep::Skip => panic!("in scope"),
    }
}

#[test]
fn outputs_are_picked_from_what_changed() {
    let changed = s(&["web/dist/a.js", "web/src/b.ts", "dist/c.js"]);
    let outputs = Some(Matcher::new(&s(&["dist/**"])).unwrap());
    assert_eq!(output_files(&changed, "web", &outputs), s(&["web/dist/a.js"]));
    assert!(output_files(&changed, "web", &None).is_empty());
    let empty = Some(Matcher::new(&s(&[])).unwrap());
    assert!(output_files(&changed, "web", &empty).is_empty());
}

#[test]
fn a_command_killed_by_a_signal_failed() {
    assert_eq!(finished_outcome(2, None, String::new(), String::new()).code, 1);
    let o = finished_outcome(2, Some(7), "o".to_string(), "e".to_string());
    assert_eq!((o.code, o.count, o.stdout.as_str(), o.stderr.as_str()), (7, 2, "o", "e"));
    let none = skipped_outcome();
    assert_eq!((none.code, none.count), (0, 0));
}

#[test]
fn durations_below_a_second_are_in_milliseconds() {
    assert_eq!(format_duration(0, "0.0"), "0ms");
    assert_eq!(format_duration(999, "1.0"), "999ms");
    assert_eq!(format_duration(1000, "1.0"), "1.0s");
    assert_eq!(format_duration(90500, "90.5"), "90.5s");
}

#[test]
fn capturing_runs_the_same_command() {
    let h = hook("ruff {staged_files} {1}", &["*.py"]);
    let files = s(&["a.py", "b c.py", "d.rs"]);
    let args = s(&["x"]);
    match (exec_hook(&h, &files, "", &args), exec_hook_captured(&h, &files, "", &args)) {
        (
            HookStep::Spawn { command, capture: false, count },
            HookStep::Spawn { command: captured, capture: true, count: as_many },
        ) => {
            assert_eq!(command, "ruff a.py 'b c.py' x");
            assert_eq!((captured, as_many), (command, count));
        }
        _ => panic!("both run"),
    }
    let skip = step_for("x", &s(&[]), &args, true);
    assert!(matches!(skip, HookStep::Skip));
    let outcome = outcome_of(&skip, Some(3), "o".to_string(), "e".to_string());
    assert_eq!((outcome.code, outcome.count), (0, 0));
    assert!(outcome.stdout.is_empty() && outcome.stderr.is_empty());
    let spawn = step_for("x", &s(&["f", "g"]), &args, true);
    let outcome = outcome_of(&spawn, None, "o".to_string(), "e".to_string());
    assert_eq!((outcome.code, outcome.count), (1, 2));
    assert_eq!((outcome.stdout.as_str(), outcome.stderr.as_str()), ("o", "e"));
    assert!(matches!(
        step_for("x {1}", &s(&["f"]), &args, false),
        HookStep::Spawn { command, capture: false, count: 1 } if command == "x x"
    ));
}
