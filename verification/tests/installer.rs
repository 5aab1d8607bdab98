use nizm::config::{Hook, HookType, ManifestConfig};
use nizm::installer::{
    blocks_match, find_block_bounds, generate_block, has_custom_block_content, is_nizm_managed,
    manifest_summary, nizm_toml, outcome_line, picked_manifests, plan_hook_file, replace_block,
    require_overwrite_consent, select_manifests, types_used, Consent, HookFilePlan, Selection,
};

fn s(args: &[&str]) -> Vec<String> {
    args.iter().map(|a| a.to_string()).collect()
}

const BLOCK: &str = "# nizm-start\n# auto-generated by nizm — do not edit\nif ! command -v nizm >/dev/null 2>&1; then\n  echo \"nizm: not found in PATH — install it or run: cargo install nizm\" >&2\n  exit 1\nfi\nnizm run --config Cargo.toml || exit $?\n# nizm-end";

fn block() -> String {
    generate_block(&s(&["Cargo.toml"]), false, HookType::PreCommit)
}

fn hook(name: &str, t: HookType) -> Hook {
    Hook {
        name: name.to_string(),
        cmd: "c".to_string(),
        glob: None,
        glob_matcher: None,
        outputs: None,
        hook_type: t,
    }
}

#[test]
fn the_block_runs_nizm_with_its_manifests() {
    assert_eq!(block(), BLOCK);
}

#[test]
fn odd_paths_are_quoted_in_the_block() {
    let b = generate_block(&s(&["my dir/package.json", "it's.toml"]), true, HookType::PreCommit);
    assert!(b.contains(
        "\nnizm run --config 'my dir/package.json' --config 'it'\\''s.toml' --parallel || exit $?\n"
    ));
}

#[test]
fn other_stages_hand_on_what_git_passes() {
    let b = generate_block(&s(&["a.toml"]), false, HookType::CommitMsg);
    assert!(b.contains("\nnizm run --config a.toml --hook-type commit-msg -- \"$@\" || exit $?\n"));
}

#[test]
fn a_new_script_holds_only_the_block() {
    match plan_hook_file(None, &block()) {
        HookFilePlan::Create(t) => assert_eq!(t, format!("#!/bin/sh\n{BLOCK}\n")),
        _ => panic!("no script"),
    }
}

#[test]
fn installing_twice_changes_nothing() {
    let first = match plan_hook_file(None, &block()) {
        HookFilePlan::Create(t) => t,
        _ => panic!("no script"),
    };
    assert!(matches!(plan_hook_file(Some(&first), &block()), HookFilePlan::UpToDate));
    let appended = match plan_hook_file(Some("#!/bin/sh\nmake lint"), &block()) {
        HookFilePlan::Append(t) => t,
        _ => panic!("not managed"),
    };
    assert_eq!(appended, format!("#!/bin/sh\nmake lint\n\n{BLOCK}\n"));
    assert!(matches!(plan_hook_file(Some(&appended), &block()), HookFilePlan::UpToDate));
    let other = generate_block(&s(&["package.json"]), false, HookType::PreCommit);
    match plan_hook_file(Some(&appended), &other) {
        HookFilePlan::Update { content, custom } => {
            assert!(!custom);
            assert_eq!(content, format!("#!/bin/sh\nmake lint\n\n{other}\n"));
            assert!(matches!(plan_hook_file(Some(&content), &other), HookFilePlan::UpToDate));
        }
        _ => panic!("another block"),
    }
}

#[test]
fn white_space_around_lines_does_not_make_another_block() {
    let script = BLOCK.replace('\n', "  \r\n  ");
    assert!(blocks_match(&script, BLOCK));
    assert!(!blocks_match("nothing", BLOCK));
    assert!(!blocks_match(&script.replace("exit 1", "exit 2"), BLOCK));
}

#[test]
fn custom_lines_are_noticed() {
    assert!(!has_custom_block_content(BLOCK));
    let custom = BLOCK.replace("fi\n", "fi\nmake deps\n");
    assert!(has_custom_block_content(&custom));
    match plan_hook_file(Some(&custom), BLOCK) {
        HookFilePlan::Update { content, custom } => {
            assert!(custom);
            assert_eq!(content, BLOCK);
        }
        _ => panic!("another block"),
    }
}

#[test]
fn the_block_ends_at_the_last_marker() {
    assert_eq!(
        find_block_bounds(&s(&["x", " # nizm-start ", "# nizm-end", "y", "# nizm-end", "z"])),
        Some((1, 4))
    );
    assert_eq!(find_block_bounds(&s(&["# nizm-end", "# nizm-start"])), None);
    assert_eq!(find_block_bounds(&s(&["# nizm-start"])), None);
}

#[test]
fn replacing_keeps_the_lines_around() {
    let script = "a\n# nizm-start\nold\n# nizm-end\nb\n";
    assert_eq!(replace_block(script, "# nizm-start\n# nizm-end").unwrap(), "a\n# nizm-start\n# nizm-end\nb\n");
    assert_eq!(replace_block("a\n", "b").unwrap_err(), "nizm block markers not found");
}

#[test]
fn markers_in_the_wrong_order_are_broken() {
    let script = "# nizm-end\n# nizm-start\n";
    assert!(is_nizm_managed(script));
    match plan_hook_file(Some(script), BLOCK) {
        HookFilePlan::Broken(e) => assert_eq!(e, "nizm block markers not found"),
        _ => panic!("broken"),
    }
    assert!(!is_nizm_managed("# nizm-start\n"));
}

#[test]
fn consent_is_granted_asked_for_or_refused() {
    match require_overwrite_consent("m", true, true, false) {
        Consent::Granted(t) => assert_eq!(t, "warning: m (--force)"),
        _ => panic!("forced"),
    }
    match require_overwrite_consent("m", false, true, false) {
        Consent::Ask(t) => assert_eq!(t, "warning: m"),
        _ => panic!("interactive"),
    }
    match require_overwrite_consent("m", false, false, false) {
        Consent::Refused(t) => assert_eq!(t, "m — use --force to overwrite"),
        _ => panic!("neither"),
    }
}

#[test]
fn manifests_are_picked_only_if_there_is_a_choice() {
    assert!(matches!(select_manifests(s(&["x"]), s(&[])), Selection::Use(v) if v == s(&["x"])));
    assert!(matches!(select_manifests(s(&[]), s(&[])), Selection::OfferFile));
    assert!(matches!(select_manifests(s(&[]), s(&["a"])), Selection::Use(v) if v == s(&["a"])));
    assert!(matches!(select_manifests(s(&[]), s(&["a", "b"])), Selection::Pick(v) if v == s(&["a", "b"])));
    assert_eq!(picked_manifests(&s(&["a", "b", "c"]), &vec![2, 0]), s(&["c", "a"]));
}

#[test]
fn scripts_are_written_for_the_stages_in_use() {
    let configs = vec![
        ManifestConfig { path: "a".to_string(), hooks: vec![hook("x", HookType::CommitMsg)] },
        ManifestConfig {
            path: "b".to_string(),
            hooks: vec![hook("y", HookType::PreCommit), hook("z", HookType::CommitMsg)],
        },
    ];
    assert_eq!(types_used(&configs), vec![HookType::PreCommit, HookType::CommitMsg]);
    assert!(types_used(&Vec::new()).is_empty());
    assert_eq!(manifest_summary(&configs[1], false), "  b — [y, z]");
    let none = ManifestConfig { path: "c".to_string(), hooks: Vec::new() };
    assert_eq!(manifest_summary(&none, false), "  warning: c has no nizm hooks");
}

#[test]
fn outcomes_are_told() {
    let t = HookType::PrePush;
    assert_eq!(outcome_line(t, &HookFilePlan::Create(String::new()), false), "pre-push hook installed");
    assert_eq!(outcome_line(t, &HookFilePlan::UpToDate, false), "pre-push hook already up to date");
    let update = HookFilePlan::Update { content: String::new(), custom: false };
    assert_eq!(outcome_line(t, &update, false), "pre-push hook updated");
    assert_eq!(
        outcome_line(t, &HookFilePlan::Append(String::new()), false),
        "nizm block appended to existing pre-push hook"
    );
    assert_eq!(outcome_line(t, &HookFilePlan::Broken(String::new()), false), "");
}

#[test]
fn the_new_config_file_has_an_example() {
    assert_eq!(nizm_toml(), "[hooks]\n# example = { cmd = \"echo {staged_files}\" }\n");
}
