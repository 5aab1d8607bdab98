use nizm::config::{parse_manifest_lenient, HookType, LenientManifest};
use nizm::doctor::{
    diagnose_installed, diagnose_uninstalled, extract_executable, needed_tools,
    parse_baked_configs, summary,
};
use nizm::installer::generate_block;

fn s(args: &[&str]) -> Vec<String> {
    args.iter().map(|a| a.to_string()).collect()
}

fn read(path: &str, content: &str) -> (String, LenientManifest) {
    (path.to_string(), parse_manifest_lenient(path, content))
}

const CARGO: &str = "[package.metadata.nizm.hooks]\nclippy = { cmd = \"cargo clippy\", glob = \"*.rs\" }\nrustfmt = { cmd = \"cargo fmt\" }\n";

#[test]
fn baked_manifests_are_read_back() {
    let paths = s(&["pyproject.toml", "a/b/package.json"]);
    let block = generate_block(&paths, true, HookType::PrePush);
    assert_eq!(parse_baked_configs(&format!("#!/bin/sh\n{block}\n")), paths);
    assert!(parse_baked_configs("echo nizm --config x\n").is_empty());
    assert_eq!(parse_baked_configs("  nizm run --config a --config\n"), s(&["a"]));
}

#[test]
fn quoted_manifests_are_read_back() {
    assert_eq!(
        parse_baked_configs("nizm run --config 'my app/Cargo.toml' || exit $?\n"),
        s(&["my app/Cargo.toml"])
    );
    let paths = s(&["my dir/Cargo.toml", "it's/package.json", "'", "a\\b/.nizm.toml", "ä\u{a0}/Cargo.toml"]);
    for hook_type in [HookType::PreCommit, HookType::CommitMsg] {
        let block = generate_block(&paths, true, hook_type);
        assert_eq!(parse_baked_configs(&block), paths);
    }
}

#[test]
fn the_first_word_is_the_tool() {
    assert_eq!(extract_executable("  cargo fmt --all"), "cargo");
    assert_eq!(extract_executable(""), "");
    assert_eq!(extract_executable("  "), "  ");
    assert_eq!(needed_tools(&read("Cargo.toml", CARGO).1), s(&["cargo", "cargo"]));
    assert!(needed_tools(&LenientManifest::FileError("x".to_string())).is_empty());
}

#[test]
fn a_healthy_repository_passes_all_checks() {
    let installed = vec![(HookType::PreCommit, vec![read("Cargo.toml", CARGO)])];
    let c = diagnose_installed(&installed, &s(&["cargo"]), false);
    assert_eq!(
        c.lines,
        s(&[
            "  pre-commit (nizm-managed) ✓",
            "  └ Cargo.toml ✓",
            "     ├ clippy (cargo) ✓",
            "     └ rustfmt (cargo) ✓",
        ])
    );
    assert_eq!((c.pass, c.fail), (4, 0));
    assert!(c.fixes.is_empty());
    assert_eq!(summary(&c, false), s(&["", "all 4 checks passed"]));
}

#[test]
fn every_failure_comes_with_a_fix() {
    let installed = vec![
        (
            HookType::PreCommit,
            vec![
                read(".nizm.toml", "[hooks]\na = { cmd = \"gone x\" }\nb = 1\n"),
                ("x.toml".to_string(), LenientManifest::FileError("file not found".to_string())),
                read("package.json", "{\"nizm\": {\"hooks\": {\"c\": {}}}}"),
                read("Cargo.toml", "[package]\n"),
            ],
        ),
        (HookType::PrePush, Vec::new()),
    ];
    let c = diagnose_installed(&installed, &s(&["cargo"]), false);
    assert_eq!(
        c.lines,
        s(&[
            "  pre-commit (nizm-managed) ✓",
            "  ├ .nizm.toml ~",
            "  │  ├ a — \"gone\" not found in PATH ✗",
            "  │  └ b — invalid type: integer `1`, expected struct HookConfig ✗",
            "  ├ x.toml — file not found ✗",
            "  ├ package.json ✗",
            "  │  └ c — missing field `cmd` ✗",
            "  └ Cargo.toml — no hooks defined ~",
            "  pre-push (nizm-managed) ✓",
            "  └ no nizm run line ✗",
        ])
    );
    assert_eq!((c.pass, c.fail), (4, 6));
    assert_eq!(
        c.fixes,
        s(&[
            "install \"gone\"",
            "fix \"b\" in .nizm.toml",
            "fix x.toml",
            "fix hooks in package.json",
            "fix \"c\" in package.json",
            "reinstall pre-push hook: nizm install",
        ])
    );
    let lines = summary(&c, false);
    assert_eq!(lines[..4], s(&["", "4 passed, 6 failed", "", "suggested fixes:"])[..]);
    assert_eq!(lines[4], "  → install \"gone\"");
    assert_eq!(lines.len(), 10);
}

#[test]
fn nothing_configured_is_a_failure() {
    let c = diagnose_uninstalled(vec![read("Cargo.toml", "[package]\n")], &s(&[]), false);
    assert_eq!(c.lines, s(&["  no config found"]));
    assert_eq!(c.fixes, s(&["run `nizm init` to configure hooks"]));
    assert_eq!((c.pass, c.fail), (0, 1));
}

#[test]
fn unreadable_manifests_are_shown() {
    let c = diagnose_uninstalled(
        vec![
            ("a".to_string(), LenientManifest::FileError("denied".to_string())),
            read("Cargo.toml", "[package]\n"),
        ],
        &s(&[]),
        false,
    );
    assert_eq!(c.lines, s(&["  └ a — denied ✗"]));
    assert_eq!(c.fixes, s(&["fix a"]));
}

#[test]
fn hooks_that_are_not_installed_are_failures() {
    let c = diagnose_uninstalled(
        vec![
            read("package.json", "{}"),
            read(".nizm.toml", "[hooks]\nm = { cmd = \"x\", type = \"commit-msg\" }\n"),
        ],
        &s(&["x"]),
        false,
    );
    assert_eq!(
        c.lines,
        s(&["  commit-msg (not installed) ✗", "  └ .nizm.toml ✓", "     └ m (x) ✓"])
    );
    assert_eq!(c.fixes, s(&["run `nizm install` to set up commit-msg hook"]));
    let c = diagnose_uninstalled(vec![read(".nizm.toml", "[hooks]\nm = 1\n")], &s(&[]), false);
    assert_eq!(c.lines[0], "  pre-commit (not installed) ✗");
}
