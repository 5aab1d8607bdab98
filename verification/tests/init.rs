use nizm::config::{parse_manifest, ManifestKind};
use nizm::init::{
    added_line, collect_suggestions, deduplicate, extract_pkg_name, inject_hook, inject_json,
    inject_ruff_config, inject_toml, needs_prettierrc, nothing_to_suggest, pad, pick_named,
    prettier_dirs, prettierrc, read_devdeps, ruff_manifest, scan_manifest, suggest, used_manifests,
    Suggestion,
};
use nizm::knowledge::{lookup, rust_implicit, ToolEntry};

fn s(args: &[&str]) -> Vec<String> {
    args.iter().map(|a| a.to_string()).collect()
}

fn tool(name: &str) -> ToolEntry {
    if name == "clippy" {
        return rust_implicit().remove(0);
    }
    lookup(name).remove(0)
}

fn suggestion(manifest: &str, name: &str) -> Suggestion {
    Suggestion { manifest: manifest.to_string(), entry: tool(name) }
}

fn names(list: &[Suggestion]) -> Vec<&str> {
    list.iter().map(|s| s.entry.name).collect()
}

#[test]
fn package_names_lose_versions_and_extras() {
    assert_eq!(extract_pkg_name("ruff>=0.5.0"), "ruff");
    assert_eq!(extract_pkg_name("black[jupyter]"), "black");
    assert_eq!(extract_pkg_name("  mypy ; python_version > '3'"), "mypy");
    assert_eq!(extract_pkg_name("a~=1"), "a");
    assert_eq!(extract_pkg_name("plain"), "plain");
    assert_eq!(extract_pkg_name(""), "");
}

#[test]
fn python_dependencies_come_from_three_places() {
    let toml = "[project.optional-dependencies]\ndev = [\"ruff>=0.5\", 3]\n[dependency-groups]\ndev = [\"mypy\"]\n[tool.poetry.group.dev.dependencies]\nblack = \"^24\"\n";
    assert_eq!(read_devdeps(ManifestKind::Pyproject, toml), (s(&["ruff", "mypy", "black"]), false));
    assert_eq!(read_devdeps(ManifestKind::Pyproject, "["), (s(&[]), false));
}

#[test]
fn javascript_and_rust_dependencies_are_keys() {
    let json = "{\"devDependencies\": {\"prettier\": \"3\", \"eslint\": \"9\"}}";
    assert_eq!(read_devdeps(ManifestKind::PackageJson, json), (s(&["prettier", "eslint"]), false));
    let toml = "[package]\nname = \"x\"\n[dev-dependencies]\ntempfile = \"3\"\n";
    assert_eq!(read_devdeps(ManifestKind::Cargo, toml), (s(&["tempfile"]), true));
    assert_eq!(read_devdeps(ManifestKind::Cargo, "[workspace]\n"), (s(&[]), false));
    assert_eq!(read_devdeps(ManifestKind::NizmToml, "[dev-dependencies]\n"), (s(&[]), false));
}

#[test]
fn tools_with_hooks_are_not_suggested() {
    let found = suggest("Cargo.toml", &s(&["clippy"]), &s(&["ruff", "unknown", "black"]), true);
    assert_eq!(names(&found), vec!["ruff", "black", "rustfmt"]);
    assert!(found.iter().all(|f| f.manifest == "Cargo.toml"));
    assert!(suggest("x", &s(&[]), &s(&[]), false).is_empty());
}

#[test]
fn scanning_a_manifest_suggests_its_tools() {
    let json = "{\"devDependencies\": {\"prettier\": \"3\", \"eslint\": \"9\"}, \"nizm\": {\"hooks\": {\"eslint\": {\"cmd\": \"x\"}}}}";
    let (found, any) = scan_manifest("web/package.json", json);
    assert!(any);
    assert_eq!(names(&found), vec!["prettier"]);
    let (found, any) = scan_manifest("Cargo.toml", "[package]\n");
    assert!(any);
    assert_eq!(names(&found), vec!["clippy", "rustfmt"]);
    let (found, any) = scan_manifest("notes.txt", "");
    assert!(!any && found.is_empty());
    let (found, any) = scan_manifest("package.json", "{}");
    assert!(!any && found.is_empty());
}

#[test]
fn a_hook_with_a_bad_pattern_is_a_hook_still() {
    let json = "{\"devDependencies\": {\"prettier\": \"3\", \"eslint\": \"9\"}, \"nizm\": {\"hooks\": {\"eslint\": {\"cmd\": \"x\", \"glob\": \"a***\"}}}}";
    assert!(parse_manifest("package.json", json).is_err());
    assert_eq!(names(&scan_manifest("package.json", json).0), vec!["prettier"]);
}

#[test]
fn suggestions_are_collected_over_all_manifests() {
    let files = vec![
        ("pyproject.toml".to_string(), "[dependency-groups]\ndev = [\"ruff\", \"ruff>=1\"]\n".to_string()),
        ("Cargo.toml".to_string(), "[package]\n".to_string()),
    ];
    let (found, any) = collect_suggestions(&files);
    assert!(any);
    let keys: Vec<(&str, &str)> = found.iter().map(|s| (s.manifest.as_str(), s.entry.name)).collect();
    assert_eq!(
        keys,
        vec![("pyproject.toml", "ruff"), ("Cargo.toml", "clippy"), ("Cargo.toml", "rustfmt")]
    );
    let (found, any) = collect_suggestions(&vec![(".nizm.toml".to_string(), String::new())]);
    assert!(!any && found.is_empty());
}

#[test]
fn a_tool_is_suggested_once_for_each_manifest() {
    let list = vec![
        suggestion("a", "ruff"),
        suggestion("b", "ruff"),
        suggestion("a", "ruff"),
        suggestion("a", "black"),
    ];
    let unique = deduplicate(list);
    let keys: Vec<(&str, &str)> = unique.iter().map(|s| (s.manifest.as_str(), s.entry.name)).collect();
    assert_eq!(keys, vec![("a", "ruff"), ("b", "ruff"), ("a", "black")]);
}

#[test]
fn hooks_are_picked_by_name() {
    let list = vec![suggestion("a", "ruff"), suggestion("b", "ruff"), suggestion("a", "black")];
    assert_eq!(pick_named(&list, &s(&["black", "nope", "ruff"])), vec![2, 0]);
    assert!(pick_named(&list, &s(&["nope"])).is_empty());
}

#[test]
fn follow_ups_go_by_what_was_chosen() {
    let list = vec![
        suggestion("z/package.json", "prettier"),
        suggestion("Cargo.toml", "ruff"),
        suggestion("py/pyproject.toml", "ruff"),
        suggestion("package.json", "prettier"),
    ];
    assert_eq!(ruff_manifest(&list, &vec![0, 1, 2]), Some("py/pyproject.toml".to_string()));
    assert_eq!(ruff_manifest(&list, &vec![0, 1]), None);
    assert_eq!(prettier_dirs(&list, &vec![3, 2, 0]), s(&["", "z"]));
    assert_eq!(used_manifests(&list, &vec![0, 3, 0, 1]), s(&["Cargo.toml", "package.json", "z/package.json"]));
}

#[test]
fn added_hooks_are_shown_in_columns() {
    assert_eq!(pad("ab", 4), "ab  ");
    assert_eq!(pad("abcde", 4), "abcde");
    assert_eq!(
        added_line(&tool("clippy"), false),
        "  added clippy       cargo clippy --fix --allow-dirty -- -D warnings"
    );
    assert_eq!(nothing_to_suggest(true), "no hooks to suggest — all detected tools are already configured");
    assert_eq!(nothing_to_suggest(false), "no dev-dependencies found in any manifest");
}

#[test]
fn toml_hooks_are_inline_tables() {
    let toml = "# mine\n[project]\nname = \"p\" # kept\n";
    let out = inject_toml(toml, &s(&["tool", "nizm", "hooks"]), &tool("black")).unwrap();
    assert_eq!(
        out,
        "# mine\n[project]\nname = \"p\" # kept\n\n[tool.nizm.hooks]\nblack = { cmd = \"black {staged_files}\", glob = \"*.py\" }\n"
    );
    let twice = inject_toml(&out, &s(&["tool", "nizm", "hooks"]), &tool("prettier")).unwrap();
    assert!(twice.ends_with("glob = \"*.py\" }\nprettier = { cmd = \"prettier --write {staged_files}\" }\n"));
}

#[test]
fn injected_hooks_are_read_back() {
    for (path, content) in [
        ("pyproject.toml", "[tool.other]\nx = 1\n"),
        ("Cargo.toml", "[package]\nname = \"x\"\n"),
        (".nizm.toml", "[hooks]\nown = { cmd = \"make\" }\n"),
        ("package.json", "{\n  \"name\": \"x\"\n}\n"),
    ] {
        let out = inject_hook(path, content, &tool("eslint")).unwrap();
        let hooks = parse_manifest(path, &out).unwrap().0.hooks;
        let hook = hooks.iter().find(|h| h.name == "eslint").unwrap();
        assert_eq!(hook.cmd, "eslint --fix {staged_files}");
        assert_eq!(hook.glob, Some(s(&["*.{js,jsx,ts,tsx}"])));
    }
}

#[test]
fn injection_fails_where_it_cannot_be_done() {
    let e = |p: &str, c: &str| inject_hook(p, c, &tool("ruff")).unwrap_err();
    assert_eq!(e("x.toml", ""), "unsupported manifest: x.toml");
    assert_eq!(e("pyproject.toml", "tool = 1\n"), "expected table in TOML");
    assert!(e("pyproject.toml", "[").starts_with("failed to parse TOML: TOML parse error"));
    assert!(e("package.json", "{").starts_with("failed to parse JSON: "));
    assert_eq!(e("package.json", "[]"), "no root JSON object");
    assert_eq!(e("package.json", "{\"nizm\": 1}"), "key \"nizm\" not found in JSON");
}

#[test]
fn json_hooks_are_spliced_into_the_text() {
    assert_eq!(
        inject_json("{\n  \"name\": \"x\"\n}\n", &tool("prettier")).unwrap(),
        "{\n  \"name\": \"x\",\n  \"nizm\": {\n    \"hooks\": {\n      \"prettier\": { \"cmd\": \"prettier --write {staged_files}\" }\n    }\n  }\n}\n"
    );
    assert_eq!(
        inject_json("{\n  \"nizm\": {},\n  \"z\": 1\n}\n", &tool("prettier")).unwrap(),
        "{\n  \"nizm\": {\n    \"hooks\": {\n      \"prettier\": { \"cmd\": \"prettier --write {staged_files}\" }\n    }\n  },\n  \"z\": 1\n}\n"
    );
    assert_eq!(
        inject_json("{\n\t\"nizm\": {\n\t\t\"hooks\": {\n\t\t\t\"a\": { \"cmd\": \"}\" }\n\t\t}\n\t}\n}\n", &tool("black")).unwrap(),
        "{\n\t\"nizm\": {\n\t\t\"hooks\": {\n\t\t\t\"a\": { \"cmd\": \"}\" },\n\t\t\t\"black\": {\n\t\t\t\t\"cmd\": \"black {staged_files}\",\n\t\t\t\t\"glob\": \"*.py\"\n\t\t\t}\n\t\t}\n\t}\n}\n"
    );
}

#[test]
fn json_hooks_go_into_the_outermost_entry() {
    let text = "{\n  \"jest\": {\n    \"nizm\": {\n      \"hooks\": {}\n    }\n  },\n  \"nizm\": {\n    \"hooks\": {}\n  }\n}\n";
    let out = inject_json(text, &tool("prettier")).unwrap();
    let hooks = parse_manifest("package.json", &out).unwrap().0.hooks;
    assert_eq!(hooks.len(), 1);
    assert_eq!(hooks[0].name, "prettier");
    assert!(out.starts_with(&text[..text.rfind("\"hooks\"").unwrap()]));
}

#[test]
fn json_texts_are_escaped() {
    let entry = ToolEntry { packages: Vec::new(), name: "t", cmd: "say \"a\\b\"\n\u{1}", glob: None };
    let out = inject_json("{}", &entry).unwrap();
    assert!(out.contains("{ \"cmd\": \"say \\\"a\\\\b\\\"\\n\\u0001\" }"));
}

#[test]
fn ruff_is_configured_once() {
    let out = inject_ruff_config("[project]\nname = \"p\"\n").unwrap().unwrap();
    assert_eq!(
        out,
        "[project]\nname = \"p\"\n\n[tool.ruff.lint]\nselect = [\"F\", \"I\"]\nfixable = [\"F401\", \"I\"]\n"
    );
    assert!(inject_ruff_config(&out).unwrap().is_none());
    assert_eq!(inject_ruff_config("tool = 1\n").unwrap_err(), "expected table in TOML");
    assert!(inject_ruff_config("[").unwrap_err().starts_with("failed to parse TOML: "));
}

#[test]
fn prettier_is_configured_where_it_is_not() {
    assert!(needs_prettierrc(&s(&["package.json", "prettier.txt"])));
    assert!(!needs_prettierrc(&s(&["package.json", "prettier.config.mjs"])));
    assert!(!needs_prettierrc(&s(&[".prettierrc"])));
    assert!(prettierrc().starts_with("{\n    \"tabWidth\": 4,\n"));
    assert!(prettierrc().ends_with("    \"printWidth\": 120\n}\n"));
}
