use nizm::config::HookType;
use nizm::installer::{generate_block, plan_hook_file, HookFilePlan};
use nizm::uninstaller::{
    plan_purge, plan_removal, purge_json, purge_toml, remove_block, removal_line, Purge, Removal,
};

fn s(args: &[&str]) -> Vec<String> {
    args.iter().map(|a| a.to_string()).collect()
}

fn block() -> String {
    generate_block(&s(&["Cargo.toml"]), false, HookType::PreCommit)
}

#[test]
fn a_script_of_nizms_own_is_deleted() {
    let script = match plan_hook_file(None, &block()) {
        HookFilePlan::Create(t) => t,
        _ => panic!("no script"),
    };
    assert_eq!(remove_block(&script), "#!/bin/sh\n");
    assert!(matches!(plan_removal(&script), Removal::Delete));
}

#[test]
fn a_script_that_was_there_comes_back() {
    let own = "#!/bin/bash\nmake lint\n";
    let script = match plan_hook_file(Some(own), &block()) {
        HookFilePlan::Append(t) => t,
        _ => panic!("not managed"),
    };
    match plan_removal(&script) {
        Removal::Write(t) => assert_eq!(t, own),
        _ => panic!("something is left"),
    }
    assert!(matches!(plan_removal(own), Removal::Leave));
}

#[test]
fn empty_lines_at_the_end_are_tidied() {
    assert_eq!(remove_block("a\n\n\n# nizm-start\n# nizm-end\n"), "a\n");
    assert_eq!(remove_block("a\n# nizm-start\n# nizm-end\nb"), "a\nb\n");
    assert_eq!(remove_block("# nizm-start\n# nizm-end"), "");
    assert_eq!(remove_block("no block"), "no block");
}

#[test]
fn removals_are_told() {
    let t = HookType::PreCommit;
    assert_eq!(removal_line(t, &Removal::Delete, false), "pre-commit hook removed");
    assert_eq!(
        removal_line(t, &Removal::Write(String::new()), false),
        "nizm block removed from pre-commit hook"
    );
    assert_eq!(removal_line(t, &Removal::Leave, false), "");
}

#[test]
fn purging_takes_the_table_and_what_is_left_empty() {
    let toml = "[package]\nname = \"x\"\n\n[package.metadata.nizm.hooks]\nfmt = { cmd = \"cargo fmt\" }\n";
    let left = purge_toml(toml, &s(&["package", "metadata", "nizm"])).unwrap().unwrap();
    assert_eq!(left, "[package]\nname = \"x\"\n");
    assert!(purge_toml("[package]\nname = \"x\"\n", &s(&["package", "metadata", "nizm"])).unwrap().is_none());
    assert!(purge_toml("a = 1", &s(&[])).unwrap().is_none());
}

#[test]
fn purging_drops_sections_that_have_become_empty() {
    let toml = "[tool]\n\n[tool.nizm.hooks]\na = { cmd = \"b\" }\n\n[project]\nname = \"p\"\n";
    let left = purge_toml(toml, &s(&["tool", "nizm"])).unwrap().unwrap();
    assert!(!left.contains("tool"));
    assert!(left.contains("[project]\nname = \"p\"\n"));
}

#[test]
fn purging_again_finds_nothing() {
    let path = s(&["tool", "nizm"]);
    for toml in [
        "[tool.nizm.hooks]\na = { cmd = \"b\" }\n",
        "[tool]\nnizm.hooks.a.cmd = \"b\" # c\nx = 1\n",
        "[tool.nizm]\n[[tool.nizm.list]]\n[tool.other]\n",
    ] {
        let left = purge_toml(toml, &path).unwrap().unwrap();
        assert!(purge_toml(&left, &path).unwrap().is_none());
    }
}

#[test]
fn purging_keeps_other_tables_and_comments() {
    let toml = "# top\n[tool.ruff]\nline = 1 # kept\n\n[tool.nizm.hooks]\na = { cmd = \"b\" }\n";
    let left = purge_toml(toml, &s(&["tool", "nizm"])).unwrap().unwrap();
    assert_eq!(left, "# top\n[tool.ruff]\nline = 1 # kept\n");
}

#[test]
fn purging_what_is_not_toml_fails() {
    let e = purge_toml("= = =", &s(&["tool", "nizm"])).unwrap_err();
    assert!(e.starts_with("failed to parse TOML: TOML parse error"));
}

#[test]
fn purging_json_keeps_the_indentation() {
    let json = "{\n    \"name\": \"x\",\n    \"nizm\": { \"hooks\": {} },\n    \"private\": true\n}\n";
    let left = purge_json(json).unwrap().unwrap();
    assert_eq!(left, "{\n    \"name\": \"x\",\n    \"private\": true\n}\n");
    assert!(purge_json("{}").unwrap().is_none());
    assert!(purge_json("[1]").unwrap().is_none());
    assert!(purge_json("{").unwrap_err().starts_with("failed to parse JSON: "));
}

#[test]
fn the_last_entry_takes_the_place_of_the_purged_one() {
    let json = "{\n  \"nizm\": 1,\n  \"a\": 2,\n  \"b\": 3.5\n}";
    assert_eq!(purge_json(json).unwrap().unwrap(), "{\n  \"b\": 3.5,\n  \"a\": 2\n}\n");
}

#[test]
fn each_manifest_is_purged_in_its_way() {
    assert!(matches!(plan_purge("x/.nizm.toml", "whatever"), Ok(Purge::Delete)));
    assert!(matches!(plan_purge("x/other.toml", "whatever"), Ok(Purge::Leave)));
    assert!(matches!(plan_purge("package.json", "{\"nizm\": 1}"), Ok(Purge::Write(t)) if t == "{}\n"));
    assert!(matches!(plan_purge("pyproject.toml", "[tool.nizm]\n"), Ok(Purge::Write(t)) if t.is_empty()));
    assert!(matches!(plan_purge("a/Cargo.toml", "[package]\n"), Ok(Purge::Leave)));
    assert!(plan_purge("a/Cargo.toml", "[").is_err());
}
