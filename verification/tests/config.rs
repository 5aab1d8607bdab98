use nizm::config::{
    detect_json_indent, discover_manifests, manifest_kind, parse_manifest, parse_manifest_lenient,
    serialize_json, HookResult, HookType, LenientManifest, ManifestKind,
};

fn s(args: &[&str]) -> Vec<String> {
    args.iter().map(|a| a.to_string()).collect()
}

#[test]
fn stages_have_their_git_names() {
    for t in [HookType::PreCommit, HookType::PrePush, HookType::CommitMsg, HookType::PrepareCommitMsg] {
        assert_eq!(HookType::from_str(t.as_str()), Some(t));
    }
    assert_eq!(HookType::PrepareCommitMsg.as_str(), "prepare-commit-msg");
    assert_eq!(HookType::from_str("post-merge"), None);
}

#[test]
fn manifests_are_found_in_path_order() {
    let files = s(&[
        "z/package.json",
        "a.b/Cargo.toml",
        "a/Cargo.toml",
        "README.md",
        "Cargo.toml",
        "a/Cargo.toml",
        "a/b/.nizm.toml",
        "a/node_modules/x/package.json",
        "target/package/Cargo.toml",
        "1/2/3/4/5/pyproject.toml",
        "1/2/3/4/5/6/pyproject.toml",
        "my-Cargo.toml",
    ]);
    assert_eq!(
        discover_manifests(&files),
        s(&[
            "1/2/3/4/5/6/pyproject.toml",
            "1/2/3/4/5/pyproject.toml",
            "Cargo.toml",
            "a/Cargo.toml",
            "a/b/.nizm.toml",
            "a/node_modules/x/package.json",
            "a.b/Cargo.toml",
            "target/package/Cargo.toml",
            "z/package.json",
        ])
    );
    assert!(discover_manifests(&Vec::new()).is_empty());
}

#[test]
fn kinds_go_by_the_file_name() {
    assert_eq!(manifest_kind("pyproject.toml"), Some(ManifestKind::Pyproject));
    assert_eq!(manifest_kind("Cargo.toml"), Some(ManifestKind::Cargo));
    assert_eq!(manifest_kind("package.json"), Some(ManifestKind::PackageJson));
    assert_eq!(manifest_kind(".nizm.toml"), Some(ManifestKind::NizmToml));
    assert_eq!(manifest_kind("cargo.toml"), None);
}

#[test]
fn hooks_are_read_in_the_order_of_the_manifest() {
    let toml = "[tool.nizm.hooks]\nruff = { cmd = \"ruff check --fix {staged_files}\", glob = \"*.py\" }\nblack = { cmd = \"black {staged_files}\", glob = [\"*.py\", \"!**/gen/**\"] }\nlint = { cmd = \"commitlint --edit {1}\", type = \"commit-msg\", outputs = \"dist/**\" }\n";
    let (cfg, warnings) = parse_manifest("sub/pyproject.toml", toml).unwrap();
    assert!(warnings.is_empty());
    assert_eq!(cfg.path, "sub/pyproject.toml");
    let names: Vec<&str> = cfg.hooks.iter().map(|h| h.name.as_str()).collect();
    assert_eq!(names, vec!["ruff", "black", "lint"]);
    assert_eq!(cfg.hooks[0].cmd, "ruff check --fix {staged_files}");
    assert_eq!(cfg.hooks[0].glob, Some(s(&["*.py"])));
    assert_eq!(cfg.hooks[0].hook_type, HookType::PreCommit);
    assert!(cfg.hooks[0].outputs.is_none());
    let m = cfg.hooks[1].glob_matcher.as_ref().unwrap();
    assert!(m.is_match("a/b.py"));
    assert!(!m.is_match("gen/b.py"));
    assert_eq!(cfg.hooks[2].hook_type, HookType::CommitMsg);
    assert!(cfg.hooks[2].glob_matcher.is_none());
    assert!(cfg.hooks[2].outputs.as_ref().unwrap().is_match("dist/x"));
}

#[test]
fn every_kind_of_manifest_holds_hooks() {
    let cargo = "[package]\nname = \"x\"\n[package.metadata.nizm.hooks.fmt]\ncmd = \"cargo fmt\"\n";
    assert_eq!(parse_manifest("Cargo.toml", cargo).unwrap().0.hooks[0].cmd, "cargo fmt");
    let own = "hooks.test.cmd = \"make test\"\n";
    assert_eq!(parse_manifest(".nizm.toml", own).unwrap().0.hooks[0].name, "test");
    let json = "{\"nizm\": {\"hooks\": {\"b\": {\"cmd\": \"x\", \"glob\": null}, \"a\": {\"cmd\": \"y\"}}}}";
    let hooks = parse_manifest("package.json", json).unwrap().0.hooks;
    assert_eq!((hooks[0].name.as_str(), hooks[1].name.as_str()), ("b", "a"));
    assert!(hooks[0].glob.is_none());
}

#[test]
fn manifests_without_hooks_have_none() {
    assert!(parse_manifest("Cargo.toml", "[package]\n").unwrap().0.hooks.is_empty());
    assert!(parse_manifest("package.json", "{}").unwrap().0.hooks.is_empty());
    assert!(parse_manifest("package.json", "{\"nizm\": 3}").unwrap().0.hooks.is_empty());
    assert!(parse_manifest("package.json", "{\"nizm\": {\"hooks\": []}}").unwrap().0.hooks.is_empty());
}

#[test]
fn unknown_stages_are_warned_about() {
    let toml = "[hooks]\na = { cmd = \"x\", type = \"post-merge\" }\n";
    let (cfg, warnings) = parse_manifest(".nizm.toml", toml).unwrap();
    assert_eq!(cfg.hooks[0].hook_type, HookType::PreCommit);
    assert_eq!(
        warnings,
        s(&["warning: unknown hook type 'post-merge' for 'a', defaulting to pre-commit"])
    );
}

#[test]
fn one_bad_hook_fails_a_manifest() {
    let fails = |toml: &str| parse_manifest(".nizm.toml", toml).unwrap_err();
    assert_eq!(fails("[hooks]\na = { glob = \"x\" }\n"), "missing field `cmd`");
    assert_eq!(fails("[hooks]\na = { cmd = 3 }\n"), "invalid type: integer `3`, expected a string");
    assert_eq!(fails("[hooks]\na = -3\n"), "invalid type: integer `-3`, expected struct HookConfig");
    assert_eq!(
        fails("[hooks]\na = \"cargo \\\"fmt\\\"\"\n"),
        "invalid type: string \"cargo \\\"fmt\\\"\", expected struct HookConfig"
    );
    assert_eq!(
        fails("[hooks]\na = { cmd = \"x\", glob = true }\n"),
        "invalid type: boolean `true`, expected a string"
    );
    assert_eq!(
        fails("[hooks]\na = { cmd = \"x\", outputs = [\"y\", 1979-05-27] }\n"),
        "invalid type: map, expected a string"
    );
    assert_eq!(
        fails("[hooks]\na = { cmd = \"x\", type = [] }\n"),
        "invalid type: sequence, expected a string"
    );
    assert_eq!(
        fails("[hooks]\na = { cmd = 1.0 }\n"),
        "invalid type: floating point `1.0`, expected a string"
    );
    assert_eq!(fails("[hooks]\na = 1979-05-27\n"), "missing field `cmd`");
    assert_eq!(fails("hooks = \"x\"\n"), "invalid type: string \"x\", expected a map");
    assert_eq!(fails("hooks = [1]\n"), "invalid type: sequence, expected a map");
    assert_eq!(
        fails("hooks = 1979-05-27\n"),
        "invalid type: string \"1979-05-27\", expected struct HookConfig"
    );
    assert_eq!(fails("[hooks]\na = { cmd = \"x\", glob = \"a***\" }\n"), "invalid glob pattern: **/a***");
}

#[test]
fn the_first_field_that_is_wrong_is_named() {
    let fails = |json: &str| parse_manifest("package.json", &format!("{{\"nizm\": {{\"hooks\": {{\"a\": {json}}}}}}}")).unwrap_err();
    assert_eq!(fails("{\"glob\": 1, \"cmd\": 2}"), "invalid type: integer `1`, expected a string");
    assert_eq!(fails("{\"cmd\": null, \"glob\": 1}"), "invalid type: null, expected a string");
    assert_eq!(fails("{\"glob\": [\"x\", {}]}"), "invalid type: map, expected a string");
    assert_eq!(fails("{\"type\": null}"), "missing field `cmd`");
    assert_eq!(fails("null"), "invalid type: null, expected struct HookConfig");
}

#[test]
fn messages_are_those_of_the_parsers() {
    for value in ["1", "-7", "18446744073709551615", "1.5", "1e300", "true", "null", "[]", "{}"] {
        let json: serde_json::Value = serde_json::from_str(value).unwrap();
        let theirs = serde_json::from_value::<String>(json).unwrap_err().to_string();
        let manifest = format!("{{\"nizm\": {{\"hooks\": {{\"a\": {{\"cmd\": {value}}}}}}}}}");
        assert_eq!(parse_manifest("package.json", &manifest).unwrap_err(), theirs);
        match parse_manifest_lenient("package.json", &manifest) {
            LenientManifest::Hooks(v) => {
                assert!(matches!(&v[0], HookResult::Failed { error, .. } if *error == theirs));
            }
            LenientManifest::FileError(_) => panic!("readable"),
        }
    }
    for (value, said) in [
        ("1.0", "floating point `1.0`"),
        ("1e30", "floating point `1000000000000000000000000000000.0`"),
        ("-inf", "floating point `-inf`"),
        ("nan", "floating point `NaN`"),
        ("false", "boolean `false`"),
        ("1979-05-27T07:32:00Z", "map"),
        ("{ a = 1 }", "map"),
        ("[1]", "sequence"),
    ] {
        let ours = parse_manifest(".nizm.toml", &format!("[hooks]\na = {{ cmd = {value} }}\n"));
        assert_eq!(ours.unwrap_err(), format!("invalid type: {said}, expected a string"));
    }
    let lenient = parse_manifest_lenient(".nizm.toml", "[hooks]\na = { cmd = 1e30 }\nb = { cmd = nan }\nc = { cmd = \"x\", glob = inf }\n");
    match lenient {
        LenientManifest::Hooks(v) => {
            let short = serde_json::from_str::<serde_json::Value>("1e30").unwrap();
            let wanted = format!("invalid type: floating point `{short}`, expected a string");
            assert!(matches!(&v[0], HookResult::Failed { error, .. } if *error == wanted));
            assert!(matches!(&v[1], HookResult::Failed { error, .. } if error == "invalid type: null, expected a string"));
            assert!(matches!(&v[2], HookResult::Parsed(h) if h.glob.is_none()));
        }
        LenientManifest::FileError(_) => panic!("readable"),
    }
}

#[test]
fn a_hook_may_be_a_list_of_its_fields() {
    let read = |toml: &str| parse_manifest(".nizm.toml", toml);
    let (cfg, _) = read("[hooks]\na = [\"x\", \"*.py\", \"pre-push\"]\n").unwrap();
    assert_eq!(cfg.hooks[0].cmd, "x");
    assert_eq!(cfg.hooks[0].glob, Some(s(&["*.py"])));
    assert_eq!(cfg.hooks[0].hook_type, HookType::PrePush);
    assert_eq!(read("[hooks]\na = [\"x\", \"y\", \"pre-push\", 1]\n").unwrap().0.hooks.len(), 1);
    assert_eq!(
        read("[hooks]\na = [\"x\"]\n").unwrap_err(),
        "invalid length 1, expected struct HookConfig with 3 elements"
    );
    assert_eq!(read("[[hooks.a]]\ncmd = \"x\"\n").unwrap_err(), "invalid type: map, expected a string");
    let json = |list: &str| parse_manifest("package.json", &format!("{{\"nizm\": {{\"hooks\": {{\"a\": {list}}}}}}}"));
    let (cfg, _) = json("[\"x\", null, null]").unwrap();
    assert!(cfg.hooks[0].glob.is_none() && cfg.hooks[0].hook_type == HookType::PreCommit);
    assert_eq!(json("[]").unwrap_err(), "invalid length 0, expected struct HookConfig with 3 elements");
    assert_eq!(json("[\"x\", 1]").unwrap_err(), "invalid type: integer `1`, expected a string");
    assert_eq!(
        json("[\"x\", null, null, 1]").unwrap_err(),
        "invalid length 4, expected fewer elements in array"
    );
}

#[test]
fn tables_above_hooks_may_be_lists() {
    let read = |toml: &str| parse_manifest("pyproject.toml", toml);
    assert_eq!(read("tool = [[{ a = { cmd = \"x\" } }]]\n").unwrap().0.hooks[0].name, "a");
    assert_eq!(read("[[tool]]\n[tool.hooks]\na = { cmd = \"x\" }\n").unwrap().0.hooks[0].name, "a");
    assert!(read("tool = 1979-05-27\n").unwrap().0.hooks.is_empty());
    assert_eq!(read("tool = []\n").unwrap_err(), "invalid length 0, expected struct ToolSection with 1 element");
    assert_eq!(read("tool = 1\n").unwrap_err(), "invalid type: integer `1`, expected struct ToolSection");
    assert_eq!(
        read("[tool]\nnizm = \"x\"\n").unwrap_err(),
        "invalid type: string \"x\", expected struct NizmSection"
    );
    let cargo = |toml: &str| parse_manifest("Cargo.toml", toml).unwrap_err();
    assert_eq!(cargo("package = 1\n"), "invalid type: integer `1`, expected struct CargoPackage");
    assert_eq!(
        cargo("[package]\nmetadata = true\n"),
        "invalid type: boolean `true`, expected struct CargoMetadata"
    );
}

#[test]
fn files_that_are_no_manifests_fail() {
    assert_eq!(parse_manifest("x/y.toml", "").unwrap_err(), "unsupported manifest: y.toml");
    assert_eq!(parse_manifest("..", "").unwrap_err(), "invalid manifest path");
    assert!(parse_manifest("Cargo.toml", "[").unwrap_err().starts_with("TOML parse error"));
    assert!(parse_manifest("package.json", "{").unwrap_err().starts_with("EOF while parsing"));
}

#[test]
fn lenient_reading_reports_hook_by_hook() {
    let toml = "[hooks]\na = { cmd = \"x\" }\nb = { glob = \"y\" }\nc = { cmd = \"z\", glob = \"a***\" }\n";
    match parse_manifest_lenient(".nizm.toml", toml) {
        LenientManifest::Hooks(v) => {
            assert_eq!(v.len(), 3);
            assert!(matches!(&v[0], HookResult::Parsed(h) if h.name == "a" && h.cmd == "x"));
            assert!(matches!(&v[1], HookResult::Failed { name, error } if name == "b" && error == "missing field `cmd`"));
            assert!(matches!(&v[2], HookResult::Failed { name, error } if name == "c" && error == "invalid glob pattern: **/a***"));
        }
        LenientManifest::FileError(_) => panic!("readable"),
    }
}

#[test]
fn lenient_reading_reports_what_it_cannot_parse() {
    assert!(matches!(parse_manifest_lenient("Cargo.toml", "["), LenientManifest::FileError(e) if e.starts_with("TOML parse error")));
    assert!(matches!(parse_manifest_lenient("package.json", "{"), LenientManifest::FileError(e) if e.starts_with("EOF while parsing")));
    assert!(matches!(parse_manifest_lenient("Cargo.toml", "[package]\n"), LenientManifest::Hooks(v) if v.is_empty()));
    assert!(matches!(parse_manifest_lenient("package.json", "{}"), LenientManifest::Hooks(v) if v.is_empty()));
    assert!(matches!(parse_manifest_lenient("x.json", "{}"), LenientManifest::FileError(e) if e == "unsupported manifest: x.json"));
    assert!(matches!(parse_manifest_lenient("a/..", "{}"), LenientManifest::FileError(e) if e == "invalid manifest path"));
}

#[test]
fn a_section_is_a_hook_like_any_table() {
    let toml = "[hooks.a]\ncmd = \"x\"\n[[hooks.b]]\ncmd = \"y\"\n";
    assert_eq!(parse_manifest(".nizm.toml", "[hooks.a]\ncmd = \"x\"\n").unwrap().0.hooks.len(), 1);
    assert!(parse_manifest(".nizm.toml", toml).is_err());
    match parse_manifest_lenient(".nizm.toml", toml) {
        LenientManifest::Hooks(v) => {
            assert_eq!(v.len(), 2);
            assert!(matches!(&v[0], HookResult::Parsed(h) if h.name == "a" && h.cmd == "x"));
            assert!(matches!(&v[1], HookResult::Failed { name, .. } if name == "b"));
        }
        LenientManifest::FileError(_) => panic!("readable"),
    }
}

#[test]
fn lenient_and_strict_reading_agree() {
    let json = "{\"nizm\": {\"hooks\": {\"p\": {\"cmd\": \"prettier\"}, \"e\": {\"cmd\": \"eslint\", \"glob\": [\"*.js\"]}}}}";
    let strict = parse_manifest("package.json", json).unwrap().0.hooks;
    match parse_manifest_lenient("package.json", json) {
        LenientManifest::Hooks(v) => {
            assert_eq!(v.len(), strict.len());
            for (l, h) in v.iter().zip(strict.iter()) {
                assert!(matches!(l, HookResult::Parsed(x) if x.name == h.name && x.cmd == h.cmd && x.glob == h.glob));
            }
        }
        LenientManifest::FileError(_) => panic!("readable"),
    }
}

#[test]
fn json_is_written_with_its_indentation() {
    let v: serde_json::Value = serde_json::from_str("{\"b\":[1,{}],\"a\":\"x\\u0001\"}").unwrap();
    assert_eq!(
        serialize_json(&v, "\t").unwrap(),
        "{\n\t\"b\": [\n\t\t1,\n\t\t{}\n\t],\n\t\"a\": \"x\\u0001\"\n}\n"
    );
}

#[test]
fn indentation_is_that_of_the_first_indented_line() {
    assert_eq!(detect_json_indent("{\n\n   \n    \"a\": {\n        \"b\": 1\n    }\n}"), "    ");
    assert_eq!(detect_json_indent("{\n\t\"a\": 1\n}"), "\t");
    assert_eq!(detect_json_indent("  {}\n"), "  ");
    assert_eq!(detect_json_indent(""), "  ");
}
