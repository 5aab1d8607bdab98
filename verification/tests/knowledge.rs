use nizm::knowledge::{lookup, rust_implicit, tools};

#[test]
fn tools_are_found_by_their_packages() {
    let ruff = lookup("ruff");
    assert_eq!(ruff.len(), 1);
    assert_eq!(ruff[0].name, "ruff");
    assert_eq!(ruff[0].cmd, "ruff check --fix {staged_files} && ruff format {staged_files}");
    assert_eq!(ruff[0].glob, Some("*.py"));
    let biome = lookup("@biomejs/biome");
    assert_eq!((biome[0].name, biome[0].glob), ("biome", None));
    assert!(lookup("biome").is_empty());
    assert!(lookup("clippy").is_empty());
}

#[test]
fn the_tables_are_complete() {
    let names: Vec<&str> = tools().iter().map(|t| t.name).collect();
    assert_eq!(names, vec!["black", "ruff", "mypy", "prettier", "eslint", "biome"]);
    let rust: Vec<&str> = rust_implicit().iter().map(|t| t.name).collect();
    assert_eq!(rust, vec!["clippy", "rustfmt"]);
}
