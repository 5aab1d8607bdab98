use nizm::pattern::{decide, expand_braces, Matcher};

fn list(patterns: &[&str]) -> Vec<String> {
    patterns.iter().map(|s| s.to_string()).collect()
}

fn m(patterns: &[&str]) -> Matcher {
    Matcher::new(&list(patterns)).unwrap()
}

#[test]
fn bare_pattern_matches_any_depth() {
    assert!(m(&["*.rs"]).is_match("foo.rs"));
    assert!(m(&["*.rs"]).is_match("src/foo.rs"));
    assert!(m(&["*.rs"]).is_match("a/b/c/foo.rs"));
}

#[test]
fn anchored_pattern_respects_depth() {
    assert!(m(&["src/*.rs"]).is_match("src/foo.rs"));
    assert!(!m(&["src/*.rs"]).is_match("src/a/foo.rs"));
    assert!(m(&["src/**/*.rs"]).is_match("src/a/foo.rs"));
}

#[test]
fn brace_alternation() {
    let mc = m(&["*.{rs,toml}"]);
    assert!(mc.is_match("foo.rs"));
    assert!(mc.is_match("foo.toml"));
    assert!(!mc.is_match("foo.md"));
}

#[test]
fn nested_braces() {
    let mc = m(&["{src,tests}/*.{rs,toml}"]);
    assert!(mc.is_match("src/foo.rs"));
    assert!(mc.is_match("tests/foo.toml"));
    assert!(!mc.is_match("docs/foo.rs"));
}

#[test]
fn char_classes() {
    assert!(m(&["[abc].rs"]).is_match("a.rs"));
    assert!(!m(&["[abc].rs"]).is_match("d.rs"));
    assert!(m(&["[!abc].rs"]).is_match("d.rs"));
    assert!(m(&["[a-z].rs"]).is_match("x.rs"));
}

#[test]
fn multiple_patterns_as_list() {
    let mc = m(&["*.py", "!**/migrations/**"]);
    assert!(mc.is_match("src/foo.py"));
    assert!(!mc.is_match("src/migrations/0001.py"));
}

#[test]
fn exclude_only_means_match_unless_excluded() {
    let mc = m(&["!**/vendor/**"]);
    assert!(mc.is_match("src/foo.rs"));
    assert!(!mc.is_match("src/vendor/x.rs"));
}

#[test]
fn empty_matcher_matches_everything() {
    let mc = Matcher::new(&Vec::new()).unwrap();
    assert!(mc.is_empty());
    assert!(mc.is_match("anything"));
}

#[test]
fn comma_in_string_is_literal() {
    let mc = m(&["file,with,comma.txt"]);
    assert!(mc.is_match("file,with,comma.txt"));
    assert!(!mc.is_match("file.txt"));
}

#[test]
fn braces_expand_from_left_to_right() {
    assert_eq!(expand_braces("a{b,c}d{e,f}"), list(&["abde", "abdf", "acde", "acdf"]));
    assert_eq!(expand_braces("{a,{b,c}}"), list(&["a", "b", "c"]));
    assert_eq!(expand_braces("plain"), list(&["plain"]));
}

#[test]
fn braces_without_an_alternative_are_literal() {
    assert_eq!(expand_braces("{a"), list(&["{a"]));
    assert_eq!(expand_braces("a}b"), list(&["a}b"]));
}

#[test]
fn order_of_excludes_does_not_matter() {
    let before = m(&["!**/gen/**", "*.py"]);
    let after = m(&["*.py", "!**/gen/**"]);
    for path in ["a.py", "gen/a.py", "x/gen/a.py", "a.rs"] {
        assert_eq!(before.is_match(path), after.is_match(path));
    }
    assert!(!before.is_match("gen/a.py"));
}

#[test]
fn blank_entries_count_for_nothing() {
    let mc = m(&["  ", "*.md", ""]);
    assert!(mc.is_match("README.md"));
    assert!(!mc.is_match("README.txt"));
    assert!(m(&["   "]).is_empty());
}

#[test]
fn invalid_patterns_are_reported_as_written_out() {
    let e = Matcher::new(&list(&["*.py", "a***b"])).unwrap_err();
    assert_eq!(e.pattern, "**/a***b");
    assert_eq!(e.message(), "invalid glob pattern: **/a***b");
}

#[test]
fn wildcards_do_not_cross_directories() {
    assert!(m(&["src/?.rs"]).is_match("src/a.rs"));
    assert!(!m(&["src/?.rs"]).is_match("src/a/b.rs"));
    assert!(!m(&["src*foo.rs"]).is_match("docs/src/foo.md"));
}

#[test]
fn bare_excludes_match_at_any_depth() {
    for mc in [m(&["!*.min.js"]), m(&["!**/*.min.js"])] {
        assert!(!mc.is_match("x.min.js"));
        assert!(!mc.is_match("a/b/x.min.js"));
        assert!(mc.is_match("a/b/x.js"));
    }
}

#[test]
fn without_patterns_any_path_passes() {
    assert!(m(&[]).is_match("a\\b"));
    assert!(m(&["  ", ""]).is_match("a"));
    assert!(m(&["  ", ""]).is_empty());
}

#[test]
fn an_exclude_decides_before_an_include() {
    for included in [false, true] {
        for has_includes in [false, true] {
            assert!(!decide(has_includes, included, true));
        }
        assert!(decide(false, included, false));
        assert_eq!(decide(true, included, false), included);
    }
}

#[test]
fn a_list_answers_as_its_entries_do() {
    let entries = ["*.py", "  ", "!gen/**", "src/*.{rs,toml}", "!*_pb.py"];
    let all = m(&entries);
    for path in ["a.py", "gen/a.py", "src/x.toml", "src/x.md", "a_pb.py", "x/a.py"] {
        let includes = [m(&entries[0..1]), m(&entries[3..4])];
        let excludes = [m(&entries[2..3]), m(&entries[4..5])];
        let passes = includes.iter().any(|x| x.is_match(path)) && excludes.iter().all(|x| x.is_match(path));
        assert_eq!(all.is_match(path), passes, "{path}");
    }
}

#[test]
fn bare_and_deep_matchers_agree() {
    for path in ["a.rs", "x/a.rs", "x/y/b.toml", "a.md"] {
        assert_eq!(m(&["*.{rs,toml}"]).is_match(path), m(&["**/*.{rs,toml}"]).is_match(path));
        assert_eq!(m(&["!*.rs"]).is_match(path), m(&["!**/*.rs"]).is_match(path));
    }
}

#[test]
fn a_backslash_does_not_undo_an_answer() {
    let all = m(&["*.py", "!gen/**"]);
    for path in ["a\\b.md", "gen/a\\b.py"] {
        assert!(!all.is_match(path));
    }
    assert!(all.is_match("x/a\\b.py"));
}
