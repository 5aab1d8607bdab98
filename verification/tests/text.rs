use nizm::document::Node;
use nizm::text::{decimal_text, parse_number, split_at, split_lines, split_words, trimmed};

fn s(args: &[&str]) -> Vec<String> {
    args.iter().map(|a| a.to_string()).collect()
}

#[test]
fn lines_lose_their_breaks() {
    assert_eq!(split_lines("a\r\nb\n\nc\r"), s(&["a", "b", "", "c\r"]));
    assert!(split_lines("").is_empty());
    assert_eq!(split_lines("\n"), s(&[""]));
}

#[test]
fn words_and_pieces() {
    assert_eq!(split_words("  a\tb \u{3000}c "), s(&["a", "b", "c"]));
    assert_eq!(split_at("a,,b", ','), s(&["a", "", "b"]));
    assert_eq!(split_at("", ','), s(&[""]));
    assert_eq!(trimmed("\u{a0} x y\n"), "x y");
}

#[test]
fn numbers() {
    assert_eq!(decimal_text(0), "0");
    assert_eq!(decimal_text(1050), "1050");
    assert_eq!(parse_number("+12"), Some(12));
    assert_eq!(parse_number("-1"), None);
    assert_eq!(parse_number(""), None);
    assert_eq!(parse_number("99999999999999999999999"), None);
}

#[test]
fn trees_are_followed_by_keys() {
    let inner = Node::Record(vec![("b".to_string(), Node::Bool(true))]);
    let tree = Node::Section(vec![("a".to_string(), inner), ("e".to_string(), Node::Section(Vec::new()))]);
    assert!(matches!(tree.at(&s(&["a", "b"])), Some(Node::Bool(true))));
    assert!(tree.at(&s(&["a", "c"])).is_none());
    assert!(tree.at(&s(&["a", "b", "c"])).is_none());
    assert!(tree.is_empty_section(&s(&["e"]), 1));
    assert!(!tree.is_empty_section(&s(&["a"]), 1));
}
