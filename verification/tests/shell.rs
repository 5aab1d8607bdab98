use nizm::runner::shell_escape;
use nizm::shell::split;

fn s(args: &[&str]) -> Vec<String> {
    args.iter().map(|a| a.to_string()).collect()
}

#[test]
fn words_end_at_blanks_outside_quotes() {
    assert_eq!(split("  a\tb  'c d'e "), s(&["a", "b", "c de"]));
    assert_eq!(split("'it'\\''s' '' x"), s(&["it's", "", "x"]));
    assert_eq!(split("'open to the end "), s(&["open to the end "]));
    assert_eq!(split("a\\b \"c d\" $?"), s(&["a\\b", "\"c", "d\"", "$?"]));
    assert!(split(" \n").is_empty());
}

#[test]
fn escaped_words_are_read_back() {
    for word in ["a", "a b", "it's", "'", "$HOME \\ \"x\"", "ä\nö"] {
        assert_eq!(split(&shell_escape(word)), s(&[word]));
    }
}
