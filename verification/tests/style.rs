use nizm::style::{bold, dim, green, red_bold, use_color, yellow};

#[test]
fn styles_are_escape_codes() {
    assert_eq!(green("x", true), "\u{1b}[32mx\u{1b}[0m");
    assert_eq!(red_bold("x", true), "\u{1b}[1m\u{1b}[31mx\u{1b}[0m");
    assert_eq!(yellow("x", true), "\u{1b}[33mx\u{1b}[0m");
    assert_eq!(bold("x", true), "\u{1b}[1mx\u{1b}[0m");
    assert_eq!(dim("x", true), "\u{1b}[2mx\u{1b}[0m");
}

#[test]
fn without_color_text_is_plain() {
    for f in [green, red_bold, yellow, bold, dim] {
        assert_eq!(f("x y", false), "x y");
    }
}

#[test]
fn color_needs_a_terminal_and_no_veto() {
    assert!(use_color(None, true));
    assert!(use_color(Some(""), true));
    assert!(!use_color(Some("1"), true));
    assert!(!use_color(None, false));
}
