//! Styled terminal text.

use vstd::prelude::*;
use vstd::string::*;

verus! {

broadcast use {group_string_axioms, vstd::seq::group_seq_axioms};

/// The colours in use.
#[derive(Debug, Clone, Copy, PartialEq, Eq, Structural)]
pub enum Hue {
    Green,
    Red,
    Yellow,
}

/// The control sequence that sets a colour.
pub open spec fn hue_code(hue: Hue) -> Seq<char> {
    match hue {
        Hue::Green => "\u{1b}[32m"@,
        Hue::Red => "\u{1b}[31m"@,
        Hue::Yellow => "\u{1b}[33m"@,
    }
}

/// The control sequences that set a style: first the effects, then the colour.
pub open spec fn style_codes(hue: Option<Hue>, bold: bool, dimmed: bool) -> Seq<char> {
    (if bold {
        "\u{1b}[1m"@
    } else {
        seq![]
    }) + (if dimmed {
        "\u{1b}[2m"@
    } else {
        seq![]
    }) + (match hue {
        Some(h) => hue_code(h),
        None => seq![],
    })
}

/// `s` between the control sequences that set a style and the one that
/// resets it.
pub open spec fn painted(
    s: Seq<char>,
    hue: Option<Hue>,
    bold: bool,
    dimmed: bool,
) -> Seq<char> {
    style_codes(hue, bold, dimmed) + s + "\u{1b}[0m"@
}

/// `anstyle::Style` as it displays itself: in front of the text the control
/// sequences of its effects and colour, in that order, and behind it the
/// reset sequence, which a style that sets something has.
#[verifier::external_body]
fn paint(s: &str, hue: Option<Hue>, bold: bool, dimmed: bool) -> (r: String)
    requires
        hue is Some || bold || dimmed,
    ensures
        r@ == painted(s@, hue, bold, dimmed),
{
    let color = hue.map(|h| match h {
        Hue::Green => anstyle::Color::Ansi(anstyle::AnsiColor::Green),
        Hue::Red => anstyle::Color::Ansi(anstyle::AnsiColor::Red),
        Hue::Yellow => anstyle::Color::Ansi(anstyle::AnsiColor::Yellow),
    });
    let effects = anstyle::Effects::new()
        .set(anstyle::Effects::BOLD, bold)
        .set(anstyle::Effects::DIMMED, dimmed);
    let style = anstyle::Style::new().fg_color(color).effects(effects);
    format!("{style}{s}{style:#}")
}

/// Colour is wanted: on a terminal, unless `NO_COLOR` has a value that is not empty.
pub open spec fn color_wanted(no_color: Option<Seq<char>>, terminal: bool) -> bool {
    terminal && (no_color matches Some(v) ==> v.len() == 0)
}

/// Is colour wanted? `no_color` is the value of `NO_COLOR`, if it is set; a
/// value that is not empty turns colour off. `terminal` says that the output
/// goes to a terminal.
pub fn use_color(no_color: Option<&str>, terminal: bool) -> (r: bool)
    ensures
        r == color_wanted(
            match no_color {
                Some(v) => Some(v@),
                None => None,
            },
            terminal,
        ),
        r == (terminal && (no_color matches Some(v) ==> v@.len() == 0)),
{
    terminal && match no_color {
        Some(v) => v.is_empty(),
        None => true,
    }
}

/// `s` in a style, or as it is where colour is not wanted.
pub open spec fn styled_text(
    s: Seq<char>,
    hue: Option<Hue>,
    bold: bool,
    dimmed: bool,
    color: bool,
) -> Seq<char> {
    if color {
        painted(s, hue, bold, dimmed)
    } else {
        s
    }
}

fn styled(s: &str, hue: Option<Hue>, bold: bool, dimmed: bool, color: bool) -> (r: String)
    requires
        hue is Some || bold || dimmed,
    ensures
        r@ == styled_text(s@, hue, bold, dimmed, color),
{
    if color {
        paint(s, hue, bold, dimmed)
    } else {
        s.to_owned()
    }
}

pub open spec fn green_text(s: Seq<char>, color: bool) -> Seq<char> {
    styled_text(s, Some(Hue::Green), false, false, color)
}

pub open spec fn red_bold_text(s: Seq<char>, color: bool) -> Seq<char> {
    styled_text(s, Some(Hue::Red), true, false, color)
}

pub open spec fn yellow_text(s: Seq<char>, color: bool) -> Seq<char> {
    styled_text(s, Some(Hue::Yellow), false, false, color)
}

pub open spec fn bold_text(s: Seq<char>, color: bool) -> Seq<char> {
    styled_text(s, None, true, false, color)
}

pub open spec fn dim_text(s: Seq<char>, color: bool) -> Seq<char> {
    styled_text(s, None, false, true, color)
}

/// `s` in green.
pub fn green(s: &str, color: bool) -> (r: String)
    ensures
        r@ == green_text(s@, color),
{
    styled(s, Some(Hue::Green), false, false, color)
}

/// `s` in bold red.
pub fn red_bold(s: &str, color: bool) -> (r: String)
    ensures
        r@ == red_bold_text(s@, color),
{
    styled(s, Some(Hue::Red), true, false, color)
}

/// `s` in yellow.
pub fn yellow(s: &str, color: bool) -> (r: String)
    ensures
        r@ == yellow_text(s@, color),
{
    styled(s, Some(Hue::Yellow), false, false, color)
}

/// `s` in bold.
pub fn bold(s: &str, color: bool) -> (r: String)
    ensures
        r@ == bold_text(s@, color),
{
    styled(s, None, true, false, color)
}

/// `s` dimmed.
pub fn dim(s: &str, color: bool) -> (r: String)
    ensures
        r@ == dim_text(s@, color),
{
    styled(s, None, false, true, color)
}

/// Nothing is coloured that does not go to a terminal, nor where `NO_COLOR` has a value;
/// an empty value is as good as none.
pub proof fn law_color_is_wanted(v: Seq<char>, terminal: bool)
    ensures
        color_wanted(None, terminal) == terminal,
        v.len() == 0 ==> color_wanted(Some(v), terminal) == terminal,
        v.len() > 0 ==> !color_wanted(Some(v), terminal),
{
}

/// A style stands around a text and does not change it: where colour is not wanted the
/// text is left as it is, and where it is, the style is set in front and reset behind.
pub proof fn law_styles(s: Seq<char>)
    ensures
        green_text(s, false) == s,
        red_bold_text(s, false) == s,
        yellow_text(s, false) == s,
        bold_text(s, false) == s,
        dim_text(s, false) == s,
        green_text(s, true) == "\u{1b}[32m"@ + s + "\u{1b}[0m"@,
        red_bold_text(s, true) == "\u{1b}[1m"@ + "\u{1b}[31m"@ + s + "\u{1b}[0m"@,
        yellow_text(s, true) == "\u{1b}[33m"@ + s + "\u{1b}[0m"@,
        bold_text(s, true) == "\u{1b}[1m"@ + s + "\u{1b}[0m"@,
        dim_text(s, true) == "\u{1b}[2m"@ + s + "\u{1b}[0m"@,
{
    let none = Seq::<char>::empty();
    assert(none + none + "\u{1b}[32m"@ =~= "\u{1b}[32m"@);
    assert(none + none + "\u{1b}[33m"@ =~= "\u{1b}[33m"@);
    assert("\u{1b}[1m"@ + none + "\u{1b}[31m"@ =~= "\u{1b}[1m"@ + "\u{1b}[31m"@);
    assert("\u{1b}[1m"@ + none + none =~= "\u{1b}[1m"@);
    assert(none + "\u{1b}[2m"@ + none =~= "\u{1b}[2m"@);
}

} // verus!
