//! Glob matching with brace alternation and exclusion.

use crate::text;
use vstd::prelude::*;
use vstd::string::*;

verus! {

broadcast use {group_string_axioms, vstd::seq::group_seq_axioms};

// ---- brace alternation ----

/// How far `s` goes down into braces: its `{` less its `}`.
pub open spec fn depth(s: Seq<char>) -> int
    decreases s.len(),
{
    if s.len() == 0 {
        0
    } else {
        depth(s.drop_last()) + if s.last() == '{' {
            1int
        } else if s.last() == '}' {
            -1int
        } else {
            0int
        }
    }
}

/// How many `{` stand in `s`.
pub open spec fn opens(s: Seq<char>) -> nat
    decreases s.len(),
{
    if s.len() == 0 {
        0
    } else {
        opens(s.drop_last()) + if s.last() == '{' {
            1nat
        } else {
            0nat
        }
    }
}

/// `opens` counts a concatenation part by part.
pub proof fn lemma_opens_concat(a: Seq<char>, b: Seq<char>)
    ensures
        opens(a + b) == opens(a) + opens(b),
    decreases b.len(),
{
    if b.len() == 0 {
        assert(a + b =~= a);
    } else {
        assert((a + b).drop_last() =~= a + b.drop_last());
        lemma_opens_concat(a, b.drop_last());
    }
}

/// The `}` at `p` closes the `{` at `open`.
pub open spec fn closes(s: Seq<char>, open: int, p: int) -> bool {
    &&& 0 <= open <= p < s.len()
    &&& s[p] == '}'
    &&& depth(s.subrange(open, p + 1)) == 0
}

/// The least position at or after `p` whose `}` closes the `{` at `open`; the
/// length of `s` if none does.
pub open spec fn close_from(s: Seq<char>, open: int, p: int) -> int
    decreases s.len() - p,
{
    if p >= s.len() {
        s.len() as int
    } else if closes(s, open, p) {
        p
    } else {
        close_from(s, open, p + 1)
    }
}

/// Where the `{` at `open` is closed; the length of `s` if it never is.
pub open spec fn close_of(s: Seq<char>, open: int) -> int {
    close_from(s, open, open)
}

/// `close_from` stays within the text and gives a position that closes.
pub proof fn lemma_close_from(s: Seq<char>, open: int, p: int)
    requires
        0 <= open <= p <= s.len(),
    ensures
        p <= close_from(s, open, p) <= s.len(),
        close_from(s, open, p) < s.len() ==> closes(s, open, close_from(s, open, p)),
    decreases s.len() - p,
{
    if p < s.len() && !closes(s, open, p) {
        lemma_close_from(s, open, p + 1);
    }
}

/// Where the `{` at `open` is closed, if it is.
pub fn find_matching_close(s: &Vec<char>, open: usize) -> (r: Option<usize>)
    requires
        open <= s.len(),
    ensures
        r is Some <==> close_of(s@, open as int) < s.len(),
        r matches Some(p) ==> p == close_of(s@, open as int),
{
    let mut level: i128 = 0;
    let mut i: usize = open;
    while i < s.len()
        invariant
            open <= i <= s.len(),
            level == depth(s@.subrange(open as int, i as int)),
            -(i - open) <= level <= i - open,
            close_of(s@, open as int) == close_from(s@, open as int, i as int),
        decreases s.len() - i,
    {
        let c = s[i];
        proof {
            assert(s@.subrange(open as int, i + 1).drop_last() =~= s@.subrange(
                open as int,
                i as int,
            ));
        }
        if c == '{' {
            level += 1;
        } else if c == '}' {
            level -= 1;
            if level == 0 {
                return Some(i);
            }
        }
        i += 1;
    }
    None
}

/// Where the next comma outside braces stands at or after `from`; the length
/// of `s` if there is none.
pub open spec fn comma_from(s: Seq<char>, from: int) -> int
    decreases s.len() - from,
{
    if from >= s.len() {
        s.len() as int
    } else if s[from] == ',' && depth(s.take(from)) == 0 {
        from
    } else {
        comma_from(s, from + 1)
    }
}

/// The parts of `s` from `start` on, between the commas outside braces.
pub open spec fn alternatives(s: Seq<char>, start: int) -> Seq<Seq<char>>
    decreases s.len() - start,
{
    let i = comma_from(s, start);
    if start < 0 || i < start || i >= s.len() {
        seq![s.skip(start)]
    } else {
        seq![s.subrange(start, i)] + alternatives(s, i + 1)
    }
}

/// The parts of `s` between the commas outside braces.
pub fn split_top_level(s: &Vec<char>) -> (r: Vec<String>)
    ensures
        text::views(r@) == alternatives(s@, 0),
{
    let mut out: Vec<String> = Vec::new();
    let mut level: i128 = 0;
    let mut start: usize = 0;
    let mut i: usize = 0;
    while i < s.len()
        invariant
            start <= i <= s.len(),
            level == depth(s@.take(i as int)),
            -i <= level <= i,
            comma_from(s@, start as int) == comma_from(s@, i as int),
            alternatives(s@, 0) == text::views(out@) + alternatives(s@, start as int),
        decreases s.len() - i,
    {
        let c = s[i];
        proof {
            assert(s@.take(i + 1).drop_last() =~= s@.take(i as int));
        }
        if c == '{' {
            level += 1;
        } else if c == '}' {
            level -= 1;
        } else if c == ',' && level == 0 {
            let ghost before = text::views(out@);
            out.push(text::substring(s, start, i));
            proof {
                let part = s@.subrange(start as int, i as int);
                assert(comma_from(s@, start as int) == i);
                assert(text::views(out@) =~= before.push(part));
                assert(before + alternatives(s@, start as int) =~= text::views(out@) + alternatives(
                    s@,
                    i + 1,
                ));
            }
            start = i + 1;
        }
        i += 1;
    }
    let ghost before = text::views(out@);
    out.push(text::substring(s, start, s.len()));
    proof {
        assert(comma_from(s@, start as int) == s.len());
        assert(s@.subrange(start as int, s.len() as int) =~= s@.skip(start as int));
        assert(text::views(out@) =~= before.push(s@.skip(start as int)));
        assert(before + alternatives(s@, start as int) =~= text::views(out@));
    }
    out
}

/// `s` holds a pair of braces that match.
pub open spec fn has_alternation(s: Seq<char>) -> bool {
    let open = text::index_from(s, '{', 0);
    open < s.len() && close_of(s, open) < s.len()
}

/// The alternatives of the first pair of braces of `s`.
pub open spec fn first_alternatives(s: Seq<char>) -> Seq<Seq<char>> {
    let open = text::index_from(s, '{', 0);
    alternatives(s.subrange(open + 1, close_of(s, open)), 0)
}

/// `s` with its first pair of braces replaced by `alt`.
pub open spec fn with_alternative(s: Seq<char>, alt: Seq<char>) -> Seq<char> {
    let open = text::index_from(s, '{', 0);
    s.take(open) + alt + s.skip(close_of(s, open) + 1)
}

/// Every alternative of `s` from `start` on holds at most the `{` of `s`.
proof fn lemma_alternatives_opens(s: Seq<char>, start: int, k: int)
    requires
        0 <= start <= s.len(),
        0 <= k < alternatives(s, start).len(),
    ensures
        opens(alternatives(s, start)[k]) <= opens(s.skip(start)),
    decreases s.len() - start,
{
    let i = comma_from(s, start);
    lemma_comma_from(s, start);
    if i < s.len() {
        let rest = s.skip(start);
        assert(rest =~= s.subrange(start, i) + s.skip(i));
        lemma_opens_concat(s.subrange(start, i), s.skip(i));
        assert(s.skip(i) =~= s.subrange(i, i + 1) + s.skip(i + 1));
        lemma_opens_concat(s.subrange(i, i + 1), s.skip(i + 1));
        if k > 0 {
            lemma_alternatives_opens(s, i + 1, k - 1);
        }
    }
}

/// `comma_from` stays within the text.
proof fn lemma_comma_from(s: Seq<char>, from: int)
    requires
        0 <= from <= s.len(),
    ensures
        from <= comma_from(s, from) <= s.len(),
        comma_from(s, from) < s.len() ==> s[comma_from(s, from)] == ',',
    decreases s.len() - from,
{
    if from < s.len() && !(s[from] == ',' && depth(s.take(from)) == 0) {
        lemma_comma_from(s, from + 1);
    }
}

/// Putting an alternative in place of the first pair of braces leaves fewer
/// `{`.
pub proof fn lemma_with_alternative_opens(s: Seq<char>, k: int)
    requires
        has_alternation(s),
        0 <= k < first_alternatives(s).len(),
    ensures
        opens(with_alternative(s, first_alternatives(s)[k])) < opens(s),
{
    let open = text::index_from(s, '{', 0);
    let close = close_of(s, open);
    text::lemma_index_from(s, '{', 0);
    lemma_close_from(s, open, open);
    if close == open {
        assert(s[open] == '{');
    }
    let inner = s.subrange(open + 1, close);
    lemma_alternatives_opens(inner, 0, k);
    assert(inner.skip(0) =~= inner);
    let alt = first_alternatives(s)[k];
    lemma_opens_concat(s.take(open) + alt, s.skip(close + 1));
    lemma_opens_concat(s.take(open), alt);
    let a = s.take(open);
    let b = s.subrange(open, open + 1);
    let c = s.subrange(close, close + 1);
    let d = s.skip(close + 1);
    assert(s =~= a + b + inner + c + d);
    lemma_opens_concat(a + b + inner + c, d);
    lemma_opens_concat(a + b + inner, c);
    lemma_opens_concat(a + b, inner);
    lemma_opens_concat(a, b);
    assert(b.drop_last() =~= Seq::<char>::empty());
    assert(opens(b) == 1) by {
        assert(b.last() == '{');
        assert(opens(b.drop_last()) == 0);
    }
}

/// The patterns that the alternations of `s` stand for: its first pair of
/// braces is replaced by each of its alternatives in turn, and what results
/// is expanded likewise.
pub open spec fn expand(s: Seq<char>) -> Seq<Seq<char>>
    decreases opens(s), first_alternatives(s).len() + 1,
{
    if has_alternation(s) {
        expand_first(s, first_alternatives(s).len() as int)
    } else {
        seq![s]
    }
}

/// What the first `k` alternatives of the first pair of braces contribute.
pub open spec fn expand_first(s: Seq<char>, k: int) -> Seq<Seq<char>>
    decreases opens(s), k,
{
    if k <= 0 || k > first_alternatives(s).len() || !has_alternation(s) {
        seq![]
    } else {
        proof {
            lemma_with_alternative_opens(s, k - 1);
        }
        expand_first(s, k - 1) + expand(with_alternative(s, first_alternatives(s)[k - 1]))
    }
}

/// The patterns that the alternations of `pattern` stand for.
pub fn expand_braces(pattern: &str) -> (r: Vec<String>)
    ensures
        text::views(r@) == expand(pattern@),
    decreases opens(pattern@),
{
    let v = text::chars_of(pattern);
    let open = text::find_from(&v, '{', 0);
    let mut out: Vec<String> = Vec::new();
    if open == v.len() {
        out.push(pattern.to_owned());
        proof {
            assert(text::views(out@) =~= seq![pattern@]);
        }
        return out;
    }
    match find_matching_close(&v, open) {
        None => {
            out.push(pattern.to_owned());
            proof {
                assert(text::views(out@) =~= seq![pattern@]);
            }
            out
        },
        Some(close) => {
            proof {
                text::lemma_index_from(v@, '{', 0);
                lemma_close_from(v@, open as int, open as int);
                assert(v@[open as int] == '{');
                assert(close != open);
            }
            let prefix = text::substring(&v, 0, open);
            let suffix = text::substring(&v, close + 1, v.len());
            let inner = text::chars_of(text::substring(&v, open + 1, close).as_str());
            let alts = split_top_level(&inner);
            let mut i: usize = 0;
            proof {
                assert(text::views(out@) =~= expand_first(pattern@, 0));
            }
            while i < alts.len()
                invariant
                    i <= alts.len(),
                    has_alternation(pattern@),
                    text::views(alts@) == first_alternatives(pattern@),
                    prefix@ == pattern@.take(text::index_from(pattern@, '{', 0)),
                    suffix@ == pattern@.skip(close_of(pattern@, text::index_from(pattern@, '{', 0)) + 1),
                    text::views(out@) == expand_first(pattern@, i as int),
                decreases alts.len() - i,
            {
                let combined = prefix.clone().concat(alts[i].as_str()).concat(suffix.as_str());
                proof {
                    assert(alts[i as int]@ == first_alternatives(pattern@)[i as int]);
                    lemma_with_alternative_opens(pattern@, i as int);
                }
                let mut more = expand_braces(combined.as_str());
                let ghost before = out@;
                let ghost added = more@;
                out.append(&mut more);
                proof {
                    assert(text::views(out@) =~= text::views(before) + text::views(added));
                }
                i += 1;
            }
            out
        },
    }
}

// ---- the `glob` crate ----

#[verifier::external_type_specification]
#[verifier::external_body]
pub struct ExPattern(glob::Pattern);

#[verifier::external_type_specification]
#[verifier::external_body]
pub struct ExPatternError(glob::PatternError);

/// The text that a compiled pattern was made from (`glob::Pattern::as_str`).
pub uninterp spec fn pattern_source(p: glob::Pattern) -> Seq<char>;

/// Whether `glob::Pattern::new` accepts `text`, on a platform on which a backslash
/// separates path components, or on which it does not (`backslash`).
pub uninterp spec fn glob_valid(text: Seq<char>, backslash: bool) -> bool;

/// Whether the pattern `text` matches `path` (`glob::Pattern::matches_with`),
/// by the three fields of `glob::MatchOptions` in their order there, on a platform
/// on which a backslash separates path components, or on which it does not.
pub uninterp spec fn glob_matches(
    text: Seq<char>,
    path: Seq<char>,
    case_sensitive: bool,
    require_literal_separator: bool,
    require_literal_leading_dot: bool,
    backslash: bool,
) -> bool;

/// `s` holds no backslash. Whether a backslash separates path components
/// depends on the platform, so what the `glob` crate makes of one does too.
pub open spec fn portable(s: Seq<char>) -> bool {
    !s.contains('\\')
}

/// `glob::Pattern::new`: it accepts a text exactly if the text is valid on the
/// platform, and the pattern remembers its text. Which of the two kinds of platform
/// it is, is left unsaid; to a portable text it makes no difference.
#[verifier::external_body]
fn compile_pattern(text: &str) -> (r: Result<glob::Pattern, glob::PatternError>)
    ensures
        (r is Ok <==> glob_valid(text@, false)) || (r is Ok <==> glob_valid(text@, true)),
        portable(text@) ==> (r is Ok <==> glob_valid(text@, false)) && (r is Ok <==> glob_valid(
            text@,
            true,
        )),
        r matches Ok(p) ==> pattern_source(p) == text@,
{
    glob::Pattern::new(text)
}

/// `glob::Pattern::matches_with`: the answer depends on the pattern's text,
/// the path, the options, and whether a backslash separates on the platform. Which of
/// the two kinds of platform it is, is left unsaid; to a portable text and path it
/// makes no difference.
#[verifier::external_body]
fn pattern_matches(
    p: &glob::Pattern,
    path: &str,
    case_sensitive: bool,
    require_literal_separator: bool,
    require_literal_leading_dot: bool,
) -> (r: bool)
    ensures
        exists|backslash: bool|
            r == #[trigger] glob_matches(
                pattern_source(*p),
                path@,
                case_sensitive,
                require_literal_separator,
                require_literal_leading_dot,
                backslash,
            ),
        portable(pattern_source(*p)) && portable(path@) ==> forall|backslash: bool|
            r == #[trigger] glob_matches(
                pattern_source(*p),
                path@,
                case_sensitive,
                require_literal_separator,
                require_literal_leading_dot,
                backslash,
            ),
{
    let options = glob::MatchOptions {
        case_sensitive,
        require_literal_separator,
        require_literal_leading_dot,
    };
    p.matches_with(path, options)
}

// ---- the matcher ----

/// A pattern that cannot be compiled.
#[derive(Debug)]
pub struct GlobError {
    /// The pattern, after brace expansion and normalisation.
    pub pattern: String,
}

impl GlobError {
    /// The error as a message.
    pub fn message(&self) -> (r: String)
        ensures
            r@ == glob_error_text(self.pattern@),
    {
        String::from_str("invalid glob pattern: ").concat(self.pattern.as_str())
    }
}

/// The message for a pattern that cannot be compiled.
pub open spec fn glob_error_text(pattern: Seq<char>) -> Seq<char> {
    "invalid glob pattern: "@ + pattern
}

/// A pattern without `/` matches at any depth.
pub open spec fn normal(pattern: Seq<char>) -> Seq<char> {
    if pattern.contains('/') {
        pattern
    } else {
        "**/"@ + pattern
    }
}

/// A pattern without `/` matches at any depth.
pub fn normalize(pattern: &str) -> (r: String)
    ensures
        r@ == normal(pattern@),
{
    if text::has_char(pattern, '/') {
        pattern.to_owned()
    } else {
        String::from_str("**/").concat(pattern)
    }
}

/// An entry of a pattern list that is nothing but white space counts for
/// nothing.
pub open spec fn is_blank(entry: Seq<char>) -> bool {
    text::trim(entry).len() == 0
}

/// An entry that starts with `!` excludes.
pub open spec fn is_exclude(entry: Seq<char>) -> bool {
    text::trim(entry).len() > 0 && text::trim(entry)[0] == '!'
}

/// The pattern of an entry, without the mark of exclusion.
pub open spec fn entry_pattern(entry: Seq<char>) -> Seq<char> {
    if is_exclude(entry) {
        text::trim(text::trim(entry).skip(1))
    } else {
        text::trim(entry)
    }
}

/// Each of the patterns, normalised.
pub open spec fn normal_all(patterns: Seq<Seq<char>>) -> Seq<Seq<char>> {
    patterns.map_values(|p: Seq<char>| normal(p))
}

/// The patterns that an entry stands for.
pub open spec fn entry_texts(entry: Seq<char>) -> Seq<Seq<char>> {
    if is_blank(entry) {
        seq![]
    } else {
        normal_all(expand(entry_pattern(entry)))
    }
}

/// The patterns of all entries, in order.
pub open spec fn all_texts(entries: Seq<Seq<char>>) -> Seq<Seq<char>>
    decreases entries.len(),
{
    if entries.len() == 0 {
        seq![]
    } else {
        all_texts(entries.drop_last()) + entry_texts(entries.last())
    }
}

/// The patterns of the entries that exclude (`exclude`), or of those that
/// include, in order.
pub open spec fn texts_of(entries: Seq<Seq<char>>, exclude: bool) -> Seq<Seq<char>>
    decreases entries.len(),
{
    if entries.len() == 0 {
        seq![]
    } else {
        texts_of(entries.drop_last(), exclude) + if is_exclude(entries.last()) == exclude {
            entry_texts(entries.last())
        } else {
            seq![]
        }
    }
}

/// The text may be accepted: it is valid on one kind of platform, and on both if it
/// is portable.
pub open spec fn may_be_valid(text: Seq<char>) -> bool {
    if portable(text) {
        glob_valid(text, false) && glob_valid(text, true)
    } else {
        glob_valid(text, false) || glob_valid(text, true)
    }
}

/// The text may be refused: it is not valid on one kind of platform, and on neither
/// if it is portable.
pub open spec fn may_be_invalid(text: Seq<char>) -> bool {
    if portable(text) {
        !glob_valid(text, false) && !glob_valid(text, true)
    } else {
        !glob_valid(text, false) || !glob_valid(text, true)
    }
}

/// Each text may be accepted.
pub open spec fn all_valid(texts: Seq<Seq<char>>) -> bool {
    forall|i: int| 0 <= i < texts.len() ==> may_be_valid(#[trigger] texts[i])
}

/// `pattern` is the first of `texts` that is refused.
pub open spec fn first_invalid(texts: Seq<Seq<char>>, pattern: Seq<char>) -> bool {
    exists|k: int|
        0 <= k < texts.len() && #[trigger] texts[k] == pattern && all_valid(texts.take(k))
            && may_be_invalid(pattern)
}

/// Texts that are all portable and have a first that is not valid are not all
/// valid.
pub proof fn lemma_first_invalid(texts: Seq<Seq<char>>, pattern: Seq<char>)
    requires
        all_portable(texts),
        first_invalid(texts, pattern),
    ensures
        !all_valid(texts),
{
    let k = choose|k: int|
        0 <= k < texts.len() && #[trigger] texts[k] == pattern && all_valid(texts.take(k))
            && may_be_invalid(pattern);
    assert(portable(texts[k]));
    assert(!may_be_valid(texts[k]));
}

/// Pre-compiled glob matcher with include/exclude patterns.
///
/// Each entry supports:
/// - `*`, `?`, `**`, `[abc]`, `[!abc]`, `[a-z]`, by the `glob` crate
/// - `{a,b,c}`: brace alternation, expanded at build time (nested allowed)
/// - patterns without `/`, which match at any depth (`*.rs` is `**/*.rs`)
/// - a `!` in front, which marks an exclude
///
/// Any matching exclude removes the file regardless of the order of the
/// entries. If includes are present, a file must match at least one.
#[derive(Debug)]
pub struct Matcher {
    includes: Vec<glob::Pattern>,
    excludes: Vec<glob::Pattern>,
}

/// The texts of compiled patterns.
pub open spec fn sources(v: Seq<glob::Pattern>) -> Seq<Seq<char>> {
    Seq::new(v.len(), |i: int| pattern_source(v[i]))
}

/// The pattern matches `path`: case counts, `*` and `?` stop at `/`, and a leading
/// dot is nothing special.
pub open spec fn hits(text: Seq<char>, path: Seq<char>, backslash: bool) -> bool {
    glob_matches(text, path, true, true, false, backslash)
}

/// One of the patterns matches `path`.
pub open spec fn any_matches(texts: Seq<Seq<char>>, path: Seq<char>, backslash: bool) -> bool {
    exists|i: int| 0 <= i < texts.len() && hits(#[trigger] texts[i], path, backslash)
}

/// Whether a path passes, given whether there are includes, and whether one of
/// the includes and one of the excludes matches it.
pub open spec fn verdict(has_includes: bool, included: bool, excluded: bool) -> bool {
    (has_includes ==> included) && !excluded
}

/// Whether a path passes, given whether there are includes, and whether one of
/// the includes and one of the excludes matches it.
pub fn decide(has_includes: bool, included: bool, excluded: bool) -> (r: bool)
    ensures
        r == verdict(has_includes, included, excluded),
{
    (!has_includes || included) && !excluded
}

/// A path passes if it matches an include, or there is none, and matches no
/// exclude.
pub open spec fn passes(
    included: Seq<Seq<char>>,
    excluded: Seq<Seq<char>>,
    path: Seq<char>,
    backslash: bool,
) -> bool {
    verdict(
        included.len() > 0,
        any_matches(included, path, backslash),
        any_matches(excluded, path, backslash),
    )
}

/// The answer may be that the pattern matches `path`: it does on one kind of
/// platform.
pub open spec fn may_hit(text: Seq<char>, path: Seq<char>) -> bool {
    hits(text, path, false) || hits(text, path, true)
}

/// The answer may be that the pattern does not match `path`: it does not on one kind
/// of platform.
pub open spec fn may_miss(text: Seq<char>, path: Seq<char>) -> bool {
    !hits(text, path, false) || !hits(text, path, true)
}

/// What the answer may be to whether one of the patterns matches `path`.
pub open spec fn may_answer(texts: Seq<Seq<char>>, path: Seq<char>, hit: bool) -> bool {
    if hit {
        exists|i: int| 0 <= i < texts.len() && may_hit(#[trigger] texts[i], path)
    } else {
        forall|i: int| 0 <= i < texts.len() ==> may_miss(#[trigger] texts[i], path)
    }
}

/// None of the texts holds a backslash.
pub open spec fn all_portable(texts: Seq<Seq<char>>) -> bool {
    forall|i: int| 0 <= i < texts.len() ==> portable(#[trigger] texts[i])
}

impl Matcher {
    /// The texts of the include patterns.
    pub closed spec fn included(&self) -> Seq<Seq<char>> {
        sources(self.includes@)
    }

    /// The texts of the exclude patterns.
    pub closed spec fn excluded(&self) -> Seq<Seq<char>> {
        sources(self.excludes@)
    }

    /// No pattern holds a backslash.
    pub open spec fn is_portable(&self) -> bool {
        all_portable(self.included()) && all_portable(self.excluded())
    }

    /// Does `path` pass, on a platform on which a backslash separates path
    /// components, or on which it does not?
    pub open spec fn accepts(&self, path: Seq<char>, backslash: bool) -> bool {
        passes(self.included(), self.excluded(), path, backslash)
    }

    /// What building a matcher from `entries` may give: the matcher of their
    /// patterns if all of them are valid, else the first that is not.
    pub open spec fn built(entries: Seq<Seq<char>>, r: Result<Matcher, GlobError>) -> bool {
        match r {
            Ok(m) => {
                &&& all_valid(all_texts(entries))
                &&& m.included() == texts_of(entries, false)
                &&& m.excluded() == texts_of(entries, true)
            },
            Err(e) => first_invalid(all_texts(entries), e.pattern@),
        }
    }

    /// Build a matcher from a list of patterns. Entries that start with `!`
    /// are excludes; others are includes. Each entry may use `{a,b}` brace
    /// alternation, which is expanded first.
    pub fn new(patterns: &Vec<String>) -> (r: Result<Matcher, GlobError>)
        ensures
            Matcher::built(text::views(patterns@), r),
    {
        let mut includes: Vec<glob::Pattern> = Vec::new();
        let mut excludes: Vec<glob::Pattern> = Vec::new();
        let mut i: usize = 0;
        let ghost entries = text::views(patterns@);
        while i < patterns.len()
            invariant
                i <= patterns.len(),
                entries == text::views(patterns@),
                sources(includes@) == texts_of(entries.take(i as int), false),
                sources(excludes@) == texts_of(entries.take(i as int), true),
                all_valid(all_texts(entries.take(i as int))),
            decreases patterns.len() - i,
        {
            let ghost entry = patterns[i as int]@;
            let ghost done = all_texts(entries.take(i as int));
            proof {
                assert(entries.take(i + 1).drop_last() =~= entries.take(i as int));
                assert(entries.take(i + 1).last() == entry);
                lemma_all_texts_prefix(entries, i + 1);
            }
            let trimmed = text::trimmed(patterns[i].as_str());
            if trimmed.as_str().is_empty() {
                proof {
                    assert(done + entry_texts(entry) =~= done);
                    assert(sources(includes@) + seq![] =~= sources(includes@));
                    assert(sources(excludes@) + seq![] =~= sources(excludes@));
                }
            } else {
                let v = text::chars_of(trimmed.as_str());
                let exclude = v[0] == '!';
                let body = if exclude {
                    let rest = text::substring(&v, 1, v.len());
                    proof {
                        assert(v@.subrange(1, v@.len() as int) =~= v@.skip(1));
                    }
                    text::trimmed(rest.as_str())
                } else {
                    trimmed
                };
                let expanded = expand_braces(body.as_str());
                match compile_all(&expanded) {
                    Ok(mut compiled) => {
                        let ghost made = sources(compiled@);
                        let ghost inc = includes@;
                        let ghost exc = excludes@;
                        if exclude {
                            excludes.append(&mut compiled);
                            proof {
                                assert(sources(excludes@) =~= sources(exc) + made);
                                assert(sources(includes@) + seq![] =~= sources(includes@));
                            }
                        } else {
                            includes.append(&mut compiled);
                            proof {
                                assert(sources(includes@) =~= sources(inc) + made);
                                assert(sources(excludes@) + seq![] =~= sources(excludes@));
                            }
                        }
                        proof {
                            let all = done + entry_texts(entry);
                            assert forall|k: int| 0 <= k < all.len() implies may_be_valid(
                                #[trigger] all[k],
                            ) by {
                                if k < done.len() {
                                    assert(all[k] == done[k]);
                                } else {
                                    assert(all[k] == entry_texts(entry)[k - done.len()]);
                                }
                            }
                        }
                    },
                    Err(e) => {
                        proof {
                            let own = entry_texts(entry);
                            let k = choose|k: int|
                                0 <= k < own.len() && #[trigger] own[k] == e.pattern@ && all_valid(
                                    own.take(k),
                                ) && may_be_invalid(e.pattern@);
                            let all = all_texts(entries);
                            let upto = all_texts(entries.take(i + 1));
                            assert(upto == done + own);
                            assert(upto == all.subrange(0, upto.len() as int));
                            assert(all[done.len() + k] == upto[done.len() + k]);
                            let front = all.take(done.len() + k);
                            assert forall|j: int| 0 <= j < front.len() implies may_be_valid(
                                #[trigger] front[j],
                            ) by {
                                assert(front[j] == upto[j]);
                                if j < done.len() {
                                    assert(front[j] == done[j]);
                                } else {
                                    assert(front[j] == own.take(k)[j - done.len()]);
                                }
                            }
                        }
                        return Err(e);
                    },
                }
            }
            i += 1;
        }
        proof {
            assert(entries.take(i as int) =~= entries);
        }
        Ok(Matcher { includes, excludes })
    }

    /// Whether `path` may pass (`r`), or not: as `decide` says, by what the answers
    /// of the patterns may be.
    pub open spec fn may_accept(&self, path: Seq<char>, r: bool) -> bool {
        exists|i: bool, x: bool|
            #[trigger] may_answer(self.included(), path, i) && #[trigger] may_answer(
                self.excluded(),
                path,
                x,
            ) && r == verdict(self.included().len() > 0, i, x)
    }

    /// What the answer may be to whether `path` passes: one that the patterns allow,
    /// and the only one where the platform makes no difference.
    pub open spec fn may_give(&self, path: Seq<char>, r: bool) -> bool {
        &&& self.may_accept(path, r)
        &&& self.is_portable() && portable(path) ==> forall|backslash: bool|
            r == #[trigger] self.accepts(path, backslash)
    }

    /// Does `path` pass?
    pub fn is_match(&self, path: &str) -> (r: bool)
        ensures
            self.may_give(path@, r),
    {
        let included = any_of(&self.includes, path);
        let excluded = any_of(&self.excludes, path);
        let has_includes = self.includes.len() > 0;
        proof {
            assert(has_includes == (self.included().len() > 0));
            assert(may_answer(self.included(), path@, included));
            assert(may_answer(self.excluded(), path@, excluded));
        }
        decide(has_includes, included, excluded)
    }

    /// Has it no pattern at all?
    pub fn is_empty(&self) -> (r: bool)
        ensures
            r == (self.included().len() == 0 && self.excluded().len() == 0),
    {
        self.includes.len() == 0 && self.excludes.len() == 0
    }
}

/// The patterns of the first entries come first.
proof fn lemma_all_texts_prefix(entries: Seq<Seq<char>>, n: int)
    requires
        0 <= n <= entries.len(),
    ensures
        all_texts(entries.take(n)).is_prefix_of(all_texts(entries)),
    decreases entries.len() - n,
{
    if n == entries.len() {
        assert(entries.take(n) =~= entries);
        assert(all_texts(entries) =~= all_texts(entries).subrange(
            0,
            all_texts(entries).len() as int,
        ));
    } else {
        lemma_all_texts_prefix(entries, n + 1);
        assert(entries.take(n + 1).drop_last() =~= entries.take(n));
        let a = all_texts(entries.take(n));
        let b = all_texts(entries.take(n + 1));
        let c = all_texts(entries);
        assert(a =~= c.subrange(0, a.len() as int)) by {
            assert forall|j: int| 0 <= j < a.len() implies a[j] == c[j] by {
                assert(a[j] == b[j]);
                assert(b[j] == c.subrange(0, b.len() as int)[j]);
            }
        }
    }
}

/// Each of the patterns normalised and compiled, or the first that cannot be.
fn compile_all(patterns: &Vec<String>) -> (r: Result<Vec<glob::Pattern>, GlobError>)
    ensures
        match r {
            Ok(v) => sources(v@) == normal_all(text::views(patterns@)) && all_valid(
                normal_all(text::views(patterns@)),
            ),
            Err(e) => first_invalid(normal_all(text::views(patterns@)), e.pattern@),
        },
{
    let mut out: Vec<glob::Pattern> = Vec::new();
    let mut i: usize = 0;
    let ghost texts = normal_all(text::views(patterns@));
    while i < patterns.len()
        invariant
            i <= patterns.len(),
            texts == normal_all(text::views(patterns@)),
            sources(out@) == texts.take(i as int),
            all_valid(texts.take(i as int)),
        decreases patterns.len() - i,
    {
        let normalized = normalize(patterns[i].as_str());
        proof {
            assert(texts[i as int] == normalized@);
        }
        match compile_pattern(normalized.as_str()) {
            Ok(p) => {
                let ghost before = out@;
                out.push(p);
                proof {
                    assert(sources(out@) =~= sources(before).push(normalized@));
                    assert(texts.take(i + 1) =~= texts.take(i as int).push(normalized@));
                    assert forall|k: int| 0 <= k < i + 1 implies may_be_valid(
                        #[trigger] texts.take(i + 1)[k],
                    ) by {
                        if k < i {
                            assert(texts.take(i + 1)[k] == texts.take(i as int)[k]);
                        }
                    }
                }
            },
            Err(_) => {
                return Err(GlobError { pattern: normalized });
            },
        }
        i += 1;
    }
    proof {
        assert(texts.take(i as int) =~= texts);
    }
    Ok(out)
}

/// Does one of the patterns match `path`?
fn any_of(patterns: &Vec<glob::Pattern>, path: &str) -> (r: bool)
    ensures
        may_answer(sources(patterns@), path@, r),
        all_portable(sources(patterns@)) && portable(path@) ==> forall|backslash: bool|
            r == #[trigger] any_matches(sources(patterns@), path@, backslash),
{
    let ghost texts = sources(patterns@);
    let mut i: usize = 0;
    while i < patterns.len()
        invariant
            i <= patterns.len(),
            texts == sources(patterns@),
            forall|j: int| 0 <= j < i ==> may_miss(#[trigger] texts[j], path@),
            all_portable(texts) && portable(path@) ==> forall|j: int, backslash: bool|
                0 <= j < i ==> !#[trigger] hits(texts[j], path@, backslash),
        decreases patterns.len() - i,
    {
        let ghost text = texts[i as int];
        proof {
            assert(text == pattern_source(patterns[i as int]));
        }
        let hit = pattern_matches(&patterns[i], path, true, true, false);
        proof {
            assert(hit == hits(text, path@, false) || hit == hits(text, path@, true)) by {
                let b = choose|b: bool|
                    hit == #[trigger] glob_matches(text, path@, true, true, false, b);
                assert(b == true || b == false);
            }
            if portable(text) && portable(path@) {
                assert forall|b: bool| hit == #[trigger] hits(text, path@, b) by {
                    assert(hit == glob_matches(text, path@, true, true, false, b));
                }
            }
        }
        if hit {
            proof {
                assert(may_hit(texts[i as int], path@));
            }
            return true;
        }
        i += 1;
    }
    false
}

// ---- laws ----

/// Text in front that holds no brace does not change where `s` opens and
/// closes, nor what its alternatives are.
proof fn lemma_front(q: Seq<char>, s: Seq<char>)
    requires
        !q.contains('{'),
    ensures
        has_alternation(q + s) == has_alternation(s),
        has_alternation(s) ==> first_alternatives(q + s) == first_alternatives(s),
        has_alternation(s) ==> forall|alt: Seq<char>|
            with_alternative(q + s, alt) == q + #[trigger] with_alternative(s, alt),
{
    let n = q.len() as int;
    let open = text::index_from(s, '{', 0);
    text::lemma_index_from(s, '{', 0);
    let t = q + s;
    assert forall|j: int| 0 <= j < n + open implies t[j] != '{' by {
        if j < n {
            assert(q.contains(q[j]));
        } else {
            assert(t[j] == s[j - n]);
        }
    }
    text::lemma_index_is(t, '{', 0, n + open);
    if open < s.len() {
        lemma_front_close(q, s, open, open);
        lemma_close_from(s, open, open);
        let close = close_of(s, open);
        if close < s.len() {
            assert(t.subrange(n + open + 1, n + close) =~= s.subrange(open + 1, close));
            assert forall|alt: Seq<char>|
                with_alternative(t, alt) == q + #[trigger] with_alternative(s, alt) by {
                assert(with_alternative(t, alt) =~= q + with_alternative(s, alt));
            }
        }
    }
}

/// `close_from` moves along with text put in front.
proof fn lemma_front_close(q: Seq<char>, s: Seq<char>, open: int, p: int)
    requires
        0 <= open <= p <= s.len(),
    ensures
        close_from(q + s, q.len() + open, q.len() + p) == q.len() + close_from(s, open, p),
    decreases s.len() - p,
{
    let n = q.len() as int;
    if p < s.len() {
        assert((q + s).subrange(n + open, n + p + 1) =~= s.subrange(open, p + 1));
        assert(closes(q + s, n + open, n + p) == closes(s, open, p));
        if !closes(s, open, p) {
            lemma_front_close(q, s, open, p + 1);
        }
    }
}

/// `q` in front of each of the texts.
pub open spec fn each_after(q: Seq<char>, texts: Seq<Seq<char>>) -> Seq<Seq<char>> {
    texts.map_values(|t: Seq<char>| q + t)
}

/// Brace expansion leaves text in front, without an opening brace, as it is:
/// the patterns of `q` followed by `s` are `q` followed by the patterns of
/// `s`.
pub proof fn lemma_expand_front(q: Seq<char>, s: Seq<char>)
    requires
        !q.contains('{'),
    ensures
        expand(q + s) == each_after(q, expand(s)),
    decreases opens(s), first_alternatives(s).len() + 1,
{
    lemma_front(q, s);
    if has_alternation(s) {
        lemma_expand_first_front(q, s, first_alternatives(s).len() as int);
    } else {
        assert(each_after(q, seq![s]) =~= seq![q + s]);
    }
}

proof fn lemma_expand_first_front(q: Seq<char>, s: Seq<char>, k: int)
    requires
        !q.contains('{'),
        has_alternation(s),
        0 <= k <= first_alternatives(s).len(),
    ensures
        expand_first(q + s, k) == each_after(q, expand_first(s, k)),
    decreases opens(s), k,
{
    lemma_front(q, s);
    if k == 0 {
        assert(each_after(q, seq![]) =~= seq![]);
    } else {
        lemma_with_alternative_opens(s, k - 1);
        lemma_expand_first_front(q, s, k - 1);
        let w = with_alternative(s, first_alternatives(s)[k - 1]);
        lemma_expand_front(q, w);
        assert(each_after(q, expand_first(s, k - 1) + expand(w)) =~= each_after(
            q,
            expand_first(s, k - 1),
        ) + each_after(q, expand(w)));
    }
}

/// Brace expansion makes up no character: what stands in a pattern of `s`
/// stands in `s`.
pub proof fn lemma_expand_chars(s: Seq<char>, k: int, c: char)
    requires
        0 <= k < expand(s).len(),
        expand(s)[k].contains(c),
    ensures
        s.contains(c),
    decreases opens(s), first_alternatives(s).len() + 1,
{
    if has_alternation(s) {
        lemma_expand_first_chars(s, first_alternatives(s).len() as int, k, c);
    }
}

proof fn lemma_expand_first_chars(s: Seq<char>, n: int, k: int, c: char)
    requires
        has_alternation(s),
        0 <= n <= first_alternatives(s).len(),
        0 <= k < expand_first(s, n).len(),
        expand_first(s, n)[k].contains(c),
    ensures
        s.contains(c),
    decreases opens(s), n,
{
    if n > 0 {
        let m = expand_first(s, n - 1).len() as int;
        if k < m {
            lemma_expand_first_chars(s, n - 1, k, c);
        } else {
            lemma_with_alternative_opens(s, n - 1);
            let alt = first_alternatives(s)[n - 1];
            let w = with_alternative(s, alt);
            assert(expand_first(s, n)[k] == expand(w)[k - m]);
            lemma_expand_chars(w, k - m, c);
            let open = text::index_from(s, '{', 0);
            let close = close_of(s, open);
            text::lemma_index_from(s, '{', 0);
            lemma_close_from(s, open, open);
            let inner = s.subrange(open + 1, close);
            let j = choose|j: int| 0 <= j < w.len() && w[j] == c;
            if j < open {
                assert(s[j] == c);
            } else if j < open + alt.len() {
                assert(alt[j - open] == c);
                assert(s[open] == '{');
                lemma_alternative_chars(inner, 0, n - 1, c);
                let i = choose|i: int| 0 <= i < inner.len() && inner[i] == c;
                assert(s[open + 1 + i] == c);
            } else {
                assert(s[j - open - alt.len() + close + 1] == c);
            }
        }
    }
}

proof fn lemma_alternative_chars(s: Seq<char>, start: int, k: int, c: char)
    requires
        0 <= start <= s.len(),
        0 <= k < alternatives(s, start).len(),
        alternatives(s, start)[k].contains(c),
    ensures
        s.contains(c),
    decreases s.len() - start,
{
    let i = comma_from(s, start);
    lemma_comma_from(s, start);
    let part = alternatives(s, start)[k];
    let j = choose|j: int| 0 <= j < part.len() && part[j] == c;
    if i >= s.len() {
        assert(s[start + j] == c);
    } else if k == 0 {
        assert(s[start + j] == c);
    } else {
        lemma_alternative_chars(s, i + 1, k - 1, c);
    }
}

/// Alternations are expanded to the end, nested ones too: none is left in the
/// patterns that a pattern stands for. There is at least one such pattern.
pub proof fn law_expansion_is_complete(s: Seq<char>)
    ensures
        expand(s).len() > 0,
        forall|k: int| 0 <= k < expand(s).len() ==> !has_alternation(#[trigger] expand(s)[k]),
    decreases opens(s), first_alternatives(s).len() + 1,
{
    if has_alternation(s) {
        lemma_expand_first_is_complete(s, first_alternatives(s).len() as int);
    }
}

proof fn lemma_expand_first_is_complete(s: Seq<char>, n: int)
    requires
        has_alternation(s),
        0 <= n <= first_alternatives(s).len(),
    ensures
        n > 0 ==> expand_first(s, n).len() > 0,
        forall|k: int|
            0 <= k < expand_first(s, n).len() ==> !has_alternation(#[trigger] expand_first(s, n)[k]),
    decreases opens(s), n,
{
    if n > 0 {
        lemma_with_alternative_opens(s, n - 1);
        lemma_expand_first_is_complete(s, n - 1);
        let before = expand_first(s, n - 1);
        let w = with_alternative(s, first_alternatives(s)[n - 1]);
        law_expansion_is_complete(w);
        assert forall|k: int| 0 <= k < expand_first(s, n).len() implies !has_alternation(
            #[trigger] expand_first(s, n)[k],
        ) by {
            if k < before.len() {
                assert(expand_first(s, n)[k] == before[k]);
            } else {
                assert(expand_first(s, n)[k] == expand(w)[k - before.len()]);
            }
        }
    }
}

/// A bare pattern matches at any depth: `p` without `/` stands for the same
/// patterns as `**/p`.
proof fn lemma_bare(p: Seq<char>)
    requires
        !p.contains('/'),
    ensures
        normal_all(expand("**/"@ + p)) == normal_all(expand(p)),
{
    reveal_strlit("**/");
    let q = "**/"@;
    let s = q + p;
    assert(!q.contains('{'));
    lemma_expand_front(q, p);
    assert forall|k: int| 0 <= k < expand(p).len() implies normal(
        #[trigger] expand(s)[k],
    ) == normal(expand(p)[k]) by {
        if expand(p)[k].contains('/') {
            lemma_expand_chars(p, k, '/');
        }
        assert(expand(s)[k] == q + expand(p)[k]);
        assert(expand(s)[k][2] == '/');
        assert(expand(s)[k].contains('/'));
    }
    assert(normal_all(expand(s)) =~= normal_all(expand(p)));
}

/// What begins and ends in something else than white space has none to trim.
proof fn lemma_nothing_to_trim(s: Seq<char>)
    requires
        s.len() > 0,
        !text::is_space(s[0]),
        !text::is_space(s.last()),
    ensures
        text::trim(s) == s,
{
    assert(text::trim_start(s) == s);
    assert(text::trim_end(s) == s);
}

/// What a pattern with nothing to trim stands for, as an include and as an exclude.
proof fn lemma_marked(p: Seq<char>)
    requires
        p.len() > 0,
        p[0] != '!',
        !text::is_space(p[0]),
        !text::is_space(p.last()),
    ensures
        entry_texts(p) == normal_all(expand(p)),
        !is_exclude(p),
        entry_texts("!"@ + p) == normal_all(expand(p)),
        is_exclude("!"@ + p),
{
    reveal_strlit("!");
    let not_p = "!"@ + p;
    assert(not_p[0] == '!' && not_p.last() == p.last());
    lemma_nothing_to_trim(p);
    lemma_nothing_to_trim(not_p);
    assert(not_p.skip(1) =~= p);
}

/// A bare pattern matches at any depth: an entry `p` without `/` stands for
/// the same patterns as the entry `**/p`, and `!p` for the same as `!**/p`.
pub proof fn law_bare_pattern(p: Seq<char>)
    requires
        text::trim(p) == p,
        !is_blank(p),
        !is_exclude(p),
        !p.contains('/'),
    ensures
        entry_texts("**/"@ + p) == entry_texts(p),
        !is_exclude("**/"@ + p),
        entry_texts("!"@ + ("**/"@ + p)) == entry_texts("!"@ + p),
        is_exclude("!"@ + ("**/"@ + p)) && is_exclude("!"@ + p),
{
    reveal_strlit("**/");
    let s = "**/"@ + p;
    text::lemma_trim_start(p);
    text::lemma_trim_end(text::trim_start(p));
    assert(p.last() == text::trim(p).last());
    assert(s[0] == '*' && s.last() == p.last());
    lemma_bare(p);
    lemma_marked(p);
    lemma_marked(s);
}

/// A bare pattern matches at any depth: the matchers of `p`, without `/`, and of
/// `**/p` let the same paths pass on either kind of platform, and may give the same
/// answers; and so do those of `!p` and `!**/p`.
pub proof fn law_bare_matcher(
    p: Seq<char>,
    exclude: bool,
    bare: Matcher,
    deep: Matcher,
    path: Seq<char>,
)
    requires
        text::trim(p) == p,
        !is_blank(p),
        !is_exclude(p),
        !p.contains('/'),
        Matcher::built(seq![marked(p, exclude)], Ok::<Matcher, GlobError>(bare)),
        Matcher::built(seq![marked("**/"@ + p, exclude)], Ok::<Matcher, GlobError>(deep)),
    ensures
        forall|backslash: bool| #[trigger]
            bare.accepts(path, backslash) == deep.accepts(path, backslash),
        forall|r: bool| #[trigger] bare.may_accept(path, r) == deep.may_accept(path, r),
        bare.is_portable() == deep.is_portable(),
{
    law_bare_pattern(p);
    lemma_single_texts(marked(p, exclude));
    lemma_single_texts(marked("**/"@ + p, exclude));
    assert(bare.included() =~= deep.included());
    assert(bare.excluded() =~= deep.excluded());
}

/// The entry that includes or excludes what `p` matches.
pub open spec fn marked(p: Seq<char>, exclude: bool) -> Seq<char> {
    if exclude {
        "!"@ + p
    } else {
        p
    }
}

/// The patterns of a list of one entry.
proof fn lemma_single_texts(entry: Seq<char>)
    ensures
        texts_of(seq![entry], is_exclude(entry)) == entry_texts(entry),
        texts_of(seq![entry], !is_exclude(entry)).len() == 0,
        is_blank(entry) == (entry_texts(entry).len() == 0),
{
    let one = seq![entry];
    reveal_with_fuel(texts_of, 2);
    assert(one.drop_last() =~= Seq::<Seq<char>>::empty());
    assert(one.last() == entry);
    assert(texts_of(one, is_exclude(entry)) =~= entry_texts(entry));
    if !is_blank(entry) {
        law_expansion_is_complete(entry_pattern(entry));
    }
}

/// A pattern of the list is one of an entry of that kind.
proof fn lemma_entry_of_text(entries: Seq<Seq<char>>, exclude: bool, k: int) -> (i: int)
    requires
        0 <= k < texts_of(entries, exclude).len(),
    ensures
        0 <= i < entries.len(),
        is_exclude(entries[i]) == exclude,
        entry_texts(entries[i]).contains(texts_of(entries, exclude)[k]),
{
    let t = texts_of(entries, exclude)[k];
    assert(texts_of(entries, exclude).contains(t));
    lemma_texts_of_contains(entries, exclude, t);
    choose|i: int|
        0 <= i < entries.len() && is_exclude(#[trigger] entries[i]) == exclude && entry_texts(
            entries[i],
        ).contains(t)
}

/// A pattern of an entry of that kind is one of the list.
proof fn lemma_text_of_entry(entries: Seq<Seq<char>>, i: int, j: int) -> (k: int)
    requires
        0 <= i < entries.len(),
        0 <= j < entry_texts(entries[i]).len(),
    ensures
        0 <= k < texts_of(entries, is_exclude(entries[i])).len(),
        texts_of(entries, is_exclude(entries[i]))[k] == entry_texts(entries[i])[j],
{
    let all = texts_of(entries, is_exclude(entries[i]));
    let t = entry_texts(entries[i])[j];
    assert(entry_texts(entries[i]).contains(t));
    lemma_texts_of_contains(entries, is_exclude(entries[i]), t);
    choose|k: int| 0 <= k < all.len() && all[k] == t
}

/// An entry that lets only the paths pass that it matches.
pub open spec fn is_include(entry: Seq<char>) -> bool {
    !is_blank(entry) && !is_exclude(entry)
}

/// There is an include.
pub open spec fn has_include(entries: Seq<Seq<char>>) -> bool {
    exists|i: int| 0 <= i < entries.len() && is_include(#[trigger] entries[i])
}

/// Whether a path passes, by whether it passes each of the entries alone: it passes
/// one of the includes, where there are some, and every exclude.
pub open spec fn combined(entries: Seq<Seq<char>>, passed: Seq<bool>) -> bool {
    &&& has_include(entries) ==> exists|i: int|
        0 <= i < entries.len() && is_include(#[trigger] entries[i]) && passed[i]
    &&& forall|i: int| 0 <= i < entries.len() && is_exclude(#[trigger] entries[i]) ==> passed[i]
}

/// The matchers are those of the single entries.
pub open spec fn are_singles(singles: Seq<Matcher>, entries: Seq<Seq<char>>) -> bool {
    &&& singles.len() == entries.len()
    &&& forall|i: int|
        0 <= i < entries.len() ==> Matcher::built(
            seq![#[trigger] entries[i]],
            Ok::<Matcher, GlobError>(singles[i]),
        )
}

/// The patterns of the matcher of one entry.
proof fn lemma_single(entry: Seq<char>, m: Matcher)
    requires
        Matcher::built(seq![entry], Ok::<Matcher, GlobError>(m)),
    ensures
        is_include(entry) ==> m.included() == entry_texts(entry) && m.included().len() > 0
            && m.excluded().len() == 0,
        is_exclude(entry) ==> m.included().len() == 0 && m.excluded() == entry_texts(entry),
        !is_include(entry) && !is_exclude(entry) ==> m.included().len() == 0
            && m.excluded().len() == 0,
{
    lemma_single_texts(entry);
}

proof fn lemma_has_include(entries: Seq<Seq<char>>)
    ensures
        has_include(entries) == (texts_of(entries, false).len() > 0),
{
    if has_include(entries) {
        let i = choose|i: int| 0 <= i < entries.len() && is_include(#[trigger] entries[i]);
        lemma_single_texts(entries[i]);
        let k = lemma_text_of_entry(entries, i, 0);
    }
    if texts_of(entries, false).len() > 0 {
        let i = lemma_entry_of_text(entries, false, 0);
        lemma_single_texts(entries[i]);
        assert(is_include(entries[i]));
    }
}

/// A matcher answers as the matchers of its single entries do, on either kind of
/// platform: a path passes if the matcher of one of the includes lets it pass, where
/// there are includes, and the matcher of every exclude does. So excludes always win,
/// and the order of the entries does not matter.
pub proof fn law_single_entries(
    entries: Seq<Seq<char>>,
    m: Matcher,
    singles: Seq<Matcher>,
    path: Seq<char>,
    backslash: bool,
)
    requires
        Matcher::built(entries, Ok::<Matcher, GlobError>(m)),
        are_singles(singles, entries),
    ensures
        m.accepts(path, backslash) == combined(
            entries,
            Seq::new(entries.len(), |i: int| singles[i].accepts(path, backslash)),
        ),
{
    let passed = Seq::new(entries.len(), |i: int| singles[i].accepts(path, backslash));
    lemma_has_include(entries);
    assert forall|i: int| 0 <= i < entries.len() implies {
        &&& is_include(#[trigger] entries[i]) ==> passed[i] == any_matches(
            entry_texts(entries[i]),
            path,
            backslash,
        )
        &&& is_exclude(entries[i]) ==> passed[i] == !any_matches(
            entry_texts(entries[i]),
            path,
            backslash,
        )
    } by {
        assert(Matcher::built(seq![entries[i]], Ok::<Matcher, GlobError>(singles[i])));
        lemma_single(entries[i], singles[i]);
        lemma_single_texts(entries[i]);
        assert(singles[i].accepts(path, backslash) == passed[i]);
    }
    let inc = texts_of(entries, false);
    let exc = texts_of(entries, true);
    if any_matches(inc, path, backslash) {
        let k = choose|k: int| 0 <= k < inc.len() && hits(#[trigger] inc[k], path, backslash);
        let i = lemma_entry_of_text(entries, false, k);
        lemma_single_texts(entries[i]);
        let own = entry_texts(entries[i]);
        let j = choose|j: int| 0 <= j < own.len() && own[j] == inc[k];
        assert(hits(own[j], path, backslash));
        assert(is_include(entries[i]) && passed[i]);
    }
    if exists|i: int| 0 <= i < entries.len() && is_include(#[trigger] entries[i]) && passed[i] {
        let i = choose|i: int|
            0 <= i < entries.len() && is_include(#[trigger] entries[i]) && passed[i];
        let own = entry_texts(entries[i]);
        let j = choose|j: int| 0 <= j < own.len() && hits(#[trigger] own[j], path, backslash);
        let k = lemma_text_of_entry(entries, i, j);
        assert(hits(inc[k], path, backslash));
    }
    if any_matches(exc, path, backslash) {
        let k = choose|k: int| 0 <= k < exc.len() && hits(#[trigger] exc[k], path, backslash);
        let i = lemma_entry_of_text(entries, true, k);
        let own = entry_texts(entries[i]);
        let j = choose|j: int| 0 <= j < own.len() && own[j] == exc[k];
        assert(hits(own[j], path, backslash));
        assert(is_exclude(entries[i]) && !passed[i]);
    }
    if exists|i: int| 0 <= i < entries.len() && is_exclude(#[trigger] entries[i]) && !passed[i] {
        let i = choose|i: int|
            0 <= i < entries.len() && is_exclude(#[trigger] entries[i]) && !passed[i];
        let own = entry_texts(entries[i]);
        let j = choose|j: int| 0 <= j < own.len() && hits(#[trigger] own[j], path, backslash);
        let k = lemma_text_of_entry(entries, i, j);
        assert(hits(exc[k], path, backslash));
    }
}

/// The answers that the matchers of the single entries may give.
pub open spec fn may_pass(singles: Seq<Matcher>, path: Seq<char>, passed: Seq<bool>) -> bool {
    &&& passed.len() == singles.len()
    &&& forall|i: int|
        0 <= i < singles.len() ==> (#[trigger] singles[i]).may_accept(path, passed[i])
}

/// Whatever the platform makes of a backslash, a matcher answers as the matchers of
/// its single entries do: it may give an answer exactly if they may give answers that
/// combine to it.
pub proof fn law_single_answers(
    entries: Seq<Seq<char>>,
    m: Matcher,
    singles: Seq<Matcher>,
    path: Seq<char>,
    r: bool,
)
    requires
        Matcher::built(entries, Ok::<Matcher, GlobError>(m)),
        are_singles(singles, entries),
    ensures
        m.may_accept(path, r) <==> exists|passed: Seq<bool>| #[trigger]
            may_pass(singles, path, passed) && r == combined(entries, passed),
{
    if m.may_accept(path, r) {
        let (i, x) = choose|i: bool, x: bool| #[trigger]
            may_answer(m.included(), path, i) && #[trigger] may_answer(m.excluded(), path, x) && r
                == verdict(m.included().len() > 0, i, x);
        lemma_answers_apart(entries, m, singles, path, i, x);
    }
    if exists|passed: Seq<bool>| #[trigger]
        may_pass(singles, path, passed) && r == combined(entries, passed) {
        let passed = choose|passed: Seq<bool>| #[trigger]
            may_pass(singles, path, passed) && r == combined(entries, passed);
        lemma_answers_together(entries, m, singles, path, passed);
    }
}

/// A pattern of the entry may match.
spec fn may_match(entry: Seq<char>, path: Seq<char>) -> bool {
    may_answer(entry_texts(entry), path, true)
}

/// What the matcher of one entry may answer.
proof fn lemma_may_single(entry: Seq<char>, m: Matcher, path: Seq<char>, r: bool)
    requires
        Matcher::built(seq![entry], Ok::<Matcher, GlobError>(m)),
    ensures
        is_include(entry) ==> m.may_accept(path, r) == may_answer(entry_texts(entry), path, r),
        is_exclude(entry) ==> m.may_accept(path, r) == may_answer(entry_texts(entry), path, !r),
        !is_include(entry) && !is_exclude(entry) ==> m.may_accept(path, r) == r,
{
    lemma_single(entry, m);
    assert(!may_answer(Seq::<Seq<char>>::empty(), path, true));
    assert(may_answer(Seq::<Seq<char>>::empty(), path, false));
    if m.included().len() == 0 {
        assert(m.included() =~= Seq::<Seq<char>>::empty());
    }
    if m.excluded().len() == 0 {
        assert(m.excluded() =~= Seq::<Seq<char>>::empty());
    }
    if m.may_accept(path, r) {
        let (i, x) = choose|i: bool, x: bool| #[trigger]
            may_answer(m.included(), path, i) && #[trigger] may_answer(m.excluded(), path, x) && r
                == verdict(m.included().len() > 0, i, x);
    }
    if is_include(entry) && may_answer(entry_texts(entry), path, r) {
        assert(may_answer(m.included(), path, r) && may_answer(m.excluded(), path, false));
    }
    if is_exclude(entry) && may_answer(entry_texts(entry), path, !r) {
        assert(may_answer(m.included(), path, false) && may_answer(m.excluded(), path, !r));
    }
    if !is_include(entry) && !is_exclude(entry) && r {
        assert(may_answer(m.included(), path, false) && may_answer(m.excluded(), path, false));
    }
}

proof fn lemma_answers_apart(
    entries: Seq<Seq<char>>,
    m: Matcher,
    singles: Seq<Matcher>,
    path: Seq<char>,
    inc: bool,
    exc: bool,
)
    requires
        Matcher::built(entries, Ok::<Matcher, GlobError>(m)),
        are_singles(singles, entries),
        may_answer(m.included(), path, inc),
        may_answer(m.excluded(), path, exc),
    ensures
        exists|passed: Seq<bool>| #[trigger]
            may_pass(singles, path, passed) && combined(entries, passed) == verdict(
                m.included().len() > 0,
                inc,
                exc,
            ),
{
    let passed = Seq::new(
        entries.len(),
        |i: int|
            if is_include(entries[i]) {
                inc && may_match(entries[i], path)
            } else if is_exclude(entries[i]) {
                !(exc && may_match(entries[i], path))
            } else {
                true
            },
    );
    lemma_has_include(entries);
    let a = texts_of(entries, false);
    let z = texts_of(entries, true);
    assert forall|i: int| 0 <= i < singles.len() implies (#[trigger] singles[i]).may_accept(
        path,
        passed[i],
    ) by {
        let e = entries[i];
        let own = entry_texts(e);
        assert(Matcher::built(seq![e], Ok::<Matcher, GlobError>(singles[i])));
        lemma_may_single(e, singles[i], path, passed[i]);
        if !may_match(e, path) {
            assert forall|j: int| 0 <= j < own.len() implies may_miss(#[trigger] own[j], path) by {
                assert(!may_hit(own[j], path));
            }
        } else if (is_include(e) && !inc) || (is_exclude(e) && !exc) {
            assert forall|j: int| 0 <= j < own.len() implies may_miss(#[trigger] own[j], path) by {
                let k = lemma_text_of_entry(entries, i, j);
                if is_include(e) {
                    assert(may_miss(a[k], path));
                } else {
                    assert(may_miss(z[k], path));
                }
            }
        }
    }
    assert(may_pass(singles, path, passed));
    if inc {
        let k = choose|k: int| 0 <= k < a.len() && may_hit(#[trigger] a[k], path);
        let i = lemma_entry_of_text(entries, false, k);
        lemma_single_texts(entries[i]);
        let own = entry_texts(entries[i]);
        let j = choose|j: int| 0 <= j < own.len() && own[j] == a[k];
        assert(may_hit(own[j], path));
        assert(is_include(entries[i]) && passed[i]);
    }
    if exc {
        let k = choose|k: int| 0 <= k < z.len() && may_hit(#[trigger] z[k], path);
        let i = lemma_entry_of_text(entries, true, k);
        let own = entry_texts(entries[i]);
        let j = choose|j: int| 0 <= j < own.len() && own[j] == z[k];
        assert(may_hit(own[j], path));
        assert(is_exclude(entries[i]) && !passed[i]);
    }
}

proof fn lemma_answers_together(
    entries: Seq<Seq<char>>,
    m: Matcher,
    singles: Seq<Matcher>,
    path: Seq<char>,
    passed: Seq<bool>,
)
    requires
        Matcher::built(entries, Ok::<Matcher, GlobError>(m)),
        are_singles(singles, entries),
        may_pass(singles, path, passed),
    ensures
        m.may_accept(path, combined(entries, passed)),
{
    lemma_has_include(entries);
    let a = texts_of(entries, false);
    let z = texts_of(entries, true);
    let inc = exists|i: int|
        0 <= i < entries.len() && is_include(#[trigger] entries[i]) && passed[i];
    let exc = exists|i: int|
        0 <= i < entries.len() && is_exclude(#[trigger] entries[i]) && !passed[i];
    assert forall|i: int| 0 <= i < entries.len() implies {
        &&& is_include(#[trigger] entries[i]) ==> may_answer(
            entry_texts(entries[i]),
            path,
            passed[i],
        )
        &&& is_exclude(entries[i]) ==> may_answer(entry_texts(entries[i]), path, !passed[i])
    } by {
        assert(Matcher::built(seq![entries[i]], Ok::<Matcher, GlobError>(singles[i])));
        assert(singles[i].may_accept(path, passed[i]));
        lemma_may_single(entries[i], singles[i], path, passed[i]);
    }
    assert(may_answer(a, path, inc)) by {
        if inc {
            let i = choose|i: int|
                0 <= i < entries.len() && is_include(#[trigger] entries[i]) && passed[i];
            let own = entry_texts(entries[i]);
            let j = choose|j: int| 0 <= j < own.len() && may_hit(#[trigger] own[j], path);
            let k = lemma_text_of_entry(entries, i, j);
            assert(may_hit(a[k], path));
        } else {
            assert forall|k: int| 0 <= k < a.len() implies may_miss(#[trigger] a[k], path) by {
                let i = lemma_entry_of_text(entries, false, k);
                lemma_single_texts(entries[i]);
                assert(is_include(entries[i]));
                let own = entry_texts(entries[i]);
                let j = choose|j: int| 0 <= j < own.len() && own[j] == a[k];
                assert(may_miss(own[j], path));
            }
        }
    }
    assert(may_answer(z, path, exc)) by {
        if exc {
            let i = choose|i: int|
                0 <= i < entries.len() && is_exclude(#[trigger] entries[i]) && !passed[i];
            let own = entry_texts(entries[i]);
            let j = choose|j: int| 0 <= j < own.len() && may_hit(#[trigger] own[j], path);
            let k = lemma_text_of_entry(entries, i, j);
            assert(may_hit(z[k], path));
        } else {
            assert forall|k: int| 0 <= k < z.len() implies may_miss(#[trigger] z[k], path) by {
                let i = lemma_entry_of_text(entries, true, k);
                assert(is_exclude(entries[i]));
                let own = entry_texts(entries[i]);
                let j = choose|j: int| 0 <= j < own.len() && own[j] == z[k];
                assert(may_miss(own[j], path));
            }
        }
    }
    assert(verdict(a.len() > 0, inc, exc) == combined(entries, passed));
}

/// A text is among the patterns of a list exactly if it is among those of an
/// entry of that kind.
proof fn lemma_texts_of_contains(entries: Seq<Seq<char>>, exclude: bool, t: Seq<char>)
    ensures
        texts_of(entries, exclude).contains(t) <==> exists|i: int|
            0 <= i < entries.len() && is_exclude(#[trigger] entries[i]) == exclude && entry_texts(
                entries[i],
            ).contains(t),
    decreases entries.len(),
{
    if entries.len() > 0 {
        let front = entries.drop_last();
        let last = entries.last();
        lemma_texts_of_contains(front, exclude, t);
        let a = texts_of(front, exclude);
        let b: Seq<Seq<char>> = if is_exclude(last) == exclude {
            entry_texts(last)
        } else {
            seq![]
        };
        let all = texts_of(entries, exclude);
        assert(all == a + b);
        if all.contains(t) {
            let k = choose|k: int| 0 <= k < all.len() && all[k] == t;
            if k < a.len() {
                assert(a[k] == t);
                let i = choose|i: int|
                    0 <= i < front.len() && is_exclude(#[trigger] front[i]) == exclude
                        && entry_texts(front[i]).contains(t);
                assert(entries[i] == front[i]);
            } else {
                assert(b[k - a.len()] == t);
                assert(entries[entries.len() - 1] == last);
            }
        }
        if exists|i: int|
            0 <= i < entries.len() && is_exclude(#[trigger] entries[i]) == exclude && entry_texts(
                entries[i],
            ).contains(t) {
            let i = choose|i: int|
                0 <= i < entries.len() && is_exclude(#[trigger] entries[i]) == exclude
                    && entry_texts(entries[i]).contains(t);
            if i < front.len() {
                assert(front[i] == entries[i]);
                let k = choose|k: int| 0 <= k < a.len() && a[k] == t;
                assert(all[k] == t);
            } else {
                let k = choose|k: int| 0 <= k < b.len() && b[k] == t;
                assert(all[a.len() + k] == t);
            }
        }
    }
}

/// Every entry that includes in one list includes the same in the other.
proof fn lemma_same_texts(
    a: Seq<Seq<char>>,
    b: Seq<Seq<char>>,
    exclude: bool,
    path: Seq<char>,
    backslash: bool,
)
    requires
        forall|e: Seq<char>| a.contains(e) ==> b.contains(e),
    ensures
        any_matches(texts_of(a, exclude), path, backslash) ==> any_matches(
            texts_of(b, exclude),
            path,
            backslash,
        ),
        texts_of(b, exclude).len() == 0 ==> texts_of(a, exclude).len() == 0,
{
    let x = texts_of(a, exclude);
    let y = texts_of(b, exclude);
    assert forall|k: int| 0 <= k < x.len() implies y.contains(#[trigger] x[k]) by {
        lemma_texts_of_contains(a, exclude, x[k]);
        lemma_texts_of_contains(b, exclude, x[k]);
        let i = choose|i: int|
            0 <= i < a.len() && is_exclude(#[trigger] a[i]) == exclude && entry_texts(
                a[i],
            ).contains(x[k]);
        assert(a.contains(a[i]));
        let j = choose|j: int| 0 <= j < b.len() && b[j] == a[i];
        assert(is_exclude(b[j]) == exclude);
    }
    if any_matches(x, path, backslash) {
        let k = choose|k: int|
            0 <= k < x.len() && hits(#[trigger] x[k], path, backslash);
        let j = choose|j: int| 0 <= j < y.len() && y[j] == x[k];
        assert(hits(y[j], path, backslash));
    }
    if x.len() > 0 {
        assert(y.contains(x[0]));
    }
}

/// The order of the entries does not matter: lists that hold the same entries
/// let the same paths pass.
pub proof fn law_order_of_entries(
    a: Seq<Seq<char>>,
    b: Seq<Seq<char>>,
    path: Seq<char>,
    backslash: bool,
)
    requires
        forall|e: Seq<char>| a.contains(e) <==> b.contains(e),
    ensures
        passes(texts_of(a, false), texts_of(a, true), path, backslash) == passes(
            texts_of(b, false),
            texts_of(b, true),
            path,
            backslash,
        ),
{
    lemma_same_texts(a, b, false, path, backslash);
    lemma_same_texts(b, a, false, path, backslash);
    lemma_same_texts(a, b, true, path, backslash);
    lemma_same_texts(b, a, true, path, backslash);
}

/// Excludes always win: a path that an exclude of the list matches does not
/// pass, whatever entries stand before and after.
pub proof fn law_excludes_win(
    before: Seq<Seq<char>>,
    entries: Seq<Seq<char>>,
    after: Seq<Seq<char>>,
    path: Seq<char>,
    backslash: bool,
)
    requires
        any_matches(texts_of(entries, true), path, backslash),
    ensures
        !passes(
            texts_of(before + entries + after, false),
            texts_of(before + entries + after, true),
            path,
            backslash,
        ),
{
    let all = before + entries + after;
    assert forall|e: Seq<char>| entries.contains(e) implies all.contains(e) by {
        let i = choose|i: int| 0 <= i < entries.len() && entries[i] == e;
        assert(all[before.len() + i] == e);
    }
    lemma_same_texts(entries, all, true, path, backslash);
}

/// Without includes a path passes unless an exclude matches it; without any
/// pattern every path passes.
pub proof fn law_without_includes(entries: Seq<Seq<char>>, path: Seq<char>, backslash: bool)
    requires
        forall|i: int| 0 <= i < entries.len() ==> is_exclude(#[trigger] entries[i]),
    ensures
        texts_of(entries, false).len() == 0,
        passes(texts_of(entries, false), texts_of(entries, true), path, backslash)
            == !any_matches(texts_of(entries, true), path, backslash),
        entries.len() == 0 ==> passes(
            texts_of(entries, false),
            texts_of(entries, true),
            path,
            backslash,
        ),
    decreases entries.len(),
{
    if entries.len() > 0 {
        assert forall|i: int| 0 <= i < entries.drop_last().len() implies is_exclude(
            #[trigger] entries.drop_last()[i],
        ) by {
            assert(entries.drop_last()[i] == entries[i]);
        }
        law_without_includes(entries.drop_last(), path, backslash);
        assert(is_exclude(entries[entries.len() - 1]));
    }
}

// ---- what patterns mean ----

/// A path passes exactly if one of the includes matches it, where there are some, and no
/// exclude does. Patterns are matched with case, a `/` is matched only by a `/`, and a
/// dot in front is like any character.
pub proof fn law_passes(
    included: Seq<Seq<char>>,
    excluded: Seq<Seq<char>>,
    path: Seq<char>,
    backslash: bool,
)
    ensures
        passes(included, excluded, path, backslash) <==> (included.len() == 0 || exists|i: int|
            0 <= i < included.len() && glob_matches(
                #[trigger] included[i],
                path,
                true,
                true,
                false,
                backslash,
            )) && forall|i: int|
            0 <= i < excluded.len() ==> !glob_matches(
                #[trigger] excluded[i],
                path,
                true,
                true,
                false,
                backslash,
            ),
{
    if passes(included, excluded, path, backslash) {
        assert forall|i: int| 0 <= i < excluded.len() implies !glob_matches(
            #[trigger] excluded[i],
            path,
            true,
            true,
            false,
            backslash,
        ) by {
            assert(!hits(excluded[i], path, backslash));
        }
        if included.len() > 0 {
            let i = choose|i: int|
                0 <= i < included.len() && hits(#[trigger] included[i], path, backslash);
            assert(glob_matches(included[i], path, true, true, false, backslash));
        }
    } else if included.len() > 0 && !any_matches(included, path, backslash) {
        assert forall|i: int| 0 <= i < included.len() implies !glob_matches(
            #[trigger] included[i],
            path,
            true,
            true,
            false,
            backslash,
        ) by {
            assert(!hits(included[i], path, backslash));
        }
    }
}

/// A pattern with a `/` stands for itself, from the directory of the manifest on; one
/// without stands for itself in any directory.
pub proof fn law_normal(p: Seq<char>)
    ensures
        normal(p).contains('/'),
        p.contains('/') ==> normal(p) == p,
        !p.contains('/') ==> normal(p) == seq!['*', '*', '/'] + p,
{
    reveal_strlit("**/");
    assert("**/"@ =~= seq!['*', '*', '/']);
    assert(("**/"@ + p)[2] == '/');
}

/// A text without an opening brace stands for itself.
proof fn lemma_no_braces(s: Seq<char>)
    requires
        !s.contains('{'),
    ensures
        expand(s) == seq![s],
{
    text::lemma_index_from(s, '{', 0);
}

/// What an entry stands for: without braces it is the pattern itself, among the includes,
/// or among the excludes with a `!` in front. White space around the entry, and behind
/// the `!`, does not count.
pub proof fn law_plain_entry(
    lead: Seq<char>,
    gap: Seq<char>,
    p: Seq<char>,
    trail: Seq<char>,
)
    requires
        forall|i: int| 0 <= i < lead.len() ==> text::is_space(#[trigger] lead[i]),
        forall|i: int| 0 <= i < gap.len() ==> text::is_space(#[trigger] gap[i]),
        forall|i: int| 0 <= i < trail.len() ==> text::is_space(#[trigger] trail[i]),
        p.len() > 0,
        p[0] != '!',
        !text::is_space(p[0]),
        !text::is_space(p.last()),
        !p.contains('{'),
    ensures
        texts_of(seq![lead + p + trail], false) == seq![normal(p)],
        texts_of(seq![lead + p + trail], true).len() == 0,
        texts_of(seq![lead + (seq!['!'] + gap + p) + trail], true) == seq![normal(p)],
        texts_of(seq![lead + (seq!['!'] + gap + p) + trail], false).len() == 0,
        texts_of(seq![lead], false).len() == 0,
        texts_of(seq![lead], true).len() == 0,
{
    let none = Seq::<char>::empty();
    let kept = lead + p + trail;
    let mark = seq!['!'] + gap + p;
    let exclude = lead + mark + trail;
    text::law_trim(lead, p, trail);
    assert(mark.last() == p.last());
    text::law_trim(lead, mark, trail);
    assert(mark.skip(1) =~= gap + p + none);
    text::law_trim(gap, p, none);
    assert(lead + none + none =~= lead);
    text::law_trim(lead, none, none);
    lemma_no_braces(p);
    assert(normal_all(seq![p]) =~= seq![normal(p)]);
    lemma_single_texts(kept);
    lemma_single_texts(exclude);
    lemma_single_texts(lead);
    assert(entry_texts(lead) =~= seq![]);
}

/// Blank entries count for nothing, and each entry adds its patterns behind those of the
/// entries before it.
pub proof fn law_entries_add_up(
    entries: Seq<Seq<char>>,
    entry: Seq<char>,
    exclude: bool,
)
    ensures
        texts_of(entries.push(entry), exclude) == texts_of(entries, exclude) + texts_of(
            seq![entry],
            exclude,
        ),
        texts_of(Seq::<Seq<char>>::empty(), exclude).len() == 0,
{
    assert(entries.push(entry).drop_last() =~= entries);
    assert(seq![entry].drop_last() =~= Seq::<Seq<char>>::empty());
    assert(texts_of(Seq::<Seq<char>>::empty(), exclude) =~= seq![]);
    let own = if is_exclude(entry) == exclude {
        entry_texts(entry)
    } else {
        seq![]
    };
    assert(texts_of(seq![entry], exclude) =~= own);
}

proof fn lemma_depth_concat(a: Seq<char>, b: Seq<char>)
    ensures
        depth(a + b) == depth(a) + depth(b),
    decreases b.len(),
{
    if b.len() == 0 {
        assert(a + b =~= a);
    } else {
        assert((a + b).drop_last() =~= a + b.drop_last());
        lemma_depth_concat(a, b.drop_last());
    }
}

/// A text that can be one alternative: its braces match, and no comma stands outside
/// them.
pub open spec fn is_alternative(a: Seq<char>) -> bool {
    &&& depth(a) == 0
    &&& forall|k: int| 0 <= k <= a.len() ==> depth(#[trigger] a.take(k)) >= 0
    &&& forall|k: int| 0 <= k < a.len() && #[trigger] a[k] == ',' ==> depth(a.take(k)) > 0
}

/// The patterns that each of the texts stands for, put between `pre` and `post`.
pub open spec fn expand_each(
    pre: Seq<char>,
    alts: Seq<Seq<char>>,
    post: Seq<char>,
) -> Seq<Seq<char>>
    decreases alts.len(),
{
    if alts.len() == 0 {
        seq![]
    } else {
        expand_each(pre, alts.drop_last(), post) + expand(pre + alts.last() + post)
    }
}

proof fn lemma_comma_is(s: Seq<char>, from: int, at: int)
    requires
        0 <= from <= at <= s.len(),
        at < s.len() ==> s[at] == ',' && depth(s.take(at)) == 0,
        forall|j: int| from <= j < at && #[trigger] s[j] == ',' ==> depth(s.take(j)) != 0,
    ensures
        comma_from(s, from) == at,
    decreases at - from,
{
    if from < at {
        assert(s[from] == ',' ==> depth(s.take(from)) != 0);
        lemma_comma_is(s, from + 1, at);
    }
}

/// The alternatives of a list are the texts that it was joined from.
#[verifier::spinoff_prover]
#[verifier::rlimit(40)]
proof fn lemma_alternatives_join(q: Seq<char>, alts: Seq<Seq<char>>)
    requires
        alts.len() > 0,
        depth(q) == 0,
        forall|i: int| 0 <= i < alts.len() ==> is_alternative(#[trigger] alts[i]),
    ensures
        alternatives(q + text::join(alts, seq![',']), q.len() as int) == alts,
    decreases alts.len(),
{
    let sep = seq![','];
    let n = q.len() as int;
    let a = alts[0];
    let m = n + a.len();
    let rest = alts.skip(1);
    let s = q + text::join(alts, sep);
    assert(is_alternative(a));
    assert(alts =~= seq![a] + rest);
    let tail = if rest.len() == 0 {
        Seq::<char>::empty()
    } else {
        sep + text::join(rest, sep)
    };
    if rest.len() > 0 {
        text::lemma_join_front(a, rest, sep);
    } else {
        assert(text::join(seq![a], sep) == a);
    }
    assert(s =~= q + a + tail);
    assert forall|j: int| n <= j <= m implies depth(#[trigger] s.take(j)) == depth(
        a.take(j - n),
    ) by {
        lemma_depth_concat(q, a.take(j - n));
        assert(s.take(j) =~= q + a.take(j - n));
    }
    assert forall|j: int| n <= j < m && #[trigger] s[j] == ',' implies depth(s.take(j)) != 0 by {
        assert(s[j] == a[j - n]);
    }
    assert(a.take(a.len() as int) =~= a);
    assert(depth(s.take(m)) == 0);
    if rest.len() > 0 {
        assert(s[m] == ',');
        lemma_comma_is(s, n, m);
        let more = q + a + sep;
        lemma_depth_concat(q, a);
        lemma_depth_concat(q + a, sep);
        assert(depth(sep) == 0) by {
            assert(sep.drop_last() =~= Seq::<char>::empty());
            assert(depth(sep.drop_last()) == 0);
        }
        assert forall|i: int| 0 <= i < rest.len() implies is_alternative(#[trigger] rest[i]) by {
            assert(rest[i] == alts[i + 1]);
        }
        lemma_alternatives_join(more, rest);
        assert(s =~= more + text::join(rest, sep));
        assert(s.subrange(n, m) =~= a);
        assert(alternatives(s, n) =~= seq![a] + rest);
    } else {
        assert(m == s.len());
        lemma_comma_is(s, n, m);
        assert(s.skip(n) =~= a);
        assert(alternatives(s, n) =~= alts);
    }
}

proof fn lemma_join_depth(alts: Seq<Seq<char>>)
    requires
        alts.len() > 0,
        forall|i: int| 0 <= i < alts.len() ==> is_alternative(#[trigger] alts[i]),
    ensures
        depth(text::join(alts, seq![','])) == 0,
        forall|k: int|
            0 <= k <= text::join(alts, seq![',']).len() ==> depth(
                #[trigger] text::join(alts, seq![',']).take(k),
            ) >= 0,
    decreases alts.len(),
{
    let sep = seq![','];
    let last = alts.last();
    let all = text::join(alts, sep);
    assert(is_alternative(alts[alts.len() - 1]));
    if alts.len() == 1 {
        assert(all == last);
    } else {
        let less = alts.drop_last();
        assert forall|i: int| 0 <= i < less.len() implies is_alternative(#[trigger] less[i]) by {
            assert(less[i] == alts[i]);
        }
        lemma_join_depth(less);
        let front = text::join(less, sep);
        assert(sep.drop_last() =~= Seq::<char>::empty());
        assert(depth(sep.drop_last()) == 0);
        lemma_depth_concat(front, sep);
        lemma_depth_concat(front + sep, last);
        assert forall|k: int| 0 <= k <= all.len() implies depth(#[trigger] all.take(k)) >= 0 by {
            if k <= front.len() {
                assert(all.take(k) =~= front.take(k));
            } else {
                let j = k - front.len() - 1;
                assert(all.take(k) =~= front + sep + last.take(j));
                lemma_depth_concat(front + sep, last.take(j));
            }
        }
    }
}

proof fn lemma_close_is(s: Seq<char>, open: int, p: int, at: int)
    requires
        0 <= open <= p <= at < s.len(),
        closes(s, open, at),
        forall|j: int| p <= j < at ==> !#[trigger] closes(s, open, j),
    ensures
        close_from(s, open, p) == at,
    decreases at - p,
{
    if p < at {
        assert(!closes(s, open, p));
        lemma_close_is(s, open, p + 1, at);
    }
}

/// Where braces open and close around a text in which they match.
#[verifier::spinoff_prover]
proof fn lemma_braces_around(pre: Seq<char>, inner: Seq<char>, post: Seq<char>)
    requires
        !pre.contains('{'),
        depth(inner) == 0,
        forall|k: int| 0 <= k <= inner.len() ==> depth(#[trigger] inner.take(k)) >= 0,
    ensures
        ({
            let s = pre + seq!['{'] + inner + seq!['}'] + post;
            let open = pre.len() as int;
            &&& text::index_from(s, '{', 0) == open
            &&& close_of(s, open) == open + 1 + inner.len()
        }),
{
    let s = pre + seq!['{'] + inner + seq!['}'] + post;
    let open = pre.len() as int;
    let close = open + 1 + inner.len();
    let none = Seq::<char>::empty();
    assert forall|j: int| 0 <= j < open implies s[j] != '{' by {
        assert(pre.contains(pre[j]));
    }
    assert(s[open] == '{');
    text::lemma_index_is(s, '{', 0, open);
    let brace = seq!['{'];
    assert(brace.drop_last() =~= none);
    assert(depth(none) == 0);
    assert(depth(brace) == 1);
    assert forall|j: int| open <= j < close implies !#[trigger] closes(s, open, j) by {
        let k = j - open;
        assert(s.subrange(open, j + 1) =~= brace + inner.take(k));
        lemma_depth_concat(brace, inner.take(k));
    }
    assert(s[close] == '}');
    let end = seq!['}'];
    assert(end.drop_last() =~= none);
    assert(depth(end) == -1);
    lemma_depth_concat(brace, inner);
    lemma_depth_concat(brace + inner, end);
    assert(s.subrange(open, close + 1) =~= brace + inner + end);
    assert(closes(s, open, close));
    lemma_close_is(s, open, open, close);
}

/// Braces stand for each of the alternatives between them, in order: `pre{a,b}post`
/// stands for what `preapost` stands for, and then for what `prebpost` does. The
/// alternatives may hold braces themselves.
#[verifier::spinoff_prover]
pub proof fn law_brace_alternation(pre: Seq<char>, alts: Seq<Seq<char>>, post: Seq<char>)
    requires
        !pre.contains('{'),
        alts.len() > 0,
        forall|i: int| 0 <= i < alts.len() ==> is_alternative(#[trigger] alts[i]),
    ensures
        expand(pre + seq!['{'] + text::join(alts, seq![',']) + seq!['}'] + post) == expand_each(
            pre,
            alts,
            post,
        ),
{
    let inner = text::join(alts, seq![',']);
    let s = pre + seq!['{'] + inner + seq!['}'] + post;
    let open = pre.len() as int;
    let close = open + 1 + inner.len();
    let none = Seq::<char>::empty();
    assert(first_alternatives(s) == alts && has_alternation(s)) by {
        lemma_join_depth(alts);
        lemma_braces_around(pre, inner, post);
        assert(s.subrange(open + 1, close) =~= inner);
        assert(depth(none) == 0);
        lemma_alternatives_join(none, alts);
        assert(none + inner =~= inner);
    }
    assert(text::index_from(s, '{', 0) == open && close_of(s, open) == close) by {
        lemma_join_depth(alts);
        lemma_braces_around(pre, inner, post);
    }
    assert(s.take(open) =~= pre);
    assert(s.skip(close + 1) =~= post);
    lemma_expand_each(s, pre, alts, post, alts.len() as int);
    assert(alts.take(alts.len() as int) =~= alts);
}

proof fn lemma_expand_each(
    s: Seq<char>,
    pre: Seq<char>,
    alts: Seq<Seq<char>>,
    post: Seq<char>,
    k: int,
)
    requires
        has_alternation(s),
        first_alternatives(s) == alts,
        text::index_from(s, '{', 0) == pre.len(),
        s.take(pre.len() as int) == pre,
        s.skip(close_of(s, pre.len() as int) + 1) == post,
        0 <= k <= alts.len(),
    ensures
        expand_first(s, k) == expand_each(pre, alts.take(k), post),
    decreases k,
{
    if k > 0 {
        lemma_expand_each(s, pre, alts, post, k - 1);
        assert(alts.take(k).drop_last() =~= alts.take(k - 1));
        assert(with_alternative(s, alts[k - 1]) =~= pre + alts[k - 1] + post);
    }
}

/// Braces with plain alternatives and nothing but plain text around them stand for as
/// many patterns as there are alternatives, each with one of them in place of the
/// braces.
pub proof fn law_plain_alternatives(pre: Seq<char>, alts: Seq<Seq<char>>, post: Seq<char>)
    requires
        !pre.contains('{'),
        !post.contains('{'),
        alts.len() > 0,
        forall|i: int|
            0 <= i < alts.len() ==> !(#[trigger] alts[i]).contains('{') && !alts[i].contains('}')
                && !alts[i].contains(','),
    ensures
        expand(pre + seq!['{'] + text::join(alts, seq![',']) + seq!['}'] + post) == Seq::new(
            alts.len(),
            |i: int| pre + alts[i] + post,
        ),
        expand(pre) == seq![pre],
{
    assert forall|i: int| 0 <= i < alts.len() implies is_alternative(#[trigger] alts[i]) by {
        lemma_plain_depth(alts[i]);
        assert forall|k: int| 0 <= k < alts[i].len() && #[trigger] alts[i][k] == ',' implies depth(
            alts[i].take(k),
        ) > 0 by {
            assert(alts[i].contains(alts[i][k]));
        }
    }
    law_brace_alternation(pre, alts, post);
    lemma_plain_each(pre, alts, post);
    lemma_no_braces(pre);
}

proof fn lemma_plain_depth(a: Seq<char>)
    requires
        !a.contains('{'),
        !a.contains('}'),
    ensures
        depth(a) == 0,
        forall|k: int| 0 <= k <= a.len() ==> depth(#[trigger] a.take(k)) >= 0,
    decreases a.len(),
{
    if a.len() > 0 {
        let less = a.drop_last();
        assert(a.contains(a[a.len() - 1]));
        assert forall|i: int| 0 <= i < less.len() implies less[i] != '{' && less[i] != '}' by {
            assert(a.contains(a[i]));
        }
        lemma_plain_depth(less);
        assert forall|k: int| 0 <= k <= a.len() implies depth(#[trigger] a.take(k)) >= 0 by {
            if k < a.len() {
                assert(a.take(k) =~= less.take(k));
            } else {
                assert(a.take(k) =~= a);
            }
        }
    } else {
        assert forall|k: int| 0 <= k <= a.len() implies depth(#[trigger] a.take(k)) >= 0 by {
            assert(a.take(k) =~= a);
        }
    }
}

proof fn lemma_plain_each(pre: Seq<char>, alts: Seq<Seq<char>>, post: Seq<char>)
    requires
        !pre.contains('{'),
        !post.contains('{'),
        forall|i: int| 0 <= i < alts.len() ==> !(#[trigger] alts[i]).contains('{'),
    ensures
        expand_each(pre, alts, post) == Seq::new(alts.len(), |i: int| pre + alts[i] + post),
    decreases alts.len(),
{
    let all = Seq::new(alts.len(), |i: int| pre + alts[i] + post);
    if alts.len() == 0 {
        assert(expand_each(pre, alts, post) =~= all);
    } else {
        let less = alts.drop_last();
        let last = alts[alts.len() - 1];
        assert forall|i: int| 0 <= i < less.len() implies !(#[trigger] less[i]).contains('{') by {
            assert(less[i] == alts[i]);
        }
        lemma_plain_each(pre, less, post);
        let t = pre + last + post;
        assert(!last.contains('{'));
        assert forall|j: int| 0 <= j < t.len() implies t[j] != '{' by {
            if j < pre.len() {
                assert(pre.contains(pre[j]));
            } else if j < pre.len() + last.len() {
                assert(last.contains(last[j - pre.len()]));
            } else {
                assert(post.contains(post[j - pre.len() - last.len()]));
            }
        }
        lemma_no_braces(t);
        assert(expand_each(pre, alts, post) =~= all);
    }
}

/// Where the platform makes no difference, there is one answer: patterns of which one
/// matches on every platform cannot be missed, and patterns that match on none cannot
/// hit.
pub proof fn law_answers(texts: Seq<Seq<char>>, path: Seq<char>)
    ensures
        (exists|i: int|
            0 <= i < texts.len() && hits(#[trigger] texts[i], path, false) && hits(
                texts[i],
                path,
                true,
            )) ==> may_answer(texts, path, true) && !may_answer(texts, path, false),
        (forall|i: int|
            0 <= i < texts.len() ==> !hits(#[trigger] texts[i], path, false) && !hits(
                texts[i],
                path,
                true,
            )) ==> may_answer(texts, path, false) && !may_answer(texts, path, true),
        may_answer(texts, path, true) || may_answer(texts, path, false),
{
    if exists|i: int|
        0 <= i < texts.len() && hits(#[trigger] texts[i], path, false) && hits(
            texts[i],
            path,
            true,
        ) {
        let i = choose|i: int|
            0 <= i < texts.len() && hits(#[trigger] texts[i], path, false) && hits(
                texts[i],
                path,
                true,
            );
        assert(may_hit(texts[i], path));
        assert(!may_miss(texts[i], path));
    }
    if !may_answer(texts, path, true) {
        assert forall|i: int| 0 <= i < texts.len() implies may_miss(#[trigger] texts[i], path) by {
            assert(!may_hit(texts[i], path));
        }
    }
}

/// A list of patterns is refused for its first pattern that is not valid, and only if it
/// has one.
pub proof fn law_refused_patterns(texts: Seq<Seq<char>>, k: int)
    requires
        all_portable(texts),
        0 <= k < texts.len(),
    ensures
        !glob_valid(texts[k], false) && !glob_valid(texts[k], true) && (forall|j: int|
            0 <= j < k ==> glob_valid(#[trigger] texts[j], false) && glob_valid(texts[j], true))
            ==> first_invalid(texts, texts[k]) && !all_valid(texts),
        (forall|j: int|
            0 <= j < texts.len() ==> glob_valid(#[trigger] texts[j], false) && glob_valid(
                texts[j],
                true,
            )) ==> all_valid(texts) && !first_invalid(texts, texts[k]),
{
    assert(portable(texts[k]));
    let less = texts.take(k);
    if forall|j: int| 0 <= j < k ==> glob_valid(#[trigger] texts[j], false) && glob_valid(
        texts[j],
        true,
    ) {
        assert forall|j: int| 0 <= j < less.len() implies may_be_valid(#[trigger] less[j]) by {
            assert(less[j] == texts[j]);
        }
    }
    if !glob_valid(texts[k], false) && !glob_valid(texts[k], true) {
        assert(!may_be_valid(texts[k]));
    }
    if first_invalid(texts, texts[k]) {
        lemma_first_invalid(texts, texts[k]);
    }
}

} // verus!
