//! Reading the words of a shell command line.

use crate::runner;
use crate::text;
use vstd::prelude::*;
use vstd::string::*;

verus! {

broadcast use {group_string_axioms, vstd::seq::group_seq_axioms};

/// ASCII white space, which ends a word outside quotes.
pub open spec fn is_blank(c: char) -> bool {
    c == ' ' || c == '\t' || c == '\n' || c == '\u{c}' || c == '\r'
}

/// What the rest of a word stands for: `s` begins inside the word, and between
/// single quotes if `quoted`. Between them every character stands for itself.
/// Outside them white space ends the word, `\'` stands for a single quote, and every
/// other character stands for itself.
pub open spec fn word(s: Seq<char>, quoted: bool) -> Seq<char>
    decreases s.len(),
{
    if s.len() == 0 {
        seq![]
    } else if s[0] == '\'' {
        word(s.skip(1), !quoted)
    } else if quoted {
        seq![s[0]] + word(s.skip(1), true)
    } else if is_blank(s[0]) {
        seq![]
    } else if s[0] == '\\' && s.len() > 1 && s[1] == '\'' {
        seq!['\''] + word(s.skip(2), false)
    } else {
        seq![s[0]] + word(s.skip(1), false)
    }
}

/// How many characters the rest of a word takes; see `word`.
pub open spec fn extent(s: Seq<char>, quoted: bool) -> int
    decreases s.len(),
{
    if s.len() == 0 {
        0
    } else if s[0] == '\'' {
        1 + extent(s.skip(1), !quoted)
    } else if quoted {
        1 + extent(s.skip(1), true)
    } else if is_blank(s[0]) {
        0
    } else if s[0] == '\\' && s.len() > 1 && s[1] == '\'' {
        2 + extent(s.skip(2), false)
    } else {
        1 + extent(s.skip(1), false)
    }
}

pub proof fn lemma_extent(s: Seq<char>, quoted: bool)
    ensures
        0 <= extent(s, quoted) <= s.len(),
        s.len() > 0 && !is_blank(s[0]) ==> extent(s, quoted) > 0,
    decreases s.len(),
{
    if s.len() > 0 {
        lemma_extent(s.skip(1), false);
        lemma_extent(s.skip(1), true);
        if s.len() > 1 {
            lemma_extent(s.skip(2), false);
        }
    }
}

/// The words of a command line.
pub open spec fn words(s: Seq<char>) -> Seq<Seq<char>>
    decreases s.len(),
{
    if s.len() == 0 {
        seq![]
    } else if is_blank(s[0]) {
        words(s.skip(1))
    } else {
        proof {
            lemma_extent(s, false);
        }
        seq![word(s, false)] + words(s.skip(extent(s, false)))
    }
}

fn blank(c: char) -> (r: bool)
    ensures
        r == is_blank(c),
{
    c == ' ' || c == '\t' || c == '\n' || c == '\u{c}' || c == '\r'
}

/// The words of a command line.
pub fn split(line: &str) -> (r: Vec<String>)
    ensures
        text::views(r@) == words(line@),
{
    let v = text::chars_of(line);
    let n = v.len();
    let mut out: Vec<String> = Vec::new();
    let mut start: usize = 0;
    proof {
        assert(v@.skip(0) =~= v@);
    }
    while start < n
        invariant
            start <= n,
            n == v.len(),
            words(v@) == text::views(out@) + words(v@.skip(start as int)),
        decreases n - start,
    {
        let ghost rest = v@.skip(start as int);
        let ghost before = text::views(out@);
        if blank(v[start]) {
            proof {
                assert(rest.skip(1) =~= v@.skip(start + 1));
            }
            start += 1;
        } else {
            let mut read = String::new();
            let mut quoted = false;
            let mut end: usize = start;
            while end < n && (quoted || !blank(v[end]))
                invariant
                    start <= end <= n,
                    n == v.len(),
                    quoted ==> start < end,
                    rest == v@.skip(start as int),
                    word(rest, false) == read@ + word(v@.skip(end as int), quoted),
                    extent(rest, false) == end - start + extent(v@.skip(end as int), quoted),
                decreases n - end,
            {
                let ghost s = v@.skip(end as int);
                let ghost had = read@;
                proof {
                    assert(s[0] == v@[end as int]);
                    assert(s.skip(1) =~= v@.skip(end + 1));
                    if end + 1 < n {
                        assert(s[1] == v@[end + 1]);
                        assert(s.skip(2) =~= v@.skip(end + 2));
                    }
                }
                if v[end] == '\'' {
                    quoted = !quoted;
                    end += 1;
                } else if !quoted && v[end] == '\\' && n - end > 1 && v[end + 1] == '\'' {
                    read.push('\'');
                    proof {
                        assert(had + word(s, false) =~= read@ + word(s.skip(2), false));
                    }
                    end += 2;
                } else {
                    read.push(v[end]);
                    proof {
                        assert(had + word(s, quoted) =~= read@ + word(s.skip(1), quoted));
                    }
                    end += 1;
                }
            }
            proof {
                assert(v@.skip(end as int).len() > 0 ==> v@.skip(end as int)[0]
                    == v@[end as int]);
                assert(read@ + word(v@.skip(end as int), quoted) =~= read@);
                assert(rest.skip(end - start) =~= v@.skip(end as int));
                assert(before.push(read@) + words(v@.skip(end as int)) =~= before + words(rest));
            }
            out.push(read);
            proof {
                assert(text::views(out@) =~= before.push(read@));
            }
            start = end;
        }
    }
    proof {
        assert(v@.skip(start as int) =~= Seq::<char>::empty());
        assert(text::views(out@) + words(v@.skip(start as int)) =~= text::views(out@));
    }
    out
}

// ---- words that were written ----

/// A text behind which a word ends.
pub open spec fn ends_word(rest: Seq<char>) -> bool {
    rest.len() == 0 || is_blank(rest[0])
}

/// A text that stands for itself as a word.
pub open spec fn is_bare(s: Seq<char>) -> bool {
    s.len() > 0 && forall|i: int|
        0 <= i < s.len() ==> !is_blank(#[trigger] s[i]) && s[i] != '\''
}

proof fn lemma_bare(s: Seq<char>, rest: Seq<char>)
    requires
        forall|i: int| 0 <= i < s.len() ==> !is_blank(#[trigger] s[i]) && s[i] != '\'',
        ends_word(rest),
    ensures
        word(s + rest, false) == s,
        extent(s + rest, false) == s.len(),
    decreases s.len(),
{
    let all = s + rest;
    if s.len() == 0 {
        assert(all =~= rest);
        assert(word(rest, false) =~= s);
    } else {
        let t = s.skip(1);
        assert(all[0] == s[0]);
        assert(all.skip(1) =~= t + rest);
        assert forall|i: int| 0 <= i < t.len() implies !is_blank(#[trigger] t[i]) && t[i]
            != '\'' by {
            assert(t[i] == s[i + 1]);
        }
        lemma_bare(t, rest);
        if all.len() > 1 {
            if s.len() > 1 {
                assert(all[1] == s[1]);
            } else {
                assert(all[1] == rest[0]);
            }
        }
        assert(seq![s[0]] + t =~= s);
    }
}

proof fn lemma_quoted(s: Seq<char>, rest: Seq<char>)
    requires
        ends_word(rest),
    ensures
        word(runner::quote_body(s) + seq!['\''] + rest, true) == s,
        extent(runner::quote_body(s) + seq!['\''] + rest, true) == runner::quote_body(s).len() + 1,
    decreases s.len(),
{
    let body = runner::quote_body(s);
    let all = body + seq!['\''] + rest;
    if s.len() == 0 {
        assert(all[0] == '\'');
        assert(all.skip(1) =~= rest);
        assert(word(rest, false) =~= s);
        assert(extent(rest, false) == 0);
        assert(body.len() == 0);
    } else {
        let t = s.skip(1);
        let tail = runner::quote_body(t) + seq!['\''] + rest;
        lemma_quoted(t, rest);
        if s[0] == '\'' {
            reveal_strlit("'\\''");
            let mark = "'\\''"@;
            assert(mark =~= seq!['\'', '\\', '\'', '\'']);
            assert(all =~= mark + tail);
            let a = all.skip(1);
            assert(a[0] == '\\' && a[1] == '\'');
            assert(a.skip(2) =~= seq!['\''] + tail);
            let b = a.skip(2);
            assert(b.skip(1) =~= tail);
            assert(word(b, false) == word(tail, true));
            assert(word(a, false) == seq!['\''] + word(b, false));
            assert(extent(b, false) == 1 + extent(tail, true));
            assert(extent(a, false) == 2 + extent(b, false));
            assert(body.len() == 4 + runner::quote_body(t).len());
            assert(seq!['\''] + t =~= s);
        } else {
            assert(all[0] == s[0]);
            assert(all.skip(1) =~= tail);
            assert(seq![s[0]] + t =~= s);
            assert(body.len() == 1 + runner::quote_body(t).len());
        }
    }
}

/// The words of a line that begins with a text that stands for itself.
pub proof fn lemma_bare_first(s: Seq<char>, rest: Seq<char>)
    requires
        is_bare(s),
        ends_word(rest),
    ensures
        words(s + rest) == seq![s] + words(rest),
{
    lemma_bare(s, rest);
    assert((s + rest)[0] == s[0]);
    assert((s + rest).skip(s.len() as int) =~= rest);
}

/// The words of a line that begins with a quoted text.
pub proof fn lemma_quoted_first(s: Seq<char>, rest: Seq<char>)
    requires
        ends_word(rest),
    ensures
        words(seq!['\''] + runner::quote_body(s) + seq!['\''] + rest) == seq![s] + words(rest),
{
    let body = runner::quote_body(s);
    let all = seq!['\''] + body + seq!['\''] + rest;
    lemma_quoted(s, rest);
    assert(all[0] == '\'');
    assert(all.skip(1) =~= body + seq!['\''] + rest);
    assert(all.skip(body.len() as int + 2) =~= rest);
}

/// A space in front of a line.
pub proof fn lemma_space_first(s: Seq<char>)
    ensures
        words(seq![' '] + s) == words(s),
{
    assert((seq![' '] + s)[0] == ' ');
    assert((seq![' '] + s).skip(1) =~= s);
}

/// The words of a line that begins with a text that was escaped.
pub proof fn lemma_escaped_first(s: Seq<char>, rest: Seq<char>)
    requires
        s.len() > 0,
        ends_word(rest),
    ensures
        words(runner::escaped(s) + rest) == seq![s] + words(rest),
{
    if runner::all_plain(s) {
        assert forall|i: int| 0 <= i < s.len() implies !is_blank(#[trigger] s[i]) && s[i]
            != '\'' by {
            assert(runner::is_plain(s[i]));
        }
        lemma_bare_first(s, rest);
    } else {
        reveal_strlit("'");
        lemma_quoted_first(s, rest);
        assert("'"@ =~= seq!['\'']);
        assert(seq!['\''] + runner::quote_body(s) + seq!['\''] + rest =~= runner::escaped(s)
            + rest);
    }
}

/// What was escaped is read as one word, the one that it was.
pub proof fn law_escaped_reads_back(s: Seq<char>)
    requires
        s.len() > 0,
    ensures
        words(runner::escaped(s)) == seq![s],
{
    let none = Seq::<char>::empty();
    assert(words(none) =~= seq![]);
    lemma_escaped_first(s, none);
    assert(runner::escaped(s) + none =~= runner::escaped(s));
    assert(seq![s] + words(none) =~= seq![s]);
}

/// A list of files that was escaped is read as the files, each as one word, in order.
pub proof fn law_escaped_list_reads_back(files: Seq<Seq<char>>)
    requires
        forall|i: int| 0 <= i < files.len() ==> (#[trigger] files[i]).len() > 0,
    ensures
        words(runner::escaped_list(files)) == files,
    decreases files.len(),
{
    let parts = files.map_values(|f: Seq<char>| runner::escaped(f));
    let list = runner::escaped_list(files);
    if files.len() == 0 {
        assert(parts =~= seq![]);
        assert(list =~= seq![]);
        assert(words(list) =~= files);
    } else if files.len() == 1 {
        law_escaped_reads_back(files[0]);
        assert(parts =~= seq![runner::escaped(files[0])]);
        assert(list =~= runner::escaped(files[0])) by {
            assert(parts.drop_last() =~= seq![]);
        }
        assert(seq![files[0]] =~= files);
    } else {
        let rest = files.skip(1);
        assert forall|i: int| 0 <= i < rest.len() implies (#[trigger] rest[i]).len() > 0 by {
            assert(rest[i] == files[i + 1]);
        }
        law_escaped_list_reads_back(rest);
        let others = rest.map_values(|f: Seq<char>| runner::escaped(f));
        assert(parts =~= seq![runner::escaped(files[0])] + others);
        text::lemma_join_front(runner::escaped(files[0]), others, " "@);
        reveal_strlit(" ");
        assert(" "@ =~= seq![' ']);
        let tail = seq![' '] + runner::escaped_list(rest);
        assert(list =~= runner::escaped(files[0]) + tail);
        lemma_escaped_first(files[0], tail);
        lemma_space_first(runner::escaped_list(rest));
        assert(seq![files[0]] + rest =~= files);
    }
}

/// White space outside quotes sets words apart, whichever it is, and is no word itself.
pub proof fn law_words_apart(w: Seq<char>, c: char, rest: Seq<char>)
    requires
        is_bare(w),
        c == ' ' || c == '\t' || c == '\n' || c == '\r' || c == '\u{c}',
    ensures
        words(w + seq![c] + rest) == seq![w] + words(rest),
        words(seq![c] + rest) == words(rest),
        words(w) == seq![w],
        words(Seq::<char>::empty()).len() == 0,
{
    let none = Seq::<char>::empty();
    lemma_bare_first(w, seq![c] + rest);
    assert(w + seq![c] + rest =~= w + (seq![c] + rest));
    assert((seq![c] + rest)[0] == c);
    assert((seq![c] + rest).skip(1) =~= rest);
    lemma_bare_first(w, none);
    assert(w + none =~= w);
    assert(words(none) =~= seq![]);
    assert(seq![w] + words(none) =~= seq![w]);
}

/// What stands between single quotes is one word, white space and all; letters, digits and
/// punctuation but quotes stand for themselves.
pub proof fn law_quoted_word(s: Seq<char>, c: char)
    requires
        !s.contains('\''),
    ensures
        words(seq!['\''] + s + seq!['\'']) == seq![s],
        '!' <= c <= '~' && c != '\'' ==> is_bare(seq![c]),
{
    let none = Seq::<char>::empty();
    lemma_unquoted(s);
    lemma_quoted_first(s, none);
    assert(seq!['\''] + runner::quote_body(s) + seq!['\''] + none =~= seq!['\''] + s + seq!['\'']);
    assert(words(none) =~= seq![]);
    assert(seq![s] + words(none) =~= seq![s]);
}

proof fn lemma_unquoted(s: Seq<char>)
    requires
        !s.contains('\''),
    ensures
        runner::quote_body(s) == s,
    decreases s.len(),
{
    if s.len() == 0 {
        assert(runner::quote_body(s) =~= s);
    } else {
        let t = s.skip(1);
        assert(s.contains(s[0]));
        assert forall|i: int| 0 <= i < t.len() implies t[i] != '\'' by {
            assert(s.contains(s[i + 1]));
        }
        lemma_unquoted(t);
        assert(seq![s[0]] + t =~= s);
    }
}

} // verus!
