//! Text as sequences of characters: the vocabulary that the contracts of the
//! other modules are written in, and the functions that compute it.

use vstd::prelude::*;
use vstd::string::*;

verus! {

broadcast use {group_string_axioms, vstd::seq::group_seq_axioms};

/// `String::push` appends one character.
pub assume_specification[ String::push ](s: &mut String, c: char)
    ensures
        final(s)@ == old(s)@.push(c),
;

/// The characters with the Unicode property `White_Space`.
pub open spec fn is_space(c: char) -> bool {
    ||| '\u{9}' <= c <= '\u{d}'
    ||| c == ' '
    ||| c == '\u{85}'
    ||| c == '\u{a0}'
    ||| c == '\u{1680}'
    ||| '\u{2000}' <= c <= '\u{200a}'
    ||| c == '\u{2028}'
    ||| c == '\u{2029}'
    ||| c == '\u{202f}'
    ||| c == '\u{205f}'
    ||| c == '\u{3000}'
}

/// Is `c` white space?
pub fn is_whitespace(c: char) -> (r: bool)
    ensures
        r == is_space(c),
{
    ('\u{9}' <= c && c <= '\u{d}') || c == ' ' || c == '\u{85}' || c == '\u{a0}' || c == '\u{1680}'
        || ('\u{2000}' <= c && c <= '\u{200a}') || c == '\u{2028}' || c == '\u{2029}'
        || c == '\u{202f}' || c == '\u{205f}' || c == '\u{3000}'
}

/// The contents of each string of a list.
pub open spec fn views(v: Seq<String>) -> Seq<Seq<char>> {
    Seq::new(v.len(), |i: int| v[i]@)
}

/// The contents of each borrowed string of a list.
pub open spec fn str_views(v: Seq<&str>) -> Seq<Seq<char>> {
    Seq::new(v.len(), |i: int| v[i]@)
}

/// The characters of `s`, one by one.
pub fn chars_of(s: &str) -> (v: Vec<char>)
    ensures
        v@ == s@,
{
    let mut v: Vec<char> = Vec::new();
    for c in it: s.chars()
        invariant
            it.seq() == s@,
            v@ == it.seq().take(it.index()),
    {
        v.push(c);
    }
    v
}

/// The text from character `from` up to, not including, character `to`.
pub fn substring(v: &Vec<char>, from: usize, to: usize) -> (r: String)
    requires
        from <= to <= v.len(),
    ensures
        r@ == v@.subrange(from as int, to as int),
{
    let mut out = String::new();
    let mut i: usize = from;
    while i < to
        invariant
            from <= i <= to <= v.len(),
            out@ == v@.subrange(from as int, i as int),
        decreases to - i,
    {
        out.push(v[i]);
        i += 1;
    }
    out
}

/// Do the two texts hold the same characters?
pub fn same(a: &str, b: &str) -> (r: bool)
    ensures
        r == (a@ == b@),
{
    let x: String = a.to_owned();
    let y: String = b.to_owned();
    x == y
}

/// `s` without the white space it starts with.
pub open spec fn trim_start(s: Seq<char>) -> Seq<char>
    decreases s.len(),
{
    if s.len() > 0 && is_space(s[0]) {
        trim_start(s.skip(1))
    } else {
        s
    }
}

/// `s` without the white space it ends with.
pub open spec fn trim_end(s: Seq<char>) -> Seq<char>
    decreases s.len(),
{
    if s.len() > 0 && is_space(s.last()) {
        trim_end(s.drop_last())
    } else {
        s
    }
}

/// `s` without the white space around it.
pub open spec fn trim(s: Seq<char>) -> Seq<char> {
    trim_end(trim_start(s))
}

/// Trimming the front leaves a suffix.
pub proof fn lemma_trim_start(s: Seq<char>)
    ensures
        trim_start(s).len() <= s.len(),
        trim_start(s) == s.skip(s.len() - trim_start(s).len()),
        trim_start(s).len() > 0 ==> !is_space(trim_start(s)[0]),
        forall|i: int| 0 <= i < s.len() - trim_start(s).len() ==> is_space(#[trigger] s[i]),
    decreases s.len(),
{
    if s.len() > 0 && is_space(s[0]) {
        lemma_trim_start(s.skip(1));
        let n = s.len() - trim_start(s).len();
        assert(s.skip(1).skip(n - 1) =~= s.skip(n));
        assert forall|i: int| 0 <= i < n implies is_space(#[trigger] s[i]) by {
            if i > 0 {
                assert(s[i] == s.skip(1)[i - 1]);
            }
        }
    } else {
        assert(s.skip(0) =~= s);
    }
}

/// Trimming the back leaves a prefix.
pub proof fn lemma_trim_end(s: Seq<char>)
    ensures
        trim_end(s).len() <= s.len(),
        trim_end(s) == s.take(trim_end(s).len() as int),
        trim_end(s).len() > 0 ==> !is_space(trim_end(s).last()),
        forall|i: int| trim_end(s).len() <= i < s.len() ==> is_space(#[trigger] s[i]),
    decreases s.len(),
{
    if s.len() > 0 && is_space(s.last()) {
        lemma_trim_end(s.drop_last());
        let n = trim_end(s).len() as int;
        assert(s.drop_last().take(n) =~= s.take(n));
        assert forall|i: int| n <= i < s.len() implies is_space(#[trigger] s[i]) by {
            if i < s.len() - 1 {
                assert(s[i] == s.drop_last()[i]);
            }
        }
    } else {
        assert(s.take(s.len() as int) =~= s);
    }
}

/// Trimming takes the white space around a text, all of it and nothing else.
pub proof fn law_trim(lead: Seq<char>, s: Seq<char>, trail: Seq<char>)
    requires
        forall|i: int| 0 <= i < lead.len() ==> is_space(#[trigger] lead[i]),
        forall|i: int| 0 <= i < trail.len() ==> is_space(#[trigger] trail[i]),
        s.len() > 0 ==> !is_space(s[0]) && !is_space(s.last()),
    ensures
        trim(lead + s + trail) == s,
        trim_end(lead + s + trail) == (if s.len() > 0 {
            lead + s
        } else {
            seq![]
        }),
{
    let all = lead + s + trail;
    let t = trim_start(all);
    let n = all.len() - t.len();
    lemma_trim_start(all);
    lemma_trim_end(t);
    lemma_trim_end(all);
    let u = trim_end(t);
    let w = trim_end(all);
    if s.len() == 0 {
        assert forall|i: int| 0 <= i < all.len() implies is_space(#[trigger] all[i]) by {
            if i < lead.len() {
                assert(all[i] == lead[i]);
            } else {
                assert(all[i] == trail[i - lead.len()]);
            }
        }
        if t.len() > 0 {
            assert(t[0] == all[n]);
        }
        if w.len() > 0 {
            assert(w.last() == all[w.len() - 1]);
        }
        assert(u =~= s);
        assert(w =~= seq![]);
    } else {
        let a = lead.len() as int;
        let b = a + s.len();
        assert(all[a] == s[0] && all[b - 1] == s[s.len() - 1]);
        assert(n == a) by {
            if n < a {
                assert(t[0] == all[n] && all[n] == lead[n]);
            }
            if n > a {
                assert(is_space(all[a]));
            }
        }
        assert(u.len() == s.len()) by {
            if u.len() < s.len() {
                assert(t[s.len() - 1] == all[b - 1]);
            }
            if u.len() > s.len() {
                assert(u.last() == t[u.len() - 1]);
                assert(t[u.len() - 1] == all[a + u.len() - 1]);
                assert(all[a + u.len() - 1] == trail[u.len() - 1 - s.len()]);
            }
        }
        assert(u =~= s) by {
            assert forall|i: int| 0 <= i < s.len() implies u[i] == s[i] by {
                assert(u[i] == t[i] && t[i] == all[a + i]);
            }
        }
        assert(w.len() == b) by {
            if w.len() < b {
                assert(is_space(all[b - 1]));
            }
            if w.len() > b {
                assert(w.last() == all[w.len() - 1]);
                assert(all[w.len() - 1] == trail[w.len() - 1 - b]);
            }
        }
        assert(w =~= lead + s);
    }
}

/// How many white space characters stand at the front of `v`.
fn leading_space(v: &Vec<char>) -> (n: usize)
    ensures
        n <= v.len(),
        trim_start(v@) == v@.skip(n as int),
{
    let mut n: usize = 0;
    proof {
        assert(v@.skip(0) =~= v@);
    }
    while n < v.len() && is_whitespace(v[n])
        invariant
            n <= v.len(),
            trim_start(v@) == trim_start(v@.skip(n as int)),
        decreases v.len() - n,
    {
        proof {
            assert(v@.skip(n as int).skip(1) =~= v@.skip(n + 1));
        }
        n += 1;
    }
    n
}

/// Where the part of `v` from `from` on ends, once its trailing white space
/// is gone.
fn trailing_end(v: &Vec<char>, from: usize) -> (to: usize)
    requires
        from <= v.len(),
    ensures
        from <= to <= v.len(),
        trim_end(v@.skip(from as int)) == v@.subrange(from as int, to as int),
{
    let mut to: usize = v.len();
    proof {
        assert(v@.subrange(from as int, to as int) =~= v@.skip(from as int));
    }
    while to > from && is_whitespace(v[to - 1])
        invariant
            from <= to <= v.len(),
            trim_end(v@.skip(from as int)) == trim_end(v@.subrange(from as int, to as int)),
        decreases to,
    {
        proof {
            assert(v@.subrange(from as int, to as int).drop_last() =~= v@.subrange(
                from as int,
                to - 1,
            ));
        }
        to -= 1;
    }
    to
}

/// `s` without the white space around it.
pub fn trimmed(s: &str) -> (r: String)
    ensures
        r@ == trim(s@),
{
    let v = chars_of(s);
    let from = leading_space(&v);
    let to = trailing_end(&v, from);
    substring(&v, from, to)
}

/// `s` without the white space it ends with.
pub fn trimmed_end(s: &str) -> (r: String)
    ensures
        r@ == trim_end(s@),
{
    let v = chars_of(s);
    let to = trailing_end(&v, 0);
    proof {
        assert(v@.skip(0) =~= v@);
    }
    substring(&v, 0, to)
}

/// The white space that `s` starts with.
pub open spec fn indent_of(s: Seq<char>) -> Seq<char> {
    s.take(s.len() - trim_start(s).len())
}

/// The white space that `s` starts with.
pub fn leading(s: &str) -> (r: String)
    ensures
        r@ == indent_of(s@),
{
    let v = chars_of(s);
    let n = leading_space(&v);
    proof {
        assert(v@.subrange(0, n as int) =~= v@.take(n as int));
    }
    substring(&v, 0, n)
}

/// Where `c` first stands in `s` at or after `from`; the length of `s` if it
/// does not.
pub open spec fn index_from(s: Seq<char>, c: char, from: int) -> int
    decreases s.len() - from,
{
    if from < 0 || from >= s.len() {
        s.len() as int
    } else if s[from] == c {
        from
    } else {
        index_from(s, c, from + 1)
    }
}

/// `index_from` is the least position at or after `from` that holds `c`.
pub proof fn lemma_index_from(s: Seq<char>, c: char, from: int)
    requires
        0 <= from <= s.len(),
    ensures
        from <= index_from(s, c, from) <= s.len(),
        index_from(s, c, from) < s.len() ==> s[index_from(s, c, from)] == c,
        forall|j: int| from <= j < index_from(s, c, from) ==> s[j] != c,
    decreases s.len() - from,
{
    if from < s.len() && s[from] != c {
        lemma_index_from(s, c, from + 1);
    }
}

/// A position that holds `c`, with none before it at or after `from`, is
/// what `index_from` gives.
pub proof fn lemma_index_is(s: Seq<char>, c: char, from: int, at: int)
    requires
        0 <= from <= at <= s.len(),
        at < s.len() ==> s[at] == c,
        forall|j: int| from <= j < at ==> s[j] != c,
    ensures
        index_from(s, c, from) == at,
    decreases s.len() - from,
{
    if from < at {
        lemma_index_is(s, c, from + 1, at);
    }
}

/// Where `c` first stands in `v` at or after `from`; the length of `v` if it
/// does not.
pub fn find_from(v: &Vec<char>, c: char, from: usize) -> (r: usize)
    requires
        from <= v.len(),
    ensures
        r == index_from(v@, c, from as int),
        from <= r <= v.len(),
{
    let mut i: usize = from;
    while i < v.len() && v[i] != c
        invariant
            from <= i <= v.len(),
            index_from(v@, c, from as int) == index_from(v@, c, i as int),
        decreases v.len() - i,
    {
        i += 1;
    }
    i
}

/// Does `c` stand anywhere in `s`?
pub fn has_char(s: &str, c: char) -> (r: bool)
    ensures
        r == s@.contains(c),
{
    let v = chars_of(s);
    let i = find_from(&v, c, 0);
    proof {
        lemma_index_from(v@, c, 0);
    }
    i < v.len()
}

/// `s` without one carriage return at its end.
pub open spec fn strip_cr(s: Seq<char>) -> Seq<char> {
    if s.len() > 0 && s.last() == '\r' {
        s.drop_last()
    } else {
        s
    }
}

/// The lines of `s`. A line ends in a line feed, which a carriage return may
/// precede; the last line may lack it.
pub open spec fn lines(s: Seq<char>) -> Seq<Seq<char>>
    decreases s.len(),
{
    let i = index_from(s, '\n', 0);
    if s.len() == 0 {
        seq![]
    } else if i >= s.len() {
        seq![s]
    } else {
        proof {
            lemma_index_from(s, '\n', 0);
        }
        seq![strip_cr(s.take(i))] + lines(s.skip(i + 1))
    }
}

/// The lines of `s`.
pub fn split_lines(s: &str) -> (r: Vec<String>)
    ensures
        views(r@) == lines(s@),
{
    let v = chars_of(s);
    let mut out: Vec<String> = Vec::new();
    let mut start: usize = 0;
    proof {
        assert(v@.skip(0) =~= v@);
    }
    while start < v.len()
        invariant
            start <= v.len(),
            lines(v@) == views(out@) + lines(v@.skip(start as int)),
        decreases v.len() - start,
    {
        let ghost before = views(out@);
        let ghost rest = v@.skip(start as int);
        let end = find_from(&v, '\n', start);
        proof {
            lemma_index_from(v@, '\n', start as int);
            lemma_index_is(rest, '\n', 0, end - start);
        }
        if end == v.len() {
            out.push(substring(&v, start, end));
            proof {
                assert(v@.subrange(start as int, end as int) =~= rest);
                assert(views(out@) =~= before.push(rest));
                assert(v@.skip(end as int) =~= Seq::<char>::empty());
                assert(before + lines(rest) =~= views(out@) + lines(v@.skip(end as int)));
            }
            start = end;
        } else {
            let to = if end > start && v[end - 1] == '\r' {
                end - 1
            } else {
                end
            };
            out.push(substring(&v, start, to));
            proof {
                assert(strip_cr(rest.take(end - start)) =~= v@.subrange(start as int, to as int));
                assert(rest.skip(end - start + 1) =~= v@.skip(end + 1));
                assert(views(out@) =~= before.push(strip_cr(rest.take(end - start))));
                assert(before + lines(rest) =~= views(out@) + lines(v@.skip(end + 1)));
            }
            start = end + 1;
        }
    }
    proof {
        assert(v@.skip(start as int) =~= Seq::<char>::empty());
        assert(views(out@) + lines(v@.skip(start as int)) =~= views(out@));
    }
    out
}

/// The lines of a text with a line feed in it are those up to the line feed
/// and those after it.
pub proof fn lemma_lines_split(u: Seq<char>, v: Seq<char>)
    ensures
        lines(u + seq!['\n'] + v) == lines(u + seq!['\n']) + lines(v),
    decreases u.len(),
{
    let nl = seq!['\n'];
    let all = u + nl + v;
    let head = u + nl;
    let i = index_from(u, '\n', 0);
    lemma_index_from(u, '\n', 0);
    assert(all[u.len() as int] == '\n');
    assert(head[u.len() as int] == '\n');
    assert forall|j: int| 0 <= j < i implies all[j] != '\n' && head[j] != '\n' by {
        assert(all[j] == u[j]);
        assert(head[j] == u[j]);
    }
    if i < u.len() {
        assert(all[i] == u[i] && head[i] == u[i]);
    }
    lemma_index_is(all, '\n', 0, i);
    lemma_index_is(head, '\n', 0, i);
    assert(all.take(i) =~= head.take(i));
    if i < u.len() {
        let rest = u.skip(i + 1);
        lemma_lines_split(rest, v);
        assert(all.skip(i + 1) =~= rest + nl + v);
        assert(head.skip(i + 1) =~= rest + nl);
        assert(lines(all) =~= lines(head) + lines(v));
    } else {
        assert(all.skip(i + 1) =~= v);
        assert(head.skip(i + 1) =~= Seq::<char>::empty());
        assert(lines(head.skip(i + 1)) =~= seq![]);
        assert(lines(all) =~= lines(head) + lines(v));
    }
}

/// A text that is one line: it holds no line feed and ends in no carriage
/// return.
pub open spec fn is_line(s: Seq<char>) -> bool {
    !s.contains('\n') && strip_cr(s) == s
}

/// A single line, with and without its line feed.
pub proof fn lemma_lines_single(s: Seq<char>)
    requires
        is_line(s),
    ensures
        lines(s + seq!['\n']) == seq![s],
        s.len() > 0 ==> lines(s) == seq![s],
{
    let t = s + seq!['\n'];
    let n = s.len() as int;
    assert forall|j: int| 0 <= j < n implies s[j] != '\n' && t[j] != '\n' by {
        assert(s.contains(s[j]));
        assert(t[j] == s[j]);
    }
    assert(t[n] == '\n');
    lemma_index_is(t, '\n', 0, n);
    lemma_index_is(s, '\n', 0, n);
    assert(t.take(n) =~= s);
    assert(t.skip(n + 1) =~= Seq::<char>::empty());
    assert(lines(t.skip(n + 1)) =~= seq![]);
    assert(lines(t) =~= seq![s]);
}

/// Every text of the list is one line.
pub open spec fn all_lines(ls: Seq<Seq<char>>) -> bool {
    forall|i: int| 0 <= i < ls.len() ==> is_line(#[trigger] ls[i])
}

/// Lines that are joined come apart again.
pub proof fn lemma_lines_join(ls: Seq<Seq<char>>)
    requires
        ls.len() > 0,
        all_lines(ls),
    ensures
        lines(join(ls, seq!['\n']) + seq!['\n']) == ls,
        ls.last().len() > 0 ==> lines(join(ls, seq!['\n'])) == ls,
    decreases ls.len(),
{
    let nl = seq!['\n'];
    let last = ls.last();
    assert(is_line(ls[ls.len() - 1]));
    lemma_lines_single(last);
    if ls.len() == 1 {
        assert(ls =~= seq![last]);
        assert(join(ls, nl) == last);
    } else {
        let front = ls.drop_last();
        assert forall|i: int| 0 <= i < front.len() implies is_line(#[trigger] front[i]) by {
            assert(front[i] == ls[i]);
        }
        lemma_lines_join(front);
        let j = join(front, nl);
        assert(join(ls, nl) == j + nl + last);
        assert(join(ls, nl) + nl =~= j + nl + (last + nl));
        lemma_lines_split(j, last + nl);
        lemma_lines_split(j, last);
        assert(front + seq![last] =~= ls);
    }
}

/// The lines of a text without carriage returns hold neither line feeds nor
/// carriage returns; the last one is not empty if no line feed ends the text.
pub proof fn lemma_lines_are_lines(s: Seq<char>)
    requires
        !s.contains('\r'),
    ensures
        forall|i: int|
            0 <= i < lines(s).len() ==> is_line(#[trigger] lines(s)[i]) && !lines(s)[i].contains(
                '\r',
            ),
        s.len() > 0 ==> lines(s).len() > 0,
        s.len() > 0 && s.last() != '\n' ==> lines(s).last().len() > 0,
    decreases s.len(),
{
    let i = index_from(s, '\n', 0);
    lemma_index_from(s, '\n', 0);
    if s.len() == 0 {
    } else if i >= s.len() {
        assert forall|j: int| 0 <= j < lines(s).len() implies is_line(#[trigger] lines(s)[j])
            && !lines(s)[j].contains('\r') by {
            if s.last() == '\r' {
                assert(s.contains(s[s.len() - 1]));
            }
        }
    } else {
        let head = s.take(i);
        let rest = s.skip(i + 1);
        assert forall|j: int| 0 <= j < s.len() implies s[j] != '\r' by {
            assert(s.contains(s[j]));
        }
        assert(strip_cr(head) == head);
        if rest.contains('\r') {
            let j = choose|j: int| 0 <= j < rest.len() && rest[j] == '\r';
            assert(s[i + 1 + j] == '\r');
        }
        lemma_lines_are_lines(rest);
        assert forall|j: int| 0 <= j < lines(s).len() implies is_line(#[trigger] lines(s)[j])
            && !lines(s)[j].contains('\r') by {
            if j > 0 {
                assert(lines(s)[j] == lines(rest)[j - 1]);
            }
        }
        if s.last() != '\n' {
            assert(rest.len() > 0) by {
                if rest.len() == 0 {
                    assert(i == s.len() - 1);
                }
            }
            assert(rest.last() == s.last());
            assert(lines(s).last() == lines(rest).last());
        }
    }
}

/// No line of a text holds a line feed; the last one is not empty if no line
/// feed ends the text.
pub proof fn lemma_lines_hold_no_feed(s: Seq<char>)
    ensures
        forall|i: int| 0 <= i < lines(s).len() ==> !(#[trigger] lines(s)[i]).contains('\n'),
        s.len() > 0 ==> lines(s).len() > 0,
        s.len() > 0 && s.last() != '\n' ==> lines(s).last().len() > 0,
    decreases s.len(),
{
    let i = index_from(s, '\n', 0);
    lemma_index_from(s, '\n', 0);
    if s.len() > 0 && i < s.len() {
        let rest = s.skip(i + 1);
        lemma_lines_hold_no_feed(rest);
        assert forall|j: int| 0 <= j < lines(s).len() implies !(#[trigger] lines(s)[j]).contains(
            '\n',
        ) by {
            if j > 0 {
                assert(lines(s)[j] == lines(rest)[j - 1]);
            }
        }
        if s.last() != '\n' {
            assert(rest.len() > 0) by {
                if rest.len() == 0 {
                    assert(i == s.len() - 1);
                }
            }
            assert(rest.last() == s.last());
            assert(lines(s).last() == lines(rest).last());
        }
    }
}

/// A line feed behind a text that ends in neither a line feed nor a carriage
/// return adds no line.
pub proof fn lemma_lines_terminated(s: Seq<char>)
    requires
        s.len() > 0,
        s.last() != '\n',
        s.last() != '\r',
    ensures
        lines(s + seq!['\n']) == lines(s),
    decreases s.len(),
{
    let nl = seq!['\n'];
    let t = s + nl;
    let i = index_from(s, '\n', 0);
    lemma_index_from(s, '\n', 0);
    assert(t[s.len() as int] == '\n');
    assert forall|j: int| 0 <= j < i implies t[j] != '\n' by {
        assert(t[j] == s[j]);
    }
    if i < s.len() {
        assert(t[i] == s[i]);
        lemma_index_is(t, '\n', 0, i);
        assert(i != s.len() - 1);
        let rest = s.skip(i + 1);
        assert(rest.last() == s.last());
        lemma_lines_terminated(rest);
        assert(t.skip(i + 1) =~= rest + nl);
        assert(t.take(i) =~= s.take(i));
    } else {
        lemma_index_is(t, '\n', 0, i);
        assert(t.take(i) =~= s);
        assert(t.skip(i + 1) =~= Seq::<char>::empty());
        assert(lines(t.skip(i + 1)) =~= seq![]);
        assert(lines(t) =~= seq![s]);
    }
}

/// Each line without the white space around it.
pub open spec fn trims(ls: Seq<Seq<char>>) -> Seq<Seq<char>> {
    Seq::new(ls.len(), |i: int| trim(ls[i]))
}

/// White space at the end does not change a trimmed text.
pub proof fn lemma_trim_push(s: Seq<char>, w: char)
    requires
        is_space(w),
    ensures
        trim(s.push(w)) == trim(s),
        trim_start(s).len() > 0 ==> trim_start(s.push(w)) == trim_start(s).push(w),
        trim_start(s).len() == 0 ==> trim_start(s.push(w)).len() == 0,
    decreases s.len(),
{
    let t = s.push(w);
    if s.len() == 0 {
        assert(t.skip(1) =~= s);
    } else if is_space(s[0]) {
        assert(t[0] == s[0]);
        lemma_trim_push(s.skip(1), w);
        assert(t.skip(1) =~= s.skip(1).push(w));
    } else {
        assert(t[0] == s[0]);
        assert(t.drop_last() =~= s);
    }
}

/// A carriage return at the end does not change a trimmed text.
pub proof fn lemma_trim_strip_cr(s: Seq<char>)
    ensures
        trim(strip_cr(s)) == trim(s),
{
    if s.len() > 0 && s.last() == '\r' {
        lemma_trim_push(s.drop_last(), '\r');
        assert(s.drop_last().push('\r') =~= s);
    }
}

/// Lines that are joined come apart again, but for white space around them.
pub proof fn lemma_trimmed_lines_join(ls: Seq<Seq<char>>)
    requires
        ls.len() > 0,
        forall|i: int| 0 <= i < ls.len() ==> !(#[trigger] ls[i]).contains('\n'),
    ensures
        trims(lines(join(ls, seq!['\n']) + seq!['\n'])) == trims(ls),
        ls.last().len() > 0 ==> trims(lines(join(ls, seq!['\n']))) == trims(ls),
    decreases ls.len(),
{
    let nl = seq!['\n'];
    let last = ls.last();
    let n = last.len() as int;
    let t = last + nl;
    assert(!ls[ls.len() - 1].contains('\n'));
    assert forall|j: int| 0 <= j < n implies last[j] != '\n' && t[j] != '\n' by {
        assert(last.contains(last[j]));
        assert(t[j] == last[j]);
    }
    assert(t[n] == '\n');
    lemma_index_is(t, '\n', 0, n);
    lemma_index_is(last, '\n', 0, n);
    assert(t.take(n) =~= last);
    assert(t.skip(n + 1) =~= Seq::<char>::empty());
    assert(lines(t.skip(n + 1)) =~= seq![]);
    assert(lines(t) =~= seq![strip_cr(last)]);
    lemma_trim_strip_cr(last);
    if ls.len() == 1 {
        assert(ls =~= seq![last]);
        assert(trims(lines(t)) =~= trims(ls));
        if n > 0 {
            assert(lines(last) =~= seq![last]);
        }
    } else {
        let front = ls.drop_last();
        assert forall|i: int| 0 <= i < front.len() implies !(#[trigger] front[i]).contains(
            '\n',
        ) by {
            assert(front[i] == ls[i]);
        }
        lemma_trimmed_lines_join(front);
        let j = join(front, nl);
        assert(join(ls, nl) == j + nl + last);
        assert(join(ls, nl) + nl =~= j + nl + t);
        lemma_lines_split(j, t);
        lemma_lines_split(j, last);
        let a = lines(j + nl);
        assert(trims(a + lines(t)) =~= trims(a) + trims(lines(t)));
        assert(trims(ls) =~= trims(front) + seq![trim(last)]);
        assert(trims(lines(t)) =~= seq![trim(last)]);
        if n > 0 {
            assert(lines(last) =~= seq![last]);
            assert(trims(a + lines(last)) =~= trims(a) + seq![trim(last)]);
        }
    }
}

/// Joining the lines of a text without carriage returns gives the text back,
/// but for a line feed at its end.
pub proof fn lemma_join_lines(s: Seq<char>)
    requires
        !s.contains('\r'),
        s.len() > 0,
    ensures
        s.last() == '\n' ==> join(lines(s), seq!['\n']) + seq!['\n'] == s,
        s.last() != '\n' ==> join(lines(s), seq!['\n']) == s,
    decreases s.len(),
{
    let nl = seq!['\n'];
    let i = index_from(s, '\n', 0);
    lemma_index_from(s, '\n', 0);
    if i >= s.len() {
        assert(join(seq![s], nl) == s);
    } else {
        let head = s.take(i);
        let rest = s.skip(i + 1);
        assert(strip_cr(head) == head) by {
            if head.len() > 0 && head.last() == '\r' {
                assert(s[i - 1] == '\r');
                assert(s.contains('\r'));
            }
        }
        assert(lines(s) == seq![head] + lines(rest));
        assert(s =~= head + nl + rest);
        if rest.len() == 0 {
            assert(lines(rest) =~= seq![]);
            assert(seq![head] + lines(rest) =~= seq![head]);
            assert(head + nl =~= s);
        } else {
            if rest.contains('\r') {
                let j = choose|j: int| 0 <= j < rest.len() && rest[j] == '\r';
                assert(s[i + 1 + j] == '\r');
            }
            lemma_join_lines(rest);
            lemma_lines_are_lines(rest);
            lemma_join_front(head, lines(rest), nl);
            assert(rest.last() == s.last());
            assert(head + nl + join(lines(rest), nl) + nl =~= head + nl + (join(lines(rest), nl)
                + nl));
        }
    }
}

/// Joining from the front.
pub proof fn lemma_join_front(first: Seq<char>, rest: Seq<Seq<char>>, sep: Seq<char>)
    requires
        rest.len() > 0,
    ensures
        join(seq![first] + rest, sep) == first + sep + join(rest, sep),
    decreases rest.len(),
{
    let all = seq![first] + rest;
    assert(all.last() == rest.last());
    if rest.len() == 1 {
        assert(all.drop_last() =~= seq![first]);
        assert(join(seq![first], sep) == first);
    } else {
        lemma_join_front(first, rest.drop_last(), sep);
        assert(all.drop_last() =~= seq![first] + rest.drop_last());
        assert(join(all, sep) =~= first + sep + join(rest, sep));
    }
}

/// Joining two lists one after the other.
pub proof fn lemma_join_concat(a: Seq<Seq<char>>, b: Seq<Seq<char>>, sep: Seq<char>)
    requires
        a.len() > 0,
        b.len() > 0,
    ensures
        join(a + b, sep) == join(a, sep) + sep + join(b, sep),
    decreases b.len(),
{
    let all = a + b;
    assert(all.last() == b.last());
    if b.len() == 1 {
        assert(all.drop_last() =~= a);
    } else {
        lemma_join_concat(a, b.drop_last(), sep);
        assert(all.drop_last() =~= a + b.drop_last());
        assert(join(all, sep) =~= join(a, sep) + sep + join(b, sep));
    }
}

/// A line of a text and what stands around it: what is before it ends in a line feed,
/// and what is behind it begins with one, if there is anything.
pub open spec fn is_around(p: Seq<char>, q: Seq<char>) -> bool {
    (p.len() == 0 || p.last() == '\n') && (q.len() == 0 || q[0] == '\n')
}

/// Where a line stands in its text, but for a carriage return at its end.
pub proof fn lemma_line_place(s: Seq<char>, i: int) -> (r: (Seq<char>, Seq<char>, Seq<char>))
    requires
        0 <= i < lines(s).len(),
    ensures
        s == r.0 + r.1 + r.2,
        is_around(r.0, r.2),
        trim(r.1) == trim(lines(s)[i]),
    decreases s.len(),
{
    let none = Seq::<char>::empty();
    let at = index_from(s, '\n', 0);
    lemma_index_from(s, '\n', 0);
    if at >= s.len() {
        assert(s =~= none + s + none);
        (none, s, none)
    } else if i == 0 {
        lemma_trim_strip_cr(s.take(at));
        assert(s =~= none + s.take(at) + s.skip(at));
        (none, s.take(at), s.skip(at))
    } else {
        let rest = s.skip(at + 1);
        let (p, l, q) = lemma_line_place(rest, i - 1);
        let front = s.take(at + 1) + p;
        assert(s =~= s.take(at + 1) + rest);
        assert(front + l + q =~= s.take(at + 1) + (p + l + q));
        assert(lines(s)[i] == lines(rest)[i - 1]);
        if p.len() == 0 {
            assert(front.last() == s[at]);
        }
        (front, l, q)
    }
}

/// Where a line stands in the text that it is joined to.
pub proof fn lemma_joined_place(ls: Seq<Seq<char>>, i: int) -> (r: (Seq<char>, Seq<char>))
    requires
        0 <= i < ls.len(),
    ensures
        join(ls, seq!['\n']) == r.0 + ls[i] + r.1,
        is_around(r.0, r.1),
{
    let nl = seq!['\n'];
    let none = Seq::<char>::empty();
    let own = seq![ls[i]];
    let before = ls.take(i);
    let behind = ls.skip(i + 1);
    let upto = ls.take(i + 1);
    assert(upto =~= before + own);
    assert(ls =~= upto + behind);
    assert(join(own, nl) == ls[i]);
    let p = if i == 0 {
        none
    } else {
        join(before, nl) + nl
    };
    let q = if i == ls.len() - 1 {
        none
    } else {
        nl + join(behind, nl)
    };
    if i == 0 {
        assert(upto =~= own);
        assert(join(upto, nl) =~= p + ls[i]);
    } else {
        lemma_join_concat(before, own, nl);
    }
    if i == ls.len() - 1 {
        assert(upto =~= ls);
        assert(join(ls, nl) =~= p + ls[i] + q);
    } else {
        lemma_join_concat(upto, behind, nl);
        assert(join(ls, nl) =~= p + ls[i] + q);
    }
    (p, q)
}

/// A text without the white space around it is a line of it without the white space
/// around that, if the line has more than white space and no line feed is left.
pub proof fn lemma_trim_around(p: Seq<char>, l: Seq<char>, q: Seq<char>)
    requires
        is_around(p, q),
        trim(l).len() > 0,
    ensures
        trim(p + l + q).len() > 0,
        trim(p + l + q).contains('\n') || trim(p + l + q) == trim(l),
{
    let s = p + l + q;
    let ts = trim_start(s);
    let t = trim(s);
    let c = s.len() - ts.len();
    let d = c + t.len();
    lemma_trim_start(s);
    lemma_trim_end(ts);
    let tl = trim_start(l);
    let u = trim(l);
    let a = l.len() - tl.len();
    let b = a + u.len();
    lemma_trim_start(l);
    lemma_trim_end(tl);
    let n = p.len() as int;
    assert(u[0] == tl[0] && tl[0] == l[a]);
    assert(u.last() == l[b - 1]) by {
        assert(u.last() == tl[b - a - 1]);
    }
    assert(s[n + a] == l[a] && s[n + b - 1] == l[b - 1]);
    assert(!is_space(s[n + a]) && !is_space(s[n + b - 1]));
    assert(c <= n + a);
    assert(d >= n + b) by {
        if d < n + b {
            assert(ts[n + b - 1 - c] == s[n + b - 1]);
        }
    }
    assert(t =~= s.subrange(c, d));
    if !t.contains('\n') {
        assert(c >= n) by {
            if c < n {
                assert(s[n - 1] == '\n');
                assert(t[n - 1 - c] == '\n');
            }
        }
        assert(c == n + a) by {
            if c < n + a {
                assert(s[c] == l[c - n]);
                assert(is_space(l[c - n]));
                assert(ts[0] == s[c]);
            }
        }
        assert(d <= n + l.len()) by {
            if d > n + l.len() {
                assert(s[n + l.len()] == q[0]);
                assert(t[n + l.len() - c] == '\n');
            }
        }
        assert(d == n + b) by {
            if d > n + b {
                assert(t.last() == s[d - 1]);
                assert(s[d - 1] == l[d - 1 - n]);
                assert(tl[d - 1 - n - a] == l[d - 1 - n]);
                assert(is_space(tl[d - 1 - n - a]));
                assert(t.last() == ts[t.len() - 1]);
            }
        }
        assert(t =~= u) by {
            assert forall|k: int| 0 <= k < u.len() implies t[k] == u[k] by {
                assert(t[k] == s[c + k]);
                assert(s[c + k] == l[a + k]);
                assert(u[k] == tl[k] && tl[k] == l[a + k]);
            }
        }
    }
}

/// The parts one after another, with `sep` between each two.
pub open spec fn join(parts: Seq<Seq<char>>, sep: Seq<char>) -> Seq<char>
    decreases parts.len(),
{
    if parts.len() == 0 {
        seq![]
    } else if parts.len() == 1 {
        parts[0]
    } else {
        join(parts.drop_last(), sep) + sep + parts.last()
    }
}

/// The parts one after another, with `sep` between each two.
pub fn joined(parts: &Vec<String>, sep: &str) -> (r: String)
    ensures
        r@ == join(views(parts@), sep@),
{
    let mut out = String::new();
    let mut i: usize = 0;
    while i < parts.len()
        invariant
            i <= parts.len(),
            out@ == join(views(parts@).take(i as int), sep@),
        decreases parts.len() - i,
    {
        if i > 0 {
            out.append(sep);
        }
        out.append(parts[i].as_str());
        proof {
            let all = views(parts@).take(i + 1);
            assert(all.drop_last() =~= views(parts@).take(i as int));
            if i == 0 {
                assert(Seq::<char>::empty() + parts[0]@ =~= parts[0]@);
            }
        }
        i += 1;
    }
    proof {
        assert(views(parts@).take(i as int) =~= views(parts@));
    }
    out
}

/// The text between the occurrences of `c`.
pub open spec fn pieces(s: Seq<char>, c: char) -> Seq<Seq<char>>
    decreases s.len(),
{
    let i = index_from(s, c, 0);
    if i >= s.len() {
        seq![s]
    } else {
        proof {
            lemma_index_from(s, c, 0);
        }
        seq![s.take(i)] + pieces(s.skip(i + 1), c)
    }
}

/// The pieces of a text hold no separator, and joined by it they are the text again.
pub proof fn law_pieces(s: Seq<char>, c: char)
    ensures
        pieces(s, c).len() > 0,
        forall|i: int| 0 <= i < pieces(s, c).len() ==> !(#[trigger] pieces(s, c)[i]).contains(c),
        join(pieces(s, c), seq![c]) == s,
    decreases s.len(),
{
    let at = index_from(s, c, 0);
    lemma_index_from(s, c, 0);
    let all = pieces(s, c);
    if at >= s.len() {
        assert(join(all, seq![c]) == s);
        assert forall|i: int| 0 <= i < all.len() implies !(#[trigger] all[i]).contains(c) by {
            if all[i].contains(c) {
                let j = choose|j: int| 0 <= j < s.len() && s[j] == c;
                assert(s[j] != c);
            }
        }
    } else {
        let rest = pieces(s.skip(at + 1), c);
        law_pieces(s.skip(at + 1), c);
        lemma_join_front(s.take(at), rest, seq![c]);
        assert(s =~= s.take(at) + seq![c] + s.skip(at + 1));
        assert forall|i: int| 0 <= i < all.len() implies !(#[trigger] all[i]).contains(c) by {
            if i == 0 {
                if all[0].contains(c) {
                    let j = choose|j: int| 0 <= j < at && s.take(at)[j] == c;
                    assert(s[j] != c);
                }
            } else {
                assert(all[i] == rest[i - 1]);
            }
        }
    }
}

/// What is behind the last separator of a text is its last piece.
pub proof fn lemma_last_piece(a: Seq<char>, b: Seq<char>, c: char)
    requires
        !b.contains(c),
    ensures
        pieces(b, c) == seq![b],
        pieces(a + seq![c] + b, c) == pieces(a, c) + seq![b],
    decreases a.len(),
{
    assert forall|j: int| 0 <= j < b.len() implies b[j] != c by {
        assert(b.contains(b[j]));
    }
    lemma_index_is(b, c, 0, b.len() as int);
    let all = a + seq![c] + b;
    let at = index_from(a, c, 0);
    lemma_index_from(a, c, 0);
    assert(all[a.len() as int] == c);
    assert forall|j: int| 0 <= j < at implies all[j] != c by {
        assert(all[j] == a[j]);
    }
    if at < a.len() {
        assert(all[at] == a[at]);
    }
    lemma_index_is(all, c, 0, at);
    if at >= a.len() {
        assert(all.take(at) =~= a);
        assert(all.skip(at + 1) =~= b);
        assert(pieces(a, c) =~= seq![a]);
        assert(pieces(all, c) =~= seq![all.take(at)] + pieces(b, c));
        assert(pieces(all, c) =~= pieces(a, c) + seq![b]);
    } else {
        let rest = a.skip(at + 1);
        lemma_last_piece(rest, b, c);
        assert(all.take(at) =~= a.take(at));
        assert(all.skip(at + 1) =~= rest + seq![c] + b);
        assert(pieces(all, c) =~= seq![a.take(at)] + (pieces(rest, c) + seq![b]));
        assert(pieces(a, c) =~= seq![a.take(at)] + pieces(rest, c));
        assert(pieces(all, c) =~= pieces(a, c) + seq![b]);
    }
}

/// The text between the occurrences of `c`.
pub fn split_at(s: &str, c: char) -> (r: Vec<String>)
    ensures
        views(r@) == pieces(s@, c),
        r.len() > 0,
{
    let v = chars_of(s);
    let mut out: Vec<String> = Vec::new();
    let mut from: usize = 0;
    proof {
        assert(v@.skip(0) =~= v@);
        assert(views(out@) + pieces(v@, c) =~= pieces(v@, c));
    }
    loop
        invariant
            from <= v.len(),
            v@ == s@,
            pieces(s@, c) == views(out@) + pieces(v@.skip(from as int), c),
        decreases v.len() - from,
    {
        let ghost rest = v@.skip(from as int);
        let ghost before = views(out@);
        let to = find_from(&v, c, from);
        proof {
            lemma_index_from(v@, c, from as int);
            if to < v.len() {
                assert(rest[to - from] == c);
            }
            assert forall|j: int| 0 <= j < to - from implies rest[j] != c by {
                assert(rest[j] == v@[from + j]);
            }
            lemma_index_is(rest, c, 0, to - from);
            assert(rest.take(to - from) =~= v@.subrange(from as int, to as int));
        }
        out.push(substring(&v, from, to));
        proof {
            assert(views(out@) =~= before.push(rest.take(to - from)));
        }
        if to >= v.len() {
            proof {
                assert(rest.take(to - from) =~= rest);
                assert(before + seq![rest] =~= views(out@));
                assert(views(out@).len() == out@.len());
            }
            return out;
        }
        proof {
            assert(rest.skip(to - from + 1) =~= v@.skip(to + 1));
            assert(before + (seq![rest.take(to - from)] + pieces(v@.skip(to + 1), c)) =~= views(
                out@,
            ) + pieces(v@.skip(to + 1), c));
        }
        from = to + 1;
    }
}

/// How many characters stand at the front of `s` before the first white
/// space.
pub open spec fn word_len(s: Seq<char>) -> int
    decreases s.len(),
{
    if s.len() == 0 || is_space(s[0]) {
        0
    } else {
        1 + word_len(s.skip(1))
    }
}

/// A word is no longer than its text, holds no white space, and ends at white
/// space or at the end.
pub proof fn lemma_word_len(s: Seq<char>)
    ensures
        0 <= word_len(s) <= s.len(),
        s.len() > 0 && !is_space(s[0]) ==> word_len(s) > 0,
        forall|i: int| 0 <= i < word_len(s) ==> !is_space(#[trigger] s[i]),
        word_len(s) < s.len() ==> is_space(s[word_len(s)]),
    decreases s.len(),
{
    if s.len() > 0 && !is_space(s[0]) {
        lemma_word_len(s.skip(1));
        assert forall|i: int| 0 <= i < word_len(s) implies !is_space(#[trigger] s[i]) by {
            if i > 0 {
                assert(s[i] == s.skip(1)[i - 1]);
            }
        }
    }
}

/// The words of `s`: the longest runs without white space, in order.
pub open spec fn words(s: Seq<char>) -> Seq<Seq<char>>
    decreases s.len(),
{
    let t = trim_start(s);
    if t.len() == 0 {
        seq![]
    } else {
        proof {
            lemma_trim_start(s);
            lemma_word_len(t);
        }
        seq![t.take(word_len(t))] + words(t.skip(word_len(t)))
    }
}

/// The words of `s`.
pub fn split_words(s: &str) -> (r: Vec<String>)
    ensures
        views(r@) == words(s@),
{
    let v = chars_of(s);
    let mut out: Vec<String> = Vec::new();
    let mut start: usize = 0;
    proof {
        assert(v@.skip(0) =~= v@);
    }
    while start < v.len()
        invariant
            start <= v.len(),
            words(v@) == views(out@) + words(v@.skip(start as int)),
        decreases v.len() - start,
    {
        let ghost before = views(out@);
        let ghost rest = v@.skip(start as int);
        if is_whitespace(v[start]) {
            proof {
                assert(rest.skip(1) =~= v@.skip(start + 1));
                assert(trim_start(rest) == trim_start(rest.skip(1)));
            }
            start += 1;
        } else {
            let mut end: usize = start;
            while end < v.len() && !is_whitespace(v[end])
                invariant
                    start <= end <= v.len(),
                    start < v.len(),
                    !is_space(v@[start as int]),
                    word_len(v@.skip(start as int)) == end - start + word_len(v@.skip(end as int)),
                decreases v.len() - end,
            {
                proof {
                    assert(v@.skip(end as int).skip(1) =~= v@.skip(end + 1));
                }
                end += 1;
            }
            out.push(substring(&v, start, end));
            proof {
                let n = end - start;
                lemma_word_len(rest);
                assert(word_len(rest) == n);
                assert(rest.take(n) =~= v@.subrange(start as int, end as int));
                assert(rest.skip(n) =~= v@.skip(end as int));
                assert(views(out@) =~= before.push(rest.take(n)));
                assert(before + words(rest) =~= views(out@) + words(v@.skip(end as int)));
            }
            start = end;
        }
    }
    proof {
        assert(v@.skip(start as int) =~= Seq::<char>::empty());
        assert(views(out@) + words(v@.skip(start as int)) =~= views(out@));
    }
    out
}

/// Does `s` begin with `prefix`?
pub fn begins_with(s: &str, prefix: &str) -> (r: bool)
    ensures
        r == prefix@.is_prefix_of(s@),
{
    let v = chars_of(s);
    let p = chars_of(prefix);
    if p.len() > v.len() {
        return false;
    }
    let mut i: usize = 0;
    while i < p.len()
        invariant
            i <= p.len() <= v.len(),
            p@ == prefix@,
            v@ == s@,
            forall|j: int| 0 <= j < i ==> p@[j] == v@[j],
        decreases p.len() - i,
    {
        if p[i] != v[i] {
            proof {
                assert(p@[i as int] != v@.subrange(0, p@.len() as int)[i as int]);
            }
            return false;
        }
        i += 1;
    }
    proof {
        assert(p@ =~= v@.subrange(0, p@.len() as int));
    }
    true
}

/// What follows `prefix` in `s`, if `s` begins with it.
pub fn strip_front(s: &str, prefix: &str) -> (r: Option<String>)
    ensures
        r is Some <==> prefix@.is_prefix_of(s@),
        r matches Some(t) ==> t@ == s@.skip(prefix@.len() as int),
{
    if begins_with(s, prefix) {
        let v = chars_of(s);
        let n = chars_of(prefix).len();
        proof {
            assert(v@.subrange(n as int, v@.len() as int) =~= v@.skip(n as int));
        }
        Some(substring(&v, n, v.len()))
    } else {
        None
    }
}

/// Is `s` one of the texts of `list`?
pub fn listed(list: &Vec<String>, s: &str) -> (r: bool)
    ensures
        r == views(list@).contains(s@),
{
    let mut i: usize = 0;
    while i < list.len()
        invariant
            i <= list.len(),
            forall|j: int| 0 <= j < i ==> views(list@)[j] != s@,
        decreases list.len() - i,
    {
        if same(list[i].as_str(), s) {
            proof {
                assert(views(list@)[i as int] == s@);
            }
            return true;
        }
        i += 1;
    }
    false
}

/// What one element more adds to the front of a list.
pub proof fn lemma_take_contains(list: Seq<Seq<char>>, n: int)
    requires
        0 <= n < list.len(),
    ensures
        forall|p: Seq<char>| #[trigger]
            list.take(n + 1).contains(p) <==> list.take(n).contains(p) || p == list[n],
{
    let more = list.take(n + 1);
    let less = list.take(n);
    assert forall|p: Seq<char>| #[trigger] more.contains(p) <==> less.contains(p) || p
        == list[n] by {
        if more.contains(p) {
            let j = choose|j: int| 0 <= j < more.len() && more[j] == p;
            if j < n {
                assert(less[j] == p);
            }
        }
        if less.contains(p) {
            let j = choose|j: int| 0 <= j < less.len() && less[j] == p;
            assert(more[j] == p);
        }
        if p == list[n] {
            assert(more[n] == p);
        }
    }
}

/// What is kept of a list is what is in it and passes.
pub proof fn lemma_filter_contains(
    list: Seq<Seq<char>>,
    keep: spec_fn(Seq<char>) -> bool,
    p: Seq<char>,
)
    ensures
        list.filter(keep).contains(p) <==> list.contains(p) && keep(p),
    decreases list.len(),
{
    reveal(Seq::filter);
    if list.len() > 0 {
        let front = list.drop_last();
        let last = list.last();
        lemma_filter_contains(front, keep, p);
        let before = front.filter(keep);
        let all = list.filter(keep);
        if before.contains(p) {
            let i = choose|i: int| 0 <= i < before.len() && before[i] == p;
            assert(all[i] == p);
        }
        if front.contains(p) {
            let i = choose|i: int| 0 <= i < front.len() && front[i] == p;
            assert(list[i] == p);
        }
        if list.contains(p) && !front.contains(p) {
            let i = choose|i: int| 0 <= i < list.len() && list[i] == p;
            if i < front.len() {
                assert(front[i] == p);
            }
            if keep(p) {
                assert(all[all.len() - 1] == p);
            }
        }
        if all.contains(p) && !before.contains(p) {
            assert(list[list.len() - 1] == p);
        }
    }
}

// ---- numbers ----

/// The decimal digit for `d`.
pub open spec fn digit(d: int) -> char {
    (('0' as int) + d) as char
}

/// `n` in decimal.
pub open spec fn decimal(n: nat) -> Seq<char>
    decreases n,
{
    if n < 10 {
        seq![digit(n as int)]
    } else {
        decimal(n / 10).push(digit((n % 10) as int))
    }
}

/// `n` in decimal.
pub fn decimal_text(n: u128) -> (r: String)
    ensures
        r@ == decimal(n as nat),
    decreases n,
{
    let d: u8 = (n % 10) as u8;
    let c: char = (48u8 + d) as char;
    if n < 10 {
        let mut out = String::new();
        out.push(c);
        proof {
            assert(out@ =~= seq![digit(n as int)]);
        }
        out
    } else {
        let mut out = decimal_text(n / 10);
        out.push(c);
        out
    }
}

/// Is `c` a decimal digit?
pub open spec fn is_digit(c: char) -> bool {
    '0' <= c <= '9'
}

/// The number that the digits of `s` spell, if they all are digits.
pub open spec fn digits_value(s: Seq<char>) -> nat
    decreases s.len(),
{
    if s.len() == 0 {
        0
    } else {
        digits_value(s.drop_last()) * 10 + (s.last() as int - '0' as int) as nat
    }
}

/// `s` without one plus sign in front.
pub open spec fn unsigned(s: Seq<char>) -> Seq<char> {
    if s.len() > 0 && s[0] == '+' {
        s.skip(1)
    } else {
        s
    }
}

/// The number that `s` spells: at least one digit and nothing else, but for a
/// plus sign in front, and no more than a `usize` holds.
pub open spec fn number(s: Seq<char>) -> Option<nat> {
    let t = unsigned(s);
    if t.len() > 0 && (forall|i: int| 0 <= i < t.len() ==> is_digit(#[trigger] t[i]))
        && digits_value(t) <= usize::MAX {
        Some(digits_value(t))
    } else {
        None
    }
}

/// The digits in front spell no larger a number than all of them.
proof fn lemma_digits_value_prefix(s: Seq<char>, n: int)
    requires
        0 <= n <= s.len(),
    ensures
        digits_value(s.take(n)) <= digits_value(s),
    decreases s.len() - n,
{
    if n == s.len() {
        assert(s.take(n) =~= s);
    } else {
        lemma_digits_value_prefix(s, n + 1);
        assert(s.take(n + 1).drop_last() =~= s.take(n));
    }
}

/// A number in decimal is one digit or more, the last of which is what is left of it
/// by tens, and those in front are the number of tens.
pub proof fn law_decimal(n: nat)
    ensures
        decimal(n).len() > 0,
        forall|i: int| 0 <= i < decimal(n).len() ==> '0' <= #[trigger] decimal(n)[i] <= '9',
        decimal(n).last() as int == '0' as int + n % 10,
        n < 10 ==> decimal(n).len() == 1,
        n >= 10 ==> decimal(n).drop_last() == decimal(n / 10),
    decreases n,
{
    if n >= 10 {
        law_decimal(n / 10);
        assert(decimal(n).drop_last() =~= decimal(n / 10));
        assert forall|i: int| 0 <= i < decimal(n).len() implies '0' <= #[trigger] decimal(n)[i]
            <= '9' by {
            if i < decimal(n).len() - 1 {
                assert(decimal(n)[i] == decimal(n / 10)[i]);
            }
        }
    }
}

/// A number that was written in decimal is read back as it was, if a `usize` holds it.
pub proof fn law_decimal_reads_back(n: nat)
    ensures
        digits_value(decimal(n)) == n,
        n <= usize::MAX ==> number(decimal(n)) == Some(n),
    decreases n,
{
    law_decimal(n);
    let t = decimal(n);
    if n >= 10 {
        law_decimal_reads_back(n / 10);
    } else {
        assert(t.drop_last() =~= Seq::<char>::empty());
        assert(digits_value(t.drop_last()) == 0);
    }
    assert(digits_value(t) == digits_value(t.drop_last()) * 10 + n % 10);
    assert(t[0] != '+');
}

/// The number that `s` spells.
pub fn parse_number(s: &str) -> (r: Option<usize>)
    ensures
        r is Some <==> number(s@) is Some,
        r matches Some(n) ==> number(s@) == Some(n as nat),
{
    let v = chars_of(s);
    let start: usize = if v.len() > 0 && v[0] == '+' {
        1
    } else {
        0
    };
    let ghost t = unsigned(s@);
    proof {
        assert(v@.skip(0) =~= v@);
        assert(t == v@.skip(start as int));
    }
    if start == v.len() {
        return None;
    }
    let mut total: usize = 0;
    let mut i: usize = start;
    proof {
        assert(t.take(0) =~= Seq::<char>::empty());
    }
    while i < v.len()
        invariant
            start <= i <= v.len(),
            start < v.len(),
            t == v@.skip(start as int),
            t == unsigned(s@),
            total == digits_value(t.take(i - start)),
            forall|j: int| 0 <= j < i - start ==> is_digit(#[trigger] t[j]),
        decreases v.len() - i,
    {
        let c = v[i];
        proof {
            assert(c == t[i - start]);
        }
        if c < '0' || c > '9' {
            proof {
                assert(!is_digit(t[i - start]));
            }
            return None;
        }
        let d: usize = (c as u32 - '0' as u32) as usize;
        proof {
            assert(t.take(i - start + 1).drop_last() =~= t.take(i - start));
            assert(digits_value(t.take(i - start + 1)) == total * 10 + d);
            lemma_digits_value_prefix(t, i - start + 1);
        }
        match total.checked_mul(10) {
            None => {
                return None;
            },
            Some(ten) => match ten.checked_add(d) {
                None => {
                    return None;
                },
                Some(next) => {
                    total = next;
                },
            },
        }
        i += 1;
    }
    proof {
        assert(t.take(i - start) =~= t);
    }
    Some(total)
}

// ---- laws ----

/// A line feed ends a line, and so does one with a carriage return before it; what is
/// behind is read by itself.
pub proof fn law_line_breaks(line: Seq<char>, rest: Seq<char>)
    requires
        !line.contains('\n'),
    ensures
        line.len() == 0 || line.last() != '\r' ==> lines(line + seq!['\n'] + rest) == seq![line]
            + lines(rest),
        lines(line + seq!['\r'] + seq!['\n'] + rest) == seq![line] + lines(rest),
        lines(Seq::<char>::empty()).len() == 0,
        line.len() > 0 ==> lines(line) == seq![line],
{
    let cr = line + seq!['\r'];
    assert forall|j: int| 0 <= j < line.len() implies line[j] != '\n' by {
        assert(line.contains(line[j]));
    }
    let a = line + seq!['\n'] + rest;
    lemma_index_is(a, '\n', 0, line.len() as int);
    assert(a.take(line.len() as int) =~= line);
    assert(a.skip(line.len() as int + 1) =~= rest);
    let b = cr + seq!['\n'] + rest;
    assert forall|j: int| 0 <= j < cr.len() implies b[j] != '\n' by {
        assert(b[j] == cr[j]);
    }
    lemma_index_is(b, '\n', 0, cr.len() as int);
    assert(b.take(cr.len() as int) =~= cr);
    assert(b.skip(cr.len() as int + 1) =~= rest);
    assert(cr.drop_last() =~= line);
    if line.len() > 0 {
        lemma_index_is(line, '\n', 0, line.len() as int);
    }
}

/// Spaces, tabs and line breaks are white space; letters, digits and punctuation are not.
pub proof fn law_white_space(c: char)
    ensures
        c == ' ' || c == '\t' || c == '\n' || c == '\r' ==> is_space(c),
        '!' <= c <= '~' ==> !is_space(c),
{
}

/// White space sets words apart and is no word itself.
pub proof fn law_words(w: Seq<char>, c: char, rest: Seq<char>)
    requires
        w.len() > 0,
        forall|i: int| 0 <= i < w.len() ==> !is_space(#[trigger] w[i]),
        is_space(c),
    ensures
        words(Seq::<char>::empty()).len() == 0,
        words(w) == seq![w],
        words(w + seq![c] + rest) == seq![w] + words(seq![c] + rest),
        words(seq![c] + rest) == words(rest),
{
    let none = Seq::<char>::empty();
    let tail = seq![c] + rest;
    assert(tail[0] == c);
    assert(tail.skip(1) =~= rest);
    assert(trim_start(tail) == trim_start(rest));
    lemma_first_word(w, tail);
    assert(w + seq![c] + rest =~= w + tail);
    lemma_first_word(w, none);
    assert(w + none =~= w);
    assert(words(none) =~= seq![]);
    assert(seq![w] + words(none) =~= seq![w]);
}

proof fn lemma_first_word(w: Seq<char>, tail: Seq<char>)
    requires
        w.len() > 0,
        forall|i: int| 0 <= i < w.len() ==> !is_space(#[trigger] w[i]),
        tail.len() > 0 ==> is_space(tail[0]),
    ensures
        words(w + tail) == seq![w] + words(tail),
{
    let s = w + tail;
    assert(s[0] == w[0]);
    assert(trim_start(s) == s);
    lemma_word_len(s);
    let n = word_len(s);
    assert(n == w.len()) by {
        if n < w.len() {
            assert(s[n] == w[n]);
        }
        if n > w.len() {
            assert(s[w.len() as int] == tail[0]);
        }
    }
    assert(s.take(n) =~= w);
    assert(s.skip(n) =~= tail);
}

} // verus!
