//! How a hook's command is put together, and what comes of running it.

use crate::config;
use crate::pattern;
use crate::shell;
use crate::text;
use vstd::prelude::*;
use vstd::string::*;

verus! {

broadcast use {group_string_axioms, vstd::seq::group_seq_axioms};

// ---- shell quoting ----

/// The characters that stand for themselves in an unquoted shell word.
pub open spec fn is_plain(c: char) -> bool {
    ||| 'a' <= c <= 'z'
    ||| 'A' <= c <= 'Z'
    ||| '0' <= c <= '9'
    ||| c == '.'
    ||| c == '-'
    ||| c == '_'
    ||| c == '/'
    ||| c == '@'
    ||| c == ':'
    ||| c == '+'
    ||| c == ','
}

fn plain(c: char) -> (r: bool)
    ensures
        r == is_plain(c),
{
    ('a' <= c && c <= 'z') || ('A' <= c && c <= 'Z') || ('0' <= c && c <= '9') || c == '.' || c
        == '-' || c == '_' || c == '/' || c == '@' || c == ':' || c == '+' || c == ','
}

/// Every character stands for itself.
pub open spec fn all_plain(s: Seq<char>) -> bool {
    forall|i: int| 0 <= i < s.len() ==> is_plain(#[trigger] s[i])
}

/// `s` with each single quote written so that it can stand between single
/// quotes: the quote is closed, a quote escaped, and the quote opened again.
pub open spec fn quote_body(s: Seq<char>) -> Seq<char>
    decreases s.len(),
{
    if s.len() == 0 {
        seq![]
    } else if s[0] == '\'' {
        "'\\''"@ + quote_body(s.skip(1))
    } else {
        seq![s[0]] + quote_body(s.skip(1))
    }
}

/// `s` as one shell word.
pub open spec fn escaped(s: Seq<char>) -> Seq<char> {
    if all_plain(s) {
        s
    } else {
        "'"@ + quote_body(s) + "'"@
    }
}

/// `s` with each single quote written so that it can stand between single
/// quotes.
pub fn quote_inside(s: &str) -> (r: String)
    ensures
        r@ == quote_body(s@),
{
    let v = text::chars_of(s);
    let mut out = String::new();
    let mut i: usize = 0;
    proof {
        assert(v@.skip(0) =~= v@);
    }
    while i < v.len()
        invariant
            i <= v.len(),
            quote_body(v@) == out@ + quote_body(v@.skip(i as int)),
        decreases v.len() - i,
    {
        let ghost before = out@;
        let ghost rest = v@.skip(i as int);
        proof {
            assert(rest.skip(1) =~= v@.skip(i + 1));
        }
        if v[i] == '\'' {
            out.append("'\\''");
            proof {
                assert(before + quote_body(rest) =~= out@ + quote_body(v@.skip(i + 1)));
            }
        } else {
            out.push(v[i]);
            proof {
                assert(before + quote_body(rest) =~= out@ + quote_body(v@.skip(i + 1)));
            }
        }
        i += 1;
    }
    proof {
        assert(v@.skip(i as int) =~= Seq::<char>::empty());
        assert(out@ + quote_body(v@.skip(i as int)) =~= out@);
    }
    out
}

/// `s` as one shell word.
pub fn shell_escape(s: &str) -> (r: String)
    ensures
        r@ == escaped(s@),
{
    let v = text::chars_of(s);
    let mut i: usize = 0;
    while i < v.len()
        invariant
            i <= v.len(),
            v@ == s@,
            forall|j: int| 0 <= j < i ==> is_plain(#[trigger] v@[j]),
        decreases v.len() - i,
    {
        if !plain(v[i]) {
            proof {
                assert(!is_plain(s@[i as int]));
            }
            return String::from_str("'").concat(quote_inside(s).as_str()).concat("'");
        }
        i += 1;
    }
    s.to_owned()
}

/// What a POSIX shell reads `s` as, if it is a single word made of plain
/// characters, backslash escapes and single quotes alone; `quoted` says that
/// a single quote is open.
pub open spec fn shell_word(s: Seq<char>, quoted: bool) -> Option<Seq<char>>
    decreases s.len(),
{
    if s.len() == 0 {
        if quoted {
            None
        } else {
            Some(seq![])
        }
    } else if s[0] == '\'' {
        shell_word(s.skip(1), !quoted)
    } else if !quoted && s[0] == '\\' {
        if s.len() < 2 {
            None
        } else {
            match shell_word(s.skip(2), false) {
                Some(w) => Some(seq![s[1]] + w),
                None => None,
            }
        }
    } else if quoted || is_plain(s[0]) {
        match shell_word(s.skip(1), quoted) {
            Some(w) => Some(seq![s[0]] + w),
            None => None,
        }
    } else {
        None
    }
}

/// Escaping is faithful: a shell reads the escaped text as one word, which is
/// the text itself. (An empty text is left out: it escapes to nothing, which
/// a shell reads as no word at all.)
pub proof fn law_escape_is_one_word(s: Seq<char>)
    requires
        s.len() > 0,
    ensures
        shell_word(escaped(s), false) == Some(s),
{
    if all_plain(s) {
        lemma_plain_word(s);
    } else {
        reveal_strlit("'");
        let w = escaped(s);
        assert(w[0] == '\'');
        assert(w.skip(1) =~= quote_body(s) + "'"@);
        lemma_quoted_word(s);
    }
}

proof fn lemma_plain_word(s: Seq<char>)
    requires
        all_plain(s),
    ensures
        shell_word(s, false) == Some(s),
    decreases s.len(),
{
    if s.len() > 0 {
        assert(is_plain(s[0]));
        assert forall|i: int| 0 <= i < s.skip(1).len() implies is_plain(#[trigger] s.skip(1)[i]) by {
            assert(s.skip(1)[i] == s[i + 1]);
        }
        lemma_plain_word(s.skip(1));
        assert(seq![s[0]] + s.skip(1) =~= s);
    } else {
        assert(s =~= seq![]);
    }
}

proof fn lemma_quoted_word(s: Seq<char>)
    ensures
        shell_word(quote_body(s) + "'"@, true) == Some(s),
    decreases s.len(),
{
    reveal_strlit("'");
    reveal_strlit("'\\''");
    let t = quote_body(s) + "'"@;
    if s.len() == 0 {
        assert(t[0] == '\'');
        assert(t.skip(1) =~= seq![]);
        assert(shell_word(t.skip(1), false) == Some(Seq::<char>::empty()));
        assert(s =~= seq![]);
    } else {
        lemma_quoted_word(s.skip(1));
        let rest = quote_body(s.skip(1)) + "'"@;
        assert(seq![s[0]] + s.skip(1) =~= s);
        if s[0] == '\'' {
            assert(t =~= "'\\''"@ + rest);
            assert(t[0] == '\'' && t[1] == '\\' && t[2] == '\'' && t[3] == '\'');
            let a = t.skip(1);
            assert(a[0] == '\\' && a[1] == '\'');
            let b = a.skip(2);
            assert(b[0] == '\'');
            assert(b.skip(1) =~= rest);
            assert(shell_word(b, false) == Some(s.skip(1)));
            assert(shell_word(a, false) == Some(seq!['\''] + s.skip(1)));
            assert(shell_word(t, true) == shell_word(a, false));
        } else {
            assert(t =~= seq![s[0]] + rest);
            assert(t[0] == s[0]);
            assert(t.skip(1) =~= rest);
            assert(shell_word(t, true) == Some(seq![s[0]] + s.skip(1)));
        }
    }
}

// ---- placeholders ----

/// The texts as shell words, with a space between each two.
pub open spec fn escaped_list(files: Seq<Seq<char>>) -> Seq<char> {
    text::join(files.map_values(|f: Seq<char>| escaped(f)), " "@)
}

/// `{key}` is a placeholder: the staged files, or an argument by its number.
pub open spec fn is_placeholder(key: Seq<char>) -> bool {
    key == "staged_files"@ || (text::number(key) matches Some(n) && n >= 1)
}

/// What the placeholder `{key}` expands to.
pub open spec fn placeholder(
    key: Seq<char>,
    files: Seq<Seq<char>>,
    args: Seq<Seq<char>>,
) -> Seq<char> {
    if key == "staged_files"@ {
        escaped_list(files)
    } else {
        match text::number(key) {
            Some(n) => if 1 <= n <= args.len() {
                escaped(args[n - 1])
            } else {
                seq![]
            },
            None => seq![],
        }
    }
}

/// `cmd` with its placeholders expanded. What runs from a `{` to the next `}` is
/// one or it is not; where it is not, the `{` stands for itself, and what follows
/// it may hold placeholders.
pub open spec fn resolved(cmd: Seq<char>, files: Seq<Seq<char>>, args: Seq<Seq<char>>) -> Seq<char>
    decreases cmd.len(),
{
    let open = text::index_from(cmd, '{', 0);
    let close = text::index_from(cmd, '}', open + 1);
    if open >= cmd.len() || close >= cmd.len() {
        cmd
    } else {
        proof {
            text::lemma_index_from(cmd, '{', 0);
            text::lemma_index_from(cmd, '}', open + 1);
        }
        let key = cmd.subrange(open + 1, close);
        if is_placeholder(key) {
            cmd.take(open) + placeholder(key, files, args) + resolved(
                cmd.skip(close + 1),
                files,
                args,
            )
        } else {
            cmd.take(open + 1) + resolved(cmd.skip(open + 1), files, args)
        }
    }
}

/// The files as shell words, with a space between each two.
fn escape_files(files: &Vec<String>) -> (r: String)
    ensures
        r@ == escaped_list(text::views(files@)),
{
    let mut parts: Vec<String> = Vec::new();
    let mut i: usize = 0;
    let ghost want = text::views(files@).map_values(|f: Seq<char>| escaped(f));
    while i < files.len()
        invariant
            i <= files.len(),
            want == text::views(files@).map_values(|f: Seq<char>| escaped(f)),
            text::views(parts@) == want.take(i as int),
        decreases files.len() - i,
    {
        let ghost before = parts@;
        parts.push(shell_escape(files[i].as_str()));
        proof {
            assert(text::views(parts@) =~= text::views(before).push(want[i as int]));
            assert(want.take(i + 1) =~= want.take(i as int).push(want[i as int]));
        }
        i += 1;
    }
    proof {
        assert(want.take(i as int) =~= want);
    }
    text::joined(&parts, " ")
}

/// What `{key}` expands to, if it is a placeholder.
fn expand_placeholder(key: &str, files: &Vec<String>, args: &Vec<String>) -> (r: Option<String>)
    ensures
        r is Some <==> is_placeholder(key@),
        r matches Some(t) ==> t@ == placeholder(key@, text::views(files@), text::views(args@)),
{
    if text::same(key, "staged_files") {
        return Some(escape_files(files));
    }
    match text::parse_number(key) {
        Some(n) => {
            if n == 0 {
                None
            } else if n <= args.len() {
                Some(shell_escape(args[n - 1].as_str()))
            } else {
                Some(String::new())
            }
        },
        None => None,
    }
}

/// Replace `{staged_files}` and `{N}` (positional arguments, counted from 1)
/// in `cmd`. What is put in is shell-escaped. An argument that is not there
/// expands to nothing. Other `{...}` tokens are kept.
pub fn resolve_placeholders(
    cmd: &str,
    staged_files: &Vec<String>,
    hook_args: &Vec<String>,
) -> (r: String)
    ensures
        r@ == resolved(cmd@, text::views(staged_files@), text::views(hook_args@)),
{
    let v = text::chars_of(cmd);
    let mut out = String::new();
    let mut start: usize = 0;
    let ghost files = text::views(staged_files@);
    let ghost args = text::views(hook_args@);
    proof {
        assert(v@.skip(0) =~= v@);
    }
    loop
        invariant
            start <= v.len(),
            v@ == cmd@,
            files == text::views(staged_files@),
            args == text::views(hook_args@),
            resolved(v@, files, args) == out@ + resolved(v@.skip(start as int), files, args),
        decreases v.len() - start,
    {
        let ghost rest = v@.skip(start as int);
        let ghost before = out@;
        let open = text::find_from(&v, '{', start);
        proof {
            text::lemma_index_from(v@, '{', start as int);
            assert forall|j: int| 0 <= j < open - start implies rest[j] != '{' by {
                assert(rest[j] == v@[start + j]);
            }
            text::lemma_index_is(rest, '{', 0, open - start);
        }
        if open == v.len() {
            out.append(text::substring(&v, start, v.len()).as_str());
            proof {
                assert(v@.subrange(start as int, v@.len() as int) =~= rest);
            }
            return out;
        }
        let close = text::find_from(&v, '}', open + 1);
        proof {
            text::lemma_index_from(v@, '}', open + 1);
            assert forall|j: int| open + 1 - start <= j < close - start implies rest[j] != '}' by {
                assert(rest[j] == v@[start + j]);
            }
            text::lemma_index_is(rest, '}', open + 1 - start, close - start);
        }
        if close == v.len() {
            out.append(text::substring(&v, start, v.len()).as_str());
            proof {
                assert(v@.subrange(start as int, v@.len() as int) =~= rest);
            }
            return out;
        }
        let key = text::substring(&v, open + 1, close);
        proof {
            assert(rest.subrange(open + 1 - start, close - start) =~= key@);
        }
        match expand_placeholder(key.as_str(), staged_files, hook_args) {
            Some(t) => {
                out.append(text::substring(&v, start, open).as_str());
                out.append(t.as_str());
                proof {
                    assert(rest.take(open - start) =~= v@.subrange(start as int, open as int));
                    assert(rest.skip(close - start + 1) =~= v@.skip(close + 1));
                    assert(before + resolved(rest, files, args) =~= out@ + resolved(
                        v@.skip(close + 1),
                        files,
                        args,
                    ));
                }
                start = close + 1;
            },
            None => {
                out.append(text::substring(&v, start, open + 1).as_str());
                proof {
                    assert(rest.take(open - start + 1) =~= v@.subrange(start as int, open + 1));
                    assert(rest.skip(open - start + 1) =~= v@.skip(open + 1));
                    assert(before + resolved(rest, files, args) =~= out@ + resolved(
                        v@.skip(open + 1),
                        files,
                        args,
                    ));
                }
                start = open + 1;
            },
        }
    }
}

/// A command without placeholders is left as it is, and so is the text in
/// front of the first one.
pub proof fn law_text_outside_placeholders(
    front: Seq<char>,
    cmd: Seq<char>,
    files: Seq<Seq<char>>,
    args: Seq<Seq<char>>,
)
    requires
        !front.contains('{'),
    ensures
        resolved(front, files, args) == front,
        resolved(front + cmd, files, args) == front + resolved(cmd, files, args),
{
    let n = front.len() as int;
    assert forall|j: int| 0 <= j < n implies front[j] != '{' by {
        assert(front.contains(front[j]));
    }
    text::lemma_index_is(front, '{', 0, n);
    let t = front + cmd;
    let open = text::index_from(cmd, '{', 0);
    text::lemma_index_from(cmd, '{', 0);
    assert forall|j: int| 0 <= j < n + open implies t[j] != '{' by {
        if j >= n {
            assert(t[j] == cmd[j - n]);
        }
    }
    text::lemma_index_is(t, '{', 0, n + open);
    if open < cmd.len() {
        let close = text::index_from(cmd, '}', open + 1);
        text::lemma_index_from(cmd, '}', open + 1);
        assert forall|j: int| n + open + 1 <= j < n + close implies t[j] != '}' by {
            assert(t[j] == cmd[j - n]);
        }
        text::lemma_index_is(t, '}', n + open + 1, n + close);
        if close < cmd.len() {
            assert(t.take(n + open) =~= front + cmd.take(open));
            assert(t.take(n + open + 1) =~= front + cmd.take(open + 1));
            assert(t.subrange(n + open + 1, n + close) =~= cmd.subrange(open + 1, close));
            assert(t.skip(n + close + 1) =~= cmd.skip(close + 1));
            assert(t.skip(n + open + 1) =~= cmd.skip(open + 1));
            assert(resolved(t, files, args) =~= front + resolved(cmd, files, args));
        }
    }
}

/// A token that is no placeholder stays as it is.
pub proof fn law_other_tokens_stay(
    key: Seq<char>,
    rest: Seq<char>,
    files: Seq<Seq<char>>,
    args: Seq<Seq<char>>,
)
    requires
        !key.contains('{'),
        !key.contains('}'),
        !is_placeholder(key),
    ensures
        resolved(seq!['{'] + key + seq!['}'] + rest, files, args) == seq!['{'] + key + seq!['}']
            + resolved(rest, files, args),
{
    let cmd = seq!['{'] + key + seq!['}'] + rest;
    let n = key.len() as int;
    assert(cmd[0] == '{');
    assert(cmd[n + 1] == '}');
    assert forall|j: int| 1 <= j < n + 1 implies cmd[j] != '}' by {
        assert(key.contains(key[j - 1]));
    }
    text::lemma_index_is(cmd, '{', 0, 0);
    text::lemma_index_is(cmd, '}', 1, n + 1);
    assert(cmd.subrange(1, n + 1) =~= key);
    assert(cmd.take(1) =~= seq!['{']);
    let front = key + seq!['}'];
    assert(cmd.skip(1) =~= front + rest);
    assert forall|j: int| 0 <= j < front.len() implies front[j] != '{' by {
        if j < n {
            assert(key.contains(key[j]));
        }
    }
    law_text_outside_placeholders(front, rest, files, args);
    assert(seq!['{'] + (front + resolved(rest, files, args)) =~= seq!['{'] + key + seq!['}']
        + resolved(rest, files, args));
}

/// A token that is a placeholder gives way to what it expands to.
proof fn lemma_placeholder_first(
    key: Seq<char>,
    rest: Seq<char>,
    files: Seq<Seq<char>>,
    args: Seq<Seq<char>>,
)
    requires
        !key.contains('}'),
        is_placeholder(key),
    ensures
        resolved(seq!['{'] + key + seq!['}'] + rest, files, args) == placeholder(key, files, args)
            + resolved(rest, files, args),
{
    let cmd = seq!['{'] + key + seq!['}'] + rest;
    let n = key.len() as int;
    assert(cmd[0] == '{');
    assert(cmd[n + 1] == '}');
    assert forall|j: int| 1 <= j < n + 1 implies cmd[j] != '}' by {
        assert(key.contains(key[j - 1]));
    }
    text::lemma_index_is(cmd, '{', 0, 0);
    text::lemma_index_is(cmd, '}', 1, n + 1);
    assert(cmd.subrange(1, n + 1) =~= key);
    assert(cmd.take(0) =~= seq![]);
    assert(cmd.skip(n + 2) =~= rest);
    assert(resolved(cmd, files, args) =~= placeholder(key, files, args) + resolved(
        rest,
        files,
        args,
    ));
}

/// `{n}` stands for the `n`th argument, counted from 1 at the front, as one shell word,
/// and for nothing where there are fewer arguments.
pub proof fn law_argument_by_number(
    n: nat,
    rest: Seq<char>,
    files: Seq<Seq<char>>,
    args: Seq<Seq<char>>,
)
    requires
        1 <= n <= usize::MAX,
    ensures
        ({
            let cmd = seq!['{'] + text::decimal(n) + seq!['}'];
            &&& n <= args.len() ==> resolved(cmd + rest, files, args) == escaped(args[n - 1])
                + resolved(rest, files, args)
            &&& n <= args.len() && args[n - 1].len() > 0 ==> shell::words(
                resolved(cmd, files, args),
            ) == seq![args[n - 1]]
            &&& n > args.len() ==> resolved(cmd + rest, files, args) == resolved(rest, files, args)
        }),
{
    let key = text::decimal(n);
    let none = Seq::<char>::empty();
    text::law_decimal(n);
    text::law_decimal_reads_back(n);
    reveal_strlit("staged_files");
    assert("staged_files"@[0] == 's');
    assert('0' <= key[0] <= '9');
    if key.contains('}') {
        let i = choose|i: int| 0 <= i < key.len() && key[i] == '}';
        assert('0' <= key[i] <= '9');
    }
    lemma_placeholder_first(key, rest, files, args);
    lemma_placeholder_first(key, none, files, args);
    let cmd = seq!['{'] + key + seq!['}'];
    assert(cmd + none =~= cmd);
    assert(resolved(none, files, args) =~= none);
    if n <= args.len() {
        assert(escaped(args[n - 1]) + none =~= escaped(args[n - 1]));
        if args[n - 1].len() > 0 {
            shell::law_escaped_reads_back(args[n - 1]);
        }
    } else {
        assert(none + resolved(rest, files, args) =~= resolved(rest, files, args));
    }
}

/// `{staged_files}` stands for the files, which a shell reads as just these words, in
/// order, and what follows it is resolved by itself.
pub proof fn law_staged_files(rest: Seq<char>, files: Seq<Seq<char>>, args: Seq<Seq<char>>)
    ensures
        resolved("{staged_files}"@ + rest, files, args) == escaped_list(files) + resolved(
            rest,
            files,
            args,
        ),
        (forall|i: int| 0 <= i < files.len() ==> (#[trigger] files[i]).len() > 0) ==> shell::words(
            resolved("{staged_files}"@, files, args),
        ) == files,
{
    let none = Seq::<char>::empty();
    let key = "staged_files"@;
    reveal_strlit("staged_files");
    reveal_strlit("{staged_files}");
    assert("{staged_files}"@ =~= seq!['{'] + key + seq!['}']);
    assert(!key.contains('}'));
    lemma_placeholder_first(key, rest, files, args);
    lemma_placeholder_first(key, none, files, args);
    assert("{staged_files}"@ + none =~= "{staged_files}"@);
    assert(resolved(none, files, args) =~= none);
    assert(escaped_list(files) + none =~= escaped_list(files));
    if forall|i: int| 0 <= i < files.len() ==> (#[trigger] files[i]).len() > 0 {
        shell::law_escaped_list_reads_back(files);
    }
}

/// A token is kept as it is where it is neither `{staged_files}` nor a number: where it
/// holds anything but digits and plus signs, where it holds nothing, and where it is
/// `{0}`.
pub proof fn law_no_other_placeholders(
    key: Seq<char>,
    rest: Seq<char>,
    files: Seq<Seq<char>>,
    args: Seq<Seq<char>>,
)
    requires
        !key.contains('{'),
        !key.contains('}'),
        key != "staged_files"@,
        key.len() == 0 || key == seq!['0'] || exists|i: int|
            0 <= i < key.len() && !('0' <= #[trigger] key[i] <= '9') && key[i] != '+',
    ensures
        resolved(seq!['{'] + key + seq!['}'] + rest, files, args) == seq!['{'] + key + seq!['}']
            + resolved(rest, files, args),
{
    if key == seq!['0'] {
        assert(key.drop_last() =~= Seq::<char>::empty());
        assert(text::digits_value(key.drop_last()) == 0);
        assert(text::digits_value(key) == 0);
    } else if key.len() > 0 {
        let i = choose|i: int|
            0 <= i < key.len() && !('0' <= #[trigger] key[i] <= '9') && key[i] != '+';
        let t = text::unsigned(key);
        if key[0] == '+' {
            assert(!text::is_digit(t[i - 1]));
        } else {
            assert(!text::is_digit(t[i]));
        }
    }
    law_other_tokens_stay(key, rest, files, args);
}

/// Files only come in where the command asks for them: where `{staged_files}` is
/// no placeholder of it, the result does not depend on them.
pub proof fn law_files_only_where_asked(
    cmd: Seq<char>,
    files: Seq<Seq<char>>,
    others: Seq<Seq<char>>,
    args: Seq<Seq<char>>,
)
    requires
        !mentions(cmd, "staged_files"@),
    ensures
        resolved(cmd, files, args) == resolved(cmd, others, args),
    decreases cmd.len(),
{
    let open = text::index_from(cmd, '{', 0);
    let close = text::index_from(cmd, '}', open + 1);
    if open < cmd.len() && close < cmd.len() {
        text::lemma_index_from(cmd, '{', 0);
        text::lemma_index_from(cmd, '}', open + 1);
        if is_placeholder(cmd.subrange(open + 1, close)) {
            law_files_only_where_asked(cmd.skip(close + 1), files, others, args);
        } else {
            law_files_only_where_asked(cmd.skip(open + 1), files, others, args);
        }
    }
}

/// `{key}` is a placeholder of `cmd`.
pub open spec fn mentions(cmd: Seq<char>, key: Seq<char>) -> bool
    decreases cmd.len(),
{
    let open = text::index_from(cmd, '{', 0);
    let close = text::index_from(cmd, '}', open + 1);
    if open >= cmd.len() || close >= cmd.len() {
        false
    } else {
        proof {
            text::lemma_index_from(cmd, '{', 0);
            text::lemma_index_from(cmd, '}', open + 1);
        }
        if is_placeholder(cmd.subrange(open + 1, close)) {
            cmd.subrange(open + 1, close) == key || mentions(cmd.skip(close + 1), key)
        } else {
            mentions(cmd.skip(open + 1), key)
        }
    }
}

// ---- scope ----

/// `file` as seen from the manifest directory `dir`, if it lies below it. The
/// directory `.`, or none at all, is the repository itself.
pub open spec fn relative(dir: Seq<char>, file: Seq<char>) -> Option<Seq<char>> {
    if dir == "."@ || dir.len() == 0 {
        Some(file)
    } else if (dir + "/"@).is_prefix_of(file) {
        Some(file.skip((dir + "/"@).len() as int))
    } else {
        None
    }
}

/// The matcher, if there is one, lets `path` pass. A backslash is a character like
/// any other here; where the platform has it separate path components, see
/// `may_be_in_scope`.
pub open spec fn passes_filter(m: Option<pattern::Matcher>, path: Seq<char>) -> bool {
    m matches Some(matcher) ==> matcher.accepts(path, false)
}

/// `file` is in the scope of a hook.
pub open spec fn in_scope(
    dir: Seq<char>,
    m: Option<pattern::Matcher>,
    file: Seq<char>,
) -> bool {
    relative(dir, file) matches Some(path) && passes_filter(m, path)
}

/// The files in the scope of a hook, as seen from `dir`, in order.
pub open spec fn scoped(
    files: Seq<Seq<char>>,
    dir: Seq<char>,
    m: Option<pattern::Matcher>,
) -> Seq<Seq<char>>
    decreases files.len(),
{
    if files.len() == 0 {
        seq![]
    } else if in_scope(dir, m, files.last()) {
        scoped(files.drop_last(), dir, m).push(relative(dir, files.last())->0)
    } else {
        scoped(files.drop_last(), dir, m)
    }
}

/// Neither the matcher nor a file holds a backslash; without a matcher, any
/// file will do.
pub open spec fn portable_scope(files: Seq<Seq<char>>, m: Option<pattern::Matcher>) -> bool {
    m matches Some(matcher) ==> matcher.is_portable() && pattern::all_portable(files)
}

/// What the answer may be to whether `file` is in the scope of a hook.
pub open spec fn may_be_in_scope(
    dir: Seq<char>,
    m: Option<pattern::Matcher>,
    file: Seq<char>,
    hit: bool,
) -> bool {
    match (relative(dir, file), m) {
        (None, _) => !hit,
        (Some(_), None) => hit,
        (Some(path), Some(matcher)) => matcher.may_give(path, hit),
    }
}

/// `hits` are answers that the files may get.
pub open spec fn may_get(
    hits: Seq<bool>,
    files: Seq<Seq<char>>,
    dir: Seq<char>,
    m: Option<pattern::Matcher>,
) -> bool {
    &&& hits.len() == files.len()
    &&& forall|i: int|
        0 <= i < files.len() ==> may_be_in_scope(dir, m, #[trigger] files[i], hits[i])
}

/// The files that got the answer `true`, in order.
pub open spec fn kept(files: Seq<Seq<char>>, hits: Seq<bool>) -> Seq<Seq<char>>
    decreases files.len(),
{
    if files.len() == 0 {
        seq![]
    } else if hits.last() {
        kept(files.drop_last(), hits.drop_last()).push(files.last())
    } else {
        kept(files.drop_last(), hits.drop_last())
    }
}

/// Each of the files as seen from `dir`.
pub open spec fn seen_from(dir: Seq<char>, files: Seq<Seq<char>>) -> Seq<Seq<char>> {
    files.map_values(|f: Seq<char>| relative(dir, f)->0)
}

/// `scope` may be what is in the scope of a hook: the files that the matcher lets
/// pass, as seen from `dir`, in order. Where a matcher or a file holds a backslash,
/// which they are is up to the answers of the matcher.
pub open spec fn may_scope(
    scope: Seq<Seq<char>>,
    files: Seq<Seq<char>>,
    dir: Seq<char>,
    m: Option<pattern::Matcher>,
) -> bool {
    exists|hits: Seq<bool>| #[trigger]
        may_get(hits, files, dir, m) && scope == seen_from(dir, kept(files, hits))
}

/// Where everything is portable, there is one answer for a file.
proof fn lemma_may_be_in_scope(
    dir: Seq<char>,
    m: Option<pattern::Matcher>,
    file: Seq<char>,
    hit: bool,
)
    requires
        m matches Some(matcher) ==> matcher.is_portable() && pattern::portable(file),
        may_be_in_scope(dir, m, file, hit),
    ensures
        hit == in_scope(dir, m, file),
{
    if relative(dir, file) is Some && m is Some {
        lemma_relative_portable(dir, file);
        assert(hit == m->0.accepts(relative(dir, file)->0, false));
    }
}

/// Where everything is portable, there is one scope.
proof fn lemma_may_get(
    hits: Seq<bool>,
    files: Seq<Seq<char>>,
    dir: Seq<char>,
    m: Option<pattern::Matcher>,
)
    requires
        portable_scope(files, m),
        may_get(hits, files, dir, m),
    ensures
        seen_from(dir, kept(files, hits)) == scoped(files, dir, m),
        kept(files, hits) == files.filter(|f: Seq<char>| in_scope(dir, m, f)),
    decreases files.len(),
{
    reveal(Seq::filter);
    let pred = |f: Seq<char>| in_scope(dir, m, f);
    if files.len() == 0 {
        assert(seen_from(dir, kept(files, hits)) =~= scoped(files, dir, m));
        assert(kept(files, hits) =~= files.filter(pred));
    } else {
        let front = files.drop_last();
        let last = files.last();
        let got = hits.drop_last();
        assert(last == files[files.len() - 1]);
        assert forall|i: int| 0 <= i < front.len() implies may_be_in_scope(
            dir,
            m,
            #[trigger] front[i],
            got[i],
        ) by {
            assert(front[i] == files[i]);
        }
        if m is Some {
            assert(pattern::portable(last));
            assert forall|i: int| 0 <= i < front.len() implies pattern::portable(
                #[trigger] front[i],
            ) by {
                assert(front[i] == files[i]);
            }
        }
        lemma_may_get(got, front, dir, m);
        lemma_may_be_in_scope(dir, m, last, hits.last());
        let less = kept(front, got);
        assert(seen_from(dir, less.push(last)) =~= seen_from(dir, less).push(
            relative(dir, last)->0,
        ));
        assert(pred(last) == in_scope(dir, m, last));
    }
}

/// `file` as seen from the manifest directory `dir`, if it lies below it.
fn relative_path(dir: &str, file: &str) -> (r: Option<String>)
    ensures
        r is Some <==> relative(dir@, file@) is Some,
        r matches Some(p) ==> relative(dir@, file@) == Some(p@),
{
    if text::same(dir, ".") || dir.is_empty() {
        Some(file.to_owned())
    } else {
        let prefix = dir.to_owned().concat("/");
        text::strip_front(file, prefix.as_str())
    }
}

/// Is `file` in the scope of a hook?
fn scope_path(dir: &str, matcher: &Option<pattern::Matcher>, file: &str) -> (r: Option<String>)
    ensures
        r matches Some(p) ==> relative(dir@, file@) == Some(p@),
        may_be_in_scope(dir@, *matcher, file@, r is Some),
{
    match relative_path(dir, file) {
        None => None,
        Some(path) => match matcher {
            None => Some(path),
            Some(m) => {
                if m.is_match(path.as_str()) {
                    Some(path)
                } else {
                    None
                }
            },
        },
    }
}

proof fn lemma_relative_portable(dir: Seq<char>, file: Seq<char>)
    requires
        pattern::portable(file),
        relative(dir, file) is Some,
    ensures
        pattern::portable(relative(dir, file)->0),
{
    let p = relative(dir, file)->0;
    if p.contains('\\') {
        let i = choose|i: int| 0 <= i < p.len() && p[i] == '\\';
        assert(file[file.len() - p.len() + i] == '\\');
    }
}

/// The staged files below the manifest directory that pass the matcher, as
/// seen from that directory.
pub fn scope_files(
    staged_files: &Vec<String>,
    manifest_dir: &str,
    matcher: &Option<pattern::Matcher>,
) -> (r: Vec<String>)
    ensures
        portable_scope(text::views(staged_files@), *matcher) ==> text::views(r@) == scoped(
            text::views(staged_files@),
            manifest_dir@,
            *matcher,
        ),
        may_scope(text::views(r@), text::views(staged_files@), manifest_dir@, *matcher),
{
    let mut out: Vec<String> = Vec::new();
    let mut i: usize = 0;
    let ghost files = text::views(staged_files@);
    let ghost mut hits: Seq<bool> = seq![];
    proof {
        assert(text::views(out@) =~= seen_from(manifest_dir@, kept(files.take(0), hits)));
    }
    while i < staged_files.len()
        invariant
            i <= staged_files.len(),
            files == text::views(staged_files@),
            may_get(hits, files.take(i as int), manifest_dir@, *matcher),
            text::views(out@) == seen_from(manifest_dir@, kept(files.take(i as int), hits)),
        decreases staged_files.len() - i,
    {
        let ghost before = out@;
        let ghost file = files[i as int];
        let path = scope_path(manifest_dir, matcher, staged_files[i].as_str());
        proof {
            let less = files.take(i as int);
            let more = files.take(i + 1);
            let got = hits.push(path is Some);
            assert(more.drop_last() =~= less);
            assert(more.last() == file);
            assert(got.drop_last() =~= hits);
            assert forall|k: int| 0 <= k < more.len() implies may_be_in_scope(
                manifest_dir@,
                *matcher,
                #[trigger] more[k],
                got[k],
            ) by {
                if k < i {
                    assert(more[k] == less[k]);
                }
            }
            assert(seen_from(manifest_dir@, kept(less, hits).push(file)) =~= seen_from(
                manifest_dir@,
                kept(less, hits),
            ).push(relative(manifest_dir@, file)->0));
            hits = got;
        }
        match path {
            Some(path) => {
                out.push(path);
                proof {
                    assert(text::views(out@) =~= text::views(before).push(path@));
                }
            },
            None => {},
        }
        i += 1;
    }
    proof {
        assert(files.take(i as int) =~= files);
        if portable_scope(files, *matcher) {
            lemma_may_get(hits, files, manifest_dir@, *matcher);
        }
    }
    out
}

/// The changed files that count as produced by a hook, as seen from the
/// repository, in order: those below the manifest directory that pass the
/// matcher of its outputs. A matcher without patterns names no output.
pub open spec fn produced(
    changed: Seq<Seq<char>>,
    dir: Seq<char>,
    outputs: pattern::Matcher,
) -> Seq<Seq<char>> {
    if outputs.included().len() == 0 && outputs.excluded().len() == 0 {
        seq![]
    } else {
        changed.filter(|f: Seq<char>| in_scope(dir, Some(outputs), f))
    }
}

/// `found` may be the changed files that count as produced by a hook. Where a
/// matcher or a file holds a backslash, which they are is up to the answers of the
/// matcher.
pub open spec fn may_produce(
    found: Seq<Seq<char>>,
    changed: Seq<Seq<char>>,
    dir: Seq<char>,
    outputs: pattern::Matcher,
) -> bool {
    if outputs.included().len() == 0 && outputs.excluded().len() == 0 {
        found.len() == 0
    } else {
        exists|hits: Seq<bool>| #[trigger]
            may_get(hits, changed, dir, Some(outputs)) && found == kept(changed, hits)
    }
}

/// A file is kept exactly if it got the answer `true`, at one of its places.
pub proof fn lemma_kept_contains(files: Seq<Seq<char>>, hits: Seq<bool>, f: Seq<char>)
    requires
        hits.len() == files.len(),
    ensures
        kept(files, hits).contains(f) <==> exists|i: int|
            0 <= i < files.len() && #[trigger] files[i] == f && hits[i],
    decreases files.len(),
{
    if files.len() > 0 {
        let front = files.drop_last();
        let got = hits.drop_last();
        let less = kept(front, got);
        let all = kept(files, hits);
        lemma_kept_contains(front, got, f);
        if all.contains(f) {
            if less.contains(f) {
                let i = choose|i: int| 0 <= i < front.len() && #[trigger] front[i] == f && got[i];
                assert(files[i] == f && hits[i]);
            } else {
                assert(files[files.len() - 1] == f && hits[files.len() - 1]);
            }
        }
        if exists|i: int| 0 <= i < files.len() && #[trigger] files[i] == f && hits[i] {
            let i = choose|i: int| 0 <= i < files.len() && #[trigger] files[i] == f && hits[i];
            if i < front.len() {
                assert(front[i] == f && got[i]);
                let k = choose|k: int| 0 <= k < less.len() && less[k] == f;
                assert(all[k] == f);
            } else {
                assert(all[all.len() - 1] == f);
            }
        }
    }
}

/// The changed files that a hook with these outputs produced.
pub fn output_files(
    changed: &Vec<String>,
    manifest_dir: &str,
    outputs: &Option<pattern::Matcher>,
) -> (r: Vec<String>)
    ensures
        outputs is None ==> r.len() == 0,
        outputs matches Some(m) ==> may_produce(
            text::views(r@),
            text::views(changed@),
            manifest_dir@,
            *m,
        ),
        outputs matches Some(m) ==> (m.is_portable() && pattern::all_portable(
            text::views(changed@),
        ) ==> text::views(r@) == produced(text::views(changed@), manifest_dir@, *m)),
{
    let mut out: Vec<String> = Vec::new();
    match outputs {
        None => {},
        Some(m) => {
            if m.is_empty() {
                proof {
                    assert(text::views(out@) =~= seq![]);
                }
                return out;
            }
            let ghost files = text::views(changed@);
            let ghost mut hits: Seq<bool> = seq![];
            let mut i: usize = 0;
            proof {
                assert(text::views(out@) =~= kept(files.take(0), hits));
            }
            while i < changed.len()
                invariant
                    i <= changed.len(),
                    *outputs == Some(*m),
                    files == text::views(changed@),
                    may_get(hits, files.take(i as int), manifest_dir@, *outputs),
                    text::views(out@) == kept(files.take(i as int), hits),
                decreases changed.len() - i,
            {
                let ghost before = out@;
                let ghost file = files[i as int];
                let hit = scope_path(manifest_dir, outputs, changed[i].as_str()).is_some();
                proof {
                    let less = files.take(i as int);
                    let more = files.take(i + 1);
                    let got = hits.push(hit);
                    assert(more.drop_last() =~= less);
                    assert(more.last() == file);
                    assert(got.drop_last() =~= hits);
                    assert forall|k: int| 0 <= k < more.len() implies may_be_in_scope(
                        manifest_dir@,
                        *outputs,
                        #[trigger] more[k],
                        got[k],
                    ) by {
                        if k < i {
                            assert(more[k] == less[k]);
                        }
                    }
                    hits = got;
                }
                if hit {
                    out.push(changed[i].clone());
                    proof {
                        assert(text::views(out@) =~= text::views(before).push(file));
                    }
                }
                i += 1;
            }
            proof {
                assert(files.take(i as int) =~= files);
                if m.is_portable() && pattern::all_portable(files) {
                    lemma_may_get(hits, files, manifest_dir@, *outputs);
                }
            }
        },
    }
    out
}

// ---- running a hook ----

/// What is to be done for a hook.
#[derive(Debug)]
pub enum HookStep {
    /// No file is in scope: there is nothing to run.
    Skip,
    /// Run `command` in a shell; `count` files are in scope.
    Spawn { command: String, capture: bool, count: usize },
}

/// What came of a hook.
#[derive(Debug)]
pub struct HookOutcome {
    pub code: i32,
    pub count: usize,
    pub stdout: String,
    pub stderr: String,
}

/// The step for a hook that has the files `scope` in scope: the command with
/// its placeholders expanded, or nothing if there is no file.
pub open spec fn is_step(
    step: HookStep,
    cmd: Seq<char>,
    scope: Seq<Seq<char>>,
    args: Seq<Seq<char>>,
    capture: bool,
) -> bool {
    match step {
        HookStep::Skip => scope.len() == 0,
        HookStep::Spawn { command, capture: c, count } => {
            &&& scope.len() > 0
            &&& command@ == resolved(cmd, scope, args)
            &&& c == capture
            &&& count == scope.len()
        },
    }
}

/// The step for a hook that has the files `scope` in scope.
pub fn step_for(cmd: &str, scope: &Vec<String>, hook_args: &Vec<String>, capture: bool) -> (r:
    HookStep)
    ensures
        is_step(r, cmd@, text::views(scope@), text::views(hook_args@), capture),
{
    if scope.len() == 0 {
        HookStep::Skip
    } else {
        let command = resolve_placeholders(cmd, scope, hook_args);
        HookStep::Spawn { command, capture, count: scope.len() }
    }
}

/// The step for a hook, with the files that are, or may be, in its scope.
pub open spec fn is_step_of(
    step: HookStep,
    hook: config::Hook,
    files: Seq<Seq<char>>,
    dir: Seq<char>,
    args: Seq<Seq<char>>,
    capture: bool,
) -> bool {
    exists|scope: Seq<Seq<char>>|
        {
            &&& portable_scope(files, hook.glob_matcher) ==> scope == scoped(
                files,
                dir,
                hook.glob_matcher,
            )
            &&& may_scope(scope, files, dir, hook.glob_matcher)
            &&& #[trigger] is_step(step, hook.cmd@, scope, args, capture)
        }
}

fn exec_hook_inner(
    hook: &config::Hook,
    staged_files: &Vec<String>,
    manifest_dir: &str,
    hook_args: &Vec<String>,
    capture: bool,
) -> (r: HookStep)
    ensures
        is_step_of(
            r,
            *hook,
            text::views(staged_files@),
            manifest_dir@,
            text::views(hook_args@),
            capture,
        ),
{
    let scope = scope_files(staged_files, manifest_dir, &hook.glob_matcher);
    step_for(hook.cmd.as_str(), &scope, hook_args, capture)
}

/// What to do for a hook, with scope filtering. `manifest_dir` is the
/// directory of its manifest, in which the command is to run.
pub fn exec_hook(
    hook: &config::Hook,
    staged_files: &Vec<String>,
    manifest_dir: &str,
    hook_args: &Vec<String>,
) -> (r: HookStep)
    ensures
        is_step_of(
            r,
            *hook,
            text::views(staged_files@),
            manifest_dir@,
            text::views(hook_args@),
            false,
        ),
{
    exec_hook_inner(hook, staged_files, manifest_dir, hook_args, false)
}

/// What to do for a hook whose output is captured (for parallel mode).
pub fn exec_hook_captured(
    hook: &config::Hook,
    staged_files: &Vec<String>,
    manifest_dir: &str,
    hook_args: &Vec<String>,
) -> (r: HookStep)
    ensures
        is_step_of(
            r,
            *hook,
            text::views(staged_files@),
            manifest_dir@,
            text::views(hook_args@),
            true,
        ),
{
    exec_hook_inner(hook, staged_files, manifest_dir, hook_args, true)
}

/// The outcome of a hook that had nothing to run.
pub fn skipped_outcome() -> (r: HookOutcome)
    ensures
        r.code == 0,
        r.count == 0,
        r.stdout@.len() == 0,
        r.stderr@.len() == 0,
{
    HookOutcome { code: 0, count: 0, stdout: String::new(), stderr: String::new() }
}

/// The outcome of a hook whose command ended with the exit code `code`, or
/// without one (by a signal), which counts as 1.
pub fn finished_outcome(count: usize, code: Option<i32>, stdout: String, stderr: String) -> (r:
    HookOutcome)
    ensures
        r.code == (if code is Some {
            code->0
        } else {
            1
        }),
        r.count == count,
        r.stdout == stdout,
        r.stderr == stderr,
{
    let code = match code {
        Some(c) => c,
        None => 1,
    };
    HookOutcome { code, count, stdout, stderr }
}

/// What came of a step: nothing, and no failure, where there was nothing to run;
/// else what the command ended with.
pub open spec fn is_outcome(
    r: HookOutcome,
    step: HookStep,
    code: Option<i32>,
    stdout: Seq<char>,
    stderr: Seq<char>,
) -> bool {
    match step {
        HookStep::Skip => {
            &&& r.code == 0
            &&& r.count == 0
            &&& r.stdout@.len() == 0
            &&& r.stderr@.len() == 0
        },
        HookStep::Spawn { command, capture, count } => {
            &&& r.code == (if code is Some {
                code->0
            } else {
                1
            })
            &&& r.count == count
            &&& r.stdout@ == stdout
            &&& r.stderr@ == stderr
        },
    }
}

/// What came of a step: see `skipped_outcome` and `finished_outcome`.
pub fn outcome_of(step: &HookStep, code: Option<i32>, stdout: String, stderr: String) -> (r:
    HookOutcome)
    ensures
        is_outcome(r, *step, code, stdout@, stderr@),
{
    match step {
        HookStep::Skip => skipped_outcome(),
        HookStep::Spawn { count, .. } => finished_outcome(*count, code, stdout, stderr),
    }
}

/// A hook without a file in scope does not fail and writes nothing, whether or not
/// its output is captured.
pub proof fn law_nothing_in_scope(
    r: HookOutcome,
    step: HookStep,
    cmd: Seq<char>,
    args: Seq<Seq<char>>,
    capture: bool,
    code: Option<i32>,
    stdout: Seq<char>,
    stderr: Seq<char>,
)
    requires
        is_step(step, cmd, Seq::<Seq<char>>::empty(), args, capture),
        is_outcome(r, step, code, stdout, stderr),
    ensures
        r.code == 0,
        r.count == 0,
        r.stdout@.len() == 0,
        r.stderr@.len() == 0,
{
}

/// How many files are in scope, by the step.
pub open spec fn files_of(step: HookStep) -> nat {
    match step {
        HookStep::Skip => 0,
        HookStep::Spawn { command, capture, count } => count as nat,
    }
}

/// The command that a step runs, if any.
pub open spec fn command_of(step: HookStep) -> Option<Seq<char>> {
    match step {
        HookStep::Skip => None,
        HookStep::Spawn { command, capture, count } => Some(command@),
    }
}

/// Capturing the output changes nothing else: a hook with the same files in scope
/// runs the same command, or none, for as many files.
pub proof fn law_capture_is_no_other_step(
    shown: HookStep,
    captured: HookStep,
    cmd: Seq<char>,
    scope: Seq<Seq<char>>,
    args: Seq<Seq<char>>,
)
    requires
        is_step(shown, cmd, scope, args, false),
        is_step(captured, cmd, scope, args, true),
    ensures
        command_of(captured) == command_of(shown),
        files_of(captured) == files_of(shown),
        files_of(shown) == scope.len(),
        shown is Skip <==> scope.len() == 0,
{
}

/// Capturing the output changes nothing else: with the same staged files, which hold
/// no backslash, nor do the patterns, a hook runs the same command, or none, for as
/// many files. Without a pattern any file will do.
pub proof fn law_capture_is_no_other_run(
    shown: HookStep,
    captured: HookStep,
    hook: config::Hook,
    files: Seq<Seq<char>>,
    dir: Seq<char>,
    args: Seq<Seq<char>>,
)
    requires
        is_step_of(shown, hook, files, dir, args, false),
        is_step_of(captured, hook, files, dir, args, true),
        portable_scope(files, hook.glob_matcher),
    ensures
        command_of(captured) == command_of(shown),
        files_of(captured) == files_of(shown),
        files_of(shown) == scoped(files, dir, hook.glob_matcher).len(),
{
}

/// The step with its output captured, or not.
pub open spec fn with_capture(step: HookStep, capture: bool) -> HookStep {
    match step {
        HookStep::Skip => HookStep::Skip,
        HookStep::Spawn { command, capture: c, count } => HookStep::Spawn {
            command,
            capture,
            count,
        },
    }
}

/// The exit code of a step, where `ran` tells what each command ends with.
pub open spec fn ending(step: HookStep, ran: spec_fn(Seq<char>) -> Option<i32>) -> int {
    match step {
        HookStep::Skip => 0,
        HookStep::Spawn { command, capture, count } => match ran(command@) {
            Some(c) => c as int,
            None => 1,
        },
    }
}

/// A hook may end with this code and count of files, where `ran` tells what each
/// command ends with.
pub open spec fn may_end(
    hook: config::Hook,
    files: Seq<Seq<char>>,
    dir: Seq<char>,
    args: Seq<Seq<char>>,
    capture: bool,
    ran: spec_fn(Seq<char>) -> Option<i32>,
    code: int,
    count: nat,
) -> bool {
    exists|step: HookStep| #[trigger]
        is_step_of(step, hook, files, dir, args, capture) && code == ending(step, ran) && count
            == files_of(step)
}

proof fn lemma_with_capture(
    step: HookStep,
    hook: config::Hook,
    files: Seq<Seq<char>>,
    dir: Seq<char>,
    args: Seq<Seq<char>>,
    was: bool,
    capture: bool,
)
    requires
        is_step_of(step, hook, files, dir, args, was),
    ensures
        is_step_of(with_capture(step, capture), hook, files, dir, args, capture),
{
    let scope = choose|scope: Seq<Seq<char>>|
        {
            &&& portable_scope(files, hook.glob_matcher) ==> scope == scoped(
                files,
                dir,
                hook.glob_matcher,
            )
            &&& may_scope(scope, files, dir, hook.glob_matcher)
            &&& #[trigger] is_step(step, hook.cmd@, scope, args, was)
        };
    assert(is_step(with_capture(step, capture), hook.cmd@, scope, args, capture));
}

/// Capturing the output changes neither code nor count: whatever the files and the
/// patterns hold, a hook may end with the same codes and counts with and without it,
/// where a command ends with the same code each time. Without a file in scope the
/// code is 0.
pub proof fn law_capture_keeps_code_and_count(
    hook: config::Hook,
    files: Seq<Seq<char>>,
    dir: Seq<char>,
    args: Seq<Seq<char>>,
    ran: spec_fn(Seq<char>) -> Option<i32>,
    code: int,
    count: nat,
)
    ensures
        may_end(hook, files, dir, args, true, ran, code, count) == may_end(
            hook,
            files,
            dir,
            args,
            false,
            ran,
            code,
            count,
        ),
        may_end(hook, files, dir, args, true, ran, code, count) && count == 0 ==> code == 0,
{
    if may_end(hook, files, dir, args, true, ran, code, count) {
        let step = choose|step: HookStep| #[trigger]
            is_step_of(step, hook, files, dir, args, true) && code == ending(step, ran) && count
                == files_of(step);
        lemma_with_capture(step, hook, files, dir, args, true, false);
    }
    if may_end(hook, files, dir, args, false, ran, code, count) {
        let step = choose|step: HookStep| #[trigger]
            is_step_of(step, hook, files, dir, args, false) && code == ending(step, ran) && count
                == files_of(step);
        lemma_with_capture(step, hook, files, dir, args, false, true);
    }
}

/// A hook runs exactly if a staged file is in its scope, whether or not its
/// command asks for the files.
pub proof fn law_runs_when_in_scope(
    step: HookStep,
    hook: config::Hook,
    files: Seq<Seq<char>>,
    dir: Seq<char>,
    args: Seq<Seq<char>>,
    capture: bool,
)
    requires
        is_step_of(step, hook, files, dir, args, capture),
        portable_scope(files, hook.glob_matcher),
    ensures
        step is Spawn <==> exists|i: int|
            0 <= i < files.len() && in_scope(dir, hook.glob_matcher, #[trigger] files[i]),
{
    lemma_scoped_nonempty(files, dir, hook.glob_matcher);
}

/// A hook sees exactly the files in its scope, each as seen from the directory of
/// its manifest.
pub proof fn law_sees_files_in_scope(
    files: Seq<Seq<char>>,
    dir: Seq<char>,
    m: Option<pattern::Matcher>,
    path: Seq<char>,
)
    ensures
        scoped(files, dir, m).contains(path) <==> exists|i: int|
            0 <= i < files.len() && in_scope(dir, m, #[trigger] files[i]) && relative(dir, files[i])
                == Some(path),
    decreases files.len(),
{
    if files.len() > 0 {
        let front = files.drop_last();
        let last = files.last();
        law_sees_files_in_scope(front, dir, m, path);
        let before = scoped(front, dir, m);
        let all = scoped(files, dir, m);
        if all.contains(path) {
            if before.contains(path) {
                let i = choose|i: int|
                    0 <= i < front.len() && in_scope(dir, m, #[trigger] front[i]) && relative(
                        dir,
                        front[i],
                    ) == Some(path);
                assert(files[i] == front[i]);
            } else {
                assert(in_scope(dir, m, files[files.len() - 1]));
            }
        }
        if exists|i: int|
            0 <= i < files.len() && in_scope(dir, m, #[trigger] files[i]) && relative(dir, files[i])
                == Some(path) {
            let i = choose|i: int|
                0 <= i < files.len() && in_scope(dir, m, #[trigger] files[i]) && relative(
                    dir,
                    files[i],
                ) == Some(path);
            if i < front.len() {
                assert(front[i] == files[i]);
                let k = choose|k: int| 0 <= k < before.len() && before[k] == path;
                assert(all[k] == path);
            } else {
                assert(all[all.len() - 1] == path);
            }
        }
    }
}

proof fn lemma_scoped_nonempty(files: Seq<Seq<char>>, dir: Seq<char>, m: Option<pattern::Matcher>)
    ensures
        scoped(files, dir, m).len() > 0 <==> exists|i: int|
            0 <= i < files.len() && in_scope(dir, m, #[trigger] files[i]),
    decreases files.len(),
{
    if files.len() > 0 {
        let front = files.drop_last();
        lemma_scoped_nonempty(front, dir, m);
        if in_scope(dir, m, files.last()) {
            assert(in_scope(dir, m, files[files.len() - 1]));
        } else {
            assert forall|i: int|
                0 <= i < files.len() && in_scope(dir, m, #[trigger] files[i]) implies i
                < front.len() && front[i] == files[i] by {}
            if exists|i: int| 0 <= i < front.len() && in_scope(dir, m, #[trigger] front[i]) {
                let i = choose|i: int| 0 <= i < front.len() && in_scope(dir, m, #[trigger] front[i]);
                assert(files[i] == front[i]);
            }
        }
    }
}

/// The files below a directory are those whose path is the directory, a slash and more,
/// and that is how they are seen from it. Every file is below the repository.
pub proof fn law_relative(dir: Seq<char>, file: Seq<char>, path: Seq<char>)
    ensures
        relative("."@, file) == Some(file),
        relative(Seq::<char>::empty(), file) == Some(file),
        dir.len() > 0 && dir != "."@ ==> (relative(dir, file) == Some(path) <==> file == dir + seq![
            '/',
        ] + path),
        dir.len() > 0 && dir != "."@ && relative(dir, file) is None ==> !dir.is_prefix_of(file)
            || file.len() == dir.len() || file[dir.len() as int] != '/',
{
    reveal_strlit("/");
    assert("/"@ =~= seq!['/']);
    if dir.len() > 0 && dir != "."@ {
        let front = dir + "/"@;
        if front.is_prefix_of(file) {
            assert(file =~= front + file.skip(front.len() as int));
        }
        if file == dir + seq!['/'] + path {
            assert(file.take(front.len() as int) =~= front);
            assert(front.is_prefix_of(file));
            assert(file.skip(front.len() as int) =~= path);
        }
        if dir.is_prefix_of(file) && file.len() > dir.len() && file[dir.len() as int] == '/' {
            assert(file.take(front.len() as int) =~= front);
            assert(front.is_prefix_of(file));
        }
    }
}

/// A file is in the scope of a hook exactly if it is below the directory of the manifest
/// and, seen from there, passes the patterns of the hook, if it has some.
pub proof fn law_in_scope(dir: Seq<char>, m: pattern::Matcher, file: Seq<char>, path: Seq<char>)
    ensures
        relative(dir, file) is None ==> !in_scope(dir, None, file) && !in_scope(dir, Some(m), file),
        relative(dir, file) == Some(path) ==> in_scope(dir, None, file),
        relative(dir, file) == Some(path) ==> (in_scope(dir, Some(m), file) <==> pattern::passes(
            m.included(),
            m.excluded(),
            path,
            false,
        )),
        may_be_in_scope(dir, None, file, true) <==> relative(dir, file) is Some,
        may_be_in_scope(dir, None, file, false) <==> relative(dir, file) is None,
        relative(dir, file) is None ==> !may_be_in_scope(dir, Some(m), file, true),
        relative(dir, file) == Some(path) ==> forall|hit: bool| #[trigger]
            may_be_in_scope(dir, Some(m), file, hit) <==> m.may_give(path, hit),
{
}

/// A hook without patterns has every file below its directory in scope, in order.
pub proof fn law_scope_without_patterns(
    files: Seq<Seq<char>>,
    paths: Seq<Seq<char>>,
    dir: Seq<char>,
)
    requires
        files.len() == paths.len(),
        dir.len() > 0 && dir != "."@,
        forall|i: int| 0 <= i < files.len() ==> #[trigger] files[i] == dir + seq!['/'] + paths[i],
    ensures
        scoped(files, dir, None) == paths,
    decreases files.len(),
{
    if files.len() == 0 {
        assert(scoped(files, dir, None) =~= paths);
    } else {
        let front = files.drop_last();
        let less = paths.drop_last();
        assert forall|i: int| 0 <= i < front.len() implies #[trigger] front[i] == dir + seq!['/']
            + less[i] by {
            assert(front[i] == files[i]);
        }
        law_scope_without_patterns(front, less, dir);
        assert(files[files.len() - 1] == files.last());
        law_relative(dir, files.last(), paths.last());
        assert(less.push(paths.last()) =~= paths);
    }
}

/// What a hook produced: of the changed files, those in the scope of its outputs, in
/// the same order, and none where the outputs have no pattern.
pub proof fn law_produced(
    changed: Seq<Seq<char>>,
    dir: Seq<char>,
    outputs: pattern::Matcher,
    f: Seq<char>,
)
    ensures
        produced(changed, dir, outputs).contains(f) <==> changed.contains(f) && in_scope(
            dir,
            Some(outputs),
            f,
        ) && outputs.included().len() + outputs.excluded().len() > 0,
        produced(changed, dir, outputs).len() <= changed.len(),
{
    let pred = |g: Seq<char>| in_scope(dir, Some(outputs), g);
    text::lemma_filter_contains(changed, pred, f);
    changed.lemma_filter_len(pred);
}

/// What a step runs: a command that asks for the files is given just those in scope, one
/// that asks for an argument is given that argument, and the output is captured exactly
/// if that was asked for.
pub proof fn law_step_runs_the_command(
    step: HookStep,
    cmd: Seq<char>,
    scope: Seq<Seq<char>>,
    args: Seq<Seq<char>>,
    capture: bool,
    n: nat,
)
    requires
        is_step(step, cmd, scope, args, capture),
        forall|i: int| 0 <= i < scope.len() ==> (#[trigger] scope[i]).len() > 0,
    ensures
        step is Skip <==> scope.len() == 0,
        step matches HookStep::Spawn { command, capture: c, count } ==> c == capture && count
            == scope.len() && (!cmd.contains('{') ==> command@ == cmd) && (cmd
            == "{staged_files}"@ ==> shell::words(command@) == scope) && (1 <= n <= args.len()
            && n <= usize::MAX && args[n - 1].len() > 0 && cmd == seq!['{'] + text::decimal(n)
            + seq!['}'] ==> shell::words(command@) == seq![args[n - 1]]),
{
    let none = Seq::<char>::empty();
    law_staged_files(none, scope, args);
    if 1 <= n <= usize::MAX {
        law_argument_by_number(n, none, scope, args);
    }
    if !cmd.contains('{') {
        law_text_outside_placeholders(cmd, none, scope, args);
    }
}

/// What came of a command is what it ended with: the code is that of the command, and a
/// command that ended without one has failed. What it wrote is kept as it is.
pub proof fn law_outcome_is_that_of_the_command(
    r: HookOutcome,
    step: HookStep,
    code: Option<i32>,
    stdout: Seq<char>,
    stderr: Seq<char>,
)
    requires
        is_outcome(r, step, code, stdout, stderr),
    ensures
        step is Spawn ==> (r.code == 0 <==> code == Some(0i32)),
        step is Spawn && code is Some ==> Some(r.code) == code,
        step is Spawn && code is None ==> r.code == 1,
        step is Spawn ==> r.stdout@ == stdout && r.stderr@ == stderr && r.count == files_of(step),
        step is Skip ==> r.code == 0 && r.count == 0,
{
}

/// A duration in words: in milliseconds below a second, else in seconds.
pub open spec fn duration_text(millis: nat, seconds: Seq<char>) -> Seq<char> {
    if millis < 1000 {
        text::decimal(millis) + "ms"@
    } else {
        seconds + "s"@
    }
}

/// A duration below a second is its number of milliseconds; from a second on it is given
/// in seconds.
pub proof fn law_duration(millis: nat, seconds: Seq<char>)
    ensures
        millis <= 999 ==> duration_text(millis, seconds) == text::decimal(millis) + seq!['m', 's'],
        millis > 999 ==> duration_text(millis, seconds) == seconds + seq!['s'],
{
    reveal_strlit("ms");
    reveal_strlit("s");
    assert("ms"@ =~= seq!['m', 's']);
    assert("s"@ =~= seq!['s']);
}

/// A duration of `millis` milliseconds in words; `seconds` is the same
/// duration in seconds, to one decimal place.
pub fn format_duration(millis: u128, seconds: &str) -> (r: String)
    ensures
        r@ == duration_text(millis as nat, seconds@),
        r@ == if millis < 1000 {
            text::decimal(millis as nat) + "ms"@
        } else {
            seconds@ + "s"@
        },
{
    if millis < 1000 {
        text::decimal_text(millis).concat("ms")
    } else {
        seconds.to_owned().concat("s")
    }
}

/// A hook produced nothing where its outputs name nothing; otherwise what it produced are
/// changed files, in their order.
pub proof fn law_may_produce(
    found: Seq<Seq<char>>,
    changed: Seq<Seq<char>>,
    dir: Seq<char>,
    outputs: pattern::Matcher,
    f: Seq<char>,
)
    requires
        may_produce(found, changed, dir, outputs),
    ensures
        outputs.included().len() + outputs.excluded().len() == 0 ==> found.len() == 0,
        found.contains(f) ==> changed.contains(f) && may_be_in_scope(dir, Some(outputs), f, true),
{
    if outputs.included().len() + outputs.excluded().len() > 0 {
        let hits = choose|hits: Seq<bool>| #[trigger]
            may_get(hits, changed, dir, Some(outputs)) && found == kept(changed, hits);
        lemma_kept_contains(changed, hits, f);
        if found.contains(f) {
            let i = choose|i: int| 0 <= i < changed.len() && #[trigger] changed[i] == f && hits[i];
            assert(may_be_in_scope(dir, Some(outputs), changed[i], hits[i]));
        }
    }
}

/// What is kept of files is those that got the answer `true`, in order.
pub proof fn law_kept(files: Seq<Seq<char>>, hits: Seq<bool>, f: Seq<char>)
    requires
        hits.len() == files.len(),
    ensures
        kept(files.push(f), hits.push(true)) == kept(files, hits).push(f),
        kept(files.push(f), hits.push(false)) == kept(files, hits),
{
    assert(files.push(f).drop_last() =~= files);
    assert(hits.push(true).drop_last() =~= hits);
    assert(hits.push(false).drop_last() =~= hits);
}

/// The scope of a hook is the files that it has in scope, where the platform makes no
/// difference; in any case it is made of files below the directory of the manifest that
/// may pass, as seen from there.
pub proof fn law_may_scope(
    scope: Seq<Seq<char>>,
    files: Seq<Seq<char>>,
    dir: Seq<char>,
    m: Option<pattern::Matcher>,
    k: int,
)
    requires
        may_scope(scope, files, dir, m),
    ensures
        portable_scope(files, m) ==> scope == scoped(files, dir, m),
        0 <= k < scope.len() ==> exists|i: int|
            0 <= i < files.len() && relative(dir, #[trigger] files[i]) == Some(scope[k])
                && may_be_in_scope(dir, m, files[i], true),
{
    let hits = choose|hits: Seq<bool>| #[trigger]
        may_get(hits, files, dir, m) && scope == seen_from(dir, kept(files, hits));
    if portable_scope(files, m) {
        lemma_may_get(hits, files, dir, m);
    }
    if 0 <= k < scope.len() {
        let f = kept(files, hits)[k];
        assert(kept(files, hits).contains(f));
        lemma_kept_contains(files, hits, f);
        let i = choose|i: int| 0 <= i < files.len() && #[trigger] files[i] == f && hits[i];
        assert(may_be_in_scope(dir, m, files[i], hits[i]));
        assert(relative(dir, files[i]) == Some(scope[k]));
    }
}

/// Only letters, digits and a few signs that mean nothing to a shell go unquoted: a text
/// with any other character is put between single quotes, and one without is left as it
/// is.
pub proof fn law_what_is_quoted(s: Seq<char>)
    ensures
        (exists|i: int|
            0 <= i < s.len() && !('a' <= #[trigger] s[i] <= 'z' || 'A' <= s[i] <= 'Z' || '0' <= s[i]
                <= '9' || s[i] == '.' || s[i] == '-' || s[i] == '_' || s[i] == '/' || s[i] == '@'
                || s[i] == ':' || s[i] == '+' || s[i] == ',')) ==> escaped(s).len() >= 2
            && escaped(s)[0] == '\'' && escaped(s).last() == '\'',
        (forall|i: int|
            0 <= i < s.len() ==> ('a' <= #[trigger] s[i] <= 'z' || 'A' <= s[i] <= 'Z' || '0' <= s[i]
                <= '9' || s[i] == '.' || s[i] == '-' || s[i] == '_' || s[i] == '/' || s[i] == '@'
                || s[i] == ':' || s[i] == '+' || s[i] == ',')) ==> escaped(s) == s,
{
    reveal_strlit("'");
    assert("'"@ =~= seq!['\'']);
    if exists|i: int|
        0 <= i < s.len() && !('a' <= #[trigger] s[i] <= 'z' || 'A' <= s[i] <= 'Z' || '0' <= s[i]
            <= '9' || s[i] == '.' || s[i] == '-' || s[i] == '_' || s[i] == '/' || s[i] == '@'
            || s[i] == ':' || s[i] == '+' || s[i] == ',') {
        let i = choose|i: int|
            0 <= i < s.len() && !('a' <= #[trigger] s[i] <= 'z' || 'A' <= s[i] <= 'Z' || '0' <= s[i]
                <= '9' || s[i] == '.' || s[i] == '-' || s[i] == '_' || s[i] == '/' || s[i] == '@'
                || s[i] == ':' || s[i] == '+' || s[i] == ',');
        assert(!is_plain(s[i]));
        assert(!all_plain(s));
    }
}

} // verus!
