//! Finding the place for an edit in the text of a JSON document, so that the
//! rest of it stays as it is written.

use crate::text;
use vstd::prelude::*;
use vstd::string::*;

verus! {

broadcast use {group_string_axioms, vstd::seq::group_seq_axioms};

/// `needle` stands at `i`.
pub open spec fn stands_at(s: Seq<char>, needle: Seq<char>, i: int) -> bool {
    0 <= i && i + needle.len() <= s.len() && s.subrange(i, i + needle.len()) == needle
}

/// Does `needle` stand at `i`?
fn is_at(v: &Vec<char>, needle: &Vec<char>, i: usize) -> (r: bool)
    requires
        i <= v.len(),
    ensures
        r == stands_at(v@, needle@, i as int),
{
    if needle.len() > v.len() - i {
        return false;
    }
    let mut k: usize = 0;
    while k < needle.len()
        invariant
            i + needle.len() <= v.len(),
            k <= needle.len(),
            forall|j: int| 0 <= j < k ==> v@[i + j] == #[trigger] needle@[j],
        decreases needle.len() - k,
    {
        if v[i + k] != needle[k] {
            proof {
                assert(v@.subrange(i as int, i + needle.len())[k as int] != needle@[k as int]);
            }
            return false;
        }
        k += 1;
    }
    proof {
        assert(v@.subrange(i as int, i + needle.len()) =~= needle@);
    }
    true
}

/// The first place at or behind `i` without white space.
pub open spec fn past_space(s: Seq<char>, i: int) -> int
    decreases s.len() - i,
{
    if 0 <= i < s.len() && text::is_space(s[i]) {
        past_space(s, i + 1)
    } else {
        i
    }
}

/// The first place at or behind `i` without white space.
fn skip_space(v: &Vec<char>, i: usize) -> (r: usize)
    requires
        i <= v.len(),
    ensures
        r == past_space(v@, i as int),
        i <= r <= v.len(),
{
    let mut k: usize = i;
    while k < v.len() && text::is_whitespace(v[k])
        invariant
            i <= k <= v.len(),
            past_space(v@, i as int) == past_space(v@, k as int),
        decreases v.len() - k,
    {
        k += 1;
    }
    k
}

/// The brace that opens an object behind a colon, with nothing but white space
/// before either.
pub open spec fn object_value(s: Seq<char>, after: int) -> Option<int> {
    let colon = past_space(s, after);
    if 0 <= colon < s.len() && s[colon] == ':' {
        let brace = past_space(s, colon + 1);
        if 0 <= brace < s.len() && s[brace] == '{' {
            Some(brace)
        } else {
            None
        }
    } else {
        None
    }
}

/// A key as it is written.
pub open spec fn quoted_key(key: Seq<char>) -> Seq<char> {
    seq!['"'] + key + seq!['"']
}

// ---- how deep a place lies ----

/// What is known of a place in a text from what stands before it: how many objects
/// are open there, whether it lies in a string, and whether a backslash of that
/// string stands before it.
pub struct Spot {
    pub depth: int,
    pub in_string: bool,
    pub escaped: bool,
}

/// The place behind a character.
pub open spec fn past(at: Spot, c: char) -> Spot {
    if at.escaped {
        Spot { escaped: false, ..at }
    } else if at.in_string {
        Spot { in_string: c != '"', escaped: c == '\\', ..at }
    } else if c == '"' {
        Spot { in_string: true, ..at }
    } else if c == '{' {
        Spot { depth: at.depth + 1, ..at }
    } else if c == '}' {
        Spot { depth: at.depth - 1, ..at }
    } else {
        at
    }
}

/// What is known of the place `i`, counted from `from`.
pub open spec fn spot(s: Seq<char>, from: int, i: int) -> Spot
    decreases i - from,
{
    if i <= from {
        Spot { depth: 0, in_string: false, escaped: false }
    } else {
        past(spot(s, from, i - 1), s[i - 1])
    }
}

/// The place `i` lies directly in the object that begins at `open`: not in a string
/// and in no object inside.
pub open spec fn is_direct(s: Seq<char>, open: int, i: int) -> bool {
    spot(s, open, i).depth == 1 && !spot(s, open, i).in_string
}

/// The object that begins at `open` ends at `i`.
pub open spec fn ends_at(s: Seq<char>, open: int, i: int) -> bool {
    is_direct(s, open, i) && s[i] == '}'
}

/// Directly in the object that begins at `open`, the key stands at `i`, and its
/// value is an object.
pub open spec fn key_stands(s: Seq<char>, open: int, key: Seq<char>, i: int) -> bool {
    is_direct(s, open, i) && stands_at(s, quoted_key(key), i) && object_value(
        s,
        i + quoted_key(key).len(),
    ) is Some
}

/// Where the object that begins at `open` ends, at or behind `i`.
pub open spec fn end_from(s: Seq<char>, open: int, i: int) -> Option<int>
    decreases s.len() - i,
{
    if i < 0 || i >= s.len() {
        None
    } else if ends_at(s, open, i) {
        Some(i)
    } else {
        end_from(s, open, i + 1)
    }
}

/// The brace that closes the object that `open` opens.
pub open spec fn matching_brace(s: Seq<char>, open: int) -> Option<int> {
    end_from(s, open, open)
}

/// The brace that opens the object under the key, which stands directly in the
/// object that begins at `open`, at or behind `i`.
pub open spec fn key_from(s: Seq<char>, open: int, key: Seq<char>, i: int) -> Option<int>
    decreases s.len() - i,
{
    if i < 0 || i >= s.len() || ends_at(s, open, i) {
        None
    } else if key_stands(s, open, key, i) {
        object_value(s, i + quoted_key(key).len())
    } else {
        key_from(s, open, key, i + 1)
    }
}

/// The brace that opens the object under a key of the object that begins at
/// `open`. Keys of objects inside do not count, nor does what stands in strings.
pub open spec fn key_brace(s: Seq<char>, open: int, key: Seq<char>) -> Option<int> {
    key_from(s, open, key, open)
}

// ---- finding braces ----

/// A place in a text, as a scan knows it.
struct Scan {
    depth: i128,
    in_string: bool,
    escaped: bool,
}

impl View for Scan {
    type V = Spot;

    closed spec fn view(&self) -> Spot {
        Spot { depth: self.depth as int, in_string: self.in_string, escaped: self.escaped }
    }
}

impl Scan {
    /// Goes on behind a character.
    fn pass(&mut self, c: char)
        requires
            i128::MIN < old(self).depth < i128::MAX,
        ensures
            final(self)@ == past(old(self)@, c),
    {
        if self.escaped {
            self.escaped = false;
        } else if self.in_string {
            if c == '\\' {
                self.escaped = true;
            } else if c == '"' {
                self.in_string = false;
            }
        } else if c == '"' {
            self.in_string = true;
        } else if c == '{' {
            self.depth = self.depth + 1;
        } else if c == '}' {
            self.depth = self.depth - 1;
        }
    }
}

/// The brace that opens the object under `key` in the object that begins at
/// `start`. What stands before the brace of that object does not count.
pub fn json_find_key_open_brace(content: &Vec<char>, start: usize, key: &str) -> (r: Result<
    usize,
    String,
>)
    requires
        start <= content.len(),
    ensures
        r is Ok <==> key_brace(content@, start as int, key@) is Some,
        r matches Ok(b) ==> key_brace(content@, start as int, key@) == Some(b as int),
        r matches Ok(b) ==> start < b < content.len() && content@[b as int] == '{',
        r matches Err(e) ==> e@ == "key \""@ + key@ + "\" not found in JSON"@,
{
    let mut needle: Vec<char> = Vec::new();
    needle.push('"');
    let mut inner = text::chars_of(key);
    needle.append(&mut inner);
    needle.push('"');
    proof {
        assert(needle@ =~= quoted_key(key@));
    }
    let mut at = Scan { depth: 0, in_string: false, escaped: false };
    let mut i: usize = start;
    while i < content.len()
        invariant
            start <= i <= content.len(),
            needle@ == quoted_key(key@),
            at@ == spot(content@, start as int, i as int),
            -(i - start) <= at.depth <= i - start,
            key_brace(content@, start as int, key@) == key_from(
                content@,
                start as int,
                key@,
                i as int,
            ),
        ensures
            key_brace(content@, start as int, key@) is None,
        decreases content.len() - i,
    {
        if at.depth == 1 && !at.in_string {
            if content[i] == '}' {
                break;
            }
            if is_at(content, &needle, i) {
                let colon = skip_space(content, i + needle.len());
                if colon < content.len() && content[colon] == ':' {
                    let brace = skip_space(content, colon + 1);
                    if brace < content.len() && content[brace] == '{' {
                        return Ok(brace);
                    }
                }
            }
        }
        at.pass(content[i]);
        i += 1;
    }
    let mut m = String::from_str("key \"");
    m.append(key);
    m.append("\" not found in JSON");
    Err(m)
}

/// The brace that closes the object that `open` opens; braces in strings do not
/// count.
pub fn json_find_matching_brace(content: &Vec<char>, open: usize) -> (r: Result<usize, String>)
    requires
        open <= content.len(),
    ensures
        r is Ok <==> matching_brace(content@, open as int) is Some,
        r matches Ok(c) ==> matching_brace(content@, open as int) == Some(c as int),
        r matches Ok(c) ==> open < c < content.len() && content@[c as int] == '}',
        r matches Err(e) ==> e@ == "unmatched brace in JSON"@,
{
    let mut at = Scan { depth: 0, in_string: false, escaped: false };
    let mut i: usize = open;
    while i < content.len()
        invariant
            open <= i <= content.len(),
            at@ == spot(content@, open as int, i as int),
            -(i - open) <= at.depth <= i - open,
            matching_brace(content@, open as int) == end_from(content@, open as int, i as int),
        decreases content.len() - i,
    {
        if at.depth == 1 && !at.in_string && content[i] == '}' {
            return Ok(i);
        }
        at.pass(content[i]);
        i += 1;
    }
    Err(String::from_str("unmatched brace in JSON"))
}

/// The brace that opens the object at the end of a path of keys, each a key of the
/// object before it; the key that is not found where there is none.
pub open spec fn path_brace(s: Seq<char>, open: int, path: Seq<Seq<char>>) -> Result<
    int,
    Seq<char>,
>
    decreases path.len(),
{
    if path.len() == 0 {
        Ok(open)
    } else {
        match key_brace(s, open, path[0]) {
            Some(b) => path_brace(s, b, path.skip(1)),
            None => Err("key \""@ + path[0] + "\" not found in JSON"@),
        }
    }
}

/// The brace that opens the object at the end of a path of keys, which starts from
/// the root object.
pub open spec fn open_brace(s: Seq<char>, path: Seq<Seq<char>>) -> Result<int, Seq<char>> {
    let first = text::index_from(s, '{', 0);
    if first >= s.len() && path.len() == 0 {
        Err("no root JSON object"@)
    } else {
        path_brace(s, first, path)
    }
}

/// The brace that closes the object at the end of a path of keys.
pub open spec fn close_brace(s: Seq<char>, path: Seq<Seq<char>>) -> Result<int, Seq<char>> {
    match open_brace(s, path) {
        Err(e) => Err(e),
        Ok(open) => match matching_brace(s, open) {
            Some(c) => Ok(c),
            None => Err("unmatched brace in JSON"@),
        },
    }
}

/// The brace that closes the object at the end of a path of keys; without keys,
/// the one that closes the root object.
pub fn json_find_object_close(content: &Vec<char>, path: &Vec<String>) -> (r: Result<usize, String>)
    ensures
        ({
            let found = close_brace(content@, text::views(path@));
            &&& r is Ok <==> found is Ok
            &&& r matches Ok(c) ==> found->Ok_0 == c && c < content.len() && content@[c as int]
                == '}'
            &&& r matches Err(e) ==> e@ == found->Err_0
        }),
{
    let ghost keys = text::views(path@);
    let first = text::find_from(content, '{', 0);
    if first >= content.len() && path.len() == 0 {
        return Err(String::from_str("no root JSON object"));
    }
    let mut open: usize = first;
    let mut i: usize = 0;
    proof {
        assert(keys.skip(0) =~= keys);
    }
    while i < path.len()
        invariant
            i <= path.len(),
            open <= content.len(),
            keys == text::views(path@),
            first == text::index_from(content@, '{', 0),
            path_brace(content@, first as int, keys) == path_brace(
                content@,
                open as int,
                keys.skip(i as int),
            ),
            open_brace(content@, keys) == path_brace(content@, first as int, keys),
        decreases path.len() - i,
    {
        proof {
            assert(keys.skip(i as int)[0] == keys[i as int]);
            assert(keys.skip(i as int).skip(1) =~= keys.skip(i + 1));
        }
        match json_find_key_open_brace(content, open, path[i].as_str()) {
            Ok(b) => {
                open = b;
            },
            Err(e) => {
                return Err(e);
            },
        }
        i += 1;
    }
    json_find_matching_brace(content, open)
}

/// A key of an object inside another does not count: the key that is found stands
/// directly in the object it is searched in, before that object ends.
pub proof fn law_key_is_direct(s: Seq<char>, open: int, key: Seq<char>, from: int)
    requires
        0 <= open <= from,
        key_from(s, open, key, from) is Some,
    ensures
        exists|i: int|
            from <= i < s.len() && #[trigger] key_stands(s, open, key, i) && key_from(
                s,
                open,
                key,
                from,
            ) == object_value(s, i + quoted_key(key).len()) && forall|j: int|
                from <= j < i ==> !(#[trigger] ends_at(s, open, j)),
    decreases s.len() - from,
{
    if !key_stands(s, open, key, from) {
        law_key_is_direct(s, open, key, from + 1);
        let i = choose|i: int|
            from + 1 <= i < s.len() && #[trigger] key_stands(s, open, key, i) && key_from(
                s,
                open,
                key,
                from + 1,
            ) == object_value(s, i + quoted_key(key).len()) && forall|j: int|
                from + 1 <= j < i ==> !(#[trigger] ends_at(s, open, j));
        assert(key_stands(s, open, key, i));
        assert(!ends_at(s, open, from));
    }
}

// ---- laws ----

/// Characters that are neither quotes nor braces leave a place as deep as it was.
proof fn lemma_plain_run(s: Seq<char>, from: int, i: int, j: int)
    requires
        from <= i <= j <= s.len(),
        !spot(s, from, i).in_string,
        !spot(s, from, i).escaped,
        forall|k: int|
            i <= k < j ==> #[trigger] s[k] != '"' && s[k] != '{' && s[k] != '}',
    ensures
        spot(s, from, j) == spot(s, from, i),
    decreases j - i,
{
    if i < j {
        lemma_plain_run(s, from, i, j - 1);
        assert(s[j - 1] != '"');
    }
}

/// Inside a string only a quote or a backslash changes what is known of a place.
proof fn lemma_string_run(s: Seq<char>, from: int, i: int, j: int)
    requires
        from <= i <= j <= s.len(),
        spot(s, from, i).in_string,
        !spot(s, from, i).escaped,
        forall|k: int| i <= k < j ==> #[trigger] s[k] != '"' && s[k] != '\\',
    ensures
        spot(s, from, j) == spot(s, from, i),
    decreases j - i,
{
    if i < j {
        lemma_string_run(s, from, i, j - 1);
        assert(s[j - 1] != '"');
    }
}

proof fn lemma_end_is(s: Seq<char>, open: int, from: int, at: int)
    requires
        0 <= from <= at < s.len(),
        ends_at(s, open, at),
        forall|j: int| from <= j < at ==> !#[trigger] ends_at(s, open, j),
    ensures
        end_from(s, open, from) == Some(at),
    decreases at - from,
{
    if from < at {
        assert(!ends_at(s, open, from));
        lemma_end_is(s, open, from + 1, at);
    }
}

/// An object ends at the first brace behind the one that opens it, where it holds neither
/// strings nor objects.
pub proof fn law_plain_object(front: Seq<char>, body: Seq<char>, back: Seq<char>)
    requires
        !body.contains('"'),
        !body.contains('{'),
        !body.contains('}'),
    ensures
        matching_brace(front + seq!['{'] + body + seq!['}'] + back, front.len() as int) == Some(
            (front.len() + 1 + body.len()) as int,
        ),
{
    let s = front + seq!['{'] + body + seq!['}'] + back;
    let open = front.len() as int;
    let at = open + 1 + body.len();
    assert(s[open] == '{' && s[at] == '}');
    assert(spot(s, open, open).depth == 0);
    assert(spot(s, open, open + 1) == past(spot(s, open, open), '{'));
    assert forall|k: int| open + 1 <= k < at implies #[trigger] s[k] != '"' && s[k] != '{' && s[k]
        != '}' by {
        assert(s[k] == body[k - open - 1]);
        assert(body.contains(body[k - open - 1]));
    }
    assert forall|j: int| open <= j < at implies !#[trigger] ends_at(s, open, j) by {
        if j > open {
            assert(s[j] != '}');
        }
    }
    lemma_plain_run(s, open, open + 1, at);
    lemma_end_is(s, open, open, at);
}

/// Braces in a string do not count: an object that holds one string ends behind it,
/// whatever the string holds but quotes and backslashes.
pub proof fn law_braces_in_strings(
    front: Seq<char>,
    before: Seq<char>,
    inside: Seq<char>,
    behind: Seq<char>,
    back: Seq<char>,
)
    requires
        !before.contains('"') && !before.contains('{') && !before.contains('}'),
        !inside.contains('"') && !inside.contains('\\'),
        !behind.contains('"') && !behind.contains('{') && !behind.contains('}'),
    ensures
        matching_brace(
            front + seq!['{'] + before + seq!['"'] + inside + seq!['"'] + behind + seq!['}'] + back,
            front.len() as int,
        ) == Some((front.len() + before.len() + inside.len() + behind.len() + 3) as int),
{
    let s = front + seq!['{'] + before + seq!['"'] + inside + seq!['"'] + behind + seq!['}']
        + back;
    let open = front.len() as int;
    let a = open + 1 + before.len();
    let b = a + 1 + inside.len();
    let at = b + 1 + behind.len();
    assert(s[open] == '{' && s[a] == '"' && s[b] == '"' && s[at] == '}');
    assert forall|k: int| open + 1 <= k < a implies #[trigger] s[k] != '"' && s[k] != '{' && s[k]
        != '}' by {
        assert(s[k] == before[k - open - 1]);
        assert(before.contains(before[k - open - 1]));
    }
    assert forall|k: int| a + 1 <= k < b implies #[trigger] s[k] != '"' && s[k] != '\\' by {
        assert(s[k] == inside[k - a - 1]);
        assert(inside.contains(inside[k - a - 1]));
    }
    assert forall|k: int| b + 1 <= k < at implies #[trigger] s[k] != '"' && s[k] != '{' && s[k]
        != '}' by {
        assert(s[k] == behind[k - b - 1]);
        assert(behind.contains(behind[k - b - 1]));
    }
    assert(spot(s, open, open).depth == 0);
    assert(spot(s, open, open + 1) == past(spot(s, open, open), '{'));
    lemma_plain_run(s, open, open + 1, a);
    assert(spot(s, open, a + 1) == past(spot(s, open, a), '"'));
    lemma_string_run(s, open, a + 1, b);
    assert(spot(s, open, b + 1) == past(spot(s, open, b), '"'));
    lemma_plain_run(s, open, b + 1, at);
    assert forall|j: int| open <= j < at implies !#[trigger] ends_at(s, open, j) by {
        if open < j < a || b < j {
            assert(s[j] != '}');
        } else if a < j < b {
            lemma_string_run(s, open, a + 1, j);
        }
    }
    lemma_end_is(s, open, open, at);
}

/// A quote that is escaped does not end a string.
pub proof fn law_escaped_quote(at: Spot)
    requires
        at.in_string,
        !at.escaped,
    ensures
        past(past(at, '\\'), '"') == at,
        past(past(at, '\\'), '\\') == at,
        !past(at, '"').in_string,
        past(at, '{').depth == at.depth && past(at, '}').depth == at.depth,
{
}

proof fn lemma_past_space(s: Seq<char>, i: int, at: int)
    requires
        0 <= i <= at <= s.len(),
        forall|k: int| i <= k < at ==> text::is_space(#[trigger] s[k]),
        at < s.len() ==> !text::is_space(s[at]),
    ensures
        past_space(s, i) == at,
    decreases at - i,
{
    if i < at {
        assert(text::is_space(s[i]));
        lemma_past_space(s, i + 1, at);
    }
}

/// The object under the first key of an object is found behind the key and its colon,
/// whatever white space stands around them.
pub proof fn law_first_key(
    front: Seq<char>,
    lead: Seq<char>,
    key: Seq<char>,
    gap: Seq<char>,
    more: Seq<char>,
    back: Seq<char>,
)
    requires
        forall|i: int| 0 <= i < lead.len() ==> text::is_space(#[trigger] lead[i]),
        forall|i: int| 0 <= i < gap.len() ==> text::is_space(#[trigger] gap[i]),
        forall|i: int| 0 <= i < more.len() ==> text::is_space(#[trigger] more[i]),
    ensures
        key_brace(
            front + seq!['{'] + lead + seq!['"'] + key + seq!['"'] + gap + seq![':'] + more + seq![
                '{',
            ] + back,
            front.len() as int,
            key,
        ) == Some((front.len() + lead.len() + key.len() + gap.len() + more.len() + 4) as int),
{
    let s = front + seq!['{'] + lead + seq!['"'] + key + seq!['"'] + gap + seq![':'] + more + seq![
        '{',
    ] + back;
    let open = front.len() as int;
    let at = open + 1 + lead.len();
    let q = at + key.len() + 2;
    let colon = q + gap.len();
    let brace = colon + 1 + more.len();
    assert(s[open] == '{' && s[at] == '"' && s[colon] == ':' && s[brace] == '{');
    assert forall|k: int| open + 1 <= k < at implies text::is_space(#[trigger] s[k]) && s[k] != '"'
        && s[k] != '{' && s[k] != '}' by {
        assert(s[k] == lead[k - open - 1]);
    }
    assert(spot(s, open, open).depth == 0);
    assert(spot(s, open, open + 1) == past(spot(s, open, open), '{'));
    lemma_plain_run(s, open, open + 1, at);
    assert(s.subrange(at, q) =~= quoted_key(key));
    assert forall|k: int| q <= k < colon implies text::is_space(#[trigger] s[k]) by {
        assert(s[k] == gap[k - q]);
    }
    assert forall|k: int| colon + 1 <= k < brace implies text::is_space(#[trigger] s[k]) by {
        assert(s[k] == more[k - colon - 1]);
    }
    lemma_past_space(s, q, colon);
    lemma_past_space(s, colon + 1, brace);
    assert(key_stands(s, open, key, at));
    assert forall|j: int| open <= j < at implies !#[trigger] ends_at(s, open, j) by {
        if j > open {
            assert(s[j] != '}');
        }
    }
    assert forall|j: int| open <= j < at implies !#[trigger] key_stands(s, open, key, j) by {
        if stands_at(s, quoted_key(key), j) {
            assert(s.subrange(j, j + quoted_key(key).len())[0] == s[j]);
            assert(quoted_key(key)[0] == '"');
        }
    }
    lemma_key_is(s, open, key, open, at);
}

proof fn lemma_key_is(s: Seq<char>, open: int, key: Seq<char>, from: int, at: int)
    requires
        0 <= from <= at < s.len(),
        key_stands(s, open, key, at),
        s[at] != '}',
        forall|j: int| from <= j < at ==> !#[trigger] ends_at(s, open, j),
        forall|j: int| from <= j < at ==> !#[trigger] key_stands(s, open, key, j),
    ensures
        key_from(s, open, key, from) == object_value(s, at + quoted_key(key).len()),
    decreases at - from,
{
    if from < at {
        assert(!ends_at(s, open, from));
        assert(!key_stands(s, open, key, from));
        lemma_key_is(s, open, key, from + 1, at);
    }
}

/// A path is followed key by key from the first brace of the text on; where a key is not
/// found, it is named.
pub proof fn law_paths(s: Seq<char>, open: int, key: Seq<char>, rest: Seq<Seq<char>>)
    ensures
        path_brace(s, open, Seq::<Seq<char>>::empty()) == Ok::<int, Seq<char>>(open),
        key_brace(s, open, key) matches Some(b) ==> path_brace(s, open, seq![key] + rest)
            == path_brace(s, b, rest),
        key_brace(s, open, key) is None ==> path_brace(s, open, seq![key] + rest) == Err::<
            int,
            Seq<char>,
        >("key \""@ + key + "\" not found in JSON"@),
        s.contains('{') ==> open_brace(s, rest) == path_brace(s, text::index_from(s, '{', 0), rest),
        !s.contains('{') ==> open_brace(s, Seq::<Seq<char>>::empty()) == Err::<int, Seq<char>>(
            "no root JSON object"@,
        ),
{
    let path = seq![key] + rest;
    assert(path[0] == key);
    assert(path.skip(1) =~= rest);
    text::lemma_index_from(s, '{', 0);
    if s.contains('{') {
        let i = choose|i: int| 0 <= i < s.len() && s[i] == '{';
        if text::index_from(s, '{', 0) >= s.len() {
            assert(s[i] != '{');
        }
    }
}

/// Only a brace behind a colon opens an object, with nothing but white space around the
/// colon.
pub proof fn law_object_values(s: Seq<char>, after: int)
    requires
        0 <= after,
    ensures
        object_value(s, after) matches Some(b) ==> 0 <= b < s.len() && s[b] == '{' && exists|i: int|
            after <= i < b && #[trigger] s[i] == ':' && (forall|k: int|
                after <= k < b && k != i ==> text::is_space(#[trigger] s[k])),
{
    let colon = past_space(s, after);
    lemma_only_space(s, after);
    if 0 <= colon < s.len() && s[colon] == ':' {
        lemma_only_space(s, colon + 1);
    }
}

proof fn lemma_only_space(s: Seq<char>, i: int)
    requires
        0 <= i,
    ensures
        i <= past_space(s, i),
        forall|k: int| i <= k < past_space(s, i) ==> text::is_space(#[trigger] s[k]),
    decreases s.len() - i,
{
    if i < s.len() && text::is_space(s[i]) {
        lemma_only_space(s, i + 1);
    }
}

} // verus!
