//! JSON documents, which `serde_json` parses and writes.

use crate::document;
use crate::document::{Node, Tree};
use crate::text;
use vstd::prelude::*;
use vstd::string::*;

verus! {

broadcast use {group_string_axioms, vstd::seq::group_seq_axioms};

/// `serde_json::Value`, a JSON value.
#[verifier::external_type_specification]
#[verifier::external_body]
pub struct ExValue(serde_json::Value);

// ---- reading ----

/// What `serde_json::from_str` makes of a text: what the value holds, or the
/// message of the error.
pub uninterp spec fn parsed(content: Seq<char>) -> Result<Tree, Seq<char>>;

/// What a value holds.
pub uninterp spec fn value_tree(v: serde_json::Value) -> Tree;

/// `serde_json::from_str::<serde_json::Value>`, with the error as the message
/// that its `Display` writes: what comes of a text depends on the text alone.
#[verifier::external_body]
pub(crate) fn parse_value(content: &str) -> (r: Result<serde_json::Value, String>)
    ensures
        r is Ok <==> parsed(content@) is Ok,
        r matches Ok(v) ==> parsed(content@)->Ok_0 == value_tree(v),
        r matches Err(e) ==> parsed(content@)->Err_0 == e@,
{
    serde_json::from_str::<serde_json::Value>(content).map_err(|e| e.to_string())
}

/// The variants of `serde_json::Value`.
enum Shape<'a> {
    Null,
    Bool(bool),
    Number { text: String, float: bool },
    Text(String),
    List(&'a Vec<serde_json::Value>),
    Record(Vec<(&'a str, &'a serde_json::Value)>),
}

/// What named values hold.
spec fn named_trees(v: Seq<(&str, &serde_json::Value)>) -> Seq<(Seq<char>, Tree)> {
    Seq::new(v.len(), |i: int| (v[i].0@, value_tree(*v[i].1)))
}

/// Tells the variants of `serde_json::Value` apart, and integers from
/// floating-point numbers (`serde_json::Number::is_f64`). A number is held as the
/// text that its `Display` writes, an object holds what `serde_json::Map::iter`
/// walks.
#[verifier::external_body]
fn shape<'a>(v: &'a serde_json::Value) -> (r: Shape<'a>)
    ensures
        match r {
            Shape::Null => value_tree(*v) == Tree::Null,
            Shape::Bool(b) => value_tree(*v) == Tree::Bool(b),
            Shape::Number { text, float } => value_tree(*v) == (if float {
                Tree::Float(text@, Some(text@))
            } else {
                Tree::Number(text@)
            }),
            Shape::Text(s) => value_tree(*v) == Tree::Text(s@),
            Shape::List(l) => value_tree(*v) == Tree::List(
                Seq::new(l@.len(), |i: int| value_tree(l@[i])),
            ),
            Shape::Record(e) => value_tree(*v) == Tree::Record(named_trees(e@)),
        },
{
    match v {
        serde_json::Value::Null => Shape::Null,
        serde_json::Value::Bool(b) => Shape::Bool(*b),
        serde_json::Value::Number(n) => Shape::Number { text: n.to_string(), float: n.is_f64() },
        serde_json::Value::String(s) => Shape::Text(s.clone()),
        serde_json::Value::Array(a) => Shape::List(a),
        serde_json::Value::Object(m) => Shape::Record(
            m.iter().map(|e| (e.0.as_str(), e.1)).collect(),
        ),
    }
}

/// The node for a value.
pub(crate) fn value_node(v: &serde_json::Value) -> (r: Node)
    ensures
        document::tree_of(r) == value_tree(*v),
    decreases value_tree(*v), 0nat,
{
    match shape(v) {
        Shape::Null => Node::Null,
        Shape::Bool(b) => Node::Bool(b),
        Shape::Number { text, float } => if float {
            let same = text.clone();
            Node::Float(text, Some(same))
        } else {
            Node::Number(text)
        },
        Shape::Text(s) => Node::Text(s),
        Shape::List(l) => {
            let ghost parts = value_tree(*v)->List_0;
            let mut out: Vec<Node> = Vec::new();
            let mut i: usize = 0;
            while i < l.len()
                invariant
                    i <= l.len(),
                    value_tree(*v) == Tree::List(parts),
                    parts == Seq::new(l@.len(), |i: int| value_tree(l@[i])),
                    document::trees(out@) =~= parts.take(i as int),
                decreases l.len() - i,
            {
                proof {
                    assert(parts[i as int] == value_tree(l@[i as int]));
                    assert(decreases_to!(value_tree(*v) => value_tree(*v)->List_0));
                    assert(decreases_to!(parts => parts[i as int]));
                }
                let ghost before = document::trees(out@);
                out.push(value_node(&l[i]));
                proof {
                    assert(document::trees(out@) =~= before.push(parts[i as int]));
                }
                i += 1;
            }
            proof {
                document::lemma_list_tree(out);
                assert(document::trees(out@) =~= parts);
            }
            Node::List(out)
        },
        Shape::Record(e) => {
            let ghost all = value_tree(*v)->Record_0;
            let mut out: Vec<(String, Node)> = Vec::new();
            let mut i: usize = 0;
            while i < e.len()
                invariant
                    i <= e.len(),
                    value_tree(*v) == Tree::Record(all),
                    all == named_trees(e@),
                    document::entries_of(out@) =~= all.take(i as int),
                decreases e.len() - i,
            {
                proof {
                    assert(all[i as int] == (e@[i as int].0@, value_tree(*e@[i as int].1)));
                    assert(decreases_to!(value_tree(*v) => value_tree(*v)->Record_0));
                    assert(decreases_to!(all => all[i as int]));
                    assert(decreases_to!(all[i as int] => all[i as int].1));
                }
                let ghost before = document::entries_of(out@);
                let n = value_node(e[i].1);
                out.push((String::from_str(e[i].0), n));
                proof {
                    assert(document::entries_of(out@) =~= before.push(all[i as int]));
                }
                i += 1;
            }
            proof {
                document::lemma_entries_tree(out);
                assert(document::entries_of(out@) =~= all);
            }
            Node::Record(out)
        },
    }
}

/// Reads a JSON document.
pub fn read(content: &str) -> (r: Result<Node, String>)
    ensures
        r is Ok <==> parsed(content@) is Ok,
        r matches Ok(n) ==> parsed(content@)->Ok_0 == document::tree_of(n),
        r matches Err(e) ==> parsed(content@)->Err_0 == e@,
{
    match parse_value(content) {
        Ok(v) => Ok(value_node(&v)),
        Err(e) => Err(e),
    }
}

// ---- writing ----

/// The text that `serde_json::Serializer` with a
/// `serde_json::ser::PrettyFormatter` of that indentation writes for a value that
/// holds `t`.
pub uninterp spec fn pretty(t: Tree, indent: Seq<char>) -> Seq<char>;

/// `serde_json::Serializer::with_formatter` and
/// `serde_json::ser::PrettyFormatter::with_indent`: the text depends on what the
/// value holds and on the indentation. Writing a value to memory does not fail.
#[verifier::external_body]
pub(crate) fn write_pretty(v: &serde_json::Value, indent: &str) -> (r: Option<String>)
    ensures
        r is Some,
        r->0@ == pretty(value_tree(*v), indent@),
{
    let formatter = serde_json::ser::PrettyFormatter::with_indent(indent.as_bytes());
    let mut buf: Vec<u8> = Vec::new();
    let mut ser = serde_json::Serializer::with_formatter(&mut buf, formatter);
    serde::Serialize::serialize(v, &mut ser).ok()?;
    String::from_utf8(buf).ok()
}

/// The place of the entry with that name; the number of entries if there is
/// none.
pub open spec fn place_of(entries: Seq<(Seq<char>, Tree)>, key: Seq<char>) -> int
    decreases entries.len(),
{
    if entries.len() == 0 || entries[0].0 == key {
        0
    } else {
        1 + place_of(entries.skip(1), key)
    }
}

/// The entries without the one with that name, whose place the last one takes.
pub open spec fn without(entries: Seq<(Seq<char>, Tree)>, key: Seq<char>) -> Seq<
    (Seq<char>, Tree),
> {
    let i = place_of(entries, key);
    if i < entries.len() {
        entries.update(i, entries.last()).drop_last()
    } else {
        entries
    }
}

/// `serde_json::Value::as_object_mut` and `serde_json::Map::remove`, which puts
/// the last entry in the place of the one that it takes out. Values other than
/// objects are left alone.
#[verifier::external_body]
pub(crate) fn remove_key(v: &mut serde_json::Value, key: &str) -> (r: bool)
    ensures
        r == (value_tree(*old(v)) matches Tree::Record(e) && document::lookup(e, key@) is Some),
        value_tree(*final(v)) == (match value_tree(*old(v)) {
            Tree::Record(e) => Tree::Record(without(e, key@)),
            t => t,
        }),
{
    v.as_object_mut().and_then(|m| m.remove(key)).is_some()
}

/// The digit for a number below sixteen.
pub open spec fn hex_digit(n: int) -> char {
    if n < 10 {
        (n + '0' as int) as char
    } else {
        (n - 10 + 'a' as int) as char
    }
}

/// How a character is written inside a JSON string.
pub open spec fn escape_char(c: char) -> Seq<char> {
    if c == '"' {
        seq!['\\', '"']
    } else if c == '\\' {
        seq!['\\', '\\']
    } else if c == '\n' {
        seq!['\\', 'n']
    } else if c == '\r' {
        seq!['\\', 'r']
    } else if c == '\t' {
        seq!['\\', 't']
    } else if c == '\u{8}' {
        seq!['\\', 'b']
    } else if c == '\u{c}' {
        seq!['\\', 'f']
    } else if 32 > c as int {
        seq!['\\', 'u', '0', '0', hex_digit(c as int / 16), hex_digit(c as int % 16)]
    } else {
        seq![c]
    }
}

/// How a text is written inside a JSON string.
pub open spec fn escape_text(s: Seq<char>) -> Seq<char>
    decreases s.len(),
{
    if s.len() == 0 {
        seq![]
    } else {
        escape_text(s.drop_last()) + escape_char(s.last())
    }
}

/// `serde_json::to_string` of a string: the text in quotes, with quotes,
/// backslashes and control characters escaped. It does not fail.
#[verifier::external_body]
pub(crate) fn quote(s: &str) -> (r: String)
    ensures
        r@ == seq!['"'] + escape_text(s@) + seq!['"'],
{
    serde_json::to_string(s).unwrap()
}

} // verus!
