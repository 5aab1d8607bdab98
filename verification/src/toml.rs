//! TOML documents, which `toml_edit` parses, edits and writes.

use crate::document;
use crate::document::{Node, Tree};
use crate::text;
use vstd::prelude::*;
use vstd::string::*;

verus! {

broadcast use {group_string_axioms, vstd::seq::group_seq_axioms};

/// `toml_edit::DocumentMut`, a document with its formatting.
#[verifier::external_type_specification]
#[verifier::external_body]
pub struct ExDocumentMut(toml_edit::DocumentMut);

/// `toml_edit::Table`, a table with its formatting.
#[verifier::external_type_specification]
#[verifier::external_body]
pub struct ExTable(toml_edit::Table);

/// `toml_edit::Item`, what stands under a key of a table.
#[verifier::external_type_specification]
#[verifier::external_body]
pub struct ExItem(toml_edit::Item);

/// `toml_edit::Value`, what stands behind an equals sign or in an array.
#[verifier::external_type_specification]
#[verifier::external_body]
pub struct ExValue(toml_edit::Value);

// ---- reading ----

/// What parsing a text as a `toml_edit::DocumentMut` gives: the document, or
/// the message of the error.
pub uninterp spec fn parsed(content: Seq<char>) -> Result<toml_edit::DocumentMut, Seq<char>>;

/// The root table of a document.
pub uninterp spec fn root(d: toml_edit::DocumentMut) -> toml_edit::Table;

/// The entries of a table, in the order in which `toml_edit::Table::iter` walks
/// them.
pub uninterp spec fn table_entries(t: toml_edit::Table) -> Seq<(Seq<char>, Tree)>;

/// What an item holds.
pub uninterp spec fn item_tree(i: toml_edit::Item) -> Tree;

/// What a value holds.
pub uninterp spec fn value_tree(v: toml_edit::Value) -> Tree;

/// `str::parse::<toml_edit::DocumentMut>`, with the error as the message that
/// its `Display` writes: what comes of a text depends on the text alone.
#[verifier::external_body]
fn parse_document(content: &str) -> (r: Result<toml_edit::DocumentMut, String>)
    ensures
        r is Ok <==> parsed(content@) is Ok,
        r matches Ok(d) ==> parsed(content@)->Ok_0 == d,
        r matches Err(e) ==> parsed(content@)->Err_0 == e@,
{
    content.parse::<toml_edit::DocumentMut>().map_err(|e| e.to_string())
}

/// The variants of `toml_edit::Item`.
enum ItemShape<'a> {
    Empty,
    Leaf(&'a toml_edit::Value),
    Section(Vec<(&'a str, &'a toml_edit::Item)>),
    Sections(Vec<Vec<(&'a str, &'a toml_edit::Item)>>),
}

/// The variants of `toml_edit::Value`.
enum ValueShape<'a> {
    Bool(bool),
    Number(String),
    Float(String),
    Date(String),
    Text(String),
    List(Vec<&'a toml_edit::Value>),
    Record(Vec<(&'a str, &'a toml_edit::Item)>),
}

/// What named items hold.
spec fn named_trees(v: Seq<(&str, &toml_edit::Item)>) -> Seq<(Seq<char>, Tree)> {
    Seq::new(v.len(), |i: int| (v[i].0@, item_tree(*v[i].1)))
}

/// The entries of the root table: `toml_edit::DocumentMut::as_table` and
/// `toml_edit::Table::iter`.
#[verifier::external_body]
fn root_items<'a>(d: &'a toml_edit::DocumentMut) -> (r: Vec<(&'a str, &'a toml_edit::Item)>)
    ensures
        named_trees(r@) == table_entries(root(*d)),
{
    d.as_table().iter().collect()
}

/// What tables of named items hold.
spec fn section_trees(v: Seq<Vec<(&str, &toml_edit::Item)>>) -> Seq<Tree> {
    Seq::new(v.len(), |i: int| Tree::Section(named_trees(v[i]@)))
}

/// Tells the variants of `toml_edit::Item` apart. A table holds the entries
/// that `toml_edit::Table::iter` walks, an array of tables those of the tables that
/// `toml_edit::ArrayOfTables::iter` walks.
#[verifier::external_body]
fn item_shape<'a>(i: &'a toml_edit::Item) -> (r: ItemShape<'a>)
    ensures
        match r {
            ItemShape::Empty => item_tree(*i) == Tree::Null,
            ItemShape::Leaf(v) => item_tree(*i) == value_tree(*v),
            ItemShape::Section(v) => item_tree(*i) == Tree::Section(named_trees(v@)),
            ItemShape::Sections(v) => item_tree(*i) == Tree::Sections(section_trees(v@)),
        },
{
    match i {
        toml_edit::Item::None => ItemShape::Empty,
        toml_edit::Item::Value(v) => ItemShape::Leaf(v),
        toml_edit::Item::Table(t) => ItemShape::Section(t.iter().collect()),
        toml_edit::Item::ArrayOfTables(a) => ItemShape::Sections(
            a.iter().map(|t| t.iter().collect()).collect(),
        ),
    }
}

/// Tells the variants of `toml_edit::Value` apart. Integers and dates are held as
/// the text that their `Display` writes, a floating-point number as the text that
/// `Display` of `serde::de::Unexpected::Float` writes for it; see also `json_float`.
/// An array holds what `toml_edit::Array::iter` walks, an inline table what
/// `toml_edit::TableLike::iter` walks.
#[verifier::external_body]
fn value_shape<'a>(v: &'a toml_edit::Value) -> (r: ValueShape<'a>)
    ensures
        match r {
            ValueShape::Bool(b) => value_tree(*v) == Tree::Bool(b),
            ValueShape::Number(s) => value_tree(*v) == Tree::Number(s@),
            ValueShape::Float(s) => value_tree(*v) is Float && value_tree(*v)->Float_0 == s@,
            ValueShape::Date(s) => value_tree(*v) == Tree::Date(s@),
            ValueShape::Text(s) => value_tree(*v) == Tree::Text(s@),
            ValueShape::List(l) => value_tree(*v) == Tree::List(
                Seq::new(l@.len(), |i: int| value_tree(*l@[i])),
            ),
            ValueShape::Record(e) => value_tree(*v) == Tree::Record(named_trees(e@)),
        },
{
    match v {
        toml_edit::Value::String(s) => ValueShape::Text(s.value().clone()),
        toml_edit::Value::Integer(n) => ValueShape::Number(n.value().to_string()),
        toml_edit::Value::Float(n) => ValueShape::Float(
            serde::de::Unexpected::Float(*n.value()).to_string(),
        ),
        toml_edit::Value::Boolean(b) => ValueShape::Bool(*b.value()),
        toml_edit::Value::Datetime(d) => ValueShape::Date(d.value().to_string()),
        toml_edit::Value::Array(a) => ValueShape::List(a.iter().collect()),
        toml_edit::Value::InlineTable(t) => ValueShape::Record(
            toml_edit::TableLike::iter(t).collect(),
        ),
    }
}

/// `serde_json::Number::from_f64`, which takes a floating-point number that is
/// finite, and `Display` of what it gives.
#[verifier::external_body]
fn json_float(v: &toml_edit::Value) -> (r: Option<String>)
    ensures
        value_tree(*v) is Float ==> value_tree(*v)->Float_1 == document::text_of(r),
{
    v.as_float().and_then(serde_json::Number::from_f64).map(|n| n.to_string())
}

/// The node for a value.
fn value_node(v: &toml_edit::Value) -> (r: Node)
    ensures
        document::tree_of(r) == value_tree(*v),
    decreases value_tree(*v), 0nat,
{
    match value_shape(v) {
        ValueShape::Bool(b) => Node::Bool(b),
        ValueShape::Number(s) => Node::Number(s),
        ValueShape::Float(s) => Node::Float(s, json_float(v)),
        ValueShape::Date(s) => Node::Date(s),
        ValueShape::Text(s) => Node::Text(s),
        ValueShape::List(l) => {
            let ghost parts = value_tree(*v)->List_0;
            let mut out: Vec<Node> = Vec::new();
            let mut i: usize = 0;
            while i < l.len()
                invariant
                    i <= l.len(),
                    value_tree(*v) == Tree::List(parts),
                    parts == Seq::new(l@.len(), |i: int| value_tree(*l@[i])),
                    document::trees(out@) =~= parts.take(i as int),
                decreases l.len() - i,
            {
                proof {
                    assert(parts[i as int] == value_tree(*l@[i as int]));
                    assert(decreases_to!(value_tree(*v) => value_tree(*v)->List_0));
                    assert(decreases_to!(parts => parts[i as int]));
                }
                let ghost before = document::trees(out@);
                out.push(value_node(l[i]));
                proof {
                    assert(document::trees(out@) =~= before.push(parts[i as int]));
                }
                i += 1;
            }
            proof {
                document::lemma_list_tree(out);
                assert(document::trees(out@) =~= parts);
            }
            Node::List(out)
        },
        ValueShape::Record(e) => {
            proof {
                assert(decreases_to!(value_tree(*v) => value_tree(*v)->Record_0));
            }
            let out = named_nodes(&e);
            proof {
                document::lemma_entries_tree(out);
            }
            Node::Record(out)
        },
    }
}

/// The node for an item.
fn item_node(i: &toml_edit::Item) -> (r: Node)
    ensures
        document::tree_of(r) == item_tree(*i),
    decreases item_tree(*i), 1nat,
{
    match item_shape(i) {
        ItemShape::Empty => Node::Null,
        ItemShape::Leaf(v) => value_node(v),
        ItemShape::Section(e) => {
            proof {
                assert(decreases_to!(item_tree(*i) => item_tree(*i)->Section_0));
            }
            let out = named_nodes(&e);
            proof {
                document::lemma_entries_tree(out);
            }
            Node::Section(out)
        },
        ItemShape::Sections(v) => {
            let ghost parts = item_tree(*i)->Sections_0;
            let mut out: Vec<Node> = Vec::new();
            let mut k: usize = 0;
            while k < v.len()
                invariant
                    k <= v.len(),
                    item_tree(*i) == Tree::Sections(parts),
                    parts == section_trees(v@),
                    document::trees(out@) =~= parts.take(k as int),
                decreases v.len() - k,
            {
                proof {
                    assert(parts[k as int] == Tree::Section(named_trees(v@[k as int]@)));
                    assert(decreases_to!(item_tree(*i) => item_tree(*i)->Sections_0));
                    assert(decreases_to!(parts => parts[k as int]));
                    assert(decreases_to!(parts[k as int] => parts[k as int]->Section_0));
                }
                let ghost before = document::trees(out@);
                let entries = named_nodes(&v[k]);
                proof {
                    document::lemma_entries_tree(entries);
                }
                out.push(Node::Section(entries));
                proof {
                    assert(document::trees(out@) =~= before.push(parts[k as int]));
                }
                k += 1;
            }
            proof {
                document::lemma_list_tree(out);
                assert(document::trees(out@) =~= parts);
            }
            Node::Sections(out)
        },
    }
}

/// The nodes for named items.
fn named_nodes(v: &Vec<(&str, &toml_edit::Item)>) -> (r: Vec<(String, Node)>)
    ensures
        document::entries_of(r@) == named_trees(v@),
    decreases named_trees(v@), 0nat,
{
    let ghost all = named_trees(v@);
    let mut out: Vec<(String, Node)> = Vec::new();
    let mut i: usize = 0;
    while i < v.len()
        invariant
            i <= v.len(),
            all == named_trees(v@),
            document::entries_of(out@) =~= all.take(i as int),
        decreases v.len() - i,
    {
        proof {
            assert(all[i as int] == (v@[i as int].0@, item_tree(*v@[i as int].1)));
            assert(decreases_to!(all => all[i as int]));
            assert(decreases_to!(all[i as int] => all[i as int].1));
        }
        let ghost before = document::entries_of(out@);
        let n = item_node(v[i].1);
        out.push((String::from_str(v[i].0), n));
        proof {
            assert(document::entries_of(out@) =~= before.push(all[i as int]));
        }
        i += 1;
    }
    proof {
        assert(document::entries_of(out@) =~= all);
    }
    out
}

/// What the text holds as a TOML document; the message of the parser where it
/// is none.
pub open spec fn toml_tree(content: Seq<char>) -> Result<Tree, Seq<char>> {
    match parsed(content) {
        Ok(d) => Ok(Tree::Section(table_entries(root(d)))),
        Err(e) => Err(e),
    }
}

/// Reads a TOML document.
pub fn read(content: &str) -> (r: Result<Node, String>)
    ensures
        r is Ok <==> toml_tree(content@) is Ok,
        r matches Ok(n) ==> toml_tree(content@)->Ok_0 == document::tree_of(n),
        r matches Err(e) ==> toml_tree(content@)->Err_0 == e@,
{
    match parse_document(content) {
        Ok(d) => Ok(document_node(&d)),
        Err(e) => Err(e),
    }
}

/// The node for a document.
fn document_node(d: &toml_edit::DocumentMut) -> (r: Node)
    ensures
        document::tree_of(r) == Tree::Section(table_entries(root(*d))),
{
    let out = named_nodes(&root_items(d));
    proof {
        document::lemma_entries_tree(out);
    }
    Node::Section(out)
}

// ---- editing ----

/// The names of entries, in order.
pub open spec fn names(entries: Seq<(Seq<char>, Tree)>) -> Seq<Seq<char>> {
    entries.map_values(|e: (Seq<char>, Tree)| e.0)
}

/// The names of the entries but for `key`, in order.
pub open spec fn other_names(entries: Seq<(Seq<char>, Tree)>, key: Seq<char>) -> Seq<Seq<char>> {
    names(entries).filter(|n: Seq<char>| n != key)
}

/// The text that `Display` of `toml_edit::DocumentMut` writes.
pub uninterp spec fn rendered(d: toml_edit::DocumentMut) -> Seq<char>;

/// The document after its root table, as `toml_edit::DocumentMut::as_table_mut`
/// lends it, has become `t`.
pub uninterp spec fn with_root(d: toml_edit::DocumentMut, t: toml_edit::Table) -> toml_edit::DocumentMut;

/// The table under a key, as `toml_edit::Table::get_mut` lends it.
pub uninterp spec fn child_table(t: toml_edit::Table, key: Seq<char>) -> toml_edit::Table;

/// The table after the one under a key, as `toml_edit::Table::get_mut` lends it,
/// has become `c`.
pub uninterp spec fn with_child(t: toml_edit::Table, key: Seq<char>, c: toml_edit::Table) -> toml_edit::Table;

/// What `toml_edit::Table::insert` makes of a table.
pub uninterp spec fn with_item(t: toml_edit::Table, key: Seq<char>, item: toml_edit::Item) -> toml_edit::Table;

/// What `toml_edit::Table::remove` leaves of a table.
pub uninterp spec fn without_item(t: toml_edit::Table, key: Seq<char>) -> toml_edit::Table;

/// A `toml_edit::Table` without entries.
pub uninterp spec fn section_item(implicit: bool) -> toml_edit::Item;

/// A `toml_edit::InlineTable` of texts.
pub uninterp spec fn record_item(entries: Seq<(Seq<char>, Seq<char>)>) -> toml_edit::Item;

/// A `toml_edit::Array` of texts.
pub uninterp spec fn list_item(texts: Seq<Seq<char>>) -> toml_edit::Item;

/// `Display` of `toml_edit::DocumentMut`: the text depends on the document
/// alone.
#[verifier::external_body]
fn document_text(d: &toml_edit::DocumentMut) -> (r: String)
    ensures
        r@ == rendered(*d),
{
    d.to_string()
}

/// `toml_edit::DocumentMut::as_table_mut` lends the root table: what it becomes
/// is the root table of the document.
#[verifier::external_body]
fn root_mut<'a>(d: &'a mut toml_edit::DocumentMut) -> (r: &'a mut toml_edit::Table)
    ensures
        *r == root(*old(d)),
        *final(d) == with_root(*old(d), *final(r)),
        root(*final(d)) == *final(r),
{
    d.as_table_mut()
}

/// `toml_edit::Table::contains_key` finds the entries that
/// `toml_edit::Table::iter` walks.
#[verifier::external_body]
fn has_key(t: &toml_edit::Table, key: &str) -> (r: bool)
    ensures
        r == (document::lookup(table_entries(*t), key@) is Some),
{
    t.contains_key(key)
}

/// `toml_edit::Table::get_mut`, where it finds a table, lends that table: what
/// it becomes is what stands under the key. The other keys are untouched, and all
/// keys stay in their order.
#[verifier::external_body]
fn child_mut<'a>(t: &'a mut toml_edit::Table, key: &str) -> (r: Option<&'a mut toml_edit::Table>)
    ensures
        r is Some <==> (document::lookup(table_entries(*old(t)), key@) matches Some(c)
            && c is Section),
        r is None ==> *final(t) == *old(t),
        r matches Some(c) ==> *c == child_table(*old(t), key@),
        r matches Some(c) ==> document::lookup(table_entries(*old(t)), key@) == Some(
            Tree::Section(table_entries(*c)),
        ),
        r matches Some(c) ==> *final(t) == with_child(*old(t), key@, *final(c)),
        r matches Some(c) ==> document::lookup(table_entries(*final(t)), key@) == Some(
            Tree::Section(table_entries(*final(c))),
        ),
        names(table_entries(*final(t))) == names(table_entries(*old(t))),
        forall|k: Seq<char>|
            k != key@ ==> #[trigger] document::lookup(table_entries(*final(t)), k)
                == document::lookup(table_entries(*old(t)), k),
{
    t.get_mut(key).and_then(|i| i.as_table_mut())
}

/// `toml_edit::Table::insert` puts the item under the key, in place of what
/// stood there, and leaves the other keys untouched and in their order. Where the
/// key comes among them is left unsaid: a new key comes last, but one whose item
/// was `toml_edit::Item::None`, which no iteration shows, keeps its place.
#[verifier::external_body]
fn insert_item(t: &mut toml_edit::Table, key: &str, item: toml_edit::Item)
    ensures
        *final(t) == with_item(*old(t), key@, item),
        item_tree(item) != Tree::Null ==> document::lookup(table_entries(*final(t)), key@) == Some(
            item_tree(item),
        ),
        other_names(table_entries(*final(t)), key@) == other_names(table_entries(*old(t)), key@),
        forall|k: Seq<char>|
            k != key@ ==> #[trigger] document::lookup(table_entries(*final(t)), k)
                == document::lookup(table_entries(*old(t)), k),
{
    t.insert(key, item);
}

/// `toml_edit::Table::remove` takes out what stands under the key and leaves the
/// other keys untouched and in their order.
#[verifier::external_body]
fn remove_item(t: &mut toml_edit::Table, key: &str)
    ensures
        *final(t) == without_item(*old(t), key@),
        document::lookup(table_entries(*final(t)), key@) is None,
        other_names(table_entries(*final(t)), key@) == other_names(table_entries(*old(t)), key@),
        forall|k: Seq<char>|
            k != key@ ==> #[trigger] document::lookup(table_entries(*final(t)), k)
                == document::lookup(table_entries(*old(t)), k),
{
    t.remove(key);
}

/// `toml_edit::Table::new` and `toml_edit::Table::set_implicit`: a table without
/// entries.
#[verifier::external_body]
fn new_section(implicit: bool) -> (r: toml_edit::Item)
    ensures
        r == section_item(implicit),
        item_tree(r) == Tree::Section(seq![]),
{
    let mut t = toml_edit::Table::new();
    t.set_implicit(implicit);
    toml_edit::Item::Table(t)
}

/// `toml_edit::InlineTable::from_iter`, which inserts the entries one by one.
#[verifier::external_body]
fn new_record(entries: &Vec<(String, String)>) -> (r: toml_edit::Item)
    requires
        forall|i: int, j: int|
            0 <= i < j < entries@.len() ==> #[trigger] entries@[i].0@ != #[trigger] entries@[j].0@,
    ensures
        r == record_item(pairs(entries@)),
        item_tree(r) == Tree::Record(text_entries(pairs(entries@))),
{
    toml_edit::value(
        entries.iter().map(|e| (e.0.as_str(), e.1.as_str())).collect::<toml_edit::InlineTable>(),
    )
}

/// `toml_edit::Array::from_iter`, which takes the texts in their order.
#[verifier::external_body]
fn new_list(texts: &Vec<String>) -> (r: toml_edit::Item)
    ensures
        r == list_item(text::views(texts@)),
        item_tree(r) == Tree::List(
            Seq::new(texts@.len(), |i: int| Tree::Text(texts@[i]@)),
        ),
{
    toml_edit::value(texts.iter().map(|t| t.as_str()).collect::<toml_edit::Array>())
}

/// The contents of named texts.
pub open spec fn pairs(v: Seq<(String, String)>) -> Seq<(Seq<char>, Seq<char>)> {
    Seq::new(v.len(), |i: int| (v[i].0@, v[i].1@))
}

/// Named texts as entries of a tree.
pub open spec fn text_entries(v: Seq<(Seq<char>, Seq<char>)>) -> Seq<(Seq<char>, Tree)> {
    Seq::new(v.len(), |i: int| (v[i].0, Tree::Text(v[i].1)))
}

/// The table with `item` under `name` in the table at the end of `path`, and
/// with new tables where the path leads nowhere. `None` if something on the path
/// is not a section.
pub open spec fn placed(
    t: toml_edit::Table,
    path: Seq<Seq<char>>,
    name: Seq<char>,
    item: toml_edit::Item,
) -> Option<toml_edit::Table>
    decreases path.len(),
{
    if path.len() == 0 {
        Some(with_item(t, name, item))
    } else {
        match document::lookup(table_entries(t), path[0]) {
            None => {
                let t1 = with_item(t, path[0], section_item(true));
                match placed(child_table(t1, path[0]), path.skip(1), name, item) {
                    Some(c) => Some(with_child(t1, path[0], c)),
                    None => None,
                }
            },
            Some(Tree::Section(_)) => match placed(
                child_table(t, path[0]),
                path.skip(1),
                name,
                item,
            ) {
                Some(c) => Some(with_child(t, path[0], c)),
                None => None,
            },
            Some(_) => None,
        }
    }
}

/// Neither path leads to the other.
pub open spec fn unrelated(a: Seq<Seq<char>>, b: Seq<Seq<char>>) -> bool {
    !a.is_prefix_of(b) && !b.is_prefix_of(a)
}

/// In every section on the path that stays, the entries that are not on the path
/// keep their order.
pub open spec fn keeps_order(before: Tree, after: Tree, path: Seq<Seq<char>>) -> bool
    decreases path.len(),
{
    match (before, after) {
        (Tree::Section(b), Tree::Section(a)) => path.len() == 0 || {
            &&& other_names(a, path[0]) == other_names(b, path[0])
            &&& match (document::lookup(b, path[0]), document::lookup(a, path[0])) {
                (Some(x), Some(y)) => keeps_order(x, y, path.skip(1)),
                _ => true,
            }
        },
        _ => true,
    }
}

/// The tree of a table.
pub open spec fn table_tree(t: toml_edit::Table) -> Tree {
    Tree::Section(table_entries(t))
}

proof fn lemma_unrelated_tail(a: Seq<Seq<char>>, b: Seq<Seq<char>>)
    requires
        unrelated(a, b),
        a.len() > 0,
        b.len() > 0,
        a[0] == b[0],
    ensures
        unrelated(a.skip(1), b.skip(1)),
{
    if a.skip(1).is_prefix_of(b.skip(1)) {
        assert forall|i: int| 0 <= i < a.len() implies a[i] == b[i] by {
            if i > 0 {
                assert(a.skip(1)[i - 1] == b.skip(1)[i - 1]);
            }
        }
        assert(a =~= b.take(a.len() as int));
    }
    if b.skip(1).is_prefix_of(a.skip(1)) {
        assert forall|i: int| 0 <= i < b.len() implies a[i] == b[i] by {
            if i > 0 {
                assert(a.skip(1)[i - 1] == b.skip(1)[i - 1]);
            }
        }
        assert(b =~= a.take(b.len() as int));
    }
}

/// Puts `item` under `name` in the table at the end of the path, making the
/// tables that are missing. Nothing else that the table holds changes.
fn place(
    t: &mut toml_edit::Table,
    path: &Vec<String>,
    from: usize,
    name: &str,
    item: toml_edit::Item,
) -> (r: bool)
    requires
        from <= path.len(),
        item_tree(item) != Tree::Null,
    ensures
        r == (placed(*old(t), text::views(path@).skip(from as int), name@, item) is Some),
        r ==> Some(*final(t)) == placed(
            *old(t),
            text::views(path@).skip(from as int),
            name@,
            item,
        ),
        r ==> document::descend(
            table_tree(*final(t)),
            text::views(path@).skip(from as int).push(name@),
        ) == Some(item_tree(item)),
        r ==> forall|other: Seq<Seq<char>>|
            unrelated(other, text::views(path@).skip(from as int).push(name@))
                ==> #[trigger] document::descend(table_tree(*final(t)), other)
                == document::descend(table_tree(*old(t)), other),
        r ==> keeps_order(
            table_tree(*old(t)),
            table_tree(*final(t)),
            text::views(path@).skip(from as int).push(name@),
        ),
    decreases path.len() - from,
{
    let ghost rest = text::views(path@).skip(from as int);
    let ghost full = rest.push(name@);
    let ghost before = table_tree(*t);
    if from == path.len() {
        insert_item(t, name, item);
        proof {
            assert(rest.len() == 0);
            assert(full.skip(1) =~= Seq::<Seq<char>>::empty());
            assert(document::descend(item_tree(item), full.skip(1)) == Some(item_tree(item)));
            reveal_with_fuel(keeps_order, 2);
            assert forall|other: Seq<Seq<char>>| unrelated(other, full) implies
                #[trigger] document::descend(table_tree(*t), other) == document::descend(
                before,
                other,
            ) by {
                assert(other.len() > 0) by {
                    if other.len() == 0 {
                        assert(other =~= full.take(0));
                    }
                }
                if other[0] == name@ {
                    assert(full =~= other.take(1));
                }
            }
        }
        return true;
    }
    let key = path[from].as_str();
    proof {
        assert(rest[0] == key@);
        assert(rest.skip(1) =~= text::views(path@).skip(from + 1));
        assert(full.skip(1) =~= rest.skip(1).push(name@));
        assert(full[0] == key@);
    }
    if !has_key(t, key) {
        insert_item(t, key, new_section(true));
    }
    let ghost middle = table_tree(*t);
    let ghost tail = rest.skip(1).push(name@);
    match child_mut(t, key) {
        Some(c) => {
            let ghost child_before = table_tree(*c);
            let done = place(c, path, from + 1, name, item);
            proof {
                if done {
                    assert forall|other: Seq<Seq<char>>| unrelated(other, full) implies
                        #[trigger] document::descend(table_tree(*t), other) == document::descend(
                        before,
                        other,
                    ) by {
                        assert(other.len() > 0) by {
                            if other.len() == 0 {
                                assert(other =~= full.take(0));
                            }
                        }
                        if other[0] == key@ {
                            lemma_unrelated_tail(other, full);
                            let after = document::child(table_tree(*t), key@)->0;
                            assert(document::descend(after, other.skip(1))
                                == document::descend(child_before, other.skip(1)));
                            assert(other.skip(1).len() > 0) by {
                                if other.skip(1).len() == 0 {
                                    assert(other.skip(1) =~= full.skip(1).take(0));
                                }
                            }
                            assert(document::lookup(
                                Seq::<(Seq<char>, Tree)>::empty(),
                                other.skip(1)[0],
                            ) is None);
                        }
                    }
                }
            }
            done
        },
        None => false,
    }
}

/// The document with `item` under `name` in the table at the end of `path`.
pub open spec fn document_with(
    content: Seq<char>,
    path: Seq<Seq<char>>,
    name: Seq<char>,
    item: toml_edit::Item,
) -> Result<toml_edit::DocumentMut, Seq<char>> {
    match parsed(content) {
        Err(e) => Err("failed to parse TOML: "@ + e),
        Ok(d) => match placed(root(d), path, name, item) {
            Some(t) => Ok(with_root(d, t)),
            None => Err("expected table in TOML"@),
        },
    }
}

/// The message for a text that is not TOML.
fn parse_failure(e: &str) -> (r: String)
    ensures
        r@ == "failed to parse TOML: "@ + e@,
{
    let mut t = String::from_str("failed to parse TOML: ");
    t.append(e);
    t
}

/// Puts a record of texts under `name` in the table at the end of the path.
/// Only what stands there changes in the document that is written.
pub fn add_record(
    content: &str,
    path: &Vec<String>,
    name: &str,
    entries: &Vec<(String, String)>,
) -> (r: Result<String, String>)
    requires
        forall|i: int, j: int|
            0 <= i < j < entries@.len() ==> #[trigger] entries@[i].0@ != #[trigger] entries@[j].0@,
    ensures
        ({
            let keys = text::views(path@);
            let item = record_item(pairs(entries@));
            let edited = document_with(content@, keys, name@, item);
            &&& r is Ok <==> edited is Ok
            &&& r matches Err(e) ==> e@ == edited->Err_0
            &&& r matches Ok(t) ==> {
                &&& t@ == rendered(edited->Ok_0)
                &&& document::descend(table_tree(root(edited->Ok_0)), keys.push(name@)) == Some(
                    Tree::Record(text_entries(pairs(entries@))),
                )
                &&& forall|other: Seq<Seq<char>>|
                    unrelated(other, keys.push(name@)) ==> #[trigger] document::descend(
                        table_tree(root(edited->Ok_0)),
                        other,
                    ) == document::descend(table_tree(root(parsed(content@)->Ok_0)), other)
                &&& keeps_order(
                    table_tree(root(parsed(content@)->Ok_0)),
                    table_tree(root(edited->Ok_0)),
                    keys.push(name@),
                )
            }
        }),
{
    let mut doc = match parse_document(content) {
        Ok(d) => d,
        Err(e) => return Err(parse_failure(e.as_str())),
    };
    let item = new_record(entries);
    let done = place(root_mut(&mut doc), path, 0, name, item);
    proof {
        assert(text::views(path@).skip(0) =~= text::views(path@));
    }
    if done {
        Ok(document_text(&doc))
    } else {
        Err(String::from_str("expected table in TOML"))
    }
}

/// The document with two lists under the path.
pub open spec fn document_with_lists(
    content: Seq<char>,
    path: Seq<Seq<char>>,
    first: (Seq<char>, Seq<Seq<char>>),
    second: (Seq<char>, Seq<Seq<char>>),
) -> Result<toml_edit::DocumentMut, Seq<char>> {
    match parsed(content) {
        Err(e) => Err("failed to parse TOML: "@ + e),
        Ok(d) => match placed(root(d), path, first.0, list_item(first.1)) {
            Some(t) => match placed(t, path, second.0, list_item(second.1)) {
                Some(u) => Ok(with_root(d, u)),
                None => Err("expected table in TOML"@),
            },
            None => Err("expected table in TOML"@),
        },
    }
}

/// The list of texts as a tree.
pub open spec fn text_list(texts: Seq<Seq<char>>) -> Tree {
    Tree::List(Seq::new(texts.len(), |i: int| Tree::Text(texts[i])))
}

/// Puts two lists of texts under their names in the table at the end of the
/// path. Only what stands there changes in the document that is written.
pub fn add_lists(
    content: &str,
    path: &Vec<String>,
    first: (&str, &Vec<String>),
    second: (&str, &Vec<String>),
) -> (r: Result<String, String>)
    requires
        first.0@ != second.0@,
    ensures
        ({
            let keys = text::views(path@);
            let edited = document_with_lists(
                content@,
                keys,
                (first.0@, text::views(first.1@)),
                (second.0@, text::views(second.1@)),
            );
            &&& r is Ok <==> edited is Ok
            &&& r matches Err(e) ==> e@ == edited->Err_0
            &&& r matches Ok(t) ==> {
                &&& t@ == rendered(edited->Ok_0)
                &&& document::descend(table_tree(root(edited->Ok_0)), keys.push(first.0@))
                    == Some(text_list(text::views(first.1@)))
                &&& document::descend(table_tree(root(edited->Ok_0)), keys.push(second.0@))
                    == Some(text_list(text::views(second.1@)))
                &&& forall|other: Seq<Seq<char>>|
                    unrelated(other, keys.push(first.0@)) && unrelated(other, keys.push(second.0@))
                        ==> #[trigger] document::descend(table_tree(root(edited->Ok_0)), other)
                        == document::descend(table_tree(root(parsed(content@)->Ok_0)), other)
            }
        }),
{
    let mut doc = match parse_document(content) {
        Ok(d) => d,
        Err(e) => return Err(parse_failure(e.as_str())),
    };
    let a = new_list(first.1);
    let b = new_list(second.1);
    let ghost keys = text::views(path@);
    proof {
        assert(keys.skip(0) =~= keys);
        assert(item_tree(a)->List_0 =~= text_list(text::views(first.1@))->List_0);
        assert(item_tree(b)->List_0 =~= text_list(text::views(second.1@))->List_0);
        let k = keys.push(first.0@);
        let l = keys.push(second.0@);
        assert(k.len() == l.len() && k[keys.len() as int] != l[keys.len() as int]);
        assert(unrelated(k, l)) by {
            if k.is_prefix_of(l) || l.is_prefix_of(k) {
                assert(k =~= l);
            }
        }
    }
    let table = root_mut(&mut doc);
    let done = place(table, path, 0, first.0, a);
    if !done {
        return Err(String::from_str("expected table in TOML"));
    }
    let done = place(table, path, 0, second.0, b);
    if !done {
        return Err(String::from_str("expected table in TOML"));
    }
    Ok(document_text(&doc))
}

// ---- removing ----

/// Something stands under `key` in the section at the end of a path of sections.
pub open spec fn is_held(t: Tree, path: Seq<Seq<char>>, key: Seq<char>) -> bool {
    document::section_at(t, path) matches Some(e) && document::lookup(e, key) is Some
}

/// The table without what stands under `key` in the section at the end of
/// `path`; `None` if nothing stands there.
pub open spec fn removed_at(
    t: toml_edit::Table,
    path: Seq<Seq<char>>,
    key: Seq<char>,
) -> Option<toml_edit::Table>
    decreases path.len(),
{
    if path.len() == 0 {
        if document::lookup(table_entries(t), key) is Some {
            Some(without_item(t, key))
        } else {
            None
        }
    } else if document::lookup(table_entries(t), path[0]) matches Some(c) && c is Section {
        match removed_at(child_table(t, path[0]), path.skip(1), key) {
            Some(c) => Some(with_child(t, path[0], c)),
            None => None,
        }
    } else {
        None
    }
}

/// Takes out what stands under `key` in the section at the end of the path.
/// Nothing else that the table holds changes.
fn remove_at(
    t: &mut toml_edit::Table,
    path: &Vec<String>,
    from: usize,
    to: usize,
    key: &str,
) -> (r: bool)
    requires
        from <= to <= path.len(),
    ensures
        r == (removed_at(
            *old(t),
            text::views(path@).subrange(from as int, to as int),
            key@,
        ) is Some),
        r == is_held(
            table_tree(*old(t)),
            text::views(path@).subrange(from as int, to as int),
            key@,
        ),
        r ==> Some(*final(t)) == removed_at(
            *old(t),
            text::views(path@).subrange(from as int, to as int),
            key@,
        ),
        r ==> document::descend(
            table_tree(*final(t)),
            text::views(path@).subrange(from as int, to as int).push(key@),
        ) is None,
        r ==> forall|other: Seq<Seq<char>>|
            unrelated(other, text::views(path@).subrange(from as int, to as int).push(key@))
                ==> #[trigger] document::descend(table_tree(*final(t)), other)
                == document::descend(table_tree(*old(t)), other),
        r ==> keeps_order(
            table_tree(*old(t)),
            table_tree(*final(t)),
            text::views(path@).subrange(from as int, to as int).push(key@),
        ),
    decreases to - from,
{
    let ghost rest = text::views(path@).subrange(from as int, to as int);
    let ghost full = rest.push(key@);
    let ghost before = table_tree(*t);
    if from == to {
        if !has_key(t, key) {
            return false;
        }
        remove_item(t, key);
        proof {
            assert forall|other: Seq<Seq<char>>| unrelated(other, full) implies
                #[trigger] document::descend(table_tree(*t), other) == document::descend(
                before,
                other,
            ) by {
                assert(other.len() > 0) by {
                    if other.len() == 0 {
                        assert(other =~= full.take(0));
                    }
                }
                if other[0] == key@ {
                    assert(full =~= other.take(1));
                }
            }
        }
        return true;
    }
    let first = path[from].as_str();
    proof {
        assert(rest[0] == first@);
        assert(rest.skip(1) =~= text::views(path@).subrange(from + 1, to as int));
        assert(full.skip(1) =~= rest.skip(1).push(key@));
        assert(full[0] == first@);
        reveal_with_fuel(document::section_at, 2);
    }
    match child_mut(t, first) {
        Some(c) => {
            let ghost child_before = table_tree(*c);
            let done = remove_at(c, path, from + 1, to, key);
            proof {
                if done {
                    assert forall|other: Seq<Seq<char>>| unrelated(other, full) implies
                        #[trigger] document::descend(table_tree(*t), other) == document::descend(
                        before,
                        other,
                    ) by {
                        assert(other.len() > 0) by {
                            if other.len() == 0 {
                                assert(other =~= full.take(0));
                            }
                        }
                        if other[0] == first@ {
                            lemma_unrelated_tail(other, full);
                            let after = document::child(table_tree(*t), first@)->0;
                            assert(document::descend(after, other.skip(1))
                                == document::descend(child_before, other.skip(1)));
                        }
                    }
                }
            }
            done
        },
        None => false,
    }
}

/// The text without the sections on the path that are empty, from the end of
/// the path up to the first that is not.
pub open spec fn swept(content: Seq<char>, path: Seq<Seq<char>>) -> Result<Seq<char>, Seq<char>>
    decreases path.len(),
{
    if path.len() == 0 {
        Ok(content)
    } else {
        match parsed(content) {
            Err(e) => Err("re-parse failed: "@ + e),
            Ok(d) => if document::section_at(table_tree(root(d)), path) == Some(
                Seq::<(Seq<char>, Tree)>::empty(),
            ) {
                match removed_at(root(d), path.drop_last(), path.last()) {
                    Some(t) => swept(rendered(with_root(d, t)), path.drop_last()),
                    None => Ok(content),
                }
            } else {
                Ok(content)
            },
        }
    }
}

/// What is left of a document without what stands at the end of the path, and
/// without the sections on the path that are empty then. `None` if nothing
/// stands there.
pub open spec fn purged(content: Seq<char>, path: Seq<Seq<char>>) -> Result<
    Option<Seq<char>>,
    Seq<char>,
> {
    match parsed(content) {
        Err(e) => Err("failed to parse TOML: "@ + e),
        Ok(d) => if path.len() == 0 {
            Ok(None)
        } else {
            match removed_at(root(d), path.drop_last(), path.last()) {
                Some(t) => match swept(rendered(with_root(d, t)), path.drop_last()) {
                    Ok(text) => Ok(Some(text)),
                    Err(e) => Err(e),
                },
                None => Ok(None),
            }
        },
    }
}

/// Taking out what stands at the end of the path leaves nothing there, and leaves
/// what stands elsewhere in the document, in its order.
pub open spec fn only_that_goes(content: Seq<char>, path: Seq<Seq<char>>) -> bool {
    let d = parsed(content)->Ok_0;
    let cut = with_root(d, removed_at(root(d), path.drop_last(), path.last())->0);
    &&& document::descend(table_tree(root(cut)), path) is None
    &&& forall|other: Seq<Seq<char>>|
        unrelated(other, path) ==> #[trigger] document::descend(table_tree(root(cut)), other)
            == document::descend(table_tree(root(d)), other)
    &&& keeps_order(table_tree(root(d)), table_tree(root(cut)), path)
}

/// Each section that the sweep takes out of a text goes alone: see `swept` and
/// `only_that_goes`.
pub open spec fn only_empty_go(content: Seq<char>, path: Seq<Seq<char>>) -> bool
    decreases path.len(),
{
    path.len() > 0 && parsed(content) is Ok ==> {
        let d = parsed(content)->Ok_0;
        document::section_at(table_tree(root(d)), path) == Some(Seq::<(Seq<char>, Tree)>::empty())
            ==> match removed_at(root(d), path.drop_last(), path.last()) {
            Some(t) => {
                &&& only_that_goes(content, path)
                &&& only_empty_go(rendered(with_root(d, t)), path.drop_last())
            },
            None => true,
        }
    }
}

/// The document once what stands at the end of the path is taken out, and before the
/// sections on the path are swept.
pub open spec fn cut_document(content: Seq<char>, path: Seq<Seq<char>>) -> toml_edit::DocumentMut {
    let d = parsed(content)->Ok_0;
    with_root(d, removed_at(root(d), path.drop_last(), path.last())->0)
}

/// The text of that document.
pub open spec fn cut_text(content: Seq<char>, path: Seq<Seq<char>>) -> Seq<char> {
    rendered(cut_document(content, path))
}

/// Takes out what stands at the end of the path, and the sections on the path
/// that are empty then.
pub fn purge(content: &str, path: &Vec<String>) -> (r: Result<Option<String>, String>)
    ensures
        ({
            let left = purged(content@, text::views(path@));
            &&& r is Ok <==> left is Ok
            &&& r matches Err(e) ==> e@ == left->Err_0
            &&& r matches Ok(None) ==> left->Ok_0 is None
            &&& r matches Ok(Some(t)) ==> left->Ok_0 == Some(t@)
        }),
        path@.len() > 0 && toml_tree(content@) is Ok ==> (r is Ok && r->Ok_0 is None <==> !is_held(
            toml_tree(content@)->Ok_0,
            text::views(path@).drop_last(),
            text::views(path@).last(),
        )),
        r matches Ok(Some(_)) ==> only_that_goes(content@, text::views(path@)),
        r matches Ok(Some(_)) ==> only_empty_go(
            cut_text(content@, text::views(path@)),
            text::views(path@).drop_last(),
        ),
{
    let mut doc = match parse_document(content) {
        Ok(d) => d,
        Err(e) => return Err(parse_failure(e.as_str())),
    };
    let n = path.len();
    if n == 0 {
        return Ok(None);
    }
    let ghost keys = text::views(path@);
    proof {
        assert(keys.subrange(0, n - 1) =~= keys.drop_last());
        assert(keys.last() == path@[n - 1]@);
    }
    let removed = remove_at(root_mut(&mut doc), path, 0, n - 1, path[n - 1].as_str());
    if !removed {
        return Ok(None);
    }
    let mut left = document_text(&doc);
    proof {
        assert(keys.drop_last().push(keys.last()) =~= keys);
    }
    let mut depth: usize = n - 1;
    let ghost cut = left@;
    let ghost whole = swept(left@, keys.drop_last());
    proof {
        assert(keys.take(depth as int) =~= keys.drop_last());
    }
    while depth > 0
        invariant
            depth < n == path.len(),
            keys == text::views(path@),
            whole == swept(left@, keys.take(depth as int)),
            is_held(toml_tree(content@)->Ok_0, keys.drop_last(), keys.last()),
            whole is Err ==> purged(content@, keys) is Err && purged(content@, keys)->Err_0
                == whole->Err_0,
            only_empty_go(left@, keys.take(depth as int)) ==> only_empty_go(cut, keys.drop_last()),
        ensures
            whole is Ok && whole->Ok_0 == left@,
            only_empty_go(cut, keys.drop_last()),
        decreases depth,
    {
        let ghost here = keys.take(depth as int);
        proof {
            assert(here.drop_last() =~= keys.take(depth - 1));
            assert(keys.subrange(0, depth - 1) =~= keys.take(depth - 1));
            assert(here.last() == path@[depth - 1]@);
            assert(here.drop_last().push(here.last()) =~= here);
        }
        let mut again = match parse_document(left.as_str()) {
            Ok(d) => d,
            Err(e) => {
                let mut t = String::from_str("re-parse failed: ");
                t.append(e.as_str());
                return Err(t);
            },
        };
        let node = document_node(&again);
        if !node.is_empty_section(path, depth) {
            break;
        }
        let removed = remove_at(
            root_mut(&mut again),
            path,
            0,
            depth - 1,
            path[depth - 1].as_str(),
        );
        if !removed {
            break;
        }
        left = document_text(&again);
        depth -= 1;
    }
    Ok(Some(left))
}

// ---- purging twice ----

/// What is read from the text of the document holds nothing that the document does
/// not hold.
pub open spec fn reads_nothing_new(d: toml_edit::DocumentMut) -> bool {
    &&& parsed(rendered(d)) is Ok
    &&& forall|p: Seq<Seq<char>>| #[trigger]
        document::descend(table_tree(root(parsed(rendered(d))->Ok_0)), p) is Some
            ==> document::descend(table_tree(root(d)), p) is Some
}

/// Each document that the sweep writes is read back without anything new.
pub open spec fn sweep_reads_nothing_new(content: Seq<char>, path: Seq<Seq<char>>) -> bool
    decreases path.len(),
{
    path.len() > 0 && parsed(content) is Ok ==> {
        let d = parsed(content)->Ok_0;
        document::section_at(table_tree(root(d)), path) == Some(Seq::<(Seq<char>, Tree)>::empty())
            ==> match removed_at(root(d), path.drop_last(), path.last()) {
            Some(t) => {
                &&& reads_nothing_new(with_root(d, t))
                &&& sweep_reads_nothing_new(rendered(with_root(d, t)), path.drop_last())
            },
            None => true,
        }
    }
}

/// Where a path leads nowhere, no longer path leads anywhere.
proof fn lemma_descend_below(t: Tree, path: Seq<Seq<char>>, below: Seq<Seq<char>>)
    requires
        document::descend(t, path) is None,
        path.is_prefix_of(below),
    ensures
        document::descend(t, below) is None,
    decreases path.len(),
{
    if path.len() > 0 {
        assert(below[0] == path[0]);
        match document::child(t, path[0]) {
            Some(c) => {
                assert(path.skip(1) =~= below.skip(1).take(path.len() - 1));
                lemma_descend_below(c, path.skip(1), below.skip(1));
            },
            None => {},
        }
    }
}

proof fn lemma_held_is_there(t: Tree, path: Seq<Seq<char>>, key: Seq<char>)
    requires
        is_held(t, path, key),
    ensures
        document::descend(t, path.push(key)) is Some,
    decreases path.len(),
{
    let full = path.push(key);
    reveal_with_fuel(document::descend, 2);
    if path.len() == 0 {
        assert(full.skip(1).len() == 0);
    } else {
        assert(full[0] == path[0]);
        assert(full.skip(1) =~= path.skip(1).push(key));
        let c = document::lookup(t->Section_0, path[0])->0;
        lemma_held_is_there(c, path.skip(1), key);
    }
}

/// The sweep brings nothing back.
proof fn lemma_sweep_brings_nothing_back(
    content: Seq<char>,
    sweep: Seq<Seq<char>>,
    path: Seq<Seq<char>>,
)
    requires
        sweep.is_prefix_of(path),
        parsed(content) is Ok,
        document::descend(toml_tree(content)->Ok_0, path) is None,
        swept(content, sweep) is Ok,
        only_empty_go(content, sweep),
        sweep_reads_nothing_new(content, sweep),
    ensures
        parsed(swept(content, sweep)->Ok_0) is Ok,
        document::descend(toml_tree(swept(content, sweep)->Ok_0)->Ok_0, path) is None,
    decreases sweep.len(),
{
    if sweep.len() > 0 {
        let d = parsed(content)->Ok_0;
        let up = sweep.drop_last();
        if document::section_at(table_tree(root(d)), sweep) == Some(
            Seq::<(Seq<char>, Tree)>::empty(),
        ) {
            match removed_at(root(d), up, sweep.last()) {
                Some(t) => {
                    let cut = with_root(d, t);
                    lemma_descend_below(table_tree(root(cut)), sweep, path);
                    assert(up =~= path.take(up.len() as int));
                    lemma_sweep_brings_nothing_back(rendered(cut), up, path);
                },
                None => {},
            }
        }
    }
}

/// Purging again with the same path finds nothing: what the first purge left is TOML
/// that does not hold it. That `toml_edit` reads from what it writes nothing that was
/// not there is a premise; the other premises are what `purge` ensures.
pub proof fn law_second_purge_finds_nothing(content: Seq<char>, path: Seq<Seq<char>>)
    requires
        path.len() > 0,
        purged(content, path) is Ok,
        purged(content, path)->Ok_0 is Some,
        only_that_goes(content, path),
        only_empty_go(cut_text(content, path), path.drop_last()),
        reads_nothing_new(cut_document(content, path)),
        sweep_reads_nothing_new(cut_text(content, path), path.drop_last()),
    ensures
        toml_tree(purged(content, path)->Ok_0->0) is Ok,
        !is_held(
            toml_tree(purged(content, path)->Ok_0->0)->Ok_0,
            path.drop_last(),
            path.last(),
        ),
{
    let left = purged(content, path)->Ok_0->0;
    let up = path.drop_last();
    let cut = cut_document(content, path);
    assert(up =~= path.take(up.len() as int));
    lemma_sweep_brings_nothing_back(rendered(cut), up, path);
    if is_held(toml_tree(left)->Ok_0, up, path.last()) {
        lemma_held_is_there(toml_tree(left)->Ok_0, up, path.last());
        assert(up.push(path.last()) =~= path);
    }
}

/// Sweeping takes out a section that is empty, and goes on with the one around it; a
/// section that holds anything ends it, and so does a path that is at its end.
pub proof fn law_empty_sections_go(content: Seq<char>, path: Seq<Seq<char>>)
    requires
        parsed(content) is Ok,
        path.len() > 0,
    ensures
        swept(content, Seq::<Seq<char>>::empty()) == Ok::<Seq<char>, Seq<char>>(content),
        document::section_at(toml_tree(content)->Ok_0, path) == Some(
            Seq::<(Seq<char>, Tree)>::empty(),
        ) && removed_at(root(parsed(content)->Ok_0), path.drop_last(), path.last()) is Some
            ==> swept(content, path) == swept(cut_text(content, path), path.drop_last()),
        document::section_at(toml_tree(content)->Ok_0, path) != Some(
            Seq::<(Seq<char>, Tree)>::empty(),
        ) ==> swept(content, path) == Ok::<Seq<char>, Seq<char>>(content),
{
}

/// A purge takes out what stands at the end of the path and then sweeps the sections that
/// lead there; where nothing stands there it changes nothing.
pub proof fn law_purge_takes_out_and_sweeps(content: Seq<char>, path: Seq<Seq<char>>)
    requires
        parsed(content) is Ok,
        path.len() > 0,
    ensures
        ({
            let there = removed_at(root(parsed(content)->Ok_0), path.drop_last(), path.last());
            &&& there is None ==> purged(content, path) == Ok::<Option<Seq<char>>, Seq<char>>(None)
            &&& there is Some ==> match swept(cut_text(content, path), path.drop_last()) {
                Ok(left) => purged(content, path) == Ok::<Option<Seq<char>>, Seq<char>>(
                    Some(left),
                ),
                Err(e) => purged(content, path) == Err::<Option<Seq<char>>, Seq<char>>(e),
            }
        }),
{
}

/// What stands directly in a table can be taken out of it, and what does not cannot; below
/// that, the path has to lead through sections.
pub proof fn law_what_can_be_taken_out(t: toml_edit::Table, path: Seq<Seq<char>>, key: Seq<char>)
    ensures
        removed_at(t, Seq::<Seq<char>>::empty(), key) is Some <==> document::child(
            table_tree(t),
            key,
        ) is Some,
        removed_at(t, path, key) is Some && path.len() > 0 ==> (document::child(
            table_tree(t),
            path[0],
        ) matches Some(c) && c is Section),
{
}

} // verus!
