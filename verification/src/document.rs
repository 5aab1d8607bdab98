//! Manifests as trees: what a TOML or JSON text holds, and how to find something
//! in it.

use crate::text;
use vstd::prelude::*;
use vstd::string::*;

verus! {

broadcast use {group_string_axioms, vstd::seq::group_seq_axioms};

// ---- trees ----

/// What a document holds at one place.
pub enum Tree {
    Null,
    Bool(bool),
    /// An integer, as it is written.
    Number(Seq<char>),
    /// A floating-point number: what messages call it, and how JSON writes it, if it
    /// is finite.
    Float(Seq<char>, Option<Seq<char>>),
    Date(Seq<char>),
    Text(Seq<char>),
    List(Seq<Tree>),
    /// A JSON object or a TOML inline table.
    Record(Seq<(Seq<char>, Tree)>),
    /// A TOML table that is written as a section or with dotted keys.
    Section(Seq<(Seq<char>, Tree)>),
    /// A TOML array of sections.
    Sections(Seq<Tree>),
}

/// A tree that programs can hold.
#[derive(Debug)]
pub enum Node {
    Null,
    Bool(bool),
    Number(String),
    Float(String, Option<String>),
    Date(String),
    Text(String),
    List(Vec<Node>),
    Record(Vec<(String, Node)>),
    Section(Vec<(String, Node)>),
    Sections(Vec<Node>),
}

/// The contents of an optional text.
pub open spec fn text_of(s: Option<String>) -> Option<Seq<char>> {
    match s {
        Some(t) => Some(t@),
        None => None,
    }
}

/// The tree that a node stands for.
pub open spec fn tree_of(n: Node) -> Tree
    decreases n,
{
    match n {
        Node::Null => Tree::Null,
        Node::Bool(b) => Tree::Bool(b),
        Node::Number(s) => Tree::Number(s@),
        Node::Float(s, j) => Tree::Float(s@, text_of(j)),
        Node::Date(s) => Tree::Date(s@),
        Node::Text(s) => Tree::Text(s@),
        Node::List(v) => Tree::List(
            Seq::new(
                v@.len(),
                |i: int|
                    if 0 <= i < v@.len() {
                        tree_of(v@[i])
                    } else {
                        Tree::Null
                    },
            ),
        ),
        Node::Record(v) => Tree::Record(
            Seq::new(
                v@.len(),
                |i: int|
                    if 0 <= i < v@.len() {
                        (v@[i].0@, tree_of(v@[i].1))
                    } else {
                        (seq![], Tree::Null)
                    },
            ),
        ),
        Node::Section(v) => Tree::Section(
            Seq::new(
                v@.len(),
                |i: int|
                    if 0 <= i < v@.len() {
                        (v@[i].0@, tree_of(v@[i].1))
                    } else {
                        (seq![], Tree::Null)
                    },
            ),
        ),
        Node::Sections(v) => Tree::Sections(
            Seq::new(
                v@.len(),
                |i: int|
                    if 0 <= i < v@.len() {
                        tree_of(v@[i])
                    } else {
                        Tree::Null
                    },
            ),
        ),
    }
}

/// The tree of an optional node.
pub open spec fn tree_at(n: Option<&Node>) -> Option<Tree> {
    match n {
        Some(n) => Some(tree_of(*n)),
        None => None,
    }
}

/// The trees of a list of nodes.
pub open spec fn trees(v: Seq<Node>) -> Seq<Tree> {
    Seq::new(v.len(), |i: int| tree_of(v[i]))
}

/// The entries of a list of named nodes.
pub open spec fn entries_of(v: Seq<(String, Node)>) -> Seq<(Seq<char>, Tree)> {
    Seq::new(v.len(), |i: int| (v[i].0@, tree_of(v[i].1)))
}

/// What a list of nodes stands for.
pub proof fn lemma_list_tree(v: Vec<Node>)
    ensures
        tree_of(Node::List(v)) == Tree::List(trees(v@)),
        tree_of(Node::Sections(v)) == Tree::Sections(trees(v@)),
{
    assert(tree_of(Node::List(v))->List_0 =~= trees(v@));
    assert(tree_of(Node::Sections(v))->Sections_0 =~= trees(v@));
}

/// What a node with entries stands for.
pub proof fn lemma_entries_tree(v: Vec<(String, Node)>)
    ensures
        tree_of(Node::Record(v)) == Tree::Record(entries_of(v@)),
        tree_of(Node::Section(v)) == Tree::Section(entries_of(v@)),
{
    assert(tree_of(Node::Record(v))->Record_0 =~= entries_of(v@));
    assert(tree_of(Node::Section(v))->Section_0 =~= entries_of(v@));
}

// ---- looking into a tree ----

/// The entry with that name.
pub open spec fn lookup(entries: Seq<(Seq<char>, Tree)>, key: Seq<char>) -> Option<Tree>
    decreases entries.len(),
{
    if entries.len() == 0 {
        None
    } else if entries[0].0 == key {
        Some(entries[0].1)
    } else {
        lookup(entries.skip(1), key)
    }
}

/// The entries of a tree that has some.
pub open spec fn fields(t: Tree) -> Option<Seq<(Seq<char>, Tree)>> {
    match t {
        Tree::Record(e) => Some(e),
        Tree::Section(e) => Some(e),
        _ => None,
    }
}

/// The tree under `key`.
pub open spec fn child(t: Tree, key: Seq<char>) -> Option<Tree> {
    match fields(t) {
        Some(e) => lookup(e, key),
        None => None,
    }
}

/// The tree at the end of a path of keys.
pub open spec fn descend(t: Tree, path: Seq<Seq<char>>) -> Option<Tree>
    decreases path.len(),
{
    if path.len() == 0 {
        Some(t)
    } else {
        match child(t, path[0]) {
            Some(c) => descend(c, path.skip(1)),
            None => None,
        }
    }
}

/// The entries of the section at the end of a path of sections.
pub open spec fn section_at(t: Tree, path: Seq<Seq<char>>) -> Option<Seq<(Seq<char>, Tree)>>
    decreases path.len(),
{
    match t {
        Tree::Section(e) => if path.len() == 0 {
            Some(e)
        } else {
            match lookup(e, path[0]) {
                Some(c) => section_at(c, path.skip(1)),
                None => None,
            }
        },
        _ => None,
    }
}

impl Node {
    /// Does a path of sections end in one without entries?
    pub fn is_empty_section(&self, path: &Vec<String>, depth: usize) -> (r: bool)
        requires
            depth <= path.len(),
        ensures
            r == (section_at(tree_of(*self), text::views(path@).take(depth as int)) == Some(
                Seq::<(Seq<char>, Tree)>::empty(),
            )),
    {
        let mut here: &Node = self;
        let mut i: usize = 0;
        let ghost keys = text::views(path@).take(depth as int);
        proof {
            assert(keys.skip(0) =~= keys);
        }
        while i < depth
            invariant
                i <= depth <= path.len(),
                keys == text::views(path@).take(depth as int),
                section_at(tree_of(*self), keys) == section_at(
                    tree_of(*here),
                    keys.skip(i as int),
                ),
            decreases depth - i,
        {
            proof {
                assert(keys.skip(i as int)[0] == keys[i as int]);
                assert(keys.skip(i as int).skip(1) =~= keys.skip(i + 1));
            }
            match here {
                Node::Section(_) => {},
                _ => {
                    return false;
                },
            }
            match here.get(path[i].as_str()) {
                Some(n) => {
                    here = n;
                },
                None => {
                    return false;
                },
            }
            i += 1;
        }
        match here {
            Node::Section(v) => {
                proof {
                    lemma_entries_tree(*v);
                    assert(keys.skip(i as int).len() == 0);
                    if v@.len() == 0 {
                        assert(entries_of(v@) =~= Seq::<(Seq<char>, Tree)>::empty());
                    } else {
                        assert(entries_of(v@).len() > 0);
                    }
                }
                v.len() == 0
            },
            _ => false,
        }
    }

    /// The entries of a node that has some.
    pub fn entries(&self) -> (r: Option<&Vec<(String, Node)>>)
        ensures
            r is Some <==> fields(tree_of(*self)) is Some,
            r matches Some(v) ==> fields(tree_of(*self)) == Some(entries_of(v@)),
            r matches Some(v) ==> (*self == Node::Record(*v) || *self == Node::Section(*v)),
    {
        match self {
            Node::Record(v) => {
                proof {
                    lemma_entries_tree(*v);
                }
                Some(v)
            },
            Node::Section(v) => {
                proof {
                    lemma_entries_tree(*v);
                }
                Some(v)
            },
            _ => None,
        }
    }

    /// The node under `key`.
    pub fn get(&self, key: &str) -> (r: Option<&Node>)
        ensures
            r is Some <==> child(tree_of(*self), key@) is Some,
            r matches Some(n) ==> child(tree_of(*self), key@) == Some(tree_of(*n)),
    {
        let v = match self.entries() {
            Some(v) => v,
            None => return None,
        };
        let mut i: usize = 0;
        let ghost all = entries_of(v@);
        proof {
            assert(all.skip(0) =~= all);
        }
        while i < v.len()
            invariant
                i <= v.len(),
                all == entries_of(v@),
                fields(tree_of(*self)) == Some(all),
                lookup(all, key@) == lookup(all.skip(i as int), key@),
            decreases v.len() - i,
        {
            proof {
                assert(all.skip(i as int)[0] == all[i as int]);
                assert(all.skip(i as int).skip(1) =~= all.skip(i + 1));
            }
            if text::same(v[i].0.as_str(), key) {
                return Some(&v[i].1);
            }
            i += 1;
        }
        None
    }

    /// The node at the end of a path of keys.
    pub fn at(&self, path: &Vec<String>) -> (r: Option<&Node>)
        ensures
            r is Some <==> descend(tree_of(*self), text::views(path@)) is Some,
            r matches Some(n) ==> descend(tree_of(*self), text::views(path@)) == Some(tree_of(*n)),
    {
        let mut here: &Node = self;
        let mut i: usize = 0;
        let ghost keys = text::views(path@);
        proof {
            assert(keys.skip(0) =~= keys);
        }
        while i < path.len()
            invariant
                i <= path.len(),
                keys == text::views(path@),
                descend(tree_of(*self), keys) == descend(tree_of(*here), keys.skip(i as int)),
            decreases path.len() - i,
        {
            proof {
                assert(keys.skip(i as int)[0] == keys[i as int]);
                assert(keys.skip(i as int).skip(1) =~= keys.skip(i + 1));
            }
            match here.get(path[i].as_str()) {
                Some(n) => {
                    here = n;
                },
                None => {
                    return None;
                },
            }
            i += 1;
        }
        Some(here)
    }
}

} // verus!
