//! Hooks, the manifests that hold them, and how a manifest is read.

use crate::document;
use crate::document::{Node, Tree};
use crate::json;
use crate::path;
use crate::pattern;
use crate::text;
use crate::toml;
use vstd::prelude::*;
use vstd::string::*;

verus! {

broadcast use {group_string_axioms, vstd::seq::group_seq_axioms};

// ---- hook types ----

/// The git stage a hook belongs to.
#[derive(Debug, Clone, Copy, PartialEq, Eq, Hash, Structural)]
pub enum HookType {
    PreCommit,
    PrePush,
    CommitMsg,
    PrepareCommitMsg,
}

/// The name git gives to the stage.
pub open spec fn stage_name(t: HookType) -> Seq<char> {
    match t {
        HookType::PreCommit => "pre-commit"@,
        HookType::PrePush => "pre-push"@,
        HookType::CommitMsg => "commit-msg"@,
        HookType::PrepareCommitMsg => "prepare-commit-msg"@,
    }
}

/// The stage with that name.
pub open spec fn stage_named(s: Seq<char>) -> Option<HookType> {
    if s == "pre-commit"@ {
        Some(HookType::PreCommit)
    } else if s == "pre-push"@ {
        Some(HookType::PrePush)
    } else if s == "commit-msg"@ {
        Some(HookType::CommitMsg)
    } else if s == "prepare-commit-msg"@ {
        Some(HookType::PrepareCommitMsg)
    } else {
        None
    }
}

impl HookType {
    /// The stage with the name `s`.
    pub fn from_str(s: &str) -> (r: Option<HookType>)
        ensures
            r == stage_named(s@),
    {
        if text::same(s, "pre-commit") {
            Some(HookType::PreCommit)
        } else if text::same(s, "pre-push") {
            Some(HookType::PrePush)
        } else if text::same(s, "commit-msg") {
            Some(HookType::CommitMsg)
        } else if text::same(s, "prepare-commit-msg") {
            Some(HookType::PrepareCommitMsg)
        } else {
            None
        }
    }

    /// The name git gives to the stage.
    pub fn as_str(&self) -> (r: &'static str)
        ensures
            r@ == stage_name(*self),
    {
        match self {
            HookType::PreCommit => "pre-commit",
            HookType::PrePush => "pre-push",
            HookType::CommitMsg => "commit-msg",
            HookType::PrepareCommitMsg => "prepare-commit-msg",
        }
    }
}

/// All stages, in the order in which they are shown.
pub open spec fn every_type() -> Seq<HookType> {
    seq![
        HookType::PreCommit,
        HookType::PrePush,
        HookType::CommitMsg,
        HookType::PrepareCommitMsg,
    ]
}

/// All stages, in the order in which they are shown.
pub fn all_hook_types() -> (r: Vec<HookType>)
    ensures
        r@ == every_type(),
{
    let r: Vec<HookType> = vec![
        HookType::PreCommit,
        HookType::PrePush,
        HookType::CommitMsg,
        HookType::PrepareCommitMsg,
    ];
    r
}

/// Names and stages correspond one to one.
pub proof fn law_stage_names(t: HookType, s: Seq<char>)
    ensures
        stage_named(stage_name(t)) == Some(t),
        stage_named(s) == Some(t) <==> s == stage_name(t),
{
    reveal_strlit("pre-commit");
    reveal_strlit("pre-push");
    reveal_strlit("commit-msg");
    reveal_strlit("prepare-commit-msg");
    assert("pre-commit"@.len() == 10 && "pre-commit"@[0] == 'p');
    assert("commit-msg"@.len() == 10 && "commit-msg"@[0] == 'c');
    assert("pre-push"@.len() == 8);
    assert("prepare-commit-msg"@.len() == 18);
}

// ---- hooks ----

/// A hook as its manifest describes it.
#[derive(Debug)]
pub struct HookConfig {
    /// The shell command.
    pub cmd: String,
    /// Patterns that filter the staged files.
    pub glob: Option<Vec<String>>,
    /// Patterns of the files the hook produces.
    pub outputs: Option<Vec<String>>,
    /// The name of the git stage.
    pub hook_type: Option<String>,
}

/// A hook ready to run.
#[derive(Debug)]
pub struct Hook {
    pub name: String,
    pub cmd: String,
    /// The patterns of the glob, as written.
    pub glob: Option<Vec<String>>,
    /// The compiled glob.
    pub glob_matcher: Option<pattern::Matcher>,
    /// The compiled patterns of the files the hook produces.
    pub outputs: Option<pattern::Matcher>,
    pub hook_type: HookType,
}

/// A manifest and its hooks.
#[derive(Debug)]
pub struct ManifestConfig {
    /// The path of the manifest, relative to the repository.
    pub path: String,
    pub hooks: Vec<Hook>,
}

/// What came of one hook of a manifest that is read leniently.
#[derive(Debug)]
pub enum HookResult {
    Parsed(Hook),
    Failed { name: String, error: String },
}

/// A manifest read leniently: an error of the whole file, or a result for
/// each hook.
#[derive(Debug)]
pub enum LenientManifest {
    FileError(String),
    Hooks(Vec<HookResult>),
}

// ---- finding manifests ----

/// The files that may hold hooks.
pub open spec fn is_manifest_name(name: Seq<char>) -> bool {
    name == "pyproject.toml"@ || name == "package.json"@ || name == "Cargo.toml"@ || name
        == ".nizm.toml"@
}

/// A path that leads to a manifest.
pub open spec fn is_manifest_path(path: Seq<char>) -> bool {
    is_manifest_name(text::pieces(path, '/').last())
}

/// Does the path lead to a manifest?
fn leads_to_manifest(path: &str) -> (r: bool)
    ensures
        r == is_manifest_path(path@),
{
    let parts = text::split_at(path, '/');
    let n = parts.len() - 1;
    proof {
        assert(text::pieces(path@, '/')[n as int] == parts@[n as int]@);
    }
    let name = parts[n].as_str();
    text::same(name, "pyproject.toml") || text::same(name, "package.json") || text::same(
        name,
        "Cargo.toml",
    ) || text::same(name, ".nizm.toml")
}

/// The manifests among the files that git lists, in path order and each once.
pub fn discover_manifests(files: &Vec<String>) -> (r: Vec<String>)
    ensures
        path::in_path_order(text::views(r@)),
        forall|p: Seq<char>| #[trigger]
            text::views(r@).contains(p) <==> text::views(files@).contains(p) && is_manifest_path(p),
{
    let ghost all = text::views(files@);
    let mut found: Vec<String> = Vec::new();
    let mut i: usize = 0;
    while i < files.len()
        invariant
            i <= files.len(),
            all == text::views(files@),
            path::in_path_order(text::views(found@)),
            forall|p: Seq<char>| #[trigger]
                text::views(found@).contains(p) <==> all.take(i as int).contains(p)
                    && is_manifest_path(p),
        decreases files.len() - i,
    {
        let path = files[i].as_str();
        proof {
            text::lemma_take_contains(all, i as int);
            assert(all[i as int] == path@);
        }
        if leads_to_manifest(path) {
            path::insert_path(&mut found, path);
        }
        i += 1;
    }
    proof {
        assert(all.take(i as int) =~= all);
    }
    found
}

/// A list of manifests names none twice.
pub proof fn law_discovered_once(paths: Seq<Seq<char>>, i: int, j: int)
    requires
        path::in_path_order(paths),
        0 <= i < j < paths.len(),
    ensures
        paths[i] != paths[j],
{
    path::lemma_path_before_irreflexive(paths[i]);
}

// ---- kinds of manifests ----

/// What kind of file a manifest is.
#[derive(Debug, Clone, Copy, PartialEq, Eq, Structural)]
pub enum ManifestKind {
    Pyproject,
    Cargo,
    PackageJson,
    NizmToml,
}

/// The kind of the manifest with that file name.
pub open spec fn kind_named(name: Seq<char>) -> Option<ManifestKind> {
    if name == "pyproject.toml"@ {
        Some(ManifestKind::Pyproject)
    } else if name == "Cargo.toml"@ {
        Some(ManifestKind::Cargo)
    } else if name == "package.json"@ {
        Some(ManifestKind::PackageJson)
    } else if name == ".nizm.toml"@ {
        Some(ManifestKind::NizmToml)
    } else {
        None
    }
}

/// The kind of the manifest with that file name.
pub fn manifest_kind(name: &str) -> (r: Option<ManifestKind>)
    ensures
        r == kind_named(name@),
{
    if text::same(name, "pyproject.toml") {
        Some(ManifestKind::Pyproject)
    } else if text::same(name, "Cargo.toml") {
        Some(ManifestKind::Cargo)
    } else if text::same(name, "package.json") {
        Some(ManifestKind::PackageJson)
    } else if text::same(name, ".nizm.toml") {
        Some(ManifestKind::NizmToml)
    } else {
        None
    }
}

/// Where a manifest holds nizm's own table.
pub open spec fn own_path(kind: ManifestKind) -> Seq<Seq<char>> {
    match kind {
        ManifestKind::Pyproject => seq!["tool"@, "nizm"@],
        ManifestKind::Cargo => seq!["package"@, "metadata"@, "nizm"@],
        ManifestKind::PackageJson => seq!["nizm"@],
        ManifestKind::NizmToml => seq![],
    }
}

/// Where a manifest holds its hooks.
pub open spec fn hooks_path(kind: ManifestKind) -> Seq<Seq<char>> {
    own_path(kind).push("hooks"@)
}

/// Where a manifest holds nizm's own table.
pub fn own_table_path(kind: ManifestKind) -> (r: Vec<String>)
    ensures
        text::views(r@) == own_path(kind),
{
    let mut r: Vec<String> = Vec::new();
    match kind {
        ManifestKind::Pyproject => {
            r.push(String::from_str("tool"));
            r.push(String::from_str("nizm"));
        },
        ManifestKind::Cargo => {
            r.push(String::from_str("package"));
            r.push(String::from_str("metadata"));
            r.push(String::from_str("nizm"));
        },
        ManifestKind::PackageJson => {
            r.push(String::from_str("nizm"));
        },
        ManifestKind::NizmToml => {},
    }
    proof {
        assert(text::views(r@) =~= own_path(kind));
    }
    r
}

/// Where a manifest holds its hooks.
pub fn hooks_table_path(kind: ManifestKind) -> (r: Vec<String>)
    ensures
        text::views(r@) == hooks_path(kind),
{
    let mut r = own_table_path(kind);
    let ghost own = text::views(r@);
    r.push(String::from_str("hooks"));
    proof {
        assert(text::views(r@) =~= own.push("hooks"@));
    }
    r
}

// ---- decoding one hook ----

/// What a manifest says of one hook.
pub struct HookSpec {
    pub cmd: Seq<char>,
    pub glob: Option<Seq<Seq<char>>>,
    pub outputs: Option<Seq<Seq<char>>>,
    pub stage: Option<Seq<char>>,
}

/// The contents of an optional list of patterns.
pub open spec fn patterns_of(v: Option<Vec<String>>) -> Option<Seq<Seq<char>>> {
    match v {
        Some(l) => Some(text::views(l@)),
        None => None,
    }
}

impl View for HookConfig {
    type V = HookSpec;

    open spec fn view(&self) -> HookSpec {
        HookSpec {
            cmd: self.cmd@,
            glob: patterns_of(self.glob),
            outputs: patterns_of(self.outputs),
            stage: document::text_of(self.hook_type),
        }
    }
}

/// What `Display` of `serde::de::Unexpected::Str` writes for a text.
pub uninterp spec fn text_said(s: Seq<char>) -> Seq<char>;

/// `Display` of `serde::de::Unexpected::Str`: what messages call a text, which
/// depends on the text alone.
#[verifier::external_body]
fn say_text(s: &str) -> (r: String)
    ensures
        r@ == text_said(s@),
{
    serde::de::Unexpected::Str(s).to_string()
}

/// What messages call a tree. With `json` the tree is read as JSON, which has no
/// number that is not finite.
pub open spec fn described(t: Tree, json: bool) -> Seq<char> {
    match t {
        Tree::Null => "null"@,
        Tree::Bool(b) => if b {
            "boolean `true`"@
        } else {
            "boolean `false`"@
        },
        Tree::Number(n) => "integer `"@ + n + "`"@,
        Tree::Float(said, written) => if !json {
            said
        } else {
            match written {
                Some(n) => "floating point `"@ + n + "`"@,
                None => "null"@,
            }
        },
        Tree::Text(s) => text_said(s),
        Tree::List(_) => "sequence"@,
        Tree::Sections(_) => "sequence"@,
        Tree::Date(_) => "map"@,
        Tree::Record(_) => "map"@,
        Tree::Section(_) => "map"@,
    }
}

/// The message for a tree where something else should be.
pub open spec fn mismatch(t: Tree, wanted: Seq<char>, json: bool) -> Seq<char> {
    "invalid type: "@ + described(t, json) + ", expected "@ + wanted
}

/// The message for a list of the wrong length.
pub open spec fn wrong_length(n: nat, wanted: Seq<char>) -> Seq<char> {
    "invalid length "@ + text::decimal(n) + ", expected "@ + wanted
}

/// What messages call a node.
fn describe(n: &Node, json: bool) -> (r: String)
    ensures
        r@ == described(document::tree_of(*n), json),
{
    match n {
        Node::Null => String::from_str("null"),
        Node::Bool(b) => if *b {
            String::from_str("boolean `true`")
        } else {
            String::from_str("boolean `false`")
        },
        Node::Number(s) => {
            let mut r = String::from_str("integer `");
            r.append(s.as_str());
            r.append("`");
            r
        },
        Node::Float(said, written) => if !json {
            said.clone()
        } else {
            match written {
                Some(s) => {
                    let mut r = String::from_str("floating point `");
                    r.append(s.as_str());
                    r.append("`");
                    r
                },
                None => String::from_str("null"),
            }
        },
        Node::Text(s) => say_text(s.as_str()),
        Node::List(_) => String::from_str("sequence"),
        Node::Sections(_) => String::from_str("sequence"),
        Node::Date(_) => String::from_str("map"),
        Node::Record(_) => String::from_str("map"),
        Node::Section(_) => String::from_str("map"),
    }
}

/// The message for a node where something else should be.
fn mismatch_message(n: &Node, wanted: &str, json: bool) -> (r: String)
    ensures
        r@ == mismatch(document::tree_of(*n), wanted@, json),
{
    let mut r = String::from_str("invalid type: ");
    r.append(describe(n, json).as_str());
    r.append(", expected ");
    r.append(wanted);
    r
}

/// The message for a list of the wrong length.
fn length_message(n: usize, wanted: &str) -> (r: String)
    ensures
        r@ == wrong_length(n as nat, wanted@),
{
    let mut r = String::from_str("invalid length ");
    r.append(text::decimal_text(n as u128).as_str());
    r.append(", expected ");
    r.append(wanted);
    r
}

/// A tree that counts as a field that is not there.
pub open spec fn is_nothing(t: Tree, json: bool) -> bool {
    t is Null || (json && t is Float && t->Float_1 is None)
}

/// A text, or what is wrong with it.
pub open spec fn text_in(t: Tree, json: bool) -> Result<Seq<char>, Seq<char>> {
    match t {
        Tree::Text(s) => Ok(s),
        _ => Err(mismatch(t, "a string"@, json)),
    }
}

/// The texts of a list of trees, up to the first that is none.
pub open spec fn texts_in(l: Seq<Tree>, json: bool) -> Result<Seq<Seq<char>>, Seq<char>>
    decreases l.len(),
{
    if l.len() == 0 {
        Ok(seq![])
    } else {
        match texts_in(l.drop_last(), json) {
            Err(e) => Err(e),
            Ok(front) => match text_in(l.last(), json) {
                Ok(s) => Ok(front.push(s)),
                Err(e) => Err(e),
            },
        }
    }
}

/// The trees of a list.
pub open spec fn items_of(t: Tree) -> Option<Seq<Tree>> {
    match t {
        Tree::List(l) => Some(l),
        Tree::Sections(l) => Some(l),
        _ => None,
    }
}

/// A field that holds one pattern or a list of them.
pub open spec fn patterns_in(t: Tree, json: bool) -> Result<Option<Seq<Seq<char>>>, Seq<char>> {
    if is_nothing(t, json) {
        Ok(None)
    } else {
        match items_of(t) {
            Some(l) => match texts_in(l, json) {
                Ok(v) => Ok(Some(v)),
                Err(e) => Err(e),
            },
            None => match text_in(t, json) {
                Ok(s) => Ok(Some(seq![s])),
                Err(e) => Err(e),
            },
        }
    }
}

/// A field that may hold a text.
pub open spec fn stage_in(t: Tree, json: bool) -> Result<Option<Seq<char>>, Seq<char>> {
    if is_nothing(t, json) {
        Ok(None)
    } else {
        match text_in(t, json) {
            Ok(s) => Ok(Some(s)),
            Err(e) => Err(e),
        }
    }
}

/// What entries say of a hook so far.
pub struct Draft {
    pub cmd: Option<Seq<char>>,
    pub glob: Option<Seq<Seq<char>>>,
    pub outputs: Option<Seq<Seq<char>>>,
    pub stage: Option<Seq<char>>,
}

/// What one entry adds; an entry that is no field of a hook adds nothing.
pub open spec fn with_field(d: Draft, entry: (Seq<char>, Tree), json: bool) -> Result<
    Draft,
    Seq<char>,
> {
    if entry.0 == "cmd"@ {
        match text_in(entry.1, json) {
            Ok(s) => Ok(Draft { cmd: Some(s), ..d }),
            Err(e) => Err(e),
        }
    } else if entry.0 == "glob"@ {
        match patterns_in(entry.1, json) {
            Ok(p) => Ok(Draft { glob: p, ..d }),
            Err(e) => Err(e),
        }
    } else if entry.0 == "outputs"@ {
        match patterns_in(entry.1, json) {
            Ok(p) => Ok(Draft { outputs: p, ..d }),
            Err(e) => Err(e),
        }
    } else if entry.0 == "type"@ {
        match stage_in(entry.1, json) {
            Ok(s) => Ok(Draft { stage: s, ..d }),
            Err(e) => Err(e),
        }
    } else {
        Ok(d)
    }
}

/// What entries say of a hook, up to the first that is not in order.
pub open spec fn drafted(entries: Seq<(Seq<char>, Tree)>, json: bool) -> Result<Draft, Seq<char>>
    decreases entries.len(),
{
    if entries.len() == 0 {
        Ok(Draft { cmd: None, glob: None, outputs: None, stage: None })
    } else {
        match drafted(entries.drop_last(), json) {
            Err(e) => Err(e),
            Ok(d) => with_field(d, entries.last(), json),
        }
    }
}

/// What a table says of a hook, or what is wrong with it.
pub open spec fn decoded_table(entries: Seq<(Seq<char>, Tree)>, json: bool) -> Result<
    HookSpec,
    Seq<char>,
> {
    match drafted(entries, json) {
        Err(e) => Err(e),
        Ok(d) => match d.cmd {
            Some(cmd) => Ok(
                HookSpec { cmd, glob: d.glob, outputs: d.outputs, stage: d.stage },
            ),
            None => Err("missing field `cmd`"@),
        },
    }
}

/// What a list says of a hook, or what is wrong with it: its command, its patterns
/// and its stage, in this order. What follows them is an error in JSON, and counts
/// for nothing in TOML.
pub open spec fn decoded_list(l: Seq<Tree>, json: bool) -> Result<HookSpec, Seq<char>> {
    if l.len() == 0 {
        Err(wrong_length(0, "struct HookConfig with 3 elements"@))
    } else {
        match text_in(l[0], json) {
            Err(e) => Err(e),
            Ok(cmd) => if l.len() == 1 {
                Err(wrong_length(1, "struct HookConfig with 3 elements"@))
            } else {
                match patterns_in(l[1], json) {
                    Err(e) => Err(e),
                    Ok(glob) => if l.len() == 2 {
                        Err(wrong_length(2, "struct HookConfig with 3 elements"@))
                    } else {
                        match stage_in(l[2], json) {
                            Err(e) => Err(e),
                            Ok(stage) => if json && l.len() > 3 {
                                Err(wrong_length(l.len(), "fewer elements in array"@))
                            } else {
                                Ok(HookSpec { cmd, glob, outputs: None, stage })
                            },
                        }
                    },
                }
            },
        }
    }
}

/// What a tree says of a hook, or what is wrong with it. A date is read as a table
/// that holds no field of a hook.
pub open spec fn decoded(t: Tree, json: bool) -> Result<HookSpec, Seq<char>> {
    match t {
        Tree::Record(e) => decoded_table(e, json),
        Tree::Section(e) => decoded_table(e, json),
        Tree::Date(_) => Err("missing field `cmd`"@),
        Tree::List(l) => decoded_list(l, json),
        Tree::Sections(l) => decoded_list(l, json),
        _ => Err(mismatch(t, "struct HookConfig"@, json)),
    }
}

/// Does the node count as a field that is not there?
fn holds_nothing(n: &Node, json: bool) -> (r: bool)
    ensures
        r == is_nothing(document::tree_of(*n), json),
{
    match n {
        Node::Null => true,
        Node::Float(_, written) => json && written.is_none(),
        _ => false,
    }
}

/// Reads a text.
fn read_text(n: &Node, json: bool) -> (r: Result<String, String>)
    ensures
        r is Ok <==> text_in(document::tree_of(*n), json) is Ok,
        r matches Ok(s) ==> s@ == text_in(document::tree_of(*n), json)->Ok_0,
        r matches Err(e) ==> e@ == text_in(document::tree_of(*n), json)->Err_0,
{
    match n {
        Node::Text(s) => Ok(s.clone()),
        _ => Err(mismatch_message(n, "a string", json)),
    }
}

/// Reads a list of texts.
fn read_texts(l: &Vec<Node>, json: bool) -> (r: Result<Vec<String>, String>)
    ensures
        r is Ok <==> texts_in(document::trees(l@), json) is Ok,
        r matches Ok(v) ==> text::views(v@) == texts_in(document::trees(l@), json)->Ok_0,
        r matches Err(e) ==> e@ == texts_in(document::trees(l@), json)->Err_0,
{
    let ghost all = document::trees(l@);
    let mut v: Vec<String> = Vec::new();
    let mut i: usize = 0;
    proof {
        assert(text::views(v@) =~= seq![]);
        assert(all.take(0).len() == 0);
    }
    while i < l.len()
        invariant
            i <= l.len(),
            all == document::trees(l@),
            texts_in(all.take(i as int), json) is Ok,
            text::views(v@) == texts_in(all.take(i as int), json)->Ok_0,
        decreases l.len() - i,
    {
        let ghost before = text::views(v@);
        proof {
            assert(all.take(i + 1).drop_last() =~= all.take(i as int));
            assert(all.take(i + 1).last() == document::tree_of(l@[i as int]));
        }
        match read_text(&l[i], json) {
            Ok(s) => {
                let ghost added = s@;
                v.push(s);
                proof {
                    assert(text::views(v@) =~= before.push(added));
                }
            },
            Err(e) => {
                proof {
                    lemma_texts_stop(all, i + 1, json);
                }
                return Err(e);
            },
        }
        i += 1;
    }
    proof {
        assert(all.take(i as int) =~= all);
    }
    Ok(v)
}

/// What is wrong with the front of a list is wrong with the list.
proof fn lemma_texts_stop(l: Seq<Tree>, n: int, json: bool)
    requires
        0 <= n <= l.len(),
        texts_in(l.take(n), json) is Err,
    ensures
        texts_in(l, json) == texts_in(l.take(n), json),
    decreases l.len() - n,
{
    if n < l.len() {
        assert(l.take(n + 1).drop_last() =~= l.take(n));
        lemma_texts_stop(l, n + 1, json);
    } else {
        assert(l.take(n) =~= l);
    }
}

/// The nodes of a list.
fn items<'a>(n: &'a Node) -> (r: Option<&'a Vec<Node>>)
    ensures
        r is Some <==> items_of(document::tree_of(*n)) is Some,
        r matches Some(l) ==> items_of(document::tree_of(*n)) == Some(document::trees(l@)),
{
    match n {
        Node::List(l) => {
            proof {
                document::lemma_list_tree(*l);
            }
            Some(l)
        },
        Node::Sections(l) => {
            proof {
                document::lemma_list_tree(*l);
            }
            Some(l)
        },
        _ => None,
    }
}

/// Reads a field that holds one pattern or a list of them.
fn read_patterns(n: &Node, json: bool) -> (r: Result<Option<Vec<String>>, String>)
    ensures
        r is Ok <==> patterns_in(document::tree_of(*n), json) is Ok,
        r matches Ok(v) ==> patterns_of(v) == patterns_in(document::tree_of(*n), json)->Ok_0,
        r matches Err(e) ==> e@ == patterns_in(document::tree_of(*n), json)->Err_0,
{
    if holds_nothing(n, json) {
        return Ok(None);
    }
    match items(n) {
        Some(l) => match read_texts(l, json) {
            Ok(v) => Ok(Some(v)),
            Err(e) => Err(e),
        },
        None => match read_text(n, json) {
            Ok(s) => {
                let ghost one = s@;
                let mut v: Vec<String> = Vec::new();
                v.push(s);
                proof {
                    assert(text::views(v@) =~= seq![one]);
                }
                Ok(Some(v))
            },
            Err(e) => Err(e),
        },
    }
}

/// Reads a field that may hold a text.
fn read_stage(n: &Node, json: bool) -> (r: Result<Option<String>, String>)
    ensures
        r is Ok <==> stage_in(document::tree_of(*n), json) is Ok,
        r matches Ok(s) ==> document::text_of(s) == stage_in(document::tree_of(*n), json)->Ok_0,
        r matches Err(e) ==> e@ == stage_in(document::tree_of(*n), json)->Err_0,
{
    if holds_nothing(n, json) {
        return Ok(None);
    }
    match read_text(n, json) {
        Ok(s) => Ok(Some(s)),
        Err(e) => Err(e),
    }
}

/// What is wrong with the front of a table is wrong with the table.
proof fn lemma_draft_stop(entries: Seq<(Seq<char>, Tree)>, n: int, json: bool)
    requires
        0 <= n <= entries.len(),
        drafted(entries.take(n), json) is Err,
    ensures
        drafted(entries, json) == drafted(entries.take(n), json),
    decreases entries.len() - n,
{
    if n < entries.len() {
        assert(entries.take(n + 1).drop_last() =~= entries.take(n));
        lemma_draft_stop(entries, n + 1, json);
    } else {
        assert(entries.take(n) =~= entries);
    }
}

/// Reads what a table says of a hook.
fn decode_table(entries: &Vec<(String, Node)>, json: bool) -> (r: Result<HookConfig, String>)
    ensures
        ({
            let found = decoded_table(document::entries_of(entries@), json);
            &&& r is Ok <==> found is Ok
            &&& r matches Ok(c) ==> c@ == found->Ok_0
            &&& r matches Err(e) ==> e@ == found->Err_0
        }),
{
    let ghost all = document::entries_of(entries@);
    let mut cmd: Option<String> = None;
    let mut glob: Option<Vec<String>> = None;
    let mut outputs: Option<Vec<String>> = None;
    let mut hook_type: Option<String> = None;
    let mut i: usize = 0;
    proof {
        assert(all.take(0).len() == 0);
    }
    while i < entries.len()
        invariant
            i <= entries.len(),
            all == document::entries_of(entries@),
            drafted(all.take(i as int), json) == Ok::<Draft, Seq<char>>(
                (Draft {
                    cmd: document::text_of(cmd),
                    glob: patterns_of(glob),
                    outputs: patterns_of(outputs),
                    stage: document::text_of(hook_type),
                }),
            ),
        decreases entries.len() - i,
    {
        let name = entries[i].0.as_str();
        let n = &entries[i].1;
        let ghost upto = all.take(i + 1);
        proof {
            assert(upto.drop_last() =~= all.take(i as int));
            assert(upto.last() == (name@, document::tree_of(*n)));
            if drafted(upto, json) is Err {
                lemma_draft_stop(all, i + 1, json);
            }
        }
        if text::same(name, "cmd") {
            match read_text(n, json) {
                Ok(s) => {
                    cmd = Some(s);
                },
                Err(e) => return Err(e),
            }
        } else if text::same(name, "glob") {
            match read_patterns(n, json) {
                Ok(p) => {
                    glob = p;
                },
                Err(e) => return Err(e),
            }
        } else if text::same(name, "outputs") {
            match read_patterns(n, json) {
                Ok(p) => {
                    outputs = p;
                },
                Err(e) => return Err(e),
            }
        } else if text::same(name, "type") {
            match read_stage(n, json) {
                Ok(s) => {
                    hook_type = s;
                },
                Err(e) => return Err(e),
            }
        }
        i += 1;
    }
    proof {
        assert(all.take(i as int) =~= all);
    }
    match cmd {
        Some(cmd) => Ok(HookConfig { cmd, glob, outputs, hook_type }),
        None => Err(String::from_str("missing field `cmd`")),
    }
}

/// Reads what a list says of a hook.
fn decode_list(l: &Vec<Node>, json: bool) -> (r: Result<HookConfig, String>)
    ensures
        ({
            let found = decoded_list(document::trees(l@), json);
            &&& r is Ok <==> found is Ok
            &&& r matches Ok(c) ==> c@ == found->Ok_0
            &&& r matches Err(e) ==> e@ == found->Err_0
        }),
{
    let ghost all = document::trees(l@);
    let n = l.len();
    if n == 0 {
        return Err(length_message(0, "struct HookConfig with 3 elements"));
    }
    proof {
        assert(all[0] == document::tree_of(l@[0]));
    }
    let cmd = match read_text(&l[0], json) {
        Ok(s) => s,
        Err(e) => return Err(e),
    };
    if n == 1 {
        return Err(length_message(1, "struct HookConfig with 3 elements"));
    }
    proof {
        assert(all[1] == document::tree_of(l@[1]));
    }
    let glob = match read_patterns(&l[1], json) {
        Ok(p) => p,
        Err(e) => return Err(e),
    };
    if n == 2 {
        return Err(length_message(2, "struct HookConfig with 3 elements"));
    }
    proof {
        assert(all[2] == document::tree_of(l@[2]));
    }
    let hook_type = match read_stage(&l[2], json) {
        Ok(s) => s,
        Err(e) => return Err(e),
    };
    if json && n > 3 {
        return Err(length_message(n, "fewer elements in array"));
    }
    Ok(HookConfig { cmd, glob, outputs: None, hook_type })
}

/// Reads what a node says of a hook: a table of its fields, or a list of its
/// command, its patterns and its stage. With `json` it is read as JSON.
pub fn decode_hook(n: &Node, json: bool) -> (r: Result<HookConfig, String>)
    ensures
        r is Ok <==> decoded(document::tree_of(*n), json) is Ok,
        r matches Ok(c) ==> c@ == decoded(document::tree_of(*n), json)->Ok_0,
        r matches Err(e) ==> e@ == decoded(document::tree_of(*n), json)->Err_0,
{
    match n.entries() {
        Some(e) => return decode_table(e, json),
        None => {},
    }
    match items(n) {
        Some(l) => return decode_list(l, json),
        None => {},
    }
    match n {
        Node::Date(_) => Err(String::from_str("missing field `cmd`")),
        _ => Err(mismatch_message(n, "struct HookConfig", json)),
    }
}

// ---- the hooks of a manifest, by name ----

/// `indexmap::IndexMap`, a map that keeps the order of insertion.
#[verifier::external_type_specification]
#[verifier::external_body]
#[verifier::reject_recursive_types(K)]
#[verifier::reject_recursive_types(V)]
#[verifier::reject_recursive_types(S)]
pub struct ExIndexMap<K, V, S>(indexmap::IndexMap<K, V, S>);

/// The entries of a map, in the order of insertion.
pub uninterp spec fn map_entries(m: indexmap::IndexMap<String, usize>) -> Seq<(Seq<char>, usize)>;

/// `indexmap::IndexMap::new` makes a map without entries.
#[verifier::external_body]
fn map_new() -> (r: indexmap::IndexMap<String, usize>)
    ensures
        map_entries(r) == Seq::<(Seq<char>, usize)>::empty(),
{
    indexmap::IndexMap::new()
}

/// `indexmap::IndexMap::get` finds the value of the entry with that key.
#[verifier::external_body]
fn map_get(m: &indexmap::IndexMap<String, usize>, key: &str) -> (r: Option<usize>)
    ensures
        r is None ==> forall|i: int|
            0 <= i < map_entries(*m).len() ==> (#[trigger] map_entries(*m)[i]).0 != key@,
        r matches Some(v) ==> map_entries(*m).contains((key@, v)),
{
    m.get(key).copied()
}

/// `indexmap::IndexMap::insert` puts an entry with a new key behind the others,
/// and gives an entry that is there a new value where it stands.
#[verifier::external_body]
fn map_insert(m: &mut indexmap::IndexMap<String, usize>, key: String, value: usize)
    ensures
        (forall|i: int|
            0 <= i < map_entries(*old(m)).len() ==> (#[trigger] map_entries(*old(m))[i]).0 != key@)
            ==> map_entries(*final(m)) == map_entries(*old(m)).push((key@, value)),
        forall|i: int|
            0 <= i < map_entries(*old(m)).len() && (#[trigger] map_entries(*old(m))[i]).0 == key@
                ==> map_entries(*final(m)) == map_entries(*old(m)).update(i, (key@, value)),
{
    m.insert(key, value);
}

/// `indexmap::IndexMap::into_keys` hands out the keys in their order.
#[verifier::external_body]
fn map_keys(m: indexmap::IndexMap<String, usize>) -> (r: Vec<String>)
    ensures
        text::views(r@) == Seq::new(
            map_entries(m).len(),
            |i: int| map_entries(m)[i].0,
        ),
{
    m.into_keys().collect()
}

/// The list with `hook` under `name`: in the place of the hook of that name, or
/// behind the others.
pub open spec fn named(
    list: Seq<(Seq<char>, HookSpec)>,
    name: Seq<char>,
    hook: HookSpec,
) -> Seq<(Seq<char>, HookSpec)>
    decreases list.len(),
{
    if list.len() == 0 {
        seq![(name, hook)]
    } else if list[0].0 == name {
        seq![(name, hook)] + list.skip(1)
    } else {
        seq![list[0]] + named(list.skip(1), name, hook)
    }
}

proof fn lemma_named(
    list: Seq<(Seq<char>, HookSpec)>,
    name: Seq<char>,
    hook: HookSpec,
    at: int,
)
    requires
        0 <= at <= list.len(),
        at < list.len() ==> list[at].0 == name,
        forall|i: int| 0 <= i < at ==> (#[trigger] list[i]).0 != name,
    ensures
        at < list.len() ==> named(list, name, hook) == list.update(at, (name, hook)),
        at == list.len() ==> named(list, name, hook) == list.push((name, hook)),
    decreases list.len(),
{
    if list.len() == 0 {
        assert(list.push((name, hook)) =~= seq![(name, hook)]);
    } else if at == 0 {
        assert(list.update(0, (name, hook)) =~= seq![(name, hook)] + list.skip(1));
    } else {
        let rest = list.skip(1);
        assert forall|i: int| 0 <= i < at - 1 implies (#[trigger] rest[i]).0 != name by {
            assert(rest[i] == list[i + 1]);
        }
        lemma_named(rest, name, hook, at - 1);
        if at < list.len() {
            assert(seq![list[0]] + rest.update(at - 1, (name, hook)) =~= list.update(
                at,
                (name, hook),
            ));
        } else {
            assert(seq![list[0]] + rest.push((name, hook)) =~= list.push((name, hook)));
        }
    }
}

/// Hooks by name, in the order in which their names came first.
struct HookTable {
    index: indexmap::IndexMap<String, usize>,
    configs: Vec<HookConfig>,
}

impl HookTable {
    /// Every name leads to the hook at its own place, and no name occurs twice.
    spec fn wf(&self) -> bool {
        let e = map_entries(self.index);
        &&& e.len() == self.configs@.len()
        &&& forall|i: int| 0 <= i < e.len() ==> (#[trigger] e[i]).1 == i
        &&& forall|i: int, j: int|
            0 <= i < j < e.len() ==> (#[trigger] e[i]).0 != (#[trigger] e[j]).0
    }

    /// The hooks with their names.
    spec fn hooks(&self) -> Seq<(Seq<char>, HookSpec)> {
        Seq::new(
            self.configs@.len(),
            |i: int| (map_entries(self.index)[i].0, self.configs@[i]@),
        )
    }

    fn new() -> (r: HookTable)
        ensures
            r.wf(),
            r.hooks() == Seq::<(Seq<char>, HookSpec)>::empty(),
    {
        let r = HookTable { index: map_new(), configs: Vec::new() };
        proof {
            assert(r.hooks() =~= Seq::<(Seq<char>, HookSpec)>::empty());
        }
        r
    }

    fn insert(&mut self, name: String, hook: HookConfig)
        requires
            old(self).wf(),
        ensures
            final(self).wf(),
            final(self).hooks() == named(old(self).hooks(), name@, hook@),
    {
        let ghost before = self.hooks();
        let ghost entries = map_entries(self.index);
        match map_get(&self.index, name.as_str()) {
            Some(i) => {
                proof {
                    let j = choose|j: int| 0 <= j < entries.len() && entries[j] == (name@, i);
                    assert(entries[j].1 == j);
                    assert forall|k: int| 0 <= k < i implies (#[trigger] before[k]).0
                        != name@ by {
                        assert(entries[k].0 != entries[i as int].0);
                    }
                    lemma_named(before, name@, hook@, i as int);
                }
                self.configs.set(i, hook);
                proof {
                    assert(self.hooks() =~= before.update(i as int, (name@, hook@)));
                }
            },
            None => {
                let n = self.configs.len();
                proof {
                    assert forall|k: int| 0 <= k < n implies (#[trigger] before[k]).0 != name@ by {
                        assert(entries[k].0 != name@);
                    }
                    lemma_named(before, name@, hook@, n as int);
                }
                let ghost key = name@;
                map_insert(&mut self.index, name, n);
                self.configs.push(hook);
                proof {
                    assert(map_entries(self.index) =~= entries.push((key, n)));
                    assert(self.hooks() =~= before.push((key, hook@)));
                }
            },
        }
    }
}

// ---- reading the hooks of a manifest ----

/// What a manifest holds, or the parser's message.
pub open spec fn manifest_tree(kind: ManifestKind, content: Seq<char>) -> Result<Tree, Seq<char>> {
    match kind {
        ManifestKind::PackageJson => json::parsed(content),
        _ => toml::toml_tree(content),
    }
}

/// What messages call the table under a key.
pub open spec fn section_name(key: Seq<char>) -> Seq<char> {
    if key == "tool"@ {
        "struct ToolSection"@
    } else if key == "package"@ {
        "struct CargoPackage"@
    } else if key == "metadata"@ {
        "struct CargoMetadata"@
    } else {
        "struct NizmSection"@
    }
}

/// The entries at the end of a path of tables, of which `under` is the key that
/// leads to the first. Where the path leads nowhere there are none. A list stands for
/// a table with its first item under the key that is asked for, and a date for one
/// without that key. Anything else on the path that is not a table is an error, and
/// so is anything at its end.
pub open spec fn tables_at(t: Tree, path: Seq<Seq<char>>, under: Seq<char>) -> Result<
    Seq<(Seq<char>, Tree)>,
    Seq<char>,
>
    decreases path.len(),
{
    if path.len() == 0 {
        match document::fields(t) {
            Some(e) => Ok(e),
            None => match t {
                Tree::Date(s) => Err(mismatch(Tree::Text(s), "struct HookConfig"@, false)),
                _ => Err(mismatch(t, "a map"@, false)),
            },
        }
    } else {
        match document::fields(t) {
            Some(e) => match document::lookup(e, path[0]) {
                Some(c) => tables_at(c, path.skip(1), path[0]),
                None => Ok(seq![]),
            },
            None => match items_of(t) {
                Some(l) => if l.len() == 0 {
                    Err(wrong_length(0, section_name(under) + " with 1 element"@))
                } else {
                    tables_at(l[0], path.skip(1), path[0])
                },
                None => match t {
                    Tree::Date(_) => Ok(seq![]),
                    _ => Err(mismatch(t, section_name(under), false)),
                },
            },
        }
    }
}

/// The entries at the end of a path of tables; `None` if there is no such table.
pub open spec fn entries_at(t: Tree, path: Seq<Seq<char>>) -> Option<Seq<(Seq<char>, Tree)>> {
    match document::descend(t, path) {
        Some(c) => document::fields(c),
        None => None,
    }
}

/// The entries of a manifest under which it describes its hooks. In a
/// `package.json`, whatever is not a table counts as no hooks.
pub open spec fn entries_for_hooks(kind: ManifestKind, t: Tree) -> Result<
    Seq<(Seq<char>, Tree)>,
    Seq<char>,
> {
    if kind == ManifestKind::PackageJson {
        match entries_at(t, hooks_path(kind)) {
            Some(e) => Ok(e),
            None => Ok(seq![]),
        }
    } else {
        tables_at(t, hooks_path(kind), seq![])
    }
}

/// The entries under which a manifest describes its hooks, or what is wrong with
/// it.
pub open spec fn hook_entries(kind: ManifestKind, content: Seq<char>) -> Result<
    Seq<(Seq<char>, Tree)>,
    Seq<char>,
> {
    match manifest_tree(kind, content) {
        Err(e) => Err(e),
        Ok(t) => entries_for_hooks(kind, t),
    }
}

/// The hooks that entries describe, by name; the first entry that describes none
/// is an error.
pub open spec fn hooks_in(entries: Seq<(Seq<char>, Tree)>, json: bool) -> Result<
    Seq<(Seq<char>, HookSpec)>,
    Seq<char>,
>
    decreases entries.len(),
{
    if entries.len() == 0 {
        Ok(seq![])
    } else {
        match hooks_in(entries.drop_last(), json) {
            Err(e) => Err(e),
            Ok(front) => match decoded(entries.last().1, json) {
                Ok(h) => Ok(named(front, entries.last().0, h)),
                Err(e) => Err(e),
            },
        }
    }
}

/// The hooks that a manifest describes, or what is wrong with it.
pub open spec fn manifest_hooks(kind: ManifestKind, content: Seq<char>) -> Result<
    Seq<(Seq<char>, HookSpec)>,
    Seq<char>,
> {
    match hook_entries(kind, content) {
        Err(e) => Err(e),
        Ok(entries) => hooks_in(entries, kind == ManifestKind::PackageJson),
    }
}

proof fn lemma_hooks_stop(entries: Seq<(Seq<char>, Tree)>, n: int, json: bool)
    requires
        0 <= n <= entries.len(),
        hooks_in(entries.take(n), json) is Err,
    ensures
        hooks_in(entries, json) == hooks_in(entries.take(n), json),
    decreases entries.len() - n,
{
    if n < entries.len() {
        assert(entries.take(n + 1).drop_last() =~= entries.take(n));
        lemma_hooks_stop(entries, n + 1, json);
    } else {
        assert(entries.take(n) =~= entries);
    }
}

/// Reads a manifest.
pub fn read_manifest(kind: ManifestKind, content: &str) -> (r: Result<Node, String>)
    ensures
        r is Ok <==> manifest_tree(kind, content@) is Ok,
        r matches Ok(n) ==> document::tree_of(n) == manifest_tree(kind, content@)->Ok_0,
        r matches Err(e) ==> e@ == manifest_tree(kind, content@)->Err_0,
{
    match kind {
        ManifestKind::PackageJson => json::read(content),
        _ => toml::read(content),
    }
}

/// What messages call the table under a key.
fn name_of_section(key: &str) -> (r: String)
    ensures
        r@ == section_name(key@),
{
    if text::same(key, "tool") {
        String::from_str("struct ToolSection")
    } else if text::same(key, "package") {
        String::from_str("struct CargoPackage")
    } else if text::same(key, "metadata") {
        String::from_str("struct CargoMetadata")
    } else {
        String::from_str("struct NizmSection")
    }
}

/// The nodes at the end of a path of tables.
fn nodes_at<'a>(n: &'a Node, path: &Vec<String>) -> (r: Result<Option<&'a Node>, String>)
    ensures
        ({
            let found = tables_at(document::tree_of(*n), text::views(path@), seq![]);
            &&& r is Ok <==> found is Ok
            &&& r matches Err(e) ==> e@ == found->Err_0
            &&& r matches Ok(None) ==> found->Ok_0 == Seq::<(Seq<char>, Tree)>::empty()
            &&& r matches Ok(Some(c)) ==> document::fields(document::tree_of(*c)) == Some(
                found->Ok_0,
            )
        }),
{
    let mut here: &Node = n;
    let mut i: usize = 0;
    let mut under = String::new();
    let ghost keys = text::views(path@);
    proof {
        assert(keys.skip(0) =~= keys);
        assert(under@ =~= seq![]);
    }
    while i < path.len()
        invariant
            i <= path.len(),
            keys == text::views(path@),
            tables_at(document::tree_of(*n), keys, seq![]) == tables_at(
                document::tree_of(*here),
                keys.skip(i as int),
                under@,
            ),
        decreases path.len() - i,
    {
        proof {
            assert(keys.skip(i as int)[0] == keys[i as int]);
            assert(keys.skip(i as int).skip(1) =~= keys.skip(i + 1));
        }
        if here.entries().is_some() {
            match here.get(path[i].as_str()) {
                Some(c) => {
                    here = c;
                },
                None => {
                    return Ok(None);
                },
            }
        } else {
            match items(here) {
                Some(l) => {
                    if l.len() == 0 {
                        let mut wanted = name_of_section(under.as_str());
                        wanted.append(" with 1 element");
                        return Err(length_message(0, wanted.as_str()));
                    }
                    proof {
                        assert(document::trees(l@)[0] == document::tree_of(l@[0]));
                    }
                    here = &l[0];
                },
                None => match here {
                    Node::Date(_) => return Ok(None),
                    _ => {
                        let wanted = name_of_section(under.as_str());
                        return Err(mismatch_message(here, wanted.as_str(), false));
                    },
                },
            }
        }
        under = path[i].clone();
        i += 1;
    }
    if here.entries().is_none() {
        return match here {
            Node::Date(s) => {
                let text = Node::Text(s.clone());
                Err(mismatch_message(&text, "struct HookConfig", false))
            },
            _ => Err(mismatch_message(here, "a map", false)),
        };
    }
    Ok(Some(here))
}

/// The hooks that a node describes.
fn table_of_hooks(entries: &Vec<(String, Node)>, json: bool) -> (r: Result<HookTable, String>)
    ensures
        ({
            let found = hooks_in(document::entries_of(entries@), json);
            &&& r is Ok <==> found is Ok
            &&& r matches Err(e) ==> e@ == found->Err_0
            &&& r matches Ok(t) ==> t.wf() && t.hooks() == found->Ok_0
        }),
{
    let ghost all = document::entries_of(entries@);
    let mut table = HookTable::new();
    let mut i: usize = 0;
    proof {
        assert(all.take(0).len() == 0);
    }
    while i < entries.len()
        invariant
            i <= entries.len(),
            all == document::entries_of(entries@),
            table.wf(),
            hooks_in(all.take(i as int), json) is Ok,
            hooks_in(all.take(i as int), json)->Ok_0 == table.hooks(),
        decreases entries.len() - i,
    {
        proof {
            assert(all.take(i + 1).drop_last() =~= all.take(i as int));
            assert(all.take(i + 1).last() == all[i as int]);
        }
        match decode_hook(&entries[i].1, json) {
            Ok(hook) => {
                table.insert(entries[i].0.clone(), hook);
            },
            Err(e) => {
                proof {
                    lemma_hooks_stop(all, i + 1, json);
                }
                return Err(e);
            },
        }
        i += 1;
    }
    proof {
        assert(all.take(i as int) =~= all);
    }
    Ok(table)
}

/// The entries of a manifest under which it describes its hooks.
fn find_entries<'a>(kind: ManifestKind, n: &'a Node) -> (r: Result<
    Option<&'a Vec<(String, Node)>>,
    String,
>)
    ensures
        ({
            let found = entries_for_hooks(kind, document::tree_of(*n));
            &&& r is Ok <==> found is Ok
            &&& r matches Err(e) ==> e@ == found->Err_0
            &&& r matches Ok(None) ==> found->Ok_0 == Seq::<(Seq<char>, Tree)>::empty()
            &&& r matches Ok(Some(e)) ==> found->Ok_0 == document::entries_of(e@)
        }),
{
    let path = hooks_table_path(kind);
    if kind == ManifestKind::PackageJson {
        return match n.at(&path) {
            Some(c) => Ok(c.entries()),
            None => Ok(None),
        };
    }
    match nodes_at(n, &path) {
        Ok(Some(c)) => Ok(c.entries()),
        Ok(None) => Ok(None),
        Err(e) => Err(e),
    }
}

/// The hooks that a manifest describes.
fn read_hooks(kind: ManifestKind, content: &str) -> (r: Result<HookTable, String>)
    ensures
        ({
            let found = manifest_hooks(kind, content@);
            &&& r is Ok <==> found is Ok
            &&& r matches Err(e) ==> e@ == found->Err_0
            &&& r matches Ok(t) ==> t.wf() && t.hooks() == found->Ok_0
        }),
{
    let node = match read_manifest(kind, content) {
        Ok(n) => n,
        Err(e) => return Err(e),
    };
    match find_entries(kind, &node) {
        Ok(Some(e)) => table_of_hooks(e, kind == ManifestKind::PackageJson),
        Ok(None) => Ok(HookTable::new()),
        Err(e) => Err(e),
    }
}

/// The names of the hooks of a list.
pub open spec fn names_in(list: Seq<(Seq<char>, HookSpec)>) -> Seq<Seq<char>> {
    Seq::new(list.len(), |i: int| list[i].0)
}

/// The names of the hooks that a manifest describes, in order.
pub fn read_hook_names(kind: ManifestKind, content: &str) -> (r: Result<Vec<String>, String>)
    ensures
        ({
            let found = manifest_hooks(kind, content@);
            &&& r is Ok <==> found is Ok
            &&& r matches Err(e) ==> e@ == found->Err_0
            &&& r matches Ok(v) ==> text::views(v@) == names_in(found->Ok_0)
        }),
{
    match read_hooks(kind, content) {
        Ok(table) => {
            let ghost list = table.hooks();
            let names = map_keys(table.index);
            proof {
                assert(text::views(names@) =~= names_in(list));
            }
            Ok(names)
        },
        Err(e) => Err(e),
    }
}

// ---- hooks ready to run ----

/// The stage of a hook: the one that is named, and `pre-commit` where none or an
/// unknown one is.
pub open spec fn stage_of(name: Option<Seq<char>>) -> HookType {
    match name {
        Some(n) => match stage_named(n) {
            Some(t) => t,
            None => HookType::PreCommit,
        },
        None => HookType::PreCommit,
    }
}

/// All patterns of the list are valid, so far as they are portable.
pub open spec fn compiles(patterns: Option<Seq<Seq<char>>>) -> bool {
    patterns matches Some(p) ==> pattern::all_valid(pattern::all_texts(p))
}

/// All patterns of the list are portable.
pub open spec fn portable_patterns(patterns: Option<Seq<Seq<char>>>) -> bool {
    patterns matches Some(p) ==> pattern::all_portable(pattern::all_texts(p))
}

/// The matcher is that of the patterns, if there are any.
pub open spec fn matches_patterns(
    m: Option<pattern::Matcher>,
    patterns: Option<Seq<Seq<char>>>,
) -> bool {
    match (m, patterns) {
        (Some(m), Some(p)) => pattern::Matcher::built(
            p,
            Ok::<pattern::Matcher, pattern::GlobError>(m),
        ),
        (None, None) => true,
        _ => false,
    }
}

/// The message is that of the first pattern of the list that is not valid.
pub open spec fn is_pattern_error(e: Seq<char>, patterns: Option<Seq<Seq<char>>>) -> bool {
    exists|p: Seq<char>|
        patterns is Some && pattern::first_invalid(pattern::all_texts(patterns->0), p) && e
            == #[trigger] pattern::glob_error_text(p)
}

/// The hook is what the manifest says of it.
pub open spec fn is_hook(hook: Hook, name: Seq<char>, h: HookSpec) -> bool {
    &&& hook.name@ == name
    &&& hook.cmd@ == h.cmd
    &&& patterns_of(hook.glob) == h.glob
    &&& matches_patterns(hook.glob_matcher, h.glob)
    &&& matches_patterns(hook.outputs, h.outputs)
    &&& hook.hook_type == stage_of(h.stage)
}

/// All patterns of the hook are valid, so far as they are portable.
pub open spec fn is_runnable(h: HookSpec) -> bool {
    compiles(h.glob) && compiles(h.outputs)
}

/// All patterns of the hook are portable.
pub open spec fn is_portable_hook(h: HookSpec) -> bool {
    portable_patterns(h.glob) && portable_patterns(h.outputs)
}

/// The message is that of the first pattern of the hook that is not valid.
pub open spec fn is_hook_error(e: Seq<char>, h: HookSpec) -> bool {
    is_pattern_error(e, h.glob) || (compiles(h.glob) && is_pattern_error(e, h.outputs))
}

/// A hook with portable patterns fails only if one of them is not valid.
proof fn lemma_hook_error(e: Seq<char>, h: HookSpec)
    requires
        is_portable_hook(h),
        is_hook_error(e, h),
    ensures
        !is_runnable(h),
{
    let patterns = if is_pattern_error(e, h.glob) {
        h.glob
    } else {
        h.outputs
    };
    let p = choose|p: Seq<char>|
        patterns is Some && pattern::first_invalid(pattern::all_texts(patterns->0), p) && e
            == #[trigger] pattern::glob_error_text(p);
    pattern::lemma_first_invalid(pattern::all_texts(patterns->0), p);
}

/// Compiles a list of patterns.
fn compile_patterns(patterns: &Option<Vec<String>>) -> (r: Result<
    Option<pattern::Matcher>,
    String,
>)
    ensures
        r matches Ok(m) ==> compiles(patterns_of(*patterns)) && matches_patterns(
            m,
            patterns_of(*patterns),
        ),
        r matches Err(e) ==> is_pattern_error(e@, patterns_of(*patterns)),
{
    match patterns {
        None => Ok(None),
        Some(p) => match pattern::Matcher::new(p) {
            Ok(m) => Ok(Some(m)),
            Err(e) => {
                let t = e.message();
                proof {
                    assert(t@ == pattern::glob_error_text(e.pattern@));
                }
                Err(t)
            },
        },
    }
}

/// Makes a hook ready to run.
fn ready_hook(name: &str, c: &HookConfig) -> (r: Result<Hook, String>)
    ensures
        r matches Ok(h) ==> is_runnable(c@) && is_hook(h, name@, c@),
        r matches Err(e) ==> is_hook_error(e@, c@),
{
    let glob_matcher = match compile_patterns(&c.glob) {
        Ok(m) => m,
        Err(e) => return Err(e),
    };
    let outputs = match compile_patterns(&c.outputs) {
        Ok(m) => m,
        Err(e) => return Err(e),
    };
    let hook_type = match &c.hook_type {
        Some(t) => match HookType::from_str(t.as_str()) {
            Some(t) => t,
            None => HookType::PreCommit,
        },
        None => HookType::PreCommit,
    };
    let glob = match &c.glob {
        Some(l) => Some(copied(l)),
        None => None,
    };
    Ok(
        Hook {
            name: String::from_str(name),
            cmd: c.cmd.clone(),
            glob,
            glob_matcher,
            outputs,
            hook_type,
        },
    )
}

/// A copy of a list of texts.
fn copied(l: &Vec<String>) -> (r: Vec<String>)
    ensures
        text::views(r@) == text::views(l@),
{
    let mut r: Vec<String> = Vec::new();
    let mut i: usize = 0;
    while i < l.len()
        invariant
            i <= l.len(),
            text::views(r@) =~= text::views(l@).take(i as int),
        decreases l.len() - i,
    {
        let ghost before = text::views(r@);
        r.push(l[i].clone());
        proof {
            assert(text::views(r@) =~= before.push(l@[i as int]@));
        }
        i += 1;
    }
    proof {
        assert(text::views(r@) =~= text::views(l@));
    }
    r
}

/// The warning about a stage that git does not have.
pub open spec fn unknown_stage(stage: Seq<char>, name: Seq<char>) -> Seq<char> {
    "warning: unknown hook type '"@ + stage + "' for '"@ + name + "', defaulting to pre-commit"@
}

/// The warnings about the hooks: one for each unknown stage.
pub open spec fn stage_warnings(hooks: Seq<(Seq<char>, HookSpec)>) -> Seq<Seq<char>>
    decreases hooks.len(),
{
    if hooks.len() == 0 {
        seq![]
    } else {
        let front = stage_warnings(hooks.drop_last());
        match hooks.last().1.stage {
            Some(s) => if stage_named(s) is None {
                front.push(unknown_stage(s, hooks.last().0))
            } else {
                front
            },
            None => front,
        }
    }
}

/// The message for a file that is no manifest.
pub open spec fn unsupported(path: Seq<char>) -> Seq<char> {
    match path::file_name(path) {
        Some(n) => "unsupported manifest: "@ + n,
        None => "invalid manifest path"@,
    }
}

/// The kind of manifest at the end of a path.
pub open spec fn kind_at(path: Seq<char>) -> Option<ManifestKind> {
    match path::file_name(path) {
        Some(n) => kind_named(n),
        None => None,
    }
}

/// The kind of manifest at the end of a path, or the message that there is none.
pub fn kind_of_path(path: &str) -> (r: Result<ManifestKind, String>)
    ensures
        r is Ok <==> kind_at(path@) is Some,
        r matches Ok(k) ==> kind_at(path@) == Some(k),
        r matches Err(e) ==> e@ == unsupported(path@),
{
    match path::name_of_file(path) {
        Some(n) => match manifest_kind(n.as_str()) {
            Some(k) => Ok(k),
            None => {
                let mut m = String::from_str("unsupported manifest: ");
                m.append(n.as_str());
                Err(m)
            },
        },
        None => Err(String::from_str("invalid manifest path")),
    }
}

/// The hooks are those of the list, one for one.
pub open spec fn are_hooks(hooks: Seq<Hook>, list: Seq<(Seq<char>, HookSpec)>) -> bool {
    &&& hooks.len() == list.len()
    &&& forall|i: int|
        0 <= i < hooks.len() ==> is_hook(#[trigger] hooks[i], list[i].0, list[i].1)
}

/// All patterns of the hooks are portable.
pub open spec fn all_portable_hooks(list: Seq<(Seq<char>, HookSpec)>) -> bool {
    forall|i: int| 0 <= i < list.len() ==> is_portable_hook((#[trigger] list[i]).1)
}

/// All patterns of the hooks are valid, so far as they are portable.
pub open spec fn all_runnable(list: Seq<(Seq<char>, HookSpec)>) -> bool {
    forall|i: int| 0 <= i < list.len() ==> is_runnable((#[trigger] list[i]).1)
}

/// The message is that of the first hook of the list with a pattern that is not
/// valid.
pub open spec fn is_first_hook_error(e: Seq<char>, list: Seq<(Seq<char>, HookSpec)>) -> bool {
    exists|i: int|
        0 <= i < list.len() && is_hook_error(e, (#[trigger] list[i]).1) && all_runnable(
            list.take(i),
        )
}

/// Reads a manifest and the hooks that it describes, and what there is to warn
/// about. One hook that is not in order fails the whole manifest.
pub fn parse_manifest(manifest_path: &str, content: &str) -> (r: Result<
    (ManifestConfig, Vec<String>),
    String,
>)
    ensures
        ({
            match kind_at(manifest_path@) {
                None => r is Err && r->Err_0@ == unsupported(manifest_path@),
                Some(kind) => match manifest_hooks(kind, content@) {
                    Err(e) => r is Err && r->Err_0@ == e,
                    Ok(list) => {
                        &&& all_portable_hooks(list) ==> (r is Ok <==> all_runnable(list))
                        &&& r matches Err(e) ==> is_first_hook_error(e@, list)
                        &&& r matches Ok(m) ==> {
                            &&& all_runnable(list)
                            &&& m.0.path@ == manifest_path@
                            &&& are_hooks(m.0.hooks@, list)
                            &&& text::views(m.1@) == stage_warnings(list)
                        }
                    },
                },
            }
        }),
{
    let kind = match kind_of_path(manifest_path) {
        Ok(k) => k,
        Err(e) => return Err(e),
    };
    let table = match read_hooks(kind, content) {
        Ok(t) => t,
        Err(e) => return Err(e),
    };
    let ghost list = table.hooks();
    let configs = table.configs;
    let ghost entries = map_entries(table.index);
    let names = map_keys(table.index);
    let mut hooks: Vec<Hook> = Vec::new();
    let mut warnings: Vec<String> = Vec::new();
    let mut i: usize = 0;
    proof {
        assert(text::views(names@).len() == names@.len());
        assert(text::views(warnings@) =~= seq![]);
        assert(list.take(0).len() == 0);
    }
    while i < configs.len()
        invariant
            i <= configs.len(),
            names@.len() == configs@.len(),
            list.len() == configs@.len(),
            text::views(names@) == Seq::new(entries.len(), |i: int| entries[i].0),
            entries.len() == configs@.len(),
            forall|j: int|
                0 <= j < list.len() ==> #[trigger] list[j] == (entries[j].0, configs@[j]@),
            are_hooks(hooks@, list.take(i as int)),
            all_runnable(list.take(i as int)),
            text::views(warnings@) == stage_warnings(list.take(i as int)),
            kind_at(manifest_path@) == Some(kind),
            manifest_hooks(kind, content@) is Ok,
            manifest_hooks(kind, content@)->Ok_0 == list,
        decreases configs.len() - i,
    {
        let name = names[i].as_str();
        proof {
            assert(text::views(names@)[i as int] == name@);
            assert(list[i as int] == (name@, configs@[i as int]@));
            assert(list.take(i + 1).drop_last() =~= list.take(i as int));
            assert(list.take(i + 1).last() == list[i as int]);
        }
        let ghost hooks_before = hooks@;
        match ready_hook(name, &configs[i]) {
            Ok(h) => {
                hooks.push(h);
            },
            Err(e) => {
                proof {
                    assert(is_hook_error(e@, list[i as int].1));
                    if all_portable_hooks(list) {
                        lemma_hook_error(e@, list[i as int].1);
                    }
                }
                return Err(e);
            },
        }
        proof {
            assert forall|j: int| 0 <= j < hooks@.len() implies is_hook(
                #[trigger] hooks@[j],
                list.take(i + 1)[j].0,
                list.take(i + 1)[j].1,
            ) by {
                if j < i {
                    assert(hooks@[j] == hooks_before[j]);
                    assert(list.take(i as int)[j] == list[j]);
                }
            }
            assert forall|j: int| 0 <= j < i + 1 implies is_runnable(
                (#[trigger] list.take(i + 1)[j]).1,
            ) by {
                if j < i {
                    assert(list.take(i as int)[j] == list[j]);
                }
            }
        }
        let ghost warned = text::views(warnings@);
        match &configs[i].hook_type {
            Some(t) => {
                if HookType::from_str(t.as_str()).is_none() {
                    let mut m = String::from_str("warning: unknown hook type '");
                    m.append(t.as_str());
                    m.append("' for '");
                    m.append(name);
                    m.append("', defaulting to pre-commit");
                    warnings.push(m);
                    proof {
                        assert(text::views(warnings@) =~= warned.push(unknown_stage(t@, name@)));
                    }
                }
            },
            None => {},
        }
        i += 1;
    }
    proof {
        assert(list.take(i as int) =~= list);
    }
    Ok((ManifestConfig { path: String::from_str(manifest_path), hooks }, warnings))
}

// ---- reading leniently ----

/// What may come of an entry, which is read as JSON: the hook, if it describes one
/// whose patterns can be compiled, else what is wrong with it.
pub open spec fn is_lenient_result(r: HookResult, entry: (Seq<char>, Tree)) -> bool {
    match decoded(entry.1, true) {
        Err(m) => r matches HookResult::Failed { name, error } && name@ == entry.0 && error@ == m,
        Ok(h) => match r {
            HookResult::Parsed(hook) => is_runnable(h) && is_hook(hook, entry.0, h),
            HookResult::Failed { name, error } => {
                &&& name@ == entry.0
                &&& is_hook_error(error@, h)
                &&& is_portable_hook(h) ==> !is_runnable(h)
            },
        },
    }
}

/// Reads one entry of a manifest leniently.
fn read_entry(name: &str, n: &Node) -> (r: HookResult)
    ensures
        is_lenient_result(r, (name@, document::tree_of(*n))),
{
    match decode_hook(n, true) {
        Ok(c) => match ready_hook(name, &c) {
            Ok(hook) => HookResult::Parsed(hook),
            Err(error) => {
                proof {
                    if is_portable_hook(c@) {
                        lemma_hook_error(error@, c@);
                    }
                }
                HookResult::Failed { name: String::from_str(name), error }
            },
        },
        Err(error) => HookResult::Failed { name: String::from_str(name), error },
    }
}

/// Reads a manifest leniently: what is wrong with one hook is reported for that
/// hook, and the others are read. A manifest that cannot be parsed, or whose hooks
/// are not in a table, is an error of the whole file.
pub fn parse_manifest_lenient(manifest_path: &str, content: &str) -> (r: LenientManifest)
    ensures
        match kind_at(manifest_path@) {
            None => r matches LenientManifest::FileError(e) && e@ == unsupported(manifest_path@),
            Some(kind) => match hook_entries(kind, content@) {
                Err(m) => r matches LenientManifest::FileError(e) && e@ == m,
                Ok(entries) => {
                    &&& r matches LenientManifest::Hooks(v)
                    &&& v@.len() == entries.len()
                    &&& forall|i: int|
                        0 <= i < v@.len() ==> is_lenient_result(#[trigger] v@[i], entries[i])
                },
            },
        },
{
    let kind = match kind_of_path(manifest_path) {
        Ok(k) => k,
        Err(e) => return LenientManifest::FileError(e),
    };
    let mut results: Vec<HookResult> = Vec::new();
    let node = match read_manifest(kind, content) {
        Ok(n) => n,
        Err(e) => return LenientManifest::FileError(e),
    };
    let entries = match find_entries(kind, &node) {
        Ok(Some(e)) => e,
        Ok(None) => return LenientManifest::Hooks(results),
        Err(e) => return LenientManifest::FileError(e),
    };
    let ghost all = document::entries_of(entries@);
    let mut i: usize = 0;
    while i < entries.len()
        invariant
            i <= entries.len(),
            all == document::entries_of(entries@),
            results@.len() == i,
            forall|j: int| 0 <= j < i ==> is_lenient_result(#[trigger] results@[j], all[j]),
        decreases entries.len() - i,
    {
        proof {
            assert(all[i as int] == (
                entries@[i as int].0@,
                document::tree_of(entries@[i as int].1),
            ));
        }
        results.push(read_entry(entries[i].0.as_str(), &entries[i].1));
        i += 1;
    }
    LenientManifest::Hooks(results)
}

/// No two entries have the same name.
pub open spec fn distinct_names(entries: Seq<(Seq<char>, Tree)>) -> bool {
    forall|i: int, j: int|
        0 <= i < j < entries.len() ==> (#[trigger] entries[i]).0 != (#[trigger] entries[j]).0
}

/// The entry describes the hook.
pub open spec fn describes(entry: (Seq<char>, Tree), hook: (Seq<char>, HookSpec), json: bool) -> bool {
    hook.0 == entry.0 && decoded(entry.1, json) is Ok && decoded(entry.1, json)->Ok_0 == hook.1
}

/// Entries with different names give one hook each, in their order.
proof fn lemma_hooks_one_for_one(entries: Seq<(Seq<char>, Tree)>, json: bool)
    requires
        distinct_names(entries),
        hooks_in(entries, json) is Ok,
    ensures
        hooks_in(entries, json)->Ok_0.len() == entries.len(),
        forall|i: int|
            0 <= i < entries.len() ==> describes(
                entries[i],
                #[trigger] hooks_in(entries, json)->Ok_0[i],
                json,
            ),
    decreases entries.len(),
{
    if entries.len() > 0 {
        let front = entries.drop_last();
        assert forall|i: int, j: int| 0 <= i < j < front.len() implies (#[trigger] front[i]).0 != (
        #[trigger] front[j]).0 by {
            assert(front[i] == entries[i] && front[j] == entries[j]);
        }
        lemma_hooks_one_for_one(front, json);
        let list = hooks_in(front, json)->Ok_0;
        let n = list.len() as int;
        assert forall|i: int| 0 <= i < n implies (#[trigger] list[i]).0 != entries.last().0 by {
            assert(describes(front[i], list[i], json));
            assert(front[i] == entries[i]);
        }
        let h = decoded(entries.last().1, json)->Ok_0;
        lemma_named(list, entries.last().0, h, n);
        assert(hooks_in(entries, json)->Ok_0 == list.push((entries.last().0, h)));
        assert forall|i: int| 0 <= i < entries.len() implies describes(
            entries[i],
            #[trigger] hooks_in(entries, json)->Ok_0[i],
            json,
        ) by {
            if i < n {
                assert(describes(front[i], list[i], json));
                assert(front[i] == entries[i]);
            }
        }
    }
}

/// What is in order as TOML is in order as JSON and says the same, but for a list
/// that is too long.
proof fn lemma_reads_as_json(t: Tree)
    requires
        decoded(t, false) is Ok,
        items_of(t) matches Some(l) ==> l.len() <= 3,
    ensures
        decoded(t, true) == decoded(t, false),
{
    match t {
        Tree::Record(e) => lemma_drafts_as_json(e),
        Tree::Section(e) => lemma_drafts_as_json(e),
        Tree::List(l) => {
            lemma_patterns_as_json(l[1]);
        },
        Tree::Sections(l) => {
            lemma_patterns_as_json(l[1]);
        },
        _ => {},
    }
}

proof fn lemma_drafts_as_json(e: Seq<(Seq<char>, Tree)>)
    requires
        drafted(e, false) is Ok,
    ensures
        drafted(e, true) == drafted(e, false),
    decreases e.len(),
{
    if e.len() > 0 {
        lemma_drafts_as_json(e.drop_last());
        if e.last().0 == "glob"@ || e.last().0 == "outputs"@ {
            if e.last().0 != "cmd"@ {
                lemma_patterns_as_json(e.last().1);
            }
        }
    }
}

proof fn lemma_patterns_as_json(t: Tree)
    requires
        patterns_in(t, false) is Ok,
    ensures
        patterns_in(t, true) == patterns_in(t, false),
{
    match items_of(t) {
        Some(l) => lemma_texts_as_json(l),
        None => {},
    }
}

proof fn lemma_texts_as_json(l: Seq<Tree>)
    requires
        texts_in(l, false) is Ok,
    ensures
        texts_in(l, true) == texts_in(l, false),
    decreases l.len(),
{
    if l.len() > 0 {
        lemma_texts_as_json(l.drop_last());
    }
}

/// A manifest that is in order reads the same leniently: its entries describe the
/// same hooks, one by one and in the same order. A hook in TOML that is written as a
/// list of more than three items is the exception: the lenient reading refuses it.
pub proof fn law_lenient_agrees(kind: ManifestKind, content: Seq<char>)
    requires
        manifest_hooks(kind, content) is Ok,
        distinct_names(hook_entries(kind, content)->Ok_0),
        forall|i: int|
            0 <= i < hook_entries(kind, content)->Ok_0.len() ==> (items_of(
                (#[trigger] hook_entries(kind, content)->Ok_0[i]).1,
            ) matches Some(l) ==> l.len() <= 3),
    ensures
        ({
            let list = manifest_hooks(kind, content)->Ok_0;
            let entries = hook_entries(kind, content)->Ok_0;
            &&& entries.len() == list.len()
            &&& forall|i: int|
                0 <= i < list.len() ==> describes(entries[i], #[trigger] list[i], true)
        }),
{
    let json = kind == ManifestKind::PackageJson;
    let entries = hook_entries(kind, content)->Ok_0;
    let list = manifest_hooks(kind, content)->Ok_0;
    lemma_hooks_one_for_one(entries, json);
    assert forall|i: int| 0 <= i < list.len() implies describes(
        entries[i],
        #[trigger] list[i],
        true,
    ) by {
        assert(describes(entries[i], list[i], json));
        if !json {
            lemma_reads_as_json(entries[i].1);
        }
    }
}

// ---- writing JSON ----

/// The value as text, indented by `indent` and with a line feed at its end.
pub fn serialize_json(value: &serde_json::Value, indent: &str) -> (r: Result<String, String>)
    ensures
        r is Ok,
        r->Ok_0@ == json::pretty(json::value_tree(*value), indent@).push('\n'),
{
    match json::write_pretty(value, indent) {
        Some(mut t) => {
            t.push('\n');
            Ok(t)
        },
        None => Err(String::from_str("failed to serialize JSON")),
    }
}

/// A line with white space in front of something else.
pub open spec fn is_indented(line: Seq<char>) -> bool {
    text::trim_start(line).len() > 0 && text::indent_of(line).len() > 0
}

/// The indentation of the first indented line at or behind `from`; two spaces if
/// there is none.
pub open spec fn indent_from(ls: Seq<Seq<char>>, from: int) -> Seq<char>
    decreases ls.len() - from,
{
    if from < 0 || from >= ls.len() {
        "  "@
    } else if is_indented(ls[from]) {
        text::indent_of(ls[from])
    } else {
        indent_from(ls, from + 1)
    }
}

/// The indentation of a JSON text: that of its first indented line, the first
/// line aside.
pub fn detect_json_indent(content: &str) -> (r: String)
    ensures
        r@ == indent_from(text::lines(content@), 1),
{
    let lines = text::split_lines(content);
    let ghost ls = text::lines(content@);
    proof {
        assert(ls.len() == lines@.len());
    }
    let mut i: usize = 1;
    while i < lines.len()
        invariant
            1 <= i,
            ls == text::lines(content@),
            text::views(lines@) == ls,
            ls.len() == lines@.len(),
            indent_from(ls, 1) == indent_from(ls, i as int),
        decreases lines.len() - i,
    {
        let line = lines[i].as_str();
        let lead = text::leading(line);
        let trimmed = text::trimmed(line);
        proof {
            assert(ls[i as int] == line@);
            text::lemma_trim_start(line@);
            text::lemma_trim_end(text::trim_start(line@));
            if trimmed@.len() == 0 && text::trim_start(line@).len() > 0 {
                assert(text::is_space(text::trim_start(line@)[0]));
            }
        }
        if !trimmed.as_str().is_empty() && !lead.as_str().is_empty() {
            return lead;
        }
        i += 1;
    }
    String::from_str("  ")
}

// ---- laws ----

/// The stages and the names that git knows them by. Each stage is shown, once and in this
/// order, and no other name is that of a stage.
pub proof fn law_stages(s: Seq<char>)
    ensures
        stage_named("pre-commit"@) == Some(HookType::PreCommit),
        stage_named("pre-push"@) == Some(HookType::PrePush),
        stage_named("commit-msg"@) == Some(HookType::CommitMsg),
        stage_named("prepare-commit-msg"@) == Some(HookType::PrepareCommitMsg),
        stage_named(s) is Some <==> s == "pre-commit"@ || s == "pre-push"@ || s == "commit-msg"@
            || s == "prepare-commit-msg"@,
        every_type().len() == 4,
        every_type()[0] is PreCommit,
        every_type()[1] is PrePush,
        every_type()[2] is CommitMsg,
        every_type()[3] is PrepareCommitMsg,
{
    law_stage_names(HookType::PreCommit, s);
    law_stage_names(HookType::PrePush, s);
    law_stage_names(HookType::CommitMsg, s);
    law_stage_names(HookType::PrepareCommitMsg, s);
}

/// A hook runs at the stage that it names, and at `pre-commit` if it names none or one
/// that git does not have; only that last is warned about.
pub proof fn law_stage_of_a_hook(
    t: HookType,
    s: Seq<char>,
    hooks: Seq<(Seq<char>, HookSpec)>,
    hook: (Seq<char>, HookSpec),
)
    ensures
        stage_of(Some(stage_name(t))) == t,
        stage_of(None) is PreCommit,
        stage_named(s) is None ==> stage_of(Some(s)) is PreCommit,
        stage_warnings(Seq::<(Seq<char>, HookSpec)>::empty()).len() == 0,
        hook.1.stage is None || hook.1.stage == Some(stage_name(t)) ==> stage_warnings(
            hooks.push(hook),
        ) == stage_warnings(hooks),
        hook.1.stage == Some(s) && s != "pre-commit"@ && s != "pre-push"@ && s != "commit-msg"@ && s
            != "prepare-commit-msg"@ ==> stage_warnings(hooks.push(hook)) == stage_warnings(
            hooks,
        ).push(
            "warning: unknown hook type '"@ + s + "' for '"@ + hook.0
                + "', defaulting to pre-commit"@,
        ),
{
    law_stage_names(t, s);
    law_stages(s);
    assert(hooks.push(hook).drop_last() =~= hooks);
}

/// The manifests are the files of these four names, in whatever directory. Each is of the
/// kind that its name says, and no other file is of any kind.
pub proof fn law_manifests(dir: Seq<char>, name: Seq<char>)
    requires
        path::is_name(name),
    ensures
        is_manifest_path(name) <==> name == "pyproject.toml"@ || name == "package.json"@ || name
            == "Cargo.toml"@ || name == ".nizm.toml"@,
        is_manifest_path(dir + seq!['/'] + name) == is_manifest_path(name),
        kind_at(name) == kind_named(name),
        kind_at(dir + seq!['/'] + name) == kind_named(name),
        kind_named(name) is Some <==> is_manifest_path(name),
        name == "pyproject.toml"@ ==> kind_named(name) == Some(ManifestKind::Pyproject),
        name == "package.json"@ ==> kind_named(name) == Some(ManifestKind::PackageJson),
        name == "Cargo.toml"@ ==> kind_named(name) == Some(ManifestKind::Cargo),
        name == ".nizm.toml"@ ==> kind_named(name) == Some(ManifestKind::NizmToml),
{
    path::law_file_name(dir, name);
    text::lemma_last_piece(dir, name, '/');
    let parts = text::pieces(dir, '/') + seq![name];
    assert(parts.last() == name);
    assert(seq![name].last() == name);
    reveal_strlit("pyproject.toml");
    reveal_strlit("package.json");
    reveal_strlit("Cargo.toml");
    reveal_strlit(".nizm.toml");
    assert("pyproject.toml"@.len() == 14 && "package.json"@.len() == 12);
    assert("Cargo.toml"@.len() == 10 && ".nizm.toml"@.len() == 10);
    assert("Cargo.toml"@[0] == 'C' && ".nizm.toml"@[0] == '.');
}

/// Where each kind of manifest holds its hooks; nizm's own table is what they are in.
pub proof fn law_where_hooks_are(kind: ManifestKind)
    ensures
        hooks_path(kind) == match kind {
            ManifestKind::Pyproject => seq!["tool"@, "nizm"@, "hooks"@],
            ManifestKind::Cargo => seq!["package"@, "metadata"@, "nizm"@, "hooks"@],
            ManifestKind::PackageJson => seq!["nizm"@, "hooks"@],
            ManifestKind::NizmToml => seq!["hooks"@],
        },
        own_path(kind) == hooks_path(kind).drop_last(),
{
    assert(own_path(kind) =~= hooks_path(kind).drop_last());
}

/// A table at the place of the hooks is where they are read from, in every manifest.
pub proof fn law_hooks_are_read_from_their_place(
    kind: ManifestKind,
    t: Tree,
    e: Seq<(Seq<char>, Tree)>,
)
    requires
        document::descend(t, hooks_path(kind)) == Some(Tree::Section(e)) || document::descend(
            t,
            hooks_path(kind),
        ) == Some(Tree::Record(e)),
    ensures
        entries_for_hooks(kind, t) == Ok::<Seq<(Seq<char>, Tree)>, Seq<char>>(e),
{
    lemma_table_at(t, hooks_path(kind), seq![], e);
}

proof fn lemma_table_at(
    t: Tree,
    path: Seq<Seq<char>>,
    under: Seq<char>,
    e: Seq<(Seq<char>, Tree)>,
)
    requires
        entries_at(t, path) == Some(e),
    ensures
        tables_at(t, path, under) == Ok::<Seq<(Seq<char>, Tree)>, Seq<char>>(e),
    decreases path.len(),
{
    if path.len() > 0 {
        lemma_table_at(document::child(t, path[0])->0, path.skip(1), path[0], e);
    }
}

/// What the fields of a table say so far.
proof fn lemma_drafted(entries: Seq<(Seq<char>, Tree)>, json: bool, i: int)
    requires
        distinct_names(entries),
        drafted(entries, json) is Ok,
    ensures
        ({
            let d = drafted(entries, json)->Ok_0;
            &&& (forall|k: int| 0 <= k < entries.len() ==> (#[trigger] entries[k]).0 != "cmd"@)
                ==> d.cmd is None
            &&& (forall|k: int| 0 <= k < entries.len() ==> (#[trigger] entries[k]).0 != "glob"@)
                ==> d.glob is None
            &&& (forall|k: int| 0 <= k < entries.len() ==> (#[trigger] entries[k]).0 != "outputs"@)
                ==> d.outputs is None
            &&& (forall|k: int| 0 <= k < entries.len() ==> (#[trigger] entries[k]).0 != "type"@)
                ==> d.stage is None
            &&& 0 <= i < entries.len() && entries[i].0 == "cmd"@ ==> text_in(entries[i].1, json)
                == Ok::<Seq<char>, Seq<char>>(d.cmd->0) && d.cmd is Some
            &&& 0 <= i < entries.len() && entries[i].0 == "glob"@ ==> patterns_in(
                entries[i].1,
                json,
            ) == Ok::<Option<Seq<Seq<char>>>, Seq<char>>(d.glob)
            &&& 0 <= i < entries.len() && entries[i].0 == "outputs"@ ==> patterns_in(
                entries[i].1,
                json,
            ) == Ok::<Option<Seq<Seq<char>>>, Seq<char>>(d.outputs)
            &&& 0 <= i < entries.len() && entries[i].0 == "type"@ ==> stage_in(entries[i].1, json)
                == Ok::<Option<Seq<char>>, Seq<char>>(d.stage)
        }),
    decreases entries.len(),
{
    lemma_field_names();
    if entries.len() > 0 {
        let less = entries.drop_last();
        let last = entries.len() - 1;
        assert forall|a: int, b: int| 0 <= a < b < less.len() implies (#[trigger] less[a]).0 != (
        #[trigger] less[b]).0 by {
            assert(less[a] == entries[a] && less[b] == entries[b]);
        }
        lemma_drafted(less, json, i);
        assert forall|k: int| 0 <= k < less.len() implies (#[trigger] less[k]).0
            == entries[k].0 by {}
        assert(entries[last] == entries.last());
        if 0 <= i < last {
            assert(entries[i].0 != entries[last].0);
            assert(less[i] == entries[i]);
        }
        if (forall|k: int| 0 <= k < entries.len() ==> (#[trigger] entries[k]).0 != "cmd"@) {
            assert forall|k: int| 0 <= k < less.len() implies (#[trigger] less[k]).0 != "cmd"@ by {
                assert(less[k] == entries[k]);
            }
        }
        if (forall|k: int| 0 <= k < entries.len() ==> (#[trigger] entries[k]).0 != "glob"@) {
            assert forall|k: int| 0 <= k < less.len() implies (#[trigger] less[k]).0 != "glob"@ by {
                assert(less[k] == entries[k]);
            }
        }
        if (forall|k: int| 0 <= k < entries.len() ==> (#[trigger] entries[k]).0 != "outputs"@) {
            assert forall|k: int| 0 <= k < less.len() implies (#[trigger] less[k]).0
                != "outputs"@ by {
                assert(less[k] == entries[k]);
            }
        }
        if (forall|k: int| 0 <= k < entries.len() ==> (#[trigger] entries[k]).0 != "type"@) {
            assert forall|k: int| 0 <= k < less.len() implies (#[trigger] less[k]).0 != "type"@ by {
                assert(less[k] == entries[k]);
            }
        }
    }
}

proof fn lemma_field_names()
    ensures
        "cmd"@ != "glob"@,
        "cmd"@ != "outputs"@,
        "cmd"@ != "type"@,
        "glob"@ != "outputs"@,
        "glob"@ != "type"@,
        "outputs"@ != "type"@,
{
    reveal_strlit("cmd");
    reveal_strlit("glob");
    reveal_strlit("outputs");
    reveal_strlit("type");
    assert("cmd"@.len() == 3 && "glob"@.len() == 4 && "outputs"@.len() == 7);
    assert("type"@.len() == 4 && "type"@[0] == 't' && "glob"@[0] == 'g');
}

/// A hook is what the fields of its table say: its command is the text under `cmd`,
/// without which it is none, and its patterns, its outputs and its stage are what stands
/// under `glob`, `outputs` and `type`, if anything does. A pattern by itself is as good as
/// a list of one.
pub proof fn law_fields_of_a_hook(
    entries: Seq<(Seq<char>, Tree)>,
    json: bool,
    i: int,
    x: Seq<char>,
)
    requires
        distinct_names(entries),
    ensures
        (forall|k: int| 0 <= k < entries.len() ==> (#[trigger] entries[k]).0 != "cmd"@)
            ==> decoded_table(entries, json) is Err && (drafted(entries, json) is Ok
            ==> decoded_table(entries, json)->Err_0 == "missing field `cmd`"@),
        decoded_table(entries, json) matches Ok(h) ==> {
            &&& (forall|k: int| 0 <= k < entries.len() ==> (#[trigger] entries[k]).0 != "glob"@)
                ==> h.glob is None
            &&& (forall|k: int| 0 <= k < entries.len() ==> (#[trigger] entries[k]).0 != "outputs"@)
                ==> h.outputs is None
            &&& (forall|k: int| 0 <= k < entries.len() ==> (#[trigger] entries[k]).0 != "type"@)
                ==> h.stage is None
            &&& 0 <= i < entries.len() && entries[i].0 == "cmd"@ ==> entries[i].1 == Tree::Text(
                h.cmd,
            )
            &&& 0 <= i < entries.len() && entries[i] == ("glob"@, Tree::Text(x)) ==> h.glob == Some(
                seq![x],
            )
            &&& 0 <= i < entries.len() && entries[i] == ("outputs"@, Tree::Text(x)) ==> h.outputs
                == Some(seq![x])
            &&& 0 <= i < entries.len() && entries[i] == ("type"@, Tree::Text(x)) ==> h.stage == Some(
                x,
            )
        },
{
    if drafted(entries, json) is Ok {
        lemma_drafted(entries, json, i);
    }
}

/// A list of patterns is read as just these, in order, and one with something else in it
/// is refused.
pub proof fn law_list_of_patterns(l: Seq<Tree>, more: Tree, json: bool)
    ensures
        patterns_in(Tree::List(Seq::<Tree>::empty()), json) == Ok::<
            Option<Seq<Seq<char>>>,
            Seq<char>,
        >(Some(Seq::<Seq<char>>::empty())),
        patterns_in(Tree::List(l), json) matches Ok(p) ==> p is Some && (more matches Tree::Text(s)
            ==> patterns_in(Tree::List(l.push(more)), json) == Ok::<
            Option<Seq<Seq<char>>>,
            Seq<char>,
        >(Some(p->0.push(s)))),
        !(more is Text) ==> patterns_in(Tree::List(l.push(more)), json) is Err,
        patterns_in(Tree::List(l), json) is Err ==> patterns_in(Tree::List(l.push(more)), json)
            is Err,
{
    assert(l.push(more).drop_last() =~= l);
}

/// A table in which every field of a hook holds what it should is read.
pub proof fn law_hook_in_order(entries: Seq<(Seq<char>, Tree)>, json: bool)
    requires
        forall|k: int|
            0 <= k < entries.len() ==> {
                let entry = #[trigger] entries[k];
                (entry.0 == "cmd"@ || entry.0 == "glob"@ || entry.0 == "outputs"@ || entry.0
                    == "type"@) ==> entry.1 is Text
            },
    ensures
        drafted(entries, json) is Ok,
        distinct_names(entries) && (exists|k: int|
            0 <= k < entries.len() && (#[trigger] entries[k]).0 == "cmd"@) ==> decoded_table(
            entries,
            json,
        ) is Ok,
    decreases entries.len(),
{
    if entries.len() > 0 {
        let less = entries.drop_last();
        assert forall|k: int| 0 <= k < less.len() implies {
            let entry = #[trigger] less[k];
            (entry.0 == "cmd"@ || entry.0 == "glob"@ || entry.0 == "outputs"@ || entry.0
                == "type"@) ==> entry.1 is Text
        } by {
            assert(less[k] == entries[k]);
        }
        law_hook_in_order(less, json);
        assert(entries[entries.len() - 1] == entries.last());
    }
    if distinct_names(entries) && exists|k: int|
        0 <= k < entries.len() && (#[trigger] entries[k]).0 == "cmd"@ {
        let k = choose|k: int| 0 <= k < entries.len() && (#[trigger] entries[k]).0 == "cmd"@;
        lemma_drafted(entries, json, k);
    }
}

/// A hook that was read has the name of its entry, its command and its stage, and filters
/// by its patterns exactly if it has some.
pub proof fn law_hook_is_as_described(hook: Hook, name: Seq<char>, h: HookSpec)
    requires
        is_hook(hook, name, h),
    ensures
        hook.name@ == name,
        hook.cmd@ == h.cmd,
        hook.glob is Some <==> h.glob is Some,
        hook.glob_matcher is Some <==> h.glob is Some,
        hook.outputs is Some <==> h.outputs is Some,
        h.stage is None ==> hook.hook_type is PreCommit,
        h.stage == Some("pre-push"@) ==> hook.hook_type is PrePush,
        h.stage == Some("commit-msg"@) ==> hook.hook_type is CommitMsg,
        h.stage == Some("prepare-commit-msg"@) ==> hook.hook_type is PrepareCommitMsg,
        h.glob matches Some(p) ==> hook.glob_matcher->0.included() == pattern::texts_of(p, false)
            && hook.glob_matcher->0.excluded() == pattern::texts_of(p, true),
        h.outputs matches Some(p) ==> hook.outputs->0.included() == pattern::texts_of(p, false)
            && hook.outputs->0.excluded() == pattern::texts_of(p, true),
{
    law_stages("pre-push"@);
}

/// The indentation of a text is that of its first line that is indented.
pub proof fn law_indentation(ls: Seq<Seq<char>>, from: int, at: int, n: int)
    requires
        0 <= from <= at < ls.len(),
        0 < n < ls[at].len(),
        forall|i: int| 0 <= i < n ==> text::is_space(#[trigger] ls[at][i]),
        !text::is_space(ls[at][n]),
        forall|k: int|
            from <= k < at ==> (#[trigger] ls[k]).len() == 0 || !text::is_space(ls[k][0]),
    ensures
        indent_from(ls, from) == ls[at].take(n),
    decreases at - from,
{
    if from < at {
        law_indentation(ls, from + 1, at, n);
        let line = ls[from];
        text::lemma_trim_start(line);
        if line.len() > 0 {
            assert(!text::is_space(line[0]));
            assert(text::trim_start(line) == line);
        }
    } else {
        let line = ls[at];
        let rest = text::trim_start(line);
        let m = line.len() - rest.len();
        text::lemma_trim_start(line);
        assert(m <= n) by {
            if m > n {
                assert(text::is_space(line[n]));
            }
        }
        assert(m >= n) by {
            if m < n {
                assert(rest[0] == line[m]);
                assert(text::is_space(ls[at][m]));
            }
        }
    }
}

/// What is not a table holds no hooks: in a `package.json` it counts for nothing, in any
/// other manifest it is an error.
pub proof fn law_hooks_that_are_no_table(kind: ManifestKind, t: Tree, c: Tree)
    requires
        document::descend(t, hooks_path(kind)) == Some(c),
        !(c is Record),
        !(c is Section),
    ensures
        kind is PackageJson ==> entries_for_hooks(kind, t) == Ok::<
            Seq<(Seq<char>, Tree)>,
            Seq<char>,
        >(Seq::<(Seq<char>, Tree)>::empty()),
        !(kind is PackageJson) ==> entries_for_hooks(kind, t) is Err,
{
    if !(kind is PackageJson) {
        lemma_no_table_at(t, hooks_path(kind), seq![], c);
    }
}

proof fn lemma_no_table_at(t: Tree, path: Seq<Seq<char>>, under: Seq<char>, c: Tree)
    requires
        document::descend(t, path) == Some(c),
        document::fields(c) is None,
    ensures
        tables_at(t, path, under) is Err,
    decreases path.len(),
{
    if path.len() > 0 {
        lemma_no_table_at(document::child(t, path[0])->0, path.skip(1), path[0], c);
    }
}

/// A manifest whose document has no place for hooks has none.
pub proof fn law_no_hooks(kind: ManifestKind, e: Seq<(Seq<char>, Tree)>)
    requires
        document::lookup(e, hooks_path(kind)[0]) is None,
    ensures
        entries_for_hooks(kind, Tree::Section(e)) == Ok::<Seq<(Seq<char>, Tree)>, Seq<char>>(
            Seq::<(Seq<char>, Tree)>::empty(),
        ),
{
}

/// One entry that describes no hook fails its manifest; the hooks of one in order are what
/// its entries describe, one for one.
pub proof fn law_strict_reading(entries: Seq<(Seq<char>, Tree)>, json: bool, i: int)
    requires
        0 <= i < entries.len(),
    ensures
        decoded(entries[i].1, json) is Err ==> hooks_in(entries, json) is Err,
        distinct_names(entries) && hooks_in(entries, json) is Ok ==> ({
            let list = hooks_in(entries, json)->Ok_0;
            &&& list.len() == entries.len()
            &&& list[i].0 == entries[i].0
            &&& decoded(entries[i].1, json) == Ok::<HookSpec, Seq<char>>(list[i].1)
        }),
{
    if decoded(entries[i].1, json) is Err {
        assert(entries.take(i + 1).drop_last() =~= entries.take(i));
        assert(entries.take(i + 1).last() == entries[i]);
        assert(hooks_in(entries.take(i + 1), json) is Err);
        lemma_hooks_stop(entries, i + 1, json);
    }
    if distinct_names(entries) && hooks_in(entries, json) is Ok {
        lemma_hooks_one_for_one(entries, json);
        assert(describes(entries[i], hooks_in(entries, json)->Ok_0[i], json));
    }
}

/// A lenient reading reports an entry under its name: as the hook that it describes, or as
/// failed. One that describes none has failed, and one whose patterns are portable has
/// failed only if they are not valid.
pub proof fn law_lenient_reading(r: HookResult, entry: (Seq<char>, Tree))
    requires
        is_lenient_result(r, entry),
    ensures
        decoded(entry.1, true) is Err ==> r is Failed && r->error@ == decoded(
            entry.1,
            true,
        )->Err_0,
        r matches HookResult::Failed { name, error } ==> name@ == entry.0,
        r matches HookResult::Parsed(hook) ==> hook.name@ == entry.0 && decoded(
            entry.1,
            true,
        ) is Ok && hook.cmd@ == decoded(entry.1, true)->Ok_0.cmd,
        decoded(entry.1, true) matches Ok(h) ==> (h.glob is None && h.outputs is None
            ==> r is Parsed),
{
    match decoded(entry.1, true) {
        Ok(h) => {
            if h.glob is None && h.outputs is None && r is Failed {
                let e = r->error@;
                assert(!is_pattern_error(e, h.glob) && !is_pattern_error(e, h.outputs));
            }
        },
        Err(_) => {},
    }
}

/// What is no table and no list describes no hook, and neither does a list without a
/// command and two items more.
pub proof fn law_no_hook(t: Tree, l: Seq<Tree>, json: bool)
    ensures
        t is Null || t is Bool || t is Number || t is Float || t is Text || t is Date ==> decoded(
            t,
            json,
        ) is Err,
        l.len() < 3 ==> decoded(Tree::List(l), json) is Err,
        l.len() > 0 && !(l[0] is Text) ==> decoded(Tree::List(l), json) is Err,
        decoded(Tree::List(l), json) matches Ok(h) ==> l[0] == Tree::Text(h.cmd) && h.outputs is None
            && (l[1] matches Tree::Text(p) ==> h.glob == Some(seq![p])) && (l[2]
            matches Tree::Text(s) ==> h.stage == Some(s)) && (json ==> l.len() == 3),
        t is Text ==> decoded(t, json)->Err_0 == "invalid type: "@ + text_said(t->Text_0)
            + ", expected "@ + "struct HookConfig"@,
        t is Null ==> decoded(t, json)->Err_0 == "invalid type: "@ + "null"@ + ", expected "@
            + "struct HookConfig"@,
{
}

/// What is said of a file that is no manifest names it.
pub proof fn law_unsupported(dir: Seq<char>, name: Seq<char>)
    requires
        path::is_name(name),
    ensures
        unsupported(dir + seq!['/'] + name) == "unsupported manifest: "@ + name,
        unsupported(name) == "unsupported manifest: "@ + name,
{
    path::law_file_name(dir, name);
}

/// A text without an indented line is indented by two spaces.
#[verifier::spinoff_prover]
pub proof fn law_no_indentation(ls: Seq<Seq<char>>, from: int)
    requires
        0 <= from,
        forall|k: int|
            from <= k < ls.len() ==> (#[trigger] ls[k]).len() == 0 || !text::is_space(ls[k][0]),
    ensures
        indent_from(ls, from) == seq![' ', ' '],
    decreases ls.len() - from,
{
    if from < ls.len() {
        let line = ls[from];
        text::lemma_trim_start(line);
        if line.len() > 0 {
            assert(!text::is_space(line[0]));
            assert(text::trim_start(line) == line);
        }
        assert(!is_indented(line));
        law_no_indentation(ls, from + 1);
        assert(indent_from(ls, from) == indent_from(ls, from + 1));
    } else {
        reveal_strlit("  ");
        assert("  "@ =~= seq![' ', ' ']);
        assert(indent_from(ls, from) == "  "@);
    }
}

/// A hook can run if its patterns and its outputs can be compiled, and a manifest if all of
/// its hooks can. What is wrong with the patterns is said first, and what is wrong with the
/// outputs only if nothing is wrong with the patterns.
pub proof fn law_runnable_hooks(
    list: Seq<(Seq<char>, HookSpec)>,
    h: (Seq<char>, HookSpec),
    e: Seq<char>,
)
    ensures
        all_runnable(Seq::<(Seq<char>, HookSpec)>::empty()),
        all_runnable(list.push(h)) <==> all_runnable(list) && is_runnable(h.1),
        h.1.glob is None && h.1.outputs is None ==> is_runnable(h.1) && !is_hook_error(e, h.1),
        is_pattern_error(e, h.1.glob) ==> is_hook_error(e, h.1),
        is_pattern_error(e, h.1.outputs) && h.1.glob is None ==> is_hook_error(e, h.1),
        is_hook_error(e, h.1) && !is_pattern_error(e, h.1.glob) ==> is_pattern_error(
            e,
            h.1.outputs,
        ) && compiles(h.1.glob),
        is_runnable(h.1) <==> (h.1.glob matches Some(p) ==> pattern::all_valid(
            pattern::all_texts(p),
        )) && (h.1.outputs matches Some(p) ==> pattern::all_valid(pattern::all_texts(p))),
{
    let more = list.push(h);
    if all_runnable(more) {
        assert forall|i: int| 0 <= i < list.len() implies is_runnable((#[trigger] list[i]).1) by {
            assert(more[i] == list[i]);
        }
        assert(more[list.len() as int] == h);
    }
    if all_runnable(list) && is_runnable(h.1) {
        assert forall|i: int| 0 <= i < more.len() implies is_runnable((#[trigger] more[i]).1) by {
            if i < list.len() {
                assert(more[i] == list[i]);
            }
        }
    }
}

} // verus!
