//! Setting up hooks: which tools a project uses, and how their hooks get into
//! its manifests.

use crate::config;
use crate::document;
use crate::document::{Node, Tree};
use crate::json;
use crate::knowledge;
use crate::path;
use crate::splice;
use crate::style;
use crate::text;
use crate::toml;
use vstd::prelude::*;
use vstd::string::*;

verus! {

broadcast use {group_string_axioms, vstd::seq::group_seq_axioms};

// ---- development dependencies ----

/// A character that ends the name in a Python dependency.
pub open spec fn ends_name(c: char) -> bool {
    c == '>' || c == '<' || c == '=' || c == '~' || c == '!' || c == '[' || c == ' ' || c == ';'
}

/// The length of the name that a Python dependency begins with.
pub open spec fn name_len(s: Seq<char>) -> int
    decreases s.len(),
{
    if s.len() == 0 || ends_name(s[0]) {
        0
    } else {
        1 + name_len(s.skip(1))
    }
}

/// The name of a Python dependency, without its version and its extras.
pub open spec fn pkg_name(spec_text: Seq<char>) -> Seq<char> {
    text::trim(spec_text).take(name_len(text::trim(spec_text)))
}

/// The name of a Python dependency, without its version and its extras.
pub fn extract_pkg_name(spec_text: &str) -> (r: String)
    ensures
        r@ == pkg_name(spec_text@),
{
    let trimmed = text::trimmed(spec_text);
    let v = text::chars_of(trimmed.as_str());
    let mut n: usize = 0;
    proof {
        assert(v@.skip(0) =~= v@);
    }
    while n < v.len() && !(v[n] == '>' || v[n] == '<' || v[n] == '=' || v[n] == '~' || v[n] == '!'
        || v[n] == '[' || v[n] == ' ' || v[n] == ';')
        invariant
            n <= v.len(),
            name_len(v@) == n + name_len(v@.skip(n as int)),
        decreases v.len() - n,
    {
        proof {
            assert(v@.skip(n as int)[0] == v@[n as int]);
            assert(v@.skip(n as int).skip(1) =~= v@.skip(n + 1));
        }
        n += 1;
    }
    proof {
        if n < v.len() {
            assert(v@.skip(n as int)[0] == v@[n as int]);
        }
        assert(v@.subrange(0, n as int) =~= v@.take(n as int));
    }
    text::substring(&v, 0, n)
}

/// The names of the Python dependencies in a list; what is not a text in it does
/// not count.
pub open spec fn pkg_names(l: Seq<Tree>) -> Seq<Seq<char>>
    decreases l.len(),
{
    if l.len() == 0 {
        seq![]
    } else {
        match l.last() {
            Tree::Text(s) => pkg_names(l.drop_last()).push(pkg_name(s)),
            _ => pkg_names(l.drop_last()),
        }
    }
}

/// The names of the Python dependencies at one place.
pub open spec fn listed_deps(t: Option<Tree>) -> Seq<Seq<char>> {
    match t {
        Some(Tree::List(l)) => pkg_names(l),
        _ => seq![],
    }
}

/// The names of entries.
pub open spec fn entry_names(entries: Seq<(Seq<char>, Tree)>) -> Seq<Seq<char>> {
    Seq::new(entries.len(), |i: int| entries[i].0)
}

/// The names of the entries of a section.
pub open spec fn section_deps(t: Option<Tree>) -> Seq<Seq<char>> {
    match t {
        Some(Tree::Section(e)) => entry_names(e),
        _ => seq![],
    }
}

/// The development dependencies of a `pyproject.toml`: the optional dependencies
/// and the dependency group named `dev`, and Poetry's group of that name.
pub open spec fn pyproject_deps(t: Tree) -> Seq<Seq<char>> {
    listed_deps(document::descend(t, seq!["project"@, "optional-dependencies"@, "dev"@]))
        + listed_deps(document::descend(t, seq!["dependency-groups"@, "dev"@])) + section_deps(
        document::descend(t, seq!["tool"@, "poetry"@, "group"@, "dev"@, "dependencies"@]),
    )
}

/// The development dependencies of a `package.json`.
pub open spec fn package_deps(t: Tree) -> Seq<Seq<char>> {
    match document::child(t, "devDependencies"@) {
        Some(Tree::Record(e)) => entry_names(e),
        _ => seq![],
    }
}

/// The development dependencies of a manifest. One that cannot be parsed has
/// none.
pub open spec fn dev_deps(kind: config::ManifestKind, content: Seq<char>) -> Seq<Seq<char>> {
    match config::manifest_tree(kind, content) {
        Err(_) => seq![],
        Ok(t) => match kind {
            config::ManifestKind::Pyproject => pyproject_deps(t),
            config::ManifestKind::PackageJson => package_deps(t),
            config::ManifestKind::Cargo => section_deps(document::child(t, "dev-dependencies"@)),
            config::ManifestKind::NizmToml => seq![],
        },
    }
}

/// The manifest is that of a Rust package.
pub open spec fn is_rust_package(kind: config::ManifestKind, content: Seq<char>) -> bool {
    kind == config::ManifestKind::Cargo && match config::manifest_tree(kind, content) {
        Ok(t) => document::child(t, "package"@) is Some,
        Err(_) => false,
    }
}

/// A path of keys.
fn path_of(keys: &Vec<&'static str>) -> (r: Vec<String>)
    ensures
        text::views(r@) == text::str_views(keys@),
{
    let mut r: Vec<String> = Vec::new();
    let mut i: usize = 0;
    while i < keys.len()
        invariant
            i <= keys.len(),
            text::views(r@) =~= text::str_views(keys@).take(i as int),
        decreases keys.len() - i,
    {
        let ghost before = text::views(r@);
        r.push(String::from_str(keys[i]));
        proof {
            assert(text::views(r@) =~= before.push(keys@[i as int]@));
        }
        i += 1;
    }
    proof {
        assert(text::views(r@) =~= text::str_views(keys@));
    }
    r
}

/// Adds the names of the Python dependencies at one place.
fn add_listed(out: &mut Vec<String>, n: Option<&Node>)
    ensures
        text::views(final(out)@) == text::views(old(out)@) + listed_deps(document::tree_at(n)),
{
    let ghost start = text::views(out@);
    match n {
        Some(node) => match node {
            Node::List(l) => {
                let ghost all = document::trees(l@);
                let mut i: usize = 0;
                proof {
                    document::lemma_list_tree(*l);
                    assert(pkg_names(all.take(0)) =~= seq![]);
                }
                while i < l.len()
                    invariant
                        i <= l.len(),
                        all == document::trees(l@),
                        text::views(out@) =~= start + pkg_names(all.take(i as int)),
                    decreases l.len() - i,
                {
                    let ghost before = text::views(out@);
                    proof {
                        assert(all.take(i + 1).drop_last() =~= all.take(i as int));
                        assert(all.take(i + 1).last() == document::tree_of(l@[i as int]));
                    }
                    match &l[i] {
                        Node::Text(s) => {
                            out.push(extract_pkg_name(s.as_str()));
                            proof {
                                assert(text::views(out@) =~= before.push(pkg_name(s@)));
                            }
                        },
                        _ => {},
                    }
                    i += 1;
                }
                proof {
                    assert(all.take(i as int) =~= all);
                }
            },
            _ => {},
        },
        None => {},
    }
    proof {
        assert(text::views(out@) =~= start + listed_deps(document::tree_at(n)));
    }
}

/// Adds the names of entries.
fn add_names(out: &mut Vec<String>, entries: &Vec<(String, Node)>)
    ensures
        text::views(final(out)@) == text::views(old(out)@) + entry_names(
            document::entries_of(entries@),
        ),
{
    let ghost start = text::views(out@);
    let ghost all = entry_names(document::entries_of(entries@));
    let mut i: usize = 0;
    proof {
        assert(start + all.take(0) =~= start);
    }
    while i < entries.len()
        invariant
            i <= entries.len(),
            all == entry_names(document::entries_of(entries@)),
            text::views(out@) =~= start + all.take(i as int),
        decreases entries.len() - i,
    {
        let ghost before = text::views(out@);
        out.push(entries[i].0.clone());
        proof {
            assert(text::views(out@) =~= before.push(all[i as int]));
        }
        i += 1;
    }
    proof {
        assert(all.take(i as int) =~= all);
    }
}

/// Adds the names of the entries of a section.
fn add_section(out: &mut Vec<String>, n: Option<&Node>)
    ensures
        text::views(final(out)@) == text::views(old(out)@) + section_deps(document::tree_at(n)),
{
    let ghost start = text::views(out@);
    match n {
        Some(node) => match node {
            Node::Section(e) => {
                proof {
                    document::lemma_entries_tree(*e);
                }
                add_names(out, e);
            },
            _ => {},
        },
        None => {},
    }
    proof {
        assert(text::views(out@) =~= start + section_deps(document::tree_at(n)));
    }
}

/// The development dependencies of a manifest, and whether it is that of a Rust
/// package.
pub fn read_devdeps(kind: config::ManifestKind, content: &str) -> (r: (Vec<String>, bool))
    ensures
        text::views(r.0@) == dev_deps(kind, content@),
        r.1 == is_rust_package(kind, content@),
{
    let mut deps: Vec<String> = Vec::new();
    proof {
        assert(text::views(deps@) =~= seq![]);
    }
    let node = match config::read_manifest(kind, content) {
        Ok(n) => n,
        Err(_) => return (deps, false),
    };
    let ghost t = document::tree_of(node);
    match kind {
        config::ManifestKind::Pyproject => {
            let first: Vec<&'static str> = vec!["project", "optional-dependencies", "dev"];
            let second: Vec<&'static str> = vec!["dependency-groups", "dev"];
            let third: Vec<&'static str> = vec!["tool", "poetry", "group", "dev", "dependencies"];
            proof {
                assert(text::str_views(first@) =~= seq![
                    "project"@,
                    "optional-dependencies"@,
                    "dev"@,
                ]);
                assert(text::str_views(second@) =~= seq!["dependency-groups"@, "dev"@]);
                assert(text::str_views(third@) =~= seq![
                    "tool"@,
                    "poetry"@,
                    "group"@,
                    "dev"@,
                    "dependencies"@,
                ]);
            }
            add_listed(&mut deps, node.at(&path_of(&first)));
            add_listed(&mut deps, node.at(&path_of(&second)));
            add_section(&mut deps, node.at(&path_of(&third)));
            proof {
                assert(text::views(deps@) =~= pyproject_deps(t));
            }
            (deps, false)
        },
        config::ManifestKind::PackageJson => {
            match node.get("devDependencies") {
                Some(d) => match d {
                    Node::Record(e) => {
                        proof {
                            document::lemma_entries_tree(*e);
                        }
                        add_names(&mut deps, e);
                    },
                    _ => {},
                },
                None => {},
            }
            proof {
                assert(text::views(deps@) =~= package_deps(t));
            }
            (deps, false)
        },
        config::ManifestKind::Cargo => {
            add_section(&mut deps, node.get("dev-dependencies"));
            proof {
                assert(text::views(deps@) =~= section_deps(
                    document::child(t, "dev-dependencies"@),
                ));
            }
            (deps, node.get("package").is_some())
        },
        config::ManifestKind::NizmToml => (deps, false),
    }
}

// ---- suggestions ----

/// A hook that could be added to a manifest.
#[derive(Debug)]
pub struct Suggestion {
    pub manifest: String,
    pub entry: knowledge::ToolEntry,
}

/// What a suggestion says.
pub struct Suggested {
    pub manifest: Seq<char>,
    pub tool: knowledge::Tool,
}

impl View for Suggestion {
    type V = Suggested;

    open spec fn view(&self) -> Suggested {
        Suggested { manifest: self.manifest@, tool: self.entry@ }
    }
}

/// What a list of suggestions says.
pub open spec fn suggested(v: Seq<Suggestion>) -> Seq<Suggested> {
    Seq::new(v.len(), |i: int| v[i]@)
}

/// Suggestions of tools for a manifest, but for those that have hooks there.
pub open spec fn offers(
    manifest: Seq<char>,
    tools: Seq<knowledge::Tool>,
    existing: Seq<Seq<char>>,
) -> Seq<Suggested>
    decreases tools.len(),
{
    if tools.len() == 0 {
        seq![]
    } else {
        let front = offers(manifest, tools.drop_last(), existing);
        if existing.contains(tools.last().name) {
            front
        } else {
            front.push(Suggested { manifest, tool: tools.last() })
        }
    }
}

/// The tools that dependencies stand for.
pub open spec fn tools_of_deps(deps: Seq<Seq<char>>) -> Seq<knowledge::Tool>
    decreases deps.len(),
{
    if deps.len() == 0 {
        seq![]
    } else {
        tools_of_deps(deps.drop_last()) + knowledge::tools_for(deps.last())
    }
}

/// The tools that a project uses: those of its dependencies, and Rust's own for
/// a Rust package.
pub open spec fn tools_in_use(deps: Seq<Seq<char>>, rust_package: bool) -> Seq<knowledge::Tool> {
    if rust_package {
        tools_of_deps(deps) + knowledge::rust_tools()
    } else {
        tools_of_deps(deps)
    }
}

proof fn lemma_offers_concat(
    manifest: Seq<char>,
    a: Seq<knowledge::Tool>,
    b: Seq<knowledge::Tool>,
    existing: Seq<Seq<char>>,
)
    ensures
        offers(manifest, a + b, existing) == offers(manifest, a, existing) + offers(
            manifest,
            b,
            existing,
        ),
    decreases b.len(),
{
    if b.len() == 0 {
        assert(a + b =~= a);
    } else {
        lemma_offers_concat(manifest, a, b.drop_last(), existing);
        assert((a + b).drop_last() =~= a + b.drop_last());
        assert((a + b).last() == b.last());
        assert(offers(manifest, a + b, existing) =~= offers(manifest, a, existing) + offers(
            manifest,
            b,
            existing,
        ));
    }
}

/// Adds suggestions of tools for a manifest, but for those that have hooks there.
fn offer(
    out: &mut Vec<Suggestion>,
    manifest: &str,
    tools: Vec<knowledge::ToolEntry>,
    existing: &Vec<String>,
)
    ensures
        suggested(final(out)@) == suggested(old(out)@) + offers(
            manifest@,
            knowledge::tools_of(tools@),
            text::views(existing@),
        ),
{
    let ghost start = suggested(out@);
    let ghost all = knowledge::tools_of(tools@);
    let ghost known = text::views(existing@);
    let mut rest = tools;
    let ghost mut k: int = 0;
    proof {
        assert(all.skip(0) =~= all);
        assert(start + offers(manifest@, all.take(0), known) =~= start);
    }
    while rest.len() > 0
        invariant
            0 <= k <= all.len(),
            rest.len() == all.len() - k,
            knowledge::tools_of(rest@) == all.skip(k),
            known == text::views(existing@),
            suggested(out@) == start + offers(manifest@, all.take(k), known),
        decreases rest.len(),
    {
        let ghost before = suggested(out@);
        let ghost first = all[k];
        proof {
            assert(knowledge::tools_of(rest@)[0] == first);
            assert(all.take(k + 1).drop_last() =~= all.take(k));
            assert(all.take(k + 1).last() == first);
            assert(all.skip(k).skip(1) =~= all.skip(k + 1));
            assert(knowledge::tools_of(rest@).skip(1) =~= knowledge::tools_of(rest@.remove(0)));
        }
        let entry = rest.remove(0);
        if !text::listed(existing, entry.name) {
            out.push(Suggestion { manifest: String::from_str(manifest), entry });
            proof {
                let s = Suggested { manifest: manifest@, tool: first };
                assert(suggested(out@) =~= before.push(s));
                assert(before.push(s) =~= start + offers(manifest@, all.take(k), known).push(s));
            }
        }
        proof {
            k = k + 1;
        }
    }
    proof {
        assert(all.take(k) =~= all);
    }
}

/// The hooks that could be added to a manifest: those of the tools in use that
/// have none there.
pub fn suggest(
    manifest: &str,
    existing: &Vec<String>,
    deps: &Vec<String>,
    rust_package: bool,
) -> (r: Vec<Suggestion>)
    ensures
        suggested(r@) == offers(
            manifest@,
            tools_in_use(text::views(deps@), rust_package),
            text::views(existing@),
        ),
{
    let mut out: Vec<Suggestion> = Vec::new();
    let ghost all = text::views(deps@);
    let ghost known = text::views(existing@);
    let mut i: usize = 0;
    proof {
        assert(all.take(0).len() == 0);
        assert(suggested(out@) =~= offers(manifest@, tools_of_deps(all.take(0)), known));
    }
    while i < deps.len()
        invariant
            i <= deps.len(),
            all == text::views(deps@),
            known == text::views(existing@),
            suggested(out@) == offers(manifest@, tools_of_deps(all.take(i as int)), known),
        decreases deps.len() - i,
    {
        proof {
            assert(all.take(i + 1).drop_last() =~= all.take(i as int));
            assert(all.take(i + 1).last() == deps@[i as int]@);
            lemma_offers_concat(
                manifest@,
                tools_of_deps(all.take(i as int)),
                knowledge::tools_for(deps@[i as int]@),
                known,
            );
        }
        offer(&mut out, manifest, knowledge::lookup(deps[i].as_str()), existing);
        i += 1;
    }
    proof {
        assert(all.take(i as int) =~= all);
    }
    if rust_package {
        proof {
            lemma_offers_concat(manifest@, tools_of_deps(all), knowledge::rust_tools(), known);
        }
        offer(&mut out, manifest, knowledge::rust_implicit(), existing);
    }
    out
}

/// The names of the hooks that a manifest describes; none if it is not in order.
pub open spec fn existing_hooks(path: Seq<char>, content: Seq<char>) -> Seq<Seq<char>> {
    match config::kind_at(path) {
        None => seq![],
        Some(kind) => match config::manifest_hooks(kind, content) {
            Err(_) => seq![],
            Ok(list) => config::names_in(list),
        },
    }
}

/// The names of the hooks that a manifest describes.
pub fn hook_names(path: &str, content: &str) -> (r: Vec<String>)
    ensures
        text::views(r@) == existing_hooks(path@, content@),
{
    let none: Vec<String> = Vec::new();
    proof {
        assert(text::views(none@) =~= seq![]);
    }
    match config::kind_of_path(path) {
        Ok(kind) => match config::read_hook_names(kind, content) {
            Ok(names) => names,
            Err(_) => none,
        },
        Err(_) => none,
    }
}

/// The manifest names tools: by its development dependencies, or by being that of
/// a Rust package.
pub open spec fn names_tools(path: Seq<char>, content: Seq<char>) -> bool {
    match config::kind_at(path) {
        None => false,
        Some(kind) => dev_deps(kind, content).len() > 0 || is_rust_package(kind, content),
    }
}

/// The hooks that could be added to a manifest.
pub open spec fn scan_offers(path: Seq<char>, content: Seq<char>) -> Seq<Suggested> {
    match config::kind_at(path) {
        None => seq![],
        Some(kind) => offers(
            path,
            tools_in_use(dev_deps(kind, content), is_rust_package(kind, content)),
            existing_hooks(path, content),
        ),
    }
}

/// What a scan of one manifest finds: the hooks that could be added to it, and
/// whether it names any tools at all.
pub fn scan_manifest(path: &str, content: &str) -> (r: (Vec<Suggestion>, bool))
    ensures
        suggested(r.0@) == scan_offers(path@, content@),
        r.1 == names_tools(path@, content@),
{
    let kind = match config::kind_of_path(path) {
        Ok(k) => k,
        Err(_) => {
            let none: Vec<Suggestion> = Vec::new();
            proof {
                assert(suggested(none@) =~= Seq::<Suggested>::empty());
            }
            return (none, false);
        },
    };
    let existing = hook_names(path, content);
    let (deps, rust_package) = read_devdeps(kind, content);
    proof {
        assert(text::views(deps@).len() == deps@.len());
    }
    let found = suggest(path, &existing, &deps, rust_package);
    (found, deps.len() > 0 || rust_package)
}

/// A suggestion for that manifest under that name.
pub open spec fn holds(list: Seq<Suggested>, s: Suggested) -> bool {
    exists|i: int|
        0 <= i < list.len() && (#[trigger] list[i]).manifest == s.manifest && list[i].tool.name
            == s.tool.name
}

/// The suggestions, each name once for each manifest: the first that came.
pub open spec fn unique(list: Seq<Suggested>) -> Seq<Suggested>
    decreases list.len(),
{
    if list.len() == 0 {
        seq![]
    } else {
        let front = unique(list.drop_last());
        if holds(front, list.last()) {
            front
        } else {
            front.push(list.last())
        }
    }
}

/// Is there a suggestion for that manifest under that name?
fn is_held(list: &Vec<Suggestion>, s: &Suggestion) -> (r: bool)
    ensures
        r == holds(suggested(list@), s@),
{
    let ghost all = suggested(list@);
    let mut i: usize = 0;
    while i < list.len()
        invariant
            i <= list.len(),
            all == suggested(list@),
            forall|j: int|
                0 <= j < i ==> !((#[trigger] all[j]).manifest == s@.manifest && all[j].tool.name
                    == s@.tool.name),
        decreases list.len() - i,
    {
        proof {
            assert(all[i as int] == list@[i as int]@);
        }
        if text::same(list[i].manifest.as_str(), s.manifest.as_str()) && text::same(
            list[i].entry.name,
            s.entry.name,
        ) {
            return true;
        }
        i += 1;
    }
    false
}

/// The suggestions, each name once for each manifest.
pub fn deduplicate(list: Vec<Suggestion>) -> (r: Vec<Suggestion>)
    ensures
        suggested(r@) == unique(suggested(list@)),
{
    let ghost all = suggested(list@);
    let mut rest = list;
    let mut out: Vec<Suggestion> = Vec::new();
    let ghost mut k: int = 0;
    proof {
        assert(all.skip(0) =~= all);
        assert(suggested(out@) =~= unique(all.take(0)));
    }
    while rest.len() > 0
        invariant
            0 <= k <= all.len(),
            rest.len() == all.len() - k,
            suggested(rest@) == all.skip(k),
            suggested(out@) == unique(all.take(k)),
        decreases rest.len(),
    {
        let ghost before = suggested(out@);
        proof {
            assert(suggested(rest@)[0] == all[k]);
            assert(all.take(k + 1).drop_last() =~= all.take(k));
            assert(all.take(k + 1).last() == all[k]);
            assert(all.skip(k).skip(1) =~= all.skip(k + 1));
            assert(suggested(rest@).skip(1) =~= suggested(rest@.remove(0)));
        }
        let s = rest.remove(0);
        if !is_held(&out, &s) {
            out.push(s);
            proof {
                assert(suggested(out@) =~= before.push(all[k]));
            }
        }
        proof {
            k = k + 1;
        }
    }
    proof {
        assert(all.take(k) =~= all);
    }
    out
}

/// The hooks that could be added to manifests, one manifest after the other.
pub open spec fn all_offers(files: Seq<(Seq<char>, Seq<char>)>) -> Seq<Suggested>
    decreases files.len(),
{
    if files.len() == 0 {
        seq![]
    } else {
        all_offers(files.drop_last()) + scan_offers(files.last().0, files.last().1)
    }
}

/// The hooks that could be added to manifests, each name once for each manifest,
/// and whether any manifest names tools. The manifests are given by path and
/// content.
pub fn collect_suggestions(files: &Vec<(String, String)>) -> (r: (Vec<Suggestion>, bool))
    ensures
        suggested(r.0@) == unique(all_offers(toml::pairs(files@))),
        r.1 == (exists|i: int|
            0 <= i < files@.len() && names_tools((#[trigger] files@[i]).0@, files@[i].1@)),
{
    let ghost all = toml::pairs(files@);
    let mut found: Vec<Suggestion> = Vec::new();
    let mut any = false;
    let mut i: usize = 0;
    proof {
        assert(suggested(found@) =~= all_offers(all.take(0)));
    }
    while i < files.len()
        invariant
            i <= files.len(),
            all == toml::pairs(files@),
            suggested(found@) == all_offers(all.take(i as int)),
            any == (exists|j: int|
                0 <= j < i && names_tools((#[trigger] files@[j]).0@, files@[j].1@)),
        decreases files.len() - i,
    {
        let ghost before = suggested(found@);
        proof {
            assert(all.take(i + 1).drop_last() =~= all.take(i as int));
            assert(all.take(i + 1).last() == all[i as int]);
            assert(all[i as int] == (files@[i as int].0@, files@[i as int].1@));
        }
        let (mut more, names) = scan_manifest(files[i].0.as_str(), files[i].1.as_str());
        let ghost added = suggested(more@);
        proof {
            if names {
                assert(names_tools(files@[i as int].0@, files@[i as int].1@));
            }
        }
        any = any || names;
        found.append(&mut more);
        proof {
            assert(suggested(found@) =~= before + added);
        }
        i += 1;
    }
    proof {
        assert(all.take(i as int) =~= all);
    }
    (deduplicate(found), any)
}

/// No manifest is offered the same name twice.
pub proof fn law_unique_suggestions(list: Seq<Suggested>, i: int, j: int)
    requires
        0 <= i < j < unique(list).len(),
    ensures
        unique(list)[i].manifest != unique(list)[j].manifest || unique(list)[i].tool.name
            != unique(list)[j].tool.name,
    decreases list.len(),
{
    let front = unique(list.drop_last());
    if j < front.len() {
        law_unique_suggestions(list.drop_last(), i, j);
    } else {
        assert(!holds(front, list.last()));
        assert(front[i] == unique(list)[i]);
    }
}

/// A tool is offered to a manifest exactly if it is in use and has no hook there.
pub proof fn law_offered(
    manifest: Seq<char>,
    tools: Seq<knowledge::Tool>,
    existing: Seq<Seq<char>>,
    s: Suggested,
)
    ensures
        offers(manifest, tools, existing).contains(s) <==> s.manifest == manifest
            && tools.contains(s.tool) && !existing.contains(s.tool.name),
    decreases tools.len(),
{
    if tools.len() > 0 {
        let front = tools.drop_last();
        let last = tools.last();
        law_offered(manifest, front, existing, s);
        let before = offers(manifest, front, existing);
        let all = offers(manifest, tools, existing);
        if all.contains(s) {
            if before.contains(s) {
                let i = choose|i: int| 0 <= i < front.len() && front[i] == s.tool;
                assert(tools[i] == s.tool);
            } else {
                assert(tools[tools.len() - 1] == s.tool);
            }
        }
        if s.manifest == manifest && tools.contains(s.tool) && !existing.contains(s.tool.name) {
            if front.contains(s.tool) {
                let k = choose|k: int| 0 <= k < before.len() && before[k] == s;
                assert(all[k] == s);
            } else {
                let i = choose|i: int| 0 <= i < tools.len() && tools[i] == s.tool;
                if i < front.len() {
                    assert(front[i] == s.tool);
                }
                assert(all[all.len() - 1] == s);
            }
        }
    }
}

/// Where a name ends: behind characters that do not end it, at one that does or at the
/// end of the text.
proof fn lemma_name_len(s: Seq<char>, n: int)
    requires
        0 <= n <= s.len(),
        forall|i: int| 0 <= i < n ==> !ends_name(#[trigger] s[i]),
        n < s.len() ==> ends_name(s[n]),
    ensures
        name_len(s) == n,
    decreases n,
{
    if n > 0 {
        assert(!ends_name(s[0]));
        let rest = s.skip(1);
        assert forall|i: int| 0 <= i < n - 1 implies !ends_name(#[trigger] rest[i]) by {
            assert(rest[i] == s[i + 1]);
        }
        if n < s.len() {
            assert(rest[n - 1] == s[n]);
        }
        lemma_name_len(rest, n - 1);
    }
}

/// The name of a dependency is what it begins with, whatever is behind it: a version
/// with any operator, extras in brackets, a marker behind a semicolon, or something
/// behind a space. White space around it does not count.
pub proof fn law_name_of_dependency(lead: Seq<char>, name: Seq<char>, rest: Seq<char>)
    requires
        forall|i: int| 0 <= i < lead.len() ==> text::is_space(#[trigger] lead[i]),
        name.len() > 0,
        forall|i: int|
            0 <= i < name.len() ==> ('a' <= #[trigger] name[i] <= 'z' || 'A' <= name[i] <= 'Z'
                || '0' <= name[i] <= '9' || name[i] == '-' || name[i] == '_' || name[i] == '.'
                || name[i] == '/' || name[i] == '@'),
        rest.len() > 0 ==> (rest[0] == '=' || rest[0] == '>' || rest[0] == '<' || rest[0] == '~'
            || rest[0] == '!' || rest[0] == '[' || rest[0] == ';' || rest[0] == ' '),
    ensures
        pkg_name(lead + name + rest) == name,
{
    let n = name.len() as int;
    let kept = text::trim_end(rest);
    let trail = rest.skip(kept.len() as int);
    let core = name + kept;
    text::lemma_trim_end(rest);
    assert(!text::is_space(name[0]) && !text::is_space(name[n - 1]));
    assert forall|i: int| 0 <= i < trail.len() implies text::is_space(#[trigger] trail[i]) by {
        assert(trail[i] == rest[kept.len() + i]);
    }
    assert(core.last() == if kept.len() > 0 {
        kept.last()
    } else {
        name[n - 1]
    });
    assert(kept + trail =~= rest);
    assert(lead + core + trail =~= lead + name + rest);
    text::law_trim(lead, core, trail);
    if kept.len() > 0 {
        assert(core[n] == kept[0]);
        assert(kept[0] == rest[0]);
    }
    assert forall|i: int| 0 <= i < n implies !ends_name(#[trigger] core[i]) by {
        assert(core[i] == name[i]);
    }
    lemma_name_len(core, n);
    assert(core.take(n) =~= name);
}

/// The names in a list of dependencies are those of its texts, and no others.
pub proof fn law_listed_names(l: Seq<Tree>, name: Seq<char>)
    ensures
        pkg_names(l).contains(name) <==> exists|i: int, s: Seq<char>|
            0 <= i < l.len() && #[trigger] l[i] == Tree::Text(s) && #[trigger] pkg_name(s) == name,
    decreases l.len(),
{
    if l.len() > 0 {
        let front = l.drop_last();
        let less = pkg_names(front);
        let all = pkg_names(l);
        law_listed_names(front, name);
        if less.contains(name) {
            let k = choose|k: int| 0 <= k < less.len() && less[k] == name;
            assert(all[k] == name);
            let (i, s) = choose|i: int, s: Seq<char>|
                0 <= i < front.len() && #[trigger] front[i] == Tree::Text(s)
                    && #[trigger] pkg_name(s) == name;
            assert(l[i] == Tree::Text(s));
        }
        match l.last() {
            Tree::Text(s) => {
                assert(all.last() == pkg_name(s));
                if pkg_name(s) == name {
                    assert(all[all.len() - 1] == name);
                    assert(l[l.len() - 1] == Tree::Text(s));
                }
            },
            _ => {},
        }
        if exists|i: int, s: Seq<char>|
            0 <= i < l.len() && #[trigger] l[i] == Tree::Text(s) && #[trigger] pkg_name(s)
                == name {
            let (i, s) = choose|i: int, s: Seq<char>|
                0 <= i < l.len() && #[trigger] l[i] == Tree::Text(s) && #[trigger] pkg_name(s)
                    == name;
            if i < front.len() {
                assert(front[i] == Tree::Text(s));
            }
        }
    }
}

/// The tools of dependencies are those of each of them, and no others.
pub proof fn law_tools_of_dependencies(deps: Seq<Seq<char>>, t: knowledge::Tool)
    ensures
        tools_of_deps(deps).contains(t) <==> exists|i: int|
            0 <= i < deps.len() && knowledge::tools_for(#[trigger] deps[i]).contains(t),
    decreases deps.len(),
{
    if deps.len() > 0 {
        let front = deps.drop_last();
        let less = tools_of_deps(front);
        let more = knowledge::tools_for(deps.last());
        let all = tools_of_deps(deps);
        law_tools_of_dependencies(front, t);
        if less.contains(t) {
            let k = choose|k: int| 0 <= k < less.len() && less[k] == t;
            assert(all[k] == t);
            let i = choose|i: int|
                0 <= i < front.len() && knowledge::tools_for(#[trigger] front[i]).contains(t);
            assert(deps[i] == front[i]);
        }
        if more.contains(t) {
            let k = choose|k: int| 0 <= k < more.len() && more[k] == t;
            assert(all[less.len() + k] == t);
            assert(knowledge::tools_for(deps[deps.len() - 1]).contains(t));
        }
        if all.contains(t) && !less.contains(t) {
            let k = choose|k: int| 0 <= k < all.len() && all[k] == t;
            if k < less.len() {
                assert(less[k] == t);
            } else {
                assert(more[k - less.len()] == t);
            }
        }
        if exists|i: int|
            0 <= i < deps.len() && knowledge::tools_for(#[trigger] deps[i]).contains(t) {
            let i = choose|i: int|
                0 <= i < deps.len() && knowledge::tools_for(#[trigger] deps[i]).contains(t);
            if i < front.len() {
                assert(front[i] == deps[i]);
            }
        }
    }
}

/// The tool of a development dependency of a `pyproject.toml` is found with whatever
/// version it is pinned to, be it an optional dependency or in the dependency group.
pub proof fn law_pinned_tool_is_in_use(
    t: Tree,
    l: Seq<Tree>,
    i: int,
    name: Seq<char>,
    rest: Seq<char>,
    tool: knowledge::Tool,
)
    requires
        document::descend(t, seq!["project"@, "optional-dependencies"@, "dev"@]) == Some(
            Tree::List(l),
        ) || document::descend(t, seq!["dependency-groups"@, "dev"@]) == Some(Tree::List(l)),
        0 <= i < l.len(),
        l[i] == Tree::Text(name + rest),
        name.len() > 0,
        forall|k: int|
            0 <= k < name.len() ==> ('a' <= #[trigger] name[k] <= 'z' || 'A' <= name[k] <= 'Z'
                || '0' <= name[k] <= '9' || name[k] == '-' || name[k] == '_' || name[k] == '.'
                || name[k] == '/' || name[k] == '@'),
        rest.len() > 0 ==> (rest[0] == '=' || rest[0] == '>' || rest[0] == '<' || rest[0] == '~'
            || rest[0] == '!' || rest[0] == '[' || rest[0] == ';' || rest[0] == ' '),
        knowledge::tools_for(name).contains(tool),
    ensures
        pyproject_deps(t).contains(name),
        tools_in_use(pyproject_deps(t), false).contains(tool),
{
    let none = Seq::<char>::empty();
    law_name_of_dependency(none, name, rest);
    assert(none + name + rest =~= name + rest);
    let one = listed_deps(
        document::descend(t, seq!["project"@, "optional-dependencies"@, "dev"@]),
    );
    let two = listed_deps(document::descend(t, seq!["dependency-groups"@, "dev"@]));
    let deps = pyproject_deps(t);
    law_listed_names(l, name);
    assert(pkg_name(name + rest) == name);
    let names = pkg_names(l);
    assert(names.contains(name));
    let k = choose|k: int| 0 <= k < names.len() && names[k] == name;
    if document::descend(t, seq!["project"@, "optional-dependencies"@, "dev"@]) == Some(
        Tree::List(l),
    ) {
        assert(deps[k] == name);
        assert(knowledge::tools_for(deps[k]).contains(tool));
    } else {
        assert(deps[one.len() + k] == name);
        assert(knowledge::tools_for(deps[one.len() + k]).contains(tool));
    }
    law_tools_of_dependencies(deps, tool);
}

/// The development dependencies of a manifest that lists them by name are those names:
/// in Poetry's group of a `pyproject.toml`, in the `devDependencies` of a
/// `package.json`, and in the `dev-dependencies` of a `Cargo.toml`.
pub proof fn law_named_dependencies(
    kind: config::ManifestKind,
    content: Seq<char>,
    t: Tree,
    e: Seq<(Seq<char>, Tree)>,
    i: int,
)
    requires
        config::manifest_tree(kind, content) == Ok::<Tree, Seq<char>>(t),
        0 <= i < e.len(),
        match kind {
            config::ManifestKind::Pyproject => document::descend(
                t,
                seq!["tool"@, "poetry"@, "group"@, "dev"@, "dependencies"@],
            ) == Some(Tree::Section(e)),
            config::ManifestKind::PackageJson => document::child(t, "devDependencies"@) == Some(
                Tree::Record(e),
            ),
            config::ManifestKind::Cargo => document::child(t, "dev-dependencies"@) == Some(
                Tree::Section(e),
            ),
            config::ManifestKind::NizmToml => false,
        },
    ensures
        dev_deps(kind, content).contains(e[i].0),
{
    let names = entry_names(e);
    let deps = dev_deps(kind, content);
    assert(names[i] == e[i].0);
    if kind == config::ManifestKind::Pyproject {
        let one = listed_deps(
            document::descend(t, seq!["project"@, "optional-dependencies"@, "dev"@]),
        );
        let two = listed_deps(document::descend(t, seq!["dependency-groups"@, "dev"@]));
        assert(deps[one.len() + two.len() + i] == e[i].0);
    } else {
        assert(deps[i] == e[i].0);
    }
}

/// A manifest is that of a Rust package exactly if it is a `Cargo.toml` with a
/// `package`; others are offered no tools of Rust's.
pub proof fn law_rust_packages(kind: config::ManifestKind, content: Seq<char>, t: Tree)
    requires
        config::manifest_tree(kind, content) == Ok::<Tree, Seq<char>>(t),
    ensures
        is_rust_package(kind, content) <==> kind == config::ManifestKind::Cargo && document::child(
            t,
            "package"@,
        ) is Some,
        tools_in_use(Seq::<Seq<char>>::empty(), false).len() == 0,
{
}

/// Of the suggestions for one manifest under one name the first stays, and every
/// manifest and name that was suggested still is.
pub proof fn law_first_suggestion_stays(list: Seq<Suggested>, i: int)
    requires
        0 <= i < list.len(),
    ensures
        holds(unique(list), list[i]),
        (forall|j: int|
            0 <= j < i ==> (#[trigger] list[j]).manifest != list[i].manifest || list[j].tool.name
                != list[i].tool.name) ==> unique(list).contains(list[i]),
        forall|k: int| 0 <= k < unique(list).len() ==> list.contains(#[trigger] unique(list)[k]),
    decreases list.len(),
{
    let less = list.drop_last();
    let front = unique(less);
    let all = unique(list);
    if i < less.len() {
        law_first_suggestion_stays(less, i);
        assert(less[i] == list[i]);
        let k = choose|k: int|
            0 <= k < front.len() && (#[trigger] front[k]).manifest == list[i].manifest
                && front[k].tool.name == list[i].tool.name;
        assert(all[k] == front[k]);
        if forall|j: int|
            0 <= j < i ==> (#[trigger] list[j]).manifest != list[i].manifest || list[j].tool.name
                != list[i].tool.name {
            assert forall|j: int| 0 <= j < i implies (#[trigger] less[j]).manifest
                != less[i].manifest || less[j].tool.name != less[i].tool.name by {
                assert(less[j] == list[j]);
            }
            let m = choose|m: int| 0 <= m < front.len() && front[m] == list[i];
            assert(all[m] == list[i]);
        }
    } else {
        if !holds(front, list.last()) {
            assert(all[all.len() - 1] == list[i]);
        } else {
            let k = choose|k: int|
                0 <= k < front.len() && (#[trigger] front[k]).manifest == list[i].manifest
                    && front[k].tool.name == list[i].tool.name;
            law_unique_are_listed(less);
            let j = choose|j: int| 0 <= j < less.len() && less[j] == front[k];
            assert(list[j] == front[k]);
        }
    }
    law_unique_are_listed(list);
}

/// What is left of the suggestions is among them.
pub proof fn law_unique_are_listed(list: Seq<Suggested>)
    ensures
        forall|k: int| 0 <= k < unique(list).len() ==> list.contains(#[trigger] unique(list)[k]),
    decreases list.len(),
{
    if list.len() > 0 {
        let less = list.drop_last();
        let front = unique(less);
        let all = unique(list);
        law_unique_are_listed(less);
        assert forall|k: int| 0 <= k < all.len() implies list.contains(#[trigger] all[k]) by {
            if k < front.len() {
                assert(less.contains(front[k]));
                let j = choose|j: int| 0 <= j < less.len() && less[j] == front[k];
                assert(list[j] == all[k]);
            } else {
                assert(list[list.len() - 1] == all[k]);
            }
        }
    }
}

/// Rust's own tools are in use in any Rust package, whatever it depends on.
pub proof fn law_rust_tools_in_use(deps: Seq<Seq<char>>, i: int)
    requires
        0 <= i < knowledge::rust_tools().len(),
    ensures
        tools_in_use(deps, true).contains(knowledge::rust_tools()[i]),
{
    let all = tools_in_use(deps, true);
    assert(all[tools_of_deps(deps).len() + i] == knowledge::rust_tools()[i]);
}

// ---- choosing among the suggestions ----

/// The message for a project that nothing can be suggested for.
pub fn nothing_to_suggest(any_tools: bool) -> (r: &'static str)
    ensures
        any_tools ==> r@
            == "no hooks to suggest — all detected tools are already configured"@,
        !any_tools ==> r@ == "no dev-dependencies found in any manifest"@,
{
    if any_tools {
        "no hooks to suggest — all detected tools are already configured"
    } else {
        "no dev-dependencies found in any manifest"
    }
}

/// The place of the first suggestion of that name at or behind `from`; the
/// number of suggestions if there is none.
pub open spec fn position(list: Seq<Suggested>, name: Seq<char>, from: int) -> int
    decreases list.len() - from,
{
    if from < 0 || from >= list.len() {
        list.len() as int
    } else if list[from].tool.name == name {
        from
    } else {
        position(list, name, from + 1)
    }
}

/// The places of the suggestions with the names; a name without a suggestion is
/// passed over.
pub open spec fn positions(list: Seq<Suggested>, names: Seq<Seq<char>>) -> Seq<int>
    decreases names.len(),
{
    if names.len() == 0 {
        seq![]
    } else {
        let front = positions(list, names.drop_last());
        let at = position(list, names.last(), 0);
        if at < list.len() {
            front.push(at)
        } else {
            front
        }
    }
}

/// Places as numbers.
pub open spec fn places(v: Seq<usize>) -> Seq<int> {
    Seq::new(v.len(), |i: int| v[i] as int)
}

/// The places of the suggestions that are asked for by name.
pub fn pick_named(list: &Vec<Suggestion>, names: &Vec<String>) -> (r: Vec<usize>)
    ensures
        places(r@) == positions(suggested(list@), text::views(names@)),
        forall|i: int| 0 <= i < r@.len() ==> (#[trigger] r@[i]) < list@.len(),
{
    let ghost all = suggested(list@);
    let ghost wanted = text::views(names@);
    let mut r: Vec<usize> = Vec::new();
    let mut k: usize = 0;
    proof {
        assert(places(r@) =~= positions(all, wanted.take(0)));
    }
    while k < names.len()
        invariant
            k <= names.len(),
            all == suggested(list@),
            wanted == text::views(names@),
            places(r@) == positions(all, wanted.take(k as int)),
            forall|i: int| 0 <= i < r@.len() ==> (#[trigger] r@[i]) < list@.len(),
        decreases names.len() - k,
    {
        let name = names[k].as_str();
        let ghost before = places(r@);
        proof {
            assert(wanted.take(k + 1).drop_last() =~= wanted.take(k as int));
            assert(wanted.take(k + 1).last() == name@);
        }
        let mut i: usize = 0;
        while i < list.len() && !text::same(list[i].entry.name, name)
            invariant
                i <= list.len(),
                all == suggested(list@),
                position(all, name@, 0) == position(all, name@, i as int),
            decreases list.len() - i,
        {
            proof {
                assert(all[i as int] == list@[i as int]@);
            }
            i += 1;
        }
        if i < list.len() {
            proof {
                assert(all[i as int] == list@[i as int]@);
            }
            r.push(i);
            proof {
                assert(places(r@) =~= before.push(i as int));
            }
        }
        k += 1;
    }
    proof {
        assert(wanted.take(k as int) =~= wanted);
    }
    r
}

/// The chosen suggestions are among the suggestions.
pub open spec fn are_places(chosen: Seq<usize>, n: nat) -> bool {
    forall|i: int| 0 <= i < chosen.len() ==> (#[trigger] chosen[i]) < n
}

/// A suggestion after which `ruff` is to be configured.
pub open spec fn wants_ruff_config(s: Suggested) -> bool {
    "ruff"@.is_prefix_of(s.tool.name) && path::file_name(s.manifest) == Some(
        "pyproject.toml"@,
    )
}

/// The manifest of the first chosen suggestion after which `ruff` is to be
/// configured.
pub fn ruff_manifest(list: &Vec<Suggestion>, chosen: &Vec<usize>) -> (r: Option<String>)
    requires
        are_places(chosen@, list@.len()),
    ensures
        r is None ==> forall|i: int|
            0 <= i < chosen@.len() ==> !wants_ruff_config(
                suggested(list@)[#[trigger] chosen@[i] as int],
            ),
        r matches Some(m) ==> exists|i: int|
            0 <= i < chosen@.len() && wants_ruff_config(
                suggested(list@)[#[trigger] chosen@[i] as int],
            ) && m@ == suggested(list@)[chosen@[i] as int].manifest && forall|j: int|
                0 <= j < i ==> !wants_ruff_config(
                    suggested(list@)[#[trigger] chosen@[j] as int],
                ),
{
    let mut i: usize = 0;
    while i < chosen.len()
        invariant
            i <= chosen.len(),
            are_places(chosen@, list@.len()),
            forall|j: int|
                0 <= j < i ==> !wants_ruff_config(suggested(list@)[#[trigger] chosen@[j] as int]),
        decreases chosen.len() - i,
    {
        let s = &list[chosen[i]];
        let pyproject = match path::name_of_file(s.manifest.as_str()) {
            Some(n) => text::same(n.as_str(), "pyproject.toml"),
            None => false,
        };
        proof {
            assert(suggested(list@)[chosen@[i as int] as int] == s@);
        }
        if pyproject && text::begins_with(s.entry.name, "ruff") {
            return Some(s.manifest.clone());
        }
        i += 1;
    }
    None
}

/// The directories of the chosen suggestions of `prettier`.
pub open spec fn prettier_places(list: Seq<Suggested>, chosen: Seq<int>) -> Seq<Seq<char>>
    decreases chosen.len(),
{
    if chosen.len() == 0 {
        seq![]
    } else {
        let front = prettier_places(list, chosen.drop_last());
        let s = list[chosen.last()];
        if s.tool.name == "prettier"@ {
            front.push(path::directory(s.manifest))
        } else {
            front
        }
    }
}

/// A suggestion that is asked for by name is the first under that name, if there is one.
pub proof fn law_asked_by_name(list: Seq<Suggested>, name: Seq<char>, from: int)
    requires
        0 <= from <= list.len(),
    ensures
        from <= position(list, name, from) <= list.len(),
        position(list, name, from) < list.len() ==> list[position(list, name, from)].tool.name
            == name,
        forall|j: int|
            from <= j < position(list, name, from) ==> (#[trigger] list[j]).tool.name != name,
    decreases list.len() - from,
{
    if from < list.len() && list[from].tool.name != name {
        law_asked_by_name(list, name, from + 1);
    }
}

/// Every name that is asked for gives one suggestion of that name, in the order of the
/// names; a name without a suggestion gives none.
pub proof fn law_asked_by_names(list: Seq<Suggested>, names: Seq<Seq<char>>, more: Seq<char>)
    ensures
        positions(list, Seq::<Seq<char>>::empty()).len() == 0,
        (exists|i: int| 0 <= i < list.len() && (#[trigger] list[i]).tool.name == more) ==> ({
            let at = positions(list, names.push(more)).last();
            &&& positions(list, names.push(more)) == positions(list, names).push(at)
            &&& 0 <= at < list.len()
            &&& list[at].tool.name == more
            &&& forall|j: int| 0 <= j < at ==> (#[trigger] list[j]).tool.name != more
        }),
        (forall|i: int| 0 <= i < list.len() ==> (#[trigger] list[i]).tool.name != more)
            ==> positions(list, names.push(more)) == positions(list, names),
{
    law_asked_by_name(list, more, 0);
    assert(names.push(more).drop_last() =~= names);
}

/// `ruff` is configured where it was chosen for a `pyproject.toml`, in whatever
/// directory, and nowhere else.
pub proof fn law_where_ruff_is_configured(
    s: Suggested,
    dir: Seq<char>,
    name: Seq<char>,
)
    requires
        path::is_name(name),
        s.manifest == name || s.manifest == dir + seq!['/'] + name,
    ensures
        s.tool.name == "ruff"@ ==> (wants_ruff_config(s) <==> name == "pyproject.toml"@),
        s.tool.name == "black"@ || s.tool.name == "mypy"@ || s.tool.name == "prettier"@
            || s.tool.name == "eslint"@ || s.tool.name == "biome"@ || s.tool.name == "clippy"@
            ==> !wants_ruff_config(s),
{
    path::law_file_name(dir, name);
    reveal_strlit("ruff");
    reveal_strlit("black");
    reveal_strlit("mypy");
    reveal_strlit("prettier");
    reveal_strlit("eslint");
    reveal_strlit("biome");
    reveal_strlit("clippy");
    assert("ruff"@.is_prefix_of("ruff"@));
    assert("ruff"@[0] == 'r');
    assert("black"@[0] == 'b' && "mypy"@[0] == 'm' && "prettier"@[0] == 'p');
    assert("eslint"@[0] == 'e' && "biome"@[0] == 'b' && "clippy"@[0] == 'c');
}

/// The directories that `prettier` is configured in are those of the manifests that it
/// was chosen for.
pub proof fn law_where_prettier_is_configured(
    list: Seq<Suggested>,
    chosen: Seq<int>,
    dir: Seq<char>,
)
    ensures
        prettier_places(list, chosen).contains(dir) <==> exists|i: int|
            0 <= i < chosen.len() && list[#[trigger] chosen[i]].tool.name == "prettier"@
                && path::directory(list[chosen[i]].manifest) == dir,
    decreases chosen.len(),
{
    if chosen.len() > 0 {
        let less = chosen.drop_last();
        let front = prettier_places(list, less);
        let all = prettier_places(list, chosen);
        law_where_prettier_is_configured(list, less, dir);
        if front.contains(dir) {
            let k = choose|k: int| 0 <= k < front.len() && front[k] == dir;
            assert(all[k] == dir);
            let i = choose|i: int|
                0 <= i < less.len() && list[#[trigger] less[i]].tool.name == "prettier"@
                    && path::directory(list[less[i]].manifest) == dir;
            assert(chosen[i] == less[i]);
        }
        let s = list[chosen.last()];
        if s.tool.name == "prettier"@ && path::directory(s.manifest) == dir {
            assert(all[all.len() - 1] == dir);
            assert(list[chosen[chosen.len() - 1]].tool.name == "prettier"@);
        }
        if exists|i: int|
            0 <= i < chosen.len() && list[#[trigger] chosen[i]].tool.name == "prettier"@
                && path::directory(list[chosen[i]].manifest) == dir {
            let i = choose|i: int|
                0 <= i < chosen.len() && list[#[trigger] chosen[i]].tool.name == "prettier"@
                    && path::directory(list[chosen[i]].manifest) == dir;
            if i < less.len() {
                assert(less[i] == chosen[i]);
            }
        }
    }
}

/// The directories of the chosen suggestions of `prettier`.
pub fn prettier_dirs(list: &Vec<Suggestion>, chosen: &Vec<usize>) -> (r: Vec<String>)
    requires
        are_places(chosen@, list@.len()),
    ensures
        text::views(r@) == prettier_places(suggested(list@), places(chosen@)),
{
    let ghost all = suggested(list@);
    let ghost at = places(chosen@);
    let mut r: Vec<String> = Vec::new();
    let mut i: usize = 0;
    proof {
        assert(text::views(r@) =~= prettier_places(all, at.take(0)));
    }
    while i < chosen.len()
        invariant
            i <= chosen.len(),
            are_places(chosen@, list@.len()),
            all == suggested(list@),
            at == places(chosen@),
            text::views(r@) == prettier_places(all, at.take(i as int)),
        decreases chosen.len() - i,
    {
        let s = &list[chosen[i]];
        let ghost before = text::views(r@);
        proof {
            assert(at.take(i + 1).drop_last() =~= at.take(i as int));
            assert(at.take(i + 1).last() == chosen@[i as int]);
            assert(all[chosen@[i as int] as int] == s@);
        }
        if text::same(s.entry.name, "prettier") {
            r.push(path::directory_of(s.manifest.as_str()));
            proof {
                assert(text::views(r@) =~= before.push(path::directory(s.manifest@)));
            }
        }
        i += 1;
    }
    proof {
        assert(at.take(i as int) =~= at);
    }
    r
}

/// The manifests of the chosen suggestions.
pub open spec fn chosen_manifests(list: Seq<Suggested>, chosen: Seq<int>) -> Seq<Seq<char>> {
    Seq::new(chosen.len(), |i: int| list[chosen[i]].manifest)
}

/// The manifests of the chosen suggestions, in path order and each once.
pub fn used_manifests(list: &Vec<Suggestion>, chosen: &Vec<usize>) -> (r: Vec<String>)
    requires
        are_places(chosen@, list@.len()),
    ensures
        path::in_path_order(text::views(r@)),
        forall|p: Seq<char>| #[trigger]
            text::views(r@).contains(p) <==> chosen_manifests(
                suggested(list@),
                places(chosen@),
            ).contains(p),
{
    let ghost all = chosen_manifests(suggested(list@), places(chosen@));
    let mut r: Vec<String> = Vec::new();
    let mut i: usize = 0;
    while i < chosen.len()
        invariant
            i <= chosen.len(),
            are_places(chosen@, list@.len()),
            all == chosen_manifests(suggested(list@), places(chosen@)),
            path::in_path_order(text::views(r@)),
            forall|p: Seq<char>| #[trigger]
                text::views(r@).contains(p) <==> all.take(i as int).contains(p),
        decreases chosen.len() - i,
    {
        let s = &list[chosen[i]];
        proof {
            text::lemma_take_contains(all, i as int);
            assert(all[i as int] == s.manifest@);
        }
        path::insert_path(&mut r, s.manifest.as_str());
        i += 1;
    }
    proof {
        assert(all.take(i as int) =~= all);
    }
    r
}

/// The name with spaces behind it up to the width.
pub open spec fn padded(s: Seq<char>, width: nat) -> Seq<char>
    decreases width - s.len(),
{
    if s.len() >= width {
        s
    } else {
        padded(s.push(' '), width)
    }
}

/// The name with spaces behind it up to the width.
pub fn pad(s: &str, width: usize) -> (r: String)
    ensures
        r@ == padded(s@, width as nat),
{
    let mut r = String::from_str(s);
    let mut n: usize = text::chars_of(s).len();
    while n < width
        invariant
            n == r@.len(),
            padded(s@, width as nat) == padded(r@, width as nat),
        decreases width - n,
    {
        r.push(' ');
        n += 1;
    }
    r
}

/// A padded name is at least as wide as asked for, begins with the name, and has only
/// spaces behind it; a name that is wide enough stays as it is.
pub proof fn law_padded(s: Seq<char>, width: nat)
    ensures
        padded(s, width).len() == if s.len() >= width {
            s.len()
        } else {
            width
        },
        s.is_prefix_of(padded(s, width)),
        forall|i: int| s.len() <= i < padded(s, width).len() ==> #[trigger] padded(s, width)[i]
            == ' ',
    decreases width - s.len(),
{
    if s.len() < width {
        let t = s.push(' ');
        let all = padded(s, width);
        law_padded(t, width);
        assert(all == padded(t, width));
        assert(t =~= all.take(t.len() as int));
        assert(s =~= all.take(s.len() as int)) by {
            assert forall|i: int| 0 <= i < s.len() implies s[i] == all[i] by {
                assert(t[i] == all.take(t.len() as int)[i]);
            }
        }
        assert forall|i: int| s.len() <= i < all.len() implies #[trigger] all[i] == ' ' by {
            if i == s.len() {
                assert(t[i] == all.take(t.len() as int)[i]);
            }
        }
    }
}

/// The line that says which hook was added.
pub fn added_line(entry: &knowledge::ToolEntry, color: bool) -> (r: String)
    ensures
        r@ == "  "@ + style::green_text("added"@, color) + " "@ + style::bold_text(
            padded(entry.name@, 12),
            color,
        ) + " "@ + entry.cmd@,
{
    let mut r = String::from_str("  ");
    r.append(style::green("added", color).as_str());
    r.append(" ");
    r.append(style::bold(pad(entry.name, 12).as_str(), color).as_str());
    r.append(" ");
    r.append(entry.cmd);
    r
}

// ---- hooks in TOML manifests ----

/// The fields of the hook for a tool.
pub open spec fn hook_fields(t: knowledge::Tool) -> Seq<(Seq<char>, Seq<char>)> {
    match t.glob {
        Some(g) => seq![("cmd"@, t.cmd), ("glob"@, g)],
        None => seq![("cmd"@, t.cmd)],
    }
}

/// The hook for a tool, as a tree.
pub open spec fn hook_tree(t: knowledge::Tool) -> Tree {
    Tree::Record(toml::text_entries(hook_fields(t)))
}

/// What came of putting a hook into a TOML manifest: the text of the edited
/// document, in which only the hook is new; or why it could not be done.
pub open spec fn is_injected_toml(
    r: Result<String, String>,
    content: Seq<char>,
    path: Seq<Seq<char>>,
    t: knowledge::Tool,
) -> bool {
    let edited = toml::document_with(content, path, t.name, toml::record_item(hook_fields(t)));
    let place = path.push(t.name);
    &&& r is Ok <==> edited is Ok
    &&& r matches Err(e) ==> e@ == edited->Err_0
    &&& r matches Ok(text) ==> {
        &&& text@ == toml::rendered(edited->Ok_0)
        &&& document::descend(toml::table_tree(toml::root(edited->Ok_0)), place) == Some(
            hook_tree(t),
        )
        &&& forall|other: Seq<Seq<char>>|
            toml::unrelated(other, place) ==> #[trigger] document::descend(
                toml::table_tree(toml::root(edited->Ok_0)),
                other,
            ) == document::descend(
                toml::table_tree(toml::root(toml::parsed(content)->Ok_0)),
                other,
            )
        &&& toml::keeps_order(
            toml::table_tree(toml::root(toml::parsed(content)->Ok_0)),
            toml::table_tree(toml::root(edited->Ok_0)),
            place,
        )
    }
}

/// Puts the hook for a tool into the table at the end of the path.
pub fn inject_toml(content: &str, table_path: &Vec<String>, entry: &knowledge::ToolEntry) -> (r:
    Result<String, String>)
    ensures
        is_injected_toml(r, content@, text::views(table_path@), entry@),
{
    let mut fields: Vec<(String, String)> = Vec::new();
    fields.push((String::from_str("cmd"), String::from_str(entry.cmd)));
    match entry.glob {
        Some(g) => {
            fields.push((String::from_str("glob"), String::from_str(g)));
        },
        None => {},
    }
    proof {
        reveal_strlit("cmd");
        reveal_strlit("glob");
        assert("cmd"@.len() == 3 && "glob"@.len() == 4);
        assert(toml::pairs(fields@) =~= hook_fields(entry@));
    }
    toml::add_record(content, table_path, entry.name, &fields)
}

/// The hook for a tool reads as what the tool says: its command and its glob, at
/// the default stage.
pub proof fn law_injected_hook_reads_back(t: knowledge::Tool)
    ensures
        forall|json: bool| #[trigger]
            config::decoded(hook_tree(t), json) == Ok::<config::HookSpec, Seq<char>>(
            (config::HookSpec {
                cmd: t.cmd,
                glob: match t.glob {
                    Some(g) => Some(seq![g]),
                    None => None,
                },
                outputs: None,
                stage: None,
            }),
        ),
{
    reveal_strlit("cmd");
    reveal_strlit("glob");
    reveal_strlit("outputs");
    reveal_strlit("type");
    assert("cmd"@.len() == 3 && "glob"@.len() == 4 && "outputs"@.len() == 7);
    assert("type"@.len() == 4 && "type"@[0] == 't' && "glob"@[0] == 'g');
    let e = toml::text_entries(hook_fields(t));
    reveal_with_fuel(config::drafted, 3);
    match t.glob {
        Some(g) => {
            assert(e.drop_last().len() == 1 && e.last() == ("glob"@, Tree::Text(g)));
            assert(e.drop_last().last() == ("cmd"@, Tree::Text(t.cmd)));
        },
        None => {
            assert(e.len() == 1 && e.last() == ("cmd"@, Tree::Text(t.cmd)));
        },
    }
}

/// A document that holds the hook for a tool under its name, at the end of the
/// path to the hooks, has it among its hooks.
pub proof fn law_injected_hook_is_listed(
    tree: Tree,
    path: Seq<Seq<char>>,
    t: knowledge::Tool,
)
    requires
        document::descend(tree, path.push(t.name)) == Some(hook_tree(t)),
    ensures
        config::entries_at(tree, path) matches Some(e) && document::lookup(e, t.name) == Some(
            hook_tree(t),
        ),
    decreases path.len(),
{
    let full = path.push(t.name);
    reveal_with_fuel(document::descend, 2);
    if path.len() == 0 {
        assert(full.skip(1).len() == 0);
    } else {
        assert(full[0] == path[0]);
        assert(full.skip(1) =~= path.skip(1).push(t.name));
        law_injected_hook_is_listed(document::child(tree, path[0])->0, path.skip(1), t);
    }
}

/// The text with the configuration of `ruff`; `None` if there is one already.
pub open spec fn ruff_configured(content: Seq<char>) -> Result<
    Option<toml_edit::DocumentMut>,
    Seq<char>,
> {
    match toml::toml_tree(content) {
        Err(e) => Err("failed to parse TOML: "@ + e),
        Ok(t) => if document::descend(t, seq!["tool"@, "ruff"@]) is Some {
            Ok(None)
        } else {
            match toml::document_with_lists(
                content,
                seq!["tool"@, "ruff"@, "lint"@],
                ("select"@, seq!["F"@, "I"@]),
                ("fixable"@, seq!["F401"@, "I"@]),
            ) {
                Ok(d) => Ok(Some(d)),
                Err(e) => Err(e),
            }
        },
    }
}

/// What is unrelated to a place is unrelated to what lies below it.
proof fn lemma_unrelated_below(other: Seq<Seq<char>>, place: Seq<Seq<char>>, below: Seq<Seq<char>>)
    requires
        toml::unrelated(other, place),
        place.is_prefix_of(below),
    ensures
        toml::unrelated(other, below),
{
    if other.is_prefix_of(below) {
        if other.len() <= place.len() {
            assert(other =~= place.take(other.len() as int));
        } else {
            assert(place =~= other.take(place.len() as int));
        }
    }
    if below.is_prefix_of(other) {
        assert(place =~= other.take(place.len() as int));
    }
}

/// Configures `ruff` in a `pyproject.toml`, unless it is configured there: which
/// rules it checks, and which of them it mends. Nothing else in the document
/// changes.
pub fn inject_ruff_config(content: &str) -> (r: Result<Option<String>, String>)
    ensures
        ({
            let done = ruff_configured(content@);
            &&& r is Ok <==> done is Ok
            &&& r matches Err(e) ==> e@ == done->Err_0
            &&& r matches Ok(None) ==> done->Ok_0 is None
            &&& r matches Ok(Some(t)) ==> {
                let d = done->Ok_0->0;
                let tree = toml::table_tree(toml::root(d));
                &&& done->Ok_0 is Some
                &&& t@ == toml::rendered(d)
                &&& document::descend(tree, seq!["tool"@, "ruff"@, "lint"@, "select"@]) == Some(
                    toml::text_list(seq!["F"@, "I"@]),
                )
                &&& document::descend(tree, seq!["tool"@, "ruff"@, "lint"@, "fixable"@]) == Some(
                    toml::text_list(seq!["F401"@, "I"@]),
                )
                &&& forall|other: Seq<Seq<char>>|
                    toml::unrelated(other, seq!["tool"@, "ruff"@]) ==> #[trigger]
                        document::descend(tree, other) == document::descend(
                        toml::toml_tree(content@)->Ok_0,
                        other,
                    )
            }
        }),
{
    let node = match toml::read(content) {
        Ok(n) => n,
        Err(e) => {
            let mut m = String::from_str("failed to parse TOML: ");
            m.append(e.as_str());
            return Err(m);
        },
    };
    let place: Vec<&'static str> = vec!["tool", "ruff"];
    let lint: Vec<&'static str> = vec!["tool", "ruff", "lint"];
    let rules: Vec<&'static str> = vec!["F", "I"];
    let mended: Vec<&'static str> = vec!["F401", "I"];
    proof {
        assert(text::str_views(place@) =~= seq!["tool"@, "ruff"@]);
        assert(text::str_views(lint@) =~= seq!["tool"@, "ruff"@, "lint"@]);
        assert(text::str_views(rules@) =~= seq!["F"@, "I"@]);
        assert(text::str_views(mended@) =~= seq!["F401"@, "I"@]);
        reveal_strlit("select");
        reveal_strlit("fixable");
        assert("select"@.len() == 6 && "fixable"@.len() == 7);
        let keys = seq!["tool"@, "ruff"@, "lint"@];
        assert(keys.push("select"@) =~= seq!["tool"@, "ruff"@, "lint"@, "select"@]);
        assert(keys.push("fixable"@) =~= seq!["tool"@, "ruff"@, "lint"@, "fixable"@]);
        let short = seq!["tool"@, "ruff"@];
        assert(keys.push("select"@).take(2) =~= short);
        assert(keys.push("fixable"@).take(2) =~= short);
        assert forall|other: Seq<Seq<char>>| toml::unrelated(other, short) implies toml::unrelated(
            other,
            keys.push("select"@),
        ) && toml::unrelated(other, keys.push("fixable"@)) by {
            lemma_unrelated_below(other, short, keys.push("select"@));
            lemma_unrelated_below(other, short, keys.push("fixable"@));
        }
    }
    if node.at(&path_of(&place)).is_some() {
        return Ok(None);
    }
    let select = path_of(&rules);
    let fixable = path_of(&mended);
    match toml::add_lists(
        content,
        &path_of(&lint),
        ("select", &select),
        ("fixable", &fixable),
    ) {
        Ok(t) => Ok(Some(t)),
        Err(e) => Err(e),
    }
}

// ---- prettier ----

/// The files that configure `prettier`.
pub open spec fn configures_prettier(name: Seq<char>) -> bool {
    name == ".prettierrc"@ || name == ".prettierrc.json"@ || name == ".prettierrc.yml"@ || name
        == ".prettierrc.yaml"@ || name == ".prettierrc.toml"@ || name == ".prettierrc.js"@ || name
        == ".prettierrc.cjs"@ || name == ".prettierrc.mjs"@ || name == "prettier.config.js"@
        || name == "prettier.config.cjs"@ || name == "prettier.config.mjs"@
}

/// Is `prettier` still to be configured in a directory with these files?
pub fn needs_prettierrc(files: &Vec<String>) -> (r: bool)
    ensures
        r == (forall|i: int|
            0 <= i < files@.len() ==> !configures_prettier(#[trigger] files@[i]@)),
{
    let mut i: usize = 0;
    while i < files.len()
        invariant
            i <= files.len(),
            forall|j: int| 0 <= j < i ==> !configures_prettier(#[trigger] files@[j]@),
        decreases files.len() - i,
    {
        let f = files[i].as_str();
        if text::same(f, ".prettierrc") || text::same(f, ".prettierrc.json") || text::same(
            f,
            ".prettierrc.yml",
        ) || text::same(f, ".prettierrc.yaml") || text::same(f, ".prettierrc.toml") || text::same(
            f,
            ".prettierrc.js",
        ) || text::same(f, ".prettierrc.cjs") || text::same(f, ".prettierrc.mjs") || text::same(
            f,
            "prettier.config.js",
        ) || text::same(f, "prettier.config.cjs") || text::same(f, "prettier.config.mjs") {
            proof {
                assert(configures_prettier(files@[i as int]@));
            }
            return false;
        }
        i += 1;
    }
    true
}

/// The text of a new `.prettierrc`.
pub fn prettierrc() -> (r: &'static str)
    ensures
        r@
            == "{\n    \"tabWidth\": 4,\n    \"useTabs\": false,\n    \"singleQuote\": false,\n    \"trailingComma\": \"es5\",\n    \"endOfLine\": \"lf\",\n    \"arrowParens\": \"always\",\n    \"bracketSameLine\": true,\n    \"printWidth\": 120\n}\n"@,
{
    "{\n    \"tabWidth\": 4,\n    \"useTabs\": false,\n    \"singleQuote\": false,\n    \"trailingComma\": \"es5\",\n    \"endOfLine\": \"lf\",\n    \"arrowParens\": \"always\",\n    \"bracketSameLine\": true,\n    \"printWidth\": 120\n}\n"
}

// ---- hooks in package.json ----

/// The text `n` times.
pub open spec fn times(s: Seq<char>, n: nat) -> Seq<char>
    decreases n,
{
    if n == 0 {
        seq![]
    } else {
        times(s, (n - 1) as nat) + s
    }
}

/// The text `n` times.
fn repeated(s: &str, n: usize) -> (r: String)
    ensures
        r@ == times(s@, n as nat),
{
    let mut r = String::new();
    let mut i: usize = 0;
    while i < n
        invariant
            i <= n,
            r@ == times(s@, i as nat),
        decreases n - i,
    {
        r.append(s);
        i += 1;
    }
    r
}

/// A text as JSON writes it.
pub open spec fn json_text(s: Seq<char>) -> Seq<char> {
    seq!['"'] + json::escape_text(s) + seq!['"']
}

/// The hook for a tool, as it is written into a `package.json`.
pub open spec fn json_hook(t: knowledge::Tool, indent: Seq<char>) -> Seq<char> {
    match t.glob {
        Some(g) => "{\n"@ + times(indent, 4) + "\"cmd\": "@ + json_text(t.cmd) + ",\n"@ + times(
            indent,
            4,
        ) + "\"glob\": "@ + json_text(g) + "\n"@ + times(indent, 3) + "}"@,
        None => "{ \"cmd\": "@ + json_text(t.cmd) + " }"@,
    }
}

/// The object at the end of a path of keys.
pub open spec fn object_at(t: Tree, path: Seq<Seq<char>>) -> Option<Seq<(Seq<char>, Tree)>> {
    match document::descend(t, path) {
        Some(Tree::Record(e)) => Some(e),
        _ => None,
    }
}

/// The path to the object that a hook, or what is missing around it, goes into.
pub open spec fn splice_path(root: Tree) -> Seq<Seq<char>> {
    if object_at(root, seq!["nizm"@, "hooks"@]) is Some {
        seq!["nizm"@, "hooks"@]
    } else if document::child(root, "nizm"@) is Some {
        seq!["nizm"@]
    } else {
        seq![]
    }
}

/// A comma, if the object at the end of the path has entries.
pub open spec fn splice_comma(root: Tree, path: Seq<Seq<char>>) -> Seq<char> {
    if object_at(root, path) matches Some(e) && e.len() > 0 {
        ","@
    } else {
        seq![]
    }
}

/// What is written before the brace that closes the object at the end of the
/// path.
pub open spec fn splice_text(path: Seq<Seq<char>>, t: knowledge::Tool, indent: Seq<char>) -> Seq<
    char,
> {
    let hook = times(indent, 3) + "\""@ + t.name + "\": "@ + json_hook(t, indent) + "\n"@ + times(
        indent,
        2,
    );
    let hooks = times(indent, 2) + "\"hooks\": {\n"@ + hook + "}\n"@ + times(indent, 1);
    if path.len() == 2 {
        "\n"@ + hook
    } else if path.len() == 1 {
        "\n"@ + hooks
    } else {
        "\n"@ + times(indent, 1) + "\"nizm\": {\n"@ + hooks + "}\n"@
    }
}

/// The document with the hook for a tool; why it could not be put there
/// otherwise.
pub open spec fn injected_json(content: Seq<char>, t: knowledge::Tool) -> Result<
    Seq<char>,
    Seq<char>,
> {
    match json::parsed(content) {
        Err(e) => Err("failed to parse JSON: "@ + e),
        Ok(root) => {
            let path = splice_path(root);
            let indent = config::indent_from(text::lines(content), 1);
            match splice::close_brace(content, path) {
                Err(e) => Err(e),
                Ok(close) => Ok(
                    text::trim_end(content.take(close)) + splice_comma(root, path) + splice_text(
                        path,
                        t,
                        indent,
                    ) + content.skip(close),
                ),
            }
        },
    }
}

/// The hook for a tool, as it is written into a `package.json`.
fn json_hook_text(entry: &knowledge::ToolEntry, indent: &str) -> (r: String)
    ensures
        r@ == json_hook(entry@, indent@),
{
    match entry.glob {
        Some(g) => {
            let mut r = String::from_str("{\n");
            r.append(repeated(indent, 4).as_str());
            r.append("\"cmd\": ");
            r.append(json::quote(entry.cmd).as_str());
            r.append(",\n");
            r.append(repeated(indent, 4).as_str());
            r.append("\"glob\": ");
            r.append(json::quote(g).as_str());
            r.append("\n");
            r.append(repeated(indent, 3).as_str());
            r.append("}");
            r
        },
        None => {
            let mut r = String::from_str("{ \"cmd\": ");
            r.append(json::quote(entry.cmd).as_str());
            r.append(" }");
            r
        },
    }
}

/// What is written before the brace that closes the object at the end of a path
/// of that length.
fn splice_piece(depth: usize, entry: &knowledge::ToolEntry, indent: &str) -> (r: String)
    requires
        depth <= 2,
    ensures
        forall|path: Seq<Seq<char>>|
            path.len() == depth ==> r@ == #[trigger] splice_text(path, entry@, indent@),
{
    let mut hook = repeated(indent, 3);
    hook.append("\"");
    hook.append(entry.name);
    hook.append("\": ");
    hook.append(json_hook_text(entry, indent).as_str());
    hook.append("\n");
    hook.append(repeated(indent, 2).as_str());
    let mut r = String::from_str("\n");
    if depth == 2 {
        r.append(hook.as_str());
        return r;
    }
    let mut hooks = repeated(indent, 2);
    hooks.append("\"hooks\": {\n");
    hooks.append(hook.as_str());
    hooks.append("}\n");
    hooks.append(repeated(indent, 1).as_str());
    if depth == 1 {
        r.append(hooks.as_str());
        return r;
    }
    r.append(repeated(indent, 1).as_str());
    r.append("\"nizm\": {\n");
    r.append(hooks.as_str());
    r.append("}\n");
    r
}

/// The object that a node is, if it is one.
fn object_of<'a>(n: Option<&'a Node>) -> (r: Option<&'a Vec<(String, Node)>>)
    ensures
        r is Some <==> (document::tree_at(n) matches Some(t) && t is Record),
        r matches Some(e) ==> document::tree_at(n) == Some(
            Tree::Record(document::entries_of(e@)),
        ),
{
    match n {
        Some(node) => match node {
            Node::Record(e) => {
                proof {
                    document::lemma_entries_tree(*e);
                }
                Some(e)
            },
            _ => None,
        },
        None => None,
    }
}

/// Puts the hook for a tool into a `package.json`, as text: what is written there
/// stays as it is.
pub fn inject_json(content: &str, entry: &knowledge::ToolEntry) -> (r: Result<String, String>)
    ensures
        ({
            let done = injected_json(content@, entry@);
            &&& r is Ok <==> done is Ok
            &&& r matches Ok(t) ==> t@ == done->Ok_0
            &&& r matches Err(e) ==> e@ == done->Err_0
        }),
{
    let root = match json::read(content) {
        Ok(n) => n,
        Err(e) => {
            let mut m = String::from_str("failed to parse JSON: ");
            m.append(e.as_str());
            return Err(m);
        },
    };
    let indent = config::detect_json_indent(content);
    let both: Vec<&'static str> = vec!["nizm", "hooks"];
    let one: Vec<&'static str> = vec!["nizm"];
    let none: Vec<&'static str> = Vec::new();
    proof {
        assert(text::str_views(both@) =~= seq!["nizm"@, "hooks"@]);
        assert(text::str_views(one@) =~= seq!["nizm"@]);
        assert(text::str_views(none@) =~= Seq::<Seq<char>>::empty());
    }
    let path = if object_of(root.at(&path_of(&both))).is_some() {
        path_of(&both)
    } else if root.get("nizm").is_some() {
        path_of(&one)
    } else {
        path_of(&none)
    };
    let ghost keys = splice_path(document::tree_of(root));
    proof {
        assert(text::views(path@) == keys);
        assert(path@.len() == keys.len());
    }
    let filled = match object_of(root.at(&path)) {
        Some(e) => {
            proof {
                assert(document::entries_of(e@).len() == e@.len());
            }
            e.len() > 0
        },
        None => false,
    };
    let v = text::chars_of(content);
    let close = match splice::json_find_object_close(&v, &path) {
        Ok(c) => c,
        Err(e) => return Err(e),
    };
    let before = text::substring(&v, 0, close);
    let after = text::substring(&v, close, v.len());
    proof {
        assert(v@.subrange(0, close as int) =~= content@.take(close as int));
        assert(v@.subrange(close as int, v@.len() as int) =~= content@.skip(close as int));
    }
    let mut r = text::trimmed_end(before.as_str());
    let ghost front = r@;
    if filled {
        r.append(",");
    }
    proof {
        assert(r@ =~= front + splice_comma(document::tree_of(root), keys));
    }
    r.append(splice_piece(path.len(), entry, indent.as_str()).as_str());
    r.append(after.as_str());
    Ok(r)
}

/// Putting a hook into a `package.json` keeps what is written there: everything
/// up to the white space before a closing brace, and everything from that brace
/// on.
pub proof fn law_json_is_kept(content: Seq<char>, t: knowledge::Tool)
    requires
        injected_json(content, t) is Ok,
    ensures
        ({
            let done = injected_json(content, t)->Ok_0;
            let path = splice_path(json::parsed(content)->Ok_0);
            let close = splice::close_brace(content, path)->Ok_0;
            &&& text::trim_end(content.take(close)).is_prefix_of(done)
            &&& content.skip(close).is_suffix_of(done)
        }),
{
    let done = injected_json(content, t)->Ok_0;
    let root = json::parsed(content)->Ok_0;
    let path = splice_path(root);
    let close = splice::close_brace(content, path)->Ok_0;
    let front = text::trim_end(content.take(close));
    let back = content.skip(close);
    let indent = config::indent_from(text::lines(content), 1);
    let middle = splice_comma(root, path) + splice_text(path, t, indent);
    assert(done =~= front + middle + back);
    assert(front =~= done.take(front.len() as int));
    assert(back =~= done.skip(done.len() - back.len()));
}

/// A hook goes into the hooks of a `package.json` if they are there, else into nizm's own
/// object if that is there, else into the root; a comma comes before it exactly if
/// something is there already.
pub proof fn law_where_a_json_hook_goes(root: Tree, path: Seq<Seq<char>>)
    ensures
        object_at(root, seq!["nizm"@, "hooks"@]) is Some ==> splice_path(root) == seq![
            "nizm"@,
            "hooks"@,
        ],
        object_at(root, seq!["nizm"@, "hooks"@]) is None && document::child(root, "nizm"@) is Some
            ==> splice_path(root) == seq!["nizm"@],
        document::child(root, "nizm"@) is None ==> splice_path(root) == Seq::<Seq<char>>::empty(),
        object_at(root, path) matches Some(e) ==> (splice_comma(root, path) == seq![','] <==> e.len()
            > 0),
        object_at(root, path) matches Some(e) ==> (splice_comma(root, path).len() == 0 <==> e.len()
            == 0),
        object_at(root, path) is None ==> splice_comma(root, path).len() == 0,
{
    reveal_strlit(",");
    assert(","@ =~= seq![',']);
    if document::child(root, "nizm"@) is None {
        let keys = seq!["nizm"@, "hooks"@];
        assert(keys[0] == "nizm"@);
        assert(document::descend(root, keys) is None);
    }
}

/// What is written for a hook: its name, its command and its glob, each as a JSON string,
/// with the objects around it that are not there yet, each level indented once more.
pub proof fn law_text_of_a_json_hook(t: knowledge::Tool, i: Seq<char>)
    ensures
        ({
            let cmd = "\"cmd\": "@ + json_text(t.cmd);
            let body = match t.glob {
                Some(g) => "{\n"@ + (i + i + i + i) + cmd + ",\n"@ + (i + i + i + i)
                    + "\"glob\": "@ + json_text(g) + "\n"@ + (i + i + i) + "}"@,
                None => "{ "@ + cmd + " }"@,
            };
            let hook = (i + i + i) + "\""@ + t.name + "\": "@ + body + "\n"@ + (i + i);
            let hooks = (i + i) + "\"hooks\": {\n"@ + hook + "}\n"@ + i;
            &&& splice_text(seq!["nizm"@, "hooks"@], t, i) == "\n"@ + hook
            &&& splice_text(seq!["nizm"@], t, i) == "\n"@ + hooks
            &&& splice_text(Seq::<Seq<char>>::empty(), t, i) == "\n"@ + i + "\"nizm\": {\n"@
                + hooks + "}\n"@
        }),
{
    let none = Seq::<char>::empty();
    reveal_with_fuel(times, 5);
    assert(times(i, 1) =~= i);
    assert(times(i, 2) =~= i + i);
    assert(times(i, 3) =~= i + i + i);
    assert(times(i, 4) =~= i + i + i + i);
    let cmd = "\"cmd\": "@ + json_text(t.cmd);
    let body = match t.glob {
        Some(g) => "{\n"@ + (i + i + i + i) + cmd + ",\n"@ + (i + i + i + i) + "\"glob\": "@
            + json_text(g) + "\n"@ + (i + i + i) + "}"@,
        None => "{ "@ + cmd + " }"@,
    };
    reveal_strlit("{ \"cmd\": ");
    reveal_strlit("{ ");
    reveal_strlit("\"cmd\": ");
    assert("{ \"cmd\": "@ =~= "{ "@ + "\"cmd\": "@);
    assert(json_hook(t, i) =~= body);
}

// ---- any manifest ----

/// What came of putting the hook for a tool into a manifest.
pub open spec fn is_injected(
    r: Result<String, String>,
    path: Seq<char>,
    content: Seq<char>,
    t: knowledge::Tool,
) -> bool {
    match config::kind_at(path) {
        None => r is Err && r->Err_0@ == config::unsupported(path),
        Some(config::ManifestKind::PackageJson) => {
            let done = injected_json(content, t);
            &&& r is Ok <==> done is Ok
            &&& r matches Ok(x) ==> x@ == done->Ok_0
            &&& r matches Err(e) ==> e@ == done->Err_0
        },
        Some(kind) => is_injected_toml(r, content, config::hooks_path(kind), t),
    }
}

/// Puts the hook for a tool into a manifest.
pub fn inject_hook(path: &str, content: &str, entry: &knowledge::ToolEntry) -> (r: Result<
    String,
    String,
>)
    ensures
        is_injected(r, path@, content@, entry@),
{
    let kind = match config::kind_of_path(path) {
        Ok(k) => k,
        Err(e) => return Err(e),
    };
    match kind {
        config::ManifestKind::PackageJson => inject_json(content, entry),
        _ => inject_toml(content, &config::hooks_table_path(kind), entry),
    }
}

// ---- laws on whole manifests ----

/// A manifest is offered a hook exactly if the tool is in use there and has none: what it
/// describes already is not offered again, and a file that is no manifest is offered
/// nothing.
pub proof fn law_offered_to_a_manifest(path: Seq<char>, content: Seq<char>, s: Suggested)
    ensures
        config::kind_at(path) is None ==> scan_offers(path, content).len() == 0 && !names_tools(
            path,
            content,
        ),
        config::kind_at(path) matches Some(kind) ==> (scan_offers(path, content).contains(s)
            <==> s.manifest == path && tools_in_use(
            dev_deps(kind, content),
            is_rust_package(kind, content),
        ).contains(s.tool) && !existing_hooks(path, content).contains(s.tool.name)),
        config::kind_at(path) matches Some(kind) ==> (names_tools(path, content) <==> dev_deps(
            kind,
            content,
        ).len() > 0 || is_rust_package(kind, content)),
{
    match config::kind_at(path) {
        Some(kind) => {
            law_offered(
                path,
                tools_in_use(dev_deps(kind, content), is_rust_package(kind, content)),
                existing_hooks(path, content),
                s,
            );
        },
        None => {},
    }
}

/// The hooks that a manifest has already are those that it describes, by name; a manifest
/// that is not in order, or no manifest, has none.
pub proof fn law_hooks_there_already(
    path: Seq<char>,
    content: Seq<char>,
    kind: config::ManifestKind,
    list: Seq<(Seq<char>, config::HookSpec)>,
    i: int,
)
    requires
        config::kind_at(path) == Some(kind),
    ensures
        config::manifest_hooks(kind, content) is Err ==> existing_hooks(path, content).len() == 0,
        config::manifest_hooks(kind, content) == Ok::<Seq<(Seq<char>, config::HookSpec)>, Seq<char>>(
            list,
        ) ==> existing_hooks(path, content).len() == list.len() && (0 <= i < list.len()
            ==> existing_hooks(path, content)[i] == list[i].0),
{
}

/// Every manifest adds what it is offered, in order.
pub proof fn law_offers_add_up(files: Seq<(Seq<char>, Seq<char>)>, more: (Seq<char>, Seq<char>))
    ensures
        all_offers(Seq::<(Seq<char>, Seq<char>)>::empty()).len() == 0,
        all_offers(files.push(more)) == all_offers(files) + scan_offers(more.0, more.1),
{
    assert(files.push(more).drop_last() =~= files);
}

/// `ruff` is configured at most once: where `tool.ruff` is there, nothing is done.
pub proof fn law_ruff_is_configured_once(content: Seq<char>, t: Tree)
    requires
        toml::toml_tree(content) == Ok::<Tree, Seq<char>>(t),
    ensures
        document::descend(t, seq!["tool"@, "ruff"@]) is Some ==> ruff_configured(content) is Ok
            && ruff_configured(content)->Ok_0 is None,
        document::descend(t, seq!["tool"@, "ruff"@]) is None && ruff_configured(content) is Ok
            ==> ruff_configured(content)->Ok_0 is Some,
{
}

/// The files that configure `prettier`: `.prettierrc` as it is or in one of these formats,
/// and a script named `prettier.config`.
pub proof fn law_prettier_files(name: Seq<char>)
    ensures
        configures_prettier(name) <==> name == ".prettierrc"@ || name == ".prettierrc"@ + ".json"@
            || name == ".prettierrc"@ + ".yml"@ || name == ".prettierrc"@ + ".yaml"@ || name
            == ".prettierrc"@ + ".toml"@ || name == ".prettierrc"@ + ".js"@ || name
            == ".prettierrc"@ + ".cjs"@ || name == ".prettierrc"@ + ".mjs"@ || name
            == "prettier.config"@ + ".js"@ || name == "prettier.config"@ + ".cjs"@ || name
            == "prettier.config"@ + ".mjs"@,
{
    reveal_strlit(".prettierrc");
    reveal_strlit(".json");
    reveal_strlit(".yml");
    reveal_strlit(".yaml");
    reveal_strlit(".toml");
    reveal_strlit(".js");
    reveal_strlit(".cjs");
    reveal_strlit(".mjs");
    reveal_strlit("prettier.config");
    reveal_strlit(".prettierrc.json");
    reveal_strlit(".prettierrc.yml");
    reveal_strlit(".prettierrc.yaml");
    reveal_strlit(".prettierrc.toml");
    reveal_strlit(".prettierrc.js");
    reveal_strlit(".prettierrc.cjs");
    reveal_strlit(".prettierrc.mjs");
    reveal_strlit("prettier.config.js");
    reveal_strlit("prettier.config.cjs");
    reveal_strlit("prettier.config.mjs");
    assert(".prettierrc.json"@ =~= ".prettierrc"@ + ".json"@);
    assert(".prettierrc.yml"@ =~= ".prettierrc"@ + ".yml"@);
    assert(".prettierrc.yaml"@ =~= ".prettierrc"@ + ".yaml"@);
    assert(".prettierrc.toml"@ =~= ".prettierrc"@ + ".toml"@);
    assert(".prettierrc.js"@ =~= ".prettierrc"@ + ".js"@);
    assert(".prettierrc.cjs"@ =~= ".prettierrc"@ + ".cjs"@);
    assert(".prettierrc.mjs"@ =~= ".prettierrc"@ + ".mjs"@);
    assert("prettier.config.js"@ =~= "prettier.config"@ + ".js"@);
    assert("prettier.config.cjs"@ =~= "prettier.config"@ + ".cjs"@);
    assert("prettier.config.mjs"@ =~= "prettier.config"@ + ".mjs"@);
}

/// A hook goes to the place of hooks in its kind of manifest, and nowhere else; what is no
/// manifest is refused.
pub proof fn law_where_a_hook_goes(
    r: Result<String, String>,
    path: Seq<char>,
    content: Seq<char>,
    t: knowledge::Tool,
)
    requires
        is_injected(r, path, content, t),
    ensures
        config::kind_at(path) is None ==> r is Err && r->Err_0@ == config::unsupported(path),
        config::kind_at(path) == Some(config::ManifestKind::Pyproject) ==> is_injected_toml(
            r,
            content,
            seq!["tool"@, "nizm"@, "hooks"@],
            t,
        ),
        config::kind_at(path) == Some(config::ManifestKind::Cargo) ==> is_injected_toml(
            r,
            content,
            seq!["package"@, "metadata"@, "nizm"@, "hooks"@],
            t,
        ),
        config::kind_at(path) == Some(config::ManifestKind::NizmToml) ==> is_injected_toml(
            r,
            content,
            seq!["hooks"@],
            t,
        ),
        config::kind_at(path) == Some(config::ManifestKind::PackageJson) ==> (r is Ok
            <==> injected_json(content, t) is Ok),
{
    config::law_where_hooks_are(config::ManifestKind::Pyproject);
    config::law_where_hooks_are(config::ManifestKind::Cargo);
    config::law_where_hooks_are(config::ManifestKind::NizmToml);
}

/// Putting a hook into a TOML manifest puts it there, under its name, with its command and
/// its glob, and changes nothing that is unrelated to it.
pub proof fn law_injected_toml_hook_is_there(
    r: Result<String, String>,
    content: Seq<char>,
    path: Seq<Seq<char>>,
    t: knowledge::Tool,
    other: Seq<Seq<char>>,
)
    requires
        is_injected_toml(r, content, path, t),
        r is Ok,
    ensures
        exists|d: toml_edit::DocumentMut|
            {
                let tree = toml::table_tree(toml::root(d));
                &&& r->Ok_0@ == #[trigger] toml::rendered(d)
                &&& document::descend(tree, path.push(t.name)) == Some(
                    Tree::Record(
                        match t.glob {
                            Some(g) => seq![
                                ("cmd"@, Tree::Text(t.cmd)),
                                ("glob"@, Tree::Text(g)),
                            ],
                            None => seq![("cmd"@, Tree::Text(t.cmd))],
                        },
                    ),
                )
                &&& toml::unrelated(other, path.push(t.name)) ==> document::descend(tree, other)
                    == document::descend(
                    toml::table_tree(toml::root(toml::parsed(content)->Ok_0)),
                    other,
                )
            },
{
    let edited = toml::document_with(content, path, t.name, toml::record_item(hook_fields(t)));
    let d = edited->Ok_0;
    assert(r->Ok_0@ == toml::rendered(d));
    let e = toml::text_entries(hook_fields(t));
    match t.glob {
        Some(g) => {
            assert(e =~= seq![("cmd"@, Tree::Text(t.cmd)), ("glob"@, Tree::Text(g))]);
        },
        None => {
            assert(e =~= seq![("cmd"@, Tree::Text(t.cmd))]);
        },
    }
}

} // verus!
