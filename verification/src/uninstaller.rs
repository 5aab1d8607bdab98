//! Taking nizm out of a repository: its block out of the hook scripts, its
//! hooks out of the manifests.

use crate::config;
use crate::document;
use crate::document::Tree;
use crate::installer;
use crate::json;
use crate::style;
use crate::text;
use crate::toml;
use vstd::prelude::*;
use vstd::string::*;

verus! {

broadcast use {group_string_axioms, vstd::seq::group_seq_axioms};

// ---- hook scripts ----

/// The text without the empty lines at its end.
pub open spec fn squeezed(s: Seq<char>) -> Seq<char>
    decreases s.len(),
{
    if s.len() >= 2 && s.last() == '\n' && s[s.len() - 2] == '\n' {
        squeezed(s.drop_last())
    } else {
        s
    }
}

/// The text without the empty lines at its end, and with a line feed behind its
/// last line.
pub open spec fn tidy(s: Seq<char>) -> Seq<char> {
    let t = squeezed(s);
    if t.len() > 0 && t.last() != '\n' {
        t.push('\n')
    } else {
        t
    }
}

/// The script without nizm's block.
pub open spec fn without_block(content: Seq<char>) -> Seq<char> {
    let ls = text::lines(content);
    match installer::bounds(installer::script_lines(content)) {
        Some(b) => tidy(text::join(ls.take(b.0) + ls.skip(b.1 + 1), seq!['\n'])),
        None => content,
    }
}

/// The script without nizm's block; a script without one as it is.
pub fn remove_block(content: &str) -> (r: String)
    ensures
        r@ == without_block(content@),
{
    let lines = text::split_lines(content);
    let (start, end) = match installer::find_block_bounds(&lines) {
        Some(b) => b,
        None => return String::from_str(content),
    };
    let mut result: Vec<String> = Vec::new();
    proof {
        assert(text::views(result@) =~= seq![]);
    }
    installer::copy_lines(&mut result, &lines, 0, start);
    installer::copy_lines(&mut result, &lines, end + 1, lines.len());
    let out = text::joined(&result, "\n");
    proof {
        reveal_strlit("\n");
        assert("\n"@ =~= seq!['\n']);
        let ls = text::lines(content@);
        assert(text::views(result@) =~= ls.take(start as int) + ls.skip(end + 1));
    }
    let v = text::chars_of(out.as_str());
    let mut n: usize = v.len();
    proof {
        assert(v@.take(n as int) =~= v@);
    }
    while n >= 2 && v[n - 1] == '\n' && v[n - 2] == '\n'
        invariant
            n <= v.len(),
            squeezed(v@) == squeezed(v@.take(n as int)),
        decreases n,
    {
        proof {
            assert(v@.take(n as int).drop_last() =~= v@.take(n - 1));
            assert(v@.take(n as int).last() == v@[n - 1]);
            assert(v@.take(n as int)[n - 2] == v@[n - 2]);
        }
        n -= 1;
    }
    proof {
        if n >= 1 {
            assert(v@.take(n as int).last() == v@[n - 1]);
        }
        if n >= 2 {
            assert(v@.take(n as int)[n - 2] == v@[n - 2]);
        }
        assert(squeezed(v@) == v@.take(n as int));
    }
    let mut kept = text::substring(&v, 0, n);
    proof {
        assert(kept@ =~= v@.take(n as int));
    }
    if n > 0 && v[n - 1] != '\n' {
        kept.push('\n');
    }
    kept
}

/// What to do with a hook script.
pub enum Removal {
    /// It holds no block of nizm's.
    Leave,
    /// Nothing but the block is in it.
    Delete,
    /// Write what is left of it.
    Write(String),
}

/// Nothing but the interpreter is left of the script.
pub open spec fn is_bare(rest: Seq<char>) -> bool {
    text::trim(rest).len() == 0 || text::trim(rest) == "#!/bin/sh"@
}

/// What to do with a hook script to take nizm out of it.
pub fn plan_removal(content: &str) -> (r: Removal)
    ensures
        r is Leave <==> !installer::managed(content@),
        r is Delete <==> installer::managed(content@) && is_bare(without_block(content@)),
        r matches Removal::Write(t) ==> t@ == without_block(content@),
{
    if !installer::is_nizm_managed(content) {
        return Removal::Leave;
    }
    let rest = remove_block(content);
    let left = text::trimmed(rest.as_str());
    if left.as_str().is_empty() || text::same(left.as_str(), "#!/bin/sh") {
        Removal::Delete
    } else {
        Removal::Write(rest)
    }
}

/// The line that says what became of the script; empty where nothing did.
pub open spec fn removal_text(hook_type: config::HookType, done: Removal, color: bool) -> Seq<
    char,
> {
    let name = config::stage_name(hook_type);
    match done {
        Removal::Leave => seq![],
        Removal::Delete => style::green_text(name + " hook removed"@, color),
        Removal::Write(_) => style::green_text(
            "nizm block removed from "@ + name + " hook"@,
            color,
        ),
    }
}

/// The line that says what became of the script; empty where nothing did.
pub fn removal_line(hook_type: config::HookType, done: &Removal, color: bool) -> (r: String)
    ensures
        r@ == removal_text(hook_type, *done, color),
{
    match done {
        Removal::Leave => String::new(),
        Removal::Delete => {
            let mut t = String::from_str(hook_type.as_str());
            t.append(" hook removed");
            style::green(t.as_str(), color)
        },
        Removal::Write(_) => {
            let mut t = String::from_str("nizm block removed from ");
            t.append(hook_type.as_str());
            t.append(" hook");
            style::green(t.as_str(), color)
        },
    }
}

/// A script that held only nizm's block is deleted again.
pub proof fn law_uninstall_deletes(block: Seq<char>)
    requires
        installer::is_block(block),
    ensures
        installer::managed(installer::fresh(block)),
        is_bare(without_block(installer::fresh(block))),
{
    let nl = seq!['\n'];
    let sh = "#!/bin/sh"@;
    let c = installer::fresh(block);
    let a = seq![sh];
    let m = installer::script_lines(block);
    let z = Seq::<Seq<char>>::empty();
    installer::lemma_fresh_lines(block);
    assert(installer::script_lines(c) =~= a + m + z);
    installer::lemma_holds_block(c, a, block, z);
    let ls = text::lines(c);
    let b = installer::bounds(installer::script_lines(c))->0;
    assert(ls.take(b.0) + ls.skip(b.1 + 1) =~= seq![sh]);
    assert(text::join(seq![sh], nl) == sh);
    reveal_strlit("#!/bin/sh");
    assert(sh.len() == 9 && sh.last() == 'h');
    assert(squeezed(sh) == sh);
    text::lemma_trim_push(sh, '\n');
}

/// Taking the block out of a script that it was appended to gives the script
/// back, but for empty lines at its end. A script with carriage returns loses
/// those before line feeds, and one that held a line that opens a block loses
/// what stands behind it.
pub proof fn law_uninstall_restores(content: Seq<char>, block: Seq<char>)
    requires
        installer::is_block(block),
        content.len() > 0,
        !content.contains('\r'),
        !installer::script_lines(content).contains(installer::BLOCK_START@),
    ensures
        installer::plan(Some(content), block) == installer::Plan::Append(
            installer::appended(content, block),
        ),
        installer::managed(installer::appended(content, block)),
        without_block(installer::appended(content, block)) == tidy(content),
        content.last() == '\n' && (content.len() == 1 || content[content.len() - 2] != '\n')
            ==> without_block(installer::appended(content, block)) == content,
{
    let nl = seq!['\n'];
    let none = Seq::<char>::empty();
    let c = installer::appended(content, block);
    let own = text::lines(content);
    let ts = installer::script_lines(content);
    let m = installer::script_lines(block);
    let a = ts + seq![none];
    let z = Seq::<Seq<char>>::empty();
    installer::lemma_markers();
    installer::lemma_appended_lines(content, block);
    assert(content.contains(content[content.len() - 1]));
    assert(installer::script_lines(c) =~= a + m + z);
    assert forall|i: int| 0 <= i < a.len() implies #[trigger] a[i] != installer::BLOCK_START@ by {
        if i < ts.len() {
            assert(ts.contains(ts[i]));
        }
    }
    installer::lemma_holds_block(c, a, block, z);
    let ls = text::lines(c);
    let b = installer::bounds(installer::script_lines(c))->0;
    let kept = own + seq![none];
    assert(ls.take(b.0) + ls.skip(b.1 + 1) =~= kept);
    text::lemma_join_lines(content);
    text::lemma_lines_are_lines(content);
    assert(kept.drop_last() =~= own);
    assert(text::join(kept, nl) == text::join(own, nl) + nl + none);
    if content.last() == '\n' {
        assert(text::join(kept, nl) =~= content);
        let n = content.len();
        if n >= 2 && content[n - 2] == '\n' {
        } else {
            assert(squeezed(content) == content);
        }
    } else {
        assert(text::join(kept, nl) =~= content.push('\n'));
        assert(squeezed(content) == content);
        assert(squeezed(content.push('\n')) == content.push('\n'));
    }
}

/// Tidying a text leaves what stands between the white space around it.
proof fn lemma_tidy_trim(s: Seq<char>)
    ensures
        text::trim(tidy(s)) == text::trim(s),
{
    lemma_squeezed_trim(s);
    let t = squeezed(s);
    if t.len() > 0 && t.last() != '\n' {
        text::lemma_trim_push(t, '\n');
    }
}

proof fn lemma_squeezed_trim(s: Seq<char>)
    ensures
        text::trim(squeezed(s)) == text::trim(s),
    decreases s.len(),
{
    if s.len() >= 2 && s.last() == '\n' && s[s.len() - 2] == '\n' {
        lemma_squeezed_trim(s.drop_last());
        text::lemma_trim_push(s.drop_last(), '\n');
        assert(s.drop_last().push('\n') =~= s);
    }
}

/// A script with a line of its own is not deleted: one that holds, outside nizm's
/// block, a line that is neither blank nor just the interpreter `#!/bin/sh` (but for
/// white space around it).
pub proof fn law_own_lines_are_not_deleted(content: Seq<char>, i: int)
    requires
        0 <= i < text::lines(content).len(),
        text::trim(text::lines(content)[i]).len() > 0,
        text::trim(text::lines(content)[i]) != "#!/bin/sh"@,
        installer::bounds(installer::script_lines(content)) matches Some(b) ==> !(b.0 <= i
            <= b.1),
    ensures
        !is_bare(without_block(content)),
{
    let ls = text::lines(content);
    let ts = installer::script_lines(content);
    reveal_strlit("#!/bin/sh");
    assert(!"#!/bin/sh"@.contains('\n'));
    match installer::bounds(ts) {
        Some(b) => {
            installer::lemma_start_from(ts, 0);
            installer::lemma_end_before(ts, ts.len() as int);
            let kept = ls.take(b.0) + ls.skip(b.1 + 1);
            let k = if i < b.0 {
                i
            } else {
                i - (b.1 + 1 - b.0)
            };
            assert(kept[k] == ls[i]);
            let (p, q) = text::lemma_joined_place(kept, k);
            text::lemma_trim_around(p, ls[i], q);
            lemma_tidy_trim(text::join(kept, seq!['\n']));
        },
        None => {
            let (p, l, q) = text::lemma_line_place(content, i);
            text::lemma_trim_around(p, l, q);
        },
    }
}

/// A script with a line of its own survives an install and an uninstall: planning the
/// removal of a block that was appended to it is to write the script back, tidied.
pub proof fn law_own_script_is_written_back(content: Seq<char>, block: Seq<char>, i: int)
    requires
        installer::is_block(block),
        !content.contains('\r'),
        !installer::script_lines(content).contains(installer::BLOCK_START@),
        0 <= i < text::lines(content).len(),
        text::trim(text::lines(content)[i]).len() > 0,
        text::trim(text::lines(content)[i]) != "#!/bin/sh"@,
    ensures
        installer::managed(installer::appended(content, block)),
        !is_bare(without_block(installer::appended(content, block))),
        without_block(installer::appended(content, block)) == tidy(content),
{
    if content.len() == 0 {
        assert(text::lines(content) =~= seq![]);
    }
    law_uninstall_restores(content, block);
    reveal_strlit("#!/bin/sh");
    assert(!"#!/bin/sh"@.contains('\n'));
    let (p, l, q) = text::lemma_line_place(content, i);
    text::lemma_trim_around(p, l, q);
    lemma_tidy_trim(content);
}

/// Tidying takes only line feeds from the end of a text, or adds one: what is left
/// begins as the text did, ends in one line feed and no more, and the rest of the text
/// was line feeds.
pub proof fn law_tidy(s: Seq<char>)
    ensures
        s.len() > 0 ==> tidy(s).last() == '\n',
        tidy(s).len() >= 2 ==> tidy(s)[tidy(s).len() - 2] != '\n',
        s.len() == 0 ==> tidy(s).len() == 0,
        forall|i: int| 0 <= i < s.len() && i < tidy(s).len() ==> #[trigger] tidy(s)[i] == s[i],
        forall|i: int| tidy(s).len() <= i < s.len() ==> #[trigger] s[i] == '\n',
        tidy(s).len() <= s.len() + 1,
        tidy(s).len() > s.len() ==> s.last() != '\n',
    decreases s.len(),
{
    if s.len() >= 2 && s.last() == '\n' && s[s.len() - 2] == '\n' {
        let t = s.drop_last();
        law_tidy(t);
        assert(tidy(s) == tidy(t));
        assert forall|i: int| tidy(s).len() <= i < s.len() implies #[trigger] s[i] == '\n' by {
            if i < s.len() - 1 {
                assert(t[i] == s[i]);
            }
        }
        assert forall|i: int| 0 <= i < s.len() && i < tidy(s).len() implies #[trigger] tidy(s)[i]
            == s[i] by {
            if i < t.len() {
                assert(tidy(t)[i] == t[i]);
            }
        }
    }
}

// ---- manifests ----

/// What is left of a TOML document without what stands at the end of the path, and
/// without the sections on the path that are empty then; `None` if nothing stands
/// there.
pub fn purge_toml(content: &str, key_path: &Vec<String>) -> (r: Result<Option<String>, String>)
    ensures
        ({
            let left = toml::purged(content@, text::views(key_path@));
            &&& r is Ok <==> left is Ok
            &&& r matches Err(e) ==> e@ == left->Err_0
            &&& r matches Ok(None) ==> left->Ok_0 is None
            &&& r matches Ok(Some(t)) ==> left->Ok_0 == Some(t@)
        }),
        key_path@.len() > 0 && toml::toml_tree(content@) is Ok ==> (r is Ok && r->Ok_0 is None
            <==> !toml::is_held(
            toml::toml_tree(content@)->Ok_0,
            text::views(key_path@).drop_last(),
            text::views(key_path@).last(),
        )),
        r matches Ok(Some(_)) ==> toml::only_that_goes(content@, text::views(key_path@)),
        r matches Ok(Some(_)) ==> toml::only_empty_go(
            toml::cut_text(content@, text::views(key_path@)),
            text::views(key_path@).drop_last(),
        ),
{
    toml::purge(content, key_path)
}

/// What is left of a `package.json` without its `nizm` entry, written with the
/// indentation that it had; `None` if it has no such entry.
pub open spec fn purged_json(content: Seq<char>) -> Result<Option<Seq<char>>, Seq<char>> {
    match json::parsed(content) {
        Err(e) => Err("failed to parse JSON: "@ + e),
        Ok(Tree::Record(e)) => if document::lookup(e, "nizm"@) is Some {
            Ok(
                Some(
                    json::pretty(
                        Tree::Record(json::without(e, "nizm"@)),
                        config::indent_from(text::lines(content), 1),
                    ).push('\n'),
                ),
            )
        } else {
            Ok(None)
        },
        Ok(_) => Ok(None),
    }
}

/// What is left of a `package.json` without its `nizm` entry; `None` if it has
/// no such entry.
pub fn purge_json(content: &str) -> (r: Result<Option<String>, String>)
    ensures
        ({
            let left = purged_json(content@);
            &&& r is Ok <==> left is Ok
            &&& r matches Err(e) ==> e@ == left->Err_0
            &&& r matches Ok(None) ==> left->Ok_0 is None
            &&& r matches Ok(Some(t)) ==> left->Ok_0 == Some(t@)
        }),
{
    let mut root = match json::parse_value(content) {
        Ok(v) => v,
        Err(e) => {
            let mut m = String::from_str("failed to parse JSON: ");
            m.append(e.as_str());
            return Err(m);
        },
    };
    if !json::remove_key(&mut root, "nizm") {
        return Ok(None);
    }
    let indent = config::detect_json_indent(content);
    match config::serialize_json(&root, indent.as_str()) {
        Ok(t) => Ok(Some(t)),
        Err(e) => Err(e),
    }
}

/// What to do with a manifest to take nizm out of it.
pub enum Purge {
    /// It holds nothing of nizm's.
    Leave,
    /// The file is nizm's own.
    Delete,
    /// Write what is left of it.
    Write(String),
}

/// What is left of a manifest of that kind; `None` if it holds nothing of
/// nizm's.
pub open spec fn purged_manifest(kind: config::ManifestKind, content: Seq<char>) -> Result<
    Option<Seq<char>>,
    Seq<char>,
> {
    match kind {
        config::ManifestKind::PackageJson => purged_json(content),
        _ => toml::purged(content, config::own_path(kind)),
    }
}

/// What to do with a manifest to take nizm out of it. A `.nizm.toml` goes as a
/// whole; a file that is no manifest is left alone.
pub fn plan_purge(manifest_path: &str, content: &str) -> (r: Result<Purge, String>)
    ensures
        match config::kind_at(manifest_path@) {
            None => r is Ok && r->Ok_0 is Leave,
            Some(config::ManifestKind::NizmToml) => r is Ok && r->Ok_0 is Delete,
            Some(kind) => {
                let left = purged_manifest(kind, content@);
                &&& r is Ok <==> left is Ok
                &&& r matches Err(e) ==> e@ == left->Err_0
                &&& r matches Ok(Purge::Leave) ==> left->Ok_0 is None
                &&& r matches Ok(Purge::Write(t)) ==> left->Ok_0 == Some(t@)
                &&& !(r matches Ok(Purge::Delete))
                &&& r matches Ok(Purge::Write(_)) ==> kind == config::ManifestKind::PackageJson || {
                    let own = config::own_path(kind);
                    &&& toml::only_that_goes(content@, own)
                    &&& toml::only_empty_go(toml::cut_text(content@, own), own.drop_last())
                }
            },
        },
{
    let kind = match config::kind_of_path(manifest_path) {
        Ok(k) => k,
        Err(_) => return Ok(Purge::Leave),
    };
    let left = match kind {
        config::ManifestKind::NizmToml => return Ok(Purge::Delete),
        config::ManifestKind::PackageJson => purge_json(content),
        _ => purge_toml(content, &config::own_table_path(kind)),
    };
    match left {
        Ok(Some(t)) => Ok(Purge::Write(t)),
        Ok(None) => Ok(Purge::Leave),
        Err(e) => Err(e),
    }
}

/// A `package.json` keeps all its entries but `nizm`.
pub proof fn law_purge_keeps_others(entries: Seq<(Seq<char>, Tree)>, name: Seq<char>, i: int)
    requires
        config::distinct_names(entries),
        0 <= i < entries.len(),
        entries[i].0 != name,
    ensures
        json::without(entries, name).contains(entries[i]),
        document::lookup(json::without(entries, name), name) is None,
{
    lemma_place_of(entries, name);
    let p = json::place_of(entries, name);
    let left = json::without(entries, name);
    if p < entries.len() {
        if i == entries.len() - 1 {
            assert(left[p] == entries[i]);
        } else {
            assert(left[i] == entries[i]);
        }
        assert forall|k: int| 0 <= k < left.len() implies (#[trigger] left[k]).0 != name by {
            if k == p {
                assert(left[k] == entries[entries.len() - 1]);
                assert(entries[p].0 != entries[entries.len() - 1].0);
            } else {
                assert(left[k] == entries[k]);
                if k < p {
                    assert(entries[k].0 != entries[p].0);
                } else {
                    assert(entries[p].0 != entries[k].0);
                }
            }
        }
    } else {
        assert(left[i] == entries[i]);
    }
    lemma_lookup_none(left, name);
}

proof fn lemma_place_of(entries: Seq<(Seq<char>, Tree)>, name: Seq<char>)
    ensures
        0 <= json::place_of(entries, name) <= entries.len(),
        json::place_of(entries, name) < entries.len() ==> entries[json::place_of(
            entries,
            name,
        )].0 == name,
        forall|i: int|
            0 <= i < json::place_of(entries, name) ==> (#[trigger] entries[i]).0 != name,
    decreases entries.len(),
{
    if entries.len() > 0 && entries[0].0 != name {
        let rest = entries.skip(1);
        lemma_place_of(rest, name);
        assert forall|i: int| 0 <= i < json::place_of(entries, name) implies (
        #[trigger] entries[i]).0 != name by {
            if i > 0 {
                assert(rest[i - 1] == entries[i]);
            }
        }
    }
}

proof fn lemma_lookup_none(entries: Seq<(Seq<char>, Tree)>, name: Seq<char>)
    requires
        forall|i: int| 0 <= i < entries.len() ==> (#[trigger] entries[i]).0 != name,
    ensures
        document::lookup(entries, name) is None,
    decreases entries.len(),
{
    if entries.len() > 0 {
        let rest = entries.skip(1);
        assert forall|i: int| 0 <= i < rest.len() implies (#[trigger] rest[i]).0 != name by {
            assert(rest[i] == entries[i + 1]);
        }
        lemma_lookup_none(rest, name);
    }
}

/// Uninstalling changes a `package.json` exactly if it has an entry of nizm's, and then
/// writes it without that entry; whatever else it is, it is left alone.
pub proof fn law_purged_json(content: Seq<char>, t: Tree)
    requires
        json::parsed(content) == Ok::<Tree, Seq<char>>(t),
    ensures
        !(t is Record) ==> purged_json(content) == Ok::<Option<Seq<char>>, Seq<char>>(None),
        t matches Tree::Record(e) ==> (document::lookup(e, "nizm"@) is None ==> purged_json(content)
            == Ok::<Option<Seq<char>>, Seq<char>>(None)),
        t matches Tree::Record(e) ==> (document::lookup(e, "nizm"@) is Some ==> purged_json(content)
            == Ok::<Option<Seq<char>>, Seq<char>>(
            Some(
                json::pretty(
                    Tree::Record(json::without(e, "nizm"@)),
                    config::indent_from(text::lines(content), 1),
                ) + seq!['\n'],
            ),
        )),
{
    if t is Record {
        let e = t->Record_0;
        let p = json::pretty(
            Tree::Record(json::without(e, "nizm"@)),
            config::indent_from(text::lines(content), 1),
        );
        assert(p.push('\n') =~= p + seq!['\n']);
    }
}

/// What is purged of a manifest is nizm's own table, wherever that kind of manifest has
/// it.
pub proof fn law_what_is_purged(content: Seq<char>)
    ensures
        purged_manifest(config::ManifestKind::PackageJson, content) == purged_json(content),
        purged_manifest(config::ManifestKind::Pyproject, content) == toml::purged(
            content,
            seq!["tool"@, "nizm"@],
        ),
        purged_manifest(config::ManifestKind::Cargo, content) == toml::purged(
            content,
            seq!["package"@, "metadata"@, "nizm"@],
        ),
{
}

/// What is said of a script names its stage, and says whether it was removed or only the
/// block was.
pub proof fn law_removal_lines(hook_type: config::HookType, rest: String)
    ensures
        removal_text(hook_type, Removal::Leave, false).len() == 0,
        removal_text(hook_type, Removal::Delete, false) == config::stage_name(hook_type)
            + " hook removed"@,
        removal_text(hook_type, Removal::Write(rest), false) == "nizm block removed from "@
            + config::stage_name(hook_type) + " hook"@,
{
}

} // verus!
