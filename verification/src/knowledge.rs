//! The tools that hooks are suggested for.

use crate::text;
use vstd::prelude::*;
use vstd::string::*;

verus! {

broadcast use {group_string_axioms, vstd::seq::group_seq_axioms};

/// A tool that can be run as a hook.
#[derive(Debug)]
pub struct ToolEntry {
    /// Package names that identify this tool in dev-dependencies.
    pub packages: Vec<&'static str>,
    pub name: &'static str,
    pub cmd: &'static str,
    pub glob: Option<&'static str>,
}

/// What a `ToolEntry` says.
pub struct Tool {
    pub packages: Seq<Seq<char>>,
    pub name: Seq<char>,
    pub cmd: Seq<char>,
    pub glob: Option<Seq<char>>,
}

impl View for ToolEntry {
    type V = Tool;

    open spec fn view(&self) -> Tool {
        Tool {
            packages: text::str_views(self.packages@),
            name: self.name@,
            cmd: self.cmd@,
            glob: match self.glob {
                Some(g) => Some(g@),
                None => None,
            },
        }
    }
}

/// What the entries of a list say.
pub open spec fn tools_of(v: Seq<ToolEntry>) -> Seq<Tool> {
    Seq::new(v.len(), |i: int| v[i]@)
}

/// A tool that one package identifies.
pub open spec fn tool(
    package: Seq<char>,
    name: Seq<char>,
    cmd: Seq<char>,
    glob: Option<Seq<char>>,
) -> Tool {
    Tool { packages: seq![package], name, cmd, glob }
}

/// The known tools.
pub open spec fn known_tools() -> Seq<Tool> {
    seq![
        tool("black"@, "black"@, "black {staged_files}"@, Some("*.py"@)),
        tool(
            "ruff"@,
            "ruff"@,
            "ruff check --fix {staged_files} && ruff format {staged_files}"@,
            Some("*.py"@),
        ),
        tool("mypy"@, "mypy"@, "mypy {staged_files}"@, Some("*.py"@)),
        tool("prettier"@, "prettier"@, "prettier --write {staged_files}"@, None),
        tool("eslint"@, "eslint"@, "eslint --fix {staged_files}"@, Some("*.{js,jsx,ts,tsx}"@)),
        tool("@biomejs/biome"@, "biome"@, "biome check --write {staged_files}"@, None),
    ]
}

/// The tools that come with Rust, for any crate.
pub open spec fn rust_tools() -> Seq<Tool> {
    seq![
        Tool {
            packages: seq![],
            name: "clippy"@,
            cmd: "cargo clippy --fix --allow-dirty -- -D warnings"@,
            glob: Some("*.rs"@),
        },
        Tool {
            packages: seq![],
            name: "rustfmt"@,
            cmd: "cargo fmt"@,
            glob: Some("*.rs"@),
        },
    ]
}

fn entry(
    package: &'static str,
    name: &'static str,
    cmd: &'static str,
    glob: Option<&'static str>,
) -> (r: ToolEntry)
    ensures
        r@ == tool(
            package@,
            name@,
            cmd@,
            match glob {
                Some(g) => Some(g@),
                None => None,
            },
        ),
{
    let mut packages: Vec<&'static str> = Vec::new();
    packages.push(package);
    proof {
        assert(text::str_views(packages@) =~= seq![package@]);
    }
    ToolEntry { packages, name, cmd, glob }
}

/// The known tools.
pub fn tools() -> (r: Vec<ToolEntry>)
    ensures
        tools_of(r@) == known_tools(),
{
    let mut v: Vec<ToolEntry> = Vec::new();
    v.push(entry("black", "black", "black {staged_files}", Some("*.py")));
    v.push(
        entry(
            "ruff",
            "ruff",
            "ruff check --fix {staged_files} && ruff format {staged_files}",
            Some("*.py"),
        ),
    );
    v.push(entry("mypy", "mypy", "mypy {staged_files}", Some("*.py")));
    v.push(entry("prettier", "prettier", "prettier --write {staged_files}", None));
    v.push(entry("eslint", "eslint", "eslint --fix {staged_files}", Some("*.{js,jsx,ts,tsx}")));
    v.push(entry("@biomejs/biome", "biome", "biome check --write {staged_files}", None));
    proof {
        assert(tools_of(v@) =~= known_tools());
    }
    v
}

/// The tools that come with Rust, for any crate.
pub fn rust_implicit() -> (r: Vec<ToolEntry>)
    ensures
        tools_of(r@) == rust_tools(),
{
    let mut v: Vec<ToolEntry> = Vec::new();
    v.push(
        ToolEntry {
            packages: Vec::new(),
            name: "clippy",
            cmd: "cargo clippy --fix --allow-dirty -- -D warnings",
            glob: Some("*.rs"),
        },
    );
    v.push(
        ToolEntry {
            packages: Vec::new(),
            name: "rustfmt",
            cmd: "cargo fmt",
            glob: Some("*.rs"),
        },
    );
    proof {
        assert(text::str_views(v[0].packages@) =~= seq![]);
        assert(text::str_views(v[1].packages@) =~= seq![]);
        assert(tools_of(v@) =~= rust_tools());
    }
    v
}

/// The known tools that the package `dep` identifies.
pub open spec fn tools_for(dep: Seq<char>) -> Seq<Tool> {
    known_tools().filter(|t: Tool| t.packages.contains(dep))
}

/// Does one of the packages have the name `dep`?
fn names_package(packages: &Vec<&'static str>, dep: &str) -> (r: bool)
    ensures
        r == text::str_views(packages@).contains(dep@),
{
    let mut i: usize = 0;
    while i < packages.len()
        invariant
            i <= packages.len(),
            forall|j: int| 0 <= j < i ==> text::str_views(packages@)[j] != dep@,
        decreases packages.len() - i,
    {
        if text::same(packages[i], dep) {
            proof {
                assert(text::str_views(packages@)[i as int] == dep@);
            }
            return true;
        }
        i += 1;
    }
    false
}

/// The tool entries for a given dependency name.
pub fn lookup(dep_name: &str) -> (r: Vec<ToolEntry>)
    ensures
        tools_of(r@) == tools_for(dep_name@),
{
    let mut all = tools();
    let ghost table = known_tools();
    let ghost pred = |t: Tool| t.packages.contains(dep_name@);
    let mut out: Vec<ToolEntry> = Vec::new();
    proof {
        reveal(Seq::filter);
        assert(tools_of(out@) =~= table.take(0).filter(pred));
    }
    let mut done: usize = 0;
    while all.len() > 0
        invariant
            done + all.len() == table.len(),
            table == known_tools(),
            tools_of(all@) == table.skip(done as int),
            pred == (|t: Tool| t.packages.contains(dep_name@)),
            tools_of(out@) == table.take(done as int).filter(pred),
        decreases all.len(),
    {
        let ghost rest = all@;
        let ghost before = out@;
        let e = all.remove(0);
        proof {
            reveal(Seq::filter);
            assert(e@ == tools_of(rest)[0]);
            assert(e@ == table[done as int]);
            assert(tools_of(all@) =~= table.skip(done + 1)) by {
                assert forall|i: int| 0 <= i < all.len() implies tools_of(all@)[i] == table.skip(
                    done + 1,
                )[i] by {
                    assert(all@[i] == rest[i + 1]);
                    assert(tools_of(rest)[i + 1] == table.skip(done as int)[i + 1]);
                }
            }
            assert(table.take(done + 1).drop_last() =~= table.take(done as int));
        }
        if names_package(&e.packages, dep_name) {
            out.push(e);
            proof {
                assert(tools_of(out@) =~= tools_of(before).push(e@));
            }
        }
        done += 1;
    }
    proof {
        assert(table.take(done as int) =~= table);
    }
    out
}

// ---- laws ----

/// Each known package stands for one tool, which hooks run on the files of its language;
/// other packages stand for none.
pub proof fn law_known_packages(dep: Seq<char>)
    ensures
        dep == "black"@ ==> tools_for(dep).len() == 1 && tools_for(dep)[0].name == "black"@
            && tools_for(dep)[0].glob == Some("*.py"@) && tools_for(dep)[0].cmd
            == "black {staged_files}"@,
        dep == "ruff"@ ==> tools_for(dep).len() == 1 && tools_for(dep)[0].name == "ruff"@
            && tools_for(dep)[0].glob == Some("*.py"@) && tools_for(dep)[0].cmd
            == "ruff check --fix {staged_files} && ruff format {staged_files}"@,
        dep == "mypy"@ ==> tools_for(dep).len() == 1 && tools_for(dep)[0].name == "mypy"@
            && tools_for(dep)[0].glob == Some("*.py"@) && tools_for(dep)[0].cmd
            == "mypy {staged_files}"@,
        dep == "prettier"@ ==> tools_for(dep).len() == 1 && tools_for(dep)[0].name == "prettier"@
            && tools_for(dep)[0].glob == None::<Seq<char>> && tools_for(dep)[0].cmd
            == "prettier --write {staged_files}"@,
        dep == "eslint"@ ==> tools_for(dep).len() == 1 && tools_for(dep)[0].name == "eslint"@
            && tools_for(dep)[0].glob == Some("*.{js,jsx,ts,tsx}"@) && tools_for(dep)[0].cmd
            == "eslint --fix {staged_files}"@,
        dep == "@biomejs/biome"@ ==> tools_for(dep).len() == 1 && tools_for(dep)[0].name == "biome"@
            && tools_for(dep)[0].glob == None::<Seq<char>> && tools_for(dep)[0].cmd
            == "biome check --write {staged_files}"@,
        dep != "black"@ && dep != "ruff"@ && dep != "mypy"@ && dep != "prettier"@ && dep
            != "eslint"@ && dep != "@biomejs/biome"@ ==> tools_for(dep).len() == 0,
{
    reveal_strlit("black");
    reveal_strlit("ruff");
    reveal_strlit("mypy");
    reveal_strlit("prettier");
    reveal_strlit("eslint");
    reveal_strlit("@biomejs/biome");
    assert("black"@.len() == 5 && "ruff"@.len() == 4 && "mypy"@.len() == 4);
    assert("ruff"@[0] == 'r' && "mypy"@[0] == 'm');
    assert("prettier"@.len() == 8 && "eslint"@.len() == 6 && "@biomejs/biome"@.len() == 14);
    let all = known_tools();
    let pred = |t: Tool| t.packages.contains(dep);
    assert forall|i: int| 0 <= i < all.len() implies (pred(#[trigger] all[i]) <==> all[i].packages[0]
        == dep) by {
        let one = all[i].packages;
        assert(one.len() == 1);
        if one.contains(dep) {
            let k = choose|k: int| 0 <= k < one.len() && one[k] == dep;
            assert(k == 0);
        }
    }
    lemma_filter_step(all, pred, 6);
    assert(all.take(6) =~= all);
    lemma_filter_step(all, pred, 5);
    lemma_filter_step(all, pred, 4);
    lemma_filter_step(all, pred, 3);
    lemma_filter_step(all, pred, 2);
    lemma_filter_step(all, pred, 1);
    reveal(Seq::filter);
    assert(all.take(0).filter(pred) =~= seq![]);
    if dep == "black"@ {
        assert(tools_for(dep) =~= seq![all[0]]);
    } else if dep == "ruff"@ {
        assert(tools_for(dep) =~= seq![all[1]]);
    } else if dep == "mypy"@ {
        assert(tools_for(dep) =~= seq![all[2]]);
    } else if dep == "prettier"@ {
        assert(tools_for(dep) =~= seq![all[3]]);
    } else if dep == "eslint"@ {
        assert(tools_for(dep) =~= seq![all[4]]);
    } else if dep == "@biomejs/biome"@ {
        assert(tools_for(dep) =~= seq![all[5]]);
    } else {
        assert(tools_for(dep) =~= seq![]);
    }
}

proof fn lemma_filter_step(all: Seq<Tool>, pred: spec_fn(Tool) -> bool, n: int)
    requires
        0 < n <= all.len(),
    ensures
        all.take(n).filter(pred) == if pred(all[n - 1]) {
            all.take(n - 1).filter(pred).push(all[n - 1])
        } else {
            all.take(n - 1).filter(pred)
        },
{
    reveal(Seq::filter);
    assert(all.take(n).drop_last() =~= all.take(n - 1));
}

/// Rust brings `clippy` and `rustfmt`, which run on Rust files and need no package.
pub proof fn law_rust_brings_its_tools()
    ensures
        rust_tools().len() == 2,
        rust_tools()[0].name == "clippy"@,
        rust_tools()[0].cmd == "cargo clippy --fix --allow-dirty -- -D warnings"@,
        rust_tools()[1].name == "rustfmt"@,
        rust_tools()[1].cmd == "cargo fmt"@,
        forall|i: int|
            0 <= i < rust_tools().len() ==> (#[trigger] rust_tools()[i]).glob == Some("*.rs"@)
                && rust_tools()[i].packages.len() == 0,
{
}

} // verus!
