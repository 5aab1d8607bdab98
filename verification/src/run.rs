//! Running hooks: which of them, in what turn, and what is shown of them.

use crate::config;
use crate::config::{Hook, HookType, ManifestConfig};
use crate::git;
use crate::init;
use crate::path;
use crate::runner;
use crate::runner::HookOutcome;
use crate::style;
use crate::text;
use vstd::prelude::*;
use vstd::string::*;

verus! {

broadcast use {group_string_axioms, vstd::seq::group_seq_axioms};

// ---- which hooks ----

/// The manifests that were read, in order.
pub open spec fn read_ones(results: Seq<Result<ManifestConfig, String>>) -> Seq<ManifestConfig>
    decreases results.len(),
{
    if results.len() == 0 {
        seq![]
    } else {
        match results.last() {
            Ok(c) => read_ones(results.drop_last()).push(c),
            Err(_) => read_ones(results.drop_last()),
        }
    }
}

/// The manifests to take hooks from. Those that the user names have to be in
/// order; of those that were found, the others are passed over.
pub fn gather_configs(results: Vec<Result<ManifestConfig, String>>, named: bool) -> (r: Result<
    Vec<ManifestConfig>,
    String,
>)
    ensures
        r is Ok <==> !named || forall|i: int|
            0 <= i < results@.len() ==> #[trigger] results@[i] is Ok,
        r matches Ok(v) ==> v@ == read_ones(results@),
        r matches Err(e) ==> exists|i: int|
            0 <= i < results@.len() && #[trigger] results@[i] == Err::<ManifestConfig, String>(e)
                && forall|j: int| 0 <= j < i ==> #[trigger] results@[j] is Ok,
{
    let ghost all = results@;
    let mut rest = results;
    let mut out: Vec<ManifestConfig> = Vec::new();
    let ghost mut k: int = 0;
    proof {
        assert(all.skip(0) =~= all);
        assert(out@ =~= read_ones(all.take(0)));
    }
    while rest.len() > 0
        invariant
            0 <= k <= all.len(),
            rest@ == all.skip(k),
            out@ == read_ones(all.take(k)),
            named ==> forall|j: int| 0 <= j < k ==> #[trigger] all[j] is Ok,
            results@ == all,
        decreases rest.len(),
    {
        proof {
            assert(rest@[0] == all[k]);
            assert(all.take(k + 1).drop_last() =~= all.take(k));
            assert(all.take(k + 1).last() == all[k]);
            assert(rest@.remove(0) =~= all.skip(k + 1));
        }
        match rest.remove(0) {
            Ok(c) => {
                out.push(c);
            },
            Err(e) => {
                if named {
                    proof {
                        assert(all[k] == Err::<ManifestConfig, String>(e));
                    }
                    return Err(e);
                }
            },
        }
        proof {
            k = k + 1;
        }
    }
    proof {
        assert(all.take(k) =~= all);
    }
    Ok(out)
}

/// Each manifest that was read counts, in order, and what could not be read does not.
pub proof fn law_read_manifests_count(
    results: Seq<Result<ManifestConfig, String>>,
    c: ManifestConfig,
    e: String,
)
    ensures
        read_ones(Seq::<Result<ManifestConfig, String>>::empty()).len() == 0,
        read_ones(results.push(Ok(c))) == read_ones(results).push(c),
        read_ones(results.push(Err(e))) == read_ones(results),
{
    assert(results.push(Ok(c)).drop_last() =~= results);
    assert(results.push(Err(e)).drop_last() =~= results);
}

/// The path and the hooks of each manifest.
pub open spec fn contents(configs: Seq<ManifestConfig>) -> Seq<(Seq<char>, Seq<Hook>)> {
    Seq::new(configs.len(), |i: int| (configs[i].path@, configs[i].hooks@))
}

/// The hooks of a stage.
pub open spec fn of_stage(hooks: Seq<Hook>, t: HookType) -> Seq<Hook> {
    hooks.filter(|h: Hook| h.hook_type == t)
}

/// The manifests with their hooks of a stage; those without such hooks are left
/// out.
pub open spec fn narrowed(configs: Seq<(Seq<char>, Seq<Hook>)>, t: HookType) -> Seq<
    (Seq<char>, Seq<Hook>),
>
    decreases configs.len(),
{
    if configs.len() == 0 {
        seq![]
    } else {
        let front = narrowed(configs.drop_last(), t);
        let hooks = of_stage(configs.last().1, t);
        if hooks.len() == 0 {
            front
        } else {
            front.push((configs.last().0, hooks))
        }
    }
}

/// The hooks of a stage.
fn keep_stage(hooks: Vec<Hook>, t: HookType) -> (r: Vec<Hook>)
    ensures
        r@ == of_stage(hooks@, t),
{
    let ghost all = hooks@;
    let ghost keep = |h: Hook| h.hook_type == t;
    let mut rest = hooks;
    let mut out: Vec<Hook> = Vec::new();
    let ghost mut k: int = 0;
    proof {
        reveal(Seq::filter);
        assert(all.skip(0) =~= all);
        assert(out@ =~= all.take(0).filter(keep));
    }
    while rest.len() > 0
        invariant
            0 <= k <= all.len(),
            rest@ == all.skip(k),
            keep == (|h: Hook| h.hook_type == t),
            out@ == all.take(k).filter(keep),
        decreases rest.len(),
    {
        proof {
            reveal(Seq::filter);
            assert(rest@[0] == all[k]);
            assert(all.take(k + 1).drop_last() =~= all.take(k));
            assert(all.take(k + 1).last() == all[k]);
            assert(rest@.remove(0) =~= all.skip(k + 1));
        }
        let hook = rest.remove(0);
        if hook.hook_type == t {
            out.push(hook);
        }
        proof {
            k = k + 1;
        }
    }
    proof {
        assert(all.take(k) =~= all);
    }
    out
}

/// The manifests with their hooks of a stage; those without such hooks are left
/// out.
pub fn select_stage(configs: Vec<ManifestConfig>, t: HookType) -> (r: Vec<ManifestConfig>)
    ensures
        contents(r@) == narrowed(contents(configs@), t),
{
    let ghost all = contents(configs@);
    let mut rest = configs;
    let mut out: Vec<ManifestConfig> = Vec::new();
    let ghost mut k: int = 0;
    proof {
        assert(all.skip(0) =~= all);
        assert(contents(out@) =~= narrowed(all.take(0), t));
    }
    while rest.len() > 0
        invariant
            0 <= k <= all.len(),
            rest.len() == all.len() - k,
            contents(rest@) == all.skip(k),
            contents(out@) == narrowed(all.take(k), t),
        decreases rest.len(),
    {
        let ghost before = contents(out@);
        proof {
            assert(contents(rest@)[0] == all[k]);
            assert(all.take(k + 1).drop_last() =~= all.take(k));
            assert(all.take(k + 1).last() == all[k]);
            assert(contents(rest@).skip(1) =~= contents(rest@.remove(0)));
            assert(all.skip(k).skip(1) =~= all.skip(k + 1));
        }
        let c = rest.remove(0);
        let hooks = keep_stage(c.hooks, t);
        if hooks.len() > 0 {
            let ghost kept = hooks@;
            out.push(ManifestConfig { path: c.path, hooks });
            proof {
                assert(contents(out@) =~= before.push((all[k].0, kept)));
            }
        }
        proof {
            k = k + 1;
        }
    }
    proof {
        assert(all.take(k) =~= all);
    }
    out
}

/// A hook stays exactly if it is of the stage.
proof fn lemma_of_stage(hooks: Seq<Hook>, t: HookType, h: Hook)
    ensures
        of_stage(hooks, t).contains(h) <==> hooks.contains(h) && h.hook_type == t,
    decreases hooks.len(),
{
    reveal(Seq::filter);
    if hooks.len() > 0 {
        let less = hooks.drop_last();
        let front = of_stage(less, t);
        let all = of_stage(hooks, t);
        lemma_of_stage(less, t, h);
        if front.contains(h) {
            let k = choose|k: int| 0 <= k < front.len() && front[k] == h;
            assert(all[k] == h);
            let i = choose|i: int| 0 <= i < less.len() && less[i] == h;
            assert(hooks[i] == h);
        }
        if hooks.last() == h {
            assert(hooks[hooks.len() - 1] == h);
            if h.hook_type == t {
                assert(all[all.len() - 1] == h);
            }
        }
        if hooks.contains(h) && hooks.last() != h {
            let i = choose|i: int| 0 <= i < hooks.len() && hooks[i] == h;
            assert(less[i] == h);
        }
        if all.contains(h) && !front.contains(h) {
            let k = choose|k: int| 0 <= k < all.len() && all[k] == h;
            if k < front.len() {
                assert(front[k] == h);
            }
        }
    }
}

/// A run takes the hooks of its stage, all of them and no others, in order: a manifest
/// with such hooks adds itself with just these, and one without adds nothing.
pub proof fn law_hooks_of_the_stage(
    configs: Seq<(Seq<char>, Seq<Hook>)>,
    path: Seq<char>,
    hooks: Seq<Hook>,
    t: HookType,
)
    ensures
        narrowed(Seq::<(Seq<char>, Seq<Hook>)>::empty(), t).len() == 0,
        (forall|i: int| 0 <= i < hooks.len() ==> (#[trigger] hooks[i]).hook_type != t) ==> narrowed(
            configs.push((path, hooks)),
            t,
        ) == narrowed(configs, t),
        (exists|i: int| 0 <= i < hooks.len() && (#[trigger] hooks[i]).hook_type == t) ==> ({
            let all = narrowed(configs.push((path, hooks)), t);
            &&& all.len() == narrowed(configs, t).len() + 1
            &&& all.drop_last() == narrowed(configs, t)
            &&& all.last().0 == path
            &&& forall|h: Hook| #[trigger]
                all.last().1.contains(h) <==> hooks.contains(h) && h.hook_type == t
        }),
        (forall|i: int| 0 <= i < hooks.len() ==> (#[trigger] hooks[i]).hook_type == t) ==> of_stage(
            hooks,
            t,
        ) == hooks,
{
    assert(configs.push((path, hooks)).drop_last() =~= configs);
    let own = of_stage(hooks, t);
    assert forall|h: Hook| #[trigger] own.contains(h) <==> hooks.contains(h) && h.hook_type == t by {
        lemma_of_stage(hooks, t, h);
    }
    if own.len() > 0 {
        assert(own.contains(own[0]));
        let i = choose|i: int| 0 <= i < hooks.len() && hooks[i] == own[0];
        assert(hooks[i].hook_type == t);
        let all = narrowed(configs.push((path, hooks)), t);
        assert(all.drop_last() =~= narrowed(configs, t));
    }
    if exists|i: int| 0 <= i < hooks.len() && (#[trigger] hooks[i]).hook_type == t {
        let i = choose|i: int| 0 <= i < hooks.len() && (#[trigger] hooks[i]).hook_type == t;
        assert(hooks.contains(hooks[i]));
        assert(own.contains(hooks[i]));
    }
    if forall|i: int| 0 <= i < hooks.len() ==> (#[trigger] hooks[i]).hook_type == t {
        lemma_all_of_stage(hooks, t);
    }
}

proof fn lemma_all_of_stage(hooks: Seq<Hook>, t: HookType)
    requires
        forall|i: int| 0 <= i < hooks.len() ==> (#[trigger] hooks[i]).hook_type == t,
    ensures
        of_stage(hooks, t) == hooks,
    decreases hooks.len(),
{
    reveal(Seq::filter);
    if hooks.len() == 0 {
        assert(of_stage(hooks, t) =~= hooks);
    } else {
        let less = hooks.drop_last();
        assert forall|i: int| 0 <= i < less.len() implies (#[trigger] less[i]).hook_type == t by {
            assert(less[i] == hooks[i]);
        }
        lemma_all_of_stage(less, t);
        assert(hooks[hooks.len() - 1].hook_type == t);
        assert(less.push(hooks.last()) =~= hooks);
    }
}

/// The name is one of those in a list separated by commas.
pub open spec fn in_comma_list(list: Seq<char>, name: Seq<char>) -> bool {
    name.len() > 0 && exists|i: int|
        0 <= i < text::pieces(list, ',').len() && text::trim(
            #[trigger] text::pieces(list, ',')[i],
        ) == name
}

/// The names in a list are what stands between its commas, without the white space
/// around it; what is blank between two commas is no name.
pub proof fn law_names_in_a_list(list: Seq<char>, part: Seq<char>, name: Seq<char>)
    requires
        !part.contains(','),
    ensures
        in_comma_list(part, name) <==> name.len() > 0 && text::trim(part) == name,
        in_comma_list(list + seq![','] + part, name) <==> in_comma_list(list, name) || (name.len()
            > 0 && text::trim(part) == name),
{
    text::lemma_last_piece(list, part, ',');
    let whole = list + seq![','] + part;
    let one = text::pieces(part, ',');
    let few = text::pieces(list, ',');
    let all = text::pieces(whole, ',');
    assert(one[0] == part);
    assert(all[few.len() as int] == part);
    if in_comma_list(list, name) {
        let i = choose|i: int|
            0 <= i < few.len() && text::trim(#[trigger] text::pieces(list, ',')[i]) == name;
        assert(all[i] == few[i]);
        assert(text::trim(text::pieces(whole, ',')[i]) == name);
    }
    if name.len() > 0 && text::trim(part) == name {
        assert(text::trim(text::pieces(whole, ',')[few.len() as int]) == name);
        assert(text::trim(text::pieces(part, ',')[0]) == name);
    }
    if in_comma_list(whole, name) {
        let i = choose|i: int|
            0 <= i < all.len() && text::trim(#[trigger] text::pieces(whole, ',')[i]) == name;
        if i < few.len() {
            assert(all[i] == few[i]);
            assert(text::trim(text::pieces(list, ',')[i]) == name);
        }
    }
}

/// The names in a list separated by commas, each once.
pub fn parse_skip(list: &str) -> (r: Vec<String>)
    ensures
        text::views(r@).no_duplicates(),
        forall|name: Seq<char>| #[trigger]
            text::views(r@).contains(name) <==> in_comma_list(list@, name),
{
    let parts = text::split_at(list, ',');
    let ghost all = text::pieces(list@, ',');
    let mut r: Vec<String> = Vec::new();
    let mut i: usize = 0;
    proof {
        assert(all.len() == parts@.len());
    }
    while i < parts.len()
        invariant
            i <= parts.len(),
            all == text::pieces(list@, ','),
            text::views(parts@) == all,
            all.len() == parts@.len(),
            text::views(r@).no_duplicates(),
            forall|name: Seq<char>| #[trigger]
                text::views(r@).contains(name) <==> name.len() > 0 && exists|j: int|
                    0 <= j < i && text::trim(#[trigger] all[j]) == name,
        decreases parts.len() - i,
    {
        let ghost before = text::views(r@);
        let name = text::trimmed(parts[i].as_str());
        let ghost added = name@;
        proof {
            assert(all[i as int] == parts@[i as int]@);
            assert(added == text::trim(all[i as int]));
        }
        let new = !name.as_str().is_empty() && !text::listed(&r, name.as_str());
        if new {
            r.push(name);
            proof {
                assert(text::views(r@) =~= before.push(added));
            }
        }
        proof {
            let after = text::views(r@);
            assert forall|n: Seq<char>| #[trigger] after.contains(n) <==> n.len() > 0 && exists|
                j: int,
            |
                0 <= j < i + 1 && text::trim(#[trigger] all[j]) == n by {
                if after.contains(n) {
                    if before.contains(n) {
                        let j = choose|j: int| 0 <= j < i && text::trim(#[trigger] all[j]) == n;
                        assert(text::trim(all[j]) == n);
                    } else {
                        assert(n == added);
                    }
                }
                if n.len() > 0 && exists|j: int|
                    0 <= j < i + 1 && text::trim(#[trigger] all[j]) == n {
                    let j = choose|j: int| 0 <= j < i + 1 && text::trim(#[trigger] all[j]) == n;
                    if j < i {
                        assert(before.contains(n));
                        let m = choose|m: int| 0 <= m < before.len() && before[m] == n;
                        assert(after[m] == n);
                    } else if new {
                        assert(after[before.len() as int] == n);
                    }
                }
            }
        }
        i += 1;
    }
    r
}

// ---- turns ----

/// What is to be done next for a manifest.
pub enum Turn {
    /// Nothing more.
    Finished,
    /// Say that a hook is skipped.
    Skip { hook: usize, line: String },
    /// Run a hook.
    Run { hook: usize },
}

/// The user asks for the hook: by its name, or for all of them.
pub open spec fn is_asked(name: Seq<char>, only: Option<Seq<char>>) -> bool {
    only matches Some(o) ==> o == name
}

/// The first hook at or behind `from` that is asked for; the number of hooks if
/// there is none.
pub open spec fn next_asked(hooks: Seq<Hook>, only: Option<Seq<char>>, from: int) -> int
    decreases hooks.len() - from,
{
    if from < 0 || from >= hooks.len() {
        hooks.len() as int
    } else if is_asked(hooks[from].name@, only) {
        from
    } else {
        next_asked(hooks, only, from + 1)
    }
}

/// Without a name all hooks are asked for; with one, only those of that name.
pub proof fn law_asked_for(name: Seq<char>, other: Seq<char>)
    ensures
        is_asked(name, None),
        is_asked(name, Some(name)),
        name != other ==> !is_asked(name, Some(other)),
{
}

/// The line for a hook that is skipped.
pub open spec fn skip_line(name: Seq<char>, color: bool) -> Seq<char> {
    "  "@ + style::bold_text(name, color) + " "@ + style::yellow_text(
        "skipped (NIZM_SKIP)"@,
        color,
    )
}

/// The hook is to be skipped.
pub open spec fn is_skipped(name: Seq<char>, skip: Seq<Seq<char>>) -> bool {
    skip.contains(name)
}

/// Exactly the hooks that the list names are skipped, whatever stands around a name in it.
pub proof fn law_skipped(list: Seq<char>, part: Seq<char>, name: Seq<char>, skip: Seq<Seq<char>>)
    requires
        !part.contains(','),
        forall|n: Seq<char>| #[trigger] skip.contains(n) <==> in_comma_list(
            list + seq![','] + part,
            n,
        ),
    ensures
        name.len() > 0 && text::trim(part) == name ==> is_skipped(name, skip),
        in_comma_list(list, name) ==> is_skipped(name, skip),
        !in_comma_list(list, name) && text::trim(part) != name ==> !is_skipped(name, skip),
{
    law_names_in_a_list(list, part, name);
}

/// The content of an optional text.
pub open spec fn opt_view(s: Option<&str>) -> Option<Seq<char>> {
    match s {
        Some(t) => Some(t@),
        None => None,
    }
}

/// How far the hooks of a manifest have had their turns: all before `next` had
/// theirs, and the others have none once it has stopped.
#[derive(Debug, Clone, Copy)]
pub struct Walk {
    pub next: usize,
    pub stopped: bool,
}

impl Walk {
    /// A manifest whose hooks had no turn yet.
    pub fn new() -> (r: Walk)
        ensures
            r.next == 0,
            !r.stopped,
    {
        Walk { next: 0, stopped: false }
    }

    /// What is to be done next for a manifest. Its hooks have their turns one
    /// after the other. One that is not asked for is passed over; one that is to
    /// be skipped is not run. If hooks are left when the run is to stop, they have
    /// no turns.
    pub fn turn(
        &mut self,
        hooks: &Vec<Hook>,
        only: Option<&str>,
        skip: &Vec<String>,
        stop: bool,
        color: bool,
    ) -> (r: Turn)
        ensures
            ({
                let here = old(self).next;
                let k = next_asked(hooks@, opt_view(only), here as int);
                if old(self).stopped || here >= hooks@.len() {
                    r is Finished && *final(self) == *old(self)
                } else if stop {
                    r is Finished && final(self).stopped && final(self).next == here
                } else if k >= hooks@.len() {
                    &&& r is Finished && !final(self).stopped && final(self).next == hooks@.len()
                    &&& turns(hooks@, opt_view(only), here as int) == Seq::<int>::empty()
                } else {
                    let name = hooks@[k].name@;
                    &&& !final(self).stopped
                    &&& final(self).next == k + 1
                    &&& turns(hooks@, opt_view(only), here as int) == seq![k] + turns(
                        hooks@,
                        opt_view(only),
                        k + 1,
                    )
                    &&& r is Skip <==> is_skipped(name, text::views(skip@))
                    &&& r is Run <==> !is_skipped(name, text::views(skip@))
                    &&& text::views(skip@).contains(name) ==> (r matches Turn::Skip { hook, line }
                        && hook == k && line@ == skip_line(name, color))
                    &&& !text::views(skip@).contains(name) ==> (r matches Turn::Run { hook }
                        && hook == k)
                }
            }),
    {
        if self.stopped || self.next >= hooks.len() {
            return Turn::Finished;
        }
        if stop {
            self.stopped = true;
            return Turn::Finished;
        }
        let ghost here = self.next as int;
        proof {
            lemma_next_asked(hooks@, opt_view(only), here);
        }
        let mut k: usize = self.next;
        while k < hooks.len()
            invariant
                here <= k <= hooks.len(),
                next_asked(hooks@, opt_view(only), here) == next_asked(
                    hooks@,
                    opt_view(only),
                    k as int,
                ),
            ensures
                next_asked(hooks@, opt_view(only), here) == k,
                here <= k <= hooks.len(),
            decreases hooks.len() - k,
        {
            let asked = match only {
                Some(o) => text::same(o, hooks[k].name.as_str()),
                None => true,
            };
            if asked {
                break;
            }
            k += 1;
        }
        if k >= hooks.len() {
            self.next = hooks.len();
            return Turn::Finished;
        }
        self.next = k + 1;
        let name = hooks[k].name.as_str();
        if text::listed(skip, name) {
            let mut line = String::from_str("  ");
            line.append(style::bold(name, color).as_str());
            line.append(" ");
            line.append(style::yellow("skipped (NIZM_SKIP)", color).as_str());
            return Turn::Skip { hook: k, line };
        }
        Turn::Run { hook: k }
    }
}

/// The hooks that have their turns from `from` on, unless the run stops: by each
/// turn the next one that is asked for, until there is none.
pub open spec fn turns(hooks: Seq<Hook>, only: Option<Seq<char>>, from: int) -> Seq<int>
    decreases hooks.len() - from,
{
    let k = next_asked(hooks, only, from);
    if from < 0 || k < from || k >= hooks.len() {
        seq![]
    } else {
        seq![k] + turns(hooks, only, k + 1)
    }
}

proof fn lemma_next_asked(hooks: Seq<Hook>, only: Option<Seq<char>>, from: int)
    requires
        0 <= from <= hooks.len(),
    ensures
        from <= next_asked(hooks, only, from) <= hooks.len(),
        next_asked(hooks, only, from) < hooks.len() ==> is_asked(
            hooks[next_asked(hooks, only, from)].name@,
            only,
        ),
        forall|i: int|
            from <= i < next_asked(hooks, only, from) ==> !is_asked(
                (#[trigger] hooks[i]).name@,
                only,
            ),
    decreases hooks.len() - from,
{
    if from < hooks.len() && !is_asked(hooks[from].name@, only) {
        lemma_next_asked(hooks, only, from + 1);
    }
}

/// Every hook that is asked for has its turn, once and in the order of the
/// manifest, and no other has.
pub proof fn law_turns_in_order(hooks: Seq<Hook>, only: Option<Seq<char>>, from: int)
    requires
        0 <= from <= hooks.len(),
    ensures
        forall|i: int| #[trigger]
            turns(hooks, only, from).contains(i) <==> from <= i < hooks.len() && is_asked(
                hooks[i].name@,
                only,
            ),
        forall|a: int, b: int|
            0 <= a < b < turns(hooks, only, from).len() ==> #[trigger] turns(hooks, only, from)[a]
                < #[trigger] turns(hooks, only, from)[b],
    decreases hooks.len() - from,
{
    lemma_next_asked(hooks, only, from);
    let k = next_asked(hooks, only, from);
    let all = turns(hooks, only, from);
    if k < hooks.len() {
        law_turns_in_order(hooks, only, k + 1);
        let rest = turns(hooks, only, k + 1);
        assert(all == seq![k] + rest);
        assert forall|i: int| #[trigger] all.contains(i) <==> from <= i < hooks.len() && is_asked(
            hooks[i].name@,
            only,
        ) by {
            if all.contains(i) {
                let a = choose|a: int| 0 <= a < all.len() && all[a] == i;
                if a > 0 {
                    assert(rest[a - 1] == i);
                    assert(rest.contains(i));
                }
            }
            if from <= i < hooks.len() && is_asked(hooks[i].name@, only) {
                if i > k {
                    assert(rest.contains(i));
                    let a = choose|a: int| 0 <= a < rest.len() && rest[a] == i;
                    assert(all[a + 1] == i);
                } else {
                    assert(all[0] == i);
                }
            }
        }
        assert forall|a: int, b: int| 0 <= a < b < all.len() implies #[trigger] all[a]
            < #[trigger] all[b] by {
            assert(all[b] == rest[b - 1]);
            if a == 0 {
                assert(rest.contains(rest[b - 1]));
            } else {
                assert(all[a] == rest[a - 1]);
            }
        }
    }
}

// ---- what is shown ----

/// How many files, and how long it took.
pub open spec fn effort(count: nat, took: Seq<char>, color: bool) -> Seq<char> {
    style::dim_text(
        text::decimal(count) + " "@ + git::files_word(count) + " ("@ + took + ")"@,
        color,
    )
}

/// How many files, and how long it took.
fn effort_text(count: usize, took: &str, color: bool) -> (r: String)
    ensures
        r@ == effort(count as nat, took@, color),
{
    let mut t = text::decimal_text(count as u128);
    t.append(" ");
    t.append(git::word_for_files(count));
    t.append(" (");
    t.append(took);
    t.append(")");
    style::dim(t.as_str(), color)
}

/// A number with its sign.
pub open spec fn signed(n: int) -> Seq<char> {
    if n < 0 {
        "-"@ + text::decimal((-n) as nat)
    } else {
        text::decimal(n as nat)
    }
}

/// A number with its sign.
fn signed_text(n: i32) -> (r: String)
    ensures
        r@ == signed(n as int),
{
    if n < 0 {
        let mut t = String::from_str("-");
        let wide: i64 = n as i64;
        t.append(text::decimal_text((-wide) as u128).as_str());
        t
    } else {
        text::decimal_text(n as u128)
    }
}

/// The words for a hook that failed.
pub open spec fn failed_words(code: int, color: bool) -> Seq<char> {
    style::red_bold_text("failed (exit "@ + signed(code) + ")"@, color)
}

/// The words for a hook that failed.
fn failed_text(code: i32, color: bool) -> (r: String)
    ensures
        r@ == failed_words(code as int, color),
{
    let mut t = String::from_str("failed (exit ");
    t.append(signed_text(code).as_str());
    t.append(")");
    style::red_bold(t.as_str(), color)
}

/// What is written to the standard output and to the standard error.
pub struct Shown {
    pub out: String,
    pub err: String,
}

/// What a hook that ran in turn came to.
pub enum Ran {
    /// It ran, or had nothing to run on.
    Ended(HookOutcome),
    /// It could not be run.
    Broke(String),
}

/// The hook failed.
pub open spec fn is_failure(r: Ran) -> bool {
    match r {
        Ran::Ended(o) => o.code != 0,
        Ran::Broke(_) => true,
    }
}

/// What is shown of a hook that ran in turn: a failure on the standard error,
/// success on the standard output if there were files, else nothing.
pub open spec fn shown_in_turn(name: Seq<char>, r: Ran, took: Seq<char>, color: bool) -> (
    Seq<char>,
    Seq<char>,
) {
    let label = "  "@ + style::bold_text(name, color) + " "@;
    match r {
        Ran::Ended(o) => if o.code != 0 {
            (
                seq![],
                label + failed_words(o.code as int, color) + " "@ + effort(
                    o.count as nat,
                    took,
                    color,
                ) + "\n"@,
            )
        } else if o.count > 0 {
            (label + effort(o.count as nat, took, color) + "\n"@, seq![])
        } else {
            (seq![], seq![])
        },
        Ran::Broke(e) => (
            seq![],
            label + style::red_bold_text("error: "@ + e@, color) + "\n"@,
        ),
    }
}

/// A hook failed exactly if its command ended with a code other than 0, or could not be
/// run. A failure is shown on the standard error and nowhere else, success on the
/// standard output and nowhere else, and a hook without files not at all.
pub proof fn law_what_is_shown_of_a_hook(
    name: Seq<char>,
    o: HookOutcome,
    e: String,
    took: Seq<char>,
    color: bool,
)
    ensures
        is_failure(Ran::Ended(o)) <==> o.code != 0,
        is_failure(Ran::Broke(e)),
        o.code != 0 ==> shown_in_turn(name, Ran::Ended(o), took, color).0.len() == 0
            && shown_in_turn(name, Ran::Ended(o), took, color).1.len() > 0,
        o.code == 0 && o.count > 0 ==> shown_in_turn(name, Ran::Ended(o), took, color).0.len() > 0
            && shown_in_turn(name, Ran::Ended(o), took, color).1.len() == 0,
        o.code == 0 && o.count == 0 ==> shown_in_turn(name, Ran::Ended(o), took, color).0.len()
            == 0 && shown_in_turn(name, Ran::Ended(o), took, color).1.len() == 0,
        shown_in_turn(name, Ran::Broke(e), took, color).0.len() == 0,
        shown_in_turn(name, Ran::Broke(e), took, color).1.len() > 0,
        !color && o.code != 0 ==> ("  "@ + name + " "@ + "failed (exit "@ + signed(o.code as int)
            + ")"@).is_prefix_of(shown_in_turn(name, Ran::Ended(o), took, color).1),
        !color && o.code == 0 && o.count > 0 ==> shown_in_turn(
            name,
            Ran::Ended(o),
            took,
            color,
        ).0 == "  "@ + name + " "@ + text::decimal(o.count as nat) + " "@ + (if o.count == 1 {
            "file"@
        } else {
            "files"@
        }) + " ("@ + took + ")"@ + "\n"@,
        !color ==> shown_in_turn(name, Ran::Broke(e), took, color).1 == "  "@ + name + " "@
            + "error: "@ + e@ + "\n"@,
{
    reveal_strlit("  ");
    reveal_strlit("\n");
    if !color {
        let shown = shown_in_turn(name, Ran::Ended(o), took, color);
        if o.code != 0 {
            let front = "  "@ + name + " "@ + "failed (exit "@ + signed(o.code as int) + ")"@;
            assert(front =~= shown.1.take(front.len() as int));
        } else if o.count > 0 {
            let word = if o.count == 1 {
                "file"@
            } else {
                "files"@
            };
            assert(shown.0 =~= "  "@ + name + " "@ + text::decimal(o.count as nat) + " "@ + word
                + " ("@ + took + ")"@ + "\n"@);
        }
        assert(shown_in_turn(name, Ran::Broke(e), took, color).1 =~= "  "@ + name + " "@
            + "error: "@ + e@ + "\n"@);
    }
}

/// A number is shown with a minus sign exactly if it is negative.
pub proof fn law_signed(n: int)
    ensures
        n >= 0 ==> signed(n) == text::decimal(n as nat),
        n < 0 ==> signed(n) == seq!['-'] + text::decimal((-n) as nat),
{
    reveal_strlit("-");
    assert("-"@ =~= seq!['-']);
}

/// A run of hooks one after the other: whether it has failed.
#[derive(Debug, Clone, Copy)]
pub struct Session {
    pub failed: bool,
}

impl Session {
    /// A run that has not begun.
    pub fn new() -> (r: Session)
        ensures
            !r.failed,
    {
        Session { failed: false }
    }

    /// Does the run go on behind a manifest? Not if its hooks were stopped, which
    /// fails the run.
    pub fn goes_on(&mut self, walk: &Walk) -> (r: bool)
        ensures
            r == !walk.stopped,
            final(self).failed == (old(self).failed || walk.stopped),
    {
        if walk.stopped {
            self.failed = true;
        }
        !walk.stopped
    }

    /// Takes note of what a hook came to, and says what is shown of it.
    pub fn ended(&mut self, name: &str, r: Ran, took: &str, color: bool) -> (shown: Shown)
        ensures
            final(self).failed == (old(self).failed || is_failure(r)),
            (shown.out@, shown.err@) == shown_in_turn(name@, r, took@, color),
    {
        let mut label = String::from_str("  ");
        label.append(style::bold(name, color).as_str());
        label.append(" ");
        match r {
            Ran::Ended(o) => {
                if o.code != 0 {
                    self.failed = true;
                    label.append(failed_text(o.code, color).as_str());
                    label.append(" ");
                    label.append(effort_text(o.count, took, color).as_str());
                    label.append("\n");
                    Shown { out: String::new(), err: label }
                } else if o.count > 0 {
                    label.append(effort_text(o.count, took, color).as_str());
                    label.append("\n");
                    Shown { out: label, err: String::new() }
                } else {
                    Shown { out: String::new(), err: String::new() }
                }
            },
            Ran::Broke(e) => {
                self.failed = true;
                let mut t = String::from_str("error: ");
                t.append(e.as_str());
                label.append(style::red_bold(t.as_str(), color).as_str());
                label.append("\n");
                Shown { out: String::new(), err: label }
            },
        }
    }
}

/// A run after hooks that came to this, one after the other.
pub open spec fn failed_after(before: bool, ran: Seq<Ran>) -> bool
    decreases ran.len(),
{
    if ran.len() == 0 {
        before
    } else {
        failed_after(before, ran.drop_last()) || is_failure(ran.last())
    }
}

/// A run fails exactly if one of its hooks did, wherever in the run it stood.
pub proof fn law_one_failure_fails_the_run(ran: Seq<Ran>)
    ensures
        failed_after(false, ran) <==> exists|i: int|
            0 <= i < ran.len() && is_failure(#[trigger] ran[i]),
    decreases ran.len(),
{
    if ran.len() > 0 {
        let front = ran.drop_last();
        law_one_failure_fails_the_run(front);
        if failed_after(false, front) {
            let i = choose|i: int| 0 <= i < front.len() && is_failure(#[trigger] front[i]);
            assert(ran[i] == front[i]);
        }
        if is_failure(ran.last()) {
            assert(is_failure(ran[ran.len() - 1]));
        }
        if exists|i: int| 0 <= i < ran.len() && is_failure(#[trigger] ran[i]) {
            let i = choose|i: int| 0 <= i < ran.len() && is_failure(#[trigger] ran[i]);
            if i < front.len() {
                assert(front[i] == ran[i]);
            }
        }
    }
}

// ---- manifests side by side ----

/// Manifests run side by side.
pub open spec fn side_by_side(asked: bool, manifests: nat) -> bool {
    asked && manifests > 1
}

/// Nothing runs side by side that was not asked to, nor by itself.
pub proof fn law_side_by_side(manifests: nat)
    ensures
        !side_by_side(false, manifests),
        !side_by_side(true, 0),
        !side_by_side(true, 1),
        side_by_side(true, manifests + 2),
{
}

/// Do manifests run side by side? They do if that is asked for and there are
/// several.
pub fn runs_in_parallel(asked: bool, manifests: usize) -> (r: bool)
    ensures
        r == side_by_side(asked, manifests as nat),
        r == (asked && manifests > 1),
{
    asked && manifests > 1
}

/// What a hook came to whose manifest runs beside others.
pub struct HookRecord {
    pub name: String,
    pub stdout: String,
    pub stderr: String,
    pub code: i32,
    pub count: usize,
    pub took: String,
}

/// The record of a hook that was skipped: the line that says so.
pub fn skipped_record(name: &str, line: &str) -> (r: HookRecord)
    ensures
        r.name@ == name@,
        r.stdout@ == line@ + "\n"@,
        r.stderr@ == Seq::<char>::empty(),
        r.code == 0,
        r.count == 0,
        r.took@ == Seq::<char>::empty(),
{
    let mut stdout = String::from_str(line);
    stdout.append("\n");
    HookRecord {
        name: String::from_str(name),
        stdout,
        stderr: String::new(),
        code: 0,
        count: 0,
        took: String::new(),
    }
}

/// The record of a hook that ran, or that could not be run.
pub fn record_of(name: &str, r: Ran, took: &str) -> (record: HookRecord)
    ensures
        record.name@ == name@,
        record.code != 0 <==> is_failure(r),
        match r {
            Ran::Ended(o) => {
                &&& record.stdout == o.stdout
                &&& record.stderr == o.stderr
                &&& record.code == o.code
                &&& record.count == o.count
                &&& record.took@ == took@
            },
            Ran::Broke(e) => {
                &&& record.stdout@ == Seq::<char>::empty()
                &&& record.stderr@ == "  "@ + name@ + " "@ + e@ + "\n"@
                &&& record.code == 1
                &&& record.count == 0
                &&& record.took@ == Seq::<char>::empty()
            },
        },
{
    match r {
        Ran::Ended(o) => HookRecord {
            name: String::from_str(name),
            stdout: o.stdout,
            stderr: o.stderr,
            code: o.code,
            count: o.count,
            took: String::from_str(took),
        },
        Ran::Broke(e) => {
            let mut stderr = String::from_str("  ");
            stderr.append(name);
            stderr.append(" ");
            stderr.append(e.as_str());
            stderr.append("\n");
            HookRecord {
                name: String::from_str(name),
                stdout: String::new(),
                stderr,
                code: 1,
                count: 0,
                took: String::new(),
            }
        },
    }
}

/// What is shown of a record: what the hook wrote to both outputs, and behind it
/// the failure if it failed. Of one that did not fail and wrote nothing to the
/// standard output, how many files it ran on takes that place.
pub open spec fn shown_record(r: HookRecord, color: bool) -> (Seq<char>, Seq<char>) {
    let label = "  "@ + style::bold_text(r.name@, color) + " "@;
    let info = if r.count > 0 {
        effort(r.count as nat, r.took@, color)
    } else {
        seq![]
    };
    if r.code != 0 {
        (r.stdout@, r.stderr@ + label + failed_words(r.code as int, color) + " "@ + info + "\n"@)
    } else if r.stdout@.len() > 0 {
        (r.stdout@, r.stderr@)
    } else if r.count > 0 {
        (label + info + "\n"@, r.stderr@)
    } else {
        (seq![], r.stderr@)
    }
}

/// What is shown of a record.
pub fn show_record(r: &HookRecord, color: bool) -> (shown: Shown)
    ensures
        (shown.out@, shown.err@) == shown_record(*r, color),
{
    let mut label = String::from_str("  ");
    label.append(style::bold(r.name.as_str(), color).as_str());
    label.append(" ");
    let info = if r.count > 0 {
        effort_text(r.count, r.took.as_str(), color)
    } else {
        String::new()
    };
    if r.code != 0 {
        let mut err = r.stderr.clone();
        err.append(label.as_str());
        err.append(failed_text(r.code, color).as_str());
        err.append(" ");
        err.append(info.as_str());
        err.append("\n");
        proof {
            assert(err@ =~= shown_record(*r, color).1);
        }
        Shown { out: r.stdout.clone(), err }
    } else if !r.stdout.as_str().is_empty() {
        Shown { out: r.stdout.clone(), err: r.stderr.clone() }
    } else if r.count > 0 {
        label.append(info.as_str());
        label.append("\n");
        Shown { out: label, err: r.stderr.clone() }
    } else {
        Shown { out: String::new(), err: r.stderr.clone() }
    }
}

/// Nothing that a hook wrote is lost when its record is shown: what it wrote to the
/// standard error comes first there, and what it wrote to the standard output is all that
/// is there. Only a failure adds to the standard error.
pub proof fn law_nothing_is_lost(r: HookRecord, color: bool)
    ensures
        r.stderr@.is_prefix_of(shown_record(r, color).1),
        r.stdout@.len() > 0 || r.code != 0 ==> shown_record(r, color).0 == r.stdout@,
        r.stdout@.len() == 0 && r.code == 0 && r.count > 0 ==> shown_record(r, color).0.len() > 0,
        r.stdout@.len() == 0 && r.count == 0 ==> shown_record(r, color).0.len() == 0,
        r.code == 0 ==> shown_record(r, color).1 == r.stderr@,
        r.code != 0 ==> shown_record(r, color).1.len() > r.stderr@.len(),
        !color && r.code != 0 ==> (r.stderr@ + "  "@ + r.name@ + " "@ + "failed (exit "@ + signed(
            r.code as int,
        ) + ")"@).is_prefix_of(shown_record(r, color).1),
{
    reveal_strlit("  ");
    let shown = shown_record(r, color);
    assert(r.stderr@ =~= shown.1.take(r.stderr@.len() as int));
    if !color && r.code != 0 {
        let front = r.stderr@ + "  "@ + r.name@ + " "@ + "failed (exit "@ + signed(r.code as int)
            + ")"@;
        assert(front =~= shown.1.take(front.len() as int));
    }
}

/// What is shown of the records of one manifest after the other.
pub open spec fn shown_records(records: Seq<Vec<HookRecord>>, color: bool) -> Seq<
    (Seq<char>, Seq<char>),
>
    decreases records.len(),
{
    if records.len() == 0 {
        seq![]
    } else {
        shown_records(records.drop_last(), color) + Seq::new(
            records.last()@.len(),
            |i: int| shown_record(records.last()@[i], color),
        )
    }
}

/// The records of manifests that ran side by side are shown in the order of the
/// manifests, each with its hooks in their order.
pub proof fn law_records_in_order(
    records: Seq<Vec<HookRecord>>,
    more: Vec<HookRecord>,
    color: bool,
    i: int,
)
    ensures
        shown_records(Seq::<Vec<HookRecord>>::empty(), color).len() == 0,
        shown_records(records.push(more), color).len() == shown_records(records, color).len()
            + more@.len(),
        shown_records(records, color).is_prefix_of(shown_records(records.push(more), color)),
        0 <= i < more@.len() ==> shown_records(records.push(more), color)[shown_records(
            records,
            color,
        ).len() + i] == shown_record(more@[i], color),
{
    let all = shown_records(records.push(more), color);
    let front = shown_records(records, color);
    assert(records.push(more).drop_last() =~= records);
    assert(front =~= all.take(front.len() as int));
}

/// The texts that are shown.
pub open spec fn shown_texts(v: Seq<Shown>) -> Seq<(Seq<char>, Seq<char>)> {
    Seq::new(v.len(), |i: int| (v[i].out@, v[i].err@))
}

/// What is shown of manifests that ran side by side: their records in the order of
/// the manifests, and those of one manifest in the order of its hooks, whichever
/// ended first.
pub fn show_records(records: &Vec<Vec<HookRecord>>, color: bool) -> (r: Vec<Shown>)
    ensures
        shown_texts(r@) == shown_records(records@, color),
{
    let mut r: Vec<Shown> = Vec::new();
    let mut i: usize = 0;
    proof {
        assert(shown_texts(r@) =~= shown_records(records@.take(0), color));
    }
    while i < records.len()
        invariant
            i <= records.len(),
            shown_texts(r@) == shown_records(records@.take(i as int), color),
        decreases records.len() - i,
    {
        let of_one = &records[i];
        let ghost before = shown_texts(r@);
        let ghost own = Seq::new(of_one@.len(), |k: int| shown_record(of_one@[k], color));
        let mut j: usize = 0;
        proof {
            assert(before + own.take(0) =~= before);
        }
        while j < of_one.len()
            invariant
                j <= of_one.len(),
                own == Seq::new(of_one@.len(), |k: int| shown_record(of_one@[k], color)),
                shown_texts(r@) =~= before + own.take(j as int),
            decreases of_one.len() - j,
        {
            let ghost so_far = shown_texts(r@);
            r.push(show_record(&of_one[j], color));
            proof {
                assert(shown_texts(r@) =~= so_far.push(own[j as int]));
            }
            j += 1;
        }
        proof {
            assert(own.take(j as int) =~= own);
            assert(records@.take(i + 1).drop_last() =~= records@.take(i as int));
            assert(records@.take(i + 1).last() == *of_one);
        }
        i += 1;
    }
    proof {
        assert(records@.take(i as int) =~= records@);
    }
    r
}

/// Did a hook of some manifest fail?
pub fn any_failed(records: &Vec<Vec<HookRecord>>) -> (r: bool)
    ensures
        r == (exists|i: int, j: int|
            0 <= i < records@.len() && 0 <= j < records@[i]@.len() && (
            #[trigger] records@[i]@[j]).code != 0),
{
    let mut i: usize = 0;
    while i < records.len()
        invariant
            i <= records.len(),
            forall|a: int, b: int|
                0 <= a < i && 0 <= b < records@[a]@.len() ==> (#[trigger] records@[a]@[b]).code
                    == 0,
        decreases records.len() - i,
    {
        let mut j: usize = 0;
        while j < records[i].len()
            invariant
                i < records.len(),
                j <= records@[i as int].len(),
                forall|b: int| 0 <= b < j ==> (#[trigger] records@[i as int]@[b]).code == 0,
            decreases records@[i as int].len() - j,
        {
            if records[i][j].code != 0 {
                proof {
                    assert(records@[i as int]@[j as int].code != 0);
                }
                return true;
            }
            j += 1;
        }
        i += 1;
    }
    false
}

// ---- the frame of a run ----

/// `tracked` or `staged`.
pub open spec fn file_word(all: bool) -> Seq<char> {
    if all {
        "tracked"@
    } else {
        "staged"@
    }
}

fn word_for_files(all: bool) -> (r: &'static str)
    ensures
        r@ == file_word(all),
{
    if all {
        "tracked"
    } else {
        "staged"
    }
}

/// The line of a run that has no hooks to run.
pub fn no_hooks_line(color: bool) -> (r: String)
    ensures
        r@ == style::bold_text("nizm:"@, color) + " no hooks configured"@,
{
    let mut t = style::bold("nizm:", color);
    t.append(" no hooks configured");
    t
}

/// The line that opens a run: on how many files it runs, or that there are none.
pub fn opening_line(files: usize, all: bool, color: bool) -> (r: String)
    ensures
        files == 0 ==> r@ == style::bold_text("nizm:"@, color) + " no "@ + file_word(all)
            + " files — skipping"@,
        files > 0 ==> r@ == style::bold_text("nizm:"@, color) + " running against "@
            + text::decimal(files as nat) + " "@ + file_word(all) + " "@ + git::files_word(
            files as nat,
        ),
{
    let mut t = style::bold("nizm:", color);
    if files == 0 {
        t.append(" no ");
        t.append(word_for_files(all));
        t.append(" files — skipping");
        return t;
    }
    t.append(" running against ");
    t.append(text::decimal_text(files as u128).as_str());
    t.append(" ");
    t.append(word_for_files(all));
    t.append(" ");
    t.append(git::word_for_files(files));
    t
}

/// The line that closes a run.
pub fn closing_line(took: &str, color: bool) -> (r: String)
    ensures
        r@ == style::bold_text("nizm:"@, color) + " done in "@ + took@,
{
    let mut t = style::bold("nizm:", color);
    t.append(" done in ");
    t.append(took);
    t
}

/// The line that says how many files were staged.
pub fn staged_line(files: usize, color: bool) -> (r: String)
    ensures
        r@ == style::bold_text("nizm:"@, color) + " "@ + style::green_text(
            "auto-staged "@ + text::decimal(files as nat) + " modified "@ + git::files_word(
                files as nat,
            ),
            color,
        ),
{
    let mut n = String::from_str("auto-staged ");
    n.append(text::decimal_text(files as u128).as_str());
    n.append(" modified ");
    n.append(git::word_for_files(files));
    let mut t = style::bold("nizm:", color);
    t.append(" ");
    t.append(style::green(n.as_str(), color).as_str());
    t
}

/// Adds the files of `more` that are not in `files`.
pub fn add_missing(files: &mut Vec<String>, more: &Vec<String>)
    requires
        text::views(old(files)@).no_duplicates(),
    ensures
        text::views(final(files)@).no_duplicates(),
        text::views(old(files)@).is_prefix_of(text::views(final(files)@)),
        forall|f: Seq<char>| #[trigger]
            text::views(final(files)@).contains(f) <==> text::views(old(files)@).contains(f)
                || text::views(more@).contains(f),
{
    let ghost start = text::views(files@);
    let ghost all = text::views(more@);
    let mut i: usize = 0;
    proof {
        assert(start =~= start.take(start.len() as int));
    }
    while i < more.len()
        invariant
            i <= more.len(),
            all == text::views(more@),
            text::views(files@).no_duplicates(),
            start.is_prefix_of(text::views(files@)),
            forall|f: Seq<char>| #[trigger]
                text::views(files@).contains(f) <==> start.contains(f) || all.take(
                    i as int,
                ).contains(f),
        decreases more.len() - i,
    {
        let ghost before = text::views(files@);
        let ghost file = more@[i as int]@;
        proof {
            text::lemma_take_contains(all, i as int);
            assert(all[i as int] == file);
        }
        if !text::listed(files, more[i].as_str()) {
            files.push(more[i].clone());
            proof {
                let after = text::views(files@);
                assert(after =~= before.push(file));
                assert forall|f: Seq<char>| #[trigger] after.contains(f) <==> before.contains(f)
                    || f == file by {
                    if before.contains(f) {
                        let m = choose|m: int| 0 <= m < before.len() && before[m] == f;
                        assert(after[m] == f);
                    }
                    if f == file {
                        assert(after[before.len() as int] == f);
                    }
                }
                assert(start =~= after.take(start.len() as int)) by {
                    assert(start =~= before.take(start.len() as int));
                }
            }
        }
        i += 1;
    }
    proof {
        assert(all.take(i as int) =~= all);
    }
}

/// A changed file that counts as produced by a hook that ran: by the `j`th of the
/// manifest `cfg`.
pub open spec fn produced_by(
    cfg: ManifestConfig,
    j: int,
    changed: Seq<Seq<char>>,
    file: Seq<char>,
) -> bool {
    0 <= j < cfg.hooks@.len() && match cfg.hooks@[j].outputs {
        Some(m) => runner::produced(changed, path::directory(cfg.path@), m).contains(file),
        None => false,
    }
}

/// A changed file that counts as produced by one of the hooks that ran.
pub open spec fn produced_by_some(
    configs: Seq<ManifestConfig>,
    ran: Seq<(usize, usize)>,
    changed: Seq<Seq<char>>,
    file: Seq<char>,
) -> bool {
    exists|i: int|
        0 <= i < ran.len() && (#[trigger] ran[i]).0 < configs.len() && produced_by(
            configs[ran[i].0 as int],
            ran[i].1 as int,
            changed,
            file,
        )
}

/// What the answer may be to whether the changed file `file` counts as produced by
/// the `j`th hook of the manifest `cfg`.
pub open spec fn may_be_produced_by(
    cfg: ManifestConfig,
    j: int,
    file: Seq<char>,
    hit: bool,
) -> bool {
    match cfg.hooks@[j].outputs {
        Some(m) => if m.included().len() == 0 && m.excluded().len() == 0 {
            !hit
        } else {
            runner::may_be_in_scope(path::directory(cfg.path@), Some(m), file, hit)
        },
        None => !hit,
    }
}

/// A changed file that may count as produced by one of the hooks that ran.
pub open spec fn maybe_produced(
    configs: Seq<ManifestConfig>,
    ran: Seq<(usize, usize)>,
    file: Seq<char>,
) -> bool {
    exists|i: int|
        0 <= i < ran.len() && (#[trigger] ran[i]).0 < configs.len() && ran[i].1
            < configs[ran[i].0 as int].hooks@.len() && may_be_produced_by(
            configs[ran[i].0 as int],
            ran[i].1 as int,
            file,
            true,
        )
}

/// A changed file that cannot but count as produced by one of the hooks that ran.
pub open spec fn surely_produced(
    configs: Seq<ManifestConfig>,
    ran: Seq<(usize, usize)>,
    file: Seq<char>,
) -> bool {
    exists|i: int|
        0 <= i < ran.len() && (#[trigger] ran[i]).0 < configs.len() && ran[i].1
            < configs[ran[i].0 as int].hooks@.len() && !may_be_produced_by(
            configs[ran[i].0 as int],
            ran[i].1 as int,
            file,
            false,
        )
}

/// No output pattern holds a backslash, nor a changed file where there are such
/// patterns.
pub open spec fn portable_outputs(configs: Seq<ManifestConfig>, changed: Seq<Seq<char>>) -> bool {
    forall|i: int, j: int|
        0 <= i < configs.len() && 0 <= j < configs[i].hooks@.len() ==> runner::portable_scope(
            changed,
            (#[trigger] configs[i].hooks@[j]).outputs,
        )
}

/// What a hook that ran produced, as the outputs that it names say, is what is staged of
/// it: a hook without outputs produced nothing, and a hook that did not run has no part in
/// it.
pub proof fn law_what_hooks_produced(
    configs: Seq<ManifestConfig>,
    ran: Seq<(usize, usize)>,
    changed: Seq<Seq<char>>,
    file: Seq<char>,
    k: int,
)
    ensures
        ({
            let i = ran[k].0 as int;
            let j = ran[k].1 as int;
            0 <= k < ran.len() && i < configs.len() && j < configs[i].hooks@.len() ==> match (
            configs[i].hooks@[j].outputs) {
                None => !produced_by(configs[i], j, changed, file) && !may_be_produced_by(
                    configs[i],
                    j,
                    file,
                    true,
                ),
                Some(m) => {
                    let found = runner::produced(changed, path::directory(configs[i].path@), m);
                    &&& produced_by(configs[i], j, changed, file) <==> found.contains(file)
                    &&& found.contains(file) ==> produced_by_some(configs, ran, changed, file)
                    &&& m.included().len() + m.excluded().len() > 0 ==> forall|hit: bool| #[trigger]
                        may_be_produced_by(configs[i], j, file, hit) <==> runner::may_be_in_scope(
                            path::directory(configs[i].path@),
                            Some(m),
                            file,
                            hit,
                        )
                    &&& m.included().len() + m.excluded().len() == 0 ==> !may_be_produced_by(
                        configs[i],
                        j,
                        file,
                        true,
                    )
                    &&& may_be_produced_by(configs[i], j, file, true) ==> maybe_produced(
                        configs,
                        ran,
                        file,
                    )
                    &&& !may_be_produced_by(configs[i], j, file, false) ==> surely_produced(
                        configs,
                        ran,
                        file,
                    )
                },
            }
        }),
        ran.len() == 0 ==> !produced_by_some(configs, ran, changed, file) && !maybe_produced(
            configs,
            ran,
            file,
        ) && !surely_produced(configs, ran, file),
{
}

/// What one hook more that ran adds.
proof fn lemma_produced_step(
    configs: Seq<ManifestConfig>,
    ran: Seq<(usize, usize)>,
    n: int,
    changed: Seq<Seq<char>>,
)
    requires
        0 <= n < ran.len(),
    ensures
        forall|f: Seq<char>| #[trigger]
            produced_by_some(configs, ran.take(n + 1), changed, f) <==> produced_by_some(
                configs,
                ran.take(n),
                changed,
                f,
            ) || (ran[n].0 < configs.len() && produced_by(
                configs[ran[n].0 as int],
                ran[n].1 as int,
                changed,
                f,
            )),
{
    let less = ran.take(n);
    let more = ran.take(n + 1);
    assert forall|f: Seq<char>| #[trigger]
        produced_by_some(configs, more, changed, f) <==> produced_by_some(configs, less, changed, f)
            || (ran[n].0 < configs.len() && produced_by(
            configs[ran[n].0 as int],
            ran[n].1 as int,
            changed,
            f,
        )) by {
        if produced_by_some(configs, more, changed, f) {
            let i = choose|i: int|
                0 <= i < more.len() && (#[trigger] more[i]).0 < configs.len() && produced_by(
                    configs[more[i].0 as int],
                    more[i].1 as int,
                    changed,
                    f,
                );
            if i < n {
                assert(less[i] == more[i]);
            }
        }
        if produced_by_some(configs, less, changed, f) {
            let i = choose|i: int|
                0 <= i < less.len() && (#[trigger] less[i]).0 < configs.len() && produced_by(
                    configs[less[i].0 as int],
                    less[i].1 as int,
                    changed,
                    f,
                );
            assert(more[i] == less[i]);
        }
        if ran[n].0 < configs.len() && produced_by(
            configs[ran[n].0 as int],
            ran[n].1 as int,
            changed,
            f,
        ) {
            assert(more[n] == ran[n]);
        }
    }
}

/// What one hook more that ran may add, and adds for sure.
proof fn lemma_one_more(configs: Seq<ManifestConfig>, ran: Seq<(usize, usize)>, n: int)
    requires
        0 <= n < ran.len(),
    ensures
        forall|f: Seq<char>| #[trigger]
            maybe_produced(configs, ran.take(n + 1), f) <==> maybe_produced(
                configs,
                ran.take(n),
                f,
            ) || (ran[n].0 < configs.len() && ran[n].1 < configs[ran[n].0 as int].hooks@.len()
                && may_be_produced_by(configs[ran[n].0 as int], ran[n].1 as int, f, true)),
        forall|f: Seq<char>| #[trigger]
            surely_produced(configs, ran.take(n + 1), f) <==> surely_produced(
                configs,
                ran.take(n),
                f,
            ) || (ran[n].0 < configs.len() && ran[n].1 < configs[ran[n].0 as int].hooks@.len()
                && !may_be_produced_by(configs[ran[n].0 as int], ran[n].1 as int, f, false)),
{
    let less = ran.take(n);
    let more = ran.take(n + 1);
    assert forall|i: int| 0 <= i < n implies #[trigger] less[i] == more[i] by {}
    assert(more[n] == ran[n]);
    assert forall|f: Seq<char>| #[trigger] maybe_produced(configs, more, f) <==> maybe_produced(
        configs,
        less,
        f,
    ) || (ran[n].0 < configs.len() && ran[n].1 < configs[ran[n].0 as int].hooks@.len()
        && may_be_produced_by(configs[ran[n].0 as int], ran[n].1 as int, f, true)) by {
        if maybe_produced(configs, more, f) {
            let i = choose|i: int|
                0 <= i < more.len() && (#[trigger] more[i]).0 < configs.len() && more[i].1
                    < configs[more[i].0 as int].hooks@.len() && may_be_produced_by(
                    configs[more[i].0 as int],
                    more[i].1 as int,
                    f,
                    true,
                );
            if i < n {
                assert(less[i] == more[i]);
            }
        }
        if maybe_produced(configs, less, f) {
            let i = choose|i: int|
                0 <= i < less.len() && (#[trigger] less[i]).0 < configs.len() && less[i].1
                    < configs[less[i].0 as int].hooks@.len() && may_be_produced_by(
                    configs[less[i].0 as int],
                    less[i].1 as int,
                    f,
                    true,
                );
            assert(more[i] == less[i]);
        }
    }
    assert forall|f: Seq<char>| #[trigger] surely_produced(configs, more, f) <==> surely_produced(
        configs,
        less,
        f,
    ) || (ran[n].0 < configs.len() && ran[n].1 < configs[ran[n].0 as int].hooks@.len()
        && !may_be_produced_by(configs[ran[n].0 as int], ran[n].1 as int, f, false)) by {
        if surely_produced(configs, more, f) {
            let i = choose|i: int|
                0 <= i < more.len() && (#[trigger] more[i]).0 < configs.len() && more[i].1
                    < configs[more[i].0 as int].hooks@.len() && !may_be_produced_by(
                    configs[more[i].0 as int],
                    more[i].1 as int,
                    f,
                    false,
                );
            if i < n {
                assert(less[i] == more[i]);
            }
        }
        if surely_produced(configs, less, f) {
            let i = choose|i: int|
                0 <= i < less.len() && (#[trigger] less[i]).0 < configs.len() && less[i].1
                    < configs[less[i].0 as int].hooks@.len() && !may_be_produced_by(
                    configs[less[i].0 as int],
                    less[i].1 as int,
                    f,
                    false,
                );
            assert(more[i] == less[i]);
        }
    }
}

/// What is found for a hook is among the changed files and may count as its output;
/// a changed file that cannot but count is found.
proof fn lemma_found(
    cfg: ManifestConfig,
    j: int,
    changed: Seq<Seq<char>>,
    found: Seq<Seq<char>>,
    f: Seq<char>,
)
    requires
        0 <= j < cfg.hooks@.len(),
        cfg.hooks@[j].outputs is None ==> found.len() == 0,
        cfg.hooks@[j].outputs matches Some(m) ==> runner::may_produce(
            found,
            changed,
            path::directory(cfg.path@),
            m,
        ),
    ensures
        found.contains(f) ==> changed.contains(f) && may_be_produced_by(cfg, j, f, true),
        changed.contains(f) && !may_be_produced_by(cfg, j, f, false) ==> found.contains(f),
{
    match cfg.hooks@[j].outputs {
        None => {},
        Some(m) => {
            if m.included().len() > 0 || m.excluded().len() > 0 {
                let dir = path::directory(cfg.path@);
                let hits = choose|hits: Seq<bool>| #[trigger]
                    runner::may_get(hits, changed, dir, Some(m)) && found == runner::kept(
                        changed,
                        hits,
                    );
                runner::lemma_kept_contains(changed, hits, f);
                if found.contains(f) {
                    let i = choose|i: int|
                        0 <= i < changed.len() && #[trigger] changed[i] == f && hits[i];
                    assert(runner::may_be_in_scope(dir, Some(m), changed[i], hits[i]));
                }
                if changed.contains(f) && !may_be_produced_by(cfg, j, f, false) {
                    let i = choose|i: int| 0 <= i < changed.len() && #[trigger] changed[i] == f;
                    assert(runner::may_be_in_scope(dir, Some(m), changed[i], hits[i]));
                }
            }
        },
    }
}

/// The files to stage once hooks ran: the staged files that they modified, and the
/// changed files that they produced. `ran` names the hooks that ran, each by the
/// place of its manifest and its own place in it.
pub fn files_to_stage(
    staged: &Vec<String>,
    unstaged: &Vec<String>,
    changed: &Vec<String>,
    configs: &Vec<ManifestConfig>,
    ran: &Vec<(usize, usize)>,
) -> (r: Vec<String>)
    ensures
        text::views(r@).no_duplicates(),
        forall|f: Seq<char>|
            text::views(staged@).contains(f) && text::views(unstaged@).contains(f)
                ==> #[trigger] text::views(r@).contains(f),
        forall|f: Seq<char>| #[trigger]
            text::views(r@).contains(f) ==> (text::views(staged@).contains(f) && text::views(
                unstaged@,
            ).contains(f)) || (text::views(changed@).contains(f) && maybe_produced(
                configs@,
                ran@,
                f,
            )),
        forall|f: Seq<char>|
            text::views(changed@).contains(f) && surely_produced(configs@, ran@, f)
                ==> #[trigger] text::views(r@).contains(f),
        portable_outputs(configs@, text::views(changed@)) ==> forall|f: Seq<char>| #[trigger]
            text::views(r@).contains(f) <==> (text::views(staged@).contains(f) && text::views(
                unstaged@,
            ).contains(f)) || produced_by_some(configs@, ran@, text::views(changed@), f),
{
    let ghost all = text::views(changed@);
    let modified = git::modified_staged_files(staged, unstaged);
    let mut files: Vec<String> = Vec::new();
    proof {
        assert(text::views(files@) =~= Seq::<Seq<char>>::empty());
    }
    add_missing(&mut files, &modified);
    let ghost first = text::views(files@);
    proof {
        assert forall|f: Seq<char>| #[trigger] first.contains(f) <==> text::views(
            staged@,
        ).contains(f) && text::views(unstaged@).contains(f) by {
            text::lemma_filter_contains(
                text::views(staged@),
                |f: Seq<char>| text::views(unstaged@).contains(f),
                f,
            );
        }
    }
    let mut i: usize = 0;
    while i < ran.len()
        invariant
            i <= ran.len(),
            all == text::views(changed@),
            text::views(files@).no_duplicates(),
            forall|f: Seq<char>| first.contains(f) ==> #[trigger] text::views(files@).contains(f),
            forall|f: Seq<char>| #[trigger]
                text::views(files@).contains(f) ==> first.contains(f) || (all.contains(f)
                    && maybe_produced(configs@, ran@.take(i as int), f)),
            forall|f: Seq<char>|
                all.contains(f) && surely_produced(configs@, ran@.take(i as int), f)
                    ==> #[trigger] text::views(files@).contains(f),
            portable_outputs(configs@, all) ==> forall|f: Seq<char>| #[trigger]
                text::views(files@).contains(f) <==> first.contains(f) || produced_by_some(
                    configs@,
                    ran@.take(i as int),
                    all,
                    f,
                ),
        decreases ran.len() - i,
    {
        let (at, hook) = ran[i];
        proof {
            lemma_one_more(configs@, ran@, i as int);
        }
        if at < configs.len() && hook < configs[at].hooks.len() {
            let dir = path::directory_of(configs[at].path.as_str());
            let found = runner::output_files(changed, dir.as_str(), &configs[at].hooks[hook].outputs);
            proof {
                assert forall|f: Seq<char>| #[trigger] text::views(found@).contains(f) implies
                    all.contains(f) && may_be_produced_by(
                    configs@[at as int],
                    hook as int,
                    f,
                    true,
                ) by {
                    lemma_found(configs@[at as int], hook as int, all, text::views(found@), f);
                }
                assert forall|f: Seq<char>|
                    all.contains(f) && !may_be_produced_by(
                        configs@[at as int],
                        hook as int,
                        f,
                        false,
                    ) implies #[trigger] text::views(found@).contains(f) by {
                    lemma_found(configs@[at as int], hook as int, all, text::views(found@), f);
                }
                if portable_outputs(configs@, all) {
                    assert(runner::portable_scope(
                        all,
                        configs@[at as int].hooks@[hook as int].outputs,
                    ));
                }
            }
            add_missing(&mut files, &found);
        }
        proof {
            lemma_produced_step(configs@, ran@, i as int, all);
        }
        i += 1;
    }
    proof {
        assert(ran@.take(i as int) =~= ran@);
    }
    files
}

/// The exit code of a run: an interruption comes before a failure.
pub open spec fn code_for(interrupted: bool, failed: bool) -> u8 {
    if interrupted {
        130
    } else if failed {
        1
    } else {
        0
    }
}

/// The exit code of a run: an interruption comes before a failure.
pub fn exit_code(interrupted: bool, failed: bool) -> (r: u8)
    ensures
        r == code_for(interrupted, failed),
        interrupted ==> r == 130,
        !interrupted && failed ==> r == 1,
        !interrupted && !failed ==> r == 0,
{
    if interrupted {
        130
    } else if failed {
        1
    } else {
        0
    }
}

// ---- the course of a run ----

/// What is to be done next in a run.
#[derive(Debug, Clone, Copy, PartialEq, Eq, Structural)]
pub enum RunStep {
    /// Read the manifests, and keep the hooks of the stage.
    FindHooks,
    /// List the files to run against.
    FindFiles,
    /// Stash unstaged changes, if a staged file has some.
    Guard,
    /// Run the hooks; `guarded` if changes are stashed.
    RunHooks { guarded: bool },
    /// Stage what the hooks modified and produced.
    Stage { guarded: bool, failed: bool },
    /// Restore the stashed changes.
    Restore { failed: bool },
    /// Nothing more; `ran` if hooks ran, and `failed` if one did not succeed.
    End { ran: bool, failed: bool },
}

/// What came of a step.
#[derive(Debug, Clone, Copy, PartialEq, Eq, Structural)]
pub enum RunEvent {
    /// There are hooks, or none.
    Hooks { any: bool },
    /// There are files, or none.
    Files { any: bool },
    /// Changes were stashed, or there was no need.
    Guarded { stashed: bool },
    /// The hooks ran, and one failed, or none did.
    Ran { failed: bool },
    /// What was to be staged is staged.
    Staged,
    /// The stashed changes are back.
    Restored,
}

/// The step behind a step, by what came of it. With `all` the run is against all
/// tracked files in place of the staged ones: then nothing is stashed, staged or
/// restored. What does not belong to the step leaves it to be done.
pub open spec fn step_behind(all: bool, step: RunStep, event: RunEvent) -> RunStep {
    match (step, event) {
        (RunStep::FindHooks, RunEvent::Hooks { any }) => if any {
            RunStep::FindFiles
        } else {
            RunStep::End { ran: false, failed: false }
        },
        (RunStep::FindFiles, RunEvent::Files { any }) => if !any {
            RunStep::End { ran: false, failed: false }
        } else if all {
            RunStep::RunHooks { guarded: false }
        } else {
            RunStep::Guard
        },
        (RunStep::Guard, RunEvent::Guarded { stashed }) => RunStep::RunHooks { guarded: stashed },
        (RunStep::RunHooks { guarded }, RunEvent::Ran { failed }) => if all {
            RunStep::End { ran: true, failed }
        } else {
            RunStep::Stage { guarded, failed }
        },
        (RunStep::Stage { guarded, failed }, RunEvent::Staged) => if guarded {
            RunStep::Restore { failed }
        } else {
            RunStep::End { ran: true, failed }
        },
        (RunStep::Restore { failed }, RunEvent::Restored) => RunStep::End { ran: true, failed },
        _ => step,
    }
}

/// The step behind a step, by what came of it.
pub fn advance(all: bool, step: RunStep, event: RunEvent) -> (r: RunStep)
    ensures
        r == step_behind(all, step, event),
{
    match (step, event) {
        (RunStep::FindHooks, RunEvent::Hooks { any }) => if any {
            RunStep::FindFiles
        } else {
            RunStep::End { ran: false, failed: false }
        },
        (RunStep::FindFiles, RunEvent::Files { any }) => if !any {
            RunStep::End { ran: false, failed: false }
        } else if all {
            RunStep::RunHooks { guarded: false }
        } else {
            RunStep::Guard
        },
        (RunStep::Guard, RunEvent::Guarded { stashed }) => RunStep::RunHooks { guarded: stashed },
        (RunStep::RunHooks { guarded }, RunEvent::Ran { failed }) => if all {
            RunStep::End { ran: true, failed }
        } else {
            RunStep::Stage { guarded, failed }
        },
        (RunStep::Stage { guarded, failed }, RunEvent::Staged) => if guarded {
            RunStep::Restore { failed }
        } else {
            RunStep::End { ran: true, failed }
        },
        (RunStep::Restore { failed }, RunEvent::Restored) => RunStep::End { ran: true, failed },
        _ => step,
    }
}

/// The exit code of a run that is at its end.
pub open spec fn code_at(step: RunStep, interrupted: bool) -> Option<u8> {
    match step {
        RunStep::End { ran, failed } => Some(
            if ran {
                code_for(interrupted, failed)
            } else {
                0u8
            },
        ),
        _ => None,
    }
}

/// The exit code of a run that is at its end: one without hooks or files succeeds.
pub fn run_code(step: RunStep, interrupted: bool) -> (r: Option<u8>)
    ensures
        r == code_at(step, interrupted),
        match step {
            RunStep::End { ran, failed } => r == Some(
                if !ran {
                    0u8
                } else if interrupted {
                    130u8
                } else if failed {
                    1u8
                } else {
                    0u8
                },
            ),
            _ => r is None,
        },
{
    match step {
        RunStep::End { ran, failed } => if ran {
            Some(exit_code(interrupted, failed))
        } else {
            Some(0)
        },
        _ => None,
    }
}

/// Where a run stands once this came of its steps.
pub open spec fn step_after(all: bool, events: Seq<RunEvent>) -> RunStep
    decreases events.len(),
{
    if events.len() == 0 {
        RunStep::FindHooks
    } else {
        step_behind(all, step_after(all, events.drop_last()), events.last())
    }
}

/// A run against all tracked files never comes to stash, stage or restore anything.
pub proof fn law_all_touches_nothing(events: Seq<RunEvent>)
    ensures
        !(step_after(true, events) is Guard),
        !(step_after(true, events) is Stage),
        !(step_after(true, events) is Restore),
        step_after(true, events) matches RunStep::RunHooks { guarded } ==> !guarded,
    decreases events.len(),
{
    if events.len() > 0 {
        law_all_touches_nothing(events.drop_last());
    }
}

/// At the `k`th step of the run, the step was carried out that `event` belongs to.
pub open spec fn was_done(all: bool, events: Seq<RunEvent>, k: int, event: RunEvent) -> bool {
    &&& 0 <= k < events.len()
    &&& events[k] == event
    &&& step_behind(all, step_after(all, events.take(k)), event) != step_after(all, events.take(k))
}

proof fn lemma_done_earlier(all: bool, events: Seq<RunEvent>, k: int, event: RunEvent)
    requires
        events.len() > 0,
        was_done(all, events.drop_last(), k, event),
    ensures
        was_done(all, events, k, event),
{
    assert(events.drop_last().take(k) =~= events.take(k));
}

proof fn lemma_done_last(all: bool, events: Seq<RunEvent>)
    requires
        events.len() > 0,
        step_after(all, events) != step_after(all, events.drop_last()),
    ensures
        was_done(all, events, events.len() - 1, events.last()),
{
    assert(events.take(events.len() - 1) =~= events.drop_last());
}

/// Changes are restored only once everything is staged, and staged only once the
/// hooks ran.
pub proof fn law_restoring_comes_after_staging(all: bool, events: Seq<RunEvent>)
    ensures
        step_after(all, events) is Restore ==> exists|k: int|
            was_done(all, events, k, RunEvent::Staged),
        step_after(all, events) is Stage ==> exists|k: int, failed: bool|
            was_done(all, events, k, RunEvent::Ran { failed }),
    decreases events.len(),
{
    if events.len() > 0 {
        let front = events.drop_last();
        law_restoring_comes_after_staging(all, front);
        if step_after(all, events) != step_after(all, front) {
            lemma_done_last(all, events);
            if step_after(all, events) is Stage {
                assert(was_done(
                    all,
                    events,
                    events.len() - 1,
                    (RunEvent::Ran { failed: events.last()->Ran_failed }),
                ));
            }
        } else if step_after(all, front) is Restore {
            let k = choose|k: int| was_done(all, front, k, RunEvent::Staged);
            lemma_done_earlier(all, events, k, RunEvent::Staged);
        } else if step_after(all, front) is Stage {
            let (k, failed) = choose|k: int, failed: bool|
                was_done(all, front, k, RunEvent::Ran { failed });
            lemma_done_earlier(all, events, k, RunEvent::Ran { failed });
        }
    }
}

/// Changes that were stashed come back: a run in which they were is not at its end
/// before they are restored.
pub proof fn law_stashed_changes_come_back(all: bool, events: Seq<RunEvent>, k: int)
    requires
        was_done(all, events, k, RunEvent::Guarded { stashed: true }),
    ensures
        match step_after(all, events) {
            RunStep::RunHooks { guarded } => guarded,
            RunStep::Stage { guarded, failed } => guarded,
            RunStep::Restore { failed } => true,
            RunStep::End { ran, failed } => ran && exists|j: int|
                was_done(all, events, j, RunEvent::Restored),
            _ => false,
        },
    decreases events.len(),
{
    let front = events.drop_last();
    if all {
        law_all_touches_nothing(events.take(k));
    }
    if k == events.len() - 1 {
        assert(events.take(k) =~= front);
    } else {
        assert(front.take(k) =~= events.take(k));
        law_stashed_changes_come_back(all, front, k);
        if step_after(all, events) != step_after(all, front) {
            lemma_done_last(all, events);
        } else if step_after(all, front) is End {
            let j = choose|j: int| was_done(all, front, j, RunEvent::Restored);
            lemma_done_earlier(all, events, j, RunEvent::Restored);
        }
    }
}

/// What the hooks' step reported is what the run ends with: from the moment they ran,
/// whether one failed is kept to the end, whatever else came of the steps.
pub proof fn law_failure_is_kept(all: bool, events: Seq<RunEvent>, k: int, failed: bool)
    requires
        was_done(all, events, k, RunEvent::Ran { failed }),
    ensures
        match step_after(all, events) {
            RunStep::Stage { guarded: _, failed: kept } => kept == failed,
            RunStep::Restore { failed: kept } => kept == failed,
            RunStep::End { ran, failed: kept } => ran && kept == failed,
            _ => false,
        },
    decreases events.len(),
{
    let front = events.drop_last();
    if k == events.len() - 1 {
        assert(events.take(k) =~= front);
    } else {
        assert(front.take(k) =~= events.take(k));
        law_failure_is_kept(all, front, k, failed);
    }
}

/// The step that `event` belongs to was carried out in the run.
pub open spec fn came_about(all: bool, events: Seq<RunEvent>, event: RunEvent) -> bool {
    exists|k: int| was_done(all, events, k, event)
}

/// What came about earlier did come about.
proof fn lemma_came_about(all: bool, events: Seq<RunEvent>, event: RunEvent)
    requires
        events.len() > 0,
        came_about(all, events.drop_last(), event) || (event == events.last() && step_after(
            all,
            events,
        ) != step_after(all, events.drop_last())),
    ensures
        came_about(all, events, event),
{
    let front = events.drop_last();
    if came_about(all, front, event) {
        let k = choose|k: int| was_done(all, front, k, event);
        lemma_done_earlier(all, events, k, event);
    } else {
        lemma_done_last(all, events);
    }
}

/// A run that ended and ran hooks ends as their step reported; one that ended without
/// running any did not fail, and had no hooks or no files.
pub proof fn law_end_is_as_reported(all: bool, events: Seq<RunEvent>)
    ensures
        match step_after(all, events) {
            RunStep::Stage { guarded: _, failed } => came_about(
                all,
                events,
                RunEvent::Ran { failed },
            ),
            RunStep::Restore { failed } => came_about(all, events, RunEvent::Ran { failed }),
            RunStep::End { ran, failed } => if ran {
                came_about(all, events, RunEvent::Ran { failed })
            } else {
                !failed && (came_about(all, events, RunEvent::Hooks { any: false }) || came_about(
                    all,
                    events,
                    RunEvent::Files { any: false },
                ))
            },
            _ => true,
        },
    decreases events.len(),
{
    if events.len() > 0 {
        let front = events.drop_last();
        law_end_is_as_reported(all, front);
        if step_after(all, events) != step_after(all, front) {
            lemma_came_about(all, events, events.last());
        }
        match step_after(all, front) {
            RunStep::Stage { guarded: _, failed } => {
                lemma_came_about(all, events, RunEvent::Ran { failed });
            },
            RunStep::Restore { failed } => {
                lemma_came_about(all, events, RunEvent::Ran { failed });
            },
            RunStep::End { ran, failed } => {
                if ran {
                    lemma_came_about(all, events, RunEvent::Ran { failed });
                } else if came_about(all, front, RunEvent::Hooks { any: false }) {
                    lemma_came_about(all, events, RunEvent::Hooks { any: false });
                } else {
                    lemma_came_about(all, events, RunEvent::Files { any: false });
                }
            },
            _ => {},
        }
    }
}

/// The exit code of a run in which the hooks ran: 1 if one failed and 0 if none did,
/// or 130 where it was interrupted. It is there only once the run is at its end.
pub proof fn law_code_tells_of_failure(
    all: bool,
    events: Seq<RunEvent>,
    k: int,
    failed: bool,
)
    requires
        was_done(all, events, k, RunEvent::Ran { failed }),
    ensures
        match code_at(step_after(all, events), false) {
            Some(code) => step_after(all, events) is End && (code == 1 <==> failed) && (code == 0
                <==> !failed),
            None => !(step_after(all, events) is End),
        },
        match code_at(step_after(all, events), true) {
            Some(code) => step_after(all, events) is End && code == 130,
            None => !(step_after(all, events) is End),
        },
{
    law_failure_is_kept(all, events, k, failed);
}

/// A run that ended without running a hook succeeds, interrupted or not; and a run
/// that is not at its end has no exit code.
pub proof fn law_code_without_hooks(all: bool, events: Seq<RunEvent>, interrupted: bool)
    requires
        !came_about(all, events, RunEvent::Ran { failed: true }),
        !came_about(all, events, RunEvent::Ran { failed: false }),
    ensures
        step_after(all, events) is End ==> code_at(step_after(all, events), interrupted) == Some(
            0u8,
        ),
        !(step_after(all, events) is End) ==> code_at(step_after(all, events), interrupted) is None,
{
    law_end_is_as_reported(all, events);
}

/// Hooks run behind the guard, and with what it stashed in mind: in a run against
/// staged files they are next only once it was asked whether changes are to be stashed.
pub proof fn law_guard_comes_before_hooks(events: Seq<RunEvent>)
    ensures
        match step_after(false, events) {
            RunStep::RunHooks { guarded } => came_about(
                false,
                events,
                RunEvent::Guarded { stashed: guarded },
            ),
            RunStep::Stage { guarded, failed: _ } => came_about(
                false,
                events,
                RunEvent::Guarded { stashed: guarded },
            ),
            RunStep::Restore { failed: _ } => came_about(
                false,
                events,
                RunEvent::Guarded { stashed: true },
            ),
            _ => true,
        },
    decreases events.len(),
{
    if events.len() > 0 {
        let front = events.drop_last();
        law_guard_comes_before_hooks(front);
        if step_after(false, events) != step_after(false, front) {
            lemma_came_about(false, events, events.last());
        }
        match step_after(false, front) {
            RunStep::RunHooks { guarded } => {
                lemma_came_about(false, events, RunEvent::Guarded { stashed: guarded });
            },
            RunStep::Stage { guarded, failed: _ } => {
                lemma_came_about(false, events, RunEvent::Guarded { stashed: guarded });
            },
            RunStep::Restore { failed: _ } => {
                lemma_came_about(false, events, RunEvent::Guarded { stashed: true });
            },
            _ => {},
        }
    }
}

/// What the hooks of a run against staged files modified is staged: such a run is not
/// at its end, nor are changes restored, before that.
pub proof fn law_staging_is_never_left_out(events: Seq<RunEvent>)
    ensures
        match step_after(false, events) {
            RunStep::Restore { failed: _ } => came_about(false, events, RunEvent::Staged),
            RunStep::End { ran, failed: _ } => ran ==> came_about(false, events, RunEvent::Staged),
            _ => true,
        },
    decreases events.len(),
{
    if events.len() > 0 {
        let front = events.drop_last();
        law_staging_is_never_left_out(front);
        if step_after(false, events) != step_after(false, front) {
            lemma_came_about(false, events, events.last());
        }
        match step_after(false, front) {
            RunStep::Restore { failed: _ } => {
                lemma_came_about(false, events, RunEvent::Staged);
            },
            RunStep::End { ran, failed: _ } => {
                if ran {
                    lemma_came_about(false, events, RunEvent::Staged);
                }
            },
            _ => {},
        }
    }
}

/// The course of a run that has hooks and files. Against all tracked files the hooks
/// run and that is all. Against staged files changes are guarded first, then the hooks
/// run, then files are staged, and what was stashed is restored last.
pub proof fn law_course_of_a_run(stashed: bool, failed: bool)
    ensures
        ({
            let found = seq![RunEvent::Hooks { any: true }, RunEvent::Files { any: true }];
            let guarded = found.push(RunEvent::Guarded { stashed });
            let ran = guarded.push(RunEvent::Ran { failed });
            let staged = ran.push(RunEvent::Staged);
            let end = RunStep::End { ran: true, failed };
            &&& step_after(true, found) is RunHooks
            &&& step_after(true, found.push(RunEvent::Ran { failed })) == end
            &&& step_after(false, found) is Guard
            &&& step_after(false, guarded) is RunHooks
            &&& step_after(false, ran) is Stage
            &&& stashed ==> step_after(false, staged) is Restore
            &&& stashed ==> step_after(false, staged.push(RunEvent::Restored)) == end
            &&& !stashed ==> step_after(false, staged) == end
        }),
{
    let found = seq![RunEvent::Hooks { any: true }, RunEvent::Files { any: true }];
    let guarded = found.push(RunEvent::Guarded { stashed });
    let ran = guarded.push(RunEvent::Ran { failed });
    let staged = ran.push(RunEvent::Staged);
    let whole = found.push(RunEvent::Ran { failed });
    reveal_with_fuel(step_after, 3);
    assert(whole.drop_last() =~= found);
    assert(guarded.drop_last() =~= found);
    assert(ran.drop_last() =~= guarded);
    assert(staged.drop_last() =~= ran);
    assert(staged.push(RunEvent::Restored).drop_last() =~= staged);
}

/// A run without hooks, or without files, is at its end at once.
pub proof fn law_nothing_to_run(all: bool)
    ensures
        step_after(all, seq![RunEvent::Hooks { any: false }]) == (RunStep::End {
            ran: false,
            failed: false,
        }),
        step_after(all, seq![RunEvent::Hooks { any: true }, RunEvent::Files { any: false }]) == (
        RunStep::End { ran: false, failed: false }),
{
    reveal_with_fuel(step_after, 3);
}

/// How far a step is from the end of a run.
pub open spec fn steps_left(step: RunStep) -> nat {
    match step {
        RunStep::FindHooks => 6,
        RunStep::FindFiles => 5,
        RunStep::Guard => 4,
        RunStep::RunHooks { guarded } => 3,
        RunStep::Stage { guarded, failed } => 2,
        RunStep::Restore { failed } => 1,
        RunStep::End { ran, failed } => 0,
    }
}

/// A run comes to its end: what comes of a step leads closer to it or leaves the step
/// to be done, and nothing leads on from the end.
pub proof fn law_a_run_ends(all: bool, step: RunStep, event: RunEvent)
    ensures
        step_behind(all, step, event) == step || steps_left(step_behind(all, step, event))
            < steps_left(step),
        step is End ==> step_behind(all, step, event) == step,
{
}

// ---- listing hooks ----

/// The patterns of a hook as they are listed.
pub open spec fn glob_text(glob: Option<Seq<Seq<char>>>) -> Seq<char> {
    match glob {
        Some(p) => text::join(p, ", "@),
        None => "-"@,
    }
}

/// The patterns of a hook as they are listed.
fn listed_glob(glob: &Option<Vec<String>>) -> (r: String)
    ensures
        r@ == glob_text(config::patterns_of(*glob)),
{
    match glob {
        Some(p) => text::joined(p, ", "),
        None => String::from_str("-"),
    }
}

/// The bytes that a text takes.
pub open spec fn byte_len(s: Seq<char>) -> nat {
    vstd::utf8::encode_utf8(s).len()
}

/// The greater of two numbers.
pub open spec fn greater(a: nat, b: nat) -> nat {
    if a >= b {
        a
    } else {
        b
    }
}

/// The widths of the columns for names, commands and patterns.
pub struct Widths {
    pub name: nat,
    pub cmd: nat,
    pub glob: nat,
}

/// The widths that hooks need: of each column, the most bytes that a hook has
/// there.
pub open spec fn widths(hooks: Seq<Hook>) -> Widths
    decreases hooks.len(),
{
    if hooks.len() == 0 {
        Widths { name: 0, cmd: 0, glob: 0 }
    } else {
        let front = widths(hooks.drop_last());
        let h = hooks.last();
        Widths {
            name: greater(front.name, byte_len(h.name@)),
            cmd: greater(front.cmd, byte_len(h.cmd@)),
            glob: greater(front.glob, byte_len(glob_text(config::patterns_of(h.glob)))),
        }
    }
}

/// All hooks of the manifests, in order.
pub open spec fn all_hooks(configs: Seq<ManifestConfig>) -> Seq<Hook>
    decreases configs.len(),
{
    if configs.len() == 0 {
        seq![]
    } else {
        all_hooks(configs.drop_last()) + configs.last().hooks@
    }
}

/// The greater of a number and the bytes of a text.
fn wider(n: usize, s: &str) -> (r: usize)
    ensures
        r == greater(n as nat, byte_len(s@)),
{
    let m = s.as_bytes().len();
    if n >= m {
        n
    } else {
        m
    }
}

/// The widths that hooks need.
fn measure(configs: &Vec<ManifestConfig>) -> (r: (usize, usize, usize))
    ensures
        ({
            let w = widths(all_hooks(configs@));
            r.0 == w.name && r.1 == w.cmd && r.2 == w.glob
        }),
{
    let mut name: usize = 0;
    let mut cmd: usize = 0;
    let mut glob: usize = 0;
    let mut i: usize = 0;
    proof {
        assert(all_hooks(configs@.take(0)) =~= seq![]);
    }
    while i < configs.len()
        invariant
            i <= configs.len(),
            widths(all_hooks(configs@.take(i as int))) == (Widths {
                name: name as nat,
                cmd: cmd as nat,
                glob: glob as nat,
            }),
        decreases configs.len() - i,
    {
        let hooks = &configs[i].hooks;
        let ghost before = all_hooks(configs@.take(i as int));
        proof {
            assert(configs@.take(i + 1).drop_last() =~= configs@.take(i as int));
            assert(configs@.take(i + 1).last() == configs@[i as int]);
            assert(before + hooks@.take(0) =~= before);
        }
        let mut j: usize = 0;
        while j < hooks.len()
            invariant
                j <= hooks.len(),
                widths(before + hooks@.take(j as int)) == (Widths {
                    name: name as nat,
                    cmd: cmd as nat,
                    glob: glob as nat,
                }),
            decreases hooks.len() - j,
        {
            proof {
                let more = before + hooks@.take(j + 1);
                assert(more.drop_last() =~= before + hooks@.take(j as int));
                assert(more.last() == hooks@[j as int]);
            }
            name = wider(name, hooks[j].name.as_str());
            cmd = wider(cmd, hooks[j].cmd.as_str());
            glob = wider(glob, listed_glob(&hooks[j].glob).as_str());
            j += 1;
        }
        proof {
            assert(hooks@.take(j as int) =~= hooks@);
        }
        i += 1;
    }
    proof {
        assert(configs@.take(i as int) =~= configs@);
    }
    (name, cmd, glob)
}

/// The mark of a hook that is not of the default stage.
pub open spec fn stage_mark(t: HookType) -> Seq<char> {
    if t == HookType::PreCommit {
        seq![]
    } else {
        "  ["@ + config::stage_name(t) + "]"@
    }
}

/// The row of a hook in the listing.
pub open spec fn hook_row(h: Hook, w: Widths) -> Seq<char> {
    "  "@ + init::padded(h.name@, w.name) + "  "@ + init::padded(h.cmd@, w.cmd) + "  "@
        + init::padded(glob_text(config::patterns_of(h.glob)), w.glob) + stage_mark(h.hook_type)
}

/// The rows of hooks in the listing.
pub open spec fn hook_rows(hooks: Seq<Hook>, w: Widths) -> Seq<Seq<char>> {
    Seq::new(hooks.len(), |i: int| hook_row(hooks[i], w))
}

/// The lines of the first `n` manifests in the listing: the path of each, its
/// hooks, and an empty line between manifests.
pub open spec fn listing_of(configs: Seq<ManifestConfig>, n: int, w: Widths, color: bool) -> Seq<
    Seq<char>,
>
    decreases n,
{
    if n <= 0 {
        seq![]
    } else {
        listing_of(configs, n - 1, w, color) + (if n > 1 {
            seq![Seq::<char>::empty()]
        } else {
            seq![]
        }) + seq![style::bold_text(configs[n - 1].path@, color)] + hook_rows(
            configs[n - 1].hooks@,
            w,
        )
    }
}

/// The manifests that have hooks.
pub open spec fn with_hooks(configs: Seq<ManifestConfig>) -> Seq<ManifestConfig> {
    configs.filter(|c: ManifestConfig| c.hooks@.len() > 0)
}

/// The row of a hook in the listing.
fn hook_row_text(h: &Hook, name: usize, cmd: usize, glob: usize) -> (r: String)
    ensures
        r@ == hook_row(*h, (Widths { name: name as nat, cmd: cmd as nat, glob: glob as nat })),
{
    let mut t = String::from_str("  ");
    t.append(init::pad(h.name.as_str(), name).as_str());
    t.append("  ");
    t.append(init::pad(h.cmd.as_str(), cmd).as_str());
    t.append("  ");
    t.append(init::pad(listed_glob(&h.glob).as_str(), glob).as_str());
    if h.hook_type != HookType::PreCommit {
        t.append("  [");
        t.append(h.hook_type.as_str());
        t.append("]");
    }
    proof {
        assert(t@ =~= hook_row(
            *h,
            (Widths { name: name as nat, cmd: cmd as nat, glob: glob as nat }),
        ));
    }
    t
}

/// The manifests that have hooks.
fn keep_with_hooks(configs: Vec<ManifestConfig>) -> (r: Vec<ManifestConfig>)
    ensures
        r@ == with_hooks(configs@),
{
    let ghost all = configs@;
    let ghost keep = |c: ManifestConfig| c.hooks@.len() > 0;
    let mut rest = configs;
    let mut out: Vec<ManifestConfig> = Vec::new();
    let ghost mut k: int = 0;
    proof {
        reveal(Seq::filter);
        assert(all.skip(0) =~= all);
        assert(out@ =~= all.take(0).filter(keep));
    }
    while rest.len() > 0
        invariant
            0 <= k <= all.len(),
            rest@ == all.skip(k),
            keep == (|c: ManifestConfig| c.hooks@.len() > 0),
            out@ == all.take(k).filter(keep),
        decreases rest.len(),
    {
        proof {
            reveal(Seq::filter);
            assert(rest@[0] == all[k]);
            assert(all.take(k + 1).drop_last() =~= all.take(k));
            assert(all.take(k + 1).last() == all[k]);
            assert(rest@.remove(0) =~= all.skip(k + 1));
        }
        let c = rest.remove(0);
        if c.hooks.len() > 0 {
            out.push(c);
        }
        proof {
            k = k + 1;
        }
    }
    proof {
        assert(all.take(k) =~= all);
    }
    out
}

/// The listing of all hooks, in columns.
pub fn ls(configs: Vec<ManifestConfig>, color: bool) -> (r: Vec<String>)
    ensures
        ({
            let shown = with_hooks(configs@);
            &&& shown.len() == 0 ==> text::views(r@) == seq!["no hooks configured"@]
            &&& shown.len() > 0 ==> text::views(r@) == listing_of(
                shown,
                shown.len() as int,
                widths(all_hooks(shown)),
                color,
            )
        }),
{
    let shown = keep_with_hooks(configs);
    let mut r: Vec<String> = Vec::new();
    if shown.len() == 0 {
        r.push(String::from_str("no hooks configured"));
        proof {
            assert(text::views(r@) =~= seq!["no hooks configured"@]);
        }
        return r;
    }
    let (name, cmd, glob) = measure(&shown);
    let ghost w = Widths { name: name as nat, cmd: cmd as nat, glob: glob as nat };
    let mut i: usize = 0;
    proof {
        assert(text::views(r@) =~= listing_of(shown@, 0, w, color));
    }
    while i < shown.len()
        invariant
            i <= shown.len(),
            w == (Widths { name: name as nat, cmd: cmd as nat, glob: glob as nat }),
            text::views(r@) == listing_of(shown@, i as int, w, color),
        decreases shown.len() - i,
    {
        let ghost before = text::views(r@);
        if i > 0 {
            r.push(String::new());
        }
        r.push(style::bold(shown[i].path.as_str(), color));
        let ghost head = before + (if i + 1 > 1 {
            seq![Seq::<char>::empty()]
        } else {
            seq![]
        }) + seq![style::bold_text(shown@[i as int].path@, color)];
        let hooks = &shown[i].hooks;
        let ghost rows = hook_rows(hooks@, w);
        let mut j: usize = 0;
        proof {
            assert(text::views(r@) =~= head + rows.take(0));
        }
        while j < hooks.len()
            invariant
                j <= hooks.len(),
                w == (Widths { name: name as nat, cmd: cmd as nat, glob: glob as nat }),
                rows == hook_rows(hooks@, w),
                text::views(r@) =~= head + rows.take(j as int),
            decreases hooks.len() - j,
        {
            let ghost so_far = text::views(r@);
            r.push(hook_row_text(&hooks[j], name, cmd, glob));
            proof {
                assert(text::views(r@) =~= so_far.push(rows[j as int]));
            }
            j += 1;
        }
        proof {
            assert(rows.take(j as int) =~= rows);
            assert(text::views(r@) =~= listing_of(shown@, i + 1, w, color));
        }
        i += 1;
    }
    r
}

/// No hook is wider than its column.
pub proof fn law_columns_fit(hooks: Seq<Hook>, i: int)
    requires
        0 <= i < hooks.len(),
    ensures
        byte_len(hooks[i].name@) <= widths(hooks).name,
        byte_len(hooks[i].cmd@) <= widths(hooks).cmd,
        byte_len(glob_text(config::patterns_of(hooks[i].glob))) <= widths(hooks).glob,
    decreases hooks.len(),
{
    if i < hooks.len() - 1 {
        law_columns_fit(hooks.drop_last(), i);
    }
}

/// The row of a hook shows its name, its command and its patterns, in that order, and
/// behind them its stage if it is not the default one.
pub proof fn law_row_of_a_hook(h: Hook)
    ensures
        ({
            let w = Widths { name: 0, cmd: 0, glob: 0 };
            let row = "  "@ + h.name@ + "  "@ + h.cmd@ + "  "@ + (match config::patterns_of(
                h.glob,
            ) {
                Some(p) => text::join(p, ", "@),
                None => "-"@,
            });
            hook_row(h, w) == match h.hook_type {
                HookType::PreCommit => row,
                HookType::PrePush => row + ("  ["@ + "pre-push"@ + "]"@),
                HookType::CommitMsg => row + ("  ["@ + "commit-msg"@ + "]"@),
                HookType::PrepareCommitMsg => row + ("  ["@ + "prepare-commit-msg"@ + "]"@),
            }
        }),
{
    let w = Widths { name: 0, cmd: 0, glob: 0 };
    let row = "  "@ + h.name@ + "  "@ + h.cmd@ + "  "@ + glob_text(config::patterns_of(h.glob));
    assert(row + Seq::<char>::empty() =~= row);
    assert(hook_row(h, w) =~= row + stage_mark(h.hook_type));
}

/// The listing shows every manifest with its path and a row for each of its hooks, in
/// order.
pub proof fn law_listing_shows_all(
    configs: Seq<ManifestConfig>,
    n: int,
    w: Widths,
    color: bool,
    i: int,
)
    requires
        0 < n <= configs.len(),
    ensures
        ({
            let before = listing_of(configs, n - 1, w, color);
            let all = listing_of(configs, n, w, color);
            let hooks = configs[n - 1].hooks@;
            let at = all.len() - hooks.len();
            &&& before.is_prefix_of(all)
            &&& all.len() == before.len() + hooks.len() + (if n > 1 {
                2int
            } else {
                1int
            })
            &&& all[at - 1] == style::bold_text(configs[n - 1].path@, color)
            &&& 0 <= i < hooks.len() ==> all[at + i] == hook_row(hooks[i], w)
        }),
{
    let before = listing_of(configs, n - 1, w, color);
    let all = listing_of(configs, n, w, color);
    assert(before =~= all.take(before.len() as int));
}

/// A hook that is skipped is named, with the reason.
pub proof fn law_line_of_a_skipped_hook(name: Seq<char>, all: bool)
    ensures
        skip_line(name, false) == "  "@ + name + " "@ + "skipped (NIZM_SKIP)"@,
        all ==> file_word(all) == "tracked"@,
        !all ==> file_word(all) == "staged"@,
{
}

/// The listing is of the manifests that have hooks, in order, and measures all of these.
pub proof fn law_what_is_listed(configs: Seq<ManifestConfig>, more: ManifestConfig)
    ensures
        with_hooks(Seq::<ManifestConfig>::empty()).len() == 0,
        more.hooks@.len() > 0 ==> with_hooks(configs.push(more)) == with_hooks(configs).push(more),
        more.hooks@.len() == 0 ==> with_hooks(configs.push(more)) == with_hooks(configs),
        all_hooks(Seq::<ManifestConfig>::empty()).len() == 0,
        all_hooks(configs.push(more)) == all_hooks(configs) + more.hooks@,
{
    reveal(Seq::filter);
    assert(configs.push(more).drop_last() =~= configs);
}

} // verus!
