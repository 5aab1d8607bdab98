//! Paths as texts: their order, and the names and directories in them. Paths are
//! relative to the repository and separated by slashes.

use crate::text;
use vstd::prelude::*;
use vstd::string::*;

verus! {

broadcast use {group_string_axioms, vstd::seq::group_seq_axioms};

// ---- the order of paths ----

/// The rank of a character in a path: the separator comes before the others.
pub open spec fn path_rank(c: char) -> int {
    if c == '/' {
        -1
    } else {
        c as int
    }
}

/// `a` comes before `b` when paths are compared component by component.
pub open spec fn path_before(a: Seq<char>, b: Seq<char>) -> bool
    decreases a.len(),
{
    if b.len() == 0 {
        false
    } else if a.len() == 0 {
        true
    } else if a[0] == b[0] {
        path_before(a.skip(1), b.skip(1))
    } else {
        path_rank(a[0]) < path_rank(b[0])
    }
}

/// Every path comes before those behind it.
pub open spec fn in_path_order(paths: Seq<Seq<char>>) -> bool {
    forall|i: int, j: int|
        0 <= i < j < paths.len() ==> path_before(#[trigger] paths[i], #[trigger] paths[j])
}

proof fn lemma_path_rank(a: char, b: char)
    ensures
        path_rank(a) >= -1,
        a != b ==> path_rank(a) != path_rank(b),
        a != b && a == '/' ==> path_rank(a) < path_rank(b),
        a != b && b == '/' ==> path_rank(b) < path_rank(a),
{
    assert(0 <= a as int);
    assert(0 <= b as int);
}

/// No path comes before itself.
pub proof fn lemma_path_before_irreflexive(a: Seq<char>)
    ensures
        !path_before(a, a),
    decreases a.len(),
{
    if a.len() > 0 {
        lemma_path_before_irreflexive(a.skip(1));
    }
}

proof fn lemma_path_before_transitive(a: Seq<char>, b: Seq<char>, c: Seq<char>)
    requires
        path_before(a, b),
        path_before(b, c),
    ensures
        path_before(a, c),
    decreases a.len(),
{
    if a.len() > 0 && a[0] == b[0] && b[0] == c[0] {
        lemma_path_before_transitive(a.skip(1), b.skip(1), c.skip(1));
    }
}

proof fn lemma_path_before_total(a: Seq<char>, b: Seq<char>)
    ensures
        a == b || path_before(a, b) || path_before(b, a),
    decreases a.len(),
{
    if a.len() > 0 && b.len() > 0 {
        if a[0] == b[0] {
            lemma_path_before_total(a.skip(1), b.skip(1));
            if a.skip(1) == b.skip(1) {
                assert(a =~= seq![a[0]] + a.skip(1));
                assert(b =~= seq![b[0]] + b.skip(1));
            }
        } else {
            lemma_path_rank(a[0], b[0]);
        }
    } else if a.len() == 0 && b.len() == 0 {
        assert(a =~= b);
    }
}

/// Does `a` come before `b`, component by component?
pub fn comes_before(a: &str, b: &str) -> (r: bool)
    ensures
        r == path_before(a@, b@),
{
    let v = text::chars_of(a);
    let w = text::chars_of(b);
    let mut i: usize = 0;
    proof {
        assert(v@.skip(0) =~= v@);
        assert(w@.skip(0) =~= w@);
    }
    while i < v.len() && i < w.len() && v[i] == w[i]
        invariant
            i <= v.len(),
            i <= w.len(),
            v@ == a@,
            w@ == b@,
            path_before(a@, b@) == path_before(v@.skip(i as int), w@.skip(i as int)),
        decreases v.len() - i,
    {
        proof {
            assert(v@.skip(i as int).skip(1) =~= v@.skip(i + 1));
            assert(w@.skip(i as int).skip(1) =~= w@.skip(i + 1));
        }
        i += 1;
    }
    proof {
        if i < w.len() && i < v.len() {
            assert(v@.skip(i as int)[0] == v@[i as int]);
            assert(w@.skip(i as int)[0] == w@[i as int]);
            lemma_path_rank(v@[i as int], w@[i as int]);
        }
    }
    if i >= w.len() {
        false
    } else if i >= v.len() {
        true
    } else {
        v[i] == '/' || (w[i] != '/' && v[i] < w[i])
    }
}

/// The place of `path` among paths in order: behind those that come before it.
fn place_of(paths: &Vec<String>, path: &str) -> (r: usize)
    requires
        in_path_order(text::views(paths@)),
    ensures
        r <= paths.len(),
        forall|i: int| 0 <= i < r ==> path_before(#[trigger] text::views(paths@)[i], path@),
        r < paths.len() ==> !path_before(text::views(paths@)[r as int], path@),
{
    let mut i: usize = 0;
    while i < paths.len() && comes_before(paths[i].as_str(), path)
        invariant
            i <= paths.len(),
            forall|j: int| 0 <= j < i ==> path_before(#[trigger] text::views(paths@)[j], path@),
        decreases paths.len() - i,
    {
        i += 1;
    }
    i
}

/// Adds a path to paths in order, unless it is there.
pub fn insert_path(paths: &mut Vec<String>, path: &str)
    requires
        in_path_order(text::views(old(paths)@)),
    ensures
        in_path_order(text::views(final(paths)@)),
        forall|p: Seq<char>| #[trigger]
            text::views(final(paths)@).contains(p) <==> text::views(old(paths)@).contains(p) || p
                == path@,
{
    let ghost before = text::views(paths@);
    let at = place_of(paths, path);
    let known = at < paths.len() && text::same(paths[at].as_str(), path);
    proof {
        if known {
            assert(before[at as int] == path@);
        }
    }
    if !known {
        paths.insert(at, String::from_str(path));
        proof {
            lemma_inserted(before, path@, at as int);
            assert(text::views(paths@) =~= before.insert(at as int, path@));
        }
    }
}

/// Inserting a path at its place keeps the order and adds just that path.
proof fn lemma_inserted(paths: Seq<Seq<char>>, path: Seq<char>, at: int)
    requires
        in_path_order(paths),
        0 <= at <= paths.len(),
        forall|i: int| 0 <= i < at ==> path_before(#[trigger] paths[i], path),
        at < paths.len() ==> !path_before(paths[at], path) && paths[at] != path,
    ensures
        in_path_order(paths.insert(at, path)),
        forall|p: Seq<char>| #[trigger]
            paths.insert(at, path).contains(p) <==> paths.contains(p) || p == path,
{
    let after = paths.insert(at, path);
    assert forall|i: int| at <= i < paths.len() implies path_before(path, #[trigger] paths[i]) by {
        lemma_path_before_total(paths[at], path);
        if i > at {
            lemma_path_before_transitive(path, paths[at], paths[i]);
        }
    }
    assert forall|i: int, j: int| 0 <= i < j < after.len() implies path_before(
        #[trigger] after[i],
        #[trigger] after[j],
    ) by {
        if i < at && j > at {
            lemma_path_before_transitive(paths[i], path, paths[j - 1]);
        }
    }
    assert forall|p: Seq<char>| #[trigger] after.contains(p) <==> paths.contains(p) || p
        == path by {
        if after.contains(p) {
            let j = choose|j: int| 0 <= j < after.len() && after[j] == p;
            if j < at {
                assert(paths[j] == p);
            } else if j > at {
                assert(paths[j - 1] == p);
            }
        }
        if paths.contains(p) {
            let j = choose|j: int| 0 <= j < paths.len() && paths[j] == p;
            if j < at {
                assert(after[j] == p);
            } else {
                assert(after[j + 1] == p);
            }
        }
        if p == path {
            assert(after[at] == p);
        }
    }
}

// ---- names and directories ----

/// The last part that names something: empty parts and `.` do not count. `None`
/// if there is none, or if it leads up.
pub open spec fn last_name(parts: Seq<Seq<char>>) -> Option<Seq<char>>
    decreases parts.len(),
{
    if parts.len() == 0 {
        None
    } else if parts.last().len() == 0 || parts.last() == "."@ {
        last_name(parts.drop_last())
    } else if parts.last() == ".."@ {
        None
    } else {
        Some(parts.last())
    }
}

/// The name of the file at the end of a path; `None` where a path ends in no
/// name.
pub open spec fn file_name(path: Seq<char>) -> Option<Seq<char>> {
    last_name(text::pieces(path, '/'))
}

/// The name of the file at the end of a path.
pub fn name_of_file(path: &str) -> (r: Option<String>)
    ensures
        r is Some <==> file_name(path@) is Some,
        r matches Some(n) ==> file_name(path@) == Some(n@),
{
    let mut parts = text::split_at(path, '/');
    while parts.len() > 0
        invariant
            file_name(path@) == last_name(text::views(parts@)),
        decreases parts.len(),
    {
        let ghost before = text::views(parts@);
        let name = match parts.pop() {
            Some(n) => n,
            None => return None,
        };
        proof {
            assert(before.last() == name@);
            assert(before.drop_last() =~= text::views(parts@));
        }
        if !name.as_str().is_empty() && !text::same(name.as_str(), ".") {
            if text::same(name.as_str(), "..") {
                return None;
            }
            return Some(name);
        }
    }
    None
}

/// `s` without what adds nothing at its end: slashes, and parts that are `.`.
pub open spec fn trim_slashes(s: Seq<char>) -> Seq<char>
    decreases s.len(),
{
    if s.len() > 1 && (s.last() == '/' || (s.last() == '.' && s[s.len() - 2] == '/')) {
        trim_slashes(s.drop_last())
    } else {
        s
    }
}

/// `s` up to its last slash.
pub open spec fn upto_slash(s: Seq<char>) -> Seq<char>
    decreases s.len(),
{
    if s.len() == 0 || s.last() == '/' {
        s
    } else {
        upto_slash(s.drop_last())
    }
}

/// The directory of a file; empty for the repository itself.
pub open spec fn directory(path: Seq<char>) -> Seq<char> {
    trim_slashes(upto_slash(trim_slashes(path)))
}

/// Where the first `n` characters end without what adds nothing at their end.
fn trimmed_len(v: &Vec<char>, n: usize) -> (r: usize)
    requires
        n <= v.len(),
    ensures
        r <= n,
        v@.take(r as int) == trim_slashes(v@.take(n as int)),
{
    let mut r: usize = n;
    while r > 1 && (v[r - 1] == '/' || (v[r - 1] == '.' && v[r - 2] == '/'))
        invariant
            r <= n <= v.len(),
            trim_slashes(v@.take(n as int)) == trim_slashes(v@.take(r as int)),
        decreases r,
    {
        proof {
            assert(v@.take(r as int).last() == v@[r - 1]);
            assert(v@.take(r as int).drop_last() =~= v@.take(r - 1));
        }
        r -= 1;
    }
    proof {
        if r > 1 {
            assert(v@.take(r as int).last() == v@[r - 1]);
        }
    }
    r
}

/// The directory of a file; empty for the repository itself.
pub fn directory_of(path: &str) -> (r: String)
    ensures
        r@ == directory(path@),
{
    let v = text::chars_of(path);
    proof {
        assert(v@.take(v@.len() as int) =~= v@);
    }
    let end = trimmed_len(&v, v.len());
    let mut n: usize = end;
    while n > 0 && v[n - 1] != '/'
        invariant
            n <= end <= v.len(),
            upto_slash(v@.take(end as int)) == upto_slash(v@.take(n as int)),
        decreases n,
    {
        proof {
            assert(v@.take(n as int).last() == v@[n - 1]);
            assert(v@.take(n as int).drop_last() =~= v@.take(n - 1));
        }
        n -= 1;
    }
    proof {
        if n > 0 {
            assert(v@.take(n as int).last() == v@[n - 1]);
        }
    }
    let to = trimmed_len(&v, n);
    proof {
        assert(v@.subrange(0, to as int) =~= v@.take(to as int));
    }
    text::substring(&v, 0, to)
}

// ---- laws ----

/// Paths are compared component by component: a path comes before what lies below it,
/// what lies below a directory comes before what only begins with its name, and
/// otherwise the first character that differs decides.
pub proof fn law_path_order(front: Seq<char>, a: Seq<char>, b: Seq<char>)
    ensures
        b.len() > 0 ==> path_before(front, front + b) && !path_before(front + b, front),
        a.len() > 0 && b.len() > 0 && a[0] != b[0] ==> (path_before(front + a, front + b) <==> a[0]
            == '/' || (b[0] != '/' && (a[0] as int) < (b[0] as int))),
    decreases front.len(),
{
    if front.len() == 0 {
        assert(front + a =~= a);
        assert(front + b =~= b);
        if a.len() > 0 && b.len() > 0 {
            lemma_path_rank(a[0], b[0]);
        }
    } else {
        let rest = front.skip(1);
        law_path_order(rest, a, b);
        assert((front + a).skip(1) =~= rest + a);
        assert((front + b).skip(1) =~= rest + b);
    }
}

/// A text that names a file in a directory.
pub open spec fn is_name(name: Seq<char>) -> bool {
    name.len() > 0 && name != "."@ && name != ".."@ && !name.contains('/')
}

/// The name of a file at the end of a path is what stands behind the last slash; slashes
/// behind it do not count.
pub proof fn law_file_name(dir: Seq<char>, name: Seq<char>)
    requires
        is_name(name),
    ensures
        file_name(name) == Some(name),
        file_name(dir + seq!['/'] + name) == Some(name),
        file_name(name + seq!['/']) == Some(name),
{
    let none = Seq::<char>::empty();
    text::lemma_last_piece(dir, name, '/');
    text::lemma_last_piece(name, none, '/');
    assert(name + seq!['/'] + none =~= name + seq!['/']);
    let one = seq![name];
    assert(one.last() == name);
    let two = text::pieces(dir, '/') + seq![name];
    assert(two.last() == name);
    let three = one + seq![none];
    assert(three.last() == none);
    assert(three.drop_last() =~= one);
}

proof fn lemma_upto_slash(front: Seq<char>, name: Seq<char>)
    requires
        front.len() == 0 || front.last() == '/',
        !name.contains('/'),
    ensures
        upto_slash(front + name) == front,
    decreases name.len(),
{
    let all = front + name;
    if name.len() == 0 {
        assert(all =~= front);
    } else {
        assert(name.contains(name[name.len() - 1]));
        assert(all.last() == name[name.len() - 1]);
        let less = name.drop_last();
        assert(all.drop_last() =~= front + less);
        assert(!less.contains('/')) by {
            if less.contains('/') {
                let i = choose|i: int| 0 <= i < less.len() && less[i] == '/';
                assert(name[i] == '/');
            }
        }
        lemma_upto_slash(front, less);
    }
}

/// The directory of a file is the path without the name and the slash before it; that of
/// a file without a slash is the repository. The directory here ends neither in a slash
/// nor in a part that is `.`, which add nothing.
pub proof fn law_directory(dir: Seq<char>, name: Seq<char>)
    requires
        is_name(name),
        dir.len() > 0,
        dir.last() != '/',
        dir.len() > 1 ==> !(dir.last() == '.' && dir[dir.len() - 2] == '/'),
    ensures
        directory(name) == Seq::<char>::empty(),
        directory(dir + seq!['/'] + name) == dir,
{
    let none = Seq::<char>::empty();
    let front = dir + seq!['/'];
    let path = front + name;
    reveal_strlit(".");
    assert(name.contains(name[name.len() - 1]));
    if name.len() == 1 {
        assert(name =~= seq![name[0]]);
        assert("."@ =~= seq!['.']);
    } else {
        assert(name.contains(name[name.len() - 2]));
    }
    assert(path.last() == name[name.len() - 1]);
    if name.len() > 1 {
        assert(path[path.len() - 2] == name[name.len() - 2]);
    }
    assert(trim_slashes(path) == path);
    assert(trim_slashes(name) == name);
    lemma_upto_slash(front, name);
    lemma_upto_slash(none, name);
    assert(none + name =~= name);
    assert(front.drop_last() =~= dir);
    assert(trim_slashes(dir) == dir);
    assert(trim_slashes(front) == dir);
}

} // verus!
