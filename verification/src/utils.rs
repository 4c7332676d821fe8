//! Small verified helpers: existence tags for listings, inclusion of one
//! identifier list in another, and the library's model of filesystem paths.
//!
//! A path is either a flat `String` (opaque, '/'-separated, as written in
//! the configuration) or, where structure matters, a `Vec<String>` of its
//! components.  The surrounding binary converts between the two views and
//! real `Path` values; the functions here only compute.

use vstd::prelude::*;
use crate::keys::key_set;

verus! {

/// The listing tag for a path: nothing when it exists, a highlighted
/// marker when it does not.
pub fn existence(exists: bool) -> (r: String)
    ensures
        exists ==> r@ == ""@,
        !exists ==> r@ == "(\x1b[0;31mNOT FOUND\x1b[0m)"@,
{
    proof {
        reveal_strlit("");
        reveal_strlit("(\x1b[0;31mNOT FOUND\x1b[0m)");
    }
    if exists {
        String::new()
    } else {
        String::from_str("(\x1b[0;31mNOT FOUND\x1b[0m)")
    }
}

/// Whether every identifier of `includer` occurs in `owner`.
pub fn iter_includes(owner: &Vec<String>, includer: &Vec<String>) -> (r: bool)
    ensures
        r == forall|i: int|
            0 <= i < includer@.len() ==> key_set(owner@).contains(#[trigger] includer@[i]@),
{
    let mut i: usize = 0;
    while i < includer.len()
        invariant
            0 <= i <= includer@.len(),
            forall|j: int| 0 <= j < i ==> key_set(owner@).contains(#[trigger] includer@[j]@),
        decreases includer@.len() - i,
    {
        if !crate::keys::keys_contain(owner, &includer[i]) {
            return false;
        }
        i = i + 1;
    }
    true
}

/// The characters after the last '/' of `s`; all of `s` when it has none.
pub open spec fn after_last_slash(s: Seq<char>) -> Seq<char>
    decreases s.len(),
{
    if s.len() == 0 {
        s
    } else if s[s.len() - 1] == '/' {
        Seq::empty()
    } else {
        after_last_slash(s.drop_last()).push(s[s.len() - 1])
    }
}

proof fn lemma_after_last_slash_no_slash(s: Seq<char>)
    requires
        forall|j: int| 0 <= j < s.len() ==> s[j] != '/',
    ensures
        after_last_slash(s) == s,
    decreases s.len(),
{
    if s.len() > 0 {
        lemma_after_last_slash_no_slash(s.drop_last());
        assert(after_last_slash(s) =~= s);
    } else {
        assert(after_last_slash(s) =~= s);
    }
}

proof fn lemma_after_last_slash_at(s: Seq<char>, i: int)
    requires
        0 <= i < s.len(),
        s[i] == '/',
        forall|j: int| i < j < s.len() ==> s[j] != '/',
    ensures
        after_last_slash(s) == s.subrange(i + 1, s.len() as int),
    decreases s.len(),
{
    if i == s.len() - 1 {
        assert(after_last_slash(s) =~= s.subrange(i + 1, s.len() as int));
    } else {
        lemma_after_last_slash_at(s.drop_last(), i);
        assert(s.drop_last().subrange(i + 1, s.len() - 1).push(s[s.len() - 1]) =~= s.subrange(
            i + 1,
            s.len() as int,
        ));
    }
}

/// The file name of a flat path: what follows its last '/'.  `None` when
/// that is empty (a path ending in '/', or an empty path).
pub fn file_name(path: &String) -> (r: Option<String>)
    ensures
        match r {
            Some(n) => n@ == after_last_slash(path@) && n@.len() > 0,
            None => after_last_slash(path@).len() == 0,
        },
{
    let s = path.as_str();
    let n = s.unicode_len();
    if n == 0 {
        return None;
    }
    let mut i: usize = n;
    while i > 0
        invariant
            0 <= i <= n,
            n == path@.len(),
            s@ == path@,
            forall|j: int| i <= j < n ==> path@[j] != '/',
        decreases i,
    {
        if s.get_char(i - 1) == '/' {
            if i == n {
                proof {
                    lemma_after_last_slash_at(path@, i - 1);
                }
                return None;
            }
            let tail = s.substring_char(i, n);
            proof {
                lemma_after_last_slash_at(path@, i - 1);
            }
            return Some(tail.to_owned());
        }
        i = i - 1;
    }
    proof {
        lemma_after_last_slash_no_slash(path@);
    }
    Some(s.to_owned())
}

/// Whether a flat path is absolute: it starts at the filesystem root.
pub open spec fn is_absolute_path(s: Seq<char>) -> bool {
    s.len() > 0 && s[0] == '/'
}

/// What joining `name` onto the directory `dir` yields.
pub open spec fn join_spec(dir: Seq<char>, name: Seq<char>) -> Seq<char> {
    if dir.len() == 0 {
        name
    } else if dir[dir.len() - 1] == '/' {
        dir + name
    } else {
        dir + seq!['/'] + name
    }
}

/// Joins a file or directory name onto a directory path.
pub fn join_path(dir: &String, name: &String) -> (r: String)
    ensures
        r@ == join_spec(dir@, name@),
{
    let d = dir.as_str();
    let n = d.unicode_len();
    if n == 0 {
        let mut r = String::new();
        r.append(name.as_str());
        proof {
            assert(r@ =~= join_spec(dir@, name@));
        }
        r
    } else if d.get_char(n - 1) == '/' {
        let mut r = d.to_owned();
        r.append(name.as_str());
        proof {
            assert(r@ =~= join_spec(dir@, name@));
        }
        r
    } else {
        proof {
            reveal_strlit("/");
        }
        let mut r = d.to_owned();
        r.append("/");
        r.append(name.as_str());
        proof {
            assert(r@ =~= join_spec(dir@, name@));
        }
        r
    }
}

/// The absolute form of a path resolved against a working directory: an
/// absolute path is kept, a relative one is joined onto the directory.
pub open spec fn abs_of(p: Seq<char>, cwd: Seq<char>) -> Seq<char> {
    if is_absolute_path(p) {
        p
    } else {
        join_spec(cwd, p)
    }
}

/// Resolves `path` against the working directory `cwd`.
pub fn make_absolute(path: &String, cwd: &String) -> (r: String)
    ensures
        r@ == abs_of(path@, cwd@),
{
    let s = path.as_str();
    if s.unicode_len() > 0 && s.get_char(0) == '/' {
        path.clone()
    } else {
        join_path(cwd, path)
    }
}

/// The components of a flat path, split on '/'.  Empty segments are
/// kept — a leading one stands for the filesystem root — so joining the
/// components gives the path back unchanged.
pub open spec fn split_slash(s: Seq<char>) -> Seq<Seq<char>>
    decreases s.len(),
{
    if s.len() == 0 {
        seq![Seq::empty()]
    } else if s[s.len() - 1] == '/' {
        split_slash(s.drop_last()).push(Seq::empty())
    } else {
        let p = split_slash(s.drop_last());
        p.update(p.len() - 1, p.last().push(s[s.len() - 1]))
    }
}

/// What joining components with '/' yields.
pub open spec fn joined(parts: Seq<Seq<char>>) -> Seq<char>
    decreases parts.len(),
{
    if parts.len() == 0 {
        Seq::empty()
    } else if parts.len() == 1 {
        parts[0]
    } else {
        joined(parts.drop_last()) + seq!['/'] + parts.last()
    }
}

pub proof fn lemma_split_slash_len(s: Seq<char>)
    ensures
        split_slash(s).len() >= 1,
    decreases s.len(),
{
    if s.len() > 0 {
        lemma_split_slash_len(s.drop_last());
    }
}

/// Joining undoes splitting.
pub proof fn lemma_joined_split_slash(s: Seq<char>)
    ensures
        joined(split_slash(s)) == s,
    decreases s.len(),
{
    lemma_split_slash_len(s);
    if s.len() == 0 {
        assert(joined(split_slash(s)) =~= s);
    } else {
        lemma_joined_split_slash(s.drop_last());
        lemma_split_slash_len(s.drop_last());
        let p = split_slash(s.drop_last());
        if s[s.len() - 1] == '/' {
            assert(p.push(Seq::<char>::empty()).drop_last() =~= p);
            assert(p.push(Seq::<char>::empty()).last() =~= Seq::<char>::empty());
            if p.len() == 1 {
                assert(joined(p.push(Seq::empty())) =~= s);
            } else {
                assert(joined(p.push(Seq::empty())) =~= s);
            }
        } else {
            let c = s[s.len() - 1];
            let p2 = p.update(p.len() - 1, p.last().push(c));
            if p.len() == 1 {
                assert(joined(p2) =~= s);
            } else {
                assert(p2.drop_last() =~= p.drop_last());
                assert(joined(p2) =~= joined(p.drop_last()) + seq!['/'] + p.last().push(c));
                assert(joined(p) =~= joined(p.drop_last()) + seq!['/'] + p.last());
                assert(joined(p2) =~= joined(p).push(c));
                assert(joined(p).push(c) =~= s);
            }
        }
    }
}

/// Splits a flat path into its components.
#[verifier::loop_isolation(false)]
pub fn split_components(path: &String) -> (r: Vec<String>)
    ensures
        r.deep_view() == split_slash(path@),
        r@.len() >= 1,
{
    let s = path.as_str();
    let n = s.unicode_len();
    let mut parts: Vec<String> = Vec::new();
    let mut seg_start: usize = 0;
    let mut i: usize = 0;
    while i < n
        invariant
            0 <= seg_start <= i <= n,
            n == path@.len(),
            s@ == path@,
            split_slash(path@.subrange(0, i as int)) =~~= parts.deep_view().push(
                path@.subrange(seg_start as int, i as int),
            ),
        decreases n - i,
    {
        let c = s.get_char(i);
        proof {
            assert(path@.subrange(0, i + 1 as int).drop_last() =~= path@.subrange(0, i as int));
            assert(path@.subrange(0, i + 1 as int)[i as int] == path@[i as int]);
        }
        if c == '/' {
            let seg = s.substring_char(seg_start, i).to_owned();
            let ghost prev = parts.deep_view();
            parts.push(seg);
            proof {
                assert(parts.deep_view() =~~= prev.push(path@.subrange(
                    seg_start as int,
                    i as int,
                )));
                assert(split_slash(path@.subrange(0, i + 1 as int)) =~~= parts.deep_view().push(
                    path@.subrange(i + 1 as int, i + 1 as int),
                ));
            }
            seg_start = i + 1;
        } else {
            proof {
                let p = split_slash(path@.subrange(0, i as int));
                assert(p.last() == path@.subrange(seg_start as int, i as int));
                assert(p.update(p.len() - 1, p.last().push(path@[i as int])).drop_last()
                    =~~= parts.deep_view());
                assert(path@.subrange(seg_start as int, i as int).push(path@[i as int])
                    =~= path@.subrange(seg_start as int, i + 1 as int));
                assert(split_slash(path@.subrange(0, i + 1 as int)) =~~= parts.deep_view().push(
                    path@.subrange(seg_start as int, i + 1 as int),
                ));
            }
        }
        i = i + 1;
    }
    let seg = s.substring_char(seg_start, n).to_owned();
    let ghost prev = parts.deep_view();
    parts.push(seg);
    proof {
        assert(path@.subrange(0, n as int) =~= path@);
        assert(parts.deep_view() =~~= prev.push(path@.subrange(seg_start as int, n as int)));
        assert(parts.deep_view() =~~= split_slash(path@));
        lemma_split_slash_len(path@);
    }
    parts
}

/// Joins components back into a flat path.
#[verifier::loop_isolation(false)]
pub fn join_components(parts: &Vec<String>) -> (r: String)
    ensures
        r@ == joined(parts.deep_view()),
{
    proof {
        reveal_strlit("/");
    }
    let mut r = String::new();
    let mut i: usize = 0;
    while i < parts.len()
        invariant
            0 <= i <= parts@.len(),
            r@ =~= joined(parts.deep_view().subrange(0, i as int)),
        decreases parts@.len() - i,
    {
        proof {
            let pre = parts.deep_view().subrange(0, i as int);
            assert(parts.deep_view().subrange(0, i + 1 as int).drop_last() =~= pre);
            assert(parts.deep_view().subrange(0, i + 1 as int).last() == parts.deep_view()[
                i as int]);
        }
        if i > 0 {
            r.append("/");
        }
        r.append(parts[i].as_str());
        proof {
            assert(r@ =~= joined(parts.deep_view().subrange(0, i + 1 as int)));
        }
        i = i + 1;
    }
    proof {
        assert(parts.deep_view().subrange(0, parts.deep_view().len() as int)
            =~= parts.deep_view());
    }
    r
}

/// The longest common prefix of two component lists.
pub open spec fn common_prefix(a: Seq<Seq<char>>, b: Seq<Seq<char>>) -> Seq<Seq<char>>
    decreases a.len(),
{
    if a.len() == 0 || b.len() == 0 {
        Seq::empty()
    } else if a[0] == b[0] {
        seq![a[0]] + common_prefix(a.drop_first(), b.drop_first())
    } else {
        Seq::empty()
    }
}

/// A prefix that `common_prefix_ok` characterizes is the longest common
/// prefix.
pub proof fn lemma_common_prefix_from_ok(a: Seq<Seq<char>>, b: Seq<Seq<char>>, n: int)
    requires
        common_prefix_ok(a, b, n),
    ensures
        a.subrange(0, n) == common_prefix(a, b),
    decreases a.len(),
{
    if a.len() == 0 || b.len() == 0 {
        assert(a.subrange(0, n) =~= common_prefix(a, b));
    } else if n == 0 {
        if a[0] == b[0] {
            assert(n < a.len() && n < b.len());
            assert(a[n] != b[n]);
        }
        assert(a.subrange(0, n) =~= common_prefix(a, b));
    } else {
        assert(a[0] == b[0]);
        let a2 = a.drop_first();
        let b2 = b.drop_first();
        assert(common_prefix_ok(a2, b2, n - 1)) by {
            assert forall|i: int| 0 <= i < n - 1 implies a2[i] == b2[i] by {
                assert(a[i + 1] == b[i + 1]);
            }
            if n - 1 < a2.len() && n - 1 < b2.len() {
                assert(a[n] != b[n]);
            }
        }
        lemma_common_prefix_from_ok(a2, b2, n - 1);
        assert(a.subrange(0, n) =~= seq![a[0]] + a2.subrange(0, n - 1));
    }
}

/// `n` is the length of the longest common prefix of `a` and `b`.
pub open spec fn common_prefix_ok(a: Seq<Seq<char>>, b: Seq<Seq<char>>, n: int) -> bool {
    &&& 0 <= n <= a.len()
    &&& n <= b.len()
    &&& forall|i: int| 0 <= i < n ==> a[i] == b[i]
    &&& (n < a.len() && n < b.len() ==> a[n] != b[n])
}

/// The longest common prefix of two component paths: the components two
/// artifacts of one tool share, up to where the paths part.
pub fn find_common_path(one: &Vec<String>, two: &Vec<String>) -> (r: Vec<String>)
    ensures
        common_prefix_ok(one.deep_view(), two.deep_view(), r@.len() as int),
        r.deep_view() == one.deep_view().subrange(0, r@.len() as int),
{
    let mut r: Vec<String> = Vec::new();
    let mut i: usize = 0;
    while i < one.len() && i < two.len()
        invariant
            0 <= i <= one@.len(),
            i <= two@.len(),
            r@.len() == i,
            forall|j: int| 0 <= j < i ==> one.deep_view()[j] == two.deep_view()[j],
            r.deep_view() =~= one.deep_view().subrange(0, i as int),
        decreases one@.len() - i,
    {
        if !(one[i] == two[i]) {
            proof {
                assert(one.deep_view()[i as int] == one@[i as int]@);
                assert(two.deep_view()[i as int] == two@[i as int]@);
            }
            return r;
        }
        r.push(one[i].clone());
        proof {
            assert(r.deep_view() =~= one.deep_view().subrange(0, i + 1 as int));
        }
        i = i + 1;
    }
    r
}

/// The components of `from` below the directory `to`: `Some` exactly when
/// `to` is a prefix of `from`.
pub fn find_relative_path(from: &Vec<String>, to: &Vec<String>) -> (r: Option<Vec<String>>)
    ensures
        match r {
            Some(rest) => to.deep_view().is_prefix_of(from.deep_view()) && rest.deep_view()
                == from.deep_view().subrange(to@.len() as int, from@.len() as int),
            None => !to.deep_view().is_prefix_of(from.deep_view()),
        },
{
    if to.len() > from.len() {
        return None;
    }
    let mut i: usize = 0;
    while i < to.len()
        invariant
            0 <= i <= to@.len(),
            to@.len() <= from@.len(),
            forall|j: int| 0 <= j < i ==> to.deep_view()[j] == from.deep_view()[j],
        decreases to@.len() - i,
    {
        if !(to[i] == from[i]) {
            proof {
                assert(to.deep_view()[i as int] != from.deep_view()[i as int]);
            }
            return None;
        }
        i = i + 1;
    }
    let mut rest: Vec<String> = Vec::new();
    let mut j: usize = to.len();
    while j < from.len()
        invariant
            to@.len() <= j <= from@.len(),
            rest@.len() == j - to@.len(),
            rest.deep_view() =~= from.deep_view().subrange(to@.len() as int, j as int),
        decreases from@.len() - j,
    {
        rest.push(from[j].clone());
        proof {
            assert(rest.deep_view() =~= from.deep_view().subrange(to@.len() as int, j + 1 as int));
        }
        j = j + 1;
    }
    proof {
        assert(to.deep_view().is_prefix_of(from.deep_view()));
    }
    Some(rest)
}

} // verus!
