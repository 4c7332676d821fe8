//! The mathematical model of the catalog and its dependency graph.
//!
//! The catalog is viewed as a map from identifier to tool.  On top of it,
//! reachability along declared dependencies, closed sets, satisfiability
//! (the transitive dependency closure resolves within the catalog) and
//! acyclicity are defined; the resolver's contracts and the laws about it
//! are stated in these terms.

use vstd::prelude::*;
use crate::tool::{Tool, ToolSpec, tool_deps};

verus! {

/// The catalog as a mapping from identifier to tool.  Later entries win,
/// but a well-formed catalog declares each identifier once.
pub open spec fn catalog_view(entries: Seq<(String, Tool)>) -> Map<Seq<char>, ToolSpec>
    decreases entries.len(),
{
    if entries.len() == 0 {
        Map::empty()
    } else {
        catalog_view(entries.drop_last()).insert(entries.last().0@, entries.last().1@)
    }
}

/// No identifier is declared twice.
pub open spec fn entries_distinct(entries: Seq<(String, Tool)>) -> bool {
    forall|i: int, j: int| 0 <= i < j < entries.len() ==> entries[i].0@ != entries[j].0@
}

pub proof fn lemma_catalog_view_contains(entries: Seq<(String, Tool)>, k: Seq<char>)
    ensures
        catalog_view(entries).contains_key(k) <==> exists|i: int|
            0 <= i < entries.len() && entries[i].0@ == k,
    decreases entries.len(),
{
    if entries.len() > 0 {
        lemma_catalog_view_contains(entries.drop_last(), k);
        if catalog_view(entries).contains_key(k) {
            if entries.last().0@ == k {
                assert(entries[entries.len() - 1].0@ == k);
            } else {
                let i = choose|i: int|
                    0 <= i < entries.drop_last().len() && entries.drop_last()[i].0@ == k;
                assert(entries[i].0@ == k);
            }
        }
        if exists|i: int| 0 <= i < entries.len() && entries[i].0@ == k {
            let i = choose|i: int| 0 <= i < entries.len() && entries[i].0@ == k;
            if i < entries.len() - 1 {
                assert(entries.drop_last()[i].0@ == k);
            }
        }
    }
}

pub proof fn lemma_catalog_view_index(entries: Seq<(String, Tool)>, i: int)
    requires
        entries_distinct(entries),
        0 <= i < entries.len(),
    ensures
        catalog_view(entries).contains_key(entries[i].0@),
        catalog_view(entries)[entries[i].0@] == entries[i].1@,
    decreases entries.len(),
{
    if i == entries.len() - 1 {
    } else {
        lemma_catalog_view_index(entries.drop_last(), i);
        assert(entries.drop_last()[i] == entries[i]);
        assert(entries.last().0@ != entries[i].0@);
    }
}

pub proof fn lemma_catalog_view_finite(entries: Seq<(String, Tool)>)
    ensures
        catalog_view(entries).dom().finite(),
    decreases entries.len(),
{
    if entries.len() > 0 {
        lemma_catalog_view_finite(entries.drop_last());
    }
}

/// Looks an identifier up in the catalog.
pub fn catalog_get<'a>(entries: &'a Vec<(String, Tool)>, key: &String) -> (r: Option<&'a Tool>)
    requires
        entries_distinct(entries@),
    ensures
        match r {
            Some(t) => catalog_view(entries@).contains_key(key@) && t@ == catalog_view(entries@)[
                key@
            ],
            None => !catalog_view(entries@).contains_key(key@),
        },
{
    let mut i: usize = 0;
    while i < entries.len()
        invariant
            0 <= i <= entries@.len(),
            entries_distinct(entries@),
            forall|j: int| 0 <= j < i ==> entries@[j].0@ != key@,
        decreases entries@.len() - i,
    {
        if entries[i].0 == *key {
            proof {
                lemma_catalog_view_index(entries@, i as int);
            }
            return Some(&entries[i].1);
        }
        i = i + 1;
    }
    proof {
        lemma_catalog_view_contains(entries@, key@);
    }
    None
}

/// `b` is reachable from `a` in exactly `n` steps along declared
/// dependencies, staying within the catalog.
pub open spec fn steps(cat: Map<Seq<char>, ToolSpec>, a: Seq<char>, b: Seq<char>, n: nat) -> bool
    decreases n,
{
    if n == 0 {
        a == b && cat.contains_key(a)
    } else {
        cat.contains_key(a) && exists|m: Seq<char>|
            #[trigger] tool_deps(cat[a]).contains(m) && cat.contains_key(m) && steps(
                cat,
                m,
                b,
                (n - 1) as nat,
            )
    }
}

/// `b` is reachable from `a` (allowing `a == b`) through present tools.
pub open spec fn reaches(cat: Map<Seq<char>, ToolSpec>, a: Seq<char>, b: Seq<char>) -> bool {
    exists|n: nat| steps(cat, a, b, n)
}

pub proof fn lemma_reaches_refl(cat: Map<Seq<char>, ToolSpec>, a: Seq<char>)
    requires
        cat.contains_key(a),
    ensures
        reaches(cat, a, a),
{
    assert(steps(cat, a, a, 0));
}

proof fn lemma_steps_trans(
    cat: Map<Seq<char>, ToolSpec>,
    a: Seq<char>,
    b: Seq<char>,
    c: Seq<char>,
    n1: nat,
    n2: nat,
)
    requires
        steps(cat, a, b, n1),
        steps(cat, b, c, n2),
    ensures
        steps(cat, a, c, n1 + n2),
    decreases n1,
{
    if n1 == 0 {
    } else {
        let m = choose|m: Seq<char>|
            #[trigger] tool_deps(cat[a]).contains(m) && cat.contains_key(m) && steps(
                cat,
                m,
                b,
                (n1 - 1) as nat,
            );
        lemma_steps_trans(cat, m, b, c, (n1 - 1) as nat, n2);
        assert(steps(cat, m, c, ((n1 + n2) - 1) as nat));
    }
}

pub proof fn lemma_reaches_trans(
    cat: Map<Seq<char>, ToolSpec>,
    a: Seq<char>,
    b: Seq<char>,
    c: Seq<char>,
)
    requires
        reaches(cat, a, b),
        reaches(cat, b, c),
    ensures
        reaches(cat, a, c),
{
    let n1 = choose|n1: nat| steps(cat, a, b, n1);
    let n2 = choose|n2: nat| steps(cat, b, c, n2);
    lemma_steps_trans(cat, a, b, c, n1, n2);
}

/// One declared dependency between present tools is a reachability step.
pub proof fn lemma_reaches_dep(cat: Map<Seq<char>, ToolSpec>, a: Seq<char>, d: Seq<char>)
    requires
        cat.contains_key(a),
        tool_deps(cat[a]).contains(d),
        cat.contains_key(d),
    ensures
        reaches(cat, a, d),
{
    assert(steps(cat, d, d, 0));
    assert(steps(cat, a, d, 1));
}

/// Every member is declared, and its dependencies stay inside the set.
pub open spec fn closed(cat: Map<Seq<char>, ToolSpec>, s: Set<Seq<char>>) -> bool {
    forall|k: Seq<char>| #[trigger]
        s.contains(k) ==> cat.contains_key(k) && (forall|i: int|
            0 <= i < tool_deps(cat[k]).len() ==> s.contains(#[trigger] tool_deps(cat[k])[i]))
}

/// The tool's whole transitive dependency closure resolves within the
/// catalog: some closed set of present tools contains it.
pub open spec fn satisfiable(cat: Map<Seq<char>, ToolSpec>, k: Seq<char>) -> bool {
    exists|s: Set<Seq<char>>| s.contains(k) && #[trigger] closed(cat, s)
}

pub proof fn lemma_closed_member_satisfiable(
    cat: Map<Seq<char>, ToolSpec>,
    s: Set<Seq<char>>,
    k: Seq<char>,
)
    requires
        closed(cat, s),
        s.contains(k),
    ensures
        satisfiable(cat, k),
{
}

/// A tool with a dependency that resolves to nothing is not satisfiable.
pub proof fn lemma_unsatisfiable_missing_dep(
    cat: Map<Seq<char>, ToolSpec>,
    k: Seq<char>,
    d: Seq<char>,
)
    requires
        tool_deps(cat[k]).contains(d) || !cat.contains_key(k),
        !cat.contains_key(d) || !cat.contains_key(k),
    ensures
        !satisfiable(cat, k),
{
    if satisfiable(cat, k) {
        let s = choose|s: Set<Seq<char>>| s.contains(k) && #[trigger] closed(cat, s);
        assert(cat.contains_key(k));
        let i = choose|i: int| 0 <= i < tool_deps(cat[k]).len() && tool_deps(cat[k])[i] == d;
        assert(s.contains(tool_deps(cat[k])[i]));
        assert(cat.contains_key(d));
    }
}

/// A tool with an unsatisfiable dependency is itself unsatisfiable.
pub proof fn lemma_unsatisfiable_dep(cat: Map<Seq<char>, ToolSpec>, k: Seq<char>, d: Seq<char>)
    requires
        cat.contains_key(k),
        tool_deps(cat[k]).contains(d),
        !satisfiable(cat, d),
    ensures
        !satisfiable(cat, k),
{
    if satisfiable(cat, k) {
        let s = choose|s: Set<Seq<char>>| s.contains(k) && #[trigger] closed(cat, s);
        let i = choose|i: int| 0 <= i < tool_deps(cat[k]).len() && tool_deps(cat[k])[i] == d;
        assert(s.contains(tool_deps(cat[k])[i]));
        lemma_closed_member_satisfiable(cat, s, d);
    }
}

/// A topological rank: along every declared dependency between present
/// tools, the rank strictly drops.
pub open spec fn rank_ok(cat: Map<Seq<char>, ToolSpec>, r: Map<Seq<char>, int>) -> bool {
    forall|k: Seq<char>, i: int|
        cat.contains_key(k) && 0 <= i < tool_deps(cat[k]).len() && cat.contains_key(
            #[trigger] tool_deps(cat[k])[i],
        ) ==> r[tool_deps(cat[k])[i]] < r[k]
}

/// The dependency graph has no cycle among present tools: some rank
/// witnesses a topological order.
pub open spec fn acyclic(cat: Map<Seq<char>, ToolSpec>) -> bool {
    exists|r: Map<Seq<char>, int>| #[trigger] rank_ok(cat, r)
}

/// `satisfiable` said over reachability: a present tool is satisfiable
/// exactly when every tool reachable from it has all its dependencies in
/// the catalog.
pub proof fn lemma_satisfiable_iff_closure(cat: Map<Seq<char>, ToolSpec>, k: Seq<char>)
    requires
        cat.contains_key(k),
    ensures
        satisfiable(cat, k) <==> forall|b: Seq<char>, i: int|
            #[trigger] reaches(cat, k, b) && 0 <= i < tool_deps(cat[b]).len() ==> cat.contains_key(
                #[trigger] tool_deps(cat[b])[i],
            ),
{
    if satisfiable(cat, k) {
        let s = choose|s: Set<Seq<char>>| s.contains(k) && #[trigger] closed(cat, s);
        assert forall|b: Seq<char>, i: int|
            #[trigger] reaches(cat, k, b) && 0 <= i < tool_deps(cat[b]).len() implies cat
            .contains_key(#[trigger] tool_deps(cat[b])[i]) by {
            let n = choose|n: nat| steps(cat, k, b, n);
            lemma_steps_stay_closed(cat, s, k, b, n);
            assert(s.contains(tool_deps(cat[b])[i]));
        }
    }
    if forall|b: Seq<char>, i: int|
        #[trigger] reaches(cat, k, b) && 0 <= i < tool_deps(cat[b]).len() ==> cat.contains_key(
            #[trigger] tool_deps(cat[b])[i],
        ) {
        let s = Set::new(|b: Seq<char>| reaches(cat, k, b));
        lemma_reaches_refl(cat, k);
        assert forall|b: Seq<char>| #[trigger] s.contains(b) implies cat.contains_key(b) && (
        forall|i: int|
            0 <= i < tool_deps(cat[b]).len() ==> s.contains(
                #[trigger] tool_deps(cat[b])[i],
            )) by {
            let n = choose|n: nat| steps(cat, k, b, n);
            lemma_steps_in_catalog(cat, k, b, n);
            assert forall|i: int| 0 <= i < tool_deps(cat[b]).len() implies s.contains(
                #[trigger] tool_deps(cat[b])[i],
            ) by {
                let d = tool_deps(cat[b])[i];
                assert(tool_deps(cat[b]).contains(d));
                assert(cat.contains_key(d));
                lemma_reaches_dep(cat, b, d);
                lemma_reaches_trans(cat, k, b, d);
            }
        }
        assert(closed(cat, s));
        assert(s.contains(k));
    }
}

/// The endpoint of any step chain is a present tool.
proof fn lemma_steps_in_catalog(cat: Map<Seq<char>, ToolSpec>, a: Seq<char>, b: Seq<char>, n: nat)
    requires
        steps(cat, a, b, n),
    ensures
        cat.contains_key(b),
    decreases n,
{
    if n > 0 {
        let m = choose|m: Seq<char>|
            #[trigger] tool_deps(cat[a]).contains(m) && cat.contains_key(m) && steps(
                cat,
                m,
                b,
                (n - 1) as nat,
            );
        lemma_steps_in_catalog(cat, m, b, (n - 1) as nat);
    }
}

/// A closed set swallows everything reachable from its members.
proof fn lemma_steps_stay_closed(
    cat: Map<Seq<char>, ToolSpec>,
    s: Set<Seq<char>>,
    a: Seq<char>,
    b: Seq<char>,
    n: nat,
)
    requires
        closed(cat, s),
        s.contains(a),
        steps(cat, a, b, n),
    ensures
        s.contains(b),
    decreases n,
{
    if n > 0 {
        let m = choose|m: Seq<char>|
            #[trigger] tool_deps(cat[a]).contains(m) && cat.contains_key(m) && steps(
                cat,
                m,
                b,
                (n - 1) as nat,
            );
        let i = choose|i: int| 0 <= i < tool_deps(cat[a]).len() && tool_deps(cat[a])[i] == m;
        assert(s.contains(tool_deps(cat[a])[i]));
        lemma_steps_stay_closed(cat, s, m, b, (n - 1) as nat);
    }
}

} // verus!
