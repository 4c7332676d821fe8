//! Laws of dependency resolution: what holds of every result
//! `Config::get_dependencies` hands back, proved from its contract alone.

use vstd::prelude::*;
use crate::config::{complete, dep_accounted, group_all_sat, groups_resolved, requested_group, resolved};
use crate::dependencies::{Dependencies, DependencyErrorType};
use crate::graph::{acyclic, closed, lemma_closed_member_satisfiable, satisfiable};
use crate::group::GroupSpec;
use crate::tool::{ToolSpec, tool_deps};

verus! {

/// The satisfied set of a resolution result is closed: every dependency
/// of a satisfied tool is itself satisfied.  This holds for any catalog,
/// cyclic ones included.
pub proof fn lemma_sat_closed(cat: Map<Seq<char>, ToolSpec>, d: Dependencies)
    requires
        resolved(cat, d),
    ensures
        closed(cat, d.sat()),
{
    assert forall|k: Seq<char>| #[trigger] d.sat().contains(k) implies cat.contains_key(k) && (
    forall|i: int|
        0 <= i < tool_deps(cat[k]).len() ==> d.sat().contains(
            #[trigger] tool_deps(cat[k])[i],
        )) by {
        assert(d.checked().contains(k));
        assert(cat.dom().contains(k));
        assert(complete(cat, d, k));
        assert forall|i: int| 0 <= i < tool_deps(cat[k]).len() implies d.sat().contains(
            #[trigger] tool_deps(cat[k])[i],
        ) by {
            let dep = tool_deps(cat[k])[i];
            assert(dep_accounted(cat, d, k, dep));
            assert(tool_deps(cat[k]).contains(dep));
            if !cat.contains_key(dep) {
                assert(d.has_reason(k, dep, DependencyErrorType::NotFound));
                assert(d.unsat().contains(k));
                assert(false);
            }
            if d.has_reason(k, dep, DependencyErrorType::UnSatisfiedDepencies) {
                assert(d.unsat().contains(k));
                assert(false);
            }
        }
    }
}

/// An expanded tool is in the satisfied set exactly when its whole
/// transitive dependency closure resolves within the catalog.  No
/// assumption on the catalog's shape is needed.
pub proof fn lemma_satisfaction(cat: Map<Seq<char>, ToolSpec>, d: Dependencies, k: Seq<char>)
    requires
        resolved(cat, d),
        d.checked().contains(k),
    ensures
        d.sat().contains(k) <==> satisfiable(cat, k),
{
    if d.sat().contains(k) {
        lemma_sat_closed(cat, d);
        lemma_closed_member_satisfiable(cat, d.sat(), k);
    }
    if satisfiable(cat, k) {
        if d.unsat().contains(k) {
            assert(!satisfiable(cat, k));
        }
        assert(d.sat().union(d.unsat()).contains(k));
    }
}

/// *Acyclic satisfaction*, as a corollary: in particular, for a catalog
/// without dependency cycles, an expanded tool is satisfied exactly when
/// its whole transitive dependency closure resolves within the catalog.
pub proof fn lemma_acyclic_satisfaction(cat: Map<Seq<char>, ToolSpec>, d: Dependencies, k: Seq<char>)
    requires
        resolved(cat, d),
        acyclic(cat),
        d.checked().contains(k),
    ensures
        d.sat().contains(k) <==> satisfiable(cat, k),
{
    lemma_satisfaction(cat, d, k);
}

/// *Cycle termination*, first half.  Every function of the resolver is
/// total — Verus admits no unbounded recursion — so resolution
/// terminates on cyclic catalogs too.  Two tools that depend exactly on
/// each other are satisfied as one unit: once either is expanded, both
/// are satisfied.
pub proof fn lemma_cycle_pair_satisfied(
    cat: Map<Seq<char>, ToolSpec>,
    d: Dependencies,
    a: Seq<char>,
    b: Seq<char>,
)
    requires
        resolved(cat, d),
        cat.contains_key(a),
        cat.contains_key(b),
        tool_deps(cat[a]) == seq![b],
        tool_deps(cat[b]) == seq![a],
        d.checked().contains(a) || d.checked().contains(b),
    ensures
        d.sat().contains(a),
        d.sat().contains(b),
{
    let s = Set::<Seq<char>>::empty().insert(a).insert(b);
    assert(closed(cat, s)) by {
        assert forall|k: Seq<char>| #[trigger] s.contains(k) implies cat.contains_key(k) && (
        forall|i: int|
            0 <= i < tool_deps(cat[k]).len() ==> s.contains(
                #[trigger] tool_deps(cat[k])[i],
            )) by {
            if k == a {
                assert(tool_deps(cat[a])[0] == b);
            } else {
                assert(tool_deps(cat[b])[0] == a);
            }
        }
    }
    lemma_closed_member_satisfiable(cat, s, a);
    lemma_closed_member_satisfiable(cat, s, b);
    if d.checked().contains(a) {
        assert(d.sat().union(d.unsat()).contains(a));
        assert(d.sat().contains(a));
        assert(complete(cat, d, a));
        assert(dep_accounted(cat, d, a, tool_deps(cat[a])[0]));
        assert(d.checked().contains(b));
        assert(d.sat().union(d.unsat()).contains(b));
        assert(d.sat().contains(b));
    } else {
        assert(d.sat().union(d.unsat()).contains(b));
        assert(d.sat().contains(b));
        assert(complete(cat, d, b));
        assert(dep_accounted(cat, d, b, tool_deps(cat[b])[0]));
        assert(d.checked().contains(a));
        assert(d.sat().union(d.unsat()).contains(a));
        assert(d.sat().contains(a));
    }
}

/// *Cycle termination*, second half: two mutually dependent tools end in
/// one consistent set — both satisfied, or, when a third party breaks
/// the cycle, both unsatisfied.  They may carry other dependencies
/// besides each other.
pub proof fn lemma_cycle_pair_consistent(
    cat: Map<Seq<char>, ToolSpec>,
    d: Dependencies,
    a: Seq<char>,
    b: Seq<char>,
)
    requires
        resolved(cat, d),
        cat.contains_key(a),
        cat.contains_key(b),
        tool_deps(cat[a]).contains(b),
        tool_deps(cat[b]).contains(a),
        d.checked().contains(a) || d.checked().contains(b),
    ensures
        d.sat().contains(a) <==> d.sat().contains(b),
        d.unsat().contains(a) <==> d.unsat().contains(b),
{
    lemma_sat_closed(cat, d);
    if d.checked().contains(a) {
        assert(complete(cat, d, a));
        let i = choose|i: int| 0 <= i < tool_deps(cat[a]).len() && tool_deps(cat[a])[i] == b;
        assert(dep_accounted(cat, d, a, tool_deps(cat[a])[i]));
        assert(d.checked().contains(b));
    } else {
        assert(complete(cat, d, b));
        let i = choose|i: int| 0 <= i < tool_deps(cat[b]).len() && tool_deps(cat[b])[i] == a;
        assert(dep_accounted(cat, d, b, tool_deps(cat[b])[i]));
        assert(d.checked().contains(a));
    }
    if d.sat().contains(a) {
        assert(d.sat().contains(b));
    }
    if d.sat().contains(b) {
        assert(d.sat().contains(a));
    }
    assert(d.sat().union(d.unsat()).contains(a));
    assert(d.sat().union(d.unsat()).contains(b));
}

/// *Missing dependency propagation*, first half: a tool that declares a
/// dependency absent from the catalog is unsatisfied, with the not-found
/// reason recorded against exactly that dependency.
pub proof fn lemma_missing_dependency_reason(
    cat: Map<Seq<char>, ToolSpec>,
    d: Dependencies,
    k: Seq<char>,
    dep: Seq<char>,
)
    requires
        resolved(cat, d),
        d.checked().contains(k),
        tool_deps(cat[k]).contains(dep),
        !cat.contains_key(dep),
    ensures
        d.unsat().contains(k),
        d.has_reason(k, dep, DependencyErrorType::NotFound),
{
    assert(complete(cat, d, k));
    let i = choose|i: int| 0 <= i < tool_deps(cat[k]).len() && tool_deps(cat[k])[i] == dep;
    assert(dep_accounted(cat, d, k, tool_deps(cat[k])[i]));
    assert(d.has_reason(k, dep, DependencyErrorType::NotFound));
}

/// *Missing dependency propagation*, second half: a tool that depends on
/// an unsatisfied tool is itself unsatisfied, with the invalid-chain
/// reason recorded against that dependency — on any catalog, cycles
/// included.
pub proof fn lemma_unsatisfied_dependency_propagates(
    cat: Map<Seq<char>, ToolSpec>,
    d: Dependencies,
    k: Seq<char>,
    dep: Seq<char>,
)
    requires
        resolved(cat, d),
        d.checked().contains(k),
        tool_deps(cat[k]).contains(dep),
        cat.contains_key(dep),
        d.unsat().contains(dep),
    ensures
        d.unsat().contains(k),
        d.has_reason(k, dep, DependencyErrorType::UnSatisfiedDepencies),
{
    assert(cat.dom().contains(k));
    assert(complete(cat, d, k));
    let i = choose|i: int| 0 <= i < tool_deps(cat[k]).len() && tool_deps(cat[k])[i] == dep;
    assert(dep_accounted(cat, d, k, tool_deps(cat[k])[i]));
    if d.sat().contains(dep) {
        assert(false);
    }
    assert(d.has_reason(k, dep, DependencyErrorType::UnSatisfiedDepencies));
}

/// *Group satisfaction.*  A requested group that exists and was judged is
/// satisfied exactly when all its members are satisfied tools.
pub proof fn lemma_group_satisfaction(
    gmap: Map<Seq<char>, GroupSpec>,
    args: &crate::args::Args,
    d: Dependencies,
    gk: Seq<char>,
)
    requires
        groups_resolved(gmap, args, d),
        requested_group(args, gk),
        gmap.contains_key(gk),
        d.sat_groups().contains(gk) || d.unsat_groups().contains(gk),
    ensures
        d.sat_groups().contains(gk) <==> group_all_sat(d, gmap[gk]),
        d.unsat_groups().contains(gk) <==> !group_all_sat(d, gmap[gk]),
{
}

} // verus!
