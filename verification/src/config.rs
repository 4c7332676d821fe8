//! The configuration and the dependency resolver.
//!
//! `Config` owns the catalog.  `get_dependencies` computes, for one
//! request, which tools are satisfied (their whole transitive dependency
//! closure resolves within the catalog), which are not and why, and which
//! requested groups stand or fall with their members.  Resolution visits
//! each identifier at most once — the `checked` set guards against cycles
//! — and aggregates every diagnostic instead of failing at the first.

use vstd::prelude::*;
use vstd::set_lib::lemma_len_subset;
use crate::args::{Args, RequestError};
use crate::dependencies::{Dependencies, DependencyErrorType};
use crate::editor::Editor;
use crate::graph::{
    catalog_get, catalog_view, entries_distinct, lemma_catalog_view_contains,
    lemma_catalog_view_finite, lemma_catalog_view_index, lemma_reaches_dep, lemma_reaches_refl,
    lemma_reaches_trans, lemma_unsatisfiable_dep, lemma_unsatisfiable_missing_dep, reaches,
    satisfiable,
};
use crate::group::{Group, GroupSpec, group_entries_distinct, groups_get, groups_view};
use crate::keys::{key_set, keys_contain, lemma_key_set_contains};
use crate::tool::{Tool, ToolSpec, tool_deps};

verus! {

/// The parsed configuration: the editor, the tool catalog, the groups,
/// and the defaults to merge into a bare request.
#[derive(Debug)]
pub struct Config {
    pub editor: Editor,
    /// The catalog: tools by identifier.  Absent means none configured.
    pub tools: Option<Vec<(String, Tool)>>,
    /// Groups by identifier.
    pub groups: Option<Vec<(String, Group)>>,
    pub default_groups: Option<Vec<String>>,
    pub default_tools: Option<Vec<String>>,
}

impl Config {
    /// Identifiers are unique within the catalog and within the groups.
    pub open spec fn wf(&self) -> bool {
        &&& match self.tools {
            Some(t) => entries_distinct(t@),
            None => true,
        }
        &&& match self.groups {
            Some(g) => group_entries_distinct(g@),
            None => true,
        }
    }

    /// The catalog as a map.
    pub open spec fn catalog(&self) -> Map<Seq<char>, ToolSpec> {
        match self.tools {
            Some(t) => catalog_view(t@),
            None => Map::empty(),
        }
    }

    /// The groups as a map.
    pub open spec fn groups_map(&self) -> Map<Seq<char>, GroupSpec> {
        match self.groups {
            Some(g) => groups_view(g@),
            None => Map::empty(),
        }
    }
}

/// Tool identifiers were requested by name.
pub open spec fn explicit_tools(args: &Args) -> bool {
    match args.tools {
        Some(ts) => ts.len() > 0,
        None => false,
    }
}

/// Group identifiers were requested by name.
pub open spec fn explicit_groups(args: &Args) -> bool {
    match args.groups {
        Some(gs) => gs.len() > 0,
        None => false,
    }
}

/// The identifiers whose expansion has begun but not ended: what the
/// call stack of the resolution pass currently holds.
pub open spec fn active(d: Dependencies) -> Set<Seq<char>> {
    d.checked().difference(d.sat()).difference(d.unsat())
}

/// One declared dependency of tool `k` is accounted for in the final
/// result: a missing one carries its not-found reason; a present one was
/// expanded and is either itself satisfied or carries its unsatisfied
/// reason.
pub open spec fn dep_accounted(
    cat: Map<Seq<char>, ToolSpec>,
    d: Dependencies,
    k: Seq<char>,
    dep: Seq<char>,
) -> bool {
    if cat.contains_key(dep) {
        d.checked().contains(dep) && (d.sat().contains(dep) || d.has_reason(
            k,
            dep,
            DependencyErrorType::UnSatisfiedDepencies,
        ))
    } else {
        d.has_reason(k, dep, DependencyErrorType::NotFound)
    }
}

/// Every declared dependency of `k` is accounted for.
pub open spec fn complete(cat: Map<Seq<char>, ToolSpec>, d: Dependencies, k: Seq<char>) -> bool {
    forall|i: int|
        0 <= i < tool_deps(cat[k]).len() ==> dep_accounted(cat, d, k, #[trigger] tool_deps(
            cat[k],
        )[i])
}

/// The weaker account that holds while expansion is still running: a
/// present dependency may instead reach back to `k` through the catalog
/// (a cycle through `k` itself), its verdict still open.
pub open spec fn dep_expanded(
    cat: Map<Seq<char>, ToolSpec>,
    d: Dependencies,
    k: Seq<char>,
    dep: Seq<char>,
) -> bool {
    if cat.contains_key(dep) {
        d.checked().contains(dep) && (d.sat().contains(dep) || d.has_reason(
            k,
            dep,
            DependencyErrorType::UnSatisfiedDepencies,
        ) || reaches(cat, dep, k))
    } else {
        d.has_reason(k, dep, DependencyErrorType::NotFound)
    }
}

/// Every declared dependency of `k` was expanded or recorded.
pub open spec fn complete_expanded(
    cat: Map<Seq<char>, ToolSpec>,
    d: Dependencies,
    k: Seq<char>,
) -> bool {
    forall|i: int|
        0 <= i < tool_deps(cat[k]).len() ==> dep_expanded(cat, d, k, #[trigger] tool_deps(
            cat[k],
        )[i])
}

/// The stable core of the account: every missing dependency of `k` has
/// its not-found reason, every present one was expanded.  Unlike the
/// satisfied-or-reasoned part this survives tools later leaving the
/// satisfied set.
pub open spec fn deps_recorded(cat: Map<Seq<char>, ToolSpec>, d: Dependencies, k: Seq<char>) -> bool {
    forall|i: int|
        0 <= i < tool_deps(cat[k]).len() ==> (if cat.contains_key(
            #[trigger] tool_deps(cat[k])[i],
        ) {
            d.checked().contains(tool_deps(cat[k])[i])
        } else {
            d.has_reason(k, tool_deps(cat[k])[i], DependencyErrorType::NotFound)
        })
}

/// Every unsatisfied present dependency of `k` has its reason recorded
/// against `k`.
pub open spec fn swept_at(cat: Map<Seq<char>, ToolSpec>, d: Dependencies, k: Seq<char>) -> bool {
    forall|i: int|
        0 <= i < tool_deps(cat[k]).len() ==> ((cat.contains_key(#[trigger] tool_deps(cat[k])[i])
            && d.unsat().contains(tool_deps(cat[k])[i])) ==> d.has_reason(
            k,
            tool_deps(cat[k])[i],
            DependencyErrorType::UnSatisfiedDepencies,
        ))
}

/// The expansion-time account implies the stable core.
proof fn lemma_recorded_from_expanded(cat: Map<Seq<char>, ToolSpec>, d: Dependencies, k: Seq<char>)
    requires
        complete_expanded(cat, d, k),
    ensures
        deps_recorded(cat, d, k),
{
    assert forall|i: int|
        0 <= i < tool_deps(cat[k]).len() implies (if cat.contains_key(
        #[trigger] tool_deps(cat[k])[i],
    ) {
        d.checked().contains(tool_deps(cat[k])[i])
    } else {
        d.has_reason(k, tool_deps(cat[k])[i], DependencyErrorType::NotFound)
    }) by {
        assert(dep_expanded(cat, d, k, tool_deps(cat[k])[i]));
    }
}

/// Once every identifier is decided, the stable core plus the sweep
/// property give the full account.
proof fn lemma_complete_from_sweep(cat: Map<Seq<char>, ToolSpec>, d: Dependencies, k: Seq<char>)
    requires
        deps_recorded(cat, d, k),
        swept_at(cat, d, k),
        d.checked() == d.sat().union(d.unsat()),
    ensures
        complete(cat, d, k),
{
    assert forall|i: int| 0 <= i < tool_deps(cat[k]).len() implies dep_accounted(
        cat,
        d,
        k,
        #[trigger] tool_deps(cat[k])[i],
    ) by {
        let dep = tool_deps(cat[k])[i];
        if cat.contains_key(dep) {
            assert(d.checked().contains(dep));
            assert(d.sat().union(d.unsat()).contains(dep));
            if d.unsat().contains(dep) {
                assert(d.has_reason(k, dep, DependencyErrorType::UnSatisfiedDepencies));
            }
        }
    }
}

/// The facts the resolution pass maintains at every step.
pub open spec fn resolve_inv(cat: Map<Seq<char>, ToolSpec>, d: Dependencies) -> bool {
    &&& d.wf()
    &&& cat.dom().finite()
    &&& d.checked().subset_of(cat.dom())
    &&& d.sat().subset_of(d.checked())
    &&& d.unsat().subset_of(d.checked())
    &&& d.sat().disjoint(d.unsat())
    &&& forall|k: Seq<char>, dep: Seq<char>| #[trigger]
        d.has_reason(k, dep, DependencyErrorType::NotFound) ==> d.unsat().contains(k)
            && cat.contains_key(k) && tool_deps(cat[k]).contains(dep) && !cat.contains_key(dep)
    &&& forall|k: Seq<char>, dep: Seq<char>| #[trigger]
        d.has_reason(k, dep, DependencyErrorType::UnSatisfiedDepencies) ==> d.unsat().contains(k)
            && cat.contains_key(k) && tool_deps(cat[k]).contains(dep) && d.unsat().contains(dep)
    &&& forall|k: Seq<char>| #[trigger] d.unsat().contains(k) ==> !satisfiable(cat, k)
    &&& forall|k: Seq<char>| #[trigger] d.unsat().contains(k) ==> d.has_any_reason(k)
    &&& forall|k: Seq<char>, f: Seq<char>| !(#[trigger] d.has_path_error(k, f))
}

/// What `get_dependencies` guarantees of the result it hands back:
/// the invariant, every expanded identifier decided one way, and every
/// decided tool's dependencies accounted for.
pub open spec fn resolved(cat: Map<Seq<char>, ToolSpec>, d: Dependencies) -> bool {
    &&& resolve_inv(cat, d)
    &&& d.checked() == d.sat().union(d.unsat())
    &&& forall|k: Seq<char>| #[trigger] d.checked().contains(k) ==> complete(cat, d, k)
}

/// The expansion-time account is stable under growth of the expansion.
proof fn lemma_complete_expanded_monotone(
    cat: Map<Seq<char>, ToolSpec>,
    d1: Dependencies,
    d2: Dependencies,
    k: Seq<char>,
)
    requires
        complete_expanded(cat, d1, k),
        d1.checked().subset_of(d2.checked()),
        d1.sat().subset_of(d2.sat()),
        forall|k2: Seq<char>, dd: Seq<char>, e: DependencyErrorType|
            d1.has_reason(k2, dd, e) ==> #[trigger] d2.has_reason(k2, dd, e),
    ensures
        complete_expanded(cat, d2, k),
{
    assert forall|i: int| 0 <= i < tool_deps(cat[k]).len() implies dep_expanded(
        cat,
        d2,
        k,
        #[trigger] tool_deps(cat[k])[i],
    ) by {
        let dep = tool_deps(cat[k])[i];
        assert(dep_expanded(cat, d1, k, dep));
        if cat.contains_key(dep) {
            assert(d2.checked().contains(dep));
            if d1.sat().contains(dep) {
                assert(d2.sat().contains(dep));
            } else if d1.has_reason(k, dep, DependencyErrorType::UnSatisfiedDepencies) {
                assert(d2.has_reason(k, dep, DependencyErrorType::UnSatisfiedDepencies));
            }
        } else {
            assert(d1.has_reason(k, dep, DependencyErrorType::NotFound));
        }
    }
}

/// Likewise for one dependency.
proof fn lemma_dep_expanded_monotone(
    cat: Map<Seq<char>, ToolSpec>,
    d1: Dependencies,
    d2: Dependencies,
    k: Seq<char>,
    dep: Seq<char>,
)
    requires
        dep_expanded(cat, d1, k, dep),
        d1.checked().subset_of(d2.checked()),
        d1.sat().subset_of(d2.sat()),
        forall|k2: Seq<char>, dd: Seq<char>, e: DependencyErrorType|
            d1.has_reason(k2, dd, e) ==> #[trigger] d2.has_reason(k2, dd, e),
    ensures
        dep_expanded(cat, d2, k, dep),
{
    if cat.contains_key(dep) {
        assert(d2.checked().contains(dep));
        if d1.sat().contains(dep) {
            assert(d2.sat().contains(dep));
        } else if d1.has_reason(k, dep, DependencyErrorType::UnSatisfiedDepencies) {
            assert(d2.has_reason(k, dep, DependencyErrorType::UnSatisfiedDepencies));
        }
    } else {
        assert(d1.has_reason(k, dep, DependencyErrorType::NotFound));
        assert(d2.has_reason(k, dep, DependencyErrorType::NotFound));
    }
}

/// The running state of one visit, relative to the state `old_d` the
/// visit started from: the invariant holds, the result only grew, what
/// was decided before is decided the same way, everything newly expanded
/// is decided or is `key` itself, whatever is undecided sits on the call
/// stack, and every decided identifier off the stack is fully accounted
/// for.
pub open spec fn visit_frame(
    cat: Map<Seq<char>, ToolSpec>,
    old_d: Dependencies,
    d: Dependencies,
    stack: Set<Seq<char>>,
    key: Seq<char>,
) -> bool {
    &&& resolve_inv(cat, d)
    &&& old_d.checked().subset_of(d.checked())
    &&& old_d.sat().subset_of(d.sat())
    &&& old_d.unsat().subset_of(d.unsat())
    &&& forall|k2: Seq<char>, d2: Seq<char>, e2: DependencyErrorType| #[trigger]
        old_d.has_reason(k2, d2, e2) ==> d.has_reason(k2, d2, e2)
    &&& forall|k: Seq<char>| #[trigger]
        old_d.checked().contains(k) ==> (d.sat().contains(k) == old_d.sat().contains(k)) && (
        d.unsat().contains(k) == old_d.unsat().contains(k))
    &&& forall|k: Seq<char>| #[trigger]
        d.checked().contains(k) ==> old_d.checked().contains(k) || k == key || d.sat().contains(k)
            || d.unsat().contains(k)
    &&& active(d).subset_of(stack.insert(key))
    &&& forall|k: Seq<char>|
        (#[trigger] d.sat().contains(k) || #[trigger] d.unsat().contains(k)) && !stack.contains(k)
            && k != key ==> complete_expanded(cat, d, k)
    &&& forall|k: Seq<char>| #[trigger]
        d.checked().contains(k) && !old_d.checked().contains(k) ==> reaches(cat, key, k)
    &&& d.checked().contains(key)
    &&& d.satisfied_groups == old_d.satisfied_groups
    &&& d.unsatisfied_groups == old_d.unsatisfied_groups
}

/// Expanding a fresh identifier strictly shrinks what is left to visit.
proof fn lemma_measure_decreases(
    cat_dom: Set<Seq<char>>,
    checked_old: Set<Seq<char>>,
    checked_new: Set<Seq<char>>,
    k: Seq<char>,
)
    requires
        cat_dom.finite(),
        cat_dom.contains(k),
        !checked_old.contains(k),
        checked_new.contains(k),
        checked_old.subset_of(checked_new),
    ensures
        cat_dom.difference(checked_new).len() < cat_dom.difference(checked_old).len(),
{
    let d_new = cat_dom.difference(checked_new);
    let d_old = cat_dom.difference(checked_old);
    assert(d_new.subset_of(d_old.remove(k)));
    assert(d_old.remove(k).subset_of(d_old));
    assert(d_old.subset_of(cat_dom));
    lemma_len_subset(d_old, cat_dom);
    lemma_len_subset(d_new, d_old.remove(k));
    assert(d_old.contains(k));
    assert(d_old.remove(k).len() == d_old.len() - 1);
}

/// Expands one tool: marks it visited before looking at its dependencies
/// (the cycle guard), recurses into each unvisited present dependency,
/// records a reason for each missing or unsatisfied one, and decides the
/// tool satisfied exactly when no reason was recorded.
#[verifier::loop_isolation(false)]
fn get_dependencies_rec(
    tools: &Vec<(String, Tool)>,
    current_tool: &Tool,
    current_tool_key: &String,
    dependencies: &mut Dependencies,
    stack: Ghost<Set<Seq<char>>>,
    unvisited: Ghost<Set<Seq<char>>>,
)
    requires
        entries_distinct(tools@),
        catalog_view(tools@).contains_key(current_tool_key@),
        current_tool@ == catalog_view(tools@)[current_tool_key@],
        resolve_inv(catalog_view(tools@), *old(dependencies)),
        !old(dependencies).checked().contains(current_tool_key@),
        active(*old(dependencies)).subset_of(stack@),
        forall|a: Seq<char>| #[trigger]
            stack@.contains(a) ==> reaches(catalog_view(tools@), a, current_tool_key@),
        forall|k: Seq<char>|
            (#[trigger] old(dependencies).sat().contains(k) || #[trigger] old(
                dependencies,
            ).unsat().contains(k)) && !stack@.contains(k) ==> complete_expanded(
                catalog_view(tools@),
                *old(dependencies),
                k,
            ),
        unvisited@ == catalog_view(tools@).dom().difference(old(dependencies).checked()),
    ensures
        visit_frame(
            catalog_view(tools@),
            *old(dependencies),
            *final(dependencies),
            stack@,
            current_tool_key@,
        ),
        final(dependencies).sat().contains(current_tool_key@) || final(dependencies).unsat().contains(current_tool_key@),
        forall|k: Seq<char>|
            (#[trigger] final(dependencies).sat().contains(k) || #[trigger] final(dependencies).unsat().contains(k)) && !stack@.contains(k) ==> complete_expanded(
                catalog_view(tools@),
                *final(dependencies),
                k,
            ),
    decreases unvisited@.len(),
{
    let ghost cat = catalog_view(tools@);
    let ghost key = current_tool_key@;
    let ghost old_d = *old(dependencies);
    dependencies.mark_checked(current_tool_key);
    let mut valid: bool = true;
    proof {
        crate::dependencies::lemma_same_entries_same_reasons(old_d, *dependencies);
        assert(dependencies.checked() == old_d.checked().insert(key));
        assert(dependencies.sat() == old_d.sat());
        assert(dependencies.unsat() == old_d.unsat());
        assert(resolve_inv(cat, *dependencies));
        assert(active(*dependencies).subset_of(active(old_d).insert(key)));
        assert(active(old_d).insert(key).subset_of(stack@.insert(key)));
        assert forall|k: Seq<char>|
            (#[trigger] dependencies.sat().contains(k) || #[trigger]
            dependencies.unsat().contains(k)) && !stack@.contains(k) && k != key implies
            complete_expanded(cat, *dependencies, k) by {
            assert(old_d.sat().contains(k) || old_d.unsat().contains(k));
            assert(complete_expanded(cat, old_d, k));
            lemma_complete_expanded_monotone(cat, old_d, *dependencies, k);
        }
        assert forall|k: Seq<char>| #[trigger]
            dependencies.checked().contains(k) && !old_d.checked().contains(k) implies reaches(
            cat,
            key,
            k,
        ) by {
            assert(k == key);
            lemma_reaches_refl(cat, key);
        }
        assert(visit_frame(cat, old_d, *dependencies, stack@, key));
        assert(!dependencies.sat().contains(key));
    }
    match &current_tool.dependencies {
        None => {
            proof {
                assert(tool_deps(cat[key]).len() == 0);
            }
        },
        Some(required) => {
            let ghost dv = tool_deps(cat[key]);
            proof {
                assert(dv == required.deep_view());
            }
            let mut idx: usize = 0;
            while idx < required.len()
                invariant
                    entries_distinct(tools@),
                    cat == catalog_view(tools@),
                    cat.contains_key(key),
                    key == current_tool_key@,
                    current_tool@ == cat[key],
                    current_tool.dependencies == Some(*required),
                    dv == tool_deps(cat[key]),
                    dv == required.deep_view(),
                    0 <= idx <= required@.len(),
                    visit_frame(cat, old_d, *dependencies, stack@, key),
                    !dependencies.sat().contains(key),
                    forall|a: Seq<char>| #[trigger] stack@.contains(a) ==> reaches(cat, a, key),
                    forall|j: int|
                        0 <= j < idx ==> dep_expanded(
                            cat,
                            *dependencies,
                            key,
                            #[trigger] dv[j],
                        ),
                    valid == !dependencies.unsat().contains(key),
                    unvisited@ == cat.dom().difference(old_d.checked()),
                decreases required@.len() - idx,
            {
                let ghost pre_iter = *dependencies;
                let dep_key = &required[idx];
                proof {
                    assert(dv[idx as int] == dep_key@);
                    assert(tool_deps(cat[key]).contains(dep_key@));
                }
                match catalog_get(tools, dep_key) {
                    None => {
                        proof {
                            lemma_unsatisfiable_missing_dep(cat, key, dep_key@);
                        }
                        let ghost pre = *dependencies;
                        dependencies.record_unsat_dep(
                            current_tool_key,
                            dep_key,
                            DependencyErrorType::NotFound,
                        );
                        valid = false;
                        proof {
                            lemma_frame_after_record(
                                cat,
                                old_d,
                                pre,
                                *dependencies,
                                stack@,
                                key,
                                dep_key@,
                                DependencyErrorType::NotFound,
                            );
                            assert(dep_expanded(cat, *dependencies, key, dep_key@)) by {
                                if dependencies.has_reason(
                                    key,
                                    dep_key@,
                                    DependencyErrorType::UnSatisfiedDepencies,
                                ) {
                                    assert(cat.contains_key(dep_key@));
                                }
                            }
                            assert forall|j: int| 0 <= j < idx + 1 implies dep_expanded(
                                cat,
                                *dependencies,
                                key,
                                #[trigger] dv[j],
                            ) by {
                                if j < idx {
                                    lemma_dep_expanded_monotone(
                                        cat,
                                        pre,
                                        *dependencies,
                                        key,
                                        dv[j],
                                    );
                                }
                            }
                        }
                    },
                    Some(dep_tool) => {
                        if !keys_contain(&dependencies.checked_tool_keys, dep_key) {
                            proof {
                                lemma_key_set_contains(dependencies.checked_tool_keys@, dep_key@);
                                assert forall|a: Seq<char>| #[trigger]
                                    stack@.insert(key).contains(a) implies reaches(
                                    cat,
                                    a,
                                    dep_key@,
                                ) by {
                                    lemma_reaches_dep(cat, key, dep_key@);
                                    if a != key {
                                        lemma_reaches_trans(cat, a, key, dep_key@);
                                    }
                                }
                                lemma_measure_decreases(
                                    cat.dom(),
                                    old_d.checked(),
                                    dependencies.checked(),
                                    key,
                                );
                            }
                            let ghost pre = *dependencies;
                            get_dependencies_rec(
                                tools,
                                dep_tool,
                                dep_key,
                                dependencies,
                                Ghost(stack@.insert(key)),
                                Ghost(cat.dom().difference(dependencies.checked())),
                            );
                            proof {
                                lemma_frame_after_recursion(
                                    cat,
                                    old_d,
                                    pre,
                                    *dependencies,
                                    stack@,
                                    key,
                                    dep_key@,
                                );
                                assert forall|j: int| 0 <= j < idx implies dep_expanded(
                                    cat,
                                    *dependencies,
                                    key,
                                    #[trigger] dv[j],
                                ) by {
                                    lemma_dep_expanded_monotone(
                                        cat,
                                        pre,
                                        *dependencies,
                                        key,
                                        dv[j],
                                    );
                                }
                            }
                        }
                        if dependencies.is_unsat(dep_key) {
                            valid = false;
                            proof {
                                lemma_unsatisfiable_dep(cat, key, dep_key@);
                            }
                            let ghost pre = *dependencies;
                            dependencies.record_unsat_dep(
                                current_tool_key,
                                dep_key,
                                DependencyErrorType::UnSatisfiedDepencies,
                            );
                            proof {
                                lemma_frame_after_record(
                                    cat,
                                    old_d,
                                    pre,
                                    *dependencies,
                                    stack@,
                                    key,
                                    dep_key@,
                                    DependencyErrorType::UnSatisfiedDepencies,
                                );
                                assert(dep_expanded(cat, *dependencies, key, dep_key@)) by {
                                    assert(dependencies.unsat().contains(dep_key@));
                                    assert(dependencies.checked().contains(dep_key@));
                                    if dependencies.has_reason(
                                        key,
                                        dep_key@,
                                        DependencyErrorType::NotFound,
                                    ) {
                                        assert(!cat.contains_key(dep_key@));
                                    }
                                }
                                assert forall|j: int| 0 <= j < idx + 1 implies dep_expanded(
                                    cat,
                                    *dependencies,
                                    key,
                                    #[trigger] dv[j],
                                ) by {
                                    if j < idx {
                                        lemma_dep_expanded_monotone(
                                            cat,
                                            pre,
                                            *dependencies,
                                            key,
                                            dv[j],
                                        );
                                    }
                                }
                            }
                        } else {
                            proof {
                                assert(dep_expanded(cat, *dependencies, key, dep_key@)) by {
                                    assert(dependencies.checked().contains(dep_key@));
                                    if !dependencies.sat().contains(dep_key@) {
                                        assert(active(*dependencies).contains(dep_key@));
                                        assert(stack@.insert(key).contains(dep_key@));
                                        if dep_key@ == key {
                                            lemma_reaches_refl(cat, key);
                                        }
                                    }
                                }
                            }
                        }
                    },
                }
                idx = idx + 1;
            }
            proof {
                assert(forall|j: int|
                    0 <= j < tool_deps(cat[key]).len() ==> dep_expanded(
                        cat,
                        *dependencies,
                        key,
                        #[trigger] tool_deps(cat[key])[j],
                    ));
            }
        },
    }
    if valid {
        let ghost pre = *dependencies;
        dependencies.record_sat(current_tool_key);
        proof {
            crate::dependencies::lemma_same_entries_same_reasons(pre, *dependencies);
            assert(dependencies.checked() == pre.checked());
            assert(dependencies.unsat() == pre.unsat());
            assert(dependencies.sat() == pre.sat().insert(key));
            assert(dependencies.sat().subset_of(dependencies.checked()));
            assert(dependencies.sat().disjoint(dependencies.unsat()));
            assert(resolve_inv(cat, *dependencies));
            assert(active(*dependencies).subset_of(active(pre)));
            assert forall|k: Seq<char>|
                (#[trigger] dependencies.sat().contains(k) || #[trigger]
                dependencies.unsat().contains(k)) && !stack@.contains(k) && k != key implies
                complete_expanded(cat, *dependencies, k) by {
                if pre.sat().contains(k) || pre.unsat().contains(k) {
                    lemma_complete_expanded_monotone(cat, pre, *dependencies, k);
                } else {
                    assert(k == key);
                }
            }
            assert(visit_frame(cat, old_d, *dependencies, stack@, key));
            assert(complete_expanded(cat, *dependencies, key)) by {
                if current_tool.dependencies is Some {
                    assert forall|j: int| 0 <= j < tool_deps(cat[key]).len() implies dep_expanded(
                        cat,
                        *dependencies,
                        key,
                        #[trigger] tool_deps(cat[key])[j],
                    ) by {
                        lemma_dep_expanded_monotone(cat, pre, *dependencies, key, tool_deps(cat[key])[j]);
                    }
                } else {
                    assert(tool_deps(cat[key]).len() == 0);
                }
            }
            assert forall|k: Seq<char>|
                (#[trigger] dependencies.sat().contains(k) || #[trigger]
                dependencies.unsat().contains(k)) && !stack@.contains(k) implies complete_expanded(
                cat,
                *dependencies,
                k,
            ) by {
                if k != key {
                    assert(complete_expanded(cat, *dependencies, k));
                }
            }
        }
    } else {
        proof {
            assert(dependencies.unsat().contains(key));
            assert forall|k: Seq<char>|
                (#[trigger] dependencies.sat().contains(k) || #[trigger]
                dependencies.unsat().contains(k)) && !stack@.contains(k) implies complete_expanded(
                cat,
                *dependencies,
                k,
            ) by {
                if k == key {
                    assert(complete_expanded(cat, *dependencies, key)) by {
                        if current_tool.dependencies is Some {
                        } else {
                            assert(tool_deps(cat[key]).len() == 0);
                        }
                    }
                }
            }
        }
    }
}

/// Group `gk` was named in the request.
pub open spec fn requested_group(args: &Args, gk: Seq<char>) -> bool {
    match args.groups {
        Some(gs) => exists|i: int| 0 <= i < gs.len() && gs[i]@ == gk,
        None => false,
    }
}

/// Every member of the group is a satisfied tool.
pub open spec fn group_all_sat(d: Dependencies, g: GroupSpec) -> bool {
    forall|i: int| 0 <= i < g.dependencies.len() ==> d.sat().contains(#[trigger] g.dependencies[i])
}

/// The members of a group that are not satisfied tools, in member order,
/// duplicates kept.
pub open spec fn offenders(members: Seq<Seq<char>>, sat: Set<Seq<char>>) -> Seq<Seq<char>>
    decreases members.len(),
{
    if members.len() == 0 {
        Seq::empty()
    } else {
        offenders(members.drop_last(), sat) + (if sat.contains(members.last()) {
            Seq::<Seq<char>>::empty()
        } else {
            seq![members.last()]
        })
    }
}

/// A group has no offending members exactly when all its members are
/// satisfied.
pub proof fn lemma_offenders_empty(members: Seq<Seq<char>>, sat: Set<Seq<char>>)
    ensures
        offenders(members, sat).len() == 0 <==> forall|i: int|
            0 <= i < members.len() ==> sat.contains(#[trigger] members[i]),
    decreases members.len(),
{
    if members.len() > 0 {
        lemma_offenders_empty(members.drop_last(), sat);
        if offenders(members, sat).len() == 0 {
            assert forall|i: int| 0 <= i < members.len() implies sat.contains(
                #[trigger] members[i],
            ) by {
                if i < members.len() - 1 {
                    assert(members.drop_last()[i] == members[i]);
                }
            }
        } else {
            if !(forall|i: int|
                0 <= i < members.drop_last().len() ==> sat.contains(
                    #[trigger] members.drop_last()[i],
                )) {
                let i = choose|i: int|
                    0 <= i < members.drop_last().len() && !sat.contains(
                        #[trigger] members.drop_last()[i],
                    );
                assert(members[i] == members.drop_last()[i]);
                assert(!sat.contains(members[i]));
            } else {
                assert(!sat.contains(members.last()));
            }
        }
    }
}

/// What the group stage guarantees: every satisfied or unsatisfied group
/// was requested and exists, its verdict matches its members, every
/// requested existing group got a verdict, and each unsatisfied group
/// lists exactly its offending members.
pub open spec fn groups_resolved(
    gmap: Map<Seq<char>, GroupSpec>,
    args: &Args,
    d: Dependencies,
) -> bool {
    &&& forall|gk: Seq<char>| #[trigger]
        d.sat_groups().contains(gk) ==> requested_group(args, gk) && gmap.contains_key(gk)
            && group_all_sat(d, gmap[gk])
    &&& forall|gk: Seq<char>| #[trigger]
        d.unsat_groups().contains(gk) ==> requested_group(args, gk) && gmap.contains_key(gk)
            && !group_all_sat(d, gmap[gk])
    &&& d.sat_groups().disjoint(d.unsat_groups())
    &&& forall|i: int|
        0 <= i < d.unsatisfied_groups@.len() ==> gmap.contains_key(
            (#[trigger] d.unsatisfied_groups@[i]).group@,
        ) && d.unsatisfied_groups@[i].unsatisfied_tools.deep_view() == offenders(
            gmap[d.unsatisfied_groups@[i].group@].dependencies,
            d.sat(),
        )
}

impl Config {
    /// Identifier `r` belongs to the request's selection, first match
    /// winning: an explicitly named tool; else a present member of an
    /// explicitly named existing group; else — with no explicit
    /// selection — any catalog identifier.  Without a tool catalog
    /// nothing is selected.
    pub open spec fn requested_id(&self, args: &Args, r: Seq<char>) -> bool {
        if self.tools is None {
            false
        } else if explicit_tools(args) {
            match args.tools {
                Some(ts) => exists|i: int| 0 <= i < ts.len() && ts[i]@ == r,
                None => false,
            }
        } else if explicit_groups(args) {
            match args.groups {
                Some(gs) => self.catalog().contains_key(r) && exists|i: int, j: int|
                    0 <= i < gs.len() && self.groups_map().contains_key(gs[i]@) && 0 <= j
                        < self.groups_map()[gs[i]@].dependencies.len() && #[trigger] self.groups_map()[
                        gs[i]@
                    ].dependencies[j] == r,
                None => false,
            }
        } else {
            self.catalog().contains_key(r)
        }
    }

    /// Identifier `k` was expanded for a reason: something the request
    /// selected reaches it through the catalog.
    pub open spec fn from_request(&self, args: &Args, k: Seq<char>) -> bool {
        exists|r: Seq<char>| #[trigger] self.requested_id(args, r) && reaches(self.catalog(), r, k)
    }

    /// Everything `get_dependencies` promises of a result: the resolved
    /// invariants, the group verdicts, every selected identifier
    /// expanded, and nothing expanded beyond what the selection reaches.
    pub open spec fn resolution_ok(&self, args: &Args, d: Dependencies) -> bool {
        &&& resolved(self.catalog(), d)
        &&& groups_resolved(self.groups_map(), args, d)
        &&& self.tools is None ==> d.checked_tool_keys@.len() == 0 && d.satisfied_tools@.len() == 0
            && d.unsatisfied_tools@.len() == 0
        &&& (self.tools is Some && explicit_tools(args)) ==> match args.tools {
            Some(ts) => forall|i: int|
                0 <= i < ts.len() ==> self.catalog().contains_key(#[trigger] ts[i]@)
                    && d.checked().contains(ts[i]@),
            None => false,
        }
        &&& (self.tools is Some && !explicit_tools(args) && explicit_groups(args))
            ==> match args.groups {
            Some(gs) => forall|i: int, j: int|
                0 <= i < gs.len() && self.groups_map().contains_key(#[trigger] gs[i]@) && 0 <= j
                    < self.groups_map()[gs[i]@].dependencies.len() && self.catalog().contains_key(
                    #[trigger] self.groups_map()[gs[i]@].dependencies[j],
                ) ==> d.checked().contains(self.groups_map()[gs[i]@].dependencies[j]),
            None => false,
        }
        &&& (self.tools is Some && !explicit_tools(args) && !explicit_groups(args)) ==> forall|
            k: Seq<char>,
        |
            self.catalog().contains_key(k) ==> d.checked().contains(k)
        &&& match args.groups {
            Some(gs) => forall|i: int|
                0 <= i < gs.len() && self.groups_map().contains_key(#[trigger] gs[i]@)
                    ==> d.sat_groups().contains(gs[i]@) || d.unsat_groups().contains(gs[i]@),
            None => true,
        }
        &&& forall|k: Seq<char>| #[trigger] d.checked().contains(k) ==> self.from_request(args, k)
    }

    /// Resolves one request against the catalog.
    ///
    /// Selection follows the request, first match winning: explicitly
    /// named tools (each must exist, or the whole resolution fails);
    /// otherwise the members of the named groups that exist; otherwise
    /// the entire catalog.  Each selected tool is expanded recursively
    /// with a visited-set guard, so resolution terminates on cyclic
    /// catalogs; the satisfied set is then made closed, so a broken
    /// cycle falls as one unit; afterwards each requested group is
    /// judged by its members — also when no tool catalog exists at all.
    #[verifier::loop_isolation(false)]
    pub fn get_dependencies(&self, args: &Args) -> (r: Result<Dependencies, RequestError>)
        requires
            self.wf(),
        ensures
            r is Err <==> (self.tools is Some && match args.tools {
                Some(ts) => exists|i: int|
                    0 <= i < ts.len() && !self.catalog().contains_key(ts[i]@),
                None => false,
            }),
            r matches Err(e) ==> e matches RequestError::UnknownTool { name } && match args.tools {
                Some(ts) => !self.catalog().contains_key(name@) && exists|i: int|
                    0 <= i < ts.len() && ts[i]@ == name@,
                None => false,
            },
            r matches Ok(d) ==> self.resolution_ok(args, d),
    {
        let ghost cat = self.catalog();
        let ghost gmap = self.groups_map();
        let mut deps = Dependencies::new();
        proof {
            lemma_empty_deps_resolved(cat, deps);
        }
        let use_tools: bool = match &args.tools {
            Some(ts) => ts.len() > 0,
            None => false,
        };
        let use_groups: bool = match &args.groups {
            Some(gs) => gs.len() > 0,
            None => false,
        };
        let mut required: Vec<String> = Vec::new();
        if let Some(tools) = &self.tools {
            proof {
                lemma_catalog_view_finite(tools@);
            }
            if use_tools {
                match &args.tools {
                    Some(ts) => {
                        let mut i: usize = 0;
                        while i < ts.len()
                            invariant
                                0 <= i <= ts@.len(),
                                required@.len() == i,
                                forall|j: int| 0 <= j < i ==> cat.contains_key(#[trigger] ts@[j]@),
                                forall|j: int| 0 <= j < i ==> required@[j]@ == ts@[j]@,
                                forall|j: int|
                                    0 <= j < i ==> self.requested_id(
                                        args,
                                        #[trigger] required@[j]@,
                                    ),
                            decreases ts@.len() - i,
                        {
                            match catalog_get(tools, &ts[i]) {
                                None => {
                                    return Err(RequestError::UnknownTool { name: ts[i].clone() });
                                },
                                Some(_) => {
                                    required.push(ts[i].clone());
                                    proof {
                                        assert(self.requested_id(args, ts@[i as int]@));
                                    }
                                },
                            }
                            i = i + 1;
                        }
                    },
                    None => {
                        proof {
                            assert(false);
                        }
                    },
                }
            } else if use_groups {
                match (&args.groups, &self.groups) {
                    (Some(gs), Some(groups)) => {
                        let mut gi: usize = 0;
                        while gi < gs.len()
                            invariant
                                0 <= gi <= gs@.len(),
                                group_entries_distinct(groups@),
                                gmap == groups_view(groups@),
                                cat == catalog_view(tools@),
                                entries_distinct(tools@),
                                forall|j: int| 0 <= j < required@.len() ==> cat.contains_key(
                                    #[trigger] required@[j]@,
                                ),
                                forall|j: int|
                                    0 <= j < required@.len() ==> self.requested_id(
                                        args,
                                        #[trigger] required@[j]@,
                                    ),
                                forall|i: int, j: int|
                                    0 <= i < gi && gmap.contains_key(#[trigger] gs@[i]@) && 0 <= j
                                        < gmap[gs@[i]@].dependencies.len() && cat.contains_key(
                                        #[trigger] gmap[gs@[i]@].dependencies[j],
                                    ) ==> key_set(required@).contains(
                                        gmap[gs@[i]@].dependencies[j],
                                    ),
                            decreases gs@.len() - gi,
                        {
                            match groups_get(groups, &gs[gi]) {
                                Some(group) => {
                                    let mut mi: usize = 0;
                                    while mi < group.dependencies.len()
                                        invariant
                                            0 <= mi <= group.dependencies@.len(),
                                            group@ == gmap[gs@[gi as int]@],
                                            gmap.contains_key(gs@[gi as int]@),
                                            cat == catalog_view(tools@),
                                            entries_distinct(tools@),
                                            forall|j: int|
                                                0 <= j < required@.len() ==> cat.contains_key(
                                                    #[trigger] required@[j]@,
                                                ),
                                            forall|j: int|
                                                0 <= j < required@.len() ==> self.requested_id(
                                                    args,
                                                    #[trigger] required@[j]@,
                                                ),
                                            forall|j: int|
                                                0 <= j < mi && cat.contains_key(
                                                    #[trigger] group.dependencies.deep_view()[j],
                                                ) ==> key_set(required@).contains(
                                                    group.dependencies.deep_view()[j],
                                                ),
                                            forall|i: int, j: int|
                                                0 <= i < gi && gmap.contains_key(
                                                    #[trigger] gs@[i]@,
                                                ) && 0 <= j < gmap[gs@[i]@].dependencies.len()
                                                    && cat.contains_key(
                                                    #[trigger] gmap[gs@[i]@].dependencies[j],
                                                ) ==> key_set(required@).contains(
                                                    gmap[gs@[i]@].dependencies[j],
                                                ),
                                        decreases group.dependencies@.len() - mi,
                                    {
                                        let m = &group.dependencies[mi];
                                        proof {
                                            assert(group.dependencies.deep_view()[mi as int]
                                                == m@);
                                        }
                                        match catalog_get(tools, m) {
                                            Some(_) => {
                                                proof {
                                                    crate::keys::lemma_key_set_push(required@, *m);
                                                    assert(gmap[gs@[gi as int]@].dependencies[
                                                        mi as int] == m@);
                                                    assert(self.requested_id(args, m@));
                                                }
                                                required.push(m.clone());
                                            },
                                            None => {},
                                        }
                                        proof {
                                            assert forall|j: int|
                                                0 <= j < mi + 1 && cat.contains_key(
                                                    #[trigger] group.dependencies.deep_view()[j],
                                                ) implies key_set(required@).contains(
                                                group.dependencies.deep_view()[j],
                                            ) by {}
                                        }
                                        mi = mi + 1;
                                    }
                                },
                                None => {},
                            }
                            gi = gi + 1;
                        }
                    },
                    _ => {},
                }
            } else {
                let mut i: usize = 0;
                while i < tools.len()
                    invariant
                        0 <= i <= tools@.len(),
                        required@.len() == i,
                        cat == catalog_view(tools@),
                        entries_distinct(tools@),
                        forall|j: int| 0 <= j < i ==> required@[j]@ == tools@[j].0@,
                        forall|j: int| 0 <= j < i ==> cat.contains_key(#[trigger] required@[j]@),
                        forall|j: int|
                            0 <= j < i ==> self.requested_id(args, #[trigger] required@[j]@),
                    decreases tools@.len() - i,
                {
                    proof {
                        lemma_catalog_view_index(tools@, i as int);
                    }
                    required.push(tools[i].0.clone());
                    proof {
                        assert(self.requested_id(args, tools@[i as int].0@));
                    }
                    i = i + 1;
                }
            }
            // expand each selected tool
            let mut vi: usize = 0;
            while vi < required.len()
                invariant
                    0 <= vi <= required@.len(),
                    cat == catalog_view(tools@),
                    entries_distinct(tools@),
                    resolve_inv(cat, deps),
                    deps.checked() == deps.sat().union(deps.unsat()),
                    forall|k: Seq<char>|
                        #![trigger deps.sat().contains(k)]
                        #![trigger deps.unsat().contains(k)]
                        deps.sat().contains(k) || deps.unsat().contains(k) ==> complete_expanded(
                            cat,
                            deps,
                            k,
                        ),
                    forall|j: int| 0 <= j < required@.len() ==> cat.contains_key(
                        #[trigger] required@[j]@,
                    ),
                    forall|j: int|
                        0 <= j < required@.len() ==> self.requested_id(
                            args,
                            #[trigger] required@[j]@,
                        ),
                    forall|j: int| 0 <= j < vi ==> deps.checked().contains(
                        #[trigger] required@[j]@,
                    ),
                    forall|k: Seq<char>| #[trigger]
                        deps.checked().contains(k) ==> self.from_request(args, k),
                    deps.satisfied_groups@.len() == 0,
                    deps.unsatisfied_groups@.len() == 0,
                decreases required@.len() - vi,
            {
                let key = &required[vi];
                match catalog_get(tools, key) {
                    Some(tool) => {
                        if !keys_contain(&deps.checked_tool_keys, key) {
                            proof {
                                assert(active(deps).subset_of(Set::<Seq<char>>::empty())) by {
                                    assert forall|a: Seq<char>| #[trigger]
                                        active(deps).contains(a) implies Set::<
                                        Seq<char>,
                                    >::empty().contains(a) by {
                                        assert(deps.sat().contains(a) || deps.unsat().contains(
                                            a,
                                        ));
                                    }
                                }
                            }
                            let ghost pre = deps;
                            let ghost unv = cat.dom().difference(deps.checked());
                            get_dependencies_rec(
                                tools,
                                tool,
                                key,
                                &mut deps,
                                Ghost(Set::empty()),
                                Ghost(unv),
                            );
                            proof {
                                assert(deps.checked() == deps.sat().union(deps.unsat())) by {
                                    assert forall|k: Seq<char>| #[trigger]
                                        deps.checked().contains(k) implies deps.sat().contains(k)
                                        || deps.unsat().contains(k) by {
                                        if pre.checked().contains(k) {
                                            assert(pre.sat().contains(k) || pre.unsat().contains(
                                                k,
                                            ));
                                        }
                                    }
                                    assert(deps.sat().union(deps.unsat()).subset_of(
                                        deps.checked(),
                                    ));
                                    assert(deps.checked() =~= deps.sat().union(deps.unsat()));
                                }
                                assert forall|k: Seq<char>| #[trigger]
                                    deps.checked().contains(k) implies self.from_request(
                                    args,
                                    k,
                                ) by {
                                    if pre.checked().contains(k) {
                                    } else {
                                        assert(reaches(cat, key@, k));
                                        assert(required@[vi as int]@ == key@);
                                        assert(self.requested_id(args, key@));
                                        assert(self.from_request(args, k));
                                    }
                                }
                            }
                        }
                    },
                    None => {
                        proof {
                            assert(false);
                        }
                    },
                }
                vi = vi + 1;
            }
            // make the satisfied set closed, so broken cycles fall whole
            proof {
                assert forall|k: Seq<char>| #[trigger]
                    deps.checked().contains(k) implies deps_recorded(cat, deps, k) by {
                    assert(deps.sat().contains(k) || deps.unsat().contains(k));
                    assert(complete_expanded(cat, deps, k));
                    lemma_recorded_from_expanded(cat, deps, k);
                }
            }
            let ghost pre_sweep = deps;
            enforce_closure(tools, &mut deps);
            proof {
                assert forall|k: Seq<char>| #[trigger]
                    deps.checked().contains(k) implies self.from_request(args, k) by {
                    assert(pre_sweep.checked().contains(k));
                }
                assert forall|j: int|
                    0 <= j < required@.len() implies deps.checked().contains(
                    #[trigger] required@[j]@,
                ) by {
                    assert(pre_sweep.checked().contains(required@[j]@));
                }
            }
        } else {
            proof {
                assert(cat == Map::<Seq<char>, ToolSpec>::empty());
                assert(Map::<Seq<char>, ToolSpec>::empty().dom() =~= Set::<Seq<char>>::empty());
                assert(cat.dom().finite());
                assert forall|k: Seq<char>| #[trigger]
                    deps.checked().contains(k) implies self.from_request(args, k) by {}
                assert forall|k: Seq<char>| #[trigger]
                    deps.checked().contains(k) implies complete(cat, deps, k) by {}
            }
        }
        let ghost expanded = deps;
        // judge each requested group by its members
        if let Some(gs) = &args.groups {
            if let Some(groups) = &self.groups {
                let ghost pre_groups = deps;
                let mut gi: usize = 0;
                while gi < gs.len()
                    invariant
                        0 <= gi <= gs@.len(),
                        gmap == groups_view(groups@),
                        group_entries_distinct(groups@),
                        args.groups == Some(*gs),
                        resolve_inv(cat, deps),
                        deps.checked_tool_keys == pre_groups.checked_tool_keys,
                        deps.satisfied_tools == pre_groups.satisfied_tools,
                        deps.unsatisfied_tools == pre_groups.unsatisfied_tools,
                        deps.checked() == deps.sat().union(deps.unsat()),
                        forall|k: Seq<char>|
                            #![trigger deps.sat().contains(k)]
                            #![trigger deps.unsat().contains(k)]
                            deps.sat().contains(k) || deps.unsat().contains(k) ==> complete(
                                cat,
                                deps,
                                k,
                            ),
                        groups_resolved(gmap, args, deps),
                        forall|i: int|
                            0 <= i < gi && gmap.contains_key(#[trigger] gs@[i]@)
                                ==> deps.sat_groups().contains(gs@[i]@)
                                || deps.unsat_groups().contains(gs@[i]@),
                    decreases gs@.len() - gi,
                {
                    let gk = &gs[gi];
                    if !keys_contain(&deps.satisfied_groups, gk) && !deps.is_unsat_group(gk) {
                        match groups_get(groups, gk) {
                            Some(group) => {
                                let ghost members = gmap[gk@].dependencies;
                                let mut offending: Vec<String> = Vec::new();
                                let mut mi: usize = 0;
                                while mi < group.dependencies.len()
                                    invariant
                                        0 <= mi <= group.dependencies@.len(),
                                        group@ == gmap[gk@],
                                        members == gmap[gk@].dependencies,
                                        offending.deep_view() =~= offenders(
                                            members.subrange(0, mi as int),
                                            deps.sat(),
                                        ),
                                    decreases group.dependencies@.len() - mi,
                                {
                                    let m = &group.dependencies[mi];
                                    proof {
                                        assert(members[mi as int] == m@);
                                        assert(members.subrange(0, mi + 1 as int).drop_last()
                                            =~= members.subrange(0, mi as int));
                                    }
                                    if !keys_contain(&deps.satisfied_tools, m) {
                                        offending.push(m.clone());
                                    }
                                    mi = mi + 1;
                                }
                                proof {
                                    assert(members.subrange(0, members.len() as int) =~= members);
                                    lemma_offenders_empty(members, deps.sat());
                                }
                                let ghost pre = deps;
                                if offending.len() == 0 {
                                    proof {
                                        crate::keys::lemma_key_set_push(
                                            deps.satisfied_groups@,
                                            *gk,
                                        );
                                        crate::keys::lemma_key_set_contains(
                                            deps.satisfied_groups@,
                                            gk@,
                                        );
                                    }
                                    deps.satisfied_groups.push(gk.clone());
                                    proof {
                                        crate::dependencies::lemma_same_entries_same_reasons(
                                            pre,
                                            deps,
                                        );
                                        assert(deps.sat_groups() == pre.sat_groups().insert(gk@));
                                        assert(groups_resolved(gmap, args, deps)) by {
                                            assert forall|gk2: Seq<char>| #[trigger]
                                                deps.sat_groups().contains(gk2) implies
                                                requested_group(args, gk2) && gmap.contains_key(
                                                gk2,
                                            ) && group_all_sat(deps, gmap[gk2]) by {
                                                if gk2 == gk@ {
                                                    assert(gs@[gi as int]@ == gk@);
                                                } else {
                                                    assert(pre.sat_groups().contains(gk2));
                                                }
                                            }
                                        }
                                    }
                                } else {
                                    proof {
                                        crate::keys::lemma_map_to_set_push(
                                            deps.unsatisfied_groups@,
                                            |g: crate::dependencies::UnSatisfiedGroup| g.group@,
                                            crate::dependencies::UnSatisfiedGroup {
                                                group: *gk,
                                                unsatisfied_tools: offending,
                                            },
                                        );
                                    }
                                    let entry = crate::dependencies::UnSatisfiedGroup {
                                        group: gk.clone(),
                                        unsatisfied_tools: offending,
                                    };
                                    deps.unsatisfied_groups.push(entry);
                                    proof {
                                        crate::dependencies::lemma_same_entries_same_reasons(
                                            pre,
                                            deps,
                                        );
                                        crate::keys::lemma_map_to_set_contains(
                                            pre.unsatisfied_groups@,
                                            |g: crate::dependencies::UnSatisfiedGroup| g.group@,
                                            gk@,
                                        );
                                        assert(deps.unsat_groups() == pre.unsat_groups().insert(
                                            gk@,
                                        ));
                                        assert(!group_all_sat(deps, gmap[gk@]));
                                        assert(groups_resolved(gmap, args, deps)) by {
                                            assert forall|gk2: Seq<char>| #[trigger]
                                                deps.unsat_groups().contains(gk2) implies
                                                requested_group(args, gk2) && gmap.contains_key(
                                                gk2,
                                            ) && !group_all_sat(deps, gmap[gk2]) by {
                                                if gk2 == gk@ {
                                                    assert(gs@[gi as int]@ == gk@);
                                                } else {
                                                    assert(pre.unsat_groups().contains(gk2));
                                                }
                                            }
                                            assert forall|i: int|
                                                0 <= i < deps.unsatisfied_groups@.len() implies
                                                gmap.contains_key(
                                                (#[trigger] deps.unsatisfied_groups@[i]).group@,
                                            ) && deps.unsatisfied_groups@[i].unsatisfied_tools.deep_view()
                                                == offenders(
                                                gmap[deps.unsatisfied_groups@[i].group@].dependencies,
                                                deps.sat(),
                                            ) by {
                                                if i < pre.unsatisfied_groups@.len() {
                                                    assert(deps.unsatisfied_groups@[i]
                                                        == pre.unsatisfied_groups@[i]);
                                                }
                                            }
                                        }
                                    }
                                }
                            },
                            None => {},
                        }
                    }
                    gi = gi + 1;
                }
            }
        }
        proof {
            assert(deps.checked_tool_keys == expanded.checked_tool_keys);
            assert(deps.checked() == expanded.checked());
            assert forall|k: Seq<char>| #[trigger]
                deps.checked().contains(k) implies self.from_request(args, k) by {
                assert(expanded.checked().contains(k));
            }
            match &self.tools {
                Some(tools) => {
                    assert forall|j: int|
                        0 <= j < required@.len() implies deps.checked().contains(
                        #[trigger] required@[j]@,
                    ) by {
                        assert(expanded.checked().contains(required@[j]@));
                    }
                    if use_tools {
                        if let Some(ts) = &args.tools {
                            assert forall|i: int|
                                0 <= i < ts@.len() implies deps.checked().contains(
                                #[trigger] ts@[i]@,
                            ) && cat.contains_key(ts@[i]@) by {
                                assert(required@[i]@ == ts@[i]@);
                            }
                        }
                    } else if use_groups {
                        if let Some(gs) = &args.groups {
                            assert forall|i: int, j: int|
                                0 <= i < gs@.len() && gmap.contains_key(#[trigger] gs@[i]@) && 0
                                    <= j < gmap[gs@[i]@].dependencies.len() && cat.contains_key(
                                    #[trigger] gmap[gs@[i]@].dependencies[j],
                                ) implies deps.checked().contains(
                                gmap[gs@[i]@].dependencies[j],
                            ) by {
                                let m = gmap[gs@[i]@].dependencies[j];
                                assert(key_set(required@).contains(m));
                                lemma_key_set_contains(required@, m);
                                let jj = choose|jj: int|
                                    0 <= jj < required@.len() && required@[jj]@ == m;
                                assert(deps.checked().contains(required@[jj]@));
                            }
                        }
                    } else {
                        assert forall|k: Seq<char>|
                            cat.contains_key(k) implies deps.checked().contains(k) by {
                            lemma_catalog_view_contains(tools@, k);
                            let i = choose|i: int| 0 <= i < tools@.len() && tools@[i].0@ == k;
                            assert(required@[i]@ == tools@[i].0@);
                            assert(deps.checked().contains(required@[i]@));
                        }
                    }
                },
                None => {},
            }
            if deps.satisfied_groups@.len() == 0 {
                assert forall|gk: Seq<char>| !(#[trigger] deps.sat_groups().contains(gk)) by {
                    lemma_key_set_contains(deps.satisfied_groups@, gk);
                }
            }
            if deps.unsatisfied_groups@.len() == 0 {
                assert forall|gk: Seq<char>| !(#[trigger] deps.unsat_groups().contains(gk)) by {
                    crate::keys::lemma_map_to_set_contains(
                        deps.unsatisfied_groups@,
                        |g: crate::dependencies::UnSatisfiedGroup| g.group@,
                        gk,
                    );
                }
            }
            assert(self.resolution_ok(args, deps));
        }
        Ok(deps)
    }
}

impl Config {
    /// Pre-flight validation of one request against the configuration:
    /// a request that names tools or groups needs a tool catalog, every
    /// requested group must exist, every explicitly requested tool must
    /// exist, and the resolution must leave nothing unsatisfied — the
    /// unsatisfied-dependencies error is owed exactly when a resolution
    /// of this request carries unsatisfied tools or groups.  On success
    /// the clean resolution is handed back; a request for the editor
    /// alone needs none of this.  Whether the declared artifact paths
    /// exist on disk is a separate check that the caller merges in
    /// afterwards.
    #[verifier::loop_isolation(false)]
    pub fn validate(&self, args: &Args) -> (r: Result<Dependencies, RequestError>)
        requires
            self.wf(),
        ensures
            args.only_editor ==> r is Ok,
            r matches Err(e) ==> !args.only_editor && match e {
                RequestError::NoToolsConfigured => self.tools is None && (args.tools is Some
                    || args.groups is Some),
                RequestError::UnknownGroup { name } => requested_group(args, name@)
                    && !self.groups_map().contains_key(name@),
                RequestError::UnknownTool { name } => !self.catalog().contains_key(name@)
                    && match args.tools {
                    Some(ts) => exists|i: int| 0 <= i < ts.len() && ts[i]@ == name@,
                    None => false,
                },
                RequestError::UnsatisfiedDependencies => exists|d: Dependencies|
                    #[trigger] self.resolution_ok(args, d) && (d.unsatisfied_tools@.len() > 0
                        || d.unsatisfied_groups@.len() > 0),
                RequestError::ConflictingEditorFlags => false,
            },
            !args.only_editor ==> (r matches Ok(d) ==> {
                &&& self.resolution_ok(args, d)
                &&& d.unsatisfied_tools@.len() == 0
                &&& d.unsatisfied_groups@.len() == 0
                &&& !(self.tools is None && (args.tools is Some || args.groups is Some))
                &&& match args.groups {
                    Some(gs) => forall|i: int|
                        0 <= i < gs.len() ==> self.groups_map().contains_key(#[trigger] gs[i]@),
                    None => true,
                }
            }),
    {
        if args.only_editor {
            return Ok(Dependencies::new());
        }
        if self.tools.is_none() && (args.tools.is_some() || args.groups.is_some()) {
            return Err(RequestError::NoToolsConfigured);
        }
        if let Some(gs) = &args.groups {
            let mut i: usize = 0;
            while i < gs.len()
                invariant
                    0 <= i <= gs@.len(),
                    forall|j: int| 0 <= j < i ==> self.groups_map().contains_key(
                        #[trigger] gs@[j]@,
                    ),
                decreases gs@.len() - i,
            {
                let present: bool = match &self.groups {
                    Some(groups) => groups_get(groups, &gs[i]).is_some(),
                    None => false,
                };
                if !present {
                    proof {
                        assert(gs@[i as int]@ == gs[i as int]@);
                    }
                    return Err(RequestError::UnknownGroup { name: gs[i].clone() });
                }
                i = i + 1;
            }
        }
        let deps = match self.get_dependencies(args) {
            Ok(d) => d,
            Err(e) => {
                return Err(e);
            },
        };
        match deps.validate() {
            Ok(_) => Ok(deps),
            Err(_) => {
                proof {
                    assert(self.resolution_ok(args, deps) && (deps.unsatisfied_tools@.len() > 0
                        || deps.unsatisfied_groups@.len() > 0));
                }
                Err(RequestError::UnsatisfiedDependencies)
            },
        }
    }

    /// The configured default tools and default groups that resolve to
    /// nothing: each is checked against its catalog, in order, duplicates
    /// kept.  A configuration naming such defaults is rejected before
    /// anything is installed.
    #[verifier::loop_isolation(false)]
    pub fn missing_defaults(&self) -> (r: (Vec<String>, Vec<String>))
        requires
            self.wf(),
        ensures
            r.0.deep_view() == offenders(
                match self.default_tools {
                    Some(d) => d.deep_view(),
                    None => Seq::empty(),
                },
                self.catalog().dom(),
            ),
            r.1.deep_view() == offenders(
                match self.default_groups {
                    Some(d) => d.deep_view(),
                    None => Seq::empty(),
                },
                self.groups_map().dom(),
            ),
    {
        let ghost cat = self.catalog();
        let ghost gmap = self.groups_map();
        let mut miss_tools: Vec<String> = Vec::new();
        if let Some(d) = &self.default_tools {
            let mut i: usize = 0;
            while i < d.len()
                invariant
                    0 <= i <= d@.len(),
                    miss_tools.deep_view() =~= offenders(
                        d.deep_view().subrange(0, i as int),
                        cat.dom(),
                    ),
                decreases d@.len() - i,
            {
                let present: bool = match &self.tools {
                    Some(t) => catalog_get(t, &d[i]).is_some(),
                    None => false,
                };
                proof {
                    assert(present == cat.dom().contains(d@[i as int]@));
                    assert(d.deep_view().subrange(0, i + 1 as int).drop_last()
                        =~= d.deep_view().subrange(0, i as int));
                    assert(d.deep_view()[i as int] == d@[i as int]@);
                }
                if !present {
                    let ghost prev = miss_tools.deep_view();
                    miss_tools.push(d[i].clone());
                    proof {
                        assert(miss_tools.deep_view() =~= prev.push(d@[i as int]@));
                    }
                }
                i = i + 1;
            }
            proof {
                assert(d.deep_view().subrange(0, d.deep_view().len() as int) =~= d.deep_view());
            }
        }
        let mut miss_groups: Vec<String> = Vec::new();
        if let Some(d) = &self.default_groups {
            let mut i: usize = 0;
            while i < d.len()
                invariant
                    0 <= i <= d@.len(),
                    miss_groups.deep_view() =~= offenders(
                        d.deep_view().subrange(0, i as int),
                        gmap.dom(),
                    ),
                decreases d@.len() - i,
            {
                let present: bool = match &self.groups {
                    Some(g) => groups_get(g, &d[i]).is_some(),
                    None => false,
                };
                proof {
                    assert(present == gmap.dom().contains(d@[i as int]@));
                    assert(d.deep_view().subrange(0, i + 1 as int).drop_last()
                        =~= d.deep_view().subrange(0, i as int));
                    assert(d.deep_view()[i as int] == d@[i as int]@);
                }
                if !present {
                    let ghost prev = miss_groups.deep_view();
                    miss_groups.push(d[i].clone());
                    proof {
                        assert(miss_groups.deep_view() =~= prev.push(d@[i as int]@));
                    }
                }
                i = i + 1;
            }
            proof {
                assert(d.deep_view().subrange(0, d.deep_view().len() as int) =~= d.deep_view());
            }
        }
        (miss_tools, miss_groups)
    }
}

/// A fresh result is resolved against any catalog: nothing was expanded
/// and nothing was decided.
proof fn lemma_empty_deps_resolved(cat: Map<Seq<char>, ToolSpec>, d: Dependencies)
    requires
        d.checked_tool_keys@.len() == 0,
        d.satisfied_tools@.len() == 0,
        d.satisfied_groups@.len() == 0,
        d.unsatisfied_tools@.len() == 0,
        d.unsatisfied_groups@.len() == 0,
        d.wf(),
    ensures
        d.checked() =~= Set::<Seq<char>>::empty(),
        d.sat() =~= Set::<Seq<char>>::empty(),
        d.unsat() =~= Set::<Seq<char>>::empty(),
        d.sat_groups() =~= Set::<Seq<char>>::empty(),
        d.unsat_groups() =~= Set::<Seq<char>>::empty(),
        cat.dom().finite() ==> resolved(cat, d),
        forall|k: Seq<char>, dd: Seq<char>, e: DependencyErrorType| !(#[trigger] d.has_reason(
            k,
            dd,
            e,
        )),
        forall|k: Seq<char>, f: Seq<char>| !(#[trigger] d.has_path_error(k, f)),
{
    assert forall|k: Seq<char>| !(#[trigger] d.checked().contains(k)) by {
        lemma_key_set_contains(d.checked_tool_keys@, k);
    }
    assert forall|k: Seq<char>| !(#[trigger] d.sat().contains(k)) by {
        lemma_key_set_contains(d.satisfied_tools@, k);
    }
    assert forall|k: Seq<char>| !(#[trigger] d.unsat().contains(k)) by {
        crate::keys::lemma_map_to_set_contains(
            d.unsatisfied_tools@,
            |u: crate::dependencies::UnSatisfiedTool| u.tool@,
            k,
        );
    }
    assert forall|k: Seq<char>| !(#[trigger] d.sat_groups().contains(k)) by {
        lemma_key_set_contains(d.satisfied_groups@, k);
    }
    assert forall|k: Seq<char>| !(#[trigger] d.unsat_groups().contains(k)) by {
        crate::keys::lemma_map_to_set_contains(
            d.unsatisfied_groups@,
            |g: crate::dependencies::UnSatisfiedGroup| g.group@,
            k,
        );
    }
    if cat.dom().finite() {
        assert(d.checked() =~= d.sat().union(d.unsat()));
    }
}

/// Re-establishes the visit frame after a reason is recorded against the
/// tool under expansion.
proof fn lemma_frame_after_record(
    cat: Map<Seq<char>, ToolSpec>,
    old_d: Dependencies,
    pre: Dependencies,
    post: Dependencies,
    stack: Set<Seq<char>>,
    key: Seq<char>,
    dep: Seq<char>,
    e: DependencyErrorType,
)
    requires
        visit_frame(cat, old_d, pre, stack, key),
        !pre.sat().contains(key),
        !old_d.checked().contains(key),
        cat.contains_key(key),
        tool_deps(cat[key]).contains(dep),
        e is NotFound ==> !cat.contains_key(dep),
        e is UnSatisfiedDepencies ==> cat.contains_key(dep) && pre.unsat().contains(dep),
        !satisfiable(cat, key),
        post.wf(),
        post.unsat() == pre.unsat().insert(key),
        post.checked_tool_keys == pre.checked_tool_keys,
        post.satisfied_tools == pre.satisfied_tools,
        post.satisfied_groups == pre.satisfied_groups,
        post.unsatisfied_groups == pre.unsatisfied_groups,
        forall|k2: Seq<char>, d2: Seq<char>, e2: DependencyErrorType|
            pre.has_reason(k2, d2, e2) ==> #[trigger] post.has_reason(k2, d2, e2),
        forall|k2: Seq<char>, d2: Seq<char>, e2: DependencyErrorType| #[trigger]
            post.has_reason(k2, d2, e2) ==> pre.has_reason(k2, d2, e2) || (k2 == key && d2 == dep
                && e2 == e),
        post.has_dep_reason(key, dep),
        forall|k2: Seq<char>, f2: Seq<char>| #[trigger]
            post.has_path_error(k2, f2) == pre.has_path_error(k2, f2),
    ensures
        visit_frame(cat, old_d, post, stack, key),
        !post.sat().contains(key),
        post.unsat().contains(key),
{
    assert(post.checked() == pre.checked());
    assert(post.sat() == pre.sat());
    assert(resolve_inv(cat, post)) by {
        assert(post.unsat().subset_of(post.checked()));
        assert(post.sat().disjoint(post.unsat()));
        assert forall|k2: Seq<char>| #[trigger] post.unsat().contains(k2) implies !satisfiable(
            cat,
            k2,
        ) by {
            if k2 != key {
                assert(pre.unsat().contains(k2));
            }
        }
        assert forall|k2: Seq<char>| #[trigger] post.unsat().contains(k2) implies
            post.has_any_reason(k2) by {
            if k2 == key {
                if post.has_reason(key, dep, DependencyErrorType::NotFound) {
                    assert(post.has_any_reason(key));
                } else {
                    assert(post.has_reason(key, dep, DependencyErrorType::UnSatisfiedDepencies));
                    assert(post.has_any_reason(key));
                }
            } else {
                assert(pre.unsat().contains(k2));
                let (dd, ee) = choose|dd: Seq<char>, ee: DependencyErrorType|
                    pre.has_reason(k2, dd, ee);
                assert(post.has_reason(k2, dd, ee));
            }
        }
    }
    assert forall|k2: Seq<char>| #[trigger] old_d.checked().contains(k2) implies (
    post.sat().contains(k2) == old_d.sat().contains(k2)) && (post.unsat().contains(k2)
        == old_d.unsat().contains(k2)) by {
        assert(pre.sat().contains(k2) == old_d.sat().contains(k2));
        assert(pre.unsat().contains(k2) == old_d.unsat().contains(k2));
        if k2 != key {
            assert(post.unsat().contains(k2) == pre.unsat().contains(k2));
        } else {
            assert(!old_d.checked().contains(key));
        }
    }
    assert(active(post).subset_of(active(pre)));
    assert forall|k2: Seq<char>|
        (#[trigger] post.sat().contains(k2) || #[trigger] post.unsat().contains(k2))
            && !stack.contains(k2) && k2 != key implies complete_expanded(cat, post, k2) by {
        if post.unsat().contains(k2) && k2 != key {
            assert(pre.unsat().contains(k2));
        }
        lemma_complete_expanded_monotone(cat, pre, post, k2);
    }
    assert forall|k2: Seq<char>| #[trigger]
        post.checked().contains(k2) && !old_d.checked().contains(k2) implies reaches(
        cat,
        key,
        k2,
    ) by {
        assert(pre.checked().contains(k2));
    }
}

/// Re-establishes the visit frame after the recursive expansion of one
/// dependency.
proof fn lemma_frame_after_recursion(
    cat: Map<Seq<char>, ToolSpec>,
    old_d: Dependencies,
    pre: Dependencies,
    post: Dependencies,
    stack: Set<Seq<char>>,
    key: Seq<char>,
    dep: Seq<char>,
)
    requires
        visit_frame(cat, old_d, pre, stack, key),
        !pre.sat().contains(key),
        cat.contains_key(key),
        tool_deps(cat[key]).contains(dep),
        cat.contains_key(dep),
        visit_frame(cat, pre, post, stack.insert(key), dep),
        post.sat().contains(dep) || post.unsat().contains(dep),
        forall|k: Seq<char>|
            (#[trigger] post.sat().contains(k) || #[trigger] post.unsat().contains(k))
                && !stack.insert(key).contains(k) ==> complete_expanded(cat, post, k),
        !pre.checked().contains(dep),
    ensures
        visit_frame(cat, old_d, post, stack, key),
        !post.sat().contains(key),
{
    assert forall|k2: Seq<char>, d2: Seq<char>, e2: DependencyErrorType| #[trigger]
        old_d.has_reason(k2, d2, e2) implies post.has_reason(k2, d2, e2) by {
        assert(pre.has_reason(k2, d2, e2));
    }
    assert forall|k2: Seq<char>| #[trigger] old_d.checked().contains(k2) implies (
    post.sat().contains(k2) == old_d.sat().contains(k2)) && (post.unsat().contains(k2)
        == old_d.unsat().contains(k2)) by {
        assert(pre.checked().contains(k2));
        assert(post.sat().contains(k2) == pre.sat().contains(k2));
        assert(post.unsat().contains(k2) == pre.unsat().contains(k2));
    }
    assert forall|k2: Seq<char>| #[trigger] post.checked().contains(k2) implies
        old_d.checked().contains(k2) || k2 == key || post.sat().contains(k2)
            || post.unsat().contains(k2) by {
        if !pre.checked().contains(k2) {
        } else {
            if !old_d.checked().contains(k2) && k2 != key {
                if pre.sat().contains(k2) {
                    assert(post.sat().contains(k2));
                } else if pre.unsat().contains(k2) {
                    assert(post.unsat().contains(k2));
                }
            }
        }
    }
    assert(active(post).subset_of(stack.insert(key))) by {
        assert forall|k2: Seq<char>| #[trigger] active(post).contains(k2) implies stack.insert(
            key,
        ).contains(k2) by {
            assert(!post.sat().contains(k2));
            assert(!post.unsat().contains(k2));
            if pre.checked().contains(k2) {
                assert(post.sat().contains(k2) == pre.sat().contains(k2));
                assert(post.unsat().contains(k2) == pre.unsat().contains(k2));
                assert(active(pre).contains(k2));
            } else {
                // the recursion decided everything it newly expanded
                assert(k2 == dep);
                assert(false);
            }
        }
    }
    assert forall|k2: Seq<char>|
        (#[trigger] post.sat().contains(k2) || #[trigger] post.unsat().contains(k2))
            && !stack.contains(k2) && k2 != key implies complete_expanded(cat, post, k2) by {
    }
    assert forall|k: Seq<char>| #[trigger]
        post.checked().contains(k) && !old_d.checked().contains(k) implies reaches(
        cat,
        key,
        k,
    ) by {
        if pre.checked().contains(k) {
            assert(reaches(cat, key, k));
        } else {
            assert(reaches(cat, dep, k));
            lemma_reaches_dep(cat, key, dep);
            lemma_reaches_trans(cat, key, dep, k);
        }
    }
    assert(post.checked().contains(key));
    assert(!post.sat().contains(key)) by {
        assert(pre.checked().contains(key));
        assert(post.sat().contains(key) == pre.sat().contains(key));
    }
}


/// Re-establishes the resolver's invariant after the sweep demotes one
/// tool over an unsatisfied dependency, or records one more reason
/// against an already-unsatisfied one.
proof fn lemma_inv_after_demote(
    cat: Map<Seq<char>, ToolSpec>,
    pre: Dependencies,
    post: Dependencies,
    key: Seq<char>,
    dep: Seq<char>,
)
    requires
        resolve_inv(cat, pre),
        pre.checked() == pre.sat().union(pre.unsat()),
        pre.checked().contains(key),
        cat.contains_key(key),
        cat.contains_key(dep),
        tool_deps(cat[key]).contains(dep),
        pre.unsat().contains(dep),
        !satisfiable(cat, key),
        post.wf(),
        post.checked_tool_keys == pre.checked_tool_keys,
        post.satisfied_groups == pre.satisfied_groups,
        post.unsatisfied_groups == pre.unsatisfied_groups,
        post.sat() == pre.sat().remove(key),
        post.unsat() == pre.unsat().insert(key),
        forall|k2: Seq<char>, d2: Seq<char>, e2: DependencyErrorType|
            pre.has_reason(k2, d2, e2) ==> #[trigger] post.has_reason(k2, d2, e2),
        forall|k2: Seq<char>, d2: Seq<char>, e2: DependencyErrorType| #[trigger]
            post.has_reason(k2, d2, e2) ==> pre.has_reason(k2, d2, e2) || (k2 == key && d2 == dep
                && e2 == DependencyErrorType::UnSatisfiedDepencies),
        post.has_dep_reason(key, dep),
        forall|k2: Seq<char>, f2: Seq<char>| #[trigger]
            post.has_path_error(k2, f2) == pre.has_path_error(k2, f2),
    ensures
        resolve_inv(cat, post),
        post.checked() == post.sat().union(post.unsat()),
        post.has_reason(key, dep, DependencyErrorType::UnSatisfiedDepencies),
        forall|k2: Seq<char>| #[trigger]
            post.checked().contains(k2) ==> deps_recorded(cat, pre, k2) ==> deps_recorded(
                cat,
                post,
                k2,
            ),
{
    assert(post.checked() == pre.checked());
    assert(post.checked() =~= post.sat().union(post.unsat())) by {
        assert forall|x: Seq<char>| #[trigger] post.checked().contains(x) implies post.sat().union(
            post.unsat(),
        ).contains(x) by {
            assert(pre.sat().contains(x) || pre.unsat().contains(x));
        }
        assert forall|x: Seq<char>| post.sat().union(post.unsat()).contains(x) implies #[trigger]
            post.checked().contains(x) by {
            if post.sat().contains(x) {
                assert(pre.sat().contains(x));
            } else if x != key {
                assert(pre.unsat().contains(x));
            }
        }
    }
    assert(post.has_reason(key, dep, DependencyErrorType::UnSatisfiedDepencies)) by {
        if post.has_reason(key, dep, DependencyErrorType::NotFound) {
            assert(pre.has_reason(key, dep, DependencyErrorType::NotFound));
            assert(!cat.contains_key(dep));
        }
    }
    assert(resolve_inv(cat, post)) by {
        assert(post.sat().subset_of(post.checked())) by {
            assert forall|x: Seq<char>| #[trigger] post.sat().contains(x) implies
                post.checked().contains(x) by {
                assert(pre.sat().contains(x));
            }
        }
        assert(post.unsat().subset_of(post.checked())) by {
            assert forall|x: Seq<char>| #[trigger] post.unsat().contains(x) implies
                post.checked().contains(x) by {
                if x != key {
                    assert(pre.unsat().contains(x));
                }
            }
        }
        assert(post.sat().disjoint(post.unsat())) by {
            assert forall|x: Seq<char>| #[trigger] post.sat().contains(x) implies
                !post.unsat().contains(x) by {
                assert(pre.sat().contains(x) && x != key);
                assert(!pre.unsat().contains(x));
            }
        }
        assert forall|k2: Seq<char>, d2: Seq<char>| #[trigger] post.has_reason(
            k2,
            d2,
            DependencyErrorType::NotFound,
        ) implies post.unsat().contains(k2) && cat.contains_key(k2) && tool_deps(
            cat[k2],
        ).contains(d2) && !cat.contains_key(d2) by {
            assert(pre.has_reason(k2, d2, DependencyErrorType::NotFound));
        }
        assert forall|k2: Seq<char>, d2: Seq<char>| #[trigger] post.has_reason(
            k2,
            d2,
            DependencyErrorType::UnSatisfiedDepencies,
        ) implies post.unsat().contains(k2) && cat.contains_key(k2) && tool_deps(
            cat[k2],
        ).contains(d2) && post.unsat().contains(d2) by {
            if pre.has_reason(k2, d2, DependencyErrorType::UnSatisfiedDepencies) {
            }
        }
        assert forall|k2: Seq<char>| #[trigger] post.unsat().contains(k2) implies !satisfiable(
            cat,
            k2,
        ) by {
            if k2 != key {
                assert(pre.unsat().contains(k2));
            }
        }
        assert forall|k2: Seq<char>| #[trigger] post.unsat().contains(k2) implies
            post.has_any_reason(k2) by {
            if k2 == key {
                assert(post.has_reason(key, dep, DependencyErrorType::UnSatisfiedDepencies));
            } else {
                assert(pre.unsat().contains(k2));
                assert(pre.has_any_reason(k2));
                let (dd, ee) = choose|dd: Seq<char>, ee: DependencyErrorType|
                    pre.has_reason(k2, dd, ee);
                assert(post.has_reason(k2, dd, ee));
            }
        }
    }
    assert forall|k2: Seq<char>| #[trigger]
        post.checked().contains(k2) && deps_recorded(cat, pre, k2) implies deps_recorded(
        cat,
        post,
        k2,
    ) by {
        assert forall|i: int|
            0 <= i < tool_deps(cat[k2]).len() implies (if cat.contains_key(
            #[trigger] tool_deps(cat[k2])[i],
        ) {
            post.checked().contains(tool_deps(cat[k2])[i])
        } else {
            post.has_reason(k2, tool_deps(cat[k2])[i], DependencyErrorType::NotFound)
        }) by {
            if !cat.contains_key(tool_deps(cat[k2])[i]) {
                assert(pre.has_reason(k2, tool_deps(cat[k2])[i], DependencyErrorType::NotFound));
            }
        }
    }
}

/// Makes the satisfied set closed.  While a cycle is being expanded, a
/// member can be recorded satisfied over a dependency whose own verdict
/// is still open; when that dependency later falls, the member must fall
/// with it.  This pass demotes every satisfied tool with an unsatisfied
/// dependency, records the reason, and repeats until nothing moves, so
/// that afterwards every tool of a broken cycle sits in the unsatisfied
/// set and every satisfied tool rests only on satisfied ones.
#[verifier::loop_isolation(false)]
fn enforce_closure(tools: &Vec<(String, Tool)>, dependencies: &mut Dependencies)
    requires
        entries_distinct(tools@),
        resolve_inv(catalog_view(tools@), *old(dependencies)),
        old(dependencies).checked() == old(dependencies).sat().union(old(dependencies).unsat()),
        forall|k: Seq<char>| #[trigger]
            old(dependencies).checked().contains(k) ==> deps_recorded(
                catalog_view(tools@),
                *old(dependencies),
                k,
            ),
    ensures
        resolve_inv(catalog_view(tools@), *final(dependencies)),
        final(dependencies).checked_tool_keys == old(dependencies).checked_tool_keys,
        final(dependencies).satisfied_groups == old(dependencies).satisfied_groups,
        final(dependencies).unsatisfied_groups == old(dependencies).unsatisfied_groups,
        final(dependencies).checked() == final(dependencies).sat().union(
            final(dependencies).unsat(),
        ),
        forall|k: Seq<char>| #[trigger]
            final(dependencies).checked().contains(k) ==> complete(
                catalog_view(tools@),
                *final(dependencies),
                k,
            ),
{
    let ghost cat = catalog_view(tools@);
    let mut changed: bool = true;
    while changed
        invariant
            resolve_inv(cat, *dependencies),
            dependencies.checked_tool_keys == old(dependencies).checked_tool_keys,
            dependencies.satisfied_groups == old(dependencies).satisfied_groups,
            dependencies.unsatisfied_groups == old(dependencies).unsatisfied_groups,
            dependencies.checked() == dependencies.sat().union(dependencies.unsat()),
            forall|k: Seq<char>| #[trigger]
                dependencies.checked().contains(k) ==> deps_recorded(cat, *dependencies, k),
            !changed ==> forall|k: Seq<char>| #[trigger]
                dependencies.checked().contains(k) ==> swept_at(cat, *dependencies, k),
        decreases dependencies.satisfied_tools@.len() + (if changed {
            1int
        } else {
            0int
        }),
    {
        changed = false;
        let ghost pass_entry = *dependencies;
        let mut ci: usize = 0;
        while ci < dependencies.checked_tool_keys.len()
            invariant
                0 <= ci <= dependencies.checked_tool_keys@.len(),
                resolve_inv(cat, *dependencies),
                dependencies.checked_tool_keys == old(dependencies).checked_tool_keys,
                dependencies.satisfied_groups == old(dependencies).satisfied_groups,
                dependencies.unsatisfied_groups == old(dependencies).unsatisfied_groups,
                dependencies.checked() == dependencies.sat().union(dependencies.unsat()),
                forall|k: Seq<char>| #[trigger]
                    dependencies.checked().contains(k) ==> deps_recorded(cat, *dependencies, k),
                dependencies.satisfied_tools@.len() <= pass_entry.satisfied_tools@.len(),
                changed ==> dependencies.satisfied_tools@.len()
                    < pass_entry.satisfied_tools@.len(),
                !changed ==> dependencies.satisfied_tools == pass_entry.satisfied_tools,
                !changed ==> dependencies.unsat() == pass_entry.unsat(),
                !changed ==> forall|j: int|
                    0 <= j < ci ==> swept_at(
                        cat,
                        *dependencies,
                        (#[trigger] dependencies.checked_tool_keys@[j])@,
                    ),
            decreases dependencies.checked_tool_keys@.len() - ci,
        {
            let key = dependencies.checked_tool_keys[ci].clone();
            proof {
                crate::keys::lemma_key_set_contains_intro(
                    dependencies.checked_tool_keys@,
                    ci as int,
                );
                assert(dependencies.checked().contains(key@));
            }
            match catalog_get(tools, &key) {
                None => {
                    proof {
                        assert(false);
                    }
                },
                Some(tool) => {
                    match &tool.dependencies {
                        None => {
                            proof {
                                assert(tool_deps(cat[key@]).len() == 0);
                            }
                        },
                        Some(required) => {
                            let ghost dv = tool_deps(cat[key@]);
                            proof {
                                assert(dv == required.deep_view());
                            }
                            let mut di: usize = 0;
                            while di < required.len()
                                invariant
                                    0 <= di <= required@.len(),
                                    cat.contains_key(key@),
                                    dependencies.checked().contains(key@),
                                    dv == tool_deps(cat[key@]),
                                    dv == required.deep_view(),
                                    resolve_inv(cat, *dependencies),
                                    dependencies.checked_tool_keys == old(
                                        dependencies,
                                    ).checked_tool_keys,
                                    dependencies.satisfied_groups == old(
                                        dependencies,
                                    ).satisfied_groups,
                                    dependencies.unsatisfied_groups == old(
                                        dependencies,
                                    ).unsatisfied_groups,
                                    dependencies.checked() == dependencies.sat().union(
                                        dependencies.unsat(),
                                    ),
                                    forall|k: Seq<char>| #[trigger]
                                        dependencies.checked().contains(k) ==> deps_recorded(
                                            cat,
                                            *dependencies,
                                            k,
                                        ),
                                    dependencies.satisfied_tools@.len()
                                        <= pass_entry.satisfied_tools@.len(),
                                    changed ==> dependencies.satisfied_tools@.len()
                                        < pass_entry.satisfied_tools@.len(),
                                    !changed ==> dependencies.satisfied_tools
                                        == pass_entry.satisfied_tools,
                                    !changed ==> dependencies.unsat() == pass_entry.unsat(),
                                    !changed ==> forall|j: int|
                                        0 <= j < ci ==> swept_at(
                                            cat,
                                            *dependencies,
                                            (#[trigger] dependencies.checked_tool_keys@[j])@,
                                        ),
                                    !changed ==> forall|j: int|
                                        0 <= j < di ==> ((cat.contains_key(#[trigger] dv[j])
                                            && dependencies.unsat().contains(dv[j]))
                                            ==> dependencies.has_reason(
                                            key@,
                                            dv[j],
                                            DependencyErrorType::UnSatisfiedDepencies,
                                        )),
                                decreases required@.len() - di,
                            {
                                let dep = &required[di];
                                proof {
                                    assert(dv[di as int] == dep@);
                                    assert(tool_deps(cat[key@]).contains(dep@));
                                }
                                let present: bool = match catalog_get(tools, dep) {
                                    Some(_) => true,
                                    None => false,
                                };
                                if present && dependencies.is_unsat(dep) {
                                    proof {
                                        lemma_unsatisfiable_dep(cat, key@, dep@);
                                    }
                                    let ghost pre0 = *dependencies;
                                    let was_sat = crate::keys::keys_contain(
                                        &dependencies.satisfied_tools,
                                        &key,
                                    );
                                    if was_sat {
                                        dependencies.remove_sat(&key);
                                        changed = true;
                                    }
                                    let ghost mid = *dependencies;
                                    dependencies.record_unsat_dep(
                                        &key,
                                        dep,
                                        DependencyErrorType::UnSatisfiedDepencies,
                                    );
                                    proof {
                                        crate::dependencies::lemma_same_entries_same_reasons(
                                            pre0,
                                            mid,
                                        );
                                        assert(mid.unsat() == pre0.unsat());
                                        assert(dependencies.sat() == pre0.sat().remove(key@)) by {
                                            if was_sat {
                                            } else {
                                                assert(!pre0.sat().contains(key@));
                                                assert(pre0.sat().remove(key@) =~= pre0.sat());
                                            }
                                        }
                                        assert(dependencies.unsat() == pre0.unsat().insert(key@));
                                        lemma_inv_after_demote(
                                            cat,
                                            pre0,
                                            *dependencies,
                                            key@,
                                            dep@,
                                        );
                                        assert forall|k2: Seq<char>| #[trigger]
                                            dependencies.checked().contains(k2) implies
                                            deps_recorded(cat, *dependencies, k2) by {
                                            assert(pre0.checked().contains(k2));
                                            assert(deps_recorded(cat, pre0, k2));
                                        }
                                        if !changed {
                                            assert(!was_sat);
                                            assert(dependencies.satisfied_tools
                                                == pass_entry.satisfied_tools);
                                            assert(dependencies.unsat() == pass_entry.unsat()) by {
                                                assert(pre0.unsat().contains(key@)) by {
                                                    assert(pre0.checked().contains(key@));
                                                    assert(pre0.sat().union(
                                                        pre0.unsat(),
                                                    ).contains(key@));
                                                    assert(!pre0.sat().contains(key@));
                                                }
                                                assert(pre0.unsat().insert(key@) =~= pre0.unsat());
                                            }
                                            assert forall|j: int|
                                                0 <= j < ci implies swept_at(
                                                cat,
                                                *dependencies,
                                                (
                                                #[trigger] dependencies.checked_tool_keys@[j])@,
                                            ) by {
                                                let k2 = dependencies.checked_tool_keys@[j]@;
                                                assert(swept_at(cat, pre0, k2));
                                                assert forall|i2: int|
                                                    0 <= i2 < tool_deps(cat[k2]).len() implies ((
                                                cat.contains_key(#[trigger] tool_deps(cat[k2])[i2])
                                                    && dependencies.unsat().contains(
                                                    tool_deps(cat[k2])[i2],
                                                )) ==> dependencies.has_reason(
                                                    k2,
                                                    tool_deps(cat[k2])[i2],
                                                    DependencyErrorType::UnSatisfiedDepencies,
                                                )) by {
                                                    if cat.contains_key(tool_deps(cat[k2])[i2])
                                                        && dependencies.unsat().contains(
                                                        tool_deps(cat[k2])[i2],
                                                    ) {
                                                        assert(pre0.unsat().contains(
                                                            tool_deps(cat[k2])[i2],
                                                        ));
                                                        assert(pre0.has_reason(
                                                            k2,
                                                            tool_deps(cat[k2])[i2],
                                                            DependencyErrorType::UnSatisfiedDepencies,
                                                        ));
                                                    }
                                                }
                                            }
                                            assert forall|j: int|
                                                0 <= j < di implies ((cat.contains_key(
                                                #[trigger] dv[j],
                                            ) && dependencies.unsat().contains(dv[j]))
                                                ==> dependencies.has_reason(
                                                key@,
                                                dv[j],
                                                DependencyErrorType::UnSatisfiedDepencies,
                                            )) by {
                                                if cat.contains_key(dv[j])
                                                    && dependencies.unsat().contains(dv[j]) {
                                                    assert(pre0.unsat().contains(dv[j]));
                                                    assert(pre0.has_reason(
                                                        key@,
                                                        dv[j],
                                                        DependencyErrorType::UnSatisfiedDepencies,
                                                    ));
                                                }
                                            }
                                        }
                                        assert(dependencies.has_reason(
                                            key@,
                                            dep@,
                                            DependencyErrorType::UnSatisfiedDepencies,
                                        ));
                                    }
                                }
                                di = di + 1;
                            }
                            proof {
                                assert(!changed ==> swept_at(cat, *dependencies, key@));
                            }
                        },
                    }
                },
            }
            proof {
                if !changed {
                    assert(swept_at(cat, *dependencies, key@)) by {
                        if tool_deps(cat[key@]).len() == 0 {
                        }
                    }
                    assert forall|j: int| 0 <= j < ci + 1 implies swept_at(
                        cat,
                        *dependencies,
                        (#[trigger] dependencies.checked_tool_keys@[j])@,
                    ) by {
                        if j == ci {
                            assert(dependencies.checked_tool_keys@[j]@ == key@);
                        }
                    }
                }
            }
            ci = ci + 1;
        }
        proof {
            if !changed {
                assert forall|k: Seq<char>| #[trigger]
                    dependencies.checked().contains(k) implies swept_at(
                    cat,
                    *dependencies,
                    k,
                ) by {
                    crate::keys::lemma_key_set_contains(dependencies.checked_tool_keys@, k);
                    let j = choose|j: int|
                        0 <= j < dependencies.checked_tool_keys@.len()
                            && dependencies.checked_tool_keys@[j]@ == k;
                    assert(swept_at(cat, *dependencies, dependencies.checked_tool_keys@[j]@));
                }
            }
        }
    }
    proof {
        assert forall|k: Seq<char>| #[trigger] dependencies.checked().contains(k) implies complete(
            cat,
            *dependencies,
            k,
        ) by {
            lemma_complete_from_sweep(cat, *dependencies, k);
        }
    }
}

} // verus!
