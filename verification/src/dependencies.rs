//! The result of one dependency resolution pass: which tools and groups
//! are satisfied, which are not and why, and which identifiers were
//! already expanded (the cycle guard).
//!
//! Cross-references use string identifiers throughout, never references
//! into the catalog: an unsatisfied tool names itself and its offending
//! dependencies by key, and callers look records up in the catalog.

use vstd::prelude::*;
use crate::keys::{key_set, keys_distinct};
use crate::tool::pair_views;

verus! {

/// Why one declared dependency leaves its owner unsatisfied.
#[derive(Clone, Copy, Debug, PartialEq, Eq, Structural)]
pub enum DependencyErrorType {
    /// The dependency identifier resolves to no catalog entry.
    NotFound,
    /// The dependency exists but its own dependency chain is broken.
    UnSatisfiedDepencies,
}

impl DependencyErrorType {
    /// The highlighted tag a listing shows for this kind of error.
    pub fn to_uppercase(&self) -> (r: String)
        ensures
            *self is NotFound ==> r@ == "\x1b[0;31mNOT FOUND\x1b[0m"@,
            *self is UnSatisfiedDepencies ==> r@ == "\x1b[0;33mINVALID DEPENDENCY\x1b[0m"@,
    {
        proof {
            reveal_strlit("\x1b[0;31mNOT FOUND\x1b[0m");
            reveal_strlit("\x1b[0;33mINVALID DEPENDENCY\x1b[0m");
        }
        match self {
            DependencyErrorType::NotFound => String::from_str("\x1b[0;31mNOT FOUND\x1b[0m"),
            DependencyErrorType::UnSatisfiedDepencies => String::from_str(
                "\x1b[0;33mINVALID DEPENDENCY\x1b[0m",
            ),
        }
    }
}

/// One unsatisfied tool: its identifier, the offending dependencies with
/// the reason each one offends, and the declared artifact paths found
/// missing on disk.
#[derive(Clone, Debug)]
pub struct UnSatisfiedTool {
    /// Identifier of the unsatisfied tool.
    pub tool: String,
    /// Offending dependency identifiers, each with its reason.
    pub required: Option<Vec<(String, DependencyErrorType)>>,
    /// Artifact fields whose declared path does not exist, with the path.
    pub paths: Option<Vec<(String, String)>>,
}

/// One unsatisfied group: its identifier and the members that are not
/// satisfied tools.
#[derive(Clone, Debug)]
pub struct UnSatisfiedGroup {
    /// Identifier of the unsatisfied group.
    pub group: String,
    /// The members that kept it from being satisfied, in member order.
    pub unsatisfied_tools: Vec<String>,
}

/// The collections one resolution pass produces.
#[derive(Clone, Debug)]
pub struct Dependencies {
    /// Identifiers already expanded in this pass; the cycle guard.
    pub checked_tool_keys: Vec<String>,
    /// Tools whose whole dependency closure resolves within the catalog.
    pub satisfied_tools: Vec<String>,
    /// Requested groups whose members are all satisfied tools.
    pub satisfied_groups: Vec<String>,
    /// Tools that cannot be acted on, with their diagnostics.
    pub unsatisfied_tools: Vec<UnSatisfiedTool>,
    /// Requested groups with at least one unsatisfied member.
    pub unsatisfied_groups: Vec<UnSatisfiedGroup>,
}

/// The recorded (dependency, reason) pairs of one unsatisfied tool.
pub open spec fn reasons_of(u: UnSatisfiedTool) -> Seq<(Seq<char>, DependencyErrorType)> {
    match u.required {
        Some(v) => v@.map_values(|p: (String, DependencyErrorType)| (p.0@, p.1)),
        None => Seq::empty(),
    }
}

/// The recorded (artifact field, path) pairs of one unsatisfied tool.
pub open spec fn paths_of(u: UnSatisfiedTool) -> Seq<(Seq<char>, Seq<char>)> {
    match u.paths {
        Some(v) => pair_views(v@),
        None => Seq::empty(),
    }
}

impl Dependencies {
    /// Identifiers already expanded.
    pub open spec fn checked(&self) -> Set<Seq<char>> {
        key_set(self.checked_tool_keys@)
    }

    /// Identifiers of the satisfied tools.
    pub open spec fn sat(&self) -> Set<Seq<char>> {
        key_set(self.satisfied_tools@)
    }

    /// Identifiers of the unsatisfied tools.
    pub open spec fn unsat(&self) -> Set<Seq<char>> {
        self.unsatisfied_tools@.map_values(|u: UnSatisfiedTool| u.tool@).to_set()
    }

    /// Identifiers of the satisfied groups.
    pub open spec fn sat_groups(&self) -> Set<Seq<char>> {
        key_set(self.satisfied_groups@)
    }

    /// Identifiers of the unsatisfied groups.
    pub open spec fn unsat_groups(&self) -> Set<Seq<char>> {
        self.unsatisfied_groups@.map_values(|g: UnSatisfiedGroup| g.group@).to_set()
    }

    /// Tool `k` is recorded unsatisfied with dependency `d` offending for
    /// reason `e`.
    pub open spec fn has_reason(&self, k: Seq<char>, d: Seq<char>, e: DependencyErrorType) -> bool {
        exists|i: int, j: int|
            0 <= i < self.unsatisfied_tools@.len() && self.unsatisfied_tools@[i].tool@ == k && 0
                <= j < reasons_of(self.unsatisfied_tools@[i]).len() && reasons_of(
                self.unsatisfied_tools@[i],
            )[j] == (d, e)
    }

    /// Some reason is recorded against dependency `d` of tool `k`.
    pub open spec fn has_dep_reason(&self, k: Seq<char>, d: Seq<char>) -> bool {
        self.has_reason(k, d, DependencyErrorType::NotFound) || self.has_reason(
            k,
            d,
            DependencyErrorType::UnSatisfiedDepencies,
        )
    }

    /// Some dependency reason at all is recorded against tool `k`.
    pub open spec fn has_any_reason(&self, k: Seq<char>) -> bool {
        exists|d: Seq<char>, e: DependencyErrorType| self.has_reason(k, d, e)
    }

    /// Artifact field `f` of tool `k` is recorded with a missing path.
    pub open spec fn has_path_error(&self, k: Seq<char>, f: Seq<char>) -> bool {
        exists|i: int, j: int|
            0 <= i < self.unsatisfied_tools@.len() && self.unsatisfied_tools@[i].tool@ == k && 0
                <= j < paths_of(self.unsatisfied_tools@[i]).len() && paths_of(
                self.unsatisfied_tools@[i],
            )[j].0 == f
    }

    /// Internal shape invariant: every identifier indexes at most one
    /// record, in every collection, and so does every dependency within
    /// one record's reasons.
    pub open spec fn wf(&self) -> bool {
        &&& keys_distinct(self.checked_tool_keys@)
        &&& keys_distinct(self.satisfied_tools@)
        &&& keys_distinct(self.satisfied_groups@)
        &&& forall|i: int, j: int|
            0 <= i < j < self.unsatisfied_tools@.len() ==> self.unsatisfied_tools@[i].tool@
                != self.unsatisfied_tools@[j].tool@
        &&& forall|i: int, j: int|
            0 <= i < j < self.unsatisfied_groups@.len() ==> self.unsatisfied_groups@[i].group@
                != self.unsatisfied_groups@[j].group@
        &&& forall|i: int, a: int, b: int|
            0 <= i < self.unsatisfied_tools@.len() && 0 <= a < b < reasons_of(
                self.unsatisfied_tools@[i],
            ).len() ==> #[trigger] reasons_of(self.unsatisfied_tools@[i])[a].0
                != #[trigger] reasons_of(self.unsatisfied_tools@[i])[b].0
    }

    /// A fresh, empty result.
    pub fn new() -> (r: Dependencies)
        ensures
            r.checked_tool_keys@.len() == 0,
            r.satisfied_tools@.len() == 0,
            r.satisfied_groups@.len() == 0,
            r.unsatisfied_tools@.len() == 0,
            r.unsatisfied_groups@.len() == 0,
            r.wf(),
    {
        Dependencies {
            checked_tool_keys: Vec::new(),
            satisfied_tools: Vec::new(),
            satisfied_groups: Vec::new(),
            unsatisfied_tools: Vec::new(),
            unsatisfied_groups: Vec::new(),
        }
    }

    /// Nothing may be acted on while any tool or group is unsatisfied.
    pub fn validate(&self) -> (r: Result<(), String>)
        ensures
            r is Ok <==> self.unsatisfied_tools@.len() == 0 && self.unsatisfied_groups@.len() == 0,
            r matches Err(m) ==> m@ == " because of previous explanation"@,
    {
        if self.unsatisfied_tools.len() > 0 || self.unsatisfied_groups.len() > 0 {
            proof {
                reveal_strlit(" because of previous explanation");
            }
            Err(String::from_str(" because of previous explanation"))
        } else {
            Ok(())
        }
    }

    /// The index of tool `k` among the unsatisfied tools, if any.
    fn unsat_index(&self, k: &String) -> (r: Option<usize>)
        ensures
            match r {
                Some(i) => i < self.unsatisfied_tools@.len() && self.unsatisfied_tools@[
                    i as int
                ].tool@ == k@,
                None => !self.unsat().contains(k@),
            },
    {
        let mut i: usize = 0;
        while i < self.unsatisfied_tools.len()
            invariant
                0 <= i <= self.unsatisfied_tools@.len(),
                forall|j: int| 0 <= j < i ==> self.unsatisfied_tools@[j].tool@ != k@,
            decreases self.unsatisfied_tools@.len() - i,
        {
            if self.unsatisfied_tools[i].tool == *k {
                return Some(i);
            }
            i = i + 1;
        }
        proof {
            let mapped = self.unsatisfied_tools@.map_values(|u: UnSatisfiedTool| u.tool@);
            if mapped.to_set().contains(k@) {
                let j = choose|j: int| 0 <= j < mapped.len() && mapped[j] == k@;
                assert(self.unsatisfied_tools@[j].tool@ == k@);
            }
        }
        None
    }

    /// The listing tag for dependency `dep_key` of tool `tool_key`:
    /// `None` when the tool is not unsatisfied at all, the reason's tag
    /// when that dependency offends, an empty tag otherwise.
    pub fn get_error_dependencies(&self, tool_key: &String, dep_key: &String) -> (r: Option<
        String,
    >)
        requires
            self.wf(),
        ensures
            r is None <==> !self.unsat().contains(tool_key@),
            r matches Some(s) ==> {
                &&& self.has_reason(tool_key@, dep_key@, DependencyErrorType::NotFound) ==> s@
                    == "\x1b[0;31mNOT FOUND\x1b[0m"@
                &&& self.has_reason(tool_key@, dep_key@, DependencyErrorType::UnSatisfiedDepencies)
                    ==> s@ == "\x1b[0;33mINVALID DEPENDENCY\x1b[0m"@
                &&& !self.has_dep_reason(tool_key@, dep_key@) ==> s@ == ""@
            },
    {
        proof {
            reveal_strlit("");
        }
        match self.unsat_index(tool_key) {
            None => None,
            Some(i) => {
                proof {
                    lemma_unsat_contains(*self, i as int);
                }
                let entry = &self.unsatisfied_tools[i];
                match &entry.required {
                    None => {
                        proof {
                            lemma_reason_entry_unique(*self, tool_key@, dep_key@, i as int);
                        }
                        Some(String::new())
                    },
                    Some(rs) => {
                        let mut j: usize = 0;
                        while j < rs.len()
                            invariant
                                0 <= j <= rs@.len(),
                                forall|a: int| 0 <= a < j ==> rs@[a].0@ != dep_key@,
                                entry == self.unsatisfied_tools@[i as int],
                                entry.required == Some(*rs),
                                i < self.unsatisfied_tools@.len(),
                                self.unsatisfied_tools@[i as int].tool@ == tool_key@,
                                self.unsat().contains(tool_key@),
                                self.wf(),
                            decreases rs@.len() - j,
                        {
                            if rs[j].0 == *dep_key {
                                proof {
                                    assert(reasons_of(self.unsatisfied_tools@[i as int])[j as int]
                                        == (dep_key@, rs@[j as int].1));
                                    lemma_reason_value_unique(
                                        *self,
                                        tool_key@,
                                        dep_key@,
                                        i as int,
                                        j as int,
                                    );
                                }
                                return Some(rs[j].1.to_uppercase());
                            }
                            j = j + 1;
                        }
                        proof {
                            lemma_reason_entry_unique(*self, tool_key@, dep_key@, i as int);
                        }
                        Some(String::new())
                    },
                }
            },
        }
    }

    /// Whether the listing must flag tool `tool_key`: it is unsatisfied
    /// with either dependency reasons or path errors recorded.
    pub fn as_errors(&self, tool_key: &String) -> (r: bool)
        ensures
            r == exists|i: int|
                0 <= i < self.unsatisfied_tools@.len()
                    && (#[trigger] self.unsatisfied_tools@[i]).tool@ == tool_key@
                    && (self.unsatisfied_tools@[i].required is Some
                    || self.unsatisfied_tools@[i].paths is Some),
    {
        let mut i: usize = 0;
        while i < self.unsatisfied_tools.len()
            invariant
                0 <= i <= self.unsatisfied_tools@.len(),
                forall|j: int|
                    0 <= j < i ==> !((#[trigger] self.unsatisfied_tools@[j]).tool@ == tool_key@
                        && (self.unsatisfied_tools@[j].required is Some
                        || self.unsatisfied_tools@[j].paths is Some)),
            decreases self.unsatisfied_tools@.len() - i,
        {
            let entry = &self.unsatisfied_tools[i];
            if entry.tool == *tool_key && (entry.required.is_some() || entry.paths.is_some()) {
                return true;
            }
            i = i + 1;
        }
        false
    }

    /// The listing tag for artifact field `field_key` of tool `tool_key`:
    /// `None` when the tool is not unsatisfied, the invalid-path marker
    /// when that field's path is missing, an empty tag otherwise.
    pub fn get_path_error(&self, tool_key: &String, field_key: &String) -> (r: Option<String>)
        requires
            self.wf(),
        ensures
            r is None <==> !self.unsat().contains(tool_key@),
            r matches Some(s) ==> {
                &&& self.has_path_error(tool_key@, field_key@) ==> s@ == "INVALID PATH"@
                &&& !self.has_path_error(tool_key@, field_key@) ==> s@ == ""@
            },
    {
        proof {
            reveal_strlit("INVALID PATH");
            reveal_strlit("");
        }
        match self.unsat_index(tool_key) {
            None => None,
            Some(i) => {
                proof {
                    lemma_unsat_contains(*self, i as int);
                }
                let entry = &self.unsatisfied_tools[i];
                match &entry.paths {
                    None => {
                        proof {
                            lemma_path_entry_unique(*self, tool_key@, field_key@, i as int);
                        }
                        Some(String::new())
                    },
                    Some(ps) => {
                        let mut j: usize = 0;
                        while j < ps.len()
                            invariant
                                0 <= j <= ps@.len(),
                                forall|a: int| 0 <= a < j ==> ps@[a].0@ != field_key@,
                                entry == self.unsatisfied_tools@[i as int],
                                entry.paths == Some(*ps),
                                i < self.unsatisfied_tools@.len(),
                                self.unsatisfied_tools@[i as int].tool@ == tool_key@,
                                self.unsat().contains(tool_key@),
                                self.wf(),
                            decreases ps@.len() - j,
                        {
                            if ps[j].0 == *field_key {
                                proof {
                                    assert(paths_of(self.unsatisfied_tools@[i as int])[j as int].0
                                        == field_key@);
                                }
                                return Some(String::from_str("INVALID PATH"));
                            }
                            j = j + 1;
                        }
                        proof {
                            lemma_path_entry_unique(*self, tool_key@, field_key@, i as int);
                        }
                        Some(String::new())
                    },
                }
            },
        }
    }
}

impl Dependencies {
    /// Whether tool `k` is recorded unsatisfied.
    pub fn is_unsat(&self, k: &String) -> (r: bool)
        ensures
            r == self.unsat().contains(k@),
    {
        match self.unsat_index(k) {
            Some(i) => {
                proof {
                    lemma_unsat_contains(*self, i as int);
                }
                true
            },
            None => false,
        }
    }

    /// Whether group `k` is recorded unsatisfied.
    pub fn is_unsat_group(&self, k: &String) -> (r: bool)
        ensures
            r == self.unsat_groups().contains(k@),
    {
        proof {
            crate::keys::lemma_map_to_set_contains(
                self.unsatisfied_groups@,
                |g: UnSatisfiedGroup| g.group@,
                k@,
            );
        }
        let mut i: usize = 0;
        while i < self.unsatisfied_groups.len()
            invariant
                0 <= i <= self.unsatisfied_groups@.len(),
                forall|j: int| 0 <= j < i ==> self.unsatisfied_groups@[j].group@ != k@,
            decreases self.unsatisfied_groups@.len() - i,
        {
            if self.unsatisfied_groups[i].group == *k {
                proof {
                    lemma_unsat_group_contains(*self, i as int);
                }
                return true;
            }
            i = i + 1;
        }
        false
    }

    /// Marks one identifier as expanded.
    pub(crate) fn mark_checked(&mut self, k: &String)
        requires
            old(self).wf(),
            !old(self).checked().contains(k@),
        ensures
            final(self).wf(),
            final(self).checked_tool_keys@ == old(self).checked_tool_keys@.push(*k),
            final(self).checked() == old(self).checked().insert(k@),
            final(self).satisfied_tools == old(self).satisfied_tools,
            final(self).satisfied_groups == old(self).satisfied_groups,
            final(self).unsatisfied_tools == old(self).unsatisfied_tools,
            final(self).unsatisfied_groups == old(self).unsatisfied_groups,
    {
        proof {
            crate::keys::lemma_key_set_push(old(self).checked_tool_keys@, *k);
            crate::keys::lemma_key_set_contains(old(self).checked_tool_keys@, k@);
        }
        self.checked_tool_keys.push(k.clone());
    }

    /// Records one identifier as satisfied.
    pub(crate) fn record_sat(&mut self, k: &String)
        requires
            old(self).wf(),
            !old(self).sat().contains(k@),
        ensures
            final(self).wf(),
            final(self).sat() == old(self).sat().insert(k@),
            final(self).checked_tool_keys == old(self).checked_tool_keys,
            final(self).satisfied_groups == old(self).satisfied_groups,
            final(self).unsatisfied_tools == old(self).unsatisfied_tools,
            final(self).unsatisfied_groups == old(self).unsatisfied_groups,
    {
        proof {
            crate::keys::lemma_key_set_push(old(self).satisfied_tools@, *k);
            crate::keys::lemma_key_set_contains(old(self).satisfied_tools@, k@);
        }
        self.satisfied_tools.push(k.clone());
    }

    /// Whether a reason against dependency `dep` is already recorded in
    /// entry `i`.
    fn dep_reason_present(&self, i: usize, dep: &String) -> (r: bool)
        requires
            i < self.unsatisfied_tools@.len(),
        ensures
            r == exists|j: int|
                0 <= j < reasons_of(self.unsatisfied_tools@[i as int]).len() && #[trigger]
                reasons_of(self.unsatisfied_tools@[i as int])[j].0 == dep@,
    {
        let entry = &self.unsatisfied_tools[i];
        match &entry.required {
            None => false,
            Some(rs) => {
                let mut j: usize = 0;
                while j < rs.len()
                    invariant
                        0 <= j <= rs@.len(),
                        forall|a: int| 0 <= a < j ==> rs@[a].0@ != dep@,
                        i < self.unsatisfied_tools@.len(),
                        entry == self.unsatisfied_tools@[i as int],
                        entry.required == Some(*rs),
                    decreases rs@.len() - j,
                {
                    if rs[j].0 == *dep {
                        proof {
                            assert(reasons_of(self.unsatisfied_tools@[i as int])[j as int].0
                                == dep@);
                        }
                        return true;
                    }
                    j = j + 1;
                }
                false
            },
        }
    }

    /// Records tool `k` as unsatisfied, with dependency `dep` offending
    /// for reason `e`; the first reason recorded against a dependency
    /// stands.
    pub(crate) fn record_unsat_dep(&mut self, k: &String, dep: &String, e: DependencyErrorType)
        requires
            old(self).wf(),
        ensures
            final(self).wf(),
            final(self).unsat() == old(self).unsat().insert(k@),
            final(self).checked_tool_keys == old(self).checked_tool_keys,
            final(self).satisfied_tools == old(self).satisfied_tools,
            final(self).satisfied_groups == old(self).satisfied_groups,
            final(self).unsatisfied_groups == old(self).unsatisfied_groups,
            forall|k2: Seq<char>, d2: Seq<char>, e2: DependencyErrorType|
                old(self).has_reason(k2, d2, e2) ==> #[trigger] final(self).has_reason(k2, d2, e2),
            forall|k2: Seq<char>, d2: Seq<char>, e2: DependencyErrorType| #[trigger]
                final(self).has_reason(k2, d2, e2) ==> old(self).has_reason(k2, d2, e2) || (k2 == k@
                    && d2 == dep@ && e2 == e),
            final(self).has_dep_reason(k@, dep@),
            forall|k2: Seq<char>, f2: Seq<char>| #[trigger]
                final(self).has_path_error(k2, f2) == old(self).has_path_error(k2, f2),
    {
        let ghost key_of = |u: UnSatisfiedTool| u.tool@;
        match self.unsat_index(k) {
            None => {
                let mut reasons: Vec<(String, DependencyErrorType)> = Vec::new();
                reasons.push((dep.clone(), e));
                let entry = UnSatisfiedTool { tool: k.clone(), required: Some(reasons), paths: None };
                proof {
                    crate::keys::lemma_map_to_set_push(self.unsatisfied_tools@, key_of, entry);
                    crate::keys::lemma_map_to_set_contains(self.unsatisfied_tools@, key_of, k@);
                }
                let ghost prev = *self;
                self.unsatisfied_tools.push(entry);
                proof {
                    let n = prev.unsatisfied_tools@.len() as int;
                    assert(reasons_of(self.unsatisfied_tools@[n]) =~= seq![(dep@, e)]);
                    assert(self.has_reason(k@, dep@, e)) by {
                        assert(reasons_of(self.unsatisfied_tools@[n])[0] == (dep@, e));
                    }
                    assert forall|k2: Seq<char>, f2: Seq<char>| #[trigger]
                        self.has_path_error(k2, f2) == prev.has_path_error(k2, f2) by {
                        assert(paths_of(self.unsatisfied_tools@[n]) =~= Seq::empty());
                        if prev.has_path_error(k2, f2) {
                            let (i2, j2) = choose|i2: int, j2: int|
                                0 <= i2 < prev.unsatisfied_tools@.len()
                                    && prev.unsatisfied_tools@[i2].tool@ == k2 && 0 <= j2
                                    < paths_of(prev.unsatisfied_tools@[i2]).len() && paths_of(
                                    prev.unsatisfied_tools@[i2],
                                )[j2].0 == f2;
                            assert(self.unsatisfied_tools@[i2] == prev.unsatisfied_tools@[i2]);
                            assert(self.has_path_error(k2, f2));
                        }
                        if self.has_path_error(k2, f2) {
                            let (i2, j2) = choose|i2: int, j2: int|
                                0 <= i2 < self.unsatisfied_tools@.len()
                                    && self.unsatisfied_tools@[i2].tool@ == k2 && 0 <= j2
                                    < paths_of(self.unsatisfied_tools@[i2]).len() && paths_of(
                                    self.unsatisfied_tools@[i2],
                                )[j2].0 == f2;
                            assert(i2 != n);
                            assert(prev.unsatisfied_tools@[i2] == self.unsatisfied_tools@[i2]);
                            assert(prev.has_path_error(k2, f2));
                        }
                    }
                    assert forall|k2: Seq<char>, d2: Seq<char>, e2: DependencyErrorType|
                        prev.has_reason(k2, d2, e2) implies #[trigger] self.has_reason(
                        k2,
                        d2,
                        e2,
                    ) by {
                        let (i2, j2) = choose|i2: int, j2: int|
                            0 <= i2 < prev.unsatisfied_tools@.len()
                                && prev.unsatisfied_tools@[i2].tool@ == k2 && 0 <= j2 < reasons_of(
                                prev.unsatisfied_tools@[i2],
                            ).len() && reasons_of(prev.unsatisfied_tools@[i2])[j2] == (d2, e2);
                        assert(self.unsatisfied_tools@[i2] == prev.unsatisfied_tools@[i2]);
                    }
                    assert forall|k2: Seq<char>, d2: Seq<char>, e2: DependencyErrorType| #[trigger]
                        self.has_reason(k2, d2, e2) implies prev.has_reason(k2, d2, e2) || (k2 == k@
                        && d2 == dep@ && e2 == e) by {
                        let (i2, j2) = choose|i2: int, j2: int|
                            0 <= i2 < self.unsatisfied_tools@.len()
                                && self.unsatisfied_tools@[i2].tool@ == k2 && 0 <= j2 < reasons_of(
                                self.unsatisfied_tools@[i2],
                            ).len() && reasons_of(self.unsatisfied_tools@[i2])[j2] == (d2, e2);
                        if i2 < n {
                            assert(prev.unsatisfied_tools@[i2] == self.unsatisfied_tools@[i2]);
                        } else {
                            assert(reasons_of(self.unsatisfied_tools@[n])[j2] == (dep@, e));
                        }
                    }
                }
            },
            Some(i) => {
                proof {
                    lemma_unsat_contains(*self, i as int);
                    assert(old(self).unsat().insert(k@) =~= old(self).unsat());
                }
                if self.dep_reason_present(i, dep) {
                    proof {
                        let j = choose|j: int|
                            0 <= j < reasons_of(self.unsatisfied_tools@[i as int]).len()
                                && #[trigger] reasons_of(self.unsatisfied_tools@[i as int])[j].0
                                == dep@;
                        assert(reasons_of(self.unsatisfied_tools@[i as int])[j] == (
                            dep@,
                            reasons_of(self.unsatisfied_tools@[i as int])[j].1,
                        ));
                        assert(self.has_reason(
                            k@,
                            dep@,
                            reasons_of(self.unsatisfied_tools@[i as int])[j].1,
                        ));
                    }
                    return ;
                }
                let ghost prev = *self;
                let entry = &mut self.unsatisfied_tools[i];
                if entry.required.is_none() {
                    let mut reasons: Vec<(String, DependencyErrorType)> = Vec::new();
                    reasons.push((dep.clone(), e));
                    entry.required = Some(reasons);
                } else {
                    match &mut entry.required {
                        Some(v) => v.push((dep.clone(), e)),
                        None => {
                            proof {
                                assert(false);
                            }
                        },
                    }
                }
                proof {
                    let n = i as int;
                    let old_entry = prev.unsatisfied_tools@[n];
                    let new_entry = self.unsatisfied_tools@[n];
                    assert(self.unsatisfied_tools@ =~= prev.unsatisfied_tools@.update(
                        n,
                        new_entry,
                    ));
                    assert(new_entry.tool == old_entry.tool);
                    assert(new_entry.paths == old_entry.paths);
                    assert(reasons_of(new_entry) =~= reasons_of(old_entry).push((dep@, e)));
                    crate::keys::lemma_map_to_set_update(
                        prev.unsatisfied_tools@,
                        key_of,
                        n,
                        new_entry,
                    );
                    assert(self.unsat() == prev.unsat());
                    assert(self.has_reason(k@, dep@, e)) by {
                        assert(reasons_of(self.unsatisfied_tools@[n])[reasons_of(old_entry).len()
                            as int] == (dep@, e));
                    }
                    assert forall|k2: Seq<char>, f2: Seq<char>| #[trigger]
                        self.has_path_error(k2, f2) == prev.has_path_error(k2, f2) by {
                        if prev.has_path_error(k2, f2) {
                            let (i2, j2) = choose|i2: int, j2: int|
                                0 <= i2 < prev.unsatisfied_tools@.len()
                                    && prev.unsatisfied_tools@[i2].tool@ == k2 && 0 <= j2
                                    < paths_of(prev.unsatisfied_tools@[i2]).len() && paths_of(
                                    prev.unsatisfied_tools@[i2],
                                )[j2].0 == f2;
                            assert(paths_of(self.unsatisfied_tools@[i2]) == paths_of(
                                prev.unsatisfied_tools@[i2],
                            ));
                            assert(self.unsatisfied_tools@[i2].tool@ == k2);
                            assert(self.has_path_error(k2, f2));
                        }
                        if self.has_path_error(k2, f2) {
                            let (i2, j2) = choose|i2: int, j2: int|
                                0 <= i2 < self.unsatisfied_tools@.len()
                                    && self.unsatisfied_tools@[i2].tool@ == k2 && 0 <= j2
                                    < paths_of(self.unsatisfied_tools@[i2]).len() && paths_of(
                                    self.unsatisfied_tools@[i2],
                                )[j2].0 == f2;
                            assert(paths_of(prev.unsatisfied_tools@[i2]) == paths_of(
                                self.unsatisfied_tools@[i2],
                            ));
                            assert(prev.has_path_error(k2, f2));
                        }
                    }
                    assert forall|k2: Seq<char>, d2: Seq<char>, e2: DependencyErrorType|
                        prev.has_reason(k2, d2, e2) implies #[trigger] self.has_reason(
                        k2,
                        d2,
                        e2,
                    ) by {
                        let (i2, j2) = choose|i2: int, j2: int|
                            0 <= i2 < prev.unsatisfied_tools@.len()
                                && prev.unsatisfied_tools@[i2].tool@ == k2 && 0 <= j2 < reasons_of(
                                prev.unsatisfied_tools@[i2],
                            ).len() && reasons_of(prev.unsatisfied_tools@[i2])[j2] == (d2, e2);
                        if i2 == n {
                            assert(reasons_of(self.unsatisfied_tools@[n])[j2] == (d2, e2));
                        } else {
                            assert(self.unsatisfied_tools@[i2] == prev.unsatisfied_tools@[i2]);
                        }
                    }
                    assert forall|k2: Seq<char>, d2: Seq<char>, e2: DependencyErrorType| #[trigger]
                        self.has_reason(k2, d2, e2) implies prev.has_reason(k2, d2, e2) || (k2 == k@
                        && d2 == dep@ && e2 == e) by {
                        let (i2, j2) = choose|i2: int, j2: int|
                            0 <= i2 < self.unsatisfied_tools@.len()
                                && self.unsatisfied_tools@[i2].tool@ == k2 && 0 <= j2 < reasons_of(
                                self.unsatisfied_tools@[i2],
                            ).len() && reasons_of(self.unsatisfied_tools@[i2])[j2] == (d2, e2);
                        if i2 == n {
                            if j2 < reasons_of(old_entry).len() {
                                assert(reasons_of(prev.unsatisfied_tools@[n])[j2] == (d2, e2));
                            }
                        } else {
                            assert(prev.unsatisfied_tools@[i2] == self.unsatisfied_tools@[i2]);
                        }
                    }
                    assert forall|a: int, b: int|
                        0 <= a < b < reasons_of(new_entry).len() implies reasons_of(new_entry)[a].0
                        != reasons_of(new_entry)[b].0 by {
                        if b == reasons_of(old_entry).len() {
                            assert(reasons_of(old_entry)[a].0 != dep@);
                        }
                    }
                }
            },
        }
    }
}

impl Dependencies {
    /// The index of `k` among the satisfied tools, if any.
    fn sat_index(&self, k: &String) -> (r: Option<usize>)
        ensures
            match r {
                Some(i) => i < self.satisfied_tools@.len() && self.satisfied_tools@[i as int]@
                    == k@,
                None => !self.sat().contains(k@),
            },
    {
        let mut i: usize = 0;
        while i < self.satisfied_tools.len()
            invariant
                0 <= i <= self.satisfied_tools@.len(),
                forall|j: int| 0 <= j < i ==> self.satisfied_tools@[j]@ != k@,
            decreases self.satisfied_tools@.len() - i,
        {
            if self.satisfied_tools[i] == *k {
                return Some(i);
            }
            i = i + 1;
        }
        proof {
            crate::keys::lemma_key_set_contains(self.satisfied_tools@, k@);
        }
        None
    }

    /// Takes one identifier out of the satisfied set.
    pub(crate) fn remove_sat(&mut self, k: &String)
        requires
            old(self).wf(),
            old(self).sat().contains(k@),
        ensures
            final(self).wf(),
            final(self).sat() == old(self).sat().remove(k@),
            final(self).satisfied_tools@.len() == old(self).satisfied_tools@.len() - 1,
            final(self).checked_tool_keys == old(self).checked_tool_keys,
            final(self).satisfied_groups == old(self).satisfied_groups,
            final(self).unsatisfied_tools == old(self).unsatisfied_tools,
            final(self).unsatisfied_groups == old(self).unsatisfied_groups,
    {
        match self.sat_index(k) {
            Some(i) => {
                proof {
                    crate::keys::lemma_map_to_set_remove(
                        self.satisfied_tools@,
                        |s: String| s@,
                        i as int,
                    );
                    crate::keys::lemma_keys_distinct_remove(self.satisfied_tools@, i as int);
                }
                self.satisfied_tools.remove(i);
            },
            None => {
                proof {
                    assert(false);
                }
            },
        }
    }

    /// Merges path diagnostics for one tool: a tool with a missing
    /// artifact path leaves the satisfied set and is recorded
    /// unsatisfied, its path errors beside whatever dependency reasons it
    /// already carries.  With nothing invalid, nothing changes.
    #[verifier::rlimit(80)]
    pub fn record_invalid_paths(&mut self, tool_key: &String, invalid: Vec<(String, String)>)
        requires
            old(self).wf(),
        ensures
            final(self).wf(),
            invalid@.len() == 0 ==> *final(self) == *old(self),
            invalid@.len() > 0 ==> {
                &&& final(self).sat() == old(self).sat().remove(tool_key@)
                &&& final(self).unsat() == old(self).unsat().insert(tool_key@)
                &&& final(self).checked_tool_keys == old(self).checked_tool_keys
                &&& final(self).satisfied_groups == old(self).satisfied_groups
                &&& final(self).unsatisfied_groups == old(self).unsatisfied_groups
                &&& forall|k2: Seq<char>, d2: Seq<char>, e2: DependencyErrorType|
                    #![trigger final(self).has_reason(k2, d2, e2)]
                    #![trigger old(self).has_reason(k2, d2, e2)]
                    final(self).has_reason(k2, d2, e2) == old(self).has_reason(k2, d2, e2)
                &&& forall|k2: Seq<char>, f2: Seq<char>|
                    #![trigger final(self).has_path_error(k2, f2)]
                    final(self).has_path_error(k2, f2) <==> old(self).has_path_error(k2, f2) || (
                    k2 == tool_key@ && exists|j: int|
                        0 <= j < invalid@.len() && (#[trigger] invalid@[j].0)@ == f2)
            },
    {
        if invalid.len() == 0 {
            return ;
        }
        let ghost key_of = |u: UnSatisfiedTool| u.tool@;
        match self.sat_index(tool_key) {
            Some(i) => {
                proof {
                    crate::keys::lemma_map_to_set_remove(
                        self.satisfied_tools@,
                        |s: String| s@,
                        i as int,
                    );
                    crate::keys::lemma_keys_distinct_remove(self.satisfied_tools@, i as int);
                }
                self.satisfied_tools.remove(i);
            },
            None => {
                proof {
                    assert(old(self).sat().remove(tool_key@) =~= old(self).sat());
                }
            },
        }
        let ghost mid = *self;
        match self.unsat_index(tool_key) {
            None => {
                let entry = UnSatisfiedTool {
                    tool: tool_key.clone(),
                    required: None,
                    paths: Some(invalid),
                };
                proof {
                    crate::keys::lemma_map_to_set_push(self.unsatisfied_tools@, key_of, entry);
                    crate::keys::lemma_map_to_set_contains(
                        self.unsatisfied_tools@,
                        key_of,
                        tool_key@,
                    );
                }
                let ghost prev = *self;
                self.unsatisfied_tools.push(entry);
                proof {
                    let n = prev.unsatisfied_tools@.len() as int;
                    assert(reasons_of(self.unsatisfied_tools@[n]) =~= Seq::empty());
                    assert forall|k2: Seq<char>, d2: Seq<char>, e2: DependencyErrorType|
                        #![trigger self.has_reason(k2, d2, e2)]
                        #![trigger prev.has_reason(k2, d2, e2)]
                        self.has_reason(k2, d2, e2) == prev.has_reason(k2, d2, e2) by {
                        if prev.has_reason(k2, d2, e2) {
                            let (i2, j2) = choose|i2: int, j2: int|
                                0 <= i2 < prev.unsatisfied_tools@.len()
                                    && prev.unsatisfied_tools@[i2].tool@ == k2 && 0 <= j2
                                    < reasons_of(prev.unsatisfied_tools@[i2]).len() && reasons_of(
                                    prev.unsatisfied_tools@[i2],
                                )[j2] == (d2, e2);
                            assert(self.unsatisfied_tools@[i2] == prev.unsatisfied_tools@[i2]);
                            assert(self.has_reason(k2, d2, e2));
                        }
                        if self.has_reason(k2, d2, e2) {
                            let (i2, j2) = choose|i2: int, j2: int|
                                0 <= i2 < self.unsatisfied_tools@.len()
                                    && self.unsatisfied_tools@[i2].tool@ == k2 && 0 <= j2
                                    < reasons_of(self.unsatisfied_tools@[i2]).len() && reasons_of(
                                    self.unsatisfied_tools@[i2],
                                )[j2] == (d2, e2);
                            assert(i2 != n);
                            assert(prev.has_reason(k2, d2, e2));
                        }
                    }
                    assert forall|k2: Seq<char>, f2: Seq<char>|
                        #![trigger self.has_path_error(k2, f2)]
                        self.has_path_error(k2, f2) <==> prev.has_path_error(k2, f2) || (k2
                        == tool_key@ && exists|j: int|
                        0 <= j < invalid@.len() && (#[trigger] invalid@[j].0)@ == f2) by {
                        if prev.has_path_error(k2, f2) {
                            let (i2, j2) = choose|i2: int, j2: int|
                                0 <= i2 < prev.unsatisfied_tools@.len()
                                    && prev.unsatisfied_tools@[i2].tool@ == k2 && 0 <= j2
                                    < paths_of(prev.unsatisfied_tools@[i2]).len() && paths_of(
                                    prev.unsatisfied_tools@[i2],
                                )[j2].0 == f2;
                            assert(self.unsatisfied_tools@[i2] == prev.unsatisfied_tools@[i2]);
                            assert(self.has_path_error(k2, f2));
                        }
                        if k2 == tool_key@ && exists|j: int|
                            0 <= j < invalid@.len() && (#[trigger] invalid@[j].0)@ == f2 {
                            let j = choose|j: int|
                                0 <= j < invalid@.len() && (#[trigger] invalid@[j].0)@ == f2;
                            assert(paths_of(self.unsatisfied_tools@[n])[j].0 == f2);
                            assert(self.has_path_error(k2, f2));
                        }
                        if self.has_path_error(k2, f2) {
                            let (i2, j2) = choose|i2: int, j2: int|
                                0 <= i2 < self.unsatisfied_tools@.len()
                                    && self.unsatisfied_tools@[i2].tool@ == k2 && 0 <= j2
                                    < paths_of(self.unsatisfied_tools@[i2]).len() && paths_of(
                                    self.unsatisfied_tools@[i2],
                                )[j2].0 == f2;
                            if i2 < n {
                                assert(prev.unsatisfied_tools@[i2] == self.unsatisfied_tools@[i2]);
                                assert(prev.has_path_error(k2, f2));
                            } else {
                                assert((invalid@[j2].0)@ == f2);
                            }
                        }
                    }
                    assert(self.wf()) by {
                        assert forall|i2: int, j2: int|
                            0 <= i2 < j2 < self.unsatisfied_tools@.len() implies
                            self.unsatisfied_tools@[i2].tool@ != self.unsatisfied_tools@[j2].tool@ by {
                            if j2 == n {
                                assert(key_of(prev.unsatisfied_tools@[i2]) != tool_key@);
                            }
                        }
                        assert forall|i2: int, a: int, b: int|
                            0 <= i2 < self.unsatisfied_tools@.len() && 0 <= a < b < reasons_of(
                                self.unsatisfied_tools@[i2],
                            ).len() implies #[trigger] reasons_of(self.unsatisfied_tools@[i2])[a].0
                            != #[trigger] reasons_of(self.unsatisfied_tools@[i2])[b].0 by {
                            if i2 < n {
                                assert(self.unsatisfied_tools@[i2] == prev.unsatisfied_tools@[i2]);
                            }
                        }
                    }
                }
            },
            Some(i) => {
                proof {
                    lemma_unsat_contains(*self, i as int);
                    assert(mid.unsat().insert(tool_key@) =~= mid.unsat());
                }
                let ghost prev = *self;
                let ghost old_entry = self.unsatisfied_tools@[i as int];
                let mut addition = invalid;
                let entry = &mut self.unsatisfied_tools[i];
                if entry.paths.is_none() {
                    entry.paths = Some(addition);
                } else {
                    match &mut entry.paths {
                        Some(v) => v.append(&mut addition),
                        None => {
                            proof {
                                assert(false);
                            }
                        },
                    }
                }
                proof {
                    let n = i as int;
                    let new_entry = self.unsatisfied_tools@[n];
                    assert(self.unsatisfied_tools@ =~= prev.unsatisfied_tools@.update(
                        n,
                        new_entry,
                    ));
                    assert(new_entry.tool == old_entry.tool);
                    assert(new_entry.required == old_entry.required);
                    assert(reasons_of(new_entry) == reasons_of(old_entry));
                    assert(paths_of(new_entry) =~= paths_of(old_entry) + crate::tool::pair_views(
                        invalid@,
                    ));
                    crate::keys::lemma_map_to_set_update(
                        prev.unsatisfied_tools@,
                        key_of,
                        n,
                        new_entry,
                    );
                    assert(self.unsat() == prev.unsat());
                    assert forall|k2: Seq<char>, d2: Seq<char>, e2: DependencyErrorType|
                        #![trigger self.has_reason(k2, d2, e2)]
                        #![trigger prev.has_reason(k2, d2, e2)]
                        self.has_reason(k2, d2, e2) == prev.has_reason(k2, d2, e2) by {
                        if prev.has_reason(k2, d2, e2) {
                            let (i2, j2) = choose|i2: int, j2: int|
                                0 <= i2 < prev.unsatisfied_tools@.len()
                                    && prev.unsatisfied_tools@[i2].tool@ == k2 && 0 <= j2
                                    < reasons_of(prev.unsatisfied_tools@[i2]).len() && reasons_of(
                                    prev.unsatisfied_tools@[i2],
                                )[j2] == (d2, e2);
                            if i2 == n {
                                assert(reasons_of(self.unsatisfied_tools@[n]) == reasons_of(
                                    prev.unsatisfied_tools@[n],
                                ));
                            } else {
                                assert(self.unsatisfied_tools@[i2] == prev.unsatisfied_tools@[i2]);
                            }
                            assert(self.has_reason(k2, d2, e2));
                        }
                        if self.has_reason(k2, d2, e2) {
                            let (i2, j2) = choose|i2: int, j2: int|
                                0 <= i2 < self.unsatisfied_tools@.len()
                                    && self.unsatisfied_tools@[i2].tool@ == k2 && 0 <= j2
                                    < reasons_of(self.unsatisfied_tools@[i2]).len() && reasons_of(
                                    self.unsatisfied_tools@[i2],
                                )[j2] == (d2, e2);
                            if i2 == n {
                                assert(reasons_of(prev.unsatisfied_tools@[n]) == reasons_of(
                                    self.unsatisfied_tools@[n],
                                ));
                            } else {
                                assert(prev.unsatisfied_tools@[i2] == self.unsatisfied_tools@[i2]);
                            }
                            assert(prev.has_reason(k2, d2, e2));
                        }
                    }
                    assert forall|k2: Seq<char>, f2: Seq<char>|
                        #![trigger self.has_path_error(k2, f2)]
                        self.has_path_error(k2, f2) <==> prev.has_path_error(k2, f2) || (k2
                        == tool_key@ && exists|j: int|
                        0 <= j < invalid@.len() && (#[trigger] invalid@[j].0)@ == f2) by {
                        if prev.has_path_error(k2, f2) {
                            let (i2, j2) = choose|i2: int, j2: int|
                                0 <= i2 < prev.unsatisfied_tools@.len()
                                    && prev.unsatisfied_tools@[i2].tool@ == k2 && 0 <= j2
                                    < paths_of(prev.unsatisfied_tools@[i2]).len() && paths_of(
                                    prev.unsatisfied_tools@[i2],
                                )[j2].0 == f2;
                            if i2 == n {
                                assert(paths_of(self.unsatisfied_tools@[n])[j2].0 == f2);
                            } else {
                                assert(self.unsatisfied_tools@[i2] == prev.unsatisfied_tools@[i2]);
                            }
                            assert(self.has_path_error(k2, f2));
                        }
                        if k2 == tool_key@ && exists|j: int|
                            0 <= j < invalid@.len() && (#[trigger] invalid@[j].0)@ == f2 {
                            let j = choose|j: int|
                                0 <= j < invalid@.len() && (#[trigger] invalid@[j].0)@ == f2;
                            assert(paths_of(self.unsatisfied_tools@[n])[paths_of(old_entry).len()
                                + j].0 == f2);
                            assert(self.has_path_error(k2, f2));
                        }
                        if self.has_path_error(k2, f2) {
                            let (i2, j2) = choose|i2: int, j2: int|
                                0 <= i2 < self.unsatisfied_tools@.len()
                                    && self.unsatisfied_tools@[i2].tool@ == k2 && 0 <= j2
                                    < paths_of(self.unsatisfied_tools@[i2]).len() && paths_of(
                                    self.unsatisfied_tools@[i2],
                                )[j2].0 == f2;
                            if i2 == n {
                                if j2 < paths_of(old_entry).len() {
                                    assert(paths_of(prev.unsatisfied_tools@[n])[j2].0 == f2);
                                    assert(prev.has_path_error(k2, f2));
                                } else {
                                    assert((invalid@[j2 - paths_of(old_entry).len()].0)@ == f2);
                                }
                            } else {
                                assert(prev.unsatisfied_tools@[i2] == self.unsatisfied_tools@[i2]);
                                assert(prev.has_path_error(k2, f2));
                            }
                        }
                    }
                    assert(self.wf()) by {
                        assert forall|i2: int, j2: int|
                            0 <= i2 < j2 < self.unsatisfied_tools@.len() implies
                            self.unsatisfied_tools@[i2].tool@ != self.unsatisfied_tools@[j2].tool@ by {
                            assert(self.unsatisfied_tools@[i2].tool@
                                == prev.unsatisfied_tools@[i2].tool@);
                            assert(self.unsatisfied_tools@[j2].tool@
                                == prev.unsatisfied_tools@[j2].tool@);
                        }
                        assert forall|i2: int, a: int, b: int|
                            0 <= i2 < self.unsatisfied_tools@.len() && 0 <= a < b < reasons_of(
                                self.unsatisfied_tools@[i2],
                            ).len() implies #[trigger] reasons_of(self.unsatisfied_tools@[i2])[a].0
                            != #[trigger] reasons_of(self.unsatisfied_tools@[i2])[b].0 by {
                            if i2 == n {
                                assert(reasons_of(self.unsatisfied_tools@[n]) == reasons_of(
                                    prev.unsatisfied_tools@[n],
                                ));
                            } else {
                                assert(self.unsatisfied_tools@[i2] == prev.unsatisfied_tools@[i2]);
                            }
                        }
                    }
                }
            },
        }
    }
}

/// Two results with the same unsatisfied-tool records agree on every
/// diagnostic.
pub proof fn lemma_same_entries_same_reasons(d1: Dependencies, d2: Dependencies)
    requires
        d1.unsatisfied_tools == d2.unsatisfied_tools,
    ensures
        forall|k: Seq<char>, d: Seq<char>, e: DependencyErrorType|
            #![trigger d1.has_reason(k, d, e)]
            #![trigger d2.has_reason(k, d, e)]
            d1.has_reason(k, d, e) == d2.has_reason(k, d, e),
        forall|k: Seq<char>|
            #![trigger d1.has_any_reason(k)]
            #![trigger d2.has_any_reason(k)]
            d1.has_any_reason(k) == d2.has_any_reason(k),
        forall|k: Seq<char>, f: Seq<char>|
            #![trigger d1.has_path_error(k, f)]
            #![trigger d2.has_path_error(k, f)]
            d1.has_path_error(k, f) == d2.has_path_error(k, f),
        d1.unsat() == d2.unsat(),
{
    assert forall|k: Seq<char>, d: Seq<char>, e: DependencyErrorType|
        #![trigger d1.has_reason(k, d, e)]
        #![trigger d2.has_reason(k, d, e)]
        d1.has_reason(k, d, e) == d2.has_reason(k, d, e) by {
        if d1.has_reason(k, d, e) {
            let (i, j) = choose|i: int, j: int|
                0 <= i < d1.unsatisfied_tools@.len() && d1.unsatisfied_tools@[i].tool@ == k && 0
                    <= j < reasons_of(d1.unsatisfied_tools@[i]).len() && reasons_of(
                    d1.unsatisfied_tools@[i],
                )[j] == (d, e);
            assert(d2.has_reason(k, d, e));
        }
        if d2.has_reason(k, d, e) {
            let (i, j) = choose|i: int, j: int|
                0 <= i < d2.unsatisfied_tools@.len() && d2.unsatisfied_tools@[i].tool@ == k && 0
                    <= j < reasons_of(d2.unsatisfied_tools@[i]).len() && reasons_of(
                    d2.unsatisfied_tools@[i],
                )[j] == (d, e);
            assert(d1.has_reason(k, d, e));
        }
    }
    assert forall|k: Seq<char>|
        #![trigger d1.has_any_reason(k)]
        #![trigger d2.has_any_reason(k)]
        d1.has_any_reason(k) == d2.has_any_reason(k) by {
        if d1.has_any_reason(k) {
            let (d, e) = choose|d: Seq<char>, e: DependencyErrorType| d1.has_reason(k, d, e);
            assert(d2.has_reason(k, d, e));
        }
        if d2.has_any_reason(k) {
            let (d, e) = choose|d: Seq<char>, e: DependencyErrorType| d2.has_reason(k, d, e);
            assert(d1.has_reason(k, d, e));
        }
    }
    assert forall|k: Seq<char>, f: Seq<char>|
        #![trigger d1.has_path_error(k, f)]
        #![trigger d2.has_path_error(k, f)]
        d1.has_path_error(k, f) == d2.has_path_error(k, f) by {
        if d1.has_path_error(k, f) {
            let (i, j) = choose|i: int, j: int|
                0 <= i < d1.unsatisfied_tools@.len() && d1.unsatisfied_tools@[i].tool@ == k && 0
                    <= j < paths_of(d1.unsatisfied_tools@[i]).len() && paths_of(
                    d1.unsatisfied_tools@[i],
                )[j].0 == f;
            assert(d2.has_path_error(k, f));
        }
        if d2.has_path_error(k, f) {
            let (i, j) = choose|i: int, j: int|
                0 <= i < d2.unsatisfied_tools@.len() && d2.unsatisfied_tools@[i].tool@ == k && 0
                    <= j < paths_of(d2.unsatisfied_tools@[i]).len() && paths_of(
                    d2.unsatisfied_tools@[i],
                )[j].0 == f;
            assert(d1.has_path_error(k, f));
        }
    }
}

/// The group at a valid index of the unsatisfied-group list is in the
/// unsatisfied-group set.
pub proof fn lemma_unsat_group_contains(d: Dependencies, i: int)
    requires
        0 <= i < d.unsatisfied_groups@.len(),
    ensures
        d.unsat_groups().contains(d.unsatisfied_groups@[i].group@),
{
    let mapped = d.unsatisfied_groups@.map_values(|g: UnSatisfiedGroup| g.group@);
    assert(mapped[i] == d.unsatisfied_groups@[i].group@);
    assert(mapped.contains(mapped[i]));
}

/// The tool at a valid index of the unsatisfied list is in the
/// unsatisfied set.
pub proof fn lemma_unsat_contains(d: Dependencies, i: int)
    requires
        0 <= i < d.unsatisfied_tools@.len(),
    ensures
        d.unsat().contains(d.unsatisfied_tools@[i].tool@),
{
    let mapped = d.unsatisfied_tools@.map_values(|u: UnSatisfiedTool| u.tool@);
    assert(mapped[i] == d.unsatisfied_tools@[i].tool@);
    assert(mapped.contains(mapped[i]));
}

/// Under `wf`, the reason recorded at position `j` of `k`'s entry is the
/// only reason against that dependency.
proof fn lemma_reason_value_unique(d: Dependencies, k: Seq<char>, dep: Seq<char>, i: int, j: int)
    requires
        d.wf(),
        0 <= i < d.unsatisfied_tools@.len(),
        d.unsatisfied_tools@[i].tool@ == k,
        0 <= j < reasons_of(d.unsatisfied_tools@[i]).len(),
        reasons_of(d.unsatisfied_tools@[i])[j].0 == dep,
    ensures
        forall|e: DependencyErrorType| #[trigger] d.has_reason(k, dep, e) ==> e == reasons_of(
            d.unsatisfied_tools@[i],
        )[j].1,
{
    assert forall|e: DependencyErrorType| #[trigger] d.has_reason(k, dep, e) implies e
        == reasons_of(d.unsatisfied_tools@[i])[j].1 by {
        let (i2, j2) = choose|i2: int, j2: int|
            0 <= i2 < d.unsatisfied_tools@.len() && d.unsatisfied_tools@[i2].tool@ == k && 0 <= j2
                < reasons_of(d.unsatisfied_tools@[i2]).len() && reasons_of(
                d.unsatisfied_tools@[i2],
            )[j2] == (dep, e);
        if i2 < i {
            assert(d.unsatisfied_tools@[i2].tool@ != d.unsatisfied_tools@[i].tool@);
        } else if i < i2 {
            assert(d.unsatisfied_tools@[i].tool@ != d.unsatisfied_tools@[i2].tool@);
        }
        assert(i2 == i);
        if j2 < j {
            assert(reasons_of(d.unsatisfied_tools@[i])[j2].0 != reasons_of(
                d.unsatisfied_tools@[i],
            )[j].0);
        } else if j < j2 {
            assert(reasons_of(d.unsatisfied_tools@[i])[j].0 != reasons_of(
                d.unsatisfied_tools@[i],
            )[j2].0);
        }
        assert(j2 == j);
    }
}

/// Under `wf`, reasons against tool `k` live only in entry `i` when that
/// entry is `k`'s.
proof fn lemma_reason_entry_unique(d: Dependencies, k: Seq<char>, dep: Seq<char>, i: int)
    requires
        d.wf(),
        0 <= i < d.unsatisfied_tools@.len(),
        d.unsatisfied_tools@[i].tool@ == k,
        forall|j: int| 0 <= j < reasons_of(d.unsatisfied_tools@[i]).len() ==> reasons_of(
            d.unsatisfied_tools@[i],
        )[j].0 != dep,
    ensures
        !d.has_dep_reason(k, dep),
{
    assert forall|e: DependencyErrorType| !d.has_reason(k, dep, e) by {
        if d.has_reason(k, dep, e) {
            let (i2, j2) = choose|i2: int, j2: int|
                0 <= i2 < d.unsatisfied_tools@.len() && d.unsatisfied_tools@[i2].tool@ == k && 0
                    <= j2 < reasons_of(d.unsatisfied_tools@[i2]).len() && reasons_of(
                    d.unsatisfied_tools@[i2],
                )[j2] == (dep, e);
            if i2 < i {
                assert(d.unsatisfied_tools@[i2].tool@ != d.unsatisfied_tools@[i].tool@);
            } else if i < i2 {
                assert(d.unsatisfied_tools@[i].tool@ != d.unsatisfied_tools@[i2].tool@);
            }
            assert(i2 == i);
            assert(reasons_of(d.unsatisfied_tools@[i])[j2].0 != dep);
        }
    }
}

/// Under `wf`, path errors against tool `k` live only in entry `i` when
/// that entry is `k`'s.
proof fn lemma_path_entry_unique(d: Dependencies, k: Seq<char>, f: Seq<char>, i: int)
    requires
        d.wf(),
        0 <= i < d.unsatisfied_tools@.len(),
        d.unsatisfied_tools@[i].tool@ == k,
        forall|j: int| 0 <= j < paths_of(d.unsatisfied_tools@[i]).len() ==> paths_of(
            d.unsatisfied_tools@[i],
        )[j].0 != f,
    ensures
        !d.has_path_error(k, f),
{
    if d.has_path_error(k, f) {
        let (i2, j2) = choose|i2: int, j2: int|
            0 <= i2 < d.unsatisfied_tools@.len() && d.unsatisfied_tools@[i2].tool@ == k && 0 <= j2
                < paths_of(d.unsatisfied_tools@[i2]).len() && paths_of(
                d.unsatisfied_tools@[i2],
            )[j2].0 == f;
        if i2 < i {
            assert(d.unsatisfied_tools@[i2].tool@ != d.unsatisfied_tools@[i].tool@);
        } else if i < i2 {
            assert(d.unsatisfied_tools@[i].tool@ != d.unsatisfied_tools@[i2].tool@);
        }
        assert(i2 == i);
        assert(paths_of(d.unsatisfied_tools@[i])[j2].0 != f);
    }
}

} // verus!
