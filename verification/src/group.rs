//! A group: a named bundle of tool identifiers that can be requested as
//! one unit.

use vstd::prelude::*;

verus! {

/// A named bundle of tools.  Its members are references by identifier;
/// one that resolves to nothing makes the group unsatisfied, it is not a
/// parse error.
#[derive(Clone, Debug)]
pub struct Group {
    pub name: String,
    /// Identifiers of the member tools, in declaration order.
    pub dependencies: Vec<String>,
}

/// The mathematical content of a [`Group`].
pub ghost struct GroupSpec {
    pub name: Seq<char>,
    pub dependencies: Seq<Seq<char>>,
}

impl View for Group {
    type V = GroupSpec;

    open spec fn view(&self) -> GroupSpec {
        GroupSpec { name: self.name@, dependencies: self.dependencies.deep_view() }
    }
}

/// The configured groups as a mapping from identifier to group.
pub open spec fn groups_view(entries: Seq<(String, Group)>) -> Map<Seq<char>, GroupSpec>
    decreases entries.len(),
{
    if entries.len() == 0 {
        Map::empty()
    } else {
        groups_view(entries.drop_last()).insert(entries.last().0@, entries.last().1@)
    }
}

/// No group identifier is declared twice.
pub open spec fn group_entries_distinct(entries: Seq<(String, Group)>) -> bool {
    forall|i: int, j: int| 0 <= i < j < entries.len() ==> entries[i].0@ != entries[j].0@
}

pub proof fn lemma_groups_view_contains(entries: Seq<(String, Group)>, k: Seq<char>)
    ensures
        groups_view(entries).contains_key(k) <==> exists|i: int|
            0 <= i < entries.len() && entries[i].0@ == k,
    decreases entries.len(),
{
    if entries.len() > 0 {
        lemma_groups_view_contains(entries.drop_last(), k);
        if groups_view(entries).contains_key(k) {
            if entries.last().0@ == k {
                assert(entries[entries.len() - 1].0@ == k);
            } else {
                let i = choose|i: int|
                    0 <= i < entries.drop_last().len() && entries.drop_last()[i].0@ == k;
                assert(entries[i].0@ == k);
            }
        }
        if exists|i: int| 0 <= i < entries.len() && entries[i].0@ == k {
            let i = choose|i: int| 0 <= i < entries.len() && entries[i].0@ == k;
            if i < entries.len() - 1 {
                assert(entries.drop_last()[i].0@ == k);
            }
        }
    }
}

pub proof fn lemma_groups_view_index(entries: Seq<(String, Group)>, i: int)
    requires
        group_entries_distinct(entries),
        0 <= i < entries.len(),
    ensures
        groups_view(entries).contains_key(entries[i].0@),
        groups_view(entries)[entries[i].0@] == entries[i].1@,
    decreases entries.len(),
{
    if i == entries.len() - 1 {
    } else {
        lemma_groups_view_index(entries.drop_last(), i);
        assert(entries.drop_last()[i] == entries[i]);
        assert(entries.last().0@ != entries[i].0@);
    }
}

/// Looks a group identifier up among the configured groups.
pub fn groups_get<'a>(entries: &'a Vec<(String, Group)>, key: &String) -> (r: Option<&'a Group>)
    requires
        group_entries_distinct(entries@),
    ensures
        match r {
            Some(g) => groups_view(entries@).contains_key(key@) && g@ == groups_view(entries@)[
                key@
            ],
            None => !groups_view(entries@).contains_key(key@),
        },
{
    let mut i: usize = 0;
    while i < entries.len()
        invariant
            0 <= i <= entries@.len(),
            group_entries_distinct(entries@),
            forall|j: int| 0 <= j < i ==> entries@[j].0@ != key@,
        decreases entries@.len() - i,
    {
        if entries[i].0 == *key {
            proof {
                lemma_groups_view_index(entries@, i as int);
            }
            return Some(&entries[i].1);
        }
        i = i + 1;
    }
    proof {
        lemma_groups_view_contains(entries@, key@);
    }
    None
}

} // verus!
