//! Identifier lists and their set view.
//!
//! Throughout the library, tools and groups are cross-referenced by their
//! string identifiers.  This module gives a `Vec<String>` of identifiers a
//! mathematical view as a set of character sequences, and the few exec
//! helpers that scan such lists.

use vstd::prelude::*;
use vstd::seq_lib::*;

verus! {

/// The set of identifiers a list holds, ignoring order and multiplicity.
pub open spec fn key_set(keys: Seq<String>) -> Set<Seq<char>> {
    keys.map_values(|s: String| s@).to_set()
}

/// No identifier occurs twice.
pub open spec fn keys_distinct(keys: Seq<String>) -> bool {
    forall|i: int, j: int| 0 <= i < j < keys.len() ==> keys[i]@ != keys[j]@
}

pub proof fn lemma_key_set_contains(keys: Seq<String>, k: Seq<char>)
    ensures
        key_set(keys).contains(k) <==> exists|i: int| 0 <= i < keys.len() && keys[i]@ == k,
{
    let mapped = keys.map_values(|s: String| s@);
    if exists|i: int| 0 <= i < keys.len() && keys[i]@ == k {
        let i = choose|i: int| 0 <= i < keys.len() && keys[i]@ == k;
        assert(mapped[i] == k);
        assert(mapped.contains(k));
    }
    if mapped.to_set().contains(k) {
        let i = choose|i: int| 0 <= i < mapped.len() && mapped[i] == k;
        assert(keys[i]@ == k);
    }
}

pub proof fn lemma_key_set_contains_intro(keys: Seq<String>, i: int)
    requires
        0 <= i < keys.len(),
    ensures
        key_set(keys).contains(keys[i]@),
{
    let mapped = keys.map_values(|s: String| s@);
    assert(mapped[i] == keys[i]@);
    assert(mapped.contains(keys[i]@));
}

pub broadcast proof fn lemma_key_set_push(keys: Seq<String>, s: String)
    ensures
        #[trigger] key_set(keys.push(s)) =~= key_set(keys).insert(s@),
{
    let f = |t: String| t@;
    assert(keys.push(s).map_values(f) =~= keys.map_values(f).push(s@));
    assert forall|k: Seq<char>| #[trigger] key_set(keys.push(s)).contains(k) implies key_set(
        keys,
    ).insert(s@).contains(k) by {
        lemma_key_set_contains(keys.push(s), k);
        let i = choose|i: int| 0 <= i < keys.push(s).len() && keys.push(s)[i]@ == k;
        if i < keys.len() {
            lemma_key_set_contains(keys, k);
        }
    }
    assert forall|k: Seq<char>| key_set(keys).insert(s@).contains(k) implies #[trigger] key_set(
        keys.push(s),
    ).contains(k) by {
        if k == s@ {
            assert(keys.push(s)[keys.len() as int]@ == k);
        } else {
            lemma_key_set_contains(keys, k);
            let i = choose|i: int| 0 <= i < keys.len() && keys[i]@ == k;
            assert(keys.push(s)[i]@ == k);
        }
        lemma_key_set_contains(keys.push(s), k);
    }
}

/// Membership in the set of keys drawn out of a record list by `f`.
pub proof fn lemma_map_to_set_contains<T>(s: Seq<T>, f: spec_fn(T) -> Seq<char>, k: Seq<char>)
    ensures
        s.map_values(f).to_set().contains(k) <==> exists|i: int| 0 <= i < s.len() && f(s[i]) == k,
{
    let mapped = s.map_values(f);
    if exists|i: int| 0 <= i < s.len() && f(s[i]) == k {
        let i = choose|i: int| 0 <= i < s.len() && f(s[i]) == k;
        assert(mapped[i] == k);
        assert(mapped.contains(k));
    }
    if mapped.to_set().contains(k) {
        let i = choose|i: int| 0 <= i < mapped.len() && mapped[i] == k;
        assert(f(s[i]) == k);
    }
}

/// Appending a record inserts its key into the drawn-out key set.
pub proof fn lemma_map_to_set_push<T>(s: Seq<T>, f: spec_fn(T) -> Seq<char>, x: T)
    ensures
        s.push(x).map_values(f).to_set() =~= s.map_values(f).to_set().insert(f(x)),
{
    assert forall|k: Seq<char>| s.push(x).map_values(f).to_set().contains(k) implies s.map_values(
        f,
    ).to_set().insert(f(x)).contains(k) by {
        lemma_map_to_set_contains(s.push(x), f, k);
        let i = choose|i: int| 0 <= i < s.push(x).len() && f(s.push(x)[i]) == k;
        if i < s.len() {
            assert(f(s[i]) == k);
            lemma_map_to_set_contains(s, f, k);
        }
    }
    assert forall|k: Seq<char>| s.map_values(f).to_set().insert(f(x)).contains(k) implies s.push(
        x,
    ).map_values(f).to_set().contains(k) by {
        if k == f(x) {
            assert(f(s.push(x)[s.len() as int]) == k);
        } else {
            lemma_map_to_set_contains(s, f, k);
            let i = choose|i: int| 0 <= i < s.len() && f(s[i]) == k;
            assert(f(s.push(x)[i]) == k);
        }
        lemma_map_to_set_contains(s.push(x), f, k);
    }
}

/// Replacing a record by one with the same key leaves the key set as it
/// was.
pub proof fn lemma_map_to_set_update<T>(s: Seq<T>, f: spec_fn(T) -> Seq<char>, i: int, x: T)
    requires
        0 <= i < s.len(),
        f(x) == f(s[i]),
    ensures
        s.update(i, x).map_values(f).to_set() =~= s.map_values(f).to_set(),
{
    let s2 = s.update(i, x);
    assert forall|k: Seq<char>| s2.map_values(f).to_set().contains(k) implies s.map_values(
        f,
    ).to_set().contains(k) by {
        lemma_map_to_set_contains(s2, f, k);
        let j = choose|j: int| 0 <= j < s2.len() && f(s2[j]) == k;
        assert(f(s[j]) == k);
        lemma_map_to_set_contains(s, f, k);
    }
    assert forall|k: Seq<char>| s.map_values(f).to_set().contains(k) implies s2.map_values(
        f,
    ).to_set().contains(k) by {
        lemma_map_to_set_contains(s, f, k);
        let j = choose|j: int| 0 <= j < s.len() && f(s[j]) == k;
        assert(f(s2[j]) == k);
        lemma_map_to_set_contains(s2, f, k);
    }
}

/// Removing the only record with a key removes that key from the set.
pub proof fn lemma_map_to_set_remove<T>(s: Seq<T>, f: spec_fn(T) -> Seq<char>, i: int)
    requires
        0 <= i < s.len(),
        forall|j: int| 0 <= j < s.len() && j != i ==> f(s[j]) != f(s[i]),
    ensures
        s.remove(i).map_values(f).to_set() =~= s.map_values(f).to_set().remove(f(s[i])),
{
    let s2 = s.remove(i);
    assert forall|k: Seq<char>| s2.map_values(f).to_set().contains(k) implies s.map_values(
        f,
    ).to_set().remove(f(s[i])).contains(k) by {
        lemma_map_to_set_contains(s2, f, k);
        let j = choose|j: int| 0 <= j < s2.len() && f(s2[j]) == k;
        if j < i {
            assert(f(s[j]) == k);
        } else {
            assert(f(s[j + 1]) == k);
        }
        lemma_map_to_set_contains(s, f, k);
    }
    assert forall|k: Seq<char>| s.map_values(f).to_set().remove(f(s[i])).contains(k) implies
        s2.map_values(f).to_set().contains(k) by {
        lemma_map_to_set_contains(s, f, k);
        let j = choose|j: int| 0 <= j < s.len() && f(s[j]) == k;
        assert(j != i);
        if j < i {
            assert(f(s2[j]) == k);
        } else {
            assert(f(s2[j - 1]) == k);
        }
        lemma_map_to_set_contains(s2, f, k);
    }
}

/// Removing an entry keeps an identifier list distinct.
pub proof fn lemma_keys_distinct_remove(keys: Seq<String>, i: int)
    requires
        keys_distinct(keys),
        0 <= i < keys.len(),
    ensures
        keys_distinct(keys.remove(i)),
{
    let s2 = keys.remove(i);
    assert forall|a: int, b: int| 0 <= a < b < s2.len() implies s2[a]@ != s2[b]@ by {
        let a0: int = if a < i { a } else { a + 1 };
        let b0: int = if b < i { b } else { b + 1 };
        assert(s2[a]@ == keys[a0]@);
        assert(s2[b]@ == keys[b0]@);
        assert(keys[a0]@ != keys[b0]@);
    }
}

/// Whether `k` occurs in `keys`.
pub fn keys_contain(keys: &Vec<String>, k: &String) -> (r: bool)
    ensures
        r == key_set(keys@).contains(k@),
{
    let mut i: usize = 0;
    while i < keys.len()
        invariant
            0 <= i <= keys@.len(),
            forall|j: int| 0 <= j < i ==> keys@[j]@ != k@,
        decreases keys@.len() - i,
    {
        if keys[i] == *k {
            proof {
                lemma_key_set_contains_intro(keys@, i as int);
            }
            return true;
        }
        i = i + 1;
    }
    proof {
        lemma_key_set_contains(keys@, k@);
    }
    false
}

} // verus!
