//! Association-sequence models for the in-memory tables.
//!
//! The in-memory repository keeps each table as a vector of key/value
//! entries in insertion order, where a later entry for a key shadows an
//! earlier one. `assoc_map` is the map such a vector denotes and `set_of`
//! the set a plain sequence denotes; appending an entry is exactly
//! `Map::insert` / `Set::insert`, and a backward search finds the entry
//! that the map holds.

use vstd::prelude::*;

verus! {

/// The map denoted by a sequence of key/value entries, later entries
/// shadowing earlier ones.
pub open spec fn assoc_map<K, V>(s: Seq<(K, V)>) -> Map<K, V>
    decreases s.len(),
{
    if s.len() == 0 {
        Map::empty()
    } else {
        assoc_map(s.drop_last()).insert(s.last().0, s.last().1)
    }
}

/// The set denoted by a sequence.
pub open spec fn set_of<T>(s: Seq<T>) -> Set<T>
    decreases s.len(),
{
    if s.len() == 0 {
        Set::empty()
    } else {
        set_of(s.drop_last()).insert(s.last())
    }
}

/// Appending an entry inserts it into the denoted map.
pub proof fn lemma_assoc_push<K, V>(s: Seq<(K, V)>, k: K, v: V)
    ensures
        assoc_map(s.push((k, v))) == assoc_map(s).insert(k, v),
{
    assert(s.push((k, v)).drop_last() =~= s);
}

/// A key is in the denoted map exactly when some entry carries it.
pub proof fn lemma_assoc_dom<K, V>(s: Seq<(K, V)>, k: K)
    ensures
        assoc_map(s).dom().contains(k) <==> (exists|i: int| 0 <= i < s.len() && s[i].0 == k),
    decreases s.len(),
{
    if s.len() > 0 {
        lemma_assoc_dom(s.drop_last(), k);
        if s.last().0 == k {
            assert(s[s.len() - 1].0 == k);
        }
        if exists|i: int| 0 <= i < s.drop_last().len() && s.drop_last()[i].0 == k {
            let i = choose|i: int| 0 <= i < s.drop_last().len() && s.drop_last()[i].0 == k;
            assert(s[i].0 == k);
        }
        if exists|i: int| 0 <= i < s.len() && s[i].0 == k {
            let i = choose|i: int| 0 <= i < s.len() && s[i].0 == k;
            if i < s.len() - 1 {
                assert(s.drop_last()[i].0 == k);
            }
        }
    }
}

/// The denoted map sends a key to the value of its last entry for it.
pub proof fn lemma_assoc_last_match<K, V>(s: Seq<(K, V)>, j: int)
    requires
        0 <= j < s.len(),
        forall|i: int| j < i < s.len() ==> s[i].0 != s[j].0,
    ensures
        assoc_map(s).dom().contains(s[j].0),
        assoc_map(s)[s[j].0] == s[j].1,
    decreases s.len(),
{
    if j == s.len() - 1 {
    } else {
        assert(forall|i: int|
            j < i < s.drop_last().len() ==> s.drop_last()[i].0 != s.drop_last()[j].0);
        lemma_assoc_last_match(s.drop_last(), j);
        assert(s[s.len() - 1].0 != s[j].0);
    }
}

/// An element is in the denoted set exactly when the sequence holds it.
pub proof fn lemma_set_of_contains<T>(s: Seq<T>, x: T)
    ensures
        set_of(s).contains(x) <==> s.contains(x),
    decreases s.len(),
{
    if s.len() > 0 {
        lemma_set_of_contains(s.drop_last(), x);
        assert(s.contains(x) <==> (s.last() == x || s.drop_last().contains(x))) by {
            if s.contains(x) {
                let i = choose|i: int| 0 <= i < s.len() && s[i] == x;
                if i < s.len() - 1 {
                    assert(s.drop_last()[i] == x);
                }
            }
            if s.drop_last().contains(x) {
                let i = choose|i: int| 0 <= i < s.drop_last().len() && s.drop_last()[i] == x;
                assert(s[i] == x);
            }
        }
    }
}

/// Appending an element inserts it into the denoted set.
pub proof fn lemma_set_of_push<T>(s: Seq<T>, x: T)
    ensures
        set_of(s.push(x)) == set_of(s).insert(x),
{
    assert(s.push(x).drop_last() =~= s);
}

} // verus!
