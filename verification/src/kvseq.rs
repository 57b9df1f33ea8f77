//! Sequences of key-value pairs viewed as finite maps.
//!
//! The stores in this crate keep their entries in a `Vec` of `(key, value)`
//! pairs whose keys are pairwise distinct, and state their contracts over
//! the `Map` that such a sequence denotes.  This module defines that
//! denotation and the lemmas connecting it to sequence operations.
use vstd::prelude::*;

verus! {

/// The finite map denoted by a sequence of key-value pairs; a later entry
/// for a key supersedes an earlier one.
pub open spec fn pairs_map<V>(s: Seq<(u64, V)>) -> Map<u64, V>
    decreases s.len(),
{
    if s.len() == 0 {
        Map::empty()
    } else {
        pairs_map(s.drop_last()).insert(s.last().0, s.last().1)
    }
}

/// No two entries share a key.
pub open spec fn unique_keys<V>(s: Seq<(u64, V)>) -> bool {
    forall|i: int, j: int| 0 <= i < j < s.len() ==> s[i].0 != s[j].0
}

/// Some entry of the sequence carries this key.
pub open spec fn seq_has_key<V>(s: Seq<(u64, V)>, k: u64) -> bool {
    exists|i: int| 0 <= i < s.len() && s[i].0 == k
}

/// A key is in the denoted map exactly when some entry carries it.
pub proof fn lemma_pairs_map_contains<V>(s: Seq<(u64, V)>, k: u64)
    ensures
        pairs_map(s).contains_key(k) <==> exists|i: int| 0 <= i < s.len() && s[i].0 == k,
    decreases s.len(),
{
    if s.len() > 0 {
        lemma_pairs_map_contains(s.drop_last(), k);
        if s.last().0 == k {
            assert(s[s.len() - 1].0 == k);
        } else if pairs_map(s).contains_key(k) {
            let i = choose|i: int| 0 <= i < s.drop_last().len() && s.drop_last()[i].0 == k;
            assert(s[i].0 == k);
        } else if exists|i: int| 0 <= i < s.len() && s[i].0 == k {
            let i = choose|i: int| 0 <= i < s.len() && s[i].0 == k;
            assert(i < s.len() - 1);
            assert(s.drop_last()[i].0 == k);
        }
    }
}

/// Under unique keys, the map sends each entry's key to that entry's value.
pub proof fn lemma_pairs_map_index<V>(s: Seq<(u64, V)>, i: int)
    requires
        unique_keys(s),
        0 <= i < s.len(),
    ensures
        pairs_map(s).contains_key(s[i].0),
        pairs_map(s)[s[i].0] == s[i].1,
    decreases s.len(),
{
    if i == s.len() - 1 {
        assert(s.last() == s[i]);
    } else {
        assert(unique_keys(s.drop_last())) by {
            assert(forall|x: int, y: int|
                0 <= x < y < s.drop_last().len() ==> s.drop_last()[x].0 != s.drop_last()[y].0)
                by {
                assert(forall|x: int, y: int| 0 <= x < y < s.len() - 1 ==> s[x].0 != s[y].0);
            }
        }
        assert(s.drop_last()[i] == s[i]);
        lemma_pairs_map_index(s.drop_last(), i);
        assert(s[i].0 != s.last().0);
    }
}

/// Updating the value at one entry updates the denoted map at its key.
pub proof fn lemma_pairs_map_update<V>(s: Seq<(u64, V)>, i: int, v: V)
    requires
        unique_keys(s),
        0 <= i < s.len(),
    ensures
        pairs_map(s.update(i, (s[i].0, v))) =~= pairs_map(s).insert(s[i].0, v),
        unique_keys(s.update(i, (s[i].0, v))),
    decreases s.len(),
{
    let t = s.update(i, (s[i].0, v));
    assert(forall|x: int, y: int| 0 <= x < y < t.len() ==> t[x].0 != t[y].0) by {
        assert(forall|x: int| 0 <= x < t.len() ==> t[x].0 == s[x].0);
    }
    if i == s.len() - 1 {
        assert(t.drop_last() =~= s.drop_last());
        assert(t.last() == (s[i].0, v));
    } else {
        assert(unique_keys(s.drop_last())) by {
            assert(forall|x: int, y: int| 0 <= x < y < s.len() - 1 ==> s[x].0 != s[y].0);
        }
        assert(t.drop_last() =~= s.drop_last().update(i, (s[i].0, v)));
        assert(s.drop_last()[i] == s[i]);
        lemma_pairs_map_update(s.drop_last(), i, v);
        assert(t.last() == s.last());
        assert(s.last().0 != s[i].0);
    }
}

/// Appending a fresh entry inserts its key into the denoted map.
pub proof fn lemma_pairs_map_push<V>(s: Seq<(u64, V)>, k: u64, v: V)
    requires
        unique_keys(s),
        forall|i: int| 0 <= i < s.len() ==> s[i].0 != k,
    ensures
        pairs_map(s.push((k, v))) =~= pairs_map(s).insert(k, v),
        unique_keys(s.push((k, v))),
{
    let t = s.push((k, v));
    assert(t.drop_last() =~= s);
    assert(t.last() == (k, v));
    assert(forall|x: int, y: int| 0 <= x < y < t.len() ==> t[x].0 != t[y].0) by {
        assert(forall|x: int| 0 <= x < s.len() ==> t[x] == s[x]);
    }
}

/// The denoted map has at most as many keys as the sequence has entries.
pub proof fn lemma_pairs_map_dom_card<V>(s: Seq<(u64, V)>)
    ensures
        pairs_map(s).dom().finite(),
        pairs_map(s).dom().len() <= s.len(),
    decreases s.len(),
{
    if s.len() == 0 {
        broadcast use vstd::set::axiom_set_empty_finite, vstd::set::axiom_set_empty_len;

        assert(pairs_map(s).dom() =~= Set::<u64>::empty());
    } else {
        lemma_pairs_map_dom_card(s.drop_last());
        assert(pairs_map(s).dom() =~= pairs_map(s.drop_last()).dom().insert(s.last().0));
        vstd::set::axiom_set_insert_finite(pairs_map(s.drop_last()).dom(), s.last().0);
        vstd::set::axiom_set_insert_len(pairs_map(s.drop_last()).dom(), s.last().0);
    }
}

/// Removing an entry removes its key from the denoted map.
pub proof fn lemma_pairs_map_remove<V>(s: Seq<(u64, V)>, i: int)
    requires
        unique_keys(s),
        0 <= i < s.len(),
    ensures
        pairs_map(s.remove(i)) =~= pairs_map(s).remove(s[i].0),
        unique_keys(s.remove(i)),
    decreases s.len(),
{
    let t = s.remove(i);
    assert(forall|x: int, y: int| 0 <= x < y < t.len() ==> t[x].0 != t[y].0) by {
        assert(forall|x: int| 0 <= x < t.len() ==> t[x].0 == if x < i { s[x].0 } else { s[x + 1].0 });
    }
    if i == s.len() - 1 {
        assert(t =~= s.drop_last());
        lemma_pairs_map_contains(t, s[i].0);
        assert(forall|x: int| 0 <= x < t.len() ==> t[x].0 != s[i].0);
        assert(!pairs_map(t).contains_key(s[i].0));
        assert(pairs_map(s) =~= pairs_map(t).insert(s[i].0, s[i].1));
        assert(pairs_map(t) =~= pairs_map(s).remove(s[i].0));
    } else {
        assert(unique_keys(s.drop_last())) by {
            assert(forall|x: int, y: int| 0 <= x < y < s.len() - 1 ==> s[x].0 != s[y].0);
        }
        assert(s.drop_last()[i] == s[i]);
        lemma_pairs_map_remove(s.drop_last(), i);
        assert(t.drop_last() =~= s.drop_last().remove(i));
        assert(t.last() == s.last());
        assert(s.last().0 != s[i].0);
        assert(pairs_map(t) =~= pairs_map(s.drop_last().remove(i)).insert(s.last().0, s.last().1));
        assert(pairs_map(s.drop_last().remove(i)) =~= pairs_map(s.drop_last()).remove(s[i].0));
    }
}

} // verus!
