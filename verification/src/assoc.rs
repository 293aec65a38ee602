//! Spec-level model of an association list: a sequence of key/value pairs,
//! read as a finite map from key to value. Later pairs take precedence, so
//! with distinct keys every pair is visible.

use vstd::prelude::*;

verus! {

/// The map described by an association sequence.
pub open spec fn assoc_map<V>(s: Seq<(Seq<char>, V)>) -> Map<Seq<char>, V>
    decreases s.len(),
{
    if s.len() == 0 {
        Map::empty()
    } else {
        assoc_map(s.drop_last()).insert(s.last().0, s.last().1)
    }
}

/// No two pairs share a key.
pub open spec fn keys_distinct<V>(s: Seq<(Seq<char>, V)>) -> bool {
    forall|i: int, j: int| 0 <= i < j < s.len() ==> s[i].0 != s[j].0
}

/// The domain of the map is exactly the set of keys that occur in the sequence.
pub proof fn lemma_assoc_map_dom<V>(s: Seq<(Seq<char>, V)>)
    ensures
        forall|k: Seq<char>|
            #[trigger] assoc_map(s).dom().contains(k) <==> exists|i: int|
                0 <= i < s.len() && s[i].0 == k,
    decreases s.len(),
{
    if s.len() > 0 {
        lemma_assoc_map_dom(s.drop_last());
        assert(assoc_map(s) == assoc_map(s.drop_last()).insert(s.last().0, s.last().1));
        assert forall|k: Seq<char>| #[trigger]
            assoc_map(s).dom().contains(k) implies exists|i: int|
            0 <= i < s.len() && s[i].0 == k by {
            if k == s.last().0 {
                assert(s[s.len() - 1].0 == k);
            } else {
                assert(assoc_map(s.drop_last()).dom().contains(k));
                let i = choose|i: int| 0 <= i < s.drop_last().len() && s.drop_last()[i].0 == k;
                assert(s.drop_last()[i] == s[i]);
                assert(s[i].0 == k);
            }
        }
        assert forall|k: Seq<char>|
            (exists|i: int| 0 <= i < s.len() && s[i].0 == k) implies #[trigger]
            assoc_map(s).dom().contains(k) by {
            let i = choose|i: int| 0 <= i < s.len() && s[i].0 == k;
            if i < s.len() - 1 {
                assert(s.drop_last()[i] == s[i]);
                assert(s.drop_last()[i].0 == k);
                assert(assoc_map(s.drop_last()).dom().contains(k));
            } else {
                assert(k == s.last().0);
            }
        }
    }
}

/// With distinct keys, looking a key up yields the value paired with it.
pub proof fn lemma_assoc_map_index<V>(s: Seq<(Seq<char>, V)>, i: int)
    requires
        keys_distinct(s),
        0 <= i < s.len(),
    ensures
        assoc_map(s).dom().contains(s[i].0),
        assoc_map(s)[s[i].0] == s[i].1,
    decreases s.len(),
{
    lemma_assoc_map_dom(s);
    if i < s.len() - 1 {
        assert(s.drop_last()[i] == s[i]);
        lemma_assoc_map_index(s.drop_last(), i);
        assert(s[s.len() - 1].0 != s[i].0);
    }
}

/// Appending a pair inserts it into the map.
pub proof fn lemma_assoc_map_push<V>(s: Seq<(Seq<char>, V)>, k: Seq<char>, v: V)
    ensures
        assoc_map(s.push((k, v))) == assoc_map(s).insert(k, v),
{
    assert(s.push((k, v)).drop_last() =~= s);
    assert(s.push((k, v)).last() == (k, v));
}

/// With distinct keys, replacing the pair at one position updates its entry.
pub proof fn lemma_assoc_map_update<V>(s: Seq<(Seq<char>, V)>, i: int, v: V)
    requires
        keys_distinct(s),
        0 <= i < s.len(),
    ensures
        assoc_map(s.update(i, (s[i].0, v))) =~= assoc_map(s).insert(s[i].0, v),
    decreases s.len(),
{
    let t = s.update(i, (s[i].0, v));
    if i == s.len() - 1 {
        assert(t.drop_last() =~= s.drop_last());
        assert(t.last() == (s[i].0, v));
    } else {
        assert(t.drop_last() =~= s.drop_last().update(i, (s[i].0, v)));
        assert(s.drop_last()[i] == s[i]);
        lemma_assoc_map_update(s.drop_last(), i, v);
        assert(t.last() == s.last());
        assert(s[s.len() - 1].0 != s[i].0);
        lemma_assoc_map_dom(s);
    }
}

/// The map of an association sequence is finite, with one entry per key.
pub proof fn lemma_assoc_map_finite<V>(s: Seq<(Seq<char>, V)>)
    requires
        keys_distinct(s),
    ensures
        assoc_map(s).dom().finite(),
        assoc_map(s).dom().len() == s.len(),
    decreases s.len(),
{
    if s.len() > 0 {
        lemma_assoc_map_finite(s.drop_last());
        lemma_assoc_map_dom(s.drop_last());
        assert(forall|i: int|
            0 <= i < s.drop_last().len() ==> #[trigger] s.drop_last()[i].0 == s[i].0);
        assert(!assoc_map(s.drop_last()).dom().contains(s.last().0));
    }
}

} // verus!
