//! The dependency-result snapshot: an exclusive-keyed mapping from task key
//! to an already-computed value, handed read-only to a task's computation.

use vstd::prelude::*;
use vstd::pervasive::VecAdditionalExecFns;
use crate::assoc::{assoc_map, keys_distinct, lemma_assoc_map_dom, lemma_assoc_map_index,
    lemma_assoc_map_push, lemma_assoc_map_update};

verus! {

/// A mapping from task key to computed value, consulted by a task's
/// computation for the results of its declared dependencies.
pub struct Snapshot<O> {
    entries: Vec<(String, O)>,
}

impl<O> View for Snapshot<O> {
    type V = Map<Seq<char>, O>;

    open spec fn view(&self) -> Map<Seq<char>, O> {
        assoc_map(self.entry_seq())
    }
}

impl<O> Snapshot<O> {
    /// The pairs held, with keys read as character sequences.
    pub closed spec fn entry_seq(self) -> Seq<(Seq<char>, O)> {
        self.entries@.map_values(|p: (String, O)| (p.0@, p.1))
    }

    /// Each key occurs at most once.
    pub open spec fn wf(self) -> bool {
        keys_distinct(self.entry_seq())
    }

    /// An empty snapshot.
    pub fn new() -> (r: Snapshot<O>)
        ensures
            r.wf(),
            r@ == Map::<Seq<char>, O>::empty(),
    {
        Snapshot { entries: Vec::new() }
    }

    /// Look the value computed for `key` up, if there is one.
    pub fn get(&self, key: &String) -> (r: Option<&O>)
        requires
            self.wf(),
        ensures
            match r {
                Some(v) => self@.dom().contains(key@) && *v == self@[key@],
                None => !self@.dom().contains(key@),
            },
    {
        proof {
            lemma_assoc_map_dom(self.entry_seq());
        }
        let n = self.entries.len();
        for i in 0..n
            invariant
                n == self.entries.len(),
                self.wf(),
                forall|j: int| 0 <= j < i ==> #[trigger] self.entry_seq()[j].0 != key@,
        {
            if self.entries[i].0 == *key {
                proof {
                    lemma_assoc_map_index(self.entry_seq(), i as int);
                }
                return Some(&self.entries[i].1);
            }
            proof {
                assert(self.entry_seq()[i as int].0 == self.entries@[i as int].0@);
            }
        }
        proof {
            assert forall|j: int| 0 <= j < self.entry_seq().len() implies self.entry_seq()[j].0
                != key@ by {}
            if self@.dom().contains(key@) {
                let j = choose|j: int|
                    0 <= j < self.entry_seq().len() && self.entry_seq()[j].0 == key@;
            }
        }
        None
    }

    /// Record the value computed for `key`, replacing any earlier entry.
    pub fn insert(&mut self, key: String, value: O)
        requires
            old(self).wf(),
        ensures
            final(self).wf(),
            final(self)@ == old(self)@.insert(key@, value),
    {
        let n = self.entries.len();
        for i in 0..n
            invariant
                n == self.entries.len(),
                self.wf(),
                self.entries@ == old(self).entries@,
                forall|j: int| 0 <= j < i ==> #[trigger] self.entry_seq()[j].0 != key@,
        {
            if self.entries[i].0 == key {
                proof {
                    assert(self.entry_seq()[i as int].0 == key@);
                    lemma_assoc_map_update(self.entry_seq(), i as int, value);
                }
                self.entries.set(i, (key, value));
                proof {
                    assert(self.entry_seq() =~= old(self).entry_seq().update(
                        i as int,
                        (old(self).entry_seq()[i as int].0, value),
                    ));
                    assert(final(self)@ =~= old(self)@.insert(key@, value));
                    assert forall|a: int, b: int|
                        0 <= a < b < self.entry_seq().len() implies self.entry_seq()[a].0
                        != self.entry_seq()[b].0 by {
                        assert(old(self).entry_seq()[a].0 != old(self).entry_seq()[b].0);
                    }
                }
                return ;
            }
            proof {
                assert(self.entry_seq()[i as int].0 == self.entries@[i as int].0@);
            }
        }
        proof {
            lemma_assoc_map_push(self.entry_seq(), key@, value);
        }
        self.entries.push((key, value));
        proof {
            assert(self.entry_seq() =~= old(self).entry_seq().push((key@, value)));
            assert(final(self)@ =~= old(self)@.insert(key@, value));
            assert forall|a: int, b: int|
                0 <= a < b < self.entry_seq().len() implies self.entry_seq()[a].0
                != self.entry_seq()[b].0 by {
                if b < self.entry_seq().len() - 1 {
                    assert(old(self).entry_seq()[a].0 != old(self).entry_seq()[b].0);
                } else {
                    assert(old(self).entry_seq()[a].0 != key@);
                }
            }
        }
    }
}

} // verus!
