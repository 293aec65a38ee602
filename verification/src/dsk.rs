//! The graph container: an exclusive-keyed collection of memoizing nodes,
//! with insertion-time cycle rejection, recursive resolution, pruning and
//! dependent queries.

use vstd::prelude::*;
use crate::assoc::{assoc_map, keys_distinct, lemma_assoc_map_dom, lemma_assoc_map_finite,
    lemma_assoc_map_index, lemma_assoc_map_push, lemma_assoc_map_update};
use crate::cache::Cache;
use crate::error::ExecuteError;
use crate::graph::{acyclic, chain_to, cycle_free_from, edge, is_cycle, is_path,
    lemma_closed_path, lemma_distinct_in_set_bound, lemma_done_extend,
    lemma_dup_path_cycle, lemma_insert_acyclic, lemma_path_subrange, lemma_reaches_extend,
    lemma_reaches_first_step, lemma_reaches_prepend, lemma_reaches_self,
    lemma_subgraph_acyclic, no_dup_from, reaches, set_closed};
use crate::snapshot::Snapshot;
use crate::Task;

verus! {

/// What one node looks like to the specification: the dependency keys its
/// task declared, and the stored result if one has been computed.
pub ghost struct NodeView<O> {
    /// The declared dependency keys.
    pub deps: Seq<Seq<char>>,
    /// The memoized result, if any.
    pub result: Option<O>,
}

/// A directed acyclic graph of tasks, keyed by name. Tasks are resolved in
/// dependency order, each computed at most once.
pub struct DSK<O, T> {
    nodes: Vec<(String, Cache<O, T>)>,
}

impl<O, T> View for DSK<O, T> {
    type V = Map<Seq<char>, NodeView<O>>;

    open spec fn view(&self) -> Map<Seq<char>, NodeView<O>> {
        assoc_map(self.pair_seq())
    }
}

impl<O, T> DSK<O, T> {
    /// The nodes held, with keys read as character sequences.
    pub closed spec fn pair_seq(self) -> Seq<(Seq<char>, NodeView<O>)> {
        self.nodes@.map_values(
            |p: (String, Cache<O, T>)|
                (p.0@, NodeView { deps: p.1.spec_deps(), result: p.1.spec_result() }),
        )
    }

    /// Each key occurs at most once.
    pub open spec fn wf(self) -> bool {
        keys_distinct(self.pair_seq())
    }

    /// The dependency relation the container holds.
    pub open spec fn graph(self) -> Map<Seq<char>, Seq<Seq<char>>> {
        Map::new(|k: Seq<char>| self@.dom().contains(k), |k: Seq<char>| self@[k].deps)
    }

    /// Keys unique and the dependency relation acyclic: what every
    /// operation preserves.
    pub open spec fn valid(self) -> bool {
        self.wf() && acyclic(self.graph())
    }

    /// The stored result for a key.
    pub open spec fn result_of(self, k: Seq<char>) -> Option<O> {
        self@[k].result
    }

    /// The node stored under `k`, task included. Meaningful only for a
    /// key that is present.
    pub closed spec fn node_at(self, k: Seq<char>) -> Cache<O, T> {
        node_lookup(self.nodes@, k)
    }

    /// The task owned by the node under `k`.
    pub open spec fn task_at(self, k: Seq<char>) -> T {
        self.node_at(k).task()
    }

    /// Every key reachable from `from` that has a node already holds a
    /// result, so no task computation is pending on that subgraph.
    pub open spec fn all_reachable_cached(self, from: Seq<char>) -> bool {
        forall|k: Seq<char>|
            #[trigger] reaches(self.graph(), from, k) && self@.dom().contains(k)
                ==> self.result_of(k) is Some
    }
}

impl<O, T: Task<O>> DSK<O, T> {
    /// An empty container.
    pub fn new() -> (r: DSK<O, T>)
        ensures
            r.valid(),
            r@ == Map::<Seq<char>, NodeView<O>>::empty(),
    {
        let r = DSK::<O, T> { nodes: Vec::new() };
        proof {
            assert(r.pair_seq() =~= Seq::<(Seq<char>, NodeView<O>)>::empty());
            assert forall|p: Seq<Seq<char>>| !is_cycle(r.graph(), p) by {
                if is_cycle(r.graph(), p) {
                    assert(edge(r.graph(), p[0], p[1]));
                }
            }
        }
        r
    }

    /// The position of the node for `key`, if there is one.
    fn find_index(&self, key: &String) -> (r: Option<usize>)
        requires
            self.wf(),
        ensures
            match r {
                Some(i) => i < self.nodes@.len() && self.pair_seq()[i as int].0 == key@
                    && self@.dom().contains(key@),
                None => !self@.dom().contains(key@),
            },
    {
        proof {
            lemma_assoc_map_dom(self.pair_seq());
        }
        let n = self.nodes.len();
        for i in 0..n
            invariant
                n == self.nodes.len(),
                self.wf(),
                forall|j: int| 0 <= j < i ==> #[trigger] self.pair_seq()[j].0 != key@,
        {
            if self.nodes[i].0 == *key {
                proof {
                    assert(self.pair_seq()[i as int].0 == self.nodes@[i as int].0@);
                    lemma_assoc_map_index(self.pair_seq(), i as int);
                }
                return Some(i);
            }
            proof {
                assert(self.pair_seq()[i as int].0 == self.nodes@[i as int].0@);
            }
        }
        proof {
            if self@.dom().contains(key@) {
                let j = choose|j: int|
                    0 <= j < self.pair_seq().len() && self.pair_seq()[j].0 == key@;
            }
        }
        None
    }

    /// Whether a node for `key` is present.
    pub fn contains_key(&self, key: &str) -> (r: bool)
        requires
            self.wf(),
        ensures
            r == self@.dom().contains(key@),
    {
        let k = key_string(key);
        self.find_index(&k).is_some()
    }

    /// The keys of every node whose declared dependencies include `leaf`:
    /// the direct dependents of `leaf`.
    pub fn get_dependents(&self, leaf: &str) -> (r: Vec<String>)
        requires
            self.wf(),
        ensures
            forall|k: Seq<char>|
                #[trigger] r.deep_view().contains(k) <==> self@.dom().contains(k)
                    && self@[k].deps.contains(leaf@),
            r.deep_view().no_duplicates(),
    {
        let lf = key_string(leaf);
        let mut r: Vec<String> = Vec::new();
        let n = self.nodes.len();
        proof {
            lemma_assoc_map_dom(self.pair_seq());
        }
        for i in 0..n
            invariant
                n == self.nodes.len(),
                self.wf(),
                lf@ == leaf@,
                forall|k: Seq<char>|
                    #[trigger] r.deep_view().contains(k) <==> exists|j: int|
                        0 <= j < i && #[trigger] self.pair_seq()[j].0 == k && self.pair_seq()[
                            j
                        ].1.deps.contains(leaf@),
                r.deep_view().no_duplicates(),
        {
            proof {
                assert(self.pair_seq()[i as int].0 == self.nodes@[i as int].0@);
                assert(self.pair_seq()[i as int].1.deps == self.nodes@[i as int].1.spec_deps());
            }
            let ds = self.nodes[i].1.dependencies();
            if vec_contains_key(ds, &lf) {
                let ghost r0 = r.deep_view();
                proof {
                    if r.deep_view().contains(self.pair_seq()[i as int].0) {
                        let j = choose|j: int|
                            0 <= j < i && #[trigger] self.pair_seq()[j].0 == self.pair_seq()[
                                i as int
                            ].0 && self.pair_seq()[j].1.deps.contains(leaf@);
                        assert(false);
                    }
                }
                r.push(self.nodes[i].0.clone());
                proof {
                    assert(r.deep_view() =~= r0.push(self.pair_seq()[i as int].0));
                    lemma_deep_view_push(r0, self.pair_seq()[i as int].0);
                    assert forall|k: Seq<char>| #[trigger]
                        r.deep_view().contains(k) implies exists|j: int|
                        0 <= j < i + 1 && #[trigger] self.pair_seq()[j].0 == k && self.pair_seq()[
                            j
                        ].1.deps.contains(leaf@) by {
                        if r0.contains(k) {
                            let j = choose|j: int|
                                0 <= j < i && #[trigger] self.pair_seq()[j].0 == k
                                    && self.pair_seq()[j].1.deps.contains(leaf@);
                        } else {
                            assert(self.pair_seq()[i as int].0 == k);
                        }
                    }
                }
            } else {
                proof {
                    assert forall|k: Seq<char>| #[trigger]
                        r.deep_view().contains(k) implies exists|j: int|
                        0 <= j < i + 1 && #[trigger] self.pair_seq()[j].0 == k && self.pair_seq()[
                            j
                        ].1.deps.contains(leaf@) by {
                        let j = choose|j: int|
                            0 <= j < i && #[trigger] self.pair_seq()[j].0 == k && self.pair_seq()[
                                j
                            ].1.deps.contains(leaf@);
                    }
                    assert forall|k: Seq<char>|
                        (exists|j: int|
                            0 <= j < i + 1 && #[trigger] self.pair_seq()[j].0 == k
                                && self.pair_seq()[j].1.deps.contains(leaf@)) implies #[trigger]
                        r.deep_view().contains(k) by {
                        let j = choose|j: int|
                            0 <= j < i + 1 && #[trigger] self.pair_seq()[j].0 == k
                                && self.pair_seq()[j].1.deps.contains(leaf@);
                        assert(j != i);
                    }
                }
            }
        }
        proof {
            assert forall|k: Seq<char>| #[trigger]
                r.deep_view().contains(k) implies self@.dom().contains(k) && self@[k].deps.contains(
                leaf@,
            ) by {
                let j = choose|j: int|
                    0 <= j < n && #[trigger] self.pair_seq()[j].0 == k && self.pair_seq()[
                        j
                    ].1.deps.contains(leaf@);
                lemma_assoc_map_index(self.pair_seq(), j);
            }
            assert forall|k: Seq<char>|
                self@.dom().contains(k) && self@[k].deps.contains(leaf@) implies #[trigger]
            r.deep_view().contains(k) by {
                let j = choose|j: int|
                    0 <= j < self.pair_seq().len() && self.pair_seq()[j].0 == k;
                lemma_assoc_map_index(self.pair_seq(), j);
            }
        }
        r
    }
}

impl<O, T: Task<O>> DSK<O, T> {
    /// Depth-first walk from `k`, with `path` the keys on the walk so far
    /// and `done` the keys fully explored and found safe.
    #[verifier::rlimit(60)]
    fn visit(
        &self,
        k: &String,
        path: &mut Vec<String>,
        done: &mut Vec<String>,
        root: Ghost<Seq<char>>,
    ) -> (r: Result<(), ExecuteError>)
        requires
            self.wf(),
            chain_to(self.graph(), old(path).deep_view(), k@),
            old(path).deep_view().no_duplicates(),
            old(path).deep_view().len() == 0 ==> k@ == root@,
            old(path).deep_view().len() > 0 ==> old(path).deep_view().first() == root@,
            set_closed(self.graph(), old(done).deep_view().to_set()),
            forall|d: Seq<char>|
                old(done).deep_view().to_set().contains(d) ==> cycle_free_from(
                    self.graph(),
                    d,
                ),
            old(done).deep_view().no_duplicates(),
            old(done).deep_view().to_set().disjoint(old(path).deep_view().to_set()),
        ensures
            final(done).deep_view().no_duplicates(),
            old(done).deep_view().to_set().subset_of(final(done).deep_view().to_set()),
            match r {
                Ok(()) => {
                    &&& final(path)@ == old(path)@
                    &&& final(done).deep_view().to_set().contains(k@)
                    &&& set_closed(self.graph(), final(done).deep_view().to_set())
                    &&& forall|d: Seq<char>|
                        final(done).deep_view().to_set().contains(d) ==> cycle_free_from(
                            self.graph(),
                            d,
                        )
                    &&& final(done).deep_view().to_set().disjoint(
                        old(path).deep_view().to_set(),
                    )
                },
                Err(e) => {
                    &&& (e matches ExecuteError::CyclicDependency(cv) && is_path(
                        self.graph(),
                        cv.deep_view(),
                    ) && cv.deep_view().first() == root@ && cv.deep_view().len() >= 2
                        && (exists|i: int|
                        0 <= i < cv.deep_view().len() - 1 && cv.deep_view()[i]
                            == cv.deep_view().last()))
                    &&& exists|p: Seq<Seq<char>>|
                        is_path(self.graph(), p) && p.first() == root@ && !p.no_duplicates()
                },
            },
        decreases self.graph().dom().difference(
            old(done).deep_view().to_set().union(old(path).deep_view().to_set()),
        ).len(),
    {
        let ghost g = self.graph();
        let ghost path0 = old(path).deep_view();
        let ghost done0 = old(done).deep_view().to_set();
        if vec_contains_key(path, k) {
            let mut cyc = clone_keys(path);
            cyc.push(clone_key(k));
            proof {
                assert(cyc.deep_view() =~= path0.push(k@));
                let pp = path0.push(k@);
                assert(is_path(g, pp)) by {
                    assert forall|m: int| 0 <= m < pp.len() - 1 implies edge(
                        g,
                        #[trigger] pp[m],
                        pp[m + 1],
                    ) by {
                        if m < path0.len() - 1 {
                            assert(pp[m] == path0[m]);
                            assert(pp[m + 1] == path0[m + 1]);
                        } else {
                            assert(pp[m] == path0.last());
                            assert(pp[m + 1] == k@);
                        }
                    }
                }
                let i = choose|i: int| 0 <= i < path0.len() && path0[i] == k@;
                assert(pp[i] == k@);
                assert(pp.first() == root@);
                assert(pp[pp.len() - 1] == k@);
                assert(!pp.no_duplicates());
                assert(cyc.deep_view()[i] == cyc.deep_view().last());
            }
            return Err(ExecuteError::CyclicDependency(cyc));
        }
        if vec_contains_key(done, k) {
            return Ok(());
        }
        match self.find_index(k) {
            None => {
                proof {
                    assert forall|b: Seq<char>| edge(g, k@, b) implies done0.contains(b) by {
                        assert(g.dom().contains(k@));
                    }
                    lemma_done_extend(g, done0, k@);
                    lemma_deep_view_push(old(done).deep_view(), k@);
                    lemma_push_no_dup(old(done).deep_view(), k@);
                }
                done.push(clone_key(k));
                proof {
                    assert(done.deep_view() =~= old(done).deep_view().push(k@));
                    assert(done.deep_view().to_set() =~= done0.insert(k@));
                }
                Ok(())
            },
            Some(i) => {
                proof {
                    lemma_assoc_map_index(self.pair_seq(), i as int);
                    assert(self@[k@].deps == self.pair_seq()[i as int].1.deps);
                    assert(self.pair_seq()[i as int].1.deps == self.nodes@[
                        i as int
                    ].1.spec_deps());
                }
                let ds = self.nodes[i].1.dependencies();
                let ghost dseq = self@[k@].deps;
                proof {
                    assert(ds.deep_view() == dseq);
                    assert(g.dom().contains(k@));
                    assert(g[k@] == dseq);
                }
                let kc = clone_key(k);
                let ghost kcval = kc;
                path.push(kc);
                let ghost path1 = path0.push(k@);
                proof {
                    assert(path.deep_view() =~= path1);
                    lemma_deep_view_push(path0, k@);
                    assert(path1.to_set() =~= path0.to_set().insert(k@));
                    assert(path1.no_duplicates());
                    assert(path1.first() == root@);
                }
                let n = ds.len();
                for j in 0..n
                    invariant
                        n == ds.len(),
                        self.wf(),
                        g == self.graph(),
                        ds.deep_view() == dseq,
                        g.dom().contains(k@),
                        g[k@] == dseq,
                        path@ == old(path)@.push(kcval),
                        kcval@ == k@,
                        path.deep_view() == path1,
                        path1 == path0.push(k@),
                        path0 == old(path).deep_view(),
                        done0 == old(done).deep_view().to_set(),
                        !done0.contains(k@),
                        !path0.to_set().contains(k@),
                        path1.to_set() == path0.to_set().insert(k@),
                        path1.no_duplicates(),
                        path1.first() == root@,
                        chain_to(g, path0, k@),
                        done.deep_view().no_duplicates(),
                        done0.subset_of(done.deep_view().to_set()),
                        set_closed(g, done.deep_view().to_set()),
                        forall|d: Seq<char>|
                            done.deep_view().to_set().contains(d) ==> cycle_free_from(g, d),
                        done.deep_view().to_set().disjoint(path1.to_set()),
                        forall|m: int|
                            0 <= m < j ==> done.deep_view().to_set().contains(
                                #[trigger] dseq[m],
                            ),
                {
                    proof {
                        assert(edge(g, k@, dseq[j as int])) by {
                            assert(g[k@].contains(dseq[j as int]));
                        }
                        assert(chain_to(g, path1, dseq[j as int])) by {
                            assert forall|m: int| 0 <= m < path1.len() - 1 implies edge(
                                g,
                                #[trigger] path1[m],
                                path1[m + 1],
                            ) by {
                                if m < path0.len() - 1 {
                                    assert(path1[m] == path0[m]);
                                    assert(path1[m + 1] == path0[m + 1]);
                                } else {
                                    assert(path1[m] == path0.last());
                                    assert(path1[m + 1] == k@);
                                }
                            }
                            assert(path1.last() == k@);
                        }
                        lemma_assoc_map_finite(self.pair_seq());
                        assert(g.dom() =~= self@.dom());
                        let u0 = done0.union(path0.to_set());
                        let uc = done.deep_view().to_set().union(path1.to_set());
                        vstd::set_lib::lemma_len_subset(g.dom().difference(u0), g.dom());
                        assert(g.dom().difference(u0).contains(k@));
                        assert(g.dom().difference(uc).subset_of(
                            g.dom().difference(u0).remove(k@),
                        ));
                        vstd::set_lib::lemma_len_subset(
                            g.dom().difference(uc),
                            g.dom().difference(u0).remove(k@),
                        );
                        assert(g.dom().difference(u0).remove(k@).len() == g.dom().difference(
                            u0,
                        ).len() - 1);
                    }
                    match self.visit(&ds[j], path, done, root) {
                        Ok(()) => {
                            proof {
                                assert(ds[j as int]@ == dseq[j as int]);
                            }
                        },
                        Err(e) => {
                            return Err(e);
                        },
                    }
                }
                path.pop();
                proof {
                    assert(path@ =~= old(path)@);
                    assert(path.deep_view() =~= path0);
                    assert forall|b: Seq<char>|
                        edge(g, k@, b) implies done.deep_view().to_set().contains(b) by {
                        let m = choose|m: int| 0 <= m < dseq.len() && dseq[m] == b;
                    }
                    lemma_done_extend(g, done.deep_view().to_set(), k@);
                    lemma_deep_view_push(done.deep_view(), k@);
                    assert(path1.to_set().contains(k@)) by {
                        assert(path1.contains(k@)) by {
                            assert(path1[path1.len() - 1] == k@);
                        }
                    }
                    assert(!done.deep_view().to_set().contains(k@));
                    assert(!done.deep_view().contains(k@));
                    lemma_push_no_dup(done.deep_view(), k@);
                }
                let ghost done1 = done.deep_view();
                done.push(clone_key(k));
                proof {
                    assert(done.deep_view() =~= done1.push(k@));
                    assert(done.deep_view().to_set() =~= done1.to_set().insert(k@));
                }
                Ok(())
            },
        }
    }

    /// Check whether the dependency relation, as it stands, allows a walk
    /// from `root` that repeats a key. Insertion runs this rooted at each
    /// newly inserted key.
    pub fn check_cyclic_dependencies(&self, root: &str) -> (r: Result<(), ExecuteError>)
        requires
            self.wf(),
        ensures
            match r {
                Ok(()) => no_dup_from(self.graph(), root@),
                Err(e) => {
                    &&& (e matches ExecuteError::CyclicDependency(cv) && is_path(
                        self.graph(),
                        cv.deep_view(),
                    ) && cv.deep_view().first() == root@ && cv.deep_view().len() >= 2
                        && (exists|i: int|
                        0 <= i < cv.deep_view().len() - 1 && cv.deep_view()[i]
                            == cv.deep_view().last()))
                    &&& !acyclic(self.graph())
                    &&& !no_dup_from(self.graph(), root@)
                },
            },
    {
        let ghost g = self.graph();
        let rk = key_string(root);
        let mut path: Vec<String> = Vec::new();
        let mut done: Vec<String> = Vec::new();
        proof {
            assert(path.deep_view() =~= Seq::<Seq<char>>::empty());
            assert(done.deep_view() =~= Seq::<Seq<char>>::empty());
            assert(done.deep_view().to_set() =~= Set::<Seq<char>>::empty());
        }
        match self.visit(&rk, &mut path, &mut done, Ghost(root@)) {
            Ok(()) => {
                proof {
                    let ds = done.deep_view().to_set();
                    assert forall|p: Seq<Seq<char>>|
                        is_path(g, p) && p.first() == root@ implies p.no_duplicates() by {
                        if !p.no_duplicates() {
                            let (a, b) = choose|a: int, b: int|
                                0 <= a < p.len() && 0 <= b < p.len() && a != b && p[a] == p[b];
                            let lo = if a < b {
                                a
                            } else {
                                b
                            };
                            let hi = if a < b {
                                b
                            } else {
                                a
                            };
                            lemma_closed_path(g, ds, p);
                            lemma_path_subrange(g, p, lo, hi + 1);
                            let q = p.subrange(lo, hi + 1);
                            assert(q.first() == p[lo]);
                            assert(q.last() == p[hi]);
                            assert(is_cycle(g, q));
                            assert(ds.contains(p[lo]));
                            assert(cycle_free_from(g, p[lo]));
                        }
                    }
                }
                Ok(())
            },
            Err(e) => {
                proof {
                    let p = choose|p: Seq<Seq<char>>|
                        is_path(g, p) && p.first() == root@ && !p.no_duplicates();
                    let (a, b) = choose|a: int, b: int|
                        0 <= a < p.len() && 0 <= b < p.len() && a != b && p[a] == p[b];
                    if a < b {
                        lemma_dup_path_cycle(g, p, a, b);
                    } else {
                        lemma_dup_path_cycle(g, p, b, a);
                    }
                }
                Err(e)
            },
        }
    }
}

impl<O, T: Task<O>> DSK<O, T> {
    /// Insert a task under `key`. The insertion is refused, and the
    /// container left unchanged, if the key is already present or if the
    /// task's declared dependencies would close a cycle; an acyclic
    /// insertion always succeeds.
    pub fn add_task(&mut self, key: &str, task: T) -> (r: Result<(), ExecuteError>)
        requires
            old(self).valid(),
        ensures
            final(self).valid(),
            old(self)@.dom().contains(key@) ==> {
                &&& r matches Err(e) && e matches ExecuteError::TaskAlreadyExists(s) && s@
                    == key@
                &&& final(self)@ == old(self)@
            },
            !old(self)@.dom().contains(key@) ==> {
                let g2 = old(self).graph().insert(key@, task.deps_spec());
                &&& (r is Ok <==> acyclic(g2))
                &&& (r is Ok ==> final(self)@ == old(self)@.insert(
                    key@,
                    NodeView { deps: task.deps_spec(), result: None },
                ))
                &&& (r is Ok ==> final(self).task_at(key@) == task)
                &&& (r is Ok ==> forall|k: Seq<char>|
                    old(self)@.dom().contains(k) ==> #[trigger] final(self).node_at(k) == old(
                        self,
                    ).node_at(k))
                &&& (r matches Err(e) ==> final(self)@ == old(self)@ && (e
                    matches ExecuteError::CyclicDependency(cv) && is_path(g2, cv.deep_view())
                    && cv.deep_view().first() == key@ && cv.deep_view().len() >= 2 && (exists|
                    i: int,
                |
                    0 <= i < cv.deep_view().len() - 1 && cv.deep_view()[i]
                        == cv.deep_view().last())))
            },
    {
        let k = key_string(key);
        if self.find_index(&k).is_some() {
            return Err(ExecuteError::TaskAlreadyExists(k));
        }
        let ghost old_pairs = self.pair_seq();
        let ghost nv = NodeView { deps: task.deps_spec(), result: None::<O> };
        let ghost g2 = old(self).graph().insert(key@, task.deps_spec());
        let cache = Cache::from(task);
        self.nodes.push((k, cache));
        proof {
            assert(self.pair_seq() =~= old_pairs.push((key@, nv)));
            lemma_assoc_map_push(old_pairs, key@, nv);
            assert(self@ == old(self)@.insert(key@, nv));
            lemma_assoc_map_dom(old_pairs);
            assert forall|a: int, b: int|
                0 <= a < b < self.pair_seq().len() implies self.pair_seq()[a].0
                != self.pair_seq()[b].0 by {
                if b < old_pairs.len() {
                    assert(old_pairs[a].0 != old_pairs[b].0);
                } else {
                    assert(self.pair_seq()[b].0 == key@);
                    if old_pairs[a].0 == key@ {
                        assert(old(self)@.dom().contains(key@));
                    }
                }
            }
            assert(self.graph() =~= g2);
        }
        match self.check_cyclic_dependencies(key) {
            Ok(()) => {
                proof {
                    lemma_insert_acyclic(old(self).graph(), key@, task.deps_spec());
                    let nlen = old(self).nodes@.len() as int;
                    assert(self.nodes@[nlen].0@ == key@);
                    lemma_node_at_index(*self, nlen);
                    assert(self.node_at(key@) == self.nodes@[nlen].1);
                    assert(self.nodes@[nlen].1.task() == task);
                    lemma_assoc_map_dom(old_pairs);
                    assert forall|k: Seq<char>|
                        old(self)@.dom().contains(k) implies #[trigger] self.node_at(k)
                        == old(self).node_at(k) by {
                        let i2 = choose|i2: int|
                            0 <= i2 < old_pairs.len() && old_pairs[i2].0 == k;
                        assert(old_pairs[i2].0 == old(self).nodes@[i2].0@);
                        lemma_node_at_index(*old(self), i2);
                        assert(self.nodes@[i2] == old(self).nodes@[i2]);
                        assert(self.nodes@[i2].0@ == k);
                        lemma_node_at_index(*self, i2);
                    }
                }
                Ok(())
            },
            Err(e) => {
                self.nodes.pop();
                proof {
                    assert(self.nodes@ =~= old(self).nodes@);
                    assert(self.pair_seq() =~= old_pairs);
                    assert(self@ == old(self)@);
                }
                Err(e)
            },
        }
    }
}

impl<O, T: Task<O>> DSK<O, T> {
    /// Depth-first collection of every key reachable from `key`, erring on
    /// the first key found to have no node. `pending` holds the keys whose
    /// dependency walk is still under way.
    #[verifier::rlimit(60)]
    fn read_dependencies(
        &self,
        key: &String,
        required: &mut Vec<String>,
        pending: Ghost<Set<Seq<char>>>,
        roots: Ghost<Seq<Seq<char>>>,
    ) -> (r: Result<(), ExecuteError>)
        requires
            self.wf(),
            exists|i: int|
                0 <= i < roots@.len() && reaches(self.graph(), roots@[i], key@),
            old(required).deep_view().no_duplicates(),
            forall|d: Seq<char>|
                #[trigger] old(required).deep_view().contains(d) ==> self@.dom().contains(d),
            forall|d: Seq<char>|
                #[trigger] old(required).deep_view().contains(d) ==> exists|i: int|
                    0 <= i < roots@.len() && reaches(self.graph(), roots@[i], d),
            forall|d: Seq<char>, b: Seq<char>|
                old(required).deep_view().contains(d) && !pending@.contains(d) && edge(
                    self.graph(),
                    d,
                    b,
                ) ==> old(required).deep_view().contains(b),
            pending@.subset_of(old(required).deep_view().to_set()),
        ensures
            old(required).deep_view().to_set().subset_of(
                final(required).deep_view().to_set(),
            ),
            final(required).deep_view().no_duplicates(),
            forall|d: Seq<char>|
                #[trigger] final(required).deep_view().contains(d) ==> self@.dom().contains(
                    d,
                ),
            forall|d: Seq<char>|
                #[trigger] final(required).deep_view().contains(d) ==> exists|i: int|
                    0 <= i < roots@.len() && reaches(self.graph(), roots@[i], d),
            match r {
                Ok(()) => {
                    &&& final(required).deep_view().contains(key@)
                    &&& forall|d: Seq<char>, b: Seq<char>|
                        final(required).deep_view().contains(d) && !pending@.contains(d)
                            && edge(self.graph(), d, b)
                            ==> final(required).deep_view().contains(b)
                },
                Err(e) => {
                    &&& e matches ExecuteError::MissingDependency(mk) && !self@.dom().contains(
                        mk@,
                    ) && exists|i: int|
                        0 <= i < roots@.len() && reaches(self.graph(), roots@[i], mk@)
                },
            },
        decreases self.graph().dom().difference(
            old(required).deep_view().to_set(),
        ).len(),
    {
        let ghost g = self.graph();
        let ghost req0 = old(required).deep_view();
        if vec_contains_key(required, key) {
            return Ok(());
        }
        match self.find_index(key) {
            None => Err(ExecuteError::MissingDependency(clone_key(key))),
            Some(i) => {
                proof {
                    lemma_assoc_map_index(self.pair_seq(), i as int);
                    lemma_deep_view_push(req0, key@);
                    lemma_push_no_dup(req0, key@);
                }
                required.push(clone_key(key));
                let ghost req1 = required.deep_view();
                proof {
                    assert(req1 =~= req0.push(key@));
                    assert(req1.to_set() =~= req0.to_set().insert(key@));
                }
                let ds = self.nodes[i].1.dependencies();
                let ghost dseq = self@[key@].deps;
                proof {
                    assert(self.pair_seq()[i as int].1.deps == self.nodes@[
                        i as int
                    ].1.spec_deps());
                    assert(ds.deep_view() == dseq);
                    assert(g.dom().contains(key@));
                    assert(g[key@] == dseq);
                }
                let n = ds.len();
                for j in 0..n
                    invariant
                        n == ds.len(),
                        self.wf(),
                        g == self.graph(),
                        ds.deep_view() == dseq,
                        g.dom().contains(key@),
                        g[key@] == dseq,
                        req0 == old(required).deep_view(),
                        !req0.contains(key@),
                        !req0.to_set().contains(key@),
                        req0.to_set().insert(key@).subset_of(
                            required.deep_view().to_set(),
                        ),
                        required.deep_view().contains(key@),
                        required.deep_view().no_duplicates(),
                        forall|d: Seq<char>|
                            #[trigger] required.deep_view().contains(d)
                                ==> self@.dom().contains(d),
                        forall|d: Seq<char>|
                            #[trigger] required.deep_view().contains(d) ==> exists|i2: int|
                                0 <= i2 < roots@.len() && reaches(g, roots@[i2], d),
                        forall|d: Seq<char>, b: Seq<char>|
                            required.deep_view().contains(d) && !pending@.insert(
                                key@,
                            ).contains(d) && edge(g, d, b)
                                ==> required.deep_view().contains(b),
                        pending@.insert(key@).subset_of(required.deep_view().to_set()),
                        exists|i2: int|
                            0 <= i2 < roots@.len() && reaches(g, roots@[i2], key@),
                        forall|m: int|
                            0 <= m < j ==> required.deep_view().contains(
                                #[trigger] dseq[m],
                            ),
                {
                    proof {
                        assert(edge(g, key@, dseq[j as int])) by {
                            assert(g[key@].contains(dseq[j as int]));
                        }
                        let i2 = choose|i2: int|
                            0 <= i2 < roots@.len() && reaches(g, roots@[i2], key@);
                        lemma_reaches_extend(g, roots@[i2], key@, dseq[j as int]);
                        assert(ds[j as int]@ == dseq[j as int]);
                        lemma_assoc_map_finite(self.pair_seq());
                        assert(g.dom() =~= self@.dom());
                        vstd::set_lib::lemma_len_subset(
                            g.dom().difference(req0.to_set()),
                            g.dom(),
                        );
                        assert(g.dom().difference(req0.to_set()).contains(key@));
                        assert(g.dom().difference(
                            required.deep_view().to_set(),
                        ).subset_of(g.dom().difference(req0.to_set()).remove(key@)));
                        vstd::set_lib::lemma_len_subset(
                            g.dom().difference(required.deep_view().to_set()),
                            g.dom().difference(req0.to_set()).remove(key@),
                        );
                        assert(g.dom().difference(req0.to_set()).remove(key@).len()
                            == g.dom().difference(req0.to_set()).len() - 1);
                    }
                    let ghost reqb = required.deep_view();
                    match self.read_dependencies(
                        &ds[j],
                        required,
                        Ghost(pending@.insert(key@)),
                        roots,
                    ) {
                        Ok(()) => {
                            proof {
                                assert forall|m: int|
                                    0 <= m < j + 1 implies required.deep_view().contains(
                                    #[trigger] dseq[m],
                                ) by {
                                    if m < j {
                                        assert(reqb.contains(dseq[m]));
                                        assert(reqb.to_set().contains(dseq[m]));
                                        assert(required.deep_view().to_set().contains(
                                            dseq[m],
                                        ));
                                    } else {
                                        assert(required.deep_view().contains(ds[
                                            j as int
                                        ]@));
                                    }
                                }
                                assert(required.deep_view().contains(key@)) by {
                                    assert(reqb.to_set().contains(key@));
                                    assert(required.deep_view().to_set().contains(key@));
                                }
                                assert(req0.to_set().insert(key@).subset_of(
                                    required.deep_view().to_set(),
                                )) by {
                                    assert(reqb.to_set().subset_of(
                                        required.deep_view().to_set(),
                                    ));
                                }
                                assert(pending@.insert(key@).subset_of(
                                    required.deep_view().to_set(),
                                )) by {
                                    assert(reqb.to_set().subset_of(
                                        required.deep_view().to_set(),
                                    ));
                                }
                            }
                        },
                        Err(e) => {
                            return Err(e);
                        },
                    }
                }
                proof {
                    assert forall|d: Seq<char>, b: Seq<char>|
                        required.deep_view().contains(d) && !pending@.contains(d) && edge(
                            g,
                            d,
                            b,
                        ) implies required.deep_view().contains(b) by {
                        if d == key@ {
                            let m = choose|m: int| 0 <= m < dseq.len() && dseq[m] == b;
                        } else {
                            assert(!pending@.insert(key@).contains(d));
                        }
                    }
                }
                Ok(())
            },
        }
    }

    /// Keep exactly the nodes whose key is transitively reachable from
    /// `keys` along declared dependencies, discarding every other node and
    /// its cached result. Fails if any key encountered, the entries of
    /// `keys` included, has no node.
    pub fn cull(self, keys: &[&str]) -> (r: Result<DSK<O, T>, ExecuteError>)
        requires
            self.valid(),
        ensures
            ({
                let roots = keys@.map_values(|s: &str| s@);
                match r {
                    Ok(d2) => {
                        &&& d2.valid()
                        &&& forall|k: Seq<char>|
                            #[trigger] d2@.dom().contains(k) <==> exists|i: int|
                                0 <= i < roots.len() && reaches(self.graph(), roots[i], k)
                        &&& forall|k: Seq<char>|
                            #[trigger] d2@.dom().contains(k) ==> d2@[k] == self@[k]
                        &&& forall|i: int, k: Seq<char>|
                            0 <= i < roots.len() && reaches(self.graph(), roots[i], k)
                                ==> self@.dom().contains(k)
                    },
                    Err(e) => {
                        &&& e matches ExecuteError::MissingDependency(mk)
                            && !self@.dom().contains(mk@) && exists|i: int|
                            0 <= i < roots.len() && reaches(self.graph(), roots[i], mk@)
                    },
                }
            }),
    {
        let ghost g = self.graph();
        let ghost roots = keys@.map_values(|s: &str| s@);
        let ghost orig = self;
        let mut required: Vec<String> = Vec::new();
        proof {
            assert(required.deep_view() =~= Seq::<Seq<char>>::empty());
        }
        let nk = keys.len();
        for idx in 0..nk
            invariant
                nk == keys@.len(),
                self == orig,
                self.valid(),
                g == self.graph(),
                roots == keys@.map_values(|s: &str| s@),
                required.deep_view().no_duplicates(),
                forall|d: Seq<char>|
                    #[trigger] required.deep_view().contains(d) ==> self@.dom().contains(d),
                forall|d: Seq<char>|
                    #[trigger] required.deep_view().contains(d) ==> exists|i: int|
                        0 <= i < roots.len() && reaches(g, roots[i], d),
                forall|d: Seq<char>, b: Seq<char>|
                    required.deep_view().contains(d) && edge(g, d, b)
                        ==> required.deep_view().contains(b),
                forall|m: int|
                    0 <= m < idx ==> required.deep_view().contains(#[trigger] roots[m]),
        {
            let kk = key_string(keys[idx]);
            proof {
                assert(roots[idx as int] == keys@[idx as int]@);
                lemma_reaches_self(g, kk@);
            }
            let ghost reqb = required.deep_view();
            match self.read_dependencies(
                &kk,
                &mut required,
                Ghost(Set::empty()),
                Ghost(roots),
            ) {
                Ok(()) => {
                    proof {
                        assert forall|d: Seq<char>, b: Seq<char>|
                            required.deep_view().contains(d) && edge(g, d, b)
                                implies required.deep_view().contains(b) by {
                            assert(!Set::<Seq<char>>::empty().contains(d));
                        }
                        assert forall|m: int|
                            0 <= m < idx + 1 implies required.deep_view().contains(
                            #[trigger] roots[m],
                        ) by {
                            if m < idx {
                                assert(reqb.contains(roots[m]));
                                assert(reqb.to_set().contains(roots[m]));
                                assert(required.deep_view().to_set().contains(roots[m]));
                            } else {
                                assert(required.deep_view().contains(kk@));
                            }
                        }
                    }
                },
                Err(e) => {
                    return Err(e);
                },
            }
        }
        let ghost rset = required.deep_view().to_set();
        proof {
            assert forall|i: int, k: Seq<char>|
                0 <= i < roots.len() && reaches(g, roots[i], k)
                implies required.deep_view().contains(k) by {
                let p = choose|p: Seq<Seq<char>>|
                    is_path(g, p) && p.first() == roots[i] && p.last() == k;
                assert(set_closed(g, rset));
                assert(rset.contains(p.first()));
                lemma_closed_path(g, rset, p);
                assert(rset.contains(p[p.len() - 1]));
            }
        }
        let ghost orig_pairs = self.pair_seq();
        let n = self.nodes.len();
        let mut rest = self.nodes;
        let mut kept: Vec<(String, Cache<O, T>)> = Vec::new();
        proof {
            lemma_assoc_map_dom(orig_pairs);
        }
        for i in 0..n
            invariant
                n == orig_pairs.len(),
                rest@.len() == n - i,
                forall|m: int| 0 <= m < n - i ==> rest@[m] == orig.nodes@[m + i],
                orig_pairs == orig.pair_seq(),
                orig.wf(),
                keys_distinct(kept_pairs(kept@)),
                forall|k: Seq<char>|
                    #[trigger] assoc_map(kept_pairs(kept@)).dom().contains(k) <==> ((
                    exists|m: int| 0 <= m < i && orig_pairs[m].0 == k)
                        && required.deep_view().contains(k)),
                forall|k: Seq<char>|
                    #[trigger] assoc_map(kept_pairs(kept@)).dom().contains(k)
                        ==> assoc_map(kept_pairs(kept@))[k] == assoc_map(orig_pairs)[k],
        {
            let pair = rest.remove(0);
            proof {
                assert(pair == orig.nodes@[i as int]);
                assert(orig_pairs[i as int].0 == orig.nodes@[i as int].0@);
                assert(orig_pairs[i as int].1 == NodeView {
                    deps: orig.nodes@[i as int].1.spec_deps(),
                    result: orig.nodes@[i as int].1.spec_result(),
                });
            }
            if vec_contains_key(&required, &pair.0) {
                let ghost kp0 = kept_pairs(kept@);
                proof {
                    if assoc_map(kp0).dom().contains(pair.0@) {
                        let m = choose|m: int| 0 <= m < i && orig_pairs[m].0 == pair.0@;
                        assert(orig_pairs[m].0 != orig_pairs[i as int].0);
                        assert(false);
                    }
                    lemma_assoc_map_push(kp0, pair.0@, orig_pairs[i as int].1);
                }
                kept.push(pair);
                proof {
                    assert(kept_pairs(kept@) =~= kp0.push(
                        (orig_pairs[i as int].0, orig_pairs[i as int].1),
                    ));
                    lemma_assoc_map_index(orig_pairs, i as int);
                    assert forall|a: int, b: int|
                        0 <= a < b < kept_pairs(kept@).len() implies kept_pairs(kept@)[a].0
                        != kept_pairs(kept@)[b].0 by {
                        if b < kp0.len() {
                            assert(kp0[a].0 != kp0[b].0);
                        } else {
                            assert(!assoc_map(kp0).dom().contains(pair.0@));
                            lemma_assoc_map_dom(kp0);
                        }
                    }
                    assert forall|k: Seq<char>|
                        #[trigger] assoc_map(kept_pairs(kept@)).dom().contains(k) implies ((
                        exists|m: int| 0 <= m < i + 1 && orig_pairs[m].0 == k)
                            && required.deep_view().contains(k)) by {
                        if k != pair.0@ {
                            let m = choose|m: int| 0 <= m < i && orig_pairs[m].0 == k;
                        } else {
                            assert(orig_pairs[i as int].0 == k);
                        }
                    }
                    assert forall|k: Seq<char>|
                        ((exists|m: int| 0 <= m < i + 1 && orig_pairs[m].0 == k)
                            && required.deep_view().contains(k)) implies #[trigger]
                    assoc_map(kept_pairs(kept@)).dom().contains(k) by {
                        let m = choose|m: int| 0 <= m < i + 1 && orig_pairs[m].0 == k;
                        if m < i {
                            assert(assoc_map(kp0).dom().contains(k));
                        }
                    }
                }
            } else {
                proof {
                    assert forall|k: Seq<char>|
                        #[trigger] assoc_map(kept_pairs(kept@)).dom().contains(k) implies ((
                        exists|m: int| 0 <= m < i + 1 && orig_pairs[m].0 == k)
                            && required.deep_view().contains(k)) by {
                        let m = choose|m: int| 0 <= m < i && orig_pairs[m].0 == k;
                    }
                    assert forall|k: Seq<char>|
                        ((exists|m: int| 0 <= m < i + 1 && orig_pairs[m].0 == k)
                            && required.deep_view().contains(k)) implies #[trigger]
                    assoc_map(kept_pairs(kept@)).dom().contains(k) by {
                        let m = choose|m: int| 0 <= m < i + 1 && orig_pairs[m].0 == k;
                        assert(m != i);
                    }
                }
            }
            proof {
                assert forall|m: int|
                    0 <= m < n - (i + 1) implies rest@[m] == orig.nodes@[m + i + 1] by {}
            }
        }
        let culled = DSK { nodes: kept };
        proof {
            assert(culled.pair_seq() == kept_pairs(kept@));
            lemma_assoc_map_dom(orig_pairs);
            assert forall|k: Seq<char>|
                #[trigger] culled@.dom().contains(k) implies required.deep_view().contains(
                k,
            ) by {}
            assert forall|k: Seq<char>|
                required.deep_view().contains(k) implies #[trigger] culled@.dom().contains(
                k,
            ) by {
                assert(orig@.dom().contains(k));
                let m = choose|m: int| 0 <= m < orig_pairs.len() && orig_pairs[m].0 == k;
            }
            assert forall|k: Seq<char>|
                #[trigger] culled@.dom().contains(k) implies culled@[k] == orig@[k] by {}
            assert(acyclic(culled.graph())) by {
                assert forall|a: Seq<char>|
                    culled.graph().dom().contains(a) implies g.dom().contains(a)
                    && culled.graph()[a] == g[a] by {
                    assert(culled@[a] == orig@[a]);
                }
                lemma_subgraph_acyclic(g, culled.graph());
            }
        }
        Ok(culled)
    }
}

/// The task could produce `w` for some snapshot of dependency results.
pub open spec fn task_can_return<O, T: Task<O>>(t: T, w: O) -> bool {
    exists|s: Snapshot<O>| t.post(&s, Result::<O, ExecuteError>::Ok(w))
}

/// The node paired with `k` in a node sequence, later pairs first.
spec fn node_lookup<O, T>(s: Seq<(String, Cache<O, T>)>, k: Seq<char>) -> Cache<O, T>
    decreases s.len(),
{
    if s.len() == 0 {
        arbitrary()
    } else if s.last().0@ == k {
        s.last().1
    } else {
        node_lookup(s.drop_last(), k)
    }
}

/// With distinct keys, looking the key at one position up yields the node
/// at that position.
proof fn lemma_node_lookup<O, T>(s: Seq<(String, Cache<O, T>)>, pos: int)
    requires
        forall|a: int, b: int| 0 <= a < b < s.len() ==> s[a].0@ != s[b].0@,
        0 <= pos < s.len(),
    ensures
        node_lookup(s, s[pos].0@) == s[pos].1,
    decreases s.len(),
{
    if pos == s.len() - 1 {
        assert(s.last().0@ == s[pos].0@);
    } else {
        assert(s[s.len() - 1].0@ != s[pos].0@);
        assert(s.drop_last()[pos] == s[pos]);
        assert(forall|a: int, b: int|
            0 <= a < b < s.drop_last().len() ==> s.drop_last()[a] == s[a] && s.drop_last()[b]
                == s[b]);
        lemma_node_lookup(s.drop_last(), pos);
    }
}

/// With distinct keys, `node_at` of the key at one position is the node
/// at that position, and the map entry for that key describes it.
proof fn lemma_node_at_index<O, T>(d: DSK<O, T>, pos: int)
    requires
        d.wf(),
        0 <= pos < d.nodes@.len(),
    ensures
        d.node_at(d.nodes@[pos].0@) == d.nodes@[pos].1,
        d@.dom().contains(d.nodes@[pos].0@),
        d@[d.nodes@[pos].0@].result == d.nodes@[pos].1.spec_result(),
        d@[d.nodes@[pos].0@].deps == d.nodes@[pos].1.spec_deps(),
{
    assert forall|a: int, b: int|
        0 <= a < b < d.nodes@.len() implies d.nodes@[a].0@ != d.nodes@[b].0@ by {
        assert(d.pair_seq()[a].0 == d.nodes@[a].0@);
        assert(d.pair_seq()[b].0 == d.nodes@[b].0@);
    }
    lemma_node_lookup(d.nodes@, pos);
    assert(d.pair_seq()[pos].0 == d.nodes@[pos].0@);
    lemma_assoc_map_index(d.pair_seq(), pos);
    assert(d.pair_seq()[pos].1.result == d.nodes@[pos].1.spec_result());
    assert(d.pair_seq()[pos].1.deps == d.nodes@[pos].1.spec_deps());
}

/// The pairs a node vector holds, with keys read as character sequences.
spec fn kept_pairs<O, T>(s: Seq<(String, Cache<O, T>)>) -> Seq<(Seq<char>, NodeView<O>)> {
    s.map_values(
        |p: (String, Cache<O, T>)|
            (p.0@, NodeView { deps: p.1.spec_deps(), result: p.1.spec_result() }),
    )
}

impl<O: Clone, T: Task<O>> DSK<O, T> {
    /// Resolve `name`: depth-first, resolve every declared dependency in
    /// declared order, recording each resolved value in `cache`, then ask
    /// the node for its (possibly memoized) result. `path` carries the
    /// keys on the walk so far.
    #[verifier::rlimit(100)]
    fn get_rec(
        &mut self,
        name: &String,
        cache: &mut Snapshot<O>,
        path: Ghost<Seq<Seq<char>>>,
    ) -> (r: Result<O, ExecuteError>)
        requires
            old(self).valid(),
            old(cache).wf(),
            chain_to(old(self).graph(), path@, name@),
            path@.no_duplicates(),
            !path@.contains(name@),
            forall|i: int|
                0 <= i < path@.len() ==> old(self).graph().dom().contains(#[trigger] path@[i]),
        ensures
            final(self).valid(),
            final(cache).wf(),
            final(self)@.dom() == old(self)@.dom(),
            final(self).graph() == old(self).graph(),
            forall|k: Seq<char>|
                (#[trigger] old(self).result_of(k)) matches Some(w)
                    ==> final(self).result_of(k) == Some(w),
            forall|k: Seq<char>|
                #[trigger] old(cache)@.dom().contains(k) ==> final(cache)@.dom().contains(k),
            forall|k: Seq<char>|
                !reaches(old(self).graph(), name@, k) ==> #[trigger] final(self).result_of(k)
                    == old(self).result_of(k),
            forall|k: Seq<char>|
                !reaches(old(self).graph(), name@, k) && old(self)@.dom().contains(k)
                    ==> #[trigger] final(self).node_at(k) == old(self).node_at(k),
            forall|k: Seq<char>|
                #[trigger] final(cache)@.dom().contains(k) ==> (old(cache)@.dom().contains(k)
                    && final(cache)@[k] == old(cache)@[k]) || (final(self)@.dom().contains(k)
                    && (final(self).result_of(k) matches Some(w) && cloned::<O>(
                    w,
                    final(cache)@[k],
                ))),
            match r {
                Ok(v) => {
                    &&& final(self)@.dom().contains(name@)
                    &&& (final(self).result_of(name@) matches Some(w) && cloned::<O>(w, v))
                    &&& forall|k: Seq<char>|
                        reaches(old(self).graph(), name@, k) ==> final(self)@.dom().contains(
                            k,
                        ) && final(self).result_of(k) is Some
                    &&& forall|d: Seq<char>, k: Seq<char>|
                        #![trigger edge(old(self).graph(), name@, d), reaches(old(self).graph(), d, k)]
                        edge(old(self).graph(), name@, d) && reaches(old(self).graph(), d, k)
                            ==> final(cache)@.dom().contains(k) && (final(self).result_of(k)
                            matches Some(w) && cloned::<O>(w, final(cache)@[k]))
                    &&& old(self).result_of(name@) is None ==> (final(self).result_of(name@)
                        matches Some(w) && task_can_return(old(self).task_at(name@), w))
                },
                Err(e) => {
                    &&& !old(self)@.dom().contains(name@) ==> (e
                        matches ExecuteError::MissingDependency(mk) && mk@ == name@)
                    &&& old(self).all_reachable_cached(name@) ==> (e
                        matches ExecuteError::MissingDependency(mk) && !old(
                        self,
                    )@.dom().contains(mk@) && reaches(old(self).graph(), name@, mk@))
                },
            },
        decreases old(self)@.dom().len() - path@.len(),
    {
        let ghost g = self.graph();
        let ghost dom0 = self@.dom();
        let idx0 = match self.find_index(name) {
            Some(i) => i,
            None => {
                proof {
                    lemma_reaches_self(g, name@);
                }
                return Err(ExecuteError::MissingDependency(clone_key(name)));
            },
        };
        proof {
            lemma_assoc_map_index(self.pair_seq(), idx0 as int);
            assert(self.pair_seq()[idx0 as int].1.deps == self.nodes@[
                idx0 as int
            ].1.spec_deps());
        }
        let ds = clone_keys(self.nodes[idx0].1.dependencies());
        let ghost dseq = self@[name@].deps;
        proof {
            assert(ds.deep_view() == dseq);
            assert(g.dom().contains(name@));
            assert(g[name@] == dseq);
        }
        let ghost path1 = path@.push(name@);
        proof {
            lemma_push_no_dup(path@, name@);
            assert(path1.no_duplicates());
        }
        let n = ds.len();
        for j in 0..n
            invariant
                n == ds.len(),
                self.valid(),
                cache.wf(),
                g == self.graph(),
                dom0 == self@.dom(),
                dom0 == old(self)@.dom(),
                g == old(self).graph(),
                old(cache).wf(),
                ds.deep_view() == dseq,
                g.dom().contains(name@),
                g[name@] == dseq,
                path1 == path@.push(name@),
                path1.no_duplicates(),
                forall|i: int|
                    0 <= i < path1.len() ==> g.dom().contains(#[trigger] path1[i]),
                forall|i: int| 0 <= i < path@.len() - 1 ==> edge(g, #[trigger] path@[i], path@[i + 1]),
                path@.len() > 0 ==> edge(g, path@.last(), name@),
                forall|k: Seq<char>|
                    (#[trigger] old(self).result_of(k)) matches Some(w) ==> self.result_of(k)
                        == Some(w),
                forall|k: Seq<char>|
                    #[trigger] old(cache)@.dom().contains(k) ==> cache@.dom().contains(k),
                forall|k: Seq<char>|
                    !reaches(g, name@, k) ==> #[trigger] self.result_of(k) == old(
                        self,
                    ).result_of(k),
                forall|k: Seq<char>|
                    !reaches(g, name@, k) && dom0.contains(k) ==> #[trigger] self.node_at(k)
                        == old(self).node_at(k),
                self.node_at(name@) == old(self).node_at(name@),
                forall|k: Seq<char>|
                    #[trigger] cache@.dom().contains(k) ==> (old(cache)@.dom().contains(k)
                        && cache@[k] == old(cache)@[k]) || (self@.dom().contains(k) && (
                    self.result_of(k) matches Some(w) && cloned::<O>(w, cache@[k]))),
                forall|m: int, k: Seq<char>|
                    0 <= m < j && #[trigger] reaches(g, dseq[m], k) ==> self@.dom().contains(
                        k,
                    ) && cache@.dom().contains(k) && (self.result_of(k) matches Some(w)
                        && cloned::<O>(w, cache@[k])),
        {
            proof {
                assert(edge(g, name@, dseq[j as int])) by {
                    assert(g[name@].contains(dseq[j as int]));
                }
                assert(chain_to(g, path1, dseq[j as int])) by {
                    assert forall|m: int| 0 <= m < path1.len() - 1 implies edge(
                        g,
                        #[trigger] path1[m],
                        path1[m + 1],
                    ) by {
                        if m < path@.len() - 1 {
                            assert(path1[m] == path@[m]);
                            assert(path1[m + 1] == path@[m + 1]);
                        } else {
                            assert(path1[m] == path@.last());
                            assert(path1[m + 1] == name@);
                        }
                    }
                    assert(path1.last() == name@);
                }
                assert(!path1.contains(ds[j as int]@)) by {
                    if path1.contains(dseq[j as int]) {
                        let i2 = choose|i2: int|
                            0 <= i2 < path1.len() && path1[i2] == dseq[j as int];
                        let pp = path1.push(dseq[j as int]);
                        assert(is_path(g, pp)) by {
                            assert forall|m: int| 0 <= m < pp.len() - 1 implies edge(
                                g,
                                #[trigger] pp[m],
                                pp[m + 1],
                            ) by {
                                if m < path1.len() - 1 {
                                    assert(pp[m] == path1[m]);
                                    assert(pp[m + 1] == path1[m + 1]);
                                } else {
                                    assert(pp[m] == path1.last());
                                    assert(pp[m + 1] == dseq[j as int]);
                                }
                            }
                        }
                        assert(pp[i2] == pp[pp.len() - 1]);
                        lemma_dup_path_cycle(g, pp, i2, pp.len() - 1);
                    }
                }
                lemma_assoc_map_finite(self.pair_seq());
                assert(g.dom() =~= self@.dom());
                lemma_distinct_in_set_bound(path1, g.dom());
            }
            let d = &ds[j];
            let ghost selfb = *self;
            let ghost cacheb = *cache;
            match self.get_rec(d, cache, Ghost(path1)) {
                Ok(v) => {
                    proof {
                        assert forall|k: Seq<char>|
                            !reaches(g, name@, k) implies #[trigger] self.result_of(k) == old(
                            self,
                        ).result_of(k) by {
                            assert(!reaches(g, dseq[j as int], k)) by {
                                if reaches(g, dseq[j as int], k) {
                                    lemma_reaches_prepend(g, name@, dseq[j as int], k);
                                }
                            }
                            assert(self.result_of(k) == selfb.result_of(k));
                        }
                        assert forall|k: Seq<char>|
                            !reaches(g, name@, k) && dom0.contains(k) implies #[trigger]
                        self.node_at(k) == old(self).node_at(k) by {
                            assert(!reaches(g, dseq[j as int], k)) by {
                                if reaches(g, dseq[j as int], k) {
                                    lemma_reaches_prepend(g, name@, dseq[j as int], k);
                                }
                            }
                            assert(self.node_at(k) == selfb.node_at(k));
                        }
                        assert(self.node_at(name@) == selfb.node_at(name@)) by {
                            assert(!reaches(g, dseq[j as int], name@)) by {
                                if reaches(g, dseq[j as int], name@) {
                                    let p = choose|p: Seq<Seq<char>>|
                                        is_path(g, p) && p.first() == dseq[j as int]
                                            && p.last() == name@;
                                    let q = p.push(dseq[j as int]);
                                    assert forall|m: int|
                                        0 <= m < q.len() - 1 implies edge(
                                        g,
                                        #[trigger] q[m],
                                        q[m + 1],
                                    ) by {
                                        if m < p.len() - 1 {
                                            assert(q[m] == p[m]);
                                            assert(q[m + 1] == p[m + 1]);
                                        } else {
                                            assert(q[m] == p.last());
                                            assert(q[m + 1] == dseq[j as int]);
                                            assert(edge(g, name@, dseq[j as int]));
                                        }
                                    }
                                    assert(q.first() == dseq[j as int]);
                                    assert(q[q.len() - 1] == dseq[j as int]);
                                    assert(is_cycle(g, q));
                                }
                            }
                        }
                        assert forall|k: Seq<char>|
                            #[trigger] cache@.dom().contains(k) implies (old(
                            cache,
                        )@.dom().contains(k) && cache@[k] == old(cache)@[k]) || (
                        self@.dom().contains(k) && (self.result_of(k) matches Some(w)
                            && cloned::<O>(w, cache@[k]))) by {
                            if cacheb@.dom().contains(k) && cache@[k] == cacheb@[k] {
                                if cacheb@.dom().contains(k) && !(old(
                                    cache,
                                )@.dom().contains(k) && cacheb@[k] == old(cache)@[k]) {
                                    assert(selfb.result_of(k) matches Some(w) && cloned::<O>(
                                        w,
                                        cacheb@[k],
                                    ));
                                }
                            }
                        }
                        assert forall|m: int, k: Seq<char>|
                            0 <= m < j && #[trigger] reaches(g, dseq[m], k)
                            implies self@.dom().contains(k) && cache@.dom().contains(k) && (
                        self.result_of(k) matches Some(w) && cloned::<O>(w, cache@[k])) by {
                            assert(selfb.result_of(k) matches Some(w) && cloned::<O>(
                                w,
                                cacheb@[k],
                            ));
                            if !(cacheb@.dom().contains(k) && cache@[k] == cacheb@[k]) {
                                assert(self@.dom().contains(k) && (self.result_of(k)
                                    matches Some(w) && cloned::<O>(w, cache@[k])));
                            }
                        }
                    }
                    let ghost cache_mid = *cache;
                    let ghost self_mid = *self;
                    cache.insert(clone_key(d), v);
                    proof {
                        assert(cache@ == cache_mid@.insert(dseq[j as int], v));
                        assert(self.result_of(dseq[j as int]) matches Some(w) && cloned::<O>(
                            w,
                            v,
                        ));
                        assert forall|k: Seq<char>|
                            #[trigger] cache@.dom().contains(k) implies (old(
                            cache,
                        )@.dom().contains(k) && cache@[k] == old(cache)@[k]) || (
                        self@.dom().contains(k) && (self.result_of(k) matches Some(w)
                            && cloned::<O>(w, cache@[k]))) by {
                            if k != dseq[j as int] {
                                assert(cache@[k] == cache_mid@[k]);
                                assert(cache_mid@.dom().contains(k));
                            }
                        }
                        assert forall|m: int, k: Seq<char>|
                            0 <= m < j + 1 && #[trigger] reaches(g, dseq[m], k)
                            implies self@.dom().contains(k) && cache@.dom().contains(k) && (
                        self.result_of(k) matches Some(w) && cloned::<O>(w, cache@[k])) by {
                            if m == j {
                                if k == dseq[j as int] {
                                } else {
                                    lemma_reaches_first_step(g, dseq[j as int], k);
                                    let d2 = choose|d2: Seq<char>|
                                        edge(g, dseq[j as int], d2) && reaches(g, d2, k);
                                    assert(edge(g, dseq[j as int], d2) && reaches(g, d2, k));
                                    assert(cache_mid@.dom().contains(k) && (
                                    self_mid.result_of(k) matches Some(w) && cloned::<O>(
                                        w,
                                        cache_mid@[k],
                                    )));
                                    assert(cache@[k] == cache_mid@[k]);
                                }
                            } else {
                                if k != dseq[j as int] {
                                    assert(cache@[k] == cache_mid@[k]);
                                    assert(cache_mid@.dom().contains(k) && (
                                    self_mid.result_of(k) matches Some(w) && cloned::<O>(
                                        w,
                                        cache_mid@[k],
                                    )));
                                }
                            }
                        }
                    }
                },
                Err(e) => {
                    proof {
                        assert(self.graph() == g);
                        assert(self@.dom() == dom0);
                        assert forall|k: Seq<char>|
                            !reaches(g, name@, k) implies #[trigger] self.result_of(k) == old(
                            self,
                        ).result_of(k) by {
                            assert(!reaches(g, dseq[j as int], k)) by {
                                if reaches(g, dseq[j as int], k) {
                                    lemma_reaches_prepend(g, name@, dseq[j as int], k);
                                }
                            }
                            assert(self.result_of(k) == selfb.result_of(k));
                        }
                        assert forall|k: Seq<char>|
                            !reaches(g, name@, k) && dom0.contains(k) implies #[trigger]
                        self.node_at(k) == old(self).node_at(k) by {
                            assert(!reaches(g, dseq[j as int], k)) by {
                                if reaches(g, dseq[j as int], k) {
                                    lemma_reaches_prepend(g, name@, dseq[j as int], k);
                                }
                            }
                            assert(self.node_at(k) == selfb.node_at(k));
                        }
                        assert forall|k: Seq<char>|
                            #[trigger] cache@.dom().contains(k) implies (old(
                            cache,
                        )@.dom().contains(k) && cache@[k] == old(cache)@[k]) || (
                        self@.dom().contains(k) && (self.result_of(k) matches Some(w)
                            && cloned::<O>(w, cache@[k]))) by {
                            if cacheb@.dom().contains(k) && cache@[k] == cacheb@[k] {
                                if cacheb@.dom().contains(k) && !(old(
                                    cache,
                                )@.dom().contains(k) && cacheb@[k] == old(cache)@[k]) {
                                    assert(selfb.result_of(k) matches Some(w) && cloned::<O>(
                                        w,
                                        cacheb@[k],
                                    ));
                                }
                            }
                        }
                        if old(self).all_reachable_cached(name@) {
                            assert(selfb.all_reachable_cached(ds[j as int]@)) by {
                                assert forall|k: Seq<char>|
                                    #[trigger] reaches(selfb.graph(), dseq[j as int], k)
                                        && selfb@.dom().contains(k)
                                    implies selfb.result_of(k) is Some by {
                                    lemma_reaches_prepend(g, name@, dseq[j as int], k);
                                    assert(old(self).result_of(k) is Some);
                                }
                            }
                            assert(e matches ExecuteError::MissingDependency(mk)
                                && !selfb@.dom().contains(mk@) && reaches(
                                g,
                                dseq[j as int],
                                mk@,
                            ));
                            match &e {
                                ExecuteError::MissingDependency(mk) => {
                                    lemma_reaches_prepend(g, name@, dseq[j as int], mk@);
                                },
                                _ => {
                                    assert(false);
                                },
                            }
                        }
                    }
                    return Err(e);
                },
            }
        }
        let idx = match self.find_index(name) {
            Some(i) => i,
            None => {
                proof {
                    assert(false);
                }
                vstd::pervasive::unreached()
            },
        };
        proof {
            lemma_assoc_map_index(self.pair_seq(), idx as int);
            assert(self.pair_seq()[idx as int].0 == self.nodes@[idx as int].0@);
        }
        let ghost pairs_b = self.pair_seq();
        let ghost self_b = *self;
        let mut pair = self.nodes.remove(idx);
        let ghost pair_b = pair;
        let ghost snap_at_exec = *cache;
        let out = match pair.1.get(cache) {
            Ok(v) => Ok(clone_value(v)),
            Err(e) => Err(e),
        };
        let ghost nv2 = NodeView { deps: pair.1.spec_deps(), result: pair.1.spec_result() };
        self.nodes.insert(idx, pair);
        proof {
            assert(self.nodes@ =~= self_b.nodes@.update(idx as int, self.nodes@[idx as int]));
            assert(self.pair_seq() =~= pairs_b.update(idx as int, (name@, nv2)));
            lemma_assoc_map_update(pairs_b, idx as int, nv2);
            assert(self@ =~= self_b@.insert(name@, nv2));
            assert(nv2.deps == self_b@[name@].deps);
            assert forall|a: int, b: int|
                0 <= a < b < self.pair_seq().len() implies self.pair_seq()[a].0
                != self.pair_seq()[b].0 by {
                assert(pairs_b[a].0 != pairs_b[b].0);
            }
            assert(self@.dom() =~= self_b@.dom());
            assert(self.graph() =~= self_b.graph());
            lemma_assoc_map_index(pairs_b, idx as int);
            assert(self_b@[name@] == pairs_b[idx as int].1);
            lemma_reaches_self(g, name@);
            assert(self_b.nodes@[idx as int].0@ == name@);
            lemma_node_at_index(self_b, idx as int);
            assert(self_b.node_at(name@) == pair_b.1);
            lemma_assoc_map_dom(pairs_b);
            assert forall|k: Seq<char>|
                !reaches(g, name@, k) && dom0.contains(k) implies self.node_at(k) == old(
                self,
            ).node_at(k) by {
                assert(k != name@);
                let i2 = choose|i2: int|
                    0 <= i2 < pairs_b.len() && pairs_b[i2].0 == k;
                assert(pairs_b[i2].0 == self_b.nodes@[i2].0@);
                assert(i2 != idx);
                lemma_node_at_index(self_b, i2);
                assert(self.nodes@[i2] == self_b.nodes@[i2]);
                assert(self.nodes@[i2].0@ == k);
                lemma_node_at_index(*self, i2);
                assert(self_b.node_at(k) == old(self).node_at(k));
            }
            if out is Ok && old(self).result_of(name@) is None {
                lemma_node_at_index(*old(self), idx0 as int);
                assert(old(self).nodes@[idx0 as int].0@ == name@);
                assert(old(self).node_at(name@) == old(self).nodes@[idx0 as int].1);
                assert(old(self).node_at(name@).spec_result() is None);
                assert(pair_b.1 == old(self).node_at(name@));
                assert(pair_b.1.spec_result() is None);
                assert(nv2.result is Some);
                let w = choose|w: O| nv2.result == Some(w);
                assert(nv2.result == Some(w));
                assert(pair_b.1.task().post(&snap_at_exec, Result::<O, ExecuteError>::Ok(w)));
                assert(old(self).task_at(name@) == pair_b.1.task());
                assert(task_can_return(old(self).task_at(name@), w)) by {
                    assert(old(self).task_at(name@).post(
                        &snap_at_exec,
                        Result::<O, ExecuteError>::Ok(w),
                    ));
                }
                assert(self.result_of(name@) == Some(w));
            }
            assert forall|k: Seq<char>|
                !reaches(g, name@, k) implies #[trigger] self.result_of(k) == old(
                self,
            ).result_of(k) by {
                assert(k != name@);
                assert(self@[k] == self_b@[k]);
                assert(self.result_of(k) == self_b.result_of(k));
            }
            assert forall|k: Seq<char>|
                #[trigger] cache@.dom().contains(k) implies (old(cache)@.dom().contains(k)
                && cache@[k] == old(cache)@[k]) || (self@.dom().contains(k) && (
            self.result_of(k) matches Some(w) && cloned::<O>(w, cache@[k]))) by {
                if !(old(cache)@.dom().contains(k) && cache@[k] == old(cache)@[k]) {
                    assert(self_b.result_of(k) matches Some(w) && cloned::<O>(w, cache@[k]));
                    if k == name@ {
                        assert(self_b.result_of(name@) is Some);
                        assert(pair_b.1.spec_result() == self_b.result_of(name@));
                        assert(nv2.result == self_b.result_of(name@));
                    } else {
                        assert(self.result_of(k) == self_b.result_of(k));
                    }
                }
            }
            if out is Ok {
                assert forall|d2: Seq<char>, k: Seq<char>|
                    #![trigger edge(g, name@, d2), reaches(g, d2, k)]
                    edge(g, name@, d2) && reaches(g, d2, k) implies cache@.dom().contains(k)
                    && (self.result_of(k) matches Some(w) && cloned::<O>(w, cache@[k])) by {
                    let m = choose|m: int| 0 <= m < dseq.len() && dseq[m] == d2;
                    assert(reaches(g, dseq[m], k));
                    assert(self_b.result_of(k) matches Some(w) && cloned::<O>(
                        w,
                        cache@[k],
                    ));
                    if k == name@ {
                        assert(self_b.result_of(name@) is Some);
                        assert(pair_b.1.spec_result() == self_b.result_of(name@));
                        assert(nv2.result == self_b.result_of(name@));
                    } else {
                        assert(self.result_of(k) == self_b.result_of(k));
                    }
                }
            }
            if out is Err && old(self).all_reachable_cached(name@) {
                lemma_reaches_self(g, name@);
                assert(old(self).result_of(name@) is Some);
                assert(self_b.result_of(name@) is Some);
                lemma_assoc_map_index(pairs_b, idx as int);
                assert(pair_b.1.spec_result() == self_b.result_of(name@));
                assert(false);
            }
            if out is Ok {
                assert forall|k: Seq<char>|
                    reaches(g, name@, k) implies self@.dom().contains(k)
                    && self.result_of(k) is Some by {
                    if k == name@ {
                    } else {
                        lemma_reaches_first_step(g, name@, k);
                        let b2 = choose|b2: Seq<char>| edge(g, name@, b2) && reaches(g, b2, k);
                        let m = choose|m: int| 0 <= m < dseq.len() && dseq[m] == b2;
                        assert(self_b.result_of(k) is Some);
                    }
                }
            }
        }
        out
    }

    /// Resolve the task under `task_name`: every declared dependency is
    /// resolved first, depth-first in declared order, each resolved
    /// value is recorded in `cache`, and each node's result is computed
    /// at most once, reused from then on. The returned value is a clone
    /// of the memoized result.
    pub fn get(&mut self, task_name: &str, cache: &mut Snapshot<O>) -> (r: Result<
        O,
        ExecuteError,
    >)
        requires
            old(self).valid(),
            old(cache).wf(),
        ensures
            final(self).valid(),
            final(cache).wf(),
            final(self)@.dom() == old(self)@.dom(),
            final(self).graph() == old(self).graph(),
            forall|k: Seq<char>|
                (#[trigger] old(self).result_of(k)) matches Some(w)
                    ==> final(self).result_of(k) == Some(w),
            forall|k: Seq<char>|
                #[trigger] old(cache)@.dom().contains(k) ==> final(cache)@.dom().contains(k),
            forall|k: Seq<char>|
                !reaches(old(self).graph(), task_name@, k)
                    ==> #[trigger] final(self).result_of(k) == old(self).result_of(k),
            forall|k: Seq<char>|
                !reaches(old(self).graph(), task_name@, k) && old(self)@.dom().contains(k)
                    ==> #[trigger] final(self).node_at(k) == old(self).node_at(k),
            forall|k: Seq<char>|
                #[trigger] final(cache)@.dom().contains(k) ==> (old(cache)@.dom().contains(k)
                    && final(cache)@[k] == old(cache)@[k]) || (final(self)@.dom().contains(k)
                    && (final(self).result_of(k) matches Some(w) && cloned::<O>(
                    w,
                    final(cache)@[k],
                ))),
            match r {
                Ok(v) => {
                    &&& final(self)@.dom().contains(task_name@)
                    &&& (final(self).result_of(task_name@) matches Some(w) && cloned::<O>(
                        w,
                        v,
                    ))
                    &&& forall|k: Seq<char>|
                        reaches(old(self).graph(), task_name@, k)
                            ==> final(self)@.dom().contains(k) && final(self).result_of(k)
                            is Some
                    &&& forall|d: Seq<char>, k: Seq<char>|
                        #![trigger edge(old(self).graph(), task_name@, d), reaches(old(self).graph(), d, k)]
                        edge(old(self).graph(), task_name@, d) && reaches(
                            old(self).graph(),
                            d,
                            k,
                        ) ==> final(cache)@.dom().contains(k) && (final(self).result_of(k)
                            matches Some(w) && cloned::<O>(w, final(cache)@[k]))
                    &&& old(self).result_of(task_name@) is None ==> (final(self).result_of(
                        task_name@,
                    ) matches Some(w) && task_can_return(old(self).task_at(task_name@), w))
                },
                Err(e) => {
                    &&& !old(self)@.dom().contains(task_name@) ==> (e
                        matches ExecuteError::MissingDependency(mk) && mk@ == task_name@)
                    &&& old(self).all_reachable_cached(task_name@) ==> (e
                        matches ExecuteError::MissingDependency(mk) && !old(
                        self,
                    )@.dom().contains(mk@) && reaches(old(self).graph(), task_name@, mk@))
                },
            },
    {
        let nm = key_string(task_name);
        self.get_rec(&nm, cache, Ghost(Seq::empty()))
    }
}

impl<O, T: Task<O>> DSK<O, T> {
    /// The subset of the container's own keys that appear in the union of
    /// the given tasks' declared dependencies.
    pub fn keys_in_dsk<T2: Task<O>>(&self, tasks: &[&T2]) -> (r: Vec<String>)
        requires
            self.wf(),
        ensures
            forall|k: Seq<char>|
                #[trigger] r.deep_view().contains(k) <==> (self@.dom().contains(k) && exists|
                    m: int,
                |
                    0 <= m < tasks@.len() && #[trigger] tasks@[m].deps_spec().contains(k)),
            r.deep_view().no_duplicates(),
    {
        let mut wanted: Vec<String> = Vec::new();
        let nt = tasks.len();
        proof {
            assert(wanted.deep_view() =~= Seq::<Seq<char>>::empty());
        }
        for i in 0..nt
            invariant
                nt == tasks@.len(),
                forall|k: Seq<char>|
                    #[trigger] wanted.deep_view().contains(k) <==> exists|m: int|
                        0 <= m < i && #[trigger] tasks@[m].deps_spec().contains(k),
        {
            let ds = tasks[i].dependencies();
            let nd = ds.len();
            for j in 0..nd
                invariant
                    nt == tasks@.len(),
                    i < nt,
                    nd == ds.len(),
                    ds.deep_view() == tasks@[i as int].deps_spec(),
                    forall|k: Seq<char>|
                        #[trigger] wanted.deep_view().contains(k) <==> (exists|m: int|
                            0 <= m < i && #[trigger] tasks@[m].deps_spec().contains(k))
                            || (exists|m: int|
                            0 <= m < j && ds.deep_view()[m] == k),
            {
                let ghost w0 = wanted.deep_view();
                wanted.push(clone_key(&ds[j]));
                proof {
                    assert(wanted.deep_view() =~= w0.push(ds.deep_view()[j as int]));
                    lemma_deep_view_push(w0, ds.deep_view()[j as int]);
                    assert forall|k: Seq<char>| #[trigger]
                        wanted.deep_view().contains(k) implies ((exists|m: int|
                        0 <= m < i && #[trigger] tasks@[m].deps_spec().contains(k)) || (exists|
                        m: int,
                    |
                        0 <= m < j + 1 && ds.deep_view()[m] == k)) by {
                        if !w0.contains(k) {
                            assert(ds.deep_view()[j as int] == k);
                        }
                    }
                }
            }
            proof {
                assert forall|k: Seq<char>| #[trigger]
                    wanted.deep_view().contains(k) implies exists|m: int|
                    0 <= m < i + 1 && #[trigger] tasks@[m].deps_spec().contains(k) by {
                    if exists|m: int| 0 <= m < i && #[trigger] tasks@[m].deps_spec().contains(
                        k,
                    ) {
                    } else {
                        let m = choose|m: int| 0 <= m < nd && ds.deep_view()[m] == k;
                        assert(tasks@[i as int].deps_spec().contains(k));
                    }
                }
                assert forall|k: Seq<char>|
                    (exists|m: int|
                        0 <= m < i + 1 && #[trigger] tasks@[m].deps_spec().contains(
                            k,
                        )) implies #[trigger] wanted.deep_view().contains(k) by {
                    let m = choose|m: int|
                        0 <= m < i + 1 && #[trigger] tasks@[m].deps_spec().contains(k);
                    if m == i {
                        let j2 = choose|j2: int|
                            0 <= j2 < ds.deep_view().len() && ds.deep_view()[j2] == k;
                    }
                }
            }
        }
        let mut r: Vec<String> = Vec::new();
        let n = self.nodes.len();
        proof {
            lemma_assoc_map_dom(self.pair_seq());
            assert(r.deep_view() =~= Seq::<Seq<char>>::empty());
        }
        for i in 0..n
            invariant
                n == self.nodes.len(),
                self.wf(),
                forall|k: Seq<char>|
                    #[trigger] wanted.deep_view().contains(k) <==> exists|m: int|
                        0 <= m < tasks@.len() && #[trigger] tasks@[m].deps_spec().contains(k),
                forall|k: Seq<char>|
                    #[trigger] r.deep_view().contains(k) <==> exists|j: int|
                        0 <= j < i && #[trigger] self.pair_seq()[j].0 == k
                            && wanted.deep_view().contains(k),
                r.deep_view().no_duplicates(),
        {
            proof {
                assert(self.pair_seq()[i as int].0 == self.nodes@[i as int].0@);
            }
            if vec_contains_key(&wanted, &self.nodes[i].0) {
                let ghost r0 = r.deep_view();
                proof {
                    if r.deep_view().contains(self.pair_seq()[i as int].0) {
                        let j = choose|j: int|
                            0 <= j < i && #[trigger] self.pair_seq()[j].0 == self.pair_seq()[
                                i as int
                            ].0 && wanted.deep_view().contains(self.pair_seq()[i as int].0);
                        assert(false);
                    }
                }
                r.push(self.nodes[i].0.clone());
                proof {
                    assert(r.deep_view() =~= r0.push(self.pair_seq()[i as int].0));
                    lemma_deep_view_push(r0, self.pair_seq()[i as int].0);
                    assert forall|k: Seq<char>| #[trigger]
                        r.deep_view().contains(k) implies exists|j: int|
                        0 <= j < i + 1 && #[trigger] self.pair_seq()[j].0 == k
                            && wanted.deep_view().contains(k) by {
                        if r0.contains(k) {
                            let j = choose|j: int|
                                0 <= j < i && #[trigger] self.pair_seq()[j].0 == k
                                    && wanted.deep_view().contains(k);
                        } else {
                            assert(self.pair_seq()[i as int].0 == k);
                        }
                    }
                }
            } else {
                proof {
                    assert forall|k: Seq<char>| #[trigger]
                        r.deep_view().contains(k) implies exists|j: int|
                        0 <= j < i + 1 && #[trigger] self.pair_seq()[j].0 == k
                            && wanted.deep_view().contains(k) by {
                        let j = choose|j: int|
                            0 <= j < i && #[trigger] self.pair_seq()[j].0 == k
                                && wanted.deep_view().contains(k);
                    }
                    assert forall|k: Seq<char>|
                        (exists|j: int|
                            0 <= j < i + 1 && #[trigger] self.pair_seq()[j].0 == k
                                && wanted.deep_view().contains(k)) implies #[trigger]
                    r.deep_view().contains(k) by {
                        let j = choose|j: int|
                            0 <= j < i + 1 && #[trigger] self.pair_seq()[j].0 == k
                                && wanted.deep_view().contains(k);
                        assert(j != i);
                    }
                }
            }
        }
        proof {
            assert forall|k: Seq<char>| #[trigger]
                r.deep_view().contains(k) implies (self@.dom().contains(k) && exists|m: int|
                0 <= m < tasks@.len() && #[trigger] tasks@[m].deps_spec().contains(k)) by {
                let j = choose|j: int|
                    0 <= j < n && #[trigger] self.pair_seq()[j].0 == k
                        && wanted.deep_view().contains(k);
                lemma_assoc_map_index(self.pair_seq(), j);
            }
            assert forall|k: Seq<char>|
                (self@.dom().contains(k) && exists|m: int|
                    0 <= m < tasks@.len() && #[trigger] tasks@[m].deps_spec().contains(
                        k,
                    )) implies #[trigger] r.deep_view().contains(k) by {
                let j = choose|j: int|
                    0 <= j < self.pair_seq().len() && self.pair_seq()[j].0 == k;
            }
        }
        r
    }
}

/// Make an owned copy of a borrowed value.
fn clone_value<O: Clone>(v: &O) -> (r: O)
    ensures
        cloned::<O>(*v, r),
{
    v.clone()
}

/// Make an owned copy of a vector of keys.
fn clone_keys(keys: &Vec<String>) -> (r: Vec<String>)
    ensures
        r.deep_view() == keys.deep_view(),
        r@ == keys@,
{
    let n = keys.len();
    let mut r: Vec<String> = Vec::new();
    for i in 0..n
        invariant
            n == keys.len(),
            r@ == keys@.take(i as int),
    {
        r.push(clone_key(&keys[i]));
        proof {
            assert(r@ =~= keys@.take(i + 1));
        }
    }
    proof {
        assert(keys@.take(n as int) =~= keys@);
        assert(r.deep_view() =~= keys.deep_view());
    }
    r
}

/// Make an owned copy of a key already held as a `String`.
fn clone_key(key: &String) -> (r: String)
    ensures
        r == *key,
        r@ == key@,
{
    key.clone()
}

/// Make an owned copy of a borrowed key.
fn key_string(key: &str) -> (r: String)
    ensures
        r@ == key@,
{
    <String as vstd::string::StringExecFns>::from_str(key)
}

/// Whether `needle` occurs in `keys`.
fn vec_contains_key(keys: &Vec<String>, needle: &String) -> (r: bool)
    ensures
        r == keys.deep_view().contains(needle@),
{
    let n = keys.len();
    for i in 0..n
        invariant
            n == keys.len(),
            forall|j: int| 0 <= j < i ==> keys.deep_view()[j] != needle@,
    {
        if keys[i] == *needle {
            proof {
                assert(keys.deep_view()[i as int] == needle@);
            }
            return true;
        }
        proof {
            assert(keys.deep_view()[i as int] == keys@[i as int]@);
        }
    }
    proof {
        if keys.deep_view().contains(needle@) {
            let j = choose|j: int|
                0 <= j < keys.deep_view().len() && keys.deep_view()[j] == needle@;
        }
    }
    false
}

/// A distinct sequence stays distinct when a fresh element is appended.
proof fn lemma_push_no_dup(s: Seq<Seq<char>>, x: Seq<char>)
    requires
        s.no_duplicates(),
        !s.contains(x),
    ensures
        s.push(x).no_duplicates(),
{
    assert forall|a: int, b: int|
        0 <= a < b < s.push(x).len() implies s.push(x)[a] != s.push(x)[b] by {
        if b < s.len() {
            assert(s.push(x)[a] == s[a]);
            assert(s.push(x)[b] == s[b]);
        } else {
            assert(s.push(x)[a] == s[a]);
            assert(s.push(x)[b] == x);
            assert(!s.contains(x));
        }
    }
}

/// Pushing onto a vector of keys appends to its deep view.
proof fn lemma_deep_view_push(s: Seq<Seq<char>>, x: Seq<char>)
    ensures
        forall|k: Seq<char>| #[trigger] s.push(x).contains(k) <==> s.contains(k) || k == x,
{
    assert forall|k: Seq<char>| #[trigger] s.push(x).contains(k) implies s.contains(k) || k
        == x by {
        let j = choose|j: int| 0 <= j < s.push(x).len() && s.push(x)[j] == k;
        if j < s.len() {
            assert(s[j] == k);
        }
    }
    assert forall|k: Seq<char>| s.contains(k) || k == x implies #[trigger] s.push(x).contains(
        k,
    ) by {
        if s.contains(k) {
            let j = choose|j: int| 0 <= j < s.len() && s[j] == k;
            assert(s.push(x)[j] == k);
        } else {
            assert(s.push(x)[s.len() as int] == x);
        }
    }
}

} // verus!
