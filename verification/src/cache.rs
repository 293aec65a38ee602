//! The memoizing node: owns one task and, once computed, its cached result.

use vstd::prelude::*;
use crate::error::ExecuteError;
use crate::snapshot::Snapshot;
use crate::{FnTask, NullTask, Task};

verus! {

/// A memoizing node. It either holds a stored result, or holds an
/// uninvoked task able to produce one; a failed computation leaves the
/// node unchanged and eligible for a later retry.
pub struct Cache<V, T> {
    result: Option<V>,
    deps: Vec<String>,
    calculation: T,
}

impl<V, T> Cache<V, T> {
    /// The stored result, if the node has computed one.
    pub closed spec fn spec_result(self) -> Option<V> {
        self.result
    }

    /// The dependency keys the owned task declared when the node was made.
    pub closed spec fn spec_deps(self) -> Seq<Seq<char>> {
        self.deps.deep_view()
    }

    /// The owned task.
    pub closed spec fn task(self) -> T {
        self.calculation
    }
}

impl<V, T: Task<V>> Cache<V, T> {
    /// Create a node from the given task, with no result yet.
    pub fn from(task: T) -> (r: Cache<V, T>)
        ensures
            r.spec_result() == Option::<V>::None,
            r.spec_deps() == task.deps_spec(),
            r.task() == task,
    {
        let deps = task.dependencies();
        Cache { result: None, deps, calculation: task }
    }

    /// The declared dependency keys of the owned task.
    pub fn dependencies(&self) -> (r: &Vec<String>)
        ensures
            r.deep_view() == self.spec_deps(),
    {
        &self.deps
    }

    /// Take the outcome of a computation: store and return a value, or
    /// hand the error on with nothing stored.
    pub fn absorb(&mut self, w: Result<V, ExecuteError>) -> (r: Result<&V, ExecuteError>)
        requires
            old(self).spec_result() is None,
        ensures
            w matches Ok(v) ==> final(self).spec_result() == Some(v) && (r matches Ok(rv)
                && *rv == v),
            w matches Err(e) ==> (r matches Err(e2) && e2 == e) && *final(self) == *old(self),
            final(self).spec_deps() == old(self).spec_deps(),
            final(self).task() == old(self).task(),
    {
        match w {
            Ok(v) => {
                self.result = Some(v);
                match &self.result {
                    Some(rv) => Ok(rv),
                    None => vstd::pervasive::unreached(),
                }
            },
            Err(e) => Err(e),
        }
    }

    /// Return the stored result, computing and storing it first if the
    /// node has none. The task runs at most once over the node's
    /// lifetime: with a result stored, the node is returned untouched;
    /// otherwise the task's outcome is absorbed as it stands: a value is
    /// stored and returned, an error is handed on unchanged.
    pub fn get(&mut self, results: &Snapshot<V>) -> (r: Result<&V, ExecuteError>)
        ensures
            old(self).spec_result() matches Some(w) ==> *final(self) == *old(self) && (r matches Ok(
                v,
            ) && *v == w),
            r matches Ok(v) ==> final(self).spec_result() == Some(*v),
            old(self).spec_result() is None ==> (r matches Ok(v) ==> old(self).task().post(
                results,
                Result::Ok(*v),
            )),
            r matches Err(e) ==> final(self).spec_result() == Option::<V>::None && old(
                self,
            ).spec_result() == Option::<V>::None && old(self).task().post(
                results,
                Result::Err(e),
            ),
            final(self).spec_deps() == old(self).spec_deps(),
    {
        if self.result.is_some() {
            return match &self.result {
                Some(v) => Ok(v),
                None => vstd::pervasive::unreached(),
            };
        }
        let w = self.calculation.execute(results);
        self.absorb(w)
    }

    /// Return the result by value, computing it if the node has none;
    /// the node is consumed either way. A stored result is returned as
    /// it is, without invoking the task; otherwise the task's outcome,
    /// value or error, is handed on unchanged and never stored.
    pub fn consume(self, results: &Snapshot<V>) -> (r: Result<V, ExecuteError>)
        ensures
            self.spec_result() matches Some(w) ==> r matches Ok(v) && v == w,
            self.spec_result() is None ==> self.task().post(results, r),
    {
        match self.result {
            Some(res) => Ok(res),
            None => {
                let mut calculation = self.calculation;
                calculation.execute(results)
            },
        }
    }
}

impl<V> Cache<V, NullTask> {
    /// Create a node that already holds `result`; the task slot is filled
    /// with the never-run placeholder.
    pub fn from_result(result: V) -> (r: Cache<V, NullTask>)
        ensures
            r.spec_result() == Some(result),
            r.spec_deps() == Seq::<Seq<char>>::empty(),
    {
        let deps = Vec::new();
        proof {
            assert(deps.deep_view() =~= Seq::<Seq<char>>::empty());
        }
        Cache { result: Some(result), deps, calculation: NullTask }
    }
}

impl<V, F: Fn(&Snapshot<V>) -> V> Cache<V, FnTask<V, F>> {
    /// Create a node whose task is a plain function of the dependency
    /// snapshot, with no declared dependencies.
    pub fn from_closure(f: F) -> (r: Cache<V, FnTask<V, F>>)
        requires
            forall|s: &Snapshot<V>| call_requires(f, (s,)),
        ensures
            r.spec_result() == Option::<V>::None,
            r.spec_deps() == Seq::<Seq<char>>::empty(),
            r.task().func() == f,
    {
        Cache::from(FnTask::new(f))
    }
}

} // verus!
