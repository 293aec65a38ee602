//! A task-dependency graph library: callers register named units of work
//! ("tasks"), each optionally depending on other tasks by name. A requested
//! task is resolved by first resolving, in dependency order, every task it
//! transitively needs, memoizing each task's result so it is computed at most
//! once. Insertion rejects dependency cycles; the graph can be pruned to the
//! subset reachable from a set of required keys.

use vstd::prelude::*;

pub mod assoc;
pub mod cache;
pub mod dsk;
pub mod error;
pub mod graph;
pub mod snapshot;

pub use cache::Cache;
pub use dsk::DSK;
pub use error::ExecuteError;
pub use snapshot::Snapshot;

verus! {

/// A unit of work that can be executed once the results of its declared
/// dependencies are at hand.
pub trait Task<O> {
    /// The declared dependency keys, as the specification reads them.
    spec fn deps_spec(&self) -> Seq<Seq<char>>;

    /// What the task's computation may return on a snapshot: every
    /// outcome of `execute` satisfies it. An implementation chooses how
    /// tightly to pin its result down.
    spec fn post(&self, results: &Snapshot<O>, r: Result<O, ExecuteError>) -> bool;

    /// The declared dependency keys. These are fixed for the task's
    /// lifetime; their results are available in the snapshot that
    /// `execute` receives.
    fn dependencies(&self) -> (r: Vec<String>)
        ensures
            r.deep_view() == self.deps_spec(),
    ;

    /// Run the task: compute its value from the snapshot of its
    /// dependencies' results, or fail.
    fn execute(&mut self, results: &Snapshot<O>) -> (r: Result<O, ExecuteError>)
        ensures
            final(self).deps_spec() == old(self).deps_spec(),
            old(self).post(results, r),
    ;
}

/// A placeholder task that fills a structural slot. It declares no
/// dependencies and fails if it is ever invoked.
pub struct NullTask;

impl<O> Task<O> for NullTask {
    open spec fn deps_spec(&self) -> Seq<Seq<char>> {
        Seq::empty()
    }

    /// The placeholder always fails with the `NullTask` error.
    open spec fn post(&self, results: &Snapshot<O>, r: Result<O, ExecuteError>) -> bool {
        r matches Err(e) && e is NullTask
    }

    fn dependencies(&self) -> (r: Vec<String>) {
        let r = Vec::new();
        proof {
            assert(r.deep_view() =~= Seq::<Seq<char>>::empty());
        }
        r
    }

    fn execute(&mut self, results: &Snapshot<O>) -> (r: Result<O, ExecuteError>) {
        Err(ExecuteError::NullTask)
    }
}

/// Adapter that lets a plain function of the dependency snapshot serve as
/// a task. It declares no dependencies and always succeeds.
#[verifier::reject_recursive_types(O)]
pub struct FnTask<O, F: Fn(&Snapshot<O>) -> O> {
    f: F,
    _out: core::marker::PhantomData<O>,
}

impl<O, F: Fn(&Snapshot<O>) -> O> FnTask<O, F> {
    /// The wrapped function.
    pub closed spec fn func(self) -> F {
        self.f
    }

    /// Whether the held function accepts every snapshot.
    #[verifier::type_invariant]
    spec fn callable(self) -> bool {
        forall|s: &Snapshot<O>| call_requires(self.f, (s,))
    }

    /// Wrap a function as a task.
    pub fn new(f: F) -> (r: FnTask<O, F>)
        requires
            forall|s: &Snapshot<O>| call_requires(f, (s,)),
        ensures
            r.func() == f,
    {
        FnTask { f, _out: core::marker::PhantomData }
    }
}

impl<O, F: Fn(&Snapshot<O>) -> O> Task<O> for FnTask<O, F> {
    open spec fn deps_spec(&self) -> Seq<Seq<char>> {
        Seq::empty()
    }

    /// The adapter never fails: it returns `Ok` with a value the wrapped
    /// function could produce for this snapshot.
    open spec fn post(&self, results: &Snapshot<O>, r: Result<O, ExecuteError>) -> bool {
        r matches Ok(v) && call_ensures(self.func(), (results,), v)
    }

    fn dependencies(&self) -> (r: Vec<String>) {
        let r = Vec::new();
        proof {
            assert(r.deep_view() =~= Seq::<Seq<char>>::empty());
        }
        r
    }

    fn execute(&mut self, results: &Snapshot<O>) -> (r: Result<O, ExecuteError>) {
        proof {
            use_type_invariant(&*self);
        }
        Ok((self.f)(results))
    }
}

/// What the placeholder's contract means, spelled out: every outcome is
/// the `NullTask` error.
pub proof fn lemma_null_task_post<O>(s: &Snapshot<O>, r: Result<O, ExecuteError>)
    ensures
        <NullTask as Task<O>>::post(&NullTask, s, r) <==> (r matches Err(e) && e is NullTask),
{
}

/// The adapter declares no dependencies, spelled out for callers that
/// hold a concrete function type.
pub proof fn lemma_fn_task_deps<O, F: Fn(&Snapshot<O>) -> O>(t: FnTask<O, F>)
    ensures
        t.deps_spec() == Seq::<Seq<char>>::empty(),
{
}

/// What the adapter's contract means, spelled out: every outcome is `Ok`
/// with a value the wrapped function could produce for that snapshot.
pub proof fn lemma_fn_task_post<O, F: Fn(&Snapshot<O>) -> O>(
    t: FnTask<O, F>,
    s: &Snapshot<O>,
    r: Result<O, ExecuteError>,
)
    ensures
        t.post(s, r) <==> (r matches Ok(v) && call_ensures(t.func(), (s,), v)),
{
}

} // verus!
