//! The closed set of failure kinds produced anywhere in the library.

use vstd::prelude::*;

verus! {

/// Any error encountered during task insertion, resolution or culling.
#[derive(Debug)]
pub enum ExecuteError {
    /// The named key has no node in the graph, although resolution or
    /// culling needed one.
    MissingDependency(String),
    /// The placeholder task that fills a structural slot was invoked.
    NullTask,
    /// Inserting a task closed a dependency cycle; the payload is the
    /// offending walk, from the inserted key to the repeated key.
    CyclicDependency(Vec<String>),
    /// A task with this key is already present; the insertion was refused.
    TaskAlreadyExists(String),
}

} // verus!
