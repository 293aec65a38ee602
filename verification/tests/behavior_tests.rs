use vstd::prelude::Seq;

use dsk::{Cache, ExecuteError, NullTask, Snapshot, Task, DSK};

struct DepTask(&'static [&'static str]);

impl Task<()> for DepTask {
    fn deps_spec(&self) -> Seq<Seq<char>> {
        panic!()
    }

    fn post(&self, _: &Snapshot<()>, _: Result<(), ExecuteError>) -> bool {
        panic!()
    }

    fn dependencies(&self) -> Vec<String> {
        self.0.iter().map(|s| s.to_string()).collect()
    }

    fn execute(&mut self, _: &Snapshot<()>) -> Result<(), ExecuteError> {
        Ok(())
    }
}

/// A task that counts how many times it has been invoked and returns the
/// count, so that memoization is observable.
struct CountTask {
    calls: usize,
}

impl Task<usize> for CountTask {
    fn deps_spec(&self) -> Seq<Seq<char>> {
        panic!()
    }

    fn post(&self, _: &Snapshot<usize>, _: Result<usize, ExecuteError>) -> bool {
        panic!()
    }

    fn dependencies(&self) -> Vec<String> {
        Vec::new()
    }

    fn execute(&mut self, _: &Snapshot<usize>) -> Result<usize, ExecuteError> {
        self.calls += 1;
        Ok(self.calls)
    }
}

/// Either a fixed value, or one more than a named dependency's value read
/// from the snapshot.
enum StepTask {
    Value(usize),
    AddOneTo(&'static str),
}

impl Task<usize> for StepTask {
    fn deps_spec(&self) -> Seq<Seq<char>> {
        panic!()
    }

    fn post(&self, _: &Snapshot<usize>, _: Result<usize, ExecuteError>) -> bool {
        panic!()
    }

    fn dependencies(&self) -> Vec<String> {
        match self {
            StepTask::Value(_) => Vec::new(),
            StepTask::AddOneTo(d) => vec![d.to_string()],
        }
    }

    fn execute(&mut self, cache: &Snapshot<usize>) -> Result<usize, ExecuteError> {
        match self {
            StepTask::Value(v) => Ok(*v),
            StepTask::AddOneTo(d) => {
                let got = cache.get(&d.to_string());
                assert!(got.is_some(), "dependency result must be in the snapshot");
                Ok(*got.unwrap() + 1)
            },
        }
    }
}

#[test]
fn test_from_result_consume() {
    let c = Cache::from_result(5usize);
    let map = Snapshot::new();
    assert_eq!(c.consume(&map).unwrap(), 5);
}

#[test]
fn test_from_result_get() {
    let mut c = Cache::from_result(7usize);
    let map = Snapshot::new();
    assert_eq!(*c.get(&map).unwrap(), 7);
}

#[test]
fn test_null_task_error() {
    let mut c: Cache<u32, NullTask> = Cache::from(NullTask);
    let map = Snapshot::new();
    assert!(matches!(c.get(&map), Err(ExecuteError::NullTask)));
}

#[test]
fn test_memoization_cache() {
    let mut c = Cache::from(CountTask { calls: 0 });
    let map = Snapshot::new();
    assert_eq!(*c.get(&map).unwrap(), 1);
    assert_eq!(*c.get(&map).unwrap(), 1);
    assert_eq!(c.consume(&map).unwrap(), 1);
}

#[test]
fn test_memoization_dsk() {
    let mut dsk = DSK::new();
    let mut cache = Snapshot::new();
    dsk.add_task("X", CountTask { calls: 0 }).unwrap();
    assert_eq!(dsk.get("X", &mut cache).unwrap(), 1);
    assert_eq!(dsk.get("X", &mut cache).unwrap(), 1);
}

#[test]
fn test_task_already_exists() {
    let mut dsk = DSK::new();
    dsk.add_task("X", DepTask(&[])).unwrap();
    let e = dsk.add_task("X", DepTask(&["Y"])).unwrap_err();
    assert!(matches!(e, ExecuteError::TaskAlreadyExists(k) if k == "X"));
}

#[test]
fn test_missing_key_get() {
    let mut dsk: DSK<(), DepTask> = DSK::new();
    let mut cache = Snapshot::new();
    let e = dsk.get("X", &mut cache).unwrap_err();
    assert!(matches!(e, ExecuteError::MissingDependency(k) if k == "X"));
}

#[test]
fn test_missing_dependency_transitive() {
    let mut dsk = DSK::new();
    let mut cache = Snapshot::new();
    dsk.add_task("X", DepTask(&["Y"])).unwrap();
    let e = dsk.get("X", &mut cache).unwrap_err();
    assert!(matches!(e, ExecuteError::MissingDependency(k) if k == "Y"));
}

#[test]
fn test_cull_missing() {
    let mut dsk = DSK::new();
    dsk.add_task("X", DepTask(&["Y"])).unwrap();
    let e = match dsk.cull(&["X"]) {
        Err(e) => e,
        Ok(_) => panic!("culling with a dangling dependency must fail"),
    };
    assert!(matches!(e, ExecuteError::MissingDependency(k) if k == "Y"));
}

#[test]
fn test_cyclic_error_kind() {
    let mut dsk = DSK::new();
    dsk.add_task("X", DepTask(&["Y"])).unwrap();
    dsk.add_task("Y", DepTask(&["Z"])).unwrap();
    dsk.add_task("Z", DepTask(&["B"])).unwrap();
    let e = dsk.add_task("B", DepTask(&["X"])).unwrap_err();
    assert!(matches!(e, ExecuteError::CyclicDependency(_)));
    // The refused insertion is rolled back: the container stays usable
    // and the key can be inserted again without the cycle.
    assert!(!dsk.contains_key("B"));
    assert!(dsk.add_task("B", DepTask(&[])).is_ok());
}

#[test]
fn test_self_cycle() {
    let mut dsk = DSK::new();
    let e = dsk.add_task("X", DepTask(&["X"])).unwrap_err();
    assert!(matches!(e, ExecuteError::CyclicDependency(_)));
}

#[test]
fn test_snapshot_threading() {
    let mut dsk = DSK::new();
    let mut cache = Snapshot::new();
    dsk.add_task("Z", StepTask::Value(1)).unwrap();
    dsk.add_task("Y", StepTask::AddOneTo("Z")).unwrap();
    dsk.add_task("X", StepTask::AddOneTo("Y")).unwrap();
    assert_eq!(dsk.get("X", &mut cache).unwrap(), 3);
}

#[test]
fn test_failed_task_retry() {
    // A failing computation leaves the node uncomputed; once the missing
    // dependency is supplied, a later attempt succeeds.
    let mut dsk = DSK::new();
    let mut cache = Snapshot::new();
    dsk.add_task("X", StepTask::AddOneTo("Y")).unwrap();
    assert!(dsk.get("X", &mut cache).is_err());
    dsk.add_task("Y", StepTask::Value(9)).unwrap();
    assert_eq!(dsk.get("X", &mut cache).unwrap(), 10);
}

#[test]
fn test_get_dependents() {
    let mut dsk = DSK::new();
    dsk.add_task("U", DepTask(&[])).unwrap();
    dsk.add_task("X", DepTask(&["U"])).unwrap();
    dsk.add_task("A", DepTask(&["U"])).unwrap();
    dsk.add_task("B", DepTask(&["X"])).unwrap();
    let deps = dsk.get_dependents("U");
    assert_eq!(deps.len(), 2);
    assert!(deps.contains(&"X".to_string()));
    assert!(deps.contains(&"A".to_string()));
}

#[test]
fn test_keys_in_dsk() {
    let mut dsk = DSK::new();
    dsk.add_task("X", DepTask(&[])).unwrap();
    dsk.add_task("Y", DepTask(&[])).unwrap();
    let probe = DepTask(&["X", "W"]);
    let keys = dsk.keys_in_dsk(&[&probe]);
    assert_eq!(keys, vec!["X".to_string()]);
}

#[test]
fn test_cull_leaves() {
    let mut dsk = DSK::new();
    dsk.add_task("Z", DepTask(&[])).unwrap();
    dsk.add_task("U", DepTask(&[])).unwrap();
    dsk.add_task("A", DepTask(&["U"])).unwrap();
    let culled = dsk.cull(&["Z", "U"]).unwrap();
    assert!(culled.contains_key("Z"));
    assert!(culled.contains_key("U"));
    assert!(!culled.contains_key("A"));
}

#[test]
fn test_check_cyclic_directly() {
    let mut dsk = DSK::new();
    dsk.add_task("X", DepTask(&["Y"])).unwrap();
    dsk.add_task("Y", DepTask(&[])).unwrap();
    assert!(dsk.check_cyclic_dependencies("X").is_ok());
    assert!(dsk.check_cyclic_dependencies("absent").is_ok());
}
