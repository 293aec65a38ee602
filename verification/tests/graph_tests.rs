use vstd::prelude::Seq;

use dsk::{Cache, ExecuteError, FnTask, Snapshot, Task, DSK};

struct DepTask(&'static [&'static str]);

impl Task<()> for DepTask {
    fn deps_spec(&self) -> Seq<Seq<char>> {
        panic!()
    }

    fn post(&self, _: &Snapshot<()>, _: Result<(), ExecuteError>) -> bool {
        panic!()
    }

    fn dependencies(&self) -> Vec<String> {
        self.0.iter().map(|s| s.to_string()).collect()
    }

    fn execute(&mut self, _: &Snapshot<()>) -> Result<(), ExecuteError> {
        Ok(())
    }
}

struct UnitTask;

impl Task<()> for UnitTask {
    fn deps_spec(&self) -> Seq<Seq<char>> {
        panic!()
    }

    fn post(&self, _: &Snapshot<()>, _: Result<(), ExecuteError>) -> bool {
        panic!()
    }

    fn dependencies(&self) -> Vec<String> {
        Vec::new()
    }

    fn execute(&mut self, _: &Snapshot<()>) -> Result<(), ExecuteError> {
        Ok(())
    }
}

#[test]
fn test_trait_semantics() {
    let mut d: Box<dyn Task<()>> = Box::new(UnitTask);
    let map = Snapshot::new();
    d.execute(&map).unwrap();
}

#[test]
fn test_closure_semantics() {
    let mut d = Cache::from_closure(|_: &Snapshot<usize>| (0..10).sum::<usize>());
    let map = Snapshot::new();

    let result = d.get(&map).unwrap();
    assert_eq!(*result, 45);
}

#[test]
fn test_get() {
    let mut dsk = DSK::new();
    let mut cache = Snapshot::new();

    dsk.add_task("X", FnTask::new(|_: &Snapshot<usize>| (0..10).sum::<usize>()))
        .unwrap();
    assert_eq!(dsk.get("X", &mut cache).unwrap(), 45);
}

#[test]
fn test_cyclic_dep_checker() {
    let mut dsk = DSK::new();

    dsk.add_task("X", DepTask(&["Y"])).unwrap();
    dsk.add_task("Y", DepTask(&["Z"])).unwrap();
    dsk.add_task("Z", DepTask(&["B"])).unwrap();

    assert!(dsk.add_task("B", DepTask(&["X"])).is_err());
}

#[test]
fn converging_dependencies_test() {
    let mut dsk = DSK::new();

    dsk.add_task("Z", DepTask(&[])).unwrap();
    dsk.add_task("U", DepTask(&[])).unwrap();

    dsk.add_task("X", DepTask(&["Y"])).unwrap();
    dsk.add_task("Y", DepTask(&["Z", "U"])).unwrap();
    dsk.add_task("A", DepTask(&["U"])).unwrap();
    assert!(dsk.add_task("B", DepTask(&["Y", "X"])).is_ok());
}

#[test]
fn diverging_dependencies_test() {
    let mut dsk = DSK::new();

    dsk.add_task("A", DepTask(&[])).unwrap();
    dsk.add_task("B", DepTask(&[])).unwrap();

    dsk.add_task("T", DepTask(&["U"])).unwrap();
    dsk.add_task("U", DepTask(&["W", "A"])).unwrap();
    dsk.add_task("W", DepTask(&["X"])).unwrap();
    assert!(dsk.add_task("X", DepTask(&["T"])).is_err());
}

#[test]
fn test_dsk_cull() {
    let mut dsk = DSK::new();

    dsk.add_task("X", DepTask(&["Y"])).unwrap();
    dsk.add_task("Y", DepTask(&["U"])).unwrap();
    dsk.add_task("U", DepTask(&[])).unwrap();
    dsk.add_task("A", DepTask(&["U"])).unwrap();
    dsk.add_task("Z", DepTask(&["A"])).unwrap();

    let culled = dsk.cull(&["X", "U"]).unwrap();

    assert!(culled.contains_key("X"));
    assert!(culled.contains_key("U"));
    assert!(culled.contains_key("Y"));
    assert!(!culled.contains_key("A"));
    assert!(!culled.contains_key("Z"));
}
