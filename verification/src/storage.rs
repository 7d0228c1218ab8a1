//! The persistence boundary: stores hand sequences of plain values in and
//! out; how they are kept (files, JSON) is the caller's concern.

use vstd::prelude::*;

verus! {

/// A store of a sequence of values of one kind.
///
/// The planner calls `get` once at load time and `store` after each change
/// worth keeping. Implementations live outside the library (they do file
/// I/O), so nothing is promised of either method: every caller in the
/// library takes whatever `get` returns as an arbitrary value and validates
/// it itself.
pub trait Storable<T> {
    fn store(&self, data: &Vec<T>);

    fn get(&self) -> Vec<T>;
}

/// The locations of the three independent stores the planner uses: the task
/// catalog, the history ledger, and the target-ratio snapshot.
pub struct FileStorage<P> {
    pub tasks: P,
    pub records: P,
    pub tasks_ratios: P,
}

impl<P> FileStorage<P> {
    pub fn new(tasks: P, records: P, tasks_ratios: P) -> (s: Self)
        ensures
            s.tasks == tasks,
            s.records == records,
            s.tasks_ratios == tasks_ratios,
    {
        FileStorage { tasks, records, tasks_ratios }
    }
}

} // verus!
