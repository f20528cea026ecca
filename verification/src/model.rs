//! Entity model: the value types a caller hands to the schedulers.

use vstd::prelude::*;

verus! {

/// A CPU process for round-robin scheduling: it becomes ready at round
/// `arrival` and needs `computation_time` units of work in total.
#[derive(Clone, Copy, PartialEq, Eq, Structural)]
pub struct Process {
    pub arrival: usize,
    pub computation_time: usize,
}

impl Process {
    pub fn new(arrival: usize, computation_time: usize) -> (p: Process)
        ensures
            p == (Process { arrival, computation_time }),
    {
        Process { arrival, computation_time }
    }
}

/// A periodic real-time task: every `period_length` rounds it receives a
/// fresh budget of `computation_time` units; unspent budget is discarded at
/// the period boundary.
#[derive(Clone, Copy, PartialEq, Eq, Structural)]
pub struct RealtimeProcess {
    pub computation_time: usize,
    pub period_length: usize,
}

impl RealtimeProcess {
    pub fn new(computation_time: usize, period_length: usize) -> (p: RealtimeProcess)
        ensures
            p == (RealtimeProcess { computation_time, period_length }),
    {
        RealtimeProcess { computation_time, period_length }
    }
}

} // verus!
