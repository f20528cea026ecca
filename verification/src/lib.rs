//! Discrete-time scheduling simulators: preemptive round robin for CPU
//! processes, rate-monotonic scheduling for periodic real-time tasks, and
//! three disk-head policies (first-come-first-served, shortest seek time
//! first, and the SCAN elevator sweep). Every simulator is a pure function
//! of its inputs; the contracts pin each trace down to the reference
//! algorithm, tie-breaking rules included.

pub mod diagram;
pub mod disk;
pub mod model;
pub mod problems;
pub mod rate_monotonic;
pub mod round_robin;
pub mod schedule;

pub use crate::diagram::schedule_diagram;
pub use crate::diagram::schedule_lane;
pub use crate::diagram::schedule_scale;
pub use crate::disk::DiskRun;
pub use crate::disk::disk_fcfs;
pub use crate::disk::disk_scan;
pub use crate::disk::disk_sstf;
pub use crate::model::Process;
pub use crate::model::RealtimeProcess;
pub use crate::problems::Problem;
pub use crate::problems::klausur_stappert_ss15;
pub use crate::problems::klausur_stappert_ss23_probeklausur;
pub use crate::rate_monotonic::rate_monotonic;
pub use crate::round_robin::round_robin;
pub use crate::schedule::Schedule;
