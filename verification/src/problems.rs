//! Recorded textbook exercises: a scheduling input together with its
//! published solution, checkable by rerunning the scheduler.

use vstd::prelude::*;

use crate::disk::DiskRun;
use crate::disk::disk_fcfs;
use crate::disk::disk_scan;
use crate::disk::disk_sstf;
use crate::disk::dist_sum;
use crate::disk::fcfs_dists;
use crate::disk::lemma_pos_max;
use crate::disk::lemma_pos_max_le;
use crate::disk::pos_max;
use crate::disk::scan_state;
use crate::disk::sort_spec;
use crate::disk::sstf_state;
use crate::model::Process;
use crate::round_robin::lemma_max_arrival_le;
use crate::round_robin::lemma_pending_work_le;
use crate::round_robin::lemma_rr_finish_unique;
use crate::round_robin::round_robin;
use crate::round_robin::rr_done;
use crate::round_robin::rr_latest_arrival;
use crate::round_robin::rr_state;
use crate::round_robin::rr_total_work;
use crate::round_robin::rr_valid_input;
use crate::schedule::Schedule;
use vstd::string::StringExecFns;

verus! {

/// A recorded exercise: inputs, policy parameters, and the published
/// solution. `eval` recomputes the answer and compares.
pub enum Problem {
    /// A round-robin run and its expected trace.
    RoundRobin { which: String, processes: Vec<Process>, quantum: usize, expected: Schedule },
    /// One request sequence pushed through all three disk policies, with
    /// the expected distances and total of each.
    DiskSweep {
        which: String,
        positions: Vec<usize>,
        sstf_start: usize,
        scan_start: usize,
        expected_fcfs: DiskRun,
        expected_sstf: DiskRun,
        expected_scan: DiskRun,
    },
}

impl Problem {
    /// The recorded inputs meet the preconditions of the schedulers they
    /// are meant for.
    pub open spec fn wf(self) -> bool {
        match self {
            Problem::RoundRobin { processes, quantum, .. } => {
                &&& rr_valid_input(processes@, quantum)
                &&& rr_latest_arrival(processes@) + rr_total_work(processes@) + 2 <= usize::MAX
            },
            Problem::DiskSweep { positions, sstf_start, scan_start, .. } => {
                &&& positions@.len() >= 1
                &&& (sstf_start as int) < positions@.len()
                &&& (scan_start as int) < positions@.len()
                &&& (positions@.len() - 1) * pos_max(positions@) <= usize::MAX
            },
        }
    }

    /// The recorded solution is exactly what the schedulers produce on the
    /// recorded inputs.
    pub open spec fn passes(self) -> bool {
        match self {
            Problem::RoundRobin { processes, quantum, expected, .. } => {
                let r = expected@.len() as int;
                &&& expected@ == rr_state(processes@, quantum as int, r).2
                &&& rr_done(processes@, quantum as int, r)
                &&& (r > 0 ==> !rr_done(processes@, quantum as int, r - 1))
            },
            Problem::DiskSweep {
                positions,
                sstf_start,
                scan_start,
                expected_fcfs,
                expected_sstf,
                expected_scan,
                ..
            } => {
                &&& expected_fcfs.distances@ == fcfs_dists(positions@)
                &&& expected_fcfs.total as int == dist_sum(fcfs_dists(positions@))
                &&& expected_sstf.distances@ == sstf_state(
                    positions@,
                    sstf_start as int,
                    positions@.len() - 1,
                ).2
                &&& expected_sstf.total as int == dist_sum(
                    sstf_state(positions@, sstf_start as int, positions@.len() - 1).2,
                )
                &&& expected_scan.distances@ == scan_state(
                    sort_spec(positions@),
                    scan_start as int,
                    positions@.len() - 1,
                ).3
                &&& expected_scan.total as int == dist_sum(
                    scan_state(sort_spec(positions@), scan_start as int, positions@.len() - 1).3,
                )
            },
        }
    }

    /// Recompute the exercise's answer and check it against the recorded
    /// solution.
    pub fn eval(&self) -> (ok: bool)
        requires
            self.wf(),
        ensures
            ok == self.passes(),
    {
        match self {
            Problem::RoundRobin { processes, quantum, expected, .. } => {
                let actual = round_robin(processes, *quantum);
                let same = actual.same_as(expected);
                proof {
                    if !same && self.passes() {
                        lemma_rr_finish_unique(
                            processes@,
                            *quantum as int,
                            actual@.len() as int,
                            expected@.len() as int,
                        );
                    }
                }
                same
            },
            Problem::DiskSweep {
                positions,
                sstf_start,
                scan_start,
                expected_fcfs,
                expected_sstf,
                expected_scan,
                ..
            } => {
                let f = disk_fcfs(positions);
                let s = disk_sstf(positions, *sstf_start);
                let c = disk_scan(positions, *scan_start);
                let ok_f = runs_equal(&f, expected_fcfs);
                let ok_s = runs_equal(&s, expected_sstf);
                let ok_c = runs_equal(&c, expected_scan);
                ok_f && ok_s && ok_c
            },
        }
    }
}

/// Slot-for-slot equality of two disk reports.
#[verifier::loop_isolation(false)]
fn runs_equal(a: &DiskRun, b: &DiskRun) -> (r: bool)
    ensures
        r <==> (a.distances@ =~= b.distances@ && a.total == b.total),
{
    if a.total != b.total {
        return false;
    }
    if a.distances.len() != b.distances.len() {
        return false;
    }
    let n = a.distances.len();
    let mut i: usize = 0;
    while i < n
        invariant
            i <= n,
            forall|t: int| 0 <= t < i ==> a.distances@[t] == b.distances@[t],
        decreases n - i,
    {
        if a.distances[i] != b.distances[i] {
            return false;
        }
        i += 1;
    }
    true
}

/// The round-robin exercise of one old exam sheet, with the published
/// solution trace.
pub fn klausur_stappert_ss15() -> (v: Vec<Problem>)
    ensures
        v@.len() == 1,
        v@[0] matches Problem::RoundRobin { which, processes, quantum, expected } && {
            &&& which@ == "4.1"@
            &&& processes@ =~= seq![
                Process { arrival: 1, computation_time: 6 },
                Process { arrival: 4, computation_time: 2 },
                Process { arrival: 2, computation_time: 4 },
                Process { arrival: 9, computation_time: 3 },
                Process { arrival: 8, computation_time: 4 },
            ]
            &&& quantum == 3usize
            &&& expected@ =~= seq![
                None, Some(0usize), Some(0usize), Some(0usize), Some(2usize), Some(2usize),
                Some(2usize), Some(1usize), Some(1usize), Some(0usize), Some(0usize),
                Some(0usize), Some(2usize), Some(4usize), Some(4usize), Some(4usize),
                Some(3usize), Some(3usize), Some(3usize), Some(4usize),
            ]
        },
        v@[0].wf(),
{
    let mut processes: Vec<Process> = Vec::new();
    processes.push(Process::new(1, 6));
    processes.push(Process::new(4, 2));
    processes.push(Process::new(2, 4));
    processes.push(Process::new(9, 3));
    processes.push(Process::new(8, 4));
    let ghost pv = processes@;

    let mut slots: Vec<Option<usize>> = Vec::new();
    slots.push(None);
    slots.push(Some(0));
    slots.push(Some(0));
    slots.push(Some(0));
    slots.push(Some(2));
    slots.push(Some(2));
    slots.push(Some(2));
    slots.push(Some(1));
    slots.push(Some(1));
    slots.push(Some(0));
    slots.push(Some(0));
    slots.push(Some(0));
    slots.push(Some(2));
    slots.push(Some(4));
    slots.push(Some(4));
    slots.push(Some(4));
    slots.push(Some(3));
    slots.push(Some(3));
    slots.push(Some(3));
    slots.push(Some(4));
    let expected = Schedule(slots);

    proof {
        assert(forall|j: int| 0 <= j < pv.len() ==> (#[trigger] pv[j]).arrival <= 9);
        assert(forall|j: int| 0 <= j < pv.len() ==> (#[trigger] pv[j]).computation_time <= 6);
        lemma_max_arrival_le(pv, pv.len() as int, 9);
        lemma_pending_work_le(pv, 0, pv.len() as int, 6);
    }
    let p = Problem::RoundRobin {
        which: String::from_str("4.1"),
        processes,
        quantum: 3,
        expected,
    };
    let mut v: Vec<Problem> = Vec::new();
    v.push(p);
    v
}

/// The disk-scheduling exercise of a mock exam sheet: one request sequence
/// under FCFS, SSTF, and SCAN, with the published distances and totals.
pub fn klausur_stappert_ss23_probeklausur() -> (v: Vec<Problem>)
    ensures
        v@.len() == 1,
        v@[0] matches Problem::DiskSweep {
            which,
            positions,
            sstf_start,
            scan_start,
            expected_fcfs,
            expected_sstf,
            expected_scan,
        } && {
            &&& which@ == "4"@
            &&& positions@ =~= seq![11usize, 2, 38, 19, 34, 9, 12, 40, 50]
            &&& sstf_start == 0usize
            &&& scan_start == 2usize
            &&& expected_fcfs.distances@ =~= seq![9usize, 36, 19, 15, 25, 3, 28, 10]
            &&& expected_fcfs.total == 145usize
            &&& expected_sstf.distances@ =~= seq![1usize, 3, 7, 17, 15, 4, 2, 10]
            &&& expected_sstf.total == 59usize
            &&& expected_scan.distances@ =~= seq![1usize, 7, 15, 4, 2, 10, 41, 7]
            &&& expected_scan.total == 87usize
        },
        v@[0].wf(),
{
    let mut positions: Vec<usize> = Vec::new();
    positions.push(11);
    positions.push(2);
    positions.push(38);
    positions.push(19);
    positions.push(34);
    positions.push(9);
    positions.push(12);
    positions.push(40);
    positions.push(50);
    let ghost pv = positions@;

    let mut fd: Vec<usize> = Vec::new();
    fd.push(9);
    fd.push(36);
    fd.push(19);
    fd.push(15);
    fd.push(25);
    fd.push(3);
    fd.push(28);
    fd.push(10);
    let mut sd: Vec<usize> = Vec::new();
    sd.push(1);
    sd.push(3);
    sd.push(7);
    sd.push(17);
    sd.push(15);
    sd.push(4);
    sd.push(2);
    sd.push(10);
    let mut cd: Vec<usize> = Vec::new();
    cd.push(1);
    cd.push(7);
    cd.push(15);
    cd.push(4);
    cd.push(2);
    cd.push(10);
    cd.push(41);
    cd.push(7);

    proof {
        assert(forall|j: int| 0 <= j < pv.len() ==> (#[trigger] pv[j]) <= 50);
        lemma_pos_max_le(pv, 50);
        lemma_pos_max(pv);
        assert((pv.len() - 1) * pos_max(pv) <= 8 * 50) by (nonlinear_arith)
            requires
                pv.len() == 9,
                0 <= pos_max(pv) <= 50,
        ;
    }
    let p = Problem::DiskSweep {
        which: String::from_str("4"),
        positions,
        sstf_start: 0,
        scan_start: 2,
        expected_fcfs: DiskRun { distances: fd, total: 145 },
        expected_sstf: DiskRun { distances: sd, total: 59 },
        expected_scan: DiskRun { distances: cd, total: 87 },
    };
    let mut v: Vec<Problem> = Vec::new();
    v.push(p);
    v
}

} // verus!
