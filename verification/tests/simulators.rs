use sched_sim::DiskRun;
use sched_sim::Problem;
use sched_sim::Process;
use sched_sim::RealtimeProcess;
use sched_sim::Schedule;
use sched_sim::disk_fcfs;
use sched_sim::disk_scan;
use sched_sim::disk_sstf;
use sched_sim::klausur_stappert_ss15;
use sched_sim::klausur_stappert_ss23_probeklausur;
use sched_sim::rate_monotonic;
use sched_sim::round_robin;
use sched_sim::schedule_lane;
use sched_sim::schedule_scale;

fn rr_demo_processes() -> Vec<Process> {
    vec![
        Process::new(0, 4),
        Process::new(2, 3),
        Process::new(4, 6),
        Process::new(11, 3),
        Process::new(12, 6),
    ]
}

fn demo_positions() -> Vec<usize> {
    vec![11, 2, 38, 19, 34, 9, 12, 40, 50]
}

#[test]
fn round_robin_demo_trace() {
    let ps = rr_demo_processes();
    let s = round_robin(&ps, 3);
    let expected: Vec<Option<usize>> = vec![
        Some(0),
        Some(0),
        Some(0),
        Some(1),
        Some(1),
        Some(1),
        Some(0),
        Some(2),
        Some(2),
        Some(2),
        Some(2),
        Some(2),
        Some(2),
        Some(3),
        Some(3),
        Some(3),
        Some(4),
        Some(4),
        Some(4),
        Some(4),
        Some(4),
        Some(4),
    ];
    assert_eq!(s.0, expected);
}

#[test]
fn round_robin_is_reproducible() {
    let ps = rr_demo_processes();
    let a = round_robin(&ps, 3);
    let b = round_robin(&ps, 3);
    assert!(a.same_as(&b));
}

#[test]
fn round_robin_unit_counts_match_demand() {
    let ps = vec![
        Process::new(9, 3),
        Process::new(8, 4),
        Process::new(4, 4),
        Process::new(1, 6),
        Process::new(2, 5),
    ];
    let s = round_robin(&ps, 3);
    // Work starts arriving at round 1 and never runs dry, so the trace is
    // one idle round followed by 22 busy rounds.
    assert_eq!(s.len(), 23);
    assert_eq!(s.slot(0), None);
    for (i, p) in ps.iter().enumerate() {
        let units = s.0.iter().filter(|x| **x == Some(i)).count();
        assert_eq!(units, p.computation_time);
        for (round, slot) in s.0.iter().enumerate() {
            if *slot == Some(i) {
                assert!(round >= p.arrival);
            }
        }
    }
}

#[test]
fn rate_monotonic_demo_trace() {
    let ts = vec![
        RealtimeProcess::new(2, 10),
        RealtimeProcess::new(1, 5),
        RealtimeProcess::new(5, 20),
    ];
    let s = rate_monotonic(&ts);
    let expected: Vec<Option<usize>> = vec![
        Some(1),
        Some(0),
        Some(0),
        Some(2),
        Some(2),
        Some(1),
        Some(2),
        Some(2),
        Some(2),
        None,
        Some(1),
        Some(0),
        Some(0),
        None,
        None,
        Some(1),
        None,
        None,
        None,
        None,
    ];
    assert_eq!(s.len(), 20);
    assert_eq!(s.0, expected);
    // The period-5 task runs whenever its budget is fresh: at every
    // multiple of 5 it has budget and is scheduled at once.
    for r in [0, 5, 10, 15] {
        assert_eq!(s.slot(r), Some(1));
    }
}

#[test]
fn rate_monotonic_four_tasks() {
    let ts = vec![
        RealtimeProcess::new(1, 6),
        RealtimeProcess::new(1, 3),
        RealtimeProcess::new(3, 18),
        RealtimeProcess::new(2, 9),
    ];
    let s = rate_monotonic(&ts);
    let expected: Vec<Option<usize>> = vec![
        Some(1),
        Some(0),
        Some(3),
        Some(1),
        Some(3),
        Some(2),
        Some(1),
        Some(0),
        Some(2),
        Some(1),
        Some(3),
        Some(3),
        Some(1),
        Some(0),
        Some(2),
        Some(1),
        None,
        None,
    ];
    assert_eq!(s.0, expected);
}

#[test]
fn rate_monotonic_budget_never_exceeded_in_window() {
    let ts = vec![
        RealtimeProcess::new(2, 10),
        RealtimeProcess::new(1, 5),
        RealtimeProcess::new(5, 20),
    ];
    let s = rate_monotonic(&ts);
    for (i, t) in ts.iter().enumerate() {
        let mut w: usize = 0;
        while w < s.len() {
            let hi = (w + t.period_length).min(s.len());
            let units = (w..hi).filter(|r| s.slot(*r) == Some(i)).count();
            assert!(units <= t.computation_time);
            w += t.period_length;
        }
    }
}

#[test]
fn disk_fcfs_demo() {
    let pos = demo_positions();
    let run = disk_fcfs(&pos);
    assert_eq!(run.distances, vec![9, 36, 19, 15, 25, 3, 28, 10]);
    assert_eq!(run.total, 145);
}

#[test]
fn disk_sstf_demo() {
    let pos = demo_positions();
    let run = disk_sstf(&pos, 0);
    assert_eq!(run.distances, vec![1, 3, 7, 17, 15, 4, 2, 10]);
    assert_eq!(run.total, 59);
}

#[test]
fn disk_scan_demo() {
    let pos = demo_positions();
    let run = disk_scan(&pos, 2);
    assert_eq!(run.distances, vec![1, 7, 15, 4, 2, 10, 41, 7]);
    assert_eq!(run.total, 87);
}

#[test]
fn disk_totals_equal_distance_sums() {
    let pos = demo_positions();
    for run in [disk_fcfs(&pos), disk_sstf(&pos, 0), disk_scan(&pos, 2)] {
        let sum: usize = run.distances.iter().sum();
        assert_eq!(run.total, sum);
    }
}

#[test]
fn disk_policies_are_deterministic() {
    let pos = demo_positions();
    let f1 = disk_fcfs(&pos);
    let f2 = disk_fcfs(&pos);
    assert_eq!(f1.distances, f2.distances);
    assert_eq!(f1.total, f2.total);
    let s1 = disk_sstf(&pos, 0);
    let s2 = disk_sstf(&pos, 0);
    assert_eq!(s1.distances, s2.distances);
    assert_eq!(s1.total, s2.total);
    let c1 = disk_scan(&pos, 2);
    let c2 = disk_scan(&pos, 2);
    assert_eq!(c1.distances, c2.distances);
    assert_eq!(c1.total, c2.total);
}

#[test]
fn disk_single_request_has_no_travel() {
    let pos = vec![7];
    let run = disk_fcfs(&pos);
    assert!(run.distances.is_empty());
    assert_eq!(run.total, 0);
    let run = disk_sstf(&pos, 0);
    assert!(run.distances.is_empty());
    assert_eq!(run.total, 0);
    let run = disk_scan(&pos, 0);
    assert!(run.distances.is_empty());
    assert_eq!(run.total, 0);
}

#[test]
fn disk_sstf_ties_go_to_the_earlier_request() {
    // From position 10, requests 5 and 15 are equally far; the earlier one
    // in the remaining list must be taken first.
    let pos = vec![10, 5, 15];
    let run = disk_sstf(&pos, 0);
    assert_eq!(run.distances, vec![5, 10]);
    assert_eq!(run.total, 15);
}

#[test]
fn disk_scan_reverses_only_at_the_top() {
    // Start in the middle sweeping up: 30, 40, then back down to 20, 10.
    let pos = vec![10, 20, 30, 40];
    let run = disk_scan(&pos, 2);
    assert_eq!(run.distances, vec![10, 20, 10]);
    assert_eq!(run.total, 40);
}

#[test]
fn diagram_lane_digits_and_separators() {
    let s = Schedule(vec![Some(0), Some(0), None, Some(1), Some(0), Some(0)]);
    let lane0: String = schedule_lane(&s, 0);
    assert_eq!(lane0, "|12  3|4");
    let lane1: String = schedule_lane(&s, 1);
    assert_eq!(lane1, "|   1 | ");
}

#[test]
fn diagram_digit_counter_cycles_after_ten() {
    let s = Schedule(vec![Some(0); 12]);
    let lane: String = schedule_lane(&s, 0);
    assert_eq!(lane, "|12345|67890|12");
}

#[test]
fn diagram_scale_row() {
    let scale: String = schedule_scale(6);
    assert_eq!(scale, "Round/5  : |     ");
    let scale: String = schedule_scale(20);
    assert_eq!(scale, "Round/5  : |     |     |     |     ");
}

#[test]
fn recorded_round_robin_exam_checks_out() {
    let problems = klausur_stappert_ss15();
    assert_eq!(problems.len(), 1);
    assert!(problems[0].eval());
}

#[test]
fn recorded_disk_exam_checks_out() {
    let problems = klausur_stappert_ss23_probeklausur();
    assert_eq!(problems.len(), 1);
    assert!(problems[0].eval());
}

#[test]
fn eval_rejects_a_wrong_solution() {
    let wrong = Problem::RoundRobin {
        which: String::from("4.1"),
        processes: vec![Process::new(0, 2), Process::new(0, 2)],
        quantum: 1,
        expected: Schedule(vec![Some(0), Some(0), Some(1), Some(1)]),
    };
    assert!(!wrong.eval());
    let right = Problem::RoundRobin {
        which: String::from("4.1"),
        processes: vec![Process::new(0, 2), Process::new(0, 2)],
        quantum: 1,
        expected: Schedule(vec![Some(0), Some(1), Some(0), Some(1)]),
    };
    assert!(right.eval());
}

#[test]
fn eval_rejects_a_wrong_disk_solution() {
    let pos = demo_positions();
    let wrong = Problem::DiskSweep {
        which: String::from("4"),
        positions: pos,
        sstf_start: 0,
        scan_start: 2,
        expected_fcfs: DiskRun {
            distances: vec![9, 36, 19, 15, 25, 3, 28, 11],
            total: 146,
        },
        expected_sstf: DiskRun {
            distances: vec![1, 3, 7, 17, 15, 4, 2, 10],
            total: 59,
        },
        expected_scan: DiskRun {
            distances: vec![1, 7, 15, 4, 2, 10, 41, 7],
            total: 87,
        },
    };
    assert!(!wrong.eval());
}

#[test]
fn process_and_schedule_constructors() {
    let p = Process::new(3, 7);
    assert_eq!(p.arrival, 3);
    assert_eq!(p.computation_time, 7);
    let t = RealtimeProcess::new(2, 9);
    assert_eq!(t.computation_time, 2);
    assert_eq!(t.period_length, 9);
    let s = Schedule::new();
    assert_eq!(s.len(), 0);
}

#[test]
fn round_robin_quantum_rotation_lets_new_arrival_overtake() {
    // P0 exhausts its quantum exactly when P1 arrives: the fresh arrival is
    // queued before the rotated process and runs first.
    let ps = vec![Process::new(0, 4), Process::new(2, 2)];
    let s = round_robin(&ps, 2);
    let expected: Vec<Option<usize>> = vec![
        Some(0),
        Some(0),
        Some(1),
        Some(1),
        Some(0),
        Some(0),
    ];
    assert_eq!(s.0, expected);
}
