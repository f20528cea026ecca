//! Preemptive round-robin CPU scheduling.
//!
//! The simulator runs one discrete round at a time. Each round it first
//! admits every process whose arrival equals the round (ascending arrival,
//! ties in input order), then rotates the running process to the back of the
//! ready queue if it has exhausted its quantum — after this round's arrivals
//! were queued, so a fresh arrival can overtake a just-rotated process —
//! and finally runs the queue head for one unit. A process that still has
//! work left is requeued at the front; a finished process is dropped.
//!
//! The functions `rr_round` and `rr_state` are the reference model of this
//! algorithm; `round_robin` returns exactly the model's trace.

use vstd::prelude::*;

use crate::model::Process;
use crate::schedule::Schedule;
use crate::schedule::lemma_sched_count_push;
use crate::schedule::sched_count;
use std::collections::VecDeque;

verus! {

/// Every process needs at least one unit of work.
pub open spec fn rr_procs_ok(ps: Seq<Process>) -> bool {
    forall|i: int| 0 <= i < ps.len() ==> (#[trigger] ps[i]).computation_time >= 1
}

/// The preconditions of `round_robin` that the algorithm itself demands:
/// a positive quantum and no process with zero computation time.
pub open spec fn rr_valid_input(ps: Seq<Process>, quantum: usize) -> bool {
    &&& quantum >= 1
    &&& rr_procs_ok(ps)
}

/// Ready-queue entries `(id, remaining)` admitted at `round` from the first
/// `i` input processes, in input order. Rounds are never skipped, so a
/// process is admitted exactly when the round equals its arrival.
pub open spec fn rr_arrivals(ps: Seq<Process>, round: int, i: int) -> Seq<(usize, usize)>
    decreases i,
{
    if i <= 0 {
        Seq::empty()
    } else {
        rr_arrivals(ps, round, i - 1) + if ps[i - 1].arrival as int == round {
            seq![(((i - 1) as usize), ps[i - 1].computation_time)]
        } else {
            Seq::empty()
        }
    }
}

/// One round of the scheduler: admission, quantum rotation, then one unit of
/// work for the queue head. Returns the queue, the consecutive-unit counter,
/// and the trace slot of this round.
pub open spec fn rr_round(
    ps: Seq<Process>,
    quantum: int,
    q: Seq<(usize, usize)>,
    tsc: int,
    round: int,
) -> (Seq<(usize, usize)>, int, Option<usize>) {
    let q1 = q + rr_arrivals(ps, round, ps.len() as int);
    if q1.len() == 0 {
        (q1, tsc, None)
    } else {
        let q2 = if tsc >= quantum {
            q1.drop_first().push(q1[0])
        } else {
            q1
        };
        let tsc2: int = if tsc >= quantum {
            0
        } else {
            tsc
        };
        let cur = q2[0];
        let rest = q2.drop_first();
        if cur.1 > 1 {
            (seq![(cur.0, (cur.1 - 1) as usize)] + rest, tsc2 + 1, Some(cur.0))
        } else {
            (rest, 0, Some(cur.0))
        }
    }
}

/// The scheduler state after `r` rounds: ready queue, consecutive-unit
/// counter, and the trace so far.
pub open spec fn rr_state(ps: Seq<Process>, quantum: int, r: int) -> (
    Seq<(usize, usize)>,
    int,
    Seq<Option<usize>>,
)
    decreases r,
{
    if r <= 0 {
        (Seq::empty(), 0, Seq::empty())
    } else {
        let prev = rr_state(ps, quantum, r - 1);
        let step = rr_round(ps, quantum, prev.0, prev.1, r - 1);
        (step.0, step.1, prev.2.push(step.2))
    }
}

/// The simulation is finished at the start of round `r`: the ready queue is
/// empty and no arrival is still outstanding.
pub open spec fn rr_done(ps: Seq<Process>, quantum: int, r: int) -> bool {
    &&& rr_state(ps, quantum, r).0.len() == 0
    &&& forall|i: int| 0 <= i < ps.len() ==> (#[trigger] ps[i]).arrival < r
}

/// Work still queued for process `id`.
pub open spec fn q_rem(q: Seq<(usize, usize)>, id: usize) -> nat
    decreases q.len(),
{
    if q.len() == 0 {
        0
    } else {
        (if q[0].0 == id {
            q[0].1 as nat
        } else {
            0nat
        }) + q_rem(q.drop_first(), id)
    }
}

/// Work still queued over all processes.
pub open spec fn q_total(q: Seq<(usize, usize)>) -> nat
    decreases q.len(),
{
    if q.len() == 0 {
        0
    } else {
        q[0].1 as nat + q_total(q.drop_first())
    }
}

/// Work of the first `i` processes that have not arrived before round `r`.
pub open spec fn pending_work(ps: Seq<Process>, r: int, i: int) -> nat
    decreases i,
{
    if i <= 0 {
        0
    } else {
        pending_work(ps, r, i - 1) + if ps[i - 1].arrival as int >= r {
            ps[i - 1].computation_time as nat
        } else {
            0nat
        }
    }
}

/// Total work demanded by the whole input.
pub open spec fn rr_total_work(ps: Seq<Process>) -> nat {
    pending_work(ps, 0, ps.len() as int)
}

/// The largest arrival among the first `i` processes.
pub open spec fn max_arrival(ps: Seq<Process>, i: int) -> nat
    decreases i,
{
    if i <= 0 {
        0
    } else {
        let m = max_arrival(ps, i - 1);
        if ps[i - 1].arrival as nat > m {
            ps[i - 1].arrival as nat
        } else {
            m
        }
    }
}

/// The largest arrival in the whole input.
pub open spec fn rr_latest_arrival(ps: Seq<Process>) -> nat {
    max_arrival(ps, ps.len() as int)
}

/// Among the first `j` processes, how many are admitted once the admission
/// scan of round `r` has passed the first `i` of them: all with an earlier
/// arrival, plus the scanned ones arriving exactly at `r`.
pub open spec fn admitted_count(ps: Seq<Process>, r: int, i: int, j: int) -> nat
    decreases j,
{
    if j <= 0 {
        0
    } else {
        admitted_count(ps, r, i, j - 1) + if ps[j - 1].arrival < r || (ps[j - 1].arrival as int == r
            && j - 1 < i) {
            1nat
        } else {
            0nat
        }
    }
}

/// Rounds of `tr` in which some process ran.
pub open spec fn busy_count(tr: Seq<Option<usize>>) -> nat
    decreases tr.len(),
{
    if tr.len() == 0 {
        0
    } else {
        busy_count(tr.drop_last()) + if tr.last() is Some {
            1nat
        } else {
            0nat
        }
    }
}

pub proof fn lemma_busy_count_push(tr: Seq<Option<usize>>, x: Option<usize>)
    ensures
        busy_count(tr.push(x)) == busy_count(tr) + if x is Some {
            1nat
        } else {
            0nat
        },
{
    assert(tr.push(x).drop_last() =~= tr);
    assert(tr.push(x).last() == x);
}

pub proof fn lemma_q_rem_concat(a: Seq<(usize, usize)>, b: Seq<(usize, usize)>)
    ensures
        forall|id: usize| #[trigger] q_rem(a + b, id) == q_rem(a, id) + q_rem(b, id),
    decreases a.len(),
{
    if a.len() == 0 {
        assert(a + b =~= b);
        assert forall|id: usize| #[trigger] q_rem(a + b, id) == q_rem(a, id) + q_rem(b, id) by {
            assert(q_rem(a, id) == 0);
        }
    } else {
        assert((a + b).drop_first() =~= a.drop_first() + b);
        assert((a + b)[0] == a[0]);
        lemma_q_rem_concat(a.drop_first(), b);
        assert forall|id: usize| #[trigger] q_rem(a + b, id) == q_rem(a, id) + q_rem(b, id) by {
            assert(q_rem(a.drop_first() + b, id) == q_rem(a.drop_first(), id) + q_rem(b, id));
        }
    }
}

pub proof fn lemma_q_total_concat(a: Seq<(usize, usize)>, b: Seq<(usize, usize)>)
    ensures
        q_total(a + b) == q_total(a) + q_total(b),
    decreases a.len(),
{
    if a.len() == 0 {
        assert(a + b =~= b);
    } else {
        assert((a + b).drop_first() =~= a.drop_first() + b);
        assert((a + b)[0] == a[0]);
        lemma_q_total_concat(a.drop_first(), b);
    }
}

pub proof fn lemma_q_singleton(e: (usize, usize))
    ensures
        q_total(seq![e]) == e.1,
        forall|id: usize| #[trigger] q_rem(seq![e], id) == if e.0 == id {
            e.1 as nat
        } else {
            0nat
        },
{
    assert(seq![e].drop_first() =~= Seq::<(usize, usize)>::empty());
    assert(q_total(Seq::<(usize, usize)>::empty()) == 0);
    assert forall|id: usize| #[trigger] q_rem(seq![e], id) == if e.0 == id {
        e.1 as nat
    } else {
        0nat
    } by {
        assert(q_rem(Seq::<(usize, usize)>::empty(), id) == 0);
    }
}

/// What the admission scan of one round contributes: every entry carries the
/// still-unarrived work of a process arriving exactly at `round`.
pub proof fn lemma_rr_arrivals(ps: Seq<Process>, round: int, i: int)
    requires
        0 <= i <= ps.len(),
        ps.len() <= usize::MAX,
    ensures
        forall|k: int|
            0 <= k < rr_arrivals(ps, round, i).len() ==> {
                let e = #[trigger] rr_arrivals(ps, round, i)[k];
                &&& (e.0 as int) < i
                &&& ps[e.0 as int].arrival as int == round
                &&& e.1 == ps[e.0 as int].computation_time
            },
        forall|id: usize|
            (id as int) < ps.len() ==> #[trigger] q_rem(rr_arrivals(ps, round, i), id) == (if (
            id as int) < i && ps[id as int].arrival as int == round {
                ps[id as int].computation_time as nat
            } else {
                0nat
            }),
        q_total(rr_arrivals(ps, round, i)) + pending_work(ps, round + 1, i) == pending_work(
            ps,
            round,
            i,
        ),
    decreases i,
{
    if i <= 0 {
        assert forall|id: usize| (id as int) < ps.len() implies #[trigger] q_rem(
            rr_arrivals(ps, round, i),
            id,
        ) == 0nat by {
            assert(q_rem(Seq::<(usize, usize)>::empty(), id) == 0);
        }
    } else {
        lemma_rr_arrivals(ps, round, i - 1);
        let prev = rr_arrivals(ps, round, i - 1);
        let tail = if ps[i - 1].arrival as int == round {
            seq![(((i - 1) as usize), ps[i - 1].computation_time)]
        } else {
            Seq::<(usize, usize)>::empty()
        };
        assert(rr_arrivals(ps, round, i) == prev + tail);
        lemma_q_total_concat(prev, tail);
        lemma_q_rem_concat(prev, tail);
        if ps[i - 1].arrival as int == round {
            lemma_q_singleton((((i - 1) as usize), ps[i - 1].computation_time));
        } else {
            assert(q_total(tail) == 0);
        }
        assert forall|id: usize| (id as int) < ps.len() implies #[trigger] q_rem(
            rr_arrivals(ps, round, i),
            id,
        ) == (if (id as int) < i && ps[id as int].arrival as int == round {
            ps[id as int].computation_time as nat
        } else {
            0nat
        }) by {
            assert(q_rem(prev + tail, id) == q_rem(prev, id) + q_rem(tail, id));
            if ps[i - 1].arrival as int != round {
                assert(q_rem(tail, id) == 0);
            }
        }
    }
}

pub proof fn lemma_admitted_count_le(ps: Seq<Process>, r: int, i: int, j: int)
    requires
        0 <= j,
    ensures
        admitted_count(ps, r, i, j) <= j,
    decreases j,
{
    if j <= 0 {
    } else {
        lemma_admitted_count_le(ps, r, i, j - 1);
    }
}

/// A process that arrives at `r` or later and has not been scanned is not
/// yet admitted, so the count stays below `j`.
pub proof fn lemma_admitted_count_excludes(ps: Seq<Process>, r: int, i: int, j: int)
    requires
        0 <= i < j <= ps.len(),
        ps[i].arrival as int >= r,
    ensures
        admitted_count(ps, r, i, j) <= j - 1,
    decreases j,
{
    if j - 1 == i {
        lemma_admitted_count_le(ps, r, i, j - 1);
    } else {
        lemma_admitted_count_excludes(ps, r, i, j - 1);
    }
}

/// Scanning one more process admits it exactly when it arrives at `r`.
pub proof fn lemma_admitted_count_step(ps: Seq<Process>, r: int, i: int, j: int)
    requires
        0 <= i,
    ensures
        admitted_count(ps, r, i + 1, j) == admitted_count(ps, r, i, j) + (if i < j && ps[i].arrival
            as int == r {
            1nat
        } else {
            0nat
        }),
    decreases j,
{
    if j <= 0 {
    } else {
        lemma_admitted_count_step(ps, r, i, j - 1);
    }
}

/// A finished scan at round `r` admits the same set as an unstarted scan at
/// round `r + 1`.
pub proof fn lemma_admitted_count_next_round(ps: Seq<Process>, r: int, i: int, j: int)
    requires
        i >= j,
    ensures
        admitted_count(ps, r, i, j) == admitted_count(ps, r + 1, 0, j),
    decreases j,
{
    if j <= 0 {
    } else {
        lemma_admitted_count_next_round(ps, r, i, j - 1);
    }
}

/// Before round 0 nothing has been admitted.
pub proof fn lemma_admitted_count_zero(ps: Seq<Process>, j: int)
    ensures
        admitted_count(ps, 0, 0, j) == 0,
    decreases j,
{
    if j <= 0 {
    } else {
        lemma_admitted_count_zero(ps, j - 1);
    }
}

/// Everyone is admitted before the scan of round `r` exactly when every
/// arrival lies before `r`.
pub proof fn lemma_admitted_count_full(ps: Seq<Process>, r: int, j: int)
    requires
        0 <= j <= ps.len(),
    ensures
        admitted_count(ps, r, 0, j) == j <==> (forall|t: int|
            0 <= t < j ==> (#[trigger] ps[t]).arrival < r),
    decreases j,
{
    if j <= 0 {
    } else {
        lemma_admitted_count_full(ps, r, j - 1);
        lemma_admitted_count_le(ps, r, 0, j - 1);
    }
}

/// An unadmitted process exists while the admitted count is short.
pub proof fn lemma_admitted_count_missing(ps: Seq<Process>, r: int, j: int)
    requires
        0 <= j <= ps.len(),
        admitted_count(ps, r, 0, j) < j,
    ensures
        exists|t: int| 0 <= t < j && (#[trigger] ps[t]).arrival as int >= r,
    decreases j,
{
    if ps[j - 1].arrival as int >= r {
        assert(0 <= j - 1 < j && ps[j - 1].arrival as int >= r);
    } else {
        lemma_admitted_count_missing(ps, r, j - 1);
    }
}

pub proof fn lemma_max_arrival(ps: Seq<Process>, i: int)
    ensures
        forall|t: int| 0 <= t < i ==> (#[trigger] ps[t]).arrival as nat <= max_arrival(ps, i),
    decreases i,
{
    if i <= 0 {
    } else {
        lemma_max_arrival(ps, i - 1);
    }
}

pub proof fn lemma_max_arrival_le(ps: Seq<Process>, i: int, m: int)
    requires
        forall|j: int| 0 <= j < i ==> (#[trigger] ps[j]).arrival <= m,
        m >= 0,
    ensures
        max_arrival(ps, i) <= m,
    decreases i,
{
    if i > 0 {
        lemma_max_arrival_le(ps, i - 1, m);
    }
}

pub proof fn lemma_pending_work_le(ps: Seq<Process>, r: int, i: int, c: int)
    requires
        0 <= i,
        forall|j: int| 0 <= j < i ==> (#[trigger] ps[j]).computation_time <= c,
        c >= 0,
    ensures
        pending_work(ps, r, i) <= i * c,
    decreases i,
{
    if i <= 0 {
    } else {
        lemma_pending_work_le(ps, r, i - 1, c);
        assert((i - 1) * c + c == i * c) by (nonlinear_arith);
    }
}

/// Queue entries always point at real processes, carry at least one unit of
/// remaining work, and belong to processes already arrived.
pub open spec fn rr_queue_ok(ps: Seq<Process>, q: Seq<(usize, usize)>, r: int) -> bool {
    forall|k: int|
        0 <= k < q.len() ==> {
            let e = #[trigger] q[k];
            &&& (e.0 as int) < ps.len()
            &&& e.1 >= 1
            &&& (ps[e.0 as int].arrival as int) < r
        }
}

/// Work conservation: for every process, trace slots plus queued work plus
/// unarrived work add up to its declared computation time.
pub open spec fn rr_accounted(
    ps: Seq<Process>,
    q: Seq<(usize, usize)>,
    tr: Seq<Option<usize>>,
    r: int,
) -> bool {
    forall|i: int|
        0 <= i < ps.len() ==> sched_count(tr, i as usize) + q_rem(q, i as usize) + (if (#[trigger]
        ps[i]).arrival as int >= r {
            ps[i].computation_time as nat
        } else {
            0nat
        }) == ps[i].computation_time as nat
}

/// Every trace slot names a real process that had already arrived.
pub open spec fn rr_trace_ok(ps: Seq<Process>, tr: Seq<Option<usize>>) -> bool {
    forall|t: int|
        0 <= t < tr.len() ==> ((#[trigger] tr[t]) matches Some(id) ==> (id as int) < ps.len()
            && ps[id as int].arrival <= t)
}

/// The inductive invariant of the model: after `r` rounds the queue is well
/// formed, work is conserved, no slot precedes its process's arrival, and
/// busy slots plus outstanding work equal the total demand.
pub open spec fn rr_inv(
    ps: Seq<Process>,
    q: Seq<(usize, usize)>,
    tr: Seq<Option<usize>>,
    r: int,
) -> bool {
    &&& tr.len() == r
    &&& rr_queue_ok(ps, q, r)
    &&& rr_accounted(ps, q, tr, r)
    &&& rr_trace_ok(ps, tr)
    &&& busy_count(tr) + q_total(q) + pending_work(ps, r, ps.len() as int) == rr_total_work(ps)
}

/// Rotating the queue head to the back moves entries around but changes no
/// per-process or total amount of queued work.
pub proof fn lemma_q_rotate(q: Seq<(usize, usize)>)
    requires
        q.len() > 0,
    ensures
        q.drop_first().push(q[0]).len() == q.len(),
        q_total(q.drop_first().push(q[0])) == q_total(q),
        forall|id: usize| #[trigger] q_rem(q.drop_first().push(q[0]), id) == q_rem(q, id),
        forall|k: int|
            0 <= k < q.len() ==> #[trigger] q.drop_first().push(q[0])[k] == (if k < q.len() - 1 {
                q[k + 1]
            } else {
                q[0]
            }),
{
    let rot = q.drop_first().push(q[0]);
    assert(rot =~= q.drop_first() + seq![q[0]]);
    assert(q =~= seq![q[0]] + q.drop_first());
    lemma_q_singleton(q[0]);
    lemma_q_rem_concat(q.drop_first(), seq![q[0]]);
    lemma_q_rem_concat(seq![q[0]], q.drop_first());
    lemma_q_total_concat(q.drop_first(), seq![q[0]]);
    lemma_q_total_concat(seq![q[0]], q.drop_first());
    assert forall|id: usize| #[trigger] q_rem(rot, id) == q_rem(q, id) by {
        assert(q_rem(q.drop_first() + seq![q[0]], id) == q_rem(q.drop_first(), id) + q_rem(
            seq![q[0]],
            id,
        ));
        assert(q_rem(seq![q[0]] + q.drop_first(), id) == q_rem(seq![q[0]], id) + q_rem(
            q.drop_first(),
            id,
        ));
    }
}

/// Running the queue head for one unit preserves the per-round invariants:
/// the consumed unit moves from the queue into the trace.
pub proof fn lemma_rr_run_preserves(ps: Seq<Process>, q2: Seq<(usize, usize)>, tr: Seq<Option<usize>>)
    requires
        rr_procs_ok(ps),
        ps.len() <= usize::MAX,
        q2.len() > 0,
        rr_queue_ok(ps, q2, tr.len() as int + 1),
        rr_accounted(ps, q2, tr, tr.len() as int + 1),
        rr_trace_ok(ps, tr),
    ensures
        ({
            let cur = q2[0];
            let rest = q2.drop_first();
            let outq = if cur.1 > 1 {
                seq![(cur.0, (cur.1 - 1) as usize)] + rest
            } else {
                rest
            };
            let outt = tr.push(Some(cur.0));
            &&& rr_queue_ok(ps, outq, tr.len() as int + 1)
            &&& rr_accounted(ps, outq, outt, tr.len() as int + 1)
            &&& rr_trace_ok(ps, outt)
            &&& q_total(outq) + 1 == q_total(q2)
            &&& busy_count(outt) == busy_count(tr) + 1
        }),
{
    let r = tr.len() as int + 1;
    let cur = q2[0];
    let rest = q2.drop_first();
    assert((cur.0 as int) < ps.len() && cur.1 >= 1 && (ps[cur.0 as int].arrival as int) < r);
    // Unfolding q_rem/q_total at the head of q2.
    assert forall|id: usize| #[trigger] q_rem(q2, id) == (if cur.0 == id {
        cur.1 as nat
    } else {
        0nat
    }) + q_rem(rest, id) by {}
    assert(q_total(q2) == cur.1 + q_total(rest));
    let slot = Some(cur.0);
    lemma_sched_count_push(tr, slot);
    lemma_busy_count_push(tr, slot);
    assert(rr_trace_ok(ps, tr.push(slot))) by {
        assert(forall|t: int| 0 <= t < tr.len() ==> #[trigger] tr.push(slot)[t] == tr[t]);
        assert(tr.push(slot)[tr.len() as int] == slot);
    }
    if cur.1 > 1 {
        let newq = seq![(cur.0, (cur.1 - 1) as usize)] + rest;
        lemma_q_rem_concat(seq![(cur.0, (cur.1 - 1) as usize)], rest);
        lemma_q_total_concat(seq![(cur.0, (cur.1 - 1) as usize)], rest);
        lemma_q_singleton((cur.0, (cur.1 - 1) as usize));
        assert forall|id: usize| #[trigger] q_rem(newq, id) + (if cur.0 == id {
            1nat
        } else {
            0nat
        }) == q_rem(q2, id) by {
            assert(q_rem(newq, id) == q_rem(seq![(cur.0, (cur.1 - 1) as usize)], id) + q_rem(
                rest,
                id,
            ));
        }
        assert(rr_queue_ok(ps, newq, r)) by {
            assert(forall|k: int|
                0 <= k < newq.len() ==> #[trigger] newq[k] == if k == 0 {
                    (cur.0, (cur.1 - 1) as usize)
                } else {
                    rest[k - 1]
                });
        }
    } else {
        assert(cur.1 == 1);
        assert forall|id: usize| #[trigger] q_rem(rest, id) + (if cur.0 == id {
            1nat
        } else {
            0nat
        }) == q_rem(q2, id) by {}
    }
}

/// One round of the model preserves the invariant.
pub proof fn lemma_rr_round_preserves(
    ps: Seq<Process>,
    quantum: int,
    q: Seq<(usize, usize)>,
    tsc: int,
    tr: Seq<Option<usize>>,
    r: int,
)
    requires
        rr_procs_ok(ps),
        ps.len() <= usize::MAX,
        r >= 0,
        rr_inv(ps, q, tr, r),
    ensures
        rr_inv(
            ps,
            rr_round(ps, quantum, q, tsc, r).0,
            tr.push(rr_round(ps, quantum, q, tsc, r).2),
            r + 1,
        ),
{
    let n = ps.len() as int;
    let arr = rr_arrivals(ps, r, n);
    let q1 = q + arr;
    lemma_rr_arrivals(ps, r, n);
    lemma_q_total_concat(q, arr);
    lemma_q_rem_concat(q, arr);
    // Mid-round facts: after admission, accounting holds against round r + 1.
    assert forall|i: int| 0 <= i < n implies sched_count(tr, i as usize) + q_rem(q1, i as usize)
        + (if (#[trigger] ps[i]).arrival as int >= r + 1 {
        ps[i].computation_time as nat
    } else {
        0nat
    }) == ps[i].computation_time as nat by {
        assert(q_rem(q1, i as usize) == q_rem(q, i as usize) + q_rem(arr, i as usize));
    }
    assert(rr_queue_ok(ps, q1, r + 1));
    assert(q_total(q1) + pending_work(ps, r + 1, n) == q_total(q) + pending_work(ps, r, n));
    let step = rr_round(ps, quantum, q, tsc, r);
    if q1.len() == 0 {
        assert(step == (q1, tsc, None::<usize>));
        lemma_sched_count_push(tr, None);
        lemma_busy_count_push(tr, None);
    } else {
        let q2 = if tsc >= quantum {
            q1.drop_first().push(q1[0])
        } else {
            q1
        };
        if tsc >= quantum {
            lemma_q_rotate(q1);
            assert(rr_queue_ok(ps, q2, r + 1));
        }
        assert(rr_accounted(ps, q2, tr, r + 1));
        assert(q_total(q2) == q_total(q1));
        lemma_rr_run_preserves(ps, q2, tr);
    }
}

/// The invariant holds of every reachable model state.
pub proof fn lemma_rr_state_inv(ps: Seq<Process>, quantum: int, r: int)
    requires
        rr_procs_ok(ps),
        ps.len() <= usize::MAX,
        r >= 0,
    ensures
        rr_inv(ps, rr_state(ps, quantum, r).0, rr_state(ps, quantum, r).2, r),
    decreases r,
{
    if r == 0 {
        assert(pending_work(ps, 0, ps.len() as int) == rr_total_work(ps));
        assert forall|i: int| 0 <= i < ps.len() implies sched_count(
            Seq::<Option<usize>>::empty(),
            i as usize,
        ) + q_rem(Seq::<(usize, usize)>::empty(), i as usize) + (if (#[trigger] ps[i]).arrival
            as int >= 0 {
            ps[i].computation_time as nat
        } else {
            0nat
        }) == ps[i].computation_time as nat by {
            assert(ps[i].arrival as int >= 0);
        }
    } else {
        lemma_rr_state_inv(ps, quantum, r - 1);
        let prev = rr_state(ps, quantum, r - 1);
        lemma_rr_round_preserves(ps, quantum, prev.0, prev.1, prev.2, r - 1);
    }
}

/// How one model round moves work around: admission conserves the combined
/// outstanding work, an idle round means nothing was queued or arriving, and
/// a busy round consumes exactly one unit.
pub proof fn lemma_rr_round_effects(
    ps: Seq<Process>,
    quantum: int,
    q: Seq<(usize, usize)>,
    tsc: int,
    r: int,
)
    requires
        rr_procs_ok(ps),
        ps.len() <= usize::MAX,
        rr_queue_ok(ps, q, r),
        r >= 0,
    ensures
        ({
            let step = rr_round(ps, quantum, q, tsc, r);
            let n = ps.len() as int;
            &&& (step.2 is None <==> q.len() == 0 && rr_arrivals(ps, r, n).len() == 0)
            &&& (step.2 is None ==> step.0 == q && step.1 == tsc && q_total(step.0) + pending_work(
                ps,
                r + 1,
                n,
            ) == q_total(q) + pending_work(ps, r, n) && (forall|i: int|
                0 <= i < n ==> (#[trigger] ps[i]).arrival as int != r))
            &&& (step.2 is Some ==> q_total(step.0) + 1 + pending_work(ps, r + 1, n) == q_total(q)
                + pending_work(ps, r, n))
        }),
{
    let n = ps.len() as int;
    let arr = rr_arrivals(ps, r, n);
    let q1 = q + arr;
    lemma_rr_arrivals(ps, r, n);
    lemma_q_total_concat(q, arr);
    let step = rr_round(ps, quantum, q, tsc, r);
    if q1.len() == 0 {
        assert(q1 =~= q);
        assert forall|i: int| 0 <= i < n implies (#[trigger] ps[i]).arrival as int != r by {
            if ps[i].arrival as int == r {
                assert(q_rem(arr, i as usize) == ps[i].computation_time as nat);
                assert(q_rem(arr, i as usize) == 0);
            }
        }
    } else {
        let q2 = if tsc >= quantum {
            q1.drop_first().push(q1[0])
        } else {
            q1
        };
        assert forall|k: int| 0 <= k < q1.len() implies (#[trigger] q1[k]).1 >= 1 by {
            if k < q.len() {
                assert(q1[k] == q[k]);
            } else {
                assert(q1[k] == arr[k - q.len()]);
            }
        }
        if tsc >= quantum {
            assert(q2 =~= q1.drop_first() + seq![q1[0]]);
            lemma_q_total_concat(q1.drop_first(), seq![q1[0]]);
            assert(q1 =~= seq![q1[0]] + q1.drop_first());
            lemma_q_total_concat(seq![q1[0]], q1.drop_first());
            assert(q_total(q2) == q_total(q1));
        }
        let cur = q2[0];
        let rest = q2.drop_first();
        assert(cur.1 >= 1) by {
            if tsc >= quantum {
                if q1.len() == 1 {
                    assert(q2[0] == q1[0]);
                } else {
                    assert(q2[0] == q1[1]);
                }
            }
        }
        assert(q_total(q2) == cur.1 + q_total(rest));
        if cur.1 > 1 {
            lemma_q_singleton((cur.0, (cur.1 - 1) as usize));
            lemma_q_total_concat(seq![(cur.0, (cur.1 - 1) as usize)], rest);
        }
    }
}

/// At a finished state every process has been scheduled for exactly its
/// computation time, and never before its arrival.
pub proof fn lemma_rr_done_counts(ps: Seq<Process>, quantum: int, r: int)
    requires
        rr_procs_ok(ps),
        ps.len() <= usize::MAX,
        r >= 0,
        rr_done(ps, quantum, r),
    ensures
        forall|i: int|
            0 <= i < ps.len() ==> sched_count(rr_state(ps, quantum, r).2, i as usize) == (
            #[trigger] ps[i]).computation_time,
        rr_trace_ok(ps, rr_state(ps, quantum, r).2),
{
    lemma_rr_state_inv(ps, quantum, r);
    let st = rr_state(ps, quantum, r);
    assert forall|i: int| 0 <= i < ps.len() implies sched_count(st.2, i as usize) == (
    #[trigger] ps[i]).computation_time by {
        assert(q_rem(st.0, i as usize) == 0);
        assert(ps[i].arrival < r);
    }
}

/// The final round of a finished simulation is never idle: had it been, the
/// simulation would have been finished one round earlier already.
pub proof fn lemma_rr_last_slot(ps: Seq<Process>, quantum: int, r: int)
    requires
        rr_procs_ok(ps),
        ps.len() <= usize::MAX,
        r >= 1,
        rr_done(ps, quantum, r),
        !rr_done(ps, quantum, r - 1),
    ensures
        rr_state(ps, quantum, r).2.last() is Some,
{
    let st_prev = rr_state(ps, quantum, r - 1);
    let step = rr_round(ps, quantum, st_prev.0, st_prev.1, r - 1);
    lemma_rr_state_inv(ps, quantum, r - 1);
    assert(rr_state(ps, quantum, r).2.last() == step.2);
    if step.2 is None {
        lemma_rr_round_effects(ps, quantum, st_prev.0, st_prev.1, r - 1);
        assert(st_prev.0.len() == 0);
        assert(exists|t: int| 0 <= t < ps.len() && !((#[trigger] ps[t]).arrival < r - 1));
        let t = choose|t: int| 0 <= t < ps.len() && !((#[trigger] ps[t]).arrival < r - 1);
        assert(ps[t].arrival as int != r - 1);
        assert(ps[t].arrival as int >= r);
        assert(false);
    }
}

/// No process arrives at `round`: the admission scan queues nothing.
pub proof fn lemma_rr_arrivals_empty(ps: Seq<Process>, round: int, i: int)
    requires
        forall|j: int| 0 <= j < i ==> (#[trigger] ps[j]).arrival as int != round,
    ensures
        rr_arrivals(ps, round, i) == Seq::<(usize, usize)>::empty(),
    decreases i,
{
    if i <= 0 {
    } else {
        lemma_rr_arrivals_empty(ps, round, i - 1);
        assert(rr_arrivals(ps, round, i) =~= Seq::<(usize, usize)>::empty());
    }
}

/// Once finished, the simulation stays finished: no arrival is left and
/// the queue remains empty.
pub proof fn lemma_rr_done_monotone(ps: Seq<Process>, quantum: int, r: int, r2: int)
    requires
        0 <= r <= r2,
        rr_done(ps, quantum, r),
    ensures
        rr_done(ps, quantum, r2),
    decreases r2 - r,
{
    if r2 > r {
        lemma_rr_done_monotone(ps, quantum, r, r2 - 1);
        let prev = rr_state(ps, quantum, r2 - 1);
        lemma_rr_arrivals_empty(ps, r2 - 1, ps.len() as int);
        assert(prev.0 + rr_arrivals(ps, r2 - 1, ps.len() as int) =~= Seq::<
            (usize, usize),
        >::empty());
        assert(rr_state(ps, quantum, r2).0.len() == 0);
    }
}

/// The round in which the simulation first finishes is unique, so any two
/// traces satisfying `round_robin`'s contract are the same trace.
pub proof fn lemma_rr_finish_unique(ps: Seq<Process>, quantum: int, r1: int, r2: int)
    requires
        0 <= r1,
        0 <= r2,
        rr_done(ps, quantum, r1),
        rr_done(ps, quantum, r2),
        r1 > 0 ==> !rr_done(ps, quantum, r1 - 1),
        r2 > 0 ==> !rr_done(ps, quantum, r2 - 1),
    ensures
        r1 == r2,
{
    if r1 < r2 {
        lemma_rr_done_monotone(ps, quantum, r1, r2 - 1);
    }
    if r2 < r1 {
        lemma_rr_done_monotone(ps, quantum, r2, r1 - 1);
    }
}

/// Simulate preemptive round robin over `ps` with the given quantum.
///
/// The trace is exactly the reference model's: slot `r` holds the process
/// that ran in round `r`, or `None` for an idle round, and the simulation
/// stops at the first round where nothing is queued or outstanding. Every
/// process is scheduled for exactly its computation time, never before its
/// arrival, and the final slot is never idle.
#[verifier::loop_isolation(false)]
#[verifier::rlimit(100)]
pub fn round_robin(ps: &Vec<Process>, quantum: usize) -> (s: Schedule)
    requires
        rr_valid_input(ps@, quantum),
        rr_latest_arrival(ps@) + rr_total_work(ps@) + 2 <= usize::MAX,
    ensures
        s@ == rr_state(ps@, quantum as int, s@.len() as int).2,
        rr_done(ps@, quantum as int, s@.len() as int),
        s@.len() > 0 ==> !rr_done(ps@, quantum as int, s@.len() - 1),
        forall|i: int|
            0 <= i < ps@.len() ==> sched_count(s@, i as usize) == (
            #[trigger] ps@[i]).computation_time,
        rr_trace_ok(ps@, s@),
        s@.len() > 0 ==> s@.last() is Some,
{
    let ghost psv = ps@;
    let ghost qi = quantum as int;
    let n = ps.len();
    let mut queue: VecDeque<(usize, usize)> = VecDeque::new();
    let mut trace: Vec<Option<usize>> = Vec::new();
    let mut round: usize = 0;
    let mut tsc: usize = 0;
    let mut admitted: usize = 0;

    proof {
        lemma_admitted_count_zero(psv, n as int);
    }

    while admitted < n || queue.len() > 0
        invariant
            queue@ == rr_state(psv, qi, round as int).0,
            tsc as int == rr_state(psv, qi, round as int).1,
            trace@ == rr_state(psv, qi, round as int).2,
            admitted == admitted_count(psv, round as int, 0, n as int),
            round as int <= rr_latest_arrival(psv) + 1 + busy_count(trace@),
            round > 0 ==> !rr_done(psv, qi, round as int - 1),
        decreases
            q_total(queue@) + pending_work(psv, round as int, n as int),
            (if round as int <= rr_latest_arrival(psv) {
                rr_latest_arrival(psv) + 1 - round as int
            } else {
                0
            }),
    {
        proof {
            lemma_rr_state_inv(psv, qi, round as int);
        }
        let ghost st0 = rr_state(psv, qi, round as int);
        let ghost was_waiting = admitted < n;

        // Admission scan: queue every process arriving exactly now.
        let ghost q_entry = queue@;
        let mut i: usize = 0;
        while i < n
            invariant
                i <= n,
                queue@ == q_entry + rr_arrivals(psv, round as int, i as int),
                admitted == admitted_count(psv, round as int, i as int, n as int),
            decreases n - i,
        {
            if ps[i].arrival == round {
                proof {
                    lemma_admitted_count_excludes(psv, round as int, i as int, n as int);
                }
                queue.push_back((i, ps[i].computation_time));
                proof {
                    assert(queue@ =~= q_entry + rr_arrivals(psv, round as int, i as int + 1));
                }
                admitted = admitted + 1;
            } else {
                proof {
                    assert(queue@ =~= q_entry + rr_arrivals(psv, round as int, i as int + 1));
                }
            }
            proof {
                lemma_admitted_count_step(psv, round as int, i as int, n as int);
            }
            i = i + 1;
        }
        proof {
            lemma_admitted_count_next_round(psv, round as int, n as int, n as int);
        }

        let ghost q1 = st0.0 + rr_arrivals(psv, round as int, n as int);

        let slot: Option<usize>;
        if queue.len() > 0 {
            let mut cur = queue.pop_front().unwrap();
            if tsc >= quantum {
                queue.push_back(cur);
                cur = queue.pop_front().unwrap();
                tsc = 0;
            }
            slot = Some(cur.0);
            proof {
                let q2 = if st0.1 >= qi {
                    q1.drop_first().push(q1[0])
                } else {
                    q1
                };
                assert(cur == q2[0]);
                assert(queue@ == q2.drop_first());
            }
            if cur.1 > 1 {
                queue.push_front((cur.0, cur.1 - 1));
                tsc = tsc + 1;
            } else {
                tsc = 0;
            }
        } else {
            slot = None;
        }
        trace.push(slot);

        proof {
            let step = rr_round(psv, qi, st0.0, st0.1, round as int);
            assert(queue@ == step.0);
            assert(tsc as int == step.1);
            assert(slot == step.2);
            assert(rr_state(psv, qi, round as int + 1) == (step.0, step.1, st0.2.push(step.2)));
            lemma_busy_count_push(st0.2, slot);
            lemma_rr_round_effects(psv, qi, st0.0, st0.1, round as int);
            lemma_max_arrival(psv, n as int);

            if slot is None {
                // Idle round: the queue was empty and nothing arrived, so an
                // outstanding process has a strictly later arrival.
                assert(was_waiting);
                lemma_admitted_count_le(psv, round as int, 0, n as int);
                lemma_admitted_count_missing(psv, round as int, n as int);
                let t = choose|t: int|
                    0 <= t < n && (#[trigger] psv[t]).arrival as int >= round as int;
                assert(psv[t].arrival as int >= round as int + 1);
                assert(round as int + 1 <= rr_latest_arrival(psv));
            }
            // The new round index stays within the machine bound.
            assert(busy_count(trace@) + q_total(queue@) + pending_work(
                psv,
                round as int + 1,
                n as int,
            ) == rr_total_work(psv));
            assert(round as int + 1 <= rr_latest_arrival(psv) + 1 + busy_count(trace@));
            assert(busy_count(trace@) <= rr_total_work(psv));
            // The loop made progress this iteration.
            assert(!rr_done(psv, qi, round as int)) by {
                if was_waiting {
                    lemma_admitted_count_le(psv, round as int, 0, n as int);
                    lemma_admitted_count_full(psv, round as int, n as int);
                } else {
                    assert(st0.0.len() > 0);
                }
            }
        }
        round = round + 1;
    }

    proof {
        lemma_rr_state_inv(psv, qi, round as int);
        lemma_admitted_count_le(psv, round as int, 0, n as int);
        lemma_admitted_count_full(psv, round as int, n as int);
        assert(rr_done(psv, qi, round as int));
        lemma_rr_done_counts(psv, qi, round as int);
        if round > 0 {
            lemma_rr_last_slot(psv, qi, round as int);
        }
    }
    Schedule(trace)
}

} // verus!
