//! Rate-monotonic scheduling of periodic real-time tasks.
//!
//! Priority is static and inversely proportional to the period: each round
//! the task with the shortest period among those with remaining budget runs
//! for one unit, ties falling to the earlier input position. At every
//! multiple of a task's period its budget is reset to its computation time;
//! unspent budget is discarded. The simulation spans one hyperperiod — the
//! least common multiple of all periods — so the trace captures the full
//! repeating pattern.
//!
//! The functions `rm_round_step` and `rm_state` are the reference model;
//! `rate_monotonic` returns exactly the model's trace.

use vstd::prelude::*;

use vstd::arithmetic::div_mod::lemma_fundamental_div_mod;
use vstd::arithmetic::div_mod::lemma_fundamental_div_mod_converse_div;
use vstd::arithmetic::div_mod::lemma_fundamental_div_mod_converse_mod;
use vstd::arithmetic::div_mod::lemma_mod_division_less_than_divisor;
use vstd::arithmetic::div_mod::lemma_mod_multiples_basic;
use vstd::arithmetic::div_mod::lemma_small_mod;

use crate::model::RealtimeProcess;
use crate::schedule::Schedule;
use crate::schedule::lemma_sched_count_range_beyond;
use crate::schedule::lemma_sched_count_range_push;
use crate::schedule::lemma_sched_count_range_shrink;
use crate::schedule::sched_count_range;

verus! {

/// Every task needs at least one unit per period and has a positive period.
pub open spec fn rm_procs_ok(ps: Seq<RealtimeProcess>) -> bool {
    forall|i: int|
        0 <= i < ps.len() ==> (#[trigger] ps[i]).computation_time >= 1 && ps[i].period_length >= 1
}

/// The preconditions of `rate_monotonic`: a nonempty task set whose LCM is
/// defined (all periods positive) and whose budgets are positive.
pub open spec fn rm_valid_input(ps: Seq<RealtimeProcess>) -> bool {
    &&& ps.len() >= 1
    &&& rm_procs_ok(ps)
}

/// `m` is divided by every task's period.
pub open spec fn is_common_multiple(ps: Seq<RealtimeProcess>, m: int) -> bool {
    forall|i: int| 0 <= i < ps.len() ==> m % ((#[trigger] ps[i]).period_length as int) == 0
}

/// `h` is the hyperperiod: the least positive common multiple of all
/// periods.
pub open spec fn is_hyperperiod(ps: Seq<RealtimeProcess>, h: int) -> bool {
    &&& h >= 1
    &&& is_common_multiple(ps, h)
    &&& forall|m: int| 1 <= m < h ==> !is_common_multiple(ps, m)
}

/// Budgets after the refresh scan of round `r`: a task whose period divides
/// the round gets a fresh budget, the rest keep theirs.
pub open spec fn rm_refresh(ps: Seq<RealtimeProcess>, b: Seq<usize>, r: int) -> Seq<usize> {
    Seq::new(
        ps.len(),
        |i: int|
            if r % (ps[i].period_length as int) == 0 {
                ps[i].computation_time
            } else {
                b[i]
            },
    )
}

/// The task to run, scanning the first `i` tasks: the one with the shortest
/// period among those with remaining budget, earliest input position on a
/// tie. Equivalent to scanning the tasks in static priority order and
/// taking the first with budget left.
pub open spec fn rm_pick_upto(ps: Seq<RealtimeProcess>, b: Seq<usize>, i: int) -> Option<usize>
    decreases i,
{
    if i <= 0 {
        None
    } else {
        match rm_pick_upto(ps, b, i - 1) {
            None => if b[i - 1] > 0 {
                Some((i - 1) as usize)
            } else {
                None
            },
            Some(j) => if b[i - 1] > 0 && ps[i - 1].period_length < ps[j as int].period_length {
                Some((i - 1) as usize)
            } else {
                Some(j)
            },
        }
    }
}

pub open spec fn rm_pick(ps: Seq<RealtimeProcess>, b: Seq<usize>) -> Option<usize> {
    rm_pick_upto(ps, b, ps.len() as int)
}

/// One round of the scheduler: refresh the budgets due at `r`, then run the
/// highest-priority ready task for one unit.
pub open spec fn rm_round_step(ps: Seq<RealtimeProcess>, b: Seq<usize>, r: int) -> (
    Seq<usize>,
    Option<usize>,
) {
    let b1 = rm_refresh(ps, b, r);
    match rm_pick(ps, b1) {
        None => (b1, None),
        Some(j) => (b1.update(j as int, (b1[j as int] - 1) as usize), Some(j)),
    }
}

/// The scheduler state after `r` rounds: budgets and the trace so far.
pub open spec fn rm_state(ps: Seq<RealtimeProcess>, r: int) -> (Seq<usize>, Seq<Option<usize>>)
    decreases r,
{
    if r <= 0 {
        (Seq::new(ps.len(), |i: int| 0usize), Seq::empty())
    } else {
        let prev = rm_state(ps, r - 1);
        let step = rm_round_step(ps, prev.0, r - 1);
        (step.0, prev.1.push(step.1))
    }
}

/// The start of the period window of task `i` that round `r - 1` falls in.
pub open spec fn rm_window_start(ps: Seq<RealtimeProcess>, i: int, r: int) -> int {
    let p = ps[i].period_length as int;
    p * ((r - 1) / p)
}

/// Task `i` runs at most its per-period budget inside its `k`-th period
/// window.
pub open spec fn rm_window_ok(ps: Seq<RealtimeProcess>, tr: Seq<Option<usize>>, i: int, k: int) -> bool {
    let p = ps[i].period_length as int;
    sched_count_range(tr, i as usize, k * p, (k + 1) * p) <= ps[i].computation_time
}

/// A picked task really is one of the scanned tasks and has budget left.
pub proof fn lemma_rm_pick_props(ps: Seq<RealtimeProcess>, b: Seq<usize>, i: int)
    requires
        i <= usize::MAX,
    ensures
        rm_pick_upto(ps, b, i) matches Some(j) ==> (j as int) < i && b[j as int] > 0,
    decreases i,
{
    if i <= 0 {
    } else {
        lemma_rm_pick_props(ps, b, i - 1);
    }
}

/// Relies on num_integer::lcm: for positive operands it returns their least
/// common multiple, computed without overflow as a * (b / gcd(a, b)).
#[verifier::external_body]
fn lcm_usize(a: usize, b: usize) -> (r: usize)
    requires
        a >= 1,
        b >= 1,
        a * b <= usize::MAX,
    ensures
        r >= 1,
        r as int % a as int == 0,
        r as int % b as int == 0,
        r <= a * b,
        forall|m: int| 1 <= m < r ==> !(#[trigger] (m % (a as int)) == 0 && m % (b as int) == 0),
{
    num_integer::lcm(a, b)
}

/// Product of the first `i` periods, the overflow bound for the LCM fold.
pub open spec fn rm_periods_product(ps: Seq<RealtimeProcess>, i: int) -> int
    decreases i,
{
    if i <= 0 {
        1
    } else {
        rm_periods_product(ps, i - 1) * (ps[i - 1].period_length as int)
    }
}

pub proof fn lemma_rm_product_bounds(ps: Seq<RealtimeProcess>, i: int, j: int)
    requires
        rm_procs_ok(ps),
        0 <= i <= j <= ps.len(),
    ensures
        1 <= rm_periods_product(ps, i),
        rm_periods_product(ps, i) <= rm_periods_product(ps, j),
    decreases j,
{
    if i == j {
        if i <= 0 {
        } else {
            lemma_rm_product_bounds(ps, i - 1, i - 1);
            let a = rm_periods_product(ps, i - 1);
            let p = ps[i - 1].period_length as int;
            assert(a * 1 <= a * p && 1 * 1 <= a * p) by (nonlinear_arith)
                requires
                    a >= 1,
                    p >= 1,
            ;
        }
    } else {
        lemma_rm_product_bounds(ps, i, j - 1);
        lemma_rm_product_bounds(ps, j - 1, j - 1);
        let a = rm_periods_product(ps, j - 1);
        let p = ps[j - 1].period_length as int;
        assert(a * 1 <= a * p) by (nonlinear_arith)
            requires
                a >= 1,
                p >= 1,
        ;
    }
}

/// Divisibility is transitive: if `d` divides `a` and `a` divides `b`,
/// then `d` divides `b`.
pub proof fn lemma_divides_transitive(d: int, a: int, b: int)
    requires
        d >= 1,
        a >= 1,
        a % d == 0,
        b % a == 0,
    ensures
        b % d == 0,
{
    lemma_fundamental_div_mod(b, a);
    lemma_fundamental_div_mod(a, d);
    let k1 = b / a;
    let k2 = a / d;
    assert(b == (d * k2) * k1);
    assert((d * k2) * k1 == (k2 * k1) * d) by (nonlinear_arith);
    lemma_mod_multiples_basic(k2 * k1, d);
}

/// A common divisor of `a` and `b` also divides `a % b`.
pub proof fn lemma_divides_mod(d: int, a: int, b: int)
    requires
        d >= 1,
        b >= 1,
        a >= 0,
        a % d == 0,
        b % d == 0,
    ensures
        (a % b) % d == 0,
{
    lemma_fundamental_div_mod(a, b);
    let q = a / b;
    lemma_fundamental_div_mod(a, d);
    let e = a / d;
    lemma_fundamental_div_mod(b, d);
    let f = b / d;
    assert(a % b == d * e - (d * f) * q);
    assert(d * e - (d * f) * q == (e - f * q) * d) by (nonlinear_arith);
    lemma_mod_multiples_basic(e - f * q, d);
}

/// A single positive period is its own hyperperiod.
pub proof fn lemma_hyperperiod_single(ps: Seq<RealtimeProcess>)
    requires
        rm_procs_ok(ps),
        ps.len() >= 1,
    ensures
        is_hyperperiod(ps.subrange(0, 1), ps[0].period_length as int),
{
    let p = ps[0].period_length as int;
    lemma_mod_multiples_basic(1, p);
    assert(1 * p == p) by (nonlinear_arith);
    assert forall|m: int| 1 <= m < p implies !is_common_multiple(ps.subrange(0, 1), m) by {
        lemma_small_mod(m as nat, p as nat);
        assert(ps.subrange(0, 1)[0] == ps[0]);
    }
}

/// Extending a hyperperiod by one more task: the pairwise LCM of the old
/// hyperperiod and the new period is the hyperperiod of the extended set.
pub proof fn lemma_hyperperiod_extend(ps: Seq<RealtimeProcess>, i: int, h: int, r: int)
    requires
        rm_procs_ok(ps),
        1 <= i < ps.len(),
        is_hyperperiod(ps.subrange(0, i), h),
        r >= 1,
        r % h == 0,
        r % (ps[i].period_length as int) == 0,
        forall|m: int| 1 <= m < r ==> !(#[trigger] (m % h) == 0 && m % (ps[i].period_length as int) == 0),
    ensures
        is_hyperperiod(ps.subrange(0, i + 1), r),
{
    let pre = ps.subrange(0, i);
    let pre1 = ps.subrange(0, i + 1);
    let p = ps[i].period_length as int;
    assert forall|j: int| 0 <= j < pre1.len() implies r % ((#[trigger] pre1[j]).period_length
        as int) == 0 by {
        if j < i {
            assert(pre1[j] == pre[j]);
            assert(h % (pre[j].period_length as int) == 0);
            lemma_divides_transitive(pre[j].period_length as int, h, r);
        } else {
            assert(pre1[j] == ps[i]);
        }
    }
    assert forall|m: int| 1 <= m < r implies !is_common_multiple(pre1, m) by {
        if is_common_multiple(pre1, m) {
            let m2 = m % h;
            lemma_mod_division_less_than_divisor(m, h);
            if m2 != 0 {
                assert forall|j: int| 0 <= j < pre.len() implies m2 % ((#[trigger] pre[j])
                    .period_length as int) == 0 by {
                    assert(pre1[j] == pre[j]);
                    assert(m % (pre[j].period_length as int) == 0);
                    lemma_divides_mod(pre[j].period_length as int, m, h);
                }
                assert(is_common_multiple(pre, m2));
                assert(!is_common_multiple(pre, m2));
            }
            assert(m % h == 0);
            assert(pre1[i] == ps[i]);
            assert(m % p == 0);
            assert(false);
        }
    }
}

/// The inductive invariant of the model: budgets never exceed the per-period
/// computation time, the budget equals the computation time minus the units
/// already scheduled in the current period window, every period window holds
/// at most the task's budget, and trace slots name real tasks.
#[verifier::rlimit(100)]
pub proof fn lemma_rm_inv(ps: Seq<RealtimeProcess>, r: int)
    requires
        rm_procs_ok(ps),
        ps.len() <= usize::MAX,
        r >= 0,
    ensures
        rm_state(ps, r).0.len() == ps.len(),
        rm_state(ps, r).1.len() == r,
        forall|i: int|
            0 <= i < ps.len() ==> (#[trigger] rm_state(ps, r).0[i]) <= ps[i].computation_time,
        r >= 1 ==> forall|i: int|
            0 <= i < ps.len() ==> (#[trigger] rm_state(ps, r).0[i]) as int + sched_count_range(
                rm_state(ps, r).1,
                i as usize,
                rm_window_start(ps, i, r),
                r,
            ) == ps[i].computation_time && rm_window_start(ps, i, r) >= 0,
        forall|i: int, k: int|
            0 <= i < ps.len() && 0 <= k ==> #[trigger] rm_window_ok(ps, rm_state(ps, r).1, i, k),
        forall|t: int|
            0 <= t < r ==> ((#[trigger] rm_state(ps, r).1[t]) matches Some(id) ==> (id as int)
                < ps.len()),
    decreases r,
{
    let n = ps.len() as int;
    if r == 0 {
        assert forall|i: int, k: int| 0 <= i < n && 0 <= k implies #[trigger] rm_window_ok(
            ps,
            rm_state(ps, 0).1,
            i,
            k,
        ) by {
            let p = ps[i].period_length as int;
            assert(k * p >= 0) by (nonlinear_arith)
                requires
                    k >= 0,
                    p >= 1,
            ;
            lemma_sched_count_range_beyond(rm_state(ps, 0).1, i as usize, k * p, (k + 1) * p);
        }
    } else {
        lemma_rm_inv(ps, r - 1);
        let t = r - 1;
        let prev = rm_state(ps, t);
        let b = prev.0;
        let tr = prev.1;
        let b1 = rm_refresh(ps, b, t);
        let pick = rm_pick(ps, b1);
        lemma_rm_pick_props(ps, b1, n);
        let step = rm_round_step(ps, b, t);
        let tr2 = tr.push(step.1);
        assert(rm_state(ps, r) == (step.0, tr2));

        // After the refresh scan, each budget matches the units already
        // spent in the window of round t, which is also the window of r.
        assert forall|i: int| 0 <= i < n implies (#[trigger] b1[i]) <= ps[i].computation_time
            && b1[i] as int + sched_count_range(tr, i as usize, rm_window_start(ps, i, r), t)
            == ps[i].computation_time && 0 <= rm_window_start(ps, i, r) <= t by {
            let p = ps[i].period_length as int;
            lemma_fundamental_div_mod(t, p);
            lemma_mod_division_less_than_divisor(t, p);
            if t % p == 0 {
                assert(p * (t / p) == t);
                assert(rm_window_start(ps, i, r) == t);
                assert(sched_count_range(tr, i as usize, t, t) == 0);
            } else {
                assert(t >= 1) by {
                    if t == 0 {
                        lemma_small_mod(0nat, p as nat);
                    }
                }
                let q = (t - 1) / p;
                lemma_fundamental_div_mod(t - 1, p);
                lemma_mod_division_less_than_divisor(t - 1, p);
                let m = (t - 1) % p;
                if m + 1 == p {
                    assert((q + 1) * p + 0 == q * p + m + 1) by (nonlinear_arith)
                        requires
                            m + 1 == p,
                    ;
                    lemma_fundamental_div_mod_converse_mod(t, p, q + 1, 0);
                    assert(false);
                }
                lemma_fundamental_div_mod_converse_div(t, p, q, m + 1);
                assert(rm_window_start(ps, i, r) == rm_window_start(ps, i, t));
                assert(p * q >= 0) by (nonlinear_arith)
                    requires
                        q >= 0,
                        p >= 1,
                ;
                assert(p * q <= t - 1);
            }
        }

        // Running one unit moves it from the budget into the trace.
        assert forall|i: int| 0 <= i < n implies (#[trigger] step.0[i]) <= ps[i].computation_time
            && step.0[i] as int + sched_count_range(tr2, i as usize, rm_window_start(ps, i, r), r)
            == ps[i].computation_time && rm_window_start(ps, i, r) >= 0 by {
            let w = rm_window_start(ps, i, r);
            assert(b1[i] as int + sched_count_range(tr, i as usize, w, t) == ps[
                i
            ].computation_time);
            assert(0 <= w <= t);
            lemma_sched_count_range_push(tr, step.1, i as usize, w, r);
            lemma_sched_count_range_shrink(tr, i as usize, w, r, t);
            match pick {
                Some(j) => {
                    if i == j as int {
                        assert(step.0[i] as int == b1[i] - 1);
                    } else {
                        assert(step.1 != Some(i as usize));
                        assert(step.0[i] == b1[i]);
                    }
                },
                None => {},
            }
        }

        // Every period window holds at most the task's budget.
        assert forall|i: int, k: int| 0 <= i < n && 0 <= k implies #[trigger] rm_window_ok(
            ps,
            tr2,
            i,
            k,
        ) by {
            let p = ps[i].period_length as int;
            let lo = k * p;
            let hi = (k + 1) * p;
            assert((k + 1) * p == k * p + p) by (nonlinear_arith);
            lemma_sched_count_range_push(tr, step.1, i as usize, lo, hi);
            assert(rm_window_ok(ps, tr, i, k));
            if lo <= t && t < hi && step.1 == Some(i as usize) {
                lemma_fundamental_div_mod_converse_div(t, p, k, t - lo);
                assert(k == t / p);
                assert(k * p == p * k) by (nonlinear_arith);
                assert(lo == rm_window_start(ps, i, r));
                assert(step.0[i] as int + sched_count_range(
                    tr2,
                    i as usize,
                    rm_window_start(ps, i, r),
                    r,
                ) == ps[i].computation_time);
                lemma_sched_count_range_shrink(tr2, i as usize, lo, hi, r);
            }
        }

        assert forall|t2: int| 0 <= t2 < r implies ((#[trigger] tr2[t2]) matches Some(id) ==> (
        id as int) < ps.len()) by {
            if t2 < t {
                assert(tr2[t2] == tr[t2]);
            } else {
                assert(tr2[t2] == step.1);
            }
        }
    }
}

/// Simulate rate-monotonic scheduling of `ps` over one hyperperiod.
///
/// The trace is exactly the reference model's: slot `r` holds the task that
/// ran in round `r` — the shortest-period task with budget left, earliest
/// input position on a tie — or `None` for an idle round. The trace length
/// is the hyperperiod of the task set, and within any period window a task
/// is never scheduled for more than its per-period computation time.
#[verifier::loop_isolation(false)]
#[verifier::rlimit(100)]
pub fn rate_monotonic(ps: &Vec<RealtimeProcess>) -> (s: Schedule)
    requires
        rm_valid_input(ps@),
        rm_periods_product(ps@, ps@.len() as int) <= usize::MAX,
    ensures
        s@ == rm_state(ps@, s@.len() as int).1,
        is_hyperperiod(ps@, s@.len() as int),
        forall|i: int, k: int|
            0 <= i < ps@.len() && 0 <= k ==> #[trigger] rm_window_ok(ps@, s@, i, k),
        forall|t: int|
            0 <= t < s@.len() ==> ((#[trigger] s@[t]) matches Some(id) ==> (id as int) < ps@.len()),
{
    let ghost psv = ps@;
    let n = ps.len();

    // The horizon: fold the periods with the pairwise least common multiple.
    let mut tmax: usize = ps[0].period_length;
    proof {
        lemma_hyperperiod_single(psv);
        lemma_rm_product_bounds(psv, 0, 1);
        assert(rm_periods_product(psv, 1) == 1 * (psv[0].period_length as int));
        assert(1 * (psv[0].period_length as int) == psv[0].period_length as int) by (nonlinear_arith);
    }
    let mut i: usize = 1;
    while i < n
        invariant
            1 <= i <= n,
            tmax >= 1,
            is_hyperperiod(psv.subrange(0, i as int), tmax as int),
            tmax as int <= rm_periods_product(psv, i as int),
        decreases n - i,
    {
        proof {
            let a = tmax as int;
            let prod_i = rm_periods_product(psv, i as int);
            let p = psv[i as int].period_length as int;
            lemma_rm_product_bounds(psv, 0, i as int);
            lemma_rm_product_bounds(psv, i as int + 1, n as int);
            assert(rm_periods_product(psv, i as int + 1) == prod_i * p);
            assert(a * p <= prod_i * p) by (nonlinear_arith)
                requires
                    a <= prod_i,
                    p >= 1,
            ;
        }
        let h2 = lcm_usize(tmax, ps[i].period_length);
        proof {
            lemma_hyperperiod_extend(psv, i as int, tmax as int, h2 as int);
        }
        tmax = h2;
        i += 1;
    }
    proof {
        assert(psv.subrange(0, n as int) =~= psv);
    }

    // Working budgets, one per task; round 0 refreshes all of them.
    let mut budgets: Vec<usize> = Vec::new();
    let mut j: usize = 0;
    while j < n
        invariant
            j <= n,
            budgets@.len() == j,
            forall|t: int| 0 <= t < j ==> budgets@[t] == 0usize,
        decreases n - j,
    {
        budgets.push(0);
        j += 1;
    }
    proof {
        assert(budgets@ =~= rm_state(psv, 0).0);
    }

    let mut trace: Vec<Option<usize>> = Vec::new();
    let mut round: usize = 0;
    while round < tmax
        invariant
            round <= tmax,
            budgets@ == rm_state(psv, round as int).0,
            trace@ == rm_state(psv, round as int).1,
        decreases tmax - round,
    {
        proof {
            lemma_rm_inv(psv, round as int);
        }
        let ghost b_prev = budgets@;

        // Refresh the budgets of every task whose period divides the round.
        let mut j: usize = 0;
        while j < n
            invariant
                j <= n,
                budgets@.len() == n,
                forall|t: int|
                    0 <= t < j ==> budgets@[t] == rm_refresh(psv, b_prev, round as int)[t],
                forall|t: int| j <= t < n ==> budgets@[t] == b_prev[t],
            decreases n - j,
        {
            if round % ps[j].period_length == 0 {
                budgets[j] = ps[j].computation_time;
            }
            j += 1;
        }
        proof {
            assert(budgets@ =~= rm_refresh(psv, b_prev, round as int));
        }

        // Pick the ready task with the shortest period, earliest first.
        let mut best: Option<usize> = None;
        let mut j: usize = 0;
        while j < n
            invariant
                j <= n,
                budgets@ == rm_refresh(psv, b_prev, round as int),
                best == rm_pick_upto(psv, budgets@, j as int),
            decreases n - j,
        {
            proof {
                lemma_rm_pick_props(psv, budgets@, j as int);
            }
            let take_it: bool = budgets[j] > 0 && match best {
                None => true,
                Some(bi) => ps[j].period_length < ps[bi].period_length,
            };
            if take_it {
                best = Some(j);
            }
            j += 1;
        }

        match best {
            Some(k) => {
                proof {
                    lemma_rm_pick_props(psv, budgets@, n as int);
                }
                let bk = budgets[k];
                budgets[k] = bk - 1;
                trace.push(Some(k));
            },
            None => {
                trace.push(None);
            },
        }
        proof {
            let step = rm_round_step(psv, b_prev, round as int);
            assert(budgets@ =~= step.0);
            assert(trace@ == rm_state(psv, round as int + 1).1);
        }
        round += 1;
    }

    proof {
        lemma_rm_inv(psv, round as int);
    }
    Schedule(trace)
}

} // verus!
