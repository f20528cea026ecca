//! Disk-head scheduling: first-come-first-served, shortest seek time first,
//! and the SCAN elevator sweep.
//!
//! All requests exist at simulation start; a request is a bare cylinder
//! position. Each policy reports the per-step seek distances and their sum.
//! SSTF and SCAN treat the request at the starting index as the initial
//! head position: it is consumed without a seek. SCAN first sorts the
//! requests ascending and starts sweeping upward from the request at the
//! given index of the sorted order.
//!
//! The `*_state` functions are the reference models; the executable
//! policies return exactly the models' distance sequences.

use vstd::prelude::*;

verus! {

/// The seek distance between two cylinder positions.
pub open spec fn seek_dist(a: usize, b: usize) -> usize {
    if a >= b {
        (a - b) as usize
    } else {
        (b - a) as usize
    }
}

/// Sum of a distance sequence.
pub open spec fn dist_sum(s: Seq<usize>) -> int
    decreases s.len(),
{
    if s.len() == 0 {
        0
    } else {
        dist_sum(s.drop_last()) + s.last()
    }
}

pub proof fn lemma_dist_sum_push(s: Seq<usize>, x: usize)
    ensures
        dist_sum(s.push(x)) == dist_sum(s) + x,
{
    assert(s.push(x).drop_last() =~= s);
    assert(s.push(x).last() == x);
}

/// A sequence of bounded distances sums to at most length times bound.
pub proof fn lemma_dist_sum_bounded(s: Seq<usize>, m: int)
    requires
        forall|j: int| 0 <= j < s.len() ==> (#[trigger] s[j]) <= m,
        m >= 0,
    ensures
        dist_sum(s) <= s.len() * m,
    decreases s.len(),
{
    if s.len() == 0 {
    } else {
        assert(forall|j: int| 0 <= j < s.len() - 1 ==> s.drop_last()[j] == s[j]);
        lemma_dist_sum_bounded(s.drop_last(), m);
        assert((s.len() - 1) * m + m == s.len() * m) by (nonlinear_arith);
    }
}

/// Serviced requests in a mask.
pub open spec fn count_true(s: Seq<bool>) -> nat
    decreases s.len(),
{
    if s.len() == 0 {
        0
    } else {
        count_true(s.drop_last()) + if s.last() {
            1nat
        } else {
            0nat
        }
    }
}

pub proof fn lemma_count_true_update(s: Seq<bool>, j: int)
    requires
        0 <= j < s.len(),
        !s[j],
    ensures
        count_true(s.update(j, true)) == count_true(s) + 1,
    decreases s.len(),
{
    let u = s.update(j, true);
    if j == s.len() - 1 {
        assert(u.drop_last() =~= s.drop_last());
        assert(u.last());
    } else {
        assert(u.drop_last() =~= s.drop_last().update(j, true));
        assert(u.last() == s.last());
        lemma_count_true_update(s.drop_last(), j);
    }
}

pub proof fn lemma_count_true_none(s: Seq<bool>)
    requires
        forall|t: int| 0 <= t < s.len() ==> !s[t],
    ensures
        count_true(s) == 0,
    decreases s.len(),
{
    if s.len() > 0 {
        assert(forall|t: int| 0 <= t < s.len() - 1 ==> s.drop_last()[t] == s[t]);
        lemma_count_true_none(s.drop_last());
    }
}

/// A mask that marks exactly one request counts one.
pub proof fn lemma_count_true_single(s: Seq<bool>, start: int)
    requires
        0 <= start < s.len(),
        forall|t: int| 0 <= t < s.len() ==> (s[t] <==> t == start),
    ensures
        count_true(s) == 1,
    decreases s.len(),
{
    assert(forall|t: int| 0 <= t < s.len() - 1 ==> s.drop_last()[t] == s[t]);
    if start == s.len() - 1 {
        lemma_count_true_none(s.drop_last());
    } else {
        lemma_count_true_single(s.drop_last(), start);
    }
}

/// A full mask counts its whole length; a short count leaves a request
/// unserviced.
pub proof fn lemma_count_true_bounds(s: Seq<bool>)
    ensures
        count_true(s) <= s.len(),
        count_true(s) == s.len() <==> (forall|t: int| 0 <= t < s.len() ==> s[t]),
        count_true(s) < s.len() ==> exists|t: int| 0 <= t < s.len() && !s[t],
    decreases s.len(),
{
    if s.len() > 0 {
        lemma_count_true_bounds(s.drop_last());
        assert(forall|t: int| 0 <= t < s.len() - 1 ==> s.drop_last()[t] == s[t]);
        if count_true(s) < s.len() {
            if !s.last() {
                assert(0 <= s.len() - 1 < s.len() && !s[s.len() - 1]);
            } else {
                let t = choose|t: int| 0 <= t < s.len() - 1 && !s.drop_last()[t];
                assert(0 <= t < s.len() && !s[t]);
            }
        }
    }
}

/// The unserviced request within `[lo, j)` nearest to `pos[cur]`, found by a
/// left-to-right scan with strict improvement: the earliest index wins a
/// distance tie.
pub open spec fn nearest_in_range(
    pos: Seq<usize>,
    mask: Seq<bool>,
    cur: int,
    lo: int,
    j: int,
) -> Option<usize>
    decreases j - lo,
{
    if j <= lo {
        None
    } else {
        match nearest_in_range(pos, mask, cur, lo, j - 1) {
            None => if !mask[j - 1] {
                Some((j - 1) as usize)
            } else {
                None
            },
            Some(b) => if !mask[j - 1] && seek_dist(pos[j - 1], pos[cur]) < seek_dist(
                pos[b as int],
                pos[cur],
            ) {
                Some((j - 1) as usize)
            } else {
                Some(b)
            },
        }
    }
}

/// A found request lies in the scanned range and is unserviced; finding
/// none means the whole range is serviced.
pub proof fn lemma_nearest_props(pos: Seq<usize>, mask: Seq<bool>, cur: int, lo: int, j: int)
    requires
        0 <= lo,
        j <= usize::MAX,
    ensures
        nearest_in_range(pos, mask, cur, lo, j) matches Some(b) ==> lo <= b as int && (b as int)
            < j && !mask[b as int],
        nearest_in_range(pos, mask, cur, lo, j) is None ==> forall|t: int|
            lo <= t < j ==> mask[t],
    decreases j - lo,
{
    if j <= lo {
    } else {
        lemma_nearest_props(pos, mask, cur, lo, j - 1);
    }
}

/// The largest requested position; every seek distance is bounded by it.
pub open spec fn pos_max(s: Seq<usize>) -> int
    decreases s.len(),
{
    if s.len() == 0 {
        0
    } else {
        let m = pos_max(s.drop_last());
        if s.last() > m {
            s.last() as int
        } else {
            m
        }
    }
}

pub proof fn lemma_pos_max(s: Seq<usize>)
    ensures
        pos_max(s) >= 0,
        forall|j: int| 0 <= j < s.len() ==> (#[trigger] s[j]) <= pos_max(s),
    decreases s.len(),
{
    if s.len() > 0 {
        lemma_pos_max(s.drop_last());
        assert(forall|j: int| 0 <= j < s.len() - 1 ==> s.drop_last()[j] == s[j]);
    }
}

pub proof fn lemma_pos_max_le(s: Seq<usize>, m: int)
    requires
        forall|j: int| 0 <= j < s.len() ==> (#[trigger] s[j]) <= m,
        m >= 0,
    ensures
        pos_max(s) <= m,
    decreases s.len(),
{
    if s.len() > 0 {
        assert(forall|j: int| 0 <= j < s.len() - 1 ==> s.drop_last()[j] == s[j]);
        lemma_pos_max_le(s.drop_last(), m);
    }
}

// ---------------------------------------------------------------------------
// First come, first served
// ---------------------------------------------------------------------------

/// FCFS services the requests in input order; the distances are the gaps
/// between consecutive requested positions.
pub open spec fn fcfs_dists(pos: Seq<usize>) -> Seq<usize> {
    if pos.len() == 0 {
        Seq::empty()
    } else {
        Seq::new((pos.len() - 1) as nat, |j: int| seek_dist(pos[j], pos[j + 1]))
    }
}

// ---------------------------------------------------------------------------
// Shortest seek time first
// ---------------------------------------------------------------------------

/// The SSTF state after `k` services beyond the start: the serviced mask,
/// the index of the head's request, and the distances so far. Each step
/// serves the nearest unserviced request, the earliest on a tie.
pub open spec fn sstf_state(pos: Seq<usize>, start: int, k: int) -> (Seq<bool>, int, Seq<usize>)
    decreases k,
{
    if k <= 0 {
        (Seq::new(pos.len(), |t: int| t == start), start, Seq::empty())
    } else {
        let prev = sstf_state(pos, start, k - 1);
        match nearest_in_range(pos, prev.0, prev.1, 0, pos.len() as int) {
            None => prev,
            Some(j) => (
                prev.0.update(j as int, true),
                j as int,
                prev.2.push(seek_dist(pos[j as int], pos[prev.1])),
            ),
        }
    }
}

/// The SSTF state is well formed: the head sits on a serviced request and
/// after `k` steps exactly `k + 1` requests are serviced.
pub proof fn lemma_sstf_inv(pos: Seq<usize>, start: int, k: int)
    requires
        1 <= pos.len() <= usize::MAX,
        0 <= start < pos.len(),
        0 <= k <= pos.len() - 1,
    ensures
        sstf_state(pos, start, k).0.len() == pos.len(),
        0 <= sstf_state(pos, start, k).1 < pos.len(),
        sstf_state(pos, start, k).0[sstf_state(pos, start, k).1],
        count_true(sstf_state(pos, start, k).0) == k + 1,
        sstf_state(pos, start, k).2.len() == k,
        k < pos.len() - 1 ==> nearest_in_range(
            pos,
            sstf_state(pos, start, k).0,
            sstf_state(pos, start, k).1,
            0,
            pos.len() as int,
        ) is Some,
    decreases k,
{
    let n = pos.len() as int;
    if k == 0 {
        let m0 = sstf_state(pos, start, 0).0;
        assert(forall|t: int| 0 <= t < pos.len() ==> ((#[trigger] m0[t]) <==> t == start));
        lemma_count_true_single(m0, start);
        sstf_pick_exists(pos, start, 0);
    } else {
        lemma_sstf_inv(pos, start, k - 1);
        let prev = sstf_state(pos, start, k - 1);
        let pick = nearest_in_range(pos, prev.0, prev.1, 0, n);
        lemma_nearest_props(pos, prev.0, prev.1, 0, n);
        match pick {
            None => {
                assert(false);
            },
            Some(j) => {
                lemma_count_true_update(prev.0, j as int);
            },
        }
        sstf_pick_exists(pos, start, k);
    }
}

/// While a request is unserviced, the SSTF scan finds one.
proof fn sstf_pick_exists(pos: Seq<usize>, start: int, k: int)
    requires
        1 <= pos.len() <= usize::MAX,
        0 <= start < pos.len(),
        0 <= k <= pos.len() - 1,
        count_true(sstf_state(pos, start, k).0) == k + 1,
        sstf_state(pos, start, k).0.len() == pos.len(),
    ensures
        k < pos.len() - 1 ==> nearest_in_range(
            pos,
            sstf_state(pos, start, k).0,
            sstf_state(pos, start, k).1,
            0,
            pos.len() as int,
        ) is Some,
{
    let n = pos.len() as int;
    let st = sstf_state(pos, start, k);
    if k < n - 1 {
        lemma_count_true_bounds(st.0);
        lemma_nearest_props(pos, st.0, st.1, 0, n);
        if nearest_in_range(pos, st.0, st.1, 0, n) is None {
            assert(forall|t: int| 0 <= t < n ==> st.0[t]);
            assert(count_true(st.0) == n);
        }
    }
}

/// Every SSTF distance is a seek between two requested positions, so after
/// `k` services the total travel is at most `k` times the largest position.
pub proof fn lemma_sstf_sum_bound(pos: Seq<usize>, start: int, k: int, m: int)
    requires
        1 <= pos.len() <= usize::MAX,
        0 <= start < pos.len(),
        0 <= k <= pos.len() - 1,
        forall|j: int| 0 <= j < pos.len() ==> (#[trigger] pos[j]) <= m,
    ensures
        dist_sum(sstf_state(pos, start, k).2) <= k * m,
    decreases k,
{
    if k == 0 {
    } else {
        lemma_sstf_sum_bound(pos, start, k - 1, m);
        lemma_sstf_inv(pos, start, k - 1);
        let prev = sstf_state(pos, start, k - 1);
        lemma_nearest_props(pos, prev.0, prev.1, 0, pos.len() as int);
        match nearest_in_range(pos, prev.0, prev.1, 0, pos.len() as int) {
            None => {
                assert((k - 1) * m <= k * m) by (nonlinear_arith)
                    requires
                        m >= 0,
                        k >= 1,
                ;
            },
            Some(j) => {
                lemma_dist_sum_push(prev.2, seek_dist(pos[j as int], pos[prev.1]));
                assert((k - 1) * m + m == k * m) by (nonlinear_arith);
            },
        }
    }
}

// ---------------------------------------------------------------------------
// SCAN (elevator)
// ---------------------------------------------------------------------------

/// Insert `x` into the sorted sequence `t`, before the first strictly
/// larger element.
pub open spec fn insert_sorted(t: Seq<usize>, x: usize) -> Seq<usize>
    decreases t.len(),
{
    if t.len() == 0 {
        seq![x]
    } else if t[0] <= x {
        seq![t[0]] + insert_sorted(t.drop_first(), x)
    } else {
        seq![x] + t
    }
}

/// Sort ascending by repeated insertion; a stable sort of bare positions.
pub open spec fn sort_spec(s: Seq<usize>) -> Seq<usize>
    decreases s.len(),
{
    if s.len() == 0 {
        Seq::empty()
    } else {
        insert_sorted(sort_spec(s.drop_last()), s.last())
    }
}

/// Where the insertion lands: before index `idx`, the first position whose
/// element exceeds `x`.
pub proof fn lemma_insert_sorted_at(t: Seq<usize>, x: usize, idx: int)
    requires
        0 <= idx <= t.len(),
        forall|i: int| 0 <= i < idx ==> t[i] <= x,
        idx < t.len() ==> t[idx] > x,
    ensures
        insert_sorted(t, x) == t.insert(idx, x),
    decreases idx,
{
    if idx == 0 {
        if t.len() == 0 {
            assert(insert_sorted(t, x) =~= t.insert(0, x));
        } else {
            assert(t[0] > x);
            assert(seq![x] + t =~= t.insert(0, x));
        }
    } else {
        assert(t[0] <= x);
        lemma_insert_sorted_at(t.drop_first(), x, idx - 1);
        assert(seq![t[0]] + t.drop_first().insert(idx - 1, x) =~= t.insert(idx, x));
    }
}

/// The SCAN state after `k` services beyond the start, over the sorted
/// positions: mask, head index, direction (`true` is up), distances. The
/// head serves the nearest unserviced request in its direction and
/// reverses only when that direction is exhausted.
pub open spec fn scan_state(pos: Seq<usize>, start: int, k: int) -> (
    Seq<bool>,
    int,
    bool,
    Seq<usize>,
)
    decreases k,
{
    if k <= 0 {
        (Seq::new(pos.len(), |t: int| t == start), start, true, Seq::empty())
    } else {
        let prev = scan_state(pos, start, k - 1);
        let first = if prev.2 {
            nearest_in_range(pos, prev.0, prev.1, prev.1 + 1, pos.len() as int)
        } else {
            nearest_in_range(pos, prev.0, prev.1, 0, prev.1)
        };
        match first {
            Some(j) => (
                prev.0.update(j as int, true),
                j as int,
                prev.2,
                prev.3.push(seek_dist(pos[j as int], pos[prev.1])),
            ),
            None => {
                let flipped = !prev.2;
                let second = if flipped {
                    nearest_in_range(pos, prev.0, prev.1, prev.1 + 1, pos.len() as int)
                } else {
                    nearest_in_range(pos, prev.0, prev.1, 0, prev.1)
                };
                match second {
                    Some(j) => (
                        prev.0.update(j as int, true),
                        j as int,
                        flipped,
                        prev.3.push(seek_dist(pos[j as int], pos[prev.1])),
                    ),
                    None => prev,
                }
            },
        }
    }
}

/// The SCAN state is well formed, and while requests remain the sweep in
/// one of the two directions finds one.
pub proof fn lemma_scan_inv(pos: Seq<usize>, start: int, k: int)
    requires
        1 <= pos.len() <= usize::MAX,
        0 <= start < pos.len(),
        0 <= k <= pos.len() - 1,
    ensures
        scan_state(pos, start, k).0.len() == pos.len(),
        0 <= scan_state(pos, start, k).1 < pos.len(),
        scan_state(pos, start, k).0[scan_state(pos, start, k).1],
        count_true(scan_state(pos, start, k).0) == k + 1,
        scan_state(pos, start, k).3.len() == k,
        k < pos.len() - 1 ==> !(nearest_in_range(
            pos,
            scan_state(pos, start, k).0,
            scan_state(pos, start, k).1,
            scan_state(pos, start, k).1 + 1,
            pos.len() as int,
        ) is None && nearest_in_range(
            pos,
            scan_state(pos, start, k).0,
            scan_state(pos, start, k).1,
            0,
            scan_state(pos, start, k).1,
        ) is None),
    decreases k,
{
    let n = pos.len() as int;
    if k == 0 {
        let m0 = scan_state(pos, start, 0).0;
        assert(forall|t: int| 0 <= t < pos.len() ==> ((#[trigger] m0[t]) <==> t == start));
        lemma_count_true_single(m0, start);
        scan_pick_exists(pos, start, 0);
    } else {
        lemma_scan_inv(pos, start, k - 1);
        let prev = scan_state(pos, start, k - 1);
        lemma_nearest_props(pos, prev.0, prev.1, prev.1 + 1, n);
        lemma_nearest_props(pos, prev.0, prev.1, 0, prev.1);
        let st = scan_state(pos, start, k);
        assert(count_true(st.0) == k + 1 && st.0.len() == n && 0 <= st.1 < n && st.0[st.1]
            && st.3.len() == k) by {
            let first = if prev.2 {
                nearest_in_range(pos, prev.0, prev.1, prev.1 + 1, n)
            } else {
                nearest_in_range(pos, prev.0, prev.1, 0, prev.1)
            };
            match first {
                Some(j) => {
                    lemma_count_true_update(prev.0, j as int);
                },
                None => {
                    let flipped = !prev.2;
                    let second = if flipped {
                        nearest_in_range(pos, prev.0, prev.1, prev.1 + 1, n)
                    } else {
                        nearest_in_range(pos, prev.0, prev.1, 0, prev.1)
                    };
                    match second {
                        Some(j) => {
                            lemma_count_true_update(prev.0, j as int);
                        },
                        None => {
                            // Both directions empty with requests remaining
                            // is impossible.
                            lemma_count_true_bounds(prev.0);
                            assert(forall|t: int| 0 <= t < n ==> prev.0[t]) by {
                                assert(forall|t: int| prev.1 + 1 <= t < n ==> prev.0[t]);
                                assert(forall|t: int| 0 <= t < prev.1 ==> prev.0[t]);
                            }
                            assert(count_true(prev.0) == n);
                            assert(false);
                        },
                    }
                },
            }
        }
        scan_pick_exists(pos, start, k);
    }
}

/// While a request is unserviced, one of the two sweep directions finds it.
proof fn scan_pick_exists(pos: Seq<usize>, start: int, k: int)
    requires
        1 <= pos.len() <= usize::MAX,
        0 <= start < pos.len(),
        0 <= k <= pos.len() - 1,
        count_true(scan_state(pos, start, k).0) == k + 1,
        scan_state(pos, start, k).0.len() == pos.len(),
        0 <= scan_state(pos, start, k).1 < pos.len(),
        scan_state(pos, start, k).0[scan_state(pos, start, k).1],
    ensures
        k < pos.len() - 1 ==> !(nearest_in_range(
            pos,
            scan_state(pos, start, k).0,
            scan_state(pos, start, k).1,
            scan_state(pos, start, k).1 + 1,
            pos.len() as int,
        ) is None && nearest_in_range(
            pos,
            scan_state(pos, start, k).0,
            scan_state(pos, start, k).1,
            0,
            scan_state(pos, start, k).1,
        ) is None),
{
    let n = pos.len() as int;
    let st = scan_state(pos, start, k);
    if k < n - 1 {
        lemma_count_true_bounds(st.0);
        lemma_nearest_props(pos, st.0, st.1, st.1 + 1, n);
        lemma_nearest_props(pos, st.0, st.1, 0, st.1);
        if nearest_in_range(pos, st.0, st.1, st.1 + 1, n) is None && nearest_in_range(
            pos,
            st.0,
            st.1,
            0,
            st.1,
        ) is None {
            assert(forall|t: int| 0 <= t < n ==> st.0[t]) by {
                assert(forall|t: int| st.1 + 1 <= t < n ==> st.0[t]);
                assert(forall|t: int| 0 <= t < st.1 ==> st.0[t]);
            }
            assert(count_true(st.0) == n);
        }
    }
}

/// Every SCAN distance is a seek between two requested positions, so after
/// `k` services the total travel is at most `k` times the largest position.
pub proof fn lemma_scan_sum_bound(pos: Seq<usize>, start: int, k: int, m: int)
    requires
        1 <= pos.len() <= usize::MAX,
        0 <= start < pos.len(),
        0 <= k <= pos.len() - 1,
        forall|j: int| 0 <= j < pos.len() ==> (#[trigger] pos[j]) <= m,
    ensures
        dist_sum(scan_state(pos, start, k).3) <= k * m,
    decreases k,
{
    if k == 0 {
    } else {
        lemma_scan_sum_bound(pos, start, k - 1, m);
        lemma_scan_inv(pos, start, k - 1);
        let prev = scan_state(pos, start, k - 1);
        let n = pos.len() as int;
        lemma_nearest_props(pos, prev.0, prev.1, prev.1 + 1, n);
        lemma_nearest_props(pos, prev.0, prev.1, 0, prev.1);
        assert((k - 1) * m <= k * m && (k - 1) * m + m == k * m) by (nonlinear_arith)
            requires
                m >= 0,
                k >= 1,
        ;
        let first = if prev.2 {
            nearest_in_range(pos, prev.0, prev.1, prev.1 + 1, n)
        } else {
            nearest_in_range(pos, prev.0, prev.1, 0, prev.1)
        };
        match first {
            Some(j) => {
                lemma_dist_sum_push(prev.3, seek_dist(pos[j as int], pos[prev.1]));
            },
            None => {
                let flipped = !prev.2;
                let second = if flipped {
                    nearest_in_range(pos, prev.0, prev.1, prev.1 + 1, n)
                } else {
                    nearest_in_range(pos, prev.0, prev.1, 0, prev.1)
                };
                match second {
                    Some(j) => {
                        lemma_dist_sum_push(prev.3, seek_dist(pos[j as int], pos[prev.1]));
                    },
                    None => {},
                }
            },
        }
    }
}

pub proof fn lemma_insert_sorted_len(t: Seq<usize>, x: usize)
    ensures
        insert_sorted(t, x).len() == t.len() + 1,
    decreases t.len(),
{
    if t.len() > 0 && t[0] <= x {
        lemma_insert_sorted_len(t.drop_first(), x);
    }
}

pub proof fn lemma_insert_sorted_bound(t: Seq<usize>, x: usize, m: int)
    requires
        forall|j: int| 0 <= j < t.len() ==> (#[trigger] t[j]) <= m,
        x <= m,
    ensures
        forall|j: int|
            0 <= j < insert_sorted(t, x).len() ==> (#[trigger] insert_sorted(t, x)[j]) <= m,
    decreases t.len(),
{
    if t.len() == 0 {
    } else if t[0] <= x {
        assert(forall|j: int| 0 <= j < t.len() - 1 ==> t.drop_first()[j] == t[j + 1]);
        lemma_insert_sorted_bound(t.drop_first(), x, m);
        assert(forall|j: int|
            0 <= j < insert_sorted(t, x).len() ==> #[trigger] insert_sorted(t, x)[j] == if j == 0 {
                t[0]
            } else {
                insert_sorted(t.drop_first(), x)[j - 1]
            });
    } else {
        assert(forall|j: int|
            0 <= j < insert_sorted(t, x).len() ==> #[trigger] insert_sorted(t, x)[j] == if j == 0 {
                x
            } else {
                t[j - 1]
            });
    }
}

/// Sorting permutes the requests, so the sorted sequence keeps any bound on
/// the positions.
pub proof fn lemma_sort_spec_bound(s: Seq<usize>, m: int)
    requires
        forall|j: int| 0 <= j < s.len() ==> (#[trigger] s[j]) <= m,
    ensures
        forall|j: int|
            0 <= j < sort_spec(s).len() ==> (#[trigger] sort_spec(s)[j]) <= m,
    decreases s.len(),
{
    if s.len() > 0 {
        assert(forall|j: int| 0 <= j < s.len() - 1 ==> s.drop_last()[j] == s[j]);
        lemma_sort_spec_bound(s.drop_last(), m);
        lemma_insert_sorted_bound(sort_spec(s.drop_last()), s.last(), m);
    }
}

pub proof fn lemma_sort_spec_len(s: Seq<usize>)
    ensures
        sort_spec(s).len() == s.len(),
    decreases s.len(),
{
    if s.len() > 0 {
        lemma_sort_spec_len(s.drop_last());
        lemma_insert_sorted_len(sort_spec(s.drop_last()), s.last());
    }
}

// ---------------------------------------------------------------------------
// Executable policies
// ---------------------------------------------------------------------------

/// What a disk policy reports: the per-step seek distances and their sum.
pub struct DiskRun {
    pub distances: Vec<usize>,
    pub total: usize,
}

fn seek_dist_u(a: usize, b: usize) -> (d: usize)
    ensures
        d == seek_dist(a, b),
{
    if a >= b {
        a - b
    } else {
        b - a
    }
}

/// Linear scan for the unserviced request in `[lo, hi)` nearest to the
/// head, the earliest on a distance tie.
#[verifier::loop_isolation(false)]
fn nearest_req(pos: &Vec<usize>, mask: &Vec<bool>, cur: usize, lo: usize, hi: usize) -> (r: Option<
    usize,
>)
    requires
        mask@.len() == pos@.len(),
        cur < pos@.len(),
        hi <= pos@.len(),
    ensures
        r == nearest_in_range(pos@, mask@, cur as int, lo as int, hi as int),
{
    let mut best: Option<usize> = None;
    if lo >= hi {
        return best;
    }
    let mut j: usize = lo;
    while j < hi
        invariant
            lo <= j <= hi,
            best == nearest_in_range(pos@, mask@, cur as int, lo as int, j as int),
        decreases hi - j,
    {
        proof {
            lemma_nearest_props(pos@, mask@, cur as int, lo as int, j as int);
        }
        let take_it: bool = !mask[j] && match best {
            None => true,
            Some(b) => seek_dist_u(pos[j], pos[cur]) < seek_dist_u(pos[b], pos[cur]),
        };
        if take_it {
            best = Some(j);
        }
        j += 1;
    }
    best
}

/// Service the requests in input order and report each seek distance and
/// the total travel.
#[verifier::loop_isolation(false)]
pub fn disk_fcfs(pos: &Vec<usize>) -> (r: DiskRun)
    requires
        pos@.len() >= 1,
        (pos@.len() - 1) * pos_max(pos@) <= usize::MAX,
    ensures
        r.distances@ == fcfs_dists(pos@),
        r.distances@.len() == pos@.len() - 1,
        r.total == dist_sum(r.distances@),
{
    let n = pos.len();
    let mut dists: Vec<usize> = Vec::new();
    let mut total: usize = 0;
    let mut j: usize = 1;
    while j < n
        invariant
            1 <= j <= n,
            n == pos@.len(),
            dists@ == fcfs_dists(pos@).take(j as int - 1),
            total == dist_sum(dists@),
        decreases n - j,
    {
        let d = seek_dist_u(pos[j - 1], pos[j]);
        proof {
            lemma_dist_sum_push(dists@, d);
            assert(fcfs_dists(pos@).take(j as int) =~= dists@.push(d));
            lemma_pos_max(pos@);
            assert(forall|t: int|
                0 <= t < fcfs_dists(pos@).take(j as int).len() ==> (#[trigger] fcfs_dists(
                    pos@,
                ).take(j as int)[t]) <= pos_max(pos@));
            lemma_dist_sum_bounded(fcfs_dists(pos@).take(j as int), pos_max(pos@));
            assert(j as int * pos_max(pos@) <= (n as int - 1) * pos_max(pos@))
                by (nonlinear_arith)
                requires
                    j as int <= n as int - 1,
                    pos_max(pos@) >= 0,
            ;
        }
        dists.push(d);
        total = total + d;
        j += 1;
    }
    proof {
        assert(fcfs_dists(pos@).take(n as int - 1) =~= fcfs_dists(pos@));
    }
    DiskRun { distances: dists, total }
}

/// Repeatedly service the unserviced request nearest to the head, the
/// earliest on a tie, starting from the request at `start`.
#[verifier::loop_isolation(false)]
pub fn disk_sstf(pos: &Vec<usize>, start: usize) -> (r: DiskRun)
    requires
        pos@.len() >= 1,
        start < pos@.len(),
        (pos@.len() - 1) * pos_max(pos@) <= usize::MAX,
    ensures
        r.distances@ == sstf_state(pos@, start as int, pos@.len() - 1).2,
        r.distances@.len() == pos@.len() - 1,
        r.total == dist_sum(r.distances@),
{
    let ghost pv = pos@;
    let n = pos.len();
    let mut mask: Vec<bool> = Vec::new();
    let mut t: usize = 0;
    while t < n
        invariant
            t <= n,
            mask@.len() == t,
            forall|u: int| 0 <= u < t ==> !(#[trigger] mask@[u]),
        decreases n - t,
    {
        mask.push(false);
        t += 1;
    }
    mask[start] = true;
    proof {
        assert(mask@ =~= sstf_state(pv, start as int, 0).0);
    }
    let mut cur: usize = start;
    let mut dists: Vec<usize> = Vec::new();
    let mut total: usize = 0;
    let mut k: usize = 0;
    while k < n - 1
        invariant
            k <= n - 1,
            mask@ == sstf_state(pv, start as int, k as int).0,
            cur as int == sstf_state(pv, start as int, k as int).1,
            dists@ == sstf_state(pv, start as int, k as int).2,
            total == dist_sum(dists@),
        decreases n - 1 - k,
    {
        proof {
            lemma_sstf_inv(pv, start as int, k as int);
        }
        let pick = nearest_req(pos, &mask, cur, 0, n);
        proof {
            lemma_nearest_props(pv, mask@, cur as int, 0, n as int);
        }
        let j = pick.unwrap();
        let d = seek_dist_u(pos[j], pos[cur]);
        mask[j] = true;
        proof {
            lemma_dist_sum_push(dists@, d);
            assert(dists@.push(d) == sstf_state(pv, start as int, k as int + 1).2);
            lemma_pos_max(pv);
            lemma_sstf_sum_bound(pv, start as int, k as int + 1, pos_max(pv));
            assert((k as int + 1) * pos_max(pv) <= (pv.len() - 1) * pos_max(pv))
                by (nonlinear_arith)
                requires
                    k as int + 1 <= pv.len() - 1,
                    pos_max(pv) >= 0,
            ;
        }
        dists.push(d);
        total = total + d;
        cur = j;
        k += 1;
    }
    proof {
        lemma_sstf_inv(pv, start as int, pv.len() as int - 1);
    }
    DiskRun { distances: dists, total }
}

/// Ascending insertion sort of the requested positions.
#[verifier::loop_isolation(false)]
fn sort_positions(pos: &Vec<usize>) -> (r: Vec<usize>)
    ensures
        r@ == sort_spec(pos@),
{
    let mut r: Vec<usize> = Vec::new();
    let mut i: usize = 0;
    while i < pos.len()
        invariant
            i <= pos@.len(),
            r@ == sort_spec(pos@.take(i as int)),
            r@.len() == i,
        decreases pos@.len() - i,
    {
        let x = pos[i];
        let mut idx: usize = 0;
        while idx < r.len() && r[idx] <= x
            invariant
                idx <= r@.len(),
                forall|u: int| 0 <= u < idx ==> (#[trigger] r@[u]) <= x,
            decreases r@.len() - idx,
        {
            idx += 1;
        }
        proof {
            lemma_insert_sorted_at(r@, x, idx as int);
            lemma_insert_sorted_len(r@, x);
            assert(pos@.take(i as int + 1).drop_last() =~= pos@.take(i as int));
            assert(pos@.take(i as int + 1).last() == pos@[i as int]);
        }
        r.insert(idx, x);
        i += 1;
    }
    proof {
        assert(pos@.take(pos@.len() as int) =~= pos@);
    }
    r
}

/// Sort the requests ascending, start at the request at sorted index
/// `start` sweeping upward, and reverse only when the current direction is
/// exhausted.
#[verifier::loop_isolation(false)]
pub fn disk_scan(pos: &Vec<usize>, start: usize) -> (r: DiskRun)
    requires
        pos@.len() >= 1,
        start < pos@.len(),
        (pos@.len() - 1) * pos_max(pos@) <= usize::MAX,
    ensures
        r.distances@ == scan_state(sort_spec(pos@), start as int, pos@.len() - 1).3,
        r.distances@.len() == pos@.len() - 1,
        r.total == dist_sum(r.distances@),
{
    let sorted = sort_positions(pos);
    let ghost sv = sorted@;
    proof {
        lemma_sort_spec_len(pos@);
    }
    let n = sorted.len();
    let mut mask: Vec<bool> = Vec::new();
    let mut t: usize = 0;
    while t < n
        invariant
            t <= n,
            mask@.len() == t,
            forall|u: int| 0 <= u < t ==> !(#[trigger] mask@[u]),
        decreases n - t,
    {
        mask.push(false);
        t += 1;
    }
    mask[start] = true;
    proof {
        assert(mask@ =~= scan_state(sv, start as int, 0).0);
    }
    let mut cur: usize = start;
    let mut up: bool = true;
    let mut dists: Vec<usize> = Vec::new();
    let mut total: usize = 0;
    let mut k: usize = 0;
    while k < n - 1
        invariant
            k <= n - 1,
            mask@ == scan_state(sv, start as int, k as int).0,
            cur as int == scan_state(sv, start as int, k as int).1,
            up == scan_state(sv, start as int, k as int).2,
            dists@ == scan_state(sv, start as int, k as int).3,
            total == dist_sum(dists@),
        decreases n - 1 - k,
    {
        proof {
            lemma_scan_inv(sv, start as int, k as int);
        }
        let first = if up {
            nearest_req(&sorted, &mask, cur, cur + 1, n)
        } else {
            nearest_req(&sorted, &mask, cur, 0, cur)
        };
        let j: usize;
        match first {
            Some(jj) => {
                j = jj;
            },
            None => {
                up = !up;
                let second = if up {
                    nearest_req(&sorted, &mask, cur, cur + 1, n)
                } else {
                    nearest_req(&sorted, &mask, cur, 0, cur)
                };
                j = second.unwrap();
            },
        }
        proof {
            lemma_nearest_props(sv, mask@, cur as int, cur as int + 1, n as int);
            lemma_nearest_props(sv, mask@, cur as int, 0, cur as int);
        }
        let d = seek_dist_u(sorted[j], sorted[cur]);
        mask[j] = true;
        proof {
            lemma_dist_sum_push(dists@, d);
            assert(dists@.push(d) == scan_state(sv, start as int, k as int + 1).3);
            lemma_pos_max(pos@);
            lemma_sort_spec_bound(pos@, pos_max(pos@));
            lemma_scan_sum_bound(sv, start as int, k as int + 1, pos_max(pos@));
            assert((k as int + 1) * pos_max(pos@) <= (pos@.len() - 1) * pos_max(pos@))
                by (nonlinear_arith)
                requires
                    k as int + 1 <= pos@.len() - 1,
                    pos_max(pos@) >= 0,
            ;
        }
        dists.push(d);
        total = total + d;
        cur = j;
        k += 1;
    }
    proof {
        lemma_scan_inv(sv, start as int, sv.len() as int - 1);
    }
    DiskRun { distances: dists, total }
}

/// Determinism of the disk policies: what each one reports is fixed by the
/// request sequence and the starting index alone, so any two reports that
/// meet a policy's contract on the same input are identical.
pub proof fn lemma_fcfs_deterministic(pos: Seq<usize>, d1: Seq<usize>, d2: Seq<usize>)
    requires
        d1 == fcfs_dists(pos),
        d2 == fcfs_dists(pos),
    ensures
        d1 == d2,
        dist_sum(d1) == dist_sum(d2),
{
}

/// See `lemma_fcfs_deterministic`; the same holds of SSTF.
pub proof fn lemma_sstf_deterministic(pos: Seq<usize>, start: int, d1: Seq<usize>, d2: Seq<usize>)
    requires
        d1 == sstf_state(pos, start, pos.len() - 1).2,
        d2 == sstf_state(pos, start, pos.len() - 1).2,
    ensures
        d1 == d2,
        dist_sum(d1) == dist_sum(d2),
{
}

/// See `lemma_fcfs_deterministic`; the same holds of SCAN.
pub proof fn lemma_scan_deterministic(pos: Seq<usize>, start: int, d1: Seq<usize>, d2: Seq<usize>)
    requires
        d1 == scan_state(sort_spec(pos), start, pos.len() - 1).3,
        d2 == scan_state(sort_spec(pos), start, pos.len() - 1).3,
    ensures
        d1 == d2,
        dist_sum(d1) == dist_sum(d2),
{
}

} // verus!

