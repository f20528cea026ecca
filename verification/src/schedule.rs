//! The common output type of the CPU schedulers: one slot per round, holding
//! the identifier of the process that ran or `None` for an idle round.

use vstd::prelude::*;

verus! {

/// A CPU scheduling trace. Slot `r` records the decision for round `r`:
/// `Some(id)` if the process with input index `id` ran, `None` if the round
/// was idle.
pub struct Schedule(pub Vec<Option<usize>>);

impl View for Schedule {
    type V = Seq<Option<usize>>;

    open spec fn view(&self) -> Seq<Option<usize>> {
        self.0@
    }
}

impl Schedule {
    pub fn new() -> (s: Schedule)
        ensures
            s@ == Seq::<Option<usize>>::empty(),
    {
        Schedule(Vec::new())
    }

    pub fn len(&self) -> (n: usize)
        ensures
            n == self@.len(),
    {
        self.0.len()
    }

    pub fn slot(&self, r: usize) -> (x: Option<usize>)
        requires
            r < self@.len(),
        ensures
            x == self@[r as int],
    {
        self.0[r]
    }

    /// Slot-for-slot equality of two traces.
    pub fn same_as(&self, other: &Schedule) -> (eq: bool)
        ensures
            eq <==> self@ =~= other@,
    {
        if self.0.len() != other.0.len() {
            return false;
        }
        let n = self.0.len();
        let mut i: usize = 0;
        while i < n
            invariant
                n == self@.len(),
                n == other@.len(),
                i <= n,
                forall|j: int| 0 <= j < i ==> self@[j] == other@[j],
            decreases n - i,
        {
            let a = self.0[i];
            let b = other.0[i];
            let slots_equal = match (a, b) {
                (None, None) => true,
                (Some(x), Some(y)) => x == y,
                _ => false,
            };
            if !slots_equal {
                return false;
            }
            i += 1;
        }
        true
    }
}

/// How many slots of `tr` record the process `id`.
pub open spec fn sched_count(tr: Seq<Option<usize>>, id: usize) -> nat
    decreases tr.len(),
{
    if tr.len() == 0 {
        0
    } else {
        sched_count(tr.drop_last(), id) + if tr.last() == Some(id) {
            1nat
        } else {
            0nat
        }
    }
}

/// How many slots of `tr` in the half-open round window `[lo, hi)` record
/// the process `id`; rounds outside the trace count as idle.
pub open spec fn sched_count_range(tr: Seq<Option<usize>>, id: usize, lo: int, hi: int) -> nat
    decreases hi - lo,
{
    if hi <= lo {
        0
    } else {
        sched_count_range(tr, id, lo, hi - 1) + if 0 <= hi - 1 < tr.len() && tr[hi - 1] == Some(id) {
            1nat
        } else {
            0nat
        }
    }
}

pub proof fn lemma_sched_count_range_push(
    tr: Seq<Option<usize>>,
    x: Option<usize>,
    id: usize,
    lo: int,
    hi: int,
)
    ensures
        sched_count_range(tr.push(x), id, lo, hi) == sched_count_range(tr, id, lo, hi) + if lo
            <= tr.len() && tr.len() < hi && x == Some(id) {
            1nat
        } else {
            0nat
        },
    decreases hi - lo,
{
    if hi <= lo {
    } else {
        lemma_sched_count_range_push(tr, x, id, lo, hi - 1);
        if 0 <= hi - 1 && hi - 1 < tr.len() {
            assert(tr.push(x)[hi - 1] == tr[hi - 1]);
        } else if hi - 1 == tr.len() {
            assert(tr.push(x)[hi - 1] == x);
        }
    }
}

/// A window that lies entirely past the end of the trace counts nothing.
pub proof fn lemma_sched_count_range_beyond(tr: Seq<Option<usize>>, id: usize, lo: int, hi: int)
    requires
        lo >= tr.len(),
    ensures
        sched_count_range(tr, id, lo, hi) == 0,
    decreases hi - lo,
{
    if hi <= lo {
    } else {
        lemma_sched_count_range_beyond(tr, id, lo, hi - 1);
    }
}

/// Shrinking a window's upper end down to the trace end drops only slots
/// past the trace, which count nothing.
pub proof fn lemma_sched_count_range_shrink(
    tr: Seq<Option<usize>>,
    id: usize,
    lo: int,
    hi: int,
    h2: int,
)
    requires
        tr.len() <= h2 <= hi,
        lo <= h2,
    ensures
        sched_count_range(tr, id, lo, hi) == sched_count_range(tr, id, lo, h2),
    decreases hi - h2,
{
    if hi == h2 {
    } else {
        lemma_sched_count_range_shrink(tr, id, lo, hi - 1, h2);
    }
}

pub proof fn lemma_sched_count_push(tr: Seq<Option<usize>>, x: Option<usize>)
    ensures
        forall|id: usize|
            #[trigger] sched_count(tr.push(x), id) == sched_count(tr, id) + if x == Some(id) {
                1nat
            } else {
                0nat
            },
{
    assert(tr.push(x).drop_last() =~= tr);
    assert(tr.push(x).last() == x);
}

} // verus!
