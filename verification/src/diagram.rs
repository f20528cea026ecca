//! Text-diagram rendering of a CPU scheduling trace: one lane of text per
//! process. A scheduled round shows a cycling decimal digit counting that
//! process's units so far, an unscheduled round shows a blank, and every
//! fifth column is prefixed with a `|` separator for visual scale.
//!
//! This is an output-only transform: nothing here feeds back into the
//! schedulers.

use vstd::prelude::*;

use crate::schedule::Schedule;
use crate::schedule::sched_count_range;
use vstd::string::StringExecFns;

verus! {

/// The decimal digit character for `d`.
pub open spec fn digit_char(d: int) -> char {
    if d == 0 {
        '0'
    } else if d == 1 {
        '1'
    } else if d == 2 {
        '2'
    } else if d == 3 {
        '3'
    } else if d == 4 {
        '4'
    } else if d == 5 {
        '5'
    } else if d == 6 {
        '6'
    } else if d == 7 {
        '7'
    } else if d == 8 {
        '8'
    } else {
        '9'
    }
}

/// What the column of round `t` shows in the lane of process `id`: the
/// cycling digit of its unit count up to and including `t`, or a blank.
pub open spec fn cell_char(tr: Seq<Option<usize>>, id: usize, t: int) -> char {
    if tr[t] == Some(id) {
        digit_char(sched_count_range(tr, id, 0, t + 1) as int % 10)
    } else {
        ' '
    }
}

/// The first `t` columns of the lane of process `id`, with a `|` before
/// every fifth column.
pub open spec fn lane_spec(tr: Seq<Option<usize>>, id: usize, t: int) -> Seq<char>
    decreases t,
{
    if t <= 0 {
        Seq::empty()
    } else {
        lane_spec(tr, id, t - 1) + (if (t - 1) % 5 == 0 {
            seq!['|']
        } else {
            Seq::empty()
        }) + seq![cell_char(tr, id, t - 1)]
    }
}

/// The scale row under a diagram of `t` columns: a label and one `|` mark
/// per five columns.
pub open spec fn scale_spec(t: int) -> Seq<char> {
    "Round/5  : "@ + scale_marks(t / 5)
}

pub open spec fn scale_marks(k: int) -> Seq<char>
    decreases k,
{
    if k <= 0 {
        Seq::empty()
    } else {
        scale_marks(k - 1) + "|     "@
    }
}

fn digit_str(d: usize) -> (r: &'static str)
    requires
        d < 10,
    ensures
        r@ == seq![digit_char(d as int)],
{
    let r: &'static str = if d == 0 {
        "0"
    } else if d == 1 {
        "1"
    } else if d == 2 {
        "2"
    } else if d == 3 {
        "3"
    } else if d == 4 {
        "4"
    } else if d == 5 {
        "5"
    } else if d == 6 {
        "6"
    } else if d == 7 {
        "7"
    } else if d == 8 {
        "8"
    } else {
        "9"
    };
    proof {
        reveal_strlit("0");
        reveal_strlit("1");
        reveal_strlit("2");
        reveal_strlit("3");
        reveal_strlit("4");
        reveal_strlit("5");
        reveal_strlit("6");
        reveal_strlit("7");
        reveal_strlit("8");
        reveal_strlit("9");
        assert(r@ =~= seq![digit_char(d as int)]);
    }
    r
}

/// Render the lane of process `id`: digits where it ran, blanks elsewhere,
/// a `|` before every fifth column.
#[verifier::loop_isolation(false)]
pub fn schedule_lane(s: &Schedule, id: usize) -> (line: String)
    ensures
        line@ == lane_spec(s@, id, s@.len() as int),
{
    let n = s.len();
    let mut line = String::new();
    let mut counter: usize = 0;
    let mut t: usize = 0;
    while t < n
        invariant
            t <= n,
            counter as int == sched_count_range(s@, id, 0, t as int),
            counter <= t,
            line@ == lane_spec(s@, id, t as int),
        decreases n - t,
    {
        if t % 5 == 0 {
            line.append("|");
        }
        proof {
            reveal_strlit("|");
            reveal_strlit(" ");
            assert("|"@ =~= seq!['|']);
        }
        let slot = s.slot(t);
        let scheduled: bool = match slot {
            Some(x) => x == id,
            None => false,
        };
        if scheduled {
            counter = counter + 1;
            line.append(digit_str(counter % 10));
        } else {
            line.append(" ");
            proof {
                assert(" "@ =~= seq![' ']);
            }
        }
        proof {
            assert(line@ =~= lane_spec(s@, id, t as int + 1));
        }
        t = t + 1;
    }
    line
}

/// Render one lane per process, in process order.
#[verifier::loop_isolation(false)]
pub fn schedule_diagram(n_lanes: usize, s: &Schedule) -> (lines: Vec<String>)
    ensures
        lines@.len() == n_lanes,
        forall|i: int|
            0 <= i < n_lanes ==> (#[trigger] lines@[i])@ == lane_spec(s@, i as usize, s@.len() as int),
{
    let mut lines: Vec<String> = Vec::new();
    let mut i: usize = 0;
    while i < n_lanes
        invariant
            i <= n_lanes,
            lines@.len() == i,
            forall|k: int|
                0 <= k < i ==> (#[trigger] lines@[k])@ == lane_spec(s@, k as usize, s@.len() as int),
        decreases n_lanes - i,
    {
        let lane = schedule_lane(s, i);
        lines.push(lane);
        i = i + 1;
    }
    lines
}

/// Render the scale row for a diagram of `t` columns.
#[verifier::loop_isolation(false)]
pub fn schedule_scale(t: usize) -> (line: String)
    ensures
        line@ == scale_spec(t as int),
{
    let mut line = String::from_str("Round/5  : ");
    let marks = t / 5;
    let mut k: usize = 0;
    while k < marks
        invariant
            k <= marks,
            line@ == "Round/5  : "@ + scale_marks(k as int),
        decreases marks - k,
    {
        line.append("|     ");
        proof {
            assert(line@ =~= "Round/5  : "@ + scale_marks(k as int + 1));
        }
        k = k + 1;
    }
    proof {
        assert(line@ =~= scale_spec(t as int));
    }
    line
}

} // verus!
