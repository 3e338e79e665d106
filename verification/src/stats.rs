//! Per-word typing-rate statistics over a session's splits.

use vstd::prelude::*;
use crate::game::Split;

verus! {

/// A split with measurable time and at least one keystroke.
pub open spec fn qualifies(s: Split) -> bool {
    s.ms > 0 && s.keystrokes > 0
}

/// The split's rate in milli-keystrokes-per-minute.
pub open spec fn wpm_milli(s: Split) -> int {
    (s.keystrokes as int) * 60_000_000 / (s.ms as int)
}

/// The best rate over the qualifying splits, 0 when none qualifies.
pub open spec fn wpm_top(s: Seq<Split>) -> int
    decreases s.len(),
{
    if s.len() == 0 {
        0
    } else {
        let rest = wpm_top(s.drop_last());
        if qualifies(s.last()) && wpm_milli(s.last()) > rest {
            wpm_milli(s.last())
        } else {
            rest
        }
    }
}

/// The worst rate over the qualifying splits, None when none qualifies.
pub open spec fn wpm_worst_opt(s: Seq<Split>) -> Option<int>
    decreases s.len(),
{
    if s.len() == 0 {
        Option::None
    } else {
        let rest = wpm_worst_opt(s.drop_last());
        if qualifies(s.last()) {
            match rest {
                Option::None => Option::Some(wpm_milli(s.last())),
                Option::Some(r) => Option::Some(
                    if wpm_milli(s.last()) < r {
                        wpm_milli(s.last())
                    } else {
                        r
                    },
                ),
            }
        } else {
            rest
        }
    }
}

/// The worst rate, with 0 rather than an unbounded value when no split
/// qualifies.
pub open spec fn wpm_worst(s: Seq<Split>) -> int {
    match wpm_worst_opt(s) {
        Option::None => 0,
        Option::Some(v) => v,
    }
}

/// Best and worst per-word rates in milli-keystrokes-per-minute, skipping
/// words with zero elapsed time or zero keystrokes.
pub fn compute_wpm_stats(splits: &Vec<Split>) -> (r: (u64, u64))
    ensures
        r.0 == wpm_top(splits@),
        r.1 == wpm_worst(splits@),
{
    let mut top: u64 = 0;
    let mut worst: Option<u64> = None;
    let mut i: usize = 0;
    while i < splits.len()
        invariant
            i <= splits@.len(),
            top == wpm_top(splits@.take(i as int)),
            match worst {
                Option::None => wpm_worst_opt(splits@.take(i as int)) is None,
                Option::Some(w) => wpm_worst_opt(splits@.take(i as int)) == Option::Some(
                    w as int,
                ),
            },
        decreases splits@.len() - i,
    {
        let sp = &splits[i];
        proof {
            assert(splits@.take(i + 1).drop_last() =~= splits@.take(i as int));
            assert(splits@.take(i + 1).last() == splits@[i as int]);
        }
        if sp.ms > 0 && sp.keystrokes > 0 {
            let w = (sp.keystrokes as u64) * 60_000_000 / sp.ms;
            if w > top {
                top = w;
            }
            worst = match worst {
                Option::None => Some(w),
                Option::Some(cur) => Some(
                    if w < cur {
                        w
                    } else {
                        cur
                    },
                ),
            };
        }
        i = i + 1;
    }
    assert(splits@.take(splits@.len() as int) =~= splits@);
    match worst {
        Option::Some(w) => (top, w),
        Option::None => (top, 0),
    }
}

/// The raw speed series, unchanged: smoothing is a concern of the display
/// layer.
pub fn moving_speed_series(points: &Vec<(u64, u64)>, window: u64) -> (r: Vec<(u64, u64)>)
    ensures
        r@ == points@,
{
    let _ = window;
    let mut r: Vec<(u64, u64)> = Vec::new();
    let mut i: usize = 0;
    while i < points.len()
        invariant
            i <= points@.len(),
            r@ == points@.take(i as int),
        decreases points@.len() - i,
    {
        r.push(points[i]);
        assert(r@ =~= points@.take(i + 1 as int));
        i = i + 1;
    }
    assert(r@ =~= points@);
    r
}

} // verus!
