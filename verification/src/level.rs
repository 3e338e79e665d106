//! The skill-rank table: average correct keystrokes per second, in
//! milli-units, mapped through fixed descending thresholds.

use vstd::prelude::*;

verus! {

/// The rank label for an average typing speed given in milli-keystrokes
/// per second (so 13.0 keys/s is 13000).
pub open spec fn rank_label(cps_milli: int) -> &'static str {
    if cps_milli >= 13000 {
        "XS"
    } else if cps_milli >= 11000 {
        "XD"
    } else if cps_milli >= 9500 {
        "XC"
    } else if cps_milli >= 8000 {
        "SA"
    } else if cps_milli >= 7000 {
        "SB"
    } else if cps_milli >= 6000 {
        "A"
    } else if cps_milli >= 5000 {
        "B"
    } else if cps_milli >= 4000 {
        "C"
    } else if cps_milli >= 3000 {
        "D"
    } else if cps_milli >= 2000 {
        "E"
    } else {
        "F"
    }
}

/// Maps an average speed in milli-keystrokes per second to its rank label.
pub fn estimate_rank(cps_milli: u64) -> (r: &'static str)
    ensures
        r == rank_label(cps_milli as int),
{
    if cps_milli >= 13000 {
        "XS"
    } else if cps_milli >= 11000 {
        "XD"
    } else if cps_milli >= 9500 {
        "XC"
    } else if cps_milli >= 8000 {
        "SA"
    } else if cps_milli >= 7000 {
        "SB"
    } else if cps_milli >= 6000 {
        "A"
    } else if cps_milli >= 5000 {
        "B"
    } else if cps_milli >= 4000 {
        "C"
    } else if cps_milli >= 3000 {
        "D"
    } else if cps_milli >= 2000 {
        "E"
    } else {
        "F"
    }
}

} // verus!
