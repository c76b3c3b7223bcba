//! How often a long-running build reports its position.
use vstd::prelude::*;

verus! {

/// The reporting interval for `count` items: every item for small batches,
/// else roughly one percent, clamped between one thousand and one hundred
/// thousand items.
pub open spec fn spec_progress_update_interval(count: int) -> int {
    if count < 1000 {
        if count < 1 {
            1
        } else {
            count
        }
    } else {
        let one_percent = count / 100;
        if one_percent < 1000 {
            1000
        } else if one_percent > 100_000 {
            100_000
        } else {
            one_percent
        }
    }
}

/// Picks how many processed items to wait between two progress updates.
pub fn progress_update_interval(count: usize) -> (r: usize)
    ensures
        r as int == spec_progress_update_interval(count as int),
        r >= 1,
{
    if count < 1000 {
        if count < 1 {
            return 1;
        }
        return count;
    }
    let one_percent = count / 100;
    if one_percent < 1000 {
        1000
    } else if one_percent > 100_000 {
        100_000
    } else {
        one_percent
    }
}

} // verus!
