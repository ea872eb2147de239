//! Which solve a full power trace follows.

use vstd::prelude::*;

verus! {

/// The absolute solve a trace selects: `relative` counts from the solve after
/// the `base` ones warm-up already performed, so relative zero is solve
/// `base + 1`. `None` where that does not fit in a `u64`.
pub fn selected_solve(base: u64, relative: u64) -> (selected: Option<u64>)
    ensures
        base + relative + 1 <= u64::MAX ==> selected == Some((base + relative + 1) as u64),
        base + relative + 1 > u64::MAX ==> selected is None,
{
    match base.checked_add(relative) {
        Some(sum) => sum.checked_add(1),
        None => None,
    }
}

} // verus!
