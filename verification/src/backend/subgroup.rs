//! The GPU subgroup scheduling policy: from the item count and the subgroup (warp) size, run a
//! batch in one invocation sequentially or fan it across the subgroup's lanes.

use vstd::prelude::*;

verus! {

/// How a batch should be executed.
#[derive(Clone, Copy, PartialEq, Eq, Debug, Structural)]
pub enum Execution {
    /// Too little work to fill a warp — one invocation loops over the items.
    Sequential,
    /// Enough work — distribute the items across the subgroup's lanes.
    Subgroup,
}

/// The item count from which the subgroup path pays off: `subgroup_size · max(fill_factor, 1)`.
pub open spec fn threshold(subgroup_size: u32, fill_factor: u32) -> int {
    subgroup_size * if fill_factor == 0 {
        1
    } else {
        fill_factor as int
    }
}

/// The policy: sequential for an unknown or scalar subgroup (`size ≤ 1`) or below the threshold.
pub open spec fn choose_spec(item_count: usize, subgroup_size: u32, fill_factor: u32) -> Execution {
    if subgroup_size <= 1 || item_count < threshold(subgroup_size, fill_factor) {
        Execution::Sequential
    } else {
        Execution::Subgroup
    }
}

/// Decide [`Execution`] from the item count and the subgroup size.
///
/// Runs the subgroup path only when there are at least `subgroup_size * fill_factor` items, so
/// the cost of subgroup collectives is paid only when there is enough work to amortise it. A
/// `subgroup_size` of 0 or 1 (unknown / scalar) always selects [`Execution::Sequential`]; a
/// `fill_factor` of 0 counts as 1.
pub fn choose_execution(item_count: usize, subgroup_size: u32, fill_factor: u32) -> (e: Execution)
    requires
        subgroup_size <= 1 || threshold(subgroup_size, fill_factor) <= usize::MAX,
    ensures
        e == choose_spec(item_count, subgroup_size, fill_factor),
{
    if subgroup_size <= 1 {
        return Execution::Sequential;
    }
    let ff: u32 = if fill_factor > 1 {
        fill_factor
    } else {
        1
    };
    let threshold = subgroup_size as usize * ff as usize;
    if item_count < threshold {
        Execution::Sequential
    } else {
        Execution::Subgroup
    }
}

/// More work never turns the subgroup path back off: the policy is monotone in the item count.
pub proof fn lemma_choose_monotone(n1: usize, n2: usize, subgroup_size: u32, fill_factor: u32)
    requires
        n1 <= n2,
        choose_spec(n1, subgroup_size, fill_factor) == Execution::Subgroup,
    ensures
        choose_spec(n2, subgroup_size, fill_factor) == Execution::Subgroup,
{
}

/// The subgroup path is taken exactly from the threshold on, whenever the subgroup has more than
/// one lane.
pub proof fn lemma_choose_threshold(subgroup_size: u32, fill_factor: u32, item_count: usize)
    requires
        subgroup_size > 1,
    ensures
        (choose_spec(item_count, subgroup_size, fill_factor) == Execution::Subgroup) == (item_count
            >= threshold(subgroup_size, fill_factor)),
{
}

} // verus!
