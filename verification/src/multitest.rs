//! Rejection rules of the multiple-testing corrections.
//!
//! Holm's step-down and Benjamini-Hochberg's step-up procedures both walk
//! the hypotheses in ascending p-value order and compare each against its
//! rank's threshold; they differ in what a failed comparison means.  Here
//! the walk order and the outcome of each comparison are given, and the
//! rules decide which hypotheses are rejected.
use vstd::prelude::*;
use crate::ordering::is_index_permutation;

verus! {

/// Hypothesis `order[k]` is rejected by the step-down rule when all ranks
/// up to and including `k` pass.
pub open spec fn step_down_rejects(passes: Seq<bool>, k: int) -> bool {
    forall|j: int| 0 <= j <= k ==> #[trigger] passes[j]
}

/// Hypothesis `order[k]` is rejected by the step-up rule when some rank at
/// or after `k` passes.
pub open spec fn step_up_rejects(passes: Seq<bool>, k: int) -> bool {
    exists|j: int| k <= j < passes.len() && #[trigger] passes[j]
}

/// Holm-style step-down: walking ranks in order, reject each hypothesis
/// whose rank passes until the first rank that fails.
pub fn step_down_mask(order: &[usize], passes: &[bool]) -> (rejected: Vec<bool>)
    requires
        is_index_permutation(order@.map_values(|x: usize| x as int), order@.len()),
        passes@.len() == order@.len(),
    ensures
        rejected@.len() == order@.len(),
        forall|k: int| 0 <= k < order@.len() ==> rejected@[#[trigger] order@[k] as int] == step_down_rejects(passes@, k),
{
    let n = order.len();
    let mut rejected: Vec<bool> = Vec::new();
    let mut i: usize = 0;
    while i < n
        invariant
            i <= n,
            rejected@.len() == i,
            forall|j: int| 0 <= j < i ==> !#[trigger] rejected@[j],
        decreases n - i,
    {
        rejected.push(false);
        i = i + 1;
    }
    let ghost o = order@.map_values(|x: usize| x as int);
    let mut k: usize = 0;
    assert forall|j: int| 0 <= j < n implies rejected@[#[trigger] order@[j] as int] == (j < 0) by {
        assert(o[j] == order@[j] as int);
    }
    while k < n && passes[k]
        invariant
            n == order@.len(),
            n == passes@.len(),
            k <= n,
            rejected@.len() == n,
            o == order@.map_values(|x: usize| x as int),
            is_index_permutation(o, n as nat),
            forall|j: int| 0 <= j < k ==> #[trigger] passes@[j],
            forall|j: int| 0 <= j < n ==> rejected@[#[trigger] order@[j] as int] == (j < k),
        decreases n - k,
    {
        assert(o[k as int] == order@[k as int] as int);
        let ghost before = rejected@;
        rejected.set(order[k], true);
        proof {
            assert forall|j: int| 0 <= j < n implies rejected@[#[trigger] order@[j] as int] == (j < k + 1) by {
                assert(o[j] == order@[j] as int);
                if j != k {
                    assert(o[j] != o[k as int]);
                }
            }
        }
        k = k + 1;
    }
    proof {
        assert forall|j: int| 0 <= j < n implies rejected@[#[trigger] order@[j] as int] == step_down_rejects(passes@, j) by {
            if j >= k {
                assert(!passes@[k as int]);
            }
        }
    }
    rejected
}

/// Benjamini-Hochberg-style step-up: find the last rank that passes and
/// reject every hypothesis up to and including it.
pub fn step_up_mask(order: &[usize], passes: &[bool]) -> (rejected: Vec<bool>)
    requires
        is_index_permutation(order@.map_values(|x: usize| x as int), order@.len()),
        passes@.len() == order@.len(),
    ensures
        rejected@.len() == order@.len(),
        forall|k: int| 0 <= k < order@.len() ==> rejected@[#[trigger] order@[k] as int] == step_up_rejects(passes@, k),
{
    let n = order.len();
    let mut last: usize = 0;
    let mut found = false;
    let mut k: usize = 0;
    while k < n
        invariant
            n == passes@.len(),
            k <= n,
            found ==> last < k && passes@[last as int],
            found ==> forall|j: int| last < j < k ==> !#[trigger] passes@[j],
            !found ==> forall|j: int| 0 <= j < k ==> !#[trigger] passes@[j],
        decreases n - k,
    {
        if passes[k] {
            last = k;
            found = true;
        }
        k = k + 1;
    }
    let mut rejected: Vec<bool> = Vec::new();
    let mut i: usize = 0;
    while i < n
        invariant
            i <= n,
            rejected@.len() == i,
            forall|j: int| 0 <= j < i ==> !#[trigger] rejected@[j],
        decreases n - i,
    {
        rejected.push(false);
        i = i + 1;
    }
    let ghost o = order@.map_values(|x: usize| x as int);
    let bound: usize = if found { last + 1 } else { 0 };
    let mut k: usize = 0;
    assert forall|j: int| 0 <= j < n implies rejected@[#[trigger] order@[j] as int] == (j < 0) by {
        assert(o[j] == order@[j] as int);
    }
    while k < bound
        invariant
            n == order@.len(),
            bound <= n,
            k <= bound,
            rejected@.len() == n,
            o == order@.map_values(|x: usize| x as int),
            is_index_permutation(o, n as nat),
            forall|j: int| 0 <= j < n ==> rejected@[#[trigger] order@[j] as int] == (j < k),
        decreases bound - k,
    {
        assert(o[k as int] == order@[k as int] as int);
        rejected.set(order[k], true);
        proof {
            assert forall|j: int| 0 <= j < n implies rejected@[#[trigger] order@[j] as int] == (j < k + 1) by {
                assert(o[j] == order@[j] as int);
                if j != k {
                    assert(o[j] != o[k as int]);
                }
            }
        }
        k = k + 1;
    }
    proof {
        assert forall|j: int| 0 <= j < n implies rejected@[#[trigger] order@[j] as int] == step_up_rejects(passes@, j) by {
            if j < bound {
                assert(passes@[last as int]);
            } else if step_up_rejects(passes@, j) {
                let w = choose|w: int| j <= w < passes@.len() && #[trigger] passes@[w];
                assert(!passes@[w]);
            }
        }
    }
    rejected
}

/// With the same comparisons, the step-up rule rejects every hypothesis
/// the step-down rule rejects.
pub proof fn lemma_step_down_within_step_up(passes: Seq<bool>, k: int)
    requires
        0 <= k < passes.len(),
        step_down_rejects(passes, k),
    ensures
        step_up_rejects(passes, k),
{
    assert(passes[k]);
}

} // verus!
