//! Open-interest cadence check.
use vstd::prelude::*;

verus! {

/// Distance of the gap before record `i` from the expected cadence.
pub open spec fn cadence_offset(times: Seq<i64>, expected: int, i: int) -> int {
    let off = times[i] - times[i - 1] - expected;
    if off < 0 { -off } else { off }
}

/// Over the gaps before records `1..k`: the largest cadence offset (at
/// least `0`) and the earlier record of the first gap that attains it.
pub open spec fn worst_cadence(times: Seq<i64>, expected: int, k: int) -> (int, int)
    decreases k,
{
    if k <= 1 {
        (0, 0)
    } else {
        let prev = worst_cadence(times, expected, k - 1);
        let off = cadence_offset(times, expected, k - 1);
        if off > prev.0 { (off, k - 2) } else { prev }
    }
}

/// The cadence check of the open-interest loader on time-sorted records:
/// with two or more records, the gap that strays furthest from
/// `expected_cadence_s` (the first such gap on ties) is reported as its
/// earlier record and actual length when it strays more than
/// `cadence_tol_s`.
pub fn cadence_violation(times: &Vec<i64>, expected_cadence_s: i64, cadence_tol_s: i64) -> (r: Option<(usize, i64)>)
    requires
        forall|a: int, b: int| 0 <= a <= b < times@.len() ==> times@[a] <= times@[b],
        forall|i: int|
            1 <= i < times@.len() ==> #[trigger] times@[i] - times@[i - 1] <= i64::MAX && i64::MIN < times@[i]
                - times@[i - 1] - expected_cadence_s <= i64::MAX,
    ensures
        match r {
            Some((row, gap)) => times@.len() >= 2 && worst_cadence(times@, expected_cadence_s as int, times@.len() as int).0
                > cadence_tol_s && row as int == worst_cadence(times@, expected_cadence_s as int, times@.len() as int).1
                && gap == times@[row + 1] - times@[row as int],
            None => times@.len() < 2 || worst_cadence(times@, expected_cadence_s as int, times@.len() as int).0
                <= cadence_tol_s,
        },
{
    let n = times.len();
    if n < 2 {
        return None;
    }
    let mut worst: i128 = 0;
    let mut worst_idx: usize = 0;
    let mut i: usize = 1;
    while i < n
        invariant
            n == times@.len(),
            n >= 2,
            1 <= i <= n,
            forall|a: int, b: int| 0 <= a <= b < times@.len() ==> times@[a] <= times@[b],
            (worst as int, worst_idx as int) == worst_cadence(times@, expected_cadence_s as int, i as int),
            worst_idx + 1 < n,
        decreases n - i,
    {
        let d = times[i] as i128 - times[i - 1] as i128;
        let raw = d - expected_cadence_s as i128;
        let off = if raw < 0 { -raw } else { raw };
        if off > worst {
            worst = off;
            worst_idx = i - 1;
        }
        i = i + 1;
    }
    if worst > cadence_tol_s as i128 {
        assert(times@[worst_idx as int] <= times@[worst_idx + 1]);
        assert(times@[worst_idx + 1] - times@[worst_idx as int] <= i64::MAX);
        let gap = times[worst_idx + 1] - times[worst_idx];
        Some((worst_idx, gap))
    } else {
        None
    }
}

/// The worst cadence offset over the gaps before records `1..k` is the
/// largest `|gap - expected|` among them, where each gap is counted whether
/// it is longer or shorter than the cadence, and the record reported is the
/// earlier record of the first gap that attains it.
pub proof fn lemma_worst_cadence_is_largest_offset(times: Seq<i64>, expected: int, k: int)
    requires
        2 <= k <= times.len(),
    ensures
        ({
            let w = worst_cadence(times, expected, k);
            &&& 0 <= w.1 && w.1 + 1 < k
            &&& forall|i: int|
                1 <= i < k ==> #[trigger] times[i] - times[i - 1] - expected <= w.0 && -(times[i] - times[i - 1] - expected)
                    <= w.0
            &&& w.0 == (if times[w.1 + 1] - times[w.1] - expected < 0 {
                -(times[w.1 + 1] - times[w.1] - expected)
            } else {
                times[w.1 + 1] - times[w.1] - expected
            })
            &&& forall|i: int|
                1 <= i <= w.1 ==> #[trigger] times[i] - times[i - 1] - expected < w.0 && -(times[i] - times[i - 1] - expected)
                    < w.0
        }),
    decreases k,
{
    let w = worst_cadence(times, expected, k);
    let prev = worst_cadence(times, expected, k - 1);
    let off = cadence_offset(times, expected, k - 1);
    assert(w == (if off > prev.0 { (off, k - 2) } else { prev }));
    if k == 2 {
        assert(prev == (0int, 0int));
    } else {
        lemma_worst_cadence_is_largest_offset(times, expected, k - 1);
        assert forall|i: int| 1 <= i < k implies #[trigger] times[i] - times[i - 1] - expected <= w.0 && -(times[i]
            - times[i - 1] - expected) <= w.0 by {
            if i < k - 1 {
                assert(times[i] - times[i - 1] - expected <= prev.0);
            }
        }
        assert forall|i: int| 1 <= i <= w.1 implies #[trigger] times[i] - times[i - 1] - expected < w.0 && -(times[i]
            - times[i - 1] - expected) < w.0 by {
            assert(times[i] - times[i - 1] - expected <= prev.0);
            if i <= prev.1 {
                assert(times[i] - times[i - 1] - expected < prev.0);
            }
        }
    }
}

/// The cadence check reports exactly when some gap strays from the cadence
/// by more than the tolerance, shorter or longer.
pub proof fn lemma_cadence_reports_any_stray_gap(times: Seq<i64>, expected: int, tol: int)
    requires
        times.len() >= 2,
    ensures
        worst_cadence(times, expected, times.len() as int).0 > tol <==> exists|i: int|
            1 <= i < times.len() && (#[trigger] times[i] - times[i - 1] - expected > tol || -(times[i] - times[i - 1]
                - expected) > tol),
{
    let n = times.len() as int;
    lemma_worst_cadence_is_largest_offset(times, expected, n);
    let w = worst_cadence(times, expected, n);
    if w.0 > tol {
        let i = w.1 + 1;
        assert(1 <= i < n);
        assert(times[i] - times[i - 1] - expected > tol || -(times[i] - times[i - 1] - expected) > tol);
    }
}

} // verus!
