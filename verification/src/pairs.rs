//! Pairs / stat-arb bookkeeping: screening methods, candidate pairs and
//! look-back windows, re-estimation cadence and stop decisions.
use vstd::prelude::*;
use vstd::string::*;

verus! {

/// How candidate pairs are scored.
#[derive(Debug, Clone, Copy, PartialEq, Eq, Structural)]
pub enum ScreenMethod {
    EngleGranger,
    DistanceSsd,
}

impl ScreenMethod {
    pub open spec fn spec_name(self) -> Seq<char> {
        match self {
            ScreenMethod::EngleGranger => seq!['e', 'n', 'g', 'l', 'e', '_', 'g', 'r', 'a', 'n', 'g', 'e', 'r'],
            ScreenMethod::DistanceSsd => seq!['d', 'i', 's', 't', 'a', 'n', 'c', 'e', '_', 's', 's', 'd'],
        }
    }

    /// The method's name.
    pub fn name(self) -> (s: &'static str)
        ensures
            s@ == self.spec_name(),
    {
        match self {
            ScreenMethod::EngleGranger => {
                proof {
                    reveal_strlit("engle_granger");
                    assert("engle_granger"@ =~= self.spec_name());
                }
                "engle_granger"
            },
            ScreenMethod::DistanceSsd => {
                proof {
                    reveal_strlit("distance_ssd");
                    assert("distance_ssd"@ =~= self.spec_name());
                }
                "distance_ssd"
            },
        }
    }
}

/// `(i, j)` sorts before `(k, l)` lexicographically.
pub open spec fn pair_lt(a: (usize, usize), b: (usize, usize)) -> bool {
    a.0 < b.0 || (a.0 == b.0 && a.1 < b.1)
}

/// Every pair `(i, j)` of asset indices with `i < j < n`, in lexicographic
/// order: the pairs the screener scores.
pub fn ordered_pairs(n: usize) -> (r: Vec<(usize, usize)>)
    ensures
        forall|k: int| 0 <= k < r@.len() ==> (#[trigger] r@[k]).0 < r@[k].1 < n,
        forall|a: int, b: int| 0 <= a < b < r@.len() ==> pair_lt(r@[a], r@[b]),
        forall|i: usize, j: usize| i < j < n ==> r@.contains((i, j)),
{
    let mut r: Vec<(usize, usize)> = Vec::new();
    let mut i: usize = 0;
    while i < n
        invariant
            i <= n,
            forall|k: int| 0 <= k < r@.len() ==> (#[trigger] r@[k]).0 < r@[k].1 < n,
            forall|k: int| 0 <= k < r@.len() ==> (#[trigger] r@[k]).0 < i,
            forall|a: int, b: int| 0 <= a < b < r@.len() ==> pair_lt(r@[a], r@[b]),
            forall|x: usize, y: usize| x < y < n && x < i ==> r@.contains((x, y)),
        decreases n - i,
    {
        let mut j: usize = i + 1;
        let ghost base = r@;
        while j < n
            invariant
                i < n,
                i + 1 <= j <= n,
                base.len() <= r@.len(),
                forall|k: int| 0 <= k < base.len() ==> r@[k] == base[k],
                forall|k: int| 0 <= k < base.len() ==> (#[trigger] base[k]).0 < i,
                forall|k: int| base.len() <= k < r@.len() ==> (#[trigger] r@[k]).0 == i && r@[k].1 < j,
                forall|k: int| 0 <= k < r@.len() ==> (#[trigger] r@[k]).0 < r@[k].1 < n,
                forall|a: int, b: int| 0 <= a < b < r@.len() ==> pair_lt(r@[a], r@[b]),
                forall|x: usize, y: usize| x < y < n && x < i ==> r@.contains((x, y)),
                forall|y: usize| i < y < j ==> r@.contains((i, y)),
            decreases n - j,
        {
            let ghost before = r@;
            r.push((i, j));
            proof {
                assert forall|x: usize, y: usize| x < y < n && x < i implies r@.contains((x, y)) by {
                    assert(before.contains((x, y)));
                    let k = choose|k: int| 0 <= k < before.len() && before[k] == (x, y);
                    assert(r@[k] == before[k]);
                }
                assert forall|y: usize| i < y < j + 1 implies r@.contains((i, y)) by {
                    if y == j {
                        assert(r@[r@.len() - 1] == (i, j));
                    } else {
                        assert(before.contains((i, y)));
                        let k = choose|k: int| 0 <= k < before.len() && before[k] == (i, y);
                        assert(r@[k] == before[k]);
                    }
                }
                assert forall|a: int, b: int| 0 <= a < b < r@.len() implies pair_lt(r@[a], r@[b]) by {
                    if b == r@.len() - 1 && a < before.len() {
                        assert(r@[a] == before[a]);
                        if a >= base.len() {
                            assert(before[a].0 == i && before[a].1 < j);
                        } else {
                            assert(base[a].0 < i);
                            assert(before[a] == base[a]);
                        }
                    }
                }
            }
            j = j + 1;
        }
        assert forall|k: int| 0 <= k < r@.len() implies (#[trigger] r@[k]).0 < i + 1 by {
            if k < base.len() {
                assert(r@[k] == base[k]);
            }
        }
        i = i + 1;
    }
    r
}

/// Rows `start..end` of the `lookback` bars ending at `t_idx`, or `None`
/// when fewer than `lookback` bars exist.
pub fn screen_window(t_idx: usize, lookback: usize) -> (r: Option<(usize, usize)>)
    requires
        t_idx < usize::MAX,
    ensures
        match r {
            Some(w) => t_idx + 1 >= lookback && w.0 == t_idx + 1 - lookback && w.1 == t_idx + 1,
            None => t_idx + 1 < lookback,
        },
{
    if t_idx + 1 < lookback {
        None
    } else {
        Some((t_idx + 1 - lookback, t_idx + 1))
    }
}

/// How often the spread is re-estimated.
#[derive(Debug, Clone, Copy, PartialEq, Eq, Structural)]
pub enum CadenceMode {
    Bars,
    Trigger,
    OnBreakdown,
}

/// Refit bars `t, t + every, ...` up to and including `t_end`.
pub open spec fn refit_bars(t: int, t_end: int, every: int) -> Seq<usize>
    decreases t_end - t + every,
{
    if every <= 0 || t > t_end {
        Seq::empty()
    } else {
        seq![t as usize] + refit_bars(t + every, t_end, every)
    }
}

/// Stepping on from every refit bar `t, t + every, ...` up to `t_end`
/// stays within `usize`.
pub open spec fn refit_steps_fit(t: int, t_end: int, every: int) -> bool
    decreases t_end - t + every,
{
    if every <= 0 || t > t_end {
        true
    } else {
        t + every <= usize::MAX && refit_steps_fit(t + every, t_end, every)
    }
}

/// The bars of a fixed-cadence refit schedule: always `t_start`, then every
/// `every` bars while not past `t_end`.
pub fn bars_refit_schedule(t_start: usize, t_end: usize, every: usize) -> (r: Vec<usize>)
    requires
        every > 0,
        t_start + every <= usize::MAX,
        refit_steps_fit(t_start + every, t_end as int, every as int),
    ensures
        r@ == seq![t_start] + refit_bars(t_start + every, t_end as int, every as int),
{
    let mut r: Vec<usize> = Vec::new();
    r.push(t_start);
    let mut t = t_start + every;
    while t <= t_end
        invariant
            every > 0,
            refit_steps_fit(t as int, t_end as int, every as int),
            r@ + refit_bars(t as int, t_end as int, every as int) == seq![t_start] + refit_bars(
                t_start + every,
                t_end as int,
                every as int,
            ),
        decreases t_end - t + every,
    {
        let ghost before = r@;
        r.push(t);
        assert(before + refit_bars(t as int, t_end as int, every as int) =~= before + seq![t] + refit_bars(
            t + every,
            t_end as int,
            every as int,
        ));
        t = t + every;
    }
    assert(refit_bars(t as int, t_end as int, every as int) =~= Seq::<usize>::empty());
    assert(r@ =~= r@ + refit_bars(t as int, t_end as int, every as int));
    r
}

/// The `k`-th bar of `refit_bars(t, t_end, every)` is `t + k * every`, at
/// most `t_end`.
proof fn lemma_refit_bar_at(t: int, t_end: int, every: int, k: int)
    requires
        every > 0,
        0 <= t,
        t_end <= usize::MAX,
        0 <= k < refit_bars(t, t_end, every).len(),
    ensures
        refit_bars(t, t_end, every)[k] as int == t + k * every,
        t + k * every <= t_end,
    decreases t_end - t + every,
{
    let rest = refit_bars(t + every, t_end, every);
    assert(refit_bars(t, t_end, every) == seq![t as usize] + rest);
    if k > 0 {
        lemma_refit_bar_at(t + every, t_end, every, k - 1);
        assert(t + every + (k - 1) * every == t + k * every) by (nonlinear_arith);
    }
}

/// One step past the last bar of `refit_bars(t, t_end, every)` passes `t_end`.
proof fn lemma_refit_bars_end(t: int, t_end: int, every: int)
    requires
        every > 0,
    ensures
        t + refit_bars(t, t_end, every).len() * every > t_end,
    decreases t_end - t + every,
{
    if t <= t_end {
        let rest = refit_bars(t + every, t_end, every);
        lemma_refit_bars_end(t + every, t_end, every);
        assert(refit_bars(t, t_end, every).len() == rest.len() + 1);
        assert(t + every + rest.len() * every == t + (rest.len() + 1) * every) by (nonlinear_arith);
    }
}

/// The fixed-cadence refit schedule starts at `t_start` and steps by exactly
/// `every` bars: its `k`-th bar is `t_start + k * every`; every bar after the
/// first is at most `t_end`; and the step after the last bar passes `t_end`,
/// so no bar of the cadence up to `t_end` is missing.
pub proof fn lemma_refit_schedule_spacing(t_start: usize, t_end: usize, every: usize)
    requires
        every > 0,
    ensures
        ({
            let r = seq![t_start] + refit_bars(t_start + every, t_end as int, every as int);
            &&& r[0] == t_start
            &&& forall|k: int| 1 <= k < r.len() ==> #[trigger] r[k] == t_start + k * every && r[k] <= t_end
            &&& t_start + r.len() * every > t_end
        }),
{
    let rest = refit_bars(t_start + every, t_end as int, every as int);
    let r = seq![t_start] + rest;
    lemma_refit_bars_end(t_start + every, t_end as int, every as int);
    assert forall|k: int| 1 <= k < r.len() implies #[trigger] r[k] == t_start + k * every && r[k] <= t_end by {
        assert(r[k] == rest[k - 1]);
        lemma_refit_bar_at(t_start + every, t_end as int, every as int, k - 1);
        assert(t_start + every + (k - 1) * every == t_start + k * every) by (nonlinear_arith);
    }
    assert(t_start + every + rest.len() * every == t_start + r.len() * every) by (nonlinear_arith)
        requires r.len() == rest.len() + 1;
}

/// Why a stop fired.
#[derive(Debug, Clone, Copy, PartialEq, Eq, Structural)]
pub enum StopReason {
    ZMultiple,
    HalfLifeMultiple,
    Breakdown,
}

/// Outcome of a stop check.
#[derive(Debug, Clone)]
pub struct StopDecision {
    pub fired: bool,
    pub reason: Option<StopReason>,
    pub detail: String,
}

impl StopDecision {
    /// No stop: not fired, no reason, empty detail.
    pub fn idle() -> (d: Self)
        ensures
            !d.fired,
            d.reason is None,
            d.detail@ == Seq::<char>::empty(),
    {
        StopDecision { fired: false, reason: None, detail: String::new() }
    }

    /// A fired stop with its reason and detail.
    pub fn fired(reason: StopReason, detail: String) -> (d: Self)
        ensures
            d.fired,
            d.reason == Some(reason),
            d.detail == detail,
    {
        StopDecision { fired: true, reason: Some(reason), detail }
    }
}

} // verus!
