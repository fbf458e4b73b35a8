//! Event-driven rebalance scheduler.
//!
//! Three streams can ask for a rebalance: a fixed bar cadence, funding
//! settlements and trigger events.  `run` lists every rebalance in the
//! `[t_start_s, t_end_s]` window ordered by time, with bars before funding
//! before triggers at equal times; `next_rebalance` answers the next one
//! strictly after a given instant from the same streams.
use vstd::prelude::*;
use crate::ordering::{
    ExecKey, SortKey, key_lt, keys_of, key_of, stable_order, stable_sort_order, first_after_idx,
    best_after, lemma_first_after_is_best, lemma_stable_order_props, lemma_stable_order_covers,
};

verus! {

/// What asked for a rebalance.
#[derive(Debug, Clone, Copy, PartialEq, Eq, Structural)]
pub enum RebalanceKind {
    Bar,
    Funding,
    Trigger,
}

impl RebalanceKind {
    /// Tie-break order at equal timestamps.
    pub open spec fn spec_rank(self) -> u8 {
        match self {
            RebalanceKind::Bar => 0,
            RebalanceKind::Funding => 1,
            RebalanceKind::Trigger => 2,
        }
    }

    /// Tie-break order at equal timestamps: bars, then funding, then triggers.
    pub fn rank(self) -> (r: u8)
        ensures
            r == self.spec_rank(),
    {
        match self {
            RebalanceKind::Bar => 0,
            RebalanceKind::Funding => 1,
            RebalanceKind::Trigger => 2,
        }
    }
}

/// The timestamp and kind of one trigger event; all the scheduler reads
/// of a trigger.
#[derive(Debug, Clone, Copy)]
pub struct TriggerStamp {
    pub time_s: i64,
    pub kind: &'static str,
}

/// One scheduled rebalance.
#[derive(Debug, Clone)]
pub struct ScheduledRebalance {
    pub time_s: i64,
    pub kind: RebalanceKind,
    pub tag: Option<String>,
    pub trigger_kind: Option<&'static str>,
}

/// The mathematical content of a scheduled rebalance.
pub struct RebalanceView {
    pub time_s: int,
    pub kind: RebalanceKind,
    pub tag: Option<Seq<char>>,
    pub trigger_kind: Option<&'static str>,
}

impl View for ScheduledRebalance {
    type V = RebalanceView;

    open spec fn view(&self) -> RebalanceView {
        RebalanceView {
            time_s: self.time_s as int,
            kind: self.kind,
            tag: match self.tag {
                Some(s) => Some(s@),
                None => None,
            },
            trigger_kind: self.trigger_kind,
        }
    }
}

/// Tag carried by funding-settlement rebalances.
pub open spec fn funding_tag() -> Seq<char> {
    seq!['f', 'u', 'n', 'd', 'i', 'n', 'g', '_', 's', 'e', 't', 't', 'l', 'e']
}

pub open spec fn rebalance_key(r: RebalanceView) -> SortKey {
    (r.time_s, r.kind.spec_rank() as int)
}

pub open spec fn bar_event(t: int) -> RebalanceView {
    RebalanceView { time_s: t, kind: RebalanceKind::Bar, tag: None, trigger_kind: None }
}

pub open spec fn funding_event(t: int) -> RebalanceView {
    RebalanceView {
        time_s: t,
        kind: RebalanceKind::Funding,
        tag: Some(funding_tag()),
        trigger_kind: None,
    }
}

pub open spec fn trigger_event(ev: TriggerStamp) -> RebalanceView {
    RebalanceView {
        time_s: ev.time_s as int,
        kind: RebalanceKind::Trigger,
        tag: Some(ev.kind@),
        trigger_kind: Some(ev.kind),
    }
}

/// Bar rebalances at `t, t + cad, t + 2*cad, ...` up to and including `end`.
pub open spec fn bar_events(t: int, end: int, cad: int) -> Seq<RebalanceView>
    decreases end - t + cad,
{
    if cad <= 0 || t > end {
        Seq::empty()
    } else {
        seq![bar_event(t)] + bar_events(t + cad, end, cad)
    }
}

/// Stepping on from every bar instant `t, t + cad, ...` up to `end` stays
/// within `i64`.
pub open spec fn bar_steps_fit(t: int, end: int, cad: int) -> bool
    decreases end - t + cad,
{
    if cad <= 0 || t > end {
        true
    } else {
        t + cad <= i64::MAX && bar_steps_fit(t + cad, end, cad)
    }
}

/// The first instant strictly after `after` on the grid of step `cad`
/// anchored at `start`.
pub open spec fn next_bar_time(after: int, start: int, cad: int) -> int {
    let rem = (after - start) % cad;
    if rem == 0 { after + cad } else { after + (cad - rem) }
}

/// Funding rebalances for the settlement times that fall in `[lo, hi]`.
pub open spec fn funding_window(times: Seq<i64>, lo: int, hi: int) -> Seq<RebalanceView>
    decreases times.len(),
{
    if times.len() == 0 {
        Seq::empty()
    } else {
        let rest = funding_window(times.skip(1), lo, hi);
        if lo <= times[0] <= hi {
            seq![funding_event(times[0] as int)] + rest
        } else {
            rest
        }
    }
}

/// Trigger rebalances for the triggers that fall in `[lo, hi]`.
pub open spec fn trigger_window(trigs: Seq<TriggerStamp>, lo: int, hi: int) -> Seq<RebalanceView>
    decreases trigs.len(),
{
    if trigs.len() == 0 {
        Seq::empty()
    } else {
        let rest = trigger_window(trigs.skip(1), lo, hi);
        if lo <= trigs[0].time_s <= hi {
            seq![trigger_event(trigs[0])] + rest
        } else {
            rest
        }
    }
}

/// Trigger rebalances strictly after `after` and no later than `hi`.
pub open spec fn trigger_after(trigs: Seq<TriggerStamp>, after: int, hi: int) -> Seq<RebalanceView>
    decreases trigs.len(),
{
    if trigs.len() == 0 {
        Seq::empty()
    } else {
        let rest = trigger_after(trigs.skip(1), after, hi);
        if after < trigs[0].time_s <= hi {
            seq![trigger_event(trigs[0])] + rest
        } else {
            rest
        }
    }
}

/// The first settlement strictly after `after`, if it is no later than `hi`.
pub open spec fn next_funding(times: Seq<i64>, after: int, hi: int) -> Seq<RebalanceView>
    decreases times.len(),
{
    if times.len() == 0 {
        Seq::empty()
    } else if times[0] > after {
        if times[0] <= hi {
            seq![funding_event(times[0] as int)]
        } else {
            Seq::empty()
        }
    } else {
        next_funding(times.skip(1), after, hi)
    }
}

/// The keys of a sequence of rebalances.
pub open spec fn keys_of_events(evs: Seq<RebalanceView>) -> Seq<SortKey> {
    evs.map_values(|r: RebalanceView| rebalance_key(r))
}

/// `evs` stably sorted by `(time, rank)`.
pub open spec fn sort_events(evs: Seq<RebalanceView>) -> Seq<RebalanceView> {
    stable_order(keys_of_events(evs), evs.len()).map_values(|i: int| evs[i])
}

/// The first rebalance of `evs` strictly after `after`.
pub open spec fn first_after(evs: Seq<RebalanceView>, after: int) -> Option<RebalanceView>
    decreases evs.len(),
{
    if evs.len() == 0 {
        None
    } else if evs[0].time_s > after {
        Some(evs[0])
    } else {
        first_after(evs.skip(1), after)
    }
}

/// A funding schedule is well formed when its settlements strictly increase,
/// as the funding loader delivers them.
pub open spec fn strictly_increasing(times: Seq<i64>) -> bool {
    forall|a: int, b: int| 0 <= a < b < times.len() ==> times[a] < times[b]
}

/// Event-driven rebalance scheduler over a bar cadence, funding
/// settlements and trigger events.
pub struct EventDrivenScheduler {
    pub bar_cadence_s: Option<i64>,
    pub funding_times: Option<Vec<i64>>,
    pub triggers: Vec<TriggerStamp>,
    pub t_start_s: i64,
    pub t_end_s: i64,
}

/// End of the scheduling window when none is given.
pub const DEFAULT_T_END_S: i64 = 1_000_000_000_000;

impl EventDrivenScheduler {
    pub open spec fn bar_part(&self) -> Seq<RebalanceView> {
        match self.bar_cadence_s {
            Some(cad) => bar_events(self.t_start_s as int, self.t_end_s as int, cad as int),
            None => Seq::empty(),
        }
    }

    pub open spec fn funding_part(&self) -> Seq<RebalanceView> {
        match self.funding_times {
            Some(v) => funding_window(v@, self.t_start_s as int, self.t_end_s as int),
            None => Seq::empty(),
        }
    }

    pub open spec fn trigger_part(&self) -> Seq<RebalanceView> {
        trigger_window(self.triggers@, self.t_start_s as int, self.t_end_s as int)
    }

    /// Every rebalance in the window, in stream order before sorting.
    pub open spec fn all_events(&self) -> Seq<RebalanceView> {
        self.bar_part() + self.funding_part() + self.trigger_part()
    }

    /// The schedule `run` produces.
    pub open spec fn spec_run(&self) -> Seq<RebalanceView> {
        sort_events(self.all_events())
    }

    /// The next bar instant strictly after `after` on the cadence grid
    /// anchored at `t_start_s`, if it is inside the window.
    pub open spec fn next_bar(&self, after: int) -> Seq<RebalanceView> {
        match self.bar_cadence_s {
            Some(cad) => if cad > 0 {
                let nxt = next_bar_time(after, self.t_start_s as int, cad as int);
                if nxt <= self.t_end_s { seq![bar_event(nxt)] } else { Seq::empty() }
            } else {
                Seq::empty()
            },
            None => Seq::empty(),
        }
    }

    pub open spec fn next_funding_part(&self, after: int) -> Seq<RebalanceView> {
        match self.funding_times {
            Some(v) => next_funding(v@, after, self.t_end_s as int),
            None => Seq::empty(),
        }
    }

    /// The candidates `next_rebalance` weighs.
    pub open spec fn candidates(&self, after: int) -> Seq<RebalanceView> {
        self.next_bar(after) + self.next_funding_part(after) + trigger_after(
            self.triggers@,
            after,
            self.t_end_s as int,
        )
    }

    /// The rebalance `next_rebalance` returns.
    pub open spec fn spec_next(&self, after: int) -> Option<RebalanceView> {
        let c = sort_events(self.candidates(after));
        if c.len() == 0 { None } else { Some(c[0]) }
    }

    /// Builds a scheduler; the window ends at `DEFAULT_T_END_S` unless given.
    pub fn new(
        bar_cadence_s: Option<i64>,
        funding_times: Option<Vec<i64>>,
        triggers: Vec<TriggerStamp>,
        t_start_s: i64,
        t_end_s: Option<i64>,
    ) -> (s: Self)
        ensures
            s.bar_cadence_s == bar_cadence_s,
            s.funding_times == funding_times,
            s.triggers == triggers,
            s.t_start_s == t_start_s,
            s.t_end_s == (match t_end_s {
                Some(e) => e,
                None => DEFAULT_T_END_S,
            }),
    {
        let end = match t_end_s {
            Some(e) => e,
            None => DEFAULT_T_END_S,
        };
        EventDrivenScheduler { bar_cadence_s, funding_times, triggers, t_start_s, t_end_s: end }
    }
}

fn bar_rebalance(t: i64) -> (r: ScheduledRebalance)
    ensures
        r@ == bar_event(t as int),
{
    ScheduledRebalance { time_s: t, kind: RebalanceKind::Bar, tag: None, trigger_kind: None }
}

fn funding_rebalance(t: i64) -> (r: ScheduledRebalance)
    ensures
        r@ == funding_event(t as int),
{
    let tag = String::from_str("funding_settle");
    proof {
        reveal_strlit("funding_settle");
        assert(tag@ =~= funding_tag());
    }
    ScheduledRebalance { time_s: t, kind: RebalanceKind::Funding, tag: Some(tag), trigger_kind: None }
}

fn trigger_rebalance(ev: &TriggerStamp) -> (r: ScheduledRebalance)
    ensures
        r@ == trigger_event(*ev),
{
    ScheduledRebalance {
        time_s: ev.time_s,
        kind: RebalanceKind::Trigger,
        tag: Some(String::from_str(ev.kind)),
        trigger_kind: Some(ev.kind),
    }
}

fn copy_rebalance(r: &ScheduledRebalance) -> (c: ScheduledRebalance)
    ensures
        c@ == r@,
{
    let tag = match &r.tag {
        Some(s) => Some(s.clone()),
        None => None,
    };
    ScheduledRebalance { time_s: r.time_s, kind: r.kind, tag, trigger_kind: r.trigger_kind }
}

/// Sorts rebalances stably by `(time, rank)`.
fn sort_rebalances(evs: &Vec<ScheduledRebalance>) -> (out: Vec<ScheduledRebalance>)
    ensures
        out@.map_values(|r: ScheduledRebalance| r@) == sort_events(
            evs@.map_values(|r: ScheduledRebalance| r@),
        ),
{
    let ghost views = evs@.map_values(|r: ScheduledRebalance| r@);
    let n = evs.len();
    let mut keys: Vec<ExecKey> = Vec::new();
    let mut k: usize = 0;
    while k < n
        invariant
            n == evs@.len(),
            k <= n,
            keys@.len() == k,
            forall|p: int| 0 <= p < k ==> key_of(#[trigger] keys@[p]) == rebalance_key(views[p]),
            views == evs@.map_values(|r: ScheduledRebalance| r@),
        decreases n - k,
    {
        keys.push((evs[k].time_s, evs[k].kind.rank()));
        k = k + 1;
    }
    assert(keys_of(keys@) =~= keys_of_events(views));
    let order = stable_sort_order(&keys);
    proof {
        lemma_stable_order_props(keys_of_events(views), n as nat);
    }
    let ghost so = stable_order(keys_of_events(views), n as nat);
    let mut out: Vec<ScheduledRebalance> = Vec::new();
    let mut k: usize = 0;
    while k < n
        invariant
            n == evs@.len(),
            k <= n,
            order@.len() == n,
            order@.map_values(|x: usize| x as int) == so,
            forall|a: int| 0 <= a < so.len() ==> 0 <= #[trigger] so[a] < n,
            so.len() == n,
            out@.len() == k,
            forall|p: int| 0 <= p < k ==> (#[trigger] out@[p])@ == views[so[p]],
            views == evs@.map_values(|r: ScheduledRebalance| r@),
        decreases n - k,
    {
        assert(so[k as int] == order@[k as int] as int);
        let idx = order[k];
        out.push(copy_rebalance(&evs[idx]));
        k = k + 1;
    }
    assert(out@.map_values(|r: ScheduledRebalance| r@) =~= so.map_values(|i: int| views[i]));
    out
}

impl EventDrivenScheduler {
    /// Every rebalance in `[t_start_s, t_end_s]`, ordered by time and, at
    /// equal times, bars before funding before triggers; streams keep their
    /// own order among equals.
    pub fn run(&self) -> (out: Vec<ScheduledRebalance>)
        requires
            match self.bar_cadence_s {
                Some(cad) => bar_steps_fit(self.t_start_s as int, self.t_end_s as int, cad as int),
                None => true,
            },
        ensures
            out@.map_values(|r: ScheduledRebalance| r@) == self.spec_run(),
    {
        let mut evs: Vec<ScheduledRebalance> = Vec::new();
        let start = self.t_start_s;
        let end = self.t_end_s;
        if let Some(cad) = self.bar_cadence_s {
            if cad > 0 {
                let mut t = start;
                while t <= end
                    invariant
                        cad > 0,
                        bar_steps_fit(t as int, end as int, cad as int),
                        self.bar_part() == bar_events(start as int, end as int, cad as int),
                        evs@.map_values(|r: ScheduledRebalance| r@) + bar_events(t as int, end as int, cad as int)
                            == self.bar_part(),
                    decreases end - t + cad,
                {
                    let ghost before = evs@.map_values(|r: ScheduledRebalance| r@);
                    evs.push(bar_rebalance(t));
                    assert(evs@.map_values(|r: ScheduledRebalance| r@) =~= before + seq![bar_event(t as int)]);
                    assert(before + bar_events(t as int, end as int, cad as int)
                        =~= before + seq![bar_event(t as int)] + bar_events(t + cad, end as int, cad as int));
                    t = t + cad;
                }
                assert(bar_events(t as int, end as int, cad as int) =~= Seq::<RebalanceView>::empty());
                assert(evs@.map_values(|r: ScheduledRebalance| r@) =~= self.bar_part());
            } else {
                assert(self.bar_part() =~= Seq::<RebalanceView>::empty());
                assert(evs@.map_values(|r: ScheduledRebalance| r@) =~= self.bar_part());
            }
        } else {
            assert(evs@.map_values(|r: ScheduledRebalance| r@) =~= self.bar_part());
        }
        let ghost bars = self.bar_part();
        if let Some(times) = &self.funding_times {
            let m = times.len();
            let mut k: usize = 0;
            assert(times@.skip(0) =~= times@);
            while k < m
                invariant
                    m == times@.len(),
                    k <= m,
                    self.funding_part() == funding_window(times@, start as int, end as int),
                    evs@.map_values(|r: ScheduledRebalance| r@) + funding_window(times@.skip(k as int), start as int, end as int)
                        == bars + self.funding_part(),
                decreases m - k,
            {
                let ghost before = evs@.map_values(|r: ScheduledRebalance| r@);
                let ghost rest = times@.skip(k as int);
                assert(rest.skip(1) =~= times@.skip(k + 1));
                assert(rest[0] == times@[k as int]);
                let t = times[k];
                if t >= start && t <= end {
                    evs.push(funding_rebalance(t));
                    assert(evs@.map_values(|r: ScheduledRebalance| r@) =~= before + seq![funding_event(t as int)]);
                    assert(before + funding_window(rest, start as int, end as int)
                        =~= before + seq![funding_event(t as int)] + funding_window(times@.skip(k + 1), start as int, end as int));
                }
                k = k + 1;
            }
            assert(times@.skip(m as int) =~= Seq::<i64>::empty());
            assert(evs@.map_values(|r: ScheduledRebalance| r@) =~= bars + self.funding_part());
        } else {
            assert(evs@.map_values(|r: ScheduledRebalance| r@) =~= bars + self.funding_part());
        }
        let ghost bf = bars + self.funding_part();
        let m = self.triggers.len();
        let mut k: usize = 0;
        assert(self.triggers@.skip(0) =~= self.triggers@);
        while k < m
            invariant
                m == self.triggers@.len(),
                k <= m,
                self.trigger_part() == trigger_window(self.triggers@, start as int, end as int),
                evs@.map_values(|r: ScheduledRebalance| r@) + trigger_window(self.triggers@.skip(k as int), start as int, end as int)
                    == bf + self.trigger_part(),
            decreases m - k,
        {
            let ghost before = evs@.map_values(|r: ScheduledRebalance| r@);
            let ghost rest = self.triggers@.skip(k as int);
            assert(rest.skip(1) =~= self.triggers@.skip(k + 1));
            assert(rest[0] == self.triggers@[k as int]);
            let ev = &self.triggers[k];
            if ev.time_s >= start && ev.time_s <= end {
                evs.push(trigger_rebalance(ev));
                assert(evs@.map_values(|r: ScheduledRebalance| r@) =~= before + seq![trigger_event(*ev)]);
                assert(before + trigger_window(rest, start as int, end as int)
                    =~= before + seq![trigger_event(*ev)] + trigger_window(self.triggers@.skip(k + 1), start as int, end as int));
            }
            k = k + 1;
        }
        assert(self.triggers@.skip(m as int) =~= Seq::<TriggerStamp>::empty());
        assert(evs@.map_values(|r: ScheduledRebalance| r@) =~= self.all_events());
        sort_rebalances(&evs)
    }

    /// The next scheduled rebalance strictly after `after_s`, read from
    /// `after_s` and the loaded streams alone.
    pub fn next_rebalance(&self, after_s: i64) -> (r: Option<ScheduledRebalance>)
        requires
            i64::MIN <= after_s - self.t_start_s <= i64::MAX,
            match self.bar_cadence_s {
                Some(cad) => cad > 0 ==> next_bar_time(after_s as int, self.t_start_s as int, cad as int)
                    <= i64::MAX,
                None => true,
            },
        ensures
            match r {
                Some(x) => self.spec_next(after_s as int) == Some(x@),
                None => self.spec_next(after_s as int) is None,
            },
    {
        let mut cands: Vec<ScheduledRebalance> = Vec::new();
        let end = self.t_end_s;
        if let Some(cad) = self.bar_cadence_s {
            if cad > 0 {
                let diff = after_s - self.t_start_s;
                let rem = match diff.checked_rem_euclid(cad) {
                    Some(x) => x,
                    None => 0,
                };
                let nxt = if rem == 0 { after_s + cad } else { after_s + (cad - rem) };
                if nxt <= end {
                    cands.push(bar_rebalance(nxt));
                }
            }
        }
        assert(cands@.map_values(|r: ScheduledRebalance| r@) =~= self.next_bar(after_s as int));
        let ghost nb = self.next_bar(after_s as int);
        if let Some(times) = &self.funding_times {
            let m = times.len();
            let mut k: usize = 0;
            assert(times@.skip(0) =~= times@);
            while k < m && times[k] <= after_s
                invariant
                    m == times@.len(),
                    k <= m,
                    next_funding(times@, after_s as int, end as int) == next_funding(times@.skip(k as int), after_s as int, end as int),
                decreases m - k,
            {
                let ghost rest = times@.skip(k as int);
                assert(rest.skip(1) =~= times@.skip(k + 1));
                assert(rest[0] == times@[k as int]);
                k = k + 1;
            }
            if k < m {
                let ghost rest = times@.skip(k as int);
                assert(rest[0] == times@[k as int]);
                let t = times[k];
                if t <= end {
                    cands.push(funding_rebalance(t));
                }
            } else {
                assert(times@.skip(m as int) =~= Seq::<i64>::empty());
            }
            assert(cands@.map_values(|r: ScheduledRebalance| r@) =~= nb + next_funding(times@, after_s as int, end as int));
        } else {
            assert(cands@.map_values(|r: ScheduledRebalance| r@) =~= nb + self.next_funding_part(after_s as int));
        }
        assert(cands@.map_values(|r: ScheduledRebalance| r@) == nb + self.next_funding_part(after_s as int));
        let ghost nbf = nb + self.next_funding_part(after_s as int);
        let m = self.triggers.len();
        let mut k: usize = 0;
        assert(self.triggers@.skip(0) =~= self.triggers@);
        while k < m
            invariant
                m == self.triggers@.len(),
                k <= m,
                cands@.map_values(|r: ScheduledRebalance| r@) + trigger_after(self.triggers@.skip(k as int), after_s as int, end as int)
                    == nbf + trigger_after(self.triggers@, after_s as int, end as int),
            decreases m - k,
        {
            let ghost before = cands@.map_values(|r: ScheduledRebalance| r@);
            let ghost rest = self.triggers@.skip(k as int);
            assert(rest.skip(1) =~= self.triggers@.skip(k + 1));
            assert(rest[0] == self.triggers@[k as int]);
            let ev = &self.triggers[k];
            if ev.time_s > after_s && ev.time_s <= end {
                cands.push(trigger_rebalance(ev));
                assert(cands@.map_values(|r: ScheduledRebalance| r@) =~= before + seq![trigger_event(*ev)]);
                assert(before + trigger_after(rest, after_s as int, end as int)
                    =~= before + seq![trigger_event(*ev)] + trigger_after(self.triggers@.skip(k + 1), after_s as int, end as int));
            }
            k = k + 1;
        }
        assert(self.triggers@.skip(m as int) =~= Seq::<TriggerStamp>::empty());
        assert(cands@.map_values(|r: ScheduledRebalance| r@) =~= self.candidates(after_s as int));
        let sorted = sort_rebalances(&cands);
        if sorted.len() == 0 {
            None
        } else {
            Some(copy_rebalance(&sorted[0]))
        }
    }
}

} // verus!

verus! {

/// Keeps `x` unless `y` is present and sorts strictly before it.
pub open spec fn pick(x: Option<RebalanceView>, y: Option<RebalanceView>) -> Option<RebalanceView> {
    match y {
        Some(v) => match x {
            Some(u) => if key_lt(rebalance_key(v), rebalance_key(u)) { y } else { x },
            None => y,
        },
        None => x,
    }
}

/// The earliest-keyed rebalance of `evs` strictly after `after`; of equal
/// keys the earliest listed wins.
pub open spec fn best_view(evs: Seq<RebalanceView>, after: int) -> Option<RebalanceView>
    decreases evs.len(),
{
    if evs.len() == 0 {
        None
    } else {
        let e = evs.last();
        pick(best_view(evs.drop_last(), after), if e.time_s > after { Some(e) } else { None })
    }
}

proof fn lemma_best_after_prefix(k1: Seq<SortKey>, k2: Seq<SortKey>, n: nat, after: int)
    requires
        n <= k1.len(),
        n <= k2.len(),
        forall|i: int| 0 <= i < n ==> k1[i] == k2[i],
    ensures
        best_after(k1, n, after) == best_after(k2, n, after),
    decreases n,
{
    if n > 0 {
        lemma_best_after_prefix(k1, k2, (n - 1) as nat, after);
        lemma_best_after_in_range(k1, (n - 1) as nat, after);
    }
}

proof fn lemma_best_after_in_range(k: Seq<SortKey>, n: nat, after: int)
    ensures
        best_after(k, n, after) is Some ==> 0 <= best_after(k, n, after).unwrap() < n,
    decreases n,
{
    if n > 0 {
        lemma_best_after_in_range(k, (n - 1) as nat, after);
    }
}

proof fn lemma_best_view_is_best_after(evs: Seq<RebalanceView>, after: int)
    ensures
        best_view(evs, after) == (match best_after(keys_of_events(evs), evs.len(), after) {
            Some(i) => Some(evs[i]),
            None => None,
        }),
    decreases evs.len(),
{
    if evs.len() > 0 {
        let n = evs.len();
        let d = evs.drop_last();
        lemma_best_view_is_best_after(d, after);
        lemma_best_after_prefix(keys_of_events(d), keys_of_events(evs), (n - 1) as nat, after);
        lemma_best_after_in_range(keys_of_events(d), (n - 1) as nat, after);
        let b = best_after(keys_of_events(evs), (n - 1) as nat, after);
        if b is Some {
            assert(d[b.unwrap()] == evs[b.unwrap()]);
        }
    }
}

proof fn lemma_first_after_map(evs: Seq<RebalanceView>, order: Seq<int>, after: int)
    requires
        forall|a: int| 0 <= a < order.len() ==> 0 <= #[trigger] order[a] < evs.len(),
    ensures
        first_after(order.map_values(|i: int| evs[i]), after) == (match first_after_idx(
            keys_of_events(evs),
            order,
            after,
        ) {
            Some(i) => Some(evs[i]),
            None => None,
        }),
    decreases order.len(),
{
    if order.len() > 0 {
        let m = order.map_values(|i: int| evs[i]);
        assert(m.skip(1) =~= order.skip(1).map_values(|i: int| evs[i]));
        assert(keys_of_events(evs)[order[0]] == rebalance_key(evs[order[0]]));
        lemma_first_after_map(evs, order.skip(1), after);
    }
}

/// The first rebalance after `after` in sorted order is the best-keyed one.
proof fn lemma_first_after_sorted(evs: Seq<RebalanceView>, after: int)
    ensures
        first_after(sort_events(evs), after) == best_view(evs, after),
{
    let k = keys_of_events(evs);
    lemma_stable_order_props(k, evs.len());
    lemma_first_after_map(evs, stable_order(k, evs.len()), after);
    lemma_first_after_is_best(k, evs.len(), after);
    lemma_best_view_is_best_after(evs, after);
}

proof fn lemma_pick_assoc(x: Option<RebalanceView>, y: Option<RebalanceView>, z: Option<RebalanceView>)
    ensures
        pick(x, pick(y, z)) == pick(pick(x, y), z),
{
}

proof fn lemma_best_view_concat(a: Seq<RebalanceView>, b: Seq<RebalanceView>, after: int)
    ensures
        best_view(a + b, after) == pick(best_view(a, after), best_view(b, after)),
    decreases b.len(),
{
    if b.len() == 0 {
        assert(a + b =~= a);
    } else {
        assert((a + b).drop_last() =~= a + b.drop_last());
        assert((a + b).last() == b.last());
        lemma_best_view_concat(a, b.drop_last(), after);
        let e = b.last();
        let oe = if e.time_s > after { Some(e) } else { None };
        lemma_pick_assoc(best_view(a, after), best_view(b.drop_last(), after), oe);
    }
}

proof fn lemma_best_view_single(x: RebalanceView, after: int)
    ensures
        best_view(seq![x], after) == (if x.time_s > after { Some(x) } else { None::<RebalanceView> }),
{
    assert(seq![x].drop_last() =~= Seq::<RebalanceView>::empty());
    assert(seq![x].last() == x);
    assert(best_view(Seq::<RebalanceView>::empty(), after) is None);
}

proof fn lemma_best_view_member(evs: Seq<RebalanceView>, after: int)
    ensures
        best_view(evs, after) is Some ==> exists|p: int|
            0 <= p < evs.len() && evs[p] == best_view(evs, after).unwrap(),
    decreases evs.len(),
{
    if evs.len() > 0 {
        lemma_best_view_member(evs.drop_last(), after);
        let b = best_view(evs.drop_last(), after);
        if best_view(evs, after) is Some && best_view(evs, after) == b {
            let p = choose|p: int| 0 <= p < evs.drop_last().len() && evs.drop_last()[p] == b.unwrap();
            assert(evs[p] == evs.drop_last()[p]);
        } else if best_view(evs, after) is Some {
            assert(evs[evs.len() - 1] == evs.last());
        }
    }
}

/// A rebalance ahead of a sequence whose times are all later wins.
proof fn lemma_head_wins(x: RebalanceView, rest: Seq<RebalanceView>, after: int)
    requires
        x.time_s > after,
        forall|p: int| 0 <= p < rest.len() ==> (#[trigger] rest[p]).time_s > x.time_s,
    ensures
        best_view(seq![x] + rest, after) == Some(x),
{
    lemma_best_view_concat(seq![x], rest, after);
    lemma_best_view_single(x, after);
    lemma_best_view_member(rest, after);
}

/// A rebalance not after `after` never wins.
proof fn lemma_head_skipped(x: RebalanceView, rest: Seq<RebalanceView>, after: int)
    requires
        x.time_s <= after,
    ensures
        best_view(seq![x] + rest, after) == best_view(rest, after),
{
    lemma_best_view_concat(seq![x], rest, after);
    lemma_best_view_single(x, after);
}

proof fn lemma_bar_times(t: int, end: int, cad: int)
    ensures
        forall|p: int|
            0 <= p < bar_events(t, end, cad).len() ==> (#[trigger] bar_events(t, end, cad)[p]).time_s >= t,
    decreases end - t + cad,
{
    if !(cad <= 0 || t > end) {
        lemma_bar_times(t + cad, end, cad);
        let r = bar_events(t + cad, end, cad);
        assert forall|p: int| 0 <= p < bar_events(t, end, cad).len() implies (#[trigger] bar_events(t, end, cad)[p]).time_s >= t by {
            if p > 0 {
                assert(bar_events(t, end, cad)[p] == r[p - 1]);
            }
        }
    }
}

proof fn lemma_best_bars(t: int, end: int, cad: int, after: int, nxt: int)
    requires
        cad > 0,
        t <= nxt,
        (nxt - t) % cad == 0,
        nxt > after,
        nxt - cad <= after,
    ensures
        best_view(bar_events(t, end, cad), after) == (if nxt <= end { Some(bar_event(nxt)) } else { None::<RebalanceView> }),
    decreases end - t + cad,
{
    if t > end {
        assert(bar_events(t, end, cad) =~= Seq::<RebalanceView>::empty());
    } else {
        let rest = bar_events(t + cad, end, cad);
        if t > after {
            assert(nxt - t < cad);
            assert((nxt - t) % cad == nxt - t) by {
                vstd::arithmetic::div_mod::lemma_small_mod((nxt - t) as nat, cad as nat);
            }
            lemma_bar_times(t + cad, end, cad);
            lemma_head_wins(bar_event(t), rest, after);
        } else {
            assert(nxt - t >= cad) by {
                if nxt - t < cad {
                    vstd::arithmetic::div_mod::lemma_small_mod((nxt - t) as nat, cad as nat);
                }
            }
            assert((nxt - (t + cad)) % cad == 0) by {
                vstd::arithmetic::div_mod::lemma_mod_sub_multiples_vanish(nxt - t, cad);
            }
            lemma_head_skipped(bar_event(t), rest, after);
            lemma_best_bars(t + cad, end, cad, after, nxt);
        }
    }
}

proof fn lemma_window_times(times: Seq<i64>, lo: int, hi: int)
    ensures
        forall|p: int| 0 <= p < funding_window(times, lo, hi).len() ==> exists|q: int|
            0 <= q < times.len() && (#[trigger] funding_window(times, lo, hi)[p]).time_s == times[q] as int,
    decreases times.len(),
{
    if times.len() > 0 {
        let rest = times.skip(1);
        lemma_window_times(rest, lo, hi);
        let w = funding_window(times, lo, hi);
        let wr = funding_window(rest, lo, hi);
        assert forall|p: int| 0 <= p < w.len() implies exists|q: int|
            0 <= q < times.len() && (#[trigger] w[p]).time_s == times[q] as int by {
            if lo <= times[0] <= hi {
                if p == 0 {
                    assert(w[0].time_s == times[0] as int);
                } else {
                    assert(w[p] == wr[p - 1]);
                    let q = choose|q: int| 0 <= q < rest.len() && wr[p - 1].time_s == rest[q] as int;
                    assert(rest[q] == times[q + 1]);
                }
            } else {
                let q = choose|q: int| 0 <= q < rest.len() && wr[p].time_s == rest[q] as int;
                assert(rest[q] == times[q + 1]);
            }
        }
    }
}

proof fn lemma_window_empty_above(times: Seq<i64>, lo: int, hi: int)
    requires
        forall|p: int| 0 <= p < times.len() ==> times[p] > hi,
    ensures
        funding_window(times, lo, hi) =~= Seq::<RebalanceView>::empty(),
    decreases times.len(),
{
    if times.len() > 0 {
        assert forall|p: int| 0 <= p < times.skip(1).len() implies times.skip(1)[p] > hi by {
            assert(times.skip(1)[p] == times[p + 1]);
        }
        lemma_window_empty_above(times.skip(1), lo, hi);
    }
}

proof fn lemma_best_funding(times: Seq<i64>, lo: int, hi: int, after: int)
    requires
        strictly_increasing(times),
        after >= lo,
    ensures
        best_view(funding_window(times, lo, hi), after) == (if next_funding(times, after, hi).len() == 0 {
            None::<RebalanceView>
        } else {
            Some(next_funding(times, after, hi)[0])
        }),
    decreases times.len(),
{
    if times.len() == 0 {
        assert(funding_window(times, lo, hi) =~= Seq::<RebalanceView>::empty());
    } else {
        let rest = times.skip(1);
        assert(strictly_increasing(rest)) by {
            assert forall|a: int, b: int| 0 <= a < b < rest.len() implies rest[a] < rest[b] by {
                assert(rest[a] == times[a + 1] && rest[b] == times[b + 1]);
            }
        }
        let wr = funding_window(rest, lo, hi);
        if times[0] > after {
            if times[0] <= hi {
                lemma_window_times(rest, lo, hi);
                assert forall|p: int| 0 <= p < wr.len() implies (#[trigger] wr[p]).time_s > times[0] by {
                    let q = choose|q: int| 0 <= q < rest.len() && wr[p].time_s == rest[q] as int;
                    assert(rest[q] == times[q + 1]);
                }
                lemma_head_wins(funding_event(times[0] as int), wr, after);
            } else {
                assert forall|p: int| 0 <= p < rest.len() implies rest[p] > hi by {
                    assert(rest[p] == times[p + 1]);
                }
                lemma_window_empty_above(rest, lo, hi);
                assert(best_view(Seq::<RebalanceView>::empty(), after) is None);
            }
        } else {
            lemma_best_funding(rest, lo, hi, after);
            if lo <= times[0] <= hi {
                lemma_head_skipped(funding_event(times[0] as int), wr, after);
            }
        }
    }
}

proof fn lemma_best_triggers(trigs: Seq<TriggerStamp>, lo: int, hi: int, after: int)
    requires
        after >= lo,
    ensures
        best_view(trigger_window(trigs, lo, hi), after) == best_view(trigger_after(trigs, after, hi), after),
    decreases trigs.len(),
{
    if trigs.len() > 0 {
        let rest = trigs.skip(1);
        lemma_best_triggers(rest, lo, hi, after);
        let x = trigger_event(trigs[0]);
        let wr = trigger_window(rest, lo, hi);
        let ar = trigger_after(rest, after, hi);
        if trigs[0].time_s > after && trigs[0].time_s <= hi {
            lemma_best_view_concat(seq![x], wr, after);
            lemma_best_view_concat(seq![x], ar, after);
        } else if lo <= trigs[0].time_s <= hi {
            lemma_head_skipped(x, wr, after);
        }
    }
}

proof fn lemma_after_all(evs: Seq<RebalanceView>, after: int)
    requires
        forall|p: int| 0 <= p < evs.len() ==> (#[trigger] evs[p]).time_s > after,
    ensures
        first_after(evs, after) == (if evs.len() == 0 { None::<RebalanceView> } else { Some(evs[0]) }),
{
}

proof fn lemma_trigger_after_times(trigs: Seq<TriggerStamp>, after: int, hi: int)
    ensures
        forall|p: int|
            0 <= p < trigger_after(trigs, after, hi).len() ==> (#[trigger] trigger_after(trigs, after, hi)[p]).time_s > after,
    decreases trigs.len(),
{
    if trigs.len() > 0 {
        let rest = trigs.skip(1);
        lemma_trigger_after_times(rest, after, hi);
        let r = trigger_after(rest, after, hi);
        let t = trigger_after(trigs, after, hi);
        assert forall|p: int| 0 <= p < t.len() implies (#[trigger] t[p]).time_s > after by {
            if after < trigs[0].time_s <= hi && p > 0 {
                assert(t[p] == r[p - 1]);
            }
        }
    }
}

proof fn lemma_next_funding_shape(times: Seq<i64>, after: int, hi: int)
    ensures
        next_funding(times, after, hi).len() <= 1,
        next_funding(times, after, hi).len() == 1 ==> next_funding(times, after, hi)[0].time_s > after,
    decreases times.len(),
{
    if times.len() > 0 && times[0] <= after {
        lemma_next_funding_shape(times.skip(1), after, hi);
    }
}

/// What `next_rebalance` answers is what `run` lists first after the same
/// instant: for any instant at or after the window start and a funding
/// schedule that strictly increases, the next rebalance strictly after
/// `after` equals the first rebalance of the full schedule whose time
/// exceeds `after`.
pub proof fn lemma_next_rebalance_matches_run(s: EventDrivenScheduler, after: int)
    requires
        after >= s.t_start_s,
        match s.funding_times {
            Some(v) => strictly_increasing(v@),
            None => true,
        },
    ensures
        s.spec_next(after) == first_after(s.spec_run(), after),
{
    let start = s.t_start_s as int;
    let end = s.t_end_s as int;
    let nb = s.next_bar(after);
    let nf = s.next_funding_part(after);
    let ta = trigger_after(s.triggers@, after, end);
    let c = s.candidates(after);
    // Every candidate lies strictly after `after`.
    match s.bar_cadence_s {
        Some(cad) => if cad > 0 {
            let r = (after - start) % (cad as int);
            assert(0 <= r < cad) by {
                vstd::arithmetic::div_mod::lemma_mod_pos_bound(after - start, cad as int);
            }
        },
        None => {},
    }
    match s.funding_times {
        Some(v) => lemma_next_funding_shape(v@, after, end),
        None => {},
    }
    lemma_trigger_after_times(s.triggers@, after, end);
    assert forall|p: int| 0 <= p < c.len() implies (#[trigger] c[p]).time_s > after by {
        if p < nb.len() {
            assert(c[p] == nb[p]);
        } else if p < nb.len() + nf.len() {
            assert(c[p] == nf[p - nb.len()]);
        } else {
            assert(c[p] == ta[p - nb.len() - nf.len()]);
        }
    }
    // The sorted candidates all lie after `after`, so the first is the best.
    let kc = keys_of_events(c);
    lemma_stable_order_props(kc, c.len());
    let sc = sort_events(c);
    assert forall|p: int| 0 <= p < sc.len() implies (#[trigger] sc[p]).time_s > after by {
        let o = stable_order(kc, c.len());
        assert(0 <= o[p] < c.len());
    }
    lemma_after_all(sc, after);
    lemma_first_after_sorted(c, after);
    lemma_first_after_sorted(s.all_events(), after);
    // Compare the three streams one by one.
    lemma_best_view_concat(nb + nf, ta, after);
    lemma_best_view_concat(nb, nf, after);
    lemma_best_view_concat(s.bar_part() + s.funding_part(), s.trigger_part(), after);
    lemma_best_view_concat(s.bar_part(), s.funding_part(), after);
    match s.bar_cadence_s {
        Some(cad) => if cad > 0 {
            let r = (after - start) % (cad as int);
            let nxt = after + cad - r;
            assert((nxt - start) % (cad as int) == 0) by {
                vstd::arithmetic::div_mod::lemma_fundamental_div_mod(after - start, cad as int);
                let q = (after - start) / (cad as int);
                assert(nxt - start == (cad as int) * (q + 1)) by (nonlinear_arith)
                    requires after - start == (cad as int) * q + r, nxt == after + cad - r;
                vstd::arithmetic::div_mod::lemma_mod_multiples_basic(q + 1, cad as int);
                vstd::arithmetic::mul::lemma_mul_is_commutative(cad as int, q + 1);
            }
            assert(nxt >= start) by {
                vstd::arithmetic::div_mod::lemma_fundamental_div_mod(after - start, cad as int);
                vstd::arithmetic::div_mod::lemma_div_pos_is_pos(after - start, cad as int);
                let q = (after - start) / (cad as int);
                assert(nxt - start == (cad as int) * (q + 1)) by (nonlinear_arith)
                    requires after - start == (cad as int) * q + r, nxt == after + cad - r;
                assert((cad as int) * (q + 1) >= 0) by (nonlinear_arith)
                    requires cad > 0, q >= 0;
            }
            lemma_best_bars(start, end, cad as int, after, nxt);
            if nxt <= end {
                lemma_best_view_single(bar_event(nxt), after);
            } else {
                assert(nb =~= Seq::<RebalanceView>::empty());
            }
        } else {
            assert(s.bar_part() =~= Seq::<RebalanceView>::empty());
        },
        None => {},
    }
    match s.funding_times {
        Some(v) => {
            lemma_best_funding(v@, start, end, after);
            if nf.len() == 1 {
                assert(nf =~= seq![nf[0]]);
                lemma_best_view_single(nf[0], after);
            }
        },
        None => {},
    }
    lemma_best_triggers(s.triggers@, start, end, after);
}

} // verus!

verus! {

/// Every rebalance of `evs` lies in `[lo, hi]`.
pub open spec fn all_within(evs: Seq<RebalanceView>, lo: int, hi: int) -> bool {
    forall|p: int| 0 <= p < evs.len() ==> lo <= (#[trigger] evs[p]).time_s <= hi
}

proof fn lemma_bars_within(t: int, end: int, cad: int)
    ensures
        all_within(bar_events(t, end, cad), t, end),
    decreases end - t + cad,
{
    if !(cad <= 0 || t > end) {
        lemma_bars_within(t + cad, end, cad);
        let r = bar_events(t + cad, end, cad);
        let b = bar_events(t, end, cad);
        assert forall|p: int| 0 <= p < b.len() implies t <= (#[trigger] b[p]).time_s <= end by {
            if p > 0 {
                assert(b[p] == r[p - 1]);
            }
        }
    }
}

proof fn lemma_funding_within(times: Seq<i64>, lo: int, hi: int)
    ensures
        all_within(funding_window(times, lo, hi), lo, hi),
    decreases times.len(),
{
    if times.len() > 0 {
        lemma_funding_within(times.skip(1), lo, hi);
        let r = funding_window(times.skip(1), lo, hi);
        let w = funding_window(times, lo, hi);
        assert forall|p: int| 0 <= p < w.len() implies lo <= (#[trigger] w[p]).time_s <= hi by {
            if lo <= times[0] <= hi {
                if p > 0 {
                    assert(w[p] == r[p - 1]);
                }
            } else {
                assert(w[p] == r[p]);
            }
        }
    }
}

proof fn lemma_triggers_within(trigs: Seq<TriggerStamp>, lo: int, hi: int)
    ensures
        all_within(trigger_window(trigs, lo, hi), lo, hi),
    decreases trigs.len(),
{
    if trigs.len() > 0 {
        lemma_triggers_within(trigs.skip(1), lo, hi);
        let r = trigger_window(trigs.skip(1), lo, hi);
        let w = trigger_window(trigs, lo, hi);
        assert forall|p: int| 0 <= p < w.len() implies lo <= (#[trigger] w[p]).time_s <= hi by {
            if lo <= trigs[0].time_s <= hi {
                if p > 0 {
                    assert(w[p] == r[p - 1]);
                }
            } else {
                assert(w[p] == r[p]);
            }
        }
    }
}

/// The schedule `run` lists is ordered by `(time, rank)` (bars, then
/// funding, then triggers at equal times), every rebalance lies inside
/// `[t_start_s, t_end_s]`, and rebalances with equal keys keep their
/// stream order.
pub proof fn lemma_run_sorted_within_window(s: EventDrivenScheduler)
    ensures
        forall|a: int, b: int|
            0 <= a < b < s.spec_run().len() ==> crate::ordering::key_le(
                rebalance_key(s.spec_run()[a]),
                rebalance_key(s.spec_run()[b]),
            ),
        all_within(s.spec_run(), s.t_start_s as int, s.t_end_s as int),
        s.spec_run().len() == s.all_events().len(),
{
    let evs = s.all_events();
    let k = keys_of_events(evs);
    lemma_stable_order_props(k, evs.len());
    let o = stable_order(k, evs.len());
    let start = s.t_start_s as int;
    let end = s.t_end_s as int;
    match s.bar_cadence_s {
        Some(cad) => lemma_bars_within(start, end, cad as int),
        None => {},
    }
    match s.funding_times {
        Some(v) => lemma_funding_within(v@, start, end),
        None => {},
    }
    lemma_triggers_within(s.triggers@, start, end);
    let bp = s.bar_part();
    let fp = s.funding_part();
    let tp = s.trigger_part();
    assert(all_within(evs, start, end)) by {
        assert forall|p: int| 0 <= p < evs.len() implies start <= (#[trigger] evs[p]).time_s <= end by {
            if p < bp.len() {
                assert(evs[p] == bp[p]);
            } else if p < bp.len() + fp.len() {
                assert(evs[p] == fp[p - bp.len()]);
            } else {
                assert(evs[p] == tp[p - bp.len() - fp.len()]);
            }
        }
    }
    let r = s.spec_run();
    assert forall|p: int| 0 <= p < r.len() implies start <= (#[trigger] r[p]).time_s <= end by {
        assert(0 <= o[p] < evs.len());
        assert(r[p] == evs[o[p]]);
    }
    assert forall|a: int, b: int| 0 <= a < b < r.len() implies crate::ordering::key_le(
        rebalance_key(r[a]),
        rebalance_key(r[b]),
    ) by {
        assert(crate::ordering::key_le(k[o[a]], k[o[b]]));
        assert(r[a] == evs[o[a]] && r[b] == evs[o[b]]);
    }
}

proof fn lemma_sort_events_contains(evs: Seq<RebalanceView>, i: int)
    requires
        0 <= i < evs.len(),
    ensures
        sort_events(evs).contains(evs[i]),
{
    let k = keys_of_events(evs);
    lemma_stable_order_props(k, evs.len());
    lemma_stable_order_covers(k, evs.len(), i);
    let o = stable_order(k, evs.len());
    let p = choose|p: int| 0 <= p < o.len() && o[p] == i;
    assert(sort_events(evs)[p] == evs[i]);
}

proof fn lemma_run_contains(s: EventDrivenScheduler, x: RebalanceView)
    requires
        s.bar_part().contains(x) || s.funding_part().contains(x) || s.trigger_part().contains(x),
    ensures
        s.spec_run().contains(x),
{
    let b = s.bar_part();
    let f = s.funding_part();
    let t = s.trigger_part();
    let evs = s.all_events();
    let i: int = if b.contains(x) {
        let p = choose|p: int| 0 <= p < b.len() && b[p] == x;
        assert(evs[p] == x);
        p
    } else if f.contains(x) {
        let p = choose|p: int| 0 <= p < f.len() && f[p] == x;
        assert(evs[b.len() + p] == x);
        b.len() + p
    } else {
        let p = choose|p: int| 0 <= p < t.len() && t[p] == x;
        assert(evs[b.len() + f.len() + p] == x);
        b.len() + f.len() + p
    };
    lemma_sort_events_contains(evs, i);
}

proof fn lemma_funding_window_contains(times: Seq<i64>, lo: int, hi: int, q: int)
    requires
        0 <= q < times.len(),
        lo <= times[q] <= hi,
    ensures
        funding_window(times, lo, hi).contains(funding_event(times[q] as int)),
    decreases times.len(),
{
    let w = funding_window(times, lo, hi);
    if q == 0 {
        assert(w[0] == funding_event(times[0] as int));
    } else {
        let rest = times.skip(1);
        assert(rest[q - 1] == times[q]);
        lemma_funding_window_contains(rest, lo, hi, q - 1);
        let r = funding_window(rest, lo, hi);
        let p = choose|p: int| 0 <= p < r.len() && r[p] == funding_event(times[q] as int);
        if lo <= times[0] <= hi {
            assert(w[p + 1] == r[p]);
        } else {
            assert(w[p] == r[p]);
        }
    }
}

proof fn lemma_trigger_window_contains(trigs: Seq<TriggerStamp>, lo: int, hi: int, q: int)
    requires
        0 <= q < trigs.len(),
        lo <= trigs[q].time_s <= hi,
    ensures
        trigger_window(trigs, lo, hi).contains(trigger_event(trigs[q])),
    decreases trigs.len(),
{
    let w = trigger_window(trigs, lo, hi);
    if q == 0 {
        assert(w[0] == trigger_event(trigs[0]));
    } else {
        let rest = trigs.skip(1);
        assert(rest[q - 1] == trigs[q]);
        lemma_trigger_window_contains(rest, lo, hi, q - 1);
        let r = trigger_window(rest, lo, hi);
        let p = choose|p: int| 0 <= p < r.len() && r[p] == trigger_event(trigs[q]);
        if lo <= trigs[0].time_s <= hi {
            assert(w[p + 1] == r[p]);
        } else {
            assert(w[p] == r[p]);
        }
    }
}

proof fn lemma_bar_events_contains(t: int, end: int, cad: int, m: nat)
    requires
        cad > 0,
        t + m * cad <= end,
    ensures
        bar_events(t, end, cad).contains(bar_event(t + m * cad)),
    decreases m,
{
    let w = bar_events(t, end, cad);
    assert(m * cad >= 0) by (nonlinear_arith)
        requires
            cad > 0,
    ;
    assert(t <= end);
    assert(w == seq![bar_event(t)] + bar_events(t + cad, end, cad));
    if m == 0 {
        assert(m * cad == 0) by (nonlinear_arith)
            requires
                m == 0,
        ;
        assert(w[0] == bar_event(t));
    } else {
        let m1 = (m - 1) as nat;
        assert(t + m * cad == (t + cad) + m1 * cad) by (nonlinear_arith)
            requires
                m1 == m - 1,
        ;
        assert(m1 * cad >= 0) by (nonlinear_arith)
            requires
                cad > 0,
        ;
        lemma_bar_events_contains(t + cad, end, cad, m1);
        let r = bar_events(t + cad, end, cad);
        let p = choose|p: int| 0 <= p < r.len() && r[p] == bar_event(t + m * cad);
        assert(w[p + 1] == r[p]);
    }
}

/// Every funding settlement in `[t_start_s, t_end_s]`, both ends included,
/// is scheduled as a funding rebalance at its time.
pub proof fn lemma_run_lists_every_settlement_in_window(s: EventDrivenScheduler, q: int)
    requires
        s.funding_times is Some,
        0 <= q < s.funding_times->0@.len(),
        s.t_start_s <= s.funding_times->0@[q] <= s.t_end_s,
    ensures
        s.spec_run().contains(
            RebalanceView {
                time_s: s.funding_times->0@[q] as int,
                kind: RebalanceKind::Funding,
                tag: Some(funding_tag()),
                trigger_kind: None,
            },
        ),
{
    let v = s.funding_times->0@;
    lemma_funding_window_contains(v, s.t_start_s as int, s.t_end_s as int, q);
    lemma_run_contains(s, funding_event(v[q] as int));
}

/// Every trigger in `[t_start_s, t_end_s]`, both ends included, is
/// scheduled as a trigger rebalance at its time, tagged with its kind.
pub proof fn lemma_run_lists_every_trigger_in_window(s: EventDrivenScheduler, q: int)
    requires
        0 <= q < s.triggers@.len(),
        s.t_start_s <= s.triggers@[q].time_s <= s.t_end_s,
    ensures
        s.spec_run().contains(
            RebalanceView {
                time_s: s.triggers@[q].time_s as int,
                kind: RebalanceKind::Trigger,
                tag: Some(s.triggers@[q].kind@),
                trigger_kind: Some(s.triggers@[q].kind),
            },
        ),
{
    lemma_trigger_window_contains(s.triggers@, s.t_start_s as int, s.t_end_s as int, q);
    lemma_run_contains(s, trigger_event(s.triggers@[q]));
}

/// With a positive bar cadence, every instant `t_start_s + m * cadence` up
/// to `t_end_s`, the start included, is scheduled as a bar rebalance.
pub proof fn lemma_run_lists_every_bar_in_window(s: EventDrivenScheduler, m: nat)
    requires
        s.bar_cadence_s is Some,
        s.bar_cadence_s->0 > 0,
        s.t_start_s + m * s.bar_cadence_s->0 <= s.t_end_s,
    ensures
        s.spec_run().contains(
            RebalanceView {
                time_s: s.t_start_s + m * s.bar_cadence_s->0,
                kind: RebalanceKind::Bar,
                tag: None,
                trigger_kind: None,
            },
        ),
{
    let cad = s.bar_cadence_s->0 as int;
    lemma_bar_events_contains(s.t_start_s as int, s.t_end_s as int, cad, m);
    lemma_run_contains(s, bar_event(s.t_start_s + m * cad));
}

} // verus!
