//! Funding-rate settlement arithmetic.
use vstd::prelude::*;
pub use crate::carry::dedup::dedup_last_wins;

verus! {

/// Seconds between funding settlements on every supported perpetual venue.
pub const FUNDING_INTERVAL_S: i64 = 28800;

/// Smallest settlement timestamp that is at or after `t_s` on a grid of
/// multiples of `interval_s`.
pub open spec fn spec_next_funding_time(t_s: int, interval_s: int) -> int {
    if t_s % interval_s == 0 { t_s } else { t_s + (interval_s - t_s % interval_s) }
}

/// Smallest funding settlement timestamp `>= t_s`.
pub fn next_funding_time(t_s: i64, interval_s: i64) -> (r: i64)
    requires
        interval_s > 0,
        spec_next_funding_time(t_s as int, interval_s as int) <= i64::MAX,
    ensures
        r == spec_next_funding_time(t_s as int, interval_s as int),
        t_s <= r < t_s + interval_s,
        (r as int) % (interval_s as int) == 0,
{
    let rem = match t_s.checked_rem_euclid(interval_s) {
        Some(r) => r,
        None => 0,
    };
    proof {
        let t = t_s as int;
        let m = interval_s as int;
        vstd::arithmetic::div_mod::lemma_fundamental_div_mod(t, m);
        if t % m != 0 {
            let q = t / m;
            assert(t + (m - t % m) == m * (q + 1)) by (nonlinear_arith)
                requires t == m * q + t % m;
            vstd::arithmetic::div_mod::lemma_mod_multiples_basic(q + 1, m);
            vstd::arithmetic::mul::lemma_mul_is_commutative(m, q + 1);
        }
    }
    if rem == 0 {
        t_s
    } else {
        t_s + (interval_s - rem)
    }
}

} // verus!

verus! {

/// Index of the first settlement that is not a multiple of `interval_s`.
pub open spec fn first_misaligned_spec(times: Seq<i64>, interval_s: int) -> Option<int>
    decreases times.len(),
{
    if times.len() == 0 {
        None
    } else if (times[0] as int) % interval_s != 0 {
        Some(0)
    } else {
        match first_misaligned_spec(times.skip(1), interval_s) {
            Some(i) => Some(i + 1),
            None => None,
        }
    }
}

/// The first row whose time does not fall on the `interval_s` settlement
/// grid, if any; the strict-boundary check of the funding loader.
pub fn first_misaligned(times: &Vec<i64>, interval_s: i64) -> (r: Option<usize>)
    requires
        interval_s > 0,
    ensures
        match r {
            Some(i) => first_misaligned_spec(times@, interval_s as int) == Some(i as int),
            None => first_misaligned_spec(times@, interval_s as int) is None,
        },
        match r {
            Some(i) => i < times@.len() && (times@[i as int] as int) % (interval_s as int) != 0
                && forall|p: int| 0 <= p < i ==> (#[trigger] times@[p] as int) % (interval_s as int) == 0,
            None => forall|p: int| 0 <= p < times@.len() ==> (#[trigger] times@[p] as int) % (interval_s as int) == 0,
        },
{
    let n = times.len();
    let mut i: usize = 0;
    assert(times@.skip(0) =~= times@);
    while i < n
        invariant
            n == times@.len(),
            i <= n,
            interval_s > 0,
            forall|p: int| 0 <= p < i ==> (#[trigger] times@[p] as int) % (interval_s as int) == 0,
            first_misaligned_spec(times@, interval_s as int) == (match first_misaligned_spec(times@.skip(i as int), interval_s as int) {
                Some(j) => Some(j + i),
                None => None,
            }),
        decreases n - i,
    {
        let ghost rest = times@.skip(i as int);
        assert(rest[0] == times@[i as int]);
        assert(rest.skip(1) =~= times@.skip(i + 1));
        let rem = match times[i].checked_rem_euclid(interval_s) {
            Some(x) => x,
            None => 0,
        };
        if rem != 0 {
            return Some(i);
        }
        i = i + 1;
    }
    assert(times@.skip(n as int) =~= Seq::<i64>::empty());
    None
}

/// Number of leading entries of `times` at or before `t`.
pub open spec fn leading_at_or_before(times: Seq<i64>, t: int) -> nat
    decreases times.len(),
{
    if times.len() == 0 || times[0] > t {
        0
    } else {
        1 + leading_at_or_before(times.skip(1), t)
    }
}

/// Walks `times` from the start while they are at or before `t` and
/// returns the last row walked over: the most recent record at or before
/// `t` when `times` is in ascending order.
pub fn index_at_or_before(times: &Vec<i64>, t: i64) -> (r: Option<usize>)
    ensures
        r == (if leading_at_or_before(times@, t as int) == 0 {
            None::<usize>
        } else {
            Some((leading_at_or_before(times@, t as int) - 1) as usize)
        }),
{
    let n = times.len();
    let mut last: Option<usize> = None;
    let mut i: usize = 0;
    assert(times@.skip(0) =~= times@);
    while i < n && times[i] <= t
        invariant
            n == times@.len(),
            i <= n,
            leading_at_or_before(times@, t as int) == i + leading_at_or_before(times@.skip(i as int), t as int),
            last == (if i == 0 { None::<usize> } else { Some((i - 1) as usize) }),
        decreases n - i,
    {
        let ghost rest = times@.skip(i as int);
        assert(rest[0] == times@[i as int]);
        assert(rest.skip(1) =~= times@.skip(i + 1));
        last = Some(i);
        i = i + 1;
    }
    proof {
        let rest = times@.skip(i as int);
        if i < n {
            assert(rest[0] == times@[i as int]);
        }
    }
    last
}

proof fn lemma_leading_bounded(times: Seq<i64>, t: int)
    ensures
        leading_at_or_before(times, t) <= times.len(),
    decreases times.len(),
{
    if times.len() > 0 {
        lemma_leading_bounded(times.skip(1), t);
    }
}

/// The value of the row `index_at_or_before` finds: on ascending times,
/// the value in force at `t`, as an as-of lookup reads it.
pub fn value_at_or_before<T: Copy>(times: &Vec<i64>, values: &[T], t: i64) -> (r: Option<T>)
    requires
        values@.len() == times@.len(),
    ensures
        r == (if leading_at_or_before(times@, t as int) == 0 {
            None::<T>
        } else {
            Some(values@[leading_at_or_before(times@, t as int) - 1])
        }),
{
    proof {
        lemma_leading_bounded(times@, t as int);
    }
    match index_at_or_before(times, t) {
        Some(i) => Some(values[i]),
        None => None,
    }
}

/// On ascending times the row found is the latest one at or before `t`,
/// and none is found exactly when every record is later than `t`.
pub proof fn lemma_index_at_or_before_is_latest(times: Seq<i64>, t: int)
    requires
        forall|a: int, b: int| 0 <= a <= b < times.len() ==> times[a] <= times[b],
    ensures
        leading_at_or_before(times, t) <= times.len(),
        forall|p: int| 0 <= p < times.len() ==> (p < leading_at_or_before(times, t) <==> times[p] <= t),
    decreases times.len(),
{
    if times.len() > 0 {
        let rest = times.skip(1);
        assert forall|a: int, b: int| 0 <= a <= b < rest.len() implies rest[a] <= rest[b] by {
            assert(rest[a] == times[a + 1] && rest[b] == times[b + 1]);
        }
        lemma_index_at_or_before_is_latest(rest, t);
        assert forall|p: int| 0 <= p < times.len() implies (p < leading_at_or_before(times, t) <==> times[p] <= t) by {
            if p > 0 {
                assert(times[p] == rest[p - 1]);
                assert(times[0] <= times[p]);
            }
        }
    }
}

/// The distinct times of `raw` in ascending order, each with the last raw
/// row that carries it.
pub open spec fn is_last_wins_dedup(raw: Seq<i64>, times: Seq<i64>, rows: Seq<usize>) -> bool {
    &&& times.len() == rows.len()
    &&& forall|a: int, b: int| 0 <= a < b < times.len() ==> times[a] < times[b]
    &&& forall|k: int| 0 <= k < rows.len() ==> (#[trigger] rows[k]) < raw.len() && raw[rows[k] as int] == times[k]
    &&& forall|k: int, p: int| 0 <= k < rows.len() && rows[k] < p < raw.len() ==> #[trigger] raw[p] != #[trigger] times[k]
    &&& forall|p: int| 0 <= p < raw.len() ==> times.contains(#[trigger] raw[p])
}

} // verus!
