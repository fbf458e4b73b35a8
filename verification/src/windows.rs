//! Index arithmetic of the backtest: pandas-style `iloc` positions, UTC
//! clock fields, the look-back search grid, equity-segment splits and the
//! walk-forward window schedule.
use vstd::prelude::*;

verus! {

/// Reference look-back of the default strategy.
pub const DEFAULT_LB: usize = 50;

/// pandas `iloc` position of `idx` in a frame of `length` rows: negative
/// positions count from the end, and out-of-range positions clamp to the
/// frame (`length` above, `0` below).
pub open spec fn spec_iloc_idx(idx: int, length: int) -> int {
    if idx >= 0 {
        if idx < length { idx } else { length }
    } else if -idx <= length {
        length + idx
    } else {
        0
    }
}

/// Resolves a Python `iloc` position into a row index in `0..=length`.
pub fn python_iloc_idx(idx: isize, length: usize) -> (r: usize)
    requires
        idx > isize::MIN,
        length <= isize::MAX,
    ensures
        r as int == spec_iloc_idx(idx as int, length as int),
        r <= length,
{
    if idx >= 0 {
        let u = idx as usize;
        if u < length { u } else { length }
    } else if ((-idx) as usize) <= length {
        (length as isize + idx) as usize
    } else {
        0
    }
}

/// pandas `iloc[start:end]` resolved to a half-open row range; an inverted
/// range collapses to the empty range at its start.
pub open spec fn spec_iloc_slice(start_raw: int, end_raw: int, length: int) -> (int, int) {
    let s = spec_iloc_idx(start_raw, length);
    let e = spec_iloc_idx(end_raw, length);
    if s >= e { (s, s) } else { (s, e) }
}

fn iloc_idx_i64(idx: i64, length: usize) -> (r: usize)
    requires
        idx > i64::MIN,
        length <= i64::MAX,
    ensures
        r as int == spec_iloc_idx(idx as int, length as int),
        r <= length,
{
    let len = length as i64;
    if idx >= 0 {
        if idx < len { idx as usize } else { length }
    } else if -idx <= len {
        (len + idx) as usize
    } else {
        0
    }
}

/// Resolves a Python `iloc[start_raw:end_raw]` slice into `(start, end)`
/// row indices with `start <= end <= length`.
pub fn python_iloc_slice(start_raw: i64, end_raw: i64, length: usize) -> (r: (usize, usize))
    requires
        start_raw > i64::MIN,
        end_raw > i64::MIN,
        length <= i64::MAX,
    ensures
        (r.0 as int, r.1 as int) == spec_iloc_slice(start_raw as int, end_raw as int, length as int),
        r.0 <= r.1 <= length,
{
    let s = iloc_idx_i64(start_raw, length);
    let e = iloc_idx_i64(end_raw, length);
    if s >= e { (s, s) } else { (s, e) }
}

/// Seconds since midnight UTC of a unix timestamp.
pub open spec fn seconds_of_day(unix_ts: int) -> int {
    unix_ts % 86400
}

/// UTC hour and minute of a unix timestamp (negative timestamps count
/// back from the epoch).
pub fn utc_hour_minute(unix_ts: i64) -> (r: (u32, u32))
    ensures
        r.0 as int == seconds_of_day(unix_ts as int) / 3600,
        r.1 as int == seconds_of_day(unix_ts as int) % 3600 / 60,
        r.0 < 24,
        r.1 < 60,
{
    let secs = match unix_ts.checked_rem_euclid(86400) {
        Some(x) => x,
        None => 0,
    };
    assert(0 <= secs < 86400);
    let hour = (secs / 3600) as u32;
    let minute = ((secs % 3600) / 60) as u32;
    (hour, minute)
}

/// The clock reading of a timestamp: `ts` is a whole number of days, plus
/// the hour times 3600, plus the minute times 60, plus under a minute; and
/// the funding-bar test holds exactly on the first minute of each eight-hour
/// settlement period counted from midnight UTC.
pub proof fn lemma_clock_reading(ts: int)
    ensures
        ({
            let h = seconds_of_day(ts) / 3600;
            let m = seconds_of_day(ts) % 3600 / 60;
            &&& 0 <= h < 24
            &&& 0 <= m < 60
            &&& 0 <= ts - 86400 * (ts / 86400) - 3600 * h - 60 * m < 60
            &&& (m == 0 && (h == 0 || h == 8 || h == 16)) == (ts % 28800 < 60)
        }),
{
    let d = seconds_of_day(ts);
    let h = d / 3600;
    let m = d % 3600 / 60;
    vstd::arithmetic::div_mod::lemma_fundamental_div_mod(ts, 86400);
    vstd::arithmetic::div_mod::lemma_fundamental_div_mod(d, 3600);
    vstd::arithmetic::div_mod::lemma_fundamental_div_mod(d % 3600, 60);
    assert(0 <= d < 86400);
    assert(0 <= h < 24) by {
        vstd::arithmetic::div_mod::lemma_div_pos_is_pos(d, 3600);
        vstd::arithmetic::div_mod::lemma_div_is_ordered(d, 86399, 3600);
    }
    assert(0 <= m < 60) by {
        vstd::arithmetic::div_mod::lemma_div_pos_is_pos(d % 3600, 60);
        vstd::arithmetic::div_mod::lemma_div_is_ordered(d % 3600, 3599, 60);
    }
    let sec = d % 3600 % 60;
    assert(d == 3600 * h + 60 * m + sec);
    assert(ts - 86400 * (ts / 86400) == d);
    // the period offset: ts % 28800 == d % 28800, and d = 28800 * (h / 8) + 3600 * (h % 8) + 60 * m + sec
    let p = h / 8;
    vstd::arithmetic::div_mod::lemma_fundamental_div_mod(h, 8);
    let within = 3600 * (h % 8) + 60 * m + sec;
    assert(d == 28800 * p + within);
    assert(0 <= within < 28800);
    assert(ts == 28800 * (3 * (ts / 86400) + p) + within) by (nonlinear_arith)
        requires ts == 86400 * (ts / 86400) + d, d == 28800 * p + within;
    vstd::arithmetic::div_mod::lemma_mod_multiples_vanish(3 * (ts / 86400) + p, within, 28800);
    vstd::arithmetic::div_mod::lemma_small_mod(within as nat, 28800);
    assert(ts % 28800 == within);
}

/// Perpetual funding settles on the hour at 00:00, 08:00 and 16:00 UTC.
pub fn is_funding_bar(unix_ts: i64) -> (r: bool)
    ensures
        r == (seconds_of_day(unix_ts as int) % 3600 / 60 == 0 && (seconds_of_day(unix_ts as int) / 3600
            == 0 || seconds_of_day(unix_ts as int) / 3600 == 8 || seconds_of_day(unix_ts as int) / 3600
            == 16)),
{
    let (h, m) = utc_hour_minute(unix_ts);
    m == 0 && (h == 0 || h == 8 || h == 16)
}

/// A bar is inside the session when its UTC hour is in `[start_hour, end_hour)`.
pub fn in_session_hours(unix_ts: i64, start_hour: u32, end_hour: u32) -> (r: bool)
    ensures
        r == (start_hour <= seconds_of_day(unix_ts as int) / 3600 < end_hour),
{
    let (h, _m) = utc_hour_minute(unix_ts);
    h >= start_hour && h < end_hour
}

/// The look-back grid the optimiser searches: from a quarter of the
/// reference look-back up to one and a half times it, inclusive.
pub fn lookback_range() -> (r: Vec<usize>)
    ensures
        r@.len() == DEFAULT_LB * 3 / 2 + 1 - DEFAULT_LB / 4,
        forall|i: int| 0 <= i < r@.len() ==> #[trigger] r@[i] == DEFAULT_LB / 4 + i,
{
    let lo = DEFAULT_LB / 4;
    let hi = DEFAULT_LB * 3 / 2 + 1;
    let mut r: Vec<usize> = Vec::new();
    let mut lb = lo;
    while lb < hi
        invariant
            lo <= lb <= hi,
            lo == DEFAULT_LB / 4,
            hi == DEFAULT_LB * 3 / 2 + 1,
            r@.len() == lb - lo,
            forall|i: int| 0 <= i < r@.len() ==> #[trigger] r@[i] == lo + i,
        decreases hi - lb,
    {
        r.push(lb);
        lb = lb + 1;
    }
    r
}

/// Every other entry of a grid, starting with the first: the coarse pass
/// of the optimiser.
pub fn coarse_grid(all: &[usize]) -> (r: Vec<usize>)
    ensures
        r@.len() == (all@.len() + 1) / 2,
        forall|k: int| 0 <= k < r@.len() ==> #[trigger] r@[k] == all@[2 * k],
{
    let n = all.len();
    let half = n / 2 + n % 2;
    let mut r: Vec<usize> = Vec::new();
    let mut k: usize = 0;
    while k < half
        invariant
            n == all@.len(),
            half == (n + 1) / 2,
            k <= half,
            r@.len() == k,
            forall|j: int| 0 <= j < k ==> #[trigger] r@[j] == all@[2 * j],
        decreases half - k,
    {
        r.push(all[2 * k]);
        k = k + 1;
    }
    r
}

/// Start of segment `k` when `n` rows are cut into five back-loaded
/// segments of lengths `(n + j) / 5`.
pub open spec fn back_loaded_start(n: int, k: int) -> int
    decreases k,
{
    if k <= 0 { 0 } else { back_loaded_start(n, k - 1) + (n + k - 1) / 5 }
}

/// Start of segment `k` when `n` rows are cut into five front-loaded
/// segments: the first `n % 5` segments hold one row more.
pub open spec fn front_loaded_start(n: int, k: int) -> int
    decreases k,
{
    if k <= 0 { 0 } else { front_loaded_start(n, k - 1) + n / 5 + (if k - 1 < n % 5 { 1int } else { 0 }) }
}

proof fn lemma_five_segments_cover(n: int)
    requires
        n >= 0,
    ensures
        back_loaded_start(n, 5) == n,
        front_loaded_start(n, 5) == n,
        forall|k: int| 0 <= k < 5 ==> back_loaded_start(n, k) <= #[trigger] back_loaded_start(n, k + 1),
        forall|k: int| 0 <= k < 5 ==> front_loaded_start(n, k) <= #[trigger] front_loaded_start(n, k + 1),
{
    let q = n / 5;
    let r = n % 5;
    assert(n == 5 * q + r && 0 <= r < 5) by {
        vstd::arithmetic::div_mod::lemma_fundamental_div_mod(n, 5);
    }
    assert((n + 0) / 5 == q + (if r >= 5 { 1int } else { 0 }));
    assert((n + 1) / 5 == q + (if r + 1 >= 5 { 1int } else { 0 }));
    assert((n + 2) / 5 == q + (if r + 2 >= 5 { 1int } else { 0 }));
    assert((n + 3) / 5 == q + (if r + 3 >= 5 { 1int } else { 0 }));
    assert((n + 4) / 5 == q + (if r + 4 >= 5 { 1int } else { 0 }));
    assert(back_loaded_start(n, 1) == back_loaded_start(n, 0) + (n + 0) / 5);
    assert(back_loaded_start(n, 2) == back_loaded_start(n, 1) + (n + 1) / 5);
    assert(back_loaded_start(n, 3) == back_loaded_start(n, 2) + (n + 2) / 5);
    assert(back_loaded_start(n, 4) == back_loaded_start(n, 3) + (n + 3) / 5);
    assert(back_loaded_start(n, 5) == back_loaded_start(n, 4) + (n + 4) / 5);
    assert(front_loaded_start(n, 5) == front_loaded_start(n, 4) + q + (if 4 < r { 1int } else { 0 }));
    assert(front_loaded_start(n, 4) == front_loaded_start(n, 3) + q + (if 3 < r { 1int } else { 0 }));
    assert(front_loaded_start(n, 3) == front_loaded_start(n, 2) + q + (if 2 < r { 1int } else { 0 }));
    assert(front_loaded_start(n, 2) == front_loaded_start(n, 1) + q + (if 1 < r { 1int } else { 0 }));
    assert(front_loaded_start(n, 1) == front_loaded_start(n, 0) + q + (if 0 < r { 1int } else { 0 }));
    assert(q >= 0);
}

/// Cuts `arr` into five consecutive segments of lengths `(n + k) / 5`
/// for `k` in `0..5`; together they are `arr` in order.
pub fn split_into_5<T: Copy>(arr: &[T]) -> (r: Vec<Vec<T>>)
    ensures
        r@.len() == 5,
        forall|k: int| 0 <= k < 5 ==> (#[trigger] r@[k])@ == arr@.subrange(
            back_loaded_start(arr@.len() as int, k),
            back_loaded_start(arr@.len() as int, k + 1),
        ),
        back_loaded_start(arr@.len() as int, 5) == arr@.len(),
{
    let n = arr.len();
    proof {
        lemma_five_segments_cover(n as int);
    }
    let mut r: Vec<Vec<T>> = Vec::new();
    let mut start: usize = 0;
    let mut k: usize = 0;
    while k < 5
        invariant
            n == arr@.len(),
            k <= 5,
            start as int == back_loaded_start(n as int, k as int),
            back_loaded_start(n as int, 5) == n,
            forall|j: int| 0 <= j < 5 ==> back_loaded_start(n as int, j) <= #[trigger] back_loaded_start(n as int, j + 1),
            r@.len() == k,
            forall|j: int| 0 <= j < k ==> (#[trigger] r@[j])@ == arr@.subrange(
                back_loaded_start(n as int, j),
                back_loaded_start(n as int, j + 1),
            ),
        decreases 5 - k,
    {
        proof {
            lemma_start_bounded(n as int, k as int);
        }
        let part = n / 5 + (n % 5 + k) / 5;
        assert(part as int == (n as int + k as int) / 5) by {
            vstd::arithmetic::div_mod::lemma_fundamental_div_mod(n as int, 5);
            vstd::arithmetic::div_mod::lemma_fundamental_div_mod(n as int + k as int, 5);
        }
        let end = start + part;
        assert(end as int == back_loaded_start(n as int, k + 1));
        let mut seg: Vec<T> = Vec::new();
        let mut i = start;
        while i < end
            invariant
                start <= i <= end,
                end <= n,
                n == arr@.len(),
                seg@ == arr@.subrange(start as int, i as int),
            decreases end - i,
        {
            seg.push(arr[i]);
            assert(arr@.subrange(start as int, i + 1) =~= arr@.subrange(start as int, i as int).push(arr@[i as int]));
            i = i + 1;
        }
        r.push(seg);
        start = end;
        k = k + 1;
    }
    r
}

proof fn lemma_start_bounded(n: int, k: int)
    requires
        0 <= k < 5,
        back_loaded_start(n, 5) == n,
        forall|j: int| 0 <= j < 5 ==> back_loaded_start(n, j) <= #[trigger] back_loaded_start(n, j + 1),
    ensures
        back_loaded_start(n, k + 1) <= n,
    decreases 5 - k,
{
    if k < 4 {
        lemma_start_bounded(n, k + 1);
    }
}

/// Half-open row ranges of five consecutive segments of `n` rows where the
/// first `n % 5` segments hold one row more; they cover `0..n` in order.
pub fn front_loaded_segments(n: usize) -> (r: Vec<(usize, usize)>)
    ensures
        r@.len() == 5,
        forall|k: int| 0 <= k < 5 ==> (#[trigger] r@[k]).0 == front_loaded_start(n as int, k) && r@[k].1
            == front_loaded_start(n as int, k + 1),
        front_loaded_start(n as int, 5) == n,
{
    proof {
        lemma_five_segments_cover(n as int);
    }
    let quotient = n / 5;
    let remainder = n % 5;
    let mut r: Vec<(usize, usize)> = Vec::new();
    let mut start: usize = 0;
    let mut k: usize = 0;
    while k < 5
        invariant
            k <= 5,
            quotient == n / 5,
            remainder == n % 5,
            start as int == front_loaded_start(n as int, k as int),
            front_loaded_start(n as int, 5) == n,
            forall|j: int| 0 <= j < 5 ==> front_loaded_start(n as int, j) <= #[trigger] front_loaded_start(n as int, j + 1),
            r@.len() == k,
            forall|j: int| 0 <= j < k ==> (#[trigger] r@[j]).0 == front_loaded_start(n as int, j) && r@[j].1
                == front_loaded_start(n as int, j + 1),
        decreases 5 - k,
    {
        proof {
            lemma_front_start_bounded(n as int, k as int);
        }
        let length = quotient + (if k < remainder { 1usize } else { 0 });
        let end = start + length;
        r.push((start, end));
        start = end;
        k = k + 1;
    }
    r
}

proof fn lemma_front_start_bounded(n: int, k: int)
    requires
        0 <= k < 5,
        front_loaded_start(n, 5) == n,
        forall|j: int| 0 <= j < 5 ==> front_loaded_start(n, j) <= #[trigger] front_loaded_start(n, j + 1),
    ensures
        front_loaded_start(n, k + 1) <= n,
    decreases 5 - k,
{
    if k < 4 {
        lemma_front_start_bounded(n, k + 1);
    }
}

/// Drops the newest `age` bars, keeping the oldest ones in order.
pub fn age_dataset<T>(bars: Vec<T>, age: usize) -> (r: Vec<T>)
    requires
        age <= bars@.len(),
    ensures
        r@ == bars@.take(bars@.len() - age),
{
    if age == 0 {
        assert(bars@.take(bars@.len() as int) =~= bars@);
        return bars;
    }
    let mut b = bars;
    let keep = b.len() - age;
    b.truncate(keep);
    b
}


/// One walk-forward window: in-sample rows `is_start..is_end` and
/// out-of-sample rows `oos_start..oos_end`.
#[derive(Debug, Clone, Copy, PartialEq, Eq, Structural)]
pub struct WfoWindow {
    pub is_start: usize,
    pub is_end: usize,
    pub oos_start: usize,
    pub oos_end: usize,
}

/// A walk-forward window as row indices.
pub struct WindowView {
    pub is_start: int,
    pub is_end: int,
    pub oos_start: int,
    pub oos_end: int,
}

impl View for WfoWindow {
    type V = WindowView;

    open spec fn view(&self) -> WindowView {
        WindowView {
            is_start: self.is_start as int,
            is_end: self.is_end as int,
            oos_start: self.oos_start as int,
            oos_end: self.oos_end as int,
        }
    }
}

/// The window for the out-of-sample span `[c, c2)` (Python positions, so
/// possibly negative) with `bt` in-sample bars before it.
pub open spec fn window_at(c: int, c2: int, n: int, bt: int) -> WindowView {
    let is = spec_iloc_slice(c - bt, c, n);
    let oos = spec_iloc_slice(c, c2, n);
    WindowView { is_start: is.0, is_end: is.1, oos_start: oos.0, oos_end: oos.1 }
}

/// Walk-forward windows from position `c`: each out-of-sample span is
/// `step` bars long (cut at `n`), the next one starting where it ends.
pub open spec fn wfo_schedule(c: int, n: int, bt: int, step: int) -> Seq<WindowView>
    decreases n - c,
{
    if step <= 0 || c >= n {
        Seq::empty()
    } else {
        let c2 = if c + step < n { c + step } else { n };
        seq![window_at(c, c2, n, bt)] + wfo_schedule(c2, n, bt, step)
    }
}

/// The candle-triggered walk-forward schedule over `n` bars: out-of-sample
/// spans of `step` bars starting `oos_candles` bars before the end, each
/// preceded by `backtest_candles` in-sample bars, positions resolved as
/// pandas `iloc` does.
pub fn walk_forward_windows(n: usize, oos_candles: usize, backtest_candles: usize, step: usize) -> (r: Vec<WfoWindow>)
    requires
        step > 0,
        n + step <= i64::MAX,
        oos_candles <= i64::MAX,
        backtest_candles <= i64::MAX,
        n - oos_candles - backtest_candles > i64::MIN,
    ensures
        r@.map_values(|w: WfoWindow| w@) == wfo_schedule(
            n - oos_candles,
            n as int,
            backtest_candles as int,
            step as int,
        ),
{
    let ni = n as i64;
    let bt = backtest_candles as i64;
    let st = step as i64;
    let mut cur_start: i64 = ni - oos_candles as i64;
    let mut r: Vec<WfoWindow> = Vec::new();
    while cur_start < ni
        invariant
            ni == n,
            bt == backtest_candles,
            st == step,
            step > 0,
            n + step <= i64::MAX,
            cur_start - bt > i64::MIN,
            cur_start >= n - oos_candles,
            r@.map_values(|w: WfoWindow| w@) + wfo_schedule(cur_start as int, n as int, bt as int, st as int)
                == wfo_schedule(n - oos_candles, n as int, bt as int, st as int),
        decreases ni - cur_start,
    {
        let cur_end = if cur_start + st < ni { cur_start + st } else { ni };
        let is = python_iloc_slice(cur_start - bt, cur_start, n);
        let oos = python_iloc_slice(cur_start, cur_end, n);
        let ghost before = r@.map_values(|w: WfoWindow| w@);
        r.push(WfoWindow { is_start: is.0, is_end: is.1, oos_start: oos.0, oos_end: oos.1 });
        assert(r@.map_values(|w: WfoWindow| w@) =~= before + seq![window_at(cur_start as int, cur_end as int, n as int, bt as int)]);
        assert(before + wfo_schedule(cur_start as int, n as int, bt as int, st as int)
            =~= before + seq![window_at(cur_start as int, cur_end as int, n as int, bt as int)]
            + wfo_schedule(cur_end as int, n as int, bt as int, st as int));
        cur_start = cur_end;
    }
    assert(wfo_schedule(cur_start as int, n as int, bt as int, st as int) =~= Seq::<WindowView>::empty());
    assert(r@.map_values(|w: WfoWindow| w@) =~= wfo_schedule(n - oos_candles, n as int, bt as int, st as int));
    r
}

/// No look-ahead: whenever a window's in-sample range is not empty it ends
/// exactly where that window's out-of-sample range starts.
pub proof fn lemma_in_sample_ends_at_out_of_sample(c: int, n: int, bt: int, step: int)
    requires
        n >= 0,
        bt >= 0,
    ensures
        forall|k: int|
            0 <= k < wfo_schedule(c, n, bt, step).len() && (#[trigger] wfo_schedule(c, n, bt, step)[k]).is_start
                < wfo_schedule(c, n, bt, step)[k].is_end ==> wfo_schedule(c, n, bt, step)[k].is_end
                == wfo_schedule(c, n, bt, step)[k].oos_start,
    decreases n - c,
{
    if !(step <= 0 || c >= n) {
        let c2 = if c + step < n { c + step } else { n };
        lemma_in_sample_ends_at_out_of_sample(c2, n, bt, step);
        let s = wfo_schedule(c, n, bt, step);
        let rest = wfo_schedule(c2, n, bt, step);
        assert forall|k: int|
            0 <= k < s.len() && (#[trigger] s[k]).is_start < s[k].is_end implies s[k].is_end == s[k].oos_start by {
            if k > 0 {
                assert(s[k] == rest[k - 1]);
            }
        }
    }
}

/// When the out-of-sample stretch fits inside the data, the windows'
/// out-of-sample ranges are non-empty and tile `[c, n)` in order.
pub proof fn lemma_out_of_sample_tiles(c: int, n: int, bt: int, step: int)
    requires
        0 <= c < n,
        step > 0,
    ensures
        wfo_schedule(c, n, bt, step).len() > 0,
        wfo_schedule(c, n, bt, step)[0].oos_start == c,
        wfo_schedule(c, n, bt, step).last().oos_end == n,
        forall|k: int|
            0 <= k < wfo_schedule(c, n, bt, step).len() ==> (#[trigger] wfo_schedule(c, n, bt, step)[k]).oos_start
                < wfo_schedule(c, n, bt, step)[k].oos_end,
        forall|k: int|
            0 <= k < wfo_schedule(c, n, bt, step).len() - 1 ==> (#[trigger] wfo_schedule(c, n, bt, step)[k]).oos_end
                == wfo_schedule(c, n, bt, step)[k + 1].oos_start,
    decreases n - c,
{
    let c2 = if c + step < n { c + step } else { n };
    let s = wfo_schedule(c, n, bt, step);
    let rest = wfo_schedule(c2, n, bt, step);
    assert(s[0] == window_at(c, c2, n, bt));
    if c2 < n {
        lemma_out_of_sample_tiles(c2, n, bt, step);
        assert(s.last() == rest.last());
        assert forall|k: int| 0 <= k < s.len() implies (#[trigger] s[k]).oos_start < s[k].oos_end by {
            if k > 0 {
                assert(s[k] == rest[k - 1]);
            }
        }
        assert forall|k: int| 0 <= k < s.len() - 1 implies (#[trigger] s[k]).oos_end == s[k + 1].oos_start by {
            assert(s[k + 1] == rest[k]);
            if k > 0 {
                assert(s[k] == rest[k - 1]);
            }
        }
    } else {
        assert(rest =~= Seq::<WindowView>::empty());
        assert(s =~= seq![window_at(c, c2, n, bt)]);
    }
}

/// pandas `iloc` positions: a position inside the frame is itself, a
/// negative one counts back from the end, and out-of-range positions clamp
/// to `0` below and `length` above; the result is always in `0..=length`.
pub proof fn lemma_iloc_position_rules(idx: int, length: int)
    requires
        length >= 0,
    ensures
        0 <= spec_iloc_idx(idx, length) <= length,
        0 <= idx < length ==> spec_iloc_idx(idx, length) == idx,
        -length <= idx < 0 ==> spec_iloc_idx(idx, length) + (-idx) == length,
        idx >= length ==> spec_iloc_idx(idx, length) == length,
        idx < -length ==> spec_iloc_idx(idx, length) == 0,
        spec_iloc_slice(idx, idx, length).0 == spec_iloc_slice(idx, idx, length).1,
{
}

/// The five back-loaded segments split `n` rows evenly: they start at `0`,
/// end at `n`, and their lengths never decrease and differ by at most one.
/// The front-loaded ones do the same with lengths that never increase.
pub proof fn lemma_five_segments_are_balanced(n: int)
    requires
        n >= 0,
    ensures
        back_loaded_start(n, 0) == 0 && back_loaded_start(n, 5) == n,
        front_loaded_start(n, 0) == 0 && front_loaded_start(n, 5) == n,
        forall|k: int|
            0 <= k < 4 ==> back_loaded_start(n, k + 1) - back_loaded_start(n, k) <= #[trigger] back_loaded_start(n, k + 2)
                - back_loaded_start(n, k + 1),
        back_loaded_start(n, 5) - back_loaded_start(n, 4) <= back_loaded_start(n, 1) - back_loaded_start(n, 0) + 1,
        forall|k: int|
            0 <= k < 4 ==> front_loaded_start(n, k + 1) - front_loaded_start(n, k) >= #[trigger] front_loaded_start(
                n,
                k + 2,
            ) - front_loaded_start(n, k + 1),
        front_loaded_start(n, 1) - front_loaded_start(n, 0) <= front_loaded_start(n, 5) - front_loaded_start(n, 4) + 1,
        front_loaded_start(n, 5) - front_loaded_start(n, 4) >= 0,
{
    lemma_five_segments_cover(n);
    let q = n / 5;
    let r = n % 5;
    assert(n == 5 * q + r && 0 <= r < 5) by {
        vstd::arithmetic::div_mod::lemma_fundamental_div_mod(n, 5);
    }
    assert((n + 0) / 5 == q + (if r >= 5 { 1int } else { 0 }));
    assert((n + 1) / 5 == q + (if r + 1 >= 5 { 1int } else { 0 }));
    assert((n + 2) / 5 == q + (if r + 2 >= 5 { 1int } else { 0 }));
    assert((n + 3) / 5 == q + (if r + 3 >= 5 { 1int } else { 0 }));
    assert((n + 4) / 5 == q + (if r + 4 >= 5 { 1int } else { 0 }));
    assert(back_loaded_start(n, 1) == back_loaded_start(n, 0) + (n + 0) / 5);
    assert(back_loaded_start(n, 2) == back_loaded_start(n, 1) + (n + 1) / 5);
    assert(back_loaded_start(n, 3) == back_loaded_start(n, 2) + (n + 2) / 5);
    assert(back_loaded_start(n, 4) == back_loaded_start(n, 3) + (n + 3) / 5);
    assert(back_loaded_start(n, 5) == back_loaded_start(n, 4) + (n + 4) / 5);
    assert(back_loaded_start(n, 6) == back_loaded_start(n, 5) + (n + 5) / 5);
    assert(front_loaded_start(n, 1) == front_loaded_start(n, 0) + q + (if 0 < r { 1int } else { 0 }));
    assert(front_loaded_start(n, 2) == front_loaded_start(n, 1) + q + (if 1 < r { 1int } else { 0 }));
    assert(front_loaded_start(n, 3) == front_loaded_start(n, 2) + q + (if 2 < r { 1int } else { 0 }));
    assert(front_loaded_start(n, 4) == front_loaded_start(n, 3) + q + (if 3 < r { 1int } else { 0 }));
    assert(front_loaded_start(n, 5) == front_loaded_start(n, 4) + q + (if 4 < r { 1int } else { 0 }));
    assert(front_loaded_start(n, 6) == front_loaded_start(n, 5) + q + (if 5 < r { 1int } else { 0 }));
}

/// When the first out-of-sample position lies inside the data and has at
/// least `bt` rows before it, every walk-forward window has exactly `bt`
/// in-sample rows ending where its out-of-sample rows begin, and every
/// out-of-sample span is `step` rows long except the last, which is no
/// longer.
pub proof fn lemma_window_lengths(c: int, n: int, bt: int, step: int)
    requires
        0 <= bt <= c < n,
        step > 0,
    ensures
        forall|k: int|
            0 <= k < wfo_schedule(c, n, bt, step).len() ==> {
                let w = #[trigger] wfo_schedule(c, n, bt, step)[k];
                &&& w.is_end - w.is_start == bt
                &&& w.is_end == w.oos_start
                &&& 0 < w.oos_end - w.oos_start <= step
                &&& k < wfo_schedule(c, n, bt, step).len() - 1 ==> w.oos_end - w.oos_start == step
            },
    decreases n - c,
{
    let c2 = if c + step < n { c + step } else { n };
    let s = wfo_schedule(c, n, bt, step);
    let rest = wfo_schedule(c2, n, bt, step);
    assert(s == seq![window_at(c, c2, n, bt)] + rest);
    if c2 < n {
        lemma_window_lengths(c2, n, bt, step);
    } else {
        assert(rest.len() == 0);
    }
    assert forall|k: int| 0 <= k < s.len() implies {
        let w = #[trigger] s[k];
        &&& w.is_end - w.is_start == bt
        &&& w.is_end == w.oos_start
        &&& 0 < w.oos_end - w.oos_start <= step
        &&& k < s.len() - 1 ==> w.oos_end - w.oos_start == step
    } by {
        if k > 0 {
            assert(s[k] == rest[k - 1]);
        }
    }
}

} // verus!
