//! Entry/exit codes and the per-bar position decisions of the backtest.
//!
//! A strategy emits a raw position per bar (`+1` long, `-1` short, `0`
//! none).  `parse_signals` turns position flips into entry codes (`1` enter
//! long, `3` enter short); exits arrive as `2` (exit long) and `4` (exit
//! short).  `bar_decision` is what the backtest does with one bar's code.
use vstd::prelude::*;

verus! {

/// The side (`1` or `-1`) of the last raw bar before `i` that asked for a
/// position, or `0` if none did.
pub open spec fn last_side(raw: Seq<i8>, i: int) -> i8
    decreases i,
{
    if i <= 0 {
        0
    } else if raw[i - 1] == 1 || raw[i - 1] == -1 {
        raw[i - 1]
    } else {
        last_side(raw, i - 1)
    }
}

/// The code `parse_signals` emits at bar `i`: an entry when the raw side
/// differs from the last side asked for, nothing otherwise.
pub open spec fn flip_code(raw: Seq<i8>, i: int) -> i8 {
    if raw[i] == 1 && last_side(raw, i) != 1 {
        1
    } else if raw[i] == -1 && last_side(raw, i) != -1 {
        3
    } else {
        0
    }
}

/// Flip detection: `1` where the raw position turns long, `3` where it
/// turns short, `0` elsewhere.
pub fn parse_signals(raw: &[i8]) -> (sig: Vec<i8>)
    ensures
        sig@.len() == raw@.len(),
        forall|i: int| 0 <= i < raw@.len() ==> #[trigger] sig@[i] == flip_code(raw@, i),
{
    let n = raw.len();
    let mut sig: Vec<i8> = Vec::new();
    let mut pos: i8 = 0;
    let mut i: usize = 0;
    while i < n
        invariant
            n == raw@.len(),
            i <= n,
            sig@.len() == i,
            pos == last_side(raw@, i as int),
            forall|k: int| 0 <= k < i ==> #[trigger] sig@[k] == flip_code(raw@, k),
        decreases n - i,
    {
        let r = raw[i];
        if r == 1 && pos != 1 {
            sig.push(1);
            pos = 1;
        } else if r == -1 && pos != -1 {
            sig.push(3);
            pos = -1;
        } else {
            sig.push(0);
            if r == 1 || r == -1 {
                pos = r;
            }
        }
        i = i + 1;
    }
    sig
}

proof fn lemma_side_kept(raw: Seq<i8>, i: int, j: int)
    requires
        0 <= i < j <= raw.len(),
        raw[i] == 1 || raw[i] == -1,
        forall|k: int| i < k < j ==> flip_code(raw, k) == 0,
        last_side(raw, i + 1) == raw[i],
    ensures
        last_side(raw, j) == raw[i],
    decreases j - i,
{
    if j > i + 1 {
        lemma_side_kept(raw, i, j - 1);
        assert(flip_code(raw, j - 1) == 0);
    }
}

/// Entries alternate: between two consecutive non-zero codes the side
/// always changes, so `parse_signals` never enters the same side twice in
/// a row.
pub proof fn lemma_entries_alternate(raw: Seq<i8>, i: int, j: int)
    requires
        0 <= i < j < raw.len(),
        flip_code(raw, i) != 0,
        flip_code(raw, j) != 0,
        forall|k: int| i < k < j ==> flip_code(raw, k) == 0,
    ensures
        flip_code(raw, i) != flip_code(raw, j),
{
    lemma_side_kept(raw, i, j);
}

/// The code `drift_entries` leaves at bar `k`: exits stay on their bar,
/// entries move one bar later.
pub open spec fn drifted_code(sig: Seq<i8>, k: int) -> i8 {
    if sig[k] == 2 || sig[k] == 4 {
        sig[k]
    } else if k > 0 && (sig[k - 1] == 1 || sig[k - 1] == 3) {
        sig[k - 1]
    } else {
        0
    }
}

/// Delays every entry code by one bar (an entry on the last bar is
/// dropped); exit codes stay where they are and win over a delayed entry.
pub fn drift_entries(sig: &[i8]) -> (out: Vec<i8>)
    ensures
        out@.len() == sig@.len(),
        forall|k: int| 0 <= k < sig@.len() ==> #[trigger] out@[k] == drifted_code(sig@, k),
{
    let n = sig.len();
    let mut out: Vec<i8> = Vec::new();
    let mut k: usize = 0;
    while k < n
        invariant
            n == sig@.len(),
            k <= n,
            out@.len() == k,
            forall|p: int| 0 <= p < k ==> #[trigger] out@[p] == drifted_code(sig@, p),
        decreases n - k,
    {
        let code = sig[k];
        let v: i8 = if code == 2 || code == 4 {
            code
        } else if k > 0 && (sig[k - 1] == 1 || sig[k - 1] == 3) {
            sig[k - 1]
        } else {
            0
        };
        out.push(v);
        k = k + 1;
    }
    out
}

/// A position is flat (`0`), long (`1`) or short (`-1`).
pub open spec fn is_position(p: i8) -> bool {
    p == 0 || p == 1 || p == -1
}

/// Stop-loss and take-profit levels are checked on a bar only while a
/// position is open and the bar's code is not an entry.
pub fn checks_stops(open_pos: i8, code: i8) -> (r: bool)
    ensures
        r == (open_pos != 0 && code != 1 && code != 3),
{
    open_pos != 0 && code != 1 && code != 3
}

/// What the backtest does on one bar.
#[derive(Debug, Clone, Copy, PartialEq, Eq, Structural)]
pub struct BarDecision {
    /// The open position is closed at its stop-loss or take-profit level.
    pub stop_exit: bool,
    /// The open position is closed at the bar's open price.
    pub close_at_open: bool,
    /// The side entered at the bar's open price, `0` for none.
    pub open_side: i8,
    /// The position after the bar.
    pub next_pos: i8,
}

/// The decision for a bar with code `code` while holding `open_pos`, given
/// whether a stop level was hit (read only when `checks_stops` holds).
pub open spec fn spec_bar_decision(open_pos: i8, code: i8, stop_hit: bool) -> BarDecision {
    if open_pos != 0 && code != 1 && code != 3 && stop_hit {
        BarDecision { stop_exit: true, close_at_open: false, open_side: 0, next_pos: 0 }
    } else if code == 1 {
        if open_pos == 1 {
            BarDecision { stop_exit: false, close_at_open: false, open_side: 0, next_pos: 1 }
        } else {
            BarDecision { stop_exit: false, close_at_open: open_pos == -1, open_side: 1, next_pos: 1 }
        }
    } else if code == 3 {
        if open_pos == -1 {
            BarDecision { stop_exit: false, close_at_open: false, open_side: 0, next_pos: -1i8 }
        } else {
            BarDecision { stop_exit: false, close_at_open: open_pos == 1, open_side: -1i8, next_pos: -1i8 }
        }
    } else if (code == 2 && open_pos == 1) || (code == 4 && open_pos == -1) {
        BarDecision { stop_exit: false, close_at_open: true, open_side: 0, next_pos: 0 }
    } else {
        BarDecision { stop_exit: false, close_at_open: false, open_side: 0, next_pos: open_pos }
    }
}

/// One bar of the backtest's position logic: a hit stop closes the
/// position; an entry code reverses an opposite position and enters; an
/// exit code closes a matching position; anything else holds.
pub fn bar_decision(open_pos: i8, code: i8, stop_hit: bool) -> (d: BarDecision)
    requires
        is_position(open_pos),
    ensures
        d == spec_bar_decision(open_pos, code, stop_hit),
        is_position(d.next_pos),
        (d.stop_exit || d.close_at_open) ==> open_pos != 0,
        !(d.stop_exit && d.close_at_open),
        d.open_side != 0 ==> (code == 1 || code == 3) && d.next_pos == d.open_side,
        d.open_side != 0 && open_pos != 0 ==> d.close_at_open,
        d.stop_exit ==> d.next_pos == 0 && d.open_side == 0,
{
    if open_pos != 0 && code != 1 && code != 3 && stop_hit {
        BarDecision { stop_exit: true, close_at_open: false, open_side: 0, next_pos: 0 }
    } else if code == 1 {
        if open_pos == 1 {
            BarDecision { stop_exit: false, close_at_open: false, open_side: 0, next_pos: 1 }
        } else {
            BarDecision { stop_exit: false, close_at_open: open_pos == -1, open_side: 1, next_pos: 1 }
        }
    } else if code == 3 {
        if open_pos == -1 {
            BarDecision { stop_exit: false, close_at_open: false, open_side: 0, next_pos: -1 }
        } else {
            BarDecision { stop_exit: false, close_at_open: open_pos == 1, open_side: -1, next_pos: -1 }
        }
    } else if (code == 2 && open_pos == 1) || (code == 4 && open_pos == -1) {
        BarDecision { stop_exit: false, close_at_open: true, open_side: 0, next_pos: 0 }
    } else {
        BarDecision { stop_exit: false, close_at_open: false, open_side: 0, next_pos: open_pos }
    }
}

/// The code a bar carries once the trading session is applied: outside
/// the session entries are dropped, and on the session's last bar an open
/// position is forced out unless the bar already reverses it.
pub open spec fn spec_session_code(code: i8, use_sessions: bool, in_session: bool, session_end: bool, open_pos: i8) -> i8 {
    let c = if use_sessions && !in_session && (code == 1 || code == 3) { 0 } else { code };
    if use_sessions && session_end && open_pos != 0 {
        if open_pos == 1 && c != 3 {
            2
        } else if open_pos == -1 && c != 1 {
            4
        } else {
            c
        }
    } else {
        c
    }
}

/// Applies the trading session to a bar's code.
pub fn session_code(code: i8, use_sessions: bool, in_session: bool, session_end: bool, open_pos: i8) -> (c: i8)
    ensures
        c == spec_session_code(code, use_sessions, in_session, session_end, open_pos),
{
    let mut c = code;
    if use_sessions && !in_session && (c == 1 || c == 3) {
        c = 0;
    }
    if use_sessions && session_end && open_pos != 0 {
        if open_pos == 1 && c != 3 {
            c = 2;
        } else if open_pos == -1 && c != 1 {
            c = 4;
        }
    }
    c
}

/// Marks the last in-session bar before each session gap: a bar inside the
/// session whose successor is outside it, or the final bar.
pub fn session_end_flags(in_session: &[bool]) -> (out: Vec<bool>)
    ensures
        out@.len() == in_session@.len(),
        forall|i: int| 0 <= i < in_session@.len() ==> #[trigger] out@[i] == (in_session@[i] && !(i + 1
            < in_session@.len() && in_session@[i + 1])),
{
    let n = in_session.len();
    let mut out: Vec<bool> = Vec::new();
    let mut i: usize = 0;
    while i < n
        invariant
            n == in_session@.len(),
            i <= n,
            out@.len() == i,
            forall|k: int| 0 <= k < i ==> #[trigger] out@[k] == (in_session@[k] && !(k + 1 < n && in_session@[k + 1])),
        decreases n - i,
    {
        let next_in = if i + 1 < n { in_session[i + 1] } else { false };
        out.push(in_session[i] && !next_in);
        i = i + 1;
    }
    out
}

/// What the backtest does with one bar, case by case: a hit stop closes an
/// open position when the bar brings no entry; an entry code enters its
/// side, closing an opposite position at the open and leaving the same side
/// alone; an exit code for the side held closes it at the open; anything
/// else keeps the position.
pub proof fn lemma_bar_decision_rules(open_pos: i8, code: i8, stop_hit: bool)
    requires
        is_position(open_pos),
    ensures
        ({
            let d = spec_bar_decision(open_pos, code, stop_hit);
            &&& open_pos != 0 && code != 1 && code != 3 && stop_hit ==> d.stop_exit && !d.close_at_open
                && d.open_side == 0 && d.next_pos == 0
            &&& !d.stop_exit ==> !(open_pos != 0 && code != 1 && code != 3 && stop_hit)
            &&& code == 1 ==> d.next_pos == 1 && !d.stop_exit && (d.open_side == 1 <==> open_pos != 1) && (
            d.close_at_open <==> open_pos == -1)
            &&& code == 3 ==> d.next_pos == -1 && !d.stop_exit && (d.open_side == -1 <==> open_pos != -1) && (
            d.close_at_open <==> open_pos == 1)
            &&& !stop_hit && ((code == 2 && open_pos == 1) || (code == 4 && open_pos == -1)) ==> d.close_at_open
                && d.next_pos == 0 && d.open_side == 0 && !d.stop_exit
            &&& code != 1 && code != 3 && !(code == 2 && open_pos == 1) && !(code == 4 && open_pos == -1) && !(
            open_pos != 0 && stop_hit) ==> d.next_pos == open_pos && !d.close_at_open && !d.stop_exit
                && d.open_side == 0
        }),
{
}

/// The trading session applied to a bar's code: with sessions off nothing
/// changes; outside the session an entry becomes `0` and every other code
/// stays; on the session's last bar an open long exits (`2`) and an open
/// short exits (`4`) unless the bar is inside the session and reverses it.
pub proof fn lemma_session_code_rules(code: i8, use_sessions: bool, in_session: bool, session_end: bool, open_pos: i8)
    ensures
        ({
            let c = spec_session_code(code, use_sessions, in_session, session_end, open_pos);
            &&& !use_sessions ==> c == code
            &&& use_sessions && !in_session && !(session_end && open_pos != 0) ==> c == (if code == 1 || code == 3 {
                0i8
            } else {
                code
            })
            &&& use_sessions && in_session && !(session_end && open_pos != 0) ==> c == code
            &&& use_sessions && session_end && open_pos == 1 ==> c == (if code == 3 && in_session {
                3i8
            } else {
                2i8
            })
            &&& use_sessions && session_end && open_pos == -1 ==> c == (if code == 1 && in_session {
                1i8
            } else {
                4i8
            })
        }),
{
}

/// Entry drift, bar by bar: an exit code stays on its bar; an entry moves
/// to the next bar unless that bar carries an exit; nothing else appears.
/// So an entry is lost only on the last bar or under an exit.
pub proof fn lemma_drift_moves_entries(sig: Seq<i8>, k: int)
    requires
        0 <= k < sig.len(),
    ensures
        (sig[k] == 2 || sig[k] == 4) ==> drifted_code(sig, k) == sig[k],
        (sig[k] == 1 || sig[k] == 3) && k + 1 < sig.len() && sig[k + 1] != 2 && sig[k + 1] != 4 ==> drifted_code(
            sig,
            k + 1,
        ) == sig[k],
        drifted_code(sig, k) == 1 || drifted_code(sig, k) == 3 ==> k > 0 && sig[k - 1] == drifted_code(sig, k)
            && sig[k] != 2 && sig[k] != 4,
        drifted_code(sig, k) == 2 || drifted_code(sig, k) == 4 ==> sig[k] == drifted_code(sig, k),
        drifted_code(sig, k) == 0 || drifted_code(sig, k) == 1 || drifted_code(sig, k) == 2 || drifted_code(sig, k)
            == 3 || drifted_code(sig, k) == 4,
{
}

/// Flip detection, bar by bar: a code appears only where the raw series
/// asks for a side (`1` for long, `3` for short); a bar that asks for the
/// side the bar before it asked for emits nothing; a bar that asks for a
/// side after a bar asking for the other one emits the entry; and the
/// first bar that asks for a side emits its entry.
pub proof fn lemma_parse_signals_rules(raw: Seq<i8>, i: int)
    requires
        0 <= i < raw.len(),
    ensures
        flip_code(raw, i) == 1 ==> raw[i] == 1,
        flip_code(raw, i) == 3 ==> raw[i] == -1,
        flip_code(raw, i) == 0 || flip_code(raw, i) == 1 || flip_code(raw, i) == 3,
        raw[i] != 1 && raw[i] != -1 ==> flip_code(raw, i) == 0,
        i > 0 && raw[i] == raw[i - 1] ==> flip_code(raw, i) == 0,
        i > 0 && raw[i] == 1 && raw[i - 1] == -1 ==> flip_code(raw, i) == 1,
        i > 0 && raw[i] == -1 && raw[i - 1] == 1 ==> flip_code(raw, i) == 3,
        (forall|j: int| 0 <= j < i ==> raw[j] != 1 && raw[j] != -1) ==> (raw[i] == 1 ==> flip_code(raw, i) == 1)
            && (raw[i] == -1 ==> flip_code(raw, i) == 3),
{
    if forall|j: int| 0 <= j < i ==> raw[j] != 1 && raw[j] != -1 {
        lemma_no_side_before(raw, i);
    }
}

proof fn lemma_no_side_before(raw: Seq<i8>, i: int)
    requires
        0 <= i <= raw.len(),
        forall|j: int| 0 <= j < i ==> raw[j] != 1 && raw[j] != -1,
    ensures
        last_side(raw, i) == 0,
    decreases i,
{
    if i > 0 {
        lemma_no_side_before(raw, i - 1);
    }
}

} // verus!
