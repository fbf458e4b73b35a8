//! Sign logic of the funding-rate models and triggers.
//!
//! Funding rates enter as their signs (`1` positive, `-1` negative, `0`
//! zero); the persistent-sign model reads how long the latest sign has
//! lasted, the funding-flip trigger reads where the sign turns.
use vstd::prelude::*;
use vstd::string::*;

verus! {

/// Number of trailing entries of `s` equal to `x`.
pub open spec fn trailing_run(s: Seq<i8>, x: i8) -> nat
    decreases s.len(),
{
    if s.len() == 0 || s.last() != x {
        0
    } else {
        1 + trailing_run(s.drop_last(), x)
    }
}

/// The latest sign of `signs` and how many trailing entries carry it;
/// `(0, 0)` when there are none.
pub fn trailing_sign_streak(signs: &[i8]) -> (r: (i8, usize))
    ensures
        signs@.len() == 0 ==> r == (0i8, 0usize),
        signs@.len() > 0 ==> r.0 == signs@.last() && r.1 == trailing_run(signs@, signs@.last()),
{
    let n = signs.len();
    if n == 0 {
        return (0, 0);
    }
    let last = signs[n - 1];
    let mut streak: usize = 0;
    let mut k: usize = n;
    assert(signs@.take(n as int) =~= signs@);
    while k > 0 && signs[k - 1] == last
        invariant
            n == signs@.len(),
            n > 0,
            last == signs@[n - 1],
            k <= n,
            streak == n - k,
            trailing_run(signs@, last) == streak + trailing_run(signs@.take(k as int), last),
        decreases k,
    {
        let ghost pre = signs@.take(k as int);
        assert(pre.drop_last() =~= signs@.take(k - 1));
        assert(pre.last() == signs@[k - 1]);
        streak = streak + 1;
        k = k - 1;
    }
    proof {
        assert(signs@.take(n as int) =~= signs@);
        let pre = signs@.take(k as int);
        if k > 0 {
            assert(pre.last() == signs@[k - 1]);
        }
    }
    (last, streak)
}

/// Persistent-funding-sign carry model: once the funding sign has held for
/// `min_streak` settlements, lean against it.
#[derive(Debug, Clone)]
pub struct PersistentFundingSignModel {
    pub min_streak: usize,
}

/// Error text for a zero minimum streak.
pub open spec fn min_streak_error() -> Seq<char> {
    seq!['m', 'i', 'n', '_', 's', 't', 'r', 'e', 'a', 'k', ' ', 'm', 'u', 's', 't', ' ', 'b', 'e', ' ', '>', '=', ' ', '1']
}

impl PersistentFundingSignModel {
    /// Builds the model; the minimum streak must be at least one.
    pub fn new(min_streak: usize) -> (r: Result<Self, String>)
        ensures
            match r {
                Ok(m) => min_streak >= 1 && m.min_streak == min_streak,
                Err(e) => min_streak < 1 && e@ == min_streak_error(),
            },
    {
        if min_streak < 1 {
            let e = String::from_str("min_streak must be >= 1");
            proof {
                reveal_strlit("min_streak must be >= 1");
                assert(e@ =~= min_streak_error());
            }
            return Err(e);
        }
        Ok(PersistentFundingSignModel { min_streak })
    }

    /// Direction the model takes for a latest sign held `streak` times:
    /// flat on a zero sign or a streak shorter than `min_streak`, otherwise
    /// against the sign.
    pub fn direction(&self, last_sign: i8, streak: usize) -> (d: i8)
        requires
            -1 <= last_sign <= 1,
        ensures
            d == (if last_sign == 0 || streak < self.min_streak { 0 } else { -last_sign }),
    {
        if last_sign == 0 || streak < self.min_streak {
            0
        } else {
            -last_sign
        }
    }
}

/// The last non-zero sign before position `i`, or `0` if there is none.
pub open spec fn last_nonzero_before(signs: Seq<i8>, i: int) -> i8
    decreases i,
{
    if i <= 0 {
        0
    } else if signs[i - 1] != 0 {
        signs[i - 1]
    } else {
        last_nonzero_before(signs, i - 1)
    }
}

/// A funding flip at `i`: the sign is non-zero, differs from the last
/// non-zero sign before it, and the rate is large enough to count.
pub open spec fn is_flip(signs: Seq<i8>, strong: Seq<bool>, i: int) -> bool {
    i >= 1 && signs[i] != 0 && signs[i] != last_nonzero_before(signs, i) && strong[i]
}

/// Positions `< n` that are flips, in increasing order.
pub open spec fn flip_positions(signs: Seq<i8>, strong: Seq<bool>, n: int) -> Seq<usize>
    decreases n,
{
    if n <= 0 {
        Seq::empty()
    } else if is_flip(signs, strong, n - 1) {
        flip_positions(signs, strong, n - 1).push((n - 1) as usize)
    } else {
        flip_positions(signs, strong, n - 1)
    }
}

/// Positions where the funding sign flips to a new non-zero sign with a
/// rate at least the trigger's minimum magnitude (`strong`).  A weak flip
/// emits nothing but still becomes the sign later flips are measured from.
pub fn funding_flip_positions(signs: &[i8], strong: &[bool]) -> (r: Vec<usize>)
    requires
        signs@.len() == strong@.len(),
    ensures
        r@ == flip_positions(signs@, strong@, signs@.len() as int),
{
    let n = signs.len();
    let mut r: Vec<usize> = Vec::new();
    if n < 2 {
        proof {
            if n == 1 {
                assert(flip_positions(signs@, strong@, 0) =~= Seq::<usize>::empty());
            }
        }
        return r;
    }
    let mut prev = signs[0];
    let mut i: usize = 1;
    assert(last_nonzero_before(signs@, 0) == 0);
    assert(flip_positions(signs@, strong@, 1) =~= Seq::<usize>::empty()) by {
        assert(flip_positions(signs@, strong@, 0) =~= Seq::<usize>::empty());
    }
    while i < n
        invariant
            n == signs@.len(),
            n == strong@.len(),
            1 <= i <= n,
            prev == last_nonzero_before(signs@, i as int),
            r@ == flip_positions(signs@, strong@, i as int),
        decreases n - i,
    {
        let curr = signs[i];
        if curr != prev && curr != 0 && strong[i] {
            r.push(i);
            prev = curr;
        } else if curr != 0 {
            prev = curr;
        }
        i = i + 1;
    }
    r
}

/// The streak counts the trailing entries equal to `x`: all of them carry
/// `x`, and the entry before them, if any, does not.
pub proof fn lemma_trailing_run_is_the_streak(s: Seq<i8>, x: i8)
    ensures
        trailing_run(s, x) <= s.len(),
        forall|j: int| s.len() - trailing_run(s, x) <= j < s.len() ==> #[trigger] s[j] == x,
        trailing_run(s, x) < s.len() ==> s[s.len() - 1 - trailing_run(s, x)] != x,
    decreases s.len(),
{
    if s.len() > 0 && s.last() == x {
        let t = s.drop_last();
        lemma_trailing_run_is_the_streak(t, x);
        assert forall|j: int| s.len() - trailing_run(s, x) <= j < s.len() implies #[trigger] s[j] == x by {
            if j < s.len() - 1 {
                assert(s[j] == t[j]);
            }
        }
        if trailing_run(s, x) < s.len() {
            assert(s[s.len() - 1 - trailing_run(s, x)] == t[t.len() - 1 - trailing_run(t, x)]);
        }
    }
}

proof fn lemma_flip_positions_members(signs: Seq<i8>, strong: Seq<bool>, n: int)
    requires
        0 <= n <= signs.len(),
        signs.len() <= usize::MAX,
        signs.len() == strong.len(),
    ensures
        forall|p: int| 0 <= p < n ==> (#[trigger] flip_positions(signs, strong, n).contains(p as usize) <==> is_flip(signs, strong, p)),
        forall|k: int| 0 <= k < flip_positions(signs, strong, n).len() ==> #[trigger] flip_positions(signs, strong, n)[k] < n,
        forall|a: int, b: int|
            0 <= a < b < flip_positions(signs, strong, n).len() ==> flip_positions(signs, strong, n)[a]
                < flip_positions(signs, strong, n)[b],
    decreases n,
{
    if n > 0 {
        lemma_flip_positions_members(signs, strong, n - 1);
        let prev = flip_positions(signs, strong, n - 1);
        let cur = flip_positions(signs, strong, n);
        let last = (n - 1) as usize;
        assert(last as int == n - 1);
        if is_flip(signs, strong, n - 1) {
            assert(cur == prev.push(last));
            assert forall|p: int| 0 <= p < n implies (#[trigger] cur.contains(p as usize) <==> is_flip(signs, strong, p)) by {
                let pu = p as usize;
                assert(pu as int == p);
                if p < n - 1 {
                    if cur.contains(pu) {
                        let k = choose|k: int| 0 <= k < cur.len() && cur[k] == pu;
                        if k == cur.len() - 1 {
                            assert(cur[k] == last);
                        } else {
                            assert(prev[k] == pu);
                        }
                    }
                    if prev.contains(pu) {
                        let k = choose|k: int| 0 <= k < prev.len() && prev[k] == pu;
                        assert(cur[k] == pu);
                    }
                } else {
                    assert(cur[cur.len() - 1] == pu);
                }
            }
            assert forall|k: int| 0 <= k < cur.len() implies #[trigger] cur[k] < n by {
                if k < prev.len() {
                    assert(cur[k] == prev[k]);
                }
            }
            assert forall|a: int, b: int| 0 <= a < b < cur.len() implies cur[a] < cur[b] by {
                assert(cur[a] == prev[a]);
                if b < prev.len() {
                    assert(cur[b] == prev[b]);
                }
            }
        } else {
            assert(cur == prev);
            assert forall|p: int| 0 <= p < n implies (#[trigger] cur.contains(p as usize) <==> is_flip(signs, strong, p)) by {
                let pu = p as usize;
                assert(pu as int == p);
                if p == n - 1 && cur.contains(pu) {
                    let k = choose|k: int| 0 <= k < cur.len() && cur[k] == pu;
                    assert(cur[k] < n - 1);
                }
            }
        }
    }
}

proof fn lemma_last_nonzero_after_zeros(signs: Seq<i8>, i: int, j: int)
    requires
        0 <= i < j <= signs.len(),
        signs[i] != 0,
        forall|m: int| i < m < j ==> signs[m] == 0,
    ensures
        last_nonzero_before(signs, j) == signs[i],
    decreases j - i,
{
    if j > i + 1 {
        lemma_last_nonzero_after_zeros(signs, i, j - 1);
    }
}

/// Funding flips, position by position: a reported position has a non-zero
/// sign and a strong rate; a strong sign change between two consecutive
/// non-zero signs is reported; a sign equal to the last non-zero sign
/// before it is never reported, even when that earlier change was too weak
/// to report; positions come out in increasing order.
pub proof fn lemma_funding_flip_rules(signs: Seq<i8>, strong: Seq<bool>)
    requires
        signs.len() == strong.len(),
        signs.len() <= usize::MAX,
    ensures
        ({
            let r = flip_positions(signs, strong, signs.len() as int);
            &&& forall|k: int| 0 <= k < r.len() ==> 1 <= #[trigger] r[k] < signs.len() && signs[r[k] as int] != 0
                && strong[r[k] as int]
            &&& forall|a: int, b: int| 0 <= a < b < r.len() ==> r[a] < r[b]
            &&& forall|i: int, j: int|
                0 <= i < j < signs.len() && signs[i] != 0 && signs[j] != 0 && signs[j] != signs[i] && strong[j]
                    && (forall|m: int| i < m < j ==> signs[m] == 0) ==> r.contains(j as usize)
            &&& forall|i: int, j: int|
                0 <= i < j < signs.len() && signs[i] != 0 && signs[j] == signs[i] && (forall|m: int|
                    i < m < j ==> signs[m] == 0) ==> !r.contains(j as usize)
        }),
{
    let n = signs.len() as int;
    let r = flip_positions(signs, strong, n);
    lemma_flip_positions_members(signs, strong, n);
    assert forall|k: int| 0 <= k < r.len() implies 1 <= #[trigger] r[k] < signs.len() && signs[r[k] as int] != 0
        && strong[r[k] as int] by {
        assert(r.contains(r[k]));
        assert(r.contains((r[k] as int) as usize));
    }
    assert forall|i: int, j: int|
        0 <= i < j < signs.len() && signs[i] != 0 && signs[j] != 0 && signs[j] != signs[i] && strong[j] && (forall|
            m: int,
        | i < m < j ==> signs[m] == 0) implies r.contains(j as usize) by {
        lemma_last_nonzero_after_zeros(signs, i, j);
    }
    assert forall|i: int, j: int|
        0 <= i < j < signs.len() && signs[i] != 0 && signs[j] == signs[i] && (forall|m: int|
            i < m < j ==> signs[m] == 0) implies !r.contains(j as usize) by {
        lemma_last_nonzero_after_zeros(signs, i, j);
    }
}

} // verus!
