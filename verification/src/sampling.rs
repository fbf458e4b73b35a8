//! Seeded random reordering and resampling of row indices.
//!
//! Bar permutation and the trade Monte Carlo draw from a seeded `StdRng`:
//! a Fisher-Yates shuffle for permutations (without replacement) and
//! uniform index draws for bootstrap resampling (with replacement).  The
//! generator keeps a log of its draws, each a range `0..bound` and the
//! value drawn from it; the contracts fix which range each draw is made
//! from and what is done with the value, for whatever values come.
use vstd::prelude::*;
use rand::{Rng, SeedableRng};
use rand::rngs::StdRng;
use crate::ordering::is_index_permutation;

verus! {

/// `rand::rngs::StdRng`, the seeded generator the draws come from; its
/// state is opaque here.
#[verifier::external_type_specification]
#[verifier::external_body]
pub struct ExStdRng(StdRng);

/// `Rng::random_range(0..=hi)` on a seeded generator: a uniform draw from
/// the inclusive range `0..=hi`, which is never empty.
#[verifier::external_body]
fn draw_inclusive(rng: &mut StdRng, hi: usize) -> (r: usize)
    ensures
        r <= hi,
{
    rng.random_range(0..=hi)
}

/// `Rng::random_range(0..n)` on a seeded generator: a uniform draw from
/// `0..n`; the range must not be empty.
#[verifier::external_body]
fn draw_below(rng: &mut StdRng, n: usize) -> (r: usize)
    requires
        n > 0,
    ensures
        r < n,
{
    rng.random_range(0..n)
}

/// `StdRng::seed_from_u64`: a generator seeded from `seed`.
#[verifier::external_body]
fn std_rng_from_seed(seed: u64) -> StdRng {
    StdRng::seed_from_u64(seed)
}

/// A seeded generator with the log of the draws made from it: entry
/// `(bound, value)` is a uniform draw of `value` from `0..bound`.
pub struct SeededRng {
    rng: StdRng,
    drawn: Ghost<Seq<(nat, nat)>>,
}

impl SeededRng {
    /// The draws made so far, oldest first.
    pub closed spec fn log(&self) -> Seq<(nat, nat)> {
        self.drawn@
    }

    /// Wraps a generator; nothing has been drawn yet.
    pub fn new(rng: StdRng) -> (r: Self)
        ensures
            r.log() == Seq::<(nat, nat)>::empty(),
    {
        SeededRng { rng, drawn: Ghost(Seq::empty()) }
    }

    /// A generator seeded from `seed`; nothing has been drawn yet.
    pub fn seed_from_u64(seed: u64) -> (r: Self)
        ensures
            r.log() == Seq::<(nat, nat)>::empty(),
    {
        Self::new(std_rng_from_seed(seed))
    }

    /// A uniform draw from `0..=hi`, logged as a draw from `0..hi + 1`.
    pub fn draw_inclusive(&mut self, hi: usize) -> (r: usize)
        ensures
            r <= hi,
            final(self).log() == old(self).log().push(((hi + 1) as nat, r as nat)),
    {
        let r = draw_inclusive(&mut self.rng, hi);
        proof {
            self.drawn@ = self.drawn@.push(((hi + 1) as nat, r as nat));
        }
        r
    }

    /// A uniform draw from `0..n`, logged as such; the range must not be
    /// empty.
    pub fn draw_below(&mut self, n: usize) -> (r: usize)
        requires
            n > 0,
        ensures
            r < n,
            final(self).log() == old(self).log().push((n as nat, r as nat)),
    {
        let r = draw_below(&mut self.rng, n);
        proof {
            self.drawn@ = self.drawn@.push((n as nat, r as nat));
        }
        r
    }
}

/// `after` is `before` with more draws appended.
pub open spec fn extends(before: Seq<(nat, nat)>, after: Seq<(nat, nat)>) -> bool {
    before.len() <= after.len() && after.take(before.len() as int) == before
}

/// The draws appended to `before` in `after`.
pub open spec fn new_draws(before: Seq<(nat, nat)>, after: Seq<(nat, nat)>) -> Seq<(nat, nat)> {
    after.skip(before.len() as int)
}

/// The values of logged draws.
pub open spec fn draw_values(log: Seq<(nat, nat)>) -> Seq<usize> {
    log.map_values(|e: (nat, nat)| e.1 as usize)
}

/// The draws of a Fisher-Yates shuffle of `length` items: draw `k` is
/// from `0..length - k`, for `k` in `0..length - 1`.
pub open spec fn fisher_yates_log(length: nat, log: Seq<(nat, nat)>) -> bool {
    &&& log.len() == (if length == 0 { 0 } else { length - 1 })
    &&& forall|k: int| 0 <= k < log.len() ==> (#[trigger] log[k]).0 == length - k && log[k].1 < log[k].0
}

proof fn lemma_fisher_yates_log_valid(length: nat, log: Seq<(nat, nat)>)
    requires
        fisher_yates_log(length, log),
    ensures
        valid_draws(length, draw_values(log)),
{
    assert forall|k: int| 0 <= k < draw_values(log).len() implies (#[trigger] draw_values(log)[k]) <= length - 1 - k by {
        assert(log[k].1 < length - k);
    }
}

/// Draws that drive a Fisher-Yates shuffle of `length` items: one per
/// position from the last down to 1, the `k`-th at most `length - 1 - k`.
pub open spec fn valid_draws(length: nat, draws: Seq<usize>) -> bool {
    &&& draws.len() == (if length == 0 { 0 } else { length - 1 })
    &&& forall|k: int| 0 <= k < draws.len() ==> (#[trigger] draws[k]) <= length - 1 - k
}

/// `s` with the entries at `i` and `j` exchanged.
pub open spec fn swap_at(s: Seq<int>, i: int, j: int) -> Seq<int> {
    s.update(i, s[j]).update(j, s[i])
}

/// `0..length` after the first `k` swaps: swap `k` exchanges position
/// `length - k` with position `draws[k - 1]`.
pub open spec fn fisher_yates_prefix(length: nat, draws: Seq<usize>, k: nat) -> Seq<int>
    decreases k,
{
    if k == 0 {
        Seq::new(length, |i: int| i)
    } else {
        swap_at(fisher_yates_prefix(length, draws, (k - 1) as nat), length - k, draws[k - 1] as int)
    }
}

/// `0..length` after all the swaps the draws call for.
pub open spec fn fisher_yates_order(length: nat, draws: Seq<usize>) -> Seq<int> {
    fisher_yates_prefix(length, draws, draws.len())
}

/// `0..length` reordered by the Fisher-Yates swaps `draws` call for: for
/// each position from the last down to 1, in that order, exchange it with
/// the position the next draw names.
pub fn fisher_yates(length: usize, draws: &[usize]) -> (out: Vec<usize>)
    requires
        valid_draws(length as nat, draws@),
    ensures
        out@.map_values(|x: usize| x as int) == fisher_yates_order(length as nat, draws@),
        is_index_permutation(out@.map_values(|x: usize| x as int), length as nat),
{
    let mut indices: Vec<usize> = Vec::new();
    let mut i: usize = 0;
    while i < length
        invariant
            i <= length,
            indices@.len() == i,
            forall|p: int| 0 <= p < i ==> (#[trigger] indices@[p]) as int == p,
        decreases length - i,
    {
        indices.push(i);
        i = i + 1;
    }
    assert(indices@.map_values(|x: usize| x as int) =~= fisher_yates_prefix(length as nat, draws@, 0));
    let m = draws.len();
    let mut k: usize = 0;
    while k < m
        invariant
            m == draws@.len(),
            valid_draws(length as nat, draws@),
            k <= m,
            indices@.len() == length,
            indices@.map_values(|x: usize| x as int) == fisher_yates_prefix(length as nat, draws@, k as nat),
            is_index_permutation(indices@.map_values(|x: usize| x as int), length as nat),
        decreases m - k,
    {
        let index = length - 1 - k;
        let other = draws[k];
        let a = indices[index];
        let b = indices[other];
        let ghost before = indices@.map_values(|x: usize| x as int);
        indices.set(index, b);
        indices.set(other, a);
        proof {
            let after = indices@.map_values(|x: usize| x as int);
            assert(after =~= swap_at(before, index as int, other as int));
            assert(fisher_yates_prefix(length as nat, draws@, (k + 1) as nat) == swap_at(
                fisher_yates_prefix(length as nat, draws@, k as nat),
                length - (k + 1),
                draws@[k as int] as int,
            ));
            lemma_swap_keeps_permutation(before, index as int, other as int, length as nat);
        }
        k = k + 1;
    }
    proof {
        if length == 0 {
            assert(is_index_permutation(indices@.map_values(|x: usize| x as int), length as nat));
        }
    }
    indices
}

/// `0..length` reordered by a Fisher-Yates shuffle driven by `rng`: for
/// each position from the last down to 1, swap it with a uniformly drawn
/// position at or before it.  The draws come from the generator; the
/// swaps they call for are `fisher_yates`.
pub fn shuffled_indices(length: usize, rng: &mut SeededRng) -> (out: Vec<usize>)
    ensures
        extends(old(rng).log(), final(rng).log()),
        fisher_yates_log(length as nat, new_draws(old(rng).log(), final(rng).log())),
        out@.map_values(|x: usize| x as int) == fisher_yates_order(
            length as nat,
            draw_values(new_draws(old(rng).log(), final(rng).log())),
        ),
        is_index_permutation(out@.map_values(|x: usize| x as int), length as nat),
{
    let draws = fisher_yates_draws(length, rng);
    fisher_yates(length, &draws)
}

/// The draws of a Fisher-Yates shuffle of `length` items, in the order the
/// shuffle consumes them.
fn fisher_yates_draws(length: usize, rng: &mut SeededRng) -> (draws: Vec<usize>)
    ensures
        extends(old(rng).log(), final(rng).log()),
        fisher_yates_log(length as nat, new_draws(old(rng).log(), final(rng).log())),
        draws@ == draw_values(new_draws(old(rng).log(), final(rng).log())),
        valid_draws(length as nat, draws@),
{
    let ghost start = rng.log();
    let mut draws: Vec<usize> = Vec::new();
    let mut index: usize = length;
    while index > 1
        invariant
            index <= length,
            length > 0 ==> index >= 1,
            length > 0 ==> draws@.len() == length - index,
            length == 0 ==> draws@.len() == 0,
            rng.log().len() == start.len() + draws@.len(),
            rng.log().take(start.len() as int) == start,
            forall|k: int|
                0 <= k < draws@.len() ==> #[trigger] rng.log()[start.len() + k] == ((length - k) as nat, draws@[k] as nat)
                    && draws@[k] < length - k,
        decreases index,
    {
        index = index - 1;
        let ghost before = rng.log();
        let other = rng.draw_inclusive(index);
        proof {
            assert(rng.log().take(start.len() as int) =~= before.take(start.len() as int));
            assert forall|k: int| 0 <= k < draws@.len() implies #[trigger] rng.log()[start.len() + k] == before[start.len() + k] by {}
        }
        draws.push(other);
    }
    proof {
        let nd = new_draws(start, rng.log());
        assert(rng.log().take(start.len() as int) == start);
        assert forall|k: int| 0 <= k < nd.len() implies (#[trigger] nd[k]).0 == length - k && nd[k].1 < nd[k].0 by {
            assert(nd[k] == rng.log()[start.len() + k]);
        }
        assert(draws@ =~= draw_values(nd)) by {
            assert forall|k: int| 0 <= k < draws@.len() implies draws@[k] == #[trigger] draw_values(nd)[k] by {
                assert(nd[k] == rng.log()[start.len() + k]);
            }
        }
        lemma_fisher_yates_log_valid(length as nat, nd);
    }
    draws
}

proof fn lemma_swap_keeps_permutation(s: Seq<int>, i: int, j: int, n: nat)
    requires
        is_index_permutation(s, n),
        0 <= i < n,
        0 <= j < n,
    ensures
        is_index_permutation(s.update(i, s[j]).update(j, s[i]), n),
{
    let t = s.update(i, s[j]).update(j, s[i]);
    assert forall|a: int| 0 <= a < t.len() implies 0 <= #[trigger] t[a] < n by {
        if a == j {
        } else if a == i {
        } else {
            assert(t[a] == s[a]);
        }
    }
    assert forall|a: int, b: int| 0 <= a < b < t.len() implies t[a] != t[b] by {
        let sa = if a == j { i } else if a == i { j } else { a };
        let sb = if b == j { i } else if b == i { j } else { b };
        assert(t[a] == s[sa]);
        assert(t[b] == s[sb]);
        if sa < sb {
            assert(s[sa] != s[sb]);
        } else if sb < sa {
            assert(s[sb] != s[sa]);
        }
    }
}

/// Reorders `values` in place by a Fisher-Yates shuffle driven by `rng`:
/// entry `k` afterwards is the entry the shuffled order names, for the
/// draws the generator gave; they are the draws `shuffled_indices` makes
/// on the same length.
pub fn shuffle<T: Copy>(values: &mut Vec<T>, rng: &mut SeededRng)
    ensures
        final(values)@.len() == old(values)@.len(),
        extends(old(rng).log(), final(rng).log()),
        fisher_yates_log(old(values)@.len(), new_draws(old(rng).log(), final(rng).log())),
        forall|k: int|
            0 <= k < old(values)@.len() ==> final(values)@[k] == old(values)@[#[trigger] fisher_yates_order(
                old(values)@.len(),
                draw_values(new_draws(old(rng).log(), final(rng).log())),
            )[k]],
{
    let n = values.len();
    let draws = fisher_yates_draws(n, rng);
    let order = fisher_yates(n, &draws);
    let ghost perm = order@.map_values(|x: usize| x as int);
    let mut out: Vec<T> = Vec::new();
    let mut k: usize = 0;
    while k < n
        invariant
            n == values@.len(),
            k <= n,
            perm == order@.map_values(|x: usize| x as int),
            is_index_permutation(perm, n as nat),
            out@.len() == k,
            forall|p: int| 0 <= p < k ==> out@[p] == values@[#[trigger] perm[p]],
        decreases n - k,
    {
        assert(perm[k as int] == order@[k as int] as int);
        out.push(values[order[k]]);
        k = k + 1;
    }
    proof {
        assert(perm == fisher_yates_order(n as nat, draws@));
    }
    *values = out;
}

/// `count` indices drawn uniformly, with replacement, from `0..n`.
pub fn resample_indices(n: usize, count: usize, rng: &mut SeededRng) -> (out: Vec<usize>)
    requires
        count > 0 ==> n > 0,
    ensures
        out@.len() == count,
        forall|k: int| 0 <= k < count ==> (#[trigger] out@[k]) < n,
        extends(old(rng).log(), final(rng).log()),
        new_draws(old(rng).log(), final(rng).log()).len() == count,
        forall|k: int|
            0 <= k < count ==> #[trigger] new_draws(old(rng).log(), final(rng).log())[k] == (
                n as nat,
                out@[k] as nat,
            ),
{
    let ghost start = rng.log();
    let mut out: Vec<usize> = Vec::new();
    let mut k: usize = 0;
    while k < count
        invariant
            k <= count,
            count > 0 ==> n > 0,
            out@.len() == k,
            forall|p: int| 0 <= p < k ==> (#[trigger] out@[p]) < n,
            rng.log().len() == start.len() + k,
            rng.log().take(start.len() as int) == start,
            forall|p: int| 0 <= p < k ==> #[trigger] rng.log()[start.len() + p] == (n as nat, out@[p] as nat),
        decreases count - k,
    {
        let ghost before = rng.log();
        let d = rng.draw_below(n);
        proof {
            assert(rng.log().take(start.len() as int) =~= before.take(start.len() as int));
            assert forall|p: int| 0 <= p < k implies #[trigger] rng.log()[start.len() + p] == before[start.len() + p] by {}
        }
        out.push(d);
        k = k + 1;
    }
    proof {
        let nd = new_draws(start, rng.log());
        assert forall|p: int| 0 <= p < count implies #[trigger] nd[p] == (n as nat, out@[p] as nat) by {
            assert(nd[p] == rng.log()[start.len() + p]);
        }
    }
    out
}

} // verus!
