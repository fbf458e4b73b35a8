//! Monte Carlo null models for completed-trade returns.
//!
//! Permutation shuffles the trades without replacement; resampling
//! bootstraps them with replacement.  A run selects exactly one mode.
use vstd::prelude::*;
use vstd::string::*;
use crate::ordering::is_index_permutation;
use crate::sampling::{
    draw_values, extends, fisher_yates_log, fisher_yates_order, new_draws, resample_indices, shuffled_indices, SeededRng,
};

verus! {

/// Number of Monte Carlo runs when none is given.
pub const DEFAULT_TRADE_RUNS: usize = 1_000;
/// Generator seed when none is given.
pub const DEFAULT_SEED: u64 = 42;

/// The null model of a Monte Carlo run.
#[derive(Clone, Copy, Debug, Eq, PartialEq, Structural)]
pub enum MonteCarloMode {
    Permutation,
    Resampling,
}

/// Code point of `c` after ASCII lowercasing: `A`..`Z` become `a`..`z`,
/// every other character is unchanged.
pub open spec fn ascii_lower_code(c: char) -> u32 {
    let x = c as u32;
    if 65 <= x <= 90 { (x + 32) as u32 } else { x }
}

/// Code points of `s` after ASCII lowercasing.
pub open spec fn ascii_lowercase(s: Seq<char>) -> Seq<u32> {
    s.map_values(|c: char| ascii_lower_code(c))
}

/// `<str as Debug>` rendering of a string: quoted, with escapes.
pub uninterp spec fn debug_rendering(s: Seq<char>) -> Seq<char>;

/// `format!("{:?}", value)`: the string quoted and escaped as Rust's
/// `Debug` for `str` renders it.
#[verifier::external_body]
fn debug_quoted(value: &str) -> (r: String)
    ensures
        r@ == debug_rendering(value@),
{
    format!("{:?}", value)
}

/// Whether `value` equals `target` when both are ASCII-lowercased.
fn eq_ignore_ascii_case(value: &str, target: &str) -> (r: bool)
    ensures
        r == (ascii_lowercase(value@) == ascii_lowercase(target@)),
{
    let n = value.unicode_len();
    let m = target.unicode_len();
    if n != m {
        proof {
            assert(ascii_lowercase(value@).len() != ascii_lowercase(target@).len());
        }
        return false;
    }
    let mut i: usize = 0;
    while i < n
        invariant
            n == value@.len(),
            n == target@.len(),
            i <= n,
            forall|k: int| 0 <= k < i ==> ascii_lower_code(#[trigger] value@[k]) == ascii_lower_code(target@[k]),
        decreases n - i,
    {
        let a = value.get_char(i) as u32;
        let b = target.get_char(i) as u32;
        let la = if 65 <= a && a <= 90 { a + 32 } else { a };
        let lb = if 65 <= b && b <= 90 { b + 32 } else { b };
        if la != lb {
            proof {
                assert(ascii_lowercase(value@)[i as int] != ascii_lowercase(target@)[i as int]);
            }
            return false;
        }
        i = i + 1;
    }
    proof {
        assert(ascii_lowercase(value@) =~= ascii_lowercase(target@));
    }
    true
}

/// Name of the permutation mode.
pub open spec fn permutation_name() -> Seq<char> {
    seq!['p', 'e', 'r', 'm', 'u', 't', 'a', 't', 'i', 'o', 'n']
}

/// Name of the resampling mode.
pub open spec fn resampling_name() -> Seq<char> {
    seq!['r', 'e', 's', 'a', 'm', 'p', 'l', 'i', 'n', 'g']
}

/// The text around a rejected mode name in the parse error.
pub open spec fn unknown_mode_prefix() -> Seq<char> {
    seq!['u', 'n', 'k', 'n', 'o', 'w', 'n', ' ', 'M', 'o', 'n', 't', 'e', ' ', 'C', 'a', 'r', 'l', 'o', ' ', 'm', 'o', 'd', 'e', ' ']
}

pub open spec fn unknown_mode_suffix() -> Seq<char> {
    seq![
        ';', ' ', 'c', 'h', 'o', 'o', 's', 'e', ' ', 'p', 'e', 'r', 'm', 'u', 't', 'a', 't', 'i', 'o', 'n',
        ' ', 'o', 'r', ' ', 'r', 'e', 's', 'a', 'm', 'p', 'l', 'i', 'n', 'g'
    ]
}

impl MonteCarloMode {
    pub open spec fn spec_name(self) -> Seq<char> {
        match self {
            MonteCarloMode::Permutation => permutation_name(),
            MonteCarloMode::Resampling => resampling_name(),
        }
    }

    /// The mode's name.
    pub fn as_str(self) -> (s: &'static str)
        ensures
            s@ == self.spec_name(),
    {
        match self {
            MonteCarloMode::Permutation => {
                proof {
                    reveal_strlit("permutation");
                    assert("permutation"@ =~= permutation_name());
                }
                "permutation"
            },
            MonteCarloMode::Resampling => {
                proof {
                    reveal_strlit("resampling");
                    assert("resampling"@ =~= resampling_name());
                }
                "resampling"
            },
        }
    }

    /// Parses a mode name, ignoring ASCII case.
    pub fn parse(value: &str) -> (r: Result<Self, String>)
        ensures
            match r {
                Ok(m) => ascii_lowercase(value@) == ascii_lowercase(m.spec_name()),
                Err(msg) => ascii_lowercase(value@) != ascii_lowercase(permutation_name())
                    && ascii_lowercase(value@) != ascii_lowercase(resampling_name())
                    && msg@ == unknown_mode_prefix() + debug_rendering(value@) + unknown_mode_suffix(),
            },
    {
        proof {
            reveal_strlit("permutation");
            reveal_strlit("resampling");
            assert("permutation"@ =~= permutation_name());
            assert("resampling"@ =~= resampling_name());
        }
        if eq_ignore_ascii_case(value, "permutation") {
            Ok(MonteCarloMode::Permutation)
        } else if eq_ignore_ascii_case(value, "resampling") {
            Ok(MonteCarloMode::Resampling)
        } else {
            let mut msg = String::from_str("unknown Monte Carlo mode ");
            let quoted = debug_quoted(value);
            msg.append(quoted.as_str());
            msg.append("; choose permutation or resampling");
            proof {
                reveal_strlit("unknown Monte Carlo mode ");
                reveal_strlit("; choose permutation or resampling");
                assert("unknown Monte Carlo mode "@ =~= unknown_mode_prefix());
                assert("; choose permutation or resampling"@ =~= unknown_mode_suffix());
            }
            Err(msg)
        }
    }
}


/// Row indices of the trades a Monte Carlo sample draws: a permutation of
/// the `n` trades, or `n` draws with replacement.
pub open spec fn is_sample_for(mode: MonteCarloMode, n: nat, sample: Seq<usize>) -> bool {
    match mode {
        MonteCarloMode::Permutation => is_index_permutation(sample.map_values(|x: usize| x as int), n),
        MonteCarloMode::Resampling => sample.len() == n && forall|k: int|
            0 <= k < n ==> (#[trigger] sample[k]) < n,
    }
}

/// How many draws one sample of `n` trades takes under `mode`.
pub open spec fn draws_per_sample(mode: MonteCarloMode, n: nat) -> nat {
    match mode {
        MonteCarloMode::Permutation => if n == 0 { 0 } else { (n - 1) as nat },
        MonteCarloMode::Resampling => n,
    }
}

/// `sample` is what the draws `log` make under `mode`: the Fisher-Yates
/// order they call for, each draw from `0..n - k`; or the indices drawn,
/// each from `0..n`.
pub open spec fn sample_from_draws(mode: MonteCarloMode, n: nat, sample: Seq<usize>, log: Seq<(nat, nat)>) -> bool {
    match mode {
        MonteCarloMode::Permutation => {
            &&& fisher_yates_log(n, log)
            &&& sample.map_values(|x: usize| x as int) == fisher_yates_order(n, draw_values(log))
        },
        MonteCarloMode::Resampling => {
            &&& log.len() == n
            &&& sample.len() == n
            &&& forall|k: int| 0 <= k < n ==> #[trigger] log[k] == (n, sample[k] as nat)
        },
    }
}

/// The samples are made, in order, by consecutive stretches of `log`.
pub open spec fn samples_from_draws(mode: MonteCarloMode, n: nat, samples: Seq<Seq<usize>>, log: Seq<(nat, nat)>) -> bool
    decreases samples.len(),
{
    if samples.len() == 0 {
        log.len() == 0
    } else {
        let l = draws_per_sample(mode, n);
        &&& log.len() >= l
        &&& samples_from_draws(mode, n, samples.drop_last(), log.take(log.len() - l))
        &&& sample_from_draws(mode, n, samples.last(), log.skip(log.len() - l))
    }
}

/// Draws `runs` samples of `n` trades under `mode` from `rng`, in the
/// order the Monte Carlo run consumes them.
pub fn draw_samples(n: usize, mode: MonteCarloMode, runs: usize, rng: &mut SeededRng) -> (r: Vec<Vec<usize>>)
    ensures
        r@.len() == runs,
        forall|k: int| 0 <= k < runs ==> is_sample_for(mode, n as nat, (#[trigger] r@[k])@),
        extends(old(rng).log(), final(rng).log()),
        samples_from_draws(
            mode,
            n as nat,
            r@.map_values(|v: Vec<usize>| v@),
            new_draws(old(rng).log(), final(rng).log()),
        ),
{
    let ghost start = rng.log();
    let mut r: Vec<Vec<usize>> = Vec::new();
    let mut k: usize = 0;
    assert(r@.map_values(|v: Vec<usize>| v@) =~= Seq::<Seq<usize>>::empty());
    assert(start.take(start.len() as int) =~= start);
    assert(new_draws(start, start) =~= Seq::<(nat, nat)>::empty());
    while k < runs
        invariant
            k <= runs,
            r@.len() == k,
            forall|j: int| 0 <= j < k ==> is_sample_for(mode, n as nat, (#[trigger] r@[j])@),
            extends(start, rng.log()),
            samples_from_draws(mode, n as nat, r@.map_values(|v: Vec<usize>| v@), new_draws(start, rng.log())),
        decreases runs - k,
    {
        let ghost before = rng.log();
        let sample = match mode {
            MonteCarloMode::Permutation => shuffled_indices(n, rng),
            MonteCarloMode::Resampling => resample_indices(n, n, rng),
        };
        proof {
            let seg = new_draws(before, rng.log());
            let all = new_draws(start, rng.log());
            let prev = new_draws(start, before);
            let l = draws_per_sample(mode, n as nat);
            assert(seg.len() == l);
            assert(rng.log() =~= before + seg);
            assert(all =~= prev + seg);
            assert(all.take(all.len() - l) =~= prev);
            assert(all.skip(all.len() - l) =~= seg);
            assert(rng.log().take(start.len() as int) =~= before.take(start.len() as int));
            assert(sample_from_draws(mode, n as nat, sample@, seg));
            let samples = r@.map_values(|v: Vec<usize>| v@);
            assert(samples.push(sample@).drop_last() =~= samples);
        }
        let ghost old_r = r@;
        r.push(sample);
        proof {
            assert(r@.map_values(|v: Vec<usize>| v@) =~= old_r.map_values(|v: Vec<usize>| v@).push(r@[k as int]@));
        }
        k = k + 1;
    }
    r
}

/// A mode's name parses back to that mode.
pub proof fn lemma_parse_inverts_as_str(m: MonteCarloMode, other: MonteCarloMode)
    requires
        ascii_lowercase(m.spec_name()) == ascii_lowercase(other.spec_name()),
    ensures
        m == other,
{
    let a = ascii_lowercase(permutation_name());
    let b = ascii_lowercase(resampling_name());
    assert(a.len() != b.len());
}

} // verus!
