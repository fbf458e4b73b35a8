//! Robustness scenarios: named stress tests made of perturbation flags,
//! the short label each flag set prints under, and the perturbations a
//! flag set switches on.
use vstd::prelude::*;
use vstd::string::*;

verus! {

/// The robustness scenarios that are run, in order.
pub fn robustness_scenarios() -> (r: Vec<(&'static str, Vec<&'static str>)>)
    ensures
        r@.len() == 5,
        r@[0].0@ == "Test 1"@ && r@[0].1@.len() == 1 && r@[0].1@[0]@ == "ENTRY_DRIFT"@,
        r@[1].0@ == "Test 2"@ && r@[1].1@.len() == 1 && r@[1].1@[0]@ == "FEE_SHOCK"@,
        r@[2].0@ == "Test 3"@ && r@[2].1@.len() == 1 && r@[2].1@[0]@ == "SLIPPAGE_SHOCK"@,
        r@[3].0@ == "Test 4"@ && r@[3].1@.len() == 2 && r@[3].1@[0]@ == "ENTRY_DRIFT"@ && r@[3].1@[1]@
            == "INDICATOR_VARIANCE"@,
        r@[4].0@ == "Test 5"@ && r@[4].1@.len() == 1 && r@[4].1@[0]@ == "NEWS_CANDLES_INJECTION"@,
{
    let mut r: Vec<(&'static str, Vec<&'static str>)> = Vec::new();
    let mut t1: Vec<&'static str> = Vec::new();
    t1.push("ENTRY_DRIFT");
    r.push(("Test 1", t1));
    let mut t2: Vec<&'static str> = Vec::new();
    t2.push("FEE_SHOCK");
    r.push(("Test 2", t2));
    let mut t3: Vec<&'static str> = Vec::new();
    t3.push("SLIPPAGE_SHOCK");
    r.push(("Test 3", t3));
    let mut t4: Vec<&'static str> = Vec::new();
    t4.push("ENTRY_DRIFT");
    t4.push("INDICATOR_VARIANCE");
    r.push(("Test 4", t4));
    let mut t5: Vec<&'static str> = Vec::new();
    t5.push("NEWS_CANDLES_INJECTION");
    r.push(("Test 5", t5));
    r
}

/// Most scenarios that are run.
pub const MAX_ROBUSTNESS_SCENARIOS: usize = 5;

/// A character with the Unicode `White_Space` property, as
/// `char::is_whitespace` tests it: these 25 code points.
pub open spec fn is_white_space(c: char) -> bool {
    let x = c as u32;
    ||| 0x9 <= x <= 0xD
    ||| x == 0x20
    ||| x == 0x85
    ||| x == 0xA0
    ||| x == 0x1680
    ||| 0x2000 <= x <= 0x200A
    ||| x == 0x2028
    ||| x == 0x2029
    ||| x == 0x202F
    ||| x == 0x205F
    ||| x == 0x3000
}

/// Number of leading white-space characters of `s`.
pub open spec fn leading_white_space(s: Seq<char>) -> nat
    decreases s.len(),
{
    if s.len() == 0 || !is_white_space(s[0]) {
        0
    } else {
        1 + leading_white_space(s.skip(1))
    }
}

/// Number of trailing white-space characters of `s`.
pub open spec fn trailing_white_space(s: Seq<char>) -> nat
    decreases s.len(),
{
    if s.len() == 0 || !is_white_space(s.last()) {
        0
    } else {
        1 + trailing_white_space(s.drop_last())
    }
}

/// `s` without its leading and trailing white space.
pub open spec fn trimmed(s: Seq<char>) -> Seq<char> {
    if leading_white_space(s) >= s.len() {
        Seq::empty()
    } else {
        s.subrange(leading_white_space(s) as int, s.len() - trailing_white_space(s))
    }
}

/// `str::to_lowercase`: the string with every character mapped to its
/// Unicode lowercase form.
pub uninterp spec fn lowercased(s: Seq<char>) -> Seq<char>;

/// `str::trim`: the string with its leading and trailing white space
/// (`char::is_whitespace`, the Unicode `White_Space` property) removed.
#[verifier::external_body]
pub(crate) fn trim_str(s: &str) -> (r: &str)
    ensures
        r@ == trimmed(s@),
{
    s.trim()
}

/// `str::to_lowercase`: the result is what `lowercased` names for the
/// input; nothing more of it is stated.
#[verifier::external_body]
fn lowercase_str(s: &str) -> (r: String)
    ensures
        r@ == lowercased(s@),
{
    s.to_lowercase()
}

/// `s` with every space replaced by an underscore.
pub open spec fn spaces_to_underscores(s: Seq<char>) -> Seq<char> {
    s.map_values(|c: char| if c == ' ' { '_' } else { c })
}

/// A flag as it is matched: trimmed, lowercased, spaces turned into
/// underscores.
pub open spec fn normalized_flag(flag: Seq<char>) -> Seq<char> {
    spaces_to_underscores(lowercased(trimmed(flag)))
}

fn matches_token(lower: &str, token: &str) -> (r: bool)
    ensures
        r == (spaces_to_underscores(lower@) == token@),
{
    let n = lower.unicode_len();
    let m = token.unicode_len();
    if n != m {
        proof {
            assert(spaces_to_underscores(lower@).len() != token@.len());
        }
        return false;
    }
    let mut i: usize = 0;
    while i < n
        invariant
            n == lower@.len(),
            n == token@.len(),
            i <= n,
            forall|k: int| 0 <= k < i ==> #[trigger] spaces_to_underscores(lower@)[k] == token@[k],
        decreases n - i,
    {
        let c = lower.get_char(i);
        let d = if c == ' ' { '_' } else { c };
        if d != token.get_char(i) {
            return false;
        }
        i = i + 1;
    }
    proof {
        assert(spaces_to_underscores(lower@) =~= token@);
    }
    true
}

/// Whether `flag`, normalized, is `token`.
fn flag_is(flag: &str, token: &str) -> (r: bool)
    ensures
        r == (normalized_flag(flag@) == token@),
{
    let t = trim_str(flag);
    let l = lowercase_str(t);
    matches_token(l.as_str(), token)
}

/// The label a normalized flag prints under.
pub open spec fn flag_code(norm: Seq<char>) -> Seq<char> {
    if norm == "fee_shock"@ {
        "FEE"@
    } else if norm == "slippage_shock"@ {
        "SLI"@
    } else if norm == "entry_drift"@ {
        "ENT"@
    } else if norm == "indicator_variance"@ {
        "IND"@
    } else if norm == "news_candles_injection"@ {
        "NEWS"@
    } else {
        "???"@
    }
}

/// The label of a flag already trimmed and lowercased: its spaces become
/// underscores and the result is matched against the known flags.
pub fn code_of_lowered(lower: &str) -> (r: &'static str)
    ensures
        r@ == flag_code(spaces_to_underscores(lower@)),
{
    if matches_token(lower, "fee_shock") {
        "FEE"
    } else if matches_token(lower, "slippage_shock") {
        "SLI"
    } else if matches_token(lower, "entry_drift") {
        "ENT"
    } else if matches_token(lower, "indicator_variance") {
        "IND"
    } else if matches_token(lower, "news_candles_injection") {
        "NEWS"
    } else {
        "???"
    }
}

fn code_of(flag: &str) -> (r: &'static str)
    ensures
        r@ == flag_code(normalized_flag(flag@)),
{
    let t = trim_str(flag);
    let l = lowercase_str(t);
    code_of_lowered(l.as_str())
}

/// The labels of the first `k` flags joined by `+`.
pub open spec fn joined_codes(flags: Seq<&str>, k: int) -> Seq<char>
    decreases k,
{
    if k <= 0 {
        Seq::empty()
    } else if k == 1 {
        flag_code(normalized_flag(flags[0]@))
    } else {
        joined_codes(flags, k - 1) + "+"@ + flag_code(normalized_flag(flags[k - 1]@))
    }
}

/// The label of a flag set: the flags' short codes joined by `+`
/// (`???` for an unknown flag), or `NONE` for no flags.
pub fn label_from_flags(flags: &[&str]) -> (r: String)
    ensures
        r@ == (if flags@.len() == 0 { "NONE"@ } else { joined_codes(flags@, flags@.len() as int) }),
{
    let n = flags.len();
    if n == 0 {
        return String::from_str("NONE");
    }
    let mut r = String::from_str(code_of(flags[0]));
    let mut k: usize = 1;
    while k < n
        invariant
            n == flags@.len(),
            1 <= k <= n,
            r@ == joined_codes(flags@, k as int),
        decreases n - k,
    {
        r.append("+");
        r.append(code_of(flags[k]));
        k = k + 1;
    }
    r
}

/// The perturbations a flag set switches on.
#[derive(Debug, Clone, Copy, PartialEq, Eq, Structural)]
pub struct RobustnessFlags {
    /// Fees are doubled.
    pub fee_shock: bool,
    /// Slippage is tripled.
    pub slippage_shock: bool,
    /// Entries are delayed by one bar.
    pub entry_drift: bool,
    /// The look-back is nudged by one.
    pub indicator_variance: bool,
    /// News candles are injected into the bars.
    pub news_injection: bool,
}

/// Some flag of `flags`, normalized, is `token`.
pub open spec fn has_flag(flags: Seq<&str>, token: Seq<char>) -> bool {
    exists|i: int| 0 <= i < flags.len() && normalized_flag(#[trigger] flags[i]@) == token
}

fn any_flag(flags: &[&str], token: &str) -> (r: bool)
    ensures
        r == has_flag(flags@, token@),
{
    let n = flags.len();
    let mut i: usize = 0;
    while i < n
        invariant
            n == flags@.len(),
            i <= n,
            forall|k: int| 0 <= k < i ==> normalized_flag(#[trigger] flags@[k]@) != token@,
        decreases n - i,
    {
        if flag_is(flags[i], token) {
            return true;
        }
        i = i + 1;
    }
    false
}

impl RobustnessFlags {
    /// Reads a flag set: each perturbation is on when some flag names it.
    pub fn from_flags(flags: &[&str]) -> (r: Self)
        ensures
            r.fee_shock == has_flag(flags@, "fee_shock"@),
            r.slippage_shock == has_flag(flags@, "slippage_shock"@),
            r.entry_drift == has_flag(flags@, "entry_drift"@),
            r.indicator_variance == has_flag(flags@, "indicator_variance"@),
            r.news_injection == has_flag(flags@, "news_candles_injection"@),
    {
        RobustnessFlags {
            fee_shock: any_flag(flags, "fee_shock"),
            slippage_shock: any_flag(flags, "slippage_shock"),
            entry_drift: any_flag(flags, "entry_drift"),
            indicator_variance: any_flag(flags, "indicator_variance"),
            news_injection: any_flag(flags, "news_candles_injection"),
        }
    }

    /// A flag set perturbs nothing when no perturbation is on.
    pub fn is_noop(&self) -> (r: bool)
        ensures
            r == (!self.fee_shock && !self.slippage_shock && !self.entry_drift && !self.indicator_variance
                && !self.news_injection),
    {
        !self.fee_shock && !self.slippage_shock && !self.entry_drift && !self.indicator_variance
            && !self.news_injection
    }
}

/// Look-back after an indicator-variance nudge: the look-back, read as an
/// `i32`, moved one bar up (`up`) or down, and never below one.
pub open spec fn nudged(lb: usize, up: bool) -> int {
    let x = (lb as i32) as int + (if up { 1int } else { -1int });
    if x < 1 { 1 } else { x }
}

/// Moves the look-back one bar up or down, never below one.
pub fn nudged_lookback(lb: usize, up: bool) -> (r: usize)
    requires
        up ==> (lb as i32) < i32::MAX,
        !up ==> (lb as i32) > i32::MIN,
    ensures
        r as int == nudged(lb, up),
{
    #[verifier::truncate]
    let x: i32 = lb as i32;
    let y: i32 = if up { x + 1 } else { x - 1 };
    if y < 1 { 1 } else { y as usize }
}

/// `rand::random::<bool>()`: a fair coin from the thread-local generator.
/// Nothing is stated of which side comes up.
#[verifier::external_body]
fn coin_flip() -> (b: bool) {
    rand::random::<bool>()
}

/// The look-back under indicator variance: nudged one bar up or down, the
/// direction drawn at random.
pub fn nudge_lookback(lb: usize) -> (r: usize)
    requires
        i32::MIN < (lb as i32) < i32::MAX,
    ensures
        r as int == nudged(lb, true) || r as int == nudged(lb, false),
{
    let up = coin_flip();
    nudged_lookback(lb, up)
}

} // verus!
