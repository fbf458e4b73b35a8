//! Thousands separators for printed money amounts.
use vstd::prelude::*;
use vstd::string::*;

verus! {

/// The first `k` digits of `s` with a comma before every digit that starts
/// a group of three counted from the end of `s`.
pub open spec fn grouped(s: Seq<char>, k: int) -> Seq<char>
    decreases k,
{
    if k <= 0 {
        Seq::empty()
    } else {
        let sep = if k - 1 > 0 && (s.len() - (k - 1)) % 3 == 0 { seq![','] } else { Seq::empty() };
        grouped(s, k - 1) + sep + seq![s[k - 1]]
    }
}

/// Where digit `k` of an `n`-digit amount lands once the separators are in:
/// `k`, plus the separators before it, that is all `(n - 1) / 3` of them but
/// the `(n - 1 - k) / 3` that fall among the digits after it.
pub open spec fn digit_slot(n: int, k: int) -> int {
    k + (n - 1) / 3 - (n - 1 - k) / 3
}

/// `x / 3` steps up by one from `(x - 1) / 3` exactly when `x` is a multiple
/// of three.
proof fn lemma_third_step(x: int)
    requires
        x >= 1,
    ensures
        x / 3 - (x - 1) / 3 == (if x % 3 == 0 { 1int } else { 0int }),
{
    vstd::arithmetic::div_mod::lemma_fundamental_div_mod(x, 3);
    vstd::arithmetic::div_mod::lemma_fundamental_div_mod(x - 1, 3);
}

/// The layout of the first `k` digits after grouping.
proof fn lemma_grouped_prefix(s: Seq<char>, k: int)
    requires
        1 <= k <= s.len(),
    ensures
        grouped(s, k).len() == k + (s.len() - 1) / 3 - (s.len() - k) / 3,
        forall|i: int| 0 <= i < k ==> grouped(s, k)[#[trigger] digit_slot(s.len() as int, i)] == s[i],
        forall|i: int| 1 <= i < k && (s.len() - i) % 3 == 0 ==> grouped(s, k)[#[trigger] digit_slot(
            s.len() as int,
            i,
        ) - 1] == ',',
    decreases k,
{
    let n = s.len() as int;
    if k == 1 {
        assert(grouped(s, 0) =~= Seq::<char>::empty());
        assert(grouped(s, 1) =~= seq![s[0]]);
        assert(digit_slot(n, 0) == 0);
    } else {
        lemma_grouped_prefix(s, k - 1);
        lemma_third_step(n - (k - 1));
        let prev = grouped(s, k - 1);
        let sep = if (n - (k - 1)) % 3 == 0 { seq![','] } else { Seq::<char>::empty() };
        let cur = grouped(s, k);
        assert(cur == prev + sep + seq![s[k - 1]]);
        assert(digit_slot(n, k - 1) == prev.len() + sep.len());
        assert forall|i: int| 0 <= i < k implies cur[#[trigger] digit_slot(n, i)] == s[i] by {
            if i < k - 1 {
                lemma_third_step(n - 1 - i);
                vstd::arithmetic::div_mod::lemma_div_is_ordered(n - k, n - 1 - i, 3);
                vstd::arithmetic::div_mod::lemma_div_is_ordered(n - 1 - i, n - 1, 3);
                assert(0 <= digit_slot(n, i) < prev.len());
            }
        }
        assert forall|i: int| 1 <= i < k && (n - i) % 3 == 0 implies cur[#[trigger] digit_slot(n, i) - 1] == ',' by {
            if i < k - 1 {
                lemma_third_step(n - 1 - i);
                vstd::arithmetic::div_mod::lemma_div_is_ordered(n - k, n - 1 - i, 3);
                vstd::arithmetic::div_mod::lemma_div_is_ordered(n - 1 - i, n - 1, 3);
                assert(0 <= digit_slot(n, i) - 1 < prev.len());
            }
        }
    }
}

/// The layout of a grouped amount of `n` digits: `n + (n - 1) / 3`
/// characters (none for no digits), digit `k` at `digit_slot(n, k)`, and a
/// comma just before every digit after the first whose distance from the
/// end is a multiple of three.
pub proof fn lemma_grouping_layout(s: Seq<char>)
    ensures
        s.len() == 0 ==> grouped(s, 0).len() == 0,
        s.len() > 0 ==> grouped(s, s.len() as int).len() == s.len() + (s.len() - 1) / 3,
        forall|k: int| 0 <= k < s.len() ==> grouped(s, s.len() as int)[#[trigger] digit_slot(s.len() as int, k)] == s[k],
        forall|k: int| 1 <= k < s.len() && (s.len() - k) % 3 == 0 ==> grouped(s, s.len() as int)[#[trigger] digit_slot(
            s.len() as int,
            k,
        ) - 1] == ',',
{
    if s.len() > 0 {
        lemma_grouped_prefix(s, s.len() as int);
    }
}

/// Inserts thousands separators into the integer digits of an amount:
/// `1234567` becomes `1,234,567`.
pub fn group_thousands(digits: &str) -> (r: String)
    ensures
        r@ == grouped(digits@, digits@.len() as int),
{
    let n = digits.unicode_len();
    let mut r = String::new();
    let mut i: usize = 0;
    while i < n
        invariant
            n == digits@.len(),
            i <= n,
            r@ == grouped(digits@, i as int),
        decreases n - i,
    {
        proof {
            reveal_strlit(",");
            assert(","@ =~= seq![',']);
        }
        if i > 0 && (n - i) % 3 == 0 {
            r.append(",");
        }
        r.append(digits.substring_char(i, i + 1));
        proof {
            assert(digits@.subrange(i as int, i + 1) =~= seq![digits@[i as int]]);
        }
        i = i + 1;
    }
    r
}

} // verus!
