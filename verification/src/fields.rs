//! Text handling of the loaders and parameter checks: comma-separated
//! fields, column lookup by name, decimal integers and the minimum window
//! of the rolling models.
use vstd::prelude::*;
use vstd::string::*;
use crate::robustness::{trim_str, trimmed};

verus! {

/// Whether two strings hold the same characters.
pub fn str_eq(a: &str, b: &str) -> (r: bool)
    ensures
        r == (a@ == b@),
{
    let n = a.unicode_len();
    if n != b.unicode_len() {
        return false;
    }
    let mut i: usize = 0;
    while i < n
        invariant
            n == a@.len(),
            n == b@.len(),
            i <= n,
            forall|k: int| 0 <= k < i ==> a@[k] == b@[k],
        decreases n - i,
    {
        if a.get_char(i) != b.get_char(i) {
            return false;
        }
        i = i + 1;
    }
    assert(a@ =~= b@);
    true
}

/// Position of the first name equal to `name`, as `Iterator::position`
/// finds a column in a header.
pub fn position_of(names: &[String], name: &str) -> (r: Option<usize>)
    ensures
        match r {
            Some(i) => i < names@.len() && names@[i as int]@ == name@ && forall|j: int|
                0 <= j < i ==> (#[trigger] names@[j])@ != name@,
            None => forall|j: int| 0 <= j < names@.len() ==> (#[trigger] names@[j])@ != name@,
        },
{
    let n = names.len();
    let mut i: usize = 0;
    while i < n
        invariant
            n == names@.len(),
            i <= n,
            forall|j: int| 0 <= j < i ==> (#[trigger] names@[j])@ != name@,
        decreases n - i,
    {
        if str_eq(names[i].as_str(), name) {
            return Some(i);
        }
        i = i + 1;
    }
    None
}

/// Smallest rolling window the funding models and the basis trigger take.
pub const MIN_WINDOW: usize = 5;

/// Message for a window shorter than `MIN_WINDOW`, after `prefix`.
pub open spec fn window_error(prefix: Seq<char>) -> Seq<char> {
    prefix + seq!['w', 'i', 'n', 'd', 'o', 'w', ' ', 'm', 'u', 's', 't', ' ', 'b', 'e', ' ', '>', '=', ' ', '5']
}

/// Accepts a rolling window of at least five rows; a shorter one is an
/// error whose message is `prefix` followed by `window must be >= 5`.
pub fn check_window(window: usize, prefix: &str) -> (r: Result<(), String>)
    ensures
        match r {
            Ok(()) => window >= MIN_WINDOW,
            Err(e) => window < MIN_WINDOW && e@ == window_error(prefix@),
        },
{
    if window < MIN_WINDOW {
        let mut e = String::from_str(prefix);
        e.append("window must be >= 5");
        proof {
            reveal_strlit("window must be >= 5");
            assert(e@ =~= window_error(prefix@));
        }
        return Err(e);
    }
    Ok(())
}

/// The fields of `s` between commas: `s.split(',')` read as sequences.
pub open spec fn comma_fields(s: Seq<char>) -> Seq<Seq<char>>
    decreases s.len(),
{
    if s.len() == 0 {
        seq![Seq::empty()]
    } else {
        let prev = comma_fields(s.drop_last());
        if s.last() == ',' {
            prev.push(Seq::empty())
        } else {
            prev.update(prev.len() - 1, prev.last().push(s.last()))
        }
    }
}

proof fn lemma_comma_fields_nonempty(s: Seq<char>)
    ensures
        comma_fields(s).len() >= 1,
    decreases s.len(),
{
    if s.len() > 0 {
        lemma_comma_fields_nonempty(s.drop_last());
    }
}

/// Splits a line at every comma, as `str::split(',')` does.
pub fn split_commas(line: &str) -> (r: Vec<&str>)
    ensures
        r@.map_values(|f: &str| f@) == comma_fields(line@),
{
    let n = line.unicode_len();
    let mut r: Vec<&str> = Vec::new();
    let mut start: usize = 0;
    let mut i: usize = 0;
    assert(line@.subrange(0, 0) =~= Seq::<char>::empty());
    assert(r@.map_values(|f: &str| f@).push(line@.subrange(0, 0)) =~= comma_fields(line@.subrange(0, 0)));
    while i < n
        invariant
            n == line@.len(),
            start <= i <= n,
            r@.map_values(|f: &str| f@).push(line@.subrange(start as int, i as int)) == comma_fields(
                line@.subrange(0, i as int),
            ),
        decreases n - i,
    {
        let c = line.get_char(i);
        let ghost prefix = line@.subrange(0, i + 1);
        let ghost before = r@.map_values(|f: &str| f@);
        proof {
            assert(prefix.drop_last() =~= line@.subrange(0, i as int));
            assert(prefix.last() == c);
            lemma_comma_fields_nonempty(line@.subrange(0, i as int));
        }
        if c == ',' {
            let f = line.substring_char(start, i);
            let ghost old_start = start;
            r.push(f);
            start = i + 1;
            proof {
                assert(r@.map_values(|f: &str| f@) =~= before.push(line@.subrange(old_start as int, i as int)));
                assert(line@.subrange(start as int, i + 1) =~= Seq::<char>::empty());
            }
        } else {
            proof {
                let prev = comma_fields(line@.subrange(0, i as int));
                assert(line@.subrange(start as int, i + 1) =~= line@.subrange(start as int, i as int).push(c));
                assert(before.push(line@.subrange(start as int, i + 1)) =~= prev.update(
                    prev.len() - 1,
                    prev.last().push(c),
                ));
            }
        }
        i = i + 1;
    }
    let last = line.substring_char(start, n);
    r.push(last);
    assert(line@.subrange(0, n as int) =~= line@);
    r
}

/// Whether every character of `s` is an ASCII digit.
pub open spec fn all_digits(s: Seq<char>) -> bool {
    forall|i: int| 0 <= i < s.len() ==> '0' <= #[trigger] s[i] <= '9'
}

/// The value of a string of ASCII digits read in base ten.
pub open spec fn digits_value(s: Seq<char>) -> int
    decreases s.len(),
{
    if s.len() == 0 {
        0
    } else {
        digits_value(s.drop_last()) * 10 + (s.last() as int - '0' as int)
    }
}

/// `s` read as an `i64` the way `str::parse::<i64>` reads it: an optional
/// `+` or `-`, then at least one ASCII digit, and a value in range.
pub open spec fn parsed_i64(s: Seq<char>) -> Option<int> {
    let neg = s.len() > 0 && s[0] == '-';
    let body = if s.len() > 0 && (s[0] == '-' || s[0] == '+') { s.skip(1) } else { s };
    let v = if neg { -digits_value(body) } else { digits_value(body) };
    if body.len() == 0 || !all_digits(body) || v < i64::MIN || v > i64::MAX {
        None
    } else {
        Some(v)
    }
}

proof fn lemma_digits_value_nonneg(s: Seq<char>)
    requires
        all_digits(s),
    ensures
        digits_value(s) >= 0,
    decreases s.len(),
{
    if s.len() > 0 {
        lemma_digits_value_nonneg(s.drop_last());
    }
}

/// Reads a decimal `i64`: an optional sign and ASCII digits, in range.
pub fn parse_i64(s: &str) -> (r: Option<i64>)
    ensures
        match r {
            Some(v) => parsed_i64(s@) == Some(v as int),
            None => parsed_i64(s@) is None,
        },
{
    let n = s.unicode_len();
    let mut i: usize = 0;
    let mut neg = false;
    if n > 0 {
        let c0 = s.get_char(0);
        if c0 == '-' || c0 == '+' {
            neg = c0 == '-';
            i = 1;
        }
    }
    let first = i;
    let ghost body = s@.subrange(first as int, n as int);
    proof {
        if first == 1 {
            assert(body =~= s@.skip(1));
        } else {
            assert(body =~= s@);
        }
    }
    if first == n {
        return None;
    }
    let cap: i128 = 9_223_372_036_854_775_809;
    let mut acc: i128 = 0;
    assert(s@.subrange(first as int, first as int) =~= Seq::<char>::empty());
    while i < n
        invariant
            n == s@.len(),
            first <= i <= n,
            cap == 9_223_372_036_854_775_809,
            body == s@.subrange(first as int, n as int),
            body == (if s@.len() > 0 && (s@[0] == '-' || s@[0] == '+') { s@.skip(1) } else { s@ }),
            neg == (s@.len() > 0 && s@[0] == '-'),
            all_digits(s@.subrange(first as int, i as int)),
            acc as int == (if digits_value(s@.subrange(first as int, i as int)) < cap {
                digits_value(s@.subrange(first as int, i as int))
            } else {
                cap as int
            }),
            0 <= acc <= cap,
        decreases n - i,
    {
        let c = s.get_char(i);
        let ghost pre = s@.subrange(first as int, i as int);
        let ghost next = s@.subrange(first as int, i + 1);
        assert(next.drop_last() =~= pre);
        assert(next.last() == c);
        if !('0' <= c && c <= '9') {
            proof {
                assert(body[i - first] == c);
                assert(!all_digits(body));
            }
            return None;
        }
        let d = (c as u32 - '0' as u32) as i128;
        proof {
            lemma_digits_value_nonneg(pre);
        }
        if acc < cap {
            let v = acc * 10 + d;
            acc = if v < cap { v } else { cap };
        }
        assert forall|k: int| 0 <= k < next.len() implies '0' <= #[trigger] next[k] <= '9' by {
            if k < pre.len() {
                assert(next[k] == pre[k]);
            }
        }
        i = i + 1;
    }
    proof {
        assert(s@.subrange(first as int, n as int) =~= body);
        lemma_digits_value_nonneg(body);
    }
    if neg {
        if acc <= 9_223_372_036_854_775_808 {
            Some((-acc) as i64)
        } else {
            None
        }
    } else if acc <= 9_223_372_036_854_775_807 {
        Some(acc as i64)
    } else {
        None
    }
}

/// A time field of a data row: white space trimmed, then read as a
/// decimal `i64`.
pub fn parse_time_field(field: &str) -> (r: Option<i64>)
    ensures
        match r {
            Some(v) => parsed_i64(trimmed(field@)) == Some(v as int),
            None => parsed_i64(trimmed(field@)) is None,
        },
{
    parse_i64(trim_str(field))
}

/// The fields of line `index` of a headed comma-separated file: `None`
/// for the header line and for a line with fewer than `min_fields` fields.
pub fn data_row_fields(index: usize, line: &str, min_fields: usize) -> (r: Option<Vec<&str>>)
    ensures
        match r {
            Some(f) => index != 0 && comma_fields(line@).len() >= min_fields && f@.map_values(|x: &str| x@)
                == comma_fields(line@),
            None => index == 0 || comma_fields(line@).len() < min_fields,
        },
{
    if index == 0 {
        return None;
    }
    let fields = split_commas(line);
    if fields.len() < min_fields {
        return None;
    }
    Some(fields)
}

} // verus!
