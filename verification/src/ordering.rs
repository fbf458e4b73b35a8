//! Stable ordering of records by a lexicographic `(time, rank)` key.
//!
//! Loaders sort their rows by timestamp and the rebalance scheduler sorts
//! its events by `(time, kind rank)`; both need a *stable* sort, so rows
//! that share a key keep the order in which they were read.  The order is
//! computed as a permutation of row indices, which the caller then applies.
use vstd::prelude::*;

verus! {

/// Sort key as the contracts see it: a timestamp and a tie-breaking rank.
pub type SortKey = (int, int);

/// Sort key as the code holds it.
pub type ExecKey = (i64, u8);

/// The mathematical key of an executable key.
pub open spec fn key_of(k: ExecKey) -> SortKey {
    (k.0 as int, k.1 as int)
}

/// The mathematical keys of a sequence of executable keys.
pub open spec fn keys_of(keys: Seq<ExecKey>) -> Seq<SortKey> {
    keys.map_values(|k: ExecKey| key_of(k))
}

/// `a` sorts no later than `b`.
pub open spec fn key_le(a: SortKey, b: SortKey) -> bool {
    a.0 < b.0 || (a.0 == b.0 && a.1 <= b.1)
}

/// `a` sorts strictly before `b`.
pub open spec fn key_lt(a: SortKey, b: SortKey) -> bool {
    a.0 < b.0 || (a.0 == b.0 && a.1 < b.1)
}

/// Stable insertion of index `i` into the index sequence `s`: `i` goes
/// after every trailing element whose key is not greater than its own.
pub open spec fn insert_stable(keys: Seq<SortKey>, s: Seq<int>, i: int) -> Seq<int>
    decreases s.len(),
{
    if s.len() == 0 {
        seq![i]
    } else if key_le(keys[s.last()], keys[i]) {
        s.push(i)
    } else {
        insert_stable(keys, s.drop_last(), i).push(s.last())
    }
}

/// The stable sorting permutation of the first `n` keys.
pub open spec fn stable_order(keys: Seq<SortKey>, n: nat) -> Seq<int>
    decreases n,
{
    if n == 0 {
        Seq::empty()
    } else {
        insert_stable(keys, stable_order(keys, (n - 1) as nat), n - 1)
    }
}

/// The index sequence `s` lists positions whose keys never decrease.
pub open spec fn sorted_by_key(keys: Seq<SortKey>, s: Seq<int>) -> bool {
    forall|a: int, b: int| 0 <= a < b < s.len() ==> key_le(keys[s[a]], keys[s[b]])
}

/// `s` holds each of `0..n` exactly once.
pub open spec fn is_index_permutation(s: Seq<int>, n: nat) -> bool {
    &&& s.len() == n
    &&& forall|a: int| 0 <= a < s.len() ==> 0 <= #[trigger] s[a] < n
    &&& forall|a: int, b: int| 0 <= a < b < s.len() ==> s[a] != s[b]
}

/// Rows that share a key appear in their original relative order.
pub open spec fn keeps_ties_in_order(keys: Seq<SortKey>, s: Seq<int>) -> bool {
    forall|a: int, b: int|
        0 <= a < b < s.len() && keys[s[a]] == keys[s[b]] ==> s[a] < s[b]
}

/// Inserting at the scan position `j` is the stable insertion.
proof fn lemma_insert_at_scan(keys: Seq<SortKey>, s: Seq<int>, i: int, j: int)
    requires
        0 <= j <= s.len(),
        forall|p: int| j <= p < s.len() ==> !key_le(#[trigger] keys[s[p]], keys[i]),
        j > 0 ==> key_le(keys[s[j - 1]], keys[i]),
    ensures
        insert_stable(keys, s, i) == s.take(j).push(i) + s.skip(j),
    decreases s.len(),
{
    if s.len() == 0 {
        assert(s.take(j).push(i) + s.skip(j) =~= seq![i]);
    } else if key_le(keys[s.last()], keys[i]) {
        assert(j == s.len());
        assert(s.take(j).push(i) + s.skip(j) =~= s.push(i));
    } else {
        let t = s.drop_last();
        assert(j < s.len());
        assert forall|p: int| j <= p < t.len() implies !key_le(#[trigger] keys[t[p]], keys[i]) by {
            assert(t[p] == s[p]);
        }
        if j > 0 {
            assert(t[j - 1] == s[j - 1]);
        }
        lemma_insert_at_scan(keys, t, i, j);
        assert(t.take(j).push(i) + t.skip(j) + seq![s.last()] =~= s.take(j).push(i) + s.skip(j));
    }
}

proof fn lemma_insert_stable_contains(keys: Seq<SortKey>, s: Seq<int>, i: int)
    ensures
        insert_stable(keys, s, i).contains(i),
        forall|x: int| s.contains(x) ==> #[trigger] insert_stable(keys, s, i).contains(x),
    decreases s.len(),
{
    let r = insert_stable(keys, s, i);
    if s.len() == 0 {
        assert(r[0] == i);
    } else if key_le(keys[s.last()], keys[i]) {
        assert(r[r.len() - 1] == i);
        assert forall|x: int| s.contains(x) implies #[trigger] r.contains(x) by {
            let p = choose|p: int| 0 <= p < s.len() && s[p] == x;
            assert(r[p] == x);
        }
    } else {
        let t = s.drop_last();
        lemma_insert_stable_contains(keys, t, i);
        let u = insert_stable(keys, t, i);
        assert(r == u.push(s.last()));
        let q = choose|q: int| 0 <= q < u.len() && u[q] == i;
        assert(r[q] == i);
        assert forall|x: int| s.contains(x) implies #[trigger] r.contains(x) by {
            let p = choose|p: int| 0 <= p < s.len() && s[p] == x;
            if p == s.len() - 1 {
                assert(r[r.len() - 1] == x);
            } else {
                assert(t[p] == x);
                assert(u.contains(x));
                let q2 = choose|q2: int| 0 <= q2 < u.len() && u[q2] == x;
                assert(r[q2] == x);
            }
        }
    }
}

/// The stable order of the first `n` rows lists every one of them.
pub proof fn lemma_stable_order_covers(keys: Seq<SortKey>, n: nat, i: int)
    requires
        0 <= i < n,
    ensures
        stable_order(keys, n).contains(i),
    decreases n,
{
    let m = (n - 1) as nat;
    lemma_insert_stable_contains(keys, stable_order(keys, m), m as int);
    if i < m {
        lemma_stable_order_covers(keys, m, i);
    }
}

/// The stable order is sorted, a permutation and keeps ties in input order.
pub proof fn lemma_stable_order_props(keys: Seq<SortKey>, n: nat)
    requires
        n <= keys.len(),
    ensures
        sorted_by_key(keys, stable_order(keys, n)),
        is_index_permutation(stable_order(keys, n), n),
        keeps_ties_in_order(keys, stable_order(keys, n)),
    decreases n,
{
    if n > 0 {
        let m = (n - 1) as nat;
        let s = stable_order(keys, m);
        lemma_stable_order_props(keys, m);
        let i = m as int;
        let j = scan_position(keys, s, i);
        lemma_scan_position(keys, s, i);
        lemma_insert_at_scan(keys, s, i, j);
        let r = s.take(j).push(i) + s.skip(j);
        assert(stable_order(keys, n) == r);
        assert forall|a: int| 0 <= a < r.len() implies 0 <= #[trigger] r[a] < n by {
            if a < j {
                assert(r[a] == s[a]);
            } else if a > j {
                assert(r[a] == s[a - 1]);
            }
        }
        assert forall|a: int, b: int| 0 <= a < b < r.len() implies key_le(keys[r[a]], keys[r[b]])
            && r[a] != r[b] && (keys[r[a]] == keys[r[b]] ==> r[a] < r[b]) by {
            if a < j && b < j {
                assert(r[a] == s[a] && r[b] == s[b]);
            } else if a < j && b == j {
                assert(r[a] == s[a]);
                assert(key_le(keys[s[a]], keys[s[j - 1]]));
            } else if a < j && b > j {
                assert(r[a] == s[a] && r[b] == s[b - 1]);
            } else if a == j {
                assert(r[b] == s[b - 1]);
                assert(!key_le(keys[s[b - 1]], keys[i]));
            } else {
                assert(r[a] == s[a - 1] && r[b] == s[b - 1]);
            }
        }
    }
}

/// Where the scan from the end stops when inserting `i` into `s`.
spec fn scan_position(keys: Seq<SortKey>, s: Seq<int>, i: int) -> int
    decreases s.len(),
{
    if s.len() == 0 {
        0
    } else if key_le(keys[s.last()], keys[i]) {
        s.len() as int
    } else {
        scan_position(keys, s.drop_last(), i)
    }
}

proof fn lemma_scan_position(keys: Seq<SortKey>, s: Seq<int>, i: int)
    requires
        sorted_by_key(keys, s),
    ensures
        0 <= scan_position(keys, s, i) <= s.len(),
        forall|p: int|
            scan_position(keys, s, i) <= p < s.len() ==> !key_le(#[trigger] keys[s[p]], keys[i]),
        forall|p: int|
            0 <= p < scan_position(keys, s, i) ==> key_le(#[trigger] keys[s[p]], keys[i]),
    decreases s.len(),
{
    if s.len() > 0 {
        let t = s.drop_last();
        assert(sorted_by_key(keys, t)) by {
            assert forall|a: int, b: int| 0 <= a < b < t.len() implies key_le(keys[t[a]], keys[t[b]]) by {
                assert(t[a] == s[a] && t[b] == s[b]);
            }
        }
        lemma_scan_position(keys, t, i);
        if key_le(keys[s.last()], keys[i]) {
            assert forall|p: int| 0 <= p < s.len() implies key_le(#[trigger] keys[s[p]], keys[i]) by {
                if p < s.len() - 1 {
                    assert(key_le(keys[s[p]], keys[s[s.len() - 1]]));
                }
            }
        } else {
            assert forall|p: int| 0 <= p < scan_position(keys, s, i) implies key_le(#[trigger] keys[s[p]], keys[i]) by {
                assert(t[p] == s[p]);
            }
            assert forall|p: int| scan_position(keys, s, i) <= p < s.len() implies !key_le(#[trigger] keys[s[p]], keys[i]) by {
                if p < s.len() - 1 {
                    assert(t[p] == s[p]);
                }
            }
        }
    }
}


/// Row index of the first entry of the index sequence `s` whose time
/// exceeds `after`.
pub open spec fn first_after_idx(keys: Seq<SortKey>, s: Seq<int>, after: int) -> Option<int>
    decreases s.len(),
{
    if s.len() == 0 {
        None
    } else if keys[s[0]].0 > after {
        Some(s[0])
    } else {
        first_after_idx(keys, s.skip(1), after)
    }
}

/// Among the first `n` rows, the one with the smallest key whose time
/// exceeds `after`; of rows with equal keys the earliest wins.
pub open spec fn best_after(keys: Seq<SortKey>, n: nat, after: int) -> Option<int>
    decreases n,
{
    if n == 0 {
        None
    } else {
        let b = best_after(keys, (n - 1) as nat, after);
        let i = n - 1;
        if keys[i].0 > after && (b is None || key_lt(keys[i], keys[b.unwrap()])) {
            Some(i)
        } else {
            b
        }
    }
}

proof fn lemma_first_after_concat(keys: Seq<SortKey>, a: Seq<int>, b: Seq<int>, after: int)
    ensures
        first_after_idx(keys, a + b, after) == (match first_after_idx(keys, a, after) {
            Some(x) => Some(x),
            None => first_after_idx(keys, b, after),
        }),
    decreases a.len(),
{
    if a.len() == 0 {
        assert(a + b =~= b);
    } else {
        assert((a + b)[0] == a[0]);
        assert((a + b).skip(1) =~= a.skip(1) + b);
        lemma_first_after_concat(keys, a.skip(1), b, after);
    }
}

proof fn lemma_first_after_found_in(keys: Seq<SortKey>, s: Seq<int>, after: int)
    ensures
        first_after_idx(keys, s, after) is Some ==> exists|p: int|
            0 <= p < s.len() && s[p] == first_after_idx(keys, s, after).unwrap(),
        first_after_idx(keys, s, after) is Some ==> keys[first_after_idx(keys, s, after).unwrap()].0 > after,
        first_after_idx(keys, s, after) is None ==> forall|p: int|
            0 <= p < s.len() ==> keys[#[trigger] s[p]].0 <= after,
    decreases s.len(),
{
    if s.len() > 0 {
        lemma_first_after_found_in(keys, s.skip(1), after);
        if keys[s[0]].0 > after {
            assert(s[0] == s[0]);
        } else {
            if first_after_idx(keys, s.skip(1), after) is Some {
                let p = choose|p: int| 0 <= p < s.skip(1).len() && s.skip(1)[p] == first_after_idx(keys, s.skip(1), after).unwrap();
                assert(s[p + 1] == s.skip(1)[p]);
            } else {
                assert forall|p: int| 0 <= p < s.len() implies keys[#[trigger] s[p]].0 <= after by {
                    if p > 0 {
                        assert(s[p] == s.skip(1)[p - 1]);
                    }
                }
            }
        }
    }
}

/// The first entry of the stable order whose time exceeds `after` is the
/// best-keyed such row, earliest row first among equal keys.
pub proof fn lemma_first_after_is_best(keys: Seq<SortKey>, n: nat, after: int)
    requires
        n <= keys.len(),
    ensures
        first_after_idx(keys, stable_order(keys, n), after) == best_after(keys, n, after),
    decreases n,
{
    if n > 0 {
        let m = (n - 1) as nat;
        let s = stable_order(keys, m);
        let i = m as int;
        lemma_first_after_is_best(keys, m, after);
        lemma_stable_order_props(keys, m);
        lemma_scan_position(keys, s, i);
        let j = scan_position(keys, s, i);
        lemma_insert_at_scan(keys, s, i, j);
        let a = s.take(j);
        let c = s.skip(j);
        assert(s =~= a + c);
        assert(stable_order(keys, n) == a.push(i) + c);
        assert(a.push(i) =~= a + seq![i]);
        lemma_first_after_concat(keys, a.push(i), c, after);
        lemma_first_after_concat(keys, a, seq![i], after);
        lemma_first_after_concat(keys, a, c, after);
        assert(first_after_idx(keys, seq![i], after) == if keys[i].0 > after { Some(i) } else { None::<int> }) by {
            assert(seq![i].skip(1) =~= Seq::<int>::empty());
            assert(first_after_idx(keys, Seq::<int>::empty(), after) is None);
            assert(seq![i][0] == i);
        }
        lemma_first_after_found_in(keys, a, after);
        lemma_first_after_found_in(keys, c, after);
        if first_after_idx(keys, a, after) is Some {
            let x = first_after_idx(keys, a, after).unwrap();
            let p = choose|p: int| 0 <= p < a.len() && a[p] == x;
            assert(a[p] == s[p]);
            assert(key_le(keys[s[p]], keys[i]));
        } else if first_after_idx(keys, c, after) is Some {
            let y = first_after_idx(keys, c, after).unwrap();
            let p = choose|p: int| 0 <= p < c.len() && c[p] == y;
            assert(c[p] == s[p + j]);
            assert(!key_le(keys[s[p + j]], keys[i]));
        }
    }
}

fn key_le_exec(a: ExecKey, b: ExecKey) -> (r: bool)
    ensures
        r == key_le(key_of(a), key_of(b)),
{
    a.0 < b.0 || (a.0 == b.0 && a.1 <= b.1)
}

/// The stable sorting permutation of `keys`: position `k` of the result is
/// the index of the row that sorts `k`-th.
pub fn stable_sort_order(keys: &Vec<ExecKey>) -> (order: Vec<usize>)
    ensures
        order@.map_values(|x: usize| x as int) == stable_order(keys_of(keys@), keys@.len()),
{
    let n = keys.len();
    let mut order: Vec<usize> = Vec::new();
    let mut i: usize = 0;
    while i < n
        invariant
            n == keys@.len(),
            i <= n,
            order@.map_values(|x: usize| x as int) == stable_order(keys_of(keys@), i as nat),
        decreases n - i,
    {
        let ghost s = order@.map_values(|x: usize| x as int);
        proof {
            lemma_stable_order_props(keys_of(keys@), i as nat);
        }
        let mut j: usize = order.len();
        assert forall|p: int| 0 <= p < order@.len() implies (#[trigger] order@[p]) < n by {
            assert(s[p] == order@[p] as int);
        }
        while j > 0 && !key_le_exec(keys[order[j - 1]], keys[i])
            invariant
                n == keys@.len(),
                i < n,
                j <= order@.len(),
                s == order@.map_values(|x: usize| x as int),
                is_index_permutation(s, i as nat),
                forall|p: int| 0 <= p < order@.len() ==> (#[trigger] order@[p]) < n,
                forall|p: int| j <= p < s.len() ==> !key_le(#[trigger] keys_of(keys@)[s[p]], keys_of(keys@)[i as int]),
            decreases j,
        {
            j = j - 1;
        }
        proof {
            if j > 0 {
                assert(key_le(keys_of(keys@)[s[j - 1]], keys_of(keys@)[i as int]));
            }
            lemma_insert_at_scan(keys_of(keys@), s, i as int, j as int);
        }
        order.insert(j, i);
        proof {
            assert(order@.map_values(|x: usize| x as int) =~= s.take(j as int).push(i as int) + s.skip(j as int));
        }
        i = i + 1;
    }
    order
}


/// Row order that sorts records by timestamp, stably: the permutation a
/// stable `sort_by_key` on the times applies.
pub fn order_by_time(times: &Vec<i64>) -> (order: Vec<usize>)
    ensures
        is_index_permutation(order@.map_values(|x: usize| x as int), times@.len()),
        forall|a: int, b: int| 0 <= a < b < order@.len() ==> times@[order@[a] as int] <= times@[order@[b] as int],
        forall|a: int, b: int|
            0 <= a < b < order@.len() && times@[order@[a] as int] == times@[order@[b] as int] ==> order@[a] < order@[b],
{
    let n = times.len();
    let mut keys: Vec<ExecKey> = Vec::new();
    let mut k: usize = 0;
    while k < n
        invariant
            n == times@.len(),
            k <= n,
            keys@.len() == k,
            forall|p: int| 0 <= p < k ==> #[trigger] keys@[p] == (times@[p], 0u8),
        decreases n - k,
    {
        keys.push((times[k], 0));
        k = k + 1;
    }
    let order = stable_sort_order(&keys);
    let ghost kk = keys_of(keys@);
    proof {
        lemma_stable_order_props(kk, n as nat);
    }
    let ghost s = order@.map_values(|x: usize| x as int);
    assert forall|a: int, b: int| #![trigger order@[a], order@[b]] 0 <= a < b < order@.len() implies times@[order@[a] as int] <= times@[order@[b] as int]
        && (times@[order@[a] as int] == times@[order@[b] as int] ==> order@[a] < order@[b]) by {
        assert(s[a] == order@[a] as int && s[b] == order@[b] as int);
        assert(s == stable_order(kk, n as nat));
        assert(0 <= s[a] < n && 0 <= s[b] < n);
        assert(key_le(kk[s[a]], kk[s[b]]));
        assert(kk[s[a]] == key_of(keys@[s[a]]));
        assert(kk[s[b]] == key_of(keys@[s[b]]));
        assert(kk[s[a]] == kk[s[b]] ==> s[a] < s[b]);
    }
    order
}

} // verus!
