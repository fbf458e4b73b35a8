//! De-duplication of funding timestamps through an ordered map.
use vstd::prelude::*;
use crate::carry::funding::is_last_wins_dedup;
use vstd::std_specs::iter::IteratorSpec;
use vstd::std_specs::cmp::OrdSpec;

verus! {

broadcast use vstd::laws_cmp::group_laws_cmp;

/// Keys an ordered map yields in increasing order are strictly ascending.
proof fn lemma_increasing_keys(keys: Seq<i64>)
    requires
        vstd::std_specs::btree::increasing_seq(keys),
    ensures
        forall|a: int, b: int| 0 <= a < b < keys.len() ==> keys[a] < keys[b],
{
    assert(vstd::laws_cmp::obeys_cmp::<i64>());
    assert forall|a: int, b: int| 0 <= a < b < keys.len() implies keys[a] < keys[b] by {
        assert(keys[a].cmp_spec(&keys[b]) is Less);
    }
}

/// Collapses duplicate timestamps, the last row winning, and orders the
/// survivors by time; the duplicate count is the number of rows dropped.
/// Each row is inserted into an ordered map keyed by its time, and the map
/// is read back in key order.
pub fn dedup_last_wins(raw: &Vec<i64>) -> (r: (Vec<i64>, Vec<usize>, usize))
    ensures
        is_last_wins_dedup(raw@, r.0@, r.1@),
        r.2 == raw@.len() - r.0@.len(),
{
    let n = raw.len();
    let mut map: std::collections::BTreeMap<i64, usize> = std::collections::BTreeMap::new();
    let mut p: usize = 0;
    while p < n
        invariant
            n == raw@.len(),
            p <= n,
            forall|q: int| 0 <= q < p ==> map@.contains_key(#[trigger] raw@[q]),
            forall|k: i64| #[trigger] map@.contains_key(k) ==> map@[k] < p && raw@[map@[k] as int] == k
                && forall|q: int| map@[k] < q < p ==> raw@[q] != k,
        decreases n - p,
    {
        map.insert(raw[p], p);
        p = p + 1;
    }
    let mut times: Vec<i64> = Vec::new();
    let mut rows: Vec<usize> = Vec::new();
    let iter0 = map.iter();
    let ghost v = iter0.remaining();
    for kv in it: iter0
        invariant
            it.seq() == v,
            times@.len() == it.index(),
            rows@.len() == it.index(),
            forall|j: int| 0 <= j < it.index() ==> times@[j] == *v[j].0 && rows@[j] == *v[j].1,
    {
        times.push(*kv.0);
        rows.push(*kv.1);
    }
    proof {
        assert(times@.len() == v.len());
        let keys = v.map_values(|kv: (&i64, &usize)| *kv.0);
        assert(vstd::std_specs::btree::increasing_seq(keys));
        lemma_increasing_keys(keys);
        assert forall|a: int, b: int| 0 <= a < b < times@.len() implies times@[a] < times@[b] by {
            assert(keys[a] == times@[a] && keys[b] == times@[b]);
        }
        assert forall|k: int| 0 <= k < rows@.len() implies (#[trigger] rows@[k]) < raw@.len() && raw@[rows@[k] as int]
            == times@[k] by {
            assert(map@.contains_key(*v[k].0));
        }
        assert forall|k: int, q: int| 0 <= k < rows@.len() && rows@[k] < q < raw@.len() implies #[trigger] raw@[q]
            != #[trigger] times@[k] by {
            assert(map@.contains_key(*v[k].0));
        }
        assert forall|q: int| 0 <= q < raw@.len() implies times@.contains(#[trigger] raw@[q]) by {
            let k = raw@[q];
            assert(map@.contains_key(k));
            assert(v.contains((&k, &map@[k])));
            let j = choose|j: int| 0 <= j < v.len() && v[j] == (&k, &map@[k]);
            assert(times@[j] == k);
        }
        assert(map@.dom().subset_of(raw@.to_set())) by {
            assert forall|k: i64| map@.dom().contains(k) implies raw@.to_set().contains(k) by {
                assert(raw@[map@[k] as int] == k);
            }
        }
        raw@.lemma_cardinality_of_set();
        vstd::set_lib::lemma_len_subset(map@.dom(), raw@.to_set());
    }
    let dups = n - times.len();
    (times, rows, dups)
}

} // verus!
