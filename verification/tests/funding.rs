use quant_research_framework_rs::carry::funding::{
    dedup_last_wins, first_misaligned, index_at_or_before, next_funding_time, value_at_or_before,
    FUNDING_INTERVAL_S,
};

#[test]
fn next_funding_time_aligned_returns_self() {
    assert_eq!(next_funding_time(1773072000, FUNDING_INTERVAL_S), 1773072000);
    assert_eq!(
        next_funding_time(1773072001, FUNDING_INTERVAL_S),
        1773072000 + FUNDING_INTERVAL_S
    );
}

#[test]
fn next_funding_time_rounds_negative_times_up() {
    assert_eq!(next_funding_time(-1, FUNDING_INTERVAL_S), 0);
    assert_eq!(next_funding_time(-28800, FUNDING_INTERVAL_S), -28800);
    assert_eq!(next_funding_time(-28801, FUNDING_INTERVAL_S), -28800);
    assert_eq!(next_funding_time(-57601, FUNDING_INTERVAL_S), -57600);
    assert_eq!(next_funding_time(1, 10), 10);
}

#[test]
fn next_funding_time_is_idempotent() {
    for t in [-100_000i64, -28_801, -1, 0, 1, 28_799, 28_800, 1_773_072_001] {
        let once = next_funding_time(t, FUNDING_INTERVAL_S);
        assert_eq!(next_funding_time(once, FUNDING_INTERVAL_S), once);
        assert!(once >= t && once - t < FUNDING_INTERVAL_S);
        assert_eq!(once.rem_euclid(FUNDING_INTERVAL_S), 0);
    }
}

#[test]
fn latest_row_at_or_before() {
    let times = vec![0i64, 28800, 57600];
    assert_eq!(index_at_or_before(&times, -1), None);
    assert_eq!(index_at_or_before(&times, 0), Some(0));
    assert_eq!(index_at_or_before(&times, 28799), Some(0));
    assert_eq!(index_at_or_before(&times, 28800), Some(1));
    assert_eq!(index_at_or_before(&times, 999999), Some(2));
    assert_eq!(index_at_or_before(&vec![], 5), None);
}

#[test]
fn misaligned_settlement_is_reported() {
    assert_eq!(first_misaligned(&vec![0, 28800, 57600], FUNDING_INTERVAL_S), None);
    assert_eq!(first_misaligned(&vec![0, 28800, 57601, 1], FUNDING_INTERVAL_S), Some(2));
    assert_eq!(first_misaligned(&vec![-28800, -5], FUNDING_INTERVAL_S), Some(1));
    assert_eq!(first_misaligned(&vec![], FUNDING_INTERVAL_S), None);
}

#[test]
fn duplicates_keep_the_last_row_and_sort() {
    let raw = vec![57600i64, 0, 28800, 0, 57600, 57600];
    let (times, rows, dups) = dedup_last_wins(&raw);
    assert_eq!(times, vec![0, 28800, 57600]);
    assert_eq!(rows, vec![3, 2, 5]);
    assert_eq!(dups, 3);
    let (t2, r2, d2) = dedup_last_wins(&vec![]);
    assert!(t2.is_empty() && r2.is_empty());
    assert_eq!(d2, 0);
}

#[test]
fn rate_at_returns_most_recent() {
    // Funding events (time, rate); the rate in force at `t` is that of the
    // latest event at or before `t`.
    let times = vec![0i64, 28800, 57600];
    let rates = [1e-4f64, 2e-4, 3e-4];
    assert_eq!(value_at_or_before(&times, &rates, -1), None);
    assert_eq!(value_at_or_before(&times, &rates, 0), Some(1e-4));
    assert_eq!(value_at_or_before(&times, &rates, 28799), Some(1e-4));
    assert_eq!(value_at_or_before(&times, &rates, 28800), Some(2e-4));
    assert_eq!(value_at_or_before(&times, &rates, 999999), Some(3e-4));
}
