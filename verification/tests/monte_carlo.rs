use quant_research_framework_rs::monte_carlo::{draw_samples, MonteCarloMode, DEFAULT_SEED, DEFAULT_TRADE_RUNS};
use quant_research_framework_rs::sampling::SeededRng;

#[test]
fn mode_names_round_trip() {
    for m in [MonteCarloMode::Permutation, MonteCarloMode::Resampling] {
        assert_eq!(MonteCarloMode::parse(m.as_str()), Ok(m));
    }
    assert_eq!(MonteCarloMode::Permutation.as_str(), "permutation");
    assert_eq!(MonteCarloMode::Resampling.as_str(), "resampling");
}

#[test]
fn parse_ignores_ascii_case() {
    assert_eq!(MonteCarloMode::parse("PERMUTATION"), Ok(MonteCarloMode::Permutation));
    assert_eq!(MonteCarloMode::parse("ReSampling"), Ok(MonteCarloMode::Resampling));
}

#[test]
fn parse_rejects_unknown_names() {
    let err = MonteCarloMode::parse("bootstrap").unwrap_err();
    assert_eq!(err, "unknown Monte Carlo mode \"bootstrap\"; choose permutation or resampling");
    assert!(MonteCarloMode::parse(" permutation").is_err());
    let err = MonteCarloMode::parse("a\"b").unwrap_err();
    assert!(err.contains("\"a\\\"b\""));
}

#[test]
fn defaults() {
    assert_eq!(DEFAULT_TRADE_RUNS, 1000);
    assert_eq!(DEFAULT_SEED, 42);
}

#[test]
fn permutation_samples_are_seeded_permutations() {
    let mut a = SeededRng::seed_from_u64(7);
    let mut b = SeededRng::seed_from_u64(7);
    let x = draw_samples(5, MonteCarloMode::Permutation, 25, &mut a);
    let y = draw_samples(5, MonteCarloMode::Permutation, 25, &mut b);
    assert_eq!(x, y);
    assert_eq!(x.len(), 25);
    for s in &x {
        let mut sorted = s.clone();
        sorted.sort_unstable();
        assert_eq!(sorted, vec![0, 1, 2, 3, 4]);
    }
    assert!(x.iter().any(|s| *s != vec![0, 1, 2, 3, 4]));
}

#[test]
fn resampling_samples_draw_with_replacement() {
    let mut a = SeededRng::seed_from_u64(9);
    let mut b = SeededRng::seed_from_u64(9);
    let x = draw_samples(5, MonteCarloMode::Resampling, 25, &mut a);
    assert_eq!(x, draw_samples(5, MonteCarloMode::Resampling, 25, &mut b));
    assert_eq!(x.len(), 25);
    assert!(x.iter().all(|s| s.len() == 5 && s.iter().all(|&i| i < 5)));
    // Some sample repeats a trade, which a permutation never does.
    assert!(x.iter().any(|s| {
        let mut t = s.clone();
        t.sort_unstable();
        t.dedup();
        t.len() < 5
    }));
    assert!(draw_samples(0, MonteCarloMode::Resampling, 3, &mut a).iter().all(|s| s.is_empty()));
    assert!(draw_samples(4, MonteCarloMode::Permutation, 0, &mut a).is_empty());
}
