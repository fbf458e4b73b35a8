use quant_research_framework_rs::sampling::{fisher_yates, resample_indices, shuffle, shuffled_indices, SeededRng};
use rand::rngs::StdRng;
use rand::{Rng, SeedableRng};

#[test]
fn shuffled_indices_is_a_seeded_permutation() {
    let mut a = SeededRng::seed_from_u64(17);
    let mut b = SeededRng::seed_from_u64(17);
    let x = shuffled_indices(50, &mut a);
    let y = shuffled_indices(50, &mut b);
    assert_eq!(x, y);
    let mut sorted = x.clone();
    sorted.sort_unstable();
    assert_eq!(sorted, (0..50).collect::<Vec<_>>());
    assert_ne!(x, (0..50).collect::<Vec<_>>());
    assert!(shuffled_indices(0, &mut a).is_empty());
    assert_eq!(shuffled_indices(1, &mut a), vec![0]);
}

#[test]
fn shuffle_matches_shuffled_indices() {
    let values: Vec<f64> = (0..20).map(|i| i as f64 * 0.5).collect();
    let mut v = values.clone();
    let mut r1 = SeededRng::seed_from_u64(7);
    shuffle(&mut v, &mut r1);
    let mut r2 = SeededRng::seed_from_u64(7);
    let order = shuffled_indices(20, &mut r2);
    let expected: Vec<f64> = order.iter().map(|&i| values[i]).collect();
    assert_eq!(v, expected);
    let mut s1 = v.clone();
    s1.sort_by(|a, b| a.partial_cmp(b).unwrap());
    assert_eq!(s1, values);
}

#[test]
fn resampling_stays_in_range_and_is_seeded() {
    let mut a = SeededRng::seed_from_u64(9);
    let mut b = SeededRng::seed_from_u64(9);
    let x = resample_indices(5, 100, &mut a);
    let y = resample_indices(5, 100, &mut b);
    assert_eq!(x, y);
    assert_eq!(x.len(), 100);
    assert!(x.iter().all(|&i| i < 5));
    let distinct: std::collections::HashSet<usize> = x.iter().copied().collect();
    assert!(distinct.len() > 1);
    assert!(resample_indices(0, 0, &mut a).is_empty());
}

#[test]
fn fisher_yates_applies_the_swaps_in_order() {
    assert_eq!(fisher_yates(4, &[3, 2, 1]), vec![0, 1, 2, 3]);
    assert_eq!(fisher_yates(4, &[0, 0, 0]), vec![1, 2, 3, 0]);
    assert_eq!(fisher_yates(3, &[1, 0]), vec![1, 0, 2].iter().map(|&i| [0usize, 2, 1][i]).collect::<Vec<_>>());
    assert_eq!(fisher_yates(1, &[]), vec![0]);
    assert!(fisher_yates(0, &[]).is_empty());
}

#[test]
fn shuffled_indices_draws_like_a_hand_written_fisher_yates() {
    for seed in 0..10u64 {
        let mut a = SeededRng::seed_from_u64(seed);
        let mut b = StdRng::seed_from_u64(seed);
        let mut expected: Vec<usize> = (0..30).collect();
        for index in (1..30).rev() {
            let other = b.random_range(0..=index);
            expected.swap(index, other);
        }
        assert_eq!(shuffled_indices(30, &mut a), expected);
    }
}

#[test]
fn resample_indices_draw_like_random_range() {
    let mut a = SeededRng::new(StdRng::seed_from_u64(3));
    let mut b = StdRng::seed_from_u64(3);
    let expected: Vec<usize> = (0..50).map(|_| b.random_range(0..7)).collect();
    assert_eq!(resample_indices(7, 50, &mut a), expected);
}
