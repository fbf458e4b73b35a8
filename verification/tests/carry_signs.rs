use quant_research_framework_rs::carry::oi::cadence_violation;
use quant_research_framework_rs::carry::signs::{
    funding_flip_positions, trailing_sign_streak, PersistentFundingSignModel,
};
use quant_research_framework_rs::money::group_thousands;
use quant_research_framework_rs::ordering::order_by_time;

#[test]
fn persistent_sign_model_needs_positive_streak() {
    assert!(PersistentFundingSignModel::new(0).is_err());
    assert_eq!(PersistentFundingSignModel::new(0).unwrap_err(), "min_streak must be >= 1");
    let m = PersistentFundingSignModel::new(3).unwrap();
    assert_eq!(m.min_streak, 3);
    assert_eq!(m.direction(1, 3), -1);
    assert_eq!(m.direction(-1, 4), 1);
    assert_eq!(m.direction(-1, 2), 0);
    assert_eq!(m.direction(0, 9), 0);
}

#[test]
fn trailing_streaks() {
    assert_eq!(trailing_sign_streak(&[]), (0, 0));
    assert_eq!(trailing_sign_streak(&[1, -1, -1, -1]), (-1, 3));
    assert_eq!(trailing_sign_streak(&[1, 1, 0]), (0, 1));
}

#[test]
fn funding_flips() {
    let signs = [1i8, 0, -1, -1, 1, 1, -1];
    let strong = [true, true, true, true, false, true, true];
    assert_eq!(funding_flip_positions(&signs, &strong), vec![2, 6]);
    assert!(funding_flip_positions(&[1], &[true]).is_empty());
    assert_eq!(funding_flip_positions(&[0, 1], &[true, true]), vec![1]);
}

#[test]
fn oi_cadence() {
    assert_eq!(cadence_violation(&vec![0, 3600, 7200], 3600, 0), None);
    assert_eq!(cadence_violation(&vec![0, 3600, 9000, 12600], 3600, 60), Some((1, 5400)));
    assert_eq!(cadence_violation(&vec![0], 3600, 0), None);
    assert_eq!(cadence_violation(&vec![0, 3600], 3600, -1), Some((0, 3600)));
}

#[test]
fn stable_time_order() {
    assert_eq!(order_by_time(&vec![5, 1, 5, 0, 1]), vec![3, 1, 4, 0, 2]);
    assert!(order_by_time(&vec![]).is_empty());
}

#[test]
fn thousands_separators() {
    assert_eq!(group_thousands("1234567"), "1,234,567");
    assert_eq!(group_thousands("123"), "123");
    assert_eq!(group_thousands("1234"), "1,234");
    assert_eq!(group_thousands(""), "");
}
