use quant_research_framework_rs::pairs::{
    bars_refit_schedule, ordered_pairs, screen_window, CadenceMode, ScreenMethod, StopDecision,
    StopReason,
};

#[test]
fn screen_method_names() {
    assert_eq!(ScreenMethod::EngleGranger.name(), "engle_granger");
    assert_eq!(ScreenMethod::DistanceSsd.name(), "distance_ssd");
}

#[test]
fn all_pairs_in_order() {
    assert_eq!(ordered_pairs(4), vec![(0, 1), (0, 2), (0, 3), (1, 2), (1, 3), (2, 3)]);
    assert!(ordered_pairs(1).is_empty());
    assert_eq!(ordered_pairs(10).len(), 45);
}

#[test]
fn screening_window() {
    assert_eq!(screen_window(9, 10), Some((0, 10)));
    assert_eq!(screen_window(8, 10), None);
    assert_eq!(screen_window(20, 5), Some((16, 21)));
}

#[test]
fn bar_cadence_refits() {
    assert_eq!(bars_refit_schedule(5, 30, 10), vec![5, 15, 25]);
    assert_eq!(bars_refit_schedule(5, 25, 10), vec![5, 15, 25]);
    assert_eq!(bars_refit_schedule(5, 3, 10), vec![5]);
    assert_ne!(CadenceMode::Bars, CadenceMode::OnBreakdown);
}

#[test]
fn stop_decisions() {
    let idle = StopDecision::idle();
    assert!(!idle.fired && idle.reason.is_none() && idle.detail.is_empty());
    let f = StopDecision::fired(StopReason::Breakdown, "jump".to_string());
    assert!(f.fired);
    assert_eq!(f.reason, Some(StopReason::Breakdown));
    assert_eq!(f.detail, "jump");
}
