use quant_research_framework_rs::robustness::{
    code_of_lowered, label_from_flags, nudge_lookback, nudged_lookback, robustness_scenarios, RobustnessFlags,
};

#[test]
fn scenarios_are_listed() {
    let s = robustness_scenarios();
    assert_eq!(s.len(), 5);
    assert_eq!(s[0], ("Test 1", vec!["ENTRY_DRIFT"]));
    assert_eq!(s[3], ("Test 4", vec!["ENTRY_DRIFT", "INDICATOR_VARIANCE"]));
    assert_eq!(s[4], ("Test 5", vec!["NEWS_CANDLES_INJECTION"]));
}

#[test]
fn labels() {
    assert_eq!(label_from_flags(&[]), "NONE");
    assert_eq!(label_from_flags(&["ENTRY_DRIFT", "INDICATOR_VARIANCE"]), "ENT+IND");
    assert_eq!(label_from_flags(&[" Fee Shock ", "slippage_shock"]), "FEE+SLI");
    assert_eq!(label_from_flags(&["NEWS_CANDLES_INJECTION", "bogus"]), "NEWS+???");
}

#[test]
fn flags() {
    let f = RobustnessFlags::from_flags(&["FEE_SHOCK", " entry drift"]);
    assert!(f.fee_shock && f.entry_drift);
    assert!(!f.slippage_shock && !f.indicator_variance && !f.news_injection);
    assert!(!f.is_noop());
    assert!(RobustnessFlags::from_flags(&["other"]).is_noop());
}

#[test]
fn lookback_nudges() {
    assert_eq!(nudged_lookback(50, true), 51);
    assert_eq!(nudged_lookback(50, false), 49);
    assert_eq!(nudged_lookback(2, false), 1);
    assert_eq!(nudged_lookback(1, false), 1);
    assert_eq!(nudged_lookback(0, false), 1);
    assert_eq!(nudged_lookback(0, true), 1);
    for _ in 0..20 {
        let r = nudge_lookback(50);
        assert!(r == 49 || r == 51);
        let r = nudge_lookback(1);
        assert!(r == 1 || r == 2);
    }
}

#[test]
fn lowered_flags_map_to_codes() {
    assert_eq!(code_of_lowered("fee shock"), "FEE");
    assert_eq!(code_of_lowered("slippage_shock"), "SLI");
    assert_eq!(code_of_lowered("entry drift"), "ENT");
    assert_eq!(code_of_lowered("indicator variance"), "IND");
    assert_eq!(code_of_lowered("news candles injection"), "NEWS");
    assert_eq!(code_of_lowered("FEE_SHOCK"), "???");
    assert_eq!(code_of_lowered(" fee_shock"), "???");
}
