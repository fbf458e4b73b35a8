use std::collections::HashSet;
use quant_research_framework_rs::orchestrator::{dispatch, OrchestratorMode, RouteError, RouteKey};

#[test]
fn default_route_is_single_no_regime() {
    let key = RouteKey::default();
    assert_eq!(dispatch(key).unwrap(), OrchestratorMode::SingleNoRegime);
}

#[test]
fn regime_flag_selects_single_with_regime() {
    let key = RouteKey { regime: true, ..Default::default() };
    assert_eq!(dispatch(key).unwrap(), OrchestratorMode::SingleWithRegime);
}

#[test]
fn multi_asset_flag_errors_pending_phase2() {
    let key = RouteKey { multi_asset: true, ..Default::default() };
    let err = dispatch(key).unwrap_err();
    assert!(err.message().contains("Phase 2"));
}

#[test]
fn route_key_is_hashable_and_eq() {
    let mut s = HashSet::new();
    s.insert(RouteKey { regime: true, ..Default::default() });
    s.insert(RouteKey { regime: true, ..Default::default() });
    s.insert(RouteKey { regime: false, ..Default::default() });
    assert_eq!(s.len(), 2);
}

#[test]
fn other_flags_do_not_change_the_route() {
    let key = RouteKey { multi_leg: true, record_costs: true, hold_period_set: true, ..Default::default() };
    assert_eq!(dispatch(key).unwrap(), OrchestratorMode::SingleNoRegime);
    let key = RouteKey { regime: true, multi_asset: true, ..Default::default() };
    match dispatch(key) {
        Err(RouteError::NotYetSupported(msg)) => {
            assert_eq!(msg, "multi_asset routes ship with the panel plugin in Phase 2");
        }
        Ok(_) => panic!("multi-asset key was routed"),
    }
}

#[test]
fn route_error_message_has_prefix() {
    let err = RouteError::NotYetSupported("x".to_string());
    assert_eq!(err.message(), "route not supported: x");
}
