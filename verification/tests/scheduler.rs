use quant_research_framework_rs::carry::scheduler::{
    EventDrivenScheduler, RebalanceKind, ScheduledRebalance, TriggerStamp, DEFAULT_T_END_S,
};

fn summary(v: &[ScheduledRebalance]) -> Vec<(i64, RebalanceKind, Option<String>)> {
    v.iter().map(|r| (r.time_s, r.kind, r.tag.clone())).collect()
}

fn sample() -> EventDrivenScheduler {
    EventDrivenScheduler::new(
        Some(10),
        Some(vec![5, 10, 25, 40]),
        vec![
            TriggerStamp { time_s: 10, kind: "funding_flip" },
            TriggerStamp { time_s: 3, kind: "basis_blowout" },
            TriggerStamp { time_s: 100, kind: "funding_flip" },
        ],
        0,
        Some(30),
    )
}

#[test]
fn run_orders_by_time_then_kind() {
    let out = sample().run();
    let got = summary(&out);
    let fs = Some("funding_settle".to_string());
    let expected = vec![
        (0, RebalanceKind::Bar, None),
        (3, RebalanceKind::Trigger, Some("basis_blowout".to_string())),
        (5, RebalanceKind::Funding, fs.clone()),
        (10, RebalanceKind::Bar, None),
        (10, RebalanceKind::Funding, fs.clone()),
        (10, RebalanceKind::Trigger, Some("funding_flip".to_string())),
        (20, RebalanceKind::Bar, None),
        (25, RebalanceKind::Funding, fs.clone()),
        (30, RebalanceKind::Bar, None),
    ];
    assert_eq!(got, expected);
    assert_eq!(out[1].trigger_kind, Some("basis_blowout"));
    assert_eq!(out[0].trigger_kind, None);
}

#[test]
fn next_rebalance_matches_first_of_run_after() {
    let s = sample();
    let all = s.run();
    for after in 0..=40 {
        let next = s.next_rebalance(after).map(|r| (r.time_s, r.kind, r.tag.clone()));
        let first = all.iter().find(|r| r.time_s > after).map(|r| (r.time_s, r.kind, r.tag.clone()));
        assert_eq!(next, first, "after={after}");
    }
}

#[test]
fn next_rebalance_examples() {
    let s = sample();
    let r = s.next_rebalance(5).unwrap();
    assert_eq!((r.time_s, r.kind), (10, RebalanceKind::Bar));
    let r = s.next_rebalance(10).unwrap();
    assert_eq!((r.time_s, r.kind), (20, RebalanceKind::Bar));
    let r = s.next_rebalance(21).unwrap();
    assert_eq!((r.time_s, r.kind), (25, RebalanceKind::Funding));
    assert!(s.next_rebalance(30).is_none());
}

#[test]
fn no_cadence_and_default_end() {
    let s = EventDrivenScheduler::new(None, None, vec![], 0, None);
    assert_eq!(s.t_end_s, DEFAULT_T_END_S);
    assert!(s.run().is_empty());
    assert!(s.next_rebalance(0).is_none());
    let s = EventDrivenScheduler::new(Some(0), Some(vec![7]), vec![], 0, Some(10));
    let out = s.run();
    assert_eq!(summary(&out), vec![(7, RebalanceKind::Funding, Some("funding_settle".to_string()))]);
}

#[test]
fn rank_orders_bar_funding_trigger() {
    assert!(RebalanceKind::Bar.rank() < RebalanceKind::Funding.rank());
    assert!(RebalanceKind::Funding.rank() < RebalanceKind::Trigger.rank());
}
