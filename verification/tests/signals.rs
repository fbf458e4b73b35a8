use quant_research_framework_rs::signals::{
    bar_decision, checks_stops, drift_entries, parse_signals, session_code, session_end_flags,
};

#[test]
fn parse_signals_marks_flips() {
    let raw = [0i8, 1, 1, 0, -1, -1, 1, 0, 1, -1];
    assert_eq!(parse_signals(&raw), vec![0, 1, 0, 0, 3, 0, 1, 0, 0, 3]);
    assert_eq!(parse_signals(&[]), Vec::<i8>::new());
    assert_eq!(parse_signals(&[-1, 5, -1]), vec![3, 0, 0]);
}

#[test]
fn parsed_entries_alternate() {
    let raw = [1i8, 0, 1, -1, -1, 0, 0, 1, 1, -1, 1];
    let sig = parse_signals(&raw);
    let nonzero: Vec<i8> = sig.into_iter().filter(|&c| c != 0).collect();
    for w in nonzero.windows(2) {
        assert_ne!(w[0], w[1]);
    }
}

#[test]
fn drift_moves_entries_one_bar() {
    assert_eq!(drift_entries(&[1, 0, 2, 3, 4, 0, 1]), vec![0, 1, 2, 0, 4, 0, 0]);
    assert_eq!(drift_entries(&[3, 2]), vec![0, 2]);
}

#[test]
fn bar_decisions() {
    let d = bar_decision(1, 0, true);
    assert!(d.stop_exit && d.next_pos == 0);
    let d = bar_decision(-1, 1, true);
    assert!(!d.stop_exit && d.close_at_open && d.open_side == 1 && d.next_pos == 1);
    let d = bar_decision(1, 1, false);
    assert!(!d.close_at_open && d.open_side == 0 && d.next_pos == 1);
    let d = bar_decision(1, 2, false);
    assert!(d.close_at_open && d.next_pos == 0);
    let d = bar_decision(-1, 2, false);
    assert!(!d.close_at_open && d.next_pos == -1);
    let d = bar_decision(0, 3, false);
    assert!(!d.close_at_open && d.open_side == -1 && d.next_pos == -1);
    assert!(checks_stops(1, 0) && !checks_stops(1, 3) && !checks_stops(0, 0));
}

#[test]
fn sessions_block_entries_and_force_exits() {
    assert_eq!(session_code(1, true, false, false, 0), 0);
    assert_eq!(session_code(1, false, false, false, 0), 1);
    assert_eq!(session_code(0, true, true, true, 1), 2);
    assert_eq!(session_code(3, true, true, true, 1), 3);
    assert_eq!(session_code(0, true, true, true, -1), 4);
    assert_eq!(session_end_flags(&[true, true, false, true]), vec![false, true, false, true]);
}
