use quant_research_framework_rs::windows::{
    age_dataset, coarse_grid, front_loaded_segments, in_session_hours, is_funding_bar, lookback_range,
    python_iloc_idx, python_iloc_slice, split_into_5, utc_hour_minute, walk_forward_windows, WfoWindow,
};

#[test]
fn iloc_positions() {
    assert_eq!(python_iloc_idx(3, 10), 3);
    assert_eq!(python_iloc_idx(12, 10), 10);
    assert_eq!(python_iloc_idx(-3, 10), 7);
    assert_eq!(python_iloc_idx(-10, 10), 0);
    assert_eq!(python_iloc_idx(-11, 10), 0);
    assert_eq!(python_iloc_slice(-3, -1, 10), (7, 9));
    assert_eq!(python_iloc_slice(5, 2, 10), (5, 5));
    assert_eq!(python_iloc_slice(-41906, -36906, 48094), (6188, 11188));
    assert_eq!(python_iloc_slice(-51906, -41906, 48094), (0, 6188));
}

#[test]
fn utc_clock_fields() {
    assert_eq!(utc_hour_minute(0), (0, 0));
    assert_eq!(utc_hour_minute(8 * 3600 + 59 * 60 + 59), (8, 59));
    assert_eq!(utc_hour_minute(-60), (23, 59));
    assert!(is_funding_bar(16 * 3600));
    assert!(!is_funding_bar(16 * 3600 + 60));
    assert!(!is_funding_bar(3600));
    assert!(in_session_hours(13 * 3600, 13, 21));
    assert!(!in_session_hours(21 * 3600, 13, 21));
}

#[test]
fn lookback_grid() {
    let lbs = lookback_range();
    assert_eq!(lbs.first(), Some(&12));
    assert_eq!(lbs.last(), Some(&75));
    assert_eq!(lbs.len(), 64);
    let coarse = coarse_grid(&lbs);
    assert_eq!(coarse.len(), 32);
    assert_eq!(&coarse[..3], &[12, 14, 16]);
    assert_eq!(coarse_grid(&[1, 2, 3]), vec![1, 3]);
}

#[test]
fn five_way_splits() {
    let v: Vec<i32> = (0..7).collect();
    let s = split_into_5(&v);
    let lens: Vec<usize> = s.iter().map(|x| x.len()).collect();
    assert_eq!(lens, vec![1, 1, 1, 2, 2]);
    assert_eq!(s.concat(), v);
    assert_eq!(front_loaded_segments(7), vec![(0, 2), (2, 4), (4, 5), (5, 6), (6, 7)]);
    assert_eq!(front_loaded_segments(0), vec![(0, 0); 5]);
    let e: Vec<i32> = Vec::new();
    assert!(split_into_5(&e).iter().all(|x| x.is_empty()));
}

#[test]
fn aging_drops_newest() {
    assert_eq!(age_dataset(vec![1, 2, 3, 4], 1), vec![1, 2, 3]);
    assert_eq!(age_dataset(vec![1, 2], 0), vec![1, 2]);
}

#[test]
fn walk_forward_schedule_tiles_the_tail() {
    let w = walk_forward_windows(100, 30, 20, 10);
    assert_eq!(
        w,
        vec![
            WfoWindow { is_start: 50, is_end: 70, oos_start: 70, oos_end: 80 },
            WfoWindow { is_start: 60, is_end: 80, oos_start: 80, oos_end: 90 },
            WfoWindow { is_start: 70, is_end: 90, oos_start: 90, oos_end: 100 },
        ]
    );
    let w = walk_forward_windows(100, 25, 20, 10);
    assert_eq!(w.len(), 3);
    assert_eq!(w[2].oos_start, 95);
    assert_eq!(w[2].oos_end, 100);
}

#[test]
fn walk_forward_with_more_oos_than_data() {
    let w = walk_forward_windows(48094, 90000, 10000, 5000);
    assert_eq!(w[0].oos_start, 6188);
    assert_eq!(w[0].oos_end, 11188);
    assert_eq!((w[0].is_start, w[0].is_end), (0, 6188));
    for win in &w {
        if win.is_start < win.is_end {
            assert_eq!(win.is_end, win.oos_start);
        }
    }
}
