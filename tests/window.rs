use battery_plot::{
    apply_window, window_filter, BatteryHistoryRecord, ChargeState, PlotError, RecordStore, Window,
    SECONDS_PER_DAY,
};

const DAY: i64 = SECONDS_PER_DAY;

fn store_at(times: &[i64]) -> RecordStore {
    let records: Vec<BatteryHistoryRecord> = times
        .iter()
        .map(|t| BatteryHistoryRecord { date_time: *t, capacity: 50, state: ChargeState::Unknown })
        .collect();
    RecordStore::from_records(&records)
}

fn times(store: &RecordStore) -> Vec<i64> {
    store.ordered_samples().iter().map(|r| r.date_time).collect()
}

#[test]
fn bounds_are_exclusive_days_before_anchor() {
    let w = Window { anchor: 10 * DAY, lookback_days: Some(2), lookahead_days: Some(1), show_prediction: false };
    assert!(!w.keeps(8 * DAY));
    assert!(w.keeps(8 * DAY + 1));
    assert!(w.keeps(9 * DAY - 1));
    assert!(!w.keeps(9 * DAY));
}

#[test]
fn showing_prediction_extends_lookback_and_drops_upper_bound() {
    let w = Window { anchor: 10 * DAY, lookback_days: Some(2), lookahead_days: Some(0), show_prediction: true };
    assert!(w.extends_to_future());
    assert!(!w.keeps(7 * DAY));
    assert!(w.keeps(7 * DAY + 1));
    assert!(w.keeps(10 * DAY));
    assert!(w.keeps(20 * DAY));
}

#[test]
fn showing_prediction_with_nonzero_lookahead_keeps_both_bounds() {
    let w = Window { anchor: 10 * DAY, lookback_days: Some(2), lookahead_days: Some(1), show_prediction: true };
    assert!(!w.extends_to_future());
    assert!(!w.keeps(8 * DAY));
    assert!(!w.keeps(9 * DAY));
}

#[test]
fn no_bounds_keep_everything() {
    let w = Window { anchor: 0, lookback_days: None, lookahead_days: None, show_prediction: false };
    assert!(w.keeps(i64::MIN));
    assert!(w.keeps(i64::MAX));
}

#[test]
fn extreme_day_counts_do_not_overflow() {
    let w = Window { anchor: i64::MIN, lookback_days: Some(i64::MAX), lookahead_days: Some(i64::MIN), show_prediction: false };
    assert!(w.keeps(0));
}

#[test]
fn window_filter_anchors_at_latest_sample() {
    let store = store_at(&[0, DAY, 2 * DAY, 3 * DAY, 3 * DAY + 5]);
    let out = window_filter(&store, Some(2), Some(0), false).unwrap();
    assert_eq!(times(&out), vec![2 * DAY, 3 * DAY]);
}

#[test]
fn window_filter_on_empty_store_fails() {
    assert!(matches!(window_filter(&RecordStore::new(), Some(1), None, false), Err(PlotError::EmptyStore)));
}

#[test]
fn window_twice_equals_window_once() {
    let store = store_at(&[0, DAY, 2 * DAY, 3 * DAY, 4 * DAY]);
    let w = Window { anchor: 4 * DAY, lookback_days: Some(3), lookahead_days: Some(1), show_prediction: false };
    let once = apply_window(&store, &w);
    let twice = apply_window(&once, &w);
    assert_eq!(times(&once), vec![2 * DAY]);
    assert_eq!(once.ordered_samples(), twice.ordered_samples());
}

#[test]
fn window_removing_every_sample_leaves_empty_store() {
    let store = store_at(&[0, DAY, 2 * DAY]);
    let out = window_filter(&store, Some(1), Some(0), false).unwrap();
    assert!(out.is_empty());
}
