use battery_plot::{
    battery_plot_data, merge_prediction, observed_prefix, predicted_tail, prepare_series,
    BatteryHistoryRecord, ChargeState, PlotError, Point, RecordStore, SECONDS_PER_DAY,
};

const DAY: i64 = SECONDS_PER_DAY;

fn rec(date_time: i64, capacity: i32) -> BatteryHistoryRecord {
    BatteryHistoryRecord { date_time, capacity, state: ChargeState::Unknown }
}

fn pt(date_time: i64, capacity: i32) -> Point {
    Point { date_time, capacity }
}

#[test]
fn empty_input_is_an_empty_store_error() {
    let r = prepare_series(RecordStore::new(), &RecordStore::new(), Some(14), Some(0), false);
    assert!(matches!(r, Err(PlotError::EmptyStore)));
}

#[test]
fn empty_input_fails_even_with_predictions() {
    let predicted = RecordStore::from_records(&vec![rec(5, 5)]);
    let r = prepare_series(RecordStore::new(), &predicted, None, Some(0), true);
    assert!(matches!(r, Err(PlotError::EmptyStore)));
}

#[test]
fn window_older_than_lookback_is_an_empty_window_error() {
    let data = RecordStore::from_records(&vec![rec(0, 10), rec(DAY, 20), rec(3 * DAY, 30)]);
    let windowed = prepare_series(data, &RecordStore::new(), Some(1), Some(0), false).unwrap();
    assert!(windowed.is_empty());
    let r = battery_plot_data(&windowed, None, &RecordStore::new(), Some(0), false, 10 * DAY);
    assert!(matches!(r, Err(PlotError::EmptyWindow)));
}

#[test]
fn samples_from_now_on_are_not_segmented() {
    let data = RecordStore::from_records(&vec![rec(0, 10), rec(60, 20), rec(120, 5)]);
    let windowed = prepare_series(data, &RecordStore::new(), None, None, false).unwrap();
    let d = battery_plot_data(&windowed, None, &RecordStore::new(), None, false, 120).unwrap();
    assert_eq!(d.original, vec![pt(0, 10), pt(60, 20), pt(120, 5)]);
    assert_eq!(d.segments.flat, vec![vec![pt(0, 10), pt(60, 20)]]);
    assert_eq!(d.segments.increasing, vec![vec![pt(60, 20)]]);
    assert!(d.segments.decreasing.is_empty());
    assert!(d.predicted.is_empty());
}

#[test]
fn everything_after_now_is_an_empty_window_error() {
    let data = RecordStore::from_records(&vec![rec(100, 10), rec(200, 20)]);
    let windowed = prepare_series(data, &RecordStore::new(), None, None, false).unwrap();
    let r = battery_plot_data(&windowed, None, &RecordStore::new(), None, false, 100);
    assert!(matches!(r, Err(PlotError::EmptyWindow)));
}

#[test]
fn resampled_series_is_segmented_instead_of_original() {
    let data = RecordStore::from_records(&vec![rec(0, 10), rec(120, 30)]);
    let windowed = prepare_series(data, &RecordStore::new(), None, None, false).unwrap();
    let resampled = vec![rec(0, 10), rec(60, 20), rec(120, 30)];
    let d = battery_plot_data(&windowed, Some(resampled), &RecordStore::new(), None, false, 1000).unwrap();
    assert_eq!(d.original, vec![pt(0, 10), pt(120, 30)]);
    assert_eq!(d.segments.increasing, vec![vec![pt(60, 20), pt(120, 30)]]);
    assert_eq!(d.segments.flat, vec![vec![pt(0, 10), pt(60, 20)]]);
}

#[test]
fn predictions_merge_only_when_shown_up_to_now() {
    let data = RecordStore::from_records(&vec![rec(0, 10), rec(60, 20)]);
    let predicted = RecordStore::from_records(&vec![rec(60, 99), rec(120, 30)]);
    let merged = merge_prediction(data, &predicted, Some(0), true);
    assert_eq!(merged.ordered_samples(), vec![rec(0, 10), rec(60, 99), rec(120, 30)]);

    let data = RecordStore::from_records(&vec![rec(0, 10), rec(60, 20)]);
    let kept = merge_prediction(data, &predicted, Some(1), true);
    assert_eq!(kept.ordered_samples(), vec![rec(0, 10), rec(60, 20)]);

    let data = RecordStore::from_records(&vec![rec(0, 10)]);
    let kept = merge_prediction(data, &predicted, Some(0), false);
    assert_eq!(kept.ordered_samples(), vec![rec(0, 10)]);
}

#[test]
fn predicted_tail_is_drawn_only_when_shown_up_to_now() {
    let predicted = RecordStore::from_records(&vec![rec(180, 3), rec(120, 2)]);
    assert_eq!(predicted_tail(&predicted, Some(0), true), vec![pt(120, 2), pt(180, 3)]);
    assert!(predicted_tail(&predicted, None, true).is_empty());
    assert!(predicted_tail(&predicted, Some(0), false).is_empty());
}

#[test]
fn observed_prefix_keeps_strictly_earlier_points() {
    let series = vec![pt(0, 1), pt(60, 2), pt(120, 3)];
    assert_eq!(observed_prefix(&series, 60), vec![pt(0, 1)]);
    assert_eq!(observed_prefix(&series, 61), vec![pt(0, 1), pt(60, 2)]);
}

#[test]
fn prediction_run_up_window_and_tail() {
    let now = 10 * DAY;
    let data = RecordStore::from_records(&vec![rec(now - 3 * DAY, 80), rec(now - DAY - 10, 70), rec(now - 60, 60)]);
    let predicted = RecordStore::from_records(&vec![rec(now + 60, 55), rec(now + 120, 50)]);
    let windowed = prepare_series(data, &predicted, Some(1), Some(0), true).unwrap();
    let times: Vec<i64> = windowed.ordered_samples().iter().map(|r| r.date_time).collect();
    assert_eq!(times, vec![now - DAY - 10, now - 60, now + 60, now + 120]);
    let d = battery_plot_data(&windowed, None, &predicted, Some(0), true, now).unwrap();
    assert_eq!(d.segments.flat, vec![vec![pt(now - DAY - 10, 70), pt(now - 60, 60)]]);
    assert_eq!(d.segments.decreasing, vec![vec![pt(now - 60, 60)]]);
    assert_eq!(d.predicted, vec![pt(now + 60, 55), pt(now + 120, 50)]);
}
