use battery_plot::{
    minute_grid, resample_timestamps, resampled_series, BatteryHistoryRecord, ChargeState,
    PlotError, RecordStore,
};
use makima_spline::Spline;

fn rec(date_time: i64, capacity: i32, state: ChargeState) -> BatteryHistoryRecord {
    BatteryHistoryRecord { date_time, capacity, state }
}

fn spline_values(series: &[BatteryHistoryRecord], grid: &[i64]) -> Vec<Option<i32>> {
    let xs: Vec<f64> = series.iter().map(|r| r.date_time as f64).collect();
    let ys: Vec<f64> = series.iter().map(|r| r.capacity as f64).collect();
    let spline = Spline::from_vec(makima_spline::vec_to_points(&xs, &ys));
    grid.iter().map(|t| Some(spline.sample(*t as f64).round() as i32)).collect()
}

#[test]
fn grid_includes_both_ends() {
    assert_eq!(minute_grid(0, 180), vec![0, 60, 120, 180]);
}

#[test]
fn grid_stops_before_partial_step() {
    assert_eq!(minute_grid(0, 179), vec![0, 60, 120]);
    assert_eq!(minute_grid(5, 5), vec![5]);
    assert_eq!(minute_grid(6, 5), Vec::<i64>::new());
}

#[test]
fn grid_near_largest_instant() {
    let g = minute_grid(i64::MAX - 100, i64::MAX);
    assert_eq!(g, vec![i64::MAX - 100, i64::MAX - 40]);
}

#[test]
fn resampling_one_sample_is_a_domain_error() {
    let series = vec![rec(0, 1, ChargeState::Unknown)];
    assert!(matches!(resample_timestamps(&series, 1000), Err(PlotError::InterpolationDomain)));
    assert!(matches!(resample_timestamps(&Vec::new(), 1000), Err(PlotError::InterpolationDomain)));
}

#[test]
fn resampling_stops_at_now() {
    let series = vec![rec(0, 1, ChargeState::Unknown), rec(600, 2, ChargeState::Unknown)];
    assert_eq!(resample_timestamps(&series, 150).unwrap(), vec![0, 60, 120]);
    assert_eq!(resample_timestamps(&series, 10_000).unwrap().len(), 11);
}

#[test]
fn resampled_points_take_state_of_sample_at_same_instant() {
    let store = RecordStore::from_records(&vec![
        rec(0, 10, ChargeState::Charging),
        rec(120, 30, ChargeState::Discharging),
    ]);
    let grid = vec![0, 60, 120];
    let values = vec![Some(10), Some(21), Some(30)];
    let out = resampled_series(&store, &grid, &values);
    assert_eq!(
        out,
        vec![
            rec(0, 10, ChargeState::Charging),
            rec(60, 21, ChargeState::Unknown),
            rec(120, 30, ChargeState::Discharging)
        ]
    );
}

#[test]
fn resampled_values_are_clamped_to_bounding_knots() {
    let store = RecordStore::from_records(&vec![
        rec(0, 10, ChargeState::Unknown),
        rec(120, 30, ChargeState::Unknown),
        rec(240, 20, ChargeState::Unknown),
    ]);
    let grid = vec![0, 60, 120, 180, 240, 300];
    let values = vec![Some(12), Some(45), Some(29), Some(5), Some(20), Some(-7)];
    let caps: Vec<i32> = resampled_series(&store, &grid, &values).iter().map(|r| r.capacity).collect();
    assert_eq!(caps, vec![10, 30, 30, 20, 20, -7]);
}

#[test]
fn resampled_points_without_value_are_skipped() {
    let store = RecordStore::new();
    let out = resampled_series(&store, &vec![0, 60, 120], &vec![Some(1), None, Some(3)]);
    assert_eq!(out, vec![rec(0, 1, ChargeState::Unknown), rec(120, 3, ChargeState::Unknown)]);
}

#[test]
fn two_point_series_resamples_monotonically_from_zero_to_hundred() {
    let store = RecordStore::from_records(&vec![
        rec(1_000_000, 0, ChargeState::Charging),
        rec(1_000_600, 100, ChargeState::Charging),
    ]);
    let series = store.ordered_samples();
    let grid = resample_timestamps(&series, i64::MAX).unwrap();
    let values = spline_values(&series, &grid);
    let out = resampled_series(&store, &grid, &values);
    let caps: Vec<i32> = out.iter().map(|r| r.capacity).collect();
    assert_eq!(caps.len(), 11);
    assert_eq!(caps[0], 0);
    assert_eq!(caps[10], 100);
    assert!(caps.windows(2).all(|w| w[0] <= w[1]));
}

#[test]
fn resampled_values_stay_between_their_knots() {
    let knots = vec![
        rec(0, 10, ChargeState::Unknown),
        rec(600, 50, ChargeState::Unknown),
        rec(1200, 20, ChargeState::Unknown),
        rec(1800, 20, ChargeState::Unknown),
        rec(2400, 90, ChargeState::Unknown),
    ];
    let store = RecordStore::from_records(&knots);
    let series = store.ordered_samples();
    let grid = resample_timestamps(&series, i64::MAX).unwrap();
    let values = spline_values(&series, &grid);
    let out = resampled_series(&store, &grid, &values);
    for r in &out {
        let k = knots.iter().rposition(|n| n.date_time <= r.date_time).unwrap();
        let lo = knots[k].capacity.min(knots[(k + 1).min(knots.len() - 1)].capacity);
        let hi = knots[k].capacity.max(knots[(k + 1).min(knots.len() - 1)].capacity);
        assert!(lo <= r.capacity && r.capacity <= hi, "{:?} outside [{}, {}]", r, lo, hi);
    }
}
