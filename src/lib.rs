//! Trend segmentation of battery capacity history.
//!
//! Samples are kept in a [`RecordStore`] keyed by timestamp, cut to a date
//! window, optionally resampled onto a one-minute grid, and split into
//! charging, discharging and flat runs that share their boundary points.
mod pipeline;
mod prediction;
mod record;
mod resample;
mod trend;
mod window;

pub use pipeline::{
    battery_plot_data, has_sample_before, prepare_series, series_of, view_of_resampled, PlotData,
};
pub use prediction::{
    before, lemma_before_empty, merge_prediction, merged_spec, observed_prefix, predicted_tail,
    prediction_shown, shows_prediction_tail,
};
pub use record::{
    is_ceil_key, is_floor_key, is_latest, lists_in_order, map_from_records, points_in_order,
    points_of, record_points, sort_hashmap, strictly_sorted, zip_points, BatteryHistoryRecord,
    ChargeState, PlotError, Point, RecordStore,
};
pub use resample::{
    bounded_capacity, bounded_value, knot_bounds, lemma_resampled_within_knots, min_int,
    minute_grid, minute_grid_spec, resample_timestamps, resampled_series, resampled_spec, tag_at,
    tag_for, STEP_SECONDS,
};
pub use trend::{
    boundaries_shared, extend_last, glue, lemma_runs_glue_to_input, lemma_runs_monotone,
    lemma_runs_share_boundaries, non_decreasing, non_increasing, runs_in, runs_monotone, runs_of,
    runs_view, segment_trends, step, transition, transition_spec, Placement, Trend, TrendRun,
    TrendSegments,
};
pub use window::{
    apply_window, lemma_window_idempotent, window_filter, window_of, Window, SECONDS_PER_DAY,
};
