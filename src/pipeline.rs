use vstd::prelude::*;

use crate::prediction::{
    before, lemma_before_empty, merge_prediction, merged_spec, observed_prefix, predicted_tail,
    shows_prediction_tail,
};
use crate::record::{
    is_latest, points_in_order, points_of, record_points, BatteryHistoryRecord, PlotError, Point,
    RecordStore,
};
use crate::trend::{runs_of, segment_trends, TrendSegments};
use crate::window::{window_filter, window_of, Window};

verus! {

/// Everything a renderer draws.
pub struct PlotData {
    /// The windowed samples before any resampling, for point markers.
    pub original: Vec<Point>,
    /// The runs of the series before the current instant.
    pub segments: TrendSegments,
    /// The predicted tail, drawn as one line.
    pub predicted: Vec<Point>,
}

/// The series that is segmented: the resampled one if there is one, else
/// the windowed samples.
pub open spec fn series_of(
    resampled: Option<Seq<BatteryHistoryRecord>>,
    original: Seq<Point>,
) -> Seq<Point> {
    match resampled {
        Some(v) => points_of(v),
        None => original,
    }
}

/// Whether the series to segment has a sample strictly before `now`.
pub open spec fn has_sample_before(
    windowed: Map<i64, BatteryHistoryRecord>,
    resampled: Option<Seq<BatteryHistoryRecord>>,
    now: i64,
) -> bool {
    match resampled {
        Some(v) => exists|i: int| 0 <= i < v.len() && v[i].date_time < now,
        None => exists|t: i64| windowed.contains_key(t) && t < now,
    }
}

/// The resampled series as a sequence, if there is one.
pub open spec fn view_of_resampled(resampled: Option<Vec<BatteryHistoryRecord>>) -> Option<
    Seq<BatteryHistoryRecord>,
> {
    match resampled {
        Some(v) => Some(v@),
        None => None,
    }
}

/// The windowed store of a plotting call: the observed samples, merged with
/// the predicted ones when predictions are shown up to now, cut to the
/// window anchored at the latest of them.
pub fn prepare_series(
    data: RecordStore,
    predicted: &RecordStore,
    from_days_before: Option<i64>,
    to_days_before: Option<i64>,
    show_prediction: bool,
) -> (r: Result<RecordStore, PlotError>)
    ensures
        data@ == Map::<i64, BatteryHistoryRecord>::empty() <==> r is Err,
        r matches Err(e) ==> e == PlotError::EmptyStore,
        r matches Ok(w) ==> {
            let all = merged_spec(data@, predicted@, to_days_before, show_prediction);
            exists|anchor: i64|
                is_latest(all, anchor) && w@ == window_of(
                    all,
                    Window {
                        anchor,
                        lookback_days: from_days_before,
                        lookahead_days: to_days_before,
                        show_prediction,
                    },
                )
        },
{
    if data.is_empty() {
        return Err(PlotError::EmptyStore);
    }
    let ghost d = data@;
    let all = merge_prediction(data, predicted, to_days_before, show_prediction);
    proof {
        let k = choose|k: i64| d.contains_key(k);
        if !d.contains_key(k) {
            assert(d =~= Map::<i64, BatteryHistoryRecord>::empty());
        }
        assert(all@.contains_key(k));
        assert(!Map::<i64, BatteryHistoryRecord>::empty().contains_key(k));
    }
    window_filter(&all, from_days_before, to_days_before, show_prediction)
}

/// Splits the series into runs and gathers what is drawn. `resampled` is the
/// resampled series when resampling was asked for; only its samples strictly
/// before `now` are segmented.
pub fn battery_plot_data(
    windowed: &RecordStore,
    resampled: Option<Vec<BatteryHistoryRecord>>,
    predicted: &RecordStore,
    to_days_before: Option<i64>,
    show_prediction: bool,
    now: i64,
) -> (r: Result<PlotData, PlotError>)
    ensures
        !has_sample_before(windowed@, view_of_resampled(resampled), now) <==> r is Err,
        r matches Err(e) ==> e == PlotError::EmptyWindow,
        r matches Ok(d) ==> {
            &&& points_in_order(d.original@, windowed@)
            &&& d.segments.groups_of(
                runs_of(before(series_of(view_of_resampled(resampled), d.original@), now)),
            )
            &&& shows_prediction_tail(to_days_before, show_prediction) ==> points_in_order(
                d.predicted@,
                predicted@,
            )
            &&& !shows_prediction_tail(to_days_before, show_prediction) ==> d.predicted@.len()
                == 0
        },
{
    let original = windowed.ordered_points();
    let ghost rv = view_of_resampled(resampled);
    let observed = match resampled {
        Some(v) => observed_prefix(&record_points(&v), now),
        None => observed_prefix(&original, now),
    };
    let ghost series = series_of(rv, original@);
    proof {
        lemma_before_empty(series, now);
        match rv {
            Some(v) => {
                if has_sample_before(windowed@, rv, now) {
                    let i = choose|i: int| 0 <= i < v.len() && v[i].date_time < now;
                    assert(series[i].date_time < now);
                }
            },
            None => {
                if has_sample_before(windowed@, rv, now) {
                    let t = choose|t: i64| windowed@.contains_key(t) && t < now;
                    let i = choose|i: int| 0 <= i < original@.len() && original@[i].date_time == t;
                    assert(series[i].date_time < now);
                }
                if exists|i: int| 0 <= i < series.len() && !(series[i].date_time >= now) {
                    let i = choose|i: int| 0 <= i < series.len() && !(series[i].date_time >= now);
                    assert(windowed@.contains_key(original@[i].date_time));
                }
            },
        }
    }
    match segment_trends(&observed) {
        Err(e) => Err(e),
        Ok(segments) => {
            let tail = predicted_tail(predicted, to_days_before, show_prediction);
            Ok(PlotData { original, segments, predicted: tail })
        },
    }
}

} // verus!
