use vstd::prelude::*;

use crate::record::{points_in_order, BatteryHistoryRecord, Point, RecordStore};

verus! {

/// Predictions are shown up to now: the case in which predicted samples join
/// the observed ones and are drawn as a tail.
pub open spec fn shows_prediction_tail(to_days_before: Option<i64>, show_prediction: bool) -> bool {
    show_prediction && to_days_before == Some(0i64)
}

/// The store the window is cut from.
pub open spec fn merged_spec(
    data: Map<i64, BatteryHistoryRecord>,
    predicted: Map<i64, BatteryHistoryRecord>,
    to_days_before: Option<i64>,
    show_prediction: bool,
) -> Map<i64, BatteryHistoryRecord> {
    if shows_prediction_tail(to_days_before, show_prediction) {
        data.union_prefer_right(predicted)
    } else {
        data
    }
}

/// The part of a series that the segmenter sees: the samples strictly before `now`.
pub open spec fn before(s: Seq<Point>, now: i64) -> Seq<Point> {
    s.filter(|p: Point| p.date_time < now)
}

/// Whether predictions are shown up to now.
pub fn prediction_shown(to_days_before: Option<i64>, show_prediction: bool) -> (r: bool)
    ensures
        r == shows_prediction_tail(to_days_before, show_prediction),
{
    show_prediction && match to_days_before {
        Some(d) => d == 0,
        None => false,
    }
}

/// The observed samples, with the predicted ones merged in (a predicted sample
/// replacing an observed one at the same instant) when predictions are shown
/// up to now; otherwise the predicted samples are dropped.
pub fn merge_prediction(
    data: RecordStore,
    predicted: &RecordStore,
    to_days_before: Option<i64>,
    show_prediction: bool,
) -> (r: RecordStore)
    ensures
        r@ == merged_spec(data@, predicted@, to_days_before, show_prediction),
{
    if prediction_shown(to_days_before, show_prediction) {
        data.merged(predicted)
    } else {
        data
    }
}

/// The points of `series` taken strictly before `now`, in order.
pub fn observed_prefix(series: &Vec<Point>, now: i64) -> (r: Vec<Point>)
    ensures
        r@ == before(series@, now),
{
    let mut r: Vec<Point> = Vec::new();
    let mut i: usize = 0;
    while i < series.len()
        invariant
            i <= series@.len(),
            r@ == before(series@.subrange(0, i as int), now),
        decreases series@.len() - i,
    {
        proof {
            reveal(Seq::filter);
            let s = series@.subrange(0, i + 1);
            assert(s.drop_last() =~= series@.subrange(0, i as int));
        }
        let p = series[i];
        if p.date_time < now {
            r.push(p);
        }
        i = i + 1;
    }
    assert(series@.subrange(0, series@.len() as int) =~= series@);
    r
}

/// No point of `s` is taken before `now` exactly when the segmenter gets nothing.
pub proof fn lemma_before_empty(s: Seq<Point>, now: i64)
    ensures
        before(s, now).len() == 0 <==> forall|i: int| 0 <= i < s.len() ==> s[i].date_time >= now,
    decreases s.len(),
{
    reveal(Seq::filter);
    if s.len() > 0 {
        let p = s.drop_last();
        lemma_before_empty(p, now);
        assert forall|i: int| 0 <= i < p.len() implies p[i] == s[i] by {}
        if s.last().date_time < now {
            assert(before(s, now).len() > 0);
        } else {
            assert(before(s, now) == before(p, now));
            if before(p, now).len() > 0 {
                let i = choose|i: int| 0 <= i < p.len() && !(p[i].date_time >= now);
                assert(s[i] == p[i]);
            }
        }
    }
}

/// The predicted samples drawn as a separate tail: all of them, in order,
/// when predictions are shown up to now; none otherwise.
pub fn predicted_tail(
    predicted: &RecordStore,
    to_days_before: Option<i64>,
    show_prediction: bool,
) -> (r: Vec<Point>)
    ensures
        shows_prediction_tail(to_days_before, show_prediction) ==> points_in_order(r@, predicted@),
        !shows_prediction_tail(to_days_before, show_prediction) ==> r@.len() == 0,
{
    if prediction_shown(to_days_before, show_prediction) {
        predicted.ordered_points()
    } else {
        Vec::new()
    }
}

} // verus!
