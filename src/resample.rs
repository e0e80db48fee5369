use vstd::prelude::*;

use crate::record::{
    is_ceil_key, is_floor_key, strictly_sorted, BatteryHistoryRecord, ChargeState, PlotError,
    RecordStore,
};

verus! {

/// The resampling cadence: one minute.
pub const STEP_SECONDS: i64 = 60;

/// The one-minute grid from `first` up to `end`, both inclusive.
pub open spec fn minute_grid_spec(first: int, end: int) -> Seq<i64> {
    if first <= end {
        Seq::new(((end - first) / STEP_SECONDS as int + 1) as nat, |k: int| (first + STEP_SECONDS * k) as i64)
    } else {
        Seq::empty()
    }
}

/// The smaller of `a` and `b`.
pub open spec fn min_int(a: int, b: int) -> int {
    if a <= b {
        a
    } else {
        b
    }
}

/// The charge state that a resampled point at `t` carries: that of an
/// original sample at exactly `t`, else unknown.
pub open spec fn tag_at(m: Map<i64, BatteryHistoryRecord>, t: i64) -> ChargeState {
    if m.contains_key(t) {
        m[t].state
    } else {
        ChargeState::Unknown
    }
}

/// The capacities of the samples bounding instant `t`, lower one first: those
/// of the latest sample at or before `t` and of the earliest at or after it.
/// There are none before the first sample or after the last.
pub open spec fn knot_bounds(m: Map<i64, BatteryHistoryRecord>, t: i64) -> Option<(i32, i32)> {
    if (exists|a: i64| is_floor_key(m, t, a)) && (exists|b: i64| is_ceil_key(m, t, b)) {
        let ca = m[choose|a: i64| is_floor_key(m, t, a)].capacity;
        let cb = m[choose|b: i64| is_ceil_key(m, t, b)].capacity;
        if ca <= cb {
            Some((ca, cb))
        } else {
            Some((cb, ca))
        }
    } else {
        None
    }
}

/// `v` kept within the capacities of the samples bounding `t`, so that no
/// resampled value overshoots its neighbouring knots.
pub open spec fn bounded_value(m: Map<i64, BatteryHistoryRecord>, t: i64, v: i32) -> i32 {
    match knot_bounds(m, t) {
        Some((lo, hi)) => if v < lo {
            lo
        } else if v > hi {
            hi
        } else {
            v
        },
        None => v,
    }
}

/// The resampled series: a record for each grid instant whose value is known,
/// in grid order, its value kept between the bounding knots; instants without
/// a value are skipped.
pub open spec fn resampled_spec(
    m: Map<i64, BatteryHistoryRecord>,
    grid: Seq<i64>,
    values: Seq<Option<i32>>,
) -> Seq<BatteryHistoryRecord>
    decreases grid.len(),
{
    if grid.len() == 0 {
        seq![]
    } else {
        let rest = resampled_spec(m, grid.drop_last(), values.drop_last());
        match values[grid.len() - 1] {
            Some(c) => rest.push(
                BatteryHistoryRecord {
                    date_time: grid.last(),
                    capacity: bounded_value(m, grid.last(), c),
                    state: tag_at(m, grid.last()),
                },
            ),
            None => rest,
        }
    }
}

/// The instants `first`, `first + 60`, ... up to `end`.
pub fn minute_grid(first: i64, end: i64) -> (r: Vec<i64>)
    ensures
        r@ == minute_grid_spec(first as int, end as int),
{
    let mut r: Vec<i64> = Vec::new();
    if first > end {
        assert(r@ =~= minute_grid_spec(first as int, end as int));
        return r;
    }
    let mut cur: i64 = first;
    let ghost mut k: int = 0;
    loop
        invariant
            first <= cur <= end,
            k >= 0,
            cur == first + STEP_SECONDS * k,
            r@.len() == k,
            forall|j: int| 0 <= j < k ==> r@[j] == first + STEP_SECONDS * j,
        decreases end - cur,
    {
        r.push(cur);
        if (end as i128) - (cur as i128) < STEP_SECONDS as i128 {
            proof {
                let d = end - first;
                assert(STEP_SECONDS * k <= d < STEP_SECONDS * k + STEP_SECONDS);
                assert(d / STEP_SECONDS as int == k) by (nonlinear_arith)
                    requires
                        STEP_SECONDS * k <= d < STEP_SECONDS * k + STEP_SECONDS,
                        k >= 0,
                        STEP_SECONDS == 60,
                ;
                assert(r@ =~= minute_grid_spec(first as int, end as int));
            }
            return r;
        }
        cur = cur + STEP_SECONDS;
        proof {
            k = k + 1;
        }
    }
}

/// The instants at which `series` is resampled: every minute from its first
/// sample up to its last sample or `now`, whichever comes first.
pub fn resample_timestamps(series: &Vec<BatteryHistoryRecord>, now: i64) -> (r: Result<
    Vec<i64>,
    PlotError,
>)
    requires
        strictly_sorted(series@),
    ensures
        series@.len() < 2 <==> r is Err,
        r matches Err(e) ==> e == PlotError::InterpolationDomain,
        r matches Ok(g) ==> g@ == minute_grid_spec(
            series@[0].date_time as int,
            min_int(series@.last().date_time as int, now as int),
        ),
{
    let n = series.len();
    if n < 2 {
        return Err(PlotError::InterpolationDomain);
    }
    let last = series[n - 1].date_time;
    let end = if last <= now {
        last
    } else {
        now
    };
    Ok(minute_grid(series[0].date_time, end))
}

/// The charge state of the sample at `t` in `store`, else unknown.
pub fn tag_for(store: &RecordStore, t: i64) -> (r: ChargeState)
    ensures
        r == tag_at(store@, t),
{
    match store.get(t) {
        Some(rec) => {
            proof {
                store.lemma_keyed();
            }
            rec.state
        },
        None => ChargeState::Unknown,
    }
}

/// `v` kept within the capacities of the samples of `store` bounding `t`.
pub fn bounded_capacity(store: &RecordStore, t: i64, v: i32) -> (r: i32)
    ensures
        r == bounded_value(store@, t, v),
{
    match (store.floor_sample(t), store.ceil_sample(t)) {
        (Some(a), Some(b)) => {
            proof {
                lemma_floor_key_unique(store@, t, a.date_time);
                lemma_ceil_key_unique(store@, t, b.date_time);
            }
            let (lo, hi) = if a.capacity <= b.capacity {
                (a.capacity, b.capacity)
            } else {
                (b.capacity, a.capacity)
            };
            if v < lo {
                lo
            } else if v > hi {
                hi
            } else {
                v
            }
        },
        (None, _) => {
            assert(!exists|a: i64| is_floor_key(store@, t, a));
            v
        },
        (_, None) => {
            assert(!exists|b: i64| is_ceil_key(store@, t, b));
            v
        },
    }
}

proof fn lemma_floor_key_unique(m: Map<i64, BatteryHistoryRecord>, t: i64, a: i64)
    requires
        is_floor_key(m, t, a),
    ensures
        (choose|x: i64| is_floor_key(m, t, x)) == a,
{
    let x = choose|x: i64| is_floor_key(m, t, x);
    assert(m.contains_key(a) && m.contains_key(x));
}

proof fn lemma_ceil_key_unique(m: Map<i64, BatteryHistoryRecord>, t: i64, b: i64)
    requires
        is_ceil_key(m, t, b),
    ensures
        (choose|x: i64| is_ceil_key(m, t, x)) == b,
{
    let x = choose|x: i64| is_ceil_key(m, t, x);
    assert(m.contains_key(b) && m.contains_key(x));
}

/// Every resampled value lies between the capacities of the two samples that
/// bound its instant.
pub proof fn lemma_resampled_within_knots(
    m: Map<i64, BatteryHistoryRecord>,
    grid: Seq<i64>,
    values: Seq<Option<i32>>,
)
    ensures
        forall|i: int, a: i64, b: i64|
            0 <= i < resampled_spec(m, grid, values).len() && #[trigger] is_floor_key(
                m,
                resampled_spec(m, grid, values)[i].date_time,
                a,
            ) && #[trigger] is_ceil_key(m, resampled_spec(m, grid, values)[i].date_time, b) ==> {
                let c = resampled_spec(m, grid, values)[i].capacity;
                &&& c >= m[a].capacity || c >= m[b].capacity
                &&& c <= m[a].capacity || c <= m[b].capacity
            },
    decreases grid.len(),
{
    if grid.len() > 0 {
        let g = grid.drop_last();
        let v = values.drop_last();
        lemma_resampled_within_knots(m, g, v);
        let rest = resampled_spec(m, g, v);
        let all = resampled_spec(m, grid, values);
        assert forall|i: int, a: i64, b: i64|
            0 <= i < all.len() && #[trigger] is_floor_key(m, all[i].date_time, a)
                && #[trigger] is_ceil_key(m, all[i].date_time, b) implies {
            let c = all[i].capacity;
            &&& c >= m[a].capacity || c >= m[b].capacity
            &&& c <= m[a].capacity || c <= m[b].capacity
        } by {
            if i < rest.len() {
                assert(all[i] == rest[i]);
            } else {
                let t = grid.last();
                lemma_floor_key_unique(m, t, a);
                lemma_ceil_key_unique(m, t, b);
            }
        }
    }
}

/// The resampled series from the grid and the value found at each of its
/// instants, kept between the samples of `store` that bound the instant; each
/// record carries the charge state of a sample at the same instant, or unknown.
pub fn resampled_series(
    store: &RecordStore,
    grid: &Vec<i64>,
    values: &Vec<Option<i32>>,
) -> (r: Vec<BatteryHistoryRecord>)
    requires
        grid@.len() == values@.len(),
    ensures
        r@ == resampled_spec(store@, grid@, values@),
{
    let mut r: Vec<BatteryHistoryRecord> = Vec::new();
    let mut i: usize = 0;
    while i < grid.len()
        invariant
            grid@.len() == values@.len(),
            i <= grid@.len(),
            r@ == resampled_spec(store@, grid@.subrange(0, i as int), values@.subrange(0, i as int)),
        decreases grid@.len() - i,
    {
        proof {
            let g = grid@.subrange(0, i + 1);
            let v = values@.subrange(0, i + 1);
            assert(g.drop_last() =~= grid@.subrange(0, i as int));
            assert(v.drop_last() =~= values@.subrange(0, i as int));
        }
        match values[i] {
            Some(c) => {
                let t = grid[i];
                r.push(
                    BatteryHistoryRecord {
                        date_time: t,
                        capacity: bounded_capacity(store, t, c),
                        state: tag_for(store, t),
                    },
                );
            },
            None => {},
        }
        i = i + 1;
    }
    proof {
        assert(grid@.subrange(0, grid@.len() as int) =~= grid@);
        assert(values@.subrange(0, values@.len() as int) =~= values@);
    }
    r
}

} // verus!
