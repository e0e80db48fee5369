use vstd::prelude::*;

use crate::prediction::{prediction_shown, shows_prediction_tail};
use crate::record::{is_latest, lists_in_order, BatteryHistoryRecord, PlotError, RecordStore};

verus! {

/// Seconds in one day.
pub const SECONDS_PER_DAY: i64 = 86400;

/// A date window measured in days back from `anchor`.
#[derive(Clone, Copy, Debug, PartialEq, Eq, Structural)]
pub struct Window {
    /// The instant the bounds count back from, in seconds since the epoch.
    pub anchor: i64,
    /// Keep samples later than this many days before the anchor.
    pub lookback_days: Option<i64>,
    /// Keep samples earlier than this many days before the anchor.
    pub lookahead_days: Option<i64>,
    /// Whether predicted samples are shown.
    pub show_prediction: bool,
}

impl Window {
    /// Predictions are shown up to now: the upper bound is dropped and the
    /// lower bound reaches one day further back.
    pub open spec fn shows_future(self) -> bool {
        shows_prediction_tail(self.lookahead_days, self.show_prediction)
    }

    /// Samples must be later than this instant.
    pub open spec fn lower_bound(self) -> Option<int> {
        match self.lookback_days {
            Some(n) => Some(
                self.anchor - SECONDS_PER_DAY * (if self.shows_future() {
                    n + 1
                } else {
                    n as int
                }),
            ),
            None => None,
        }
    }

    /// Samples must be earlier than this instant.
    pub open spec fn upper_bound(self) -> Option<int> {
        match self.lookahead_days {
            Some(m) => if self.show_prediction && m == 0 {
                None
            } else {
                Some(self.anchor - SECONDS_PER_DAY * m)
            },
            None => None,
        }
    }

    /// Whether the window keeps a sample taken at `t`.
    pub open spec fn retains(self, t: int) -> bool {
        &&& self.lower_bound() matches Some(lo) ==> t > lo
        &&& self.upper_bound() matches Some(hi) ==> t < hi
    }

    /// Whether predictions are shown up to now.
    pub fn extends_to_future(&self) -> (r: bool)
        ensures
            r == self.shows_future(),
    {
        prediction_shown(self.lookahead_days, self.show_prediction)
    }

    /// Whether the window keeps a sample taken at `t`.
    pub fn keeps(&self, t: i64) -> (r: bool)
        ensures
            r == self.retains(t as int),
    {
        let at = t as i128;
        let anchor = self.anchor as i128;
        let day = SECONDS_PER_DAY as i128;
        let after_lower = match self.lookback_days {
            Some(n) => {
                let days: i128 = if self.extends_to_future() {
                    n as i128 + 1
                } else {
                    n as i128
                };
                at > anchor - day * days
            },
            None => true,
        };
        let before_upper = match self.lookahead_days {
            Some(m) => if self.show_prediction && m == 0 {
                true
            } else {
                at < anchor - day * (m as i128)
            },
            None => true,
        };
        after_lower && before_upper
    }
}

/// The samples of `m` that `w` keeps.
pub open spec fn window_of(
    m: Map<i64, BatteryHistoryRecord>,
    w: Window,
) -> Map<i64, BatteryHistoryRecord> {
    Map::new(|t: i64| m.contains_key(t) && w.retains(t as int), |t: i64| m[t])
}

/// Cutting a store to a window a second time changes nothing.
pub proof fn lemma_window_idempotent(m: Map<i64, BatteryHistoryRecord>, w: Window)
    ensures
        window_of(window_of(m, w), w) == window_of(m, w),
{
    assert(window_of(window_of(m, w), w) =~= window_of(m, w));
}

/// The samples of `store` inside `w`.
pub fn apply_window(store: &RecordStore, w: &Window) -> (r: RecordStore)
    ensures
        r@ == window_of(store@, *w),
{
    let samples = store.ordered_samples();
    let ghost s = samples@;
    let mut out = RecordStore::new();
    let mut i: usize = 0;
    while i < samples.len()
        invariant
            s == samples@,
            lists_in_order(s, store@),
            i <= s.len(),
            out@ == Map::new(
                |t: i64|
                    store@.contains_key(t) && w.retains(t as int) && exists|j: int|
                        0 <= j < i && s[j].date_time == t,
                |t: i64| store@[t],
            ),
        decreases s.len() - i,
    {
        let rec = samples[i];
        let ghost before = out@;
        if w.keeps(rec.date_time) {
            out.insert(rec);
        }
        proof {
            assert(store@.contains_key(s[i as int].date_time) && store@[s[i as int].date_time]
                == s[i as int]);
            let next = Map::new(
                |t: i64|
                    store@.contains_key(t) && w.retains(t as int) && exists|j: int|
                        0 <= j < i + 1 && s[j].date_time == t,
                |t: i64| store@[t],
            );
            assert forall|t: i64| #[trigger] next.contains_key(t) == out@.contains_key(t) by {
                if exists|j: int| 0 <= j < i + 1 && s[j].date_time == t {
                    let j = choose|j: int| 0 <= j < i + 1 && s[j].date_time == t;
                    if j < i {
                        assert(before.contains_key(t) == (store@.contains_key(t) && w.retains(
                            t as int,
                        )));
                    }
                }
                if t == rec.date_time {
                    assert(s[i as int].date_time == t);
                }
                if before.contains_key(t) {
                    let j = choose|j: int| 0 <= j < i && s[j].date_time == t;
                    assert(0 <= j < i + 1 && s[j].date_time == t);
                }
            }
            assert(out@ =~= next);
        }
        i = i + 1;
    }
    proof {
        let full = Map::new(
            |t: i64|
                store@.contains_key(t) && w.retains(t as int) && exists|j: int|
                    0 <= j < s.len() && s[j].date_time == t,
            |t: i64| store@[t],
        );
        assert(full =~= window_of(store@, *w));
    }
    out
}

/// Cuts `store` to the window anchored at its latest sample.
pub fn window_filter(
    store: &RecordStore,
    lookback_days: Option<i64>,
    lookahead_days: Option<i64>,
    show_prediction: bool,
) -> (r: Result<RecordStore, PlotError>)
    ensures
        store@ == Map::<i64, BatteryHistoryRecord>::empty() <==> r is Err,
        r matches Err(e) ==> e == PlotError::EmptyStore,
        r matches Ok(out) ==> exists|anchor: i64|
            is_latest(store@, anchor) && out@ == window_of(
                store@,
                Window { anchor, lookback_days, lookahead_days, show_prediction },
            ),
{
    match store.max_timestamp() {
        Err(e) => Err(e),
        Ok(anchor) => {
            let w = Window { anchor, lookback_days, lookahead_days, show_prediction };
            Ok(apply_window(store, &w))
        },
    }
}

} // verus!
