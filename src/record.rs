use vstd::prelude::*;

verus! {

/// Whether the device was charging when a sample was taken.
#[derive(Clone, Copy, Debug, PartialEq, Eq, Structural)]
pub enum ChargeState {
    Charging,
    Discharging,
    Unknown,
}

/// One capacity observation. `date_time` counts seconds since the Unix epoch.
#[derive(Clone, Copy, Debug, PartialEq, Eq, Structural)]
pub struct BatteryHistoryRecord {
    pub date_time: i64,
    pub capacity: i32,
    pub state: ChargeState,
}

/// A `(timestamp, capacity)` pair, the unit of every rendered line.
#[derive(Clone, Copy, Debug, PartialEq, Eq, Structural)]
pub struct Point {
    pub date_time: i64,
    pub capacity: i32,
}

/// The structural failures of a plotting call.
#[derive(Clone, Copy, Debug, PartialEq, Eq, Structural)]
pub enum PlotError {
    /// No input samples at all.
    EmptyStore,
    /// The window, or the cut at the current instant, removed every sample.
    EmptyWindow,
    /// Resampling was asked for with fewer than two samples.
    InterpolationDomain,
}

impl BatteryHistoryRecord {
    pub open spec fn point_spec(self) -> Point {
        Point { date_time: self.date_time, capacity: self.capacity }
    }

    /// The record without its charge state.
    pub fn point(&self) -> (p: Point)
        ensures
            p == self.point_spec(),
    {
        Point { date_time: self.date_time, capacity: self.capacity }
    }
}

/// Timestamps strictly ascend along `s`.
pub open spec fn strictly_sorted(s: Seq<BatteryHistoryRecord>) -> bool {
    forall|i: int, j: int| 0 <= i < j < s.len() ==> s[i].date_time < s[j].date_time
}

/// `s` lists every record of `m` exactly once, in ascending order of timestamp.
pub open spec fn lists_in_order(s: Seq<BatteryHistoryRecord>, m: Map<i64, BatteryHistoryRecord>) -> bool {
    &&& strictly_sorted(s)
    &&& forall|i: int|
        0 <= i < s.len() ==> #[trigger] m.contains_key(s[i].date_time) && m[s[i].date_time] == s[i]
    &&& forall|t: i64| #[trigger]
        m.contains_key(t) ==> exists|i: int| 0 <= i < s.len() && s[i].date_time == t
}

/// `p` lists the timestamp and capacity of every record of `m` exactly once,
/// in ascending order of timestamp.
pub open spec fn points_in_order(p: Seq<Point>, m: Map<i64, BatteryHistoryRecord>) -> bool {
    &&& forall|i: int, j: int| 0 <= i < j < p.len() ==> p[i].date_time < p[j].date_time
    &&& forall|i: int|
        0 <= i < p.len() ==> #[trigger] m.contains_key(p[i].date_time) && m[p[i].date_time].point_spec()
            == p[i]
    &&& forall|t: i64| #[trigger]
        m.contains_key(t) ==> exists|i: int| 0 <= i < p.len() && p[i].date_time == t
}

/// `a` is the latest timestamp of `m` at or before `t`.
pub open spec fn is_floor_key(m: Map<i64, BatteryHistoryRecord>, t: i64, a: i64) -> bool {
    m.contains_key(a) && a <= t && forall|k: i64| #[trigger] m.contains_key(k) && k <= t ==> k <= a
}

/// `b` is the earliest timestamp of `m` at or after `t`.
pub open spec fn is_ceil_key(m: Map<i64, BatteryHistoryRecord>, t: i64, b: i64) -> bool {
    m.contains_key(b) && b >= t && forall|k: i64| #[trigger] m.contains_key(k) && k >= t ==> k >= b
}

/// The points of two parallel sequences of timestamps and capacities.
pub open spec fn zip_points(xs: Seq<i64>, ys: Seq<i32>) -> Seq<Point> {
    Seq::new(xs.len(), |i: int| Point { date_time: xs[i], capacity: ys[i] })
}

/// `t` is the latest timestamp of `m`.
pub open spec fn is_latest(m: Map<i64, BatteryHistoryRecord>, t: i64) -> bool {
    m.contains_key(t) && forall|k: i64| #[trigger] m.contains_key(k) ==> k <= t
}

/// The store that inserting the records of `s` one after another into an empty
/// store gives: a later record replaces an earlier one with the same timestamp.
pub open spec fn map_from_records(s: Seq<BatteryHistoryRecord>) -> Map<i64, BatteryHistoryRecord>
    decreases s.len(),
{
    if s.len() == 0 {
        Map::empty()
    } else {
        map_from_records(s.drop_last()).insert(s.last().date_time, s.last())
    }
}

spec fn has_time(s: Seq<BatteryHistoryRecord>, t: i64) -> bool {
    exists|i: int| 0 <= i < s.len() && s[i].date_time == t
}

spec fn map_of(s: Seq<BatteryHistoryRecord>) -> Map<i64, BatteryHistoryRecord> {
    Map::new(
        |t: i64| has_time(s, t),
        |t: i64| s[choose|i: int| 0 <= i < s.len() && s[i].date_time == t],
    )
}

proof fn lemma_map_of_index(s: Seq<BatteryHistoryRecord>, i: int)
    requires
        strictly_sorted(s),
        0 <= i < s.len(),
    ensures
        map_of(s).contains_key(s[i].date_time),
        map_of(s)[s[i].date_time] == s[i],
{
    let t = s[i].date_time;
    assert(has_time(s, t));
    let j = choose|j: int| 0 <= j < s.len() && s[j].date_time == t;
    if j < i {
        assert(s[j].date_time < s[i].date_time);
    } else if i < j {
        assert(s[i].date_time < s[j].date_time);
    }
}

proof fn lemma_map_of_lists(s: Seq<BatteryHistoryRecord>)
    requires
        strictly_sorted(s),
    ensures
        lists_in_order(s, map_of(s)),
{
    assert forall|i: int| 0 <= i < s.len() implies #[trigger] map_of(s).contains_key(s[i].date_time)
        && map_of(s)[s[i].date_time] == s[i] by {
        lemma_map_of_index(s, i);
    }
}

/// A set of samples keyed by timestamp: at most one record per timestamp.
pub struct RecordStore {
    records: Vec<BatteryHistoryRecord>,
}

impl View for RecordStore {
    type V = Map<i64, BatteryHistoryRecord>;

    closed spec fn view(&self) -> Map<i64, BatteryHistoryRecord> {
        map_of(self.records@)
    }
}

impl RecordStore {
    #[verifier::type_invariant]
    spec fn inv(self) -> bool {
        strictly_sorted(self.records@)
    }

    /// Every record of the store sits under its own timestamp.
    pub proof fn lemma_keyed(&self)
        ensures
            forall|t: i64| #[trigger] self@.contains_key(t) ==> self@[t].date_time == t,
    {
    }

    /// A store with no samples.
    pub fn new() -> (r: Self)
        ensures
            r@ == Map::<i64, BatteryHistoryRecord>::empty(),
    {
        let r = RecordStore { records: Vec::new() };
        assert(r@ =~= Map::<i64, BatteryHistoryRecord>::empty());
        r
    }

    /// Adds `rec`, replacing any sample with the same timestamp.
    pub fn insert(&mut self, rec: BatteryHistoryRecord)
        ensures
            final(self)@ == old(self)@.insert(rec.date_time, rec),
    {
        // The records leave the store while they are edited, so that the
        // ordering invariant only has to hold again once they are back.
        let mut taken = RecordStore::new();
        core::mem::swap(self, &mut taken);
        proof {
            use_type_invariant(&taken);
        }
        let mut records = taken.records;
        insert_sorted(&mut records, rec);
        let mut rebuilt = RecordStore { records };
        core::mem::swap(self, &mut rebuilt);
    }

    /// Whether the store holds no sample.
    pub fn is_empty(&self) -> (r: bool)
        ensures
            r == (self@ == Map::<i64, BatteryHistoryRecord>::empty()),
    {
        proof {
            use_type_invariant(self);
        }
        if self.records.len() == 0 {
            assert(self@ =~= Map::<i64, BatteryHistoryRecord>::empty());
            true
        } else {
            proof {
                lemma_map_of_index(self.records@, 0);
            }
            assert(!Map::<i64, BatteryHistoryRecord>::empty().contains_key(self.records@[0].date_time));
            false
        }
    }

    /// The number of samples.
    pub fn len(&self) -> (r: usize)
        ensures
            r == self@.len(),
    {
        proof {
            use_type_invariant(self);
            lemma_map_of_len(self.records@);
        }
        self.records.len()
    }

    /// The sample at timestamp `t`, if any.
    pub fn get(&self, t: i64) -> (r: Option<BatteryHistoryRecord>)
        ensures
            r == (if self@.contains_key(t) {
                Some(self@[t])
            } else {
                None
            }),
    {
        proof {
            use_type_invariant(self);
        }
        let ghost s = self.records@;
        let mut lo: usize = 0;
        let mut hi: usize = self.records.len();
        while lo < hi
            invariant
                s == self.records@,
                strictly_sorted(s),
                lo <= hi <= s.len(),
                forall|k: int| 0 <= k < lo ==> s[k].date_time < t,
                forall|k: int| hi <= k < s.len() ==> s[k].date_time > t,
            decreases hi - lo,
        {
            let mid: usize = lo + (hi - lo) / 2;
            let m = self.records[mid].date_time;
            if m < t {
                lo = mid + 1;
            } else if m > t {
                hi = mid;
            } else {
                proof {
                    lemma_map_of_index(s, mid as int);
                }
                return Some(self.records[mid]);
            }
        }
        assert(!has_time(s, t));
        None
    }

    /// The latest sample at or before `t`, if any.
    pub fn floor_sample(&self, t: i64) -> (r: Option<BatteryHistoryRecord>)
        ensures
            r matches Some(x) ==> is_floor_key(self@, t, x.date_time) && self@[x.date_time] == x,
            r is None ==> forall|k: i64| #[trigger] self@.contains_key(k) ==> k > t,
    {
        proof {
            use_type_invariant(self);
        }
        let ghost s = self.records@;
        let mut lo: usize = 0;
        let mut hi: usize = self.records.len();
        while lo < hi
            invariant
                s == self.records@,
                strictly_sorted(s),
                lo <= hi <= s.len(),
                forall|k: int| 0 <= k < lo ==> s[k].date_time <= t,
                forall|k: int| hi <= k < s.len() ==> s[k].date_time > t,
            decreases hi - lo,
        {
            let mid: usize = lo + (hi - lo) / 2;
            if self.records[mid].date_time <= t {
                proof {
                    assert forall|k: int| 0 <= k <= mid implies s[k].date_time <= t by {
                        if k < mid {
                            assert(s[k].date_time < s[mid as int].date_time);
                        }
                    }
                }
                lo = mid + 1;
            } else {
                proof {
                    assert forall|k: int| mid <= k < s.len() implies s[k].date_time > t by {
                        if k > mid {
                            assert(s[mid as int].date_time < s[k].date_time);
                        }
                    }
                }
                hi = mid;
            }
        }
        if lo == 0 {
            proof {
                assert forall|k: i64| #[trigger] self@.contains_key(k) implies k > t by {
                    let i = choose|i: int| 0 <= i < s.len() && s[i].date_time == k;
                }
            }
            None
        } else {
            proof {
                lemma_map_of_index(s, lo - 1);
                assert forall|k: i64| #[trigger] self@.contains_key(k) && k <= t implies k <= s[lo
                    - 1].date_time by {
                    let i = choose|i: int| 0 <= i < s.len() && s[i].date_time == k;
                    if i < lo - 1 {
                        assert(s[i].date_time < s[lo - 1].date_time);
                    }
                }
            }
            Some(self.records[lo - 1])
        }
    }

    /// The earliest sample at or after `t`, if any.
    pub fn ceil_sample(&self, t: i64) -> (r: Option<BatteryHistoryRecord>)
        ensures
            r matches Some(x) ==> is_ceil_key(self@, t, x.date_time) && self@[x.date_time] == x,
            r is None ==> forall|k: i64| #[trigger] self@.contains_key(k) ==> k < t,
    {
        proof {
            use_type_invariant(self);
        }
        let ghost s = self.records@;
        let mut lo: usize = 0;
        let mut hi: usize = self.records.len();
        while lo < hi
            invariant
                s == self.records@,
                strictly_sorted(s),
                lo <= hi <= s.len(),
                forall|k: int| 0 <= k < lo ==> s[k].date_time < t,
                forall|k: int| hi <= k < s.len() ==> s[k].date_time >= t,
            decreases hi - lo,
        {
            let mid: usize = lo + (hi - lo) / 2;
            if self.records[mid].date_time < t {
                proof {
                    assert forall|k: int| 0 <= k <= mid implies s[k].date_time < t by {
                        if k < mid {
                            assert(s[k].date_time < s[mid as int].date_time);
                        }
                    }
                }
                lo = mid + 1;
            } else {
                proof {
                    assert forall|k: int| mid <= k < s.len() implies s[k].date_time >= t by {
                        if k > mid {
                            assert(s[mid as int].date_time < s[k].date_time);
                        }
                    }
                }
                hi = mid;
            }
        }
        if lo == self.records.len() {
            proof {
                assert forall|k: i64| #[trigger] self@.contains_key(k) implies k < t by {
                    let i = choose|i: int| 0 <= i < s.len() && s[i].date_time == k;
                }
            }
            None
        } else {
            proof {
                lemma_map_of_index(s, lo as int);
                assert forall|k: i64| #[trigger] self@.contains_key(k) && k >= t implies k >= s[lo as int].date_time by {
                    let i = choose|i: int| 0 <= i < s.len() && s[i].date_time == k;
                    if i > lo {
                        assert(s[lo as int].date_time < s[i].date_time);
                    }
                }
            }
            Some(self.records[lo])
        }
    }

    /// The latest timestamp of the store.
    pub fn max_timestamp(&self) -> (r: Result<i64, PlotError>)
        ensures
            self@ == Map::<i64, BatteryHistoryRecord>::empty() <==> r is Err,
            r matches Err(e) ==> e == PlotError::EmptyStore,
            r matches Ok(t) ==> is_latest(self@, t),
    {
        proof {
            use_type_invariant(self);
        }
        let ghost s = self.records@;
        let n = self.records.len();
        if n == 0 {
            assert(self@ =~= Map::<i64, BatteryHistoryRecord>::empty());
            Err(PlotError::EmptyStore)
        } else {
            let t = self.records[n - 1].date_time;
            proof {
                lemma_map_of_index(s, n - 1);
                assert(!Map::<i64, BatteryHistoryRecord>::empty().contains_key(t));
                assert forall|k: i64| #[trigger] self@.contains_key(k) implies k <= t by {
                    let i = choose|i: int| 0 <= i < s.len() && s[i].date_time == k;
                    if i < n - 1 {
                        assert(s[i].date_time < s[n - 1].date_time);
                    }
                }
            }
            Ok(t)
        }
    }

    /// The samples in ascending order of timestamp.
    pub fn ordered_samples(&self) -> (r: Vec<BatteryHistoryRecord>)
        ensures
            lists_in_order(r@, self@),
    {
        proof {
            use_type_invariant(self);
            lemma_map_of_lists(self.records@);
        }
        let mut r: Vec<BatteryHistoryRecord> = Vec::new();
        let mut i: usize = 0;
        while i < self.records.len()
            invariant
                i <= self.records@.len(),
                r@ == self.records@.subrange(0, i as int),
            decreases self.records@.len() - i,
        {
            r.push(self.records[i]);
            i = i + 1;
            assert(r@ =~= self.records@.subrange(0, i as int));
        }
        assert(r@ =~= self.records@);
        r
    }

    /// The timestamps and capacities of the samples, in ascending order of timestamp.
    pub fn ordered_points(&self) -> (r: Vec<Point>)
        ensures
            points_in_order(r@, self@),
    {
        let samples = self.ordered_samples();
        let mut r: Vec<Point> = Vec::new();
        let mut i: usize = 0;
        while i < samples.len()
            invariant
                lists_in_order(samples@, self@),
                i <= samples@.len(),
                r@.len() == i,
                forall|k: int| 0 <= k < i ==> r@[k] == (#[trigger] samples@[k]).point_spec(),
            decreases samples@.len() - i,
        {
            r.push(samples[i].point());
            i = i + 1;
        }
        proof {
            assert forall|a: int, b: int| 0 <= a < b < r@.len() implies r@[a].date_time
                < r@[b].date_time by {
                assert(r@[a] == samples@[a].point_spec());
                assert(r@[b] == samples@[b].point_spec());
            }
            assert forall|t: i64| #[trigger] self@.contains_key(t) implies exists|k: int|
                0 <= k < r@.len() && r@[k].date_time == t by {
                let k = choose|k: int| 0 <= k < samples@.len() && samples@[k].date_time == t;
                assert(r@[k] == samples@[k].point_spec());
            }
            assert forall|k: int| 0 <= k < r@.len() implies #[trigger] self@.contains_key(r@[k].date_time)
                && self@[r@[k].date_time].point_spec() == r@[k] by {
                assert(r@[k] == samples@[k].point_spec());
            }
        }
        r
    }

    /// The store holding `records`, a later record replacing an earlier one
    /// with the same timestamp.
    pub fn from_records(records: &Vec<BatteryHistoryRecord>) -> (r: Self)
        ensures
            r@ == map_from_records(records@),
    {
        let mut r = RecordStore::new();
        let mut i: usize = 0;
        while i < records.len()
            invariant
                i <= records@.len(),
                r@ == map_from_records(records@.subrange(0, i as int)),
            decreases records@.len() - i,
        {
            r.insert(records[i]);
            proof {
                let p = records@.subrange(0, i + 1);
                assert(p.drop_last() =~= records@.subrange(0, i as int));
            }
            i = i + 1;
        }
        assert(records@.subrange(0, records@.len() as int) =~= records@);
        r
    }

    /// The store holding the samples of both stores; on a shared timestamp the
    /// sample of `other` is kept.
    pub fn merged(&self, other: &RecordStore) -> (r: Self)
        ensures
            r@ == self@.union_prefer_right(other@),
    {
        let mine = self.ordered_samples();
        let theirs = other.ordered_samples();
        let mut r = RecordStore::from_records(&mine);
        proof {
            lemma_map_from_listing(mine@, self@);
        }
        let mut i: usize = 0;
        while i < theirs.len()
            invariant
                i <= theirs@.len(),
                lists_in_order(theirs@, other@),
                r@ == self@.union_prefer_right(map_from_records(theirs@.subrange(0, i as int))),
            decreases theirs@.len() - i,
        {
            let ghost before = r@;
            r.insert(theirs[i]);
            proof {
                let p = theirs@.subrange(0, i + 1);
                assert(p.drop_last() =~= theirs@.subrange(0, i as int));
                assert(r@ =~= self@.union_prefer_right(map_from_records(p)));
            }
            i = i + 1;
        }
        proof {
            assert(theirs@.subrange(0, theirs@.len() as int) =~= theirs@);
            lemma_map_from_listing(theirs@, other@);
        }
        r
    }
}

/// The points of a sequence of records.
pub open spec fn points_of(s: Seq<BatteryHistoryRecord>) -> Seq<Point> {
    s.map_values(|r: BatteryHistoryRecord| r.point_spec())
}

/// The timestamp and capacity of each record, in order.
pub fn record_points(records: &Vec<BatteryHistoryRecord>) -> (r: Vec<Point>)
    ensures
        r@ == points_of(records@),
{
    let mut r: Vec<Point> = Vec::new();
    let mut i: usize = 0;
    while i < records.len()
        invariant
            i <= records@.len(),
            r@ == points_of(records@.subrange(0, i as int)),
        decreases records@.len() - i,
    {
        r.push(records[i].point());
        i = i + 1;
        assert(r@ =~= points_of(records@.subrange(0, i as int)));
    }
    assert(records@.subrange(0, records@.len() as int) =~= records@);
    r
}

/// Appends the timestamps of `data` in ascending order to `x_data`, and the
/// matching capacities to `y_data`.
pub fn sort_hashmap(data: &RecordStore, x_data: &mut Vec<i64>, y_data: &mut Vec<i32>)
    ensures
        final(y_data)@.len() - old(y_data)@.len() == final(x_data)@.len() - old(x_data)@.len(),
        final(x_data)@.take(old(x_data)@.len() as int) == old(x_data)@,
        final(y_data)@.take(old(y_data)@.len() as int) == old(y_data)@,
        points_in_order(
            zip_points(
                final(x_data)@.skip(old(x_data)@.len() as int),
                final(y_data)@.skip(old(y_data)@.len() as int),
            ),
            data@,
        ),
{
    let points = data.ordered_points();
    let ghost x0 = x_data@;
    let ghost y0 = y_data@;
    let mut i: usize = 0;
    while i < points.len()
        invariant
            x_data@.len() == x0.len() + i,
            y_data@.len() == y0.len() + i,
            points_in_order(points@, data@),
            i <= points@.len(),
            x_data@.take(x0.len() as int) == x0,
            y_data@.take(y0.len() as int) == y0,
            forall|k: int| 0 <= k < i ==> x_data@[x0.len() + k] == (#[trigger] points@[k]).date_time,
            forall|k: int| 0 <= k < i ==> y_data@[y0.len() + k] == (#[trigger] points@[k]).capacity,
        decreases points@.len() - i,
    {
        let ghost xb = x_data@;
        let ghost yb = y_data@;
        x_data.push(points[i].date_time);
        y_data.push(points[i].capacity);
        assert(x_data@.take(x0.len() as int) =~= xb.take(x0.len() as int));
        assert(y_data@.take(y0.len() as int) =~= yb.take(y0.len() as int));
        i = i + 1;
    }
    assert(zip_points(x_data@.skip(x0.len() as int), y_data@.skip(y0.len() as int)) =~= points@);
}

/// Building a store from a listing of `m` gives `m` back.
proof fn lemma_map_from_listing(s: Seq<BatteryHistoryRecord>, m: Map<i64, BatteryHistoryRecord>)
    requires
        lists_in_order(s, m),
    ensures
        map_from_records(s) == m,
{
    lemma_map_from_records_keys(s);
    assert forall|t: i64| #[trigger] map_from_records(s).contains_key(t) <==> m.contains_key(t) by {
        if m.contains_key(t) {
            let i = choose|i: int| 0 <= i < s.len() && s[i].date_time == t;
            assert(has_time(s, t));
        }
        if map_from_records(s).contains_key(t) {
            let i = choose|i: int| 0 <= i < s.len() && s[i].date_time == t;
            assert(m.contains_key(s[i].date_time));
        }
    }
    assert forall|t: i64| #[trigger] map_from_records(s).contains_key(t) implies map_from_records(s)[t] == m[t] by {
        let i = choose|i: int| 0 <= i < s.len() && s[i].date_time == t;
        lemma_map_from_records_sorted_index(s, i);
    }
    assert(map_from_records(s) =~= m);
}

proof fn lemma_map_from_records_keys(s: Seq<BatteryHistoryRecord>)
    ensures
        forall|t: i64| #[trigger] map_from_records(s).contains_key(t) <==> has_time(s, t),
    decreases s.len(),
{
    if s.len() > 0 {
        let p = s.drop_last();
        lemma_map_from_records_keys(p);
        assert forall|t: i64| #[trigger] map_from_records(s).contains_key(t) <==> has_time(s, t) by {
            assert(map_from_records(s) == map_from_records(p).insert(s.last().date_time, s.last()));
            assert(map_from_records(p).contains_key(t) <==> has_time(p, t));
            if t == s.last().date_time {
                assert(s[s.len() - 1].date_time == t);
            }
            if has_time(p, t) {
                let i = choose|i: int| 0 <= i < p.len() && p[i].date_time == t;
                assert(s[i].date_time == t);
            }
            if has_time(s, t) {
                let i = choose|i: int| 0 <= i < s.len() && s[i].date_time == t;
                if i < s.len() - 1 {
                    assert(p[i].date_time == t);
                }
            }
        }
    }
}

proof fn lemma_map_from_records_sorted_index(s: Seq<BatteryHistoryRecord>, i: int)
    requires
        strictly_sorted(s),
        0 <= i < s.len(),
    ensures
        map_from_records(s)[s[i].date_time] == s[i],
    decreases s.len(),
{
    if i < s.len() - 1 {
        let p = s.drop_last();
        assert(s[i].date_time < s.last().date_time);
        lemma_map_from_records_sorted_index(p, i);
    }
}

proof fn lemma_map_of_len(s: Seq<BatteryHistoryRecord>)
    requires
        strictly_sorted(s),
    ensures
        map_of(s).dom().finite(),
        map_of(s).len() == s.len(),
{
    lemma_map_of_lists(s);
    lemma_map_from_listing(s, map_of(s));
    lemma_map_from_records_len(s);
}

proof fn lemma_map_from_records_len(s: Seq<BatteryHistoryRecord>)
    requires
        strictly_sorted(s),
    ensures
        map_from_records(s).dom().finite(),
        map_from_records(s).len() == s.len(),
    decreases s.len(),
{
    if s.len() > 0 {
        let p = s.drop_last();
        lemma_map_from_records_len(p);
        lemma_map_from_records_keys(p);
        assert(!has_time(p, s.last().date_time)) by {
            if has_time(p, s.last().date_time) {
                let i = choose|i: int| 0 <= i < p.len() && p[i].date_time == s.last().date_time;
                assert(s[i].date_time < s[s.len() - 1].date_time);
            }
        }
    }
}

/// Puts `rec` at its place in the ascending `records`, over a record with the
/// same timestamp if there is one.
fn insert_sorted(records: &mut Vec<BatteryHistoryRecord>, rec: BatteryHistoryRecord)
    requires
        strictly_sorted(old(records)@),
    ensures
        strictly_sorted(final(records)@),
        map_of(final(records)@) == map_of(old(records)@).insert(rec.date_time, rec),
{
    let ghost s = records@;
    let t = rec.date_time;
    let mut i: usize = records.len();
    loop
        invariant
            records@ == s,
            strictly_sorted(s),
            i <= s.len(),
            forall|k: int| i <= k < s.len() ==> s[k].date_time > t,
        ensures
            i <= s.len(),
            forall|k: int| i <= k < s.len() ==> s[k].date_time > t,
            i == 0 || s[i - 1].date_time <= t,
        decreases i,
    {
        if i == 0 || records[i - 1].date_time <= t {
            break;
        }
        i = i - 1;
    }
    if i > 0 && records[i - 1].date_time == t {
        let j: usize = i - 1;
        records.set(j, rec);
        let ghost s2 = records@;
        assert(s2 == s.update(j as int, rec));
        assert(strictly_sorted(s2)) by {
            assert forall|a: int, b: int| 0 <= a < b < s2.len() implies s2[a].date_time
                < s2[b].date_time by {
                assert(s[a].date_time < s[b].date_time);
            }
        }
        assert forall|u: i64| has_time(s2, u) <==> has_time(s, u) by {
            if has_time(s2, u) {
                let k = choose|k: int| 0 <= k < s2.len() && s2[k].date_time == u;
                assert(s[k].date_time == u);
            }
            if has_time(s, u) {
                let k = choose|k: int| 0 <= k < s.len() && s[k].date_time == u;
                assert(s2[k].date_time == u);
            }
        }
        proof {
            lemma_map_of_index(s, j as int);
            lemma_map_of_index(s2, j as int);
        }
        assert forall|u: i64| #[trigger] map_of(s2).contains_key(u) && u != t implies map_of(
            s2,
        )[u] == map_of(s)[u] by {
            let k = choose|k: int| 0 <= k < s2.len() && s2[k].date_time == u;
            lemma_map_of_index(s2, k);
            lemma_map_of_index(s, k);
        }
        assert(map_of(s2) =~= map_of(s).insert(t, rec));
    } else {
        records.insert(i, rec);
        let ghost s2 = records@;
        assert(s2 == s.insert(i as int, rec));
        assert(forall|k: int| 0 <= k < i ==> s[k].date_time < t) by {
            if i > 0 {
                assert(s[i - 1].date_time < t);
            }
        }
        assert(forall|k: int| 0 <= k < i ==> s2[k] == s[k]);
        assert(forall|k: int| i < k < s2.len() ==> s2[k] == s[k - 1]);
        assert(strictly_sorted(s2));
        assert forall|u: i64| has_time(s2, u) <==> (has_time(s, u) || u == t) by {
            if has_time(s2, u) {
                let k = choose|k: int| 0 <= k < s2.len() && s2[k].date_time == u;
                if k < i {
                    assert(s[k].date_time == u);
                } else if k > i {
                    assert(s[k - 1].date_time == u);
                }
            }
            if has_time(s, u) {
                let k = choose|k: int| 0 <= k < s.len() && s[k].date_time == u;
                if k < i {
                    assert(s2[k].date_time == u);
                } else {
                    assert(s2[k + 1].date_time == u);
                }
            }
            if u == t {
                assert(s2[i as int].date_time == u);
            }
        }
        proof {
            lemma_map_of_index(s2, i as int);
        }
        assert forall|u: i64| #[trigger] map_of(s2).contains_key(u) && u != t implies map_of(
            s2,
        )[u] == map_of(s)[u] by {
            let k = choose|k: int| 0 <= k < s2.len() && s2[k].date_time == u;
            lemma_map_of_index(s2, k);
            if k < i {
                lemma_map_of_index(s, k);
            } else {
                lemma_map_of_index(s, k - 1);
            }
        }
        assert(map_of(s2) =~= map_of(s).insert(t, rec));
    }
}

} // verus!
