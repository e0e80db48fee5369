use vstd::prelude::*;

use crate::record::{PlotError, Point};

verus! {

/// The classification of the run that is being built.
#[derive(Clone, Copy, Debug, PartialEq, Eq, Structural)]
pub enum Trend {
    /// Flat, or not classified yet: the first run of every series.
    Flat,
    /// Charging: capacities do not go down.
    Increasing,
    /// Discharging: capacities do not go up.
    Decreasing,
}

/// Where the state machine puts the point it is fed.
#[derive(Clone, Copy, Debug, PartialEq, Eq, Structural)]
pub enum Placement {
    /// The point joins the current run.
    Extend,
    /// The point ends the current run and is also the first point of the next.
    Close,
    /// The next run starts with the previous point, followed by this one.
    Turn,
}

/// A run of the chronological classification: its trend and its points.
pub type TrendRun = (Trend, Seq<Point>);

/// The transition table, for the current trend, the previous capacity and
/// the current capacity: the next trend and where the current point goes.
pub open spec fn transition_spec(trend: Trend, prev: i32, cur: i32) -> (Trend, Placement) {
    match trend {
        Trend::Flat => if cur < prev {
            (Trend::Decreasing, Placement::Close)
        } else if cur > prev {
            (Trend::Increasing, Placement::Close)
        } else {
            (Trend::Flat, Placement::Extend)
        },
        Trend::Increasing => if cur >= prev {
            (Trend::Increasing, Placement::Extend)
        } else {
            (Trend::Decreasing, Placement::Turn)
        },
        Trend::Decreasing => if cur <= prev {
            (Trend::Decreasing, Placement::Extend)
        } else {
            (Trend::Increasing, Placement::Turn)
        },
    }
}

/// `runs` with `p` added to its last run.
pub open spec fn extend_last(runs: Seq<TrendRun>, p: Point) -> Seq<TrendRun> {
    runs.update(runs.len() - 1, (runs.last().0, runs.last().1.push(p)))
}

/// The runs after feeding `p` to the state machine whose runs so far are
/// `runs`; the state is the trend of the last run, and the previous point
/// is the last point of that run.
pub open spec fn step(runs: Seq<TrendRun>, p: Point) -> Seq<TrendRun> {
    let prev = runs.last().1.last();
    let (next, placement) = transition_spec(runs.last().0, prev.capacity, p.capacity);
    match placement {
        Placement::Extend => extend_last(runs, p),
        Placement::Close => extend_last(runs, p).push((next, seq![p])),
        Placement::Turn => runs.push((next, seq![prev, p])),
    }
}

/// The runs of `s` in chronological order: the first point seeds a flat run,
/// and each further point is fed to the state machine.
pub open spec fn runs_of(s: Seq<Point>) -> Seq<TrendRun>
    decreases s.len(),
{
    if s.len() == 0 {
        seq![]
    } else if s.len() == 1 {
        seq![(Trend::Flat, seq![s[0]])]
    } else {
        step(runs_of(s.drop_last()), s.last())
    }
}

/// The point lists of the runs of trend `t`, in order.
pub open spec fn runs_in(runs: Seq<TrendRun>, t: Trend) -> Seq<Seq<Point>>
    decreases runs.len(),
{
    if runs.len() == 0 {
        seq![]
    } else if runs.last().0 == t {
        runs_in(runs.drop_last(), t).push(runs.last().1)
    } else {
        runs_in(runs.drop_last(), t)
    }
}

/// The runs joined into one series, the shared first point of every run
/// after the first taken once.
pub open spec fn glue(runs: Seq<TrendRun>) -> Seq<Point>
    decreases runs.len(),
{
    if runs.len() == 0 {
        seq![]
    } else if runs.len() == 1 {
        runs[0].1
    } else {
        glue(runs.drop_last()) + runs.last().1.drop_first()
    }
}

/// Capacities never go down along `r`.
pub open spec fn non_decreasing(r: Seq<Point>) -> bool {
    forall|i: int, j: int| 0 <= i < j < r.len() ==> r[i].capacity <= r[j].capacity
}

/// Capacities never go up along `r`.
pub open spec fn non_increasing(r: Seq<Point>) -> bool {
    forall|i: int, j: int| 0 <= i < j < r.len() ==> r[i].capacity >= r[j].capacity
}

/// The point lists of a vector of runs.
pub open spec fn runs_view(v: Vec<Vec<Point>>) -> Seq<Seq<Point>> {
    v@.map_values(|r: Vec<Point>| r@)
}

/// The three groups of runs handed to a renderer.
pub struct TrendSegments {
    /// Charging runs, in chronological order.
    pub increasing: Vec<Vec<Point>>,
    /// Discharging runs, in chronological order.
    pub decreasing: Vec<Vec<Point>>,
    /// Flat or unclassified runs, in chronological order.
    pub flat: Vec<Vec<Point>>,
}

impl TrendSegments {
    /// The group of trend `t`.
    pub open spec fn group(&self, t: Trend) -> Seq<Seq<Point>> {
        match t {
            Trend::Increasing => runs_view(self.increasing),
            Trend::Decreasing => runs_view(self.decreasing),
            Trend::Flat => runs_view(self.flat),
        }
    }

    /// The groups are those of the chronological runs `runs`.
    pub open spec fn groups_of(&self, runs: Seq<TrendRun>) -> bool {
        forall|t: Trend| #[trigger] self.group(t) == runs_in(runs, t)
    }

    /// Three empty groups.
    pub fn new() -> (r: Self)
        ensures
            r.groups_of(Seq::empty()),
    {
        let r = TrendSegments { increasing: Vec::new(), decreasing: Vec::new(), flat: Vec::new() };
        assert forall|t: Trend| #[trigger] r.group(t) == runs_in(Seq::<TrendRun>::empty(), t) by {
            assert(r.group(t) =~= Seq::<Seq<Point>>::empty());
        }
        r
    }

    /// Appends `run` to the group of `trend`.
    pub fn push_run(&mut self, trend: Trend, run: Vec<Point>)
        ensures
            forall|t: Trend| #[trigger] final(self).group(t) == if t == trend {
                old(self).group(t).push(run@)
            } else {
                old(self).group(t)
            },
    {
        let ghost r = run@;
        match trend {
            Trend::Increasing => self.increasing.push(run),
            Trend::Decreasing => self.decreasing.push(run),
            Trend::Flat => self.flat.push(run),
        }
        assert(runs_view(self.increasing) =~= if trend == Trend::Increasing {
            runs_view(old(self).increasing).push(r)
        } else {
            runs_view(old(self).increasing)
        });
        assert(runs_view(self.decreasing) =~= if trend == Trend::Decreasing {
            runs_view(old(self).decreasing).push(r)
        } else {
            runs_view(old(self).decreasing)
        });
        assert(runs_view(self.flat) =~= if trend == Trend::Flat {
            runs_view(old(self).flat).push(r)
        } else {
            runs_view(old(self).flat)
        });
    }
}

/// Closing the last run of `runs` adds it to its own group.
proof fn lemma_runs_in_last(runs: Seq<TrendRun>)
    requires
        runs.len() > 0,
    ensures
        forall|t: Trend| #[trigger] runs_in(runs, t) == if t == runs.last().0 {
            runs_in(runs.drop_last(), t).push(runs.last().1)
        } else {
            runs_in(runs.drop_last(), t)
        },
{
}

/// Splits a series into charging, discharging and flat runs by the transition
/// table; the groups keep the chronological order of the runs.
pub fn segment_trends(points: &Vec<Point>) -> (r: Result<TrendSegments, PlotError>)
    ensures
        points@.len() == 0 <==> r is Err,
        r matches Err(e) ==> e == PlotError::EmptyWindow,
        r matches Ok(seg) ==> seg.groups_of(runs_of(points@)),
{
    let n = points.len();
    if n == 0 {
        return Err(PlotError::EmptyWindow);
    }
    let mut seg = TrendSegments::new();
    let mut current: Vec<Point> = Vec::new();
    current.push(points[0]);
    let mut trend = Trend::Flat;
    let mut i: usize = 1;
    proof {
        let first = points@.subrange(0, 1);
        assert(runs_of(first) == seq![(Trend::Flat, seq![first[0]])]);
        assert(current@ =~= seq![first[0]]);
        assert(runs_of(first).drop_last() =~= Seq::<TrendRun>::empty());
    }
    while i < n
        invariant
            n == points@.len(),
            1 <= i <= n,
            runs_of(points@.subrange(0, i as int)).len() > 0,
            runs_of(points@.subrange(0, i as int)).last() == (trend, current@),
            seg.groups_of(runs_of(points@.subrange(0, i as int)).drop_last()),
        decreases n - i,
    {
        let prev = points[i - 1];
        let p = points[i];
        let ghost before = points@.subrange(0, i as int);
        let ghost r = runs_of(before);
        proof {
            lemma_runs_shape(before);
            let after = points@.subrange(0, i + 1);
            assert(after.drop_last() =~= before);
            assert(runs_of(after) == step(r, p));
            assert(before.last() == prev);
        }
        let (next, placement) = transition(trend, prev.capacity, p.capacity);
        match placement {
            Placement::Extend => {
                current.push(p);
                proof {
                    let r2 = extend_last(r, p);
                    assert(r2.drop_last() =~= r.drop_last());
                }
            },
            Placement::Close => {
                current.push(p);
                let done = current;
                seg.push_run(trend, done);
                current = Vec::new();
                current.push(p);
                proof {
                    let ext = extend_last(r, p);
                    let r2 = ext.push((next, seq![p]));
                    assert(r2.drop_last() =~= ext);
                    assert(ext.drop_last() =~= r.drop_last());
                    lemma_runs_in_last(ext);
                    assert(current@ =~= seq![p]);
                }
            },
            Placement::Turn => {
                let done = current;
                seg.push_run(trend, done);
                current = Vec::new();
                current.push(prev);
                current.push(p);
                proof {
                    let r2 = r.push((next, seq![prev, p]));
                    assert(r2.drop_last() =~= r);
                    lemma_runs_in_last(r);
                    assert(current@ =~= seq![prev, p]);
                }
            },
        }
        trend = next;
        i = i + 1;
    }
    let ghost r = runs_of(points@.subrange(0, n as int));
    seg.push_run(trend, current);
    proof {
        assert(points@.subrange(0, n as int) =~= points@);
        lemma_runs_in_last(r);
    }
    Ok(seg)
}

/// One transition of the state machine.
pub fn transition(trend: Trend, prev: i32, cur: i32) -> (r: (Trend, Placement))
    ensures
        r == transition_spec(trend, prev, cur),
{
    match trend {
        Trend::Flat => if cur < prev {
            (Trend::Decreasing, Placement::Close)
        } else if cur > prev {
            (Trend::Increasing, Placement::Close)
        } else {
            (Trend::Flat, Placement::Extend)
        },
        Trend::Increasing => if cur >= prev {
            (Trend::Increasing, Placement::Extend)
        } else {
            (Trend::Decreasing, Placement::Turn)
        },
        Trend::Decreasing => if cur <= prev {
            (Trend::Decreasing, Placement::Extend)
        } else {
            (Trend::Increasing, Placement::Turn)
        },
    }
}

/// Facts on the runs of a non-empty series that every step keeps.
proof fn lemma_runs_shape(s: Seq<Point>)
    requires
        s.len() > 0,
    ensures
        runs_of(s).len() > 0,
        runs_of(s)[0].0 == Trend::Flat,
        forall|i: int| 0 <= i < runs_of(s).len() ==> (#[trigger] runs_of(s)[i]).1.len() > 0,
        runs_of(s).last().1.last() == s.last(),
    decreases s.len(),
{
    if s.len() > 1 {
        let p = s.drop_last();
        lemma_runs_shape(p);
        let r = runs_of(p);
        let r2 = runs_of(s);
        assert(r2 == step(r, s.last()));
        assert forall|i: int| 0 <= i < r2.len() implies (#[trigger] r2[i]).1.len() > 0 by {
            if i < r.len() {
                assert(r[i].1.len() > 0);
            }
        }
    }
}

/// Each step adds one point to the glued series.
proof fn lemma_glue_step(runs: Seq<TrendRun>, p: Point)
    requires
        runs.len() > 0,
        forall|i: int| 0 <= i < runs.len() ==> (#[trigger] runs[i]).1.len() > 0,
    ensures
        glue(step(runs, p)) == glue(runs).push(p),
{
    let n = runs.len();
    let ext = extend_last(runs, p);
    assert(ext.drop_last() =~= runs.drop_last());
    let r = runs.last().1;
    assert(r.push(p).drop_first() =~= r.drop_first().push(p));
    if n == 1 {
        assert(glue(ext) == ext[0].1);
    } else {
        assert(glue(ext) == glue(ext.drop_last()) + ext.last().1.drop_first());
    }
    assert(glue(ext) =~= glue(runs).push(p));
    let prev = r.last();
    assert(seq![p].drop_first() =~= Seq::<Point>::empty());
    assert(seq![prev, p].drop_first() =~= seq![p]);
    let (next, placement) = transition_spec(runs.last().0, prev.capacity, p.capacity);
    match placement {
        Placement::Extend => {},
        Placement::Close => {
            let c = ext.push((next, seq![p]));
            assert(c.drop_last() =~= ext);
            assert(glue(c) =~= glue(ext));
        },
        Placement::Turn => {
            let c = runs.push((next, seq![prev, p]));
            assert(c.drop_last() =~= runs);
            assert(glue(c) =~= glue(runs).push(p));
        },
    }
}

/// Joining the chronological runs of `s`, each shared boundary point taken
/// once, gives `s` back.
pub proof fn lemma_runs_glue_to_input(s: Seq<Point>)
    ensures
        glue(runs_of(s)) == s,
    decreases s.len(),
{
    if s.len() == 1 {
        assert(glue(runs_of(s)) == runs_of(s)[0].1);
        assert(runs_of(s)[0].1 =~= s);
    } else if s.len() > 1 {
        let p = s.drop_last();
        lemma_runs_glue_to_input(p);
        lemma_runs_shape(p);
        lemma_glue_step(runs_of(p), s.last());
        assert(p.push(s.last()) =~= s);
    }
}

/// Every run has the sign class of its trend.
pub open spec fn runs_monotone(runs: Seq<TrendRun>) -> bool {
    forall|i: int|
        0 <= i < runs.len() ==> {
            &&& (#[trigger] runs[i]).0 == Trend::Increasing ==> non_decreasing(runs[i].1)
            &&& runs[i].0 == Trend::Decreasing ==> non_increasing(runs[i].1)
        }
}

/// Each run ends on the point that starts the next, and the two differ in trend.
pub open spec fn boundaries_shared(runs: Seq<TrendRun>) -> bool {
    forall|i: int|
        0 <= i < runs.len() - 1 ==> {
            &&& (#[trigger] runs[i]).1.last() == runs[i + 1].1.first()
            &&& runs[i].0 != runs[i + 1].0
        }
}

proof fn lemma_runs_invariants(s: Seq<Point>)
    ensures
        runs_monotone(runs_of(s)),
        boundaries_shared(runs_of(s)),
    decreases s.len(),
{
    if s.len() > 1 {
        let p = s.drop_last();
        lemma_runs_invariants(p);
        lemma_runs_shape(p);
        let r = runs_of(p);
        let x = s.last();
        let n = r.len();
        let last = r.last().1;
        let prev = last.last();
        let ext = extend_last(r, x);
        let (next, placement) = transition_spec(r.last().0, prev.capacity, x.capacity);
        assert(last.push(x).first() == last.first());
        if placement != Placement::Turn {
            assert(runs_monotone(ext)) by {
                assert forall|i: int| 0 <= i < ext.len() && (#[trigger] ext[i]).0 == Trend::Increasing
                    && placement == Placement::Extend implies non_decreasing(ext[i].1) by {
                    if i == n - 1 {
                        assert(r[n - 1].0 == Trend::Increasing);
                        let q = last.push(x);
                        assert forall|a: int, b: int| 0 <= a < b < q.len() implies q[a].capacity
                            <= q[b].capacity by {
                            if b == q.len() - 1 && a < last.len() - 1 {
                                assert(last[a].capacity <= last[last.len() - 1].capacity);
                            }
                        }
                    } else {
                        assert(r[i] == ext[i]);
                    }
                }
                assert forall|i: int| 0 <= i < ext.len() && (#[trigger] ext[i]).0 == Trend::Decreasing
                    && placement == Placement::Extend implies non_increasing(ext[i].1) by {
                    if i == n - 1 {
                        assert(r[n - 1].0 == Trend::Decreasing);
                        let q = last.push(x);
                        assert forall|a: int, b: int| 0 <= a < b < q.len() implies q[a].capacity
                            >= q[b].capacity by {
                            if b == q.len() - 1 && a < last.len() - 1 {
                                assert(last[a].capacity >= last[last.len() - 1].capacity);
                            }
                        }
                    } else {
                        assert(r[i] == ext[i]);
                    }
                }
                assert forall|i: int| 0 <= i < ext.len() && placement == Placement::Close
                    && (#[trigger] ext[i]).0 != Trend::Flat implies ext[i] == r[i] by {
                    if i == n - 1 {
                        assert(r[n - 1].0 == Trend::Flat);
                    }
                }
            }
        }
        assert(boundaries_shared(ext)) by {
            assert forall|i: int| 0 <= i < ext.len() - 1 implies (#[trigger] ext[i]).1.last()
                == ext[i + 1].1.first() && ext[i].0 != ext[i + 1].0 by {
                assert(ext[i] == r[i]);
                if i + 1 == n - 1 {
                    assert(r[n - 1].1.len() > 0);
                }
            }
        }
        match placement {
            Placement::Extend => {},
            Placement::Close => {
                let c = ext.push((next, seq![x]));
                assert(runs_monotone(c)) by {
                    assert forall|i: int| 0 <= i < c.len() implies {
                        &&& (#[trigger] c[i]).0 == Trend::Increasing ==> non_decreasing(c[i].1)
                        &&& c[i].0 == Trend::Decreasing ==> non_increasing(c[i].1)
                    } by {
                        if i < ext.len() {
                            assert(c[i] == ext[i]);
                        }
                    }
                }
                assert(boundaries_shared(c)) by {
                    assert forall|i: int| 0 <= i < c.len() - 1 implies (#[trigger] c[i]).1.last()
                        == c[i + 1].1.first() && c[i].0 != c[i + 1].0 by {
                        assert(c[i] == ext[i]);
                        if i < ext.len() - 1 {
                            assert(c[i + 1] == ext[i + 1]);
                        }
                    }
                }
            },
            Placement::Turn => {
                let c = r.push((next, seq![prev, x]));
                assert(runs_monotone(c)) by {
                    assert forall|i: int| 0 <= i < c.len() implies {
                        &&& (#[trigger] c[i]).0 == Trend::Increasing ==> non_decreasing(c[i].1)
                        &&& c[i].0 == Trend::Decreasing ==> non_increasing(c[i].1)
                    } by {
                        if i < r.len() {
                            assert(c[i] == r[i]);
                        }
                    }
                }
                assert(boundaries_shared(c)) by {
                    assert forall|i: int| 0 <= i < c.len() - 1 implies (#[trigger] c[i]).1.last()
                        == c[i + 1].1.first() && c[i].0 != c[i + 1].0 by {
                        assert(c[i] == r[i]);
                        if i < r.len() - 1 {
                            assert(c[i + 1] == r[i + 1]);
                        }
                    }
                }
            },
        }
    }
}

/// Each entry of the group of trend `t` is a run of that trend.
proof fn lemma_runs_in_member(runs: Seq<TrendRun>, t: Trend, k: int)
    requires
        0 <= k < runs_in(runs, t).len(),
    ensures
        exists|i: int| 0 <= i < runs.len() && (#[trigger] runs[i]).0 == t && runs[i].1 == runs_in(runs, t)[k],
    decreases runs.len(),
{
    let rest = runs.drop_last();
    if runs.last().0 == t && k == runs_in(rest, t).len() {
        assert(runs[runs.len() - 1].0 == t);
    } else {
        lemma_runs_in_member(rest, t, k);
        let i = choose|i: int| 0 <= i < rest.len() && (#[trigger] rest[i]).0 == t && rest[i].1 == runs_in(rest, t)[k];
        assert(runs[i] == rest[i]);
    }
}

/// Capacities never go down along a charging run, and never go up along a
/// discharging run.
pub proof fn lemma_runs_monotone(s: Seq<Point>)
    ensures
        forall|k: int| 0 <= k < runs_in(runs_of(s), Trend::Increasing).len()
            ==> non_decreasing(#[trigger] runs_in(runs_of(s), Trend::Increasing)[k]),
        forall|k: int| 0 <= k < runs_in(runs_of(s), Trend::Decreasing).len()
            ==> non_increasing(#[trigger] runs_in(runs_of(s), Trend::Decreasing)[k]),
{
    let r = runs_of(s);
    lemma_runs_invariants(s);
    assert forall|k: int| 0 <= k < runs_in(r, Trend::Increasing).len() implies non_decreasing(
        #[trigger] runs_in(r, Trend::Increasing)[k],
    ) by {
        lemma_runs_in_member(r, Trend::Increasing, k);
    }
    assert forall|k: int| 0 <= k < runs_in(r, Trend::Decreasing).len() implies non_increasing(
        #[trigger] runs_in(r, Trend::Decreasing)[k],
    ) by {
        lemma_runs_in_member(r, Trend::Decreasing, k);
    }
}

/// Of two chronologically adjacent runs, the earlier ends on the point that
/// the later starts with, and their trends differ.
pub proof fn lemma_runs_share_boundaries(s: Seq<Point>)
    ensures
        boundaries_shared(runs_of(s)),
{
    lemma_runs_invariants(s);
}

} // verus!
