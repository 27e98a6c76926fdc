//! Latest-at and range queries, and the latest-at query of a single chunk.
use vstd::prelude::*;

use crate::chunk::{Chunk, ChunkView};
use crate::names::ComponentName;
use crate::types::{
    temporal, ResolvedTimeRange, TimeInt, TimeType, Timeline, MAX_TIME_I64, MIN_TIME_I64,
};

verus! {

/// A query at a given time, for a given timeline: the latest data at or before that time.
#[derive(Debug)]
pub struct LatestAtQuery {
    pub(crate) timeline: Timeline,
    pub(crate) at: TimeInt,
}

impl View for LatestAtQuery {
    type V = ((Seq<char>, TimeType), TimeInt);

    closed spec fn view(&self) -> ((Seq<char>, TimeType), TimeInt) {
        (self.timeline@, self.at)
    }
}

impl LatestAtQuery {
    /// A query never asks for the static time.
    #[verifier::type_invariant]
    spec fn never_static(&self) -> bool {
        self.at.0 >= MIN_TIME_I64
    }

    /// A query at `at`; the static time, which is not a valid query time, becomes the smallest
    /// temporal time.
    pub fn new(timeline: Timeline, at: i64) -> (r: LatestAtQuery)
        ensures
            r@ == (timeline@, TimeInt(temporal(at))),
    {
        let at = match TimeInt::try_from_i64(at) {
            Some(t) => t,
            None => TimeInt::min_time(),
        };
        LatestAtQuery { timeline, at }
    }

    /// A query at the largest time.
    pub fn latest(timeline: Timeline) -> (r: LatestAtQuery)
        ensures
            r@ == (timeline@, TimeInt(MAX_TIME_I64)),
    {
        LatestAtQuery { timeline, at: TimeInt::max_time() }
    }

    pub fn timeline(&self) -> (r: Timeline)
        ensures
            r@ == self@.0,
    {
        self.timeline.duplicate()
    }

    pub fn at(&self) -> (r: TimeInt)
        ensures
            r == self@.1,
            r.0 >= MIN_TIME_I64,
    {
        proof {
            use_type_invariant(self);
        }
        self.at
    }

    /// A copy of this query.
    pub fn duplicate(&self) -> (r: LatestAtQuery)
        ensures
            r@ == self@,
    {
        proof {
            use_type_invariant(self);
        }
        LatestAtQuery { timeline: self.timeline.duplicate(), at: self.at }
    }
}

/// A query over an inclusive time range, for a given timeline.
#[derive(Debug)]
pub struct RangeQuery {
    pub timeline: Timeline,
    pub range: ResolvedTimeRange,
}

impl RangeQuery {
    /// A query over `range`; the query never includes the static time: a bound at the static
    /// time becomes the smallest temporal time.
    pub fn new(timeline: Timeline, range: ResolvedTimeRange) -> (r: RangeQuery)
        ensures
            r.timeline@ == timeline@,
            r.range.min.0 == temporal(range.min.0),
            r.range.max.0 == temporal(range.max.0),
    {
        let min = TimeInt::new_temporal(range.min.0);
        let max = TimeInt::new_temporal(range.max.0);
        RangeQuery { timeline, range: ResolvedTimeRange::new(min, max) }
    }

    /// A query over every temporal time.
    pub fn everything(timeline: Timeline) -> (r: RangeQuery)
        ensures
            r.timeline@ == timeline@,
            r.range.min.0 == MIN_TIME_I64,
            r.range.max.0 == MAX_TIME_I64,
    {
        RangeQuery { timeline, range: ResolvedTimeRange::everything() }
    }

    pub fn timeline(&self) -> (r: Timeline)
        ensures
            r@ == self.timeline@,
    {
        self.timeline.duplicate()
    }

    pub fn range(&self) -> (r: ResolvedTimeRange)
        ensures
            r == self.range,
    {
        self.range
    }
}

// --- The latest row of a chunk ---

/// `(t1, r1)` comes strictly before `(t2, r2)`: by time, then by row id.
pub open spec fn key_lt(t1: i64, r1: u128, t2: i64, r2: u128) -> bool {
    t1 < t2 || (t1 == t2 && r1 < r2)
}

/// The time by which row `i` is ranked: its time on the queried timeline, or nothing
/// (zero for all rows) when the chunk lacks that timeline.
pub open spec fn row_time(times: Option<Seq<i64>>, i: int) -> i64 {
    match times {
        Some(ts) => temporal(ts[i]),
        None => 0,
    }
}

/// Row `i` can answer the query: it has a cell for the component, and, on a timeline, it
/// is at or before `at` and after `(smallest time, row id 0)`; without the timeline, its
/// row id is above 0.
pub open spec fn latest_candidate(
    c: ChunkView,
    col: int,
    times: Option<Seq<i64>>,
    at: i64,
    i: int,
) -> bool {
    &&& 0 <= i < c.row_ids.len()
    &&& c.components[col].1.cells[i] is Some
    &&& match times {
        Some(ts) => temporal(ts[i]) <= at && key_lt(
            MIN_TIME_I64,
            0,
            temporal(ts[i]),
            c.row_ids[i].0,
        ),
        None => 0 < c.row_ids[i].0,
    }
}

/// Row `i` is the answer: a candidate whose (time, row id) no other candidate exceeds, and
/// the first such row.
pub open spec fn is_latest_row(
    c: ChunkView,
    col: int,
    times: Option<Seq<i64>>,
    at: i64,
    i: int,
) -> bool {
    &&& latest_candidate(c, col, times, at, i)
    &&& forall|j: int|
        #![trigger latest_candidate(c, col, times, at, j)]
        latest_candidate(c, col, times, at, j) ==> !key_lt(
            row_time(times, i),
            c.row_ids[i].0,
            row_time(times, j),
            c.row_ids[j].0,
        ) && ((row_time(times, j) == row_time(times, i) && c.row_ids[j].0 == c.row_ids[i].0)
            ==> i <= j)
}

/// The times of the queried timeline in a chunk, if it has that timeline.
pub open spec fn query_times(c: ChunkView, timeline: (Seq<char>, TimeType)) -> Option<Seq<i64>> {
    match c.timeline_index(timeline) {
        Some(t) => Some(c.timelines[t].times),
        None => None,
    }
}

/// The chunk that a latest-at query returns for the row `i` is that row: one row, with the
/// row's id, its time on every timeline, and its cell in every component, so the queried
/// component's cell is the row's own, a valid one.
pub proof fn law_latest_row_is_its_row(
    c: ChunkView,
    col: int,
    times: Option<Seq<i64>>,
    at: i64,
    i: int,
    r: ChunkView,
)
    requires
        c.wf(),
        0 <= col < c.components.len(),
        is_latest_row(c, col, times, at, i),
        r == c.slice(i, 1),
    ensures
        r.id == c.id,
        r.row_ids == seq![c.row_ids[i]],
        r.timelines.len() == c.timelines.len(),
        forall|t: int| 0 <= t < c.timelines.len() ==> (#[trigger] r.timelines[t]).times == seq![c.timelines[t].times[i]],
        r.components.len() == c.components.len(),
        forall|k: int| 0 <= k < c.components.len() ==> (#[trigger] r.components[k]).1.cells == seq![c.components[k].1.cells[i]],
        r.components[col].1.cells[0] == c.components[col].1.cells[i],
        r.components[col].1.cells[0] is Some,
{
    crate::chunk::law_slice_keeps_rows(c, i, 1);
    assert(r.row_ids =~= seq![c.row_ids[i]]);
    assert forall|t: int| 0 <= t < c.timelines.len() implies (#[trigger] r.timelines[t]).times == seq![c.timelines[t].times[i]] by {
        assert(r.timelines[t].times[0] == c.timelines[t].times[i + 0]);
        assert(r.timelines[t].times =~= seq![c.timelines[t].times[i]]);
    }
    assert forall|k: int| 0 <= k < c.components.len() implies (#[trigger] r.components[k]).1.cells == seq![c.components[k].1.cells[i]] by {
        assert(r.components[k].1.cells[0] == c.components[k].1.cells[i + 0]);
        assert(r.components[k].1.cells =~= seq![c.components[k].1.cells[i]]);
    }
    assert(r.components[col].1.cells[0] == c.components[col].1.cells[i + 0]);
}

impl Chunk {
    /// The row that a latest-at query for `component_name` sees in this chunk, as a chunk of
    /// that one row: among the rows that have the component and are at or before the query
    /// time, the one with the largest (time, row id). A chunk without the queried timeline
    /// is ranked by row id alone. `None` when no row qualifies.
    pub fn latest_at(&self, query: &LatestAtQuery, component_name: ComponentName) -> (r: Option<
        Chunk,
    >)
        requires
            self@.wf(),
            self@.is_sorted,
        ensures
            self@.component_index(component_name@) is None ==> r is None,
            self@.component_index(component_name@) matches Some(col) ==> (r is None ==> !exists|i: int|
                latest_candidate(self@, col, query_times(self@, query@.0), query@.1.0, i)),
            self@.component_index(component_name@) matches Some(col) ==> ((exists|i: int|
                latest_candidate(self@, col, query_times(self@, query@.0), query@.1.0, i)) ==> r is Some),
            self@.component_index(component_name@) matches Some(col) ==> (r matches Some(c)
                ==> exists|i: int|
                is_latest_row(self@, col, query_times(self@, query@.0), query@.1.0, i) && c@
                    == self@.slice(i, 1) && c@.wf()),
    {
        proof {
            use_type_invariant(query);
        }
        let col = match self.component_position(&component_name) {
            Some(col) => col,
            None => {
                proof {
                    assert(!(exists|k: int|
                        0 <= k < self@.components.len() && self@.components[k].0
                            == component_name@));
                }
                return None;
            },
        };
        let tpos = self.timeline_position(&query.timeline);
        let ghost v = self@;
        let ghost ci = col as int;
        let ghost times = query_times(v, query@.0);
        let ghost at = query@.1.0;
        proof {
            v.lemma_component_index(component_name@, ci);
            match tpos {
                Some(t) => v.lemma_timeline_index(query@.0, t as int),
                None => {},
            }
        }
        let rows = self.row_ids();
        let tls = self.timelines();
        let comps = self.components();
        let n = rows.len();
        let column = &comps[col].1;
        proof {
            assert(v.components[ci] == (comps@[ci].0@, comps@[ci].1@));
        }
        let mut index: Option<usize> = None;
        let mut best_t: i64 = MIN_TIME_I64;
        let mut best_r: u128 = 0;
        let mut i: usize = 0;
        while i < n
            invariant
                v == self@,
                v.wf(),
                n == v.row_ids.len(),
                0 <= ci < v.components.len(),
                rows@ == v.row_ids,
                crate::chunk::timelines_view(tls@) == v.timelines,
                column@ == v.components[ci].1,
                at >= MIN_TIME_I64,
                at == query.at.0,
                match tpos {
                    Some(t) => t < v.timelines.len() && times == Some(v.timelines[t as int].times),
                    None => times is None,
                },
                i <= n,
                match index {
                    None => best_t == MIN_TIME_I64 && best_r == 0 && forall|j: int|
                        0 <= j < i ==> !latest_candidate(v, ci, times, at, j),
                    Some(m) => {
                        &&& m < i
                        &&& latest_candidate(v, ci, times, at, m as int)
                        &&& (times is Some ==> best_t == row_time(times, m as int))
                        &&& best_r == v.row_ids[m as int].0
                        &&& (times is Some ==> best_t >= MIN_TIME_I64)
                        &&& forall|j: int|
                            0 <= j < i && latest_candidate(v, ci, times, at, j) ==> !key_lt(
                                row_time(times, m as int),
                                best_r,
                                row_time(times, j),
                                v.row_ids[j].0,
                            ) && ((row_time(times, j) == row_time(times, m as int)
                                && v.row_ids[j].0 == best_r) ==> m <= j)
                    },
                },
            decreases n - i,
        {
            if column.is_valid(i) {
                let row_id = rows[i].0;
                match tpos {
                    Some(t) => {
                        proof {
                            assert(v.timelines[t as int] == tls@[t as int]@);
                        }
                        let data_time = TimeInt::new_temporal(tls[t].times()[i]).0;
                        let is_closer_time = data_time > best_t && data_time <= query.at.0;
                        let is_same_time_but_closer_row_id = data_time == best_t && row_id
                            > best_r;
                        if is_closer_time || is_same_time_but_closer_row_id {
                            best_t = data_time;
                            best_r = row_id;
                            index = Some(i);
                        }
                    },
                    None => {
                        if row_id > best_r {
                            best_r = row_id;
                            index = Some(i);
                        }
                    },
                }
            }
            i = i + 1;
        }
        match index {
            Some(m) => {
                let c = self.sliced(m, 1);
                proof {
                    assert(is_latest_row(v, ci, times, at, m as int));
                    assert(latest_candidate(v, ci, times, at, m as int));
                    assert(c@ == v.slice(m as int, 1));
                    assert(exists|i: int|
                        is_latest_row(v, ci, times, at, i) && c@ == v.slice(i, 1) && c@.wf());
                    assert(self@.component_index(component_name@) == Some(ci));
                    assert(exists|i: int| latest_candidate(self@, ci, query_times(self@, query@.0), query@.1.0, i));
                }
                Some(c)
            },
            None => {
                proof {
                    assert forall|j: int| !latest_candidate(v, ci, times, at, j) by {
                        if 0 <= j < n {
                        }
                    }
                    assert(self@.component_index(component_name@) == Some(ci));
                    assert(!exists|i: int| latest_candidate(self@, ci, query_times(self@, query@.0), query@.1.0, i));

                }
                None
            },
        }
    }
}

} // verus!
