//! Chunks: rows of multi-component, multi-timeline data for one entity.
use vstd::prelude::*;

use crate::names::{has_name, insert_name_sorted, names_sorted, ComponentName};
use crate::types::{
    insert_entry_sorted, temporal, timepoint_entries, timepoint_sorted, ChunkId, EntityPath,
    ResolvedTimeRange, RowId, TimeInt, TimePoint, TimeType, Timeline, STATIC_TIME_I64,
};

verus! {

// --- Specifications over sequences ---

/// Every time is at most every later time.
pub open spec fn times_sorted(s: Seq<i64>) -> bool {
    forall|i: int, j: int| 0 <= i < j < s.len() ==> s[i] <= s[j]
}

/// Every row id is at most every later row id.
pub open spec fn row_ids_sorted(s: Seq<RowId>) -> bool {
    forall|i: int, j: int| 0 <= i < j < s.len() ==> s[i].0 <= s[j].0
}

/// The smallest value of a non-empty sequence.
pub open spec fn seq_min(s: Seq<i64>) -> i64
    decreases s.len(),
{
    if s.len() <= 1 {
        s[0]
    } else {
        let m = seq_min(s.drop_last());
        if s.last() < m {
            s.last()
        } else {
            m
        }
    }
}

/// The largest value of a non-empty sequence.
pub open spec fn seq_max(s: Seq<i64>) -> i64
    decreases s.len(),
{
    if s.len() <= 1 {
        s[0]
    } else {
        let m = seq_max(s.drop_last());
        if s.last() > m {
            s.last()
        } else {
            m
        }
    }
}

/// The smallest row id of a non-empty sequence.
pub open spec fn row_id_min(s: Seq<RowId>) -> u128
    decreases s.len(),
{
    if s.len() <= 1 {
        s[0].0
    } else {
        let m = row_id_min(s.drop_last());
        if s.last().0 < m {
            s.last().0
        } else {
            m
        }
    }
}

/// The largest row id of a non-empty sequence.
pub open spec fn row_id_max(s: Seq<RowId>) -> u128
    decreases s.len(),
{
    if s.len() <= 1 {
        s[0].0
    } else {
        let m = row_id_max(s.drop_last());
        if s.last().0 > m {
            s.last().0
        } else {
            m
        }
    }
}

pub proof fn lemma_seq_min_max(s: Seq<i64>)
    requires
        s.len() > 0,
    ensures
        forall|k: int| 0 <= k < s.len() ==> seq_min(s) <= s[k] && s[k] <= seq_max(s),
        s.contains(seq_min(s)),
        s.contains(seq_max(s)),
    decreases s.len(),
{
    if s.len() > 1 {
        lemma_seq_min_max(s.drop_last());
        assert forall|k: int| 0 <= k < s.len() implies seq_min(s) <= s[k] && s[k] <= seq_max(s) by {
            if k < s.len() - 1 {
                assert(s.drop_last()[k] == s[k]);
            }
        }
        let m = seq_min(s.drop_last());
        let mx = seq_max(s.drop_last());
        let i1 = choose|i: int| 0 <= i < s.drop_last().len() && s.drop_last()[i] == m;
        let i2 = choose|i: int| 0 <= i < s.drop_last().len() && s.drop_last()[i] == mx;
        assert(s[i1] == m);
        assert(s[i2] == mx);
        assert(s[s.len() - 1] == s.last());
    } else {
        assert(s[0] == seq_min(s));
    }
}

pub proof fn lemma_row_id_min_max(s: Seq<RowId>)
    requires
        s.len() > 0,
    ensures
        forall|k: int| 0 <= k < s.len() ==> row_id_min(s) <= s[k].0 && s[k].0 <= row_id_max(s),
        exists|k: int| 0 <= k < s.len() && s[k].0 == row_id_min(s),
        exists|k: int| 0 <= k < s.len() && s[k].0 == row_id_max(s),
    decreases s.len(),
{
    if s.len() > 1 {
        lemma_row_id_min_max(s.drop_last());
        assert forall|k: int| 0 <= k < s.len() implies row_id_min(s) <= s[k].0 && s[k].0
            <= row_id_max(s) by {
            if k < s.len() - 1 {
                assert(s.drop_last()[k] == s[k]);
            }
        }
        let m = row_id_min(s.drop_last());
        let mx = row_id_max(s.drop_last());
        let i1 = choose|i: int| 0 <= i < s.drop_last().len() && s.drop_last()[i].0 == m;
        let i2 = choose|i: int| 0 <= i < s.drop_last().len() && s.drop_last()[i].0 == mx;
        assert(s[i1].0 == m);
        assert(s[i2].0 == mx);
        assert(s[s.len() - 1] == s.last());
    } else {
        assert(s[0].0 == row_id_min(s));
    }
}

/// The first `Some` of a sequence of options, if any.
pub open spec fn first_some<R>(s: Seq<Option<R>>) -> Option<R>
    decreases s.len(),
{
    if s.len() == 0 {
        None
    } else if s[0] is Some {
        s[0]
    } else {
        first_some(s.drop_first())
    }
}

proof fn lemma_first_some_step<R>(s: Seq<Option<R>>, i: int)
    requires
        0 <= i < s.len(),
    ensures
        first_some(s.skip(i)) == (if s[i] is Some {
            s[i]
        } else {
            first_some(s.skip(i + 1))
        }),
{
    assert(s.skip(i)[0] == s[i]);
    assert(s.skip(i).drop_first() =~= s.skip(i + 1));
}

// --- Columns ---

/// The datatype of the outer array of a component column.
#[derive(Debug, Clone, Copy, PartialEq, Eq, Structural)]
pub enum ColumnDatatype {
    /// A list array, whose items may or may not be nullable.
    List { is_nullable: bool },
    /// Anything that is not a list array.
    Other,
}

/// A sparse column of component data: one optional cell per row, each cell holding the
/// encoded component batch of that row.
#[derive(Debug)]
pub struct ComponentColumn {
    pub datatype: ColumnDatatype,
    pub cells: Vec<Option<Vec<u8>>>,
}

/// What a component column holds.
pub struct ColumnView {
    pub datatype: ColumnDatatype,
    pub cells: Seq<Option<Seq<u8>>>,
}

/// The bytes of a cell, if it is valid.
pub open spec fn cell_view(c: Option<Vec<u8>>) -> Option<Seq<u8>> {
    match c {
        Some(v) => Some(v@),
        None => None,
    }
}

pub open spec fn cells_view(cells: Seq<Option<Vec<u8>>>) -> Seq<Option<Seq<u8>>> {
    cells.map_values(|c: Option<Vec<u8>>| cell_view(c))
}

impl View for ComponentColumn {
    type V = ColumnView;

    open spec fn view(&self) -> ColumnView {
        ColumnView { datatype: self.datatype, cells: cells_view(self.cells@) }
    }
}

impl ComponentColumn {
    pub fn new(datatype: ColumnDatatype, cells: Vec<Option<Vec<u8>>>) -> (r: ComponentColumn)
        ensures
            r@ == (ColumnView { datatype, cells: cells_view(cells@) }),
    {
        ComponentColumn { datatype, cells }
    }

    pub fn len(&self) -> (r: usize)
        ensures
            r == self@.cells.len(),
    {
        self.cells.len()
    }

    pub fn is_valid(&self, i: usize) -> (r: bool)
        requires
            i < self@.cells.len(),
        ensures
            r == self@.cells[i as int] is Some,
    {
        self.cells[i].is_some()
    }

    /// The rows `[index, index + len)` of this column.
    pub fn sliced(&self, index: usize, len: usize) -> (r: ComponentColumn)
        requires
            index + len <= self@.cells.len(),
        ensures
            r@ == (ColumnView {
                datatype: self@.datatype,
                cells: self@.cells.subrange(index as int, index + len),
            }),
    {
        let mut cells: Vec<Option<Vec<u8>>> = Vec::new();
        let mut i: usize = index;
        let n = self.cells.len();
        proof {
            assert(n == self@.cells.len());
        }
        let end = index + len;
        while i < end
            invariant
                end == index + len,
                index <= i <= end,
                end <= self@.cells.len(),
                cells_view(cells@) =~= self@.cells.subrange(index as int, i as int),
                cells@.len() == i - index,
            decreases index + len - i,
        {
            let cell = match &self.cells[i] {
                Some(bytes) => Some(bytes.clone()),
                None => None,
            };
            proof {
                if cell is Some {
                    assert(cell.unwrap()@ =~= self.cells@[i as int].unwrap()@);
                }
                assert(cell_view(cell) == self@.cells[i as int]);
            }
            let ghost before = cells@;
            cells.push(cell);
            proof {
                assert(cells@ == before.push(cell));
                assert(before.len() == i - index);
                assert forall|k: int| 0 <= k < cells@.len() implies #[trigger] cells_view(cells@)[k]
                    == self@.cells.subrange(index as int, i + 1)[k] by {
                    if k < before.len() {
                        assert(cells_view(before)[k] == cell_view(before[k]));
                        assert(cells_view(before)[k] == self@.cells.subrange(index as int, i as int)[k]);
                    } else {
                        assert(cells@[k] == cell);
                    }
                }
                assert(cells_view(cells@) =~= self@.cells.subrange(index as int, i + 1));
            }
            i = i + 1;
        }
        ComponentColumn { datatype: self.datatype, cells }
    }
}


// --- Errors ---

/// Which invariant of a chunk does not hold.
#[derive(Debug, Clone, Copy, PartialEq, Eq, Structural)]
pub enum MalformedReason {
    /// The chunk's `is_sorted` flag disagrees with the order of its row ids.
    RowIdsSortedness { marked_sorted: bool },
    /// A timeline does not have one time per row.
    TimelineLength { num_row_ids: usize, num_times: usize },
    /// A timeline's `is_sorted` flag disagrees with the order of its times.
    TimesSortedness { marked_sorted: bool },
    /// A timeline's cached range is not attained by its times.
    TimeRangeNotTight,
    /// A time lies outside its timeline's cached range.
    TimeOutsideRange { time: i64, min: i64, max: i64 },
    /// A timeline holds the static time.
    StaticTime,
    /// A component's outer array is not a list.
    ComponentNotList,
    /// A component's outer list does not allow missing cells.
    ComponentNotNullable,
    /// A component does not have one cell per row.
    ComponentLength { num_row_ids: usize, num_cells: usize },
}

/// Errors that can occur when creating or checking a chunk.
#[derive(Debug, Clone, Copy, PartialEq, Eq, Structural)]
pub enum ChunkError {
    /// The chunk's data does not uphold its invariants.
    Malformed { reason: MalformedReason },
    /// Chunks cannot be empty.
    Empty,
}

// --- Timelines ---

/// What a timeline column holds.
pub struct TimeColumnView {
    pub timeline: (Seq<char>, TimeType),
    pub times: Seq<i64>,
    pub is_sorted: bool,
    pub time_range: ResolvedTimeRange,
}

/// The range that a new timeline caches: the first and last times when it is marked
/// sorted, the smallest and largest times otherwise, each made temporal.
pub open spec fn computed_range(is_sorted: bool, times: Seq<i64>) -> ResolvedTimeRange {
    if is_sorted {
        ResolvedTimeRange {
            min: TimeInt(temporal(times[0])),
            max: TimeInt(temporal(times.last())),
        }
    } else {
        ResolvedTimeRange {
            min: TimeInt(temporal(seq_min(times))),
            max: TimeInt(temporal(seq_max(times))),
        }
    }
}

/// The first time, in order, that lies outside `r` or is the static time.
pub open spec fn first_bad_time(s: Seq<i64>, r: ResolvedTimeRange) -> Option<MalformedReason>
    decreases s.len(),
{
    if s.len() == 0 {
        None
    } else if s[0] < r.min.0 || s[0] > r.max.0 {
        Some(MalformedReason::TimeOutsideRange { time: s[0], min: r.min.0, max: r.max.0 })
    } else if s[0] == STATIC_TIME_I64 {
        Some(MalformedReason::StaticTime)
    } else {
        first_bad_time(s.drop_first(), r)
    }
}

proof fn lemma_first_bad_time_step(s: Seq<i64>, r: ResolvedTimeRange, i: int)
    requires
        0 <= i < s.len(),
        r.min.0 <= s[i] <= r.max.0,
        s[i] != STATIC_TIME_I64,
    ensures
        first_bad_time(s.skip(i), r) == first_bad_time(s.skip(i + 1), r),
{
    assert(s.skip(i)[0] == s[i]);
    assert(s.skip(i).drop_first() =~= s.skip(i + 1));
}

proof fn lemma_first_bad_time_none(s: Seq<i64>, r: ResolvedTimeRange)
    ensures
        first_bad_time(s, r) is None <==> forall|k: int|
            0 <= k < s.len() ==> r.min.0 <= s[k] <= r.max.0 && s[k] != STATIC_TIME_I64,
    decreases s.len(),
{
    if s.len() > 0 {
        lemma_first_bad_time_none(s.drop_first(), r);
        if first_bad_time(s, r) is None {
            assert forall|k: int| 0 <= k < s.len() implies r.min.0 <= s[k] <= r.max.0 && s[k]
                != STATIC_TIME_I64 by {
                if k > 0 {
                    assert(s.drop_first()[k - 1] == s[k]);
                }
            }
        } else {
            if s[0] < r.min.0 || s[0] > r.max.0 || s[0] == STATIC_TIME_I64 {
            } else {
                let k = choose|k: int|
                    0 <= k < s.drop_first().len() && !(r.min.0 <= s.drop_first()[k] <= r.max.0
                        && s.drop_first()[k] != STATIC_TIME_I64);
                assert(s[k + 1] == s.drop_first()[k]);
            }
        }
    }
}

/// The first invariant that a timeline's own data breaks, if any.
pub open spec fn timeline_problem(t: TimeColumnView) -> Option<MalformedReason> {
    if t.is_sorted != times_sorted(t.times) {
        Some(MalformedReason::TimesSortedness { marked_sorted: t.is_sorted })
    } else if !(t.times.contains(t.time_range.min.0) && t.times.contains(t.time_range.max.0)) {
        Some(MalformedReason::TimeRangeNotTight)
    } else {
        first_bad_time(t.times, t.time_range)
    }
}

impl TimeColumnView {
    /// A timeline as this library builds it: non-empty, never marked sorted unless it is,
    /// free of the static time, and with a cached range that is exactly the smallest and
    /// largest time.
    pub open spec fn wf(self) -> bool {
        &&& self.times.len() > 0
        &&& self.is_sorted ==> times_sorted(self.times)
        &&& forall|k: int|
            0 <= k < self.times.len() ==> self.time_range.min.0 <= #[trigger] self.times[k]
                <= self.time_range.max.0 && self.times[k] != STATIC_TIME_I64
        &&& self.times.contains(self.time_range.min.0)
        &&& self.times.contains(self.time_range.max.0)
    }
}

/// One time column of a chunk.
#[derive(Debug)]
pub struct ChunkTimeline {
    pub(crate) timeline: Timeline,
    pub(crate) times: Vec<i64>,
    pub(crate) is_sorted: bool,
    pub(crate) time_range: ResolvedTimeRange,
}

impl View for ChunkTimeline {
    type V = TimeColumnView;

    closed spec fn view(&self) -> TimeColumnView {
        TimeColumnView {
            timeline: self.timeline@,
            times: self.times@,
            is_sorted: self.is_sorted,
            time_range: self.time_range,
        }
    }
}

/// Whether every value is at most the next one.
fn is_sorted_i64(s: &[i64]) -> (r: bool)
    ensures
        r == times_sorted(s@),
{
    let n = s.len();
    let mut i: usize = 1;
    if n == 0 {
        return true;
    }
    while i < n
        invariant
            n == s@.len(),
            1 <= i <= n,
            times_sorted(s@.subrange(0, i as int)),
        decreases n - i,
    {
        if s[i - 1] > s[i] {
            proof {
                assert(s@.subrange(0, i + 1)[i - 1] == s@[i - 1]);
                assert(s@.subrange(0, i + 1)[i as int] == s@[i as int]);
                assert(s@.subrange(0, i + 1) =~= s@.subrange(0, i + 1));
                assert(!times_sorted(s@)) by {
                    assert(s@[i - 1] > s@[i as int]);
                }
            }
            return false;
        }
        proof {
            let p = s@.subrange(0, i as int);
            let q = s@.subrange(0, i + 1);
            assert forall|a: int, b: int| 0 <= a < b < q.len() implies q[a] <= q[b] by {
                if b < i {
                    assert(q[a] == p[a] && q[b] == p[b]);
                } else if a < i - 1 {
                    assert(q[a] == p[a] && p[i - 1] == q[i - 1]);
                }
            }
        }
        i = i + 1;
    }
    proof {
        assert(s@.subrange(0, n as int) =~= s@);
    }
    true
}

/// Whether `x` occurs in `s`.
fn contains_i64(s: &[i64], x: i64) -> (r: bool)
    ensures
        r == s@.contains(x),
{
    let n = s.len();
    let mut i: usize = 0;
    while i < n
        invariant
            n == s@.len(),
            i <= n,
            forall|k: int| 0 <= k < i ==> s@[k] != x,
        decreases n - i,
    {
        if s[i] == x {
            proof {
                assert(s@[i as int] == x);
            }
            return true;
        }
        i = i + 1;
    }
    false
}

/// The smallest value of a non-empty slice.
fn min_i64(s: &[i64]) -> (r: i64)
    requires
        s@.len() > 0,
    ensures
        r == seq_min(s@),
{
    let n = s.len();
    let mut m = s[0];
    let mut i: usize = 1;
    proof {
        assert(s@.subrange(0, 1).len() == 1);
    }
    while i < n
        invariant
            n == s@.len(),
            1 <= i <= n,
            m == seq_min(s@.subrange(0, i as int)),
        decreases n - i,
    {
        proof {
            assert(s@.subrange(0, i + 1).drop_last() =~= s@.subrange(0, i as int));
        }
        if s[i] < m {
            m = s[i];
        }
        i = i + 1;
    }
    proof {
        assert(s@.subrange(0, n as int) =~= s@);
    }
    m
}

/// The largest value of a non-empty slice.
fn max_i64(s: &[i64]) -> (r: i64)
    requires
        s@.len() > 0,
    ensures
        r == seq_max(s@),
{
    let n = s.len();
    let mut m = s[0];
    let mut i: usize = 1;
    proof {
        assert(s@.subrange(0, 1).len() == 1);
    }
    while i < n
        invariant
            n == s@.len(),
            1 <= i <= n,
            m == seq_max(s@.subrange(0, i as int)),
        decreases n - i,
    {
        proof {
            assert(s@.subrange(0, i + 1).drop_last() =~= s@.subrange(0, i as int));
        }
        if s[i] > m {
            m = s[i];
        }
        i = i + 1;
    }
    proof {
        assert(s@.subrange(0, n as int) =~= s@);
    }
    m
}

/// A sorted flag that holds, applied to a range computed from it, gives a well-formed
/// timeline whenever the times are free of the static time.
proof fn lemma_computed_range_wf(timeline: (Seq<char>, TimeType), times: Seq<i64>, is_sorted: bool)
    requires
        times.len() > 0,
        is_sorted ==> times_sorted(times),
        forall|k: int| 0 <= k < times.len() ==> #[trigger] times[k] != STATIC_TIME_I64,
    ensures
        (TimeColumnView {
            timeline,
            times,
            is_sorted,
            time_range: computed_range(is_sorted, times),
        }).wf(),
{
    lemma_seq_min_max(times);
    let r = computed_range(is_sorted, times);
    if is_sorted {
        assert(times[times.len() - 1] == times.last());
        assert(times.contains(times[0]));
        assert(times.contains(times.last()));
        assert forall|k: int| 0 <= k < times.len() implies r.min.0 <= #[trigger] times[k] <= r.max.0 by {
            if k > 0 {
                assert(times[0] <= times[k]);
            }
            if k < times.len() - 1 {
                assert(times[k] <= times[times.len() - 1]);
            }
        }
    } else {
        let i1 = choose|i: int| 0 <= i < times.len() && times[i] == seq_min(times);
        let i2 = choose|i: int| 0 <= i < times.len() && times[i] == seq_max(times);
        assert(times[i1] != STATIC_TIME_I64);
        assert(times[i2] != STATIC_TIME_I64);
    }
}

impl ChunkTimeline {
    /// Creates a timeline column; `None` if `times` is empty.
    ///
    /// When `is_sorted` is given it is trusted, otherwise it is computed. The cached range
    /// is then taken from the first and last times if sorted, from the smallest and largest
    /// times otherwise.
    pub fn new(is_sorted: Option<bool>, timeline: Timeline, times: Vec<i64>) -> (r: Option<
        ChunkTimeline,
    >)
        ensures
            times@.len() == 0 <==> r is None,
            r matches Some(t) ==> {
                let flag = match is_sorted {
                    Some(b) => b,
                    None => times_sorted(times@),
                };
                &&& t@.timeline == timeline@
                &&& t@.times == times@
                &&& t@.is_sorted == flag
                &&& t@.time_range == computed_range(flag, times@)
            },
    {
        if times.len() == 0 {
            return None;
        }
        let flag = match is_sorted {
            Some(b) => b,
            None => is_sorted_i64(times.as_slice()),
        };
        let time_range = if flag {
            let n = times.len();
            ResolvedTimeRange::new(TimeInt::new_temporal(times[0]), TimeInt::new_temporal(times[n - 1]))
        } else {
            let lo = min_i64(times.as_slice());
            let hi = max_i64(times.as_slice());
            ResolvedTimeRange::new(TimeInt::new_temporal(lo), TimeInt::new_temporal(hi))
        };
        Some(ChunkTimeline { timeline, times, is_sorted: flag, time_range })
    }

    pub fn timeline(&self) -> (r: &Timeline)
        ensures
            r@ == self@.timeline,
    {
        &self.timeline
    }

    pub fn is_sorted(&self) -> (r: bool)
        ensures
            r == self@.is_sorted,
    {
        self.is_sorted
    }

    pub fn time_range(&self) -> (r: ResolvedTimeRange)
        ensures
            r == self@.time_range,
    {
        self.time_range
    }

    pub fn times(&self) -> (r: &[i64])
        ensures
            r@ == self@.times,
    {
        self.times.as_slice()
    }

    /// The time at row `at`, if there is such a row.
    pub fn time_at(&self, at: usize) -> (r: Option<TimeInt>)
        ensures
            r == (if at < self@.times.len() {
                Some(TimeInt(temporal(self@.times[at as int])))
            } else {
                None::<TimeInt>
            }),
    {
        if at < self.times.len() {
            Some(TimeInt::new_temporal(self.times[at]))
        } else {
            None
        }
    }

    /// Checks the timeline's invariants; the error names the first one broken.
    pub fn sanity_check(&self) -> (r: Result<(), ChunkError>)
        ensures
            r == (match timeline_problem(self@) {
                Some(reason) => Err(ChunkError::Malformed { reason }),
                None => Ok(()),
            }),
    {
        let times = self.times.as_slice();
        if self.is_sorted != is_sorted_i64(times) {
            return Err(
                ChunkError::Malformed {
                    reason: MalformedReason::TimesSortedness { marked_sorted: self.is_sorted },
                },
            );
        }
        let lo = self.time_range.min.0;
        let hi = self.time_range.max.0;
        let is_tight = contains_i64(times, lo) && contains_i64(times, hi);
        if !is_tight {
            return Err(ChunkError::Malformed { reason: MalformedReason::TimeRangeNotTight });
        }
        let n = times.len();
        let mut i: usize = 0;
        proof {
            assert(self@.times.skip(0) =~= self@.times);
        }
        while i < n
            invariant
                n == times@.len(),
                times@ == self@.times,
                lo == self@.time_range.min.0,
                hi == self@.time_range.max.0,
                self@.is_sorted == times_sorted(self@.times),
                self@.times.contains(lo) && self@.times.contains(hi),
                i <= n,
                first_bad_time(self@.times, self@.time_range) == first_bad_time(
                    self@.times.skip(i as int),
                    self@.time_range,
                ),
            decreases n - i,
        {
            let t = times[i];
            let ghost rest = self@.times.skip(i as int);
            proof {
                assert(rest[0] == t);
                assert(rest.len() > 0);
            }
            if t < lo || t > hi {
                return Err(
                    ChunkError::Malformed {
                        reason: MalformedReason::TimeOutsideRange { time: t, min: lo, max: hi },
                    },
                );
            }
            if t == STATIC_TIME_I64 {
                return Err(ChunkError::Malformed { reason: MalformedReason::StaticTime });
            }
            proof {
                lemma_first_bad_time_step(self@.times, self@.time_range, i as int);
            }
            i = i + 1;
        }
        proof {
            assert(self@.times.skip(n as int).len() == 0);
        }
        Ok(())
    }

    /// The rows `[index, index + len)` of this timeline, marked sorted exactly when those
    /// times are, with the range of those times.
    pub fn sliced(&self, index: usize, len: usize) -> (r: ChunkTimeline)
        requires
            index + len <= self@.times.len(),
            len >= 1,
        ensures
            r@.timeline == self@.timeline,
            r@.times == self@.times.subrange(index as int, index + len),
            r@.is_sorted == times_sorted(self@.times.subrange(index as int, index + len)),
            r@.time_range == computed_range(
                times_sorted(self@.times.subrange(index as int, index + len)),
                self@.times.subrange(index as int, index + len),
            ),
            self@.wf() ==> r@.wf(),
    {
        let mut times: Vec<i64> = Vec::new();
        let total = self.times.len();
        proof {
            assert(total == self@.times.len());
        }
        let end = index + len;
        let mut i: usize = index;
        while i < end
            invariant
                end == index + len,
                end <= self@.times.len(),
                index <= i <= end,
                times@ =~= self@.times.subrange(index as int, i as int),
            decreases end - i,
        {
            times.push(self.times[i]);
            i = i + 1;
        }
        let r = ChunkTimeline::new(None, self.timeline.duplicate(), times).unwrap();
        proof {
            if self@.wf() {
                let sub = self@.times.subrange(index as int, index + len);
                assert forall|k: int| 0 <= k < sub.len() implies #[trigger] sub[k]
                    != STATIC_TIME_I64 by {
                    assert(sub[k] == self@.times[index + k]);
                }
                lemma_computed_range_wf(self@.timeline, sub, times_sorted(sub));
            }
        }
        r
    }
}

/// A timeline that passes its sanity check is well formed.
proof fn lemma_no_problem_wf(t: TimeColumnView)
    requires
        t.times.len() > 0,
        timeline_problem(t) is None,
    ensures
        t.wf(),
{
    lemma_first_bad_time_none(t.times, t.time_range);
}


proof fn lemma_first_some_none<R>(s: Seq<Option<R>>)
    ensures
        first_some(s) is None <==> forall|k: int| 0 <= k < s.len() ==> s[k] is None,
    decreases s.len(),
{
    if s.len() > 0 {
        lemma_first_some_none(s.drop_first());
        if first_some(s) is None {
            assert forall|k: int| 0 <= k < s.len() implies s[k] is None by {
                if k > 0 {
                    assert(s.drop_first()[k - 1] == s[k]);
                }
            }
        } else if s[0] is None {
            let k = choose|k: int| 0 <= k < s.drop_first().len() && s.drop_first()[k] is Some;
            assert(s[k + 1] == s.drop_first()[k]);
        }
    }
}

// --- Chunks ---

/// The problem, if any, with a timeline of a chunk of `n` rows.
pub open spec fn timeline_in_chunk_problem(t: TimeColumnView, n: nat) -> Option<MalformedReason> {
    if t.times.len() != n {
        Some(
            MalformedReason::TimelineLength {
                num_row_ids: n as usize,
                num_times: t.times.len() as usize,
            },
        )
    } else {
        timeline_problem(t)
    }
}

/// The problem, if any, with a component column of a chunk of `n` rows.
pub open spec fn component_problem(c: ColumnView, n: nat) -> Option<MalformedReason> {
    match c.datatype {
        ColumnDatatype::Other => Some(MalformedReason::ComponentNotList),
        ColumnDatatype::List { is_nullable } => {
            if !is_nullable {
                Some(MalformedReason::ComponentNotNullable)
            } else if c.cells.len() != n {
                Some(
                    MalformedReason::ComponentLength {
                        num_row_ids: n as usize,
                        num_cells: c.cells.len() as usize,
                    },
                )
            } else {
                None
            }
        },
    }
}

/// What a chunk holds.
pub struct ChunkView {
    pub id: ChunkId,
    pub entity_path: Seq<char>,
    pub is_sorted: bool,
    pub row_ids: Seq<RowId>,
    pub timelines: Seq<TimeColumnView>,
    pub components: Seq<(Seq<char>, ColumnView)>,
}

impl ChunkView {
    /// Timelines are keyed by name and kind, components by name.
    pub open spec fn unique_keys(self) -> bool {
        &&& forall|i: int, j: int|
            0 <= i < j < self.timelines.len() ==> self.timelines[i].timeline
                != self.timelines[j].timeline
        &&& forall|i: int, j: int|
            0 <= i < j < self.components.len() ==> self.components[i].0 != self.components[j].0
    }

    /// The invariants that every chunk of this library keeps.
    pub open spec fn wf(self) -> bool {
        &&& self.unique_keys()
        &&& forall|i: int|
            0 <= i < self.timelines.len() ==> (#[trigger] self.timelines[i]).wf()
                && self.timelines[i].times.len() == self.row_ids.len()
        &&& forall|i: int|
            0 <= i < self.components.len() ==> (#[trigger] self.components[i]).1.cells.len()
                == self.row_ids.len()
        &&& self.is_sorted ==> row_ids_sorted(self.row_ids)
    }

    /// What `sanity_check` returns: `Empty` for a chunk without rows or without components,
    /// otherwise the first broken invariant in the order: row-id order flag, each timeline,
    /// each component.
    pub open spec fn check(self) -> Result<(), ChunkError> {
        let n = self.row_ids.len();
        if n == 0 || self.components.len() == 0 {
            Err(ChunkError::Empty)
        } else if self.is_sorted != row_ids_sorted(self.row_ids) {
            Err(
                ChunkError::Malformed {
                    reason: MalformedReason::RowIdsSortedness { marked_sorted: self.is_sorted },
                },
            )
        } else {
            match first_some(
                self.timelines.map_values(|t: TimeColumnView| timeline_in_chunk_problem(t, n)),
            ) {
                Some(reason) => Err(ChunkError::Malformed { reason }),
                None => match first_some(
                    self.components.map_values(
                        |c: (Seq<char>, ColumnView)| component_problem(c.1, n),
                    ),
                ) {
                    Some(reason) => Err(ChunkError::Malformed { reason }),
                    None => Ok(()),
                },
            }
        }
    }

    /// The index of the timeline with this key, if any.
    pub open spec fn timeline_index(self, key: (Seq<char>, TimeType)) -> Option<int> {
        if exists|i: int| 0 <= i < self.timelines.len() && self.timelines[i].timeline == key {
            Some(
                choose|i: int| 0 <= i < self.timelines.len() && self.timelines[i].timeline == key,
            )
        } else {
            None
        }
    }

    /// The index of the component with this name, if any.
    pub open spec fn component_index(self, name: Seq<char>) -> Option<int> {
        if exists|i: int| 0 <= i < self.components.len() && self.components[i].0 == name {
            Some(choose|i: int| 0 <= i < self.components.len() && self.components[i].0 == name)
        } else {
            None
        }
    }

    /// The rows `[index, index + len)` of this chunk, marked sorted exactly when those row
    /// ids are; each timeline is marked sorted exactly when its sliced times are and
    /// recomputes its range.
    pub open spec fn slice(self, index: int, len: int) -> ChunkView {
        ChunkView {
            id: self.id,
            entity_path: self.entity_path,
            is_sorted: row_ids_sorted(self.row_ids.subrange(index, index + len)),
            row_ids: self.row_ids.subrange(index, index + len),
            timelines: self.timelines.map_values(
                |t: TimeColumnView|
                    TimeColumnView {
                        timeline: t.timeline,
                        times: t.times.subrange(index, index + len),
                        is_sorted: times_sorted(t.times.subrange(index, index + len)),
                        time_range: computed_range(
                            times_sorted(t.times.subrange(index, index + len)),
                            t.times.subrange(index, index + len),
                        ),
                    },
            ),
            components: self.components.map_values(
                |c: (Seq<char>, ColumnView)|
                    (
                        c.0,
                        ColumnView {
                            datatype: c.1.datatype,
                            cells: c.1.cells.subrange(index, index + len),
                        },
                    ),
            ),
        }
    }
}

/// A chunk whose check passes and whose keys are unique is well formed.
proof fn lemma_check_ok_wf(c: ChunkView)
    requires
        c.unique_keys(),
        c.check() is Ok,
    ensures
        c.wf(),
{
    let n = c.row_ids.len();
    let ts = c.timelines.map_values(|t: TimeColumnView| timeline_in_chunk_problem(t, n));
    let cs = c.components.map_values(|x: (Seq<char>, ColumnView)| component_problem(x.1, n));
    lemma_first_some_none(ts);
    lemma_first_some_none(cs);
    assert forall|i: int| 0 <= i < c.timelines.len() implies (#[trigger] c.timelines[i]).wf()
        && c.timelines[i].times.len() == c.row_ids.len() by {
        assert(ts[i] is None);
        lemma_no_problem_wf(c.timelines[i]);
    }
    assert forall|i: int| 0 <= i < c.components.len() implies (#[trigger] c.components[i]).1.cells.len()
        == c.row_ids.len() by {
        assert(cs[i] is None);
    }
}

/// Rows of data for one entity: one row id per row, any number of time columns and of
/// sparse component columns, each with one entry per row.
#[derive(Debug)]
pub struct Chunk {
    pub(crate) id: ChunkId,
    pub(crate) entity_path: EntityPath,
    pub(crate) is_sorted: bool,
    pub(crate) row_ids: Vec<RowId>,
    pub(crate) timelines: Vec<ChunkTimeline>,
    pub(crate) components: Vec<(ComponentName, ComponentColumn)>,
}

pub open spec fn timelines_view(s: Seq<ChunkTimeline>) -> Seq<TimeColumnView> {
    s.map_values(|t: ChunkTimeline| t@)
}

pub open spec fn components_view(s: Seq<(ComponentName, ComponentColumn)>) -> Seq<(Seq<char>, ColumnView)> {
    s.map_values(|c: (ComponentName, ComponentColumn)| (c.0@, c.1@))
}

impl View for Chunk {
    type V = ChunkView;

    closed spec fn view(&self) -> ChunkView {
        ChunkView {
            id: self.id,
            entity_path: self.entity_path@,
            is_sorted: self.is_sorted,
            row_ids: self.row_ids@,
            timelines: timelines_view(self.timelines@),
            components: components_view(self.components@),
        }
    }
}

/// Whether every row id is at most the next one.
fn row_ids_are_sorted(s: &[RowId]) -> (r: bool)
    ensures
        r == row_ids_sorted(s@),
{
    let n = s.len();
    if n == 0 {
        return true;
    }
    let mut i: usize = 1;
    while i < n
        invariant
            n == s@.len(),
            1 <= i <= n,
            row_ids_sorted(s@.subrange(0, i as int)),
        decreases n - i,
    {
        if s[i - 1].0 > s[i].0 {
            proof {
                assert(!row_ids_sorted(s@)) by {
                    assert(s@[i - 1].0 > s@[i as int].0);
                }
            }
            return false;
        }
        proof {
            let p = s@.subrange(0, i as int);
            let q = s@.subrange(0, i + 1);
            assert forall|a: int, b: int| 0 <= a < b < q.len() implies q[a].0 <= q[b].0 by {
                if b < i {
                    assert(q[a] == p[a] && q[b] == p[b]);
                } else if a < i - 1 {
                    assert(q[a] == p[a] && p[i - 1] == q[i - 1]);
                }
            }
        }
        i = i + 1;
    }
    proof {
        assert(s@.subrange(0, n as int) =~= s@);
    }
    true
}

impl Chunk {
    /// Checks the chunk's invariants; see [`ChunkView::check`].
    pub fn sanity_check(&self) -> (r: Result<(), ChunkError>)
        ensures
            r == self@.check(),
    {
        let n = self.row_ids.len();
        if n == 0 || self.components.len() == 0 {
            return Err(ChunkError::Empty);
        }
        if self.is_sorted != row_ids_are_sorted(self.row_ids.as_slice()) {
            return Err(
                ChunkError::Malformed {
                    reason: MalformedReason::RowIdsSortedness { marked_sorted: self.is_sorted },
                },
            );
        }
        let ghost nn = n as nat;
        let ghost ts = self@.timelines.map_values(
            |t: TimeColumnView| timeline_in_chunk_problem(t, nn),
        );
        let ghost cs = self@.components.map_values(
            |c: (Seq<char>, ColumnView)| component_problem(c.1, nn),
        );
        let nt = self.timelines.len();
        let mut i: usize = 0;
        proof {
            assert(ts.skip(0) =~= ts);
        }
        while i < nt
            invariant
                nt == self.timelines@.len(),
                nt == ts.len(),
                n == self@.row_ids.len(),
                nn == n,
                ts == self@.timelines.map_values(
                    |t: TimeColumnView| timeline_in_chunk_problem(t, nn),
                ),
                n > 0,
                self@.components.len() > 0,
                self@.is_sorted == row_ids_sorted(self@.row_ids),
                i <= nt,
                first_some(ts) == first_some(ts.skip(i as int)),
            decreases nt - i,
        {
            let tl = &self.timelines[i];
            proof {
                assert(self@.timelines[i as int] == tl@);
                assert(ts[i as int] == timeline_in_chunk_problem(tl@, nn));
            }
            let len = tl.times.len();
            if len != n {
                proof {
                    lemma_first_some_step(ts, i as int);
                }
                return Err(
                    ChunkError::Malformed {
                        reason: MalformedReason::TimelineLength { num_row_ids: n, num_times: len },
                    },
                );
            }
            match tl.sanity_check() {
                Err(e) => {
                    proof {
                        lemma_first_some_step(ts, i as int);
                    }
                    return Err(e);
                },
                Ok(()) => {},
            }
            proof {
                lemma_first_some_step(ts, i as int);
            }
            i = i + 1;
        }
        let nc = self.components.len();
        let mut j: usize = 0;
        proof {
            assert(cs.skip(0) =~= cs);
            assert(ts.skip(nt as int).len() == 0);
        }
        while j < nc
            invariant
                nc == self.components@.len(),
                nc == cs.len(),
                n == self@.row_ids.len(),
                nn == n,
                cs == self@.components.map_values(
                    |c: (Seq<char>, ColumnView)| component_problem(c.1, nn),
                ),
                ts == self@.timelines.map_values(
                    |t: TimeColumnView| timeline_in_chunk_problem(t, nn),
                ),
                first_some(ts) is None,
                n > 0,
                self@.components.len() > 0,
                self@.is_sorted == row_ids_sorted(self@.row_ids),
                j <= nc,
                first_some(cs) == first_some(cs.skip(j as int)),
            decreases nc - j,
        {
            let col = &self.components[j].1;
            proof {
                assert(self@.components[j as int].1 == col@);
                assert(cs[j as int] == component_problem(col@, nn));
                lemma_first_some_step(cs, j as int);
            }
            match col.datatype {
                ColumnDatatype::Other => {
                    return Err(ChunkError::Malformed { reason: MalformedReason::ComponentNotList });
                },
                ColumnDatatype::List { is_nullable } => {
                    if !is_nullable {
                        return Err(
                            ChunkError::Malformed { reason: MalformedReason::ComponentNotNullable },
                        );
                    }
                },
            }
            let len = col.cells.len();
            if len != n {
                return Err(
                    ChunkError::Malformed {
                        reason: MalformedReason::ComponentLength { num_row_ids: n, num_cells: len },
                    },
                );
            }
            j = j + 1;
        }
        proof {
            assert(cs.skip(nc as int).len() == 0);
        }
        Ok(())
    }
}


/// What `Chunk::new` builds from its arguments before checking it: a chunk without
/// timelines keeps only its last row and is marked sorted; otherwise the sorted flag is the
/// one given, or computed from the row ids.
pub open spec fn new_view(
    id: ChunkId,
    entity_path: Seq<char>,
    is_sorted: Option<bool>,
    row_ids: Seq<RowId>,
    timelines: Seq<TimeColumnView>,
    components: Seq<(Seq<char>, ColumnView)>,
) -> ChunkView {
    let n = row_ids.len() as int;
    if timelines.len() == 0 {
        ChunkView {
            id,
            entity_path,
            is_sorted: true,
            row_ids: row_ids.subrange(n - 1, n),
            timelines,
            components: components.map_values(
                |c: (Seq<char>, ColumnView)|
                    (
                        c.0,
                        ColumnView { datatype: c.1.datatype, cells: c.1.cells.subrange(n - 1, n) },
                    ),
            ),
        }
    } else {
        ChunkView {
            id,
            entity_path,
            is_sorted: match is_sorted {
                Some(b) => b,
                None => row_ids_sorted(row_ids),
            },
            row_ids,
            timelines,
            components,
        }
    }
}

proof fn lemma_sorted_row_id_bounds(s: Seq<RowId>)
    requires
        s.len() > 0,
        row_ids_sorted(s),
    ensures
        row_id_min(s) == s[0].0,
        row_id_max(s) == s.last().0,
{
    lemma_row_id_min_max(s);
    let k1 = choose|k: int| 0 <= k < s.len() && s[k].0 == row_id_min(s);
    let k2 = choose|k: int| 0 <= k < s.len() && s[k].0 == row_id_max(s);
    if k1 > 0 {
        assert(s[0].0 <= s[k1].0);
    }
    assert(s[s.len() - 1] == s.last());
    if k2 < s.len() - 1 {
        assert(s[k2].0 <= s[s.len() - 1].0);
    }
}

/// The smallest row id of a non-empty slice.
fn min_row_id(s: &[RowId]) -> (r: RowId)
    requires
        s@.len() > 0,
    ensures
        r.0 == row_id_min(s@),
{
    let n = s.len();
    let mut m = s[0];
    let mut i: usize = 1;
    proof {
        assert(s@.subrange(0, 1).len() == 1);
    }
    while i < n
        invariant
            n == s@.len(),
            1 <= i <= n,
            m.0 == row_id_min(s@.subrange(0, i as int)),
        decreases n - i,
    {
        proof {
            assert(s@.subrange(0, i + 1).drop_last() =~= s@.subrange(0, i as int));
        }
        if s[i].0 < m.0 {
            m = s[i];
        }
        i = i + 1;
    }
    proof {
        assert(s@.subrange(0, n as int) =~= s@);
    }
    m
}

/// The largest row id of a non-empty slice.
fn max_row_id(s: &[RowId]) -> (r: RowId)
    requires
        s@.len() > 0,
    ensures
        r.0 == row_id_max(s@),
{
    let n = s.len();
    let mut m = s[0];
    let mut i: usize = 1;
    proof {
        assert(s@.subrange(0, 1).len() == 1);
    }
    while i < n
        invariant
            n == s@.len(),
            1 <= i <= n,
            m.0 == row_id_max(s@.subrange(0, i as int)),
        decreases n - i,
    {
        proof {
            assert(s@.subrange(0, i + 1).drop_last() =~= s@.subrange(0, i as int));
        }
        if s[i].0 > m.0 {
            m = s[i];
        }
        i = i + 1;
    }
    proof {
        assert(s@.subrange(0, n as int) =~= s@);
    }
    m
}

impl Chunk {
    /// Creates a chunk, then checks it (see [`ChunkView::check`]).
    ///
    /// A chunk without timelines is static: only its last row is kept. When `is_sorted` is
    /// not given, it is computed from the row ids.
    pub fn new(
        id: ChunkId,
        entity_path: EntityPath,
        is_sorted: Option<bool>,
        row_ids: Vec<RowId>,
        timelines: Vec<ChunkTimeline>,
        components: Vec<(ComponentName, ComponentColumn)>,
    ) -> (r: Result<Chunk, ChunkError>)
        requires
            forall|i: int, j: int|
                0 <= i < j < timelines@.len() ==> timelines@[i]@.timeline
                    != timelines@[j]@.timeline,
            forall|i: int, j: int|
                0 <= i < j < components@.len() ==> components@[i].0@ != components@[j].0@,
            timelines@.len() == 0 ==> forall|i: int|
                0 <= i < components@.len() ==> row_ids@.len() <= components@[i].1@.cells.len(),
        ensures
            row_ids@.len() == 0 ==> r == Err::<Chunk, ChunkError>(ChunkError::Empty),
            row_ids@.len() > 0 ==> ({
                let v = new_view(
                    id,
                    entity_path@,
                    is_sorted,
                    row_ids@,
                    timelines_view(timelines@),
                    components_view(components@),
                );
                &&& (r is Ok <==> v.check() is Ok)
                &&& r matches Ok(c) ==> c@ == v && c@.wf()
                &&& r matches Err(e) ==> v.check() == Err::<(), ChunkError>(e)
            }),
    {
        let n = row_ids.len();
        if n == 0 {
            return Err(ChunkError::Empty);
        }
        let ghost tv = timelines_view(timelines@);
        let ghost cv = components_view(components@);
        let ghost v = new_view(id, entity_path@, is_sorted, row_ids@, tv, cv);
        let chunk = if timelines.len() == 0 {
            let mut comps: Vec<(ComponentName, ComponentColumn)> = Vec::new();
            let nc = components.len();
            let mut j: usize = 0;
            while j < nc
                invariant
                    nc == components@.len(),
                    n == row_ids@.len(),
                    n > 0,
                    j <= nc,
                    forall|i: int|
                        0 <= i < components@.len() ==> row_ids@.len()
                            <= components@[i].1@.cells.len(),
                    comps@.len() == j,
                    forall|k: int|
                        0 <= k < j ==> (#[trigger] comps@[k]).0@ == components@[k].0@ && comps@[k].1@
                            == (ColumnView {
                            datatype: components@[k].1@.datatype,
                            cells: components@[k].1@.cells.subrange(n - 1, n as int),
                        }),
                decreases nc - j,
            {
                let name = components[j].0.duplicate();
                let col = components[j].1.sliced(n - 1, 1);
                comps.push((name, col));
                j = j + 1;
            }
            let last = row_ids[n - 1];
            let mut rows: Vec<RowId> = Vec::new();
            rows.push(last);
            let c = Chunk {
                id,
                entity_path,
                is_sorted: true,
                row_ids: rows,
                timelines,
                components: comps,
            };
            proof {
                assert(c@.row_ids =~= v.row_ids);
                assert(c@.timelines =~= v.timelines);
                assert(c@.components =~= v.components);
            }
            c
        } else {
            let flag = match is_sorted {
                Some(b) => b,
                None => row_ids_are_sorted(row_ids.as_slice()),
            };
            Chunk { id, entity_path, is_sorted: flag, row_ids, timelines, components }
        };
        proof {
            assert(chunk@ == v);
        }
        match chunk.sanity_check() {
            Ok(()) => {
                proof {
                    lemma_check_ok_wf(v);
                }
                Ok(chunk)
            },
            Err(e) => Err(e),
        }
    }

    /// A chunk without timelines; see [`Chunk::new`].
    pub fn new_static(
        id: ChunkId,
        entity_path: EntityPath,
        is_sorted: Option<bool>,
        row_ids: Vec<RowId>,
        components: Vec<(ComponentName, ComponentColumn)>,
    ) -> (r: Result<Chunk, ChunkError>)
        requires
            forall|i: int, j: int|
                0 <= i < j < components@.len() ==> components@[i].0@ != components@[j].0@,
            forall|i: int|
                0 <= i < components@.len() ==> row_ids@.len() <= components@[i].1@.cells.len(),
        ensures
            row_ids@.len() == 0 ==> r == Err::<Chunk, ChunkError>(ChunkError::Empty),
            row_ids@.len() > 0 ==> ({
                let v = new_view(
                    id,
                    entity_path@,
                    is_sorted,
                    row_ids@,
                    Seq::empty(),
                    components_view(components@),
                );
                &&& (r is Ok <==> v.check() is Ok)
                &&& r matches Ok(c) ==> c@ == v && c@.wf()
                &&& r matches Err(e) ==> v.check() == Err::<(), ChunkError>(e)
            }),
    {
        let timelines: Vec<ChunkTimeline> = Vec::new();
        proof {
            assert(timelines_view(timelines@) =~= Seq::<TimeColumnView>::empty());
        }
        Chunk::new(id, entity_path, is_sorted, row_ids, timelines, components)
    }

    pub fn id(&self) -> (r: ChunkId)
        ensures
            r == self@.id,
    {
        self.id
    }

    pub fn entity_path(&self) -> (r: &EntityPath)
        ensures
            r@ == self@.entity_path,
    {
        &self.entity_path
    }

    /// How many columns in total: the row-id column, the time columns and the component
    /// columns.
    pub fn num_columns(&self) -> (r: usize)
        requires
            1 + self@.timelines.len() + self@.components.len() <= usize::MAX,
        ensures
            r == 1 + self@.timelines.len() + self@.components.len(),
    {
        1 + self.timelines.len() + self.components.len()
    }

    /// How many control columns: the row-id column.
    pub fn num_controls(&self) -> (r: usize)
        ensures
            r == 1,
    {
        1
    }

    pub fn num_timelines(&self) -> (r: usize)
        ensures
            r == self@.timelines.len(),
    {
        self.timelines.len()
    }

    pub fn num_components(&self) -> (r: usize)
        ensures
            r == self@.components.len(),
    {
        self.components.len()
    }

    pub fn num_rows(&self) -> (r: usize)
        ensures
            r == self@.row_ids.len(),
    {
        self.row_ids.len()
    }

    pub fn row_ids(&self) -> (r: &[RowId])
        ensures
            r@ == self@.row_ids,
    {
        self.row_ids.as_slice()
    }

    pub fn is_sorted(&self) -> (r: bool)
        ensures
            r == self@.is_sorted,
    {
        self.is_sorted
    }

    /// Whether the row ids are in order, computed from them.
    pub fn is_sorted_uncached(&self) -> (r: bool)
        ensures
            r == row_ids_sorted(self@.row_ids),
    {
        row_ids_are_sorted(self.row_ids.as_slice())
    }

    pub fn is_static(&self) -> (r: bool)
        ensures
            r == (self@.timelines.len() == 0),
    {
        self.timelines.len() == 0
    }

    /// The smallest and the largest row id.
    pub fn row_id_range(&self) -> (r: (RowId, RowId))
        requires
            self@.wf(),
            self@.row_ids.len() > 0,
        ensures
            r.0.0 == row_id_min(self@.row_ids),
            r.1.0 == row_id_max(self@.row_ids),
    {
        let n = self.row_ids.len();
        if self.is_sorted {
            proof {
                lemma_sorted_row_id_bounds(self@.row_ids);
            }
            (self.row_ids[0], self.row_ids[n - 1])
        } else {
            (min_row_id(self.row_ids.as_slice()), max_row_id(self.row_ids.as_slice()))
        }
    }

    pub fn timelines(&self) -> (r: &[ChunkTimeline])
        ensures
            timelines_view(r@) == self@.timelines,
    {
        self.timelines.as_slice()
    }

    pub fn components(&self) -> (r: &[(ComponentName, ComponentColumn)])
        ensures
            components_view(r@) == self@.components,
    {
        self.components.as_slice()
    }

    /// The names of the components, in increasing order of names, each once.
    pub fn component_names(&self) -> (r: Vec<ComponentName>)
        ensures
            names_sorted(r@),
            forall|x: Seq<char>|
                has_name(r@, x) <==> exists|k: int|
                    0 <= k < self@.components.len() && self@.components[k].0 == x,
            self@.unique_keys() ==> r@.len() == self@.components.len(),
    {
        let mut names: Vec<ComponentName> = Vec::new();
        let nc = self.components.len();
        let mut i: usize = 0;
        while i < nc
            invariant
                nc == self.components@.len(),
                i <= nc,
                names_sorted(names@),
                forall|x: Seq<char>|
                    has_name(names@, x) <==> exists|k: int|
                        0 <= k < i && self@.components[k].0 == x,
                self@.unique_keys() ==> names@.len() == i,
            decreases nc - i,
        {
            let name = self.components[i].0.duplicate();
            proof {
                assert(name@ == self@.components[i as int].0);
                if self@.unique_keys() && has_name(names@, name@) {
                    let k = choose|k: int| 0 <= k < i && self@.components[k].0 == name@;
                    assert(self@.components[k].0 != self@.components[i as int].0);
                }
            }
            let ghost before = names@;
            insert_name_sorted(&mut names, name);
            proof {
                assert forall|x: Seq<char>|
                    has_name(names@, x) <==> exists|k: int|
                        0 <= k < i + 1 && self@.components[k].0 == x by {
                    if x == self@.components[i as int].0 {
                        assert(0 <= i < i + 1 && self@.components[i as int].0 == x);
                    }
                    if exists|k: int| 0 <= k < i + 1 && self@.components[k].0 == x {
                        let k = choose|k: int| 0 <= k < i + 1 && self@.components[k].0 == x;
                        if k < i {
                            assert(has_name(before, x));
                        }
                    }
                }
            }
            i = i + 1;
        }
        names
    }

    /// The position of the timeline with the same name and kind, if any.
    pub fn timeline_position(&self, timeline: &Timeline) -> (r: Option<usize>)
        ensures
            match r {
                Some(i) => i < self@.timelines.len() && self@.timelines[i as int].timeline
                    == timeline@,
                None => forall|i: int|
                    0 <= i < self@.timelines.len() ==> self@.timelines[i].timeline != timeline@,
            },
    {
        let nt = self.timelines.len();
        let mut i: usize = 0;
        while i < nt
            invariant
                nt == self.timelines@.len(),
                i <= nt,
                forall|k: int| 0 <= k < i ==> self@.timelines[k].timeline != timeline@,
            decreases nt - i,
        {
            if self.timelines[i].timeline.same(timeline) {
                return Some(i);
            }
            i = i + 1;
        }
        None
    }

    /// The position of the component with the same name, if any.
    pub fn component_position(&self, name: &ComponentName) -> (r: Option<usize>)
        ensures
            match r {
                Some(i) => i < self@.components.len() && self@.components[i as int].0 == name@,
                None => forall|i: int|
                    0 <= i < self@.components.len() ==> self@.components[i].0 != name@,
            },
    {
        let nc = self.components.len();
        let mut i: usize = 0;
        while i < nc
            invariant
                nc == self.components@.len(),
                i <= nc,
                forall|k: int| 0 <= k < i ==> self@.components[k].0 != name@,
            decreases nc - i,
        {
            if self.components[i].0.same(name) {
                return Some(i);
            }
            i = i + 1;
        }
        None
    }

    /// The row id at row `at`, if there is such a row.
    pub fn row_id_at(&self, at: usize) -> (r: Option<RowId>)
        ensures
            r == (if at < self@.row_ids.len() {
                Some(self@.row_ids[at as int])
            } else {
                None::<RowId>
            }),
    {
        if at < self.row_ids.len() {
            Some(self.row_ids[at])
        } else {
            None
        }
    }

    /// The time at row `at` on `timeline`, if the chunk has that timeline and that row.
    pub fn time_at(&self, timeline: &Timeline, at: usize) -> (r: Option<TimeInt>)
        requires
            self@.wf(),
        ensures
            r == (match self@.timeline_index(timeline@) {
                Some(i) => if at < self@.timelines[i].times.len() {
                    Some(TimeInt(temporal(self@.timelines[i].times[at as int])))
                } else {
                    None::<TimeInt>
                },
                None => None::<TimeInt>,
            }),
    {
        match self.timeline_position(timeline) {
            Some(i) => {
                proof {
                    self@.lemma_timeline_index(timeline@, i as int);
                }
                self.timelines[i].time_at(at)
            },
            None => None,
        }
    }

    /// The cell of `component_name` at row `at`: `None` if the chunk has no such component,
    /// the empty batch for a missing cell, the cell's bytes otherwise.
    pub fn component_batch_at(&self, component_name: &ComponentName, at: usize) -> (r: Option<
        Vec<u8>,
    >)
        requires
            self@.wf(),
            self@.component_index(component_name@) is Some ==> at < self@.row_ids.len(),
        ensures
            match self@.component_index(component_name@) {
                Some(i) => r is Some && r.unwrap()@ == (match self@.components[i].1.cells[at as int] {
                    Some(bytes) => bytes,
                    None => Seq::<u8>::empty(),
                }),
                None => r is None,
            },
    {
        match self.component_position(component_name) {
            Some(i) => {
                proof {
                    self@.lemma_component_index(component_name@, i as int);
                    assert(self@.components[i as int].1 == self.components@[i as int].1@);
                    assert(self@.components[i as int].1.cells[at as int] == cell_view(
                        self.components@[i as int].1.cells@[at as int],
                    ));
                }
                match &self.components[i].1.cells[at] {
                    Some(bytes) => Some(bytes.clone()),
                    None => Some(Vec::new()),
                }
            },
            None => {
                proof {
                    assert(!(exists|k: int|
                        0 <= k < self@.components.len() && self@.components[k].0
                            == component_name@));
                }
                None
            },
        }
    }
}

impl ChunkView {
    /// With unique keys, the timeline found by a key is the one at its position.
    pub proof fn lemma_timeline_index(self, key: (Seq<char>, TimeType), i: int)
        requires
            self.unique_keys(),
            0 <= i < self.timelines.len(),
            self.timelines[i].timeline == key,
        ensures
            self.timeline_index(key) == Some(i),
    {
        let j = choose|j: int| 0 <= j < self.timelines.len() && self.timelines[j].timeline == key;
        assert(j == i);
    }

    /// With unique keys, the component found by a name is the one at its position.
    pub proof fn lemma_component_index(self, name: Seq<char>, i: int)
        requires
            self.unique_keys(),
            0 <= i < self.components.len(),
            self.components[i].0 == name,
        ensures
            self.component_index(name) == Some(i),
    {
        let j = choose|j: int| 0 <= j < self.components.len() && self.components[j].0 == name;
        assert(j == i);
    }
}


impl Chunk {
    /// The rows `[index, index + len)` of this chunk; see [`ChunkView::slice`].
    pub fn sliced(&self, index: usize, len: usize) -> (r: Chunk)
        requires
            self@.wf(),
            index + len <= self@.row_ids.len(),
            len >= 1 || self@.timelines.len() == 0,
        ensures
            r@ == self@.slice(index as int, len as int),
            r@.wf(),
    {
        let ghost v = self@;
        let ghost sv = v.slice(index as int, len as int);
        let n = self.row_ids.len();
        let end = index + len;
        let mut rows: Vec<RowId> = Vec::new();
        let mut i: usize = index;
        while i < end
            invariant
                n == v.row_ids.len(),
                end == index + len,
                end <= n,
                index <= i <= end,
                v == self@,
                rows@ =~= v.row_ids.subrange(index as int, i as int),
            decreases end - i,
        {
            rows.push(self.row_ids[i]);
            i = i + 1;
        }
        let sorted = row_ids_are_sorted(rows.as_slice());
        let mut timelines: Vec<ChunkTimeline> = Vec::new();
        let nt = self.timelines.len();
        let mut t: usize = 0;
        while t < nt
            invariant
                nt == self.timelines@.len(),
                v == self@,
                sv == v.slice(index as int, len as int),
                v.wf(),
                index + len <= v.row_ids.len(),
                len >= 1 || nt == 0,
                t <= nt,
                timelines@.len() == t,
                forall|k: int|
                    0 <= k < t ==> (#[trigger] timelines@[k])@ == sv.timelines[k]
                        && timelines@[k]@.wf(),
            decreases nt - t,
        {
            proof {
                assert(v.timelines[t as int] == self.timelines@[t as int]@);
                assert(v.timelines[t as int].wf());
            }
            let s = self.timelines[t].sliced(index, len);
            timelines.push(s);
            t = t + 1;
        }
        let mut components: Vec<(ComponentName, ComponentColumn)> = Vec::new();
        let nc = self.components.len();
        let mut c: usize = 0;
        while c < nc
            invariant
                nc == self.components@.len(),
                v == self@,
                sv == v.slice(index as int, len as int),
                v.wf(),
                index + len <= v.row_ids.len(),
                c <= nc,
                components@.len() == c,
                forall|k: int|
                    0 <= k < c ==> ((#[trigger] components@[k]).0@, components@[k].1@)
                        == sv.components[k],
            decreases nc - c,
        {
            proof {
                assert(v.components[c as int] == (
                    self.components@[c as int].0@,
                    self.components@[c as int].1@,
                ));
            }
            let name = self.components[c].0.duplicate();
            let col = self.components[c].1.sliced(index, len);
            components.push((name, col));
            c = c + 1;
        }
        let r = Chunk {
            id: self.id,
            entity_path: self.entity_path.duplicate(),
            is_sorted: sorted,
            row_ids: rows,
            timelines,
            components,
        };
        proof {
            assert(r@.is_sorted == sv.is_sorted);
            assert(r@.timelines =~= sv.timelines);
            assert(r@.components =~= sv.components);
            assert(r@.row_ids =~= sv.row_ids);
            assert(r@ == sv);
            assert forall|k: int| 0 <= k < sv.timelines.len() implies (#[trigger] sv.timelines[k]).wf()
                && sv.timelines[k].times.len() == sv.row_ids.len() by {
                assert(r@.timelines[k] == timelines@[k]@);
            }
        }
        r
    }

    /// The largest time of each timeline, in increasing timeline order.
    pub fn timepoint_max(&self) -> (r: TimePoint)
        ensures
            is_timepoint_max(r@, self@),
    {
        let mut entries: Vec<(Timeline, TimeInt)> = Vec::new();
        let nt = self.timelines.len();
        let mut i: usize = 0;
        while i < nt
            invariant
                nt == self.timelines@.len(),
                i <= nt,
                timepoint_sorted(timepoint_entries(entries@)),
                forall|y: ((Seq<char>, TimeType), TimeInt)|
                    #[trigger] timepoint_entries(entries@).contains(y) ==> exists|k: int|
                        0 <= k < i && max_times(self@)[k] == y,
                self@.unique_keys() ==> forall|k: int|
                    0 <= k < i ==> timepoint_entries(entries@).contains(#[trigger] max_times(self@)[k]),
            decreases nt - i,
        {
            let tl = &self.timelines[i];
            proof {
                assert(self@.timelines[i as int] == tl@);
            }
            let x = (tl.timeline.duplicate(), tl.time_range.max);
            let ghost xv = (x.0@, x.1);
            let ghost before = timepoint_entries(entries@);
            proof {
                assert(xv == max_times(self@)[i as int]);
                if self@.unique_keys() {
                    assert forall|j: int| 0 <= j < entries@.len() implies entries@[j].0@ != x.0@ by {
                        assert(before[j] == (entries@[j].0@, entries@[j].1));
                        assert(before.contains(before[j]));
                        let k = choose|k: int| 0 <= k < i && max_times(self@)[k] == before[j];
                        assert(self@.timelines[k].timeline != self@.timelines[i as int].timeline);
                    }
                }
            }
            insert_entry_sorted(&mut entries, x);
            proof {
                let after = timepoint_entries(entries@);
                assert forall|y: ((Seq<char>, TimeType), TimeInt)| #[trigger] after.contains(y) implies exists|k: int|
                    0 <= k < i + 1 && max_times(self@)[k] == y by {
                    if before.contains(y) {
                        let k = choose|k: int| 0 <= k < i && max_times(self@)[k] == y;
                        assert(0 <= k < i + 1 && max_times(self@)[k] == y);
                    } else {
                        assert(0 <= i < i + 1 && max_times(self@)[i as int] == y);
                    }
                }
                if self@.unique_keys() {
                    assert forall|k: int| 0 <= k < i + 1 implies after.contains(#[trigger] max_times(self@)[k]) by {
                        if k < i {
                            assert(before.contains(max_times(self@)[k]));
                        }
                    }
                }
            }
            i = i + 1;
        }
        let r = TimePoint { entries };
        proof {
            assert(r@ =~= timepoint_entries(r.entries@));
            assert forall|y: ((Seq<char>, TimeType), TimeInt)| #[trigger] r@.contains(y) implies max_times(self@).contains(y) by {
                let k = choose|k: int| 0 <= k < nt && max_times(self@)[k] == y;
            }
            if self@.unique_keys() {
                assert forall|y: ((Seq<char>, TimeType), TimeInt)| #[trigger] max_times(self@).contains(y) implies r@.contains(y) by {
                    let k = choose|k: int| 0 <= k < max_times(self@).len() && max_times(self@)[k] == y;
                }
            }
        }
        r
    }

    /// One entry per row of `component_name`: the row id, the time on `timeline` (the static
    /// time when the chunk lacks that timeline) and the row's cell. Empty when the chunk
    /// lacks that component.
    pub fn iter(&self, timeline: &Timeline, component_name: &ComponentName) -> (r: Vec<
        (RowId, TimeInt, Option<Vec<u8>>),
    >)
        requires
            self@.wf(),
        ensures
            match self@.component_index(component_name@) {
                None => r@.len() == 0,
                Some(c) => {
                    &&& r@.len() == self@.row_ids.len()
                    &&& forall|i: int|
                        0 <= i < r@.len() ==> {
                            &&& (#[trigger] r@[i]).0 == self@.row_ids[i]
                            &&& r@[i].1 == (match self@.timeline_index(timeline@) {
                                Some(t) => TimeInt(temporal(self@.timelines[t].times[i])),
                                None => TimeInt(STATIC_TIME_I64),
                            })
                            &&& cell_view(r@[i].2) == self@.components[c].1.cells[i]
                        }
                },
            },
    {
        let mut out: Vec<(RowId, TimeInt, Option<Vec<u8>>)> = Vec::new();
        let c = match self.component_position(component_name) {
            Some(c) => c,
            None => {
                return out;
            },
        };
        let t = self.timeline_position(timeline);
        proof {
            self@.lemma_component_index(component_name@, c as int);
            match t {
                Some(t) => self@.lemma_timeline_index(timeline@, t as int),
                None => {},
            }
        }
        let n = self.row_ids.len();
        let mut i: usize = 0;
        while i < n
            invariant
                n == self@.row_ids.len(),
                self@.wf(),
                c < self@.components.len(),
                self@.component_index(component_name@) == Some(c as int),
                match t {
                    Some(t) => t < self@.timelines.len() && self@.timeline_index(timeline@)
                        == Some(t as int),
                    None => self@.timeline_index(timeline@) is None,
                },
                i <= n,
                out@.len() == i,
                forall|k: int|
                    0 <= k < i ==> {
                        &&& (#[trigger] out@[k]).0 == self@.row_ids[k]
                        &&& out@[k].1 == (match self@.timeline_index(timeline@) {
                            Some(t) => TimeInt(temporal(self@.timelines[t].times[k])),
                            None => TimeInt(STATIC_TIME_I64),
                        })
                        &&& cell_view(out@[k].2) == self@.components[c as int].1.cells[k]
                    },
            decreases n - i,
        {
            let time = match t {
                Some(t) => {
                    proof {
                        assert(self@.timelines[t as int] == self.timelines@[t as int]@);
                    }
                    TimeInt::new_temporal(self.timelines[t].times[i])
                },
                None => TimeInt(STATIC_TIME_I64),
            };
            proof {
                assert(self@.components[c as int].1 == self.components@[c as int].1@);
                assert(self@.components[c as int].1.cells[i as int] == cell_view(
                    self.components@[c as int].1.cells@[i as int],
                ));
            }
            let cell = match &self.components[c].1.cells[i] {
                Some(bytes) => Some(bytes.clone()),
                None => None,
            };
            proof {
                if cell is Some {
                    assert(cell.unwrap()@ =~= self.components@[c as int].1.cells@[i as int].unwrap()@);
                }
            }
            out.push((self.row_ids[i], time, cell));
            i = i + 1;
        }
        out
    }
}


// --- Sizes ---

/// The sum of a sequence of natural numbers.
pub open spec fn sum_nat(s: Seq<nat>) -> nat
    decreases s.len(),
{
    if s.len() == 0 {
        0
    } else {
        sum_nat(s.drop_last()) + s.last()
    }
}

/// The sum of a prefix grows by the next element.
pub proof fn lemma_sum_nat_prefix(s: Seq<nat>, i: int)
    requires
        0 <= i < s.len(),
    ensures
        sum_nat(s.take(i + 1)) == sum_nat(s.take(i)) + s[i],
{
    assert(s.take(i + 1).drop_last() =~= s.take(i));
}

/// The sum of a prefix is at most the sum of the whole.
pub proof fn lemma_sum_nat_mono(s: Seq<nat>, i: int)
    requires
        0 <= i <= s.len(),
    ensures
        sum_nat(s.take(i)) <= sum_nat(s),
    decreases s.len() - i,
{
    if i == s.len() {
        assert(s.take(i) =~= s);
    } else {
        lemma_sum_nat_prefix(s, i);
        lemma_sum_nat_mono(s, i + 1);
    }
}

/// The bytes of a cell: its length if it is valid, else none.
pub open spec fn cell_bytes(c: Option<Seq<u8>>) -> nat {
    match c {
        Some(b) => b.len(),
        None => 0,
    }
}

/// The bytes of the valid cells of a column.
pub open spec fn column_size(c: ColumnView) -> nat {
    sum_nat(c.cells.map_values(|x: Option<Seq<u8>>| cell_bytes(x)))
}

/// The bytes that a chunk's data takes: sixteen per row id, eight per time of each timeline,
/// and the bytes of every valid component cell.
pub open spec fn chunk_size_bytes(c: ChunkView) -> nat {
    16 * c.row_ids.len() + sum_nat(c.timelines.map_values(|t: TimeColumnView| 8 * t.times.len()))
        + sum_nat(c.components.map_values(|x: (Seq<char>, ColumnView)| column_size(x.1)))
}

impl ComponentColumn {
    /// The bytes of the valid cells of this column; `bound` is any number at least as large.
    fn size_bytes(&self, bound: u64) -> (r: u64)
        requires
            column_size(self@) <= bound,
        ensures
            r == column_size(self@),
    {
        let ghost s = self@.cells.map_values(|x: Option<Seq<u8>>| cell_bytes(x));
        let n = self.cells.len();
        let mut acc: u64 = 0;
        let mut i: usize = 0;
        while i < n
            invariant
                n == self.cells@.len(),
                s == self@.cells.map_values(|x: Option<Seq<u8>>| cell_bytes(x)),
                s.len() == n,
                i <= n,
                acc == sum_nat(s.take(i as int)),
                sum_nat(s) <= bound,
            decreases n - i,
        {
            proof {
                lemma_sum_nat_prefix(s, i as int);
                lemma_sum_nat_mono(s, i + 1);
                assert(s[i as int] == cell_bytes(cell_view(self.cells@[i as int])));
            }
            let b: u64 = match &self.cells[i] {
                Some(bytes) => bytes.len() as u64,
                None => 0,
            };
            acc = acc + b;
            i = i + 1;
        }
        proof {
            assert(s.take(n as int) =~= s);
        }
        acc
    }
}

impl ChunkTimeline {
    /// The bytes that this timeline's times take: eight per time.
    pub fn heap_size_bytes(&self) -> (r: u64)
        requires
            8 * self@.times.len() <= u64::MAX,
        ensures
            r == 8 * self@.times.len(),
    {
        8 * (self.times.len() as u64)
    }
}

impl Chunk {
    /// The bytes that this chunk's data takes (see [`chunk_size_bytes`]): the row ids, the
    /// times and the valid component cells. Allocator overhead and the size of the chunk's
    /// own fields are not counted.
    pub fn heap_size_bytes(&self) -> (r: u64)
        requires
            chunk_size_bytes(self@) <= u64::MAX,
        ensures
            r == chunk_size_bytes(self@),
    {
        let ghost ts = self@.timelines.map_values(|t: TimeColumnView| 8 * t.times.len());
        let ghost cs = self@.components.map_values(|x: (Seq<char>, ColumnView)| column_size(x.1));
        let ghost total = chunk_size_bytes(self@);
        let mut acc: u64 = 16 * (self.row_ids.len() as u64);
        let nt = self.timelines.len();
        let mut i: usize = 0;
        while i < nt
            invariant
                nt == self.timelines@.len(),
                ts == self@.timelines.map_values(|t: TimeColumnView| 8 * t.times.len()),
                ts.len() == nt,
                total == chunk_size_bytes(self@),
                total <= u64::MAX,
                i <= nt,
                acc == 16 * self@.row_ids.len() + sum_nat(ts.take(i as int)),
                total == 16 * self@.row_ids.len() + sum_nat(ts) + sum_nat(
                    self@.components.map_values(|x: (Seq<char>, ColumnView)| column_size(x.1)),
                ),
            decreases nt - i,
        {
            proof {
                lemma_sum_nat_prefix(ts, i as int);
                lemma_sum_nat_mono(ts, i + 1);
                assert(ts[i as int] == 8 * self.timelines@[i as int]@.times.len());
            }
            acc = acc + 8 * (self.timelines[i].times.len() as u64);
            i = i + 1;
        }
        proof {
            assert(ts.take(nt as int) =~= ts);
        }
        let nc = self.components.len();
        let mut j: usize = 0;
        while j < nc
            invariant
                nc == self.components@.len(),
                cs == self@.components.map_values(|x: (Seq<char>, ColumnView)| column_size(x.1)),
                cs.len() == nc,
                total <= u64::MAX,
                j <= nc,
                acc == 16 * self@.row_ids.len() + sum_nat(ts) + sum_nat(cs.take(j as int)),
                total == 16 * self@.row_ids.len() + sum_nat(ts) + sum_nat(cs),
            decreases nc - j,
        {
            proof {
                lemma_sum_nat_prefix(cs, j as int);
                lemma_sum_nat_mono(cs, j + 1);
                assert(cs[j as int] == column_size(self.components@[j as int].1@));
            }
            let b = self.components[j].1.size_bytes(u64::MAX);
            acc = acc + b;
            j = j + 1;
        }
        proof {
            assert(cs.take(nc as int) =~= cs);
        }
        acc
    }
}

// --- Copies ---

impl ChunkTimeline {
    /// A copy of this timeline.
    pub fn duplicate(&self) -> (r: ChunkTimeline)
        ensures
            r@ == self@,
    {
        let times = gather_all(self.times.as_slice());
        ChunkTimeline {
            timeline: self.timeline.duplicate(),
            times,
            is_sorted: self.is_sorted,
            time_range: self.time_range,
        }
    }
}

/// A copy of a slice.
fn gather_all<T: Copy>(s: &[T]) -> (r: Vec<T>)
    ensures
        r@ == s@,
{
    let n = s.len();
    let mut out: Vec<T> = Vec::new();
    let mut i: usize = 0;
    while i < n
        invariant
            n == s@.len(),
            i <= n,
            out@ == s@.subrange(0, i as int),
        decreases n - i,
    {
        out.push(s[i]);
        proof {
            assert(out@ =~= s@.subrange(0, i + 1));
        }
        i = i + 1;
    }
    proof {
        assert(s@.subrange(0, n as int) =~= s@);
    }
    out
}

impl ComponentColumn {
    /// A copy of this column.
    pub fn duplicate(&self) -> (r: ComponentColumn)
        ensures
            r@ == self@,
    {
        let n = self.cells.len();
        let r = self.sliced(0, n);
        proof {
            assert(self@.cells.subrange(0, n as int) =~= self@.cells);
        }
        r
    }
}

impl Chunk {
    /// A copy of this chunk.
    pub fn duplicate(&self) -> (r: Chunk)
        ensures
            r@ == self@,
    {
        let row_ids = gather_all(self.row_ids.as_slice());
        let nt = self.timelines.len();
        let mut timelines: Vec<ChunkTimeline> = Vec::new();
        let mut i: usize = 0;
        while i < nt
            invariant
                nt == self.timelines@.len(),
                i <= nt,
                timelines@.len() == i,
                forall|k: int| 0 <= k < i ==> (#[trigger] timelines@[k])@ == self.timelines@[k]@,
            decreases nt - i,
        {
            timelines.push(self.timelines[i].duplicate());
            i = i + 1;
        }
        let nc = self.components.len();
        let mut components: Vec<(ComponentName, ComponentColumn)> = Vec::new();
        let mut j: usize = 0;
        while j < nc
            invariant
                nc == self.components@.len(),
                j <= nc,
                components@.len() == j,
                forall|k: int|
                    0 <= k < j ==> (#[trigger] components@[k]).0@ == self.components@[k].0@
                        && components@[k].1@ == self.components@[k].1@,
            decreases nc - j,
        {
            let x = &self.components[j];
            components.push((x.0.duplicate(), x.1.duplicate()));
            j = j + 1;
        }
        let r = Chunk {
            id: self.id,
            entity_path: self.entity_path.duplicate(),
            is_sorted: self.is_sorted,
            row_ids,
            timelines,
            components,
        };
        proof {
            assert(r@.timelines =~= self@.timelines);
            assert(r@.components =~= self@.components);
        }
        r
    }
}

// --- Sorting rows ---

/// Row `i` comes before row `j` in sorted order: by row id, then by position.
pub open spec fn row_before(rows: Seq<RowId>, i: int, j: int) -> bool {
    rows[i].0 < rows[j].0 || (rows[i].0 == rows[j].0 && i < j)
}

/// `p` lists every index below `n` exactly once.
pub open spec fn is_permutation(p: Seq<int>, n: nat) -> bool {
    &&& p.len() == n
    &&& forall|i: int| 0 <= i < n ==> 0 <= #[trigger] p[i] < n
    &&& forall|i: int, j: int| 0 <= i < j < n ==> p[i] != p[j]
    &&& forall|k: int| 0 <= k < n ==> p.contains(k)
}

/// `p` is the order that sorts `rows` by row id, rows with equal row ids keeping their order.
pub open spec fn sorts_rows(p: Seq<int>, rows: Seq<RowId>) -> bool {
    &&& is_permutation(p, rows.len())
    &&& forall|a: int, b: int| 0 <= a < b < p.len() ==> row_before(rows, p[a], p[b])
}

/// The elements of `s` in the order `p`.
pub open spec fn permute<A>(s: Seq<A>, p: Seq<int>) -> Seq<A> {
    p.map_values(|i: int| s[i])
}

pub open spec fn as_ints(p: Seq<usize>) -> Seq<int> {
    p.map_values(|x: usize| x as int)
}

/// The chunk `c` with its rows in the order `p`: marked sorted, each timeline marked sorted
/// if its reordered times are, with its range unchanged.
pub open spec fn reordered(c: ChunkView, p: Seq<int>) -> ChunkView {
    ChunkView {
        id: c.id,
        entity_path: c.entity_path,
        is_sorted: true,
        row_ids: permute(c.row_ids, p),
        timelines: c.timelines.map_values(
            |t: TimeColumnView|
                TimeColumnView {
                    timeline: t.timeline,
                    times: permute(t.times, p),
                    is_sorted: times_sorted(permute(t.times, p)),
                    time_range: t.time_range,
                },
        ),
        components: c.components.map_values(
            |x: (Seq<char>, ColumnView)|
                (x.0, ColumnView { datatype: x.1.datatype, cells: permute(x.1.cells, p) }),
        ),
    }
}

/// The order that sorts `rows` by row id, keeping rows with equal row ids in their order.
fn sorting_order(rows: &[RowId]) -> (r: Vec<usize>)
    ensures
        sorts_rows(as_ints(r@), rows@),
{
    let n = rows.len();
    let mut out: Vec<usize> = Vec::new();
    let mut k: usize = 0;
    proof {
        assert(as_ints(out@) =~= Seq::<int>::empty());
    }
    while k < n
        invariant
            n == rows@.len(),
            k <= n,
            out@.len() == k,
            forall|i: int| 0 <= i < k ==> #[trigger] out@[i] < k,
            forall|i: int, j: int| 0 <= i < j < k ==> out@[i] != out@[j],
            forall|x: int| 0 <= x < k ==> #[trigger] as_ints(out@).contains(x),
            forall|a: int, b: int|
                0 <= a < b < k ==> row_before(rows@, out@[a] as int, out@[b] as int),
        decreases n - k,
    {
        let ghost o = out@;
        let m = out.len();
        let mut q: usize = 0;
        while q < m
            invariant
                m == out@.len(),
                o == out@,
                m == k,
                k < n,
                n == rows@.len(),
                forall|i: int| 0 <= i < k ==> #[trigger] out@[i] < k,
                q <= m,
                forall|i: int| 0 <= i < q ==> rows@[#[trigger] o[i] as int].0 <= rows@[k as int].0,
            ensures
                q <= m,
                forall|i: int| 0 <= i < q ==> rows@[#[trigger] o[i] as int].0 <= rows@[k as int].0,
                q < m ==> rows@[k as int].0 < rows@[o[q as int] as int].0,
            decreases m - q,
        {
            if rows[k].0 < rows[out[q]].0 {
                break;
            }
            q = q + 1;
        }
        out.insert(q, k);
        proof {
            let s = out@;
            assert(s =~= o.insert(q as int, k));
            o.insert_ensures(q as int, k);
            assert forall|i: int| 0 <= i < k + 1 implies #[trigger] s[i] < k + 1 by {
                if i < q {
                    assert(s[i] == o[i]);
                } else if i > q {
                    assert(s[i] == o[i - 1]);
                }
            }
            assert forall|i: int, j: int| 0 <= i < j < k + 1 implies s[i] != s[j] by {
                if j < q {
                    assert(s[i] == o[i] && s[j] == o[j]);
                } else if j == q {
                    assert(s[i] == o[i]);
                } else if i < q {
                    assert(s[i] == o[i] && s[j] == o[j - 1]);
                } else if i == q {
                    assert(s[j] == o[j - 1]);
                } else {
                    assert(s[i] == o[i - 1] && s[j] == o[j - 1]);
                }
            }
            assert forall|x: int| 0 <= x < k + 1 implies #[trigger] as_ints(s).contains(x) by {
                if x == k {
                    assert(as_ints(s)[q as int] == x);
                } else {
                    assert(as_ints(o).contains(x));
                    let i = choose|i: int| 0 <= i < as_ints(o).len() && as_ints(o)[i] == x;
                    if i < q {
                        assert(as_ints(s)[i] == x);
                    } else {
                        assert(as_ints(s)[i + 1] == x);
                    }
                }
            }
            assert forall|i: int| q <= i < k implies rows@[k as int].0 < rows@[#[trigger] o[i] as int].0 by {
                if i > q {
                    assert(row_before(rows@, o[q as int] as int, o[i] as int));
                }
            }
            assert forall|a: int, b: int| 0 <= a < b < k + 1 implies row_before(
                rows@,
                s[a] as int,
                s[b] as int,
            ) by {
                if b < q {
                    assert(s[a] == o[a] && s[b] == o[b]);
                } else if b == q {
                    assert(s[a] == o[a]);
                    assert(o[a] < k);
                } else if a < q {
                    assert(s[a] == o[a] && s[b] == o[b - 1]);
                    assert(rows@[k as int].0 < rows@[o[b - 1] as int].0);
                } else if a == q {
                    assert(s[b] == o[b - 1]);
                } else {
                    assert(s[a] == o[a - 1] && s[b] == o[b - 1]);
                }
            }
        }
        k = k + 1;
    }
    proof {
        let p = as_ints(out@);
        assert forall|i: int| 0 <= i < n implies 0 <= #[trigger] p[i] < n by {
            assert(out@[i] < n);
        }
        assert forall|i: int, j: int| 0 <= i < j < n implies p[i] != p[j] by {
            assert(out@[i] != out@[j]);
        }
        assert forall|a: int, b: int| 0 <= a < b < p.len() implies row_before(rows@, p[a], p[b]) by {
            assert(row_before(rows@, out@[a] as int, out@[b] as int));
        }
    }
    out
}

/// The elements of `s` in the order `p`.
fn gather<T: Copy>(s: &[T], p: &[usize]) -> (r: Vec<T>)
    requires
        forall|i: int| 0 <= i < p@.len() ==> #[trigger] p@[i] < s@.len(),
    ensures
        r@ == permute(s@, as_ints(p@)),
{
    let n = p.len();
    let mut out: Vec<T> = Vec::new();
    let mut i: usize = 0;
    while i < n
        invariant
            n == p@.len(),
            forall|j: int| 0 <= j < p@.len() ==> #[trigger] p@[j] < s@.len(),
            i <= n,
            out@.len() == i,
            forall|j: int| 0 <= j < i ==> out@[j] == s@[#[trigger] p@[j] as int],
        decreases n - i,
    {
        out.push(s[p[i]]);
        i = i + 1;
    }
    proof {
        assert(out@ =~= permute(s@, as_ints(p@)));
    }
    out
}

/// The cells of `s` in the order `p`.
fn gather_cells(s: &Vec<Option<Vec<u8>>>, p: &[usize]) -> (r: Vec<Option<Vec<u8>>>)
    requires
        forall|i: int| 0 <= i < p@.len() ==> #[trigger] p@[i] < s@.len(),
    ensures
        cells_view(r@) == permute(cells_view(s@), as_ints(p@)),
{
    let n = p.len();
    let mut out: Vec<Option<Vec<u8>>> = Vec::new();
    let mut i: usize = 0;
    while i < n
        invariant
            n == p@.len(),
            forall|j: int| 0 <= j < p@.len() ==> #[trigger] p@[j] < s@.len(),
            i <= n,
            out@.len() == i,
            forall|j: int| 0 <= j < i ==> cell_view(#[trigger] out@[j]) == cell_view(s@[p@[j] as int]),
        decreases n - i,
    {
        let cell = match &s[p[i]] {
            Some(bytes) => Some(bytes.clone()),
            None => None,
        };
        proof {
            if cell is Some {
                assert(cell.unwrap()@ =~= s@[p@[i as int] as int].unwrap()@);
            }
        }
        out.push(cell);
        i = i + 1;
    }
    proof {
        assert(cells_view(out@) =~= permute(cells_view(s@), as_ints(p@)));
    }
    out
}

/// Reordering a well-formed chunk's rows by a sorting order keeps it well formed and sorts
/// its rows.
proof fn lemma_reordered_wf(c: ChunkView, p: Seq<int>)
    requires
        c.wf(),
        sorts_rows(p, c.row_ids),
    ensures
        reordered(c, p).wf(),
        row_ids_sorted(reordered(c, p).row_ids),
{
    let r = reordered(c, p);
    let n = c.row_ids.len();
    assert forall|a: int, b: int| 0 <= a < b < r.row_ids.len() implies r.row_ids[a].0
        <= r.row_ids[b].0 by {
        assert(row_before(c.row_ids, p[a], p[b]));
    }
    assert forall|i: int| 0 <= i < r.timelines.len() implies (#[trigger] r.timelines[i]).wf()
        && r.timelines[i].times.len() == r.row_ids.len() by {
        let t = c.timelines[i];
        let u = r.timelines[i];
        assert(t.wf() && t.times.len() == n);
        assert(u.times == permute(t.times, p));
        assert forall|k: int| 0 <= k < u.times.len() implies u.time_range.min.0 <= #[trigger] u.times[k]
            <= u.time_range.max.0 && u.times[k] != STATIC_TIME_I64 by {
            assert(u.times[k] == t.times[p[k]]);
            assert(0 <= p[k] < n);
        }
        let j1 = choose|j: int| 0 <= j < t.times.len() && t.times[j] == t.time_range.min.0;
        let j2 = choose|j: int| 0 <= j < t.times.len() && t.times[j] == t.time_range.max.0;
        assert(p.contains(j1));
        assert(p.contains(j2));
        let i1 = choose|i: int| 0 <= i < p.len() && p[i] == j1;
        let i2 = choose|i: int| 0 <= i < p.len() && p[i] == j2;
        assert(u.times[i1] == t.time_range.min.0);
        assert(u.times[i2] == t.time_range.max.0);
    }
    assert forall|i: int| 0 <= i < r.components.len() implies (#[trigger] r.components[i]).1.cells.len()
        == r.row_ids.len() by {
        assert(c.components[i].1.cells.len() == n);
    }
    assert forall|i: int, j: int| 0 <= i < j < r.timelines.len() implies r.timelines[i].timeline
        != r.timelines[j].timeline by {
        assert(c.timelines[i].timeline != c.timelines[j].timeline);
    }
    assert forall|i: int, j: int| 0 <= i < j < r.components.len() implies r.components[i].0
        != r.components[j].0 by {
        assert(c.components[i].0 != c.components[j].0);
    }
}

impl Chunk {
    /// Sorts the rows by row id, unless the chunk is already marked sorted. Rows with equal
    /// row ids keep their order; every timeline and component column is reordered alike, and
    /// each timeline is marked sorted if its reordered times are.
    pub fn sort_if_unsorted(&mut self)
        requires
            old(self)@.wf(),
        ensures
            final(self)@.wf(),
            final(self)@.is_sorted,
            row_ids_sorted(final(self)@.row_ids),
            old(self)@.is_sorted ==> final(self)@ == old(self)@,
            !old(self)@.is_sorted ==> exists|p: Seq<int>|
                sorts_rows(p, old(self)@.row_ids) && final(self)@ == reordered(old(self)@, p),
    {
        if self.is_sorted {
            return;
        }
        let ghost c = self@;
        let order = sorting_order(self.row_ids.as_slice());
        let ghost p = as_ints(order@);
        proof {
            assert forall|i: int| 0 <= i < order@.len() implies #[trigger] order@[i] < self.row_ids@.len() by {
                assert(0 <= p[i] < c.row_ids.len());
            }
        }
        let row_ids = gather(self.row_ids.as_slice(), order.as_slice());
        let nt = self.timelines.len();
        let mut timelines: Vec<ChunkTimeline> = Vec::new();
        let mut i: usize = 0;
        while i < nt
            invariant
                c == self@,
                c.wf(),
                sorts_rows(p, c.row_ids),
                p == as_ints(order@),
                forall|j: int| 0 <= j < order@.len() ==> #[trigger] order@[j] < c.row_ids.len(),
                nt == c.timelines.len(),
                i <= nt,
                timelines@.len() == i,
                forall|j: int| 0 <= j < i ==> (#[trigger] timelines@[j])@ == reordered(c, p).timelines[j],
            decreases nt - i,
        {
            let t = &self.timelines[i];
            proof {
                assert(t@ == c.timelines[i as int]);
                assert(t.times@.len() == c.row_ids.len());
            }
            let times = gather(t.times.as_slice(), order.as_slice());
            let sorted = is_sorted_i64(times.as_slice());
            let u = ChunkTimeline {
                timeline: t.timeline.duplicate(),
                times,
                is_sorted: sorted,
                time_range: t.time_range,
            };
            timelines.push(u);
            i = i + 1;
        }
        let nc = self.components.len();
        let mut components: Vec<(ComponentName, ComponentColumn)> = Vec::new();
        let mut j: usize = 0;
        while j < nc
            invariant
                c == self@,
                c.wf(),
                p == as_ints(order@),
                forall|k: int| 0 <= k < order@.len() ==> #[trigger] order@[k] < c.row_ids.len(),
                nc == c.components.len(),
                j <= nc,
                components@.len() == j,
                forall|k: int|
                    0 <= k < j ==> (#[trigger] components@[k]).0@ == reordered(c, p).components[k].0
                        && components@[k].1@ == reordered(c, p).components[k].1,
            decreases nc - j,
        {
            let x = &self.components[j];
            proof {
                assert((x.0@, x.1@) == c.components[j as int]);
                assert(x.1.cells@.len() == c.row_ids.len());
            }
            let cells = gather_cells(&x.1.cells, order.as_slice());
            let col = ComponentColumn { datatype: x.1.datatype, cells };
            components.push((x.0.duplicate(), col));
            j = j + 1;
        }
        self.row_ids = row_ids;
        self.timelines = timelines;
        self.components = components;
        self.is_sorted = true;
        proof {
            let r = reordered(c, p);
            assert(self@.row_ids == r.row_ids);
            assert(self@.timelines =~= r.timelines);
            assert(self@.components =~= r.components);
            assert(self@ == r);
            lemma_reordered_wf(c, p);
        }
    }
}

// --- Laws ---

/// A timeline created without a sorted flag, from times free of the static time, is well
/// formed and passes its sanity check.
pub proof fn law_new_timeline_is_sane(timeline: (Seq<char>, TimeType), times: Seq<i64>)
    requires
        times.len() > 0,
        forall|k: int| 0 <= k < times.len() ==> #[trigger] times[k] != STATIC_TIME_I64,
    ensures
        ({
            let t = TimeColumnView {
                timeline,
                times,
                is_sorted: times_sorted(times),
                time_range: computed_range(times_sorted(times), times),
            };
            t.wf() && timeline_problem(t) is None
        }),
{
    let flag = times_sorted(times);
    let t = TimeColumnView { timeline, times, is_sorted: flag, time_range: computed_range(flag, times) };
    lemma_computed_range_wf(timeline, times, flag);
    lemma_first_bad_time_none(times, t.time_range);
}

/// The row-id range of a sorted, non-empty chunk is its first and last row id.
pub proof fn law_sorted_row_id_range(row_ids: Seq<RowId>)
    requires
        row_ids.len() > 0,
        row_ids_sorted(row_ids),
    ensures
        row_id_min(row_ids) == row_ids[0].0,
        row_id_max(row_ids) == row_ids.last().0,
{
    lemma_sorted_row_id_bounds(row_ids);
}

/// Slicing a sorted chunk keeps it sorted, and a slice keeps the keys of its chunk.
pub proof fn law_slice_keeps_order(c: ChunkView, index: int, len: int)
    requires
        c.wf(),
        c.is_sorted,
        0 <= index,
        0 <= len,
        index + len <= c.row_ids.len(),
    ensures
        c.slice(index, len).is_sorted,
        row_ids_sorted(c.slice(index, len).row_ids),
        c.slice(index, len).timelines.len() == c.timelines.len(),
        c.slice(index, len).components.len() == c.components.len(),
        c.slice(index, len).row_ids.len() == len,
{
    let sv = c.slice(index, len);
    assert forall|a: int, b: int| 0 <= a < b < sv.row_ids.len() implies sv.row_ids[a].0
        <= sv.row_ids[b].0 by {
        assert(sv.row_ids[a] == c.row_ids[index + a]);
        assert(sv.row_ids[b] == c.row_ids[index + b]);
    }
}

/// A slice holds the sliced rows, each with its own id, times and cells: row `j` of
/// `slice(index, len)` is row `index + j` of the chunk, in every timeline and component;
/// the id, entity and keys of the columns stay.
pub proof fn law_slice_keeps_rows(c: ChunkView, index: int, len: int)
    requires
        c.wf(),
        0 <= index,
        0 <= len,
        index + len <= c.row_ids.len(),
    ensures
        c.slice(index, len).id == c.id,
        c.slice(index, len).entity_path == c.entity_path,
        c.slice(index, len).row_ids.len() == len,
        c.slice(index, len).timelines.len() == c.timelines.len(),
        c.slice(index, len).components.len() == c.components.len(),
        forall|j: int| 0 <= j < len ==> #[trigger] c.slice(index, len).row_ids[j] == c.row_ids[index + j],
        forall|t: int, j: int|
            0 <= t < c.timelines.len() && 0 <= j < len ==> c.slice(index, len).timelines[t].timeline
                == c.timelines[t].timeline && c.slice(index, len).timelines[t].times.len() == len
                && #[trigger] c.slice(index, len).timelines[t].times[j] == c.timelines[t].times[index + j],
        forall|k: int, j: int|
            0 <= k < c.components.len() && 0 <= j < len ==> c.slice(index, len).components[k].0
                == c.components[k].0 && c.slice(index, len).components[k].1.datatype
                == c.components[k].1.datatype && c.slice(index, len).components[k].1.cells.len() == len
                && #[trigger] c.slice(index, len).components[k].1.cells[j] == c.components[k].1.cells[index + j],
{
    let sv = c.slice(index, len);
    assert forall|t: int, j: int| 0 <= t < c.timelines.len() && 0 <= j < len implies sv.timelines[t].timeline
        == c.timelines[t].timeline && sv.timelines[t].times.len() == len && #[trigger] sv.timelines[t].times[j]
        == c.timelines[t].times[index + j] by {
        assert(c.timelines[t].times.len() == c.row_ids.len());
    }
    assert forall|k: int, j: int| 0 <= k < c.components.len() && 0 <= j < len implies sv.components[k].0
        == c.components[k].0 && sv.components[k].1.datatype == c.components[k].1.datatype
        && sv.components[k].1.cells.len() == len && #[trigger] sv.components[k].1.cells[j]
        == c.components[k].1.cells[index + j] by {
        assert(c.components[k].1.cells.len() == c.row_ids.len());
    }
}

// --- Largest times ---

/// The largest time of each timeline of `c`, in column order.
pub open spec fn max_times(c: ChunkView) -> Seq<((Seq<char>, TimeType), TimeInt)> {
    c.timelines.map_values(|t: TimeColumnView| (t.timeline, t.time_range.max))
}

/// `tp` holds the largest time of each timeline of `c` (of one of them, for a timeline that
/// `c` holds twice), in increasing timeline order.
pub open spec fn is_timepoint_max(tp: Seq<((Seq<char>, TimeType), TimeInt)>, c: ChunkView) -> bool {
    &&& timepoint_sorted(tp)
    &&& forall|y: ((Seq<char>, TimeType), TimeInt)| #[trigger] tp.contains(y) ==> max_times(c).contains(y)
    &&& c.unique_keys() ==> forall|y: ((Seq<char>, TimeType), TimeInt)|
        #[trigger] max_times(c).contains(y) ==> tp.contains(y)
}

// --- Chunks of one data row ---

/// The one-row time column that a data row's time `e.1` on timeline `e.0` becomes.
pub open spec fn row_time_column(e: ((Seq<char>, TimeType), TimeInt)) -> TimeColumnView {
    TimeColumnView {
        timeline: e.0,
        times: seq![e.1.0],
        is_sorted: true,
        time_range: ResolvedTimeRange { min: e.1, max: e.1 },
    }
}

/// The one-entry component column that a data row's cell becomes.
pub open spec fn row_cell_column(c: (ComponentName, ColumnDatatype, Vec<u8>)) -> (Seq<char>, ColumnView) {
    (c.0@, ColumnView { datatype: c.1, cells: seq![Some(c.2@)] })
}

impl Chunk {
    /// The chunk of a single data row: the row id is also the chunk id; each timeline of
    /// the time point holds the row's time on it; each cell becomes a column holding it.
    pub fn from_data_row(
        row_id: RowId,
        timepoint: &TimePoint,
        entity_path: EntityPath,
        cells: &[(ComponentName, ColumnDatatype, Vec<u8>)],
    ) -> (r: Chunk)
        ensures
            r@ == (ChunkView {
                id: ChunkId(row_id.0),
                entity_path: entity_path@,
                is_sorted: true,
                row_ids: seq![row_id],
                timelines: timepoint@.map_values(
                    |e: ((Seq<char>, TimeType), TimeInt)| row_time_column(e),
                ),
                components: cells@.map_values(
                    |c: (ComponentName, ColumnDatatype, Vec<u8>)| row_cell_column(c),
                ),
            }),
    {
        let nt = timepoint.entries.len();
        let mut timelines: Vec<ChunkTimeline> = Vec::new();
        let mut i: usize = 0;
        while i < nt
            invariant
                nt == timepoint.entries@.len(),
                i <= nt,
                timelines@.len() == i,
                forall|k: int| 0 <= k < i ==> (#[trigger] timelines@[k])@ == row_time_column(timepoint@[k]),
            decreases nt - i,
        {
            let e = &timepoint.entries[i];
            let time = e.1;
            let column = ChunkTimeline {
                timeline: e.0.duplicate(),
                times: vec![time.0],
                is_sorted: true,
                time_range: ResolvedTimeRange::new(time, time),
            };
            proof {
                assert(timepoint@[i as int] == (e.0@, e.1));
                assert(column@.times =~= seq![time.0]);
            }
            timelines.push(column);
            i = i + 1;
        }
        let nc = cells.len();
        let mut components: Vec<(ComponentName, ComponentColumn)> = Vec::new();
        let mut j: usize = 0;
        while j < nc
            invariant
                nc == cells@.len(),
                j <= nc,
                components@.len() == j,
                forall|k: int|
                    0 <= k < j ==> ((#[trigger] components@[k]).0@, components@[k].1@) == row_cell_column(cells@[k]),
            decreases nc - j,
        {
            let c = &cells[j];
            let bytes = c.2.clone();
            proof {
                assert(bytes@ =~= c.2@);
            }
            let column = ComponentColumn::new(c.1, vec![Some(bytes)]);
            proof {
                assert(column@.cells =~= seq![Some(c.2@)]);
            }
            components.push((c.0.duplicate(), column));
            j = j + 1;
        }
        let mut row_ids: Vec<RowId> = Vec::new();
        row_ids.push(row_id);
        let chunk = Chunk {
            id: ChunkId(row_id.0),
            entity_path,
            is_sorted: true,
            row_ids,
            timelines,
            components,
        };
        proof {
            assert(chunk@.row_ids =~= seq![row_id]);
            assert(chunk@.timelines =~= timepoint@.map_values(
                |e: ((Seq<char>, TimeType), TimeInt)| row_time_column(e),
            ));
            assert(chunk@.components =~= cells@.map_values(
                |c: (ComponentName, ColumnDatatype, Vec<u8>)| row_cell_column(c),
            ));
        }
        chunk
    }
}

// --- Chunks of some rows of a chunk ---

/// The positions `rows` as integers.
pub open spec fn rows_view(rows: Seq<usize>) -> Seq<int> {
    rows.map_values(|k: usize| k as int)
}

/// The row ids of `c` at the positions `rows`, in that order.
pub open spec fn pick_row_ids(s: Seq<RowId>, rows: Seq<int>) -> Seq<RowId> {
    rows.map_values(|k: int| s[k])
}

/// The times of `s` at the positions `rows`, in that order.
pub open spec fn pick_times(s: Seq<i64>, rows: Seq<int>) -> Seq<i64> {
    rows.map_values(|k: int| s[k])
}

/// The cells of `s` at the positions `rows`, in that order.
pub open spec fn pick_cells(s: Seq<Option<Seq<u8>>>, rows: Seq<int>) -> Seq<Option<Seq<u8>>> {
    rows.map_values(|k: int| s[k])
}

/// The time column of the rows `rows` of `t`, its sorted flag and range recomputed.
pub open spec fn pick_time_column(t: TimeColumnView, rows: Seq<int>) -> TimeColumnView {
    let times = pick_times(t.times, rows);
    TimeColumnView {
        timeline: t.timeline,
        times,
        is_sorted: times_sorted(times),
        time_range: computed_range(times_sorted(times), times),
    }
}

/// The component column of the rows `rows` of `x`.
pub open spec fn pick_component_column(x: (Seq<char>, ColumnView), rows: Seq<int>) -> (Seq<char>, ColumnView) {
    (x.0, ColumnView { datatype: x.1.datatype, cells: pick_cells(x.1.cells, rows) })
}

/// The chunk of the rows `rows` of `c`, in that order: the same id and entity, every column
/// cut to those rows, the sorted flags and time ranges recomputed.
pub open spec fn pick_rows(c: ChunkView, rows: Seq<int>) -> ChunkView {
    ChunkView {
        id: c.id,
        entity_path: c.entity_path,
        is_sorted: row_ids_sorted(pick_row_ids(c.row_ids, rows)),
        row_ids: pick_row_ids(c.row_ids, rows),
        timelines: c.timelines.map_values(|t: TimeColumnView| pick_time_column(t, rows)),
        components: c.components.map_values(
            |x: (Seq<char>, ColumnView)| pick_component_column(x, rows),
        ),
    }
}

impl Chunk {
    /// The chunk of the rows at the positions `rows`, in that order (see [`pick_rows`]).
    pub fn picked_rows(&self, rows: &[usize]) -> (r: Chunk)
        requires
            self@.wf(),
            rows@.len() > 0,
            forall|j: int| 0 <= j < rows@.len() ==> rows@[j] < self@.row_ids.len(),
        ensures
            r@ == pick_rows(self@, rows_view(rows@)),
    {
        let ghost rv = rows_view(rows@);
        let nr = rows.len();
        let mut row_ids: Vec<RowId> = Vec::new();
        let mut j: usize = 0;
        while j < nr
            invariant
                nr == rows@.len(),
                rv == rows_view(rows@),
                forall|a: int| 0 <= a < rows@.len() ==> rows@[a] < self@.row_ids.len(),
                j <= nr,
                row_ids@ =~= pick_row_ids(self@.row_ids, rv.take(j as int)),
            decreases nr - j,
        {
            row_ids.push(self.row_ids[rows[j]]);
            proof {
                assert(rv.take(j + 1) =~= rv.take(j as int).push(rows@[j as int] as int));
            }
            j = j + 1;
        }
        proof {
            assert(rv.take(nr as int) =~= rv);
        }
        let nt = self.timelines.len();
        let mut timelines: Vec<ChunkTimeline> = Vec::new();
        let mut ti: usize = 0;
        while ti < nt
            invariant
                nt == self@.timelines.len(),
                nr == rows@.len(),
                nr > 0,
                rv == rows_view(rows@),
                self@.wf(),
                forall|a: int| 0 <= a < rows@.len() ==> rows@[a] < self@.row_ids.len(),
                ti <= nt,
                timelines@.len() == ti,
                forall|k: int|
                    0 <= k < ti ==> (#[trigger] timelines@[k])@ == pick_time_column(self@.timelines[k], rv),
            decreases nt - ti,
        {
            let col = &self.timelines[ti];
            proof {
                assert(self@.timelines[ti as int] == col@);
                assert(col@.times.len() == self@.row_ids.len());
            }
            let mut times: Vec<i64> = Vec::new();
            let mut a: usize = 0;
            while a < nr
                invariant
                    nr == rows@.len(),
                    rv == rows_view(rows@),
                    forall|b: int| 0 <= b < rows@.len() ==> rows@[b] < col@.times.len(),
                    a <= nr,
                    times@ =~= pick_times(col@.times, rv.take(a as int)),
                decreases nr - a,
            {
                times.push(col.times[rows[a]]);
                proof {
                    assert(rv.take(a + 1) =~= rv.take(a as int).push(rows@[a as int] as int));
                }
                a = a + 1;
            }
            proof {
                assert(rv.take(nr as int) =~= rv);
            }
            let column = ChunkTimeline::new(None, col.timeline.duplicate(), times).unwrap();
            timelines.push(column);
            ti = ti + 1;
        }
        let nc = self.components.len();
        let mut components: Vec<(ComponentName, ComponentColumn)> = Vec::new();
        let mut ci: usize = 0;
        while ci < nc
            invariant
                nc == self@.components.len(),
                nr == rows@.len(),
                rv == rows_view(rows@),
                self@.wf(),
                forall|a: int| 0 <= a < rows@.len() ==> rows@[a] < self@.row_ids.len(),
                ci <= nc,
                components@.len() == ci,
                forall|k: int|
                    0 <= k < ci ==> ((#[trigger] components@[k]).0@, components@[k].1@) == pick_component_column(
                        self@.components[k],
                        rv,
                    ),
            decreases nc - ci,
        {
            let col = &self.components[ci].1;
            proof {
                assert(self@.components[ci as int].1 == col@);
                assert(col@.cells.len() == self@.row_ids.len());
            }
            let mut cells: Vec<Option<Vec<u8>>> = Vec::new();
            let mut a: usize = 0;
            while a < nr
                invariant
                    nr == rows@.len(),
                    rv == rows_view(rows@),
                    forall|b: int| 0 <= b < rows@.len() ==> rows@[b] < col@.cells.len(),
                    a <= nr,
                    cells_view(cells@) =~= pick_cells(col@.cells, rv.take(a as int)),
                decreases nr - a,
            {
                let k = rows[a];
                let cell = match &col.cells[k] {
                    Some(bytes) => Some(bytes.clone()),
                    None => None,
                };
                proof {
                    if cell is Some {
                        assert(cell.unwrap()@ =~= col.cells@[k as int].unwrap()@);
                    }
                    assert(cell_view(cell) == col@.cells[k as int]);
                    assert(rv.take(a + 1) =~= rv.take(a as int).push(k as int));
                }
                let ghost before = cells@;
                cells.push(cell);
                proof {
                    assert(cells@ == before.push(cell));
                    assert(cells_view(cells@) =~= cells_view(before).push(cell_view(cell)));
                }
                a = a + 1;
            }
            proof {
                assert(rv.take(nr as int) =~= rv);
            }
            let column = ComponentColumn::new(col.datatype, cells);
            components.push((self.components[ci].0.duplicate(), column));
            proof {
                assert(self@.components[ci as int].0 == self.components@[ci as int].0@);
            }
            ci = ci + 1;
        }
        let is_sorted = row_ids_are_sorted(row_ids.as_slice());
        let chunk = Chunk {
            id: self.id,
            entity_path: self.entity_path.duplicate(),
            is_sorted,
            row_ids,
            timelines,
            components,
        };
        proof {
            assert(chunk@.timelines =~= self@.timelines.map_values(
                |t: TimeColumnView| pick_time_column(t, rv),
            ));
            assert(chunk@.components =~= self@.components.map_values(
                |x: (Seq<char>, ColumnView)| pick_component_column(x, rv),
            ));
        }
        chunk
    }
}

} // verus!
