//! Identifiers, times, timelines and names shared by chunks and the store.
use vstd::prelude::*;

use crate::names::{chars_lt, lemma_chars_lt_irreflexive, lemma_chars_lt_total, lemma_chars_lt_transitive, str_less, ComponentName};

verus! {

/// Unique identifier of a row of data: 64 bits of nanoseconds since the epoch in the
/// high half, a per-process increment in the low half. Ordered as a `u128`.
#[derive(Debug, Clone, Copy, PartialEq, Eq, Structural, Hash)]
pub struct RowId(pub u128);

/// Unique identifier of a chunk, with the same layout as a [`RowId`].
#[derive(Debug, Clone, Copy, PartialEq, Eq, Structural, Hash)]
pub struct ChunkId(pub u128);

impl RowId {
    /// The smallest possible row id.
    pub fn zero() -> (r: RowId)
        ensures
            r.0 == 0,
    {
        RowId(0)
    }

    pub fn from_u128(v: u128) -> (r: RowId)
        ensures
            r.0 == v,
    {
        RowId(v)
    }

    pub fn as_u128(&self) -> (r: u128)
        ensures
            r == self.0,
    {
        self.0
    }

    /// The wall-clock part of the id.
    pub fn nanoseconds_since_epoch(&self) -> (r: u64)
        ensures
            r == self.0 / 0x1_0000_0000_0000_0000u128,
    {
        (self.0 / 0x1_0000_0000_0000_0000u128) as u64
    }
}

impl ChunkId {
    pub fn from_u128(v: u128) -> (r: ChunkId)
        ensures
            r.0 == v,
    {
        ChunkId(v)
    }

    pub fn as_u128(&self) -> (r: u128)
        ensures
            r == self.0,
    {
        self.0
    }
}

/// A point in time on some timeline, or the special static time.
///
/// The static time is `i64::MIN` and orders before every temporal value;
/// temporal values range over `[i64::MIN + 1, i64::MAX]`.
#[derive(Debug, Clone, Copy, PartialEq, Eq, Structural, Hash)]
pub struct TimeInt(pub i64);

/// The `i64` that stands for the static time.
pub const STATIC_TIME_I64: i64 = -9223372036854775808i64;

/// The smallest temporal `i64`.
pub const MIN_TIME_I64: i64 = -9223372036854775807i64;

/// The largest temporal `i64`.
pub const MAX_TIME_I64: i64 = 9223372036854775807i64;

/// What `TimeInt::new_temporal` makes of a raw value.
pub open spec fn temporal(t: i64) -> i64 {
    if t == STATIC_TIME_I64 {
        MIN_TIME_I64
    } else {
        t
    }
}

impl TimeInt {
    /// The static time, which orders before every temporal time.
    pub fn static_time() -> (r: TimeInt)
        ensures
            r.0 == STATIC_TIME_I64,
    {
        TimeInt(STATIC_TIME_I64)
    }

    /// The smallest temporal time.
    pub fn min_time() -> (r: TimeInt)
        ensures
            r.0 == MIN_TIME_I64,
    {
        TimeInt(MIN_TIME_I64)
    }

    /// The largest temporal time.
    pub fn max_time() -> (r: TimeInt)
        ensures
            r.0 == MAX_TIME_I64,
    {
        TimeInt(MAX_TIME_I64)
    }

    /// A temporal time; the one value that is not temporal, `i64::MIN`, becomes the smallest temporal time.
    pub fn new_temporal(t: i64) -> (r: TimeInt)
        ensures
            r.0 == temporal(t),
    {
        if t == STATIC_TIME_I64 {
            TimeInt(MIN_TIME_I64)
        } else {
            TimeInt(t)
        }
    }

    pub fn as_i64(&self) -> (r: i64)
        ensures
            r == self.0,
    {
        self.0
    }

    pub fn is_static(&self) -> (r: bool)
        ensures
            r == (self.0 == STATIC_TIME_I64),
    {
        self.0 == STATIC_TIME_I64
    }

    /// Converts a raw value, refusing `i64::MIN` which is reserved for static data.
    pub fn try_from_i64(t: i64) -> (r: Option<TimeInt>)
        ensures
            r == (if t == STATIC_TIME_I64 {
                None::<TimeInt>
            } else {
                Some(TimeInt(t))
            }),
    {
        if t == STATIC_TIME_I64 {
            None
        } else {
            Some(TimeInt(t))
        }
    }
}

/// An inclusive time range `[min, max]`.
#[derive(Debug, Clone, Copy, PartialEq, Eq, Structural, Hash)]
pub struct ResolvedTimeRange {
    pub min: TimeInt,
    pub max: TimeInt,
}

impl ResolvedTimeRange {
    /// The range from the smallest to the largest temporal time.
    pub fn everything() -> (r: ResolvedTimeRange)
        ensures
            r.min.0 == MIN_TIME_I64,
            r.max.0 == MAX_TIME_I64,
    {
        ResolvedTimeRange { min: TimeInt(MIN_TIME_I64), max: TimeInt(MAX_TIME_I64) }
    }

    pub fn new(min: TimeInt, max: TimeInt) -> (r: ResolvedTimeRange)
        ensures
            r.min == min,
            r.max == max,
    {
        ResolvedTimeRange { min, max }
    }

    pub fn min(&self) -> (r: TimeInt)
        ensures
            r == self.min,
    {
        self.min
    }

    pub fn max(&self) -> (r: TimeInt)
        ensures
            r == self.max,
    {
        self.max
    }

    pub open spec fn spec_contains(&self, t: TimeInt) -> bool {
        self.min.0 <= t.0 <= self.max.0
    }

    pub fn contains(&self, t: TimeInt) -> (r: bool)
        ensures
            r == self.spec_contains(t),
    {
        self.min.0 <= t.0 && t.0 <= self.max.0
    }
}

/// The kind of a timeline.
#[derive(Debug, Clone, Copy, PartialEq, Eq, Structural, Hash)]
pub enum TimeType {
    /// Nanoseconds since the epoch.
    Time,
    /// A sequence number.
    Sequence,
}

/// A named timeline.
#[derive(Debug)]
pub struct Timeline {
    pub name: String,
    pub typ: TimeType,
}

impl View for Timeline {
    type V = (Seq<char>, TimeType);

    open spec fn view(&self) -> (Seq<char>, TimeType) {
        (self.name@, self.typ)
    }
}

impl Timeline {
    pub fn new(name: &str, typ: TimeType) -> (r: Timeline)
        ensures
            r@ == (name@, typ),
    {
        Timeline { name: name.to_string(), typ }
    }

    pub fn new_temporal(name: &str) -> (r: Timeline)
        ensures
            r@ == (name@, TimeType::Time),
    {
        Timeline { name: name.to_string(), typ: TimeType::Time }
    }

    pub fn new_sequence(name: &str) -> (r: Timeline)
        ensures
            r@ == (name@, TimeType::Sequence),
    {
        Timeline { name: name.to_string(), typ: TimeType::Sequence }
    }

    pub fn name(&self) -> (r: &str)
        ensures
            r@ == self@.0,
    {
        self.name.as_str()
    }

    pub fn typ(&self) -> (r: TimeType)
        ensures
            r == self@.1,
    {
        self.typ
    }

    /// Same name and same kind.
    pub fn same(&self, other: &Timeline) -> (r: bool)
        ensures
            r == (self@ == other@),
    {
        let same_name = self.name == other.name;
        let same_typ = match (self.typ, other.typ) {
            (TimeType::Time, TimeType::Time) => true,
            (TimeType::Sequence, TimeType::Sequence) => true,
            _ => false,
        };
        same_name && same_typ
    }

    pub fn duplicate(&self) -> (r: Timeline)
        ensures
            r@ == self@,
    {
        Timeline { name: self.name.clone(), typ: self.typ }
    }
}

/// The path of an entity, e.g. `world/points`.
#[derive(Debug)]
pub struct EntityPath {
    pub path: String,
}

impl View for EntityPath {
    type V = Seq<char>;

    open spec fn view(&self) -> Seq<char> {
        self.path@
    }
}

/// A 64-bit hash of an [`EntityPath`].
#[derive(Debug, Clone, Copy, PartialEq, Eq, Structural, Hash)]
pub struct EntityPathHash(pub u64);

/// 64-bit FNV-1a offset basis.
pub const FNV_OFFSET: u64 = 0xcbf29ce484222325u64;

/// 64-bit FNV-1a prime.
pub const FNV_PRIME: u64 = 0x100000001b3u64;

/// One FNV-1a step over a character, taken as its code point.
pub open spec fn fnv_step(h: u64, c: char) -> u64 {
    ((h ^ (c as u32 as u64)) as int * FNV_PRIME as int % 0x1_0000_0000_0000_0000int) as u64
}

/// FNV-1a over the code points of a path, first character first.
pub open spec fn path_hash(s: Seq<char>) -> u64
    decreases s.len(),
{
    if s.len() == 0 {
        FNV_OFFSET
    } else {
        fnv_step(path_hash(s.drop_last()), s.last())
    }
}

impl EntityPath {
    pub fn new(path: &str) -> (r: EntityPath)
        ensures
            r@ == path@,
    {
        EntityPath { path: path.to_string() }
    }

    pub fn as_str(&self) -> (r: &str)
        ensures
            r@ == self@,
    {
        self.path.as_str()
    }

    pub fn same(&self, other: &EntityPath) -> (r: bool)
        ensures
            r == (self@ == other@),
    {
        self.path == other.path
    }

    pub fn duplicate(&self) -> (r: EntityPath)
        ensures
            r@ == self@,
    {
        EntityPath { path: self.path.clone() }
    }

    /// FNV-1a hash of the path's code points.
    pub fn hash(&self) -> (r: EntityPathHash)
        ensures
            r.0 == path_hash(self@),
    {
        let s = self.path.as_str();
        let n = s.unicode_len();
        let mut h: u64 = FNV_OFFSET;
        let mut i: usize = 0;
        while i < n
            invariant
                n == s@.len(),
                s@ == self@,
                i <= n,
                h == path_hash(s@.subrange(0, i as int)),
            decreases n - i,
        {
            let c = s.get_char(i);
            proof {
                assert(s@.subrange(0, i + 1).drop_last() =~= s@.subrange(0, i as int));
            }
            h = (h ^ (c as u32 as u64)).wrapping_mul(FNV_PRIME);
            i = i + 1;
        }
        proof {
            assert(s@.subrange(0, n as int) =~= s@);
        }
        EntityPathHash(h)
    }
}

// --- Order of entity paths ---

/// The rank of a character in path order: the separator `/` comes before every other
/// character, which keep their code point order, so that paths order part by part.
pub open spec fn char_key(c: char) -> int {
    if c == '/' {
        0
    } else {
        c as u32 as int + 1
    }
}

/// `a` comes strictly before `b`: at the first character where they differ, `a`'s ranks
/// lower, or `a` is a proper prefix of `b`.
pub open spec fn path_lt(a: Seq<char>, b: Seq<char>) -> bool
    decreases a.len(),
{
    if b.len() == 0 {
        false
    } else if a.len() == 0 {
        true
    } else if a[0] != b[0] {
        char_key(a[0]) < char_key(b[0])
    } else {
        path_lt(a.drop_first(), b.drop_first())
    }
}

/// No path comes before itself.
pub proof fn lemma_path_lt_irreflexive(a: Seq<char>)
    ensures
        !path_lt(a, a),
    decreases a.len(),
{
    if a.len() > 0 {
        lemma_path_lt_irreflexive(a.drop_first());
    }
}

/// Of two different paths, one comes before the other.
pub proof fn lemma_path_lt_total(a: Seq<char>, b: Seq<char>)
    ensures
        a == b || path_lt(a, b) || path_lt(b, a),
    decreases a.len(),
{
    if a.len() > 0 && b.len() > 0 && a[0] == b[0] {
        lemma_path_lt_total(a.drop_first(), b.drop_first());
        if a.drop_first() == b.drop_first() {
            assert(a =~= seq![a[0]] + a.drop_first());
            assert(b =~= seq![b[0]] + b.drop_first());
        }
    } else if a.len() == 0 && b.len() == 0 {
        assert(a =~= b);
    } else if a.len() > 0 && b.len() > 0 {
        vstd::utf8::char_u32_cast(a[0], a[0] as u32);
        vstd::utf8::char_u32_cast(b[0], b[0] as u32);
        assert(char_key(a[0]) != char_key(b[0]));
    }
}

/// Path order is transitive.
pub proof fn lemma_path_lt_transitive(a: Seq<char>, b: Seq<char>, c: Seq<char>)
    requires
        path_lt(a, b),
        path_lt(b, c),
    ensures
        path_lt(a, c),
    decreases a.len(),
{
    if a.len() > 0 && b.len() > 0 && c.len() > 0 && a[0] == b[0] && b[0] == c[0] {
        lemma_path_lt_transitive(a.drop_first(), b.drop_first(), c.drop_first());
    }
}

impl EntityPath {
    /// Whether this path comes strictly before `other` in path order (see [`path_lt`]).
    pub fn precedes(&self, other: &EntityPath) -> (r: bool)
        ensures
            r == path_lt(self@, other@),
    {
        let a = self.path.as_str();
        let b = other.path.as_str();
        let an = a.unicode_len();
        let bn = b.unicode_len();
        let mut i: usize = 0;
        proof {
            assert(a@.skip(0) =~= a@);
            assert(b@.skip(0) =~= b@);
        }
        while i < an && i < bn
            invariant
                an == a@.len(),
                bn == b@.len(),
                a@ == self@,
                b@ == other@,
                i <= an,
                i <= bn,
                path_lt(a@, b@) == path_lt(a@.skip(i as int), b@.skip(i as int)),
            decreases an - i,
        {
            let x = a.get_char(i);
            let y = b.get_char(i);
            proof {
                assert(a@.skip(i as int)[0] == x);
                assert(b@.skip(i as int)[0] == y);
                assert(a@.skip(i as int).drop_first() =~= a@.skip(i + 1));
                assert(b@.skip(i as int).drop_first() =~= b@.skip(i + 1));
            }
            if x != y {
                let kx: u32 = if x == '/' {
                    0
                } else {
                    (x as u32) + 1
                };
                let ky: u32 = if y == '/' {
                    0
                } else {
                    (y as u32) + 1
                };
                return kx < ky;
            }
            i = i + 1;
        }
        i < bn
    }
}

/// A component of an entity.
#[derive(Debug)]
pub struct ComponentPath {
    pub entity_path: EntityPath,
    pub component_name: ComponentName,
}

impl ComponentPath {
    pub fn entity_path(&self) -> (r: &EntityPath)
        ensures
            r@ == self.entity_path@,
    {
        &self.entity_path
    }
}

/// The kind of store.
#[derive(Debug, Clone, Copy, PartialEq, Eq, Structural, Hash)]
pub enum StoreKind {
    Recording,
    Blueprint,
}

/// Identifies a store: its kind and a unique name.
#[derive(Debug)]
pub struct StoreId {
    pub kind: StoreKind,
    pub id: String,
}

impl View for StoreId {
    type V = (StoreKind, Seq<char>);

    open spec fn view(&self) -> (StoreKind, Seq<char>) {
        (self.kind, self.id@)
    }
}

impl StoreId {
    pub fn from_string(kind: StoreKind, id: String) -> (r: StoreId)
        ensures
            r@ == (kind, id@),
    {
        StoreId { kind, id }
    }

    pub fn same(&self, other: &StoreId) -> (r: bool)
        ensures
            r == (self@ == other@),
    {
        let same_kind = match (self.kind, other.kind) {
            (StoreKind::Recording, StoreKind::Recording) => true,
            (StoreKind::Blueprint, StoreKind::Blueprint) => true,
            _ => false,
        };
        same_kind && self.id == other.id
    }

    pub fn duplicate(&self) -> (r: StoreId)
        ensures
            r@ == self@,
    {
        StoreId { kind: self.kind, id: self.id.clone() }
    }
}

} // verus!

verus! {

/// A time on each of several timelines.
#[derive(Debug)]
pub struct TimePoint {
    pub entries: Vec<(Timeline, TimeInt)>,
}

impl View for TimePoint {
    type V = Seq<((Seq<char>, TimeType), TimeInt)>;

    open spec fn view(&self) -> Seq<((Seq<char>, TimeType), TimeInt)> {
        self.entries@.map_values(|e: (Timeline, TimeInt)| (e.0@, e.1))
    }
}

// --- Order of timelines ---

/// Timeline `a` comes strictly before timeline `b`: by name, then time before sequence.
pub open spec fn timeline_lt(a: (Seq<char>, TimeType), b: (Seq<char>, TimeType)) -> bool {
    chars_lt(a.0, b.0) || (a.0 == b.0 && a.1 == TimeType::Time && b.1 == TimeType::Sequence)
}

/// The order of timelines is strict, total and transitive.
pub proof fn lemma_timeline_lt_order(a: (Seq<char>, TimeType), b: (Seq<char>, TimeType), c: (Seq<char>, TimeType))
    ensures
        !timeline_lt(a, a),
        a != b ==> (timeline_lt(a, b) || timeline_lt(b, a)),
        !(timeline_lt(a, b) && timeline_lt(b, a)),
        timeline_lt(a, b) && timeline_lt(b, c) ==> timeline_lt(a, c),
{
    lemma_chars_lt_irreflexive(a.0);
    lemma_chars_lt_total(a.0, b.0);
    lemma_chars_lt_total(b.0, c.0);
    lemma_chars_lt_total(a.0, c.0);
    if chars_lt(a.0, b.0) && chars_lt(b.0, c.0) {
        lemma_chars_lt_transitive(a.0, b.0, c.0);
    }
}

/// The entries of a time point, each with its timeline by its view.
pub open spec fn timepoint_entries(s: Seq<(Timeline, TimeInt)>) -> Seq<((Seq<char>, TimeType), TimeInt)> {
    s.map_values(|e: (Timeline, TimeInt)| (e.0@, e.1))
}

/// The entries of a time point are in strictly increasing timeline order.
pub open spec fn timepoint_sorted(tp: Seq<((Seq<char>, TimeType), TimeInt)>) -> bool {
    forall|i: int, j: int| 0 <= i < j < tp.len() ==> timeline_lt(tp[i].0, tp[j].0)
}

impl Timeline {
    /// Whether this timeline comes strictly before `other`.
    pub fn less(&self, other: &Timeline) -> (r: bool)
        ensures
            r == timeline_lt(self@, other@),
    {
        if str_less(self.name.as_str(), other.name.as_str()) {
            return true;
        }
        if self.name == other.name {
            match (self.typ, other.typ) {
                (TimeType::Time, TimeType::Sequence) => true,
                _ => false,
            }
        } else {
            false
        }
    }
}

/// Adds the entry `x` at its place in a time point in increasing timeline order, unless an
/// entry for its timeline is there already.
pub fn insert_entry_sorted(v: &mut Vec<(Timeline, TimeInt)>, x: (Timeline, TimeInt))
    requires
        timepoint_sorted(timepoint_entries(old(v)@)),
    ensures
        timepoint_sorted(timepoint_entries(final(v)@)),
        forall|y: ((Seq<char>, TimeType), TimeInt)|
            timepoint_entries(final(v)@).contains(y) ==> (timepoint_entries(old(v)@).contains(y) || y == (x.0@, x.1)),
        forall|y: ((Seq<char>, TimeType), TimeInt)|
            timepoint_entries(old(v)@).contains(y) ==> timepoint_entries(final(v)@).contains(y),
        (forall|i: int| 0 <= i < old(v)@.len() ==> old(v)@[i].0@ != x.0@) ==> timepoint_entries(final(v)@).contains((x.0@, x.1)),
{
    let ghost o = timepoint_entries(v@);
    let ghost ov = v@;
    let n = v.len();
    let mut p: usize = 0;
    while p < n
        invariant
            n == o.len(),
            v@ == ov,
            o == timepoint_entries(ov),
            p <= n,
            forall|i: int| 0 <= i < p ==> timeline_lt(o[i].0, x.0@),
        ensures
            p <= n,
            v@ == ov,
            forall|i: int| 0 <= i < p ==> timeline_lt(o[i].0, x.0@),
            p < n ==> !timeline_lt(o[p as int].0, x.0@),
        decreases n - p,
    {
        proof {
            assert(o[p as int].0 == v@[p as int].0@);
        }
        if !v[p].0.less(&x.0) {
            break;
        }
        p = p + 1;
    }
    if p < n && v[p].0.same(&x.0) {
        proof {
            assert(o[p as int].0 == ov[p as int].0@);
        }
        return;
    }
    let ghost xv = (x.0@, x.1);
    let ghost xx = x;
    v.insert(p, x);
    proof {
        let w = timepoint_entries(v@);
        assert(w =~= o.insert(p as int, xv));
        if p < n {
            assert(o[p as int].0 != xv.0);
        }
        assert forall|i: int, j: int| 0 <= i < j < w.len() implies timeline_lt(w[i].0, w[j].0) by {
            if j < p {
            } else if j == p {
            } else if i < p {
                assert(w[j] == o[j - 1]);
            } else if i == p {
                assert(w[j] == o[j - 1]);
                lemma_timeline_lt_order(o[p as int].0, xv.0, o[j - 1].0);
                lemma_timeline_lt_order(xv.0, o[p as int].0, o[j - 1].0);
            } else {
                assert(w[i] == o[i - 1] && w[j] == o[j - 1]);
            }
        }
        assert forall|y: ((Seq<char>, TimeType), TimeInt)| w.contains(y) implies (o.contains(y) || y == xv) by {
            let i = choose|i: int| 0 <= i < w.len() && w[i] == y;
            if i < p {
                assert(o[i] == y);
            } else if i > p {
                assert(o[i - 1] == y);
            }
        }
        assert forall|y: ((Seq<char>, TimeType), TimeInt)| o.contains(y) implies w.contains(y) by {
            let i = choose|i: int| 0 <= i < o.len() && o[i] == y;
            if i < p {
                assert(w[i] == y);
            } else {
                assert(w[i + 1] == y);
            }
        }
        assert(w[p as int] == xv);
    }
}

/// The views of the timelines of `v`.
pub open spec fn timeline_views(v: Seq<Timeline>) -> Seq<(Seq<char>, TimeType)> {
    v.map_values(|t: Timeline| t@)
}

/// The timelines are in strictly increasing order.
pub open spec fn timelines_sorted(v: Seq<(Seq<char>, TimeType)>) -> bool {
    forall|i: int, j: int| 0 <= i < j < v.len() ==> timeline_lt(v[i], v[j])
}

/// Adds the timeline `x` at its place among timelines in increasing order, unless it is
/// there already.
pub fn insert_timeline_sorted(v: &mut Vec<Timeline>, x: Timeline)
    requires
        timelines_sorted(timeline_views(old(v)@)),
    ensures
        timelines_sorted(timeline_views(final(v)@)),
        forall|y: (Seq<char>, TimeType)|
            #[trigger] timeline_views(final(v)@).contains(y) <==> (timeline_views(old(v)@).contains(y)
                || y == x@),
{
    let ghost o = timeline_views(v@);
    let ghost ov = v@;
    let n = v.len();
    let mut p: usize = 0;
    while p < n
        invariant
            n == o.len(),
            v@ == ov,
            o == timeline_views(ov),
            p <= n,
            forall|i: int| 0 <= i < p ==> timeline_lt(o[i], x@),
        ensures
            p <= n,
            v@ == ov,
            forall|i: int| 0 <= i < p ==> timeline_lt(o[i], x@),
            p < n ==> !timeline_lt(o[p as int], x@),
        decreases n - p,
    {
        proof {
            assert(o[p as int] == v@[p as int]@);
        }
        if !v[p].less(&x) {
            break;
        }
        p = p + 1;
    }
    if p < n && v[p].same(&x) {
        proof {
            assert(o[p as int] == ov[p as int]@);
            assert(o.contains(x@));
        }
        return;
    }
    let ghost xv = x@;
    let ghost xx = x;
    v.insert(p, x);
    proof {
        let w = timeline_views(v@);
        assert(w =~= o.insert(p as int, xv));
        if p < n {
            assert(o[p as int] != xv);
        }
        assert forall|i: int, j: int| 0 <= i < j < w.len() implies timeline_lt(w[i], w[j]) by {
            if j < p {
            } else if j == p {
            } else if i < p {
                assert(w[j] == o[j - 1]);
            } else if i == p {
                assert(w[j] == o[j - 1]);
                lemma_timeline_lt_order(o[p as int], xv, o[j - 1]);
                lemma_timeline_lt_order(xv, o[p as int], o[j - 1]);
            } else {
                assert(w[i] == o[i - 1] && w[j] == o[j - 1]);
            }
        }
        assert forall|y: (Seq<char>, TimeType)| #[trigger] w.contains(y) <==> (o.contains(y) || y == xv) by {
            if w.contains(y) {
                let i = choose|i: int| 0 <= i < w.len() && w[i] == y;
                if i < p {
                    assert(o[i] == y);
                } else if i > p {
                    assert(o[i - 1] == y);
                }
            }
            if o.contains(y) {
                let i = choose|i: int| 0 <= i < o.len() && o[i] == y;
                if i < p {
                    assert(w[i] == y);
                } else {
                    assert(w[i + 1] == y);
                }
            }
            if y == xv {
                assert(w[p as int] == y);
            }
        }
    }
}

} // verus!
