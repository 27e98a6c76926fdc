//! Statistics over the chunks of a store: counts, sizes, rows, components and timelines.
use std::sync::Arc;
use vstd::prelude::*;

use crate::chunk::{chunk_size_bytes, Chunk, ChunkView};
use crate::store::DataStore2;

verus! {

// --- The mean of two values, as a double-precision computation rounds it ---

/// Two to the 53rd: from here on a double cannot hold every integer.
pub open spec fn f64_exact_limit() -> nat {
    0x20_0000_0000_0000
}

/// The spacing of doubles around `n`: one below two to the 53rd, doubling with each further
/// bit of `n`.
pub open spec fn f64_spacing(n: nat) -> nat
    decreases n,
{
    if n < f64_exact_limit() {
        1
    } else {
        2 * f64_spacing(n / 2)
    }
}

/// `n` rounded to the nearest double, ties to the even one.
pub open spec fn f64_round(n: nat) -> nat {
    let q = f64_spacing(n);
    let r = n % q;
    let b = (n - r) as nat;
    if 2 * r < q {
        b
    } else if 2 * r > q {
        b + q
    } else if (b / q) % 2 == 0 {
        b
    } else {
        b + q
    }
}

/// What `((a + b) as f64 / 2.0) as u64` gives.
pub open spec fn f64_mean(a: u64, b: u64) -> u64 {
    (f64_round((a + b) as nat) / 2) as u64
}

proof fn lemma_spacing_bounds(n: nat)
    ensures
        f64_spacing(n) >= 1,
        n >= 1 ==> f64_spacing(n) <= n,
    decreases n,
{
    if n >= f64_exact_limit() {
        lemma_spacing_bounds(n / 2);
    }
}

/// The rounded value is at most twice the value, so its half is at most the value.
proof fn lemma_round_bound(n: nat)
    ensures
        f64_round(n) / 2 <= n,
{
    let q = f64_spacing(n);
    lemma_spacing_bounds(n);
    let r = n % q;
    assert(r < q) by (nonlinear_arith)
        requires
            q >= 1,
            r == n % q,
    ;
    assert(r <= n) by (nonlinear_arith)
        requires
            q >= 1,
            r == n % q,
    ;
    if n == 0 {
        assert(r == 0) by (nonlinear_arith)
            requires
                n == 0,
                q >= 1,
                r == n % q,
        ;
    }
}

/// `f64_spacing(n)`, computed.
fn spacing(n: u64) -> (r: u64)
    ensures
        r == f64_spacing(n as nat),
{
    let mut m: u64 = n;
    let mut q: u64 = 1;
    while m >= 0x20_0000_0000_0000
        invariant
            q >= 1,
            q * m <= n,
            f64_spacing(n as nat) == q * f64_spacing(m as nat),
        decreases m,
    {
        proof {
            assert(f64_spacing(m as nat) == 2 * f64_spacing((m / 2) as nat));
            assert(q * (m / 2) * 2 <= q * m) by (nonlinear_arith)
                requires
                    q >= 1,
            ;
            assert(q * 2 * 0x20_0000_0000_0000 <= q * m * 2) by (nonlinear_arith)
                requires
                    q >= 1,
                    m >= 0x20_0000_0000_0000,
            ;
            assert(q * (2 * f64_spacing((m / 2) as nat)) == (q * 2) * f64_spacing((m / 2) as nat))
                by (nonlinear_arith);
            assert((q * 2) * (m / 2) <= n) by (nonlinear_arith)
                requires
                    q * m <= n,
                    q * (m / 2) * 2 <= q * m,
            ;
        }
        q = q * 2;
        m = m / 2;
    }
    proof {
        assert(f64_spacing(m as nat) == 1);
        assert(q * f64_spacing(m as nat) == q) by (nonlinear_arith)
            requires
                f64_spacing(m as nat) == 1,
        ;
    }
    q
}

/// The mean of two counts as the double-precision computation `((a + b) as f64 / 2.0) as
/// u64` gives it: exact below two to the 53rd, rounded to the nearest double above.
pub fn mean_via_f64(a: u64, b: u64) -> (r: u64)
    requires
        a + b <= u64::MAX,
    ensures
        r == f64_mean(a, b),
        r <= a + b,
{
    let n: u64 = a + b;
    let q = spacing(n);
    proof {
        lemma_spacing_bounds(n as nat);
        lemma_round_bound(n as nat);
    }
    let rem = n % q;
    let base = n - rem;
    let rounded: u128 = if 2 * (rem as u128) < q as u128 {
        base as u128
    } else if 2 * (rem as u128) > q as u128 {
        base as u128 + q as u128
    } else if (base / q) % 2 == 0 {
        base as u128
    } else {
        base as u128 + q as u128
    };
    proof {
        assert(rounded == f64_round(n as nat));
    }
    (rounded / 2) as u64
}

// --- Chunk statistics ---

/// Counts over a set of chunks: how many, and the mean, least, largest and total size, row
/// count, component count and timeline count.
#[derive(Debug, Clone, Copy, PartialEq, Eq, Structural)]
pub struct DataStoreChunkStats2 {
    pub num_chunks: u64,
    pub avg_size_bytes: u64,
    pub min_size_bytes: u64,
    pub max_size_bytes: u64,
    pub total_size_bytes: u64,
    pub avg_num_rows: u64,
    pub min_num_rows: u64,
    pub max_num_rows: u64,
    pub total_num_rows: u64,
    pub avg_num_components: u64,
    pub min_num_components: u64,
    pub max_num_components: u64,
    pub total_num_components: u64,
    pub avg_num_timelines: u64,
    pub min_num_timelines: u64,
    pub max_num_timelines: u64,
    pub total_num_timelines: u64,
}

/// All zero.
pub open spec fn zero_stats() -> DataStoreChunkStats2 {
    DataStoreChunkStats2 {
        num_chunks: 0,
        avg_size_bytes: 0,
        min_size_bytes: 0,
        max_size_bytes: 0,
        total_size_bytes: 0,
        avg_num_rows: 0,
        min_num_rows: 0,
        max_num_rows: 0,
        total_num_rows: 0,
        avg_num_components: 0,
        min_num_components: 0,
        max_num_components: 0,
        total_num_components: 0,
        avg_num_timelines: 0,
        min_num_timelines: 0,
        max_num_timelines: 0,
        total_num_timelines: 0,
    }
}

pub open spec fn min_u64(a: u64, b: u64) -> u64 {
    if a <= b {
        a
    } else {
        b
    }
}

pub open spec fn max_u64(a: u64, b: u64) -> u64 {
    if a >= b {
        a
    } else {
        b
    }
}

/// Whether no sum of `add` overflows.
pub open spec fn stats_addable(a: DataStoreChunkStats2, b: DataStoreChunkStats2) -> bool {
    &&& a.num_chunks + b.num_chunks <= u64::MAX
    &&& a.avg_size_bytes + b.avg_size_bytes <= u64::MAX
    &&& a.total_size_bytes + b.total_size_bytes <= u64::MAX
    &&& a.avg_num_rows + b.avg_num_rows <= u64::MAX
    &&& a.total_num_rows + b.total_num_rows <= u64::MAX
    &&& a.avg_num_components + b.avg_num_components <= u64::MAX
    &&& a.total_num_components + b.total_num_components <= u64::MAX
    &&& a.avg_num_timelines + b.avg_num_timelines <= u64::MAX
    &&& a.total_num_timelines + b.total_num_timelines <= u64::MAX
}

/// The combination of two statistics: counts and totals add up, least and largest combine,
/// and each mean becomes the mean of the two means.
pub open spec fn stats_sum(a: DataStoreChunkStats2, b: DataStoreChunkStats2) -> DataStoreChunkStats2 {
    DataStoreChunkStats2 {
        num_chunks: (a.num_chunks + b.num_chunks) as u64,
        avg_size_bytes: f64_mean(a.avg_size_bytes, b.avg_size_bytes),
        min_size_bytes: min_u64(a.min_size_bytes, b.min_size_bytes),
        max_size_bytes: max_u64(a.max_size_bytes, b.max_size_bytes),
        total_size_bytes: (a.total_size_bytes + b.total_size_bytes) as u64,
        avg_num_rows: f64_mean(a.avg_num_rows, b.avg_num_rows),
        min_num_rows: min_u64(a.min_num_rows, b.min_num_rows),
        max_num_rows: max_u64(a.max_num_rows, b.max_num_rows),
        total_num_rows: (a.total_num_rows + b.total_num_rows) as u64,
        avg_num_components: f64_mean(a.avg_num_components, b.avg_num_components),
        min_num_components: min_u64(a.min_num_components, b.min_num_components),
        max_num_components: max_u64(a.max_num_components, b.max_num_components),
        total_num_components: (a.total_num_components + b.total_num_components) as u64,
        avg_num_timelines: f64_mean(a.avg_num_timelines, b.avg_num_timelines),
        min_num_timelines: min_u64(a.min_num_timelines, b.min_num_timelines),
        max_num_timelines: max_u64(a.max_num_timelines, b.max_num_timelines),
        total_num_timelines: (a.total_num_timelines + b.total_num_timelines) as u64,
    }
}

/// The statistics of one chunk: every mean, least, largest and total is its own count.
pub open spec fn chunk_stats(c: ChunkView) -> DataStoreChunkStats2 {
    let size = chunk_size_bytes(c) as u64;
    let rows = c.row_ids.len() as u64;
    let comps = c.components.len() as u64;
    let tls = c.timelines.len() as u64;
    DataStoreChunkStats2 {
        num_chunks: 1,
        avg_size_bytes: size,
        min_size_bytes: size,
        max_size_bytes: size,
        total_size_bytes: size,
        avg_num_rows: rows,
        min_num_rows: rows,
        max_num_rows: rows,
        total_num_rows: rows,
        avg_num_components: comps,
        min_num_components: comps,
        max_num_components: comps,
        total_num_components: comps,
        avg_num_timelines: tls,
        min_num_timelines: tls,
        max_num_timelines: tls,
        total_num_timelines: tls,
    }
}

impl Default for DataStoreChunkStats2 {
    fn default() -> (r: DataStoreChunkStats2)
        ensures
            r == zero_stats(),
    {
        DataStoreChunkStats2 {
            num_chunks: 0,
            avg_size_bytes: 0,
            min_size_bytes: 0,
            max_size_bytes: 0,
            total_size_bytes: 0,
            avg_num_rows: 0,
            min_num_rows: 0,
            max_num_rows: 0,
            total_num_rows: 0,
            avg_num_components: 0,
            min_num_components: 0,
            max_num_components: 0,
            total_num_components: 0,
            avg_num_timelines: 0,
            min_num_timelines: 0,
            max_num_timelines: 0,
            total_num_timelines: 0,
        }
    }
}

fn min_of(a: u64, b: u64) -> (r: u64)
    ensures
        r == min_u64(a, b),
{
    if a <= b {
        a
    } else {
        b
    }
}

fn max_of(a: u64, b: u64) -> (r: u64)
    ensures
        r == max_u64(a, b),
{
    if a >= b {
        a
    } else {
        b
    }
}

impl DataStoreChunkStats2 {
    /// Combines two statistics (see [`stats_sum`]).
    pub fn add(self, rhs: DataStoreChunkStats2) -> (r: DataStoreChunkStats2)
        requires
            stats_addable(self, rhs),
        ensures
            r == stats_sum(self, rhs),
    {
        DataStoreChunkStats2 {
            num_chunks: self.num_chunks + rhs.num_chunks,
            avg_size_bytes: mean_via_f64(self.avg_size_bytes, rhs.avg_size_bytes),
            min_size_bytes: min_of(self.min_size_bytes, rhs.min_size_bytes),
            max_size_bytes: max_of(self.max_size_bytes, rhs.max_size_bytes),
            total_size_bytes: self.total_size_bytes + rhs.total_size_bytes,
            avg_num_rows: mean_via_f64(self.avg_num_rows, rhs.avg_num_rows),
            min_num_rows: min_of(self.min_num_rows, rhs.min_num_rows),
            max_num_rows: max_of(self.max_num_rows, rhs.max_num_rows),
            total_num_rows: self.total_num_rows + rhs.total_num_rows,
            avg_num_components: mean_via_f64(self.avg_num_components, rhs.avg_num_components),
            min_num_components: min_of(self.min_num_components, rhs.min_num_components),
            max_num_components: max_of(self.max_num_components, rhs.max_num_components),
            total_num_components: self.total_num_components + rhs.total_num_components,
            avg_num_timelines: mean_via_f64(self.avg_num_timelines, rhs.avg_num_timelines),
            min_num_timelines: min_of(self.min_num_timelines, rhs.min_num_timelines),
            max_num_timelines: max_of(self.max_num_timelines, rhs.max_num_timelines),
            total_num_timelines: self.total_num_timelines + rhs.total_num_timelines,
        }
    }

    /// The statistics of a single chunk.
    pub fn from_chunk(chunk: &Arc<Chunk>) -> (r: DataStoreChunkStats2)
        requires
            chunk_size_bytes(chunk@) <= u64::MAX,
        ensures
            r == chunk_stats(chunk@),
    {
        let size_bytes = chunk.heap_size_bytes();
        let num_rows = chunk.num_rows() as u64;
        let num_components = chunk.num_components() as u64;
        let num_timelines = chunk.num_timelines() as u64;
        DataStoreChunkStats2 {
            num_chunks: 1,
            avg_size_bytes: size_bytes,
            min_size_bytes: size_bytes,
            max_size_bytes: size_bytes,
            total_size_bytes: size_bytes,
            avg_num_rows: num_rows,
            min_num_rows: num_rows,
            max_num_rows: num_rows,
            total_num_rows: num_rows,
            avg_num_components: num_components,
            min_num_components: num_components,
            max_num_components: num_components,
            total_num_components: num_components,
            avg_num_timelines: num_timelines,
            min_num_timelines: num_timelines,
            max_num_timelines: num_timelines,
            total_num_timelines: num_timelines,
        }
    }
}

// --- Statistics of a store ---

/// Whether a chunk is static: it has no timeline.
pub open spec fn chunk_is_static(c: ChunkView) -> bool {
    c.timelines.len() == 0
}

pub open spec fn one_per_chunk() -> spec_fn(ChunkView) -> nat {
    |c: ChunkView| 1nat
}

pub open spec fn size_metric() -> spec_fn(ChunkView) -> nat {
    |c: ChunkView| chunk_size_bytes(c)
}

pub open spec fn rows_metric() -> spec_fn(ChunkView) -> nat {
    |c: ChunkView| c.row_ids.len()
}

pub open spec fn components_metric() -> spec_fn(ChunkView) -> nat {
    |c: ChunkView| c.components.len()
}

pub open spec fn timelines_metric() -> spec_fn(ChunkView) -> nat {
    |c: ChunkView| c.timelines.len()
}

/// The sum of `f` over the static chunks of `cs` (`want_static`), or over its temporal ones.
pub open spec fn sum_where(cs: Seq<ChunkView>, want_static: bool, f: spec_fn(ChunkView) -> nat) -> nat
    decreases cs.len(),
{
    if cs.len() == 0 {
        0
    } else {
        sum_where(cs.drop_last(), want_static, f) + if chunk_is_static(cs.last()) == want_static {
            f(cs.last())
        } else {
            0
        }
    }
}

/// The statistics of the static chunks of `cs` (`want_static`), or of its temporal ones:
/// starting from all zeros, each chunk's statistics are added in order.
pub open spec fn stats_fold(cs: Seq<ChunkView>, want_static: bool) -> DataStoreChunkStats2
    decreases cs.len(),
{
    if cs.len() == 0 {
        zero_stats()
    } else {
        let acc = stats_fold(cs.drop_last(), want_static);
        if chunk_is_static(cs.last()) == want_static {
            stats_sum(acc, chunk_stats(cs.last()))
        } else {
            acc
        }
    }
}

/// The totals over the selected chunks of `cs` fit in 64 bits.
pub open spec fn stats_fit(cs: Seq<ChunkView>, want_static: bool) -> bool {
    &&& cs.len() <= u64::MAX
    &&& sum_where(cs, want_static, size_metric()) <= u64::MAX
    &&& sum_where(cs, want_static, rows_metric()) <= u64::MAX
    &&& sum_where(cs, want_static, components_metric()) <= u64::MAX
    &&& sum_where(cs, want_static, timelines_metric()) <= u64::MAX
}

/// The chunks of a store, in its order.
pub open spec fn store_chunk_views(chunks: Seq<(u128, ChunkView)>) -> Seq<ChunkView> {
    chunks.map_values(|x: (u128, ChunkView)| x.1)
}

proof fn lemma_sum_where_count(cs: Seq<ChunkView>, w: bool)
    ensures
        sum_where(cs, w, one_per_chunk()) <= cs.len(),
    decreases cs.len(),
{
    if cs.len() > 0 {
        lemma_sum_where_count(cs.drop_last(), w);
    }
}

pub(crate) proof fn lemma_sum_where_mono(cs: Seq<ChunkView>, w: bool, f: spec_fn(ChunkView) -> nat, i: int)
    requires
        0 <= i <= cs.len(),
    ensures
        sum_where(cs.take(i), w, f) <= sum_where(cs, w, f),
    decreases cs.len() - i,
{
    if i == cs.len() {
        assert(cs.take(i) =~= cs);
    } else {
        assert(cs.take(i + 1).drop_last() =~= cs.take(i));
        lemma_sum_where_mono(cs, w, f, i + 1);
    }
}

/// Inserting a chunk adds its amount to the sum over its kind and leaves the other kind's.
pub proof fn lemma_sum_where_insert(cs: Seq<ChunkView>, w: bool, f: spec_fn(ChunkView) -> nat, p: int, c: ChunkView)
    requires
        0 <= p <= cs.len(),
    ensures
        sum_where(cs.insert(p, c), w, f) == sum_where(cs, w, f) + if chunk_is_static(c) == w {
            f(c)
        } else {
            0
        },
    decreases cs.len(),
{
    let ins = cs.insert(p, c);
    if p == cs.len() {
        assert(ins.drop_last() =~= cs);
        assert(ins.last() == c);
    } else {
        let dl = cs.drop_last();
        assert(ins.drop_last() =~= dl.insert(p, c));
        assert(ins.last() == cs.last());
        lemma_sum_where_insert(dl, w, f, p, c);
    }
}

/// With no chunk of the selected kind, the statistics are all zero.
pub proof fn lemma_stats_fold_none(cs: Seq<ChunkView>, w: bool)
    requires
        forall|i: int| 0 <= i < cs.len() ==> chunk_is_static(#[trigger] cs[i]) != w,
    ensures
        stats_fold(cs, w) == zero_stats(),
    decreases cs.len(),
{
    if cs.len() > 0 {
        let dl = cs.drop_last();
        assert forall|i: int| 0 <= i < dl.len() implies chunk_is_static(#[trigger] dl[i]) != w by {
            assert(dl[i] == cs[i]);
        }
        lemma_stats_fold_none(dl, w);
        assert(chunk_is_static(cs[cs.len() - 1]) != w);
    }
}

/// The chunk `cs[i]` is of the selected kind.
pub open spec fn selected_kind(cs: Seq<ChunkView>, w: bool, i: int) -> bool {
    0 <= i < cs.len() && chunk_is_static(cs[i]) == w
}

/// The largest-value field of `st` for metric `m`: size, rows, components or timelines.
spec fn max_field(st: DataStoreChunkStats2, m: int) -> u64 {
    if m == 0 {
        st.max_size_bytes
    } else if m == 1 {
        st.max_num_rows
    } else if m == 2 {
        st.max_num_components
    } else {
        st.max_num_timelines
    }
}

/// The metric `m` of a chunk: its size, rows, components or timelines.
spec fn metric_of(m: int) -> spec_fn(ChunkView) -> nat {
    if m == 0 {
        size_metric()
    } else if m == 1 {
        rows_metric()
    } else if m == 2 {
        components_metric()
    } else {
        timelines_metric()
    }
}

proof fn lemma_fold_max(cs: Seq<ChunkView>, w: bool, m: int)
    requires
        stats_fit(cs, w),
        0 <= m < 4,
    ensures
        forall|i: int| #[trigger] selected_kind(cs, w, i) ==> max_field(stats_fold(cs, w), m) >= (metric_of(m))(cs[i]),
        (exists|i: int| #[trigger] selected_kind(cs, w, i)) ==> exists|i: int|
            #[trigger] selected_kind(cs, w, i) && max_field(stats_fold(cs, w), m) == (metric_of(m))(cs[i]),
        !(exists|i: int| #[trigger] selected_kind(cs, w, i)) ==> max_field(stats_fold(cs, w), m) == 0,
    decreases cs.len(),
{
    if cs.len() > 0 {
        let dl = cs.drop_last();
        let c = cs.last();
        let f = metric_of(m);
        assert(sum_where(cs, w, f) == sum_where(dl, w, f) + if chunk_is_static(c) == w { f(c) } else { 0 });
        assert(stats_fit(dl, w));
        lemma_fold_max(dl, w, m);
        let acc = stats_fold(dl, w);
        assert forall|i: int| 0 <= i < dl.len() implies (selected_kind(dl, w, i) == selected_kind(cs, w, i) && dl[i] == cs[i]) by {}
        if chunk_is_static(c) == w {
            assert(f(c) <= u64::MAX);
            assert(max_field(chunk_stats(c), m) == f(c));
            assert(max_field(stats_fold(cs, w), m) == max_u64(max_field(acc, m), max_field(chunk_stats(c), m)));
            assert(selected_kind(cs, w, cs.len() - 1));
            assert forall|i: int| #[trigger] selected_kind(cs, w, i) implies max_field(stats_fold(cs, w), m) >= f(cs[i]) by {
                if i < cs.len() - 1 {
                    assert(selected_kind(dl, w, i));
                }
            }
            if max_field(acc, m) >= f(c) && exists|i: int| #[trigger] selected_kind(dl, w, i) {
                let i = choose|i: int| #[trigger] selected_kind(dl, w, i) && max_field(acc, m) == f(dl[i]);
                assert(selected_kind(cs, w, i));
            } else {
                assert(max_field(stats_fold(cs, w), m) == f(c));
            }
        } else {
            assert(stats_fold(cs, w) == acc);
            assert forall|i: int| #[trigger] selected_kind(cs, w, i) implies selected_kind(dl, w, i) by {}
            if exists|i: int| #[trigger] selected_kind(cs, w, i) {
                let i = choose|i: int| #[trigger] selected_kind(cs, w, i);
                assert(selected_kind(dl, w, i));
                let j = choose|j: int| #[trigger] selected_kind(dl, w, j) && max_field(acc, m) == f(dl[j]);
                assert(selected_kind(cs, w, j));
            }
        }
    }
}

/// Each largest-value statistic over the chunks of a kind is the largest of the chunks' own
/// values: at least the size, rows, components and timelines of every chunk of that kind,
/// equal to those of one of them, and zero when there is none.
pub proof fn law_stats_max_is_largest(cs: Seq<ChunkView>, w: bool)
    requires
        stats_fit(cs, w),
    ensures
        forall|i: int|
            #[trigger] selected_kind(cs, w, i) ==> {
                let st = stats_fold(cs, w);
                &&& st.max_size_bytes >= chunk_size_bytes(cs[i])
                &&& st.max_num_rows >= cs[i].row_ids.len()
                &&& st.max_num_components >= cs[i].components.len()
                &&& st.max_num_timelines >= cs[i].timelines.len()
            },
        (exists|i: int| #[trigger] selected_kind(cs, w, i)) ==> {
            let st = stats_fold(cs, w);
            &&& exists|i: int| #[trigger] selected_kind(cs, w, i) && st.max_size_bytes == chunk_size_bytes(cs[i])
            &&& exists|i: int| #[trigger] selected_kind(cs, w, i) && st.max_num_rows == cs[i].row_ids.len()
            &&& exists|i: int| #[trigger] selected_kind(cs, w, i) && st.max_num_components == cs[i].components.len()
            &&& exists|i: int| #[trigger] selected_kind(cs, w, i) && st.max_num_timelines == cs[i].timelines.len()
        },
        !(exists|i: int| #[trigger] selected_kind(cs, w, i)) ==> {
            let st = stats_fold(cs, w);
            &&& st.max_size_bytes == 0
            &&& st.max_num_rows == 0
            &&& st.max_num_components == 0
            &&& st.max_num_timelines == 0
        },
{
    lemma_fold_max(cs, w, 0);
    lemma_fold_max(cs, w, 1);
    lemma_fold_max(cs, w, 2);
    lemma_fold_max(cs, w, 3);
}

/// Each least-value statistic is folded from the zero statistics, so it stays zero whatever
/// the chunks.
pub proof fn law_stats_min_stays_zero(cs: Seq<ChunkView>, w: bool)
    ensures
        stats_fold(cs, w).min_size_bytes == 0,
        stats_fold(cs, w).min_num_rows == 0,
        stats_fold(cs, w).min_num_components == 0,
        stats_fold(cs, w).min_num_timelines == 0,
    decreases cs.len(),
{
    if cs.len() > 0 {
        law_stats_min_stays_zero(cs.drop_last(), w);
    }
}

/// Statistics whose means are each at most the matching total.
pub open spec fn means_within_totals(s: DataStoreChunkStats2) -> bool {
    &&& s.avg_size_bytes <= s.total_size_bytes
    &&& s.avg_num_rows <= s.total_num_rows
    &&& s.avg_num_components <= s.total_num_components
    &&& s.avg_num_timelines <= s.total_num_timelines
}

proof fn lemma_mean_within(a: u64, b: u64)
    requires
        a + b <= u64::MAX,
    ensures
        f64_mean(a, b) <= a + b,
{
    lemma_round_bound((a + b) as nat);
}

/// Combining statistics of the same kind keeps each count, total and mean as the sums over
/// the selected chunks say, with each mean within its total.
pub proof fn law_stats_totals(cs: Seq<ChunkView>, want_static: bool)
    requires
        stats_fit(cs, want_static),
    ensures
        stats_fold(cs, want_static).num_chunks == sum_where(cs, want_static, one_per_chunk()),
        stats_fold(cs, want_static).total_size_bytes == sum_where(cs, want_static, size_metric()),
        stats_fold(cs, want_static).total_num_rows == sum_where(cs, want_static, rows_metric()),
        stats_fold(cs, want_static).total_num_components == sum_where(
            cs,
            want_static,
            components_metric(),
        ),
        stats_fold(cs, want_static).total_num_timelines == sum_where(
            cs,
            want_static,
            timelines_metric(),
        ),
        means_within_totals(stats_fold(cs, want_static)),
    decreases cs.len(),
{
    if cs.len() > 0 {
        let dl = cs.drop_last();
        lemma_sum_where_count(cs, want_static);
        lemma_sum_where_count(dl, want_static);
        law_stats_totals(dl, want_static);
        let c = cs.last();
        let acc = stats_fold(dl, want_static);
        if chunk_is_static(c) == want_static {
            let x = chunk_stats(c);
            lemma_mean_within(acc.avg_size_bytes, x.avg_size_bytes);
            lemma_mean_within(acc.avg_num_rows, x.avg_num_rows);
            lemma_mean_within(acc.avg_num_components, x.avg_num_components);
            lemma_mean_within(acc.avg_num_timelines, x.avg_num_timelines);
        }
    }
}

/// Statistics of the static and of the temporal chunks of a store.
#[derive(Debug, Clone, Copy, PartialEq, Eq, Structural)]
pub struct DataStoreStats2 {
    pub static_chunks: DataStoreChunkStats2,
    pub temporal_chunks: DataStoreChunkStats2,
}

impl Default for DataStoreStats2 {
    fn default() -> (r: DataStoreStats2)
        ensures
            r.static_chunks == zero_stats(),
            r.temporal_chunks == zero_stats(),
    {
        DataStoreStats2 {
            static_chunks: DataStoreChunkStats2::default(),
            temporal_chunks: DataStoreChunkStats2::default(),
        }
    }
}

impl DataStore2 {
    /// The statistics of the store's static chunks and of its temporal chunks, each combined
    /// in the store's chunk order from all zeros.
    pub fn stats(&self) -> (r: DataStoreStats2)
        requires
            stats_fit(store_chunk_views(self@.chunks), true),
            stats_fit(store_chunk_views(self@.chunks), false),
        ensures
            r.static_chunks == stats_fold(store_chunk_views(self@.chunks), true),
            r.temporal_chunks == stats_fold(store_chunk_views(self@.chunks), false),
    {
        let chunks = self.iter_chunks();
        let ghost cs = store_chunk_views(self@.chunks);
        let mut static_chunks = DataStoreChunkStats2::default();
        let mut temporal_chunks = DataStoreChunkStats2::default();
        let n = chunks.len();
        let mut k: usize = 0;
        while k < n
            invariant
                n == chunks@.len(),
                n == cs.len(),
                forall|i: int| 0 <= i < n ==> (#[trigger] chunks@[i])@ == cs[i],
                stats_fit(cs, true),
                stats_fit(cs, false),
                k <= n,
                static_chunks == stats_fold(cs.take(k as int), true),
                temporal_chunks == stats_fold(cs.take(k as int), false),
            decreases n - k,
        {
            let chunk = &chunks[k];
            let ghost c = cs[k as int];
            proof {
                assert(chunks@[k as int]@ == c);
                let p = cs.take(k as int);
                let q = cs.take(k + 1);
                assert(q.drop_last() =~= p);
                assert(q.last() == c);
                let w = chunk_is_static(c);
                lemma_sum_where_mono(cs, w, size_metric(), k + 1);
                lemma_sum_where_mono(cs, w, rows_metric(), k + 1);
                lemma_sum_where_mono(cs, w, components_metric(), k + 1);
                lemma_sum_where_mono(cs, w, timelines_metric(), k + 1);
                lemma_sum_where_mono(cs, w, size_metric(), k as int);
                lemma_sum_where_mono(cs, w, rows_metric(), k as int);
                lemma_sum_where_mono(cs, w, components_metric(), k as int);
                lemma_sum_where_mono(cs, w, timelines_metric(), k as int);
                lemma_sum_where_count(q, w);
                law_stats_totals(p, w);
            }
            if chunk.is_static() {
                let x = DataStoreChunkStats2::from_chunk(chunk);
                static_chunks = static_chunks.add(x);
            } else {
                let x = DataStoreChunkStats2::from_chunk(chunk);
                temporal_chunks = temporal_chunks.add(x);
            }
            k = k + 1;
        }
        proof {
            assert(cs.take(n as int) =~= cs);
        }
        DataStoreStats2 { static_chunks, temporal_chunks }
    }
}

/// Each count of `a` less the matching count of `b`, or zero where `b`'s is larger.
pub open spec fn stats_minus(a: DataStoreChunkStats2, b: DataStoreChunkStats2) -> DataStoreChunkStats2 {
    DataStoreChunkStats2 {
        num_chunks: sat_sub(a.num_chunks, b.num_chunks),
        avg_size_bytes: sat_sub(a.avg_size_bytes, b.avg_size_bytes),
        min_size_bytes: sat_sub(a.min_size_bytes, b.min_size_bytes),
        max_size_bytes: sat_sub(a.max_size_bytes, b.max_size_bytes),
        total_size_bytes: sat_sub(a.total_size_bytes, b.total_size_bytes),
        avg_num_rows: sat_sub(a.avg_num_rows, b.avg_num_rows),
        min_num_rows: sat_sub(a.min_num_rows, b.min_num_rows),
        max_num_rows: sat_sub(a.max_num_rows, b.max_num_rows),
        total_num_rows: sat_sub(a.total_num_rows, b.total_num_rows),
        avg_num_components: sat_sub(a.avg_num_components, b.avg_num_components),
        min_num_components: sat_sub(a.min_num_components, b.min_num_components),
        max_num_components: sat_sub(a.max_num_components, b.max_num_components),
        total_num_components: sat_sub(a.total_num_components, b.total_num_components),
        avg_num_timelines: sat_sub(a.avg_num_timelines, b.avg_num_timelines),
        min_num_timelines: sat_sub(a.min_num_timelines, b.min_num_timelines),
        max_num_timelines: sat_sub(a.max_num_timelines, b.max_num_timelines),
        total_num_timelines: sat_sub(a.total_num_timelines, b.total_num_timelines),
    }
}

/// `a - b`, or zero where `b` is larger.
pub open spec fn sat_sub(a: u64, b: u64) -> u64 {
    if a >= b {
        (a - b) as u64
    } else {
        0
    }
}

impl DataStoreChunkStats2 {
    /// The difference of two statistics, count by count (see [`stats_minus`]).
    pub fn sub(self, rhs: DataStoreChunkStats2) -> (r: DataStoreChunkStats2)
        ensures
            r == stats_minus(self, rhs),
    {
        DataStoreChunkStats2 {
            num_chunks: self.num_chunks.saturating_sub(rhs.num_chunks),
            avg_size_bytes: self.avg_size_bytes.saturating_sub(rhs.avg_size_bytes),
            min_size_bytes: self.min_size_bytes.saturating_sub(rhs.min_size_bytes),
            max_size_bytes: self.max_size_bytes.saturating_sub(rhs.max_size_bytes),
            total_size_bytes: self.total_size_bytes.saturating_sub(rhs.total_size_bytes),
            avg_num_rows: self.avg_num_rows.saturating_sub(rhs.avg_num_rows),
            min_num_rows: self.min_num_rows.saturating_sub(rhs.min_num_rows),
            max_num_rows: self.max_num_rows.saturating_sub(rhs.max_num_rows),
            total_num_rows: self.total_num_rows.saturating_sub(rhs.total_num_rows),
            avg_num_components: self.avg_num_components.saturating_sub(rhs.avg_num_components),
            min_num_components: self.min_num_components.saturating_sub(rhs.min_num_components),
            max_num_components: self.max_num_components.saturating_sub(rhs.max_num_components),
            total_num_components: self.total_num_components.saturating_sub(
                rhs.total_num_components,
            ),
            avg_num_timelines: self.avg_num_timelines.saturating_sub(rhs.avg_num_timelines),
            min_num_timelines: self.min_num_timelines.saturating_sub(rhs.min_num_timelines),
            max_num_timelines: self.max_num_timelines.saturating_sub(rhs.max_num_timelines),
            total_num_timelines: self.total_num_timelines.saturating_sub(rhs.total_num_timelines),
        }
    }
}

impl DataStoreStats2 {
    /// The difference of two statistics, part by part.
    pub fn sub(self, rhs: DataStoreStats2) -> (r: DataStoreStats2)
        ensures
            r.static_chunks == stats_minus(self.static_chunks, rhs.static_chunks),
            r.temporal_chunks == stats_minus(self.temporal_chunks, rhs.temporal_chunks),
    {
        DataStoreStats2 {
            static_chunks: self.static_chunks.sub(rhs.static_chunks),
            temporal_chunks: self.temporal_chunks.sub(rhs.temporal_chunks),
        }
    }
}

/// A filtered sequence of chunks sums to no more than the whole.
pub proof fn lemma_sum_where_filter(
    cs: Seq<(u128, ChunkView)>,
    p: spec_fn((u128, ChunkView)) -> bool,
    w: bool,
    f: spec_fn(ChunkView) -> nat,
)
    ensures
        sum_where(store_chunk_views(cs.filter(p)), w, f) <= sum_where(store_chunk_views(cs), w, f),
        cs.filter(p).len() <= cs.len(),
    decreases cs.len(),
{
    reveal(Seq::filter);
    if cs.len() > 0 {
        let dl = cs.drop_last();
        lemma_sum_where_filter(dl, p, w, f);
        assert(store_chunk_views(cs).drop_last() =~= store_chunk_views(dl));
        if p(cs.last()) {
            let fp = dl.filter(p);
            assert(store_chunk_views(fp.push(cs.last())).drop_last() =~= store_chunk_views(fp));
        }
    }
}

/// A filtered store whose whole fits keeps fitting.
pub proof fn lemma_stats_fit_filter(cs: Seq<(u128, ChunkView)>, p: spec_fn((u128, ChunkView)) -> bool, w: bool)
    requires
        stats_fit(store_chunk_views(cs), w),
    ensures
        stats_fit(store_chunk_views(cs.filter(p)), w),
{
    lemma_sum_where_filter(cs, p, w, size_metric());
    lemma_sum_where_filter(cs, p, w, rows_metric());
    lemma_sum_where_filter(cs, p, w, components_metric());
    lemma_sum_where_filter(cs, p, w, timelines_metric());
}

} // verus!
