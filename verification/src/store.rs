//! The chunk store: chunks by id, a static index and a temporal index per entity.
use std::sync::Arc;
use vstd::prelude::*;

use crate::chunk::{chunk_size_bytes, row_id_min, Chunk, ChunkView};
use crate::stats::{
    chunk_is_static, lemma_stats_fold_none, lemma_sum_where_insert, zero_stats, lemma_sum_where_mono, size_metric, stats_fit,
    stats_fold, stats_minus, store_chunk_views, sum_where, DataStoreStats2,
};
use crate::events::{StoreDiff2, StoreDiffKind2, StoreEvent2};
use crate::names::{has_name, insert_name_sorted, names_sorted, ComponentName};
use crate::types::{ChunkId, EntityPath, RowId, StoreId, StoreKind, TimeInt, TimeType, Timeline};

verus! {

/// Where the store stands: incremented on each insertion and each garbage collection.
#[derive(Debug, Clone, Copy, PartialEq, Eq, Structural)]
pub struct StoreGeneration2 {
    pub insert_id: u64,
    pub gc_id: u64,
}

/// Configuration of a store.
#[derive(Debug, Clone, Copy, PartialEq, Eq, Structural)]
pub struct DataStoreConfig2 {}

impl DataStoreConfig2 {
    /// The default configuration.
    pub fn default_config() -> (r: DataStoreConfig2)
        ensures
            r == (DataStoreConfig2 {  }),
    {
        DataStoreConfig2 {  }
    }
}

impl Default for DataStoreConfig2 {
    fn default() -> (r: DataStoreConfig2)
        ensures
            r == (DataStoreConfig2 {  }),
    {
        DataStoreConfig2 {  }
    }
}

/// Errors of insertion.
#[derive(Debug, Clone, Copy, PartialEq, Eq, Structural)]
pub enum WriteError {
    /// Chunks must be sorted before insertion in the data store.
    UnsortedChunk,
}

/// A static index entry: the chunk that holds the static data of one component of one
/// entity.
#[derive(Debug)]
pub(crate) struct StaticEntry {
    pub(crate) entity: EntityPath,
    pub(crate) component: ComponentName,
    pub(crate) chunk_id: ChunkId,
}

/// A temporal index entry: a chunk holds data for one component of one entity on one
/// timeline, starting at `start`.
#[derive(Debug)]
pub(crate) struct TemporalEntry {
    pub(crate) entity: EntityPath,
    pub(crate) component: ComponentName,
    pub(crate) timeline: Timeline,
    pub(crate) start: TimeInt,
    pub(crate) chunk_id: ChunkId,
}

/// (entity, component, chunk id).
pub type StaticKey = (Seq<char>, Seq<char>, u128);

/// (entity, component, timeline, start time, chunk id).
pub type TemporalKey = (Seq<char>, Seq<char>, (Seq<char>, TimeType), i64, u128);

pub(crate) open spec fn static_entry_view(e: StaticEntry) -> StaticKey {
    (e.entity@, e.component@, e.chunk_id.0)
}

pub(crate) open spec fn temporal_entry_view(e: TemporalEntry) -> TemporalKey {
    (e.entity@, e.component@, e.timeline@, e.start.0, e.chunk_id.0)
}

/// The chunk id that a static index maps `(entity, component)` to, if any.
pub open spec fn static_lookup(idx: Seq<StaticKey>, entity: Seq<char>, component: Seq<char>) -> Option<
    u128,
> {
    if exists|k: int| 0 <= k < idx.len() && idx[k].0 == entity && idx[k].1 == component {
        Some(idx[choose|k: int| 0 <= k < idx.len() && idx[k].0 == entity && idx[k].1 == component].2)
    } else {
        None
    }
}

/// No two entries of a static index share (entity, component).
pub open spec fn static_keys_unique(idx: Seq<StaticKey>) -> bool {
    forall|i: int, j: int|
        0 <= i < j < idx.len() ==> !(idx[i].0 == idx[j].0 && idx[i].1 == idx[j].1)
}

proof fn lemma_static_lookup_at(idx: Seq<StaticKey>, entity: Seq<char>, component: Seq<char>, k: int)
    requires
        static_keys_unique(idx),
        0 <= k < idx.len(),
        idx[k].0 == entity,
        idx[k].1 == component,
    ensures
        static_lookup(idx, entity, component) == Some(idx[k].2),
{
    let j = choose|j: int| 0 <= j < idx.len() && idx[j].0 == entity && idx[j].1 == component;
    if j < k {
        assert(!(idx[j].0 == idx[k].0 && idx[j].1 == idx[k].1));
    } else if k < j {
        assert(!(idx[k].0 == idx[j].0 && idx[k].1 == idx[j].1));
    }
}

/// The temporal index entries that inserting a temporal chunk adds: one per component and
/// timeline, keyed by the start of the timeline's range.
pub open spec fn added_temporal(c: ChunkView, x: TemporalKey) -> bool {
    &&& x.0 == c.entity_path
    &&& x.4 == c.id.0
    &&& exists|ci: int, ti: int|
        0 <= ci < c.components.len() && 0 <= ti < c.timelines.len() && x.1 == c.components[ci].0
            && x.2 == c.timelines[ti].timeline && x.3 == c.timelines[ti].time_range.min.0
}

/// The static index entry that a static chunk `c` adds for one of its components.
pub open spec fn added_static(c: ChunkView, x: StaticKey) -> bool {
    &&& x.0 == c.entity_path
    &&& x.2 == c.id.0
    &&& c.timelines.len() == 0
    &&& exists|ci: int| 0 <= ci < c.components.len() && c.components[ci].0 == x.1
}

/// A chunk of `chunks` has the id of the static entry `x` and is one that adds `x`.
pub open spec fn static_entry_stored(chunks: Seq<(u128, ChunkView)>, x: StaticKey) -> bool {
    exists|k: int| 0 <= k < chunks.len() && chunks[k].1.id.0 == x.2 && added_static(chunks[k].1, x)
}

/// A chunk of `chunks` has the id of the temporal entry `x` and is one that adds `x`.
pub open spec fn temporal_entry_stored(chunks: Seq<(u128, ChunkView)>, x: TemporalKey) -> bool {
    exists|k: int| 0 <= k < chunks.len() && chunks[k].1.id.0 == x.4 && added_temporal(chunks[k].1, x)
}

/// The id of the last chunk of `cs`, in order, that is static, belongs to `entity` and holds
/// `component`, if any: the static chunk of `(entity, component)` once `cs` are inserted in
/// order.
pub open spec fn last_static_chunk(cs: Seq<(u128, ChunkView)>, entity: Seq<char>, component: Seq<char>) -> Option<
    u128,
>
    decreases cs.len(),
{
    if cs.len() == 0 {
        None
    } else {
        let c = cs.last().1;
        if c.timelines.len() == 0 && c.entity_path == entity && exists|ci: int|
            0 <= ci < c.components.len() && c.components[ci].0 == component {
            Some(c.id.0)
        } else {
            last_static_chunk(cs.drop_last(), entity, component)
        }
    }
}

/// The static index after inserting a static chunk: each of its components maps to it.
pub open spec fn static_after_insert(
    s: StoreView,
    c: ChunkView,
    entity: Seq<char>,
    component: Seq<char>,
) -> Option<u128> {
    if entity == c.entity_path && exists|ci: int|
        0 <= ci < c.components.len() && c.components[ci].0 == component {
        Some(c.id.0)
    } else {
        s.static_chunk_id(entity, component)
    }
}

impl StoreView {
    /// `s` is this store after storing and indexing the new chunk `c`: one more insertion
    /// and one more event; `c` joins the chunks; a static `c` becomes the static chunk of
    /// each of its components, a temporal `c` adds its entries to the temporal index.
    pub open spec fn stores(self, c: ChunkView, s: StoreView) -> bool {
        &&& s.id == self.id
        &&& s.insert_id == self.insert_id + 1
        &&& s.gc_id == self.gc_id
        &&& s.event_id == self.event_id + 1
        &&& s.chunks.len() == self.chunks.len() + 1
        &&& exists|p: int|
            0 <= p <= self.chunks.len() && s.chunks == self.chunks.insert(p, (row_id_min(c.row_ids), c))
        &&& forall|x: (u128, ChunkView)|
            #[trigger] s.chunks.contains(x) <==> (self.chunks.contains(x) || x == (
                row_id_min(c.row_ids),
                c,
            ))
        &&& c.timelines.len() == 0 ==> {
            &&& s.temporal_index == self.temporal_index
            &&& forall|e: Seq<char>, comp: Seq<char>|
                #[trigger] s.static_chunk_id(e, comp) == static_after_insert(self, c, e, comp)
        }
        &&& c.timelines.len() > 0 ==> {
            &&& s.static_index == self.static_index
            &&& forall|x: TemporalKey|
                #[trigger] s.temporal_index.contains(x) <==> (self.temporal_index.contains(x)
                    || added_temporal(c, x))
        }
    }
}

/// What a store holds.
pub struct StoreView {
    pub id: (StoreKind, Seq<char>),
    pub insert_id: u64,
    pub gc_id: u64,
    pub event_id: u64,
    /// The chunks, each with its smallest row id, in (smallest row id, chunk id) order.
    pub chunks: Seq<(u128, ChunkView)>,
    pub static_index: Seq<StaticKey>,
    pub temporal_index: Seq<TemporalKey>,
}

/// `(a1, b1)` comes strictly before `(a2, b2)`.
pub open spec fn pair_lt(a1: int, b1: int, a2: int, b2: int) -> bool {
    a1 < a2 || (a1 == a2 && b1 < b2)
}

impl StoreView {
    /// Whether a chunk with this id is stored.
    pub open spec fn has_chunk(self, id: u128) -> bool {
        exists|k: int| 0 <= k < self.chunks.len() && self.chunks[k].1.id.0 == id
    }

    /// The stored chunk with this id.
    pub open spec fn chunk(self, id: u128) -> ChunkView {
        self.chunks[choose|k: int| 0 <= k < self.chunks.len() && self.chunks[k].1.id.0 == id].1
    }

    /// The chunk holding the static data of `component` for `entity`, if any.
    pub open spec fn static_chunk_id(self, entity: Seq<char>, component: Seq<char>) -> Option<u128> {
        static_lookup(self.static_index, entity, component)
    }

    /// The invariants of a store: sound, and every stored chunk indexed.
    pub open spec fn wf(self) -> bool {
        self.sound() && self.complete()
    }

    /// Every stored temporal chunk has its temporal index entries, and every component of a
    /// stored static chunk has a static chunk for the chunk's entity.
    pub open spec fn complete(self) -> bool {
        &&& forall|k: int, x: TemporalKey|
            0 <= k < self.chunks.len() && #[trigger] added_temporal(self.chunks[k].1, x)
                ==> self.temporal_index.contains(x)
        &&& forall|k: int, ci: int|
            0 <= k < self.chunks.len() && self.chunks[k].1.timelines.len() == 0 && 0 <= ci
                < self.chunks[k].1.components.len() ==> self.static_chunk_id(
                self.chunks[k].1.entity_path,
                #[trigger] self.chunks[k].1.components[ci].0,
            ) is Some
    }

    /// The chunks are in order and distinct and each is sound; every index entry belongs to
    /// a stored chunk that it describes.
    pub open spec fn sound(self) -> bool {
        &&& forall|i: int, j: int|
            0 <= i < j < self.chunks.len() ==> pair_lt(
                self.chunks[i].0 as int,
                self.chunks[i].1.id.0 as int,
                self.chunks[j].0 as int,
                self.chunks[j].1.id.0 as int,
            )
        &&& forall|i: int, j: int|
            0 <= i < self.chunks.len() && 0 <= j < self.chunks.len() && i != j
                ==> self.chunks[i].1.id != self.chunks[j].1.id
        &&& forall|i: int|
            0 <= i < self.chunks.len() ==> {
                let c = #[trigger] self.chunks[i];
                &&& c.1.wf()
                &&& c.1.is_sorted
                &&& c.1.row_ids.len() > 0
                &&& c.0 == row_id_min(c.1.row_ids)
            }
        &&& static_keys_unique(self.static_index)
        &&& forall|i: int|
            0 <= i < self.static_index.len() ==> self.has_chunk(
                (#[trigger] self.static_index[i]).2,
            )
        &&& forall|i: int|
            0 <= i < self.static_index.len() ==> static_entry_stored(
                self.chunks,
                #[trigger] self.static_index[i],
            )
        &&& self.temporal_index.no_duplicates()
        &&& forall|i: int|
            0 <= i < self.temporal_index.len() ==> self.has_chunk(
                (#[trigger] self.temporal_index[i]).4,
            )
        &&& forall|i: int|
            0 <= i < self.temporal_index.len() ==> temporal_entry_stored(
                self.chunks,
                #[trigger] self.temporal_index[i],
            )
    }
}

/// A store of chunks, indexed per entity for latest-at and range queries.
#[derive(Debug)]
pub struct DataStore2 {
    pub(crate) id: StoreId,
    pub(crate) config: DataStoreConfig2,
    pub(crate) chunks: Vec<(RowId, Arc<Chunk>)>,
    pub(crate) static_index: Vec<StaticEntry>,
    pub(crate) temporal_index: Vec<TemporalEntry>,
    pub(crate) insert_id: u64,
    pub(crate) gc_id: u64,
    pub(crate) event_id: u64,
}

pub(crate) open spec fn chunks_view(s: Seq<(RowId, Arc<Chunk>)>) -> Seq<(u128, ChunkView)> {
    s.map_values(|c: (RowId, Arc<Chunk>)| (c.0.0, c.1@))
}

pub(crate) open spec fn static_index_view(s: Seq<StaticEntry>) -> Seq<StaticKey> {
    s.map_values(|e: StaticEntry| static_entry_view(e))
}

pub(crate) open spec fn temporal_index_view(s: Seq<TemporalEntry>) -> Seq<TemporalKey> {
    s.map_values(|e: TemporalEntry| temporal_entry_view(e))
}

impl View for DataStore2 {
    type V = StoreView;

    closed spec fn view(&self) -> StoreView {
        StoreView {
            id: self.id@,
            insert_id: self.insert_id,
            gc_id: self.gc_id,
            event_id: self.event_id,
            chunks: chunks_view(self.chunks@),
            static_index: static_index_view(self.static_index@),
            temporal_index: temporal_index_view(self.temporal_index@),
        }
    }
}

impl DataStore2 {
    /// An empty store.
    pub fn new(id: StoreId, config: DataStoreConfig2) -> (r: DataStore2)
        ensures
            r@.wf(),
            r@.id == id@,
            r@.insert_id == 0,
            r@.gc_id == 0,
            r@.event_id == 0,
            r@.chunks.len() == 0,
            r@.static_index.len() == 0,
            r@.temporal_index.len() == 0,
    {
        let r = DataStore2 {
            id,
            config,
            chunks: Vec::new(),
            static_index: Vec::new(),
            temporal_index: Vec::new(),
            insert_id: 0,
            gc_id: 0,
            event_id: 0,
        };
        proof {
            assert(r@.chunks =~= Seq::empty());
            assert(r@.static_index =~= Seq::empty());
            assert(r@.temporal_index =~= Seq::empty());
        }
        r
    }

    pub fn id(&self) -> (r: &StoreId)
        ensures
            r@ == self@.id,
    {
        &self.id
    }

    pub fn config(&self) -> (r: DataStoreConfig2)
        ensures
            r == (DataStoreConfig2 {  }),
    {
        self.config
    }

    /// The current generation: the number of insertions and of garbage collections.
    pub fn generation(&self) -> (r: StoreGeneration2)
        ensures
            r == (StoreGeneration2 { insert_id: self@.insert_id, gc_id: self@.gc_id }),
    {
        StoreGeneration2 { insert_id: self.insert_id, gc_id: self.gc_id }
    }

    /// The position of the chunk with this id, if it is stored.
    fn chunk_position(&self, id: ChunkId) -> (r: Option<usize>)
        ensures
            match r {
                Some(k) => k < self@.chunks.len() && self@.chunks[k as int].1.id == id,
                None => !self@.has_chunk(id.0),
            },
    {
        let n = self.chunks.len();
        let mut k: usize = 0;
        while k < n
            invariant
                n == self@.chunks.len(),
                k <= n,
                forall|j: int| 0 <= j < k ==> self@.chunks[j].1.id != id,
            decreases n - k,
        {
            proof {
                assert(self@.chunks[k as int].1 == self.chunks@[k as int].1@);
            }
            if self.chunks[k].1.id().0 == id.0 {
                return Some(k);
            }
            k = k + 1;
        }
        None
    }

    /// The stored chunk with this id, if any.
    pub fn chunk(&self, id: ChunkId) -> (r: Option<Arc<Chunk>>)
        requires
            self@.wf(),
        ensures
            match r {
                Some(c) => self@.has_chunk(id.0) && c@ == self@.chunk(id.0),
                None => !self@.has_chunk(id.0),
            },
    {
        match self.chunk_position(id) {
            Some(k) => {
                proof {
                    let j = choose|j: int|
                        0 <= j < self@.chunks.len() && self@.chunks[j].1.id.0 == id.0;
                    assert(j == k);
                    assert(self@.chunks[k as int].1 == self.chunks@[k as int].1@);
                }
                Some(self.chunks[k].1.clone())
            },
            None => None,
        }
    }
}


impl DataStore2 {
    /// Inserts a chunk. Inserting a chunk whose id is already stored has no effect and
    /// returns `Ok(None)`; an unsorted chunk is refused. Otherwise the chunk is stored and
    /// indexed: a static chunk becomes the static chunk of each of its components, a
    /// temporal chunk is indexed for each component and timeline by the start of that
    /// timeline's range. Returns the addition event.
    pub fn insert_chunk(&mut self, chunk: &Arc<Chunk>) -> (r: Result<Option<StoreEvent2>, WriteError>)
        requires
            old(self)@.wf(),
            chunk@.wf(),
            !old(self)@.has_chunk(chunk@.id.0) && chunk@.is_sorted ==> {
                &&& chunk@.row_ids.len() > 0
                &&& old(self)@.insert_id < u64::MAX
                &&& old(self)@.event_id < u64::MAX
            },
        ensures
            final(self)@.wf(),
            old(self)@.has_chunk(chunk@.id.0) ==> (r matches Ok(None) && final(self)@ == old(self)@),
            !old(self)@.has_chunk(chunk@.id.0) && !chunk@.is_sorted ==> r == Err::<
                Option<StoreEvent2>,
                WriteError,
            >(WriteError::UnsortedChunk) && final(self)@ == old(self)@,
            !old(self)@.has_chunk(chunk@.id.0) && chunk@.is_sorted ==> {
                let o = old(self)@;
                let s = final(self)@;
                &&& r matches Ok(Some(ev))
                &&& ev.store_id@ == o.id
                &&& ev.store_generation == StoreGeneration2 {
                    insert_id: (o.insert_id + 1) as u64,
                    gc_id: o.gc_id,
                }
                &&& ev.event_id == o.event_id
                &&& ev.diff.kind == StoreDiffKind2::Addition
                &&& ev.diff.chunk@ == chunk@
                &&& o.stores(chunk@, s)
            },
    {
        let ghost o = self@;
        let id = chunk.id();
        if self.chunk_position(id).is_some() {
            return Ok(None);
        }
        if !chunk.is_sorted() {
            return Err(WriteError::UnsortedChunk);
        }
        self.insert_id = self.insert_id + 1;
        let (row_id_min_, _row_id_max) = chunk.row_id_range();
        self.insert_sorted(row_id_min_, chunk);
        let ghost mid = self@;
        proof {
            assert forall|i: int| 0 <= i < mid.temporal_index.len() implies mid.temporal_index[i].4
                != chunk@.id.0 by {
                assert(o.has_chunk(o.temporal_index[i].4));
            }
        }
        if chunk.is_static() {
            self.index_static(chunk);
            proof {
                assert forall|e: Seq<char>, c: Seq<char>|
                    self@.static_chunk_id(e, c) == static_after_insert(o, chunk@, e, c) by {
                    assert(static_after_insert(mid, chunk@, e, c) == static_after_insert(o, chunk@, e, c));
                }
            }
        } else {
            self.index_temporal(chunk);
        }
        let event = StoreEvent2 {
            store_id: self.id.duplicate(),
            store_generation: self.generation(),
            event_id: self.event_id,
            diff: StoreDiff2::addition(chunk.clone()),
        };
        self.event_id = self.event_id + 1;
        proof {
            lemma_stores_complete(o, chunk@, self@);
        }
        Ok(Some(event))
    }

    /// Stores a chunk at its place in (smallest row id, chunk id) order.
    fn insert_sorted(&mut self, row_id_min_: RowId, chunk: &Arc<Chunk>)
        requires
            old(self)@.sound(),
            chunk@.wf(),
            chunk@.is_sorted,
            chunk@.row_ids.len() > 0,
            row_id_min_.0 == row_id_min(chunk@.row_ids),
            !old(self)@.has_chunk(chunk@.id.0),
        ensures
            final(self)@ == (StoreView { chunks: final(self)@.chunks, ..old(self)@ }),
            final(self)@.chunks.len() == old(self)@.chunks.len() + 1,
            exists|p: int|
                0 <= p <= old(self)@.chunks.len() && final(self)@.chunks == old(self)@.chunks.insert(
                    p,
                    (row_id_min(chunk@.row_ids), chunk@),
                ),
            forall|x: (u128, ChunkView)|
                final(self)@.chunks.contains(x) <==> (old(self)@.chunks.contains(x) || x == (
                    row_id_min(chunk@.row_ids),
                    chunk@,
                )),
            final(self)@.sound(),
            final(self)@.has_chunk(chunk@.id.0),
            forall|id: u128| old(self)@.has_chunk(id) ==> final(self)@.has_chunk(id),
    {
        let ghost o = self@;
        let key_row = row_id_min_.0;
        let key_id = chunk.id().0;
        let n = self.chunks.len();
        let mut p: usize = 0;
        while p < n
            invariant
                n == o.chunks.len(),
                o == self@,
                p <= n,
                forall|j: int|
                    0 <= j < p ==> !pair_lt(
                        key_row as int,
                        key_id as int,
                        o.chunks[j].0 as int,
                        o.chunks[j].1.id.0 as int,
                    ),
            ensures
                p <= n,
                forall|j: int|
                    0 <= j < p ==> !pair_lt(
                        key_row as int,
                        key_id as int,
                        o.chunks[j].0 as int,
                        o.chunks[j].1.id.0 as int,
                    ),
                p < n ==> pair_lt(
                    key_row as int,
                    key_id as int,
                    o.chunks[p as int].0 as int,
                    o.chunks[p as int].1.id.0 as int,
                ),
            decreases n - p,
        {
            proof {
                assert(o.chunks[p as int] == (self.chunks@[p as int].0.0, self.chunks@[p as int].1@));
            }
            let r = self.chunks[p].0.0;
            let i = self.chunks[p].1.id().0;
            if key_row < r || (key_row == r && key_id < i) {
                break;
            }
            p = p + 1;
        }
        self.chunks.insert(p, (row_id_min_, chunk.clone()));
        let ghost x = (row_id_min(chunk@.row_ids), chunk@);
        proof {
            assert(self@.chunks =~= o.chunks.insert(p as int, x));
            let s = self@.chunks;
            assert forall|j: int| 0 <= j < p implies pair_lt(
                s[j].0 as int,
                s[j].1.id.0 as int,
                key_row as int,
                key_id as int,
            ) by {
                assert(s[j] == o.chunks[j]);
                assert(o.chunks[j].1.id.0 != key_id);
            }
            if p < n {
                assert(pair_lt(key_row as int, key_id as int, o.chunks[p as int].0 as int, o.chunks[p as int].1.id.0 as int));
            }
            assert forall|i: int, j: int| 0 <= i < j < s.len() implies pair_lt(
                s[i].0 as int,
                s[i].1.id.0 as int,
                s[j].0 as int,
                s[j].1.id.0 as int,
            ) by {
                if j < p {
                } else if j == p {
                } else if i < p {
                    assert(s[j] == o.chunks[j - 1]);
                    if p < n {
                        assert(pair_lt(key_row as int, key_id as int, o.chunks[p as int].0 as int, o.chunks[p as int].1.id.0 as int));
                        if j - 1 > p {
                            assert(pair_lt(o.chunks[p as int].0 as int, o.chunks[p as int].1.id.0 as int, o.chunks[j - 1].0 as int, o.chunks[j - 1].1.id.0 as int));
                        }
                    }
                } else if i == p {
                    assert(s[j] == o.chunks[j - 1]);
                    if j - 1 > p {
                        assert(pair_lt(o.chunks[p as int].0 as int, o.chunks[p as int].1.id.0 as int, o.chunks[j - 1].0 as int, o.chunks[j - 1].1.id.0 as int));
                    }
                } else {
                    assert(s[i] == o.chunks[i - 1]);
                    assert(s[j] == o.chunks[j - 1]);
                }
            }
            assert forall|i: int, j: int|
                0 <= i < s.len() && 0 <= j < s.len() && i != j implies s[i].1.id != s[j].1.id by {
                if i == p {
                    if j < p {
                        assert(s[j] == o.chunks[j]);
                    } else {
                        assert(s[j] == o.chunks[j - 1]);
                    }
                } else if j == p {
                    if i < p {
                        assert(s[i] == o.chunks[i]);
                    } else {
                        assert(s[i] == o.chunks[i - 1]);
                    }
                } else {
                    let ii = if i < p { i } else { i - 1 };
                    let jj = if j < p { j } else { j - 1 };
                    assert(s[i] == o.chunks[ii]);
                    assert(s[j] == o.chunks[jj]);
                }
            }
            assert forall|i: int| 0 <= i < s.len() implies {
                let c = #[trigger] s[i];
                &&& c.1.wf()
                &&& c.1.is_sorted
                &&& c.1.row_ids.len() > 0
                &&& c.0 == row_id_min(c.1.row_ids)
            } by {
                if i < p {
                    assert(s[i] == o.chunks[i]);
                } else if i > p {
                    assert(s[i] == o.chunks[i - 1]);
                }
            }
            assert forall|id: u128| o.has_chunk(id) implies self@.has_chunk(id) by {
                let k = choose|k: int| 0 <= k < o.chunks.len() && o.chunks[k].1.id.0 == id;
                if k < p {
                    assert(s[k] == o.chunks[k]);
                } else {
                    assert(s[k + 1] == o.chunks[k]);
                }
            }
            assert(s[p as int] == x);
            assert forall|y: (u128, ChunkView)| s.contains(y) <==> (o.chunks.contains(y) || y == x) by {
                if s.contains(y) {
                    let k = choose|k: int| 0 <= k < s.len() && s[k] == y;
                    if k < p {
                        assert(o.chunks[k] == y);
                    } else if k > p {
                        assert(o.chunks[k - 1] == y);
                    }
                }
                if o.chunks.contains(y) {
                    let k = choose|k: int| 0 <= k < o.chunks.len() && o.chunks[k] == y;
                    if k < p {
                        assert(s[k] == y);
                    } else {
                        assert(s[k + 1] == y);
                    }
                }
            }
            assert forall|i: int| 0 <= i < self@.static_index.len() implies self@.has_chunk(
                (#[trigger] self@.static_index[i]).2,
            ) by {
                assert(o.has_chunk(o.static_index[i].2));
            }
            assert forall|i: int| 0 <= i < self@.temporal_index.len() implies self@.has_chunk(
                (#[trigger] self@.temporal_index[i]).4,
            ) by {
                assert(o.has_chunk(o.temporal_index[i].4));
            }
            assert forall|i: int| 0 <= i < self@.static_index.len() implies static_entry_stored(
                s,
                #[trigger] self@.static_index[i],
            ) by {
                let y = o.static_index[i];
                assert(static_entry_stored(o.chunks, y));
                let k = choose|k: int|
                    0 <= k < o.chunks.len() && o.chunks[k].1.id.0 == y.2 && added_static(o.chunks[k].1, y);
                if k < p {
                    assert(s[k] == o.chunks[k]);
                } else {
                    assert(s[k + 1] == o.chunks[k]);
                }
            }
            assert forall|i: int| 0 <= i < self@.temporal_index.len() implies temporal_entry_stored(
                s,
                #[trigger] self@.temporal_index[i],
            ) by {
                let y = o.temporal_index[i];
                assert(temporal_entry_stored(o.chunks, y));
                let k = choose|k: int|
                    0 <= k < o.chunks.len() && o.chunks[k].1.id.0 == y.4 && added_temporal(o.chunks[k].1, y);
                if k < p {
                    assert(s[k] == o.chunks[k]);
                } else {
                    assert(s[k + 1] == o.chunks[k]);
                }
            }
        }
    }
}


/// Writing an entry for a key of the index changes the lookup of that key only.
proof fn lemma_static_update(idx: Seq<StaticKey>, k: int, x: StaticKey, e: Seq<char>, c: Seq<char>)
    requires
        static_keys_unique(idx),
        0 <= k < idx.len(),
        idx[k].0 == x.0 && idx[k].1 == x.1,
    ensures
        static_keys_unique(idx.update(k, x)),
        static_lookup(idx.update(k, x), e, c) == (if e == x.0 && c == x.1 {
            Some(x.2)
        } else {
            static_lookup(idx, e, c)
        }),
{
    let u = idx.update(k, x);
    assert forall|i: int, j: int| 0 <= i < j < u.len() implies !(u[i].0 == u[j].0 && u[i].1 == u[j].1) by {
        assert(!(idx[i].0 == idx[j].0 && idx[i].1 == idx[j].1));
    }
    if e == x.0 && c == x.1 {
        lemma_static_lookup_at(u, e, c, k);
    } else if exists|m: int| 0 <= m < idx.len() && idx[m].0 == e && idx[m].1 == c {
        let m = choose|m: int| 0 <= m < idx.len() && idx[m].0 == e && idx[m].1 == c;
        lemma_static_lookup_at(idx, e, c, m);
        lemma_static_lookup_at(u, e, c, m);
    } else {
        assert(!exists|m: int| 0 <= m < u.len() && u[m].0 == e && u[m].1 == c) by {
            if exists|m: int| 0 <= m < u.len() && u[m].0 == e && u[m].1 == c {
                let m = choose|m: int| 0 <= m < u.len() && u[m].0 == e && u[m].1 == c;
                assert(idx[m].0 == e && idx[m].1 == c);
            }
        }
    }
}

/// Appending an entry for a new key of the index changes the lookup of that key only.
proof fn lemma_static_push(idx: Seq<StaticKey>, x: StaticKey, e: Seq<char>, c: Seq<char>)
    requires
        static_keys_unique(idx),
        static_lookup(idx, x.0, x.1) is None,
    ensures
        static_keys_unique(idx.push(x)),
        static_lookup(idx.push(x), e, c) == (if e == x.0 && c == x.1 {
            Some(x.2)
        } else {
            static_lookup(idx, e, c)
        }),
{
    let u = idx.push(x);
    assert forall|i: int, j: int| 0 <= i < j < u.len() implies !(u[i].0 == u[j].0 && u[i].1 == u[j].1) by {
        if j == idx.len() {
            assert(u[i] == idx[i]);
        } else {
            assert(!(idx[i].0 == idx[j].0 && idx[i].1 == idx[j].1));
        }
    }
    if e == x.0 && c == x.1 {
        lemma_static_lookup_at(u, e, c, idx.len() as int);
    } else if exists|m: int| 0 <= m < idx.len() && idx[m].0 == e && idx[m].1 == c {
        let m = choose|m: int| 0 <= m < idx.len() && idx[m].0 == e && idx[m].1 == c;
        lemma_static_lookup_at(idx, e, c, m);
        lemma_static_lookup_at(u, e, c, m);
    } else {
        assert(!exists|m: int| 0 <= m < u.len() && u[m].0 == e && u[m].1 == c) by {
            if exists|m: int| 0 <= m < u.len() && u[m].0 == e && u[m].1 == c {
                let m = choose|m: int| 0 <= m < u.len() && u[m].0 == e && u[m].1 == c;
                assert(m < idx.len());
                assert(idx[m].0 == e && idx[m].1 == c);
            }
        }
    }
}

impl DataStore2 {
    /// The position of the static index entry for `(entity, component)`, if any.
    fn static_position(&self, entity: &EntityPath, component: &ComponentName) -> (r: Option<usize>)
        ensures
            match r {
                Some(k) => k < self@.static_index.len() && self@.static_index[k as int].0
                    == entity@ && self@.static_index[k as int].1 == component@,
                None => forall|k: int|
                    0 <= k < self@.static_index.len() ==> !(self@.static_index[k].0 == entity@
                        && self@.static_index[k].1 == component@),
            },
    {
        let n = self.static_index.len();
        let mut k: usize = 0;
        while k < n
            invariant
                n == self@.static_index.len(),
                k <= n,
                forall|j: int|
                    0 <= j < k ==> !(self@.static_index[j].0 == entity@
                        && self@.static_index[j].1 == component@),
            decreases n - k,
        {
            let e = &self.static_index[k];
            proof {
                assert(self@.static_index[k as int] == static_entry_view(self.static_index@[k as int]));
            }
            if e.entity.same(entity) && e.component.same(component) {
                return Some(k);
            }
            k = k + 1;
        }
        None
    }

    /// Makes `chunk` the static chunk of each of its components.
    fn index_static(&mut self, chunk: &Arc<Chunk>)
        requires
            old(self)@.sound(),
            old(self)@.has_chunk(chunk@.id.0),
            old(self)@.chunks.contains((row_id_min(chunk@.row_ids), chunk@)),
            chunk@.timelines.len() == 0,
        ensures
            final(self)@ == (StoreView { static_index: final(self)@.static_index, ..old(self)@ }),
            final(self)@.sound(),
            forall|e: Seq<char>, c: Seq<char>|
                final(self)@.static_chunk_id(e, c) == static_after_insert(old(self)@, chunk@, e, c),
    {
        let ghost o = self@;
        let id = chunk.id();
        let entity = chunk.entity_path();
        let comps = chunk.components();
        let nc = comps.len();
        let mut ci: usize = 0;
        while ci < nc
            invariant
                nc == chunk@.components.len(),
                crate::chunk::components_view(comps@) == chunk@.components,
                entity@ == chunk@.entity_path,
                id == chunk@.id,
                ci <= nc,
                self@ == (StoreView { static_index: self@.static_index, ..o }),
                o.sound(),
                o.has_chunk(id.0),
                static_keys_unique(self@.static_index),
                forall|i: int|
                    0 <= i < self@.static_index.len() ==> o.has_chunk(
                        (#[trigger] self@.static_index[i]).2,
                    ),
                forall|i: int|
                    0 <= i < self@.static_index.len() ==> static_entry_stored(
                        o.chunks,
                        #[trigger] self@.static_index[i],
                    ),
                o.chunks.contains((row_id_min(chunk@.row_ids), chunk@)),
                chunk@.timelines.len() == 0,
                forall|e: Seq<char>, c: Seq<char>|
                    static_lookup(self@.static_index, e, c) == (if e == entity@ && exists|cj: int|
                        0 <= cj < ci && chunk@.components[cj].0 == c {
                        Some(id.0)
                    } else {
                        o.static_chunk_id(e, c)
                    }),
            decreases nc - ci,
        {
            let name = &comps[ci].0;
            proof {
                assert(chunk@.components[ci as int].0 == name@);
            }
            let ghost before = self@.static_index;
            let entry = StaticEntry {
                entity: entity.duplicate(),
                component: name.duplicate(),
                chunk_id: id,
            };
            let ghost x = static_entry_view(entry);
            proof {
                let k = choose|k: int|
                    0 <= k < o.chunks.len() && o.chunks[k] == (row_id_min(chunk@.row_ids), chunk@);
                assert(added_static(o.chunks[k].1, x));
                assert(static_entry_stored(o.chunks, x));
            }
            match self.static_position(entity, name) {
                Some(k) => {
                    self.static_index.set(k, entry);
                    proof {
                        assert(self@.static_index =~= before.update(k as int, x));
                        assert forall|e: Seq<char>, c: Seq<char>| static_lookup(self@.static_index, e, c)
                            == (if e == entity@ && exists|cj: int|
                            0 <= cj < ci + 1 && chunk@.components[cj].0 == c {
                            Some(id.0)
                        } else {
                            o.static_chunk_id(e, c)
                        }) by {
                            lemma_static_update(before, k as int, x, e, c);
                            if e == entity@ && c == name@ {
                                assert(chunk@.components[ci as int].0 == c);
                            }
                        }
                    }
                },
                None => {
                    proof {
                        assert(!exists|m: int|
                            0 <= m < before.len() && before[m].0 == x.0 && before[m].1 == x.1);
                    }
                    self.static_index.push(entry);
                    proof {
                        assert(self@.static_index =~= before.push(x));
                        assert forall|e: Seq<char>, c: Seq<char>| static_lookup(self@.static_index, e, c)
                            == (if e == entity@ && exists|cj: int|
                            0 <= cj < ci + 1 && chunk@.components[cj].0 == c {
                            Some(id.0)
                        } else {
                            o.static_chunk_id(e, c)
                        }) by {
                            lemma_static_push(before, x, e, c);
                            if e == entity@ && c == name@ {
                                assert(chunk@.components[ci as int].0 == c);
                            }
                        }
                    }
                },
            }
            proof {
                assert forall|i: int| 0 <= i < self@.static_index.len() implies o.has_chunk(
                    (#[trigger] self@.static_index[i]).2,
                ) by {
                    if i < before.len() && self@.static_index[i] == before[i] {
                    }
                }
                assert forall|i: int| 0 <= i < self@.static_index.len() implies static_entry_stored(
                    o.chunks,
                    #[trigger] self@.static_index[i],
                ) by {
                    if i < before.len() && self@.static_index[i] == before[i] {
                    }
                }
            }
            ci = ci + 1;
        }
        proof {
            assert(self@.chunks == o.chunks);
            assert forall|i: int| 0 <= i < self@.static_index.len() implies self@.has_chunk(
                (#[trigger] self@.static_index[i]).2,
            ) by {
                assert(o.has_chunk(self@.static_index[i].2));
            }
            assert forall|i: int| 0 <= i < self@.temporal_index.len() implies temporal_entry_stored(
                self@.chunks,
                #[trigger] self@.temporal_index[i],
            ) by {
                assert(temporal_entry_stored(o.chunks, o.temporal_index[i]));
            }
        }
    }

    /// Indexes `chunk` for each of its components and timelines, by the start of the
    /// timeline's range.
    fn index_temporal(&mut self, chunk: &Arc<Chunk>)
        requires
            old(self)@.sound(),
            old(self)@.has_chunk(chunk@.id.0),
            old(self)@.chunks.contains((row_id_min(chunk@.row_ids), chunk@)),
            chunk@.wf(),
            forall|i: int| 0 <= i < old(self)@.temporal_index.len() ==> old(self)@.temporal_index[i].4 != chunk@.id.0,
        ensures
            final(self)@ == (StoreView { temporal_index: final(self)@.temporal_index, ..old(self)@ }),
            final(self)@.sound(),
            forall|x: TemporalKey|
                #[trigger] final(self)@.temporal_index.contains(x) <==> (old(self)@.temporal_index.contains(x)
                    || added_temporal(chunk@, x)),
    {
        let ghost o = self@;
        let ghost cv = chunk@;
        let id = chunk.id();
        let entity = chunk.entity_path();
        let comps = chunk.components();
        let tls = chunk.timelines();
        let nc = comps.len();
        let nt = tls.len();
        let mut ci: usize = 0;
        while ci < nc
            invariant
                nc == cv.components.len(),
                nt == cv.timelines.len(),
                cv == chunk@,
                cv.wf(),
                crate::chunk::components_view(comps@) == cv.components,
                crate::chunk::timelines_view(tls@) == cv.timelines,
                entity@ == cv.entity_path,
                id == cv.id,
                ci <= nc,
                self@ == (StoreView { temporal_index: self@.temporal_index, ..o }),
                o.sound(),
                o.has_chunk(id.0),
                forall|i: int| 0 <= i < o.temporal_index.len() ==> o.temporal_index[i].4 != id.0,
                self@.temporal_index.no_duplicates(),
                forall|x: TemporalKey|
                    #[trigger] self@.temporal_index.contains(x) <==> (o.temporal_index.contains(x) || (
                    added_temporal(cv, x) && exists|cj: int|
                        0 <= cj < ci && x.1 == cv.components[cj].0)),
            decreases nc - ci,
        {
            let name = &comps[ci].0;
            proof {
                assert(cv.components[ci as int].0 == name@);
            }
            let mut ti: usize = 0;
            proof {
                assert forall|x: TemporalKey|
                    #[trigger] self@.temporal_index.contains(x) <==> (o.temporal_index.contains(x) || (
                    added_temporal(cv, x) && ((exists|cj: int|
                        0 <= cj < ci && x.1 == cv.components[cj].0) || (x.1 == name@
                        && exists|tj: int|
                        0 <= tj < ti && x.2 == cv.timelines[tj].timeline
                            && x.3 == cv.timelines[tj].time_range.min.0)))) by {
                    assert(self@.temporal_index.contains(x) <==> (o.temporal_index.contains(x) || (
                        added_temporal(cv, x) && exists|cj: int|
                            0 <= cj < ci && x.1 == cv.components[cj].0)));
                    assert(!(exists|tj: int|
                        0 <= tj < ti && x.2 == cv.timelines[tj].timeline
                            && x.3 == cv.timelines[tj].time_range.min.0));
                }
            }
            while ti < nt
                invariant
                    nc == cv.components.len(),
                    nt == cv.timelines.len(),
                    cv == chunk@,
                    cv.wf(),
                    crate::chunk::timelines_view(tls@) == cv.timelines,
                    entity@ == cv.entity_path,
                    id == cv.id,
                    ci < nc,
                    ti <= nt,
                    name@ == cv.components[ci as int].0,
                    self@ == (StoreView { temporal_index: self@.temporal_index, ..o }),
                    o.sound(),
                    o.has_chunk(id.0),
                    forall|i: int| 0 <= i < o.temporal_index.len() ==> o.temporal_index[i].4 != id.0,
                    self@.temporal_index.no_duplicates(),
                    forall|x: TemporalKey|
                        #[trigger] self@.temporal_index.contains(x) <==> (o.temporal_index.contains(x) || (
                        added_temporal(cv, x) && ((exists|cj: int|
                            0 <= cj < ci && x.1 == cv.components[cj].0) || (x.1 == name@
                            && exists|tj: int|
                            0 <= tj < ti && x.2 == cv.timelines[tj].timeline
                                && x.3 == cv.timelines[tj].time_range.min.0)))),
                decreases nt - ti,
            {
                let tl = &tls[ti];
                proof {
                    assert(cv.timelines[ti as int] == tl@);
                }
                let entry = TemporalEntry {
                    entity: entity.duplicate(),
                    component: name.duplicate(),
                    timeline: tl.timeline().duplicate(),
                    start: tl.time_range().min,
                    chunk_id: id,
                };
                let ghost x = temporal_entry_view(entry);
                let ghost before = self@.temporal_index;
                proof {
                    assert(added_temporal(cv, x));
                    assert(!before.contains(x)) by {
                        if before.contains(x) {
                            if o.temporal_index.contains(x) {
                                let k = choose|k: int| 0 <= k < o.temporal_index.len() && o.temporal_index[k] == x;
                                assert(o.temporal_index[k].4 != id.0);
                            } else if exists|cj: int| 0 <= cj < ci && x.1 == cv.components[cj].0 {
                                let cj = choose|cj: int| 0 <= cj < ci && x.1 == cv.components[cj].0;
                                assert(cv.components[cj].0 != cv.components[ci as int].0);
                            } else {
                                let tj = choose|tj: int|
                                    0 <= tj < ti && x.2 == cv.timelines[tj].timeline
                                        && x.3 == cv.timelines[tj].time_range.min.0;
                                assert(cv.timelines[tj].timeline != cv.timelines[ti as int].timeline);
                            }
                        }
                    }
                }
                self.temporal_index.push(entry);
                proof {
                    assert(self@.temporal_index =~= before.push(x));
                    let s = self@.temporal_index;
                    assert forall|i: int, j: int| 0 <= i < s.len() && 0 <= j < s.len() && i != j implies s[i] != s[j] by {
                        if i == before.len() {
                            assert(s[j] == before[j]);
                        } else if j == before.len() {
                            assert(s[i] == before[i]);
                        } else {
                            assert(s[i] == before[i] && s[j] == before[j]);
                        }
                    }
                    assert forall|y: TemporalKey| s.contains(y) <==> (o.temporal_index.contains(y) || (
                        added_temporal(cv, y) && ((exists|cj: int|
                            0 <= cj < ci && y.1 == cv.components[cj].0) || (y.1 == name@
                            && exists|tj: int|
                            0 <= tj < ti + 1 && y.2 == cv.timelines[tj].timeline
                                && y.3 == cv.timelines[tj].time_range.min.0)))) by {
                        if s.contains(y) && y != x {
                            let k = choose|k: int| 0 <= k < s.len() && s[k] == y;
                            assert(before[k] == y);
                        }
                        if before.contains(y) {
                            let k = choose|k: int| 0 <= k < before.len() && before[k] == y;
                            assert(s[k] == y);
                        }
                        if y == x {
                            assert(s[before.len() as int] == x);
                        }
                        if y.1 == name@ && exists|tj: int|
                            0 <= tj < ti + 1 && y.2 == cv.timelines[tj].timeline
                                && y.3 == cv.timelines[tj].time_range.min.0 {
                            let tj = choose|tj: int|
                                0 <= tj < ti + 1 && y.2 == cv.timelines[tj].timeline
                                    && y.3 == cv.timelines[tj].time_range.min.0;
                            if tj == ti && added_temporal(cv, y) {
                                assert(y == x);
                            }
                        }
                    }
                }
                ti = ti + 1;
            }
            proof {
                assert forall|y: TemporalKey| self@.temporal_index.contains(y) <==> (o.temporal_index.contains(y) || (
                    added_temporal(cv, y) && exists|cj: int|
                        0 <= cj < ci + 1 && y.1 == cv.components[cj].0)) by {
                    let a = exists|cj: int| 0 <= cj < ci && y.1 == cv.components[cj].0;
                    let b = y.1 == name@ && exists|tj: int|
                        0 <= tj < nt && y.2 == cv.timelines[tj].timeline
                            && y.3 == cv.timelines[tj].time_range.min.0;
                    let c = exists|cj: int| 0 <= cj < ci + 1 && y.1 == cv.components[cj].0;
                    if added_temporal(cv, y) {
                        if y.1 == name@ {
                            let (ck, tk) = choose|ck: int, tk: int|
                                0 <= ck < cv.components.len() && 0 <= tk < cv.timelines.len() && y.1 == cv.components[ck].0
                                    && y.2 == cv.timelines[tk].timeline && y.3 == cv.timelines[tk].time_range.min.0;
                            assert(0 <= tk < nt && y.2 == cv.timelines[tk].timeline
                                && y.3 == cv.timelines[tk].time_range.min.0);
                            assert(b);
                            assert(y.1 == cv.components[ci as int].0);
                            assert(c);
                        }
                        if a {
                            let cj = choose|cj: int| 0 <= cj < ci && y.1 == cv.components[cj].0;
                            assert(0 <= cj < ci + 1 && y.1 == cv.components[cj].0);
                            assert(c);
                        }
                        if c {
                            let cj = choose|cj: int| 0 <= cj < ci + 1 && y.1 == cv.components[cj].0;
                            if cj < ci {
                                assert(a);
                            } else {
                                assert(y.1 == name@);
                            }
                        }
                        assert((a || b) <==> c);
                    }
                }
            }
            ci = ci + 1;
        }
        proof {
            assert forall|y: TemporalKey| self@.temporal_index.contains(y) <==> (o.temporal_index.contains(y)
                || added_temporal(cv, y)) by {
                if added_temporal(cv, y) {
                    let (ck, tk) = choose|ck: int, tk: int|
                        0 <= ck < cv.components.len() && 0 <= tk < cv.timelines.len() && y.1 == cv.components[ck].0
                            && y.2 == cv.timelines[tk].timeline && y.3 == cv.timelines[tk].time_range.min.0;
                    assert(exists|cj: int| 0 <= cj < nc && y.1 == cv.components[cj].0);
                }
            }
            assert(self@.chunks == o.chunks);
            assert forall|i: int| 0 <= i < self@.temporal_index.len() implies self@.has_chunk(
                (#[trigger] self@.temporal_index[i]).4,
            ) by {
                let y = self@.temporal_index[i];
                assert(self@.temporal_index.contains(y));
                if o.temporal_index.contains(y) {
                    let k = choose|k: int| 0 <= k < o.temporal_index.len() && o.temporal_index[k] == y;
                    assert(o.has_chunk(o.temporal_index[k].4));
                }
            }
            assert forall|i: int| 0 <= i < self@.temporal_index.len() implies temporal_entry_stored(
                self@.chunks,
                #[trigger] self@.temporal_index[i],
            ) by {
                let y = self@.temporal_index[i];
                assert(self@.temporal_index.contains(y));
                if o.temporal_index.contains(y) {
                    let k = choose|k: int| 0 <= k < o.temporal_index.len() && o.temporal_index[k] == y;
                    assert(temporal_entry_stored(o.chunks, o.temporal_index[k]));
                } else {
                    let k = choose|k: int|
                        0 <= k < o.chunks.len() && o.chunks[k] == (row_id_min(cv.row_ids), cv);
                    assert(o.chunks[k].1.id.0 == y.4 && added_temporal(o.chunks[k].1, y));
                }
            }
            assert forall|i: int| 0 <= i < self@.static_index.len() implies static_entry_stored(
                self@.chunks,
                #[trigger] self@.static_index[i],
            ) by {
                assert(static_entry_stored(o.chunks, o.static_index[i]));
            }
        }
    }
}


// --- Queries ---

/// Strictly increasing by (time, chunk id).
pub open spec fn pairs_sorted(s: Seq<(i64, u128)>) -> bool {
    forall|i: int, j: int|
        0 <= i < j < s.len() ==> pair_lt(s[i].0 as int, s[i].1 as int, s[j].0 as int, s[j].1 as int)
}

/// Inserts `x` at its place in a strictly increasing sequence that lacks it.
fn insert_pair_sorted(v: &mut Vec<(i64, u128)>, x: (i64, u128))
    requires
        pairs_sorted(old(v)@),
        !old(v)@.contains(x),
    ensures
        pairs_sorted(final(v)@),
        final(v)@.len() == old(v)@.len() + 1,
        forall|y: (i64, u128)| #[trigger] final(v)@.contains(y) <==> (old(v)@.contains(y) || y == x),
{
    let ghost o = v@;
    let n = v.len();
    let mut p: usize = 0;
    while p < n
        invariant
            n == o.len(),
            o == v@,
            p <= n,
            !o.contains(x),
            forall|j: int| 0 <= j < p ==> pair_lt(o[j].0 as int, o[j].1 as int, x.0 as int, x.1 as int),
        ensures
            p <= n,
            forall|j: int| 0 <= j < p ==> pair_lt(o[j].0 as int, o[j].1 as int, x.0 as int, x.1 as int),
            p < n ==> pair_lt(x.0 as int, x.1 as int, o[p as int].0 as int, o[p as int].1 as int),
        decreases n - p,
    {
        let y = v[p];
        if x.0 < y.0 || (x.0 == y.0 && x.1 < y.1) {
            break;
        }
        proof {
            assert(o.contains(o[p as int]));
            assert(o[p as int] != x);
        }
        p = p + 1;
    }
    v.insert(p, x);
    proof {
        let s = v@;
        assert(s =~= o.insert(p as int, x));
        assert forall|i: int, j: int| 0 <= i < j < s.len() implies pair_lt(
            s[i].0 as int,
            s[i].1 as int,
            s[j].0 as int,
            s[j].1 as int,
        ) by {
            if j < p {
            } else if j == p {
            } else if i < p {
                assert(s[j] == o[j - 1]);
                if j - 1 > p {
                    assert(pair_lt(o[p as int].0 as int, o[p as int].1 as int, o[j - 1].0 as int, o[j - 1].1 as int));
                }
            } else if i == p {
                assert(s[j] == o[j - 1]);
                if j - 1 > p {
                    assert(pair_lt(o[p as int].0 as int, o[p as int].1 as int, o[j - 1].0 as int, o[j - 1].1 as int));
                }
            } else {
                assert(s[i] == o[i - 1]);
                assert(s[j] == o[j - 1]);
            }
        }
        assert forall|y: (i64, u128)| #[trigger] s.contains(y) <==> (o.contains(y) || y == x) by {
            if s.contains(y) {
                let k = choose|k: int| 0 <= k < s.len() && s[k] == y;
                if k < p {
                    assert(o[k] == y);
                } else if k > p {
                    assert(o[k - 1] == y);
                }
            }
            if o.contains(y) {
                let k = choose|k: int| 0 <= k < o.len() && o[k] == y;
                if k < p {
                    assert(s[k] == y);
                } else {
                    assert(s[k + 1] == y);
                }
            }
            if y == x {
                assert(s[p as int] == x);
            }
        }
    }
}

pub open spec fn arcs_view(s: Seq<Arc<Chunk>>) -> Seq<ChunkView> {
    s.map_values(|a: Arc<Chunk>| a@)
}

impl StoreView {
    /// `r` answers a latest-at query from the temporal index: empty when no entry starts at or
    /// before `at`; otherwise the chunks of the entries with the largest such start, by
    /// ascending id.
    pub open spec fn latest_at_answer(
        self,
        e: Seq<char>,
        c: Seq<char>,
        tl: (Seq<char>, TimeType),
        at: i64,
        r: Seq<ChunkView>,
    ) -> bool {
        &&& (r.len() == 0 ==> forall|x: TemporalKey| !self.latest_entry(e, c, tl, at, x))
        &&& (forall|x: TemporalKey| !self.latest_entry(e, c, tl, at, x)) ==> r.len() == 0
        &&& forall|i: int, j: int| 0 <= i < j < r.len() ==> r[i].id.0 < r[j].id.0
        &&& forall|i: int| 0 <= i < r.len() ==> self.top_chunk(e, c, tl, at, #[trigger] r[i])
        &&& forall|x: TemporalKey|
            #[trigger] self.latest_top_entry(e, c, tl, at, x) ==> exists|i: int|
                0 <= i < r.len() && r[i].id.0 == x.4
    }

    /// `ch` is the stored chunk of an entry with the largest visible start.
    pub open spec fn top_chunk(
        self,
        e: Seq<char>,
        c: Seq<char>,
        tl: (Seq<char>, TimeType),
        at: i64,
        ch: ChunkView,
    ) -> bool {
        exists|x: TemporalKey|
            #[trigger] self.latest_top_entry(e, c, tl, at, x) && x.4 == ch.id.0 && ch == self.chunk(x.4)
    }

    /// An entry of the temporal index for `component` of `entity` on `timeline`.
    pub open spec fn indexed(
        self,
        entity: Seq<char>,
        component: Seq<char>,
        timeline: (Seq<char>, TimeType),
        x: TemporalKey,
    ) -> bool {
        self.temporal_index.contains(x) && x.0 == entity && x.1 == component && x.2 == timeline
    }

    /// An entry that a latest-at query at `at` can see: indexed, starting at or before `at`.
    pub open spec fn latest_entry(
        self,
        entity: Seq<char>,
        component: Seq<char>,
        timeline: (Seq<char>, TimeType),
        at: i64,
        x: TemporalKey,
    ) -> bool {
        self.indexed(entity, component, timeline, x) && x.3 <= at
    }

    /// A visible entry with the largest start time among the visible entries.
    pub open spec fn latest_top_entry(
        self,
        entity: Seq<char>,
        component: Seq<char>,
        timeline: (Seq<char>, TimeType),
        at: i64,
        x: TemporalKey,
    ) -> bool {
        &&& self.latest_entry(entity, component, timeline, at, x)
        &&& forall|y: TemporalKey|
            #[trigger] self.latest_entry(entity, component, timeline, at, y) ==> y.3 <= x.3
    }

    /// An entry that a range query over `[min, max]` sees.
    pub open spec fn range_entry(
        self,
        entity: Seq<char>,
        component: Seq<char>,
        timeline: (Seq<char>, TimeType),
        min: i64,
        max: i64,
        x: TemporalKey,
    ) -> bool {
        self.indexed(entity, component, timeline, x) && min <= x.3 <= max
    }

    /// The entity has static data for this component.
    pub open spec fn has_static(self, entity: Seq<char>, component: Seq<char>) -> bool {
        exists|k: int|
            0 <= k < self.static_index.len() && self.static_index[k].0 == entity
                && self.static_index[k].1 == component
    }

    /// The entity has temporal data for this component on this timeline.
    pub open spec fn has_temporal(
        self,
        entity: Seq<char>,
        component: Seq<char>,
        timeline: (Seq<char>, TimeType),
    ) -> bool {
        exists|k: int|
            0 <= k < self.temporal_index.len() && self.temporal_index[k].0 == entity
                && self.temporal_index[k].1 == component && self.temporal_index[k].2 == timeline
    }

    /// The entity has static data, or temporal data on `timeline`.
    pub open spec fn knows_entity(self, entity: Seq<char>, timeline: (Seq<char>, TimeType)) -> bool {
        (exists|k: int| 0 <= k < self.static_index.len() && self.static_index[k].0 == entity) || (
        exists|k: int|
            0 <= k < self.temporal_index.len() && self.temporal_index[k].0 == entity
                && self.temporal_index[k].2 == timeline)
    }
}

proof fn lemma_latest_answer(
    v: StoreView,
    e: Seq<char>,
    c: Seq<char>,
    tl: (Seq<char>, TimeType),
    at: i64,
    best: i64,
    ids: Seq<(i64, u128)>,
    rv: Seq<ChunkView>,
)
    requires
        exists|k: int|
            0 <= k < v.temporal_index.len() && v.latest_entry(e, c, tl, at, #[trigger] v.temporal_index[k])
                && v.temporal_index[k].3 == best,
        forall|k: int|
            0 <= k < v.temporal_index.len() && v.latest_entry(e, c, tl, at, #[trigger] v.temporal_index[k])
                ==> v.temporal_index[k].3 <= best,
        pairs_sorted(ids),
        forall|y: (i64, u128)|
            #[trigger] ids.contains(y) <==> (y.0 == best && exists|k: int|
                0 <= k < v.temporal_index.len() && v.latest_entry(e, c, tl, at, v.temporal_index[k])
                    && v.temporal_index[k].3 == best && v.temporal_index[k].4 == y.1),
        rv.len() == ids.len(),
        forall|k: int| 0 <= k < rv.len() ==> #[trigger] rv[k].id.0 == ids[k].1 && rv[k] == v.chunk(ids[k].1),
    ensures
        v.latest_at_answer(e, c, tl, at, rv),
{
    let n = v.temporal_index.len();
    let kb = choose|k: int|
        0 <= k < n && v.latest_entry(e, c, tl, at, #[trigger] v.temporal_index[k])
            && v.temporal_index[k].3 == best;
    let xb = v.temporal_index[kb];
    assert(ids.contains((best, xb.4)));
    assert(v.latest_entry(e, c, tl, at, xb));
    assert forall|y: TemporalKey| #[trigger] v.latest_entry(e, c, tl, at, y) implies y.3 <= best by {
        let k = choose|k: int| 0 <= k < n && v.temporal_index[k] == y;
        assert(v.latest_entry(e, c, tl, at, v.temporal_index[k]));
    }
    assert forall|i: int, j: int| 0 <= i < j < rv.len() implies rv[i].id.0 < rv[j].id.0 by {
        assert(ids.contains(ids[i]));
        assert(ids.contains(ids[j]));
        assert(ids[i].0 == best && ids[j].0 == best);
        assert(pair_lt(ids[i].0 as int, ids[i].1 as int, ids[j].0 as int, ids[j].1 as int));
    }
    assert forall|i: int| 0 <= i < rv.len() implies v.top_chunk(e, c, tl, at, #[trigger] rv[i]) by {
        assert(ids.contains(ids[i]));
        let k = choose|k: int|
            0 <= k < n && v.latest_entry(e, c, tl, at, v.temporal_index[k])
                && v.temporal_index[k].3 == best && v.temporal_index[k].4 == ids[i].1;
        let x = v.temporal_index[k];
        assert(v.latest_top_entry(e, c, tl, at, x));
    }
    assert forall|x: TemporalKey| #[trigger] v.latest_top_entry(e, c, tl, at, x) implies exists|i: int|
        0 <= i < rv.len() && rv[i].id.0 == x.4 by {
        assert(x.3 == best);
        let k = choose|k: int| 0 <= k < n && v.temporal_index[k] == x;
        assert(ids.contains((best, x.4)));
        let i = choose|i: int| 0 <= i < ids.len() && ids[i] == (best, x.4);
        assert(rv[i].id.0 == x.4);
    }
    assert(rv.len() > 0);
    assert(rv.len() == 0 ==> forall|x: TemporalKey| !v.latest_entry(e, c, tl, at, x));
    assert((forall|x: TemporalKey| !v.latest_entry(e, c, tl, at, x)) ==> rv.len() == 0);
}

impl DataStore2 {
    /// The chunks of the store, ordered by their smallest row id, then by id.
    pub fn iter_chunks(&self) -> (r: Vec<Arc<Chunk>>)
        ensures
            r@.len() == self@.chunks.len(),
            forall|i: int| 0 <= i < r@.len() ==> (#[trigger] r@[i])@ == self@.chunks[i].1,
    {
        let mut out: Vec<Arc<Chunk>> = Vec::new();
        let n = self.chunks.len();
        let mut i: usize = 0;
        while i < n
            invariant
                n == self@.chunks.len(),
                i <= n,
                out@.len() == i,
                forall|k: int| 0 <= k < i ==> (#[trigger] out@[k])@ == self@.chunks[k].1,
            decreases n - i,
        {
            proof {
                assert(self@.chunks[i as int].1 == self.chunks@[i as int].1@);
            }
            out.push(self.chunks[i].1.clone());
            i = i + 1;
        }
        out
    }

    /// The chunks that a latest-at query for `component_name` of `entity_path` sees. Static
    /// data wins: if the entity has a static chunk for that component, it alone is returned.
    /// Otherwise, among the chunks indexed for that component on the query's timeline whose
    /// start is at or before the query time, those with the largest start, by ascending id.
    /// Each returned chunk belongs to the entity and holds the component (a static chunk), or
    /// holds it on the query's timeline from a start at or before the query time; without
    /// static data the answer is empty exactly when no stored chunk does.
    pub fn latest_at(
        &self,
        query: &crate::query::LatestAtQuery,
        entity_path: &EntityPath,
        component_name: ComponentName,
    ) -> (r: Vec<Arc<Chunk>>)
        requires
            self@.wf(),
        ensures
            self@.static_chunk_id(entity_path@, component_name@) matches Some(id) ==> r@.len()
                == 1 && r@[0]@ == self@.chunk(id) && added_static(
                r@[0]@,
                (entity_path@, component_name@, id),
            ),
            self@.static_chunk_id(entity_path@, component_name@) is None ==> self@.latest_at_answer(
                entity_path@,
                component_name@,
                query@.0,
                query@.1.0,
                arcs_view(r@),
            ),
            self@.static_chunk_id(entity_path@, component_name@) is None ==> forall|i: int|
                0 <= i < r@.len() ==> holds_from_before(
                    #[trigger] arcs_view(r@)[i],
                    entity_path@,
                    component_name@,
                    query@.0,
                    query@.1.0,
                ),
            self@.static_chunk_id(entity_path@, component_name@) is None ==> (r@.len() == 0 <==> !exists|k: int|
                0 <= k < self@.chunks.len() && holds_from_before(
                    #[trigger] self@.chunks[k].1,
                    entity_path@,
                    component_name@,
                    query@.0,
                    query@.1.0,
                )),
    {
        let r = self.latest_at_by_index(query, entity_path, component_name);
        proof {
            let v = self@;
            if let Some(id) = v.static_chunk_id(entity_path@, component_name@) {
                lemma_static_entry_chunk(v, entity_path@, component_name@);
            } else {
                assert forall|i: int| 0 <= i < r@.len() implies holds_from_before(
                    #[trigger] arcs_view(r@)[i],
                    entity_path@,
                    component_name@,
                    query@.0,
                    query@.1.0,
                ) by {
                    lemma_top_chunk_holds(v, entity_path@, component_name@, query@.0, query@.1.0, arcs_view(r@)[i]);
                }
                lemma_latest_at_empty(v, entity_path@, component_name@, query@.0, query@.1.0, arcs_view(r@));
            }
        }
        r
    }

    fn latest_at_by_index(
        &self,
        query: &crate::query::LatestAtQuery,
        entity_path: &EntityPath,
        component_name: ComponentName,
    ) -> (r: Vec<Arc<Chunk>>)
        requires
            self@.wf(),
        ensures
            self@.static_chunk_id(entity_path@, component_name@) matches Some(id) ==> r@.len()
                == 1 && r@[0]@ == self@.chunk(id),
            self@.static_chunk_id(entity_path@, component_name@) is None ==> self@.latest_at_answer(
                entity_path@,
                component_name@,
                query@.0,
                query@.1.0,
                arcs_view(r@),
            ),
    {
        let ghost v = self@;
        match self.static_position(entity_path, &component_name) {
            Some(k) => {
                let id = self.static_index[k].chunk_id;
                proof {
                    assert(v.static_index[k as int] == static_entry_view(self.static_index@[k as int]));
                    lemma_static_lookup_at(v.static_index, entity_path@, component_name@, k as int);
                    assert(v.has_chunk(v.static_index[k as int].2));
                }
                let c = self.chunk(id).unwrap();
                let mut out: Vec<Arc<Chunk>> = Vec::new();
                out.push(c);
                proof {
                    assert(arcs_view(out@)[0] == out@[0]@);
                }
                return out;
            },
            None => {
                proof {
                    assert(!exists|k: int|
                        0 <= k < v.static_index.len() && v.static_index[k].0 == entity_path@
                            && v.static_index[k].1 == component_name@);
                }
            },
        }
        let timeline_ = query.timeline();
        let timeline = &timeline_;
        let at = query.at().0;
        let ghost (e, c, tl) = (entity_path@, component_name@, query@.0);
        proof {
            assert(timeline@ == tl);
        }
        // The largest start at or before `at`.
        let n = self.temporal_index.len();
        let mut found = false;
        let mut best: i64 = 0;
        let mut i: usize = 0;
        while i < n
            invariant
                v == self@,
                n == v.temporal_index.len(),
                timeline@ == tl,
                e == entity_path@,
                c == component_name@,
                tl == query@.0,
                at == query@.1.0,
                i <= n,
                !found ==> forall|k: int|
                    0 <= k < i ==> !v.latest_entry(e, c, tl, at, #[trigger] v.temporal_index[k]),
                found ==> exists|k: int|
                    0 <= k < i && v.latest_entry(e, c, tl, at, #[trigger] v.temporal_index[k])
                        && v.temporal_index[k].3 == best,
                found ==> forall|k: int|
                    0 <= k < i && v.latest_entry(e, c, tl, at, #[trigger] v.temporal_index[k])
                        ==> v.temporal_index[k].3 <= best,
            decreases n - i,
        {
            let x = &self.temporal_index[i];
            proof {
                assert(v.temporal_index[i as int] == temporal_entry_view(self.temporal_index@[i as int]));
                assert(v.temporal_index.contains(v.temporal_index[i as int]));
            }
            if x.entity.same(entity_path) && x.component.same(&component_name) && x.timeline.same(
                timeline,
            ) && x.start.0 <= at {
                if !found || x.start.0 > best {
                    best = x.start.0;
                }
                found = true;
            }
            i = i + 1;
        }
        let mut out: Vec<Arc<Chunk>> = Vec::new();
        if !found {
            proof {
                assert forall|x: TemporalKey| !v.latest_entry(e, c, tl, at, x) by {
                    if v.latest_entry(e, c, tl, at, x) {
                        let k = choose|k: int| 0 <= k < n && v.temporal_index[k] == x;
                    }
                }
                assert(arcs_view(out@).len() == 0);
                assert(v.latest_at_answer(e, c, tl, at, arcs_view(out@)));
            }
            return out;
        }
        // The ids at that start, ascending.
        let mut ids: Vec<(i64, u128)> = Vec::new();
        let mut j: usize = 0;
        while j < n
            invariant
                v == self@,
                v.wf(),
                n == v.temporal_index.len(),
                timeline@ == tl,
                e == entity_path@,
                c == component_name@,
                tl == query@.0,
                at == query@.1.0,
                j <= n,
                forall|k: int|
                    0 <= k < n && v.latest_entry(e, c, tl, at, #[trigger] v.temporal_index[k])
                        ==> v.temporal_index[k].3 <= best,
                pairs_sorted(ids@),
                forall|y: (i64, u128)|
                    #[trigger] ids@.contains(y) <==> (y.0 == best && exists|k: int|
                        0 <= k < j && v.latest_entry(e, c, tl, at, v.temporal_index[k])
                            && v.temporal_index[k].3 == best && v.temporal_index[k].4 == y.1),
            decreases n - j,
        {
            let x = &self.temporal_index[j];
            proof {
                assert(v.temporal_index[j as int] == temporal_entry_view(self.temporal_index@[j as int]));
            }
            if x.entity.same(entity_path) && x.component.same(&component_name) && x.timeline.same(
                timeline,
            ) && x.start.0 <= at && x.start.0 == best {
                let ghost before = ids@;
                proof {
                    assert(!before.contains((best, x.chunk_id.0))) by {
                        if before.contains((best, x.chunk_id.0)) {
                            let k = choose|k: int|
                                0 <= k < j && v.latest_entry(e, c, tl, at, v.temporal_index[k])
                                    && v.temporal_index[k].3 == best && v.temporal_index[k].4
                                    == x.chunk_id.0;
                            assert(v.temporal_index[k] == v.temporal_index[j as int]);
                        }
                    }
                }
                insert_pair_sorted(&mut ids, (best, x.chunk_id.0));
            }
            proof {
                assert forall|y: (i64, u128)|
                    #[trigger] ids@.contains(y) <==> (y.0 == best && exists|k: int|
                        0 <= k < j + 1 && v.latest_entry(e, c, tl, at, v.temporal_index[k])
                            && v.temporal_index[k].3 == best && v.temporal_index[k].4 == y.1) by {
                    if exists|k: int|
                        0 <= k < j + 1 && v.latest_entry(e, c, tl, at, v.temporal_index[k])
                            && v.temporal_index[k].3 == best && v.temporal_index[k].4 == y.1 {
                        let k = choose|k: int|
                            0 <= k < j + 1 && v.latest_entry(e, c, tl, at, v.temporal_index[k])
                                && v.temporal_index[k].3 == best && v.temporal_index[k].4 == y.1;
                        if k < j {
                            assert(0 <= k < j && v.latest_entry(e, c, tl, at, v.temporal_index[k])
                                && v.temporal_index[k].3 == best && v.temporal_index[k].4 == y.1);
                        }
                    }
                }
            }
            j = j + 1;
        }
        // The chunks of those ids.
        let m = ids.len();
        proof {
            assert forall|k: int| 0 <= k < m implies v.has_chunk(#[trigger] ids@[k].1) by {
                assert(ids@.contains(ids@[k]));
                let kk = choose|kk: int|
                    0 <= kk < n && v.latest_entry(e, c, tl, at, v.temporal_index[kk])
                        && v.temporal_index[kk].3 == best && v.temporal_index[kk].4 == ids@[k].1;
                assert(v.has_chunk(v.temporal_index[kk].4));
            }
        }
        let mut q: usize = 0;
        while q < m
            invariant
                v == self@,
                v.wf(),
                m == ids@.len(),
                q <= m,
                out@.len() == q,
                forall|k: int| 0 <= k < q ==> (#[trigger] out@[k])@.id.0 == ids@[k].1
                    && out@[k]@ == v.chunk(ids@[k].1),
                forall|k: int| 0 <= k < m ==> v.has_chunk(#[trigger] ids@[k].1),
            decreases m - q,
        {
            let id = ids[q].1;
            let ch = self.chunk(ChunkId(id)).unwrap();
            proof {
                let kk = choose|kk: int| 0 <= kk < v.chunks.len() && v.chunks[kk].1.id.0 == id;
            }
            out.push(ch);
            q = q + 1;
        }
        proof {
            let rv = arcs_view(out@);
            assert forall|k: int| 0 <= k < rv.len() implies #[trigger] rv[k].id.0 == ids@[k].1
                && rv[k] == v.chunk(ids@[k].1) by {
                assert(rv[k] == out@[k]@);
            }
            lemma_latest_answer(v, e, c, tl, at, best, ids@, rv);
            assert(v.latest_at_answer(e, c, tl, at, rv));
        }
        out
    }
}

/// The chunk `c` belongs to `entity` and has `timeline`, and the range of its times there
/// starts at `t`.
pub open spec fn chunk_start_on(c: ChunkView, entity: Seq<char>, timeline: (Seq<char>, TimeType), t: i64) -> bool {
    c.entity_path == entity && exists|a: int|
        0 <= a < c.timelines.len() && c.timelines[a].timeline == timeline
            && c.timelines[a].time_range.min.0 == t
}

/// Some stored chunk of `entity` has `timeline`, and the range of its times there starts at
/// `t`.
pub open spec fn entity_chunk_start(s: StoreView, entity: Seq<char>, timeline: (Seq<char>, TimeType), t: i64) -> bool {
    exists|k: int| 0 <= k < s.chunks.len() && chunk_start_on(s.chunks[k].1, entity, timeline, t)
}

// --- Range queries ---

/// The chunks of a store, in store order.
pub open spec fn store_chunk_list(chunks: Seq<(u128, ChunkView)>) -> Seq<ChunkView> {
    chunks.map_values(|x: (u128, ChunkView)| x.1)
}

/// The times of chunk `c` on `tl` when `c` belongs to `e`, has the component `comp` and the
/// timeline `tl`; no times otherwise.
pub open spec fn range_times(c: ChunkView, e: Seq<char>, comp: Seq<char>, tl: (Seq<char>, TimeType)) -> Seq<i64> {
    if c.entity_path == e && c.component_index(comp) is Some && c.timeline_index(tl) is Some {
        c.timelines[c.timeline_index(tl).unwrap()].times
    } else {
        Seq::empty()
    }
}

/// `b` is the latest of the times before `min` among `prev` and the times `ts`.
pub open spec fn before_in(ts: Seq<i64>, min: i64, prev: Option<i64>, b: Option<i64>) -> bool {
    &&& b matches Some(x) ==> x < min && (prev == Some(x) || ts.contains(x))
    &&& prev matches Some(p) ==> (b matches Some(x) && p <= x)
    &&& forall|i: int| 0 <= i < ts.len() && ts[i] < min ==> (b matches Some(x) && ts[i] <= x)
}

/// Some chunk among the first `k` of `cs` has the time `t` before `min` for `e`, `comp`, `tl`.
pub open spec fn has_time_before(
    cs: Seq<ChunkView>,
    e: Seq<char>,
    comp: Seq<char>,
    tl: (Seq<char>, TimeType),
    min: i64,
    k: int,
    t: i64,
) -> bool {
    t < min && exists|j: int| 0 <= j < k && range_times(cs[j], e, comp, tl).contains(t)
}

/// `b` is the latest time before `min` in the first `k` chunks of `cs`, if any.
pub open spec fn latest_before_upto(
    cs: Seq<ChunkView>,
    e: Seq<char>,
    comp: Seq<char>,
    tl: (Seq<char>, TimeType),
    min: i64,
    k: int,
    b: Option<i64>,
) -> bool {
    &&& b matches Some(x) ==> has_time_before(cs, e, comp, tl, min, k, x)
    &&& forall|t: i64| #[trigger] has_time_before(cs, e, comp, tl, min, k, t) ==> (b matches Some(
        x,
    ) && t <= x)
}

/// The latest time before `min` among the times of the chunks of `cs` for `e`, `comp` and
/// `tl`; `None` if there is none.
pub open spec fn latest_before(
    cs: Seq<ChunkView>,
    e: Seq<char>,
    comp: Seq<char>,
    tl: (Seq<char>, TimeType),
    min: i64,
) -> Option<i64> {
    if exists|t: i64| has_time_before(cs, e, comp, tl, min, cs.len() as int, t) {
        Some(
            choose|t: i64|
                has_time_before(cs, e, comp, tl, min, cs.len() as int, t) && forall|u: i64|
                    #[trigger] has_time_before(cs, e, comp, tl, min, cs.len() as int, u) ==> u <= t,
        )
    } else {
        None
    }
}

/// A range query over `[min, max]` picks the chunk `c`: one of its times for `e`, `comp` and
/// `tl` lies within the range or is the latest time `before` the range.
pub open spec fn range_pick(
    e: Seq<char>,
    comp: Seq<char>,
    tl: (Seq<char>, TimeType),
    min: i64,
    max: i64,
    before: Option<i64>,
) -> spec_fn(ChunkView) -> bool {
    |c: ChunkView|
        exists|a: int|
            0 <= a < range_times(c, e, comp, tl).len() && ((min <= range_times(c, e, comp, tl)[a]
                <= max) || before == Some(range_times(c, e, comp, tl)[a]))
}

proof fn lemma_latest_before_step(
    cs: Seq<ChunkView>,
    e: Seq<char>,
    comp: Seq<char>,
    tl: (Seq<char>, TimeType),
    min: i64,
    k: int,
    b0: Option<i64>,
    b: Option<i64>,
)
    requires
        0 <= k < cs.len(),
        latest_before_upto(cs, e, comp, tl, min, k, b0),
        before_in(range_times(cs[k], e, comp, tl), min, b0, b),
    ensures
        latest_before_upto(cs, e, comp, tl, min, k + 1, b),
{
    let ts = range_times(cs[k], e, comp, tl);
    if let Some(x) = b {
        if b0 == Some(x) {
            let j = choose|j: int| 0 <= j < k && range_times(cs[j], e, comp, tl).contains(x);
        } else {
            assert(range_times(cs[k], e, comp, tl).contains(x));
        }
    }
    assert forall|t: i64| #[trigger] has_time_before(cs, e, comp, tl, min, k + 1, t) implies (b matches Some(
        x,
    ) && t <= x) by {
        let j = choose|j: int| 0 <= j < k + 1 && range_times(cs[j], e, comp, tl).contains(t);
        if j < k {
            assert(has_time_before(cs, e, comp, tl, min, k, t));
        } else {
            let i = choose|i: int| 0 <= i < ts.len() && ts[i] == t;
        }
    }
}

proof fn lemma_latest_before_done(
    cs: Seq<ChunkView>,
    e: Seq<char>,
    comp: Seq<char>,
    tl: (Seq<char>, TimeType),
    min: i64,
    b: Option<i64>,
)
    requires
        latest_before_upto(cs, e, comp, tl, min, cs.len() as int, b),
    ensures
        b == latest_before(cs, e, comp, tl, min),
{
    let n = cs.len() as int;
    if let Some(x) = b {
        assert(has_time_before(cs, e, comp, tl, min, n, x));
        let t = choose|t: i64|
            has_time_before(cs, e, comp, tl, min, n, t) && forall|u: i64|
                #[trigger] has_time_before(cs, e, comp, tl, min, n, u) ==> u <= t;
        assert(t <= x);
        assert(x <= t);
    } else {
        if exists|t: i64| has_time_before(cs, e, comp, tl, min, n, t) {
            let t = choose|t: i64| has_time_before(cs, e, comp, tl, min, n, t);
            assert(has_time_before(cs, e, comp, tl, min, n, t));
        }
    }
}

/// The times of `chunk` on `tl`, if it belongs to `e` and has the component `comp` and the
/// timeline `tl`; no times otherwise.
fn range_times_of<'a>(chunk: &'a Chunk, e: &EntityPath, comp: &ComponentName, tl: &Timeline) -> (r: &'a [i64])
    requires
        chunk@.wf(),
    ensures
        r@ == range_times(chunk@, e@, comp@, tl@),
{
    if !chunk.entity_path().same(e) {
        return &[];
    }
    match chunk.component_position(comp) {
        Some(ci) => {
            proof {
                chunk@.lemma_component_index(comp@, ci as int);
            }
        },
        None => {
            return &[];
        },
    }
    match chunk.timeline_position(tl) {
        Some(ti) => {
            proof {
                chunk@.lemma_timeline_index(tl@, ti as int);
            }
            let tls = chunk.timelines();
            proof {
                assert(tls@[ti as int]@ == chunk@.timelines[ti as int]);
            }
            tls[ti].times()
        },
        None => &[],
    }
}

impl DataStore2 {
    /// The chunks that a range query for `component_name` of `entity_path` sees. Static data
    /// wins: if the entity has a static chunk for that component, it alone is returned.
    /// Otherwise each chunk of the entity with that component and the query's timeline that
    /// has a time within the query's range, or that holds the latest time before the range's
    /// start among those chunks: all the data within the range, plus the latest before it;
    /// in order of their start on the timeline, then of their ids.
    pub fn range(
        &self,
        query: &crate::query::RangeQuery,
        entity_path: &EntityPath,
        component_name: ComponentName,
    ) -> (r: Vec<Arc<Chunk>>)
        requires
            self@.wf(),
        ensures
            self@.static_chunk_id(entity_path@, component_name@) matches Some(id) ==> r@.len()
                == 1 && r@[0]@ == self@.chunk(id),
            self@.static_chunk_id(entity_path@, component_name@) is None ==> {
                &&& by_start(arcs_view(r@), query.timeline@)
                &&& forall|c: ChunkView|
                    #[trigger] arcs_view(r@).contains(c) <==> store_chunk_list(self@.chunks).filter(
                        range_pick(
                            entity_path@,
                            component_name@,
                            query.timeline@,
                            query.range.min.0,
                            query.range.max.0,
                            latest_before(
                                store_chunk_list(self@.chunks),
                                entity_path@,
                                component_name@,
                                query.timeline@,
                                query.range.min.0,
                            ),
                        ),
                    ).contains(c)
            },
    {
        let ghost v = self@;
        let is_static = self.static_position(entity_path, &component_name).is_some();
        let found = self.range_in_store_order(query, entity_path, component_name);
        if is_static {
            proof {
                let k = choose|k: int|
                    0 <= k < v.static_index.len() && v.static_index[k].0 == entity_path@
                        && v.static_index[k].1 == component_name@;
                lemma_static_lookup_at(v.static_index, entity_path@, component_name@, k);
            }
            return found;
        }
        let ghost want = arcs_view(found@);
        let tl = query.timeline();
        proof {
            assert(v.static_chunk_id(entity_path@, component_name@) is None);
            lemma_filter_pairwise(
                store_chunk_list(v.chunks),
                range_pick(
                    entity_path@,
                    component_name@,
                    query.timeline@,
                    query.range.min.0,
                    query.range.max.0,
                    latest_before(
                        store_chunk_list(v.chunks),
                        entity_path@,
                        component_name@,
                        query.timeline@,
                        query.range.min.0,
                    ),
                ),
                |a: ChunkView, b: ChunkView| a.id != b.id && a.wf() && b.wf(),
            );
            assert forall|a: int| 0 <= a < want.len() implies (#[trigger] want[a]).wf() by {
                if a + 1 < want.len() {
                    assert(want[a].id != want[a + 1].id && want[a].wf());
                } else if a > 0 {
                    assert(want[a - 1].id != want[a].id && want[a].wf());
                } else {
                    lemma_filter_from(
                        store_chunk_list(v.chunks),
                        range_pick(
                            entity_path@,
                            component_name@,
                            query.timeline@,
                            query.range.min.0,
                            query.range.max.0,
                            latest_before(
                                store_chunk_list(v.chunks),
                                entity_path@,
                                component_name@,
                                query.timeline@,
                                query.range.min.0,
                            ),
                        ),
                        a,
                    );
                }
            }
        }
        let n = found.len();
        let mut sorted: Vec<Arc<Chunk>> = Vec::new();
        let mut q: usize = 0;
        proof {
            assert(arcs_view(sorted@) =~= Seq::<ChunkView>::empty());
        }
        while q < n
            invariant
                n == found@.len(),
                want == arcs_view(found@),
                tl@ == query.timeline@,
                forall|a: int, b: int| 0 <= a < b < want.len() ==> want[a].id != want[b].id,
                forall|a: int| 0 <= a < want.len() ==> (#[trigger] want[a]).wf(),
                q <= n,
                by_start(arcs_view(sorted@), tl@),
                forall|a: int| 0 <= a < sorted@.len() ==> (#[trigger] sorted@[a])@.wf(),
                forall|c: ChunkView|
                    #[trigger] arcs_view(sorted@).contains(c) <==> exists|a: int| 0 <= a < q && want[a] == c,
            decreases n - q,
        {
            proof {
                assert(want[q as int] == found@[q as int]@);
                assert forall|a: int| 0 <= a < sorted@.len() implies sorted@[a]@.id != found@[q as int]@.id by {
                    assert(arcs_view(sorted@)[a] == sorted@[a]@);
                    assert(arcs_view(sorted@).contains(sorted@[a]@));
                    let b = choose|b: int| 0 <= b < q && want[b] == sorted@[a]@;
                }
            }
            let ghost before = arcs_view(sorted@);
            insert_by_start(&mut sorted, found[q].clone(), &tl);
            proof {
                assert forall|c: ChunkView|
                    #[trigger] arcs_view(sorted@).contains(c) <==> exists|a: int| 0 <= a < q + 1 && want[a] == c by {
                    if c == want[q as int] {
                        assert(0 <= q < q + 1 && want[q as int] == c);
                    }
                    if exists|a: int| 0 <= a < q + 1 && want[a] == c {
                        let a = choose|a: int| 0 <= a < q + 1 && want[a] == c;
                        if a < q {
                            assert(before.contains(c));
                        }
                    }
                }
            }
            q = q + 1;
        }
        proof {
            assert forall|c: ChunkView| #[trigger] arcs_view(sorted@).contains(c) <==> want.contains(c) by {
                if want.contains(c) {
                    let a = choose|a: int| 0 <= a < want.len() && want[a] == c;
                }
            }
        }
        sorted
    }

    /// The chunks that `range` answers with, in store order.
    fn range_in_store_order(
        &self,
        query: &crate::query::RangeQuery,
        entity_path: &EntityPath,
        component_name: ComponentName,
    ) -> (r: Vec<Arc<Chunk>>)
        requires
            self@.wf(),
        ensures
            self@.static_chunk_id(entity_path@, component_name@) matches Some(id) ==> r@.len()
                == 1 && r@[0]@ == self@.chunk(id),
            self@.static_chunk_id(entity_path@, component_name@) is None ==> arcs_view(r@)
                == store_chunk_list(self@.chunks).filter(
                range_pick(
                    entity_path@,
                    component_name@,
                    query.timeline@,
                    query.range.min.0,
                    query.range.max.0,
                    latest_before(
                        store_chunk_list(self@.chunks),
                        entity_path@,
                        component_name@,
                        query.timeline@,
                        query.range.min.0,
                    ),
                ),
            ),
    {
        let ghost v = self@;
        match self.static_position(entity_path, &component_name) {
            Some(k) => {
                let id = self.static_index[k].chunk_id;
                proof {
                    assert(v.static_index[k as int] == static_entry_view(self.static_index@[k as int]));
                    lemma_static_lookup_at(v.static_index, entity_path@, component_name@, k as int);
                    assert(v.has_chunk(v.static_index[k as int].2));
                }
                let c = self.chunk(id).unwrap();
                let mut out: Vec<Arc<Chunk>> = Vec::new();
                out.push(c);
                proof {
                    assert(arcs_view(out@)[0] == out@[0]@);
                }
                return out;
            },
            None => {},
        }
        let ghost cs = store_chunk_list(v.chunks);
        let ghost e = entity_path@;
        let ghost comp = component_name@;
        let ghost tl = query.timeline@;
        let min = query.range.min.0;
        let max = query.range.max.0;
        let n = self.chunks.len();
        // The latest time before `min` among the chunks of the entity with that component and
        // timeline.
        let mut before: Option<i64> = None;
        let mut k: usize = 0;
        while k < n
            invariant
                v == self@,
                v.wf(),
                cs == store_chunk_list(v.chunks),
                n == cs.len(),
                e == entity_path@,
                comp == component_name@,
                tl == query.timeline@,
                k <= n,
                latest_before_upto(cs, e, comp, tl, min, k as int, before),
            decreases n - k,
        {
            let chunk = &self.chunks[k].1;
            proof {
                assert(cs[k as int] == chunk@);
                assert(v.chunks[k as int].1.wf());
            }
            let times = range_times_of(chunk, entity_path, &component_name, &query.timeline);
            let m = times.len();
            let mut i: usize = 0;
            let ghost b0 = before;
            while i < m
                invariant
                    times@ == range_times(chunk@, e, comp, tl),
                    m == times@.len(),
                    i <= m,
                    before_in(times@.take(i as int), min, b0, before),
                decreases m - i,
            {
                proof {
                    assert(times@.take(i + 1).drop_last() =~= times@.take(i as int));
                }
                let t = times[i];
                let ghost pb = before;
                if t < min {
                    match before {
                        Some(b) => {
                            if t > b {
                                before = Some(t);
                            }
                        },
                        None => {
                            before = Some(t);
                        },
                    }
                }
                proof {
                    let p = times@.take(i as int);
                    let q = times@.take(i + 1);
                    assert(q[i as int] == t);
                    if let Some(x) = before {
                        if pb == Some(x) {
                            if !(b0 == Some(x)) {
                                let a = choose|a: int| 0 <= a < p.len() && p[a] == x;
                                assert(q[a] == x);
                            }
                        } else {
                            assert(q[i as int] == x);
                        }
                    }
                    assert forall|a: int| 0 <= a < q.len() && q[a] < min implies (before matches Some(
                        x,
                    ) && q[a] <= x) by {
                        if a < i {
                            assert(q[a] == p[a]);
                        }
                    }
                }
                i = i + 1;
            }
            proof {
                assert(times@.take(m as int) =~= times@);
                lemma_latest_before_step(cs, e, comp, tl, min, k as int, b0, before);
            }
            k = k + 1;
        }
        proof {
            lemma_latest_before_done(cs, e, comp, tl, min, before);
        }
        let ghost pick = range_pick(e, comp, tl, min, max, before);
        let mut out: Vec<Arc<Chunk>> = Vec::new();
        let mut j: usize = 0;
        proof {
            assert(cs.take(0).filter(pick) =~= Seq::<ChunkView>::empty());
            assert(arcs_view(out@) =~= Seq::<ChunkView>::empty());
        }
        while j < n
            invariant
                v == self@,
                v.wf(),
                cs == store_chunk_list(v.chunks),
                n == cs.len(),
                e == entity_path@,
                comp == component_name@,
                tl == query.timeline@,
                j <= n,
                pick == range_pick(e, comp, tl, min, max, before),
                arcs_view(out@) == cs.take(j as int).filter(pick),
            decreases n - j,
        {
            let chunk = &self.chunks[j].1;
            proof {
                assert(cs[j as int] == chunk@);
                assert(cs.take(j + 1).drop_last() =~= cs.take(j as int));
                assert(cs.take(j + 1).last() == cs[j as int]);
            }
            let times = range_times_of(chunk, entity_path, &component_name, &query.timeline);
            let mut hit = false;
            let m = times.len();
            let mut i: usize = 0;
            while i < m
                invariant
                    times@ == range_times(chunk@, e, comp, tl),
                    m == times@.len(),
                    i <= m,
                    hit == exists|a: int|
                        0 <= a < i && ((min <= times@[a] <= max) || before == Some(times@[a])),
                decreases m - i,
            {
                let t = times[i];
                let is_before = match before {
                    Some(b) => t == b,
                    None => false,
                };
                if (min <= t && t <= max) || is_before {
                    hit = true;
                }
                i = i + 1;
            }
            let ghost o = out@;
            proof {
                reveal(Seq::filter);
                assert(pick(chunk@) == hit);
            }
            if hit {
                out.push(self.chunks[j].1.clone());
                proof {
                    assert(arcs_view(out@) =~= arcs_view(o).push(chunk@));
                }
            } else {
                proof {
                    assert(arcs_view(out@) =~= arcs_view(o));
                }
            }
            j = j + 1;
        }
        proof {
            assert(cs.take(n as int) =~= cs);
        }
        out
    }

    /// The earliest time at which something was logged for `entity_path` on `timeline`: the
    /// smallest start of the timeline's range among the entity's chunks that have that
    /// timeline; `None` if none has it. Static data is ignored, as it has no timeline.
    pub fn entity_min_time(&self, timeline: &Timeline, entity_path: &EntityPath) -> (r: Option<
        TimeInt,
    >)
        requires
            self@.wf(),
        ensures
            r matches Some(t) ==> entity_chunk_start(self@, entity_path@, timeline@, t.0),
            r matches Some(t) ==> forall|u: i64|
                #[trigger] entity_chunk_start(self@, entity_path@, timeline@, u) ==> t.0 <= u,
            r is None ==> forall|u: i64| !#[trigger] entity_chunk_start(self@, entity_path@, timeline@, u),
    {
        let ghost v = self@;
        let n = self.chunks.len();
        let mut best: Option<i64> = None;
        let mut k: usize = 0;
        while k < n
            invariant
                v == self@,
                v.wf(),
                n == v.chunks.len(),
                k <= n,
                best matches Some(b) ==> exists|j: int|
                    0 <= j < k && chunk_start_on(v.chunks[j].1, entity_path@, timeline@, b),
                forall|j: int, u: i64|
                    0 <= j < k && #[trigger] chunk_start_on(v.chunks[j].1, entity_path@, timeline@, u)
                        ==> (best matches Some(b) && b <= u),
            decreases n - k,
        {
            let chunk = &self.chunks[k].1;
            proof {
                assert(v.chunks[k as int].1 == chunk@);
                assert(v.chunks[k as int].1.wf());
            }
            if chunk.entity_path().same(entity_path) {
                match chunk.timeline_position(timeline) {
                    Some(i) => {
                        let tls = chunk.timelines();
                        let m = tls[i].time_range().min.0;
                        proof {
                            assert(tls@[i as int]@ == chunk@.timelines[i as int]);
                            assert(chunk_start_on(chunk@, entity_path@, timeline@, m));
                            assert forall|u: i64| #[trigger] chunk_start_on(
                                chunk@,
                                entity_path@,
                                timeline@,
                                u,
                            ) implies u == m by {
                                let a = choose|a: int|
                                    0 <= a < chunk@.timelines.len() && chunk@.timelines[a].timeline
                                        == timeline@ && chunk@.timelines[a].time_range.min.0 == u;
                                if a < i {
                                    assert(chunk@.timelines[a].timeline != chunk@.timelines[i as int].timeline);
                                } else if a > i {
                                    assert(chunk@.timelines[i as int].timeline != chunk@.timelines[a].timeline);
                                }
                            }
                        }
                        match best {
                            Some(b) => {
                                if m < b {
                                    best = Some(m);
                                }
                            },
                            None => {
                                best = Some(m);
                            },
                        }
                    },
                    None => {
                        proof {
                            assert forall|u: i64| !#[trigger] chunk_start_on(
                                chunk@,
                                entity_path@,
                                timeline@,
                                u,
                            ) by {}
                        }
                    },
                }
            } else {
                proof {
                    assert forall|u: i64| !#[trigger] chunk_start_on(chunk@, entity_path@, timeline@, u) by {}
                }
            }
            k = k + 1;
        }
        match best {
            Some(b) => Some(TimeInt(b)),
            None => None,
        }
    }

    /// Whether the entity has static data for the component, or temporal data for it on the
    /// timeline.
    pub fn entity_has_component(
        &self,
        timeline: &Timeline,
        entity_path: &EntityPath,
        component_name: &ComponentName,
    ) -> (r: bool)
        requires
            self@.wf(),
        ensures
            r == (self@.has_static(entity_path@, component_name@) || self@.has_temporal(
                entity_path@,
                component_name@,
                timeline@,
            )),
    {
        match self.all_components(timeline, entity_path) {
            Some(names) => {
                let n = names.len();
                let mut i: usize = 0;
                while i < n
                    invariant
                        n == names@.len(),
                        i <= n,
                        forall|k: int| 0 <= k < i ==> names@[k]@ != component_name@,
                        forall|c: Seq<char>|
                            #[trigger] names_contain(names@, c) <==> (self@.has_static(entity_path@, c)
                                || self@.has_temporal(entity_path@, c, timeline@)),
                    decreases n - i,
                {
                    if names[i].same(component_name) {
                        proof {
                            assert(names_contain(names@, component_name@));
                        }
                        return true;
                    }
                    i = i + 1;
                }
                proof {
                    assert(!names_contain(names@, component_name@));
                }
                false
            },
            None => {
                proof {
                    if self@.has_static(entity_path@, component_name@) {
                        let k = choose|k: int|
                            0 <= k < self@.static_index.len() && self@.static_index[k].0 == entity_path@
                                && self@.static_index[k].1 == component_name@;
                        assert(self@.knows_entity(entity_path@, timeline@));
                    }
                    if self@.has_temporal(entity_path@, component_name@, timeline@) {
                        let k = choose|k: int|
                            0 <= k < self@.temporal_index.len() && self@.temporal_index[k].0 == entity_path@
                                && self@.temporal_index[k].1 == component_name@ && self@.temporal_index[k].2 == timeline@;
                        assert(self@.knows_entity(entity_path@, timeline@));
                    }
                }
                false
            },
        }
    }

    /// The components that have been written for `entity_path`: all its static components and
    /// its temporal components on `timeline`, in increasing order of names. `None` if the
    /// entity has no data on this timeline: neither static data nor temporal data there.
    pub fn all_components(&self, timeline: &Timeline, entity_path: &EntityPath) -> (r: Option<
        Vec<ComponentName>,
    >)
        requires
            self@.wf(),
        ensures
            r is None <==> !self@.knows_entity(entity_path@, timeline@),
            r matches Some(names) ==> {
                &&& names_sorted(names@)
                &&& forall|c: Seq<char>|
                    #[trigger] names_contain(names@, c) <==> (
                    self@.has_static(entity_path@, c) || self@.has_temporal(
                        entity_path@,
                        c,
                        timeline@,
                    ))
            },
    {
        let ghost v = self@;
        let mut names: Vec<ComponentName> = Vec::new();
        let mut known = false;
        let ns = self.static_index.len();
        let mut i: usize = 0;
        while i < ns
            invariant
                v == self@,
                ns == v.static_index.len(),
                i <= ns,
                known <==> exists|k: int| 0 <= k < i && v.static_index[k].0 == entity_path@,
                names_sorted(names@),
                forall|c: Seq<char>|
                    #[trigger] names_contain(names@, c) <==> (
                    exists|k: int|
                        0 <= k < i && v.static_index[k].0 == entity_path@ && v.static_index[k].1 == c),
            decreases ns - i,
        {
            let x = &self.static_index[i];
            proof {
                assert(v.static_index[i as int] == static_entry_view(self.static_index@[i as int]));
            }
            if x.entity.same(entity_path) {
                known = true;
                add_name(&mut names, &x.component);
            }
            proof {
                assert forall|c: Seq<char>|
                    #[trigger] names_contain(names@, c) <==> (
                    exists|k: int|
                        0 <= k < i + 1 && v.static_index[k].0 == entity_path@ && v.static_index[k].1 == c) by {
                    if exists|k: int|
                        0 <= k < i + 1 && v.static_index[k].0 == entity_path@ && v.static_index[k].1 == c {
                        let k = choose|k: int|
                            0 <= k < i + 1 && v.static_index[k].0 == entity_path@ && v.static_index[k].1 == c;
                        if k < i {
                            assert(0 <= k < i && v.static_index[k].0 == entity_path@ && v.static_index[k].1 == c);
                        }
                    }
                }
            }
            i = i + 1;
        }
        let nt = self.temporal_index.len();
        let mut j: usize = 0;
        while j < nt
            invariant
                v == self@,
                nt == v.temporal_index.len(),
                ns == v.static_index.len(),
                j <= nt,
                known <==> (exists|k: int| 0 <= k < ns && v.static_index[k].0 == entity_path@) || (
                exists|k: int|
                    0 <= k < j && v.temporal_index[k].0 == entity_path@ && v.temporal_index[k].2
                        == timeline@),
                names_sorted(names@),
                forall|c: Seq<char>|
                    #[trigger] names_contain(names@, c) <==> ((
                    exists|k: int|
                        0 <= k < ns && v.static_index[k].0 == entity_path@ && v.static_index[k].1 == c)
                        || exists|k: int|
                        0 <= k < j && v.temporal_index[k].0 == entity_path@ && v.temporal_index[k].1 == c
                            && v.temporal_index[k].2 == timeline@),
            decreases nt - j,
        {
            let x = &self.temporal_index[j];
            proof {
                assert(v.temporal_index[j as int] == temporal_entry_view(self.temporal_index@[j as int]));
            }
            if x.entity.same(entity_path) && x.timeline.same(timeline) {
                known = true;
                add_name(&mut names, &x.component);
            }
            proof {
                assert forall|c: Seq<char>|
                    #[trigger] names_contain(names@, c) <==> ((
                    exists|k: int|
                        0 <= k < ns && v.static_index[k].0 == entity_path@ && v.static_index[k].1 == c)
                        || exists|k: int|
                        0 <= k < j + 1 && v.temporal_index[k].0 == entity_path@ && v.temporal_index[k].1 == c
                            && v.temporal_index[k].2 == timeline@) by {
                    if exists|k: int|
                        0 <= k < j + 1 && v.temporal_index[k].0 == entity_path@ && v.temporal_index[k].1 == c
                            && v.temporal_index[k].2 == timeline@ {
                        let k = choose|k: int|
                            0 <= k < j + 1 && v.temporal_index[k].0 == entity_path@ && v.temporal_index[k].1 == c
                                && v.temporal_index[k].2 == timeline@;
                        if k < j {
                            assert(0 <= k < j && v.temporal_index[k].0 == entity_path@ && v.temporal_index[k].1 == c
                                && v.temporal_index[k].2 == timeline@);
                        }
                    }
                }
                if exists|k: int|
                    0 <= k < j + 1 && v.temporal_index[k].0 == entity_path@ && v.temporal_index[k].2
                        == timeline@ {
                    let k = choose|k: int|
                        0 <= k < j + 1 && v.temporal_index[k].0 == entity_path@
                            && v.temporal_index[k].2 == timeline@;
                    if k < j {
                        assert(exists|k: int|
                            0 <= k < j && v.temporal_index[k].0 == entity_path@
                                && v.temporal_index[k].2 == timeline@);
                    }
                }
            }
            j = j + 1;
        }
        if known {
            Some(names)
        } else {
            None
        }
    }

    /// Row metadata is not tracked: always `None`.
    pub fn row_metadata(&self, row_id: &RowId) -> (r: Option<(crate::types::TimePoint, crate::types::EntityPathHash)>)
        ensures
            r is None,
    {
        None
    }
}

/// Some name of the list is `c`.
pub open spec fn names_contain(names: Seq<ComponentName>, c: Seq<char>) -> bool {
    exists|a: int| 0 <= a < names.len() && (#[trigger] names[a])@ == c
}

/// Adds `name` at its place among names in increasing order, unless it is already there.
fn add_name(names: &mut Vec<ComponentName>, name: &ComponentName)
    requires
        names_sorted(old(names)@),
    ensures
        names_sorted(final(names)@),
        forall|c: Seq<char>|
            #[trigger] names_contain(final(names)@, c) <==> (
            names_contain(old(names)@, c) || c == name@),
{
    let ghost o = names@;
    insert_name_sorted(names, name.duplicate());
    proof {
        assert forall|c: Seq<char>|
            #[trigger] names_contain(names@, c) <==> (
            names_contain(o, c) || c == name@) by {
            if names_contain(names@, c) {
                let a = choose|a: int| 0 <= a < names@.len() && (#[trigger] names@[a])@ == c;
                assert(has_name(names@, c));
            }
            if has_name(names@, c) {
                let a = choose|a: int| 0 <= a < names@.len() && names@[a]@ == c;
                assert(names_contain(names@, c));
            }
            if names_contain(o, c) {
                let a = choose|a: int| 0 <= a < o.len() && (#[trigger] o[a])@ == c;
                assert(has_name(o, c));
            }
            if has_name(o, c) {
                let a = choose|a: int| 0 <= a < o.len() && o[a]@ == c;
                assert(names_contain(o, c));
            }
        }
    }
}


// --- Protection from garbage collection ---

/// Entry `i` of the temporal index has the largest start among the entries for its entity,
/// component and timeline.
pub open spec fn is_latest_start(idx: Seq<TemporalKey>, i: int) -> bool {
    forall|j: int|
        0 <= j < idx.len() && #[trigger] idx[j].0 == idx[i].0 && idx[j].1 == idx[i].1 && idx[j].2
            == idx[i].2 ==> idx[j].3 <= idx[i].3
}

/// Entries `j` and `i` of the temporal index are for the same entity, component and
/// timeline, and `j` starts later.
pub open spec fn starts_later(idx: Seq<TemporalKey>, j: int, i: int) -> bool {
    idx[j].0 == idx[i].0 && idx[j].1 == idx[i].1 && idx[j].2 == idx[i].2 && idx[j].3 > idx[i].3
}

/// How many of the first `n` entries of the temporal index are for the same entity,
/// component and timeline as entry `i` and start later.
pub open spec fn later_entries(idx: Seq<TemporalKey>, i: int, n: int) -> nat
    decreases n,
{
    if n <= 0 {
        0
    } else {
        later_entries(idx, i, n - 1) + if starts_later(idx, n - 1, i) {
            1nat
        } else {
            0nat
        }
    }
}

/// The chunk `id` is one of the `target_count` latest of some entity, component and
/// timeline: it is indexed there with fewer than `target_count` entries starting later, for
/// a component that is not in `dont_protect`.
pub open spec fn is_protected(
    s: StoreView,
    dont_protect: Seq<ComponentName>,
    target_count: nat,
    id: u128,
) -> bool {
    exists|i: int|
        0 <= i < s.temporal_index.len() && (#[trigger] s.temporal_index[i]).4 == id
            && !names_contain(dont_protect, s.temporal_index[i].1) && later_entries(
            s.temporal_index,
            i,
            s.temporal_index.len() as int,
        ) < target_count
}

/// An entry with the largest start of its entity, component and timeline has no entry
/// starting later.
proof fn lemma_latest_start_no_later(idx: Seq<TemporalKey>, i: int, n: int)
    requires
        0 <= i < idx.len(),
        n <= idx.len(),
        is_latest_start(idx, i),
    ensures
        later_entries(idx, i, n) == 0,
    decreases n,
{
    if n > 0 {
        lemma_latest_start_no_later(idx, i, n - 1);
        if starts_later(idx, n - 1, i) {
            assert(idx[n - 1].0 == idx[i].0);
        }
    }
}

pub open spec fn chunk_ids_view(s: Seq<ChunkId>) -> Seq<u128> {
    s.map_values(|c: ChunkId| c.0)
}

/// Whether some name of the list is `name`.
fn names_contains(names: &[ComponentName], name: &ComponentName) -> (r: bool)
    ensures
        r == names_contain(names@, name@),
{
    let n = names.len();
    let mut i: usize = 0;
    while i < n
        invariant
            n == names@.len(),
            i <= n,
            forall|k: int| 0 <= k < i ==> names@[k]@ != name@,
        decreases n - i,
    {
        if names[i].same(name) {
            proof {
                assert(names_contain(names@, name@));
            }
            return true;
        }
        i = i + 1;
    }
    false
}

/// Adds `id` to a list of distinct ids unless it is already there.
fn add_chunk_id(ids: &mut Vec<ChunkId>, id: ChunkId)
    requires
        chunk_ids_view(old(ids)@).no_duplicates(),
    ensures
        chunk_ids_view(final(ids)@).no_duplicates(),
        forall|x: u128|
            #[trigger] chunk_ids_view(final(ids)@).contains(x) <==> (chunk_ids_view(
                old(ids)@,
            ).contains(x) || x == id.0),
{
    let n = ids.len();
    let mut i: usize = 0;
    while i < n
        invariant
            n == ids@.len(),
            ids@ == old(ids)@,
            chunk_ids_view(old(ids)@).no_duplicates(),
            i <= n,
            forall|k: int| 0 <= k < i ==> ids@[k].0 != id.0,
        decreases n - i,
    {
        if ids[i].0 == id.0 {
            proof {
                assert(chunk_ids_view(ids@)[i as int] == id.0);
            }
            return;
        }
        i = i + 1;
    }
    let ghost o = chunk_ids_view(ids@);
    ids.push(id);
    proof {
        let p = chunk_ids_view(ids@);
        assert(p =~= o.push(id.0));
        assert(!o.contains(id.0)) by {
            if o.contains(id.0) {
                let k = choose|k: int| 0 <= k < o.len() && o[k] == id.0;
                assert(old(ids)@[k].0 == id.0);
            }
        }
        assert forall|x: u128| #[trigger] p.contains(x) <==> (o.contains(x) || x == id.0) by {
            if p.contains(x) {
                let k = choose|k: int| 0 <= k < p.len() && p[k] == x;
                if k < o.len() {
                    assert(o[k] == x);
                }
            }
            if o.contains(x) {
                let k = choose|k: int| 0 <= k < o.len() && o[k] == x;
                assert(p[k] == x);
            }
            if x == id.0 {
                assert(p[o.len() as int] == x);
            }
        }
    }
}

impl DataStore2 {
    /// How many entries of the temporal index are for the same entity, component and
    /// timeline as entry `i` and start later.
    fn count_later(&self, i: usize) -> (r: usize)
        requires
            i < self@.temporal_index.len(),
        ensures
            r == later_entries(self@.temporal_index, i as int, self@.temporal_index.len() as int),
    {
        let ghost idx = self@.temporal_index;
        let n = self.temporal_index.len();
        let e = &self.temporal_index[i];
        let mut count: usize = 0;
        let mut j: usize = 0;
        while j < n
            invariant
                idx == self@.temporal_index,
                n == idx.len(),
                i < n,
                *e == self.temporal_index@[i as int],
                j <= n,
                count == later_entries(idx, i as int, j as int),
                count <= j,
            decreases n - j,
        {
            let f = &self.temporal_index[j];
            proof {
                assert(idx[j as int] == temporal_entry_view(self.temporal_index@[j as int]));
                assert(idx[i as int] == temporal_entry_view(self.temporal_index@[i as int]));
            }
            if f.entity.same(&e.entity) && f.component.same(&e.component) && f.timeline.same(
                &e.timeline,
            ) && f.start.0 > e.start.0 {
                count = count + 1;
            }
            j = j + 1;
        }
        count
    }

    /// The chunks that garbage collection must keep: for each entity, component and
    /// timeline, the `target_count` latest chunks (those with fewer than `target_count`
    /// chunks starting later), for every component that is not in `dont_protect`. Empty when
    /// `target_count` is 0. Each id occurs once.
    pub fn find_all_protected_rows(&self, target_count: usize, dont_protect: &[ComponentName]) -> (r:
        Vec<ChunkId>)
        ensures
            chunk_ids_view(r@).no_duplicates(),
            forall|id: u128|
                #[trigger] chunk_ids_view(r@).contains(id) <==> is_protected(
                    self@,
                    dont_protect@,
                    target_count as nat,
                    id,
                ),
    {
        let mut out: Vec<ChunkId> = Vec::new();
        let ghost idx = self@.temporal_index;
        let ghost t = target_count as nat;
        let n = self.temporal_index.len();
        let mut i: usize = 0;
        proof {
            assert(chunk_ids_view(out@) =~= Seq::empty());
        }
        while i < n
            invariant
                idx == self@.temporal_index,
                t == target_count as nat,
                n == idx.len(),
                i <= n,
                chunk_ids_view(out@).no_duplicates(),
                forall|id: u128|
                    #[trigger] chunk_ids_view(out@).contains(id) <==> exists|k: int|
                        0 <= k < i && (#[trigger] idx[k]).4 == id && !names_contain(
                            dont_protect@,
                            idx[k].1,
                        ) && later_entries(idx, k, n as int) < t,
            decreases n - i,
        {
            let e = &self.temporal_index[i];
            proof {
                assert(idx[i as int] == temporal_entry_view(self.temporal_index@[i as int]));
            }
            let keep = !names_contains(dont_protect, &e.component) && self.count_later(i)
                < target_count;
            let ghost before = chunk_ids_view(out@);
            if keep {
                add_chunk_id(&mut out, e.chunk_id);
            }
            proof {
                assert forall|id: u128|
                    #[trigger] chunk_ids_view(out@).contains(id) <==> exists|k: int|
                        0 <= k < i + 1 && (#[trigger] idx[k]).4 == id && !names_contain(
                            dont_protect@,
                            idx[k].1,
                        ) && later_entries(idx, k, n as int) < t by {
                    if chunk_ids_view(out@).contains(id) {
                        if before.contains(id) {
                        } else {
                            assert(idx[i as int].4 == id);
                        }
                    }
                    if exists|k: int|
                        0 <= k < i + 1 && (#[trigger] idx[k]).4 == id && !names_contain(
                            dont_protect@,
                            idx[k].1,
                        ) && later_entries(idx, k, n as int) < t {
                        let k = choose|k: int|
                            0 <= k < i + 1 && (#[trigger] idx[k]).4 == id && !names_contain(
                                dont_protect@,
                                idx[k].1,
                            ) && later_entries(idx, k, n as int) < t;
                        if k < i {
                            assert(before.contains(id));
                        }
                    }
                }
            }
            i = i + 1;
        }
        out
    }
}


// --- Laws ---

/// A latest-at answer from the temporal index is empty exactly when no stored chunk holds
/// the component of the entity on the timeline from a start at or before the query time.
proof fn lemma_latest_at_empty(
    s: StoreView,
    e: Seq<char>,
    c: Seq<char>,
    tl: (Seq<char>, TimeType),
    at: i64,
    r: Seq<ChunkView>,
)
    requires
        s.wf(),
        s.latest_at_answer(e, c, tl, at, r),
    ensures
        r.len() == 0 <==> !exists|k: int| 0 <= k < s.chunks.len() && holds_from_before(#[trigger] s.chunks[k].1, e, c, tl, at),
{
    if r.len() == 0 {
        assert forall|k: int| 0 <= k < s.chunks.len() implies !holds_from_before(#[trigger] s.chunks[k].1, e, c, tl, at) by {
            let ch = s.chunks[k].1;
            if holds_from_before(ch, e, c, tl, at) {
                let (ci, ti) = choose|ci: int, ti: int|
                    0 <= ci < ch.components.len() && 0 <= ti < ch.timelines.len() && ch.components[ci].0 == c
                        && ch.timelines[ti].timeline == tl && ch.timelines[ti].time_range.min.0 <= at;
                let x: TemporalKey = (e, c, tl, ch.timelines[ti].time_range.min.0, ch.id.0);
                assert(added_temporal(ch, x));
                assert(s.temporal_index.contains(x));
                assert(s.latest_entry(e, c, tl, at, x));
            }
        }
    } else {
        let ch = r[0];
        assert(s.top_chunk(e, c, tl, at, ch));
        lemma_top_chunk_holds(s, e, c, tl, at, ch);
        let x = choose|x: TemporalKey| #[trigger] s.latest_top_entry(e, c, tl, at, x) && x.4 == ch.id.0 && ch == s.chunk(x.4);
        lemma_temporal_entry_chunk(s, x);
        let k = choose|k: int| 0 <= k < s.chunks.len() && s.chunks[k].1.id.0 == x.4;
        assert(s.chunks[k].1 == ch);
    }
}

/// Storing a chunk in a well-formed store indexes it: the store stays complete.
proof fn lemma_stores_complete(o: StoreView, c: ChunkView, s: StoreView)
    requires
        o.wf(),
        o.stores(c, s),
    ensures
        s.complete(),
{
    let xc = (row_id_min(c.row_ids), c);
    assert forall|k: int, x: TemporalKey|
        0 <= k < s.chunks.len() && #[trigger] added_temporal(s.chunks[k].1, x) implies s.temporal_index.contains(
        x,
    ) by {
        let y = s.chunks[k];
        assert(s.chunks.contains(y));
        if o.chunks.contains(y) {
            let j = choose|j: int| 0 <= j < o.chunks.len() && o.chunks[j] == y;
            assert(added_temporal(o.chunks[j].1, x));
            assert(o.temporal_index.contains(x));
        } else {
            assert(y == xc);
        }
    }
    assert forall|k: int, ci: int|
        0 <= k < s.chunks.len() && s.chunks[k].1.timelines.len() == 0 && 0 <= ci
            < s.chunks[k].1.components.len() implies s.static_chunk_id(
        s.chunks[k].1.entity_path,
        #[trigger] s.chunks[k].1.components[ci].0,
    ) is Some by {
        let y = s.chunks[k];
        let e = y.1.entity_path;
        let comp = y.1.components[ci].0;
        assert(s.chunks.contains(y));
        if o.chunks.contains(y) {
            let j = choose|j: int| 0 <= j < o.chunks.len() && o.chunks[j] == y;
            assert(o.chunks[j].1.components[ci].0 == comp);
            assert(o.static_chunk_id(e, comp) is Some);
            if c.timelines.len() == 0 {
                assert(s.static_chunk_id(e, comp) == static_after_insert(o, c, e, comp));
            }
        } else {
            assert(y == xc);
            assert(s.static_chunk_id(e, comp) == static_after_insert(o, c, e, comp));
            assert(c.components[ci].0 == comp);
        }
    }
}

/// The chunk `c` holds `component` of `entity` on `timeline`, from a start at or before
/// `at`.
pub open spec fn holds_from_before(
    c: ChunkView,
    entity: Seq<char>,
    component: Seq<char>,
    timeline: (Seq<char>, TimeType),
    at: i64,
) -> bool {
    &&& c.entity_path == entity
    &&& exists|ci: int, ti: int|
        0 <= ci < c.components.len() && 0 <= ti < c.timelines.len() && c.components[ci].0 == component
            && c.timelines[ti].timeline == timeline && c.timelines[ti].time_range.min.0 <= at
}

/// In a well-formed store, the chunk of a temporal index entry is stored and adds that
/// entry.
pub proof fn lemma_temporal_entry_chunk(s: StoreView, x: TemporalKey)
    requires
        s.wf(),
        s.temporal_index.contains(x),
    ensures
        s.has_chunk(x.4),
        added_temporal(s.chunk(x.4), x),
{
    let i = choose|i: int| 0 <= i < s.temporal_index.len() && s.temporal_index[i] == x;
    assert(temporal_entry_stored(s.chunks, s.temporal_index[i]));
    let k = choose|k: int| 0 <= k < s.chunks.len() && s.chunks[k].1.id.0 == x.4 && added_temporal(s.chunks[k].1, x);
    lemma_chunk_at(s, k);
}

/// In a well-formed store, the static chunk of an entity's component is a static chunk of
/// that entity holding that component.
pub proof fn lemma_static_entry_chunk(s: StoreView, entity: Seq<char>, component: Seq<char>)
    requires
        s.wf(),
        s.static_chunk_id(entity, component) is Some,
    ensures
        s.has_chunk(s.static_chunk_id(entity, component).unwrap()),
        added_static(
            s.chunk(s.static_chunk_id(entity, component).unwrap()),
            (entity, component, s.static_chunk_id(entity, component).unwrap()),
        ),
{
    let idx = s.static_index;
    let i = choose|i: int| 0 <= i < idx.len() && idx[i].0 == entity && idx[i].1 == component;
    lemma_static_lookup_at(idx, entity, component, i);
    assert(static_entry_stored(s.chunks, idx[i]));
    let k = choose|k: int| 0 <= k < s.chunks.len() && s.chunks[k].1.id.0 == idx[i].2 && added_static(s.chunks[k].1, idx[i]);
    lemma_chunk_at(s, k);
}

/// A chunk that a latest-at query answers with holds the queried component of the entity
/// on the query's timeline, from a start at or before the query time.
pub proof fn lemma_top_chunk_holds(
    s: StoreView,
    e: Seq<char>,
    c: Seq<char>,
    tl: (Seq<char>, TimeType),
    at: i64,
    ch: ChunkView,
)
    requires
        s.wf(),
        s.top_chunk(e, c, tl, at, ch),
    ensures
        holds_from_before(ch, e, c, tl, at),
{
    let x = choose|x: TemporalKey| #[trigger] s.latest_top_entry(e, c, tl, at, x) && x.4 == ch.id.0 && ch == s.chunk(x.4);
    lemma_temporal_entry_chunk(s, x);
    let (ci, ti) = choose|ci: int, ti: int|
        0 <= ci < ch.components.len() && 0 <= ti < ch.timelines.len() && x.1 == ch.components[ci].0
            && x.2 == ch.timelines[ti].timeline && x.3 == ch.timelines[ti].time_range.min.0;
    assert(ch.components[ci].0 == c && ch.timelines[ti].timeline == tl && ch.timelines[ti].time_range.min.0 <= at);
}

/// In a well-formed store, the chunk found by an id is the one stored under it.
pub proof fn lemma_chunk_at(s: StoreView, k: int)
    requires
        s.wf(),
        0 <= k < s.chunks.len(),
    ensures
        s.has_chunk(s.chunks[k].1.id.0),
        s.chunk(s.chunks[k].1.id.0) == s.chunks[k].1,
{
    let id = s.chunks[k].1.id.0;
    let j = choose|j: int| 0 <= j < s.chunks.len() && s.chunks[j].1.id.0 == id;
    if j != k {
        assert(s.chunks[j].1.id != s.chunks[k].1.id);
    }
}

/// Once stored, a chunk is found by its id, as it was given; a second insertion of it is
/// then refused as a duplicate and changes nothing (see `insert_chunk`).
pub proof fn law_stored_chunk_is_found(before: StoreView, c: ChunkView, after: StoreView)
    requires
        before.stores(c, after),
        after.wf(),
    ensures
        after.has_chunk(c.id.0),
        after.chunk(c.id.0) == c,
{
    let x = (row_id_min(c.row_ids), c);
    assert(after.chunks.contains(x));
    let k = choose|k: int| 0 <= k < after.chunks.len() && after.chunks[k] == x;
    lemma_chunk_at(after, k);
}

/// Storing a chunk adds its own amount to each total over the chunks of its kind (static or
/// temporal) and leaves every total over the other kind unchanged; with one per chunk, the
/// store counts one more chunk of its kind.
pub proof fn law_storing_adds_to_its_kind(
    before: StoreView,
    c: ChunkView,
    after: StoreView,
    want_static: bool,
    f: spec_fn(ChunkView) -> nat,
)
    requires
        before.stores(c, after),
    ensures
        sum_where(store_chunk_views(after.chunks), want_static, f) == sum_where(
            store_chunk_views(before.chunks),
            want_static,
            f,
        ) + if chunk_is_static(c) == want_static {
            f(c)
        } else {
            0
        },
{
    let x = (row_id_min(c.row_ids), c);
    let p = choose|p: int| 0 <= p <= before.chunks.len() && after.chunks == before.chunks.insert(p, x);
    assert(store_chunk_views(after.chunks) =~= store_chunk_views(before.chunks).insert(p, c));
    lemma_sum_where_insert(store_chunk_views(before.chunks), want_static, f, p, c);
}

/// Storing a chunk keeps every chunk that was already stored, unchanged.
pub proof fn law_storing_keeps_chunks(before: StoreView, c: ChunkView, after: StoreView, id: u128)
    requires
        before.stores(c, after),
        before.wf(),
        after.wf(),
        before.has_chunk(id),
    ensures
        after.has_chunk(id),
        after.chunk(id) == before.chunk(id),
{
    let k = choose|k: int| 0 <= k < before.chunks.len() && before.chunks[k].1.id.0 == id;
    lemma_chunk_at(before, k);
    let x = before.chunks[k];
    assert(before.chunks.contains(x));
    assert(after.chunks.contains(x));
    let j = choose|j: int| 0 <= j < after.chunks.len() && after.chunks[j] == x;
    lemma_chunk_at(after, j);
}

/// After storing a static chunk, each of its components of its entity answers with that
/// chunk: latest-at and range queries return exactly it (see `latest_at` and `range`).
pub proof fn law_static_write_is_read(
    before: StoreView,
    c: ChunkView,
    after: StoreView,
    component: Seq<char>,
)
    requires
        before.stores(c, after),
        after.wf(),
        c.timelines.len() == 0,
        exists|ci: int| 0 <= ci < c.components.len() && c.components[ci].0 == component,
    ensures
        after.static_chunk_id(c.entity_path, component) == Some(c.id.0),
        after.chunk(c.id.0) == c,
{
    assert(after.static_chunk_id(c.entity_path, component) == static_after_insert(
        before,
        c,
        c.entity_path,
        component,
    ));
    law_stored_chunk_is_found(before, c, after);
}

/// After storing a temporal chunk, each of its components is indexed on each of its
/// timelines by the start of that timeline's range: a latest-at query at or after that start
/// sees the entry, and so does every range that holds that start.
pub proof fn law_temporal_write_is_indexed(
    before: StoreView,
    c: ChunkView,
    after: StoreView,
    ci: int,
    ti: int,
)
    requires
        before.stores(c, after),
        c.timelines.len() > 0,
        0 <= ci < c.components.len(),
        0 <= ti < c.timelines.len(),
    ensures
        ({
            let x = (
                c.entity_path,
                c.components[ci].0,
                c.timelines[ti].timeline,
                c.timelines[ti].time_range.min.0,
                c.id.0,
            );
            &&& after.indexed(c.entity_path, c.components[ci].0, c.timelines[ti].timeline, x)
            &&& forall|at: i64|
                at >= x.3 ==> after.latest_entry(
                    c.entity_path,
                    c.components[ci].0,
                    c.timelines[ti].timeline,
                    at,
                    x,
                )
            &&& forall|min: i64, max: i64|
                min <= x.3 <= max ==> after.range_entry(
                    c.entity_path,
                    c.components[ci].0,
                    c.timelines[ti].timeline,
                    min,
                    max,
                    x,
                )
        }),
{
    let x = (
        c.entity_path,
        c.components[ci].0,
        c.timelines[ti].timeline,
        c.timelines[ti].time_range.min.0,
        c.id.0,
    );
    assert(added_temporal(c, x));
    assert(after.temporal_index.contains(x));
}

/// Every chunk that a latest-at query at the largest time sees in the temporal index is
/// protected from garbage collection, unless its component is exempted: collecting only
/// unprotected chunks leaves such a query's answer unchanged.
pub proof fn law_latest_chunks_are_protected(
    s: StoreView,
    entity: Seq<char>,
    component: Seq<char>,
    timeline: (Seq<char>, TimeType),
    dont_protect: Seq<ComponentName>,
    target_count: nat,
    x: TemporalKey,
)
    requires
        s.latest_top_entry(entity, component, timeline, crate::types::MAX_TIME_I64, x),
        !names_contain(dont_protect, component),
        target_count >= 1,
    ensures
        is_protected(s, dont_protect, target_count, x.4),
{
    let idx = s.temporal_index;
    let i = choose|i: int| 0 <= i < idx.len() && idx[i] == x;
    assert forall|j: int|
        0 <= j < idx.len() && #[trigger] idx[j].0 == idx[i].0 && idx[j].1 == idx[i].1 && idx[j].2
            == idx[i].2 implies idx[j].3 <= idx[i].3 by {
        assert(idx.contains(idx[j]));
        assert(s.latest_entry(entity, component, timeline, crate::types::MAX_TIME_I64, idx[j]));
    }
    assert(is_latest_start(idx, i));
    lemma_latest_start_no_later(idx, i, idx.len() as int);
}

// --- Garbage collection ---

/// Every element of a filtered sequence is an element of the sequence that passes the filter.
pub proof fn lemma_filter_from<A>(s: Seq<A>, p: spec_fn(A) -> bool, a: int)
    requires
        0 <= a < s.filter(p).len(),
    ensures
        exists|j: int| 0 <= j < s.len() && s.filter(p)[a] == s[j] && p(s[j]),
    decreases s.len(),
{
    reveal(Seq::filter);
    let dl = s.drop_last();
    if s.len() > 0 {
        if p(s.last()) && a == dl.filter(p).len() {
            assert(s.filter(p)[a] == s[s.len() - 1]);
        } else {
            lemma_filter_from(dl, p, a);
            let j = choose|j: int| 0 <= j < dl.len() && dl.filter(p)[a] == dl[j] && p(dl[j]);
            assert(s[j] == dl[j]);
        }
    }
}

/// A relation that holds between every earlier and later element of a sequence holds between
/// those of a filtered sequence.
pub proof fn lemma_filter_pairwise<A>(s: Seq<A>, p: spec_fn(A) -> bool, r: spec_fn(A, A) -> bool)
    requires
        forall|i: int, j: int| 0 <= i < j < s.len() ==> r(s[i], s[j]),
    ensures
        forall|a: int, b: int| 0 <= a < b < s.filter(p).len() ==> r(s.filter(p)[a], s.filter(p)[b]),
    decreases s.len(),
{
    reveal(Seq::filter);
    if s.len() > 0 {
        let dl = s.drop_last();
        let f = s.filter(p);
        let fd = dl.filter(p);
        assert forall|i: int, j: int| 0 <= i < j < dl.len() implies r(dl[i], dl[j]) by {
            assert(dl[i] == s[i] && dl[j] == s[j]);
        }
        lemma_filter_pairwise(dl, p, r);
        assert forall|a: int, b: int| 0 <= a < b < f.len() implies r(f[a], f[b]) by {
            if b < fd.len() {
                assert(f[a] == fd[a] && f[b] == fd[b]);
            } else {
                assert(f[a] == fd[a]);
                assert(f[b] == s.last());
                lemma_filter_from(dl, p, a);
                let j = choose|j: int| 0 <= j < dl.len() && fd[a] == dl[j] && p(dl[j]);
                assert(dl[j] == s[j]);
                assert(r(s[j], s[s.len() - 1]));
            }
        }
    }
}

/// What a garbage collection tries to drop.
#[derive(Debug, Clone, Copy, PartialEq, Eq, Structural)]
pub enum GcTarget {
    /// Every temporal chunk that is not protected.
    Everything,
    /// Unprotected temporal chunks, in store order, until at least this many bytes are gone.
    DropAtLeastBytes(u64),
}

/// A chunk that garbage collection may drop: temporal and not protected.
pub open spec fn gc_candidate(s: StoreView, dp: Seq<ComponentName>, t: nat, c: ChunkView) -> bool {
    c.timelines.len() > 0 && !is_protected(s, dp, t, c.id.0)
}

/// The bytes of the first `n` chunks of `cs` that `flags` marks as dropped.
pub open spec fn dropped_upto(cs: Seq<(u128, ChunkView)>, flags: Seq<bool>, n: int) -> nat
    decreases n,
{
    if n <= 0 {
        0
    } else {
        dropped_upto(cs, flags, n - 1) + if flags[n - 1] {
            chunk_size_bytes(cs[n - 1].1)
        } else {
            0
        }
    }
}

/// Which of the first `n` chunks of `s`, in store order, garbage collection drops: each
/// candidate, and for a byte target only while fewer bytes than the target are gone.
pub open spec fn gc_flags(s: StoreView, dp: Seq<ComponentName>, t: nat, target: GcTarget, n: int) -> Seq<bool>
    decreases n,
{
    if n <= 0 {
        Seq::empty()
    } else {
        let prev = gc_flags(s, dp, t, target, n - 1);
        prev.push(
            gc_candidate(s, dp, t, s.chunks[n - 1].1) && match target {
                GcTarget::Everything => true,
                GcTarget::DropAtLeastBytes(b) => dropped_upto(s.chunks, prev, n - 1) < b,
            },
        )
    }
}

/// Which chunks of `s` garbage collection drops.
pub open spec fn gc_drops(s: StoreView, dp: Seq<ComponentName>, t: nat, target: GcTarget) -> Seq<bool> {
    gc_flags(s, dp, t, target, s.chunks.len() as int)
}

/// The chunk `id` is one that `flags` marks among `cs`.
pub open spec fn dropped_id(cs: Seq<(u128, ChunkView)>, flags: Seq<bool>, id: u128) -> bool {
    exists|k: int| 0 <= k < cs.len() && k < flags.len() && flags[k] && cs[k].1.id.0 == id
}

pub open spec fn chunk_kept(cs: Seq<(u128, ChunkView)>, flags: Seq<bool>) -> spec_fn((u128, ChunkView)) -> bool {
    |x: (u128, ChunkView)| !dropped_id(cs, flags, x.1.id.0)
}

pub open spec fn chunk_dropped(cs: Seq<(u128, ChunkView)>, flags: Seq<bool>) -> spec_fn((u128, ChunkView)) -> bool {
    |x: (u128, ChunkView)| dropped_id(cs, flags, x.1.id.0)
}

pub open spec fn static_kept(cs: Seq<(u128, ChunkView)>, flags: Seq<bool>) -> spec_fn(StaticKey) -> bool {
    |x: StaticKey| !dropped_id(cs, flags, x.2)
}

pub open spec fn temporal_kept(cs: Seq<(u128, ChunkView)>, flags: Seq<bool>) -> spec_fn(TemporalKey) -> bool {
    |x: TemporalKey| !dropped_id(cs, flags, x.4)
}

/// `n` is the store `s` after dropping the chunks that `flags` marks, with their index
/// entries.
pub open spec fn gc_result(s: StoreView, flags: Seq<bool>, n: StoreView) -> bool {
    &&& n.id == s.id
    &&& n.insert_id == s.insert_id
    &&& n.chunks == s.chunks.filter(chunk_kept(s.chunks, flags))
    &&& n.static_index == s.static_index.filter(static_kept(s.chunks, flags))
    &&& n.temporal_index == s.temporal_index.filter(temporal_kept(s.chunks, flags))
}

proof fn lemma_gc_flags_len(s: StoreView, dp: Seq<ComponentName>, t: nat, target: GcTarget, n: int)
    requires
        n >= 0,
    ensures
        gc_flags(s, dp, t, target, n).len() == n,
    decreases n,
{
    if n > 0 {
        lemma_gc_flags_len(s, dp, t, target, n - 1);
    }
}

proof fn lemma_dropped_upto_push(cs: Seq<(u128, ChunkView)>, flags: Seq<bool>, g: bool, n: int)
    requires
        n <= flags.len(),
    ensures
        dropped_upto(cs, flags.push(g), n) == dropped_upto(cs, flags, n),
    decreases n,
{
    if n > 0 {
        lemma_dropped_upto_push(cs, flags, g, n - 1);
        assert(flags.push(g)[n - 1] == flags[n - 1]);
    }
}

/// Garbage collection marks only temporal chunks for dropping.
proof fn lemma_gc_drops_temporal(s: StoreView, dp: Seq<ComponentName>, t: nat, target: GcTarget)
    ensures
        forall|k: int|
            0 <= k < s.chunks.len() && k < gc_drops(s, dp, t, target).len() && #[trigger] gc_drops(
                s,
                dp,
                t,
                target,
            )[k] ==> s.chunks[k].1.timelines.len() > 0,
{
    assert forall|k: int|
        0 <= k < s.chunks.len() && k < gc_drops(s, dp, t, target).len() && #[trigger] gc_drops(
            s,
            dp,
            t,
            target,
        )[k] implies s.chunks[k].1.timelines.len() > 0 by {
        lemma_gc_flags_candidate(s, dp, t, target, s.chunks.len() as int, k);
    }
}

/// Garbage collection leaves a well-formed store.
proof fn lemma_gc_wf(s: StoreView, flags: Seq<bool>, n: StoreView)
    requires
        s.wf(),
        gc_result(s, flags, n),
        forall|k: int| 0 <= k < s.chunks.len() && k < flags.len() && flags[k] ==> s.chunks[k].1.timelines.len() > 0,
    ensures
        n.wf(),
{
    let cs = s.chunks;
    let kp = chunk_kept(cs, flags);
    let f = cs.filter(kp);
    #[allow(deprecated)]
    cs.filter_lemma(kp);
    lemma_filter_pairwise(
        cs,
        kp,
        |a: (u128, ChunkView), b: (u128, ChunkView)|
            pair_lt(a.0 as int, a.1.id.0 as int, b.0 as int, b.1.id.0 as int) && a.1.id != b.1.id,
    );
    assert forall|i: int, j: int|
        0 <= i < f.len() && 0 <= j < f.len() && i != j implies f[i].1.id != f[j].1.id by {
        if i < j {
            assert(f[i].1.id != f[j].1.id);
        } else {
            assert(f[j].1.id != f[i].1.id);
        }
    }
    assert forall|i: int| 0 <= i < f.len() implies {
        let c = #[trigger] f[i];
        &&& c.1.wf()
        &&& c.1.is_sorted
        &&& c.1.row_ids.len() > 0
        &&& c.0 == row_id_min(c.1.row_ids)
    } by {
        lemma_filter_from(cs, kp, i);
        let j = choose|j: int| 0 <= j < cs.len() && f[i] == cs[j] && kp(cs[j]);
        assert(cs[j] == cs[j]);
    }
    // a kept id stays stored
    assert forall|id: u128| s.has_chunk(id) && !dropped_id(cs, flags, id) implies n.has_chunk(id) by {
        let k = choose|k: int| 0 <= k < cs.len() && cs[k].1.id.0 == id;
        assert(kp(cs[k]));
        assert(f.contains(cs[k]));
        let a = choose|a: int| 0 <= a < f.len() && f[a] == cs[k];
    }
    let sk = static_kept(cs, flags);
    let si = s.static_index.filter(sk);
    #[allow(deprecated)]
    s.static_index.filter_lemma(sk);
    lemma_filter_pairwise(
        s.static_index,
        sk,
        |a: StaticKey, b: StaticKey| !(a.0 == b.0 && a.1 == b.1),
    );
    assert forall|i: int| 0 <= i < si.len() implies n.has_chunk((#[trigger] si[i]).2) by {
        lemma_filter_from(s.static_index, sk, i);
        let j = choose|j: int| 0 <= j < s.static_index.len() && si[i] == s.static_index[j] && sk(s.static_index[j]);
        assert(s.has_chunk(s.static_index[j].2));
    }
    let tk = temporal_kept(cs, flags);
    let ti = s.temporal_index.filter(tk);
    #[allow(deprecated)]
    s.temporal_index.filter_lemma(tk);
    lemma_filter_pairwise(s.temporal_index, tk, |a: TemporalKey, b: TemporalKey| a != b);
    assert forall|i: int| 0 <= i < ti.len() implies n.has_chunk((#[trigger] ti[i]).4) by {
        lemma_filter_from(s.temporal_index, tk, i);
        let j = choose|j: int|
            0 <= j < s.temporal_index.len() && ti[i] == s.temporal_index[j] && tk(s.temporal_index[j]);
        assert(s.has_chunk(s.temporal_index[j].4));
    }
    assert forall|i: int| 0 <= i < si.len() implies static_entry_stored(f, #[trigger] si[i]) by {
        lemma_filter_from(s.static_index, sk, i);
        let j = choose|j: int| 0 <= j < s.static_index.len() && si[i] == s.static_index[j] && sk(s.static_index[j]);
        let y = s.static_index[j];
        assert(static_entry_stored(cs, y));
        let k = choose|k: int| 0 <= k < cs.len() && cs[k].1.id.0 == y.2 && added_static(cs[k].1, y);
        assert(kp(cs[k]));
        assert(f.contains(cs[k]));
        let a = choose|a: int| 0 <= a < f.len() && f[a] == cs[k];
        assert(f[a].1.id.0 == y.2 && added_static(f[a].1, y));
    }
    assert forall|i: int| 0 <= i < ti.len() implies temporal_entry_stored(f, #[trigger] ti[i]) by {
        lemma_filter_from(s.temporal_index, tk, i);
        let j = choose|j: int|
            0 <= j < s.temporal_index.len() && ti[i] == s.temporal_index[j] && tk(s.temporal_index[j]);
        let y = s.temporal_index[j];
        assert(temporal_entry_stored(cs, y));
        let k = choose|k: int| 0 <= k < cs.len() && cs[k].1.id.0 == y.4 && added_temporal(cs[k].1, y);
        assert(kp(cs[k]));
        assert(f.contains(cs[k]));
        let a = choose|a: int| 0 <= a < f.len() && f[a] == cs[k];
        assert(f[a].1.id.0 == y.4 && added_temporal(f[a].1, y));
    }
    assert(ti.no_duplicates()) by {
        assert forall|a: int, b: int| 0 <= a < ti.len() && 0 <= b < ti.len() && a != b implies ti[a]
            != ti[b] by {
            if a < b {
                assert(ti[a] != ti[b]);
            } else {
                assert(ti[b] != ti[a]);
            }
        }
    }
    // a dropped chunk is temporal
    assert forall|id: u128| dropped_id(cs, flags, id) implies exists|k: int|
        0 <= k < cs.len() && cs[k].1.id.0 == id && cs[k].1.timelines.len() > 0 by {
        let k = choose|k: int| 0 <= k < cs.len() && k < flags.len() && flags[k] && cs[k].1.id.0 == id;
    }
    assert forall|k: int, x: TemporalKey| 0 <= k < f.len() && #[trigger] added_temporal(f[k].1, x) implies ti.contains(
        x,
    ) by {
        lemma_filter_from(cs, kp, k);
        let j = choose|j: int| 0 <= j < cs.len() && f[k] == cs[j] && kp(cs[j]);
        assert(added_temporal(cs[j].1, x));
        assert(s.temporal_index.contains(x));
        let i = choose|i: int| 0 <= i < s.temporal_index.len() && s.temporal_index[i] == x;
        s.temporal_index.lemma_filter_contains(tk, i);
    }
    assert forall|k: int, ci: int|
        0 <= k < f.len() && f[k].1.timelines.len() == 0 && 0 <= ci < f[k].1.components.len() implies n.static_chunk_id(
        f[k].1.entity_path,
        #[trigger] f[k].1.components[ci].0,
    ) is Some by {
        lemma_filter_from(cs, kp, k);
        let j = choose|j: int| 0 <= j < cs.len() && f[k] == cs[j] && kp(cs[j]);
        let e = f[k].1.entity_path;
        let comp = f[k].1.components[ci].0;
        assert(cs[j].1.components[ci].0 == comp);
        assert(s.static_chunk_id(e, comp) is Some);
        let i = choose|i: int|
            0 <= i < s.static_index.len() && s.static_index[i].0 == e && s.static_index[i].1 == comp;
        let y = s.static_index[i];
        assert(static_entry_stored(cs, y));
        let m = choose|m: int| 0 <= m < cs.len() && cs[m].1.id.0 == y.2 && added_static(cs[m].1, y);
        if dropped_id(cs, flags, y.2) {
            let m2 = choose|m2: int| 0 <= m2 < cs.len() && cs[m2].1.id.0 == y.2 && cs[m2].1.timelines.len() > 0;
            if m != m2 {
                assert(cs[m].1.id != cs[m2].1.id);
            }
        }
        assert(sk(y));
        s.static_index.lemma_filter_contains(sk, i);
        let a = choose|a: int| 0 <= a < si.len() && si[a] == y;
        assert(si[a].0 == e && si[a].1 == comp);
    }
}

/// `ev` is the deletion event of the chunk `c`, the `i`-th one garbage collection drops from
/// the store `s`.
pub open spec fn gc_event(ev: StoreEvent2, s: StoreView, c: ChunkView, i: int) -> bool {
    &&& ev.store_id@ == s.id
    &&& ev.store_generation == (StoreGeneration2 { insert_id: s.insert_id, gc_id: (s.gc_id + 1) as u64 })
    &&& ev.event_id == s.event_id + i
    &&& ev.diff.kind == StoreDiffKind2::Deletion
    &&& ev.diff.chunk@ == c
}

/// Whether the list holds `id`.
fn u128s_contain(ids: &Vec<u128>, id: u128) -> (r: bool)
    ensures
        r == ids@.contains(id),
{
    let n = ids.len();
    let mut i: usize = 0;
    while i < n
        invariant
            n == ids@.len(),
            i <= n,
            forall|k: int| 0 <= k < i ==> ids@[k] != id,
        decreases n - i,
    {
        if ids[i] == id {
            proof {
                assert(ids@[i as int] == id);
            }
            return true;
        }
        i = i + 1;
    }
    false
}

/// Whether the list holds the chunk id `id`.
fn chunk_ids_contain(ids: &Vec<ChunkId>, id: u128) -> (r: bool)
    ensures
        r == chunk_ids_view(ids@).contains(id),
{
    let n = ids.len();
    let mut i: usize = 0;
    while i < n
        invariant
            n == ids@.len(),
            i <= n,
            forall|k: int| 0 <= k < i ==> ids@[k].0 != id,
        decreases n - i,
    {
        if ids[i].0 == id {
            proof {
                assert(chunk_ids_view(ids@)[i as int] == id);
            }
            return true;
        }
        i = i + 1;
    }
    false
}

impl StaticEntry {
    fn duplicate(&self) -> (r: StaticEntry)
        ensures
            static_entry_view(r) == static_entry_view(*self),
    {
        StaticEntry {
            entity: self.entity.duplicate(),
            component: self.component.duplicate(),
            chunk_id: self.chunk_id,
        }
    }
}

impl TemporalEntry {
    fn duplicate(&self) -> (r: TemporalEntry)
        ensures
            temporal_entry_view(r) == temporal_entry_view(*self),
    {
        TemporalEntry {
            entity: self.entity.duplicate(),
            component: self.component.duplicate(),
            timeline: self.timeline.duplicate(),
            start: self.start,
            chunk_id: self.chunk_id,
        }
    }
}

impl DataStore2 {
    /// Which chunks garbage collection drops (see [`gc_drops`]), with their ids.
    fn gc_plan(&self, target: GcTarget, protect_latest: usize, dont_protect: &[ComponentName]) -> (r: (
        Vec<bool>,
        Vec<u128>,
    ))
        requires
            self@.wf(),
            stats_fit(store_chunk_views(self@.chunks), false),
        ensures
            r.0@ == gc_drops(self@, dont_protect@, protect_latest as nat, target),
            forall|id: u128| #[trigger] r.1@.contains(id) <==> dropped_id(self@.chunks, r.0@, id),
    {
        let ghost o = self@;
        let ghost dp = dont_protect@;
        let ghost t = protect_latest as nat;
        let ghost vs = store_chunk_views(o.chunks);
        let protected = self.find_all_protected_rows(protect_latest, dont_protect);
        let n = self.chunks.len();
        let mut flags: Vec<bool> = Vec::new();
        let mut ids: Vec<u128> = Vec::new();
        let mut bytes: u64 = 0;
        let mut k: usize = 0;
        proof {
            assert(vs.take(0) =~= Seq::<ChunkView>::empty());
        }
        while k < n
            invariant
                o == self@,
                o.wf(),
                vs == store_chunk_views(o.chunks),
                stats_fit(vs, false),
                n == o.chunks.len(),
                forall|id: u128|
                    #[trigger] chunk_ids_view(protected@).contains(id) <==> is_protected(
                        o,
                        dp,
                        t,
                        id,
                    ),
                dp == dont_protect@,
                t == protect_latest as nat,
                k <= n,
                flags@ == gc_flags(o, dp, t, target, k as int),
                flags@.len() == k,
                bytes == dropped_upto(o.chunks, flags@, k as int),
                bytes <= sum_where(vs.take(k as int), false, size_metric()),
                forall|id: u128| #[trigger] ids@.contains(id) <==> dropped_id(o.chunks, flags@, id),
            decreases n - k,
        {
            let c = &self.chunks[k].1;
            let ghost fl = flags@;
            proof {
                assert(o.chunks[k as int].1 == c@);
                assert(vs.take(k + 1).drop_last() =~= vs.take(k as int));
                assert(vs.take(k + 1).last() == c@);
                lemma_sum_where_mono(vs, false, size_metric(), k + 1);
                lemma_gc_flags_len(o, dp, t, target, k as int);
            }
            let candidate = !c.is_static() && !chunk_ids_contain(&protected, c.id().0);
            let go = candidate && match target {
                GcTarget::Everything => true,
                GcTarget::DropAtLeastBytes(b) => bytes < b,
            };
            proof {
                lemma_dropped_upto_push(o.chunks, fl, go, k as int);
                assert(gc_flags(o, dp, t, target, k + 1) == fl.push(go));
            }
            let ghost ids_before = ids@;
            if go {
                let size = c.heap_size_bytes();
                bytes = bytes + size;
                ids.push(c.id().0);
            }
            flags.push(go);
            proof {
                assert forall|id: u128| #[trigger] ids@.contains(id) <==> dropped_id(
                    o.chunks,
                    flags@,
                    id,
                ) by {
                    if ids@.contains(id) {
                        if ids_before.contains(id) {
                            let j = choose|j: int|
                                0 <= j < o.chunks.len() && j < fl.len() && fl[j] && o.chunks[j].1.id.0
                                    == id;
                            assert(flags@[j] == fl[j]);
                        } else {
                            let a = choose|a: int| 0 <= a < ids@.len() && ids@[a] == id;
                            assert(a == ids_before.len());
                            assert(flags@[k as int]);
                        }
                    }
                    if dropped_id(o.chunks, flags@, id) {
                        let j = choose|j: int|
                            0 <= j < o.chunks.len() && j < flags@.len() && flags@[j]
                                && o.chunks[j].1.id.0 == id;
                        if j < k {
                            assert(fl[j] == flags@[j]);
                            assert(dropped_id(o.chunks, fl, id));
                            assert(ids_before.contains(id));
                            let a = choose|a: int| 0 <= a < ids_before.len() && ids_before[a] == id;
                            assert(ids@[a] == id);
                        } else {
                            assert(ids@[ids_before.len() as int] == id);
                        }
                    }
                }
            }
            k = k + 1;
        }
        (flags, ids)
    }
}

impl DataStore2 {
    /// Garbage collection. Static chunks and protected chunks (the `protect_latest` latest
    /// of each entity, component and timeline, for components not in `dont_protect`) are
    /// kept. Of the other, temporal, chunks, in store order (smallest row id, then id),
    /// `Everything` drops all; `DropAtLeastBytes(n)` drops each until at least `n` bytes are
    /// gone. Each dropped chunk leaves with its index entries and yields a deletion event,
    /// their ids running on from the store's next event id. Returns the events and the
    /// statistics before less the statistics after.
    pub fn gc(&mut self, target: GcTarget, protect_latest: usize, dont_protect: &[ComponentName]) -> (r: (
        Vec<StoreEvent2>,
        DataStoreStats2,
    ))
        requires
            old(self)@.wf(),
            old(self)@.gc_id < u64::MAX,
            old(self)@.event_id + old(self)@.chunks.len() <= u64::MAX,
            stats_fit(store_chunk_views(old(self)@.chunks), true),
            stats_fit(store_chunk_views(old(self)@.chunks), false),
        ensures
            final(self)@.wf(),
            gc_result(
                old(self)@,
                gc_drops(old(self)@, dont_protect@, protect_latest as nat, target),
                final(self)@,
            ),
            final(self)@.gc_id == old(self)@.gc_id + 1,
            final(self)@.event_id == old(self)@.event_id + r.0@.len(),
            r.0@.len() == old(self)@.chunks.filter(
                chunk_dropped(
                    old(self)@.chunks,
                    gc_drops(old(self)@, dont_protect@, protect_latest as nat, target),
                ),
            ).len(),
            forall|i: int|
                0 <= i < r.0@.len() ==> gc_event(
                    #[trigger] r.0@[i],
                    old(self)@,
                    old(self)@.chunks.filter(
                        chunk_dropped(
                            old(self)@.chunks,
                            gc_drops(old(self)@, dont_protect@, protect_latest as nat, target),
                        ),
                    )[i].1,
                    i,
                ),
            r.1.static_chunks == stats_minus(
                stats_fold(store_chunk_views(old(self)@.chunks), true),
                stats_fold(store_chunk_views(final(self)@.chunks), true),
            ),
            r.1.temporal_chunks == stats_minus(
                stats_fold(store_chunk_views(old(self)@.chunks), false),
                stats_fold(store_chunk_views(final(self)@.chunks), false),
            ),
    {
        let ghost o = self@;
        let stats_before = self.stats();
        let (flags, ids) = self.gc_plan(target, protect_latest, dont_protect);
        let ghost fl = flags@;
        let ghost cs = o.chunks;
        let ghost kp = chunk_kept(cs, fl);
        let ghost dr = chunk_dropped(cs, fl);
        self.gc_id = self.gc_id + 1;
        let n = self.chunks.len();
        let mut kept: Vec<(RowId, Arc<Chunk>)> = Vec::new();
        let mut events: Vec<StoreEvent2> = Vec::new();
        let mut j: usize = 0;
        proof {
            assert(cs.take(0) =~= Seq::<(u128, ChunkView)>::empty());
            reveal(Seq::filter);
            assert(chunks_view(kept@) =~= cs.take(0).filter(kp));
        }
        while j < n
            invariant
                chunks_view(self.chunks@) == cs,
                n == cs.len(),
                self.id@ == o.id,
                self.insert_id == o.insert_id,
                self.gc_id == o.gc_id + 1,
                self.event_id == o.event_id,
                o.event_id + n <= u64::MAX,
                kp == chunk_kept(cs, fl),
                dr == chunk_dropped(cs, fl),
                forall|id: u128| #[trigger] ids@.contains(id) <==> dropped_id(cs, fl, id),
                j <= n,
                chunks_view(kept@) == cs.take(j as int).filter(kp),
                events@.len() == cs.take(j as int).filter(dr).len(),
                events@.len() <= j,
                forall|i: int|
                    0 <= i < events@.len() ==> gc_event(
                        #[trigger] events@[i],
                        o,
                        cs.take(j as int).filter(dr)[i].1,
                        i,
                    ),
            decreases n - j,
        {
            let entry = &self.chunks[j];
            let gone = u128s_contain(&ids, entry.1.id().0);
            let ghost x = cs[j as int];
            let ghost ko = kept@;
            let ghost eo = events@;
            proof {
                assert(x == (entry.0.0, entry.1@));
                assert(cs.take(j + 1).drop_last() =~= cs.take(j as int));
                assert(cs.take(j + 1).last() == x);
                reveal(Seq::filter);
                assert(kp(x) == !gone);
                assert(dr(x) == gone);
            }
            if gone {
                let ev = StoreEvent2 {
                    store_id: self.id.duplicate(),
                    store_generation: self.generation(),
                    event_id: self.event_id + events.len() as u64,
                    diff: StoreDiff2::deletion(entry.1.clone()),
                };
                events.push(ev);
                proof {
                    let f = cs.take(j + 1).filter(dr);
                    assert(f == cs.take(j as int).filter(dr).push(x));
                    assert forall|i: int| 0 <= i < events@.len() implies gc_event(
                        #[trigger] events@[i],
                        o,
                        f[i].1,
                        i,
                    ) by {
                        if i < eo.len() {
                            assert(events@[i] == eo[i]);
                        }
                    }
                    assert(chunks_view(kept@) == cs.take(j + 1).filter(kp));
                }
            } else {
                kept.push((entry.0, entry.1.clone()));
                proof {
                    assert(chunks_view(kept@) =~= chunks_view(ko).push(x));
                    assert(cs.take(j + 1).filter(dr) == cs.take(j as int).filter(dr));
                }
            }
            j = j + 1;
        }
        proof {
            assert(cs.take(n as int) =~= cs);
        }
        let ghost si = o.static_index;
        let sk_n = self.static_index.len();
        let mut statics: Vec<StaticEntry> = Vec::new();
        let mut a: usize = 0;
        proof {
            reveal(Seq::filter);
            assert(si.take(0) =~= Seq::<StaticKey>::empty());
            assert(static_index_view(statics@) =~= si.take(0).filter(static_kept(cs, fl)));
        }
        while a < sk_n
            invariant
                static_index_view(self.static_index@) == si,
                sk_n == si.len(),
                forall|id: u128| #[trigger] ids@.contains(id) <==> dropped_id(cs, fl, id),
                a <= sk_n,
                static_index_view(statics@) == si.take(a as int).filter(static_kept(cs, fl)),
            decreases sk_n - a,
        {
            let e = &self.static_index[a];
            let gone = u128s_contain(&ids, e.chunk_id.0);
            let ghost so = statics@;
            proof {
                assert(si[a as int] == static_entry_view(*e));
                assert(si.take(a + 1).drop_last() =~= si.take(a as int));
                assert(si.take(a + 1).last() == si[a as int]);
                reveal(Seq::filter);
            }
            if !gone {
                statics.push(e.duplicate());
                proof {
                    assert(static_index_view(statics@) =~= static_index_view(so).push(si[a as int]));
                }
            }
            a = a + 1;
        }
        proof {
            assert(si.take(sk_n as int) =~= si);
        }
        let ghost ti = o.temporal_index;
        let tk_n = self.temporal_index.len();
        let mut temporals: Vec<TemporalEntry> = Vec::new();
        let mut b: usize = 0;
        proof {
            reveal(Seq::filter);
            assert(ti.take(0) =~= Seq::<TemporalKey>::empty());
            assert(temporal_index_view(temporals@) =~= ti.take(0).filter(temporal_kept(cs, fl)));
        }
        while b < tk_n
            invariant
                temporal_index_view(self.temporal_index@) == ti,
                tk_n == ti.len(),
                forall|id: u128| #[trigger] ids@.contains(id) <==> dropped_id(cs, fl, id),
                b <= tk_n,
                temporal_index_view(temporals@) == ti.take(b as int).filter(temporal_kept(cs, fl)),
            decreases tk_n - b,
        {
            let e = &self.temporal_index[b];
            let gone = u128s_contain(&ids, e.chunk_id.0);
            let ghost to = temporals@;
            proof {
                assert(ti[b as int] == temporal_entry_view(*e));
                assert(ti.take(b + 1).drop_last() =~= ti.take(b as int));
                assert(ti.take(b + 1).last() == ti[b as int]);
                reveal(Seq::filter);
            }
            if !gone {
                temporals.push(e.duplicate());
                proof {
                    assert(temporal_index_view(temporals@) =~= temporal_index_view(to).push(
                        ti[b as int],
                    ));
                }
            }
            b = b + 1;
        }
        proof {
            assert(ti.take(tk_n as int) =~= ti);
        }
        self.chunks = kept;
        self.static_index = statics;
        self.temporal_index = temporals;
        self.event_id = self.event_id + events.len() as u64;
        proof {
            lemma_gc_drops_temporal(o, dont_protect@, protect_latest as nat, target);
            lemma_gc_wf(o, fl, self@);
            crate::stats::lemma_stats_fit_filter(cs, kp, true);
            crate::stats::lemma_stats_fit_filter(cs, kp, false);
        }
        let stats_after = self.stats();
        let diff = stats_before.sub(stats_after);
        (events, diff)
    }
}


/// Every chunk that garbage collection marks for dropping is a candidate: temporal and
/// unprotected.
proof fn lemma_gc_flags_candidate(s: StoreView, dp: Seq<ComponentName>, t: nat, target: GcTarget, n: int, k: int)
    requires
        0 <= k < n,
        gc_flags(s, dp, t, target, n)[k],
    ensures
        gc_candidate(s, dp, t, s.chunks[k].1),
    decreases n,
{
    lemma_gc_flags_len(s, dp, t, target, n - 1);
    let prev = gc_flags(s, dp, t, target, n - 1);
    if k < n - 1 {
        assert(gc_flags(s, dp, t, target, n)[k] == prev[k]);
        lemma_gc_flags_candidate(s, dp, t, target, n - 1, k);
    }
}

/// A filter that keeps every element keeps the sequence.
proof fn lemma_filter_keeps_all<A>(s: Seq<A>, p: spec_fn(A) -> bool)
    requires
        forall|i: int| 0 <= i < s.len() ==> p(#[trigger] s[i]),
    ensures
        s.filter(p) == s,
    decreases s.len(),
{
    reveal(Seq::filter);
    if s.len() > 0 {
        let dl = s.drop_last();
        assert forall|i: int| 0 <= i < dl.len() implies p(#[trigger] dl[i]) by {
            assert(dl[i] == s[i]);
        }
        lemma_filter_keeps_all(dl, p);
        assert(p(s.last()));
        assert(s =~= dl.push(s.last()));
    }
}

/// The entry of the first `m` of `idx` with the largest start among those for `entity`,
/// `component` and `timeline` starting at or before `at`, if there is one.
proof fn lemma_latest_in_prefix(
    idx: Seq<TemporalKey>,
    entity: Seq<char>,
    component: Seq<char>,
    timeline: (Seq<char>, TimeType),
    at: i64,
    m: int,
) -> (z: Option<int>)
    requires
        0 <= m <= idx.len(),
    ensures
        z matches Some(i) ==> 0 <= i < m && idx[i].0 == entity && idx[i].1 == component && idx[i].2
            == timeline && idx[i].3 <= at,
        z matches Some(i) ==> forall|j: int|
            0 <= j < m && idx[j].0 == entity && idx[j].1 == component && idx[j].2 == timeline
                && idx[j].3 <= at ==> #[trigger] idx[j].3 <= idx[i].3,
        z is None ==> forall|j: int|
            0 <= j < m ==> !(idx[j].0 == entity && idx[j].1 == component && #[trigger] idx[j].2
                == timeline && idx[j].3 <= at),
    decreases m,
{
    if m == 0 {
        None
    } else {
        let prev = lemma_latest_in_prefix(idx, entity, component, timeline, at, m - 1);
        let y = idx[m - 1];
        let fits = y.0 == entity && y.1 == component && y.2 == timeline && y.3 <= at;
        match prev {
            Some(i) => {
                if fits && idx[i].3 < y.3 {
                    Some(m - 1)
                } else {
                    Some(i)
                }
            },
            None => {
                if fits {
                    Some(m - 1)
                } else {
                    None
                }
            },
        }
    }
}

/// A store with a visible entry for a latest-at query has an entry with the largest start.
proof fn lemma_latest_top_exists(
    s: StoreView,
    entity: Seq<char>,
    component: Seq<char>,
    timeline: (Seq<char>, TimeType),
    at: i64,
    y: TemporalKey,
) -> (z: TemporalKey)
    requires
        s.latest_entry(entity, component, timeline, at, y),
    ensures
        s.latest_top_entry(entity, component, timeline, at, z),
{
    let idx = s.temporal_index;
    let j = choose|j: int| 0 <= j < idx.len() && idx[j] == y;
    let found = lemma_latest_in_prefix(idx, entity, component, timeline, at, idx.len() as int);
    assert(idx[j].2 == timeline);
    let i = found.unwrap();
    let z = idx[i];
    assert(idx.contains(z));
    assert forall|w: TemporalKey| #[trigger] s.latest_entry(entity, component, timeline, at, w) implies w.3
        <= z.3 by {
        let k = choose|k: int| 0 <= k < idx.len() && idx[k] == w;
        assert(idx[k].3 <= idx[i].3);
    }
    z
}

/// Garbage collection that protects at least the latest chunk of each component leaves a
/// latest-at query at the largest time unchanged, for a component not in `dont_protect`:
/// the entity keeps its static chunk for it, if any, unchanged; the entries with the largest
/// start are the same before and after, and each of them finds the same chunk; so a list of
/// chunks answers the query after (see `latest_at`) exactly when it answered it before.
pub proof fn law_gc_keeps_latest_at_end(
    s: StoreView,
    n: StoreView,
    dont_protect: Seq<ComponentName>,
    protect_latest: nat,
    target: GcTarget,
    entity: Seq<char>,
    component: Seq<char>,
    timeline: (Seq<char>, TimeType),
)
    requires
        s.wf(),
        gc_result(s, gc_drops(s, dont_protect, protect_latest, target), n),
        protect_latest >= 1,
        !names_contain(dont_protect, component),
    ensures
        n.static_chunk_id(entity, component) == s.static_chunk_id(entity, component),
        forall|x: TemporalKey|
            #[trigger] n.latest_top_entry(entity, component, timeline, crate::types::MAX_TIME_I64, x)
                <==> s.latest_top_entry(entity, component, timeline, crate::types::MAX_TIME_I64, x),
        forall|x: TemporalKey|
            #[trigger] s.latest_top_entry(entity, component, timeline, crate::types::MAX_TIME_I64, x)
                ==> n.has_chunk(x.4) && n.chunk(x.4) == s.chunk(x.4),
        n.static_chunk_id(entity, component) matches Some(id) ==> n.chunk(id) == s.chunk(id),
        forall|r: Seq<ChunkView>|
            #[trigger] n.latest_at_answer(entity, component, timeline, crate::types::MAX_TIME_I64, r)
                <==> s.latest_at_answer(entity, component, timeline, crate::types::MAX_TIME_I64, r),
{
    let at = crate::types::MAX_TIME_I64;
    let cs = s.chunks;
    let fl = gc_drops(s, dont_protect, protect_latest, target);
    lemma_gc_flags_len(s, dont_protect, protect_latest, target, cs.len() as int);
    lemma_gc_drops_temporal(s, dont_protect, protect_latest, target);
    lemma_gc_wf(s, fl, n);
    // a dropped chunk is temporal and unprotected
    assert forall|id: u128| dropped_id(cs, fl, id) implies exists|k: int|
        0 <= k < cs.len() && cs[k].1.id.0 == id && cs[k].1.timelines.len() > 0 && !is_protected(
            s,
            dont_protect,
            protect_latest,
            id,
        ) by {
        let k = choose|k: int| 0 <= k < cs.len() && k < fl.len() && fl[k] && cs[k].1.id.0 == id;
        lemma_gc_flags_candidate(s, dont_protect, protect_latest, target, cs.len() as int, k);
    }
    // static entries are never dropped
    let sk = static_kept(cs, fl);
    assert forall|i: int| 0 <= i < s.static_index.len() implies sk(#[trigger] s.static_index[i]) by {
        let y = s.static_index[i];
        assert(static_entry_stored(cs, y));
        let k = choose|k: int| 0 <= k < cs.len() && cs[k].1.id.0 == y.2 && added_static(cs[k].1, y);
        if dropped_id(cs, fl, y.2) {
            let k2 = choose|k2: int|
                0 <= k2 < cs.len() && cs[k2].1.id.0 == y.2 && cs[k2].1.timelines.len() > 0 && !is_protected(
                    s,
                    dont_protect,
                    protect_latest,
                    y.2,
                );
            if k != k2 {
                assert(cs[k].1.id != cs[k2].1.id);
            }
        }
    }
    lemma_filter_keeps_all(s.static_index, sk);
    assert(n.static_index == s.static_index);
    // the latest entries are protected, so kept
    let tk = temporal_kept(cs, fl);
    assert forall|x: TemporalKey| #[trigger] s.latest_top_entry(entity, component, timeline, at, x) implies tk(x)
        && n.temporal_index.contains(x) by {
        law_latest_chunks_are_protected(s, entity, component, timeline, dont_protect, protect_latest, x);
        if dropped_id(cs, fl, x.4) {
            let k = choose|k: int|
                0 <= k < cs.len() && cs[k].1.id.0 == x.4 && cs[k].1.timelines.len() > 0 && !is_protected(
                    s,
                    dont_protect,
                    protect_latest,
                    x.4,
                );
        }
        let i = choose|i: int| 0 <= i < s.temporal_index.len() && s.temporal_index[i] == x;
        s.temporal_index.lemma_filter_contains(tk, i);
    }
    assert forall|y: TemporalKey| n.temporal_index.contains(y) implies s.temporal_index.contains(y) by {
        s.temporal_index.lemma_filter_contains_rev(tk, y);
    }
    assert forall|x: TemporalKey|
        #[trigger] n.latest_top_entry(entity, component, timeline, at, x) <==> s.latest_top_entry(
            entity,
            component,
            timeline,
            at,
            x,
        ) by {
        if s.latest_top_entry(entity, component, timeline, at, x) {
            assert forall|y: TemporalKey| #[trigger] n.latest_entry(entity, component, timeline, at, y) implies y.3
                <= x.3 by {
                assert(s.latest_entry(entity, component, timeline, at, y));
            }
        }
        if n.latest_top_entry(entity, component, timeline, at, x) {
            assert(s.latest_entry(entity, component, timeline, at, x));
            let z = lemma_latest_top_exists(s, entity, component, timeline, at, x);
            assert(n.latest_entry(entity, component, timeline, at, z));
            assert forall|y: TemporalKey| #[trigger] s.latest_entry(entity, component, timeline, at, y) implies y.3
                <= x.3 by {
            }
        }
    }
    // and their chunks stay, unchanged
    let kp = chunk_kept(cs, fl);
    let f = cs.filter(kp);
    assert forall|x: TemporalKey|
        #[trigger] s.latest_top_entry(entity, component, timeline, at, x) implies n.has_chunk(x.4)
            && n.chunk(x.4) == s.chunk(x.4) by {
        assert(tk(x));
        let i = choose|i: int| 0 <= i < s.temporal_index.len() && s.temporal_index[i] == x;
        assert(s.has_chunk(s.temporal_index[i].4));
        let k = choose|k: int| 0 <= k < cs.len() && cs[k].1.id.0 == x.4;
        lemma_chunk_at(s, k);
        assert(kp(cs[k]));
        cs.lemma_filter_contains(kp, k);
        let a = choose|a: int| 0 <= a < f.len() && f[a] == cs[k];
        lemma_chunk_at(n, a);
    }
    // the static chunk stays, unchanged
    if let Some(id) = n.static_chunk_id(entity, component) {
        lemma_static_entry_chunk(s, entity, component);
        let k = choose|k: int| 0 <= k < cs.len() && cs[k].1.id.0 == id;
        lemma_chunk_at(s, k);
        if dropped_id(cs, fl, id) {
            let k2 = choose|k2: int| 0 <= k2 < cs.len() && cs[k2].1.id.0 == id && cs[k2].1.timelines.len() > 0 && !is_protected(
                s,
                dont_protect,
                protect_latest,
                id,
            );
            if k != k2 {
                assert(cs[k].1.id != cs[k2].1.id);
            }
        }
        assert(kp(cs[k]));
        cs.lemma_filter_contains(kp, k);
        let a = choose|a: int| 0 <= a < f.len() && f[a] == cs[k];
        lemma_chunk_at(n, a);
    }
    // so a latest-at answer at the largest time is the same
    assert((forall|x: TemporalKey| !n.latest_entry(entity, component, timeline, at, x)) <==> (forall|x: TemporalKey|
        !s.latest_entry(entity, component, timeline, at, x))) by {
        if exists|y: TemporalKey| s.latest_entry(entity, component, timeline, at, y) {
            let y = choose|y: TemporalKey| s.latest_entry(entity, component, timeline, at, y);
            let z = lemma_latest_top_exists(s, entity, component, timeline, at, y);
            assert(n.latest_top_entry(entity, component, timeline, at, z));
        }
        if exists|y: TemporalKey| n.latest_entry(entity, component, timeline, at, y) {
            let y = choose|y: TemporalKey| n.latest_entry(entity, component, timeline, at, y);
            assert(s.latest_entry(entity, component, timeline, at, y));
        }
    }
    assert forall|ch: ChunkView| n.top_chunk(entity, component, timeline, at, ch) <==> s.top_chunk(
        entity,
        component,
        timeline,
        at,
        ch,
    ) by {
        if n.top_chunk(entity, component, timeline, at, ch) {
            let x = choose|x: TemporalKey| #[trigger] n.latest_top_entry(entity, component, timeline, at, x) && x.4
                == ch.id.0 && ch == n.chunk(x.4);
            assert(s.latest_top_entry(entity, component, timeline, at, x));
        }
        if s.top_chunk(entity, component, timeline, at, ch) {
            let x = choose|x: TemporalKey| #[trigger] s.latest_top_entry(entity, component, timeline, at, x) && x.4
                == ch.id.0 && ch == s.chunk(x.4);
            assert(n.latest_top_entry(entity, component, timeline, at, x));
        }
    }
    assert forall|r: Seq<ChunkView>|
        #[trigger] n.latest_at_answer(entity, component, timeline, at, r) <==> s.latest_at_answer(
            entity,
            component,
            timeline,
            at,
            r,
        ) by {
        assert forall|i: int| 0 <= i < r.len() implies (n.top_chunk(entity, component, timeline, at, r[i])
            <==> s.top_chunk(entity, component, timeline, at, r[i])) by {}
        if n.latest_at_answer(entity, component, timeline, at, r) {
            assert forall|x: TemporalKey| #[trigger] s.latest_top_entry(entity, component, timeline, at, x) implies exists|i: int|
                0 <= i < r.len() && r[i].id.0 == x.4 by {
                assert(n.latest_top_entry(entity, component, timeline, at, x));
            }
            assert forall|i: int| 0 <= i < r.len() implies s.top_chunk(entity, component, timeline, at, #[trigger] r[i]) by {
                assert(n.top_chunk(entity, component, timeline, at, r[i]));
            }
        }
        if s.latest_at_answer(entity, component, timeline, at, r) {
            assert forall|x: TemporalKey| #[trigger] n.latest_top_entry(entity, component, timeline, at, x) implies exists|i: int|
                0 <= i < r.len() && r[i].id.0 == x.4 by {
                assert(s.latest_top_entry(entity, component, timeline, at, x));
            }
            assert forall|i: int| 0 <= i < r.len() implies n.top_chunk(entity, component, timeline, at, #[trigger] r[i]) by {
                assert(s.top_chunk(entity, component, timeline, at, r[i]));
            }
        }
    }
}

/// Toward a byte target, the first `n` flags drop at least the target, or every candidate
/// among the first `n` chunks; and each flagged chunk was flagged before the target was met.
proof fn lemma_gc_flags_enough(s: StoreView, dp: Seq<ComponentName>, t: nat, b: u64, n: int)
    requires
        0 <= n <= s.chunks.len(),
    ensures
        dropped_upto(s.chunks, gc_flags(s, dp, t, GcTarget::DropAtLeastBytes(b), n), n) >= b
            || forall|k: int|
            0 <= k < n && gc_candidate(s, dp, t, s.chunks[k].1) ==> #[trigger] gc_flags(
                s,
                dp,
                t,
                GcTarget::DropAtLeastBytes(b),
                n,
            )[k],
        forall|k: int|
            0 <= k < n && #[trigger] gc_flags(s, dp, t, GcTarget::DropAtLeastBytes(b), n)[k] ==> dropped_upto(
                s.chunks,
                gc_flags(s, dp, t, GcTarget::DropAtLeastBytes(b), n),
                k,
            ) < b,
    decreases n,
{
    if n > 0 {
        let target = GcTarget::DropAtLeastBytes(b);
        let cs = s.chunks;
        lemma_gc_flags_enough(s, dp, t, b, n - 1);
        lemma_gc_flags_len(s, dp, t, target, n - 1);
        let prev = gc_flags(s, dp, t, target, n - 1);
        let g = gc_candidate(s, dp, t, cs[n - 1].1) && dropped_upto(cs, prev, n - 1) < b;
        let fl = gc_flags(s, dp, t, target, n);
        assert(fl == prev.push(g));
        lemma_dropped_upto_push(cs, prev, g, n - 1);
        assert forall|k: int| 0 <= k < n && #[trigger] fl[k] implies dropped_upto(cs, fl, k) < b by {
            lemma_dropped_upto_push(cs, prev, g, k);
            if k < n - 1 {
                assert(fl[k] == prev[k]);
            }
        }
        if dropped_upto(cs, prev, n - 1) < b {
            assert forall|k: int| 0 <= k < n && gc_candidate(s, dp, t, cs[k].1) implies #[trigger] fl[k] by {
                if k < n - 1 {
                    assert(fl[k] == prev[k]);
                }
            }
        }
    }
}

/// Garbage collection toward a byte target drops at least that many bytes, unless it drops
/// every temporal, unprotected chunk; and no chunk is dropped once the target is met: each
/// dropped chunk follows, in store order, fewer dropped bytes than the target.
pub proof fn law_gc_drops_at_least(s: StoreView, dont_protect: Seq<ComponentName>, protect_latest: nat, b: u64)
    ensures
        dropped_upto(
            s.chunks,
            gc_drops(s, dont_protect, protect_latest, GcTarget::DropAtLeastBytes(b)),
            s.chunks.len() as int,
        ) >= b || forall|k: int|
            0 <= k < s.chunks.len() && gc_candidate(s, dont_protect, protect_latest, s.chunks[k].1)
                ==> #[trigger] gc_drops(s, dont_protect, protect_latest, GcTarget::DropAtLeastBytes(b))[k],
        forall|k: int|
            0 <= k < s.chunks.len() && #[trigger] gc_drops(
                s,
                dont_protect,
                protect_latest,
                GcTarget::DropAtLeastBytes(b),
            )[k] ==> dropped_upto(
                s.chunks,
                gc_drops(s, dont_protect, protect_latest, GcTarget::DropAtLeastBytes(b)),
                k,
            ) < b,
{
    lemma_gc_flags_enough(s, dont_protect, protect_latest, b, s.chunks.len() as int);
}

/// Without protection, every temporal chunk is a candidate for collection of everything.
proof fn lemma_gc_everything_flags(s: StoreView, dp: Seq<ComponentName>, n: int, k: int)
    requires
        0 <= k < n,
    ensures
        gc_flags(s, dp, 0, GcTarget::Everything, n)[k] == (s.chunks[k].1.timelines.len() > 0),
    decreases n,
{
    lemma_gc_flags_len(s, dp, 0, GcTarget::Everything, n - 1);
    if k < n - 1 {
        lemma_gc_everything_flags(s, dp, n - 1, k);
    } else {
        assert(!is_protected(s, dp, 0, s.chunks[k].1.id.0));
    }
}

/// The chunks that garbage collection drops, in store order.
pub open spec fn gc_dropped_chunks(s: StoreView, flags: Seq<bool>) -> Seq<(u128, ChunkView)> {
    s.chunks.filter(chunk_dropped(s.chunks, flags))
}

/// What garbage collection reports is what it drops: the dropped chunks (one deletion event
/// each, see `gc`) are distinct temporal chunks of the store before, none of them stored
/// after; every chunk it does not report stays stored; every static chunk stays stored.
pub proof fn law_gc_reports_what_it_drops(
    s: StoreView,
    n: StoreView,
    dont_protect: Seq<ComponentName>,
    protect_latest: nat,
    target: GcTarget,
)
    requires
        s.wf(),
        gc_result(s, gc_drops(s, dont_protect, protect_latest, target), n),
    ensures
        forall|a: int, b: int|
            0 <= a < b < gc_dropped_chunks(s, gc_drops(s, dont_protect, protect_latest, target)).len()
                ==> gc_dropped_chunks(s, gc_drops(s, dont_protect, protect_latest, target))[a].1.id
                != gc_dropped_chunks(s, gc_drops(s, dont_protect, protect_latest, target))[b].1.id,
        forall|a: int|
            0 <= a < gc_dropped_chunks(s, gc_drops(s, dont_protect, protect_latest, target)).len() ==> {
                let x = #[trigger] gc_dropped_chunks(s, gc_drops(s, dont_protect, protect_latest, target))[a];
                &&& s.chunks.contains(x)
                &&& x.1.timelines.len() > 0
                &&& !n.has_chunk(x.1.id.0)
            },
        forall|x: (u128, ChunkView)|
            s.chunks.contains(x) && !dropped_id(s.chunks, gc_drops(s, dont_protect, protect_latest, target), x.1.id.0)
                ==> #[trigger] n.chunks.contains(x),
        forall|x: (u128, ChunkView)|
            s.chunks.contains(x) && x.1.timelines.len() == 0 ==> #[trigger] n.chunks.contains(x),
{
    let cs = s.chunks;
    let fl = gc_drops(s, dont_protect, protect_latest, target);
    let dr = chunk_dropped(cs, fl);
    let kp = chunk_kept(cs, fl);
    let d = cs.filter(dr);
    let f = cs.filter(kp);
    lemma_gc_flags_len(s, dont_protect, protect_latest, target, cs.len() as int);
    lemma_gc_drops_temporal(s, dont_protect, protect_latest, target);
    lemma_filter_pairwise(cs, dr, |a: (u128, ChunkView), b: (u128, ChunkView)| a.1.id != b.1.id);
    // a dropped id is that of a temporal chunk, the only one with that id
    assert forall|j: int| 0 <= j < cs.len() && dropped_id(cs, fl, cs[j].1.id.0) implies cs[j].1.timelines.len() > 0 by {
        let k = choose|k: int| 0 <= k < cs.len() && k < fl.len() && fl[k] && cs[k].1.id.0 == cs[j].1.id.0;
        if k != j {
            assert(cs[k].1.id != cs[j].1.id);
        }
    }
    assert forall|a: int| 0 <= a < d.len() implies {
        let x = #[trigger] d[a];
        &&& cs.contains(x)
        &&& x.1.timelines.len() > 0
        &&& !n.has_chunk(x.1.id.0)
    } by {
        lemma_filter_from(cs, dr, a);
        let j = choose|j: int| 0 <= j < cs.len() && d[a] == cs[j] && dr(cs[j]);
        assert(cs.contains(cs[j]));
        if n.has_chunk(d[a].1.id.0) {
            let m = choose|m: int| 0 <= m < n.chunks.len() && n.chunks[m].1.id.0 == d[a].1.id.0;
            lemma_filter_from(cs, kp, m);
        }
    }
    assert forall|x: (u128, ChunkView)|
        cs.contains(x) && !dropped_id(cs, fl, x.1.id.0) implies #[trigger] n.chunks.contains(x) by {
        let j = choose|j: int| 0 <= j < cs.len() && cs[j] == x;
        cs.lemma_filter_contains(kp, j);
    }
    assert forall|x: (u128, ChunkView)| cs.contains(x) && x.1.timelines.len() == 0 implies #[trigger] n.chunks.contains(
        x,
    ) by {
        let j = choose|j: int| 0 <= j < cs.len() && cs[j] == x;
        cs.lemma_filter_contains(kp, j);
    }
}

/// Garbage collection of everything with no protection drops exactly the temporal chunks:
/// afterwards the store holds exactly the static chunks it held, and its statistics of
/// temporal chunks are all zero.
pub proof fn law_gc_everything_unprotected(s: StoreView, n: StoreView, dont_protect: Seq<ComponentName>)
    requires
        s.wf(),
        gc_result(s, gc_drops(s, dont_protect, 0, GcTarget::Everything), n),
    ensures
        forall|k: int|
            0 <= k < s.chunks.len() ==> (#[trigger] gc_drops(s, dont_protect, 0, GcTarget::Everything)[k]
                <==> s.chunks[k].1.timelines.len() > 0),
        forall|x: (u128, ChunkView)|
            #[trigger] n.chunks.contains(x) <==> (s.chunks.contains(x) && x.1.timelines.len() == 0),
        stats_fold(store_chunk_views(n.chunks), false) == zero_stats(),
{
    let cs = s.chunks;
    let fl = gc_drops(s, dont_protect, 0, GcTarget::Everything);
    let kp = chunk_kept(cs, fl);
    lemma_gc_flags_len(s, dont_protect, 0, GcTarget::Everything, cs.len() as int);
    assert forall|k: int| 0 <= k < cs.len() implies (#[trigger] fl[k] <==> cs[k].1.timelines.len() > 0) by {
        lemma_gc_everything_flags(s, dont_protect, cs.len() as int, k);
    }
    law_gc_reports_what_it_drops(s, n, dont_protect, 0, GcTarget::Everything);
    assert forall|x: (u128, ChunkView)| #[trigger] n.chunks.contains(x) <==> (cs.contains(x) && x.1.timelines.len() == 0) by {
        if n.chunks.contains(x) {
            let m = choose|m: int| 0 <= m < n.chunks.len() && n.chunks[m] == x;
            lemma_filter_from(cs, kp, m);
            let j = choose|j: int| 0 <= j < cs.len() && n.chunks[m] == cs[j] && kp(cs[j]);
            assert(cs.contains(x));
            if x.1.timelines.len() > 0 {
                assert(fl[j]);
                assert(dropped_id(cs, fl, x.1.id.0));
            }
        }
    }
    let views = store_chunk_views(n.chunks);
    assert forall|i: int| 0 <= i < views.len() implies chunk_is_static(#[trigger] views[i]) != false by {
        assert(n.chunks.contains(n.chunks[i]));
    }
    lemma_stats_fold_none(views, false);
}

/// The start of chunk `c` on timeline `tl`: the smallest time of its column there; the
/// static time when it has none.
pub open spec fn start_on(c: ChunkView, tl: (Seq<char>, TimeType)) -> i64 {
    match c.timeline_index(tl) {
        Some(i) => c.timelines[i].time_range.min.0,
        None => crate::types::STATIC_TIME_I64,
    }
}

/// The chunks `r` are in strictly increasing order of (start on `tl`, id).
pub open spec fn by_start(r: Seq<ChunkView>, tl: (Seq<char>, TimeType)) -> bool {
    forall|i: int, j: int|
        0 <= i < j < r.len() ==> pair_lt(
            start_on(r[i], tl) as int,
            r[i].id.0 as int,
            start_on(r[j], tl) as int,
            r[j].id.0 as int,
        )
}

/// The start of `chunk` on `timeline` (see [`start_on`]).
fn start_key(chunk: &Chunk, timeline: &Timeline) -> (r: i64)
    requires
        chunk@.wf(),
    ensures
        r == start_on(chunk@, timeline@),
{
    match chunk.timeline_position(timeline) {
        None => crate::types::STATIC_TIME_I64,
        Some(ti) => {
            let cols = chunk.timelines();
            proof {
                assert(cols@[ti as int]@ == chunk@.timelines[ti as int]);
                let tc = choose|tc: int|
                    0 <= tc < chunk@.timelines.len() && chunk@.timelines[tc].timeline == timeline@;
                if tc < ti {
                    assert(chunk@.timelines[tc].timeline != chunk@.timelines[ti as int].timeline);
                } else if ti < tc {
                    assert(chunk@.timelines[ti as int].timeline != chunk@.timelines[tc].timeline);
                }
            }
            cols[ti].time_range().min.0
        },
    }
}

/// Adds `c` at its place among chunks in increasing (start on `timeline`, id) order; no
/// chunk there has its id.
fn insert_by_start(v: &mut Vec<Arc<Chunk>>, c: Arc<Chunk>, timeline: &Timeline)
    requires
        by_start(arcs_view(old(v)@), timeline@),
        c@.wf(),
        forall|a: int| 0 <= a < old(v)@.len() ==> (#[trigger] old(v)@[a])@.wf(),
        forall|a: int| 0 <= a < old(v)@.len() ==> old(v)@[a]@.id != c@.id,
    ensures
        by_start(arcs_view(final(v)@), timeline@),
        forall|a: int| 0 <= a < final(v)@.len() ==> (#[trigger] final(v)@[a])@.wf(),
        forall|y: ChunkView|
            #[trigger] arcs_view(final(v)@).contains(y) <==> (arcs_view(old(v)@).contains(y) || y == c@),
{
    let ghost o = arcs_view(v@);
    let ghost ov = v@;
    let key_t = start_key(&c, timeline);
    let key_id = c.id().0;
    let n = v.len();
    let mut p: usize = 0;
    while p < n
        invariant
            n == o.len(),
            v@ == ov,
            o == arcs_view(ov),
            forall|a: int| 0 <= a < ov.len() ==> (#[trigger] ov[a])@.wf(),
            key_t == start_on(c@, timeline@),
            key_id == c@.id.0,
            p <= n,
            forall|i: int| 0 <= i < p ==> pair_lt(start_on(o[i], timeline@) as int, o[i].id.0 as int, key_t as int, key_id as int),
        ensures
            p <= n,
            v@ == ov,
            forall|i: int| 0 <= i < p ==> pair_lt(start_on(o[i], timeline@) as int, o[i].id.0 as int, key_t as int, key_id as int),
            p < n ==> !pair_lt(start_on(o[p as int], timeline@) as int, o[p as int].id.0 as int, key_t as int, key_id as int),
        decreases n - p,
    {
        proof {
            assert(o[p as int] == v@[p as int]@);
        }
        let t = start_key(&v[p], timeline);
        let id = v[p].id().0;
        if !(t < key_t || (t == key_t && id < key_id)) {
            break;
        }
        p = p + 1;
    }
    let ghost xv = c@;
    v.insert(p, c);
    proof {
        let w = arcs_view(v@);
        assert(w =~= o.insert(p as int, xv));
        assert forall|i: int, j: int| 0 <= i < j < w.len() implies pair_lt(
            start_on(w[i], timeline@) as int,
            w[i].id.0 as int,
            start_on(w[j], timeline@) as int,
            w[j].id.0 as int,
        ) by {
            if j < p {
            } else if j == p {
                assert(w[j] == xv && w[i] == o[i]);
            } else if i < p {
                assert(w[j] == o[j - 1] && w[i] == o[i]);
                if j - 1 > p {
                    assert(pair_lt(
                        start_on(o[i], timeline@) as int,
                        o[i].id.0 as int,
                        start_on(o[j - 1], timeline@) as int,
                        o[j - 1].id.0 as int,
                    ));
                }
            } else if i == p {
                assert(w[j] == o[j - 1]);
                assert(w[i] == xv);
                assert(o[p as int] == ov[p as int]@);
                assert(o[p as int].id != xv.id);
                assert(pair_lt(key_t as int, key_id as int, start_on(o[p as int], timeline@) as int, o[p as int].id.0 as int));
                if j - 1 > p {
                    assert(pair_lt(
                        start_on(o[p as int], timeline@) as int,
                        o[p as int].id.0 as int,
                        start_on(o[j - 1], timeline@) as int,
                        o[j - 1].id.0 as int,
                    ));
                }
            } else {
                assert(w[i] == o[i - 1] && w[j] == o[j - 1]);
            }
        }
        assert forall|a: int| 0 <= a < v@.len() implies (#[trigger] v@[a])@.wf() by {
            if a < p {
                assert(v@[a] == ov[a]);
            } else if a > p {
                assert(v@[a] == ov[a - 1]);
            }
        }
        assert forall|y: ChunkView| #[trigger] w.contains(y) <==> (o.contains(y) || y == xv) by {
            if w.contains(y) {
                let i = choose|i: int| 0 <= i < w.len() && w[i] == y;
                if i < p {
                    assert(o[i] == y);
                } else if i > p {
                    assert(o[i - 1] == y);
                }
            }
            if o.contains(y) {
                let i = choose|i: int| 0 <= i < o.len() && o[i] == y;
                if i < p {
                    assert(w[i] == y);
                } else {
                    assert(w[i + 1] == y);
                }
            }
            if y == xv {
                assert(w[p as int] == y);
            }
        }
    }
}

/// The positions among the first `n` of the temporal index `idx` of the entries for the
/// same entity, component and timeline as entry `i` that start strictly later.
pub open spec fn later_positions(idx: Seq<TemporalKey>, i: int, n: int) -> Set<int> {
    Set::new(
        |j: int|
            0 <= j < n && idx[j].0 == idx[i].0 && idx[j].1 == idx[i].1 && idx[j].2 == idx[i].2
                && idx[j].3 > idx[i].3,
    )
}

/// The count of entries starting later that protection uses is the number of such entries.
proof fn lemma_later_entries_count(idx: Seq<TemporalKey>, i: int, n: int)
    requires
        0 <= n,
    ensures
        later_positions(idx, i, n).finite(),
        later_entries(idx, i, n) == later_positions(idx, i, n).len(),
    decreases n,
{
    if n == 0 {
        assert(later_positions(idx, i, 0) =~= Set::<int>::empty());
    } else {
        lemma_later_entries_count(idx, i, n - 1);
        let prev = later_positions(idx, i, n - 1);
        let j = n - 1;
        if idx[j].0 == idx[i].0 && idx[j].1 == idx[i].1 && idx[j].2 == idx[i].2 && idx[j].3 > idx[i].3 {
            assert(later_positions(idx, i, n) =~= prev.insert(j));
            vstd::set::axiom_set_insert_finite(prev, j);
            vstd::set::axiom_set_insert_len(prev, j);
            assert(!prev.contains(j));
        } else {
            assert(later_positions(idx, i, n) =~= prev);
        }
    }
}

/// A chunk is protected with a count `target_count` exactly when one of its temporal index
/// entries, for a component not in `dont_protect`, has fewer than `target_count` entries
/// anywhere in the index for the same entity, component and timeline starting strictly
/// later; the order of the index plays no part.
pub proof fn law_protected_iff_few_later(
    s: StoreView,
    dont_protect: Seq<ComponentName>,
    target_count: nat,
    id: u128,
)
    ensures
        is_protected(s, dont_protect, target_count, id) <==> exists|i: int|
            0 <= i < s.temporal_index.len() && (#[trigger] s.temporal_index[i]).4 == id && !names_contain(
                dont_protect,
                s.temporal_index[i].1,
            ) && later_positions(s.temporal_index, i, s.temporal_index.len() as int).len() < target_count,
{
    let idx = s.temporal_index;
    assert forall|i: int| 0 <= i < idx.len() implies later_entries(idx, i, idx.len() as int) == later_positions(
        idx,
        i,
        idx.len() as int,
    ).len() by {
        lemma_later_entries_count(idx, i, idx.len() as int);
    }
}

/// With a count of one, exactly the chunks of the latest entries are protected: a chunk is
/// protected when one of its temporal index entries, for a component not in `dont_protect`,
/// has no entry anywhere in the index for the same entity, component and timeline that
/// starts later.
pub proof fn law_protect_one_is_latest(s: StoreView, dont_protect: Seq<ComponentName>, id: u128)
    ensures
        is_protected(s, dont_protect, 1, id) <==> exists|i: int|
            0 <= i < s.temporal_index.len() && (#[trigger] s.temporal_index[i]).4 == id && !names_contain(
                dont_protect,
                s.temporal_index[i].1,
            ) && forall|j: int|
                0 <= j < s.temporal_index.len() && s.temporal_index[j].0 == s.temporal_index[i].0
                    && s.temporal_index[j].1 == s.temporal_index[i].1 && s.temporal_index[j].2
                    == s.temporal_index[i].2 ==> s.temporal_index[j].3 <= s.temporal_index[i].3,
{
    let idx = s.temporal_index;
    let n = idx.len() as int;
    law_protected_iff_few_later(s, dont_protect, 1, id);
    assert forall|i: int| 0 <= i < n implies (later_positions(idx, i, n).len() < 1 <==> forall|j: int|
        0 <= j < n && idx[j].0 == idx[i].0 && idx[j].1 == idx[i].1 && idx[j].2 == idx[i].2 ==> idx[j].3
            <= idx[i].3) by {
        lemma_later_entries_count(idx, i, n);
        let ps = later_positions(idx, i, n);
        if ps.len() == 0 {
            assert forall|j: int|
                0 <= j < n && idx[j].0 == idx[i].0 && idx[j].1 == idx[i].1 && idx[j].2 == idx[i].2 implies idx[j].3
                <= idx[i].3 by {
                if idx[j].3 > idx[i].3 {
                    assert(ps.contains(j));
                    vstd::set::axiom_set_contains_len(ps, j);
                }
            }
        } else {
            let j = ps.choose();
            vstd::set_lib::lemma_set_empty_equivalency_len(ps);
            assert(ps.contains(j));
        }
    }
}

} // verus!
