//! An in-memory database of one recording or blueprint: its store, its store info, and the
//! entities that were logged to it.
use std::sync::Arc;
use vstd::prelude::*;

use crate::chunk::{
    is_timepoint_max, pick_component_column, pick_rows, pick_time_column, rows_view, reordered, row_id_max, row_id_min, sorts_rows, Chunk, ChunkView,
};
use crate::log_msg::{msg_store_id, ArrowMsg, BlueprintActivationCommand, LogMsg};
use crate::events::StoreEvent2;
use crate::store::{
    added_temporal, last_static_chunk, static_after_insert, DataStore2, DataStoreConfig2, StoreGeneration2,
    StoreView, TemporalKey, WriteError,
};
use crate::names::ComponentName;
use crate::types::{
    lemma_path_lt_total, ComponentPath, Timeline, lemma_path_lt_transitive, path_hash, path_lt, EntityPath, EntityPathHash,
    ResolvedTimeRange, RowId, StoreId, StoreKind, TimeInt, TimeType, insert_timeline_sorted,
    timeline_views, timelines_sorted,
};

verus! {

// --- Store info ---

/// Information about a store, as sent by whoever created it.
#[derive(Debug)]
pub struct StoreInfo {
    pub application_id: String,
    pub store_id: StoreId,
    /// The store this one was cloned from, if any.
    pub cloned_from: Option<StoreId>,
    pub is_official_example: bool,
    /// When the store started, in nanoseconds since the epoch.
    pub started: i64,
}

pub struct StoreInfoView {
    pub application_id: Seq<char>,
    pub store_id: (StoreKind, Seq<char>),
    pub cloned_from: Option<(StoreKind, Seq<char>)>,
    pub is_official_example: bool,
    pub started: i64,
}

impl View for StoreInfo {
    type V = StoreInfoView;

    open spec fn view(&self) -> StoreInfoView {
        StoreInfoView {
            application_id: self.application_id@,
            store_id: self.store_id@,
            cloned_from: match self.cloned_from {
                Some(id) => Some(id@),
                None => None,
            },
            is_official_example: self.is_official_example,
            started: self.started,
        }
    }
}

impl StoreInfo {
    pub fn duplicate(&self) -> (r: StoreInfo)
        ensures
            r@ == self@,
    {
        StoreInfo {
            application_id: self.application_id.clone(),
            store_id: self.store_id.duplicate(),
            cloned_from: match &self.cloned_from {
                Some(id) => Some(id.duplicate()),
                None => None,
            },
            is_official_example: self.is_official_example,
            started: self.started,
        }
    }
}

/// The message that sets a store's info.
#[derive(Debug)]
pub struct SetStoreInfo {
    pub row_id: RowId,
    pub info: StoreInfo,
}

pub struct SetStoreInfoView {
    pub row_id: RowId,
    pub info: StoreInfoView,
}

impl View for SetStoreInfo {
    type V = SetStoreInfoView;

    open spec fn view(&self) -> SetStoreInfoView {
        SetStoreInfoView { row_id: self.row_id, info: self.info@ }
    }
}

// --- The database ---

/// Changing what a database knows besides its store and its highest row id keeps the part
/// of its invariants that speaks of those.
proof fn lemma_same_store_wf(a: EntityDbView, b: EntityDbView)
    requires
        a.wf(),
        b.store == a.store,
        b.latest_row_id == a.latest_row_id,
        b.entity_paths == a.entity_paths,
    ensures
        b.wf(),
{
    assert forall|k: int| 0 <= k < b.store.chunks.len() implies row_id_covers(
        b.latest_row_id,
        #[trigger] b.store.chunks[k].1,
    ) by {
        assert(a.store.chunks[k] == b.store.chunks[k]);
    }
}

/// `latest` is some row id at least as high as every row id of `c`.
pub open spec fn row_id_covers(latest: Option<RowId>, c: ChunkView) -> bool {
    latest matches Some(l) && l.0 >= row_id_max(c.row_ids)
}

/// What an entity database holds.
pub struct EntityDbView {
    pub set_store_info: Option<SetStoreInfoView>,
    pub latest_row_id: Option<RowId>,
    /// Each logged entity path with its hash.
    pub entity_paths: Seq<(u64, Seq<char>)>,
    pub store: StoreView,
}

impl EntityDbView {
    /// The entity path registered under this hash, if any.
    pub open spec fn path_of(self, hash: u64) -> Option<Seq<char>> {
        if exists|k: int| 0 <= k < self.entity_paths.len() && self.entity_paths[k].0 == hash {
            Some(
                self.entity_paths[choose|k: int|
                    0 <= k < self.entity_paths.len() && self.entity_paths[k].0 == hash].1,
            )
        } else {
            None
        }
    }

    /// The invariants of a database: a well-formed store; the highest row id seen is at least
    /// the highest row id of every stored chunk; distinct hashes, each the hash of its path.
    pub open spec fn wf(self) -> bool {
        &&& self.store.wf()
        &&& forall|k: int|
            0 <= k < self.store.chunks.len() ==> row_id_covers(
                self.latest_row_id,
                #[trigger] self.store.chunks[k].1,
            )
        &&& forall|i: int, j: int|
            0 <= i < j < self.entity_paths.len() ==> self.entity_paths[i].0
                != self.entity_paths[j].0
        &&& forall|i: int|
            0 <= i < self.entity_paths.len() ==> (#[trigger] self.entity_paths[i]).0 == path_hash(
                self.entity_paths[i].1,
            )
    }
}

/// `n` is the database `o` after adding the chunk `c`: still well formed, with the same store
/// info; the highest row id seen grows to `c`'s highest; `c`'s entity is registered (a new
/// path is appended); and the store either already held a chunk with `c`'s id and is
/// unchanged, or now stores `c`.
pub open spec fn chunk_added(o: EntityDbView, c: ChunkView, n: EntityDbView) -> bool {
    &&& n.wf()
    &&& n.set_store_info == o.set_store_info
    &&& n.latest_row_id == Some(
        match o.latest_row_id {
            Some(l) => if l.0 < row_id_max(c.row_ids) {
                RowId(row_id_max(c.row_ids))
            } else {
                l
            },
            None => RowId(row_id_max(c.row_ids)),
        },
    )
    &&& n.path_of(path_hash(c.entity_path)) is Some
    &&& o.path_of(path_hash(c.entity_path)) is Some ==> n.entity_paths == o.entity_paths
    &&& o.path_of(path_hash(c.entity_path)) is None ==> n.entity_paths == o.entity_paths.push(
        (path_hash(c.entity_path), c.entity_path),
    )
    &&& o.store.has_chunk(c.id.0) ==> n.store == o.store
    &&& !o.store.has_chunk(c.id.0) ==> o.store.stores(c, n.store)
}

#[verifier::external_type_specification]
#[verifier::external_body]
pub struct ExInstant(web_time::Instant);

/// `web_time::Instant::now`: the current instant of the monotonic clock. Nothing is stated
/// of the instant it returns, which depends on the clock.
#[verifier::external_body]
fn instant_now() -> (r: web_time::Instant) {
    web_time::Instant::now()
}

/// An in-memory database built from a stream of chunks and store infos.
#[derive(Debug)]
pub struct EntityDb {
    pub(crate) set_store_info: Option<SetStoreInfo>,
    pub(crate) latest_row_id: Option<RowId>,
    pub(crate) entity_path_from_hash: Vec<(EntityPathHash, EntityPath)>,
    pub(crate) data_store2: DataStore2,
    pub(crate) last_modified_at: web_time::Instant,
}

pub(crate) open spec fn paths_view(s: Seq<(EntityPathHash, EntityPath)>) -> Seq<(u64, Seq<char>)> {
    s.map_values(|e: (EntityPathHash, EntityPath)| (e.0.0, e.1@))
}

impl View for EntityDb {
    type V = EntityDbView;

    closed spec fn view(&self) -> EntityDbView {
        EntityDbView {
            set_store_info: match self.set_store_info {
                Some(m) => Some(m@),
                None => None,
            },
            latest_row_id: self.latest_row_id,
            entity_paths: paths_view(self.entity_path_from_hash@),
            store: self.data_store2@,
        }
    }
}

impl EntityDb {
    /// An empty database for the store `store_id`.
    pub fn new(store_id: StoreId) -> (r: EntityDb)
        ensures
            r@.wf(),
            r@.set_store_info is None,
            r@.latest_row_id is None,
            r@.entity_paths.len() == 0,
            r@.store.id == store_id@,
            r@.store.chunks.len() == 0,
            r@.store.static_index.len() == 0,
            r@.store.temporal_index.len() == 0,
            r@.store.insert_id == 0,
            r@.store.gc_id == 0,
            r@.store.event_id == 0,
    {
        let data_store2 = DataStore2::new(store_id, DataStoreConfig2::default_config());
        let r = EntityDb {
            set_store_info: None,
            latest_row_id: None,
            entity_path_from_hash: Vec::new(),
            data_store2,
            last_modified_at: instant_now(),
        };
        proof {
            assert(r@.entity_paths =~= Seq::empty());
        }
        r
    }

    /// The instant at which chunk data was last added by a message.
    pub closed spec fn last_modified(&self) -> web_time::Instant {
        self.last_modified_at
    }

    /// The instant at which chunk data was last added by a message (see [`EntityDb::add`]),
    /// or at which the database was created.
    pub fn last_modified_at(&self) -> (r: web_time::Instant)
        ensures
            r == self.last_modified(),
    {
        self.last_modified_at
    }

    pub fn data_store2(&self) -> (r: &DataStore2)
        ensures
            r@ == self@.store,
    {
        &self.data_store2
    }

    pub fn store(&self) -> (r: &DataStore2)
        ensures
            r@ == self@.store,
    {
        &self.data_store2
    }

    pub fn store_info_msg(&self) -> (r: Option<&SetStoreInfo>)
        ensures
            match r {
                Some(m) => self@.set_store_info == Some(m@),
                None => self@.set_store_info is None,
            },
    {
        match &self.set_store_info {
            Some(m) => Some(m),
            None => None,
        }
    }

    pub fn store_info(&self) -> (r: Option<&StoreInfo>)
        ensures
            match r {
                Some(i) => self@.set_store_info matches Some(m) && m.info == i@,
                None => self@.set_store_info is None,
            },
    {
        match &self.set_store_info {
            Some(m) => Some(&m.info),
            None => None,
        }
    }

    pub fn app_id(&self) -> (r: Option<&String>)
        ensures
            match r {
                Some(a) => self@.set_store_info matches Some(m) && m.info.application_id == a@,
                None => self@.set_store_info is None,
            },
    {
        match &self.set_store_info {
            Some(m) => Some(&m.info.application_id),
            None => None,
        }
    }

    pub fn store_id(&self) -> (r: &StoreId)
        ensures
            r@ == self@.store.id,
    {
        self.data_store2.id()
    }

    pub fn store_kind(&self) -> (r: StoreKind)
        ensures
            r == self@.store.id.0,
    {
        self.data_store2.id().kind
    }

    /// The store this one was cloned from, if any.
    pub fn cloned_from(&self) -> (r: Option<&StoreId>)
        ensures
            match r {
                Some(id) => self@.set_store_info matches Some(m) && m.info.cloned_from == Some(
                    id@,
                ),
                None => self@.set_store_info is None || self@.set_store_info.unwrap().info.cloned_from is None,
            },
    {
        match &self.set_store_info {
            Some(m) => match &m.info.cloned_from {
                Some(id) => Some(id),
                None => None,
            },
            None => None,
        }
    }

    /// The number of rows is not tracked: always 0.
    pub fn num_rows(&self) -> (r: usize)
        ensures
            r == 0,
    {
        0
    }

    pub fn generation(&self) -> (r: StoreGeneration2)
        ensures
            r == (StoreGeneration2 { insert_id: self@.store.insert_id, gc_id: self@.store.gc_id }),
    {
        self.data_store2.generation()
    }

    /// The highest row id of the chunks added so far.
    pub fn latest_row_id(&self) -> (r: Option<RowId>)
        ensures
            r == self@.latest_row_id,
    {
        self.latest_row_id
    }

    /// Empty: no store info and no rows.
    pub fn is_empty(&self) -> (r: bool)
        ensures
            r == (self@.set_store_info is None),
    {
        self.set_store_info.is_none() && self.num_rows() == 0
    }

    pub fn set_store_info(&mut self, store_info: SetStoreInfo)
        requires
            old(self)@.wf(),
        ensures
            final(self)@ == (EntityDbView { set_store_info: Some(store_info@), ..old(self)@ }),
            final(self)@.wf(),
            final(self).last_modified() == old(self).last_modified(),
    {
        self.set_store_info = Some(store_info);
        proof {
            lemma_same_store_wf(old(self)@, self@);
        }
    }

    /// The position of the entry for this hash, if any.
    fn hash_position(&self, hash: EntityPathHash) -> (r: Option<usize>)
        ensures
            match r {
                Some(k) => k < self@.entity_paths.len() && self@.entity_paths[k as int].0 == hash.0,
                None => forall|k: int|
                    0 <= k < self@.entity_paths.len() ==> self@.entity_paths[k].0 != hash.0,
            },
    {
        let n = self.entity_path_from_hash.len();
        let mut k: usize = 0;
        while k < n
            invariant
                n == self@.entity_paths.len(),
                k <= n,
                forall|j: int| 0 <= j < k ==> self@.entity_paths[j].0 != hash.0,
            decreases n - k,
        {
            proof {
                assert(self@.entity_paths[k as int] == (
                    self.entity_path_from_hash@[k as int].0.0,
                    self.entity_path_from_hash@[k as int].1@,
                ));
            }
            if self.entity_path_from_hash[k].0.0 == hash.0 {
                return Some(k);
            }
            k = k + 1;
        }
        None
    }

    /// The entity path registered under this hash, if any.
    pub fn entity_path_from_hash(&self, entity_path_hash: &EntityPathHash) -> (r: Option<
        &EntityPath,
    >)
        requires
            self@.wf(),
        ensures
            match r {
                Some(p) => self@.path_of(entity_path_hash.0) == Some(p@),
                None => self@.path_of(entity_path_hash.0) is None,
            },
    {
        match self.hash_position(*entity_path_hash) {
            Some(k) => {
                proof {
                    let j = choose|j: int|
                        0 <= j < self@.entity_paths.len() && self@.entity_paths[j].0
                            == entity_path_hash.0;
                    if j != k {
                        if j < k {
                            assert(self@.entity_paths[j].0 != self@.entity_paths[k as int].0);
                        } else {
                            assert(self@.entity_paths[k as int].0 != self@.entity_paths[j].0);
                        }
                    }
                    assert(self@.entity_paths[k as int] == (
                        self.entity_path_from_hash@[k as int].0.0,
                        self.entity_path_from_hash@[k as int].1@,
                    ));
                }
                Some(&self.entity_path_from_hash[k].1)
            },
            None => None,
        }
    }

    /// Whether a path with the same hash as `entity_path` has been logged. Entities higher up
    /// the hierarchy are not logged unless something was logged to them.
    pub fn is_logged_entity(&self, entity_path: &EntityPath) -> (r: bool)
        requires
            self@.wf(),
        ensures
            r == (self@.path_of(path_hash(entity_path@)) is Some),
    {
        let h = entity_path.hash();
        self.hash_position(h).is_some()
    }

    /// Remembers `entity_path` under its hash, unless a path is already registered under it.
    fn register_entity_path(&mut self, entity_path: &EntityPath)
        requires
            old(self)@.wf(),
        ensures
            final(self)@.wf(),
            final(self)@ == (EntityDbView { entity_paths: final(self)@.entity_paths, ..old(self)@ }),
            final(self).last_modified() == old(self).last_modified(),
            old(self)@.path_of(path_hash(entity_path@)) is Some ==> final(self)@.entity_paths
                == old(self)@.entity_paths,
            old(self)@.path_of(path_hash(entity_path@)) is None ==> final(self)@.entity_paths
                == old(self)@.entity_paths.push((path_hash(entity_path@), entity_path@)),
    {
        let h = entity_path.hash();
        proof {
            assert(self@.store == old(self)@.store);
        }
        match self.hash_position(h) {
            Some(_) => {},
            None => {
                let ghost o = self@.entity_paths;
                self.entity_path_from_hash.push((h, entity_path.duplicate()));
                proof {
                    assert(self@.entity_paths =~= o.push((h.0, entity_path@)));
                }
            },
        }
    }

    /// Adds a chunk to the store and registers its entity; the highest row id seen grows to
    /// the chunk's highest row id. Returns the store's addition event, or `None` if the chunk
    /// was already stored.
    pub fn add_chunk(&mut self, chunk: Arc<Chunk>) -> (r: Result<Option<StoreEvent2>, WriteError>)
        requires
            old(self)@.wf(),
            chunk@.wf(),
            chunk@.is_sorted,
            chunk@.row_ids.len() > 0,
            old(self)@.store.insert_id < u64::MAX,
            old(self)@.store.event_id < u64::MAX,
        ensures
            chunk_added(old(self)@, chunk@, final(self)@),
            old(self)@.store.has_chunk(chunk@.id.0) ==> r matches Ok(None),
            !old(self)@.store.has_chunk(chunk@.id.0) ==> (r matches Ok(Some(ev))
                && ev.diff.chunk@ == chunk@),
            final(self).last_modified() == old(self).last_modified(),
    {
        self.register_entity_path(chunk.entity_path());
        let event = self.data_store2.insert_chunk(&chunk);
        let (_, row_id_max_) = chunk.row_id_range();
        match self.latest_row_id {
            Some(latest) => {
                if latest.0 < row_id_max_.0 {
                    self.latest_row_id = Some(row_id_max_);
                }
            },
            None => {
                self.latest_row_id = Some(row_id_max_);
            },
        }
        proof {
            let h = path_hash(chunk@.entity_path);
            if !(exists|k: int| 0 <= k < self@.entity_paths.len() && self@.entity_paths[k].0 == h) {
                assert(false) by {
                    let o = old(self)@;
                    if o.path_of(h) is Some {
                        let k = choose|k: int| 0 <= k < o.entity_paths.len() && o.entity_paths[k].0 == h;
                        assert(self@.entity_paths[k].0 == h);
                    } else {
                        assert(self@.entity_paths[o.entity_paths.len() as int].0 == h);
                    }
                }
            }
            let o = old(self)@;
            let n = self@;
            assert forall|k: int| 0 <= k < n.store.chunks.len() implies row_id_covers(
                n.latest_row_id,
                #[trigger] n.store.chunks[k].1,
            ) by {
                let x = n.store.chunks[k];
                if o.store.has_chunk(chunk@.id.0) {
                    assert(o.store.chunks[k] == x);
                } else {
                    assert(n.store.chunks.contains(x));
                    if o.store.chunks.contains(x) {
                        let j = choose|j: int| 0 <= j < o.store.chunks.len() && o.store.chunks[j] == x;
                        assert(o.store.chunks[j] == x);
                    }
                }
            }
        }
        event
    }
}

// --- Sorted entity paths ---

pub open spec fn paths_of(s: Seq<EntityPath>) -> Seq<Seq<char>> {
    s.map_values(|p: EntityPath| p@)
}

/// Each path comes strictly before every later one.
pub open spec fn paths_sorted(s: Seq<Seq<char>>) -> bool {
    forall|i: int, j: int| 0 <= i < j < s.len() ==> path_lt(s[i], s[j])
}

/// Inserts `x`, which is not in the list, at its place in path order.
fn insert_path_sorted(out: &mut Vec<EntityPath>, x: EntityPath)
    requires
        paths_sorted(paths_of(old(out)@)),
        !paths_of(old(out)@).contains(x@),
    ensures
        paths_sorted(paths_of(final(out)@)),
        final(out)@.len() == old(out)@.len() + 1,
        forall|p: Seq<char>|
            #[trigger] paths_of(final(out)@).contains(p) <==> (paths_of(old(out)@).contains(p)
                || p == x@),
{
    let ghost o = paths_of(out@);
    let n = out.len();
    let mut p: usize = 0;
    while p < n
        invariant
            n == out@.len(),
            o == paths_of(out@),
            !o.contains(x@),
            p <= n,
            forall|i: int| 0 <= i < p ==> path_lt(#[trigger] o[i], x@),
        ensures
            p <= n,
            forall|i: int| 0 <= i < p ==> path_lt(#[trigger] o[i], x@),
            p < n ==> path_lt(x@, o[p as int]),
        decreases n - p,
    {
        if x.precedes(&out[p]) {
            proof {
                assert(o[p as int] == out@[p as int]@);
            }
            break;
        }
        proof {
            assert(o[p as int] == out@[p as int]@);
            lemma_path_lt_total(o[p as int], x@);
            if o[p as int] == x@ {
                assert(o.contains(x@));
            }
        }
        p = p + 1;
    }
    let ghost xv = x@;
    out.insert(p, x);
    proof {
        let q = paths_of(out@);
        assert(q =~= o.insert(p as int, xv));
        o.insert_ensures(p as int, xv);
        // every path at or after p comes after x
        assert forall|i: int| p <= i < o.len() implies path_lt(xv, #[trigger] o[i]) by {
            if i > p {
                lemma_path_lt_transitive(xv, o[p as int], o[i]);
            }
        }
        assert forall|a: int, b: int| 0 <= a < b < q.len() implies path_lt(q[a], q[b]) by {
            if b < p {
                assert(q[a] == o[a] && q[b] == o[b]);
            } else if b == p {
                assert(q[a] == o[a]);
            } else if a < p {
                assert(q[a] == o[a] && q[b] == o[b - 1]);
                lemma_path_lt_transitive(o[a], xv, o[b - 1]);
            } else if a == p {
                assert(q[b] == o[b - 1]);
            } else {
                assert(q[a] == o[a - 1] && q[b] == o[b - 1]);
            }
        }
        assert forall|s: Seq<char>| #[trigger] q.contains(s) <==> (o.contains(s) || s == xv) by {
            if q.contains(s) {
                let k = choose|k: int| 0 <= k < q.len() && q[k] == s;
                if k < p {
                    assert(o[k] == s);
                } else if k > p {
                    assert(o[k - 1] == s);
                }
            }
            if o.contains(s) {
                let k = choose|k: int| 0 <= k < o.len() && o[k] == s;
                if k < p {
                    assert(q[k] == s);
                } else {
                    assert(q[k + 1] == s);
                }
            }
            if s == xv {
                assert(q[p as int] == s);
            }
        }
    }
}

impl EntityDb {
    /// All the logged entity paths, each once, sorted in path order.
    pub fn entity_paths(&self) -> (r: Vec<EntityPath>)
        requires
            self@.wf(),
        ensures
            r@.len() == self@.entity_paths.len(),
            paths_sorted(paths_of(r@)),
            forall|p: Seq<char>|
                #[trigger] paths_of(r@).contains(p) <==> exists|i: int|
                    0 <= i < self@.entity_paths.len() && self@.entity_paths[i].1 == p,
    {
        let ghost e = self@.entity_paths;
        let n = self.entity_path_from_hash.len();
        let mut out: Vec<EntityPath> = Vec::new();
        let mut k: usize = 0;
        proof {
            assert(paths_of(out@) =~= Seq::empty());
        }
        while k < n
            invariant
                e == self@.entity_paths,
                self@.wf(),
                n == e.len(),
                k <= n,
                out@.len() == k,
                paths_sorted(paths_of(out@)),
                forall|p: Seq<char>|
                    #[trigger] paths_of(out@).contains(p) <==> exists|i: int|
                        0 <= i < k && e[i].1 == p,
            decreases n - k,
        {
            let x = self.entity_path_from_hash[k].1.duplicate();
            proof {
                assert(e[k as int] == (
                    self.entity_path_from_hash@[k as int].0.0,
                    self.entity_path_from_hash@[k as int].1@,
                ));
                if paths_of(out@).contains(x@) {
                    let i = choose|i: int| 0 <= i < k && e[i].1 == x@;
                    assert(e[i].0 == path_hash(e[i].1));
                    assert(e[k as int].0 == path_hash(e[k as int].1));
                    assert(e[i].0 != e[k as int].0);
                }
            }
            let ghost before = paths_of(out@);
            insert_path_sorted(&mut out, x);
            proof {
                assert forall|p: Seq<char>|
                    #[trigger] paths_of(out@).contains(p) <==> exists|i: int|
                        0 <= i < k + 1 && e[i].1 == p by {
                    if exists|i: int| 0 <= i < k + 1 && e[i].1 == p {
                        let i = choose|i: int| 0 <= i < k + 1 && e[i].1 == p;
                        if i < k {
                            assert(before.contains(p));
                        }
                    }
                }
            }
            k = k + 1;
        }
        out
    }
}

// --- Cloning ---

/// The store info of a clone: the same as `info`, under the store id `new_id`, cloned from
/// `from`.
pub open spec fn cloned_info(info: StoreInfoView, new_id: (StoreKind, Seq<char>), from: (
    StoreKind,
    Seq<char>,
)) -> StoreInfoView {
    StoreInfoView { store_id: new_id, cloned_from: Some(from), ..info }
}

/// The stored chunks of `s` are, as a set, the first `k` chunks of `src`.
pub open spec fn holds_first_chunks(s: StoreView, src: Seq<(u128, ChunkView)>, k: int) -> bool {
    forall|x: (u128, ChunkView)|
        #[trigger] s.chunks.contains(x) <==> exists|j: int| 0 <= j < k && src[j] == x
}

/// `db` is a copy of `src` under the store id `new_id`: same highest row id; the same
/// chunks, added once each in `src`'s order; the entity paths of those chunks; and, if `src`
/// has a store info, the same info under the new id, cloned from `src`, set by a message with
/// row id `row_id`.
pub open spec fn is_clone_of(
    db: EntityDbView,
    src: EntityDbView,
    new_id: (StoreKind, Seq<char>),
    row_id: RowId,
) -> bool {
    &&& db.wf()
    &&& db.store.id == new_id
    &&& db.latest_row_id == src.latest_row_id
    &&& db.set_store_info == match src.set_store_info {
        Some(m) => Some(
            SetStoreInfoView { row_id, info: cloned_info(m.info, new_id, src.store.id) },
        ),
        None => None,
    }
    &&& db.store.insert_id == src.store.chunks.len()
    &&& db.store.event_id == src.store.chunks.len()
    &&& db.store.gc_id == 0
    &&& forall|x: (u128, ChunkView)|
        #[trigger] db.store.chunks.contains(x) <==> src.store.chunks.contains(x)
    &&& forall|k: int|
        0 <= k < src.store.chunks.len() ==> db.path_of(
            path_hash((#[trigger] src.store.chunks[k]).1.entity_path),
        ) is Some
    &&& forall|i: int|
        0 <= i < db.entity_paths.len() ==> is_chunk_path(
            (#[trigger] db.entity_paths[i]).1,
            src.store.chunks,
        )
    &&& forall|e: Seq<char>, comp: Seq<char>|
        #[trigger] db.store.static_chunk_id(e, comp) == last_static_chunk(src.store.chunks, e, comp)
    &&& forall|x: TemporalKey|
        #[trigger] db.store.temporal_index.contains(x) <==> src.store.temporal_index.contains(x)
}

/// Some chunk of `chunks` belongs to the entity `p`.
pub open spec fn is_chunk_path(p: Seq<char>, chunks: Seq<(u128, ChunkView)>) -> bool {
    exists|k: int| 0 <= k < chunks.len() && chunks[k].1.entity_path == p
}

/// Once every chunk is re-added, the copy is a clone.
proof fn lemma_clone_done(
    s: EntityDbView,
    src: EntityDbView,
    new_id: (StoreKind, Seq<char>),
    row_id: RowId,
)
    requires
        s.wf(),
        s.store.id == new_id,
        s.latest_row_id == src.latest_row_id,
        s.set_store_info == match src.set_store_info {
            Some(m) => Some(
                SetStoreInfoView { row_id, info: cloned_info(m.info, new_id, src.store.id) },
            ),
            None => None,
        },
        s.store.insert_id == src.store.chunks.len(),
        s.store.event_id == src.store.chunks.len(),
        s.store.gc_id == 0,
        holds_first_chunks(s.store, src.store.chunks, src.store.chunks.len() as int),
        forall|e: Seq<char>, comp: Seq<char>|
            #[trigger] s.store.static_chunk_id(e, comp) == last_static_chunk(src.store.chunks, e, comp),
        forall|x: TemporalKey|
            #[trigger] s.store.temporal_index.contains(x) <==> src.store.temporal_index.contains(x),
        forall|j: int|
            0 <= j < src.store.chunks.len() ==> s.path_of(
                path_hash((#[trigger] src.store.chunks[j]).1.entity_path),
            ) is Some,
        forall|i: int|
            0 <= i < s.entity_paths.len() ==> is_chunk_path(
                (#[trigger] s.entity_paths[i]).1,
                src.store.chunks.take(src.store.chunks.len() as int),
            ),
    ensures
        is_clone_of(s, src, new_id, row_id),
{
    let sc = src.store.chunks;
    assert forall|x: (u128, ChunkView)| #[trigger] s.store.chunks.contains(x) <==> sc.contains(x) by {
        if sc.contains(x) {
            let j = choose|j: int| 0 <= j < sc.len() && sc[j] == x;
        }
    }
    assert(src.store.chunks.take(src.store.chunks.len() as int) =~= src.store.chunks);
}

impl EntityDb {
    /// A copy of this database under the store id `new_id`: same highest row id, same
    /// instant of last modification, the same chunks, re-added in store order, and, if this
    /// database has a store info, the same info under the new id, cloned from this store, set
    /// by a message with row id `row_id`.
    pub fn clone_with_new_id(&self, new_id: StoreId, row_id: RowId) -> (r: Result<EntityDb, WriteError>)
        requires
            self@.wf(),
        ensures
            r is Ok,
            r matches Ok(db) ==> is_clone_of(db@, self@, new_id@, row_id),
            r matches Ok(db) ==> db.last_modified() == self.last_modified(),
    {
        let ghost src = self@.store.chunks;
        let ghost new_id_v = new_id@;
        let mut new_db = EntityDb::new(new_id.duplicate());
        new_db.latest_row_id = self.latest_row_id;
        proof {
            assert(new_db@.store.chunks.len() == 0);
        }
        match self.store_info() {
            Some(info) => {
                let mut new_info = info.duplicate();
                new_info.store_id = new_id;
                new_info.cloned_from = Some(self.store_id().duplicate());
                new_db.set_store_info(SetStoreInfo { row_id, info: new_info });
            },
            None => {},
        }
        let ghost expected_info = new_db@.set_store_info;
        let chunks = self.store().iter_chunks();
        let n = chunks.len();
        let mut k: usize = 0;
        proof {
            assert(src.take(0) =~= Seq::<(u128, ChunkView)>::empty());
            assert forall|e: Seq<char>, comp: Seq<char>|
                #[trigger] new_db@.store.static_chunk_id(e, comp) == last_static_chunk(src.take(0), e, comp) by {
                assert(new_db@.store.static_index.len() == 0);
            }
            assert forall|x: TemporalKey|
                #[trigger] new_db@.store.temporal_index.contains(x) <==> exists|j: int|
                    0 <= j < 0 && added_temporal(src[j].1, x) by {
                assert(new_db@.store.temporal_index.len() == 0);
            }
            assert(holds_first_chunks(new_db@.store, src, 0)) by {
                assert forall|x: (u128, ChunkView)|
                    #[trigger] new_db@.store.chunks.contains(x) <==> exists|j: int|
                        0 <= j < 0 && src[j] == x by {
                    if new_db@.store.chunks.contains(x) {
                        let i = choose|i: int|
                            0 <= i < new_db@.store.chunks.len() && new_db@.store.chunks[i] == x;
                    }
                }
            }
        }
        while k < n
            invariant
                src == self@.store.chunks,
                self@.wf(),
                n == src.len(),
                n == chunks@.len(),
                forall|i: int| 0 <= i < n ==> (#[trigger] chunks@[i])@ == src[i].1,
                k <= n,
                new_db@.wf(),
                new_db@.store.id == new_id_v,
                new_db@.latest_row_id == self@.latest_row_id,
                new_db@.set_store_info == expected_info,
                new_db@.store.insert_id == k,
                new_db@.store.event_id == k,
                new_db@.store.gc_id == 0,
                holds_first_chunks(new_db@.store, src, k as int),
                forall|e: Seq<char>, comp: Seq<char>|
                    #[trigger] new_db@.store.static_chunk_id(e, comp) == last_static_chunk(
                        src.take(k as int),
                        e,
                        comp,
                    ),
                forall|x: TemporalKey|
                    #[trigger] new_db@.store.temporal_index.contains(x) <==> exists|j: int|
                        0 <= j < k && added_temporal(src[j].1, x),
                forall|j: int|
                    0 <= j < k ==> new_db@.path_of(path_hash((#[trigger] src[j]).1.entity_path)) is Some,
                forall|i: int|
                    0 <= i < new_db@.entity_paths.len() ==> is_chunk_path(
                        (#[trigger] new_db@.entity_paths[i]).1,
                        src.take(k as int),
                    ),
            decreases n - k,
        {
            let chunk = chunks[k].clone();
            let ghost c = src[k as int].1;
            let ghost o = new_db@;
            proof {
                assert(chunks@[k as int]@ == c);
                assert(src[k as int] == src[k as int]);
                if o.store.has_chunk(c.id.0) {
                    let i = choose|i: int| 0 <= i < o.store.chunks.len() && o.store.chunks[i].1.id.0 == c.id.0;
                    assert(o.store.chunks.contains(o.store.chunks[i]));
                    let j = choose|j: int| 0 <= j < k && src[j] == o.store.chunks[i];
                    assert(src[j].1.id != src[k as int].1.id);
                }
                assert(row_id_covers(self@.latest_row_id, src[k as int].1));
            }
            match new_db.add_chunk(chunk) {
                Ok(_) => {},
                Err(e) => {
                    return Err(e);
                },
            }
            proof {
                let s = new_db@;
                assert(o.store.stores(c, s.store));
                assert(src[k as int] == (row_id_min(c.row_ids), c));
                assert(src.take(k + 1).drop_last() =~= src.take(k as int));
                assert(src.take(k + 1).last() == src[k as int]);
                assert forall|e: Seq<char>, comp: Seq<char>|
                    #[trigger] s.store.static_chunk_id(e, comp) == last_static_chunk(src.take(k + 1), e, comp) by {
                    assert(o.store.static_chunk_id(e, comp) == last_static_chunk(src.take(k as int), e, comp));
                    if c.timelines.len() == 0 {
                        assert(s.store.static_chunk_id(e, comp) == static_after_insert(o.store, c, e, comp));
                    } else {
                        assert(s.store.static_index == o.store.static_index);
                    }
                }
                assert forall|x: TemporalKey|
                    #[trigger] s.store.temporal_index.contains(x) <==> exists|j: int|
                        0 <= j < k + 1 && added_temporal(src[j].1, x) by {
                    assert(o.store.temporal_index.contains(x) <==> exists|j: int|
                        0 <= j < k && added_temporal(src[j].1, x));
                    if exists|j: int| 0 <= j < k + 1 && added_temporal(src[j].1, x) {
                        let j = choose|j: int| 0 <= j < k + 1 && added_temporal(src[j].1, x);
                        if j < k {
                            assert(o.store.temporal_index.contains(x));
                        }
                    }
                    if o.store.temporal_index.contains(x) {
                        let j = choose|j: int| 0 <= j < k && added_temporal(src[j].1, x);
                        assert(0 <= j < k + 1 && added_temporal(src[j].1, x));
                    }
                    if added_temporal(c, x) {
                        assert(0 <= k < k + 1 && added_temporal(src[k as int].1, x));
                    }
                }
                assert forall|x: (u128, ChunkView)|
                    #[trigger] s.store.chunks.contains(x) <==> exists|j: int|
                        0 <= j < k + 1 && src[j] == x by {
                    if exists|j: int| 0 <= j < k + 1 && src[j] == x {
                        let j = choose|j: int| 0 <= j < k + 1 && src[j] == x;
                        if j < k {
                            assert(o.store.chunks.contains(x));
                        }
                    }
                    if o.store.chunks.contains(x) {
                        let j = choose|j: int| 0 <= j < k && src[j] == x;
                    }
                }
                assert forall|j: int| 0 <= j < k + 1 implies s.path_of(
                    path_hash((#[trigger] src[j]).1.entity_path),
                ) is Some by {
                    if j < k {
                        let h = path_hash(src[j].1.entity_path);
                        let i = choose|i: int| 0 <= i < o.entity_paths.len() && o.entity_paths[i].0 == h;
                        assert(s.entity_paths[i] == o.entity_paths[i]);
                    }
                }
                assert forall|i: int| 0 <= i < s.entity_paths.len() implies is_chunk_path(
                    (#[trigger] s.entity_paths[i]).1,
                    src.take(k + 1),
                ) by {
                    if i < o.entity_paths.len() {
                        assert(s.entity_paths[i] == o.entity_paths[i]);
                        assert(is_chunk_path(o.entity_paths[i].1, src.take(k as int)));
                        let j = choose|j: int|
                            0 <= j < k && src.take(k as int)[j].1.entity_path == o.entity_paths[i].1;
                        assert(src.take(k + 1)[j] == src[j]);
                    } else {
                        assert(s.entity_paths[i].1 == src[k as int].1.entity_path);
                        assert(src.take(k + 1)[k as int] == src[k as int]);
                    }
                }
            }
            k = k + 1;
        }
        proof {
            assert(src.take(n as int) =~= src);
            assert forall|x: TemporalKey|
                #[trigger] new_db@.store.temporal_index.contains(x) <==> self@.store.temporal_index.contains(x) by {
                let v = self@.store;
                if new_db@.store.temporal_index.contains(x) {
                    let j = choose|j: int| 0 <= j < n && added_temporal(src[j].1, x);
                    assert(v.temporal_index.contains(x));
                }
                if v.temporal_index.contains(x) {
                    let i = choose|i: int| 0 <= i < v.temporal_index.len() && v.temporal_index[i] == x;
                    assert(crate::store::temporal_entry_stored(v.chunks, v.temporal_index[i]));
                    let j = choose|j: int| 0 <= j < v.chunks.len() && v.chunks[j].1.id.0 == x.4 && added_temporal(v.chunks[j].1, x);
                    assert(0 <= j < n && added_temporal(src[j].1, x));
                }
            }
            lemma_clone_done(new_db@, self@, new_id_v, row_id);
        }
        new_db.last_modified_at = self.last_modified_at;
        Ok(new_db)
    }
}

/// The last static chunk of an entity's component, in order, exists exactly when some
/// chunk of `cs` is static, belongs to the entity and holds the component.
proof fn lemma_last_static_exists(cs: Seq<(u128, ChunkView)>, e: Seq<char>, comp: Seq<char>)
    ensures
        last_static_chunk(cs, e, comp) is Some <==> exists|k: int, ci: int|
            0 <= k < cs.len() && cs[k].1.timelines.len() == 0 && cs[k].1.entity_path == e && 0 <= ci
                < cs[k].1.components.len() && cs[k].1.components[ci].0 == comp,
    decreases cs.len(),
{
    if cs.len() > 0 {
        let dl = cs.drop_last();
        lemma_last_static_exists(dl, e, comp);
        if exists|k: int, ci: int|
            0 <= k < dl.len() && dl[k].1.timelines.len() == 0 && dl[k].1.entity_path == e && 0 <= ci
                < dl[k].1.components.len() && dl[k].1.components[ci].0 == comp {
            let (k, ci) = choose|k: int, ci: int|
                0 <= k < dl.len() && dl[k].1.timelines.len() == 0 && dl[k].1.entity_path == e && 0 <= ci
                    < dl[k].1.components.len() && dl[k].1.components[ci].0 == comp;
            assert(cs[k] == dl[k]);
        }
        if exists|k: int, ci: int|
            0 <= k < cs.len() && cs[k].1.timelines.len() == 0 && cs[k].1.entity_path == e && 0 <= ci
                < cs[k].1.components.len() && cs[k].1.components[ci].0 == comp {
            let (k, ci) = choose|k: int, ci: int|
                0 <= k < cs.len() && cs[k].1.timelines.len() == 0 && cs[k].1.entity_path == e && 0 <= ci
                    < cs[k].1.components.len() && cs[k].1.components[ci].0 == comp;
            if k < cs.len() - 1 {
                assert(dl[k] == cs[k]);
            }
        }
    }
}

/// A clone answers as its source: it holds exactly the source's temporal index entries, so
/// every query over temporal data sees the same entries; and an entity's component has a
/// static chunk in the clone exactly when it has one in the source, the last such chunk in
/// the source's store order, in which the clone re-adds the chunks.
pub proof fn law_clone_keeps_indexes(
    db: EntityDbView,
    src: EntityDbView,
    new_id: (StoreKind, Seq<char>),
    row_id: RowId,
)
    requires
        src.wf(),
        is_clone_of(db, src, new_id, row_id),
    ensures
        forall|x: TemporalKey|
            #[trigger] db.store.temporal_index.contains(x) <==> src.store.temporal_index.contains(x),
        forall|e: Seq<char>, comp: Seq<char>|
            #[trigger] db.store.static_chunk_id(e, comp) is Some <==> src.store.static_chunk_id(e, comp) is Some,
        forall|e: Seq<char>, comp: Seq<char>|
            #[trigger] db.store.static_chunk_id(e, comp) == last_static_chunk(src.store.chunks, e, comp),
{
    let v = src.store;
    assert forall|e: Seq<char>, comp: Seq<char>|
        #[trigger] db.store.static_chunk_id(e, comp) is Some <==> v.static_chunk_id(e, comp) is Some by {
        lemma_last_static_exists(v.chunks, e, comp);
        if v.static_chunk_id(e, comp) is Some {
            let i = choose|i: int| 0 <= i < v.static_index.len() && v.static_index[i].0 == e && v.static_index[i].1 == comp;
            assert(crate::store::static_entry_stored(v.chunks, v.static_index[i]));
            let k = choose|k: int| 0 <= k < v.chunks.len() && v.chunks[k].1.id.0 == v.static_index[i].2
                && crate::store::added_static(v.chunks[k].1, v.static_index[i]);
            let ci = choose|ci: int| 0 <= ci < v.chunks[k].1.components.len() && v.chunks[k].1.components[ci].0 == comp;
        }
        if db.store.static_chunk_id(e, comp) is Some {
            let (k, ci) = choose|k: int, ci: int|
                0 <= k < v.chunks.len() && v.chunks[k].1.timelines.len() == 0 && v.chunks[k].1.entity_path == e && 0 <= ci
                    < v.chunks[k].1.components.len() && v.chunks[k].1.components[ci].0 == comp;
            assert(v.static_chunk_id(v.chunks[k].1.entity_path, v.chunks[k].1.components[ci].0) is Some);
        }
    }
}

// --- Messages ---

impl SetStoreInfo {
    /// A copy of this message.
    pub fn duplicate(&self) -> (r: SetStoreInfo)
        ensures
            r@ == self@,
    {
        SetStoreInfo { row_id: self.row_id, info: self.info.duplicate() }
    }
}

/// `n` is the database `o` after the message `msg`: a store info replaces the store info; a
/// chunk, sorted first if it is not marked sorted, is added; a blueprint activation command
/// changes nothing.
pub open spec fn msg_applied(o: EntityDbView, msg: LogMsg, n: EntityDbView) -> bool {
    match msg {
        LogMsg::SetStoreInfo(m) => n == (EntityDbView { set_store_info: Some(m@), ..o }),
        LogMsg::ArrowMsg(_, a) => {
            &&& a.chunk@.is_sorted ==> chunk_added(o, a.chunk@, n)
            &&& !a.chunk@.is_sorted ==> exists|p: Seq<int>|
                sorts_rows(p, a.chunk@.row_ids) && chunk_added(o, reordered(a.chunk@, p), n)
        },
        LogMsg::BlueprintActivationCommand(_) => n == o,
    }
}

/// A chunk message can be added to `o`: its chunk is well formed and not empty, and the
/// store's counters have room.
pub open spec fn msg_addable(o: EntityDbView, msg: LogMsg) -> bool {
    match msg {
        LogMsg::ArrowMsg(_, a) => {
            &&& a.chunk@.wf()
            &&& a.chunk@.row_ids.len() > 0
            &&& o.store.insert_id < u64::MAX
            &&& o.store.event_id < u64::MAX
        },
        _ => true,
    }
}

/// `msg` sets the store info `m`.
pub open spec fn is_store_info_msg(msg: LogMsg, m: SetStoreInfoView) -> bool {
    match msg {
        LogMsg::SetStoreInfo(x) => x@ == m,
        _ => false,
    }
}

/// `msg` carries the chunk `c` of the store `id`.
pub open spec fn is_chunk_msg(msg: LogMsg, id: (StoreKind, Seq<char>), c: ChunkView) -> bool {
    match msg {
        LogMsg::ArrowMsg(sid, a) => {
            &&& sid@ == id
            &&& a.table_id == c.id.0
            &&& is_timepoint_max(a.timepoint_max@, c)
            &&& a.chunk@ == c
        },
        _ => false,
    }
}

/// `msg` activates the blueprint `id` without making it the default.
pub open spec fn is_activation_msg(msg: LogMsg, id: (StoreKind, Seq<char>)) -> bool {
    match msg {
        LogMsg::BlueprintActivationCommand(c) => c.blueprint_id@ == id && c.make_active
            && !c.make_default,
        _ => false,
    }
}

/// One message for the store info, if there is one.
pub open spec fn info_msgs(v: EntityDbView) -> int {
    if v.set_store_info is Some {
        1
    } else {
        0
    }
}

/// One activation command for a blueprint.
pub open spec fn activation_msgs(v: EntityDbView) -> int {
    if v.store.id.0 == StoreKind::Blueprint {
        1
    } else {
        0
    }
}

/// `msgs` are the messages that export the chunks `cs` of `v`: its store info, if any; one
/// message per chunk of `cs`, in order; and, for a blueprint, a command that activates it.
pub open spec fn messages_for(v: EntityDbView, cs: Seq<(u128, ChunkView)>, msgs: Seq<LogMsg>) -> bool {
    &&& msgs.len() == info_msgs(v) + cs.len() + activation_msgs(v)
    &&& v.set_store_info is Some ==> is_store_info_msg(msgs[0], v.set_store_info.unwrap())
    &&& forall|i: int|
        info_msgs(v) <= i < info_msgs(v) + cs.len() ==> is_chunk_msg(
            #[trigger] msgs[i],
            v.store.id,
            cs[i - info_msgs(v)].1,
        )
    &&& activation_msgs(v) == 1 ==> is_activation_msg(msgs[info_msgs(v) + cs.len()], v.store.id)
}

/// `msgs` are the messages that rebuild `v`: its store info, if any; one message per chunk,
/// in store order; and, for a blueprint, a command that activates it.
pub open spec fn messages_of(v: EntityDbView, msgs: Seq<LogMsg>) -> bool {
    messages_for(v, v.store.chunks, msgs)
}

/// A time selection: a timeline and the inclusive bounds of a time range on it.
pub open spec fn selection_view(sel: Option<(Timeline, ResolvedTimeRange)>) -> Option<
    ((Seq<char>, TimeType), i64, i64),
> {
    match sel {
        Some((t, r)) => Some((t@, r.min.0, r.max.0)),
        None => None,
    }
}

/// The positions, in order, among the first `n` of `times`, of the times in `[min, max]`.
pub open spec fn rows_within(times: Seq<i64>, min: i64, max: i64, n: int) -> Seq<int>
    decreases n,
{
    if n <= 0 {
        Seq::empty()
    } else {
        let prev = rows_within(times, min, max, n - 1);
        if min <= times[n - 1] <= max {
            prev.push(n - 1)
        } else {
            prev
        }
    }
}

/// Each position that `rows_within` gives is among the first `n` and holds a time in range.
proof fn lemma_rows_within(times: Seq<i64>, min: i64, max: i64, n: int)
    requires
        0 <= n <= times.len(),
    ensures
        forall|j: int|
            0 <= j < rows_within(times, min, max, n).len() ==> 0 <= #[trigger] rows_within(
                times,
                min,
                max,
                n,
            )[j] < n && min <= times[rows_within(times, min, max, n)[j]] <= max,
    decreases n,
{
    if n > 0 {
        lemma_rows_within(times, min, max, n - 1);
        let prev = rows_within(times, min, max, n - 1);
        let cur = rows_within(times, min, max, n);
        assert forall|j: int| 0 <= j < cur.len() implies 0 <= #[trigger] cur[j] < n && min <= times[cur[j]]
            <= max by {
            if j < prev.len() {
                assert(cur[j] == prev[j]);
            }
        }
    }
}

/// The positions `rows_within` gives are strictly increasing, and are exactly the positions
/// among the first `n` whose time lies in the range.
proof fn lemma_rows_within_exact(times: Seq<i64>, min: i64, max: i64, n: int)
    requires
        0 <= n <= times.len(),
    ensures
        forall|a: int, b: int|
            0 <= a < b < rows_within(times, min, max, n).len() ==> rows_within(times, min, max, n)[a]
                < rows_within(times, min, max, n)[b],
        forall|k: int|
            (0 <= k < n && min <= times[k] <= max) <==> #[trigger] rows_within(times, min, max, n).contains(k),
    decreases n,
{
    if n > 0 {
        lemma_rows_within_exact(times, min, max, n - 1);
        lemma_rows_within(times, min, max, n - 1);
        let prev = rows_within(times, min, max, n - 1);
        let cur = rows_within(times, min, max, n);
        assert forall|k: int| (0 <= k < n && min <= times[k] <= max) <==> #[trigger] cur.contains(k) by {
            if cur.contains(k) {
                let a = choose|a: int| 0 <= a < cur.len() && cur[a] == k;
                if a < prev.len() {
                    assert(prev.contains(k));
                }
            }
            if 0 <= k < n && min <= times[k] <= max {
                if k < n - 1 {
                    assert(prev.contains(k));
                    let a = choose|a: int| 0 <= a < prev.len() && prev[a] == k;
                    assert(cur[a] == k);
                } else {
                    assert(cur[cur.len() - 1] == k);
                }
            }
        }
        assert forall|a: int, b: int| 0 <= a < b < cur.len() implies cur[a] < cur[b] by {
            if b < prev.len() {
            } else {
                assert(cur[a] == prev[a]);
            }
        }
    }
}

/// `p` is the chunk `c` cut to its rows at the strictly increasing positions `pos`, which
/// are exactly the positions whose time on timeline column `ti` lies in `[min, max]`: each
/// row keeps its id, its times on every timeline and its cell in every component.
pub open spec fn cut_to_rows(c: ChunkView, p: ChunkView, pos: Seq<int>, ti: int, min: i64, max: i64) -> bool {
    &&& forall|a: int, b: int| 0 <= a < b < pos.len() ==> pos[a] < pos[b]
    &&& forall|k: int|
        (0 <= k < c.timelines[ti].times.len() && min <= c.timelines[ti].times[k] <= max)
            <==> #[trigger] pos.contains(k)
    &&& p.id == c.id
    &&& p.entity_path == c.entity_path
    &&& p.row_ids.len() == pos.len()
    &&& forall|j: int| 0 <= j < pos.len() ==> #[trigger] p.row_ids[j] == c.row_ids[pos[j]]
    &&& p.timelines.len() == c.timelines.len()
    &&& forall|t: int, j: int|
        0 <= t < c.timelines.len() && 0 <= j < pos.len() ==> p.timelines[t].timeline
            == c.timelines[t].timeline && #[trigger] p.timelines[t].times[j] == c.timelines[t].times[pos[j]]
    &&& p.components.len() == c.components.len()
    &&& forall|q: int, j: int|
        0 <= q < c.components.len() && 0 <= j < pos.len() ==> p.components[q].0 == c.components[q].0
            && #[trigger] p.components[q].1.cells[j] == c.components[q].1.cells[pos[j]]
}

/// Under a selection, a well-formed chunk that has the selected timeline exports exactly its
/// rows whose time there lies in the range, in order: nothing when it has no such row;
/// otherwise a chunk with the same id whose rows are those rows, listed at strictly
/// increasing positions that include every row in range and no other, each row keeping its
/// id, its times on every timeline and its cell in every component.
pub proof fn law_selection_keeps_exactly_the_rows_in_range(
    c: ChunkView,
    tl: (Seq<char>, TimeType),
    min: i64,
    max: i64,
    ti: int,
)
    requires
        c.wf(),
        0 <= ti < c.timelines.len(),
        c.timelines[ti].timeline == tl,
    ensures
        (exists|k: int| 0 <= k < c.timelines[ti].times.len() && min <= #[trigger] c.timelines[ti].times[k] <= max)
            <==> selected_chunk(c, Some((tl, min, max))) is Some,
        selected_chunk(c, Some((tl, min, max))) is Some ==> exists|pos: Seq<int>|
            #[trigger] cut_to_rows(c, selected_chunk(c, Some((tl, min, max))).unwrap(), pos, ti, min, max),
{
    let tc = choose|tc: int| 0 <= tc < c.timelines.len() && c.timelines[tc].timeline == tl;
    if tc < ti {
        assert(c.timelines[tc].timeline != c.timelines[ti].timeline);
    } else if ti < tc {
        assert(c.timelines[ti].timeline != c.timelines[tc].timeline);
    }
    let times = c.timelines[ti].times;
    let n = times.len() as int;
    let rows = rows_within(times, min, max, n);
    lemma_rows_within(times, min, max, n);
    lemma_rows_within_exact(times, min, max, n);
    if exists|k: int| 0 <= k < n && min <= #[trigger] times[k] <= max {
        let k = choose|k: int| 0 <= k < n && min <= #[trigger] times[k] <= max;
        assert(rows.contains(k));
    }
    if rows.len() > 0 {
        assert(rows.contains(rows[0]));
        let p = pick_rows(c, rows);
        assert forall|t: int, j: int| 0 <= t < c.timelines.len() && 0 <= j < rows.len() implies p.timelines[t].timeline
            == c.timelines[t].timeline && #[trigger] p.timelines[t].times[j] == c.timelines[t].times[rows[j]] by {
            assert(p.timelines[t] == pick_time_column(c.timelines[t], rows));
        }
        assert forall|q: int, j: int| 0 <= q < c.components.len() && 0 <= j < rows.len() implies p.components[q].0
            == c.components[q].0 && #[trigger] p.components[q].1.cells[j] == c.components[q].1.cells[rows[j]] by {
            assert(p.components[q] == pick_component_column(c.components[q], rows));
        }
        assert(cut_to_rows(c, p, rows, ti, min, max));
        assert(tc == ti);
        assert(selected_chunk(c, Some((tl, min, max))) == Some(p));
        assert(cut_to_rows(c, selected_chunk(c, Some((tl, min, max))).unwrap(), rows, ti, min, max));
    } else {
        assert(tc == ti);
        assert(selected_chunk(c, Some((tl, min, max))) is None);
    }
}

/// What the chunk `c` exports under a selection: without one, the whole chunk; with one,
/// the chunk cut to its rows whose time on the selected timeline lies in the selected range,
/// if there are such rows.
pub open spec fn selected_chunk(c: ChunkView, sel: Option<((Seq<char>, TimeType), i64, i64)>) -> Option<
    ChunkView,
> {
    match sel {
        None => Some(c),
        Some((tl, min, max)) => {
            if exists|ti: int| 0 <= ti < c.timelines.len() && c.timelines[ti].timeline == tl {
                let ti = choose|ti: int| 0 <= ti < c.timelines.len() && c.timelines[ti].timeline == tl;
                let rows = rows_within(c.timelines[ti].times, min, max, c.timelines[ti].times.len() as int);
                if rows.len() > 0 {
                    Some(pick_rows(c, rows))
                } else {
                    None
                }
            } else {
                None
            }
        },
    }
}

/// The chunks, with their smallest row ids, that the chunks `cs` export under a selection,
/// in order.
pub open spec fn exported(cs: Seq<(u128, ChunkView)>, sel: Option<((Seq<char>, TimeType), i64, i64)>) -> Seq<
    (u128, ChunkView),
>
    decreases cs.len(),
{
    if cs.len() == 0 {
        Seq::empty()
    } else {
        let prev = exported(cs.drop_last(), sel);
        match selected_chunk(cs.last().1, sel) {
            Some(p) => prev.push((cs.last().0, p)),
            None => prev,
        }
    }
}

/// Under a selection, the chunk `c` has the selected timeline and every time it holds there
/// lies in the selected range.
pub open spec fn chunk_within(c: ChunkView, sel: Option<((Seq<char>, TimeType), i64, i64)>) -> bool {
    match sel {
        None => true,
        Some((tl, min, max)) => {
            &&& exists|ti: int| 0 <= ti < c.timelines.len() && c.timelines[ti].timeline == tl
            &&& forall|ti: int, k: int|
                0 <= ti < c.timelines.len() && c.timelines[ti].timeline == tl && 0 <= k
                    < c.timelines[ti].times.len() ==> min <= #[trigger] c.timelines[ti].times[k] <= max
        },
    }
}

/// A chunk message carries only data in the selection.
pub open spec fn msg_within(msg: LogMsg, sel: Option<((Seq<char>, TimeType), i64, i64)>) -> bool {
    match msg {
        LogMsg::ArrowMsg(_, a) => chunk_within(a.chunk@, sel),
        _ => true,
    }
}

/// What a well-formed chunk exports under a selection lies in the selection.
proof fn lemma_selected_within(c: ChunkView, sel: Option<((Seq<char>, TimeType), i64, i64)>)
    requires
        c.wf(),
        selected_chunk(c, sel) is Some,
    ensures
        chunk_within(selected_chunk(c, sel).unwrap(), sel),
{
    if let Some((tl, min, max)) = sel {
        let ti = choose|ti: int| 0 <= ti < c.timelines.len() && c.timelines[ti].timeline == tl;
        let n = c.timelines[ti].times.len() as int;
        let rows = rows_within(c.timelines[ti].times, min, max, n);
        lemma_rows_within(c.timelines[ti].times, min, max, n);
        let p = pick_rows(c, rows);
        assert(p.timelines[ti].timeline == tl);
        assert forall|tj: int, k: int|
            0 <= tj < p.timelines.len() && p.timelines[tj].timeline == tl && 0 <= k
                < p.timelines[tj].times.len() implies min <= #[trigger] p.timelines[tj].times[k] <= max by {
            assert(p.timelines[tj] == pick_time_column(c.timelines[tj], rows));
            if tj < ti {
                assert(c.timelines[tj].timeline != c.timelines[ti].timeline);
            } else if ti < tj {
                assert(c.timelines[ti].timeline != c.timelines[tj].timeline);
            }
            assert(p.timelines[tj].times[k] == c.timelines[ti].times[rows[k]]);
        }
    }
}

/// The positions of the times of `times` that lie in `[min, max]`, in order.
fn positions_within(times: &[i64], min: i64, max: i64) -> (r: Vec<usize>)
    ensures
        rows_view(r@) == rows_within(times@, min, max, times@.len() as int),
{
    let n = times.len();
    let mut out: Vec<usize> = Vec::new();
    let mut i: usize = 0;
    proof {
        assert(rows_view(out@) =~= Seq::<int>::empty());
    }
    while i < n
        invariant
            n == times@.len(),
            i <= n,
            rows_view(out@) == rows_within(times@, min, max, i as int),
        decreases n - i,
    {
        if min <= times[i] && times[i] <= max {
            let ghost before = out@;
            out.push(i);
            proof {
                assert(rows_view(out@) =~= rows_view(before).push(i as int));
            }
        }
        i = i + 1;
    }
    out
}

/// What `chunk` exports under a selection (see [`selected_chunk`]).
fn select_chunk(chunk: &Arc<Chunk>, time_selection: &Option<(Timeline, ResolvedTimeRange)>) -> (r: Option<Arc<Chunk>>)
    requires
        chunk@.wf(),
    ensures
        match r {
            Some(p) => selected_chunk(chunk@, selection_view(*time_selection)) == Some(p@),
            None => selected_chunk(chunk@, selection_view(*time_selection)) is None,
        },
{
    match time_selection {
        None => Some(chunk.clone()),
        Some((tl, range)) => match chunk.timeline_position(tl) {
            None => None,
            Some(ti) => {
                let cols = chunk.timelines();
                let col = &cols[ti];
                proof {
                    assert(col@ == chunk@.timelines[ti as int]);
                    let tc = choose|tc: int|
                        0 <= tc < chunk@.timelines.len() && chunk@.timelines[tc].timeline == tl@;
                    if tc < ti {
                        assert(chunk@.timelines[tc].timeline != chunk@.timelines[ti as int].timeline);
                    } else if ti < tc {
                        assert(chunk@.timelines[ti as int].timeline != chunk@.timelines[tc].timeline);
                    }
                }
                let rows = positions_within(col.times(), range.min.0, range.max.0);
                if rows.len() == 0 {
                    None
                } else {
                    proof {
                        let n = col@.times.len() as int;
                        lemma_rows_within(col@.times, range.min.0, range.max.0, n);
                        assert forall|j: int| 0 <= j < rows@.len() implies rows@[j] < chunk@.row_ids.len() by {
                            assert(rows_view(rows@)[j] == rows@[j] as int);
                        }
                    }
                    Some(Arc::new(chunk.picked_rows(rows.as_slice())))
                }
            },
        },
    }
}

impl EntityDb {
    /// Applies a message for this database's store (see [`msg_applied`]); a chunk message
    /// also records the current instant as that of the last modification.
    pub fn add(&mut self, msg: &LogMsg) -> (r: Result<(), WriteError>)
        requires
            old(self)@.wf(),
            msg_store_id(*msg) == old(self)@.store.id,
            msg_addable(old(self)@, *msg),
        ensures
            r is Ok,
            msg_applied(old(self)@, *msg, final(self)@),
            !(*msg is ArrowMsg) ==> final(self).last_modified() == old(self).last_modified(),
    {
        let now = instant_now();
        self.add_at(msg, now)
    }

    /// Applies a message for this database's store (see [`msg_applied`]); a chunk message
    /// records `now` as the instant of the last modification, other messages leave it.
    pub fn add_at(&mut self, msg: &LogMsg, now: web_time::Instant) -> (r: Result<(), WriteError>)
        requires
            old(self)@.wf(),
            msg_store_id(*msg) == old(self)@.store.id,
            msg_addable(old(self)@, *msg),
        ensures
            r is Ok,
            msg_applied(old(self)@, *msg, final(self)@),
            *msg is ArrowMsg ==> final(self).last_modified() == now,
            !(*msg is ArrowMsg) ==> final(self).last_modified() == old(self).last_modified(),
    {
        match msg {
            LogMsg::SetStoreInfo(m) => {
                self.set_store_info(m.duplicate());
            },
            LogMsg::ArrowMsg(_, a) => {
                let added = if a.chunk.is_sorted() {
                    self.add_chunk(a.chunk.clone())
                } else {
                    let mut chunk = a.chunk.duplicate();
                    chunk.sort_if_unsorted();
                    self.add_chunk(Arc::new(chunk))
                };
                match added {
                    Ok(_) => {},
                    Err(e) => {
                        return Err(e);
                    },
                }
                self.last_modified_at = now;
            },
            LogMsg::BlueprintActivationCommand(_) => {},
        }
        Ok(())
    }

    /// The messages that rebuild this database: its store info, if any; one message per
    /// chunk, in store order; and, for a blueprint, a command that activates it. With a time
    /// selection, only data of the selected timeline inside the selected range is exported:
    /// each chunk is cut to its rows whose time there lies in the range, and a chunk without
    /// such rows is left out.
    pub fn to_messages(&self, time_selection: Option<(Timeline, ResolvedTimeRange)>) -> (r: Vec<LogMsg>)
        requires
            self@.wf(),
        ensures
            messages_for(self@, exported(self@.store.chunks, selection_view(time_selection)), r@),
            forall|i: int| 0 <= i < r@.len() ==> msg_within(#[trigger] r@[i], selection_view(time_selection)),
            time_selection is None ==> messages_of(self@, r@),
    {
        let ghost cs = self@.store.chunks;
        let ghost sel = selection_view(time_selection);
        let mut out: Vec<LogMsg> = Vec::new();
        match self.store_info_msg() {
            Some(m) => {
                out.push(LogMsg::SetStoreInfo(m.duplicate()));
            },
            None => {},
        }
        let ghost off: int = out@.len() as int;
        let ghost first = out@;
        let chunks = self.store().iter_chunks();
        let n = chunks.len();
        let mut k: usize = 0;
        proof {
            assert(cs.take(0) =~= Seq::<(u128, ChunkView)>::empty());
        }
        while k < n
            invariant
                n == chunks@.len(),
                cs == self@.store.chunks,
                self@.store.wf(),
                n == cs.len(),
                sel == selection_view(time_selection),
                forall|i: int| 0 <= i < n ==> (#[trigger] chunks@[i])@ == cs[i].1,
                k <= n,
                off == first.len(),
                out@.len() == off + exported(cs.take(k as int), sel).len(),
                forall|i: int| 0 <= i < off ==> out@[i] == first[i],
                off == info_msgs(self@),
                self@.set_store_info is Some ==> is_store_info_msg(
                    out@[0],
                    self@.set_store_info.unwrap(),
                ),
                forall|i: int| 0 <= i < out@.len() ==> msg_within(#[trigger] out@[i], sel),
                forall|i: int|
                    off <= i < out@.len() ==> is_chunk_msg(
                        #[trigger] out@[i],
                        self@.store.id,
                        exported(cs.take(k as int), sel)[i - off].1,
                    ),
                time_selection is None ==> exported(cs.take(k as int), sel) == cs.take(k as int),
            decreases n - k,
        {
            let chunk = &chunks[k];
            let ghost x = cs[k as int];
            proof {
                assert(x.1 == chunk@);
                assert(cs.take(k + 1).drop_last() =~= cs.take(k as int));
                assert(cs.take(k + 1).last() == x);
                assert(self@.store.chunks[k as int].1.wf());
            }
            let picked = select_chunk(chunk, &time_selection);
            let ghost before = out@;
            match picked {
                Some(p) => {
                    proof {
                        lemma_selected_within(x.1, sel);
                    }
                    let timepoint_max = p.timepoint_max();
                    let msg = ArrowMsg {
                        table_id: p.id().as_u128(),
                        timepoint_max,
                        chunk: p,
                    };
                    out.push(LogMsg::ArrowMsg(self.store_id().duplicate(), msg));
                    proof {
                        assert(exported(cs.take(k + 1), sel) == exported(cs.take(k as int), sel).push(
                            (x.0, selected_chunk(x.1, sel).unwrap()),
                        ));
                        assert forall|i: int| off <= i < out@.len() implies is_chunk_msg(
                            #[trigger] out@[i],
                            self@.store.id,
                            exported(cs.take(k + 1), sel)[i - off].1,
                        ) by {
                            if i < before.len() {
                                assert(out@[i] == before[i]);
                            }
                        }
                        assert forall|i: int| 0 <= i < out@.len() implies msg_within(#[trigger] out@[i], sel) by {
                            if i < before.len() {
                                assert(out@[i] == before[i]);
                            }
                        }
                        if time_selection is None {
                            assert(cs.take(k + 1) =~= cs.take(k as int).push(x));
                        }
                    }
                },
                None => {
                    proof {
                        assert(exported(cs.take(k + 1), sel) == exported(cs.take(k as int), sel));
                    }
                },
            }
            k = k + 1;
        }
        proof {
            assert(cs.take(n as int) =~= cs);
        }
        let is_blueprint = match self.store_kind() {
            StoreKind::Blueprint => true,
            StoreKind::Recording => false,
        };
        let ghost before = out@;
        if is_blueprint {
            out.push(
                LogMsg::BlueprintActivationCommand(
                    BlueprintActivationCommand::make_active(self.store_id().duplicate()),
                ),
            );
            proof {
                if before.len() > 0 {
                    assert(out@[0] == before[0]);
                }
            }
        }
        out
    }

    /// The key by which recordings are sorted: the application id and start time of the
    /// store info, if any.
    pub fn sort_key(&self) -> (r: Option<(&str, i64)>)
        ensures
            self@.set_store_info is None ==> r is None,
            self@.set_store_info is Some ==> r is Some && r.unwrap().0@
                == self@.set_store_info.unwrap().info.application_id && r.unwrap().1
                == self@.set_store_info.unwrap().info.started,
    {
        match self.store_info() {
            Some(info) => Some((info.application_id.as_str(), info.started)),
            None => None,
        }
    }
}

// --- Entities, timelines and components seen in the store ---

/// `p` is `q` or an ancestor of `q`: empty (the root), equal, or a prefix of `q` followed by
/// the separator `/`.
pub open spec fn is_part_prefix(p: Seq<char>, q: Seq<char>) -> bool {
    ||| p.len() == 0
    ||| p == q
    ||| (p.len() < q.len() && q.subrange(0, p.len() as int) == p && q[p.len() as int] == '/')
}

/// The chunk `c` has a column for the component `name`.
pub open spec fn chunk_has_component(c: ChunkView, name: Seq<char>) -> bool {
    exists|i: int| 0 <= i < c.components.len() && c.components[i].0 == name
}

/// The chunk `c` has the timeline `t`.
pub open spec fn chunk_has_timeline(c: ChunkView, t: (Seq<char>, TimeType)) -> bool {
    exists|i: int| 0 <= i < c.timelines.len() && c.timelines[i].timeline == t
}

/// Some timeline of the list is `t`.
pub open spec fn timelines_contain(v: Seq<Timeline>, t: (Seq<char>, TimeType)) -> bool {
    exists|i: int| 0 <= i < v.len() && v[i]@ == t
}

/// One of the first `k` chunks has the timeline `t`.
pub open spec fn chunks_have_timeline(cs: Seq<(u128, ChunkView)>, k: int, t: (Seq<char>, TimeType)) -> bool {
    exists|j: int| 0 <= j < k && chunk_has_timeline(cs[j].1, t)
}

/// One of the first `i` timelines of `c` is `t`.
pub open spec fn first_timelines_have(c: ChunkView, i: int, t: (Seq<char>, TimeType)) -> bool {
    exists|a: int| 0 <= a < i && c.timelines[a].timeline == t
}

/// Whether `p` is `q` or an ancestor of `q` (see [`is_part_prefix`]).
fn part_prefix(p: &str, q: &str) -> (r: bool)
    ensures
        r == is_part_prefix(p@, q@),
{
    let pn = p.unicode_len();
    let qn = q.unicode_len();
    if pn == 0 {
        return true;
    }
    if pn > qn {
        proof {
            if p@ == q@ {
                assert(p@.len() == q@.len());
            }
        }
        return false;
    }
    let mut i: usize = 0;
    while i < pn
        invariant
            pn == p@.len(),
            qn == q@.len(),
            pn <= qn,
            i <= pn,
            forall|j: int| 0 <= j < i ==> p@[j] == q@[j],
        decreases pn - i,
    {
        if p.get_char(i) != q.get_char(i) {
            proof {
                assert(q@.subrange(0, pn as int)[i as int] != p@[i as int]);
                assert(p@ != q@);
            }
            return false;
        }
        i = i + 1;
    }
    proof {
        assert(q@.subrange(0, pn as int) =~= p@);
    }
    if pn == qn {
        proof {
            assert(p@ =~= q@);
        }
        true
    } else {
        proof {
            assert(p@ != q@);
        }
        q.get_char(pn) == '/'
    }
}

/// Whether the chunk has a column for `name`.
fn has_component_column(chunk: &Chunk, name: &ComponentName) -> (r: bool)
    ensures
        r == chunk_has_component(chunk@, name@),
{
    match chunk.component_position(name) {
        Some(_) => true,
        None => false,
    }
}

/// Whether the chunk has the timeline `t`.
fn has_timeline_column(chunk: &Chunk, t: &Timeline) -> (r: bool)
    ensures
        r == chunk_has_timeline(chunk@, t@),
{
    match chunk.timeline_position(t) {
        Some(_) => true,
        None => false,
    }
}

impl EntityDb {
    /// Whether `entity_path` is a stored entity or one of their ancestors; the root always
    /// is. Entities higher up the hierarchy are known even if nothing was logged to them.
    pub fn is_known_entity(&self, entity_path: &EntityPath) -> (r: bool)
        ensures
            r == (entity_path@.len() == 0 || exists|k: int|
                0 <= k < self@.store.chunks.len() && is_part_prefix(
                    entity_path@,
                    self@.store.chunks[k].1.entity_path,
                )),
    {
        if entity_path.as_str().unicode_len() == 0 {
            return true;
        }
        let chunks = self.data_store2.iter_chunks();
        let n = chunks.len();
        let mut k: usize = 0;
        while k < n
            invariant
                n == chunks@.len(),
                n == self@.store.chunks.len(),
                forall|i: int| 0 <= i < n ==> (#[trigger] chunks@[i])@ == self@.store.chunks[i].1,
                k <= n,
                forall|j: int|
                    0 <= j < k ==> !is_part_prefix(entity_path@, self@.store.chunks[j].1.entity_path),
            decreases n - k,
        {
            proof {
                assert(chunks@[k as int]@ == self@.store.chunks[k as int].1);
            }
            if part_prefix(entity_path.as_str(), chunks[k].entity_path().as_str()) {
                return true;
            }
            k = k + 1;
        }
        false
    }

    /// Whether some stored chunk has data on `timeline`.
    pub fn has_any_data_on_timeline(&self, timeline: &Timeline) -> (r: bool)
        ensures
            r == exists|k: int|
                0 <= k < self@.store.chunks.len() && chunk_has_timeline(
                    self@.store.chunks[k].1,
                    timeline@,
                ),
    {
        let chunks = self.data_store2.iter_chunks();
        let n = chunks.len();
        let mut k: usize = 0;
        while k < n
            invariant
                n == chunks@.len(),
                n == self@.store.chunks.len(),
                forall|i: int| 0 <= i < n ==> (#[trigger] chunks@[i])@ == self@.store.chunks[i].1,
                k <= n,
                forall|j: int|
                    0 <= j < k ==> !chunk_has_timeline(self@.store.chunks[j].1, timeline@),
            decreases n - k,
        {
            proof {
                assert(chunks@[k as int]@ == self@.store.chunks[k as int].1);
            }
            if has_timeline_column(&chunks[k], timeline) {
                return true;
            }
            k = k + 1;
        }
        false
    }

    /// The timelines that stored chunks have data on, each once, in increasing order.
    pub fn timelines(&self) -> (r: Vec<Timeline>)
        ensures
            timelines_sorted(timeline_views(r@)),
            forall|t: (Seq<char>, TimeType)|
                #[trigger] timelines_contain(r@, t) <==> chunks_have_timeline(
                    self@.store.chunks,
                    self@.store.chunks.len() as int,
                    t,
                ),
    {
        let chunks = self.data_store2.iter_chunks();
        let n = chunks.len();
        let mut out: Vec<Timeline> = Vec::new();
        let mut k: usize = 0;
        while k < n
            invariant
                n == chunks@.len(),
                n == self@.store.chunks.len(),
                forall|i: int| 0 <= i < n ==> (#[trigger] chunks@[i])@ == self@.store.chunks[i].1,
                k <= n,
                forall|i: int, j: int| 0 <= i < j < out@.len() ==> out@[i]@ != out@[j]@,
                forall|t: (Seq<char>, TimeType)|
                    #[trigger] timelines_contain(out@, t) <==> chunks_have_timeline(
                        self@.store.chunks,
                        k as int,
                        t,
                    ),
            decreases n - k,
        {
            let chunk = &chunks[k];
            proof {
                assert(chunks@[k as int]@ == self@.store.chunks[k as int].1);
            }
            let tls = chunk.timelines();
            let m = tls.len();
            let mut i: usize = 0;
            let ghost before = out@;
            while i < m
                invariant
                    m == tls@.len(),
                    tls@.len() == chunk@.timelines.len(),
                    forall|a: int| 0 <= a < m ==> (#[trigger] tls@[a])@ == chunk@.timelines[a],
                    i <= m,
                    forall|a: int, b: int| 0 <= a < b < out@.len() ==> out@[a]@ != out@[b]@,
                    forall|u: (Seq<char>, TimeType)|
                        #[trigger] timelines_contain(out@, u) <==> (timelines_contain(before, u)
                            || first_timelines_have(chunk@, i as int, u)),
                decreases m - i,
            {
                let t = tls[i].timeline();
                proof {
                    assert(tls@[i as int]@ == chunk@.timelines[i as int]);
                }
                let mut found = false;
                let mut j: usize = 0;
                let on = out.len();
                while j < on
                    invariant
                        on == out@.len(),
                        j <= on,
                        !found ==> forall|b: int| 0 <= b < j ==> out@[b]@ != t@,
                        found ==> timelines_contain(out@, t@),
                    decreases on - j,
                {
                    if out[j].same(t) {
                        found = true;
                    }
                    j = j + 1;
                }
                let ghost o = out@;
                if !found {
                    out.push(t.duplicate());
                    proof {
                        assert forall|a: int, b: int| 0 <= a < b < out@.len() implies out@[a]@
                            != out@[b]@ by {
                            if b == o.len() {
                                assert(out@[a] == o[a]);
                            } else {
                                assert(out@[a] == o[a] && out@[b] == o[b]);
                            }
                        }
                    }
                }
                proof {
                    assert forall|u: (Seq<char>, TimeType)|
                        #[trigger] timelines_contain(out@, u) <==> (timelines_contain(before, u)
                            || first_timelines_have(chunk@, i + 1, u)) by {
                        if timelines_contain(out@, u) {
                            let a = choose|a: int| 0 <= a < out@.len() && out@[a]@ == u;
                            if a < o.len() {
                                assert(timelines_contain(o, u));
                            } else {
                                assert(chunk@.timelines[i as int].timeline == u);
                            }
                        }
                        if timelines_contain(o, u) {
                            let a = choose|a: int| 0 <= a < o.len() && o[a]@ == u;
                            assert(out@[a] == o[a]);
                        }
                        if first_timelines_have(chunk@, i + 1, u) && !first_timelines_have(
                            chunk@,
                            i as int,
                            u,
                        ) {
                            let a = choose|a: int|
                                0 <= a < i + 1 && chunk@.timelines[a].timeline == u;
                            assert(a == i);
                            if !found {
                                assert(out@[o.len() as int]@ == u);
                            }
                        }
                        if timelines_contain(before, u) {
                            assert(timelines_contain(o, u));
                        }
                        if first_timelines_have(chunk@, i as int, u) {
                            assert(timelines_contain(o, u));
                        }
                    }
                }
                i = i + 1;
            }
            proof {
                assert forall|u: (Seq<char>, TimeType)|
                    #[trigger] timelines_contain(out@, u) <==> chunks_have_timeline(
                        self@.store.chunks,
                        k + 1,
                        u,
                    ) by {
                    if chunks_have_timeline(self@.store.chunks, k + 1, u) && !chunks_have_timeline(
                        self@.store.chunks,
                        k as int,
                        u,
                    ) {
                        let j = choose|j: int|
                            0 <= j < k + 1 && chunk_has_timeline(self@.store.chunks[j].1, u);
                        assert(j == k);
                        let a = choose|a: int|
                            0 <= a < chunk@.timelines.len() && chunk@.timelines[a].timeline == u;
                        assert(first_timelines_have(chunk@, m as int, u));
                    }
                    if first_timelines_have(chunk@, m as int, u) {
                        let a = choose|a: int| 0 <= a < m && chunk@.timelines[a].timeline == u;
                        assert(chunk_has_timeline(self@.store.chunks[k as int].1, u));
                    }
                    if chunks_have_timeline(self@.store.chunks, k as int, u) {
                        let j = choose|j: int|
                            0 <= j < k && chunk_has_timeline(self@.store.chunks[j].1, u);
                    }
                }
            }
            k = k + 1;
        }
        let mut sorted: Vec<Timeline> = Vec::new();
        let no = out.len();
        let mut q: usize = 0;
        proof {
            assert(timeline_views(sorted@) =~= Seq::<(Seq<char>, TimeType)>::empty());
        }
        while q < no
            invariant
                no == out@.len(),
                q <= no,
                timelines_sorted(timeline_views(sorted@)),
                forall|y: (Seq<char>, TimeType)|
                    #[trigger] timeline_views(sorted@).contains(y) <==> exists|a: int|
                        0 <= a < q && out@[a]@ == y,
            decreases no - q,
        {
            let ghost before = timeline_views(sorted@);
            insert_timeline_sorted(&mut sorted, out[q].duplicate());
            proof {
                assert forall|y: (Seq<char>, TimeType)|
                    #[trigger] timeline_views(sorted@).contains(y) <==> exists|a: int|
                        0 <= a < q + 1 && out@[a]@ == y by {
                    if y == out@[q as int]@ {
                        assert(0 <= q < q + 1 && out@[q as int]@ == y);
                    }
                    if exists|a: int| 0 <= a < q + 1 && out@[a]@ == y {
                        let a = choose|a: int| 0 <= a < q + 1 && out@[a]@ == y;
                        if a < q {
                            assert(before.contains(y));
                        }
                    }
                }
            }
            q = q + 1;
        }
        proof {
            assert forall|t: (Seq<char>, TimeType)|
                #[trigger] timelines_contain(sorted@, t) <==> timelines_contain(out@, t) by {
                if timelines_contain(sorted@, t) {
                    let i = choose|i: int| 0 <= i < sorted@.len() && sorted@[i]@ == t;
                    assert(timeline_views(sorted@)[i] == t);
                    assert(timeline_views(sorted@).contains(t));
                }
                if timelines_contain(out@, t) {
                    let a = choose|a: int| 0 <= a < out@.len() && out@[a]@ == t;
                    assert(timeline_views(sorted@).contains(t));
                    let i = choose|i: int| 0 <= i < timeline_views(sorted@).len() && timeline_views(sorted@)[i] == t;
                    assert(sorted@[i]@ == t);
                }
            }
        }
        sorted
    }

    /// Whether the component `component_path.component_name` of the entity
    /// `component_path.entity_path` is static: `None` if no stored chunk of that entity has
    /// that component, else whether one of them is static.
    pub fn is_component_static(&self, component_path: &ComponentPath) -> (r: Option<bool>)
        ensures
            r is None <==> !exists|k: int|
                0 <= k < self@.store.chunks.len() && self@.store.chunks[k].1.entity_path
                    == component_path.entity_path@ && chunk_has_component(
                    self@.store.chunks[k].1,
                    component_path.component_name@,
                ),
            r == Some(true) <==> exists|k: int|
                0 <= k < self@.store.chunks.len() && self@.store.chunks[k].1.entity_path
                    == component_path.entity_path@ && chunk_has_component(
                    self@.store.chunks[k].1,
                    component_path.component_name@,
                ) && self@.store.chunks[k].1.timelines.len() == 0,
    {
        let chunks = self.data_store2.iter_chunks();
        let n = chunks.len();
        let ghost p = component_path.entity_path@;
        let ghost c = component_path.component_name@;
        let mut seen = false;
        let mut is_static = false;
        let mut k: usize = 0;
        while k < n
            invariant
                n == chunks@.len(),
                n == self@.store.chunks.len(),
                forall|i: int| 0 <= i < n ==> (#[trigger] chunks@[i])@ == self@.store.chunks[i].1,
                p == component_path.entity_path@,
                c == component_path.component_name@,
                k <= n,
                seen == exists|j: int|
                    0 <= j < k && self@.store.chunks[j].1.entity_path == p && chunk_has_component(
                        self@.store.chunks[j].1,
                        c,
                    ),
                is_static == exists|j: int|
                    0 <= j < k && self@.store.chunks[j].1.entity_path == p && chunk_has_component(
                        self@.store.chunks[j].1,
                        c,
                    ) && self@.store.chunks[j].1.timelines.len() == 0,
            decreases n - k,
        {
            let chunk = &chunks[k];
            proof {
                assert(chunks@[k as int]@ == self@.store.chunks[k as int].1);
            }
            if chunk.entity_path().same(&component_path.entity_path) && has_component_column(
                chunk,
                &component_path.component_name,
            ) {
                seen = true;
                if chunk.is_static() {
                    is_static = true;
                }
            }
            k = k + 1;
        }
        if seen {
            Some(is_static)
        } else {
            None
        }
    }

    /// The size of the database is not tracked: always 0.
    pub fn heap_size_bytes(&self) -> (r: u64)
        ensures
            r == 0,
    {
        0
    }

    /// Garbage collection of everything but the latest row is not done: the database is left
    /// as it is.
    pub fn gc_everything_but_the_latest_row(&mut self)
        ensures
            final(self)@ == old(self)@,
    {
    }
}

// --- Laws ---

/// The highest row id seen by a database is at least every row id of every stored chunk.
pub proof fn law_latest_row_id_covers_store(v: EntityDbView, k: int)
    requires
        v.wf(),
        0 <= k < v.store.chunks.len(),
    ensures
        v.latest_row_id is Some,
        forall|i: int|
            0 <= i < v.store.chunks[k].1.row_ids.len() ==> v.store.chunks[k].1.row_ids[i].0
                <= v.latest_row_id.unwrap().0,
{
    let c = v.store.chunks[k].1;
    assert(row_id_covers(v.latest_row_id, c));
    crate::chunk::lemma_row_id_min_max(c.row_ids);
}

/// Adding a chunk never lowers the highest row id seen, and raises it to at least the
/// chunk's own row ids.
pub proof fn law_latest_row_id_grows(o: EntityDbView, c: ChunkView, n: EntityDbView)
    requires
        chunk_added(o, c, n),
        c.row_ids.len() > 0,
    ensures
        n.latest_row_id is Some,
        o.latest_row_id is Some ==> o.latest_row_id.unwrap().0 <= n.latest_row_id.unwrap().0,
        forall|i: int| 0 <= i < c.row_ids.len() ==> c.row_ids[i].0 <= n.latest_row_id.unwrap().0,
{
    crate::chunk::lemma_row_id_min_max(c.row_ids);
}

/// After a chunk is added its entity is logged, and every entity logged before still is.
pub proof fn law_logged_entities_stay(o: EntityDbView, c: ChunkView, n: EntityDbView, h: u64)
    requires
        chunk_added(o, c, n),
    ensures
        n.path_of(path_hash(c.entity_path)) is Some,
        o.path_of(h) is Some ==> n.path_of(h) is Some,
{
    if o.path_of(h) is Some {
        let k = choose|k: int| 0 <= k < o.entity_paths.len() && o.entity_paths[k].0 == h;
        assert(n.entity_paths[k] == o.entity_paths[k]);
    }
}

/// The store info that replaying the first `i` messages of `v` sets.
pub open spec fn replayed_info(v: EntityDbView, i: int) -> Option<SetStoreInfoView> {
    if info_msgs(v) == 1 && i >= 1 {
        v.set_store_info
    } else {
        None
    }
}

/// How many chunks the first `i` messages of `v` carry.
pub open spec fn replayed_chunks(v: EntityDbView, i: int) -> int {
    if i <= info_msgs(v) {
        0
    } else if i - info_msgs(v) >= v.store.chunks.len() {
        v.store.chunks.len() as int
    } else {
        i - info_msgs(v)
    }
}

/// `dbs` is a run of databases, each the one before after the next of `msgs`, starting from
/// an empty database of the store `id`.
pub open spec fn is_replay(dbs: Seq<EntityDbView>, msgs: Seq<LogMsg>, id: (StoreKind, Seq<char>)) -> bool {
    &&& dbs.len() == msgs.len() + 1
    &&& dbs[0].set_store_info is None
    &&& dbs[0].store.chunks.len() == 0
    &&& dbs[0].store.id == id
    &&& forall|i: int| 0 <= i < msgs.len() ==> msg_applied(dbs[i], msgs[i], #[trigger] dbs[i + 1])
}

proof fn lemma_replay_prefix(src: EntityDbView, msgs: Seq<LogMsg>, dbs: Seq<EntityDbView>, i: int)
    requires
        src.wf(),
        messages_of(src, msgs),
        is_replay(dbs, msgs, src.store.id),
        0 <= i <= msgs.len(),
    ensures
        dbs[i].set_store_info == replayed_info(src, i),
        holds_first_chunks(dbs[i].store, src.store.chunks, replayed_chunks(src, i)),
    decreases i,
{
    let sc = src.store.chunks;
    if i == 0 {
        assert forall|x: (u128, ChunkView)|
            #[trigger] dbs[0].store.chunks.contains(x) <==> exists|j: int| 0 <= j < 0 && sc[j] == x by {
            if dbs[0].store.chunks.contains(x) {
                let k = choose|k: int| 0 <= k < dbs[0].store.chunks.len() && dbs[0].store.chunks[k] == x;
            }
        }
    } else {
        let p = i - 1;
        lemma_replay_prefix(src, msgs, dbs, p);
        let o = dbs[p];
        let n = dbs[i];
        assert(msg_applied(dbs[p], msgs[p], dbs[p + 1]));
        let off = info_msgs(src);
        let nc = sc.len() as int;
        if p < off {
            assert(is_store_info_msg(msgs[0], src.set_store_info.unwrap()));
            assert(holds_first_chunks(n.store, sc, replayed_chunks(src, i))) by {
                assert(n.store == o.store);
            }
        } else if p < off + nc {
            let k = p - off;
            let c = sc[k].1;
            assert(is_chunk_msg(msgs[p], src.store.id, c));
            assert(c.is_sorted);
            assert(chunk_added(o, c, n));
            assert(!o.store.has_chunk(c.id.0)) by {
                if o.store.has_chunk(c.id.0) {
                    let a = choose|a: int|
                        0 <= a < o.store.chunks.len() && o.store.chunks[a].1.id.0 == c.id.0;
                    assert(o.store.chunks.contains(o.store.chunks[a]));
                    let j = choose|j: int| 0 <= j < replayed_chunks(src, p) && sc[j] == o.store.chunks[a];
                    assert(sc[j].1.id != sc[k].1.id);
                }
            }
            assert(sc[k] == (row_id_min(c.row_ids), c));
            assert forall|x: (u128, ChunkView)|
                #[trigger] n.store.chunks.contains(x) <==> exists|j: int|
                    0 <= j < replayed_chunks(src, i) && sc[j] == x by {
                if exists|j: int| 0 <= j < replayed_chunks(src, i) && sc[j] == x {
                    let j = choose|j: int| 0 <= j < replayed_chunks(src, i) && sc[j] == x;
                    if j < k {
                        assert(o.store.chunks.contains(x));
                    }
                }
                if o.store.chunks.contains(x) {
                    let j = choose|j: int| 0 <= j < replayed_chunks(src, p) && sc[j] == x;
                }
            }
        } else {
            assert(is_activation_msg(msgs[p], src.store.id));
            assert(n == o);
        }
    }
}

/// Replaying the messages of a database, in order, into an empty database of the same store
/// gives back its store info and exactly its chunks.
pub proof fn law_messages_rebuild(src: EntityDbView, msgs: Seq<LogMsg>, dbs: Seq<EntityDbView>)
    requires
        src.wf(),
        messages_of(src, msgs),
        is_replay(dbs, msgs, src.store.id),
    ensures
        dbs.last().set_store_info == src.set_store_info,
        forall|x: (u128, ChunkView)|
            #[trigger] dbs.last().store.chunks.contains(x) <==> src.store.chunks.contains(x),
{
    let m = msgs.len() as int;
    lemma_replay_prefix(src, msgs, dbs, m);
    assert(dbs.last() == dbs[m]);
    let sc = src.store.chunks;
    assert(replayed_chunks(src, m) == sc.len());
    assert forall|x: (u128, ChunkView)|
        #[trigger] dbs.last().store.chunks.contains(x) <==> sc.contains(x) by {
        if sc.contains(x) {
            let j = choose|j: int| 0 <= j < sc.len() && sc[j] == x;
        }
    }
}

} // verus!
