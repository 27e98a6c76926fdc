//! The changes that the store reports.
use std::sync::Arc;
use vstd::prelude::*;

use crate::chunk::Chunk;
use crate::store::StoreGeneration2;
use crate::types::StoreId;

verus! {

/// Whether a change to the store is an addition or a deletion.
#[derive(Debug, Clone, Copy, PartialEq, Eq, Structural)]
pub enum StoreDiffKind2 {
    Addition,
    Deletion,
}

impl StoreDiffKind2 {
    /// `+1` for additions, `-1` for deletions.
    pub fn delta(&self) -> (r: i64)
        ensures
            r == (match *self {
                StoreDiffKind2::Addition => 1i64,
                StoreDiffKind2::Deletion => -1i64,
            }),
    {
        match self {
            StoreDiffKind2::Addition => 1,
            StoreDiffKind2::Deletion => -1,
        }
    }
}

/// An atomic change in the store: a chunk has been added or removed.
#[derive(Debug)]
pub struct StoreDiff2 {
    /// Addition or deletion?
    pub kind: StoreDiffKind2,
    /// The chunk that was added or removed.
    pub chunk: Arc<Chunk>,
}

impl StoreDiff2 {
    pub fn addition(chunk: Arc<Chunk>) -> (r: StoreDiff2)
        ensures
            r.kind == StoreDiffKind2::Addition,
            r.chunk@ == chunk@,
    {
        StoreDiff2 { kind: StoreDiffKind2::Addition, chunk }
    }

    pub fn deletion(chunk: Arc<Chunk>) -> (r: StoreDiff2)
        ensures
            r.kind == StoreDiffKind2::Deletion,
            r.chunk@ == chunk@,
    {
        StoreDiff2 { kind: StoreDiffKind2::Deletion, chunk }
    }

    /// Whether the chunk has no timelines.
    pub fn is_static(&self) -> (r: bool)
        ensures
            r == (self.chunk@.timelines.len() == 0),
    {
        self.chunk.is_static()
    }

    /// `-1` for deletions, `+1` for additions.
    pub fn delta(&self) -> (r: i64)
        ensures
            r == (match self.kind {
                StoreDiffKind2::Addition => 1i64,
                StoreDiffKind2::Deletion => -1i64,
            }),
    {
        self.kind.delta()
    }

    pub fn num_components(&self) -> (r: usize)
        ensures
            r == self.chunk@.components.len(),
    {
        self.chunk.num_components()
    }
}

/// A change, with the store that made it, the store's generation at that time, and an id
/// that grows by one with each event of that store.
#[derive(Debug)]
pub struct StoreEvent2 {
    pub store_id: StoreId,
    pub store_generation: StoreGeneration2,
    pub event_id: u64,
    pub diff: StoreDiff2,
}

} // verus!
