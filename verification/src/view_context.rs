//! What a space view sees of the viewer while it runs: the recording, the blueprint, the
//! selection, the current time query, and the results of the data queries of every view.
use vstd::prelude::*;

use crate::entity_db::EntityDb;
use crate::names::ComponentName;
use crate::query::LatestAtQuery;
use crate::store::DataStore2;
use crate::types::{EntityPath, StoreId};

verus! {

/// Identifies a space view.
#[derive(Debug, Clone, Copy, PartialEq, Eq, Structural, Hash)]
pub struct SpaceViewId(pub u128);

/// Something that can be selected or hovered.
#[derive(Debug)]
pub enum Item {
    StoreId(StoreId),
    ComponentPath(EntityPath, ComponentName),
    SpaceView(SpaceViewId),
    InstancePath(EntityPath),
    DataResult(SpaceViewId, EntityPath),
}

/// An ordered collection of items.
#[derive(Debug)]
pub struct ItemCollection {
    pub items: Vec<Item>,
}

/// What is selected and what is hovered.
#[derive(Debug)]
pub struct ApplicationSelectionState {
    pub selected: ItemCollection,
    pub hovered: ItemCollection,
}

/// The entities that the data query of a space view found.
#[derive(Debug)]
pub struct DataQueryResult {
    pub space_view_id: SpaceViewId,
    pub entities: Vec<EntityPath>,
}

/// The index of the first query result for `id`, if any.
pub open spec fn first_result(results: Seq<DataQueryResult>, id: SpaceViewId) -> Option<int> {
    if exists|k: int| 0 <= k < results.len() && results[k].space_view_id == id {
        Some(
            choose|k: int|
                0 <= k < results.len() && results[k].space_view_id == id && forall|j: int|
                    0 <= j < k ==> results[j].space_view_id != id,
        )
    } else {
        None
    }
}

/// The viewer state shared by all views.
pub struct ViewerContext<'a> {
    pub recording: &'a EntityDb,
    pub blueprint: &'a EntityDb,
    pub selection_state: &'a ApplicationSelectionState,
    pub query_results: &'a Vec<DataQueryResult>,
    /// The latest-at query at the current time of the viewer's time control.
    pub current_query: &'a LatestAtQuery,
}

/// What one space view sees while it runs.
pub struct ViewContext<'a> {
    pub viewer_ctx: &'a ViewerContext<'a>,
    pub view_id: SpaceViewId,
}

/// The first result for `id` is the smallest index with that id.
proof fn lemma_first_result(results: Seq<DataQueryResult>, id: SpaceViewId, k: int)
    requires
        0 <= k < results.len(),
        results[k].space_view_id == id,
        forall|j: int| 0 <= j < k ==> results[j].space_view_id != id,
    ensures
        first_result(results, id) == Some(k),
{
    let c = choose|c: int|
        0 <= c < results.len() && results[c].space_view_id == id && forall|j: int|
            0 <= j < c ==> results[j].space_view_id != id;
    assert(0 <= c < results.len() && results[c].space_view_id == id && forall|j: int|
        0 <= j < c ==> results[j].space_view_id != id);
    if c < k {
        assert(results[c].space_view_id != id);
    } else if k < c {
        assert(results[k].space_view_id != id);
    }
}

impl<'a> ViewerContext<'a> {
    /// The first data query result of the space view `id`; `None` if the view has none (no
    /// result is stored for an empty query).
    pub fn lookup_query_result(&self, id: SpaceViewId) -> (r: Option<&DataQueryResult>)
        ensures
            r is None <==> first_result(self.query_results@, id) is None,
            r matches Some(q) ==> *q == self.query_results@[first_result(self.query_results@, id).unwrap()],
    {
        let results = self.query_results;
        let n = results.len();
        let mut k: usize = 0;
        while k < n
            invariant
                n == results@.len(),
                results@ == self.query_results@,
                k <= n,
                forall|j: int| 0 <= j < k ==> results@[j].space_view_id != id,
            decreases n - k,
        {
            if results[k].space_view_id.0 == id.0 {
                let r = &results[k];
                proof {
                    lemma_first_result(results@, id, k as int);
                }
                return Some(r);
            }
            k = k + 1;
        }
        proof {
            if first_result(results@, id) is Some {
                let c = choose|c: int| 0 <= c < results@.len() && results@[c].space_view_id == id;
                assert(results@[c].space_view_id != id);
            }
        }
        None
    }
}

impl<'a> ViewContext<'a> {
    /// The active recording.
    pub fn recording(&self) -> (r: &EntityDb)
        ensures
            *r == *self.viewer_ctx.recording,
    {
        self.viewer_ctx.recording
    }

    /// The store of the active recording.
    pub fn recording_store(&self) -> (r: &DataStore2)
        ensures
            r@ == self.viewer_ctx.recording@.store,
    {
        self.viewer_ctx.recording.store()
    }

    /// The active blueprint.
    pub fn blueprint_db(&self) -> (r: &EntityDb)
        ensures
            *r == *self.viewer_ctx.blueprint,
    {
        self.viewer_ctx.blueprint
    }

    /// The id of the active recording's store.
    pub fn recording_id(&self) -> (r: &StoreId)
        ensures
            r@ == self.viewer_ctx.recording@.store.id,
    {
        self.viewer_ctx.recording.store_id()
    }

    /// The current selection.
    pub fn selection(&self) -> (r: &ItemCollection)
        ensures
            *r == self.viewer_ctx.selection_state.selected,
    {
        &self.viewer_ctx.selection_state.selected
    }

    /// The currently hovered items.
    pub fn hovered(&self) -> (r: &ItemCollection)
        ensures
            *r == self.viewer_ctx.selection_state.hovered,
    {
        &self.viewer_ctx.selection_state.hovered
    }

    pub fn selection_state(&self) -> (r: &ApplicationSelectionState)
        ensures
            *r == *self.viewer_ctx.selection_state,
    {
        self.viewer_ctx.selection_state
    }

    /// The current time query, based on the viewer's time control.
    pub fn current_query(&self) -> (r: LatestAtQuery)
        ensures
            r@ == self.viewer_ctx.current_query@,
    {
        self.viewer_ctx.current_query.duplicate()
    }

    /// The data query result of the space view `id`; `None` if the view has none.
    pub fn lookup_query_result(&self, id: SpaceViewId) -> (r: Option<&DataQueryResult>)
        ensures
            r is None <==> first_result(self.viewer_ctx.query_results@, id) is None,
            r matches Some(q) ==> *q == self.viewer_ctx.query_results@[first_result(
                self.viewer_ctx.query_results@,
                id,
            ).unwrap()],
    {
        self.viewer_ctx.lookup_query_result(id)
    }
}

} // verus!
