use chunk_store::entity_db::EntityDb;
use chunk_store::query::LatestAtQuery;
use chunk_store::types::{EntityPath, StoreId, StoreKind, TimeInt, Timeline};
use chunk_store::view_context::{
    ApplicationSelectionState, DataQueryResult, Item, ItemCollection, SpaceViewId, ViewContext,
    ViewerContext,
};

#[test]
fn a_view_sees_the_viewer_state() {
    let recording = EntityDb::new(StoreId::from_string(StoreKind::Recording, "rec".to_string()));
    let blueprint = EntityDb::new(StoreId::from_string(StoreKind::Blueprint, "bp".to_string()));
    let selection_state = ApplicationSelectionState {
        selected: ItemCollection { items: vec![Item::InstancePath(EntityPath::new("a"))] },
        hovered: ItemCollection { items: vec![] },
    };
    let query_results = vec![
        DataQueryResult { space_view_id: SpaceViewId(1), entities: vec![EntityPath::new("a")] },
        DataQueryResult { space_view_id: SpaceViewId(2), entities: vec![] },
        DataQueryResult { space_view_id: SpaceViewId(1), entities: vec![] },
    ];
    let current_query = LatestAtQuery::new(Timeline::new_sequence("frame"), 42);
    let viewer_ctx = ViewerContext {
        recording: &recording,
        blueprint: &blueprint,
        selection_state: &selection_state,
        query_results: &query_results,
        current_query: &current_query,
    };
    let ctx = ViewContext { viewer_ctx: &viewer_ctx, view_id: SpaceViewId(1) };
    assert_eq!(ctx.recording().store_kind(), StoreKind::Recording);
    assert_eq!(ctx.blueprint_db().store_kind(), StoreKind::Blueprint);
    assert!(ctx.recording_id().same(&StoreId::from_string(StoreKind::Recording, "rec".to_string())));
    assert!(ctx.recording_store().iter_chunks().is_empty());
    assert_eq!(ctx.selection().items.len(), 1);
    assert!(ctx.hovered().items.is_empty());
    assert_eq!(ctx.selection_state().selected.items.len(), 1);
    assert_eq!(ctx.lookup_query_result(SpaceViewId(1)).unwrap().entities.len(), 1);
    assert_eq!(ctx.lookup_query_result(SpaceViewId(2)).unwrap().entities.len(), 0);
    assert!(ctx.lookup_query_result(SpaceViewId(3)).is_none());
    assert_eq!(ctx.current_query().at(), TimeInt(42));
    assert_eq!(ctx.current_query().timeline().name(), "frame");
}
