use std::sync::Arc;

use chunk_store::chunk::{Chunk, ChunkTimeline, ColumnDatatype, ComponentColumn};
use chunk_store::entity_db::{EntityDb, SetStoreInfo, StoreInfo};
use chunk_store::log_msg::{ArrowMsg, BlueprintActivationCommand, LogMsg};
use chunk_store::names::ComponentName;
use chunk_store::types::{
    ChunkId, ComponentPath, EntityPath, ResolvedTimeRange, RowId, StoreId, StoreKind, TimeInt,
    TimePoint, Timeline,
};

fn frame() -> Timeline {
    Timeline::new_sequence("frame")
}

fn chunk(id: u128, path: &str, row_ids: &[u128], times: &[i64]) -> Chunk {
    let timeline = ChunkTimeline::new(None, frame(), times.to_vec()).unwrap();
    let cells = row_ids.iter().map(|&r| Some(vec![r as u8])).collect();
    Chunk::new(
        ChunkId(id),
        EntityPath::new(path),
        None,
        row_ids.iter().map(|&r| RowId(r)).collect(),
        vec![timeline],
        vec![(
            ComponentName::new("rerun.components.Color"),
            ComponentColumn::new(ColumnDatatype::List { is_nullable: true }, cells),
        )],
    )
    .unwrap()
}

fn rec_id() -> StoreId {
    StoreId::from_string(StoreKind::Recording, "rec".to_string())
}

fn info(id: StoreId) -> SetStoreInfo {
    SetStoreInfo {
        row_id: RowId(99),
        info: StoreInfo {
            application_id: "app".to_string(),
            store_id: id,
            cloned_from: None,
            is_official_example: false,
            started: 1234,
        },
    }
}

#[test]
fn new_database_is_empty() {
    let db = EntityDb::new(rec_id());
    assert!(db.is_empty());
    assert_eq!(db.num_rows(), 0);
    assert!(db.latest_row_id().is_none());
    assert!(db.store_info().is_none());
    assert!(db.app_id().is_none());
    assert!(db.sort_key().is_none());
    assert_eq!(db.store_kind(), StoreKind::Recording);
    assert!(db.store_id().same(&rec_id()));
    assert!(db.entity_paths().is_empty());
}

#[test]
fn store_info_sets_app_id_and_sort_key() {
    let mut db = EntityDb::new(rec_id());
    db.set_store_info(info(rec_id()));
    assert!(!db.is_empty());
    assert_eq!(db.app_id().unwrap(), "app");
    assert_eq!(db.sort_key(), Some(("app", 1234)));
    assert!(db.cloned_from().is_none());
    assert_eq!(db.store_info_msg().unwrap().row_id, RowId(99));
}

#[test]
fn logged_entities_are_exactly_those_with_data() {
    let mut db = EntityDb::new(rec_id());
    db.add_chunk(Arc::new(chunk(1, "world/points", &[1, 2], &[1, 2]))).unwrap();
    assert!(db.is_logged_entity(&EntityPath::new("world/points")));
    assert!(!db.is_logged_entity(&EntityPath::new("world")));
    let hash = EntityPath::new("world/points").hash();
    assert_eq!(db.entity_path_from_hash(&hash).unwrap().as_str(), "world/points");
    assert!(db.entity_path_from_hash(&EntityPath::new("world").hash()).is_none());
}

#[test]
fn latest_row_id_is_the_highest_seen() {
    let mut db = EntityDb::new(rec_id());
    db.add_chunk(Arc::new(chunk(1, "a", &[5, 9], &[1, 2]))).unwrap();
    assert_eq!(db.latest_row_id(), Some(RowId(9)));
    db.add_chunk(Arc::new(chunk(2, "a", &[3, 4], &[1, 2]))).unwrap();
    assert_eq!(db.latest_row_id(), Some(RowId(9)));
    db.add_chunk(Arc::new(chunk(3, "b", &[10, 11], &[1, 2]))).unwrap();
    assert_eq!(db.latest_row_id(), Some(RowId(11)));
    assert_eq!(db.generation().insert_id, 3);
}

#[test]
fn adding_a_chunk_twice_stores_it_once() {
    let mut db = EntityDb::new(rec_id());
    let c = Arc::new(chunk(1, "a", &[1], &[1]));
    assert!(db.add_chunk(c.clone()).unwrap().is_some());
    assert!(db.add_chunk(c).unwrap().is_none());
    assert_eq!(db.store().iter_chunks().len(), 1);
}

#[test]
fn entity_paths_come_sorted() {
    let mut db = EntityDb::new(rec_id());
    db.add_chunk(Arc::new(chunk(1, "world/points", &[1], &[1]))).unwrap();
    db.add_chunk(Arc::new(chunk(2, "a", &[2], &[1]))).unwrap();
    db.add_chunk(Arc::new(chunk(3, "world", &[3], &[1]))).unwrap();
    db.add_chunk(Arc::new(chunk(4, "world.x", &[4], &[1]))).unwrap();
    db.add_chunk(Arc::new(chunk(5, "a", &[5], &[1]))).unwrap();
    let paths: Vec<String> = db.entity_paths().iter().map(|p| p.as_str().to_string()).collect();
    assert_eq!(paths, vec!["a", "world", "world/points", "world.x"]);
}

#[test]
fn messages_are_applied() {
    let mut db = EntityDb::new(rec_id());
    db.add(&LogMsg::SetStoreInfo(info(rec_id()))).unwrap();
    assert_eq!(db.app_id().unwrap(), "app");
    let unsorted = Arc::new(chunk(1, "a", &[3, 1, 2], &[30, 10, 20]));
    let msg = ArrowMsg { table_id: 1, timepoint_max: unsorted.timepoint_max(), chunk: unsorted };
    db.add(&LogMsg::ArrowMsg(rec_id(), msg)).unwrap();
    let stored = db.store().iter_chunks();
    assert_eq!(stored.len(), 1);
    assert!(stored[0].is_sorted());
    let order: Vec<u128> = stored[0].row_ids().iter().map(|r| r.0).collect();
    assert_eq!(order, vec![1, 2, 3]);
    assert_eq!(stored[0].timelines()[0].times().to_vec(), vec![10, 20, 30]);
    db.add(&LogMsg::BlueprintActivationCommand(BlueprintActivationCommand::make_active(rec_id())))
        .unwrap();
    assert_eq!(db.store().iter_chunks().len(), 1);
    assert_eq!(db.latest_row_id(), Some(RowId(3)));
}

#[test]
fn messages_rebuild_the_database() {
    let bp = StoreId::from_string(StoreKind::Blueprint, "bp".to_string());
    let mut db = EntityDb::new(bp.duplicate());
    db.set_store_info(info(bp.duplicate()));
    db.add_chunk(Arc::new(chunk(1, "a", &[1, 2], &[1, 2]))).unwrap();
    db.add_chunk(Arc::new(chunk(2, "b", &[3], &[5]))).unwrap();
    let msgs = db.to_messages(None);
    assert_eq!(msgs.len(), 4);
    assert!(matches!(msgs[0], LogMsg::SetStoreInfo(_)));
    match &msgs[1] {
        LogMsg::ArrowMsg(id, m) => {
            assert!(id.same(&bp));
            assert_eq!(m.table_id, 1);
            assert_eq!(m.timepoint_max.entries[0].1.as_i64(), 2);
        }
        _ => panic!("expected a chunk message"),
    }
    match &msgs[3] {
        LogMsg::BlueprintActivationCommand(c) => {
            assert!(c.blueprint_id.same(&bp));
            assert!(c.make_active);
            assert!(!c.make_default);
        }
        _ => panic!("expected an activation command"),
    }
    let mut copy = EntityDb::new(bp.duplicate());
    for msg in &msgs {
        copy.add(msg).unwrap();
    }
    assert_eq!(copy.store().iter_chunks().len(), 2);
    assert_eq!(copy.latest_row_id(), db.latest_row_id());
    assert_eq!(copy.app_id().unwrap(), "app");
}

#[test]
fn recordings_end_without_activation_command() {
    let mut db = EntityDb::new(rec_id());
    db.add_chunk(Arc::new(chunk(1, "a", &[1], &[1]))).unwrap();
    let msgs = db.to_messages(None);
    assert_eq!(msgs.len(), 1);
    assert!(matches!(msgs[0], LogMsg::ArrowMsg(_, _)));
}

#[test]
fn a_clone_gets_a_new_id_and_the_same_chunks() {
    let mut db = EntityDb::new(rec_id());
    db.set_store_info(info(rec_id()));
    db.add_chunk(Arc::new(chunk(1, "a", &[1, 2], &[1, 2]))).unwrap();
    db.add_chunk(Arc::new(chunk(2, "b", &[7], &[5]))).unwrap();
    let new_id = StoreId::from_string(StoreKind::Recording, "copy".to_string());
    let copy = db.clone_with_new_id(new_id.duplicate(), RowId(1000)).unwrap();
    assert!(copy.store_id().same(&new_id));
    assert!(copy.cloned_from().unwrap().same(&rec_id()));
    assert!(copy.store_info().unwrap().store_id.same(&new_id));
    assert_eq!(copy.store_info_msg().unwrap().row_id, RowId(1000));
    assert_eq!(copy.latest_row_id(), Some(RowId(7)));
    assert_eq!(copy.store().iter_chunks().len(), 2);
    assert!(copy.is_logged_entity(&EntityPath::new("b")));
    let tp: TimePoint = copy.store().iter_chunks()[1].timepoint_max();
    assert_eq!(tp.entries.len(), 1);
}

#[test]
fn ancestors_of_logged_entities_are_known() {
    let mut db = EntityDb::new(rec_id());
    db.add_chunk(Arc::new(chunk(1, "world/points/left", &[1], &[1]))).unwrap();
    assert!(db.is_known_entity(&EntityPath::new("")));
    assert!(db.is_known_entity(&EntityPath::new("world")));
    assert!(db.is_known_entity(&EntityPath::new("world/points")));
    assert!(db.is_known_entity(&EntityPath::new("world/points/left")));
    assert!(!db.is_known_entity(&EntityPath::new("world/point")));
    assert!(!db.is_known_entity(&EntityPath::new("world/points/left/x")));
    assert!(!db.is_logged_entity(&EntityPath::new("world")));
}

#[test]
fn timelines_with_data() {
    let mut db = EntityDb::new(rec_id());
    assert!(!db.has_any_data_on_timeline(&frame()));
    assert!(db.timelines().is_empty());
    db.add_chunk(Arc::new(chunk(1, "a", &[1], &[1]))).unwrap();
    db.add_chunk(Arc::new(chunk(2, "b", &[2], &[1]))).unwrap();
    assert!(db.has_any_data_on_timeline(&frame()));
    assert!(!db.has_any_data_on_timeline(&Timeline::new_temporal("log_time")));
    let timelines = db.timelines();
    assert_eq!(timelines.len(), 1);
    assert_eq!(timelines[0].name(), "frame");
}

#[test]
fn static_components_are_told_apart() {
    let mut db = EntityDb::new(rec_id());
    db.add_chunk(Arc::new(chunk(1, "a", &[1], &[1]))).unwrap();
    let static_chunk = Chunk::new_static(
        ChunkId(2),
        EntityPath::new("b"),
        None,
        vec![RowId(2)],
        vec![(
            ComponentName::new("rerun.components.Color"),
            ComponentColumn::new(ColumnDatatype::List { is_nullable: true }, vec![Some(vec![1])]),
        )],
    )
    .unwrap();
    db.add_chunk(Arc::new(static_chunk)).unwrap();
    let color = |path: &str| ComponentPath {
        entity_path: EntityPath::new(path),
        component_name: ComponentName::new("rerun.components.Color"),
    };
    assert_eq!(db.is_component_static(&color("a")), Some(false));
    assert_eq!(db.is_component_static(&color("b")), Some(true));
    assert_eq!(db.is_component_static(&color("c")), None);
    let radius = ComponentPath {
        entity_path: EntityPath::new("a"),
        component_name: ComponentName::new("rerun.components.Radius"),
    };
    assert_eq!(db.is_component_static(&radius), None);
    assert_eq!(db.heap_size_bytes(), 0);
}

fn chunk_msg(c: Chunk) -> LogMsg {
    let c = Arc::new(c);
    let table_id = c.id().0;
    LogMsg::ArrowMsg(rec_id(), ArrowMsg { table_id, timepoint_max: c.timepoint_max(), chunk: c })
}

#[test]
fn chunk_messages_record_the_modification_instant() {
    let mut db = EntityDb::new(rec_id());
    let at = db.last_modified_at() + std::time::Duration::from_secs(5);
    db.add_at(&chunk_msg(chunk(1, "a", &[1], &[1])), at).unwrap();
    assert_eq!(db.last_modified_at(), at);
    let later = at + std::time::Duration::from_secs(1);
    db.add_at(&LogMsg::SetStoreInfo(info(rec_id())), later).unwrap();
    assert_eq!(db.last_modified_at(), at);
    let copy = db.clone_with_new_id(StoreId::from_string(StoreKind::Recording, "copy".to_string()), RowId(9)).unwrap();
    assert_eq!(copy.last_modified_at(), at);
    let before = std::time::Instant::now();
    db.add(&chunk_msg(chunk(2, "a", &[2], &[2]))).unwrap();
    assert!(db.last_modified_at() >= before);
    assert!(db.last_modified_at() < at);
}

#[test]
fn a_time_selection_exports_only_rows_in_range() {
    let mut db = EntityDb::new(rec_id());
    db.add_chunk(Arc::new(chunk(1, "a", &[1, 2], &[1, 2]))).unwrap();
    db.add_chunk(Arc::new(chunk(2, "a", &[3, 4], &[10, 20]))).unwrap();
    db.add_chunk(Arc::new(chunk(3, "b", &[5], &[30]))).unwrap();
    let range = ResolvedTimeRange::new(TimeInt(15), TimeInt(30));
    let msgs = db.to_messages(Some((frame(), range)));
    let ids: Vec<u128> = msgs
        .iter()
        .map(|m| match m {
            LogMsg::ArrowMsg(_, a) => a.table_id,
            _ => panic!("expected a chunk message"),
        })
        .collect();
    assert_eq!(ids, vec![2, 3]);
    match &msgs[0] {
        LogMsg::ArrowMsg(_, a) => {
            assert_eq!(a.chunk.row_ids(), &[RowId(4)]);
            assert_eq!(a.chunk.timelines()[0].times(), &[20]);
            assert_eq!(a.timepoint_max.entries[0].1, TimeInt(20));
            assert!(a.chunk.sanity_check().is_ok());
        }
        _ => panic!("expected a chunk message"),
    }
    let other = db.to_messages(Some((Timeline::new_sequence("other"), range)));
    assert!(other.is_empty());
    assert_eq!(db.to_messages(None).len(), 3);
}

#[test]
fn timelines_come_in_increasing_order() {
    let mut db = EntityDb::new(rec_id());
    let on = |id: u128, t: Timeline| {
        Chunk::new(
            ChunkId(id),
            EntityPath::new("a"),
            None,
            vec![RowId(id)],
            vec![ChunkTimeline::new(None, t, vec![1]).unwrap()],
            vec![(
                ComponentName::new("rerun.components.Color"),
                ComponentColumn::new(ColumnDatatype::List { is_nullable: true }, vec![Some(vec![1])]),
            )],
        )
        .unwrap()
    };
    db.add_chunk(Arc::new(on(1, Timeline::new_sequence("log_tick")))).unwrap();
    db.add_chunk(Arc::new(on(2, frame()))).unwrap();
    db.add_chunk(Arc::new(on(3, Timeline::new_temporal("frame")))).unwrap();
    db.add_chunk(Arc::new(on(4, frame()))).unwrap();
    let names: Vec<String> = db.timelines().iter().map(|t| format!("{}:{:?}", t.name(), t.typ)).collect();
    assert_eq!(names, vec!["frame:Time", "frame:Sequence", "log_tick:Sequence"]);
}

#[test]
fn a_time_selection_cuts_a_chunk_to_its_rows_in_range() {
    let mut db = EntityDb::new(rec_id());
    db.add_chunk(Arc::new(chunk(1, "a", &[1, 2], &[5, 50]))).unwrap();
    let msgs = db.to_messages(Some((frame(), ResolvedTimeRange::new(TimeInt(0), TimeInt(10)))));
    assert_eq!(msgs.len(), 1);
    match &msgs[0] {
        LogMsg::ArrowMsg(_, a) => {
            assert_eq!(a.chunk.id(), ChunkId(1));
            assert_eq!(a.chunk.row_ids(), &[RowId(1)]);
            assert_eq!(a.chunk.timelines()[0].times(), &[5]);
            assert_eq!(a.chunk.timelines()[0].time_range().max(), TimeInt(5));
            assert_eq!(a.chunk.components()[0].1.len(), 1);
        }
        _ => panic!("expected a chunk message"),
    }
    let whole = db.to_messages(None);
    match &whole[0] {
        LogMsg::ArrowMsg(_, a) => assert_eq!(a.chunk.timelines()[0].times(), &[5, 50]),
        _ => panic!("expected a chunk message"),
    }
}
