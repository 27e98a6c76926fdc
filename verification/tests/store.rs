use std::sync::Arc;

use chunk_store::chunk::{Chunk, ChunkTimeline, ColumnDatatype, ComponentColumn};
use chunk_store::events::{StoreDiff2, StoreDiffKind2};
use chunk_store::names::ComponentName;
use chunk_store::query::{LatestAtQuery, RangeQuery};
use chunk_store::stats::{mean_via_f64, DataStoreChunkStats2, DataStoreStats2};
use chunk_store::store::{DataStore2, DataStoreConfig2, GcTarget, WriteError};
use chunk_store::types::{
    ChunkId, EntityPath, ResolvedTimeRange, RowId, StoreId, StoreKind, TimeInt, Timeline,
};

fn list() -> ColumnDatatype {
    ColumnDatatype::List { is_nullable: true }
}

fn frame() -> Timeline {
    Timeline::new_sequence("frame")
}

fn color() -> ComponentName {
    ComponentName::new("rerun.components.Color")
}

fn radius() -> ComponentName {
    ComponentName::new("rerun.components.Radius")
}

fn temporal(id: u128, path: &str, row_ids: &[u128], times: &[i64], component: ComponentName) -> Arc<Chunk> {
    let timeline = ChunkTimeline::new(None, frame(), times.to_vec()).unwrap();
    let cells = row_ids.iter().map(|&r| Some(vec![r as u8])).collect();
    Arc::new(
        Chunk::new(
            ChunkId(id),
            EntityPath::new(path),
            None,
            row_ids.iter().map(|&r| RowId(r)).collect(),
            vec![timeline],
            vec![(component, ComponentColumn::new(list(), cells))],
        )
        .unwrap(),
    )
}

fn static_chunk(id: u128, path: &str, row_id: u128, component: ComponentName) -> Arc<Chunk> {
    Arc::new(
        Chunk::new_static(
            ChunkId(id),
            EntityPath::new(path),
            None,
            vec![RowId(row_id)],
            vec![(component, ComponentColumn::new(list(), vec![Some(vec![row_id as u8])]))],
        )
        .unwrap(),
    )
}

fn new_store() -> DataStore2 {
    DataStore2::new(
        StoreId::from_string(StoreKind::Recording, "rec".to_string()),
        DataStoreConfig2::default_config(),
    )
}

fn ids(chunks: &[Arc<Chunk>]) -> Vec<u128> {
    chunks.iter().map(|c| c.id().0).collect()
}

#[test]
fn diff_kind_delta() {
    assert_eq!(StoreDiffKind2::Addition.delta(), 1);
    assert_eq!(StoreDiffKind2::Deletion.delta(), -1);
    let chunk = temporal(1, "a", &[1], &[1], color());
    assert_eq!(StoreDiff2::addition(chunk.clone()).delta(), 1);
    assert_eq!(StoreDiff2::deletion(chunk.clone()).delta(), -1);
    assert!(!StoreDiff2::addition(chunk.clone()).is_static());
    assert_eq!(StoreDiff2::addition(chunk).num_components(), 1);
}

#[test]
fn inserting_yields_an_addition_event() {
    let mut store = new_store();
    let chunk = temporal(1, "a", &[1, 2], &[10, 20], color());
    let event = store.insert_chunk(&chunk).unwrap().unwrap();
    assert_eq!(event.diff.kind, StoreDiffKind2::Addition);
    assert_eq!(event.diff.chunk.id(), ChunkId(1));
    assert_eq!(event.event_id, 0);
    assert_eq!(event.store_generation.insert_id, 1);
    assert_eq!(store.generation().insert_id, 1);
    assert_eq!(store.generation().gc_id, 0);
}

#[test]
fn reinserting_a_chunk_has_no_effect() {
    let mut store = new_store();
    let chunk = temporal(1, "a", &[1, 2], &[10, 20], color());
    store.insert_chunk(&chunk).unwrap();
    let again = store.insert_chunk(&chunk);
    assert!(matches!(again, Ok(None)));
    assert_eq!(store.iter_chunks().len(), 1);
    assert_eq!(store.generation().insert_id, 1);
}

#[test]
fn unsorted_chunks_are_refused() {
    let mut store = new_store();
    let chunk = temporal(1, "a", &[2, 1], &[10, 20], color());
    assert!(matches!(store.insert_chunk(&chunk), Err(WriteError::UnsortedChunk)));
    assert!(store.iter_chunks().is_empty());
    assert!(store.chunk(ChunkId(1)).is_none());
}

#[test]
fn chunks_come_in_row_id_order() {
    let mut store = new_store();
    store.insert_chunk(&temporal(5, "a", &[30, 40], &[1, 2], color())).unwrap();
    store.insert_chunk(&temporal(6, "a", &[10, 20], &[3, 4], color())).unwrap();
    store.insert_chunk(&temporal(4, "b", &[10, 50], &[3, 4], color())).unwrap();
    assert_eq!(ids(&store.iter_chunks()), vec![4, 6, 5]);
    assert_eq!(store.chunk(ChunkId(6)).unwrap().num_rows(), 2);
}

#[test]
fn latest_at_returns_the_chunks_with_the_latest_start() {
    let mut store = new_store();
    store.insert_chunk(&temporal(1, "a", &[1, 2], &[10, 20], color())).unwrap();
    store.insert_chunk(&temporal(2, "a", &[3, 4], &[30, 40], color())).unwrap();
    store.insert_chunk(&temporal(3, "a", &[5], &[30], color())).unwrap();
    let path = EntityPath::new("a");
    assert_eq!(ids(&store.latest_at(&LatestAtQuery::new(frame(), 25), &path, color())), vec![1]);
    assert_eq!(ids(&store.latest_at(&LatestAtQuery::new(frame(), 35), &path, color())), vec![2, 3]);
    assert!(store.latest_at(&LatestAtQuery::new(frame(), 5), &path, color()).is_empty());
    assert!(store.latest_at(&LatestAtQuery::new(frame(), 35), &path, radius()).is_empty());
}

#[test]
fn static_data_wins_over_temporal_data() {
    let mut store = new_store();
    store.insert_chunk(&temporal(1, "a", &[1], &[10], color())).unwrap();
    store.insert_chunk(&static_chunk(2, "a", 2, color())).unwrap();
    let path = EntityPath::new("a");
    assert_eq!(ids(&store.latest_at(&LatestAtQuery::new(frame(), 100), &path, color())), vec![2]);
    assert_eq!(ids(&store.latest_at(&LatestAtQuery::new(frame(), 0), &path, color())), vec![2]);
    let range = RangeQuery::new(frame(), ResolvedTimeRange::new(TimeInt(0), TimeInt(100)));
    assert_eq!(ids(&store.range(&range, &path, color())), vec![2]);
}

#[test]
fn a_newer_static_chunk_replaces_the_older() {
    let mut store = new_store();
    store.insert_chunk(&static_chunk(1, "a", 1, color())).unwrap();
    store.insert_chunk(&static_chunk(2, "a", 2, color())).unwrap();
    let path = EntityPath::new("a");
    assert_eq!(ids(&store.latest_at(&LatestAtQuery::latest(frame()), &path, color())), vec![2]);
}

#[test]
fn range_returns_chunks_with_data_in_range() {
    let mut store = new_store();
    store.insert_chunk(&temporal(1, "a", &[1, 2], &[10, 20], color())).unwrap();
    store.insert_chunk(&temporal(2, "a", &[3, 4], &[30, 40], color())).unwrap();
    store.insert_chunk(&temporal(3, "a", &[5], &[50], color())).unwrap();
    let path = EntityPath::new("a");
    // chunk 1 starts before the range but holds the time 20 inside it
    let range = RangeQuery::new(frame(), ResolvedTimeRange::new(TimeInt(15), TimeInt(45)));
    assert_eq!(ids(&store.range(&range, &path, color())), vec![1, 2]);
    let all = RangeQuery::everything(frame());
    assert_eq!(ids(&store.range(&all, &path, color())), vec![1, 2, 3]);
}

#[test]
fn entity_queries() {
    let mut store = new_store();
    store.insert_chunk(&temporal(1, "a", &[1], &[30], color())).unwrap();
    store.insert_chunk(&temporal(2, "a", &[2], &[10], radius())).unwrap();
    store.insert_chunk(&static_chunk(3, "b", 3, radius())).unwrap();
    let a = EntityPath::new("a");
    let b = EntityPath::new("b");
    assert_eq!(store.entity_min_time(&frame(), &a), Some(TimeInt(10)));
    assert_eq!(store.entity_min_time(&frame(), &b), None);
    assert!(store.entity_has_component(&frame(), &a, &color()));
    assert!(store.entity_has_component(&frame(), &b, &radius()));
    assert!(!store.entity_has_component(&frame(), &b, &color()));
    let mut names: Vec<String> = store
        .all_components(&frame(), &a)
        .unwrap()
        .iter()
        .map(|n| n.full_name().to_string())
        .collect();
    names.sort();
    assert_eq!(names, vec!["rerun.components.Color", "rerun.components.Radius"]);
    assert_eq!(store.all_components(&frame(), &b).unwrap().len(), 1);
    assert!(store.all_components(&frame(), &EntityPath::new("c")).is_none());
    assert!(store.row_metadata(&RowId(1)).is_none());
}

#[test]
fn protected_chunks_are_the_latest_per_component() {
    let mut store = new_store();
    store.insert_chunk(&temporal(1, "a", &[1], &[10], color())).unwrap();
    store.insert_chunk(&temporal(2, "a", &[2], &[20], color())).unwrap();
    store.insert_chunk(&temporal(3, "a", &[3], &[5], radius())).unwrap();
    let mut protected: Vec<u128> = store.find_all_protected_rows(1, &[]).iter().map(|c| c.0).collect();
    protected.sort();
    assert_eq!(protected, vec![2, 3]);
    let without_radius: Vec<u128> =
        store.find_all_protected_rows(1, &[radius()]).iter().map(|c| c.0).collect();
    assert_eq!(without_radius, vec![2]);
    assert!(store.find_all_protected_rows(0, &[]).is_empty());
}

#[test]
fn chunk_stats_add_up() {
    let mut store = new_store();
    store.insert_chunk(&temporal(1, "a", &[1, 2], &[10, 20], color())).unwrap();
    store.insert_chunk(&temporal(2, "a", &[3, 4, 5, 6], &[30, 40, 50, 60], color())).unwrap();
    store.insert_chunk(&static_chunk(3, "b", 7, radius())).unwrap();
    let stats: DataStoreStats2 = store.stats();
    let t = stats.temporal_chunks;
    assert_eq!(t.num_chunks, 2);
    assert_eq!(t.total_num_rows, 6);
    assert_eq!(t.max_num_rows, 4);
    assert_eq!(t.min_num_rows, 0);
    // means fold from zero: ((0 + 2) / 2 + 4) / 2 = 2
    assert_eq!(t.avg_num_rows, 2);
    assert_eq!(t.total_num_timelines, 2);
    assert_eq!(t.total_size_bytes, 2 * 16 + 2 * 8 + 2 + 4 * 16 + 4 * 8 + 4);
    let s = stats.static_chunks;
    assert_eq!(s.num_chunks, 1);
    assert_eq!(s.total_num_rows, 1);
    assert_eq!(s.total_num_timelines, 0);
    assert_eq!(s.total_size_bytes, 16 + 1);
}

#[test]
fn stats_of_one_chunk_and_their_sum() {
    let chunk = temporal(1, "a", &[1, 2, 3], &[1, 2, 3], color());
    let one = DataStoreChunkStats2::from_chunk(&chunk);
    assert_eq!(one.num_chunks, 1);
    assert_eq!(one.total_num_rows, 3);
    assert_eq!(one.min_num_rows, 3);
    assert_eq!(one.avg_num_components, 1);
    let two = one.add(one);
    assert_eq!(two.num_chunks, 2);
    assert_eq!(two.total_num_rows, 6);
    assert_eq!(two.avg_num_rows, 3);
    assert_eq!(two.min_num_rows, 3);
    let zero = DataStoreChunkStats2::default();
    assert_eq!(zero.add(one).min_num_rows, 0);
    assert_eq!(zero.add(one).avg_num_rows, 1);
}

#[test]
fn mean_rounds_like_a_double() {
    assert_eq!(mean_via_f64(3, 4), 3);
    assert_eq!(mean_via_f64(0, 0), 0);
    let big: u64 = (1 << 53) + 1;
    assert_eq!(mean_via_f64(big, 0), ((big as f64) / 2.0) as u64);
    let odd: u64 = (1 << 60) + 3;
    assert_eq!(mean_via_f64(odd, 5), (((odd + 5) as f64) / 2.0) as u64);
    assert_eq!(mean_via_f64(u64::MAX, 0), ((u64::MAX as f64) / 2.0) as u64);
    assert_eq!(mean_via_f64(u64::MAX - 1024, 0), (((u64::MAX - 1024) as f64) / 2.0) as u64);
}

#[test]
fn range_queries_never_include_the_static_time() {
    let q = RangeQuery::new(frame(), ResolvedTimeRange::new(TimeInt::static_time(), TimeInt(5)));
    assert_eq!(q.range().min().as_i64(), i64::MIN + 1);
    assert_eq!(q.range().max().as_i64(), 5);
    assert_eq!(q.timeline().name(), "frame");
    let latest = LatestAtQuery::new(frame(), i64::MIN);
    assert_eq!(latest.at().as_i64(), i64::MIN + 1);
}

#[test]
fn latest_chunks_at_the_end_of_time_are_protected() {
    let mut store = new_store();
    store.insert_chunk(&temporal(1, "a", &[1], &[10], color())).unwrap();
    store.insert_chunk(&temporal(2, "a", &[2], &[20], color())).unwrap();
    store.insert_chunk(&temporal(3, "a", &[3], &[20], color())).unwrap();
    let protected: Vec<u128> = store.find_all_protected_rows(1, &[]).iter().map(|c| c.0).collect();
    let latest = ids(&store.latest_at(&LatestAtQuery::latest(frame()), &EntityPath::new("a"), color()));
    assert_eq!(latest, vec![2, 3]);
    for id in latest {
        assert!(protected.contains(&id));
    }
    assert!(!protected.contains(&1));
}

#[test]
fn range_includes_the_latest_data_before_its_start() {
    let mut store = new_store();
    store.insert_chunk(&temporal(1, "a", &[1], &[5], color())).unwrap();
    store.insert_chunk(&temporal(2, "a", &[2], &[10], color())).unwrap();
    store.insert_chunk(&temporal(3, "a", &[3], &[35], color())).unwrap();
    store.insert_chunk(&temporal(4, "a", &[4], &[60], color())).unwrap();
    store.insert_chunk(&temporal(5, "a", &[5], &[30], radius())).unwrap();
    let path = EntityPath::new("a");
    let range = RangeQuery::new(frame(), ResolvedTimeRange::new(TimeInt(30), TimeInt(40)));
    assert_eq!(ids(&store.range(&range, &path, color())), vec![2, 3]);
    let empty = RangeQuery::new(frame(), ResolvedTimeRange::new(TimeInt(11), TimeInt(20)));
    assert_eq!(ids(&store.range(&empty, &path, color())), vec![2]);
    let first = RangeQuery::new(frame(), ResolvedTimeRange::new(TimeInt(0), TimeInt(4)));
    assert!(store.range(&first, &path, color()).is_empty());
    assert_eq!(ids(&store.range(&range, &path, radius())), vec![5]);
}

#[test]
fn entity_min_time_at_the_end_of_time() {
    let mut store = new_store();
    store.insert_chunk(&temporal(1, "a", &[1], &[i64::MAX], color())).unwrap();
    let a = EntityPath::new("a");
    assert_eq!(store.entity_min_time(&frame(), &a), Some(TimeInt(i64::MAX)));
    assert_eq!(store.entity_min_time(&Timeline::new_sequence("other"), &a), None);
}

#[test]
fn all_components_is_none_without_data_on_the_timeline() {
    let mut store = new_store();
    store.insert_chunk(&temporal(1, "a", &[1], &[10], color())).unwrap();
    let a = EntityPath::new("a");
    assert!(store.all_components(&Timeline::new_sequence("other"), &a).is_none());
    assert_eq!(store.all_components(&frame(), &a).unwrap().len(), 1);
    store.insert_chunk(&static_chunk(2, "a", 2, radius())).unwrap();
    assert_eq!(store.all_components(&Timeline::new_sequence("other"), &a).unwrap().len(), 1);
}

#[test]
fn protecting_two_keeps_the_two_latest() {
    let mut store = new_store();
    store.insert_chunk(&temporal(1, "a", &[1], &[10], color())).unwrap();
    store.insert_chunk(&temporal(2, "a", &[2], &[20], color())).unwrap();
    store.insert_chunk(&temporal(3, "a", &[3], &[30], color())).unwrap();
    let mut protected: Vec<u128> = store.find_all_protected_rows(2, &[]).iter().map(|c| c.0).collect();
    protected.sort();
    assert_eq!(protected, vec![2, 3]);
    let mut all: Vec<u128> = store.find_all_protected_rows(5, &[]).iter().map(|c| c.0).collect();
    all.sort();
    assert_eq!(all, vec![1, 2, 3]);
}

#[test]
fn gc_everything_keeps_static_and_protected_chunks() {
    let mut store = new_store();
    store.insert_chunk(&temporal(1, "a", &[1], &[10], color())).unwrap();
    store.insert_chunk(&temporal(2, "a", &[2], &[20], color())).unwrap();
    store.insert_chunk(&temporal(3, "a", &[3], &[30], color())).unwrap();
    store.insert_chunk(&static_chunk(4, "b", 4, radius())).unwrap();
    let next_event = store.insert_chunk(&temporal(5, "c", &[5], &[1], radius())).unwrap().unwrap().event_id + 1;
    let (events, diff) = store.gc(GcTarget::Everything, 1, &[]);
    // chunk 3 is the latest color of "a", chunk 5 the latest radius of "c"
    let dropped: Vec<u128> = events.iter().map(|e| e.diff.chunk.id().0).collect();
    assert_eq!(dropped, vec![1, 2]);
    for (i, e) in events.iter().enumerate() {
        assert_eq!(e.diff.kind, StoreDiffKind2::Deletion);
        assert_eq!(e.event_id, next_event + i as u64);
        assert_eq!(e.store_generation.gc_id, 1);
    }
    assert_eq!(ids(&store.iter_chunks()), vec![3, 4, 5]);
    assert_eq!(store.generation().gc_id, 1);
    assert_eq!(diff.temporal_chunks.num_chunks, 2);
    assert_eq!(diff.temporal_chunks.total_num_rows, 2);
    assert_eq!(diff.temporal_chunks.total_size_bytes, 2 * (16 + 8 + 1));
    assert_eq!(diff.static_chunks.num_chunks, 0);
    let path = EntityPath::new("a");
    assert_eq!(ids(&store.latest_at(&LatestAtQuery::latest(frame()), &path, color())), vec![3]);
    assert!(store.latest_at(&LatestAtQuery::new(frame(), 25), &path, color()).is_empty());
}

#[test]
fn gc_with_nothing_protected_drops_all_temporal_chunks() {
    let mut store = new_store();
    store.insert_chunk(&temporal(1, "a", &[1], &[10], color())).unwrap();
    store.insert_chunk(&static_chunk(2, "a", 2, radius())).unwrap();
    let (events, _) = store.gc(GcTarget::Everything, 0, &[]);
    assert_eq!(events.len(), 1);
    assert_eq!(ids(&store.iter_chunks()), vec![2]);
    let path = EntityPath::new("a");
    assert!(store.latest_at(&LatestAtQuery::latest(frame()), &path, color()).is_empty());
    assert_eq!(ids(&store.latest_at(&LatestAtQuery::latest(frame()), &path, radius())), vec![2]);
}

#[test]
fn gc_drops_in_row_id_order_until_enough_bytes_are_gone() {
    let mut store = new_store();
    store.insert_chunk(&temporal(1, "a", &[30], &[10], color())).unwrap();
    store.insert_chunk(&temporal(2, "a", &[10], &[20], color())).unwrap();
    store.insert_chunk(&temporal(3, "a", &[20], &[30], color())).unwrap();
    // each chunk weighs 16 + 8 + 1 bytes
    let (events, diff) = store.gc(GcTarget::DropAtLeastBytes(26), 0, &[]);
    let dropped: Vec<u128> = events.iter().map(|e| e.diff.chunk.id().0).collect();
    assert_eq!(dropped, vec![2, 3]);
    assert_eq!(diff.temporal_chunks.total_size_bytes, 50);
    assert_eq!(ids(&store.iter_chunks()), vec![1]);
    let (none, _) = store.gc(GcTarget::DropAtLeastBytes(0), 0, &[]);
    assert!(none.is_empty());
    assert_eq!(store.generation().gc_id, 2);
}

#[test]
fn gc_leaves_the_dont_protect_components_unprotected() {
    let mut store = new_store();
    store.insert_chunk(&temporal(1, "a", &[1], &[10], color())).unwrap();
    store.insert_chunk(&temporal(2, "a", &[2], &[10], radius())).unwrap();
    let (events, _) = store.gc(GcTarget::Everything, 1, &[radius()]);
    let dropped: Vec<u128> = events.iter().map(|e| e.diff.chunk.id().0).collect();
    assert_eq!(dropped, vec![2]);
    assert_eq!(ids(&store.iter_chunks()), vec![1]);
}

#[test]
fn gc_keeps_the_latest_at_answer_at_the_end_of_time() {
    let mut store = new_store();
    store.insert_chunk(&temporal(1, "a", &[1], &[10], color())).unwrap();
    store.insert_chunk(&temporal(2, "a", &[2], &[40], color())).unwrap();
    store.insert_chunk(&temporal(3, "a", &[3], &[40], color())).unwrap();
    store.insert_chunk(&temporal(4, "a", &[4], &[5], radius())).unwrap();
    store.insert_chunk(&static_chunk(5, "b", 5, color())).unwrap();
    let a = EntityPath::new("a");
    let b = EntityPath::new("b");
    let end = LatestAtQuery::latest(frame());
    let before_color = ids(&store.latest_at(&end, &a, color()));
    let before_radius = ids(&store.latest_at(&end, &a, radius()));
    let before_static = ids(&store.latest_at(&end, &b, color()));
    assert_eq!(before_color, vec![2, 3]);
    let (events, _) = store.gc(GcTarget::DropAtLeastBytes(u64::MAX), 1, &[]);
    assert_eq!(events.len(), 1);
    assert_eq!(ids(&store.latest_at(&end, &a, color())), before_color);
    assert_eq!(ids(&store.latest_at(&end, &a, radius())), before_radius);
    assert_eq!(ids(&store.latest_at(&end, &b, color())), before_static);
}

#[test]
fn storing_counts_one_more_chunk_of_its_kind() {
    let mut store = new_store();
    store.insert_chunk(&temporal(1, "a", &[1, 2], &[10, 20], color())).unwrap();
    let before = store.stats();
    store.insert_chunk(&temporal(2, "a", &[3], &[30], color())).unwrap();
    let after = store.stats();
    assert_eq!(after.temporal_chunks.num_chunks, before.temporal_chunks.num_chunks + 1);
    assert_eq!(after.temporal_chunks.total_num_rows, before.temporal_chunks.total_num_rows + 1);
    assert_eq!(after.static_chunks.num_chunks, before.static_chunks.num_chunks);
    store.insert_chunk(&static_chunk(3, "b", 4, radius())).unwrap();
    let last = store.stats();
    assert_eq!(last.static_chunks.num_chunks, 1);
    assert_eq!(last.temporal_chunks.num_chunks, after.temporal_chunks.num_chunks);
}

#[test]
fn all_components_come_in_increasing_order() {
    let mut store = new_store();
    store.insert_chunk(&temporal(1, "a", &[1], &[10], radius())).unwrap();
    store.insert_chunk(&temporal(2, "a", &[2], &[10], color())).unwrap();
    store.insert_chunk(&temporal(3, "a", &[3], &[20], radius())).unwrap();
    let names: Vec<String> = store
        .all_components(&frame(), &EntityPath::new("a"))
        .unwrap()
        .iter()
        .map(|n| n.full_name().to_string())
        .collect();
    assert_eq!(names, vec!["rerun.components.Color", "rerun.components.Radius"]);
}

#[test]
fn gc_everything_unprotected_leaves_only_static_chunks() {
    let mut store = new_store();
    store.insert_chunk(&temporal(1, "a", &[1], &[10], color())).unwrap();
    store.insert_chunk(&static_chunk(2, "a", 2, radius())).unwrap();
    store.insert_chunk(&temporal(3, "b", &[3], &[5], radius())).unwrap();
    let (events, _) = store.gc(GcTarget::Everything, 0, &[]);
    let mut dropped: Vec<u128> = events.iter().map(|e| e.diff.chunk.id().0).collect();
    dropped.sort();
    assert_eq!(dropped, vec![1, 3]);
    assert_eq!(ids(&store.iter_chunks()), vec![2]);
    let stats = store.stats();
    assert_eq!(stats.temporal_chunks.num_chunks, 0);
    assert_eq!(stats.temporal_chunks.total_size_bytes, 0);
    assert_eq!(stats.static_chunks.num_chunks, 1);
}

#[test]
fn latest_at_is_empty_only_without_data_at_or_before() {
    let mut store = new_store();
    store.insert_chunk(&temporal(1, "a", &[1, 2], &[20, 5], color())).unwrap();
    let a = EntityPath::new("a");
    // the chunk starts at 5 on the timeline, though its first row is at 20
    assert_eq!(ids(&store.latest_at(&LatestAtQuery::new(frame(), 6), &a, color())), vec![1]);
    assert!(store.latest_at(&LatestAtQuery::new(frame(), 4), &a, color()).is_empty());
}

#[test]
fn range_answers_in_start_time_order() {
    let mut store = new_store();
    store.insert_chunk(&temporal(7, "a", &[1], &[50], color())).unwrap();
    store.insert_chunk(&temporal(5, "a", &[2], &[10], color())).unwrap();
    store.insert_chunk(&temporal(6, "a", &[3], &[10], color())).unwrap();
    assert_eq!(ids(&store.iter_chunks()), vec![7, 5, 6]);
    let all = RangeQuery::everything(frame());
    assert_eq!(ids(&store.range(&all, &EntityPath::new("a"), color())), vec![5, 6, 7]);
}
