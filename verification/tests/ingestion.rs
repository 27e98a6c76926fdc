use std::sync::Arc;

use chunk_store::chunk::{Chunk, ChunkTimeline, ColumnDatatype, ComponentColumn};
use chunk_store::events::StoreDiff2;
use chunk_store::ingestion::{ingested_row_ids, latency_nanos};
use chunk_store::names::ComponentName;
use chunk_store::store::StoreGeneration2;
use chunk_store::events::StoreEvent2;
use chunk_store::types::{ChunkId, EntityPath, RowId, StoreId, StoreKind, Timeline};

fn chunk(id: u128, row_ids: &[u128]) -> Arc<Chunk> {
    let times: Vec<i64> = (0..row_ids.len() as i64).collect();
    let timeline = ChunkTimeline::new(None, Timeline::new_sequence("frame"), times).unwrap();
    let cells = row_ids.iter().map(|_| None).collect();
    Arc::new(
        Chunk::new(
            ChunkId(id),
            EntityPath::new("a"),
            None,
            row_ids.iter().map(|&r| RowId(r)).collect(),
            vec![timeline],
            vec![(
                ComponentName::new("c"),
                ComponentColumn::new(ColumnDatatype::List { is_nullable: true }, cells),
            )],
        )
        .unwrap(),
    )
}

fn event(store: &str, chunk: Arc<Chunk>) -> StoreEvent2 {
    StoreEvent2 {
        store_id: StoreId::from_string(StoreKind::Recording, store.to_string()),
        store_generation: StoreGeneration2 { insert_id: 1, gc_id: 0 },
        event_id: 0,
        diff: StoreDiff2::addition(chunk),
    }
}

#[test]
fn only_rows_of_the_own_store_are_measured() {
    let events = vec![event("rec", chunk(1, &[1, 2])), event("other", chunk(2, &[3])), event("rec", chunk(3, &[4]))];
    let own = StoreId::from_string(StoreKind::Recording, "rec".to_string());
    let rows: Vec<u128> = ingested_row_ids(&own, &events).iter().map(|r| r.0).collect();
    assert_eq!(rows, vec![1, 2, 4]);
}

#[test]
fn latency_is_measured_from_the_row_clock() {
    let row_id = RowId((1_000u128 << 64) | 7);
    assert_eq!(latency_nanos(1_500, row_id), Some(500));
    assert_eq!(latency_nanos(1_000, row_id), Some(0));
    assert_eq!(latency_nanos(999, row_id), None);
}

#[test]
fn timeline_heap_size_is_eight_bytes_per_time() {
    let timeline = ChunkTimeline::new(None, Timeline::new_sequence("frame"), vec![1, 2, 3]).unwrap();
    assert_eq!(timeline.heap_size_bytes(), 24);
}
