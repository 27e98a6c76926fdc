use chunk_store::chunk::{
    Chunk, ChunkError, ChunkTimeline, ColumnDatatype, ComponentColumn, MalformedReason,
};
use chunk_store::names::{name_less, str_less, ComponentName};
use chunk_store::query::LatestAtQuery;
use chunk_store::types::{ChunkId, EntityPath, RowId, TimeInt, TimePoint, TimeType, Timeline};

fn list() -> ColumnDatatype {
    ColumnDatatype::List { is_nullable: true }
}

fn cells(values: &[Option<u8>]) -> Vec<Option<Vec<u8>>> {
    values.iter().map(|v| v.map(|b| vec![b])).collect()
}

fn rows(ids: &[u128]) -> Vec<RowId> {
    ids.iter().map(|&i| RowId(i)).collect()
}

fn frame() -> Timeline {
    Timeline::new_sequence("frame")
}

fn chunk_on_frame(id: u128, path: &str, row_ids: &[u128], times: &[i64], values: &[Option<u8>]) -> Chunk {
    let timeline = ChunkTimeline::new(None, frame(), times.to_vec()).unwrap();
    Chunk::new(
        ChunkId(id),
        EntityPath::new(path),
        None,
        rows(row_ids),
        vec![timeline],
        vec![(ComponentName::new("rerun.components.Color"), ComponentColumn::new(list(), cells(values)))],
    )
    .unwrap()
}

#[test]
fn empty_timeline_is_refused() {
    assert!(ChunkTimeline::new(None, frame(), vec![]).is_none());
}

#[test]
fn timeline_range_of_sorted_and_unsorted_times() {
    let sorted = ChunkTimeline::new(None, frame(), vec![1, 2, 5]).unwrap();
    assert!(sorted.is_sorted());
    assert_eq!(sorted.time_range().min().as_i64(), 1);
    assert_eq!(sorted.time_range().max().as_i64(), 5);
    let unsorted = ChunkTimeline::new(None, frame(), vec![4, -3, 9, 0]).unwrap();
    assert!(!unsorted.is_sorted());
    assert_eq!(unsorted.time_range().min().as_i64(), -3);
    assert_eq!(unsorted.time_range().max().as_i64(), 9);
    assert_eq!(unsorted.time_at(2), Some(TimeInt(9)));
    assert_eq!(unsorted.time_at(4), None);
    assert_eq!(sorted.sanity_check(), Ok(()));
}

#[test]
fn chunk_without_rows_is_empty() {
    let r = Chunk::new(ChunkId(1), EntityPath::new("a"), None, vec![], vec![], vec![]);
    assert!(matches!(r, Err(ChunkError::Empty)));
}

#[test]
fn chunk_without_components_is_empty() {
    let timeline = ChunkTimeline::new(None, frame(), vec![1]).unwrap();
    let r = Chunk::new(ChunkId(1), EntityPath::new("a"), None, rows(&[1]), vec![timeline], vec![]);
    assert!(matches!(r, Err(ChunkError::Empty)));
}

#[test]
fn timeline_of_wrong_length_is_malformed() {
    let timeline = ChunkTimeline::new(None, frame(), vec![1, 2]).unwrap();
    let r = Chunk::new(
        ChunkId(1),
        EntityPath::new("a"),
        None,
        rows(&[1, 2, 3]),
        vec![timeline],
        vec![(ComponentName::new("c"), ComponentColumn::new(list(), cells(&[Some(1), None, Some(3)])))],
    );
    match r {
        Err(ChunkError::Malformed { reason }) => assert_eq!(
            reason,
            MalformedReason::TimelineLength { num_row_ids: 3, num_times: 2 }
        ),
        _ => panic!("expected a malformed chunk"),
    }
}

#[test]
fn component_that_is_not_a_list_is_malformed() {
    let timeline = ChunkTimeline::new(None, frame(), vec![1]).unwrap();
    let r = Chunk::new(
        ChunkId(1),
        EntityPath::new("a"),
        None,
        rows(&[1]),
        vec![timeline],
        vec![(ComponentName::new("c"), ComponentColumn::new(ColumnDatatype::Other, cells(&[Some(1)])))],
    );
    match r {
        Err(ChunkError::Malformed { reason }) => assert_eq!(reason, MalformedReason::ComponentNotList),
        _ => panic!("expected a malformed chunk"),
    }
}

#[test]
fn component_that_is_not_nullable_is_malformed() {
    let timeline = ChunkTimeline::new(None, frame(), vec![1]).unwrap();
    let r = Chunk::new(
        ChunkId(1),
        EntityPath::new("a"),
        None,
        rows(&[1]),
        vec![timeline],
        vec![(
            ComponentName::new("c"),
            ComponentColumn::new(ColumnDatatype::List { is_nullable: false }, cells(&[Some(1)])),
        )],
    );
    match r {
        Err(ChunkError::Malformed { reason }) => {
            assert_eq!(reason, MalformedReason::ComponentNotNullable)
        }
        _ => panic!("expected a malformed chunk"),
    }
}

#[test]
fn component_of_wrong_length_is_malformed() {
    let timeline = ChunkTimeline::new(None, frame(), vec![1, 2]).unwrap();
    let r = Chunk::new(
        ChunkId(1),
        EntityPath::new("a"),
        None,
        rows(&[1, 2]),
        vec![timeline],
        vec![(ComponentName::new("c"), ComponentColumn::new(list(), cells(&[Some(1), None, None])))],
    );
    match r {
        Err(ChunkError::Malformed { reason }) => assert_eq!(
            reason,
            MalformedReason::ComponentLength { num_row_ids: 2, num_cells: 3 }
        ),
        _ => panic!("expected a malformed chunk"),
    }
}

#[test]
fn wrong_sorted_flag_is_malformed() {
    let timeline = ChunkTimeline::new(None, frame(), vec![1, 2]).unwrap();
    let r = Chunk::new(
        ChunkId(1),
        EntityPath::new("a"),
        Some(true),
        rows(&[2, 1]),
        vec![timeline],
        vec![(ComponentName::new("c"), ComponentColumn::new(list(), cells(&[Some(1), None])))],
    );
    match r {
        Err(ChunkError::Malformed { reason }) => {
            assert_eq!(reason, MalformedReason::RowIdsSortedness { marked_sorted: true })
        }
        _ => panic!("expected a malformed chunk"),
    }
}

#[test]
fn chunk_accessors() {
    let chunk = chunk_on_frame(7, "world/points", &[10, 30, 20], &[1, 3, 2], &[Some(1), None, Some(2)]);
    assert_eq!(chunk.id(), ChunkId(7));
    assert_eq!(chunk.entity_path().as_str(), "world/points");
    assert_eq!(chunk.num_rows(), 3);
    assert_eq!(chunk.num_timelines(), 1);
    assert_eq!(chunk.num_components(), 1);
    assert_eq!(chunk.num_controls(), 1);
    assert_eq!(chunk.num_columns(), 3);
    assert!(!chunk.is_sorted());
    assert!(!chunk.is_static());
    assert_eq!(chunk.row_id_range(), (RowId(10), RowId(30)));
    assert_eq!(chunk.row_id_at(1), Some(RowId(30)));
    assert_eq!(chunk.row_id_at(3), None);
    assert_eq!(chunk.time_at(&frame(), 2), Some(TimeInt(2)));
    assert_eq!(chunk.sanity_check(), Ok(()));
    let names = chunk.component_names();
    assert_eq!(names.len(), 1);
    assert_eq!(names[0].full_name(), "rerun.components.Color");
    let tp = chunk.timepoint_max();
    assert_eq!(tp.entries.len(), 1);
    assert_eq!(tp.entries[0].1, TimeInt(3));
}

#[test]
fn null_cell_reads_as_empty_batch() {
    let chunk = chunk_on_frame(7, "a", &[1, 2], &[1, 2], &[Some(9), None]);
    let color = ComponentName::new("rerun.components.Color");
    assert_eq!(chunk.component_batch_at(&color, 0), Some(vec![9]));
    assert_eq!(chunk.component_batch_at(&color, 1), Some(vec![]));
    assert_eq!(chunk.component_batch_at(&ComponentName::new("other"), 0), None);
}

#[test]
fn static_chunk_keeps_its_last_row() {
    let chunk = Chunk::new_static(
        ChunkId(3),
        EntityPath::new("a"),
        None,
        rows(&[1, 2, 3]),
        vec![(ComponentName::new("c"), ComponentColumn::new(list(), cells(&[Some(1), Some(2), Some(3)])))],
    )
    .unwrap();
    assert!(chunk.is_static());
    assert_eq!(chunk.num_rows(), 1);
    assert_eq!(chunk.row_id_at(0), Some(RowId(3)));
    assert_eq!(chunk.component_batch_at(&ComponentName::new("c"), 0), Some(vec![3]));
}

#[test]
fn slicing_keeps_rows_and_recomputes_ranges() {
    let chunk = chunk_on_frame(1, "a", &[1, 2, 3, 4], &[10, 40, 20, 30], &[Some(1), Some(2), Some(3), Some(4)]);
    let sliced = chunk.sliced(1, 2);
    assert_eq!(sliced.num_rows(), 2);
    assert_eq!(sliced.row_id_at(0), Some(RowId(2)));
    assert_eq!(sliced.time_at(&frame(), 1), Some(TimeInt(20)));
    let t = &sliced.timelines()[0];
    assert_eq!(t.time_range().min().as_i64(), 20);
    assert_eq!(t.time_range().max().as_i64(), 40);
    assert_eq!(sliced.sanity_check(), Ok(()));
}

#[test]
fn sorting_orders_rows_by_row_id() {
    let mut chunk = chunk_on_frame(1, "a", &[30, 10, 20, 10], &[3, 1, 2, 4], &[Some(3), Some(1), Some(2), Some(4)]);
    assert!(!chunk.is_sorted());
    chunk.sort_if_unsorted();
    assert!(chunk.is_sorted());
    let ids: Vec<u128> = chunk.row_ids().iter().map(|r| r.0).collect();
    assert_eq!(ids, vec![10, 10, 20, 30]);
    let times = chunk.timelines()[0].times().to_vec();
    assert_eq!(times, vec![1, 4, 2, 3]);
    assert!(!chunk.timelines()[0].is_sorted());
    let color = ComponentName::new("rerun.components.Color");
    assert_eq!(chunk.component_batch_at(&color, 1), Some(vec![4]));
    assert_eq!(chunk.sanity_check(), Ok(()));
}

#[test]
fn latest_at_picks_largest_time_then_row_id() {
    let mut chunk = chunk_on_frame(1, "a", &[1, 2, 3, 4], &[10, 20, 20, 30], &[Some(1), Some(2), Some(3), Some(4)]);
    chunk.sort_if_unsorted();
    let color = ComponentName::new("rerun.components.Color");
    let at_25 = chunk.latest_at(&LatestAtQuery::new(frame(), 25), color.duplicate()).unwrap();
    assert_eq!(at_25.num_rows(), 1);
    assert_eq!(at_25.row_id_at(0), Some(RowId(3)));
    let before = chunk.latest_at(&LatestAtQuery::new(frame(), 5), color.duplicate());
    assert!(before.is_none());
    let latest = chunk.latest_at(&LatestAtQuery::latest(frame()), color).unwrap();
    assert_eq!(latest.row_id_at(0), Some(RowId(4)));
}

#[test]
fn heap_size_counts_row_ids_times_and_cells() {
    let chunk = chunk_on_frame(1, "a", &[1, 2, 3], &[1, 2, 3], &[Some(1), None, Some(2)]);
    assert_eq!(chunk.heap_size_bytes(), 3 * 16 + 3 * 8 + 2);
}

#[test]
fn iterating_a_component_yields_each_row() {
    let chunk = chunk_on_frame(1, "a", &[1, 2], &[5, 6], &[Some(1), None]);
    let color = ComponentName::new("rerun.components.Color");
    let rows = chunk.iter(&frame(), &color);
    assert_eq!(rows.len(), 2);
    assert_eq!(rows[0], (RowId(1), TimeInt(5), Some(vec![1])));
    assert_eq!(rows[1], (RowId(2), TimeInt(6), None));
    assert!(chunk.iter(&frame(), &ComponentName::new("missing")).is_empty());
}

#[test]
fn slicing_an_unsorted_timeline_recomputes_its_flag() {
    let column = ChunkTimeline::new(None, frame(), vec![30, 10, 20, 40]).unwrap();
    assert!(!column.is_sorted());
    let tail = column.sliced(1, 3);
    assert!(tail.is_sorted());
    assert_eq!(tail.times(), &[10, 20, 40]);
    assert_eq!(tail.time_range().min(), TimeInt(10));
    assert_eq!(tail.time_range().max(), TimeInt(40));
    assert!(tail.sanity_check().is_ok());
    let head = column.sliced(0, 2);
    assert!(!head.is_sorted());
    assert_eq!(head.time_range().min(), TimeInt(10));
    assert!(head.sanity_check().is_ok());
}

#[test]
fn slicing_an_unsorted_chunk_yields_a_sound_chunk() {
    let chunk = chunk_on_frame(1, "a", &[3, 1, 2], &[30, 10, 20], &[Some(3), Some(1), Some(2)]);
    assert!(!chunk.is_sorted());
    let tail = chunk.sliced(1, 2);
    assert!(tail.is_sorted());
    assert_eq!(tail.row_ids(), &[RowId(1), RowId(2)]);
    assert!(tail.timelines()[0].is_sorted());
    assert!(tail.sanity_check().is_ok());
}

#[test]
fn a_data_row_becomes_a_one_row_chunk() {
    let timepoint = TimePoint {
        entries: vec![(frame(), TimeInt(7)), (Timeline::new_sequence("log_tick"), TimeInt(100))],
    };
    let cells = vec![(ComponentName::new("rerun.components.Color"), list(), vec![1u8, 2])];
    let chunk = Chunk::from_data_row(RowId(42), &timepoint, EntityPath::new("a"), &cells);
    assert_eq!(chunk.id(), ChunkId(42));
    assert_eq!(chunk.row_ids(), &[RowId(42)]);
    assert_eq!(chunk.num_timelines(), 2);
    assert_eq!(chunk.timelines()[1].times(), &[100]);
    assert_eq!(chunk.time_at(&frame(), 0), Some(TimeInt(7)));
    assert_eq!(chunk.timelines()[0].time_range().min(), TimeInt(7));
    assert_eq!(chunk.num_components(), 1);
    assert!(chunk.is_sorted());
    assert!(chunk.sanity_check().is_ok());
}

#[test]
fn component_names_and_largest_times_come_in_key_order() {
    let log_time = Timeline::new("log_time", TimeType::Time);
    let frame_time = Timeline::new("frame", TimeType::Time);
    let timelines = vec![
        ChunkTimeline::new(None, log_time, vec![5, 9]).unwrap(),
        ChunkTimeline::new(None, frame(), vec![2, 1]).unwrap(),
        ChunkTimeline::new(None, frame_time, vec![7, 3]).unwrap(),
    ];
    let components = vec![
        (ComponentName::new("rerun.components.Radius"), ComponentColumn::new(list(), cells(&[Some(1), Some(2)]))),
        (ComponentName::new("rerun.components.Color"), ComponentColumn::new(list(), cells(&[Some(3), None]))),
    ];
    let chunk = Chunk::new(ChunkId(1), EntityPath::new("a"), None, rows(&[1, 2]), timelines, components).unwrap();
    let names: Vec<String> = chunk.component_names().iter().map(|n| n.full_name().to_string()).collect();
    assert_eq!(names, vec!["rerun.components.Color", "rerun.components.Radius"]);
    let tp = chunk.timepoint_max();
    let keys: Vec<(String, TimeType, i64)> =
        tp.entries.iter().map(|(t, v)| (t.name().to_string(), t.typ, v.as_i64())).collect();
    assert_eq!(
        keys,
        vec![
            ("frame".to_string(), TimeType::Time, 7),
            ("frame".to_string(), TimeType::Sequence, 2),
            ("log_time".to_string(), TimeType::Time, 9),
        ]
    );
}

#[test]
fn names_and_timelines_compare_in_str_order() {
    assert!(str_less("a", "b"));
    assert!(str_less("a", "ab"));
    assert!(!str_less("ab", "a"));
    assert!(!str_less("abc", "abc"));
    assert!(str_less("Z", "a"));
    assert!(name_less(&ComponentName::new("rerun.components.Color"), &ComponentName::new("rerun.components.Radius")));
    assert!(Timeline::new("frame", TimeType::Time).less(&Timeline::new("frame", TimeType::Sequence)));
    assert!(!Timeline::new("frame", TimeType::Sequence).less(&Timeline::new("frame", TimeType::Time)));
    assert!(Timeline::new("a", TimeType::Sequence).less(&Timeline::new("b", TimeType::Time)));
}

#[test]
fn picking_rows_recomputes_flags_and_ranges() {
    let chunk = chunk_on_frame(1, "a", &[3, 1, 2], &[30, 10, 20], &[Some(3), Some(1), None]);
    let picked = chunk.picked_rows(&[1, 2]);
    assert_eq!(picked.id(), ChunkId(1));
    assert_eq!(picked.row_ids(), &[RowId(1), RowId(2)]);
    assert!(picked.is_sorted());
    assert_eq!(picked.timelines()[0].times(), &[10, 20]);
    assert!(picked.timelines()[0].is_sorted());
    assert_eq!(picked.timelines()[0].time_range().min(), TimeInt(10));
    assert_eq!(picked.timelines()[0].time_range().max(), TimeInt(20));
    assert!(!picked.components()[0].1.is_valid(1));
    assert!(picked.sanity_check().is_ok());
}
