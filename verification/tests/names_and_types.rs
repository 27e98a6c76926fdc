use chunk_store::names::{ComponentName, DatatypeName};
use chunk_store::types::{EntityPath, ResolvedTimeRange, RowId, StoreId, StoreKind, TimeInt, Timeline};

#[test]
fn component_short_name_strips_components_prefix() {
    let name = ComponentName::new("rerun.components.Point2D");
    assert_eq!(name.full_name(), "rerun.components.Point2D");
    assert_eq!(name.short_name(), "Point2D");
}

#[test]
fn component_short_name_strips_rerun_prefix() {
    let name = ComponentName::new("rerun.Foo");
    assert_eq!(name.short_name(), "Foo");
}

#[test]
fn component_short_name_keeps_foreign_names() {
    let name = ComponentName::new("custom.Bar");
    assert_eq!(name.short_name(), "custom.Bar");
}

#[test]
fn datatype_short_name_strips_datatypes_prefix() {
    let name = DatatypeName::new("rerun.datatypes.Vec2D");
    assert_eq!(name.full_name(), "rerun.datatypes.Vec2D");
    assert_eq!(name.short_name(), "Vec2D");
}

#[test]
fn datatype_short_name_strips_rerun_prefix() {
    let name = DatatypeName::new("rerun.blueprint.Foo");
    assert_eq!(name.short_name(), "blueprint.Foo");
    let other = DatatypeName::new("mine.Vec3D");
    assert_eq!(other.short_name(), "mine.Vec3D");
}

#[test]
fn time_int_special_values() {
    assert_eq!(TimeInt::static_time().as_i64(), i64::MIN);
    assert_eq!(TimeInt::min_time().as_i64(), i64::MIN + 1);
    assert_eq!(TimeInt::max_time().as_i64(), i64::MAX);
    assert!(TimeInt::static_time().is_static());
    assert!(!TimeInt::new_temporal(0).is_static());
    assert_eq!(TimeInt::new_temporal(i64::MIN).as_i64(), i64::MIN + 1);
    assert_eq!(TimeInt::new_temporal(42).as_i64(), 42);
    assert_eq!(TimeInt::try_from_i64(i64::MIN), None);
    assert_eq!(TimeInt::try_from_i64(7), Some(TimeInt(7)));
}

#[test]
fn time_range_contains_its_bounds() {
    let range = ResolvedTimeRange::new(TimeInt(10), TimeInt(20));
    assert!(range.contains(TimeInt(10)));
    assert!(range.contains(TimeInt(20)));
    assert!(range.contains(TimeInt(15)));
    assert!(!range.contains(TimeInt(9)));
    assert!(!range.contains(TimeInt(21)));
    let everything = ResolvedTimeRange::everything();
    assert_eq!(everything.min().as_i64(), i64::MIN + 1);
    assert_eq!(everything.max().as_i64(), i64::MAX);
}

#[test]
fn row_id_wall_clock_is_the_high_half() {
    let row_id = RowId::from_u128((5u128 << 64) | 9);
    assert_eq!(row_id.nanoseconds_since_epoch(), 5);
    assert_eq!(row_id.as_u128(), (5u128 << 64) | 9);
    assert_eq!(RowId::zero().as_u128(), 0);
}

#[test]
fn entity_path_hash_is_fnv1a() {
    assert_eq!(EntityPath::new("").hash().0, 0xcbf29ce484222325);
    assert_eq!(EntityPath::new("a").hash().0, 0xaf63dc4c8601ec8c);
    assert_eq!(EntityPath::new("world/points").hash(), EntityPath::new("world/points").hash());
    assert_ne!(EntityPath::new("world/points").hash(), EntityPath::new("world").hash());
}

#[test]
fn entity_paths_order_part_by_part() {
    let a = EntityPath::new("a");
    let a_b = EntityPath::new("a/b");
    let a_dot = EntityPath::new("a.b");
    let b = EntityPath::new("b");
    assert!(a.precedes(&a_b));
    assert!(a_b.precedes(&a_dot));
    assert!(!a_dot.precedes(&a_b));
    assert!(a_dot.precedes(&b));
    assert!(!a.precedes(&a));
}

#[test]
fn timelines_and_store_ids_compare_by_value() {
    let t = Timeline::new_sequence("frame");
    assert!(t.same(&Timeline::new("frame", t.typ())));
    assert!(!t.same(&Timeline::new_temporal("frame")));
    assert_eq!(t.name(), "frame");
    let id = StoreId::from_string(StoreKind::Recording, "rec".to_string());
    assert!(id.same(&id.duplicate()));
    assert!(!id.same(&StoreId::from_string(StoreKind::Blueprint, "rec".to_string())));
}
