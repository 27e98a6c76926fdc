use chunk_store::names::{
    Component, ComponentList, ComponentName, Datatype, DatatypeName, Loggable, LoggableList,
};

#[derive(Clone)]
struct Radius(u8);

impl Loggable for Radius {
    type Name = ComponentName;

    fn name() -> ComponentName {
        ComponentName::new("rerun.components.Radius")
    }
}

#[derive(Clone)]
struct Vec2D([u8; 2]);

impl Loggable for Vec2D {
    type Name = DatatypeName;

    fn name() -> DatatypeName {
        DatatypeName::new("rerun.datatypes.Vec2D")
    }
}

struct Radii(Vec<Radius>);

impl LoggableList for Radii {
    type Name = ComponentName;

    fn name(&self) -> ComponentName {
        Radius::name()
    }
}

fn component_short_name<C: Component>() -> String {
    C::name().short_name().to_string()
}

fn datatype_short_name<D: Datatype>() -> String {
    D::name().short_name().to_string()
}

fn list_name<L: ComponentList>(list: &L) -> String {
    list.name().full_name().to_string()
}

#[test]
fn loggables_are_components_or_datatypes_by_their_name() {
    assert_eq!(component_short_name::<Radius>(), "Radius");
    assert_eq!(datatype_short_name::<Vec2D>(), "Vec2D");
    let radii = Radii(vec![Radius(1), Radius(2)]);
    assert_eq!(radii.0.len(), 2);
    assert_eq!(radii.0[1].0, 2);
    assert_eq!(Vec2D([3, 4]).0[1], 4);
    assert_eq!(list_name(&radii), "rerun.components.Radius");
}
