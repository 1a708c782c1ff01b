use edict::component::{Component, Value};
use edict::query::tracked_modified;
use edict::world::World;

const U32T: u32 = 1;
const STRT: u32 = 2;
const BOOLT: u32 = 3;

fn u32c(x: u32) -> Component {
    Component::new(U32T, Value::U32(x))
}

fn strc(s: &str) -> Component {
    Component::new(STRT, Value::Str(s.to_string()))
}

fn boolc(b: bool) -> Component {
    Component::new(BOOLT, Value::Bool(b))
}

#[test]
fn version_test() {
    let mut world = World::new();

    let mut tracks = world.tracks();
    let e = world.spawn(vec![u32c(42), strc("qwe")]);

    assert_eq!(
        tracked_modified(&world, U32T, &mut tracks).unwrap(),
        vec![(e, u32c(42))]
    );

    assert_eq!(tracked_modified(&world, U32T, &mut tracks).unwrap(), vec![]);

    world.write_component(e, u32c(42)).unwrap();

    assert_eq!(
        tracked_modified(&world, U32T, &mut tracks).unwrap(),
        vec![(e, u32c(42))]
    );
}

#[test]
fn version_despawn_test() {
    let mut world = World::new();

    let mut tracks = world.tracks();
    let e1 = world.spawn(vec![u32c(42), strc("qwe")]);
    let e2 = world.spawn(vec![u32c(23), strc("rty")]);

    assert_eq!(
        tracked_modified(&world, U32T, &mut tracks).unwrap(),
        vec![(e1, u32c(42)), (e2, u32c(23))]
    );

    assert_eq!(tracked_modified(&world, U32T, &mut tracks).unwrap(), vec![]);

    world.write_component(e2, u32c(50)).unwrap();
    assert_eq!(world.despawn(e1), Ok(()));

    assert_eq!(
        tracked_modified(&world, U32T, &mut tracks).unwrap(),
        vec![(e2, u32c(50))]
    );
}

#[test]
fn version_insert_test() {
    let mut world = World::new();

    let mut tracks = world.tracks();
    let e1 = world.spawn(vec![u32c(42), strc("qwe")]);
    let e2 = world.spawn(vec![u32c(23), strc("rty")]);

    assert_eq!(
        tracked_modified(&world, U32T, &mut tracks).unwrap(),
        vec![(e1, u32c(42)), (e2, u32c(23))]
    );

    assert_eq!(tracked_modified(&world, U32T, &mut tracks).unwrap(), vec![]);

    world.write_component(e1, u32c(50)).unwrap();
    world.write_component(e2, u32c(100)).unwrap();

    assert_eq!(world.try_insert(e1, boolc(true)), Ok(()));

    assert_eq!(
        tracked_modified(&world, U32T, &mut tracks).unwrap(),
        vec![(e2, u32c(100)), (e1, u32c(50))]
    );
}
