use edict::component::{Component, Value};
use edict::world::{EntityError, World};

const U32T: u32 = 1;
const STRT: u32 = 2;
const BOOLT: u32 = 3;

fn u32c(x: u32) -> Component {
    Component::new(U32T, Value::U32(x))
}

fn strc(s: &str) -> Component {
    Component::new(STRT, Value::Str(s.to_string()))
}

fn boolc(b: bool) -> Component {
    Component::new(BOOLT, Value::Bool(b))
}

/// Tests that entity spawned into world has all components from bundle.
#[test]
fn world_spawn() {
    let mut world = World::new();

    let e = world.spawn(vec![u32c(42), strc("qwe")]);
    assert_eq!(world.has_component(e, U32T), Ok(true));
    assert_eq!(world.has_component(e, STRT), Ok(true));
    assert_eq!(world.query_one(e, &vec![U32T, STRT]), Ok(vec![u32c(42), strc("qwe")]));
}

/// Tests that entity does not have a component that wasn't in spawn bundle
/// but has it after component is inserted
#[test]
fn world_insert() {
    let mut world = World::new();

    let e = world.spawn(vec![u32c(42)]);
    assert_eq!(world.has_component(e, U32T), Ok(true));
    assert_eq!(world.has_component(e, STRT), Ok(false));
    assert_eq!(
        world.query_one(e, &vec![U32T, STRT]),
        Err(EntityError::MissingComponents)
    );

    assert_eq!(world.try_insert(e, strc("qwe")), Ok(()));
    assert_eq!(world.has_component(e, STRT), Ok(true));
    assert_eq!(world.query_one(e, &vec![U32T, STRT]), Ok(vec![u32c(42), strc("qwe")]));
}

/// Tests that entity does not have a component that was removed.
#[test]
fn world_remove() {
    let mut world = World::new();

    let e = world.spawn(vec![u32c(42), strc("qwe")]);
    assert_eq!(world.has_component(e, U32T), Ok(true));
    assert_eq!(world.has_component(e, STRT), Ok(true));
    assert_eq!(world.query_one(e, &vec![U32T, STRT]), Ok(vec![u32c(42), strc("qwe")]));

    assert_eq!(world.remove(e, STRT), Ok(strc("qwe")));
    assert_eq!(world.has_component(e, STRT), Ok(false));
    assert_eq!(
        world.query_one(e, &vec![U32T, STRT]),
        Err(EntityError::MissingComponents)
    );
}

/// Insertion test. Bundle version
#[test]
fn world_insert_bundle() {
    let mut world = World::new();

    let e = world.spawn(vec![u32c(42)]);
    assert_eq!(world.has_component(e, U32T), Ok(true));
    assert_eq!(world.has_component(e, STRT), Ok(false));
    assert_eq!(
        world.query_one(e, &vec![U32T, STRT]),
        Err(EntityError::MissingComponents)
    );

    assert_eq!(world.try_insert_bundle(e, vec![strc("qwe"), boolc(true)]), Ok(()));
    assert_eq!(world.has_component(e, STRT), Ok(true));
    assert_eq!(world.has_component(e, BOOLT), Ok(true));
    assert_eq!(
        world.query_one(e, &vec![U32T, STRT, BOOLT]),
        Ok(vec![u32c(42), strc("qwe"), boolc(true)])
    );
}

/// Removing test. Bundle version.
#[test]
fn world_remove_bundle() {
    let mut world = World::new();

    let e = world.spawn(vec![u32c(42), strc("qwe")]);
    assert_eq!(world.has_component(e, U32T), Ok(true));
    assert_eq!(world.has_component(e, STRT), Ok(true));
    assert_eq!(world.query_one(e, &vec![U32T, STRT]), Ok(vec![u32c(42), strc("qwe")]));

    // When removing a bundle, any missing component is simply ignored.
    assert_eq!(world.drop_bundle(e, &vec![STRT, BOOLT]), Ok(()));
    assert_eq!(world.has_component(e, STRT), Ok(false));
    assert_eq!(
        world.query_one(e, &vec![U32T, STRT]),
        Err(EntityError::MissingComponents)
    );
}
