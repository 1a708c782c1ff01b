use edict::action::ActionEncoder;
use edict::component::{Component, TypeInfo, Value};
use edict::entity::{Entity, EntityId};
use edict::query::{
    collect, copied, release, tracked_modified, try_lock, try_lock_from, Entities, ItemPart,
    QueryError, QueryRef, Term,
};
use edict::relation::{not_relates_to, relate};
use edict::scheduler::{AccessItem, Scheduler};
use edict::world::{EntityError, RegistryError, World};

const U32T: u32 = 1;
const STRT: u32 = 2;
const BOOLT: u32 = 3;
const FOOT: u32 = 4;
const RELT: u32 = 5;

fn u32c(x: u32) -> Component {
    Component::new(U32T, Value::U32(x))
}

fn strc(s: &str) -> Component {
    Component::new(STRT, Value::Str(s.to_string()))
}

fn boolc(b: bool) -> Component {
    Component::new(BOOLT, Value::Bool(b))
}

fn fooc() -> Component {
    Component::new(FOOT, Value::Unit)
}

#[test]
fn insert_remove_round_trip() {
    let mut world = World::new();
    let e = world.spawn(vec![u32c(1)]);
    assert_eq!(world.try_insert(e, strc("abc")), Ok(()));
    assert_eq!(world.remove(e, STRT), Ok(strc("abc")));
    assert_eq!(world.query_one(e, &vec![U32T]), Ok(vec![u32c(1)]));
    assert_eq!(world.has_component(e, STRT), Ok(false));
}

#[test]
fn deferred_allocation() {
    let mut world = World::new();
    let mut enc = ActionEncoder::new();
    for _ in 0..2 {
        let id = world.allocate();
        enc.insert(id, vec![fooc()]);
        enc.spawn(vec![fooc()]);
        assert!(enc.execute(&mut world));
        assert!(enc.is_empty());
    }
    let q = QueryRef::new(vec![Term::Read(FOOT)]);
    let items = collect(&world, &q, 0).unwrap();
    assert_eq!(items.len(), 4);
}

#[test]
fn encoder_despawn_dead_is_noop() {
    let mut world = World::new();
    let e = world.spawn(vec![u32c(7)]);
    let keep = world.spawn(vec![u32c(9)]);
    world.despawn(e).unwrap();
    let mut enc = ActionEncoder::new();
    enc.despawn(e);
    assert!(enc.execute(&mut world));
    assert_eq!(world.has_component(keep, U32T), Ok(true));
    assert_eq!(world.query_one(keep, &vec![U32T]), Ok(vec![u32c(9)]));
    assert_eq!(world.has_component(e, U32T), Err(EntityError::NoSuchEntity));
}

#[test]
fn encoder_remove_component() {
    let mut world = World::new();
    let e = world.spawn(vec![u32c(4), strc("x")]);
    let mut enc = ActionEncoder::new();
    enc.remove_component(e, &strc("x"));
    enc.remove_bundle(e, vec![BOOLT]);
    enc.remove_component_raw(e, FOOT);
    assert!(enc.execute(&mut world));
    assert_eq!(world.has_component(e, STRT), Ok(false));
    assert_eq!(world.query_one(e, &vec![U32T]), Ok(vec![u32c(4)]));
}

#[test]
fn borrow_conflict() {
    let mut world = World::new();
    world.spawn(vec![u32c(1)]);
    world.spawn(vec![u32c(2), boolc(true)]);
    let q = QueryRef::new(vec![Term::Write(U32T)]);
    let l1 = try_lock(&mut world, &q).unwrap();
    let second = try_lock(&mut world, &q);
    assert!(matches!(second, Err(QueryError::BorrowConflict)));
    let reader = QueryRef::new(vec![Term::Read(U32T)]);
    assert!(matches!(collect(&world, &reader, 0), Err(QueryError::BorrowConflict)));
    release(&mut world, l1);
    assert!(try_lock(&mut world, &q).is_ok());
}

#[test]
fn self_conflicting_query_refused() {
    let mut world = World::new();
    world.spawn(vec![u32c(1)]);
    let q = QueryRef::new(vec![Term::Write(U32T), Term::Read(U32T)]);
    assert!(matches!(try_lock(&mut world, &q), Err(QueryError::BorrowConflict)));
}

#[test]
fn not_main_thread() {
    let mut world = World::new();
    world
        .register_type(TypeInfo { ty: U32T, non_send: false, non_sync: true })
        .unwrap();
    assert_eq!(
        world.register_type(TypeInfo::plain(U32T)),
        Err(RegistryError::AlreadyRegistered)
    );
    assert_eq!(
        world.type_info(STRT),
        Err(RegistryError::TypeNotRegistered)
    );
    world.spawn(vec![u32c(1)]);
    let q = QueryRef::new(vec![Term::Read(U32T)]);
    let off_main = try_lock_from(&mut world, &q, false);
    assert!(matches!(off_main, Err(QueryError::NotMainThread)));
    let on_main = try_lock_from(&mut world, &q, true);
    assert!(on_main.is_ok());
}

#[test]
fn scheduler_stages_greedy() {
    let mut s = Scheduler::new();
    s.add_system(vec![AccessItem::Component { ty: U32T, write: true }]);
    s.add_system(vec![AccessItem::Component { ty: STRT, write: false }]);
    s.add_system(vec![AccessItem::Component { ty: U32T, write: false }]);
    s.add_system(vec![AccessItem::Resource { ty: U32T, write: true }]);
    s.add_system(vec![AccessItem::All]);
    let st = s.stages();
    assert_eq!(st, vec![vec![0, 1], vec![2, 3], vec![4]]);
}

#[test]
fn relation_filter() {
    let mut world = World::new();
    let hub = world.spawn(vec![]);
    let a = world.spawn(vec![u32c(1)]);
    let b = world.spawn(vec![u32c(2)]);
    relate(&mut world, a, RELT, hub).unwrap();
    let filter = not_relates_to(RELT, hub);
    let q = QueryRef::new(vec![Term::Read(U32T), filter.term()]);
    let items = collect(&world, &q, 0).unwrap();
    assert_eq!(items, vec![vec![ItemPart::Val(u32c(2)), ItemPart::Mark]]);
    let elsewhere = world.spawn(vec![u32c(3)]);
    relate(&mut world, b, RELT, elsewhere).unwrap();
    let items2 = collect(&world, &q, 0).unwrap();
    assert_eq!(
        items2,
        vec![
            vec![ItemPart::Val(u32c(3)), ItemPart::Mark],
            vec![ItemPart::Val(u32c(2)), ItemPart::Mark],
        ]
    );
}

#[test]
fn copied_and_entities_terms() {
    let mut world = World::new();
    let e1 = world.spawn(vec![u32c(5)]);
    let e2 = world.spawn(vec![u32c(6), boolc(true)]);
    let q = QueryRef::new(vec![Entities::query(), copied(U32T).term()]);
    let items = collect(&world, &q, 0).unwrap();
    assert_eq!(
        items,
        vec![
            vec![ItemPart::Id(e1), ItemPart::Val(u32c(5))],
            vec![ItemPart::Id(e2), ItemPart::Val(u32c(6))],
        ]
    );
}

#[test]
fn optional_and_membership_terms() {
    let mut world = World::new();
    let e1 = world.spawn(vec![u32c(5)]);
    world.spawn(vec![u32c(6), boolc(true)]);
    let q = QueryRef::new(vec![Term::Entities, Term::OptRead(BOOLT), Term::Without(BOOLT)]);
    let items = collect(&world, &q, 0).unwrap();
    assert_eq!(
        items,
        vec![vec![ItemPart::Id(e1), ItemPart::Absent, ItemPart::Mark]]
    );
}

#[test]
fn resources_roundtrip() {
    let mut world = World::new();
    assert_eq!(world.get_resource(U32T), None);
    world.insert_resource(u32c(11));
    world.insert_resource(strc("cfg"));
    assert_eq!(world.get_resource(U32T), Some(u32c(11)));
    world.insert_resource(u32c(12));
    assert_eq!(world.get_resource(U32T), Some(u32c(12)));
    assert_eq!(world.get_resource(STRT), Some(strc("cfg")));
}

#[test]
fn reserved_entities_materialize() {
    let mut world = World::new();
    let e = world.allocate();
    assert_eq!(world.has_component(e, U32T), Ok(false));
    assert_eq!(world.try_insert(e, u32c(3)), Ok(()));
    assert_eq!(world.query_one(e, &vec![U32T]), Ok(vec![u32c(3)]));
    let r = world.allocate();
    assert_eq!(world.despawn(r), Ok(()));
    assert_eq!(world.despawn(r), Err(EntityError::NoSuchEntity));
}

#[test]
fn reserved_entities_at_query_tail() {
    let mut world = World::new();
    let e1 = world.spawn(vec![u32c(1)]);
    let r1 = world.allocate();
    let q = world.query(vec![Term::Entities]);
    let items = collect(&world, &q, 0).unwrap();
    assert_eq!(items, vec![vec![ItemPart::Id(e1)], vec![ItemPart::Id(r1)]]);
    let filtered = world.query(vec![Term::Read(U32T)]);
    let only_placed = collect(&world, &filtered, 0).unwrap();
    assert_eq!(only_placed, vec![vec![ItemPart::Val(u32c(1))]]);
}

#[test]
fn implicit_registration_on_insert() {
    let mut world = World::new();
    assert_eq!(world.type_info(U32T), Err(RegistryError::TypeNotRegistered));
    let e = world.spawn(vec![u32c(1)]);
    assert!(world.type_info(U32T).is_ok());
    world.try_insert(e, strc("a")).unwrap();
    assert!(world.type_info(STRT).is_ok());
    world.try_insert_bundle(e, vec![boolc(true)]).unwrap();
    assert!(world.type_info(BOOLT).is_ok());
}

#[test]
fn epoch_counter_advances() {
    let mut world = World::new();
    assert_eq!(world.epoch(), 1);
    world.spawn(vec![u32c(1)]);
    assert_eq!(world.epoch(), 2);
    world.bump_epoch();
    assert_eq!(world.epoch(), 3);
    let t = world.tracks();
    assert_eq!(t.epoch, 3);
}

#[test]
fn entity_handle_downgrade() {
    let mut world = World::new();
    let id = world.spawn(vec![u32c(1)]);
    let strong = Entity::new(id);
    let weak: EntityId = strong.downgrade();
    assert_eq!(weak, id);
}

#[test]
fn tracked_query_blocked_by_writer() {
    let mut world = World::new();
    world.spawn(vec![u32c(1)]);
    let mut tracks = world.tracks();
    let q = QueryRef::new(vec![Term::Write(U32T)]);
    let l1 = try_lock(&mut world, &q).unwrap();
    assert!(matches!(
        tracked_modified(&world, U32T, &mut tracks),
        Err(QueryError::BorrowConflict)
    ));
    release(&mut world, l1);
    assert!(tracked_modified(&world, U32T, &mut tracks).is_ok());
}
