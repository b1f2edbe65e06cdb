use ecs_core::components::Position;
use ecs_core::store::Storage;
use ecs_core::world_manager::{ComponentError, EntityManager};

const POSITION: u64 = 0;
const VELOCITY: u64 = 1;

#[derive(Clone, Copy, Debug, PartialEq)]
struct Velocity {
    vel: f32,
}

#[derive(Clone, Copy, Debug, PartialEq)]
enum Component {
    Position(Position),
    Velocity(Velocity),
}

fn pos(x: i64, y: i64) -> Component {
    Component::Position(Position { x, y })
}

fn vel(v: f32) -> Component {
    Component::Velocity(Velocity { vel: v })
}

#[test]
fn get_component_from_entity_err() {
    let mut entity_manager = EntityManager::new();

    let place_ent = entity_manager.add_entity();
    entity_manager.add_component_to_entity(place_ent, POSITION, pos(1, 1));

    assert!(entity_manager.get_component(place_ent, VELOCITY).is_none());
}

#[test]
fn get_returns_the_attached_position() {
    let mut m = EntityManager::new();
    let e0 = m.add_entity();
    m.add_component_to_entity(e0, POSITION, pos(1, 1));
    assert_eq!(m.get_component(e0, POSITION), Some(pos(1, 1)));
}

#[test]
fn join_of_disjoint_entities_is_empty() {
    let mut m = EntityManager::new();
    let e0 = m.add_entity();
    let e1 = m.add_entity();
    m.add_component_to_entity(e0, POSITION, pos(1, 1));
    m.add_component_to_entity(e1, VELOCITY, vel(1.0));
    assert_eq!(m.join(POSITION, VELOCITY).unwrap(), vec![]);
}

#[test]
fn join_of_one_entity_with_both() {
    let mut m = EntityManager::new();
    let e0 = m.add_entity();
    m.add_component_to_entity(e0, POSITION, pos(1, 1));
    m.add_component_to_entity(e0, VELOCITY, vel(1.0));
    assert_eq!(m.join(POSITION, VELOCITY).unwrap(), vec![(0, pos(1, 1), vel(1.0))]);
}

#[test]
fn remove_of_never_registered_kind_fails() {
    let mut m = EntityManager::<Component>::new();
    let e0 = m.add_entity();
    assert_eq!(m.remove_component(e0, POSITION), Err(ComponentError { kind: POSITION }));
}

#[test]
fn overwrite_keeps_the_second_value() {
    let mut m = EntityManager::new();
    let e0 = m.add_entity();
    m.add_component_to_entity(e0, POSITION, pos(1, 2));
    m.add_component_to_entity(e0, POSITION, pos(2, 3));
    assert_eq!(m.get_component(e0, POSITION), Some(pos(2, 3)));
}

#[test]
fn stores_track_the_entity_count() {
    let mut m = EntityManager::new();
    let e0 = m.add_entity();
    m.add_component_to_entity(e0, POSITION, pos(0, 0));
    let e1 = m.add_entity();
    let e2 = m.add_entity();
    assert_eq!((e1, e2), (1, 2));
    m.add_component_to_entity(e2, VELOCITY, vel(2.5));
    m.add_entity();
    assert_eq!(m.entity_count(), 4);
    assert_eq!(m.borrow_component_store(POSITION).unwrap().len(), 4);
    assert_eq!(m.borrow_component_store(VELOCITY).unwrap().len(), 4);
    assert_eq!(m.get_component(3, POSITION), None);
    assert_eq!(m.get_component(1, VELOCITY), None);
    assert_eq!(m.get_component(2, VELOCITY), Some(vel(2.5)));
}

#[test]
fn removing_twice_succeeds_and_leaves_absent() {
    let mut m = EntityManager::new();
    let e0 = m.add_entity();
    let e1 = m.add_entity();
    m.add_component_to_entity(e0, POSITION, pos(4, 4));
    assert_eq!(m.remove_component(e1, POSITION), Ok(()));
    assert_eq!(m.get_component(e1, POSITION), None);
    assert_eq!(m.remove_component(e0, POSITION), Ok(()));
    assert_eq!(m.remove_component(e0, POSITION), Ok(()));
    assert_eq!(m.get_component(e0, POSITION), None);
}

#[test]
fn reading_an_unknown_kind_registers_nothing() {
    let mut m = EntityManager::new();
    let e0 = m.add_entity();
    m.add_component_to_entity(e0, POSITION, pos(1, 1));
    assert_eq!(m.get_component(e0, VELOCITY), None);
    assert_eq!(m.remove_component(e0, VELOCITY), Err(ComponentError { kind: VELOCITY }));
    assert!(m.borrow_component_store(VELOCITY).is_err());
    assert_eq!(m.join(POSITION, VELOCITY), Err(ComponentError { kind: VELOCITY }));
    assert_eq!(m.join(VELOCITY, POSITION), Err(ComponentError { kind: VELOCITY }));
}

#[test]
fn join_yields_the_subset_in_entity_order() {
    let mut m = EntityManager::new();
    for _ in 0..6 {
        m.add_entity();
    }
    m.add_component_to_entity(4, VELOCITY, vel(4.0));
    m.add_component_to_entity(1, POSITION, pos(1, 1));
    m.add_component_to_entity(4, POSITION, pos(4, 4));
    m.add_component_to_entity(2, VELOCITY, vel(2.0));
    m.add_component_to_entity(1, VELOCITY, vel(1.0));
    m.add_component_to_entity(5, POSITION, pos(5, 5));
    m.add_component_to_entity(3, VELOCITY, vel(3.0));
    let joined = m.join(POSITION, VELOCITY).unwrap();
    assert_eq!(joined, vec![(1, pos(1, 1), vel(1.0)), (4, pos(4, 4), vel(4.0))]);
    let ids: Vec<usize> = joined.iter().map(|t| t.0).collect();
    assert_eq!(ids, vec![1, 4]);
    let flipped = m.join(VELOCITY, POSITION).unwrap();
    assert_eq!(flipped, vec![(1, vel(1.0), pos(1, 1)), (4, vel(4.0), pos(4, 4))]);
}

#[test]
fn join_after_removal_drops_the_entity() {
    let mut m = EntityManager::new();
    let e0 = m.add_entity();
    let e1 = m.add_entity();
    for e in [e0, e1] {
        m.add_component_to_entity(e, POSITION, pos(e as i64, 0));
        m.add_component_to_entity(e, VELOCITY, vel(0.5));
    }
    m.remove_component(e0, VELOCITY).unwrap();
    assert_eq!(m.join(POSITION, VELOCITY).unwrap(), vec![(1, pos(1, 0), vel(0.5))]);
}

#[test]
fn borrowed_store_writes_reach_the_manager() {
    let mut m = EntityManager::new();
    let e0 = m.add_entity();
    let e1 = m.add_entity();
    m.add_component_to_entity(e0, POSITION, pos(1, 1));
    {
        let store = m.borrow_component_store(POSITION).unwrap();
        assert_eq!(store.kind(), POSITION);
        assert!(store.holds_kind(POSITION));
        assert!(!store.holds_kind(VELOCITY));
        assert_eq!(store.get(e0), Some(pos(1, 1)));
        store.set(e1, pos(7, 8));
        store.clear(e0);
    }
    assert_eq!(m.get_component(e0, POSITION), None);
    assert_eq!(m.get_component(e1, POSITION), Some(pos(7, 8)));
}

#[test]
fn store_join_walks_in_lock_step() {
    let mut m = EntityManager::new();
    for _ in 0..3 {
        m.add_entity();
    }
    m.add_component_to_entity(0, POSITION, pos(0, 0));
    m.add_component_to_entity(2, POSITION, pos(2, 2));
    m.add_component_to_entity(2, VELOCITY, vel(9.0));
    let store = m.borrow_component_store(POSITION).unwrap();
    let positions = store.join(store);
    assert_eq!(positions.len(), 2);
    assert_eq!(positions[0], (0, pos(0, 0), pos(0, 0)));
    assert_eq!(positions[1], (2, pos(2, 2), pos(2, 2)));
}
