use ecs_core::components::Position;
use ecs_core::world_manager::EntityManager;

const POSITION: u64 = 0;

#[test]
fn create_entity_manager() {
    let _ = EntityManager::<Position>::new();
}

#[test]
fn create_entity() {
    let mut entity_manager = EntityManager::<Position>::new();

    let ent = entity_manager.add_entity();
    assert_eq!(0, ent);
}

#[test]
fn add_component_to_entity() {
    let mut entity_manager = EntityManager::new();

    let ent = entity_manager.add_entity();

    entity_manager.add_component_to_entity(ent, POSITION, Position { x: 1, y: 2 });
}

#[test]
fn get_component_from_entity() {
    let mut entity_manager = EntityManager::new();

    let place_ent = entity_manager.add_entity();
    entity_manager.add_component_to_entity(place_ent, POSITION, Position { x: 1, y: 1 });

    let component: Position = entity_manager.get_component(place_ent, POSITION).unwrap();
    assert_eq!(1, component.x);
    assert_eq!(1, component.y);
}

#[test]
fn update_component() {
    let mut entity_manager = EntityManager::new();

    let ent = entity_manager.add_entity();
    let first_pos = Position { x: 1, y: 2 };
    let second_pos = Position { x: 2, y: 3 };

    entity_manager.add_component_to_entity(ent, POSITION, first_pos.clone());
    assert_eq!(first_pos, entity_manager.get_component(ent, POSITION).unwrap());

    entity_manager.add_component_to_entity(ent, POSITION, second_pos.clone());
    assert_eq!(second_pos, entity_manager.get_component(ent, POSITION).unwrap());
}

#[test]
fn remove_component() {
    let mut entity_manager = EntityManager::new();

    let ent = entity_manager.add_entity();
    let pos = Position { x: 1, y: 2 };
    entity_manager.add_component_to_entity(ent, POSITION, pos.clone());

    entity_manager.remove_component(ent, POSITION).unwrap();
}
