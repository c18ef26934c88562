use fecs::component::Component;
use fecs::registry::Registry;
use fecs::registry_error::RegistryError;
use fecs::registry_error::SparseSetError;
use fecs::types::get_entity_index;
use fecs::types::get_entity_version;

#[derive(Debug, PartialEq)]
struct Position {
    x: f32,
    y: f32,
}

impl Component for Position {}

#[test]
pub fn registry_create() {
    let mut registry: Registry<Position> = Registry::new();

    assert_eq!(registry.create().ok(), Some(0));
    assert_eq!(registry.create().ok(), Some(1));
}

#[test]
pub fn registry_destroy() {
    let mut registry: Registry<Position> = Registry::new();

    let e0 = registry.create().unwrap();
    let e1 = registry.create().unwrap();
    let _ = registry.create().unwrap();

    assert_eq!(registry.destroy(e0).is_ok(), true);
    assert_eq!(registry.destroy(e1).is_ok(), true);

    // Slots are recycled most recently freed first, but with a bumped
    // version, so the stale handles stay dead.
    let e1b = registry.create().unwrap();
    assert_eq!(get_entity_index(e1b), 1);
    assert_eq!(get_entity_version(e1b), 1);
    let e0b = registry.create().unwrap();
    assert_eq!(get_entity_index(e0b), 0);
    assert_eq!(get_entity_version(e0b), 1);
    assert!(!registry.is_alive(e0));
    assert!(!registry.is_alive(e1));
}

#[test]
pub fn attach() {
    let mut registry: Registry<Position> = Registry::new();

    let pos = registry.register().unwrap();
    let e0 = registry.create().unwrap();

    assert_eq!(registry.attach(pos, e0, Position { x: 32.0, y: 32.0 }).ok(), Some(()));

    assert_eq!(registry.get(pos, e0), Some(&Position { x: 32.0, y: 32.0 }));

    assert_eq!(registry.attach(pos, e0, Position { x: 128.0, y: 128.0 }).ok(), Some(()));

    assert_eq!(registry.get(pos, e0), Some(&Position { x: 128.0, y: 128.0 }));

    let e1 = registry.create().unwrap();

    assert_eq!(registry.attach(pos, e1, Position { x: 11.0, y: 12.0 }).ok(), Some(()));

    assert_eq!(registry.get(pos, e1), Some(&Position { x: 11.0, y: 12.0 }));
}

#[test]
pub fn detach() {
    let mut registry: Registry<Position> = Registry::new();

    let e0 = registry.create().unwrap();

    // No component kind registered yet: kind 0 does not exist.
    assert_eq!(registry.detach(0, e0).err(), Some(RegistryError::NoSuchComponentSet));
    let pos = registry.register().unwrap();
    registry.attach(pos, e0, Position { x: 32.0, y: 32.0 }).unwrap();
    assert_eq!(registry.get(pos, e0), Some(&Position { x: 32.0, y: 32.0 }));
    assert_eq!(registry.detach(pos, e0).ok(), Some(()));
    assert_eq!(
        registry.detach(pos, e0).err(),
        Some(RegistryError::SparseSet(SparseSetError::InvalidPosition))
    );
}

#[test]
pub fn query_2() {
    let mut _registry: Registry<Position> = Registry::new();
}

#[test]
pub fn query_4() {
    let mut _registry: Registry<Position> = Registry::new();
}
