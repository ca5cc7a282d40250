use entity_system::{BasicVecStorage, Entity, Storage};

#[test]
fn storage_round_trip() {
    let mut storage: BasicVecStorage<u32> = Default::default();
    let entity = Entity::new(3);
    assert!(!storage.has(entity));

    storage.allocate(entity);
    assert!(storage.has(entity));
    assert_eq!(*storage.get(entity), 0);

    *storage.get_mut(entity) = 5;
    assert_eq!(*storage.get(entity), 5);

    storage.free(entity);
    assert!(!storage.has(entity));

    storage.allocate(entity);
    assert_eq!(*storage.get(entity), 0);
}

#[test]
fn allocating_twice_keeps_the_value() {
    let mut storage: BasicVecStorage<i64> = BasicVecStorage::new();
    let entity = Entity::new(0);
    storage.allocate(entity);
    *storage.get_mut(entity) = -9;
    storage.allocate(entity);
    assert_eq!(*storage.get(entity), -9);
}

#[test]
fn slots_below_an_allocated_one_are_absent() {
    let mut storage: BasicVecStorage<u8> = BasicVecStorage::new();
    storage.allocate(Entity::new(10));
    assert!(storage.has(Entity::new(10)));
    for id in 0..10 {
        assert!(!storage.has(Entity::new(id)));
    }
    assert!(!storage.has(Entity::new(11)));
    assert!(!storage.has(Entity::new(u32::MAX)));
}

#[test]
fn freeing_an_absent_slot_is_harmless() {
    let mut storage: BasicVecStorage<u8> = BasicVecStorage::new();
    storage.free(Entity::new(4));
    assert!(!storage.has(Entity::new(4)));
    storage.allocate(Entity::new(1));
    storage.free(Entity::new(4));
    assert!(storage.has(Entity::new(1)));
}
