use wunderkammer::ComponentSet;
use wunderkammer::ComponentStorage;
use wunderkammer::Entity;
use wunderkammer::EntityStorage;
use wunderkammer::WorldStorage;

#[derive(Default)]
struct HealthOnly {
    pub health: ComponentStorage<u32>,
}

impl ComponentSet for HealthOnly {
    fn owns(&self, entity: Entity) -> bool {
        self.health.get(&entity).is_some()
    }

    fn remove_all_components(&mut self, entity: Entity) {
        self.health.remove(entity);
    }
}

#[derive(Default)]
struct HealthName {
    pub health: ComponentStorage<u32>,
    pub name: ComponentStorage<String>,
}

impl ComponentSet for HealthName {
    fn owns(&self, entity: Entity) -> bool {
        self.health.get(&entity).is_some() || self.name.get(&entity).is_some()
    }

    fn remove_all_components(&mut self, entity: Entity) {
        self.health.remove(entity);
        self.name.remove(entity);
    }
}

#[derive(Default)]
struct NoResources;

// component storage

#[test]
fn components_insert_first() {
    let mut storage = ComponentStorage::default();
    let entity = Entity { id: 0, version: 0 };
    storage.insert(entity, "VALUE");

    assert_eq!(storage.entities().len(), 1);
    assert_eq!(storage.get(&entity), Some(&"VALUE"));
}

#[test]
fn insert_replace() {
    let mut storage = ComponentStorage::default();
    for i in 0..5u16 {
        let entity = Entity { id: i, version: 0 };
        storage.insert(entity, format!("VALUE{}", i));
    }

    let entity = Entity { id: 2, version: 0 };
    storage.insert(entity, "VALUE_NEW".to_string());

    assert_eq!(storage.entities().len(), 5);
    assert_eq!(storage.get(&entity), Some(&"VALUE_NEW".to_string()));
}

#[test]
fn components_insert_many() {
    let mut storage = ComponentStorage::default();
    for i in 0..10u16 {
        // make non contiguous
        if i % 2 == 0 {
            continue;
        }
        let entity = Entity { id: i, version: 0 };
        storage.insert(entity, 10 * i);
    }

    assert_eq!(storage.entities().len(), 5);

    for i in 0..10u16 {
        let entity = Entity { id: i, version: 0 };
        if i % 2 == 0 {
            assert_eq!(storage.get(&entity), None);
        } else {
            assert_eq!(storage.get(&entity), Some(&(10 * i)));
        }
    }
}

#[test]
fn components_contains() {
    let mut storage = ComponentStorage::default();
    let entity = Entity { id: 3, version: 0 };
    storage.insert(entity, "VALUE");
    assert_eq!(storage.get_dense_index(&entity), Some(0));
}

#[test]
fn components_does_not_contain() {
    let mut storage = ComponentStorage::default();
    let entity = Entity { id: 3, version: 0 };
    storage.insert(entity, "VALUE");
    let other = Entity { id: 1, version: 0 };
    assert_eq!(storage.get_dense_index(&other), None);
}

#[test]
fn components_does_not_contain_exceed_index() {
    let mut storage = ComponentStorage::default();
    let entity = Entity { id: 3, version: 0 };
    storage.insert(entity, "VALUE");
    let other = Entity { id: 10, version: 0 };
    assert_eq!(storage.get_dense_index(&other), None);
}

#[test]
fn components_remove_single() {
    let mut storage = ComponentStorage::default();
    let entity = Entity { id: 0, version: 0 };
    storage.insert(entity, "VALUE");
    storage.remove(entity);

    assert_eq!(storage.entities().len(), 0);
    assert_eq!(storage.get(&entity), None);
}

#[test]
fn recycle() {
    let mut storage = ComponentStorage::default();
    let entity_0 = Entity { id: 0, version: 0 };
    let entity_1 = Entity { id: 1, version: 0 };
    storage.insert(entity_0, "VALUE0");
    storage.insert(entity_1, "VALUE1");
    storage.remove(entity_0);

    let entity_0r = Entity { id: 0, version: 1 };
    storage.insert(entity_0r, "VALUE0r");

    assert_eq!(storage.entities().len(), 2);
    assert!(!storage.entities().contains(&entity_0));
}

#[test]
fn components_remove_many() {
    let mut storage = ComponentStorage::default();
    for i in 0..10u16 {
        let entity = Entity { id: i, version: 0 };
        storage.insert(entity, 10 * i);
    }
    assert_eq!(storage.entities().len(), 10);

    for i in 0..10u16 {
        let entity = Entity { id: i, version: 0 };
        if i % 2 == 0 {
            storage.remove(entity);
        }
    }

    assert_eq!(storage.entities().len(), 5);

    for i in 0..10u16 {
        let entity = Entity { id: i, version: 0 };
        if i % 2 == 0 {
            assert_eq!(storage.get(&entity), None);
        } else {
            assert_eq!(storage.get(&entity), Some(&(10 * i)));
        }
    }
}

#[test]
fn components_get_wrong_version() {
    let mut storage = ComponentStorage::default();
    let entity = Entity { id: 0, version: 1 };
    storage.insert(entity, "VALUE");

    assert_eq!(storage.get(&Entity { id: 0, version: 0 }), None);
}

#[test]
fn components_get_wrong_id() {
    let mut storage = ComponentStorage::default();
    let entity = Entity { id: 3, version: 1 };
    storage.insert(entity, "VALUE");

    assert_eq!(storage.get(&Entity { id: 0, version: 1 }), None);
}

// entity storage

#[test]
fn spawn_new() {
    let mut storage = EntityStorage::default();
    for i in 0..5u16 {
        let e = storage.spawn_new();
        assert_eq!(i, e.id);
        assert_eq!(0, e.version);
    }

    assert_eq!(storage.len(), 5);
}

#[test]
fn despawn() {
    let mut storage = EntityStorage::default();
    let entities = (0..5).map(|_| storage.spawn_new()).collect::<Vec<_>>();
    storage.despawn(entities[2]);
    assert_eq!(storage.is_alive(entities[2]), false);
}

#[test]
fn recycle_single() {
    let mut storage = EntityStorage::default();
    let a = storage.spawn();
    let _ = storage.spawn();
    storage.despawn(a);
    let c = storage.spawn();
    assert_eq!(a.id, c.id);
    assert_eq!(a.version + 1, c.version);

    storage.despawn(c);
    let d = storage.spawn();
    assert_eq!(a.id, d.id);
    assert_eq!(a.version + 2, d.version);
}

#[test]
fn recycle_many() {
    let mut storage = EntityStorage::default();
    let entities = (0..10).map(|_| storage.spawn_new()).collect::<Vec<_>>();
    storage.despawn(entities[2]);
    storage.despawn(entities[3]);
    storage.despawn(entities[7]);

    let a = storage.spawn();
    assert_eq!(a.id, entities[2].id);
    assert_eq!(a.version, entities[2].version + 1);

    let b = storage.spawn();
    assert_eq!(b.id, entities[3].id);
    assert_eq!(b.version, entities[3].version + 1);

    let c = storage.spawn();
    assert_eq!(c.id, entities[7].id);
    assert_eq!(c.version, entities[7].version + 1);

    // no more entities to recycle
    assert_eq!(storage.spawn().id, 10);
}

#[test]
fn spawn() {
    let mut storage = EntityStorage::default();
    let a = storage.spawn();
    let _ = storage.spawn();

    storage.despawn(a);
    let c = storage.spawn();
    assert_eq!(c.id, a.id);

    let d = storage.spawn();
    assert_eq!(d.id, 2);
}

#[test]
fn all_lists_live_in_slot_order() {
    let mut storage = EntityStorage::default();
    let a = storage.spawn();
    let b = storage.spawn();
    let c = storage.spawn();
    storage.despawn(b);

    assert_eq!(storage.all(), vec![a, c]);
}

#[test]
fn allocator_snapshot_round_trip() {
    let mut storage = EntityStorage::default();
    let a = storage.spawn();
    let b = storage.spawn();
    let c = storage.spawn();
    storage.despawn(a);
    storage.despawn(c);

    let versions = storage.slot_versions();
    let recycled = storage.recycled_ids();
    assert_eq!(recycled, vec![a.id, c.id]);

    let mut rebuilt = match EntityStorage::restore(versions, recycled) {
        Some(s) => s,
        None => panic!("a faithful snapshot restores"),
    };
    assert!(rebuilt.is_valid(&b));
    assert!(!rebuilt.is_valid(&a));
    assert!(!rebuilt.is_valid(&c));

    // the recycle order survives the round trip
    let d = rebuilt.spawn();
    assert_eq!(d.id, a.id);
    assert_eq!(d.version, a.version + 1);
    let e = rebuilt.spawn();
    assert_eq!(e.id, c.id);
    assert_eq!(e.version, c.version + 1);
}

#[test]
fn restore_rejects_bad_recycle_data() {
    // an id out of range
    assert!(EntityStorage::restore(vec![0, 0], vec![5]).is_none());
    // an id recycled twice
    assert!(EntityStorage::restore(vec![1, 1, 0], vec![2, 2]).is_none());
    // the empty allocator
    assert!(EntityStorage::restore(Vec::new(), Vec::new()).is_some());
}

// world storage: guarded insertion of components

#[test]
fn test_insert() {
    let mut w = WorldStorage::<HealthOnly, NoResources>::default();
    let entity = w.spawn();

    if w.is_valid(&entity) {
        w.components.health.insert(entity, 15);
    }
    assert_eq!(w.components.health.get(&entity), Some(&15));
}

#[test]
fn test_invalid() {
    let mut w = WorldStorage::<HealthOnly, NoResources>::default();

    let entity = Entity { id: 2, version: 0 };

    if w.is_valid(&entity) {
        w.components.health.insert(entity, 15);
    }
    assert_eq!(w.components.health.get(&entity), None);
}

#[test]
fn world_entities_lists_live_only() {
    let mut w = WorldStorage::<HealthOnly, NoResources>::default();
    let a = w.spawn();
    let b = w.spawn();
    let c = w.spawn();
    w.despawn(b);

    let live = w.entities();
    assert_eq!(live.len(), 2);
    assert!(live.contains(&a));
    assert!(live.contains(&c));
    assert!(!live.contains(&b));
}

#[test]
fn despawn_removes_components() {
    let mut w = WorldStorage::<HealthOnly, NoResources>::default();
    let a = w.spawn();
    w.components.health.insert(a, 7);
    w.despawn(a);

    assert_eq!(w.components.health.get(&a), None);
    assert_eq!(w.components.health.entities().len(), 0);
    assert!(!w.is_valid(&a));
}

// cleanup through the component set, written out by hand

#[test]
fn derive() {
    let mut c = HealthName::default();
    let entity = Entity::default();

    c.health.insert(entity, 17);
    c.name.insert(entity, "Seventeen".to_string());

    assert_eq!(c.health.entities().len(), 1);
    assert_eq!(c.name.entities().len(), 1);

    c.remove_all_components(entity);
    assert_eq!(c.health.entities().len(), 0);
    assert_eq!(c.name.entities().len(), 0);
}
