use wunderkammer::filter_with;
use wunderkammer::filter_without;
use wunderkammer::ComponentSet;
use wunderkammer::ComponentStorage;
use wunderkammer::Entity;
use wunderkammer::WorldStorage;

#[derive(Default)]
struct HealthName {
    pub health: ComponentStorage<u32>,
    pub name: ComponentStorage<String>,
}

impl ComponentSet for HealthName {
    fn owns(&self, entity: Entity) -> bool {
        self.health.get(&entity).is_some() || self.name.get(&entity).is_some()
    }

    fn remove_all_components(&mut self, entity: Entity) {
        self.health.remove(entity);
        self.name.remove(entity);
    }
}

#[derive(Default)]
struct HealthOnly {
    pub health: ComponentStorage<u32>,
}

impl ComponentSet for HealthOnly {
    fn owns(&self, entity: Entity) -> bool {
        self.health.get(&entity).is_some()
    }

    fn remove_all_components(&mut self, entity: Entity) {
        self.health.remove(entity);
    }
}

#[derive(Default)]
struct AttackHealthName {
    pub attack: ComponentStorage<u32>,
    pub health: ComponentStorage<u32>,
    pub name: ComponentStorage<String>,
}

impl ComponentSet for AttackHealthName {
    fn owns(&self, entity: Entity) -> bool {
        self.attack.get(&entity).is_some() || self.health.get(&entity).is_some() || self.name.get(&entity).is_some()
    }

    fn remove_all_components(&mut self, entity: Entity) {
        self.attack.remove(entity);
        self.health.remove(entity);
        self.name.remove(entity);
    }
}

#[derive(Default)]
struct HealthMarkerStrength {
    pub health: ComponentStorage<u32>,
    pub marker: ComponentStorage<()>,
    pub strength: ComponentStorage<u32>,
}

impl ComponentSet for HealthMarkerStrength {
    fn owns(&self, entity: Entity) -> bool {
        self.health.get(&entity).is_some() || self.marker.get(&entity).is_some() || self.strength.get(&entity).is_some()
    }

    fn remove_all_components(&mut self, entity: Entity) {
        self.health.remove(entity);
        self.marker.remove(entity);
        self.strength.remove(entity);
    }
}

#[derive(Default)]
struct PlayerHealthStrength {
    pub player: ComponentStorage<()>,
    pub health: ComponentStorage<u32>,
    pub strength: ComponentStorage<u32>,
}

impl ComponentSet for PlayerHealthStrength {
    fn owns(&self, entity: Entity) -> bool {
        self.player.get(&entity).is_some() || self.health.get(&entity).is_some() || self.strength.get(&entity).is_some()
    }

    fn remove_all_components(&mut self, entity: Entity) {
        self.player.remove(entity);
        self.health.remove(entity);
        self.strength.remove(entity);
    }
}

#[derive(Default)]
struct Bestiary {
    pub health: ComponentStorage<u32>,
    pub name: ComponentStorage<String>,
    pub player: ComponentStorage<()>,
    pub poison: ComponentStorage<()>,
    pub strength: ComponentStorage<u32>,
}

impl ComponentSet for Bestiary {
    fn owns(&self, entity: Entity) -> bool {
        self.health.get(&entity).is_some() || self.name.get(&entity).is_some() || self.player.get(&entity).is_some() || self.poison.get(&entity).is_some() || self.strength.get(&entity).is_some()
    }

    fn remove_all_components(&mut self, entity: Entity) {
        self.health.remove(entity);
        self.name.remove(entity);
        self.player.remove(entity);
        self.poison.remove(entity);
        self.strength.remove(entity);
    }
}

#[derive(Default)]
struct NoResources;

#[derive(Default)]
struct LevelCounter {
    current_level: u32,
}

#[test]
fn query_query_single() {
    let mut w = WorldStorage::<HealthName, NoResources>::default();
    let entity = w.spawn();

    w.components.health.insert(entity, 15);
    w.components.name.insert(entity, "Fifteen".to_string());

    let entities = filter_with(&w.components.health.entities(), &w.components.name);
    assert_eq!(entities.len(), 1);
    assert!(entities.contains(&entity));
}

#[test]
fn query_query_many() {
    let mut w = WorldStorage::<HealthName, NoResources>::default();
    let a = w.spawn();
    let b = w.spawn();
    let c = w.spawn();

    w.components.health.insert(a, 15);
    w.components.name.insert(a, "Fifteen".to_string());

    w.components.health.insert(b, 16);

    w.components.health.insert(c, 17);
    w.components.name.insert(c, "Seventeen".to_string());

    let entities = filter_with(&w.components.health.entities(), &w.components.name);
    assert_eq!(entities.len(), 2);
    assert!(entities.contains(&a));
    assert!(entities.contains(&c));
}

#[test]
fn query_query_without() {
    let mut w = WorldStorage::<HealthName, NoResources>::default();
    let a = w.spawn();
    let b = w.spawn();
    let c = w.spawn();

    w.components.health.insert(a, 15);
    w.components.name.insert(a, "Fifteen".to_string());

    w.components.health.insert(b, 16);

    w.components.health.insert(c, 17);
    w.components.name.insert(c, "Seventeen".to_string());

    let entities = filter_without(&w.components.health.entities(), &w.components.name);
    assert_eq!(entities.len(), 1);
    assert!(entities.contains(&b));
}

#[test]
fn query_without_many() {
    let mut w = WorldStorage::<AttackHealthName, NoResources>::default();
    let a = w.spawn();
    let b = w.spawn();
    let c = w.spawn();
    let d = w.spawn();

    w.components.attack.insert(a, 2);
    w.components.health.insert(a, 15);
    w.components.name.insert(a, "Fifteen".to_string());

    w.components.health.insert(b, 16);
    w.components.name.insert(b, "Sixteen".to_string());

    w.components.attack.insert(c, 3);
    w.components.name.insert(c, "Seventeen".to_string());

    w.components.name.insert(d, "Eighteen".to_string());

    let entities = filter_without(
        &filter_without(&w.components.name.entities(), &w.components.attack),
        &w.components.health,
    );
    assert_eq!(entities.len(), 1);
    assert!(entities.contains(&d));

    let entities = filter_without(
        &filter_with(&w.components.attack.entities(), &w.components.name),
        &w.components.health,
    );
    assert_eq!(entities.len(), 1);
    assert!(entities.contains(&c));
}

#[test]
fn query_after_despawn() {
    let mut w = WorldStorage::<HealthOnly, NoResources>::default();
    let entity = w.spawn();
    let entity_keep = w.spawn();

    w.components.health.insert(entity, 15);
    w.components.health.insert(entity_keep, 25);
    w.despawn(entity);

    let entities = w.components.health.entities();
    assert_eq!(entities.len(), 1);
    assert!(entities.contains(&entity_keep));
}

#[test]
fn query_after_recycle() {
    let mut w = WorldStorage::<HealthOnly, NoResources>::default();
    let entity = w.spawn();
    let entity_keep = w.spawn();

    w.components.health.insert(entity, 15);
    w.components.health.insert(entity_keep, 25);
    w.despawn(entity);
    let entity_recycle = w.spawn();
    w.components.health.insert(entity_recycle, 35);

    assert_eq!(entity.id, entity_recycle.id);
    assert_ne!(entity.version, entity_recycle.version);

    let entities = w.components.health.entities();
    assert_eq!(entities.len(), 2);
    assert!(entities.contains(&entity_keep));
    assert!(entities.contains(&entity_recycle));
}

#[test]
fn query_query_iter() {
    let mut w = WorldStorage::<HealthMarkerStrength, NoResources>::default();
    let a = w.spawn();
    let b = w.spawn();
    let c = w.spawn();

    w.components.health.insert(a, 15);
    w.components.health.insert(c, 17);

    w.components.strength.insert(a, 1);
    w.components.strength.insert(b, 1);
    w.components.strength.insert(c, 1);

    w.components.marker.insert(a, ());

    let v = w
        .components
        .strength
        .entities()
        .iter()
        .map(|e| *w.components.strength.get(e).unwrap())
        .collect::<Vec<_>>();

    assert_eq!(v.len(), 3);
    assert_eq!(v.iter().sum::<u32>(), 3);

    let v = filter_with(&w.components.health.entities(), &w.components.strength)
        .iter()
        .map(|e| {
            w.components.health.get(e).unwrap() + w.components.strength.get(e).unwrap()
        })
        .collect::<Vec<_>>();

    assert_eq!(v.len(), 2);
    assert_eq!(v.iter().sum::<u32>(), 34);

    let v = filter_with(
        &filter_with(&w.components.health.entities(), &w.components.strength),
        &w.components.marker,
    )
    .iter()
    .map(|e| w.components.health.get(e).unwrap() + w.components.strength.get(e).unwrap())
    .collect::<Vec<_>>();

    assert_eq!(v.len(), 1);
    assert_eq!(v.iter().sum::<u32>(), 16);
}

#[test]
fn query_query_iter_without() {
    let mut w = WorldStorage::<HealthMarkerStrength, NoResources>::default();
    let a = w.spawn();
    let b = w.spawn();
    let c = w.spawn();

    w.components.health.insert(a, 15);
    w.components.health.insert(c, 17);

    w.components.strength.insert(a, 1);
    w.components.strength.insert(b, 2);
    w.components.strength.insert(c, 1);

    let v = filter_without(&w.components.strength.entities(), &w.components.health)
        .iter()
        .map(|e| *w.components.strength.get(e).unwrap())
        .collect::<Vec<_>>();

    assert_eq!(v.len(), 1);
    assert_eq!(v[0], 2);
}

#[test]
fn query_iter_without_many() {
    let mut w = WorldStorage::<PlayerHealthStrength, NoResources>::default();
    let a = w.spawn();
    let b = w.spawn();
    let c = w.spawn();

    w.components.player.insert(a, ());
    w.components.health.insert(c, 17);

    w.components.strength.insert(a, 1);
    w.components.strength.insert(b, 2);
    w.components.strength.insert(c, 1);

    let v = filter_without(
        &filter_without(&w.components.strength.entities(), &w.components.health),
        &w.components.player,
    )
    .iter()
    .map(|e| *w.components.strength.get(e).unwrap())
    .collect::<Vec<_>>();
    assert_eq!(v.len(), 1);
    assert_eq!(v[0], 2);
}

#[test]
fn query_query_execute() {
    let mut w = WorldStorage::<HealthName, NoResources>::default();
    let a = w.spawn();
    let b = w.spawn();

    w.components.health.insert(a, 15);
    w.components.name.insert(a, "Fifteen".to_string());

    w.components.health.insert(b, 17);
    w.components.name.insert(b, "Seventeen".to_string());

    let matches = filter_with(&w.components.health.entities(), &w.components.name);
    for e in matches.iter() {
        let h = w.components.health.get_mut(e).unwrap();
        *h += 1;
        let n = w.components.name.get_mut(e).unwrap();
        n.insert(0, '@');
    }

    assert_eq!(*w.components.health.get(&a).unwrap(), 16);
    assert_eq!(w.components.name.get(&a).unwrap(), "@Fifteen");
    assert_eq!(*w.components.health.get(&b).unwrap(), 18);
    assert_eq!(w.components.name.get(&b).unwrap(), "@Seventeen");
}

#[test]
fn query_query_execute_without() {
    let mut w = WorldStorage::<HealthName, NoResources>::default();
    let a = w.spawn();
    let b = w.spawn();

    w.components.health.insert(a, 15);

    w.components.health.insert(b, 17);
    w.components.name.insert(b, "Seventeen".to_string());

    let matches = filter_without(&w.components.health.entities(), &w.components.name);
    for e in matches.iter() {
        let h = w.components.health.get_mut(e).unwrap();
        *h += 1;
    }

    assert_eq!(*w.components.health.get(&a).unwrap(), 16);
    assert_eq!(*w.components.health.get(&b).unwrap(), 17);
}

#[test]
fn query_execute_mut() {
    let mut w = WorldStorage::<HealthName, NoResources>::default();
    let a = w.spawn();
    let b = w.spawn();

    w.components.health.insert(a, 15);
    w.components.name.insert(a, "Fifteen".to_string());

    w.components.health.insert(b, 17);
    w.components.name.insert(b, "Seventeen".to_string());

    let matches = filter_with(&w.components.health.entities(), &w.components.name);
    for e in matches.iter() {
        let h = w.components.health.get_mut(e).unwrap();
        *h += 1;
        let n = w.components.name.get_mut(e).unwrap();
        n.insert(0, '@');
    }

    assert_eq!(*w.components.health.get(&a).unwrap(), 16);
    assert_eq!(w.components.name.get(&a).unwrap(), "@Fifteen");
    assert_eq!(*w.components.health.get(&b).unwrap(), 18);
    assert_eq!(w.components.name.get(&b).unwrap(), "@Seventeen");
}

#[test]
fn query_execute_mut_without() {
    let mut w = WorldStorage::<HealthName, NoResources>::default();
    let a = w.spawn();
    let b = w.spawn();

    w.components.health.insert(a, 15);

    w.components.health.insert(b, 17);
    w.components.name.insert(b, "Seventeen".to_string());

    let matches = filter_without(&w.components.health.entities(), &w.components.name);
    for e in matches.iter() {
        let h = w.components.health.get_mut(e).unwrap();
        *h += 1;
    }

    assert_eq!(*w.components.health.get(&a).unwrap(), 16);
    assert_eq!(*w.components.health.get(&b).unwrap(), 17);
}

#[test]
fn query_example() {
    let mut world = WorldStorage::<Bestiary, LevelCounter>::default();

    let player = world.spawn();
    world.components.health.insert(player, 5);
    world.components.name.insert(player, "Player".to_string());
    world.components.player.insert(player, ());
    world.components.poison.insert(player, ());
    world.components.strength.insert(player, 3);

    let rat = world.spawn();
    world.components.health.insert(rat, 2);
    world.components.name.insert(rat, "Rat".to_string());
    world.components.strength.insert(rat, 1);

    let serpent = world.spawn();
    world.components.health.insert(serpent, 3);
    world.components.name.insert(serpent, "Serpent".to_string());
    world.components.poison.insert(serpent, ());
    world.components.strength.insert(serpent, 2);

    // find matching entities
    let npcs = filter_without(&world.components.health.entities(), &world.components.player);
    assert_eq!(npcs.len(), 2);

    // apply poison
    let poisoned = filter_with(&world.components.health.entities(), &world.components.poison);
    for e in poisoned.iter() {
        let h = world.components.health.get_mut(e).unwrap();
        *h = h.saturating_sub(1);
    }

    assert_eq!(world.components.health.get(&player), Some(&4));
    assert_eq!(world.components.health.get(&rat), Some(&2));
    assert_eq!(world.components.health.get(&serpent), Some(&2));

    // heal player
    let _ = world.components.poison.remove(player);
    let poisoned = world.components.poison.entities();
    assert_eq!(poisoned.len(), 1);

    // use resource
    world.resources.current_level += 1;
}
