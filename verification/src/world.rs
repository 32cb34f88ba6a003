//! The world: entities, their components and global resources.

use crate::components::ComponentSet;
use crate::entity::Entity;
use crate::entity::EntityStorage;
use vstd::prelude::*;

verus! {

/// Main storage struct responsible for tracking entities, components and
/// resources. The component set `C` is host-defined: one
/// [`crate::components::ComponentStorage`] field per component kind, tied
/// together by a [`ComponentSet`] impl that clears them on despawn.
pub struct WorldStorage<C, R> {
    entities: EntityStorage,
    pub components: C,
    pub resources: R,
}

impl<C, R> WorldStorage<C, R> {
    /// The entity allocator behind this world.
    pub closed spec fn entity_storage(&self) -> EntityStorage {
        self.entities
    }

    /// The component set, as a spec value.
    pub closed spec fn components_spec(&self) -> C {
        self.components
    }

    /// The resources, as a spec value.
    pub closed spec fn resources_spec(&self) -> R {
        self.resources
    }

    pub open spec fn wf(&self) -> bool {
        self.entity_storage().wf()
    }

    pub open spec fn alive(&self, e: Entity) -> bool {
        self.entity_storage().alive(e)
    }

    /// Spawn a new entity.
    pub fn spawn(&mut self) -> (r: Entity)
        requires
            old(self).wf(),
            old(self).entity_storage().can_spawn(),
        ensures
            final(self).wf(),
            final(self).alive(r),
            final(self).components_spec() == old(self).components_spec(),
            final(self).resources_spec() == old(self).resources_spec(),
            old(self).entity_storage().free_ids().len() > 0 ==> {
                let f0 = old(self).entity_storage().free_ids()[0];
                r == (Entity {
                    id: f0,
                    version: old(self).entity_storage().slots()[f0 as int].version,
                })
            },
            old(self).entity_storage().free_ids().len() == 0 ==> r == (Entity {
                id: old(self).entity_storage().slot_count() as u16,
                version: 0,
            }),
            forall|e2: Entity| old(self).alive(e2) ==> final(self).alive(e2) && e2 != r,
            forall|e2: Entity| final(self).alive(e2) ==> old(self).alive(e2) || e2 == r,
    {
        let entity = self.entities.spawn();
        proof {
            let free0 = old(self).entity_storage().free_ids();
            assert forall|e2: Entity| old(self).alive(e2) implies self.alive(e2) && e2
                != entity by {
                if free0.len() > 0 {
                    assert(free0.contains(free0[0]));
                    let free1 = self.entities.free_ids();
                    if free1.contains(e2.id) {
                        let j = choose|j: int| 0 <= j < free1.len() && free1[j] == e2.id;
                        assert(free1[j] == free0[j + 1]);
                        assert(free0.contains(free0[j + 1]));
                    }
                }
            }
            assert forall|e2: Entity|
                self.alive(e2) && e2 != entity implies old(self).alive(e2) by {
                if free0.len() > 0 {
                    assert(free0.contains(free0[0]));
                    if free0.contains(e2.id) {
                        let j = choose|j: int| 0 <= j < free0.len() && free0[j] == e2.id;
                        if j > 0 {
                            assert(self.entities.free_ids()[j - 1] == free0[j]);
                            assert(self.entities.free_ids().contains(e2.id));
                        }
                    }
                }
            }
        }
        entity
    }

}

impl<C: ComponentSet, R> WorldStorage<C, R> {
    /// Despawn an entity: all its components are removed and its id goes
    /// back to the allocator for recycling.
    pub fn despawn(&mut self, entity: Entity)
        requires
            old(self).wf(),
            entity.id < old(self).entity_storage().slot_count(),
            old(self).alive(entity) ==> entity.version < 65535,
        ensures
            final(self).wf(),
            !final(self).alive(entity),
            final(self).resources_spec() == old(self).resources_spec(),
            forall|e2: Entity|
                old(self).alive(e2) && e2 != entity ==> final(self).alive(e2),
            forall|e2: Entity| final(self).alive(e2) ==> old(self).alive(e2) && e2 != entity,
            !final(self).components_spec().owns(entity),
            forall|e2: Entity|
                e2 != entity ==> final(self).components_spec().owns(e2) == old(self).components_spec().owns(e2),
    {
        proof {
            if old(self).alive(entity) {
                assert forall|e2: Entity|
                    old(self).entity_storage().alive(e2) && e2 != entity implies e2.id
                    != entity.id || e2.version != entity.version by {}
            }
        }
        self.components.remove_all_components(entity);
        self.entities.despawn(entity);
        proof {
            let s0 = old(self).entity_storage();
            let s1 = self.entities;
            if s0.alive(entity) {
                assert(s1.free_ids().last() == entity.id);
                assert(s1.free_ids().contains(entity.id));
                assert forall|e2: Entity| s0.alive(e2) && e2 != entity implies s1.alive(e2) by {
                    assert(e2.id != entity.id);
                    if s1.free_ids().contains(e2.id) {
                        let j = choose|j: int|
                            0 <= j < s1.free_ids().len() && s1.free_ids()[j] == e2.id;
                        if j < s0.free_ids().len() {
                            assert(s1.free_ids()[j] == s0.free_ids()[j]);
                            assert(s0.free_ids().contains(e2.id));
                        }
                    }
                    if s0.free_ids().len() > 0 {
                        let last = s0.free_ids().last();
                        assert(s0.free_ids().contains(last));
                        assert(e2.id != last);
                        assert(s1.slots()[e2.id as int] == s0.slots()[e2.id as int]);
                    }
                }
                assert forall|e2: Entity| s1.alive(e2) implies s0.alive(e2) && e2 != entity by {
                    assert(e2.id != entity.id);
                    if s0.free_ids().contains(e2.id) {
                        let j = choose|j: int|
                            0 <= j < s0.free_ids().len() && s0.free_ids()[j] == e2.id;
                        assert(s1.free_ids()[j] == e2.id);
                        assert(s1.free_ids().contains(e2.id));
                    }
                    if s0.free_ids().len() > 0 {
                        let last = s0.free_ids().last();
                        assert(s1.free_ids()[s0.free_ids().len() - 1] == last);
                        assert(s1.free_ids().contains(last));
                        assert(e2.id != last);
                        assert(s1.slots()[e2.id as int] == s0.slots()[e2.id as int]);
                    }
                }
            } else {
                assert(s1 == s0);
            }
        }
    }
}

impl<C, R> WorldStorage<C, R> {
    /// Checks whether a given entity is still a valid one.
    pub fn is_valid(&self, entity: &Entity) -> (r: bool)
        requires
            self.wf(),
        ensures
            r == self.alive(*entity),
    {
        self.entities.is_valid(entity)
    }

    /// Returns every live entity, in slot order.
    pub fn entities(&self) -> (r: Vec<Entity>)
        requires
            self.wf(),
        ensures
            r@ == self.entity_storage().live_seq(),
    {
        self.entities.all()
    }

    /// Read access to the entity allocator, for snapshots.
    pub fn allocator(&self) -> (r: &EntityStorage)
        ensures
            *r == self.entity_storage(),
    {
        &self.entities
    }

    /// Reassembles a world from its parts, as when loading a snapshot.
    pub fn from_parts(entities: EntityStorage, components: C, resources: R) -> (r: Self)
        ensures
            r.entity_storage() == entities,
            r.components_spec() == components,
            r.resources_spec() == resources,
    {
        WorldStorage { entities, components, resources }
    }
}

impl<C: Default, R: Default> Default for WorldStorage<C, R> {
    /// An empty world.
    fn default() -> (r: Self)
        ensures
            r.wf(),
            r.entity_storage().slots() =~= Seq::<Entity>::empty(),
            r.entity_storage().free_ids() =~= Seq::<u16>::empty(),
    {
        WorldStorage {
            entities: EntityStorage::new(),
            components: C::default(),
            resources: R::default(),
        }
    }
}

} // verus!
