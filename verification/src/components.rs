//! Sparse-set component storage.
//!
//! A [`ComponentStorage`] keeps one component value per entity. The values
//! sit densely packed next to the entities that own them, while a sparse
//! array maps entity ids to dense positions, so lookup is constant time and
//! iteration touches only entities that actually have the component.

use crate::entity::Entity;
use crate::entity::IdSize;
use vstd::prelude::*;

verus! {

/// Marks an empty cell of the sparse array.
pub const TOMBSTONE: IdSize = 65535;

/// Base trait for the `components` world field. Handles component cleanup
/// after an entity is despawned from the world. The trait offers no
/// name-based storage lookup: hosts that want one keep their own map from
/// names to storages.
pub trait ComponentSet {
    /// The entity currently owns some component in this set.
    spec fn owns(&self, entity: Entity) -> bool;

    /// Remove all the entity's components, leaving every other entity's
    /// holdings as they were.
    fn remove_all_components(&mut self, entity: Entity)
        ensures
            !final(self).owns(entity),
            forall|e2: Entity| e2 != entity ==> final(self).owns(e2) == old(self).owns(e2),
    ;
}

/// Component storage based on a sparse set data structure.
pub struct ComponentStorage<T> {
    dense: Vec<Entity>,
    sparse: Vec<IdSize>,
    values: Vec<T>,
}

impl<T> ComponentStorage<T> {
    /// The entities holding a component, in dense storage order.
    pub closed spec fn entities_seq(&self) -> Seq<Entity> {
        self.dense@
    }

    /// The component values, aligned with [`Self::entities_seq`].
    pub closed spec fn values_seq(&self) -> Seq<T> {
        self.values@
    }

    /// The sparse array has a live cell for `e.id`.
    pub closed spec fn slot_occupied(&self, e: Entity) -> bool {
        e.id < self.sparse@.len() && self.sparse@[e.id as int] != TOMBSTONE
    }

    /// Dense position of the component owned by `e`.
    pub closed spec fn index_of(&self, e: Entity) -> int {
        self.sparse@[e.id as int] as int
    }

    /// `e` currently owns a component here.
    pub closed spec fn has(&self, e: Entity) -> bool {
        self.slot_occupied(e) && self.entities_seq()[self.index_of(e)] == e
    }

    /// The component value owned by `e`; meaningful only when `has(e)`.
    pub open spec fn value_at(&self, e: Entity) -> T {
        self.values_seq()[self.index_of(e)]
    }

    pub closed spec fn wf(&self) -> bool {
        &&& self.values@.len() == self.dense@.len()
        &&& self.dense@.len() < 65535
        &&& forall|k: int|
            0 <= k < self.dense@.len() ==> (#[trigger] self.dense@[k]).id < self.sparse@.len()
                && self.sparse@[self.dense@[k].id as int] == k as IdSize
        &&& forall|id: int|
            0 <= id < self.sparse@.len() && (#[trigger] self.sparse@[id]) != TOMBSTONE ==> (
            self.sparse@[id] < self.dense@.len() && self.dense@[self.sparse@[id] as int].id == id)
    }

    /// A held component sits inside the dense storage: its position is a
    /// valid index of [`Self::entities_seq`] and [`Self::values_seq`].
    pub proof fn lemma_index_in_range(&self, e: Entity)
        requires
            self.wf(),
            self.has(e),
        ensures
            0 <= self.index_of(e) < self.entities_seq().len(),
            self.entities_seq()[self.index_of(e)] == e,
    {
    }

    /// Two dense entries never share an id.
    pub proof fn lemma_distinct_ids(&self, k1: int, k2: int)
        requires
            self.wf(),
            0 <= k1 < self.entities_seq().len(),
            0 <= k2 < self.entities_seq().len(),
            self.entities_seq()[k1].id == self.entities_seq()[k2].id,
        ensures
            k1 == k2,
    {
        assert(self.sparse@[self.dense@[k1].id as int] == k1 as IdSize);
        assert(self.sparse@[self.dense@[k2].id as int] == k2 as IdSize);
    }

    /// Membership in the dense list coincides with `has`.
    pub proof fn lemma_has_is_membership(&self, e: Entity)
        requires
            self.wf(),
        ensures
            self.has(e) <==> self.entities_seq().contains(e),
    {
        if self.entities_seq().contains(e) {
            let k = choose|k: int|
                0 <= k < self.entities_seq().len() && self.entities_seq()[k] == e;
            assert(self.sparse@[self.dense@[k].id as int] == k as IdSize);
        }
        if self.has(e) {
            assert(self.entities_seq()[self.index_of(e)] == e);
        }
    }

    /// Dense position of the component owned by `entity`, if any.
    pub fn get_dense_index(&self, entity: &Entity) -> (r: Option<usize>)
        requires
            self.wf(),
        ensures
            self.has(*entity) ==> r == Some(self.index_of(*entity) as usize),
            !self.has(*entity) ==> r is None,
    {
        let id = entity.id as usize;
        if id >= self.sparse.len() {
            return None;
        }
        let k = self.sparse[id];
        if k == TOMBSTONE {
            return None;
        }
        let ke = self.dense[k as usize];
        if ke.id == entity.id && ke.version == entity.version {
            Some(k as usize)
        } else {
            None
        }
    }

    pub fn get(&self, entity: &Entity) -> (r: Option<&T>)
        requires
            self.wf(),
        ensures
            match r {
                Some(v) => self.has(*entity) && *v == self.value_at(*entity),
                None => !self.has(*entity),
            },
    {
        match self.get_dense_index(entity) {
            Some(k) => Some(&self.values[k]),
            None => None,
        }
    }

    pub fn get_mut(&mut self, entity: &Entity) -> (r: Option<&mut T>)
        requires
            old(self).wf(),
        ensures
            match r {
                Some(v) => {
                    &&& old(self).has(*entity)
                    &&& *v == old(self).value_at(*entity)
                    &&& final(self).wf()
                    &&& final(self).entities_seq() == old(self).entities_seq()
                    &&& final(self).values_seq() =~= old(self).values_seq().update(
                        old(self).index_of(*entity),
                        *final(v),
                    )
                    &&& forall|e2: Entity| final(self).has(e2) == old(self).has(e2)
                    &&& forall|e2: Entity|
                        old(self).has(e2) && e2.id != entity.id ==> final(self).value_at(e2)
                            == old(self).value_at(e2)
                    &&& final(self).value_at(*entity) == *final(v)
                },
                None => !old(self).has(*entity) && *final(self) == *old(self),
            },
    {
        let k = match self.get_dense_index(entity) {
            Some(k) => k,
            None => {
                return None;
            },
        };
        proof {
            assert forall|e2: Entity| old(self).has(e2) && e2.id != entity.id implies old(self).index_of(e2) != old(self).index_of(*entity) by {
                assert(old(self).dense@[old(self).index_of(e2)] == e2);
                assert(old(self).dense@[old(self).index_of(*entity)] == *entity);
            }
        }
        Some(&mut self.values[k])
    }

    /// Return currently stored entities, in dense storage order.
    pub fn entities(&self) -> (r: Vec<Entity>)
        requires
            self.wf(),
        ensures
            r@ == self.entities_seq(),
    {
        let mut r: Vec<Entity> = Vec::new();
        let mut k: usize = 0;
        while k < self.dense.len()
            invariant
                0 <= k <= self.dense@.len(),
                r@ == self.dense@.subrange(0, k as int),
            decreases self.dense@.len() - k,
        {
            r.push(self.dense[k]);
            proof {
                assert(r@ =~= self.dense@.subrange(0, k + 1 as int));
            }
            k = k + 1;
        }
        proof {
            assert(r@ =~= self.dense@);
        }
        r
    }

    /// Insert a new component for the entity; overwrite if the entity's id
    /// already owns one. The overwrite also replaces the stored entity, so
    /// a recycled id takes over its predecessor's cell.
    pub fn insert(&mut self, entity: Entity, value: T)
        requires
            old(self).wf(),
            old(self).slot_occupied(entity) || old(self).entities_seq().len() + 1 < 65535,
        ensures
            final(self).wf(),
            old(self).slot_occupied(entity) ==> {
                &&& final(self).entities_seq() =~= old(self).entities_seq().update(
                    old(self).index_of(entity),
                    entity,
                )
                &&& final(self).values_seq() =~= old(self).values_seq().update(
                    old(self).index_of(entity),
                    value,
                )
            },
            !old(self).slot_occupied(entity) ==> {
                &&& final(self).entities_seq() =~= old(self).entities_seq().push(entity)
                &&& final(self).values_seq() =~= old(self).values_seq().push(value)
            },
            forall|e2: Entity|
                final(self).has(e2) <==> (e2 == entity || (old(self).has(e2) && e2.id
                    != entity.id)),
            final(self).value_at(entity) == value,
            forall|e2: Entity|
                old(self).has(e2) && e2.id != entity.id ==> final(self).value_at(e2) == old(self).value_at(e2),
    {
        let id = entity.id as usize;
        if id < self.sparse.len() && self.sparse[id] != TOMBSTONE {
            // replacement: the id keeps its dense cell
            let k = self.sparse[id] as usize;
            self.dense[k] = entity;
            self.values[k] = value;
            proof {
                assert(old(self).dense@[k as int].id == entity.id);
                assert forall|e2: Entity| old(self).has(e2) && e2.id != entity.id implies final(self).has(e2) && final(self).value_at(e2) == old(self).value_at(e2) by {
                    assert(old(self).index_of(e2) != k as int);
                }
                assert forall|e2: Entity| #[trigger] final(self).has(e2) implies e2 == entity || (
                old(self).has(e2) && e2.id != entity.id) by {
                    if final(self).index_of(e2) != k as int {
                        assert(old(self).dense@[final(self).index_of(e2)] == e2);
                    }
                }
            }
            return ;
        }
        if id >= self.sparse.len() {
            // fill empty cells with tombstones
            let mut grown = self.sparse.len();
            while grown < id + 1
                invariant
                    self.sparse@.len() == grown,
                    old(self).sparse@.len() <= grown <= id + 1,
                    id == entity.id,
                    self.dense@ == old(self).dense@,
                    self.values@ == old(self).values@,
                    self.sparse@ =~= old(self).sparse@ + Seq::new(
                        (grown - old(self).sparse@.len()) as nat,
                        |j: int| TOMBSTONE,
                    ),
                decreases id + 1 - grown,
            {
                self.sparse.push(TOMBSTONE);
                grown = grown + 1;
            }
        }
        // the sparse cell points at the end of the dense array, where the
        // entity and its value are appended in lockstep
        let k = self.dense.len();
        self.sparse[id] = k as IdSize;
        self.dense.push(entity);
        self.values.push(value);
        proof {
            // the grown sparse cells beyond the old length are all tombstones,
            // so no old dense entry pointed through them
            assert forall|k2: int| 0 <= k2 < old(self).dense@.len() implies (
            #[trigger] old(self).dense@[k2]).id != entity.id by {
                if old(self).dense@[k2].id == entity.id {
                    assert(old(self).sparse@[entity.id as int] == k2 as IdSize);
                }
            }
            assert forall|e2: Entity| old(self).has(e2) && e2.id != entity.id implies final(self).has(e2) && final(self).value_at(e2) == old(self).value_at(e2) by {
                let k2 = old(self).index_of(e2);
                assert(0 <= k2 < old(self).dense@.len());
                assert(old(self).dense@[k2] == e2);
                assert(e2.id < old(self).sparse@.len());
                assert(final(self).sparse@[e2.id as int] == old(self).sparse@[e2.id as int]);
                assert(final(self).dense@[k2] == e2);
            }
            assert forall|e2: Entity| #[trigger] final(self).has(e2) implies e2 == entity || (
            old(self).has(e2) && e2.id != entity.id) by {
                let k2 = final(self).index_of(e2);
                if k2 < old(self).dense@.len() {
                    assert(old(self).dense@[k2] == e2);
                }
            }
        }
    }

    /// Removes the component for a given entity, keeping the values densely
    /// packed by swapping the last cell into the vacated one.
    pub fn remove(&mut self, entity: Entity) -> (r: Option<T>)
        requires
            old(self).wf(),
        ensures
            final(self).wf(),
            !old(self).has(entity) ==> r is None && *final(self) == *old(self),
            old(self).has(entity) ==> {
                let k = old(self).index_of(entity);
                let last = old(self).entities_seq().len() - 1;
                &&& r == Some(old(self).value_at(entity))
                &&& final(self).entities_seq() =~= old(self).entities_seq().update(
                    k,
                    old(self).entities_seq()[last],
                ).drop_last()
                &&& final(self).values_seq() =~= old(self).values_seq().update(
                    k,
                    old(self).values_seq()[last],
                ).drop_last()
            },
            forall|e2: Entity| final(self).has(e2) <==> (old(self).has(e2) && e2 != entity),
            forall|e2: Entity|
                old(self).has(e2) && e2 != entity ==> final(self).value_at(e2) == old(self).value_at(e2),
    {
        let removed_idx = match self.get_dense_index(&entity) {
            Some(k) => k,
            None => {
                proof {
                    assert forall|e2: Entity| final(self).has(e2) <==> (old(self).has(e2) && e2
                        != entity) by {}
                }
                return None;
            },
        };
        let last_idx = self.dense.len() - 1;
        let swapped_id = self.dense[last_idx].id as usize;

        // swap the removed cell with the last one, then pop it
        let _ = self.dense.swap_remove(removed_idx);
        let removed = Some(self.values.swap_remove(removed_idx));

        // point the moved entity's sparse cell at its new home
        self.sparse[swapped_id] = removed_idx as IdSize;
        self.sparse[entity.id as usize] = TOMBSTONE;
        proof {
            let k = old(self).index_of(entity);
            let last = old(self).entities_seq().len() - 1;
            assert(old(self).dense@[k] == entity);
            assert(final(self).sparse@[entity.id as int] == TOMBSTONE);
            assert forall|e2: Entity|
                old(self).has(e2) && e2 != entity implies #[trigger] final(self).has(e2) && final(self).value_at(e2) == old(self).value_at(e2) by {
                let k2 = old(self).index_of(e2);
                if e2.id == entity.id {
                    old(self).lemma_distinct_ids(k2, k);
                    assert(false);
                } else if k2 == last {
                    // the moved entry: its sparse cell now names the vacated index
                    assert(e2.id == swapped_id);
                    assert(final(self).index_of(e2) == k);
                    assert(final(self).dense@[k] == e2);
                } else {
                    if e2.id == swapped_id as IdSize {
                        old(self).lemma_distinct_ids(k2, last);
                    }
                    assert(final(self).sparse@[e2.id as int] == old(self).sparse@[e2.id as int]);
                    assert(final(self).dense@[k2] == e2);
                }
            }
            assert forall|e2: Entity| #[trigger]
                final(self).has(e2) implies old(self).has(e2) && e2 != entity by {
                let k2 = final(self).index_of(e2);
                if k2 == k {
                    assert(e2 == old(self).dense@[last]);
                } else {
                    assert(e2 == old(self).dense@[k2]);
                }
                old(self).lemma_has_is_membership(e2);
                assert(old(self).entities_seq().contains(e2));
            }
        }
        removed
    }
}

impl<T> Default for ComponentStorage<T> {
    /// An empty storage.
    fn default() -> (r: Self)
        ensures
            r.wf(),
            r.entities_seq() =~= Seq::<Entity>::empty(),
            r.values_seq() =~= Seq::<T>::empty(),
            forall|e: Entity| !r.has(e),
    {
        ComponentStorage { dense: Vec::new(), sparse: Vec::new(), values: Vec::new() }
    }
}

} // verus!
