//! Queries over component storages.
//!
//! A query starts from the entity list of one storage and narrows it down:
//! [`filter_with`] keeps the entities that also own a component in another
//! storage, [`filter_without`] keeps those that do not. Chaining the two
//! expresses every `With`/`Without` combination.

use crate::components::ComponentStorage;
use crate::entity::Entity;
use vstd::prelude::*;

verus! {

/// Keeps the entities of `list`, in order, that own a component in `storage`.
pub fn filter_with<T>(list: &Vec<Entity>, storage: &ComponentStorage<T>) -> (r: Vec<Entity>)
    requires
        storage.wf(),
    ensures
        r@ == list@.filter(|e: Entity| storage.has(e)),
{
    let ghost pred = |e: Entity| storage.has(e);
    let mut r: Vec<Entity> = Vec::new();
    let mut i: usize = 0;
    proof {
        reveal_with_fuel(Seq::<_>::filter, 1);
        assert(list@.subrange(0, 0) =~= Seq::<Entity>::empty());
    }
    while i < list.len()
        invariant
            storage.wf(),
            0 <= i <= list@.len(),
            r@ == list@.subrange(0, i as int).filter(pred),
            pred == (|e: Entity| storage.has(e)),
        decreases list@.len() - i,
    {
        let e = list[i];
        let keep = match storage.get_dense_index(&e) {
            Some(_) => true,
            None => false,
        };
        if keep {
            r.push(e);
        }
        proof {
            reveal_with_fuel(Seq::<_>::filter, 2);
            let prefix = list@.subrange(0, i + 1 as int);
            assert(prefix.drop_last() =~= list@.subrange(0, i as int));
            assert(prefix.last() == e);
        }
        i = i + 1;
    }
    proof {
        assert(list@.subrange(0, list@.len() as int) =~= list@);
    }
    r
}

/// Keeps the entities of `list`, in order, that own no component in `storage`.
pub fn filter_without<T>(list: &Vec<Entity>, storage: &ComponentStorage<T>) -> (r: Vec<Entity>)
    requires
        storage.wf(),
    ensures
        r@ == list@.filter(|e: Entity| !storage.has(e)),
{
    let ghost pred = |e: Entity| !storage.has(e);
    let mut r: Vec<Entity> = Vec::new();
    let mut i: usize = 0;
    proof {
        reveal_with_fuel(Seq::<_>::filter, 1);
        assert(list@.subrange(0, 0) =~= Seq::<Entity>::empty());
    }
    while i < list.len()
        invariant
            storage.wf(),
            0 <= i <= list@.len(),
            r@ == list@.subrange(0, i as int).filter(pred),
            pred == (|e: Entity| !storage.has(e)),
        decreases list@.len() - i,
    {
        let e = list[i];
        let keep = match storage.get_dense_index(&e) {
            Some(_) => false,
            None => true,
        };
        if keep {
            r.push(e);
        }
        proof {
            reveal_with_fuel(Seq::<_>::filter, 2);
            let prefix = list@.subrange(0, i + 1 as int);
            assert(prefix.drop_last() =~= list@.subrange(0, i as int));
            assert(prefix.last() == e);
        }
        i = i + 1;
    }
    proof {
        assert(list@.subrange(0, list@.len() as int) =~= list@);
    }
    r
}

} // verus!
