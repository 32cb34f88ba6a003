//! Entity allocation with id recycling.
//!
//! An [`EntityStorage`] hands out versioned ids. Despawned ids are kept on a
//! free list threaded through the slot array itself: the `id` field of a
//! despawned slot temporarily stores the next free id, and is restored when
//! the slot is spawned again with a bumped version.

use vstd::prelude::*;

verus! {

/// Width of entity ids and versions.
pub type IdSize = u16;

/// Unique world object identifier.
#[derive(Clone, Copy, Debug, Default, Hash, Eq, PartialEq, Structural)]
pub struct Entity {
    pub id: IdSize,
    pub version: IdSize,
}

/// Whether `recycled` can be the free list of an allocator with `n`
/// slots: every id in range, none twice.
pub open spec fn valid_recycle_order(recycled: Seq<IdSize>, n: int) -> bool {
    &&& forall|j: int| 0 <= j < recycled.len() ==> (#[trigger] recycled[j]) < n
    &&& forall|j1: int, j2: int|
        0 <= j1 < j2 < recycled.len() ==> #[trigger] recycled[j1] != #[trigger] recycled[j2]
}

/// Spawns and despawns entities. Ids of despawned entities are recycled
/// in despawn order, with the version bumped so that stale handles can be
/// told apart from their successors.
pub struct EntityStorage {
    slots: Vec<Entity>,
    first_recycled: Option<IdSize>,
    last_recycled: Option<IdSize>,
    free: Ghost<Seq<IdSize>>,
}

impl EntityStorage {
    /// One slot per id ever spawned; despawned slots hold a bumped version.
    pub closed spec fn slots(&self) -> Seq<Entity> {
        self.slots@
    }

    /// Ids currently awaiting recycling, oldest despawn first.
    pub closed spec fn free_ids(&self) -> Seq<IdSize> {
        self.free@
    }

    pub open spec fn slot_count(&self) -> int {
        self.slots().len() as int
    }

    /// `e` was spawned and has not been despawned since.
    pub open spec fn alive(&self, e: Entity) -> bool {
        &&& e.id < self.slot_count()
        &&& !self.free_ids().contains(e.id)
        &&& self.slots()[e.id as int].version == e.version
    }

    /// A fresh spawn is possible: either an id waits on the free list or
    /// the id space is not exhausted.
    pub open spec fn can_spawn(&self) -> bool {
        self.free_ids().len() > 0 || self.slot_count() < 65536
    }

    /// The free list is threaded consistently through the slot array.
    pub closed spec fn links_wf(&self) -> bool {
        let free = self.free_ids();
        if free.len() == 0 {
            self.first_recycled is None && self.last_recycled is None
        } else {
            &&& self.first_recycled == Some(free[0])
            &&& self.last_recycled == Some(free[free.len() - 1])
            &&& forall|j: int|
                0 <= j < free.len() - 1 ==> self.slots()[#[trigger] free[j] as int].id == free[j + 1]
            &&& self.slots()[free[free.len() - 1] as int].id == free[free.len() - 1]
        }
    }

    pub open spec fn wf(&self) -> bool {
        let n = self.slot_count();
        let free = self.free_ids();
        &&& self.slots().len() <= 65536
        &&& forall|j: int| 0 <= j < free.len() ==> (#[trigger] free[j]) < n
        &&& forall|j1: int, j2: int|
            0 <= j1 < j2 < free.len() ==> #[trigger] free[j1] != #[trigger] free[j2]
        &&& forall|i: int|
            0 <= i < n && !free.contains(i as IdSize) ==> (#[trigger] self.slots()[i]).id == i
        &&& self.links_wf()
    }

    pub fn new() -> (r: EntityStorage)
        ensures
            r.wf(),
            r.slots() =~= Seq::<Entity>::empty(),
            r.free_ids() =~= Seq::<IdSize>::empty(),
    {
        EntityStorage {
            slots: Vec::new(),
            first_recycled: None,
            last_recycled: None,
            free: Ghost(Seq::empty()),
        }
    }

    /// Number of slots, alive or awaiting recycling.
    pub fn len(&self) -> (r: usize)
        ensures
            r == self.slot_count(),
    {
        self.slots.len()
    }

    /// Whether the slot of id `i` is on the free list: a free slot either
    /// links to the next free id or is the tail of the recycle list.
    fn slot_is_free(&self, i: IdSize) -> (r: bool)
        requires
            self.wf(),
            i < self.slot_count(),
        ensures
            r == self.free_ids().contains(i),
    {
        proof {
            self.lemma_free_physical(i as int);
        }
        if self.slots[i as usize].id != i {
            true
        } else {
            match self.last_recycled {
                Some(l) => l == i,
                None => false,
            }
        }
    }

    /// Under `wf`, freeness of a slot is visible in the slot array itself.
    proof fn lemma_free_physical(&self, i: int)
        requires
            self.wf(),
            0 <= i < self.slot_count(),
        ensures
            self.free_ids().contains(i as IdSize) <==> (self.slots()[i].id != i
                || self.last_recycled == Some(i as IdSize)),
    {
        let free = self.free_ids();
        if free.contains(i as IdSize) {
            let j = choose|j: int| 0 <= j < free.len() && free[j] == i as IdSize;
            if j < free.len() - 1 {
                assert(self.slots()[i].id == free[j + 1]);
                assert(free[j] != free[j + 1]);
            } else {
                assert(self.last_recycled == Some(i as IdSize));
            }
        } else {
            assert(self.slots()[i].id == i);
            if self.last_recycled == Some(i as IdSize) {
                assert(free.len() > 0);
                assert(free.contains(free[free.len() - 1]));
            }
        }
    }

    /// Checks whether a given entity is still a valid, live one. Unlike
    /// [`Self::is_alive`] this accepts ids that were never spawned.
    pub fn is_valid(&self, entity: &Entity) -> (r: bool)
        requires
            self.wf(),
        ensures
            r == self.alive(*entity),
    {
        let i = entity.id as usize;
        if i >= self.slots.len() {
            return false;
        }
        if self.slot_is_free(entity.id) {
            return false;
        }
        self.slots[i].version == entity.version
    }

    /// Checks whether a given entity is still a valid one.
    pub fn is_alive(&self, entity: Entity) -> (r: bool)
        requires
            self.wf(),
            entity.id < self.slot_count(),
        ensures
            r == self.alive(entity),
    {
        self.is_valid(&entity)
    }

    /// The live entities, in slot order.
    pub open spec fn live_seq(&self) -> Seq<Entity> {
        self.slots().filter(|e: Entity| !self.free_ids().contains(e.id))
    }

    /// Returns every live entity, in slot order.
    pub fn all(&self) -> (r: Vec<Entity>)
        requires
            self.wf(),
        ensures
            r@ == self.live_seq(),
    {
        let ghost pred = |e: Entity| !self.free_ids().contains(e.id);
        let mut r: Vec<Entity> = Vec::new();
        let mut i: usize = 0;
        proof {
            reveal_with_fuel(Seq::<_>::filter, 1);
            assert(self.slots().subrange(0, 0) =~= Seq::<Entity>::empty());
        }
        while i < self.slots.len()
            invariant
                self.wf(),
                0 <= i <= self.slot_count(),
                r@ == self.slots().subrange(0, i as int).filter(pred),
                pred == (|e: Entity| !self.free_ids().contains(e.id)),
            decreases self.slot_count() - i,
        {
            let e = self.slots[i];
            proof {
                // a free slot never stores a live id: it either links onward
                // to another free id or, at the tail of the list, holds its
                // own now-free id
                let free = self.free_ids();
                if free.contains(i as IdSize) && self.slots()[i as int].id != i {
                    let j = choose|j: int| 0 <= j < free.len() && free[j] == i as IdSize;
                    if j < free.len() - 1 {
                        assert(e.id == free[j + 1]);
                        assert(free.contains(free[j + 1]));
                    }
                }
            }
            if !self.slot_is_free(i as IdSize) {
                r.push(e);
            }
            proof {
                reveal_with_fuel(Seq::<_>::filter, 2);
                let prefix = self.slots().subrange(0, i + 1 as int);
                assert(prefix.drop_last() =~= self.slots().subrange(0, i as int));
                assert(prefix.last() == e);
            }
            i = i + 1;
        }
        proof {
            assert(self.slots().subrange(0, self.slot_count()) =~= self.slots());
        }
        r
    }

    /// The version of every slot, in slot order: what a snapshot of the
    /// allocator must carry besides the recycle order.
    pub fn slot_versions(&self) -> (r: Vec<IdSize>)
        ensures
            r@.len() == self.slot_count(),
            forall|i: int| 0 <= i < r@.len() ==> r@[i] == self.slots()[i].version,
    {
        let mut r: Vec<IdSize> = Vec::new();
        let mut i: usize = 0;
        while i < self.slots.len()
            invariant
                0 <= i <= self.slot_count(),
                r@.len() == i,
                forall|k: int| 0 <= k < i ==> r@[k] == self.slots()[k].version,
            decreases self.slot_count() - i,
        {
            r.push(self.slots[i].version);
            i = i + 1;
        }
        r
    }

    /// The ids awaiting recycling, oldest despawn first, read off the
    /// list threaded through the slots.
    pub fn recycled_ids(&self) -> (r: Vec<IdSize>)
        requires
            self.wf(),
        ensures
            r@ == self.free_ids(),
    {
        let free = Ghost(self.free_ids());
        let mut r: Vec<IdSize> = Vec::new();
        let mut cur = match self.first_recycled {
            None => {
                proof {
                    assert(r@ =~= self.free_ids());
                }
                return r;
            },
            Some(f0) => f0,
        };
        let ghost mut j: int = 0;
        loop
            invariant
                self.wf(),
                0 <= j < free@.len(),
                free@ == self.free_ids(),
                cur == free@[j],
                r@ =~= free@.subrange(0, j),
            decreases free@.len() - j,
        {
            r.push(cur);
            proof {
                assert(r@ =~= free@.subrange(0, j + 1));
            }
            let at_tail = match self.last_recycled {
                Some(l) => l == cur,
                None => false,
            };
            if at_tail {
                proof {
                    // the tail id appears once, so this is the last position
                    assert(free@[j] == free@[free@.len() - 1]);
                    if j < free@.len() - 1 {
                        assert(free@[j] != free@[free@.len() - 1]);
                    }
                    assert(r@ =~= free@);
                }
                return r;
            }
            cur = self.slots[cur as usize].id;
            proof {
                if j == free@.len() - 1 {
                    assert(self.last_recycled == Some(free@[j]));
                }
                j = j + 1;
            }
        }
    }

    /// Rebuilds an allocator from a snapshot: one version per slot, and
    /// the recycle order. Returns nothing when the data describes no
    /// allocator state: too many slots, a recycled id out of range, or
    /// an id recycled twice.
    pub fn restore(versions: Vec<IdSize>, recycled: Vec<IdSize>) -> (r: Option<EntityStorage>)
        ensures
            match r {
                Some(s) => {
                    &&& versions@.len() <= 65536
                    &&& valid_recycle_order(recycled@, versions@.len() as int)
                    &&& s.wf()
                    &&& s.slot_count() == versions@.len()
                    &&& (forall|i: int|
                        0 <= i < versions@.len() ==> s.slots()[i].version == versions@[i])
                    &&& s.free_ids() == recycled@
                },
                None => versions@.len() > 65536 || !valid_recycle_order(
                    recycled@,
                    versions@.len() as int,
                ),
            },
    {
        let n = versions.len();
        if n > 65536 {
            return None;
        }
        // check the recycle order: ids in range, none twice
        let mut seen: Vec<bool> = Vec::new();
        let mut i: usize = 0;
        while i < n
            invariant
                seen@.len() == i,
                0 <= i <= n,
                forall|k: int| 0 <= k < i ==> !seen@[k],
            decreases n - i,
        {
            seen.push(false);
            i = i + 1;
        }
        let mut v: usize = 0;
        while v < recycled.len()
            invariant
                seen@.len() == n,
                n == versions@.len(),
                n <= 65536,
                0 <= v <= recycled@.len(),
                forall|j: int| 0 <= j < v ==> (#[trigger] recycled@[j]) < n,
                forall|j1: int, j2: int|
                    0 <= j1 < j2 < v ==> #[trigger] recycled@[j1] != #[trigger] recycled@[j2],
                forall|id: int|
                    0 <= id < n ==> ((#[trigger] seen@[id]) <==> recycled@.subrange(
                        0,
                        v as int,
                    ).contains(id as IdSize)),
            decreases recycled@.len() - v,
        {
            let id = recycled[v];
            if id as usize >= n {
                return None;
            }
            if seen[id as usize] {
                proof {
                    let prefix = recycled@.subrange(0, v as int);
                    let j = choose|j: int| 0 <= j < prefix.len() && prefix[j] == id;
                    assert(recycled@[j] == id);
                }
                return None;
            }
            let ghost seen0 = seen@;
            seen[id as usize] = true;
            proof {
                let prefix = recycled@.subrange(0, v as int);
                let grown = recycled@.subrange(0, v + 1 as int);
                assert(grown.drop_last() =~= prefix);
                assert(seen@ =~= seen0.update(id as int, true));
                assert forall|id2: int| 0 <= id2 < n implies ((#[trigger] seen@[id2])
                    <==> grown.contains(id2 as IdSize)) by {
                    if id2 == id as int {
                        assert(grown[v as int] == id);
                        assert(grown.contains(id as IdSize));
                    } else {
                        assert(seen@[id2] == seen0[id2]);
                        assert(seen0[id2] <==> prefix.contains(id2 as IdSize));
                        if grown.contains(id2 as IdSize) {
                            let j = choose|j: int|
                                0 <= j < grown.len() && grown[j] == id2 as IdSize;
                            assert(grown[grown.len() - 1] == recycled@[v as int]);
                            assert(id2 == (id2 as IdSize) as int);
                            assert(j < grown.len() - 1);
                            assert(prefix[j] == id2 as IdSize);
                            assert(prefix.contains(id2 as IdSize));
                        }
                        if prefix.contains(id2 as IdSize) {
                            let j = choose|j: int|
                                0 <= j < prefix.len() && prefix[j] == id2 as IdSize;
                            assert(grown[j] == id2 as IdSize);
                            assert(grown.contains(id2 as IdSize));
                        }
                    }
                }
                assert forall|j1: int, j2: int| 0 <= j1 < j2 < v + 1 implies #[trigger] recycled@[
                j1] != #[trigger] recycled@[j2] by {
                    if j2 == v as int {
                        let prefix2 = recycled@.subrange(0, v as int);
                        assert(prefix2[j1] == recycled@[j1]);
                        assert(prefix2.contains(recycled@[j1]));
                    }
                }
            }
            v = v + 1;
        }
        proof {
            assert(valid_recycle_order(recycled@, n as int));
        }
        // one slot per id, each holding its own id and the given version
        let mut slots: Vec<Entity> = Vec::new();
        let mut i2: usize = 0;
        while i2 < n
            invariant
                n == versions@.len(),
                slots@.len() == i2,
                0 <= i2 <= n,
                forall|k: int|
                    0 <= k < i2 ==> #[trigger] slots@[k] == (Entity {
                        id: k as IdSize,
                        version: versions@[k],
                    }),
            decreases n - i2,
        {
            slots.push(Entity { id: i2 as IdSize, version: versions[i2] });
            i2 = i2 + 1;
        }
        // thread the recycle order through the slots
        let links = if recycled.len() == 0 {
            0
        } else {
            recycled.len() - 1
        };
        let mut j: usize = 0;
        while j < links
            invariant
                n == versions@.len(),
                slots@.len() == n,
                valid_recycle_order(recycled@, n as int),
                links as int == (if recycled@.len() == 0 {
                    0int
                } else {
                    recycled@.len() - 1
                }),
                0 <= j <= links,
                forall|k: int|
                    0 <= k < n && (forall|jj: int| 0 <= jj < j ==> recycled@[jj] != k as IdSize)
                        ==> #[trigger] slots@[k] == (Entity {
                        id: k as IdSize,
                        version: versions@[k],
                    }),
                forall|jj: int|
                    0 <= jj < j ==> #[trigger] slots@[recycled@[jj] as int] == (Entity {
                        id: recycled@[jj + 1],
                        version: versions@[recycled@[jj] as int],
                    }),
            decreases links - j,
        {
            let src = recycled[j] as usize;
            proof {
                assert forall|jj: int| 0 <= jj < j implies recycled@[jj] != recycled@[j as int] by {}
            }
            let ver = slots[src].version;
            slots[src] = Entity { id: recycled[j + 1], version: ver };
            proof {
                assert forall|jj: int|
                    0 <= jj < j + 1 implies #[trigger] slots@[recycled@[jj] as int] == (Entity {
                        id: recycled@[jj + 1],
                        version: versions@[recycled@[jj] as int],
                    }) by {
                    if jj < j as int {
                        assert(recycled@[jj] != recycled@[j as int]);
                    }
                }
            }
            j = j + 1;
        }
        let first_recycled = if recycled.len() > 0 {
            Some(recycled[0])
        } else {
            None
        };
        let last_recycled = if recycled.len() > 0 {
            Some(recycled[recycled.len() - 1])
        } else {
            None
        };
        let ghost free = recycled@;
        let rebuilt = EntityStorage { slots, first_recycled, last_recycled, free: Ghost(free) };
        proof {
            let m = free.len() as int;
            assert forall|k: int|
                0 <= k < n && !free.contains(k as IdSize) implies (
            #[trigger] rebuilt.slots()[k]).id == k by {
                assert forall|jj: int| 0 <= jj < m - 1 implies recycled@[jj] != k as IdSize by {
                    assert(free[jj] == recycled@[jj]);
                }
            }
            if m > 0 {
                assert forall|jj: int| 0 <= jj < m - 1 implies recycled@[jj] != free[m - 1] by {}
                assert(rebuilt.slots()[free[m - 1] as int] == (Entity {
                    id: free[m - 1],
                    version: versions@[free[m - 1] as int],
                }));
            }
            assert(rebuilt.wf());
        }
        Some(rebuilt)
    }

    /// Spawns a fresh entity, with version 0.
    pub fn spawn_new(&mut self) -> (r: Entity)
        requires
            old(self).wf(),
            old(self).slot_count() < 65536,
        ensures
            final(self).wf(),
            r.id == old(self).slot_count(),
            r.version == 0,
            final(self).slots() =~= old(self).slots().push(r),
            final(self).free_ids() == old(self).free_ids(),
            final(self).alive(r),
    {
        let id = self.slots.len();
        let entity = Entity { id: id as IdSize, version: 0 };
        self.slots.push(entity);
        proof {
            let free = self.free_ids();
            assert forall|i: int|
                0 <= i < self.slot_count() && !free.contains(i as IdSize) implies (
            #[trigger] self.slots()[i]).id == i by {
                if i < old(self).slot_count() {
                    assert(old(self).slots()[i].id == i);
                }
            }
            if free.contains(entity.id) {
                let j = choose|j: int| 0 <= j < free.len() && free[j] == entity.id;
                assert(free[j] < old(self).slot_count());
            }
        }
        entity
    }

    /// Recycles the oldest despawned entity, restoring its id and keeping
    /// the version that its despawn assigned.
    fn recycle(&mut self) -> (r: Option<Entity>)
        requires
            old(self).wf(),
        ensures
            final(self).wf(),
            old(self).free_ids().len() == 0 ==> r is None && *final(self) == *old(self),
            old(self).free_ids().len() > 0 ==> {
                let f0 = old(self).free_ids()[0];
                let e = Entity { id: f0, version: old(self).slots()[f0 as int].version };
                &&& r == Some(e)
                &&& final(self).slots() =~= old(self).slots().update(f0 as int, e)
                &&& final(self).free_ids() == old(self).free_ids().drop_first()
                &&& final(self).alive(e)
            },
    {
        let f0 = match self.first_recycled {
            None => {
                return None;
            },
            Some(f0) => f0,
        };
        let is_last = match self.last_recycled {
            Some(l) => l == f0,
            None => false,
        };
        if is_last {
            // no more recycled entities
            self.first_recycled = None;
            self.last_recycled = None;
        } else {
            // the next recycled id was temporarily stored in the slot's id
            self.first_recycled = Some(self.slots[f0 as usize].id);
        }
        // restore the id to the valid one
        let version = self.slots[f0 as usize].version;
        let entity = Entity { id: f0, version };
        self.slots[f0 as usize] = entity;
        proof {
            let ghost old_free = self.free@;
            self.free = Ghost(self.free@.drop_first());
            let free = self.free_ids();
            assert(forall|j: int| 0 <= j < free.len() ==> free[j] == old_free[j + 1]);
            if old_free.len() > 1 {
                assert(free[0] == old_free[1]);
                assert(free[free.len() - 1] == old_free[old_free.len() - 1]);
            }
            assert forall|i: int|
                0 <= i < self.slot_count() && !free.contains(i as IdSize) implies (
            #[trigger] self.slots()[i]).id == i by {
                if i != f0 && old_free.contains(i as IdSize) {
                    let j = choose|j: int| 0 <= j < old_free.len() && old_free[j] == i as IdSize;
                    assert(j > 0);
                    assert(free[j - 1] == i as IdSize);
                }
            }
            if free.contains(entity.id) {
                let j = choose|j: int| 0 <= j < free.len() && free[j] == entity.id;
                assert(old_free[j + 1] == old_free[0]);
            }
        }
        Some(entity)
    }

    /// Spawns an entity, preferring a recycled id over a fresh one.
    pub fn spawn(&mut self) -> (r: Entity)
        requires
            old(self).wf(),
            old(self).can_spawn(),
        ensures
            final(self).wf(),
            final(self).alive(r),
            old(self).free_ids().len() > 0 ==> {
                let f0 = old(self).free_ids()[0];
                &&& r == Entity { id: f0, version: old(self).slots()[f0 as int].version }
                &&& final(self).slots() =~= old(self).slots().update(f0 as int, r)
                &&& final(self).free_ids() == old(self).free_ids().drop_first()
            },
            old(self).free_ids().len() == 0 ==> {
                &&& r == Entity { id: old(self).slot_count() as IdSize, version: 0 }
                &&& final(self).slots() =~= old(self).slots().push(r)
                &&& final(self).free_ids() == old(self).free_ids()
            },
    {
        match self.recycle() {
            Some(entity) => entity,
            None => self.spawn_new(),
        }
    }

    /// Despawns a live entity: bumps the slot's version and appends the id
    /// to the free list. Stale or unknown entities are ignored, so a handle
    /// cannot despawn a slot twice.
    pub fn despawn(&mut self, entity: Entity)
        requires
            old(self).wf(),
            entity.id < old(self).slot_count(),
            old(self).alive(entity) ==> entity.version < 65535,
        ensures
            final(self).wf(),
            !old(self).alive(entity) ==> *final(self) == *old(self),
            old(self).alive(entity) ==> {
                let linked = if old(self).free_ids().len() > 0 {
                    let last = old(self).free_ids().last();
                    old(self).slots().update(
                        last as int,
                        Entity { id: entity.id, version: old(self).slots()[last as int].version },
                    )
                } else {
                    old(self).slots()
                };
                &&& final(self).slots() =~= linked.update(
                    entity.id as int,
                    Entity { id: entity.id, version: (entity.version + 1) as IdSize },
                )
                &&& final(self).free_ids() == old(self).free_ids().push(entity.id)
            },
    {
        if !self.is_valid(&entity) {
            // already despawned, or never spawned here
            return ;
        }
        let i = entity.id as usize;
        let bumped = Entity { id: entity.id, version: self.slots[i].version + 1 };
        match self.last_recycled {
            Some(last) => {
                // link the previous tail of the recycle list to this id
                let linked = Entity { id: entity.id, version: self.slots[last as usize].version };
                self.slots[last as usize] = linked;
            },
            None => {
                // this is the first entity on the recycle list
                self.first_recycled = Some(entity.id);
            },
        }
        self.slots[i] = bumped;
        self.last_recycled = Some(entity.id);
        proof {
            let ghost old_free = self.free@;
            self.free = Ghost(self.free@.push(entity.id));
            let free = self.free_ids();
            assert(forall|j: int| 0 <= j < old_free.len() ==> free[j] == old_free[j]);
            assert(free[free.len() - 1] == entity.id);
            assert forall|j1: int, j2: int| 0 <= j1 < j2 < free.len() implies #[trigger] free[j1]
                != #[trigger] free[j2] by {
                if j2 == free.len() - 1 {
                    assert(old_free.contains(old_free[j1]));
                }
            }
            assert forall|i2: int|
                0 <= i2 < self.slot_count() && !free.contains(i2 as IdSize) implies (
            #[trigger] self.slots()[i2]).id == i2 by {
                if !old_free.contains(i2 as IdSize) {
                    assert(old(self).slots()[i2].id == i2);
                } else {
                    let j = choose|j: int| 0 <= j < old_free.len() && old_free[j] == i2 as IdSize;
                    assert(free[j] == i2 as IdSize);
                }
            }
        }
    }
}


impl Default for EntityStorage {
    /// An empty storage.
    fn default() -> (r: Self)
        ensures
            r.wf(),
            r.slots() =~= Seq::<Entity>::empty(),
            r.free_ids() =~= Seq::<IdSize>::empty(),
    {
        EntityStorage::new()
    }
}

} // verus!
