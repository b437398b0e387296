//! Entity handles and the entity directory.
//!
//! An entity is a stable handle made of a 32-bit id and a 32-bit
//! generation. The directory maps each id to the generation it currently
//! carries and, while the entity is alive, to the archetype and row that
//! store its components. Freed ids are recycled through a free list; the
//! stored generation grows on every despawn, so a handle whose generation
//! no longer matches the directory is stale.

use vstd::prelude::*;

verus! {

/// A stable entity handle: an id plus the generation it was issued with.
#[derive(Clone, Copy, PartialEq, Eq, Structural, Debug, Hash)]
pub struct Entity {
    /// Index into the directory.
    pub id: u32,
    /// Generation the id carried when this handle was issued.
    pub generation: u32,
}

/// Error returned by operations handed a stale or never-issued handle.
#[derive(Clone, Copy, PartialEq, Eq, Structural, Debug)]
pub struct NoSuchEntity;

/// Where a live entity's components are stored.
#[derive(Clone, Copy, PartialEq, Eq, Structural, Debug)]
pub struct Location {
    /// Index of the archetype holding the entity.
    pub archetype: usize,
    /// Row of the entity inside that archetype.
    pub row: usize,
}

/// Directory entry for one id.
#[derive(Clone, Copy)]
pub struct EntityMeta {
    /// Generation currently carried by the id; grows on every despawn.
    pub generation: u32,
    /// Storage location while the id is alive, `None` while it is free.
    pub location: Option<Location>,
}

/// The entity directory: per-id metadata plus a stack of recyclable ids.
pub struct Entities {
    /// Directory entry for every id ever issued.
    pub meta: Vec<EntityMeta>,
    /// Ids free for reuse.
    pub free: Vec<u32>,
}

impl Entities {
    /// Structural invariant: every free-listed id is in range, currently
    /// without a location, listed once, and has room left for a generation
    /// bump on reuse.
    pub open spec fn wf(self) -> bool {
        &&& self.meta@.len() <= u32::MAX as nat
        &&& forall|i: int|
            0 <= i < self.free@.len() ==> (#[trigger] self.free@[i]) < self.meta@.len()
        &&& forall|i: int|
            0 <= i < self.free@.len() ==> (#[trigger] self.meta@[self.free@[i] as int]).location
                is None
        &&& forall|i: int|
            0 <= i < self.free@.len() ==> (#[trigger] self.meta@[self.free@[i] as int]).generation
                < u32::MAX
        &&& forall|i: int, j: int|
            0 <= i < j < self.free@.len() ==> self.free@[i] != self.free@[j]
    }

    /// Whether `e` is a live handle: its id is known, its generation is
    /// current, and the id has a storage location.
    pub open spec fn live(self, e: Entity) -> bool {
        &&& (e.id as int) < self.meta@.len()
        &&& self.meta@[e.id as int].generation == e.generation
        &&& self.meta@[e.id as int].location is Some
    }

    /// The storage location of a live handle.
    pub open spec fn loc_of(self, e: Entity) -> Location {
        self.meta@[e.id as int].location.unwrap()
    }

    /// Generations never shrink and issued ids never disappear.
    pub open spec fn gens_mono(pre: Entities, post: Entities) -> bool {
        &&& post.meta@.len() >= pre.meta@.len()
        &&& forall|i: int|
            0 <= i < pre.meta@.len() ==> (#[trigger] post.meta@[i]).generation
                >= pre.meta@[i].generation
    }

    /// An empty directory.
    pub fn new() -> (r: Entities)
        ensures
            r.wf(),
            r.meta@.len() == 0,
            r.free@.len() == 0,
    {
        Entities { meta: Vec::new(), free: Vec::new() }
    }

    /// Issue a fresh handle located at `loc`, recycling a freed id when one
    /// is available.
    pub fn allocate(&mut self, loc: Location) -> (r: Entity)
        requires
            old(self).wf(),
            old(self).meta@.len() < u32::MAX as nat,
        ensures
            final(self).wf(),
            final(self).live(r),
            final(self).loc_of(r) == loc,
            !old(self).live(r),
            (r.id as int) < final(self).meta@.len(),
            final(self).meta@.len() >= old(self).meta@.len(),
            forall|i: int|
                0 <= i < old(self).meta@.len() && i != r.id as int ==> #[trigger] final(self).meta@[i]
                    == old(self).meta@[i],
            final(self).meta@.len() <= old(self).meta@.len() + 1,
            old(self).meta@[r.id as int].location is None || (r.id as int) >= old(
                self,
            ).meta@.len(),
            final(self).meta@.len() > old(self).meta@.len() ==> r.id as int == old(
                self,
            ).meta@.len(),
            Entities::gens_mono(*old(self), *final(self)),
    {
        match self.free.pop() {
            Some(id) => {
                let g = self.meta[id as usize].generation;
                self.meta[id as usize] = EntityMeta { generation: g + 1, location: Some(loc) };
                proof {
                    let n = old(self).free@.len() as int;
                    assert(old(self).free@[n - 1] == id);
                    assert forall|i: int| 0 <= i < self.free@.len() implies (
                    #[trigger] self.meta@[self.free@[i] as int]).location is None && self.meta@[
                        self.free@[i] as int].generation < u32::MAX by {
                        assert(old(self).free@[i] == self.free@[i]);
                        assert(old(self).free@[i] != old(self).free@[n - 1]);
                    }
                }
                Entity { id, generation: g + 1 }
            }
            None => {
                let id = self.meta.len() as u32;
                self.meta.push(EntityMeta { generation: 0, location: Some(loc) });
                Entity { id, generation: 0 }
            }
        }
    }

    /// Look a handle up: its location while live, `None` when stale or
    /// unknown.
    pub fn get(&self, e: Entity) -> (r: Option<Location>)
        ensures
            r == if self.live(e) {
                Some(self.loc_of(e))
            } else {
                None::<Location>
            },
    {
        if (e.id as usize) < self.meta.len() {
            let m = self.meta[e.id as usize];
            if m.generation == e.generation {
                m.location
            } else {
                None
            }
        } else {
            None
        }
    }

    /// Move a live id to a new storage location, as when a row is swapped
    /// or an entity changes archetype.
    pub fn set_location(&mut self, id: u32, loc: Location)
        requires
            old(self).wf(),
            (id as int) < old(self).meta@.len(),
            old(self).meta@[id as int].location is Some,
        ensures
            final(self).wf(),
            final(self).free == old(self).free,
            final(self).meta@.len() == old(self).meta@.len(),
            forall|i: int|
                0 <= i < final(self).meta@.len() && i != id as int ==> #[trigger] final(self).meta@[i] == old(
                    self,
                ).meta@[i],
            final(self).meta@[id as int].generation == old(self).meta@[id as int].generation,
            final(self).meta@[id as int].location == Some(loc),
            Entities::gens_mono(*old(self), *final(self)),
    {
        let g = self.meta[id as usize].generation;
        self.meta[id as usize] = EntityMeta { generation: g, location: Some(loc) };
        proof {
            assert forall|i: int| 0 <= i < self.free@.len() implies (#[trigger] self.meta@[
                self.free@[i] as int]).location is None && self.meta@[self.free@[i] as int].generation
                < u32::MAX by {
                assert(old(self).meta@[self.free@[i] as int].location is None);
                assert(self.free@[i] != id);
            }
        }
    }

    /// Invalidate a live handle: bump the stored generation and recycle the
    /// id unless its generation is exhausted.
    pub fn free(&mut self, e: Entity)
        requires
            old(self).wf(),
            old(self).live(e),
        ensures
            final(self).wf(),
            final(self).meta@.len() == old(self).meta@.len(),
            forall|i: int|
                0 <= i < final(self).meta@.len() && i != e.id as int ==> #[trigger] final(self).meta@[i] == old(
                    self,
                ).meta@[i],
            final(self).meta@[e.id as int].location is None,
            final(self).meta@[e.id as int].generation >= old(self).meta@[e.id as int].generation,
            Entities::gens_mono(*old(self), *final(self)),
    {
        let g = self.meta[e.id as usize].generation;
        let g2 = if g < u32::MAX - 1 {
            g + 1
        } else {
            g
        };
        self.meta[e.id as usize] = EntityMeta { generation: g2, location: None };
        proof {
            assert forall|i: int| 0 <= i < self.free@.len() implies self.free@[i] != e.id by {
                assert(old(self).meta@[self.free@[i] as int].location is None);
            }
        }
        if g < u32::MAX - 1 {
            self.free.push(e.id);
        }
    }
}

} // verus!
