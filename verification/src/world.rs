//! The world: archetypes, the entity directory, and the operations that
//! route entities between them.
//!
//! Spawning locates or creates the archetype for the bundle's signature,
//! appends a row, and records the location in the directory. Despawning
//! swap-removes the row and patches the directory entry of whichever
//! entity was moved into the hole. Inserting or removing components moves
//! the entity's row between archetypes.

use vstd::prelude::*;

use crate::archetype::Archetype;
use crate::bundle::Bundle;
use crate::entities::{Entities, Entity, Location, NoSuchEntity};
use crate::query::{item_of, matches_arch, ItemPart, Query, QueryBorrow};
use crate::types::{ids_of, index_of, sorted_types, TypeInfo};

verus! {

/// Failure of a component-level operation.
#[derive(Clone, Copy, PartialEq, Eq, Structural, Debug)]
pub enum ComponentError {
    /// The handle is stale or was never issued.
    NoSuchEntity,
    /// The entity is alive but has no component of the given type.
    MissingComponent(u64),
}

/// The component map stored in row `row` of archetype `a`: type id to
/// value, over exactly the archetype's signature.
pub open spec fn arch_row_map(a: Archetype, row: int) -> Map<u64, u64> {
    Map::new(|t: u64| a.has_spec(t), |t: u64| a.value_spec(t, row))
}

/// The component map described by a type list and one value per type.
pub open spec fn sig_values_map(types: Seq<TypeInfo>, vals: Seq<u64>) -> Map<u64, u64> {
    Map::new(
        |t: u64| ids_of(types).contains(t),
        |t: u64| vals[index_of(ids_of(types), t)],
    )
}

/// Rows with the same types and the same values carry the same component
/// map.
pub proof fn lemma_row_map_same(a1: Archetype, a2: Archetype, row: int)
    requires
        a1.wf(),
        a2.wf(),
        a2.types == a1.types,
        0 <= row < a1.len_spec(),
        row < a2.len_spec(),
        forall|c: int|
            0 <= c < a1.columns@.len() ==> (#[trigger] a2.columns@[c])@[row] == a1.columns@[c]@[row],
    ensures
        arch_row_map(a2, row) == arch_row_map(a1, row),
{
    assert forall|t: u64| a1.has_spec(t) implies a2.value_spec(t, row) == a1.value_spec(t, row) by {
        let c = a1.col_of(t);
        assert(0 <= c < a1.sig().len() && a1.sig()[c] == t);
    }
    assert(arch_row_map(a2, row) =~= arch_row_map(a1, row));
}

/// An entity-component-system world.
pub struct World {
    /// Every archetype ever created; archetypes are never destroyed.
    pub archetypes: Vec<Archetype>,
    /// The entity directory.
    pub entities: Entities,
    /// Bumped whenever a new archetype is created, so external caches can
    /// invalidate.
    pub generation: u64,
}

impl World {
    /// Structural invariant: the directory and the archetypes agree row
    /// for row, every archetype is well formed, and no two archetypes
    /// share a signature.
    pub open spec fn wf(self) -> bool {
        &&& self.entities.wf()
        &&& forall|a: int|
            0 <= a < self.archetypes@.len() ==> (#[trigger] self.archetypes@[a]).wf()
        &&& forall|i: int|
            #![trigger self.entities.meta@[i]]
            0 <= i < self.entities.meta@.len() && self.entities.meta@[i].location is Some ==> {
                let l = self.entities.meta@[i].location.unwrap();
                &&& (l.archetype as int) < self.archetypes@.len()
                &&& (l.row as int) < self.archetypes@[l.archetype as int].len_spec()
                &&& self.archetypes@[l.archetype as int].entities@[l.row as int] == i as u32
            }
        &&& forall|a: int, r: int|
            #![trigger self.archetypes@[a].entities@[r]]
            0 <= a < self.archetypes@.len() && 0 <= r < self.archetypes@[a].len_spec() ==> {
                let id = self.archetypes@[a].entities@[r];
                &&& (id as int) < self.entities.meta@.len()
                &&& self.entities.meta@[id as int].location == Some(
                    Location { archetype: a as usize, row: r as usize },
                )
            }
        &&& forall|a1: int, a2: int|
            #![trigger self.archetypes@[a1].sig(), self.archetypes@[a2].sig()]
            0 <= a1 < a2 < self.archetypes@.len() ==> self.archetypes@[a1].sig()
                != self.archetypes@[a2].sig()
    }

    /// Whether `e` is a live handle of this world.
    pub open spec fn live_spec(self, e: Entity) -> bool {
        self.entities.live(e)
    }

    /// Where a live entity's row is stored.
    pub open spec fn loc_spec(self, e: Entity) -> Location {
        self.entities.loc_of(e)
    }

    /// The components a live entity currently carries, as a map from type
    /// id to value.
    pub open spec fn components_of(self, e: Entity) -> Map<u64, u64> {
        arch_row_map(
            self.archetypes@[self.loc_spec(e).archetype as int],
            self.loc_spec(e).row as int,
        )
    }

    /// Every entity other than `e` keeps its liveness and its components.
    pub open spec fn others_preserved(pre: World, post: World, e: Entity) -> bool {
        forall|e2: Entity|
            #![trigger pre.live_spec(e2)]
            e2 != e ==> post.live_spec(e2) == pre.live_spec(e2) && (pre.live_spec(e2)
                ==> post.components_of(e2) == pre.components_of(e2))
    }

    /// A fresh world holding only the empty archetype and no entities.
    pub fn new() -> (r: World)
        ensures
            r.wf(),
            r.archetypes@.len() == 1,
            r.archetypes@[0].len_spec() == 0,
            r.entities.meta@.len() == 0,
            r.generation == 1,
            forall|e: Entity| !r.live_spec(e),
    {
        let empty = Archetype::new(Vec::new());
        let mut archetypes: Vec<Archetype> = Vec::new();
        archetypes.push(empty);
        World { archetypes, entities: Entities::new(), generation: 1 }
    }

    /// The archetype-creation counter.
    pub fn archetypes_generation(&self) -> (r: u64)
        ensures
            r == self.generation,
    {
        self.generation
    }

    /// Whether `e` refers to a live entity.
    pub fn contains(&self, e: Entity) -> (r: bool)
        ensures
            r == self.live_spec(e),
    {
        self.entities.get(e).is_some()
    }

    /// The storage location of `e`, while it is live.
    pub fn location(&self, e: Entity) -> (r: Option<Location>)
        ensures
            r == if self.live_spec(e) {
                Some(self.loc_spec(e))
            } else {
                None::<Location>
            },
    {
        self.entities.get(e)
    }

    /// A query borrow over this world's archetypes; no dynamic borrows
    /// are taken until iteration starts.
    pub fn query(&self, q: Query) -> (r: QueryBorrow)
        ensures
            r.query == q,
            !r.borrowed,
    {
        QueryBorrow::new(q)
    }

    /// Read the component of type `t` carried by `e`.
    pub fn get(&self, e: Entity, t: u64) -> (r: Result<u64, ComponentError>)
        requires
            self.wf(),
        ensures
            match r {
                Ok(v) => self.live_spec(e) && self.components_of(e).dom().contains(t) && v
                    == self.components_of(e)[t],
                Err(ComponentError::NoSuchEntity) => !self.live_spec(e),
                Err(ComponentError::MissingComponent(t2)) => t2 == t && self.live_spec(e)
                    && !self.components_of(e).dom().contains(t),
            },
    {
        match self.entities.get(e) {
            None => Err(ComponentError::NoSuchEntity),
            Some(loc) => {
                let a = &self.archetypes[loc.archetype];
                match a.find_col(t) {
                    None => Err(ComponentError::MissingComponent(t)),
                    Some(_) => Ok(a.get_value(t, loc.row)),
                }
            }
        }
    }

    /// Overwrite the component of type `t` carried by `e`: the verified
    /// counterpart of writing through an exclusive component reference.
    pub fn set(&mut self, e: Entity, t: u64, v: u64) -> (r: Result<(), ComponentError>)
        requires
            old(self).wf(),
        ensures
            final(self).wf(),
            match r {
                Ok(()) => old(self).live_spec(e) && old(self).components_of(e).dom().contains(t)
                    && final(self).live_spec(e) && final(self).components_of(e) == old(
                    self,
                ).components_of(e).insert(t, v) && World::others_preserved(
                    *old(self),
                    *final(self),
                    e,
                ) && final(self).entities == old(self).entities && final(self).generation == old(
                    self,
                ).generation && final(self).archetypes@.len() == old(self).archetypes@.len(),
                Err(ComponentError::NoSuchEntity) => !old(self).live_spec(e) && *final(self)
                    == *old(self),
                Err(ComponentError::MissingComponent(t2)) => t2 == t && old(self).live_spec(e)
                    && !old(self).components_of(e).dom().contains(t) && *final(self) == *old(
                    self,
                ),
            },
    {
        match self.entities.get(e) {
            None => Err(ComponentError::NoSuchEntity),
            Some(loc) => {
                let present = self.archetypes[loc.archetype].has(t);
                if !present {
                    Err(ComponentError::MissingComponent(t))
                } else {
                    let ghost pre = *self;
                    let a = loc.archetype;
                    self.archetypes[a].set_value(t, loc.row, v);
                    proof {
                        let arow = loc.row as int;
                        let pa = pre.archetypes@[a as int];
                        let na = self.archetypes@[a as int];
                        assert(na.entities == pa.entities);
                        assert forall|k: int|
                            0 <= k < self.archetypes@.len() && k != a as int
                            implies #[trigger] self.archetypes@[k] == pre.archetypes@[k] by {}
                        assert(self.wf());
                        assert(final(self).components_of(e) =~= old(self).components_of(e).insert(
                            t,
                            v,
                        ));
                        assert forall|e2: Entity|
                            e2 != e && #[trigger] pre.live_spec(e2) implies self.components_of(e2)
                            == pre.components_of(e2) by {
                            let l2 = pre.loc_spec(e2);
                            if l2.archetype == a {
                                assert(pa.entities@[l2.row as int] == e2.id);
                                assert(pa.entities@[arow] == e.id);
                                assert(l2.row != loc.row);
                                lemma_row_map_same(pa, na, l2.row as int);
                            } else {
                                assert(self.archetypes@[l2.archetype as int] == pre.archetypes@[
                                    l2.archetype as int]);
                            }
                        }
                    }
                    Ok(())
                }
            }
        }
    }
    /// Whether archetype `a`'s signature is exactly the ids of `types`.
    fn same_sig(a: &Archetype, types: &Vec<TypeInfo>) -> (r: bool)
        ensures
            r == (a.sig() == ids_of(types@)),
    {
        let n = a.types.len();
        if n != types.len() {
            proof {
                assert(a.sig().len() != ids_of(types@).len());
            }
            return false;
        }
        let mut i: usize = 0;
        while i < n
            invariant
                i <= n,
                n == a.types@.len(),
                n == types@.len(),
                forall|k: int| 0 <= k < i ==> a.types@[k].id == types@[k].id,
            decreases n - i,
        {
            if a.types[i].id != types[i].id {
                proof {
                    assert(a.sig()[i as int] != ids_of(types@)[i as int]);
                }
                return false;
            }
            i += 1;
        }
        proof {
            assert(a.sig() =~= ids_of(types@));
        }
        true
    }

    /// The index of the archetype with exactly this signature, creating
    /// and appending an empty one (and bumping the creation counter) when
    /// none exists yet.
    fn find_or_create(&mut self, types: &Vec<TypeInfo>) -> (ai: usize)
        requires
            old(self).wf(),
            sorted_types(types@),
        ensures
            final(self).wf(),
            ai < final(self).archetypes@.len(),
            final(self).archetypes@[ai as int].sig() == ids_of(types@),
            final(self).entities == old(self).entities,
            final(self).archetypes@.len() >= old(self).archetypes@.len(),
            final(self).archetypes@.len() <= old(self).archetypes@.len() + 1,
            forall|k: int|
                0 <= k < old(self).archetypes@.len() ==> #[trigger] final(self).archetypes@[k]
                    == old(self).archetypes@[k],
            ai >= old(self).archetypes@.len() ==> ai == old(self).archetypes@.len() && final(self).archetypes@.len() == old(self).archetypes@.len() + 1 && final(self).archetypes@[ai as int].len_spec() == 0 && final(self).archetypes@[ai as int].types@
                == types@,
            ai < old(self).archetypes@.len() ==> *final(self) == *old(self),
            final(self).generation >= old(self).generation,
    {
        let n = self.archetypes.len();
        let mut i: usize = 0;
        while i < n
            invariant
                i <= n,
                n == self.archetypes@.len(),
                *self == *old(self),
                old(self).wf(),
                forall|k: int| 0 <= k < i ==> (#[trigger] self.archetypes@[k]).sig() != ids_of(
                    types@,
                ),
            decreases n - i,
        {
            if Self::same_sig(&self.archetypes[i], types) {
                return i;
            }
            i += 1;
        }
        let mut copied: Vec<TypeInfo> = Vec::new();
        let m = types.len();
        let mut j: usize = 0;
        while j < m
            invariant
                j <= m,
                m == types@.len(),
                copied@ =~= types@.take(j as int),
            decreases m - j,
        {
            copied.push(types[j]);
            proof {
                assert(copied@ =~= types@.take(j as int + 1));
            }
            j += 1;
        }
        proof {
            assert(copied@ =~= types@);
        }
        let arch = Archetype::new(copied);
        self.archetypes.push(arch);
        if self.generation < u64::MAX {
            self.generation = self.generation + 1;
        }
        proof {
            assert(self.archetypes@[n as int].sig() =~= ids_of(types@));
            assert(self.wf());
        }
        n
    }

    /// Spawn a new entity carrying the bundle's components: locate or
    /// create the archetype of the bundle's signature, append a row, and
    /// issue a handle for it.
    pub fn spawn(&mut self, bundle: &Bundle) -> (e: Entity)
        requires
            old(self).wf(),
            bundle.wf(),
            old(self).entities.meta@.len() < u32::MAX as nat,
            forall|a: int|
                0 <= a < old(self).archetypes@.len() ==> (#[trigger] old(
                    self,
                ).archetypes@[a]).len_spec() < usize::MAX,
        ensures
            final(self).wf(),
            final(self).live_spec(e),
            !old(self).live_spec(e),
            final(self).components_of(e) == bundle.map_spec(),
            World::others_preserved(*old(self), *final(self), e),
            Entities::gens_mono(old(self).entities, final(self).entities),
            final(self).generation >= old(self).generation,
            final(self).archetypes@.len() >= old(self).archetypes@.len(),
            final(self).archetypes@.len() <= old(self).archetypes@.len() + 1,
            final(self).entities.meta@.len() <= old(self).entities.meta@.len() + 1,
            forall|k: int|
                0 <= k < final(self).archetypes@.len() ==> (#[trigger] final(self).archetypes@[k]).len_spec() <= (if k < old(self).archetypes@.len() {
                    old(self).archetypes@[k].len_spec()
                } else {
                    0
                }) + 1,
    {
        let tinfos = bundle.type_infos();
        proof {
            assert forall|i: int, j: int| 0 <= i < j < tinfos@.len() implies tinfos@[i].id
                < tinfos@[j].id by {
                assert(tinfos@[i] == bundle.parts@[i].0);
                assert(tinfos@[j] == bundle.parts@[j].0);
            }
        }
        let ai = self.find_or_create(&tinfos);
        let ghost mid_world = *self;
        let vals = bundle.values();
        proof {
            assert(mid_world.archetypes@[ai as int].types@.len() == mid_world.archetypes@[
                ai as int].sig().len());
            assert(ids_of(tinfos@).len() == tinfos@.len());
        }
        let row = self.archetypes[ai].len();
        let e = self.entities.allocate(Location { archetype: ai, row });
        self.archetypes[ai].push_row(e.id, &vals);
        proof {
            let pre = *old(self);
            let ta = mid_world.archetypes@[ai as int];
            let na = self.archetypes@[ai as int];
            assert(na.entities@ == ta.entities@.push(e.id));
            assert forall|k: int|
                0 <= k < self.archetypes@.len() && k != ai as int
                implies #[trigger] self.archetypes@[k] == mid_world.archetypes@[k] by {}
            // the directory and the rows agree again
            assert(self.wf()) by {
                assert forall|i: int|
                    0 <= i < self.entities.meta@.len() && (#[trigger] self.entities.meta@[i]).location
                        is Some implies {
                    let l = self.entities.meta@[i].location.unwrap();
                    &&& (l.archetype as int) < self.archetypes@.len()
                    &&& (l.row as int) < self.archetypes@[l.archetype as int].len_spec()
                    &&& self.archetypes@[l.archetype as int].entities@[l.row as int] == i as u32
                } by {
                    if i == e.id as int {
                        assert(self.entities.meta@[i].location == Some(
                            Location { archetype: ai, row },
                        ));
                    } else {
                        assert(0 <= i < mid_world.entities.meta@.len());
                        assert(self.entities.meta@[i] == mid_world.entities.meta@[i]);
                        let l = self.entities.meta@[i].location.unwrap();
                        assert((l.archetype as int) < mid_world.archetypes@.len());
                        assert((l.row as int) < mid_world.archetypes@[
                            l.archetype as int].len_spec());
                        assert(mid_world.archetypes@[l.archetype as int].entities@[l.row as int]
                            == i as u32);
                        if l.archetype as int == ai as int {
                            assert(self.archetypes@[ai as int].entities@[l.row as int]
                                == ta.entities@[l.row as int]);
                        } else {
                            assert(self.archetypes@[l.archetype as int] == mid_world.archetypes@[
                                l.archetype as int]);
                        }
                    }
                }
                assert forall|a: int, r: int|
                    0 <= a < self.archetypes@.len() && 0 <= r < self.archetypes@[a].len_spec()
                    implies {
                    let id = #[trigger] self.archetypes@[a].entities@[r];
                    &&& (id as int) < self.entities.meta@.len()
                    &&& self.entities.meta@[id as int].location == Some(
                        Location { archetype: a as usize, row: r as usize },
                    )
                } by {
                    let id = self.archetypes@[a].entities@[r];
                    if a == ai as int && r == row as int {
                        assert(id == e.id);
                    } else {
                        if a == ai as int {
                            assert(r < ta.len_spec());
                            assert(self.archetypes@[a].entities@[r] == ta.entities@[r]);
                        } else {
                            assert(self.archetypes@[a] == mid_world.archetypes@[a]);
                        }
                        assert(id == mid_world.archetypes@[a].entities@[r]);
                        assert(0 <= r < mid_world.archetypes@[a].len_spec());
                        assert(mid_world.entities.meta@[id as int].location == Some(
                            Location { archetype: a as usize, row: r as usize },
                        ));
                        assert(id as int != e.id as int);
                        assert(self.entities.meta@[id as int] == mid_world.entities.meta@[
                            id as int]);
                    }
                }
            }
            // the new row carries exactly the bundle's components
            assert(self.components_of(e) =~= bundle.map_spec()) by {
                assert(na.sig() == bundle.sig());
                assert forall|t: u64| na.has_spec(t) implies na.value_spec(t, row as int)
                    == bundle.map_spec()[t] by {
                    let c = na.col_of(t);
                    assert(0 <= c < na.sig().len() && na.sig()[c] == t);
                    crate::types::lemma_index_of(na.sig(), c);
                    assert(na.columns@[c]@ == ta.columns@[c]@.push(vals@[c]));
                    assert(na.value_spec(t, row as int) == vals@[c]);
                    assert(vals@[c] == bundle.parts@[c].1);
                }
            }
            // everyone else is untouched
            assert forall|e2: Entity| #![trigger pre.live_spec(e2)] e2 != e implies
                self.live_spec(e2) == pre.live_spec(e2) && (pre.live_spec(e2)
                    ==> self.components_of(e2) == pre.components_of(e2)) by {
                if pre.live_spec(e2) {
                    assert(e2.id != e.id);
                    assert(self.entities.meta@[e2.id as int] == pre.entities.meta@[e2.id as int]);
                    let l2 = pre.loc_spec(e2);
                    let pa2 = pre.archetypes@[l2.archetype as int];
                    if l2.archetype == ai {
                        lemma_row_map_same(pa2, self.archetypes@[l2.archetype as int],
                            l2.row as int);
                    } else {
                        assert(self.archetypes@[l2.archetype as int] == pa2);
                    }
                } else {
                    if self.live_spec(e2) {
                        assert(e2.id as int == e.id as int);
                        assert(e2.generation == e.generation);
                        assert(e2 == e);
                    }
                }
            }
        }
        e
    }

    /// Spawn one entity per bundle, in order, returning their handles.
    pub fn spawn_batch(&mut self, bundles: &Vec<Bundle>) -> (r: Vec<Entity>)
        requires
            old(self).wf(),
            forall|i: int| 0 <= i < bundles@.len() ==> (#[trigger] bundles@[i]).wf(),
            old(self).entities.meta@.len() + bundles@.len() <= u32::MAX,
            bundles@.len() < usize::MAX,
            forall|a: int|
                0 <= a < old(self).archetypes@.len() ==> (#[trigger] old(
                    self,
                ).archetypes@[a]).len_spec() + bundles@.len() < usize::MAX,
        ensures
            final(self).wf(),
            r@.len() == bundles@.len(),
            forall|i: int|
                0 <= i < r@.len() ==> final(self).live_spec(#[trigger] r@[i]) && final(self).components_of(r@[i]) == bundles@[i].map_spec(),
            forall|i: int, j: int| 0 <= i < j < r@.len() ==> r@[i] != r@[j],
            Entities::gens_mono(old(self).entities, final(self).entities),
            final(self).generation >= old(self).generation,
    {
        let l = bundles.len();
        let mut r: Vec<Entity> = Vec::new();
        let mut i: usize = 0;
        while i < l
            invariant
                i <= l,
                l == bundles@.len(),
                l < usize::MAX,
                self.wf(),
                forall|k: int| 0 <= k < bundles@.len() ==> (#[trigger] bundles@[k]).wf(),
                self.entities.meta@.len() + (l - i) <= u32::MAX,
                forall|a: int|
                    0 <= a < self.archetypes@.len() ==> (#[trigger] self.archetypes@[a]).len_spec()
                        + (l - i) < usize::MAX,
                r@.len() == i,
                forall|k: int|
                    0 <= k < r@.len() ==> self.live_spec(#[trigger] r@[k]) && self.components_of(
                        r@[k],
                    ) == bundles@[k].map_spec(),
                forall|k: int, k2: int| 0 <= k < k2 < r@.len() ==> r@[k] != r@[k2],
                Entities::gens_mono(old(self).entities, self.entities),
                self.generation >= old(self).generation,
            decreases l - i,
        {
            let ghost snap = *self;
            let ghost r0 = r@;
            let e = self.spawn(&bundles[i]);
            r.push(e);
            proof {
                assert forall|a: int|
                    0 <= a < self.archetypes@.len() implies (#[trigger] self.archetypes@[
                a]).len_spec() + (l - i - 1) < usize::MAX by {
                    if a < snap.archetypes@.len() {
                        assert(self.archetypes@[a].len_spec() <= snap.archetypes@[a].len_spec()
                            + 1);
                    } else {
                        assert(self.archetypes@[a].len_spec() <= 1);
                    }
                }
                assert forall|k: int|
                    0 <= k < r@.len() implies self.live_spec(#[trigger] r@[k])
                    && self.components_of(r@[k]) == bundles@[k].map_spec() by {
                    if k < r0.len() {
                        assert(r@[k] == r0[k]);
                        assert(snap.live_spec(r0[k]));
                        assert(r0[k] != e) by {
                            if r0[k] == e {
                                assert(!snap.live_spec(e));
                            }
                        }
                    } else {
                        assert(r@[k] == e);
                    }
                }
                assert forall|k: int, k2: int| 0 <= k < k2 < r@.len() implies r@[k] != r@[k2] by {
                    if k2 == r0.len() as int {
                        assert(snap.live_spec(r0[k]) && !snap.live_spec(e));
                    }
                }
            }
            i += 1;
        }
        r
    }

    /// Destroy a live entity: swap-remove its row, patch the directory
    /// entry of whichever entity was moved into the hole, and retire the
    /// handle. Fails exactly on stale or unknown handles, leaving the
    /// world untouched.
    pub fn despawn(&mut self, e: Entity) -> (r: Result<(), NoSuchEntity>)
        requires
            old(self).wf(),
        ensures
            final(self).wf(),
            r is Ok <==> old(self).live_spec(e),
            r is Err ==> *final(self) == *old(self),
            r is Ok ==> !final(self).live_spec(e) && (e.id as int) < final(self).entities.meta@.len() && final(self).entities.meta@[e.id as int].location is None
                && World::others_preserved(*old(self), *final(self), e) && final(self).generation
                == old(self).generation && final(self).archetypes@.len() == old(
                self,
            ).archetypes@.len(),
            Entities::gens_mono(old(self).entities, final(self).entities),
    {
        match self.entities.get(e) {
            None => Err(NoSuchEntity),
            Some(loc) => {
                let ghost pre = *self;
                let acount = self.archetypes.len();
                let a = loc.archetype;
                let ghost pa = pre.archetypes@[a as int];
                let plen = self.archetypes[a].len();
                let lastrow: usize = plen - 1;
                let moved = self.archetypes[a].swap_remove_row(loc.row);
                self.entities.free(e);
                let ghost na = self.archetypes@[a as int];
                if let Some(mid) = moved {
                    proof {
                        assert(pre.archetypes@[a as int].entities@[lastrow as int] == mid);
                        assert(pre.entities.meta@[mid as int].location == Some(
                            Location { archetype: a, row: lastrow },
                        ));
                        assert(pre.archetypes@[a as int].entities@[loc.row as int] == e.id);
                        assert(loc.row != lastrow);
                        assert(mid != e.id);
                        assert(self.entities.meta@[mid as int] == pre.entities.meta@[mid as int]);
                    }
                    self.entities.set_location(mid, Location { archetype: a, row: loc.row });
                }
                proof {
                    Self::lemma_after_remove(pre, *self, e, moved);
                }
                Ok(())
            }
        }
    }

    /// After a swap-remove of `e`'s row and the matching directory fixes,
    /// the world is well formed again, `e` is gone, and everyone else
    /// keeps their components.
    proof fn lemma_after_remove(pre: World, post: World, e: Entity, moved: Option<u32>)
        requires
            pre.wf(),
            pre.live_spec(e),
            pre.archetypes@.len() <= usize::MAX,
            ({
                let loc = pre.loc_spec(e);
                let a = loc.archetype as int;
                let pa = pre.archetypes@[a];
                let last = pa.len_spec() - 1;
                let na = post.archetypes@[a];
                &&& post.archetypes@.len() == pre.archetypes@.len()
                &&& forall|k: int|
                    0 <= k < pre.archetypes@.len() && k != a ==> #[trigger] post.archetypes@[k]
                        == pre.archetypes@[k]
                &&& na.types == pa.types
                &&& na.borrows == pa.borrows
                &&& na.wf()
                &&& na.entities@ == pa.entities@.update(
                    loc.row as int,
                    pa.entities@.last(),
                ).drop_last()
                &&& na.columns@.len() == pa.columns@.len()
                &&& forall|c: int|
                    0 <= c < na.columns@.len() ==> (#[trigger] na.columns@[c])@ == pa.columns@[
                        c]@.update(loc.row as int, pa.columns@[c]@.last()).drop_last()
                &&& moved == if loc.row as int + 1 == pa.len_spec() {
                    None::<u32>
                } else {
                    Some(pa.entities@.last())
                }
                &&& post.entities.wf()
                &&& post.entities.meta@.len() == pre.entities.meta@.len()
                &&& post.entities.meta@[e.id as int].location is None
                &&& (match moved {
                    Some(mid) => post.entities.meta@[mid as int].generation
                        == pre.entities.meta@[mid as int].generation
                        && post.entities.meta@[mid as int].location == Some(
                        Location { archetype: loc.archetype, row: loc.row },
                    ) && forall|i: int|
                        0 <= i < post.entities.meta@.len() && i != e.id as int && i != mid as int
                            ==> #[trigger] post.entities.meta@[i] == pre.entities.meta@[i],
                    None => forall|i: int|
                        0 <= i < post.entities.meta@.len() && i != e.id as int
                            ==> #[trigger] post.entities.meta@[i] == pre.entities.meta@[i],
                })
            }),
        ensures
            post.wf(),
            !post.live_spec(e),
            World::others_preserved(pre, post, e),
    {
        let loc = pre.loc_spec(e);
        let a = loc.archetype as int;
        let pa = pre.archetypes@[a];
        let last = pa.len_spec() - 1;
        let na = post.archetypes@[a];
        assert(pa.entities@[loc.row as int] == e.id);
        // the directory points back into the rows
        assert forall|i: int|
            0 <= i < post.entities.meta@.len() && (#[trigger] post.entities.meta@[i]).location
                is Some implies {
            let l = post.entities.meta@[i].location.unwrap();
            &&& (l.archetype as int) < post.archetypes@.len()
            &&& (l.row as int) < post.archetypes@[l.archetype as int].len_spec()
            &&& post.archetypes@[l.archetype as int].entities@[l.row as int] == i as u32
        } by {
            let l = post.entities.meta@[i].location.unwrap();
            if moved is Some && i == moved.unwrap() as int {
                assert(na.entities@[loc.row as int] == pa.entities@[last]);
            } else {
                assert(post.entities.meta@[i] == pre.entities.meta@[i]);
                assert(pre.archetypes@[l.archetype as int].entities@[l.row as int] == i as u32);
                if l.archetype as int == a {
                    assert(l.row as int != loc.row as int);
                    assert(l.row as int != last) by {
                        if l.row as int == last {
                            assert(pa.entities@[last] == i as u32);
                        }
                    }
                    assert(na.entities@[l.row as int] == pa.entities@[l.row as int]);
                } else {
                    assert(post.archetypes@[l.archetype as int] == pre.archetypes@[
                        l.archetype as int]);
                }
            }
        }
        // the rows point back into the directory
        assert forall|a2: int, r2: int|
            0 <= a2 < post.archetypes@.len() && 0 <= r2 < post.archetypes@[a2].len_spec() implies {
            let id = #[trigger] post.archetypes@[a2].entities@[r2];
            &&& (id as int) < post.entities.meta@.len()
            &&& post.entities.meta@[id as int].location == Some(
                Location { archetype: a2 as usize, row: r2 as usize },
            )
        } by {
            let id = post.archetypes@[a2].entities@[r2];
            if a2 == a {
                if moved is Some && r2 == loc.row as int {
                    assert(id == pa.entities@[last]);
                } else {
                    assert(r2 != last);
                    assert(id == pa.entities@[r2]);
                    assert(pre.archetypes@[a2].entities@[r2] == id);
                    assert(pre.entities.meta@[id as int].location == Some(
                        Location { archetype: a2 as usize, row: r2 as usize },
                    ));
                    assert(pre.archetypes@[a].entities@[loc.row as int] == e.id);
                    assert(pre.entities.meta@[e.id as int].location == Some(
                        Location { archetype: loc.archetype, row: loc.row },
                    ));
                    assert(r2 as usize != loc.row);
                    assert(id != e.id);
                    if moved is Some {
                        assert(id != moved.unwrap()) by {
                            if id == moved.unwrap() {
                                assert(pre.archetypes@[a].entities@[last] == moved.unwrap());
                                assert(pre.entities.meta@[id as int].location == Some(
                                    Location { archetype: loc.archetype, row: last as usize },
                                ));
                            }
                        }
                    }
                    assert(post.entities.meta@[id as int] == pre.entities.meta@[id as int]);
                }
            } else {
                assert(post.archetypes@[a2] == pre.archetypes@[a2]);
                assert(pre.archetypes@[a2].entities@[r2] == id);
                assert(pre.entities.meta@[id as int].location == Some(
                    Location { archetype: a2 as usize, row: r2 as usize },
                ));
                assert(pre.entities.meta@[e.id as int].location == Some(
                    Location { archetype: loc.archetype, row: loc.row },
                ));
                assert(a2 as usize != loc.archetype);
                assert(id != e.id);
                if moved is Some {
                    assert(id != moved.unwrap()) by {
                        if id == moved.unwrap() {
                            assert(pre.archetypes@[a].entities@[last] == moved.unwrap());
                            assert(pre.entities.meta@[id as int].location == Some(
                                Location { archetype: loc.archetype, row: last as usize },
                            ));
                        }
                    }
                }
                assert(post.entities.meta@[id as int] == pre.entities.meta@[id as int]);
            }
        }
        assert(na.sig() == pa.sig());
        assert forall|b1: int, b2: int|
            0 <= b1 < b2 < post.archetypes@.len() implies (#[trigger] post.archetypes@[b1]).sig()
            != (#[trigger] post.archetypes@[b2]).sig() by {
            assert(pre.archetypes@[b1].sig() != pre.archetypes@[b2].sig());
            if b1 == a {
                assert(post.archetypes@[b1].sig() == pre.archetypes@[b1].sig());
            } else {
                assert(post.archetypes@[b1] == pre.archetypes@[b1]);
            }
            if b2 == a {
                assert(post.archetypes@[b2].sig() == pre.archetypes@[b2].sig());
            } else {
                assert(post.archetypes@[b2] == pre.archetypes@[b2]);
            }
        }
        assert(post.wf());
        // every other entity keeps its place and its components
        assert forall|e2: Entity| #![trigger pre.live_spec(e2)] e2 != e implies post.live_spec(e2)
            == pre.live_spec(e2) && (pre.live_spec(e2) ==> post.components_of(e2)
            == pre.components_of(e2)) by {
            if pre.live_spec(e2) {
                assert(e2.id != e.id) by {
                    if e2.id == e.id {
                        assert(e2.generation == pre.entities.meta@[e.id as int].generation);
                        assert(e2 == e);
                    }
                }
                let l2 = pre.loc_spec(e2);
                let pa2 = pre.archetypes@[l2.archetype as int];
                if moved is Some && e2.id == moved.unwrap() {
                    assert(l2.archetype as int == a && l2.row as int == last);
                    assert(post.live_spec(e2));
                    let nl2 = post.loc_spec(e2);
                    assert(nl2.archetype as int == a && nl2.row == loc.row);
                    assert forall|t: u64| pa.has_spec(t) implies na.value_spec(t, loc.row as int)
                        == pa.value_spec(t, last) by {
                        let c = pa.col_of(t);
                        assert(0 <= c < pa.sig().len() && pa.sig()[c] == t);
                        assert(na.columns@[c]@[loc.row as int] == pa.columns@[c]@[last]);
                    }
                    assert(post.components_of(e2) =~= pre.components_of(e2));
                } else {
                    assert(post.entities.meta@[e2.id as int] == pre.entities.meta@[e2.id as int]);
                    assert(post.live_spec(e2));
                    if l2.archetype as int == a {
                        assert(l2.row as int != loc.row as int);
                        assert(l2.row as int != last) by {
                            if l2.row as int == last {
                                assert(pa.entities@[last] == e2.id);
                            }
                        }
                        assert forall|c: int| 0 <= c < pa.columns@.len() implies (
                        #[trigger] na.columns@[c])@[l2.row as int] == pa.columns@[c]@[l2.row as int]
                            by {}
                        lemma_row_map_same(pa, na, l2.row as int);
                    } else {
                        assert(post.archetypes@[l2.archetype as int] == pre.archetypes@[
                            l2.archetype as int]);
                    }
                }
            } else {
                if post.live_spec(e2) {
                    if e2.id == e.id {
                        assert(post.entities.meta@[e2.id as int].location is None);
                    } else if moved is Some && e2.id == moved.unwrap() {
                        assert(post.entities.meta@[e2.id as int].generation
                            == pre.entities.meta@[e2.id as int].generation);
                        assert(pre.live_spec(e2));
                    } else {
                        assert(post.entities.meta@[e2.id as int] == pre.entities.meta@[
                            e2.id as int]);
                    }
                }
            }
        }
    }

    /// Move `e`'s row into archetype `target`, writing `vals` as its new
    /// components (one per target column), and swap-remove the old row.
    fn move_row(&mut self, e: Entity, target: usize, vals: &Vec<u64>)
        requires
            old(self).wf(),
            old(self).live_spec(e),
            (target as int) < old(self).archetypes@.len(),
            target != old(self).loc_spec(e).archetype,
            vals@.len() == old(self).archetypes@[target as int].types@.len(),
            old(self).archetypes@[target as int].len_spec() < usize::MAX,
        ensures
            final(self).wf(),
            final(self).live_spec(e),
            final(self).loc_spec(e).archetype == target,
            final(self).components_of(e) == sig_values_map(
                old(self).archetypes@[target as int].types@,
                vals@,
            ),
            World::others_preserved(*old(self), *final(self), e),
            Entities::gens_mono(old(self).entities, final(self).entities),
            final(self).generation == old(self).generation,
            final(self).archetypes@.len() == old(self).archetypes@.len(),
            forall|k: int|
                0 <= k < final(self).archetypes@.len() ==> (#[trigger] final(self).archetypes@[k]).types == old(self).archetypes@[k].types,
    {
        let ghost pre = *old(self);
        let loc = self.entities.get(e).unwrap();
        let a = loc.archetype;
        let acount = self.archetypes.len();
        let newrow = self.archetypes[target].len();
        self.archetypes[target].push_row(e.id, vals);
        let ghost ta = pre.archetypes@[target as int];
        let ghost nt = self.archetypes@[target as int];
        let plen = self.archetypes[a].len();
        let lastrow: usize = plen - 1;
        let ghost pa = pre.archetypes@[a as int];
        let moved = self.archetypes[a].swap_remove_row(loc.row);
        let ghost na = self.archetypes@[a as int];
        self.entities.set_location(e.id, Location { archetype: target, row: newrow });
        if let Some(mid) = moved {
            proof {
                assert(pre.archetypes@[a as int].entities@[lastrow as int] == mid);
                assert(pre.entities.meta@[mid as int].location == Some(
                    Location { archetype: a, row: lastrow },
                ));
                assert(pre.archetypes@[a as int].entities@[loc.row as int] == e.id);
                assert(loc.row != lastrow);
                assert(mid != e.id);
                assert(self.entities.meta@[mid as int] == pre.entities.meta@[mid as int]);
            }
            self.entities.set_location(mid, Location { archetype: a, row: loc.row });
        }
        proof {
            let last = lastrow as int;
            assert(pa.entities@[loc.row as int] == e.id);
            assert(pre.entities.meta@[e.id as int].location == Some(loc));
            // the directory points back into the rows
            assert forall|i: int|
                0 <= i < self.entities.meta@.len() && (#[trigger] self.entities.meta@[i]).location
                    is Some implies {
                let l = self.entities.meta@[i].location.unwrap();
                &&& (l.archetype as int) < self.archetypes@.len()
                &&& (l.row as int) < self.archetypes@[l.archetype as int].len_spec()
                &&& self.archetypes@[l.archetype as int].entities@[l.row as int] == i as u32
            } by {
                let l = self.entities.meta@[i].location.unwrap();
                if i == e.id as int {
                    assert(nt.entities@[newrow as int] == e.id);
                } else if moved is Some && i == moved.unwrap() as int {
                    assert(na.entities@[loc.row as int] == pa.entities@[last]);
                } else {
                    assert(self.entities.meta@[i] == pre.entities.meta@[i]);
                    assert(pre.archetypes@[l.archetype as int].entities@[l.row as int]
                        == i as u32);
                    if l.archetype as int == a as int {
                        assert(l.row as int != loc.row as int);
                        assert(l.row as int != last) by {
                            if l.row as int == last {
                                assert(pa.entities@[last] == i as u32);
                            }
                        }
                        assert(na.entities@[l.row as int] == pa.entities@[l.row as int]);
                    } else if l.archetype as int == target as int {
                        assert(nt.entities@[l.row as int] == ta.entities@[l.row as int]);
                    } else {
                        assert(self.archetypes@[l.archetype as int] == pre.archetypes@[
                            l.archetype as int]);
                    }
                }
            }
            // the rows point back into the directory
            assert forall|a2: int, r2: int|
                0 <= a2 < self.archetypes@.len() && 0 <= r2 < self.archetypes@[a2].len_spec()
                implies {
                let id = #[trigger] self.archetypes@[a2].entities@[r2];
                &&& (id as int) < self.entities.meta@.len()
                &&& self.entities.meta@[id as int].location == Some(
                    Location { archetype: a2 as usize, row: r2 as usize },
                )
            } by {
                let id = self.archetypes@[a2].entities@[r2];
                if a2 == target as int && r2 == newrow as int {
                    assert(id == e.id);
                } else {
                    let preid = if a2 == a as int && moved is Some && r2 == loc.row as int {
                        pa.entities@[last]
                    } else if a2 == a as int {
                        pa.entities@[r2]
                    } else if a2 == target as int {
                        ta.entities@[r2]
                    } else {
                        pre.archetypes@[a2].entities@[r2]
                    };
                    assert(id == preid);
                    if a2 == a as int && moved is Some && r2 == loc.row as int {
                        assert(pre.archetypes@[a as int].entities@[last] == id);
                        assert(pre.entities.meta@[id as int].location == Some(
                            Location { archetype: a, row: lastrow },
                        ));
                        assert(id == moved.unwrap());
                    } else {
                        assert(pre.archetypes@[a2].entities@[r2] == id);
                        assert(pre.entities.meta@[id as int].location == Some(
                            Location { archetype: a2 as usize, row: r2 as usize },
                        ));
                        if a2 == a as int {
                            assert(r2 != last);
                            assert(r2 as usize != loc.row);
                        }
                        assert(id != e.id);
                        if moved is Some {
                            assert(id != moved.unwrap()) by {
                                if id == moved.unwrap() {
                                    assert(pre.archetypes@[a as int].entities@[last]
                                        == moved.unwrap());
                                    assert(pre.entities.meta@[id as int].location == Some(
                                        Location { archetype: a, row: lastrow },
                                    ));
                                }
                            }
                        }
                        assert(self.entities.meta@[id as int] == pre.entities.meta@[id as int]);
                    }
                }
            }
            assert(na.sig() == pa.sig());
            assert(nt.sig() == ta.sig());
            assert forall|b1: int, b2: int|
                0 <= b1 < b2 < self.archetypes@.len() implies (
            #[trigger] self.archetypes@[b1]).sig() != (#[trigger] self.archetypes@[b2]).sig() by {
                assert(pre.archetypes@[b1].sig() != pre.archetypes@[b2].sig());
                assert(self.archetypes@[b1].sig() == pre.archetypes@[b1].sig()) by {
                    if b1 != a as int && b1 != target as int {
                        assert(self.archetypes@[b1] == pre.archetypes@[b1]);
                    }
                }
                assert(self.archetypes@[b2].sig() == pre.archetypes@[b2].sig()) by {
                    if b2 != a as int && b2 != target as int {
                        assert(self.archetypes@[b2] == pre.archetypes@[b2]);
                    }
                }
            }
            assert(self.wf());
            // the moved-in row carries exactly the requested values
            assert(self.components_of(e) =~= sig_values_map(ta.types@, vals@)) by {
                assert forall|t: u64| nt.has_spec(t) implies nt.value_spec(t, newrow as int)
                    == vals@[nt.col_of(t)] by {
                    let c = nt.col_of(t);
                    assert(0 <= c < nt.sig().len() && nt.sig()[c] == t);
                    assert(nt.columns@[c]@ == ta.columns@[c]@.push(vals@[c]));
                }
            }
            // every other entity keeps its place and its components
            assert forall|e2: Entity| #![trigger pre.live_spec(e2)] e2 != e implies
                self.live_spec(e2) == pre.live_spec(e2) && (pre.live_spec(e2)
                    ==> self.components_of(e2) == pre.components_of(e2)) by {
                if pre.live_spec(e2) {
                    assert(e2.id != e.id) by {
                        if e2.id == e.id {
                            assert(e2.generation == pre.entities.meta@[e.id as int].generation);
                            assert(e2 == e);
                        }
                    }
                    let l2 = pre.loc_spec(e2);
                    let pa2 = pre.archetypes@[l2.archetype as int];
                    if moved is Some && e2.id == moved.unwrap() {
                        assert(l2.archetype as int == a as int && l2.row as int == last);
                        assert(self.live_spec(e2));
                        assert forall|t: u64| pa.has_spec(t) implies na.value_spec(
                            t,
                            loc.row as int,
                        ) == pa.value_spec(t, last) by {
                            let c = pa.col_of(t);
                            assert(0 <= c < pa.sig().len() && pa.sig()[c] == t);
                            assert(na.columns@[c]@[loc.row as int] == pa.columns@[c]@[last]);
                        }
                        assert(self.components_of(e2) =~= pre.components_of(e2));
                    } else {
                        assert(self.entities.meta@[e2.id as int] == pre.entities.meta@[
                            e2.id as int]);
                        assert(self.live_spec(e2));
                        if l2.archetype as int == a as int {
                            assert(l2.row as int != loc.row as int);
                            assert(l2.row as int != last) by {
                                if l2.row as int == last {
                                    assert(pa.entities@[last] == e2.id);
                                }
                            }
                            assert forall|c: int| 0 <= c < pa.columns@.len() implies (
                            #[trigger] na.columns@[c])@[l2.row as int] == pa.columns@[c]@[
                            l2.row as int] by {}
                            lemma_row_map_same(pa, na, l2.row as int);
                        } else if l2.archetype as int == target as int {
                            assert forall|c: int| 0 <= c < ta.columns@.len() implies (
                            #[trigger] nt.columns@[c])@[l2.row as int] == ta.columns@[c]@[
                            l2.row as int] by {}
                            lemma_row_map_same(ta, nt, l2.row as int);
                        } else {
                            assert(self.archetypes@[l2.archetype as int] == pre.archetypes@[
                                l2.archetype as int]);
                        }
                    }
                } else {
                    if self.live_spec(e2) {
                        if e2.id == e.id {
                            assert(e2.generation == self.entities.meta@[e.id as int].generation);
                            assert(self.entities.meta@[e.id as int].generation
                                == pre.entities.meta@[e.id as int].generation);
                            assert(pre.live_spec(e2));
                        } else if moved is Some && e2.id == moved.unwrap() {
                            assert(self.entities.meta@[e2.id as int].generation
                                == pre.entities.meta@[e2.id as int].generation);
                            assert(pre.live_spec(e2));
                        } else {
                            assert(self.entities.meta@[e2.id as int] == pre.entities.meta@[
                                e2.id as int]);
                        }
                    }
                }
            }
        }
    }

    /// Inserting a descriptor at its sorted position keeps the list sorted
    /// and adds exactly one binding to the component map.
    proof fn lemma_insert_part(types: Seq<TypeInfo>, vals: Seq<u64>, p: int, info: TypeInfo, v: u64)
        requires
            sorted_types(types),
            vals.len() == types.len(),
            0 <= p <= types.len(),
            forall|k: int| 0 <= k < p ==> types[k].id < info.id,
            forall|k: int| p <= k < types.len() ==> types[k].id > info.id,
        ensures
            sorted_types(types.insert(p, info)),
            sig_values_map(types.insert(p, info), vals.insert(p, v)) == sig_values_map(
                types,
                vals,
            ).insert(info.id, v),
    {
        let nt = types.insert(p, info);
        let nv = vals.insert(p, v);
        assert forall|i: int, j: int| 0 <= i < j < nt.len() implies nt[i].id < nt[j].id by {
            if i < p && j > p {
                assert(nt[i] == types[i] && nt[j] == types[j - 1]);
            }
        }
        crate::types::lemma_sorted_types_ids(nt);
        crate::types::lemma_sorted_types_ids(types);
        let m1 = sig_values_map(nt, nv);
        let m2 = sig_values_map(types, vals).insert(info.id, v);
        assert forall|t: u64| #![trigger m1.dom().contains(t)] m1.dom().contains(t) implies
            m2.dom().contains(t) && m1[t] == m2[t] by {
            assert(ids_of(nt).contains(t));
            let c = crate::types::index_of(ids_of(nt), t);
            assert(0 <= c < nt.len() && ids_of(nt)[c] == t);
            crate::types::lemma_index_of(ids_of(nt), c);
            if c == p {
                assert(t == info.id);
                assert(m1[t] == nv[p]);
            } else if c < p {
                assert(nt[c] == types[c]);
                assert(ids_of(types)[c] == t);
                crate::types::lemma_index_of(ids_of(types), c);
                assert(m1[t] == nv[c] && nv[c] == vals[c]);
                assert(t != info.id);
            } else {
                assert(nt[c] == types[c - 1]);
                assert(ids_of(types)[c - 1] == t);
                crate::types::lemma_index_of(ids_of(types), c - 1);
                assert(m1[t] == nv[c] && nv[c] == vals[c - 1]);
                assert(t != info.id);
            }
        }
        assert forall|t: u64| #![trigger m2.dom().contains(t)] m2.dom().contains(t) implies
            m1.dom().contains(t) by {
            assert(t == info.id || ids_of(types).contains(t));
            if t == info.id {
                assert(ids_of(nt)[p] == t);
            } else {
                let c = crate::types::index_of(ids_of(types), t);
                assert(0 <= c < types.len() && ids_of(types)[c] == t);
                if c < p {
                    assert(ids_of(nt)[c] == t);
                } else {
                    assert(ids_of(nt)[c + 1] == t);
                }
            }
        }
        assert(m1.dom() =~= m2.dom());
        assert forall|t: u64| #![trigger m2.dom().contains(t)] m2.dom().contains(t) implies m1[t]
            == m2[t] by {
            assert(m1.dom().contains(t));
        }
        assert(m1 =~= m2);
    }

    /// Removing a descriptor keeps the list sorted and drops exactly its
    /// binding from the component map.
    proof fn lemma_remove_part(types: Seq<TypeInfo>, vals: Seq<u64>, p: int)
        requires
            sorted_types(types),
            vals.len() == types.len(),
            0 <= p < types.len(),
        ensures
            sorted_types(types.remove(p)),
            sig_values_map(types.remove(p), vals.remove(p)) == sig_values_map(types, vals).remove(
                types[p].id,
            ),
    {
        let nt = types.remove(p);
        let nv = vals.remove(p);
        assert forall|i: int, j: int| 0 <= i < j < nt.len() implies nt[i].id < nt[j].id by {
            if i < p && j >= p {
                assert(nt[i] == types[i] && nt[j] == types[j + 1]);
            }
        }
        crate::types::lemma_sorted_types_ids(nt);
        crate::types::lemma_sorted_types_ids(types);
        let m1 = sig_values_map(nt, nv);
        let m2 = sig_values_map(types, vals).remove(types[p].id);
        assert forall|t: u64| #![trigger m1.dom().contains(t)] m1.dom().contains(t) implies
            m2.dom().contains(t) && m1[t] == m2[t] by {
            assert(ids_of(nt).contains(t));
            assert(t != types[p].id) by {
                if t == types[p].id {
                    let c0 = crate::types::index_of(ids_of(nt), t);
                    assert(ids_of(nt)[c0] == t);
                    assert(nt[c0].id == t);
                    if c0 < p {
                        assert(types[c0].id < types[p].id);
                    } else {
                        assert(types[p].id < types[c0 + 1].id);
                    }
                }
            }
            let c = crate::types::index_of(ids_of(nt), t);
            assert(0 <= c < nt.len() && ids_of(nt)[c] == t);
            crate::types::lemma_index_of(ids_of(nt), c);
            if c < p {
                assert(nt[c] == types[c]);
                assert(ids_of(types)[c] == t);
                crate::types::lemma_index_of(ids_of(types), c);
                assert(m1[t] == nv[c] && nv[c] == vals[c]);
            } else {
                assert(nt[c] == types[c + 1]);
                assert(ids_of(types)[c + 1] == t);
                crate::types::lemma_index_of(ids_of(types), c + 1);
                assert(m1[t] == nv[c] && nv[c] == vals[c + 1]);
            }
        }
        assert forall|t: u64| #![trigger m2.dom().contains(t)] m2.dom().contains(t) implies
            m1.dom().contains(t) by {
            assert(ids_of(types).contains(t) && t != types[p].id);
            let c = crate::types::index_of(ids_of(types), t);
            assert(0 <= c < types.len() && ids_of(types)[c] == t);
            assert(c != p);
            if c < p {
                assert(ids_of(nt)[c] == t);
            } else {
                assert(ids_of(nt)[c - 1] == t);
            }
        }
        crate::types::lemma_index_of(ids_of(types), p);
        assert(m1.dom() =~= m2.dom());
        assert forall|t: u64| #![trigger m2.dom().contains(t)] m2.dom().contains(t) implies m1[t]
            == m2[t] by {
            assert(m1.dom().contains(t));
        }
        assert(m1 =~= m2);
    }

    /// A live row's component map, read off as a type list and values.
    proof fn lemma_row_as_parts(a: Archetype, row: int, vals: Seq<u64>)
        requires
            a.wf(),
            0 <= row < a.len_spec(),
            vals.len() == a.types@.len(),
            forall|c: int| 0 <= c < vals.len() ==> #[trigger] vals[c] == a.columns@[c]@[row],
        ensures
            sig_values_map(a.types@, vals) == arch_row_map(a, row),
    {
        assert forall|t: u64| a.has_spec(t) implies vals[crate::types::index_of(a.sig(), t)]
            == a.value_spec(t, row) by {
            let c = a.col_of(t);
            assert(0 <= c < a.sig().len() && a.sig()[c] == t);
        }
        assert(sig_values_map(a.types@, vals) =~= arch_row_map(a, row));
    }

    /// Give `e` a component of type `info` with value `v`, replacing any
    /// previous value of that type; the entity moves to the archetype
    /// whose signature adds `info` if it did not carry the type before.
    pub fn insert_one(&mut self, e: Entity, info: TypeInfo, v: u64) -> (r: Result<
        (),
        NoSuchEntity,
    >)
        requires
            old(self).wf(),
            forall|a: int|
                0 <= a < old(self).archetypes@.len() ==> (#[trigger] old(
                    self,
                ).archetypes@[a]).len_spec() < usize::MAX,
        ensures
            final(self).wf(),
            r is Ok <==> old(self).live_spec(e),
            r is Err ==> *final(self) == *old(self),
            r is Ok ==> final(self).live_spec(e) && final(self).components_of(e) == old(
                self,
            ).components_of(e).insert(info.id, v) && World::others_preserved(
                *old(self),
                *final(self),
                e,
            ) && final(self).generation >= old(self).generation,
            Entities::gens_mono(old(self).entities, final(self).entities),
    {
        let loc = match self.entities.get(e) {
            None => {
                return Err(NoSuchEntity);
            }
            Some(l) => l,
        };
        let a = loc.archetype;
        if self.archetypes[a].has(info.id) {
            let res = self.set(e, info.id, v);
            proof {
                assert(res is Ok);
            }
            Ok(())
        } else {
            let ghost pre = *self;
            let rowvals = self.archetypes[a].row_values(loc.row);
            let n = self.archetypes[a].types.len();
            let mut mt: Vec<TypeInfo> = Vec::new();
            let mut mv: Vec<u64> = Vec::new();
            let mut i: usize = 0;
            let ghost pa = pre.archetypes@[a as int];
            while i < n && self.archetypes[a].types[i].id < info.id
                invariant
                    i <= n,
                    *self == pre,
                    pre.wf(),
                    (a as int) < pre.archetypes@.len(),
                    pa == pre.archetypes@[a as int],
                    n == pa.types@.len(),
                    rowvals@.len() == n,
                    mt@ =~= pa.types@.take(i as int),
                    mv@ =~= rowvals@.take(i as int),
                    forall|k: int| 0 <= k < i ==> pa.types@[k].id < info.id,
                decreases n - i,
            {
                mt.push(self.archetypes[a].types[i]);
                mv.push(rowvals[i]);
                proof {
                    assert(mt@ =~= pa.types@.take(i as int + 1));
                    assert(mv@ =~= rowvals@.take(i as int + 1));
                }
                i += 1;
            }
            let p = i;
            proof {
                assert(forall|k: int| p <= k < n ==> (#[trigger] pa.types@[k]).id > info.id) by {
                    assert forall|k: int| p <= k < n implies (#[trigger] pa.types@[k]).id
                        > info.id by {
                        if (p as int) < n {
                            assert(pa.types@[p as int].id > info.id || pa.types@[p as int].id
                                < info.id) by {
                                assert(!pa.has_spec(info.id));
                                assert(pa.sig()[p as int] == pa.types@[p as int].id);
                            }
                            assert(pa.types@[p as int].id > info.id);
                            if k > p {
                                assert(pa.types@[p as int].id < pa.types@[k].id);
                            }
                        }
                    }
                }
            }
            mt.push(info);
            mv.push(v);
            while i < n
                invariant
                    p <= i <= n,
                    *self == pre,
                    pre.wf(),
                    (a as int) < pre.archetypes@.len(),
                    pa == pre.archetypes@[a as int],
                    n == pa.types@.len(),
                    rowvals@.len() == n,
                    mt@ =~= pa.types@.take(i as int).insert(p as int, info),
                    mv@ =~= rowvals@.take(i as int).insert(p as int, v),
                decreases n - i,
            {
                mt.push(self.archetypes[a].types[i]);
                mv.push(rowvals[i]);
                proof {
                    assert(mt@ =~= pa.types@.take(i as int + 1).insert(p as int, info));
                    assert(mv@ =~= rowvals@.take(i as int + 1).insert(p as int, v));
                }
                i += 1;
            }
            proof {
                assert(pa.types@.take(n as int) =~= pa.types@);
                assert(rowvals@.take(n as int) =~= rowvals@);
                assert(mt@ == pa.types@.insert(p as int, info));
                assert(mv@ == rowvals@.insert(p as int, v));
                Self::lemma_insert_part(pa.types@, rowvals@, p as int, info, v);
            }
            let target = self.find_or_create(&mt);
            let ghost mid_world = *self;
            proof {
                assert(target != a) by {
                    if target == a {
                        assert(mid_world.archetypes@[a as int] == pa);
                        assert(pa.sig() == ids_of(mt@));
                        assert(ids_of(mt@)[p as int] == info.id);
                        assert(pa.has_spec(info.id));
                    }
                }
                assert(mid_world.live_spec(e));
                assert(mid_world.loc_spec(e) == loc);
                assert(mid_world.archetypes@[a as int] == pa);
                assert(mid_world.archetypes@[target as int].len_spec() < usize::MAX) by {
                    if (target as int) < pre.archetypes@.len() {
                        assert(mid_world.archetypes@[target as int] == pre.archetypes@[
                            target as int]);
                    }
                }
                assert(ids_of(mid_world.archetypes@[target as int].types@) == ids_of(mt@));
            }
            proof {
                assert(mid_world.archetypes@[target as int].types@.len() == ids_of(
                    mid_world.archetypes@[target as int].types@,
                ).len());
                assert(ids_of(mt@).len() == mt@.len());
            }
            self.move_row(e, target, &mv);
            proof {
                let tt = mid_world.archetypes@[target as int].types@;
                assert(sig_values_map(tt, mv@) == sig_values_map(mt@, mv@)) by {
                    assert(sig_values_map(tt, mv@) =~= sig_values_map(mt@, mv@));
                }
                Self::lemma_row_as_parts(pa, loc.row as int, rowvals@);
                assert(pre.components_of(e) == arch_row_map(pa, loc.row as int));
                assert(self.components_of(e) == pre.components_of(e).insert(info.id, v));
                assert forall|e2: Entity| #![trigger pre.live_spec(e2)] e2 != e implies
                    self.live_spec(e2) == pre.live_spec(e2) && (pre.live_spec(e2)
                        ==> self.components_of(e2) == pre.components_of(e2)) by {
                    assert(mid_world.live_spec(e2) == pre.live_spec(e2));
                    if pre.live_spec(e2) {
                        assert(mid_world.components_of(e2) == pre.components_of(e2)) by {
                            let l2 = pre.loc_spec(e2);
                            assert(mid_world.archetypes@[l2.archetype as int] == pre.archetypes@[
                                l2.archetype as int]);
                        }
                    }
                }
            }
            Ok(())
        }
    }

    /// Take the component of type `t` away from `e`, returning its value;
    /// the entity moves to the archetype whose signature drops `t`.
    pub fn remove_one(&mut self, e: Entity, t: u64) -> (r: Result<u64, ComponentError>)
        requires
            old(self).wf(),
            forall|a: int|
                0 <= a < old(self).archetypes@.len() ==> (#[trigger] old(
                    self,
                ).archetypes@[a]).len_spec() < usize::MAX,
        ensures
            final(self).wf(),
            match r {
                Ok(v) => old(self).live_spec(e) && old(self).components_of(e).dom().contains(t)
                    && v == old(self).components_of(e)[t] && final(self).live_spec(e) && final(self).components_of(e) == old(self).components_of(e).remove(t)
                    && World::others_preserved(*old(self), *final(self), e) && final(self).generation >= old(self).generation,
                Err(ComponentError::NoSuchEntity) => !old(self).live_spec(e) && *final(self)
                    == *old(self),
                Err(ComponentError::MissingComponent(t2)) => t2 == t && old(self).live_spec(e)
                    && !old(self).components_of(e).dom().contains(t) && *final(self) == *old(
                    self,
                ),
            },
            Entities::gens_mono(old(self).entities, final(self).entities),
    {
        let loc = match self.entities.get(e) {
            None => {
                return Err(ComponentError::NoSuchEntity);
            }
            Some(l) => l,
        };
        let a = loc.archetype;
        let p = match self.archetypes[a].find_col(t) {
            None => {
                return Err(ComponentError::MissingComponent(t));
            }
            Some(c) => c,
        };
        let ghost pre = *self;
        let ghost pa = pre.archetypes@[a as int];
        let v = self.archetypes[a].get_value(t, loc.row);
        let rowvals = self.archetypes[a].row_values(loc.row);
        let n = self.archetypes[a].types.len();
        let mut mt: Vec<TypeInfo> = Vec::new();
        let mut mv: Vec<u64> = Vec::new();
        let mut i: usize = 0;
        while i < n
            invariant
                i <= n,
                *self == pre,
                pre.wf(),
                (a as int) < pre.archetypes@.len(),
                pa == pre.archetypes@[a as int],
                n == pa.types@.len(),
                rowvals@.len() == n,
                (p as int) < n,
                pa.types@[p as int].id == t,
                mt@ =~= if i <= p {
                    pa.types@.take(i as int)
                } else {
                    pa.types@.take(i as int).remove(p as int)
                },
                mv@ =~= if i <= p {
                    rowvals@.take(i as int)
                } else {
                    rowvals@.take(i as int).remove(p as int)
                },
            decreases n - i,
        {
            if i != p {
                mt.push(self.archetypes[a].types[i]);
                mv.push(rowvals[i]);
            }
            proof {
                if i as int + 1 <= p as int {
                    assert(mt@ =~= pa.types@.take(i as int + 1));
                    assert(mv@ =~= rowvals@.take(i as int + 1));
                } else {
                    assert(mt@ =~= pa.types@.take(i as int + 1).remove(p as int));
                    assert(mv@ =~= rowvals@.take(i as int + 1).remove(p as int));
                }
            }
            i += 1;
        }
        proof {
            assert(pa.types@.take(n as int) =~= pa.types@);
            assert(rowvals@.take(n as int) =~= rowvals@);
            assert(mt@ == pa.types@.remove(p as int));
            assert(mv@ == rowvals@.remove(p as int));
            Self::lemma_remove_part(pa.types@, rowvals@, p as int);
        }
        let target = self.find_or_create(&mt);
        let ghost mid_world = *self;
        proof {
            assert(target != a) by {
                if target == a {
                    assert(mid_world.archetypes@[a as int] == pa);
                    assert(pa.sig() == ids_of(mt@));
                    assert(!ids_of(mt@).contains(t)) by {
                        if ids_of(mt@).contains(t) {
                            let c = crate::types::index_of(ids_of(mt@), t);
                            assert(ids_of(mt@)[c] == t);
                            assert(mt@[c].id == t);
                            crate::types::lemma_sorted_types_ids(pa.types@);
                            if c < p as int {
                                assert(pa.types@[c].id < pa.types@[p as int].id);
                            } else {
                                assert(pa.types@[p as int].id < pa.types@[c + 1].id);
                            }
                        }
                    }
                    assert(pa.sig()[p as int] == t);
                }
            }
            assert(mid_world.live_spec(e));
            assert(mid_world.loc_spec(e) == loc);
            assert(mid_world.archetypes@[a as int] == pa);
            assert(mid_world.archetypes@[target as int].len_spec() < usize::MAX) by {
                if (target as int) < pre.archetypes@.len() {
                    assert(mid_world.archetypes@[target as int] == pre.archetypes@[target as int]);
                }
            }
            assert(ids_of(mid_world.archetypes@[target as int].types@) == ids_of(mt@));
        }
        proof {
            assert(mid_world.archetypes@[target as int].types@.len() == ids_of(
                mid_world.archetypes@[target as int].types@,
            ).len());
            assert(ids_of(mt@).len() == mt@.len());
        }
        self.move_row(e, target, &mv);
        proof {
            let tt = mid_world.archetypes@[target as int].types@;
            assert(sig_values_map(tt, mv@) == sig_values_map(mt@, mv@)) by {
                assert(sig_values_map(tt, mv@) =~= sig_values_map(mt@, mv@));
            }
            Self::lemma_row_as_parts(pa, loc.row as int, rowvals@);
            assert(pre.components_of(e) == arch_row_map(pa, loc.row as int));
            assert(self.components_of(e) == pre.components_of(e).remove(t));
            assert(v == pre.components_of(e)[t]) by {
                assert(pa.value_spec(t, loc.row as int) == v);
            }
            assert forall|e2: Entity| #![trigger pre.live_spec(e2)] e2 != e implies
                self.live_spec(e2) == pre.live_spec(e2) && (pre.live_spec(e2)
                    ==> self.components_of(e2) == pre.components_of(e2)) by {
                assert(mid_world.live_spec(e2) == pre.live_spec(e2));
                if pre.live_spec(e2) {
                    assert(mid_world.components_of(e2) == pre.components_of(e2)) by {
                        let l2 = pre.loc_spec(e2);
                        assert(mid_world.archetypes@[l2.archetype as int] == pre.archetypes@[
                            l2.archetype as int]);
                    }
                }
            }
        }
        Ok(v)
    }

    /// Run a query against a single entity: its row's items when the
    /// entity's archetype satisfies the query, `None` when it does not,
    /// an error when the handle is stale.
    pub fn query_one(&self, e: Entity, q: &Query) -> (r: Result<Option<Vec<ItemPart>>, NoSuchEntity>)
        requires
            self.wf(),
        ensures
            match r {
                Ok(opt) => self.live_spec(e) && ({
                    let arch = self.archetypes@[self.loc_spec(e).archetype as int];
                    match opt {
                        Some(v) => matches_arch(*q, arch) && v@ == item_of(
                            *q,
                            arch,
                            self.loc_spec(e).row as int,
                        ),
                        None => !matches_arch(*q, arch),
                    }
                }),
                Err(NoSuchEntity) => !self.live_spec(e),
            },
    {
        match self.entities.get(e) {
            None => Err(NoSuchEntity),
            Some(loc) => {
                let arch = &self.archetypes[loc.archetype];
                if crate::query::access(q, arch).is_some() {
                    Ok(Some(crate::query::get_row(q, arch, loc.row)))
                } else {
                    Ok(None)
                }
            }
        }
    }

    /// Every live entity, each exactly once: archetypes in list order,
    /// rows in index order.
    pub fn iter(&self) -> (r: Vec<Entity>)
        requires
            self.wf(),
        ensures
            forall|i: int| 0 <= i < r@.len() ==> self.live_spec(#[trigger] r@[i]),
            forall|e: Entity| self.live_spec(e) ==> r@.contains(e),
            forall|i: int, j: int| 0 <= i < j < r@.len() ==> r@[i] != r@[j],
    {
        let mut r: Vec<Entity> = Vec::new();
        let n = self.archetypes.len();
        let mut a: usize = 0;
        while a < n
            invariant
                a <= n,
                n == self.archetypes@.len(),
                self.wf(),
                forall|i: int| 0 <= i < r@.len() ==> self.live_spec(#[trigger] r@[i]),
                forall|i: int|
                    0 <= i < r@.len() ==> (self.loc_spec(#[trigger] r@[i]).archetype as int) < a,
                forall|e: Entity|
                    #![trigger self.live_spec(e)]
                    self.live_spec(e) && (self.loc_spec(e).archetype as int) < a ==> r@.contains(
                        e,
                    ),
                forall|i: int, j: int| 0 <= i < j < r@.len() ==> r@[i] != r@[j],
            decreases n - a,
        {
            let m = self.archetypes[a].len();
            let mut row: usize = 0;
            while row < m
                invariant
                    a < n,
                    row <= m,
                    n == self.archetypes@.len(),
                    m == self.archetypes@[a as int].len_spec(),
                    self.wf(),
                    forall|i: int| 0 <= i < r@.len() ==> self.live_spec(#[trigger] r@[i]),
                    forall|i: int|
                        0 <= i < r@.len() ==> (self.loc_spec(#[trigger] r@[i]).archetype as int)
                            < a || ((self.loc_spec(r@[i]).archetype as int) == a && (self.loc_spec(
                            r@[i],
                        ).row as int) < row),
                    forall|e: Entity|
                        #![trigger self.live_spec(e)]
                        self.live_spec(e) && ((self.loc_spec(e).archetype as int) < a || ((
                        self.loc_spec(e).archetype as int) == a && (self.loc_spec(e).row as int)
                            < row)) ==> r@.contains(e),
                    forall|i: int, j: int| 0 <= i < j < r@.len() ==> r@[i] != r@[j],
                decreases m - row,
            {
                let id = self.archetypes[a].entities[row];
                let gen = self.entities.meta[id as usize].generation;
                let e = Entity { id, generation: gen };
                proof {
                    lemma_row_is_live_entity(*self, a as int, row as int);
                    assert(self.live_spec(e));
                    assert(self.loc_spec(e) == Location { archetype: a, row });
                }
                let ghost r0 = r@;
                r.push(e);
                proof {
                    assert(r@ == r0.push(e));
                    assert(r@[r0.len() as int] == e);
                    assert forall|x: Entity| r0.contains(x) implies r@.contains(x) by {
                        let i = choose|i: int| 0 <= i < r0.len() && r0[i] == x;
                        assert(r@[i] == x);
                    }
                    assert(r@.contains(e));
                    assert forall|e2: Entity|
                        #![trigger self.live_spec(e2)]
                        self.live_spec(e2) && ((self.loc_spec(e2).archetype as int) < a as int || ((
                        self.loc_spec(e2).archetype as int) == a as int && (self.loc_spec(
                            e2,
                        ).row as int) < row as int + 1)) implies r@.contains(e2) by {
                        if (self.loc_spec(e2).archetype as int) == a as int && (self.loc_spec(
                            e2,
                        ).row as int) == row as int {
                            assert(self.archetypes@[a as int].entities@[row as int] == e2.id);
                            assert(e2.id == id);
                            assert(e2.generation == gen);
                            assert(e2 == e);
                        } else {
                            assert(r0.contains(e2));
                        }
                    }
                    assert forall|i: int, j: int| 0 <= i < j < r@.len() implies r@[i] != r@[j] by {
                        if j == r0.len() as int {
                            assert((self.loc_spec(r@[i]).archetype as int) < a as int || (
                            self.loc_spec(r@[i]).row as int) < row as int);
                        }
                    }
                }
                row += 1;
            }
            a += 1;
        }
        proof {
            assert forall|e: Entity|
                #![trigger self.live_spec(e)]
                self.live_spec(e) implies r@.contains(e) by {
                assert(self.entities.meta@[e.id as int].location is Some);
                assert((self.loc_spec(e).archetype as int) < n as int);
            }
        }
        r
    }

    /// Despawn every entity, keeping the archetypes (emptied) and the
    /// directory's generations, so previously issued handles stay stale.
    pub fn clear(&mut self)
        requires
            old(self).wf(),
        ensures
            final(self).wf(),
            forall|e: Entity| !final(self).live_spec(e),
            Entities::gens_mono(old(self).entities, final(self).entities),
            final(self).generation == old(self).generation,
            final(self).archetypes@.len() == old(self).archetypes@.len(),
            forall|k: int|
                0 <= k < final(self).archetypes@.len() ==> (#[trigger] final(self).archetypes@[k]).types == old(self).archetypes@[k].types,
    {
        let ghost pre = *self;
        let n = self.entities.meta.len();
        let mut i: usize = 0;
        while i < n
            invariant
                i <= n,
                n == self.entities.meta@.len(),
                self.entities.wf(),
                self.archetypes == pre.archetypes,
                self.generation == pre.generation,
                Entities::gens_mono(pre.entities, self.entities),
                forall|k: int|
                    0 <= k < i ==> (#[trigger] self.entities.meta@[k]).location is None,
            decreases n - i,
        {
            let m = self.entities.meta[i];
            if m.location.is_some() {
                let ghost snap = self.entities;
                self.entities.free(Entity { id: i as u32, generation: m.generation });
                proof {
                    assert forall|k: int|
                        0 <= k < i implies (#[trigger] self.entities.meta@[k]).location
                        is None by {
                        assert(self.entities.meta@[k] == snap.meta@[k]);
                    }
                }
            }
            i += 1;
        }
        let m = self.archetypes.len();
        let mut a: usize = 0;
        while a < m
            invariant
                a <= m,
                m == self.archetypes@.len(),
                self.archetypes@.len() == pre.archetypes@.len(),
                forall|k: int|
                    0 <= k < self.archetypes@.len() ==> (#[trigger] self.archetypes@[k]).types
                        == pre.archetypes@[k].types,
                forall|k: int|
                    0 <= k < self.archetypes@.len() ==> (#[trigger] self.archetypes@[k]).wf(),
                forall|k: int| 0 <= k < a ==> (#[trigger] self.archetypes@[k]).len_spec() == 0,
                forall|k: int|
                    0 <= k < self.entities.meta@.len() ==> (#[trigger] self.entities.meta@[
                        k]).location is None,
                self.entities.wf(),
                self.generation == pre.generation,
                Entities::gens_mono(pre.entities, self.entities),
            decreases m - a,
        {
            self.archetypes[a].clear_rows();
            a += 1;
        }
        proof {
            assert forall|k1: int, k2: int|
                0 <= k1 < k2 < self.archetypes@.len() implies (
            #[trigger] self.archetypes@[k1]).sig() != (#[trigger] self.archetypes@[k2]).sig() by {
                assert(pre.archetypes@[k1].sig() != pre.archetypes@[k2].sig());
                assert(self.archetypes@[k1].types == pre.archetypes@[k1].types);
                assert(self.archetypes@[k2].types == pre.archetypes@[k2].types);
            }
            assert(self.wf());
        }
    }

}


/// Query coverage, world side: every row of every archetype belongs to
/// exactly one live entity, whose current components are that row. What a
/// query yields from row `r` of a matching archetype is therefore that
/// entity's data.
pub proof fn lemma_row_is_live_entity(w: World, a: int, r: int)
    requires
        w.wf(),
        w.archetypes@.len() <= usize::MAX,
        0 <= a < w.archetypes@.len(),
        0 <= r < w.archetypes@[a].len_spec(),
    ensures
        ({
            let id = w.archetypes@[a].entities@[r];
            let e = Entity { id, generation: w.entities.meta@[id as int].generation };
            &&& w.live_spec(e)
            &&& w.loc_spec(e) == Location { archetype: a as usize, row: r as usize }
            &&& w.components_of(e) == arch_row_map(w.archetypes@[a], r)
        }),
{
    let id = w.archetypes@[a].entities@[r];
    assert(w.entities.meta@[id as int].location == Some(
        Location { archetype: a as usize, row: r as usize },
    ));
}

/// Spawn-despawn idempotence: once a handle has been despawned (its
/// directory entry invalidated), it is dead, whatever it carried before.
pub proof fn lemma_spawn_despawn(w1: World, w2: World, e: Entity)
    requires
        w1.live_spec(e),
        (e.id as int) < w2.entities.meta@.len(),
        w2.entities.meta@[e.id as int].location is None,
    ensures
        !w2.live_spec(e),
{
}

/// Insert-remove round trip: inserting a component of type `t` with value
/// `x` and then removing type `t` yields `x` back and leaves the entity's
/// other components exactly as they were.
pub proof fn lemma_insert_remove_roundtrip(
    m0: Map<u64, u64>,
    m1: Map<u64, u64>,
    m2: Map<u64, u64>,
    t: u64,
    x: u64,
    v: u64,
)
    requires
        m1 == m0.insert(t, x),
        v == m1[t],
        m2 == m1.remove(t),
    ensures
        v == x,
        m2 == m0.remove(t),
        !m0.dom().contains(t) ==> m2 == m0,
{
    assert(m2 =~= m0.remove(t));
    if !m0.dom().contains(t) {
        assert(m0.remove(t) =~= m0);
    }
}

} // verus!
