//! A world whose mirrored components follow it to the device.

use vstd::prelude::*;

pub mod recording;
pub mod replicated;

use crate::component::ComponentId;
use crate::entity::Entity;
use crate::gpu::device::SyncStats;
use crate::gpu::dynamic_buffer::CapacityError;
use crate::gpu::world_mirror::{borrowed, component_reserved, component_shrunk, covering_rows, lemma_removed_clears, mirror_reserved, mirror_shrunk, GpuComponent, GpuMirrorHandle, MirrorModel};
use crate::query::{compatible, components_of, first_alias, validate_mutable_accesses, Access, QueryError, QueryIterMut, WorldQueryMut};
use crate::world::World;

verus! {

/// A world with a mirror, if one is attached. Without one it is the world.
pub struct MirroredWorld<V> {
    world: World<V>,
    gpu_mirror: Option<GpuMirrorHandle>,
}

impl<V> MirroredWorld<V> {
    /// The world.
    pub closed spec fn world(&self) -> World<V> {
        self.world
    }

    /// The mirror, if one is attached.
    pub closed spec fn mirror(&self) -> Option<MirrorModel> {
        match self.gpu_mirror {
            Some(m) => Some(m@),
            None => None,
        }
    }

    /// The invariants of the world and of the mirror.
    pub closed spec fn well_formed(&self) -> bool {
        &&& self.world.well_formed()
        &&& self.gpu_mirror matches Some(m) ==> m.well_formed()
    }

    /// A world without a mirror.
    pub fn new(world: World<V>) -> (w: MirroredWorld<V>)
        requires
            world.well_formed(),
        ensures
            w.well_formed(),
            w.world() == world,
            w.mirror() is None,
    {
        MirroredWorld { world, gpu_mirror: None }
    }

    /// Attaches a mirror, in place of the one that was attached.
    pub fn attach_gpu_mirror(&mut self, mirror: GpuMirrorHandle)
        requires
            old(self).well_formed(),
            mirror.well_formed(),
        ensures
            final(self).well_formed(),
            final(self).world() == old(self).world(),
            final(self).mirror() == Some(mirror@),
    {
        self.gpu_mirror = Some(mirror);
    }

    /// Detaches the mirror, if one is attached.
    pub fn detach_gpu_mirror(&mut self) -> (mirror: Option<GpuMirrorHandle>)
        requires
            old(self).well_formed(),
        ensures
            final(self).well_formed(),
            final(self).world() == old(self).world(),
            final(self).mirror() is None,
            match mirror {
                Some(m) => m.well_formed() && old(self).mirror() == Some(m@),
                None => old(self).mirror() is None,
            },
    {
        let mut mirror: Option<GpuMirrorHandle> = None;
        std::mem::swap(&mut mirror, &mut self.gpu_mirror);
        mirror
    }

    /// Whether a mirror is attached.
    pub fn has_gpu_mirror(&self) -> (yes: bool)
        ensures
            yes == self.mirror() is Some,
    {
        self.gpu_mirror.is_some()
    }

    /// The mirror, if one is attached.
    pub fn gpu_mirror(&self) -> (mirror: Option<&GpuMirrorHandle>)
        ensures
            match mirror {
                Some(m) => self.mirror() == Some(m@),
                None => self.mirror() is None,
            },
    {
        self.gpu_mirror.as_ref()
    }

    /// The mirror, if one is attached, to be changed.
    pub fn gpu_mirror_mut(&mut self) -> (mirror: Option<&mut GpuMirrorHandle>)
        requires
            old(self).well_formed(),
        ensures
            final(self).world() == old(self).world(),
            match mirror {
                Some(m) => {
                    &&& m.well_formed()
                    &&& old(self).mirror() == Some(m@)
                    &&& final(self).mirror() == Some(final(m)@)
                    &&& final(m).well_formed() ==> final(self).well_formed()
                },
                None => old(self).mirror() is None && *final(self) == *old(self),
            },
    {
        self.gpu_mirror.as_mut()
    }

    /// The world, for reading.
    pub fn get_world(&self) -> (w: &World<V>)
        ensures
            *w == self.world(),
    {
        &self.world
    }

    /// The row of an entity for a component type in the mirror; `None` without
    /// a mirror, or without a row.
    pub fn gpu_row_for_component(&self, component_id: ComponentId, entity: Entity) -> (row: Option<u32>)
        ensures
            row == (match self.mirror() {
                Some(m) => if m.rows[component_id].rows.contains_key(entity) {
                    Some(m.rows[component_id].rows[entity])
                } else {
                    None
                },
                None => None,
            }),
    {
        match &self.gpu_mirror {
            Some(m) => m.gpu_row_for_component(component_id, entity),
            None => None,
        }
    }

    /// Whether everything that is to be uploaded fits on the device.
    pub fn mirror_fits(&self) -> (yes: bool)
        requires
            self.well_formed(),
        ensures
            yes == (self.mirror() matches Some(m) ==> m.fits()),
    {
        match &self.gpu_mirror {
            Some(m) => m.fits(),
            None => true,
        }
    }

    /// Uploads everything that changed since the last flush; `None` without a
    /// mirror.
    pub fn flush_gpu_mirror(&mut self) -> (stats: Option<SyncStats>)
        requires
            old(self).well_formed(),
            old(self).mirror() matches Some(m) ==> m.fits(),
        ensures
            final(self).well_formed(),
            final(self).world() == old(self).world(),
            match old(self).mirror() {
                Some(m) => stats == Some(m.flush_stats()) && final(self).mirror() == Some(m.flushed()),
                None => stats is None && final(self).mirror() is None,
            },
    {
        match &mut self.gpu_mirror {
            Some(m) => Some(m.flush()),
            None => None,
        }
    }

    /// Grows every mirrored column ahead of inserts that are known to come;
    /// `None` without a mirror.
    pub fn reserve_gpu_mirror_capacity(&mut self, n: u32) -> (out: Option<Result<(), CapacityError>>)
        requires
            old(self).well_formed(),
        ensures
            final(self).well_formed(),
            final(self).world() == old(self).world(),
            match old(self).mirror() {
                Some(m) => out is Some && final(self).mirror() is Some && mirror_reserved(
                    m,
                    final(self).mirror().unwrap(),
                    n,
                    out.unwrap(),
                ),
                None => out is None && final(self).mirror() is None,
            },
    {
        match &mut self.gpu_mirror {
            Some(m) => Some(m.reserve(n)),
            None => None,
        }
    }

    /// Grows the columns of one component type; `None` without a mirror.
    pub fn reserve_gpu_component_capacity(&mut self, component_id: ComponentId, capacity: u32) -> (out: Option<
        Result<(), CapacityError>,
    >)
        requires
            old(self).well_formed(),
        ensures
            final(self).well_formed(),
            final(self).world() == old(self).world(),
            match old(self).mirror() {
                Some(m) => out is Some && final(self).mirror() is Some && component_reserved(
                    m,
                    final(self).mirror().unwrap(),
                    component_id,
                    capacity,
                    out.unwrap(),
                ),
                None => out is None && final(self).mirror() is None,
            },
    {
        match &mut self.gpu_mirror {
            Some(m) => Some(m.reserve_gpu_component_capacity(component_id, capacity)),
            None => None,
        }
    }

    /// Cuts every mirrored column to as many rows as cover `highest_live_row`,
    /// and `headroom` more, if a mirror is attached.
    pub fn shrink_gpu_mirror_to_fit(&mut self, highest_live_row: u32, headroom: u32)
        requires
            old(self).well_formed(),
        ensures
            final(self).well_formed(),
            final(self).world() == old(self).world(),
            match old(self).mirror() {
                Some(m) => final(self).mirror() is Some && mirror_shrunk(
                    m,
                    final(self).mirror().unwrap(),
                    covering_rows(highest_live_row, headroom),
                ),
                None => final(self).mirror() is None,
            },
    {
        if let Some(m) = &mut self.gpu_mirror {
            m.shrink_to_fit(highest_live_row, headroom);
        }
    }

    /// Cuts the columns of one component type to its rows, and `headroom` more;
    /// `None` without a mirror.
    pub fn shrink_gpu_component_to_fit(&mut self, component_id: ComponentId, headroom: u32) -> (shrank: Option<bool>)
        requires
            old(self).well_formed(),
        ensures
            final(self).well_formed(),
            final(self).world() == old(self).world(),
            match old(self).mirror() {
                Some(m) => shrank is Some && final(self).mirror() is Some && component_shrunk(
                    m,
                    final(self).mirror().unwrap(),
                    component_id,
                    covering_rows(m.last_row(component_id), headroom),
                    shrank.unwrap(),
                ),
                None => shrank is None && final(self).mirror() is None,
            },
    {
        match &mut self.gpu_mirror {
            Some(m) => Some(m.shrink_gpu_component_to_fit(component_id, headroom)),
            None => None,
        }
    }

    /// Makes room for `count` more entities ahead of a batch of spawns.
    pub fn reserve_entities(&mut self, count: u32)
        requires
            old(self).well_formed(),
        ensures
            final(self).well_formed(),
            World::tables_kept(&old(self).world(), &final(self).world()),
            final(self).mirror() == old(self).mirror(),
    {
        self.world.reserve_entities(count)
    }

    /// Makes a new entity. The device learns of it with its first mirrored
    /// component, if it ever gets one.
    pub fn spawn(&mut self) -> (entity: Entity)
        requires
            old(self).well_formed(),
            old(self).world().has_room(),
        ensures
            final(self).well_formed(),
            World::spawned(&old(self).world(), &final(self).world(), entity),
            final(self).mirror() == old(self).mirror(),
    {
        self.world.spawn()
    }

    /// A component of an entity, if it has it, to be changed in place. The device
    /// does not learn of the change; [`MirroredWorld::insert`] lets it.
    pub fn get_mut(&mut self, entity: Entity, cid: ComponentId) -> (found: Option<&mut V>)
        requires
            old(self).well_formed(),
        ensures
            final(self).mirror() == old(self).mirror(),
            found is Some <==> old(self).world()@.contains_key(entity) && old(self).world()@[entity].contains_key(cid),
            match found {
                Some(v) => {
                    &&& *v == old(self).world()@[entity][cid]
                    &&& final(self).well_formed()
                    &&& final(self).world()@ == old(self).world()@.insert(
                        entity,
                        old(self).world()@[entity].insert(cid, *final(v)),
                    )
                    &&& final(self).world().entity_slots == old(self).world().entity_slots
                    &&& final(self).world().free_slots == old(self).world().free_slots
                },
                None => *final(self) == *old(self),
            },
    {
        self.world.get_mut(entity, cid)
    }

    /// A component is asked for to be changed in place, but the device would
    /// not learn of the change.
    pub open spec fn hidden_change(&self, a: Access) -> bool {
        a.mutable && (self.mirror() matches Some(m) && m.store.mirrors.contains_key(a.component))
    }

    /// Walks all entities that have the components asked for, as
    /// [`World::query_mut`] does. With a mirror attached, a mirrored component
    /// cannot be changed in place: its value is copied, edited, and replaced
    /// with [`MirroredWorld::insert`].
    pub fn query_mut<'w, Q: WorldQueryMut>(&'w mut self, pattern: &Q) -> (out: Result<QueryIterMut<'w, V>, QueryError>)
        requires
            old(self).well_formed(),
        ensures
            final(self).mirror() == old(self).mirror(),
            out is Ok <==> compatible(pattern.asked_accesses()) && forall|i: int|
                0 <= i < pattern.asked_accesses().len() ==> !#[trigger] old(self).hidden_change(pattern.asked_accesses()[i]),
            match out {
                Ok(iter) => {
                    &&& iter.well_formed()
                    &&& iter.now() == old(self).world()
                    &&& final(self).world() == *final(iter.world)
                    &&& iter.accesses() == pattern.asked_accesses()
                    &&& iter.current() is None
                    &&& iter.remaining() == old(self).world().found(components_of(pattern.asked_accesses()))
                },
                Err(e) => {
                    &&& final(self).world() == old(self).world()
                    &&& !compatible(pattern.asked_accesses()) ==> first_alias(pattern.asked_accesses(), e)
                    &&& compatible(pattern.asked_accesses()) ==> exists|i: int|
                        0 <= i < pattern.asked_accesses().len() && #[trigger] old(self).hidden_change(pattern.asked_accesses()[i]) && e
                            == QueryError::Mirrored(pattern.asked_accesses()[i].component) && forall|j: int|
                            0 <= j < i ==> !#[trigger] old(self).hidden_change(pattern.asked_accesses()[j])
                },
            },
    {
        let mut accesses: Vec<Access> = Vec::new();
        pattern.collect_accesses(&mut accesses);
        assert(accesses@ =~= pattern.asked_accesses());
        match validate_mutable_accesses(&accesses) {
            Ok(_) => {},
            Err(e) => {
                return Err(e);
            },
        }
        if let Some(m) = &self.gpu_mirror {
            let mut i: usize = 0;
            while i < accesses.len()
                invariant
                    i <= accesses@.len(),
                    compatible(accesses@),
                    accesses@ == pattern.asked_accesses(),
                    self.mirror() == Some(m@),
                    m.well_formed(),
                    forall|j: int| 0 <= j < i ==> !#[trigger] self.hidden_change(accesses@[j]),
                decreases accesses@.len() - i,
            {
                if accesses[i].mutable && m.store().gpu_column_descs_for_component(accesses[i].component).is_some() {
                    assert(self.hidden_change(accesses@[i as int]));
                    return Err(QueryError::Mirrored(accesses[i].component));
                }
                i = i + 1;
            }
        }
        self.world.query_mut(pattern)
    }
}

/// The component that an entity has of a type, if it has one.
pub open spec fn held<V>(world: Map<Entity, Map<ComponentId, V>>, e: Entity, cid: ComponentId) -> Option<V> {
    if world.contains_key(e) && world[e].contains_key(cid) {
        Some(world[e][cid])
    } else {
        None
    }
}

impl<V: GpuComponent> MirroredWorld<V> {
    /// Gives a live entity a component, and mirrors it. Where it replaces a value
    /// that the mirror has, only the fields that differ are written.
    ///
    /// If the mirror refuses the value, which only a growable column with a
    /// ceiling does, the world stays as it is. The fields before the one that was
    /// refused are then ahead of it in the mirror.
    pub fn insert(&mut self, entity: Entity, cid: ComponentId, value: V) -> (out: Result<(), CapacityError>)
        requires
            old(self).well_formed(),
            old(self).world()@.contains_key(entity),
            !old(self).world()@[entity].contains_key(cid) ==> old(self).world().has_archetype_room(),
            cid.0 < usize::MAX,
            old(self).mirror() matches Some(m) ==> m.takes(cid, entity, value),
        ensures
            final(self).well_formed(),
            match old(self).mirror() {
                Some(m) => out == m.inserted(cid, entity, value, held(old(self).world()@, entity, cid)).1 && final(self).mirror() == Some(
                    m.inserted(cid, entity, value, held(old(self).world()@, entity, cid)).0,
                ),
                None => out == Ok::<(), CapacityError>(()) && final(self).mirror() is None,
            },
            out is Ok ==> final(self).world()@ == old(self).world()@.insert(
                entity,
                old(self).world()@[entity].insert(cid, value),
            ),
            out is Err ==> final(self).world() == old(self).world(),
            World::slots_kept(&old(self).world(), &final(self).world()),
    {
        proof {
            assert(self.world.slot_ok(entity.index() as int));
        }
        if let Some(m) = &mut self.gpu_mirror {
            let prev = self.world.get(entity, cid);
            assert(borrowed(prev) == held(old(self).world()@, entity, cid));
            match m.note_insert(cid, entity, &value, prev) {
                Ok(done) => {
                    assert(done == ());
                },
                Err(e) => {
                    return Err(e);
                },
            }
        }
        self.world.insert(entity, cid, value);
        Ok(())
    }

    /// Takes a component from an entity, and from the mirror. Returns its
    /// value, if the entity had it.
    pub fn remove(&mut self, entity: Entity, cid: ComponentId) -> (out: Result<Option<V>, CapacityError>)
        requires
            old(self).well_formed(),
            old(self).world()@.contains_key(entity) && old(self).world()@[entity].contains_key(cid)
                ==> old(self).world().has_archetype_room(),
            old(self).mirror() matches Some(m) ==> m.clears(cid, entity),
        ensures
            final(self).well_formed(),
            ({
                let had = old(self).world()@.contains_key(entity) && old(self).world()@[entity].contains_key(cid);
                if had {
                    &&& match old(self).mirror() {
                        Some(m) => {
                            &&& out is Ok <==> m.removed(cid, entity).1 is Ok
                            &&& m.removed(cid, entity).1 matches Err(e) ==> out == Err::<Option<V>, CapacityError>(e)
                            &&& final(self).mirror() == Some(m.removed(cid, entity).0)
                        },
                        None => out is Ok && final(self).mirror() is None,
                    }
                    &&& out matches Ok(v) ==> v == Some(old(self).world()@[entity][cid]) && final(self).world()@
                        == old(self).world()@.insert(entity, old(self).world()@[entity].remove(cid))
                    &&& out is Err ==> final(self).world() == old(self).world()
                } else {
                    &&& out matches Ok(v) && v is None
                    &&& final(self).world() == old(self).world()
                    &&& final(self).mirror() == old(self).mirror()
                }
            }),
            World::slots_kept(&old(self).world(), &final(self).world()),
    {
        if self.world.get(entity, cid).is_none() {
            return Ok(None);
        }
        if let Some(m) = &mut self.gpu_mirror {
            match m.note_remove(cid, entity) {
                Ok(_) => {},
                Err(e) => {
                    return Err(e);
                },
            }
        }
        Ok(self.world.remove(entity, cid))
    }
}

/// The mirror after the first `n` component types of `key` of an entity were
/// removed from it, up to the first that is refused.
pub open spec fn all_removed(m: MirrorModel, key: Seq<ComponentId>, e: Entity, n: int) -> (MirrorModel, Result<
    (),
    CapacityError,
>)
    decreases n,
{
    if n <= 0 {
        (m, Ok(()))
    } else {
        let before = all_removed(m, key, e, n - 1);
        if before.1 is Ok {
            before.0.removed(key[n - 1], e)
        } else {
            before
        }
    }
}

pub(crate) proof fn lemma_all_removed_clears(m: MirrorModel, key: Seq<ComponentId>, e: Entity, n: int)
    requires
        0 <= n < key.len(),
        forall|i: int, j: int| 0 <= i < j < key.len() ==> (#[trigger] key[i]) != (#[trigger] key[j]),
        forall|i: int| 0 <= i < key.len() ==> m.clears(#[trigger] key[i], e),
    ensures
        forall|j: int| n <= j < key.len() ==> all_removed(m, key, e, n).0.clears(#[trigger] key[j], e),
    decreases n,
{
    if n > 0 {
        lemma_all_removed_clears(m, key, e, n - 1);
        let before = all_removed(m, key, e, n - 1);
        assert forall|j: int| n <= j < key.len() implies all_removed(m, key, e, n).0.clears(#[trigger] key[j], e) by {
            assert(key[n - 1] != key[j]);
            assert(before.0.clears(key[j], e));
            lemma_removed_clears(before.0, key[n - 1], e, key[j], e);
        }
    }
}

proof fn lemma_all_removed_stops(m: MirrorModel, key: Seq<ComponentId>, e: Entity, k: int, n: int)
    requires
        0 <= k <= n,
        all_removed(m, key, e, k).1 is Err,
    ensures
        all_removed(m, key, e, n) == all_removed(m, key, e, k),
    decreases n,
{
    if k < n {
        lemma_all_removed_stops(m, key, e, k, n - 1);
    }
}

impl<V> MirroredWorld<V> {
    /// Removes an entity with all its components, from the mirror too, and lets
    /// the device know the new generation of its slot if it knew the entity.
    /// Returns whether the entity was alive.
    ///
    /// If the mirror refuses, which only a growable column with a ceiling does,
    /// the world stays as it is.
    pub fn despawn(&mut self, entity: Entity) -> (out: Result<bool, CapacityError>)
        requires
            old(self).well_formed(),
            old(self).mirror() matches Some(m) ==> forall|c: ComponentId|
                old(self).world()@.contains_key(entity) && #[trigger] old(self).world()@[entity].contains_key(c)
                    ==> m.clears(c, entity),
        ensures
            final(self).well_formed(),
            if old(self).world()@.contains_key(entity) {
                let key = old(self).world().key_of(entity);
                match old(self).mirror() {
                    Some(m) => {
                        let gone = all_removed(m, key, entity, key.len() as int);
                        match gone.1 {
                            Ok(_) => {
                                &&& out == Ok::<bool, CapacityError>(true)
                                &&& World::despawned(&old(self).world(), &final(self).world(), entity)
                                &&& final(self).mirror() == Some(
                                    MirrorModel {
                                        generations: gone.0.generations.despawned(
                                            entity.index(),
                                            (entity.generation() + 1) as u32,
                                        ),
                                        ..gone.0
                                    },
                                )
                            },
                            Err(e) => {
                                &&& out == Err::<bool, CapacityError>(e)
                                &&& final(self).world() == old(self).world()
                                &&& final(self).mirror() == Some(gone.0)
                            },
                        }
                    },
                    None => {
                        &&& out == Ok::<bool, CapacityError>(true)
                        &&& World::despawned(&old(self).world(), &final(self).world(), entity)
                        &&& final(self).mirror() is None
                    },
                }
            } else {
                &&& out == Ok::<bool, CapacityError>(false)
                &&& final(self).world() == old(self).world()
                &&& final(self).mirror() == old(self).mirror()
            },
    {
        let ghost w0 = self.world;
        if !self.world.is_alive(entity) {
            return Ok(false);
        }
        let idx: usize = entity.index() as usize;
        proof {
            assert(w0.slot_ok(idx as int));
            crate::world::lemma_key_of(w0, entity);
        }
        let ghost key = w0.key_of(entity);
        let arch: usize = self.world.entity_slots[idx].archetype.0 as usize;
        let mut ids: Vec<ComponentId> = crate::archetype::copy_ids(&self.world.archetypes[arch].key.0);
        if let Some(mirror) = &mut self.gpu_mirror {
            let ghost m = mirror@;
            proof {
                assert forall|i: int| 0 <= i < key.len() implies m.clears(#[trigger] key[i], entity) by {
                    assert(key.to_set().contains(key[i]));
                    assert(w0@[entity].contains_key(key[i]));
                }
                assert forall|i: int, j: int| 0 <= i < j < key.len() implies (#[trigger] key[i]) != (
                #[trigger] key[j]) by {
                    assert(key[i].0 < key[j].0);
                }
            }
            let mut i: usize = 0;
            while i < ids.len()
                invariant
                    i <= ids@.len(),
                    ids@ == key,
                    mirror.well_formed(),
                    forall|a: int, b: int| 0 <= a < b < key.len() ==> (#[trigger] key[a]) != (#[trigger] key[b]),
                    forall|k: int| 0 <= k < key.len() ==> m.clears(#[trigger] key[k], entity),
                    (mirror@, Ok::<(), CapacityError>(())) == all_removed(m, key, entity, i as int),
                    after_borrow(self).world == w0,
                    after_borrow(self).gpu_mirror == Some(*final(mirror)),
                    old(self).world() == w0,
                    w0.well_formed(),
                    w0@.contains_key(entity),
                    key == w0.key_of(entity),
                    old(self).mirror() == Some(m),
                decreases ids@.len() - i,
            {
                proof {
                    lemma_all_removed_clears(m, key, entity, i as int);
                }
                let step = mirror.note_remove(ids[i], entity);
                proof {
                    assert((mirror@, step) == all_removed(m, key, entity, i + 1));
                }
                match step {
                    Ok(done) => {
                        assert(done == ());
                    },
                    Err(e) => {
                        proof {
                            lemma_all_removed_stops(m, key, entity, i + 1, key.len() as int);
                        }
                        return Err(e);
                    },
                }
                i = i + 1;
            }
        }
        self.world.despawn(entity);
        let generation: u32 = self.world.entity_slots[idx].generation;
        proof {
            assert(self.world.slot_generation(idx as int) == entity.generation() + 1);
        }
        if let Some(mirror) = &mut self.gpu_mirror {
            mirror.note_despawn(entity, generation);
        }
        Ok(true)
    }
}

} // verus!
