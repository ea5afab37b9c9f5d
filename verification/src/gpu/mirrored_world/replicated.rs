//! Deltas and snapshots on a mirrored world.
//!
//! A despawn, and the eviction of the entity in the slot of a spawn, clear what
//! the mirror has of the entity. A replicated spawn and replicated field bytes do
//! not reach the mirror: the device learns of a component with its next insert.

use vstd::prelude::*;
use crate::archetype::{ascending, lemma_ascending_unique};
use crate::component::ComponentId;
use crate::entity::{lemma_entity_parts, Entity};
use crate::gpu::dynamic_buffer::CapacityError;
use crate::gpu::mirrored_world::{all_removed, MirroredWorld};
use crate::gpu::world_mirror::{lemma_cleared_layout, lemma_layout_writable, lemma_mirrored_layout, lemma_removed_clears, row_writable, GpuComponent, MirrorModel};
use crate::replication::apply::{apply_changes, apply_despawns, apply_spawns, blob_types, can_place, claims_slot, delta_applied, lemma_applied_despawns_expire, lemma_despawn_keeps_sound, lemma_place_slots, place, world_model, WorldModel};
use crate::replication::encoding::decode_archetype_key;
use crate::replication::schema::{ReplicationRegistry, SchemaModel};
use crate::replication::snapshot::{captured_types, component_types, restore_components, lemma_restore_keeps_entities, restore_entities, restore_row, restores_slot, EntitySnapshotModel, Snapshot};
use crate::replication::types::{Delta, DeltaModel, ErrorCode};
use crate::replication::value::ReplicatedValue;
use crate::world::{lemma_despawned_slots, lemma_key_of, slot_in_use, without_slot, World};

verus! {

/// Why a delta or a snapshot was not applied in full.
#[derive(Copy, Clone, Debug, PartialEq, Eq, Structural)]
pub enum MirroredApplyError {
    /// The data is refused, as it is by a world without a mirror.
    Data(ErrorCode),
    /// The mirror cannot clear a row.
    Mirror(CapacityError),
}

/// The value of a world and of its mirror.
pub struct MirroredModel<V> {
    pub world: WorldModel<V>,
    pub mirror: Option<MirrorModel>,
}

impl MirrorModel {
    /// What the mirror has of any component of any entity can be cleared.
    pub open spec fn clearable(self) -> bool {
        forall|c: ComponentId, e: Entity| #[trigger] self.clears(c, e)
    }
}

impl<V> MirroredWorld<V> {
    /// The value of the world and of the mirror.
    pub open spec fn state(&self) -> MirroredModel<V> {
        MirroredModel { world: world_model(&self.world()), mirror: self.mirror() }
    }

    /// The mirror, if one is attached, can clear whatever it has.
    pub open spec fn clearable(&self) -> bool {
        self.mirror() matches Some(m) ==> m.clearable()
    }
}

/// The component types of a set in ascending order.
pub open spec fn key_list(ids: Set<ComponentId>) -> Seq<ComponentId> {
    choose|key: Seq<ComponentId>| #[trigger] ascending(key) && key.to_set() == ids
}

/// An entity is gone from the world and from the mirror. If the mirror refuses,
/// the world stays as it is.
pub open spec fn despawn_step<V>(s: MirroredModel<V>, e: Entity) -> (MirroredModel<V>, Result<(), CapacityError>) {
    if !s.world.entities.contains_key(e) {
        (s, Ok(()))
    } else {
        let gone = s.world.despawned(e);
        match s.mirror {
            None => (MirroredModel { world: gone, mirror: None }, Ok(())),
            Some(m) => {
                let key = key_list(s.world.entities[e].dom());
                let cleared = all_removed(m, key, e, key.len() as int);
                match cleared.1 {
                    Ok(_) => (
                        MirroredModel {
                            world: gone,
                            mirror: Some(
                                MirrorModel {
                                    generations: cleared.0.generations.despawned(
                                        e.index(),
                                        (e.generation() + 1) as u32,
                                    ),
                                    ..cleared.0
                                },
                            ),
                        },
                        Ok(()),
                    ),
                    Err(err) => (MirroredModel { mirror: Some(cleared.0), ..s }, Err(err)),
                }
            },
        }
    }
}

/// Entities are gone one after another, up to the first that the mirror refuses.
pub open spec fn despawn_all<V>(s: MirroredModel<V>, list: Seq<Entity>) -> (MirroredModel<V>, Result<
    (),
    CapacityError,
>)
    decreases list.len(),
{
    if list.len() == 0 {
        (s, Ok(()))
    } else {
        let before = despawn_all(s, list.drop_last());
        if before.1 is Ok {
            despawn_step(before.0, list.last())
        } else {
            before
        }
    }
}

/// The entity in a slot.
pub open spec fn entity_in<V>(m: Map<Entity, Map<ComponentId, V>>, idx: u32) -> Entity {
    choose|e: Entity| #[trigger] m.contains_key(e) && e.index() == idx
}

/// Whatever entity is in the slot is gone.
pub open spec fn evict_step<V>(s: MirroredModel<V>, idx: u32) -> (MirroredModel<V>, Result<(), CapacityError>) {
    if slot_in_use(s.world.entities, idx) {
        despawn_step(s, entity_in(s.world.entities, idx))
    } else {
        (s, Ok(()))
    }
}

/// An entity is placed with a fresh row of the given component types, after
/// whatever entity was in its slot is gone.
pub open spec fn spawn_step<V: ReplicatedValue>(
    s: MirroredModel<V>,
    e: Entity,
    ids: Set<ComponentId>,
    reg: Seq<SchemaModel>,
) -> (MirroredModel<V>, Result<(), MirroredApplyError>) {
    if !can_place(s.world.slots.len(), e) {
        (s, Err(MirroredApplyError::Data(ErrorCode::InvalidData)))
    } else {
        let free = evict_step(s, e.index());
        match free.1 {
            Err(err) => (free.0, Err(MirroredApplyError::Mirror(err))),
            Ok(_) => {
                let placed = place(free.0.world, e, ids, reg);
                (
                    MirroredModel { world: placed.0, ..free.0 },
                    if placed.1 {
                        Ok(())
                    } else {
                        Err(MirroredApplyError::Data(ErrorCode::InvalidData))
                    },
                )
            },
        }
    }
}

/// The spawns one after another, up to the first that fails.
pub open spec fn spawn_all<V: ReplicatedValue>(
    s: MirroredModel<V>,
    spawned: Seq<(Entity, Seq<u8>)>,
    reg: Seq<SchemaModel>,
) -> (MirroredModel<V>, Result<(), MirroredApplyError>)
    decreases spawned.len(),
{
    if spawned.len() == 0 {
        (s, Ok(()))
    } else {
        let before = spawn_all(s, spawned.drop_last(), reg);
        if before.1 is Ok {
            spawn_step(before.0, spawned.last().0, blob_types(spawned.last().1), reg)
        } else {
            before
        }
    }
}

/// A mirrored world after a delta: despawns, then spawns, then field writes, up
/// to the first failure.
pub open spec fn mirrored_applied<V: ReplicatedValue>(
    s: MirroredModel<V>,
    d: DeltaModel,
    reg: Seq<SchemaModel>,
) -> (MirroredModel<V>, Result<(), MirroredApplyError>) {
    let gone = despawn_all(s, d.despawned);
    match gone.1 {
        Err(err) => (gone.0, Err(MirroredApplyError::Mirror(err))),
        Ok(_) => {
            let placed = spawn_all(gone.0, d.spawned, reg);
            if placed.1 is Ok {
                let written = apply_changes(placed.0.world.entities, d.component_deltas, reg);
                (
                    MirroredModel { world: WorldModel { entities: written.0, ..placed.0.world }, ..placed.0 },
                    match written.1 {
                        Ok(_) => Ok(()),
                        Err(err) => Err(MirroredApplyError::Data(err)),
                    },
                )
            } else {
                placed
            }
        },
    }
}

/// One captured entity is placed and its components are written.
pub open spec fn restore_step<V: ReplicatedValue>(
    s: MirroredModel<V>,
    snap: EntitySnapshotModel,
    reg: Seq<SchemaModel>,
) -> (MirroredModel<V>, Result<(), MirroredApplyError>) {
    let placed = spawn_step(s, snap.entity, captured_types(snap.components), reg);
    if placed.1 is Ok {
        let written = restore_components(placed.0.world.entities, snap.entity, snap.components, reg);
        (
            MirroredModel { world: WorldModel { entities: written.0, ..placed.0.world }, ..placed.0 },
            match written.1 {
                Ok(_) => Ok(()),
                Err(err) => Err(MirroredApplyError::Data(err)),
            },
        )
    } else {
        placed
    }
}

/// A mirrored world after captured entities were put back one after another, up
/// to the first failure.
pub open spec fn mirrored_restored<V: ReplicatedValue>(
    s: MirroredModel<V>,
    snaps: Seq<EntitySnapshotModel>,
    reg: Seq<SchemaModel>,
) -> (MirroredModel<V>, Result<(), MirroredApplyError>)
    decreases snaps.len(),
{
    if snaps.len() == 0 {
        (s, Ok(()))
    } else {
        let before = mirrored_restored(s, snaps.drop_last(), reg);
        if before.1 is Ok {
            restore_step(before.0, snaps.last(), reg)
        } else {
            before
        }
    }
}

proof fn lemma_despawns_stop<V>(s: MirroredModel<V>, list: Seq<Entity>, k: int)
    requires
        0 <= k <= list.len(),
        despawn_all(s, list.take(k)).1 is Err,
    ensures
        despawn_all(s, list) == despawn_all(s, list.take(k)),
    decreases list.len(),
{
    if k == list.len() {
        assert(list.take(k) =~= list);
    } else {
        assert(list.drop_last().take(k) =~= list.take(k));
        lemma_despawns_stop(s, list.drop_last(), k);
    }
}

proof fn lemma_spawns_stop<V: ReplicatedValue>(
    s: MirroredModel<V>,
    spawned: Seq<(Entity, Seq<u8>)>,
    reg: Seq<SchemaModel>,
    k: int,
)
    requires
        0 <= k <= spawned.len(),
        spawn_all(s, spawned.take(k), reg).1 is Err,
    ensures
        spawn_all(s, spawned, reg) == spawn_all(s, spawned.take(k), reg),
    decreases spawned.len(),
{
    if k == spawned.len() {
        assert(spawned.take(k) =~= spawned);
    } else {
        assert(spawned.drop_last().take(k) =~= spawned.take(k));
        lemma_spawns_stop(s, spawned.drop_last(), reg, k);
    }
}

proof fn lemma_restores_stop<V: ReplicatedValue>(
    s: MirroredModel<V>,
    snaps: Seq<EntitySnapshotModel>,
    reg: Seq<SchemaModel>,
    k: int,
)
    requires
        0 <= k <= snaps.len(),
        mirrored_restored(s, snaps.take(k), reg).1 is Err,
    ensures
        mirrored_restored(s, snaps, reg) == mirrored_restored(s, snaps.take(k), reg),
    decreases snaps.len(),
{
    if k == snaps.len() {
        assert(snaps.take(k) =~= snaps);
    } else {
        assert(snaps.drop_last().take(k) =~= snaps.take(k));
        lemma_restores_stop(s, snaps.drop_last(), reg, k);
    }
}

/// A mirror that can clear whatever it has can still do so after it cleared a
/// component of an entity, or failed to.
pub proof fn lemma_remove_keeps_clearable(m: MirrorModel, cid: ComponentId, e: Entity)
    requires
        m.clearable(),
    ensures
        m.removed(cid, e).0.clearable(),
{
    let after = m.removed(cid, e).0;
    assert forall|c: ComponentId, x: Entity| #[trigger] after.clears(c, x) by {
        assert(m.clears(c, x));
        if c != cid || x != e {
            lemma_removed_clears(m, cid, e, c, x);
        }
    }
}

proof fn lemma_all_removed_clearable(m: MirrorModel, key: Seq<ComponentId>, e: Entity, n: int)
    requires
        m.clearable(),
        0 <= n <= key.len(),
    ensures
        all_removed(m, key, e, n).0.clearable(),
    decreases n,
{
    if n > 0 {
        lemma_all_removed_clearable(m, key, e, n - 1);
        let before = all_removed(m, key, e, n - 1);
        if before.1 is Ok {
            lemma_remove_keeps_clearable(before.0, key[n - 1], e);
        }
    }
}

/// A mirror that can clear whatever it has can still do so after an entity went
/// from the world and from it.
pub proof fn lemma_despawn_keeps_clearable<V>(s: MirroredModel<V>, e: Entity)
    requires
        s.mirror matches Some(m) ==> m.clearable(),
    ensures
        despawn_step(s, e).0.mirror matches Some(m) ==> m.clearable(),
{
    if s.world.entities.contains_key(e) {
        if let Some(m) = s.mirror {
            let key = key_list(s.world.entities[e].dom());
            lemma_all_removed_clearable(m, key, e, key.len() as int);
            let cleared = all_removed(m, key, e, key.len() as int).0;
            let after = despawn_step(s, e).0.mirror->0;
            assert forall|c: ComponentId, x: Entity| #[trigger] after.clears(c, x) by {
                assert(cleared.clears(c, x));
            }
        }
    }
}

impl<V> MirroredWorld<V> {
    /// Removes an entity, if it is alive, from the world and from the mirror.
    fn despawn_one(&mut self, entity: Entity) -> (out: Result<(), CapacityError>)
        requires
            old(self).well_formed(),
            old(self).clearable(),
        ensures
            final(self).well_formed(),
            final(self).clearable(),
            (final(self).state(), out) == despawn_step(old(self).state(), entity),
            final(self).world().archetypes@.len() == old(self).world().archetypes@.len(),
    {
        let ghost before = self.state();
        proof {
            if self.world@.contains_key(entity) {
                lemma_key_of(self.world, entity);
                let key = key_list(self.world@[entity].dom());
                assert(ascending(self.world.key_of(entity)));
                lemma_ascending_unique(key, self.world.key_of(entity));
            }
            lemma_despawn_keeps_clearable(before, entity);
        }
        let ghost first = self.world;
        match self.despawn(entity) {
            Ok(_) => {
                proof {
                    if first@.contains_key(entity) {
                        lemma_despawned_slots(first, self.world, entity);
                    }
                }
                Ok(())
            },
            Err(e) => Err(e),
        }
    }
}

impl<V: ReplicatedValue> MirroredWorld<V> {
    /// Places an entity with a fresh row of the given component types, after
    /// whatever entity was in its slot is gone.
    fn place_one(&mut self, entity: Entity, ids: Vec<ComponentId>, schema: &ReplicationRegistry) -> (out: Result<
        (),
        MirroredApplyError,
    >)
        requires
            old(self).well_formed(),
            old(self).clearable(),
            old(self).world().has_archetype_room(),
            schema.well_formed(),
        ensures
            final(self).well_formed(),
            final(self).clearable(),
            (final(self).state(), out) == spawn_step(old(self).state(), entity, ids@.to_set(), schema@),
            final(self).world().archetypes@.len() <= old(self).world().archetypes@.len() + 1,
    {
        let ghost before = self.state();
        if self.world.is_placeable(entity) {
            if let Some(x) = self.world.occupant(entity.index()) {
                proof {
                    assert(slot_in_use(before.world.entities, entity.index()));
                    assert(entity_in(before.world.entities, entity.index()) == x);
                }
                match self.despawn_one(x) {
                    Ok(done) => {
                        assert(done == ());
                    },
                    Err(e) => {
                        return Err(MirroredApplyError::Mirror(e));
                    },
                }
            }
            let ghost free = self.state();
            assert(free == evict_step(before, entity.index()).0);
            let placed: bool = self.world.place_entity(entity, ids, schema);
            if placed {
                Ok(())
            } else {
                Err(MirroredApplyError::Data(ErrorCode::InvalidData))
            }
        } else {
            Err(MirroredApplyError::Data(ErrorCode::InvalidData))
        }
    }

    /// Applies a delta: despawns, then spawns at the exact handles of the delta,
    /// then field writes, as [`Delta::apply`] does. Entities that go are cleared
    /// from the mirror.
    ///
    /// If the mirror cannot clear a row, which only a growable column with a
    /// ceiling is the cause of, what was applied up to there stays.
    pub fn apply(&mut self, delta: &Delta, schema: &ReplicationRegistry) -> (out: Result<(), MirroredApplyError>)
        requires
            old(self).well_formed(),
            old(self).clearable(),
            schema.well_formed(),
            old(self).world().archetypes@.len() + delta.spawned@.len() <= u32::MAX,
        ensures
            final(self).well_formed(),
            final(self).clearable(),
            (final(self).state(), out) == mirrored_applied(old(self).state(), delta@, schema@),
    {
        let ghost s0 = self.state();
        let ghost archs = self.world.archetypes@.len();
        let ghost reg = schema@;
        let ghost list = delta.despawned@;
        let mut i: usize = 0;
        proof {
            assert(list.take(0) =~= Seq::<Entity>::empty());
        }
        while i < delta.despawned.len()
            invariant
                i <= delta.despawned@.len(),
                list == delta.despawned@,
                self.well_formed(),
                self.clearable(),
                s0 == old(self).state(),
                self.world().archetypes@.len() == archs,
                (self.state(), Ok::<(), CapacityError>(())) == despawn_all(s0, list.take(i as int)),
            decreases delta.despawned@.len() - i,
        {
            proof {
                assert(list.take(i + 1).drop_last() =~= list.take(i as int));
                assert(list.take(i + 1).last() == list[i as int]);
            }
            let step = self.despawn_one(delta.despawned[i]);
            assert((self.state(), step) == despawn_all(s0, list.take(i + 1)));
            match step {
                Ok(done) => {
                    assert(done == ());
                },
                Err(e) => {
                    proof {
                        lemma_despawns_stop(s0, list, i + 1);
                    }
                    return Err(MirroredApplyError::Mirror(e));
                },
            }
            i = i + 1;
        }
        let ghost gone = self.state();
        proof {
            assert(list.take(list.len() as int) =~= list);
        }
        let ghost spawned = delta@.spawned;
        let mut j: usize = 0;
        proof {
            assert(spawned.take(0) =~= Seq::<(Entity, Seq<u8>)>::empty());
        }
        while j < delta.spawned.len()
            invariant
                j <= delta.spawned@.len(),
                spawned == delta@.spawned,
                spawned.len() == delta.spawned@.len(),
                list == delta@.despawned,
                self.well_formed(),
                self.clearable(),
                schema.well_formed(),
                reg == schema@,
                s0 == old(self).state(),
                (gone, Ok::<(), CapacityError>(())) == despawn_all(s0, list),
                (self.state(), Ok::<(), MirroredApplyError>(())) == spawn_all(gone, spawned.take(j as int), reg),
                self.world().archetypes@.len() <= archs + j,
                archs + delta.spawned@.len() <= u32::MAX,
            decreases delta.spawned@.len() - j,
        {
            let entity = delta.spawned[j].0;
            let ids: Vec<ComponentId> = match decode_archetype_key(delta.spawned[j].1.as_slice()) {
                Some(ids) => ids,
                None => Vec::new(),
            };
            proof {
                assert(Seq::<ComponentId>::empty().to_set() =~= Set::<ComponentId>::empty());
                assert(spawned.take(j + 1).drop_last() =~= spawned.take(j as int));
                assert(spawned.take(j + 1).last() == (entity, delta.spawned@[j as int].1@));
                assert(ids@.to_set() =~= blob_types(delta.spawned@[j as int].1@));
            }
            let step = self.place_one(entity, ids, schema);
            assert((self.state(), step) == spawn_all(gone, spawned.take(j + 1), reg));
            match step {
                Ok(done) => {
                    assert(done == ());
                },
                Err(e) => {
                    proof {
                        lemma_spawns_stop(gone, spawned, reg, j + 1);
                    }
                    return Err(e);
                },
            }
            j = j + 1;
        }
        proof {
            assert(spawned.take(spawned.len() as int) =~= spawned);
        }
        match delta.write_changes(&mut self.world, schema) {
            Ok(_) => Ok(()),
            Err(e) => Err(MirroredApplyError::Data(e)),
        }
    }

    /// Puts captured entities into the world, at their exact handles, as
    /// [`Snapshot::restore_to_world`] does. Entities that have to go are cleared
    /// from the mirror.
    pub fn restore(&mut self, snap: &Snapshot, schema: &ReplicationRegistry) -> (out: Result<(), MirroredApplyError>)
        requires
            old(self).well_formed(),
            old(self).clearable(),
            schema.well_formed(),
            old(self).world().archetypes@.len() + snap.entities@.len() <= u32::MAX,
        ensures
            final(self).well_formed(),
            final(self).clearable(),
            (final(self).state(), out) == mirrored_restored(old(self).state(), snap@.entities, schema@),
    {
        let ghost s0 = self.state();
        let ghost archs = self.world.archetypes@.len();
        let ghost snaps = snap@.entities;
        let mut i: usize = 0;
        proof {
            assert(snaps.take(0) =~= Seq::<EntitySnapshotModel>::empty());
        }
        while i < snap.entities.len()
            invariant
                i <= snap.entities@.len(),
                snaps == snap@.entities,
                snaps.len() == snap.entities@.len(),
                self.well_formed(),
                self.clearable(),
                schema.well_formed(),
                s0 == old(self).state(),
                (self.state(), Ok::<(), MirroredApplyError>(())) == mirrored_restored(
                    s0,
                    snaps.take(i as int),
                    schema@,
                ),
                self.world().archetypes@.len() <= archs + i,
                archs + snap.entities@.len() <= u32::MAX,
            decreases snap.entities@.len() - i,
        {
            let one = &snap.entities[i];
            let ghost before = self.state();
            proof {
                assert(snaps.take(i + 1).drop_last() =~= snaps.take(i as int));
                assert(snaps.take(i + 1).last() == one@);
                assert(mirrored_restored(s0, snaps.take(i + 1), schema@) == restore_step(before, one@, schema@));
            }
            let ids = component_types(&one.components);
            match self.place_one(one.entity, ids, schema) {
                Ok(done) => {
                    assert(done == ());
                },
                Err(e) => {
                    proof {
                        lemma_restores_stop(s0, snaps, schema@, i + 1);
                    }
                    return Err(e);
                },
            }
            match restore_row(&mut self.world, one.entity, &one.components, schema) {
                Ok(done) => {
                    assert(done == ());
                },
                Err(e) => {
                    proof {
                        lemma_restores_stop(s0, snaps, schema@, i + 1);
                    }
                    return Err(MirroredApplyError::Data(e));
                },
            }
            i = i + 1;
        }
        proof {
            assert(snaps.take(snaps.len() as int) =~= snaps);
        }
        Ok(())
    }
}

proof fn lemma_despawn_all_world<V>(s: MirroredModel<V>, list: Seq<Entity>)
    requires
        s.world.sound(),
    ensures
        despawn_all(s, list).1 is Ok ==> despawn_all(s, list).0.world == apply_despawns(s.world, list),
        despawn_all(s, list).0.world.sound(),
        forall|i: int| #[trigger] despawn_all(s, list).0.world.slots.generation(i) >= s.world.slots.generation(i),
    decreases list.len(),
{
    if list.len() > 0 {
        lemma_despawn_all_world(s, list.drop_last());
        let before = despawn_all(s, list.drop_last()).0;
        lemma_despawn_keeps_sound(before.world, list.last());
        let after = despawn_all(s, list).0;
        assert forall|i: int| #[trigger] after.world.slots.generation(i) >= s.world.slots.generation(i) by {
            assert(before.world.slots.generation(i) >= s.world.slots.generation(i));
        }
    }
}

/// A spawn leaves a sound world sound, and does not touch the other slots. Where
/// the mirror does not refuse, it does to the world what it does without a mirror.
proof fn lemma_spawn_step_world<V: ReplicatedValue>(
    s: MirroredModel<V>,
    e: Entity,
    ids: Set<ComponentId>,
    reg: Seq<SchemaModel>,
)
    requires
        s.world.sound(),
    ensures
        ({
            let step = spawn_step(s, e, ids, reg);
            let placed = place(s.world, e, ids, reg);
            &&& !mirror_refused(step.1) ==> step.0.world == placed.0
            &&& !mirror_refused(step.1) ==> step.1 == (if placed.1 {
                Ok::<(), MirroredApplyError>(())
            } else {
                Err(MirroredApplyError::Data(ErrorCode::InvalidData))
            })
            &&& step.0.world.sound()
            &&& forall|i: int|
                i != e.index() ==> #[trigger] step.0.world.slots.generation(i) == s.world.slots.generation(i)
        }),
{
    let step = spawn_step(s, e, ids, reg);
    let idx = e.index();
    lemma_place_slots(s.world, e, ids, reg);
    if can_place(s.world.slots.len(), e) {
        let free = evict_step(s, idx).0;
        if slot_in_use(s.world.entities, idx) {
            let x = entity_in(s.world.entities, idx);
            lemma_despawn_keeps_sound(s.world, x);
            if evict_step(s, idx).1 is Ok {
                assert(free.world == s.world.despawned(x));
                assert(without_slot(free.world.entities, idx) =~= without_slot(s.world.entities, idx));
                if slot_in_use(free.world.entities, idx) {
                    let y = entity_in(free.world.entities, idx);
                    lemma_entity_parts(x, y.index(), y.generation());
                    lemma_entity_parts(y, y.index(), y.generation());
                }
                assert(s.world.slots.grown(idx) == s.world.slots);
                assert(free.world.slots.grown(idx) == free.world.slots);
                assert(free.world.vacated(idx) == s.world.vacated(idx));
                assert(place(free.world, e, ids, reg) == place(s.world, e, ids, reg));
            }
        }
    }
}

/// Spawns do to the world what they do without a mirror, where the mirror does
/// not refuse, and touch no other slots in any case.
proof fn lemma_spawn_all_world<V: ReplicatedValue>(
    s: MirroredModel<V>,
    spawned: Seq<(Entity, Seq<u8>)>,
    reg: Seq<SchemaModel>,
)
    requires
        s.world.sound(),
    ensures
        ({
            let after = spawn_all(s, spawned, reg);
            &&& !mirror_refused(after.1) ==> after.0.world == apply_spawns(s.world, spawned, reg).0
            &&& !mirror_refused(after.1) ==> after.1 == (if apply_spawns(s.world, spawned, reg).1 {
                Ok::<(), MirroredApplyError>(())
            } else {
                Err(MirroredApplyError::Data(ErrorCode::InvalidData))
            })
            &&& after.0.world.sound()
            &&& forall|i: int|
                0 <= i <= u32::MAX && !claims_slot(spawned, i as u32) ==> #[trigger] after.0.world.slots.generation(i)
                    == s.world.slots.generation(i)
        }),
    decreases spawned.len(),
{
    if spawned.len() > 0 {
        let init = spawned.drop_last();
        lemma_spawn_all_world(s, init, reg);
        let before = spawn_all(s, init, reg);
        let after = spawn_all(s, spawned, reg);
        if before.1 is Ok {
            lemma_spawn_step_world(before.0, spawned.last().0, blob_types(spawned.last().1), reg);
        }
        assert forall|i: int| 0 <= i <= u32::MAX && !claims_slot(spawned, i as u32) implies #[trigger] after.0.world.slots.generation(
            i,
        ) == s.world.slots.generation(i) by {
            assert(spawned[spawned.len() - 1].0.index() != i as u32);
            if claims_slot(init, i as u32) {
                let j = choose|j: int| 0 <= j < init.len() && (#[trigger] init[j]).0.index() == i as u32;
                assert(spawned[j].0.index() == i as u32);
            }
            assert(before.0.world.slots.generation(i) == s.world.slots.generation(i));
        }
    }
}

/// The outcome is that the mirror could not clear a row.
pub open spec fn mirror_refused(out: Result<(), MirroredApplyError>) -> bool {
    out matches Err(MirroredApplyError::Mirror(_))
}

/// The outcome of a world without a mirror, as an outcome of one that may have
/// one.
pub open spec fn as_mirrored(out: Result<(), ErrorCode>) -> Result<(), MirroredApplyError> {
    match out {
        Ok(_) => Ok(()),
        Err(e) => Err(MirroredApplyError::Data(e)),
    }
}

/// A delta does to a mirrored world what it does to the world alone, and with
/// the same outcome, unless the mirror cannot clear a row.
pub proof fn lemma_mirrored_apply_is_apply<V: ReplicatedValue>(
    s: MirroredModel<V>,
    d: DeltaModel,
    reg: Seq<SchemaModel>,
)
    requires
        s.world.sound(),
        !mirror_refused(mirrored_applied(s, d, reg).1),
    ensures
        mirrored_applied(s, d, reg).0.world == delta_applied(s.world, d, reg).0,
        mirrored_applied(s, d, reg).1 == as_mirrored(delta_applied(s.world, d, reg).1),
{
    lemma_despawn_all_world(s, d.despawned);
    let gone = despawn_all(s, d.despawned).0;
    lemma_spawn_all_world(gone, d.spawned, reg);
}

/// After a delta on a mirrored world, applied in full or not, no slot that its
/// spawns leave alone has gone back to an earlier generation.
pub proof fn lemma_mirrored_slots_advance<V: ReplicatedValue>(
    s: MirroredModel<V>,
    d: DeltaModel,
    reg: Seq<SchemaModel>,
    idx: u32,
)
    requires
        s.world.sound(),
        !claims_slot(d.spawned, idx),
    ensures
        mirrored_applied(s, d, reg).0.world.slots.generation(idx as int) >= s.world.slots.generation(idx as int),
{
    lemma_despawn_all_world(s, d.despawned);
    let gone = despawn_all(s, d.despawned).0;
    assert(gone.world.slots.generation(idx as int) >= s.world.slots.generation(idx as int));
    lemma_spawn_all_world(gone, d.spawned, reg);
    let placed = spawn_all(gone, d.spawned, reg).0;
    assert(placed.world.slots.generation(idx as int) == gone.world.slots.generation(idx as int));
}

/// After a delta on a mirrored world that the mirror does not refuse, a live
/// entity that the delta despawns has an expired handle, unless a spawn of the
/// delta takes the slot.
pub proof fn lemma_mirrored_despawns_expire<V: ReplicatedValue>(
    s: MirroredModel<V>,
    d: DeltaModel,
    reg: Seq<SchemaModel>,
    e: Entity,
)
    requires
        s.world.sound(),
        s.world.entities.contains_key(e),
        d.despawned.contains(e),
        !claims_slot(d.spawned, e.index()),
        !mirror_refused(mirrored_applied(s, d, reg).1),
    ensures
        mirrored_applied(s, d, reg).0.world.slots.generation(e.index() as int) > e.generation(),
{
    lemma_mirrored_apply_is_apply(s, d, reg);
    lemma_applied_despawns_expire(s.world, d, reg, e);
}

/// A snapshot does to a mirrored world what it does to the world alone, and with
/// the same outcome, unless the mirror cannot clear a row. Whether it does or
/// not, the slots of other entities keep their generations.
pub proof fn lemma_mirrored_restore_is_restore<V: ReplicatedValue>(
    s: MirroredModel<V>,
    snaps: Seq<EntitySnapshotModel>,
    reg: Seq<SchemaModel>,
)
    requires
        s.world.sound(),
    ensures
        ({
            let after = mirrored_restored(s, snaps, reg);
            &&& !mirror_refused(after.1) ==> after.0.world == restore_entities(s.world, snaps, reg).0
            &&& !mirror_refused(after.1) ==> after.1 == as_mirrored(restore_entities(s.world, snaps, reg).1)
            &&& after.0.world.sound()
            &&& forall|i: int|
                0 <= i <= u32::MAX && !restores_slot(snaps, i as u32) ==> #[trigger] after.0.world.slots.generation(i)
                    == s.world.slots.generation(i)
        }),
    decreases snaps.len(),
{
    if snaps.len() > 0 {
        let init = snaps.drop_last();
        lemma_mirrored_restore_is_restore(s, init, reg);
        let before = mirrored_restored(s, init, reg);
        let after = mirrored_restored(s, snaps, reg);
        if before.1 is Ok {
            let snap = snaps.last();
            lemma_spawn_step_world(before.0, snap.entity, captured_types(snap.components), reg);
            let placed = spawn_step(before.0, snap.entity, captured_types(snap.components), reg);
            if placed.1 is Ok {
                lemma_restore_keeps_entities(placed.0.world.entities, snap.entity, snap.components, reg);
                assert forall|e: Entity| #[trigger] after.0.world.entities.contains_key(
                    e,
                ) implies placed.0.world.entities.contains_key(e) by {
                    assert(after.0.world.entities.dom().contains(e));
                }
            }
        }
        assert forall|i: int| 0 <= i <= u32::MAX && !restores_slot(snaps, i as u32) implies #[trigger] after.0.world.slots.generation(
            i,
        ) == s.world.slots.generation(i) by {
            assert(snaps[snaps.len() - 1].entity.index() != i as u32);
            if restores_slot(init, i as u32) {
                let j = choose|j: int| 0 <= j < init.len() && (#[trigger] init[j]).entity.index() == i as u32;
                assert(snaps[j].entity.index() == i as u32);
            }
            assert(before.0.world.slots.generation(i) == s.world.slots.generation(i));
            if before.1 is Ok {
                let snap = snaps.last();
                let placed = spawn_step(before.0, snap.entity, captured_types(snap.components), reg);
                assert(placed.0.world.slots.generation(i) == before.0.world.slots.generation(i));
            }
        }
    }
}

/// Without a mirror nothing is refused on its account.
pub proof fn lemma_unmirrored_is_never_refused<V: ReplicatedValue>(
    s: MirroredModel<V>,
    d: DeltaModel,
    reg: Seq<SchemaModel>,
)
    requires
        s.mirror is None,
    ensures
        !mirror_refused(mirrored_applied(s, d, reg).1),
        mirrored_applied(s, d, reg).0.mirror is None,
{
    lemma_unmirrored_despawns(s, d.despawned);
    lemma_unmirrored_spawns(despawn_all(s, d.despawned).0, d.spawned, reg);
}

/// Without a mirror no snapshot is refused on its account.
pub proof fn lemma_unmirrored_restore_is_never_refused<V: ReplicatedValue>(
    s: MirroredModel<V>,
    snaps: Seq<EntitySnapshotModel>,
    reg: Seq<SchemaModel>,
)
    requires
        s.mirror is None,
    ensures
        !mirror_refused(mirrored_restored(s, snaps, reg).1),
        mirrored_restored(s, snaps, reg).0.mirror is None,
    decreases snaps.len(),
{
    if snaps.len() > 0 {
        lemma_unmirrored_restore_is_never_refused(s, snaps.drop_last(), reg);
    }
}

proof fn lemma_unmirrored_despawns<V>(s: MirroredModel<V>, list: Seq<Entity>)
    requires
        s.mirror is None,
    ensures
        despawn_all(s, list).1 is Ok,
        despawn_all(s, list).0.mirror is None,
    decreases list.len(),
{
    if list.len() > 0 {
        lemma_unmirrored_despawns(s, list.drop_last());
    }
}

proof fn lemma_unmirrored_spawns<V: ReplicatedValue>(
    s: MirroredModel<V>,
    spawned: Seq<(Entity, Seq<u8>)>,
    reg: Seq<SchemaModel>,
)
    requires
        s.mirror is None,
    ensures
        !mirror_refused(spawn_all(s, spawned, reg).1),
        spawn_all(s, spawned, reg).0.mirror is None,
    decreases spawned.len(),
{
    if spawned.len() > 0 {
        lemma_unmirrored_spawns(s, spawned.drop_last(), reg);
    }
}

proof fn lemma_all_removed_rows(m: MirrorModel, key: Seq<ComponentId>, e: Entity, n: int)
    requires
        0 <= n <= key.len(),
        all_removed(m, key, e, n).1 is Ok,
    ensures
        ({
            let after = all_removed(m, key, e, n).0;
            &&& after.store.mirrors == m.store.mirrors
            &&& forall|i: int|
                0 <= i < n && m.store.mirrors.contains_key(#[trigger] key[i])
                    ==> !after.rows[key[i]].rows.contains_key(e)
            &&& forall|c: ComponentId| !m.rows[c].rows.contains_key(e) ==> !(#[trigger] after.rows[c]).rows.contains_key(e)
        }),
    decreases n,
{
    if n > 0 {
        lemma_all_removed_rows(m, key, e, n - 1);
        let before = all_removed(m, key, e, n - 1).0;
        let c = key[n - 1];
        if before.store.mirrors.contains_key(c) && before.rows[c].rows.contains_key(e) {
            let row = before.rows[c].rows[e];
            lemma_cleared_layout(before.store.made_absent(c, row), c, row, before.store.mirrors[c].len() as int);
            assert(!before.rows[c].rows.remove(e).contains_key(e));
        }
    }
}

/// An entity that goes leaves no row of a mirrored component behind, if it had
/// rows for its own components only.
pub proof fn lemma_despawned_leaves_no_row<V>(world: World<V>, m: MirrorModel, e: Entity)
    requires
        world.well_formed(),
        world@.contains_key(e),
        forall|c: ComponentId| (#[trigger] m.rows[c]).rows.contains_key(e) ==> world@[e].contains_key(c),
        despawn_step(MirroredModel { world: world_model(&world), mirror: Some(m) }, e).1 is Ok,
    ensures
        ({
            let after = despawn_step(MirroredModel { world: world_model(&world), mirror: Some(m) }, e).0.mirror->0;
            forall|c: ComponentId|
                m.store.mirrors.contains_key(c) ==> !(#[trigger] after.rows[c]).rows.contains_key(e)
        }),
{
    let s = MirroredModel { world: world_model(&world), mirror: Some(m) };
    lemma_key_of(world, e);
    assert(ascending(world.key_of(e)));
    let key = key_list(world@[e].dom());
    lemma_all_removed_rows(m, key, e, key.len() as int);
    let after = despawn_step(s, e).0.mirror->0;
    assert forall|c: ComponentId| m.store.mirrors.contains_key(c) implies !(#[trigger] after.rows[c]).rows.contains_key(
        e,
    ) by {
        if m.rows[c].rows.contains_key(e) {
            assert(world@[e].dom().contains(c));
            assert(key.to_set().contains(c));
            assert(key.contains(c));
            let i = key.index_of(c);
            assert(key[i] == c);
        }
    }
}

/// A mirror that has no rows can clear whatever it has.
pub proof fn lemma_rowless_is_clearable(m: MirrorModel)
    requires
        forall|c: ComponentId, e: Entity| !(#[trigger] m.rows[c].rows.contains_key(e)),
    ensures
        m.clearable(),
{
}

/// A mirror that can clear whatever it has can still do so after it took a
/// value.
pub proof fn lemma_insert_keeps_clearable<V: GpuComponent>(
    m: MirrorModel,
    cid: ComponentId,
    e: Entity,
    value: V,
    prev: Option<V>,
)
    requires
        m.clearable(),
        m.takes(cid, e, value),
    ensures
        m.inserted(cid, e, value, prev).0.clearable(),
{
    let after = m.inserted(cid, e, value, prev).0;
    if m.store.mirrors.contains_key(cid) {
        let row = m.row_for(cid, e);
        let made = m.store.made_present(cid, row);
        let first = !m.store.is_present(cid, row);
        lemma_mirrored_layout(made, cid, value, prev, row, first, m.store.mirrors[cid].len() as int);
        assert forall|c: ComponentId, x: Entity| #[trigger] after.clears(c, x) by {
            if after.store.mirrors.contains_key(c) && after.rows[c].rows.contains_key(x) {
                let r = after.rows[c].rows[x];
                if c != cid || x != e {
                    assert(m.rows[c].rows.contains_key(x));
                    assert(m.rows[c].rows[x] == r);
                    assert(m.clears(c, x));
                } else {
                    assert(r == row);
                }
                assert(row_writable(m.store, c, r));
                assert(made.presence.contains_key(c));
                assert(after.store.presence.dom().contains(c));
                assert forall|i: int| 0 <= i < after.store.mirrors[c].len() implies after.store.writable(
                    (#[trigger] after.store.mirrors[c][i]).field_token.type_id,
                    r,
                    after.store.mirrors[c][i].field_token.layout.size as nat,
                ) by {
                    let d = m.store.mirrors[c][i];
                    assert(m.store.writable(d.field_token.type_id, r, d.field_token.layout.size as nat));
                    assert(made.writable(d.field_token.type_id, r, d.field_token.layout.size as nat));
                    lemma_layout_writable(
                        made,
                        after.store,
                        d.field_token.type_id,
                        r,
                        d.field_token.layout.size as nat,
                    );
                }
            }
        }
    }
}

} // verus!
