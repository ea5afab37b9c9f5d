//! Applying received frames to a world.

use vstd::prelude::*;
use crate::archetype::{zip_row, ArchetypeKey};
use crate::component::ComponentId;
use crate::entity::{lemma_entity_parts, Entity, RETIRED_GENERATION};
use crate::replication::encoding::{decode_archetype_key, lemma_archetype_key_round_trip, lemma_frame_is_no_archetype_key, parse_archetype_key};
use crate::replication::schema::{schema_of, FieldDescriptor, ReplicationRegistry, SchemaModel};
use crate::replication::tracker::archetype_blob;
use crate::replication::types::{ComponentDeltaModel, Delta, DeltaModel, ErrorCode, ReplicationEncoding};
use crate::replication::value::ReplicatedValue;
use crate::replication::wire::u64_wire;
use crate::world::{lemma_despawned_slots, lemma_expired_is_dead, lemma_expired_stays_dead, lemma_key_of, slot_in_use, without_slot, SlotsModel, World, MAX_SLOT_GROWTH_PER_SPAWN};

verus! {

/// What replication sees of a world: its live entities with their components,
/// and its slots.
pub struct WorldModel<V> {
    pub entities: Map<Entity, Map<ComponentId, V>>,
    pub slots: SlotsModel,
}

/// The value of a world.
pub open spec fn world_model<V>(w: &World<V>) -> WorldModel<V> {
    WorldModel { entities: w@, slots: w.slots() }
}

impl<V> WorldModel<V> {
    /// Every live entity is in an existing slot, which has the generation of its
    /// handle and is not retired.
    pub open spec fn sound(self) -> bool {
        forall|e: Entity| #[trigger]
            self.entities.contains_key(e) ==> {
                &&& e.index() < self.slots.len()
                &&& self.slots.generations[e.index() as int] == e.generation()
                &&& e.generation() != RETIRED_GENERATION
            }
    }

    /// An entity is gone, if it was alive.
    pub open spec fn despawned(self, e: Entity) -> WorldModel<V> {
        if self.entities.contains_key(e) {
            WorldModel { entities: self.entities.remove(e), slots: self.slots.despawned(e.index()) }
        } else {
            self
        }
    }

    /// Slot `idx` exists, and whatever entity was in it is gone.
    pub open spec fn vacated(self, idx: u32) -> WorldModel<V> {
        WorldModel {
            entities: without_slot(self.entities, idx),
            slots: self.slots.vacated(idx, slot_in_use(self.entities, idx)),
        }
    }
}

/// The value of a world is sound.
pub proof fn lemma_world_is_sound<V>(world: World<V>)
    requires
        world.well_formed(),
    ensures
        world_model(&world).sound(),
{
    assert forall|e: Entity| #[trigger] world@.contains_key(e) implies {
        &&& e.index() < world.slots().len()
        &&& world.slots().generations[e.index() as int] == e.generation()
        &&& e.generation() != RETIRED_GENERATION
    } by {
        assert(world.slot_ok(e.index() as int));
    }
}

/// Whether an entity with this handle may be placed: its generation is not
/// the retired one and its slot exists or is near.
pub open spec fn can_place(slots: nat, e: Entity) -> bool {
    &&& e.generation() != RETIRED_GENERATION
    &&& e.index() < u32::MAX
    &&& e.index() <= slots + MAX_SLOT_GROWTH_PER_SPAWN
}

/// Whether this peer can make rows of every one of the component types.
pub open spec fn all_local(reg: Seq<SchemaModel>, ids: Set<ComponentId>) -> bool {
    forall|c: ComponentId| #[trigger] ids.contains(c) ==> (schema_of(reg, c) matches Some(s) && s.local)
}

/// A fresh row of the given component types.
pub open spec fn default_components<V: ReplicatedValue>(ids: Set<ComponentId>) -> Map<ComponentId, V> {
    Map::new(|c: ComponentId| ids.contains(c), |c: ComponentId| V::default_of(c))
}

/// Places `e` with a fresh row of the given component types, after whatever
/// entity was in its slot is gone. The second part tells whether it was placed.
pub open spec fn place<V: ReplicatedValue>(
    w: WorldModel<V>,
    e: Entity,
    ids: Set<ComponentId>,
    reg: Seq<SchemaModel>,
) -> (WorldModel<V>, bool) {
    if !can_place(w.slots.len(), e) {
        (w, false)
    } else if all_local(reg, ids) {
        (
            WorldModel {
                entities: w.vacated(e.index()).entities.insert(e, default_components(ids)),
                slots: w.vacated(e.index()).slots.claimed(e.index(), e.generation()),
            },
            true,
        )
    } else {
        (w.vacated(e.index()), false)
    }
}

/// The component types that a spawn blob describes; none if it is not such a
/// description.
pub open spec fn blob_types(blob: Seq<u8>) -> Set<ComponentId> {
    match parse_archetype_key(blob) {
        Some(ids) => ids.to_set(),
        None => Set::empty(),
    }
}

/// The spawns one after another, up to the first that cannot be placed.
pub open spec fn apply_spawns<V: ReplicatedValue>(
    w: WorldModel<V>,
    spawned: Seq<(Entity, Seq<u8>)>,
    reg: Seq<SchemaModel>,
) -> (WorldModel<V>, bool)
    decreases spawned.len(),
{
    if spawned.len() == 0 {
        (w, true)
    } else {
        let before = apply_spawns(w, spawned.drop_last(), reg);
        if before.1 {
            place(before.0, spawned.last().0, blob_types(spawned.last().1), reg)
        } else {
            before
        }
    }
}

/// The despawns one after another.
pub open spec fn apply_despawns<V>(w: WorldModel<V>, despawned: Seq<Entity>) -> WorldModel<V>
    decreases despawned.len(),
{
    if despawned.len() == 0 {
        w
    } else {
        apply_despawns(w, despawned.drop_last()).despawned(despawned.last())
    }
}

/// Writes one field of one component. A dead entity or a missing component is
/// passed over; bytes that the field does not accept are an error.
pub open spec fn write_field<V: ReplicatedValue>(
    m: Map<Entity, Map<ComponentId, V>>,
    e: Entity,
    cid: ComponentId,
    field: u32,
    bytes: Seq<u8>,
) -> (Map<Entity, Map<ComponentId, V>>, Result<(), ErrorCode>) {
    if m.contains_key(e) && m[e].contains_key(cid) {
        match m[e][cid].with_field(cid, field, bytes) {
            Ok(v) => (m.insert(e, m[e].insert(cid, v)), Ok(())),
            Err(err) => (m, Err(err)),
        }
    } else {
        (m, Ok(()))
    }
}

/// Whether a field takes bytes from `data`: it is state, this peer has access
/// to it, and there are bytes for it.
pub open spec fn carries(f: FieldDescriptor, data: Seq<Seq<u8>>) -> bool {
    &&& f.encoding != ReplicationEncoding::Event
    &&& f.accessible
    &&& f.field_index < data.len()
    &&& data[f.field_index as int].len() > 0
}

/// Writes the fields that have bytes, in schema order, up to the first error.
pub open spec fn write_fields<V: ReplicatedValue>(
    m: Map<Entity, Map<ComponentId, V>>,
    e: Entity,
    cid: ComponentId,
    fields: Seq<FieldDescriptor>,
    data: Seq<Seq<u8>>,
) -> (Map<Entity, Map<ComponentId, V>>, Result<(), ErrorCode>)
    decreases fields.len(),
{
    if fields.len() == 0 {
        (m, Ok(()))
    } else {
        let before = write_fields(m, e, cid, fields.drop_last(), data);
        let f = fields.last();
        if before.1 is Ok && carries(f, data) {
            write_field(before.0, e, cid, f.field_index, data[f.field_index as int])
        } else {
            before
        }
    }
}

/// Writes one component; a component type without a schema is passed over.
pub open spec fn write_component<V: ReplicatedValue>(
    m: Map<Entity, Map<ComponentId, V>>,
    e: Entity,
    cid: ComponentId,
    data: Seq<Seq<u8>>,
    reg: Seq<SchemaModel>,
) -> (Map<Entity, Map<ComponentId, V>>, Result<(), ErrorCode>) {
    match schema_of(reg, cid) {
        Some(s) => write_fields(m, e, cid, s.fields, data),
        None => (m, Ok(())),
    }
}

/// Writes the component deltas one after another, up to the first error.
pub open spec fn apply_changes<V: ReplicatedValue>(
    m: Map<Entity, Map<ComponentId, V>>,
    changes: Seq<ComponentDeltaModel>,
    reg: Seq<SchemaModel>,
) -> (Map<Entity, Map<ComponentId, V>>, Result<(), ErrorCode>)
    decreases changes.len(),
{
    if changes.len() == 0 {
        (m, Ok(()))
    } else {
        let before = apply_changes(m, changes.drop_last(), reg);
        let cd = changes.last();
        if before.1 is Ok {
            write_component(before.0, cd.entity, cd.component_type, cd.field_data, reg)
        } else {
            before
        }
    }
}

/// A world after a delta: despawns, then spawns, then field writes, up to the
/// first failure.
pub open spec fn delta_applied<V: ReplicatedValue>(
    w: WorldModel<V>,
    d: DeltaModel,
    reg: Seq<SchemaModel>,
) -> (WorldModel<V>, Result<(), ErrorCode>) {
    let placed = apply_spawns(apply_despawns(w, d.despawned), d.spawned, reg);
    if placed.1 {
        let written = apply_changes(placed.0.entities, d.component_deltas, reg);
        (WorldModel { entities: written.0, slots: placed.0.slots }, written.1)
    } else {
        (placed.0, Err(ErrorCode::InvalidData))
    }
}

proof fn lemma_spawns_stop<V: ReplicatedValue>(
    w: WorldModel<V>,
    spawned: Seq<(Entity, Seq<u8>)>,
    reg: Seq<SchemaModel>,
    k: int,
)
    requires
        0 <= k <= spawned.len(),
        !apply_spawns(w, spawned.take(k), reg).1,
    ensures
        apply_spawns(w, spawned, reg) == apply_spawns(w, spawned.take(k), reg),
    decreases spawned.len(),
{
    if k == spawned.len() {
        assert(spawned.take(k) =~= spawned);
    } else {
        assert(spawned.drop_last().take(k) =~= spawned.take(k));
        lemma_spawns_stop(w, spawned.drop_last(), reg, k);
    }
}

proof fn lemma_fields_stop<V: ReplicatedValue>(
    m: Map<Entity, Map<ComponentId, V>>,
    e: Entity,
    cid: ComponentId,
    fields: Seq<FieldDescriptor>,
    data: Seq<Seq<u8>>,
    k: int,
)
    requires
        0 <= k <= fields.len(),
        write_fields(m, e, cid, fields.take(k), data).1 is Err,
    ensures
        write_fields(m, e, cid, fields, data) == write_fields(m, e, cid, fields.take(k), data),
    decreases fields.len(),
{
    if k == fields.len() {
        assert(fields.take(k) =~= fields);
    } else {
        assert(fields.drop_last().take(k) =~= fields.take(k));
        lemma_fields_stop(m, e, cid, fields.drop_last(), data, k);
    }
}

proof fn lemma_changes_stop<V: ReplicatedValue>(
    m: Map<Entity, Map<ComponentId, V>>,
    changes: Seq<ComponentDeltaModel>,
    reg: Seq<SchemaModel>,
    k: int,
)
    requires
        0 <= k <= changes.len(),
        apply_changes(m, changes.take(k), reg).1 is Err,
    ensures
        apply_changes(m, changes, reg) == apply_changes(m, changes.take(k), reg),
    decreases changes.len(),
{
    if k == changes.len() {
        assert(changes.take(k) =~= changes);
    } else {
        assert(changes.drop_last().take(k) =~= changes.take(k));
        lemma_changes_stop(m, changes.drop_last(), reg, k);
    }
}

/// A fresh row for the component types of a key, if this peer can make one.
fn default_row<V: ReplicatedValue>(key: &ArchetypeKey, schema: &ReplicationRegistry) -> (row: Option<Vec<V>>)
    requires
        key.well_formed(),
        schema.well_formed(),
    ensures
        row is Some <==> all_local(schema@, key@.to_set()),
        row matches Some(v) ==> v@.len() == key@.len() && zip_row(key@, v@) == default_components::<V>(
            key@.to_set(),
        ),
{
    let mut row: Vec<V> = Vec::new();
    let mut i: usize = 0;
    while i < key.0.len()
        invariant
            i <= key@.len(),
            key.well_formed(),
            schema.well_formed(),
            row@.len() == i,
            forall|k: int| 0 <= k < i ==> #[trigger] row@[k] == V::default_of(key@[k]),
            forall|k: int|
                0 <= k < i ==> (schema_of(schema@, #[trigger] key@[k]) matches Some(s) && s.local),
        decreases key@.len() - i,
    {
        let cid = key.0[i];
        if !schema.row_ops(cid) {
            proof {
                assert(key@[i as int] == cid);
                assert(key@.to_set().contains(cid));
            }
            return None;
        }
        row.push(V::replicate_default(cid));
        i = i + 1;
    }
    proof {
        assert forall|c: ComponentId| #[trigger] key@.to_set().contains(c) implies (schema_of(schema@, c) matches Some(
            s,
        ) && s.local) by {
            assert(key@.contains(c));
            let k = key@.index_of(c);
            assert(key@[k] == c);
        }
        let m1 = zip_row(key@, row@);
        let m2 = default_components::<V>(key@.to_set());
        assert forall|c: ComponentId| #[trigger] m1.contains_key(c) implies m1[c] == m2[c] by {
            let k = key@.index_of(c);
            assert(key@[k] == c);
        }
        assert forall|c: ComponentId| #[trigger] m1.contains_key(c) <==> m2.contains_key(c) by {
            assert(key@.to_set().contains(c) == key@.contains(c));
        }
        assert(m1 =~= m2);
    }
    Some(row)
}

impl<V: ReplicatedValue> World<V> {
    /// Writes one field of a component from bytes. A dead entity or a missing
    /// component is passed over silently, as a late delta may name either.
    pub fn write_component_field(
        &mut self,
        entity: Entity,
        cid: ComponentId,
        field: u32,
        bytes: &[u8],
    ) -> (out: Result<(), ErrorCode>)
        requires
            old(self).well_formed(),
        ensures
            final(self).well_formed(),
            final(self)@ == write_field(old(self)@, entity, cid, field, bytes@).0,
            out == write_field(old(self)@, entity, cid, field, bytes@).1,
            final(self).entity_slots == old(self).entity_slots,
            final(self).free_slots == old(self).free_slots,
            final(self).archetypes@.len() == old(self).archetypes@.len(),
    {
        let ghost before = self@;
        match self.get_mut(entity, cid) {
            None => Ok(()),
            Some(value) => {
                let out = value.decode_field(cid, field, bytes);
                proof {
                    let same = before.insert(entity, before[entity].insert(cid, before[entity][cid]));
                    assert(before[entity].insert(cid, before[entity][cid]) =~= before[entity]);
                    assert(same =~= before);
                }
                out
            },
        }
    }

    /// Writes the fields of one component that have bytes in `data`.
    pub(crate) fn write_component_fields(
        &mut self,
        entity: Entity,
        cid: ComponentId,
        data: &Vec<Vec<u8>>,
        schema: &ReplicationRegistry,
    ) -> (out: Result<(), ErrorCode>)
        requires
            old(self).well_formed(),
            schema.well_formed(),
        ensures
            final(self).well_formed(),
            (final(self)@, out) == write_component(
                old(self)@,
                entity,
                cid,
                crate::replication::types::blobs(data@),
                schema@,
            ),
            final(self).entity_slots == old(self).entity_slots,
            final(self).free_slots == old(self).free_slots,
            final(self).archetypes@.len() == old(self).archetypes@.len(),
    {
        let ghost m = self@;
        let ghost first = *self;
        let ghost blobs = crate::replication::types::blobs(data@);
        let s = match schema.schema(cid) {
            None => {
                return Ok(());
            },
            Some(s) => s,
        };
        let ghost fields = s.fields@;
        let mut i: usize = 0;
        proof {
            assert(fields.take(0) =~= Seq::<FieldDescriptor>::empty());
        }
        while i < s.fields.len()
            invariant
                i <= s.fields@.len(),
                fields == s.fields@,
                blobs == crate::replication::types::blobs(data@),
                self.well_formed(),
                (self@, Ok::<(), ErrorCode>(())) == write_fields(m, entity, cid, fields.take(i as int), blobs),
                self.entity_slots == first.entity_slots,
                self.free_slots == first.free_slots,
                self.archetypes@.len() == first.archetypes@.len(),
                schema_of(schema@, cid) == Some(s@),
                m == old(self)@,
                first == *old(self),
            decreases s.fields@.len() - i,
        {
            let f = s.fields[i];
            proof {
                assert(fields.take(i + 1).drop_last() =~= fields.take(i as int));
                assert(fields.take(i + 1).last() == f);
            }
            let at: usize = f.field_index as usize;
            if f.encoding != ReplicationEncoding::Event && f.accessible && at < data.len()
                && data[at].len() > 0 {
                match self.write_component_field(entity, cid, f.field_index, data[at].as_slice()) {
                    Ok(()) => {},
                    Err(e) => {
                        proof {
                            lemma_fields_stop(m, entity, cid, fields, blobs, i + 1);
                        }
                        return Err(e);
                    },
                }
            }
            i = i + 1;
        }
        proof {
            assert(fields.take(fields.len() as int) =~= fields);
        }
        Ok(())
    }

    /// Places an entity with a fresh row of the given component types.
    pub(crate) fn place_entity(
        &mut self,
        entity: Entity,
        ids: Vec<ComponentId>,
        schema: &ReplicationRegistry,
    ) -> (placed: bool)
        requires
            old(self).well_formed(),
            old(self).has_archetype_room(),
            schema.well_formed(),
        ensures
            final(self).well_formed(),
            (world_model(final(self)), placed) == place(
                world_model(old(self)),
                entity,
                ids@.to_set(),
                schema@,
            ),
            final(self).archetypes@.len() <= old(self).archetypes@.len() + 1,
    {
        let key = ArchetypeKey::new(ids);
        let row = default_row::<V>(&key, schema);
        self.force_spawn_in_archetype(entity, key, row).is_some()
    }
}

impl Delta {
    /// Applies this delta to a world: despawns, then spawns at the exact
    /// handles of the delta, then field writes.
    ///
    /// A spawn blob that describes no component types gives an entity without
    /// components. Naming a component type that this peer has not registered
    /// itself is an error. Field bytes for dead entities, unknown component
    /// types and inaccessible fields are passed over.
    pub fn apply<V: ReplicatedValue>(&self, world: &mut World<V>, schema: &ReplicationRegistry) -> (out: Result<
        (),
        ErrorCode,
    >)
        requires
            old(world).well_formed(),
            schema.well_formed(),
            old(world).archetypes@.len() + self.spawned@.len() <= u32::MAX,
        ensures
            final(world).well_formed(),
            (world_model(final(world)), out) == delta_applied(world_model(old(world)), self@, schema@),
    {
        let mut scratch: Vec<u8> = Vec::new();
        self.apply_with_scratch(world, schema, &mut scratch)
    }

    /// Like [`Delta::apply`]. The scratch buffer is accepted for callers that
    /// hold one, and left as it is.
    pub fn apply_with_scratch<V: ReplicatedValue>(
        &self,
        world: &mut World<V>,
        schema: &ReplicationRegistry,
        _scratch: &mut Vec<u8>,
    ) -> (out: Result<(), ErrorCode>)
        requires
            old(world).well_formed(),
            schema.well_formed(),
            old(world).archetypes@.len() + self.spawned@.len() <= u32::MAX,
        ensures
            final(world).well_formed(),
            (world_model(final(world)), out) == delta_applied(world_model(old(world)), self@, schema@),
            *final(_scratch) == *old(_scratch),
    {
        let ghost w0 = world_model(world);
        let ghost archs = world.archetypes@.len();
        let ghost reg = schema@;
        let mut i: usize = 0;
        proof {
            assert(self.despawned@.take(0) =~= Seq::<Entity>::empty());
        }
        while i < self.despawned.len()
            invariant
                i <= self.despawned@.len(),
                world.well_formed(),
                world_model(world) == apply_despawns(w0, self.despawned@.take(i as int)),
                world.archetypes@.len() == archs,
            decreases self.despawned@.len() - i,
        {
            let ghost before = *world;
            let removed = world.despawn(self.despawned[i]);
            proof {
                if removed {
                    lemma_despawned_slots(before, *world, self.despawned@[i as int]);
                }
            }
            i = i + 1;
            proof {
                assert(self.despawned@.take(i as int).drop_last() =~= self.despawned@.take(i - 1));
            }
        }
        let ghost gone = world_model(world);
        proof {
            assert(self.despawned@.take(self.despawned@.len() as int) =~= self.despawned@);
        }
        let ghost spawned = self@.spawned;
        let mut j: usize = 0;
        proof {
            assert(spawned.take(0) =~= Seq::<(Entity, Seq<u8>)>::empty());
        }
        while j < self.spawned.len()
            invariant
                j <= self.spawned@.len(),
                spawned == self@.spawned,
                spawned.len() == self.spawned@.len(),
                world.well_formed(),
                schema.well_formed(),
                reg == schema@,
                (world_model(world), true) == apply_spawns(gone, spawned.take(j as int), reg),
                world.archetypes@.len() <= archs + j,
                archs + self.spawned@.len() <= u32::MAX,
                gone == apply_despawns(w0, self.despawned@),
                w0 == world_model(old(world)),
            decreases self.spawned@.len() - j,
        {
            let entity = self.spawned[j].0;
            let ids: Vec<ComponentId> = match decode_archetype_key(self.spawned[j].1.as_slice()) {
                Some(ids) => ids,
                None => Vec::new(),
            };
            proof {
                assert(Seq::<ComponentId>::empty().to_set() =~= Set::<ComponentId>::empty());
                assert(spawned.take(j + 1).drop_last() =~= spawned.take(j as int));
                assert(spawned.take(j + 1).last() == (entity, self.spawned@[j as int].1@));
                assert(ids@.to_set() =~= blob_types(self.spawned@[j as int].1@));
            }
            if !world.place_entity(entity, ids, schema) {
                proof {
                    lemma_spawns_stop(gone, spawned, reg, j + 1);
                }
                return Err(ErrorCode::InvalidData);
            }
            j = j + 1;
        }
        proof {
            assert(spawned.take(spawned.len() as int) =~= spawned);
        }
        self.write_changes(world, schema)
    }

    /// Writes the field bytes of this delta, up to the first that a field does
    /// not accept.
    pub(crate) fn write_changes<V: ReplicatedValue>(&self, world: &mut World<V>, schema: &ReplicationRegistry) -> (out:
        Result<(), ErrorCode>)
        requires
            old(world).well_formed(),
            schema.well_formed(),
        ensures
            final(world).well_formed(),
            (final(world)@, out) == apply_changes(old(world)@, self@.component_deltas, schema@),
            final(world).entity_slots == old(world).entity_slots,
            final(world).free_slots == old(world).free_slots,
    {
        let ghost m = world@;
        let ghost reg = schema@;
        let ghost changes = self@.component_deltas;
        let mut k: usize = 0;
        proof {
            assert(changes.take(0) =~= Seq::<ComponentDeltaModel>::empty());
        }
        while k < self.component_deltas.len()
            invariant
                k <= self.component_deltas@.len(),
                changes == self@.component_deltas,
                changes.len() == self.component_deltas@.len(),
                world.well_formed(),
                schema.well_formed(),
                reg == schema@,
                m == old(world)@,
                (world@, Ok::<(), ErrorCode>(())) == apply_changes(m, changes.take(k as int), reg),
                world.entity_slots == old(world).entity_slots,
                world.free_slots == old(world).free_slots,
            decreases self.component_deltas@.len() - k,
        {
            let cd = &self.component_deltas[k];
            proof {
                assert(changes.take(k + 1).drop_last() =~= changes.take(k as int));
                assert(changes.take(k + 1).last() == cd@);
                assert(apply_changes(m, changes.take(k + 1), reg) == write_component(
                    world@,
                    cd.entity,
                    cd.component_type,
                    cd@.field_data,
                    reg,
                ));
            }
            let step = world.write_component_fields(cd.entity, cd.component_type, &cd.field_data, schema);
            proof {
                let next = apply_changes(m, changes.take(k + 1), reg);
                assert(world@ == next.0);
                assert(step == next.1);
            }
            match step {
                Ok(done) => {
                    assert(done == ());
                },
                Err(e) => {
                    proof {
                        lemma_changes_stop(m, changes, reg, k + 1);
                    }
                    return Err(e);
                },
            }
            k = k + 1;
        }
        proof {
            assert(changes.take(changes.len() as int) =~= changes);
        }
        Ok(())
    }
}

/// Despawning removes exactly the named entities.
pub proof fn lemma_despawns<V>(w: WorldModel<V>, despawned: Seq<Entity>)
    ensures
        apply_despawns(w, despawned).entities == Map::new(
            |e: Entity| w.entities.contains_key(e) && !despawned.contains(e),
            |e: Entity| w.entities[e],
        ),
    decreases despawned.len(),
{
    let m = w.entities;
    let want = Map::new(|e: Entity| m.contains_key(e) && !despawned.contains(e), |e: Entity| m[e]);
    if despawned.len() > 0 {
        let init = despawned.drop_last();
        lemma_despawns(w, init);
        assert forall|e: Entity| #[trigger] despawned.contains(e) <==> init.contains(e) || e == despawned.last() by {
            if despawned.contains(e) && e != despawned.last() {
                let i = despawned.index_of(e);
                assert(init[i] == e);
            }
            if init.contains(e) {
                let i = init.index_of(e);
                assert(despawned[i] == e);
            }
            assert(despawned[despawned.len() - 1] == despawned.last());
        }
    }
    assert(apply_despawns(w, despawned).entities =~= want);
}

/// No two spawns are for the same slot.
pub open spec fn distinct_slots(spawned: Seq<(Entity, Seq<u8>)>) -> bool {
    forall|i: int, j: int|
        0 <= i < j < spawned.len() ==> (#[trigger] spawned[i]).0.index() != (#[trigger] spawned[j]).0.index()
}

/// Some spawn is for slot `idx`.
pub open spec fn claims_slot(spawned: Seq<(Entity, Seq<u8>)>, idx: u32) -> bool {
    exists|i: int| 0 <= i < spawned.len() && (#[trigger] spawned[i]).0.index() == idx
}

/// Where all spawns succeed, each spawned entity is alive at its exact handle
/// with a fresh row of the component types that its blob describes, and the
/// entities in other slots are untouched.
pub proof fn lemma_spawns<V: ReplicatedValue>(
    w: WorldModel<V>,
    spawned: Seq<(Entity, Seq<u8>)>,
    reg: Seq<SchemaModel>,
)
    requires
        distinct_slots(spawned),
        apply_spawns(w, spawned, reg).1,
    ensures
        ({
            let after = apply_spawns(w, spawned, reg).0.entities;
            &&& forall|i: int|
                0 <= i < spawned.len() ==> after.contains_key((#[trigger] spawned[i]).0) && after[spawned[i].0]
                    == default_components::<V>(blob_types(spawned[i].1))
            &&& forall|e: Entity|
                !claims_slot(spawned, e.index()) ==> {
                    &&& (#[trigger] after.contains_key(e) <==> w.entities.contains_key(e))
                    &&& after.contains_key(e) ==> after[e] == w.entities[e]
                }
        }),
    decreases spawned.len(),
{
    if spawned.len() > 0 {
        let init = spawned.drop_last();
        let last = spawned.last();
        let before = apply_spawns(w, init, reg);
        assert(before.1);
        assert forall|i: int, j: int| 0 <= i < j < init.len() implies (#[trigger] init[i]).0.index() != (
        #[trigger] init[j]).0.index() by {
            assert(spawned[i].0.index() != spawned[j].0.index());
        }
        lemma_spawns(w, init, reg);
        let after = apply_spawns(w, spawned, reg).0.entities;
        let n = spawned.len() - 1;
        assert(spawned[n] == last);
        assert forall|i: int| 0 <= i < spawned.len() implies after.contains_key((#[trigger] spawned[i]).0)
            && after[spawned[i].0] == default_components::<V>(blob_types(spawned[i].1)) by {
            if i < n {
                assert(init[i] == spawned[i]);
                assert(spawned[i].0.index() != spawned[n].0.index());
            }
        }
        assert forall|e: Entity| !claims_slot(spawned, e.index()) implies {
            &&& (#[trigger] after.contains_key(e) <==> w.entities.contains_key(e))
            &&& after.contains_key(e) ==> after[e] == w.entities[e]
        } by {
            assert(spawned[n].0.index() != e.index());
            if claims_slot(init, e.index()) {
                let i = choose|i: int| 0 <= i < init.len() && (#[trigger] init[i]).0.index() == e.index();
                assert(spawned[i].0.index() == e.index());
            }
            assert(before.0.entities.contains_key(e) <==> w.entities.contains_key(e));
        }
    }
}

/// The same live entities, each with the same component types.
pub open spec fn same_shape<V>(a: Map<Entity, Map<ComponentId, V>>, b: Map<Entity, Map<ComponentId, V>>) -> bool {
    &&& a.dom() == b.dom()
    &&& forall|e: Entity| #[trigger] a.contains_key(e) ==> a[e].dom() == b[e].dom()
}

/// Some component delta is for `e`.
pub open spec fn changes_entity(changes: Seq<ComponentDeltaModel>, e: Entity) -> bool {
    exists|i: int| 0 <= i < changes.len() && (#[trigger] changes[i]).entity == e
}

pub(crate) proof fn lemma_write_fields_shape<V: ReplicatedValue>(
    m: Map<Entity, Map<ComponentId, V>>,
    e: Entity,
    cid: ComponentId,
    fields: Seq<FieldDescriptor>,
    data: Seq<Seq<u8>>,
)
    ensures
        same_shape(m, write_fields(m, e, cid, fields, data).0),
        forall|x: Entity, c: ComponentId|
            (x != e || c != cid) && m.contains_key(x) ==> #[trigger] write_fields(m, e, cid, fields, data).0[x][c]
                == m[x][c],
    decreases fields.len(),
{
    if fields.len() > 0 {
        lemma_write_fields_shape(m, e, cid, fields.drop_last(), data);
        let before = write_fields(m, e, cid, fields.drop_last(), data).0;
        let after = write_fields(m, e, cid, fields, data).0;
        assert(after.dom() =~= m.dom());
        assert forall|x: Entity| #[trigger] m.contains_key(x) implies m[x].dom() == after[x].dom() by {
            assert(before.dom().contains(x));
            assert(after[x].dom() =~= before[x].dom());
        }
    }
}

/// Field writes, failed ones too, neither make nor remove entities or
/// components, and touch only entities that a component delta names.
pub proof fn lemma_changes<V: ReplicatedValue>(
    m: Map<Entity, Map<ComponentId, V>>,
    changes: Seq<ComponentDeltaModel>,
    reg: Seq<SchemaModel>,
)
    ensures
        same_shape(m, apply_changes(m, changes, reg).0),
        forall|e: Entity|
            m.contains_key(e) && !changes_entity(changes, e) ==> #[trigger] apply_changes(m, changes, reg).0[e]
                == m[e],
    decreases changes.len(),
{
    if changes.len() > 0 {
        let init = changes.drop_last();
        let cd = changes.last();
        lemma_changes(m, init, reg);
        let before = apply_changes(m, init, reg).0;
        let after = apply_changes(m, changes, reg).0;
        if let Some(s) = schema_of(reg, cd.component_type) {
            lemma_write_fields_shape(before, cd.entity, cd.component_type, s.fields, cd.field_data);
        }
        assert(same_shape(before, after));
        assert forall|x: Entity| #[trigger] m.contains_key(x) implies m[x].dom() == after[x].dom() by {
            assert(before.dom().contains(x));
            assert(before.contains_key(x));
        }
        assert forall|e: Entity| m.contains_key(e) && !changes_entity(changes, e) implies #[trigger] after[e]
            == m[e] by {
            assert(changes[changes.len() - 1] == cd);
            if changes_entity(init, e) {
                let i = choose|i: int| 0 <= i < init.len() && (#[trigger] init[i]).entity == e;
                assert(changes[i].entity == e);
            }
            assert(before[e] == m[e]);
            assert(before.dom().contains(e));
            assert(after[e].dom() =~= before[e].dom());
            assert forall|c: ComponentId| #[trigger] after[e].contains_key(c) implies after[e][c] == before[e][c] by {
                assert(e != cd.entity);
            }
            assert(after[e] =~= before[e]);
        }
    }
}

/// After a delta was applied without an error, exactly these entities are
/// alive: the spawned ones, and those from before that were not despawned and
/// whose slot no spawn took.
pub proof fn lemma_applied_entities<V: ReplicatedValue>(w: WorldModel<V>, d: DeltaModel, reg: Seq<SchemaModel>)
    requires
        distinct_slots(d.spawned),
        delta_applied(w, d, reg).1 is Ok,
    ensures
        forall|e: Entity| #[trigger]
            delta_applied(w, d, reg).0.entities.contains_key(e) <==> {
                ||| exists|i: int| 0 <= i < d.spawned.len() && (#[trigger] d.spawned[i]).0 == e
                ||| w.entities.contains_key(e) && !d.despawned.contains(e) && !claims_slot(d.spawned, e.index())
            },
{
    let gone = apply_despawns(w, d.despawned);
    let placed = apply_spawns(gone, d.spawned, reg);
    lemma_despawns(w, d.despawned);
    lemma_spawns(gone, d.spawned, reg);
    lemma_changes(placed.0.entities, d.component_deltas, reg);
    assert forall|e: Entity| #[trigger] delta_applied(w, d, reg).0.entities.contains_key(e) <==> {
        ||| exists|i: int| 0 <= i < d.spawned.len() && (#[trigger] d.spawned[i]).0 == e
        ||| w.entities.contains_key(e) && !d.despawned.contains(e) && !claims_slot(d.spawned, e.index())
    } by {
        assert(delta_applied(w, d, reg).0.entities.dom().contains(e) <==> placed.0.entities.dom().contains(e));
        if claims_slot(d.spawned, e.index()) {
            lemma_slot_has_one_occupant(gone, d.spawned, reg, e);
        } else if exists|i: int| 0 <= i < d.spawned.len() && (#[trigger] d.spawned[i]).0 == e {
            let i = choose|i: int| 0 <= i < d.spawned.len() && (#[trigger] d.spawned[i]).0 == e;
            assert(claims_slot(d.spawned, e.index()));
        }
    }
}

proof fn lemma_slot_has_one_occupant<V: ReplicatedValue>(
    w: WorldModel<V>,
    spawned: Seq<(Entity, Seq<u8>)>,
    reg: Seq<SchemaModel>,
    e: Entity,
)
    requires
        distinct_slots(spawned),
        apply_spawns(w, spawned, reg).1,
        claims_slot(spawned, e.index()),
    ensures
        apply_spawns(w, spawned, reg).0.entities.contains_key(e) <==> exists|i: int|
            0 <= i < spawned.len() && (#[trigger] spawned[i]).0 == e,
    decreases spawned.len(),
{
    lemma_spawns(w, spawned, reg);
    let n = spawned.len() - 1;
    let init = spawned.drop_last();
    let after = apply_spawns(w, spawned, reg).0.entities;
    assert(spawned[n] == spawned.last());
    if after.contains_key(e) {
        if spawned[n].0.index() != e.index() {
            let i = choose|i: int| 0 <= i < spawned.len() && (#[trigger] spawned[i]).0.index() == e.index();
            assert(init[i] == spawned[i]);
            assert(claims_slot(init, e.index()));
            assert forall|i: int, j: int| 0 <= i < j < init.len() implies (#[trigger] init[i]).0.index() != (
            #[trigger] init[j]).0.index() by {
                assert(spawned[i].0.index() != spawned[j].0.index());
            }
            lemma_slot_has_one_occupant(w, init, reg, e);
            let k = choose|i: int| 0 <= i < init.len() && (#[trigger] init[i]).0 == e;
            assert(spawned[k].0 == e);
        } else {
            assert(spawned[n].0 == e);
        }
    }
}

/// The blob that a spawn carries describes exactly the component types that
/// the entity has.
pub proof fn lemma_spawn_blob<V>(world: World<V>, e: Entity)
    requires
        world.well_formed(),
        world@.contains_key(e),
        world.key_of(e).len() <= u32::MAX,
        !world.key_of(e).contains(ComponentId(0)),
    ensures
        blob_types(archetype_blob(&world, e)) == world@[e].dom(),
{
    lemma_key_of(world, e);
    lemma_archetype_key_round_trip(world.key_of(e));
}

/// A delta does the same to worlds in the same state, whether it is applied
/// with a scratch buffer or without one: the outcome, the live entities, all
/// values and the slots agree.
pub proof fn lemma_scratch_makes_no_difference<V: ReplicatedValue>(
    before: World<V>,
    with: World<V>,
    out_with: Result<(), ErrorCode>,
    without: World<V>,
    out_without: Result<(), ErrorCode>,
    other: World<V>,
    d: DeltaModel,
    reg: Seq<SchemaModel>,
)
    requires
        world_model(&before) == world_model(&other),
        (world_model(&with), out_with) == delta_applied(world_model(&before), d, reg),
        (world_model(&without), out_without) == delta_applied(world_model(&other), d, reg),
    ensures
        out_with == out_without,
        with@ == without@,
        with.slots() == without.slots(),
{
}

/// A spawn that carries a bare frame number gives an entity without
/// components, for frames that fit 32 bits.
pub proof fn lemma_frame_blob(frame: u64)
    requires
        frame < 0x1_0000_0000,
    ensures
        blob_types(u64_wire(frame)) == Set::<ComponentId>::empty(),
{
    lemma_frame_is_no_archetype_key(frame);
}

/// A sound world without an entity is sound.
pub(crate) proof fn lemma_despawn_keeps_sound<V>(w: WorldModel<V>, e: Entity)
    requires
        w.sound(),
    ensures
        w.despawned(e).sound(),
{
    if w.entities.contains_key(e) {
        let after = w.despawned(e);
        assert forall|x: Entity| #[trigger] after.entities.contains_key(x) implies {
            &&& x.index() < after.slots.len()
            &&& after.slots.generations[x.index() as int] == x.generation()
            &&& x.generation() != RETIRED_GENERATION
        } by {
            assert(w.entities.contains_key(x));
            if x.index() == e.index() {
                lemma_entity_parts(x, e.index(), e.generation());
                lemma_entity_parts(e, e.index(), e.generation());
            }
        }
    }
}

/// What placing an entity, or failing to, does to the slots: no other slot
/// changes its generation, and a placed entity's slot has that of its handle.
pub(crate) proof fn lemma_place_slots<V: ReplicatedValue>(
    w: WorldModel<V>,
    e: Entity,
    ids: Set<ComponentId>,
    reg: Seq<SchemaModel>,
)
    ensures
        ({
            let placed = place(w, e, ids, reg);
            &&& forall|i: int| i != e.index() ==> #[trigger] placed.0.slots.generation(i) == w.slots.generation(i)
            &&& placed.1 ==> placed.0.slots.generation(e.index() as int) == e.generation()
            &&& w.slots.len() <= placed.0.slots.len()
            &&& w.sound() ==> placed.0.sound()
        }),
{
    let placed = place(w, e, ids, reg);
    let idx = e.index();
    if can_place(w.slots.len(), e) {
        let grown = w.slots.grown(idx);
        assert forall|i: int| #[trigger] grown.generation(i) == w.slots.generation(i) by {}
        let empty = w.vacated(idx).slots;
        assert forall|i: int| i != idx implies #[trigger] empty.generation(i) == w.slots.generation(i) by {
            assert(grown.generation(i) == w.slots.generation(i));
        }
        assert forall|i: int| i != idx implies #[trigger] placed.0.slots.generation(i) == w.slots.generation(i) by {
            assert(empty.generation(i) == w.slots.generation(i));
        }
        if w.sound() {
            assert forall|x: Entity| #[trigger] placed.0.entities.contains_key(x) implies {
                &&& x.index() < placed.0.slots.len()
                &&& placed.0.slots.generations[x.index() as int] == x.generation()
                &&& x.generation() != RETIRED_GENERATION
            } by {
                if x != e {
                    assert(w.entities.contains_key(x));
                    assert(placed.0.slots.generation(x.index() as int) == w.slots.generation(x.index() as int));
                }
            }
        }
    }
}

proof fn lemma_despawns_advance<V>(w: WorldModel<V>, despawned: Seq<Entity>, i: int)
    requires
        w.sound(),
    ensures
        apply_despawns(w, despawned).sound(),
        apply_despawns(w, despawned).slots.generation(i) >= w.slots.generation(i),
    decreases despawned.len(),
{
    if despawned.len() > 0 {
        lemma_despawns_advance(w, despawned.drop_last(), i);
        lemma_despawn_keeps_sound(apply_despawns(w, despawned.drop_last()), despawned.last());
    }
}

proof fn lemma_despawns_expire<V>(w: WorldModel<V>, despawned: Seq<Entity>, e: Entity)
    requires
        w.sound(),
        w.entities.contains_key(e),
        despawned.contains(e),
    ensures
        apply_despawns(w, despawned).slots.generation(e.index() as int) > e.generation(),
    decreases despawned.len(),
{
    let init = despawned.drop_last();
    let before = apply_despawns(w, init);
    lemma_despawns_advance(w, init, e.index() as int);
    if init.contains(e) {
        lemma_despawns_expire(w, init, e);
    } else {
        let k = despawned.index_of(e);
        assert(despawned[k] == e);
        if k < init.len() {
            assert(init[k] == e);
        }
        assert(despawned.last() == e);
        lemma_despawns(w, init);
        assert(before.entities.contains_key(e));
    }
}

proof fn lemma_spawns_slots<V: ReplicatedValue>(
    w: WorldModel<V>,
    spawned: Seq<(Entity, Seq<u8>)>,
    reg: Seq<SchemaModel>,
)
    ensures
        ({
            let after = apply_spawns(w, spawned, reg);
            &&& forall|i: int|
                0 <= i <= u32::MAX && !claims_slot(spawned, i as u32) ==> #[trigger] after.0.slots.generation(i)
                    == w.slots.generation(i)
            &&& after.1 ==> forall|k: int|
                0 <= k < spawned.len() && !claims_slot(
                    spawned.skip(k + 1),
                    (#[trigger] spawned[k]).0.index(),
                ) ==> after.0.slots.generation(spawned[k].0.index() as int) == spawned[k].0.generation()
            &&& w.sound() ==> after.0.sound()
        }),
    decreases spawned.len(),
{
    if spawned.len() > 0 {
        let init = spawned.drop_last();
        let last = spawned.last();
        let n = spawned.len() - 1;
        lemma_spawns_slots(w, init, reg);
        let before = apply_spawns(w, init, reg);
        let after = apply_spawns(w, spawned, reg);
        lemma_place_slots(before.0, last.0, blob_types(last.1), reg);
        assert(spawned[n] == last);
        assert forall|i: int| 0 <= i <= u32::MAX && !claims_slot(spawned, i as u32) implies #[trigger] after.0.slots.generation(
            i,
        ) == w.slots.generation(i) by {
            assert(spawned[n].0.index() != i as u32);
            if claims_slot(init, i as u32) {
                let j = choose|j: int| 0 <= j < init.len() && (#[trigger] init[j]).0.index() == i as u32;
                assert(spawned[j].0.index() == i as u32);
            }
            assert(before.0.slots.generation(i) == w.slots.generation(i));
        }
        if after.1 {
            assert forall|k: int| 0 <= k < spawned.len() && !claims_slot(
                spawned.skip(k + 1),
                (#[trigger] spawned[k]).0.index(),
            ) implies after.0.slots.generation(spawned[k].0.index() as int) == spawned[k].0.generation() by {
                if k < n {
                    let idx = spawned[k].0.index();
                    assert(spawned.skip(k + 1)[n - k - 1] == last);
                    assert(last.0.index() != idx);
                    assert(init[k] == spawned[k]);
                    if claims_slot(init.skip(k + 1), idx) {
                        let j = choose|j: int|
                            0 <= j < init.skip(k + 1).len() && (#[trigger] init.skip(k + 1)[j]).0.index() == idx;
                        assert(spawned.skip(k + 1)[j].0.index() == idx);
                    }
                    assert(before.0.slots.generation(idx as int) == spawned[k].0.generation());
                }
            }
        }
    }
}

/// After a delta, applied in full or not, no slot that its spawns leave alone has
/// gone back to an earlier generation: a handle that was stale stays stale.
pub proof fn lemma_applied_slots_advance<V: ReplicatedValue>(
    w: WorldModel<V>,
    d: DeltaModel,
    reg: Seq<SchemaModel>,
    idx: u32,
)
    requires
        w.sound(),
        !claims_slot(d.spawned, idx),
    ensures
        delta_applied(w, d, reg).0.slots.generation(idx as int) >= w.slots.generation(idx as int),
{
    lemma_despawns_advance(w, d.despawned, idx as int);
    let gone = apply_despawns(w, d.despawned);
    lemma_spawns_slots(gone, d.spawned, reg);
    assert(apply_spawns(gone, d.spawned, reg).0.slots.generation(idx as int) == gone.slots.generation(idx as int));
}

/// After a delta, applied in full or not, a live entity that it despawns has an
/// expired handle, unless a spawn of the delta takes the slot: the slot has moved
/// past the generation of the handle.
pub proof fn lemma_applied_despawns_expire<V: ReplicatedValue>(
    w: WorldModel<V>,
    d: DeltaModel,
    reg: Seq<SchemaModel>,
    e: Entity,
)
    requires
        w.sound(),
        w.entities.contains_key(e),
        d.despawned.contains(e),
        !claims_slot(d.spawned, e.index()),
    ensures
        delta_applied(w, d, reg).0.slots.generation(e.index() as int) > e.generation(),
{
    lemma_despawns_expire(w, d.despawned, e);
    let gone = apply_despawns(w, d.despawned);
    lemma_spawns_slots(gone, d.spawned, reg);
    assert(apply_spawns(gone, d.spawned, reg).0.slots.generation(e.index() as int) == gone.slots.generation(
        e.index() as int,
    ));
}

/// A handle that was stale before a delta is stale after it, whether the delta is
/// applied in full or not, unless a spawn of the delta takes the slot.
pub proof fn lemma_stale_after_apply<V: ReplicatedValue>(
    before: World<V>,
    after: World<V>,
    d: DeltaModel,
    reg: Seq<SchemaModel>,
    e: Entity,
)
    requires
        before.well_formed(),
        world_model(&after) == delta_applied(world_model(&before), d, reg).0,
        before.expired(e),
        !claims_slot(d.spawned, e.index()),
    ensures
        after.expired(e),
        !after@.contains_key(e),
{
    lemma_world_is_sound(before);
    lemma_applied_slots_advance(world_model(&before), d, reg, e.index());
    assert(after.slots().generation(e.index() as int) == after.slot_generation(e.index() as int));
    assert(before.slots().generation(e.index() as int) == before.slot_generation(e.index() as int));
    lemma_expired_stays_dead(before, after, e);
}

/// An entity that a delta despawns is dead for good, unless a spawn of the delta
/// takes its slot: its handle is expired.
pub proof fn lemma_despawned_by_delta_is_expired<V: ReplicatedValue>(
    before: World<V>,
    after: World<V>,
    d: DeltaModel,
    reg: Seq<SchemaModel>,
    e: Entity,
)
    requires
        before.well_formed(),
        world_model(&after) == delta_applied(world_model(&before), d, reg).0,
        before@.contains_key(e),
        d.despawned.contains(e),
        !claims_slot(d.spawned, e.index()),
    ensures
        after.expired(e),
        !after@.contains_key(e),
{
    lemma_world_is_sound(before);
    lemma_applied_despawns_expire(world_model(&before), d, reg, e);
    assert(after.slots().generation(e.index() as int) == after.slot_generation(e.index() as int));
    lemma_expired_is_dead(after, e);
}

/// Where all spawns of a delta succeed, the slot of a spawn has the generation of
/// its handle, which is that of the peer, unless a later spawn takes the slot.
pub proof fn lemma_applied_spawns_set_generations<V: ReplicatedValue>(
    w: WorldModel<V>,
    d: DeltaModel,
    reg: Seq<SchemaModel>,
    k: int,
)
    requires
        0 <= k < d.spawned.len(),
        !claims_slot(d.spawned.skip(k + 1), d.spawned[k].0.index()),
        apply_spawns(apply_despawns(w, d.despawned), d.spawned, reg).1,
    ensures
        delta_applied(w, d, reg).0.slots.generation(d.spawned[k].0.index() as int) == d.spawned[k].0.generation(),
{
    lemma_spawns_slots(apply_despawns(w, d.despawned), d.spawned, reg);
}

/// A delta leaves a sound world sound, whether it is applied in full or not.
pub proof fn lemma_applied_is_sound<V: ReplicatedValue>(w: WorldModel<V>, d: DeltaModel, reg: Seq<SchemaModel>)
    requires
        w.sound(),
    ensures
        delta_applied(w, d, reg).0.sound(),
{
    lemma_despawns_advance(w, d.despawned, 0);
    let gone = apply_despawns(w, d.despawned);
    lemma_spawns_slots(gone, d.spawned, reg);
    let placed = apply_spawns(gone, d.spawned, reg);
    lemma_changes(placed.0.entities, d.component_deltas, reg);
    let after = delta_applied(w, d, reg).0;
    assert forall|e: Entity| #[trigger] after.entities.contains_key(e) implies placed.0.entities.contains_key(e) by {
        assert(after.entities.dom().contains(e));
    }
}

} // verus!
