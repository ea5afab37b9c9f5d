//! Captures of a world's state, and putting them back.

use vstd::prelude::*;
use crate::archetype::{lemma_index_of, Archetype};
use crate::component::ComponentId;
use crate::entity::{lemma_entity_parts, Entity};
use crate::replication::apply::{all_local, can_place, default_components, lemma_place_slots, lemma_write_fields_shape, place, world_model, write_component, write_fields, carries, WorldModel};
use crate::replication::relevance::RelevanceSet;
use crate::replication::schema::{schema_of, FieldDescriptor, ReplicationRegistry, SchemaModel};
use crate::replication::tracker::{put_field, set_field};
use crate::replication::types::{blobs, copy_blobs, ErrorCode, ReplicationEncoding};
use crate::replication::value::ReplicatedValue;
use crate::replication::wire::{lemma_u32_bytes, u32_wire};
use crate::world::{lemma_expired_stays_dead, lemma_key_of, World, MAX_SLOT_GROWTH_PER_SPAWN};

verus! {

/// The fields of one component as they are captured: its type, and the bytes
/// of its fields by field index.
pub type CapturedComponent = (ComponentId, Vec<Vec<u8>>);

/// The components of one entity within a snapshot.
#[derive(Clone, Debug)]
pub struct EntitySnapshot {
    pub entity: Entity,
    pub components: Vec<(ComponentId, Vec<Vec<u8>>)>,
}

/// The components of one row of a spatial cell within a snapshot. Rows have no
/// identity of their own: they are in the order in which they were captured.
#[derive(Clone, Debug)]
pub struct CellRowSnapshot {
    pub cell_index: usize,
    pub components: Vec<(ComponentId, Vec<Vec<u8>>)>,
}

/// A capture of the state at one frame.
///
/// Entities of a world and rows of spatial cells are captured independently;
/// one snapshot may hold both.
#[derive(Clone, Debug)]
pub struct Snapshot {
    pub frame: u64,
    pub entities: Vec<EntitySnapshot>,
    pub cell_rows: Vec<CellRowSnapshot>,
}

/// The value of an [`EntitySnapshot`].
pub struct EntitySnapshotModel {
    pub entity: Entity,
    pub components: Seq<(ComponentId, Seq<Seq<u8>>)>,
}

/// The value of a [`CellRowSnapshot`].
pub struct CellRowModel {
    pub cell_index: usize,
    pub components: Seq<(ComponentId, Seq<Seq<u8>>)>,
}

/// The value of a [`Snapshot`].
pub struct SnapshotModel {
    pub frame: u64,
    pub entities: Seq<EntitySnapshotModel>,
    pub cell_rows: Seq<CellRowModel>,
}

/// The contents of a list of captured components.
pub open spec fn captured(v: Seq<CapturedComponent>) -> Seq<(ComponentId, Seq<Seq<u8>>)> {
    v.map_values(|c: CapturedComponent| (c.0, blobs(c.1@)))
}

impl View for EntitySnapshot {
    type V = EntitySnapshotModel;

    open spec fn view(&self) -> EntitySnapshotModel {
        EntitySnapshotModel { entity: self.entity, components: captured(self.components@) }
    }
}

impl View for CellRowSnapshot {
    type V = CellRowModel;

    open spec fn view(&self) -> CellRowModel {
        CellRowModel { cell_index: self.cell_index, components: captured(self.components@) }
    }
}

/// The contents of a list of entity snapshots.
pub open spec fn entity_snapshots(v: Seq<EntitySnapshot>) -> Seq<EntitySnapshotModel> {
    v.map_values(|s: EntitySnapshot| s@)
}

/// The contents of a list of cell row snapshots.
pub open spec fn row_snapshots(v: Seq<CellRowSnapshot>) -> Seq<CellRowModel> {
    v.map_values(|s: CellRowSnapshot| s@)
}

impl View for Snapshot {
    type V = SnapshotModel;

    open spec fn view(&self) -> SnapshotModel {
        SnapshotModel {
            frame: self.frame,
            entities: entity_snapshots(self.entities@),
            cell_rows: row_snapshots(self.cell_rows@),
        }
    }
}

/// `fields` filled up with empty blobs until index `at` exists.
pub open spec fn pad_fields(fields: Seq<Seq<u8>>, at: int) -> Seq<Seq<u8>> {
    if at < fields.len() {
        fields
    } else {
        put_field(fields, at, Seq::empty())
    }
}

/// The bytes of a component's fields by field index. Events and fields that
/// cannot be read stay empty.
pub open spec fn captured_fields<V: ReplicatedValue>(
    value: V,
    cid: ComponentId,
    fields: Seq<FieldDescriptor>,
) -> Seq<Seq<u8>>
    decreases fields.len(),
{
    if fields.len() == 0 {
        Seq::empty()
    } else {
        let f = fields.last();
        let before = captured_fields(value, cid, fields.drop_last());
        if f.encoding == ReplicationEncoding::Event || !f.accessible {
            pad_fields(before, f.field_index as int)
        } else {
            match value.field_bytes(cid, f.field_index) {
                Some(b) => put_field(before, f.field_index as int, b),
                None => pad_fields(before, f.field_index as int),
            }
        }
    }
}

/// The captured fields of a component; none if its type has no schema.
pub open spec fn captured_component<V: ReplicatedValue>(
    value: V,
    cid: ComponentId,
    reg: Seq<SchemaModel>,
) -> Seq<Seq<u8>> {
    match schema_of(reg, cid) {
        Some(s) => captured_fields(value, cid, s.fields),
        None => Seq::empty(),
    }
}

/// A live entity as it is captured: all its components in ascending order of
/// their types.
pub open spec fn captured_entity<V: ReplicatedValue>(
    world: &World<V>,
    e: Entity,
    reg: Seq<SchemaModel>,
) -> EntitySnapshotModel {
    EntitySnapshotModel {
        entity: e,
        components: Seq::new(
            world.key_of(e).len(),
            |i: int|
                (
                    world.key_of(e)[i],
                    captured_component(world@[e][world.key_of(e)[i]], world.key_of(e)[i], reg),
                ),
        ),
    }
}

/// The entities of the first `n` archetypes, table by table.
pub open spec fn entity_order<V>(archetypes: Seq<Archetype<V>>, n: int) -> Seq<Entity>
    decreases n,
{
    if n <= 0 {
        Seq::empty()
    } else {
        entity_order(archetypes, n - 1) + archetypes[n - 1].entities@
    }
}

impl<V> World<V> {
    /// All live entities, table by table.
    pub open spec fn entity_list(&self) -> Seq<Entity> {
        entity_order(self.archetypes@, self.archetypes@.len() as int)
    }
}

/// The given entities as they are captured.
pub open spec fn captured_entities<V: ReplicatedValue>(
    world: &World<V>,
    es: Seq<Entity>,
    reg: Seq<SchemaModel>,
) -> Seq<EntitySnapshotModel> {
    es.map_values(|e: Entity| captured_entity(world, e, reg))
}

/// Every field index can be used as an index.
pub open spec fn indexable(reg: Seq<SchemaModel>) -> bool {
    forall|i: int, j: int|
        0 <= i < reg.len() && 0 <= j < reg[i].fields.len() ==> (#[trigger] reg[i].fields[j]).field_index
            < usize::MAX
}

proof fn lemma_order_contains<V>(archetypes: Seq<Archetype<V>>, n: int, e: Entity)
    requires
        0 <= n <= archetypes.len(),
    ensures
        entity_order(archetypes, n).contains(e) <==> exists|a: int, r: int|
            0 <= a < n && 0 <= r < archetypes[a].entities@.len() && #[trigger] archetypes[a].entities@[r] == e,
    decreases n,
{
    if n > 0 {
        lemma_order_contains(archetypes, n - 1, e);
        let before = entity_order(archetypes, n - 1);
        let last = archetypes[n - 1].entities@;
        assert((before + last).contains(e) <==> before.contains(e) || last.contains(e)) by {
            if before.contains(e) {
                let i = before.index_of(e);
                assert((before + last)[i] == e);
            }
            if last.contains(e) {
                let i = last.index_of(e);
                assert((before + last)[before.len() + i] == e);
            }
        }
        if last.contains(e) {
            let r = last.index_of(e);
            assert(archetypes[n - 1].entities@[r] == e);
        }
    }
}

proof fn lemma_order_unique<V>(world: World<V>, n: int)
    requires
        world.well_formed(),
        0 <= n <= world.archetypes@.len(),
    ensures
        entity_order(world.archetypes@, n).no_duplicates(),
    decreases n,
{
    if n > 0 {
        lemma_order_unique(world, n - 1);
        let before = entity_order(world.archetypes@, n - 1);
        let last = world.archetypes@[n - 1].entities@;
        let all = before + last;
        assert forall|i: int, j: int| 0 <= i < j < all.len() implies all[i] != all[j] by {
            if j < before.len() {
                assert(before[i] != before[j]);
            } else if i >= before.len() {
                assert(world.row_ok(n - 1, i - before.len()));
                assert(world.row_ok(n - 1, j - before.len()));
            } else {
                let e = all[i];
                assert(before[i] == e);
                lemma_order_contains(world.archetypes@, n - 1, e);
                let (a, r) = choose|a: int, r: int|
                    0 <= a < n - 1 && 0 <= r < world.archetypes@[a].entities@.len()
                        && #[trigger] world.archetypes@[a].entities@[r] == e;
                assert(world.row_ok(a, r));
                assert(world.row_ok(n - 1, j - before.len()));
            }
        }
    }
}

/// The list of entities names every live entity exactly once, and nothing else.
pub proof fn lemma_entity_list<V>(world: World<V>)
    requires
        world.well_formed(),
    ensures
        world.entity_list().no_duplicates(),
        world.entity_list().to_set() == world@.dom(),
{
    let n = world.archetypes@.len() as int;
    lemma_order_unique(world, n);
    assert forall|e: Entity| world.entity_list().to_set().contains(e) <==> #[trigger] world@.dom().contains(e) by {
        lemma_order_contains(world.archetypes@, n, e);
        if world.entity_list().contains(e) {
            let (a, r) = choose|a: int, r: int|
                0 <= a < n && 0 <= r < world.archetypes@[a].entities@.len()
                    && #[trigger] world.archetypes@[a].entities@[r] == e;
            lemma_row_alive(world, a, r);
        }
        if world.alive(e) {
            let i = e.index() as int;
            assert(world.slot_ok(i));
            let slot = world.entity_slots@[i];
            lemma_entity_parts(e, e.index(), e.generation());
            assert(world.archetypes@[slot.archetype.0 as int].entities@[slot.row as int] == e);
        }
    }
    assert(world.entity_list().to_set() =~= world@.dom());
}

/// The entity in a row is alive, and its components are those of the row.
proof fn lemma_row_alive<V>(world: World<V>, a: int, r: int)
    requires
        world.well_formed(),
        0 <= a < world.archetypes@.len(),
        0 <= r < world.archetypes@[a].entities@.len(),
    ensures
        world@.contains_key(world.archetypes@[a].entities@[r]),
        world@[world.archetypes@[a].entities@[r]] == world.archetypes@[a].components(r),
        world.key_of(world.archetypes@[a].entities@[r]) == world.archetypes@[a].key@,
{
    let e = world.archetypes@[a].entities@[r];
    assert(world.row_ok(a, r));
    assert(world.slot_ok(e.index() as int));
    lemma_entity_parts(e, e.index(), world.entity_slots@[e.index() as int].generation);
}

impl Snapshot {
    /// A capture of the whole world.
    pub fn capture_full<V: ReplicatedValue>(world: &World<V>, schema: &ReplicationRegistry, frame: u64) -> (snap:
        Snapshot)
        requires
            world.well_formed(),
            schema.well_formed(),
            indexable(schema@),
        ensures
            snap@ == (SnapshotModel {
                frame,
                entities: captured_entities(world, world.entity_list(), schema@),
                cell_rows: Seq::empty(),
            }),
    {
        let mut entities: Vec<EntitySnapshot> = Vec::new();
        let mut a: usize = 0;
        proof {
            assert(entity_snapshots(entities@) =~= captured_entities(
                world,
                entity_order(world.archetypes@, 0),
                schema@,
            ));
        }
        while a < world.archetypes.len()
            invariant
                a <= world.archetypes@.len(),
                world.well_formed(),
                schema.well_formed(),
                indexable(schema@),
                entity_snapshots(entities@) == captured_entities(
                    world,
                    entity_order(world.archetypes@, a as int),
                    schema@,
                ),
            decreases world.archetypes@.len() - a,
        {
            let ghost before = entity_order(world.archetypes@, a as int);
            let ghost table = world.archetypes@[a as int].entities@;
            let mut row: usize = 0;
            proof {
                assert(before + table.take(0) =~= before);
            }
            while row < world.archetypes[a].entities.len()
                invariant
                    a < world.archetypes@.len(),
                    table == world.archetypes@[a as int].entities@,
                    row <= table.len(),
                    world.well_formed(),
                    schema.well_formed(),
                    indexable(schema@),
                    entity_snapshots(entities@) == captured_entities(
                        world,
                        before + table.take(row as int),
                        schema@,
                    ),
                decreases table.len() - row,
            {
                let ghost taken = entity_snapshots(entities@);
                let entity = world.archetypes[a].entities[row];
                let components = Self::capture_row_components(world, a, row, schema);
                let snap = EntitySnapshot { entity, components };
                let ghost model = snap@;
                entities.push(snap);
                proof {
                    lemma_row_alive(*world, a as int, row as int);
                    assert(entity_snapshots(entities@) =~= taken.push(model));
                    assert(before + table.take(row + 1) =~= (before + table.take(row as int)).push(entity));
                    assert(captured_entities(world, before + table.take(row + 1), schema@)
                        =~= captured_entities(world, before + table.take(row as int), schema@).push(model));
                }
                row = row + 1;
            }
            proof {
                assert(table.take(table.len() as int) =~= table);
            }
            a = a + 1;
        }
        let snap = Snapshot { frame, entities, cell_rows: Vec::new() };
        proof {
            assert(snap@.cell_rows =~= Seq::<CellRowModel>::empty());
        }
        snap
    }

    /// A capture of the entities of a world that are relevant to one client.
    pub fn capture_relevant<V: ReplicatedValue>(
        world: &World<V>,
        schema: &ReplicationRegistry,
        relevance: &RelevanceSet,
        frame: u64,
    ) -> (snap: Snapshot)
        requires
            world.well_formed(),
            schema.well_formed(),
            indexable(schema@),
        ensures
            snap@ == (SnapshotModel {
                frame,
                entities: captured_entities(
                    world,
                    world.entity_list().filter(|e: Entity| relevance@.contains(e)),
                    schema@,
                ),
                cell_rows: Seq::empty(),
            }),
    {
        let ghost keep = |e: Entity| relevance@.contains(e);
        let mut entities: Vec<EntitySnapshot> = Vec::new();
        let mut a: usize = 0;
        proof {
            reveal(Seq::filter);
            assert(entity_snapshots(entities@) =~= captured_entities(
                world,
                entity_order(world.archetypes@, 0).filter(keep),
                schema@,
            ));
        }
        while a < world.archetypes.len()
            invariant
                a <= world.archetypes@.len(),
                world.well_formed(),
                schema.well_formed(),
                indexable(schema@),
                keep == (|e: Entity| relevance@.contains(e)),
                entity_snapshots(entities@) == captured_entities(
                    world,
                    entity_order(world.archetypes@, a as int).filter(keep),
                    schema@,
                ),
            decreases world.archetypes@.len() - a,
        {
            let ghost before = entity_order(world.archetypes@, a as int);
            let ghost table = world.archetypes@[a as int].entities@;
            let mut row: usize = 0;
            proof {
                assert(before + table.take(0) =~= before);
            }
            while row < world.archetypes[a].entities.len()
                invariant
                    a < world.archetypes@.len(),
                    table == world.archetypes@[a as int].entities@,
                    row <= table.len(),
                    world.well_formed(),
                    schema.well_formed(),
                    indexable(schema@),
                    keep == (|e: Entity| relevance@.contains(e)),
                    entity_snapshots(entities@) == captured_entities(
                        world,
                        (before + table.take(row as int)).filter(keep),
                        schema@,
                    ),
                decreases table.len() - row,
            {
                let ghost taken = entity_snapshots(entities@);
                let entity = world.archetypes[a].entities[row];
                let ghost seen = before + table.take(row as int);
                let ghost next = before + table.take(row + 1);
                proof {
                    reveal(Seq::filter);
                    assert(next =~= seen.push(entity));
                    assert(next.drop_last() =~= seen);
                    assert(next.last() == entity);
                }
                if relevance.contains(entity) {
                    let components = Self::capture_row_components(world, a, row, schema);
                    let snap = EntitySnapshot { entity, components };
                    let ghost model = snap@;
                    entities.push(snap);
                    proof {
                        lemma_row_alive(*world, a as int, row as int);
                        assert(entity_snapshots(entities@) =~= taken.push(model));
                        assert(next.filter(keep) == seen.filter(keep).push(entity));
                        assert(captured_entities(world, next.filter(keep), schema@) =~= captured_entities(
                            world,
                            seen.filter(keep),
                            schema@,
                        ).push(model));
                    }
                }
                row = row + 1;
            }
            proof {
                assert(table.take(table.len() as int) =~= table);
            }
            a = a + 1;
        }
        let snap = Snapshot { frame, entities, cell_rows: Vec::new() };
        proof {
            assert(snap@.cell_rows =~= Seq::<CellRowModel>::empty());
        }
        snap
    }

    /// The components of the entity in one row of an archetype.
    fn capture_row_components<V: ReplicatedValue>(
        world: &World<V>,
        a: usize,
        row: usize,
        schema: &ReplicationRegistry,
    ) -> (components: Vec<CapturedComponent>)
        requires
            world.well_formed(),
            a < world.archetypes@.len(),
            row < world.archetypes@[a as int].entities@.len(),
            schema.well_formed(),
            indexable(schema@),
        ensures
            captured(components@) == captured_entity(
                world,
                world.archetypes@[a as int].entities@[row as int],
                schema@,
            ).components,
    {
        let ghost e = world.archetypes@[a as int].entities@[row as int];
        let ghost key = world.key_of(e);
        proof {
            lemma_row_alive(*world, a as int, row as int);
            assert(world.archetype_ok(a as int));
        }
        let mut components: Vec<CapturedComponent> = Vec::new();
        let arch = &world.archetypes[a];
        let mut i: usize = 0;
        while i < arch.key.0.len()
            invariant
                i <= key.len(),
                world.well_formed(),
                schema.well_formed(),
                indexable(schema@),
                *arch == world.archetypes@[a as int],
                arch.well_formed(),
                key == arch.key@,
                row < arch.entities@.len(),
                world@[e] == arch.components(row as int),
                components@.len() == i,
                forall|k: int|
                    0 <= k < i ==> (#[trigger] components@[k]).0 == key[k] && blobs(components@[k].1@)
                        == captured_component(world@[e][key[k]], key[k], schema@),
            decreases key.len() - i,
        {
            let cid = arch.key.0[i];
            let value = &arch.columns[i][row];
            proof {
                lemma_index_of(key, i as int);
                assert(world@[e][cid] == *value);
            }
            let mut field_data: Vec<Vec<u8>> = Vec::new();
            proof {
                assert(blobs(field_data@) =~= Seq::<Seq<u8>>::empty());
            }
            if let Some(s) = schema.schema(cid) {
                field_data = capture_fields(value, cid, &s.fields, Ghost(schema@));
            }
            components.push((cid, field_data));
            i = i + 1;
        }
        proof {
            assert(captured(components@) =~= captured_entity(world, e, schema@).components);
        }
        components
    }
}

/// The bytes of the fields of one component.
fn capture_fields<V: ReplicatedValue>(
    value: &V,
    cid: ComponentId,
    fields: &Vec<FieldDescriptor>,
    Ghost(reg): Ghost<Seq<SchemaModel>>,
) -> (field_data: Vec<Vec<u8>>)
    requires
        indexable(reg),
        schema_of(reg, cid) matches Some(s) && s.fields == fields@,
    ensures
        blobs(field_data@) == captured_fields(*value, cid, fields@),
{
    let mut field_data: Vec<Vec<u8>> = Vec::new();
    let mut j: usize = 0;
    proof {
        assert(blobs(field_data@) =~= Seq::<Seq<u8>>::empty());
        assert(fields@.take(0) =~= Seq::<FieldDescriptor>::empty());
    }
    while j < fields.len()
        invariant
            j <= fields@.len(),
            indexable(reg),
            schema_of(reg, cid) matches Some(s) && s.fields == fields@,
            blobs(field_data@) == captured_fields(*value, cid, fields@.take(j as int)),
        decreases fields@.len() - j,
    {
        let f = fields[j];
        proof {
            let s = schema_of(reg, cid).unwrap();
            let i = crate::replication::schema::type_index(reg, cid);
            assert(reg[i] == s);
            assert(reg[i].fields[j as int] == f);
            assert(fields@.take(j + 1).drop_last() =~= fields@.take(j as int));
            assert(fields@.take(j + 1).last() == f);
        }
        let idx: usize = f.field_index as usize;
        let ghost before = blobs(field_data@);
        if idx >= field_data.len() {
            set_field(&mut field_data, idx, Vec::new());
        }
        proof {
            assert(blobs(field_data@) =~= pad_fields(before, idx as int));
        }
        if f.encoding != ReplicationEncoding::Event && f.accessible {
            if let Ok(bytes) = value.encode_field(cid, f.field_index) {
                let ghost content = bytes@;
                set_field(&mut field_data, idx, bytes);
                proof {
                    assert(blobs(field_data@) =~= put_field(before, idx as int, content));
                }
            }
        }
        j = j + 1;
    }
    proof {
        assert(fields@.take(fields@.len() as int) =~= fields@);
    }
    field_data
}

/// The component types of a captured entity.
pub open spec fn captured_types(components: Seq<(ComponentId, Seq<Seq<u8>>)>) -> Set<ComponentId> {
    components.map_values(|c: (ComponentId, Seq<Seq<u8>>)| c.0).to_set()
}

/// Writes captured components one after another, up to the first error.
pub open spec fn restore_components<V: ReplicatedValue>(
    m: Map<Entity, Map<ComponentId, V>>,
    e: Entity,
    components: Seq<(ComponentId, Seq<Seq<u8>>)>,
    reg: Seq<SchemaModel>,
) -> (Map<Entity, Map<ComponentId, V>>, Result<(), ErrorCode>)
    decreases components.len(),
{
    if components.len() == 0 {
        (m, Ok(()))
    } else {
        let before = restore_components(m, e, components.drop_last(), reg);
        if before.1 is Ok {
            write_component(before.0, e, components.last().0, components.last().1, reg)
        } else {
            before
        }
    }
}

/// Places one captured entity and writes its components.
pub open spec fn restore_entity<V: ReplicatedValue>(
    w: WorldModel<V>,
    snap: EntitySnapshotModel,
    reg: Seq<SchemaModel>,
) -> (WorldModel<V>, Result<(), ErrorCode>) {
    let placed = place(w, snap.entity, captured_types(snap.components), reg);
    if placed.1 {
        let written = restore_components(placed.0.entities, snap.entity, snap.components, reg);
        (WorldModel { entities: written.0, slots: placed.0.slots }, written.1)
    } else {
        (placed.0, Err(ErrorCode::InvalidData))
    }
}

/// A world after captured entities were put back one after another, up to the
/// first failure.
pub open spec fn restore_entities<V: ReplicatedValue>(
    w: WorldModel<V>,
    snaps: Seq<EntitySnapshotModel>,
    reg: Seq<SchemaModel>,
) -> (WorldModel<V>, Result<(), ErrorCode>)
    decreases snaps.len(),
{
    if snaps.len() == 0 {
        (w, Ok(()))
    } else {
        let before = restore_entities(w, snaps.drop_last(), reg);
        if before.1 is Ok {
            restore_entity(before.0, snaps.last(), reg)
        } else {
            before
        }
    }
}

pub(crate) proof fn lemma_restore_keeps_entities<V: ReplicatedValue>(
    m: Map<Entity, Map<ComponentId, V>>,
    e: Entity,
    components: Seq<(ComponentId, Seq<Seq<u8>>)>,
    reg: Seq<SchemaModel>,
)
    ensures
        restore_components(m, e, components, reg).0.dom() == m.dom(),
    decreases components.len(),
{
    if components.len() > 0 {
        lemma_restore_keeps_entities(m, e, components.drop_last(), reg);
        let before = restore_components(m, e, components.drop_last(), reg);
        let last = components.last();
        if let Some(s) = schema_of(reg, last.0) {
            lemma_write_fields_shape(before.0, e, last.0, s.fields, last.1);
        }
    }
}

proof fn lemma_components_stop<V: ReplicatedValue>(
    m: Map<Entity, Map<ComponentId, V>>,
    e: Entity,
    components: Seq<(ComponentId, Seq<Seq<u8>>)>,
    reg: Seq<SchemaModel>,
    k: int,
)
    requires
        0 <= k <= components.len(),
        restore_components(m, e, components.take(k), reg).1 is Err,
    ensures
        restore_components(m, e, components, reg) == restore_components(m, e, components.take(k), reg),
    decreases components.len(),
{
    if k == components.len() {
        assert(components.take(k) =~= components);
    } else {
        assert(components.drop_last().take(k) =~= components.take(k));
        lemma_components_stop(m, e, components.drop_last(), reg, k);
    }
}

proof fn lemma_entities_stop<V: ReplicatedValue>(
    w: WorldModel<V>,
    snaps: Seq<EntitySnapshotModel>,
    reg: Seq<SchemaModel>,
    k: int,
)
    requires
        0 <= k <= snaps.len(),
        restore_entities(w, snaps.take(k), reg).1 is Err,
    ensures
        restore_entities(w, snaps, reg) == restore_entities(w, snaps.take(k), reg),
    decreases snaps.len(),
{
    if k == snaps.len() {
        assert(snaps.take(k) =~= snaps);
    } else {
        assert(snaps.drop_last().take(k) =~= snaps.take(k));
        lemma_entities_stop(w, snaps.drop_last(), reg, k);
    }
}

/// Writes the captured components of one entity.
pub(crate) fn restore_row<V: ReplicatedValue>(
    world: &mut World<V>,
    entity: Entity,
    components: &Vec<CapturedComponent>,
    schema: &ReplicationRegistry,
) -> (out: Result<(), ErrorCode>)
    requires
        old(world).well_formed(),
        schema.well_formed(),
    ensures
        final(world).well_formed(),
        (final(world)@, out) == restore_components(old(world)@, entity, captured(components@), schema@),
        final(world).entity_slots == old(world).entity_slots,
        final(world).free_slots == old(world).free_slots,
        final(world).archetypes@.len() == old(world).archetypes@.len(),
{
    let ghost m = world@;
    let ghost first = *world;
    let ghost all = captured(components@);
    let mut i: usize = 0;
    proof {
        assert(all.take(0) =~= Seq::<(ComponentId, Seq<Seq<u8>>)>::empty());
    }
    while i < components.len()
        invariant
            i <= components@.len(),
            all == captured(components@),
            all.len() == components@.len(),
            world.well_formed(),
            schema.well_formed(),
            (world@, Ok::<(), ErrorCode>(())) == restore_components(m, entity, all.take(i as int), schema@),
            world.entity_slots == first.entity_slots,
            world.free_slots == first.free_slots,
            world.archetypes@.len() == first.archetypes@.len(),
            m == old(world)@,
            first == *old(world),
        decreases components@.len() - i,
    {
        let cid = components[i].0;
        proof {
            assert(all.take(i + 1).drop_last() =~= all.take(i as int));
            assert(all.take(i + 1).last() == (cid, blobs(components@[i as int].1@)));
        }
        let step = world.write_component_fields(entity, cid, &components[i].1, schema);
        proof {
            let next = restore_components(m, entity, all.take(i + 1), schema@);
            assert(world@ == next.0);
            assert(step == next.1);
        }
        match step {
            Ok(done) => {
                assert(done == ());
            },
            Err(e) => {
                proof {
                    lemma_components_stop(m, entity, all, schema@, i + 1);
                }
                return Err(e);
            },
        }
        i = i + 1;
    }
    proof {
        assert(all.take(all.len() as int) =~= all);
    }
    Ok(())
}

/// The component types of a captured entity.
pub(crate) fn component_types(components: &Vec<CapturedComponent>) -> (ids: Vec<ComponentId>)
    ensures
        ids@.to_set() == captured_types(captured(components@)),
{
    let mut ids: Vec<ComponentId> = Vec::new();
    let mut i: usize = 0;
    while i < components.len()
        invariant
            i <= components@.len(),
            ids@.len() == i,
            forall|k: int| 0 <= k < i ==> #[trigger] ids@[k] == components@[k].0,
        decreases components@.len() - i,
    {
        ids.push(components[i].0);
        i = i + 1;
    }
    proof {
        assert(ids@ =~= captured(components@).map_values(|c: (ComponentId, Seq<Seq<u8>>)| c.0));
    }
    ids
}

impl Snapshot {
    /// Puts the captured entities into a world, at their exact handles.
    ///
    /// Whatever entity is live in the slot of a captured one is despawned. A
    /// component type that this peer has not registered itself, a handle that
    /// cannot be placed, and field bytes that a field does not accept are
    /// errors; what was restored up to there stays.
    pub fn restore_to_world<V: ReplicatedValue>(&self, world: &mut World<V>, schema: &ReplicationRegistry) -> (out:
        Result<(), ErrorCode>)
        requires
            old(world).well_formed(),
            schema.well_formed(),
            old(world).archetypes@.len() + self.entities@.len() <= u32::MAX,
        ensures
            final(world).well_formed(),
            (world_model(final(world)), out) == restore_entities(
                world_model(old(world)),
                self@.entities,
                schema@,
            ),
    {
        let ghost w0 = world_model(world);
        let ghost archs = world.archetypes@.len();
        let ghost snaps = self@.entities;
        let mut i: usize = 0;
        proof {
            assert(snaps.take(0) =~= Seq::<EntitySnapshotModel>::empty());
        }
        while i < self.entities.len()
            invariant
                i <= self.entities@.len(),
                snaps == self@.entities,
                snaps.len() == self.entities@.len(),
                world.well_formed(),
                schema.well_formed(),
                (world_model(world), Ok::<(), ErrorCode>(())) == restore_entities(w0, snaps.take(i as int), schema@),
                world.archetypes@.len() <= archs + i,
                archs + self.entities@.len() <= u32::MAX,
                w0 == world_model(old(world)),
            decreases self.entities@.len() - i,
        {
            let snap = &self.entities[i];
            let ghost before = world_model(world);
            proof {
                assert(snaps.take(i + 1).drop_last() =~= snaps.take(i as int));
                assert(snaps.take(i + 1).last() == snap@);
                assert(restore_entities(w0, snaps.take(i + 1), schema@) == restore_entity(
                    before,
                    snap@,
                    schema@,
                ));
            }
            let ids = component_types(&snap.components);
            if !world.place_entity(snap.entity, ids, schema) {
                proof {
                    lemma_entities_stop(w0, snaps, schema@, i + 1);
                }
                return Err(ErrorCode::InvalidData);
            }
            let step = restore_row(world, snap.entity, &snap.components, schema);
            proof {
                let next = restore_entities(w0, snaps.take(i + 1), schema@);
                assert(world_model(world) == next.0);
                assert(step == next.1);
            }
            match step {
                Ok(done) => {
                    assert(done == ());
                },
                Err(e) => {
                    proof {
                        lemma_entities_stop(w0, snaps, schema@, i + 1);
                    }
                    return Err(e);
                },
            }
            i = i + 1;
        }
        proof {
            assert(snaps.take(snaps.len() as int) =~= snaps);
        }
        Ok(())
    }

    /// A second snapshot with the same value.
    pub fn copy(&self) -> (snap: Snapshot)
        ensures
            snap@ == self@,
    {
        let mut entities: Vec<EntitySnapshot> = Vec::new();
        let mut i: usize = 0;
        while i < self.entities.len()
            invariant
                i <= self.entities@.len(),
                entities@.len() == i,
                forall|k: int| 0 <= k < i ==> (#[trigger] entities@[k])@ == self.entities@[k]@,
            decreases self.entities@.len() - i,
        {
            let e = &self.entities[i];
            entities.push(EntitySnapshot { entity: e.entity, components: copy_captured(&e.components) });
            i = i + 1;
        }
        let mut cell_rows: Vec<CellRowSnapshot> = Vec::new();
        let mut j: usize = 0;
        while j < self.cell_rows.len()
            invariant
                j <= self.cell_rows@.len(),
                cell_rows@.len() == j,
                forall|k: int| 0 <= k < j ==> (#[trigger] cell_rows@[k])@ == self.cell_rows@[k]@,
            decreases self.cell_rows@.len() - j,
        {
            let r = &self.cell_rows[j];
            cell_rows.push(
                CellRowSnapshot { cell_index: r.cell_index, components: copy_captured(&r.components) },
            );
            j = j + 1;
        }
        proof {
            assert(entity_snapshots(entities@) =~= entity_snapshots(self.entities@));
            assert(row_snapshots(cell_rows@) =~= row_snapshots(self.cell_rows@));
        }
        Snapshot { frame: self.frame, entities, cell_rows }
    }
}

fn copy_captured(components: &Vec<CapturedComponent>) -> (out: Vec<CapturedComponent>)
    ensures
        captured(out@) == captured(components@),
{
    let mut out: Vec<CapturedComponent> = Vec::new();
    let mut i: usize = 0;
    while i < components.len()
        invariant
            i <= components@.len(),
            out@.len() == i,
            forall|k: int|
                0 <= k < i ==> (#[trigger] out@[k]).0 == components@[k].0 && blobs(out@[k].1@) == blobs(
                    components@[k].1@,
                ),
        decreases components@.len() - i,
    {
        out.push((components[i].0, copy_blobs(&components[i].1)));
        i = i + 1;
    }
    proof {
        assert(captured(out@) =~= captured(components@));
    }
    out
}

/// A value after the fields that have bytes were written, in schema order.
pub open spec fn written_value<V: ReplicatedValue>(
    value: V,
    cid: ComponentId,
    fields: Seq<FieldDescriptor>,
    data: Seq<Seq<u8>>,
) -> Result<V, ErrorCode>
    decreases fields.len(),
{
    if fields.len() == 0 {
        Ok(value)
    } else {
        match written_value(value, cid, fields.drop_last(), data) {
            Ok(v) => if carries(fields.last(), data) {
                v.with_field(cid, fields.last().field_index, data[fields.last().field_index as int])
            } else {
                Ok(v)
            },
            Err(e) => Err(e),
        }
    }
}

/// What writing the captured fields of a component to a fresh row gives.
pub open spec fn recovered<V: ReplicatedValue>(value: V, cid: ComponentId, fields: Seq<FieldDescriptor>) -> Result<
    V,
    ErrorCode,
> {
    written_value(V::default_of(cid), cid, fields, captured_fields(value, cid, fields))
}

/// Whether the captured fields of a component are accepted by a fresh row.
pub open spec fn recoverable<V: ReplicatedValue>(value: V, cid: ComponentId, reg: Seq<SchemaModel>) -> bool {
    schema_of(reg, cid) matches Some(s) && recovered(value, cid, s.fields) is Ok
}

/// A component as its captured fields give it back: the captured fields on top
/// of the value of a fresh row.
pub open spec fn restored_value<V: ReplicatedValue>(value: V, cid: ComponentId, reg: Seq<SchemaModel>) -> V {
    recovered(value, cid, schema_of(reg, cid).unwrap().fields)->Ok_0
}

/// The components of an entity as their captured fields give them back.
pub open spec fn restored_row<V: ReplicatedValue>(row: Map<ComponentId, V>, reg: Seq<SchemaModel>) -> Map<
    ComponentId,
    V,
> {
    Map::new(|c: ComponentId| row.contains_key(c), |c: ComponentId| restored_value(row[c], c, reg))
}

/// All entities as their captured fields give them back.
pub open spec fn restored_rows<V: ReplicatedValue>(
    world: Map<Entity, Map<ComponentId, V>>,
    reg: Seq<SchemaModel>,
) -> Map<Entity, Map<ComponentId, V>> {
    Map::new(|e: Entity| world.contains_key(e), |e: Entity| restored_row(world[e], reg))
}

/// Whether the captured fields of a component determine it: written to a fresh
/// row, they give the value back.
pub open spec fn restorable<V: ReplicatedValue>(value: V, cid: ComponentId, reg: Seq<SchemaModel>) -> bool {
    schema_of(reg, cid) matches Some(s) && recovered(value, cid, s.fields) == Ok::<V, ErrorCode>(value)
}

proof fn lemma_write_fields_value<V: ReplicatedValue>(
    m: Map<Entity, Map<ComponentId, V>>,
    e: Entity,
    cid: ComponentId,
    fields: Seq<FieldDescriptor>,
    data: Seq<Seq<u8>>,
)
    requires
        m.contains_key(e),
        m[e].contains_key(cid),
    ensures
        match written_value(m[e][cid], cid, fields, data) {
            Ok(v) => write_fields(m, e, cid, fields, data) == (
                m.insert(e, m[e].insert(cid, v)),
                Ok::<(), ErrorCode>(()),
            ),
            Err(err) => write_fields(m, e, cid, fields, data).1 == Err::<(), ErrorCode>(err),
        },
    decreases fields.len(),
{
    if fields.len() == 0 {
        assert(m[e].insert(cid, m[e][cid]) =~= m[e]);
        assert(m.insert(e, m[e]) =~= m);
    } else {
        lemma_write_fields_value(m, e, cid, fields.drop_last(), data);
        let f = fields.last();
        match written_value(m[e][cid], cid, fields.drop_last(), data) {
            Ok(v) => {
                let m1 = m.insert(e, m[e].insert(cid, v));
                if carries(f, data) {
                    match v.with_field(cid, f.field_index, data[f.field_index as int]) {
                        Ok(v2) => {
                            assert(m1[e].insert(cid, v2) =~= m[e].insert(cid, v2));
                            assert(m1.insert(e, m1[e].insert(cid, v2)) =~= m.insert(e, m[e].insert(cid, v2)));
                        },
                        Err(_) => {},
                    }
                }
            },
            Err(_) => {},
        }
    }
}

/// Writing back the first `n` captured components of an entity that was placed
/// afresh.
proof fn lemma_restore_components<V: ReplicatedValue>(
    m: Map<Entity, Map<ComponentId, V>>,
    world: World<V>,
    e: Entity,
    reg: Seq<SchemaModel>,
    n: int,
)
    requires
        world.well_formed(),
        world@.contains_key(e),
        forall|c: ComponentId| #[trigger] world@[e].contains_key(c) ==> recoverable(world@[e][c], c, reg),
        m.contains_key(e),
        m[e] == default_components::<V>(world@[e].dom()),
        0 <= n <= world.key_of(e).len(),
    ensures
        ({
            let done = restore_components(m, e, captured_entity(&world, e, reg).components.take(n), reg);
            let row = done.0[e];
            &&& done.1 == Ok::<(), ErrorCode>(())
            &&& done.0 == m.insert(e, row)
            &&& row.dom() == world@[e].dom()
            &&& forall|i: int|
                0 <= i < n ==> row[#[trigger] world.key_of(e)[i]] == restored_value(
                    world@[e][world.key_of(e)[i]],
                    world.key_of(e)[i],
                    reg,
                )
            &&& forall|i: int|
                n <= i < world.key_of(e).len() ==> row[#[trigger] world.key_of(e)[i]] == V::default_of(
                    world.key_of(e)[i],
                )
        }),
    decreases n,
{
    let key = world.key_of(e);
    let all = captured_entity(&world, e, reg).components;
    lemma_key_of(world, e);
    if n == 0 {
        assert(m.insert(e, m[e]) =~= m);
        assert forall|i: int| 0 <= i < key.len() implies m[e][#[trigger] key[i]] == V::default_of(key[i]) by {
            assert(key.to_set().contains(key[i]));
        }
        assert(m[e].dom() =~= world@[e].dom());
    } else {
        lemma_restore_components(m, world, e, reg, n - 1);
        assert(all.take(n).drop_last() =~= all.take(n - 1));
        let before = restore_components(m, e, all.take(n - 1), reg);
        let row = before.0[e];
        let cid = key[n - 1];
        assert(key.to_set().contains(cid));
        assert(world@[e].contains_key(cid));
        assert(row.contains_key(cid));
        let value = world@[e][cid];
        let s = schema_of(reg, cid).unwrap();
        let data = captured_fields(value, cid, s.fields);
        assert(all.take(n).last() == (cid, data));
        lemma_write_fields_value(before.0, e, cid, s.fields, data);
        let done = restore_components(m, e, all.take(n), reg);
        assert(done.0 == before.0.insert(e, row.insert(cid, restored_value(value, cid, reg))));
        assert(done.0 =~= m.insert(e, done.0[e]));
        assert(done.0[e].dom() =~= world@[e].dom());
        assert forall|i: int| n <= i < key.len() implies done.0[e][#[trigger] key[i]] == V::default_of(key[i]) by {
            assert(key[n - 1].0 < key[i].0);
        }
    }
}

/// How many slots there are once the given entities were placed.
pub open spec fn slots_after(slots: nat, es: Seq<Entity>) -> nat
    decreases es.len(),
{
    if es.len() == 0 {
        slots
    } else {
        let before = slots_after(slots, es.drop_last());
        if before <= es.last().index() {
            (es.last().index() + 1) as nat
        } else {
            before
        }
    }
}

/// Each of the entities can be placed once those before it were: no handle is
/// further beyond the slots than one spawn may claim.
pub open spec fn all_placeable(slots: nat, es: Seq<Entity>) -> bool
    decreases es.len(),
{
    es.len() == 0 || (all_placeable(slots, es.drop_last()) && can_place(
        slots_after(slots, es.drop_last()),
        es.last(),
    ))
}

/// Live entities whose slots one spawn may claim can be placed in any order.
pub proof fn lemma_small_world_is_placeable<V>(world: World<V>, slots: nat, es: Seq<Entity>)
    requires
        world.well_formed(),
        world.entity_slots@.len() <= MAX_SLOT_GROWTH_PER_SPAWN,
        forall|i: int| 0 <= i < es.len() ==> world@.contains_key(#[trigger] es[i]),
    ensures
        all_placeable(slots, es),
    decreases es.len(),
{
    if es.len() > 0 {
        assert forall|i: int| 0 <= i < es.drop_last().len() implies world@.contains_key(
            #[trigger] es.drop_last()[i],
        ) by {
            assert(es.drop_last()[i] == es[i]);
        }
        lemma_small_world_is_placeable(world, slots, es.drop_last());
        assert(es[es.len() - 1] == es.last());
        assert(world.slot_ok(es.last().index() as int));
    }
}

/// One of the entities is in this slot.
pub open spec fn takes_slot(es: Seq<Entity>, idx: u32) -> bool {
    exists|i: int| 0 <= i < es.len() && (#[trigger] es[i]).index() == idx
}

/// `m` with the given entities as they are in `world`, in place of whatever was
/// in their slots.
pub open spec fn overlaid<C>(m: Map<Entity, C>, world: Map<Entity, C>, es: Seq<Entity>) -> Map<Entity, C> {
    Map::new(
        |e: Entity| es.contains(e) || (m.contains_key(e) && !takes_slot(es, e.index())),
        |e: Entity| if es.contains(e) {
            world[e]
        } else {
            m[e]
        },
    )
}

proof fn lemma_restore_prefix<V: ReplicatedValue>(
    target: WorldModel<V>,
    world: World<V>,
    es: Seq<Entity>,
    reg: Seq<SchemaModel>,
)
    requires
        world.well_formed(),
        all_placeable(target.slots.len(), es),
        es.no_duplicates(),
        forall|i: int| 0 <= i < es.len() ==> world@.contains_key(#[trigger] es[i]),
        forall|e: Entity, c: ComponentId|
            world@.contains_key(e) && #[trigger] world@[e].contains_key(c) ==> recoverable(world@[e][c], c, reg),
        forall|e: Entity| #[trigger] world@.contains_key(e) ==> all_local(reg, world@[e].dom()),
    ensures
        ({
            let done = restore_entities(target, captured_entities(&world, es, reg), reg);
            &&& done.1 == Ok::<(), ErrorCode>(())
            &&& done.0.entities == overlaid(target.entities, restored_rows(world@, reg), es)
            &&& done.0.slots.len() == slots_after(target.slots.len(), es)
        }),
    decreases es.len(),
{
    let snaps = captured_entities(&world, es, reg);
    if es.len() == 0 {
        assert forall|x: Entity| !takes_slot(es, #[trigger] x.index()) by {}
        assert(overlaid(target.entities, restored_rows(world@, reg), es) =~= target.entities);
    } else {
        let init = es.drop_last();
        let e = es.last();
        assert forall|i: int| 0 <= i < init.len() implies world@.contains_key(#[trigger] init[i]) by {
            assert(init[i] == es[i]);
        }
        lemma_restore_prefix(target, world, init, reg);
        assert(snaps.drop_last() =~= captured_entities(&world, init, reg));
        let before = restore_entities(target, snaps.drop_last(), reg);
        let snap = captured_entity(&world, e, reg);
        assert(es[es.len() - 1] == e);
        assert(world@.contains_key(e));
        assert(snaps.last() == snap);
        lemma_key_of(world, e);
        assert(snap.components.map_values(|c: (ComponentId, Seq<Seq<u8>>)| c.0) =~= world.key_of(e));
        assert(captured_types(snap.components) == world@[e].dom());
        assert(all_local(reg, world@[e].dom()));
        let placed = place(before.0, e, world@[e].dom(), reg);
        assert(placed.1);
        let n = world.key_of(e).len() as int;
        let m = placed.0.entities;
        assert(m[e] == default_components::<V>(world@[e].dom()));
        assert forall|c: ComponentId| #[trigger] world@[e].contains_key(c) implies recoverable(
            world@[e][c],
            c,
            reg,
        ) by {}
        lemma_restore_components(m, world, e, reg, n);
        assert(snap.components.take(n) =~= snap.components);
        let done = restore_entities(target, snaps, reg);
        let row = done.0.entities[e];
        assert forall|c: ComponentId| #[trigger] row.contains_key(c) implies row[c] == restored_value(
            world@[e][c],
            c,
            reg,
        ) by {
            assert(world.key_of(e).to_set().contains(c));
            let i = world.key_of(e).index_of(c);
            assert(world.key_of(e)[i] == c);
        }
        assert(row =~= restored_row(world@[e], reg));
        let want = overlaid(target.entities, restored_rows(world@, reg), es);
        assert forall|x: Entity| es.contains(x) <==> x == e || #[trigger] init.contains(x) by {
            if es.contains(x) && x != e {
                let i = es.index_of(x);
                assert(init[i] == x);
            }
            if init.contains(x) {
                let i = init.index_of(x);
                assert(es[i] == x);
            }
        }
        assert forall|idx: u32| #[trigger] takes_slot(es, idx) <==> idx == e.index() || takes_slot(init, idx) by {
            if takes_slot(es, idx) {
                let i = choose|i: int| 0 <= i < es.len() && (#[trigger] es[i]).index() == idx;
                if i < init.len() {
                    assert(init[i].index() == idx);
                }
            }
            if takes_slot(init, idx) {
                let i = choose|i: int| 0 <= i < init.len() && (#[trigger] init[i]).index() == idx;
                assert(es[i].index() == idx);
            }
            assert(es[es.len() - 1].index() == e.index());
        }
        assert forall|x: Entity| init.contains(x) && #[trigger] x.index() == e.index() implies false by {
            let i = init.index_of(x);
            assert(es[i] == x);
            assert(world@.contains_key(x));
            lemma_entity_parts(x, e.index(), e.generation());
            lemma_entity_parts(e, e.index(), e.generation());
            assert(x == e);
        }
        assert forall|x: Entity| #[trigger] want.contains_key(x) <==> done.0.entities.contains_key(x) by {
            let _ = init.contains(x);
            let _ = takes_slot(es, x.index());
        }
        assert forall|x: Entity| #[trigger] want.contains_key(x) implies want[x] == done.0.entities[x] by {
            let _ = init.contains(x);
        }
        assert(done.0.entities =~= want);
    }
}

/// A capture of a whole world, restored into any world, gives every entity back
/// at its handle, with all its components and their values. It takes the place
/// of whatever was in the slots of the captured entities, and leaves the other
/// slots as they are.
///
/// This holds where the receiving peer has registered every component type, the
/// captured fields determine the values, and no handle is further beyond the
/// slots than one spawn may claim.
pub proof fn lemma_capture_restores<V: ReplicatedValue>(
    target: WorldModel<V>,
    world: World<V>,
    reg: Seq<SchemaModel>,
)
    requires
        world.well_formed(),
        all_placeable(target.slots.len(), world.entity_list()),
        forall|e: Entity, c: ComponentId|
            world@.contains_key(e) && #[trigger] world@[e].contains_key(c) ==> restorable(world@[e][c], c, reg),
        forall|e: Entity| #[trigger] world@.contains_key(e) ==> all_local(reg, world@[e].dom()),
    ensures
        ({
            let es = world.entity_list();
            let done = restore_entities(target, captured_entities(&world, es, reg), reg);
            &&& done.1 == Ok::<(), ErrorCode>(())
            &&& done.0.entities == overlaid(target.entities, world@, es)
            &&& forall|e: Entity| #[trigger]
                world@.contains_key(e) ==> done.0.entities.contains_key(e) && done.0.entities[e] == world@[e]
            &&& target.entities.dom() == Set::<Entity>::empty() ==> done.0.entities == world@
        }),
{
    let es = world.entity_list();
    lemma_entity_list(world);
    assert forall|i: int| 0 <= i < es.len() implies world@.contains_key(#[trigger] es[i]) by {
        assert(es.to_set().contains(es[i]));
    }
    lemma_restore_prefix(target, world, es, reg);
    assert forall|e: Entity| #[trigger] world@.contains_key(e) implies restored_row(world@[e], reg) == world@[e] by {
        assert(restored_row(world@[e], reg) =~= world@[e]);
    }
    assert(restored_rows(world@, reg) =~= world@);
    assert forall|e: Entity| #[trigger] world@.contains_key(e) <==> es.contains(e) by {
        assert(es.to_set().contains(e) <==> es.contains(e));
    }
    let done = restore_entities(target, captured_entities(&world, es, reg), reg);
    assert forall|e: Entity| #[trigger] world@.contains_key(e) implies done.0.entities.contains_key(e)
        && done.0.entities[e] == world@[e] by {
        assert(es.contains(e));
    }
    if target.entities.dom() == Set::<Entity>::empty() {
        assert forall|e: Entity| #[trigger] done.0.entities.contains_key(e) <==> world@.contains_key(e) by {
            assert(!target.entities.dom().contains(e));
        }
        assert(done.0.entities =~= world@);
    }
}

/// A component that is one word, with one field that is not an event, comes
/// back from its captured field.
pub proof fn lemma_word_is_restorable(value: u32, cid: ComponentId, reg: Seq<SchemaModel>, f: FieldDescriptor)
    requires
        schema_of(reg, cid) matches Some(s) && s.fields == seq![f],
        f.encoding != ReplicationEncoding::Event,
        f.accessible,
    ensures
        restorable(value, cid, reg),
{
    let fields = seq![f];
    assert(fields.drop_last() =~= Seq::<FieldDescriptor>::empty());
    let data = captured_fields(value, cid, fields);
    assert(captured_fields(value, cid, fields.drop_last()) =~= Seq::<Seq<u8>>::empty());
    assert(data[f.field_index as int] == u32_wire(value));
    lemma_u32_bytes();
    assert(carries(f, data));
    assert(written_value(u32::default_of(cid), cid, fields.drop_last(), data) == Ok::<u32, ErrorCode>(0));
}

proof fn lemma_event_slot_empty<V: ReplicatedValue>(value: V, cid: ComponentId, fields: Seq<FieldDescriptor>, at: u32)
    requires
        forall|i: int|
            0 <= i < fields.len() && (#[trigger] fields[i]).field_index == at ==> fields[i].encoding
                == ReplicationEncoding::Event,
    ensures
        at < captured_fields(value, cid, fields).len() ==> captured_fields(value, cid, fields)[at as int]
            == Seq::<u8>::empty(),
    decreases fields.len(),
{
    if fields.len() > 0 {
        assert forall|i: int| 0 <= i < fields.drop_last().len() && (#[trigger] fields.drop_last()[i]).field_index
            == at implies fields.drop_last()[i].encoding == ReplicationEncoding::Event by {
            assert(fields[i] == fields.drop_last()[i]);
        }
        lemma_event_slot_empty(value, cid, fields.drop_last(), at);
        assert(fields[fields.len() - 1] == fields.last());
    }
}

/// Events are not state: a capture has no bytes for an event field.
pub proof fn lemma_events_are_not_captured<V: ReplicatedValue>(
    value: V,
    cid: ComponentId,
    reg: Seq<SchemaModel>,
    at: u32,
)
    requires
        schema_of(reg, cid) matches Some(s) ==> forall|i: int|
            0 <= i < s.fields.len() && (#[trigger] s.fields[i]).field_index == at ==> s.fields[i].encoding
                == ReplicationEncoding::Event,
    ensures
        at < captured_component(value, cid, reg).len() ==> captured_component(value, cid, reg)[at as int]
            == Seq::<u8>::empty(),
{
    if let Some(s) = schema_of(reg, cid) {
        lemma_event_slot_empty(value, cid, s.fields, at);
    }
}

/// The field of a captured component that is restored: it is not an event and
/// this peer can read and write it.
pub open spec fn is_replicated(f: FieldDescriptor) -> bool {
    f.encoding != ReplicationEncoding::Event && f.accessible
}

/// The replicated fields of a component type behave as fields: the bytes of a
/// field of a value are accepted by every other value, read back as they were
/// written, and leave the bytes of every other replicated field alone.
pub open spec fn fields_apart<V: ReplicatedValue>(cid: ComponentId, fields: Seq<FieldDescriptor>) -> bool {
    forall|i: int, source: V, value: V|
        0 <= i < fields.len() && is_replicated(fields[i]) && source.field_bytes(cid, fields[i].field_index) is Some
            ==> #[trigger] field_written(cid, fields, i, source, value)
}

/// The bytes that the `i`th field has in `source` can be written to that field
/// of `value`, read back as they are, and leave the other fields alone.
pub open spec fn field_written<V: ReplicatedValue>(
    cid: ComponentId,
    fields: Seq<FieldDescriptor>,
    i: int,
    source: V,
    value: V,
) -> bool {
    let at = fields[i].field_index;
    let bytes = source.field_bytes(cid, at)->0;
    match value.with_field(cid, at, bytes) {
        Ok(after) => {
            &&& after.field_bytes(cid, at) == Some(bytes)
            &&& forall|j: int|
                0 <= j < fields.len() && is_replicated(#[trigger] fields[j]) && fields[j].field_index != at
                    ==> after.field_bytes(cid, fields[j].field_index) == value.field_bytes(
                    cid,
                    fields[j].field_index,
                )
        },
        Err(_) => false,
    }
}

/// Every replicated field of a value can be read and has at least one byte.
pub open spec fn fields_have_bytes<V: ReplicatedValue>(value: V, cid: ComponentId, fields: Seq<FieldDescriptor>) -> bool {
    forall|i: int|
        0 <= i < fields.len() && is_replicated(#[trigger] fields[i]) ==> (value.field_bytes(
            cid,
            fields[i].field_index,
        ) matches Some(b) && b.len() > 0)
}

/// The field of a component that is one word behaves as a field.
pub proof fn lemma_word_fields_apart(cid: ComponentId, f: FieldDescriptor)
    ensures
        fields_apart::<u32>(cid, seq![f]),
{
    lemma_u32_bytes();
    assert forall|i: int, source: u32, value: u32|
        0 <= i < seq![f].len() && is_replicated(seq![f][i]) && source.field_bytes(cid, seq![f][i].field_index)
            is Some implies #[trigger] field_written(cid, seq![f], i, source, value) by {}
}

/// The fields of a component of two words behave as fields.
pub proof fn lemma_pair_fields_apart(cid: ComponentId, fields: Seq<FieldDescriptor>)
    ensures
        fields_apart::<(u32, u32)>(cid, fields),
{
    lemma_u32_bytes();
    assert forall|i: int, source: (u32, u32), value: (u32, u32)|
        0 <= i < fields.len() && is_replicated(fields[i]) && source.field_bytes(cid, fields[i].field_index)
            is Some implies #[trigger] field_written(cid, fields, i, source, value) by {}
}

/// A capture holds, at the index of every replicated field that can be written, the
/// bytes that the field has.
pub proof fn lemma_captured_bytes<V: ReplicatedValue>(value: V, cid: ComponentId, fields: Seq<FieldDescriptor>, i: int)
    requires
        0 <= i < fields.len(),
        fields[i].encoding != ReplicationEncoding::Event,
        fields[i].accessible,
    ensures
        fields[i].field_index < captured_fields(value, cid, fields).len(),
        value.field_bytes(cid, fields[i].field_index) matches Some(bytes) ==> captured_fields(value, cid, fields)[fields[i].field_index as int]
            == bytes,
    decreases fields.len(),
{
    if i < fields.len() - 1 {
        assert(fields.drop_last()[i] == fields[i]);
        lemma_captured_bytes(value, cid, fields.drop_last(), i);
    }
}

/// A capture of an entity has each of its components once, in ascending order of their
/// types, with the captured bytes of the value that it has.
pub proof fn lemma_captured_components<V: ReplicatedValue>(world: World<V>, e: Entity, reg: Seq<SchemaModel>, c: ComponentId)
    requires
        world.well_formed(),
        world@.contains_key(e),
    ensures
        captured_entity(&world, e, reg).entity == e,
        world@[e].contains_key(c) <==> exists|i: int|
            0 <= i < captured_entity(&world, e, reg).components.len() && (#[trigger] captured_entity(
                &world,
                e,
                reg,
            ).components[i]).0 == c,
        forall|i: int|
            0 <= i < captured_entity(&world, e, reg).components.len() ==> (#[trigger] captured_entity(
                &world,
                e,
                reg,
            ).components[i]).1 == (match schema_of(reg, captured_entity(&world, e, reg).components[i].0) {
                Some(s) => captured_fields(
                    world@[e][captured_entity(&world, e, reg).components[i].0],
                    captured_entity(&world, e, reg).components[i].0,
                    s.fields,
                ),
                None => Seq::empty(),
            }),
        forall|i: int, j: int|
            0 <= i < j < captured_entity(&world, e, reg).components.len() ==> (#[trigger] captured_entity(
                &world,
                e,
                reg,
            ).components[i]).0.0 < (#[trigger] captured_entity(&world, e, reg).components[j]).0.0,
{
    lemma_key_of(world, e);
    let key = world.key_of(e);
    let list = captured_entity(&world, e, reg).components;
    assert(world@[e].contains_key(c) <==> key.to_set().contains(c));
    if key.contains(c) {
        let i = key.index_of(c);
        assert(list[i].0 == c);
    }
    if exists|i: int| 0 <= i < list.len() && (#[trigger] list[i]).0 == c {
        let i = choose|i: int| 0 <= i < list.len() && (#[trigger] list[i]).0 == c;
        assert(key[i] == c);
    }
    assert forall|i: int, j: int| 0 <= i < j < list.len() implies (#[trigger] list[i]).0.0 < (
    #[trigger] list[j]).0.0 by {
        assert(key[i].0 < key[j].0);
    }
}

proof fn lemma_captured_field<V: ReplicatedValue>(value: V, cid: ComponentId, fields: Seq<FieldDescriptor>, i: int)
    requires
        0 <= i < fields.len(),
        is_replicated(fields[i]),
        value.field_bytes(cid, fields[i].field_index) is Some,
    ensures
        ({
            let data = captured_fields(value, cid, fields);
            let at = fields[i].field_index as int;
            at < data.len() && data[at] == value.field_bytes(cid, fields[i].field_index)->0
        }),
    decreases fields.len(),
{
    if i < fields.len() - 1 {
        assert(fields.drop_last()[i] == fields[i]);
        lemma_captured_field(value, cid, fields.drop_last(), i);
    }
}

proof fn lemma_recovered_fields<V: ReplicatedValue>(
    value: V,
    cid: ComponentId,
    fields: Seq<FieldDescriptor>,
    n: int,
)
    requires
        0 <= n <= fields.len(),
        fields_apart::<V>(cid, fields),
        fields_have_bytes(value, cid, fields),
    ensures
        written_value(V::default_of(cid), cid, fields.take(n), captured_fields(value, cid, fields)) matches Ok(v)
            && forall|i: int|
            0 <= i < n && is_replicated(#[trigger] fields[i]) ==> v.field_bytes(cid, fields[i].field_index)
                == value.field_bytes(cid, fields[i].field_index),
    decreases n,
{
    let data = captured_fields(value, cid, fields);
    if n > 0 {
        lemma_recovered_fields(value, cid, fields, n - 1);
        assert(fields.take(n).drop_last() =~= fields.take(n - 1));
        let f = fields[n - 1];
        assert(fields.take(n).last() == f);
        let before = written_value(V::default_of(cid), cid, fields.take(n - 1), data)->Ok_0;
        if is_replicated(f) {
            lemma_captured_field(value, cid, fields, n - 1);
            assert(value.field_bytes(cid, fields[n - 1].field_index) is Some);
            assert(carries(f, data));
            assert(field_written(cid, fields, n - 1, value, before));
        }
    }
}

/// A capture of a whole world, restored into any world, gives every entity back
/// at its handle with all its components, and every replicated field of them
/// has the bytes that it had. What is not replicated is as in a fresh row.
///
/// This holds where the receiving peer has registered every component type, the
/// replicated fields behave as fields and have bytes, and no handle is further
/// beyond the slots than one spawn may claim.
pub proof fn lemma_capture_restores_fields<V: ReplicatedValue>(
    target: WorldModel<V>,
    world: World<V>,
    reg: Seq<SchemaModel>,
)
    requires
        world.well_formed(),
        all_placeable(target.slots.len(), world.entity_list()),
        forall|e: Entity, c: ComponentId|
            world@.contains_key(e) && #[trigger] world@[e].contains_key(c) ==> (schema_of(reg, c) matches Some(s)
                && s.local && fields_apart::<V>(c, s.fields) && fields_have_bytes(world@[e][c], c, s.fields)),
    ensures
        ({
            let es = world.entity_list();
            let done = restore_entities(target, captured_entities(&world, es, reg), reg);
            &&& done.1 == Ok::<(), ErrorCode>(())
            &&& forall|e: Entity| #[trigger]
                world@.contains_key(e) ==> done.0.entities.contains_key(e) && done.0.entities[e].dom() == world@[e].dom()
            &&& forall|e: Entity, c: ComponentId, i: int|
                #![trigger world@[e].contains_key(c), schema_of(reg, c).unwrap().fields[i]]
                {
                    let fields = schema_of(reg, c).unwrap().fields;
                    world@.contains_key(e) && world@[e].contains_key(c) && 0 <= i < fields.len() && is_replicated(
                        fields[i],
                    ) ==> done.0.entities[e][c].field_bytes(c, fields[i].field_index) == world@[e][c].field_bytes(
                        c,
                        fields[i].field_index,
                    )
                }
        }),
{
    let es = world.entity_list();
    lemma_entity_list(world);
    assert forall|i: int| 0 <= i < es.len() implies world@.contains_key(#[trigger] es[i]) by {
        assert(es.to_set().contains(es[i]));
    }
    assert forall|e: Entity, c: ComponentId|
        world@.contains_key(e) && #[trigger] world@[e].contains_key(c) implies recoverable(world@[e][c], c, reg) by {
        let fields = schema_of(reg, c).unwrap().fields;
        lemma_recovered_fields(world@[e][c], c, fields, fields.len() as int);
        assert(fields.take(fields.len() as int) =~= fields);
    }
    assert forall|e: Entity| #[trigger] world@.contains_key(e) implies all_local(reg, world@[e].dom()) by {
        assert forall|c: ComponentId| #[trigger] world@[e].dom().contains(c) implies (schema_of(reg, c) matches Some(
            s,
        ) && s.local) by {
            assert(world@[e].contains_key(c));
        }
    }
    lemma_restore_prefix(target, world, es, reg);
    let done = restore_entities(target, captured_entities(&world, es, reg), reg);
    assert forall|e: Entity| #[trigger] world@.contains_key(e) implies done.0.entities.contains_key(e)
        && done.0.entities[e] == restored_row(world@[e], reg) by {
        assert(es.to_set().contains(e));
        assert(es.contains(e));
    }
    assert forall|e: Entity| #[trigger] world@.contains_key(e) implies done.0.entities[e].dom() == world@[e].dom() by {
        assert(done.0.entities[e].dom() =~= world@[e].dom());
    }
    assert forall|e: Entity, c: ComponentId, i: int|
        #![trigger world@[e].contains_key(c), schema_of(reg, c).unwrap().fields[i]]
        {
            let fields = schema_of(reg, c).unwrap().fields;
            world@.contains_key(e) && world@[e].contains_key(c) && 0 <= i < fields.len() && is_replicated(fields[i])
        } implies done.0.entities[e][c].field_bytes(c, schema_of(reg, c).unwrap().fields[i].field_index)
        == world@[e][c].field_bytes(c, schema_of(reg, c).unwrap().fields[i].field_index) by {
        let fields = schema_of(reg, c).unwrap().fields;
        lemma_recovered_fields(world@[e][c], c, fields, fields.len() as int);
        assert(fields.take(fields.len() as int) =~= fields);
        assert(done.0.entities[e] == restored_row(world@[e], reg));
    }
}

/// One of the captured entities is in slot `idx`.
pub open spec fn restores_slot(snaps: Seq<EntitySnapshotModel>, idx: u32) -> bool {
    exists|i: int| 0 <= i < snaps.len() && (#[trigger] snaps[i]).entity.index() == idx
}

/// After captured entities were put back, all of them or not, every other slot
/// has the generation that it had, so a handle there that was stale stays stale.
/// Where all were put back, the slot of each has the generation of its handle,
/// unless a later one takes the slot. A sound world stays sound.
pub proof fn lemma_restored_slots<V: ReplicatedValue>(
    w: WorldModel<V>,
    snaps: Seq<EntitySnapshotModel>,
    reg: Seq<SchemaModel>,
)
    ensures
        ({
            let after = restore_entities(w, snaps, reg);
            &&& forall|i: int|
                0 <= i <= u32::MAX && !restores_slot(snaps, i as u32) ==> #[trigger] after.0.slots.generation(i)
                    == w.slots.generation(i)
            &&& after.1 is Ok ==> forall|k: int|
                0 <= k < snaps.len() && !restores_slot(
                    snaps.skip(k + 1),
                    (#[trigger] snaps[k]).entity.index(),
                ) ==> after.0.slots.generation(snaps[k].entity.index() as int) == snaps[k].entity.generation()
            &&& w.sound() ==> after.0.sound()
        }),
    decreases snaps.len(),
{
    if snaps.len() > 0 {
        let init = snaps.drop_last();
        let last = snaps.last();
        let n = snaps.len() - 1;
        lemma_restored_slots(w, init, reg);
        let before = restore_entities(w, init, reg);
        let after = restore_entities(w, snaps, reg);
        lemma_place_slots(before.0, last.entity, captured_types(last.components), reg);
        let placed = place(before.0, last.entity, captured_types(last.components), reg).0;
        lemma_restore_keeps_entities(placed.entities, last.entity, last.components, reg);
        assert(snaps[n] == last);
        assert forall|i: int| 0 <= i <= u32::MAX && !restores_slot(snaps, i as u32) implies #[trigger] after.0.slots.generation(
            i,
        ) == w.slots.generation(i) by {
            assert(snaps[n].entity.index() != i as u32);
            if restores_slot(init, i as u32) {
                let j = choose|j: int| 0 <= j < init.len() && (#[trigger] init[j]).entity.index() == i as u32;
                assert(snaps[j].entity.index() == i as u32);
            }
            assert(before.0.slots.generation(i) == w.slots.generation(i));
            assert(placed.slots.generation(i) == before.0.slots.generation(i));
        }
        if after.1 is Ok {
            assert forall|k: int| 0 <= k < snaps.len() && !restores_slot(
                snaps.skip(k + 1),
                (#[trigger] snaps[k]).entity.index(),
            ) implies after.0.slots.generation(snaps[k].entity.index() as int) == snaps[k].entity.generation() by {
                if k < n {
                    let idx = snaps[k].entity.index();
                    assert(snaps.skip(k + 1)[n - k - 1] == last);
                    assert(last.entity.index() != idx);
                    assert(init[k] == snaps[k]);
                    if restores_slot(init.skip(k + 1), idx) {
                        let j = choose|j: int|
                            0 <= j < init.skip(k + 1).len() && (#[trigger] init.skip(k + 1)[j]).entity.index() == idx;
                        assert(snaps.skip(k + 1)[j].entity.index() == idx);
                    }
                    assert(before.0.slots.generation(idx as int) == snaps[k].entity.generation());
                    assert(placed.slots.generation(idx as int) == before.0.slots.generation(idx as int));
                }
            }
        }
        if w.sound() && before.1 is Ok {
            assert forall|e: Entity| #[trigger] after.0.entities.contains_key(e) implies placed.entities.contains_key(
                e,
            ) by {
                assert(after.0.entities.dom().contains(e));
            }
        }
    }
}

/// A handle that was stale before captured entities were put back is stale
/// afterwards, unless one of them takes the slot.
pub proof fn lemma_stale_after_restore<V: ReplicatedValue>(
    before: World<V>,
    after: World<V>,
    snaps: Seq<EntitySnapshotModel>,
    reg: Seq<SchemaModel>,
    e: Entity,
)
    requires
        world_model(&after) == restore_entities(world_model(&before), snaps, reg).0,
        before.expired(e),
        !restores_slot(snaps, e.index()),
    ensures
        after.expired(e),
        !after@.contains_key(e),
{
    lemma_restored_slots(world_model(&before), snaps, reg);
    let done = restore_entities(world_model(&before), snaps, reg).0;
    assert(done.slots.generation(e.index() as int) == before.slots().generation(e.index() as int));
    assert(after.slots().generation(e.index() as int) == after.slot_generation(e.index() as int));
    assert(before.slots().generation(e.index() as int) == before.slot_generation(e.index() as int));
    lemma_expired_stays_dead(before, after, e);
}

/// Captured entities, one of which has a component type that this peer has not
/// registered itself, are not all restored: the restore ends at that entity as
/// invalid data, unless one before it ends it.
pub proof fn lemma_unregistered_component_is_refused<V: ReplicatedValue>(
    target: WorldModel<V>,
    snaps: Seq<EntitySnapshotModel>,
    reg: Seq<SchemaModel>,
    k: int,
)
    requires
        0 <= k < snaps.len(),
        !all_local(reg, captured_types(snaps[k].components)),
    ensures
        restore_entities(target, snaps, reg).1 is Err,
        restore_entities(target, snaps.take(k), reg).1 is Ok ==> restore_entities(target, snaps, reg).1 == Err::<
            (),
            ErrorCode,
        >(ErrorCode::InvalidData),
{
    if restore_entities(target, snaps.take(k), reg).1 is Ok {
        assert(snaps.take(k + 1).drop_last() =~= snaps.take(k));
        assert(snaps.take(k + 1).last() == snaps[k]);
        lemma_entities_stop(target, snaps, reg, k + 1);
    } else {
        lemma_entities_stop(target, snaps, reg, k);
    }
}

proof fn lemma_filter_captured<V: ReplicatedValue>(
    world: World<V>,
    es: Seq<Entity>,
    reg: Seq<SchemaModel>,
    relevant: Seq<Entity>,
)
    ensures
        captured_entities(&world, es.filter(|e: Entity| relevant.contains(e)), reg) == captured_entities(
            &world,
            es,
            reg,
        ).filter(|s: EntitySnapshotModel| relevant.contains(s.entity)),
    decreases es.len(),
{
    reveal(Seq::filter);
    let keep = |e: Entity| relevant.contains(e);
    let kept = |s: EntitySnapshotModel| relevant.contains(s.entity);
    let all = captured_entities(&world, es, reg);
    if es.len() > 0 {
        lemma_filter_captured(world, es.drop_last(), reg, relevant);
        assert(all.drop_last() =~= captured_entities(&world, es.drop_last(), reg));
        assert(all.last() == captured_entity(&world, es.last(), reg));
        let part = es.drop_last().filter(keep);
        if keep(es.last()) {
            assert(es.filter(keep) == part.push(es.last()));
            assert(captured_entities(&world, part.push(es.last()), reg) =~= captured_entities(&world, part, reg).push(
                all.last(),
            ));
        }
    } else {
        assert(captured_entities(&world, es.filter(keep), reg) =~= all.filter(kept));
    }
}

/// A capture of the relevant entities is the capture of the whole world,
/// restricted to them and in the same order, and has no rows of cells. An empty
/// relevance set captures nothing.
pub proof fn lemma_relevant_capture_is_restricted<V: ReplicatedValue>(
    world: World<V>,
    reg: Seq<SchemaModel>,
    relevant: Seq<Entity>,
    frame: u64,
    full: SnapshotModel,
    part: SnapshotModel,
)
    requires
        full == (SnapshotModel {
            frame,
            entities: captured_entities(&world, world.entity_list(), reg),
            cell_rows: Seq::empty(),
        }),
        part == (SnapshotModel {
            frame,
            entities: captured_entities(
                &world,
                world.entity_list().filter(|e: Entity| relevant.contains(e)),
                reg,
            ),
            cell_rows: Seq::empty(),
        }),
    ensures
        part.frame == full.frame,
        part.entities == full.entities.filter(|s: EntitySnapshotModel| relevant.contains(s.entity)),
        part.cell_rows.len() == 0,
        relevant.len() == 0 ==> part.entities.len() == 0,
{
    lemma_filter_captured(world, world.entity_list(), reg, relevant);
    if relevant.len() == 0 {
        let keep = |e: Entity| relevant.contains(e);
        world.entity_list().lemma_all_neg_filter_empty(keep);
    }
}

} // verus!
