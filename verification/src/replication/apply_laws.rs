//! What applying a delta does to the values of a world, said of the bytes in it.

use vstd::prelude::*;
use crate::component::ComponentId;
use crate::entity::Entity;
use crate::replication::apply::{apply_changes, apply_despawns, apply_spawns, claims_slot, delta_applied, distinct_slots, lemma_changes, lemma_despawn_keeps_sound, lemma_despawns, lemma_spawns, lemma_write_fields_shape, write_fields, WorldModel};
use crate::replication::encoding::parse_archetype_key;
use crate::replication::schema::{schema_of, FieldDescriptor, SchemaModel};
use crate::replication::snapshot::{captured_types, restore_components, restore_entities, restore_entity, EntitySnapshotModel};
use crate::replication::types::{ComponentDeltaModel, DeltaModel, ErrorCode, ReplicationEncoding};
use crate::replication::value::ReplicatedValue;

verus! {

/// The component deltas of one component of one entity, in order.
pub open spec fn deltas_of(changes: Seq<ComponentDeltaModel>, e: Entity, cid: ComponentId) -> Seq<
    ComponentDeltaModel,
> {
    changes.filter(|cd: ComponentDeltaModel| cd.entity == e && cd.component_type == cid)
}

/// A value after the bytes of one delta were decoded into its fields, in schema
/// order: all but those of events, of fields without access here, and of fields
/// without bytes. The first refusal stays.
pub open spec fn with_data<V: ReplicatedValue>(
    start: Result<V, ErrorCode>,
    cid: ComponentId,
    fields: Seq<FieldDescriptor>,
    data: Seq<Seq<u8>>,
) -> Result<V, ErrorCode> {
    fields.fold_left(
        start,
        |so_far: Result<V, ErrorCode>, f: FieldDescriptor|
            match so_far {
                Ok(v) => if f.encoding == ReplicationEncoding::Event || !f.accessible || f.field_index >= data.len()
                    || data[f.field_index as int].len() == 0 {
                    Ok(v)
                } else {
                    v.with_field(cid, f.field_index, data[f.field_index as int])
                },
                Err(err) => Err(err),
            },
    )
}

/// A value after the bytes of several deltas were decoded into it, one delta after
/// another.
pub open spec fn with_deltas<V: ReplicatedValue>(
    v: V,
    cid: ComponentId,
    fields: Seq<FieldDescriptor>,
    deltas: Seq<ComponentDeltaModel>,
) -> Result<V, ErrorCode> {
    deltas.fold_left(
        Ok(v),
        |so_far: Result<V, ErrorCode>, cd: ComponentDeltaModel| with_data(so_far, cid, fields, cd.field_data),
    )
}

proof fn lemma_refusal_stays<V: ReplicatedValue>(
    err: ErrorCode,
    cid: ComponentId,
    fields: Seq<FieldDescriptor>,
    data: Seq<Seq<u8>>,
)
    ensures
        with_data::<V>(Err(err), cid, fields, data) == Err::<V, ErrorCode>(err),
    decreases fields.len(),
{
    if fields.len() > 0 {
        lemma_refusal_stays::<V>(err, cid, fields.drop_last(), data);
    }
}

proof fn lemma_fields_decode<V: ReplicatedValue>(
    m: Map<Entity, Map<ComponentId, V>>,
    e: Entity,
    cid: ComponentId,
    fields: Seq<FieldDescriptor>,
    data: Seq<Seq<u8>>,
)
    ensures
        m.contains_key(e) && m[e].contains_key(cid) ==> match with_data(Ok(m[e][cid]), cid, fields, data) {
            Ok(v) => {
                &&& write_fields(m, e, cid, fields, data).1 is Ok
                &&& write_fields(m, e, cid, fields, data).0.contains_key(e)
                &&& write_fields(m, e, cid, fields, data).0[e].contains_key(cid)
                &&& write_fields(m, e, cid, fields, data).0[e][cid] == v
            },
            Err(err) => write_fields(m, e, cid, fields, data).1 == Err::<(), ErrorCode>(err),
        },
        !(m.contains_key(e) && m[e].contains_key(cid)) ==> write_fields(m, e, cid, fields, data) == (
            m,
            Ok::<(), ErrorCode>(()),
        ),
    decreases fields.len(),
{
    if fields.len() > 0 {
        lemma_fields_decode(m, e, cid, fields.drop_last(), data);
    }
}

proof fn lemma_deltas_of_step(changes: Seq<ComponentDeltaModel>, e: Entity, cid: ComponentId)
    requires
        changes.len() > 0,
    ensures
        deltas_of(changes, e, cid) == (if changes.last().entity == e && changes.last().component_type == cid {
            deltas_of(changes.drop_last(), e, cid).push(changes.last())
        } else {
            deltas_of(changes.drop_last(), e, cid)
        }),
{
    reveal(Seq::filter);
}

proof fn lemma_with_deltas_push<V: ReplicatedValue>(
    v: V,
    cid: ComponentId,
    fields: Seq<FieldDescriptor>,
    deltas: Seq<ComponentDeltaModel>,
    cd: ComponentDeltaModel,
)
    ensures
        with_deltas(v, cid, fields, deltas.push(cd)) == with_data(
            with_deltas(v, cid, fields, deltas),
            cid,
            fields,
            cd.field_data,
        ),
{
    assert(deltas.push(cd).drop_last() =~= deltas);
}

/// Where all field writes succeed, every component has the value that comes of
/// decoding, into the value it had, the bytes of every delta of it, one delta after
/// another: none is left out, whatever stands beside it.
pub proof fn lemma_every_delta_is_written<V: ReplicatedValue>(
    m: Map<Entity, Map<ComponentId, V>>,
    changes: Seq<ComponentDeltaModel>,
    reg: Seq<SchemaModel>,
    e: Entity,
    cid: ComponentId,
)
    requires
        m.contains_key(e),
        m[e].contains_key(cid),
        apply_changes(m, changes, reg).1 is Ok,
    ensures
        apply_changes(m, changes, reg).0.contains_key(e),
        apply_changes(m, changes, reg).0[e].contains_key(cid),
        match schema_of(reg, cid) {
            Some(s) => with_deltas(m[e][cid], cid, s.fields, deltas_of(changes, e, cid)) == Ok::<V, ErrorCode>(
                apply_changes(m, changes, reg).0[e][cid],
            ),
            None => apply_changes(m, changes, reg).0[e][cid] == m[e][cid],
        },
    decreases changes.len(),
{
    if changes.len() > 0 {
        let init = changes.drop_last();
        let cd = changes.last();
        lemma_every_delta_is_written(m, init, reg, e, cid);
        lemma_deltas_of_step(changes, e, cid);
        let before = apply_changes(m, init, reg).0;
        lemma_changes(m, init, reg);
        if let Some(s) = schema_of(reg, cd.component_type) {
            lemma_fields_decode(before, cd.entity, cd.component_type, s.fields, cd.field_data);
            lemma_write_fields_shape(before, cd.entity, cd.component_type, s.fields, cd.field_data);
            let after = apply_changes(m, changes, reg).0;
            assert(before.dom().contains(e));
            assert(after[e].dom() == before[e].dom());
            assert(before[e].dom().contains(cid));
            if cd.entity == e && cd.component_type == cid {
                lemma_with_deltas_push(m[e][cid], cid, s.fields, deltas_of(init, e, cid), cd);
            }
        }
    } else {
        reveal(Seq::filter);
    }
}

/// The field writes succeed exactly if every live component accepts the bytes of all
/// its deltas; otherwise the error is one with which some component refuses its
/// bytes.
pub proof fn lemma_when_writes_succeed<V: ReplicatedValue>(
    m: Map<Entity, Map<ComponentId, V>>,
    changes: Seq<ComponentDeltaModel>,
    reg: Seq<SchemaModel>,
)
    ensures
        apply_changes(m, changes, reg).1 is Ok <==> forall|e: Entity, cid: ComponentId|
            m.contains_key(e) && m[e].contains_key(cid) && schema_of(reg, cid) is Some ==> (#[trigger] with_deltas(
                m[e][cid],
                cid,
                schema_of(reg, cid).unwrap().fields,
                deltas_of(changes, e, cid),
            )) is Ok,
        apply_changes(m, changes, reg).1 matches Err(err) ==> exists|e: Entity, cid: ComponentId|
            m.contains_key(e) && m[e].contains_key(cid) && schema_of(reg, cid) is Some && (#[trigger] with_deltas(
                m[e][cid],
                cid,
                schema_of(reg, cid).unwrap().fields,
                deltas_of(changes, e, cid),
            )) == Err::<V, ErrorCode>(err),
    decreases changes.len(),
{
    if changes.len() == 0 {
        assert forall|e: Entity, cid: ComponentId|
            m.contains_key(e) && m[e].contains_key(cid) && schema_of(reg, cid) is Some implies (#[trigger] with_deltas(
            m[e][cid],
            cid,
            schema_of(reg, cid).unwrap().fields,
            deltas_of(changes, e, cid),
        )) is Ok by {
            reveal(Seq::filter);
        }
    } else {
        let init = changes.drop_last();
        let cd = changes.last();
        lemma_when_writes_succeed(m, init, reg);
        if apply_changes(m, init, reg).1 is Ok {
            let before = apply_changes(m, init, reg).0;
            let (x, c) = (cd.entity, cd.component_type);
            lemma_changes(m, init, reg);
            assert(before.dom().contains(x) == m.dom().contains(x));
            if m.contains_key(x) {
                assert(before[x].dom() == m[x].dom());
                assert(before[x].dom().contains(c) == m[x].dom().contains(c));
            }
            if let Some(s) = schema_of(reg, c) {
                lemma_fields_decode(before, x, c, s.fields, cd.field_data);
                if m.contains_key(x) && m[x].contains_key(c) {
                    lemma_every_delta_is_written(m, init, reg, x, c);
                    lemma_deltas_of_step(changes, x, c);
                    lemma_with_deltas_push(m[x][c], c, s.fields, deltas_of(init, x, c), cd);
                }
            }
            if apply_changes(m, changes, reg).1 is Ok {
                assert forall|e: Entity, cid: ComponentId|
                    m.contains_key(e) && m[e].contains_key(cid) && schema_of(reg, cid) is Some implies (
                #[trigger] with_deltas(
                    m[e][cid],
                    cid,
                    schema_of(reg, cid).unwrap().fields,
                    deltas_of(changes, e, cid),
                )) is Ok by {
                    lemma_every_delta_is_written(m, changes, reg, e, cid);
                }
            }
        } else {
            let err = apply_changes(m, init, reg).1->Err_0;
            let (e, cid) = choose|e: Entity, cid: ComponentId|
                m.contains_key(e) && m[e].contains_key(cid) && schema_of(reg, cid) is Some && (#[trigger] with_deltas(
                    m[e][cid],
                    cid,
                    schema_of(reg, cid).unwrap().fields,
                    deltas_of(init, e, cid),
                )) == Err::<V, ErrorCode>(err);
            let fields = schema_of(reg, cid).unwrap().fields;
            lemma_deltas_of_step(changes, e, cid);
            if cd.entity == e && cd.component_type == cid {
                lemma_with_deltas_push(m[e][cid], cid, fields, deltas_of(init, e, cid), cd);
                lemma_refusal_stays::<V>(err, cid, fields, cd.field_data);
            }
            assert(with_deltas(m[e][cid], cid, fields, deltas_of(changes, e, cid)) == Err::<V, ErrorCode>(err));
        }
    }
}

/// Component deltas in two parts do what the parts do one after the other.
pub proof fn lemma_changes_in_parts<V: ReplicatedValue>(
    m: Map<Entity, Map<ComponentId, V>>,
    first: Seq<ComponentDeltaModel>,
    second: Seq<ComponentDeltaModel>,
    reg: Seq<SchemaModel>,
)
    ensures
        apply_changes(m, first, reg).1 is Ok ==> apply_changes(m, first + second, reg) == apply_changes(
            apply_changes(m, first, reg).0,
            second,
            reg,
        ),
        apply_changes(m, first, reg).1 is Err ==> apply_changes(m, first + second, reg) == apply_changes(
            m,
            first,
            reg,
        ),
    decreases second.len(),
{
    if second.len() == 0 {
        assert(first + second =~= first);
        if let Ok(done) = apply_changes(m, first, reg).1 {
            assert(done == ());
        }
    } else {
        lemma_changes_in_parts(m, first, second.drop_last(), reg);
        assert((first + second).drop_last() =~= first + second.drop_last());
    }
}

/// Writing any other field of the schema leaves the bytes of field `at` alone.
pub open spec fn stands_apart<V: ReplicatedValue>(cid: ComponentId, fields: Seq<FieldDescriptor>, at: u32) -> bool {
    forall|v: V, i: int, bytes: Seq<u8>|
        0 <= i < fields.len() && fields[i].field_index != at ==> (#[trigger] v.with_field(
            cid,
            fields[i].field_index,
            bytes,
        ) matches Ok(w) ==> w.field_bytes(cid, at) == v.field_bytes(cid, at))
}

/// Whether field `at` of a value is what decoding `bytes` into it gives.
pub open spec fn holds_bytes<V: ReplicatedValue>(v: V, cid: ComponentId, at: u32, bytes: Seq<u8>) -> bool {
    exists|was: V|
        #[trigger] was.with_field(cid, at, bytes) is Ok && was.with_field(cid, at, bytes)->Ok_0.field_bytes(cid, at)
            == v.field_bytes(cid, at)
}

proof fn lemma_data_kept<V: ReplicatedValue>(
    v: V,
    cid: ComponentId,
    fields: Seq<FieldDescriptor>,
    data: Seq<Seq<u8>>,
    at: u32,
)
    requires
        stands_apart::<V>(cid, fields, at),
        at >= data.len() || data[at as int].len() == 0,
        with_data(Ok(v), cid, fields, data) is Ok,
    ensures
        with_data(Ok(v), cid, fields, data)->Ok_0.field_bytes(cid, at) == v.field_bytes(cid, at),
    decreases fields.len(),
{
    if fields.len() > 0 {
        let init = fields.drop_last();
        assert(fields[fields.len() - 1] == fields.last());
        assert forall|u: V, i: int, bytes: Seq<u8>|
            0 <= i < init.len() && init[i].field_index != at implies (#[trigger] u.with_field(
            cid,
            init[i].field_index,
            bytes,
        ) matches Ok(w) ==> w.field_bytes(cid, at) == u.field_bytes(cid, at)) by {
            assert(init[i] == fields[i]);
            assert(u.with_field(cid, fields[i].field_index, bytes) matches Ok(w) ==> w.field_bytes(cid, at)
                == u.field_bytes(cid, at));
        }
        lemma_data_kept(v, cid, init, data, at);
        let u = with_data(Ok(v), cid, init, data)->Ok_0;
        let f = fields[fields.len() - 1];
        if f.field_index < data.len() {
            assert(u.with_field(cid, f.field_index, data[f.field_index as int]) matches Ok(w) ==> f.field_index == at
                || w.field_bytes(cid, at) == u.field_bytes(cid, at));
        }
    }
}

proof fn lemma_data_held<V: ReplicatedValue>(
    v: V,
    cid: ComponentId,
    fields: Seq<FieldDescriptor>,
    data: Seq<Seq<u8>>,
    j: int,
)
    requires
        0 <= j < fields.len(),
        stands_apart::<V>(cid, fields, fields[j].field_index),
        fields[j].encoding != ReplicationEncoding::Event,
        fields[j].accessible,
        fields[j].field_index < data.len(),
        data[fields[j].field_index as int].len() > 0,
        with_data(Ok(v), cid, fields, data) is Ok,
    ensures
        holds_bytes(
            with_data(Ok(v), cid, fields, data)->Ok_0,
            cid,
            fields[j].field_index,
            data[fields[j].field_index as int],
        ),
    decreases fields.len(),
{
    let init = fields.drop_last();
    let n = fields.len() - 1;
    let at = fields[j].field_index;
    let bytes = data[at as int];
    let f = fields[n];
    assert(fields.last() == f);
    let before = with_data(Ok(v), cid, init, data);
    let u = before->Ok_0;
    let now = with_data(Ok(v), cid, fields, data)->Ok_0;
    if f.field_index == at && f.encoding != ReplicationEncoding::Event && f.accessible {
        assert(u.with_field(cid, at, bytes) is Ok);
        assert(holds_bytes(now, cid, at, bytes));
    } else {
        assert(j < n);
        assert(init[j] == fields[j]);
        assert forall|x: V, i: int, b: Seq<u8>|
            0 <= i < init.len() && init[i].field_index != at implies (#[trigger] x.with_field(
            cid,
            init[i].field_index,
            b,
        ) matches Ok(w) ==> w.field_bytes(cid, at) == x.field_bytes(cid, at)) by {
            assert(init[i] == fields[i]);
            assert(x.with_field(cid, fields[i].field_index, b) matches Ok(w) ==> w.field_bytes(cid, at)
                == x.field_bytes(cid, at));
        }
        lemma_data_held(v, cid, init, data, j);
        let was = choose|was: V|
            #[trigger] was.with_field(cid, at, bytes) is Ok && was.with_field(cid, at, bytes)->Ok_0.field_bytes(
                cid,
                at,
            ) == u.field_bytes(cid, at);
        assert(now.field_bytes(cid, at) == u.field_bytes(cid, at)) by {
            if f.field_index < data.len() {
                assert(u.with_field(cid, f.field_index, data[f.field_index as int]) matches Ok(w) ==> f.field_index
                    == at || w.field_bytes(cid, at) == u.field_bytes(cid, at));
            }
        }
        assert(was.with_field(cid, at, bytes) is Ok);
    }
}

/// Where all field writes succeed, a field of a live component that a delta has bytes
/// for, and no later delta of the component has, is what decoding those bytes
/// gives.
pub proof fn lemma_last_bytes_count<V: ReplicatedValue>(
    m: Map<Entity, Map<ComponentId, V>>,
    changes: Seq<ComponentDeltaModel>,
    reg: Seq<SchemaModel>,
    k: int,
    j: int,
)
    requires
        0 <= k < changes.len(),
        m.contains_key(changes[k].entity),
        m[changes[k].entity].contains_key(changes[k].component_type),
        schema_of(reg, changes[k].component_type) matches Some(s) && {
            &&& 0 <= j < s.fields.len()
            &&& s.fields[j].encoding != ReplicationEncoding::Event
            &&& s.fields[j].accessible
            &&& s.fields[j].field_index < changes[k].field_data.len()
            &&& changes[k].field_data[s.fields[j].field_index as int].len() > 0
            &&& stands_apart::<V>(changes[k].component_type, s.fields, s.fields[j].field_index)
            &&& forall|l: int|
                k < l < changes.len() && (#[trigger] changes[l]).entity == changes[k].entity
                    && changes[l].component_type == changes[k].component_type ==> s.fields[j].field_index
                    >= changes[l].field_data.len() || changes[l].field_data[s.fields[j].field_index as int].len() == 0
        },
        apply_changes(m, changes, reg).1 is Ok,
    ensures
        ({
            let at = schema_of(reg, changes[k].component_type).unwrap().fields[j].field_index;
            holds_bytes(
                apply_changes(m, changes, reg).0[changes[k].entity][changes[k].component_type],
                changes[k].component_type,
                at,
                changes[k].field_data[at as int],
            )
        }),
    decreases changes.len(),
{
    let (e, cid) = (changes[k].entity, changes[k].component_type);
    let s = schema_of(reg, cid).unwrap();
    let at = s.fields[j].field_index;
    let bytes = changes[k].field_data[at as int];
    let init = changes.drop_last();
    let n = changes.len() - 1;
    let cd = changes[n];
    assert(changes.last() == cd);
    let before = apply_changes(m, init, reg).0;
    let after = apply_changes(m, changes, reg).0;
    lemma_changes(m, init, reg);
    assert(before.dom().contains(e));
    assert(before[e].dom() == m[e].dom());
    assert(before[e].dom().contains(cid));
    if let Some(t) = schema_of(reg, cd.component_type) {
        lemma_fields_decode(before, cd.entity, cd.component_type, t.fields, cd.field_data);
        lemma_write_fields_shape(before, cd.entity, cd.component_type, t.fields, cd.field_data);
    }
    if k == n {
        lemma_data_held(before[e][cid], cid, s.fields, cd.field_data, j);
    } else {
        assert(init[k] == changes[k]);
        assert forall|l: int|
            k < l < init.len() && (#[trigger] init[l]).entity == e && init[l].component_type == cid implies at
            >= init[l].field_data.len() || init[l].field_data[at as int].len() == 0 by {
            assert(changes[l] == init[l]);
        }
        lemma_last_bytes_count(m, init, reg, k, j);
        let was = choose|was: V|
            #[trigger] was.with_field(cid, at, bytes) is Ok && was.with_field(cid, at, bytes)->Ok_0.field_bytes(
                cid,
                at,
            ) == before[e][cid].field_bytes(cid, at);
        if cd.entity == e && cd.component_type == cid {
            lemma_data_kept(before[e][cid], cid, s.fields, cd.field_data, at);
        }
        assert(was.with_field(cid, at, bytes) is Ok);
    }
}

/// After a delta was applied without an error, a field of a component that it has
/// bytes for is what decoding those bytes gives, where the entity is alive and has the
/// component; of several deltas of a component the last with bytes for the field
/// counts.
pub proof fn lemma_delta_is_written<V: ReplicatedValue>(
    w: WorldModel<V>,
    d: DeltaModel,
    reg: Seq<SchemaModel>,
    k: int,
    j: int,
)
    requires
        delta_applied(w, d, reg).1 is Ok,
        0 <= k < d.component_deltas.len(),
        delta_applied(w, d, reg).0.entities.contains_key(d.component_deltas[k].entity),
        delta_applied(w, d, reg).0.entities[d.component_deltas[k].entity].contains_key(
            d.component_deltas[k].component_type,
        ),
        schema_of(reg, d.component_deltas[k].component_type) matches Some(s) && {
            &&& 0 <= j < s.fields.len()
            &&& s.fields[j].encoding != ReplicationEncoding::Event
            &&& s.fields[j].accessible
            &&& s.fields[j].field_index < d.component_deltas[k].field_data.len()
            &&& d.component_deltas[k].field_data[s.fields[j].field_index as int].len() > 0
            &&& stands_apart::<V>(d.component_deltas[k].component_type, s.fields, s.fields[j].field_index)
            &&& forall|l: int|
                k < l < d.component_deltas.len() && (#[trigger] d.component_deltas[l]).entity
                    == d.component_deltas[k].entity && d.component_deltas[l].component_type
                    == d.component_deltas[k].component_type ==> s.fields[j].field_index
                    >= d.component_deltas[l].field_data.len()
                    || d.component_deltas[l].field_data[s.fields[j].field_index as int].len() == 0
        },
    ensures
        ({
            let cd = d.component_deltas[k];
            let at = schema_of(reg, cd.component_type).unwrap().fields[j].field_index;
            holds_bytes(
                delta_applied(w, d, reg).0.entities[cd.entity][cd.component_type],
                cd.component_type,
                at,
                cd.field_data[at as int],
            )
        }),
{
    let placed = apply_spawns(apply_despawns(w, d.despawned), d.spawned, reg);
    let cd = d.component_deltas[k];
    lemma_changes(placed.0.entities, d.component_deltas, reg);
    let m = placed.0.entities;
    assert(delta_applied(w, d, reg).0.entities.dom().contains(cd.entity));
    assert(m.contains_key(cd.entity));
    assert(m[cd.entity].dom().contains(cd.component_type));
    lemma_last_bytes_count(m, d.component_deltas, reg, k, j);
}

/// After a delta was applied without an error, every component of every live entity
/// has the value that comes of decoding the bytes of all its deltas, in order, into
/// the value that it started from: a fresh one for an entity that the delta spawned,
/// and the value before for one that stayed.
pub proof fn lemma_applied_values<V: ReplicatedValue>(
    w: WorldModel<V>,
    d: DeltaModel,
    reg: Seq<SchemaModel>,
    e: Entity,
    cid: ComponentId,
)
    requires
        distinct_slots(d.spawned),
        delta_applied(w, d, reg).1 is Ok,
        delta_applied(w, d, reg).0.entities.contains_key(e),
        delta_applied(w, d, reg).0.entities[e].contains_key(cid),
    ensures
        ({
            let after = delta_applied(w, d, reg).0.entities[e][cid];
            let fresh = exists|i: int| 0 <= i < d.spawned.len() && (#[trigger] d.spawned[i]).0 == e;
            let start = if fresh {
                V::default_of(cid)
            } else {
                w.entities[e][cid]
            };
            &&& fresh ==> exists|i: int|
                0 <= i < d.spawned.len() && (#[trigger] d.spawned[i]).0 == e && (parse_archetype_key(
                    d.spawned[i].1,
                ) matches Some(ids) && ids.contains(cid))
            &&& !fresh ==> w.entities.contains_key(e) && w.entities[e].contains_key(cid)
            &&& match schema_of(reg, cid) {
                Some(s) => with_deltas(start, cid, s.fields, deltas_of(d.component_deltas, e, cid)) == Ok::<
                    V,
                    ErrorCode,
                >(after),
                None => after == start,
            }
        }),
{
    let gone = apply_despawns(w, d.despawned);
    let placed = apply_spawns(gone, d.spawned, reg);
    let m = placed.0.entities;
    lemma_changes(m, d.component_deltas, reg);
    assert(delta_applied(w, d, reg).0.entities.dom().contains(e));
    assert(m.contains_key(e));
    assert(m[e].dom().contains(cid));
    lemma_every_delta_is_written(m, d.component_deltas, reg, e, cid);
    lemma_spawns(gone, d.spawned, reg);
    lemma_despawns(w, d.despawned);
    let fresh = exists|i: int| 0 <= i < d.spawned.len() && (#[trigger] d.spawned[i]).0 == e;
    if fresh {
        let i = choose|i: int| 0 <= i < d.spawned.len() && (#[trigger] d.spawned[i]).0 == e;
        assert(m[d.spawned[i].0].contains_key(cid));
    } else {
        crate::replication::apply::lemma_applied_entities(w, d, reg);
        assert(w.entities.contains_key(e) && !claims_slot(d.spawned, e.index()));
        assert(m.contains_key(e) <==> gone.entities.contains_key(e));
    }
}

/// The slots that there are once the first `n` spawns were placed.
pub open spec fn slots_by(slots: nat, spawned: Seq<(Entity, Seq<u8>)>, n: int) -> nat
    decreases n,
{
    if n <= 0 {
        slots
    } else if slots_by(slots, spawned, n - 1) <= spawned[n - 1].0.index() {
        (spawned[n - 1].0.index() + 1) as nat
    } else {
        slots_by(slots, spawned, n - 1)
    }
}

/// Whether the `i`th spawn can be placed: its generation is not the retired one, its slot
/// is not beyond the slots that there are by more than one spawn may add, and this
/// peer has registered every component type that it names.
pub open spec fn spawn_fits(slots: nat, spawned: Seq<(Entity, Seq<u8>)>, reg: Seq<SchemaModel>, i: int) -> bool {
    let e = spawned[i].0;
    &&& e.generation() < u32::MAX
    &&& e.index() < u32::MAX
    &&& e.index() <= slots_by(slots, spawned, i) + 0x10_0000
    &&& parse_archetype_key(spawned[i].1) matches Some(ids) ==> forall|k: int|
        0 <= k < ids.len() ==> (schema_of(reg, #[trigger] ids[k]) matches Some(s) && s.local)
}

/// The spawns of a delta succeed exactly if each of them can be placed.
pub proof fn lemma_when_spawns_succeed<V: ReplicatedValue>(
    w: WorldModel<V>,
    spawned: Seq<(Entity, Seq<u8>)>,
    reg: Seq<SchemaModel>,
)
    ensures
        apply_spawns(w, spawned, reg).1 <==> forall|i: int|
            0 <= i < spawned.len() ==> #[trigger] spawn_fits(w.slots.len(), spawned, reg, i),
        apply_spawns(w, spawned, reg).1 ==> apply_spawns(w, spawned, reg).0.slots.len() == slots_by(
            w.slots.len(),
            spawned,
            spawned.len() as int,
        ),
    decreases spawned.len(),
{
    if spawned.len() > 0 {
        let init = spawned.drop_last();
        let n = spawned.len() - 1;
        let last = spawned[n];
        let slots = w.slots.len();
        assert(spawned.last() == last);
        lemma_when_spawns_succeed(w, init, reg);
        assert forall|i: int| 0 <= i <= n implies slots_by(slots, init, i) == #[trigger] slots_by(slots, spawned, i) by {
            lemma_slots_by_prefix(slots, spawned, i);
        }
        assert forall|i: int| 0 <= i < n implies spawn_fits(slots, init, reg, i) == #[trigger] spawn_fits(
            slots,
            spawned,
            reg,
            i,
        ) by {
            assert(init[i] == spawned[i]);
            assert(slots_by(slots, init, i) == slots_by(slots, spawned, i));
        }
        if apply_spawns(w, init, reg).1 {
            assert forall|i: int| 0 <= i < n implies #[trigger] spawn_fits(slots, spawned, reg, i) by {
                assert(spawn_fits(slots, init, reg, i));
            }
            let before = apply_spawns(w, init, reg).0;
            assert(before.slots.len() == slots_by(slots, spawned, n)) by {
                assert(slots_by(slots, init, n) == slots_by(slots, spawned, n));
            }
            let types = crate::replication::apply::blob_types(last.1);
            assert(crate::replication::apply::all_local(reg, types) <==> (parse_archetype_key(last.1) matches Some(
                ids,
            ) ==> forall|k: int| 0 <= k < ids.len() ==> (schema_of(reg, #[trigger] ids[k]) matches Some(s) && s.local)))
                by {
                if let Some(ids) = parse_archetype_key(last.1) {
                    assert forall|c: ComponentId| #[trigger] types.contains(c) <==> ids.contains(c) by {}
                    if crate::replication::apply::all_local(reg, types) {
                        assert forall|k: int| 0 <= k < ids.len() implies (schema_of(reg, #[trigger] ids[k]) matches Some(
                            s,
                        ) && s.local) by {
                            assert(types.contains(ids[k]));
                        }
                    }
                    if forall|k: int|
                        0 <= k < ids.len() ==> (schema_of(reg, #[trigger] ids[k]) matches Some(s) && s.local) {
                        assert forall|c: ComponentId| #[trigger] types.contains(c) implies (schema_of(reg, c)
                            matches Some(s) && s.local) by {
                            let k = ids.index_of(c);
                            assert(ids[k] == c);
                        }
                    }
                }
            }
            assert(spawn_fits(slots, spawned, reg, n) <==> apply_spawns(w, spawned, reg).1);
        } else {
            let i = choose|i: int| 0 <= i < n && !#[trigger] spawn_fits(slots, init, reg, i);
            assert(!spawn_fits(slots, spawned, reg, i));
        }
    }
}

proof fn lemma_slots_by_prefix(slots: nat, spawned: Seq<(Entity, Seq<u8>)>, n: int)
    requires
        spawned.len() > 0,
        n < spawned.len(),
    ensures
        slots_by(slots, spawned.drop_last(), n) == slots_by(slots, spawned, n),
    decreases n,
{
    if n > 0 {
        lemma_slots_by_prefix(slots, spawned, n - 1);
    }
}

/// A delta is applied without an error exactly if all its spawns can be placed and every
/// component accepts its bytes; a spawn that cannot be placed is invalid data.
pub proof fn lemma_when_deltas_apply<V: ReplicatedValue>(w: WorldModel<V>, d: DeltaModel, reg: Seq<SchemaModel>)
    requires
        w.sound(),
    ensures
        ({
            let gone = apply_despawns(w, d.despawned);
            let placed = apply_spawns(gone, d.spawned, reg).0.entities;
            let fit = forall|i: int|
                0 <= i < d.spawned.len() ==> #[trigger] spawn_fits(w.slots.len(), d.spawned, reg, i);
            &&& !fit ==> delta_applied(w, d, reg).1 == Err::<(), ErrorCode>(ErrorCode::InvalidData)
            &&& fit ==> (delta_applied(w, d, reg).1 is Ok <==> forall|e: Entity, cid: ComponentId|
                placed.contains_key(e) && placed[e].contains_key(cid) && schema_of(reg, cid) is Some ==> (
                #[trigger] with_deltas(
                    placed[e][cid],
                    cid,
                    schema_of(reg, cid).unwrap().fields,
                    deltas_of(d.component_deltas, e, cid),
                )) is Ok)
        }),
{
    let gone = apply_despawns(w, d.despawned);
    lemma_despawns_keep_slots(w, d.despawned);
    lemma_when_spawns_succeed(gone, d.spawned, reg);
    lemma_when_writes_succeed(apply_spawns(gone, d.spawned, reg).0.entities, d.component_deltas, reg);
}

proof fn lemma_despawns_keep_slots<V>(w: WorldModel<V>, despawned: Seq<Entity>)
    requires
        w.sound(),
    ensures
        apply_despawns(w, despawned).sound(),
        apply_despawns(w, despawned).slots.len() == w.slots.len(),
    decreases despawned.len(),
{
    if despawned.len() > 0 {
        lemma_despawns_keep_slots(w, despawned.drop_last());
        lemma_despawn_keeps_sound(apply_despawns(w, despawned.drop_last()), despawned.last());
    }
}

/// No two of the captured components are of one type.
pub open spec fn distinct_types(components: Seq<(ComponentId, Seq<Seq<u8>>)>) -> bool {
    forall|i: int, j: int| 0 <= i < j < components.len() ==> (#[trigger] components[i]).0 != (#[trigger] components[j]).0
}

proof fn lemma_components_restored<V: ReplicatedValue>(
    m: Map<Entity, Map<ComponentId, V>>,
    e: Entity,
    components: Seq<(ComponentId, Seq<Seq<u8>>)>,
    reg: Seq<SchemaModel>,
)
    requires
        m.contains_key(e),
        distinct_types(components),
        restore_components(m, e, components, reg).1 is Ok,
    ensures
        ({
            let after = restore_components(m, e, components, reg).0;
            &&& after.dom() == m.dom()
            &&& after[e].dom() == m[e].dom()
            &&& forall|x: Entity| x != e && m.contains_key(x) ==> #[trigger] after[x] == m[x]
            &&& forall|c: ComponentId|
                (forall|i: int| 0 <= i < components.len() ==> (#[trigger] components[i]).0 != c) ==> #[trigger] after[e][c]
                    == m[e][c]
            &&& forall|i: int|
                0 <= i < components.len() && m[e].contains_key((#[trigger] components[i]).0) ==> match schema_of(
                    reg,
                    components[i].0,
                ) {
                    Some(s) => with_data(Ok(m[e][components[i].0]), components[i].0, s.fields, components[i].1)
                        == Ok::<V, ErrorCode>(after[e][components[i].0]),
                    None => after[e][components[i].0] == m[e][components[i].0],
                }
        }),
    decreases components.len(),
{
    if components.len() > 0 {
        let init = components.drop_last();
        let n = components.len() - 1;
        let last = components[n];
        assert(components.last() == last);
        assert forall|i: int, j: int| 0 <= i < j < init.len() implies (#[trigger] init[i]).0 != (
        #[trigger] init[j]).0 by {
            assert(components[i].0 != components[j].0);
        }
        lemma_components_restored(m, e, init, reg);
        let before = restore_components(m, e, init, reg).0;
        let after = restore_components(m, e, components, reg).0;
        assert(before.dom().contains(e));
        if let Some(s) = schema_of(reg, last.0) {
            lemma_fields_decode(before, e, last.0, s.fields, last.1);
            lemma_write_fields_shape(before, e, last.0, s.fields, last.1);
            assert(before[e].dom().contains(last.0) == m[e].dom().contains(last.0));
        }
        assert forall|i: int| 0 <= i < init.len() implies (#[trigger] init[i]).0 != last.0 by {
            assert(components[i].0 != components[n].0);
        }
        assert(before[e][last.0] == m[e][last.0]);
        assert forall|x: Entity| x != e && m.contains_key(x) implies #[trigger] after[x] == m[x] by {
            assert(before.dom().contains(x));
            assert(before[x] == m[x]);
            assert(after[x].dom() =~= before[x].dom());
            assert forall|c: ComponentId| #[trigger] after[x].contains_key(c) implies after[x][c] == before[x][c] by {}
            assert(after[x] =~= before[x]);
        }
        assert forall|c: ComponentId|
            (forall|i: int| 0 <= i < components.len() ==> (#[trigger] components[i]).0 != c) implies #[trigger] after[e][c]
            == m[e][c] by {
            assert forall|i: int| 0 <= i < init.len() implies (#[trigger] init[i]).0 != c by {
                assert(components[i].0 != c);
            }
            assert(components[n].0 != c);
            assert(before[e][c] == m[e][c]);
        }
        assert forall|i: int| 0 <= i < components.len() && m[e].contains_key((#[trigger] components[i]).0) implies match schema_of(
            reg,
            components[i].0,
        ) {
            Some(s) => with_data(Ok(m[e][components[i].0]), components[i].0, s.fields, components[i].1) == Ok::<
                V,
                ErrorCode,
            >(after[e][components[i].0]),
            None => after[e][components[i].0] == m[e][components[i].0],
        } by {
            if i < n {
                assert(init[i] == components[i]);
                assert(init[i].0 != last.0);
                assert(after[e][components[i].0] == before[e][components[i].0]);
            }
        }
    } else {
        assert(restore_components(m, e, components, reg).0 == m);
    }
}

/// An entity of a snapshot that was restored is alive at its exact handle, with
/// exactly the component types of the snapshot. Each component is a fresh one into
/// which the bytes of the snapshot were decoded. Entities in other slots are
/// untouched.
pub proof fn lemma_restored_entity<V: ReplicatedValue>(
    w: WorldModel<V>,
    snap: EntitySnapshotModel,
    reg: Seq<SchemaModel>,
)
    requires
        distinct_types(snap.components),
        restore_entity(w, snap, reg).1 is Ok,
    ensures
        ({
            let after = restore_entity(w, snap, reg).0.entities;
            &&& after.contains_key(snap.entity)
            &&& forall|c: ComponentId| #[trigger]
                after[snap.entity].contains_key(c) <==> exists|i: int|
                    0 <= i < snap.components.len() && (#[trigger] snap.components[i]).0 == c
            &&& forall|i: int|
                0 <= i < snap.components.len() ==> (schema_of(reg, (#[trigger] snap.components[i]).0) matches Some(s)
                    && with_data(
                    Ok(V::default_of(snap.components[i].0)),
                    snap.components[i].0,
                    s.fields,
                    snap.components[i].1,
                ) == Ok::<V, ErrorCode>(after[snap.entity][snap.components[i].0]))
            &&& forall|x: Entity|
                x.index() != snap.entity.index() ==> (#[trigger] after.contains_key(x) <==> w.entities.contains_key(x))
            &&& forall|x: Entity|
                x.index() != snap.entity.index() && w.entities.contains_key(x) ==> #[trigger] after[x] == w.entities[x]
            &&& forall|x: Entity|
                x.index() == snap.entity.index() && x != snap.entity ==> !#[trigger] after.contains_key(x)
        }),
{
    let e = snap.entity;
    let types = captured_types(snap.components);
    let placed = crate::replication::apply::place(w, e, types, reg).0.entities;
    lemma_components_restored(placed, e, snap.components, reg);
    let after = restore_entity(w, snap, reg).0.entities;
    assert(after.dom() == placed.dom());
    let names = snap.components.map_values(|c: (ComponentId, Seq<Seq<u8>>)| c.0);
    assert forall|c: ComponentId| #[trigger] after[e].contains_key(c) <==> exists|i: int|
        0 <= i < snap.components.len() && (#[trigger] snap.components[i]).0 == c by {
        assert(after[e].dom().contains(c) == placed[e].dom().contains(c));
        assert(types.contains(c) == names.contains(c));
        if names.contains(c) {
            let i = names.index_of(c);
            assert(snap.components[i].0 == c);
        }
        if exists|i: int| 0 <= i < snap.components.len() && (#[trigger] snap.components[i]).0 == c {
            let i = choose|i: int| 0 <= i < snap.components.len() && (#[trigger] snap.components[i]).0 == c;
            assert(names[i] == c);
        }
    }
    assert forall|i: int| 0 <= i < snap.components.len() implies (schema_of(reg, (#[trigger] snap.components[i]).0)
        matches Some(s) && with_data(
        Ok(V::default_of(snap.components[i].0)),
        snap.components[i].0,
        s.fields,
        snap.components[i].1,
    ) == Ok::<V, ErrorCode>(after[e][snap.components[i].0])) by {
        let c = snap.components[i].0;
        assert(after[e].contains_key(c));
        assert(types.contains(c));
        assert(placed[e].contains_key(c));
        assert(placed[e][c] == V::default_of(c));
    }
    assert forall|x: Entity| x.index() != e.index() implies (#[trigger] after.contains_key(x)
        <==> w.entities.contains_key(x)) by {
        assert(after.dom().contains(x) == placed.dom().contains(x));
    }
    assert forall|x: Entity| x.index() == e.index() && x != e implies !#[trigger] after.contains_key(x) by {
        assert(after.dom().contains(x) == placed.dom().contains(x));
    }
    assert forall|x: Entity| x.index() != e.index() && w.entities.contains_key(x) implies #[trigger] after[x]
        == w.entities[x] by {
        assert(placed.contains_key(x));
        assert(placed[x] == w.entities[x]);
    }
}

/// After a snapshot was restored without an error, every entity of it is alive at its
/// exact handle, with exactly the components of the snapshot, each decoded from its
/// bytes. Entities in slots that the snapshot does not name are as before.
pub proof fn lemma_restored_values<V: ReplicatedValue>(
    w: WorldModel<V>,
    snaps: Seq<EntitySnapshotModel>,
    reg: Seq<SchemaModel>,
)
    requires
        forall|k: int| 0 <= k < snaps.len() ==> distinct_types((#[trigger] snaps[k]).components),
        forall|k: int, l: int|
            0 <= k < l < snaps.len() ==> (#[trigger] snaps[k]).entity.index() != (#[trigger] snaps[l]).entity.index(),
        restore_entities(w, snaps, reg).1 is Ok,
    ensures
        ({
            let after = restore_entities(w, snaps, reg).0.entities;
            &&& forall|k: int| 0 <= k < snaps.len() ==> after.contains_key((#[trigger] snaps[k]).entity)
            &&& forall|k: int, c: ComponentId|
                0 <= k < snaps.len() ==> (#[trigger] after[snaps[k].entity].contains_key(c) <==> exists|i: int|
                    0 <= i < snaps[k].components.len() && (#[trigger] snaps[k].components[i]).0 == c)
            &&& forall|k: int, i: int|
                0 <= k < snaps.len() && 0 <= i < snaps[k].components.len() ==> (schema_of(
                    reg,
                    (#[trigger] snaps[k].components[i]).0,
                ) matches Some(s) && with_data(
                    Ok(V::default_of(snaps[k].components[i].0)),
                    snaps[k].components[i].0,
                    s.fields,
                    snaps[k].components[i].1,
                ) == Ok::<V, ErrorCode>(after[snaps[k].entity][snaps[k].components[i].0]))
            &&& forall|x: Entity|
                (forall|k: int| 0 <= k < snaps.len() ==> (#[trigger] snaps[k]).entity.index() != x.index()) ==> {
                    &&& (#[trigger] after.contains_key(x) <==> w.entities.contains_key(x))
                    &&& after.contains_key(x) ==> after[x] == w.entities[x]
                }
        }),
    decreases snaps.len(),
{
    if snaps.len() > 0 {
        let init = snaps.drop_last();
        let n = snaps.len() - 1;
        let last = snaps[n];
        assert(snaps.last() == last);
        assert forall|k: int| 0 <= k < init.len() implies distinct_types((#[trigger] init[k]).components) by {
            assert(init[k] == snaps[k]);
        }
        assert forall|k: int, l: int| 0 <= k < l < init.len() implies (#[trigger] init[k]).entity.index() != (
        #[trigger] init[l]).entity.index() by {
            assert(snaps[k].entity.index() != snaps[l].entity.index());
        }
        lemma_restored_values(w, init, reg);
        let middle = restore_entities(w, init, reg).0;
        lemma_restored_entity(middle, last, reg);
        let before = middle.entities;
        let after = restore_entities(w, snaps, reg).0.entities;
        assert forall|k: int| 0 <= k < n implies after.contains_key((#[trigger] snaps[k]).entity)
            && after[snaps[k].entity] == before[snaps[k].entity] by {
            assert(init[k] == snaps[k]);
            assert(snaps[k].entity.index() != snaps[n].entity.index());
            assert(before.contains_key(snaps[k].entity));
        }
        assert forall|k: int, c: ComponentId| 0 <= k < snaps.len() implies (#[trigger] after[snaps[k].entity].contains_key(
            c,
        ) <==> exists|i: int| 0 <= i < snaps[k].components.len() && (#[trigger] snaps[k].components[i]).0 == c) by {
            if k < n {
                assert(init[k] == snaps[k]);
                assert(before[init[k].entity].contains_key(c) <==> exists|i: int|
                    0 <= i < init[k].components.len() && (#[trigger] init[k].components[i]).0 == c);
            }
        }
        assert forall|k: int, i: int| 0 <= k < snaps.len() && 0 <= i < snaps[k].components.len() implies (schema_of(
            reg,
            (#[trigger] snaps[k].components[i]).0,
        ) matches Some(s) && with_data(
            Ok(V::default_of(snaps[k].components[i].0)),
            snaps[k].components[i].0,
            s.fields,
            snaps[k].components[i].1,
        ) == Ok::<V, ErrorCode>(after[snaps[k].entity][snaps[k].components[i].0])) by {
            if k < n {
                assert(init[k] == snaps[k]);
                assert(init[k].components[i] == snaps[k].components[i]);
            }
        }
        assert forall|x: Entity|
            (forall|k: int| 0 <= k < snaps.len() ==> (#[trigger] snaps[k]).entity.index() != x.index()) implies {
            &&& (#[trigger] after.contains_key(x) <==> w.entities.contains_key(x))
            &&& after.contains_key(x) ==> after[x] == w.entities[x]
        } by {
            assert forall|k: int| 0 <= k < init.len() implies (#[trigger] init[k]).entity.index() != x.index() by {
                assert(snaps[k].entity.index() != x.index());
            }
            assert(snaps[n].entity.index() != x.index());
            assert(before.contains_key(x) <==> w.entities.contains_key(x));
        }
    }
}

} // verus!
