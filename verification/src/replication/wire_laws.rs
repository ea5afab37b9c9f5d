//! Where things stand in a message, byte by byte.

use vstd::prelude::*;
use crate::entity::Entity;
use crate::replication::delta::{component_delta_wire, delta_wire, entity_wire, event_wire, spawn_wire, take_route, take_target};
use crate::replication::schema::{
    condition_code, encoding_code, event_channel_code, field_wire, handshake_wire, remote_view, schema_wire, FieldDescriptor,
    SchemaModel,
};
use crate::replication::types::{ComponentDeltaModel, DeltaModel, EventChannel, EventModel};
use crate::replication::wire::{
    blob_wire, counted_wire, list_wire, take_blob, take_bytes, take_u32, take_u64, take_u8, u32_of, u32_wire, u64_wire,
};

verus! {

/// Numbers stand least byte first.
pub proof fn lemma_little_endian(x: u32, y: u64)
    ensures
        u32_wire(x).len() == 4,
        x == u32_wire(x)[0] + 0x100 * u32_wire(x)[1] + 0x1_0000 * u32_wire(x)[2] + 0x100_0000 * u32_wire(x)[3],
        u64_wire(y).len() == 8,
        u64_wire(y)[0] == y % 0x100,
        u64_wire(y)[1] == (y / 0x100) % 0x100,
        u64_wire(y)[2] == (y / 0x1_0000) % 0x100,
        u64_wire(y)[3] == (y / 0x100_0000) % 0x100,
        u64_wire(y)[4] == (y / 0x1_0000_0000) % 0x100,
        u64_wire(y)[5] == (y / 0x100_0000_0000) % 0x100,
        u64_wire(y)[6] == (y / 0x1_0000_0000_0000) % 0x100,
        u64_wire(y)[7] == (y / 0x100_0000_0000_0000) % 0x100,
{
    vstd::bytes::spec_u64_to_le_bytes_to_open(y);
    assert(x == ((x & 0xff) as u8) + 0x100 * (((x >> 8) & 0xff) as u8) + 0x1_0000 * (((x >> 16) & 0xff) as u8)
        + 0x100_0000 * (((x >> 24) & 0xff) as u8)) by (bit_vector);
    assert(((y & 0xff) as u8) == y % 0x100 && (((y >> 8) & 0xff) as u8) == (y / 0x100) % 0x100 && (((y >> 16) & 0xff) as u8)
        == (y / 0x1_0000) % 0x100 && (((y >> 24) & 0xff) as u8) == (y / 0x100_0000) % 0x100 && (((y >> 32)
        & 0xff) as u8) == (y / 0x1_0000_0000) % 0x100 && (((y >> 40) & 0xff) as u8) == (y / 0x100_0000_0000) % 0x100 && (((y
        >> 48) & 0xff) as u8) == (y / 0x1_0000_0000_0000) % 0x100 && (((y >> 56) & 0xff) as u8) == (y
        / 0x100_0000_0000_0000) % 0x100) by (bit_vector);
}

/// A number, a byte and a run of bytes are read from the front where there are enough
/// bytes, and the rest is what stands behind them.
pub proof fn lemma_reads_from_the_front(s: Seq<u8>, n: nat)
    ensures
        take_u8(s) is Some <==> s.len() >= 1,
        take_u8(s) matches Some((b, rest)) ==> b == s[0] && rest == s.skip(1),
        take_u32(s) is Some <==> s.len() >= 4,
        take_u32(s) matches Some((x, rest)) ==> rest == s.skip(4) && x == s[0] + 0x100 * s[1] + 0x1_0000 * s[2]
            + 0x100_0000 * s[3],
        take_u64(s) is Some <==> s.len() >= 8,
        take_u64(s) matches Some((_, rest)) ==> rest == s.skip(8),
        take_bytes(n, s) is Some <==> s.len() >= n,
        take_bytes(n, s) matches Some((b, rest)) ==> b == s.take(n as int) && rest == s.skip(n as int),
        s.len() < 4 ==> take_blob(s) is None,
        s.len() >= 4 ==> (take_blob(s) is Some <==> s.len() >= 4 + u32_of(s.take(4))),
        take_blob(s) matches Some((b, rest)) ==> b.len() == u32_of(s.take(4)) && b == s.subrange(4, 4 + b.len() as int) && rest
            == s.skip(4 + b.len() as int),
{
    if s.len() >= 4 {
        let (a, b, c, d) = (s[0], s[1], s[2], s[3]);
        assert((a as u32) | (b as u32) << 8 | (c as u32) << 16 | (d as u32) << 24 == a + 0x100 * b + 0x1_0000 * c
            + 0x100_0000 * d) by (bit_vector);
        let k = u32_of(s.take(4)) as int;
        if s.len() >= 4 + k {
            assert(s.skip(4).take(k) =~= s.subrange(4, 4 + k));
            assert(s.skip(4).skip(k) =~= s.skip(4 + k));
        }
    }
}

/// A blob is its length, in four bytes, and then its bytes.
pub proof fn lemma_blob_form(b: Seq<u8>)
    ensures
        blob_wire(b).len() == 4 + b.len(),
        blob_wire(b).take(4) == u32_wire(b.len() as u32),
        blob_wire(b).skip(4) == b,
{
    assert(blob_wire(b).take(4) =~= u32_wire(b.len() as u32));
    assert(blob_wire(b).skip(4) =~= b);
}

/// A list is its count, in four bytes, and then its items in order.
pub proof fn lemma_list_form<T>(wire: spec_fn(T) -> Seq<u8>, xs: Seq<T>, x: T)
    ensures
        counted_wire(wire, xs).take(4) == u32_wire(xs.len() as u32),
        counted_wire(wire, xs).skip(4) == list_wire(wire, xs),
        list_wire(wire, Seq::empty()) == Seq::<u8>::empty(),
        list_wire(wire, xs.push(x)) == list_wire(wire, xs) + wire(x),
{
    assert(counted_wire(wire, xs).take(4) =~= u32_wire(xs.len() as u32));
    assert(counted_wire(wire, xs).skip(4) =~= list_wire(wire, xs));
    assert(xs.push(x).drop_last() =~= xs);
}

/// A delta starts with its two frames. The lists follow, each behind its count: spawns,
/// despawns, component deltas, events.
pub proof fn lemma_delta_form(d: DeltaModel)
    ensures
        ({
            let w = delta_wire(d);
            &&& w.len() >= 32
            &&& w.take(8) == u64_wire(d.frame)
            &&& w.subrange(8, 16) == u64_wire(d.base_frame)
            &&& w.subrange(16, 20) == u32_wire(d.spawned.len() as u32)
            &&& d.spawned.len() == 0 ==> w.subrange(20, 24) == u32_wire(d.despawned.len() as u32)
            &&& d.spawned.len() == 0 && d.despawned.len() == 0 ==> w.subrange(24, 28) == u32_wire(
                d.component_deltas.len() as u32,
            )
            &&& d.spawned.len() == 0 && d.despawned.len() == 0 && d.component_deltas.len() == 0 ==> w.subrange(28, 32)
                == u32_wire(d.events.len() as u32)
            &&& w == u64_wire(d.frame) + u64_wire(d.base_frame) + u32_wire(d.spawned.len() as u32) + list_wire(
                |s: (Entity, Seq<u8>)| spawn_wire(s),
                d.spawned,
            ) + u32_wire(d.despawned.len() as u32) + list_wire(|e: Entity| entity_wire(e), d.despawned) + u32_wire(
                d.component_deltas.len() as u32,
            ) + list_wire(|cd: ComponentDeltaModel| component_delta_wire(cd), d.component_deltas) + u32_wire(
                d.events.len() as u32,
            ) + list_wire(|ev: EventModel| event_wire(ev), d.events)
        }),
{
    let w = delta_wire(d);
    let a = list_wire(|s: (Entity, Seq<u8>)| spawn_wire(s), d.spawned);
    let b = list_wire(|e: Entity| entity_wire(e), d.despawned);
    let c = list_wire(|cd: ComponentDeltaModel| component_delta_wire(cd), d.component_deltas);
    let e = list_wire(|ev: EventModel| event_wire(ev), d.events);
    lemma_little_endian(0, d.frame);
    lemma_little_endian(0, d.base_frame);
    assert(w =~= u64_wire(d.frame) + u64_wire(d.base_frame) + u32_wire(d.spawned.len() as u32) + a + u32_wire(
        d.despawned.len() as u32,
    ) + b + u32_wire(d.component_deltas.len() as u32) + c + u32_wire(d.events.len() as u32) + e);
    assert(w.take(8) =~= u64_wire(d.frame));
    assert(w.subrange(8, 16) =~= u64_wire(d.base_frame));
    assert(w.subrange(16, 20) =~= u32_wire(d.spawned.len() as u32));
    if d.spawned.len() == 0 {
        assert(w.subrange(20, 24) =~= u32_wire(d.despawned.len() as u32));
        if d.despawned.len() == 0 {
            assert(w.subrange(24, 28) =~= u32_wire(d.component_deltas.len() as u32));
            if d.component_deltas.len() == 0 {
                assert(w.subrange(28, 32) =~= u32_wire(d.events.len() as u32));
            }
        }
    }
}

/// A spawn is the handle and the blob behind its length; a despawn is the handle.
pub proof fn lemma_spawn_form(e: Entity, b: Seq<u8>)
    ensures
        spawn_wire((e, b)).len() == 12 + b.len(),
        spawn_wire((e, b)).take(8) == u64_wire(e.0),
        spawn_wire((e, b)).subrange(8, 12) == u32_wire(b.len() as u32),
        spawn_wire((e, b)).skip(12) == b,
        entity_wire(e) == u64_wire(e.0),
{
    let w = spawn_wire((e, b));
    lemma_little_endian(0, e.0);
    assert(w.take(8) =~= u64_wire(e.0));
    assert(w.subrange(8, 12) =~= u32_wire(b.len() as u32));
    assert(w.skip(12) =~= b);
}

/// A component delta is the handle, the component type, and the fields behind their count,
/// each behind its length.
pub proof fn lemma_component_delta_form(cd: ComponentDeltaModel)
    ensures
        ({
            let w = component_delta_wire(cd);
            &&& w.len() >= 16
            &&& w.take(8) == u64_wire(cd.entity.0)
            &&& w.subrange(8, 12) == u32_wire(cd.component_type.0)
            &&& w.subrange(12, 16) == u32_wire(cd.field_data.len() as u32)
            &&& w.skip(16) == list_wire(|b: Seq<u8>| u32_wire(b.len() as u32) + b, cd.field_data)
        }),
{
    let w = component_delta_wire(cd);
    let wire = |b: Seq<u8>| blob_wire(b);
    lemma_little_endian(0, cd.entity.0);
    let plain = |b: Seq<u8>| u32_wire(b.len() as u32) + b;
    assert(wire =~= plain);
    assert(w.take(8) =~= u64_wire(cd.entity.0));
    assert(w.subrange(8, 12) =~= u32_wire(cd.component_type.0));
    assert(w.subrange(12, 16) =~= u32_wire(cd.field_data.len() as u32));
    assert(w.skip(16) =~= list_wire(wire, cd.field_data));
}

/// An event is the handle, the component type, the field, the payload behind its length, a
/// byte for the channel and a byte that tells whether a recipient follows.
pub proof fn lemma_event_form(ev: EventModel)
    ensures
        ({
            let w = event_wire(ev);
            let n = ev.payload.len() as int;
            &&& w.len() == 22 + n + (if ev.target_client is Some {
                8int
            } else {
                0
            })
            &&& w.take(8) == u64_wire(ev.entity.0)
            &&& w.subrange(8, 12) == u32_wire(ev.component_type.0)
            &&& w.subrange(12, 16) == u32_wire(ev.event_field)
            &&& w.subrange(16, 20) == u32_wire(ev.payload.len() as u32)
            &&& w.subrange(20, 20 + n) == ev.payload
            &&& w[20 + n] == 0 <==> ev.channel == EventChannel::ReliableOrdered
            &&& w[20 + n] == 1 <==> ev.channel == EventChannel::Unreliable
            &&& w[21 + n] == 0 <==> ev.target_client is None
            &&& w[21 + n] == 1 <==> ev.target_client is Some
            &&& ev.target_client matches Some(id) ==> w.skip(22 + n) == u64_wire(id.0)
        }),
{
    let w = event_wire(ev);
    let n = ev.payload.len() as int;
    lemma_little_endian(0, ev.entity.0);
    assert(w.take(8) =~= u64_wire(ev.entity.0));
    assert(w.subrange(8, 12) =~= u32_wire(ev.component_type.0));
    assert(w.subrange(12, 16) =~= u32_wire(ev.event_field));
    assert(w.subrange(16, 20) =~= u32_wire(ev.payload.len() as u32));
    assert(w.subrange(20, 20 + n) =~= ev.payload);
    match ev.target_client {
        Some(id) => {
            lemma_little_endian(0, id.0);
            assert(w.skip(22 + n) =~= u64_wire(id.0));
        },
        None => {},
    }
}

/// Any channel byte but zero is unreliable, and any presence byte but zero means that a
/// recipient follows. Without enough bytes there is no event.
pub proof fn lemma_route_is_read(s: Seq<u8>)
    ensures
        take_target(s) is Some <==> s.len() >= 1 && (s[0] != 0 ==> s.len() >= 9),
        take_target(s) matches Some((t, rest)) ==> {
            &&& t is None <==> s[0] == 0
            &&& s[0] == 0 ==> rest == s.skip(1)
            &&& s[0] != 0 ==> rest == s.skip(9) && Some(t.unwrap().0) == (match take_u64(s.skip(1)) {
                Some((x, _)) => Some(x),
                None => None,
            })
        },
        take_route(s) is Some <==> s.len() >= 2 && (s[1] != 0 ==> s.len() >= 10),
        take_route(s) matches Some(((c, t), rest)) ==> {
            &&& c == EventChannel::ReliableOrdered <==> s[0] == 0
            &&& c == EventChannel::Unreliable <==> s[0] != 0
            &&& t is None <==> s[1] == 0
            &&& s[1] == 0 ==> rest == s.skip(2)
            &&& s[1] != 0 ==> rest == s.skip(10)
        },
{
    if s.len() >= 1 {
        if s.len() >= 9 {
            assert(s.skip(1).skip(8) =~= s.skip(9));
        }
        if s.len() >= 2 {
            assert(s.skip(1)[0] == s[1]);
            assert(s.skip(1).skip(1) =~= s.skip(2));
            if s.len() >= 10 {
                assert(s.skip(2).skip(8) =~= s.skip(10));
            }
        }
    }
}

/// A field of a schema takes seven bytes: its index and its three codes.
pub proof fn lemma_field_form(f: FieldDescriptor)
    ensures
        field_wire(f).len() == 7,
        field_wire(f).take(4) == u32_wire(f.field_index),
        field_wire(f)[4] == encoding_code(f.encoding),
        field_wire(f)[5] == condition_code(f.condition),
        field_wire(f)[6] == event_channel_code(f.event_channel),
{
    assert(field_wire(f).take(4) =~= u32_wire(f.field_index));
}

proof fn lemma_fields_len(fields: Seq<FieldDescriptor>)
    ensures
        list_wire(|f: FieldDescriptor| field_wire(f), fields).len() == 7 * fields.len(),
    decreases fields.len(),
{
    if fields.len() > 0 {
        lemma_fields_len(fields.drop_last());
    }
}

/// A schema is its component type and its fields behind their count, in order. A handshake
/// is the schemas behind their count.
pub proof fn lemma_schema_form(m: SchemaModel, reg: Seq<SchemaModel>)
    ensures
        schema_wire(m).len() == 8 + 7 * m.fields.len(),
        schema_wire(m).take(4) == u32_wire(m.component_type.0),
        schema_wire(m).subrange(4, 8) == u32_wire(m.fields.len() as u32),
        schema_wire(m).skip(8) == list_wire(|f: FieldDescriptor| field_wire(f), m.fields),
        handshake_wire(reg).len() >= 4,
        handshake_wire(reg).take(4) == u32_wire(reg.len() as u32),
        handshake_wire(reg).skip(4) == list_wire(|m: SchemaModel| schema_wire(m), reg),
{
    let w = schema_wire(m);
    lemma_fields_len(m.fields);
    assert(w.take(4) =~= u32_wire(m.component_type.0));
    assert(w.subrange(4, 8) =~= u32_wire(m.fields.len() as u32));
    assert(w.skip(8) =~= list_wire(|f: FieldDescriptor| field_wire(f), m.fields));
    assert(handshake_wire(reg).take(4) =~= u32_wire(reg.len() as u32));
    assert(handshake_wire(reg).skip(4) =~= list_wire(|m: SchemaModel| schema_wire(m), reg));
}

/// A remote peer sees the same component types with the same fields, and has access to none.
pub proof fn lemma_what_peers_see(reg: Seq<SchemaModel>, i: int, k: int)
    requires
        0 <= i < reg.len(),
        0 <= k < reg[i].fields.len(),
    ensures
        remote_view(reg).len() == reg.len(),
        remote_view(reg)[i].component_type == reg[i].component_type,
        !remote_view(reg)[i].local,
        remote_view(reg)[i].fields.len() == reg[i].fields.len(),
        remote_view(reg)[i].fields[k].field_index == reg[i].fields[k].field_index,
        remote_view(reg)[i].fields[k].encoding == reg[i].fields[k].encoding,
        remote_view(reg)[i].fields[k].condition == reg[i].fields[k].condition,
        remote_view(reg)[i].fields[k].event_channel == reg[i].fields[k].event_channel,
        !remote_view(reg)[i].fields[k].accessible,
{
}

} // verus!
