//! The wire format of a frame delta.

use vstd::prelude::*;
use crate::component::ComponentId;
use crate::entity::Entity;
use crate::replication::types::{blobs, component_deltas, events, spawns, ClientId, ComponentDelta, ComponentDeltaModel, Delta, DeltaModel, EventChannel, EventModel, ReplicatedEvent};
use crate::replication::wire::{blob_wire, counted_wire, lemma_blob_reads_on, lemma_blob_round_trip, lemma_counted_reads_on, lemma_counted_round_trip, lemma_u32_reads_on, lemma_u32_round_trip, lemma_u64_reads_on, lemma_u64_round_trip, list_wire, put_blob, put_u32, put_u64, reads_on, take_blob, take_counted, take_list, take_u32, take_u64, take_u8, u32_wire, u64_wire, Reader};

verus! {

/// A spawn: the handle, then the blob that describes its archetype.
pub open spec fn spawn_wire(s: (Entity, Seq<u8>)) -> Seq<u8> {
    u64_wire(s.0.0) + blob_wire(s.1)
}

pub open spec fn take_spawn(s: Seq<u8>) -> Option<((Entity, Seq<u8>), Seq<u8>)> {
    match take_u64(s) {
        None => None,
        Some((bits, rest)) => match take_blob(rest) {
            None => None,
            Some((blob, rest)) => Some(((Entity(bits), blob), rest)),
        },
    }
}

/// A despawn: the handle.
pub open spec fn entity_wire(e: Entity) -> Seq<u8> {
    u64_wire(e.0)
}

pub open spec fn take_entity(s: Seq<u8>) -> Option<(Entity, Seq<u8>)> {
    match take_u64(s) {
        None => None,
        Some((bits, rest)) => Some((Entity(bits), rest)),
    }
}

/// A component delta: handle, component type, then the counted field blobs.
pub open spec fn component_delta_wire(cd: ComponentDeltaModel) -> Seq<u8> {
    u64_wire(cd.entity.0) + u32_wire(cd.component_type.0) + counted_wire(
        |b: Seq<u8>| blob_wire(b),
        cd.field_data,
    )
}

pub open spec fn take_component_delta(s: Seq<u8>) -> Option<(ComponentDeltaModel, Seq<u8>)> {
    match take_entity(s) {
        None => None,
        Some((entity, rest)) => match take_u32(rest) {
            None => None,
            Some((cid, rest)) => match take_counted(|s: Seq<u8>| take_blob(s), rest) {
                None => None,
                Some((field_data, rest)) => Some(
                    (
                        ComponentDeltaModel { entity, component_type: ComponentId(cid), field_data },
                        rest,
                    ),
                ),
            },
        },
    }
}

/// The channel byte of an event.
pub open spec fn channel_byte(c: EventChannel) -> u8 {
    match c {
        EventChannel::ReliableOrdered => 0,
        EventChannel::Unreliable => 1,
    }
}

/// The optional recipient of an event behind a presence byte.
pub open spec fn target_wire(t: Option<ClientId>) -> Seq<u8> {
    match t {
        None => seq![0u8],
        Some(id) => seq![1u8] + u64_wire(id.0),
    }
}

/// An event: handle, component type, field, payload blob, channel, recipient.
pub open spec fn event_wire(ev: EventModel) -> Seq<u8> {
    u64_wire(ev.entity.0) + u32_wire(ev.component_type.0) + u32_wire(ev.event_field) + blob_wire(
        ev.payload,
    ) + seq![channel_byte(ev.channel)] + target_wire(ev.target_client)
}

/// The optional recipient: any presence byte but zero means that one follows.
pub open spec fn take_target(s: Seq<u8>) -> Option<(Option<ClientId>, Seq<u8>)> {
    match take_u8(s) {
        None => None,
        Some((has_target, rest)) => if has_target == 0 {
            Some((None, rest))
        } else {
            match take_u64(rest) {
                None => None,
                Some((id, rest)) => Some((Some(ClientId(id)), rest)),
            }
        },
    }
}

/// The channel and the recipient; any channel byte but zero is unreliable.
pub open spec fn take_route(s: Seq<u8>) -> Option<((EventChannel, Option<ClientId>), Seq<u8>)> {
    match take_u8(s) {
        None => None,
        Some((b, rest)) => match take_target(rest) {
            None => None,
            Some((target, rest)) => Some(
                (
                    (
                        if b == 0 {
                            EventChannel::ReliableOrdered
                        } else {
                            EventChannel::Unreliable
                        },
                        target,
                    ),
                    rest,
                ),
            ),
        },
    }
}

pub open spec fn take_event(s: Seq<u8>) -> Option<(EventModel, Seq<u8>)> {
    match take_entity(s) {
        None => None,
        Some((entity, rest)) => match take_u32(rest) {
            None => None,
            Some((cid, rest)) => match take_u32(rest) {
                None => None,
                Some((event_field, rest)) => match take_blob(rest) {
                    None => None,
                    Some((payload, rest)) => match take_route(rest) {
                        None => None,
                        Some((route, rest)) => Some(
                            (
                                EventModel {
                                    entity,
                                    component_type: ComponentId(cid),
                                    event_field,
                                    payload,
                                    channel: route.0,
                                    target_client: route.1,
                                },
                                rest,
                            ),
                        ),
                    },
                },
            },
        },
    }
}

/// The bytes of a delta: both frame numbers, then the counted spawns,
/// despawns, component deltas and events.
pub open spec fn delta_wire(d: DeltaModel) -> Seq<u8> {
    u64_wire(d.frame) + u64_wire(d.base_frame) + counted_wire(
        |s: (Entity, Seq<u8>)| spawn_wire(s),
        d.spawned,
    ) + counted_wire(|e: Entity| entity_wire(e), d.despawned) + counted_wire(
        |cd: ComponentDeltaModel| component_delta_wire(cd),
        d.component_deltas,
    ) + counted_wire(|ev: EventModel| event_wire(ev), d.events)
}

/// The four lists of a delta, read from the front.
pub open spec fn take_lists(s: Seq<u8>) -> Option<
    (
        (Seq<(Entity, Seq<u8>)>, Seq<Entity>, Seq<ComponentDeltaModel>, Seq<EventModel>),
        Seq<u8>,
    ),
> {
    match take_counted(|s: Seq<u8>| take_spawn(s), s) {
        None => None,
        Some((spawned, rest)) => match take_counted(|s: Seq<u8>| take_entity(s), rest) {
            None => None,
            Some((despawned, rest)) => match take_counted(
                |s: Seq<u8>| take_component_delta(s),
                rest,
            ) {
                None => None,
                Some((deltas, rest)) => match take_counted(|s: Seq<u8>| take_event(s), rest) {
                    None => None,
                    Some((evs, rest)) => Some(((spawned, despawned, deltas, evs), rest)),
                },
            },
        },
    }
}

/// The delta at the front of a byte sequence. Bytes behind it do not matter.
pub open spec fn parse_delta(s: Seq<u8>) -> Option<DeltaModel> {
    match take_u64(s) {
        None => None,
        Some((frame, rest)) => match take_u64(rest) {
            None => None,
            Some((base_frame, rest)) => match take_lists(rest) {
                None => None,
                Some((l, _)) => Some(
                    DeltaModel {
                        frame,
                        base_frame,
                        spawned: l.0,
                        despawned: l.1,
                        component_deltas: l.2,
                        events: l.3,
                    },
                ),
            },
        },
    }
}

/// Every count and length in the delta fits the 32 bits it has on the wire.
pub open spec fn delta_fits(d: DeltaModel) -> bool {
    &&& d.spawned.len() <= u32::MAX
    &&& forall|i: int| 0 <= i < d.spawned.len() ==> (#[trigger] d.spawned[i]).1.len() <= u32::MAX
    &&& d.despawned.len() <= u32::MAX
    &&& d.component_deltas.len() <= u32::MAX
    &&& forall|i: int|
        0 <= i < d.component_deltas.len() ==> fields_fit(#[trigger] d.component_deltas[i])
    &&& d.events.len() <= u32::MAX
    &&& forall|i: int| 0 <= i < d.events.len() ==> (#[trigger] d.events[i]).payload.len() <= u32::MAX
}

/// The field count and every field length fit 32 bits.
pub open spec fn fields_fit(cd: ComponentDeltaModel) -> bool {
    &&& cd.field_data.len() <= u32::MAX
    &&& forall|i: int| 0 <= i < cd.field_data.len() ==> (#[trigger] cd.field_data[i]).len() <= u32::MAX
}

proof fn lemma_spawn_round_trip(s: (Entity, Seq<u8>), rest: Seq<u8>)
    requires
        s.1.len() <= u32::MAX,
    ensures
        take_spawn(spawn_wire(s) + rest) == Some((s, rest)),
{
    assert(spawn_wire(s) + rest =~= u64_wire(s.0.0) + (blob_wire(s.1) + rest));
    lemma_u64_round_trip(s.0.0, blob_wire(s.1) + rest);
    lemma_blob_round_trip(s.1, rest);
}

proof fn lemma_component_delta_round_trip(cd: ComponentDeltaModel, rest: Seq<u8>)
    requires
        fields_fit(cd),
    ensures
        take_component_delta(component_delta_wire(cd) + rest) == Some((cd, rest)),
{
    let wire = |b: Seq<u8>| blob_wire(b);
    let item = |s: Seq<u8>| take_blob(s);
    let fields = counted_wire(wire, cd.field_data) + rest;
    assert(component_delta_wire(cd) + rest =~= u64_wire(cd.entity.0) + (u32_wire(cd.component_type.0)
        + fields));
    lemma_u64_round_trip(cd.entity.0, u32_wire(cd.component_type.0) + fields);
    lemma_u32_round_trip(cd.component_type.0, fields);
    assert forall|i: int, r: Seq<u8>| 0 <= i < cd.field_data.len() implies #[trigger] item(
        wire(cd.field_data[i]) + r,
    ) == Some((cd.field_data[i], r)) by {
        lemma_blob_round_trip(cd.field_data[i], r);
    }
    lemma_counted_round_trip(item, wire, cd.field_data, rest);
}

proof fn lemma_route_round_trip(channel: EventChannel, target: Option<ClientId>, rest: Seq<u8>)
    ensures
        take_route(seq![channel_byte(channel)] + (target_wire(target) + rest)) == Some(((channel, target), rest)),
{
    let behind = target_wire(target) + rest;
    let s = seq![channel_byte(channel)] + behind;
    assert(s.skip(1) =~= behind);
    assert(s[0] == channel_byte(channel));
    match target {
        None => {
            assert(behind[0] == 0);
            assert(behind.skip(1) =~= rest);
        },
        Some(id) => {
            assert(behind[0] == 1);
            assert(behind.skip(1) =~= u64_wire(id.0) + rest);
            lemma_u64_round_trip(id.0, rest);
        },
    }
}

proof fn lemma_concat_regroup(a: Seq<u8>, b: Seq<u8>, c: Seq<u8>)
    ensures
        a + b + c == a + (b + c),
{
    assert(a + b + c =~= a + (b + c));
}

proof fn lemma_event_round_trip(ev: EventModel, rest: Seq<u8>)
    requires
        ev.payload.len() <= u32::MAX,
    ensures
        take_event(event_wire(ev) + rest) == Some((ev, rest)),
{
    let target = target_wire(ev.target_client);
    let channel = seq![channel_byte(ev.channel)];
    let payload = blob_wire(ev.payload);
    let field = u32_wire(ev.event_field);
    let cid = u32_wire(ev.component_type.0);
    let entity = u64_wire(ev.entity.0);
    let r5 = channel + (target + rest);
    let r4 = payload + r5;
    let r3 = field + r4;
    let r2 = cid + r3;
    lemma_concat_regroup(entity + cid + field + payload + channel, target, rest);
    lemma_concat_regroup(entity + cid + field + payload, channel, target + rest);
    lemma_concat_regroup(entity + cid + field, payload, r5);
    lemma_concat_regroup(entity + cid, field, r4);
    lemma_concat_regroup(entity, cid, r3);
    lemma_u64_round_trip(ev.entity.0, r2);
    lemma_u32_round_trip(ev.component_type.0, r3);
    lemma_u32_round_trip(ev.event_field, r4);
    lemma_blob_round_trip(ev.payload, r5);
    lemma_route_round_trip(ev.channel, ev.target_client, rest);
}

/// Reading a delta back from its bytes gives the delta that was written, also
/// when other bytes follow.
pub proof fn lemma_delta_round_trip(d: DeltaModel, rest: Seq<u8>)
    requires
        delta_fits(d),
    ensures
        parse_delta(delta_wire(d) + rest) == Some(d),
        take_lists((delta_wire(d) + rest).skip(16)) == Some(
            ((d.spawned, d.despawned, d.component_deltas, d.events), rest),
        ),
{
    let w1 = |s: (Entity, Seq<u8>)| spawn_wire(s);
    let w2 = |e: Entity| entity_wire(e);
    let w3 = |cd: ComponentDeltaModel| component_delta_wire(cd);
    let w4 = |ev: EventModel| event_wire(ev);
    let p1 = |s: Seq<u8>| take_spawn(s);
    let p2 = |s: Seq<u8>| take_entity(s);
    let p3 = |s: Seq<u8>| take_component_delta(s);
    let p4 = |s: Seq<u8>| take_event(s);
    let r4 = counted_wire(w4, d.events) + rest;
    let r3 = counted_wire(w3, d.component_deltas) + r4;
    let r2 = counted_wire(w2, d.despawned) + r3;
    let r1 = counted_wire(w1, d.spawned) + r2;
    let c1 = counted_wire(w1, d.spawned);
    let c2 = counted_wire(w2, d.despawned);
    let c3 = counted_wire(w3, d.component_deltas);
    let c4 = counted_wire(w4, d.events);
    let f = u64_wire(d.frame);
    let b = u64_wire(d.base_frame);
    lemma_concat_regroup(f + b + c1 + c2 + c3, c4, rest);
    lemma_concat_regroup(f + b + c1 + c2, c3, r4);
    lemma_concat_regroup(f + b + c1, c2, r3);
    lemma_concat_regroup(f + b, c1, r2);
    lemma_concat_regroup(f, b, r1);
    lemma_u64_round_trip(d.frame, u64_wire(d.base_frame) + r1);
    lemma_u64_round_trip(d.base_frame, r1);
    assert forall|i: int, r: Seq<u8>| 0 <= i < d.spawned.len() implies #[trigger] p1(w1(d.spawned[i]) + r)
        == Some((d.spawned[i], r)) by {
        lemma_spawn_round_trip(d.spawned[i], r);
    }
    lemma_counted_round_trip(p1, w1, d.spawned, r2);
    assert forall|i: int, r: Seq<u8>| 0 <= i < d.despawned.len() implies #[trigger] p2(
        w2(d.despawned[i]) + r,
    ) == Some((d.despawned[i], r)) by {
        lemma_u64_round_trip(d.despawned[i].0, r);
    }
    lemma_counted_round_trip(p2, w2, d.despawned, r3);
    assert forall|i: int, r: Seq<u8>| 0 <= i < d.component_deltas.len() implies #[trigger] p3(
        w3(d.component_deltas[i]) + r,
    ) == Some((d.component_deltas[i], r)) by {
        lemma_component_delta_round_trip(d.component_deltas[i], r);
    }
    lemma_counted_round_trip(p3, w3, d.component_deltas, r4);
    assert forall|i: int, r: Seq<u8>| 0 <= i < d.events.len() implies #[trigger] p4(w4(d.events[i]) + r)
        == Some((d.events[i], r)) by {
        lemma_event_round_trip(d.events[i], r);
    }
    lemma_counted_round_trip(p4, w4, d.events, rest);
    assert((delta_wire(d) + rest).skip(16) =~= r1);
}

proof fn lemma_spawn_reads_on(s: Seq<u8>, t: Seq<u8>)
    requires
        take_spawn(s) is Some,
    ensures
        take_spawn(s + t) == Some((take_spawn(s).unwrap().0, take_spawn(s).unwrap().1 + t)),
{
    lemma_u64_reads_on(s, t);
    lemma_blob_reads_on(s.skip(8), t);
}

proof fn lemma_component_delta_reads_on(s: Seq<u8>, t: Seq<u8>)
    requires
        take_component_delta(s) is Some,
    ensures
        take_component_delta(s + t) == Some((take_component_delta(s).unwrap().0, take_component_delta(s).unwrap().1 + t)),
{
    let item = |s: Seq<u8>| take_blob(s);
    lemma_u64_reads_on(s, t);
    lemma_u32_reads_on(s.skip(8), t);
    assert forall|a: Seq<u8>, b: Seq<u8>| item(a) is Some implies #[trigger] item(a + b) == Some(
        (item(a).unwrap().0, item(a).unwrap().1 + b),
    ) by {
        lemma_blob_reads_on(a, b);
    }
    assert(reads_on(item));
    lemma_counted_reads_on(item, s.skip(8).skip(4), t);
}

proof fn lemma_route_reads_on(s: Seq<u8>, t: Seq<u8>)
    requires
        take_route(s) is Some,
    ensures
        take_route(s + t) == Some((take_route(s).unwrap().0, take_route(s).unwrap().1 + t)),
{
    assert((s + t).skip(1) =~= s.skip(1) + t);
    let behind = s.skip(1);
    assert((behind + t).skip(1) =~= behind.skip(1) + t);
    if behind[0] != 0 {
        lemma_u64_reads_on(behind.skip(1), t);
    }
}

proof fn lemma_event_reads_on(s: Seq<u8>, t: Seq<u8>)
    requires
        take_event(s) is Some,
    ensures
        take_event(s + t) == Some((take_event(s).unwrap().0, take_event(s).unwrap().1 + t)),
{
    lemma_u64_reads_on(s, t);
    let r1 = s.skip(8);
    lemma_u32_reads_on(r1, t);
    let r2 = r1.skip(4);
    lemma_u32_reads_on(r2, t);
    let r3 = r2.skip(4);
    lemma_blob_reads_on(r3, t);
    let r4 = take_blob(r3).unwrap().1;
    lemma_route_reads_on(r4, t);
}

proof fn lemma_lists_read_on(s: Seq<u8>, t: Seq<u8>)
    requires
        take_lists(s) is Some,
    ensures
        take_lists(s + t) == Some((take_lists(s).unwrap().0, take_lists(s).unwrap().1 + t)),
{
    let p1 = |s: Seq<u8>| take_spawn(s);
    let p2 = |s: Seq<u8>| take_entity(s);
    let p3 = |s: Seq<u8>| take_component_delta(s);
    let p4 = |s: Seq<u8>| take_event(s);
    assert forall|a: Seq<u8>, b: Seq<u8>| p1(a) is Some implies #[trigger] p1(a + b) == Some(
        (p1(a).unwrap().0, p1(a).unwrap().1 + b),
    ) by {
        lemma_spawn_reads_on(a, b);
    }
    assert forall|a: Seq<u8>, b: Seq<u8>| p2(a) is Some implies #[trigger] p2(a + b) == Some(
        (p2(a).unwrap().0, p2(a).unwrap().1 + b),
    ) by {
        lemma_u64_reads_on(a, b);
    }
    assert forall|a: Seq<u8>, b: Seq<u8>| p3(a) is Some implies #[trigger] p3(a + b) == Some(
        (p3(a).unwrap().0, p3(a).unwrap().1 + b),
    ) by {
        lemma_component_delta_reads_on(a, b);
    }
    assert forall|a: Seq<u8>, b: Seq<u8>| p4(a) is Some implies #[trigger] p4(a + b) == Some(
        (p4(a).unwrap().0, p4(a).unwrap().1 + b),
    ) by {
        lemma_event_reads_on(a, b);
    }
    assert(reads_on(p1) && reads_on(p2) && reads_on(p3) && reads_on(p4));
    lemma_counted_reads_on(p1, s, t);
    let r1 = take_counted(p1, s).unwrap().1;
    lemma_counted_reads_on(p2, r1, t);
    let r2 = take_counted(p2, r1).unwrap().1;
    lemma_counted_reads_on(p3, r2, t);
    let r3 = take_counted(p3, r2).unwrap().1;
    lemma_counted_reads_on(p4, r3, t);
}

/// A delta is read from its two frame numbers and its lists.
proof fn lemma_parsed_lists(s: Seq<u8>)
    requires
        parse_delta(s) is Some,
    ensures
        s.len() >= 16,
        take_lists(s.skip(16)) is Some,
{
    assert(s.skip(8).skip(8) =~= s.skip(16));
}

proof fn lemma_delta_lists(d: DeltaModel)
    requires
        delta_fits(d),
    ensures
        take_lists(delta_wire(d).skip(16)) == Some(
            ((d.spawned, d.despawned, d.component_deltas, d.events), Seq::<u8>::empty()),
        ),
{
    lemma_delta_round_trip(d, Seq::empty());
    assert(delta_wire(d) + Seq::<u8>::empty() =~= delta_wire(d));
}

proof fn lemma_cut_lists(head: Seq<u8>, tail: Seq<u8>)
    requires
        tail.len() > 0,
        take_lists(head + tail) matches Some((_, left)) && left.len() == 0,
    ensures
        take_lists(head) is None,
{
    if take_lists(head) is Some {
        lemma_lists_read_on(head, tail);
        let left = take_lists(head).unwrap().1;
        assert((left + tail).len() >= tail.len());
    }
}

/// The bytes of a delta that are cut off anywhere are refused.
pub proof fn lemma_cut_delta_is_refused(d: DeltaModel, k: int)
    requires
        delta_fits(d),
        0 <= k < delta_wire(d).len(),
    ensures
        parse_delta(delta_wire(d).take(k)) is None,
{
    let whole = delta_wire(d);
    let head = whole.take(k);
    if parse_delta(head) is Some {
        lemma_parsed_lists(head);
        lemma_delta_lists(d);
        assert(head.skip(16) + whole.skip(k) =~= whole.skip(16));
        lemma_cut_lists(head.skip(16), whole.skip(k));
    }
}

/// Reading back the exact bytes of a delta gives that delta.
pub proof fn lemma_delta_bytes_round_trip(d: DeltaModel)
    requires
        delta_fits(d),
    ensures
        parse_delta(delta_wire(d)) == Some(d),
{
    lemma_delta_round_trip(d, Seq::empty());
    assert(delta_wire(d) + Seq::<u8>::empty() =~= delta_wire(d));
}

/// How many items to make room for: a count from the wire may claim more than
/// the bytes that follow can hold, and every item takes at least one byte.
fn capped(count: u32, remaining: usize) -> (n: usize)
    ensures
        n == (if count <= remaining {
            count as int
        } else {
            remaining as int
        }),
{
    if count as usize <= remaining {
        count as usize
    } else {
        remaining
    }
}

/// Reads one spawn.
fn read_spawn(r: &mut Reader<'_>) -> (out: Option<(Entity, Vec<u8>)>)
    requires
        old(r).well_formed(),
    ensures
        final(r).well_formed(),
        match take_spawn(old(r).rest()) {
            None => out is None,
            Some((x, rest)) => out matches Some(v) && (v.0, v.1@) == x && final(r).rest() == rest,
        },
{
    let bits: u64 = match r.read_u64() {
        None => {
            return None;
        },
        Some(x) => x,
    };
    match r.read_blob() {
        None => None,
        Some(blob) => Some((Entity::from_bits(bits), blob)),
    }
}

/// Reads one handle.
fn read_entity(r: &mut Reader<'_>) -> (out: Option<Entity>)
    requires
        old(r).well_formed(),
    ensures
        final(r).well_formed(),
        match take_entity(old(r).rest()) {
            None => out is None,
            Some((x, rest)) => out == Some(x) && final(r).rest() == rest,
        },
{
    match r.read_u64() {
        None => None,
        Some(bits) => Some(Entity::from_bits(bits)),
    }
}

/// Reads counted blobs.
fn read_blobs(r: &mut Reader<'_>) -> (out: Option<Vec<Vec<u8>>>)
    requires
        old(r).well_formed(),
    ensures
        final(r).well_formed(),
        match take_counted(|s: Seq<u8>| take_blob(s), old(r).rest()) {
            None => out is None,
            Some((xs, rest)) => out matches Some(v) && blobs(v@) == xs && final(r).rest() == rest,
        },
{
    let ghost item = |s: Seq<u8>| take_blob(s);
    let ghost goal = take_counted(item, r.rest());
    let count: u32 = match r.read_u32() {
        None => {
            return None;
        },
        Some(n) => n,
    };
    let mut out: Vec<Vec<u8>> = Vec::with_capacity(capped(count, r.remaining()));
    let mut i: u32 = 0;
    proof {
        assert(blobs(out@) =~= Seq::<Seq<u8>>::empty());
    }
    while i < count
        invariant
            i <= count,
            r.well_formed(),
            item == (|s: Seq<u8>| take_blob(s)),
            goal == take_counted(item, old(r).rest()),
            goal == take_list(item, (count - i) as nat, blobs(out@), r.rest()),
        decreases count - i,
    {
        let ghost before = blobs(out@);
        match r.read_blob() {
            None => {
                return None;
            },
            Some(b) => {
                out.push(b);
                proof {
                    assert(blobs(out@) =~= before.push(b@));
                }
            },
        }
        i = i + 1;
    }
    Some(out)
}

/// Reads one component delta.
fn read_component_delta(r: &mut Reader<'_>) -> (out: Option<ComponentDelta>)
    requires
        old(r).well_formed(),
    ensures
        final(r).well_formed(),
        match take_component_delta(old(r).rest()) {
            None => out is None,
            Some((x, rest)) => out matches Some(v) && v@ == x && final(r).rest() == rest,
        },
{
    let entity = match read_entity(r) {
        None => {
            return None;
        },
        Some(e) => e,
    };
    let cid: u32 = match r.read_u32() {
        None => {
            return None;
        },
        Some(c) => c,
    };
    match read_blobs(r) {
        None => None,
        Some(field_data) => Some(
            ComponentDelta { entity, component_type: ComponentId(cid), field_data },
        ),
    }
}

/// Reads the channel and the recipient of an event.
fn read_route(r: &mut Reader<'_>) -> (out: Option<(EventChannel, Option<ClientId>)>)
    requires
        old(r).well_formed(),
    ensures
        final(r).well_formed(),
        match take_route(old(r).rest()) {
            None => out is None,
            Some((x, rest)) => out == Some(x) && final(r).rest() == rest,
        },
{
    let channel = match r.read_u8() {
        None => {
            return None;
        },
        Some(b) => if b == 0 {
            EventChannel::ReliableOrdered
        } else {
            EventChannel::Unreliable
        },
    };
    match r.read_u8() {
        None => None,
        Some(has_target) => if has_target == 0 {
            Some((channel, None))
        } else {
            match r.read_u64() {
                None => None,
                Some(id) => Some((channel, Some(ClientId(id)))),
            }
        },
    }
}

/// Reads one event.
fn read_event(r: &mut Reader<'_>) -> (out: Option<ReplicatedEvent>)
    requires
        old(r).well_formed(),
    ensures
        final(r).well_formed(),
        match take_event(old(r).rest()) {
            None => out is None,
            Some((x, rest)) => out matches Some(v) && v@ == x && final(r).rest() == rest,
        },
{
    let entity = match read_entity(r) {
        None => {
            return None;
        },
        Some(e) => e,
    };
    let cid: u32 = match r.read_u32() {
        None => {
            return None;
        },
        Some(c) => c,
    };
    let event_field: u32 = match r.read_u32() {
        None => {
            return None;
        },
        Some(f) => f,
    };
    let payload = match r.read_blob() {
        None => {
            return None;
        },
        Some(p) => p,
    };
    match read_route(r) {
        None => None,
        Some((channel, target_client)) => Some(
            ReplicatedEvent {
                entity,
                component_type: ComponentId(cid),
                event_field,
                payload,
                channel,
                target_client,
            },
        ),
    }
}

/// Reads the counted spawns.
fn read_spawned(r: &mut Reader<'_>) -> (out: Option<Vec<(Entity, Vec<u8>)>>)
    requires
        old(r).well_formed(),
    ensures
        final(r).well_formed(),
        match take_counted(|s: Seq<u8>| take_spawn(s), old(r).rest()) {
            None => out is None,
            Some((xs, rest)) => out matches Some(v) && spawns(v@) == xs && final(r).rest() == rest,
        },
{
    let ghost item = |s: Seq<u8>| take_spawn(s);
    let ghost goal = take_counted(item, r.rest());
    let count: u32 = match r.read_u32() {
        None => {
            return None;
        },
        Some(n) => n,
    };
    let mut out: Vec<(Entity, Vec<u8>)> = Vec::with_capacity(capped(count, r.remaining()));
    let mut i: u32 = 0;
    proof {
        assert(spawns(out@) =~= Seq::<(Entity, Seq<u8>)>::empty());
    }
    while i < count
        invariant
            i <= count,
            r.well_formed(),
            item == (|s: Seq<u8>| take_spawn(s)),
            goal == take_counted(item, old(r).rest()),
            goal == take_list(item, (count - i) as nat, spawns(out@), r.rest()),
        decreases count - i,
    {
        let ghost before = spawns(out@);
        match read_spawn(r) {
            None => {
                return None;
            },
            Some(x) => {
                out.push(x);
                proof {
                    assert(spawns(out@) =~= before.push((x.0, x.1@)));
                }
            },
        }
        i = i + 1;
    }
    Some(out)
}

/// Reads the counted component deltas.
fn read_component_deltas(r: &mut Reader<'_>) -> (out: Option<Vec<ComponentDelta>>)
    requires
        old(r).well_formed(),
    ensures
        final(r).well_formed(),
        match take_counted(|s: Seq<u8>| take_component_delta(s), old(r).rest()) {
            None => out is None,
            Some((xs, rest)) => out matches Some(v) && component_deltas(v@) == xs && final(r).rest() == rest,
        },
{
    let ghost item = |s: Seq<u8>| take_component_delta(s);
    let ghost goal = take_counted(item, r.rest());
    let count: u32 = match r.read_u32() {
        None => {
            return None;
        },
        Some(n) => n,
    };
    let mut out: Vec<ComponentDelta> = Vec::with_capacity(capped(count, r.remaining()));
    let mut i: u32 = 0;
    proof {
        assert(component_deltas(out@) =~= Seq::<ComponentDeltaModel>::empty());
    }
    while i < count
        invariant
            i <= count,
            r.well_formed(),
            item == (|s: Seq<u8>| take_component_delta(s)),
            goal == take_counted(item, old(r).rest()),
            goal == take_list(item, (count - i) as nat, component_deltas(out@), r.rest()),
        decreases count - i,
    {
        let ghost before = component_deltas(out@);
        match read_component_delta(r) {
            None => {
                return None;
            },
            Some(x) => {
                out.push(x);
                proof {
                    assert(component_deltas(out@) =~= before.push(x@));
                }
            },
        }
        i = i + 1;
    }
    Some(out)
}

/// Reads the counted events.
fn read_events(r: &mut Reader<'_>) -> (out: Option<Vec<ReplicatedEvent>>)
    requires
        old(r).well_formed(),
    ensures
        final(r).well_formed(),
        match take_counted(|s: Seq<u8>| take_event(s), old(r).rest()) {
            None => out is None,
            Some((xs, rest)) => out matches Some(v) && events(v@) == xs && final(r).rest() == rest,
        },
{
    let ghost item = |s: Seq<u8>| take_event(s);
    let ghost goal = take_counted(item, r.rest());
    let count: u32 = match r.read_u32() {
        None => {
            return None;
        },
        Some(n) => n,
    };
    let mut out: Vec<ReplicatedEvent> = Vec::with_capacity(capped(count, r.remaining()));
    let mut i: u32 = 0;
    proof {
        assert(events(out@) =~= Seq::<EventModel>::empty());
    }
    while i < count
        invariant
            i <= count,
            r.well_formed(),
            item == (|s: Seq<u8>| take_event(s)),
            goal == take_counted(item, old(r).rest()),
            goal == take_list(item, (count - i) as nat, events(out@), r.rest()),
        decreases count - i,
    {
        let ghost before = events(out@);
        match read_event(r) {
            None => {
                return None;
            },
            Some(x) => {
                out.push(x);
                proof {
                    assert(events(out@) =~= before.push(x@));
                }
            },
        }
        i = i + 1;
    }
    Some(out)
}

/// Reads the counted despawns.
fn read_despawned(r: &mut Reader<'_>) -> (out: Option<Vec<Entity>>)
    requires
        old(r).well_formed(),
    ensures
        final(r).well_formed(),
        match take_counted(|s: Seq<u8>| take_entity(s), old(r).rest()) {
            None => out is None,
            Some((xs, rest)) => out matches Some(v) && v@ == xs && final(r).rest() == rest,
        },
{
    let ghost item = |s: Seq<u8>| take_entity(s);
    let ghost goal = take_counted(item, r.rest());
    let count: u32 = match r.read_u32() {
        None => {
            return None;
        },
        Some(n) => n,
    };
    let mut out: Vec<Entity> = Vec::with_capacity(capped(count, r.remaining()));
    let mut i: u32 = 0;
    proof {
        assert(out@ =~= Seq::<Entity>::empty());
    }
    while i < count
        invariant
            i <= count,
            r.well_formed(),
            item == (|s: Seq<u8>| take_entity(s)),
            goal == take_counted(item, old(r).rest()),
            goal == take_list(item, (count - i) as nat, out@, r.rest()),
        decreases count - i,
    {
        let ghost before = out@;
        match read_entity(r) {
            None => {
                return None;
            },
            Some(x) => {
                out.push(x);
                proof {
                    assert(out@ =~= before.push(x));
                }
            },
        }
        i = i + 1;
    }
    Some(out)
}

impl Delta {
    /// The bytes of this delta for network transport: both frame numbers as
    /// `u64`, then each list behind its `u32` count, all little-endian.
    pub fn to_bytes(&self) -> (bytes: Vec<u8>)
        ensures
            bytes@ == delta_wire(self@),
    {
        let mut buf: Vec<u8> = Vec::new();
        put_u64(&mut buf, self.frame);
        put_u64(&mut buf, self.base_frame);
        put_spawned(&mut buf, &self.spawned);
        put_despawned(&mut buf, &self.despawned);
        put_component_deltas(&mut buf, &self.component_deltas);
        put_events(&mut buf, &self.events);
        proof {
            assert(buf@ =~= delta_wire(self@));
        }
        buf
    }

    /// Reads a delta back from bytes that [`Delta::to_bytes`] made. Returns
    /// `None` if the bytes end before the delta does.
    pub fn from_bytes(bytes: &[u8]) -> (out: Option<Delta>)
        ensures
            match parse_delta(bytes@) {
                None => out is None,
                Some(m) => out matches Some(d) && d@ == m,
            },
    {
        let mut r = Reader::new(bytes);
        let frame: u64 = match r.read_u64() {
            None => {
                return None;
            },
            Some(x) => x,
        };
        let base_frame: u64 = match r.read_u64() {
            None => {
                return None;
            },
            Some(x) => x,
        };
        let spawned = match read_spawned(&mut r) {
            None => {
                return None;
            },
            Some(v) => v,
        };
        let despawned = match read_despawned(&mut r) {
            None => {
                return None;
            },
            Some(v) => v,
        };
        let component_deltas = match read_component_deltas(&mut r) {
            None => {
                return None;
            },
            Some(v) => v,
        };
        match read_events(&mut r) {
            None => None,
            Some(events) => Some(
                Delta { frame, base_frame, spawned, despawned, component_deltas, events },
            ),
        }
    }
}

/// Appends the counted spawns.
fn put_spawned(buf: &mut Vec<u8>, items: &Vec<(Entity, Vec<u8>)>)
    ensures
        final(buf)@ == old(buf)@ + counted_wire(|x: (Entity, Seq<u8>)| spawn_wire(x), spawns(items@)),
{
    let ghost wire = |x: (Entity, Seq<u8>)| spawn_wire(x);
    let ghost all = spawns(items@);
    put_u32(buf, items.len() as u32);
    let ghost start = buf@;
    let mut i: usize = 0;
    proof {
        assert(all.subrange(0, 0) =~= Seq::<(Entity, Seq<u8>)>::empty());
        assert(start =~= start + list_wire(wire, all.subrange(0, 0)));
    }
    while i < items.len()
        invariant
            i <= items.len(),
            all == spawns(items@),
            wire == (|x: (Entity, Seq<u8>)| spawn_wire(x)),
            buf@ == start + list_wire(wire, all.subrange(0, i as int)),
        decreases items.len() - i,
    {
        put_u64(buf, items[i].0.bits());
        put_blob(buf, items[i].1.as_slice());
        proof {
            let upto = all.subrange(0, i + 1);
            assert(upto.drop_last() =~= all.subrange(0, i as int));
            assert(upto.last() == (items@[i as int].0, items@[i as int].1@));
            assert(buf@ =~= start + list_wire(wire, upto));
        }
        i = i + 1;
    }
    proof {
        assert(all.subrange(0, all.len() as int) =~= all);
        assert(buf@ =~= old(buf)@ + counted_wire(wire, all));
    }
}

/// Appends the counted despawns.
fn put_despawned(buf: &mut Vec<u8>, items: &Vec<Entity>)
    ensures
        final(buf)@ == old(buf)@ + counted_wire(|x: Entity| entity_wire(x), items@),
{
    let ghost wire = |x: Entity| entity_wire(x);
    let ghost all = items@;
    put_u32(buf, items.len() as u32);
    let ghost start = buf@;
    let mut i: usize = 0;
    proof {
        assert(all.subrange(0, 0) =~= Seq::<Entity>::empty());
        assert(start =~= start + list_wire(wire, all.subrange(0, 0)));
    }
    while i < items.len()
        invariant
            i <= items.len(),
            all == items@,
            wire == (|x: Entity| entity_wire(x)),
            buf@ == start + list_wire(wire, all.subrange(0, i as int)),
        decreases items.len() - i,
    {
        put_u64(buf, items[i].bits());
        proof {
            let upto = all.subrange(0, i + 1);
            assert(upto.drop_last() =~= all.subrange(0, i as int));
            assert(upto.last() == items@[i as int]);
            assert(buf@ =~= start + list_wire(wire, upto));
        }
        i = i + 1;
    }
    proof {
        assert(all.subrange(0, all.len() as int) =~= all);
        assert(buf@ =~= old(buf)@ + counted_wire(wire, all));
    }
}

/// Appends the counted blobs.
fn put_blobs(buf: &mut Vec<u8>, items: &Vec<Vec<u8>>)
    ensures
        final(buf)@ == old(buf)@ + counted_wire(|x: Seq<u8>| blob_wire(x), blobs(items@)),
{
    let ghost wire = |x: Seq<u8>| blob_wire(x);
    let ghost all = blobs(items@);
    put_u32(buf, items.len() as u32);
    let ghost start = buf@;
    let mut i: usize = 0;
    proof {
        assert(all.subrange(0, 0) =~= Seq::<Seq<u8>>::empty());
        assert(start =~= start + list_wire(wire, all.subrange(0, 0)));
    }
    while i < items.len()
        invariant
            i <= items.len(),
            all == blobs(items@),
            wire == (|x: Seq<u8>| blob_wire(x)),
            buf@ == start + list_wire(wire, all.subrange(0, i as int)),
        decreases items.len() - i,
    {
        put_blob(buf, items[i].as_slice());
        proof {
            let upto = all.subrange(0, i + 1);
            assert(upto.drop_last() =~= all.subrange(0, i as int));
            assert(upto.last() == items@[i as int]@);
            assert(buf@ =~= start + list_wire(wire, upto));
        }
        i = i + 1;
    }
    proof {
        assert(all.subrange(0, all.len() as int) =~= all);
        assert(buf@ =~= old(buf)@ + counted_wire(wire, all));
    }
}

/// Appends the counted component deltas.
fn put_component_deltas(buf: &mut Vec<u8>, items: &Vec<ComponentDelta>)
    ensures
        final(buf)@ == old(buf)@ + counted_wire(|x: ComponentDeltaModel| component_delta_wire(x), component_deltas(items@)),
{
    let ghost wire = |x: ComponentDeltaModel| component_delta_wire(x);
    let ghost all = component_deltas(items@);
    put_u32(buf, items.len() as u32);
    let ghost start = buf@;
    let mut i: usize = 0;
    proof {
        assert(all.subrange(0, 0) =~= Seq::<ComponentDeltaModel>::empty());
        assert(start =~= start + list_wire(wire, all.subrange(0, 0)));
    }
    while i < items.len()
        invariant
            i <= items.len(),
            all == component_deltas(items@),
            wire == (|x: ComponentDeltaModel| component_delta_wire(x)),
            buf@ == start + list_wire(wire, all.subrange(0, i as int)),
        decreases items.len() - i,
    {
        put_u64(buf, items[i].entity.bits());
        put_u32(buf, items[i].component_type.0);
        put_blobs(buf, &items[i].field_data);
        proof {
            let upto = all.subrange(0, i + 1);
            assert(upto.drop_last() =~= all.subrange(0, i as int));
            assert(upto.last() == items@[i as int]@);
            assert(buf@ =~= start + list_wire(wire, upto));
        }
        i = i + 1;
    }
    proof {
        assert(all.subrange(0, all.len() as int) =~= all);
        assert(buf@ =~= old(buf)@ + counted_wire(wire, all));
    }
}

/// Appends one event.
fn put_event(buf: &mut Vec<u8>, ev: &ReplicatedEvent)
    ensures
        final(buf)@ == old(buf)@ + event_wire(ev@),
{
    put_u64(buf, ev.entity.bits());
    put_u32(buf, ev.component_type.0);
    put_u32(buf, ev.event_field);
    put_blob(buf, ev.payload.as_slice());
    match ev.channel {
        EventChannel::ReliableOrdered => {
            buf.push(0);
        },
        EventChannel::Unreliable => {
            buf.push(1);
        },
    }
    match ev.target_client {
        Some(id) => {
            buf.push(1);
            put_u64(buf, id.0);
        },
        None => {
            buf.push(0);
        },
    }
    proof {
        assert(buf@ =~= old(buf)@ + event_wire(ev@));
    }
}

/// Appends the counted events.
fn put_events(buf: &mut Vec<u8>, items: &Vec<ReplicatedEvent>)
    ensures
        final(buf)@ == old(buf)@ + counted_wire(|x: EventModel| event_wire(x), events(items@)),
{
    let ghost wire = |x: EventModel| event_wire(x);
    let ghost all = events(items@);
    put_u32(buf, items.len() as u32);
    let ghost start = buf@;
    let mut i: usize = 0;
    proof {
        assert(all.subrange(0, 0) =~= Seq::<EventModel>::empty());
        assert(start =~= start + list_wire(wire, all.subrange(0, 0)));
    }
    while i < items.len()
        invariant
            i <= items.len(),
            all == events(items@),
            wire == (|x: EventModel| event_wire(x)),
            buf@ == start + list_wire(wire, all.subrange(0, i as int)),
        decreases items.len() - i,
    {
        put_event(buf, &items[i]);
        proof {
            let upto = all.subrange(0, i + 1);
            assert(upto.drop_last() =~= all.subrange(0, i as int));
            assert(upto.last() == items@[i as int]@);
            assert(buf@ =~= start + list_wire(wire, upto));
        }
        i = i + 1;
    }
    proof {
        assert(all.subrange(0, all.len() as int) =~= all);
        assert(buf@ =~= old(buf)@ + counted_wire(wire, all));
    }
}

} // verus!
