//! Replication: tracking, schemas, encodings, relevance, authority, events,
//! snapshots, prediction and the wire formats.

use pulsar_scenedb::cell::CellStorage;
use pulsar_scenedb::component::ComponentId;
use pulsar_scenedb::entity::Entity;
use pulsar_scenedb::replication::authority::AuthorityTable;
use pulsar_scenedb::replication::cell_map::EntityCellMap;
use pulsar_scenedb::replication::compressor::DeltaCompressor;
use pulsar_scenedb::replication::encoding::{
    decode_archetype_key, decode_field_value, encode_archetype_key, encode_field_value, encode_pod_raw, CopyCodec,
    UnboundCodec,
};
use pulsar_scenedb::replication::event_batch::{can_send_event, events_to_batch, EventBatch};
use pulsar_scenedb::replication::reconciler::{ClientInput, Reconciler};
use pulsar_scenedb::replication::relevance::{condition_passes, DeltaView, RelevanceSet, NULL_ROW};
use pulsar_scenedb::replication::replicable::Replicable;
use pulsar_scenedb::replication::schema::{
    encoding_to_u8, FieldDescriptor, ReplicationRegistry, ReplicationSchema, SchemaBuilder,
};
use pulsar_scenedb::replication::snapshot::{CellRowSnapshot, Snapshot};
use pulsar_scenedb::replication::tracker::ChangeTracker;
use pulsar_scenedb::replication::types::{
    ClientId, ComponentDelta, Delta, ErrorCode, EventChannel, Ownership, ReplicatedEvent, ReplicationCondition,
    ReplicationEncoding,
};
use pulsar_scenedb::replication::witness::CpuSimulateWitness;
use pulsar_scenedb::world::World;
use rand::rngs::StdRng;
use rand::{Rng, SeedableRng};

/// A component that is a float, held as its bits.
const F32: ComponentId = ComponentId(11);
const TRANSFORM: ComponentId = ComponentId(12);
const INSTANCE_INFO: ComponentId = ComponentId(13);

fn make_entity(index: u32, gen: u32) -> Entity {
    Entity::new(index, gen)
}

fn test_schema(component_type: ComponentId) -> ReplicationSchema {
    ReplicationSchema { component_type, fields: vec![], local: false }
}

fn random_encoding(rng: &mut impl Rng) -> ReplicationEncoding {
    match rng.gen_range(0..5) {
        0 => ReplicationEncoding::Pod,
        1 => ReplicationEncoding::Serialized,
        2 => ReplicationEncoding::GpuHandle,
        3 => ReplicationEncoding::DeltaCompressed,
        _ => ReplicationEncoding::Event,
    }
}

fn random_condition(rng: &mut impl Rng) -> ReplicationCondition {
    match rng.gen_range(0..11) {
        0 => ReplicationCondition::Always,
        1 => ReplicationCondition::OwnerOnly,
        2 => ReplicationCondition::SkipOwner,
        3 => ReplicationCondition::SimulatedOnly,
        4 => ReplicationCondition::AutonomousOnly,
        5 => ReplicationCondition::InitialOnly,
        6 => ReplicationCondition::ServerAuthority,
        7 => ReplicationCondition::ClientAuthority,
        8 => ReplicationCondition::ServerToClient,
        9 => ReplicationCondition::ClientToServer,
        _ => ReplicationCondition::Multicast,
    }
}

fn random_bytes(rng: &mut impl Rng, max_len: usize) -> Vec<u8> {
    let len = rng.gen_range(0..=max_len);
    (0..len).map(|_| rng.gen()).collect()
}

fn random_entity(rng: &mut impl Rng) -> Entity {
    make_entity(rng.gen_range(0..1000), rng.gen_range(0..10))
}

fn random_delta(rng: &mut impl Rng) -> Delta {
    let spawned = (0..rng.gen_range(0..5))
        .map(|_| (random_entity(rng), random_bytes(rng, 20)))
        .collect();
    let despawned = (0..rng.gen_range(0..5)).map(|_| random_entity(rng)).collect();
    let component_deltas = (0..rng.gen_range(0..5))
        .map(|_| ComponentDelta {
            entity: random_entity(rng),
            component_type: ComponentId(rng.gen_range(0..50)),
            field_data: (0..rng.gen_range(0..4)).map(|_| random_bytes(rng, 16)).collect(),
        })
        .collect();
    let events = (0..rng.gen_range(0..5))
        .map(|_| ReplicatedEvent {
            entity: random_entity(rng),
            component_type: ComponentId(rng.gen_range(0..50)),
            event_field: rng.gen_range(0..10),
            payload: random_bytes(rng, 20),
            channel: if rng.gen_bool(0.5) { EventChannel::ReliableOrdered } else { EventChannel::Unreliable },
            target_client: if rng.gen_bool(0.5) { Some(ClientId(rng.gen_range(0..20))) } else { None },
        })
        .collect();

    Delta {
        frame: rng.gen(),
        base_frame: rng.gen(),
        spawned,
        despawned,
        component_deltas,
        events,
    }
}

fn assert_deltas_equal(a: &Delta, b: &Delta) {
    assert_eq!(a.frame, b.frame);
    assert_eq!(a.base_frame, b.base_frame);
    assert_eq!(a.spawned, b.spawned);
    assert_eq!(a.despawned, b.despawned);
    assert_eq!(a.component_deltas.len(), b.component_deltas.len());
    for (x, y) in a.component_deltas.iter().zip(b.component_deltas.iter()) {
        assert_eq!(x.entity, y.entity);
        assert_eq!(x.component_type, y.component_type);
        assert_eq!(x.field_data, y.field_data);
    }
    assert_eq!(a.events.len(), b.events.len());
    for (x, y) in a.events.iter().zip(b.events.iter()) {
        assert_eq!(x.entity, y.entity);
        assert_eq!(x.component_type, y.component_type);
        assert_eq!(x.event_field, y.event_field);
        assert_eq!(x.payload, y.payload);
        assert_eq!(x.channel, y.channel);
        assert_eq!(x.target_client, y.target_client);
    }
}

#[test]
fn tracker_records_spawns() {
    let mut t = ChangeTracker::new();
    let e1 = make_entity(0, 1);
    let e2 = make_entity(1, 1);
    t.record_spawn(e1);
    t.record_spawn(e2);
    let (delta, _events) = t.drain(&test_schema(ComponentId(0)), ClientId(0), &AuthorityTable::new());
    assert_eq!(delta.spawned.len(), 2);
    assert!(delta.spawned.iter().any(|(e, _)| *e == e1));
    assert!(delta.spawned.iter().any(|(e, _)| *e == e2));
    assert!(delta.despawned.is_empty());
    assert!(delta.component_deltas.is_empty());
    assert!(_events.is_empty());
}

#[test]
fn tracker_records_despawns() {
    let mut t = ChangeTracker::new();
    let e = make_entity(0, 1);
    t.record_despawn(e);
    let (delta, _events) = t.drain(&test_schema(ComponentId(0)), ClientId(0), &AuthorityTable::new());
    assert_eq!(delta.despawned.len(), 1);
    assert_eq!(delta.despawned[0], e);
}

#[test]
fn tracker_records_component_changes() {
    let mut t = ChangeTracker::new();
    let e = make_entity(0, 1);
    let cid = ComponentId(3);
    let data = vec![1u8, 2, 3, 4];
    t.record_component_change(e, cid, 0, data.clone());
    let (delta, _) = t.drain(&test_schema(cid), ClientId(0), &AuthorityTable::new());
    assert_eq!(delta.component_deltas.len(), 1);
    assert_eq!(delta.component_deltas[0].entity, e);
    assert_eq!(delta.component_deltas[0].component_type, cid);
    assert_eq!(delta.component_deltas[0].field_data[0], data);
}

#[test]
fn tracker_accrues_multiple_fields_on_same_component() {
    let mut t = ChangeTracker::new();
    let e = make_entity(0, 1);
    let cid = ComponentId(7);
    t.record_component_change(e, cid, 1, vec![10u8]);
    t.record_component_change(e, cid, 0, vec![20u8]);
    let (delta, _) = t.drain(&test_schema(cid), ClientId(0), &AuthorityTable::new());
    assert_eq!(delta.component_deltas.len(), 1);
    assert_eq!(delta.component_deltas[0].field_data[0], vec![20u8]);
    assert_eq!(delta.component_deltas[0].field_data[1], vec![10u8]);
}

#[test]
fn tracker_records_events() {
    let mut t = ChangeTracker::new();
    let e = make_entity(2, 5);
    let ev = ReplicatedEvent {
        entity: e,
        component_type: ComponentId(1),
        event_field: 0,
        payload: vec![99u8],
        channel: EventChannel::ReliableOrdered,
        target_client: None,
    };
    t.record_event(ev.clone());
    let (delta, _) = t.drain(&test_schema(ComponentId(1)), ClientId(0), &AuthorityTable::new());
    assert_eq!(delta.events.len(), 1);
    assert_eq!(delta.events[0].entity, e);
    assert_eq!(delta.events[0].payload, vec![99u8]);
}

#[test]
fn drain_clears_tracker() {
    let mut t = ChangeTracker::new();
    t.record_spawn(make_entity(0, 1));
    let (delta, _) = t.drain(&test_schema(ComponentId(0)), ClientId(0), &AuthorityTable::new());
    assert_eq!(delta.spawned.len(), 1);
    let (delta2, _) = t.drain(&test_schema(ComponentId(0)), ClientId(0), &AuthorityTable::new());
    assert!(delta2.spawned.is_empty());
    assert!(delta2.despawned.is_empty());
    assert!(delta2.component_deltas.is_empty());
}

#[test]
fn end_frame_increments_counter() {
    let mut t = ChangeTracker::new();
    assert_eq!(t.frame, 0);
    t.end_frame();
    assert_eq!(t.frame, 1);
    t.end_frame();
    assert_eq!(t.frame, 2);
}

#[test]
fn drain_includes_frame_number() {
    let mut t = ChangeTracker::new();
    t.end_frame();
    let (delta, _) = t.drain(&test_schema(ComponentId(0)), ClientId(0), &AuthorityTable::new());
    assert_eq!(delta.frame, 1);
}

#[test]
fn world_spawn_tracked_records_change() {
    let mut world = World::<u32>::new();
    let mut tracker = ChangeTracker::new();
    let e = world.spawn_tracked(&mut tracker);
    let (delta, _) = tracker.drain(&test_schema(ComponentId(0)), ClientId(0), &AuthorityTable::new());
    assert_eq!(delta.spawned.len(), 1);
    assert_eq!(delta.spawned[0].0, e);
}

#[test]
fn world_despawn_tracked_records_change() {
    let mut world = World::<u32>::new();
    let mut tracker = ChangeTracker::new();
    let e = world.spawn();
    assert!(world.despawn_tracked(e, &mut tracker));
    let (delta, _) = tracker.drain(&test_schema(ComponentId(0)), ClientId(0), &AuthorityTable::new());
    assert_eq!(delta.despawned.len(), 1);
    assert_eq!(delta.despawned[0], e);
}

#[test]
fn world_insert_tracked_records_change() {
    let mut world = World::<u32>::new();
    let mut tracker = ChangeTracker::new();
    let e = world.spawn();
    let cid = F32;
    world.insert_tracked(e, F32, 42.0f32.to_bits(), &mut tracker);
    let (delta, _) = tracker.drain(&test_schema(cid), ClientId(0), &AuthorityTable::new());
    assert_eq!(delta.component_deltas.len(), 1);
    assert_eq!(delta.component_deltas[0].entity, e);
}

#[test]
fn world_remove_tracked_records_change() {
    let mut world = World::<u32>::new();
    let mut tracker = ChangeTracker::new();
    let e = world.spawn();
    world.insert(e, F32, 10.0f32.to_bits());
    let removed = world.remove_tracked(e, F32, &mut tracker);
    assert_eq!(removed, Some(10.0f32.to_bits()));
    let (delta, _) = tracker.drain(&test_schema(F32), ClientId(0), &AuthorityTable::new());
    assert_eq!(delta.component_deltas.len(), 1);
    assert_eq!(delta.component_deltas[0].entity, e);
}

#[test]
fn schema_builder_produces_correct_fields() {
    let cid = ComponentId(42);
    let schema = SchemaBuilder {
        component_type: cid,
        fields: Vec::new(),
    }
    .field("x", ReplicationEncoding::Pod, ReplicationCondition::Always)
    .field("y", ReplicationEncoding::Pod, ReplicationCondition::SimulatedOnly)
    .build();

    assert_eq!(schema.component_type, cid);
    assert_eq!(schema.fields.len(), 2);
    assert_eq!(schema.fields[0].field_index, 0);
    assert_eq!(schema.fields[1].field_index, 1);
    assert_eq!(schema.fields[1].condition, ReplicationCondition::SimulatedOnly);
}

#[test]
fn schema_builder_event_field() {
    let schema = SchemaBuilder {
        component_type: ComponentId(1),
        fields: Vec::new(),
    }
    .event("on_foo", ReplicationCondition::Multicast, EventChannel::Unreliable)
    .build();

    assert_eq!(schema.fields.len(), 1);
    match &schema.fields[0].encoding {
        ReplicationEncoding::Event => {}
        _ => panic!("expected Event encoding"),
    }
    assert_eq!(schema.fields[0].event_channel, Some(EventChannel::Unreliable));
}

#[test]
fn registry_register_and_lookup() {
    let mut reg = ReplicationRegistry::new();
    let cid = F32;
    let builder = reg.register(F32);
    reg.insert(builder);
    assert!(reg.schema(cid).is_some());
    assert!(reg.schema(ComponentId(999)).is_none());
}

#[test]
fn registry_handshake_round_trip() {
    let mut reg = ReplicationRegistry::new();

    let b1 = reg.register(F32);
    reg.insert(b1);

    let msg = reg.handshake_message();
    let reg2 = ReplicationRegistry::from_handshake(&msg).unwrap();

    assert_eq!(reg.len(), reg2.len());
    for i in 0..reg.len() {
        let s1 = reg.at(i);
        let s2 = reg2.schema(s1.component_type).unwrap();
        assert_eq!(s1.fields.len(), s2.fields.len());
    }
}

#[test]
fn registry_handshake_empty() {
    let reg = ReplicationRegistry::new();
    let msg = reg.handshake_message();
    let reg2 = ReplicationRegistry::from_handshake(&msg).unwrap();
    assert_eq!(reg2.len(), 0);
}

#[test]
fn registry_handshake_invalid_truncated() {
    let result = ReplicationRegistry::from_handshake(&[0x01, 0x00, 0x00, 0x00]);
    assert!(result.is_err());
    assert_eq!(result.unwrap_err(), ErrorCode::InvalidData);
}

#[test]
fn registry_handshake_last_field_at_exact_buffer_end() {
    let mut reg = ReplicationRegistry::new();
    let builder = reg.register(F32);
    reg.insert(builder.whole_field("val", ReplicationEncoding::Pod, ReplicationCondition::Always));

    let msg = reg.handshake_message();
    let reg2 = ReplicationRegistry::from_handshake(&msg).expect("well-formed handshake must parse");
    assert_eq!(reg2.len(), 1);
}

#[test]
fn encode_decode_pod_round_trip() {
    let original = vec![1u8, 2, 3, 4, 5];
    let mut buf = Vec::new();
    assert_eq!(encode_field_value(&ReplicationEncoding::Pod, &original, &mut buf, &UnboundCodec, ComponentId(1), 0), ErrorCode::Success);
    let mut decoded = vec![0u8; 5];
    assert_eq!(decode_field_value(&ReplicationEncoding::Pod, &buf, &mut decoded, &UnboundCodec, ComponentId(1), 0), ErrorCode::Success);
    assert_eq!(original, decoded);
}

#[test]
fn encode_pod_raw_writes_bytes_directly() {
    let value = 0xDEAD_BEEFu32.to_le_bytes();
    let mut buf = [0u8; 8];
    let n = encode_pod_raw(&value, &mut buf);
    assert_eq!(n, 4);
    assert_eq!(&buf[..4], &value);
    assert_eq!(&buf[4..], &[0u8; 4]);
}

#[test]
fn encode_pod_raw_into_exact_size_buffer() {
    let value = [1u8, 2, 3];
    let mut buf = [0u8; 3];
    let n = encode_pod_raw(&value, &mut buf);
    assert_eq!(n, 3);
    assert_eq!(buf, value);
}

#[test]
fn apply_with_scratch_reuses_buffer_across_calls() {
    let mut world = World::<u32>::new();
    let e = world.spawn();
    world.insert(e, F32, 1.0f32.to_bits());

    let mut reg = ReplicationRegistry::new();
    let cid = F32;
    let builder = reg.register(F32);
    reg.insert(builder.whole_field("val", ReplicationEncoding::Pod, ReplicationCondition::Always));

    let mut scratch = Vec::new();
    for v in [1.0f32, 2.0, 3.0] {
        let delta = Delta {
            frame: 0, base_frame: 0,
            spawned: vec![], despawned: vec![],
            component_deltas: vec![ComponentDelta {
                entity: e, component_type: cid,
                field_data: vec![v.to_le_bytes().to_vec()],
            }],
            events: vec![],
        };
        assert_eq!(delta.apply_with_scratch(&mut world, &reg, &mut scratch), Ok(()));
        assert_eq!(*world.get(e, F32).unwrap(), v.to_bits());
    }
}

#[test]
fn encode_decode_gpu_handle_round_trip() {
    let original = 42u64.to_le_bytes().to_vec();
    let mut buf = Vec::new();
    assert_eq!(encode_field_value(&ReplicationEncoding::GpuHandle, &original, &mut buf, &UnboundCodec, ComponentId(1), 0), ErrorCode::Success);
    let mut decoded = vec![0u8; 8];
    assert_eq!(decode_field_value(&ReplicationEncoding::GpuHandle, &buf, &mut decoded, &UnboundCodec, ComponentId(1), 0), ErrorCode::Success);
    assert_eq!(original, decoded);
}

#[test]
fn encode_decode_delta_compressed_round_trip() {
    let original = 123456789u64.to_le_bytes().to_vec();
    let mut buf = Vec::new();
    assert_eq!(encode_field_value(&ReplicationEncoding::DeltaCompressed, &original, &mut buf, &UnboundCodec, ComponentId(1), 0), ErrorCode::Success);
    let mut decoded = vec![0u8; 8];
    assert_eq!(decode_field_value(&ReplicationEncoding::DeltaCompressed, &buf, &mut decoded, &UnboundCodec, ComponentId(1), 0), ErrorCode::Success);
    assert_eq!(original, decoded);
}

#[test]
fn delta_compressor_first_encode_matches_stateless_absolute_encoding() {
    let key = (make_entity(0, 1), ComponentId(1), 0u32);
    let value = 500u32.to_le_bytes().to_vec();

    let mut compressor = DeltaCompressor::new();
    let mut stateful_buf = Vec::new();
    compressor.encode(key, &value, &mut stateful_buf);

    let mut stateless_buf = Vec::new();
    encode_field_value(&ReplicationEncoding::DeltaCompressed, &value, &mut stateless_buf, &UnboundCodec, ComponentId(1), 0);

    assert_eq!(stateful_buf, stateless_buf);
}

#[test]
fn delta_compressor_repeated_value_compresses_to_one_byte() {
    let key = (make_entity(0, 1), ComponentId(1), 0u32);
    let value = 0xFFFF_FFFFu32.to_le_bytes().to_vec();

    let mut compressor = DeltaCompressor::new();
    let mut first = Vec::new();
    compressor.encode(key, &value, &mut first);
    assert!(first.len() > 1, "first encode (diff from zero) is the full value, not compressed");

    let mut second = Vec::new();
    compressor.encode(key, &value, &mut second);
    assert_eq!(second, vec![0u8], "unchanged value must compress to exactly one zero byte");
}

#[test]
fn delta_compressor_round_trips_a_sequence_across_independent_instances() {
    let key = (make_entity(3, 2), ComponentId(9), 1u32);
    let sequence: [u32; 5] = [100, 100, 95, 95, 200];

    let mut sender = DeltaCompressor::new();
    let mut receiver = DeltaCompressor::new();

    for &value in &sequence {
        let value_bytes = value.to_le_bytes();
        let mut buf = Vec::new();
        sender.encode(key, &value_bytes, &mut buf);

        let mut decoded = [0u8; 4];
        assert_eq!(receiver.decode(key, &buf, &mut decoded), ErrorCode::Success);
        assert_eq!(u32::from_le_bytes(decoded), value);
    }
}

#[test]
fn delta_compressor_acknowledge_sets_the_diff_baseline() {
    let key = (make_entity(0, 1), ComponentId(1), 0u32);
    let value = 42u32.to_le_bytes().to_vec();

    let mut compressor = DeltaCompressor::new();
    compressor.acknowledge(key, &value);

    let mut buf = Vec::new();
    compressor.encode(key, &value, &mut buf);
    assert_eq!(buf, vec![0u8]);
}

#[test]
fn delta_compressor_forget_resets_to_zero_baseline() {
    let key = (make_entity(0, 1), ComponentId(1), 0u32);
    let value = 42u32.to_le_bytes().to_vec();

    let mut compressor = DeltaCompressor::new();
    let mut first = Vec::new();
    compressor.encode(key, &value, &mut first);

    compressor.forget(key);

    let mut after_forget = Vec::new();
    compressor.encode(key, &value, &mut after_forget);
    assert_eq!(first, after_forget);
}

#[test]
fn delta_compressor_different_keys_do_not_share_a_cache() {
    let key_a = (make_entity(0, 1), ComponentId(1), 0u32);
    let key_b = (make_entity(1, 1), ComponentId(1), 0u32);
    let value = 7u32.to_le_bytes().to_vec();

    let mut compressor = DeltaCompressor::new();
    compressor.acknowledge(key_a, &value);

    let mut buf_b = Vec::new();
    compressor.encode(key_b, &value, &mut buf_b);
    let mut stateless_buf = Vec::new();
    encode_field_value(&ReplicationEncoding::DeltaCompressed, &value, &mut stateless_buf, &UnboundCodec, ComponentId(1), 0);
    assert_eq!(buf_b, stateless_buf);
}

#[test]
fn encode_decode_opaque_round_trip() {
    let original = 0xDEAD_BEEFu64;
    let bytes = original.to_le_bytes();
    let mut buf = Vec::new();
    assert_eq!(encode_field_value(&ReplicationEncoding::Opaque, &bytes, &mut buf, &CopyCodec, ComponentId(1), 0), ErrorCode::Success);
    let mut decoded = vec![0u8; 8];
    assert_eq!(decode_field_value(&ReplicationEncoding::Opaque, &buf, &mut decoded, &CopyCodec, ComponentId(1), 0), ErrorCode::Success);
    let result = u64::from_le_bytes(decoded.try_into().unwrap());
    assert_eq!(result, original);
}

#[test]
fn condition_passes_always() {
    assert!(condition_passes(&ReplicationCondition::Always, &Ownership::Server, &ClientId(0)));
    assert!(condition_passes(&ReplicationCondition::Always, &Ownership::Client(ClientId(1)), &ClientId(0)));
}

#[test]
fn condition_passes_owner_only() {
    let owner = Ownership::Client(ClientId(42));
    assert!(condition_passes(&ReplicationCondition::OwnerOnly, &owner, &ClientId(42)));
    assert!(!condition_passes(&ReplicationCondition::OwnerOnly, &owner, &ClientId(7)));
    assert!(!condition_passes(&ReplicationCondition::OwnerOnly, &Ownership::Server, &ClientId(0)));
}

#[test]
fn condition_passes_skip_owner() {
    let owner = Ownership::Client(ClientId(42));
    assert!(!condition_passes(&ReplicationCondition::SkipOwner, &owner, &ClientId(42)));
    assert!(condition_passes(&ReplicationCondition::SkipOwner, &owner, &ClientId(7)));
}

#[test]
fn condition_passes_simulated() {
    let owner = Ownership::Client(ClientId(42));
    assert!(!condition_passes(&ReplicationCondition::SimulatedOnly, &owner, &ClientId(42)));
    assert!(condition_passes(&ReplicationCondition::SimulatedOnly, &owner, &ClientId(7)));
    assert!(condition_passes(&ReplicationCondition::SimulatedOnly, &Ownership::Server, &ClientId(0)));
}

#[test]
fn condition_passes_autonomous() {
    let owner = Ownership::Client(ClientId(42));
    assert!(condition_passes(&ReplicationCondition::AutonomousOnly, &owner, &ClientId(42)));
    assert!(!condition_passes(&ReplicationCondition::AutonomousOnly, &owner, &ClientId(7)));
    assert!(!condition_passes(&ReplicationCondition::AutonomousOnly, &Ownership::Server, &ClientId(0)));
}

#[test]
fn condition_passes_authority_flags() {
    assert!(condition_passes(&ReplicationCondition::ServerAuthority, &Ownership::Server, &ClientId(0)));
    assert!(condition_passes(&ReplicationCondition::ClientAuthority, &Ownership::Server, &ClientId(0)));
    assert!(condition_passes(&ReplicationCondition::Multicast, &Ownership::Server, &ClientId(0)));
}

#[test]
fn condition_passes_initial_and_rpc_always_false() {
    assert!(!condition_passes(&ReplicationCondition::InitialOnly, &Ownership::Server, &ClientId(0)));
    assert!(!condition_passes(&ReplicationCondition::ServerToClient, &Ownership::Server, &ClientId(0)));
    assert!(!condition_passes(&ReplicationCondition::ClientToServer, &Ownership::Server, &ClientId(0)));
}

#[test]
fn authority_table_owner_of() {
    let mut at = AuthorityTable::new();
    let e1 = make_entity(0, 1);
    let e2 = make_entity(1, 1);
    assert_eq!(at.owner_of(e1), Ownership::Server); // default
    at.set_entity_owner(e1, Ownership::Client(ClientId(7)));
    assert_eq!(at.owner_of(e1), Ownership::Client(ClientId(7)));
    assert_eq!(at.owner_of(e2), Ownership::Server); // unset
}

#[test]
fn authority_table_can_write_respects_entity_owner() {
    let mut at = AuthorityTable::new();
    let e = make_entity(0, 1);
    at.set_entity_owner(e, Ownership::Client(ClientId(5)));
    assert!(at.can_write(e, ComponentId(1), 0, ClientId(5)));
    assert!(!at.can_write(e, ComponentId(1), 0, ClientId(9)));
    assert!(!at.can_write(e, ComponentId(1), 0, ClientId(0)));
}

#[test]
fn authority_table_can_write_field_override_takes_precedence() {
    let mut at = AuthorityTable::new();
    let e = make_entity(0, 1);
    at.set_entity_owner(e, Ownership::Client(ClientId(5)));
    at.set_field_owner(e, ComponentId(1), 0, Ownership::Shared);
    assert!(at.can_write(e, ComponentId(1), 0, ClientId(99)));
    assert!(!at.can_write(e, ComponentId(1), 1, ClientId(99)));
}

#[test]
fn resolve_conflict_picks_higher_client_id() {
    let at = AuthorityTable::new();
    let e = make_entity(0, 1);
    let cid = ComponentId(1);

    let delta_a = Delta {
        frame: 10, base_frame: 9,
        spawned: vec![(e, vec![1])],
        despawned: vec![],
        component_deltas: vec![ComponentDelta { entity: e, component_type: cid, field_data: vec![vec![1]] }],
        events: vec![],
    };
    let delta_b = Delta {
        frame: 10, base_frame: 9,
        spawned: vec![],
        despawned: vec![],
        component_deltas: vec![ComponentDelta { entity: e, component_type: cid, field_data: vec![vec![2]] }],
        events: vec![],
    };

    let merged = AuthorityTable::resolve_conflict(&at, &delta_a, ClientId(1), &delta_b, ClientId(2));
    assert_eq!(merged.component_deltas[0].field_data[0], vec![2]);
    assert_eq!(merged.spawned.len(), 1);
}

#[test]
fn resolve_conflict_merges_spawns_from_both() {
    let at = AuthorityTable::new();
    let e1 = make_entity(0, 1);
    let e2 = make_entity(1, 1);
    let delta_a = Delta {
        frame: 1, base_frame: 0,
        spawned: vec![(e1, vec![])],
        despawned: vec![],
        component_deltas: vec![],
        events: vec![],
    };
    let delta_b = Delta {
        frame: 1, base_frame: 0,
        spawned: vec![(e2, vec![])],
        despawned: vec![],
        component_deltas: vec![],
        events: vec![],
    };
    let merged = AuthorityTable::resolve_conflict(&at, &delta_a, ClientId(1), &delta_b, ClientId(2));
    assert_eq!(merged.spawned.len(), 2);
}

#[test]
fn relevance_set_condition_filter() {
    let mut set = RelevanceSet::new();
    let e = make_entity(0, 1);
    set.add(e);

    let mut authority = AuthorityTable::new();
    authority.set_entity_owner(e, Ownership::Client(ClientId(42)));

    let mut reg = ReplicationRegistry::new();
    let f32_cid = F32;
    let builder = reg.register(F32);
    let builder = builder.whole_field("test", ReplicationEncoding::Pod, ReplicationCondition::SimulatedOnly);
    reg.insert(builder);

    let delta = Delta {
        frame: 1, base_frame: 0,
        spawned: vec![],
        despawned: vec![],
        component_deltas: vec![ComponentDelta { entity: e, component_type: f32_cid, field_data: vec![vec![1]] }],
        events: vec![],
    };

    let view = set.filter(&delta, &authority, &reg, ClientId(7));
    assert_eq!(view.component_deltas.len(), 1);

    let view = set.filter(&delta, &authority, &reg, ClientId(42));
    assert_eq!(view.component_deltas.len(), 0);
}

#[test]
fn relevance_set_spawns_always_pass() {
    let set = RelevanceSet::new(); // empty
    let delta = Delta {
        frame: 1, base_frame: 0,
        spawned: vec![(make_entity(0, 1), vec![])],
        despawned: vec![],
        component_deltas: vec![],
        events: vec![],
    };
    let view = set.filter(&delta, &AuthorityTable::new(), &ReplicationRegistry::new(), ClientId(0));
    assert_eq!(view.spawned.len(), 1);
}

#[test]
fn multi_client_relevance_filter() {
    let e1 = make_entity(0, 1);
    let e2 = make_entity(1, 1);
    let e3 = make_entity(2, 1);
    let cid = F32;

    let mut authority = AuthorityTable::new();
    authority.set_entity_owner(e1, Ownership::Client(ClientId(100)));
    authority.set_entity_owner(e2, Ownership::Client(ClientId(200)));

    let mut set_a = RelevanceSet::new();
    set_a.add(e1);
    set_a.add(e3);

    let mut set_b = RelevanceSet::new();
    set_b.add(e2);
    set_b.add(e3);

    let delta = Delta {
        frame: 5, base_frame: 4,
        spawned: vec![(e1, vec![]), (e2, vec![]), (e3, vec![])],
        despawned: vec![],
        component_deltas: vec![
            ComponentDelta { entity: e1, component_type: cid, field_data: vec![vec![10]] },
            ComponentDelta { entity: e2, component_type: cid, field_data: vec![vec![20]] },
            ComponentDelta { entity: e3, component_type: cid, field_data: vec![vec![30]] },
        ],
        events: vec![],
    };

    let reg = ReplicationRegistry::new(); // no schema means conditions always pass (empty fields)

    let view_a = set_a.filter(&delta, &authority, &reg, ClientId(100));
    assert_eq!(view_a.component_deltas.len(), 2); // e1 + e3
    assert!(view_a.component_deltas.iter().any(|cd| cd.entity == e1));
    assert!(view_a.component_deltas.iter().any(|cd| cd.entity == e3));
    assert!(!view_a.component_deltas.iter().any(|cd| cd.entity == e2));

    let view_b = set_b.filter(&delta, &authority, &reg, ClientId(200));
    assert_eq!(view_b.component_deltas.len(), 2); // e2 + e3
    assert!(view_b.component_deltas.iter().any(|cd| cd.entity == e2));
    assert!(view_b.component_deltas.iter().any(|cd| cd.entity == e3));
    assert!(!view_b.component_deltas.iter().any(|cd| cd.entity == e1));
}

#[test]
fn shared_conflict_resolution_two_writes() {
    let at = AuthorityTable::new();
    let e = make_entity(0, 1);
    let cid = ComponentId(99);

    let delta_a = Delta {
        frame: 10, base_frame: 9,
        spawned: vec![],
        despawned: vec![],
        component_deltas: vec![ComponentDelta { entity: e, component_type: cid, field_data: vec![vec![10]] }],
        events: vec![],
    };
    let delta_b = Delta {
        frame: 10, base_frame: 9,
        spawned: vec![],
        despawned: vec![],
        component_deltas: vec![ComponentDelta { entity: e, component_type: cid, field_data: vec![vec![20]] }],
        events: vec![],
    };

    let merged = AuthorityTable::resolve_conflict(&at, &delta_a, ClientId(100), &delta_b, ClientId(200));
    assert_eq!(merged.component_deltas[0].field_data[0], vec![20]);

    let merged = AuthorityTable::resolve_conflict(&at, &delta_b, ClientId(100), &delta_a, ClientId(200));
    assert_eq!(merged.component_deltas[0].field_data[0], vec![10]);
}

#[test]
fn entity_cell_map_round_trips() {
    let mut map = EntityCellMap::new();
    let e = make_entity(3, 1);
    map.insert(e, 2, 5);
    assert_eq!(map.entity_at(2, 5), Some(e));
    assert_eq!(map.cell_of(e), Some((2, 5)));
    assert_eq!(map.len(), 1);
}

#[test]
fn entity_cell_map_remove_clears_both_directions() {
    let mut map = EntityCellMap::new();
    let e = make_entity(0, 1);
    map.insert(e, 1, 1);
    map.remove(e);
    assert_eq!(map.entity_at(1, 1), None);
    assert_eq!(map.cell_of(e), None);
    assert!(map.is_empty());
}

#[test]
fn entity_cell_map_reinsert_moves_entity_and_frees_old_slot() {
    let mut map = EntityCellMap::new();
    let e = make_entity(0, 1);
    map.insert(e, 0, 0);
    map.insert(e, 3, 7); // entity moved to a new cell/row
    assert_eq!(map.entity_at(0, 0), None, "old slot vacated");
    assert_eq!(map.entity_at(3, 7), Some(e));
    assert_eq!(map.cell_of(e), Some((3, 7)));
    assert_eq!(map.len(), 1);
}

#[test]
fn entity_cell_map_reinsert_slot_evicts_old_entity() {
    let mut map = EntityCellMap::new();
    let e1 = make_entity(0, 1);
    let e2 = make_entity(1, 1);
    map.insert(e1, 0, 0);
    map.insert(e2, 0, 0); // e2 takes over e1's slot
    assert_eq!(map.entity_at(0, 0), Some(e2));
    assert_eq!(map.cell_of(e1), None, "e1 evicted from the map entirely");
    assert_eq!(map.len(), 1);
}

#[test]
fn from_frustum_mapped_resolves_entities_via_map() {
    let mut cell = CellStorage::new(64, &vec![]);
    let h = cell.allocate().unwrap();
    let row = cell.row_of(h).unwrap();

    let mut map = EntityCellMap::new();
    let e = make_entity(9, 1);
    map.insert(e, 0, row);

    let hits = vec![vec![row, NULL_ROW]];
    let set = RelevanceSet::from_frustum_mapped(&hits, &map);
    assert!(set.contains(e));
    assert_eq!(set.len(), 1);
}

#[test]
fn event_batch_struct() {
    let batch = EventBatch {
        frame: 42,
        events: vec![],
    };
    assert_eq!(batch.frame, 42);
    assert!(batch.events.is_empty());
}

#[test]
fn can_send_event_client_to_server() {
    assert!(can_send_event(&ReplicationCondition::ClientToServer, ClientId(1), ClientId(0)));
    assert!(can_send_event(&ReplicationCondition::ClientToServer, ClientId(1), ClientId(2)));
}

#[test]
fn can_send_event_server_to_client() {
    assert!(can_send_event(&ReplicationCondition::ServerToClient, ClientId(5), ClientId(5)));
    assert!(!can_send_event(&ReplicationCondition::ServerToClient, ClientId(5), ClientId(7)));
}

#[test]
fn can_send_event_multicast() {
    assert!(can_send_event(&ReplicationCondition::Multicast, ClientId(1), ClientId(2)));
    assert!(!can_send_event(&ReplicationCondition::Multicast, ClientId(1), ClientId(1)));
}

#[test]
fn events_to_batch_filters_by_direction() {
    let e1 = make_entity(0, 1);
    let f32_cid = F32;

    let mut reg = ReplicationRegistry::new();
    let builder = reg.register(F32);
    let builder = builder
        .event("rpc", ReplicationCondition::ClientToServer, EventChannel::ReliableOrdered);
    reg.insert(builder);

    let ev = ReplicatedEvent {
        entity: e1,
        component_type: f32_cid,
        event_field: 0,
        payload: vec![1, 2, 3],
        channel: EventChannel::ReliableOrdered,
        target_client: None,
    };

    let delta = Delta {
        frame: 5, base_frame: 4,
        spawned: vec![],
        despawned: vec![],
        component_deltas: vec![],
        events: vec![ev],
    };

    let view = DeltaView {
        spawned: &delta.spawned,
        despawned: &delta.despawned,
        component_deltas: delta.component_deltas.iter().collect(),
        events: delta.events.iter().collect(),
    };

    let batch = events_to_batch(&view, 5, &reg, ClientId(1), ClientId(0));
    assert!(batch.is_some());
    assert_eq!(batch.unwrap().events.len(), 1);
}

#[test]
fn events_to_batch_filters_out_multicast_to_self() {
    let f32_cid = F32;

    let mut reg = ReplicationRegistry::new();
    let builder = reg.register(F32);
    let builder = builder
        .event("rpc", ReplicationCondition::Multicast, EventChannel::Unreliable);
    reg.insert(builder);

    let ev = ReplicatedEvent {
        entity: make_entity(0, 1),
        component_type: f32_cid,
        event_field: 0,
        payload: vec![],
        channel: EventChannel::Unreliable,
        target_client: None,
    };

    let delta = Delta {
        frame: 1, base_frame: 0,
        spawned: vec![],
        despawned: vec![],
        component_deltas: vec![],
        events: vec![ev],
    };

    let view = DeltaView {
        spawned: &delta.spawned,
        despawned: &delta.despawned,
        component_deltas: delta.component_deltas.iter().collect(),
        events: delta.events.iter().collect(),
    };

    let batch = events_to_batch(&view, 1, &reg, ClientId(5), ClientId(5));
    assert!(batch.is_none());

    let batch = events_to_batch(&view, 1, &reg, ClientId(5), ClientId(7));
    assert!(batch.is_some());
}

#[test]
fn events_order_is_preserved_within_frame() {
    let e = make_entity(0, 1);
    let cid = ComponentId(20);

    let mut tracker = ChangeTracker::new();
    for i in 0..5u8 {
        tracker.record_event(ReplicatedEvent {
            entity: e,
            component_type: cid,
            event_field: i as u32,
            payload: vec![i],
            channel: EventChannel::ReliableOrdered,
            target_client: None,
        });
    }

    let mut reg = ReplicationRegistry::new();
    let builder = reg.register(F32);
    let builder = builder
        .event("ev0", ReplicationCondition::Multicast, EventChannel::ReliableOrdered)
        .event("ev1", ReplicationCondition::Multicast, EventChannel::ReliableOrdered)
        .event("ev2", ReplicationCondition::Multicast, EventChannel::ReliableOrdered)
        .event("ev3", ReplicationCondition::Multicast, EventChannel::ReliableOrdered)
        .event("ev4", ReplicationCondition::Multicast, EventChannel::ReliableOrdered);
    reg.insert(builder);

    let (delta, _) = tracker.drain(&test_schema(cid), ClientId(0), &AuthorityTable::new());
    assert_eq!(delta.events.len(), 5);
    for (i, ev) in delta.events.iter().enumerate() {
        assert_eq!(ev.event_field, i as u32);
        assert_eq!(ev.payload, vec![i as u8]);
    }
}

#[test]
fn event_encoding_excluded_from_state_deltas() {
    let mut buf = Vec::new();
    assert_eq!(encode_field_value(&ReplicationEncoding::Event, &[1, 2, 3], &mut buf, &UnboundCodec, ComponentId(1), 0), ErrorCode::Success);
    assert!(buf.is_empty());
}

#[test]
fn event_channel_marking_is_preserved() {
    let ev = ReplicatedEvent {
        entity: make_entity(0, 1),
        component_type: ComponentId(1),
        event_field: 0,
        payload: vec![],
        channel: EventChannel::Unreliable,
        target_client: None,
    };
    assert_eq!(ev.channel, EventChannel::Unreliable);

    let ev2 = ReplicatedEvent {
        channel: EventChannel::ReliableOrdered,
        ..ev.clone()
    };
    assert_eq!(ev2.channel, EventChannel::ReliableOrdered);
}

#[test]
fn snapshot_capture_full_includes_all_entities() {
    let mut world = World::<u32>::new();
    let e1 = world.spawn();
    let e2 = world.spawn();
    world.insert(e1, F32, 1.0f32.to_bits());
    world.insert(e2, F32, 2.0f32.to_bits());

    let reg = ReplicationRegistry::new();
    let snap = Snapshot::capture_full(&world, &reg, 7);
    assert_eq!(snap.frame, 7);
    assert_eq!(snap.entities.len(), 2);
}

#[test]
fn snapshot_capture_relevant_filters_entities() {
    let mut world = World::<u32>::new();
    let e1 = world.spawn();
    let _e2 = world.spawn();

    let mut relevance = RelevanceSet::new();
    relevance.add(e1); // only e1 is relevant

    let reg = ReplicationRegistry::new();
    let snap = Snapshot::capture_relevant(&world, &reg, &relevance, 3);
    assert_eq!(snap.frame, 3);
    assert_eq!(snap.entities.len(), 1);
    assert_eq!(snap.entities[0].entity, e1);
}

#[test]
fn snapshot_restore_to_world_round_trips_into_a_fresh_world() {
    let mut source = World::<u32>::new();
    let e1 = source.spawn();
    source.insert(e1, F32, 1.0f32.to_bits());
    let e2 = source.spawn();
    source.insert(e2, F32, 2.0f32.to_bits());

    let mut reg = ReplicationRegistry::new();
    let builder = reg.register(F32);
    reg.insert(builder.whole_field("val", ReplicationEncoding::Pod, ReplicationCondition::Always));

    let snap = Snapshot::capture_full(&source, &reg, 7);
    assert_eq!(snap.entities.len(), 2);

    let mut target = World::<u32>::new();
    assert_eq!(snap.restore_to_world(&mut target, &reg), Ok(()));

    assert!(target.is_alive(e1));
    assert!(target.is_alive(e2));
    assert_eq!(*target.get(e1, F32).unwrap(), 1.0f32.to_bits());
    assert_eq!(*target.get(e2, F32).unwrap(), 2.0f32.to_bits());
}

#[test]
fn snapshot_restore_to_world_with_unregistered_component_fails_cleanly() {
    let mut source = World::<u32>::new();
    let e = source.spawn();
    source.insert(e, F32, 1.0f32.to_bits());

    let mut reg = ReplicationRegistry::new();
    let builder = reg.register(F32);
    reg.insert(builder.whole_field("val", ReplicationEncoding::Pod, ReplicationCondition::Always));
    let snap = Snapshot::capture_full(&source, &reg, 1);

    let empty_reg = ReplicationRegistry::new();
    let mut target = World::<u32>::new();
    assert_eq!(snap.restore_to_world(&mut target, &empty_reg), Err(ErrorCode::InvalidData));
}

#[test]
fn resync_via_snapshot_recovers_state_a_delta_gap_cannot() {
    let mut server = World::<u32>::new();
    let mut reg = ReplicationRegistry::new();
    let builder = reg.register(F32);
    reg.insert(builder.whole_field("val", ReplicationEncoding::Pod, ReplicationCondition::Always));

    let e1 = server.spawn();
    server.insert(e1, F32, 1.0f32.to_bits());
    let e2 = server.spawn();
    server.insert(e2, F32, 2.0f32.to_bits());
    let e3 = server.spawn();
    server.insert(e3, F32, 3.0f32.to_bits());

    let mut client = World::<u32>::new();
    let stale_blob = encode_archetype_key(&[F32]);
    let mut bytes = Vec::new();
    1.0f32.to_bits().replicate_encode(&mut bytes);
    let catch_up_delta = Delta {
        frame: 1, base_frame: 0,
        spawned: vec![(e1, stale_blob)],
        despawned: vec![],
        component_deltas: vec![ComponentDelta {
            entity: e1,
            component_type: F32,
            field_data: vec![bytes],
        }],
        events: vec![],
    };
    assert_eq!(catch_up_delta.apply(&mut client, &reg), Ok(()));
    assert!(client.is_alive(e1));
    assert!(!client.is_alive(e2), "e2 was never learned about — a Delta gap can't fabricate it");

    let snapshot = Snapshot::capture_full(&server, &reg, 10);
    assert_eq!(snapshot.restore_to_world(&mut client, &reg), Ok(()));

    assert!(client.is_alive(e1));
    assert!(client.is_alive(e2));
    assert!(client.is_alive(e3));
    assert_eq!(*client.get(e1, F32).unwrap(), 1.0f32.to_bits());
    assert_eq!(*client.get(e2, F32).unwrap(), 2.0f32.to_bits());
    assert_eq!(*client.get(e3, F32).unwrap(), 3.0f32.to_bits());
}

#[test]
fn delta_apply_does_not_protect_against_out_of_order_frames() {
    let mut world = World::<u32>::new();
    let mut reg = ReplicationRegistry::new();
    let builder = reg.register(F32);
    reg.insert(builder.whole_field("val", ReplicationEncoding::Pod, ReplicationCondition::Always));

    let e = world.spawn();
    world.insert(e, F32, 0.0f32.to_bits());
    let cid = F32;

    let make_delta = |frame: u64, value: f32| {
        let mut bytes = Vec::new();
        value.to_bits().replicate_encode(&mut bytes);
        Delta {
            frame, base_frame: frame.saturating_sub(1),
            spawned: vec![], despawned: vec![],
            component_deltas: vec![ComponentDelta { entity: e, component_type: cid, field_data: vec![bytes] }],
            events: vec![],
        }
    };

    assert_eq!(make_delta(10, 100.0).apply(&mut world, &reg), Ok(()));
    assert_eq!(*world.get(e, F32).unwrap(), 100.0f32.to_bits());
    assert_eq!(make_delta(2, 5.0).apply(&mut world, &reg), Ok(()));
    assert_eq!(
        *world.get(e, F32).unwrap(), 5.0f32.to_bits(),
        "apply() has no ordering guard by design — the caller must track \
         `delta.frame` itself and skip anything not newer than what it already applied",
    );

    let mut last_applied_frame = 10u64;
    let late_delta = make_delta(2, 999.0);
    if late_delta.frame > last_applied_frame {
        late_delta.apply(&mut world, &reg).unwrap();
        last_applied_frame = late_delta.frame;
    }
    let _ = last_applied_frame;
    assert_eq!(*world.get(e, F32).unwrap(), 5.0f32.to_bits(), "the guarded caller pattern correctly ignores the stale frame");
}

#[test]
fn reconciler_push_and_clear() {
    let mut r = Reconciler::new();
    let snap = Snapshot { frame: 10, entities: vec![], cell_rows: vec![] };
    r.push_snapshot(snap);
    r.push_input(ClientInput {
        frame: 11, entity: make_entity(0, 1), component: ComponentId(1), field_data: vec![],
    });
    assert_eq!(r.server_frame(), 10);
    assert_eq!(r.local_frame(), 11);
    assert_eq!(r.pending_inputs().len(), 1);

    r.clear_before(10);
    assert_eq!(r.pending_inputs().len(), 1); // input at frame 11 > 10

    r.clear_before(12);
    assert!(r.pending_inputs().is_empty());
}

#[test]
fn reconciler_ring_buffer_drops_oldest() {
    let mut r = Reconciler::new();
    for i in 0..70u64 {
        r.push_snapshot(Snapshot { frame: i, entities: vec![], cell_rows: vec![] });
    }
    assert!(r.snapshots().len() <= 64);
    assert_eq!(r.snapshots().first().unwrap().frame, 6);
    assert_eq!(r.snapshots().last().unwrap().frame, 69);
}

#[test]
fn reconciler_reconcile_discards_old_inputs_and_replays() {
    let mut r = Reconciler::new();
    let e = make_entity(0, 1);

    for i in 1..=3u64 {
        r.push_input(ClientInput {
            frame: i,
            entity: e,
            component: ComponentId(1),
            field_data: vec![(0, vec![i as u8])],
        });
    }

    let server_delta = Delta {
        frame: 5, base_frame: 2,
        spawned: vec![],
        despawned: vec![],
        component_deltas: vec![],
        events: vec![],
    };

    let mut replayed: Vec<u64> = Vec::new();
    let mut world = World::<u32>::new();

    r.reconcile(&server_delta, &mut world, |_, input| {
        replayed.push(input.frame);
    });

    assert_eq!(replayed, vec![3]);
    assert_eq!(r.pending_inputs().len(), 1);
    assert_eq!(r.pending_inputs()[0].frame, 3);
}

#[test]
fn reconciler_three_frame_prediction_cycle() {
    let mut r = Reconciler::new();
    let e = make_entity(0, 1);

    for i in 1..=3u64 {
        r.push_input(ClientInput {
            frame: i,
            entity: e,
            component: ComponentId(1),
            field_data: vec![(0, vec![i as u8])],
        });
    }

    let server_delta = Delta {
        frame: 4, base_frame: 1,
        spawned: vec![],
        despawned: vec![],
        component_deltas: vec![],
        events: vec![],
    };

    let mut replayed: Vec<u64> = Vec::new();
    let mut world = World::<u32>::new();
    r.reconcile(&server_delta, &mut world, |_, input| {
        replayed.push(input.frame);
    });

    assert_eq!(replayed, vec![2, 3]);
    assert_eq!(r.pending_inputs().len(), 2);
}

#[test]
fn delta_to_bytes_round_trip_empty() {
    let d = Delta {
        frame: 0, base_frame: 0,
        spawned: vec![], despawned: vec![],
        component_deltas: vec![], events: vec![],
    };
    let bytes = d.to_bytes();
    let d2 = Delta::from_bytes(&bytes).unwrap();
    assert_eq!(d2.frame, 0);
    assert!(d2.spawned.is_empty());
    assert!(d2.despawned.is_empty());
}

#[test]
fn delta_to_bytes_round_trip_full() {
    let e1 = make_entity(0, 1);
    let e2 = make_entity(1, 1);
    let cid = ComponentId(5);

    let d = Delta {
        frame: 42, base_frame: 40,
        spawned: vec![(e1, vec![1, 2, 3])],
        despawned: vec![e2],
        component_deltas: vec![ComponentDelta {
            entity: e1, component_type: cid,
            field_data: vec![vec![10], vec![20, 30]],
        }],
        events: vec![ReplicatedEvent {
            entity: e1, component_type: cid,
            event_field: 0, payload: vec![99],
            channel: EventChannel::Unreliable,
            target_client: None,
        }],
    };
    let bytes = d.to_bytes();
    let d2 = Delta::from_bytes(&bytes).unwrap();

    assert_eq!(d2.frame, 42);
    assert_eq!(d2.base_frame, 40);
    assert_eq!(d2.spawned.len(), 1);
    assert_eq!(d2.spawned[0].0, e1);
    assert_eq!(d2.spawned[0].1, vec![1, 2, 3]);
    assert_eq!(d2.despawned, vec![e2]);
    assert_eq!(d2.component_deltas.len(), 1);
    assert_eq!(d2.component_deltas[0].field_data[0], vec![10]);
    assert_eq!(d2.component_deltas[0].field_data[1], vec![20, 30]);
    assert_eq!(d2.events.len(), 1);
    assert_eq!(d2.events[0].payload, vec![99]);
}

#[test]
fn delta_from_bytes_truncated_returns_none() {
    assert!(Delta::from_bytes(&[]).is_none());
    assert!(Delta::from_bytes(&[0u8; 7]).is_none());
}

#[test]
fn snapshot_capture_reads_field_bytes() {
    let mut world = World::<u32>::new();
    let e = world.spawn();
    world.insert(e, F32, 42.0f32.to_bits());

    let mut reg = ReplicationRegistry::new();
    let f32_cid = F32;
    let builder = reg.register(F32);
    reg.insert(builder.whole_field("val", ReplicationEncoding::Pod, ReplicationCondition::Always));

    let snap = Snapshot::capture_full(&world, &reg, 1);
    assert_eq!(snap.entities.len(), 1);
    assert_eq!(snap.entities[0].entity, e);

    let has_bytes = snap.entities[0]
        .components
        .iter()
        .any(|(cid, data)| *cid == f32_cid && data.iter().any(|d| !d.is_empty()));
    assert!(has_bytes, "snapshot should contain non-empty field data for f32 component");
}

fn instance_info(mesh_index: u32, flags: u32) -> Vec<u8> {
    let mut bytes = mesh_index.to_le_bytes().to_vec();
    bytes.extend_from_slice(&flags.to_le_bytes());
    bytes
}

fn cell_with_transform() -> CellStorage {
    CellStorage::new(64, &vec![(TRANSFORM, 64), (INSTANCE_INFO, 8)])
}

#[test]
fn capture_and_restore_cells_round_trip() {
    let mut cell = cell_with_transform();
    let h = cell.allocate().unwrap();
    let row = cell.row_of(h).unwrap();
    let column = cell.find_column(INSTANCE_INFO).unwrap();
    cell.write_row(column, row, &instance_info(42, 1));

    let mut reg = ReplicationRegistry::new();
    let cid = INSTANCE_INFO;
    let builder = reg.register(INSTANCE_INFO);
    reg.insert(builder.whole_field("info", ReplicationEncoding::Pod, ReplicationCondition::Always));

    let snap = Snapshot::capture_cells(&vec![cell], &reg, 1, &UnboundCodec);
    assert_eq!(snap.frame, 1);
    assert_eq!(snap.cell_rows.len(), 1);
    assert_eq!(snap.cell_rows[0].cell_index, 0);
    assert!(snap.cell_rows[0].components.iter().any(|(c, _)| *c == cid));

    let mut restored = vec![cell_with_transform()];
    assert_eq!(snap.restore_to_cells(&mut restored, &reg, &UnboundCodec), Ok(()));
    assert_eq!(restored[0].rows_in_use(), 1);
    let column = restored[0].find_column(INSTANCE_INFO).unwrap();
    assert_eq!(restored[0].columns()[column].rows[0], instance_info(42, 1));
}

#[test]
fn capture_cells_skips_dead_rows() {
    let mut cell = cell_with_transform();
    let ha = cell.allocate().unwrap();
    let _hb = cell.allocate().unwrap();
    cell.free(ha);

    let mut reg = ReplicationRegistry::new();
    let builder = reg.register(INSTANCE_INFO);
    reg.insert(builder.whole_field("info", ReplicationEncoding::Pod, ReplicationCondition::Always));

    let snap = Snapshot::capture_cells(&vec![cell], &reg, 1, &UnboundCodec);
    assert_eq!(snap.cell_rows.len(), 1, "dead row excluded");
}

#[test]
fn restore_to_cells_rejects_out_of_range_cell_index() {
    let snap = Snapshot {
        frame: 0,
        entities: vec![],
        cell_rows: vec![CellRowSnapshot { cell_index: 5, components: vec![] }],
    };
    let reg = ReplicationRegistry::new();
    let mut cells: Vec<CellStorage> = vec![];
    assert_eq!(snap.restore_to_cells(&mut cells, &reg, &UnboundCodec), Err(ErrorCode::InvalidData));
}

#[test]
fn cpu_simulate_witness_runs_tracked_and_advances_frame() {
    let witness = CpuSimulateWitness::new();
    let mut world = World::<u32>::new();
    let mut tracker = ChangeTracker::new();

    let delta = witness.run_tracked(&mut world, &mut tracker, |w, t| {
        w.spawn_tracked(t);
    });

    assert_eq!(delta.frame, 0);
    assert_eq!(delta.spawned.len(), 1);
    let delta2 = witness.run_tracked(&mut world, &mut tracker, |_, _| {});
    assert_eq!(delta2.frame, 1);
    assert!(delta2.spawned.is_empty());
}

#[test]
fn archetype_key_round_trips() {
    let ids = vec![ComponentId(3), ComponentId(7), ComponentId(1)];
    let bytes = encode_archetype_key(&ids);
    let decoded = decode_archetype_key(&bytes).unwrap();
    assert_eq!(decoded, ids);
}

#[test]
fn archetype_key_decode_rejects_garbage() {
    assert!(decode_archetype_key(&[]).is_none());
    assert!(decode_archetype_key(&[1, 0, 0, 0]).is_none()); // claims 1 id, has 0
    assert!(decode_archetype_key(&7u64.to_le_bytes()).is_none());
}

#[test]
fn apply_writes_component_update_to_existing_entity() {
    let mut world = World::<u32>::new();
    let e = world.spawn();
    world.insert(e, F32, 1.0f32.to_bits());

    let mut reg = ReplicationRegistry::new();
    let cid = F32;
    let builder = reg.register(F32);
    reg.insert(builder.whole_field("val", ReplicationEncoding::Pod, ReplicationCondition::Always));

    let delta = Delta {
        frame: 1, base_frame: 0,
        spawned: vec![],
        despawned: vec![],
        component_deltas: vec![ComponentDelta {
            entity: e,
            component_type: cid,
            field_data: vec![9.5f32.to_le_bytes().to_vec()],
        }],
        events: vec![],
    };

    assert_eq!(delta.apply(&mut world, &reg), Ok(()));
    assert_eq!(*world.get(e, F32).unwrap(), 9.5f32.to_bits());
}

#[test]
fn apply_despawns_entities() {
    let mut world = World::<u32>::new();
    let e = world.spawn();
    assert!(world.is_alive(e));

    let reg = ReplicationRegistry::new();
    let delta = Delta {
        frame: 1, base_frame: 0,
        spawned: vec![],
        despawned: vec![e],
        component_deltas: vec![],
        events: vec![],
    };
    assert_eq!(delta.apply(&mut world, &reg), Ok(()));
    assert!(!world.is_alive(e));
}

#[test]
fn apply_spawns_entity_at_exact_wire_handle_with_archetype() {
    let mut world = World::<u32>::new();

    let mut reg = ReplicationRegistry::new();
    let cid = F32;
    let builder = reg.register(F32);
    reg.insert(builder.whole_field("val", ReplicationEncoding::Pod, ReplicationCondition::Always));

    let wire_entity = make_entity(41, 3);
    let blob = encode_archetype_key(&[cid]);
    let delta = Delta {
        frame: 1, base_frame: 0,
        spawned: vec![(wire_entity, blob)],
        despawned: vec![],
        component_deltas: vec![ComponentDelta {
            entity: wire_entity,
            component_type: cid,
            field_data: vec![3.25f32.to_le_bytes().to_vec()],
        }],
        events: vec![],
    };

    assert_eq!(delta.apply(&mut world, &reg), Ok(()));
    assert!(world.is_alive(wire_entity), "entity lands at the exact wire index+generation");
    assert_eq!(*world.get(wire_entity, F32).unwrap(), 3.25f32.to_bits());
}

#[test]
fn apply_spawn_with_unknown_component_fails() {
    let mut world = World::<u32>::new();
    let reg = ReplicationRegistry::new();
    let blob = encode_archetype_key(&[ComponentId(999)]);
    let delta = Delta {
        frame: 1, base_frame: 0,
        spawned: vec![(make_entity(0, 0), blob)],
        despawned: vec![],
        component_deltas: vec![],
        events: vec![],
    };
    assert_eq!(delta.apply(&mut world, &reg), Err(ErrorCode::InvalidData));
}

#[test]
fn apply_spawn_with_malformed_blob_falls_back_to_empty_archetype() {
    let mut world = World::<u32>::new();
    let reg = ReplicationRegistry::new();
    let e = make_entity(5, 0);
    let delta = Delta {
        frame: 1, base_frame: 0,
        spawned: vec![(e, vec![1, 2, 3])], // not a valid archetype-key blob
        despawned: vec![],
        component_deltas: vec![],
        events: vec![],
    };
    assert_eq!(delta.apply(&mut world, &reg), Ok(()));
    assert!(world.is_alive(e));
}

#[test]
fn apply_respawn_evicts_old_occupant_at_same_slot() {
    let mut world = World::<u32>::new();
    let reg = ReplicationRegistry::new();

    let old = world.spawn(); // claims index 0, generation 0
    assert!(world.is_alive(old));

    let new_wire = make_entity(old.index(), 5);
    let delta = Delta {
        frame: 1, base_frame: 0,
        spawned: vec![(new_wire, Vec::new())],
        despawned: vec![],
        component_deltas: vec![],
        events: vec![],
    };
    assert_eq!(delta.apply(&mut world, &reg), Ok(()));
    assert!(!world.is_alive(old), "old occupant evicted");
    assert!(world.is_alive(new_wire), "new wire entity now owns the slot");
}

#[test]
fn drain_with_world_encodes_real_archetype_key() {
    let mut world = World::<u32>::new();
    let mut tracker = ChangeTracker::new();
    let e = world.spawn_tracked(&mut tracker);
    let cid = F32;
    world.insert(e, F32, 1.0f32.to_bits()); // not tracked — spawn's archetype is looked up at drain time

    let delta = tracker.drain_with_world(&world);
    assert_eq!(delta.spawned.len(), 1);
    let (spawned_entity, blob) = &delta.spawned[0];
    assert_eq!(*spawned_entity, e);
    let cids = decode_archetype_key(blob).expect("valid archetype-key blob");
    assert_eq!(cids, vec![cid]);
}

#[test]
fn full_round_trip_drain_wire_apply() {
    let mut server = World::<u32>::new();
    let mut tracker = ChangeTracker::new();
    let e = server.spawn_tracked(&mut tracker);

    let mut reg = ReplicationRegistry::new();
    let cid = F32;
    let builder = reg.register(F32);
    reg.insert(builder.whole_field("val", ReplicationEncoding::Pod, ReplicationCondition::Always));

    server.insert(e, F32, 7.0f32.to_bits());
    let mut server_delta = tracker.drain_with_world(&server);
    server_delta.component_deltas.push(ComponentDelta {
        entity: e,
        component_type: cid,
        field_data: vec![server.get(e, F32).unwrap().to_le_bytes().to_vec()],
    });

    let bytes = server_delta.to_bytes();
    let wire_delta = Delta::from_bytes(&bytes).unwrap();

    let mut client = World::<u32>::new();
    assert_eq!(wire_delta.apply(&mut client, &reg), Ok(()));
    assert!(client.is_alive(e));
    assert_eq!(*client.get(e, F32).unwrap(), 7.0f32.to_bits());
}

#[test]
fn delta_round_trip_random() {
    let mut rng = StdRng::seed_from_u64(0xD317A);
    for _ in 0..100 {
        let d = random_delta(&mut rng);
        let bytes = d.to_bytes();
        let d2 = Delta::from_bytes(&bytes).expect("round trip should decode");
        assert_deltas_equal(&d, &d2);
    }
}

#[test]
fn handshake_round_trip_random_schemas() {
    let mut rng = StdRng::seed_from_u64(0xC0FFEE);
    for _ in 0..30 {
        let mut reg = ReplicationRegistry::new();
        let n_schemas = rng.gen_range(1..6);
        let mut expected: Vec<ReplicationSchema> = Vec::new();
        for _ in 0..n_schemas {
            let component_type = ComponentId(rng.gen_range(1..1000));
            let n_fields = rng.gen_range(0..8);
            let fields = (0..n_fields)
                .map(|field_index| {
                    let encoding = random_encoding(&mut rng);
                    let condition = random_condition(&mut rng);
                    let event_channel = if matches!(encoding, ReplicationEncoding::Event) {
                        Some(if rng.gen_bool(0.5) { EventChannel::ReliableOrdered } else { EventChannel::Unreliable })
                    } else {
                        None
                    };
                    FieldDescriptor { field_index, encoding, condition, event_channel, accessible: false }
                })
                .collect();
            let schema = ReplicationSchema { component_type, fields, local: false };
            reg.insert_schema(schema.clone());
            expected.push(schema);
        }

        let msg = reg.handshake_message();
        let reg2 = ReplicationRegistry::from_handshake(&msg).expect("valid handshake");

        assert_eq!(reg2.len(), expected.len());
        for schema in &expected {
            let s2 = reg2.schema(schema.component_type).expect("schema present after round trip");
            assert_eq!(s2.fields.len(), schema.fields.len());
            for (f1, f2) in schema.fields.iter().zip(s2.fields.iter()) {
                assert_eq!(f1.field_index, f2.field_index);
                assert_eq!(encoding_to_u8(&f1.encoding), encoding_to_u8(&f2.encoding));
                assert_eq!(f1.condition, f2.condition);
                assert_eq!(f1.event_channel, f2.event_channel);
            }
        }
    }
}

#[test]
fn encode_decode_round_trip_random_bytes() {
    let mut rng = StdRng::seed_from_u64(0xFEED);
    for _ in 0..200 {
        let len = rng.gen_range(1..=16);
        let original: Vec<u8> = (0..len).map(|_| rng.gen()).collect();

        for encoding in [ReplicationEncoding::Pod, ReplicationEncoding::Serialized, ReplicationEncoding::GpuHandle] {
            let mut buf = Vec::new();
            assert_eq!(encode_field_value(&encoding, &original, &mut buf, &UnboundCodec, ComponentId(1), 0), ErrorCode::Success);
            let mut decoded = vec![0u8; original.len()];
            assert_eq!(decode_field_value(&encoding, &buf, &mut decoded, &UnboundCodec, ComponentId(1), 0), ErrorCode::Success);
            assert_eq!(decoded, original, "encoding {encoding:?} round trip");
        }

        let mut buf = Vec::new();
        assert_eq!(
            encode_field_value(&ReplicationEncoding::DeltaCompressed, &original, &mut buf, &UnboundCodec, ComponentId(1), 0),
            ErrorCode::Success
        );
        let width = original.len().min(8);
        let mut decoded = vec![0u8; width];
        assert_eq!(decode_field_value(&ReplicationEncoding::DeltaCompressed, &buf, &mut decoded, &UnboundCodec, ComponentId(1), 0), ErrorCode::Success);
        if original.len() >= 8 {
            assert_eq!(decoded, original[..8]);
        } else {
            assert_eq!(decoded, original);
        }

        let mut decoded_opaque = vec![0u8; original.len()];
        let code = decode_field_value(&ReplicationEncoding::Opaque, &original, &mut decoded_opaque, &CopyCodec, ComponentId(1), 0);
        assert_eq!(code, ErrorCode::Success);
        assert_eq!(decoded_opaque, original, "Opaque decode is a raw memcpy from `data`");
    }
}

#[test]
fn relevance_set_filter_matches_manual_condition_evaluation_random() {
    let mut rng = StdRng::seed_from_u64(0xABCD);
    for _ in 0..200 {
        let entity = random_entity(&mut rng);
        let in_set = rng.gen_bool(0.5);
        let mut set = RelevanceSet::new();
        if in_set {
            set.add(entity);
        }

        let owner = match rng.gen_range(0..3) {
            0 => Ownership::Server,
            1 => Ownership::Client(ClientId(rng.gen_range(0..5))),
            _ => Ownership::Shared,
        };
        let mut authority = AuthorityTable::new();
        authority.set_entity_owner(entity, owner);

        let client = ClientId(rng.gen_range(0..5));

        let cid = ComponentId(1);
        let n_fields = rng.gen_range(0..5);
        let conditions: Vec<ReplicationCondition> = (0..n_fields).map(|_| random_condition(&mut rng)).collect();
        let schema_fields = conditions
            .iter()
            .enumerate()
            .map(|(i, &condition)| FieldDescriptor {
                field_index: i as u32,
                encoding: ReplicationEncoding::Pod,
                condition,
                event_channel: None,
                accessible: false,
            })
            .collect();

        let mut reg = ReplicationRegistry::new();
        reg.insert_schema(ReplicationSchema { component_type: cid, fields: schema_fields, local: false });

        let delta = Delta {
            frame: 0, base_frame: 0,
            spawned: vec![], despawned: vec![],
            component_deltas: vec![ComponentDelta {
                entity,
                component_type: cid,
                field_data: vec![vec![1]; n_fields],
            }],
            events: vec![],
        };

        let view = set.filter(&delta, &authority, &reg, client);
        let expected = in_set && conditions.iter().all(|c| condition_passes(c, &owner, &client));
        assert_eq!(
            !view.component_deltas.is_empty(),
            expected,
            "in_set={in_set} owner={owner:?} client={client:?} conditions={conditions:?}"
        );
    }
}

#[test]
fn resolve_conflict_is_deterministic_random() {
    let mut rng = StdRng::seed_from_u64(0x5EED);
    let at = AuthorityTable::new();
    for _ in 0..50 {
        let a = random_delta(&mut rng);
        let b = random_delta(&mut rng);
        let ca = ClientId(rng.gen_range(0..10));
        let cb = ClientId(rng.gen_range(0..10));

        let r1 = AuthorityTable::resolve_conflict(&at, &a, ca, &b, cb);
        let r2 = AuthorityTable::resolve_conflict(&at, &a, ca, &b, cb);
        assert_deltas_equal(&r1, &r2);
    }
}

#[test]
fn delta_from_bytes_truncated_at_every_offset_never_panics() {
    let mut rng = StdRng::seed_from_u64(0xBEEF01);
    for _ in 0..20 {
        let d = random_delta(&mut rng);
        let bytes = d.to_bytes();
        for cut in 0..bytes.len() {
            let _ = Delta::from_bytes(&bytes[..cut]);
        }
        assert!(Delta::from_bytes(&bytes).is_some());
    }
}

#[test]
fn delta_from_bytes_huge_claimed_counts_do_not_over_allocate() {
    fn header_with_count_at(offset_in_body: usize, count: u32) -> Vec<u8> {
        let mut bytes = vec![0u8; 16 + offset_in_body + 4];
        bytes[16 + offset_in_body..16 + offset_in_body + 4].copy_from_slice(&count.to_le_bytes());
        bytes
    }

    assert!(Delta::from_bytes(&header_with_count_at(0, u32::MAX)).is_none());

    assert!(Delta::from_bytes(&header_with_count_at(4, u32::MAX)).is_none());

    assert!(Delta::from_bytes(&header_with_count_at(8, u32::MAX)).is_none());

    assert!(Delta::from_bytes(&header_with_count_at(12, u32::MAX)).is_none());
}

#[test]
fn delta_from_bytes_huge_nested_field_count_does_not_over_allocate() {
    let mut bytes = Vec::new();
    bytes.extend_from_slice(&0u64.to_le_bytes()); // frame
    bytes.extend_from_slice(&0u64.to_le_bytes()); // base_frame
    bytes.extend_from_slice(&0u32.to_le_bytes()); // spawned_count
    bytes.extend_from_slice(&0u32.to_le_bytes()); // despawned_count
    bytes.extend_from_slice(&1u32.to_le_bytes()); // cd_count
    bytes.extend_from_slice(&0u64.to_le_bytes()); // entity
    bytes.extend_from_slice(&0u32.to_le_bytes()); // component_type
    bytes.extend_from_slice(&u32::MAX.to_le_bytes()); // field_count
    assert!(Delta::from_bytes(&bytes).is_none());
}

#[test]
fn handshake_huge_claimed_field_count_does_not_over_allocate() {
    let mut bytes = Vec::new();
    bytes.extend_from_slice(&1u32.to_le_bytes()); // schema_count
    bytes.extend_from_slice(&1u32.to_le_bytes()); // component_type
    bytes.extend_from_slice(&u32::MAX.to_le_bytes()); // field_count
    assert!(ReplicationRegistry::from_handshake(&bytes).is_err());
}

#[test]
fn handshake_truncated_at_every_offset_never_panics() {
    let mut rng = StdRng::seed_from_u64(0xBEEF02);
    for _ in 0..20 {
        let mut reg = ReplicationRegistry::new();
        let n_schemas = rng.gen_range(1..4);
        for _ in 0..n_schemas {
            let component_type = ComponentId(rng.gen_range(1..1000));
            let n_fields = rng.gen_range(0..5);
            let fields = (0..n_fields)
                .map(|field_index| FieldDescriptor {
                    field_index,
                    encoding: random_encoding(&mut rng),
                    condition: random_condition(&mut rng),
                    event_channel: None,
                    accessible: false,
                })
                .collect();
            reg.insert_schema(ReplicationSchema { component_type, fields, local: false });
        }
        let msg = reg.handshake_message();
        for cut in 0..msg.len() {
            let _ = ReplicationRegistry::from_handshake(&msg[..cut]);
        }
        assert!(ReplicationRegistry::from_handshake(&msg).is_ok());
    }
}

#[test]
fn string_replicate_decode_never_panics_on_random_bytes() {
    let mut rng = StdRng::seed_from_u64(0xBEEF03);
    for _ in 0..500 {
        let bytes = random_bytes(&mut rng, 32);
        let _ = String::replicate_decode(&bytes);
    }
}

#[test]
fn vec_replicate_decode_rejects_truncated_length_prefix() {
    let mut bytes = 100u32.to_le_bytes().to_vec();
    assert_eq!(Vec::<u32>::replicate_decode(&bytes), Err(ErrorCode::InvalidData));

    bytes = 1u32.to_le_bytes().to_vec();
    bytes.extend_from_slice(&1_000_000u32.to_le_bytes());
    bytes.extend_from_slice(&[1, 2, 3]);
    assert_eq!(Vec::<u32>::replicate_decode(&bytes), Err(ErrorCode::InvalidData));

    let mut rng = StdRng::seed_from_u64(0xBEEF04);
    for _ in 0..500 {
        let bytes = random_bytes(&mut rng, 16);
        let _ = Vec::<u32>::replicate_decode(&bytes);
        let _ = Vec::<String>::replicate_decode(&bytes);
    }
}

#[test]
fn option_replicate_decode_rejects_invalid_tag() {
    assert_eq!(Option::<u32>::replicate_decode(&[]), Err(ErrorCode::InvalidData));
    assert_eq!(Option::<u32>::replicate_decode(&[2]), Err(ErrorCode::InvalidData));
    assert_eq!(Option::<u32>::replicate_decode(&[0]), Ok(None));
    assert_eq!(Option::<u32>::replicate_decode(&[1, 0, 0]), Err(ErrorCode::InvalidData));
}

#[test]
fn pod_replicate_decode_rejects_wrong_length_instead_of_ub() {
    assert_eq!(u32::replicate_decode(&[1, 2, 3]), Err(ErrorCode::InvalidData));
    assert_eq!(u32::replicate_decode(&[1, 2, 3, 4, 5]), Err(ErrorCode::InvalidData));
    assert_eq!(u64::replicate_decode(&[0u8; 7]), Err(ErrorCode::InvalidData));
    assert!(u32::replicate_decode(&1.5f32.to_le_bytes()).is_ok());
}

#[test]
fn f32_array_replicate_decode_rejects_wrong_length() {
    assert_eq!(<[u32; 3]>::replicate_decode(&[0u8; 11]), Err(ErrorCode::InvalidData));
    assert_eq!(<[u32; 3]>::replicate_decode(&[0u8; 13]), Err(ErrorCode::InvalidData));
    let encoded = {
        let mut buf = Vec::new();
        [1.0f32.to_bits(), 2.0f32.to_bits(), 3.0f32.to_bits()].replicate_encode(&mut buf);
        buf
    };
    assert_eq!(<[u32; 3]>::replicate_decode(&encoded), Ok([1.0f32.to_bits(), 2.0f32.to_bits(), 3.0f32.to_bits()]));
}
