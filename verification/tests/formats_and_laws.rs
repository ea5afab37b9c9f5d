//! Exact wire formats, error cases, and the laws of the library on concrete
//! values.

use pulsar_scenedb::cell::{CellStorage, Handle};
use pulsar_scenedb::component::ComponentId;
use pulsar_scenedb::entity::Entity;
use pulsar_scenedb::gpu::region::RegionPool;
use pulsar_scenedb::replication::authority::AuthorityTable;
use pulsar_scenedb::replication::encoding::{
    bytes_to_u64_lossy, decode_archetype_key, decode_field_value, encode_archetype_key, encode_field_value,
    leb128_decode, leb128_encode, xor_bytes, BoundCodec, CopyCodec, OpaqueCodec, UnboundCodec,
};
use pulsar_scenedb::replication::relevance::RelevanceSet;
use pulsar_scenedb::replication::replicable::Replicable;
use pulsar_scenedb::replication::schema::{
    u8_from_condition, u8_from_encoding, u8_from_event_channel, ReplicationRegistry, ReplicationSchema,
};
use pulsar_scenedb::replication::snapshot::Snapshot;
use pulsar_scenedb::replication::tracker::ChangeTracker;
use pulsar_scenedb::replication::types::{
    ClientId, ComponentDelta, Delta, ErrorCode, EventChannel, Ownership, ReplicatedEvent, ReplicationCondition,
    ReplicationEncoding,
};
use pulsar_scenedb::replication::value::ReplicatedValue;
use pulsar_scenedb::world::{World, MAX_SLOT_GROWTH_PER_SPAWN};

const WORD: ComponentId = ComponentId(3);

fn empty_delta() -> Delta {
    Delta { frame: 0, base_frame: 0, spawned: vec![], despawned: vec![], component_deltas: vec![], events: vec![] }
}

#[test]
fn a_delta_has_this_form_on_the_wire() {
    let e = Entity::new(1, 2);
    let delta = Delta {
        frame: 7,
        base_frame: 6,
        spawned: vec![(e, vec![0xAA])],
        despawned: vec![e],
        component_deltas: vec![ComponentDelta { entity: e, component_type: WORD, field_data: vec![vec![9, 8]] }],
        events: vec![ReplicatedEvent {
            entity: e,
            component_type: WORD,
            event_field: 4,
            payload: vec![5],
            channel: EventChannel::Unreliable,
            target_client: Some(ClientId(6)),
        }],
    };
    let bits = [1u8, 0, 0, 0, 2, 0, 0, 0];
    let mut want: Vec<u8> = vec![7, 0, 0, 0, 0, 0, 0, 0, 6, 0, 0, 0, 0, 0, 0, 0];
    want.extend([1, 0, 0, 0]);
    want.extend(bits);
    want.extend([1, 0, 0, 0, 0xAA]);
    want.extend([1, 0, 0, 0]);
    want.extend(bits);
    want.extend([1, 0, 0, 0]);
    want.extend(bits);
    want.extend([3, 0, 0, 0, 1, 0, 0, 0, 2, 0, 0, 0, 9, 8]);
    want.extend([1, 0, 0, 0]);
    want.extend(bits);
    want.extend([3, 0, 0, 0, 4, 0, 0, 0, 1, 0, 0, 0, 5, 1, 1, 6, 0, 0, 0, 0, 0, 0, 0]);
    assert_eq!(delta.to_bytes(), want);
}

#[test]
fn a_handshake_has_this_form_on_the_wire() {
    let mut reg = ReplicationRegistry::new();
    let builder = reg.register(WORD);
    reg.insert(
        builder
            .field("x", ReplicationEncoding::DeltaCompressed, ReplicationCondition::SkipOwner)
            .event("e", ReplicationCondition::Multicast, EventChannel::Unreliable),
    );
    assert_eq!(
        reg.handshake_message(),
        vec![1, 0, 0, 0, 3, 0, 0, 0, 2, 0, 0, 0, 0, 0, 0, 0, 3, 2, 0, 1, 0, 0, 0, 4, 10, 2]
    );
}

#[test]
fn unknown_codes_in_a_handshake_are_refused() {
    assert_eq!(u8_from_encoding(6), Err(ErrorCode::InvalidData));
    assert_eq!(u8_from_condition(11), Err(ErrorCode::InvalidData));
    assert_eq!(u8_from_event_channel(3), Err(ErrorCode::InvalidData));
    assert_eq!(u8_from_condition(10), Ok(ReplicationCondition::Multicast));
    assert_eq!(u8_from_event_channel(0), Ok(None));
}

#[test]
fn a_remote_peer_learns_the_fields_but_cannot_make_rows() {
    let mut reg = ReplicationRegistry::new();
    let builder = reg.register(WORD);
    reg.insert(builder.whole_field("v", ReplicationEncoding::Pod, ReplicationCondition::Always));
    assert!(reg.row_ops(WORD));
    let remote = ReplicationRegistry::from_handshake(&reg.handshake_message()).unwrap();
    assert!(!remote.row_ops(WORD));
    let delta = Delta { spawned: vec![(Entity::new(0, 1), encode_archetype_key(&[WORD]))], ..empty_delta() };
    let mut world: World<u32> = World::new();
    assert_eq!(delta.apply(&mut world, &remote), Err(ErrorCode::InvalidData));
    assert_eq!(delta.apply(&mut world, &reg), Ok(()));
}

#[test]
fn an_archetype_key_is_a_counted_list() {
    assert_eq!(
        encode_archetype_key(&[ComponentId(258), ComponentId(1)]),
        vec![2, 0, 0, 0, 2, 1, 0, 0, 1, 0, 0, 0]
    );
}

#[test]
fn numbers_in_groups_of_seven_bits() {
    let mut buf = Vec::new();
    leb128_encode(300, &mut buf);
    assert_eq!(buf, vec![0xAC, 0x02]);
    assert_eq!(leb128_decode(&[0xAC, 0x02, 0xFF]), Ok((300, 2)));
    assert_eq!(leb128_decode(&[0x80]), Err(ErrorCode::InvalidData));
    assert_eq!(leb128_decode(&[]), Err(ErrorCode::InvalidData));
    let mut longest = Vec::new();
    leb128_encode(u64::MAX, &mut longest);
    assert_eq!(longest.len(), 10);
    assert_eq!(leb128_decode(&longest), Ok((u64::MAX, 10)));
    assert_eq!(leb128_decode(&[0xFF; 12]), Err(ErrorCode::InvalidData), "no more than 64 bits");
}

#[test]
fn short_and_long_values_as_one_word() {
    assert_eq!(bytes_to_u64_lossy(&[1, 2]), 0x0201);
    assert_eq!(bytes_to_u64_lossy(&[1, 0, 0, 0, 0, 0, 0, 0, 9]), 1);
    assert_eq!(xor_bytes(&[1, 2, 3], &[3]), vec![2, 2, 3]);
}

#[test]
fn a_field_that_is_too_short_names_what_it_needs() {
    let mut dst = [0u8; 4];
    assert_eq!(
        decode_field_value(&ReplicationEncoding::Pod, &[1, 2], &mut dst, &UnboundCodec, ComponentId(1), 0),
        ErrorCode::BufferTooSmall { needed: 4 }
    );
    assert_eq!(dst, [0u8; 4]);
    assert_eq!(
        decode_field_value(&ReplicationEncoding::Opaque, &[1, 2], &mut dst, &UnboundCodec, ComponentId(1), 0),
        ErrorCode::InvalidData
    );
    assert_eq!(
        decode_field_value(&ReplicationEncoding::Opaque, &[1, 2], &mut dst, &CopyCodec, ComponentId(1), 0),
        ErrorCode::Success
    );
    assert_eq!(dst, [1, 2, 0, 0]);
    let mut buf = Vec::new();
    assert_eq!(
        encode_field_value(&ReplicationEncoding::DeltaCompressed, &[172, 1], &mut buf, &UnboundCodec, ComponentId(1), 0),
        ErrorCode::Success
    );
    assert_eq!(buf, vec![0xAC, 0x03]);
}

#[test]
fn replicated_values_read_back_what_was_written() {
    fn round_trip<T: Replicable>(value: &T) -> Result<T, ErrorCode> {
        let mut buf = Vec::new();
        value.replicate_encode(&mut buf);
        T::replicate_decode(&buf)
    }
    assert_eq!(round_trip(&"h\u{e9}llo".to_string()), Ok("h\u{e9}llo".to_string()));
    assert_eq!(String::replicate_decode(&[0xFF]), Err(ErrorCode::InvalidData));
    assert_eq!(round_trip(&vec!["a".to_string(), String::new()]), Ok(vec!["a".to_string(), String::new()]));
    assert_eq!(round_trip(&Some(7u32)), Ok(Some(7)));
    assert_eq!(round_trip(&None::<u32>), Ok(None));
    assert_eq!(round_trip(&0x0102u16), Ok(0x0102));
    assert_eq!(round_trip(&[1u32, 2, 3, 4]), Ok([1, 2, 3, 4]));
    let mut buf = Vec::new();
    vec![1u8, 2].replicate_encode(&mut buf);
    assert_eq!(buf, vec![2, 0, 0, 0, 1, 0, 0, 0, 1, 1, 0, 0, 0, 2]);
    assert_eq!(String::replicate_default(), String::new());
}

#[test]
fn a_handle_far_beyond_the_slots_is_refused() {
    let reg = ReplicationRegistry::new();
    let mut world: World<u32> = World::new();
    let near = Entity::new(MAX_SLOT_GROWTH_PER_SPAWN, 0);
    let far = Entity::new(MAX_SLOT_GROWTH_PER_SPAWN + 1, 0);
    let spawn = |e| Delta { spawned: vec![(e, vec![])], ..empty_delta() };
    assert_eq!(spawn(far).apply(&mut world, &reg), Err(ErrorCode::InvalidData));
    assert_eq!(spawn(near).apply(&mut world, &reg), Ok(()));
    assert!(world.is_alive(near));
    assert!(!world.is_alive(far));
}

#[test]
fn merging_does_not_depend_on_the_order_of_the_peers() {
    let at = AuthorityTable::new();
    let e = Entity::new(0, 1);
    let write = |bytes: Vec<u8>| Delta {
        component_deltas: vec![ComponentDelta { entity: e, component_type: WORD, field_data: vec![bytes] }],
        ..empty_delta()
    };
    let a = write(vec![1]);
    let b = write(vec![2]);
    let one = AuthorityTable::resolve_conflict(&at, &a, ClientId(3), &b, ClientId(4));
    let two = AuthorityTable::resolve_conflict(&at, &b, ClientId(4), &a, ClientId(3));
    assert_eq!(one.to_bytes(), two.to_bytes());
    assert_eq!(one.component_deltas[0].field_data, vec![vec![2]]);
}

#[test]
fn a_snapshot_takes_the_place_of_what_was_in_its_slots() {
    let mut reg = ReplicationRegistry::new();
    let builder = reg.register(WORD);
    reg.insert(builder.whole_field("v", ReplicationEncoding::Pod, ReplicationCondition::Always));
    let mut source: World<u32> = World::new();
    let a = source.spawn();
    source.insert(a, WORD, 5);
    let snap = Snapshot::capture_full(&source, &reg, 1);

    let mut target: World<u32> = World::new();
    let stale = target.spawn();
    target.insert(stale, WORD, 1);
    let other = target.spawn();
    target.insert(other, WORD, 2);
    assert_eq!(stale.index(), a.index());
    assert_eq!(snap.restore_to_world(&mut target, &reg), Ok(()));
    assert_eq!(target.get(a, WORD), Some(&5));
    assert_eq!(target.get(other, WORD), Some(&2), "other slots stay as they are");
}

#[test]
fn events_are_not_captured() {
    let mut reg = ReplicationRegistry::new();
    let builder = reg.register(WORD);
    reg.insert(
        builder
            .event("e", ReplicationCondition::Multicast, EventChannel::ReliableOrdered)
            .whole_field("v", ReplicationEncoding::Pod, ReplicationCondition::Always),
    );
    let mut world: World<u32> = World::new();
    let e = world.spawn();
    world.insert(e, WORD, 0x01020304);
    let snap = Snapshot::capture_full(&world, &reg, 1);
    assert_eq!(snap.entities[0].components, vec![(WORD, vec![vec![], vec![4, 3, 2, 1]])]);
}

#[test]
fn a_hidden_entity_is_not_in_the_view() {
    let e = Entity::new(0, 1);
    let hidden = Entity::new(1, 1);
    let mut set = RelevanceSet::new();
    set.add(e);
    let event = |entity| ReplicatedEvent {
        entity,
        component_type: WORD,
        event_field: 0,
        payload: vec![],
        channel: EventChannel::Unreliable,
        target_client: None,
    };
    let delta = Delta {
        component_deltas: vec![
            ComponentDelta { entity: hidden, component_type: WORD, field_data: vec![vec![1]] },
            ComponentDelta { entity: e, component_type: WORD, field_data: vec![vec![2]] },
        ],
        events: vec![event(hidden), event(e)],
        ..empty_delta()
    };
    let mut table = AuthorityTable::new();
    table.set_entity_owner(e, Ownership::Shared);
    let view = set.filter(&delta, &table, &ReplicationRegistry::new(), ClientId(1));
    assert_eq!(view.component_deltas.len(), 1);
    assert_eq!(view.component_deltas[0].entity, e);
    assert!(view.events.iter().all(|ev| ev.entity == e));
}

#[test]
fn compacting_a_cell_keeps_its_live_rows() {
    let mut cell = CellStorage::new(8, &vec![(WORD, 1)]);
    let handles: Vec<Handle> = (0..5).map(|_| cell.allocate().unwrap()).collect();
    for (i, h) in handles.iter().enumerate() {
        let row = cell.row_of(*h).unwrap();
        cell.write_row(0, row, &[i as u8 + 10]);
    }
    assert!(cell.free(handles[1]));
    assert!(cell.free(handles[3]));
    assert!(!cell.free(handles[3]), "a stale handle frees nothing");
    cell.compact_report();
    assert_eq!(cell.rows_in_use(), 3);
    for i in [0usize, 2, 4] {
        let row = cell.row_of(handles[i]).unwrap();
        assert_eq!(cell.columns()[0].rows[row as usize], vec![i as u8 + 10]);
    }
    let again = cell.allocate().unwrap();
    assert_ne!(again, handles[1]);
    assert_ne!(again, handles[3]);
}

#[test]
fn a_pinned_region_is_free_once_its_work_is_done() {
    let mut pool = RegionPool::new(10, 4, 2);
    let a = pool.allocate().unwrap();
    let b = pool.allocate().unwrap();
    assert_ne!(pool.start(a), pool.start(b));
    assert!(pool.start(a) >= 10 && pool.start(b) >= 10);
    assert_eq!(pool.allocate(), None);
    pool.free_pinned(a, 5);
    pool.drain_completed(4);
    assert_eq!(pool.allocate(), None);
    pool.drain_completed(5);
    assert_eq!(pool.allocate(), Some(a));
}

#[test]
fn a_frame_number_is_no_archetype_key() {
    for frame in [0u64, 1, 2, 7, 0xFFFF_FFFF] {
        assert_eq!(decode_archetype_key(&frame.to_le_bytes()), None);
    }
    assert_eq!(decode_archetype_key(&[0, 0, 0, 0]), Some(vec![]));
    assert_eq!(decode_archetype_key(&[1, 0, 0, 0, 3, 0, 0, 0]), Some(vec![WORD]));
    assert_eq!(decode_archetype_key(&[2, 0, 0, 0, 3, 0, 0, 0, 0, 0, 0, 0]), None, "number 0 is no type");
}

#[test]
fn a_spawn_of_a_plain_drain_has_no_components() {
    let schema = ReplicationSchema { component_type: WORD, fields: vec![], local: false };
    let mut tracker = ChangeTracker::new();
    while tracker.frame < 1 {
        tracker.end_frame();
    }
    let e = Entity::new(0, 0);
    tracker.record_spawn(e);
    let (delta, _) = tracker.drain(&schema, ClientId(0), &AuthorityTable::new());
    assert_eq!(delta.spawned, vec![(e, 1u64.to_le_bytes().to_vec())]);

    let mut world: World<u32> = World::new();
    assert_eq!(delta.apply(&mut world, &ReplicationRegistry::new()), Ok(()));
    assert!(world.is_alive(e));
    assert_eq!(world.get(e, WORD), None);
}

#[test]
fn scratch_space_makes_no_difference_to_a_delta() {
    let mut reg = ReplicationRegistry::new();
    let builder = reg.register(WORD);
    reg.insert(builder.whole_field("v", ReplicationEncoding::Pod, ReplicationCondition::Always));
    let e = Entity::new(4, 2);
    let delta = Delta {
        spawned: vec![(e, encode_archetype_key(&[WORD]))],
        component_deltas: vec![ComponentDelta { entity: e, component_type: WORD, field_data: vec![vec![9, 0, 0, 0]] }],
        ..empty_delta()
    };
    let mut one: World<u32> = World::new();
    let mut two: World<u32> = World::new();
    let mut scratch = vec![1u8, 2, 3];
    assert_eq!(delta.apply(&mut one, &reg), Ok(()));
    assert_eq!(delta.apply_with_scratch(&mut two, &reg, &mut scratch), Ok(()));
    assert_eq!(one.get(e, WORD), Some(&9));
    assert_eq!(two.get(e, WORD), Some(&9));
    assert_eq!(scratch, vec![1, 2, 3]);
}

const OTHER: ComponentId = ComponentId(5);

#[test]
fn each_opaque_field_has_a_codec_of_its_own() {
    let mut reg = ReplicationRegistry::new();
    for cid in [WORD, OTHER] {
        let builder = reg.register(cid);
        reg.insert(builder.whole_field("v", ReplicationEncoding::Opaque, ReplicationCondition::Always));
    }
    let columns = vec![(WORD, 2), (OTHER, 2)];
    let mut cell = CellStorage::new(4, &columns);
    cell.allocate().unwrap();
    cell.write_row(0, 0, &[1, 2]);
    cell.write_row(1, 0, &[3, 4]);
    let cells = vec![cell];
    let of = |snap: &Snapshot, cid| snap.cell_rows[0].components.iter().find(|c| c.0 == cid).unwrap().1.clone();

    let one = BoundCodec { component: WORD, field: 0, codec: CopyCodec, rest: UnboundCodec };
    let snap = Snapshot::capture_cells(&cells, &reg, 1, &one);
    assert_eq!(of(&snap, WORD), vec![vec![1, 2]]);
    assert_eq!(of(&snap, OTHER), vec![Vec::<u8>::new()], "a field without a codec writes nothing");

    let both = BoundCodec { component: OTHER, field: 0, codec: CopyCodec, rest: one };
    let snap = Snapshot::capture_cells(&cells, &reg, 1, &both);
    assert_eq!(of(&snap, WORD), vec![vec![1, 2]]);
    assert_eq!(of(&snap, OTHER), vec![vec![3, 4]]);

    let mut back = vec![CellStorage::new(4, &columns)];
    assert_eq!(snap.restore_to_cells(&mut back, &reg, &both), Ok(()));
    assert_eq!(back[0].columns()[0].rows[0], vec![1, 2]);
    assert_eq!(back[0].columns()[1].rows[0], vec![3, 4]);

    let mut refused = vec![CellStorage::new(4, &columns)];
    let half = BoundCodec { component: OTHER, field: 0, codec: CopyCodec, rest: UnboundCodec };
    assert_eq!(snap.restore_to_cells(&mut refused, &reg, &half), Err(ErrorCode::InvalidData));
    let other_field = BoundCodec { component: OTHER, field: 1, codec: CopyCodec, rest: UnboundCodec };
    let mut buf = Vec::new();
    assert_eq!(other_field.encode(OTHER, 0, &[1], &mut buf), ErrorCode::InvalidData);
    assert_eq!(other_field.encode(OTHER, 1, &[1], &mut buf), ErrorCode::Success);
    assert_eq!(buf, vec![1]);
}

#[test]
fn a_relevant_capture_is_the_full_one_restricted() {
    let mut reg = ReplicationRegistry::new();
    let builder = reg.register(WORD);
    reg.insert(builder.whole_field("v", ReplicationEncoding::Pod, ReplicationCondition::Always));
    let mut world: World<u32> = World::new();
    let list: Vec<Entity> = (0..4).map(|_| world.spawn()).collect();
    for (i, e) in list.iter().enumerate() {
        world.insert(*e, WORD, i as u32);
    }
    let mut set = RelevanceSet::new();
    set.add(list[3]);
    set.add(list[1]);
    let full = Snapshot::capture_full(&world, &reg, 9);
    let some = Snapshot::capture_relevant(&world, &reg, &set, 9);
    let want: Vec<_> = full.entities.iter().filter(|s| s.entity == list[1] || s.entity == list[3]).collect();
    assert_eq!(some.frame, 9);
    assert_eq!(some.entities.len(), 2);
    for (got, want) in some.entities.iter().zip(want) {
        assert_eq!(got.entity, want.entity);
        assert_eq!(got.components, want.components);
    }
    assert!(some.cell_rows.is_empty());
    assert!(Snapshot::capture_relevant(&world, &reg, &RelevanceSet::new(), 9).entities.is_empty());
}

#[test]
fn a_field_that_is_not_replicated_starts_fresh() {
    let mut reg = ReplicationRegistry::new();
    let builder = reg.register(WORD);
    reg.insert(builder.field("a", ReplicationEncoding::Pod, ReplicationCondition::Always));
    let mut source: World<(u32, u32)> = World::new();
    let e = source.spawn();
    source.insert(e, WORD, (5, 6));
    let snap = Snapshot::capture_full(&source, &reg, 1);
    let mut target: World<(u32, u32)> = World::new();
    assert_eq!(snap.restore_to_world(&mut target, &reg), Ok(()));
    assert_eq!(target.get(e, WORD), Some(&(5, 0)));
    let again = Snapshot::capture_full(&target, &reg, 1);
    assert_eq!(again.entities[0].components, snap.entities[0].components);
}

#[test]
fn the_fields_of_a_pair_are_its_words() {
    let mut pair = (1u32, 0x0203u32);
    assert_eq!(pair.encode_field(WORD, 1), Ok(vec![3, 2, 0, 0]));
    assert_eq!(pair.encode_field(WORD, 2), Err(ErrorCode::InvalidData));
    assert_eq!(pair.decode_field(WORD, 0, &[9, 0, 0, 0]), Ok(()));
    assert_eq!(pair.decode_field(WORD, 0, &[9]), Err(ErrorCode::InvalidData));
    assert_eq!(pair, (9, 0x0203));
    assert_eq!(pair.encode_whole(), vec![9, 0, 0, 0, 3, 2, 0, 0]);
}

#[test]
fn removing_what_was_inserted_leaves_the_world_as_it_was() {
    let mut world: World<u32> = World::new();
    let e = world.spawn();
    let x = world.spawn();
    world.insert(x, WORD, 1);
    world.insert(e, OTHER, 2);
    world.insert(e, WORD, 3);
    assert_eq!(world.remove(e, WORD), Some(3));
    assert_eq!(world.remove(e, WORD), None);
    assert_eq!(world.get(e, WORD), None);
    assert_eq!(world.get(e, OTHER), Some(&2));
    assert_eq!(world.get(x, WORD), Some(&1));
    assert!(world.is_alive(e));
    assert_eq!(world.occupant(e.index()), Some(e));
    assert!(world.despawn(e));
    assert_eq!(world.occupant(e.index()), None);
    assert_eq!(world.occupant(99), None);
}

#[test]
fn a_delta_leaves_the_slots_in_this_state() {
    let mut world: World<u32> = World::new();
    let a = world.spawn();
    let b = world.spawn();
    let c = Entity::new(4, 7);
    let delta = Delta { despawned: vec![a], spawned: vec![(c, vec![])], ..empty_delta() };
    assert_eq!(delta.apply(&mut world, &ReplicationRegistry::new()), Ok(()));
    assert!(!world.is_alive(a));
    assert!(world.is_alive(b));
    assert!(world.is_alive(c));
    let next: Vec<Entity> = (0..4).map(|_| world.spawn()).collect();
    assert_eq!(
        next,
        vec![
            Entity::new(3, 0),
            Entity::new(2, 0),
            Entity::new(a.index(), a.generation() + 1),
            Entity::new(5, 0),
        ]
    );
    assert!(!world.is_alive(a), "a despawned handle stays stale when its slot is used again");
}

#[test]
fn a_refused_spawn_empties_its_slot() {
    let mut world: World<u32> = World::new();
    let a = world.spawn();
    let b = world.spawn();
    let delta = Delta {
        spawned: vec![(Entity::new(a.index(), 9), encode_archetype_key(&[WORD]))],
        ..empty_delta()
    };
    assert_eq!(delta.apply(&mut world, &ReplicationRegistry::new()), Err(ErrorCode::InvalidData));
    assert!(!world.is_alive(a));
    assert!(world.is_alive(b));
    assert!(!world.is_alive(Entity::new(a.index(), 9)));
    assert_eq!(world.spawn(), Entity::new(a.index(), a.generation() + 1));
}

#[test]
fn a_spawn_may_name_an_earlier_generation() {
    let mut world: World<u32> = World::new();
    let first = world.spawn();
    assert!(world.despawn(first));
    let second = world.spawn();
    assert_eq!(second, Entity::new(first.index(), first.generation() + 1));
    let delta = Delta { spawned: vec![(first, vec![])], ..empty_delta() };
    assert_eq!(delta.apply(&mut world, &ReplicationRegistry::new()), Ok(()));
    assert!(world.is_alive(first));
    assert!(!world.is_alive(second));
}

#[test]
fn a_snapshot_leaves_the_slots_in_this_state() {
    let reg = ReplicationRegistry::new();
    let mut source: World<u32> = World::new();
    let list: Vec<Entity> = (0..3).map(|_| source.spawn()).collect();
    assert!(source.despawn(list[1]));
    let snap = Snapshot::capture_full(&source, &reg, 1);

    let mut target: World<u32> = World::new();
    assert_eq!(snap.restore_to_world(&mut target, &reg), Ok(()));
    assert!(target.is_alive(list[0]));
    assert!(!target.is_alive(list[1]));
    assert!(target.is_alive(list[2]));
    assert_eq!(target.spawn(), Entity::new(1, 0), "the slot between them is free and fresh");
    assert_eq!(target.spawn(), Entity::new(3, 0));
}

#[test]
fn a_delta_that_is_cut_off_anywhere_is_refused() {
    let e = Entity::new(1, 2);
    let delta = Delta {
        frame: 7,
        spawned: vec![(e, vec![0xAA])],
        despawned: vec![e, e],
        component_deltas: vec![ComponentDelta { entity: e, component_type: WORD, field_data: vec![vec![9, 8], vec![]] }],
        events: vec![ReplicatedEvent {
            entity: e,
            component_type: WORD,
            event_field: 4,
            payload: vec![5],
            channel: EventChannel::Unreliable,
            target_client: Some(ClientId(6)),
        }],
        ..empty_delta()
    };
    let bytes = delta.to_bytes();
    for k in 0..bytes.len() {
        assert!(Delta::from_bytes(&bytes[..k]).is_none(), "{k}");
    }
    assert!(Delta::from_bytes(&bytes).is_some());
}

#[test]
fn a_handshake_that_is_cut_off_anywhere_is_refused() {
    let mut reg = ReplicationRegistry::new();
    for cid in [WORD, OTHER] {
        let builder = reg.register(cid);
        reg.insert(builder.whole_field("v", ReplicationEncoding::Pod, ReplicationCondition::Always));
    }
    let bytes = reg.handshake_message();
    for k in 0..bytes.len() {
        assert!(matches!(ReplicationRegistry::from_handshake(&bytes[..k]), Err(ErrorCode::InvalidData)), "{k}");
    }
    assert!(ReplicationRegistry::from_handshake(&bytes).is_ok());
}

#[test]
fn an_archetype_key_has_one_form_only() {
    let bytes = vec![2, 0, 0, 0, 2, 1, 0, 0, 1, 0, 0, 0];
    let ids = decode_archetype_key(&bytes).unwrap();
    assert_eq!(ids, vec![ComponentId(258), ComponentId(1)]);
    assert_eq!(encode_archetype_key(&ids), bytes);
    let mut longer = bytes.clone();
    longer.push(0);
    assert_eq!(decode_archetype_key(&longer), None);
    assert_eq!(decode_archetype_key(&bytes[..11]), None);
}

#[test]
fn a_merge_is_the_winner_and_then_the_rest_of_the_loser() {
    let at = AuthorityTable::new();
    let (e, f, g) = (Entity::new(0, 1), Entity::new(1, 1), Entity::new(2, 1));
    let change = |entity, byte| ComponentDelta { entity, component_type: WORD, field_data: vec![vec![byte]] };
    let winner = Delta {
        spawned: vec![(e, vec![1])],
        despawned: vec![g],
        component_deltas: vec![change(e, 1), change(e, 2)],
        ..empty_delta()
    };
    let loser = Delta {
        spawned: vec![(f, vec![2]), (e, vec![3]), (f, vec![4])],
        despawned: vec![f, g, f],
        component_deltas: vec![change(g, 3), change(e, 4), change(f, 5), change(g, 6)],
        ..empty_delta()
    };
    let merged = AuthorityTable::resolve_conflict(&at, &winner, ClientId(2), &loser, ClientId(1));
    let changes: Vec<(Entity, u8)> =
        merged.component_deltas.iter().map(|cd| (cd.entity, cd.field_data[0][0])).collect();
    assert_eq!(changes, vec![(e, 1), (e, 2), (g, 3), (f, 5)]);
    assert_eq!(merged.spawned, vec![(e, vec![1]), (f, vec![2])]);
    assert_eq!(merged.despawned, vec![g, f]);
}

#[test]
fn signed_numbers_travel_with_their_bits() {
    let mut buf = Vec::new();
    (-2i32).replicate_encode(&mut buf);
    assert_eq!(buf, vec![0xFE, 0xFF, 0xFF, 0xFF]);
    assert_eq!(i32::replicate_decode(&buf), Ok(-2));
    buf.clear();
    i64::MIN.replicate_encode(&mut buf);
    assert_eq!(buf, vec![0, 0, 0, 0, 0, 0, 0, 0x80]);
    assert_eq!(i64::replicate_decode(&buf), Ok(i64::MIN));
    buf.clear();
    (-1i8).replicate_encode(&mut buf);
    assert_eq!(buf, vec![0xFF]);
    assert_eq!(i8::replicate_decode(&buf), Ok(-1));
    buf.clear();
    0x0102i16.replicate_encode(&mut buf);
    assert_eq!(buf, vec![2, 1]);
    assert_eq!(i16::replicate_decode(&buf), Ok(0x0102));
    assert_eq!(i32::replicate_decode(&[1, 2]), u32::replicate_decode(&[1, 2]).map(|v| v as i32));
    assert_eq!(i64::replicate_default(), 0);
}
