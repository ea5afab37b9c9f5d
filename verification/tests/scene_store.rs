//! The GPU store: partner fields, world columns, resident cells, and a world
//! that is mirrored through it.

use pulsar_scenedb::cell::CellStorage;
use pulsar_scenedb::component::ComponentId;
use pulsar_scenedb::entity::Entity;
use pulsar_scenedb::gpu::cell_store::{CellSlot, RegionClassConfig};
use pulsar_scenedb::gpu::column::{GpuColumnDesc, MirrorMode, TypeLayout, TypeToken};
use pulsar_scenedb::gpu::device::{make_word_row, CommandQueue, GpuCommand, SyncStats};
use pulsar_scenedb::gpu::mirrored_world::MirroredWorld;
use pulsar_scenedb::gpu::partner::{GpuBufferResidency, GpuPartnerRegistry, PartnerError};
use pulsar_scenedb::gpu::region::RegionError;
use pulsar_scenedb::gpu::scene_store::cells::layout_totals;
use pulsar_scenedb::gpu::scene_store::{SceneGpuConfig, SceneGpuStore};
use pulsar_scenedb::gpu::world_mirror::GpuMirrorHandle;
use pulsar_scenedb::gpu::mirrored_world::replicated::MirroredApplyError;
use pulsar_scenedb::query::{Access, QueryError};
use pulsar_scenedb::replication::encoding::encode_archetype_key;
use pulsar_scenedb::replication::schema::ReplicationRegistry;
use pulsar_scenedb::replication::snapshot::Snapshot;
use pulsar_scenedb::replication::tracker::ChangeTracker;
use pulsar_scenedb::replication::types::{
    ComponentDelta, Delta, ErrorCode, ReplicationCondition, ReplicationEncoding,
};
use pulsar_scenedb::world::World;

const MAX_BUFFER_SIZE: u64 = 256 << 20;

const F32: ComponentId = ComponentId(1);
const U32: ComponentId = ComponentId(2);
const U64: ComponentId = ComponentId(3);
const FIELD_A: ComponentId = ComponentId(4);
const FIELD_B: ComponentId = ComponentId(5);
const FIELD_C: ComponentId = ComponentId(6);
const TRANSFORM: ComponentId = ComponentId(7);
const INSTANCE_INFO: ComponentId = ComponentId(8);
const OBJECT: ComponentId = ComponentId(9);
const OBJECT_FIELD: ComponentId = ComponentId(10);
const PLAIN: ComponentId = ComponentId(11);

fn token(id: ComponentId, size: u32) -> TypeToken {
    TypeToken { type_id: id, layout: TypeLayout { size, align: if size > 8 { 4 } else { size } } }
}

fn desc(field_token: TypeToken, value_token: TypeToken, mode: MirrorMode, key: Option<&str>) -> GpuColumnDesc {
    GpuColumnDesc {
        field_token,
        value_token,
        field_offset: 0,
        mode,
        buffer_name: "value".to_string(),
        buffer_key: key.map(|k| k.to_string()),
    }
}

fn run(rows: &mut Vec<Vec<u8>>, stride: usize, queue: CommandQueue) {
    for command in queue.commands {
        match command {
            GpuCommand::Reallocate { capacity, keep } => {
                let mut next = vec![vec![0; stride]; capacity as usize];
                for i in 0..keep as usize {
                    next[i] = rows[i].clone();
                }
                *rows = next;
            }
            GpuCommand::Write { row, data } => {
                for (i, bytes) in data.into_iter().enumerate() {
                    rows[row as usize + i] = bytes;
                }
            }
            GpuCommand::Scatter { rows: at, data } => {
                for (row, bytes) in at.into_iter().zip(data) {
                    rows[row as usize] = bytes;
                }
            }
        }
    }
}

#[test]
fn compatible_named_fields_share_one_canonical_buffer_id() {
    let a = desc(token(FIELD_A, 4), token(F32, 4), MirrorMode::DirtyTracked, Some("scene.transforms"));
    let b = desc(token(FIELD_B, 4), token(F32, 4), MirrorMode::DirtyTracked, Some("scene.transforms"));
    let mut registry = GpuPartnerRegistry::new();
    assert_eq!(registry.register(a.copy()), Ok(()));
    assert_eq!(registry.register(b.copy()), Ok(()));

    assert_eq!(registry.resolve(a.field_token.id()), a.field_token.id());
    assert_eq!(registry.resolve(b.field_token.id()), a.field_token.id());
    assert_eq!(
        registry.id_for_key(&"scene.transforms".to_string()),
        Some(a.field_token.id())
    );
    assert!(registry.descriptor(b.field_token.id()).unwrap().same(&b));
}

#[test]
fn equal_display_names_without_explicit_keys_remain_distinct() {
    let a = desc(token(FIELD_A, 4), token(F32, 4), MirrorMode::DirtyTracked, None);
    let b = desc(token(FIELD_B, 4), token(F32, 4), MirrorMode::DirtyTracked, None);
    let mut registry = GpuPartnerRegistry::new();
    assert_eq!(registry.register(a.copy()), Ok(()));
    assert_eq!(registry.register(b.copy()), Ok(()));

    assert_ne!(
        registry.resolve(a.field_token.id()),
        registry.resolve(b.field_token.id())
    );
}

#[test]
#[should_panic(expected = "incompatible #[gpu(buffer = \"scene.shared\")] row types")]
fn named_fields_reject_different_row_types_even_when_size_matches() {
    let mut registry = GpuPartnerRegistry::new();
    registry
        .register(desc(token(FIELD_A, 4), token(F32, 4), MirrorMode::DirtyTracked, Some("scene.shared")))
        .unwrap();
    let refused = registry.register(desc(token(FIELD_B, 4), token(U32, 4), MirrorMode::DirtyTracked, Some("scene.shared")));
    if refused == Err(PartnerError::RowType) {
        panic!("incompatible #[gpu(buffer = \"scene.shared\")] row types");
    }
}

#[test]
#[should_panic(expected = "incompatible #[gpu(buffer = \"scene.shared\")] row layout/stride")]
fn named_fields_reject_different_row_layouts() {
    let mut registry = GpuPartnerRegistry::new();
    registry
        .register(desc(token(FIELD_A, 4), token(F32, 4), MirrorMode::DirtyTracked, Some("scene.shared")))
        .unwrap();
    let refused = registry.register(desc(token(FIELD_C, 8), token(U64, 8), MirrorMode::DirtyTracked, Some("scene.shared")));
    if refused == Err(PartnerError::RowLayout) {
        panic!("incompatible #[gpu(buffer = \"scene.shared\")] row layout/stride");
    }
}

#[test]
#[should_panic(expected = "incompatible #[gpu(buffer = \"scene.shared\")] mirror modes")]
fn named_fields_reject_different_mirror_modes() {
    let mut registry = GpuPartnerRegistry::new();
    registry
        .register(desc(token(FIELD_A, 4), token(F32, 4), MirrorMode::DirtyTracked, Some("scene.shared")))
        .unwrap();
    let refused = registry.register(desc(token(FIELD_B, 4), token(F32, 4), MirrorMode::Once, Some("scene.shared")));
    if refused == Err(PartnerError::Mode) {
        panic!("incompatible #[gpu(buffer = \"scene.shared\")] mirror modes");
    }
}

#[test]
#[should_panic(expected = "allocation domains")]
fn named_partner_rejects_fixed_and_world_residency_in_one_store() {
    let a = desc(token(FIELD_A, 4), token(F32, 4), MirrorMode::DirtyTracked, Some("scene.shared"));
    let b = desc(token(FIELD_B, 4), token(F32, 4), MirrorMode::DirtyTracked, Some("scene.shared"));
    let mut registry = GpuPartnerRegistry::new();
    registry.register(a.copy()).unwrap();
    registry.register(b.copy()).unwrap();
    assert_eq!(registry.claim_residency(a.field_token.id(), GpuBufferResidency::FixedCell), Ok(()));
    let refused = registry.claim_residency(b.field_token.id(), GpuBufferResidency::DirtyTrackedWorld);
    if refused == Err(PartnerError::Residency) {
        panic!("one column in two allocation domains");
    }
}

#[test]
fn partner_refusals() {
    let mut registry = GpuPartnerRegistry::new();
    let refused = registry.register(desc(token(FIELD_A, 4), token(U64, 8), MirrorMode::DirtyTracked, None));
    assert_eq!(refused, Err(PartnerError::FieldLayout));
    let refused = registry.register(desc(token(FIELD_A, 4), token(F32, 4), MirrorMode::DirtyTracked, Some("")));
    assert_eq!(refused, Err(PartnerError::EmptyKey));
    let a = desc(token(FIELD_A, 4), token(F32, 4), MirrorMode::DirtyTracked, None);
    assert_eq!(registry.register(a.copy()), Ok(()));
    assert_eq!(registry.register(a.copy()), Ok(()), "the same description again changes nothing");
    let refused = registry.register(desc(token(FIELD_A, 4), token(F32, 4), MirrorMode::Once, None));
    assert_eq!(refused, Err(PartnerError::Metadata));
    assert_eq!(registry.claim_world_owner(OBJECT, FIELD_A), Ok(()));
    assert_eq!(registry.claim_world_owner(PLAIN, FIELD_A), Err(PartnerError::Owner));
}

fn config() -> SceneGpuConfig {
    SceneGpuConfig {
        classes: vec![
            RegionClassConfig { capacity: 4, max_resident_cells: 2 },
            RegionClassConfig { capacity: 16, max_resident_cells: 1 },
        ],
        tombstone_headroom: SceneGpuConfig::default_headroom(),
    }
}

fn store() -> SceneGpuStore {
    SceneGpuStore::new(MAX_BUFFER_SIZE, &config(), token(TRANSFORM, 64), token(INSTANCE_INFO, 8)).unwrap()
}

fn cell(capacity: u32) -> CellStorage {
    CellStorage::new(capacity, &vec![(TRANSFORM, 64), (INSTANCE_INFO, 8)])
}

#[test]
fn a_registered_component_is_found_with_its_fields() {
    let mut store = store();
    let d = desc(token(OBJECT_FIELD, 4), token(OBJECT_FIELD, 4), MirrorMode::DirtyTracked, None);
    assert_eq!(store.register_world_mirror_registration(OBJECT, vec![d.copy()]), Ok(()));
    let found = store.gpu_column_descs_for_component(OBJECT).unwrap();
    assert_eq!(found.len(), 1);
    assert!(found[0].same(&d));
    assert_eq!(
        store.register_world_mirror_registration(OBJECT, vec![]),
        Err(PartnerError::Known)
    );
}

#[test]
fn a_type_with_a_submitted_registration_is_found_by_its_component_id() {
    let mut store = store();
    let d = desc(token(OBJECT_FIELD, 4), token(OBJECT_FIELD, 4), MirrorMode::DirtyTracked, None);
    store.register_world_mirror_registration(OBJECT, vec![d.copy()]).unwrap();
    let found = store.gpu_column_descs_for_component(OBJECT);
    assert!(found.is_some(), "a registered type must be found");
    let found = found.unwrap();
    assert_eq!(found.len(), 1);
    assert_eq!(found[0].field_token, d.field_token);
    assert_eq!(found[0].value_token, d.value_token);
    assert_eq!(found[0].field_offset, d.field_offset);
    assert_eq!(found[0].mode, d.mode);
    assert_eq!(found[0].buffer_name, d.buffer_name);
    assert_eq!(found[0].buffer_key, d.buffer_key);
}

#[test]
fn a_type_with_no_registration_is_not_found() {
    let store = store();
    assert!(store.gpu_column_descs_for_component(PLAIN).is_none());
}

#[test]
fn a_column_has_one_kind_and_one_row_size() {
    let mut store = store();
    assert_eq!(store.register_dirty_tracked_gpu_buffer(OBJECT_FIELD, 4, 4), Ok(()));
    assert_eq!(store.register_dirty_tracked_gpu_buffer(OBJECT_FIELD, 4, 4), Ok(()));
    assert_eq!(store.register_growable_gpu_buffer(PLAIN, 4, 4, None), Ok(()));
    assert_eq!(store.register_growable_gpu_buffer(PLAIN, 8, 4, None), Err(PartnerError::RowSize));
    assert_eq!(store.register_once_gpu_buffer(OBJECT_FIELD, 4, 4), Err(PartnerError::Residency));
    assert_eq!(store.register_gpu_buffer(OBJECT_FIELD, 4, 4), Err(PartnerError::Residency));
}

fn mirrored_world(mode: MirrorMode) -> MirroredWorld<u32> {
    let mut store = store();
    let d = desc(token(OBJECT_FIELD, 4), token(OBJECT_FIELD, 4), mode, None);
    store.register_world_mirror_registration(OBJECT, vec![d.copy()]).unwrap();
    store.register_gpu_column_descs(&vec![d]).unwrap();
    store.register_world_gpu_column_owner(OBJECT, OBJECT_FIELD).unwrap();
    match mode {
        MirrorMode::DirtyTracked => store.register_dirty_tracked_gpu_buffer(OBJECT_FIELD, 4, 2).unwrap(),
        MirrorMode::Once => store.register_once_gpu_buffer(OBJECT_FIELD, 4, 2).unwrap(),
    }
    store.register_component_presence_buffer(OBJECT, 2);
    let mut world = MirroredWorld::new(World::new());
    world.attach_gpu_mirror(GpuMirrorHandle::new(store));
    world
}

struct Shown {
    values: Vec<Vec<u8>>,
    presence: Vec<Vec<u8>>,
}

impl Shown {
    fn new() -> Shown {
        Shown { values: vec![vec![0; 4]; 2], presence: vec![vec![0; 4]; 2] }
    }

    fn update(&mut self, world: &mut MirroredWorld<u32>) -> SyncStats {
        assert!(world.mirror_fits());
        let stats = world.flush_gpu_mirror().unwrap();
        let store = world.gpu_mirror_mut().unwrap().store_mut();
        run(&mut self.values, 4, store.take_commands(OBJECT_FIELD));
        run(&mut self.presence, 4, store.take_presence_commands(OBJECT));
        stats
    }
}

#[test]
fn an_inserted_value_reaches_the_device_and_a_removed_one_leaves_it() {
    let mut world = mirrored_world(MirrorMode::DirtyTracked);
    let mut shown = Shown::new();
    let a = world.spawn();
    let b = world.spawn();
    assert_eq!(world.insert(a, OBJECT, 17), Ok(()));
    assert_eq!(world.insert(b, OBJECT, 23), Ok(()));
    shown.update(&mut world);
    assert_eq!(shown.values[0], make_word_row(17));
    assert_eq!(shown.values[1], make_word_row(23));
    assert_eq!(shown.presence[0], make_word_row(1));
    assert_eq!(world.gpu_row_for_component(OBJECT, b), Some(1));

    assert_eq!(world.insert(a, OBJECT, 18), Ok(()));
    shown.update(&mut world);
    assert_eq!(shown.values[0], make_word_row(18));

    assert_eq!(world.remove(a, OBJECT), Ok(Some(18)));
    assert_eq!(world.despawn(b), Ok(true));
    shown.update(&mut world);
    assert_eq!(shown.values[0], make_word_row(0));
    assert_eq!(shown.values[1], make_word_row(0));
    assert_eq!(shown.presence[0], make_word_row(0));
    assert_eq!(shown.presence[1], make_word_row(0));
    assert_eq!(world.gpu_row_for_component(OBJECT, a), None);
    assert!(!world.get_world().is_alive(b));
}

#[test]
fn a_once_field_is_handed_over_once_per_lifetime() {
    let mut world = mirrored_world(MirrorMode::Once);
    let mut shown = Shown::new();
    let a = world.spawn();
    assert_eq!(world.insert(a, OBJECT, 5), Ok(()));
    assert_eq!(world.insert(a, OBJECT, 6), Ok(()));
    shown.update(&mut world);
    assert_eq!(shown.values[0], make_word_row(5), "an update is not handed over");
    assert_eq!(world.get_world().get(a, OBJECT), Some(&6));

    assert_eq!(world.remove(a, OBJECT), Ok(Some(6)));
    assert_eq!(world.insert(a, OBJECT, 7), Ok(()));
    shown.update(&mut world);
    assert_eq!(shown.values[0], make_word_row(7), "a new lifetime is");
}

#[test]
fn a_plain_component_does_not_touch_the_mirror() {
    let mut world = mirrored_world(MirrorMode::DirtyTracked);
    let mut shown = Shown::new();
    let a = world.spawn();
    assert_eq!(world.insert(a, PLAIN, 5), Ok(()));
    assert_eq!(shown.update(&mut world), SyncStats { ranges: 0, bytes: 0 });
    assert_eq!(world.gpu_row_for_component(PLAIN, a), None);
}

#[test]
fn a_late_mirror_learns_of_a_component_with_its_next_insert() {
    let mut full = mirrored_world(MirrorMode::DirtyTracked);
    let mirror = full.detach_gpu_mirror().unwrap();
    assert!(!full.has_gpu_mirror());
    let mut world: MirroredWorld<u32> = MirroredWorld::new(World::new());
    let a = world.spawn();
    assert_eq!(world.insert(a, OBJECT, 1), Ok(()));
    world.attach_gpu_mirror(mirror);
    assert_eq!(world.gpu_row_for_component(OBJECT, a), None);
    assert_eq!(world.insert(a, OBJECT, 2), Ok(()));
    assert_eq!(world.gpu_row_for_component(OBJECT, a), Some(0));
}

#[test]
fn mirrored_components_are_not_changed_in_place() {
    let mut world = mirrored_world(MirrorMode::DirtyTracked);
    let a = world.spawn();
    assert_eq!(world.insert(a, OBJECT, 1), Ok(()));
    assert_eq!(world.insert(a, PLAIN, 2), Ok(()));
    let write = Access { component: OBJECT, mutable: true };
    assert!(matches!(world.query_mut(&write), Err(QueryError::Mirrored(OBJECT))));
    {
        let mut it = world.query_mut(&(OBJECT, Access { component: PLAIN, mutable: true })).ok().unwrap();
        assert_eq!(it.next(), Some(a));
        let seen = *it.get(0).unwrap();
        *it.get_mut(1).unwrap() += seen;
        assert_eq!(it.next(), None);
    }
    assert_eq!(world.get_world().get(a, PLAIN), Some(&3));
    world.detach_gpu_mirror();
    assert!(world.query_mut(&write).is_ok());
}

#[test]
fn only_changed_fields_are_uploaded_again() {
    let mut world = mirrored_world(MirrorMode::DirtyTracked);
    let mut shown = Shown::new();
    let a = world.spawn();
    assert_eq!(world.insert(a, OBJECT, 17), Ok(()));
    assert_ne!(shown.update(&mut world), SyncStats { ranges: 0, bytes: 0 });
    assert_eq!(world.insert(a, OBJECT, 17), Ok(()));
    assert_eq!(shown.update(&mut world), SyncStats { ranges: 0, bytes: 0 }, "the same value");
    assert_eq!(world.insert(a, OBJECT, 18), Ok(()));
    assert_eq!(shown.update(&mut world), SyncStats { ranges: 1, bytes: 4 });
    assert_eq!(shown.values[0], make_word_row(18));
}

#[test]
fn tracked_changes_are_mirrored_and_recorded() {
    let mut world = mirrored_world(MirrorMode::DirtyTracked);
    let mut shown = Shown::new();
    let mut tracker = ChangeTracker::new();
    world.reserve_entities(2);
    let a = world.spawn_tracked(&mut tracker);
    let b = world.spawn_tracked(&mut tracker);
    assert_eq!(world.insert_tracked(a, OBJECT, 7, &mut tracker), Ok(()));
    assert_eq!(world.insert_tracked(b, OBJECT, 8, &mut tracker), Ok(()));
    shown.update(&mut world);
    assert_eq!(shown.values[0], make_word_row(7));
    assert_eq!(shown.values[1], make_word_row(8));
    let delta = tracker.drain_with_world(world.get_world());
    assert_eq!(delta.spawned.len(), 2);
    assert_eq!(delta.spawned[0], (a, encode_archetype_key(&[OBJECT])));
    assert_eq!(delta.component_deltas.len(), 2);
    assert_eq!(delta.component_deltas[1].entity, b);
    assert_eq!(delta.component_deltas[1].field_data, vec![Vec::<u8>::new()], "a new component has no bytes");
    assert_eq!(world.insert_tracked(b, OBJECT, 9, &mut tracker), Ok(()));
    let delta = tracker.drain_with_world(world.get_world());
    assert_eq!(delta.component_deltas[0].field_data, vec![vec![9, 0, 0, 0]], "a replaced one has");

    assert_eq!(world.remove_tracked(a, OBJECT, &mut tracker), Ok(Some(7)));
    assert_eq!(world.remove_tracked(a, OBJECT, &mut tracker), Ok(None));
    assert_eq!(world.despawn_tracked(b, &mut tracker), Ok(true));
    assert_eq!(world.despawn_tracked(b, &mut tracker), Ok(false));
    shown.update(&mut world);
    assert_eq!(shown.values[0], make_word_row(0));
    assert_eq!(shown.presence[1], make_word_row(0));
    let delta = tracker.drain_with_world(world.get_world());
    assert_eq!(delta.despawned, vec![b]);
}

#[test]
fn a_change_in_place_is_not_mirrored() {
    let mut world = mirrored_world(MirrorMode::DirtyTracked);
    let mut shown = Shown::new();
    let a = world.spawn();
    assert_eq!(world.insert(a, OBJECT, 1), Ok(()));
    shown.update(&mut world);
    *world.get_mut(a, OBJECT).unwrap() = 2;
    assert_eq!(shown.update(&mut world), SyncStats { ranges: 0, bytes: 0 });
    assert_eq!(shown.values[0], make_word_row(1));
    assert_eq!(world.get_world().get(a, OBJECT), Some(&2));
    assert_eq!(world.get_mut(a, PLAIN), None);
}

fn object_schema() -> ReplicationRegistry {
    let mut reg = ReplicationRegistry::new();
    let builder = reg.register(OBJECT);
    reg.insert(builder.whole_field("v", ReplicationEncoding::Pod, ReplicationCondition::Always));
    reg
}

#[test]
fn a_delta_clears_what_goes_and_its_values_wait_for_the_next_insert() {
    let reg = object_schema();
    let mut world = mirrored_world(MirrorMode::DirtyTracked);
    let mut shown = Shown::new();
    let a = world.spawn();
    let b = world.spawn();
    assert_eq!(world.insert(a, OBJECT, 1), Ok(()));
    assert_eq!(world.insert(b, OBJECT, 2), Ok(()));
    shown.update(&mut world);

    let in_place_of_b = Entity::new(b.index(), b.generation() + 5);
    let delta = Delta {
        frame: 1,
        base_frame: 0,
        spawned: vec![(in_place_of_b, encode_archetype_key(&[OBJECT]))],
        despawned: vec![a],
        component_deltas: vec![ComponentDelta {
            entity: in_place_of_b,
            component_type: OBJECT,
            field_data: vec![vec![9, 0, 0, 0]],
        }],
        events: vec![],
    };
    let mut plain: World<u32> = World::new();
    assert_eq!(delta.apply(&mut plain, &reg), Ok(()));
    assert_eq!(world.apply(&delta, &reg), Ok(()));
    assert!(!world.get_world().is_alive(a));
    assert!(!world.get_world().is_alive(b));
    assert_eq!(world.get_world().get(in_place_of_b, OBJECT), Some(&9));
    assert_eq!(world.gpu_row_for_component(OBJECT, a), None);
    assert_eq!(world.gpu_row_for_component(OBJECT, b), None);
    assert_eq!(world.gpu_row_for_component(OBJECT, in_place_of_b), None);
    shown.update(&mut world);
    assert_eq!(shown.values, vec![make_word_row(0), make_word_row(0)]);
    assert_eq!(shown.presence, vec![make_word_row(0), make_word_row(0)]);

    assert_eq!(world.insert(in_place_of_b, OBJECT, 9), Ok(()));
    shown.update(&mut world);
    let row = world.gpu_row_for_component(OBJECT, in_place_of_b).unwrap();
    assert_eq!(shown.values[row as usize], make_word_row(9));
}

#[test]
fn a_mirrored_world_refuses_the_data_that_a_plain_one_refuses() {
    let mut world = mirrored_world(MirrorMode::DirtyTracked);
    let delta = Delta {
        frame: 1,
        base_frame: 0,
        spawned: vec![(Entity::new(0, 0), encode_archetype_key(&[PLAIN]))],
        despawned: vec![],
        component_deltas: vec![],
        events: vec![],
    };
    let refused = Err(MirroredApplyError::Data(ErrorCode::InvalidData));
    assert_eq!(world.apply(&delta, &object_schema()), refused);
    assert!(!world.get_world().is_alive(Entity::new(0, 0)));
}

#[test]
fn a_column_with_a_ceiling_refuses_to_clear_a_row_beyond_it() {
    let reg = object_schema();
    let mut store = store();
    let d = desc(token(OBJECT_FIELD, 4), token(OBJECT_FIELD, 4), MirrorMode::DirtyTracked, None);
    store.register_world_mirror_registration(OBJECT, vec![d.copy()]).unwrap();
    store.register_gpu_column_descs(&vec![d]).unwrap();
    store.register_world_gpu_column_owner(OBJECT, OBJECT_FIELD).unwrap();
    store.register_growable_gpu_buffer(OBJECT_FIELD, 4, 1, Some(1)).unwrap();
    store.register_component_presence_buffer(OBJECT, 2);
    let mut world: MirroredWorld<u32> = MirroredWorld::new(World::new());
    world.attach_gpu_mirror(GpuMirrorHandle::new(store));
    let a = world.spawn();
    let b = world.spawn();
    assert_eq!(world.insert(a, OBJECT, 1), Ok(()));
    let too_far = world.insert(b, OBJECT, 2).unwrap_err();
    assert_eq!(world.get_world().get(b, OBJECT), None, "the world stays as it is");

    let spawn = Delta {
        frame: 1,
        base_frame: 0,
        spawned: vec![(b, encode_archetype_key(&[OBJECT]))],
        despawned: vec![],
        component_deltas: vec![],
        events: vec![],
    };
    assert_eq!(world.apply(&spawn, &reg), Ok(()));
    let despawn = Delta {
        frame: 2,
        base_frame: 1,
        spawned: vec![],
        despawned: vec![a, b],
        component_deltas: vec![],
        events: vec![],
    };
    assert_eq!(world.apply(&despawn, &reg), Err(MirroredApplyError::Mirror(too_far)));
    assert!(!world.get_world().is_alive(a), "what came before stays applied");
    assert!(world.get_world().is_alive(b));
}

#[test]
fn a_snapshot_takes_the_place_of_mirrored_entities() {
    let reg = object_schema();
    let mut source: World<u32> = World::new();
    let a = source.spawn();
    source.insert(a, OBJECT, 5);
    let snap = Snapshot::capture_full(&source, &reg, 1);

    let mut world = mirrored_world(MirrorMode::DirtyTracked);
    let mut shown = Shown::new();
    let stale = world.spawn();
    let kept = world.spawn();
    assert_eq!(stale.index(), a.index());
    assert_eq!(world.insert(stale, OBJECT, 1), Ok(()));
    assert_eq!(world.insert(kept, OBJECT, 2), Ok(()));
    shown.update(&mut world);
    assert_eq!(world.restore(&snap, &reg), Ok(()));
    assert_eq!(world.get_world().get(a, OBJECT), Some(&5));
    assert_eq!(world.get_world().get(kept, OBJECT), Some(&2));
    assert_eq!(world.gpu_row_for_component(OBJECT, a), None);
    shown.update(&mut world);
    assert_eq!(shown.values, vec![make_word_row(0), make_word_row(2)]);
    assert_eq!(shown.presence, vec![make_word_row(0), make_word_row(1)]);
}

#[test]
fn reserved_capacity_is_not_grown_again_and_shrinking_gives_it_back() {
    let mut world = mirrored_world(MirrorMode::DirtyTracked);
    assert_eq!(world.reserve_gpu_mirror_capacity(200), Some(Ok(())));
    let epoch = world.gpu_mirror().unwrap().store().dirty_tracked_epoch_for_id(OBJECT_FIELD);
    let entities: Vec<Entity> = (0..100).map(|_| world.spawn()).collect();
    for (i, e) in entities.iter().enumerate() {
        assert_eq!(world.insert(*e, OBJECT, i as u32), Ok(()));
    }
    let mut shown = Shown::new();
    shown.update(&mut world);
    assert_eq!(world.gpu_mirror().unwrap().store().dirty_tracked_epoch_for_id(OBJECT_FIELD), epoch);
    assert_eq!(shown.values[99], make_word_row(99));
    world.shrink_gpu_mirror_to_fit(99, 0);
    shown.update(&mut world);
    assert_eq!(shown.values.len(), 100);
    assert_eq!(shown.values[42], make_word_row(42));
}

#[test]
fn size_classes_that_overflow_are_refused() {
    let cfg = SceneGpuConfig {
        classes: vec![RegionClassConfig { capacity: u32::MAX, max_resident_cells: 2 }],
        tombstone_headroom: 64,
    };
    assert!(SceneGpuStore::new(MAX_BUFFER_SIZE, &cfg, token(TRANSFORM, 64), token(INSTANCE_INFO, 8)).is_none());
}

#[test]
fn resident_cells_have_regions_of_their_own_and_run_out() {
    let mut store = store();
    let a = store.register_cell(&cell(4), 0).unwrap();
    let b = store.register_cell(&cell(4), 0).unwrap();
    assert_ne!(store.row_region_base(a), store.row_region_base(b));
    assert_eq!(store.register_cell(&cell(4), 0), Err(RegionError::RowsExhausted));
    let c = store.register_cell(&cell(16), 1).unwrap();
    assert_eq!(store.row_region_base(c), 8);
}

#[test]
fn a_written_row_is_uploaded_at_its_place_in_the_region() {
    let mut store = store();
    let mut first = cell(4);
    first.allocate().unwrap();
    let first_id = store.register_cell(&first, 0).unwrap();
    let id = store.register_cell(&cell(4), 0).unwrap();
    assert_ne!(id, first_id);
    let mut storage = cell(4);
    let h = storage.allocate().unwrap();
    let transform = vec![9u8; 64];
    assert!(store.write_transform(id, &mut storage, h, &transform));
    assert!(store.write_instance_info(id, &mut storage, h, &[1, 2, 3, 4, 5, 6, 7, 8]));

    let mut cells = vec![CellSlot { id, cell: storage }];
    assert_eq!(store.retire_all(&mut cells, 0), 0);
    store.compact_all(&mut cells);
    let stats = store.sync_all(&cells);
    assert!(stats.bytes >= 72);

    let mut rows = vec![vec![0u8; 64]; 24];
    run(&mut rows, 64, store.take_cell_commands(TRANSFORM));
    let base = store.row_region_base(id) as usize;
    assert_eq!(rows[base], transform);
    let mut infos = vec![vec![0u8; 8]; 24];
    run(&mut infos, 8, store.take_cell_commands(INSTANCE_INFO));
    assert_eq!(infos[base], vec![1, 2, 3, 4, 5, 6, 7, 8]);
}

#[test]
fn a_deferred_free_waits_for_its_serial() {
    let mut store = store();
    let mut storage = cell(4);
    let h = storage.allocate().unwrap();
    let id = store.register_cell(&storage, 0).unwrap();
    assert!(store.free_deferred(id, &mut storage, h, 7));
    assert_eq!(storage.row_of(h), None, "the handle is stale at once");
    let mut cells = vec![CellSlot { id, cell: storage }];
    assert_eq!(store.retire_all(&mut cells, 6), 0);
    store.compact_all(&mut cells);
    assert_eq!(cells[0].cell.rows_in_use(), 1, "the row is pinned");
    store.sync_all(&cells);
    assert_eq!(store.retire_all(&mut cells, 7), 1);
    store.compact_all(&mut cells);
    assert_eq!(cells[0].cell.rows_in_use(), 0);
    store.sync_all(&cells);
}

#[test]
fn rebuilding_gives_every_cell_a_region_again() {
    let mut full = cell(4);
    full.allocate().unwrap();
    let built = SceneGpuStore::rebuild(
        MAX_BUFFER_SIZE,
        &config(),
        token(TRANSFORM, 64),
        token(INSTANCE_INFO, 8),
        &vec![(0, full), (1, cell(16))],
    );
    let (store, ids) = built.unwrap().unwrap();
    assert_eq!(ids.len(), 2);
    assert_eq!(store.row_region_base(ids[1]), 8);
}

#[test]
fn a_cell_without_rows_keeps_its_marks() {
    let mut store = store();
    let mut storage = cell(4);
    let h = storage.allocate().unwrap();
    let id = store.register_cell(&storage, 0).unwrap();
    assert!(store.write_transform(id, &mut storage, h, &vec![9u8; 64]));
    assert!(store.free_deferred(id, &mut storage, h, 1));
    let mut cells = vec![CellSlot { id, cell: storage }];
    assert_eq!(store.retire_all(&mut cells, 1), 1);
    store.compact_all(&mut cells);
    assert_eq!(cells[0].cell.rows_in_use(), 0);
    store.sync_all(&cells);
    assert_eq!(store.take_cell_commands(TRANSFORM).commands.len(), 0, "there is no row to upload");

    cells[0].cell.allocate().unwrap();
    assert_eq!(store.retire_all(&mut cells, 1), 0);
    store.compact_all(&mut cells);
    store.sync_all(&cells);
    assert_ne!(store.take_cell_commands(TRANSFORM).commands.len(), 0, "the mark is still there");
    assert_eq!(store.retire_all(&mut cells, 1), 0);
    store.compact_all(&mut cells);
    store.sync_all(&cells);
    assert_eq!(store.take_cell_commands(TRANSFORM).commands.len(), 0, "and gone with the upload");
}

#[test]
fn rebuilding_stops_where_the_regions_run_out() {
    let rebuild = |cells: Vec<(usize, CellStorage)>| {
        SceneGpuStore::rebuild(MAX_BUFFER_SIZE, &config(), token(TRANSFORM, 64), token(INSTANCE_INFO, 8), &cells)
    };
    assert!(matches!(rebuild(vec![(0, cell(4)), (0, cell(4))]), Some(Ok(_))));
    assert!(matches!(
        rebuild(vec![(0, cell(4)), (0, cell(4)), (0, cell(4))]),
        Some(Err(RegionError::RowsExhausted))
    ));
}

#[test]
fn the_totals_of_a_layout() {
    let headroom = SceneGpuConfig::default_headroom();
    assert_eq!(layout_totals(&config()), Some((24, 2 * (4 + headroom) + 16 + headroom)));
    let too_many = SceneGpuConfig {
        classes: vec![RegionClassConfig { capacity: u32::MAX, max_resident_cells: 2 }],
        tombstone_headroom: 0,
    };
    assert_eq!(layout_totals(&too_many), None);
}

#[test]
fn a_delta_leaves_the_slots_of_a_mirrored_world_as_those_of_a_plain_one() {
    let reg = object_schema();
    let mut plain: World<u32> = World::new();
    let mut mirrored = mirrored_world(MirrorMode::DirtyTracked);
    let a = plain.spawn();
    assert_eq!(mirrored.spawn(), a);
    let b = plain.spawn();
    assert_eq!(mirrored.spawn(), b);
    let delta = Delta {
        frame: 1,
        base_frame: 0,
        spawned: vec![(Entity::new(4, 7), encode_archetype_key(&[OBJECT]))],
        despawned: vec![a],
        component_deltas: vec![],
        events: vec![],
    };
    assert_eq!(delta.apply(&mut plain, &reg), Ok(()));
    assert_eq!(mirrored.apply(&delta, &reg), Ok(()));
    for want in [(3, 0), (2, 0), (a.index(), a.generation() + 1), (5, 0)] {
        let want = Entity::new(want.0, want.1);
        assert_eq!(plain.spawn(), want);
        assert_eq!(mirrored.spawn(), want);
    }
    let snap = Snapshot::capture_full(&plain, &reg, 1);
    let mut copy: World<u32> = World::new();
    let mut shown = mirrored_world(MirrorMode::DirtyTracked);
    assert_eq!(snap.restore_to_world(&mut copy, &reg), Ok(()));
    assert_eq!(shown.restore(&snap, &reg), Ok(()));
    for _ in 0..3 {
        assert_eq!(copy.spawn(), shown.spawn());
    }
}
