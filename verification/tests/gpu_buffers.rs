//! Device columns, run against a simulated device.

use pulsar_scenedb::component::ComponentId;
use pulsar_scenedb::entity::Entity;
use pulsar_scenedb::gpu::component_presence::ComponentPresenceBuffer;
use pulsar_scenedb::gpu::component_rows::ComponentGpuRows;
use pulsar_scenedb::gpu::device::{make_word_row, CommandQueue, GpuCommand, SyncStats};
use pulsar_scenedb::gpu::dirty_tracked_scene_buffer::{DirtyTrackedReallocationPolicy, DirtyTrackedSceneBuffer};
use pulsar_scenedb::gpu::dynamic_buffer::DynamicGpuBuffer;
use pulsar_scenedb::gpu::generation_mirror::GenerationMirror;
use pulsar_scenedb::gpu::growable_scene_buffer::GrowableSceneBuffer;
use pulsar_scenedb::gpu::once_scene_buffer::OnceSceneBuffer;

/// A device limit of 256 MiB per buffer.
const MAX_BUFFER_SIZE: u64 = 256 << 20;

/// Memory of one device buffer.
struct Device {
    stride: usize,
    rows: Vec<Vec<u8>>,
    scatters: usize,
}

impl Device {
    fn new(stride: usize, capacity: usize) -> Device {
        Device { stride, rows: vec![vec![0; stride]; capacity], scatters: 0 }
    }

    fn run(&mut self, queue: &mut CommandQueue) {
        for command in queue.commands.drain(..) {
            match command {
                GpuCommand::Reallocate { capacity, keep } => {
                    let mut rows = vec![vec![0; self.stride]; capacity as usize];
                    for i in 0..keep as usize {
                        rows[i] = self.rows[i].clone();
                    }
                    self.rows = rows;
                }
                GpuCommand::Write { row, data } => {
                    for (i, bytes) in data.into_iter().enumerate() {
                        assert_eq!(bytes.len(), self.stride);
                        self.rows[row as usize + i] = bytes;
                    }
                }
                GpuCommand::Scatter { rows, data } => {
                    self.scatters += 1;
                    assert_eq!(rows.len(), data.len());
                    for (row, bytes) in rows.into_iter().zip(data) {
                        assert_eq!(bytes.len(), self.stride);
                        self.rows[row as usize] = bytes;
                    }
                }
            }
        }
    }

    fn word(&self, row: usize) -> u32 {
        u32::from_le_bytes(self.rows[row][..4].try_into().unwrap())
    }

    fn words(&self) -> Vec<u32> {
        (0..self.rows.len()).map(|i| self.word(i)).collect()
    }
}

fn words(values: &[u32]) -> Vec<Vec<u8>> {
    values.iter().map(|v| make_word_row(*v)).collect()
}

#[test]
fn a_word_row_is_little_endian() {
    assert_eq!(make_word_row(0x0403_0201), vec![1, 2, 3, 4]);
}

#[test]
fn grow_preserves_existing_contents_and_bumps_epoch_exactly_once() {
    let mut queue = CommandQueue::new();
    let mut device = Device::new(4, 4);
    let mut buf = DynamicGpuBuffer::new(4, 4);
    assert_eq!(buf.capacity(), 4);
    assert_eq!(buf.epoch(), 0);

    buf.write(&mut queue, 0, &words(&[10, 20, 30, 40]));

    let grew = buf.ensure_capacity(MAX_BUFFER_SIZE, &mut queue, 10).expect("grow");
    assert!(grew, "10 > capacity 4 -- must have reallocated");
    assert!(buf.capacity() >= 10);
    assert_eq!(buf.epoch(), 1);

    device.run(&mut queue);
    assert_eq!(device.words()[..4], vec![10, 20, 30, 40], "grow must preserve existing rows");

    let grew_again = buf.ensure_capacity(MAX_BUFFER_SIZE, &mut queue, 8).expect("no-op grow");
    assert!(!grew_again, "8 <= already-grown capacity -- must not reallocate again");
    assert_eq!(buf.epoch(), 1, "epoch must not bump on a no-op ensure_capacity");

    buf.write(&mut queue, 4, &words(&[50]));
    device.run(&mut queue);
    assert_eq!(device.word(4), 50);
}

#[test]
fn max_capacity_is_a_hard_ceiling_not_a_silent_clamp() {
    let mut queue = CommandQueue::new();
    let mut buf = DynamicGpuBuffer::new(4, 4).with_max_capacity(8);

    let err = buf
        .ensure_capacity(MAX_BUFFER_SIZE, &mut queue, 100)
        .expect_err("100 > max_capacity 8 -- must error, not clamp silently");
    assert_eq!(err.requested, 100);
    assert_eq!(err.max, 8);
    assert_eq!(buf.capacity(), 4, "a failed grow must leave the buffer completely unchanged");
    assert_eq!(buf.epoch(), 0);

    buf.ensure_capacity(MAX_BUFFER_SIZE, &mut queue, 6).expect("within ceiling");
    assert_eq!(buf.capacity(), 8, "doubling 4->8 exactly hits max_capacity");
}

#[test]
fn device_max_buffer_size_is_a_real_ceiling_not_a_hard_panic() {
    let mut queue = CommandQueue::new();
    let mut buf = DynamicGpuBuffer::new(4, 4);
    let device_limit_rows = MAX_BUFFER_SIZE / 4;
    let err = buf
        .ensure_capacity(MAX_BUFFER_SIZE, &mut queue, u32::MAX)
        .expect_err("must error via the device's own limit");
    assert_eq!(err.requested, u32::MAX);
    assert_eq!(err.max as u64, device_limit_rows.min(u32::MAX as u64));
    assert_eq!(buf.capacity(), 4, "a failed grow must leave the buffer completely unchanged");
}

#[test]
fn reserve_grows_ahead_of_any_write_and_is_a_true_no_op_once_satisfied() {
    let mut queue = CommandQueue::new();
    let mut buf = DynamicGpuBuffer::new(4, 4);
    buf.reserve(MAX_BUFFER_SIZE, &mut queue, 1000).expect("reserve");
    assert!(buf.capacity() >= 1000);
    let epoch_after_reserve = buf.epoch();

    buf.write(&mut queue, 999, &words(&[42]));
    assert_eq!(buf.epoch(), epoch_after_reserve, "a write within reserved capacity must not grow");

    buf.reserve(MAX_BUFFER_SIZE, &mut queue, 10).expect("no-op reserve");
    assert_eq!(buf.epoch(), epoch_after_reserve);
}

#[test]
fn shrink_to_fit_reclaims_capacity_and_preserves_the_surviving_prefix() {
    let mut queue = CommandQueue::new();
    let mut device = Device::new(4, 4);
    let mut buf = DynamicGpuBuffer::new(4, 4);
    buf.ensure_capacity(MAX_BUFFER_SIZE, &mut queue, 1000).expect("grow to 1000+");
    let grown_capacity = buf.capacity();
    buf.write(&mut queue, 0, &words(&[111, 222, 333]));

    let shrank = buf.shrink_to_fit(&mut queue, 3);
    assert!(shrank, "capacity was {grown_capacity}, well above the shrink target");
    assert_eq!(buf.capacity(), 3, "target = (highest_live_row + 1) * slack_factor = 3 * 1.0");

    device.run(&mut queue);
    assert_eq!(device.words(), vec![111, 222, 333], "shrink must preserve the surviving prefix's bytes");

    assert!(!buf.shrink_to_fit(&mut queue, 3));
}

#[test]
fn capacities_double_from_one_row_up() {
    let mut queue = CommandQueue::new();
    let mut buf = DynamicGpuBuffer::new(4, 0);
    assert_eq!(buf.ensure_capacity(MAX_BUFFER_SIZE, &mut queue, 5), Ok(true));
    assert_eq!(buf.capacity(), 8);
    let mut odd = DynamicGpuBuffer::new(4, 3);
    assert_eq!(odd.ensure_capacity(MAX_BUFFER_SIZE, &mut queue, 13), Ok(true));
    assert_eq!(odd.capacity(), 24);
}

#[test]
fn write_past_capacity_grows_transparently_and_preserves_prior_rows() {
    let mut queue = CommandQueue::new();
    let mut device = Device::new(4, 2);
    let mut buf = GrowableSceneBuffer::new(4, 2, None);
    assert_eq!(buf.capacity(), 2);
    assert_eq!(buf.epoch(), 0);

    buf.write_row_growing(MAX_BUFFER_SIZE, &mut queue, 0, &words(&[111]))
        .expect("row 0 fits initial capacity");
    buf.write_row_growing(MAX_BUFFER_SIZE, &mut queue, 1, &words(&[222]))
        .expect("row 1 fits initial capacity");
    buf.write_row_growing(MAX_BUFFER_SIZE, &mut queue, 100, &words(&[999]))
        .expect("must grow, not fail (no max_capacity set)");
    assert!(buf.capacity() > 100);
    assert!(buf.epoch() >= 1);

    device.run(&mut queue);
    assert_eq!(device.rows.len(), buf.capacity() as usize);
    assert_eq!(device.word(0), 111, "row 0 must survive the growth-triggering write");
    assert_eq!(device.word(1), 222, "row 1 must survive the growth-triggering write");
    assert_eq!(device.word(100), 999);
}

#[test]
fn max_capacity_ceiling_is_still_honored_through_the_growing_write_path() {
    let mut queue = CommandQueue::new();
    let mut buf = GrowableSceneBuffer::new(4, 2, Some(4));

    buf.write_row_growing(MAX_BUFFER_SIZE, &mut queue, 3, &words(&[1]))
        .expect("row 3 fits within max_capacity 4");
    let err = buf
        .write_row_growing(MAX_BUFFER_SIZE, &mut queue, 10, &words(&[1]))
        .expect_err("row 10 exceeds max_capacity 4 -- must error, not silently drop the write");
    assert_eq!(err.max, 4);
}

#[test]
fn reserve_moves_growth_off_the_write_path() {
    let mut queue = CommandQueue::new();
    let mut buf = GrowableSceneBuffer::new(4, 2, None);

    buf.reserve(MAX_BUFFER_SIZE, &mut queue, 500).expect("reserve");
    assert!(buf.capacity() >= 500);
    let epoch_after_reserve = buf.epoch();

    for row in 0..500u32 {
        buf.write_row_growing(MAX_BUFFER_SIZE, &mut queue, row, &words(&[row]))
            .expect("within reserved capacity");
    }
    assert_eq!(
        buf.epoch(),
        epoch_after_reserve,
        "a fully-reserved batch must trigger no further reallocation"
    );
}

#[test]
fn shrink_to_fit_reclaims_capacity_through_the_dispatch_trait() {
    let mut queue = CommandQueue::new();
    let mut device = Device::new(4, 2);
    let mut buf = GrowableSceneBuffer::new(4, 2, None);
    buf.write_row_growing(MAX_BUFFER_SIZE, &mut queue, 999, &words(&[42])).expect("grow");
    let grown_capacity = buf.capacity();

    let shrank = buf.shrink_to_fit(&mut queue, 1000);
    assert!(shrank);
    assert!(buf.capacity() < grown_capacity);
    assert_eq!(buf.capacity(), 1000);

    device.run(&mut queue);
    assert_eq!(device.word(999), 42);
}

#[test]
fn marking_dirty_does_not_touch_the_gpu_until_flush() {
    let mut queue = CommandQueue::new();
    let mut device = Device::new(4, 8);
    let mut buf = DirtyTrackedSceneBuffer::new(4, 8);

    buf.mark_dirty_bytes(0, &make_word_row(111));
    buf.mark_dirty_bytes(1, &make_word_row(222));
    buf.mark_dirty_bytes(5, &make_word_row(555));
    assert!(queue.commands.is_empty(), "no GPU write must have happened before flush");

    let stats = buf.flush(MAX_BUFFER_SIZE, &mut queue);
    assert_eq!(
        stats.ranges, 2,
        "row 0-1 coalesce into one run, row 5 is a separate run (gap at 2,3,4)"
    );

    device.run(&mut queue);
    assert_eq!(device.scatters, 0, "few runs are written directly");
    assert_eq!(device.word(0), 111);
    assert_eq!(device.word(1), 222);
    assert_eq!(device.word(2), 0, "never marked -- must stay zero");
    assert_eq!(device.word(5), 555);

    let stats2 = buf.flush(MAX_BUFFER_SIZE, &mut queue);
    assert_eq!(stats2.ranges, 0);
    assert_eq!(stats2.bytes, 0);
    assert!(queue.commands.is_empty());
}

#[test]
fn mark_dirty_past_capacity_grows_the_shadow_and_the_flush_still_lands_correctly() {
    let mut queue = CommandQueue::new();
    let mut device = Device::new(4, 2);
    let mut buf = DirtyTrackedSceneBuffer::new(4, 2);

    buf.mark_dirty_bytes(0, &make_word_row(1));
    buf.mark_dirty_bytes(50, &make_word_row(999)); // far past initial capacity of 2

    let stats = buf.flush(MAX_BUFFER_SIZE, &mut queue);
    assert_eq!(stats.ranges, 2);

    device.run(&mut queue);
    assert_eq!(device.word(0), 1);
    assert_eq!(device.word(50), 999);
}

#[test]
fn reserve_grows_both_shadow_and_gpu_buffer_so_flush_needs_no_further_growth() {
    let mut queue = CommandQueue::new();
    let mut device = Device::new(4, 2);
    let mut buf = DirtyTrackedSceneBuffer::new(4, 2);

    buf.reserve(MAX_BUFFER_SIZE, &mut queue, 500).expect("reserve");
    for row in 0..500u32 {
        buf.mark_dirty_bytes(row, &make_word_row(row * 2));
    }
    let epoch = buf.epoch();
    let stats = buf.flush(MAX_BUFFER_SIZE, &mut queue);
    assert_eq!(stats.ranges, 1, "500 contiguous dirty rows must coalesce into one range");
    assert_eq!(buf.epoch(), epoch);

    device.run(&mut queue);
    assert_eq!(device.word(0), 0);
    assert_eq!(device.word(249), 498);
}

#[test]
fn shrink_to_fit_reclaims_both_shadow_and_gpu_buffer() {
    let mut queue = CommandQueue::new();
    let mut device = Device::new(4, 2);
    let mut buf = DirtyTrackedSceneBuffer::new(4, 2);
    buf.mark_dirty_bytes(999, &make_word_row(42));
    buf.flush(MAX_BUFFER_SIZE, &mut queue);

    let shrank = buf.shrink_to_fit(&mut queue, 1000);
    assert!(shrank);

    device.run(&mut queue);
    assert_eq!(device.rows.len() * 4, 4000, "buffer must have actually shrunk to exactly 1000 rows");
    assert_eq!(device.word(999), 42);

    buf.mark_dirty_bytes(500, &make_word_row(777));
    buf.flush(MAX_BUFFER_SIZE, &mut queue);
    device.run(&mut queue);
    assert_eq!(device.word(500), 777);
}

#[test]
fn scattered_dirty_rows_use_the_scatter_path_and_land_at_the_right_rows() {
    let mut queue = CommandQueue::new();
    let capacity = 1000u32;
    let mut device = Device::new(4, capacity as usize);
    let mut buf = DirtyTrackedSceneBuffer::new(4, capacity);

    let dirty_rows: Vec<u32> = (0..40u32).map(|i| i * 23 + 1).collect();
    for &row in &dirty_rows {
        buf.mark_dirty_bytes(row, &make_word_row(row * 1000 + 7));
    }

    let stats = buf.flush(MAX_BUFFER_SIZE, &mut queue);
    assert_eq!(
        stats.ranges, 1,
        "scatter path reports one GPU operation regardless of how many rows were scattered"
    );
    assert_eq!(stats.bytes, dirty_rows.len() as u64 * 4);

    device.run(&mut queue);
    assert_eq!(device.scatters, 1, "many runs go through one scatter pass");
    for row in 0..capacity {
        if dirty_rows.contains(&row) {
            assert_eq!(
                device.word(row as usize),
                row * 1000 + 7,
                "scattered row {row} must land at exactly its own offset, not a neighbor's"
            );
        } else {
            assert_eq!(device.word(row as usize), 0, "row {row} was never marked -- must stay zero");
        }
    }
}

#[test]
fn scatter_path_copies_every_word_of_a_wide_multi_word_element() {
    let mut queue = CommandQueue::new();
    let capacity = 200u32;
    let mut device = Device::new(64, capacity as usize);
    let mut buf = DirtyTrackedSceneBuffer::new(64, capacity);

    let dirty_rows: Vec<u32> = (0..30u32).map(|i| i * 5 + 2).collect();
    let value_for = |row: u32| -> [f32; 16] { core::array::from_fn(|w| row as f32 * 100.0 + w as f32) };
    let bytes_of = |value: [f32; 16]| -> Vec<u8> { value.iter().flat_map(|w| w.to_le_bytes()).collect() };
    for &row in &dirty_rows {
        buf.mark_dirty_bytes(row, &bytes_of(value_for(row)));
    }
    let stats = buf.flush(MAX_BUFFER_SIZE, &mut queue);
    assert_eq!(stats.ranges, 1, "scatter path (30 isolated rows exceed the threshold)");

    device.run(&mut queue);
    for row in 0..capacity {
        let expected = if dirty_rows.contains(&row) { value_for(row) } else { [0.0; 16] };
        assert_eq!(
            device.rows[row as usize],
            bytes_of(expected),
            "row {row}: every one of the 16 words must match, not just the first"
        );
    }
}

#[test]
fn the_scatter_path_starts_above_four_runs() {
    for (runs, scatters) in [(4u32, 0usize), (5, 1)] {
        let mut queue = CommandQueue::new();
        let mut device = Device::new(4, 64);
        let mut buf = DirtyTrackedSceneBuffer::new(4, 64);
        for i in 0..runs {
            buf.mark_dirty_bytes(i * 3, &make_word_row(i + 1));
        }
        let stats = buf.flush(MAX_BUFFER_SIZE, &mut queue);
        device.run(&mut queue);
        assert_eq!(device.scatters, scatters);
        assert_eq!(stats.ranges, if scatters == 1 { 1 } else { runs });
        for i in 0..runs {
            assert_eq!(device.word(i as usize * 3), i + 1);
        }
    }
}

#[test]
fn cpu_shadow_reallocation_rewrites_every_surviving_row() {
    let mut queue = CommandQueue::new();
    let mut device = Device::new(4, 2);
    let mut buf = DirtyTrackedSceneBuffer::new_with_reallocation_policy(
        4,
        2,
        DirtyTrackedReallocationPolicy::RewriteFromCpuShadow,
    );

    buf.mark_dirty_bytes(0, &make_word_row(11));
    buf.mark_dirty_bytes(1, &make_word_row(22));
    buf.flush(MAX_BUFFER_SIZE, &mut queue);

    buf.mark_dirty_bytes(5, &make_word_row(66));
    let stats = buf.flush(MAX_BUFFER_SIZE, &mut queue);
    assert_eq!(buf.epoch(), 1);
    assert_eq!(stats.ranges, 1);
    assert_eq!(stats.bytes, 8 * 4);

    device.run(&mut queue);
    assert_eq!(device.words(), [11, 22, 0, 0, 0, 66, 0, 0]);
}

#[test]
fn a_flush_reports_what_does_not_fit_before_it_is_made() {
    let mut buf = DirtyTrackedSceneBuffer::new(4, 2);
    assert!(buf.fits(16));
    buf.mark_dirty_bytes(4, &make_word_row(1));
    assert!(!buf.fits(16));
    assert!(buf.fits(64));
}

#[test]
fn direct_once_handoff_does_not_initialize_scatter_pipeline() {
    let mut queue = CommandQueue::new();
    let mut device = Device::new(4, 4);
    let mut buf = OnceSceneBuffer::new(4, 4);

    buf.queue_handoff_bytes(0, &make_word_row(17));
    let stats = buf.flush(MAX_BUFFER_SIZE, &mut queue);
    assert_eq!((stats.ranges, stats.bytes), (1, 4));
    device.run(&mut queue);
    assert_eq!(device.scatters, 0, "the direct-write path must not use a scatter pass");
    assert_eq!(device.words(), [17, 0, 0, 0]);
}

#[test]
fn the_last_handoff_of_a_row_wins_whatever_the_order_of_rows() {
    let mut queue = CommandQueue::new();
    let mut device = Device::new(4, 2);
    let mut buf = OnceSceneBuffer::new(4, 2);
    for (row, value) in [(3u32, 1u32), (0, 2), (3, 3), (1, 4), (0, 5)] {
        buf.queue_handoff_bytes(row, &make_word_row(value));
    }
    assert_eq!(buf.pending_count(), 5);
    let stats = buf.flush(MAX_BUFFER_SIZE, &mut queue);
    assert_eq!(stats, SyncStats { ranges: 2, bytes: 12 });
    assert_eq!(buf.pending_count(), 0);
    device.run(&mut queue);
    assert_eq!(device.words(), [5, 4, 0, 3]);
    assert_eq!(buf.flush(MAX_BUFFER_SIZE, &mut queue), SyncStats { ranges: 0, bytes: 0 });
}

#[test]
fn component_rows_are_local_stable_recycled_and_generation_exact() {
    let object = ComponentId(1);
    let light = ComponentId(2);
    let mut rows = ComponentGpuRows::default();
    let high_a = Entity::from_bits(40_000);
    let high_b = Entity::from_bits(40_001);

    assert_eq!(rows.acquire(object, high_a), 0);
    assert_eq!(rows.acquire(object, high_b), 1);
    assert_eq!(rows.acquire(object, high_a), 0, "updates keep their row");
    assert_eq!(rows.acquire(light, high_a), 0, "each component starts at row 0");
    assert_eq!(rows.live_count(object), 2);
    assert_eq!(rows.row_span(object), 2);

    assert_eq!(rows.release(object, high_a), Some(0));
    assert_eq!(rows.get(object, high_a), None);
    assert_eq!(rows.get(object, high_b), Some(1), "survivors never move");

    let recycled_entity = Entity::from_bits((1_u64 << 32) | high_a.index() as u64);
    assert_eq!(rows.acquire(object, recycled_entity), 0);
    assert_eq!(rows.get(object, high_a), None);
    assert_eq!(rows.get(object, recycled_entity), Some(0));

    assert_eq!(rows.release(object, high_b), Some(1));
    assert_eq!(rows.row_span(object), 1, "an absent tail is trimmed in O(1)");
    let high_c = Entity::from_bits(40_002);
    assert_eq!(
        rows.acquire(object, high_c),
        1,
        "allocation skips stale free-list entries after tail trimming",
    );
    assert_eq!(rows.release(object, high_c), Some(1));
    assert_eq!(rows.release(object, recycled_entity), Some(0));
    assert_eq!(rows.live_count(object), 0);
    assert_eq!(rows.row_span(object), 0, "an empty population resets its span");
}

#[test]
fn presence_is_one_word_per_row() {
    let mut queue = CommandQueue::new();
    let mut device = Device::new(4, 4);
    let mut buf = ComponentPresenceBuffer::new(4);
    assert!(buf.mark_present(2));
    assert!(!buf.mark_present(2), "already present");
    assert!(buf.mark_present(0));
    buf.flush(MAX_BUFFER_SIZE, &mut queue);
    device.run(&mut queue);
    assert_eq!(device.words(), [1, 0, 1, 0]);
    assert!(buf.mark_absent(2));
    assert!(!buf.mark_absent(2), "already absent");
    buf.flush(MAX_BUFFER_SIZE, &mut queue);
    device.run(&mut queue);
    assert_eq!(device.words(), [1, 0, 0, 0]);
}

#[test]
fn generations_of_unmirrored_rows_cost_nothing() {
    let mut queue = CommandQueue::new();
    let mut mirror = GenerationMirror::new();
    mirror.note_despawn(5, 1);
    assert_eq!(mirror.flush(MAX_BUFFER_SIZE, &mut queue), SyncStats { ranges: 0, bytes: 0 });
    assert!(queue.commands.is_empty());

    mirror.note_gpu_bearing_insert(5, 3);
    mirror.note_gpu_bearing_insert(5, 3);
    let stats = mirror.flush(MAX_BUFFER_SIZE, &mut queue);
    assert_eq!(stats.bytes, 4);
    let mut device = Device::new(4, 64);
    device.run(&mut queue);
    assert_eq!(device.word(5), 3);

    mirror.note_despawn(5, 4);
    mirror.flush(MAX_BUFFER_SIZE, &mut queue);
    device.run(&mut queue);
    assert_eq!(device.word(5), 4);
}
