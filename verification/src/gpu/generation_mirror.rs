//! Entity generations as a device column, so that the device can tell a stale
//! handle. Entities without data on the device cost nothing here.

use vstd::prelude::*;
use crate::gpu::device::{make_word_row, word_row, CommandModel, CommandQueue, SyncStats};
use crate::gpu::dirty::{clean, marked_rows};
use crate::gpu::dirty_tracked_scene_buffer::{grown_rows, DirtyTrackedReallocationPolicy, DirtyTrackedSceneBuffer, TrackedModel};
use crate::gpu::dynamic_buffer::{greatest, growth, BufferModel, CapacityError};
use crate::gpu::row_flags::{flagged, with_flag, with_rows, without_flag, GpuMirroredRows};
use crate::gpu::upload::upload_stats;

verus! {

/// The generation column, indexed by entity index, and the entities that have
/// data on the device.
#[derive(Debug)]
pub struct GenerationMirror {
    buf: DirtyTrackedSceneBuffer,
    gpu_mirrored_rows: GpuMirroredRows,
}

/// The value of a [`GenerationMirror`].
pub struct GenerationModel {
    pub column: TrackedModel,
    /// Whether the entity in a slot has data on the device.
    pub mirrored: Seq<bool>,
}

impl View for GenerationMirror {
    type V = GenerationModel;

    closed spec fn view(&self) -> GenerationModel {
        GenerationModel { column: self.buf@, mirrored: self.gpu_mirrored_rows@ }
    }
}

impl GenerationModel {
    /// A small column of zeros, with nothing to upload, and no slot whose
    /// entity has data on the device.
    pub open spec fn fresh() -> GenerationModel {
        GenerationModel {
            column: TrackedModel {
                buffer: BufferModel { capacity: 64, max_capacity: None, epoch: 0, stride: 4 },
                shadow: grown_rows(Seq::empty(), 64, 4),
                dirty: clean(64),
                policy: DirtyTrackedReallocationPolicy::GpuCopy,
            },
            mirrored: Seq::empty(),
        }
    }

    /// A column of words.
    pub open spec fn well_formed(self) -> bool {
        self.column.well_formed() && self.column.buffer.stride == 4
    }

    /// The entity in slot `row` got its first component with data on the
    /// device, or a further one.
    pub open spec fn inserted(self, row: u32, generation: u32) -> GenerationModel {
        GenerationModel {
            column: if flagged(self.mirrored, row) {
                self.column
            } else {
                self.column.marked(row, word_row(generation))
            },
            mirrored: with_flag(self.mirrored, row),
        }
    }

    /// The entity in slot `row` was despawned, and the slot moved on to
    /// `new_generation`.
    pub open spec fn despawned(self, row: u32, new_generation: u32) -> GenerationModel {
        GenerationModel {
            column: if flagged(self.mirrored, row) {
                self.column.marked(row, word_row(new_generation))
            } else {
                self.column
            },
            mirrored: without_flag(self.mirrored, row),
        }
    }
}

impl GenerationMirror {
    /// A column of words.
    pub open spec fn well_formed(&self) -> bool {
        self@.well_formed()
    }

    /// A small column, which grows as needed.
    pub fn new() -> (m: GenerationMirror)
        ensures
            m.well_formed(),
            m@ == GenerationModel::fresh(),
    {
        GenerationMirror {
            buf: DirtyTrackedSceneBuffer::new(4, 64),
            gpu_mirrored_rows: GpuMirroredRows::new(),
        }
    }

    /// Notes that the entity in slot `row` has data on the device. Only the
    /// first time in an entity's life does its generation need an upload.
    pub fn note_gpu_bearing_insert(&mut self, row: u32, generation: u32)
        requires
            old(self).well_formed(),
            row < u32::MAX,
        ensures
            final(self).well_formed(),
            final(self)@ == old(self)@.inserted(row, generation),
    {
        if self.gpu_mirrored_rows.mark_first_time(row) {
            let word = make_word_row(generation);
            self.buf.mark_dirty_bytes(row, word.as_slice());
        }
    }

    /// Notes that the entity in slot `row` was despawned. The new generation
    /// needs an upload only if the entity had data on the device.
    pub fn note_despawn(&mut self, row: u32, new_generation: u32)
        requires
            old(self).well_formed(),
            row < u32::MAX,
        ensures
            final(self).well_formed(),
            final(self)@ == old(self)@.despawned(row, new_generation),
    {
        if self.gpu_mirrored_rows.clear(row) {
            let word = make_word_row(new_generation);
            self.buf.mark_dirty_bytes(row, word.as_slice());
        }
    }

    /// Whether the column fits on a device. Otherwise a flush is not possible.
    pub fn fits(&self, max_buffer_size: u64) -> (yes: bool)
        requires
            self.well_formed(),
        ensures
            yes == (self@.column.shadow.len() <= greatest(
                self@.column.buffer.capacity as nat,
                self@.column.buffer.limit(max_buffer_size),
            )),
    {
        self.buf.fits(max_buffer_size)
    }

    /// Uploads the generations that changed.
    pub fn flush(&mut self, max_buffer_size: u64, queue: &mut CommandQueue) -> (stats: SyncStats)
        requires
            old(self).well_formed(),
            old(self)@.column.shadow.len() <= greatest(
                old(self)@.column.buffer.capacity as nat,
                old(self)@.column.buffer.limit(max_buffer_size),
            ),
        ensures
            final(self).well_formed(),
            final(self)@ == (GenerationModel {
                column: old(self)@.column.flushed(max_buffer_size),
                ..old(self)@
            }),
            final(queue)@ == old(queue)@ + old(self)@.column.flush_commands(max_buffer_size),
            ({
                let after = old(self)@.column.settled(max_buffer_size);
                let rows = marked_rows(after.dirty);
                stats == upload_stats(rows, after.values(rows), 4)
            }),
    {
        self.buf.flush(max_buffer_size, queue)
    }

    /// Grows the column to `capacity` rows, if it has fewer. A request beyond
    /// the limit is an error and changes nothing.
    pub fn reserve(&mut self, max_buffer_size: u64, queue: &mut CommandQueue, capacity: u32) -> (out: Result<
        (),
        CapacityError,
    >)
        requires
            old(self).well_formed(),
        ensures
            final(self).well_formed(),
            match growth(old(self)@.column.buffer, capacity, max_buffer_size).1 {
                Ok(grew) => {
                    &&& out == Ok::<(), CapacityError>(())
                    &&& final(self)@ == (GenerationModel {
                        column: old(self)@.column.reserved(capacity, max_buffer_size),
                        mirrored: with_rows(old(self)@.mirrored, capacity as nat),
                    })
                    &&& final(queue)@ == (if grew {
                        old(queue)@.push(
                            CommandModel::Reallocate {
                                capacity: final(self)@.column.buffer.capacity,
                                keep: old(self)@.column.kept(old(self)@.column.buffer.capacity),
                            },
                        )
                    } else {
                        old(queue)@
                    })
                },
                Err(e) => {
                    &&& out == Err::<(), CapacityError>(e)
                    &&& final(self)@ == old(self)@
                    &&& final(queue)@ == old(queue)@
                },
            },
    {
        match self.buf.reserve(max_buffer_size, queue, capacity) {
            Ok(_) => {
                self.gpu_mirrored_rows.reserve(capacity);
                Ok(())
            },
            Err(e) => Err(e),
        }
    }

    /// Cuts the column to `target` rows. Returns whether the device buffer was
    /// reallocated.
    pub fn shrink_to_fit(&mut self, queue: &mut CommandQueue, target: u32) -> (shrank: bool)
        requires
            old(self).well_formed(),
        ensures
            final(self).well_formed(),
            shrank == (target < old(self)@.column.shadow.len() && target < old(self)@.column.buffer.capacity),
            final(self)@ == (GenerationModel {
                column: if target < old(self)@.column.shadow.len() {
                    old(self)@.column.shrunk(target)
                } else {
                    old(self)@.column
                },
                mirrored: if target < old(self)@.mirrored.len() {
                    old(self)@.mirrored.take(target as int)
                } else {
                    old(self)@.mirrored
                },
            }),
            final(queue)@ == (if shrank {
                old(queue)@.push(
                    CommandModel::Reallocate { capacity: target, keep: old(self)@.column.kept(target) },
                )
            } else {
                old(queue)@
            }),
    {
        self.gpu_mirrored_rows.shrink_to_fit(target);
        self.buf.shrink_to_fit(queue, target)
    }

    pub fn epoch(&self) -> (n: u64)
        ensures
            n == self@.column.buffer.epoch,
    {
        self.buf.epoch()
    }
}

/// An entity that never had data on the device leaves no trace when it is
/// despawned.
pub proof fn lemma_unmirrored_despawn_is_free(m: GenerationModel, row: u32, new_generation: u32)
    requires
        !flagged(m.mirrored, row),
    ensures
        m.despawned(row, new_generation) == m,
{
    assert(without_flag(m.mirrored, row) =~= m.mirrored);
}

/// A despawn within the frame of the first insert leaves one word to upload:
/// the new generation.
pub proof fn lemma_insert_then_despawn(m: GenerationModel, row: u32, generation: u32, new_generation: u32)
    requires
        m.well_formed(),
        row < u32::MAX,
        !flagged(m.mirrored, row),
    ensures
        ({
            let after = m.inserted(row, generation).despawned(row, new_generation);
            &&& after.column == m.column.marked(row, word_row(new_generation))
            &&& !flagged(after.mirrored, row)
        }),
{
    let once = m.inserted(row, generation);
    let twice = once.despawned(row, new_generation);
    let direct = m.column.marked(row, word_row(new_generation));
    if row >= m.column.shadow.len() {
        crate::gpu::dynamic_buffer::lemma_doubled(greatest(m.column.shadow.len(), 1), (row + 1) as nat);
    }
    assert(twice.column.shadow =~= direct.shadow);
    assert(twice.column.dirty =~= direct.dirty);
}

} // verus!
