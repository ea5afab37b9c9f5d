//! Which entities have a component, as a device column: 1 where the component
//! is present, 0 where it is not.

use vstd::prelude::*;
use crate::gpu::device::{lemma_word_row, make_word_row, run, word_row, zero_row, CommandModel, CommandQueue, SyncStats};
use crate::gpu::dirty::{clean, marked_rows};
use crate::gpu::dirty_tracked_scene_buffer::{lemma_flush_uploads_everything, shadow_len_for, DirtyTrackedReallocationPolicy, DirtyTrackedSceneBuffer, TrackedModel};
use crate::gpu::dynamic_buffer::{greatest, growth, lemma_doubled, BufferModel, CapacityError};
use crate::gpu::row_flags::{flagged, with_flag, with_rows, without_flag, GpuMirroredRows};
use crate::gpu::upload::upload_stats;

verus! {

/// The presence column of one component type.
#[derive(Debug)]
pub struct ComponentPresenceBuffer {
    buf: DirtyTrackedSceneBuffer,
    rows: GpuMirroredRows,
}

/// The value of a [`ComponentPresenceBuffer`].
pub struct PresenceModel {
    pub column: TrackedModel,
    /// Whether the component is present in a row; it is absent from rows
    /// beyond the list.
    pub present: Seq<bool>,
}

impl View for ComponentPresenceBuffer {
    type V = PresenceModel;

    closed spec fn view(&self) -> PresenceModel {
        PresenceModel { column: self.buf@, present: self.rows@ }
    }
}

/// The word that stands for presence.
pub open spec fn presence_word(present: bool) -> u32 {
    if present {
        1
    } else {
        0
    }
}

impl PresenceModel {
    /// The shadow of the column holds the presence of every row.
    pub open spec fn well_formed(self) -> bool {
        &&& self.column.well_formed()
        &&& self.column.buffer.stride == 4
        &&& self.present.len() <= self.column.shadow.len()
        &&& forall|i: int|
            0 <= i < self.column.shadow.len() ==> #[trigger] self.column.shadow[i] == word_row(
                presence_word(flagged(self.present, i as u32)),
            )
    }
}

impl ComponentPresenceBuffer {
    /// The shadow of the column holds the presence of every row.
    pub open spec fn well_formed(&self) -> bool {
        self@.well_formed()
    }

    /// A column of `initial_capacity` rows, all absent.
    pub fn new(initial_capacity: u32) -> (buf: ComponentPresenceBuffer)
        ensures
            buf.well_formed(),
            buf@.present == clean(initial_capacity as nat),
            buf@.column.buffer == (BufferModel {
                capacity: initial_capacity,
                max_capacity: None,
                epoch: 0,
                stride: 4,
            }),
            buf@.column.dirty == clean(initial_capacity as nat),
            buf@.column.policy == DirtyTrackedReallocationPolicy::GpuCopy,
    {
        Self::new_with_reallocation_policy(initial_capacity, DirtyTrackedReallocationPolicy::GpuCopy)
    }

    /// A column of `initial_capacity` rows, all absent.
    pub fn new_with_reallocation_policy(initial_capacity: u32, policy: DirtyTrackedReallocationPolicy) -> (buf:
        ComponentPresenceBuffer)
        ensures
            buf.well_formed(),
            buf@.present == clean(initial_capacity as nat),
            buf@.column.buffer == (BufferModel {
                capacity: initial_capacity,
                max_capacity: None,
                epoch: 0,
                stride: 4,
            }),
            buf@.column.shadow.len() == initial_capacity,
            buf@.column.dirty == clean(initial_capacity as nat),
            buf@.column.policy == policy,
    {
        let mut rows = GpuMirroredRows::new();
        rows.reserve(initial_capacity);
        let buf = ComponentPresenceBuffer {
            buf: DirtyTrackedSceneBuffer::new_with_reallocation_policy(4, initial_capacity, policy),
            rows,
        };
        proof {
            lemma_word_row();
            assert(buf@.present =~= clean(initial_capacity as nat));
        }
        buf
    }

    /// Marks a row present. Returns whether it was absent.
    pub fn mark_present(&mut self, row: u32) -> (transition: bool)
        requires
            old(self).well_formed(),
            row < u32::MAX,
        ensures
            final(self).well_formed(),
            transition == !flagged(old(self)@.present, row),
            final(self)@.present == with_flag(old(self)@.present, row),
            final(self)@.column == (if transition {
                old(self)@.column.marked(row, word_row(1))
            } else {
                old(self)@.column
            }),
    {
        let ghost before = self@;
        let first: bool = self.rows.mark_first_time(row);
        if first {
            let one = make_word_row(1);
            self.buf.mark_dirty_bytes(row, one.as_slice());
        }
        proof {
            lemma_word_row();
            lemma_shadow_len(before.column.shadow.len(), row);
            let after = self@;
            assert forall|i: int| 0 <= i < after.column.shadow.len() implies #[trigger] after.column.shadow[i]
                == word_row(presence_word(flagged(after.present, i as u32))) by {
                assert(flagged(after.present, i as u32) == (i == row || flagged(before.present, i as u32)));
                if i < before.column.shadow.len() {
                    assert(before.column.shadow[i] == word_row(presence_word(flagged(before.present, i as u32))));
                }
            }
        }
        first
    }

    /// Marks a row absent. Returns whether it was present.
    pub fn mark_absent(&mut self, row: u32) -> (transition: bool)
        requires
            old(self).well_formed(),
        ensures
            final(self).well_formed(),
            transition == flagged(old(self)@.present, row),
            final(self)@.present == without_flag(old(self)@.present, row),
            final(self)@.column == (if transition {
                old(self)@.column.marked(row, word_row(0))
            } else {
                old(self)@.column
            }),
    {
        let ghost before = self@;
        let was: bool = self.rows.clear(row);
        if was {
            let zero = make_word_row(0);
            self.buf.mark_dirty_bytes(row, zero.as_slice());
        }
        proof {
            lemma_word_row();
            if was {
                lemma_shadow_len(before.column.shadow.len(), row);
            }
            let after = self@;
            assert forall|i: int| 0 <= i < after.column.shadow.len() implies #[trigger] after.column.shadow[i]
                == word_row(presence_word(flagged(after.present, i as u32))) by {
                assert(flagged(after.present, i as u32) == (i != row && flagged(before.present, i as u32)));
                if i < before.column.shadow.len() {
                    assert(before.column.shadow[i] == word_row(presence_word(flagged(before.present, i as u32))));
                }
            }
        }
        was
    }

    /// Whether the column fits on a device. Otherwise a flush is not possible.
    pub fn fits(&self, max_buffer_size: u64) -> (yes: bool)
        requires
            self.well_formed(),
        ensures
            yes == (self@.column.shadow.len() <= greatest(
                self@.column.buffer.capacity as nat,
                self@.column.buffer.limit(max_buffer_size),
            )),
    {
        self.buf.fits(max_buffer_size)
    }

    /// Uploads the rows that changed.
    pub fn flush(&mut self, max_buffer_size: u64, queue: &mut CommandQueue) -> (stats: SyncStats)
        requires
            old(self).well_formed(),
            old(self)@.column.shadow.len() <= greatest(
                old(self)@.column.buffer.capacity as nat,
                old(self)@.column.buffer.limit(max_buffer_size),
            ),
        ensures
            final(self).well_formed(),
            final(self)@ == (PresenceModel {
                column: old(self)@.column.flushed(max_buffer_size),
                ..old(self)@
            }),
            final(queue)@ == old(queue)@ + old(self)@.column.flush_commands(max_buffer_size),
            ({
                let after = old(self)@.column.settled(max_buffer_size);
                let rows = marked_rows(after.dirty);
                stats == upload_stats(rows, after.values(rows), 4)
            }),
    {
        self.buf.flush(max_buffer_size, queue)
    }

    /// Grows the column to `capacity` rows, if it has fewer. A request beyond
    /// the limit is an error and changes nothing.
    pub fn reserve(&mut self, max_buffer_size: u64, queue: &mut CommandQueue, capacity: u32) -> (out: Result<
        (),
        CapacityError,
    >)
        requires
            old(self).well_formed(),
        ensures
            final(self).well_formed(),
            match growth(old(self)@.column.buffer, capacity, max_buffer_size).1 {
                Ok(grew) => {
                    &&& out == Ok::<(), CapacityError>(())
                    &&& final(self)@ == (PresenceModel {
                        column: old(self)@.column.reserved(capacity, max_buffer_size),
                        present: with_rows(old(self)@.present, capacity as nat),
                    })
                    &&& final(queue)@ == (if grew {
                        old(queue)@.push(
                            CommandModel::Reallocate {
                                capacity: final(self)@.column.buffer.capacity,
                                keep: old(self)@.column.kept(old(self)@.column.buffer.capacity),
                            },
                        )
                    } else {
                        old(queue)@
                    })
                },
                Err(e) => {
                    &&& out == Err::<(), CapacityError>(e)
                    &&& final(self)@ == old(self)@
                    &&& final(queue)@ == old(queue)@
                },
            },
    {
        let ghost before = self@;
        match self.buf.reserve(max_buffer_size, queue, capacity) {
            Ok(_) => {
                self.rows.reserve(capacity);
                proof {
                    lemma_word_row();
                    let after = self@;
                    assert forall|i: int| 0 <= i < after.column.shadow.len() implies #[trigger] after.column.shadow[i]
                        == word_row(presence_word(flagged(after.present, i as u32))) by {
                        assert(flagged(after.present, i as u32) == flagged(before.present, i as u32));
                        if i < before.column.shadow.len() {
                            assert(before.column.shadow[i] == word_row(
                                presence_word(flagged(before.present, i as u32)),
                            ));
                        }
                    }
                }
                Ok(())
            },
            Err(e) => Err(e),
        }
    }

    /// Cuts the column to `target` rows. Returns whether the device buffer was
    /// reallocated.
    pub fn shrink_to_fit(&mut self, queue: &mut CommandQueue, target: u32) -> (shrank: bool)
        requires
            old(self).well_formed(),
        ensures
            final(self).well_formed(),
            shrank == (target < old(self)@.column.shadow.len() && target < old(self)@.column.buffer.capacity),
            final(self)@ == (PresenceModel {
                column: if target < old(self)@.column.shadow.len() {
                    old(self)@.column.shrunk(target)
                } else {
                    old(self)@.column
                },
                present: if target < old(self)@.present.len() {
                    old(self)@.present.take(target as int)
                } else {
                    old(self)@.present
                },
            }),
            final(queue)@ == (if shrank {
                old(queue)@.push(
                    CommandModel::Reallocate { capacity: target, keep: old(self)@.column.kept(target) },
                )
            } else {
                old(queue)@
            }),
    {
        let ghost before = self@;
        self.rows.shrink_to_fit(target);
        let shrank = self.buf.shrink_to_fit(queue, target);
        proof {
            let after = self@;
            assert forall|i: int| 0 <= i < after.column.shadow.len() implies #[trigger] after.column.shadow[i]
                == word_row(presence_word(flagged(after.present, i as u32))) by {
                assert(flagged(after.present, i as u32) == flagged(before.present, i as u32));
                assert(before.column.shadow[i] == word_row(presence_word(flagged(before.present, i as u32))));
            }
        }
        shrank
    }

    pub fn epoch(&self) -> (n: u64)
        ensures
            n == self@.column.buffer.epoch,
    {
        self.buf.epoch()
    }

    /// Whether a row is present.
    pub fn is_present(&self, row: u32) -> (yes: bool)
        ensures
            yes == flagged(self@.present, row),
    {
        self.rows.is_marked(row)
    }
}

proof fn lemma_shadow_len(len: nat, row: u32)
    requires
        len <= u32::MAX,
        row < u32::MAX,
    ensures
        row < shadow_len_for(len, row) <= u32::MAX,
        len <= shadow_len_for(len, row),
{
    if row >= len {
        lemma_doubled(greatest(len, 1), (row + 1) as nat);
    }
}

/// After a flush, the device shows 1 in exactly the rows where the component
/// is present, and 0 in all others.
pub proof fn lemma_device_shows_presence(p: PresenceModel, mem: Seq<Seq<u8>>, max_buffer_size: u64, row: u32)
    requires
        p.well_formed(),
        p.column.mirrors(mem),
        p.column.shadow.len() <= greatest(
            p.column.buffer.capacity as nat,
            p.column.buffer.limit(max_buffer_size),
        ),
        row < run(mem, p.column.flush_commands(max_buffer_size), 4).len(),
    ensures
        run(mem, p.column.flush_commands(max_buffer_size), 4)[row as int] == word_row(
            presence_word(flagged(p.present, row)),
        ),
{
    lemma_flush_uploads_everything(p.column, mem, max_buffer_size);
    lemma_word_row();
    let now = run(mem, p.column.flush_commands(max_buffer_size), 4);
    if row < p.column.shadow.len() {
        assert(now.take(p.column.shadow.len() as int)[row as int] == now[row as int]);
        assert(p.column.shadow[row as int] == word_row(presence_word(flagged(p.present, row))));
    } else {
        assert(now[row as int] == zero_row(4));
    }
}

} // verus!
