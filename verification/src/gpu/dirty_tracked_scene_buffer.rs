//! A device column with a host-side shadow: writes are recorded in the shadow
//! and marked, and a flush uploads the marked rows.

use vstd::prelude::*;
use crate::gpu::device::{executed, lemma_run_concat, lemma_run_one, make_zero_row, patched, run, zero_row, CommandModel, CommandQueue, Row, SyncStats};
use crate::gpu::dirty::{clean, lemma_marked_rows, marked_rows, resized, DirtyMask};
use crate::gpu::dynamic_buffer::{double_until, doubled, greatest, growth, least, lemma_growth_preserves, BufferModel, CapacityError, DynamicGpuBuffer};
use crate::gpu::upload::{lemma_uploads, queue_uploads, upload_stats, uploads};
use crate::replication::types::blobs;

verus! {

/// How a column keeps its contents when its device buffer is reallocated.
#[derive(Copy, Clone, Debug, PartialEq, Eq, Structural)]
pub enum DirtyTrackedReallocationPolicy {
    /// The device copies the old rows.
    GpuCopy,
    /// The old rows are dropped, and every row is uploaded again from the
    /// shadow.
    RewriteFromCpuShadow,
}

impl Default for DirtyTrackedReallocationPolicy {
    fn default() -> (p: DirtyTrackedReallocationPolicy)
        ensures
            p == DirtyTrackedReallocationPolicy::GpuCopy,
    {
        DirtyTrackedReallocationPolicy::GpuCopy
    }
}

/// A device column, a shadow of its rows, and marks for the rows that changed.
#[derive(Debug)]
pub struct DirtyTrackedSceneBuffer {
    buf: DynamicGpuBuffer,
    shadow: Vec<Row>,
    dirty: DirtyMask,
    policy: DirtyTrackedReallocationPolicy,
}

/// The value of a [`DirtyTrackedSceneBuffer`].
pub struct TrackedModel {
    pub buffer: BufferModel,
    pub shadow: Seq<Seq<u8>>,
    pub dirty: Seq<bool>,
    pub policy: DirtyTrackedReallocationPolicy,
}

impl View for DirtyTrackedSceneBuffer {
    type V = TrackedModel;

    closed spec fn view(&self) -> TrackedModel {
        TrackedModel {
            buffer: self.buf@,
            shadow: blobs(self.shadow@),
            dirty: self.dirty@,
            policy: self.policy,
        }
    }
}

/// `rows` with rows of zeros up to `n` rows.
pub open spec fn grown_rows(rows: Seq<Seq<u8>>, n: nat, stride: nat) -> Seq<Seq<u8>> {
    Seq::new(
        greatest(rows.len(), n),
        |i: int|
            if i < rows.len() {
                rows[i]
            } else {
                zero_row(stride)
            },
    )
}

/// Marks on all of `n` rows.
pub open spec fn all_marked(n: nat) -> Seq<bool> {
    Seq::new(n, |i: int| true)
}

/// How many rows a shadow of `len` rows has once it holds `row`.
pub open spec fn shadow_len_for(len: nat, row: u32) -> nat {
    if row < len {
        len
    } else {
        least(doubled(greatest(len, 1), (row + 1) as nat), u32::MAX as nat)
    }
}

impl TrackedModel {
    /// One mark per shadow row, and rows of the right width.
    pub open spec fn well_formed(self) -> bool {
        &&& self.shadow.len() == self.dirty.len()
        &&& self.shadow.len() <= u32::MAX
        &&& self.buffer.stride % 4 == 0
        &&& self.buffer.max_capacity is None
        &&& forall|i: int| 0 <= i < self.shadow.len() ==> (#[trigger] self.shadow[i]).len() == self.buffer.stride
    }

    /// A row was given new bytes.
    pub open spec fn marked(self, row: u32, data: Seq<u8>) -> TrackedModel {
        let len = shadow_len_for(self.shadow.len(), row);
        TrackedModel {
            shadow: grown_rows(self.shadow, len, self.buffer.stride as nat).update(row as int, data),
            dirty: resized(self.dirty, len).update(row as int, true),
            ..self
        }
    }

    /// The device buffer was reallocated as `buffer`.
    pub open spec fn rebased(self, buffer: BufferModel) -> TrackedModel {
        TrackedModel {
            buffer,
            dirty: if self.policy == DirtyTrackedReallocationPolicy::RewriteFromCpuShadow {
                all_marked(self.shadow.len())
            } else {
                self.dirty
            },
            ..self
        }
    }

    /// How many rows of the device buffer a reallocation keeps.
    pub open spec fn kept(self, rows: u32) -> u32 {
        if self.policy == DirtyTrackedReallocationPolicy::RewriteFromCpuShadow {
            0
        } else {
            rows
        }
    }

    /// The shadow and the device buffer have at least `capacity` rows.
    pub open spec fn reserved(self, capacity: u32, max_buffer_size: u64) -> TrackedModel {
        let grown = TrackedModel {
            shadow: grown_rows(self.shadow, capacity as nat, self.buffer.stride as nat),
            dirty: resized(self.dirty, greatest(self.shadow.len(), capacity as nat)),
            ..self
        };
        if self.buffer.capacity < capacity {
            grown.rebased(growth(self.buffer, capacity, max_buffer_size).0)
        } else {
            grown
        }
    }

    /// The shadow was cut to `target` rows, and the device buffer too if it has
    /// more.
    pub open spec fn shrunk(self, target: u32) -> TrackedModel {
        let cut = TrackedModel {
            shadow: self.shadow.take(target as int),
            dirty: resized(self.dirty, target as nat),
            ..self
        };
        if target < self.buffer.capacity {
            cut.rebased(self.buffer.reallocated(target))
        } else {
            cut
        }
    }

    /// The device buffer was made large enough for the shadow.
    pub open spec fn settled(self, max_buffer_size: u64) -> TrackedModel {
        if self.buffer.capacity < self.shadow.len() {
            self.rebased(growth(self.buffer, self.shadow.len() as u32, max_buffer_size).0)
        } else {
            self
        }
    }

    /// The shadow rows at the given rows.
    pub open spec fn values(self, rows: Seq<u32>) -> Seq<Seq<u8>> {
        rows.map_values(|r: u32| self.shadow[r as int])
    }

    /// The commands of a flush.
    pub open spec fn flush_commands(self, max_buffer_size: u64) -> Seq<CommandModel> {
        let after = self.settled(max_buffer_size);
        let rows = marked_rows(after.dirty);
        if self.buffer.capacity < self.shadow.len() {
            seq![
                CommandModel::Reallocate {
                    capacity: after.buffer.capacity,
                    keep: self.kept(self.buffer.capacity),
                },
            ] + uploads(rows, after.values(rows))
        } else {
            uploads(rows, after.values(rows))
        }
    }

    /// Nothing is left to upload.
    pub open spec fn flushed(self, max_buffer_size: u64) -> TrackedModel {
        TrackedModel { dirty: clean(self.shadow.len()), ..self.settled(max_buffer_size) }
    }

    /// Device memory holds the shadow row wherever there is no mark; rows that
    /// only one of the two has are zero.
    pub open spec fn mirrors(self, mem: Seq<Seq<u8>>) -> bool {
        &&& mem.len() == self.buffer.capacity
        &&& forall|i: int|
            0 <= i < mem.len() && i < self.shadow.len() && !self.dirty[i] ==> #[trigger] mem[i] == self.shadow[i]
        &&& forall|i: int|
            self.shadow.len() <= i < mem.len() ==> #[trigger] mem[i] == zero_row(self.buffer.stride as nat)
        &&& forall|i: int|
            mem.len() <= i < self.shadow.len() && !self.dirty[i] ==> #[trigger] self.shadow[i] == zero_row(
                self.buffer.stride as nat,
            )
    }
}

impl DirtyTrackedSceneBuffer {
    /// One mark per shadow row, and rows of the right width.
    pub open spec fn well_formed(&self) -> bool {
        self@.well_formed()
    }

    /// A column of `initial_capacity` zeroed rows of `stride` bytes, which the
    /// device copies when the column is reallocated.
    pub fn new(stride: u32, initial_capacity: u32) -> (buf: DirtyTrackedSceneBuffer)
        requires
            stride % 4 == 0,
        ensures
            buf.well_formed(),
            buf@ == (TrackedModel {
                buffer: BufferModel { capacity: initial_capacity, max_capacity: None, epoch: 0, stride },
                shadow: grown_rows(Seq::empty(), initial_capacity as nat, stride as nat),
                dirty: clean(initial_capacity as nat),
                policy: DirtyTrackedReallocationPolicy::GpuCopy,
            }),
    {
        Self::new_with_reallocation_policy(
            stride,
            initial_capacity,
            DirtyTrackedReallocationPolicy::GpuCopy,
        )
    }

    /// A column of `initial_capacity` zeroed rows of `stride` bytes. A scatter
    /// pass moves whole words, so the width must be a multiple of four.
    pub fn new_with_reallocation_policy(
        stride: u32,
        initial_capacity: u32,
        policy: DirtyTrackedReallocationPolicy,
    ) -> (buf: DirtyTrackedSceneBuffer)
        requires
            stride % 4 == 0,
        ensures
            buf.well_formed(),
            buf@ == (TrackedModel {
                buffer: BufferModel { capacity: initial_capacity, max_capacity: None, epoch: 0, stride },
                shadow: grown_rows(Seq::empty(), initial_capacity as nat, stride as nat),
                dirty: clean(initial_capacity as nat),
                policy,
            }),
    {
        let mut buf = DirtyTrackedSceneBuffer {
            buf: DynamicGpuBuffer::new(stride, initial_capacity),
            shadow: Vec::new(),
            dirty: DirtyMask::new(0),
            policy,
        };
        proof {
            assert(blobs(buf.shadow@) =~= Seq::<Seq<u8>>::empty());
        }
        buf.grow_shadow_to(initial_capacity);
        proof {
            assert(buf@.dirty =~= clean(initial_capacity as nat));
        }
        buf
    }

    /// Makes the shadow cover `new_len` rows, if it covers fewer.
    fn grow_shadow_to(&mut self, new_len: u32)
        requires
            old(self).well_formed(),
        ensures
            final(self).well_formed(),
            final(self)@ == (TrackedModel {
                shadow: grown_rows(old(self)@.shadow, new_len as nat, old(self)@.buffer.stride as nat),
                dirty: resized(old(self)@.dirty, greatest(old(self)@.shadow.len(), new_len as nat)),
                ..old(self)@
            }),
    {
        let ghost before = self@;
        let ghost stride = self@.buffer.stride;
        proof {
            assert(self.shadow@.len() == before.shadow.len());
            assert(grown_rows(before.shadow, 0, stride as nat) =~= before.shadow);
        }
        if self.shadow.len() >= new_len as usize {
            proof {
                assert(grown_rows(before.shadow, new_len as nat, stride as nat) =~= before.shadow);
                assert(resized(before.dirty, before.dirty.len()) =~= before.dirty);
            }
            return;
        }
        while self.shadow.len() < new_len as usize
            invariant
                before.shadow.len() <= self.shadow@.len() <= new_len,
                blobs(self.shadow@) == grown_rows(before.shadow, self.shadow@.len(), stride as nat),
                self.buf@ == before.buffer,
                self.dirty@ == before.dirty,
                self.policy == before.policy,
                stride == before.buffer.stride,
            decreases new_len - self.shadow@.len(),
        {
            let ghost rows = blobs(self.shadow@);
            self.shadow.push(make_zero_row(self.buf.stride()));
            proof {
                assert(blobs(self.shadow@) =~= rows.push(zero_row(stride as nat)));
                assert(blobs(self.shadow@) =~= grown_rows(before.shadow, self.shadow@.len(), stride as nat));
            }
        }
        self.dirty.resize(new_len);
        proof {
            assert forall|i: int| 0 <= i < self@.shadow.len() implies (#[trigger] self@.shadow[i]).len()
                == self@.buffer.stride by {
                if i < before.shadow.len() {
                    assert(self@.shadow[i] == before.shadow[i]);
                }
            }
        }
    }

    /// Records new bytes for a row and marks it. The device is not involved.
    pub fn mark_dirty_bytes(&mut self, row: u32, data: &[u8])
        requires
            old(self).well_formed(),
            row < u32::MAX,
            data@.len() == old(self)@.buffer.stride,
        ensures
            final(self).well_formed(),
            final(self)@ == old(self)@.marked(row, data@),
    {
        let ghost before = self@;
        proof {
            assert(self.shadow@.len() == before.shadow.len());
        }
        if row as usize >= self.shadow.len() {
            let len: u32 = double_until(self.shadow.len() as u32, row + 1, u32::MAX);
            proof {
                crate::gpu::dynamic_buffer::lemma_doubled(greatest(before.shadow.len(), 1), (row + 1) as nat);
            }
            self.grow_shadow_to(len);
        } else {
            proof {
                assert(grown_rows(before.shadow, before.shadow.len(), before.buffer.stride as nat)
                    =~= before.shadow);
                assert(resized(before.dirty, before.dirty.len()) =~= before.dirty);
            }
        }
        let ghost grown = self@;
        self.shadow[row as usize] = vstd::slice::slice_to_vec(data);
        self.dirty.mark(row);
        proof {
            assert(blobs(self.shadow@) =~= grown.shadow.update(row as int, data@));
            assert(self@.shadow =~= before.marked(row, data@).shadow);
            assert(self@.dirty =~= before.marked(row, data@).dirty);
        }
    }

    /// Marks every row.
    fn mark_all(&mut self)
        requires
            old(self).well_formed(),
        ensures
            final(self).well_formed(),
            final(self)@ == (TrackedModel { dirty: all_marked(old(self)@.shadow.len()), ..old(self)@ }),
    {
        let ghost before = self@;
        proof {
            assert(self.shadow@.len() == before.shadow.len());
        }
        self.dirty.mark_range(self.shadow.len() as u32);
        proof {
            assert(self@.dirty =~= all_marked(before.shadow.len()));
        }
    }

    /// Grows the device buffer to `capacity` rows as the policy says.
    fn grow_buffer(&mut self, max_buffer_size: u64, queue: &mut CommandQueue, capacity: u32) -> (out: Result<
        bool,
        CapacityError,
    >)
        requires
            old(self).well_formed(),
            old(self)@.buffer.capacity < capacity,
        ensures
            final(self).well_formed(),
            final(self)@ == (TrackedModel {
                buffer: growth(old(self)@.buffer, capacity, max_buffer_size).0,
                ..old(self)@
            }),
            out == growth(old(self)@.buffer, capacity, max_buffer_size).1,
            final(queue)@ == (if out is Ok {
                old(queue)@.push(
                    CommandModel::Reallocate {
                        capacity: final(self)@.buffer.capacity,
                        keep: old(self)@.kept(old(self)@.buffer.capacity),
                    },
                )
            } else {
                old(queue)@
            }),
    {
        match self.policy {
            DirtyTrackedReallocationPolicy::GpuCopy => self.buf.ensure_capacity(
                max_buffer_size,
                queue,
                capacity,
            ),
            DirtyTrackedReallocationPolicy::RewriteFromCpuShadow => self.buf.ensure_capacity_discarding(
                max_buffer_size,
                queue,
                capacity,
            ),
        }
    }

    /// Grows the device buffer and the shadow to `capacity` rows, if they have
    /// fewer. A request beyond the limit is an error and changes nothing.
    pub fn reserve(&mut self, max_buffer_size: u64, queue: &mut CommandQueue, capacity: u32) -> (out: Result<
        (),
        CapacityError,
    >)
        requires
            old(self).well_formed(),
        ensures
            final(self).well_formed(),
            match growth(old(self)@.buffer, capacity, max_buffer_size).1 {
                Ok(grew) => {
                    &&& out == Ok::<(), CapacityError>(())
                    &&& final(self)@ == old(self)@.reserved(capacity, max_buffer_size)
                    &&& final(queue)@ == (if grew {
                        old(queue)@.push(
                            CommandModel::Reallocate {
                                capacity: final(self)@.buffer.capacity,
                                keep: old(self)@.kept(old(self)@.buffer.capacity),
                            },
                        )
                    } else {
                        old(queue)@
                    })
                },
                Err(e) => {
                    &&& out == Err::<(), CapacityError>(e)
                    &&& final(self)@ == old(self)@
                    &&& final(queue)@ == old(queue)@
                },
            },
    {
        let mut rebuilt: bool = false;
        if self.buf.capacity() < capacity {
            match self.grow_buffer(max_buffer_size, queue, capacity) {
                Ok(_) => {
                    rebuilt = self.policy == DirtyTrackedReallocationPolicy::RewriteFromCpuShadow;
                },
                Err(e) => {
                    return Err(e);
                },
            }
        }
        self.grow_shadow_to(capacity);
        if rebuilt {
            self.mark_all();
        }
        Ok(())
    }

    /// Cuts the shadow to `target` rows, and the device buffer too if it has
    /// more. Does nothing where the shadow is no longer than that. Returns
    /// whether the device buffer was reallocated.
    pub fn shrink_to_fit(&mut self, queue: &mut CommandQueue, target: u32) -> (shrank: bool)
        requires
            old(self).well_formed(),
        ensures
            final(self).well_formed(),
            shrank == (target < old(self)@.shadow.len() && target < old(self)@.buffer.capacity),
            final(self)@ == (if target < old(self)@.shadow.len() {
                old(self)@.shrunk(target)
            } else {
                old(self)@
            }),
            final(queue)@ == (if shrank {
                old(queue)@.push(
                    CommandModel::Reallocate { capacity: target, keep: old(self)@.kept(target) },
                )
            } else {
                old(queue)@
            }),
    {
        let ghost before = self@;
        proof {
            assert(self.shadow@.len() == before.shadow.len());
        }
        if target as usize >= self.shadow.len() {
            return false;
        }
        self.shadow.truncate(target as usize);
        self.dirty.resize(target);
        proof {
            assert(blobs(self.shadow@) =~= before.shadow.take(target as int));
        }
        let shrank: bool = match self.policy {
            DirtyTrackedReallocationPolicy::GpuCopy => self.buf.shrink_to_fit(queue, target),
            DirtyTrackedReallocationPolicy::RewriteFromCpuShadow => self.buf.shrink_to_fit_discarding(
                queue,
                target,
            ),
        };
        if shrank && self.policy == DirtyTrackedReallocationPolicy::RewriteFromCpuShadow {
            self.mark_all();
        }
        shrank
    }

    /// Whether the shadow fits on a device. Otherwise a flush is not possible.
    pub fn fits(&self, max_buffer_size: u64) -> (yes: bool)
        requires
            self.well_formed(),
        ensures
            yes == (self@.shadow.len() <= greatest(
                self@.buffer.capacity as nat,
                self@.buffer.limit(max_buffer_size),
            )),
    {
        proof {
            assert(self.shadow@.len() == self@.shadow.len());
        }
        let rows: usize = self.shadow.len();
        rows <= self.buf.capacity() as usize || rows <= self.buf.limit(max_buffer_size) as usize
    }

    /// Uploads the marked rows and takes the marks off. The device buffer is
    /// first made as large as the shadow.
    pub fn flush(&mut self, max_buffer_size: u64, queue: &mut CommandQueue) -> (stats: SyncStats)
        requires
            old(self).well_formed(),
            old(self)@.shadow.len() <= greatest(
                old(self)@.buffer.capacity as nat,
                old(self)@.buffer.limit(max_buffer_size),
            ),
        ensures
            final(self).well_formed(),
            final(self)@ == old(self)@.flushed(max_buffer_size),
            final(queue)@ == old(queue)@ + old(self)@.flush_commands(max_buffer_size),
            ({
                let after = old(self)@.settled(max_buffer_size);
                let rows = marked_rows(after.dirty);
                stats == upload_stats(rows, after.values(rows), after.buffer.stride)
            }),
    {
        let ghost first = self@;
        let ghost queued = queue@;
        proof {
            assert(self.shadow@.len() == first.shadow.len());
        }
        let rows_needed: u32 = self.shadow.len() as u32;
        if self.buf.capacity() < rows_needed {
            let grew = self.grow_buffer(max_buffer_size, queue, rows_needed);
            if self.policy == DirtyTrackedReallocationPolicy::RewriteFromCpuShadow {
                self.mark_all();
            }
        }
        let ghost after = self@;
        proof {
            assert(after == first.settled(max_buffer_size));
            lemma_marked_rows(after.dirty);
        }
        let rows: Vec<u32> = self.dirty.marked();
        let mut values: Vec<Row> = Vec::new();
        let mut i: usize = 0;
        while i < rows.len()
            invariant
                i <= rows@.len(),
                after == self@,
                rows@ == marked_rows(after.dirty),
                self.shadow@.len() == after.shadow.len(),
                after.dirty.len() == after.shadow.len(),
                after.dirty.len() <= u32::MAX,
                values@.len() == i,
                forall|k: int| 0 <= k < i ==> (#[trigger] values@[k])@ == after.shadow[rows@[k] as int],
            decreases rows@.len() - i,
        {
            proof {
                lemma_marked_rows(after.dirty);
                assert(rows@.contains(rows@[i as int]));
                assert(after.shadow[rows@[i as int] as int] == self.shadow@[rows@[i as int] as int]@);
            }
            values.push(vstd::slice::slice_to_vec(self.shadow[rows[i] as usize].as_slice()));
            i = i + 1;
        }
        let ghost between = queue@;
        proof {
            assert(blobs(values@) =~= after.values(rows@));
        }
        let stats = queue_uploads(queue, rows, values, self.buf.stride());
        self.dirty.clear_all();
        proof {
            let marked = marked_rows(after.dirty);
            let ups = uploads(marked, after.values(marked));
            if first.buffer.capacity < first.shadow.len() {
                assert(queue@ =~= queued + first.flush_commands(max_buffer_size));
            }
        }
        stats
    }

    pub fn epoch(&self) -> (n: u64)
        ensures
            n == self@.buffer.epoch,
    {
        self.buf.epoch()
    }

    /// Rows of the device buffer.
    pub fn capacity(&self) -> (rows: u32)
        ensures
            rows == self@.buffer.capacity,
    {
        self.buf.capacity()
    }

    /// Bytes of one row.
    pub fn element_size(&self) -> (bytes: u32)
        ensures
            bytes == self@.buffer.stride,
    {
        self.buf.stride()
    }
}

/// A fresh column and zeroed device memory mirror each other.
pub proof fn lemma_fresh_mirrors(t: TrackedModel, mem: Seq<Seq<u8>>)
    requires
        t.shadow == grown_rows(Seq::empty(), t.buffer.capacity as nat, t.buffer.stride as nat),
        mem == t.shadow,
    ensures
        t.mirrors(mem),
{
}

/// Recording new bytes, which no command accompanies, keeps the mirror.
pub proof fn lemma_mark_keeps_mirror(t: TrackedModel, mem: Seq<Seq<u8>>, row: u32, data: Seq<u8>)
    requires
        t.well_formed(),
        t.mirrors(mem),
        row < u32::MAX,
    ensures
        t.marked(row, data).mirrors(mem),
{
    let after = t.marked(row, data);
    if row >= t.shadow.len() {
        crate::gpu::dynamic_buffer::lemma_doubled(greatest(t.shadow.len(), 1), (row + 1) as nat);
    }
    let len = shadow_len_for(t.shadow.len(), row);
    assert(after.shadow.len() == len);
    assert forall|i: int| 0 <= i < mem.len() && i < after.shadow.len() && !after.dirty[i] implies #[trigger] mem[i]
        == after.shadow[i] by {
        assert(i != row);
        if i < t.shadow.len() {
            assert(!t.dirty[i]);
        }
    }
    assert forall|i: int| mem.len() <= i < after.shadow.len() && !after.dirty[i] implies #[trigger] after.shadow[i]
        == zero_row(t.buffer.stride as nat) by {
        assert(i != row);
        if i < t.shadow.len() {
            assert(!t.dirty[i]);
            assert(t.shadow[i] == zero_row(t.buffer.stride as nat));
        }
    }
}

/// A reallocation that keeps as many rows as the policy says keeps the mirror,
/// provided that no row that it drops is in the shadow.
proof fn lemma_rebase_keeps_mirror(t: TrackedModel, mem: Seq<Seq<u8>>, buffer: BufferModel, keep: u32)
    requires
        t.well_formed(),
        t.mirrors(mem),
        buffer.stride == t.buffer.stride,
        keep <= mem.len(),
        keep <= buffer.capacity,
        t.policy == DirtyTrackedReallocationPolicy::RewriteFromCpuShadow ==> keep == 0,
        t.policy == DirtyTrackedReallocationPolicy::GpuCopy ==> keep == mem.len() || keep >= t.shadow.len(),
        t.policy == DirtyTrackedReallocationPolicy::GpuCopy && keep < mem.len() ==> keep == buffer.capacity,
    ensures
        t.rebased(buffer).mirrors(
            executed(
                mem,
                CommandModel::Reallocate { capacity: buffer.capacity, keep },
                t.buffer.stride as nat,
            ),
        ),
{
    let after = t.rebased(buffer);
    let now = executed(
        mem,
        CommandModel::Reallocate { capacity: buffer.capacity, keep },
        t.buffer.stride as nat,
    );
    assert forall|i: int| 0 <= i < now.len() && i < after.shadow.len() && !after.dirty[i] implies #[trigger] now[i]
        == after.shadow[i] by {
        if i < keep {
            assert(mem[i] == t.shadow[i]);
        } else {
            assert(i >= mem.len());
            assert(t.shadow[i] == zero_row(t.buffer.stride as nat));
        }
    }
    assert forall|i: int| after.shadow.len() <= i < now.len() implies #[trigger] now[i] == zero_row(
        buffer.stride as nat,
    ) by {
        if i < keep {
            assert(mem[i] == zero_row(t.buffer.stride as nat));
        }
    }
    assert forall|i: int| now.len() <= i < after.shadow.len() && !after.dirty[i] implies #[trigger] after.shadow[i]
        == zero_row(buffer.stride as nat) by {
        assert(i >= mem.len());
        assert(t.shadow[i] == zero_row(t.buffer.stride as nat));
    }
}

/// Reserving rows keeps the mirror.
pub proof fn lemma_reserve_keeps_mirror(t: TrackedModel, mem: Seq<Seq<u8>>, capacity: u32, max_buffer_size: u64)
    requires
        t.well_formed(),
        t.mirrors(mem),
        growth(t.buffer, capacity, max_buffer_size).1 is Ok,
    ensures
        ({
            let after = t.reserved(capacity, max_buffer_size);
            after.mirrors(
                if t.buffer.capacity < capacity {
                    executed(
                        mem,
                        CommandModel::Reallocate {
                            capacity: after.buffer.capacity,
                            keep: t.kept(t.buffer.capacity),
                        },
                        t.buffer.stride as nat,
                    )
                } else {
                    mem
                },
            )
        }),
{
    let grown = TrackedModel {
        shadow: grown_rows(t.shadow, capacity as nat, t.buffer.stride as nat),
        dirty: resized(t.dirty, greatest(t.shadow.len(), capacity as nat)),
        ..t
    };
    assert forall|i: int| 0 <= i < mem.len() && i < grown.shadow.len() && !grown.dirty[i] implies #[trigger] mem[i]
        == grown.shadow[i] by {
        if i < t.shadow.len() {
            assert(!t.dirty[i]);
        }
    }
    assert forall|i: int| mem.len() <= i < grown.shadow.len() && !grown.dirty[i] implies #[trigger] grown.shadow[i]
        == zero_row(t.buffer.stride as nat) by {
        if i < t.shadow.len() {
            assert(!t.dirty[i]);
            assert(t.shadow[i] == zero_row(t.buffer.stride as nat));
        }
    }
    assert(grown.mirrors(mem));
    assert forall|i: int| 0 <= i < grown.shadow.len() implies (#[trigger] grown.shadow[i]).len()
        == grown.buffer.stride by {
        if i < t.shadow.len() {
            assert(grown.shadow[i] == t.shadow[i]);
        }
    }
    if t.buffer.capacity < capacity {
        lemma_growth_preserves(t.buffer, capacity, max_buffer_size, mem);
        let buffer = growth(t.buffer, capacity, max_buffer_size).0;
        lemma_rebase_keeps_mirror(grown, mem, buffer, t.kept(t.buffer.capacity));
    }
}

/// Shrinking keeps the mirror.
pub proof fn lemma_shrink_keeps_mirror(t: TrackedModel, mem: Seq<Seq<u8>>, target: u32)
    requires
        t.well_formed(),
        t.mirrors(mem),
        target < t.shadow.len(),
    ensures
        t.shrunk(target).mirrors(
            if target < t.buffer.capacity {
                executed(
                    mem,
                    CommandModel::Reallocate { capacity: target, keep: t.kept(target) },
                    t.buffer.stride as nat,
                )
            } else {
                mem
            },
        ),
{
    let cut = TrackedModel {
        shadow: t.shadow.take(target as int),
        dirty: resized(t.dirty, target as nat),
        ..t
    };
    if target < t.buffer.capacity {
        let keep = t.kept(target);
        let now = executed(
            mem,
            CommandModel::Reallocate { capacity: target, keep },
            t.buffer.stride as nat,
        );
        let after = t.shrunk(target);
        assert forall|i: int| 0 <= i < now.len() && i < after.shadow.len() && !after.dirty[i] implies #[trigger] now[i]
            == after.shadow[i] by {
            assert(!t.dirty[i]);
            assert(mem[i] == t.shadow[i]);
        }
    } else {
        let after = t.shrunk(target);
        assert forall|i: int| 0 <= i < mem.len() && i < after.shadow.len() && !after.dirty[i] implies #[trigger] mem[i]
            == after.shadow[i] by {
            assert(!t.dirty[i]);
        }
        assert forall|i: int| mem.len() <= i < after.shadow.len() && !after.dirty[i] implies #[trigger] after.shadow[i]
            == zero_row(t.buffer.stride as nat) by {
            assert(!t.dirty[i]);
            assert(t.shadow[i] == zero_row(t.buffer.stride as nat));
        }
    }
}

/// After a flush, device memory holds the shadow, row for row, and zeros
/// beyond it.
pub proof fn lemma_flush_uploads_everything(t: TrackedModel, mem: Seq<Seq<u8>>, max_buffer_size: u64)
    requires
        t.well_formed(),
        t.mirrors(mem),
        t.shadow.len() <= greatest(t.buffer.capacity as nat, t.buffer.limit(max_buffer_size)),
    ensures
        ({
            let now = run(mem, t.flush_commands(max_buffer_size), t.buffer.stride as nat);
            &&& t.flushed(max_buffer_size).mirrors(now)
            &&& t.shadow.len() <= now.len()
            &&& now.take(t.shadow.len() as int) == t.shadow
        }),
{
    let stride = t.buffer.stride as nat;
    let after = t.settled(max_buffer_size);
    let rows = marked_rows(after.dirty);
    let values = after.values(rows);
    let realloc = CommandModel::Reallocate {
        capacity: after.buffer.capacity,
        keep: t.kept(t.buffer.capacity),
    };
    let grows = t.buffer.capacity < t.shadow.len();
    let mid = if grows {
        executed(mem, realloc, stride)
    } else {
        mem
    };
    if grows {
        lemma_growth_preserves(t.buffer, t.shadow.len() as u32, max_buffer_size, mem);
        lemma_rebase_keeps_mirror(t, mem, after.buffer, t.kept(t.buffer.capacity));
        lemma_run_one(mem, realloc, stride);
        lemma_run_concat(mem, seq![realloc], uploads(rows, values), stride);
    }
    assert(after.mirrors(mid));
    lemma_marked_rows(after.dirty);
    assert forall|i: int| 0 <= i < rows.len() implies (#[trigger] rows[i]) < mid.len() by {
        assert(rows.contains(rows[i]));
    }
    lemma_uploads(mid, rows, values, stride);
    let now = patched(mid, rows, values);
    assert forall|i: int| 0 <= i < t.shadow.len() implies #[trigger] now[i] == t.shadow[i] by {
        let r = i as u32;
        if rows.contains(r) {
            let k = rows.index_of(r);
            assert(rows[k] == r);
            assert(values[k] == after.shadow[i]);
        } else {
            assert(!after.dirty[i]);
            assert(mid[i] == after.shadow[i]);
        }
    }
    assert forall|i: int| t.shadow.len() <= i < now.len() implies #[trigger] now[i] == zero_row(stride) by {
        assert(mid[i] == zero_row(stride));
        if rows.contains(i as u32) {
            assert(i < after.dirty.len());
        }
    }
    assert(now.take(t.shadow.len() as int) =~= t.shadow);
}

/// A second flush has nothing to do.
pub proof fn lemma_second_flush_is_empty(t: TrackedModel, max_buffer_size: u64)
    requires
        t.well_formed(),
        t.shadow.len() <= greatest(t.buffer.capacity as nat, t.buffer.limit(max_buffer_size)),
    ensures
        t.flushed(max_buffer_size).flush_commands(max_buffer_size) == Seq::<CommandModel>::empty(),
        t.flushed(max_buffer_size).flushed(max_buffer_size) == t.flushed(max_buffer_size),
{
    let done = t.flushed(max_buffer_size);
    if t.buffer.capacity < t.shadow.len() {
        lemma_growth_preserves(
            t.buffer,
            t.shadow.len() as u32,
            max_buffer_size,
            Seq::new(t.buffer.capacity as nat, |i: int| Seq::<u8>::empty()),
        );
    }
    assert(done.settled(max_buffer_size) == done);
    lemma_marked_rows(done.dirty);
    let rows = marked_rows(done.dirty);
    if rows.len() > 0 {
        assert(rows.contains(rows[0]));
    }
    assert(done.flush_commands(max_buffer_size) =~= Seq::<CommandModel>::empty());
}

} // verus!
