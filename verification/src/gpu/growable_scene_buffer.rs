//! A device column that grows as rows beyond its end are written.

use vstd::prelude::*;
use crate::gpu::device::{CommandModel, CommandQueue, Row};
use crate::gpu::dynamic_buffer::{growth, lemma_growth_preserves, BufferModel, CapacityError, DynamicGpuBuffer};
use crate::replication::types::blobs;

verus! {

/// A growable device column. Its view is that of its buffer.
#[derive(Debug)]
pub struct GrowableSceneBuffer {
    inner: DynamicGpuBuffer,
}

impl View for GrowableSceneBuffer {
    type V = BufferModel;

    closed spec fn view(&self) -> BufferModel {
        self.inner@
    }
}

/// The commands of a write to rows that may be beyond the end of a buffer.
pub open spec fn growing_write(
    b: BufferModel,
    row: u32,
    data: Seq<Seq<u8>>,
    max_buffer_size: u64,
) -> Seq<CommandModel> {
    let grown = growth(b, (row + data.len()) as u32, max_buffer_size);
    let realloc = if grown.1 == Ok::<bool, CapacityError>(true) {
        seq![CommandModel::Reallocate { capacity: grown.0.capacity, keep: b.capacity }]
    } else {
        Seq::empty()
    };
    if grown.1 is Err || data.len() == 0 {
        realloc
    } else {
        realloc.push(CommandModel::Write { row, data })
    }
}

impl GrowableSceneBuffer {
    /// A column of `initial_capacity` zeroed rows of `stride` bytes.
    pub fn new(stride: u32, initial_capacity: u32, max_capacity: Option<u32>) -> (buf: GrowableSceneBuffer)
        ensures
            buf@ == (BufferModel { capacity: initial_capacity, max_capacity, epoch: 0, stride }),
    {
        let buf = DynamicGpuBuffer::new(stride, initial_capacity);
        match max_capacity {
            Some(max) => GrowableSceneBuffer { inner: buf.with_max_capacity(max) },
            None => GrowableSceneBuffer { inner: buf },
        }
    }

    /// Writes rows from `row` on, after growing the column if they do not fit.
    pub fn write_row_growing(
        &mut self,
        max_buffer_size: u64,
        queue: &mut CommandQueue,
        row: u32,
        data: &Vec<Row>,
    ) -> (out: Result<(), CapacityError>)
        requires
            row + data@.len() <= u32::MAX,
        ensures
            final(self)@ == growth(old(self)@, (row + data@.len()) as u32, max_buffer_size).0,
            match growth(old(self)@, (row + data@.len()) as u32, max_buffer_size).1 {
                Ok(_) => out == Ok::<(), CapacityError>(()),
                Err(e) => out == Err::<(), CapacityError>(e),
            },
            final(queue)@ == old(queue)@ + growing_write(old(self)@, row, blobs(data@), max_buffer_size),
    {
        let ghost before = queue@;
        let ghost b = self.inner@;
        let min: u32 = row + data.len() as u32;
        match self.inner.ensure_capacity(max_buffer_size, queue, min) {
            Ok(grew) => {
                proof {
                    if grew {
                        lemma_growth_preserves(
                            b,
                            min,
                            max_buffer_size,
                            Seq::new(b.capacity as nat, |i: int| Seq::<u8>::empty()),
                        );
                    }
                }
                self.inner.write(queue, row, data);
                proof {
                    assert(queue@ =~= before + growing_write(b, row, blobs(data@), max_buffer_size));
                }
                Ok(())
            },
            Err(e) => {
                proof {
                    assert(queue@ =~= before + growing_write(b, row, blobs(data@), max_buffer_size));
                }
                Err(e)
            },
        }
    }

    pub fn epoch(&self) -> (n: u64)
        ensures
            n == self@.epoch,
    {
        self.inner.epoch()
    }

    pub fn capacity(&self) -> (rows: u32)
        ensures
            rows == self@.capacity,
    {
        self.inner.capacity()
    }

    /// Bytes of one row.
    pub fn element_size(&self) -> (bytes: u32)
        ensures
            bytes == self@.stride,
    {
        self.inner.stride()
    }

    /// Rows that the column may have at most on a device.
    pub fn limit(&self, max_buffer_size: u64) -> (rows: u32)
        ensures
            rows == self@.limit(max_buffer_size),
    {
        self.inner.limit(max_buffer_size)
    }

    /// Grows the column ahead of writes that are known to come.
    pub fn reserve(&mut self, max_buffer_size: u64, queue: &mut CommandQueue, capacity: u32) -> (out: Result<
        (),
        CapacityError,
    >)
        ensures
            final(self)@ == growth(old(self)@, capacity, max_buffer_size).0,
            match growth(old(self)@, capacity, max_buffer_size).1 {
                Ok(_) => out == Ok::<(), CapacityError>(()),
                Err(e) => out == Err::<(), CapacityError>(e),
            },
            final(queue)@ == (if final(self)@.epoch != old(self)@.epoch {
                old(queue)@.push(
                    CommandModel::Reallocate {
                        capacity: final(self)@.capacity,
                        keep: old(self)@.capacity,
                    },
                )
            } else {
                old(queue)@
            }),
    {
        self.inner.reserve(max_buffer_size, queue, capacity)
    }

    /// Shrinks the column to `target` rows, if it has more.
    pub fn shrink_to_fit(&mut self, queue: &mut CommandQueue, target: u32) -> (shrank: bool)
        ensures
            shrank == (target < old(self)@.capacity),
            shrank ==> final(self)@ == old(self)@.reallocated(target) && final(queue)@ == old(queue)@.push(
                CommandModel::Reallocate { capacity: target, keep: target },
            ),
            !shrank ==> final(self)@ == old(self)@ && final(queue)@ == old(queue)@,
    {
        self.inner.shrink_to_fit(queue, target)
    }
}

} // verus!
