//! A device buffer that grows and shrinks by reallocation.

use vstd::prelude::*;
use crate::gpu::device::{executed, CommandModel, CommandQueue, GpuCommand, Row};
use crate::replication::types::{blobs, copy_blobs};

verus! {

/// A buffer cannot grow to `requested` rows, since it may have `max` at most.
#[derive(Copy, Clone, Debug, PartialEq, Eq, Structural)]
pub struct CapacityError {
    pub requested: u32,
    pub max: u32,
}

/// The first of `c`, `2 * c`, `4 * c`, ... that is at least `min`.
pub open spec fn doubled(c: nat, min: nat) -> nat
    decreases
            if c < min {
                min - c
            } else {
                0
            },
{
    if c == 0 || c >= min {
        c
    } else {
        doubled(2 * c, min)
    }
}

/// The lesser of two numbers.
pub open spec fn least(a: nat, b: nat) -> nat {
    if a < b {
        a
    } else {
        b
    }
}

/// The greater of two numbers.
pub open spec fn greatest(a: nat, b: nat) -> nat {
    if a < b {
        b
    } else {
        a
    }
}

/// How many rows of `stride` bytes fit into the largest buffer of a device.
pub open spec fn device_rows(max_buffer_size: u64, stride: u32) -> nat {
    least(
        (max_buffer_size as nat) / greatest(stride as nat, 1),
        u32::MAX as nat,
    )
}

/// `capacity` doubled, from 1 at least, until it is `min` or more, and no more
/// than `max`.
pub fn double_until(capacity: u32, min: u32, max: u32) -> (n: u32)
    requires
        min <= max,
    ensures
        n == least(doubled(greatest(capacity as nat, 1), min as nat), max as nat),
{
    let ghost start = greatest(capacity as nat, 1);
    let mut n: u32 = if capacity == 0 {
        1
    } else {
        capacity
    };
    while n < min
        invariant
            n >= 1,
            min <= max,
            doubled(start, min as nat) == doubled(n as nat, min as nat) || (n == u32::MAX && doubled(
                start,
                min as nat,
            ) >= u32::MAX),
        decreases
                if n < min {
                    min - n
                } else {
                    0
                },
    {
        if n > u32::MAX / 2 {
            proof {
                assert(doubled(n as nat, min as nat) == doubled((2 * n) as nat, min as nat));
                assert(doubled((2 * n) as nat, min as nat) == 2 * n);
            }
            n = u32::MAX;
        } else {
            n = n * 2;
        }
    }
    if n > max {
        max
    } else {
        n
    }
}

/// A device buffer whose contents are kept when it is reallocated. Its
/// [`DynamicGpuBuffer::epoch`] counts the reallocations, so that a holder of
/// the old buffer can tell that it is stale.
///
/// It stands for the numbers in [`BufferModel`], which is its view.
#[derive(Debug)]
pub struct DynamicGpuBuffer {
    capacity: u32,
    max_capacity: Option<u32>,
    epoch: u64,
    stride: u32,
}

/// The value of a [`DynamicGpuBuffer`].
pub struct BufferModel {
    /// Rows that the buffer has.
    pub capacity: u32,
    /// Rows that it may have at most, besides the limit of the device.
    pub max_capacity: Option<u32>,
    /// How often it was reallocated, wrapping around.
    pub epoch: u64,
    /// Bytes of one row.
    pub stride: u32,
}

impl BufferModel {
    /// Rows that the buffer may have at most on a device.
    pub open spec fn limit(self, max_buffer_size: u64) -> nat {
        match self.max_capacity {
            Some(max) => least(max as nat, device_rows(max_buffer_size, self.stride)),
            None => device_rows(max_buffer_size, self.stride),
        }
    }

    /// The buffer after a reallocation to `capacity` rows.
    pub open spec fn reallocated(self, capacity: u32) -> BufferModel {
        BufferModel { capacity, epoch: next_epoch(self.epoch), ..self }
    }

    /// How many rows the buffer has after growing to at least `min`.
    pub open spec fn grown(self, min: u32, max_buffer_size: u64) -> u32 {
        least(
            doubled(greatest(self.capacity as nat, 1), min as nat),
            self.limit(max_buffer_size),
        ) as u32
    }
}

/// The number of the next reallocation.
pub open spec fn next_epoch(epoch: u64) -> u64 {
    if epoch == u64::MAX {
        0
    } else {
        (epoch + 1) as u64
    }
}

impl View for DynamicGpuBuffer {
    type V = BufferModel;

    closed spec fn view(&self) -> BufferModel {
        BufferModel {
            capacity: self.capacity,
            max_capacity: self.max_capacity,
            epoch: self.epoch,
            stride: self.stride,
        }
    }
}

/// What a request for `min` rows does to a buffer.
pub open spec fn growth(b: BufferModel, min: u32, max_buffer_size: u64) -> (BufferModel, Result<
    bool,
    CapacityError,
>) {
    if min <= b.capacity {
        (b, Ok(false))
    } else if min > b.limit(max_buffer_size) {
        (b, Err(CapacityError { requested: min, max: b.limit(max_buffer_size) as u32 }))
    } else {
        (b.reallocated(b.grown(min, max_buffer_size)), Ok(true))
    }
}

impl DynamicGpuBuffer {
    /// A buffer of `initial_capacity` zeroed rows of `stride` bytes.
    pub fn new(stride: u32, initial_capacity: u32) -> (buf: DynamicGpuBuffer)
        ensures
            buf@ == (BufferModel { capacity: initial_capacity, max_capacity: None, epoch: 0, stride }),
    {
        DynamicGpuBuffer { capacity: initial_capacity, max_capacity: None, epoch: 0, stride }
    }

    /// The buffer with a ceiling that it never grows past.
    pub fn with_max_capacity(self, max_capacity: u32) -> (buf: DynamicGpuBuffer)
        ensures
            buf@ == (BufferModel { max_capacity: Some(max_capacity), ..self@ }),
    {
        DynamicGpuBuffer {
            capacity: self.capacity,
            max_capacity: Some(max_capacity),
            epoch: self.epoch,
            stride: self.stride,
        }
    }

    /// Rows that the buffer may have at most: the lesser of its own ceiling and
    /// what the largest buffer of the device can hold.
    pub fn limit(&self, max_buffer_size: u64) -> (rows: u32)
        ensures
            rows == self@.limit(max_buffer_size),
    {
        let size: u64 = if self.stride == 0 {
            1
        } else {
            self.stride as u64
        };
        let fit: u64 = max_buffer_size / size;
        let device: u32 = if fit > u32::MAX as u64 {
            u32::MAX
        } else {
            fit as u32
        };
        match self.max_capacity {
            Some(max) => if max < device {
                max
            } else {
                device
            },
            None => device,
        }
    }

    /// Grows the buffer to at least `min_capacity` rows, by doubling, if it has
    /// fewer. Returns whether it was reallocated. A request beyond the limit is
    /// an error and changes nothing. The rows that it had are kept.
    pub fn ensure_capacity(&mut self, max_buffer_size: u64, queue: &mut CommandQueue, min_capacity: u32) -> (out:
        Result<bool, CapacityError>)
        ensures
            (final(self)@, out) == growth(old(self)@, min_capacity, max_buffer_size),
            final(queue)@ == (if out == Ok::<bool, CapacityError>(true) {
                old(queue)@.push(
                    CommandModel::Reallocate {
                        capacity: final(self)@.capacity,
                        keep: old(self)@.capacity,
                    },
                )
            } else {
                old(queue)@
            }),
    {
        self.grow(max_buffer_size, queue, min_capacity, false)
    }

    /// Like [`DynamicGpuBuffer::ensure_capacity`], but a reallocated buffer is
    /// all zeros.
    pub fn ensure_capacity_discarding(
        &mut self,
        max_buffer_size: u64,
        queue: &mut CommandQueue,
        min_capacity: u32,
    ) -> (out: Result<bool, CapacityError>)
        ensures
            (final(self)@, out) == growth(old(self)@, min_capacity, max_buffer_size),
            final(queue)@ == (if out == Ok::<bool, CapacityError>(true) {
                old(queue)@.push(
                    CommandModel::Reallocate { capacity: final(self)@.capacity, keep: 0 },
                )
            } else {
                old(queue)@
            }),
    {
        self.grow(max_buffer_size, queue, min_capacity, true)
    }

    fn grow(&mut self, max_buffer_size: u64, queue: &mut CommandQueue, min_capacity: u32, discard: bool) -> (out:
        Result<bool, CapacityError>)
        ensures
            (final(self)@, out) == growth(old(self)@, min_capacity, max_buffer_size),
            final(queue)@ == (if out == Ok::<bool, CapacityError>(true) {
                old(queue)@.push(
                    CommandModel::Reallocate {
                        capacity: final(self)@.capacity,
                        keep: if discard {
                            0
                        } else {
                            old(self)@.capacity
                        },
                    },
                )
            } else {
                old(queue)@
            }),
    {
        if min_capacity <= self.capacity {
            return Ok(false);
        }
        let max: u32 = self.limit(max_buffer_size);
        if min_capacity > max {
            return Err(CapacityError { requested: min_capacity, max });
        }
        let keep: u32 = if discard {
            0
        } else {
            self.capacity
        };
        let capacity: u32 = double_until(self.capacity, min_capacity, max);
        self.reallocate(queue, capacity, keep);
        Ok(true)
    }

    fn reallocate(&mut self, queue: &mut CommandQueue, capacity: u32, keep: u32)
        ensures
            final(self)@ == old(self)@.reallocated(capacity),
            final(queue)@ == old(queue)@.push(CommandModel::Reallocate { capacity, keep }),
    {
        queue.push(GpuCommand::Reallocate { capacity, keep });
        self.capacity = capacity;
        self.epoch = self.epoch.wrapping_add(1);
    }

    /// Grows the buffer ahead of writes that are known to come.
    pub fn reserve(&mut self, max_buffer_size: u64, queue: &mut CommandQueue, capacity: u32) -> (out: Result<
        (),
        CapacityError,
    >)
        ensures
            final(self)@ == growth(old(self)@, capacity, max_buffer_size).0,
            match growth(old(self)@, capacity, max_buffer_size).1 {
                Ok(_) => out == Ok::<(), CapacityError>(()),
                Err(e) => out == Err::<(), CapacityError>(e),
            },
            final(queue)@ == (if final(self)@.epoch != old(self)@.epoch {
                old(queue)@.push(
                    CommandModel::Reallocate {
                        capacity: final(self)@.capacity,
                        keep: old(self)@.capacity,
                    },
                )
            } else {
                old(queue)@
            }),
    {
        match self.ensure_capacity(max_buffer_size, queue, capacity) {
            Ok(_) => Ok(()),
            Err(e) => Err(e),
        }
    }

    /// Shrinks the buffer to `target` rows, which are kept, if it has more.
    /// Returns whether it did.
    pub fn shrink_to_fit(&mut self, queue: &mut CommandQueue, target: u32) -> (shrank: bool)
        ensures
            shrank == (target < old(self)@.capacity),
            shrank ==> final(self)@ == old(self)@.reallocated(target) && final(queue)@ == old(queue)@.push(
                CommandModel::Reallocate { capacity: target, keep: target },
            ),
            !shrank ==> final(self)@ == old(self)@ && final(queue)@ == old(queue)@,
    {
        if target >= self.capacity {
            return false;
        }
        self.reallocate(queue, target, target);
        true
    }

    /// Like [`DynamicGpuBuffer::shrink_to_fit`], but a reallocated buffer is
    /// all zeros.
    pub fn shrink_to_fit_discarding(&mut self, queue: &mut CommandQueue, target: u32) -> (shrank: bool)
        ensures
            shrank == (target < old(self)@.capacity),
            shrank ==> final(self)@ == old(self)@.reallocated(target) && final(queue)@ == old(queue)@.push(
                CommandModel::Reallocate { capacity: target, keep: 0 },
            ),
            !shrank ==> final(self)@ == old(self)@ && final(queue)@ == old(queue)@,
    {
        if target >= self.capacity {
            return false;
        }
        self.reallocate(queue, target, 0);
        true
    }

    /// Writes rows from `offset` on, which must exist.
    pub fn write(&self, queue: &mut CommandQueue, offset: u32, data: &Vec<Row>)
        requires
            offset + data@.len() <= self@.capacity,
        ensures
            final(queue)@ == (if data@.len() == 0 {
                old(queue)@
            } else {
                old(queue)@.push(CommandModel::Write { row: offset, data: blobs(data@) })
            }),
    {
        if data.len() > 0 {
            queue.push(GpuCommand::Write { row: offset, data: copy_blobs(data) });
        }
    }

    pub fn capacity(&self) -> (rows: u32)
        ensures
            rows == self@.capacity,
    {
        self.capacity
    }

    pub fn epoch(&self) -> (n: u64)
        ensures
            n == self@.epoch,
    {
        self.epoch
    }

    pub fn stride(&self) -> (bytes: u32)
        ensures
            bytes == self@.stride,
    {
        self.stride
    }
}

pub proof fn lemma_doubled(c: nat, min: nat)
    requires
        c >= 1,
    ensures
        doubled(c, min) >= min,
        doubled(c, min) >= c,
    decreases
            if c < min {
                min - c
            } else {
                0
            },
{
    if c < min {
        lemma_doubled(2 * c, min);
    }
}

/// A buffer that grew has the rows that were asked for and is within its
/// limit; its old rows are as they were.
pub proof fn lemma_growth_preserves(b: BufferModel, min: u32, max_buffer_size: u64, mem: Seq<Seq<u8>>)
    requires
        mem.len() == b.capacity,
        growth(b, min, max_buffer_size).1 == Ok::<bool, CapacityError>(true),
    ensures
        ({
            let after = growth(b, min, max_buffer_size).0;
            let now = executed(
                mem,
                CommandModel::Reallocate { capacity: after.capacity, keep: b.capacity },
                b.stride as nat,
            );
            &&& min <= after.capacity <= b.limit(max_buffer_size)
            &&& b.capacity < after.capacity
            &&& now.len() == after.capacity
            &&& now.take(mem.len() as int) == mem
        }),
{
    lemma_doubled(greatest(b.capacity as nat, 1), min as nat);
    let after = growth(b, min, max_buffer_size).0;
    let now = executed(
        mem,
        CommandModel::Reallocate { capacity: after.capacity, keep: b.capacity },
        b.stride as nat,
    );
    assert(now.take(mem.len() as int) =~= mem);
}

/// A request beyond the limit leaves the buffer as it was.
pub proof fn lemma_refused_growth_changes_nothing(b: BufferModel, min: u32, max_buffer_size: u64)
    requires
        growth(b, min, max_buffer_size).1 is Err,
    ensures
        growth(b, min, max_buffer_size).0 == b,
        min > b.limit(max_buffer_size),
{
}

} // verus!
