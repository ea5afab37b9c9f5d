//! A device column whose rows are handed over once: handoffs wait in a queue
//! until the next flush, and no shadow of the column is kept.

use vstd::prelude::*;
use crate::ascending::{lemma_row_at_least, lemma_rows_unique, lemma_with_row, rows_ascend, with_row};
use crate::gpu::device::{executed, lemma_run_concat, lemma_run_one, run, zero_row, CommandModel, CommandQueue, Row, SyncStats};
use crate::gpu::dynamic_buffer::{greatest, growth, lemma_growth_preserves, BufferModel, CapacityError, DynamicGpuBuffer};
use crate::gpu::upload::{lemma_uploads, queue_uploads, upload_stats, uploads};
use crate::replication::types::blobs;

verus! {

/// A device column and the handoffs that wait for a flush.
#[derive(Debug)]
pub struct OnceSceneBuffer {
    buf: DynamicGpuBuffer,
    pending: Vec<(u32, Row)>,
}

/// The value of a [`OnceSceneBuffer`].
pub struct OnceModel {
    pub buffer: BufferModel,
    /// Rows with their bytes, in the order in which they were handed over.
    pub pending: Seq<(u32, Seq<u8>)>,
}

/// The contents of a list of handoffs.
pub open spec fn handoffs(v: Seq<(u32, Row)>) -> Seq<(u32, Seq<u8>)> {
    v.map_values(|h: (u32, Row)| (h.0, h.1@))
}

impl View for OnceSceneBuffer {
    type V = OnceModel;

    closed spec fn view(&self) -> OnceModel {
        OnceModel { buffer: self.buf@, pending: handoffs(self.pending@) }
    }
}

/// The handoffs of one row, in order.
pub open spec fn of_row(v: Seq<(u32, Row)>, row: u32) -> Seq<(u32, Row)> {
    v.filter(|h: (u32, Row)| h.0 == row)
}

/// Sorts handoffs by row with `sort_by_key` of slices. The sort is stable: the
/// handoffs of each row stay in order.
#[verifier::external_body]
fn sort_by_row(pending: &mut Vec<(u32, Row)>)
    ensures
        final(pending)@.len() == old(pending)@.len(),
        forall|i: int, j: int|
            0 <= i < j < final(pending)@.len() ==> (#[trigger] final(pending)@[i]).0 <= (
            #[trigger] final(pending)@[j]).0,
        forall|row: u32| #[trigger] of_row(final(pending)@, row) == of_row(old(pending)@, row),
{
    pending.sort_by_key(|h| h.0);
}

/// The last bytes handed over for a row, if any were.
pub open spec fn latest(pending: Seq<(u32, Seq<u8>)>, row: u32) -> Option<Seq<u8>>
    decreases pending.len(),
{
    if pending.len() == 0 {
        None
    } else if pending.last().0 == row {
        Some(pending.last().1)
    } else {
        latest(pending.drop_last(), row)
    }
}

/// `rows` are the rows that were handed over, in ascending order.
pub open spec fn lists_rows(pending: Seq<(u32, Seq<u8>)>, rows: Seq<u32>) -> bool {
    &&& rows_ascend(rows)
    &&& forall|r: u32| #[trigger] rows.contains(r) <==> latest(pending, r) is Some
}

/// The rows that were handed over, in ascending order.
pub open spec fn handed_rows(pending: Seq<(u32, Seq<u8>)>) -> Seq<u32> {
    choose|rows: Seq<u32>| lists_rows(pending, rows)
}

/// The last bytes handed over for each of those rows.
pub open spec fn handed_values(pending: Seq<(u32, Seq<u8>)>) -> Seq<Seq<u8>> {
    handed_rows(pending).map_values(|r: u32| latest(pending, r).unwrap())
}

proof fn lemma_latest_of_row(v: Seq<(u32, Row)>, row: u32)
    ensures
        of_row(v, row).len() == 0 <==> latest(handoffs(v), row) is None,
        of_row(v, row).len() > 0 ==> latest(handoffs(v), row) == Some(of_row(v, row).last().1@),
    decreases v.len(),
{
    reveal(Seq::filter);
    if v.len() > 0 {
        lemma_latest_of_row(v.drop_last(), row);
        assert(handoffs(v).drop_last() =~= handoffs(v.drop_last()));
    }
}

proof fn lemma_handed_rows(pending: Seq<(u32, Seq<u8>)>, rows: Seq<u32>)
    requires
        lists_rows(pending, rows),
    ensures
        handed_rows(pending) == rows,
{
    let chosen = handed_rows(pending);
    assert(lists_rows(pending, chosen));
    assert forall|r: u32| #[trigger] chosen.contains(r) <==> rows.contains(r) by {}
    lemma_rows_unique(chosen, rows);
}

/// There is an ascending list of the rows that were handed over.
proof fn lemma_rows_exist(pending: Seq<(u32, Seq<u8>)>)
    ensures
        lists_rows(pending, handed_rows(pending)),
    decreases pending.len(),
{
    if pending.len() == 0 {
        assert(lists_rows(pending, Seq::<u32>::empty()));
    } else {
        lemma_rows_exist(pending.drop_last());
        let before = handed_rows(pending.drop_last());
        lemma_with_row(before, pending.last().0);
        assert(lists_rows(pending, with_row(before, pending.last().0)));
    }
}

/// The rows of the handoffs `v`, which are sorted by row, and the last bytes
/// of each.
fn collapse(v: &Vec<(u32, Row)>) -> (out: (Vec<u32>, Vec<Row>))
    requires
        forall|i: int, j: int|
            0 <= i < j < v@.len() ==> (#[trigger] v@[i]).0 <= (#[trigger] v@[j]).0,
    ensures
        lists_rows(handoffs(v@), out.0@),
        out.0@.len() == out.1@.len(),
        v@.len() > 0 ==> out.0@.len() > 0 && out.0@.last() == v@.last().0,
        forall|k: int|
            0 <= k < out.0@.len() ==> latest(handoffs(v@), #[trigger] out.0@[k]) == Some(out.1@[k]@),
{
    let ghost all = handoffs(v@);
    let mut rows: Vec<u32> = Vec::new();
    let mut values: Vec<Row> = Vec::new();
    let mut i: usize = 0;
    proof {
        assert(all.take(0) =~= Seq::<(u32, Seq<u8>)>::empty());
    }
    while i < v.len()
        invariant
            i <= v@.len(),
            all == handoffs(v@),
            all.len() == v@.len(),
            forall|a: int, b: int| 0 <= a < b < v@.len() ==> (#[trigger] v@[a]).0 <= (#[trigger] v@[b]).0,
            rows@.len() == values@.len(),
            i > 0 ==> rows@.len() > 0 && rows@.last() == v@[i - 1].0,
            lists_rows(all.take(i as int), rows@),
            forall|k: int|
                0 <= k < rows@.len() ==> latest(all.take(i as int), #[trigger] rows@[k]) == Some(values@[k]@),
        decreases v@.len() - i,
    {
        let row: u32 = v[i].0;
        let bytes: Row = vstd::slice::slice_to_vec(v[i].1.as_slice());
        let ghost content = bytes@;
        let ghost before = rows@;
        let ghost held = values@;
        let ghost seen = all.take(i as int);
        let ghost next = all.take(i + 1);
        proof {
            assert(next.drop_last() =~= seen);
            assert(next.last() == (row, content));
            assert forall|r: u32| latest(next, r) == (if r == row {
                Some(content)
            } else {
                #[trigger] latest(seen, r)
            }) by {}
        }
        let n: usize = rows.len();
        if n > 0 && rows[n - 1] == row {
            values[n - 1] = bytes;
            proof {
                assert(before[n - 1] == row);
                assert(before.contains(row));
                assert forall|k: int| 0 <= k < rows@.len() implies latest(next, #[trigger] rows@[k]) == Some(
                    values@[k]@,
                ) by {
                    if k < n - 1 {
                        assert(before[k] < before[n - 1]);
                        assert(values@[k] == held[k]);
                    }
                }
            }
        } else {
            rows.push(row);
            values.push(bytes);
            proof {
                assert forall|a: int, b: int| 0 <= a < b < rows@.len() implies #[trigger] rows@[a]
                    < #[trigger] rows@[b] by {
                    if b == n {
                        assert(v@[i - 1].0 <= v@[i as int].0);
                        if a < n - 1 {
                            assert(before[a] < before[n - 1]);
                        }
                    }
                }
                assert forall|r: u32| #[trigger] rows@.contains(r) <==> latest(next, r) is Some by {
                    if before.contains(r) {
                        let k = before.index_of(r);
                        assert(rows@[k] == r);
                    }
                    if rows@.contains(r) && r != row {
                        let k = rows@.index_of(r);
                        assert(before[k] == r);
                        assert(before.contains(r));
                    }
                    if r == row {
                        assert(rows@[n as int] == r);
                    }
                }
                assert forall|k: int| 0 <= k < rows@.len() implies latest(next, #[trigger] rows@[k]) == Some(
                    values@[k]@,
                ) by {
                    if k < n {
                        assert(rows@[k] < rows@[n as int]);
                        assert(rows@[k] == before[k]);
                        assert(values@[k] == held[k]);
                    }
                }
            }
        }
        i = i + 1;
    }
    proof {
        assert(all.take(all.len() as int) =~= all);
    }
    (rows, values)
}

impl OnceModel {
    /// Rows of the right width that can be addressed.
    pub open spec fn well_formed(self) -> bool {
        &&& self.buffer.stride % 4 == 0
        &&& self.buffer.max_capacity is None
        &&& forall|i: int|
            0 <= i < self.pending.len() ==> (#[trigger] self.pending[i]).0 < u32::MAX && self.pending[i].1.len()
                == self.buffer.stride
    }

    /// Every row that was handed over fits on a device.
    pub open spec fn fits(self, max_buffer_size: u64) -> bool {
        forall|i: int|
            0 <= i < self.pending.len() ==> (#[trigger] self.pending[i]).0 < greatest(
                self.buffer.capacity as nat,
                self.buffer.limit(max_buffer_size),
            )
    }

    /// How many rows the device buffer needs for the handoffs.
    pub open spec fn required(self) -> u32 {
        (handed_rows(self.pending).last() + 1) as u32
    }

    /// The buffer after a flush.
    pub open spec fn settled(self, max_buffer_size: u64) -> BufferModel {
        if self.pending.len() == 0 {
            self.buffer
        } else {
            growth(self.buffer, self.required(), max_buffer_size).0
        }
    }

    /// The commands of a flush.
    pub open spec fn flush_commands(self, max_buffer_size: u64) -> Seq<CommandModel> {
        let ups = uploads(handed_rows(self.pending), handed_values(self.pending));
        if self.pending.len() == 0 {
            Seq::empty()
        } else if self.buffer.capacity < self.required() {
            seq![
                CommandModel::Reallocate {
                    capacity: self.settled(max_buffer_size).capacity,
                    keep: self.buffer.capacity,
                },
            ] + ups
        } else {
            ups
        }
    }
}

impl OnceSceneBuffer {
    /// Rows of the right width that can be addressed.
    pub open spec fn well_formed(&self) -> bool {
        self@.well_formed()
    }

    /// A column of `initial_capacity` zeroed rows of `stride` bytes. A scatter
    /// pass moves whole words, so the width must be a multiple of four.
    pub fn new(stride: u32, initial_capacity: u32) -> (buf: OnceSceneBuffer)
        requires
            stride % 4 == 0,
        ensures
            buf.well_formed(),
            buf@ == (OnceModel {
                buffer: BufferModel { capacity: initial_capacity, max_capacity: None, epoch: 0, stride },
                pending: Seq::empty(),
            }),
    {
        let buf = OnceSceneBuffer {
            buf: DynamicGpuBuffer::new(stride, initial_capacity),
            pending: Vec::new(),
        };
        proof {
            assert(handoffs(buf.pending@) =~= Seq::<(u32, Seq<u8>)>::empty());
        }
        buf
    }

    /// Hands over the bytes of a row. Of several handoffs of one row, the last
    /// one counts.
    pub fn queue_handoff_bytes(&mut self, row: u32, data: &[u8])
        requires
            old(self).well_formed(),
            row < u32::MAX,
            data@.len() == old(self)@.buffer.stride,
        ensures
            final(self).well_formed(),
            final(self)@ == (OnceModel { pending: old(self)@.pending.push((row, data@)), ..old(self)@ }),
    {
        let ghost before = self@;
        self.pending.push((row, vstd::slice::slice_to_vec(data)));
        proof {
            assert(self@.pending =~= before.pending.push((row, data@)));
        }
    }

    /// Whether every row that was handed over fits on a device. Otherwise a
    /// flush is not possible.
    pub fn fits(&self, max_buffer_size: u64) -> (yes: bool)
        requires
            self.well_formed(),
        ensures
            yes == self@.fits(max_buffer_size),
    {
        let mut rows: u32 = self.buf.limit(max_buffer_size);
        if rows < self.buf.capacity() {
            rows = self.buf.capacity();
        }
        let mut i: usize = 0;
        while i < self.pending.len()
            invariant
                i <= self.pending@.len(),
                rows == greatest(self@.buffer.capacity as nat, self@.buffer.limit(max_buffer_size)),
                forall|k: int| 0 <= k < i ==> (#[trigger] self@.pending[k]).0 < rows,
            decreases self.pending@.len() - i,
        {
            if self.pending[i].0 >= rows {
                proof {
                    assert(self@.pending[i as int].0 >= rows);
                }
                return false;
            }
            proof {
                assert(self@.pending[i as int].0 == self.pending@[i as int].0);
            }
            i = i + 1;
        }
        true
    }

    /// Uploads what was handed over since the last flush, each row once and
    /// with its last bytes. The device buffer first grows to hold them.
    pub fn flush(&mut self, max_buffer_size: u64, queue: &mut CommandQueue) -> (stats: SyncStats)
        requires
            old(self).well_formed(),
            old(self)@.fits(max_buffer_size),
        ensures
            final(self).well_formed(),
            final(self)@ == (OnceModel {
                buffer: old(self)@.settled(max_buffer_size),
                pending: Seq::empty(),
            }),
            final(queue)@ == old(queue)@ + old(self)@.flush_commands(max_buffer_size),
            stats == (if old(self)@.pending.len() == 0 {
                SyncStats { ranges: 0, bytes: 0 }
            } else {
                upload_stats(
                    handed_rows(old(self)@.pending),
                    handed_values(old(self)@.pending),
                    old(self)@.buffer.stride,
                )
            }),
    {
        let ghost first = self@;
        let ghost queued = queue@;
        let ghost given = self.pending@;
        if self.pending.is_empty() {
            proof {
                assert(first.pending =~= Seq::<(u32, Seq<u8>)>::empty());
                assert(queued + first.flush_commands(max_buffer_size) =~= queued);
            }
            return SyncStats::none();
        }
        let mut pending: Vec<(u32, Row)> = Vec::new();
        std::mem::swap(&mut pending, &mut self.pending);
        sort_by_row(&mut pending);
        let (rows, values) = collapse(&pending);
        let ghost sorted = handoffs(pending@);
        proof {
            assert forall|r: u32| #[trigger] latest(sorted, r) == latest(first.pending, r) by {
                lemma_latest_of_row(pending@, r);
                lemma_latest_of_row(given, r);
                assert(of_row(pending@, r) == of_row(given, r));
            }
            assert(lists_rows(first.pending, rows@));
            lemma_handed_rows(first.pending, rows@);
            assert(blobs(values@) =~= handed_values(first.pending));
            lemma_last_row_bound(first.pending, rows@);
            lemma_row_at_least(rows@, rows@.len() - 1);
        }
        let required: u32 = rows[rows.len() - 1] + 1;
        let grew = self.buf.ensure_capacity(max_buffer_size, queue, required);
        let stats = queue_uploads(queue, rows, values, self.buf.stride());
        proof {
            assert(self@.pending =~= Seq::<(u32, Seq<u8>)>::empty());
            assert(queue@ =~= queued + first.flush_commands(max_buffer_size));
        }
        stats
    }

    /// Grows the device buffer ahead of handoffs that are known to come.
    pub fn reserve(&mut self, max_buffer_size: u64, queue: &mut CommandQueue, capacity: u32) -> (out: Result<
        (),
        CapacityError,
    >)
        requires
            old(self).well_formed(),
        ensures
            final(self).well_formed(),
            final(self)@ == (OnceModel {
                buffer: growth(old(self)@.buffer, capacity, max_buffer_size).0,
                ..old(self)@
            }),
            match growth(old(self)@.buffer, capacity, max_buffer_size).1 {
                Ok(_) => out == Ok::<(), CapacityError>(()),
                Err(e) => out == Err::<(), CapacityError>(e),
            },
            final(queue)@ == (if final(self)@.buffer.epoch != old(self)@.buffer.epoch {
                old(queue)@.push(
                    CommandModel::Reallocate {
                        capacity: final(self)@.buffer.capacity,
                        keep: old(self)@.buffer.capacity,
                    },
                )
            } else {
                old(queue)@
            }),
    {
        self.buf.reserve(max_buffer_size, queue, capacity)
    }

    /// Shrinks the device buffer to `target` rows, if it has more.
    pub fn shrink_to_fit(&mut self, queue: &mut CommandQueue, target: u32) -> (shrank: bool)
        requires
            old(self).well_formed(),
        ensures
            final(self).well_formed(),
            shrank == (target < old(self)@.buffer.capacity),
            final(self)@ == (OnceModel {
                buffer: if shrank {
                    old(self)@.buffer.reallocated(target)
                } else {
                    old(self)@.buffer
                },
                ..old(self)@
            }),
            final(queue)@ == (if shrank {
                old(queue)@.push(CommandModel::Reallocate { capacity: target, keep: target })
            } else {
                old(queue)@
            }),
    {
        self.buf.shrink_to_fit(queue, target)
    }

    pub fn epoch(&self) -> (n: u64)
        ensures
            n == self@.buffer.epoch,
    {
        self.buf.epoch()
    }

    pub fn capacity(&self) -> (rows: u32)
        ensures
            rows == self@.buffer.capacity,
    {
        self.buf.capacity()
    }

    /// Bytes of one row.
    pub fn element_size(&self) -> (bytes: u32)
        ensures
            bytes == self@.buffer.stride,
    {
        self.buf.stride()
    }

    /// How many handoffs wait for the next flush.
    pub fn pending_count(&self) -> (n: usize)
        ensures
            n == self@.pending.len(),
    {
        self.pending.len()
    }
}

proof fn lemma_latest_origin(pending: Seq<(u32, Seq<u8>)>, row: u32)
    requires
        latest(pending, row) is Some,
    ensures
        exists|i: int|
            0 <= i < pending.len() && (#[trigger] pending[i]).0 == row && latest(pending, row) == Some(
                pending[i].1,
            ),
    decreases pending.len(),
{
    if pending.last().0 == row {
        assert(pending[pending.len() - 1].0 == row);
    } else {
        lemma_latest_origin(pending.drop_last(), row);
        let i = choose|i: int|
            0 <= i < pending.drop_last().len() && (#[trigger] pending.drop_last()[i]).0 == row && latest(
                pending.drop_last(),
                row,
            ) == Some(pending.drop_last()[i].1);
        assert(pending[i].0 == row);
    }
}

proof fn lemma_latest_exists(pending: Seq<(u32, Seq<u8>)>, i: int)
    requires
        0 <= i < pending.len(),
    ensures
        latest(pending, pending[i].0) is Some,
    decreases pending.len(),
{
    if i < pending.len() - 1 {
        lemma_latest_exists(pending.drop_last(), i);
    }
}

proof fn lemma_last_row_bound(pending: Seq<(u32, Seq<u8>)>, rows: Seq<u32>)
    requires
        lists_rows(pending, rows),
        pending.len() > 0,
    ensures
        rows.len() > 0,
        exists|i: int| 0 <= i < pending.len() && (#[trigger] pending[i]).0 == rows.last(),
{
    lemma_latest_exists(pending, 0);
    assert(rows.contains(pending[0].0));
    assert(rows[rows.len() - 1] == rows.last());
    assert(rows.contains(rows.last()));
    lemma_latest_origin(pending, rows.last());
}

/// After a flush, the buffer has every row that was handed over.
pub proof fn lemma_settled_covers(t: OnceModel, row: u32, max_buffer_size: u64)
    requires
        t.well_formed(),
        t.fits(max_buffer_size),
        latest(t.pending, row) is Some,
    ensures
        row < t.settled(max_buffer_size).capacity,
{
    lemma_rows_exist(t.pending);
    let rows = handed_rows(t.pending);
    lemma_last_row_bound(t.pending, rows);
    assert(rows.contains(row));
    let k = rows.index_of(row);
    if k < rows.len() - 1 {
        assert(rows[k] < rows[rows.len() - 1]);
    }
    if t.buffer.capacity < t.required() {
        lemma_growth_preserves(
            t.buffer,
            t.required(),
            max_buffer_size,
            Seq::new(t.buffer.capacity as nat, |i: int| Seq::<u8>::empty()),
        );
    }
}

/// After a flush, every row that was handed over holds the last bytes handed
/// over for it, and every other row is as it was, or zero where it is new.
pub proof fn lemma_flush_hands_over(t: OnceModel, mem: Seq<Seq<u8>>, max_buffer_size: u64, r: u32)
    requires
        t.well_formed(),
        t.fits(max_buffer_size),
        mem.len() == t.buffer.capacity,
        r < t.settled(max_buffer_size).capacity,
    ensures
        ({
            let now = run(mem, t.flush_commands(max_buffer_size), t.buffer.stride as nat);
            &&& now.len() == t.settled(max_buffer_size).capacity
            &&& now[r as int] == match latest(t.pending, r) {
                Some(bytes) => bytes,
                None => if r < mem.len() {
                    mem[r as int]
                } else {
                    zero_row(t.buffer.stride as nat)
                },
            }
        }),
{
    let stride = t.buffer.stride as nat;
    if t.pending.len() > 0 {
        lemma_rows_exist(t.pending);
        let rows = handed_rows(t.pending);
        lemma_last_row_bound(t.pending, rows);
        let values = handed_values(t.pending);
        let ups = uploads(rows, values);
        let after = t.settled(max_buffer_size);
        let realloc = CommandModel::Reallocate { capacity: after.capacity, keep: t.buffer.capacity };
        let grows = t.buffer.capacity < t.required();
        let mid = if grows {
            executed(mem, realloc, stride)
        } else {
            mem
        };
        if grows {
            lemma_growth_preserves(t.buffer, t.required(), max_buffer_size, mem);
            lemma_run_one(mem, realloc, stride);
            lemma_run_concat(mem, seq![realloc], ups, stride);
        }
        assert forall|i: int| 0 <= i < rows.len() implies (#[trigger] rows[i]) < mid.len() by {
            if i < rows.len() - 1 {
                assert(rows[i] < rows[rows.len() - 1]);
            }
        }
        lemma_uploads(mid, rows, values, stride);
        if rows.contains(r) {
            let k = rows.index_of(r);
            assert(rows[k] == r);
            assert(values[k] == latest(t.pending, r).unwrap());
        }
    }
}

} // verus!
