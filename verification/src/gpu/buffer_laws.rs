//! What the buffers of the mirror keep, grow to and upload, row by row.

use vstd::prelude::*;
use crate::ascending::rows_ascend;
use crate::gpu::device::{run, zero_row, CommandModel};
use crate::gpu::dirty::{clean, lemma_marked_rows, marked_rows, resized};
use crate::gpu::dirty_tracked_scene_buffer::{DirtyTrackedReallocationPolicy, TrackedModel};
use crate::gpu::dynamic_buffer::{device_rows, doubled, greatest, growth, lemma_doubled, next_epoch, BufferModel};
use crate::gpu::once_scene_buffer::latest;
use crate::gpu::upload::{direct_writes, lemma_uploads, run_len, upload_stats, uploads, SCATTER_RUN_THRESHOLD};

verus! {

/// Twice the capacity, as often as it takes: the first that is enough.
pub proof fn lemma_doubled_is_first(c: nat, min: nat)
    requires
        c >= 1,
    ensures
        c >= min ==> doubled(c, min) == c,
        c < min ==> min <= doubled(c, min) < 2 * min,
        c < min ==> doubled(c, min) == doubled(2 * c, min),
    decreases
            if c < min {
                min - c
            } else {
                0
            },
{
    if c < min {
        lemma_doubled_is_first(2 * c, min);
    }
}

/// The most rows that a buffer may have on a device: all that its size allows, unless
/// the buffer has a ceiling of its own.
pub proof fn lemma_most_rows(b: BufferModel, max_buffer_size: u64)
    requires
        b.stride > 0,
    ensures
        ({
            let rows = b.limit(max_buffer_size);
            &&& rows * b.stride <= max_buffer_size
            &&& rows <= u32::MAX
            &&& b.max_capacity matches Some(max) ==> rows <= max
            &&& (rows + 1) * b.stride <= max_buffer_size ==> rows == u32::MAX || b.max_capacity == Some(rows as u32)
        }),
{
    let s = b.stride as nat;
    let n = max_buffer_size as nat;
    let q = n / s;
    assert(q * s <= n && n < (q + 1) * s) by (nonlinear_arith)
        requires
            q == n / s,
            s > 0,
    ;
    let rows = b.limit(max_buffer_size);
    assert(device_rows(max_buffer_size, b.stride) <= q);
    assert(rows <= q);
    assert(rows * s <= q * s) by (nonlinear_arith)
        requires
            rows <= q,
    ;
    if (rows + 1) * s <= n {
        assert(rows != q);
    }
}

/// When a buffer grows, and to what: not at all if it has the rows already; not if they
/// are more than it may have, which is the error; and otherwise to twice its rows as
/// often as it takes, or to the most it may have. A growth starts a new epoch.
pub proof fn lemma_when_buffers_grow(b: BufferModel, min: u32, max_buffer_size: u64)
    ensures
        ({
            let (after, out) = growth(b, min, max_buffer_size);
            &&& min <= b.capacity ==> out == Ok::<bool, crate::gpu::dynamic_buffer::CapacityError>(false) && after == b
            &&& b.capacity < min && b.limit(max_buffer_size) < min ==> out is Err && after == b
            &&& out matches Err(e) ==> e.requested == min && e.max == b.limit(max_buffer_size)
            &&& b.capacity < min <= b.limit(max_buffer_size) ==> {
                &&& out == Ok::<bool, crate::gpu::dynamic_buffer::CapacityError>(true)
                &&& min <= after.capacity <= b.limit(max_buffer_size)
                &&& after.capacity < 2 * min
                &&& after.capacity == b.limit(max_buffer_size) || after.capacity == doubled(
                    greatest(b.capacity as nat, 1),
                    min as nat,
                )
                &&& after.epoch != b.epoch
                &&& b.epoch < u64::MAX ==> after.epoch == b.epoch + 1
                &&& after.stride == b.stride
                &&& after.max_capacity == b.max_capacity
            }
        }),
{
    let c = greatest(b.capacity as nat, 1);
    lemma_doubled(c, min as nat);
    lemma_doubled_is_first(c, min as nat);
}

/// Each reallocation starts the next epoch, so that no two in a row share one.
pub proof fn lemma_epochs_advance(epoch: u64)
    ensures
        next_epoch(epoch) != epoch,
        epoch < u64::MAX ==> next_epoch(epoch) == epoch + 1,
        epoch == u64::MAX ==> next_epoch(epoch) == 0,
{
}

/// Marking a row stores its bytes and marks it. Every other row that there was keeps its
/// bytes and its mark; rows in between are zero and not marked.
pub proof fn lemma_marked_row(t: TrackedModel, row: u32, data: Seq<u8>)
    requires
        t.well_formed(),
        row < u32::MAX,
    ensures
        ({
            let after = t.marked(row, data);
            &&& row < after.shadow.len()
            &&& after.shadow.len() == after.dirty.len()
            &&& t.shadow.len() <= after.shadow.len()
            &&& row < t.shadow.len() ==> after.shadow.len() == t.shadow.len()
            &&& after.shadow[row as int] == data
            &&& after.dirty[row as int]
            &&& forall|i: int|
                0 <= i < t.shadow.len() && i != row ==> (#[trigger] after.shadow[i]) == t.shadow[i] && after.dirty[i]
                    == t.dirty[i]
            &&& forall|i: int|
                t.shadow.len() <= i < after.shadow.len() && i != row ==> (#[trigger] after.shadow[i]) == zero_row(
                    t.buffer.stride as nat,
                ) && !after.dirty[i]
            &&& after.buffer == t.buffer
            &&& after.policy == t.policy
        }),
{
    lemma_doubled(greatest(t.shadow.len(), 1), (row + 1) as nat);
}

/// A flush writes no row that is not marked, where the buffer need not grow: whatever
/// the device holds there stays. It moves the bytes of the marked rows once, and
/// nothing where no row is marked.
pub proof fn lemma_flush_spares_clean_rows(t: TrackedModel, max_buffer_size: u64, mem: Seq<Seq<u8>>, i: int)
    requires
        t.well_formed(),
        t.shadow.len() <= t.buffer.capacity,
        mem.len() == t.buffer.capacity,
        0 <= i < mem.len(),
        i < t.shadow.len() ==> !t.dirty[i],
    ensures
        run(mem, t.flush_commands(max_buffer_size), t.buffer.stride as nat).len() == mem.len(),
        run(mem, t.flush_commands(max_buffer_size), t.buffer.stride as nat)[i] == mem[i],
        (forall|k: int| 0 <= k < t.dirty.len() ==> !#[trigger] t.dirty[k]) ==> t.flush_commands(max_buffer_size).len()
            == 0,
        t.flushed(max_buffer_size).shadow == t.shadow,
        t.flushed(max_buffer_size).buffer == t.buffer,
        forall|k: int| 0 <= k < t.shadow.len() ==> !#[trigger] t.flushed(max_buffer_size).dirty[k],
{
    let rows = marked_rows(t.dirty);
    lemma_marked_rows(t.dirty);
    let values = t.values(rows);
    assert forall|k: int| 0 <= k < rows.len() implies (#[trigger] rows[k]) < mem.len() by {
        assert(rows.contains(rows[k]));
    }
    lemma_uploads(mem, rows, values, t.buffer.stride as nat);
    assert(!rows.contains(i as u32));
    if forall|k: int| 0 <= k < t.dirty.len() ==> !#[trigger] t.dirty[k] {
        if rows.len() > 0 {
            assert(rows.contains(rows[0]));
        }
    }
}

/// Reserving and shrinking keep the bytes of every row that stays.
pub proof fn lemma_rows_outlive_resizing(t: TrackedModel, capacity: u32, max_buffer_size: u64, i: int)
    requires
        t.well_formed(),
        0 <= i < t.shadow.len(),
    ensures
        i < t.reserved(capacity, max_buffer_size).shadow.len(),
        t.reserved(capacity, max_buffer_size).shadow[i] == t.shadow[i],
        t.dirty[i] ==> t.reserved(capacity, max_buffer_size).dirty[i],
        capacity <= t.reserved(capacity, max_buffer_size).shadow.len(),
        i < capacity <= t.shadow.len() ==> {
            &&& t.shrunk(capacity).shadow.len() == capacity
            &&& t.shrunk(capacity).shadow[i] == t.shadow[i]
            &&& t.dirty[i] ==> t.shrunk(capacity).dirty[i]
        },
        capacity < t.buffer.capacity ==> t.shrunk(capacity).buffer.capacity == capacity,
{
}

/// After a reallocation that does not copy, every row is marked; after one that copies,
/// just those that were, and the rows up to the smaller size are kept.
pub proof fn lemma_reallocation_policy(t: TrackedModel, buffer: BufferModel, rows: u32, i: int)
    requires
        t.well_formed(),
        0 <= i < t.shadow.len(),
    ensures
        t.policy == DirtyTrackedReallocationPolicy::RewriteFromCpuShadow ==> t.rebased(buffer).dirty[i] && t.kept(rows)
            == 0,
        t.policy != DirtyTrackedReallocationPolicy::RewriteFromCpuShadow ==> t.rebased(buffer).dirty[i] == t.dirty[i]
            && t.kept(rows) == rows,
        t.rebased(buffer).shadow == t.shadow,
        t.rebased(buffer).buffer == buffer,
{
}

/// A mask that is resized keeps the marks below the new length, and has no others.
pub proof fn lemma_resized_marks(marks: Seq<bool>, n: nat, i: int)
    requires
        0 <= i < n,
    ensures
        resized(marks, n).len() == n,
        resized(marks, n)[i] <==> i < marks.len() && marks[i],
        clean(n).len() == n,
        !clean(n)[i],
{
}

/// What counts of the handoffs of a row is the last one.
pub proof fn lemma_last_handoff_counts(pending: Seq<(u32, Seq<u8>)>, row: u32)
    ensures
        match latest(pending, row) {
            Some(bytes) => exists|i: int|
                0 <= i < pending.len() && #[trigger] pending[i] == (row, bytes) && forall|j: int|
                    i < j < pending.len() ==> (#[trigger] pending[j]).0 != row,
            None => forall|i: int| 0 <= i < pending.len() ==> (#[trigger] pending[i]).0 != row,
        },
    decreases pending.len(),
{
    if pending.len() > 0 {
        let n = pending.len() - 1;
        let init = pending.drop_last();
        assert(pending[n] == pending.last());
        if pending[n].0 != row {
            lemma_last_handoff_counts(init, row);
            match latest(init, row) {
                Some(bytes) => {
                    let i = choose|i: int|
                        0 <= i < init.len() && #[trigger] init[i] == (row, bytes) && forall|j: int|
                            i < j < init.len() ==> (#[trigger] init[j]).0 != row;
                    assert(pending[i] == (row, bytes));
                    assert forall|j: int| i < j < pending.len() implies (#[trigger] pending[j]).0 != row by {
                        if j < n {
                            assert(init[j] == pending[j]);
                        }
                    }
                },
                None => {
                    assert forall|i: int| 0 <= i < pending.len() implies (#[trigger] pending[i]).0 != row by {
                        if i < n {
                            assert(init[i] == pending[i]);
                        }
                    }
                },
            }
        } else {
            assert(pending[n] == (row, pending[n].1));
        }
    }
}

/// A run at the front of ascending rows goes on as long as each row follows the one
/// before, and no longer.
pub proof fn lemma_run_is_longest(rows: Seq<u32>)
    requires
        rows.len() > 0,
    ensures
        1 <= run_len(rows) <= rows.len(),
        forall|i: int| 0 <= i < run_len(rows) ==> #[trigger] rows[i] == rows[0] + i,
        run_len(rows) < rows.len() ==> rows[run_len(rows) as int] != rows[0] + run_len(rows),
    decreases rows.len(),
{
    if rows.len() > 1 && rows[1] == rows[0] + 1 {
        let rest = rows.skip(1);
        lemma_run_is_longest(rest);
        let n = run_len(rows) as int;
        assert forall|i: int| 0 <= i < n implies #[trigger] rows[i] == rows[0] + i by {
            if i > 0 {
                assert(rest[i - 1] == rows[i]);
            }
        }
        if n < rows.len() {
            assert(rest[n - 1] == rows[n]);
        }
    }
}

/// Rows are written in as few ranges as there are runs of rows without a gap: between
/// the end of a write and the next one there is a row that is not written.
pub proof fn lemma_writes_have_gaps(rows: Seq<u32>, values: Seq<Seq<u8>>)
    requires
        rows_ascend(rows),
        rows.len() == values.len(),
    ensures
        rows.len() > 0 ==> direct_writes(rows, values).len() > 0 && (direct_writes(rows, values)[0] matches CommandModel::Write {
            row,
            data,
        } && row == rows[0]),
        forall|k: int| 0 <= k < direct_writes(rows, values).len() ==> #[trigger] direct_writes(rows, values)[k] is Write,
        forall|k: int|
            0 <= k < direct_writes(rows, values).len() - 1 ==> {
                let here = #[trigger] direct_writes(rows, values)[k];
                let next = direct_writes(rows, values)[k + 1];
                here->Write_row + here->Write_data.len() < next->Write_row
            },
    decreases rows.len(),
{
    if rows.len() > 0 {
        lemma_run_is_longest(rows);
        let n = run_len(rows) as int;
        let rest = rows.skip(n);
        let tail = values.skip(n);
        let all = direct_writes(rows, values);
        let after = direct_writes(rest, tail);
        assert forall|i: int, j: int| 0 <= i < j < rest.len() implies #[trigger] rest[i] < #[trigger] rest[j] by {
            assert(rows[n + i] < rows[n + j]);
        }
        lemma_writes_have_gaps(rest, tail);
        assert(all[0] == (CommandModel::Write { row: rows[0], data: values.take(n) }));
        assert forall|k: int| 0 <= k < all.len() implies #[trigger] all[k] is Write by {
            if k > 0 {
                assert(all[k] == after[k - 1]);
            }
        }
        assert forall|k: int| 0 <= k < all.len() - 1 implies {
            let here = #[trigger] all[k];
            let next = all[k + 1];
            here->Write_row + here->Write_data.len() < next->Write_row
        } by {
            assert(all[k + 1] == after[k]);
            if k > 0 {
                assert(all[k] == after[k - 1]);
                let here = after[k - 1];
            } else {
                assert(rest.len() > 0);
                assert(rest[0] == rows[n]);
                assert(rows[n] > rows[n - 1]);
                assert(rows[n - 1] == rows[0] + (n - 1));
            }
        }
    }
}

/// A few runs are written range by range, and many are scattered in one command, with
/// every row and its value. What was moved is counted accordingly.
pub proof fn lemma_when_uploads_scatter(rows: Seq<u32>, values: Seq<Seq<u8>>, stride: u32)
    ensures
        rows.len() == 0 ==> uploads(rows, values).len() == 0,
        rows.len() > 0 && direct_writes(rows, values).len() <= SCATTER_RUN_THRESHOLD ==> uploads(rows, values)
            == direct_writes(rows, values),
        rows.len() > 0 && direct_writes(rows, values).len() > SCATTER_RUN_THRESHOLD ==> uploads(rows, values) == seq![
            CommandModel::Scatter { rows, data: values },
        ],
        rows.len() * stride <= u64::MAX ==> upload_stats(rows, values, stride).bytes == rows.len() * stride,
        uploads(rows, values).len() <= 4,
        upload_stats(rows, values, stride).ranges == uploads(rows, values).len(),
{
}

} // verus!
