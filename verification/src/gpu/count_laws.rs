//! That what a phase of a frame says it did is what it did.

use vstd::prelude::*;
use crate::cell::CellModel;
use crate::component::ComponentId;
use crate::gpu::buffer_laws::lemma_run_is_longest;
use crate::gpu::cell_state::{column_commands, column_rows, column_stats, slot_commands, slot_stats, stale_rows, CellStateModel};
use crate::gpu::cell_store::frame::{
    cell_retired, cell_stats, cell_synced, columns_stats, columns_synced, retired_count, slots_stats, slots_synced, SlotModel,
};
use crate::gpu::cell_store::{CellId, FixedModel, StoreModel};
use crate::gpu::device::{CommandModel, SyncStats};
use crate::gpu::frame_laws::{lemma_ready_front, lemma_retired_cell};
use crate::gpu::upload::{direct_writes, run_len, uploads};

verus! {

/// How many rows one command writes.
pub open spec fn rows_in_one(command: CommandModel) -> nat {
    match command {
        CommandModel::Reallocate { .. } => 0,
        CommandModel::Write { row, data } => data.len(),
        CommandModel::Scatter { rows, data } => rows.len(),
    }
}

/// How many rows a list of commands writes.
pub open spec fn rows_in(commands: Seq<CommandModel>) -> nat
    decreases commands.len(),
{
    if commands.len() == 0 {
        0
    } else {
        rows_in_one(commands[0]) + rows_in(commands.skip(1))
    }
}

/// Direct writes write as many rows as they are given, each once.
pub proof fn lemma_rows_written(rows: Seq<u32>, values: Seq<Seq<u8>>)
    requires
        rows.len() == values.len(),
    ensures
        rows_in(direct_writes(rows, values)) == rows.len(),
        rows_in(uploads(rows, values)) == rows.len(),
    decreases rows.len(),
{
    if rows.len() > 0 {
        lemma_run_is_longest(rows);
        let k = run_len(rows) as int;
        let all = direct_writes(rows, values);
        let rest = direct_writes(rows.skip(k), values.skip(k));
        lemma_rows_written(rows.skip(k), values.skip(k));
        assert(all.skip(1) =~= rest);
        let scattered = seq![CommandModel::Scatter { rows, data: values }];
        assert(scattered.skip(1) =~= Seq::empty());
        assert(rows_in(scattered.skip(1)) == 0);
        assert(rows_in(scattered) == rows.len());
    }
}

/// The upload of a column counts the commands and the bytes of the rows in them.
pub proof fn lemma_column_upload_is_counted(st: CellStateModel, k: int, cell: CellModel, stride: u32)
    ensures
        column_commands(st, k, cell).len() <= u32::MAX ==> column_stats(st, k, cell, stride).ranges == column_commands(
            st,
            k,
            cell,
        ).len(),
        rows_in(column_commands(st, k, cell)) * stride <= u64::MAX ==> column_stats(st, k, cell, stride).bytes
            == rows_in(column_commands(st, k, cell)) * stride,
{
    let rows = column_rows(st.columns[k], cell);
    let values = rows.map_values(|r: u32| cell.columns[st.columns[k].source as int].rows[r as int]);
    lemma_rows_written(crate::gpu::cell_state::shifted(rows, st.row_base), values);
}

/// The upload of the slot mirror counts the commands and four bytes for each row in them.
pub proof fn lemma_slot_upload_is_counted(st: CellStateModel, slots: Seq<u32>)
    ensures
        slot_commands(st, slots).len() <= u32::MAX ==> slot_stats(st, slots).ranges == slot_commands(st, slots).len(),
        rows_in(slot_commands(st, slots)) * 4 <= u64::MAX ==> slot_stats(st, slots).bytes == rows_in(
            slot_commands(st, slots),
        ) * 4,
{
    let rows = stale_rows(st.slot_shadow, slots, slots.len() as int);
    lemma_rows_written(
        crate::gpu::cell_state::shifted(rows, st.row_base),
        crate::gpu::cell_state::slot_words(st.slot_base, slots, rows),
    );
}

/// Each column of a cell that is uploaded adds its own commands to the count, and to the
/// list of its device column.
pub proof fn lemma_columns_are_counted(fixed: Map<ComponentId, FixedModel>, st: CellStateModel, cell: CellModel, n: int)
    requires
        0 <= n < st.columns.len(),
    ensures
        ({
            let buffer = st.columns[n].buffer;
            let added = columns_synced(fixed, st, cell, n + 1)[buffer].commands.len() - columns_synced(
                fixed,
                st,
                cell,
                n,
            )[buffer].commands.len();
            added <= u32::MAX ==> columns_stats(fixed, st, cell, n + 1).ranges == (columns_stats(
                fixed,
                st,
                cell,
                n,
            ).ranges + added) % 0x1_0000_0000
        }),
        columns_stats(fixed, st, cell, 0) == (SyncStats { ranges: 0, bytes: 0 }),
{
}

/// A cell counts the commands for its columns and those for its slots.
pub proof fn lemma_cell_is_counted(m: StoreModel, id: CellId, cell: CellModel)
    ensures
        ({
            let st = m.state(id);
            let columns = columns_stats(m.fixed, st, cell, st.columns.len() as int);
            let slots = cell_synced(m, id, cell).slot_mirror.len() - m.slot_mirror.len();
            slots <= u32::MAX ==> cell_stats(m, id, cell).ranges == (columns.ranges + slots) % 0x1_0000_0000
        }),
        ({
            let st = m.state(id);
            let columns = columns_stats(m.fixed, st, cell, st.columns.len() as int);
            let rows = rows_in(slot_commands(st, cell.slots));
            rows * 4 <= u64::MAX ==> cell_stats(m, id, cell).bytes == (columns.bytes + rows * 4)
                % 0x1_0000_0000_0000_0000
        }),
{
    lemma_slot_upload_is_counted(m.state(id), cell.slots);
}

proof fn lemma_same_strides(
    a: Map<ComponentId, FixedModel>,
    b: Map<ComponentId, FixedModel>,
    st: CellStateModel,
    cell: CellModel,
    n: int,
)
    requires
        forall|c: ComponentId| (#[trigger] a[c]).stride == b[c].stride,
    ensures
        columns_stats(a, st, cell, n) == columns_stats(b, st, cell, n),
    decreases n,
{
    if n > 0 {
        lemma_same_strides(a, b, st, cell, n - 1);
        assert(a[st.columns[n - 1].buffer].stride == b[st.columns[n - 1].buffer].stride);
    }
}

proof fn lemma_synced_strides(fixed: Map<ComponentId, FixedModel>, st: CellStateModel, cell: CellModel, n: int)
    ensures
        forall|c: ComponentId| (#[trigger] columns_synced(fixed, st, cell, n)[c]).stride == fixed[c].stride,
    decreases n,
{
    if n > 0 {
        lemma_synced_strides(fixed, st, cell, n - 1);
        let before = columns_synced(fixed, st, cell, n - 1);
        let buffer = st.columns[n - 1].buffer;
        assert forall|c: ComponentId| (#[trigger] columns_synced(fixed, st, cell, n)[c]).stride == fixed[c].stride by {
            assert(before[c].stride == fixed[c].stride);
            assert(before[buffer].stride == fixed[buffer].stride);
        }
    }
}

proof fn lemma_others_untouched(m: StoreModel, slots: Seq<SlotModel>, n: int, k: int)
    requires
        0 <= n <= k < slots.len(),
        forall|i: int| 0 <= i < slots.len() ==> m.resident((#[trigger] slots[i]).id),
        forall|i: int, j: int| 0 <= i < j < slots.len() ==> (#[trigger] slots[i]).id != (#[trigger] slots[j]).id,
    ensures
        slots_synced(m, slots, n).cells.len() == m.cells.len(),
        slots_synced(m, slots, n).state(slots[k].id) == m.state(slots[k].id),
        forall|c: ComponentId| (#[trigger] slots_synced(m, slots, n).fixed[c]).stride == m.fixed[c].stride,
    decreases n,
{
    if n > 0 {
        lemma_others_untouched(m, slots, n - 1, k);
        let before = slots_synced(m, slots, n - 1);
        let s = slots[n - 1];
        assert(slots[n - 1].id != slots[k].id);
        assert(m.resident(s.id));
        assert(m.resident(slots[k].id));
        lemma_synced_strides(before.fixed, before.state(s.id), s.cell, before.state(s.id).columns.len() as int);
        let out = slots_synced(m, slots, n);
        assert forall|c: ComponentId| (#[trigger] out.fixed[c]).stride == m.fixed[c].stride by {
            assert(before.fixed[c].stride == m.fixed[c].stride);
        }
    }
}

/// Every cell counts for itself: what one moves does not depend on those before it.
pub proof fn lemma_cells_are_counted(m: StoreModel, slots: Seq<SlotModel>, n: int)
    requires
        0 <= n < slots.len(),
        forall|i: int| 0 <= i < slots.len() ==> m.resident((#[trigger] slots[i]).id),
        forall|i: int, j: int| 0 <= i < j < slots.len() ==> (#[trigger] slots[i]).id != (#[trigger] slots[j]).id,
    ensures
        slots_stats(m, slots, n + 1) == SyncStats::sum(
            slots_stats(m, slots, n),
            cell_stats(m, slots[n].id, slots[n].cell),
        ),
        slots_stats(m, slots, 0) == (SyncStats { ranges: 0, bytes: 0 }),
{
    lemma_others_untouched(m, slots, n, n);
    let st = m.state(slots[n].id);
    let before = slots_synced(m, slots, n);
    lemma_same_strides(before.fixed, m.fixed, st, slots[n].cell, st.columns.len() as int);
}

/// The number of retirements is that of the entries that left the queues.
pub proof fn lemma_retirements_are_counted(m: StoreModel, slots: Seq<SlotModel>, done: u64, n: int)
    requires
        0 <= n < slots.len(),
        m.pairs(slots[n].id, slots[n].cell),
        slots[n].cell.pinned.len() == slots[n].cell.rows(),
    ensures
        ({
            let id = slots[n].id;
            retired_count(m, slots, done, n + 1) - retired_count(m, slots, done, n) == m.state(id).pending.len()
                - cell_retired(m, id, slots[n].cell, done).0.state(id).pending.len()
        }),
        retired_count(m, slots, done, 0) == 0,
{
    let id = slots[n].id;
    let pending = m.state(id).pending;
    lemma_ready_front(pending, done);
    let k = crate::gpu::cell_store::frame::ready_count(pending, done) as int;
    lemma_retired_cell(m, id, slots[n].cell, done, k);
}

} // verus!
