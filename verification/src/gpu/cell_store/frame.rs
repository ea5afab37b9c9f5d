//! Writes to resident cells, and the frame boundary.

use vstd::prelude::*;
use crate::cell::{compacted, lemma_compacted, CellModel, CellStorage, Handle, NO_ROW};
use crate::component::ComponentId;
use crate::gpu::cell_state::{column_commands, column_stats, slot_commands, slot_stats, CellStateModel, MirroredModel, QueuedRetire};
use crate::gpu::cell_store::{awaits, CellId, CellSlot, CellStore, FixedModel, Phase, StoreModel};
use crate::gpu::device::{word_row, CommandQueue, SyncStats};

verus! {

/// The same regions and the same columns.
pub open spec fn same_place(a: CellStateModel, b: CellStateModel) -> bool {
    &&& a.class == b.class
    &&& a.row_region == b.row_region
    &&& a.slot_region == b.slot_region
    &&& a.row_base == b.row_base
    &&& a.slot_base == b.slot_base
    &&& a.row_capacity() == b.row_capacity()
    &&& a.slot_capacity() == b.slot_capacity()
    &&& a.columns.len() == b.columns.len()
    &&& forall|k: int|
        0 <= k < a.columns.len() ==> (#[trigger] a.columns[k]).buffer == b.columns[k].buffer
            && a.columns[k].source == b.columns[k].source
}

/// A state that stays in its place keeps the store well-formed.
pub proof fn lemma_with_state(m: StoreModel, id: CellId, st: CellStateModel)
    requires
        m.well_formed(),
        m.resident(id),
        st.well_formed(),
        same_place(m.state(id), st),
    ensures
        m.with_state(id, st).well_formed(),
        m.with_state(id, st).resident(id),
        m.with_state(id, st).state(id) == st,
{
    let after = m.with_state(id, st);
    let x = id.0 as int;
    assert forall|i: int| 0 <= i < after.cells.len() implies #[trigger] after.cell_ok(i) by {
        assert(m.cell_ok(i));
        if i == x {
            assert forall|k: int| 0 <= k < st.columns.len() implies after.fixed.contains_key(
                (#[trigger] st.columns[k]).buffer,
            ) by {
                assert(m.state(id).columns[k].buffer == st.columns[k].buffer);
            }
        }
    }
    assert forall|i: int, j: int| 0 <= i < j < after.cells.len() implies #[trigger] after.cells_differ(i, j) by {
        assert(m.cells_differ(i, j));
    }
}

/// A store that differs only in commands, phase and counts.
pub open spec fn same_cells(a: StoreModel, b: StoreModel) -> bool {
    &&& a.cells == b.cells
    &&& a.row_pools == b.row_pools
    &&& a.slot_pools == b.slot_pools
    &&& a.fixed.dom() == b.fixed.dom()
}

/// Commands, phase and counts do not matter to the invariant.
pub proof fn lemma_same_cells(a: StoreModel, b: StoreModel)
    requires
        a.well_formed(),
        same_cells(a, b),
    ensures
        b.well_formed(),
{
    assert forall|i: int| 0 <= i < b.cells.len() implies #[trigger] b.cell_ok(i) by {
        assert(a.cell_ok(i));
        if b.cells[i] is Some {
            let st = b.cells[i].unwrap();
            assert forall|k: int| 0 <= k < st.columns.len() implies b.fixed.contains_key(
                (#[trigger] st.columns[k]).buffer,
            ) by {
                assert(a.fixed.contains_key(st.columns[k].buffer));
                assert(a.fixed.dom().contains(st.columns[k].buffer));
            }
        }
    }
    assert forall|i: int, j: int| 0 <= i < j < b.cells.len() implies #[trigger] b.cells_differ(i, j) by {
        assert(a.cells_differ(i, j));
    }
}

/// All other cells and everything about the regions and columns is as it was.
pub open spec fn only_differs(a: StoreModel, b: StoreModel, id: CellId) -> bool {
    &&& a.cells.len() == b.cells.len()
    &&& forall|j: int| 0 <= j < a.cells.len() && j != id.0 ==> #[trigger] b.cells[j] == a.cells[j]
    &&& a.row_pools == b.row_pools
    &&& a.slot_pools == b.slot_pools
    &&& a.fixed.dom() == b.fixed.dom()
    &&& a.phase == b.phase
}

/// Stamping a generation keeps the store well-formed, and touches only the
/// cell's own state.
pub proof fn lemma_stamped(m: StoreModel, id: CellId, slot: u32, generation: u32)
    requires
        m.well_formed(),
        m.resident(id),
        slot < m.state(id).slot_capacity(),
    ensures
        m.stamped(id, slot, generation).well_formed(),
        m.stamped(id, slot, generation).resident(id),
        m.stamped(id, slot, generation).state(id) == m.state(id).generation_uploaded(slot, generation),
{
    let st = m.state(id).generation_uploaded(slot, generation);
    assert(m.cell_ok(id.0 as int));
    lemma_with_state(m, id, st);
    lemma_same_cells(m.with_state(id, st), m.stamped(id, slot, generation));
}

/// The mirrored column that reads the cell's column `c`, from `k` on.
pub open spec fn mirrored_index(columns: Seq<MirroredModel>, c: int, k: int) -> Option<int>
    decreases columns.len() - k,
{
    if k < 0 || k >= columns.len() {
        None
    } else if columns[k].source == c {
        Some(k)
    } else {
        mirrored_index(columns, c, k + 1)
    }
}

/// The state after a row of the cell's column `c` changed.
pub open spec fn source_marked(st: CellStateModel, c: int, row: u32) -> CellStateModel {
    match mirrored_index(st.columns, c, 0) {
        Some(k) => st.column_marked(k, row),
        None => st,
    }
}

/// How many of the retirements, from the first on, have a serial number of at
/// most `done`.
pub open spec fn ready_count(pending: Seq<QueuedRetire>, done: u64) -> nat
    decreases pending.len(),
{
    if pending.len() == 0 || pending[0].serial > done {
        0
    } else {
        1 + ready_count(pending.skip(1), done)
    }
}

/// The store and the cell after the first `n` of `pending` were committed.
pub open spec fn committed(m: StoreModel, id: CellId, cell: CellModel, pending: Seq<QueuedRetire>, n: int) -> (
    StoreModel,
    CellModel,
)
    decreases n,
{
    if n <= 0 {
        (m, cell)
    } else {
        let before = committed(m, id, cell, pending, n - 1);
        let p = pending[n - 1].pending;
        (
            before.0.stamped(id, p.slot, p.next_gen),
            (CellModel { pinned: before.1.pinned.update(p.row as int, false), ..before.1 }).retired(
                p.slot,
                p.next_gen,
            ),
        )
    }
}

/// The cell after the first `n` of `pending` were committed to it.
pub open spec fn cell_committed(cell: CellModel, pending: Seq<QueuedRetire>, n: int) -> CellModel
    decreases n,
{
    if n <= 0 {
        cell
    } else {
        let before = cell_committed(cell, pending, n - 1);
        let p = pending[n - 1].pending;
        (CellModel { pinned: before.pinned.update(p.row as int, false), ..before }).retired(p.slot, p.next_gen)
    }
}

/// The store and the cell after the retirements that are complete were
/// committed.
pub open spec fn cell_retired(m: StoreModel, id: CellId, cell: CellModel, done: u64) -> (StoreModel, CellModel) {
    let st = m.state(id);
    let n = ready_count(st.pending, done) as int;
    let out = committed(m, id, cell, st.pending, n);
    (
        out.0.with_state(id, CellStateModel { pending: st.pending.skip(n), ..out.0.state(id) }),
        out.1,
    )
}

/// The store and the cell after the cell was compacted.
pub open spec fn cell_compacted(m: StoreModel, id: CellId, cell: CellModel) -> (StoreModel, CellModel) {
    (m.with_state(id, m.state(id).rows_marked(compacted(cell).1)), compacted(cell).0)
}

/// The device columns after the first `n` mirrored columns of a cell were
/// uploaded.
pub open spec fn columns_synced(fixed: Map<ComponentId, FixedModel>, st: CellStateModel, cell: CellModel, n: int) -> Map<
    ComponentId,
    FixedModel,
>
    decreases n,
{
    if n <= 0 {
        fixed
    } else {
        let before = columns_synced(fixed, st, cell, n - 1);
        let buffer = st.columns[n - 1].buffer;
        before.insert(
            buffer,
            FixedModel {
                commands: before[buffer].commands + column_commands(st, n - 1, cell),
                ..before[buffer]
            },
        )
    }
}

/// What that moved.
pub open spec fn columns_stats(fixed: Map<ComponentId, FixedModel>, st: CellStateModel, cell: CellModel, n: int) -> SyncStats
    decreases n,
{
    if n <= 0 {
        SyncStats { ranges: 0, bytes: 0 }
    } else {
        SyncStats::sum(
            columns_stats(fixed, st, cell, n - 1),
            column_stats(st, n - 1, cell, fixed[st.columns[n - 1].buffer].stride),
        )
    }
}

/// The store after a cell was uploaded: its changed rows, and the slots that
/// changed. A cell without a row in use keeps its marks.
pub open spec fn cell_synced(m: StoreModel, id: CellId, cell: CellModel) -> StoreModel {
    let st = m.state(id);
    StoreModel {
        fixed: columns_synced(m.fixed, st, cell, st.columns.len() as int),
        slot_mirror: m.slot_mirror + slot_commands(st, cell.slots),
        ..m.with_state(id, st.synced(cell))
    }
}

/// What that moved.
pub open spec fn cell_stats(m: StoreModel, id: CellId, cell: CellModel) -> SyncStats {
    let st = m.state(id);
    SyncStats::sum(
        columns_stats(m.fixed, st, cell, st.columns.len() as int),
        slot_stats(st, cell.slots),
    )
}

/// The name and the value of a cell.
pub struct SlotModel {
    pub id: CellId,
    pub cell: CellModel,
}

/// The contents of a list of cells.
pub open spec fn slot_models(v: Seq<CellSlot>) -> Seq<SlotModel> {
    v.map_values(|s: CellSlot| SlotModel { id: s.id, cell: s.cell@ })
}

/// Every cell is resident under its name, and no name occurs twice.
pub open spec fn all_pair(m: StoreModel, slots: Seq<SlotModel>) -> bool {
    &&& forall|k: int|
        0 <= k < slots.len() ==> m.pairs((#[trigger] slots[k]).id, slots[k].cell) && slots[k].cell.well_formed()
    &&& forall|i: int, j: int|
        0 <= i < j < slots.len() ==> (#[trigger] slots[i]).id != (#[trigger] slots[j]).id
}

/// The store and the cells after the first `n` cells had their retirements
/// committed.
pub open spec fn slots_retired(m: StoreModel, slots: Seq<SlotModel>, done: u64, n: int) -> (
    StoreModel,
    Seq<SlotModel>,
)
    decreases n,
{
    if n <= 0 {
        (m, slots)
    } else {
        let before = slots_retired(m, slots, done, n - 1);
        let s = before.1[n - 1];
        let step = cell_retired(before.0, s.id, s.cell, done);
        (step.0, before.1.update(n - 1, SlotModel { id: s.id, cell: step.1 }))
    }
}

/// How many retirements that commits.
pub open spec fn retired_count(m: StoreModel, slots: Seq<SlotModel>, done: u64, n: int) -> nat
    decreases n,
{
    if n <= 0 {
        0
    } else {
        retired_count(m, slots, done, n - 1) + ready_count(m.state(slots[n - 1].id).pending, done)
    }
}

/// The store and the cells after the first `n` cells were compacted, as far as
/// their gates are open.
pub open spec fn slots_compacted(m: StoreModel, slots: Seq<SlotModel>, gates: Seq<bool>, n: int) -> (
    StoreModel,
    Seq<SlotModel>,
)
    decreases n,
{
    if n <= 0 {
        (m, slots)
    } else {
        let before = slots_compacted(m, slots, gates, n - 1);
        let s = before.1[n - 1];
        if gates[n - 1] {
            let step = cell_compacted(before.0, s.id, s.cell);
            (step.0, before.1.update(n - 1, SlotModel { id: s.id, cell: step.1 }))
        } else {
            before
        }
    }
}

/// The store after the first `n` cells were uploaded.
pub open spec fn slots_synced(m: StoreModel, slots: Seq<SlotModel>, n: int) -> StoreModel
    decreases n,
{
    if n <= 0 {
        m
    } else {
        cell_synced(slots_synced(m, slots, n - 1), slots[n - 1].id, slots[n - 1].cell)
    }
}

/// What that moved.
pub open spec fn slots_stats(m: StoreModel, slots: Seq<SlotModel>, n: int) -> SyncStats
    decreases n,
{
    if n <= 0 {
        SyncStats { ranges: 0, bytes: 0 }
    } else {
        SyncStats::sum(
            slots_stats(m, slots, n - 1),
            cell_stats(slots_synced(m, slots, n - 1), slots[n - 1].id, slots[n - 1].cell),
        )
    }
}

impl CellStore {
    /// Replaces nothing but the state of one cell: the rest of the store is
    /// seen through its view.
    proof fn lemma_cells_view(&self)
        ensures
            self@.cells.len() == self.cells@.len(),
            forall|i: int|
                0 <= i < self.cells@.len() ==> #[trigger] self@.cells[i] == (match self.cells@[i] {
                    Some(s) => Some(s@),
                    None => None,
                }),
    {
    }

    /// Uploads the generation of a slot, unless it is on the device already.
    fn write_generation(&mut self, id: CellId, local_slot: u32, generation: u32)
        requires
            old(self).well_formed(),
            old(self)@.resident(id),
            local_slot < old(self)@.state(id).slot_capacity(),
        ensures
            final(self).well_formed(),
            final(self)@ == old(self)@.stamped(id, local_slot, generation),
    {
        let ghost before = self@;
        let ghost listed = self.cells@;
        let at: usize = id.0 as usize;
        proof {
            self.lemma_cells_view();
            assert(before.cell_ok(at as int));
        }
        let mut queued: bool = false;
        if let Some(st) = &mut self.cells[at] {
            queued = st.upload_generation(local_slot, generation, &mut self.generations);
        }
        if queued {
            self.gen_writes = self.gen_writes.wrapping_add(1);
        }
        proof {
            let after = before.stamped(id, local_slot, generation);
            assert(self@.cells =~= after.cells);
            assert(self@ == after);
            lemma_stamped(before, id, local_slot, generation);
        }
    }

    /// How many generations were uploaded one by one, wrapping around.
    pub fn generation_write_count(&self) -> (n: u64)
        ensures
            n == self@.gen_writes,
    {
        self.gen_writes
    }

    /// The first row of a resident cell in every mirrored column.
    pub fn row_region_base(&self, id: CellId) -> (row: u32)
        requires
            self@.resident(id),
        ensures
            row == self@.state(id).row_base,
    {
        proof {
            self.lemma_cells_view();
        }
        match &self.cells[id.0 as usize] {
            Some(st) => st.row_base,
            None => 0,
        }
    }

    /// Whether a name stands for a resident cell.
    pub fn is_resident(&self, id: CellId) -> (yes: bool)
        ensures
            yes == self@.resident(id),
    {
        proof {
            self.lemma_cells_view();
        }
        (id.0 as usize) < self.cells.len() && self.cells[id.0 as usize].is_some()
    }
}

proof fn lemma_mirrored_index(columns: Seq<MirroredModel>, c: int, k: int)
    requires
        0 <= k <= columns.len(),
    ensures
        mirrored_index(columns, c, k) matches Some(i) ==> k <= i < columns.len() && columns[i].source == c,
    decreases columns.len() - k,
{
    if k < columns.len() && columns[k].source != c {
        lemma_mirrored_index(columns, c, k + 1);
    }
}

/// A store and a cell stay paired when the rows in use, the slots and the
/// number of columns stay as they are.
proof fn lemma_still_pairs(m: StoreModel, id: CellId, st: CellStateModel, cell: CellModel, next: CellModel)
    requires
        m.well_formed(),
        m.pairs(id, cell),
        st.well_formed(),
        same_place(m.state(id), st),
        st.pending == m.state(id).pending,
        next.slots.len() == cell.slots.len(),
        next.pinned == cell.pinned,
        next.generations == cell.generations,
        next.slot_rows == cell.slot_rows,
        next.free_slots == cell.free_slots,
        next.columns.len() == cell.columns.len(),
    ensures
        m.with_state(id, st).pairs(id, next),
{
    lemma_with_state(m, id, st);
    assert forall|k: int| 0 <= k < st.columns.len() implies (#[trigger] st.columns[k]).source < next.columns.len() by {
        assert(m.state(id).columns[k].source == st.columns[k].source);
    }
    assert forall|i: int| 0 <= i < st.pending.len() implies {
        let p = (#[trigger] st.pending[i]).pending;
        &&& p.row < next.rows()
        &&& next.pinned[p.row as int]
        &&& p.slot < next.generations.len()
        &&& next.slot_rows[p.slot as int] == NO_ROW
        &&& !next.free_slots.contains(p.slot)
    } by {
        assert(m.state(id).pending[i] == st.pending[i]);
    }
}

impl CellStore {
    /// Marks the row of the mirrored column that reads the cell's column `c`,
    /// if there is one.
    fn mark_source(&mut self, id: CellId, c: usize, row: u32)
        requires
            old(self).well_formed(),
            old(self)@.resident(id),
            row < old(self)@.state(id).row_capacity(),
        ensures
            final(self).well_formed(),
            final(self)@ == old(self)@.with_state(id, source_marked(old(self)@.state(id), c as int, row)),
            source_marked(old(self)@.state(id), c as int, row).well_formed(),
            same_place(old(self)@.state(id), source_marked(old(self)@.state(id), c as int, row)),
    {
        let ghost before = self@;
        let ghost state = before.state(id);
        let at: usize = id.0 as usize;
        proof {
            self.lemma_cells_view();
            assert(before.cell_ok(at as int));
        }
        if let Some(st) = &mut self.cells[at] {
            let n: usize = st.columns.len();
            let mut k: usize = 0;
            while k < n && st.columns[k].source != c
                invariant
                    k <= n,
                    n == st.columns@.len(),
                    st@ == state,
                    mirrored_index(state.columns, c as int, 0) == mirrored_index(
                        state.columns,
                        c as int,
                        k as int,
                    ),
                decreases n - k,
            {
                proof {
                    assert(state.columns[k as int] == st.columns@[k as int]@);
                }
                k = k + 1;
            }
            if k < n {
                proof {
                    assert(state.columns[k as int] == st.columns@[k as int]@);
                }
                st.mark_column(k, row);
            }
        }
        proof {
            let next = source_marked(state, c as int, row);
            lemma_mirrored_index(state.columns, c as int, 0);
            assert(self@.cells =~= before.with_state(id, next).cells);
            assert(self@ == before.with_state(id, next));
            assert(next.well_formed()) by {
                if mirrored_index(state.columns, c as int, 0) is Some {
                    let k = mirrored_index(state.columns, c as int, 0).unwrap();
                    assert forall|i: int| 0 <= i < next.columns.len() implies (#[trigger] next.columns[i]).mask.len()
                        == next.row_capacity() by {
                        assert(state.columns[i].mask.len() == state.row_capacity());
                    }
                }
            }
            lemma_with_state(before, id, next);
        }
    }

    /// Writes the row of a handle in one column of a resident cell, and marks
    /// it for upload. Returns whether the handle was not stale and its row not
    /// pinned.
    pub fn write_column(&mut self, id: CellId, cell: &mut CellStorage, handle: Handle, column: usize, bytes: &[u8]) -> (written:
        bool)
        requires
            old(self).well_formed(),
            old(cell).well_formed(),
            old(self)@.phase == Phase::Write,
            old(self)@.pairs(id, old(cell)@),
            column < old(cell)@.columns.len(),
            bytes@.len() == old(cell)@.columns[column as int].stride,
        ensures
            final(self).well_formed(),
            final(cell).well_formed(),
            match old(cell)@.row_of(handle) {
                Some(row) => {
                    &&& written
                    &&& final(cell)@ == old(cell)@.written(column as int, row as int, bytes@)
                    &&& final(self)@ == old(self)@.with_state(
                        id,
                        source_marked(old(self)@.state(id), column as int, row),
                    )
                },
                None => !written && final(cell)@ == old(cell)@ && final(self)@ == old(self)@,
            },
            final(self)@.pairs(id, final(cell)@),
    {
        let ghost before = self@;
        let ghost cell0 = cell@;
        let row: u32 = match cell.row_of(handle) {
            Some(r) => r,
            None => {
                return false;
            },
        };
        proof {
            assert(cell0.row_ok(row as int));
        }
        if cell.is_row_pinned(row) {
            return false;
        }
        cell.write_row(column, row, bytes);
        self.mark_source(id, column, row);
        proof {
            lemma_still_pairs(
                before,
                id,
                source_marked(before.state(id), column as int, row),
                cell0,
                cell@,
            );
        }
        true
    }

    /// Uploads the generation of a live handle, unless it is on the device.
    pub fn stamp(&mut self, id: CellId, cell: &CellStorage, handle: Handle)
        requires
            old(self).well_formed(),
            cell.well_formed(),
            old(self)@.pairs(id, cell@),
            cell@.row_of(handle) is Some,
        ensures
            final(self).well_formed(),
            final(self)@ == old(self)@.stamped(id, handle.slot, handle.generation),
            final(self)@.pairs(id, cell@),
    {
        let ghost before = self@;
        self.write_generation(id, handle.slot, handle.generation);
        proof {
            lemma_stamped(before, id, handle.slot, handle.generation);
            let st = self@.state(id);
            assert forall|k: int| 0 <= k < st.columns.len() implies (#[trigger] st.columns[k]).source
                < cell@.columns.len() by {
                assert(before.state(id).columns[k] == st.columns[k]);
            }
        }
    }

    /// Makes the row of a handle dead, and queues the retirement of its slot
    /// for when the work with the given serial number is complete. Returns
    /// whether the handle was not stale.
    pub fn free_deferred(&mut self, id: CellId, cell: &mut CellStorage, handle: Handle, serial: u64) -> (freed: bool)
        requires
            old(self).well_formed(),
            old(cell).well_formed(),
            old(self)@.phase == Phase::Write,
            old(self)@.pairs(id, old(cell)@),
            old(self)@.state(id).pending.len() > 0 ==> old(self)@.state(id).pending.last().serial <= serial,
        ensures
            final(self).well_formed(),
            final(cell).well_formed(),
            match old(cell)@.row_of(handle) {
                Some(row) => {
                    &&& freed
                    &&& final(cell)@ == old(cell)@.marked_dead(row as int, true)
                    &&& final(self)@ == old(self)@.with_state(
                        id,
                        CellStateModel {
                            pending: old(self)@.state(id).pending.push(
                                QueuedRetire {
                                    pending: crate::cell::PendingRetire {
                                        row,
                                        slot: handle.slot,
                                        next_gen: old(cell)@.next_generation(handle.slot as int),
                                    },
                                    serial,
                                },
                            ),
                            ..old(self)@.state(id)
                        },
                    )
                },
                None => !freed && final(cell)@ == old(cell)@ && final(self)@ == old(self)@,
            },
            final(self)@.pairs(id, final(cell)@),
    {
        let ghost before = self@;
        let ghost cell0 = cell@;
        let ghost state = before.state(id);
        let at: usize = id.0 as usize;
        proof {
            if handle.slot < cell0.generations.len() {
                assert(cell0.slot_ok(handle.slot as int));
            }
        }
        let pending = match cell.mark_pending_retire(handle) {
            Some(p) => p,
            None => {
                return false;
            },
        };
        proof {
            self.lemma_cells_view();
            assert(before.cell_ok(at as int));
            assert(cell0.row_ok(pending.row as int));
        }
        if let Some(st) = &mut self.cells[at] {
            st.pending.push(QueuedRetire { pending, serial });
        }
        proof {
            let entry = QueuedRetire { pending, serial };
            let next = CellStateModel { pending: state.pending.push(entry), ..state };
            assert(self@.cells =~= before.with_state(id, next).cells);
            assert(self@ == before.with_state(id, next));
            lemma_with_state(before, id, next);
            let now = cell@;
            assert forall|i: int| 0 <= i < next.pending.len() implies {
                let p = (#[trigger] next.pending[i]).pending;
                &&& p.row < now.rows()
                &&& now.pinned[p.row as int]
                &&& p.slot < now.generations.len()
                &&& now.slot_rows[p.slot as int] == NO_ROW
                &&& !now.free_slots.contains(p.slot)
            } by {
                if i < state.pending.len() {
                    assert(next.pending[i] == state.pending[i]);
                } else {
                    if cell0.free_slots.contains(handle.slot) {
                        let k = cell0.free_slots.index_of(handle.slot);
                        assert(cell0.free_slots[k] == handle.slot);
                    }
                }
            }
            assert forall|i: int, j: int| 0 <= i < j < next.pending.len() implies (
            #[trigger] next.pending[i]).pending.slot != (#[trigger] next.pending[j]).pending.slot
                && next.pending[i].pending.row != next.pending[j].pending.row by {
                assert(next.pending[i] == state.pending[i]);
                if j < state.pending.len() {
                    assert(next.pending[j] == state.pending[j]);
                }
            }
            assert forall|k: int| 0 <= k < next.columns.len() implies (#[trigger] next.columns[k]).source
                < now.columns.len() by {
                assert(state.columns[k].source < cell0.columns.len());
            }
        }
        true
    }
}

proof fn lemma_ready_count(pending: Seq<QueuedRetire>, done: u64)
    ensures
        ready_count(pending, done) <= pending.len(),
    decreases pending.len(),
{
    if pending.len() > 0 && pending[0].serial <= done {
        lemma_ready_count(pending.skip(1), done);
    }
}

/// Committing retirements keeps the store and the cell well-formed, and leaves
/// the later ones committable.
proof fn lemma_committed(m: StoreModel, id: CellId, cell: CellModel, pending: Seq<QueuedRetire>, n: int)
    requires
        m.well_formed(),
        cell.well_formed(),
        m.resident(id),
        m.state(id).fits(cell),
        awaits(pending, cell),
        0 <= n <= pending.len(),
    ensures
        ({
            let out = committed(m, id, cell, pending, n);
            &&& out.0.well_formed()
            &&& out.0.resident(id)
            &&& same_place(m.state(id), out.0.state(id))
            &&& out.0.state(id).columns == m.state(id).columns
            &&& out.0.state(id).slot_shadow == m.state(id).slot_shadow
            &&& out.0.state(id).pending == m.state(id).pending
            &&& out.1 == cell_committed(cell, pending, n)
            &&& out.1.slots == cell.slots
            &&& out.1.live == cell.live
            &&& out.1.columns == cell.columns
            &&& out.1.capacity == cell.capacity
            &&& out.1.slot_rows == cell.slot_rows
            &&& out.1.generations.len() == cell.generations.len()
            &&& out.1.pinned.len() == cell.pinned.len()
            &&& awaits(pending.skip(n), out.1)
            &&& only_differs(m, out.0, id)
        }),
    decreases n,
{
    assert(m.cell_ok(id.0 as int));
    if n == 0 {
        assert(pending.skip(0) =~= pending);
    } else {
        lemma_committed(m, id, cell, pending, n - 1);
        let before = committed(m, id, cell, pending, n - 1);
        let p = pending[n - 1].pending;
        assert(pending.skip(n - 1)[0] == pending[n - 1]);
        lemma_stamped(before.0, id, p.slot, p.next_gen);
        let out = committed(m, id, cell, pending, n);
        let rest = pending.skip(n);
        assert forall|i: int| 0 <= i < rest.len() implies {
            let q = (#[trigger] rest[i]).pending;
            &&& q.row < out.1.rows()
            &&& out.1.pinned[q.row as int]
            &&& q.slot < out.1.generations.len()
            &&& out.1.slot_rows[q.slot as int] == NO_ROW
            &&& !out.1.free_slots.contains(q.slot)
        } by {
            let q = rest[i].pending;
            assert(pending.skip(n - 1)[i + 1] == rest[i]);
            assert(pending[n - 1].pending.slot != pending[n + i].pending.slot);
            assert(pending[n + i] == rest[i]);
            if out.1.free_slots.contains(q.slot) {
                let k = out.1.free_slots.index_of(q.slot);
                if k < before.1.free_slots.len() {
                    assert(before.1.free_slots[k] == q.slot);
                    assert(before.1.free_slots.contains(q.slot));
                }
            }
        }
        assert forall|i: int, j: int| 0 <= i < j < rest.len() implies (#[trigger] rest[i]).pending.slot != (
        #[trigger] rest[j]).pending.slot && rest[i].pending.row != rest[j].pending.row by {
            assert(pending[n + i] == rest[i] && pending[n + j] == rest[j]);
        }
    }
}

impl CellStore {
    /// Commits the retirements of a cell that are complete. Returns how many.
    fn retire_cell(&mut self, id: CellId, cell: &mut CellStorage, done: u64) -> (count: usize)
        requires
            old(self).well_formed(),
            old(cell).well_formed(),
            old(self)@.pairs(id, old(cell)@),
        ensures
            final(self).well_formed(),
            final(cell).well_formed(),
            (final(self)@, final(cell)@) == cell_retired(old(self)@, id, old(cell)@, done),
            count == ready_count(old(self)@.state(id).pending, done),
            final(self)@.pairs(id, final(cell)@),
            only_differs(old(self)@, final(self)@, id),
    {
        let ghost m0 = self@;
        let ghost cell0 = cell@;
        let at: usize = id.0 as usize;
        let ghost pending = m0.state(id).pending;
        proof {
            self.lemma_cells_view();
            assert(pending.skip(0) =~= pending);
            lemma_committed(m0, id, cell0, pending, 0);
        }
        let mut n: usize = 0;
        let mut more: bool = true;
        while more
            invariant
                self.well_formed(),
                cell.well_formed(),
                at == id.0,
                m0.well_formed(),
                cell0.well_formed(),
                m0.pairs(id, cell0),
                pending == m0.state(id).pending,
                n <= pending.len(),
                (self@, cell@) == committed(m0, id, cell0, pending, n as int),
                more ==> ready_count(pending, done) == n + ready_count(pending.skip(n as int), done),
                !more ==> ready_count(pending, done) == n,
            decreases
                    pending.len() - n,
                    if more {
                        1int
                    } else {
                        0int
                    },
        {
            proof {
                lemma_committed(m0, id, cell0, pending, n as int);
                self.lemma_cells_view();
            }
            let mut next: Option<QueuedRetire> = None;
            if let Some(st) = &self.cells[at] {
                if n < st.pending.len() && st.pending[n].serial <= done {
                    next = Some(st.pending[n]);
                }
            }
            match next {
                Some(entry) => {
                    proof {
                        assert(entry == pending[n as int]);
                        assert(pending.skip(n as int)[0] == entry);
                        assert(pending.skip(n as int).skip(1) =~= pending.skip(n + 1));
                    }
                    self.write_generation(id, entry.pending.slot, entry.pending.next_gen);
                    cell.commit_retire(entry.pending);
                    n = n + 1;
                },
                None => {
                    proof {
                        if n < pending.len() {
                            assert(pending.skip(n as int)[0] == pending[n as int]);
                        }
                    }
                    more = false;
                },
            }
        }
        proof {
            lemma_committed(m0, id, cell0, pending, n as int);
            self.lemma_cells_view();
        }
        let ghost mid = self@;
        if let Some(st) = &mut self.cells[at] {
            let mut rest: Vec<QueuedRetire> = Vec::new();
            let mut i: usize = n;
            while i < st.pending.len()
                invariant
                    n <= i <= st.pending@.len(),
                    st.pending@ == pending,
                    rest@ == pending.subrange(n as int, i as int),
                    st@ == mid.state(id),
                decreases st.pending@.len() - i,
            {
                rest.push(st.pending[i]);
                i = i + 1;
                proof {
                    assert(rest@ =~= pending.subrange(n as int, i as int));
                }
            }
            st.pending = rest;
            proof {
                assert(rest@ =~= pending.skip(n as int));
            }
        }
        proof {
            let next = CellStateModel { pending: pending.skip(n as int), ..mid.state(id) };
            assert(self@.cells =~= mid.with_state(id, next).cells);
            assert(self@ == mid.with_state(id, next));
            assert(mid.cell_ok(at as int));
            lemma_with_state(mid, id, next);
            assert forall|k: int| 0 <= k < next.columns.len() implies (#[trigger] next.columns[k]).source
                < cell@.columns.len() by {
                assert(m0.state(id).columns[k].source < cell0.columns.len());
            }
        }
        n
    }
}

/// A pairing does not depend on the other cells.
proof fn lemma_other_pairs(a: StoreModel, b: StoreModel, id: CellId, other: CellId, cell: CellModel)
    requires
        only_differs(a, b, id),
        other != id,
        a.pairs(other, cell),
    ensures
        b.pairs(other, cell),
        b.state(other) == a.state(other),
{
    assert(b.cells[other.0 as int] == a.cells[other.0 as int]);
}

proof fn lemma_slots_view(v: Seq<CellSlot>)
    ensures
        slot_models(v).len() == v.len(),
        forall|k: int|
            0 <= k < v.len() ==> #[trigger] slot_models(v)[k] == (SlotModel { id: v[k].id, cell: v[k].cell@ }),
{
}

/// Changing one cell of a list, with the store in step, keeps all pairs.
proof fn lemma_all_pair_step(
    a: StoreModel,
    b: StoreModel,
    slots: Seq<SlotModel>,
    k: int,
    cell: CellModel,
)
    requires
        all_pair(a, slots),
        0 <= k < slots.len(),
        only_differs(a, b, slots[k].id),
        b.pairs(slots[k].id, cell),
        cell.well_formed(),
    ensures
        all_pair(b, slots.update(k, SlotModel { id: slots[k].id, cell })),
{
    let after = slots.update(k, SlotModel { id: slots[k].id, cell });
    assert forall|i: int| 0 <= i < after.len() implies b.pairs((#[trigger] after[i]).id, after[i].cell)
        && after[i].cell.well_formed() by {
        if i != k {
            assert(after[i] == slots[i]);
            assert(a.pairs(slots[i].id, slots[i].cell));
            if i < k {
                assert(slots[i].id != slots[k].id);
            } else {
                assert(slots[k].id != slots[i].id);
            }
            lemma_other_pairs(a, b, slots[k].id, slots[i].id, slots[i].cell);
        }
    }
    assert forall|i: int, j: int| 0 <= i < j < after.len() implies (#[trigger] after[i]).id != (
    #[trigger] after[j]).id by {
        assert(slots[i].id != slots[j].id);
    }
}

/// The pools after the regions that waited for serial numbers up to `done` were
/// freed.
pub open spec fn pools_drained(pools: Seq<crate::gpu::region::PoolModel>, done: u64) -> Seq<
    crate::gpu::region::PoolModel,
> {
    pools.map_values(|p: crate::gpu::region::PoolModel| p.drained(done))
}

/// Freeing regions that nobody holds keeps the store well-formed.
proof fn lemma_pools_drained(m: StoreModel, done: u64)
    requires
        m.well_formed(),
    ensures
        (StoreModel {
            row_pools: pools_drained(m.row_pools, done),
            slot_pools: pools_drained(m.slot_pools, done),
            ..m
        }).well_formed(),
{
    let after = StoreModel {
        row_pools: pools_drained(m.row_pools, done),
        slot_pools: pools_drained(m.slot_pools, done),
        ..m
    };
    assert forall|i: int| 0 <= i < m.row_pools.len() implies (#[trigger] after.row_pools[i]).well_formed() && forall|
        r: u32,
    | #[trigger] after.row_pools[i].holds(r) <==> m.row_pools[i].holds(r) by {
        assert(m.row_pools[i].well_formed());
        crate::gpu::region::lemma_drained(m.row_pools[i], done);
    }
    assert forall|i: int| 0 <= i < m.slot_pools.len() implies (#[trigger] after.slot_pools[i]).well_formed() && forall|
        r: u32,
    | #[trigger] after.slot_pools[i].holds(r) <==> m.slot_pools[i].holds(r) by {
        assert(m.slot_pools[i].well_formed());
        crate::gpu::region::lemma_drained(m.slot_pools[i], done);
    }
    assert forall|i: int, j: int| 0 <= i < j < after.row_pools.len() implies (#[trigger] after.row_pools[i]).base
        + after.row_pools[i].region_size * after.row_pools[i].count <= (#[trigger] after.row_pools[j]).base by {
        assert(m.row_pools[i].base + m.row_pools[i].region_size * m.row_pools[i].count <= m.row_pools[j].base);
    }
    assert forall|i: int, j: int| 0 <= i < j < after.slot_pools.len() implies (#[trigger] after.slot_pools[i]).base
        + after.slot_pools[i].region_size * after.slot_pools[i].count <= (#[trigger] after.slot_pools[j]).base by {
        assert(m.slot_pools[i].base + m.slot_pools[i].region_size * m.slot_pools[i].count <= m.slot_pools[j].base);
    }
    assert forall|i: int| 0 <= i < after.cells.len() implies #[trigger] after.cell_ok(i) by {
        assert(m.cell_ok(i));
        if after.cells[i] is Some {
            let st = after.cells[i].unwrap();
            let c = st.class as int;
            assert(after.row_pools[c].well_formed());
            assert(after.slot_pools[c].well_formed());
        }
    }
    assert forall|i: int, j: int| 0 <= i < j < after.cells.len() implies #[trigger] after.cells_differ(i, j) by {
        assert(m.cells_differ(i, j));
    }
}

fn drain_pools(pools: &mut Vec<crate::gpu::region::RegionPool>, done: u64)
    requires
        forall|i: int| 0 <= i < old(pools)@.len() ==> (#[trigger] old(pools)@[i]).well_formed(),
    ensures
        crate::gpu::cell_store::pool_models(final(pools)@) == pools_drained(
            crate::gpu::cell_store::pool_models(old(pools)@),
            done,
        ),
{
    let ghost before = pools@;
    let n: usize = pools.len();
    let mut i: usize = 0;
    while i < n
        invariant
            i <= n,
            n == pools@.len(),
            n == before.len(),
            forall|k: int| 0 <= k < n ==> (#[trigger] before[k]).well_formed(),
            forall|k: int| i <= k < n ==> #[trigger] pools@[k] == before[k],
            forall|k: int| 0 <= k < i ==> (#[trigger] pools@[k])@ == before[k]@.drained(done),
        decreases n - i,
    {
        pools[i].drain_completed(done);
        i = i + 1;
    }
    proof {
        assert(crate::gpu::cell_store::pool_models(pools@) =~= pools_drained(
            crate::gpu::cell_store::pool_models(before),
            done,
        ));
    }
}

impl CellStore {
    /// Opens the frame boundary: commits the retirements whose work is
    /// complete, after the new generation of each slot is on its way to the
    /// device, and frees the regions that waited. Returns how many slots were
    /// retired, wrapping around.
    pub fn retire_all(&mut self, cells: &mut Vec<CellSlot>, done: u64) -> (drained: u32)
        requires
            old(self).well_formed(),
            old(self)@.phase == Phase::Write,
            all_pair(old(self)@, slot_models(old(cells)@)),
        ensures
            final(self).well_formed(),
            ({
                let m = StoreModel { phase: Phase::Retired, ..old(self)@ };
                let slots = slot_models(old(cells)@);
                let out = slots_retired(m, slots, done, slots.len() as int);
                &&& final(self)@ == (StoreModel {
                    row_pools: pools_drained(out.0.row_pools, done),
                    slot_pools: pools_drained(out.0.slot_pools, done),
                    ..out.0
                })
                &&& slot_models(final(cells)@) == out.1
                &&& drained == retired_count(m, slots, done, slots.len() as int) % 0x1_0000_0000
            }),
            all_pair(final(self)@, slot_models(final(cells)@)),
    {
        let ghost slots0 = slot_models(cells@);
        let ghost m0 = StoreModel { phase: Phase::Retired, ..self@ };
        proof {
            lemma_same_cells(self@, m0);
        }
        self.phase = Phase::Retired;
        proof {
            assert(self@ == m0);
        }
        let n: usize = cells.len();
        let mut drained: u32 = 0;
        let ghost mut total: int = 0;
        let mut i: usize = 0;
        while i < n
            invariant
                i <= n,
                n == cells@.len(),
                n == slots0.len(),
                self.well_formed(),
                all_pair(self@, slot_models(cells@)),
                all_pair(m0, slots0),
                (self@, slot_models(cells@)) == slots_retired(m0, slots0, done, i as int),
                forall|k: int| i <= k < n ==> #[trigger] slot_models(cells@)[k] == slots0[k],
                forall|k: int|
                    i <= k < n ==> self@.cells[(#[trigger] slots0[k]).id.0 as int] == m0.cells[slots0[k].id.0 as int],
                total == retired_count(m0, slots0, done, i as int),
                drained == total % 0x1_0000_0000,
                total >= 0,
                self@.cells.len() == m0.cells.len(),
                self@.phase == Phase::Retired,
            decreases n - i,
        {
            let ghost before = self@;
            let ghost slots = slot_models(cells@);
            let ghost list = cells@;
            let id = cells[i].id;
            proof {
                lemma_slots_view(cells@);
                assert(slots[i as int] == slots0[i as int]);
                assert(before.pairs(slots[i as int].id, slots[i as int].cell));
                assert(before.cells[slots0[i as int].id.0 as int] == m0.cells[slots0[i as int].id.0 as int]);
            }
            let count: usize = self.retire_cell(id, &mut cells[i].cell, done);
            let ghost counted = count as int;
            proof {
                lemma_slots_view(cells@);
                let now = slot_models(cells@);
                let cell = cells@[i as int].cell@;
                assert(now =~= slots.update(i as int, SlotModel { id, cell }));
                lemma_all_pair_step(before, self@, slots, i as int, cell);
                assert forall|k: int| i < k < n implies #[trigger] now[k] == slots0[k] by {
                    assert(slots[k] == slots0[k]);
                }
                assert forall|k: int| i < k < n implies self@.cells[(#[trigger] slots0[k]).id.0 as int]
                    == m0.cells[slots0[k].id.0 as int] by {
                    assert(slots0[i as int].id != slots0[k].id);
                    assert(id == slots0[i as int].id);
                    assert(m0.pairs(slots0[k].id, slots0[k].cell));
                    assert(before.cells[slots0[k].id.0 as int] == m0.cells[slots0[k].id.0 as int]);
                }
                total = total + counted;
            }
            let small: u32 = (count as u64 % 0x1_0000_0000) as u32;
            drained = drained.wrapping_add(small);
            proof {
                let q = 0x1_0000_0000int;
                vstd::arithmetic::div_mod::lemma_add_mod_noop(total - counted, counted, q);
            }
            i = i + 1;
        }
        proof {
            lemma_pools_drained(self@, done);
            assert forall|k: int| 0 <= k < self.row_pools@.len() implies (#[trigger] self.row_pools@[k]).well_formed() by {
                assert(self@.row_pools[k] == self.row_pools@[k]@);
                assert(self@.row_pools[k].well_formed());
            }
            assert forall|k: int| 0 <= k < self.slot_pools@.len() implies (#[trigger] self.slot_pools@[k]).well_formed() by {
                assert(self@.slot_pools[k] == self.slot_pools@[k]@);
                assert(self@.slot_pools[k].well_formed());
            }
        }
        let ghost last = self@;
        drain_pools(&mut self.row_pools, done);
        drain_pools(&mut self.slot_pools, done);
        proof {
            assert forall|k: int| 0 <= k < n implies self@.pairs(
                (#[trigger] slot_models(cells@)[k]).id,
                slot_models(cells@)[k].cell,
            ) by {
                assert(last.pairs(slot_models(cells@)[k].id, slot_models(cells@)[k].cell));
            }
        }
        drained
    }
}

/// Compaction keeps pinned rows where they are, and all slots as they are.
pub proof fn lemma_compaction_keeps_pins(m: CellModel, r: int)
    requires
        m.well_formed(),
        0 <= r < m.rows(),
        m.pinned[r],
    ensures
        r < compacted(m).0.rows(),
        compacted(m).0.pinned[r],
        compacted(m).0.free_slots == m.free_slots,
    decreases m.slots.len(),
{
    if m.slots.len() == 0 || m.pinned.last() {
    } else if !m.live.last() {
        assert(r != m.slots.len() - 1);
        crate::cell::lemma_popped(m);
        lemma_compaction_keeps_pins(m.popped(), r);
    } else {
        crate::cell::lemma_first_hole(m, 0);
        match crate::cell::first_hole(m, 0) {
            None => {},
            Some(to) => {
                assert(to != m.slots.len() - 1);
                assert(r != m.slots.len() - 1);
                crate::cell::lemma_moved(m, to);
                lemma_compaction_keeps_pins(m.copied_last(to).popped(), r);
            },
        }
    }
}

/// A slot that leads nowhere still does so after compaction.
proof fn lemma_compaction_keeps_dead_slots(m: CellModel, s: int)
    requires
        m.well_formed(),
        0 <= s < m.generations.len(),
        m.slot_rows[s] == NO_ROW,
    ensures
        compacted(m).0.slot_rows[s] == NO_ROW,
        compacted(m).0.free_slots == m.free_slots,
    decreases m.slots.len(),
{
    if m.slots.len() == 0 || m.pinned.last() {
    } else if !m.live.last() {
        crate::cell::lemma_popped(m);
        lemma_compaction_keeps_dead_slots(m.popped(), s);
    } else {
        crate::cell::lemma_first_hole(m, 0);
        match crate::cell::first_hole(m, 0) {
            None => {},
            Some(to) => {
                assert(to != m.slots.len() - 1);
                assert(m.row_ok(m.slots.len() - 1));
                crate::cell::lemma_moved(m, to);
                lemma_compaction_keeps_dead_slots(m.copied_last(to).popped(), s);
            },
        }
    }
}

proof fn lemma_rows_marked(st: CellStateModel, rows: Seq<u32>)
    requires
        st.well_formed(),
        forall|i: int| 0 <= i < rows.len() ==> (#[trigger] rows[i]) < st.row_capacity(),
    ensures
        st.rows_marked(rows).well_formed(),
        same_place(st, st.rows_marked(rows)),
        st.rows_marked(rows).pending == st.pending,
    decreases rows.len(),
{
    if rows.len() > 0 {
        assert forall|i: int| 0 <= i < rows.drop_last().len() implies (#[trigger] rows.drop_last()[i])
            < st.row_capacity() by {
            assert(rows[i] < st.row_capacity());
        }
        assert(rows[rows.len() - 1] < st.row_capacity());
        lemma_rows_marked(st, rows.drop_last());
        let before = st.rows_marked(rows.drop_last());
        let after = st.rows_marked(rows);
        assert forall|k: int| 0 <= k < after.columns.len() implies (#[trigger] after.columns[k]).mask.len()
            == after.row_capacity() by {
            assert(before.columns[k].mask.len() == before.row_capacity());
        }
        assert forall|k: int| 0 <= k < st.columns.len() implies (#[trigger] st.columns[k]).buffer
            == after.columns[k].buffer && st.columns[k].source == after.columns[k].source by {
            assert(before.columns[k].buffer == st.columns[k].buffer);
        }
    }
}

impl CellStore {
    /// Compacts one resident cell, and marks the rows that were filled.
    fn compact_cell(&mut self, id: CellId, cell: &mut CellStorage)
        requires
            old(self).well_formed(),
            old(cell).well_formed(),
            old(self)@.pairs(id, old(cell)@),
        ensures
            final(self).well_formed(),
            final(cell).well_formed(),
            (final(self)@, final(cell)@) == cell_compacted(old(self)@, id, old(cell)@),
            final(self)@.pairs(id, final(cell)@),
            only_differs(old(self)@, final(self)@, id),
    {
        let ghost before = self@;
        let ghost cell0 = cell@;
        let ghost state = before.state(id);
        let at: usize = id.0 as usize;
        let moved: Vec<u32> = cell.compact_report();
        proof {
            self.lemma_cells_view();
            assert(before.cell_ok(at as int));
            lemma_compacted(cell0);
            lemma_rows_marked(state, moved@);
        }
        if let Some(st) = &mut self.cells[at] {
            st.mark_rows(&moved);
        }
        proof {
            let next = state.rows_marked(moved@);
            assert(self@.cells =~= before.with_state(id, next).cells);
            assert(self@ == before.with_state(id, next));
            lemma_with_state(before, id, next);
            let now = cell@;
            assert forall|k: int| 0 <= k < next.columns.len() implies (#[trigger] next.columns[k]).source
                < now.columns.len() by {
                assert(state.columns[k].source < cell0.columns.len());
            }
            assert forall|i: int| 0 <= i < next.pending.len() implies {
                let p = (#[trigger] next.pending[i]).pending;
                &&& p.row < now.rows()
                &&& now.pinned[p.row as int]
                &&& p.slot < now.generations.len()
                &&& now.slot_rows[p.slot as int] == NO_ROW
                &&& !now.free_slots.contains(p.slot)
            } by {
                let p = state.pending[i].pending;
                lemma_compaction_keeps_pins(cell0, p.row as int);
                lemma_compaction_keeps_dead_slots(cell0, p.slot as int);
            }
        }
    }

    /// Compacts all cells. The rows that were filled are uploaded with the next
    /// synchronization.
    pub fn compact_all(&mut self, cells: &mut Vec<CellSlot>)
        requires
            old(self).well_formed(),
            old(self)@.phase == Phase::Retired,
            all_pair(old(self)@, slot_models(old(cells)@)),
        ensures
            final(self).well_formed(),
            ({
                let m = StoreModel { phase: Phase::Compacted, ..old(self)@ };
                let slots = slot_models(old(cells)@);
                let open = Seq::new(slots.len(), |k: int| true);
                (final(self)@, slot_models(final(cells)@)) == slots_compacted(m, slots, open, slots.len() as int)
            }),
            all_pair(final(self)@, slot_models(final(cells)@)),
    {
        let mut gates: Vec<bool> = Vec::new();
        let n: usize = cells.len();
        while gates.len() < n
            invariant
                gates@.len() <= n,
                gates@ == Seq::new(gates@.len(), |k: int| true),
            decreases n - gates@.len(),
        {
            gates.push(true);
            proof {
                assert(gates@ =~= Seq::new(gates@.len(), |k: int| true));
            }
        }
        self.compact_open(cells, &gates);
    }

    /// Compacts the cells that `ready` lets through. The others keep their
    /// holes until the next boundary.
    pub fn compact_all_gated<F: FnMut(CellId) -> bool>(&mut self, cells: &mut Vec<CellSlot>, mut ready: F)
        requires
            old(self).well_formed(),
            old(self)@.phase == Phase::Retired,
            all_pair(old(self)@, slot_models(old(cells)@)),
            forall|id: CellId| #[trigger] call_requires(ready, (id,)),
        ensures
            final(self).well_formed(),
            exists|gates: Seq<bool>| #[trigger]
                gates.len() == old(cells)@.len() && (forall|k: int|
                    0 <= k < gates.len() ==> call_ensures(ready, ((#[trigger] old(cells)@[k]).id,), gates[k])) && (
                final(self)@,
                slot_models(final(cells)@),
            ) == slots_compacted(
                StoreModel { phase: Phase::Compacted, ..old(self)@ },
                slot_models(old(cells)@),
                gates,
                gates.len() as int,
            ),
            all_pair(final(self)@, slot_models(final(cells)@)),
    {
        let ghost given = ready;
        let mut gates: Vec<bool> = Vec::new();
        let mut i: usize = 0;
        while i < cells.len()
            invariant
                i <= cells@.len(),
                cells@ == old(cells)@,
                ready == given,
                gates@.len() == i,
                forall|id: CellId| #[trigger] call_requires(given, (id,)),
                forall|k: int| 0 <= k < i ==> call_ensures(given, ((#[trigger] cells@[k]).id,), gates@[k]),
            decreases cells@.len() - i,
        {
            let open: bool = ready(cells[i].id);
            gates.push(open);
            i = i + 1;
        }
        self.compact_open(cells, &gates);
        proof {
            assert(gates@.len() == old(cells)@.len());
        }
    }

    /// Compacts the cells whose gate is open.
    fn compact_open(&mut self, cells: &mut Vec<CellSlot>, gates: &Vec<bool>)
        requires
            old(self).well_formed(),
            old(self)@.phase == Phase::Retired,
            all_pair(old(self)@, slot_models(old(cells)@)),
            gates@.len() == old(cells)@.len(),
        ensures
            final(self).well_formed(),
            (final(self)@, slot_models(final(cells)@)) == slots_compacted(
                StoreModel { phase: Phase::Compacted, ..old(self)@ },
                slot_models(old(cells)@),
                gates@,
                gates@.len() as int,
            ),
            all_pair(final(self)@, slot_models(final(cells)@)),
    {
        let ghost slots0 = slot_models(cells@);
        let ghost m0 = StoreModel { phase: Phase::Compacted, ..self@ };
        proof {
            lemma_same_cells(self@, m0);
        }
        self.phase = Phase::Compacted;
        proof {
            assert(self@ == m0);
        }
        let n: usize = cells.len();
        let mut i: usize = 0;
        while i < n
            invariant
                i <= n,
                n == cells@.len(),
                n == gates@.len(),
                self.well_formed(),
                all_pair(self@, slot_models(cells@)),
                (self@, slot_models(cells@)) == slots_compacted(m0, slots0, gates@, i as int),
            decreases n - i,
        {
            let ghost before = self@;
            let ghost slots = slot_models(cells@);
            let ghost list = cells@;
            if gates[i] {
                let id = cells[i].id;
                proof {
                    lemma_slots_view(cells@);
                    assert(before.pairs(slots[i as int].id, slots[i as int].cell));
                }
                self.compact_cell(id, &mut cells[i].cell);
                proof {
                    lemma_slots_view(cells@);
                    let cell = cells@[i as int].cell@;
                    assert(slot_models(cells@) =~= slots.update(i as int, SlotModel { id, cell }));
                    lemma_all_pair_step(before, self@, slots, i as int, cell);
                }
            }
            i = i + 1;
        }
    }
}

proof fn lemma_columns_synced(fixed: Map<ComponentId, FixedModel>, st: CellStateModel, cell: CellModel, n: int)
    requires
        0 <= n <= st.columns.len(),
        forall|k: int| 0 <= k < st.columns.len() ==> fixed.contains_key((#[trigger] st.columns[k]).buffer),
    ensures
        columns_synced(fixed, st, cell, n).dom() == fixed.dom(),
        forall|c: ComponentId| #[trigger]
            fixed.contains_key(c) ==> columns_synced(fixed, st, cell, n)[c].stride == fixed[c].stride
                && columns_synced(fixed, st, cell, n)[c].capacity == fixed[c].capacity,
    decreases n,
{
    if n > 0 {
        lemma_columns_synced(fixed, st, cell, n - 1);
        assert(fixed.contains_key(st.columns[n - 1].buffer));
        assert(columns_synced(fixed, st, cell, n).dom() =~= fixed.dom());
    }
}

proof fn lemma_state_synced(st: CellStateModel, cell: CellModel)
    requires
        st.well_formed(),
    ensures
        st.synced(cell).well_formed(),
        same_place(st, st.synced(cell)),
{
    let after = st.synced(cell);
    assert forall|k: int| 0 <= k < after.columns.len() implies (#[trigger] after.columns[k]).mask.len()
        == after.row_capacity() by {
        assert(st.columns[k].mask.len() == st.row_capacity());
    }
}

/// Uploading a cell keeps the store well-formed and touches no other cell.
proof fn lemma_cell_synced(m: StoreModel, id: CellId, cell: CellModel)
    requires
        m.well_formed(),
        m.pairs(id, cell),
    ensures
        cell_synced(m, id, cell).well_formed(),
        cell_synced(m, id, cell).pairs(id, cell),
        only_differs(m, cell_synced(m, id, cell), id),
        cell_synced(m, id, cell).state(id) == m.state(id).synced(cell),
{
    let st = m.state(id);
    let next = st.synced(cell);
    let after = cell_synced(m, id, cell);
    assert(m.cell_ok(id.0 as int));
    lemma_columns_synced(m.fixed, st, cell, st.columns.len() as int);
    lemma_state_synced(st, cell);
    lemma_with_state(m, id, next);
    lemma_same_cells(m.with_state(id, next), after);
    assert forall|k: int| 0 <= k < next.columns.len() implies (#[trigger] next.columns[k]).source
        < cell.columns.len() by {
        assert(st.columns[k].source < cell.columns.len());
    }
    assert(awaits(next.pending, cell)) by {
        assert(next.pending == st.pending);
    }
}

impl CellStore {
    /// Uploads the changed rows and slots of one resident cell.
    pub(crate) fn sync_cell(&mut self, id: CellId, cell: &CellStorage) -> (stats: SyncStats)
        requires
            old(self).well_formed(),
            cell.well_formed(),
            old(self)@.pairs(id, cell@),
        ensures
            final(self).well_formed(),
            final(self)@ == cell_synced(old(self)@, id, cell@),
            stats == cell_stats(old(self)@, id, cell@),
            final(self)@.pairs(id, cell@),
            only_differs(old(self)@, final(self)@, id),
    {
        let ghost m = self@;
        let ghost st0 = m.state(id);
        let at: usize = id.0 as usize;
        let mut stats = SyncStats::none();
        proof {
            self.lemma_cells_view();
            assert(m.cell_ok(at as int));
            lemma_cell_synced(m, id, cell@);
        }
        let n: usize = match &self.cells[at] {
            Some(st) => st.columns.len(),
            None => 0,
        };
        let mut k: usize = 0;
        while k < n
            invariant
                k <= n,
                at == id.0,
                n == st0.columns.len(),
                m.well_formed(),
                m.pairs(id, cell@),
                st0 == m.state(id),
                st0.well_formed(),
                cell.well_formed(),
                forall|j: int| 0 <= j < st0.columns.len() ==> m.fixed.contains_key((#[trigger] st0.columns[j]).buffer),
                self@ == (StoreModel { fixed: columns_synced(m.fixed, st0, cell@, k as int), ..m }),
                stats == columns_stats(m.fixed, st0, cell@, k as int),
            decreases n - k,
        {
            let ghost here = self@;
            let ghost fixed_here = self.fixed@;
            proof {
                self.lemma_cells_view();
                lemma_columns_synced(m.fixed, st0, cell@, k as int);
                assert(m.fixed.contains_key(st0.columns[k as int].buffer));
                assert(here.fixed.dom().contains(st0.columns[k as int].buffer));
            }
            if let Some(st) = &self.cells[at] {
                proof {
                    assert(st@ == st0);
                    assert(st0.columns[k as int] == st.columns@[k as int]@);
                }
                let buffer = st.columns[k].buffer;
                if let Some(column) = self.fixed.get_mut(buffer) {
                    let stride: u32 = column.stride;
                    let part = st.upload_column(k, cell, stride, &mut column.queue);
                    stats = stats.plus(part);
                }
            }
            proof {
                let next = columns_synced(m.fixed, st0, cell@, k + 1);
                assert(self@.fixed =~= next);
                assert(self@ == (StoreModel { fixed: next, ..m }));
            }
            k = k + 1;
        }
        let ghost uploaded = self@;
        proof {
            self.lemma_cells_view();
        }
        if let Some(st) = &mut self.cells[at] {
            if cell.rows_in_use() > 0 {
                st.clear_marks();
            }
            let part = st.upload_slots(cell, &mut self.slot_mirror);
            stats = stats.plus(part);
        }
        proof {
            let after = cell_synced(m, id, cell@);
            assert(self@.cells =~= after.cells);
            assert(self@ == after);
        }
        stats
    }

    /// Closes the frame boundary: uploads the changed rows of all cells, and
    /// every slot that is not what was uploaded last for its row.
    pub fn sync_all(&mut self, cells: &Vec<CellSlot>) -> (stats: SyncStats)
        requires
            old(self).well_formed(),
            old(self)@.phase == Phase::Compacted,
            all_pair(old(self)@, slot_models(cells@)),
        ensures
            final(self).well_formed(),
            ({
                let m = StoreModel { phase: Phase::Write, ..old(self)@ };
                let slots = slot_models(cells@);
                &&& final(self)@ == slots_synced(m, slots, slots.len() as int)
                &&& stats == slots_stats(m, slots, slots.len() as int)
            }),
            all_pair(final(self)@, slot_models(cells@)),
    {
        let ghost slots = slot_models(cells@);
        let ghost m = StoreModel { phase: Phase::Write, ..self@ };
        proof {
            lemma_same_cells(self@, m);
        }
        self.phase = Phase::Write;
        proof {
            assert(self@ == m);
        }
        let mut stats = SyncStats::none();
        let mut i: usize = 0;
        while i < cells.len()
            invariant
                i <= cells@.len(),
                slots == slot_models(cells@),
                self.well_formed(),
                all_pair(self@, slots),
                self@ == slots_synced(m, slots, i as int),
                stats == slots_stats(m, slots, i as int),
            decreases cells@.len() - i,
        {
            let ghost before = self@;
            proof {
                lemma_slots_view(cells@);
                assert(before.pairs(slots[i as int].id, slots[i as int].cell));
            }
            let part = self.sync_cell(cells[i].id, &cells[i].cell);
            stats = stats.plus(part);
            proof {
                lemma_all_pair_step(before, self@, slots, i as int, cells@[i as int].cell@);
                assert(slots.update(
                    i as int,
                    SlotModel { id: cells@[i as int].id, cell: cells@[i as int].cell@ },
                ) =~= slots);
            }
            i = i + 1;
        }
        stats
    }

    /// Evicts a resident cell. Its retirements that still wait are committed to
    /// the cell at once; its regions are free once the work with the given
    /// serial number is complete. The name is not used again.
    pub fn unregister_cell(&mut self, id: CellId, cell: &mut CellStorage, last_serial: u64)
        requires
            old(self).well_formed(),
            old(cell).well_formed(),
            old(self)@.pairs(id, old(cell)@),
            forall|i: int|
                0 <= i < old(self)@.state(id).pending.len() ==> (#[trigger] old(self)@.state(
                    id,
                ).pending[i]).serial <= last_serial,
        ensures
            final(self).well_formed(),
            final(cell).well_formed(),
            ({
                let st = old(self)@.state(id);
                let c = st.class as int;
                &&& final(cell)@ == cell_committed(old(cell)@, st.pending, st.pending.len() as int)
                &&& final(self)@ == (StoreModel {
                    cells: old(self)@.cells.update(id.0 as int, None),
                    row_pools: old(self)@.row_pools.update(
                        c,
                        old(self)@.row_pools[c].given_back(st.row_region, last_serial),
                    ),
                    slot_pools: old(self)@.slot_pools.update(
                        c,
                        old(self)@.slot_pools[c].given_back(st.slot_region, last_serial),
                    ),
                    ..old(self)@
                })
            }),
    {
        let ghost m = self@;
        let ghost cell0 = cell@;
        let ghost st0 = m.state(id);
        let at: usize = id.0 as usize;
        proof {
            self.lemma_cells_view();
            assert(m.cell_ok(at as int));
        }
        let mut class: usize = 0;
        let mut row_region: u32 = 0;
        let mut slot_region: u32 = 0;
        if let Some(st) = &self.cells[at] {
            class = st.class;
            row_region = st.row_region;
            slot_region = st.slot_region;
            let mut i: usize = 0;
            proof {
                assert(st0.pending.skip(0) =~= st0.pending);
            }
            while i < st.pending.len()
                invariant
                    i <= st.pending@.len(),
                    st.pending@ == st0.pending,
                    cell.well_formed(),
                    cell0.well_formed(),
                    m.well_formed(),
                    m.resident(id),
                    st0 == m.state(id),
                    st0.fits(cell0),
                    awaits(st0.pending, cell0),
                    cell@ == cell_committed(cell0, st0.pending, i as int),
                decreases st.pending@.len() - i,
            {
                proof {
                    lemma_committed(m, id, cell0, st0.pending, i as int);
                    assert(st0.pending.skip(i as int)[0] == st0.pending[i as int]);
                }
                cell.commit_retire(st.pending[i].pending);
                i = i + 1;
            }
        }
        proof {
            assert(m.row_pools[class as int] == self.row_pools@[class as int]@);
            assert(m.slot_pools[class as int] == self.slot_pools@[class as int]@);
            assert(m.row_pools[class as int].well_formed());
            assert(m.slot_pools[class as int].well_formed());
        }
        self.row_pools[class].free_pinned(row_region, last_serial);
        self.slot_pools[class].free_pinned(slot_region, last_serial);
        self.cells[at] = None;
        proof {
            let after = self@;
            let c = class as int;
            assert(after.cells =~= m.cells.update(at as int, None));
            assert(after.row_pools =~= m.row_pools.update(
                c,
                m.row_pools[c].given_back(row_region, last_serial),
            ));
            assert(after.slot_pools =~= m.slot_pools.update(
                c,
                m.slot_pools[c].given_back(slot_region, last_serial),
            ));
            assert forall|i: int| 0 <= i < after.row_pools.len() implies (
            #[trigger] after.row_pools[i]).well_formed() && after.row_pools[i].base == m.row_pools[i].base
                && after.row_pools[i].region_size == m.row_pools[i].region_size && after.row_pools[i].count
                == m.row_pools[i].count by {
                assert(m.row_pools[i].well_formed());
            }
            assert forall|i: int| 0 <= i < after.slot_pools.len() implies (
            #[trigger] after.slot_pools[i]).well_formed() && after.slot_pools[i].base == m.slot_pools[i].base
                && after.slot_pools[i].region_size == m.slot_pools[i].region_size && after.slot_pools[i].count
                == m.slot_pools[i].count by {
                assert(m.slot_pools[i].well_formed());
            }
            assert forall|i: int, j: int| 0 <= i < j < after.row_pools.len() implies (
            #[trigger] after.row_pools[i]).base + after.row_pools[i].region_size * after.row_pools[i].count <= (
            #[trigger] after.row_pools[j]).base by {
                assert(m.row_pools[i].base + m.row_pools[i].region_size * m.row_pools[i].count
                    <= m.row_pools[j].base);
            }
            assert forall|i: int, j: int| 0 <= i < j < after.slot_pools.len() implies (
            #[trigger] after.slot_pools[i]).base + after.slot_pools[i].region_size * after.slot_pools[i].count <= (
            #[trigger] after.slot_pools[j]).base by {
                assert(m.slot_pools[i].base + m.slot_pools[i].region_size * m.slot_pools[i].count
                    <= m.slot_pools[j].base);
            }
            assert forall|i: int| 0 <= i < after.cells.len() implies #[trigger] after.cell_ok(i) by {
                assert(m.cell_ok(i));
                if i != at && after.cells[i] is Some {
                    if i < at {
                        assert(m.cells_differ(i, at as int));
                    } else {
                        assert(m.cells_differ(at as int, i));
                    }
                }
            }
            assert forall|i: int, j: int| 0 <= i < j < after.cells.len() implies #[trigger] after.cells_differ(
                i,
                j,
            ) by {
                assert(m.cells_differ(i, j));
            }
        }
    }
}

/// What the device holds of the slots of all resident cells, if it has
/// executed the commands of the store.
pub open spec fn all_slots_on_device(m: StoreModel, mem: Seq<Seq<u8>>) -> bool {
    forall|id: CellId| #[trigger]
        m.resident(id) ==> crate::gpu::cell_state::slots_on_device(m.state(id), mem)
}

/// Once the device has executed the commands of a synchronization, it shows
/// for every row in use of the cell exactly the slot that the cell has for it,
/// whatever moved the slot there, and still shows what it showed of all other
/// cells.
pub proof fn lemma_sync_shows_slots(m: StoreModel, id: CellId, cell: CellModel, mem: Seq<Seq<u8>>)
    requires
        m.well_formed(),
        cell.well_formed(),
        m.pairs(id, cell),
        all_slots_on_device(m, mem),
    ensures
        ({
            let st = m.state(id);
            let now = crate::gpu::device::run(mem, slot_commands(st, cell.slots), 4);
            &&& all_slots_on_device(cell_synced(m, id, cell), now)
            &&& forall|r: int|
                0 <= r < cell.rows() ==> #[trigger] now[st.row_base + r] == word_row(
                    (st.slot_base + cell.slots[r]) as u32,
                )
        }),
{
    let st = m.state(id);
    let after = cell_synced(m, id, cell);
    let now = crate::gpu::device::run(mem, slot_commands(st, cell.slots), 4);
    assert(m.cell_ok(id.0 as int));
    lemma_cell_synced(m, id, cell);
    crate::gpu::cell_state::lemma_slots_uploaded(st, cell, mem);
    assert forall|other: CellId| #[trigger] after.resident(other) implies crate::gpu::cell_state::slots_on_device(
        after.state(other),
        now,
    ) by {
        if other != id {
            assert(after.cells[other.0 as int] == m.cells[other.0 as int]);
            assert(m.resident(other));
            crate::gpu::cell_store::lemma_cells_disjoint(m, id, other);
            let y = m.state(other);
            assert forall|r: int|
                0 <= r < y.row_capacity() && y.slot_shadow[r] != crate::gpu::cell_state::NEVER_UPLOADED implies #[trigger] now[y.row_base
                + r] == word_row((y.slot_base + y.slot_shadow[r]) as u32) by {
                assert(mem[y.row_base + r] == word_row((y.slot_base + y.slot_shadow[r]) as u32));
            }
        }
    }
}

/// Retiring leaves the device columns as they are.
pub proof fn lemma_retired_fixed(m: StoreModel, slots: Seq<SlotModel>, done: u64, n: int)
    ensures
        slots_retired(m, slots, done, n).0.fixed == m.fixed,
    decreases n,
{
    if n > 0 {
        lemma_retired_fixed(m, slots, done, n - 1);
        let before = slots_retired(m, slots, done, n - 1);
        let s = before.1[n - 1];
        let pending = before.0.state(s.id).pending;
        lemma_committed_fixed(before.0, s.id, s.cell, pending, ready_count(pending, done) as int);
    }
}

proof fn lemma_committed_fixed(m: StoreModel, id: CellId, cell: CellModel, pending: Seq<QueuedRetire>, n: int)
    ensures
        committed(m, id, cell, pending, n).0.fixed == m.fixed,
    decreases n,
{
    if n > 0 {
        lemma_committed_fixed(m, id, cell, pending, n - 1);
    }
}

/// Compaction leaves the device columns as they are.
pub proof fn lemma_compacted_fixed(m: StoreModel, slots: Seq<SlotModel>, gates: Seq<bool>, n: int)
    ensures
        slots_compacted(m, slots, gates, n).0.fixed == m.fixed,
    decreases n,
{
    if n > 0 {
        lemma_compacted_fixed(m, slots, gates, n - 1);
    }
}

/// Uploading a cell adds and removes no device column, and no region.
pub proof fn lemma_sync_cell_fixed(m: StoreModel, id: CellId, cell: CellModel)
    requires
        m.well_formed(),
        m.pairs(id, cell),
    ensures
        cell_synced(m, id, cell).fixed.dom() == m.fixed.dom(),
        cell_synced(m, id, cell).row_pools == m.row_pools,
        cell_synced(m, id, cell).slot_pools == m.slot_pools,
        cell_synced(m, id, cell).cells.len() == m.cells.len(),
{
    assert(m.cell_ok(id.0 as int));
    let st = m.state(id);
    lemma_columns_synced(m.fixed, st, cell, st.columns.len() as int);
}

/// Synchronizing adds and removes no device column.
pub proof fn lemma_synced_fixed(m: StoreModel, slots: Seq<SlotModel>, n: int)
    requires
        m.well_formed(),
        all_pair(m, slots),
        0 <= n <= slots.len(),
    ensures
        slots_synced(m, slots, n).fixed.dom() == m.fixed.dom(),
        slots_synced(m, slots, n).well_formed(),
        all_pair(slots_synced(m, slots, n), slots),
    decreases n,
{
    if n > 0 {
        lemma_synced_fixed(m, slots, n - 1);
        let before = slots_synced(m, slots, n - 1);
        let s = slots[n - 1];
        assert(before.pairs(s.id, s.cell));
        lemma_cell_synced(before, s.id, s.cell);
        lemma_sync_cell_fixed(before, s.id, s.cell);
        lemma_all_pair_step(before, cell_synced(before, s.id, s.cell), slots, n - 1, s.cell);
        assert(slots.update(n - 1, SlotModel { id: s.id, cell: s.cell }) =~= slots);
    }
}

impl CellStore {
    /// The descriptions of the mirrored columns of a resident cell.
    pub(crate) fn gpu_columns(&self, id: CellId) -> (descs: &Vec<crate::gpu::column::GpuColumnDesc>)
        requires
            self@.resident(id),
        ensures
            crate::gpu::column::column_models(descs@) == self@.state(id).gpu_columns,
    {
        proof {
            self.lemma_cells_view();
        }
        self.cells[id.0 as usize].as_ref().unwrap().gpu_columns_ref()
    }

    /// Marks a row of a device column of a resident cell, if the cell has it.
    pub(crate) fn mark_buffer(&mut self, id: CellId, buffer: ComponentId, row: u32)
        requires
            old(self).well_formed(),
            old(self)@.resident(id),
            row < old(self)@.state(id).row_capacity(),
        ensures
            final(self).well_formed(),
            final(self)@ == old(self)@.with_state(
                id,
                crate::gpu::scene_store::cells::buffer_marked(old(self)@.state(id), buffer, row, 0),
            ),
    {
        let ghost before = self@;
        let ghost state = before.state(id);
        let at: usize = id.0 as usize;
        proof {
            self.lemma_cells_view();
            assert(before.cell_ok(at as int));
        }
        let ghost mut hit: int = -1;
        if let Some(st) = &mut self.cells[at] {
            let n: usize = st.columns.len();
            let mut k: usize = 0;
            while k < n && st.columns[k].buffer != buffer
                invariant
                    k <= n,
                    n == st.columns@.len(),
                    st@ == state,
                    crate::gpu::scene_store::cells::buffer_marked(state, buffer, row, 0)
                        == crate::gpu::scene_store::cells::buffer_marked(state, buffer, row, k as int),
                decreases n - k,
            {
                proof {
                    assert(state.columns[k as int] == st.columns@[k as int]@);
                }
                k = k + 1;
            }
            if k < n {
                proof {
                    assert(state.columns[k as int] == st.columns@[k as int]@);
                    hit = k as int;
                }
                st.mark_column(k, row);
            }
        }
        proof {
            let next = crate::gpu::scene_store::cells::buffer_marked(state, buffer, row, 0);
            assert(next == (if hit >= 0 {
                state.column_marked(hit, row)
            } else {
                state
            }));
            assert(self@.cells =~= before.with_state(id, next).cells);
            assert(self@ == before.with_state(id, next));
            assert(next.well_formed()) by {
                assert forall|i: int| 0 <= i < next.columns.len() implies (#[trigger] next.columns[i]).mask.len()
                    == next.row_capacity() by {
                    assert(state.columns[i].mask.len() == state.row_capacity());
                }
            }
            lemma_with_state(before, id, next);
        }
    }

    /// Takes the commands of a device column of fixed capacity out, for
    /// execution.
    pub fn take_fixed_commands(&mut self, buffer: ComponentId) -> (queue: CommandQueue)
        requires
            old(self).well_formed(),
        ensures
            final(self).well_formed(),
            if old(self)@.fixed.contains_key(buffer) {
                &&& queue@ == old(self)@.fixed[buffer].commands
                &&& final(self)@ == (StoreModel {
                    fixed: old(self)@.fixed.insert(
                        buffer,
                        FixedModel { commands: Seq::empty(), ..old(self)@.fixed[buffer] },
                    ),
                    ..old(self)@
                })
            } else {
                queue@.len() == 0 && final(self)@ == old(self)@
            },
    {
        let ghost before = self@;
        let mut queue = CommandQueue::new();
        if let Some(column) = self.fixed.get_mut(buffer) {
            std::mem::swap(&mut queue, &mut column.queue);
        }
        proof {
            let want = if before.fixed.contains_key(buffer) {
                before.fixed.insert(buffer, FixedModel { commands: Seq::empty(), ..before.fixed[buffer] })
            } else {
                before.fixed
            };
            assert(self@.fixed =~= want);
            lemma_commands_taken(before, self@);
        }
        queue
    }

    /// Takes the commands of the column that holds the slot of every row out,
    /// for execution.
    pub fn take_slot_commands(&mut self) -> (queue: CommandQueue)
        requires
            old(self).well_formed(),
        ensures
            final(self).well_formed(),
            queue@ == old(self)@.slot_mirror,
            final(self)@ == (StoreModel { slot_mirror: Seq::empty(), ..old(self)@ }),
    {
        let ghost before = self@;
        let mut queue = CommandQueue::new();
        std::mem::swap(&mut queue, &mut self.slot_mirror);
        proof {
            lemma_commands_taken(before, self@);
        }
        queue
    }

    /// Takes the commands of the column that holds the generation of every slot
    /// out, for execution.
    pub fn take_generation_commands(&mut self) -> (queue: CommandQueue)
        requires
            old(self).well_formed(),
        ensures
            final(self).well_formed(),
            queue@ == old(self)@.generations,
            final(self)@ == (StoreModel { generations: Seq::empty(), ..old(self)@ }),
    {
        let ghost before = self@;
        let mut queue = CommandQueue::new();
        std::mem::swap(&mut queue, &mut self.generations);
        proof {
            lemma_commands_taken(before, self@);
        }
        queue
    }
}

proof fn lemma_commands_taken(m: StoreModel, n: StoreModel)
    requires
        m.well_formed(),
        n.row_pools == m.row_pools,
        n.slot_pools == m.slot_pools,
        n.cells == m.cells,
        forall|c: ComponentId| #[trigger] m.fixed.contains_key(c) ==> n.fixed.contains_key(c),
    ensures
        n.well_formed(),
{
    assert forall|i: int| 0 <= i < n.cells.len() implies #[trigger] n.cell_ok(i) by {
        assert(m.cell_ok(i));
    }
    assert forall|i: int, j: int| 0 <= i < j < n.cells.len() implies #[trigger] n.cells_differ(i, j) by {
        assert(m.cells_differ(i, j));
    }
}

} // verus!
