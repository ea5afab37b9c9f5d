//! What the phases of a frame do to every resident cell.

use vstd::prelude::*;
use crate::cell::{compacted, live_count, CellModel};
use crate::gpu::cell_state::{column_commands, column_rows, column_stats, lemma_marked_prefix, lemma_shifted, lemma_stale_rows, shifted, slot_commands, slot_words, stale_rows, CellStateModel, QueuedRetire};
use crate::gpu::cell_store::frame::{cell_committed, cell_retired, committed, ready_count, slots_compacted, slots_retired, slots_synced, SlotModel};
use crate::gpu::cell_store::{CellId, StoreModel};
use crate::gpu::device::{run, SyncStats};
use crate::gpu::dirty::{marked_below, marked_rows};
use crate::gpu::upload::lemma_direct_writes;

verus! {

/// How many of the queued retirements are committed: those at the front whose serial
/// is done, up to the first that is not.
pub proof fn lemma_ready_front(pending: Seq<QueuedRetire>, done: u64)
    ensures
        ready_count(pending, done) <= pending.len(),
        forall|i: int| 0 <= i < ready_count(pending, done) ==> (#[trigger] pending[i]).serial <= done,
        ready_count(pending, done) < pending.len() ==> pending[ready_count(pending, done) as int].serial > done,
    decreases pending.len(),
{
    if pending.len() > 0 && pending[0].serial <= done {
        let rest = pending.skip(1);
        lemma_ready_front(rest, done);
        let n = ready_count(pending, done);
        assert forall|i: int| 0 <= i < n implies (#[trigger] pending[i]).serial <= done by {
            if i > 0 {
                assert(rest[i - 1] == pending[i]);
            }
        }
        if n < pending.len() {
            assert(rest[n - 1] == pending[n as int]);
        }
    }
}

/// Where the serials are queued in order, exactly the retirements whose serial is done
/// are committed.
pub proof fn lemma_ready_in_order(pending: Seq<QueuedRetire>, done: u64)
    requires
        forall|i: int, j: int| 0 <= i < j < pending.len() ==> (#[trigger] pending[i]).serial <= (#[trigger] pending[j]).serial,
    ensures
        forall|i: int| 0 <= i < pending.len() ==> ((#[trigger] pending[i]).serial <= done <==> i < ready_count(pending, done)),
{
    lemma_ready_front(pending, done);
    let n = ready_count(pending, done) as int;
    assert forall|i: int| 0 <= i < pending.len() implies ((#[trigger] pending[i]).serial <= done <==> i < n) by {
        if n < i {
            assert(pending[n].serial <= pending[i].serial);
        }
    }
}

proof fn lemma_committed_parts(m: StoreModel, id: CellId, cell: CellModel, pending: Seq<QueuedRetire>, n: int)
    requires
        m.resident(id),
        0 <= n <= pending.len(),
    ensures
        ({
            let out = committed(m, id, cell, pending, n);
            &&& out.0.cells.len() == m.cells.len()
            &&& out.0.resident(id)
            &&& out.0.state(id).pending == m.state(id).pending
            &&& out.0.state(id).columns == m.state(id).columns
            &&& forall|j: int| 0 <= j < m.cells.len() && j != id.0 ==> #[trigger] out.0.cells[j] == m.cells[j]
            &&& out.1.slots == cell.slots
            &&& out.1.live == cell.live
            &&& out.1.columns == cell.columns
            &&& out.1.capacity == cell.capacity
            &&& out.1.slot_rows == cell.slot_rows
        }),
    decreases n,
{
    if n > 0 {
        lemma_committed_parts(m, id, cell, pending, n - 1);
    }
}

proof fn lemma_committed_slots(m: StoreModel, id: CellId, cell: CellModel, pending: Seq<QueuedRetire>, n: int)
    requires
        m.pairs(id, cell),
        pending == m.state(id).pending,
        cell.pinned.len() == cell.rows(),
        0 <= n <= pending.len(),
    ensures
        ({
            let out = committed(m, id, cell, pending, n).1;
            &&& out.pinned.len() == cell.pinned.len()
            &&& out.generations.len() == cell.generations.len()
            &&& forall|i: int| 0 <= i < n ==> !out.pinned[(#[trigger] pending[i]).pending.row as int]
            &&& forall|r: int|
                0 <= r < cell.rows() && (forall|i: int| 0 <= i < n ==> (#[trigger] pending[i]).pending.row != r)
                    ==> #[trigger] out.pinned[r] == cell.pinned[r]
            &&& forall|i: int|
                0 <= i < n ==> out.generations[(#[trigger] pending[i]).pending.slot as int]
                    == pending[i].pending.next_gen
            &&& forall|s: int|
                0 <= s < cell.generations.len() && (forall|i: int|
                    0 <= i < n ==> (#[trigger] pending[i]).pending.slot != s) ==> #[trigger] out.generations[s]
                    == cell.generations[s]
            &&& forall|s: u32|
                #[trigger] out.free_slots.contains(s) <==> cell.free_slots.contains(s) || exists|i: int|
                    0 <= i < n && (#[trigger] pending[i]).pending.slot == s && pending[i].pending.next_gen < u32::MAX
        }),
    decreases n,
{
    if n > 0 {
        lemma_committed_slots(m, id, cell, pending, n - 1);
        let before = committed(m, id, cell, pending, n - 1).1;
        let out = committed(m, id, cell, pending, n).1;
        let p = pending[n - 1].pending;
        assert forall|i: int| 0 <= i < n implies !out.pinned[(#[trigger] pending[i]).pending.row as int] by {}
        assert forall|r: int|
            0 <= r < cell.rows() && (forall|i: int| 0 <= i < n ==> (#[trigger] pending[i]).pending.row != r) implies #[trigger] out.pinned[r]
            == cell.pinned[r] by {
            assert(pending[n - 1].pending.row != r);
            assert(before.pinned[r] == cell.pinned[r]);
        }
        assert forall|i: int| 0 <= i < n implies out.generations[(#[trigger] pending[i]).pending.slot as int]
            == pending[i].pending.next_gen by {
            if i < n - 1 {
                assert(pending[i].pending.slot != pending[n - 1].pending.slot);
            }
        }
        assert forall|s: int|
            0 <= s < cell.generations.len() && (forall|i: int| 0 <= i < n ==> (#[trigger] pending[i]).pending.slot != s) implies #[trigger] out.generations[s]
            == cell.generations[s] by {
            assert(pending[n - 1].pending.slot != s);
            assert(before.generations[s] == cell.generations[s]);
        }
        assert forall|s: u32| #[trigger] out.free_slots.contains(s) <==> cell.free_slots.contains(s) || exists|i: int|
            0 <= i < n && (#[trigger] pending[i]).pending.slot == s && pending[i].pending.next_gen < u32::MAX by {
            if out.free_slots.contains(s) {
                let k = out.free_slots.index_of(s);
                if k < before.free_slots.len() {
                    assert(before.free_slots[k] == s);
                    assert(before.free_slots.contains(s));
                } else {
                    assert(pending[n - 1].pending.slot == s);
                }
            }
            if before.free_slots.contains(s) {
                assert(out.free_slots[before.free_slots.index_of(s)] == s);
            }
            if p.slot == s && p.next_gen < u32::MAX {
                assert(out.free_slots.last() == s);
            }
            if exists|i: int|
                0 <= i < n && (#[trigger] pending[i]).pending.slot == s && pending[i].pending.next_gen < u32::MAX {
                let i = choose|i: int|
                    0 <= i < n && (#[trigger] pending[i]).pending.slot == s && pending[i].pending.next_gen < u32::MAX;
                if i < n - 1 {
                    assert(before.free_slots.contains(s));
                }
            }
        }
    }
}

/// What committing the retirements of a cell does, where `n` of them, from the front,
/// are done: their rows are no longer pinned, their slots have the generations that
/// they were to move on to and are free unless that is the last one, and they leave
/// the queue. Nothing else of the cell changes.
pub proof fn lemma_retired_cell(m: StoreModel, id: CellId, cell: CellModel, done: u64, n: int)
    requires
        m.pairs(id, cell),
        cell.pinned.len() == cell.rows(),
        0 <= n <= m.state(id).pending.len(),
        forall|i: int| 0 <= i < n ==> (#[trigger] m.state(id).pending[i]).serial <= done,
        n < m.state(id).pending.len() ==> m.state(id).pending[n].serial > done,
    ensures
        ({
            let pending = m.state(id).pending;
            let out = cell_retired(m, id, cell, done);
            let after = out.1;
            &&& out.0.state(id).pending == pending.skip(n)
            &&& forall|i: int| 0 <= i < n ==> !after.pinned[(#[trigger] pending[i]).pending.row as int]
            &&& forall|r: int|
                0 <= r < cell.rows() && (forall|i: int| 0 <= i < n ==> (#[trigger] pending[i]).pending.row != r)
                    ==> #[trigger] after.pinned[r] == cell.pinned[r]
            &&& forall|i: int|
                0 <= i < n ==> after.generations[(#[trigger] pending[i]).pending.slot as int]
                    == pending[i].pending.next_gen
            &&& forall|s: int|
                0 <= s < cell.generations.len() && (forall|i: int|
                    0 <= i < n ==> (#[trigger] pending[i]).pending.slot != s) ==> #[trigger] after.generations[s]
                    == cell.generations[s]
            &&& forall|s: u32|
                #[trigger] after.free_slots.contains(s) <==> cell.free_slots.contains(s) || exists|i: int|
                    0 <= i < n && (#[trigger] pending[i]).pending.slot == s && pending[i].pending.next_gen < u32::MAX
            &&& after.slots == cell.slots
            &&& after.live == cell.live
            &&& after.columns == cell.columns
            &&& after.capacity == cell.capacity
            &&& after.slot_rows == cell.slot_rows
        }),
{
    let pending = m.state(id).pending;
    lemma_ready_front(pending, done);
    let c = ready_count(pending, done) as int;
    assert(c == n) by {
        if c < n {
            assert(pending[c].serial <= done);
        } else if n < c {
            assert(pending[n].serial <= done);
        }
    }
    lemma_committed_parts(m, id, cell, pending, n);
    lemma_committed_slots(m, id, cell, pending, n);
}

proof fn lemma_committed_alone(m: StoreModel, id: CellId, cell: CellModel, pending: Seq<QueuedRetire>, n: int)
    ensures
        committed(m, id, cell, pending, n).1 == cell_committed(cell, pending, n),
    decreases n,
{
    if n > 0 {
        lemma_committed_alone(m, id, cell, pending, n - 1);
    }
}

/// A cell that is evicted has all its waiting retirements committed: none of their rows
/// is pinned, and their slots have moved on. Its rows and their bytes stay.
pub proof fn lemma_evicted_cell(m: StoreModel, id: CellId, cell: CellModel)
    requires
        m.pairs(id, cell),
        cell.pinned.len() == cell.rows(),
    ensures
        ({
            let pending = m.state(id).pending;
            let after = cell_committed(cell, pending, pending.len() as int);
            &&& forall|i: int| 0 <= i < pending.len() ==> !after.pinned[(#[trigger] pending[i]).pending.row as int]
            &&& forall|r: int|
                0 <= r < cell.rows() && (forall|i: int|
                    0 <= i < pending.len() ==> (#[trigger] pending[i]).pending.row != r) ==> #[trigger] after.pinned[r]
                    == cell.pinned[r]
            &&& forall|i: int|
                0 <= i < pending.len() ==> after.generations[(#[trigger] pending[i]).pending.slot as int]
                    == pending[i].pending.next_gen
            &&& forall|s: u32|
                #[trigger] after.free_slots.contains(s) <==> cell.free_slots.contains(s) || exists|i: int|
                    0 <= i < pending.len() && (#[trigger] pending[i]).pending.slot == s && pending[i].pending.next_gen
                        < u32::MAX
            &&& after.slots == cell.slots
            &&& after.live == cell.live
            &&& after.columns == cell.columns
        }),
{
    let pending = m.state(id).pending;
    let n = pending.len() as int;
    lemma_committed_alone(m, id, cell, pending, n);
    lemma_committed_parts(m, id, cell, pending, n);
    lemma_committed_slots(m, id, cell, pending, n);
}

/// The retirements of every cell are committed, each as for that cell alone.
pub proof fn lemma_every_cell_is_retired(m: StoreModel, slots: Seq<SlotModel>, done: u64, n: int)
    requires
        0 <= n <= slots.len(),
        forall|k: int| 0 <= k < slots.len() ==> m.resident((#[trigger] slots[k]).id),
        forall|i: int, j: int| 0 <= i < j < slots.len() ==> (#[trigger] slots[i]).id != (#[trigger] slots[j]).id,
    ensures
        ({
            let out = slots_retired(m, slots, done, n);
            &&& out.1.len() == slots.len()
            &&& out.0.cells.len() == m.cells.len()
            &&& forall|k: int|
                0 <= k < n ==> {
                    &&& (#[trigger] out.1[k]).id == slots[k].id
                    &&& out.1[k].cell == cell_retired(m, slots[k].id, slots[k].cell, done).1
                    &&& out.0.resident(slots[k].id)
                    &&& out.0.state(slots[k].id).pending == m.state(slots[k].id).pending.skip(
                        ready_count(m.state(slots[k].id).pending, done) as int,
                    )
                }
            &&& forall|k: int|
                n <= k < slots.len() ==> (#[trigger] out.1[k]) == slots[k] && out.0.resident(slots[k].id)
                    && out.0.state(slots[k].id) == m.state(slots[k].id)
        }),
    decreases n,
{
    if n > 0 {
        lemma_every_cell_is_retired(m, slots, done, n - 1);
        let before = slots_retired(m, slots, done, n - 1);
        let s = before.1[n - 1];
        assert(s == slots[n - 1]);
        let pending = m.state(s.id).pending;
        lemma_ready_front(pending, done);
        let c = ready_count(pending, done) as int;
        lemma_committed_parts(before.0, s.id, s.cell, pending, c);
        lemma_committed_parts(m, s.id, s.cell, pending, c);
        lemma_committed_alike(before.0, m, s.id, s.cell, pending, c);
        let out = slots_retired(m, slots, done, n);
        assert forall|k: int| 0 <= k < n implies {
            &&& (#[trigger] out.1[k]).id == slots[k].id
            &&& out.1[k].cell == cell_retired(m, slots[k].id, slots[k].cell, done).1
            &&& out.0.resident(slots[k].id)
            &&& out.0.state(slots[k].id).pending == m.state(slots[k].id).pending.skip(
                ready_count(m.state(slots[k].id).pending, done) as int,
            )
        } by {
            if k < n - 1 {
                assert(before.1[k].id == slots[k].id);
                assert(slots[k].id != slots[n - 1].id);
                assert(out.0.cells[slots[k].id.0 as int] == before.0.cells[slots[k].id.0 as int]);
            }
        }
        assert forall|k: int| n <= k < slots.len() implies (#[trigger] out.1[k]) == slots[k] && out.0.resident(
            slots[k].id,
        ) && out.0.state(slots[k].id) == m.state(slots[k].id) by {
            assert(before.1[k] == slots[k]);
            assert(slots[n - 1].id != slots[k].id);
            assert(out.0.cells[slots[k].id.0 as int] == before.0.cells[slots[k].id.0 as int]);
        }
    }
}

proof fn lemma_committed_alike(
    a: StoreModel,
    b: StoreModel,
    id: CellId,
    cell: CellModel,
    pending: Seq<QueuedRetire>,
    n: int,
)
    ensures
        committed(a, id, cell, pending, n).1 == committed(b, id, cell, pending, n).1,
    decreases n,
{
    if n > 0 {
        lemma_committed_alike(a, b, id, cell, pending, n - 1);
    }
}

/// Every cell whose gate is open is compacted, each as for that cell alone, and the
/// rows that were filled are marked for upload. The others are left as they are.
pub proof fn lemma_every_cell_is_compacted(m: StoreModel, slots: Seq<SlotModel>, gates: Seq<bool>, n: int)
    requires
        0 <= n <= slots.len(),
        gates.len() == slots.len(),
        forall|k: int| 0 <= k < slots.len() ==> m.resident((#[trigger] slots[k]).id),
        forall|i: int, j: int| 0 <= i < j < slots.len() ==> (#[trigger] slots[i]).id != (#[trigger] slots[j]).id,
    ensures
        ({
            let out = slots_compacted(m, slots, gates, n);
            &&& out.1.len() == slots.len()
            &&& out.0.cells.len() == m.cells.len()
            &&& forall|k: int|
                0 <= k < slots.len() ==> {
                    &&& (#[trigger] out.1[k]).id == slots[k].id
                    &&& out.0.resident(slots[k].id)
                    &&& k < n && gates[k] ==> {
                        &&& out.1[k].cell == compacted(slots[k].cell).0
                        &&& out.0.state(slots[k].id) == m.state(slots[k].id).rows_marked(compacted(slots[k].cell).1)
                    }
                    &&& !(k < n && gates[k]) ==> {
                        &&& out.1[k].cell == slots[k].cell
                        &&& out.0.state(slots[k].id) == m.state(slots[k].id)
                    }
                }
        }),
    decreases n,
{
    if n > 0 {
        lemma_every_cell_is_compacted(m, slots, gates, n - 1);
        let before = slots_compacted(m, slots, gates, n - 1);
        let out = slots_compacted(m, slots, gates, n);
        let s = before.1[n - 1];
        assert(s.id == slots[n - 1].id && s.cell == slots[n - 1].cell);
        assert forall|k: int| 0 <= k < slots.len() implies {
            &&& (#[trigger] out.1[k]).id == slots[k].id
            &&& out.0.resident(slots[k].id)
            &&& k < n && gates[k] ==> {
                &&& out.1[k].cell == compacted(slots[k].cell).0
                &&& out.0.state(slots[k].id) == m.state(slots[k].id).rows_marked(compacted(slots[k].cell).1)
            }
            &&& !(k < n && gates[k]) ==> {
                &&& out.1[k].cell == slots[k].cell
                &&& out.0.state(slots[k].id) == m.state(slots[k].id)
            }
        } by {
            assert(before.1[k].id == slots[k].id);
            if k < n - 1 {
                assert(slots[k].id != slots[n - 1].id);
            } else if n - 1 < k {
                assert(slots[n - 1].id != slots[k].id);
            }
            if gates[n - 1] && k != n - 1 {
                assert(out.0.cells[slots[k].id.0 as int] == before.0.cells[slots[k].id.0 as int]);
            }
        }
    }
}

/// A row is marked in every column exactly if it was marked before or is one of the
/// given rows.
pub proof fn lemma_marked_rows_of_columns(st: CellStateModel, rows: Seq<u32>)
    requires
        forall|c: int, i: int|
            0 <= c < st.columns.len() && 0 <= i < rows.len() ==> (#[trigger] rows[i]) < (
            #[trigger] st.columns[c]).mask.len(),
    ensures
        st.rows_marked(rows).columns.len() == st.columns.len(),
        forall|c: int| 0 <= c < st.columns.len() ==> (#[trigger] st.rows_marked(rows).columns[c]).mask.len()
            == st.columns[c].mask.len(),
        forall|c: int, r: int|
            0 <= c < st.columns.len() && 0 <= r < st.columns[c].mask.len() && r <= u32::MAX ==> (
            #[trigger] st.rows_marked(rows).columns[c].mask[r] <==> st.columns[c].mask[r] || rows.contains(r as u32)),
    decreases rows.len(),
{
    if rows.len() > 0 {
        let init = rows.drop_last();
        let before = st.rows_marked(init);
        let after = st.rows_marked(rows);
        assert forall|c: int, i: int| 0 <= c < st.columns.len() && 0 <= i < init.len() implies (#[trigger] init[i]) < (
        #[trigger] st.columns[c]).mask.len() by {
            assert(rows[i] < st.columns[c].mask.len());
        }
        lemma_marked_rows_of_columns(st, init);
        assert forall|c: int| 0 <= c < st.columns.len() implies (#[trigger] after.columns[c]).mask.len()
            == st.columns[c].mask.len() by {
            assert(before.columns[c].mask.len() == st.columns[c].mask.len());
            assert(rows[rows.len() - 1] < st.columns[c].mask.len());
        }
        assert forall|c: int, r: int|
            0 <= c < st.columns.len() && 0 <= r < st.columns[c].mask.len() && r <= u32::MAX implies (
        #[trigger] after.columns[c].mask[r] <==> st.columns[c].mask[r] || rows.contains(r as u32)) by {
            assert(before.columns[c].mask.len() == st.columns[c].mask.len());
            assert(rows[rows.len() - 1] < st.columns[c].mask.len());
            assert(before.columns[c].mask[r] <==> st.columns[c].mask[r] || init.contains(r as u32));
            assert(after.columns[c].mask == before.columns[c].mask.update(rows.last() as int, true));
            if rows.contains(r as u32) {
                let k = rows.index_of(r as u32);
                if k < init.len() {
                    assert(init[k] == r as u32);
                }
            }
            if init.contains(r as u32) {
                assert(rows[init.index_of(r as u32)] == r as u32);
            }
            assert(rows[rows.len() - 1] == rows.last());
        }
    }
}

/// Every cell is synchronized, each as for that cell alone: with rows in use nothing of
/// it is marked any more, and without any its marks stay.
pub proof fn lemma_every_cell_is_synced(m: StoreModel, slots: Seq<SlotModel>, n: int)
    requires
        0 <= n <= slots.len(),
        forall|k: int| 0 <= k < slots.len() ==> m.resident((#[trigger] slots[k]).id),
        forall|i: int, j: int| 0 <= i < j < slots.len() ==> (#[trigger] slots[i]).id != (#[trigger] slots[j]).id,
    ensures
        ({
            let out = slots_synced(m, slots, n);
            &&& out.cells.len() == m.cells.len()
            &&& forall|k: int|
                0 <= k < slots.len() ==> {
                    &&& out.resident((#[trigger] slots[k]).id)
                    &&& out.state(slots[k].id).pending == m.state(slots[k].id).pending
                    &&& out.state(slots[k].id).columns.len() == m.state(slots[k].id).columns.len()
                    &&& !(k < n && slots[k].cell.rows() > 0) ==> out.state(slots[k].id).columns == m.state(
                        slots[k].id,
                    ).columns
                }
            &&& forall|k: int, c: int, r: int|
                0 <= k < n && slots[k].cell.rows() > 0 && 0 <= c < m.state(slots[k].id).columns.len() && 0 <= r
                    < m.state(slots[k].id).columns[c].mask.len() ==> !#[trigger] out.state(slots[k].id).columns[c].mask[r]
        }),
    decreases n,
{
    if n > 0 {
        lemma_every_cell_is_synced(m, slots, n - 1);
        let before = slots_synced(m, slots, n - 1);
        let out = slots_synced(m, slots, n);
        let s = slots[n - 1];
        assert(before.resident(s.id));
        let st = before.state(s.id);
        assert(out.state(s.id) == st.synced(s.cell));
        assert(st.columns == m.state(s.id).columns);
        assert forall|k: int| 0 <= k < slots.len() implies {
            &&& out.resident((#[trigger] slots[k]).id)
            &&& out.state(slots[k].id).pending == m.state(slots[k].id).pending
            &&& out.state(slots[k].id).columns.len() == m.state(slots[k].id).columns.len()
            &&& !(k < n && slots[k].cell.rows() > 0) ==> out.state(slots[k].id).columns == m.state(slots[k].id).columns
        } by {
            assert(before.resident(slots[k].id));
            if k < n - 1 {
                assert(slots[k].id != slots[n - 1].id);
            } else if n - 1 < k {
                assert(slots[n - 1].id != slots[k].id);
            }
        }
        assert forall|k: int, c: int, r: int|
            0 <= k < n && slots[k].cell.rows() > 0 && 0 <= c < m.state(slots[k].id).columns.len() && 0 <= r < m.state(
                slots[k].id,
            ).columns[c].mask.len() implies !#[trigger] out.state(slots[k].id).columns[c].mask[r] by {
            if k < n - 1 {
                assert(slots[k].id != slots[n - 1].id);
                assert(out.state(slots[k].id) == before.state(slots[k].id));
                assert(!before.state(slots[k].id).columns[c].mask[r]);
            } else {
                assert(out.state(s.id).columns[c] == st.cleaned().columns[c]);
            }
        }
    }
}

/// As many rows are listed as there are marks.
pub proof fn lemma_marks_counted(marks: Seq<bool>, n: int)
    requires
        0 <= n <= marks.len(),
    ensures
        marked_below(marks, n).len() == live_count(marks.take(n)),
        marked_rows(marks).len() == live_count(marks),
    decreases n,
{
    reveal(Seq::filter);
    lemma_marks_below(marks, n);
    lemma_marks_below(marks, marks.len() as int);
    assert(marks.take(marks.len() as int) =~= marks);
}

proof fn lemma_marks_below(marks: Seq<bool>, n: int)
    requires
        0 <= n <= marks.len(),
    ensures
        marked_below(marks, n).len() == live_count(marks.take(n)),
    decreases n,
{
    reveal(Seq::filter);
    if n > 0 {
        lemma_marks_below(marks, n - 1);
        assert(marks.take(n).drop_last() =~= marks.take(n - 1));
    }
}

/// Synchronizing a column of a cell writes only rows in use that are marked: whatever
/// the device holds elsewhere stays. It counts the bytes of those rows, once each.
pub proof fn lemma_sync_spares_clean_rows(
    st: CellStateModel,
    k: int,
    cell: CellModel,
    mem: Seq<Seq<u8>>,
    stride: u32,
    i: int,
)
    requires
        st.well_formed(),
        st.fits(cell),
        0 <= k < st.columns.len(),
        mem.len() <= u32::MAX,
        st.row_base + st.row_capacity() <= mem.len(),
        0 <= i < mem.len(),
        st.row_base <= i < st.row_base + cell.rows() ==> !st.columns[k].mask[i - st.row_base],
    ensures
        run(mem, column_commands(st, k, cell), stride as nat).len() == mem.len(),
        run(mem, column_commands(st, k, cell), stride as nat)[i] == mem[i],
        live_count(st.columns[k].mask.take(cell.rows() as int)) * stride <= u64::MAX ==> column_stats(
            st,
            k,
            cell,
            stride,
        ).bytes == live_count(st.columns[k].mask.take(cell.rows() as int)) * stride,
{
    let mask = st.columns[k].mask;
    let n = cell.rows() as int;
    let rows = column_rows(st.columns[k], cell);
    lemma_marked_prefix(mask, n);
    lemma_marks_counted(mask, n);
    assert forall|j: int| 0 <= j < rows.len() implies (#[trigger] rows[j]) < n by {
        assert(rows.contains(rows[j]));
    }
    lemma_shifted(rows, st.row_base, n);
    let at = shifted(rows, st.row_base);
    let values = rows.map_values(|r: u32| cell.columns[st.columns[k].source as int].rows[r as int]);
    assert forall|j: int| 0 <= j < at.len() implies (#[trigger] at[j]) < mem.len() by {
        assert(at.contains(at[j]));
    }
    lemma_direct_writes(mem, at, values, stride as nat);
    assert(!at.contains(i as u32)) by {
        if at.contains(i as u32) {
            let r = i - st.row_base;
            assert(at.contains((st.row_base + r) as u32) <==> rows.contains(r as u32));
        }
    }
}

/// Synchronizing the slots of a cell writes only rows whose slot is not on the device
/// yet.
pub proof fn lemma_sync_spares_known_slots(st: CellStateModel, cell: CellModel, mem: Seq<Seq<u8>>, i: int)
    requires
        st.well_formed(),
        st.fits(cell),
        mem.len() <= u32::MAX,
        st.row_base + st.row_capacity() <= mem.len(),
        0 <= i < mem.len(),
        st.row_base <= i < st.row_base + cell.rows() ==> st.slot_shadow[i - st.row_base] == cell.slots[i - st.row_base],
    ensures
        run(mem, slot_commands(st, cell.slots), 4).len() == mem.len(),
        run(mem, slot_commands(st, cell.slots), 4)[i] == mem[i],
{
    let n = cell.rows() as int;
    let rows = stale_rows(st.slot_shadow, cell.slots, n);
    lemma_stale_rows(st.slot_shadow, cell.slots, n);
    assert forall|j: int| 0 <= j < rows.len() implies (#[trigger] rows[j]) < n by {
        assert(rows.contains(rows[j]));
    }
    lemma_shifted(rows, st.row_base, n);
    let at = shifted(rows, st.row_base);
    let values = slot_words(st.slot_base, cell.slots, rows);
    assert forall|j: int| 0 <= j < at.len() implies (#[trigger] at[j]) < mem.len() by {
        assert(at.contains(at[j]));
    }
    lemma_direct_writes(mem, at, values, 4);
    assert(!at.contains(i as u32)) by {
        if at.contains(i as u32) {
            let r = i - st.row_base;
            assert(at.contains((st.row_base + r) as u32) <==> rows.contains(r as u32));
        }
    }
}

/// What was moved adds up.
pub proof fn lemma_stats_add_up(a: SyncStats, b: SyncStats)
    ensures
        a.ranges + b.ranges <= u32::MAX ==> SyncStats::sum(a, b).ranges == a.ranges + b.ranges,
        a.bytes + b.bytes <= u64::MAX ==> SyncStats::sum(a, b).bytes == a.bytes + b.bytes,
{
}

} // verus!
