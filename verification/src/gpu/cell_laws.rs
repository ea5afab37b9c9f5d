//! What the device shows of resident cells.

use vstd::prelude::*;
use crate::cell::{compacted, first_hole, lemma_compacted, lemma_first_hole, lemma_moved, lemma_popped, CellModel};
use crate::component::ComponentId;
use crate::gpu::cell_state::{column_commands, column_on_device, column_rows, lemma_column_uploaded, lemma_marked_prefix, lemma_shifted, shifted, CellStateModel};
use crate::gpu::cell_store::frame::{all_pair, columns_synced, slots_synced, SlotModel};
use crate::gpu::cell_store::{lemma_cells_disjoint, FixedModel, StoreModel};
use crate::gpu::device::{lemma_run_concat, patched, run};
use crate::gpu::upload::lemma_direct_writes;

verus! {

/// A write to a row that is marked keeps the device in step: it shows every row
/// without a mark.
pub proof fn lemma_write_keeps_column(
    st: CellStateModel,
    k: int,
    cell: CellModel,
    row: u32,
    bytes: Seq<u8>,
    mem: Seq<Seq<u8>>,
)
    requires
        st.well_formed(),
        cell.well_formed(),
        st.fits(cell),
        0 <= k < st.columns.len(),
        row < cell.rows(),
        column_on_device(st, k, cell, mem),
    ensures
        column_on_device(
            st.column_marked(k, row),
            k,
            cell.written(st.columns[k].source as int, row as int, bytes),
            mem,
        ),
{
    let after = st.column_marked(k, row);
    let next = cell.written(st.columns[k].source as int, row as int, bytes);
    assert(st.columns[k].mask.len() == st.row_capacity());
    assert(cell.column_ok(st.columns[k].source as int));
    assert forall|r: int| 0 <= r < next.rows() && !after.columns[k].mask[r] implies #[trigger] mem[after.row_base + r]
        == next.columns[after.columns[k].source as int].rows[r] by {
        assert(r != row);
        assert(mem[st.row_base + r] == cell.columns[st.columns[k].source as int].rows[r]);
    }
}

/// Compaction changes no row but those that it reports.
proof fn lemma_compacted_rows(m: CellModel, i: int)
    requires
        m.well_formed(),
        0 <= i < m.columns.len(),
    ensures
        compacted(m).0.columns.len() == m.columns.len(),
        forall|r: int|
            0 <= r < compacted(m).0.rows() && !compacted(m).1.contains(r as u32)
                ==> #[trigger] compacted(m).0.columns[i].rows[r] == m.columns[i].rows[r],
    decreases m.slots.len(),
{
    if m.slots.len() == 0 || m.pinned.last() {
    } else if !m.live.last() {
        lemma_popped(m);
        lemma_compacted(m.popped());
        lemma_compacted_rows(m.popped(), i);
        assert(m.column_ok(i));
    } else {
        lemma_first_hole(m, 0);
        match first_hole(m, 0) {
            None => {},
            Some(to) => {
                let last = m.slots.len() - 1;
                assert(to != last);
                lemma_moved(m, to);
                let next = m.copied_last(to).popped();
                lemma_compacted(next);
                lemma_compacted_rows(next, i);
                assert(m.column_ok(i));
                let rest = compacted(next);
                let moved = seq![to as u32] + rest.1;
                assert forall|r: int| 0 <= r < rest.0.rows() && !moved.contains(r as u32) implies #[trigger] rest.0.columns[i].rows[r]
                    == m.columns[i].rows[r] by {
                    assert(moved[0] == to as u32);
                    assert(r != to);
                    if rest.1.contains(r as u32) {
                        let x = rest.1.index_of(r as u32);
                        assert(moved[x + 1] == r as u32);
                    }
                    assert(next.columns[i].rows[r] == m.columns[i].rows[r]);
                }
            },
        }
    }
}

proof fn lemma_rows_marked(st: CellStateModel, rows: Seq<u32>, k: int)
    requires
        st.well_formed(),
        0 <= k < st.columns.len(),
        forall|i: int| 0 <= i < rows.len() ==> (#[trigger] rows[i]) < st.row_capacity(),
    ensures
        ({
            let after = st.rows_marked(rows);
            &&& after == (CellStateModel { columns: after.columns, ..st })
            &&& after.columns.len() == st.columns.len()
            &&& after.columns[k].source == st.columns[k].source
            &&& after.columns[k].mask.len() == st.columns[k].mask.len()
            &&& forall|r: int|
                0 <= r < st.row_capacity() ==> (#[trigger] after.columns[k].mask[r] <==> st.columns[k].mask[r]
                    || rows.contains(r as u32))
        }),
    decreases rows.len(),
{
    assert(st.columns[k].mask.len() == st.row_capacity());
    if rows.len() > 0 {
        let init = rows.drop_last();
        assert forall|i: int| 0 <= i < init.len() implies (#[trigger] init[i]) < st.row_capacity() by {
            assert(init[i] == rows[i]);
        }
        lemma_rows_marked(st, init, k);
        let before = st.rows_marked(init);
        let after = st.rows_marked(rows);
        assert(rows[rows.len() - 1] == rows.last());
        assert forall|r: int| 0 <= r < st.row_capacity() implies (#[trigger] after.columns[k].mask[r]
            <==> st.columns[k].mask[r] || rows.contains(r as u32)) by {
            assert(before.columns[k].mask[r] <==> st.columns[k].mask[r] || init.contains(r as u32));
            if rows.contains(r as u32) && r != rows.last() {
                let x = rows.index_of(r as u32);
                assert(init[x] == r as u32);
            }
            if init.contains(r as u32) {
                let x = init.index_of(r as u32);
                assert(rows[x] == r as u32);
            }
        }
    }
}

/// Compaction keeps the device in step: every row that it fills is marked.
pub proof fn lemma_compaction_keeps_column(st: CellStateModel, k: int, cell: CellModel, mem: Seq<Seq<u8>>)
    requires
        st.well_formed(),
        cell.well_formed(),
        st.fits(cell),
        0 <= k < st.columns.len(),
        column_on_device(st, k, cell, mem),
    ensures
        column_on_device(st.rows_marked(compacted(cell).1), k, compacted(cell).0, mem),
{
    let moved = compacted(cell).1;
    let next = compacted(cell).0;
    let after = st.rows_marked(moved);
    let source = st.columns[k].source as int;
    lemma_compacted(cell);
    lemma_compacted_rows(cell, source);
    lemma_rows_marked(st, moved, k);
    assert forall|r: int| 0 <= r < next.rows() && !after.columns[k].mask[r] implies #[trigger] mem[after.row_base + r]
        == next.columns[after.columns[k].source as int].rows[r] by {
        assert(!moved.contains(r as u32));
        assert(!st.columns[k].mask[r]);
        assert(mem[st.row_base + r] == cell.columns[source].rows[r]);
        assert(next.columns[source].rows[r] == cell.columns[source].rows[r]);
    }
}

/// The mirrored columns of a cell have device columns of their own.
pub open spec fn own_buffers(st: CellStateModel) -> bool {
    forall|i: int, j: int|
        0 <= i < st.columns.len() && 0 <= j < st.columns.len() && (#[trigger] st.columns[i]).buffer == (
        #[trigger] st.columns[j]).buffer ==> i == j
}

/// The commands on a device column after a cell was uploaded: those that were
/// there, and those of the one column of the cell that it mirrors.
proof fn lemma_commands_added(
    fixed: Map<ComponentId, FixedModel>,
    st: CellStateModel,
    cell: CellModel,
    n: int,
    b: ComponentId,
)
    requires
        0 <= n <= st.columns.len(),
        own_buffers(st),
        fixed.contains_key(b),
    ensures
        ({
            let after = columns_synced(fixed, st, cell, n);
            &&& after.contains_key(b)
            &&& after[b].stride == fixed[b].stride
            &&& forall|k: int|
                0 <= k < n && (#[trigger] st.columns[k]).buffer == b ==> after[b].commands == fixed[b].commands
                    + column_commands(st, k, cell)
            &&& (forall|k: int| 0 <= k < n ==> (#[trigger] st.columns[k]).buffer != b) ==> after[b].commands
                == fixed[b].commands
        }),
    decreases n,
{
    if n > 0 {
        lemma_commands_added(fixed, st, cell, n - 1, b);
        let after = columns_synced(fixed, st, cell, n);
        if st.columns[n - 1].buffer == b {
            assert forall|k: int| 0 <= k < n - 1 implies (#[trigger] st.columns[k]).buffer != b by {
                assert(st.columns[n - 1].buffer == b);
            }
            assert forall|k: int| 0 <= k < n && (#[trigger] st.columns[k]).buffer == b implies after[b].commands
                == fixed[b].commands + column_commands(st, k, cell) by {
                assert(k == n - 1);
            }
        } else {
            assert forall|k: int| 0 <= k < n && (#[trigger] st.columns[k]).buffer == b implies after[b].commands
                == fixed[b].commands + column_commands(st, k, cell) by {
                assert(k < n - 1);
            }
            if forall|k: int| 0 <= k < n ==> (#[trigger] st.columns[k]).buffer != b {
                assert forall|k: int| 0 <= k < n - 1 implies (#[trigger] st.columns[k]).buffer != b by {}
            }
        }
    }
}

/// The upload of a column writes within the region of the cell.
proof fn lemma_upload_is_confined(st: CellStateModel, k: int, cell: CellModel, mem: Seq<Seq<u8>>, stride: nat)
    requires
        st.well_formed(),
        st.fits(cell),
        0 <= k < st.columns.len(),
        mem.len() <= u32::MAX,
        st.row_base + st.row_capacity() <= mem.len(),
    ensures
        ({
            let now = run(mem, column_commands(st, k, cell), stride);
            &&& now.len() == mem.len()
            &&& forall|i: int|
                0 <= i < mem.len() && !(st.row_base <= i < st.row_base + st.row_capacity()) ==> #[trigger] now[i]
                    == mem[i]
        }),
{
    let n = cell.rows() as int;
    let column = st.columns[k];
    let rows = column_rows(column, cell);
    assert(column.mask.len() == st.row_capacity());
    lemma_marked_prefix(column.mask, n);
    assert forall|i: int| 0 <= i < rows.len() implies (#[trigger] rows[i]) < n by {
        assert(rows.contains(rows[i]));
    }
    lemma_shifted(rows, st.row_base, n);
    let at = shifted(rows, st.row_base);
    let values = rows.map_values(|r: u32| cell.columns[column.source as int].rows[r as int]);
    assert forall|i: int| 0 <= i < at.len() implies (#[trigger] at[i]) < mem.len() by {
        assert(rows[i] < n);
    }
    lemma_direct_writes(mem, at, values, stride);
    let now = patched(mem, at, values);
    assert forall|i: int| 0 <= i < mem.len() && !(st.row_base <= i < st.row_base + st.row_capacity()) implies #[trigger] now[i]
        == mem[i] by {
        if at.contains(i as u32) {
            assert(st.row_base <= i < st.row_base + n);
        }
    }
}

/// Device memory of a column once its commands were executed on `mem`.
pub open spec fn fixed_shown(m: StoreModel, b: ComponentId, mem: Seq<Seq<u8>>) -> Seq<Seq<u8>> {
    run(mem, m.fixed[b].commands, m.fixed[b].stride as nat)
}

/// The regions of the given cells are within a device column, and their
/// mirrored columns have device columns of their own.
pub open spec fn regions_fit(m: StoreModel, slots: Seq<SlotModel>, len: nat) -> bool {
    &&& len <= u32::MAX
    &&& forall|i: int| 0 <= i < slots.len() ==> {
        let st = m.state((#[trigger] slots[i]).id);
        own_buffers(st) && st.row_base + st.row_capacity() <= len
    }
}

proof fn lemma_synced_so_far(
    m: StoreModel,
    slots: Seq<SlotModel>,
    n: int,
    b: ComponentId,
    mem: Seq<Seq<u8>>,
    i: int,
    k: int,
)
    requires
        m.well_formed(),
        all_pair(m, slots),
        0 <= n <= slots.len(),
        m.fixed.contains_key(b),
        regions_fit(m, slots, fixed_shown(m, b, mem).len()),
        0 <= i < slots.len(),
        0 <= k < m.state(slots[i].id).columns.len(),
        m.state(slots[i].id).columns[k].buffer == b,
        column_on_device(m.state(slots[i].id), k, slots[i].cell, fixed_shown(m, b, mem)),
    ensures
        ({
            let so_far = slots_synced(m, slots, n);
            let there = fixed_shown(m, b, mem);
            let now = fixed_shown(so_far, b, mem);
            let st = m.state(slots[i].id);
            &&& so_far.cells.len() == m.cells.len()
            &&& forall|j: int|
                n <= j < slots.len() ==> so_far.cells[(#[trigger] slots[j]).id.0 as int] == m.cells[slots[j].id.0 as int]
            &&& so_far.fixed.contains_key(b)
            &&& so_far.fixed[b].stride == m.fixed[b].stride
            &&& now.len() == there.len()
            &&& n <= i ==> forall|r: int|
                st.row_base <= r < st.row_base + st.row_capacity() ==> #[trigger] now[r] == there[r]
            &&& i < n ==> forall|r: int|
                0 <= r < slots[i].cell.rows() ==> #[trigger] now[st.row_base + r]
                    == slots[i].cell.columns[st.columns[k].source as int].rows[r]
        }),
    decreases n,
{
    if n > 0 {
        lemma_synced_so_far(m, slots, n - 1, b, mem, i, k);
        let before = slots_synced(m, slots, n - 1);
        let after = slots_synced(m, slots, n);
        let there = fixed_shown(m, b, mem);
        let mid = fixed_shown(before, b, mem);
        let now = fixed_shown(after, b, mem);
        let j = n - 1;
        let id = slots[j].id;
        let cell = slots[j].cell;
        let st_j = m.state(id);
        let st = m.state(slots[i].id);
        let stride = m.fixed[b].stride as nat;
        assert(before.cells[slots[j].id.0 as int] == m.cells[slots[j].id.0 as int]);
        assert(m.pairs(id, cell));
        assert(m.pairs(slots[i].id, slots[i].cell));
        assert(m.cell_ok(id.0 as int));
        assert(m.cell_ok(slots[i].id.0 as int));
        assert(before.state(id) == st_j);
        assert(own_buffers(st_j));
        lemma_commands_added(before.fixed, st_j, cell, st_j.columns.len() as int, b);
        assert forall|x: int| n <= x < slots.len() implies after.cells[(#[trigger] slots[x]).id.0 as int]
            == m.cells[slots[x].id.0 as int] by {
            assert(slots[j].id != slots[x].id);
            assert(before.cells[slots[x].id.0 as int] == m.cells[slots[x].id.0 as int]);
        }
        if exists|x: int| 0 <= x < st_j.columns.len() && (#[trigger] st_j.columns[x]).buffer == b {
            let x = choose|x: int| 0 <= x < st_j.columns.len() && (#[trigger] st_j.columns[x]).buffer == b;
            lemma_run_concat(mem, before.fixed[b].commands, column_commands(st_j, x, cell), stride);
            assert(now == run(mid, column_commands(st_j, x, cell), stride));
            lemma_upload_is_confined(st_j, x, cell, mid, stride);
            if i == j {
                assert(x == k);
                assert(column_on_device(st, k, cell, mid)) by {
                    assert forall|r: int| 0 <= r < cell.rows() && !st.columns[k].mask[r] implies #[trigger] mid[st.row_base
                        + r] == cell.columns[st.columns[k].source as int].rows[r] by {
                        assert(there[st.row_base + r] == cell.columns[st.columns[k].source as int].rows[r]);
                        assert(mid[st.row_base + r] == there[st.row_base + r]);
                    }
                }
                lemma_column_uploaded(st, k, cell, mid, stride);
            } else {
                if i < j {
                    assert(slots[i].id != slots[j].id);
                } else {
                    assert(slots[j].id != slots[i].id);
                }
                lemma_cells_disjoint(m, id, slots[i].id);
                if i < n {
                    assert forall|r: int| 0 <= r < slots[i].cell.rows() implies #[trigger] now[st.row_base + r]
                        == slots[i].cell.columns[st.columns[k].source as int].rows[r] by {
                        assert(now[st.row_base + r] == mid[st.row_base + r]);
                    }
                } else {
                    assert forall|r: int| st.row_base <= r < st.row_base + st.row_capacity() implies #[trigger] now[r]
                        == there[r] by {
                        assert(now[r] == mid[r]);
                    }
                }
            }
        } else {
            assert forall|x: int| 0 <= x < st_j.columns.len() implies (#[trigger] st_j.columns[x]).buffer != b by {}
            assert(now == mid);
            if i == j {
                assert(st_j.columns[k].buffer == b);
            }
        }
    }
}

/// Once the device has executed the commands of a synchronization, it shows
/// every row of every mirrored column of every cell that took part.
pub proof fn lemma_sync_shows_columns(
    m: StoreModel,
    slots: Seq<SlotModel>,
    b: ComponentId,
    mem: Seq<Seq<u8>>,
    i: int,
    k: int,
)
    requires
        m.well_formed(),
        all_pair(m, slots),
        m.fixed.contains_key(b),
        regions_fit(m, slots, fixed_shown(m, b, mem).len()),
        0 <= i < slots.len(),
        0 <= k < m.state(slots[i].id).columns.len(),
        m.state(slots[i].id).columns[k].buffer == b,
        column_on_device(m.state(slots[i].id), k, slots[i].cell, fixed_shown(m, b, mem)),
    ensures
        ({
            let after = slots_synced(m, slots, slots.len() as int);
            let now = fixed_shown(after, b, mem);
            let st = m.state(slots[i].id);
            forall|r: int|
                0 <= r < slots[i].cell.rows() ==> #[trigger] now[st.row_base + r]
                    == slots[i].cell.columns[st.columns[k].source as int].rows[r]
        }),
{
    lemma_synced_so_far(m, slots, slots.len() as int, b, mem, i, k);
}

} // verus!
