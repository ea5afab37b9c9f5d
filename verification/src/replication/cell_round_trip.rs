//! Rows of spatial cells that were captured come back.

use vstd::prelude::*;
use crate::cell::{column_index, zeros, CellColumnModel, CellModel};
use crate::component::ComponentId;
use crate::replication::cell_snapshot::{captured_cell, captured_cells, captured_row, encoded_fields, has_state, packed, restored_cells, restored_component, restored_row};
use crate::replication::encoding::OpaqueCodec;
use crate::replication::schema::{has_type, type_index, unique_types, FieldDescriptor, SchemaModel};
use crate::replication::snapshot::CellRowModel;
use crate::replication::types::ErrorCode;

verus! {

/// Two lists of columns with the same ids and widths.
pub open spec fn same_columns(a: Seq<CellColumnModel>, b: Seq<CellColumnModel>) -> bool {
    &&& a.len() == b.len()
    &&& forall|j: int| 0 <= j < a.len() ==> (#[trigger] a[j]).id == b[j].id && a[j].stride == b[j].stride
}

proof fn lemma_same_index(a: Seq<CellColumnModel>, b: Seq<CellColumnModel>, id: ComponentId)
    requires
        same_columns(a, b),
    ensures
        column_index(a, id) == column_index(b, id),
        column_index(a, id) matches Some(j) ==> 0 <= j < a.len() && a[j].id == id,
    decreases a.len(),
{
    if a.len() > 0 {
        assert forall|j: int| 0 <= j < a.drop_last().len() implies (#[trigger] a.drop_last()[j]).id
            == b.drop_last()[j].id && a.drop_last()[j].stride == b.drop_last()[j].stride by {
            assert(a[j].id == b[j].id);
        }
        lemma_same_index(a.drop_last(), b.drop_last(), id);
        assert(a[a.len() - 1].id == b[b.len() - 1].id);
    }
}

/// The encoded fields of a value, packed into a fresh row, give the value back.
pub open spec fn comes_back<C: OpaqueCodec>(
    cid: ComponentId,
    value: Seq<u8>,
    fields: Seq<FieldDescriptor>,
    codec: &C,
) -> bool {
    packed(cid, zeros(value.len()), 0, fields, 0, encoded_fields(cid, value, fields, codec), codec) == (
        value,
        Ok::<(), ErrorCode>(()),
    )
}

/// A column of a cell is captured: it has bytes, it is the first with its id,
/// and one of the first `n` schemas is for it and has state.
pub open spec fn is_captured(cell: CellModel, reg: Seq<SchemaModel>, n: int, j: int) -> bool {
    &&& cell.columns[j].stride > 0
    &&& column_index(cell.columns, cell.columns[j].id) == Some(j)
    &&& exists|s: int|
        0 <= s < n && (#[trigger] reg[s]).component_type == cell.columns[j].id && has_state(reg[s].fields)
}

/// Every captured value of a row comes back.
pub open spec fn row_comes_back<C: OpaqueCodec>(cell: CellModel, r: int, reg: Seq<SchemaModel>, codec: &C) -> bool {
    forall|j: int, s: int|
        0 <= j < cell.columns.len() && 0 <= s < reg.len() && (#[trigger] reg[s]).component_type == (
        #[trigger] cell.columns[j]).id && has_state(reg[s].fields) && cell.columns[j].stride > 0 ==> comes_back(
            reg[s].component_type,
            cell.columns[j].rows[r],
            reg[s].fields,
            codec,
        )
}

/// `after` is `before` but for the bytes of one row, and has there what was
/// captured of row `r` of `cell` by the first `n` schemas, and zeros elsewhere.
spec fn row_filled(
    cell: CellModel,
    r: int,
    before: CellModel,
    after: CellModel,
    row: int,
    reg: Seq<SchemaModel>,
    n: int,
) -> bool {
    &&& after == (CellModel { columns: after.columns, ..before })
    &&& same_columns(before.columns, after.columns)
    &&& forall|j: int| 0 <= j < before.columns.len() ==> {
        let was = before.columns[j].rows;
        let now = #[trigger] after.columns[j].rows;
        &&& now.len() == was.len()
        &&& forall|k: int| 0 <= k < was.len() && k != row ==> now[k] == was[k]
        &&& now[row] == (if is_captured(cell, reg, n, j) {
            cell.columns[j].rows[r]
        } else {
            was[row]
        })
    }
}

proof fn lemma_row_filled<C: OpaqueCodec>(
    cell: CellModel,
    r: int,
    before: CellModel,
    row: int,
    reg: Seq<SchemaModel>,
    n: int,
    codec: &C,
) -> (after: CellModel)
    requires
        cell.well_formed(),
        0 <= r < cell.rows(),
        unique_types(reg),
        0 <= n <= reg.len(),
        same_columns(cell.columns, before.columns),
        row_comes_back(cell, r, reg, codec),
        forall|j: int|
            0 <= j < before.columns.len() ==> row < (#[trigger] before.columns[j]).rows.len()
                && before.columns[j].rows[row] == zeros(before.columns[j].stride as nat),
        0 <= row,
    ensures
        restored_row(before, row, captured_row(cell, r, reg, n, codec), reg, codec) == (
            after,
            Ok::<(), ErrorCode>(()),
        ),
        row_filled(cell, r, before, after, row, reg, n),
    decreases n,
{
    let list = captured_row(cell, r, reg, n, codec);
    if n == 0 {
        assert forall|j: int| !#[trigger] is_captured(cell, reg, 0, j) by {}
        before
    } else {
        let mid = lemma_row_filled(cell, r, before, row, reg, n - 1, codec);
        let s = reg[n - 1];
        lemma_same_index(cell.columns, cell.columns, s.component_type);
        assert forall|j: int| 0 <= j < cell.columns.len() && cell.columns[j].id != s.component_type implies (
        #[trigger] is_captured(cell, reg, n, j) <==> is_captured(cell, reg, n - 1, j)) by {
            lemma_captured_step(cell, reg, n, j);
        }
        match column_index(cell.columns, s.component_type) {
            Some(i) => {
                assert(column_index(cell.columns, cell.columns[i].id) == Some(i));
                assert forall|j: int| 0 <= j < cell.columns.len() && j != i implies (#[trigger] is_captured(
                    cell,
                    reg,
                    n,
                    j,
                ) <==> is_captured(cell, reg, n - 1, j)) by {
                    lemma_captured_step(cell, reg, n, j);
                }
                assert(!is_captured(cell, reg, n - 1, i)) by {
                    if is_captured(cell, reg, n - 1, i) {
                        let t = choose|t: int|
                            0 <= t < n - 1 && (#[trigger] reg[t]).component_type == cell.columns[i].id && has_state(
                                reg[t].fields,
                            );
                        assert(reg[t].component_type == reg[n - 1].component_type);
                    }
                }
                if cell.columns[i].stride > 0 && has_state(s.fields) {
                    let value = cell.columns[i].rows[r];
                    let entry = (s.component_type, encoded_fields(s.component_type, value, s.fields, codec));
                    assert(list.drop_last() =~= captured_row(cell, r, reg, n - 1, codec));
                    assert(list.last() == entry);
                    assert(cell.column_ok(i));
                    assert(value.len() == cell.columns[i].stride);
                    assert(comes_back(s.component_type, value, s.fields, codec));
                    assert(has_type(reg, s.component_type));
                    assert(type_index(reg, s.component_type) == n - 1) by {
                        let t = type_index(reg, s.component_type);
                        assert(reg[t].component_type == reg[n - 1].component_type);
                    }
                    assert(same_columns(cell.columns, mid.columns)) by {
                        assert forall|j: int| 0 <= j < cell.columns.len() implies (#[trigger] cell.columns[j]).id
                            == mid.columns[j].id && cell.columns[j].stride == mid.columns[j].stride by {
                            assert(before.columns[j].id == mid.columns[j].id);
                        }
                    }
                    lemma_same_index(cell.columns, mid.columns, s.component_type);
                    assert(mid.columns[i].rows[row] == zeros(value.len()));
                    let after = mid.written(i, row, value);
                    assert(restored_component(mid, row, entry, reg, codec) == (after, Ok::<(), ErrorCode>(())));
                    assert(is_captured(cell, reg, n, i)) by {
                        assert(reg[n - 1].component_type == cell.columns[i].id);
                    }
                    assert(row_filled(cell, r, before, after, row, reg, n)) by {
                        assert forall|j: int| 0 <= j < before.columns.len() implies (#[trigger] before.columns[j]).id
                            == after.columns[j].id && before.columns[j].stride == after.columns[j].stride by {
                            assert(before.columns[j].id == mid.columns[j].id);
                        }
                        assert forall|j: int| 0 <= j < before.columns.len() implies {
                            let was = before.columns[j].rows;
                            let now = #[trigger] after.columns[j].rows;
                            &&& now.len() == was.len()
                            &&& forall|k: int| 0 <= k < was.len() && k != row ==> now[k] == was[k]
                            &&& now[row] == (if is_captured(cell, reg, n, j) {
                                cell.columns[j].rows[r]
                            } else {
                                was[row]
                            })
                        } by {
                            assert(mid.columns[j].rows.len() == before.columns[j].rows.len());
                        }
                    }
                    after
                } else {
                    assert(list == captured_row(cell, r, reg, n - 1, codec));
                    assert(!is_captured(cell, reg, n, i)) by {
                        lemma_captured_step(cell, reg, n, i);
                    }
                    lemma_filled_more(cell, r, before, mid, row, reg, n);
                    mid
                }
            },
            None => {
                assert forall|j: int| 0 <= j < cell.columns.len() implies (#[trigger] is_captured(cell, reg, n, j)
                    <==> is_captured(cell, reg, n - 1, j)) by {
                    lemma_captured_step(cell, reg, n, j);
                }
                lemma_filled_more(cell, r, before, mid, row, reg, n);
                mid
            },
        }
    }
}

/// A further schema only matters to the column that it is for.
proof fn lemma_captured_step(cell: CellModel, reg: Seq<SchemaModel>, n: int, j: int)
    requires
        0 < n <= reg.len(),
        0 <= j < cell.columns.len(),
    ensures
        is_captured(cell, reg, n - 1, j) ==> is_captured(cell, reg, n, j),
        is_captured(cell, reg, n, j) && !is_captured(cell, reg, n - 1, j) ==> reg[n - 1].component_type
            == cell.columns[j].id && has_state(reg[n - 1].fields) && column_index(
            cell.columns,
            reg[n - 1].component_type,
        ) == Some(j) && cell.columns[j].stride > 0,
{
    if is_captured(cell, reg, n - 1, j) {
        let t = choose|t: int|
            0 <= t < n - 1 && (#[trigger] reg[t]).component_type == cell.columns[j].id && has_state(reg[t].fields);
        assert(0 <= t < n && reg[t].component_type == cell.columns[j].id && has_state(reg[t].fields));
    }
    if is_captured(cell, reg, n, j) && !is_captured(cell, reg, n - 1, j) {
        let t = choose|t: int|
            0 <= t < n && (#[trigger] reg[t]).component_type == cell.columns[j].id && has_state(reg[t].fields);
        if t < n - 1 {
            assert(is_captured(cell, reg, n - 1, j));
        }
    }
}

proof fn lemma_filled_more(
    cell: CellModel,
    r: int,
    before: CellModel,
    mid: CellModel,
    row: int,
    reg: Seq<SchemaModel>,
    n: int,
)
    requires
        row_filled(cell, r, before, mid, row, reg, n - 1),
        cell.columns.len() == before.columns.len(),
        forall|j: int|
            0 <= j < cell.columns.len() ==> (#[trigger] is_captured(cell, reg, n, j) <==> is_captured(
                cell,
                reg,
                n - 1,
                j,
            )),
    ensures
        row_filled(cell, r, before, mid, row, reg, n),
{
    assert forall|j: int| 0 <= j < before.columns.len() implies {
        let was = before.columns[j].rows;
        let now = #[trigger] mid.columns[j].rows;
        &&& now.len() == was.len()
        &&& forall|k: int| 0 <= k < was.len() && k != row ==> now[k] == was[k]
        &&& now[row] == (if is_captured(cell, reg, n, j) {
            cell.columns[j].rows[r]
        } else {
            was[row]
        })
    } by {
        assert(is_captured(cell, reg, n, j) <==> is_captured(cell, reg, n - 1, j));
    }
}

/// The live rows among the first `n`, in order.
pub open spec fn live_rows(live: Seq<bool>, n: int) -> Seq<int>
    decreases n,
{
    if n <= 0 {
        Seq::empty()
    } else if live[n - 1] {
        live_rows(live, n - 1).push(n - 1)
    } else {
        live_rows(live, n - 1)
    }
}

proof fn lemma_live_rows(live: Seq<bool>, n: int, k: int)
    requires
        0 <= n <= k <= live.len(),
    ensures
        live_rows(live, n).len() <= n,
        live_rows(live, n).len() <= live_rows(live, k).len(),
    decreases k,
{
    if n < k {
        lemma_live_rows(live, n, k - 1);
    } else if n > 0 {
        lemma_live_rows(live, n - 1, n - 1);
    }
}

/// A cell without rows.
pub open spec fn is_fresh(cell: CellModel) -> bool {
    &&& cell.capacity < u32::MAX
    &&& cell.slots.len() == 0
    &&& cell.live.len() == 0
    &&& cell.generations.len() == 0
    &&& cell.free_slots.len() == 0
    &&& forall|j: int| 0 <= j < cell.columns.len() ==> (#[trigger] cell.columns[j]).rows.len() == 0
}

/// `done` has a live row for each of `rows` of `cell`, in order, with the
/// captured values of that row.
pub open spec fn holds_rows(cell: CellModel, done: CellModel, rows: Seq<int>, reg: Seq<SchemaModel>) -> bool {
    &&& same_columns(cell.columns, done.columns)
    &&& done.rows() == rows.len()
    &&& done.live.len() == rows.len()
    &&& forall|k: int| 0 <= k < rows.len() ==> #[trigger] done.live[k]
    &&& forall|j: int| 0 <= j < done.columns.len() ==> (#[trigger] done.columns[j]).rows.len() == rows.len()
    &&& forall|j: int, k: int|
        0 <= j < cell.columns.len() && 0 <= k < rows.len() && #[trigger] is_captured(cell, reg, reg.len() as int, j)
            ==> #[trigger] done.columns[j].rows[k] == cell.columns[j].rows[rows[k]]
}

/// One more captured row was put back.
proof fn lemma_row_restored<C: OpaqueCodec>(
    cell: CellModel,
    r: int,
    done: CellModel,
    rows: Seq<int>,
    reg: Seq<SchemaModel>,
    codec: &C,
) -> (next: CellModel)
    requires
        cell.well_formed(),
        0 <= r < cell.rows(),
        unique_types(reg),
        row_comes_back(cell, r, reg, codec),
        holds_rows(cell, done, rows, reg),
        done.generations.len() == rows.len(),
        done.free_slots.len() == 0,
    ensures
        restored_row(
            done.allocated(),
            done.rows() as int,
            captured_row(cell, r, reg, reg.len() as int, codec),
            reg,
            codec,
        ) == (next, Ok::<(), ErrorCode>(())),
        holds_rows(cell, next, rows.push(r), reg),
        next.generations.len() == rows.len() + 1,
        next.free_slots.len() == 0,
        next.capacity == done.capacity,
{
    let n = reg.len() as int;
    let row = rows.len() as int;
    let wide = done.allocated();
    assert(same_columns(cell.columns, wide.columns)) by {
        assert forall|j: int| 0 <= j < cell.columns.len() implies (#[trigger] cell.columns[j]).id
            == wide.columns[j].id && cell.columns[j].stride == wide.columns[j].stride by {
            assert(cell.columns[j].id == done.columns[j].id);
        }
    }
    assert forall|j: int| 0 <= j < wide.columns.len() implies row < (#[trigger] wide.columns[j]).rows.len()
        && wide.columns[j].rows[row] == zeros(wide.columns[j].stride as nat) by {
        assert(done.columns[j].rows.len() == rows.len());
    }
    let next = lemma_row_filled(cell, r, wide, row, reg, n, codec);
    assert(same_columns(cell.columns, next.columns)) by {
        assert forall|j: int| 0 <= j < cell.columns.len() implies (#[trigger] cell.columns[j]).id
            == next.columns[j].id && cell.columns[j].stride == next.columns[j].stride by {
            assert(wide.columns[j].id == next.columns[j].id);
        }
    }
    assert forall|j: int| 0 <= j < next.columns.len() implies (#[trigger] next.columns[j]).rows.len() == rows.len()
        + 1 by {
        assert(next.columns[j].rows.len() == wide.columns[j].rows.len());
        assert(done.columns[j].rows.len() == rows.len());
    }
    let more = rows.push(r);
    assert forall|j: int, k: int|
        0 <= j < cell.columns.len() && 0 <= k < more.len() && #[trigger] is_captured(cell, reg, n, j) implies (
    #[trigger] next.columns[j].rows[k]) == cell.columns[j].rows[more[k]] by {
        assert(next.columns[j].rows.len() == wide.columns[j].rows.len());
        assert(done.columns[j].rows.len() == rows.len());
        if k < row {
            assert(wide.columns[j].rows[k] == done.columns[j].rows[k]);
            assert(done.columns[j].rows[k] == cell.columns[j].rows[rows[k]]);
        }
    }
    next
}

/// All captured rows of a cell were put back.
proof fn lemma_cell_restored<C: OpaqueCodec>(
    cells: Seq<CellModel>,
    at: int,
    cell: CellModel,
    reg: Seq<SchemaModel>,
    n: int,
    codec: &C,
) -> (done: CellModel)
    requires
        cell.well_formed(),
        0 <= at < cells.len() <= usize::MAX,
        0 <= n <= cell.rows(),
        unique_types(reg),
        is_fresh(cells[at]),
        same_columns(cell.columns, cells[at].columns),
        live_rows(cell.live, cell.rows() as int).len() <= cells[at].capacity,
        forall|r: int| 0 <= r < cell.rows() && cell.live[r] ==> #[trigger] row_comes_back(cell, r, reg, codec),
    ensures
        restored_cells(cells, captured_cell(cell, at as usize, reg, n, codec), reg, codec) == (
            cells.update(at, done),
            Ok::<(), ErrorCode>(()),
        ),
        holds_rows(cell, done, live_rows(cell.live, n), reg),
        done.generations.len() == live_rows(cell.live, n).len(),
        done.free_slots.len() == 0,
        done.capacity == cells[at].capacity,
    decreases n,
{
    if n == 0 {
        assert(cells.update(at, cells[at]) =~= cells);
        cells[at]
    } else {
        let before = lemma_cell_restored(cells, at, cell, reg, n - 1, codec);
        let rows = live_rows(cell.live, n - 1);
        if cell.live[n - 1] {
            assert(row_comes_back(cell, n - 1, reg, codec));
            let next = lemma_row_restored(cell, n - 1, before, rows, reg, codec);
            let list = captured_cell(cell, at as usize, reg, n, codec);
            assert(list.drop_last() =~= captured_cell(cell, at as usize, reg, n - 1, codec));
            lemma_live_rows(cell.live, n, cell.rows() as int);
            assert(before.has_room());
            assert(cells.update(at, before).update(at, next) =~= cells.update(at, next));
            next
        } else {
            before
        }
    }
}

/// Putting two lists of rows back one after the other is putting their
/// concatenation back.
proof fn lemma_restored_concat<C: OpaqueCodec>(
    cells: Seq<CellModel>,
    a: Seq<CellRowModel>,
    b: Seq<CellRowModel>,
    reg: Seq<SchemaModel>,
    codec: &C,
)
    requires
        restored_cells(cells, a, reg, codec).1 == Ok::<(), ErrorCode>(()),
        restored_cells(cells, a, reg, codec).0.len() == cells.len(),
    ensures
        restored_cells(cells, a + b, reg, codec) == restored_cells(
            restored_cells(cells, a, reg, codec).0,
            b,
            reg,
            codec,
        ),
    decreases b.len(),
{
    if b.len() == 0 {
        assert(a + b =~= a);
    } else {
        lemma_restored_concat(cells, a, b.drop_last(), reg, codec);
        assert((a + b).drop_last() =~= a + b.drop_last());
        assert((a + b).last() == b.last());
    }
}

/// Fresh cells can take back what was captured of cells.
pub open spec fn can_take_back<C: OpaqueCodec>(
    cells: Seq<CellModel>,
    fresh: Seq<CellModel>,
    reg: Seq<SchemaModel>,
    codec: &C,
) -> bool {
    &&& cells.len() == fresh.len()
    &&& cells.len() <= usize::MAX
    &&& forall|i: int| 0 <= i < cells.len() ==> {
        &&& (#[trigger] cells[i]).well_formed()
        &&& is_fresh(fresh[i])
        &&& same_columns(cells[i].columns, fresh[i].columns)
        &&& live_rows(cells[i].live, cells[i].rows() as int).len() <= fresh[i].capacity
        &&& forall|r: int|
            0 <= r < cells[i].rows() && cells[i].live[r] ==> #[trigger] row_comes_back(cells[i], r, reg, codec)
    }
}

proof fn lemma_cells_restored<C: OpaqueCodec>(
    cells: Seq<CellModel>,
    fresh: Seq<CellModel>,
    reg: Seq<SchemaModel>,
    n: int,
    codec: &C,
) -> (done: Seq<CellModel>)
    requires
        can_take_back(cells, fresh, reg, codec),
        unique_types(reg),
        0 <= n <= cells.len(),
    ensures
        restored_cells(fresh, captured_cells(cells, reg, n, codec), reg, codec) == (
            done,
            Ok::<(), ErrorCode>(()),
        ),
        done.len() == cells.len(),
        forall|i: int|
            0 <= i < n ==> holds_rows(
                #[trigger] cells[i],
                done[i],
                live_rows(cells[i].live, cells[i].rows() as int),
                reg,
            ),
        forall|i: int| n <= i < cells.len() ==> #[trigger] done[i] == fresh[i],
    decreases n,
{
    if n == 0 {
        fresh
    } else {
        let before = lemma_cells_restored(cells, fresh, reg, n - 1, codec);
        let cell = cells[n - 1];
        assert(before[n - 1] == fresh[n - 1]);
        let restored = lemma_cell_restored(before, n - 1, cell, reg, cell.rows() as int, codec);
        lemma_restored_concat(
            fresh,
            captured_cells(cells, reg, n - 1, codec),
            captured_cell(cell, (n - 1) as usize, reg, cell.rows() as int, codec),
            reg,
            codec,
        );
        before.update(n - 1, restored)
    }
}

/// A capture of cells, put back into fresh cells with the same columns, gives
/// every live row back, cell by cell and in order, with the value of every
/// captured column. Rows that were dead are left out.
///
/// This holds where every captured value comes back from its encoded fields, as
/// it does for a plain column.
pub proof fn lemma_captured_cells_come_back<C: OpaqueCodec>(
    cells: Seq<CellModel>,
    fresh: Seq<CellModel>,
    reg: Seq<SchemaModel>,
    codec: &C,
)
    requires
        can_take_back(cells, fresh, reg, codec),
        unique_types(reg),
    ensures
        ({
            let back = restored_cells(
                fresh,
                captured_cells(cells, reg, cells.len() as int, codec),
                reg,
                codec,
            );
            &&& back.1 == Ok::<(), ErrorCode>(())
            &&& back.0.len() == cells.len()
            &&& forall|i: int|
                0 <= i < cells.len() ==> holds_rows(
                    #[trigger] cells[i],
                    back.0[i],
                    live_rows(cells[i].live, cells[i].rows() as int),
                    reg,
                )
        }),
{
    let done = lemma_cells_restored(cells, fresh, reg, cells.len() as int, codec);
}

} // verus!
