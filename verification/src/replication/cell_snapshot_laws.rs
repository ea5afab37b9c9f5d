//! What a capture of cells holds and what restoring one does, row by row.

use vstd::prelude::*;
use crate::cell::{column_index, CellModel};
use crate::component::ComponentId;
use crate::gpu::registration_laws::lemma_column_named;
use crate::replication::cell_snapshot::{captured_cell, captured_cells, captured_row, encoded_fields, packed, restored_cells, restored_component, restored_row};
use crate::replication::encoding::{field_encoded, OpaqueCodec};
use crate::replication::schema::{schema_of, FieldDescriptor, SchemaModel};
use crate::replication::snapshot::CellRowModel;
use crate::replication::types::{ErrorCode, ReplicationEncoding};

verus! {

/// A captured component holds, at the index of each of its state fields, the encoded
/// bytes of the value; of two fields with one index the later one counts.
pub proof fn lemma_encoded_bytes<C: OpaqueCodec>(
    cid: ComponentId,
    value: Seq<u8>,
    fields: Seq<FieldDescriptor>,
    codec: &C,
    i: int,
)
    requires
        0 <= i < fields.len(),
        fields[i].encoding != ReplicationEncoding::Event,
        forall|j: int| i < j < fields.len() ==> (#[trigger] fields[j]).field_index != fields[i].field_index,
    ensures
        fields[i].field_index < encoded_fields(cid, value, fields, codec).len(),
        encoded_fields(cid, value, fields, codec)[fields[i].field_index as int] == field_encoded(
            fields[i].encoding,
            codec,
            cid,
            fields[i].field_index,
            value,
        ).1,
    decreases fields.len(),
{
    let n = fields.len() - 1;
    if i < n {
        let init = fields.drop_last();
        assert(init[i] == fields[i]);
        assert forall|j: int| i < j < init.len() implies (#[trigger] init[j]).field_index != init[i].field_index by {
            assert(fields[j].field_index != fields[i].field_index);
        }
        lemma_encoded_bytes(cid, value, init, codec, i);
        assert(fields[n].field_index != fields[i].field_index);
    }
}

/// A captured row has a component for exactly the schemas that have state fields and
/// whose component type names a column with bytes, in the order of the schemas; it is
/// encoded from the bytes of the row in that column.
pub proof fn lemma_captured_row<C: OpaqueCodec>(cell: CellModel, row: int, reg: Seq<SchemaModel>, n: int, codec: &C)
    requires
        0 <= n <= reg.len(),
    ensures
        ({
            let out = captured_row(cell, row, reg, n, codec);
            &&& forall|k: int|
                0 <= k < out.len() ==> exists|s: int, i: int|
                    0 <= s < n && 0 <= i < cell.columns.len() && #[trigger] reg[s].component_type == (
                    #[trigger] cell.columns[i]).id && cell.columns[i].stride > 0 && (#[trigger] out[k]) == (
                        reg[s].component_type,
                        encoded_fields(reg[s].component_type, cell.columns[i].rows[row], reg[s].fields, codec),
                    )
            &&& forall|s: int, i: int, f: int|
                0 <= s < n && 0 <= i < cell.columns.len() && (#[trigger] cell.columns[i]).id == reg[s].component_type
                    && cell.columns[i].stride > 0 && (forall|j: int|
                    0 <= j < i ==> (#[trigger] cell.columns[j]).id != reg[s].component_type) && 0 <= f
                    < reg[s].fields.len() && (#[trigger] reg[s].fields[f]).encoding != ReplicationEncoding::Event
                    ==> out.contains(
                    (
                        reg[s].component_type,
                        encoded_fields(reg[s].component_type, cell.columns[i].rows[row], reg[s].fields, codec),
                    ),
                )
        }),
    decreases n,
{
    if n > 0 {
        lemma_captured_row(cell, row, reg, n - 1, codec);
        let before = captured_row(cell, row, reg, n - 1, codec);
        let out = captured_row(cell, row, reg, n, codec);
        let s0 = reg[n - 1];
        lemma_column_named(cell.columns, s0.component_type);
        assert forall|k: int| 0 <= k < out.len() implies exists|s: int, i: int|
            0 <= s < n && 0 <= i < cell.columns.len() && #[trigger] reg[s].component_type == (
            #[trigger] cell.columns[i]).id && cell.columns[i].stride > 0 && (#[trigger] out[k]) == (
                reg[s].component_type,
                encoded_fields(reg[s].component_type, cell.columns[i].rows[row], reg[s].fields, codec),
            ) by {
            if k < before.len() {
                assert(out[k] == before[k]);
                let (s, i) = choose|s: int, i: int|
                    0 <= s < n - 1 && 0 <= i < cell.columns.len() && #[trigger] reg[s].component_type == (
                    #[trigger] cell.columns[i]).id && cell.columns[i].stride > 0 && before[k] == (
                        reg[s].component_type,
                        encoded_fields(reg[s].component_type, cell.columns[i].rows[row], reg[s].fields, codec),
                    );
                assert(reg[s].component_type == cell.columns[i].id);
            } else {
                let i = column_index(cell.columns, s0.component_type).unwrap();
                assert(reg[n - 1].component_type == cell.columns[i].id);
            }
        }
        assert forall|s: int, i: int, f: int|
            0 <= s < n && 0 <= i < cell.columns.len() && (#[trigger] cell.columns[i]).id == reg[s].component_type
                && cell.columns[i].stride > 0 && (forall|j: int|
                0 <= j < i ==> (#[trigger] cell.columns[j]).id != reg[s].component_type) && 0 <= f
                < reg[s].fields.len() && (#[trigger] reg[s].fields[f]).encoding
                != ReplicationEncoding::Event implies out.contains(
            (
                reg[s].component_type,
                encoded_fields(reg[s].component_type, cell.columns[i].rows[row], reg[s].fields, codec),
            ),
        ) by {
            let want = (
                reg[s].component_type,
                encoded_fields(reg[s].component_type, cell.columns[i].rows[row], reg[s].fields, codec),
            );
            if s < n - 1 {
                assert(before.contains(want));
                assert(out[before.index_of(want)] == want);
            } else {
                let at = column_index(cell.columns, s0.component_type);
                assert(at is Some) by {
                    if at is None {
                        assert(cell.columns[i].id != s0.component_type);
                    }
                }
                let k = at.unwrap();
                if k < i {
                    assert(cell.columns[k].id != reg[s].component_type);
                } else if i < k {
                    assert(cell.columns[i].id != s0.component_type);
                }
                assert(out[before.len() as int] == want);
            }
        }
    }
}

/// A capture of a cell has one entry for each live row, in row order, and none for
/// others.
pub proof fn lemma_captured_cell<C: OpaqueCodec>(
    cell: CellModel,
    cell_index: usize,
    reg: Seq<SchemaModel>,
    n: int,
    codec: &C,
)
    requires
        0 <= n,
    ensures
        captured_cell(cell, cell_index, reg, n, codec) == Seq::new(n as nat, |r: int| r).filter(
            |r: int| cell.live[r],
        ).map_values(
            |r: int|
                CellRowModel { cell_index, components: captured_row(cell, r, reg, reg.len() as int, codec) },
        ),
    decreases n,
{
    reveal(Seq::filter);
    let live = |r: int| cell.live[r];
    let entry = |r: int|
        CellRowModel { cell_index, components: captured_row(cell, r, reg, reg.len() as int, codec) };
    let all = Seq::new(n as nat, |r: int| r);
    if n == 0 {
        assert(all =~= Seq::<int>::empty());
        assert(captured_cell(cell, cell_index, reg, n, codec) =~= all.filter(live).map_values(entry));
    } else {
        lemma_captured_cell(cell, cell_index, reg, n - 1, codec);
        let init = Seq::new((n - 1) as nat, |r: int| r);
        assert(all.drop_last() =~= init);
        assert(all.filter(live) == (if cell.live[n - 1] {
            init.filter(live).push(n - 1)
        } else {
            init.filter(live)
        }));
        assert(init.filter(live).push(n - 1).map_values(entry) =~= init.filter(live).map_values(entry).push(
            entry(n - 1),
        ));
    }
}

/// A capture of cells is the captures of each of them, one behind another: an entry is in
/// it exactly if it is in that of some cell.
pub proof fn lemma_captured_cells<C: OpaqueCodec>(
    cells: Seq<CellModel>,
    reg: Seq<SchemaModel>,
    n: int,
    codec: &C,
    i: int,
    r: int,
)
    requires
        0 <= i < n <= cells.len(),
        n <= usize::MAX,
        0 <= r < cells[i].rows(),
        cells[i].live[r],
    ensures
        captured_cells(cells, reg, n, codec).contains(
            CellRowModel {
                cell_index: i as usize,
                components: captured_row(cells[i], r, reg, reg.len() as int, codec),
            },
        ),
    decreases n,
{
    let want = CellRowModel {
        cell_index: i as usize,
        components: captured_row(cells[i], r, reg, reg.len() as int, codec),
    };
    let before = captured_cells(cells, reg, n - 1, codec);
    let here = captured_cell(cells[n - 1], (n - 1) as usize, reg, cells[n - 1].rows() as int, codec);
    let all = captured_cells(cells, reg, n, codec);
    if i < n - 1 {
        lemma_captured_cells(cells, reg, n - 1, codec, i, r);
        assert(all[before.index_of(want)] == want);
    } else {
        lemma_row_is_captured(cells[i], i as usize, reg, cells[i].rows() as int, codec, r);
        assert(all[before.len() + here.index_of(want)] == want);
    }
}

proof fn lemma_row_is_captured<C: OpaqueCodec>(
    cell: CellModel,
    cell_index: usize,
    reg: Seq<SchemaModel>,
    n: int,
    codec: &C,
    r: int,
)
    requires
        0 <= r < n,
        cell.live[r],
    ensures
        captured_cell(cell, cell_index, reg, n, codec).contains(
            CellRowModel { cell_index, components: captured_row(cell, r, reg, reg.len() as int, codec) },
        ),
    decreases n,
{
    let want = CellRowModel { cell_index, components: captured_row(cell, r, reg, reg.len() as int, codec) };
    let out = captured_cell(cell, cell_index, reg, n, codec);
    if r < n - 1 {
        lemma_row_is_captured(cell, cell_index, reg, n - 1, codec, r);
        let before = captured_cell(cell, cell_index, reg, n - 1, codec);
        assert(out[before.index_of(want)] == want);
    } else {
        assert(out.last() == want);
    }
}

/// The bytes of the fields from the `k`th on, one behind another; fields without bytes
/// have none.
pub open spec fn joined(fields: Seq<FieldDescriptor>, data: Seq<Seq<u8>>, k: int) -> Seq<u8>
    decreases fields.len() - k,
{
    if k < 0 || k >= fields.len() {
        Seq::empty()
    } else if fields[k].encoding == ReplicationEncoding::Event || fields[k].field_index >= data.len() {
        joined(fields, data, k + 1)
    } else {
        data[fields[k].field_index as int] + joined(fields, data, k + 1)
    }
}

/// Plain fields are packed into a row one behind another, in schema order, from the given
/// place on, as far as the row goes. What they do not reach stays.
pub proof fn lemma_plain_fields_are_packed<C: OpaqueCodec>(
    cid: ComponentId,
    dst: Seq<u8>,
    offset: int,
    fields: Seq<FieldDescriptor>,
    k: int,
    data: Seq<Seq<u8>>,
    codec: &C,
)
    requires
        0 <= offset,
        0 <= k <= fields.len(),
        forall|i: int|
            k <= i < fields.len() ==> (#[trigger] fields[i]).encoding == ReplicationEncoding::Pod || fields[i].encoding
                == ReplicationEncoding::Serialized || fields[i].encoding == ReplicationEncoding::GpuHandle
                || fields[i].encoding == ReplicationEncoding::Event,
    ensures
        packed(cid, dst, offset, fields, k, data, codec).1 == Ok::<(), ErrorCode>(()),
        packed(cid, dst, offset, fields, k, data, codec).0.len() == dst.len(),
        forall|i: int|
            0 <= i < dst.len() ==> (#[trigger] packed(cid, dst, offset, fields, k, data, codec).0[i]) == (if offset <= i
                < offset + joined(fields, data, k).len() {
                joined(fields, data, k)[i - offset]
            } else {
                dst[i]
            }),
    decreases fields.len() - k,
{
    if k < fields.len() && offset < dst.len() {
        let f = fields[k];
        let all = joined(fields, data, k);
        let rest = joined(fields, data, k + 1);
        if f.encoding == ReplicationEncoding::Event || f.field_index >= data.len() {
            lemma_plain_fields_are_packed(cid, dst, offset, fields, k + 1, data, codec);
        } else {
            let raw = data[f.field_index as int];
            assert(all == raw + rest);
            if raw.len() == 0 {
                assert(all =~= rest);
                lemma_plain_fields_are_packed(cid, dst, offset, fields, k + 1, data, codec);
            } else {
                let room = (dst.len() - offset) as nat;
                let width = if raw.len() < room {
                    raw.len()
                } else {
                    room
                };
                let part = raw.take(width as int);
                let next = crate::replication::cell_snapshot::spliced(dst, offset, part);
                assert(crate::replication::cell_snapshot::field_width(f.encoding, raw.len(), room) == width);
                assert(next.len() == dst.len());
                lemma_plain_fields_are_packed(cid, next, offset + width, fields, k + 1, data, codec);
                let out = packed(cid, dst, offset, fields, k, data, codec);
                assert(out == packed(cid, next, offset + width, fields, k + 1, data, codec));
                assert forall|i: int| 0 <= i < dst.len() implies (#[trigger] out.0[i]) == (if offset <= i < offset
                    + all.len() {
                    all[i - offset]
                } else {
                    dst[i]
                }) by {
                    assert(packed(cid, next, offset + width, fields, k + 1, data, codec).0[i] == out.0[i]);
                    if i < offset {
                        assert(next[i] == dst[i]);
                    } else if i < offset + width {
                        assert(next[i] == part[i - offset]);
                    } else if width < raw.len() {
                        assert(offset + width == dst.len());
                    } else {
                        assert(next[i] == dst[i]);
                        if i < offset + all.len() {
                            assert(all[i - offset] == rest[i - offset - width]);
                        }
                    }
                }
            }
        }
    }
}

/// How many of the first `n` rows of a snapshot are of cell `i`.
pub open spec fn rows_of(rows: Seq<CellRowModel>, n: int, i: int) -> nat {
    rows.take(n).filter(|r: CellRowModel| r.cell_index == i).len()
}

proof fn lemma_restored_row_keeps<C: OpaqueCodec>(
    cell: CellModel,
    row: int,
    components: Seq<(ComponentId, Seq<Seq<u8>>)>,
    reg: Seq<SchemaModel>,
    codec: &C,
)
    requires
        0 <= row,
        forall|c: int| 0 <= c < cell.columns.len() ==> row < (#[trigger] cell.columns[c]).rows.len(),
    ensures
        ({
            let out = restored_row(cell, row, components, reg, codec).0;
            &&& out.slots == cell.slots
            &&& out.live == cell.live
            &&& out.pinned == cell.pinned
            &&& out.generations == cell.generations
            &&& out.slot_rows == cell.slot_rows
            &&& out.free_slots == cell.free_slots
            &&& out.capacity == cell.capacity
            &&& out.columns.len() == cell.columns.len()
            &&& forall|c: int|
                0 <= c < cell.columns.len() ==> (#[trigger] out.columns[c]).id == cell.columns[c].id
                    && out.columns[c].stride == cell.columns[c].stride && out.columns[c].rows.len()
                    == cell.columns[c].rows.len()
            &&& forall|c: int, r: int|
                0 <= c < cell.columns.len() && 0 <= r < cell.columns[c].rows.len() && r != row
                    ==> #[trigger] out.columns[c].rows[r] == cell.columns[c].rows[r]
        }),
    decreases components.len(),
{
    if components.len() > 0 {
        let before = restored_row(cell, row, components.drop_last(), reg, codec);
        let last = components.last();
        lemma_restored_row_keeps(cell, row, components.drop_last(), reg, codec);
        if before.1 is Ok {
            lemma_column_named(before.0.columns, last.0);
            let out = restored_component(before.0, row, last, reg, codec).0;
            if let (Some(s), Some(i)) = (schema_of(reg, last.0), column_index(before.0.columns, last.0)) {
                assert forall|c: int| 0 <= c < cell.columns.len() implies (#[trigger] out.columns[c]).id
                    == cell.columns[c].id && out.columns[c].stride == cell.columns[c].stride
                    && out.columns[c].rows.len() == cell.columns[c].rows.len() by {
                    assert(before.0.columns[c].id == cell.columns[c].id);
                    assert(row < cell.columns[c].rows.len());
                }
                assert forall|c: int, r: int|
                    0 <= c < cell.columns.len() && 0 <= r < cell.columns[c].rows.len() && r != row implies #[trigger] out.columns[c].rows[r]
                    == cell.columns[c].rows[r] by {
                    assert(before.0.columns[c].rows[r] == cell.columns[c].rows[r]);
                    assert(before.0.columns[c].rows.len() == cell.columns[c].rows.len());
                    assert(row < cell.columns[c].rows.len());
                }
            }
        }
    }
}

/// Restoring the rows of a snapshot adds a live row at the end of its cell for each, up to
/// the first that fails, and leaves the rows that were there as they are. Where it
/// succeeds, every row names a cell.
pub proof fn lemma_restored_rows_are_added<C: OpaqueCodec>(
    cells: Seq<CellModel>,
    rows: Seq<CellRowModel>,
    reg: Seq<SchemaModel>,
    codec: &C,
)
    requires
        forall|i: int| 0 <= i < cells.len() ==> {
            &&& (#[trigger] cells[i]).live.len() == cells[i].rows()
            &&& forall|c: int|
                0 <= c < cells[i].columns.len() ==> (#[trigger] cells[i].columns[c]).rows.len() == cells[i].rows()
        },
    ensures
        ({
            let (after, out) = restored_cells(cells, rows, reg, codec);
            &&& after.len() == cells.len()
            &&& forall|i: int|
                0 <= i < cells.len() ==> {
                    &&& (#[trigger] after[i]).rows() >= cells[i].rows()
                    &&& after[i].live.len() == after[i].rows()
                    &&& after[i].columns.len() == cells[i].columns.len()
                    &&& out is Ok ==> after[i].rows() == cells[i].rows() + rows_of(rows, rows.len() as int, i)
                    &&& forall|c: int|
                        0 <= c < cells[i].columns.len() ==> (#[trigger] after[i].columns[c]).rows.len()
                            == after[i].rows()
                    &&& forall|r: int| cells[i].rows() <= r < after[i].rows() ==> #[trigger] after[i].live[r]
                    &&& forall|r: int|
                        0 <= r < cells[i].rows() ==> (#[trigger] after[i].live[r]) == cells[i].live[r]
                    &&& forall|c: int, r: int|
                        0 <= c < cells[i].columns.len() && 0 <= r < cells[i].rows()
                            ==> #[trigger] after[i].columns[c].rows[r] == cells[i].columns[c].rows[r]
                }
            &&& out is Ok ==> forall|k: int| 0 <= k < rows.len() ==> (#[trigger] rows[k]).cell_index < cells.len()
        }),
    decreases rows.len(),
{
    reveal(Seq::filter);
    let n = rows.len() as int;
    assert(rows.take(n) =~= rows);
    if n > 0 {
        let init = rows.drop_last();
        assert(init.take(n - 1) =~= init);
        lemma_restored_rows_are_added(cells, init, reg, codec);
        let (before, done) = restored_cells(cells, init, reg, codec);
        let (after, out) = restored_cells(cells, rows, reg, codec);
        let r0 = rows.last();
        assert(rows[n - 1] == r0);
        assert forall|i: int| #[trigger] rows_of(rows, n, i) == rows_of(init, n - 1, i) + (if r0.cell_index == i {
            1nat
        } else {
            0nat
        }) by {}
        if done is Ok && r0.cell_index < cells.len() && before[r0.cell_index as int].has_room() {
            let at = r0.cell_index as int;
            let cell = before[at];
            let grown = cell.allocated();
            let row = cell.rows() as int;
            assert forall|c: int| 0 <= c < grown.columns.len() implies row < (#[trigger] grown.columns[c]).rows.len() by {
                assert(before[at].columns[c].rows.len() == before[at].rows());
            }
            lemma_restored_row_keeps(grown, row, r0.components, reg, codec);
            let filled = restored_row(grown, row, r0.components, reg, codec).0;
            assert(after == before.update(at, filled));
            assert(cells[at].live.len() == cells[at].rows());
            assert forall|i: int| 0 <= i < cells.len() implies {
                &&& (#[trigger] after[i]).rows() >= cells[i].rows()
                &&& after[i].live.len() == after[i].rows()
                &&& after[i].columns.len() == cells[i].columns.len()
                &&& out is Ok ==> after[i].rows() == cells[i].rows() + rows_of(rows, n, i)
                &&& forall|c: int|
                    0 <= c < cells[i].columns.len() ==> (#[trigger] after[i].columns[c]).rows.len() == after[i].rows()
                &&& forall|r: int| cells[i].rows() <= r < after[i].rows() ==> #[trigger] after[i].live[r]
                &&& forall|r: int| 0 <= r < cells[i].rows() ==> (#[trigger] after[i].live[r]) == cells[i].live[r]
                &&& forall|c: int, r: int|
                    0 <= c < cells[i].columns.len() && 0 <= r < cells[i].rows() ==> #[trigger] after[i].columns[c].rows[r]
                        == cells[i].columns[c].rows[r]
            } by {
                assert(before[i].rows() >= cells[i].rows());
                assert(rows_of(rows, n, i) == rows_of(init, n - 1, i) + (if r0.cell_index == i {
                    1nat
                } else {
                    0nat
                }));
                if i == at {
                    assert forall|c: int| 0 <= c < cells[i].columns.len() implies (#[trigger] after[i].columns[c]).rows.len()
                        == after[i].rows() by {
                        assert(before[i].columns[c].rows.len() == before[i].rows());
                        assert(grown.columns[c].rows.len() == before[i].rows() + 1);
                    }
                    assert forall|r: int| 0 <= r < cells[i].rows() implies (#[trigger] after[i].live[r])
                        == cells[i].live[r] by {
                        assert(before[i].live[r] == cells[i].live[r]);
                    }
                    assert forall|r: int| cells[i].rows() <= r < after[i].rows() implies #[trigger] after[i].live[r] by {
                        if r < before[i].rows() {
                            assert(before[i].live[r]);
                        }
                    }
                    assert forall|c: int, r: int|
                        0 <= c < cells[i].columns.len() && 0 <= r < cells[i].rows() implies #[trigger] after[i].columns[c].rows[r]
                        == cells[i].columns[c].rows[r] by {
                        assert(before[i].columns[c].rows.len() == before[i].rows());
                        assert(before[i].columns[c].rows[r] == cells[i].columns[c].rows[r]);
                        assert(grown.columns[c].rows[r] == before[i].columns[c].rows[r]);
                    }
                } else {
                    assert(after[i] == before[i]);
                }
            }
            if out is Ok {
                assert forall|k: int| 0 <= k < rows.len() implies (#[trigger] rows[k]).cell_index < cells.len() by {
                    if k < n - 1 {
                        assert(init[k] == rows[k]);
                    }
                }
            }
        }
    }
}

} // verus!
