//! Captures of the rows of spatial cells, and putting them back.

use vstd::prelude::*;
use crate::cell::{column_index, zeros, CellModel, CellStorage};
use crate::component::ComponentId;
use crate::replication::encoding::{decode_field_value, encode_field_value, field_decoded, field_encoded, lemma_field_value_round_trip, OpaqueCodec};
use crate::replication::schema::{schema_of, FieldDescriptor, ReplicationRegistry, SchemaModel};
use crate::replication::snapshot::{captured, indexable, pad_fields, row_snapshots, CapturedComponent, CellRowModel, CellRowSnapshot, EntitySnapshotModel, Snapshot, SnapshotModel};
use crate::replication::tracker::{put_field, set_field};
use crate::replication::types::{blobs, ErrorCode, ReplicationEncoding};

verus! {

/// The value of a row in every field's encoding, by field index. Events stay
/// empty.
pub open spec fn encoded_fields<C: OpaqueCodec>(
    cid: ComponentId,
    value: Seq<u8>,
    fields: Seq<FieldDescriptor>,
    codec: &C,
) -> Seq<Seq<u8>>
    decreases fields.len(),
{
    if fields.len() == 0 {
        Seq::empty()
    } else {
        let f = fields.last();
        let before = encoded_fields(cid, value, fields.drop_last(), codec);
        if f.encoding == ReplicationEncoding::Event {
            pad_fields(before, f.field_index as int)
        } else {
            put_field(before, f.field_index as int, field_encoded(f.encoding, codec, cid, f.field_index, value).1)
        }
    }
}

/// Whether some field is not an event.
pub open spec fn has_state(fields: Seq<FieldDescriptor>) -> bool {
    exists|i: int| 0 <= i < fields.len() && (#[trigger] fields[i]).encoding != ReplicationEncoding::Event
}

/// The components of a row that are captured: those of the first `n` schemas
/// that have state and a column with bytes in the cell.
pub open spec fn captured_row<C: OpaqueCodec>(
    cell: CellModel,
    row: int,
    reg: Seq<SchemaModel>,
    n: int,
    codec: &C,
) -> Seq<(ComponentId, Seq<Seq<u8>>)>
    decreases n,
{
    if n <= 0 {
        Seq::empty()
    } else {
        let before = captured_row(cell, row, reg, n - 1, codec);
        let s = reg[n - 1];
        match column_index(cell.columns, s.component_type) {
            Some(i) => if cell.columns[i].stride > 0 && has_state(s.fields) {
                before.push(
                    (s.component_type, encoded_fields(s.component_type, cell.columns[i].rows[row], s.fields, codec)),
                )
            } else {
                before
            },
            None => before,
        }
    }
}

/// The live rows among the first `n` rows of a cell, as they are captured.
pub open spec fn captured_cell<C: OpaqueCodec>(
    cell: CellModel,
    cell_index: usize,
    reg: Seq<SchemaModel>,
    n: int,
    codec: &C,
) -> Seq<CellRowModel>
    decreases n,
{
    if n <= 0 {
        Seq::empty()
    } else {
        let before = captured_cell(cell, cell_index, reg, n - 1, codec);
        if cell.live[n - 1] {
            before.push(
                CellRowModel {
                    cell_index,
                    components: captured_row(cell, n - 1, reg, reg.len() as int, codec),
                },
            )
        } else {
            before
        }
    }
}

/// The live rows of the first `n` cells, as they are captured.
pub open spec fn captured_cells<C: OpaqueCodec>(
    cells: Seq<CellModel>,
    reg: Seq<SchemaModel>,
    n: int,
    codec: &C,
) -> Seq<CellRowModel>
    decreases n,
{
    if n <= 0 {
        Seq::empty()
    } else {
        captured_cells(cells, reg, n - 1, codec) + captured_cell(
            cells[n - 1],
            (n - 1) as usize,
            reg,
            cells[n - 1].rows() as int,
            codec,
        )
    }
}

/// The contents of a list of cells.
pub open spec fn cell_models(v: Seq<CellStorage>) -> Seq<CellModel> {
    v.map_values(|c: CellStorage| c@)
}

/// How many bytes of a row a field takes: as many as were sent, or what its
/// encoding holds, and no more than remain.
pub open spec fn field_width(encoding: ReplicationEncoding, raw: nat, remaining: nat) -> nat {
    match encoding {
        ReplicationEncoding::Pod | ReplicationEncoding::Serialized
        | ReplicationEncoding::GpuHandle => if raw < remaining {
            raw
        } else {
            remaining
        },
        ReplicationEncoding::DeltaCompressed => if remaining < 8 {
            remaining
        } else {
            8
        },
        ReplicationEncoding::Opaque => remaining,
        ReplicationEncoding::Event => 0,
    }
}

/// `dst` with `part` from `offset` on.
pub open spec fn spliced(dst: Seq<u8>, offset: int, part: Seq<u8>) -> Seq<u8> {
    dst.take(offset) + part + dst.skip(offset + part.len())
}

/// A row after the fields from `k` on were decoded into it, one behind the
/// other from `offset` on, up to the first error.
pub open spec fn packed<C: OpaqueCodec>(
    cid: ComponentId,
    dst: Seq<u8>,
    offset: int,
    fields: Seq<FieldDescriptor>,
    k: int,
    data: Seq<Seq<u8>>,
    codec: &C,
) -> (Seq<u8>, Result<(), ErrorCode>)
    decreases fields.len() - k,
{
    if k < 0 || k >= fields.len() || offset >= dst.len() {
        (dst, Ok(()))
    } else {
        let f = fields[k];
        if f.encoding == ReplicationEncoding::Event || f.field_index >= data.len() || data[f.field_index as int].len()
            == 0 {
            packed(cid, dst, offset, fields, k + 1, data, codec)
        } else {
            let raw = data[f.field_index as int];
            let width = field_width(f.encoding, raw.len(), (dst.len() - offset) as nat);
            let (code, part) = field_decoded(f.encoding, codec, cid, f.field_index, raw, zeros(width));
            if code != ErrorCode::Success {
                (dst, Err(code))
            } else {
                packed(cid, spliced(dst, offset, part), offset + width, fields, k + 1, data, codec)
            }
        }
    }
}

/// A cell after one captured component was written to a row. A component type
/// without a schema, or without a column in the cell, is passed over.
pub open spec fn restored_component<C: OpaqueCodec>(
    cell: CellModel,
    row: int,
    component: (ComponentId, Seq<Seq<u8>>),
    reg: Seq<SchemaModel>,
    codec: &C,
) -> (CellModel, Result<(), ErrorCode>) {
    match (schema_of(reg, component.0), column_index(cell.columns, component.0)) {
        (Some(s), Some(i)) => {
            let out = packed(component.0, cell.columns[i].rows[row], 0, s.fields, 0, component.1, codec);
            (cell.written(i, row, out.0), out.1)
        },
        _ => (cell, Ok(())),
    }
}

/// A cell after captured components were written to a row, up to the first
/// error.
pub open spec fn restored_row<C: OpaqueCodec>(
    cell: CellModel,
    row: int,
    components: Seq<(ComponentId, Seq<Seq<u8>>)>,
    reg: Seq<SchemaModel>,
    codec: &C,
) -> (CellModel, Result<(), ErrorCode>)
    decreases components.len(),
{
    if components.len() == 0 {
        (cell, Ok(()))
    } else {
        let before = restored_row(cell, row, components.drop_last(), reg, codec);
        if before.1 is Ok {
            restored_component(before.0, row, components.last(), reg, codec)
        } else {
            before
        }
    }
}

/// The cells after captured rows were put back one after another, each into a
/// fresh row of its cell, up to the first error.
pub open spec fn restored_cells<C: OpaqueCodec>(
    cells: Seq<CellModel>,
    rows: Seq<CellRowModel>,
    reg: Seq<SchemaModel>,
    codec: &C,
) -> (Seq<CellModel>, Result<(), ErrorCode>)
    decreases rows.len(),
{
    if rows.len() == 0 {
        (cells, Ok(()))
    } else {
        let before = restored_cells(cells, rows.drop_last(), reg, codec);
        let r = rows.last();
        if before.1 is Err {
            before
        } else if r.cell_index >= cells.len() || !before.0[r.cell_index as int].has_room() {
            (before.0, Err(ErrorCode::InvalidData))
        } else {
            let cell = before.0[r.cell_index as int];
            let done = restored_row(cell.allocated(), cell.rows() as int, r.components, reg, codec);
            (before.0.update(r.cell_index as int, done.0), done.1)
        }
    }
}

/// The value of a row in every field's encoding.
fn encode_fields<C: OpaqueCodec>(
    cid: ComponentId,
    value: &Vec<u8>,
    fields: &Vec<FieldDescriptor>,
    codec: &C,
    Ghost(reg): Ghost<Seq<SchemaModel>>,
    Ghost(at): Ghost<int>,
) -> (out: (Vec<Vec<u8>>, bool))
    requires
        indexable(reg),
        0 <= at < reg.len(),
        reg[at].fields == fields@,
    ensures
        blobs(out.0@) == encoded_fields(cid, value@, fields@, codec),
        out.1 == has_state(fields@),
{
    let mut field_data: Vec<Vec<u8>> = Vec::new();
    let mut any: bool = false;
    let mut j: usize = 0;
    proof {
        assert(blobs(field_data@) =~= Seq::<Seq<u8>>::empty());
        assert(fields@.take(0) =~= Seq::<FieldDescriptor>::empty());
    }
    while j < fields.len()
        invariant
            j <= fields@.len(),
            indexable(reg),
            0 <= at < reg.len(),
            reg[at].fields == fields@,
            blobs(field_data@) == encoded_fields(cid, value@, fields@.take(j as int), codec),
            any == exists|i: int| 0 <= i < j && (#[trigger] fields@[i]).encoding != ReplicationEncoding::Event,
        decreases fields@.len() - j,
    {
        let f = fields[j];
        proof {
            assert(reg[at].fields[j as int] == f);
            assert(fields@.take(j + 1).drop_last() =~= fields@.take(j as int));
            assert(fields@.take(j + 1).last() == f);
        }
        let idx: usize = f.field_index as usize;
        let ghost before = blobs(field_data@);
        if f.encoding == ReplicationEncoding::Event {
            if idx >= field_data.len() {
                set_field(&mut field_data, idx, Vec::new());
            }
            proof {
                assert(blobs(field_data@) =~= pad_fields(before, idx as int));
            }
        } else {
            let mut buf: Vec<u8> = Vec::new();
            encode_field_value(&f.encoding, value.as_slice(), &mut buf, codec, cid, f.field_index);
            let ghost content = buf@;
            proof {
                assert(content =~= field_encoded(f.encoding, codec, cid, f.field_index, value@).1);
            }
            set_field(&mut field_data, idx, buf);
            any = true;
            proof {
                assert(fields@[j as int].encoding != ReplicationEncoding::Event);
            }
        }
        j = j + 1;
    }
    proof {
        assert(fields@.take(fields@.len() as int) =~= fields@);
    }
    (field_data, any)
}

/// The captured components of one row.
fn capture_row<C: OpaqueCodec>(cell: &CellStorage, row: u32, schema: &ReplicationRegistry, codec: &C) -> (components:
    Vec<CapturedComponent>)
    requires
        cell.well_formed(),
        row < cell@.rows(),
        indexable(schema@),
    ensures
        captured(components@) == captured_row(cell@, row as int, schema@, schema@.len() as int, codec),
{
    let ghost reg = schema@;
    let mut components: Vec<CapturedComponent> = Vec::new();
    let mut i: usize = 0;
    proof {
        assert(captured(components@) =~= Seq::<(ComponentId, Seq<Seq<u8>>)>::empty());
    }
    while i < schema.len()
        invariant
            i <= reg.len(),
            reg == schema@,
            indexable(reg),
            cell.well_formed(),
            row < cell@.rows(),
            captured(components@) == captured_row(cell@, row as int, reg, i as int, codec),
        decreases reg.len() - i,
    {
        let s = schema.at(i);
        let ghost before = captured(components@);
        if let Some(c) = cell.find_column(s.component_type) {
            let columns = cell.columns();
            proof {
                assert(cell@.column_ok(c as int));
                assert(cell@.columns[c as int] == columns@[c as int]@);
            }
            if columns[c].stride > 0 {
                let value = &columns[c].rows[row as usize];
                let (field_data, any) = encode_fields(
                    s.component_type,
                    value,
                    &s.fields,
                    codec,
                    Ghost(reg),
                    Ghost(i as int),
                );
                if any {
                    let ghost entry = (s.component_type, blobs(field_data@));
                    components.push((s.component_type, field_data));
                    proof {
                        assert(captured(components@) =~= before.push(entry));
                    }
                }
            }
        }
        i = i + 1;
    }
    components
}

impl Snapshot {
    /// A capture of all live rows of a list of cells, cell by cell in row
    /// order. Of each row, the columns whose component type has a schema are
    /// captured.
    pub fn capture_cells<C: OpaqueCodec>(
        cells: &Vec<CellStorage>,
        schema: &ReplicationRegistry,
        frame: u64,
        codec: &C,
    ) -> (snap: Snapshot)
        requires
            forall|i: int| 0 <= i < cells@.len() ==> (#[trigger] cells@[i]).well_formed(),
            indexable(schema@),
        ensures
            snap@ == (SnapshotModel {
                frame,
                entities: Seq::empty(),
                cell_rows: captured_cells(cell_models(cells@), schema@, cells@.len() as int, codec),
            }),
    {
        let ghost models = cell_models(cells@);
        let ghost reg = schema@;
        let mut cell_rows: Vec<CellRowSnapshot> = Vec::new();
        let mut i: usize = 0;
        proof {
            assert(row_snapshots(cell_rows@) =~= Seq::<CellRowModel>::empty());
        }
        while i < cells.len()
            invariant
                i <= cells@.len(),
                models == cell_models(cells@),
                reg == schema@,
                indexable(reg),
                forall|k: int| 0 <= k < cells@.len() ==> (#[trigger] cells@[k]).well_formed(),
                row_snapshots(cell_rows@) == captured_cells(models, reg, i as int, codec),
            decreases cells@.len() - i,
        {
            let cell = &cells[i];
            let ghost before = row_snapshots(cell_rows@);
            let rows: u32 = cell.rows_in_use();
            let mut row: u32 = 0;
            proof {
                assert(models[i as int] == cell@);
                assert(before + captured_cell(cell@, i, reg, 0, codec) =~= before);
            }
            while row < rows
                invariant
                    row <= rows,
                    rows == cell@.rows(),
                    cell.well_formed(),
                    reg == schema@,
                    indexable(reg),
                    row_snapshots(cell_rows@) == before + captured_cell(cell@, i, reg, row as int, codec),
                decreases rows - row,
            {
                let ghost so_far = row_snapshots(cell_rows@);
                if cell.is_row_live(row) {
                    let components = capture_row(cell, row, schema, codec);
                    let snap = CellRowSnapshot { cell_index: i, components };
                    let ghost model = snap@;
                    cell_rows.push(snap);
                    proof {
                        assert(row_snapshots(cell_rows@) =~= so_far.push(model));
                        assert(row_snapshots(cell_rows@) =~= before + captured_cell(
                            cell@,
                            i,
                            reg,
                            row + 1,
                            codec,
                        ));
                    }
                }
                row = row + 1;
            }
            i = i + 1;
        }
        let snap = Snapshot { frame, entities: Vec::new(), cell_rows };
        proof {
            assert(snap@.entities =~= Seq::<EntitySnapshotModel>::empty());
        }
        snap
    }

    /// Puts captured rows back into a list of cells, each into a fresh row of
    /// its cell, in captured order.
    ///
    /// A cell index that does not exist, a cell without room, and bytes that a
    /// field does not accept are errors; what was restored up to there stays.
    pub fn restore_to_cells<C: OpaqueCodec>(
        &self,
        cells: &mut Vec<CellStorage>,
        schema: &ReplicationRegistry,
        codec: &C,
    ) -> (out: Result<(), ErrorCode>)
        requires
            forall|i: int| 0 <= i < old(cells)@.len() ==> (#[trigger] old(cells)@[i]).well_formed(),
            schema.well_formed(),
        ensures
            forall|i: int| 0 <= i < final(cells)@.len() ==> (#[trigger] final(cells)@[i]).well_formed(),
            (cell_models(final(cells)@), out) == restored_cells(
                cell_models(old(cells)@),
                self@.cell_rows,
                schema@,
                codec,
            ),
    {
        let ghost start = cell_models(cells@);
        let ghost rows = self@.cell_rows;
        let ghost reg = schema@;
        let mut i: usize = 0;
        proof {
            assert(rows.take(0) =~= Seq::<CellRowModel>::empty());
        }
        while i < self.cell_rows.len()
            invariant
                i <= self.cell_rows@.len(),
                rows == self@.cell_rows,
                rows.len() == self.cell_rows@.len(),
                reg == schema@,
                schema.well_formed(),
                start == cell_models(old(cells)@),
                start.len() == cells@.len(),
                forall|k: int| 0 <= k < cells@.len() ==> (#[trigger] cells@[k]).well_formed(),
                (cell_models(cells@), Ok::<(), ErrorCode>(())) == restored_cells(
                    start,
                    rows.take(i as int),
                    reg,
                    codec,
                ),
            decreases self.cell_rows@.len() - i,
        {
            let snap = &self.cell_rows[i];
            let ghost before = cell_models(cells@);
            let ghost list = cells@;
            proof {
                assert(rows.take(i + 1).drop_last() =~= rows.take(i as int));
                assert(rows.take(i + 1).last() == snap@);
            }
            let at: usize = snap.cell_index;
            if at >= cells.len() {
                proof {
                    lemma_rows_stop(start, rows, reg, codec, i + 1);
                }
                return Err(ErrorCode::InvalidData);
            }
            proof {
                assert(before[at as int] == cells@[at as int]@);
            }
            let row: u32 = cells[at].rows_in_use();
            let handle = cells[at].allocate();
            if handle.is_none() {
                proof {
                    assert(cell_models(cells@) =~= before);
                    lemma_rows_stop(start, rows, reg, codec, i + 1);
                }
                return Err(ErrorCode::InvalidData);
            }
            let step = restore_row(&mut cells[at], row, &snap.components, schema, codec);
            proof {
                let next = restored_cells(start, rows.take(i + 1), reg, codec);
                assert(cell_models(cells@) =~= before.update(at as int, cells@[at as int]@));
                assert((cell_models(cells@), step) == next);
                assert forall|k: int| 0 <= k < cells@.len() implies (#[trigger] cells@[k]).well_formed() by {
                    if k != at {
                        assert(cells@[k] == list[k]);
                    }
                }
            }
            match step {
                Ok(done) => {
                    assert(done == ());
                },
                Err(e) => {
                    proof {
                        lemma_rows_stop(start, rows, reg, codec, i + 1);
                    }
                    return Err(e);
                },
            }
            i = i + 1;
        }
        proof {
            assert(rows.take(rows.len() as int) =~= rows);
        }
        Ok(())
    }
}

proof fn lemma_rows_stop<C: OpaqueCodec>(
    cells: Seq<CellModel>,
    rows: Seq<CellRowModel>,
    reg: Seq<SchemaModel>,
    codec: &C,
    k: int,
)
    requires
        0 <= k <= rows.len(),
        restored_cells(cells, rows.take(k), reg, codec).1 is Err,
    ensures
        restored_cells(cells, rows, reg, codec) == restored_cells(cells, rows.take(k), reg, codec),
    decreases rows.len(),
{
    if k == rows.len() {
        assert(rows.take(k) =~= rows);
    } else {
        assert(rows.drop_last().take(k) =~= rows.take(k));
        lemma_rows_stop(cells, rows.drop_last(), reg, codec, k);
    }
}

proof fn lemma_components_stop<C: OpaqueCodec>(
    cell: CellModel,
    row: int,
    components: Seq<(ComponentId, Seq<Seq<u8>>)>,
    reg: Seq<SchemaModel>,
    codec: &C,
    k: int,
)
    requires
        0 <= k <= components.len(),
        restored_row(cell, row, components.take(k), reg, codec).1 is Err,
    ensures
        restored_row(cell, row, components, reg, codec) == restored_row(
            cell,
            row,
            components.take(k),
            reg,
            codec,
        ),
    decreases components.len(),
{
    if k == components.len() {
        assert(components.take(k) =~= components);
    } else {
        assert(components.drop_last().take(k) =~= components.take(k));
        lemma_components_stop(cell, row, components.drop_last(), reg, codec, k);
    }
}

/// Writes captured components to a row.
fn restore_row<C: OpaqueCodec>(
    cell: &mut CellStorage,
    row: u32,
    components: &Vec<CapturedComponent>,
    schema: &ReplicationRegistry,
    codec: &C,
) -> (out: Result<(), ErrorCode>)
    requires
        old(cell).well_formed(),
        row < old(cell)@.rows(),
        schema.well_formed(),
    ensures
        final(cell).well_formed(),
        (final(cell)@, out) == restored_row(old(cell)@, row as int, captured(components@), schema@, codec),
{
    let ghost first = cell@;
    let ghost all = captured(components@);
    let ghost reg = schema@;
    let mut i: usize = 0;
    proof {
        assert(all.take(0) =~= Seq::<(ComponentId, Seq<Seq<u8>>)>::empty());
    }
    while i < components.len()
        invariant
            i <= components@.len(),
            all == captured(components@),
            all.len() == components@.len(),
            reg == schema@,
            schema.well_formed(),
            cell.well_formed(),
            row < cell@.rows(),
            first == old(cell)@,
            (cell@, Ok::<(), ErrorCode>(())) == restored_row(first, row as int, all.take(i as int), reg, codec),
        decreases components@.len() - i,
    {
        let ghost before = cell@;
        let cid = components[i].0;
        proof {
            assert(all.take(i + 1).drop_last() =~= all.take(i as int));
            assert(all.take(i + 1).last() == (cid, blobs(components@[i as int].1@)));
        }
        let step = restore_component(cell, row, cid, &components[i].1, schema, codec);
        proof {
            assert((cell@, step) == restored_row(first, row as int, all.take(i + 1), reg, codec));
        }
        match step {
            Ok(done) => {
                assert(done == ());
            },
            Err(e) => {
                proof {
                    lemma_components_stop(first, row as int, all, reg, codec, i + 1);
                }
                return Err(e);
            },
        }
        i = i + 1;
    }
    proof {
        assert(all.take(all.len() as int) =~= all);
    }
    Ok(())
}

/// Writes one captured component to a row.
fn restore_component<C: OpaqueCodec>(
    cell: &mut CellStorage,
    row: u32,
    cid: ComponentId,
    data: &Vec<Vec<u8>>,
    schema: &ReplicationRegistry,
    codec: &C,
) -> (out: Result<(), ErrorCode>)
    requires
        old(cell).well_formed(),
        row < old(cell)@.rows(),
        schema.well_formed(),
    ensures
        final(cell).well_formed(),
        final(cell)@.rows() == old(cell)@.rows(),
        (final(cell)@, out) == restored_component(old(cell)@, row as int, (cid, blobs(data@)), schema@, codec),
{
    let s = match schema.schema(cid) {
        Some(s) => s,
        None => {
            return Ok(());
        },
    };
    let column: usize = match cell.find_column(cid) {
        Some(c) => c,
        None => {
            return Ok(());
        },
    };
    proof {
        assert(cell@.column_ok(column as int));
    }
    let mut dst: Vec<u8> = {
        let columns = cell.columns();
        proof {
            assert(cell@.columns[column as int] == columns@[column as int]@);
        }
        vstd::slice::slice_to_vec(columns[column].rows[row as usize].as_slice())
    };
    proof {
        assert(cell@.columns[column as int].rows[row as int].len() == cell@.columns[column as int].stride);
    }
    let out = pack_fields(cid, &mut dst, &s.fields, data, codec);
    cell.write_row(column, row, dst.as_slice());
    out
}

/// Decodes fields into a row, one behind the other.
fn pack_fields<C: OpaqueCodec>(
    cid: ComponentId,
    dst: &mut Vec<u8>,
    fields: &Vec<FieldDescriptor>,
    data: &Vec<Vec<u8>>,
    codec: &C,
) -> (out: Result<(), ErrorCode>)
    ensures
        (final(dst)@, out) == packed(cid, old(dst)@, 0, fields@, 0, blobs(data@), codec),
        final(dst)@.len() == old(dst)@.len(),
{
    let ghost first = dst@;
    let ghost blob_data = blobs(data@);
    let len: usize = dst.len();
    let mut offset: usize = 0;
    let mut k: usize = 0;
    while k < fields.len() && offset < len
        invariant
            k <= fields@.len(),
            offset <= len,
            len == dst@.len(),
            len == first.len(),
            first == old(dst)@,
            blob_data == blobs(data@),
            packed(cid, first, 0, fields@, 0, blob_data, codec) == packed(
                cid,
                dst@,
                offset as int,
                fields@,
                k as int,
                blob_data,
                codec,
            ),
        decreases fields@.len() - k,
    {
        let f = fields[k];
        let at: usize = f.field_index as usize;
        if f.encoding != ReplicationEncoding::Event && at < data.len() && data[at].len() > 0 {
            let raw: &Vec<u8> = &data[at];
            let remaining: usize = len - offset;
            let width: usize = match f.encoding {
                ReplicationEncoding::Pod | ReplicationEncoding::Serialized
                | ReplicationEncoding::GpuHandle => if raw.len() < remaining {
                    raw.len()
                } else {
                    remaining
                },
                ReplicationEncoding::DeltaCompressed => if remaining < 8 {
                    remaining
                } else {
                    8
                },
                ReplicationEncoding::Opaque => remaining,
                ReplicationEncoding::Event => 0,
            };
            let mut scratch: Vec<u8> = zero_bytes(width);
            let code = decode_field_value(
                &f.encoding,
                raw.as_slice(),
                scratch.as_mut_slice(),
                codec,
                cid,
                f.field_index,
            );
            if code != ErrorCode::Success {
                return Err(code);
            }
            let ghost was = dst@;
            splice(dst, offset, &scratch);
            offset = offset + width;
        }
        k = k + 1;
    }
    Ok(())
}

fn zero_bytes(n: usize) -> (out: Vec<u8>)
    ensures
        out@ == zeros(n as nat),
{
    let mut out: Vec<u8> = Vec::new();
    let mut i: usize = 0;
    while i < n
        invariant
            i <= n,
            out@ == zeros(i as nat),
        decreases n - i,
    {
        out.push(0);
        i = i + 1;
        proof {
            assert(out@ =~= zeros(i as nat));
        }
    }
    out
}

fn splice(dst: &mut Vec<u8>, offset: usize, part: &Vec<u8>)
    requires
        offset + part@.len() <= old(dst)@.len(),
    ensures
        final(dst)@ == spliced(old(dst)@, offset as int, part@),
{
    let ghost start = dst@;
    let len: usize = dst.len();
    let mut i: usize = 0;
    proof {
        assert(dst@ =~= spliced(start, offset as int, part@.take(0)));
    }
    while i < part.len()
        invariant
            i <= part@.len(),
            offset + part@.len() <= len,
            len == start.len(),
            dst@.len() == start.len(),
            dst@ == spliced(start, offset as int, part@.take(i as int)),
        decreases part@.len() - i,
    {
        dst[offset + i] = part[i];
        i = i + 1;
        proof {
            assert(dst@ =~= spliced(start, offset as int, part@.take(i as int)));
        }
    }
    proof {
        assert(part@.take(part@.len() as int) =~= part@);
    }
}

/// A plain whole-value column comes back byte for byte: what was captured of a
/// row, packed into a fresh row of the same width, is the row.
pub proof fn lemma_plain_column_round_trip<C: OpaqueCodec>(
    cid: ComponentId,
    value: Seq<u8>,
    f: FieldDescriptor,
    codec: &C,
)
    requires
        value.len() > 0,
        f.encoding == ReplicationEncoding::Pod || f.encoding == ReplicationEncoding::Serialized || f.encoding
            == ReplicationEncoding::GpuHandle,
    ensures
        packed(cid, zeros(value.len()), 0, seq![f], 0, encoded_fields(cid, value, seq![f], codec), codec) == (
            value,
            Ok::<(), ErrorCode>(()),
        ),
{
    let fields = seq![f];
    assert(fields.drop_last() =~= Seq::<FieldDescriptor>::empty());
    let data = encoded_fields(cid, value, fields, codec);
    assert(encoded_fields(cid, value, fields.drop_last(), codec) =~= Seq::<Seq<u8>>::empty());
    assert(data[f.field_index as int] == value);
    lemma_field_value_round_trip(f.encoding, codec, cid, f.field_index, value, zeros(value.len()));
    assert(spliced(zeros(value.len()), 0, value) =~= value);
    let dst = zeros(value.len());
    assert(packed(cid, value, value.len() as int, fields, 1, data, codec) == (value, Ok::<(), ErrorCode>(())));
}

} // verus!
