//! What becoming resident means for a cell, and what a written field does.

use vstd::prelude::*;
use crate::cell::{column_index, CellColumnModel, CellModel};
use crate::component::ComponentId;
use crate::gpu::cell_state::{CellStateModel, MirroredModel};
use crate::gpu::cell_store::frame::{mirrored_index, source_marked};
use crate::gpu::cell_store::{matched_columns, padded_generations, region_commands, row_offset, row_pool, slot_offset, slot_pool, words, CellId, FixedModel, RegionClassConfig, StoreModel};
use crate::gpu::column::MirrorMode;
use crate::gpu::device::{lemma_run_one, run, word_row, CommandModel};
use crate::gpu::partner::PartnerModel;
use crate::gpu::region::RegionError;
use crate::gpu::scene_store::cells::{buffer_marked, fields_written, rebuilt};
use crate::gpu::scene_store::SceneModel;
use crate::gpu::world_column::{takes_part, BufferKind};
use crate::gpu::world_mirror::{covering_rows, is_due, GpuComponent};

verus! {

/// The columns of a cell that are mirrored are exactly those that resolve to a column of
/// the store, in order. Each starts with every row in use marked, and no other.
pub proof fn lemma_mirrored_columns(
    columns: Seq<CellColumnModel>,
    n: int,
    partners: PartnerModel,
    fixed: Map<ComponentId, FixedModel>,
    rows: nat,
    capacity: nat,
)
    requires
        0 <= n <= columns.len(),
        columns.len() <= usize::MAX,
    ensures
        ({
            let out = matched_columns(columns, n, partners, fixed, rows, capacity);
            &&& forall|k: int|
                0 <= k < out.len() ==> {
                    let c = #[trigger] out[k];
                    &&& c.source < n
                    &&& c.buffer == partners.resolve(columns[c.source as int].id)
                    &&& fixed.contains_key(c.buffer)
                    &&& c.mask.len() == capacity
                    &&& forall|r: int| 0 <= r < capacity ==> (#[trigger] c.mask[r] <==> r < rows)
                }
            &&& forall|i: int|
                0 <= i < n && fixed.contains_key(partners.resolve((#[trigger] columns[i]).id)) ==> exists|k: int|
                    0 <= k < out.len() && (#[trigger] out[k]).source == i
            &&& forall|a: int, b: int|
                0 <= a < b < out.len() ==> (#[trigger] out[a]).source < (#[trigger] out[b]).source
        }),
    decreases n,
{
    if n > 0 {
        lemma_mirrored_columns(columns, n - 1, partners, fixed, rows, capacity);
        let before = matched_columns(columns, n - 1, partners, fixed, rows, capacity);
        let out = matched_columns(columns, n, partners, fixed, rows, capacity);
        assert forall|k: int| 0 <= k < before.len() implies #[trigger] out[k] == before[k] by {}
        assert forall|i: int| 0 <= i < n && fixed.contains_key(partners.resolve((#[trigger] columns[i]).id)) implies exists|
            k: int,
        | 0 <= k < out.len() && (#[trigger] out[k]).source == i by {
            if i < n - 1 {
                let k = choose|k: int| 0 <= k < before.len() && (#[trigger] before[k]).source == i;
                assert(out[k].source == i);
            } else {
                assert(out[before.len() as int].source == i);
            }
        }
        assert forall|a: int, b: int| 0 <= a < b < out.len() implies (#[trigger] out[a]).source < (
        #[trigger] out[b]).source by {
            assert(out[a] == before[a]);
            if b < before.len() {
                assert(out[b] == before[b]);
            }
        }
    }
}

/// When a cell becomes resident, the device gets the generation of every slot of its
/// region: those that the cell has, and zero for the rest. Other rows stay.
pub proof fn lemma_registered_generations_show(
    slot_base: u32,
    gens: Seq<u32>,
    capacity: nat,
    mem: Seq<Seq<u8>>,
    i: int,
)
    requires
        gens.len() <= capacity,
        slot_base + capacity <= mem.len(),
        mem.len() <= u32::MAX,
        0 <= i < mem.len(),
    ensures
        run(mem, region_commands(slot_base, gens, capacity), 4).len() == mem.len(),
        slot_base <= i < slot_base + capacity ==> run(mem, region_commands(slot_base, gens, capacity), 4)[i]
            == word_row(padded_generations(gens, capacity)[i - slot_base]),
        slot_base <= i < slot_base + gens.len() ==> run(mem, region_commands(slot_base, gens, capacity), 4)[i]
            == word_row(gens[i - slot_base]),
        slot_base + gens.len() <= i < slot_base + capacity ==> run(mem, region_commands(slot_base, gens, capacity), 4)[i]
            == word_row(0),
        !(slot_base <= i < slot_base + capacity) ==> run(mem, region_commands(slot_base, gens, capacity), 4)[i]
            == mem[i],
{
    let commands = region_commands(slot_base, gens, capacity);
    let first = CommandModel::Write { row: slot_base, data: words(gens) };
    let rest = CommandModel::Write {
        row: (slot_base + gens.len()) as u32,
        data: words(Seq::new((capacity - gens.len()) as nat, |i: int| 0u32)),
    };
    if gens.len() > 0 {
        lemma_run_one(mem, first, 4);
        if gens.len() < capacity {
            assert(commands =~= seq![first].push(rest));
            assert(commands.drop_last() =~= seq![first]);
        } else {
            assert(commands =~= seq![first]);
        }
    } else if gens.len() < capacity {
        assert(commands =~= seq![rest]);
        lemma_run_one(mem, rest, 4);
    } else {
        assert(commands =~= Seq::<CommandModel>::empty());
    }
}

/// The size classes lie one behind another without a gap, from the first row and the
/// first slot on.
pub proof fn lemma_classes_have_no_gaps(classes: Seq<RegionClassConfig>, headroom: u32, i: int)
    requires
        0 <= i < classes.len(),
    ensures
        row_offset(classes, 0) == 0,
        slot_offset(classes, headroom, 0) == 0,
        row_offset(classes, i + 1) == row_offset(classes, i) + classes[i].capacity * classes[i].max_resident_cells,
        slot_offset(classes, headroom, i + 1) == slot_offset(classes, headroom, i) + (classes[i].capacity + headroom)
            * classes[i].max_resident_cells,
        row_pool(classes, i).region_size == classes[i].capacity,
        row_pool(classes, i).count == classes[i].max_resident_cells,
        row_offset(classes, i) <= u32::MAX ==> row_pool(classes, i).base == row_offset(classes, i),
        row_pool(classes, i).free.len() == classes[i].max_resident_cells,
        classes[i].capacity + headroom <= u32::MAX ==> slot_pool(classes, headroom, i).region_size
            == classes[i].capacity + headroom,
        slot_pool(classes, headroom, i).count == classes[i].max_resident_cells,
        slot_pool(classes, headroom, i).free.len() == classes[i].max_resident_cells,
{
}

/// How many of the first `n` cells are of a class.
pub open spec fn of_class(cells: Seq<(usize, CellModel)>, n: int, class: usize) -> nat {
    cells.take(n).filter(|c: (usize, CellModel)| c.0 == class).len()
}

/// The first `n` cells are resident in `after` behind those of `m`, in order, each in its
/// class, and each has taken one region for rows and one for slots.
pub open spec fn all_resident(m: StoreModel, after: StoreModel, cells: Seq<(usize, CellModel)>, n: int) -> bool {
    &&& after.cells.len() == m.cells.len() + n
    &&& after.row_pools.len() == m.row_pools.len()
    &&& after.slot_pools.len() == m.slot_pools.len()
    &&& forall|k: int|
        0 <= k < n ==> (#[trigger] after.cells[m.cells.len() + k]) is Some && after.cells[m.cells.len() + k].unwrap().class
            == cells[k].0
    &&& forall|k: int| 0 <= k < m.cells.len() ==> #[trigger] after.cells[k] == m.cells[k]
    &&& forall|c: usize|
        c < m.row_pools.len() ==> after.row_pools[c as int].free.len() + (#[trigger] of_class(cells, n, c))
            == m.row_pools[c as int].free.len()
    &&& forall|c: usize|
        c < m.row_pools.len() ==> after.slot_pools[c as int].free.len() + (#[trigger] of_class(cells, n, c))
            == m.slot_pools[c as int].free.len()
}

/// Rebuilding makes every cell resident, in order, each in a region of its class. Where
/// it fails, some class has more cells than free regions, for rows or for slots.
pub proof fn lemma_rebuilt_cells(m: StoreModel, p: PartnerModel, cells: Seq<(usize, CellModel)>, n: int)
    requires
        0 <= n <= cells.len(),
        m.row_pools.len() == m.slot_pools.len(),
        forall|i: int| 0 <= i < cells.len() ==> (#[trigger] cells[i]).0 < m.row_pools.len(),
        m.cells.len() + cells.len() <= u32::MAX,
    ensures
        rebuilt(m, p, cells, n) matches Ok(after) ==> all_resident(m, after, cells, n),
        rebuilt(m, p, cells, n) == Err::<StoreModel, RegionError>(RegionError::RowsExhausted) ==> exists|c: usize|
            c < m.row_pools.len() && #[trigger] of_class(cells, n, c) > m.row_pools[c as int].free.len(),
        rebuilt(m, p, cells, n) == Err::<StoreModel, RegionError>(RegionError::SlotsExhausted) ==> exists|c: usize|
            c < m.row_pools.len() && #[trigger] of_class(cells, n, c) > m.slot_pools[c as int].free.len(),
    decreases n,
{
    reveal(Seq::filter);
    if n == 0 {
        assert(cells.take(0) =~= Seq::<(usize, CellModel)>::empty());
        assert(all_resident(m, m, cells, 0));
    } else {
        lemma_rebuilt_cells(m, p, cells, n - 1);
        assert(cells.take(n).drop_last() =~= cells.take(n - 1));
        assert(cells.take(n).last() == cells[n - 1]);
        let class = cells[n - 1].0;
        assert forall|c: usize| #[trigger] of_class(cells, n, c) == of_class(cells, n - 1, c) + (if c == class {
            1nat
        } else {
            0nat
        }) by {}
        match rebuilt(m, p, cells, n - 1) {
            Err(e) => {
                if e == RegionError::RowsExhausted {
                    let c = choose|c: usize|
                        c < m.row_pools.len() && #[trigger] of_class(cells, n - 1, c) > m.row_pools[c as int].free.len();
                    assert(of_class(cells, n, c) > m.row_pools[c as int].free.len());
                } else {
                    let c = choose|c: usize|
                        c < m.row_pools.len() && #[trigger] of_class(cells, n - 1, c)
                            > m.slot_pools[c as int].free.len();
                    assert(of_class(cells, n, c) > m.slot_pools[c as int].free.len());
                }
            },
            Ok(before) => {
                assert(of_class(cells, n, class) == of_class(cells, n - 1, class) + 1);
                assert(before.row_pools[class as int].free.len() + of_class(cells, n - 1, class)
                    == m.row_pools[class as int].free.len());
                assert(before.slot_pools[class as int].free.len() + of_class(cells, n - 1, class)
                    == m.slot_pools[class as int].free.len());
                if before.row_pools[class as int].free.len() > 0 && before.slot_pools[class as int].free.len() > 0 {
                    let after = rebuilt(m, p, cells, n)->Ok_0;
                    assert forall|k: int| 0 <= k < n implies (#[trigger] after.cells[m.cells.len() + k]) is Some
                        && after.cells[m.cells.len() + k].unwrap().class == cells[k].0 by {
                        if k < n - 1 {
                            assert(before.cells[m.cells.len() + k] is Some);
                        }
                    }
                    assert forall|k: int| 0 <= k < m.cells.len() implies #[trigger] after.cells[k] == m.cells[k] by {
                        assert(before.cells[k] == m.cells[k]);
                    }
                    assert forall|c: usize| c < m.row_pools.len() implies after.row_pools[c as int].free.len() + (
                    #[trigger] of_class(cells, n, c)) == m.row_pools[c as int].free.len() by {
                        assert(before.row_pools[c as int].free.len() + of_class(cells, n - 1, c)
                            == m.row_pools[c as int].free.len());
                    }
                    assert forall|c: usize| c < m.row_pools.len() implies after.slot_pools[c as int].free.len() + (
                    #[trigger] of_class(cells, n, c)) == m.slot_pools[c as int].free.len() by {
                        assert(before.slot_pools[c as int].free.len() + of_class(cells, n - 1, c)
                            == m.slot_pools[c as int].free.len());
                    }
                    assert(all_resident(m, after, cells, n));
                }
            },
        }
    }
}

/// Where a column of a cell is mirrored, marking it marks exactly the given row of the
/// first mirror of it; where it is not, nothing is marked.
pub proof fn lemma_source_marked(st: CellStateModel, c: int, row: u32, k: int)
    requires
        0 <= k < st.columns.len(),
        st.columns[k].source == c,
        forall|j: int| 0 <= j < k ==> (#[trigger] st.columns[j]).source != c,
        row < st.columns[k].mask.len(),
    ensures
        source_marked(st, c, row).columns.len() == st.columns.len(),
        source_marked(st, c, row).columns[k].mask == st.columns[k].mask.update(row as int, true),
        forall|j: int|
            0 <= j < st.columns.len() && j != k ==> #[trigger] source_marked(st, c, row).columns[j] == st.columns[j],
        source_marked(st, c, row).pending == st.pending,
{
    lemma_mirrored_index(st.columns, c, 0, k);
}

proof fn lemma_mirrored_index(columns: Seq<MirroredModel>, c: int, from: int, k: int)
    requires
        0 <= from <= k < columns.len(),
        columns[k].source == c,
        forall|j: int| from <= j < k ==> (#[trigger] columns[j]).source != c,
    ensures
        mirrored_index(columns, c, from) == Some(k),
    decreases k - from,
{
    if from < k {
        assert(columns[from].source != c);
        lemma_mirrored_index(columns, c, from + 1, k);
    }
}

/// Marking a column of the store in a cell marks exactly the given row of the first
/// mirrored column that goes there.
pub proof fn lemma_buffer_marked(st: CellStateModel, buffer: ComponentId, row: u32, from: int, k: int)
    requires
        0 <= from <= k < st.columns.len(),
        st.columns[k].buffer == buffer,
        forall|j: int| from <= j < k ==> (#[trigger] st.columns[j]).buffer != buffer,
        row < st.columns[k].mask.len(),
    ensures
        buffer_marked(st, buffer, row, from).columns.len() == st.columns.len(),
        buffer_marked(st, buffer, row, from).columns[k].mask == st.columns[k].mask.update(row as int, true),
        forall|j: int|
            0 <= j < st.columns.len() && j != k ==> #[trigger] buffer_marked(st, buffer, row, from).columns[j]
                == st.columns[j],
    decreases k - from,
{
    if from < k {
        assert(st.columns[from].buffer != buffer);
        lemma_buffer_marked(st, buffer, row, from + 1, k);
    }
}

/// Writing fields of a row stores the bytes of each, the later ones of a field counting,
/// and touches no other row and no other column.
pub proof fn lemma_fields_of_a_row(
    m: StoreModel,
    id: CellId,
    cell: CellModel,
    row: u32,
    fields: Seq<(ComponentId, Seq<u8>)>,
    n: int,
)
    requires
        0 <= n <= fields.len(),
        forall|k: int|
            0 <= k < fields.len() ==> (column_index(cell.columns, (#[trigger] fields[k]).0) matches Some(c) && 0 <= c
                < cell.columns.len() && row < cell.columns[c].rows.len()),
    ensures
        ({
            let after = fields_written(m, id, cell, row, fields, n).1;
            &&& after.columns.len() == cell.columns.len()
            &&& forall|c: int|
                0 <= c < cell.columns.len() ==> (#[trigger] after.columns[c]).rows.len() == cell.columns[c].rows.len()
                    && after.columns[c].id == cell.columns[c].id && after.columns[c].stride == cell.columns[c].stride
            &&& forall|c: int, r: int|
                0 <= c < cell.columns.len() && 0 <= r < cell.columns[c].rows.len() && r != row
                    ==> #[trigger] after.columns[c].rows[r] == cell.columns[c].rows[r]
            &&& forall|c: int|
                0 <= c < cell.columns.len() && (forall|k: int|
                    0 <= k < n ==> column_index(cell.columns, (#[trigger] fields[k]).0) != Some(c)) ==> (
                #[trigger] after.columns[c]) == cell.columns[c]
            &&& forall|k: int|
                0 <= k < n && (forall|l: int| k < l < n ==> (#[trigger] fields[l]).0 != fields[k].0) ==> after.columns[column_index(
                    cell.columns,
                    (#[trigger] fields[k]).0,
                ).unwrap()].rows[row as int] == fields[k].1
            &&& after.live == cell.live
            &&& after.slots == cell.slots
        }),
    decreases n,
{
    if n > 0 {
        lemma_fields_of_a_row(m, id, cell, row, fields, n - 1);
        let before = fields_written(m, id, cell, row, fields, n - 1).1;
        let after = fields_written(m, id, cell, row, fields, n).1;
        let last = column_index(cell.columns, fields[n - 1].0).unwrap();
        assert(0 <= last < cell.columns.len());
        assert(before.columns[last].rows.len() == cell.columns[last].rows.len());
        assert forall|c: int| 0 <= c < cell.columns.len() && (forall|k: int|
            0 <= k < n ==> column_index(cell.columns, (#[trigger] fields[k]).0) != Some(c)) implies (
        #[trigger] after.columns[c]) == cell.columns[c] by {
            assert(column_index(cell.columns, fields[n - 1].0) != Some(c));
            assert(before.columns[c] == cell.columns[c]);
        }
        assert forall|c: int| 0 <= c < cell.columns.len() implies (#[trigger] after.columns[c]).rows.len()
            == cell.columns[c].rows.len() && after.columns[c].id == cell.columns[c].id && after.columns[c].stride
            == cell.columns[c].stride by {
            assert(before.columns[c].rows.len() == cell.columns[c].rows.len());
        }
        assert forall|c: int, r: int|
            0 <= c < cell.columns.len() && 0 <= r < cell.columns[c].rows.len() && r != row implies #[trigger] after.columns[c].rows[r]
            == cell.columns[c].rows[r] by {
            assert(before.columns[c].rows[r] == cell.columns[c].rows[r]);
            assert(before.columns[c].rows.len() == cell.columns[c].rows.len());
        }
        assert forall|k: int| 0 <= k < n && (forall|l: int| k < l < n ==> (#[trigger] fields[l]).0 != fields[k].0) implies after.columns[column_index(
            cell.columns,
            (#[trigger] fields[k]).0,
        ).unwrap()].rows[row as int] == fields[k].1 by {
            if k < n - 1 {
                assert(fields[n - 1].0 != fields[k].0);
                let c = column_index(cell.columns, fields[k].0).unwrap();
                lemma_column_named(cell.columns, fields[k].0);
                lemma_column_named(cell.columns, fields[n - 1].0);
                assert(c != last);
                assert(after.columns[c] == before.columns[c]);
            }
        }
    }
}

/// The column that is found under an id is the first one with that id.
pub proof fn lemma_column_named(columns: Seq<CellColumnModel>, id: ComponentId)
    ensures
        match column_index(columns, id) {
            Some(i) => 0 <= i < columns.len() && columns[i].id == id && forall|j: int|
                0 <= j < i ==> (#[trigger] columns[j]).id != id,
            None => forall|j: int| 0 <= j < columns.len() ==> (#[trigger] columns[j]).id != id,
        },
    decreases columns.len(),
{
    if columns.len() > 0 {
        let init = columns.drop_last();
        let n = columns.len() - 1;
        lemma_column_named(init, id);
        assert(columns[n] == columns.last());
        match column_index(init, id) {
            Some(i) => {
                assert(init[i] == columns[i]);
                assert forall|j: int| 0 <= j < i implies (#[trigger] columns[j]).id != id by {
                    assert(init[j] == columns[j]);
                }
            },
            None => {
                assert forall|j: int| 0 <= j < n implies (#[trigger] columns[j]).id != id by {
                    assert(init[j] == columns[j]);
                }
            },
        }
    }
}

/// A field is due for upload exactly if its component was not shown before, is new, or
/// has other bytes there than before.
pub proof fn lemma_when_fields_are_due<V: GpuComponent>(
    value: V,
    prev: Option<V>,
    cid: ComponentId,
    field: ComponentId,
    first: bool,
)
    ensures
        first || prev is None ==> is_due(value, prev, cid, field, first),
        !first && prev is Some ==> (is_due(value, prev, cid, field, first) <==> value.gpu_field(cid, field)
            != prev.unwrap().gpu_field(cid, field)),
{
}

/// The rows that cover the highest live row, with headroom, as far as there are row
/// numbers.
pub proof fn lemma_covering(highest: u32, headroom: u32)
    ensures
        covering_rows(highest, headroom) == vstd::math::min(highest + 1 + headroom, u32::MAX as int),
{
}

/// A column takes part in what is asked of a component exactly if the component owns it;
/// in what is asked of no component in particular every column takes part.
pub proof fn lemma_who_takes_part(
    owners: Map<ComponentId, ComponentId>,
    owner: Option<ComponentId>,
    c: ComponentId,
)
    ensures
        owner is None ==> takes_part(owners, owner, c),
        owner is Some ==> (takes_part(owners, owner, c) <==> owners.contains_key(c) && owners[c] == owner.unwrap()),
{
}

/// What a written field does: a field that is sent once is not sent again; otherwise
/// its bytes are stored for the next upload, handed over, or written at once, as its
/// column does. No other column changes.
pub proof fn lemma_written_field(
    m: SceneModel,
    field: ComponentId,
    mode: MirrorMode,
    row: u32,
    data: Seq<u8>,
    first: bool,
    other: ComponentId,
)
    requires
        m.well_formed(),
        row < u32::MAX,
    ensures
        ({
            let c = m.partners.resolve(field);
            let (after, out) = m.field_written(field, mode, row, data, first);
            &&& mode == MirrorMode::Once && !first ==> after == m && out is Ok
            &&& mode == MirrorMode::DirtyTracked && m.columns.contains_key(c) ==> (m.columns[c].kind matches BufferKind::Shadowed(
                t,
            ) ==> {
                &&& out is Ok
                &&& after.columns[c].kind matches BufferKind::Shadowed(u) && row < u.shadow.len() && u.shadow[row as int]
                    == data && u.dirty[row as int]
            })
            &&& mode == MirrorMode::Once && first && m.columns.contains_key(c) ==> (m.columns[c].kind matches BufferKind::Once(
                o,
            ) ==> {
                &&& out is Ok
                &&& after.columns[c].kind matches BufferKind::Once(u) && u.pending == o.pending.push((row, data))
            })
            &&& other != c && m.columns.contains_key(other) ==> after.columns.contains_key(other)
                && after.columns[other] == m.columns[other]
            &&& after.presence == m.presence
            &&& after.partners == m.partners
            &&& after.mirrors == m.mirrors
        }),
{
    let c = m.partners.resolve(field);
    if m.columns.contains_key(c) {
        assert(m.columns[c].well_formed());
        if let BufferKind::Shadowed(t) = m.columns[c].kind {
            crate::gpu::buffer_laws::lemma_marked_row(t, row, data);
        }
    }
}

} // verus!
