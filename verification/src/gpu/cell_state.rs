//! What the host knows of one cell on the device.

use vstd::prelude::*;
use crate::ascending::rows_ascend;
use crate::cell::{CellModel, CellStorage, PendingRetire};
use crate::component::ComponentId;
use crate::gpu::column::{column_models, ColumnModel, GpuColumnDesc};
use crate::gpu::device::{make_word_row, patched, run, word_row, CommandModel, CommandQueue, GpuCommand, Row, SyncStats};
use crate::gpu::dirty::{clean, lemma_marked_rows, marked_below, marked_rows, DirtyMask};
use crate::gpu::upload::{count_runs, direct_writes, lemma_direct_writes, queue_direct_writes};
use crate::replication::types::blobs;

verus! {

/// Slot number that stands for a row that was never uploaded.
pub const NEVER_UPLOADED: u32 = 0xffff_ffff;

/// A column of a cell that is mirrored to a device column.
#[derive(Debug)]
pub struct MirroredColumn {
    /// The device column.
    pub buffer: ComponentId,
    /// Where the column stands in the cell.
    pub source: usize,
    /// The rows that changed since they were uploaded.
    pub mask: DirtyMask,
}

/// The value of a [`MirroredColumn`].
pub struct MirroredModel {
    pub buffer: ComponentId,
    pub source: usize,
    pub mask: Seq<bool>,
}

impl View for MirroredColumn {
    type V = MirroredModel;

    open spec fn view(&self) -> MirroredModel {
        MirroredModel { buffer: self.buffer, source: self.source, mask: self.mask@ }
    }
}

/// A retirement that waits for a serial number.
#[derive(Copy, Clone, Debug, PartialEq, Eq, Structural)]
pub struct QueuedRetire {
    pub pending: PendingRetire,
    pub serial: u64,
}

/// A cell that has its regions on the device.
#[derive(Debug)]
pub struct CellGpuState {
    /// The size class that the regions belong to.
    pub class: usize,
    pub row_region: u32,
    pub slot_region: u32,
    /// The first row of the cell in every mirrored column.
    pub row_base: u32,
    /// The first entry of the cell in the generation column.
    pub slot_base: u32,
    pub columns: Vec<MirroredColumn>,
    pub gpu_columns: Vec<GpuColumnDesc>,
    /// The slot last uploaded for every row.
    pub slot_shadow: Vec<u32>,
    /// The retirements that wait, in order.
    pub pending: Vec<QueuedRetire>,
    /// The generation last uploaded for every slot.
    pub gen_shadow: Vec<u32>,
}

/// The value of a [`CellGpuState`].
pub struct CellStateModel {
    pub class: usize,
    pub row_region: u32,
    pub slot_region: u32,
    pub row_base: u32,
    pub slot_base: u32,
    pub columns: Seq<MirroredModel>,
    pub gpu_columns: Seq<ColumnModel>,
    pub slot_shadow: Seq<u32>,
    pub pending: Seq<QueuedRetire>,
    pub gen_shadow: Seq<u32>,
}

/// The contents of a list of mirrored columns.
pub open spec fn mirrored_models(v: Seq<MirroredColumn>) -> Seq<MirroredModel> {
    v.map_values(|c: MirroredColumn| c@)
}

impl View for CellGpuState {
    type V = CellStateModel;

    open spec fn view(&self) -> CellStateModel {
        CellStateModel {
            class: self.class,
            row_region: self.row_region,
            slot_region: self.slot_region,
            row_base: self.row_base,
            slot_base: self.slot_base,
            columns: mirrored_models(self.columns@),
            gpu_columns: column_models(self.gpu_columns@),
            slot_shadow: self.slot_shadow@,
            pending: self.pending@,
            gen_shadow: self.gen_shadow@,
        }
    }
}

impl CellStateModel {
    /// How many rows the region has.
    pub open spec fn row_capacity(self) -> nat {
        self.slot_shadow.len()
    }

    /// How many slots the region has.
    pub open spec fn slot_capacity(self) -> nat {
        self.gen_shadow.len()
    }

    /// One mark per row in every column; the regions are within the numbers of
    /// rows and slots.
    pub open spec fn well_formed(self) -> bool {
        &&& self.row_base + self.row_capacity() <= u32::MAX
        &&& self.slot_base + self.slot_capacity() <= u32::MAX
        &&& forall|k: int|
            0 <= k < self.columns.len() ==> (#[trigger] self.columns[k]).mask.len() == self.row_capacity()
    }

    /// The state is that of `cell`: its rows and slots fit into the regions,
    /// and it has the mirrored columns.
    pub open spec fn fits(self, cell: CellModel) -> bool {
        &&& cell.rows() <= self.row_capacity()
        &&& cell.generations.len() <= self.slot_capacity()
        &&& forall|k: int|
            0 <= k < self.columns.len() ==> (#[trigger] self.columns[k]).source < cell.columns.len()
    }

    /// A row changed in the column at `k`.
    pub open spec fn column_marked(self, k: int, row: u32) -> CellStateModel {
        CellStateModel {
            columns: self.columns.update(
                k,
                MirroredModel { mask: self.columns[k].mask.update(row as int, true), ..self.columns[k] },
            ),
            ..self
        }
    }

    /// A row changed in every column.
    pub open spec fn row_marked(self, row: u32) -> CellStateModel {
        CellStateModel {
            columns: self.columns.map_values(
                |c: MirroredModel| MirroredModel { mask: c.mask.update(row as int, true), ..c },
            ),
            ..self
        }
    }

    /// Rows changed in every column.
    pub open spec fn rows_marked(self, rows: Seq<u32>) -> CellStateModel
        decreases rows.len(),
    {
        if rows.len() == 0 {
            self
        } else {
            self.rows_marked(rows.drop_last()).row_marked(rows.last())
        }
    }

    /// No column has a change to upload.
    pub open spec fn cleaned(self) -> CellStateModel {
        CellStateModel {
            columns: self.columns.map_values(
                |c: MirroredModel| MirroredModel { mask: clean(c.mask.len()), ..c },
            ),
            ..self
        }
    }

    /// The changes of a cell were uploaded, rows and slots. Where the cell has no
    /// row in use there is nothing to upload, and the marks stay.
    pub open spec fn synced(self, cell: CellModel) -> CellStateModel {
        if cell.rows() > 0 {
            self.cleaned().slots_uploaded(cell.slots)
        } else {
            self.slots_uploaded(cell.slots)
        }
    }

    /// The slots of the first rows are known to be on the device.
    pub open spec fn slots_uploaded(self, slots: Seq<u32>) -> CellStateModel {
        CellStateModel {
            slot_shadow: Seq::new(
                self.slot_shadow.len(),
                |r: int|
                    if r < slots.len() {
                        slots[r]
                    } else {
                        self.slot_shadow[r]
                    },
            ),
            ..self
        }
    }

    /// The generation of a slot is known to be on the device.
    pub open spec fn generation_uploaded(self, slot: u32, generation: u32) -> CellStateModel {
        CellStateModel { gen_shadow: self.gen_shadow.update(slot as int, generation), ..self }
    }
}

/// `rows`, counted from `base` on.
pub open spec fn shifted(rows: Seq<u32>, base: u32) -> Seq<u32> {
    rows.map_values(|r: u32| (base + r) as u32)
}

/// The rows among the first `n` whose slot is not the one last uploaded.
pub open spec fn stale_rows(shadow: Seq<u32>, slots: Seq<u32>, n: int) -> Seq<u32>
    decreases n,
{
    if n <= 0 {
        Seq::empty()
    } else if shadow[n - 1] != slots[n - 1] {
        stale_rows(shadow, slots, n - 1).push((n - 1) as u32)
    } else {
        stale_rows(shadow, slots, n - 1)
    }
}

/// The entries of the slot mirror for the given rows.
pub open spec fn slot_words(slot_base: u32, slots: Seq<u32>, rows: Seq<u32>) -> Seq<Seq<u8>> {
    rows.map_values(|r: u32| word_row((slot_base + slots[r as int]) as u32))
}

/// The commands that bring the slot mirror of a cell up to date.
pub open spec fn slot_commands(state: CellStateModel, slots: Seq<u32>) -> Seq<CommandModel> {
    let rows = stale_rows(state.slot_shadow, slots, slots.len() as int);
    direct_writes(shifted(rows, state.row_base), slot_words(state.slot_base, slots, rows))
}

/// The rows of a column to upload: those that are marked and in use.
pub open spec fn column_rows(column: MirroredModel, cell: CellModel) -> Seq<u32> {
    marked_below(column.mask, cell.rows() as int)
}

/// The commands that bring a device column up to date with a cell.
pub open spec fn column_commands(state: CellStateModel, k: int, cell: CellModel) -> Seq<CommandModel> {
    let rows = column_rows(state.columns[k], cell);
    direct_writes(
        shifted(rows, state.row_base),
        rows.map_values(|r: u32| cell.columns[state.columns[k].source as int].rows[r as int]),
    )
}

/// What the upload of a column of a cell moves.
pub open spec fn column_stats(state: CellStateModel, k: int, cell: CellModel, stride: u32) -> SyncStats {
    SyncStats {
        ranges: column_commands(state, k, cell).len() as u32,
        bytes: (column_rows(state.columns[k], cell).len() * stride) as u64,
    }
}

/// What the upload of the slot mirror of a cell moves.
pub open spec fn slot_stats(state: CellStateModel, slots: Seq<u32>) -> SyncStats {
    SyncStats {
        ranges: slot_commands(state, slots).len() as u32,
        bytes: (stale_rows(state.slot_shadow, slots, slots.len() as int).len() * 4) as u64,
    }
}

pub proof fn lemma_marked_prefix(marks: Seq<bool>, n: int)
    requires
        0 <= n <= marks.len() <= u32::MAX,
    ensures
        rows_ascend(marked_below(marks, n)),
        forall|r: u32| #[trigger] marked_below(marks, n).contains(r) <==> r < n && marks[r as int],
        marked_below(marks, n).len() <= n,
{
    let head = marks.take(n);
    lemma_marked_rows(head);
    lemma_marked_take(marks, n, n);
    assert forall|r: u32| #[trigger] marked_below(marks, n).contains(r) <==> r < n && marks[r as int] by {
        assert(marked_rows(head).contains(r) <==> r < head.len() && head[r as int]);
    }
}

proof fn lemma_marked_take(marks: Seq<bool>, n: int, k: int)
    requires
        0 <= k <= n <= marks.len(),
    ensures
        marked_below(marks.take(n), k) == marked_below(marks, k),
    decreases k,
{
    if k > 0 {
        lemma_marked_take(marks, n, k - 1);
    }
}

pub proof fn lemma_stale_rows(shadow: Seq<u32>, slots: Seq<u32>, n: int)
    requires
        0 <= n <= u32::MAX,
        n <= shadow.len(),
        n <= slots.len(),
    ensures
        rows_ascend(stale_rows(shadow, slots, n)),
        forall|r: u32| #[trigger]
            stale_rows(shadow, slots, n).contains(r) <==> r < n && shadow[r as int] != slots[r as int],
        stale_rows(shadow, slots, n).len() <= n,
    decreases n,
{
    if n > 0 {
        lemma_stale_rows(shadow, slots, n - 1);
        let before = stale_rows(shadow, slots, n - 1);
        let all = stale_rows(shadow, slots, n);
        if shadow[n - 1] != slots[n - 1] {
            assert forall|i: int, j: int| 0 <= i < j < all.len() implies #[trigger] all[i] < #[trigger] all[j] by {
                if j == before.len() {
                    assert(before.contains(before[i]));
                }
            }
            assert forall|r: u32| #[trigger] all.contains(r) <==> r < n && shadow[r as int] != slots[r as int] by {
                if before.contains(r) {
                    assert(all[before.index_of(r)] == r);
                }
                if all.contains(r) {
                    let i = all.index_of(r);
                    if i < before.len() {
                        assert(before[i] == r);
                        assert(before.contains(r));
                    }
                }
                if r == n - 1 {
                    assert(all[before.len() as int] == r);
                }
            }
        }
    }
}

pub proof fn lemma_shifted(rows: Seq<u32>, base: u32, n: int)
    requires
        rows_ascend(rows),
        base + n <= u32::MAX,
        forall|i: int| 0 <= i < rows.len() ==> (#[trigger] rows[i]) < n,
    ensures
        rows_ascend(shifted(rows, base)),
        forall|r: int|
            0 <= r < n ==> (#[trigger] shifted(rows, base).contains((base + r) as u32) <==> rows.contains(r as u32)),
        forall|x: u32| #[trigger] shifted(rows, base).contains(x) ==> base <= x < base + n,
{
    let out = shifted(rows, base);
    assert forall|i: int, j: int| 0 <= i < j < out.len() implies #[trigger] out[i] < #[trigger] out[j] by {
        assert(rows[i] < rows[j]);
    }
    assert forall|r: int| 0 <= r < n implies (#[trigger] out.contains((base + r) as u32) <==> rows.contains(
        r as u32,
    )) by {
        if rows.contains(r as u32) {
            let i = rows.index_of(r as u32);
            assert(out[i] == (base + r) as u32);
        }
        if out.contains((base + r) as u32) {
            let i = out.index_of((base + r) as u32);
            assert(rows[i] == r as u32);
        }
    }
    assert forall|x: u32| #[trigger] out.contains(x) implies base <= x < base + n by {
        let i = out.index_of(x);
        assert(rows[i] < n);
    }
}

fn shift_rows(rows: &Vec<u32>, base: u32, Ghost(n): Ghost<int>) -> (out: Vec<u32>)
    requires
        base + n <= u32::MAX,
        forall|i: int| 0 <= i < rows@.len() ==> (#[trigger] rows@[i]) < n,
    ensures
        out@ == shifted(rows@, base),
{
    let mut out: Vec<u32> = Vec::new();
    let mut i: usize = 0;
    while i < rows.len()
        invariant
            i <= rows@.len(),
            base + n <= u32::MAX,
            forall|k: int| 0 <= k < rows@.len() ==> (#[trigger] rows@[k]) < n,
            out@.len() == i,
            forall|k: int| 0 <= k < i ==> #[trigger] out@[k] == base + rows@[k],
        decreases rows@.len() - i,
    {
        out.push(base + rows[i]);
        i = i + 1;
    }
    proof {
        assert(out@ =~= shifted(rows@, base));
    }
    out
}

impl CellGpuState {
    /// One mark per row in every column.
    pub open spec fn well_formed(&self) -> bool {
        self@.well_formed()
    }

    /// The descriptions of the mirrored columns.
    pub fn gpu_columns_ref(&self) -> (descs: &Vec<GpuColumnDesc>)
        ensures
            column_models(descs@) == self@.gpu_columns,
    {
        &self.gpu_columns
    }

    /// Marks a row of the column at `k`.
    pub fn mark_column(&mut self, k: usize, row: u32)
        requires
            old(self).well_formed(),
            k < old(self)@.columns.len(),
            row < old(self)@.row_capacity(),
        ensures
            final(self).well_formed(),
            final(self)@ == old(self)@.column_marked(k as int, row),
    {
        let ghost before = self@;
        proof {
            assert(before.columns[k as int] == self.columns@[k as int]@);
        }
        self.columns[k].mask.mark(row);
        proof {
            assert(self@.columns =~= before.column_marked(k as int, row).columns);
        }
    }

    /// Marks a row of every column.
    pub fn mark_row(&mut self, row: u32)
        requires
            old(self).well_formed(),
            row < old(self)@.row_capacity(),
        ensures
            final(self).well_formed(),
            final(self)@ == old(self)@.row_marked(row),
    {
        let ghost before = self@;
        let n: usize = self.columns.len();
        let mut k: usize = 0;
        while k < n
            invariant
                k <= n,
                n == self.columns@.len(),
                n == before.columns.len(),
                before.well_formed(),
                row < before.row_capacity(),
                self@ == (CellStateModel { columns: self@.columns, ..before }),
                forall|i: int|
                    0 <= i < n ==> #[trigger] self@.columns[i] == (if i < k {
                        MirroredModel {
                            mask: before.columns[i].mask.update(row as int, true),
                            ..before.columns[i]
                        }
                    } else {
                        before.columns[i]
                    }),
            decreases n - k,
        {
            let ghost here = self@;
            proof {
                assert(here.columns[k as int] == self.columns@[k as int]@);
                assert(here.columns[k as int] == before.columns[k as int]);
            }
            self.columns[k].mask.mark(row);
            proof {
                assert forall|i: int| 0 <= i < n implies #[trigger] self@.columns[i] == (if i < k + 1 {
                    MirroredModel { mask: before.columns[i].mask.update(row as int, true), ..before.columns[i] }
                } else {
                    before.columns[i]
                }) by {
                    assert(here.columns[i] == if i < k {
                        MirroredModel {
                            mask: before.columns[i].mask.update(row as int, true),
                            ..before.columns[i]
                        }
                    } else {
                        before.columns[i]
                    });
                }
            }
            k = k + 1;
        }
        proof {
            assert(self@.columns =~= before.row_marked(row).columns);
        }
    }

    /// Marks rows of every column.
    pub fn mark_rows(&mut self, rows: &Vec<u32>)
        requires
            old(self).well_formed(),
            forall|i: int| 0 <= i < rows@.len() ==> (#[trigger] rows@[i]) < old(self)@.row_capacity(),
        ensures
            final(self).well_formed(),
            final(self)@ == old(self)@.rows_marked(rows@),
    {
        let ghost before = self@;
        let mut i: usize = 0;
        proof {
            assert(rows@.take(0) =~= Seq::<u32>::empty());
        }
        while i < rows.len()
            invariant
                i <= rows@.len(),
                self.well_formed(),
                self@.row_capacity() == before.row_capacity(),
                forall|k: int| 0 <= k < rows@.len() ==> (#[trigger] rows@[k]) < before.row_capacity(),
                self@ == before.rows_marked(rows@.take(i as int)),
            decreases rows@.len() - i,
        {
            self.mark_row(rows[i]);
            proof {
                assert(rows@.take(i + 1).drop_last() =~= rows@.take(i as int));
            }
            i = i + 1;
        }
        proof {
            assert(rows@.take(rows@.len() as int) =~= rows@);
        }
    }

    /// Takes all marks off.
    pub fn clear_marks(&mut self)
        requires
            old(self).well_formed(),
        ensures
            final(self).well_formed(),
            final(self)@ == old(self)@.cleaned(),
    {
        let ghost before = self@;
        let n: usize = self.columns.len();
        let mut k: usize = 0;
        while k < n
            invariant
                k <= n,
                n == self.columns@.len(),
                n == before.columns.len(),
                self@ == (CellStateModel { columns: self@.columns, ..before }),
                forall|i: int|
                    0 <= i < n ==> #[trigger] self@.columns[i] == (if i < k {
                        MirroredModel { mask: clean(before.columns[i].mask.len()), ..before.columns[i] }
                    } else {
                        before.columns[i]
                    }),
            decreases n - k,
        {
            let ghost here = self@;
            proof {
                assert(here.columns[k as int] == self.columns@[k as int]@);
                assert(here.columns[k as int] == before.columns[k as int]);
            }
            self.columns[k].mask.clear_all();
            proof {
                assert forall|i: int| 0 <= i < n implies #[trigger] self@.columns[i] == (if i < k + 1 {
                    MirroredModel { mask: clean(before.columns[i].mask.len()), ..before.columns[i] }
                } else {
                    before.columns[i]
                }) by {
                    assert(here.columns[i] == if i < k {
                        MirroredModel { mask: clean(before.columns[i].mask.len()), ..before.columns[i] }
                    } else {
                        before.columns[i]
                    });
                }
            }
            k = k + 1;
        }
        proof {
            assert(self@.columns =~= before.cleaned().columns);
        }
    }

    /// Queues the upload of the changed rows of the column at `k`.
    pub fn upload_column(&self, k: usize, cell: &CellStorage, stride: u32, queue: &mut CommandQueue) -> (stats:
        SyncStats)
        requires
            self.well_formed(),
            cell.well_formed(),
            self@.fits(cell@),
            k < self@.columns.len(),
        ensures
            final(queue)@ == old(queue)@ + column_commands(self@, k as int, cell@),
            stats == column_stats(self@, k as int, cell@, stride),
    {
        let n: u32 = cell.rows_in_use();
        let column = &self.columns[k];
        proof {
            assert(self@.columns[k as int] == column@);
            assert(cell@.column_ok(column.source as int));
            lemma_marked_prefix(column.mask@, n as int);
        }
        let ghost rows0 = column_rows(column@, cell@);
        let ghost source_rows = cell@.columns[column.source as int].rows;
        let mut rows: Vec<u32> = Vec::new();
        let mut values: Vec<Row> = Vec::new();
        let cells = cell.columns();
        let mut r: u32 = 0;
        proof {
            assert(cells@[column.source as int]@ == cell@.columns[column.source as int]);
        }
        while r < n
            invariant
                r <= n,
                n == cell@.rows(),
                n <= column.mask@.len(),
                column.source < cells@.len(),
                blobs(cells@[column.source as int].rows@) == source_rows,
                source_rows.len() == n,
                rows@ == marked_below(column.mask@, r as int),
                values@.len() == rows@.len(),
                forall|i: int|
                    0 <= i < rows@.len() ==> (#[trigger] rows@[i]) < r && values@[i]@ == source_rows[rows@[i] as int],
            decreases n - r,
        {
            if column.mask.is_marked(r) {
                proof {
                    assert(cells@[column.source as int].rows@.len() == source_rows.len());
                }
                rows.push(r);
                values.push(vstd::slice::slice_to_vec(cells[column.source].rows[r as usize].as_slice()));
                proof {
                    assert(source_rows[r as int] == cells@[column.source as int].rows@[r as int]@);
                }
            }
            r = r + 1;
        }
        proof {
            lemma_shifted(rows@, self.row_base, n as int);
            assert(blobs(values@) =~= rows@.map_values(|r: u32| source_rows[r as int]));
        }
        let at = shift_rows(&rows, self.row_base, Ghost(n as int));
        let runs: usize = count_runs(&at, Ghost(blobs(values@)));
        queue_direct_writes(queue, &at, &values);
        proof {
            let count = rows@.len();
            assert(count * stride <= u32::MAX * u32::MAX) by (nonlinear_arith)
                requires
                    0 <= count <= u32::MAX,
                    0 <= stride <= u32::MAX,
            ;
            lemma_run_total(at@, blobs(values@));
        }
        SyncStats { ranges: runs as u32, bytes: rows.len() as u64 * stride as u64 }
    }

    /// Queues the upload of the slots that changed, and notes them as uploaded.
    pub fn upload_slots(&mut self, cell: &CellStorage, queue: &mut CommandQueue) -> (stats: SyncStats)
        requires
            old(self).well_formed(),
            cell.well_formed(),
            old(self)@.fits(cell@),
        ensures
            final(self).well_formed(),
            final(self)@ == old(self)@.slots_uploaded(cell@.slots),
            final(queue)@ == old(queue)@ + slot_commands(old(self)@, cell@.slots),
            stats == slot_stats(old(self)@, cell@.slots),
    {
        let ghost before = self@;
        let slots = cell.slot_column();
        let n: usize = slots.len();
        let mut rows: Vec<u32> = Vec::new();
        let mut words: Vec<Row> = Vec::new();
        let mut r: usize = 0;
        proof {
            assert(self@.slot_shadow =~= before.slots_uploaded(slots@.take(0)).slot_shadow);
        }
        while r < n
            invariant
                r <= n,
                n == slots@.len(),
                n <= u32::MAX,
                n <= before.slot_shadow.len(),
                slots@ == cell@.slots,
                cell.well_formed(),
                before.fits(cell@),
                before.well_formed(),
                self@ == before.slots_uploaded(slots@.take(r as int)),
                rows@ == stale_rows(before.slot_shadow, slots@, r as int),
                words@.len() == rows@.len(),
                forall|i: int|
                    0 <= i < rows@.len() ==> (#[trigger] rows@[i]) < r && words@[i]@ == word_row(
                        (before.slot_base + slots@[rows@[i] as int]) as u32,
                    ),
            decreases n - r,
        {
            let expect: u32 = slots[r];
            proof {
                assert(cell@.row_ok(r as int));
                assert(self@.slot_shadow[r as int] == before.slot_shadow[r as int]);
            }
            if self.slot_shadow[r] != expect {
                rows.push(r as u32);
                words.push(make_word_row(self.slot_base + expect));
                self.slot_shadow[r] = expect;
            }
            proof {
                assert(self@.slot_shadow =~= before.slots_uploaded(slots@.take(r + 1)).slot_shadow);
            }
            r = r + 1;
        }
        proof {
            assert(slots@.take(n as int) =~= slots@);
            lemma_stale_rows(before.slot_shadow, slots@, n as int);
            lemma_shifted(rows@, self.row_base, n as int);
            assert(blobs(words@) =~= slot_words(before.slot_base, slots@, rows@));
        }
        let at = shift_rows(&rows, self.row_base, Ghost(n as int));
        let runs: usize = count_runs(&at, Ghost(blobs(words@)));
        queue_direct_writes(queue, &at, &words);
        proof {
            lemma_run_total(at@, blobs(words@));
        }
        SyncStats { ranges: runs as u32, bytes: rows.len() as u64 * 4 }
    }

    /// Queues the upload of a slot's generation, unless it is the one uploaded
    /// last. Returns whether it was queued.
    pub fn upload_generation(&mut self, slot: u32, generation: u32, queue: &mut CommandQueue) -> (queued: bool)
        requires
            old(self).well_formed(),
            slot < old(self)@.slot_capacity(),
        ensures
            final(self).well_formed(),
            queued == (old(self)@.gen_shadow[slot as int] != generation),
            final(self)@ == old(self)@.generation_uploaded(slot, generation),
            final(queue)@ == (if queued {
                old(queue)@.push(
                    CommandModel::Write {
                        row: (old(self)@.slot_base + slot) as u32,
                        data: seq![word_row(generation)],
                    },
                )
            } else {
                old(queue)@
            }),
    {
        let ghost before = self@;
        if self.gen_shadow[slot as usize] == generation {
            proof {
                assert(before.gen_shadow.update(slot as int, generation) =~= before.gen_shadow);
            }
            return false;
        }
        let mut data: Vec<Row> = Vec::new();
        data.push(make_word_row(generation));
        proof {
            assert(blobs(data@) =~= seq![word_row(generation)]);
        }
        queue.push(GpuCommand::Write { row: self.slot_base + slot, data });
        self.gen_shadow[slot as usize] = generation;
        proof {
            assert(self@.columns == before.columns);
        }
        true
    }
}

/// There are no more runs than rows.
proof fn lemma_run_total(rows: Seq<u32>, values: Seq<Seq<u8>>)
    requires
        rows_ascend(rows),
        rows.len() == values.len(),
    ensures
        direct_writes(rows, values).len() <= rows.len(),
    decreases rows.len(),
{
    if rows.len() > 0 {
        let k = crate::gpu::upload::run_len(rows) as int;
        if 0 < k <= rows.len() {
            let rest = rows.skip(k);
            assert forall|i: int, j: int| 0 <= i < j < rest.len() implies #[trigger] rest[i] < #[trigger] rest[j] by {
                assert(rows[i + k] < rows[j + k]);
            }
            lemma_run_total(rest, values.skip(k));
        }
    }
}

/// The device shows the slot last uploaded for every row of a cell.
pub open spec fn slots_on_device(state: CellStateModel, mem: Seq<Seq<u8>>) -> bool {
    &&& mem.len() <= u32::MAX
    &&& state.row_base + state.row_capacity() <= mem.len()
    &&& forall|r: int|
        0 <= r < state.row_capacity() && state.slot_shadow[r] != NEVER_UPLOADED ==> #[trigger] mem[state.row_base
            + r] == word_row((state.slot_base + state.slot_shadow[r]) as u32)
}

/// After the slots of a cell were uploaded, the device shows for every row in
/// use exactly the slot that the cell has for it, however the row came by it.
/// Rows outside of the cell's region are untouched.
pub proof fn lemma_slots_uploaded(state: CellStateModel, cell: CellModel, mem: Seq<Seq<u8>>)
    requires
        state.well_formed(),
        cell.well_formed(),
        state.fits(cell),
        slots_on_device(state, mem),
    ensures
        ({
            let now = run(mem, slot_commands(state, cell.slots), 4);
            &&& slots_on_device(state.slots_uploaded(cell.slots), now)
            &&& now.len() == mem.len()
            &&& forall|r: int|
                0 <= r < cell.rows() ==> #[trigger] now[state.row_base + r] == word_row(
                    (state.slot_base + cell.slots[r]) as u32,
                )
            &&& forall|i: int|
                0 <= i < mem.len() && !(state.row_base <= i < state.row_base + state.row_capacity())
                    ==> #[trigger] now[i] == mem[i]
        }),
{
    let n = cell.rows() as int;
    let rows = stale_rows(state.slot_shadow, cell.slots, n);
    lemma_stale_rows(state.slot_shadow, cell.slots, n);
    assert forall|i: int| 0 <= i < rows.len() implies (#[trigger] rows[i]) < n by {
        assert(rows.contains(rows[i]));
    }
    lemma_shifted(rows, state.row_base, n);
    let at = shifted(rows, state.row_base);
    let words = slot_words(state.slot_base, cell.slots, rows);
    assert forall|i: int| 0 <= i < at.len() implies (#[trigger] at[i]) < mem.len() by {
        assert(rows[i] < n);
    }
    lemma_direct_writes(mem, at, words, 4);
    let now = patched(mem, at, words);
    assert forall|r: int| 0 <= r < n implies #[trigger] now[state.row_base + r] == word_row(
        (state.slot_base + cell.slots[r]) as u32,
    ) by {
        let x = (state.row_base + r) as u32;
        assert(at.contains(x) <==> rows.contains(r as u32));
        assert(cell.row_ok(r));
        if at.contains(x) {
            let i = at.index_of(x);
            assert(at[i] == x);
            assert(rows[i] == r as u32);
            assert(words[i] == word_row((state.slot_base + cell.slots[r]) as u32));
        } else {
            assert(state.slot_shadow[r] == cell.slots[r]);
            assert(mem[state.row_base + r] == word_row((state.slot_base + state.slot_shadow[r]) as u32));
        }
    }
    let after = state.slots_uploaded(cell.slots);
    assert forall|r: int| 0 <= r < after.row_capacity() && after.slot_shadow[r] != NEVER_UPLOADED implies #[trigger] now[after.row_base
        + r] == word_row((after.slot_base + after.slot_shadow[r]) as u32) by {
        if r >= n {
            let x = (state.row_base + r) as u32;
            if at.contains(x) {
                assert(x < state.row_base + n);
            }
            assert(mem[state.row_base + r] == word_row((state.slot_base + state.slot_shadow[r]) as u32));
        } else {
            assert(now[state.row_base + r] == word_row((state.slot_base + cell.slots[r]) as u32));
        }
    }
    assert forall|i: int|
        0 <= i < mem.len() && !(state.row_base <= i < state.row_base + state.row_capacity()) implies #[trigger] now[i]
        == mem[i] by {
        if at.contains(i as u32) {
            assert(state.row_base <= i < state.row_base + n);
        }
    }
}

/// A device column shows the row of a cell wherever it has no mark.
pub open spec fn column_on_device(state: CellStateModel, k: int, cell: CellModel, mem: Seq<Seq<u8>>) -> bool {
    let column = state.columns[k];
    &&& mem.len() <= u32::MAX
    &&& state.row_base + state.row_capacity() <= mem.len()
    &&& forall|r: int|
        0 <= r < cell.rows() && !column.mask[r] ==> #[trigger] mem[state.row_base + r]
            == cell.columns[column.source as int].rows[r]
}

/// After a column of a cell was uploaded, the device shows all of its rows.
/// Rows outside of the cell's region are untouched.
pub proof fn lemma_column_uploaded(state: CellStateModel, k: int, cell: CellModel, mem: Seq<Seq<u8>>, stride: nat)
    requires
        state.well_formed(),
        cell.well_formed(),
        state.fits(cell),
        0 <= k < state.columns.len(),
        column_on_device(state, k, cell, mem),
    ensures
        ({
            let now = run(mem, column_commands(state, k, cell), stride);
            &&& column_on_device(state.cleaned(), k, cell, now)
            &&& now.len() == mem.len()
            &&& forall|r: int|
                0 <= r < cell.rows() ==> #[trigger] now[state.row_base + r]
                    == cell.columns[state.columns[k].source as int].rows[r]
            &&& forall|i: int|
                0 <= i < mem.len() && !(state.row_base <= i < state.row_base + state.row_capacity())
                    ==> #[trigger] now[i] == mem[i]
        }),
{
    let n = cell.rows() as int;
    let column = state.columns[k];
    let source = cell.columns[column.source as int].rows;
    let rows = column_rows(column, cell);
    lemma_marked_prefix(column.mask, n);
    assert forall|i: int| 0 <= i < rows.len() implies (#[trigger] rows[i]) < n by {
        assert(rows.contains(rows[i]));
    }
    lemma_shifted(rows, state.row_base, n);
    let at = shifted(rows, state.row_base);
    let values = rows.map_values(|r: u32| source[r as int]);
    assert forall|i: int| 0 <= i < at.len() implies (#[trigger] at[i]) < mem.len() by {
        assert(rows[i] < n);
    }
    lemma_direct_writes(mem, at, values, stride);
    let now = patched(mem, at, values);
    assert forall|r: int| 0 <= r < n implies #[trigger] now[state.row_base + r] == source[r] by {
        let x = (state.row_base + r) as u32;
        assert(at.contains(x) <==> rows.contains(r as u32));
        if at.contains(x) {
            let i = at.index_of(x);
            assert(at[i] == x);
            assert(rows[i] == r as u32);
            assert(values[i] == source[r]);
        } else {
            assert(!column.mask[r]);
            assert(mem[state.row_base + r] == source[r]);
        }
    }
    assert forall|i: int|
        0 <= i < mem.len() && !(state.row_base <= i < state.row_base + state.row_capacity()) implies #[trigger] now[i]
        == mem[i] by {
        if at.contains(i as u32) {
            assert(state.row_base <= i < state.row_base + n);
        }
    }
}

/// The device shows the generation last uploaded for every slot of a cell.
pub open spec fn generations_on_device(state: CellStateModel, mem: Seq<Seq<u8>>) -> bool {
    &&& state.slot_base + state.slot_capacity() <= mem.len()
    &&& forall|s: int|
        0 <= s < state.slot_capacity() ==> #[trigger] mem[state.slot_base + s] == word_row(state.gen_shadow[s])
}

/// Uploading a generation only when it changed keeps the device in step.
pub proof fn lemma_generation_uploaded(state: CellStateModel, slot: u32, generation: u32, mem: Seq<Seq<u8>>)
    requires
        state.well_formed(),
        slot < state.slot_capacity(),
        generations_on_device(state, mem),
    ensures
        state.gen_shadow[slot as int] == generation ==> generations_on_device(
            state.generation_uploaded(slot, generation),
            mem,
        ),
        generations_on_device(
            state.generation_uploaded(slot, generation),
            crate::gpu::device::executed(
                mem,
                CommandModel::Write {
                    row: (state.slot_base + slot) as u32,
                    data: seq![word_row(generation)],
                },
                4,
            ),
        ),
{
    let after = state.generation_uploaded(slot, generation);
    let now = crate::gpu::device::executed(
        mem,
        CommandModel::Write { row: (state.slot_base + slot) as u32, data: seq![word_row(generation)] },
        4,
    );
    assert forall|s: int| 0 <= s < after.slot_capacity() implies #[trigger] now[after.slot_base + s] == word_row(
        after.gen_shadow[s],
    ) by {
        assert(mem[state.slot_base + s] == word_row(state.gen_shadow[s]));
    }
    if state.gen_shadow[slot as int] == generation {
        assert(after.gen_shadow =~= state.gen_shadow);
    }
}

} // verus!
