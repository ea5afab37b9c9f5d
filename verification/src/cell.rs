//! Storage of a spatial cell: rows of columns, addressed by handles.

use vstd::prelude::*;
use crate::component::ComponentId;
use crate::replication::types::blobs;

verus! {

/// Row number that stands for no row.
pub const NO_ROW: u32 = 0xffff_ffff;

/// Identifies a row of a cell for as long as it is live: the slot that leads
/// to it, and the generation of the slot.
#[derive(Copy, Clone, Debug, PartialEq, Eq, Structural)]
pub struct Handle {
    pub slot: u32,
    pub generation: u32,
}

impl Handle {
    pub fn index(&self) -> (slot: u32)
        ensures
            slot == self.slot,
    {
        self.slot
    }

    pub fn generation(&self) -> (g: u32)
        ensures
            g == self.generation,
    {
        self.generation
    }
}

/// One column of a cell.
#[derive(Debug)]
pub struct CellColumn {
    pub id: ComponentId,
    /// Bytes of one row.
    pub stride: u32,
    pub rows: Vec<Vec<u8>>,
}

/// The value of a [`CellColumn`].
pub struct CellColumnModel {
    pub id: ComponentId,
    pub stride: u32,
    pub rows: Seq<Seq<u8>>,
}

impl View for CellColumn {
    type V = CellColumnModel;

    open spec fn view(&self) -> CellColumnModel {
        CellColumnModel { id: self.id, stride: self.stride, rows: blobs(self.rows@) }
    }
}

/// A row whose slot is to be retired later.
#[derive(Copy, Clone, Debug, PartialEq, Eq, Structural)]
pub struct PendingRetire {
    pub row: u32,
    pub slot: u32,
    /// The generation that the slot moves on to.
    pub next_gen: u32,
}

/// The rows of a spatial cell.
///
/// A row is live from its allocation until it is freed. Freed rows stay as
/// holes until the cell is compacted. A pinned row is dead, but must not be
/// moved or used again yet.
#[derive(Debug)]
pub struct CellStorage {
    capacity: u32,
    columns: Vec<CellColumn>,
    slots: Vec<u32>,
    live: Vec<bool>,
    pinned: Vec<bool>,
    generations: Vec<u32>,
    slot_rows: Vec<u32>,
    free_slots: Vec<u32>,
}

/// The value of a [`CellStorage`].
pub struct CellModel {
    /// Rows that the cell may have at most.
    pub capacity: u32,
    pub columns: Seq<CellColumnModel>,
    /// The slot of every row in use.
    pub slots: Seq<u32>,
    pub live: Seq<bool>,
    pub pinned: Seq<bool>,
    /// The generation of every slot.
    pub generations: Seq<u32>,
    /// The live row of every slot, or [`NO_ROW`].
    pub slot_rows: Seq<u32>,
    /// Slots that may be used again.
    pub free_slots: Seq<u32>,
}

/// The contents of a list of columns.
pub open spec fn cell_columns(v: Seq<CellColumn>) -> Seq<CellColumnModel> {
    v.map_values(|c: CellColumn| c@)
}

impl View for CellStorage {
    type V = CellModel;

    closed spec fn view(&self) -> CellModel {
        CellModel {
            capacity: self.capacity,
            columns: cell_columns(self.columns@),
            slots: self.slots@,
            live: self.live@,
            pinned: self.pinned@,
            generations: self.generations@,
            slot_rows: self.slot_rows@,
            free_slots: self.free_slots@,
        }
    }
}

/// The first column with the given id.
pub open spec fn column_index(columns: Seq<CellColumnModel>, id: ComponentId) -> Option<int>
    decreases columns.len(),
{
    if columns.len() == 0 {
        None
    } else {
        match column_index(columns.drop_last(), id) {
            Some(i) => Some(i),
            None => if columns.last().id == id {
                Some(columns.len() - 1)
            } else {
                None
            },
        }
    }
}

/// A row of zeros.
pub open spec fn zeros(stride: nat) -> Seq<u8> {
    Seq::new(stride, |i: int| 0u8)
}

impl CellModel {
    /// How many rows are in use, live ones and holes.
    pub open spec fn rows(self) -> nat {
        self.slots.len()
    }

    /// A column has a row of the right width for every row in use.
    pub open spec fn column_ok(self, i: int) -> bool {
        &&& self.columns[i].rows.len() == self.slots.len()
        &&& forall|r: int|
            0 <= r < self.columns[i].rows.len() ==> (#[trigger] self.columns[i].rows[r]).len()
                == self.columns[i].stride
    }

    /// A row has a slot, and a live row and its slot lead to each other.
    pub open spec fn row_ok(self, r: int) -> bool {
        &&& self.slots[r] < self.generations.len()
        &&& self.live[r] ==> self.slot_rows[self.slots[r] as int] == r
        &&& self.pinned[r] ==> !self.live[r]
    }

    /// A slot leads to a live row or to none.
    pub open spec fn slot_ok(self, s: int) -> bool {
        self.slot_rows[s] != NO_ROW ==> {
            &&& self.slot_rows[s] < self.slots.len()
            &&& self.live[self.slot_rows[s] as int]
            &&& self.slots[self.slot_rows[s] as int] == s
        }
    }

    /// The invariant of every cell.
    pub open spec fn well_formed(self) -> bool {
        &&& self.slots.len() <= self.capacity
        &&& self.capacity < NO_ROW
        &&& self.live.len() == self.slots.len()
        &&& self.pinned.len() == self.slots.len()
        &&& self.slot_rows.len() == self.generations.len()
        &&& self.generations.len() <= u32::MAX
        &&& forall|i: int| 0 <= i < self.columns.len() ==> #[trigger] self.column_ok(i)
        &&& forall|r: int| 0 <= r < self.slots.len() ==> #[trigger] self.row_ok(r)
        &&& forall|s: int| 0 <= s < self.generations.len() ==> #[trigger] self.slot_ok(s)
        &&& self.free_slots.no_duplicates()
        &&& forall|k: int|
            0 <= k < self.free_slots.len() ==> (#[trigger] self.free_slots[k]) < self.generations.len()
                && self.slot_rows[self.free_slots[k] as int] == NO_ROW
    }

    /// The live row of a handle, if it is not stale.
    pub open spec fn row_of(self, h: Handle) -> Option<u32> {
        if h.slot < self.generations.len() && self.generations[h.slot as int] == h.generation
            && self.slot_rows[h.slot as int] != NO_ROW {
            Some(self.slot_rows[h.slot as int])
        } else {
            None
        }
    }

    /// Whether a further row can be allocated.
    pub open spec fn has_room(self) -> bool {
        self.slots.len() < self.capacity && (self.free_slots.len() > 0 || self.generations.len() < u32::MAX)
    }

    /// The handle of the next row.
    pub open spec fn next_handle(self) -> Handle {
        if self.free_slots.len() > 0 {
            Handle {
                slot: self.free_slots.last(),
                generation: self.generations[self.free_slots.last() as int],
            }
        } else {
            Handle { slot: self.generations.len() as u32, generation: 1 }
        }
    }

    /// A zeroed live row was added at the end.
    pub open spec fn allocated(self) -> CellModel {
        let h = self.next_handle();
        let row = self.slots.len() as u32;
        CellModel {
            columns: self.columns.map_values(
                |c: CellColumnModel|
                    CellColumnModel { rows: c.rows.push(zeros(c.stride as nat)), ..c },
            ),
            slots: self.slots.push(h.slot),
            live: self.live.push(true),
            pinned: self.pinned.push(false),
            generations: if self.free_slots.len() > 0 {
                self.generations
            } else {
                self.generations.push(1)
            },
            slot_rows: if self.free_slots.len() > 0 {
                self.slot_rows.update(h.slot as int, row)
            } else {
                self.slot_rows.push(row)
            },
            free_slots: if self.free_slots.len() > 0 {
                self.free_slots.drop_last()
            } else {
                self.free_slots
            },
            ..self
        }
    }

    /// The row of one column has new bytes.
    pub open spec fn written(self, i: int, row: int, bytes: Seq<u8>) -> CellModel {
        CellModel {
            columns: self.columns.update(
                i,
                CellColumnModel { rows: self.columns[i].rows.update(row, bytes), ..self.columns[i] },
            ),
            ..self
        }
    }

    /// The generation that a slot moves on to. A slot at the last generation
    /// stays there and is not used again.
    pub open spec fn next_generation(self, slot: int) -> u32 {
        if self.generations[slot] == u32::MAX {
            u32::MAX
        } else {
            (self.generations[slot] + 1) as u32
        }
    }

    /// The row is dead and its slot leads to no row, but the slot is not
    /// retired yet.
    pub open spec fn marked_dead(self, row: int, pin: bool) -> CellModel {
        CellModel {
            live: self.live.update(row, false),
            pinned: self.pinned.update(row, pin),
            slot_rows: self.slot_rows.update(self.slots[row] as int, NO_ROW),
            ..self
        }
    }

    /// The slot has moved on to `generation`, and is free unless that is the
    /// last one.
    pub open spec fn retired(self, slot: u32, generation: u32) -> CellModel {
        CellModel {
            generations: self.generations.update(slot as int, generation),
            free_slots: if generation == u32::MAX {
                self.free_slots
            } else {
                self.free_slots.push(slot)
            },
            ..self
        }
    }
}

impl CellStorage {
    /// The invariant of every cell.
    pub open spec fn well_formed(&self) -> bool {
        self@.well_formed()
    }

    /// A cell without rows, with the given columns: for each its id and the
    /// bytes of a row.
    pub fn new(capacity: u32, columns: &Vec<(ComponentId, u32)>) -> (cell: CellStorage)
        requires
            capacity < NO_ROW,
        ensures
            cell.well_formed(),
            cell@ == (CellModel {
                capacity,
                columns: columns@.map_values(
                    |c: (ComponentId, u32)|
                        CellColumnModel { id: c.0, stride: c.1, rows: Seq::empty() },
                ),
                slots: Seq::empty(),
                live: Seq::empty(),
                pinned: Seq::empty(),
                generations: Seq::empty(),
                slot_rows: Seq::empty(),
                free_slots: Seq::empty(),
            }),
    {
        let mut list: Vec<CellColumn> = Vec::new();
        let mut i: usize = 0;
        while i < columns.len()
            invariant
                i <= columns@.len(),
                list@.len() == i,
                forall|k: int|
                    0 <= k < i ==> (#[trigger] list@[k]).id == columns@[k].0 && list@[k].stride == columns@[k].1
                        && list@[k].rows@.len() == 0,
            decreases columns@.len() - i,
        {
            list.push(CellColumn { id: columns[i].0, stride: columns[i].1, rows: Vec::new() });
            i = i + 1;
        }
        let cell = CellStorage {
            capacity,
            columns: list,
            slots: Vec::new(),
            live: Vec::new(),
            pinned: Vec::new(),
            generations: Vec::new(),
            slot_rows: Vec::new(),
            free_slots: Vec::new(),
        };
        proof {
            let want = columns@.map_values(
                |c: (ComponentId, u32)|
                    CellColumnModel { id: c.0, stride: c.1, rows: Seq::<Seq<u8>>::empty() },
            );
            assert forall|k: int| 0 <= k < want.len() implies #[trigger] cell@.columns[k] == want[k] by {
                assert(blobs(list@[k].rows@) =~= Seq::<Seq<u8>>::empty());
            }
            assert(cell@.columns =~= want);
        }
        cell
    }

    /// How many rows are in use, live ones and holes.
    pub fn rows_in_use(&self) -> (n: u32)
        requires
            self.well_formed(),
        ensures
            n == self@.rows(),
    {
        self.slots.len() as u32
    }

    /// Whether a row is live.
    pub fn is_row_live(&self, row: u32) -> (yes: bool)
        requires
            self.well_formed(),
            row < self@.rows(),
        ensures
            yes == self@.live[row as int],
    {
        self.live[row as usize]
    }

    /// Whether a row is pinned.
    pub fn is_row_pinned(&self, row: u32) -> (yes: bool)
        requires
            self.well_formed(),
            row < self@.rows(),
        ensures
            yes == self@.pinned[row as int],
    {
        self.pinned[row as usize]
    }

    /// The live row of a handle; `None` for a stale one.
    pub fn row_of(&self, handle: Handle) -> (row: Option<u32>)
        requires
            self.well_formed(),
        ensures
            row == self@.row_of(handle),
            row matches Some(r) ==> r < self@.rows() && self@.live[r as int],
    {
        proof {
            if handle.slot < self@.generations.len() {
                assert(self@.slot_ok(handle.slot as int));
            }
        }
        if (handle.slot as usize) < self.generations.len() && self.generations[handle.slot as usize]
            == handle.generation && self.slot_rows[handle.slot as usize] != NO_ROW {
            Some(self.slot_rows[handle.slot as usize])
        } else {
            None
        }
    }

    /// The generations of all slots.
    pub fn generations(&self) -> (list: &Vec<u32>)
        ensures
            list@ == self@.generations,
    {
        &self.generations
    }

    /// The slots of all rows in use.
    pub fn slot_column(&self) -> (list: &Vec<u32>)
        ensures
            list@ == self@.slots,
    {
        &self.slots
    }

    /// The columns.
    pub fn columns(&self) -> (list: &Vec<CellColumn>)
        ensures
            cell_columns(list@) == self@.columns,
    {
        &self.columns
    }

    /// Where the column with the given id stands.
    pub fn find_column(&self, id: ComponentId) -> (at: Option<usize>)
        ensures
            match at {
                Some(i) => column_index(self@.columns, id) == Some(i as int) && i < self@.columns.len()
                    && self@.columns[i as int].id == id,
                None => column_index(self@.columns, id) is None,
            },
    {
        let ghost all = self@.columns;
        let mut i: usize = 0;
        proof {
            assert(all.take(0) =~= Seq::<CellColumnModel>::empty());
        }
        while i < self.columns.len()
            invariant
                i <= self.columns@.len(),
                all == cell_columns(self.columns@),
                column_index(all.take(i as int), id) is None,
            decreases self.columns@.len() - i,
        {
            proof {
                assert(all.take(i + 1).drop_last() =~= all.take(i as int));
                assert(all.take(i + 1).last() == self.columns@[i as int]@);
            }
            if self.columns[i].id == id {
                proof {
                    lemma_column_index(all, id, i + 1);
                }
                return Some(i);
            }
            i = i + 1;
        }
        proof {
            assert(all.take(all.len() as int) =~= all);
        }
        None
    }

    /// Adds a zeroed live row at the end; `None` if the cell is full.
    pub fn allocate(&mut self) -> (handle: Option<Handle>)
        requires
            old(self).well_formed(),
        ensures
            final(self).well_formed(),
            handle is Some <==> old(self)@.has_room(),
            handle matches Some(h) ==> {
                &&& h == old(self)@.next_handle()
                &&& final(self)@ == old(self)@.allocated()
                &&& final(self)@.row_of(h) == Some(old(self)@.rows() as u32)
            },
            handle is None ==> final(self)@ == old(self)@,
    {
        let ghost before = self@;
        if self.slots.len() >= self.capacity as usize {
            return None;
        }
        let row: u32 = self.slots.len() as u32;
        let handle: Handle = if self.free_slots.len() > 0 {
            let slot: u32 = self.free_slots[self.free_slots.len() - 1];
            proof {
                assert(before.free_slots[before.free_slots.len() - 1] == slot);
            }
            Handle { slot, generation: self.generations[slot as usize] }
        } else {
            if self.generations.len() >= u32::MAX as usize {
                return None;
            }
            Handle { slot: self.generations.len() as u32, generation: 1 }
        };
        if self.free_slots.len() > 0 {
            self.free_slots.pop();
            self.slot_rows[handle.slot as usize] = row;
        } else {
            self.generations.push(1);
            self.slot_rows.push(row);
        }
        self.slots.push(handle.slot);
        self.live.push(true);
        self.pinned.push(false);
        self.add_column_rows();
        proof {
            let after = before.allocated();
            assert(self@.columns =~= after.columns);
            assert(self@.free_slots =~= after.free_slots);
            assert(self@ == after);
            lemma_allocated(before);
        }
        Some(handle)
    }

    /// Adds a row of zeros to every column.
    fn add_column_rows(&mut self)
        ensures
            final(self)@ == (CellModel {
                columns: old(self)@.columns.map_values(
                    |c: CellColumnModel|
                        CellColumnModel { rows: c.rows.push(zeros(c.stride as nat)), ..c },
                ),
                ..old(self)@
            }),
    {
        let ghost before = self@;
        let ghost old_columns = self.columns@;
        let n: usize = self.columns.len();
        let mut i: usize = 0;
        while i < n
            invariant
                i <= n,
                n == self.columns@.len(),
                n == old_columns.len(),
                before == (CellModel { columns: cell_columns(old_columns), ..self@ }),
                forall|k: int| i <= k < n ==> #[trigger] self.columns@[k] == old_columns[k],
                forall|k: int|
                    0 <= k < i ==> (#[trigger] self.columns@[k]).id == old_columns[k].id
                        && self.columns@[k].stride == old_columns[k].stride && blobs(self.columns@[k].rows@)
                        == blobs(old_columns[k].rows@).push(zeros(old_columns[k].stride as nat)),
            decreases n - i,
        {
            let stride: u32 = self.columns[i].stride;
            let fresh: Vec<u8> = make_zeros(stride);
            let ghost was = self.columns@[i as int].rows@;
            self.columns[i].rows.push(fresh);
            proof {
                assert(blobs(self.columns@[i as int].rows@) =~= blobs(was).push(zeros(stride as nat)));
            }
            i = i + 1;
        }
        proof {
            assert(self@.columns =~= before.columns.map_values(
                |c: CellColumnModel|
                    CellColumnModel { rows: c.rows.push(zeros(c.stride as nat)), ..c },
            ));
        }
    }

    /// Writes a row of a column.
    pub fn write_row(&mut self, column: usize, row: u32, bytes: &[u8])
        requires
            old(self).well_formed(),
            column < old(self)@.columns.len(),
            row < old(self)@.rows(),
            bytes@.len() == old(self)@.columns[column as int].stride,
        ensures
            final(self).well_formed(),
            final(self)@ == old(self)@.written(column as int, row as int, bytes@),
    {
        let ghost before = self@;
        let ghost old_columns = self.columns@;
        proof {
            assert(before.column_ok(column as int));
            assert(blobs(self.columns@[column as int].rows@).len() == self.columns@[column as int].rows@.len());
        }
        self.columns[column].rows[row as usize] = vstd::slice::slice_to_vec(bytes);
        proof {
            let after = before.written(column as int, row as int, bytes@);
            assert(blobs(self.columns@[column as int].rows@) =~= before.columns[column as int].rows.update(
                row as int,
                bytes@,
            ));
            assert(self@.columns =~= after.columns);
            assert(self@ == after);
            lemma_written(before, column as int, row as int, bytes@);
        }
    }

    /// Frees the row of a handle: the row becomes a hole, and its slot moves on
    /// to the next generation. Returns whether the handle was not stale.
    pub fn free(&mut self, handle: Handle) -> (freed: bool)
        requires
            old(self).well_formed(),
        ensures
            final(self).well_formed(),
            match old(self)@.row_of(handle) {
                Some(r) => freed && final(self)@ == old(self)@.marked_dead(r as int, false).retired(
                    handle.slot,
                    old(self)@.next_generation(handle.slot as int),
                ),
                None => !freed && final(self)@ == old(self)@,
            },
    {
        match self.kill(handle, false) {
            Some(pending) => {
                self.retire(pending.slot, pending.next_gen);
                true
            },
            None => false,
        }
    }

    /// Makes the row of a handle dead and pins it, until the retirement that is
    /// returned is committed; `None` for a stale handle.
    pub fn mark_pending_retire(&mut self, handle: Handle) -> (pending: Option<PendingRetire>)
        requires
            old(self).well_formed(),
        ensures
            final(self).well_formed(),
            match old(self)@.row_of(handle) {
                Some(r) => pending == Some(
                    PendingRetire {
                        row: r,
                        slot: handle.slot,
                        next_gen: old(self)@.next_generation(handle.slot as int),
                    },
                ) && final(self)@ == old(self)@.marked_dead(r as int, true),
                None => pending is None && final(self)@ == old(self)@,
            },
    {
        self.kill(handle, true)
    }

    fn kill(&mut self, handle: Handle, pin: bool) -> (pending: Option<PendingRetire>)
        requires
            old(self).well_formed(),
        ensures
            final(self).well_formed(),
            match old(self)@.row_of(handle) {
                Some(r) => pending == Some(
                    PendingRetire {
                        row: r,
                        slot: handle.slot,
                        next_gen: old(self)@.next_generation(handle.slot as int),
                    },
                ) && r < old(self)@.rows() && old(self)@.live[r as int] && old(self)@.slots[r as int] == handle.slot
                    && handle.slot < old(self)@.generations.len() && !old(self)@.free_slots.contains(handle.slot)
                    && final(self)@ == old(self)@.marked_dead(
                    r as int,
                    pin,
                ),
                None => pending is None && final(self)@ == old(self)@,
            },
    {
        let ghost before = self@;
        let row: u32 = match self.row_of(handle) {
            Some(r) => r,
            None => {
                return None;
            },
        };
        proof {
            assert(before.slot_ok(handle.slot as int));
            assert(before.row_ok(row as int));
        }
        proof {
            if before.free_slots.contains(handle.slot) {
                let k = before.free_slots.index_of(handle.slot);
                assert(before.free_slots[k] == handle.slot);
            }
        }
        let generation: u32 = self.generations[handle.slot as usize];
        let next_gen: u32 = if generation == u32::MAX {
            u32::MAX
        } else {
            generation + 1
        };
        self.live[row as usize] = false;
        self.pinned[row as usize] = pin;
        self.slot_rows[handle.slot as usize] = NO_ROW;
        proof {
            let after = before.marked_dead(row as int, pin);
            assert(self@ == after);
            lemma_marked_dead(before, row as int, pin);
        }
        Some(PendingRetire { row, slot: handle.slot, next_gen })
    }

    fn retire(&mut self, slot: u32, generation: u32)
        requires
            old(self).well_formed(),
            slot < old(self)@.generations.len(),
            old(self)@.slot_rows[slot as int] == NO_ROW,
            !old(self)@.free_slots.contains(slot),
        ensures
            final(self).well_formed(),
            final(self)@ == old(self)@.retired(slot, generation),
    {
        let ghost before = self@;
        self.generations[slot as usize] = generation;
        if generation != u32::MAX {
            self.free_slots.push(slot);
        }
        proof {
            let after = before.retired(slot, generation);
            assert(self@ == after);
            assert forall|i: int| 0 <= i < after.columns.len() implies #[trigger] after.column_ok(i) by {
                assert(before.column_ok(i));
            }
            assert forall|r: int| 0 <= r < after.slots.len() implies #[trigger] after.row_ok(r) by {
                assert(before.row_ok(r));
            }
            assert forall|s: int| 0 <= s < after.generations.len() implies #[trigger] after.slot_ok(s) by {
                assert(before.slot_ok(s));
            }
        }
    }

    /// Commits a retirement: the row is no longer pinned, and the slot moves on
    /// to its new generation.
    pub fn commit_retire(&mut self, pending: PendingRetire)
        requires
            old(self).well_formed(),
            pending.row < old(self)@.rows(),
            pending.slot < old(self)@.generations.len(),
            old(self)@.slot_rows[pending.slot as int] == NO_ROW,
            !old(self)@.free_slots.contains(pending.slot),
        ensures
            final(self).well_formed(),
            final(self)@ == (CellModel {
                pinned: old(self)@.pinned.update(pending.row as int, false),
                ..old(self)@
            }).retired(pending.slot, pending.next_gen),
    {
        let ghost before = self@;
        self.pinned[pending.row as usize] = false;
        proof {
            let after = self@;
            assert(after == (CellModel { pinned: before.pinned.update(pending.row as int, false), ..before }));
            assert forall|i: int| 0 <= i < after.columns.len() implies #[trigger] after.column_ok(i) by {
                assert(before.column_ok(i));
            }
            assert forall|r: int| 0 <= r < after.slots.len() implies #[trigger] after.row_ok(r) by {
                assert(before.row_ok(r));
            }
            assert forall|s: int| 0 <= s < after.generations.len() implies #[trigger] after.slot_ok(s) by {
                assert(before.slot_ok(s));
            }
        }
        self.retire(pending.slot, pending.next_gen);
    }
}

/// A row of zeros.
fn make_zeros(stride: u32) -> (row: Vec<u8>)
    ensures
        row@ == zeros(stride as nat),
{
    let mut row: Vec<u8> = Vec::new();
    let mut i: u32 = 0;
    while i < stride
        invariant
            i <= stride,
            row@ == zeros(i as nat),
        decreases stride - i,
    {
        row.push(0);
        i = i + 1;
        proof {
            assert(row@ =~= zeros(i as nat));
        }
    }
    row
}

proof fn lemma_column_index(columns: Seq<CellColumnModel>, id: ComponentId, n: int)
    requires
        0 <= n <= columns.len(),
        column_index(columns.take(n), id) is Some,
    ensures
        column_index(columns, id) == column_index(columns.take(n), id),
    decreases columns.len() - n,
{
    if n == columns.len() {
        assert(columns.take(n) =~= columns);
    } else {
        assert(columns.take(n + 1).drop_last() =~= columns.take(n));
        lemma_column_index(columns, id, n + 1);
    }
}

proof fn lemma_allocated(m: CellModel)
    requires
        m.well_formed(),
        m.has_room(),
    ensures
        m.allocated().well_formed(),
        m.allocated().row_of(m.next_handle()) == Some(m.rows() as u32),
{
    let after = m.allocated();
    let h = m.next_handle();
    if m.free_slots.len() > 0 {
        assert(m.free_slots[m.free_slots.len() - 1] == h.slot);
    }
    assert forall|i: int| 0 <= i < after.columns.len() implies #[trigger] after.column_ok(i) by {
        assert(m.column_ok(i));
        assert forall|r: int| 0 <= r < after.columns[i].rows.len() implies (#[trigger] after.columns[i].rows[r]).len()
            == after.columns[i].stride by {
            if r < m.columns[i].rows.len() {
                assert(after.columns[i].rows[r] == m.columns[i].rows[r]);
            }
        }
    }
    assert forall|r: int| 0 <= r < after.slots.len() implies #[trigger] after.row_ok(r) by {
        if r < m.slots.len() {
            assert(m.row_ok(r));
        }
    }
    assert forall|s: int| 0 <= s < after.generations.len() implies #[trigger] after.slot_ok(s) by {
        if s < m.generations.len() {
            assert(m.slot_ok(s));
        }
    }
    assert forall|k: int| 0 <= k < after.free_slots.len() implies (#[trigger] after.free_slots[k])
        < after.generations.len() && after.slot_rows[after.free_slots[k] as int] == NO_ROW by {
        assert(m.free_slots[k] == after.free_slots[k]);
        if m.free_slots.len() > 0 {
            assert(m.free_slots[k] != m.free_slots[m.free_slots.len() - 1]);
        }
    }
}

proof fn lemma_written(m: CellModel, i: int, row: int, bytes: Seq<u8>)
    requires
        m.well_formed(),
        0 <= i < m.columns.len(),
        0 <= row < m.rows(),
        bytes.len() == m.columns[i].stride,
    ensures
        m.written(i, row, bytes).well_formed(),
{
    let after = m.written(i, row, bytes);
    assert forall|k: int| 0 <= k < after.columns.len() implies #[trigger] after.column_ok(k) by {
        assert(m.column_ok(k));
        assert forall|r: int| 0 <= r < after.columns[k].rows.len() implies (#[trigger] after.columns[k].rows[r]).len()
            == after.columns[k].stride by {
            assert(m.columns[k].rows[r].len() == m.columns[k].stride);
        }
    }
    assert forall|r: int| 0 <= r < after.slots.len() implies #[trigger] after.row_ok(r) by {
        assert(m.row_ok(r));
    }
    assert forall|s: int| 0 <= s < after.generations.len() implies #[trigger] after.slot_ok(s) by {
        assert(m.slot_ok(s));
    }
}

proof fn lemma_marked_dead(m: CellModel, row: int, pin: bool)
    requires
        m.well_formed(),
        0 <= row < m.rows(),
        m.live[row],
    ensures
        m.marked_dead(row, pin).well_formed(),
{
    let after = m.marked_dead(row, pin);
    assert(m.row_ok(row));
    assert forall|i: int| 0 <= i < after.columns.len() implies #[trigger] after.column_ok(i) by {
        assert(m.column_ok(i));
    }
    assert forall|r: int| 0 <= r < after.slots.len() implies #[trigger] after.row_ok(r) by {
        assert(m.row_ok(r));
        if after.live[r] {
            assert(m.slots[r] != m.slots[row]);
        }
    }
    assert forall|s: int| 0 <= s < after.generations.len() implies #[trigger] after.slot_ok(s) by {
        assert(m.slot_ok(s));
    }
}

/// The first row that is dead and not pinned, from `r` on.
pub open spec fn first_hole(m: CellModel, r: int) -> Option<int>
    decreases m.slots.len() - r,
{
    if r < 0 || r >= m.slots.len() {
        None
    } else if !m.live[r] && !m.pinned[r] {
        Some(r)
    } else {
        first_hole(m, r + 1)
    }
}

impl CellModel {
    /// The last row was dropped.
    pub open spec fn popped(self) -> CellModel {
        CellModel {
            columns: self.columns.map_values(
                |c: CellColumnModel| CellColumnModel { rows: c.rows.drop_last(), ..c },
            ),
            slots: self.slots.drop_last(),
            live: self.live.drop_last(),
            pinned: self.pinned.drop_last(),
            ..self
        }
    }

    /// The last row, which is live, was copied into row `to`.
    pub open spec fn copied_last(self, to: int) -> CellModel {
        CellModel {
            columns: self.columns.map_values(
                |c: CellColumnModel| CellColumnModel { rows: c.rows.update(to, c.rows.last()), ..c },
            ),
            slots: self.slots.update(to, self.slots.last()),
            live: self.live.update(to, true),
            slot_rows: self.slot_rows.update(self.slots.last() as int, to as u32),
            ..self
        }
    }
}

/// A cell after compaction, and the rows that were filled, in order. Live rows
/// from the end fill the holes; a pinned row at the end stops this.
pub open spec fn compacted(m: CellModel) -> (CellModel, Seq<u32>)
    decreases m.slots.len(),
{
    if m.slots.len() == 0 || m.pinned.last() {
        (m, Seq::empty())
    } else if !m.live.last() {
        compacted(m.popped())
    } else {
        match first_hole(m, 0) {
            Some(to) if 0 <= to < m.slots.len() => {
                let rest = compacted(m.copied_last(to).popped());
                (rest.0, seq![to as u32] + rest.1)
            },
            _ => (m, Seq::empty()),
        }
    }
}

/// The first hole is a hole, and there is none before it.
pub proof fn lemma_first_hole(m: CellModel, r: int)
    requires
        0 <= r <= m.slots.len(),
    ensures
        match first_hole(m, r) {
            Some(h) => r <= h < m.slots.len() && !m.live[h] && !m.pinned[h] && forall|k: int|
                r <= k < h ==> m.live[k] || #[trigger] m.pinned[k],
            None => forall|k: int| r <= k < m.slots.len() ==> m.live[k] || #[trigger] m.pinned[k],
        },
    decreases m.slots.len() - r,
{
    if r < m.slots.len() && !(!m.live[r] && !m.pinned[r]) {
        lemma_first_hole(m, r + 1);
    }
}

/// Dropping a last row that is not live keeps the invariant.
pub proof fn lemma_popped(m: CellModel)
    requires
        m.well_formed(),
        m.slots.len() > 0,
        !m.live.last(),
    ensures
        m.popped().well_formed(),
{
    let after = m.popped();
    assert forall|i: int| 0 <= i < after.columns.len() implies #[trigger] after.column_ok(i) by {
        assert(m.column_ok(i));
        assert forall|r: int| 0 <= r < after.columns[i].rows.len() implies (#[trigger] after.columns[i].rows[r]).len()
            == after.columns[i].stride by {
            assert(m.columns[i].rows[r].len() == m.columns[i].stride);
        }
    }
    assert forall|r: int| 0 <= r < after.slots.len() implies #[trigger] after.row_ok(r) by {
        assert(m.row_ok(r));
    }
    assert forall|s: int| 0 <= s < after.generations.len() implies #[trigger] after.slot_ok(s) by {
        assert(m.slot_ok(s));
    }
}

/// Moving the last row into a hole keeps the invariant.
pub proof fn lemma_moved(m: CellModel, to: int)
    requires
        m.well_formed(),
        0 <= to < m.slots.len() - 1,
        !m.live[to],
        !m.pinned[to],
        m.live.last(),
    ensures
        m.copied_last(to).popped().well_formed(),
{
    let after = m.copied_last(to).popped();
    let last = m.slots.len() - 1;
    assert(m.row_ok(last));
    assert forall|i: int| 0 <= i < after.columns.len() implies #[trigger] after.column_ok(i) by {
        assert(m.column_ok(i));
        assert forall|r: int| 0 <= r < after.columns[i].rows.len() implies (#[trigger] after.columns[i].rows[r]).len()
            == after.columns[i].stride by {
            assert(m.columns[i].rows[r].len() == m.columns[i].stride);
            assert(m.columns[i].rows[last].len() == m.columns[i].stride);
        }
    }
    assert forall|r: int| 0 <= r < after.slots.len() implies #[trigger] after.row_ok(r) by {
        assert(m.row_ok(r));
        if r != to && m.live[r] {
            assert(m.slots[r] != m.slots[last]);
        }
    }
    assert forall|s: int| 0 <= s < after.generations.len() implies #[trigger] after.slot_ok(s) by {
        assert(m.slot_ok(s));
    }
    assert forall|k: int| 0 <= k < after.free_slots.len() implies (#[trigger] after.free_slots[k])
        < after.generations.len() && after.slot_rows[after.free_slots[k] as int] == NO_ROW by {
        assert(m.free_slots[k] == after.free_slots[k]);
    }
}

/// Compaction keeps the invariant, every handle and every byte of a live row,
/// and adds no row.
pub proof fn lemma_compaction_keeps_live_rows(m: CellModel, h: Handle, i: int)
    requires
        m.well_formed(),
        0 <= i < m.columns.len(),
    ensures
        ({
            let after = compacted(m).0;
            &&& after.well_formed()
            &&& after.rows() <= m.rows()
            &&& after.columns.len() == m.columns.len()
            &&& after.columns[i].id == m.columns[i].id
            &&& (after.row_of(h) is Some <==> m.row_of(h) is Some)
            &&& m.row_of(h) matches Some(r) ==> {
                let to = after.row_of(h).unwrap();
                after.columns[i].rows[to as int] == m.columns[i].rows[r as int]
            }
        }),
    decreases m.slots.len(),
{
    if m.slots.len() == 0 || m.pinned.last() {
    } else if !m.live.last() {
        lemma_popped(m);
        if h.slot < m.generations.len() {
            assert(m.slot_ok(h.slot as int));
        }
        assert(m.column_ok(i));
        lemma_compaction_keeps_live_rows(m.popped(), h, i);
    } else {
        lemma_first_hole(m, 0);
        match first_hole(m, 0) {
            None => {},
            Some(to) => {
                let last = m.slots.len() - 1;
                assert(to != last);
                lemma_moved(m, to);
                let next = m.copied_last(to).popped();
                assert(m.column_ok(i));
                assert(m.row_ok(last));
                if h.slot < m.generations.len() {
                    assert(m.slot_ok(h.slot as int));
                }
                lemma_compaction_keeps_live_rows(next, h, i);
            },
        }
    }
}

/// Compaction keeps the invariant and the slots, and only ever fills rows that
/// are in use.
pub proof fn lemma_compacted(m: CellModel)
    requires
        m.well_formed(),
    ensures
        compacted(m).0.well_formed(),
        compacted(m).0.rows() <= m.rows(),
        compacted(m).0.generations == m.generations,
        compacted(m).0.capacity == m.capacity,
        compacted(m).0.columns.len() == m.columns.len(),
        forall|k: int| 0 <= k < compacted(m).1.len() ==> (#[trigger] compacted(m).1[k]) < m.rows(),
    decreases m.slots.len(),
{
    if m.slots.len() == 0 || m.pinned.last() {
    } else if !m.live.last() {
        lemma_popped(m);
        lemma_compacted(m.popped());
    } else {
        lemma_first_hole(m, 0);
        match first_hole(m, 0) {
            None => {},
            Some(to) => {
                assert(to != m.slots.len() - 1);
                lemma_moved(m, to);
                lemma_compacted(m.copied_last(to).popped());
            },
        }
    }
}

/// How many of the rows are live.
pub open spec fn live_count(live: Seq<bool>) -> nat {
    live.filter(|l: bool| l).len()
}

proof fn lemma_live_count_step(live: Seq<bool>)
    requires
        live.len() > 0,
    ensures
        live_count(live) == live_count(live.drop_last()) + (if live.last() {
            1nat
        } else {
            0nat
        }),
{
    reveal(Seq::filter);
}

proof fn lemma_live_count_update(live: Seq<bool>, at: int)
    requires
        0 <= at < live.len(),
        !live[at],
    ensures
        live_count(live.update(at, true)) == live_count(live) + 1,
    decreases live.len(),
{
    let after = live.update(at, true);
    lemma_live_count_step(live);
    lemma_live_count_step(after);
    if at == live.len() - 1 {
        assert(after.drop_last() =~= live.drop_last());
    } else {
        assert(after.drop_last() =~= live.drop_last().update(at, true));
        lemma_live_count_update(live.drop_last(), at);
    }
}

proof fn lemma_all_live(live: Seq<bool>)
    requires
        forall|r: int| 0 <= r < live.len() ==> live[r],
    ensures
        live_count(live) == live.len(),
    decreases live.len(),
{
    if live.len() > 0 {
        lemma_live_count_step(live);
        lemma_all_live(live.drop_last());
    } else {
        reveal(Seq::filter);
    }
}

/// Compaction leaves a hole only while the last row is pinned. Without pinned rows
/// every row in use is live afterwards, and there are as many as there were live rows
/// before.
pub proof fn lemma_compaction_leaves_no_hole(m: CellModel)
    requires
        m.well_formed(),
    ensures
        forall|r: int|
            0 <= r < compacted(m).0.rows() && !compacted(m).0.live[r] && !(#[trigger] compacted(m).0.pinned[r])
                ==> compacted(m).0.pinned.last(),
        live_count(compacted(m).0.live) == live_count(m.live),
        (forall|r: int| 0 <= r < m.rows() ==> !#[trigger] m.pinned[r]) ==> {
            &&& forall|r: int| 0 <= r < compacted(m).0.rows() ==> #[trigger] compacted(m).0.live[r]
            &&& compacted(m).0.rows() == live_count(m.live)
        },
    decreases m.slots.len(),
{
    if m.slots.len() == 0 {
        lemma_all_live(m.live);
    } else if m.pinned.last() {
        assert(m.pinned[m.rows() - 1]);
    } else if !m.live.last() {
        lemma_popped(m);
        lemma_live_count_step(m.live);
        lemma_compaction_leaves_no_hole(m.popped());
        if forall|r: int| 0 <= r < m.rows() ==> !#[trigger] m.pinned[r] {
            assert forall|r: int| 0 <= r < m.popped().rows() implies !#[trigger] m.popped().pinned[r] by {
                assert(!m.pinned[r]);
            }
        }
    } else {
        lemma_first_hole(m, 0);
        match first_hole(m, 0) {
            None => {
                if forall|r: int| 0 <= r < m.rows() ==> !#[trigger] m.pinned[r] {
                    assert forall|r: int| 0 <= r < m.rows() implies #[trigger] m.live[r] by {
                        assert(m.live[r] || m.pinned[r]);
                    }
                    lemma_all_live(m.live);
                }
            },
            Some(to) => {
                let last = m.slots.len() - 1;
                assert(to != last);
                lemma_moved(m, to);
                let next = m.copied_last(to).popped();
                assert(m.live.update(to, true).last() == m.live.last());
                lemma_live_count_update(m.live, to);
                lemma_live_count_step(m.live.update(to, true));
                lemma_compaction_leaves_no_hole(next);
                if forall|r: int| 0 <= r < m.rows() ==> !#[trigger] m.pinned[r] {
                    assert forall|r: int| 0 <= r < next.rows() implies !#[trigger] next.pinned[r] by {
                        assert(!m.pinned[r]);
                    }
                }
            },
        }
    }
}

proof fn lemma_full_rows_stay(m: CellModel, t: int)
    requires
        m.well_formed(),
        0 <= t <= m.rows(),
        forall|r: int| 0 <= r < t ==> m.live[r] || #[trigger] m.pinned[r],
    ensures
        t <= compacted(m).0.rows(),
        forall|k: int| 0 <= k < compacted(m).1.len() ==> t <= #[trigger] compacted(m).1[k],
        forall|r: int| 0 <= r < t ==> compacted(m).0.live[r] == #[trigger] m.live[r],
    decreases m.slots.len(),
{
    if m.slots.len() == 0 || m.pinned.last() {
    } else if !m.live.last() {
        lemma_popped(m);
        assert(!m.live[m.rows() - 1] && !m.pinned[m.rows() - 1]);
        let next = m.popped();
        assert forall|r: int| 0 <= r < t implies next.live[r] || #[trigger] next.pinned[r] by {
            assert(m.live[r] || m.pinned[r]);
        }
        lemma_full_rows_stay(next, t);
        assert forall|r: int| 0 <= r < t implies compacted(m).0.live[r] == #[trigger] m.live[r] by {
            assert(next.live[r] == m.live[r]);
        }
    } else {
        lemma_first_hole(m, 0);
        match first_hole(m, 0) {
            None => {},
            Some(to) => {
                assert(to != m.slots.len() - 1);
                lemma_moved(m, to);
                let next = m.copied_last(to).popped();
                if to < t {
                    assert(m.live[to] || m.pinned[to]);
                }
                assert forall|r: int| 0 <= r < t implies next.live[r] || #[trigger] next.pinned[r] by {
                    assert(m.live[r] || m.pinned[r]);
                }
                lemma_full_rows_stay(next, t);
                assert forall|r: int| 0 <= r < t implies compacted(m).0.live[r] == #[trigger] m.live[r] by {
                    assert(next.live[r] == m.live[r]);
                }
                let rest = compacted(next).1;
                assert forall|k: int| 0 <= k < compacted(m).1.len() implies t <= #[trigger] compacted(m).1[k] by {
                    if k > 0 {
                        assert(compacted(m).1[k] == rest[k - 1]);
                    }
                }
            },
        }
    }
}

/// Compaction reports exactly the rows that it filled, once each and in ascending
/// order: every one was a hole before and is live after. Every other row that stays
/// in use is untouched, and no pinned row goes. Only rows of the cell change: its
/// slots keep their generations, and the same slots are free.
pub proof fn lemma_compaction_moves(m: CellModel)
    requires
        m.well_formed(),
    ensures
        ({
            let after = compacted(m).0;
            let moved = compacted(m).1;
            &&& forall|k: int|
                0 <= k < moved.len() ==> {
                    &&& (#[trigger] moved[k]) < after.rows()
                    &&& !m.live[moved[k] as int]
                    &&& !m.pinned[moved[k] as int]
                    &&& after.live[moved[k] as int]
                }
            &&& forall|i: int, j: int| 0 <= i < j < moved.len() ==> #[trigger] moved[i] < #[trigger] moved[j]
            &&& forall|r: int|
                0 <= r < after.rows() && !moved.contains(r as u32) ==> {
                    &&& #[trigger] after.slots[r] == m.slots[r]
                    &&& after.live[r] == m.live[r]
                    &&& after.pinned[r] == m.pinned[r]
                }
            &&& forall|c: int, r: int|
                0 <= c < m.columns.len() && 0 <= r < after.rows() && !moved.contains(r as u32)
                    ==> #[trigger] after.columns[c].rows[r] == m.columns[c].rows[r]
            &&& forall|r: int| 0 <= r < m.rows() && #[trigger] m.pinned[r] ==> r < after.rows() && after.pinned[r]
            &&& after.columns.len() == m.columns.len()
            &&& after.rows() <= m.rows()
            &&& after.generations == m.generations
            &&& after.free_slots == m.free_slots
            &&& after.capacity == m.capacity
        }),
    decreases m.slots.len(),
{
    let after = compacted(m).0;
    let moved = compacted(m).1;
    if m.slots.len() == 0 || m.pinned.last() {
    } else if !m.live.last() {
        let next = m.popped();
        lemma_popped(m);
        lemma_compaction_moves(next);
        assert forall|r: int| 0 <= r < after.rows() && !moved.contains(r as u32) implies {
            &&& #[trigger] after.slots[r] == m.slots[r]
            &&& after.live[r] == m.live[r]
            &&& after.pinned[r] == m.pinned[r]
        } by {
            assert(after.slots[r] == next.slots[r]);
        }
        assert forall|c: int, r: int|
            0 <= c < m.columns.len() && 0 <= r < after.rows() && !moved.contains(r as u32) implies #[trigger] after.columns[c].rows[r]
            == m.columns[c].rows[r] by {
            assert(m.column_ok(c));
            assert(after.columns[c].rows[r] == next.columns[c].rows[r]);
        }
        assert forall|r: int| 0 <= r < m.rows() && #[trigger] m.pinned[r] implies r < after.rows() && after.pinned[r] by {
            assert(next.pinned[r]);
        }
    } else {
        lemma_first_hole(m, 0);
        match first_hole(m, 0) {
            None => {},
            Some(to) => {
                let last = m.slots.len() - 1;
                assert(to != last);
                lemma_moved(m, to);
                let next = m.copied_last(to).popped();
                let rest = compacted(next).1;
                lemma_compaction_moves(next);
                assert forall|r: int| 0 <= r < to + 1 implies next.live[r] || #[trigger] next.pinned[r] by {
                    if r < to {
                        assert(m.live[r] || m.pinned[r]);
                    }
                }
                lemma_full_rows_stay(next, to + 1);
                assert(next.live[to]);
                assert(after.live[to]);
                assert(moved[0] == to);
                assert forall|k: int| 0 <= k < moved.len() implies {
                    &&& (#[trigger] moved[k]) < after.rows()
                    &&& !m.live[moved[k] as int]
                    &&& !m.pinned[moved[k] as int]
                    &&& after.live[moved[k] as int]
                } by {
                    if k > 0 {
                        assert(moved[k] == rest[k - 1]);
                        assert(next.live[rest[k - 1] as int] == m.live[rest[k - 1] as int]);
                    }
                }
                assert forall|i: int, j: int| 0 <= i < j < moved.len() implies #[trigger] moved[i]
                    < #[trigger] moved[j] by {
                    assert(moved[j] == rest[j - 1]);
                    if i > 0 {
                        assert(moved[i] == rest[i - 1]);
                    }
                }
                assert forall|x: u32| #[trigger] rest.contains(x) implies moved.contains(x) by {
                    let k = rest.index_of(x);
                    assert(moved[k + 1] == x);
                }
                assert(moved.contains(to as u32));
                assert forall|r: int| 0 <= r < after.rows() && !moved.contains(r as u32) implies {
                    &&& #[trigger] after.slots[r] == m.slots[r]
                    &&& after.live[r] == m.live[r]
                    &&& after.pinned[r] == m.pinned[r]
                } by {
                    assert(after.slots[r] == next.slots[r]);
                }
                assert forall|c: int, r: int|
                    0 <= c < m.columns.len() && 0 <= r < after.rows() && !moved.contains(r as u32) implies #[trigger] after.columns[c].rows[r]
                    == m.columns[c].rows[r] by {
                    assert(m.column_ok(c));
                    assert(after.columns[c].rows[r] == next.columns[c].rows[r]);
                }
                assert forall|r: int| 0 <= r < m.rows() && #[trigger] m.pinned[r] implies r < after.rows()
                    && after.pinned[r] by {
                    assert(next.pinned[r]);
                }
            },
        }
    }
}

/// After an allocation the cell has one row more, at the end: it is live, not pinned
/// and all zeros, and the handle leads to it. Every other row, and every other handle,
/// is as before.
pub proof fn lemma_allocation_adds_a_row(m: CellModel, h: Handle)
    requires
        m.well_formed(),
        m.has_room(),
    ensures
        ({
            let after = m.allocated();
            let given = m.next_handle();
            &&& after.rows() == m.rows() + 1
            &&& after.live.last()
            &&& !after.pinned.last()
            &&& after.row_of(given) == Some(m.rows() as u32)
            &&& m.row_of(given) is None
            &&& h != given ==> after.row_of(h) == m.row_of(h)
            &&& after.columns.len() == m.columns.len()
            &&& forall|c: int, i: int|
                0 <= c < m.columns.len() && 0 <= i < m.columns[c].stride ==> #[trigger] after.columns[c].rows[m.rows() as int][i]
                    == 0
            &&& forall|c: int, r: int|
                0 <= c < m.columns.len() && 0 <= r < m.rows() ==> #[trigger] after.columns[c].rows[r]
                    == m.columns[c].rows[r]
            &&& forall|r: int|
                0 <= r < m.rows() ==> (#[trigger] after.live[r]) == m.live[r] && after.pinned[r] == m.pinned[r]
                    && after.slots[r] == m.slots[r]
        }),
{
    let after = m.allocated();
    let given = m.next_handle();
    lemma_allocated(m);
    if m.free_slots.len() > 0 {
        assert(m.free_slots[m.free_slots.len() - 1] == given.slot);
    }
    if h.slot == given.slot && h != given {
        assert(h.generation != given.generation);
    }
    assert forall|c: int, i: int|
        0 <= c < m.columns.len() && 0 <= i < m.columns[c].stride implies #[trigger] after.columns[c].rows[m.rows() as int][i]
        == 0 by {
        assert(m.column_ok(c));
        assert(after.columns[c].rows == m.columns[c].rows.push(zeros(m.columns[c].stride as nat)));
    }
    assert forall|c: int, r: int| 0 <= c < m.columns.len() && 0 <= r < m.rows() implies #[trigger] after.columns[c].rows[r]
        == m.columns[c].rows[r] by {
        assert(m.column_ok(c));
        assert(after.columns[c].rows == m.columns[c].rows.push(zeros(m.columns[c].stride as nat)));
    }
}

/// A freed handle leads to no row, then or later: its slot has moved past its
/// generation, or is at the last one and never used again. Every other handle leads
/// where it did.
pub proof fn lemma_free_ends_a_handle(m: CellModel, h: Handle, other: Handle)
    requires
        m.well_formed(),
        m.row_of(h) is Some,
    ensures
        ({
            let r = m.row_of(h).unwrap() as int;
            let after = m.marked_dead(r, false).retired(h.slot, m.next_generation(h.slot as int));
            &&& after.row_of(h) is None
            &&& !after.live[r]
            &&& !after.pinned[r]
            &&& after.rows() == m.rows()
            &&& after.columns == m.columns
            &&& other.slot != h.slot ==> after.row_of(other) == m.row_of(other)
            &&& h.generation < u32::MAX ==> after.generations[h.slot as int] == h.generation + 1
            &&& h.generation == u32::MAX ==> after.generations[h.slot as int] == u32::MAX
            &&& after.free_slots == (if after.generations[h.slot as int] < u32::MAX {
                m.free_slots.push(h.slot)
            } else {
                m.free_slots
            })
            &&& forall|k: int|
                0 <= k < m.rows() && k != r ==> (#[trigger] after.live[k]) == m.live[k] && after.pinned[k]
                    == m.pinned[k]
        }),
{
    assert(m.slot_ok(h.slot as int));
}

impl CellStorage {
    /// Drops the last row.
    fn pop_row(&mut self)
        requires
            old(self)@.rows() > 0,
            old(self)@.live.len() == old(self)@.rows(),
            old(self)@.pinned.len() == old(self)@.rows(),
            forall|i: int| 0 <= i < old(self)@.columns.len() ==> #[trigger] old(self)@.column_ok(i),
        ensures
            final(self)@ == old(self)@.popped(),
    {
        let ghost before = self@;
        let ghost old_columns = self.columns@;
        self.slots.pop();
        self.live.pop();
        self.pinned.pop();
        let n: usize = self.columns.len();
        let mut i: usize = 0;
        proof {
            assert(self.slots@ =~= before.slots.drop_last());
            assert(self.live@ =~= before.live.drop_last());
            assert(self.pinned@ =~= before.pinned.drop_last());
        }
        while i < n
            invariant
                i <= n,
                n == self.columns@.len(),
                n == old_columns.len(),
                self@ == (CellModel {
                    columns: self@.columns,
                    slots: before.slots.drop_last(),
                    live: before.live.drop_last(),
                    pinned: before.pinned.drop_last(),
                    ..before
                }),
                before.columns == cell_columns(old_columns),
                forall|k: int| 0 <= k < before.columns.len() ==> #[trigger] before.column_ok(k),
                before.rows() > 0,
                forall|k: int| i <= k < n ==> #[trigger] self.columns@[k] == old_columns[k],
                forall|k: int|
                    0 <= k < i ==> (#[trigger] self.columns@[k]).id == old_columns[k].id
                        && self.columns@[k].stride == old_columns[k].stride && blobs(self.columns@[k].rows@)
                        == blobs(old_columns[k].rows@).drop_last(),
            decreases n - i,
        {
            let ghost was = self.columns@[i as int].rows@;
            proof {
                assert(before.column_ok(i as int));
                assert(blobs(was).len() == was.len());
            }
            self.columns[i].rows.pop();
            proof {
                assert(blobs(self.columns@[i as int].rows@) =~= blobs(was).drop_last());
            }
            i = i + 1;
        }
        proof {
            assert(self@.columns =~= before.popped().columns);
        }
    }

    fn copy_last_row(&mut self, to: u32)
        requires
            old(self).well_formed(),
            to < old(self)@.rows(),
            old(self)@.live.last(),
        ensures
            final(self)@ == old(self)@.copied_last(to as int),
    {
        let ghost before = self@;
        let ghost old_columns = self.columns@;
        let last: usize = self.slots.len() - 1;
        proof {
            assert(before.row_ok(last as int));
        }
        let slot: u32 = self.slots[last];
        self.slots[to as usize] = slot;
        self.live[to as usize] = true;
        self.slot_rows[slot as usize] = to;
        let n: usize = self.columns.len();
        let mut i: usize = 0;
        while i < n
            invariant
                i <= n,
                n == self.columns@.len(),
                n == old_columns.len(),
                last == before.rows() - 1,
                to < before.rows(),
                self@ == (CellModel { columns: self@.columns, ..before.copied_last(to as int) }),
                before.columns == cell_columns(old_columns),
                before.well_formed(),
                forall|k: int| i <= k < n ==> #[trigger] self.columns@[k] == old_columns[k],
                forall|k: int|
                    0 <= k < i ==> (#[trigger] self.columns@[k]).id == old_columns[k].id
                        && self.columns@[k].stride == old_columns[k].stride && blobs(self.columns@[k].rows@)
                        == blobs(old_columns[k].rows@).update(to as int, blobs(old_columns[k].rows@).last()),
            decreases n - i,
        {
            let ghost was = self.columns@[i as int].rows@;
            proof {
                assert(before.column_ok(i as int));
                assert(blobs(was).len() == was.len());
            }
            let copy: Vec<u8> = vstd::slice::slice_to_vec(self.columns[i].rows[last].as_slice());
            self.columns[i].rows[to as usize] = copy;
            proof {
                assert(blobs(self.columns@[i as int].rows@) =~= blobs(was).update(to as int, blobs(was).last()));
            }
            i = i + 1;
        }
        proof {
            assert(self@.columns =~= before.copied_last(to as int).columns);
        }
    }

    fn find_hole(&self) -> (at: Option<u32>)
        requires
            self.well_formed(),
        ensures
            match at {
                Some(h) => first_hole(self@, 0) == Some(h as int),
                None => first_hole(self@, 0) is None,
            },
    {
        let mut r: usize = 0;
        while r < self.slots.len()
            invariant
                r <= self.slots@.len(),
                self.well_formed(),
                first_hole(self@, 0) == first_hole(self@, r as int),
            decreases self.slots@.len() - r,
        {
            if !self.live[r] && !self.pinned[r] {
                return Some(r as u32);
            }
            r = r + 1;
        }
        None
    }

    /// Fills holes with live rows from the end. Returns the rows that were
    /// filled, in order. A pinned row at the end stops this until it is no
    /// longer pinned.
    pub fn compact_report(&mut self) -> (moved: Vec<u32>)
        requires
            old(self).well_formed(),
        ensures
            final(self).well_formed(),
            final(self)@ == compacted(old(self)@).0,
            moved@ == compacted(old(self)@).1,
    {
        let ghost first = self@;
        let mut moved: Vec<u32> = Vec::new();
        let mut done: bool = false;
        proof {
            assert(compacted(first).1 =~= moved@ + compacted(first).1);
        }
        while !done && self.slots.len() > 0 && !self.pinned[self.slots.len() - 1]
            invariant
                self.well_formed(),
                compacted(first).0 == (if done {
                    self@
                } else {
                    compacted(self@).0
                }),
                compacted(first).1 == (if done {
                    moved@
                } else {
                    moved@ + compacted(self@).1
                }),
            decreases
                    self.slots@.len(),
                    if done {
                        0int
                    } else {
                        1int
                    },
        {
            let ghost here = self@;
            let last: usize = self.slots.len() - 1;
            if !self.live[last] {
                self.pop_row();
                proof {
                    lemma_popped(here);
                }
            } else {
                match self.find_hole() {
                    None => {
                        done = true;
                        proof {
                            assert(moved@ + Seq::<u32>::empty() =~= moved@);
                        }
                    },
                    Some(to) => {
                        proof {
                            lemma_first_hole(here, 0);
                            lemma_moved(here, to as int);
                        }
                        let ghost so_far = moved@;
                        self.copy_last_row(to);
                        proof {
                            assert forall|i: int| 0 <= i < self@.columns.len() implies #[trigger] self@.column_ok(i) by {
                                assert(here.column_ok(i));
                                let at = here.slots.len() - 1;
                                assert(here.columns[i].rows[at].len() == here.columns[i].stride);
                            }
                        }
                        self.pop_row();
                        moved.push(to);
                        proof {
                            let rest = compacted(self@).1;
                            assert(so_far + (seq![to] + rest) =~= moved@ + rest);
                        }
                    },
                }
            }
        }
        proof {
            if !done {
                assert(moved@ + Seq::<u32>::empty() =~= moved@);
            }
        }
        moved
    }
}

} // verus!
