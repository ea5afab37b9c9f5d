//! The cells that are resident on the device, and the frame boundary that
//! brings the device up to date with them.

use vstd::prelude::*;
use crate::cell::{cell_columns, CellColumnModel, CellModel, CellStorage, NO_ROW};
use crate::component::ComponentId;
use crate::dense::DenseMap;
use crate::gpu::cell_state::{mirrored_models, CellGpuState, CellStateModel, MirroredColumn, MirroredModel, QueuedRetire, NEVER_UPLOADED};
use crate::gpu::column::{column_models, ColumnModel, GpuColumnDesc};
use crate::gpu::device::{make_word_row, word_row, CommandModel, CommandQueue, GpuCommand, Row};
use crate::gpu::dirty::DirtyMask;
use crate::gpu::partner::{GpuPartnerRegistry, PartnerModel};
use crate::gpu::region::{descending, lemma_region_start, PoolModel, RegionError, RegionPool};
use crate::replication::types::blobs;

pub mod frame;

verus! {

/// One size class: up to `max_resident_cells` cells of `capacity` rows each.
#[derive(Copy, Clone, Debug, PartialEq, Eq, Structural)]
pub struct RegionClassConfig {
    pub capacity: u32,
    pub max_resident_cells: u32,
}

/// Names a cell that was made resident. Names are not used again.
#[derive(Copy, Clone, Debug, PartialEq, Eq, Structural)]
pub struct CellId(pub u32);

/// A cell with the name under which it is resident.
#[derive(Debug)]
pub struct CellSlot {
    pub id: CellId,
    pub cell: CellStorage,
}

/// Where in a frame the store is. The boundary of a frame retires, compacts
/// and synchronizes, in this order.
#[derive(Copy, Clone, Debug, PartialEq, Eq, Structural)]
pub enum Phase {
    Write,
    Retired,
    Compacted,
}

/// A device column of fixed capacity.
#[derive(Debug)]
pub struct FixedColumn {
    pub stride: u32,
    pub capacity: u32,
    pub queue: CommandQueue,
}

/// The value of a [`FixedColumn`].
pub struct FixedModel {
    pub stride: u32,
    pub capacity: u32,
    pub commands: Seq<CommandModel>,
}

impl View for FixedColumn {
    type V = FixedModel;

    open spec fn view(&self) -> FixedModel {
        FixedModel { stride: self.stride, capacity: self.capacity, commands: self.queue@ }
    }
}

/// The resident cells, the regions that they live in, and the device columns
/// that mirror them.
#[derive(Debug)]
pub struct CellStore {
    fixed: DenseMap<FixedColumn>,
    slot_mirror: CommandQueue,
    generations: CommandQueue,
    phase: Phase,
    row_pools: Vec<RegionPool>,
    slot_pools: Vec<RegionPool>,
    cells: Vec<Option<CellGpuState>>,
    gen_writes: u64,
}

/// The value of a [`CellStore`].
pub struct StoreModel {
    /// The device columns of fixed capacity.
    pub fixed: Map<ComponentId, FixedModel>,
    /// The commands on the column that holds the slot of every row.
    pub slot_mirror: Seq<CommandModel>,
    /// The commands on the column that holds the generation of every slot.
    pub generations: Seq<CommandModel>,
    pub phase: Phase,
    /// The regions of rows and of slots, by size class.
    pub row_pools: Seq<PoolModel>,
    pub slot_pools: Seq<PoolModel>,
    /// The resident cells by name; `None` for those that were evicted.
    pub cells: Seq<Option<CellStateModel>>,
    /// How many generations were uploaded one by one, wrapping around.
    pub gen_writes: u64,
}

/// The contents of a list of pools.
pub open spec fn pool_models(v: Seq<RegionPool>) -> Seq<PoolModel> {
    v.map_values(|p: RegionPool| p@)
}

/// The contents of a list of resident cells.
pub open spec fn state_models(v: Seq<Option<CellGpuState>>) -> Seq<Option<CellStateModel>> {
    v.map_values(
        |c: Option<CellGpuState>|
            match c {
                Some(s) => Some(s@),
                None => None,
            },
    )
}

impl View for CellStore {
    type V = StoreModel;

    closed spec fn view(&self) -> StoreModel {
        StoreModel {
            fixed: self.fixed@.map_values(|c: FixedColumn| c@),
            slot_mirror: self.slot_mirror@,
            generations: self.generations@,
            phase: self.phase,
            row_pools: pool_models(self.row_pools@),
            slot_pools: pool_models(self.slot_pools@),
            cells: state_models(self.cells@),
            gen_writes: self.gen_writes,
        }
    }
}

/// Rows of the first `n` size classes together.
pub open spec fn row_offset(classes: Seq<RegionClassConfig>, n: int) -> nat
    decreases n,
{
    if n <= 0 {
        0
    } else {
        row_offset(classes, n - 1) + (classes[n - 1].capacity as nat) * (classes[n - 1].max_resident_cells as nat)
    }
}

/// Slots of the first `n` size classes together.
pub open spec fn slot_offset(classes: Seq<RegionClassConfig>, headroom: u32, n: int) -> nat
    decreases n,
{
    if n <= 0 {
        0
    } else {
        slot_offset(classes, headroom, n - 1) + ((classes[n - 1].capacity + headroom) as nat) * (
        classes[n - 1].max_resident_cells as nat)
    }
}

/// All size classes fit into the numbers of rows and slots.
pub open spec fn layout_fits(classes: Seq<RegionClassConfig>, headroom: u32) -> bool {
    &&& row_offset(classes, classes.len() as int) <= u32::MAX
    &&& slot_offset(classes, headroom, classes.len() as int) <= u32::MAX
    &&& forall|i: int| 0 <= i < classes.len() ==> (#[trigger] classes[i]).capacity + headroom <= u32::MAX
}

/// The regions of rows of a size class, all free.
pub open spec fn row_pool(classes: Seq<RegionClassConfig>, i: int) -> PoolModel {
    PoolModel {
        base: row_offset(classes, i) as u32,
        region_size: classes[i].capacity,
        count: classes[i].max_resident_cells,
        free: descending(classes[i].max_resident_cells as nat),
        pinned: Seq::empty(),
    }
}

/// The regions of slots of a size class, all free.
pub open spec fn slot_pool(classes: Seq<RegionClassConfig>, headroom: u32, i: int) -> PoolModel {
    PoolModel {
        base: slot_offset(classes, headroom, i) as u32,
        region_size: (classes[i].capacity + headroom) as u32,
        count: classes[i].max_resident_cells,
        free: descending(classes[i].max_resident_cells as nat),
        pinned: Seq::empty(),
    }
}

/// The pools are well-formed and lie one behind the other.
pub open spec fn laid_out(pools: Seq<PoolModel>) -> bool {
    &&& forall|i: int| 0 <= i < pools.len() ==> (#[trigger] pools[i]).well_formed()
    &&& forall|i: int, j: int|
        0 <= i < j < pools.len() ==> (#[trigger] pools[i]).base + pools[i].region_size * pools[i].count <= (
        #[trigger] pools[j]).base
}

/// The retirements can be committed to `cell`: their rows exist, and their
/// slots lead nowhere, are not free and differ.
pub open spec fn awaits(pending: Seq<QueuedRetire>, cell: CellModel) -> bool {
    &&& forall|i: int|
        0 <= i < pending.len() ==> {
            let p = (#[trigger] pending[i]).pending;
            &&& p.row < cell.rows()
            &&& cell.pinned[p.row as int]
            &&& p.slot < cell.generations.len()
            &&& cell.slot_rows[p.slot as int] == NO_ROW
            &&& !cell.free_slots.contains(p.slot)
        }
    &&& forall|i: int, j: int|
        0 <= i < j < pending.len() ==> (#[trigger] pending[i]).pending.slot != (
        #[trigger] pending[j]).pending.slot && pending[i].pending.row != pending[j].pending.row
}

impl StoreModel {
    /// The state of a resident cell is in a region of its own.
    pub open spec fn cell_ok(self, i: int) -> bool {
        self.cells[i] matches Some(st) ==> {
            &&& st.well_formed()
            &&& st.class < self.row_pools.len()
            &&& st.row_region < self.row_pools[st.class as int].count
            &&& st.slot_region < self.slot_pools[st.class as int].count
            &&& !self.row_pools[st.class as int].holds(st.row_region)
            &&& !self.slot_pools[st.class as int].holds(st.slot_region)
            &&& st.row_base == self.row_pools[st.class as int].start(st.row_region)
            &&& st.slot_base == self.slot_pools[st.class as int].start(st.slot_region)
            &&& st.row_capacity() == self.row_pools[st.class as int].region_size
            &&& st.slot_capacity() == self.slot_pools[st.class as int].region_size
            &&& forall|k: int|
                0 <= k < st.columns.len() ==> self.fixed.contains_key((#[trigger] st.columns[k]).buffer)
        }
    }

    /// Two resident cells have different regions.
    pub open spec fn cells_differ(self, i: int, j: int) -> bool {
        self.cells[i] matches Some(a) ==> (self.cells[j] matches Some(b) ==> (a.class == b.class ==> a.row_region
            != b.row_region && a.slot_region != b.slot_region))
    }

    /// The invariant of every store.
    pub open spec fn well_formed(self) -> bool {
        &&& laid_out(self.row_pools)
        &&& laid_out(self.slot_pools)
        &&& self.row_pools.len() == self.slot_pools.len()
        &&& self.cells.len() <= u32::MAX
        &&& forall|i: int| 0 <= i < self.cells.len() ==> #[trigger] self.cell_ok(i)
        &&& forall|i: int, j: int| 0 <= i < j < self.cells.len() ==> #[trigger] self.cells_differ(i, j)
    }

    /// The name stands for a resident cell.
    pub open spec fn resident(self, id: CellId) -> bool {
        id.0 < self.cells.len() && self.cells[id.0 as int] is Some
    }

    /// The state of a resident cell.
    pub open spec fn state(self, id: CellId) -> CellStateModel {
        self.cells[id.0 as int].unwrap()
    }

    /// `cell` is the one that is resident under this name.
    pub open spec fn pairs(self, id: CellId, cell: CellModel) -> bool {
        &&& self.resident(id)
        &&& self.state(id).fits(cell)
        &&& awaits(self.state(id).pending, cell)
    }

    /// The state of a resident cell changed.
    pub open spec fn with_state(self, id: CellId, st: CellStateModel) -> StoreModel {
        StoreModel { cells: self.cells.update(id.0 as int, Some(st)), ..self }
    }

    /// The generation of a slot of a resident cell is on the device.
    pub open spec fn stamped(self, id: CellId, slot: u32, generation: u32) -> StoreModel {
        let st = self.state(id);
        let changed = st.gen_shadow[slot as int] != generation;
        StoreModel {
            generations: if changed {
                self.generations.push(
                    CommandModel::Write {
                        row: (st.slot_base + slot) as u32,
                        data: seq![word_row(generation)],
                    },
                )
            } else {
                self.generations
            },
            gen_writes: if changed {
                crate::gpu::dynamic_buffer::next_epoch(self.gen_writes)
            } else {
                self.gen_writes
            },
            ..self.with_state(id, st.generation_uploaded(slot, generation))
        }
    }
}

/// The rows of two resident cells do not overlap in any mirrored column, nor
/// do their slots in the generation column.
pub proof fn lemma_cells_disjoint(m: StoreModel, a: CellId, b: CellId)
    requires
        m.well_formed(),
        m.resident(a),
        m.resident(b),
        a != b,
    ensures
        ({
            let x = m.state(a);
            let y = m.state(b);
            &&& x.row_base + x.row_capacity() <= y.row_base || y.row_base + y.row_capacity() <= x.row_base
            &&& x.slot_base + x.slot_capacity() <= y.slot_base || y.slot_base + y.slot_capacity() <= x.slot_base
        }),
{
    let x = m.state(a);
    let y = m.state(b);
    assert(m.cell_ok(a.0 as int));
    assert(m.cell_ok(b.0 as int));
    if a.0 < b.0 {
        assert(m.cells_differ(a.0 as int, b.0 as int));
    } else {
        assert(m.cells_differ(b.0 as int, a.0 as int));
    }
    lemma_pool_disjoint(m.row_pools, x.class as int, x.row_region, y.class as int, y.row_region);
    lemma_pool_disjoint(m.slot_pools, x.class as int, x.slot_region, y.class as int, y.slot_region);
}

proof fn lemma_pool_disjoint(pools: Seq<PoolModel>, i: int, a: u32, j: int, b: u32)
    requires
        laid_out(pools),
        0 <= i < pools.len(),
        0 <= j < pools.len(),
        a < pools[i].count,
        b < pools[j].count,
        i != j || a != b,
    ensures
        pools[i].start(a) + pools[i].region_size <= pools[j].start(b) || pools[j].start(b) + pools[j].region_size
            <= pools[i].start(a),
{
    lemma_region_start(pools[i], a);
    lemma_region_start(pools[j], b);
    if i == j {
        crate::gpu::region::lemma_regions_disjoint(pools[i], a, b);
    } else if i < j {
        assert(pools[i].base + pools[i].region_size * pools[i].count <= pools[j].base);
    } else {
        assert(pools[j].base + pools[j].region_size * pools[j].count <= pools[i].base);
    }
}

/// The columns of a cell that have a device column, among the first `n`. Every
/// row in use is marked.
pub open spec fn matched_columns(
    columns: Seq<CellColumnModel>,
    n: int,
    partners: PartnerModel,
    fixed: Map<ComponentId, FixedModel>,
    rows: nat,
    capacity: nat,
) -> Seq<MirroredModel>
    decreases n,
{
    if n <= 0 {
        Seq::empty()
    } else {
        let before = matched_columns(columns, n - 1, partners, fixed, rows, capacity);
        let buffer = partners.resolve(columns[n - 1].id);
        if fixed.contains_key(buffer) {
            before.push(
                MirroredModel {
                    buffer,
                    source: (n - 1) as usize,
                    mask: Seq::new(capacity, |r: int| r < rows),
                },
            )
        } else {
            before
        }
    }
}

/// The descriptions of those columns, as far as they are known.
pub open spec fn matched_descs(
    columns: Seq<CellColumnModel>,
    n: int,
    partners: PartnerModel,
    fixed: Map<ComponentId, FixedModel>,
) -> Seq<ColumnModel>
    decreases n,
{
    if n <= 0 {
        Seq::empty()
    } else {
        let before = matched_descs(columns, n - 1, partners, fixed);
        let id = columns[n - 1].id;
        if fixed.contains_key(partners.resolve(id)) && partners.descriptors.contains_key(id) {
            before.push(partners.descriptors[id])
        } else {
            before
        }
    }
}

/// No two columns of the cell have the same device column.
pub open spec fn one_source_each(
    columns: Seq<CellColumnModel>,
    partners: PartnerModel,
    fixed: Map<ComponentId, FixedModel>,
) -> bool {
    forall|i: int, j: int|
        0 <= i < j < columns.len() && fixed.contains_key(partners.resolve((#[trigger] columns[i]).id))
            ==> partners.resolve(columns[i].id) != partners.resolve((#[trigger] columns[j]).id)
}

/// Words as rows.
pub open spec fn words(v: Seq<u32>) -> Seq<Seq<u8>> {
    v.map_values(|x: u32| word_row(x))
}

/// `gens`, and zeros up to `capacity` slots.
pub open spec fn padded_generations(gens: Seq<u32>, capacity: nat) -> Seq<u32> {
    Seq::new(
        capacity,
        |s: int|
            if s < gens.len() {
                gens[s]
            } else {
                0
            },
    )
}

/// The commands that write the generations of a whole region: those of the
/// cell, and zeros in place of what an earlier cell left behind.
pub open spec fn region_commands(slot_base: u32, gens: Seq<u32>, capacity: nat) -> Seq<CommandModel> {
    let head = if gens.len() > 0 {
        seq![CommandModel::Write { row: slot_base, data: words(gens) }]
    } else {
        Seq::empty()
    };
    if gens.len() < capacity {
        head.push(
            CommandModel::Write {
                row: (slot_base + gens.len()) as u32,
                data: words(Seq::new((capacity - gens.len()) as nat, |i: int| 0u32)),
            },
        )
    } else {
        head
    }
}

impl StoreModel {
    /// The state of a cell that becomes resident next in a size class.
    pub open spec fn fresh_state(self, cell: CellModel, class: usize, partners: PartnerModel) -> CellStateModel {
        let rows = self.row_pools[class as int];
        let slots = self.slot_pools[class as int];
        let n = cell.columns.len() as int;
        CellStateModel {
            class,
            row_region: rows.free.last(),
            slot_region: slots.free.last(),
            row_base: rows.start(rows.free.last()) as u32,
            slot_base: slots.start(slots.free.last()) as u32,
            columns: matched_columns(
                cell.columns,
                n,
                partners,
                self.fixed,
                cell.rows(),
                rows.region_size as nat,
            ),
            gpu_columns: matched_descs(cell.columns, n, partners, self.fixed),
            slot_shadow: Seq::new(rows.region_size as nat, |r: int| NEVER_UPLOADED),
            pending: Seq::empty(),
            gen_shadow: padded_generations(cell.generations, slots.region_size as nat),
        }
    }

    /// A cell became resident.
    pub open spec fn registered(self, cell: CellModel, class: usize, partners: PartnerModel) -> StoreModel {
        let st = self.fresh_state(cell, class, partners);
        StoreModel {
            cells: self.cells.push(Some(st)),
            row_pools: self.row_pools.update(class as int, self.row_pools[class as int].allocated()),
            slot_pools: self.slot_pools.update(class as int, self.slot_pools[class as int].allocated()),
            generations: self.generations + region_commands(
                st.slot_base,
                cell.generations,
                st.slot_capacity(),
            ),
            ..self
        }
    }
}

fn word_rows(v: &Vec<u32>) -> (rows: Vec<Row>)
    ensures
        blobs(rows@) == words(v@),
{
    let mut rows: Vec<Row> = Vec::new();
    let mut i: usize = 0;
    while i < v.len()
        invariant
            i <= v@.len(),
            rows@.len() == i,
            forall|k: int| 0 <= k < i ==> (#[trigger] rows@[k])@ == word_row(v@[k]),
        decreases v@.len() - i,
    {
        rows.push(make_word_row(v[i]));
        i = i + 1;
    }
    proof {
        assert(blobs(rows@) =~= words(v@));
    }
    rows
}

/// A list of `n` equal numbers.
fn repeated(x: u32, n: u32) -> (v: Vec<u32>)
    ensures
        v@ == Seq::new(n as nat, |i: int| x),
{
    let mut v: Vec<u32> = Vec::new();
    let mut i: u32 = 0;
    while i < n
        invariant
            i <= n,
            v@ == Seq::new(i as nat, |k: int| x),
        decreases n - i,
    {
        v.push(x);
        i = i + 1;
        proof {
            assert(v@ =~= Seq::new(i as nat, |k: int| x));
        }
    }
    v
}

/// Queues the generations of a whole region, and returns what it then holds.
fn write_region(queue: &mut CommandQueue, slot_base: u32, gens: &Vec<u32>, capacity: u32) -> (shadow: Vec<u32>)
    requires
        gens@.len() <= capacity,
        slot_base + capacity <= u32::MAX,
    ensures
        final(queue)@ == old(queue)@ + region_commands(slot_base, gens@, capacity as nat),
        shadow@ == padded_generations(gens@, capacity as nat),
{
    let ghost before = queue@;
    if gens.len() > 0 {
        queue.push(GpuCommand::Write { row: slot_base, data: word_rows(gens) });
    }
    let count: u32 = gens.len() as u32;
    if count < capacity {
        let zeros: Vec<u32> = repeated(0, capacity - count);
        queue.push(GpuCommand::Write { row: slot_base + count, data: word_rows(&zeros) });
    }
    proof {
        assert(queue@ =~= before + region_commands(slot_base, gens@, capacity as nat));
    }
    let mut shadow: Vec<u32> = repeated(0, capacity);
    let mut i: usize = 0;
    while i < gens.len()
        invariant
            i <= gens@.len() <= capacity,
            shadow@.len() == capacity,
            forall|k: int|
                0 <= k < capacity ==> #[trigger] shadow@[k] == (if k < i {
                    gens@[k]
                } else {
                    0
                }),
        decreases gens@.len() - i,
    {
        shadow[i] = gens[i];
        i = i + 1;
    }
    proof {
        assert(shadow@ =~= padded_generations(gens@, capacity as nat));
    }
    shadow
}

impl CellStore {
    /// The invariant of every store.
    pub open spec fn well_formed(&self) -> bool {
        self@.well_formed()
    }

    /// A store without cells whose size classes lie one behind the other;
    /// `None` if they do not fit into the numbers of rows and slots.
    pub fn new(classes: &Vec<RegionClassConfig>, headroom: u32) -> (store: Option<CellStore>)
        ensures
            store is Some <==> layout_fits(classes@, headroom),
            store matches Some(s) ==> {
                &&& s.well_formed()
                &&& s@ == (StoreModel {
                    fixed: Map::empty(),
                    slot_mirror: Seq::empty(),
                    generations: Seq::empty(),
                    phase: Phase::Write,
                    row_pools: Seq::new(classes@.len(), |i: int| row_pool(classes@, i)),
                    slot_pools: Seq::new(classes@.len(), |i: int| slot_pool(classes@, headroom, i)),
                    cells: Seq::empty(),
                    gen_writes: 0,
                })
            },
    {
        let mut row_pools: Vec<RegionPool> = Vec::new();
        let mut slot_pools: Vec<RegionPool> = Vec::new();
        let mut rows: u32 = 0;
        let mut slots: u32 = 0;
        let mut i: usize = 0;
        while i < classes.len()
            invariant
                i <= classes@.len(),
                rows == row_offset(classes@, i as int),
                slots == slot_offset(classes@, headroom, i as int),
                row_pools@.len() == i,
                slot_pools@.len() == i,
                forall|k: int| 0 <= k < i ==> (#[trigger] classes@[k]).capacity + headroom <= u32::MAX,
                forall|k: int|
                    0 <= k < i ==> (#[trigger] row_pools@[k])@ == row_pool(classes@, k) && row_pools@[k].well_formed(),
                forall|k: int|
                    0 <= k < i ==> (#[trigger] slot_pools@[k])@ == slot_pool(classes@, headroom, k)
                        && slot_pools@[k].well_formed(),
            decreases classes@.len() - i,
        {
            let class = classes[i];
            proof {
                lemma_offset_grows(classes@, headroom, i + 1, classes@.len() as int);
                lemma_product(class.capacity, class.max_resident_cells);
            }
            if class.capacity > u32::MAX - headroom {
                proof {
                    assert(!layout_fits(classes@, headroom)) by {
                        assert(classes@[i as int].capacity + headroom > u32::MAX);
                    }
                }
                return None;
            }
            let slot_size: u32 = class.capacity + headroom;
            proof {
                lemma_product(slot_size, class.max_resident_cells);
            }
            let next_rows: u64 = rows as u64 + class.capacity as u64 * class.max_resident_cells as u64;
            let next_slots: u64 = slots as u64 + slot_size as u64 * class.max_resident_cells as u64;
            if next_rows > u32::MAX as u64 || next_slots > u32::MAX as u64 {
                return None;
            }
            row_pools.push(RegionPool::new(rows, class.capacity, class.max_resident_cells));
            slot_pools.push(RegionPool::new(slots, slot_size, class.max_resident_cells));
            rows = next_rows as u32;
            slots = next_slots as u32;
            i = i + 1;
        }
        let store = CellStore {
            fixed: DenseMap::new(),
            slot_mirror: CommandQueue::new(),
            generations: CommandQueue::new(),
            phase: Phase::Write,
            row_pools,
            slot_pools,
            cells: Vec::new(),
            gen_writes: 0,
        };
        proof {
            assert(store@.fixed =~= Map::<ComponentId, FixedModel>::empty());
            assert(store@.cells =~= Seq::<Option<CellStateModel>>::empty());
            assert(store@.row_pools =~= Seq::new(classes@.len(), |k: int| row_pool(classes@, k)));
            assert(store@.slot_pools =~= Seq::new(classes@.len(), |k: int| slot_pool(classes@, headroom, k)));
            assert forall|a: int, b: int| 0 <= a < b < store@.row_pools.len() implies (
            #[trigger] store@.row_pools[a]).base + store@.row_pools[a].region_size * store@.row_pools[a].count <= (
            #[trigger] store@.row_pools[b]).base by {
                lemma_offset_grows(classes@, headroom, a + 1, b);
                lemma_offset_grows(classes@, headroom, b, classes@.len() as int);
            }
            assert forall|a: int, b: int| 0 <= a < b < store@.slot_pools.len() implies (
            #[trigger] store@.slot_pools[a]).base + store@.slot_pools[a].region_size * store@.slot_pools[a].count
                <= (#[trigger] store@.slot_pools[b]).base by {
                lemma_offset_grows(classes@, headroom, a + 1, b);
                lemma_offset_grows(classes@, headroom, b, classes@.len() as int);
            }
        }
        Some(store)
    }
}

/// A product of two 32-bit numbers fits into 64 bits.
pub proof fn lemma_product(a: u32, b: u32)
    ensures
        0 <= a * b <= u32::MAX * u32::MAX,
        (a as nat) * (b as nat) == a * b,
{
    assert(0 <= a * b <= u32::MAX * u32::MAX) by (nonlinear_arith)
        requires
            0 <= a <= u32::MAX,
            0 <= b <= u32::MAX,
    ;
}

/// Offsets grow with the number of size classes.
pub proof fn lemma_offset_grows(classes: Seq<RegionClassConfig>, headroom: u32, a: int, b: int)
    requires
        0 <= a <= b <= classes.len(),
    ensures
        row_offset(classes, a) <= row_offset(classes, b),
        slot_offset(classes, headroom, a) <= slot_offset(classes, headroom, b),
    decreases b - a,
{
    if a < b {
        lemma_offset_grows(classes, headroom, a, b - 1);
        let c = classes[b - 1];
        assert((c.capacity as nat) * (c.max_resident_cells as nat) >= 0) by (nonlinear_arith);
        assert(((c.capacity + headroom) as nat) * (c.max_resident_cells as nat) >= 0) by (nonlinear_arith);
    }
}

proof fn lemma_matched(
    columns: Seq<CellColumnModel>,
    n: int,
    partners: PartnerModel,
    fixed: Map<ComponentId, FixedModel>,
    rows: nat,
    capacity: nat,
)
    requires
        0 <= n <= columns.len(),
        columns.len() <= usize::MAX,
    ensures
        ({
            let all = matched_columns(columns, n, partners, fixed, rows, capacity);
            forall|k: int|
                0 <= k < all.len() ==> {
                    &&& (#[trigger] all[k]).mask.len() == capacity
                    &&& all[k].source < n
                    &&& fixed.contains_key(all[k].buffer)
                    &&& all[k].buffer == partners.resolve(columns[all[k].source as int].id)
                }
        }),
    decreases n,
{
    if n > 0 {
        lemma_matched(columns, n - 1, partners, fixed, rows, capacity);
        let before = matched_columns(columns, n - 1, partners, fixed, rows, capacity);
        let all = matched_columns(columns, n, partners, fixed, rows, capacity);
        assert forall|k: int| 0 <= k < all.len() implies {
            &&& (#[trigger] all[k]).mask.len() == capacity
            &&& all[k].source < n
            &&& fixed.contains_key(all[k].buffer)
            &&& all[k].buffer == partners.resolve(columns[all[k].source as int].id)
        } by {
            if k < before.len() {
                assert(all[k] == before[k]);
            }
        }
    }
}

/// The columns of a cell that have a device column, with every row in use
/// marked, and their descriptions.
fn match_columns(
    cell: &CellStorage,
    partners: &GpuPartnerRegistry,
    fixed: &DenseMap<FixedColumn>,
    capacity: u32,
) -> (out: (Vec<MirroredColumn>, Vec<GpuColumnDesc>))
    requires
        cell.well_formed(),
        cell@.rows() <= capacity,
    ensures
        ({
            let n = cell@.columns.len() as int;
            let models = fixed@.map_values(|c: FixedColumn| c@);
            &&& mirrored_models(out.0@) == matched_columns(
                cell@.columns,
                n,
                partners@,
                models,
                cell@.rows(),
                capacity as nat,
            )
            &&& column_models(out.1@) == matched_descs(cell@.columns, n, partners@, models)
        }),
{
    let ghost models = fixed@.map_values(|c: FixedColumn| c@);
    let rows: u32 = cell.rows_in_use();
    let columns = cell.columns();
    let mut mirrored: Vec<MirroredColumn> = Vec::new();
    let mut descs: Vec<GpuColumnDesc> = Vec::new();
    let mut i: usize = 0;
    proof {
        assert(mirrored_models(mirrored@) =~= Seq::<MirroredModel>::empty());
        assert(column_models(descs@) =~= Seq::<ColumnModel>::empty());
    }
    while i < columns.len()
        invariant
            i <= columns@.len(),
            cell_columns(columns@) == cell@.columns,
            rows == cell@.rows(),
            rows <= capacity,
            models == fixed@.map_values(|c: FixedColumn| c@),
            mirrored_models(mirrored@) == matched_columns(
                cell@.columns,
                i as int,
                partners@,
                models,
                cell@.rows(),
                capacity as nat,
            ),
            column_models(descs@) == matched_descs(cell@.columns, i as int, partners@, models),
        decreases columns@.len() - i,
    {
        let id = columns[i].id;
        let ghost so_far = mirrored_models(mirrored@);
        let ghost described = column_models(descs@);
        proof {
            assert(cell@.columns[i as int] == columns@[i as int]@);
        }
        let buffer = partners.resolve(id);
        if fixed.contains(buffer) {
            let mut mask = DirtyMask::new(capacity);
            mask.mark_range(rows);
            proof {
                assert(mask@ =~= Seq::new(capacity as nat, |r: int| r < cell@.rows()));
            }
            let column = MirroredColumn { buffer, source: i, mask };
            let ghost model = column@;
            mirrored.push(column);
            proof {
                assert(mirrored_models(mirrored@) =~= so_far.push(model));
            }
            if let Some(d) = partners.descriptor(id) {
                descs.push(d.copy());
                proof {
                    assert(column_models(descs@) =~= described.push(partners@.descriptors[id]));
                }
            }
        }
        i = i + 1;
    }
    (mirrored, descs)
}

proof fn lemma_registered(m: StoreModel, cell: CellModel, class: usize, partners: PartnerModel)
    requires
        m.well_formed(),
        cell.well_formed(),
        cell.columns.len() <= usize::MAX,
        class < m.row_pools.len(),
        m.row_pools[class as int].free.len() > 0,
        m.slot_pools[class as int].free.len() > 0,
        cell.rows() <= m.row_pools[class as int].region_size,
        cell.generations.len() <= m.slot_pools[class as int].region_size,
        m.cells.len() < u32::MAX,
        m.row_pools[class as int].allocated().well_formed(),
        m.slot_pools[class as int].allocated().well_formed(),
        ({
            let p = m.row_pools[class as int];
            let r = p.free.last();
            &&& p.holds(r)
            &&& !p.allocated().holds(r)
            &&& forall|x: u32| x != r ==> (#[trigger] p.allocated().holds(x) <==> p.holds(x))
        }),
        ({
            let p = m.slot_pools[class as int];
            let r = p.free.last();
            &&& p.holds(r)
            &&& !p.allocated().holds(r)
            &&& forall|x: u32| x != r ==> (#[trigger] p.allocated().holds(x) <==> p.holds(x))
        }),
    ensures
        m.registered(cell, class, partners).well_formed(),
        m.registered(cell, class, partners).pairs(CellId(m.cells.len() as u32), cell),
{
    let after = m.registered(cell, class, partners);
    let st = m.fresh_state(cell, class, partners);
    let c = class as int;
    let rows = m.row_pools[c];
    let slots = m.slot_pools[c];
    assert(rows.free[rows.free.len() - 1] == rows.free.last());
    assert(slots.free[slots.free.len() - 1] == slots.free.last());
    lemma_region_start(rows, rows.free.last());
    lemma_region_start(slots, slots.free.last());
    lemma_matched(
        cell.columns,
        cell.columns.len() as int,
        partners,
        m.fixed,
        cell.rows(),
        rows.region_size as nat,
    );
    let n = m.cells.len() as int;
    assert forall|i: int| 0 <= i < after.row_pools.len() implies (#[trigger] after.row_pools[i]).well_formed()
        && after.row_pools[i].base == m.row_pools[i].base && after.row_pools[i].region_size
        == m.row_pools[i].region_size && after.row_pools[i].count == m.row_pools[i].count by {
        assert(m.row_pools[i].well_formed());
    }
    assert forall|i: int| 0 <= i < after.slot_pools.len() implies (#[trigger] after.slot_pools[i]).well_formed()
        && after.slot_pools[i].base == m.slot_pools[i].base && after.slot_pools[i].region_size
        == m.slot_pools[i].region_size && after.slot_pools[i].count == m.slot_pools[i].count by {
        assert(m.slot_pools[i].well_formed());
    }
    assert forall|i: int, j: int| 0 <= i < j < after.row_pools.len() implies (#[trigger] after.row_pools[i]).base
        + after.row_pools[i].region_size * after.row_pools[i].count <= (#[trigger] after.row_pools[j]).base by {
        assert(m.row_pools[i].base + m.row_pools[i].region_size * m.row_pools[i].count <= m.row_pools[j].base);
    }
    assert forall|i: int, j: int| 0 <= i < j < after.slot_pools.len() implies (#[trigger] after.slot_pools[i]).base
        + after.slot_pools[i].region_size * after.slot_pools[i].count <= (#[trigger] after.slot_pools[j]).base by {
        assert(m.slot_pools[i].base + m.slot_pools[i].region_size * m.slot_pools[i].count <= m.slot_pools[j].base);
    }
    assert forall|i: int| 0 <= i < after.cells.len() implies #[trigger] after.cell_ok(i) by {
        if i < n {
            assert(m.cell_ok(i));
            assert(after.cells[i] == m.cells[i]);
        }
    }
    assert forall|i: int, j: int| 0 <= i < j < after.cells.len() implies #[trigger] after.cells_differ(i, j) by {
        if j < n {
            assert(m.cells_differ(i, j));
        } else {
            assert(m.cell_ok(i));
        }
    }
}

impl CellStore {
    /// Adds a device column of fixed capacity.
    pub(crate) fn add_fixed(&mut self, id: ComponentId, stride: u32, capacity: u32)
        requires
            old(self).well_formed(),
            id.0 < usize::MAX,
        ensures
            final(self).well_formed(),
            final(self)@ == (StoreModel {
                fixed: old(self)@.fixed.insert(
                    id,
                    FixedModel { stride, capacity, commands: Seq::empty() },
                ),
                ..old(self)@
            }),
    {
        let ghost before = self@;
        self.fixed.set(id, FixedColumn { stride, capacity, queue: CommandQueue::new() });
        proof {
            assert(self@.fixed =~= before.fixed.insert(
                id,
                FixedModel { stride, capacity, commands: Seq::empty() },
            ));
            assert forall|i: int| 0 <= i < self@.cells.len() implies #[trigger] self@.cell_ok(i) by {
                assert(before.cell_ok(i));
            }
            assert forall|i: int, j: int| 0 <= i < j < self@.cells.len() implies #[trigger] self@.cells_differ(
                i,
                j,
            ) by {
                assert(before.cells_differ(i, j));
            }
        }
    }

    /// The device column of fixed capacity with the given id.
    pub(crate) fn fixed_column(&self, id: ComponentId) -> (found: Option<&FixedColumn>)
        ensures
            match found {
                Some(c) => self@.fixed.contains_key(id) && self@.fixed[id] == c@,
                None => !self@.fixed.contains_key(id),
            },
    {
        self.fixed.get(id)
    }

    /// Queues the write of one row of a device column of fixed capacity.
    /// Returns whether there is such a column.
    pub(crate) fn write_fixed(&mut self, id: ComponentId, row: u32, data: &[u8]) -> (written: bool)
        requires
            old(self).well_formed(),
        ensures
            final(self).well_formed(),
            written == old(self)@.fixed.contains_key(id),
            final(self)@ == (if written {
                StoreModel {
                    fixed: old(self)@.fixed.insert(
                        id,
                        FixedModel {
                            commands: old(self)@.fixed[id].commands.push(
                                CommandModel::Write { row, data: seq![data@] },
                            ),
                            ..old(self)@.fixed[id]
                        },
                    ),
                    ..old(self)@
                }
            } else {
                old(self)@
            }),
    {
        let ghost before = self@;
        let mut written: bool = false;
        if let Some(column) = self.fixed.get_mut(id) {
            let mut rows: Vec<Row> = Vec::new();
            rows.push(vstd::slice::slice_to_vec(data));
            proof {
                assert(blobs(rows@) =~= seq![data@]);
            }
            column.queue.push(GpuCommand::Write { row, data: rows });
            written = true;
        }
        proof {
            if written {
                let after = before.fixed.insert(
                    id,
                    FixedModel {
                        commands: before.fixed[id].commands.push(CommandModel::Write { row, data: seq![data@] }),
                        ..before.fixed[id]
                    },
                );
                assert(self@.fixed =~= after);
                assert(self@.fixed.dom() =~= before.fixed.dom());
            } else {
                assert(self@.fixed =~= before.fixed);
            }
            frame::lemma_same_cells(before, self@);
        }
        written
    }

    /// Makes a cell resident: gives it regions, writes the generations of its
    /// slots, and marks every row in use for upload.
    ///
    /// Having no free region is an ordinary condition and an error. A cell that
    /// does not fit into a region of its size class must not be offered.
    pub fn register_cell(&mut self, cell: &CellStorage, class: usize, partners: &GpuPartnerRegistry) -> (out: Result<
        CellId,
        RegionError,
    >)
        requires
            old(self).well_formed(),
            cell.well_formed(),
            class < old(self)@.row_pools.len(),
            old(self)@.cells.len() < u32::MAX,
            old(self)@.row_pools[class as int].free.len() > 0 && old(self)@.slot_pools[class as int].free.len() > 0
                ==> {
                &&& cell@.rows() <= old(self)@.row_pools[class as int].region_size
                &&& cell@.generations.len() <= old(self)@.slot_pools[class as int].region_size
                &&& one_source_each(cell@.columns, partners@, old(self)@.fixed)
            },
        ensures
            final(self).well_formed(),
            if old(self)@.row_pools[class as int].free.len() == 0 {
                out == Err::<CellId, RegionError>(RegionError::RowsExhausted) && final(self)@ == old(self)@
            } else if old(self)@.slot_pools[class as int].free.len() == 0 {
                out == Err::<CellId, RegionError>(RegionError::SlotsExhausted) && final(self)@ == old(self)@
            } else {
                &&& out == Ok::<CellId, RegionError>(CellId(old(self)@.cells.len() as u32))
                &&& final(self)@ == old(self)@.registered(cell@, class, partners@)
                &&& final(self)@.pairs(CellId(old(self)@.cells.len() as u32), cell@)
            },
    {
        let ghost before = self@;
        proof {
            assert(before.row_pools[class as int] == self.row_pools@[class as int]@);
            assert(before.slot_pools[class as int] == self.slot_pools@[class as int]@);
        }
        if self.row_pools[class].free_count() == 0 {
            return Err(RegionError::RowsExhausted);
        }
        if self.slot_pools[class].free_count() == 0 {
            return Err(RegionError::SlotsExhausted);
        }
        let row_region: u32 = match self.row_pools[class].allocate() {
            Some(r) => r,
            None => 0,
        };
        let ghost mid_rows = self.row_pools@[class as int]@;
        let slot_region: u32 = match self.slot_pools[class].allocate() {
            Some(r) => r,
            None => 0,
        };
        let ghost mid_slots = self.slot_pools@[class as int]@;
        let row_base: u32 = self.row_pools[class].start(row_region);
        let slot_base: u32 = self.slot_pools[class].start(slot_region);
        let row_capacity: u32 = self.row_pools[class].region_size();
        let slot_capacity: u32 = self.slot_pools[class].region_size();
        proof {
            lemma_region_start(before.slot_pools[class as int], slot_region);
        }
        let gen_shadow = write_region(&mut self.generations, slot_base, cell.generations(), slot_capacity);
        let (columns, gpu_columns) = match_columns(cell, partners, &self.fixed, row_capacity);
        let slot_shadow = repeated(NEVER_UPLOADED, row_capacity);
        let state = CellGpuState {
            class,
            row_region,
            slot_region,
            row_base,
            slot_base,
            columns,
            gpu_columns,
            slot_shadow,
            pending: Vec::new(),
            gen_shadow,
        };
        let ghost model = state@;
        let id = CellId(self.cells.len() as u32);
        let ghost listed = self.cells@;
        let count: usize = cell.columns().len();
        self.cells.push(Some(state));
        proof {
            let after = before.registered(cell@, class, partners@);
            assert(model == before.fresh_state(cell@, class, partners@));
            assert(state_models(self.cells@) =~= state_models(listed).push(Some(model)));
            assert(self@.row_pools =~= after.row_pools);
            assert(self@.slot_pools =~= after.slot_pools);
            assert(self@ == after);
            assert(cell@.columns.len() == count);
            lemma_registered(before, cell@, class, partners@);
        }
        Ok(id)
    }
}

} // verus!
