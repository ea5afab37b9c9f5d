//! Resident cells of a store.

use vstd::prelude::*;
use crate::cell::{column_index, CellModel, CellStorage, Handle};
use crate::component::ComponentId;
use crate::gpu::cell_store::frame::{all_pair, cell_committed, cell_synced, pools_drained, retired_count, slot_models, slots_compacted, slots_retired, slots_stats, slots_synced, source_marked};
use crate::gpu::cell_store::{layout_fits, lemma_offset_grows, lemma_product, one_source_each, row_offset, slot_offset, CellId, CellSlot, FixedModel, Phase, StoreModel};
use crate::gpu::cell_state::{CellStateModel, QueuedRetire};
use crate::gpu::column::{column_models, copy_columns, ColumnModel, GpuColumnDesc, MirrorMode, TypeToken};
use crate::gpu::device::{CommandQueue, Row, SyncStats};
use crate::gpu::partner::{GpuBufferResidency, PartnerModel};
use crate::gpu::region::RegionError;
use crate::gpu::scene_store::{SceneGpuConfig, SceneGpuStore, SceneModel};

verus! {

/// The description of a built-in column.
pub open spec fn builtin_desc(token: TypeToken, name: Seq<char>) -> ColumnModel {
    ColumnModel {
        field_token: token,
        value_token: token,
        field_offset: 0,
        mode: MirrorMode::DirtyTracked,
        buffer_name: name,
        buffer_key: None,
    }
}

/// A column of fixed capacity without commands.
pub open spec fn fresh_fixed(stride: u32, capacity: u32) -> FixedModel {
    FixedModel { stride, capacity, commands: Seq::empty() }
}

/// A store with the two built-in columns of cells.
pub open spec fn with_builtins(m: SceneModel, transform: TypeToken, instance_info: TypeToken, rows: u32) -> SceneModel {
    let partners = m.partners.registered(builtin_desc(transform, "transform"@)).registered(
        builtin_desc(instance_info, "instance_info"@),
    );
    SceneModel {
        partners: PartnerModel {
            residencies: m.partners.residencies.insert(
                transform.type_id,
                GpuBufferResidency::FixedCell,
            ).insert(instance_info.type_id, GpuBufferResidency::FixedCell),
            ..partners
        },
        cells: StoreModel {
            fixed: m.cells.fixed.insert(
                transform.type_id,
                fresh_fixed(transform.layout.size, rows),
            ).insert(instance_info.type_id, fresh_fixed(instance_info.layout.size, rows)),
            ..m.cells
        },
        ..m
    }
}

/// Rows and slots of all size classes together; `None` if they do not fit into
/// the numbers of rows and slots.
pub fn layout_totals(cfg: &SceneGpuConfig) -> (totals: Option<(u32, u32)>)
    ensures
        totals is Some <==> layout_fits(cfg.classes@, cfg.tombstone_headroom),
        totals matches Some(t) ==> {
            &&& t.0 == row_offset(cfg.classes@, cfg.classes@.len() as int)
            &&& t.1 == slot_offset(cfg.classes@, cfg.tombstone_headroom, cfg.classes@.len() as int)
        },
{
    let classes = &cfg.classes;
    let headroom: u32 = cfg.tombstone_headroom;
    let mut rows: u32 = 0;
    let mut slots: u32 = 0;
    let mut i: usize = 0;
    while i < classes.len()
        invariant
            i <= classes@.len(),
            rows == row_offset(classes@, i as int),
            slots == slot_offset(classes@, headroom, i as int),
            classes@ == cfg.classes@,
            headroom == cfg.tombstone_headroom,
            forall|k: int| 0 <= k < i ==> (#[trigger] classes@[k]).capacity + headroom <= u32::MAX,
        decreases classes@.len() - i,
    {
        let class = classes[i];
        proof {
            lemma_offset_grows(classes@, headroom, i + 1, classes@.len() as int);
            lemma_product(class.capacity, class.max_resident_cells);
        }
        if class.capacity > u32::MAX - headroom {
            assert(classes@[i as int].capacity + headroom > u32::MAX);
            return None;
        }
        let slot_size: u32 = class.capacity + headroom;
        proof {
            lemma_product(slot_size, class.max_resident_cells);
        }
        let next_rows: u64 = rows as u64 + class.capacity as u64 * class.max_resident_cells as u64;
        let next_slots: u64 = slots as u64 + slot_size as u64 * class.max_resident_cells as u64;
        if next_rows > u32::MAX as u64 || next_slots > u32::MAX as u64 {
            return None;
        }
        rows = next_rows as u32;
        slots = next_slots as u32;
        i = i + 1;
    }
    Some((rows, slots))
}

/// The name and the bytes of the fields of one row of a cell.
pub open spec fn field_models(v: Seq<(ComponentId, Row)>) -> Seq<(ComponentId, Seq<u8>)> {
    v.map_values(|f: (ComponentId, Row)| (f.0, f.1@))
}

/// The store and the cell after the first `n` fields of a row were written.
pub open spec fn fields_written(
    m: StoreModel,
    id: CellId,
    cell: CellModel,
    row: u32,
    fields: Seq<(ComponentId, Seq<u8>)>,
    n: int,
) -> (StoreModel, CellModel)
    decreases n,
{
    if n <= 0 {
        (m, cell)
    } else {
        let before = fields_written(m, id, cell, row, fields, n - 1);
        let c = column_index(cell.columns, fields[n - 1].0).unwrap();
        (
            before.0.with_state(id, source_marked(before.0.state(id), c, row)),
            before.1.written(c, row as int, fields[n - 1].1),
        )
    }
}

/// The cell has a column of the right width for the field.
pub open spec fn takes_field(cell: CellModel, id: ComponentId, len: nat) -> bool {
    column_index(cell.columns, id) matches Some(c) && 0 <= c < cell.columns.len() && len == cell.columns[c].stride
}

/// The state with the row of a device column marked, if the cell has the
/// column.
pub open spec fn buffer_marked(st: CellStateModel, buffer: ComponentId, row: u32, k: int) -> CellStateModel
    decreases st.columns.len() - k,
{
    if k < 0 || k >= st.columns.len() {
        st
    } else if st.columns[k].buffer == buffer {
        st.column_marked(k, row)
    } else {
        buffer_marked(st, buffer, row, k + 1)
    }
}

impl SceneGpuStore {
    /// A store without cells, with the two built-in columns of cells, for a
    /// device whose largest buffer has `max_buffer_size` bytes; `None` if the
    /// size classes do not fit into the numbers of rows and slots.
    pub fn new(max_buffer_size: u64, cfg: &SceneGpuConfig, transform: TypeToken, instance_info: TypeToken) -> (store:
        Option<SceneGpuStore>)
        requires
            transform.type_id != instance_info.type_id,
            transform.type_id.0 < usize::MAX,
            instance_info.type_id.0 < usize::MAX,
        ensures
            store is Some <==> layout_fits(cfg.classes@, cfg.tombstone_headroom),
            store matches Some(s) ==> s.well_formed() && s@ == with_builtins(
                SceneModel::empty(
                    max_buffer_size,
                    cfg.classes@,
                    cfg.tombstone_headroom,
                    transform.type_id,
                    instance_info.type_id,
                ),
                transform,
                instance_info,
                row_offset(cfg.classes@, cfg.classes@.len() as int) as u32,
            ),
    {
        let rows: u32 = match layout_totals(cfg) {
            Some(t) => t.0,
            None => {
                return None;
            },
        };
        let mut store = match SceneGpuStore::empty(
            max_buffer_size,
            cfg,
            transform.id(),
            instance_info.id(),
        ) {
            Some(s) => s,
            None => {
                return None;
            },
        };
        let ghost m = store@;
        let mut descs: Vec<GpuColumnDesc> = Vec::new();
        descs.push(
            GpuColumnDesc {
                field_token: transform,
                value_token: transform,
                field_offset: 0,
                mode: MirrorMode::DirtyTracked,
                buffer_name: "transform".to_owned(),
                buffer_key: None,
            },
        );
        descs.push(
            GpuColumnDesc {
                field_token: instance_info,
                value_token: instance_info,
                field_offset: 0,
                mode: MirrorMode::DirtyTracked,
                buffer_name: "instance_info".to_owned(),
                buffer_key: None,
            },
        );
        let ghost d1 = builtin_desc(transform, "transform"@);
        let ghost d2 = builtin_desc(instance_info, "instance_info"@);
        proof {
            assert(column_models(descs@) =~= seq![d1, d2]);
            assert(seq![d1, d2].drop_last() =~= seq![d1]);
            assert(seq![d1].drop_last() =~= Seq::<ColumnModel>::empty());
            assert(m.described(Seq::<ColumnModel>::empty()) == (m, Ok::<(), crate::gpu::partner::PartnerError>(())));
            let m1 = SceneModel { partners: m.partners.registered(d1), ..m };
            assert(m.described(seq![d1]) == (m1, Ok::<(), crate::gpu::partner::PartnerError>(())));
        }
        let described = store.register_gpu_column_descs(&descs);
        let first = store.register_gpu_buffer(transform.id(), transform.desc().size, rows);
        let second = store.register_gpu_buffer(instance_info.id(), instance_info.desc().size, rows);
        proof {
            let want = with_builtins(m, transform, instance_info, rows);
            assert(store@.partners.residencies =~= want.partners.residencies);
            assert(store@.cells.fixed =~= want.cells.fixed);
            assert(store@ == want);
        }
        Some(store)
    }

    /// Makes a cell resident in a size class.
    pub fn register_cell(&mut self, cell: &CellStorage, class: usize) -> (out: Result<CellId, RegionError>)
        requires
            old(self).well_formed(),
            cell.well_formed(),
            class < old(self)@.cells.row_pools.len(),
            old(self)@.cells.cells.len() < u32::MAX,
            old(self)@.cells.row_pools[class as int].free.len() > 0 && old(self)@.cells.slot_pools[class as int].free.len()
                > 0 ==> {
                &&& cell@.rows() <= old(self)@.cells.row_pools[class as int].region_size
                &&& cell@.generations.len() <= old(self)@.cells.slot_pools[class as int].region_size
                &&& one_source_each(cell@.columns, old(self)@.partners, old(self)@.cells.fixed)
            },
        ensures
            final(self).well_formed(),
            if old(self)@.cells.row_pools[class as int].free.len() == 0 {
                out == Err::<CellId, RegionError>(RegionError::RowsExhausted) && final(self)@ == old(self)@
            } else if old(self)@.cells.slot_pools[class as int].free.len() == 0 {
                out == Err::<CellId, RegionError>(RegionError::SlotsExhausted) && final(self)@ == old(self)@
            } else {
                &&& out == Ok::<CellId, RegionError>(CellId(old(self)@.cells.cells.len() as u32))
                &&& final(self)@ == (SceneModel {
                    cells: old(self)@.cells.registered(cell@, class, old(self)@.partners),
                    ..old(self)@
                })
                &&& final(self)@.cells.pairs(CellId(old(self)@.cells.cells.len() as u32), cell@)
            },
    {
        self.cells.register_cell(cell, class, &self.partners)
    }

    /// Evicts a resident cell.
    pub fn unregister_cell(&mut self, id: CellId, cell: &mut CellStorage, last_serial: u64)
        requires
            old(self).well_formed(),
            old(cell).well_formed(),
            old(self)@.cells.pairs(id, old(cell)@),
            forall|i: int|
                0 <= i < old(self)@.cells.state(id).pending.len() ==> (#[trigger] old(self)@.cells.state(
                    id,
                ).pending[i]).serial <= last_serial,
        ensures
            final(self).well_formed(),
            final(cell).well_formed(),
            ({
                let m = old(self)@.cells;
                let st = m.state(id);
                let c = st.class as int;
                &&& final(cell)@ == cell_committed(old(cell)@, st.pending, st.pending.len() as int)
                &&& final(self)@ == (SceneModel {
                    cells: StoreModel {
                        cells: m.cells.update(id.0 as int, None),
                        row_pools: m.row_pools.update(
                            c,
                            m.row_pools[c].given_back(st.row_region, last_serial),
                        ),
                        slot_pools: m.slot_pools.update(
                            c,
                            m.slot_pools[c].given_back(st.slot_region, last_serial),
                        ),
                        ..m
                    },
                    ..old(self)@
                })
            }),
    {
        self.cells.unregister_cell(id, cell, last_serial);
    }

    /// Takes the commands of a device column of the cells out, for execution.
    pub fn take_cell_commands(&mut self, id: ComponentId) -> (queue: CommandQueue)
        requires
            old(self).well_formed(),
        ensures
            final(self).well_formed(),
            ({
                let m = old(self)@;
                let c = m.partners.resolve(id);
                if m.cells.fixed.contains_key(c) {
                    &&& queue@ == m.cells.fixed[c].commands
                    &&& final(self)@ == m.with_fixed(
                        c,
                        FixedModel { commands: Seq::empty(), ..m.cells.fixed[c] },
                    )
                } else {
                    queue@.len() == 0 && final(self)@ == m
                }
            }),
    {
        let ghost before = self@;
        let c = self.partners.resolve(id);
        let queue = self.cells.take_fixed_commands(c);
        proof {
            assert(self@.cells.fixed.dom() =~= before.cells.fixed.dom());
            assert forall|x: ComponentId| #[trigger] self@.cells.fixed.contains_key(x) implies
                before.cells.fixed.contains_key(x) by {
                assert(self@.cells.fixed.dom().contains(x));
            }
        }
        queue
    }

    /// Takes the commands of the column that holds the slot of every row out,
    /// for execution.
    pub fn take_slot_commands(&mut self) -> (queue: CommandQueue)
        requires
            old(self).well_formed(),
        ensures
            final(self).well_formed(),
            queue@ == old(self)@.cells.slot_mirror,
            final(self)@ == (SceneModel {
                cells: StoreModel { slot_mirror: Seq::empty(), ..old(self)@.cells },
                ..old(self)@
            }),
    {
        self.cells.take_slot_commands()
    }

    /// Takes the commands of the column that holds the generation of every slot
    /// out, for execution.
    pub fn take_slot_generation_commands(&mut self) -> (queue: CommandQueue)
        requires
            old(self).well_formed(),
        ensures
            final(self).well_formed(),
            queue@ == old(self)@.cells.generations,
            final(self)@ == (SceneModel {
                cells: StoreModel { generations: Seq::empty(), ..old(self)@.cells },
                ..old(self)@
            }),
    {
        self.cells.take_generation_commands()
    }

    /// Marks a row of a device column of a resident cell, if the cell has the
    /// column.
    pub fn mark_column_dirty(&mut self, id: CellId, component_id: ComponentId, row: u32)
        requires
            old(self).well_formed(),
            old(self)@.cells.resident(id),
            row < old(self)@.cells.state(id).row_capacity(),
        ensures
            final(self).well_formed(),
            final(self)@ == (SceneModel {
                cells: old(self)@.cells.with_state(
                    id,
                    buffer_marked(
                        old(self)@.cells.state(id),
                        old(self)@.partners.resolve(component_id),
                        row,
                        0,
                    ),
                ),
                ..old(self)@
            }),
    {
        let buffer = self.partners.resolve(component_id);
        self.cells.mark_buffer(id, buffer, row);
    }

    /// Writes the transform of a handle, and uploads the generation of its
    /// slot unless it is on the device. Returns whether the handle was not
    /// stale.
    pub fn write_transform(&mut self, id: CellId, cell: &mut CellStorage, handle: Handle, bytes: &[u8]) -> (written:
        bool)
        requires
            old(self).well_formed(),
            old(cell).well_formed(),
            old(self)@.cells.phase == Phase::Write,
            old(self)@.cells.pairs(id, old(cell)@),
            takes_field(old(cell)@, old(self)@.transform, bytes@.len()),
        ensures
            final(self).well_formed(),
            final(cell).well_formed(),
            ({
                let c = column_index(old(cell)@.columns, old(self)@.transform).unwrap();
                let m = old(self)@.cells;
                match old(cell)@.row_of(handle) {
                    Some(row) => {
                        &&& written
                        &&& final(cell)@ == old(cell)@.written(c, row as int, bytes@)
                        &&& final(self)@ == (SceneModel {
                            cells: m.with_state(id, source_marked(m.state(id), c, row)).stamped(
                                id,
                                handle.slot,
                                handle.generation,
                            ),
                            ..old(self)@
                        })
                    },
                    None => !written && final(cell)@ == old(cell)@ && final(self)@ == old(self)@,
                }
            }),
            final(self)@.cells.pairs(id, final(cell)@),
    {
        match cell.find_column(self.transform) {
            Some(c) => {
                if self.cells.write_column(id, cell, handle, c, bytes) {
                    self.cells.stamp(id, cell, handle);
                    true
                } else {
                    false
                }
            },
            None => false,
        }
    }

    /// Writes the instance data of a handle. Returns whether the handle was not
    /// stale.
    pub fn write_instance_info(&mut self, id: CellId, cell: &mut CellStorage, handle: Handle, bytes: &[u8]) -> (written:
        bool)
        requires
            old(self).well_formed(),
            old(cell).well_formed(),
            old(self)@.cells.phase == Phase::Write,
            old(self)@.cells.pairs(id, old(cell)@),
            takes_field(old(cell)@, old(self)@.instance_info, bytes@.len()),
        ensures
            final(self).well_formed(),
            final(cell).well_formed(),
            ({
                let c = column_index(old(cell)@.columns, old(self)@.instance_info).unwrap();
                let m = old(self)@.cells;
                match old(cell)@.row_of(handle) {
                    Some(row) => {
                        &&& written
                        &&& final(cell)@ == old(cell)@.written(c, row as int, bytes@)
                        &&& final(self)@ == (SceneModel {
                            cells: m.with_state(id, source_marked(m.state(id), c, row)),
                            ..old(self)@
                        })
                    },
                    None => !written && final(cell)@ == old(cell)@ && final(self)@ == old(self)@,
                }
            }),
            final(self)@.cells.pairs(id, final(cell)@),
    {
        match cell.find_column(self.instance_info) {
            Some(c) => self.cells.write_column(id, cell, handle, c, bytes),
            None => false,
        }
    }

    /// Writes fields of the row of a handle, and uploads the generation of its
    /// slot unless it is on the device. Returns whether the handle was not
    /// stale.
    pub fn write_gpu(&mut self, id: CellId, cell: &mut CellStorage, handle: Handle, fields: &Vec<(ComponentId, Row)>) -> (written:
        bool)
        requires
            old(self).well_formed(),
            old(cell).well_formed(),
            old(self)@.cells.phase == Phase::Write,
            old(self)@.cells.pairs(id, old(cell)@),
            forall|i: int|
                0 <= i < fields@.len() ==> takes_field(
                    old(cell)@,
                    (#[trigger] fields@[i]).0,
                    fields@[i].1@.len(),
                ),
        ensures
            final(self).well_formed(),
            final(cell).well_formed(),
            match old(cell)@.row_of(handle) {
                Some(row) => {
                    let out = fields_written(
                        old(self)@.cells,
                        id,
                        old(cell)@,
                        row,
                        field_models(fields@),
                        fields@.len() as int,
                    );
                    &&& written
                    &&& final(cell)@ == out.1
                    &&& final(self)@ == (SceneModel {
                        cells: out.0.stamped(id, handle.slot, handle.generation),
                        ..old(self)@
                    })
                },
                None => !written && final(cell)@ == old(cell)@ && final(self)@ == old(self)@,
            },
            final(self)@.cells.pairs(id, final(cell)@),
    {
        let ghost m = self@;
        let ghost cell0 = cell@;
        let ghost all = field_models(fields@);
        let row: u32 = match cell.row_of(handle) {
            Some(r) => r,
            None => {
                return false;
            },
        };
        let mut i: usize = 0;
        while i < fields.len()
            invariant
                i <= fields@.len(),
                all == field_models(fields@),
                self.well_formed(),
                cell.well_formed(),
                m.cells.phase == Phase::Write,
                self@ == (SceneModel { cells: self@.cells, ..m }),
                self@.cells.phase == Phase::Write,
                (self@.cells, cell@) == fields_written(m.cells, id, cell0, row, all, i as int),
                self@.cells.pairs(id, cell@),
                cell@.row_of(handle) == Some(row),
                cell@.columns.len() == cell0.columns.len(),
                forall|k: int|
                    0 <= k < cell0.columns.len() ==> (#[trigger] cell@.columns[k]).id == cell0.columns[k].id
                        && cell@.columns[k].stride == cell0.columns[k].stride,
                forall|k: int|
                    0 <= k < fields@.len() ==> takes_field(
                        cell0,
                        (#[trigger] fields@[k]).0,
                        fields@[k].1@.len(),
                    ),
            decreases fields@.len() - i,
        {
            proof {
                assert(takes_field(cell0, fields@[i as int].0, fields@[i as int].1@.len()));
                lemma_same_columns(cell0.columns, cell@.columns, fields@[i as int].0);
            }
            if let Some(c) = cell.find_column(fields[i].0) {
                let done = self.cells.write_column(id, cell, handle, c, fields[i].1.as_slice());
            }
            i = i + 1;
        }
        self.cells.stamp(id, cell, handle);
        true
    }

    /// Makes the row of a handle dead, and queues the retirement of its slot.
    pub fn free_deferred(&mut self, id: CellId, cell: &mut CellStorage, handle: Handle, serial: u64) -> (freed: bool)
        requires
            old(self).well_formed(),
            old(cell).well_formed(),
            old(self)@.cells.phase == Phase::Write,
            old(self)@.cells.pairs(id, old(cell)@),
            old(self)@.cells.state(id).pending.len() > 0 ==> old(self)@.cells.state(id).pending.last().serial
                <= serial,
        ensures
            final(self).well_formed(),
            final(cell).well_formed(),
            ({
                let m = old(self)@.cells;
                match old(cell)@.row_of(handle) {
                    Some(row) => {
                        &&& freed
                        &&& final(cell)@ == old(cell)@.marked_dead(row as int, true)
                        &&& final(self)@ == (SceneModel {
                            cells: m.with_state(
                                id,
                                CellStateModel {
                                    pending: m.state(id).pending.push(
                                        QueuedRetire {
                                            pending: crate::cell::PendingRetire {
                                                row,
                                                slot: handle.slot,
                                                next_gen: old(cell)@.next_generation(handle.slot as int),
                                            },
                                            serial,
                                        },
                                    ),
                                    ..m.state(id)
                                },
                            ),
                            ..old(self)@
                        })
                    },
                    None => !freed && final(cell)@ == old(cell)@ && final(self)@ == old(self)@,
                }
            }),
            final(self)@.cells.pairs(id, final(cell)@),
    {
        self.cells.free_deferred(id, cell, handle, serial)
    }

    /// Opens the frame boundary: commits the retirements whose work, up to the
    /// serial number `done`, is complete.
    pub fn retire_all(&mut self, cells: &mut Vec<CellSlot>, done: u64) -> (drained: u32)
        requires
            old(self).well_formed(),
            old(self)@.cells.phase == Phase::Write,
            all_pair(old(self)@.cells, slot_models(old(cells)@)),
        ensures
            final(self).well_formed(),
            ({
                let m = StoreModel { phase: Phase::Retired, ..old(self)@.cells };
                let slots = slot_models(old(cells)@);
                let out = slots_retired(m, slots, done, slots.len() as int);
                &&& final(self)@ == (SceneModel {
                    cells: StoreModel {
                        row_pools: pools_drained(out.0.row_pools, done),
                        slot_pools: pools_drained(out.0.slot_pools, done),
                        ..out.0
                    },
                    ..old(self)@
                })
                &&& slot_models(final(cells)@) == out.1
                &&& drained == retired_count(m, slots, done, slots.len() as int) % 0x1_0000_0000
            }),
            all_pair(final(self)@.cells, slot_models(final(cells)@)),
    {
        let ghost before = self@;
        let ghost slots = slot_models(cells@);
        let drained = self.cells.retire_all(cells, done);
        proof {
            crate::gpu::cell_store::frame::lemma_retired_fixed(
                StoreModel { phase: Phase::Retired, ..before.cells },
                slots,
                done,
                slots.len() as int,
            );
        }
        drained
    }

    /// Compacts all cells.
    pub fn compact_all(&mut self, cells: &mut Vec<CellSlot>)
        requires
            old(self).well_formed(),
            old(self)@.cells.phase == Phase::Retired,
            all_pair(old(self)@.cells, slot_models(old(cells)@)),
        ensures
            final(self).well_formed(),
            ({
                let m = StoreModel { phase: Phase::Compacted, ..old(self)@.cells };
                let slots = slot_models(old(cells)@);
                let open = Seq::new(slots.len(), |k: int| true);
                let out = slots_compacted(m, slots, open, slots.len() as int);
                &&& final(self)@ == (SceneModel { cells: out.0, ..old(self)@ })
                &&& slot_models(final(cells)@) == out.1
            }),
            all_pair(final(self)@.cells, slot_models(final(cells)@)),
    {
        let ghost before = self@;
        let ghost slots = slot_models(cells@);
        self.cells.compact_all(cells);
        proof {
            crate::gpu::cell_store::frame::lemma_compacted_fixed(
                StoreModel { phase: Phase::Compacted, ..before.cells },
                slots,
                Seq::new(slots.len(), |k: int| true),
                slots.len() as int,
            );
        }
    }

    /// Compacts the cells that `ready` lets through.
    pub fn compact_all_gated<F: FnMut(CellId) -> bool>(&mut self, cells: &mut Vec<CellSlot>, ready: F)
        requires
            old(self).well_formed(),
            old(self)@.cells.phase == Phase::Retired,
            all_pair(old(self)@.cells, slot_models(old(cells)@)),
            forall|id: CellId| #[trigger] call_requires(ready, (id,)),
        ensures
            final(self).well_formed(),
            exists|gates: Seq<bool>| #[trigger]
                gates.len() == old(cells)@.len() && (forall|k: int|
                    0 <= k < gates.len() ==> call_ensures(ready, ((#[trigger] old(cells)@[k]).id,), gates[k])) && (
                final(self)@,
                slot_models(final(cells)@),
            ) == ({
                let out = slots_compacted(
                    StoreModel { phase: Phase::Compacted, ..old(self)@.cells },
                    slot_models(old(cells)@),
                    gates,
                    gates.len() as int,
                );
                (SceneModel { cells: out.0, ..old(self)@ }, out.1)
            }),
            all_pair(final(self)@.cells, slot_models(final(cells)@)),
    {
        let ghost before = self@;
        let ghost slots = slot_models(cells@);
        let ghost list = cells@;
        self.cells.compact_all_gated(cells, ready);
        proof {
            let m = StoreModel { phase: Phase::Compacted, ..before.cells };
            let gates = choose|gates: Seq<bool>| #[trigger]
                gates.len() == list.len() && (forall|k: int|
                    0 <= k < gates.len() ==> call_ensures(ready, ((#[trigger] list[k]).id,), gates[k])) && (
                self.cells@,
                slot_models(cells@),
            ) == slots_compacted(m, slots, gates, gates.len() as int);
            crate::gpu::cell_store::frame::lemma_compacted_fixed(m, slots, gates, gates.len() as int);
            assert(gates.len() == list.len());
        }
    }

    /// Closes the frame boundary: uploads what changed in all cells.
    pub fn sync_all(&mut self, cells: &Vec<CellSlot>) -> (stats: SyncStats)
        requires
            old(self).well_formed(),
            old(self)@.cells.phase == Phase::Compacted,
            all_pair(old(self)@.cells, slot_models(cells@)),
        ensures
            final(self).well_formed(),
            ({
                let m = StoreModel { phase: Phase::Write, ..old(self)@.cells };
                let slots = slot_models(cells@);
                &&& final(self)@ == (SceneModel {
                    cells: slots_synced(m, slots, slots.len() as int),
                    ..old(self)@
                })
                &&& stats == slots_stats(m, slots, slots.len() as int)
            }),
            all_pair(final(self)@.cells, slot_models(cells@)),
    {
        let ghost before = self@;
        let ghost slots = slot_models(cells@);
        let stats = self.cells.sync_all(cells);
        proof {
            crate::gpu::cell_store::frame::lemma_same_cells(
                before.cells,
                StoreModel { phase: Phase::Write, ..before.cells },
            );
            crate::gpu::cell_store::frame::lemma_synced_fixed(
                StoreModel { phase: Phase::Write, ..before.cells },
                slots,
                slots.len() as int,
            );
            assert forall|c: ComponentId| #[trigger] self@.cells.fixed.contains_key(c) implies self@.partners.residencies.contains_key(
                c,
            ) && self@.partners.residencies[c] == GpuBufferResidency::FixedCell by {
                assert(self@.cells.fixed.dom().contains(c));
                assert(before.cells.fixed.dom().contains(c));
                assert(before.cells.fixed.contains_key(c));
            }
        }
        stats
    }

    /// How many generations were uploaded one by one, wrapping around.
    pub fn generation_write_count(&self) -> (n: u64)
        ensures
            n == self@.cells.gen_writes,
    {
        self.cells.generation_write_count()
    }

    /// The first row of a resident cell in every mirrored column.
    pub fn row_region_base(&self, id: CellId) -> (row: u32)
        requires
            self@.cells.resident(id),
        ensures
            row == self@.cells.state(id).row_base,
    {
        self.cells.row_region_base(id)
    }

    /// The descriptions of the mirrored columns of a resident cell.
    pub fn gpu_column_descs_for(&self, id: CellId) -> (descs: Vec<GpuColumnDesc>)
        requires
            self@.cells.resident(id),
        ensures
            column_models(descs@) == self@.cells.state(id).gpu_columns,
    {
        copy_columns(self.cells.gpu_columns(id))
    }

    /// A fresh store for a new device, with the given cells resident and
    /// uploaded, each with the name at its place in the list. Host memory holds
    /// everything that this needs.
    ///
    /// No row of a cell may be pinned. Having no free region for a cell is an
    /// error; `None` if the size classes do not fit into the numbers of rows
    /// and slots.
    pub fn rebuild(
        max_buffer_size: u64,
        cfg: &SceneGpuConfig,
        transform: TypeToken,
        instance_info: TypeToken,
        cells: &Vec<(usize, CellStorage)>,
    ) -> (out: Option<Result<(SceneGpuStore, Vec<CellId>), RegionError>>)
        requires
            transform.type_id != instance_info.type_id,
            transform.type_id.0 < usize::MAX,
            instance_info.type_id.0 < usize::MAX,
            cells@.len() < u32::MAX,
            forall|i: int| 0 <= i < cells@.len() ==> {
                let class = (#[trigger] cells@[i]).0;
                let cell = cells@[i].1@;
                &&& cells@[i].1.well_formed()
                &&& class < cfg.classes@.len()
                &&& cell.rows() <= cfg.classes@[class as int].capacity
                &&& cell.generations.len() <= cfg.classes@[class as int].capacity + cfg.tombstone_headroom
                &&& unique_ids(cell.columns)
                &&& forall|r: int| 0 <= r < cell.rows() ==> !(#[trigger] cell.pinned[r])
            },
        ensures
            out is Some <==> layout_fits(cfg.classes@, cfg.tombstone_headroom),
            out matches Some(r) ==> {
                let start = with_builtins(
                    SceneModel::empty(
                        max_buffer_size,
                        cfg.classes@,
                        cfg.tombstone_headroom,
                        transform.type_id,
                        instance_info.type_id,
                    ),
                    transform,
                    instance_info,
                    row_offset(cfg.classes@, cfg.classes@.len() as int) as u32,
                );
                let want = rebuilt(start.cells, start.partners, class_cells(cells@), cells@.len() as int);
                match r {
                    Ok((store, ids)) => {
                        &&& want matches Ok(m) && store@ == (SceneModel { cells: m, ..start })
                        &&& store.well_formed()
                        &&& ids@ == Seq::new(cells@.len(), |i: int| CellId(i as u32))
                    },
                    Err(e) => want == Err::<StoreModel, RegionError>(e),
                }
            },
    {
        let mut store = match SceneGpuStore::new(max_buffer_size, cfg, transform, instance_info) {
            Some(s) => s,
            None => {
                return None;
            },
        };
        let ghost start = store@;
        let ghost list = class_cells(cells@);
        let mut ids: Vec<CellId> = Vec::new();
        let mut i: usize = 0;
        while i < cells.len()
            invariant
                i <= cells@.len(),
                cells@.len() < u32::MAX,
                list == class_cells(cells@),
                layout_fits(cfg.classes@, cfg.tombstone_headroom),
                start == with_builtins(
                    SceneModel::empty(
                        max_buffer_size,
                        cfg.classes@,
                        cfg.tombstone_headroom,
                        transform.type_id,
                        instance_info.type_id,
                    ),
                    transform,
                    instance_info,
                    row_offset(cfg.classes@, cfg.classes@.len() as int) as u32,
                ),
                store.well_formed(),
                start.partners.aliases == store@.partners.aliases,
                store@ == (SceneModel { cells: store@.cells, ..start }),
                rebuilt(start.cells, start.partners, list, i as int) == Ok::<StoreModel, RegionError>(store@.cells),
                store@.cells.cells.len() == i,
                store@.cells.row_pools.len() == cfg.classes@.len(),
                store@.cells.slot_pools.len() == cfg.classes@.len(),
                forall|k: int|
                    0 <= k < cfg.classes@.len() ==> (#[trigger] store@.cells.row_pools[k]).region_size
                        == cfg.classes@[k].capacity,
                forall|k: int|
                    0 <= k < cfg.classes@.len() ==> (#[trigger] store@.cells.slot_pools[k]).region_size
                        == cfg.classes@[k].capacity + cfg.tombstone_headroom,
                ids@ == Seq::new(i as nat, |k: int| CellId(k as u32)),
                plain_partners(start.partners),
                forall|k: int| 0 <= k < cells@.len() ==> {
                    let class = (#[trigger] cells@[k]).0;
                    let cell = cells@[k].1@;
                    &&& cells@[k].1.well_formed()
                    &&& class < cfg.classes@.len()
                    &&& cell.rows() <= cfg.classes@[class as int].capacity
                    &&& cell.generations.len() <= cfg.classes@[class as int].capacity + cfg.tombstone_headroom
                    &&& unique_ids(cell.columns)
                },
            decreases cells@.len() - i,
        {
            let ghost before = store@;
            let class: usize = cells[i].0;
            let cell = &cells[i].1;
            proof {
                assert(cells@[i as int].1.well_formed());
                assert(list[i as int] == (class, cell@));
                lemma_plain_sources(cell@.columns, start.partners, before.cells.fixed);
                assert(before.cells.row_pools[class as int].region_size == cfg.classes@[class as int].capacity);
                assert(before.cells.slot_pools[class as int].region_size == cfg.classes@[class as int].capacity
                    + cfg.tombstone_headroom);
            }
            let id = match store.register_cell(cell, class) {
                Ok(id) => id,
                Err(e) => {
                    proof {
                        lemma_rebuilt_stops(start.cells, start.partners, list, i + 1, cells@.len() as int);
                    }
                    return Some(Err(e));
                },
            };
            let ghost mid = store@;
            store.cells.sync_cell(id, cell);
            proof {
                crate::gpu::cell_store::frame::lemma_sync_cell_fixed(mid.cells, id, cell@);
                assert forall|c: ComponentId| #[trigger] store@.cells.fixed.contains_key(c) implies store@.partners.residencies.contains_key(
                    c,
                ) && store@.partners.residencies[c] == GpuBufferResidency::FixedCell by {
                    assert(store@.cells.fixed.dom().contains(c));
                    assert(mid.cells.fixed.dom().contains(c));
                    assert(mid.cells.fixed.contains_key(c));
                }
            }
            ids.push(id);
            i = i + 1;
            proof {
                assert(ids@ =~= Seq::new(i as nat, |k: int| CellId(k as u32)));
            }
        }
        Some(Ok((store, ids)))
    }
}

/// The cells with their size classes.
pub open spec fn class_cells(v: Seq<(usize, CellStorage)>) -> Seq<(usize, CellModel)> {
    v.map_values(|c: (usize, CellStorage)| (c.0, c.1@))
}

/// No two columns have the same id.
pub open spec fn unique_ids(columns: Seq<crate::cell::CellColumnModel>) -> bool {
    forall|i: int, j: int|
        0 <= i < j < columns.len() ==> (#[trigger] columns[i]).id != (#[trigger] columns[j]).id
}

/// Every field has a column of its own.
pub open spec fn plain_partners(p: PartnerModel) -> bool {
    forall|c: ComponentId| #[trigger] p.resolve(c) == c
}

proof fn lemma_plain_sources(
    columns: Seq<crate::cell::CellColumnModel>,
    p: PartnerModel,
    fixed: Map<ComponentId, FixedModel>,
)
    requires
        plain_partners(p),
        unique_ids(columns),
    ensures
        one_source_each(columns, p, fixed),
{
    assert forall|i: int, j: int|
        0 <= i < j < columns.len() && fixed.contains_key(p.resolve((#[trigger] columns[i]).id)) implies p.resolve(
        columns[i].id,
    ) != p.resolve((#[trigger] columns[j]).id) by {
        assert(p.resolve(columns[i].id) == columns[i].id);
        assert(p.resolve(columns[j].id) == columns[j].id);
    }
}

/// The store after the first `n` cells were made resident and uploaded, up to the
/// first that finds no free region, which is an error: of rows if it finds none
/// there, and of slots otherwise.
pub open spec fn rebuilt(m: StoreModel, p: PartnerModel, cells: Seq<(usize, CellModel)>, n: int) -> Result<
    StoreModel,
    RegionError,
>
    decreases n,
{
    if n <= 0 {
        Ok(m)
    } else {
        match rebuilt(m, p, cells, n - 1) {
            Err(e) => Err(e),
            Ok(before) => {
                let class = cells[n - 1].0;
                let cell = cells[n - 1].1;
                if before.row_pools[class as int].free.len() == 0 {
                    Err(RegionError::RowsExhausted)
                } else if before.slot_pools[class as int].free.len() == 0 {
                    Err(RegionError::SlotsExhausted)
                } else {
                    Ok(
                        cell_synced(
                            before.registered(cell, class, p),
                            CellId(before.cells.len() as u32),
                            cell,
                        ),
                    )
                }
            },
        }
    }
}

proof fn lemma_rebuilt_stops(m: StoreModel, p: PartnerModel, cells: Seq<(usize, CellModel)>, k: int, n: int)
    requires
        0 <= k <= n,
        rebuilt(m, p, cells, k) is Err,
    ensures
        rebuilt(m, p, cells, n) == rebuilt(m, p, cells, k),
    decreases n,
{
    if k < n {
        lemma_rebuilt_stops(m, p, cells, k, n - 1);
    }
}

proof fn lemma_same_columns(
    a: Seq<crate::cell::CellColumnModel>,
    b: Seq<crate::cell::CellColumnModel>,
    id: ComponentId,
)
    requires
        a.len() == b.len(),
        forall|k: int| 0 <= k < a.len() ==> (#[trigger] b[k]).id == a[k].id,
    ensures
        column_index(a, id) == column_index(b, id),
    decreases a.len(),
{
    if a.len() > 0 {
        let x = a.drop_last();
        let y = b.drop_last();
        assert forall|k: int| 0 <= k < x.len() implies (#[trigger] y[k]).id == x[k].id by {
            assert(b[k].id == a[k].id);
        }
        lemma_same_columns(x, y, id);
        assert(b[a.len() - 1].id == a[a.len() - 1].id);
    }
}

} // verus!
