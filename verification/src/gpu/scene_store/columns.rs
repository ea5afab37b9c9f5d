//! Columns of a store: their registration, and writes to their rows.

use vstd::prelude::*;
use crate::component::ComponentId;
use crate::gpu::cell_store::FixedModel;
use crate::gpu::column::MirrorMode;
use crate::gpu::component_presence::{ComponentPresenceBuffer, PresenceModel};
use crate::gpu::device::{word_row, CommandModel, Row};
use crate::gpu::dirty::clean;
use crate::gpu::dirty_tracked_scene_buffer::{grown_rows, DirtyTrackedSceneBuffer, TrackedModel};
use crate::gpu::dynamic_buffer::{growth, BufferModel, CapacityError};
use crate::gpu::growable_scene_buffer::{growing_write, GrowableSceneBuffer};
use crate::gpu::once_scene_buffer::{OnceModel, OnceSceneBuffer};
use crate::gpu::partner::{GpuBufferResidency, PartnerError};
use crate::gpu::row_flags::{flagged, with_flag, without_flag};
use crate::gpu::scene_store::{residency_of, SceneGpuStore, SceneModel};
use crate::gpu::world_column::{BufferKind, ColumnBuffer, WorldColumn, WorldColumnModel};
use crate::replication::types::blobs;

verus! {

/// A device buffer that was never reallocated and has no ceiling.
pub open spec fn fresh_buffer(stride: u32, capacity: u32) -> BufferModel {
    BufferModel { capacity, max_capacity: None, epoch: 0, stride }
}

/// A column without commands.
pub open spec fn fresh_column(kind: BufferKind) -> WorldColumnModel {
    WorldColumnModel { kind, commands: Seq::empty() }
}

impl SceneModel {
    /// The store after the column of a field was asked for in a domain: the
    /// column that is there already, or a fresh one.
    pub open spec fn with_world_column(self, field: ComponentId, r: GpuBufferResidency, fresh: BufferKind) -> SceneModel {
        let c = self.partners.resolve(field);
        let m = self.claimed(field, r);
        if self.columns.contains_key(c) {
            m
        } else {
            m.with_column(c, fresh_column(fresh))
        }
    }

    /// A row was given new bytes in a column with a shadow.
    pub open spec fn row_marked(self, c: ComponentId, row: u32, data: Seq<u8>) -> SceneModel {
        match self.columns[c].kind {
            BufferKind::Shadowed(t) => self.with_column(
                c,
                WorldColumnModel {
                    kind: BufferKind::Shadowed(t.marked(row, data)),
                    commands: self.columns[c].commands,
                },
            ),
            _ => self,
        }
    }

    /// A row was handed over in a column of handoffs.
    pub open spec fn row_handed(self, c: ComponentId, row: u32, data: Seq<u8>) -> SceneModel {
        match self.columns[c].kind {
            BufferKind::Once(o) => self.with_column(
                c,
                WorldColumnModel {
                    kind: BufferKind::Once(OnceModel { pending: o.pending.push((row, data)), ..o }),
                    commands: self.columns[c].commands,
                },
            ),
            _ => self,
        }
    }

    /// A row was written at once in a column of fixed capacity.
    pub open spec fn row_fixed(self, c: ComponentId, row: u32, data: Seq<u8>) -> SceneModel {
        self.with_fixed(
            c,
            FixedModel {
                commands: self.cells.fixed[c].commands.push(CommandModel::Write { row, data: seq![data] }),
                ..self.cells.fixed[c]
            },
        )
    }

    /// A row was written at once in a growable column.
    pub open spec fn row_grown(self, c: ComponentId, row: u32, data: Seq<u8>) -> SceneModel {
        match self.columns[c].kind {
            BufferKind::Growable(b) => self.with_column(
                c,
                WorldColumnModel {
                    kind: BufferKind::Growable(growth(b, (row + 1) as u32, self.max_buffer_size).0),
                    commands: self.columns[c].commands + growing_write(b, row, seq![data], self.max_buffer_size),
                },
            ),
            _ => self,
        }
    }

    /// Whether a row of the column of a field can be written with `len` bytes.
    pub open spec fn writable(self, field: ComponentId, row: u32, len: nat) -> bool {
        let c = self.partners.resolve(field);
        &&& row < u32::MAX
        &&& self.columns.contains_key(c) ==> len == self.columns[c].buffer().stride
        &&& self.cells.fixed.contains_key(c) ==> len == self.cells.fixed[c].stride && row
            < self.cells.fixed[c].capacity
    }

    /// The store after the bytes of a mirrored field were written, in the way
    /// of its column. A column without storage is passed over. A growable
    /// column with a ceiling can refuse the row.
    pub open spec fn field_written(
        self,
        field: ComponentId,
        mode: MirrorMode,
        row: u32,
        data: Seq<u8>,
        first: bool,
    ) -> (SceneModel, Result<(), CapacityError>) {
        let c = self.partners.resolve(field);
        if mode == MirrorMode::Once && !first {
            (self, Ok(()))
        } else if self.columns.contains_key(c) {
            match self.columns[c].kind {
                BufferKind::Shadowed(_) => (
                    if mode == MirrorMode::DirtyTracked {
                        self.row_marked(c, row, data)
                    } else {
                        self
                    },
                    Ok(()),
                ),
                BufferKind::Once(_) => (
                    if mode == MirrorMode::Once {
                        self.row_handed(c, row, data)
                    } else {
                        self
                    },
                    Ok(()),
                ),
                BufferKind::Growable(b) => (
                    self.row_grown(c, row, data),
                    match growth(b, (row + 1) as u32, self.max_buffer_size).1 {
                        Ok(_) => Ok(()),
                        Err(e) => Err(e),
                    },
                ),
                BufferKind::Presence(_) => (self, Ok(())),
            }
        } else if self.cells.fixed.contains_key(c) {
            (self.row_fixed(c, row, data), Ok(()))
        } else {
            (self, Ok(()))
        }
    }

    /// A component is present in a row.
    pub open spec fn made_present(self, owner: ComponentId, row: u32) -> SceneModel {
        match self.presence[owner].kind {
            BufferKind::Presence(p) => self.with_presence(
                owner,
                WorldColumnModel {
                    kind: BufferKind::Presence(
                        PresenceModel {
                            column: if flagged(p.present, row) {
                                p.column
                            } else {
                                p.column.marked(row, word_row(1))
                            },
                            present: with_flag(p.present, row),
                        },
                    ),
                    commands: self.presence[owner].commands,
                },
            ),
            _ => self,
        }
    }

    /// A component is absent from a row.
    pub open spec fn made_absent(self, owner: ComponentId, row: u32) -> SceneModel {
        match self.presence[owner].kind {
            BufferKind::Presence(p) => self.with_presence(
                owner,
                WorldColumnModel {
                    kind: BufferKind::Presence(
                        PresenceModel {
                            column: if flagged(p.present, row) {
                                p.column.marked(row, word_row(0))
                            } else {
                                p.column
                            },
                            present: without_flag(p.present, row),
                        },
                    ),
                    commands: self.presence[owner].commands,
                },
            ),
            _ => self,
        }
    }

    /// Whether a component is present in a row.
    pub open spec fn is_present(self, owner: ComponentId, row: u32) -> bool {
        self.presence.contains_key(owner) && match self.presence[owner].kind {
            BufferKind::Presence(p) => flagged(p.present, row),
            _ => false,
        }
    }
}

impl SceneGpuStore {
    /// Whether the column of a field belongs to another domain.
    fn is_taken(&self, field: ComponentId, r: GpuBufferResidency) -> (taken: bool)
        ensures
            taken == self@.taken(field, r),
    {
        match self.partners.residency(self.partners.resolve(field)) {
            Some(x) => x != r,
            None => false,
        }
    }

    /// Asks for a device column of fixed capacity for a field of cells. A
    /// column that is there already must have rows of the same size, and as
    /// many.
    pub fn register_gpu_buffer(&mut self, field_id: ComponentId, stride: u32, capacity: u32) -> (out: Result<
        (),
        PartnerError,
    >)
        requires
            old(self).well_formed(),
            old(self)@.partners.resolve(field_id).0 < usize::MAX,
        ensures
            final(self).well_formed(),
            ({
                let c = old(self)@.partners.resolve(field_id);
                let fixed = old(self)@.cells.fixed;
                if old(self)@.taken(field_id, GpuBufferResidency::FixedCell) {
                    out == Err::<(), PartnerError>(PartnerError::Residency) && final(self)@ == old(self)@
                } else if !fixed.contains_key(c) {
                    &&& out == Ok::<(), PartnerError>(())
                    &&& final(self)@ == old(self)@.claimed(field_id, GpuBufferResidency::FixedCell).with_fixed(
                        c,
                        FixedModel { stride, capacity, commands: Seq::empty() },
                    )
                } else {
                    &&& final(self)@ == old(self)@
                    &&& out == (if fixed[c].stride != stride {
                        Err::<(), PartnerError>(PartnerError::RowSize)
                    } else if fixed[c].capacity != capacity {
                        Err(PartnerError::Capacity)
                    } else {
                        Ok(())
                    })
                }
            }),
    {
        let ghost before = self@;
        let c = self.partners.resolve(field_id);
        if self.is_taken(field_id, GpuBufferResidency::FixedCell) {
            return Err(PartnerError::Residency);
        }
        if let Some(existing) = self.cells.fixed_column(c) {
            return if existing.stride != stride {
                Err(PartnerError::RowSize)
            } else if existing.capacity != capacity {
                Err(PartnerError::Capacity)
            } else {
                Ok(())
            };
        }
        let claim = self.partners.claim_residency(field_id, GpuBufferResidency::FixedCell);
        self.cells.add_fixed(c, stride, capacity);
        proof {
            assert(claim is Ok);
        }
        Ok(())
    }

    /// Puts a fresh column of world components in place, after its domain was
    /// checked.
    fn add_world_column(&mut self, field_id: ComponentId, r: GpuBufferResidency, buf: ColumnBuffer)
        requires
            old(self).well_formed(),
            old(self)@.partners.resolve(field_id).0 < usize::MAX,
            !old(self)@.taken(field_id, r),
            !old(self)@.columns.contains_key(old(self)@.partners.resolve(field_id)),
            residency_of(buf@) == Some(r),
            fresh_column(buf@).well_formed(),
            r != GpuBufferResidency::FixedCell,
        ensures
            final(self).well_formed(),
            final(self)@ == old(self)@.with_world_column(field_id, r, buf@),
    {
        let ghost before = self@;
        let c = self.partners.resolve(field_id);
        let ghost kind = buf@;
        let claim = self.partners.claim_residency(field_id, r);
        let column = WorldColumn::new(buf);
        let ghost model = column@;
        self.columns.set(c, column);
        proof {
            assert(claim is Ok);
            assert(model.kind == kind);
            assert(self@.columns =~= before.columns.insert(c, model));
            assert(self@ == before.with_world_column(field_id, r, kind));
            assert forall|x: ComponentId| #[trigger] self@.columns.contains_key(x) implies (residency_of(
                self@.columns[x].kind,
            ) matches Some(q) && self@.partners.residencies.contains_key(x) && self@.partners.residencies[x] == q) by {
                if x != c {
                    assert(before.columns.contains_key(x));
                }
            }
            assert forall|x: ComponentId| #[trigger] self@.cells.fixed.contains_key(x) implies self@.partners.residencies.contains_key(
                x,
            ) && self@.partners.residencies[x] == GpuBufferResidency::FixedCell by {
                assert(before.cells.fixed.contains_key(x));
            }
        }
    }

    /// Asks for a growable column for a field of a world component. A column
    /// that is there already must have rows of the same size.
    pub fn register_growable_gpu_buffer(
        &mut self,
        field_id: ComponentId,
        stride: u32,
        initial_capacity: u32,
        max_capacity: Option<u32>,
    ) -> (out: Result<(), PartnerError>)
        requires
            old(self).well_formed(),
            old(self)@.partners.resolve(field_id).0 < usize::MAX,
        ensures
            final(self).well_formed(),
            ({
                let c = old(self)@.partners.resolve(field_id);
                let taken = old(self)@.taken(field_id, GpuBufferResidency::GrowableWorld);
                let clash = old(self)@.columns.contains_key(c) && old(self)@.columns[c].buffer().stride != stride;
                &&& out == (if taken {
                    Err::<(), PartnerError>(PartnerError::Residency)
                } else if clash {
                    Err(PartnerError::RowSize)
                } else {
                    Ok(())
                })
                &&& final(self)@ == (if taken || clash {
                    old(self)@
                } else {
                    old(self)@.with_world_column(
                        field_id,
                        GpuBufferResidency::GrowableWorld,
                        BufferKind::Growable(
                            BufferModel { max_capacity, ..fresh_buffer(stride, initial_capacity) },
                        ),
                    )
                })
            }),
    {
        let ghost before = self@;
        if self.is_taken(field_id, GpuBufferResidency::GrowableWorld) {
            return Err(PartnerError::Residency);
        }
        let c = self.partners.resolve(field_id);
        if let Some(existing) = self.columns.get(c) {
            proof {
                assert(before.columns.contains_key(c));
                assert(before.columns[c] == existing@);
                assert(before.claimed(field_id, GpuBufferResidency::GrowableWorld).partners.residencies
                    =~= before.partners.residencies);
            }
            return match &existing.buf {
                ColumnBuffer::Growable(b) => if b.element_size() != stride {
                    Err(PartnerError::RowSize)
                } else {
                    Ok(())
                },
                _ => Ok(()),
            };
        }
        self.add_world_column(
            field_id,
            GpuBufferResidency::GrowableWorld,
            ColumnBuffer::Growable(GrowableSceneBuffer::new(stride, initial_capacity, max_capacity)),
        );
        Ok(())
    }

    /// Asks for a column with a shadow for a field of a world component.
    pub fn register_dirty_tracked_gpu_buffer(&mut self, field_id: ComponentId, stride: u32, initial_capacity: u32) -> (out:
        Result<(), PartnerError>)
        requires
            old(self).well_formed(),
            old(self)@.partners.resolve(field_id).0 < usize::MAX,
            stride % 4 == 0,
        ensures
            final(self).well_formed(),
            ({
                let taken = old(self)@.taken(field_id, GpuBufferResidency::DirtyTrackedWorld);
                &&& out == (if taken {
                    Err::<(), PartnerError>(PartnerError::Residency)
                } else {
                    Ok(())
                })
                &&& final(self)@ == (if taken {
                    old(self)@
                } else {
                    old(self)@.with_world_column(
                        field_id,
                        GpuBufferResidency::DirtyTrackedWorld,
                        BufferKind::Shadowed(
                            TrackedModel {
                                buffer: fresh_buffer(stride, initial_capacity),
                                shadow: grown_rows(Seq::empty(), initial_capacity as nat, stride as nat),
                                dirty: clean(initial_capacity as nat),
                                policy: old(self)@.policy,
                            },
                        ),
                    )
                })
            }),
    {
        let ghost before = self@;
        if self.is_taken(field_id, GpuBufferResidency::DirtyTrackedWorld) {
            return Err(PartnerError::Residency);
        }
        let c = self.partners.resolve(field_id);
        if self.columns.contains(c) {
            proof {
                assert(before.columns.contains_key(c));
                assert(before.claimed(field_id, GpuBufferResidency::DirtyTrackedWorld).partners.residencies
                    =~= before.partners.residencies);
            }
            return Ok(());
        }
        self.add_world_column(
            field_id,
            GpuBufferResidency::DirtyTrackedWorld,
            ColumnBuffer::Shadowed(
                DirtyTrackedSceneBuffer::new_with_reallocation_policy(stride, initial_capacity, self.policy),
            ),
        );
        Ok(())
    }

    /// Asks for a column of handoffs for a field of a world component.
    pub fn register_once_gpu_buffer(&mut self, field_id: ComponentId, stride: u32, initial_capacity: u32) -> (out:
        Result<(), PartnerError>)
        requires
            old(self).well_formed(),
            old(self)@.partners.resolve(field_id).0 < usize::MAX,
            stride % 4 == 0,
        ensures
            final(self).well_formed(),
            ({
                let taken = old(self)@.taken(field_id, GpuBufferResidency::OnceWorld);
                &&& out == (if taken {
                    Err::<(), PartnerError>(PartnerError::Residency)
                } else {
                    Ok(())
                })
                &&& final(self)@ == (if taken {
                    old(self)@
                } else {
                    old(self)@.with_world_column(
                        field_id,
                        GpuBufferResidency::OnceWorld,
                        BufferKind::Once(
                            OnceModel { buffer: fresh_buffer(stride, initial_capacity), pending: Seq::empty() },
                        ),
                    )
                })
            }),
    {
        let ghost before = self@;
        if self.is_taken(field_id, GpuBufferResidency::OnceWorld) {
            return Err(PartnerError::Residency);
        }
        let c = self.partners.resolve(field_id);
        if self.columns.contains(c) {
            proof {
                assert(before.columns.contains_key(c));
                assert(before.claimed(field_id, GpuBufferResidency::OnceWorld).partners.residencies
                    =~= before.partners.residencies);
            }
            return Ok(());
        }
        self.add_world_column(
            field_id,
            GpuBufferResidency::OnceWorld,
            ColumnBuffer::Once(OnceSceneBuffer::new(stride, initial_capacity)),
        );
        Ok(())
    }

    /// Gives a component type its presence column, all absent.
    pub fn register_component_presence_buffer(&mut self, component_id: ComponentId, initial_capacity: u32)
        requires
            old(self).well_formed(),
            component_id.0 < usize::MAX,
        ensures
            final(self).well_formed(),
            final(self)@ == old(self)@.with_presence(component_id, final(self)@.presence[component_id]),
            final(self)@.presence[component_id].commands == Seq::<CommandModel>::empty(),
            final(self)@.presence[component_id].kind matches BufferKind::Presence(p) && {
                &&& p.present == clean(initial_capacity as nat)
                &&& p.column.buffer == fresh_buffer(4, initial_capacity)
                &&& p.column.shadow.len() == initial_capacity
                &&& p.column.dirty == clean(initial_capacity as nat)
                &&& p.column.policy == old(self)@.policy
            },
    {
        let ghost before = self@;
        let column = WorldColumn::new(
            ColumnBuffer::Presence(
                ComponentPresenceBuffer::new_with_reallocation_policy(initial_capacity, self.policy),
            ),
        );
        let ghost model = column@;
        self.presence.set(component_id, column);
        proof {
            assert(self@.presence =~= before.presence.insert(component_id, model));
        }
    }

    /// Records new bytes for a row of a column with a shadow. Returns whether
    /// the field has such a column.
    pub fn mark_gpu_row_dirty(&mut self, id: ComponentId, row: u32, data: &[u8]) -> (marked: bool)
        requires
            old(self).well_formed(),
            old(self)@.writable(id, row, data@.len()),
        ensures
            final(self).well_formed(),
            ({
                let c = old(self)@.partners.resolve(id);
                &&& marked == (old(self)@.columns.contains_key(c) && old(self)@.columns[c].kind is Shadowed)
                &&& final(self)@ == (if marked {
                    old(self)@.row_marked(c, row, data@)
                } else {
                    old(self)@
                })
            }),
    {
        let ghost before = self@;
        let c = self.partners.resolve(id);
        let mut marked: bool = false;
        proof {
            if before.columns.contains_key(c) {
                assert(before.columns[c].well_formed());
            }
        }
        if let Some(column) = self.columns.get_mut(c) {
            if let ColumnBuffer::Shadowed(b) = &mut column.buf {
                b.mark_dirty_bytes(row, data);
                marked = true;
            }
        }
        proof {
            assert(self@.columns.dom() =~= before.columns.dom());
            self.lemma_column_step(before, c);
            if marked {
                assert(self@.columns =~= before.row_marked(c, row, data@).columns);
            } else {
                assert(self@.columns =~= before.columns);
            }
        }
        marked
    }

    /// Hands over the bytes of a row of a column of handoffs. Returns whether
    /// the field has such a column.
    pub fn queue_gpu_row_once(&mut self, id: ComponentId, row: u32, data: &[u8]) -> (queued: bool)
        requires
            old(self).well_formed(),
            old(self)@.writable(id, row, data@.len()),
        ensures
            final(self).well_formed(),
            ({
                let c = old(self)@.partners.resolve(id);
                &&& queued == (old(self)@.columns.contains_key(c) && old(self)@.columns[c].kind is Once)
                &&& final(self)@ == (if queued {
                    old(self)@.row_handed(c, row, data@)
                } else {
                    old(self)@
                })
            }),
    {
        let ghost before = self@;
        let c = self.partners.resolve(id);
        let mut queued: bool = false;
        proof {
            if before.columns.contains_key(c) {
                assert(before.columns[c].well_formed());
            }
        }
        if let Some(column) = self.columns.get_mut(c) {
            if let ColumnBuffer::Once(b) = &mut column.buf {
                b.queue_handoff_bytes(row, data);
                queued = true;
            }
        }
        proof {
            assert(self@.columns.dom() =~= before.columns.dom());
            self.lemma_column_step(before, c);
            if queued {
                assert(self@.columns =~= before.row_handed(c, row, data@).columns);
            } else {
                assert(self@.columns =~= before.columns);
            }
        }
        queued
    }

    /// A store whose columns differ from before in the column `c` only, which
    /// is well-formed and of the same kind, is well-formed.
    proof fn lemma_column_step(&self, before: SceneModel, c: ComponentId)
        requires
            before.well_formed(),
            self@ == (SceneModel { columns: self@.columns, ..before }),
            self@.columns.dom() == before.columns.dom(),
            forall|x: ComponentId| #[trigger]
                before.columns.contains_key(x) && x != c ==> self@.columns[x] == before.columns[x],
            before.columns.contains_key(c) ==> self@.columns[c].well_formed() && residency_of(self@.columns[c].kind)
                == residency_of(before.columns[c].kind),
        ensures
            self.well_formed(),
    {
        assert forall|x: ComponentId| #[trigger] self@.columns.contains_key(x) implies self@.columns[x].well_formed()
            && (residency_of(self@.columns[x].kind) matches Some(q) && self@.partners.residencies.contains_key(x)
            && self@.partners.residencies[x] == q) by {
            assert(before.columns.dom().contains(x));
            assert(before.columns.contains_key(x));
        }
    }

    /// Writes a row of a column of fixed capacity at once. Returns whether the
    /// field has such a column.
    pub fn write_row_bytes(&mut self, id: ComponentId, data: &[u8], row: u32) -> (written: bool)
        requires
            old(self).well_formed(),
            old(self)@.writable(id, row, data@.len()),
        ensures
            final(self).well_formed(),
            ({
                let c = old(self)@.partners.resolve(id);
                &&& written == old(self)@.cells.fixed.contains_key(c)
                &&& final(self)@ == (if written {
                    old(self)@.row_fixed(c, row, data@)
                } else {
                    old(self)@
                })
            }),
    {
        let c = self.partners.resolve(id);
        self.cells.write_fixed(c, row, data)
    }

    /// Writes a row of a growable column at once, after growing it if needed;
    /// `None` if the field has no such column.
    pub fn write_row_bytes_growing(&mut self, id: ComponentId, data: &[u8], row: u32) -> (out: Option<
        Result<(), CapacityError>,
    >)
        requires
            old(self).well_formed(),
            old(self)@.writable(id, row, data@.len()),
        ensures
            final(self).well_formed(),
            ({
                let c = old(self)@.partners.resolve(id);
                if old(self)@.columns.contains_key(c) && old(self)@.columns[c].kind is Growable {
                    &&& final(self)@ == old(self)@.row_grown(c, row, data@)
                    &&& match growth(
                        old(self)@.columns[c].buffer(),
                        (row + 1) as u32,
                        old(self)@.max_buffer_size,
                    ).1 {
                        Ok(_) => out == Some(Ok::<(), CapacityError>(())),
                        Err(e) => out == Some(Err::<(), CapacityError>(e)),
                    }
                } else {
                    out is None && final(self)@ == old(self)@
                }
            }),
    {
        let ghost before = self@;
        let c = self.partners.resolve(id);
        let limit: u64 = self.max_buffer_size;
        let mut out: Option<Result<(), CapacityError>> = None;
        if let Some(column) = self.columns.get_mut(c) {
            if let ColumnBuffer::Growable(b) = &mut column.buf {
                let mut rows: Vec<Row> = Vec::new();
                rows.push(vstd::slice::slice_to_vec(data));
                proof {
                    assert(blobs(rows@) =~= seq![data@]);
                }
                out = Some(b.write_row_growing(limit, &mut column.queue, row, &rows));
            }
        }
        proof {
            assert(self@.columns.dom() =~= before.columns.dom());
            self.lemma_column_step(before, c);
            if out is Some {
                assert(self@.columns =~= before.row_grown(c, row, data@).columns);
            } else {
                assert(self@.columns =~= before.columns);
            }
        }
        out
    }

    /// Marks a component present in a row. `Some(true)` if it was absent;
    /// `None` if the component type has no presence column.
    pub fn mark_component_present(&mut self, component_id: ComponentId, row: u32) -> (out: Option<bool>)
        requires
            old(self).well_formed(),
            row < u32::MAX,
        ensures
            final(self).well_formed(),
            if old(self)@.presence.contains_key(component_id) {
                &&& out == Some(!old(self)@.is_present(component_id, row))
                &&& final(self)@ == old(self)@.made_present(component_id, row)
            } else {
                out is None && final(self)@ == old(self)@
            },
    {
        let ghost before = self@;
        let mut out: Option<bool> = None;
        proof {
            if before.presence.contains_key(component_id) {
                assert(before.presence[component_id].well_formed());
                assert(before.presence[component_id].kind is Presence);
            }
        }
        if let Some(column) = self.presence.get_mut(component_id) {
            if let ColumnBuffer::Presence(b) = &mut column.buf {
                out = Some(b.mark_present(row));
            }
        }
        proof {
            if out is Some {
                assert(self@.presence =~= before.made_present(component_id, row).presence);
                assert(self@ == before.made_present(component_id, row));
            } else {
                assert(self@.presence =~= before.presence);
            }
        }
        out
    }

    /// Marks a component absent from a row. `Some(true)` if it was present;
    /// `None` if the component type has no presence column.
    pub fn mark_component_absent(&mut self, component_id: ComponentId, row: u32) -> (out: Option<bool>)
        requires
            old(self).well_formed(),
        ensures
            final(self).well_formed(),
            if old(self)@.presence.contains_key(component_id) {
                &&& out == Some(old(self)@.is_present(component_id, row))
                &&& final(self)@ == old(self)@.made_absent(component_id, row)
            } else {
                out is None && final(self)@ == old(self)@
            },
    {
        let ghost before = self@;
        let mut out: Option<bool> = None;
        proof {
            if before.presence.contains_key(component_id) {
                assert(before.presence[component_id].well_formed());
                assert(before.presence[component_id].kind is Presence);
            }
        }
        if let Some(column) = self.presence.get_mut(component_id) {
            if let ColumnBuffer::Presence(b) = &mut column.buf {
                out = Some(b.mark_absent(row));
            }
        }
        proof {
            if out is Some {
                assert(self@.presence =~= before.made_absent(component_id, row).presence);
                assert(self@ == before.made_absent(component_id, row));
            } else {
                assert(self@.presence =~= before.presence);
            }
        }
        out
    }

    /// Writes the bytes of a mirrored field in the way of its column.
    ///
    /// A field with the mode `Once` is written only at the first handoff of a
    /// lifetime. A field without a column is passed over. A growable column
    /// with a ceiling can refuse the row.
    pub fn write_gpu_column_bytes_at_row(
        &mut self,
        row: u32,
        id: ComponentId,
        mode: MirrorMode,
        bytes: &[u8],
        first_handoff: bool,
    ) -> (out: Result<(), CapacityError>)
        requires
            old(self).well_formed(),
            old(self)@.writable(id, row, bytes@.len()),
        ensures
            final(self).well_formed(),
            (final(self)@, out) == old(self)@.field_written(id, mode, row, bytes@, first_handoff),
    {
        let ghost before = self@;
        let ghost c = before.partners.resolve(id);
        proof {
            crate::gpu::scene_store::lemma_one_column_each(before, c);
        }
        if mode == MirrorMode::Once && !first_handoff {
            return Ok(());
        }
        let deferred: bool = match mode {
            MirrorMode::DirtyTracked => self.mark_gpu_row_dirty(id, row, bytes),
            MirrorMode::Once => self.queue_gpu_row_once(id, row, bytes),
        };
        if deferred {
            return Ok(());
        }
        if self.write_row_bytes(id, bytes, row) {
            return Ok(());
        }
        match self.write_row_bytes_growing(id, bytes, row) {
            None => Ok(()),
            Some(Ok(done)) => {
                assert(done == ());
                Ok(())
            },
            Some(Err(e)) => Err(e),
        }
    }
}

} // verus!
