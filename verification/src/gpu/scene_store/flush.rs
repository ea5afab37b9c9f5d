//! Flushing, growing and shrinking the columns of world components.

use vstd::prelude::*;
use crate::component::ComponentId;
use crate::gpu::column::GpuColumnDesc;
use crate::gpu::device::{CommandQueue, SyncStats};
use crate::gpu::dynamic_buffer::{growth, CapacityError};
use crate::gpu::scene_store::{residency_of, SceneGpuStore, SceneModel};
use crate::gpu::world_column::{all_fit, all_ids, columns_ok, flush_columns, map_stats, reserve_columns, reserved_or_not, shrink_columns, takes_part, BufferKind, ColumnBuffer, WorldColumnModel};

verus! {

impl SceneModel {
    /// Everything that is to be uploaded fits on the device.
    pub open spec fn fits(self) -> bool {
        &&& forall|c: ComponentId| #[trigger]
            self.columns.contains_key(c) ==> self.columns[c].fits(self.max_buffer_size)
        &&& forall|c: ComponentId| #[trigger]
            self.presence.contains_key(c) ==> self.presence[c].fits(self.max_buffer_size)
    }

    /// Every column was flushed.
    pub open spec fn flushed(self) -> SceneModel {
        SceneModel {
            columns: self.columns.map_values(|c: WorldColumnModel| c.flushed(self.max_buffer_size)),
            presence: self.presence.map_values(|c: WorldColumnModel| c.flushed(self.max_buffer_size)),
            ..self
        }
    }

    /// What that moved, wrapping around.
    pub open spec fn flush_stats(self) -> SyncStats {
        SyncStats::sum(
            map_stats(self.columns, all_ids(), self.max_buffer_size),
            map_stats(self.presence, all_ids(), self.max_buffer_size),
        )
    }
}

/// The columns that take part were grown.
pub open spec fn all_reserved(
    before: Map<ComponentId, WorldColumnModel>,
    after: Map<ComponentId, WorldColumnModel>,
    owners: Map<ComponentId, ComponentId>,
    owner: Option<ComponentId>,
    capacity: u32,
    max_buffer_size: u64,
) -> bool {
    &&& after.dom() == before.dom()
    &&& forall|c: ComponentId| #[trigger]
        before.contains_key(c) ==> if takes_part(owners, owner, c) {
            growth(before[c].buffer(), capacity, max_buffer_size).1 is Ok && after[c] == before[c].reserved(
                capacity,
                max_buffer_size,
            )
        } else {
            after[c] == before[c]
        }
}

/// Some of the columns that take part were grown.
pub open spec fn some_reserved(
    before: Map<ComponentId, WorldColumnModel>,
    after: Map<ComponentId, WorldColumnModel>,
    owners: Map<ComponentId, ComponentId>,
    owner: Option<ComponentId>,
    capacity: u32,
    max_buffer_size: u64,
) -> bool {
    &&& after.dom() == before.dom()
    &&& forall|c: ComponentId| #[trigger]
        before.contains_key(c) ==> if takes_part(owners, owner, c) {
            reserved_or_not(before[c], after[c], capacity, max_buffer_size)
        } else {
            after[c] == before[c]
        }
}

/// Some column that takes part refuses with the given error.
pub open spec fn some_refuses(
    before: Map<ComponentId, WorldColumnModel>,
    owners: Map<ComponentId, ComponentId>,
    owner: Option<ComponentId>,
    capacity: u32,
    max_buffer_size: u64,
    e: CapacityError,
) -> bool {
    exists|c: ComponentId| #[trigger]
        before.contains_key(c) && takes_part(owners, owner, c) && growth(
            before[c].buffer(),
            capacity,
            max_buffer_size,
        ).1 == Err::<bool, CapacityError>(e)
}

/// The columns that take part were cut to `target` rows.
pub open spec fn all_shrunk(
    before: Map<ComponentId, WorldColumnModel>,
    after: Map<ComponentId, WorldColumnModel>,
    owners: Map<ComponentId, ComponentId>,
    owner: Option<ComponentId>,
    target: u32,
) -> bool {
    &&& after.dom() == before.dom()
    &&& forall|c: ComponentId| #[trigger]
        before.contains_key(c) ==> after[c] == (if takes_part(owners, owner, c) {
            before[c].shrunk(target)
        } else {
            before[c]
        })
}

/// Some device buffer that takes part shrinks.
pub open spec fn some_shrinks(
    before: Map<ComponentId, WorldColumnModel>,
    owners: Map<ComponentId, ComponentId>,
    owner: Option<ComponentId>,
    target: u32,
) -> bool {
    exists|c: ComponentId| #[trigger]
        before.contains_key(c) && takes_part(owners, owner, c) && before[c].shrinks(target)
}

/// Columns of the same kinds keep a store well-formed.
proof fn lemma_same_kinds(m: SceneModel, n: SceneModel)
    requires
        m.well_formed(),
        n == (SceneModel { columns: n.columns, presence: n.presence, ..m }),
        n.columns.dom() == m.columns.dom(),
        n.presence.dom() == m.presence.dom(),
        columns_ok(n.columns),
        columns_ok(n.presence),
        forall|c: ComponentId| #[trigger]
            m.columns.contains_key(c) ==> residency_of(n.columns[c].kind) == residency_of(m.columns[c].kind),
        forall|c: ComponentId| #[trigger]
            m.presence.contains_key(c) ==> residency_of(n.presence[c].kind) == residency_of(m.presence[c].kind),
    ensures
        n.well_formed(),
{
    assert forall|c: ComponentId| #[trigger] n.columns.contains_key(c) implies (residency_of(
        n.columns[c].kind,
    ) matches Some(r) && n.partners.residencies.contains_key(c) && n.partners.residencies[c] == r) by {
        assert(m.columns.dom().contains(c));
        assert(m.columns.contains_key(c));
    }
    assert forall|c: ComponentId| #[trigger] n.presence.contains_key(c) implies n.presence[c].kind is Presence by {
        assert(m.presence.dom().contains(c));
        assert(m.presence.contains_key(c));
    }
}

impl SceneGpuStore {
    /// Whether everything that is to be uploaded fits on the device. Otherwise
    /// a flush is not possible.
    pub fn fits(&self) -> (yes: bool)
        requires
            self.well_formed(),
        ensures
            yes == self@.fits(),
    {
        let a: bool = all_fit(&self.columns, self.max_buffer_size);
        let b: bool = all_fit(&self.presence, self.max_buffer_size);
        a && b
    }

    /// Uploads, for all columns of world components, what changed since the
    /// last flush.
    pub fn flush_gpu_mirror(&mut self) -> (stats: SyncStats)
        requires
            old(self).well_formed(),
            old(self)@.fits(),
        ensures
            final(self).well_formed(),
            final(self)@ == old(self)@.flushed(),
            stats == old(self)@.flush_stats(),
    {
        let ghost before = self@;
        let a = flush_columns(&mut self.columns, self.max_buffer_size);
        let b = flush_columns(&mut self.presence, self.max_buffer_size);
        proof {
            let after = before.flushed();
            assert(self@ == after);
            assert(after.columns.dom() =~= before.columns.dom());
            assert(after.presence.dom() =~= before.presence.dom());
            lemma_same_kinds(before, after);
        }
        a.plus(b)
    }

    /// Grows every column of world components to at least `n` rows, until one
    /// refuses. Columns that were grown before that stay so.
    pub fn reserve_world_mirror_capacity(&mut self, n: u32) -> (out: Result<(), CapacityError>)
        requires
            old(self).well_formed(),
        ensures
            final(self).well_formed(),
            final(self)@ == (SceneModel {
                columns: final(self)@.columns,
                presence: final(self)@.presence,
                ..old(self)@
            }),
            ({
                let m = old(self)@;
                let f = final(self)@;
                let none = Map::<ComponentId, ComponentId>::empty();
                match out {
                    Ok(_) => all_reserved(m.columns, f.columns, none, None, n, m.max_buffer_size) && all_reserved(
                        m.presence,
                        f.presence,
                        none,
                        None,
                        n,
                        m.max_buffer_size,
                    ),
                    Err(e) => {
                        &&& some_refuses(m.columns, none, None, n, m.max_buffer_size, e) || some_refuses(
                            m.presence,
                            none,
                            None,
                            n,
                            m.max_buffer_size,
                            e,
                        )
                        &&& some_reserved(m.columns, f.columns, none, None, n, m.max_buffer_size)
                        &&& some_reserved(m.presence, f.presence, none, None, n, m.max_buffer_size)
                    },
                }
            }),
    {
        let ghost before = self@;
        let owners = crate::dense::DenseMap::<ComponentId>::new();
        match reserve_columns(&mut self.columns, &owners, None, self.max_buffer_size, n) {
            Ok(_) => {},
            Err(e) => {
                proof {
                    lemma_same_kinds(before, self@);
                }
                return Err(e);
            },
        }
        let out = reserve_columns(&mut self.presence, &owners, None, self.max_buffer_size, n);
        proof {
            lemma_same_kinds(before, self@);
        }
        out
    }

    /// Grows the columns of one component type to at least `capacity` rows,
    /// until one refuses.
    pub fn reserve_world_component_capacity(&mut self, owner: ComponentId, capacity: u32) -> (out: Result<
        (),
        CapacityError,
    >)
        requires
            old(self).well_formed(),
        ensures
            final(self).well_formed(),
            final(self)@ == (SceneModel {
                columns: final(self)@.columns,
                presence: final(self)@.presence,
                ..old(self)@
            }),
            ({
                let m = old(self)@;
                let f = final(self)@;
                let owners = m.partners.world_owners;
                let some = Some(owner);
                match out {
                    Ok(_) => {
                        &&& all_reserved(m.columns, f.columns, owners, some, capacity, m.max_buffer_size)
                        &&& f.presence == (if m.presence.contains_key(owner) {
                            m.presence.insert(
                                owner,
                                m.presence[owner].reserved(capacity, m.max_buffer_size),
                            )
                        } else {
                            m.presence
                        })
                        &&& m.presence.contains_key(owner) ==> growth(
                            m.presence[owner].buffer(),
                            capacity,
                            m.max_buffer_size,
                        ).1 is Ok
                    },
                    Err(e) => {
                        &&& some_refuses(m.columns, owners, some, capacity, m.max_buffer_size, e) || (
                        m.presence.contains_key(owner) && growth(
                            m.presence[owner].buffer(),
                            capacity,
                            m.max_buffer_size,
                        ).1 == Err::<bool, CapacityError>(e))
                        &&& some_reserved(m.columns, f.columns, owners, some, capacity, m.max_buffer_size)
                        &&& f.presence == m.presence
                    },
                }
            }),
    {
        let ghost before = self@;
        match reserve_columns(
            &mut self.columns,
            self.partners.owners(),
            Some(owner),
            self.max_buffer_size,
            capacity,
        ) {
            Ok(_) => {},
            Err(e) => {
                proof {
                    lemma_same_kinds(before, self@);
                }
                return Err(e);
            },
        }
        let limit: u64 = self.max_buffer_size;
        let mut out: Result<(), CapacityError> = Ok(());
        proof {
            if before.presence.contains_key(owner) {
                assert(before.presence[owner].well_formed());
            }
        }
        if let Some(column) = self.presence.get_mut(owner) {
            out = column.reserve(limit, capacity);
        }
        proof {
            let want = if out is Ok && before.presence.contains_key(owner) {
                before.presence.insert(owner, before.presence[owner].reserved(capacity, limit))
            } else {
                before.presence
            };
            assert(self@.presence =~= want);
            assert(self@.presence.dom() =~= before.presence.dom());
            lemma_same_kinds(before, self@);
        }
        match out {
            Ok(_) => Ok(()),
            Err(e) => Err(e),
        }
    }

    /// Cuts every column of world components to `target` rows.
    pub fn shrink_world_mirror_to_fit(&mut self, target: u32)
        requires
            old(self).well_formed(),
        ensures
            final(self).well_formed(),
            final(self)@ == (SceneModel {
                columns: final(self)@.columns,
                presence: final(self)@.presence,
                ..old(self)@
            }),
            all_shrunk(
                old(self)@.columns,
                final(self)@.columns,
                Map::<ComponentId, ComponentId>::empty(),
                None,
                target,
            ),
            all_shrunk(
                old(self)@.presence,
                final(self)@.presence,
                Map::<ComponentId, ComponentId>::empty(),
                None,
                target,
            ),
    {
        let ghost before = self@;
        let owners = crate::dense::DenseMap::<ComponentId>::new();
        shrink_columns(&mut self.columns, &owners, None, target);
        shrink_columns(&mut self.presence, &owners, None, target);
        proof {
            lemma_same_kinds(before, self@);
        }
    }

    /// Cuts the columns of one component type to `target` rows. Returns whether
    /// a device buffer shrank.
    pub fn shrink_world_component_to_fit(&mut self, owner: ComponentId, target: u32) -> (shrank: bool)
        requires
            old(self).well_formed(),
        ensures
            final(self).well_formed(),
            final(self)@ == (SceneModel {
                columns: final(self)@.columns,
                presence: final(self)@.presence,
                ..old(self)@
            }),
            all_shrunk(
                old(self)@.columns,
                final(self)@.columns,
                old(self)@.partners.world_owners,
                Some(owner),
                target,
            ),
            final(self)@.presence == (if old(self)@.presence.contains_key(owner) {
                old(self)@.presence.insert(owner, old(self)@.presence[owner].shrunk(target))
            } else {
                old(self)@.presence
            }),
            shrank == (some_shrinks(old(self)@.columns, old(self)@.partners.world_owners, Some(owner), target) || (
            old(self)@.presence.contains_key(owner) && old(self)@.presence[owner].shrinks(target))),
    {
        let ghost before = self@;
        let mut shrank: bool = shrink_columns(&mut self.columns, self.partners.owners(), Some(owner), target);
        proof {
            if before.presence.contains_key(owner) {
                assert(before.presence[owner].well_formed());
            }
        }
        if let Some(column) = self.presence.get_mut(owner) {
            if column.shrink_to_fit(target) {
                shrank = true;
            }
        }
        proof {
            let want = if before.presence.contains_key(owner) {
                before.presence.insert(owner, before.presence[owner].shrunk(target))
            } else {
                before.presence
            };
            assert(self@.presence =~= want);
            assert(self@.presence.dom() =~= before.presence.dom());
            lemma_same_kinds(before, self@);
        }
        shrank
    }

    /// The column of a known field, how often its device buffer was
    /// reallocated, and the description of the field. Columns of fixed capacity
    /// are never reallocated.
    pub fn gpu_buffer_snapshot_for_id(&self, field_id: ComponentId) -> (found: Option<
        (ComponentId, u64, GpuColumnDesc),
    >)
        requires
            self.well_formed(),
        ensures
            ({
                let c = self@.partners.resolve(field_id);
                let known = self@.partners.descriptors.contains_key(field_id) && (
                self@.cells.fixed.contains_key(c) || self@.columns.contains_key(c));
                match found {
                    Some((column, epoch, desc)) => {
                        &&& known
                        &&& column == c
                        &&& epoch == (if self@.cells.fixed.contains_key(c) {
                            0
                        } else {
                            self@.columns[c].buffer().epoch
                        })
                        &&& desc@ == self@.partners.descriptors[field_id]
                    },
                    None => !known,
                }
            }),
    {
        let desc = match self.partners.descriptor(field_id) {
            Some(d) => d,
            None => {
                return None;
            },
        };
        let c = self.partners.resolve(field_id);
        if self.cells.fixed_column(c).is_some() {
            return Some((c, 0, desc.copy()));
        }
        match self.columns.get(c) {
            Some(column) => Some((c, column.epoch(), desc.copy())),
            None => None,
        }
    }

    /// Like [`SceneGpuStore::gpu_buffer_snapshot_for_id`], for the column of a
    /// key.
    pub fn gpu_buffer_snapshot_for_key(&self, key: &String) -> (found: Option<(ComponentId, u64, GpuColumnDesc)>)
        requires
            self.well_formed(),
        ensures
            ({
                let named = self@.partners.named.contains_key(key@);
                let id = self@.partners.named[key@];
                let c = self@.partners.resolve(id);
                let known = named && self@.partners.descriptors.contains_key(id) && (
                self@.cells.fixed.contains_key(c) || self@.columns.contains_key(c));
                match found {
                    Some((column, epoch, desc)) => {
                        &&& known
                        &&& column == c
                        &&& epoch == (if self@.cells.fixed.contains_key(c) {
                            0
                        } else {
                            self@.columns[c].buffer().epoch
                        })
                        &&& desc@ == self@.partners.descriptors[id]
                    },
                    None => !known,
                }
            }),
    {
        match self.partners.id_for_key(key) {
            Some(id) => self.gpu_buffer_snapshot_for_id(id),
            None => None,
        }
    }

    /// How often the device buffer of a growable column was reallocated.
    pub fn growable_epoch_for_id(&self, id: ComponentId) -> (epoch: Option<u64>)
        ensures
            ({
                let c = self@.partners.resolve(id);
                match epoch {
                    Some(n) => self@.columns.contains_key(c) && self@.columns[c].kind is Growable && n
                        == self@.columns[c].buffer().epoch,
                    None => !(self@.columns.contains_key(c) && self@.columns[c].kind is Growable),
                }
            }),
    {
        match self.columns.get(self.partners.resolve(id)) {
            Some(column) => match &column.buf {
                ColumnBuffer::Growable(b) => Some(b.epoch()),
                _ => None,
            },
            None => None,
        }
    }

    /// How many rows a growable column has.
    pub fn growable_capacity_for_id(&self, id: ComponentId) -> (rows: Option<u32>)
        ensures
            ({
                let c = self@.partners.resolve(id);
                match rows {
                    Some(n) => self@.columns.contains_key(c) && self@.columns[c].kind is Growable && n
                        == self@.columns[c].buffer().capacity,
                    None => !(self@.columns.contains_key(c) && self@.columns[c].kind is Growable),
                }
            }),
    {
        match self.columns.get(self.partners.resolve(id)) {
            Some(column) => match &column.buf {
                ColumnBuffer::Growable(b) => Some(b.capacity()),
                _ => None,
            },
            None => None,
        }
    }

    /// How often the device buffer of a column with a shadow was reallocated.
    pub fn dirty_tracked_epoch_for_id(&self, id: ComponentId) -> (epoch: Option<u64>)
        ensures
            ({
                let c = self@.partners.resolve(id);
                match epoch {
                    Some(n) => self@.columns.contains_key(c) && self@.columns[c].kind is Shadowed && n
                        == self@.columns[c].buffer().epoch,
                    None => !(self@.columns.contains_key(c) && self@.columns[c].kind is Shadowed),
                }
            }),
    {
        match self.columns.get(self.partners.resolve(id)) {
            Some(column) => match &column.buf {
                ColumnBuffer::Shadowed(b) => Some(b.epoch()),
                _ => None,
            },
            None => None,
        }
    }

    /// How often the device buffer of a column of handoffs was reallocated.
    pub fn once_epoch_for_id(&self, id: ComponentId) -> (epoch: Option<u64>)
        ensures
            ({
                let c = self@.partners.resolve(id);
                match epoch {
                    Some(n) => self@.columns.contains_key(c) && self@.columns[c].kind is Once && n
                        == self@.columns[c].buffer().epoch,
                    None => !(self@.columns.contains_key(c) && self@.columns[c].kind is Once),
                }
            }),
    {
        match self.columns.get(self.partners.resolve(id)) {
            Some(column) => match &column.buf {
                ColumnBuffer::Once(b) => Some(b.epoch()),
                _ => None,
            },
            None => None,
        }
    }

    /// How many rows a column of handoffs has.
    pub fn once_capacity_for_id(&self, id: ComponentId) -> (rows: Option<u32>)
        ensures
            ({
                let c = self@.partners.resolve(id);
                match rows {
                    Some(n) => self@.columns.contains_key(c) && self@.columns[c].kind is Once && n
                        == self@.columns[c].buffer().capacity,
                    None => !(self@.columns.contains_key(c) && self@.columns[c].kind is Once),
                }
            }),
    {
        match self.columns.get(self.partners.resolve(id)) {
            Some(column) => match &column.buf {
                ColumnBuffer::Once(b) => Some(b.capacity()),
                _ => None,
            },
            None => None,
        }
    }

    /// How many handoffs of a column wait for the next flush.
    pub fn once_pending_count_for_id(&self, id: ComponentId) -> (count: Option<usize>)
        ensures
            ({
                let c = self@.partners.resolve(id);
                match count {
                    Some(n) => self@.columns.contains_key(c) && (self@.columns[c].kind matches BufferKind::Once(o)
                        && n == o.pending.len()),
                    None => !(self@.columns.contains_key(c) && self@.columns[c].kind is Once),
                }
            }),
    {
        match self.columns.get(self.partners.resolve(id)) {
            Some(column) => match &column.buf {
                ColumnBuffer::Once(b) => Some(b.pending_count()),
                _ => None,
            },
            None => None,
        }
    }

    /// How often the device buffer of a presence column was reallocated.
    pub fn component_presence_epoch_for_id(&self, component_id: ComponentId) -> (epoch: Option<u64>)
        ensures
            match epoch {
                Some(n) => self@.presence.contains_key(component_id) && n
                    == self@.presence[component_id].buffer().epoch,
                None => !self@.presence.contains_key(component_id),
            },
    {
        match self.presence.get(component_id) {
            Some(column) => Some(column.epoch()),
            None => None,
        }
    }

    /// Takes the commands of the column of a field out, for execution.
    pub fn take_commands(&mut self, id: ComponentId) -> (queue: CommandQueue)
        requires
            old(self).well_formed(),
        ensures
            final(self).well_formed(),
            ({
                let c = old(self)@.partners.resolve(id);
                if old(self)@.columns.contains_key(c) {
                    &&& queue@ == old(self)@.columns[c].commands
                    &&& final(self)@ == old(self)@.with_column(
                        c,
                        WorldColumnModel { commands: Seq::empty(), ..old(self)@.columns[c] },
                    )
                } else {
                    queue@.len() == 0 && final(self)@ == old(self)@
                }
            }),
    {
        let ghost before = self@;
        let c = self.partners.resolve(id);
        let mut queue = CommandQueue::new();
        if let Some(column) = self.columns.get_mut(c) {
            std::mem::swap(&mut queue, &mut column.queue);
        }
        proof {
            let want = if before.columns.contains_key(c) {
                before.columns.insert(
                    c,
                    WorldColumnModel { commands: Seq::empty(), ..before.columns[c] },
                )
            } else {
                before.columns
            };
            assert(self@.columns =~= want);
            assert(self@.columns.dom() =~= before.columns.dom());
            lemma_same_kinds(before, self@);
        }
        queue
    }

    /// Takes the commands of the presence column of a component type out, for
    /// execution.
    pub fn take_presence_commands(&mut self, component_id: ComponentId) -> (queue: CommandQueue)
        requires
            old(self).well_formed(),
        ensures
            final(self).well_formed(),
            if old(self)@.presence.contains_key(component_id) {
                &&& queue@ == old(self)@.presence[component_id].commands
                &&& final(self)@ == old(self)@.with_presence(
                    component_id,
                    WorldColumnModel { commands: Seq::empty(), ..old(self)@.presence[component_id] },
                )
            } else {
                queue@.len() == 0 && final(self)@ == old(self)@
            },
    {
        let ghost before = self@;
        let mut queue = CommandQueue::new();
        if let Some(column) = self.presence.get_mut(component_id) {
            std::mem::swap(&mut queue, &mut column.queue);
        }
        proof {
            let want = if before.presence.contains_key(component_id) {
                before.presence.insert(
                    component_id,
                    WorldColumnModel { commands: Seq::empty(), ..before.presence[component_id] },
                )
            } else {
                before.presence
            };
            assert(self@.presence =~= want);
            assert(self@.presence.dom() =~= before.presence.dom());
            lemma_same_kinds(before, self@);
        }
        queue
    }
}

} // verus!
