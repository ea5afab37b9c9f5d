//! Device columns of world components, of every kind.

use vstd::prelude::*;
use crate::component::ComponentId;
use crate::dense::DenseMap;
use crate::gpu::component_presence::{ComponentPresenceBuffer, PresenceModel};
use crate::gpu::device::{CommandModel, CommandQueue, SyncStats};
use crate::gpu::dirty::marked_rows;
use crate::gpu::dirty_tracked_scene_buffer::{DirtyTrackedSceneBuffer, TrackedModel};
use crate::gpu::dynamic_buffer::{greatest, growth, BufferModel, CapacityError};
use crate::gpu::growable_scene_buffer::GrowableSceneBuffer;
use crate::gpu::once_scene_buffer::{handed_rows, handed_values, OnceModel, OnceSceneBuffer};
use crate::gpu::row_flags::with_rows;
use crate::gpu::upload::upload_stats;

verus! {

/// The buffer of a column, by kind.
#[derive(Debug)]
pub enum ColumnBuffer {
    /// Written at once, and grown as needed.
    Growable(GrowableSceneBuffer),
    /// Every change is uploaded with the next flush.
    Shadowed(DirtyTrackedSceneBuffer),
    /// One handoff per lifetime of a component.
    Once(OnceSceneBuffer),
    /// Which rows have the component.
    Presence(ComponentPresenceBuffer),
}

/// A device column and the commands on it that are to be executed.
#[derive(Debug)]
pub struct WorldColumn {
    pub buf: ColumnBuffer,
    pub queue: CommandQueue,
}

/// The value of a [`ColumnBuffer`].
pub enum BufferKind {
    Growable(BufferModel),
    Shadowed(TrackedModel),
    Once(OnceModel),
    Presence(PresenceModel),
}

/// The value of a [`WorldColumn`].
pub struct WorldColumnModel {
    pub kind: BufferKind,
    pub commands: Seq<CommandModel>,
}

impl View for ColumnBuffer {
    type V = BufferKind;

    open spec fn view(&self) -> BufferKind {
        match self {
            ColumnBuffer::Growable(b) => BufferKind::Growable(b@),
            ColumnBuffer::Shadowed(b) => BufferKind::Shadowed(b@),
            ColumnBuffer::Once(b) => BufferKind::Once(b@),
            ColumnBuffer::Presence(b) => BufferKind::Presence(b@),
        }
    }
}

impl View for WorldColumn {
    type V = WorldColumnModel;

    open spec fn view(&self) -> WorldColumnModel {
        WorldColumnModel {
            kind: self.buf@,
            commands: self.queue@,
        }
    }
}

/// The command of a reallocation, if there was one.
pub open spec fn reallocation(before: BufferModel, after: BufferModel, keep: u32) -> Seq<CommandModel> {
    if before.epoch != after.epoch {
        seq![CommandModel::Reallocate { capacity: after.capacity, keep }]
    } else {
        Seq::empty()
    }
}

impl WorldColumnModel {
    /// The buffer's own invariant.
    pub open spec fn well_formed(self) -> bool {
        match self.kind {
            BufferKind::Growable(_) => true,
            BufferKind::Shadowed(t) => t.well_formed(),
            BufferKind::Once(o) => o.well_formed(),
            BufferKind::Presence(p) => p.well_formed(),
        }
    }

    /// The device buffer of the column.
    pub open spec fn buffer(self) -> BufferModel {
        match self.kind {
            BufferKind::Growable(b) => b,
            BufferKind::Shadowed(t) => t.buffer,
            BufferKind::Once(o) => o.buffer,
            BufferKind::Presence(p) => p.column.buffer,
        }
    }

    /// What is to be uploaded fits on a device.
    pub open spec fn fits(self, max_buffer_size: u64) -> bool {
        match self.kind {
            BufferKind::Growable(_) => true,
            BufferKind::Shadowed(t) => t.shadow.len() <= greatest(
                t.buffer.capacity as nat,
                t.buffer.limit(max_buffer_size),
            ),
            BufferKind::Once(o) => o.fits(max_buffer_size),
            BufferKind::Presence(p) => p.column.shadow.len() <= greatest(
                p.column.buffer.capacity as nat,
                p.column.buffer.limit(max_buffer_size),
            ),
        }
    }

    /// What was to be uploaded is among the commands.
    pub open spec fn flushed(self, max_buffer_size: u64) -> WorldColumnModel {
        match self.kind {
            BufferKind::Growable(_) => self,
            BufferKind::Shadowed(t) => WorldColumnModel {
                kind: BufferKind::Shadowed(t.flushed(max_buffer_size)),
                commands: self.commands + t.flush_commands(max_buffer_size),
            },
            BufferKind::Once(o) => WorldColumnModel {
                kind: BufferKind::Once(
                    OnceModel { buffer: o.settled(max_buffer_size), pending: Seq::empty() },
                ),
                commands: self.commands + o.flush_commands(max_buffer_size),
            },
            BufferKind::Presence(p) => WorldColumnModel {
                kind: BufferKind::Presence(PresenceModel { column: p.column.flushed(max_buffer_size), ..p }),
                commands: self.commands + p.column.flush_commands(max_buffer_size),
            },
        }
    }

    /// What that moved.
    pub open spec fn flush_stats(self, max_buffer_size: u64) -> SyncStats {
        match self.kind {
            BufferKind::Growable(_) => SyncStats { ranges: 0, bytes: 0 },
            BufferKind::Shadowed(t) => {
                let after = t.settled(max_buffer_size);
                let rows = marked_rows(after.dirty);
                upload_stats(rows, after.values(rows), after.buffer.stride)
            },
            BufferKind::Once(o) => if o.pending.len() == 0 {
                SyncStats { ranges: 0, bytes: 0 }
            } else {
                upload_stats(handed_rows(o.pending), handed_values(o.pending), o.buffer.stride)
            },
            BufferKind::Presence(p) => {
                let after = p.column.settled(max_buffer_size);
                let rows = marked_rows(after.dirty);
                upload_stats(rows, after.values(rows), 4)
            },
        }
    }

    /// The column has at least `capacity` rows.
    pub open spec fn reserved(self, capacity: u32, max_buffer_size: u64) -> WorldColumnModel {
        match self.kind {
            BufferKind::Growable(b) => {
                let after = growth(b, capacity, max_buffer_size).0;
                WorldColumnModel {
                    kind: BufferKind::Growable(after),
                    commands: self.commands + reallocation(b, after, b.capacity),
                }
            },
            BufferKind::Shadowed(t) => {
                let after = t.reserved(capacity, max_buffer_size);
                WorldColumnModel {
                    kind: BufferKind::Shadowed(after),
                    commands: self.commands + reallocation(t.buffer, after.buffer, t.kept(t.buffer.capacity)),
                }
            },
            BufferKind::Once(o) => {
                let after = growth(o.buffer, capacity, max_buffer_size).0;
                WorldColumnModel {
                    kind: BufferKind::Once(OnceModel { buffer: after, ..o }),
                    commands: self.commands + reallocation(o.buffer, after, o.buffer.capacity),
                }
            },
            BufferKind::Presence(p) => {
                let after = p.column.reserved(capacity, max_buffer_size);
                WorldColumnModel {
                    kind: BufferKind::Presence(
                        PresenceModel { column: after, present: with_rows(p.present, capacity as nat) },
                    ),
                    commands: self.commands + reallocation(
                        p.column.buffer,
                        after.buffer,
                        p.column.kept(p.column.buffer.capacity),
                    ),
                }
            },
        }
    }

    /// Whether the device buffer shrinks when the column is cut to `target`
    /// rows.
    pub open spec fn shrinks(self, target: u32) -> bool {
        target < self.buffer().capacity && match self.kind {
            BufferKind::Shadowed(t) => target < t.shadow.len(),
            BufferKind::Presence(p) => target < p.column.shadow.len(),
            _ => true,
        }
    }

    /// The column was cut to `target` rows.
    pub open spec fn shrunk(self, target: u32) -> WorldColumnModel {
        match self.kind {
            BufferKind::Growable(b) => if target < b.capacity {
                WorldColumnModel {
                    kind: BufferKind::Growable(b.reallocated(target)),
                    commands: self.commands.push(
                        CommandModel::Reallocate { capacity: target, keep: target },
                    ),
                }
            } else {
                self
            },
            BufferKind::Shadowed(t) => WorldColumnModel {
                kind: BufferKind::Shadowed(
                    if target < t.shadow.len() {
                        t.shrunk(target)
                    } else {
                        t
                    },
                ),
                commands: if self.shrinks(target) {
                    self.commands.push(
                        CommandModel::Reallocate { capacity: target, keep: t.kept(target) },
                    )
                } else {
                    self.commands
                },
            },
            BufferKind::Once(o) => WorldColumnModel {
                kind: BufferKind::Once(
                    OnceModel {
                        buffer: if target < o.buffer.capacity {
                            o.buffer.reallocated(target)
                        } else {
                            o.buffer
                        },
                        ..o
                    },
                ),
                commands: if target < o.buffer.capacity {
                    self.commands.push(CommandModel::Reallocate { capacity: target, keep: target })
                } else {
                    self.commands
                },
            },
            BufferKind::Presence(p) => WorldColumnModel {
                kind: BufferKind::Presence(
                    PresenceModel {
                        column: if target < p.column.shadow.len() {
                            p.column.shrunk(target)
                        } else {
                            p.column
                        },
                        present: if target < p.present.len() {
                            p.present.take(target as int)
                        } else {
                            p.present
                        },
                    },
                ),
                commands: if self.shrinks(target) {
                    self.commands.push(
                        CommandModel::Reallocate { capacity: target, keep: p.column.kept(target) },
                    )
                } else {
                    self.commands
                },
            },
        }
    }
}

impl WorldColumn {
    /// The buffer's own invariant.
    pub open spec fn well_formed(&self) -> bool {
        self@.well_formed()
    }

    /// A column without commands.
    pub fn new(buf: ColumnBuffer) -> (c: WorldColumn)
        ensures
            c.buf == buf,
            c@.commands == Seq::<CommandModel>::empty(),
    {
        WorldColumn { buf, queue: CommandQueue::new() }
    }

    /// Whether what is to be uploaded fits on a device.
    pub fn fits(&self, max_buffer_size: u64) -> (yes: bool)
        requires
            self.well_formed(),
        ensures
            yes == self@.fits(max_buffer_size),
    {
        match &self.buf {
            ColumnBuffer::Growable(_) => true,
            ColumnBuffer::Shadowed(b) => b.fits(max_buffer_size),
            ColumnBuffer::Once(b) => b.fits(max_buffer_size),
            ColumnBuffer::Presence(b) => b.fits(max_buffer_size),
        }
    }

    /// Uploads what is to be uploaded.
    pub fn flush(&mut self, max_buffer_size: u64) -> (stats: SyncStats)
        requires
            old(self).well_formed(),
            old(self)@.fits(max_buffer_size),
        ensures
            final(self).well_formed(),
            final(self)@ == old(self)@.flushed(max_buffer_size),
            stats == old(self)@.flush_stats(max_buffer_size),
    {
        match &mut self.buf {
            ColumnBuffer::Growable(_) => SyncStats::none(),
            ColumnBuffer::Shadowed(b) => b.flush(max_buffer_size, &mut self.queue),
            ColumnBuffer::Once(b) => b.flush(max_buffer_size, &mut self.queue),
            ColumnBuffer::Presence(b) => b.flush(max_buffer_size, &mut self.queue),
        }
    }

    /// Grows the column to at least `capacity` rows. A request beyond the limit
    /// is an error and changes nothing.
    pub fn reserve(&mut self, max_buffer_size: u64, capacity: u32) -> (out: Result<(), CapacityError>)
        requires
            old(self).well_formed(),
        ensures
            final(self).well_formed(),
            match growth(old(self)@.buffer(), capacity, max_buffer_size).1 {
                Ok(_) => out == Ok::<(), CapacityError>(()) && final(self)@ == old(self)@.reserved(
                    capacity,
                    max_buffer_size,
                ),
                Err(e) => out == Err::<(), CapacityError>(e) && final(self)@ == old(self)@,
            },
    {
        let ghost before = self@;
        let out = match &mut self.buf {
            ColumnBuffer::Growable(b) => b.reserve(max_buffer_size, &mut self.queue, capacity),
            ColumnBuffer::Shadowed(b) => b.reserve(max_buffer_size, &mut self.queue, capacity),
            ColumnBuffer::Once(b) => b.reserve(max_buffer_size, &mut self.queue, capacity),
            ColumnBuffer::Presence(b) => b.reserve(max_buffer_size, &mut self.queue, capacity),
        };
        proof {
            if out is Ok {
                assert(self@.commands =~= before.reserved(capacity, max_buffer_size).commands);
            }
        }
        out
    }

    /// Cuts the column to `target` rows. Returns whether its device buffer
    /// shrank.
    pub fn shrink_to_fit(&mut self, target: u32) -> (shrank: bool)
        requires
            old(self).well_formed(),
        ensures
            final(self).well_formed(),
            final(self)@ == old(self)@.shrunk(target),
            shrank == old(self)@.shrinks(target),
    {
        match &mut self.buf {
            ColumnBuffer::Growable(b) => b.shrink_to_fit(&mut self.queue, target),
            ColumnBuffer::Shadowed(b) => b.shrink_to_fit(&mut self.queue, target),
            ColumnBuffer::Once(b) => b.shrink_to_fit(&mut self.queue, target),
            ColumnBuffer::Presence(b) => b.shrink_to_fit(&mut self.queue, target),
        }
    }

    /// How often the device buffer was reallocated, wrapping around.
    pub fn epoch(&self) -> (n: u64)
        ensures
            n == self@.buffer().epoch,
    {
        match &self.buf {
            ColumnBuffer::Growable(b) => b.epoch(),
            ColumnBuffer::Shadowed(b) => b.epoch(),
            ColumnBuffer::Once(b) => b.epoch(),
            ColumnBuffer::Presence(b) => b.epoch(),
        }
    }
}

/// The contents of a map of columns.
pub open spec fn column_map(m: Map<ComponentId, WorldColumn>) -> Map<ComponentId, WorldColumnModel> {
    m.map_values(|c: WorldColumn| c@)
}

/// Every column's buffer has its own invariant.
pub open spec fn columns_ok(m: Map<ComponentId, WorldColumnModel>) -> bool {
    forall|c: ComponentId| #[trigger] m.contains_key(c) ==> m[c].well_formed()
}

/// What the flush of the columns with numbers below `n` moves.
pub open spec fn map_stats(m: Map<ComponentId, WorldColumnModel>, n: int, max_buffer_size: u64) -> SyncStats
    decreases n,
{
    if n <= 0 {
        SyncStats { ranges: 0, bytes: 0 }
    } else {
        let before = map_stats(m, n - 1, max_buffer_size);
        let c = ComponentId((n - 1) as u32);
        if m.contains_key(c) {
            SyncStats::sum(before, m[c].flush_stats(max_buffer_size))
        } else {
            before
        }
    }
}

/// How many component numbers there are.
pub open spec fn all_ids() -> int {
    0x1_0000_0000
}

proof fn lemma_map_stats(m: Map<ComponentId, WorldColumnModel>, n: int, k: int, max_buffer_size: u64)
    requires
        0 <= n <= k <= all_ids(),
        forall|c: ComponentId| #[trigger] m.contains_key(c) ==> c.0 < n,
    ensures
        map_stats(m, k, max_buffer_size) == map_stats(m, n, max_buffer_size),
    decreases k - n,
{
    if n < k {
        lemma_map_stats(m, n, k - 1, max_buffer_size);
    }
}

/// Whether a column takes part: all do, or only those of the given owner.
pub open spec fn takes_part(owners: Map<ComponentId, ComponentId>, owner: Option<ComponentId>, c: ComponentId) -> bool {
    owner matches Some(o) ==> owners.contains_key(c) && owners[c] == o
}

/// Whether all columns fit on a device.
pub fn all_fit(columns: &DenseMap<WorldColumn>, max_buffer_size: u64) -> (yes: bool)
    requires
        columns_ok(column_map(columns@)),
    ensures
        yes == forall|c: ComponentId| #[trigger]
            column_map(columns@).contains_key(c) ==> column_map(columns@)[c].fits(max_buffer_size),
{
    let limit: usize = columns.limit();
    let mut i: usize = 0;
    while i < limit && i <= u32::MAX as usize
        invariant
            columns_ok(column_map(columns@)),
            forall|c: ComponentId| #[trigger] columns@.contains_key(c) ==> c.0 < limit,
            i <= limit,
            forall|c: ComponentId| #[trigger]
                columns@.contains_key(c) && c.0 < i ==> columns@[c]@.fits(max_buffer_size),
        decreases limit - i,
    {
        let id = ComponentId(i as u32);
        if let Some(column) = columns.get(id) {
            proof {
                assert(column_map(columns@).contains_key(id));
            }
            if !column.fits(max_buffer_size) {
                proof {
                    assert(!column_map(columns@)[id].fits(max_buffer_size));
                }
                return false;
            }
        }
        i = i + 1;
        proof {
            assert forall|c: ComponentId| #[trigger] columns@.contains_key(c) && c.0 < i implies columns@[c]@.fits(
                max_buffer_size,
            ) by {
                if c.0 == i - 1 {
                    assert(c == id);
                }
            }
        }
    }
    true
}

/// Flushes all columns.
pub fn flush_columns(columns: &mut DenseMap<WorldColumn>, max_buffer_size: u64) -> (stats: SyncStats)
    requires
        columns_ok(column_map(old(columns)@)),
        forall|c: ComponentId| #[trigger]
            column_map(old(columns)@).contains_key(c) ==> column_map(old(columns)@)[c].fits(max_buffer_size),
    ensures
        columns_ok(column_map(final(columns)@)),
        column_map(final(columns)@) == column_map(old(columns)@).map_values(
            |c: WorldColumnModel| c.flushed(max_buffer_size),
        ),
        stats == map_stats(column_map(old(columns)@), all_ids(), max_buffer_size),
{
    let ghost before = column_map(columns@);
    let limit: usize = columns.limit();
    let mut stats = SyncStats::none();
    let mut i: usize = 0;
    proof {
        assert forall|c: ComponentId| #[trigger] columns@.contains_key(c) implies columns@[c]@ == before[c]
            && columns@[c].well_formed() by {
            assert(before.contains_key(c));
        }
    }
    while i < limit && i <= u32::MAX as usize
        invariant
            i <= limit,
            i <= all_ids(),
            columns_ok(before),
            forall|c: ComponentId| #[trigger] before.contains_key(c) ==> before[c].fits(max_buffer_size),
            forall|c: ComponentId| #[trigger] before.contains_key(c) ==> c.0 < limit,
            columns@.dom() == before.dom(),
            forall|c: ComponentId| #[trigger]
                columns@.contains_key(c) ==> columns@[c]@ == (if c.0 < i {
                    before[c].flushed(max_buffer_size)
                } else {
                    before[c]
                }) && columns@[c].well_formed(),
            stats == map_stats(before, i as int, max_buffer_size),
        decreases limit - i,
    {
        let id = ComponentId(i as u32);
        let ghost here = columns@;
        proof {
            if here.contains_key(id) {
                assert(before.dom().contains(id));
                assert(before.contains_key(id));
            }
            assert(before.contains_key(id) == here.contains_key(id)) by {
                assert(before.dom().contains(id) == here.dom().contains(id));
            }
        }
        if let Some(column) = columns.get_mut(id) {
            let part = column.flush(max_buffer_size);
            stats = stats.plus(part);
        }
        i = i + 1;
        proof {
            assert(columns@.dom() =~= before.dom());
            assert forall|c: ComponentId| #[trigger] columns@.contains_key(c) implies columns@[c]@ == (if c.0 < i {
                before[c].flushed(max_buffer_size)
            } else {
                before[c]
            }) && columns@[c].well_formed() by {
                if c != id {
                    assert(here.contains_key(c));
                    assert(c.0 != i - 1);
                }
            }
        }
    }
    proof {
        let want = before.map_values(|c: WorldColumnModel| c.flushed(max_buffer_size));
        assert forall|c: ComponentId| #[trigger] column_map(columns@).contains_key(c) implies column_map(columns@)[c]
            == want[c] by {
            assert(columns@.contains_key(c));
            assert(before.dom().contains(c));
            assert(before.contains_key(c));
        }
        assert(column_map(columns@) =~= want);
        assert forall|c: ComponentId| #[trigger] before.contains_key(c) implies c.0 < i by {}
        lemma_map_stats(before, i as int, all_ids(), max_buffer_size);
    }
    stats
}

/// What may have become of a column when some columns were grown.
pub open spec fn reserved_or_not(
    before: WorldColumnModel,
    after: WorldColumnModel,
    capacity: u32,
    max_buffer_size: u64,
) -> bool {
    after == before || (growth(before.buffer(), capacity, max_buffer_size).1 is Ok && after == before.reserved(
        capacity,
        max_buffer_size,
    ))
}

/// Grows all columns, or only those of the given owner, until one refuses.
/// Columns that were grown before that stay so.
pub fn reserve_columns(
    columns: &mut DenseMap<WorldColumn>,
    owners: &DenseMap<ComponentId>,
    owner: Option<ComponentId>,
    max_buffer_size: u64,
    capacity: u32,
) -> (out: Result<(), CapacityError>)
    requires
        columns_ok(column_map(old(columns)@)),
    ensures
        columns_ok(column_map(final(columns)@)),
        column_map(final(columns)@).dom() == column_map(old(columns)@).dom(),
        match out {
            Ok(_) => forall|c: ComponentId| #[trigger]
                column_map(old(columns)@).contains_key(c) ==> {
                    let before = column_map(old(columns)@)[c];
                    if takes_part(owners@, owner, c) {
                        growth(before.buffer(), capacity, max_buffer_size).1 is Ok && column_map(
                            final(columns)@,
                        )[c] == before.reserved(capacity, max_buffer_size)
                    } else {
                        column_map(final(columns)@)[c] == before
                    }
                },
            Err(e) => {
                &&& exists|c: ComponentId| #[trigger]
                    column_map(old(columns)@).contains_key(c) && takes_part(owners@, owner, c) && growth(
                        column_map(old(columns)@)[c].buffer(),
                        capacity,
                        max_buffer_size,
                    ).1 == Err::<bool, CapacityError>(e)
                &&& forall|c: ComponentId| #[trigger]
                    column_map(old(columns)@).contains_key(c) ==> if takes_part(owners@, owner, c) {
                        reserved_or_not(
                            column_map(old(columns)@)[c],
                            column_map(final(columns)@)[c],
                            capacity,
                            max_buffer_size,
                        )
                    } else {
                        column_map(final(columns)@)[c] == column_map(old(columns)@)[c]
                    }
            },
        },
{
    let ghost before = column_map(columns@);
    let limit: usize = columns.limit();
    let mut i: usize = 0;
    proof {
        assert forall|c: ComponentId| #[trigger] columns@.contains_key(c) implies columns@[c]@ == before[c]
            && columns@[c].well_formed() by {
            assert(before.contains_key(c));
        }
    }
    while i < limit && i <= u32::MAX as usize
        invariant
            i <= limit,
            columns_ok(before),
            before == column_map(old(columns)@),
            forall|c: ComponentId| #[trigger] before.contains_key(c) ==> c.0 < limit,
            columns@.dom() == before.dom(),
            forall|c: ComponentId| #[trigger]
                columns@.contains_key(c) ==> columns@[c]@ == (if c.0 < i && takes_part(owners@, owner, c) {
                    before[c].reserved(capacity, max_buffer_size)
                } else {
                    before[c]
                }) && columns@[c].well_formed(),
            forall|c: ComponentId| #[trigger]
                before.contains_key(c) && c.0 < i && takes_part(owners@, owner, c) ==> growth(
                    before[c].buffer(),
                    capacity,
                    max_buffer_size,
                ).1 is Ok,
        decreases limit - i,
    {
        let id = ComponentId(i as u32);
        let ghost here = columns@;
        let chosen: bool = match owner {
            Some(o) => match owners.get(id) {
                Some(x) => *x == o,
                None => false,
            },
            None => true,
        };
        proof {
            assert(chosen == takes_part(owners@, owner, id));
            assert(before.dom().contains(id) == here.dom().contains(id));
        }
        let mut failed: Option<CapacityError> = None;
        if chosen {
            if let Some(column) = columns.get_mut(id) {
                match column.reserve(max_buffer_size, capacity) {
                    Ok(_) => {},
                    Err(e) => {
                        failed = Some(e);
                    },
                }
            }
        }
        proof {
            assert(columns@.dom() =~= before.dom());
        }
        if let Some(e) = failed {
            proof {
                assert forall|c: ComponentId| #[trigger] before.contains_key(c) implies if takes_part(
                    owners@,
                    owner,
                    c,
                ) {
                    reserved_or_not(before[c], column_map(columns@)[c], capacity, max_buffer_size)
                } else {
                    column_map(columns@)[c] == before[c]
                } by {
                    assert(before.dom().contains(c));
                    assert(here.dom().contains(c));
                    assert(here.contains_key(c));
                    assert(columns@.dom().contains(c));
                }
                assert forall|c: ComponentId| #[trigger] column_map(columns@).contains_key(c) implies column_map(
                    columns@,
                )[c].well_formed() by {
                    assert(columns@.contains_key(c));
                    if c != id {
                        assert(here.contains_key(c));
                    }
                }
                assert(before.contains_key(id));
            }
            return Err(e);
        }
        i = i + 1;
        proof {
            assert forall|c: ComponentId| #[trigger] columns@.contains_key(c) implies columns@[c]@ == (if c.0 < i
                && takes_part(owners@, owner, c) {
                before[c].reserved(capacity, max_buffer_size)
            } else {
                before[c]
            }) && columns@[c].well_formed() by {
                if c != id {
                    assert(here.contains_key(c));
                    assert(c.0 != i - 1);
                }
            }
            assert forall|c: ComponentId| #[trigger]
                before.contains_key(c) && c.0 < i && takes_part(owners@, owner, c) implies growth(
                before[c].buffer(),
                capacity,
                max_buffer_size,
            ).1 is Ok by {
                if c.0 == i - 1 {
                    assert(c == id);
                }
            }
        }
    }
    proof {
        assert forall|c: ComponentId| #[trigger] before.contains_key(c) implies {
            if takes_part(owners@, owner, c) {
                growth(before[c].buffer(), capacity, max_buffer_size).1 is Ok && column_map(columns@)[c]
                    == before[c].reserved(capacity, max_buffer_size)
            } else {
                column_map(columns@)[c] == before[c]
            }
        } by {
            assert(c.0 < i);
            assert(before.dom().contains(c));
            assert(columns@.dom().contains(c));
            assert(columns@.contains_key(c));
        }
    }
    Ok(())
}

/// Cuts all columns, or only those of the given owner, to `target` rows.
/// Returns whether a device buffer shrank.
pub fn shrink_columns(
    columns: &mut DenseMap<WorldColumn>,
    owners: &DenseMap<ComponentId>,
    owner: Option<ComponentId>,
    target: u32,
) -> (shrank: bool)
    requires
        columns_ok(column_map(old(columns)@)),
    ensures
        columns_ok(column_map(final(columns)@)),
        column_map(final(columns)@).dom() == column_map(old(columns)@).dom(),
        forall|c: ComponentId| #[trigger]
            column_map(old(columns)@).contains_key(c) ==> column_map(final(columns)@)[c] == (if takes_part(
                owners@,
                owner,
                c,
            ) {
                column_map(old(columns)@)[c].shrunk(target)
            } else {
                column_map(old(columns)@)[c]
            }),
        shrank == exists|c: ComponentId| #[trigger]
            column_map(old(columns)@).contains_key(c) && takes_part(owners@, owner, c) && column_map(
                old(columns)@,
            )[c].shrinks(target),
{
    let ghost before = column_map(columns@);
    let limit: usize = columns.limit();
    let mut shrank: bool = false;
    let mut i: usize = 0;
    proof {
        assert forall|c: ComponentId| #[trigger] columns@.contains_key(c) implies columns@[c]@ == before[c]
            && columns@[c].well_formed() by {
            assert(before.contains_key(c));
        }
    }
    while i < limit && i <= u32::MAX as usize
        invariant
            i <= limit,
            columns_ok(before),
            forall|c: ComponentId| #[trigger] before.contains_key(c) ==> c.0 < limit,
            columns@.dom() == before.dom(),
            forall|c: ComponentId| #[trigger]
                columns@.contains_key(c) ==> columns@[c]@ == (if c.0 < i && takes_part(owners@, owner, c) {
                    before[c].shrunk(target)
                } else {
                    before[c]
                }) && columns@[c].well_formed(),
            shrank == exists|c: ComponentId| #[trigger]
                before.contains_key(c) && c.0 < i && takes_part(owners@, owner, c) && before[c].shrinks(target),
        decreases limit - i,
    {
        let id = ComponentId(i as u32);
        let ghost here = columns@;
        let ghost so_far = shrank;
        let chosen: bool = match owner {
            Some(o) => match owners.get(id) {
                Some(x) => *x == o,
                None => false,
            },
            None => true,
        };
        proof {
            assert(chosen == takes_part(owners@, owner, id));
            assert(before.dom().contains(id) == here.dom().contains(id));
        }
        if chosen {
            if let Some(column) = columns.get_mut(id) {
                if column.shrink_to_fit(target) {
                    shrank = true;
                }
            }
        }
        i = i + 1;
        proof {
            assert(columns@.dom() =~= before.dom());
            assert forall|c: ComponentId| #[trigger] columns@.contains_key(c) implies columns@[c]@ == (if c.0 < i
                && takes_part(owners@, owner, c) {
                before[c].shrunk(target)
            } else {
                before[c]
            }) && columns@[c].well_formed() by {
                if c != id {
                    assert(here.contains_key(c));
                    assert(c.0 != i - 1);
                }
            }
            if shrank {
                if so_far {
                    let c = choose|c: ComponentId| #[trigger]
                        before.contains_key(c) && c.0 < i - 1 && takes_part(owners@, owner, c)
                            && before[c].shrinks(target);
                    assert(before.contains_key(c) && c.0 < i);
                } else {
                    assert(before.contains_key(id) && id.0 < i);
                }
            } else {
                assert forall|c: ComponentId| #[trigger] before.contains_key(c) && c.0 < i && takes_part(
                    owners@,
                    owner,
                    c,
                ) implies !before[c].shrinks(target) by {
                    if c.0 == i - 1 {
                        assert(c == id);
                    }
                }
            }
        }
    }
    proof {
        assert forall|c: ComponentId| #[trigger] before.contains_key(c) implies column_map(columns@)[c] == (
        if takes_part(owners@, owner, c) {
            before[c].shrunk(target)
        } else {
            before[c]
        }) by {
            assert(c.0 < i);
            assert(before.dom().contains(c));
            assert(columns@.dom().contains(c));
            assert(columns@.contains_key(c));
        }
        if shrank {
            let c = choose|c: ComponentId| #[trigger]
                before.contains_key(c) && c.0 < i && takes_part(owners@, owner, c) && before[c].shrinks(target);
            assert(before.contains_key(c) && takes_part(owners@, owner, c) && before[c].shrinks(target));
        }
    }
    shrank
}

} // verus!
