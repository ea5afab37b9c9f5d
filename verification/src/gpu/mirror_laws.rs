//! What the device shows of a mirrored world.

use vstd::prelude::*;
use crate::component::ComponentId;
use crate::entity::Entity;
use crate::gpu::column::MirrorMode;
use crate::gpu::device::{lemma_run_concat, lemma_run_one, run, word_row, zero_row, CommandModel};
use crate::gpu::dirty_tracked_scene_buffer::{lemma_flush_uploads_everything, lemma_mark_keeps_mirror, shadow_len_for, TrackedModel};
use crate::gpu::dynamic_buffer::{greatest, growth, lemma_doubled, lemma_growth_preserves, BufferModel, CapacityError};
use crate::gpu::growable_scene_buffer::growing_write;
use crate::gpu::once_scene_buffer::{latest, lemma_flush_hands_over, lemma_settled_covers, OnceModel};
use crate::gpu::row_flags::{flagged, with_flag};
use crate::gpu::scene_store::SceneModel;
use crate::gpu::world_column::{BufferKind, WorldColumnModel};
use crate::gpu::world_mirror::{fields_cleared, fields_mirrored, is_due, lemma_cleared_layout, lemma_field_keeps_layout, lemma_layout_trans, lemma_layout_writable, row_writable, same_layout, value_fits, GpuComponent, MirrorModel};

verus! {

/// Device memory once the commands on a column were executed on `mem`.
pub open spec fn shown(column: WorldColumnModel, mem: Seq<Seq<u8>>) -> Seq<Seq<u8>> {
    run(mem, column.commands, column.buffer().stride as nat)
}

/// `mem` is the device memory of a column on which its commands are still to be
/// executed.
pub open spec fn tracks(column: WorldColumnModel, mem: Seq<Seq<u8>>) -> bool {
    match column.kind {
        BufferKind::Growable(b) => shown(column, mem).len() == b.capacity,
        BufferKind::Shadowed(t) => t.mirrors(shown(column, mem)),
        BufferKind::Once(o) => shown(column, mem).len() == o.buffer.capacity,
        BufferKind::Presence(p) => p.column.mirrors(shown(column, mem)),
    }
}

/// The column of the `i`th mirrored field of a component type.
pub open spec fn field_column(m: SceneModel, cid: ComponentId, i: int) -> ComponentId {
    m.partners.resolve(m.mirrors[cid][i].field_token.type_id)
}

/// The `i`th mirrored field of a component type has a column of the kind of its
/// mode, which it shares with no other field of the type.
pub open spec fn has_own_column(m: SceneModel, cid: ComponentId, i: int) -> bool {
    &&& m.columns.contains_key(field_column(m, cid, i))
    &&& match m.columns[field_column(m, cid, i)].kind {
        BufferKind::Growable(_) => true,
        BufferKind::Shadowed(_) => m.mirrors[cid][i].mode == MirrorMode::DirtyTracked,
        BufferKind::Once(_) => m.mirrors[cid][i].mode == MirrorMode::Once,
        BufferKind::Presence(_) => false,
    }
    &&& forall|j: int|
        0 <= j < m.mirrors[cid].len() && j != i ==> #[trigger] field_column(m, cid, j) != field_column(m, cid, i)
}

pub(crate) proof fn lemma_fields_before<V: GpuComponent>(
    m: SceneModel,
    cid: ComponentId,
    value: V,
    prev: Option<V>,
    row: u32,
    first: bool,
    n: int,
    c: ComponentId,
)
    requires
        0 <= n <= m.mirrors[cid].len(),
        forall|j: int| 0 <= j < n ==> #[trigger] field_column(m, cid, j) != c,
    ensures
        ({
            let after = fields_mirrored(m, cid, value, prev, row, first, n).0;
            &&& after.columns.contains_key(c) == m.columns.contains_key(c)
            &&& after.columns[c] == m.columns[c]
            &&& after.partners == m.partners
            &&& after.max_buffer_size == m.max_buffer_size
            &&& after.presence == m.presence
        }),
    decreases n,
{
    if n > 0 {
        lemma_fields_before(m, cid, value, prev, row, first, n - 1, c);
        assert(field_column(m, cid, n - 1) != c);
    }
}

/// Of several fields that are written, the only one in a column decides it.
pub(crate) proof fn lemma_only_field<V: GpuComponent>(
    m: SceneModel,
    cid: ComponentId,
    value: V,
    prev: Option<V>,
    row: u32,
    first: bool,
    n: int,
    i: int,
)
    requires
        0 <= i < n <= m.mirrors[cid].len(),
        has_own_column(m, cid, i),
        fields_mirrored(m, cid, value, prev, row, first, n).1 is Ok,
    ensures
        ({
            let c = field_column(m, cid, i);
            let d = m.mirrors[cid][i];
            let data = value.gpu_field(cid, d.field_token.type_id);
            let after = fields_mirrored(m, cid, value, prev, row, first, n).0;
            let one = m.field_written(d.field_token.type_id, d.mode, row, data, first);
            &&& after.columns.contains_key(c)
            &&& if is_due(value, prev, cid, d.field_token.type_id, first) {
                after.columns[c] == one.0.columns[c] && one.1 is Ok
            } else {
                after.columns[c] == m.columns[c]
            }
            &&& after.partners == m.partners
            &&& after.max_buffer_size == m.max_buffer_size
            &&& after.presence == m.presence
        }),
    decreases n,
{
    let c = field_column(m, cid, i);
    if n - 1 == i {
        assert forall|j: int| 0 <= j < i implies #[trigger] field_column(m, cid, j) != c by {}
        lemma_fields_before(m, cid, value, prev, row, first, i, c);
    } else {
        lemma_only_field(m, cid, value, prev, row, first, n - 1, i);
        assert(field_column(m, cid, n - 1) != c);
    }
}

pub(crate) proof fn lemma_cleared_before(m: SceneModel, cid: ComponentId, row: u32, n: int, c: ComponentId)
    requires
        0 <= n <= m.mirrors[cid].len(),
        forall|j: int| 0 <= j < n ==> #[trigger] field_column(m, cid, j) != c,
    ensures
        ({
            let after = fields_cleared(m, cid, row, n).0;
            &&& after.columns.contains_key(c) == m.columns.contains_key(c)
            &&& after.columns[c] == m.columns[c]
            &&& after.partners == m.partners
            &&& after.max_buffer_size == m.max_buffer_size
            &&& after.presence == m.presence
        }),
    decreases n,
{
    if n > 0 {
        lemma_cleared_before(m, cid, row, n - 1, c);
        assert(field_column(m, cid, n - 1) != c);
    }
}

pub(crate) proof fn lemma_only_cleared(m: SceneModel, cid: ComponentId, row: u32, n: int, i: int)
    requires
        0 <= i < n <= m.mirrors[cid].len(),
        has_own_column(m, cid, i),
        fields_cleared(m, cid, row, n).1 is Ok,
    ensures
        ({
            let c = field_column(m, cid, i);
            let d = m.mirrors[cid][i];
            let data = zero_row(d.field_token.layout.size as nat);
            let after = fields_cleared(m, cid, row, n).0;
            let one = m.field_written(d.field_token.type_id, d.mode, row, data, true);
            &&& after.columns.contains_key(c)
            &&& after.columns[c] == one.0.columns[c]
            &&& one.1 is Ok
            &&& after.partners == m.partners
            &&& after.max_buffer_size == m.max_buffer_size
            &&& after.presence == m.presence
        }),
    decreases n,
{
    let c = field_column(m, cid, i);
    if n - 1 == i {
        assert forall|j: int| 0 <= j < i implies #[trigger] field_column(m, cid, j) != c by {}
        lemma_cleared_before(m, cid, row, i, c);
    } else {
        lemma_only_cleared(m, cid, row, n - 1, i);
        assert(field_column(m, cid, n - 1) != c);
    }
}

/// A row that was written to a column with a shadow is there after a flush.
proof fn lemma_marked_row_shown(t: TrackedModel, mem: Seq<Seq<u8>>, row: u32, data: Seq<u8>, max_buffer_size: u64)
    requires
        t.well_formed(),
        t.mirrors(mem),
        row < u32::MAX,
        data.len() == t.buffer.stride,
        t.marked(row, data).shadow.len() <= greatest(t.buffer.capacity as nat, t.buffer.limit(max_buffer_size)),
    ensures
        ({
            let now = run(mem, t.marked(row, data).flush_commands(max_buffer_size), t.buffer.stride as nat);
            row < now.len() && now[row as int] == data
        }),
{
    let after = t.marked(row, data);
    lemma_mark_keeps_mirror(t, mem, row, data);
    if row >= t.shadow.len() {
        lemma_doubled(greatest(t.shadow.len(), 1), (row + 1) as nat);
    }
    assert(after.shadow.len() == shadow_len_for(t.shadow.len(), row));
    assert(row < after.shadow.len());
    assert(after.well_formed());
    lemma_flush_uploads_everything(after, mem, max_buffer_size);
    let now = run(mem, after.flush_commands(max_buffer_size), t.buffer.stride as nat);
    assert(now.take(after.shadow.len() as int)[row as int] == now[row as int]);
}

/// A row that was handed over is there after a flush.
proof fn lemma_handed_row_shown(o: OnceModel, mem: Seq<Seq<u8>>, row: u32, data: Seq<u8>, max_buffer_size: u64)
    requires
        o.well_formed(),
        mem.len() == o.buffer.capacity,
        row < u32::MAX,
        data.len() == o.buffer.stride,
        (OnceModel { pending: o.pending.push((row, data)), ..o }).fits(max_buffer_size),
    ensures
        ({
            let after = OnceModel { pending: o.pending.push((row, data)), ..o };
            let now = run(mem, after.flush_commands(max_buffer_size), o.buffer.stride as nat);
            row < now.len() && now[row as int] == data
        }),
{
    let after = OnceModel { pending: o.pending.push((row, data)), ..o };
    assert(after.pending.last() == (row, data));
    assert(latest(after.pending, row) == Some(data));
    lemma_settled_covers(after, row, max_buffer_size);
    lemma_flush_hands_over(after, mem, max_buffer_size, row);
}

/// A row that was written to a growable column is there at once.
proof fn lemma_grown_row_shown(b: BufferModel, mem: Seq<Seq<u8>>, row: u32, data: Seq<u8>, max_buffer_size: u64)
    requires
        mem.len() == b.capacity,
        row < u32::MAX,
        growth(b, (row + 1) as u32, max_buffer_size).1 is Ok,
    ensures
        ({
            let now = run(mem, growing_write(b, row, seq![data], max_buffer_size), b.stride as nat);
            row < now.len() && now[row as int] == data
        }),
{
    let stride = b.stride as nat;
    let grown = growth(b, (row + 1) as u32, max_buffer_size);
    let write = CommandModel::Write { row, data: seq![data] };
    let realloc = CommandModel::Reallocate { capacity: grown.0.capacity, keep: b.capacity };
    if grown.1 == Ok::<bool, CapacityError>(true) {
        lemma_growth_preserves(b, (row + 1) as u32, max_buffer_size, mem);
        assert(growing_write(b, row, seq![data], max_buffer_size) =~= seq![realloc] + seq![write]);
        lemma_run_concat(mem, seq![realloc], seq![write], stride);
        lemma_run_one(mem, realloc, stride);
        lemma_run_one(run(mem, seq![realloc], stride), write, stride);
    } else {
        assert(growing_write(b, row, seq![data], max_buffer_size) =~= seq![write]);
        lemma_run_one(mem, write, stride);
    }
}

/// A field that was written is in its column after a flush.
proof fn lemma_field_shown(
    m: SceneModel,
    field: ComponentId,
    mode: MirrorMode,
    row: u32,
    data: Seq<u8>,
    first: bool,
    mem: Seq<Seq<u8>>,
)
    requires
        m.well_formed(),
        m.columns.contains_key(m.partners.resolve(field)),
        m.writable(field, row, data.len()),
        tracks(m.columns[m.partners.resolve(field)], mem),
        match m.columns[m.partners.resolve(field)].kind {
            BufferKind::Growable(_) => mode == MirrorMode::DirtyTracked || first,
            BufferKind::Shadowed(_) => mode == MirrorMode::DirtyTracked,
            BufferKind::Once(_) => mode == MirrorMode::Once && first,
            BufferKind::Presence(_) => false,
        },
        m.field_written(field, mode, row, data, first).1 is Ok,
        m.field_written(field, mode, row, data, first).0.columns[m.partners.resolve(field)].fits(m.max_buffer_size),
    ensures
        ({
            let c = m.partners.resolve(field);
            let now = shown(
                m.field_written(field, mode, row, data, first).0.columns[c].flushed(m.max_buffer_size),
                mem,
            );
            row < now.len() && now[row as int] == data
        }),
{
    let c = m.partners.resolve(field);
    let before = m.columns[c];
    let after = m.field_written(field, mode, row, data, first).0.columns[c];
    let stride = before.buffer().stride as nat;
    assert(before.well_formed());
    match before.kind {
        BufferKind::Growable(b) => {
            lemma_run_concat(mem, before.commands, growing_write(b, row, seq![data], m.max_buffer_size), stride);
            lemma_grown_row_shown(b, shown(before, mem), row, data, m.max_buffer_size);
        },
        BufferKind::Shadowed(t) => {
            lemma_run_concat(mem, before.commands, t.marked(row, data).flush_commands(m.max_buffer_size), stride);
            lemma_marked_row_shown(t, shown(before, mem), row, data, m.max_buffer_size);
        },
        BufferKind::Once(o) => {
            let handed = OnceModel { pending: o.pending.push((row, data)), ..o };
            lemma_run_concat(mem, before.commands, handed.flush_commands(m.max_buffer_size), stride);
            lemma_handed_row_shown(o, shown(before, mem), row, data, m.max_buffer_size);
        },
        BufferKind::Presence(_) => {},
    }
}

/// The value of a mirrored field is on the device after the component was
/// inserted and the mirror was flushed, in the row of the entity. It is written
/// where it differs from the value that it replaces; a field of the mode `Once`
/// is handed over when the component is new to the mirror.
pub proof fn lemma_inserted_value_is_shown<V: GpuComponent>(
    m: MirrorModel,
    cid: ComponentId,
    e: Entity,
    value: V,
    prev: Option<V>,
    i: int,
    mem: Seq<Seq<u8>>,
)
    requires
        m.well_formed(),
        m.store.mirrors.contains_key(cid),
        m.takes(cid, e, value),
        0 <= i < m.store.mirrors[cid].len(),
        has_own_column(m.store, cid, i),
        m.store.mirrors[cid][i].mode == MirrorMode::DirtyTracked || !m.store.is_present(cid, m.row_for(cid, e)),
        is_due(
            value,
            prev,
            cid,
            m.store.mirrors[cid][i].field_token.type_id,
            !m.store.is_present(cid, m.row_for(cid, e)),
        ),
        tracks(m.store.columns[field_column(m.store, cid, i)], mem),
        m.inserted(cid, e, value, prev).1 is Ok,
        m.inserted(cid, e, value, prev).0.fits(),
    ensures
        ({
            let after = m.inserted(cid, e, value, prev).0;
            let now = shown(after.flushed().store.columns[field_column(m.store, cid, i)], mem);
            let row = m.row_for(cid, e);
            &&& after.rows[cid].rows.contains_key(e)
            &&& after.rows[cid].rows[e] == row
            &&& row < now.len()
            &&& now[row as int] == value.gpu_field(cid, m.store.mirrors[cid][i].field_token.type_id)
        }),
{
    let row = m.row_for(cid, e);
    let first = !m.store.is_present(cid, row);
    let made = m.store.made_present(cid, row);
    let d = m.store.mirrors[cid][i];
    let c = field_column(m.store, cid, i);
    let n = m.store.mirrors[cid].len() as int;
    assert(m.store.presence[cid].kind is Presence);
    assert(made.columns == m.store.columns);
    assert forall|j: int| 0 <= j < made.mirrors[cid].len() && j != i implies #[trigger] field_column(made, cid, j)
        != field_column(made, cid, i) by {
        assert(field_column(m.store, cid, j) != field_column(m.store, cid, i));
    }
    assert(has_own_column(made, cid, i));
    lemma_only_field(made, cid, value, prev, row, first, n, i);
    let after = m.inserted(cid, e, value, prev).0;
    let data = value.gpu_field(cid, d.field_token.type_id);
    assert(m.store.writable(d.field_token.type_id, row, data.len()));
    let one = m.store.field_written(d.field_token.type_id, d.mode, row, data, first);
    assert(one.0.columns[c] == made.field_written(d.field_token.type_id, d.mode, row, data, first).0.columns[c]);
    assert(after.store.columns.contains_key(c));
    assert(after.store.columns[c].fits(m.store.max_buffer_size));
    lemma_field_shown(m.store, d.field_token.type_id, d.mode, row, data, first, mem);
    assert(after.flushed().store.columns[c] == after.store.columns[c].flushed(m.store.max_buffer_size));
}

/// Once a component was removed and the mirror was flushed, the row that the
/// entity had is zero in the column of every mirrored field.
pub proof fn lemma_removed_value_is_cleared(
    m: MirrorModel,
    cid: ComponentId,
    e: Entity,
    i: int,
    mem: Seq<Seq<u8>>,
)
    requires
        m.well_formed(),
        m.store.mirrors.contains_key(cid),
        m.rows[cid].rows.contains_key(e),
        m.clears(cid, e),
        0 <= i < m.store.mirrors[cid].len(),
        has_own_column(m.store, cid, i),
        tracks(m.store.columns[field_column(m.store, cid, i)], mem),
        m.removed(cid, e).1 is Ok,
        m.removed(cid, e).0.fits(),
    ensures
        ({
            let after = m.removed(cid, e).0;
            let now = shown(after.flushed().store.columns[field_column(m.store, cid, i)], mem);
            let row = m.rows[cid].rows[e];
            &&& !after.rows[cid].rows.contains_key(e)
            &&& row < now.len()
            &&& now[row as int] == zero_row(m.store.mirrors[cid][i].field_token.layout.size as nat)
        }),
{
    let row = m.rows[cid].rows[e];
    let made = m.store.made_absent(cid, row);
    let d = m.store.mirrors[cid][i];
    let c = field_column(m.store, cid, i);
    let n = m.store.mirrors[cid].len() as int;
    assert(m.store.presence[cid].kind is Presence);
    assert(made.columns == m.store.columns);
    assert forall|j: int| 0 <= j < made.mirrors[cid].len() && j != i implies #[trigger] field_column(made, cid, j)
        != field_column(made, cid, i) by {
        assert(field_column(m.store, cid, j) != field_column(m.store, cid, i));
    }
    assert(has_own_column(made, cid, i));
    lemma_only_cleared(made, cid, row, n, i);
    let after = m.removed(cid, e).0;
    let data = zero_row(d.field_token.layout.size as nat);
    assert(m.store.writable(d.field_token.type_id, row, data.len()));
    let one = m.store.field_written(d.field_token.type_id, d.mode, row, data, true);
    assert(one.0.columns[c] == made.field_written(d.field_token.type_id, d.mode, row, data, true).0.columns[c]);
    assert(after.store.columns.contains_key(c));
    assert(after.store.columns[c].fits(m.store.max_buffer_size));
    lemma_field_shown(m.store, d.field_token.type_id, d.mode, row, data, true, mem);
    assert(after.flushed().store.columns[c] == after.store.columns[c].flushed(m.store.max_buffer_size));
}

/// The device shows that a component is present after it was inserted and the
/// mirror was flushed.
pub proof fn lemma_inserted_component_is_present<V: GpuComponent>(
    m: MirrorModel,
    cid: ComponentId,
    e: Entity,
    value: V,
    prev: Option<V>,
    mem: Seq<Seq<u8>>,
)
    requires
        m.well_formed(),
        m.store.mirrors.contains_key(cid),
        m.takes(cid, e, value),
        m.row_for(cid, e) < u32::MAX,
        tracks(m.store.presence[cid], mem),
        m.inserted(cid, e, value, prev).0.fits(),
    ensures
        ({
            let after = m.inserted(cid, e, value, prev).0;
            let now = shown(after.flushed().store.presence[cid], mem);
            let row = m.row_for(cid, e);
            row < now.len() && now[row as int] == word_row(1)
        }),
{
    let row = m.row_for(cid, e);
    let made = m.store.made_present(cid, row);
    let after = m.inserted(cid, e, value, prev).0;
    let max = m.store.max_buffer_size;
    lemma_fields_keep_presence(made, cid, value, prev, row, !m.store.is_present(cid, row), m.store.mirrors[cid].len() as int);
    assert(m.store.presence[cid].kind is Presence);
    let before = m.store.presence[cid];
    let p = before.kind->Presence_0;
    assert(before.well_formed());
    let there = shown(before, mem);
    assert(after.store.presence.contains_key(cid));
    assert(after.store.presence[cid] == made.presence[cid]);
    assert(made.presence[cid].fits(max));
    let q = made.presence[cid].kind->Presence_0;
    lemma_run_concat(mem, before.commands, q.column.flush_commands(max), 4);
    if flagged(p.present, row) {
        assert(with_flag(p.present, row) =~= p.present);
        lemma_flush_uploads_everything(p.column, there, max);
        let now = run(there, p.column.flush_commands(max), 4);
        assert(now.take(p.column.shadow.len() as int)[row as int] == now[row as int]);
    } else {
        lemma_marked_row_shown(p.column, there, row, word_row(1), max);
    }
    assert(after.flushed().store.presence[cid] == after.store.presence[cid].flushed(max));
}

/// The device shows that a component is absent after it was removed and the
/// mirror was flushed.
pub proof fn lemma_removed_component_is_absent(m: MirrorModel, cid: ComponentId, e: Entity, mem: Seq<Seq<u8>>)
    requires
        m.well_formed(),
        m.store.mirrors.contains_key(cid),
        m.rows[cid].rows.contains_key(e),
        m.clears(cid, e),
        m.store.is_present(cid, m.rows[cid].rows[e]),
        m.rows[cid].rows[e] < u32::MAX,
        tracks(m.store.presence[cid], mem),
        m.removed(cid, e).0.fits(),
    ensures
        ({
            let after = m.removed(cid, e).0;
            let now = shown(after.flushed().store.presence[cid], mem);
            let row = m.rows[cid].rows[e];
            row < now.len() && now[row as int] == word_row(0)
        }),
{
    let row = m.rows[cid].rows[e];
    let made = m.store.made_absent(cid, row);
    let after = m.removed(cid, e).0;
    let max = m.store.max_buffer_size;
    lemma_clears_keep_presence(made, cid, row, m.store.mirrors[cid].len() as int);
    assert(m.store.presence[cid].kind is Presence);
    let before = m.store.presence[cid];
    let p = before.kind->Presence_0;
    assert(before.well_formed());
    assert(after.store.presence.contains_key(cid));
    assert(after.store.presence[cid] == made.presence[cid]);
    assert(made.presence[cid].fits(max));
    let q = made.presence[cid].kind->Presence_0;
    lemma_run_concat(mem, before.commands, q.column.flush_commands(max), 4);
    lemma_marked_row_shown(p.column, shown(before, mem), row, word_row(0), max);
    assert(after.flushed().store.presence[cid] == after.store.presence[cid].flushed(max));
}

pub(crate) proof fn lemma_fields_keep_presence<V: GpuComponent>(
    m: SceneModel,
    cid: ComponentId,
    value: V,
    prev: Option<V>,
    row: u32,
    first: bool,
    n: int,
)
    ensures
        fields_mirrored(m, cid, value, prev, row, first, n).0.presence == m.presence,
        fields_mirrored(m, cid, value, prev, row, first, n).0.max_buffer_size == m.max_buffer_size,
    decreases n,
{
    if n > 0 {
        lemma_fields_keep_presence(m, cid, value, prev, row, first, n - 1);
    }
}

pub(crate) proof fn lemma_clears_keep_presence(m: SceneModel, cid: ComponentId, row: u32, n: int)
    ensures
        fields_cleared(m, cid, row, n).0.presence == m.presence,
        fields_cleared(m, cid, row, n).0.max_buffer_size == m.max_buffer_size,
    decreases n,
{
    if n > 0 {
        lemma_clears_keep_presence(m, cid, row, n - 1);
    }
}

/// A flush keeps the tie between a column and its device memory.
pub proof fn lemma_flush_keeps_track(column: WorldColumnModel, mem: Seq<Seq<u8>>, max_buffer_size: u64)
    requires
        column.well_formed(),
        column.fits(max_buffer_size),
        tracks(column, mem),
    ensures
        tracks(column.flushed(max_buffer_size), mem),
{
    let stride = column.buffer().stride as nat;
    let now = shown(column, mem);
    match column.kind {
        BufferKind::Growable(_) => {},
        BufferKind::Shadowed(t) => {
            lemma_run_concat(mem, column.commands, t.flush_commands(max_buffer_size), stride);
            lemma_flush_uploads_everything(t, now, max_buffer_size);
        },
        BufferKind::Once(o) => {
            lemma_run_concat(mem, column.commands, o.flush_commands(max_buffer_size), stride);
            if o.settled(max_buffer_size).capacity > 0 {
                lemma_flush_hands_over(o, now, max_buffer_size, 0);
            } else if o.pending.len() > 0 {
                let last = o.pending.last();
                assert(latest(o.pending, last.0) is Some);
                lemma_settled_covers(o, last.0, max_buffer_size);
            }
        },
        BufferKind::Presence(p) => {
            lemma_run_concat(mem, column.commands, p.column.flush_commands(max_buffer_size), stride);
            lemma_flush_uploads_everything(p.column, now, max_buffer_size);
        },
    }
}

/// Writing a field keeps the tie between every column and its device memory.
pub proof fn lemma_field_keeps_track(
    m: SceneModel,
    field: ComponentId,
    mode: MirrorMode,
    row: u32,
    data: Seq<u8>,
    first: bool,
    c: ComponentId,
    mem: Seq<Seq<u8>>,
)
    requires
        m.columns.contains_key(c),
        m.columns[c].well_formed(),
        m.writable(field, row, data.len()),
        tracks(m.columns[c], mem),
    ensures
        m.field_written(field, mode, row, data, first).0.columns.contains_key(c),
        m.field_written(field, mode, row, data, first).0.columns[c].well_formed(),
        tracks(m.field_written(field, mode, row, data, first).0.columns[c], mem),
{
    let before = m.columns[c];
    if c == m.partners.resolve(field) {
        match before.kind {
            BufferKind::Growable(b) => {
                let stride = b.stride as nat;
                let write = growing_write(b, row, seq![data], m.max_buffer_size);
                let there = shown(before, mem);
                lemma_run_concat(mem, before.commands, write, stride);
                lemma_growing_write_len(b, there, row, data, m.max_buffer_size);
            },
            BufferKind::Shadowed(t) => {
                lemma_mark_keeps_mirror(t, shown(before, mem), row, data);
                if row >= t.shadow.len() {
                    lemma_doubled(greatest(t.shadow.len(), 1), (row + 1) as nat);
                }
            },
            _ => {},
        }
    }
}

proof fn lemma_growing_write_len(b: BufferModel, mem: Seq<Seq<u8>>, row: u32, data: Seq<u8>, max_buffer_size: u64)
    requires
        mem.len() == b.capacity,
        row < u32::MAX,
    ensures
        run(mem, growing_write(b, row, seq![data], max_buffer_size), b.stride as nat).len() == growth(
            b,
            (row + 1) as u32,
            max_buffer_size,
        ).0.capacity,
{
    let stride = b.stride as nat;
    let grown = growth(b, (row + 1) as u32, max_buffer_size);
    let write = CommandModel::Write { row, data: seq![data] };
    let realloc = CommandModel::Reallocate { capacity: grown.0.capacity, keep: b.capacity };
    let all = growing_write(b, row, seq![data], max_buffer_size);
    if grown.1 == Ok::<bool, CapacityError>(true) {
        assert(all =~= seq![realloc] + seq![write]);
        lemma_run_concat(mem, seq![realloc], seq![write], stride);
        lemma_run_one(mem, realloc, stride);
        lemma_run_one(run(mem, seq![realloc], stride), write, stride);
    } else if grown.1 is Ok {
        assert(all =~= seq![write]);
        lemma_run_one(mem, write, stride);
    } else {
        assert(all =~= Seq::<CommandModel>::empty());
    }
}

proof fn lemma_fields_keep_track<V: GpuComponent>(
    m: SceneModel,
    cid: ComponentId,
    value: V,
    prev: Option<V>,
    row: u32,
    first: bool,
    n: int,
    c: ComponentId,
    mem: Seq<Seq<u8>>,
)
    requires
        0 <= n <= m.mirrors[cid].len(),
        m.columns.contains_key(c),
        m.columns[c].well_formed(),
        row_writable(m, cid, row),
        value_fits(m, cid, value),
        tracks(m.columns[c], mem),
    ensures
        ({
            let after = fields_mirrored(m, cid, value, prev, row, first, n).0;
            &&& same_layout(m, after)
            &&& after.columns.contains_key(c)
            &&& after.columns[c].well_formed()
            &&& tracks(after.columns[c], mem)
        }),
    decreases n,
{
    if n > 0 {
        lemma_fields_keep_track(m, cid, value, prev, row, first, n - 1, c, mem);
        let before = fields_mirrored(m, cid, value, prev, row, first, n - 1);
        if before.1 is Ok {
            let d = m.mirrors[cid][n - 1];
            let data = value.gpu_field(cid, d.field_token.type_id);
            lemma_layout_writable(m, before.0, d.field_token.type_id, row, data.len());
            lemma_field_keeps_track(before.0, d.field_token.type_id, d.mode, row, data, first, c, mem);
            lemma_field_keeps_layout(before.0, d.field_token.type_id, d.mode, row, data, first);
            lemma_layout_trans(m, before.0, fields_mirrored(m, cid, value, prev, row, first, n).0);
        }
    }
}

proof fn lemma_clears_keep_track(
    m: SceneModel,
    cid: ComponentId,
    row: u32,
    n: int,
    c: ComponentId,
    mem: Seq<Seq<u8>>,
)
    requires
        0 <= n <= m.mirrors[cid].len(),
        m.columns.contains_key(c),
        m.columns[c].well_formed(),
        row_writable(m, cid, row),
        tracks(m.columns[c], mem),
    ensures
        ({
            let after = fields_cleared(m, cid, row, n).0;
            &&& after.columns.contains_key(c)
            &&& after.columns[c].well_formed()
            &&& tracks(after.columns[c], mem)
        }),
    decreases n,
{
    if n > 0 {
        lemma_clears_keep_track(m, cid, row, n - 1, c, mem);
        lemma_cleared_layout(m, cid, row, n - 1);
        let before = fields_cleared(m, cid, row, n - 1);
        if before.1 is Ok {
            let d = m.mirrors[cid][n - 1];
            let data = zero_row(d.field_token.layout.size as nat);
            assert(m.writable(d.field_token.type_id, row, data.len()));
            lemma_layout_writable(m, before.0, d.field_token.type_id, row, data.len());
            lemma_field_keeps_track(before.0, d.field_token.type_id, d.mode, row, data, true, c, mem);
        }
    }
}

/// Inserting a component keeps the tie between every value column and its
/// device memory.
pub proof fn lemma_insert_keeps_track<V: GpuComponent>(
    m: MirrorModel,
    cid: ComponentId,
    e: Entity,
    value: V,
    prev: Option<V>,
    c: ComponentId,
    mem: Seq<Seq<u8>>,
)
    requires
        m.well_formed(),
        m.takes(cid, e, value),
        m.store.columns.contains_key(c),
        tracks(m.store.columns[c], mem),
    ensures
        m.inserted(cid, e, value, prev).0.store.columns.contains_key(c),
        tracks(m.inserted(cid, e, value, prev).0.store.columns[c], mem),
{
    if m.store.mirrors.contains_key(cid) {
        let row = m.row_for(cid, e);
        let made = m.store.made_present(cid, row);
        assert(m.store.columns[c].well_formed());
        assert forall|i: int| 0 <= i < made.mirrors[cid].len() implies made.writable(
            (#[trigger] made.mirrors[cid][i]).field_token.type_id,
            row,
            made.mirrors[cid][i].field_token.layout.size as nat,
        ) by {
            let d = m.store.mirrors[cid][i];
            assert(m.store.writable(d.field_token.type_id, row, d.field_token.layout.size as nat));
        }
        assert(value_fits(made, cid, value));
        lemma_fields_keep_track(
            made,
            cid,
            value,
            prev,
            row,
            !m.store.is_present(cid, row),
            m.store.mirrors[cid].len() as int,
            c,
            mem,
        );
    }
}

/// Removing a component keeps the tie between every value column and its device
/// memory.
pub proof fn lemma_remove_keeps_track(
    m: MirrorModel,
    cid: ComponentId,
    e: Entity,
    c: ComponentId,
    mem: Seq<Seq<u8>>,
)
    requires
        m.well_formed(),
        m.clears(cid, e),
        m.store.columns.contains_key(c),
        tracks(m.store.columns[c], mem),
    ensures
        m.removed(cid, e).0.store.columns.contains_key(c),
        tracks(m.removed(cid, e).0.store.columns[c], mem),
{
    if m.store.mirrors.contains_key(cid) && m.rows[cid].rows.contains_key(e) {
        let row = m.rows[cid].rows[e];
        let made = m.store.made_absent(cid, row);
        assert(m.store.columns[c].well_formed());
        assert forall|i: int| 0 <= i < made.mirrors[cid].len() implies made.writable(
            (#[trigger] made.mirrors[cid][i]).field_token.type_id,
            row,
            made.mirrors[cid][i].field_token.layout.size as nat,
        ) by {
            let d = m.store.mirrors[cid][i];
            assert(m.store.writable(d.field_token.type_id, row, d.field_token.layout.size as nat));
        }
        lemma_clears_keep_track(made, cid, row, m.store.mirrors[cid].len() as int, c, mem);
    }
}

proof fn lemma_no_field_due<V: GpuComponent>(
    m: SceneModel,
    cid: ComponentId,
    value: V,
    prev: V,
    row: u32,
    n: int,
)
    requires
        0 <= n <= m.mirrors[cid].len(),
        forall|i: int|
            0 <= i < m.mirrors[cid].len() ==> value.gpu_field(
                cid,
                (#[trigger] m.mirrors[cid][i]).field_token.type_id,
            ) == prev.gpu_field(cid, m.mirrors[cid][i].field_token.type_id),
    ensures
        fields_mirrored(m, cid, value, Some(prev), row, false, n) == (m, Ok::<(), CapacityError>(())),
    decreases n,
{
    if n > 0 {
        lemma_no_field_due(m, cid, value, prev, row, n - 1);
        assert(value.gpu_field(cid, m.mirrors[cid][n - 1].field_token.type_id) == prev.gpu_field(
            cid,
            m.mirrors[cid][n - 1].field_token.type_id,
        ));
    }
}

/// A value that takes the place of one with the same mirrored fields changes
/// nothing in the store: there is nothing to upload on its account.
pub proof fn lemma_unchanged_insert_is_free<V: GpuComponent>(
    m: MirrorModel,
    cid: ComponentId,
    e: Entity,
    value: V,
    prev: V,
)
    requires
        m.store.mirrors.contains_key(cid),
        m.store.is_present(cid, m.row_for(cid, e)),
        forall|i: int|
            0 <= i < m.store.mirrors[cid].len() ==> value.gpu_field(
                cid,
                (#[trigger] m.store.mirrors[cid][i]).field_token.type_id,
            ) == prev.gpu_field(cid, m.store.mirrors[cid][i].field_token.type_id),
    ensures
        m.inserted(cid, e, value, Some(prev)).0.store == m.store,
        m.inserted(cid, e, value, Some(prev)).1 == Ok::<(), CapacityError>(()),
{
    let row = m.row_for(cid, e);
    let made = m.store.made_present(cid, row);
    if let BufferKind::Presence(p) = m.store.presence[cid].kind {
        assert(with_flag(p.present, row) =~= p.present);
        assert(m.store.presence.insert(cid, m.store.presence[cid]) =~= m.store.presence);
    }
    assert(made == m.store);
    lemma_no_field_due(m.store, cid, value, prev, row, m.store.mirrors[cid].len() as int);
}

} // verus!
