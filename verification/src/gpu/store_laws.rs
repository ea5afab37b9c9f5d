//! What growing, cutting, flushing and asking for columns comes to, column by column.

use vstd::prelude::*;
use crate::component::ComponentId;
use crate::entity::Entity;
use crate::gpu::column::{ColumnModel, TypeToken};
use crate::gpu::component_rows::{usable_prefix, RowsModel};
use crate::gpu::device::{zero_row, CommandModel, SyncStats};
use crate::gpu::dirty_tracked_scene_buffer::grown_rows;
use crate::gpu::dynamic_buffer::{growth, lemma_doubled, greatest, BufferModel, CapacityError};
use crate::gpu::partner::{GpuBufferResidency, PartnerError};
use crate::gpu::row_flags::flagged;
use crate::gpu::scene_store::SceneModel;
use crate::gpu::scene_store::cells::with_builtins;
use crate::gpu::world_column::{all_ids, map_stats, BufferKind, WorldColumnModel};
use crate::gpu::world_mirror::{component_reserved, component_shrunk, mirror_reserved, mirror_shrunk, MirrorModel};

verus! {

/// Whether a buffer has so many rows, or may grow to them.
pub open spec fn has_or_may(b: BufferModel, n: u32, max_buffer_size: u64) -> bool {
    n <= b.capacity || n <= b.limit(max_buffer_size)
}

proof fn lemma_growth_bounds(b: BufferModel, n: u32, max_buffer_size: u64)
    ensures
        growth(b, n, max_buffer_size).1 is Ok <==> has_or_may(b, n, max_buffer_size),
        growth(b, n, max_buffer_size).1 is Ok ==> growth(b, n, max_buffer_size).0.capacity >= n,
        growth(b, n, max_buffer_size).0.capacity >= b.capacity,
        growth(b, n, max_buffer_size).1 matches Err(e) ==> e.requested == n && e.max == b.limit(max_buffer_size),
        n > b.capacity && has_or_may(b, n, max_buffer_size) ==> growth(b, n, max_buffer_size).0.epoch != b.epoch,
{
    lemma_doubled(greatest(b.capacity as nat, 1), n as nat);
}

/// Growing a column gives it the rows asked for. A column that has them is left alone;
/// one that has not tells the device so with one command. No contents are lost.
pub proof fn lemma_reserved_column(c: WorldColumnModel, n: u32, max_buffer_size: u64)
    requires
        c.well_formed(),
        has_or_may(c.buffer(), n, max_buffer_size),
    ensures
        ({
            let after = c.reserved(n, max_buffer_size);
            &&& after.buffer().capacity >= n
            &&& after.buffer().capacity >= c.buffer().capacity
            &&& after.buffer().stride == c.buffer().stride
            &&& n <= c.buffer().capacity ==> after.buffer() == c.buffer() && after.commands == c.commands
            &&& n > c.buffer().capacity ==> {
                &&& after.commands.len() == c.commands.len() + 1
                &&& after.commands.drop_last() == c.commands
                &&& (after.commands.last() matches CommandModel::Reallocate { capacity, keep } && capacity
                    == after.buffer().capacity && keep <= c.buffer().capacity)
            }
            &&& match (c.kind, after.kind) {
                (BufferKind::Growable(_), BufferKind::Growable(_)) => true,
                (BufferKind::Shadowed(t), BufferKind::Shadowed(u)) => n <= u.shadow.len() && t.shadow.len()
                    <= u.shadow.len() && u.shadow.take(t.shadow.len() as int) == t.shadow,
                (BufferKind::Once(o), BufferKind::Once(p)) => p.pending == o.pending,
                (BufferKind::Presence(p), BufferKind::Presence(q)) => p.column.shadow.len() <= q.column.shadow.len()
                    && q.column.shadow.take(p.column.shadow.len() as int) == p.column.shadow && (forall|row: u32|
                    #[trigger] flagged(q.present, row) == flagged(p.present, row)),
                _ => false,
            }
        }),
{
    lemma_growth_bounds(c.buffer(), n, max_buffer_size);
    let after = c.reserved(n, max_buffer_size);
    if n > c.buffer().capacity {
        assert(after.commands.drop_last() =~= c.commands);
    } else {
        assert(after.commands =~= c.commands);
    }
}

/// Cutting a column takes no row below the target. Its device buffer shrinks to the
/// target or stays, and the device is told when it shrinks.
pub proof fn lemma_shrunk_column(c: WorldColumnModel, target: u32)
    requires
        c.well_formed(),
    ensures
        ({
            let after = c.shrunk(target);
            &&& c.shrinks(target) <==> after.buffer().capacity < c.buffer().capacity
            &&& c.shrinks(target) ==> {
                &&& after.buffer().capacity == target
                &&& after.commands.len() == c.commands.len() + 1
                &&& after.commands.drop_last() == c.commands
                &&& (after.commands.last() matches CommandModel::Reallocate { capacity, keep } && capacity == target
                    && keep <= target)
            }
            &&& !c.shrinks(target) ==> after.buffer() == c.buffer() && after.commands == c.commands
            &&& after.buffer().stride == c.buffer().stride
            &&& match (c.kind, after.kind) {
                (BufferKind::Growable(_), BufferKind::Growable(_)) => c.shrinks(target) <==> target
                    < c.buffer().capacity,
                (BufferKind::Shadowed(t), BufferKind::Shadowed(u)) => u.shadow.len() <= t.shadow.len() && (
                target < t.shadow.len() ==> u.shadow.len() == target) && (target >= t.shadow.len() ==> u == t)
                    && u.shadow == t.shadow.take(u.shadow.len() as int),
                (BufferKind::Once(o), BufferKind::Once(p)) => p.pending == o.pending && (c.shrinks(target) <==> target
                    < c.buffer().capacity),
                (BufferKind::Presence(p), BufferKind::Presence(q)) => (forall|row: u32|
                    #[trigger] flagged(q.present, row) <==> flagged(p.present, row) && row < target),
                _ => false,
            }
        }),
{
    let after = c.shrunk(target);
    if c.shrinks(target) {
        assert(after.commands.drop_last() =~= c.commands);
    }
    match c.kind {
        BufferKind::Presence(p) => {
            if target >= p.present.len() {
                assert forall|row: u32| flagged(p.present, row) implies row < target by {}
            }
        },
        _ => {},
    }
}

/// Growing a whole mirror succeeds exactly when every buffer of it has the rows or may
/// grow to them, and then every buffer has them. No buffer ever loses rows, no entity
/// its row, and the error names the rows asked for.
pub proof fn lemma_mirror_reserved(m: MirrorModel, f: MirrorModel, n: u32, out: Result<(), CapacityError>)
    requires
        m.well_formed(),
        mirror_reserved(m, f, n, out),
    ensures
        ({
            let max = m.store.max_buffer_size;
            &&& out is Ok <==> {
                &&& has_or_may(m.generations.column.buffer, n, max)
                &&& forall|c: ComponentId| #[trigger]
                    m.store.columns.contains_key(c) ==> has_or_may(m.store.columns[c].buffer(), n, max)
                &&& forall|c: ComponentId| #[trigger]
                    m.store.presence.contains_key(c) ==> has_or_may(m.store.presence[c].buffer(), n, max)
            }
            &&& out is Ok ==> {
                &&& f.generations.column.buffer.capacity >= n
                &&& forall|c: ComponentId| #[trigger]
                    m.store.columns.contains_key(c) ==> f.store.columns[c].buffer().capacity >= n
                &&& forall|c: ComponentId| #[trigger]
                    m.store.presence.contains_key(c) ==> f.store.presence[c].buffer().capacity >= n
            }
            &&& out matches Err(e) ==> e.requested == n
            &&& f.rows == m.rows
            &&& f.store.columns.dom() == m.store.columns.dom()
            &&& f.store.presence.dom() == m.store.presence.dom()
            &&& forall|c: ComponentId| #[trigger]
                m.store.columns.contains_key(c) ==> f.store.columns[c].buffer().capacity
                    >= m.store.columns[c].buffer().capacity
            &&& forall|c: ComponentId| #[trigger]
                m.store.presence.contains_key(c) ==> f.store.presence[c].buffer().capacity
                    >= m.store.presence[c].buffer().capacity
        }),
{
    let max = m.store.max_buffer_size;
    lemma_growth_bounds(m.generations.column.buffer, n, max);
    assert forall|c: ComponentId| #[trigger] m.store.columns.contains_key(c) implies {
        let b = m.store.columns[c].buffer();
        &&& growth(b, n, max).1 is Ok <==> has_or_may(b, n, max)
        &&& growth(b, n, max).1 matches Err(e) ==> e.requested == n
        &&& has_or_may(b, n, max) ==> m.store.columns[c].reserved(n, max).buffer().capacity >= n
        &&& has_or_may(b, n, max) ==> m.store.columns[c].reserved(n, max).buffer().capacity >= b.capacity
    } by {
        lemma_growth_bounds(m.store.columns[c].buffer(), n, max);
        if has_or_may(m.store.columns[c].buffer(), n, max) {
            lemma_reserved_column(m.store.columns[c], n, max);
        }
    }
    assert forall|c: ComponentId| #[trigger] m.store.presence.contains_key(c) implies {
        let b = m.store.presence[c].buffer();
        &&& growth(b, n, max).1 is Ok <==> has_or_may(b, n, max)
        &&& growth(b, n, max).1 matches Err(e) ==> e.requested == n
        &&& has_or_may(b, n, max) ==> m.store.presence[c].reserved(n, max).buffer().capacity >= n
        &&& has_or_may(b, n, max) ==> m.store.presence[c].reserved(n, max).buffer().capacity >= b.capacity
    } by {
        lemma_growth_bounds(m.store.presence[c].buffer(), n, max);
        if has_or_may(m.store.presence[c].buffer(), n, max) {
            lemma_reserved_column(m.store.presence[c], n, max);
        }
    }
}

/// Growing the columns of one component type succeeds exactly when each of them, and its
/// presence column, has the rows or may grow to them. Columns of other types are left alone.
pub proof fn lemma_component_reserved(
    m: MirrorModel,
    f: MirrorModel,
    cid: ComponentId,
    n: u32,
    out: Result<(), CapacityError>,
)
    requires
        m.well_formed(),
        component_reserved(m, f, cid, n, out),
    ensures
        ({
            let max = m.store.max_buffer_size;
            let owners = m.store.partners.world_owners;
            let own = |c: ComponentId| owners.contains_key(c) && owners[c] == cid;
            &&& out is Ok <==> {
                &&& forall|c: ComponentId| #[trigger]
                    m.store.columns.contains_key(c) && own(c) ==> has_or_may(m.store.columns[c].buffer(), n, max)
                &&& m.store.presence.contains_key(cid) ==> has_or_may(m.store.presence[cid].buffer(), n, max)
            }
            &&& out is Ok ==> {
                &&& forall|c: ComponentId| #[trigger]
                    m.store.columns.contains_key(c) && own(c) ==> f.store.columns[c].buffer().capacity >= n
                &&& m.store.presence.contains_key(cid) ==> f.store.presence[cid].buffer().capacity >= n
            }
            &&& out matches Err(e) ==> e.requested == n
            &&& forall|c: ComponentId| #[trigger]
                m.store.columns.contains_key(c) && !own(c) ==> f.store.columns[c] == m.store.columns[c]
            &&& forall|c: ComponentId| #[trigger]
                m.store.presence.contains_key(c) && c != cid ==> f.store.presence[c] == m.store.presence[c]
            &&& f.rows == m.rows
            &&& f.generations == m.generations
        }),
{
    let max = m.store.max_buffer_size;
    assert forall|c: ComponentId| #[trigger] m.store.columns.contains_key(c) implies {
        let b = m.store.columns[c].buffer();
        &&& growth(b, n, max).1 is Ok <==> has_or_may(b, n, max)
        &&& growth(b, n, max).1 matches Err(e) ==> e.requested == n
        &&& has_or_may(b, n, max) ==> m.store.columns[c].reserved(n, max).buffer().capacity >= n
    } by {
        lemma_growth_bounds(m.store.columns[c].buffer(), n, max);
        if has_or_may(m.store.columns[c].buffer(), n, max) {
            lemma_reserved_column(m.store.columns[c], n, max);
        }
    }
    if m.store.presence.contains_key(cid) {
        lemma_growth_bounds(m.store.presence[cid].buffer(), n, max);
        if has_or_may(m.store.presence[cid].buffer(), n, max) {
            lemma_reserved_column(m.store.presence[cid], n, max);
        }
    }
}

/// Cutting a whole mirror leaves no device buffer larger than it was, and none that
/// shrinks other than at the target. No entity loses its row.
pub proof fn lemma_mirror_shrunk(m: MirrorModel, f: MirrorModel, target: u32, c: ComponentId)
    requires
        m.well_formed(),
        mirror_shrunk(m, f, target),
    ensures
        f.rows == m.rows,
        f.store.columns.dom() == m.store.columns.dom(),
        f.store.presence.dom() == m.store.presence.dom(),
        m.store.columns.contains_key(c) ==> {
            let (before, after) = (m.store.columns[c].buffer().capacity, f.store.columns[c].buffer().capacity);
            after == before || after == target < before
        },
        m.store.columns.contains_key(c) && !(m.store.columns[c].kind is Shadowed) ==> f.store.columns[c].buffer().capacity
            <= target || f.store.columns[c].buffer().capacity == m.store.columns[c].buffer().capacity <= target,
        m.store.presence.contains_key(c) ==> {
            let (before, after) = (m.store.presence[c].buffer().capacity, f.store.presence[c].buffer().capacity);
            after == before || after == target < before
        },
        forall|row: u32| #[trigger]
            flagged(f.generations.mirrored, row) <==> flagged(m.generations.mirrored, row) && row < target,
        forall|i: int|
            0 <= i < m.generations.column.shadow.len() && i < target ==> #[trigger] f.generations.column.shadow[i]
                == m.generations.column.shadow[i],
{
    if m.store.columns.contains_key(c) {
        lemma_shrunk_column(m.store.columns[c], target);
    }
    if m.store.presence.contains_key(c) {
        lemma_shrunk_column(m.store.presence[c], target);
    }
}

/// Cutting the columns of one component type tells whether a device buffer shrank, and
/// leaves the columns of other types alone.
pub proof fn lemma_component_shrunk(m: MirrorModel, f: MirrorModel, cid: ComponentId, target: u32, shrank: bool)
    requires
        m.well_formed(),
        component_shrunk(m, f, cid, target, shrank),
    ensures
        shrank <==> (exists|c: ComponentId| #[trigger]
            m.store.columns.contains_key(c) && f.store.columns[c].buffer().capacity
                < m.store.columns[c].buffer().capacity) || (m.store.presence.contains_key(cid)
            && f.store.presence[cid].buffer().capacity < m.store.presence[cid].buffer().capacity),
        forall|c: ComponentId| #[trigger]
            m.store.columns.contains_key(c) && !(m.store.partners.world_owners.contains_key(c)
                && m.store.partners.world_owners[c] == cid) ==> f.store.columns[c] == m.store.columns[c],
        forall|c: ComponentId| #[trigger]
            m.store.presence.contains_key(c) && c != cid ==> f.store.presence[c] == m.store.presence[c],
        f.rows == m.rows,
        f.generations == m.generations,
{
    assert forall|c: ComponentId| #[trigger] m.store.columns.contains_key(c) implies (m.store.columns[c].shrinks(target)
        <==> m.store.columns[c].shrunk(target).buffer().capacity < m.store.columns[c].buffer().capacity) by {
        lemma_shrunk_column(m.store.columns[c], target);
    }
    if m.store.presence.contains_key(cid) {
        lemma_shrunk_column(m.store.presence[cid], target);
    }
}

/// No entity has a row of a component type past the last, and some entity has the last.
pub proof fn lemma_last_row(m: MirrorModel, cid: ComponentId)
    requires
        m.well_formed(),
    ensures
        forall|e: Entity| #[trigger] m.rows[cid].rows.contains_key(e) ==> m.rows[cid].rows[e] <= m.last_row(cid),
        m.rows[cid].rows.dom().len() > 0 ==> exists|e: Entity| #[trigger]
            m.rows[cid].rows.contains_key(e) && m.rows[cid].rows[e] == m.last_row(cid),
        m.rows[cid].rows.dom().len() == 0 ==> m.last_row(cid) == 0,
{
    assert(m.rows.contains_key(cid));
    let r = m.rows[cid];
    assert(r.well_formed());
    if r.rows.dom().len() > 0 {
        let e = r.rows.dom().choose();
        assert(r.rows.contains_key(e));
        assert(r.occupied[r.occupied.len() - 1]);
    } else if r.occupied.len() > 0 {
        assert(r.occupied[r.occupied.len() - 1]);
        let e = choose|e: Entity| #[trigger] r.rows.contains_key(e) && r.rows[e] == r.occupied.len() - 1;
        assert(r.rows.dom().contains(e));
        assert(false);
    }
}

proof fn lemma_wrapped_exchange(a: int, x: int, y: int, m: int)
    requires
        m > 0,
    ensures
        ((a + x) % m + y) % m == ((a + y) % m + x) % m,
{
    vstd::arithmetic::div_mod::lemma_add_mod_noop_right(y, a + x, m);
    vstd::arithmetic::div_mod::lemma_add_mod_noop_right(x, a + y, m);
    assert(y + (a + x) == x + (a + y));
    assert((a + x) % m + y == y + (a + x) % m);
    assert((a + y) % m + x == x + (a + y) % m);
}

proof fn lemma_sum_exchange(a: SyncStats, x: SyncStats, y: SyncStats)
    ensures
        SyncStats::sum(SyncStats::sum(a, x), y) == SyncStats::sum(SyncStats::sum(a, y), x),
{
    lemma_wrapped_exchange(a.ranges as int, x.ranges as int, y.ranges as int, 0x1_0000_0000);
    lemma_wrapped_exchange(a.bytes as int, x.bytes as int, y.bytes as int, 0x1_0000_0000_0000_0000);
    assert(0 <= (a.ranges + x.ranges) % 0x1_0000_0000 < 0x1_0000_0000);
    assert(0 <= (a.ranges + y.ranges) % 0x1_0000_0000 < 0x1_0000_0000);
    assert(0 <= (a.bytes + x.bytes) % 0x1_0000_0000_0000_0000 < 0x1_0000_0000_0000_0000);
    assert(0 <= (a.bytes + y.bytes) % 0x1_0000_0000_0000_0000 < 0x1_0000_0000_0000_0000);
}

/// Two stores that differ in one column move the same but for that column.
pub proof fn lemma_flushed_columns_add_up(
    m: Map<ComponentId, WorldColumnModel>,
    c: ComponentId,
    column: WorldColumnModel,
    n: int,
    max_buffer_size: u64,
)
    requires
        !m.contains_key(c),
        0 <= n <= all_ids(),
    ensures
        c.0 < n ==> map_stats(m.insert(c, column), n, max_buffer_size) == SyncStats::sum(
            map_stats(m, n, max_buffer_size),
            column.flush_stats(max_buffer_size),
        ),
        c.0 >= n ==> map_stats(m.insert(c, column), n, max_buffer_size) == map_stats(m, n, max_buffer_size),
        map_stats(Map::empty(), n, max_buffer_size) == (SyncStats { ranges: 0, bytes: 0 }),
    decreases n,
{
    if n > 0 {
        lemma_flushed_columns_add_up(m, c, column, n - 1, max_buffer_size);
        let id = ComponentId((n - 1) as u32);
        let more = m.insert(c, column);
        let a = map_stats(m, n - 1, max_buffer_size);
        let x = column.flush_stats(max_buffer_size);
        let y = m[id].flush_stats(max_buffer_size);
        if c.0 == n - 1 {
            assert(id == c);
            assert(more[id] == column);
        } else {
            assert(id != c);
            assert(more.contains_key(id) == m.contains_key(id));
            assert(more[id] == m[id]);
            lemma_sum_exchange(a, x, y);
        }
    }
}

/// A column that is asked for is there: the one that was there already, as it was, or the
/// fresh one. Its domain is known from then on. No other column changes.
pub proof fn lemma_column_asked_for(
    m: SceneModel,
    field: ComponentId,
    r: GpuBufferResidency,
    fresh: BufferKind,
    other: ComponentId,
)
    ensures
        ({
            let after = m.with_world_column(field, r, fresh);
            let c = m.partners.resolve(field);
            &&& after.columns.contains_key(c)
            &&& m.columns.contains_key(c) ==> after.columns == m.columns
            &&& !m.columns.contains_key(c) ==> after.columns[c].kind == fresh && after.columns[c].commands.len() == 0
            &&& other != c ==> (after.columns.contains_key(other) <==> m.columns.contains_key(other))
            &&& other != c && m.columns.contains_key(other) ==> after.columns[other] == m.columns[other]
            &&& !after.taken(field, r)
            &&& forall|q: GpuBufferResidency| q != r ==> #[trigger] after.taken(field, q)
            &&& other != c && m.partners.residencies.contains_key(other) ==> after.partners.residencies.contains_key(other)
                && after.partners.residencies[other] == m.partners.residencies[other]
            &&& after.presence == m.presence
            &&& after.cells == m.cells
            &&& after.mirrors == m.mirrors
        }),
{
}

/// A field is free for every domain until one has its column, and then for that one only.
pub proof fn lemma_when_columns_are_taken(m: SceneModel, field: ComponentId, r: GpuBufferResidency)
    ensures
        !m.partners.residencies.contains_key(m.partners.resolve(field)) ==> !m.taken(field, r),
        m.partners.residencies.contains_key(m.partners.resolve(field)) ==> (m.taken(field, r) <==> r
            != m.partners.residencies[m.partners.resolve(field)]),
        m.taken(field, r) ==> !m.claimed(field, r).taken(field, r),
{
}

/// A list of fields that is accepted is accepted one by one; one that is refused has a
/// first field that is, with that field's error, and those before it are registered.
pub proof fn lemma_fields_are_taken_in_order(m: SceneModel, descs: Seq<ColumnModel>, i: int)
    requires
        0 <= i < descs.len(),
    ensures
        m.described(descs).1 is Ok ==> m.described(descs.take(i)).1 is Ok && m.described(descs.take(i)).0.refusal(
            descs[i],
        ) is None,
        m.described(descs).1 is Ok ==> m.described(descs.take(i + 1)).0.partners == m.described(
            descs.take(i),
        ).0.partners.registered(descs[i]),
        m.described(descs.take(i)).1 is Ok && m.described(descs.take(i)).0.refusal(descs[i]) is Some ==> {
            &&& m.described(descs).1 == Err::<(), PartnerError>(m.described(descs.take(i)).0.refusal(descs[i]).unwrap())
            &&& m.described(descs).0 == m.described(descs.take(i)).0
        },
        m.described(descs).0 == (SceneModel { partners: m.described(descs).0.partners, ..m }),
        m.described(descs.take(0)) == (m, Ok::<(), PartnerError>(())),
    decreases descs.len(),
{
    let init = descs.drop_last();
    assert(descs.take(0) =~= Seq::empty());
    if i < descs.len() - 1 {
        lemma_fields_are_taken_in_order(m, init, i);
        assert(init.take(i) =~= descs.take(i));
        assert(init.take(i + 1) =~= descs.take(i + 1));
    } else {
        assert(descs.take(i) =~= init);
        assert(descs.take(i + 1) =~= descs);
        if init.len() > 0 {
            lemma_fields_are_taken_in_order(m, init, 0);
        }
    }
}

/// A field that would have to share a column is refused when it has one of its own.
pub proof fn lemma_when_sharing_is_too_late(m: SceneModel, d: ColumnModel)
    ensures
        ({
            let id = d.field_token.type_id;
            let shares = d.buffer_key is Some && m.partners.named.contains_key(d.buffer_key.unwrap())
                && m.partners.named[d.buffer_key.unwrap()] != id;
            let has_own = m.cells.fixed.contains_key(id) || m.columns.contains_key(id);
            &&& shares && has_own ==> m.refusal(d) == Some(PartnerError::Allocated)
            &&& !shares || !has_own ==> m.refusal(d) == m.partners.refusal(d)
        }),
{
}

/// A component that is made present in a row is, and one that is made absent is not. Other
/// rows and other component types are as before, and saying what is so already changes
/// nothing.
pub proof fn lemma_presence_is_told(m: SceneModel, owner: ComponentId, row: u32, other: ComponentId, r: u32)
    requires
        m.presence.contains_key(owner),
        m.presence[owner].kind is Presence,
    ensures
        m.made_present(owner, row).is_present(owner, row),
        !m.made_absent(owner, row).is_present(owner, row),
        other != owner || r != row ==> m.made_present(owner, row).is_present(other, r) == m.is_present(other, r),
        other != owner || r != row ==> m.made_absent(owner, row).is_present(other, r) == m.is_present(other, r),
        m.is_present(owner, row) ==> m.made_present(owner, row) == m,
        !m.is_present(owner, row) ==> m.made_absent(owner, row) == m,
        m.made_present(owner, row).columns == m.columns,
        m.made_absent(owner, row).columns == m.columns,
        m.made_present(owner, row).presence[owner].commands == m.presence[owner].commands,
        m.made_absent(owner, row).presence[owner].commands == m.presence[owner].commands,
{
    match m.presence[owner].kind {
        BufferKind::Presence(p) => {
            if flagged(p.present, row) {
                assert(crate::gpu::row_flags::with_flag(p.present, row) =~= p.present);
                assert(m.made_present(owner, row).presence =~= m.presence);
            } else {
                assert(crate::gpu::row_flags::without_flag(p.present, row) =~= p.present);
                assert(m.made_absent(owner, row).presence =~= m.presence);
            }
        },
        _ => {},
    }
}

/// A store with the built-in columns has both, empty and of fixed capacity, in rows of the
/// sizes of their types. Columns of other types are left alone.
pub proof fn lemma_builtin_columns(
    m: SceneModel,
    transform: TypeToken,
    instance_info: TypeToken,
    rows: u32,
    other: ComponentId,
)
    requires
        transform.type_id != instance_info.type_id,
        other != transform.type_id,
        other != instance_info.type_id,
    ensures
        ({
            let after = with_builtins(m, transform, instance_info, rows);
            let fixed = after.cells.fixed;
            let homes = after.partners.residencies;
            &&& fixed.contains_key(transform.type_id) && fixed.contains_key(instance_info.type_id)
            &&& fixed[transform.type_id].stride == transform.layout.size
            &&& fixed[instance_info.type_id].stride == instance_info.layout.size
            &&& fixed[transform.type_id].capacity == rows && fixed[instance_info.type_id].capacity == rows
            &&& fixed[transform.type_id].commands.len() == 0 && fixed[instance_info.type_id].commands.len() == 0
            &&& homes.contains_key(transform.type_id) && homes[transform.type_id] == GpuBufferResidency::FixedCell
            &&& homes.contains_key(instance_info.type_id) && homes[instance_info.type_id]
                == GpuBufferResidency::FixedCell
            &&& fixed.contains_key(other) <==> m.cells.fixed.contains_key(other)
            &&& m.cells.fixed.contains_key(other) ==> fixed[other] == m.cells.fixed[other]
            &&& homes.contains_key(other) <==> m.partners.residencies.contains_key(other)
            &&& m.partners.residencies.contains_key(other) ==> homes[other] == m.partners.residencies[other]
            &&& after.columns == m.columns
            &&& after.presence == m.presence
        }),
{
}

/// Taking a row uses up the free entries behind it: where no free row is left the list is
/// empty, and otherwise it loses the entry of the row and those that were skipped.
pub proof fn lemma_free_entries_used(m: RowsModel, e: Entity)
    requires
        m.well_formed(),
        m.occupied.len() < u32::MAX,
        !m.rows.contains_key(e),
    ensures
        !m.occupied.contains(false) ==> m.acquired(e).free.len() == 0 && m.acquired(e).rows[e] == m.occupied.len(),
        m.occupied.contains(false) ==> {
            let k = m.acquired(e).free.len() as int;
            &&& k < m.free.len()
            &&& m.acquired(e).free == m.free.take(k)
            &&& m.free[k] == m.acquired(e).rows[e]
            &&& m.free[k] < m.occupied.len() && !m.occupied[m.free[k] as int]
            &&& forall|i: int|
                k < i < m.free.len() ==> (#[trigger] m.free[i]) >= m.occupied.len() || m.occupied[m.free[i] as int]
        },
{
    lemma_usable_entry(m.occupied, m.free);
    if m.occupied.contains(false) {
        let r = m.occupied.index_of(false);
        assert(!m.occupied[r]);
        assert(m.free.contains(r as u32));
        let i = m.free.index_of(r as u32);
        assert(m.free[i] == r as u32);
    } else {
        let n = usable_prefix(m.occupied, m.free) as int;
        if n > 0 {
            assert(m.occupied[m.free[n - 1] as int] == false);
            assert(m.occupied.contains(false));
        }
    }
}

proof fn lemma_usable_entry(occupied: Seq<bool>, free: Seq<u32>)
    ensures
        usable_prefix(occupied, free) <= free.len(),
        usable_prefix(occupied, free) > 0 ==> {
            let r = free[usable_prefix(occupied, free) - 1];
            r < occupied.len() && !occupied[r as int]
        },
        forall|i: int|
            usable_prefix(occupied, free) <= i < free.len() ==> (#[trigger] free[i]) >= occupied.len()
                || occupied[free[i] as int],
    decreases free.len(),
{
    if free.len() > 0 && !(free.last() < occupied.len() && !occupied[free.last() as int]) {
        let init = free.drop_last();
        lemma_usable_entry(occupied, init);
        let n = usable_prefix(occupied, free);
        assert forall|i: int| n <= i < free.len() implies (#[trigger] free[i]) >= occupied.len()
            || occupied[free[i] as int] by {
            if i < free.len() - 1 {
                assert(init[i] == free[i]);
            }
        }
    }
}

/// A new shadow has as many rows as asked for, each of zeros.
pub proof fn lemma_new_shadow(n: nat, stride: nat, i: int)
    requires
        0 <= i < n,
    ensures
        grown_rows(Seq::empty(), n, stride).len() == n,
        grown_rows(Seq::empty(), n, stride)[i] == zero_row(stride),
{
}

} // verus!
