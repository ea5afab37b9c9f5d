//! A mirrored world and its mirror agree.
//!
//! What the operations keep: every row of the mirror stands for a component
//! that the world has, is marked as present, and holds the value that the world
//! has for it in each of its tracked fields; and the generation column holds
//! the generation of every slot whose entity has data on the device.

use vstd::prelude::*;
use crate::component::ComponentId;
use crate::entity::Entity;
use crate::gpu::column::MirrorMode;
use crate::gpu::component_rows::{lemma_acquired, lemma_released, RowsModel};
use crate::gpu::device::{lemma_run_concat, run, word_row, zero_row};
use crate::gpu::dirty_tracked_scene_buffer::{lemma_flush_uploads_everything, shadow_len_for, TrackedModel};
use crate::gpu::dynamic_buffer::{greatest, lemma_doubled};
use crate::gpu::generation_mirror::GenerationModel;
use crate::gpu::mirror_laws::{field_column, has_own_column, lemma_cleared_before, lemma_clears_keep_presence, lemma_fields_before, lemma_fields_keep_presence, lemma_only_cleared, lemma_only_field, shown, tracks};
use crate::gpu::mirrored_world::{all_removed, held, lemma_all_removed_clears};
use crate::gpu::row_flags::flagged;
use crate::gpu::scene_store::SceneModel;
use crate::gpu::world_column::takes_part;
use crate::gpu::world_mirror::{component_shrunk, covering_rows, fields_cleared, fields_mirrored, is_due, GpuComponent, MirrorModel};
use crate::world::World;

verus! {

/// No two mirrored fields share a column.
pub open spec fn columns_apart(m: SceneModel) -> bool {
    forall|a: ComponentId, i: int, b: ComponentId, j: int|
        m.mirrors.contains_key(a) && m.mirrors.contains_key(b) && 0 <= i < m.mirrors[a].len() && 0 <= j
            < m.mirrors[b].len() && #[trigger] field_column(m, a, i) == #[trigger] field_column(m, b, j) ==> a == b && i
            == j
}

/// The `i`th mirrored field of a component type is uploaded on every change.
pub open spec fn is_tracked(m: SceneModel, cid: ComponentId, i: int) -> bool {
    &&& m.mirrors[cid][i].mode == MirrorMode::DirtyTracked
    &&& m.columns.contains_key(field_column(m, cid, i))
    &&& m.columns[field_column(m, cid, i)].kind is Shadowed
}

/// The shadow of a tracked column.
pub open spec fn shadow_of(m: SceneModel, c: ComponentId) -> Seq<Seq<u8>> {
    m.columns[c].kind->Shadowed_0.shadow
}

/// A row is marked as present, and holds `value` in each tracked field.
pub open spec fn row_agrees<V: GpuComponent>(m: SceneModel, cid: ComponentId, row: u32, value: V) -> bool {
    &&& m.is_present(cid, row)
    &&& forall|i: int|
        0 <= i < m.mirrors[cid].len() && #[trigger] is_tracked(m, cid, i) ==> {
            let shadow = shadow_of(m, field_column(m, cid, i));
            row < shadow.len() && shadow[row as int] == value.gpu_field(
                cid,
                m.mirrors[cid][i].field_token.type_id,
            )
        }
}

/// Some entity has the row.
pub open spec fn is_taken(rows: RowsModel, row: u32) -> bool {
    exists|e: Entity| #[trigger] rows.rows.contains_key(e) && rows.rows[e] == row
}

/// Every row of the mirror stands for a component of the world and holds its
/// value, and no other row is marked as present.
pub open spec fn agrees<V: GpuComponent>(world: Map<Entity, Map<ComponentId, V>>, m: MirrorModel) -> bool {
    &&& forall|cid: ComponentId, e: Entity| #[trigger]
        m.rows[cid].rows.contains_key(e) ==> {
            &&& m.store.mirrors.contains_key(cid)
            &&& world.contains_key(e)
            &&& world[e].contains_key(cid)
            &&& row_agrees(m.store, cid, m.rows[cid].rows[e], world[e][cid])
        }
    &&& present_are_taken(m)
}

/// Only rows that an entity has are marked as present.
pub open spec fn present_are_taken(m: MirrorModel) -> bool {
    forall|cid: ComponentId, row: u32| #[trigger] m.store.is_present(cid, row) ==> is_taken(m.rows[cid], row)
}

/// The part of a mirror's invariant that agreement rests on.
pub open spec fn rows_ok(m: MirrorModel) -> bool {
    &&& forall|c: ComponentId| #[trigger] m.rows.contains_key(c)
    &&& forall|c: ComponentId| (#[trigger] m.rows[c]).well_formed()
    &&& forall|c: ComponentId| #[trigger] m.store.presence.contains_key(c) ==> m.store.presence[c].kind is Presence
}

/// A fresh mirror, in which no row is taken or present, agrees with every world.
pub proof fn lemma_fresh_mirror_agrees<V: GpuComponent>(world: Map<Entity, Map<ComponentId, V>>, m: MirrorModel)
    requires
        forall|c: ComponentId, e: Entity| !#[trigger] m.rows[c].rows.contains_key(e),
        forall|c: ComponentId, row: u32| !#[trigger] m.store.is_present(c, row),
    ensures
        agrees(world, m),
{
}

proof fn lemma_marked_shadow(t: TrackedModel, row: u32, data: Seq<u8>)
    requires
        row < u32::MAX,
    ensures
        row < t.marked(row, data).shadow.len(),
        t.shadow.len() <= t.marked(row, data).shadow.len(),
        t.marked(row, data).shadow[row as int] == data,
        forall|r: int| 0 <= r < t.shadow.len() && r != row ==> t.marked(row, data).shadow[r] == t.shadow[r],
{
    if row >= t.shadow.len() {
        lemma_doubled(greatest(t.shadow.len(), 1), (row + 1) as nat);
    }
    assert(t.marked(row, data).shadow.len() == shadow_len_for(t.shadow.len(), row));
}

/// Inserting a component keeps the agreement.
pub proof fn lemma_insert_agrees<V: GpuComponent>(
    world: Map<Entity, Map<ComponentId, V>>,
    m: MirrorModel,
    cid: ComponentId,
    e: Entity,
    value: V,
)
    requires
        rows_ok(m),
        columns_apart(m.store),
        agrees(world, m),
        world.contains_key(e),
        m.takes(cid, e, value),
        m.row_for(cid, e) < u32::MAX,
        m.inserted(cid, e, value, held(world, e, cid)).1 is Ok,
    ensures
        rows_ok(m.inserted(cid, e, value, held(world, e, cid)).0),
        columns_apart(m.inserted(cid, e, value, held(world, e, cid)).0.store),
        agrees(world.insert(e, world[e].insert(cid, value)), m.inserted(cid, e, value, held(world, e, cid)).0),
{
    let prev = held(world, e, cid);
    let after = m.inserted(cid, e, value, held(world, e, cid)).0;
    let next = world.insert(e, world[e].insert(cid, value));
    if m.store.mirrors.contains_key(cid) {
        let row = m.row_for(cid, e);
        let first = !m.store.is_present(cid, row);
        let made = m.store.made_present(cid, row);
        let n = m.store.mirrors[cid].len() as int;
        assert(m.store.presence[cid].kind is Presence);
        lemma_fields_keep_presence(made, cid, value, prev, row, first, n);
        lemma_fields_keep_kinds(made, cid, value, prev, row, first, n);
        if !m.rows[cid].rows.contains_key(e) {
            lemma_acquired(m.rows[cid], e);
        }
        lemma_apart_kept(m.store, after.store);
        assert forall|c2: ComponentId, e2: Entity| #[trigger] after.rows[c2].rows.contains_key(e2) implies {
            &&& after.store.mirrors.contains_key(c2)
            &&& next.contains_key(e2)
            &&& next[e2].contains_key(c2)
            &&& row_agrees(after.store, c2, after.rows[c2].rows[e2], next[e2][c2])
        } by {
            let row2 = after.rows[c2].rows[e2];
            if c2 == cid && e2 == e {
                assert(row2 == row);
                assert(after.store.is_present(cid, row));
            } else {
                assert(m.rows[c2].rows.contains_key(e2));
                assert(row2 == m.rows[c2].rows[e2]);
                assert(c2 == cid ==> row2 != row);
                assert(row_agrees(m.store, c2, row2, world[e2][c2]));
                assert(after.store.is_present(c2, row2));
            }
            let v2 = next[e2][c2];
            assert forall|i: int| 0 <= i < after.store.mirrors[c2].len() && #[trigger] is_tracked(after.store, c2, i) implies {
                let shadow = shadow_of(after.store, field_column(after.store, c2, i));
                row2 < shadow.len() && shadow[row2 as int] == v2.gpu_field(
                    c2,
                    after.store.mirrors[c2][i].field_token.type_id,
                )
            } by {
                let c = field_column(m.store, c2, i);
                assert(field_column(after.store, c2, i) == c);
                assert(field_column(made, c2, i) == c);
                if c2 == cid {
                    lemma_apart_own(made, cid, i, m.store);
                    assert(is_tracked(m.store, cid, i));
                    assert(has_own_column(made, cid, i));
                    lemma_only_field(made, cid, value, prev, row, first, n, i);
                    let t = m.store.columns[c].kind->Shadowed_0;
                    let d = m.store.mirrors[cid][i];
                    lemma_marked_shadow(t, row, value.gpu_field(cid, d.field_token.type_id));
                    if !is_due(value, prev, cid, d.field_token.type_id, first) {
                        assert(is_taken(m.rows[cid], row));
                        let x = choose|x: Entity| #[trigger] m.rows[cid].rows.contains_key(x) && m.rows[cid].rows[x]
                            == row;
                        assert(m.rows[cid].rows.contains_key(e));
                        assert(row_agrees(m.store, cid, row, world[e][cid]));
                    }
                } else {
                    assert forall|j: int| 0 <= j < n implies #[trigger] field_column(made, cid, j) != c by {
                        assert(field_column(m.store, cid, j) != field_column(m.store, c2, i));
                    }
                    lemma_fields_before(made, cid, value, prev, row, first, n, c);
                    assert(is_tracked(m.store, c2, i));
                }
            }
        }
        assert forall|c2: ComponentId, row2: u32| #[trigger] after.store.is_present(c2, row2) implies is_taken(
            after.rows[c2],
            row2,
        ) by {
            if c2 == cid && row2 == row {
                assert(after.rows[cid].rows.contains_key(e) && after.rows[cid].rows[e] == row);
            } else {
                assert(m.store.is_present(c2, row2));
                let x = choose|x: Entity| #[trigger] m.rows[c2].rows.contains_key(x) && m.rows[c2].rows[x] == row2;
                assert(after.rows[c2].rows.contains_key(x) && after.rows[c2].rows[x] == row2);
            }
        }
    }
}

proof fn lemma_apart_kept(a: SceneModel, b: SceneModel)
    requires
        columns_apart(a),
        a.mirrors == b.mirrors,
        a.partners == b.partners,
    ensures
        columns_apart(b),
{
    assert forall|x: ComponentId, i: int, y: ComponentId, j: int|
        b.mirrors.contains_key(x) && b.mirrors.contains_key(y) && 0 <= i < b.mirrors[x].len() && 0 <= j
            < b.mirrors[y].len() && #[trigger] field_column(b, x, i) == #[trigger] field_column(b, y, j) implies x == y
        && i == j by {
        assert(field_column(a, x, i) == field_column(a, y, j));
    }
}

/// The fields, and the kinds of the columns.
spec fn same_kinds(a: SceneModel, b: SceneModel) -> bool {
    &&& a.mirrors == b.mirrors
    &&& a.partners == b.partners
    &&& forall|c: ComponentId| #[trigger] a.columns.contains_key(c) <==> b.columns.contains_key(c)
    &&& forall|c: ComponentId| #[trigger]
        a.columns.contains_key(c) ==> (a.columns[c].kind is Shadowed <==> b.columns[c].kind is Shadowed)
}

proof fn lemma_fields_keep_kinds<V: GpuComponent>(
    m: SceneModel,
    cid: ComponentId,
    value: V,
    prev: Option<V>,
    row: u32,
    first: bool,
    n: int,
)
    ensures
        same_kinds(m, fields_mirrored(m, cid, value, prev, row, first, n).0),
    decreases n,
{
    if n > 0 {
        lemma_fields_keep_kinds(m, cid, value, prev, row, first, n - 1);
    }
}

proof fn lemma_clears_keep_kinds(m: SceneModel, cid: ComponentId, row: u32, n: int)
    ensures
        same_kinds(m, fields_cleared(m, cid, row, n).0),
    decreases n,
{
    if n > 0 {
        lemma_clears_keep_kinds(m, cid, row, n - 1);
    }
}

proof fn lemma_apart_own(m: SceneModel, cid: ComponentId, i: int, whole: SceneModel)
    requires
        columns_apart(whole),
        whole.mirrors.contains_key(cid),
        m.mirrors == whole.mirrors,
        m.partners == whole.partners,
        0 <= i < m.mirrors[cid].len(),
    ensures
        forall|j: int|
            0 <= j < m.mirrors[cid].len() && j != i ==> #[trigger] field_column(m, cid, j) != field_column(m, cid, i),
{
    assert forall|j: int| 0 <= j < m.mirrors[cid].len() && j != i implies #[trigger] field_column(m, cid, j)
        != field_column(m, cid, i) by {
        assert(field_column(whole, cid, j) != field_column(whole, cid, i) || j == i);
    }
}

/// Removing a component keeps the agreement.
pub proof fn lemma_remove_agrees<V: GpuComponent>(
    world: Map<Entity, Map<ComponentId, V>>,
    m: MirrorModel,
    cid: ComponentId,
    e: Entity,
)
    requires
        rows_ok(m),
        columns_apart(m.store),
        agrees(world, m),
        world.contains_key(e),
        m.clears(cid, e),
        m.rows[cid].rows.contains_key(e) ==> m.rows[cid].rows[e] < u32::MAX,
        m.removed(cid, e).1 is Ok,
    ensures
        rows_ok(m.removed(cid, e).0),
        columns_apart(m.removed(cid, e).0.store),
        agrees(world.insert(e, world[e].remove(cid)), m.removed(cid, e).0),
{
    let after = m.removed(cid, e).0;
    let next = world.insert(e, world[e].remove(cid));
    if m.store.mirrors.contains_key(cid) && m.rows[cid].rows.contains_key(e) {
        let row = m.rows[cid].rows[e];
        let made = m.store.made_absent(cid, row);
        let n = m.store.mirrors[cid].len() as int;
        assert(m.store.presence[cid].kind is Presence);
        lemma_clears_keep_presence(made, cid, row, n);
        lemma_clears_keep_kinds(made, cid, row, n);
        lemma_released(m.rows[cid], e);
        lemma_apart_kept(m.store, after.store);
        assert forall|c2: ComponentId, e2: Entity| #[trigger] after.rows[c2].rows.contains_key(e2) implies {
            &&& after.store.mirrors.contains_key(c2)
            &&& next.contains_key(e2)
            &&& next[e2].contains_key(c2)
            &&& row_agrees(after.store, c2, after.rows[c2].rows[e2], next[e2][c2])
        } by {
            let row2 = after.rows[c2].rows[e2];
            assert(m.rows[c2].rows.contains_key(e2));
            assert(row2 == m.rows[c2].rows[e2]);
            assert(c2 == cid ==> row2 != row);
            assert(row_agrees(m.store, c2, row2, world[e2][c2]));
            assert(after.store.is_present(c2, row2));
            let v2 = next[e2][c2];
            assert forall|i: int| 0 <= i < after.store.mirrors[c2].len() && #[trigger] is_tracked(after.store, c2, i) implies {
                let shadow = shadow_of(after.store, field_column(after.store, c2, i));
                row2 < shadow.len() && shadow[row2 as int] == v2.gpu_field(
                    c2,
                    after.store.mirrors[c2][i].field_token.type_id,
                )
            } by {
                let c = field_column(m.store, c2, i);
                assert(field_column(after.store, c2, i) == c);
                assert(field_column(made, c2, i) == c);
                if c2 == cid {
                    lemma_apart_own(made, cid, i, m.store);
                    assert(made.columns.contains_key(c));
                    assert(is_tracked(m.store, cid, i));
                    assert(has_own_column(made, cid, i));
                    lemma_only_cleared(made, cid, row, n, i);
                    let t = m.store.columns[c].kind->Shadowed_0;
                    let d = m.store.mirrors[cid][i];
                    lemma_marked_shadow(t, row, zero_row(d.field_token.layout.size as nat));
                } else {
                    assert forall|j: int| 0 <= j < n implies #[trigger] field_column(made, cid, j) != c by {
                        assert(field_column(m.store, cid, j) != field_column(m.store, c2, i));
                    }
                    lemma_cleared_before(made, cid, row, n, c);
                    assert(is_tracked(m.store, c2, i));
                }
            }
        }
        assert forall|c2: ComponentId, row2: u32| #[trigger] after.store.is_present(c2, row2) implies is_taken(
            after.rows[c2],
            row2,
        ) by {
            assert(m.store.is_present(c2, row2));
            assert(c2 == cid ==> row2 != row);
            let x = choose|x: Entity| #[trigger] m.rows[c2].rows.contains_key(x) && m.rows[c2].rows[x] == row2;
            assert(after.rows[c2].rows.contains_key(x) && after.rows[c2].rows[x] == row2);
        }
    }
}

/// A flush keeps the agreement.
pub proof fn lemma_flush_agrees<V: GpuComponent>(world: Map<Entity, Map<ComponentId, V>>, m: MirrorModel)
    requires
        rows_ok(m),
        columns_apart(m.store),
        agrees(world, m),
    ensures
        rows_ok(m.flushed()),
        columns_apart(m.flushed().store),
        agrees(world, m.flushed()),
{
    let after = m.flushed();
    lemma_apart_kept(m.store, after.store);
    assert forall|cid: ComponentId, e: Entity| #[trigger] after.rows[cid].rows.contains_key(e) implies {
        &&& after.store.mirrors.contains_key(cid)
        &&& world.contains_key(e)
        &&& world[e].contains_key(cid)
        &&& row_agrees(after.store, cid, after.rows[cid].rows[e], world[e][cid])
    } by {
        let row = m.rows[cid].rows[e];
        assert(m.rows[cid].rows.contains_key(e));
        assert(row_agrees(m.store, cid, row, world[e][cid]));
        assert(m.store.presence[cid].kind is Presence);
        assert(after.store.is_present(cid, row));
        assert forall|i: int| 0 <= i < after.store.mirrors[cid].len() && #[trigger] is_tracked(after.store, cid, i) implies {
            let shadow = shadow_of(after.store, field_column(after.store, cid, i));
            row < shadow.len() && shadow[row as int] == world[e][cid].gpu_field(
                cid,
                after.store.mirrors[cid][i].field_token.type_id,
            )
        } by {
            assert(field_column(after.store, cid, i) == field_column(m.store, cid, i));
            assert(is_tracked(m.store, cid, i));
        }
    }
    assert forall|c: ComponentId, row: u32| #[trigger] after.store.is_present(c, row) implies is_taken(
        after.rows[c],
        row,
    ) by {
        assert(m.store.presence[c].kind is Presence);
        assert(m.store.is_present(c, row));
    }
}

/// Where world and mirror agree, the device shows after a flush, in the row of
/// every entity that has one, the value that the world has.
pub proof fn lemma_agreement_is_shown<V: GpuComponent>(
    world: Map<Entity, Map<ComponentId, V>>,
    m: MirrorModel,
    cid: ComponentId,
    e: Entity,
    i: int,
    mem: Seq<Seq<u8>>,
)
    requires
        m.well_formed(),
        m.fits(),
        agrees(world, m),
        m.rows[cid].rows.contains_key(e),
        0 <= i < m.store.mirrors[cid].len(),
        is_tracked(m.store, cid, i),
        tracks(m.store.columns[field_column(m.store, cid, i)], mem),
    ensures
        ({
            let now = shown(m.flushed().store.columns[field_column(m.store, cid, i)], mem);
            let row = m.rows[cid].rows[e];
            &&& row < now.len()
            &&& now[row as int] == world[e][cid].gpu_field(cid, m.store.mirrors[cid][i].field_token.type_id)
        }),
{
    let c = field_column(m.store, cid, i);
    let row = m.rows[cid].rows[e];
    let max = m.store.max_buffer_size;
    let column = m.store.columns[c];
    let t = column.kind->Shadowed_0;
    assert(row_agrees(m.store, cid, row, world[e][cid]));
    assert(column.well_formed());
    assert(column.fits(max));
    lemma_run_concat(mem, column.commands, t.flush_commands(max), t.buffer.stride as nat);
    lemma_flush_uploads_everything(t, shown(column, mem), max);
    let now = run(shown(column, mem), t.flush_commands(max), t.buffer.stride as nat);
    assert(m.flushed().store.columns[c] == column.flushed(max));
    assert(now.take(t.shadow.len() as int)[row as int] == now[row as int]);
}

/// A world without the first `n` component types of `key` of an entity.
pub open spec fn stripped<V>(world: Map<Entity, Map<ComponentId, V>>, e: Entity, key: Seq<ComponentId>, n: int) -> Map<
    Entity,
    Map<ComponentId, V>,
>
    decreases n,
{
    if n <= 0 {
        world
    } else {
        let before = stripped(world, e, key, n - 1);
        before.insert(e, before[e].remove(key[n - 1]))
    }
}

proof fn lemma_stripped<V>(world: Map<Entity, Map<ComponentId, V>>, e: Entity, key: Seq<ComponentId>, n: int)
    requires
        world.contains_key(e),
        0 <= n <= key.len(),
    ensures
        stripped(world, e, key, n).remove(e) == world.remove(e),
        stripped(world, e, key, n).contains_key(e),
        forall|c: ComponentId| #[trigger]
            stripped(world, e, key, n)[e].contains_key(c) ==> world[e].contains_key(c) && !key.take(n).contains(c),
    decreases n,
{
    if n > 0 {
        lemma_stripped(world, e, key, n - 1);
        let before = stripped(world, e, key, n - 1);
        let after = stripped(world, e, key, n);
        assert(after.remove(e) =~= before.remove(e));
        assert forall|c: ComponentId| #[trigger] after[e].contains_key(c) implies world[e].contains_key(c)
            && !key.take(n).contains(c) by {
            assert(before[e].contains_key(c));
            if key.take(n).contains(c) {
                let k = key.take(n).index_of(c);
                assert(key.take(n)[k] == c);
                if k < n - 1 {
                    assert(key.take(n - 1)[k] == c);
                    assert(key.take(n - 1).contains(c));
                }
            }
        }
    } else {
        assert(key.take(0) =~= Seq::<ComponentId>::empty());
    }
}

proof fn lemma_strip_agrees<V: GpuComponent>(
    world: Map<Entity, Map<ComponentId, V>>,
    m: MirrorModel,
    e: Entity,
    key: Seq<ComponentId>,
    n: int,
)
    requires
        rows_ok(m),
        columns_apart(m.store),
        agrees(world, m),
        world.contains_key(e),
        0 <= n <= key.len(),
        forall|i: int, j: int| 0 <= i < j < key.len() ==> (#[trigger] key[i]) != (#[trigger] key[j]),
        forall|i: int| 0 <= i < key.len() ==> m.clears(#[trigger] key[i], e),
        forall|c: ComponentId| #[trigger] m.rows[c].rows.contains_key(e) ==> m.rows[c].rows[e] < u32::MAX,
        all_removed(m, key, e, n).1 is Ok,
    ensures
        rows_ok(all_removed(m, key, e, n).0),
        columns_apart(all_removed(m, key, e, n).0.store),
        agrees(stripped(world, e, key, n), all_removed(m, key, e, n).0),
        forall|c: ComponentId| #[trigger]
            all_removed(m, key, e, n).0.rows[c].rows.contains_key(e) ==> all_removed(m, key, e, n).0.rows[c].rows[e]
                < u32::MAX,
    decreases n,
{
    if n > 0 {
        lemma_strip_agrees(world, m, e, key, n - 1);
        lemma_all_removed_clears(m, key, e, n - 1);
        lemma_stripped(world, e, key, n - 1);
        let before = all_removed(m, key, e, n - 1).0;
        assert(before.clears(key[n - 1], e));
        lemma_remove_agrees(stripped(world, e, key, n - 1), before, key[n - 1], e);
        let after = all_removed(m, key, e, n).0;
        assert forall|c: ComponentId| #[trigger] after.rows[c].rows.contains_key(e) implies after.rows[c].rows[e]
            < u32::MAX by {
            if c == key[n - 1] && before.store.mirrors.contains_key(c) && before.rows[c].rows.contains_key(e) {
                lemma_released(before.rows[c], e);
            } else {
                assert(before.rows[c].rows.contains_key(e));
            }
        }
    }
}

/// Despawning an entity keeps the agreement: its components leave the mirror
/// with it.
pub proof fn lemma_despawn_agrees<V: GpuComponent>(
    world: Map<Entity, Map<ComponentId, V>>,
    m: MirrorModel,
    e: Entity,
    key: Seq<ComponentId>,
    generations: GenerationModel,
)
    requires
        rows_ok(m),
        columns_apart(m.store),
        agrees(world, m),
        world.contains_key(e),
        key.to_set() == world[e].dom(),
        forall|i: int, j: int| 0 <= i < j < key.len() ==> (#[trigger] key[i]) != (#[trigger] key[j]),
        forall|i: int| 0 <= i < key.len() ==> m.clears(#[trigger] key[i], e),
        forall|c: ComponentId| #[trigger] m.rows[c].rows.contains_key(e) ==> m.rows[c].rows[e] < u32::MAX,
        all_removed(m, key, e, key.len() as int).1 is Ok,
    ensures
        ({
            let gone = all_removed(m, key, e, key.len() as int).0;
            let after = MirrorModel { generations, ..gone };
            &&& rows_ok(after)
            &&& columns_apart(after.store)
            &&& agrees(world.remove(e), after)
        }),
{
    let n = key.len() as int;
    let gone = all_removed(m, key, e, n).0;
    let after = MirrorModel { generations, ..gone };
    lemma_strip_agrees(world, m, e, key, n);
    lemma_stripped(world, e, key, n);
    let bare = stripped(world, e, key, n);
    assert(key.take(n) =~= key);
    assert forall|cid: ComponentId, x: Entity| #[trigger] after.rows[cid].rows.contains_key(x) implies {
        &&& after.store.mirrors.contains_key(cid)
        &&& world.remove(e).contains_key(x)
        &&& world.remove(e)[x].contains_key(cid)
        &&& row_agrees(after.store, cid, after.rows[cid].rows[x], world.remove(e)[x][cid])
    } by {
        assert(gone.rows[cid].rows.contains_key(x));
        if x == e {
            assert(bare[e].contains_key(cid));
            assert(world[e].dom().contains(cid));
            assert(key.to_set().contains(cid));
        } else {
            assert(bare.remove(e).contains_key(x) && bare.remove(e)[x] == bare[x]);
            assert(world.remove(e).contains_key(x) && world.remove(e)[x] == world[x]);
        }
    }
}

/// The generation column holds the generation of every slot whose entity has
/// data on the device.
pub open spec fn generations_agree<V>(world: World<V>, g: GenerationModel) -> bool {
    forall|r: u32| #[trigger]
        flagged(g.mirrored, r) ==> r < g.column.shadow.len() && g.column.shadow[r as int] == word_row(
            world.slot_generation(r as int) as u32,
        )
}

/// The generation column keeps up with inserts.
pub proof fn lemma_insert_keeps_generations<V>(before: World<V>, after: World<V>, g: GenerationModel, e: Entity)
    requires
        before@.contains_key(e),
        World::slots_kept(&before, &after),
        generations_agree(before, g),
        e.index() < u32::MAX,
    ensures
        generations_agree(after, g.inserted(e.index(), e.generation())),
{
    let row = e.index();
    lemma_marked_shadow(g.column, row, word_row(e.generation()));
    let now = g.inserted(row, e.generation());
    assert forall|r: u32| #[trigger] flagged(now.mirrored, r) implies r < now.column.shadow.len()
        && now.column.shadow[r as int] == word_row(after.slot_generation(r as int) as u32) by {
        assert(after.slot_generation(r as int) == before.slot_generation(r as int));
        if r != row {
            assert(flagged(g.mirrored, r));
        }
    }
}

/// The generation column keeps up with spawns, of which it does not learn.
pub proof fn lemma_spawn_keeps_generations<V>(before: World<V>, after: World<V>, g: GenerationModel, e: Entity)
    requires
        World::spawned(&before, &after, e),
        generations_agree(before, g),
    ensures
        generations_agree(after, g),
{
    assert forall|r: u32| #[trigger] flagged(g.mirrored, r) implies r < g.column.shadow.len()
        && g.column.shadow[r as int] == word_row(after.slot_generation(r as int) as u32) by {
        assert(after.slot_generation(r as int) == before.slot_generation(r as int));
    }
}

/// The generation column keeps up with despawns, and shows the new generation
/// of the slot if it showed the old one: a handle that was read from the device
/// is seen to be stale.
pub proof fn lemma_despawn_keeps_generations<V>(before: World<V>, after: World<V>, g: GenerationModel, e: Entity)
    requires
        before@.contains_key(e),
        World::despawned(&before, &after, e),
        generations_agree(before, g),
        e.index() < u32::MAX,
        e.generation() < u32::MAX,
    ensures
        ({
            let now = g.despawned(e.index(), (e.generation() + 1) as u32);
            &&& generations_agree(after, now)
            &&& flagged(g.mirrored, e.index()) ==> now.column.shadow[e.index() as int] == word_row(
                (e.generation() + 1) as u32,
            )
        }),
{
    let row = e.index();
    let next = (e.generation() + 1) as u32;
    lemma_marked_shadow(g.column, row, word_row(next));
    let now = g.despawned(row, next);
    assert forall|r: u32| #[trigger] flagged(now.mirrored, r) implies r < now.column.shadow.len()
        && now.column.shadow[r as int] == word_row(after.slot_generation(r as int) as u32) by {
        assert(r != row);
        assert(flagged(g.mirrored, r));
        assert(after.slot_generation(r as int) == before.slot_generation(r as int));
    }
}

/// Cutting the columns of a component type to its rows keeps the agreement: no
/// row that is in use is lost.
pub proof fn lemma_shrink_agrees<V: GpuComponent>(
    world: Map<Entity, Map<ComponentId, V>>,
    m: MirrorModel,
    after: MirrorModel,
    cid: ComponentId,
    headroom: u32,
    shrank: bool,
)
    requires
        rows_ok(m),
        columns_apart(m.store),
        agrees(world, m),
        component_shrunk(m, after, cid, covering_rows(m.last_row(cid), headroom), shrank),
        forall|a: ComponentId, i: int|
            m.store.mirrors.contains_key(a) && a != cid && 0 <= i < m.store.mirrors[a].len() ==> !takes_part(
                m.store.partners.world_owners,
                Some(cid),
                #[trigger] field_column(m.store, a, i),
            ),
    ensures
        rows_ok(after),
        columns_apart(after.store),
        agrees(world, after),
{
    let target = covering_rows(m.last_row(cid), headroom);
    lemma_apart_kept(m.store, after.store);
    assert forall|c: ComponentId, e: Entity| #[trigger] after.rows[c].rows.contains_key(e) implies {
        &&& after.store.mirrors.contains_key(c)
        &&& world.contains_key(e)
        &&& world[e].contains_key(c)
        &&& row_agrees(after.store, c, after.rows[c].rows[e], world[e][c])
    } by {
        let row = m.rows[c].rows[e];
        assert(m.rows[c].rows.contains_key(e));
        assert(row_agrees(m.store, c, row, world[e][c]));
        assert(m.store.presence[c].kind is Presence);
        assert(c == cid ==> row < target) by {
            assert(m.rows[c].well_formed());
        }
        assert(after.store.is_present(c, row));
        assert forall|i: int| 0 <= i < after.store.mirrors[c].len() && #[trigger] is_tracked(after.store, c, i) implies {
            let shadow = shadow_of(after.store, field_column(after.store, c, i));
            row < shadow.len() && shadow[row as int] == world[e][c].gpu_field(
                c,
                after.store.mirrors[c][i].field_token.type_id,
            )
        } by {
            let column = field_column(m.store, c, i);
            assert(field_column(after.store, c, i) == column);
            assert(after.store.columns.dom().contains(column));
            assert(m.store.columns.contains_key(column));
            assert(is_tracked(m.store, c, i));
        }
    }
    assert forall|c: ComponentId, row: u32| #[trigger] after.store.is_present(c, row) implies is_taken(
        after.rows[c],
        row,
    ) by {
        assert(m.store.presence.contains_key(c));
        assert(m.store.presence[c].kind is Presence);
        assert(m.store.is_present(c, row));
    }
}

} // verus!
