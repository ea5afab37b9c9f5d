//! What rows, flags and partner fields of the mirror do, case by case.

use vstd::prelude::*;
use crate::entity::Entity;
use crate::gpu::column::ColumnModel;
use crate::gpu::component_rows::{trimmed, usable_prefix, RowsModel};
use crate::gpu::device::{lemma_run_one, run, word_row, zero_row, CommandModel};
use crate::gpu::dynamic_buffer::{growth, lemma_growth_preserves, BufferModel, CapacityError};
use crate::gpu::generation_mirror::GenerationModel;
use crate::gpu::growable_scene_buffer::growing_write;
use crate::gpu::partner::{PartnerError, PartnerModel};
use crate::gpu::row_flags::{flagged, with_flag, with_rows, without_flag};
use crate::gpu::world_column::WorldColumnModel;

verus! {

/// Setting or clearing the flag of a row changes that flag and no other; more rows
/// change none.
pub proof fn lemma_flags(flags: Seq<bool>, row: u32, n: nat, x: u32)
    ensures
        flagged(with_flag(flags, row), x) <==> x == row || flagged(flags, x),
        flagged(without_flag(flags, row), x) <==> x != row && flagged(flags, x),
        flagged(with_rows(flags, n), x) <==> flagged(flags, x),
        n <= with_rows(flags, n).len(),
{
}

/// The first insertion at a row writes its generation, and later ones write nothing
/// until the row is despawned; a despawn writes the new generation where one was
/// written. No other row changes.
pub proof fn lemma_when_generations_are_written(m: GenerationModel, row: u32, generation: u32, x: u32)
    requires
        m.well_formed(),
        row < u32::MAX,
    ensures
        flagged(m.mirrored, row) ==> m.inserted(row, generation).column == m.column,
        !flagged(m.mirrored, row) ==> {
            &&& row < m.inserted(row, generation).column.shadow.len()
            &&& m.inserted(row, generation).column.shadow[row as int] == word_row(generation)
            &&& m.inserted(row, generation).column.dirty[row as int]
        },
        flagged(m.inserted(row, generation).mirrored, x) <==> x == row || flagged(m.mirrored, x),
        flagged(m.mirrored, row) ==> {
            &&& row < m.despawned(row, generation).column.shadow.len()
            &&& m.despawned(row, generation).column.shadow[row as int] == word_row(generation)
            &&& m.despawned(row, generation).column.dirty[row as int]
        },
        !flagged(m.mirrored, row) ==> m.despawned(row, generation).column == m.column,
        flagged(m.despawned(row, generation).mirrored, x) <==> x != row && flagged(m.mirrored, x),
        x != row && x < m.column.shadow.len() ==> {
            &&& m.inserted(row, generation).column.shadow[x as int] == m.column.shadow[x as int]
            &&& m.despawned(row, generation).column.shadow[x as int] == m.column.shadow[x as int]
        },
{
    crate::gpu::buffer_laws::lemma_marked_row(m.column, row, word_row(generation));
}

proof fn lemma_usable_prefix(occupied: Seq<bool>, free: Seq<u32>)
    ensures
        usable_prefix(occupied, free) <= free.len(),
        usable_prefix(occupied, free) > 0 ==> {
            let r = free[usable_prefix(occupied, free) - 1];
            r < occupied.len() && !occupied[r as int]
        },
        forall|i: int|
            usable_prefix(occupied, free) <= i < free.len() ==> (#[trigger] free[i]) >= occupied.len()
                || occupied[free[i] as int],
    decreases free.len(),
{
    if free.len() > 0 && !(free.last() < occupied.len() && !occupied[free.last() as int]) {
        let init = free.drop_last();
        lemma_usable_prefix(occupied, init);
        assert forall|i: int| usable_prefix(occupied, free) <= i < free.len() implies (#[trigger] free[i])
            >= occupied.len() || occupied[free[i] as int] by {
            if i < init.len() {
                assert(init[i] == free[i]);
            }
        }
    }
}

proof fn lemma_trimmed(occupied: Seq<bool>)
    ensures
        trimmed(occupied).len() <= occupied.len(),
        forall|i: int| 0 <= i < trimmed(occupied).len() ==> #[trigger] trimmed(occupied)[i] == occupied[i],
        forall|i: int| trimmed(occupied).len() <= i < occupied.len() ==> !#[trigger] occupied[i],
        trimmed(occupied).len() > 0 ==> trimmed(occupied).last(),
    decreases occupied.len(),
{
    if occupied.len() > 0 && !occupied.last() {
        let init = occupied.drop_last();
        lemma_trimmed(init);
        assert forall|i: int| trimmed(occupied).len() <= i < occupied.len() implies !#[trigger] occupied[i] by {
            if i < init.len() {
                assert(init[i] == occupied[i]);
            }
        }
    }
}

/// An entity that gets a row gets one that no other has: a hole if there is one, and
/// otherwise the next row behind all. Every other entity keeps its row.
pub proof fn lemma_row_given(m: RowsModel, e: Entity, x: Entity)
    requires
        m.well_formed(),
        m.occupied.len() < u32::MAX,
        !m.rows.contains_key(e),
    ensures
        m.acquired(e).rows.contains_key(e),
        m.next_row() == m.acquired(e).rows[e],
        x != e ==> (m.acquired(e).rows.contains_key(x) <==> m.rows.contains_key(x)),
        m.rows.contains_key(x) ==> m.acquired(e).rows[x] == m.rows[x] && m.rows[x] != m.acquired(e).rows[e],
        m.occupied.contains(false) ==> m.next_row() < m.occupied.len() && !m.occupied[m.next_row() as int],
        !m.occupied.contains(false) ==> m.next_row() == m.occupied.len(),
{
    crate::gpu::component_rows::lemma_acquired(m, e);
    lemma_usable_prefix(m.occupied, m.free);
    let n = usable_prefix(m.occupied, m.free);
    if m.occupied.contains(false) {
        let r = m.occupied.index_of(false);
        assert(!m.occupied[r]);
        assert(m.free.contains(r as u32));
        let i = m.free.index_of(r as u32);
        assert(m.free[i] == r as u32);
        assert(i < n);
    } else if n > 0 {
        let r = m.free[n - 1];
        assert(m.occupied[r as int] == false);
    }
}

/// An entity that gives its row up has none, and the row is a hole or beyond the last
/// row in use; it is the next that is given, unless it is beyond. Every other entity
/// keeps its row.
pub proof fn lemma_row_taken_back(m: RowsModel, e: Entity, x: Entity)
    requires
        m.well_formed(),
        m.rows.contains_key(e),
    ensures
        !m.released(e).rows.contains_key(e),
        x != e ==> (m.released(e).rows.contains_key(x) <==> m.rows.contains_key(x)),
        x != e && m.rows.contains_key(x) ==> m.released(e).rows[x] == m.rows[x],
        m.rows[e] < m.released(e).occupied.len() ==> m.released(e).next_row() == m.rows[e],
        m.released(e).occupied.len() > 0 ==> m.released(e).occupied.last(),
{
    crate::gpu::component_rows::lemma_released(m, e);
    let after = m.released(e);
    let holed = m.occupied.update(m.rows[e] as int, false);
    lemma_trimmed(holed);
    if m.rows[e] < after.occupied.len() {
        assert(after.occupied == trimmed(holed));
        assert(after.free.last() == m.rows[e]);
        assert(!holed[m.rows[e] as int]);
        assert(!after.occupied[m.rows[e] as int]);
        assert(usable_prefix(after.occupied, after.free) == after.free.len());
    }
}

/// When a field is refused as a partner: its own layout is not that of its value; its
/// key is empty; it is known with other metadata; or it shares the key of a column
/// whose rows have another layout, another type or another mode, told apart in this
/// order. Every other field is taken.
pub proof fn lemma_when_partners_are_refused(m: PartnerModel, d: ColumnModel)
    ensures
        ({
            let id = d.field_token.type_id;
            let known = m.descriptors.contains_key(id);
            let shares = d.buffer_key is Some && m.named.contains_key(d.buffer_key.unwrap());
            let first = m.descriptors[m.named[d.buffer_key.unwrap()]];
            let layout_ok = d.field_token.layout == d.value_token.layout;
            let key_ok = d.buffer_key is Some ==> d.buffer_key.unwrap().len() > 0;
            &&& m.refusal(d) is None <==> layout_ok && key_ok && (known ==> m.descriptors[id] == d) && (!known && shares
                ==> first.value_token == d.value_token && first.mode == d.mode)
            &&& m.refusal(d) == Some(PartnerError::FieldLayout) <==> !layout_ok
            &&& m.refusal(d) == Some(PartnerError::EmptyKey) <==> layout_ok && !key_ok
            &&& m.refusal(d) == Some(PartnerError::Metadata) <==> layout_ok && key_ok && known && m.descriptors[id] != d
            &&& m.refusal(d) == Some(PartnerError::RowLayout) <==> layout_ok && key_ok && !known && shares
                && first.value_token.layout != d.value_token.layout
            &&& m.refusal(d) == Some(PartnerError::RowType) <==> layout_ok && key_ok && !known && shares
                && first.value_token.layout == d.value_token.layout && first.value_token != d.value_token
            &&& m.refusal(d) == Some(PartnerError::Mode) <==> layout_ok && key_ok && !known && shares
                && first.value_token == d.value_token && first.mode != d.mode
        }),
{
}

/// A field that is taken resolves to the column of its key, the first field with that
/// key, or to itself. Every other field resolves as before.
pub proof fn lemma_partner_resolves(m: PartnerModel, d: ColumnModel, other: crate::component::ComponentId)
    requires
        m.well_formed(),
        m.refusal(d) is None,
    ensures
        ({
            let id = d.field_token.type_id;
            let after = m.registered(d);
            &&& after.descriptors.contains_key(id)
            &&& after.descriptors[id] == d
            &&& d.buffer_key is None ==> after.resolve(id) == id
            &&& d.buffer_key matches Some(k) ==> {
                &&& m.named.contains_key(k) ==> after.resolve(id) == m.named[k] && after.named == m.named
                &&& !m.named.contains_key(k) ==> after.resolve(id) == id && after.named == m.named.insert(k, id)
            }
            &&& other != id ==> after.resolve(other) == m.resolve(other)
            &&& after.residencies == m.residencies
            &&& after.world_owners == m.world_owners
        }),
{
    crate::gpu::partner::lemma_registered(m, d);
}

/// A write to a growable buffer that is not refused leaves the device with the data from
/// the given row on, and with everything else as it was, zero where the buffer grew. A
/// refused one has no commands.
pub proof fn lemma_growing_write_shows(
    b: BufferModel,
    row: u32,
    data: Seq<Seq<u8>>,
    max_buffer_size: u64,
    mem: Seq<Seq<u8>>,
    i: int,
)
    requires
        mem.len() == b.capacity,
        row + data.len() <= u32::MAX,
    ensures
        ({
            let (after, out) = growth(b, (row + data.len()) as u32, max_buffer_size);
            let now = run(mem, growing_write(b, row, data, max_buffer_size), b.stride as nat);
            &&& out is Err ==> growing_write(b, row, data, max_buffer_size).len() == 0
            &&& out is Ok ==> {
                &&& now.len() == after.capacity
                &&& row + data.len() <= now.len()
                &&& row <= i < row + data.len() ==> now[i] == data[i - row]
                &&& 0 <= i < mem.len() && !(row <= i < row + data.len()) ==> now[i] == mem[i]
                &&& mem.len() <= i < now.len() && !(row <= i < row + data.len()) ==> now[i] == zero_row(b.stride as nat)
            }
        }),
{
    let min = (row + data.len()) as u32;
    let (after, out) = growth(b, min, max_buffer_size);
    let commands = growing_write(b, row, data, max_buffer_size);
    let stride = b.stride as nat;
    if out == Ok::<bool, CapacityError>(true) {
        lemma_growth_preserves(b, min, max_buffer_size, mem);
        let grow = CommandModel::Reallocate { capacity: after.capacity, keep: b.capacity };
        lemma_run_one(mem, grow, stride);
        if data.len() > 0 {
            let write = CommandModel::Write { row, data };
            assert(commands =~= seq![grow].push(write));
            assert(commands.drop_last() =~= seq![grow]);
        } else {
            assert(commands =~= seq![grow]);
        }
    } else if out is Ok {
        if data.len() > 0 {
            let write = CommandModel::Write { row, data };
            assert(commands =~= seq![write]);
            lemma_run_one(mem, write, stride);
        }
    }
}

/// A column that shrinks has exactly the rows asked for, and one that does not is left as
/// it was; one that reserves has at least the rows asked for, unless they are refused.
pub proof fn lemma_column_sizes(c: WorldColumnModel, rows: u32, max_buffer_size: u64)
    requires
        c.well_formed(),
    ensures
        c.shrinks(rows) ==> c.shrunk(rows).buffer().capacity == rows && c.shrunk(rows).commands.len()
            == c.commands.len() + 1,
        !c.shrinks(rows) ==> c.shrunk(rows).buffer().capacity == c.buffer().capacity && c.shrunk(rows).commands
            == c.commands,
        growth(c.buffer(), rows, max_buffer_size).1 is Ok ==> c.reserved(rows, max_buffer_size).buffer().capacity
            >= rows && c.reserved(rows, max_buffer_size).buffer().capacity >= c.buffer().capacity,
        rows <= c.buffer().capacity ==> c.reserved(rows, max_buffer_size).commands == c.commands,
{
    crate::gpu::buffer_laws::lemma_when_buffers_grow(c.buffer(), rows, max_buffer_size);
}

} // verus!
