//! Stable device rows for the entities that have a component.
//!
//! Every component type numbers its rows from 0. An entity keeps its row while
//! it has the component; rows that become free are used again.

use vstd::prelude::*;
use crate::component::ComponentId;
use crate::entity::Entity;
use crate::hash_index::{row_entries, row_index_get, row_index_insert, row_index_len, row_index_new, row_index_remove, RowIndex};

verus! {

/// The rows of one component type.
struct ComponentRows {
    by_entity: RowIndex,
    free_rows: Vec<u32>,
    occupied_rows: Vec<bool>,
}

/// The value of the rows of one component type.
pub struct RowsModel {
    /// The row of every entity that has one.
    pub rows: Map<Entity, u32>,
    /// Whether a row is taken; its length is the span of rows in use.
    pub occupied: Seq<bool>,
    /// Rows that were given back, the last one first to be used again. Entries
    /// that are taken again, or beyond the span, are skipped.
    pub free: Seq<u32>,
}

/// `occupied` without the free rows at its end.
pub open spec fn trimmed(occupied: Seq<bool>) -> Seq<bool>
    decreases occupied.len(),
{
    if occupied.len() > 0 && !occupied.last() {
        trimmed(occupied.drop_last())
    } else {
        occupied
    }
}

/// How many entries of the free list remain when the next usable one has been
/// looked at; 0 if none is usable.
pub open spec fn usable_prefix(occupied: Seq<bool>, free: Seq<u32>) -> nat
    decreases free.len(),
{
    if free.len() == 0 {
        0
    } else if free.last() < occupied.len() && !occupied[free.last() as int] {
        free.len()
    } else {
        usable_prefix(occupied, free.drop_last())
    }
}

impl RowsModel {
    /// No entity has a row.
    pub open spec fn none() -> RowsModel {
        RowsModel { rows: Map::empty(), occupied: Seq::empty(), free: Seq::empty() }
    }

    /// A row is taken exactly when one entity has it, no row at the end is
    /// free, and the free list knows every free row.
    pub open spec fn well_formed(self) -> bool {
        &&& self.occupied.len() <= u32::MAX
        &&& self.rows.dom().finite()
        &&& forall|e: Entity| #[trigger]
            self.rows.contains_key(e) ==> self.rows[e] < self.occupied.len() && self.occupied[self.rows[e] as int]
        &&& forall|a: Entity, b: Entity| #[trigger]
            self.rows.contains_key(a) && #[trigger] self.rows.contains_key(b) && self.rows[a] == self.rows[b] ==> a
                == b
        &&& forall|r: int|
            0 <= r < self.occupied.len() && #[trigger] self.occupied[r] ==> exists|e: Entity| #[trigger]
                self.rows.contains_key(e) && self.rows[e] == r
        &&& forall|r: int|
            0 <= r < self.occupied.len() && !(#[trigger] self.occupied[r]) ==> self.free.contains(r as u32)
        &&& self.occupied.len() > 0 ==> self.occupied.last()
    }

    /// The row that the next entity gets.
    pub open spec fn next_row(self) -> u32 {
        let n = usable_prefix(self.occupied, self.free);
        if n > 0 {
            self.free[n - 1]
        } else {
            self.occupied.len() as u32
        }
    }

    /// `e` was given the next row.
    pub open spec fn acquired(self, e: Entity) -> RowsModel {
        let n = usable_prefix(self.occupied, self.free);
        RowsModel {
            rows: self.rows.insert(e, self.next_row()),
            occupied: if n > 0 {
                self.occupied.update(self.next_row() as int, true)
            } else {
                self.occupied.push(true)
            },
            free: if n > 0 {
                self.free.take(n - 1)
            } else {
                Seq::empty()
            },
        }
    }

    /// `e` gave its row back. The last one to do so resets the numbering.
    pub open spec fn released(self, e: Entity) -> RowsModel {
        let rest = self.rows.remove(e);
        if rest == Map::<Entity, u32>::empty() {
            RowsModel::none()
        } else {
            RowsModel {
                rows: rest,
                occupied: trimmed(self.occupied.update(self.rows[e] as int, false)),
                free: self.free.push(self.rows[e]),
            }
        }
    }
}

impl View for ComponentRows {
    type V = RowsModel;

    closed spec fn view(&self) -> RowsModel {
        RowsModel {
            rows: Map::new(
                |e: Entity| row_entries(self.by_entity).contains_key(e.0),
                |e: Entity| row_entries(self.by_entity)[e.0],
            ),
            occupied: self.occupied_rows@,
            free: self.free_rows@,
        }
    }
}

proof fn lemma_trimmed(occupied: Seq<bool>)
    ensures
        trimmed(occupied).len() <= occupied.len(),
        trimmed(occupied) == occupied.take(trimmed(occupied).len() as int),
        trimmed(occupied).len() > 0 ==> trimmed(occupied).last(),
        forall|r: int| trimmed(occupied).len() <= r < occupied.len() ==> !(#[trigger] occupied[r]),
    decreases occupied.len(),
{
    if occupied.len() > 0 && !occupied.last() {
        lemma_trimmed(occupied.drop_last());
        assert(trimmed(occupied) =~= occupied.take(trimmed(occupied).len() as int));
        assert forall|r: int| trimmed(occupied).len() <= r < occupied.len() implies !(#[trigger] occupied[r]) by {
            if r < occupied.len() - 1 {
                assert(occupied.drop_last()[r] == occupied[r]);
            }
        }
    } else {
        assert(trimmed(occupied) =~= occupied.take(occupied.len() as int));
    }
}

proof fn lemma_usable(occupied: Seq<bool>, free: Seq<u32>)
    ensures
        usable_prefix(occupied, free) <= free.len(),
        usable_prefix(occupied, free) > 0 ==> {
            let r = free[usable_prefix(occupied, free) - 1];
            r < occupied.len() && !occupied[r as int]
        },
        forall|i: int|
            usable_prefix(occupied, free) <= i < free.len() ==> (#[trigger] free[i]) >= occupied.len()
                || occupied[free[i] as int],
    decreases free.len(),
{
    if free.len() > 0 && !(free.last() < occupied.len() && !occupied[free.last() as int]) {
        let init = free.drop_last();
        lemma_usable(occupied, init);
        assert forall|i: int| usable_prefix(occupied, free) <= i < free.len() implies (#[trigger] free[i])
            >= occupied.len() || occupied[free[i] as int] by {
            if i < free.len() - 1 {
                assert(init[i] == free[i]);
            }
        }
    }
}

/// Giving an entity its row keeps every other entity's row, takes no row that
/// is in use, and widens the span only if no row within it is free.
pub proof fn lemma_acquired(m: RowsModel, e: Entity)
    requires
        m.well_formed(),
        m.occupied.len() < u32::MAX,
        !m.rows.contains_key(e),
    ensures
        m.acquired(e).well_formed(),
        m.acquired(e).rows[e] == m.next_row(),
        forall|x: Entity| #[trigger] m.rows.contains_key(x) ==> m.rows[x] != m.next_row(),
        m.acquired(e).occupied.len() == (if m.occupied.contains(false) {
            m.occupied.len()
        } else {
            m.occupied.len() + 1
        }),
{
    let n = usable_prefix(m.occupied, m.free);
    let after = m.acquired(e);
    let row = m.next_row();
    lemma_usable(m.occupied, m.free);
    assert(n == 0 <==> !m.occupied.contains(false)) by {
        if n == 0 && m.occupied.contains(false) {
            let r = m.occupied.index_of(false);
            assert(!m.occupied[r]);
            assert(m.free.contains(r as u32));
            let i = m.free.index_of(r as u32);
            assert(m.free[i] == r as u32);
        }
        if n > 0 {
            assert(m.occupied[row as int] == false);
        }
    }
    assert forall|r: int| 0 <= r < after.occupied.len() && #[trigger] after.occupied[r] implies exists|x: Entity| #[trigger]
        after.rows.contains_key(x) && after.rows[x] == r by {
        if r == row {
            assert(after.rows.contains_key(e) && after.rows[e] == r);
        } else {
            assert(m.occupied[r]);
            let x = choose|x: Entity| #[trigger] m.rows.contains_key(x) && m.rows[x] == r;
            assert(after.rows.contains_key(x) && after.rows[x] == r);
        }
    }
    assert forall|r: int| 0 <= r < after.occupied.len() && !(#[trigger] after.occupied[r]) implies after.free.contains(
        r as u32,
    ) by {
        assert(!m.occupied[r]);
        assert(m.free.contains(r as u32));
        let i = m.free.index_of(r as u32);
        assert(m.free[i] == r as u32);
        if n == 0 {
            assert(m.occupied.contains(false));
        } else {
            assert(i < n);
            assert(i != n - 1);
            assert(after.free[i] == r as u32);
        }
    }
    if n > 0 {
        assert(row != m.occupied.len() - 1);
    }
}

/// Giving a row back keeps every other entity's row, and leaves no free row at
/// the end of the span.
pub proof fn lemma_released(m: RowsModel, e: Entity)
    requires
        m.well_formed(),
        m.rows.contains_key(e),
    ensures
        m.released(e).well_formed(),
        m.released(e).rows == m.rows.remove(e),
        m.released(e).occupied.len() <= m.occupied.len(),
{
    let rest = m.rows.remove(e);
    let row = m.rows[e];
    if rest == Map::<Entity, u32>::empty() {
    } else {
        let cleared = m.occupied.update(row as int, false);
        let after = m.released(e);
        lemma_trimmed(cleared);
        assert forall|x: Entity| #[trigger] after.rows.contains_key(x) implies after.rows[x] < after.occupied.len()
            && after.occupied[after.rows[x] as int] by {
            assert(m.rows.contains_key(x));
            assert(m.rows[x] != row);
            assert(cleared[m.rows[x] as int]);
        }
        assert forall|r: int| 0 <= r < after.occupied.len() && #[trigger] after.occupied[r] implies exists|x: Entity|
            #[trigger] after.rows.contains_key(x) && after.rows[x] == r by {
            assert(cleared[r]);
            assert(m.occupied[r]);
            let x = choose|x: Entity| #[trigger] m.rows.contains_key(x) && m.rows[x] == r;
            assert(after.rows.contains_key(x) && after.rows[x] == r);
        }
        assert forall|r: int| 0 <= r < after.occupied.len() && !(#[trigger] after.occupied[r]) implies after.free.contains(
            r as u32,
        ) by {
            if r == row {
                assert(after.free[m.free.len() as int] == row);
            } else {
                assert(!m.occupied[r]);
                let i = m.free.index_of(r as u32);
                assert(m.free[i] == r as u32);
                assert(after.free[i] == r as u32);
            }
        }
    }
}

/// There are no more entities with a row than rows in the span.
pub proof fn lemma_live_within_span(m: RowsModel)
    requires
        m.well_formed(),
    ensures
        m.rows.dom().len() <= m.occupied.len(),
{
    let span = vstd::set_lib::set_int_range(0, m.occupied.len() as int);
    vstd::set_lib::lemma_int_range(0, m.occupied.len() as int);
    let row_of = |e: Entity| m.rows[e] as int;
    let image = m.rows.dom().map(row_of);
    assert forall|a: Entity, b: Entity| m.rows.dom().contains(a) && m.rows.dom().contains(b) && #[trigger] row_of(a)
        == #[trigger] row_of(b) implies a == b by {
        assert(m.rows.contains_key(a) && m.rows.contains_key(b));
    }
    assert forall|a: Entity| m.rows.dom().contains(a) implies image.contains(#[trigger] row_of(a)) by {}
    assert forall|r: int| #[trigger] image.contains(r) implies exists|a: Entity|
        m.rows.dom().contains(a) && r == #[trigger] row_of(a) by {}
    vstd::set_lib::lemma_map_size(m.rows.dom(), image, row_of);
    assert(image.subset_of(span)) by {
        assert forall|r: int| #[trigger] image.contains(r) implies span.contains(r) by {
            let a = choose|a: Entity| m.rows.dom().contains(a) && r == #[trigger] row_of(a);
            assert(m.rows.contains_key(a));
        }
    }
    vstd::set_lib::lemma_len_subset(image, span);
}

/// The map keyed by entity and the map keyed by its bits have equally many
/// keys.
proof fn lemma_key_count(bits: Map<u64, u32>, rows: Map<Entity, u32>)
    requires
        rows == Map::new(|e: Entity| bits.contains_key(e.0), |e: Entity| bits[e.0]),
        rows.dom().finite(),
    ensures
        bits.dom().finite(),
        bits.dom().len() == rows.dom().len(),
{
    let to_bits = |e: Entity| e.0;
    assert(rows.dom().map(to_bits) =~= bits.dom()) by {
        assert forall|b: u64| #[trigger] bits.dom().contains(b) implies rows.dom().map(to_bits).contains(b) by {
            assert(rows.dom().contains(Entity(b)));
            assert(to_bits(Entity(b)) == b);
        }
    }
    assert forall|b: u64| #[trigger] bits.dom().contains(b) implies exists|e: Entity|
        rows.dom().contains(e) && b == #[trigger] to_bits(e) by {
        assert(rows.dom().contains(Entity(b)));
        assert(to_bits(Entity(b)) == b);
    }
    vstd::set_lib::lemma_map_size(rows.dom(), bits.dom(), to_bits);
}

impl ComponentRows {
    fn empty() -> (rows: ComponentRows)
        ensures
            rows@ == RowsModel::none(),
    {
        let rows = ComponentRows {
            by_entity: row_index_new(),
            free_rows: Vec::new(),
            occupied_rows: Vec::new(),
        };
        proof {
            assert(rows@.rows =~= Map::<Entity, u32>::empty());
        }
        rows
    }

    fn get(&self, entity: Entity) -> (row: Option<u32>)
        ensures
            match row {
                Some(r) => self@.rows.contains_key(entity) && self@.rows[entity] == r,
                None => !self@.rows.contains_key(entity),
            },
    {
        row_index_get(&self.by_entity, entity.bits())
    }

    fn acquire(&mut self, entity: Entity) -> (row: u32)
        requires
            old(self)@.well_formed(),
            old(self)@.occupied.len() < u32::MAX,
            !old(self)@.rows.contains_key(entity),
        ensures
            row == old(self)@.next_row(),
            final(self)@ == old(self)@.acquired(entity),
    {
        let ghost before = self@;
        let mut found: Option<u32> = None;
        proof {
            lemma_usable(before.occupied, before.free);
        }
        while found.is_none() && self.free_rows.len() > 0
            invariant
                self.by_entity == old(self).by_entity,
                self.occupied_rows@ == before.occupied,
                self.free_rows@.len() <= before.free.len(),
                self.free_rows@ == before.free.take(self.free_rows@.len() as int),
                found is None ==> usable_prefix(before.occupied, self.free_rows@) == usable_prefix(
                    before.occupied,
                    before.free,
                ),
                found matches Some(r) ==> usable_prefix(before.occupied, before.free) == self.free_rows@.len() + 1
                    && r == before.free[self.free_rows@.len() as int],
            decreases self.free_rows@.len(),
        {
            let ghost free = self.free_rows@;
            match self.free_rows.pop() {
                Some(r) => {
                    proof {
                        assert(free.last() == r);
                        assert(self.free_rows@ =~= free.drop_last());
                        assert(self.free_rows@ =~= before.free.take(self.free_rows@.len() as int));
                        assert(before.free[free.len() - 1] == r);
                    }
                    if (r as usize) < self.occupied_rows.len() && !self.occupied_rows[r as usize] {
                        found = Some(r);
                    }
                },
                None => {},
            }
        }
        let row: u32 = match found {
            Some(r) => {
                proof {
                    let n = usable_prefix(before.occupied, before.free);
                    assert(r == before.next_row());
                    assert(self.free_rows@ =~= before.free.take(n - 1));
                }
                self.occupied_rows[r as usize] = true;
                r
            },
            None => {
                proof {
                    assert(usable_prefix(before.occupied, self.free_rows@) == 0);
                    assert(self.free_rows@ =~= Seq::<u32>::empty());
                }
                let r: u32 = self.occupied_rows.len() as u32;
                self.occupied_rows.push(true);
                r
            },
        };
        row_index_insert(&mut self.by_entity, entity.bits(), row);
        proof {
            assert(self@.rows =~= before.acquired(entity).rows);
            assert(self@.occupied =~= before.acquired(entity).occupied);
        }
        row
    }

    fn release(&mut self, entity: Entity) -> (row: Option<u32>)
        requires
            old(self)@.well_formed(),
        ensures
            match row {
                Some(r) => old(self)@.rows.contains_key(entity) && old(self)@.rows[entity] == r && final(self)@
                    == old(self)@.released(entity),
                None => !old(self)@.rows.contains_key(entity) && final(self)@ == old(self)@,
            },
    {
        let ghost before = self@;
        let row: u32 = match self.get(entity) {
            Some(r) => r,
            None => {
                return None;
            },
        };
        row_index_remove(&mut self.by_entity, entity.bits());
        proof {
            assert(self@.rows =~= before.rows.remove(entity));
            lemma_key_count(row_entries(self.by_entity), self@.rows);
        }
        self.occupied_rows[row as usize] = false;
        if row_index_len(&self.by_entity) == 0 {
            proof {
                assert(before.rows.remove(entity) =~= Map::<Entity, u32>::empty());
            }
            *self = ComponentRows::empty();
        } else {
            let ghost cleared = self.occupied_rows@;
            self.free_rows.push(row);
            while self.occupied_rows.len() > 0 && !self.occupied_rows[self.occupied_rows.len() - 1]
                invariant
                    trimmed(self.occupied_rows@) == trimmed(cleared),
                    self.free_rows@ == before.free.push(row),
                    self@.rows == before.rows.remove(entity),
                decreases self.occupied_rows@.len(),
            {
                let ghost now = self.occupied_rows@;
                self.occupied_rows.pop();
                proof {
                    assert(self.occupied_rows@ =~= now.drop_last());
                }
            }
            proof {
                assert(before.rows.remove(entity) != Map::<Entity, u32>::empty()) by {
                    if before.rows.remove(entity) == Map::<Entity, u32>::empty() {
                        assert(before.rows.remove(entity).dom() =~= Set::<Entity>::empty());
                    }
                }
            }
        }
        Some(row)
    }
}

/// The device rows of all component types, looked up by the exact handle of
/// an entity: a stale handle finds nothing.
pub struct ComponentGpuRows {
    components: Vec<Option<ComponentRows>>,
}

impl Default for ComponentGpuRows {
    fn default() -> (rows: ComponentGpuRows)
        ensures
            rows.well_formed(),
            forall|cid: ComponentId| #[trigger] rows.of(cid) == RowsModel::none(),
    {
        ComponentGpuRows::new()
    }
}

impl ComponentGpuRows {
    /// The rows of one component type.
    pub closed spec fn of(&self, cid: ComponentId) -> RowsModel {
        if cid.0 < self.components@.len() {
            match self.components@[cid.0 as int] {
                Some(rows) => rows@,
                None => RowsModel::none(),
            }
        } else {
            RowsModel::none()
        }
    }

    /// The rows of every component type are well-formed.
    pub open spec fn well_formed(&self) -> bool {
        forall|cid: ComponentId| #[trigger] self.of(cid).well_formed()
    }

    /// No entity has a row.
    pub fn new() -> (rows: ComponentGpuRows)
        ensures
            rows.well_formed(),
            forall|cid: ComponentId| #[trigger] rows.of(cid) == RowsModel::none(),
    {
        ComponentGpuRows { components: Vec::new() }
    }

    /// The row of an entity for a component type. If it has none, it gets the
    /// row that was given back last, or a new one at the end.
    pub fn acquire(&mut self, component_id: ComponentId, entity: Entity) -> (row: u32)
        requires
            old(self).well_formed(),
            component_id.0 < usize::MAX,
            old(self).of(component_id).occupied.len() < u32::MAX,
        ensures
            final(self).well_formed(),
            old(self).of(component_id).rows.contains_key(entity) ==> row == old(self).of(
                component_id,
            ).rows[entity] && final(self).of(component_id) == old(self).of(component_id),
            !old(self).of(component_id).rows.contains_key(entity) ==> row == old(self).of(
                component_id,
            ).next_row() && final(self).of(component_id) == old(self).of(component_id).acquired(entity),
            forall|c: ComponentId| c != component_id ==> #[trigger] final(self).of(c) == old(self).of(c),
    {
        let ghost before = *self;
        let at: usize = component_id.0 as usize;
        while self.components.len() <= at
            invariant
                at < usize::MAX,
                self.components@.len() <= at + 1 || self.components@.len() == before.components@.len(),
                before.components@.len() <= self.components@.len(),
                forall|i: int| 0 <= i < before.components@.len() ==> #[trigger] self.components@[i] == before.components@[i],
                forall|i: int|
                    before.components@.len() <= i < self.components@.len() ==> #[trigger] self.components@[i] is None,
            decreases at + 1 - self.components@.len(),
        {
            self.components.push(None);
        }
        if self.components[at].is_none() {
            self.components[at] = Some(ComponentRows::empty());
        }
        let ghost ready = *self;
        proof {
            assert forall|c: ComponentId| #[trigger] ready.of(c) == before.of(c) by {
                if c.0 < before.components@.len() && c.0 != at {
                    assert(ready.components@[c.0 as int] == before.components@[c.0 as int]);
                }
            }
        }
        let row: u32 = match &mut self.components[at] {
            Some(rows) => match rows.get(entity) {
                Some(r) => r,
                None => {
                    proof {
                        lemma_acquired(before.of(component_id), entity);
                    }
                    rows.acquire(entity)
                },
            },
            None => 0,
        };
        proof {
            assert forall|c: ComponentId| c != component_id implies #[trigger] self.of(c) == before.of(c) by {
                assert(ready.of(c) == before.of(c));
                if c.0 < ready.components@.len() {
                    assert(self.components@[c.0 as int] == ready.components@[c.0 as int]);
                }
            }
            assert(ready.of(component_id) == before.of(component_id));
            assert forall|c: ComponentId| #[trigger] self.of(c).well_formed() by {
                if c != component_id {
                    assert(self.of(c) == before.of(c));
                    assert(before.of(c).well_formed());
                } else {
                    assert(before.of(c).well_formed());
                }
            }
        }
        row
    }

    /// The row of an entity for a component type, if it has one.
    pub fn get(&self, component_id: ComponentId, entity: Entity) -> (row: Option<u32>)
        ensures
            match row {
                Some(r) => self.of(component_id).rows.contains_key(entity) && self.of(component_id).rows[entity]
                    == r,
                None => !self.of(component_id).rows.contains_key(entity),
            },
    {
        let at: usize = component_id.0 as usize;
        if at < self.components.len() {
            match &self.components[at] {
                Some(rows) => rows.get(entity),
                None => None,
            }
        } else {
            None
        }
    }

    /// Gives the row of an entity back, if it has one.
    pub fn release(&mut self, component_id: ComponentId, entity: Entity) -> (row: Option<u32>)
        requires
            old(self).well_formed(),
        ensures
            final(self).well_formed(),
            match row {
                Some(r) => {
                    &&& old(self).of(component_id).rows.contains_key(entity)
                    &&& old(self).of(component_id).rows[entity] == r
                    &&& final(self).of(component_id) == old(self).of(component_id).released(entity)
                },
                None => {
                    &&& !old(self).of(component_id).rows.contains_key(entity)
                    &&& final(self).of(component_id) == old(self).of(component_id)
                },
            },
            forall|c: ComponentId| c != component_id ==> #[trigger] final(self).of(c) == old(self).of(c),
    {
        let ghost before = *self;
        let at: usize = component_id.0 as usize;
        if at >= self.components.len() {
            return None;
        }
        proof {
            assert(before.of(component_id).well_formed());
        }
        let row: Option<u32> = match &mut self.components[at] {
            Some(rows) => rows.release(entity),
            None => None,
        };
        proof {
            if row is Some {
                lemma_released(before.of(component_id), entity);
            }
            assert forall|c: ComponentId| c != component_id implies #[trigger] self.of(c) == before.of(c) by {
                if c.0 < before.components@.len() {
                    assert(self.components@[c.0 as int] == before.components@[c.0 as int]);
                }
            }
            assert forall|c: ComponentId| #[trigger] self.of(c).well_formed() by {
                assert(before.of(c).well_formed());
                if c != component_id {
                    assert(self.of(c) == before.of(c));
                }
            }
        }
        row
    }

    /// How many entities have a row for a component type.
    pub fn live_count(&self, component_id: ComponentId) -> (n: u32)
        requires
            self.well_formed(),
        ensures
            n == self.of(component_id).rows.dom().len(),
    {
        proof {
            assert(self.of(component_id).well_formed());
            lemma_live_within_span(self.of(component_id));
        }
        let at: usize = component_id.0 as usize;
        if at < self.components.len() {
            match &self.components[at] {
                Some(rows) => {
                    proof {
                        lemma_key_count(row_entries(rows.by_entity), rows@.rows);
                    }
                    row_index_len(&rows.by_entity) as u32
                },
                None => 0,
            }
        } else {
            0
        }
    }

    /// How many rows the span of a component type has.
    pub fn row_span(&self, component_id: ComponentId) -> (n: u32)
        requires
            self.well_formed(),
        ensures
            n == self.of(component_id).occupied.len(),
    {
        proof {
            assert(self.of(component_id).well_formed());
        }
        let at: usize = component_id.0 as usize;
        if at < self.components.len() {
            match &self.components[at] {
                Some(rows) => rows.occupied_rows.len() as u32,
                None => 0,
            }
        } else {
            0
        }
    }
}

} // verus!
