//! The entity store: slots, archetype tables and the moves between them.

use vstd::prelude::*;
use crate::archetype::{ascending, lemma_index_of, lemma_raw_ids_injective, raw_ids, swap_source, zip_row, Archetype, ArchetypeId, ArchetypeKey};
use crate::component::ComponentId;
use crate::entity::{lemma_entity_parts, Entity, EntitySlot, DEAD_ROW, RETIRED_GENERATION};
use crate::hash_index::{key_entries, key_index_get, key_index_insert, key_index_new, KeyIndex};

verus! {

/// Owns all entities, their component values and the archetype tables.
///
/// A world stands for a map from its live entities to their components, which
/// is its view. `V` is the type of a component value; a component type is
/// named by its [`ComponentId`].
pub struct World<V> {
    pub entity_slots: Vec<EntitySlot>,
    pub free_slots: Vec<u32>,
    pub archetypes: Vec<Archetype<V>>,
    pub archetype_index: KeyIndex,
}

impl<V> View for World<V> {
    type V = Map<Entity, Map<ComponentId, V>>;

    open spec fn view(&self) -> Map<Entity, Map<ComponentId, V>> {
        Map::new(|e: Entity| self.alive(e), |e: Entity| self.components_of(e))
    }
}

impl<V> World<V> {
    /// The handle's slot exists, is occupied and has the handle's generation.
    pub open spec fn alive(&self, e: Entity) -> bool {
        &&& e.index() < self.entity_slots@.len()
        &&& self.entity_slots@[e.index() as int].row != DEAD_ROW
        &&& self.entity_slots@[e.index() as int].generation == e.generation()
    }

    /// The components of the entity in slot `e.index()`.
    pub open spec fn components_of(&self, e: Entity) -> Map<ComponentId, V> {
        let slot = self.entity_slots@[e.index() as int];
        self.archetypes@[slot.archetype.0 as int].components(slot.row as int)
    }

    /// The generation of slot `i`; slots that do not exist yet count as fresh.
    pub open spec fn slot_generation(&self, i: int) -> int {
        if 0 <= i < self.entity_slots@.len() {
            self.entity_slots@[i].generation as int
        } else {
            0
        }
    }

    /// An occupied slot points at the row that holds its entity.
    pub open spec fn slot_ok(&self, i: int) -> bool {
        let slot = self.entity_slots@[i];
        slot.row != DEAD_ROW ==> {
            &&& slot.generation != RETIRED_GENERATION
            &&& slot.archetype.0 < self.archetypes@.len()
            &&& slot.row < self.archetypes@[slot.archetype.0 as int].entities@.len()
            &&& self.archetypes@[slot.archetype.0 as int].entities@[slot.row as int] == Entity::new(
                i as u32,
                slot.generation,
            )
        }
    }

    /// A row's entity points back at the row.
    pub open spec fn row_ok(&self, a: int, r: int) -> bool {
        let e = self.archetypes@[a].entities@[r];
        &&& e.index() < self.entity_slots@.len()
        &&& self.entity_slots@[e.index() as int].archetype.0 == a
        &&& self.entity_slots@[e.index() as int].row == r
        &&& self.entity_slots@[e.index() as int].row != DEAD_ROW
    }

    /// Archetype `a` is a well-formed table that knows its own position.
    pub open spec fn archetype_ok(&self, a: int) -> bool {
        &&& self.archetypes@[a].well_formed()
        &&& self.archetypes@[a].id.0 == a
    }

    /// The index finds archetype `a` by its key.
    pub open spec fn indexed(&self, a: int) -> bool {
        let key = raw_ids(self.archetypes@[a].key@);
        &&& key_entries(self.archetype_index).contains_key(key)
        &&& key_entries(self.archetype_index)[key] == a
    }

    /// The archetype list and its index agree, and archetype 0 is the one
    /// without components.
    pub open spec fn archetypes_ok(&self) -> bool {
        &&& 1 <= self.archetypes@.len() <= u32::MAX
        &&& self.archetypes@[0].key@.len() == 0
        &&& forall|a: int| 0 <= a < self.archetypes@.len() ==> #[trigger] self.archetype_ok(a)
        &&& forall|a: int| 0 <= a < self.archetypes@.len() ==> #[trigger] self.indexed(a)
        &&& forall|k: Seq<u32>| #[trigger]
            key_entries(self.archetype_index).contains_key(k) ==> {
                let a = key_entries(self.archetype_index)[k];
                a < self.archetypes@.len() && raw_ids(self.archetypes@[a as int].key@) == k
            }
    }

    /// Slots and rows point at each other.
    pub open spec fn placed(&self) -> bool {
        &&& self.archetypes_ok()
        &&& self.entity_slots@.len() <= u32::MAX
        &&& forall|i: int| 0 <= i < self.entity_slots@.len() ==> #[trigger] self.slot_ok(i)
        &&& forall|a: int, r: int|
            0 <= a < self.archetypes@.len() && 0 <= r < self.archetypes@[a].entities@.len()
                ==> #[trigger] self.row_ok(a, r)
    }

    /// The free list holds, once each, the empty slots that may be used
    /// again, leaving out slot `hole`.
    pub open spec fn free_ok(&self, hole: int) -> bool {
        &&& self.free_slots@.no_duplicates()
        &&& forall|k: int|
            0 <= k < self.free_slots@.len() ==> {
                let i = #[trigger] self.free_slots@[k] as int;
                &&& i != hole
                &&& i < self.entity_slots@.len()
                &&& self.entity_slots@[i].row == DEAD_ROW
                &&& self.entity_slots@[i].generation != RETIRED_GENERATION
            }
        &&& forall|i: int|
            0 <= i < self.entity_slots@.len() && i != hole && (#[trigger] self.entity_slots@[i]).row
                == DEAD_ROW && self.entity_slots@[i].generation != RETIRED_GENERATION
                ==> self.free_slots@.contains(i as u32)
    }

    /// The invariant of every world.
    pub open spec fn well_formed(&self) -> bool {
        &&& self.placed()
        &&& self.free_ok(-1)
    }

    /// There is room for one more entity handle.
    pub open spec fn has_room(&self) -> bool {
        self.free_slots@.len() > 0 || self.entity_slots@.len() < u32::MAX
    }

    /// There is room for one more archetype.
    pub open spec fn has_archetype_room(&self) -> bool {
        self.archetypes@.len() < u32::MAX
    }

    /// A world without entities.
    pub fn new() -> (world: World<V>)
        ensures
            world.well_formed(),
            world@ == Map::<Entity, Map<ComponentId, V>>::empty(),
            world.entity_slots@.len() == 0,
            world.archetypes@.len() == 1,
    {
        let key = ArchetypeKey::empty();
        let raw = key.raw();
        let mut archetype_index = key_index_new();
        key_index_insert(&mut archetype_index, raw, 0);
        let mut archetypes: Vec<Archetype<V>> = Vec::new();
        archetypes.push(Archetype::new(ArchetypeId::empty(), key));
        let world = World {
            entity_slots: Vec::new(),
            free_slots: Vec::new(),
            archetypes,
            archetype_index,
        };
        proof {
            assert(world.archetype_ok(0));
            assert(world.indexed(0));
            assert(world@ =~= Map::<Entity, Map<ComponentId, V>>::empty());
        }
        world
    }

    /// Whether `entity` is alive: its slot exists, is occupied and has not
    /// been recycled since the handle was made.
    pub fn is_alive(&self, entity: Entity) -> (alive: bool)
        ensures
            alive == self.alive(entity),
            alive == self@.contains_key(entity),
    {
        let idx: usize = entity.index() as usize;
        if idx >= self.entity_slots.len() {
            return false;
        }
        let slot = self.entity_slots[idx];
        slot.row != DEAD_ROW && slot.generation == entity.generation()
    }
}

/// In a placed world with an empty slot, no table has as many rows as there
/// are slots.
proof fn lemma_rows_fit<V>(w: World<V>, a: int, hole: int)
    requires
        w.placed(),
        0 <= a < w.archetypes@.len(),
        0 <= hole < w.entity_slots@.len(),
        w.entity_slots@[hole].row == DEAD_ROW,
    ensures
        w.archetypes@[a].entities@.len() < w.entity_slots@.len(),
{
    let entities = w.archetypes@[a].entities@;
    let n = w.entity_slots@.len() as int;
    let s = Seq::new(entities.len(), |r: int| entities[r].index() as int);
    assert forall|r1: int, r2: int| 0 <= r1 < s.len() && 0 <= r2 < s.len() && r1 != r2 implies s[r1]
        != s[r2] by {
        assert(w.row_ok(a, r1));
        assert(w.row_ok(a, r2));
    }
    assert(s.no_duplicates());
    s.unique_seq_to_set();
    let all = vstd::set_lib::set_int_range(0, n);
    vstd::set_lib::lemma_int_range(0, n);
    assert forall|x: int| #[trigger] s.to_set().contains(x) implies all.remove(hole).contains(x) by {
        assert(s.contains(x));
        let r = s.index_of(x);
        assert(s[r] == x);
        assert(w.row_ok(a, r));
    }
    assert(s.to_set().subset_of(all.remove(hole)));
    vstd::set_lib::lemma_len_subset(s.to_set(), all.remove(hole));
}

impl<V> World<V> {
    /// The archetype with the given key, made now if the world has none.
    pub(crate) fn get_or_create_archetype(&mut self, key: ArchetypeKey) -> (id: ArchetypeId)
        requires
            old(self).placed(),
            old(self).has_archetype_room(),
            key.well_formed(),
        ensures
            final(self).placed(),
            final(self).entity_slots == old(self).entity_slots,
            final(self).free_slots == old(self).free_slots,
            final(self)@ == old(self)@,
            id.0 < final(self).archetypes@.len(),
            final(self).archetypes@[id.0 as int].key@ == key@,
            final(self).archetypes@.len() <= old(self).archetypes@.len() + 1,
            old(self).archetypes@.len() <= final(self).archetypes@.len(),
            forall|a: int|
                0 <= a < old(self).archetypes@.len() ==> #[trigger] final(self).archetypes@[a]
                    == old(self).archetypes@[a],
            final(self).archetypes@.len() > old(self).archetypes@.len() ==> id.0
                == old(self).archetypes@.len(),
    {
        let ghost before = *self;
        let raw = key.raw();
        match key_index_get(&self.archetype_index, &raw) {
            Some(id) => {
                proof {
                    lemma_raw_ids_injective(self.archetypes@[id as int].key@, key@);
                }
                ArchetypeId(id)
            },
            None => {
                let id: u32 = self.archetypes.len() as u32;
                let ghost seq = key@;
                let archetype = Archetype::new(ArchetypeId(id), key);
                self.archetypes.push(archetype);
                key_index_insert(&mut self.archetype_index, raw, id);
                proof {
                    assert forall|a: int| 0 <= a < self.archetypes@.len() implies #[trigger] self.archetype_ok(
                        a,
                    ) by {
                        if a < before.archetypes@.len() {
                            assert(before.archetype_ok(a));
                        }
                    }
                    assert forall|a: int| 0 <= a < self.archetypes@.len() implies #[trigger] self.indexed(
                        a,
                    ) by {
                        if a < before.archetypes@.len() {
                            assert(before.indexed(a));
                        }
                    }
                    assert forall|k: Seq<u32>| #[trigger]
                        key_entries(self.archetype_index).contains_key(k) implies {
                        let a = key_entries(self.archetype_index)[k];
                        a < self.archetypes@.len() && raw_ids(self.archetypes@[a as int].key@) == k
                    } by {
                        if k != raw_ids(seq) {
                            assert(key_entries(before.archetype_index).contains_key(k));
                        }
                    }
                    assert forall|i: int| 0 <= i < self.entity_slots@.len() implies #[trigger] self.slot_ok(
                        i,
                    ) by {
                        assert(before.slot_ok(i));
                    }
                    assert forall|a: int, r: int|
                        0 <= a < self.archetypes@.len() && 0 <= r
                            < self.archetypes@[a].entities@.len() implies #[trigger] self.row_ok(a, r) by {
                        if a < before.archetypes@.len() {
                            assert(before.row_ok(a, r));
                        }
                    }
                    assert forall|e: Entity| #[trigger] before.alive(e) implies self.components_of(e)
                        == before.components_of(e) by {
                        assert(before.slot_ok(e.index() as int));
                    }
                    assert(self@ =~= before@);
                }
                ArchetypeId(id)
            },
        }
    }

    /// Takes a live entity out of its table and leaves its slot empty, with
    /// its generation as it was. Returns the table it was in and its values in
    /// the order of that table's key.
    fn detach(&mut self, entity: Entity) -> (out: (ArchetypeId, Vec<V>))
        requires
            old(self).placed(),
            old(self).alive(entity),
        ensures
            final(self).placed(),
            final(self).free_slots == old(self).free_slots,
            final(self).archetype_index == old(self).archetype_index,
            final(self)@ == old(self)@.remove(entity),
            final(self).entity_slots@.len() == old(self).entity_slots@.len(),
            forall|i: int|
                0 <= i < old(self).entity_slots@.len() ==> {
                    &&& (#[trigger] final(self).entity_slots@[i]).generation == old(
                        self,
                    ).entity_slots@[i].generation
                    &&& i != entity.index() ==> (final(self).entity_slots@[i].row == DEAD_ROW <==> old(
                        self,
                    ).entity_slots@[i].row == DEAD_ROW)
                },
            final(self).entity_slots@[entity.index() as int].row == DEAD_ROW,
            final(self).archetypes@.len() == old(self).archetypes@.len(),
            forall|a: int|
                0 <= a < old(self).archetypes@.len() ==> (#[trigger] final(self).archetypes@[a]).key@
                    == old(self).archetypes@[a].key@,
            out.0 == old(self).entity_slots@[entity.index() as int].archetype,
            out.0.0 < old(self).archetypes@.len(),
            out.1@ == old(self).archetypes@[out.0.0 as int].row_values(
                old(self).entity_slots@[entity.index() as int].row as int,
            ),
    {
        let ghost before = *self;
        let idx: usize = entity.index() as usize;
        let slot = self.entity_slots[idx];
        let arch: usize = slot.archetype.0 as usize;
        let row: usize = slot.row as usize;
        proof {
            assert(before.slot_ok(idx as int));
            assert(before.archetype_ok(arch as int));
            lemma_entity_parts(entity, entity.index(), entity.generation());
        }
        let values = self.archetypes[arch].take_row(row);
        let ghost last = (before.archetypes@[arch as int].entities@.len() - 1) as int;
        let ghost mover = before.archetypes@[arch as int].entities@[last];
        proof {
            assert(before.row_ok(arch as int, last));
            assert(before.row_ok(arch as int, row as int));
            assert(before.slot_ok(mover.index() as int));
        }
        if row < self.archetypes[arch].entities.len() {
            let moved = self.archetypes[arch].entities[row];
            let at: usize = moved.index() as usize;
            let mut fixed = self.entity_slots[at];
            fixed.row = row as u32;
            self.entity_slots[at] = fixed;
        }
        let mut emptied = self.entity_slots[idx];
        emptied.row = DEAD_ROW;
        self.entity_slots[idx] = emptied;
        proof {
            let a0 = arch as int;
            assert forall|a: int| 0 <= a < self.archetypes@.len() implies #[trigger] self.archetype_ok(a) by {
                assert(before.archetype_ok(a));
            }
            assert forall|a: int| 0 <= a < self.archetypes@.len() implies #[trigger] self.indexed(a) by {
                assert(before.indexed(a));
            }
            assert forall|k: Seq<u32>| #[trigger]
                key_entries(self.archetype_index).contains_key(k) implies {
                let a = key_entries(self.archetype_index)[k];
                a < self.archetypes@.len() && raw_ids(self.archetypes@[a as int].key@) == k
            } by {
                assert(key_entries(before.archetype_index).contains_key(k));
            }
            assert forall|i: int| 0 <= i < self.entity_slots@.len() implies #[trigger] self.slot_ok(i) by {
                assert(before.slot_ok(i));
                if i != idx && before.entity_slots@[i].row != DEAD_ROW
                    && before.entity_slots@[i].archetype.0 == a0 {
                    let r = before.entity_slots@[i].row as int;
                    lemma_entity_parts(
                        before.archetypes@[a0].entities@[r],
                        i as u32,
                        before.entity_slots@[i].generation,
                    );
                }
            }
            assert forall|a: int, r: int|
                0 <= a < self.archetypes@.len() && 0 <= r < self.archetypes@[a].entities@.len() implies #[trigger] self.row_ok(
                a,
                r,
            ) by {
                if a == a0 {
                    let src = swap_source(last + 1, row as int, r);
                    assert(before.row_ok(a0, src));
                    assert(self.archetypes@[a].entities@[r] == before.archetypes@[a0].entities@[src]);
                    if src != row {
                        assert(before.archetypes@[a0].entities@[src].index() != entity.index());
                    }
                } else {
                    assert(before.row_ok(a, r));
                }
            }
            assert forall|e: Entity|
                (#[trigger] self.alive(e)) == (before.alive(e) && e != entity) by {
                lemma_entity_parts(e, entity.index(), entity.generation());
            }
            assert forall|e: Entity| #[trigger] self.alive(e) implies self.components_of(e)
                == before.components_of(e) by {
                let i = e.index() as int;
                assert(before.slot_ok(i));
                assert(self.slot_ok(i));
                let r = self.entity_slots@[i].row as int;
                let a = self.entity_slots@[i].archetype.0 as int;
                if a == a0 {
                    let src = swap_source(last + 1, row as int, r);
                    assert(self.archetypes@[a].row_values(r) == before.archetypes@[a].row_values(src));
                    if src == last && r == row {
                        assert(before.row_ok(a0, src));
                        assert(mover.index() == i);
                    }
                }
            }
            assert(self@ =~= before@.remove(entity));
        }
        (slot.archetype, values)
    }

    /// Puts `entity`, whose slot is empty, into table `arch` with the given
    /// values in the order of that table's key.
    fn attach(&mut self, entity: Entity, arch: ArchetypeId, values: Vec<V>)
        requires
            old(self).placed(),
            entity.index() < old(self).entity_slots@.len(),
            old(self).entity_slots@[entity.index() as int].row == DEAD_ROW,
            old(self).entity_slots@[entity.index() as int].generation == entity.generation(),
            entity.generation() != RETIRED_GENERATION,
            arch.0 < old(self).archetypes@.len(),
            values@.len() == old(self).archetypes@[arch.0 as int].key@.len(),
        ensures
            final(self).placed(),
            final(self).free_slots == old(self).free_slots,
            final(self)@ == old(self)@.insert(
                entity,
                zip_row(old(self).archetypes@[arch.0 as int].key@, values@),
            ),
            final(self).entity_slots@.len() == old(self).entity_slots@.len(),
            forall|i: int|
                0 <= i < old(self).entity_slots@.len() && i != entity.index()
                    ==> #[trigger] final(self).entity_slots@[i] == old(self).entity_slots@[i],
            final(self).entity_slots@[entity.index() as int].row != DEAD_ROW,
            final(self).entity_slots@[entity.index() as int].generation == entity.generation(),
            final(self).archetypes@.len() == old(self).archetypes@.len(),
            forall|a: int|
                0 <= a < old(self).archetypes@.len() ==> (#[trigger] final(self).archetypes@[a]).key@
                    == old(self).archetypes@[a].key@,
    {
        let ghost before = *self;
        let idx: usize = entity.index() as usize;
        let at: usize = arch.0 as usize;
        proof {
            lemma_rows_fit(*self, at as int, idx as int);
            assert(before.archetype_ok(at as int));
            lemma_entity_parts(entity, entity.index(), entity.generation());
        }
        let row: usize = self.archetypes[at].entities.len();
        self.archetypes[at].push_row(entity, values);
        let filled = EntitySlot {
            generation: entity.generation(),
            archetype: arch,
            row: row as u32,
        };
        self.entity_slots[idx] = filled;
        proof {
            let a0 = at as int;
            assert forall|a: int| 0 <= a < self.archetypes@.len() implies #[trigger] self.archetype_ok(a) by {
                assert(before.archetype_ok(a));
            }
            assert forall|a: int| 0 <= a < self.archetypes@.len() implies #[trigger] self.indexed(a) by {
                assert(before.indexed(a));
            }
            assert forall|k: Seq<u32>| #[trigger]
                key_entries(self.archetype_index).contains_key(k) implies {
                let a = key_entries(self.archetype_index)[k];
                a < self.archetypes@.len() && raw_ids(self.archetypes@[a as int].key@) == k
            } by {
                assert(key_entries(before.archetype_index).contains_key(k));
            }
            assert forall|i: int| 0 <= i < self.entity_slots@.len() implies #[trigger] self.slot_ok(i) by {
                assert(before.slot_ok(i));
            }
            assert forall|a: int, r: int|
                0 <= a < self.archetypes@.len() && 0 <= r < self.archetypes@[a].entities@.len() implies #[trigger] self.row_ok(
                a,
                r,
            ) by {
                if a != a0 || r < row {
                    assert(before.row_ok(a, r));
                }
            }
            assert forall|e: Entity|
                (#[trigger] self.alive(e)) == (before.alive(e) || e == entity) by {
                lemma_entity_parts(e, entity.index(), entity.generation());
            }
            assert forall|e: Entity| #[trigger] self.alive(e) && e != entity implies self.components_of(e)
                == before.components_of(e) by {
                lemma_entity_parts(e, entity.index(), entity.generation());
                assert(before.slot_ok(e.index() as int));
            }
            assert(self@ =~= before@.insert(
                entity,
                zip_row(before.archetypes@[a0].key@, self.archetypes@[a0].row_values(row as int)),
            ));
        }
    }
}

/// Adding one component type and its value to a row.
proof fn lemma_zip_insert<V>(key: Seq<ComponentId>, values: Seq<V>, at: int, cid: ComponentId, value: V)
    requires
        ascending(key),
        ascending(key.insert(at, cid)),
        values.len() == key.len(),
        0 <= at <= key.len(),
        !key.contains(cid),
    ensures
        zip_row(key.insert(at, cid), values.insert(at, value)) == zip_row(key, values).insert(cid, value),
{
    let k2 = key.insert(at, cid);
    let v2 = values.insert(at, value);
    let m1 = zip_row(k2, v2);
    let m2 = zip_row(key, values).insert(cid, value);
    assert(k2[at] == cid);
    lemma_index_of(k2, at);
    assert forall|c: ComponentId| #[trigger] k2.contains(c) <==> (key.contains(c) || c == cid) by {
        if key.contains(c) {
            let j = key.index_of(c);
            let j2 = if j < at { j } else { j + 1 };
            assert(k2[j2] == c);
        }
        if k2.contains(c) {
            let j2 = k2.index_of(c);
            if j2 != at {
                let j = if j2 < at { j2 } else { j2 - 1 };
                assert(key[j] == c);
            }
        }
    }
    assert forall|c: ComponentId| #[trigger] m2.contains_key(c) implies m1[c] == m2[c] by {
        if c != cid {
            let j = key.index_of(c);
            let j2 = if j < at { j } else { j + 1 };
            assert(key[j] == c);
            assert(k2[j2] == c);
            lemma_index_of(k2, j2);
            assert(v2[j2] == values[j]);
        }
    }
    assert(m1 =~= m2);
}

/// Leaving one component type and its value out of a row.
proof fn lemma_zip_remove<V>(key: Seq<ComponentId>, values: Seq<V>, at: int)
    requires
        ascending(key),
        values.len() == key.len(),
        0 <= at < key.len(),
    ensures
        zip_row(key.remove(at), values.remove(at)) == zip_row(key, values).remove(key[at]),
{
    let k2 = key.remove(at);
    let v2 = values.remove(at);
    let m1 = zip_row(k2, v2);
    let m2 = zip_row(key, values).remove(key[at]);
    assert forall|i: int, j: int| 0 <= i < j < k2.len() implies (#[trigger] k2[i]).0 < (#[trigger] k2[j]).0 by {
        let i0 = if i < at { i } else { i + 1 };
        let j0 = if j < at { j } else { j + 1 };
        assert(k2[i] == key[i0] && k2[j] == key[j0]);
    }
    assert forall|c: ComponentId| #[trigger] k2.contains(c) <==> (key.contains(c) && c != key[at]) by {
        if key.contains(c) && c != key[at] {
            let j = key.index_of(c);
            let j2 = if j < at { j } else { j - 1 };
            assert(k2[j2] == c);
        }
        if k2.contains(c) {
            let j2 = k2.index_of(c);
            let j = if j2 < at { j2 } else { j2 + 1 };
            assert(key[j] == c);
            if j < at {
                assert(key[j].0 < key[at].0);
            } else {
                assert(key[at].0 < key[j].0);
            }
        }
    }
    assert forall|c: ComponentId| #[trigger] m2.contains_key(c) implies m1[c] == m2[c] by {
        let j = key.index_of(c);
        assert(key[j] == c);
        let j2 = if j < at { j } else { j - 1 };
        assert(k2[j2] == c);
        lemma_index_of(k2, j2);
        assert(v2[j2] == values[j]);
    }
    assert(m1 =~= m2);
}

/// Replacing one value of a row.
proof fn lemma_zip_update<V>(key: Seq<ComponentId>, values: Seq<V>, at: int, value: V)
    requires
        ascending(key),
        values.len() == key.len(),
        0 <= at < key.len(),
    ensures
        zip_row(key, values.update(at, value)) == zip_row(key, values).insert(key[at], value),
{
    lemma_index_of(key, at);
    let m1 = zip_row(key, values.update(at, value));
    let m2 = zip_row(key, values).insert(key[at], value);
    assert forall|c: ComponentId| #[trigger] m2.contains_key(c) implies m1[c] == m2[c] by {
        let j = key.index_of(c);
        assert(key[j] == c);
    }
    assert(m1 =~= m2);
}

/// The slots of a world: the generation of each, and the free list.
#[verifier::ext_equal]
pub struct SlotsModel {
    pub generations: Seq<u32>,
    pub free: Seq<u32>,
}

impl SlotsModel {
    /// How many slots there are.
    pub open spec fn len(self) -> nat {
        self.generations.len()
    }

    /// The generation of slot `i`; slots that do not exist yet count as fresh.
    pub open spec fn generation(self, i: int) -> int {
        if 0 <= i < self.generations.len() {
            self.generations[i] as int
        } else {
            0
        }
    }

    /// The entity in slot `idx` is gone: the slot moved to the next generation
    /// and became free, unless that generation retires it.
    pub open spec fn despawned(self, idx: u32) -> SlotsModel {
        let next = (self.generations[idx as int] + 1) as u32;
        SlotsModel {
            generations: self.generations.update(idx as int, next),
            free: if next == RETIRED_GENERATION {
                self.free
            } else {
                self.free.push(idx)
            },
        }
    }

    /// Fresh, free slots were added until slot `idx` exists.
    pub open spec fn grown(self, idx: u32) -> SlotsModel {
        if self.len() <= idx {
            let added = (idx + 1 - self.len()) as nat;
            SlotsModel {
                generations: self.generations + Seq::new(added, |i: int| 0u32),
                free: self.free + Seq::new(added, |i: int| (self.len() + i) as u32),
            }
        } else {
            self
        }
    }

    /// Slot `idx` exists and is empty; `occupied` tells whether an entity had to
    /// go for it.
    pub open spec fn vacated(self, idx: u32, occupied: bool) -> SlotsModel {
        if occupied {
            self.grown(idx).despawned(idx)
        } else {
            self.grown(idx)
        }
    }

    /// The empty slot `idx` was taken off the free list, at the given generation.
    pub open spec fn claimed(self, idx: u32, generation: u32) -> SlotsModel {
        SlotsModel {
            generations: self.generations.update(idx as int, generation),
            free: self.free.remove_value(idx),
        }
    }
}

/// Some entity is in slot `idx`.
pub open spec fn slot_in_use<C>(m: Map<Entity, C>, idx: u32) -> bool {
    exists|e: Entity| #[trigger] m.contains_key(e) && e.index() == idx
}

/// The slots after a despawn.
pub(crate) proof fn lemma_despawned_slots<V>(before: World<V>, after: World<V>, e: Entity)
    requires
        before@.contains_key(e),
        World::despawned(&before, &after, e),
    ensures
        after.slots() == before.slots().despawned(e.index()),
{
    assert(before.alive(e));
    assert forall|i: int| 0 <= i < after.slots().len() implies after.slots().generations[i] == #[trigger] before.slots().despawned(
        e.index(),
    ).generations[i] by {
        assert(after.slot_generation(i) == after.slots().generations[i]);
        assert(before.slot_generation(i) == before.slots().generations[i]);
    }
    assert(after.slots() =~= before.slots().despawned(e.index()));
}

impl<V> World<V> {
    /// The slots of this world.
    pub open spec fn slots(&self) -> SlotsModel {
        SlotsModel {
            generations: Seq::new(self.entity_slots@.len(), |i: int| self.entity_slots@[i].generation),
            free: self.free_slots@,
        }
    }
}

impl<V> World<V> {
    /// No slot's generation is lower than it was in `earlier`.
    pub open spec fn generations_advance(earlier: &World<V>, later: &World<V>) -> bool {
        forall|i: int| #[trigger] later.slot_generation(i) >= earlier.slot_generation(i)
    }

    /// The slot has moved past the generation of the handle.
    pub open spec fn expired(&self, e: Entity) -> bool {
        self.slot_generation(e.index() as int) > e.generation()
    }

    /// `after` is `before` with the new entity `e` in it, in the most recently
    /// freed slot if there is one and in a new slot otherwise.
    pub open spec fn spawned(before: &World<V>, after: &World<V>, e: Entity) -> bool {
        &&& !before@.contains_key(e)
        &&& after@ == before@.insert(e, Map::<ComponentId, V>::empty())
        &&& e.generation() == before.slot_generation(e.index() as int)
        &&& e.generation() != RETIRED_GENERATION
        &&& before.free_slots@.len() > 0 ==> {
            &&& e.index() == before.free_slots@.last()
            &&& after.free_slots@ == before.free_slots@.drop_last()
            &&& after.entity_slots@.len() == before.entity_slots@.len()
        }
        &&& before.free_slots@.len() == 0 ==> {
            &&& e.index() == before.entity_slots@.len()
            &&& after.free_slots@.len() == 0
            &&& after.entity_slots@.len() == before.entity_slots@.len() + 1
        }
        &&& forall|i: int| #[trigger] after.slot_generation(i) == before.slot_generation(i)
        &&& after.archetypes@.len() == before.archetypes@.len()
    }

    /// `after` is `before` without the entity `e`, whose slot moved to the
    /// next generation and became free, unless that generation retires it.
    pub open spec fn despawned(before: &World<V>, after: &World<V>, e: Entity) -> bool {
        let idx = e.index() as int;
        &&& after@ == before@.remove(e)
        &&& after.slot_generation(idx) == e.generation() + 1
        &&& forall|i: int| i != idx ==> #[trigger] after.slot_generation(i) == before.slot_generation(i)
        &&& after.free_slots@ == (if e.generation() + 1 == RETIRED_GENERATION {
            before.free_slots@
        } else {
            before.free_slots@.push(e.index())
        })
        &&& after.entity_slots@.len() == before.entity_slots@.len()
        &&& after.archetypes@.len() == before.archetypes@.len()
    }

    /// `after` has the same slots as `before`, at the same generations, and at
    /// most one archetype more.
    pub open spec fn slots_kept(before: &World<V>, after: &World<V>) -> bool {
        &&& after.free_slots@ == before.free_slots@
        &&& after.entity_slots@.len() == before.entity_slots@.len()
        &&& forall|i: int| #[trigger] after.slot_generation(i) == before.slot_generation(i)
        &&& after.archetypes@.len() <= before.archetypes@.len() + 1
    }

    /// `after` has the same entities with the same components as `before`, in the
    /// same slots and in the same rows of the same tables.
    pub open spec fn tables_kept(before: &World<V>, after: &World<V>) -> bool {
        &&& after@ == before@
        &&& after.entity_slots@ == before.entity_slots@
        &&& after.free_slots@ == before.free_slots@
        &&& after.archetype_index == before.archetype_index
        &&& after.archetypes@.len() == before.archetypes@.len()
        &&& forall|a: int|
            0 <= a < before.archetypes@.len() ==> {
                &&& (#[trigger] after.archetypes@[a]).id == before.archetypes@[a].id
                &&& after.archetypes@[a].key == before.archetypes@[a].key
                &&& after.archetypes@[a].entities@ == before.archetypes@[a].entities@
                &&& after.archetypes@[a].columns == before.archetypes@[a].columns
            }
    }

    /// Makes room for `count` more entities ahead of a batch of spawns. Every
    /// slot, and every row of every table, stays where it is.
    pub fn reserve_entities(&mut self, count: u32)
        requires
            old(self).well_formed(),
        ensures
            final(self).well_formed(),
            World::tables_kept(old(self), final(self)),
    {
        let ghost before = *self;
        self.entity_slots.reserve(count as usize);
        self.archetypes[0].entities.reserve(count as usize);
        proof {
            assert forall|a: int| 0 <= a < self.archetypes@.len() implies #[trigger] self.archetype_ok(a) by {
                assert(before.archetype_ok(a));
            }
            assert forall|a: int| 0 <= a < self.archetypes@.len() implies #[trigger] self.indexed(a) by {
                assert(before.indexed(a));
            }
            assert forall|i: int| 0 <= i < self.entity_slots@.len() implies #[trigger] self.slot_ok(i) by {
                assert(before.slot_ok(i));
            }
            assert forall|a: int, r: int|
                0 <= a < self.archetypes@.len() && 0 <= r < self.archetypes@[a].entities@.len() implies #[trigger] self.row_ok(
                a,
                r,
            ) by {
                assert(before.row_ok(a, r));
            }
            assert forall|e: Entity| #[trigger] self.alive(e) implies self.components_of(e)
                == before.components_of(e) by {
                assert(before.slot_ok(e.index() as int));
                let slot = self.entity_slots@[e.index() as int];
                assert(self.archetypes@[slot.archetype.0 as int].row_values(slot.row as int)
                    =~= before.archetypes@[slot.archetype.0 as int].row_values(slot.row as int));
            }
            assert(self@ =~= before@);
        }
    }

    /// Makes a new entity without components.
    ///
    /// Takes the most recently freed slot if there is one, at the generation
    /// that its last despawn left, and a new slot otherwise.
    pub fn spawn(&mut self) -> (entity: Entity)
        requires
            old(self).well_formed(),
            old(self).has_room(),
        ensures
            final(self).well_formed(),
            World::spawned(old(self), final(self), entity),
            !old(self)@.contains_key(entity),
            final(self)@ == old(self)@.insert(entity, Map::<ComponentId, V>::empty()),
    {
        let ghost before = *self;
        let entity = match self.free_slots.pop() {
            Some(idx) => {
                proof {
                    let k = before.free_slots@.len() - 1;
                    assert(before.free_slots@[k] == idx);
                    assert(before.entity_slots@[idx as int].row == DEAD_ROW);
                }
                Entity::new(idx, self.entity_slots[idx as usize].generation)
            },
            None => {
                let idx: u32 = self.entity_slots.len() as u32;
                self.entity_slots.push(EntitySlot::empty(0));
                Entity::new(idx, 0)
            },
        };
        let ghost mid = *self;
        proof {
            assert forall|i: int| 0 <= i < self.entity_slots@.len() implies #[trigger] self.slot_ok(i) by {
                if i < before.entity_slots@.len() {
                    assert(before.slot_ok(i));
                }
            }
            assert forall|a: int| 0 <= a < self.archetypes@.len() implies #[trigger] self.archetype_ok(a) by {
                assert(before.archetype_ok(a));
            }
            assert forall|a: int| 0 <= a < self.archetypes@.len() implies #[trigger] self.indexed(a) by {
                assert(before.indexed(a));
            }
            assert forall|a: int, r: int|
                0 <= a < self.archetypes@.len() && 0 <= r < self.archetypes@[a].entities@.len() implies #[trigger] self.row_ok(
                a,
                r,
            ) by {
                assert(before.row_ok(a, r));
            }
            assert forall|e: Entity| (#[trigger] self.alive(e)) == before.alive(e) by {}
            assert forall|e: Entity| #[trigger] before.alive(e) implies self.components_of(e)
                == before.components_of(e) by {
                assert(before.slot_ok(e.index() as int));
            }
            assert(self@ =~= before@);
        }
        self.attach(entity, ArchetypeId::empty(), Vec::new());
        proof {
            let idx = entity.index() as int;
            assert(zip_row(before.archetypes@[0].key@, Seq::<V>::empty()) =~= Map::<ComponentId, V>::empty());
            assert forall|i: int|
                0 <= i < self.entity_slots@.len() && i != -1 && (#[trigger] self.entity_slots@[i]).row
                    == DEAD_ROW && self.entity_slots@[i].generation != RETIRED_GENERATION implies self.free_slots@.contains(
                i as u32,
            ) by {
                assert(i != idx);
                assert(mid.entity_slots@[i] == self.entity_slots@[i]);
                assert(before.entity_slots@[i] == self.entity_slots@[i]);
                assert(before.free_slots@.contains(i as u32));
                let k = before.free_slots@.index_of(i as u32);
                assert(before.free_slots@[k] == i as u32);
                if k == before.free_slots@.len() - 1 {
                    assert(idx == i);
                }
                assert(self.free_slots@[k] == i as u32);
            }
            assert forall|k: int| 0 <= k < self.free_slots@.len() implies {
                let i = #[trigger] self.free_slots@[k] as int;
                &&& i != -1
                &&& i < self.entity_slots@.len()
                &&& self.entity_slots@[i].row == DEAD_ROW
                &&& self.entity_slots@[i].generation != RETIRED_GENERATION
            } by {
                assert(before.free_slots@[k] == self.free_slots@[k]);
                let i = before.free_slots@[k] as int;
                if before.free_slots@.len() > 0 {
                    let last = before.free_slots@.len() - 1;
                    assert(before.free_slots@[last] != before.free_slots@[k]);
                }
                assert(mid.entity_slots@[i] == before.entity_slots@[i]);
                assert(i != idx);
            }
        }
        entity
    }

    /// Removes an entity and all its components. Returns whether it was alive.
    ///
    /// The slot moves to the next generation and becomes free, unless that
    /// generation is the one that retires it.
    pub fn despawn(&mut self, entity: Entity) -> (removed: bool)
        requires
            old(self).well_formed(),
        ensures
            final(self).well_formed(),
            removed == old(self)@.contains_key(entity),
            removed ==> World::despawned(old(self), final(self), entity),
            !removed ==> *final(self) == *old(self),
            final(self)@ == old(self)@.remove(entity),
    {
        let ghost before = *self;
        if !self.is_alive(entity) {
            proof {
                assert(self@ =~= self@.remove(entity));
            }
            return false;
        }
        let idx: usize = entity.index() as usize;
        proof {
            assert(before.slot_ok(idx as int));
        }
        self.detach(entity);
        let ghost mid = *self;
        let mut slot = self.entity_slots[idx];
        slot.generation = slot.generation + 1;
        let generation: u32 = slot.generation;
        self.entity_slots[idx] = slot;
        if generation != RETIRED_GENERATION {
            self.free_slots.push(entity.index());
        }
        proof {
            assert forall|i: int| 0 <= i < self.entity_slots@.len() implies #[trigger] self.slot_ok(i) by {
                assert(mid.slot_ok(i));
            }
            assert forall|a: int| 0 <= a < self.archetypes@.len() implies #[trigger] self.archetype_ok(a) by {
                assert(mid.archetype_ok(a));
            }
            assert forall|a: int| 0 <= a < self.archetypes@.len() implies #[trigger] self.indexed(a) by {
                assert(mid.indexed(a));
            }
            assert forall|a: int, r: int|
                0 <= a < self.archetypes@.len() && 0 <= r < self.archetypes@[a].entities@.len() implies #[trigger] self.row_ok(
                a,
                r,
            ) by {
                assert(mid.row_ok(a, r));
            }
            assert forall|e: Entity| (#[trigger] self.alive(e)) == mid.alive(e) by {}
            assert(self@ =~= mid@);
            assert forall|k: int| 0 <= k < self.free_slots@.len() implies {
                let i = #[trigger] self.free_slots@[k] as int;
                &&& i != -1
                &&& i < self.entity_slots@.len()
                &&& self.entity_slots@[i].row == DEAD_ROW
                &&& self.entity_slots@[i].generation != RETIRED_GENERATION
            } by {
                if k < before.free_slots@.len() {
                    assert(before.free_slots@[k] == self.free_slots@[k]);
                    let i = before.free_slots@[k] as int;
                    assert(mid.entity_slots@[i].generation == before.entity_slots@[i].generation);
                }
            }
            assert forall|i: int|
                0 <= i < self.entity_slots@.len() && i != -1 && (#[trigger] self.entity_slots@[i]).row
                    == DEAD_ROW && self.entity_slots@[i].generation != RETIRED_GENERATION implies self.free_slots@.contains(
                i as u32,
            ) by {
                if i == idx {
                    assert(self.free_slots@[self.free_slots@.len() - 1] == i as u32);
                } else {
                    assert(mid.entity_slots@[i].generation == before.entity_slots@[i].generation);
                    assert(before.entity_slots@[i].row == DEAD_ROW);
                    assert(before.free_slots@.contains(i as u32));
                    let k = before.free_slots@.index_of(i as u32);
                    assert(self.free_slots@[k] == i as u32);
                }
            }
            assert forall|i: int| i != idx implies #[trigger] self.slot_generation(i)
                == before.slot_generation(i) by {
                if 0 <= i < self.entity_slots@.len() {
                    assert(mid.entity_slots@[i].generation == before.entity_slots@[i].generation);
                }
            }
            assert(self.free_slots@.no_duplicates()) by {
                if generation != RETIRED_GENERATION {
                    assert forall|k: int| 0 <= k < before.free_slots@.len() implies before.free_slots@[k]
                        != entity.index() by {
                        let i = before.free_slots@[k] as int;
                        assert(before.entity_slots@[i].row == DEAD_ROW);
                    }
                }
            }
        }
        true
    }

    /// Gives a live entity the component `cid` with `value`, replacing the
    /// value it had, if any. All its other components keep their values.
    pub fn insert(&mut self, entity: Entity, cid: ComponentId, value: V)
        requires
            old(self).well_formed(),
            old(self)@.contains_key(entity),
            !old(self)@[entity].contains_key(cid) ==> old(self).has_archetype_room(),
        ensures
            final(self).well_formed(),
            final(self)@ == old(self)@.insert(entity, old(self)@[entity].insert(cid, value)),
            World::slots_kept(old(self), final(self)),
    {
        let ghost before = *self;
        let idx: usize = entity.index() as usize;
        let slot = self.entity_slots[idx];
        let arch: usize = slot.archetype.0 as usize;
        let row: usize = slot.row as usize;
        proof {
            assert(before.slot_ok(idx as int));
            assert(before.archetype_ok(arch as int));
        }
        match self.archetypes[arch].key.position(cid) {
            Some(at) => {
                self.archetypes[arch].columns[at][row] = value;
                proof {
                    let a0 = arch as int;
                    assert(self.archetypes@[a0].row_values(row as int)
                        =~= before.archetypes@[a0].row_values(row as int).update(at as int, value));
                    lemma_zip_update(
                        before.archetypes@[a0].key@,
                        before.archetypes@[a0].row_values(row as int),
                        at as int,
                        value,
                    );
                    assert forall|a: int| 0 <= a < self.archetypes@.len() implies (
                    #[trigger] self.archetypes@[a]).well_formed() by {
                        assert(before.archetype_ok(a));
                    }
                    lemma_same_tables(before, *self);
                    assert forall|e: Entity| #[trigger] self.alive(e) && e != entity implies self.components_of(
                        e,
                    ) == before.components_of(e) by {
                        lemma_entity_parts(e, entity.index(), entity.generation());
                        assert(before.slot_ok(e.index() as int));
                        let s = before.entity_slots@[e.index() as int];
                        if s.archetype.0 == a0 && s.row == row {
                            assert(before.row_ok(a0, row as int));
                            lemma_entity_parts(
                                before.archetypes@[a0].entities@[row as int],
                                e.index(),
                                e.generation(),
                            );
                        }
                        assert(self.archetypes@[s.archetype.0 as int].row_values(s.row as int)
                            =~= before.archetypes@[s.archetype.0 as int].row_values(s.row as int));
                    }
                    assert(self@ =~= before@.insert(entity, before@[entity].insert(cid, value)));
                }
            },
            None => {
                let key = self.archetypes[arch].key.with(cid);
                let at: usize = match key.position(cid) {
                    Some(at) => at,
                    None => {
                        proof {
                            assert(key@.to_set().contains(cid));
                        }
                        0
                    },
                };
                let ghost old_key = before.archetypes@[arch as int].key@;
                proof {
                    let p = choose|p: int|
                        0 <= p <= old_key.len() && key@ == #[trigger] old_key.insert(p, cid);
                    assert(key@[p] == cid);
                    lemma_index_of(key@, p);
                    assert(p == at);
                }
                let target = self.get_or_create_archetype(key);
                let ghost mid = *self;
                proof {
                    assert(mid.alive(entity));
                }
                let (_, mut values) = self.detach(entity);
                proof {
                    assert(mid.archetypes@[arch as int] == before.archetypes@[arch as int]);
                    assert(values@ == before.archetypes@[arch as int].row_values(row as int));
                    lemma_zip_insert(old_key, values@, at as int, cid, value);
                }
                values.insert(at, value);
                self.attach(entity, target, values);
                proof {
                    assert(self@ =~= before@.insert(entity, before@[entity].insert(cid, value)));
                    lemma_free_kept(before, *self, entity.index() as int);
                }
            },
        }
    }

    /// Takes the component `cid` from an entity and returns its value. The
    /// entity keeps all its other components. Returns `None`, and changes
    /// nothing, if the entity is dead or lacks the component.
    pub fn remove(&mut self, entity: Entity, cid: ComponentId) -> (removed: Option<V>)
        requires
            old(self).well_formed(),
            old(self)@.contains_key(entity) && old(self)@[entity].contains_key(cid) ==> old(self).has_archetype_room(),
        ensures
            final(self).well_formed(),
            removed is Some <==> old(self)@.contains_key(entity) && old(self)@[entity].contains_key(cid),
            removed matches Some(v) ==> {
                &&& v == old(self)@[entity][cid]
                &&& final(self)@ == old(self)@.insert(entity, old(self)@[entity].remove(cid))
            },
            removed is None ==> *final(self) == *old(self),
            World::slots_kept(old(self), final(self)),
    {
        let ghost before = *self;
        if !self.is_alive(entity) {
            return None;
        }
        let idx: usize = entity.index() as usize;
        let slot = self.entity_slots[idx];
        let arch: usize = slot.archetype.0 as usize;
        let ghost row = slot.row as int;
        proof {
            assert(before.slot_ok(idx as int));
            assert(before.archetype_ok(arch as int));
        }
        let at: usize = match self.archetypes[arch].key.position(cid) {
            Some(at) => at,
            None => {
                return None;
            },
        };
        let key = self.archetypes[arch].key.without(cid);
        let ghost old_key = before.archetypes@[arch as int].key@;
        let target = self.get_or_create_archetype(key);
        let ghost mid = *self;
        proof {
            assert(mid.alive(entity));
        }
        let (_, mut values) = self.detach(entity);
        proof {
            assert(mid.archetypes@[arch as int] == before.archetypes@[arch as int]);
            assert(values@ == before.archetypes@[arch as int].row_values(row));
            lemma_zip_remove(old_key, values@, at as int);
        }
        let value = values.remove(at);
        self.attach(entity, target, values);
        proof {
            assert(self@ =~= before@.insert(entity, before@[entity].remove(cid)));
            lemma_free_kept(before, *self, entity.index() as int);
        }
        Some(value)
    }

    /// The component `cid` of `entity`, if it is alive and has it.
    pub fn get(&self, entity: Entity, cid: ComponentId) -> (found: Option<&V>)
        requires
            self.well_formed(),
        ensures
            found is Some <==> self@.contains_key(entity) && self@[entity].contains_key(cid),
            found matches Some(v) ==> *v == self@[entity][cid],
    {
        if !self.is_alive(entity) {
            return None;
        }
        let slot = self.entity_slots[entity.index() as usize];
        let arch: usize = slot.archetype.0 as usize;
        proof {
            assert(self.slot_ok(entity.index() as int));
            assert(self.archetype_ok(arch as int));
        }
        match self.archetypes[arch].key.position(cid) {
            Some(at) => Some(&self.archetypes[arch].columns[at][slot.row as usize]),
            None => None,
        }
    }
}

impl<V> World<V> {
    /// The component `cid` of `entity`, for changing it in place, if the
    /// entity is alive and has it.
    pub fn get_mut(&mut self, entity: Entity, cid: ComponentId) -> (found: Option<&mut V>)
        requires
            old(self).well_formed(),
        ensures
            found is Some <==> old(self)@.contains_key(entity) && old(self)@[entity].contains_key(cid),
            found matches Some(v) ==> {
                &&& *v == old(self)@[entity][cid]
                &&& final(self).well_formed()
                &&& final(self)@ == old(self)@.insert(entity, old(self)@[entity].insert(cid, *final(v)))
                &&& final(self).entity_slots == old(self).entity_slots
                &&& final(self).free_slots == old(self).free_slots
                &&& final(self).archetypes@.len() == old(self).archetypes@.len()
                &&& forall|a: int|
                    0 <= a < old(self).archetypes@.len() ==> {
                        &&& (#[trigger] final(self).archetypes@[a]).key == old(self).archetypes@[a].key
                        &&& final(self).archetypes@[a].entities == old(self).archetypes@[a].entities
                    }
            },
            found is None ==> *final(self) == *old(self),
    {
        let ghost before = *self;
        if !self.is_alive(entity) {
            return None;
        }
        let slot = self.entity_slots[entity.index() as usize];
        let arch: usize = slot.archetype.0 as usize;
        let row: usize = slot.row as usize;
        proof {
            assert(self.slot_ok(entity.index() as int));
            assert(self.archetype_ok(arch as int));
        }
        match self.archetypes[arch].key.position(cid) {
            Some(at) => {
                let value = &mut self.archetypes[arch].columns[at][row];
                proof {
                    let after = *after_borrow(self);
                    let v = *final(value);
                    let a0 = arch as int;
                    assert(after.archetypes@[a0].row_values(row as int)
                        =~= before.archetypes@[a0].row_values(row as int).update(at as int, v));
                    lemma_zip_update(
                        before.archetypes@[a0].key@,
                        before.archetypes@[a0].row_values(row as int),
                        at as int,
                        v,
                    );
                    assert forall|a: int| 0 <= a < after.archetypes@.len() implies (
                    #[trigger] after.archetypes@[a]).well_formed() by {
                        assert(before.archetype_ok(a));
                    }
                    lemma_same_tables(before, after);
                    assert forall|e: Entity| #[trigger] after.alive(e) && e != entity implies after.components_of(
                        e,
                    ) == before.components_of(e) by {
                        lemma_entity_parts(e, entity.index(), entity.generation());
                        assert(before.slot_ok(e.index() as int));
                        let s = before.entity_slots@[e.index() as int];
                        if s.archetype.0 == a0 && s.row == row {
                            assert(before.row_ok(a0, row as int));
                            lemma_entity_parts(
                                before.archetypes@[a0].entities@[row as int],
                                e.index(),
                                e.generation(),
                            );
                        }
                        assert(after.archetypes@[s.archetype.0 as int].row_values(s.row as int)
                            =~= before.archetypes@[s.archetype.0 as int].row_values(s.row as int));
                    }
                    assert(after@ =~= before@.insert(entity, before@[entity].insert(cid, v)));
                }
                Some(value)
            },
            None => None,
        }
    }
}

impl<V> World<V> {
    /// Whether every column of every archetype has a value for each entity in
    /// it. It is so of every world that the operations here make.
    pub fn assert_archetype_consistency(&self) -> (consistent: bool)
        ensures
            consistent == forall|a: int, c: int|
                0 <= a < self.archetypes@.len() && 0 <= c < self.archetypes@[a].columns@.len()
                    ==> #[trigger] self.archetypes@[a].columns@[c]@.len() == self.archetypes@[a].entities@.len(),
            self.well_formed() ==> consistent,
    {
        let mut a: usize = 0;
        while a < self.archetypes.len()
            invariant
                a <= self.archetypes@.len(),
                forall|b: int, c: int|
                    0 <= b < a && 0 <= c < self.archetypes@[b].columns@.len()
                        ==> #[trigger] self.archetypes@[b].columns@[c]@.len() == self.archetypes@[b].entities@.len(),
            decreases self.archetypes@.len() - a,
        {
            let arch = &self.archetypes[a];
            let mut c: usize = 0;
            while c < arch.columns.len()
                invariant
                    a < self.archetypes@.len(),
                    *arch == self.archetypes@[a as int],
                    c <= arch.columns@.len(),
                    forall|b: int, d: int|
                        0 <= b < a && 0 <= d < self.archetypes@[b].columns@.len()
                            ==> #[trigger] self.archetypes@[b].columns@[d]@.len()
                            == self.archetypes@[b].entities@.len(),
                    forall|d: int|
                        0 <= d < c ==> #[trigger] self.archetypes@[a as int].columns@[d]@.len()
                            == arch.entities@.len(),
                decreases arch.columns@.len() - c,
            {
                if arch.columns[c].len() != arch.entities.len() {
                    proof {
                        assert(self.archetypes@[a as int].columns@[c as int]@.len() != arch.entities@.len());
                        if self.well_formed() {
                            assert(self.archetype_ok(a as int));
                        }
                    }
                    return false;
                }
                c = c + 1;
            }
            a = a + 1;
        }
        true
    }
}

impl<V> Default for World<V> {
    fn default() -> (w: World<V>)
        ensures
            w.well_formed(),
            w@ == Map::<Entity, Map<ComponentId, V>>::empty(),
    {
        World::new()
    }
}

/// The entries of `m` whose entity is not in slot `idx`.
pub open spec fn without_slot<C>(m: Map<Entity, C>, idx: u32) -> Map<Entity, C> {
    Map::new(|e: Entity| m.contains_key(e) && e.index() != idx, |e: Entity| m[e])
}

/// How many slots one replicated spawn may add, so that an index from the
/// wire cannot force a huge allocation.
pub const MAX_SLOT_GROWTH_PER_SPAWN: u32 = 0x10_0000;

impl<V> World<V> {
    /// Whether an entity with this handle may be placed from outside: its
    /// generation is not the retired one and its slot exists or is near.
    pub open spec fn placeable(&self, e: Entity) -> bool {
        &&& e.generation() != RETIRED_GENERATION
        &&& e.index() < u32::MAX
        &&& e.index() <= self.entity_slots@.len() + MAX_SLOT_GROWTH_PER_SPAWN
    }

    /// Whether an entity with this handle may be placed from outside.
    pub(crate) fn is_placeable(&self, entity: Entity) -> (yes: bool)
        ensures
            yes == self.placeable(entity),
    {
        let idx: usize = entity.index() as usize;
        entity.generation() != RETIRED_GENERATION && entity.index() != u32::MAX && !(idx > self.entity_slots.len()
            && idx - self.entity_slots.len() > MAX_SLOT_GROWTH_PER_SPAWN as usize)
    }

    /// Adds free slots until slot `idx` exists.
    fn grow_slots(&mut self, idx: u32)
        requires
            old(self).well_formed(),
            idx < u32::MAX,
        ensures
            final(self).well_formed(),
            final(self)@ == old(self)@,
            final(self).entity_slots@.len() == (if old(self).entity_slots@.len() <= idx {
                idx + 1
            } else {
                old(self).entity_slots@.len() as int
            }),
            forall|i: int| #[trigger] final(self).slot_generation(i) == old(self).slot_generation(i),
            final(self).slots() == old(self).slots().grown(idx),
            final(self).archetypes@ == old(self).archetypes@,
            final(self).archetype_index == old(self).archetype_index,
    {
        let ghost first = *self;
        while self.entity_slots.len() <= idx as usize
            invariant
                first == *old(self),
                self.free_slots@ == first.free_slots@ + Seq::new(
                    (self.entity_slots@.len() - first.entity_slots@.len()) as nat,
                    |i: int| (first.entity_slots@.len() + i) as u32,
                ),
                self.well_formed(),
                idx < u32::MAX,
                self@ == first@,
                self.archetypes == first.archetypes,
                self.archetype_index == first.archetype_index,
                first.entity_slots@.len() <= self.entity_slots@.len(),
                self.entity_slots@.len() <= idx + 1 || self.entity_slots@.len()
                    == first.entity_slots@.len(),
                forall|i: int| #[trigger] self.slot_generation(i) == first.slot_generation(i),
            decreases idx + 1 - self.entity_slots@.len(),
        {
            let ghost before = *self;
            let added: u32 = self.entity_slots.len() as u32;
            self.entity_slots.push(EntitySlot::empty(0));
            self.free_slots.push(added);
            proof {
                assert forall|i: int| 0 <= i < self.entity_slots@.len() implies #[trigger] self.slot_ok(i) by {
                    if i < added {
                        assert(before.slot_ok(i));
                    }
                }
                assert forall|a: int| 0 <= a < self.archetypes@.len() implies #[trigger] self.archetype_ok(a) by {
                    assert(before.archetype_ok(a));
                }
                assert forall|a: int| 0 <= a < self.archetypes@.len() implies #[trigger] self.indexed(a) by {
                    assert(before.indexed(a));
                }
                assert forall|a: int, r: int|
                    0 <= a < self.archetypes@.len() && 0 <= r
                        < self.archetypes@[a].entities@.len() implies #[trigger] self.row_ok(a, r) by {
                    assert(before.row_ok(a, r));
                }
                assert forall|e: Entity| (#[trigger] self.alive(e)) == before.alive(e) by {}
                assert forall|e: Entity| #[trigger] before.alive(e) implies self.components_of(e)
                    == before.components_of(e) by {
                    assert(before.slot_ok(e.index() as int));
                }
                assert(self@ =~= before@);
                assert forall|k: int| 0 <= k < self.free_slots@.len() implies {
                    let i = #[trigger] self.free_slots@[k] as int;
                    &&& i != -1
                    &&& i < self.entity_slots@.len()
                    &&& self.entity_slots@[i].row == DEAD_ROW
                    &&& self.entity_slots@[i].generation != RETIRED_GENERATION
                } by {
                    if k < before.free_slots@.len() {
                        assert(before.free_slots@[k] == self.free_slots@[k]);
                        let i = before.free_slots@[k] as int;
                        assert(before.entity_slots@[i] == self.entity_slots@[i]);
                    }
                }
                assert forall|i: int|
                    0 <= i < self.entity_slots@.len() && i != -1 && (#[trigger] self.entity_slots@[i]).row
                        == DEAD_ROW && self.entity_slots@[i].generation != RETIRED_GENERATION implies self.free_slots@.contains(
                    i as u32,
                ) by {
                    if i == added {
                        assert(self.free_slots@[self.free_slots@.len() - 1] == i as u32);
                    } else {
                        assert(before.entity_slots@[i] == self.entity_slots@[i]);
                        let k = before.free_slots@.index_of(i as u32);
                        assert(self.free_slots@[k] == i as u32);
                    }
                }
                assert(self.free_slots@.no_duplicates()) by {
                    assert forall|k: int| 0 <= k < before.free_slots@.len() implies before.free_slots@[k]
                        != added by {
                        let i = before.free_slots@[k] as int;
                        assert(i < before.entity_slots@.len());
                    }
                }
                assert forall|i: int| #[trigger] self.slot_generation(i) == first.slot_generation(i) by {
                    assert(before.slot_generation(i) == first.slot_generation(i));
                }
                assert(self.free_slots@ =~= first.free_slots@ + Seq::new(
                    (self.entity_slots@.len() - first.entity_slots@.len()) as nat,
                    |i: int| (first.entity_slots@.len() + i) as u32,
                ));
            }
        }
        proof {
            let want = first.slots().grown(idx);
            assert forall|i: int| 0 <= i < self.slots().len() implies self.slots().generations[i]
                == #[trigger] want.generations[i] by {
                assert(self.slot_generation(i) == first.slot_generation(i));
            }
            assert(self.slots() =~= want);
        }
    }

    /// Takes slot `idx`, which is empty, off the free list and gives it
    /// generation `generation`.
    fn claim_slot(&mut self, idx: u32, generation: u32)
        requires
            old(self).well_formed(),
            idx < old(self).entity_slots@.len(),
            old(self).entity_slots@[idx as int].row == DEAD_ROW,
        ensures
            final(self).placed(),
            final(self).free_ok(idx as int),
            final(self)@ == old(self)@,
            final(self).entity_slots@.len() == old(self).entity_slots@.len(),
            final(self).entity_slots@[idx as int].row == DEAD_ROW,
            final(self).entity_slots@[idx as int].generation == generation,
            final(self).slots() == old(self).slots().claimed(idx, generation),
            forall|i: int|
                0 <= i < old(self).entity_slots@.len() && i != idx
                    ==> #[trigger] final(self).entity_slots@[i] == old(self).entity_slots@[i],
            final(self).archetypes == old(self).archetypes,
            final(self).archetype_index == old(self).archetype_index,
    {
        let ghost before = *self;
        let mut k: usize = 0;
        while k < self.free_slots.len() && self.free_slots[k] != idx
            invariant
                k <= self.free_slots@.len(),
                *self == before,
                forall|j: int| 0 <= j < k ==> #[trigger] self.free_slots@[j] != idx,
            decreases self.free_slots@.len() - k,
        {
            k = k + 1;
        }
        if k < self.free_slots.len() {
            self.free_slots.remove(k);
        }
        let mut slot = self.entity_slots[idx as usize];
        slot.generation = generation;
        self.entity_slots[idx as usize] = slot;
        proof {
            assert forall|i: int| 0 <= i < self.entity_slots@.len() implies #[trigger] self.slot_ok(i) by {
                assert(before.slot_ok(i));
            }
            assert forall|a: int| 0 <= a < self.archetypes@.len() implies #[trigger] self.archetype_ok(a) by {
                assert(before.archetype_ok(a));
            }
            assert forall|a: int| 0 <= a < self.archetypes@.len() implies #[trigger] self.indexed(a) by {
                assert(before.indexed(a));
            }
            assert forall|a: int, r: int|
                0 <= a < self.archetypes@.len() && 0 <= r < self.archetypes@[a].entities@.len() implies #[trigger] self.row_ok(
                a,
                r,
            ) by {
                assert(before.row_ok(a, r));
            }
            assert forall|e: Entity| (#[trigger] self.alive(e)) == before.alive(e) by {}
            assert forall|e: Entity| #[trigger] before.alive(e) implies self.components_of(e)
                == before.components_of(e) by {
                assert(before.slot_ok(e.index() as int));
            }
            assert(self@ =~= before@);
            before.free_slots@.index_of_first_ensures(idx);
            if k < before.free_slots@.len() {
                assert(before.free_slots@[k as int] == idx);
                assert(before.free_slots@.contains(idx));
            }
            assert(self.slots() =~= before.slots().claimed(idx, generation));
            let n = before.free_slots@.len() as int;
            assert forall|j: int| 0 <= j < self.free_slots@.len() implies {
                let i = #[trigger] self.free_slots@[j] as int;
                &&& i != idx
                &&& i < self.entity_slots@.len()
                &&& self.entity_slots@[i].row == DEAD_ROW
                &&& self.entity_slots@[i].generation != RETIRED_GENERATION
            } by {
                let j0 = if j < k { j } else { j + 1 };
                assert(self.free_slots@[j] == before.free_slots@[j0]);
                if k < n {
                    assert(before.free_slots@[k as int] != before.free_slots@[j0]);
                }
                let i = before.free_slots@[j0] as int;
                assert(before.entity_slots@[i].row == DEAD_ROW);
            }
            assert forall|i: int|
                0 <= i < self.entity_slots@.len() && i != idx && (#[trigger] self.entity_slots@[i]).row
                    == DEAD_ROW && self.entity_slots@[i].generation != RETIRED_GENERATION implies self.free_slots@.contains(
                i as u32,
            ) by {
                assert(before.entity_slots@[i] == self.entity_slots@[i]);
                assert(before.free_slots@.contains(i as u32));
                let j0 = before.free_slots@.index_of(i as u32);
                assert(before.free_slots@[j0] == i as u32);
                let j = if j0 < k { j0 } else { j0 - 1 };
                assert(j0 != k);
                assert(self.free_slots@[j] == i as u32);
            }
            assert(self.free_slots@.no_duplicates()) by {
                assert forall|j1: int, j2: int|
                    0 <= j1 < self.free_slots@.len() && 0 <= j2 < self.free_slots@.len() && j1 != j2 implies self.free_slots@[j1]
                    != self.free_slots@[j2] by {
                    let a = if j1 < k { j1 } else { j1 + 1 };
                    let b = if j2 < k { j2 } else { j2 + 1 };
                    assert(self.free_slots@[j1] == before.free_slots@[a]);
                    assert(self.free_slots@[j2] == before.free_slots@[b]);
                }
            }
        }
    }

    /// Places `entity` at its exact index and generation into the archetype
    /// of `key`, with `values` as its components in the order of the key.
    ///
    /// Handles are shared verbatim between replicated worlds, so whatever
    /// entity is live in that slot is despawned first. `values` is `None` when
    /// the caller has no default value for some component type of the key; the
    /// archetype is then registered but the entity is not placed. Returns
    /// whether the entity was placed.
    pub(crate) fn force_spawn_in_archetype(
        &mut self,
        entity: Entity,
        key: ArchetypeKey,
        values: Option<Vec<V>>,
    ) -> (placed: Option<Entity>)
        requires
            old(self).well_formed(),
            old(self).has_archetype_room(),
            key.well_formed(),
            values matches Some(v) ==> v@.len() == key@.len(),
        ensures
            final(self).well_formed(),
            placed is Some <==> old(self).placeable(entity) && values is Some,
            placed matches Some(e) ==> e == entity,
            !old(self).placeable(entity) ==> *final(self) == *old(self),
            old(self).placeable(entity) ==> final(self)@ == (match values {
                Some(v) => without_slot(old(self)@, entity.index()).insert(entity, zip_row(key@, v@)),
                None => without_slot(old(self)@, entity.index()),
            }),
            old(self).placeable(entity) && values is Some ==> final(self).slot_generation(
                entity.index() as int,
            ) == entity.generation(),
            old(self).placeable(entity) ==> final(self).slots() == ({
                let empty = old(self).slots().vacated(entity.index(), slot_in_use(old(self)@, entity.index()));
                if values is Some {
                    empty.claimed(entity.index(), entity.generation())
                } else {
                    empty
                }
            }),
            forall|i: int|
                i != entity.index() ==> #[trigger] final(self).slot_generation(i) == old(
                    self,
                ).slot_generation(i),
            final(self).entity_slots@.len() == (if old(self).placeable(entity)
                && old(self).entity_slots@.len() <= entity.index() {
                entity.index() + 1
            } else {
                old(self).entity_slots@.len() as int
            }),
            final(self).archetypes@.len() <= old(self).archetypes@.len() + 1,
    {
        let ghost first = *self;
        let idx: u32 = entity.index();
        if !self.is_placeable(entity) {
            return None;
        }
        self.grow_slots(idx);
        let ghost grown = *self;
        let occupant = Entity::new(idx, self.entity_slots[idx as usize].generation);
        let evicted = self.despawn(occupant);
        let ghost cleared = *self;
        proof {
            assert(grown.slot_ok(idx as int));
            assert forall|e: Entity| (#[trigger] grown@.contains_key(e) && e.index() == idx) implies e
                == occupant by {
                lemma_entity_parts(e, occupant.index(), occupant.generation());
            }
            assert(self@ =~= without_slot(first@, idx));
            assert(self.slots() == first.slots().vacated(idx, slot_in_use(first@, idx))) by {
                lemma_entity_parts(occupant, idx, grown.entity_slots@[idx as int].generation);
                if evicted {
                    lemma_despawned_slots(grown, cleared, occupant);
                    assert(first@.contains_key(occupant) && occupant.index() == idx);
                } else {
                    if slot_in_use(first@, idx) {
                        let x = choose|x: Entity| #[trigger] first@.contains_key(x) && x.index() == idx;
                        assert(grown@.contains_key(x));
                    }
                }
            }
            assert(self.entity_slots@[idx as int].row == DEAD_ROW) by {
                if evicted {
                    if self.entity_slots@[idx as int].row != DEAD_ROW {
                        assert(self.slot_ok(idx as int));
                        let again = Entity::new(idx, self.entity_slots@[idx as int].generation);
                        lemma_entity_parts(again, idx, self.entity_slots@[idx as int].generation);
                        assert(self.alive(again));
                        assert(self@.contains_key(again));
                        assert(grown@.contains_key(again));
                    }
                } else {
                    assert(!grown.alive(occupant));
                }
            }
        }
        let target = self.get_or_create_archetype(key);
        assert(self.slots() == cleared.slots());
        match values {
            None => {
                proof {
                    assert forall|i: int| i != idx implies #[trigger] self.slot_generation(i)
                        == first.slot_generation(i) by {
                        assert(grown.slot_generation(i) == first.slot_generation(i));
                        assert(cleared.slot_generation(i) == grown.slot_generation(i));
                    }
                }
                None
            },
            Some(row) => {
                let ghost ready = *self;
                self.claim_slot(idx, entity.generation());
                let ghost claimed = *self;
                self.attach(entity, target, row);
                proof {
                    assert forall|i: int|
                        0 <= i < self.entity_slots@.len() && i != -1 && (
                        #[trigger] self.entity_slots@[i]).row == DEAD_ROW
                            && self.entity_slots@[i].generation != RETIRED_GENERATION implies self.free_slots@.contains(
                        i as u32,
                    ) by {
                        assert(i != idx);
                        assert(claimed.entity_slots@[i] == self.entity_slots@[i]);
                    }
                    assert forall|k: int| 0 <= k < self.free_slots@.len() implies {
                        let i = #[trigger] self.free_slots@[k] as int;
                        &&& i != -1
                        &&& i < self.entity_slots@.len()
                        &&& self.entity_slots@[i].row == DEAD_ROW
                        &&& self.entity_slots@[i].generation != RETIRED_GENERATION
                    } by {
                        let i = claimed.free_slots@[k] as int;
                        assert(claimed.entity_slots@[i].row == DEAD_ROW);
                        assert(self.entity_slots@[i] == claimed.entity_slots@[i]);
                    }
                    assert forall|i: int| i != idx implies #[trigger] self.slot_generation(i)
                        == first.slot_generation(i) by {
                        assert(grown.slot_generation(i) == first.slot_generation(i));
                        assert(cleared.slot_generation(i) == grown.slot_generation(i));
                        if 0 <= i < self.entity_slots@.len() {
                            assert(claimed.entity_slots@[i] == ready.entity_slots@[i]);
                            assert(self.entity_slots@[i] == claimed.entity_slots@[i]);
                        }
                    }
                    assert(self.slots() =~= claimed.slots());
                }
                Some(entity)
            },
        }
    }
}

impl<V> World<V> {
    /// The live entity in a slot, if there is one.
    pub fn occupant(&self, idx: u32) -> (found: Option<Entity>)
        requires
            self.well_formed(),
        ensures
            match found {
                Some(e) => e.index() == idx && self@.contains_key(e) && forall|x: Entity| #[trigger]
                    self@.contains_key(x) && x.index() == idx ==> x == e,
                None => forall|x: Entity| #[trigger] self@.contains_key(x) ==> x.index() != idx,
            },
    {
        if (idx as usize) < self.entity_slots.len() && self.entity_slots[idx as usize].row != DEAD_ROW {
            let generation: u32 = self.entity_slots[idx as usize].generation;
            let e = Entity::new(idx, generation);
            proof {
                assert forall|x: Entity| #[trigger] self@.contains_key(x) && x.index() == idx implies x == e by {
                    lemma_entity_parts(x, idx, generation);
                    lemma_entity_parts(e, idx, generation);
                }
            }
            Some(e)
        } else {
            None
        }
    }
}

impl<V> World<V> {
    /// The component types of a live entity, in ascending order.
    pub open spec fn key_of(&self, e: Entity) -> Seq<ComponentId> {
        self.archetypes@[self.entity_slots@[e.index() as int].archetype.0 as int].key@
    }
}

/// The key of a live entity lists exactly its component types.
pub proof fn lemma_key_of<V>(world: World<V>, e: Entity)
    requires
        world.well_formed(),
        world@.contains_key(e),
    ensures
        ascending(world.key_of(e)),
        world.key_of(e).to_set() == world@[e].dom(),
{
    assert(world.slot_ok(e.index() as int));
    let a = world.entity_slots@[e.index() as int].archetype.0 as int;
    assert(world.archetype_ok(a));
    assert(world.key_of(e).to_set() =~= world@[e].dom());
}

/// A handle whose slot has moved past its generation is not alive.
pub proof fn lemma_expired_is_dead<V>(world: World<V>, e: Entity)
    requires
        world.expired(e),
    ensures
        !world@.contains_key(e),
{
}

/// A despawned handle stays dead: once its slot has moved past its generation,
/// it is not alive in any later world in which the slot has not gone back.
pub proof fn lemma_expired_stays_dead<V>(earlier: World<V>, later: World<V>, e: Entity)
    requires
        earlier.expired(e),
        later.slot_generation(e.index() as int) >= earlier.slot_generation(e.index() as int),
    ensures
        later.expired(e),
        !later@.contains_key(e),
{
}

/// A spawned entity is new, alive and without components, and every other entity is as
/// it was. No slot changes its generation.
pub proof fn lemma_spawn_adds_one<V>(before: World<V>, after: World<V>, e: Entity, x: Entity)
    requires
        World::spawned(&before, &after, e),
    ensures
        !before@.contains_key(e),
        after@.contains_key(e),
        after@[e].dom() == Set::<ComponentId>::empty(),
        x != e ==> (after@.contains_key(x) <==> before@.contains_key(x)),
        x != e && before@.contains_key(x) ==> after@[x] == before@[x],
        !before.expired(e),
        !after.expired(e),
{
}

/// A despawned entity is dead, its handle is expired, and every other entity is as it
/// was.
pub proof fn lemma_despawn_takes_one<V>(before: World<V>, after: World<V>, e: Entity, x: Entity)
    requires
        World::despawned(&before, &after, e),
    ensures
        !after@.contains_key(e),
        after.expired(e),
        x != e ==> (after@.contains_key(x) <==> before@.contains_key(x)),
        x != e && before@.contains_key(x) ==> after@[x] == before@[x],
        x.index() != e.index() ==> (after.expired(x) <==> before.expired(x)),
{
}

/// A handle is not given out again: what is spawned after an entity was despawned has
/// another handle, though it may be in the same slot.
pub proof fn lemma_handles_are_not_reused<V>(before: World<V>, between: World<V>, after: World<V>, e: Entity, f: Entity)
    requires
        World::despawned(&before, &between, e),
        World::spawned(&between, &after, f),
    ensures
        f != e,
{
}

/// The most recently freed slot is used first: what is spawned right after a despawn is
/// in the slot of the despawned entity, at the next generation, unless that retires
/// the slot.
pub proof fn lemma_freed_slot_is_used_first<V>(before: World<V>, between: World<V>, after: World<V>, e: Entity, f: Entity)
    requires
        World::despawned(&before, &between, e),
        World::spawned(&between, &after, f),
        e.generation() + 1 < RETIRED_GENERATION,
    ensures
        f.index() == e.index(),
        f.generation() == e.generation() + 1,
        after.free_slots@ == before.free_slots@,
{
    assert(between.free_slots@.drop_last() =~= before.free_slots@);
}

/// A handle from outside is placed unless its generation is the retired one, its index
/// is the greatest, or its slot is further away than one spawn may add.
pub proof fn lemma_which_handles_are_placed<V>(world: World<V>, e: Entity)
    ensures
        e.generation() == RETIRED_GENERATION ==> !world.placeable(e),
        e.index() == u32::MAX ==> !world.placeable(e),
        e.index() > world.entity_slots@.len() + MAX_SLOT_GROWTH_PER_SPAWN ==> !world.placeable(e),
        e.generation() != RETIRED_GENERATION && e.index() < world.entity_slots@.len() && e.index() < u32::MAX
            ==> world.placeable(e),
        e.generation() != RETIRED_GENERATION && e.index() < u32::MAX && e.index() - world.entity_slots@.len()
            <= 0x10_0000 ==> world.placeable(e),
{
}

/// Slots are added up to the one asked for and no further. The new ones are fresh and
/// free; the old ones keep their generations and their place in the free list.
pub proof fn lemma_added_slots(s: SlotsModel, idx: u32)
    requires
        s.len() <= u32::MAX,
    ensures
        idx < s.grown(idx).len(),
        idx < s.len() ==> s.grown(idx) == s,
        idx >= s.len() ==> s.grown(idx).len() == idx + 1,
        forall|i: int| 0 <= i < s.len() ==> #[trigger] s.grown(idx).generations[i] == s.generations[i],
        forall|i: int| s.len() <= i <= idx ==> #[trigger] s.grown(idx).generations[i] == 0,
        s.free.len() <= s.grown(idx).free.len(),
        s.grown(idx).free.take(s.free.len() as int) == s.free,
        forall|k: u32| #[trigger] s.grown(idx).free.contains(k) <==> s.free.contains(k) || s.len() <= k <= idx,
{
    let g = s.grown(idx);
    assert(g.free.take(s.free.len() as int) =~= s.free);
    assert forall|k: u32| #[trigger] g.free.contains(k) <==> s.free.contains(k) || s.len() <= k <= idx by {
        if s.free.contains(k) {
            let j = s.free.index_of(k);
            assert(g.free[j] == k);
        }
        if s.len() <= k <= idx {
            assert(g.free[s.free.len() + k - s.len()] == k);
        }
        if g.free.contains(k) {
            let j = g.free.index_of(k);
            if j < s.free.len() {
                assert(s.free[j] == k);
            }
        }
    }
}

/// A slot that is vacated for an entity from outside moves on when an entity was in it,
/// and is free unless that retires it. A slot that was empty keeps its generation.
pub proof fn lemma_vacated_slot(s: SlotsModel, idx: u32, i: int)
    requires
        s.len() <= u32::MAX,
        0 <= i < s.len(),
        idx < s.len(),
        s.generations[idx as int] < RETIRED_GENERATION,
    ensures
        s.vacated(idx, false) == s,
        i != idx ==> s.vacated(idx, true).generations[i] == s.generations[i],
        s.vacated(idx, true).generations[idx as int] == s.generations[idx as int] + 1,
        s.generations[idx as int] + 1 < RETIRED_GENERATION ==> s.vacated(idx, true).free.len() == s.free.len() + 1
            && s.vacated(idx, true).free.last() == idx,
        s.generations[idx as int] + 1 == RETIRED_GENERATION ==> s.vacated(idx, true).free == s.free,
{
}

/// A slot that is claimed has the claimed generation and is no longer free. Every other
/// slot is as it was, free or not.
pub proof fn lemma_claimed_slot(s: SlotsModel, idx: u32, generation: u32, i: int, k: u32)
    requires
        idx < s.len(),
        0 <= i < s.len(),
        s.free.no_duplicates(),
    ensures
        s.claimed(idx, generation).len() == s.len(),
        s.claimed(idx, generation).generations[idx as int] == generation,
        i != idx ==> s.claimed(idx, generation).generations[i] == s.generations[i],
        !s.claimed(idx, generation).free.contains(idx),
        k != idx ==> (s.claimed(idx, generation).free.contains(k) <==> s.free.contains(k)),
{
    let after = s.claimed(idx, generation).free;
    let at = s.free.index_of_first(idx);
    s.free.index_of_first_ensures(idx);
    if s.free.contains(idx) {
        let j = at->0;
        assert(after =~= s.free.remove(j));
        if after.contains(idx) {
            let x = after.index_of(idx);
            assert(after[x] == s.free[if x < j { x } else { x + 1 }]);
            assert(false);
        }
        if s.free.contains(k) && k != idx {
            let x = s.free.index_of(k);
            assert(after[if x < j { x } else { x - 1 }] == k);
        }
        if after.contains(k) {
            let x = after.index_of(k);
            assert(s.free[if x < j { x } else { x + 1 }] == k);
        }
    } else {
        assert(after == s.free);
    }
}

/// Emptying a slot takes the entity in it, whatever its generation, and no other.
pub proof fn lemma_emptied_slot<C>(m: Map<Entity, C>, idx: u32, e: Entity)
    ensures
        e.index() == idx ==> !without_slot(m, idx).contains_key(e),
        e.index() != idx ==> (without_slot(m, idx).contains_key(e) <==> m.contains_key(e)),
        e.index() != idx && m.contains_key(e) ==> without_slot(m, idx)[e] == m[e],
        !slot_in_use(without_slot(m, idx), idx),
        m.contains_key(e) ==> slot_in_use(m, e.index()),
{
}

/// What a remove that finds its component leaves: the entity is alive without
/// the component, and every other component of every entity is as it was.
pub proof fn lemma_remove_is_local<V>(before: World<V>, after: World<V>, e: Entity, cid: ComponentId)
    requires
        before@.contains_key(e),
        after@ == before@.insert(e, before@[e].remove(cid)),
    ensures
        after@.dom() == before@.dom(),
        !after@[e].contains_key(cid),
        forall|x: Entity, c: ComponentId|
            #![trigger after@[x].contains_key(c)]
            before@.contains_key(x) && (x != e || c != cid) ==> {
                &&& after@[x].contains_key(c) <==> before@[x].contains_key(c)
                &&& before@[x].contains_key(c) ==> after@[x][c] == before@[x][c]
            },
{
    assert(after@.dom() =~= before@.dom());
}

/// Removing a component that was just given to an entity that lacked it
/// returns the value, and every entity has what it had before.
pub proof fn lemma_insert_then_remove<V>(
    before: World<V>,
    given: World<V>,
    after: World<V>,
    e: Entity,
    cid: ComponentId,
    value: V,
)
    requires
        before@.contains_key(e),
        !before@[e].contains_key(cid),
        given@ == before@.insert(e, before@[e].insert(cid, value)),
        after@ == given@.insert(e, given@[e].remove(cid)),
    ensures
        given@[e].contains_key(cid),
        given@[e][cid] == value,
        after@ == before@,
{
    assert(given@[e].remove(cid) =~= before@[e]);
    assert(after@ =~= before@);
}

/// Spawning and despawning here, and giving and taking components, take no slot
/// back to an earlier generation. Only a replicated spawn may do so: it sets the
/// generation that the peer has.
pub proof fn lemma_generations_advance<V>(before: World<V>, after: World<V>, e: Entity)
    requires
        World::spawned(&before, &after, e) || (World::despawned(&before, &after, e) && before@.contains_key(e))
            || World::slots_kept(&before, &after),
    ensures
        World::generations_advance(&before, &after),
{
    assert forall|i: int| #[trigger] after.slot_generation(i) >= before.slot_generation(i) by {}
}

/// The null handle is alive in no world.
pub proof fn lemma_dangling_is_dead<V>(world: World<V>)
    requires
        world.well_formed(),
    ensures
        !world@.contains_key(Entity::dangling()),
{
    let e = Entity::dangling();
    if world.alive(e) {
        assert(world.slot_ok(e.index() as int));
    }
}

/// A world whose tables differ from those of `before` only in values is
/// well-formed where `before` is.
proof fn lemma_same_tables<V>(before: World<V>, after: World<V>)
    requires
        before.well_formed(),
        after.entity_slots == before.entity_slots,
        after.free_slots == before.free_slots,
        after.archetype_index == before.archetype_index,
        after.archetypes@.len() == before.archetypes@.len(),
        forall|a: int|
            0 <= a < after.archetypes@.len() ==> {
                &&& (#[trigger] after.archetypes@[a]).well_formed()
                &&& after.archetypes@[a].id == before.archetypes@[a].id
                &&& after.archetypes@[a].key@ == before.archetypes@[a].key@
                &&& after.archetypes@[a].entities@ == before.archetypes@[a].entities@
            },
    ensures
        after.well_formed(),
{
    assert forall|a: int| 0 <= a < after.archetypes@.len() implies #[trigger] after.archetype_ok(a) by {
        assert(before.archetype_ok(a));
    }
    assert forall|a: int| 0 <= a < after.archetypes@.len() implies #[trigger] after.indexed(a) by {
        assert(before.indexed(a));
    }
    assert forall|k: Seq<u32>| #[trigger] key_entries(after.archetype_index).contains_key(k) implies {
        let a = key_entries(after.archetype_index)[k];
        a < after.archetypes@.len() && raw_ids(after.archetypes@[a as int].key@) == k
    } by {
        assert(key_entries(before.archetype_index).contains_key(k));
    }
    assert forall|i: int| 0 <= i < after.entity_slots@.len() implies #[trigger] after.slot_ok(i) by {
        assert(before.slot_ok(i));
    }
    assert forall|a: int, r: int|
        0 <= a < after.archetypes@.len() && 0 <= r < after.archetypes@[a].entities@.len() implies #[trigger] after.row_ok(
        a,
        r,
    ) by {
        assert(before.row_ok(a, r));
    }
}

/// Moving one live entity between tables leaves the free list right.
proof fn lemma_free_kept<V>(before: World<V>, after: World<V>, idx: int)
    requires
        before.well_formed(),
        after.placed(),
        after.free_slots == before.free_slots,
        after.entity_slots@.len() == before.entity_slots@.len(),
        0 <= idx < before.entity_slots@.len(),
        before.entity_slots@[idx].row != DEAD_ROW,
        after.entity_slots@[idx].row != DEAD_ROW,
        after.entity_slots@[idx].generation == before.entity_slots@[idx].generation,
        forall|i: int|
            0 <= i < before.entity_slots@.len() && i != idx ==> {
                &&& (#[trigger] after.entity_slots@[i]).generation == before.entity_slots@[i].generation
                &&& (after.entity_slots@[i].row == DEAD_ROW <==> before.entity_slots@[i].row == DEAD_ROW)
            },
    ensures
        after.well_formed(),
        forall|i: int| #[trigger] after.slot_generation(i) == before.slot_generation(i),
{
    assert forall|k: int| 0 <= k < after.free_slots@.len() implies {
        let i = #[trigger] after.free_slots@[k] as int;
        &&& i != -1
        &&& i < after.entity_slots@.len()
        &&& after.entity_slots@[i].row == DEAD_ROW
        &&& after.entity_slots@[i].generation != RETIRED_GENERATION
    } by {
        let i = before.free_slots@[k] as int;
        assert(before.entity_slots@[i].row == DEAD_ROW);
        assert(after.entity_slots@[i].generation == before.entity_slots@[i].generation);
    }
    assert forall|i: int|
        0 <= i < after.entity_slots@.len() && i != -1 && (#[trigger] after.entity_slots@[i]).row == DEAD_ROW
            && after.entity_slots@[i].generation != RETIRED_GENERATION implies after.free_slots@.contains(
        i as u32,
    ) by {
        assert(before.entity_slots@[i].row == DEAD_ROW);
    }
}

} // verus!
