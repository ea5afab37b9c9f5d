//! The correspondence between entities and rows of spatial cells.

use vstd::prelude::*;
use crate::entity::Entity;
use crate::pairs::{lemma_pair_at, lemma_pairs_len, lemma_pairs_push, lemma_pairs_remove, pair_index, pairs_map, unique_keys};

verus! {

/// A row of a spatial cell: cell index and row token.
pub type CellRow = (usize, u32);

/// One-to-one map between entities and rows of spatial cells.
///
/// It stands for a map from entities to rows, which is its view.
#[derive(Clone, Debug)]
pub struct EntityCellMap {
    entries: Vec<(Entity, CellRow)>,
}

impl View for EntityCellMap {
    type V = Map<Entity, CellRow>;

    closed spec fn view(&self) -> Map<Entity, CellRow> {
        pairs_map(self.entries@)
    }
}

/// No two entities share a row.
pub open spec fn one_to_one(m: Map<Entity, CellRow>) -> bool {
    forall|a: Entity, b: Entity| #[trigger]
        m.contains_key(a) && #[trigger] m.contains_key(b) && m[a] == m[b] ==> a == b
}

/// The map without the entity that is at `at`.
pub open spec fn without_row(m: Map<Entity, CellRow>, at: CellRow) -> Map<Entity, CellRow> {
    Map::new(|e: Entity| m.contains_key(e) && m[e] != at, |e: Entity| m[e])
}

impl Default for EntityCellMap {
    fn default() -> (map: EntityCellMap)
        ensures
            map.well_formed(),
            map@ == Map::<Entity, CellRow>::empty(),
    {
        EntityCellMap::new()
    }
}

impl EntityCellMap {
    /// No entity has two rows and no two entities share a row.
    pub closed spec fn well_formed(&self) -> bool {
        unique_keys(self.entries@) && one_to_one(self@)
    }

    /// No two entities share a row.
    pub proof fn lemma_one_to_one(&self)
        requires
            self.well_formed(),
        ensures
            one_to_one(self@),
    {
    }

    /// A map without entries.
    pub fn new() -> (map: EntityCellMap)
        ensures
            map.well_formed(),
            map@ == Map::<Entity, CellRow>::empty(),
    {
        let map = EntityCellMap { entries: Vec::new() };
        proof {
            assert(map@ =~= Map::<Entity, CellRow>::empty());
        }
        map
    }

    fn find_entity(&self, entity: Entity) -> (at: Option<usize>)
        requires
            unique_keys(self.entries@),
        ensures
            match at {
                Some(i) => i < self.entries@.len() && self.entries@[i as int].0 == entity,
                None => !self@.contains_key(entity) && forall|i: int|
                    0 <= i < self.entries@.len() ==> (#[trigger] self.entries@[i]).0 != entity,
            },
    {
        let mut i: usize = 0;
        while i < self.entries.len()
            invariant
                i <= self.entries@.len(),
                forall|j: int| 0 <= j < i ==> (#[trigger] self.entries@[j]).0 != entity,
            decreases self.entries@.len() - i,
        {
            if self.entries[i].0 == entity {
                return Some(i);
            }
            i = i + 1;
        }
        None
    }

    fn find_row(&self, cell_idx: usize, row: u32) -> (at: Option<usize>)
        requires
            unique_keys(self.entries@),
        ensures
            match at {
                Some(i) => i < self.entries@.len() && self.entries@[i as int].1 == (cell_idx, row),
                None => forall|e: Entity| #[trigger] self@.contains_key(e) ==> self@[e] != (cell_idx, row),
            },
    {
        let mut i: usize = 0;
        while i < self.entries.len()
            invariant
                i <= self.entries@.len(),
                forall|j: int| 0 <= j < i ==> (#[trigger] self.entries@[j]).1 != (cell_idx, row),
            decreases self.entries@.len() - i,
        {
            let at: CellRow = self.entries[i].1;
            if at.0 == cell_idx && at.1 == row {
                return Some(i);
            }
            i = i + 1;
        }
        proof {
            assert forall|e: Entity| #[trigger] self@.contains_key(e) implies self@[e] != (cell_idx, row) by {
                let j = pair_index(self.entries@, e);
                assert(self.entries@[j].1 != (cell_idx, row));
            }
        }
        None
    }

    /// Records that `entity` is at a row. Whatever row it was at before, and
    /// whatever entity was at that row, are no longer mapped.
    pub fn insert(&mut self, entity: Entity, cell_idx: usize, row: u32)
        requires
            old(self).well_formed(),
        ensures
            final(self).well_formed(),
            final(self)@ == without_row(old(self)@, (cell_idx, row)).insert(entity, (cell_idx, row)),
    {
        let ghost m = self@;
        self.remove(entity);
        let ghost m1 = self@;
        match self.find_row(cell_idx, row) {
            Some(i) => {
                proof {
                    lemma_pairs_remove(self.entries@, i as int);
                    lemma_pair_at(self.entries@, i as int);
                }
                self.entries.remove(i);
            },
            None => {},
        }
        proof {
            assert(self@ =~= without_row(m1, (cell_idx, row)));
            assert forall|j: int| 0 <= j < self.entries@.len() implies (#[trigger] self.entries@[j]).0 != entity by {
                lemma_pair_at(self.entries@, j);
            }
            lemma_pairs_push(self.entries@, entity, (cell_idx, row));
        }
        self.entries.push((entity, (cell_idx, row)));
        proof {
            assert(self@ =~= without_row(m, (cell_idx, row)).insert(entity, (cell_idx, row)));
        }
    }

    /// Takes an entity out of the map.
    pub fn remove(&mut self, entity: Entity)
        requires
            old(self).well_formed(),
        ensures
            final(self).well_formed(),
            final(self)@ == old(self)@.remove(entity),
    {
        let ghost m = self@;
        match self.find_entity(entity) {
            Some(i) => {
                proof {
                    lemma_pairs_remove(self.entries@, i as int);
                }
                self.entries.remove(i);
            },
            None => {
                proof {
                    assert(m.remove(entity) =~= m);
                }
            },
        }
    }

    /// The entity at a row.
    pub fn entity_at(&self, cell_idx: usize, row: u32) -> (found: Option<Entity>)
        requires
            self.well_formed(),
        ensures
            found == entity_at(self@, (cell_idx, row)),
    {
        match self.find_row(cell_idx, row) {
            Some(i) => {
                proof {
                    lemma_pair_at(self.entries@, i as int);
                    let e = self.entries@[i as int].0;
                    assert(self@.contains_key(e) && self@[e] == (cell_idx, row));
                }
                Some(self.entries[i].0)
            },
            None => None,
        }
    }

    /// The row of an entity.
    pub fn cell_of(&self, entity: Entity) -> (found: Option<(usize, u32)>)
        requires
            self.well_formed(),
        ensures
            match found {
                Some(at) => self@.contains_key(entity) && self@[entity] == at,
                None => !self@.contains_key(entity),
            },
    {
        match self.find_entity(entity) {
            Some(i) => {
                proof {
                    lemma_pair_at(self.entries@, i as int);
                }
                Some(self.entries[i].1)
            },
            None => None,
        }
    }

    /// How many entities are mapped.
    pub fn len(&self) -> (n: usize)
        requires
            self.well_formed(),
        ensures
            self@.dom().finite(),
            n == self@.dom().len(),
    {
        proof {
            lemma_pairs_len(self.entries@);
        }
        self.entries.len()
    }

    /// Whether no entity is mapped.
    pub fn is_empty(&self) -> (empty: bool)
        requires
            self.well_formed(),
        ensures
            empty == (self@ == Map::<Entity, CellRow>::empty()),
    {
        proof {
            if self.entries@.len() == 0 {
                assert(self@ =~= Map::<Entity, CellRow>::empty());
            } else {
                lemma_pair_at(self.entries@, 0);
            }
        }
        self.entries.is_empty()
    }
}

/// The entity at a row, if there is one.
pub open spec fn entity_at(m: Map<Entity, CellRow>, at: CellRow) -> Option<Entity> {
    if exists|e: Entity| #[trigger] m.contains_key(e) && m[e] == at {
        Some(choose|e: Entity| #[trigger] m.contains_key(e) && m[e] == at)
    } else {
        None
    }
}

/// A row has an entity exactly if the map sends the entity to that row.
pub proof fn lemma_entity_of_row(m: Map<Entity, CellRow>, at: CellRow, e: Entity)
    requires
        one_to_one(m),
    ensures
        entity_at(m, at) == Some(e) <==> m.contains_key(e) && m[e] == at,
        entity_at(m, at) is None <==> forall|x: Entity| #[trigger] m.contains_key(x) ==> m[x] != at,
{
}

/// Placing an entity takes it, and whatever was in the row, out of their old places,
/// and leaves every other entity where it is.
pub proof fn lemma_insert_leaves_others(m: Map<Entity, CellRow>, entity: Entity, at: CellRow, other: Entity)
    requires
        other != entity,
    ensures
        ({
            let after = without_row(m, at).insert(entity, at);
            &&& after.contains_key(other) <==> m.contains_key(other) && m[other] != at
            &&& after.contains_key(other) ==> after[other] == m[other]
            &&& after.contains_key(entity)
            &&& after[entity] == at
        }),
{
}

/// The map stays one-to-one: an inserted entity is found at its row, and at no
/// other, and the row leads back to it.
pub proof fn lemma_insert_both_ways(m: Map<Entity, CellRow>, entity: Entity, at: CellRow)
    requires
        one_to_one(m),
    ensures
        one_to_one(without_row(m, at).insert(entity, at)),
        without_row(m, at).insert(entity, at)[entity] == at,
        entity_at(without_row(m, at).insert(entity, at), at) == Some(entity),
{
    let after = without_row(m, at).insert(entity, at);
    assert(after.contains_key(entity) && after[entity] == at);
}

/// A removed entity is gone in both directions.
pub proof fn lemma_remove_both_ways(m: Map<Entity, CellRow>, entity: Entity)
    requires
        one_to_one(m),
        m.contains_key(entity),
    ensures
        one_to_one(m.remove(entity)),
        !m.remove(entity).contains_key(entity),
        entity_at(m.remove(entity), m[entity]) is None,
{
}

} // verus!
