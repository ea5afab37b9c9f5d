//! Who owns which entity or field, and how conflicting deltas are merged.

use vstd::prelude::*;
use crate::component::ComponentId;
use crate::entity::Entity;
use crate::pairs::{lemma_pairs_push, lemma_pairs_update, pair_index, pairs_map, unique_keys};
use crate::replication::compressor::FieldKey;
use crate::replication::types::{component_deltas, events, spawns, ClientId, ComponentDelta, ComponentDeltaModel, Delta, DeltaModel, Ownership, ReplicatedEvent};

verus! {

/// Ownership of entities, with overrides for single fields.
#[derive(Clone, Debug)]
pub struct AuthorityTable {
    entity_owners: Vec<(Entity, Ownership)>,
    field_owners: Vec<(FieldKey, Ownership)>,
}

/// The value of an [`AuthorityTable`].
pub struct AuthorityModel {
    pub entities: Map<Entity, Ownership>,
    pub fields: Map<FieldKey, Ownership>,
}

impl View for AuthorityTable {
    type V = AuthorityModel;

    closed spec fn view(&self) -> AuthorityModel {
        AuthorityModel {
            entities: pairs_map(self.entity_owners@),
            fields: pairs_map(self.field_owners@),
        }
    }
}

/// Whether a client may write what `owner` owns.
pub open spec fn owner_allows(owner: Ownership, client: ClientId) -> bool {
    match owner {
        Ownership::Server => false,
        Ownership::Client(id) => id == client,
        Ownership::Shared => true,
    }
}

/// The owner of an entity: the server unless set otherwise.
pub open spec fn entity_owner(table: AuthorityModel, entity: Entity) -> Ownership {
    if table.entities.contains_key(entity) {
        table.entities[entity]
    } else {
        Ownership::Server
    }
}

/// Whether a client may write a field: its own owner decides if it has one,
/// and the entity's owner otherwise.
pub open spec fn may_write(table: AuthorityModel, key: FieldKey, client: ClientId) -> bool {
    if table.fields.contains_key(key) {
        owner_allows(table.fields[key], client)
    } else {
        owner_allows(entity_owner(table, key.0), client)
    }
}

/// A client may write a field exactly if the owner that decides, the field's own or
/// else the entity's, is this client or is shared. What has no owner in the table is
/// the server's, and no client may write it.
pub proof fn lemma_who_may_write(table: AuthorityModel, key: FieldKey, client: ClientId)
    ensures
        table.fields.contains_key(key) ==> (may_write(table, key, client) <==> table.fields[key] == Ownership::Client(
            client,
        ) || table.fields[key] == Ownership::Shared),
        !table.fields.contains_key(key) ==> (may_write(table, key, client) <==> table.entities.contains_key(key.0)
            && (table.entities[key.0] == Ownership::Client(client) || table.entities[key.0] == Ownership::Shared)),
{
}

/// In a table without entries no client may write anything.
pub proof fn lemma_server_owns_by_default(table: AuthorityModel, key: FieldKey, client: ClientId)
    requires
        table.entities == Map::<Entity, Ownership>::empty(),
        table.fields == Map::<FieldKey, Ownership>::empty(),
    ensures
        !may_write(table, key, client),
        entity_owner(table, key.0) == Ownership::Server,
{
}

/// Where two different clients may both write a field, it is shared, and every
/// client may.
pub proof fn lemma_ownership_is_exclusive(table: AuthorityModel, key: FieldKey, a: ClientId, b: ClientId, c: ClientId)
    requires
        a != b,
        may_write(table, key, a),
        may_write(table, key, b),
    ensures
        may_write(table, key, c),
        if table.fields.contains_key(key) {
            table.fields[key] == Ownership::Shared
        } else {
            table.entities.contains_key(key.0) && table.entities[key.0] == Ownership::Shared
        },
{
}

/// Giving an entity, or a field, to a client lets this client write it and no
/// other, and changes nothing for other entities and for fields with an owner of
/// their own.
pub proof fn lemma_giving_away(table: AuthorityModel, key: FieldKey, owner: ClientId, client: ClientId)
    ensures
        ({
            let given = AuthorityModel {
                entities: table.entities.insert(key.0, Ownership::Client(owner)),
                fields: table.fields,
            };
            &&& !table.fields.contains_key(key) ==> (may_write(given, key, client) <==> client == owner)
            &&& forall|other: FieldKey|
                other.0 != key.0 || table.fields.contains_key(other) ==> #[trigger] may_write(given, other, client)
                    == may_write(table, other, client)
        }),
        ({
            let given = AuthorityModel {
                entities: table.entities,
                fields: table.fields.insert(key, Ownership::Client(owner)),
            };
            &&& may_write(given, key, client) <==> client == owner
            &&& forall|other: FieldKey|
                other != key ==> #[trigger] may_write(given, other, client) == may_write(table, other, client)
        }),
{
}

fn allows(owner: Ownership, client: ClientId) -> (yes: bool)
    ensures
        yes == owner_allows(owner, client),
        yes <==> owner == Ownership::Client(client) || owner == Ownership::Shared,
{
    match owner {
        Ownership::Server => false,
        Ownership::Client(id) => id == client,
        Ownership::Shared => true,
    }
}

impl Default for AuthorityTable {
    fn default() -> (table: AuthorityTable)
        ensures
            table.well_formed(),
            table@ == (AuthorityModel { entities: Map::empty(), fields: Map::empty() }),
    {
        AuthorityTable::new()
    }
}

impl AuthorityTable {
    /// No entity and no field has two owners.
    pub closed spec fn well_formed(&self) -> bool {
        &&& unique_keys(self.entity_owners@)
        &&& unique_keys(self.field_owners@)
    }

    /// A table in which the server owns everything.
    pub fn new() -> (table: AuthorityTable)
        ensures
            table.well_formed(),
            table@ == (AuthorityModel { entities: Map::empty(), fields: Map::empty() }),
    {
        let table = AuthorityTable { entity_owners: Vec::new(), field_owners: Vec::new() };
        proof {
            assert(table@.entities =~= Map::<Entity, Ownership>::empty());
            assert(table@.fields =~= Map::<FieldKey, Ownership>::empty());
        }
        table
    }

    fn find_entity(&self, entity: Entity) -> (at: Option<usize>)
        requires
            self.well_formed(),
        ensures
            match at {
                Some(i) => {
                    &&& i < self.entity_owners@.len()
                    &&& self.entity_owners@[i as int].0 == entity
                    &&& self@.entities.contains_key(entity)
                    &&& self@.entities[entity] == self.entity_owners@[i as int].1
                },
                None => {
                    &&& !self@.entities.contains_key(entity)
                    &&& forall|i: int|
                        0 <= i < self.entity_owners@.len() ==> (#[trigger] self.entity_owners@[i]).0
                            != entity
                },
            },
    {
        let mut i: usize = 0;
        while i < self.entity_owners.len()
            invariant
                i <= self.entity_owners@.len(),
                self.well_formed(),
                forall|j: int| 0 <= j < i ==> (#[trigger] self.entity_owners@[j]).0 != entity,
            decreases self.entity_owners@.len() - i,
        {
            if self.entity_owners[i].0 == entity {
                proof {
                    let j = pair_index(self.entity_owners@, entity);
                    assert(self.entity_owners@[i as int].0 == entity);
                    assert(self.entity_owners@[j].0 == self.entity_owners@[i as int].0);
                }
                return Some(i);
            }
            i = i + 1;
        }
        None
    }

    fn find_field(&self, key: FieldKey) -> (at: Option<usize>)
        requires
            self.well_formed(),
        ensures
            match at {
                Some(i) => {
                    &&& i < self.field_owners@.len()
                    &&& self.field_owners@[i as int].0 == key
                    &&& self@.fields.contains_key(key)
                    &&& self@.fields[key] == self.field_owners@[i as int].1
                },
                None => {
                    &&& !self@.fields.contains_key(key)
                    &&& forall|i: int|
                        0 <= i < self.field_owners@.len() ==> (#[trigger] self.field_owners@[i]).0 != key
                },
            },
    {
        let mut i: usize = 0;
        while i < self.field_owners.len()
            invariant
                i <= self.field_owners@.len(),
                self.well_formed(),
                forall|j: int| 0 <= j < i ==> (#[trigger] self.field_owners@[j]).0 != key,
            decreases self.field_owners@.len() - i,
        {
            let k: FieldKey = self.field_owners[i].0;
            if k.0 == key.0 && k.1 == key.1 && k.2 == key.2 {
                proof {
                    let j = pair_index(self.field_owners@, key);
                    assert(self.field_owners@[i as int].0 == key);
                    assert(self.field_owners@[j].0 == self.field_owners@[i as int].0);
                }
                return Some(i);
            }
            i = i + 1;
        }
        None
    }

    /// Sets the owner of an entity.
    pub fn set_entity_owner(&mut self, entity: Entity, owner: Ownership)
        requires
            old(self).well_formed(),
        ensures
            final(self).well_formed(),
            final(self)@ == (AuthorityModel {
                entities: old(self)@.entities.insert(entity, owner),
                fields: old(self)@.fields,
            }),
    {
        match self.find_entity(entity) {
            Some(i) => {
                proof {
                    lemma_pairs_update(self.entity_owners@, i as int, owner);
                }
                self.entity_owners[i] = (entity, owner);
            },
            None => {
                proof {
                    lemma_pairs_push(self.entity_owners@, entity, owner);
                }
                self.entity_owners.push((entity, owner));
            },
        }
    }

    /// Sets the owner of one field of an entity.
    pub fn set_field_owner(&mut self, entity: Entity, component: ComponentId, field: u32, owner: Ownership)
        requires
            old(self).well_formed(),
        ensures
            final(self).well_formed(),
            final(self)@ == (AuthorityModel {
                entities: old(self)@.entities,
                fields: old(self)@.fields.insert((entity, component, field), owner),
            }),
    {
        let key: FieldKey = (entity, component, field);
        match self.find_field(key) {
            Some(i) => {
                proof {
                    lemma_pairs_update(self.field_owners@, i as int, owner);
                }
                self.field_owners[i] = (key, owner);
            },
            None => {
                proof {
                    lemma_pairs_push(self.field_owners@, key, owner);
                }
                self.field_owners.push((key, owner));
            },
        }
    }

    /// The owner of an entity. Overrides of single fields do not show here.
    pub fn owner_of(&self, entity: Entity) -> (owner: Ownership)
        requires
            self.well_formed(),
        ensures
            owner == entity_owner(self@, entity),
            self@.entities.contains_key(entity) ==> owner == self@.entities[entity],
            !self@.entities.contains_key(entity) ==> owner == Ownership::Server,
    {
        match self.find_entity(entity) {
            Some(i) => self.entity_owners[i].1,
            None => Ownership::Server,
        }
    }

    /// Whether a client may write a field of an entity.
    pub fn can_write(&self, entity: Entity, component: ComponentId, field: u32, client: ClientId) -> (yes: bool)
        requires
            self.well_formed(),
        ensures
            yes == may_write(self@, (entity, component, field), client),
            self@.fields.contains_key((entity, component, field)) ==> (yes <==> self@.fields[(
                entity,
                component,
                field,
            )] == Ownership::Client(client) || self@.fields[(entity, component, field)] == Ownership::Shared),
            !self@.fields.contains_key((entity, component, field)) ==> (yes <==> self@.entities.contains_key(entity)
                && (self@.entities[entity] == Ownership::Client(client) || self@.entities[entity]
                == Ownership::Shared)),
    {
        match self.find_field((entity, component, field)) {
            Some(i) => allows(self.field_owners[i].1, client),
            None => allows(self.owner_of(entity), client),
        }
    }

    /// Merges two deltas of the same frame that may conflict.
    ///
    /// The delta of the client with the higher id wins: where both touch the
    /// same component of the same entity, or spawn or despawn the same entity,
    /// only the winner's entry is kept. All other entries of both are kept,
    /// the winner's first.
    pub fn resolve_conflict(
        _authority: &AuthorityTable,
        a: &Delta,
        client_a: ClientId,
        b: &Delta,
        client_b: ClientId,
    ) -> (merged: Delta)
        ensures
            merged@ == resolved(a@, client_a, b@, client_b),
    {
        if client_a.0 > client_b.0 {
            merge_deltas(a, b)
        } else {
            merge_deltas(b, a)
        }
    }
}

/// Some spawn is of entity `e`.
pub open spec fn spawns_entity(xs: Seq<(Entity, Seq<u8>)>, e: Entity) -> bool {
    exists|i: int| 0 <= i < xs.len() && (#[trigger] xs[i]).0 == e
}

/// Some component delta is of component `cid` of entity `e`.
pub open spec fn touches(xs: Seq<ComponentDeltaModel>, e: Entity, cid: ComponentId) -> bool {
    exists|i: int|
        0 <= i < xs.len() && (#[trigger] xs[i]).entity == e && xs[i].component_type == cid
}

/// `base`, then the spawns of `extra` whose entity has none yet.
pub open spec fn merge_spawns(base: Seq<(Entity, Seq<u8>)>, extra: Seq<(Entity, Seq<u8>)>) -> Seq<
    (Entity, Seq<u8>),
>
    decreases extra.len(),
{
    if extra.len() == 0 {
        base
    } else {
        let merged = merge_spawns(base, extra.drop_last());
        if spawns_entity(merged, extra.last().0) {
            merged
        } else {
            merged.push(extra.last())
        }
    }
}

/// `base`, then the entities of `extra` that are not there yet.
pub open spec fn merge_despawns(base: Seq<Entity>, extra: Seq<Entity>) -> Seq<Entity>
    decreases extra.len(),
{
    if extra.len() == 0 {
        base
    } else {
        let merged = merge_despawns(base, extra.drop_last());
        if merged.contains(extra.last()) {
            merged
        } else {
            merged.push(extra.last())
        }
    }
}

/// `base`, then the component deltas of `extra` whose component has none yet.
pub open spec fn merge_changes(base: Seq<ComponentDeltaModel>, extra: Seq<ComponentDeltaModel>) -> Seq<
    ComponentDeltaModel,
>
    decreases extra.len(),
{
    if extra.len() == 0 {
        base
    } else {
        let merged = merge_changes(base, extra.drop_last());
        if touches(merged, extra.last().entity, extra.last().component_type) {
            merged
        } else {
            merged.push(extra.last())
        }
    }
}

/// Both deltas as one, with the winner's entries taking precedence.
pub open spec fn merge(winner: DeltaModel, loser: DeltaModel) -> DeltaModel {
    DeltaModel {
        frame: if winner.frame >= loser.frame {
            winner.frame
        } else {
            loser.frame
        },
        base_frame: if winner.base_frame <= loser.base_frame {
            winner.base_frame
        } else {
            loser.base_frame
        },
        spawned: merge_spawns(winner.spawned, loser.spawned),
        despawned: merge_despawns(winner.despawned, loser.despawned),
        component_deltas: merge_changes(winner.component_deltas, loser.component_deltas),
        events: winner.events + loser.events,
    }
}

/// The merge of two clients' deltas: the one of the higher client id wins, and
/// the second one if the ids are equal.
pub open spec fn resolved(a: DeltaModel, client_a: ClientId, b: DeltaModel, client_b: ClientId) -> DeltaModel {
    if client_a.0 > client_b.0 {
        merge(a, b)
    } else {
        merge(b, a)
    }
}

/// For two different clients the merge does not depend on which delta is
/// named first.
pub proof fn lemma_resolution_is_symmetric(
    a: DeltaModel,
    client_a: ClientId,
    b: DeltaModel,
    client_b: ClientId,
)
    requires
        client_a != client_b,
    ensures
        resolved(a, client_a, b, client_b) == resolved(b, client_b, a, client_a),
{
}

/// Appends the spawns of `extra` whose entity has none yet.
fn append_spawns(out: &mut Vec<(Entity, Vec<u8>)>, extra: &Vec<(Entity, Vec<u8>)>)
    ensures
        spawns(final(out)@) == merge_spawns(spawns(old(out)@), spawns(extra@)),
{
    let ghost base = spawns(out@);
    let ghost all = spawns(extra@);
    let mut i: usize = 0;
    proof {
        assert(all.take(0) =~= Seq::<(Entity, Seq<u8>)>::empty());
    }
    while i < extra.len()
        invariant
            i <= extra@.len(),
            all == spawns(extra@),
            spawns(out@) == merge_spawns(base, all.take(i as int)),
        decreases extra@.len() - i,
    {
        let ghost before = spawns(out@);
        let e = extra[i].0;
        let mut known: bool = false;
        let mut j: usize = 0;
        while j < out.len()
            invariant
                j <= out@.len(),
                before == spawns(out@),
                known == exists|k: int| 0 <= k < j && (#[trigger] out@[k]).0 == e,
            decreases out@.len() - j,
        {
            if out[j].0 == e {
                known = true;
            }
            j = j + 1;
        }
        proof {
            let upto = all.take(i + 1);
            assert(upto.drop_last() =~= all.take(i as int));
            assert(upto.last() == (e, extra@[i as int].1@));
            if known {
                let k = choose|k: int| 0 <= k < out@.len() && (#[trigger] out@[k]).0 == e;
                assert(before[k].0 == e);
            }
            if spawns_entity(before, e) {
                let k = choose|k: int| 0 <= k < before.len() && (#[trigger] before[k]).0 == e;
                assert(out@[k].0 == e);
            }
        }
        if !known {
            let copy = vstd::slice::slice_to_vec(extra[i].1.as_slice());
            out.push((e, copy));
            proof {
                assert(spawns(out@) =~= before.push((e, extra@[i as int].1@)));
            }
        }
        i = i + 1;
    }
    proof {
        assert(all.take(all.len() as int) =~= all);
    }
}

/// Appends the entities of `extra` that are not there yet.
fn append_despawns(out: &mut Vec<Entity>, extra: &Vec<Entity>)
    ensures
        final(out)@ == merge_despawns(old(out)@, extra@),
{
    let ghost base = out@;
    let mut i: usize = 0;
    proof {
        assert(extra@.take(0) =~= Seq::<Entity>::empty());
    }
    while i < extra.len()
        invariant
            i <= extra@.len(),
            out@ == merge_despawns(base, extra@.take(i as int)),
        decreases extra@.len() - i,
    {
        let e = extra[i];
        let known = contains_entity(out, e);
        proof {
            let upto = extra@.take(i + 1);
            assert(upto.drop_last() =~= extra@.take(i as int));
            assert(upto.last() == e);
        }
        if !known {
            out.push(e);
        }
        i = i + 1;
    }
    proof {
        assert(extra@.take(extra@.len() as int) =~= extra@);
    }
}

/// Whether a list holds an entity.
pub fn contains_entity(list: &Vec<Entity>, e: Entity) -> (yes: bool)
    ensures
        yes == list@.contains(e),
{
    let mut j: usize = 0;
    while j < list.len()
        invariant
            j <= list@.len(),
            forall|k: int| 0 <= k < j ==> list@[k] != e,
        decreases list@.len() - j,
    {
        if list[j] == e {
            proof {
                assert(list@[j as int] == e);
            }
            return true;
        }
        j = j + 1;
    }
    false
}

/// Appends the component deltas of `extra` whose component has none yet.
fn append_changes(out: &mut Vec<ComponentDelta>, extra: &Vec<ComponentDelta>)
    ensures
        component_deltas(final(out)@) == merge_changes(component_deltas(old(out)@), component_deltas(extra@)),
{
    let ghost base = component_deltas(out@);
    let ghost all = component_deltas(extra@);
    let mut i: usize = 0;
    proof {
        assert(all.take(0) =~= Seq::<ComponentDeltaModel>::empty());
    }
    while i < extra.len()
        invariant
            i <= extra@.len(),
            all == component_deltas(extra@),
            component_deltas(out@) == merge_changes(base, all.take(i as int)),
        decreases extra@.len() - i,
    {
        let ghost before = component_deltas(out@);
        let e = extra[i].entity;
        let c = extra[i].component_type;
        let mut known: bool = false;
        let mut j: usize = 0;
        while j < out.len()
            invariant
                j <= out@.len(),
                before == component_deltas(out@),
                known == exists|k: int|
                    0 <= k < j && (#[trigger] out@[k]).entity == e && out@[k].component_type == c,
            decreases out@.len() - j,
        {
            if out[j].entity == e && out[j].component_type == c {
                known = true;
            }
            j = j + 1;
        }
        proof {
            let upto = all.take(i + 1);
            assert(upto.drop_last() =~= all.take(i as int));
            assert(upto.last() == extra@[i as int]@);
            if known {
                let k = choose|k: int|
                    0 <= k < out@.len() && (#[trigger] out@[k]).entity == e && out@[k].component_type == c;
                assert(before[k].entity == e && before[k].component_type == c);
            }
            if touches(before, e, c) {
                let k = choose|k: int|
                    0 <= k < before.len() && (#[trigger] before[k]).entity == e && before[k].component_type
                        == c;
                assert(out@[k].entity == e && out@[k].component_type == c);
            }
        }
        if !known {
            let copy = extra[i].copy();
            out.push(copy);
            proof {
                assert(component_deltas(out@) =~= before.push(extra@[i as int]@));
            }
        }
        i = i + 1;
    }
    proof {
        assert(all.take(all.len() as int) =~= all);
    }
}

/// Appends all events of `extra`.
fn append_events(out: &mut Vec<ReplicatedEvent>, extra: &Vec<ReplicatedEvent>)
    ensures
        events(final(out)@) == events(old(out)@) + events(extra@),
{
    let ghost base = events(out@);
    let ghost all = events(extra@);
    let mut i: usize = 0;
    proof {
        assert(base + all.take(0) =~= base);
    }
    while i < extra.len()
        invariant
            i <= extra@.len(),
            all == events(extra@),
            events(out@) == base + all.take(i as int),
        decreases extra@.len() - i,
    {
        let ghost before = events(out@);
        let copy = extra[i].copy();
        out.push(copy);
        proof {
            assert(events(out@) =~= before.push(extra@[i as int]@));
            assert(all.take(i + 1) =~= all.take(i as int).push(extra@[i as int]@));
            assert(base + all.take(i + 1) =~= (base + all.take(i as int)).push(extra@[i as int]@));
        }
        i = i + 1;
    }
    proof {
        assert(all.take(all.len() as int) =~= all);
    }
}

fn merge_deltas(winner: &Delta, loser: &Delta) -> (merged: Delta)
    ensures
        merged@ == merge(winner@, loser@),
{
    let mut spawned: Vec<(Entity, Vec<u8>)> = Vec::new();
    let mut i: usize = 0;
    while i < winner.spawned.len()
        invariant
            i <= winner.spawned@.len(),
            spawned@.len() == i,
            forall|k: int|
                0 <= k < i ==> (#[trigger] spawned@[k]).0 == winner.spawned@[k].0 && spawned@[k].1@
                    == winner.spawned@[k].1@,
        decreases winner.spawned@.len() - i,
    {
        spawned.push((winner.spawned[i].0, vstd::slice::slice_to_vec(winner.spawned[i].1.as_slice())));
        i = i + 1;
    }
    proof {
        assert(spawns(spawned@) =~= spawns(winner.spawned@));
    }
    append_spawns(&mut spawned, &loser.spawned);
    let mut despawned: Vec<Entity> = vstd::slice::slice_to_vec(winner.despawned.as_slice());
    append_despawns(&mut despawned, &loser.despawned);
    let mut changes: Vec<ComponentDelta> = Vec::new();
    let mut j: usize = 0;
    while j < winner.component_deltas.len()
        invariant
            j <= winner.component_deltas@.len(),
            changes@.len() == j,
            forall|k: int| 0 <= k < j ==> (#[trigger] changes@[k])@ == winner.component_deltas@[k]@,
        decreases winner.component_deltas@.len() - j,
    {
        changes.push(winner.component_deltas[j].copy());
        j = j + 1;
    }
    proof {
        assert(component_deltas(changes@) =~= component_deltas(winner.component_deltas@));
    }
    append_changes(&mut changes, &loser.component_deltas);
    let mut evs: Vec<ReplicatedEvent> = Vec::new();
    append_events(&mut evs, &winner.events);
    proof {
        assert(events(evs@) =~= events(winner.events@));
    }
    append_events(&mut evs, &loser.events);
    Delta {
        frame: if winner.frame >= loser.frame {
            winner.frame
        } else {
            loser.frame
        },
        base_frame: if winner.base_frame <= loser.base_frame {
            winner.base_frame
        } else {
            loser.base_frame
        },
        spawned,
        despawned,
        component_deltas: changes,
        events: evs,
    }
}

proof fn lemma_merge_changes_keeps(base: Seq<ComponentDeltaModel>, extra: Seq<ComponentDeltaModel>)
    ensures
        base.len() <= merge_changes(base, extra).len(),
        merge_changes(base, extra).take(base.len() as int) == base,
    decreases extra.len(),
{
    if extra.len() == 0 {
        assert(base.take(base.len() as int) =~= base);
    } else {
        lemma_merge_changes_keeps(base, extra.drop_last());
        let merged = merge_changes(base, extra.drop_last());
        assert(merged.push(extra.last()).take(base.len() as int) =~= merged.take(base.len() as int));
    }
}

proof fn lemma_merge_changes_origin(base: Seq<ComponentDeltaModel>, extra: Seq<ComponentDeltaModel>, i: int)
    requires
        0 <= i < merge_changes(base, extra).len(),
    ensures
        i < base.len() ==> merge_changes(base, extra)[i] == base[i],
        i >= base.len() ==> {
            let cd = merge_changes(base, extra)[i];
            extra.contains(cd) && !touches(base, cd.entity, cd.component_type)
        },
    decreases extra.len(),
{
    let merged = merge_changes(base, extra);
    if extra.len() > 0 {
        let init = merge_changes(base, extra.drop_last());
        lemma_merge_changes_keeps(base, extra.drop_last());
        if i < init.len() {
            lemma_merge_changes_origin(base, extra.drop_last(), i);
            assert(merged[i] == init[i]);
            if i >= base.len() {
                let k = extra.drop_last().index_of(init[i]);
                assert(extra[k] == init[i]);
            }
        } else {
            let cd = extra.last();
            assert(merged[i] == cd);
            assert(extra[extra.len() - 1] == cd);
            if touches(base, cd.entity, cd.component_type) {
                let k = choose|k: int|
                    0 <= k < base.len() && (#[trigger] base[k]).entity == cd.entity
                        && base[k].component_type == cd.component_type;
                assert(init.take(base.len() as int)[k] == base[k]);
                assert(init[k] == base[k]);
            }
        }
    }
}

/// Where both clients wrote the same component of the same entity, the merge
/// keeps what the client with the higher id wrote; where only the other client
/// wrote it, the merge keeps that.
pub proof fn lemma_higher_client_wins(winner: DeltaModel, loser: DeltaModel, i: int)
    requires
        0 <= i < merge(winner, loser).component_deltas.len(),
    ensures
        ({
            let cd = merge(winner, loser).component_deltas[i];
            ||| winner.component_deltas.contains(cd)
            ||| loser.component_deltas.contains(cd) && !touches(
                winner.component_deltas,
                cd.entity,
                cd.component_type,
            )
        }),
        merge(winner, loser).component_deltas.take(winner.component_deltas.len() as int)
            == winner.component_deltas,
{
    lemma_merge_changes_keeps(winner.component_deltas, loser.component_deltas);
    lemma_merge_changes_origin(winner.component_deltas, loser.component_deltas, i);
    if i < winner.component_deltas.len() {
        assert(winner.component_deltas[i] == merge(winner, loser).component_deltas[i]);
    }
}

proof fn lemma_merge_changes_rest(base: Seq<ComponentDeltaModel>, extra: Seq<ComponentDeltaModel>)
    ensures
        merge_changes(base, extra) == base + merge_changes(Seq::empty(), extra).filter(
            |cd: ComponentDeltaModel| !touches(base, cd.entity, cd.component_type),
        ),
    decreases extra.len(),
{
    reveal(Seq::filter);
    let keep = |cd: ComponentDeltaModel| !touches(base, cd.entity, cd.component_type);
    if extra.len() == 0 {
        assert(base + Seq::<ComponentDeltaModel>::empty().filter(keep) =~= base);
    } else {
        let init = extra.drop_last();
        let cd = extra.last();
        lemma_merge_changes_rest(base, init);
        let firsts = merge_changes(Seq::empty(), init);
        let kept = firsts.filter(keep);
        let merged = base + kept;
        firsts.lemma_filter_push(cd, keep);
        if touches(base, cd.entity, cd.component_type) {
            let i = choose|i: int|
                0 <= i < base.len() && (#[trigger] base[i]).entity == cd.entity && base[i].component_type
                    == cd.component_type;
            assert(merged[i] == base[i]);
        } else {
            if touches(firsts, cd.entity, cd.component_type) {
                let i = choose|i: int|
                    0 <= i < firsts.len() && (#[trigger] firsts[i]).entity == cd.entity && firsts[i].component_type
                        == cd.component_type;
                firsts.lemma_filter_contains(keep, i);
                let j = kept.index_of(firsts[i]);
                assert(merged[base.len() + j] == firsts[i]);
            }
            if touches(merged, cd.entity, cd.component_type) {
                let i = choose|i: int|
                    0 <= i < merged.len() && (#[trigger] merged[i]).entity == cd.entity && merged[i].component_type
                        == cd.component_type;
                if i < base.len() {
                    assert(base[i] == merged[i]);
                } else {
                    assert(kept[i - base.len()] == merged[i]);
                    firsts.lemma_filter_contains_rev(keep, merged[i]);
                    let j = firsts.index_of(merged[i]);
                    assert(firsts[j] == merged[i]);
                }
            }
            assert(merged.push(cd) =~= base + kept.push(cd));
        }
    }
}

proof fn lemma_merge_spawns_rest(base: Seq<(Entity, Seq<u8>)>, extra: Seq<(Entity, Seq<u8>)>)
    ensures
        merge_spawns(base, extra) == base + merge_spawns(Seq::empty(), extra).filter(
            |s: (Entity, Seq<u8>)| !spawns_entity(base, s.0),
        ),
    decreases extra.len(),
{
    reveal(Seq::filter);
    let keep = |s: (Entity, Seq<u8>)| !spawns_entity(base, s.0);
    if extra.len() == 0 {
        assert(base + Seq::<(Entity, Seq<u8>)>::empty().filter(keep) =~= base);
    } else {
        let init = extra.drop_last();
        let s = extra.last();
        lemma_merge_spawns_rest(base, init);
        let firsts = merge_spawns(Seq::empty(), init);
        let kept = firsts.filter(keep);
        let merged = base + kept;
        firsts.lemma_filter_push(s, keep);
        if spawns_entity(base, s.0) {
            let i = choose|i: int| 0 <= i < base.len() && (#[trigger] base[i]).0 == s.0;
            assert(merged[i] == base[i]);
        } else {
            if spawns_entity(firsts, s.0) {
                let i = choose|i: int| 0 <= i < firsts.len() && (#[trigger] firsts[i]).0 == s.0;
                firsts.lemma_filter_contains(keep, i);
                let j = kept.index_of(firsts[i]);
                assert(merged[base.len() + j] == firsts[i]);
            }
            if spawns_entity(merged, s.0) {
                let i = choose|i: int| 0 <= i < merged.len() && (#[trigger] merged[i]).0 == s.0;
                if i < base.len() {
                    assert(base[i] == merged[i]);
                } else {
                    assert(kept[i - base.len()] == merged[i]);
                    firsts.lemma_filter_contains_rev(keep, merged[i]);
                    let j = firsts.index_of(merged[i]);
                    assert(firsts[j] == merged[i]);
                }
            }
            assert(merged.push(s) =~= base + kept.push(s));
        }
    }
}

proof fn lemma_merge_despawns_rest(base: Seq<Entity>, extra: Seq<Entity>)
    ensures
        merge_despawns(base, extra) == base + merge_despawns(Seq::empty(), extra).filter(
            |e: Entity| !base.contains(e),
        ),
    decreases extra.len(),
{
    reveal(Seq::filter);
    let keep = |e: Entity| !base.contains(e);
    if extra.len() == 0 {
        assert(base + Seq::<Entity>::empty().filter(keep) =~= base);
    } else {
        let init = extra.drop_last();
        let e = extra.last();
        lemma_merge_despawns_rest(base, init);
        let firsts = merge_despawns(Seq::empty(), init);
        let kept = firsts.filter(keep);
        let merged = base + kept;
        firsts.lemma_filter_push(e, keep);
        if base.contains(e) {
            let i = base.index_of(e);
            assert(merged[i] == e);
        } else {
            if firsts.contains(e) {
                let i = firsts.index_of(e);
                firsts.lemma_filter_contains(keep, i);
                let j = kept.index_of(e);
                assert(merged[base.len() + j] == e);
            }
            if merged.contains(e) {
                let i = merged.index_of(e);
                if i < base.len() {
                    assert(base[i] == e);
                } else {
                    assert(kept[i - base.len()] == e);
                    firsts.lemma_filter_contains_rev(keep, e);
                }
            }
            assert(merged.push(e) =~= base + kept.push(e));
        }
    }
}

/// The first change of each component, in order.
pub open spec fn first_changes(xs: Seq<ComponentDeltaModel>) -> Seq<ComponentDeltaModel> {
    merge_changes(Seq::empty(), xs)
}

/// The first spawn of each entity, in order.
pub open spec fn first_spawns(xs: Seq<(Entity, Seq<u8>)>) -> Seq<(Entity, Seq<u8>)> {
    merge_spawns(Seq::empty(), xs)
}

/// The first despawn of each entity, in order.
pub open spec fn first_despawns(xs: Seq<Entity>) -> Seq<Entity> {
    merge_despawns(Seq::empty(), xs)
}

/// A merge has what the winner has, as it is, and behind it, in order, what the
/// loser has and the winner does not clash with. Where the loser has several
/// entries of one kind for the same thing, the first of them counts.
pub proof fn lemma_merge_is_winner_then_rest(winner: DeltaModel, loser: DeltaModel)
    ensures
        merge(winner, loser).component_deltas == winner.component_deltas + first_changes(
            loser.component_deltas,
        ).filter(|cd: ComponentDeltaModel| !touches(winner.component_deltas, cd.entity, cd.component_type)),
        merge(winner, loser).spawned == winner.spawned + first_spawns(loser.spawned).filter(
            |s: (Entity, Seq<u8>)| !spawns_entity(winner.spawned, s.0),
        ),
        merge(winner, loser).despawned == winner.despawned + first_despawns(loser.despawned).filter(
            |e: Entity| !winner.despawned.contains(e),
        ),
        merge(winner, loser).events == winner.events + loser.events,
{
    lemma_merge_changes_rest(winner.component_deltas, loser.component_deltas);
    lemma_merge_spawns_rest(winner.spawned, loser.spawned);
    lemma_merge_despawns_rest(winner.despawned, loser.despawned);
}

/// No two changes are of one component of one entity.
pub open spec fn one_change_each(xs: Seq<ComponentDeltaModel>) -> bool {
    forall|i: int, j: int|
        0 <= i < j < xs.len() ==> !((#[trigger] xs[i]).entity == (#[trigger] xs[j]).entity && xs[i].component_type
            == xs[j].component_type)
}

/// Where no component has two changes, each is the first of its component.
pub proof fn lemma_single_changes_are_first(xs: Seq<ComponentDeltaModel>)
    requires
        one_change_each(xs),
    ensures
        first_changes(xs) == xs,
    decreases xs.len(),
{
    if xs.len() > 0 {
        let init = xs.drop_last();
        assert forall|i: int, j: int| 0 <= i < j < init.len() implies !((#[trigger] init[i]).entity == (
        #[trigger] init[j]).entity && init[i].component_type == init[j].component_type) by {
            assert(init[i] == xs[i] && init[j] == xs[j]);
        }
        lemma_single_changes_are_first(init);
        let cd = xs.last();
        if touches(init, cd.entity, cd.component_type) {
            let i = choose|i: int|
                0 <= i < init.len() && (#[trigger] init[i]).entity == cd.entity && init[i].component_type
                    == cd.component_type;
            assert(xs[i] == init[i] && xs[xs.len() - 1] == cd);
        }
        assert(init.push(cd) =~= xs);
    } else {
        assert(first_changes(xs) =~= xs);
    }
}

proof fn lemma_merge_despawns_contains(base: Seq<Entity>, extra: Seq<Entity>, e: Entity)
    ensures
        merge_despawns(base, extra).contains(e) <==> base.contains(e) || extra.contains(e),
    decreases extra.len(),
{
    let merged = merge_despawns(base, extra);
    if extra.len() > 0 {
        let init = merge_despawns(base, extra.drop_last());
        lemma_merge_despawns_contains(base, extra.drop_last(), e);
        let last = extra.last();
        assert(extra.contains(e) <==> extra.drop_last().contains(e) || e == last) by {
            if extra.contains(e) {
                let k = extra.index_of(e);
                if k < extra.len() - 1 {
                    assert(extra.drop_last()[k] == e);
                }
            }
            if extra.drop_last().contains(e) {
                assert(extra[extra.drop_last().index_of(e)] == e);
            }
            assert(extra[extra.len() - 1] == last);
        }
        if !init.contains(last) {
            assert(merged == init.push(last));
            if merged.contains(e) {
                let k = merged.index_of(e);
                if k < init.len() {
                    assert(init[k] == e);
                }
            }
            if init.contains(e) {
                assert(merged[init.index_of(e)] == e);
            }
            assert(merged[init.len() as int] == last);
        }
    }
}

/// The merge despawns exactly the entities that either client despawned.
pub proof fn lemma_merge_keeps_every_despawn(winner: DeltaModel, loser: DeltaModel, e: Entity)
    ensures
        merge(winner, loser).despawned.contains(e) <==> winner.despawned.contains(e)
            || loser.despawned.contains(e),
{
    lemma_merge_despawns_contains(winner.despawned, loser.despawned, e);
}

proof fn lemma_merge_spawns_entity(base: Seq<(Entity, Seq<u8>)>, extra: Seq<(Entity, Seq<u8>)>, e: Entity)
    ensures
        spawns_entity(merge_spawns(base, extra), e) <==> spawns_entity(base, e) || spawns_entity(extra, e),
    decreases extra.len(),
{
    let merged = merge_spawns(base, extra);
    if extra.len() > 0 {
        let init = merge_spawns(base, extra.drop_last());
        lemma_merge_spawns_entity(base, extra.drop_last(), e);
        let last = extra.last();
        assert(spawns_entity(extra, e) <==> spawns_entity(extra.drop_last(), e) || e == last.0) by {
            if spawns_entity(extra, e) {
                let k = choose|k: int| 0 <= k < extra.len() && (#[trigger] extra[k]).0 == e;
                if k < extra.len() - 1 {
                    assert(extra.drop_last()[k].0 == e);
                }
            }
            if spawns_entity(extra.drop_last(), e) {
                let k = choose|k: int|
                    0 <= k < extra.drop_last().len() && (#[trigger] extra.drop_last()[k]).0 == e;
                assert(extra[k].0 == e);
            }
            assert(extra[extra.len() - 1] == last);
        }
        if !spawns_entity(init, last.0) {
            assert(merged == init.push(last));
            if spawns_entity(merged, e) {
                let k = choose|k: int| 0 <= k < merged.len() && (#[trigger] merged[k]).0 == e;
                if k < init.len() {
                    assert(init[k].0 == e);
                }
            }
            if spawns_entity(init, e) {
                let k = choose|k: int| 0 <= k < init.len() && (#[trigger] init[k]).0 == e;
                assert(merged[k].0 == e);
            }
            assert(merged[init.len() as int] == last);
        }
    }
}

/// The merge spawns exactly the entities that either client spawned.
pub proof fn lemma_merge_keeps_every_spawn(winner: DeltaModel, loser: DeltaModel, e: Entity)
    ensures
        spawns_entity(merge(winner, loser).spawned, e) <==> spawns_entity(winner.spawned, e)
            || spawns_entity(loser.spawned, e),
{
    lemma_merge_spawns_entity(winner.spawned, loser.spawned, e);
}

} // verus!
