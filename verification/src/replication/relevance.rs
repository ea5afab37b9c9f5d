//! Interest management: which changes a connection receives.

use vstd::prelude::*;
use crate::entity::Entity;
use crate::replication::authority::{contains_entity, entity_owner, AuthorityModel, AuthorityTable};
use crate::replication::cell_map::{entity_at, EntityCellMap};
use crate::replication::schema::{lemma_schema_is_found, schema_of, unique_types, FieldDescriptor, ReplicationRegistry, SchemaModel};
use crate::replication::types::{ClientId, ComponentDelta, ComponentDeltaModel, Delta, EventModel, Ownership, ReplicatedEvent, ReplicationCondition};

verus! {

/// Row token of a query hit that stands for no row.
pub const NULL_ROW: u32 = 0xffff_ffff;

/// Whether a client receives a field, given who owns the entity.
pub open spec fn passes(condition: ReplicationCondition, owner: Ownership, client: ClientId) -> bool {
    match condition {
        ReplicationCondition::Always | ReplicationCondition::ServerAuthority
        | ReplicationCondition::ClientAuthority | ReplicationCondition::Multicast => true,
        ReplicationCondition::OwnerOnly | ReplicationCondition::AutonomousOnly => match owner {
            Ownership::Client(id) => id == client,
            Ownership::Server => false,
            Ownership::Shared => true,
        },
        ReplicationCondition::SkipOwner | ReplicationCondition::SimulatedOnly => match owner {
            Ownership::Client(id) => id != client,
            Ownership::Server | Ownership::Shared => true,
        },
        ReplicationCondition::InitialOnly | ReplicationCondition::ServerToClient
        | ReplicationCondition::ClientToServer => false,
    }
}

/// Whether a client receives a field with this condition, given the owner of
/// its entity.
pub fn condition_passes(condition: &ReplicationCondition, owner: &Ownership, client: &ClientId) -> (yes: bool)
    ensures
        yes == passes(*condition, *owner, *client),
        (*condition == ReplicationCondition::SkipOwner || *condition == ReplicationCondition::SimulatedOnly) ==> yes
            == (*owner != Ownership::Client(*client)),
        (*condition == ReplicationCondition::OwnerOnly || *condition == ReplicationCondition::AutonomousOnly) ==> yes
            == (*owner == Ownership::Client(*client) || *owner == Ownership::Shared),
        (*condition == ReplicationCondition::Always || *condition == ReplicationCondition::ServerAuthority
            || *condition == ReplicationCondition::ClientAuthority || *condition
            == ReplicationCondition::Multicast) ==> yes,
        (*condition == ReplicationCondition::InitialOnly || *condition == ReplicationCondition::ServerToClient
            || *condition == ReplicationCondition::ClientToServer) ==> !yes,
{
    match condition {
        ReplicationCondition::Always => true,
        ReplicationCondition::ServerAuthority => true,
        ReplicationCondition::ClientAuthority => true,
        ReplicationCondition::OwnerOnly | ReplicationCondition::AutonomousOnly => match owner {
            Ownership::Client(id) => *id == *client,
            Ownership::Server => false,
            Ownership::Shared => true,
        },
        ReplicationCondition::SkipOwner | ReplicationCondition::SimulatedOnly => match owner {
            Ownership::Client(id) => *id != *client,
            Ownership::Server => true,
            Ownership::Shared => true,
        },
        ReplicationCondition::InitialOnly => false,
        ReplicationCondition::ServerToClient => false,
        ReplicationCondition::ClientToServer => false,
        ReplicationCondition::Multicast => true,
    }
}

/// A field that skips the owner, and a field for simulated copies, reach a client
/// exactly if it is not the owner. A field for the owner only, and a field for
/// autonomous copies, reach it exactly if it is the owner or the entity is shared.
pub proof fn lemma_owner_conditions(owner: Ownership, client: ClientId)
    ensures
        passes(ReplicationCondition::SkipOwner, owner, client) <==> owner != Ownership::Client(client),
        passes(ReplicationCondition::SimulatedOnly, owner, client) <==> owner != Ownership::Client(client),
        passes(ReplicationCondition::OwnerOnly, owner, client) <==> owner == Ownership::Client(client) || owner
            == Ownership::Shared,
        passes(ReplicationCondition::AutonomousOnly, owner, client) <==> owner == Ownership::Client(client) || owner
            == Ownership::Shared,
{
}

/// Whoever owns the entity, the conditions that do not speak of the owner decide
/// alone: state for everyone reaches every client, and what is sent once or as a
/// call reaches none through a delta.
pub proof fn lemma_other_conditions(owner: Ownership, client: ClientId)
    ensures
        passes(ReplicationCondition::Always, owner, client),
        passes(ReplicationCondition::ServerAuthority, owner, client),
        passes(ReplicationCondition::ClientAuthority, owner, client),
        passes(ReplicationCondition::Multicast, owner, client),
        !passes(ReplicationCondition::InitialOnly, owner, client),
        !passes(ReplicationCondition::ServerToClient, owner, client),
        !passes(ReplicationCondition::ClientToServer, owner, client),
{
}

/// Every client receives a field for the owner or a field for the others; it
/// receives both exactly if the entity is shared.
pub proof fn lemma_owner_and_others(owner: Ownership, client: ClientId)
    ensures
        passes(ReplicationCondition::OwnerOnly, owner, client) || passes(
            ReplicationCondition::SkipOwner,
            owner,
            client,
        ),
        passes(ReplicationCondition::OwnerOnly, owner, client) && passes(
            ReplicationCondition::SkipOwner,
            owner,
            client,
        ) <==> owner == Ownership::Shared,
{
}

/// Finds the entity of a row of a spatial cell.
pub trait EntityResolver {
    /// The entity of a row, if it has one.
    spec fn resolves(&self, cell_idx: usize, row: u32) -> Option<Entity>;

    /// Whether the resolver may be asked.
    spec fn ready(&self) -> bool;

    /// The entity of a row, if it has one.
    fn resolve(&self, cell_idx: usize, row: u32) -> (found: Option<Entity>)
        requires
            self.ready(),
        ensures
            found == self.resolves(cell_idx, row),
    ;
}

impl EntityResolver for EntityCellMap {
    open spec fn resolves(&self, cell_idx: usize, row: u32) -> Option<Entity> {
        entity_at(self@, (cell_idx, row))
    }

    open spec fn ready(&self) -> bool {
        self.well_formed()
    }

    fn resolve(&self, cell_idx: usize, row: u32) -> (found: Option<Entity>) {
        self.entity_at(cell_idx, row)
    }
}

/// The entities of the hits in one cell, in hit order.
pub open spec fn cell_hits<R: EntityResolver>(r: &R, cell_idx: usize, tokens: Seq<u32>) -> Seq<Entity>
    decreases tokens.len(),
{
    if tokens.len() == 0 {
        Seq::empty()
    } else {
        let before = cell_hits(r, cell_idx, tokens.drop_last());
        if tokens.last() == NULL_ROW {
            before
        } else {
            match r.resolves(cell_idx, tokens.last()) {
                Some(e) => before.push(e),
                None => before,
            }
        }
    }
}

/// The entities of the hits in the first `n` cells, in cell order.
pub open spec fn frustum_hits<R: EntityResolver>(r: &R, cells: Seq<Vec<u32>>, n: nat) -> Seq<Entity>
    decreases n,
{
    if n == 0 {
        Seq::empty()
    } else {
        frustum_hits(r, cells, (n - 1) as nat) + cell_hits(r, (n - 1) as usize, cells[n - 1]@)
    }
}

/// The entities whose changes one connection receives. Its view is the list
/// of them.
#[derive(Clone, Debug)]
pub struct RelevanceSet {
    relevant_entities: Vec<Entity>,
}

impl View for RelevanceSet {
    type V = Seq<Entity>;

    closed spec fn view(&self) -> Seq<Entity> {
        self.relevant_entities@
    }
}

/// Whether a client receives a component delta: its entity is relevant, and
/// every field of its schema passes.
pub open spec fn delta_passes(
    cd: ComponentDeltaModel,
    relevant: Seq<Entity>,
    authority: AuthorityModel,
    reg: Seq<SchemaModel>,
    client: ClientId,
) -> bool {
    &&& relevant.contains(cd.entity)
    &&& schema_of(reg, cd.component_type) matches Some(s) ==> forall|i: int|
        0 <= i < s.fields.len() ==> passes(
            (#[trigger] s.fields[i]).condition,
            entity_owner(authority, cd.entity),
            client,
        )
}

/// An entity is among the hits of a query exactly if some row token of some cell, other
/// than the one that stands for no row, resolves to it.
pub proof fn lemma_hit_entities<R: EntityResolver>(r: &R, cells: Seq<Vec<u32>>, n: nat, e: Entity)
    requires
        n <= cells.len(),
        cells.len() <= usize::MAX,
    ensures
        frustum_hits(r, cells, n).contains(e) <==> exists|c: int, k: int|
            0 <= c < n && 0 <= k < cells[c]@.len() && #[trigger] cells[c]@[k] != NULL_ROW && r.resolves(
                c as usize,
                cells[c]@[k],
            ) == Some(e),
    decreases n,
{
    if n > 0 {
        let p = (n - 1) as nat;
        lemma_hit_entities(r, cells, p, e);
        lemma_cell_hits(r, p as usize, cells[p as int]@, e);
        let before = frustum_hits(r, cells, p);
        let here = cell_hits(r, p as usize, cells[p as int]@);
        let all = frustum_hits(r, cells, n);
        if all.contains(e) {
            let i = all.index_of(e);
            if i < before.len() {
                assert(before[i] == e);
            } else {
                assert(here[i - before.len()] == e);
                let k = choose|k: int|
                    0 <= k < cells[p as int]@.len() && #[trigger] cells[p as int]@[k] != NULL_ROW && r.resolves(
                        p as usize,
                        cells[p as int]@[k],
                    ) == Some(e);
                assert(cells[p as int]@[k] != NULL_ROW);
            }
        }
        if exists|c: int, k: int|
            0 <= c < n && 0 <= k < cells[c]@.len() && #[trigger] cells[c]@[k] != NULL_ROW && r.resolves(
                c as usize,
                cells[c]@[k],
            ) == Some(e) {
            let (c, k) = choose|c: int, k: int|
                0 <= c < n && 0 <= k < cells[c]@.len() && #[trigger] cells[c]@[k] != NULL_ROW && r.resolves(
                    c as usize,
                    cells[c]@[k],
                ) == Some(e);
            if c < p {
                assert(before.contains(e));
                let i = before.index_of(e);
                assert(all[i] == e);
            } else {
                assert(here.contains(e));
                let i = here.index_of(e);
                assert(all[before.len() + i] == e);
            }
        }
    }
}

proof fn lemma_cell_hits<R: EntityResolver>(r: &R, cell_idx: usize, tokens: Seq<u32>, e: Entity)
    ensures
        cell_hits(r, cell_idx, tokens).contains(e) <==> exists|k: int|
            0 <= k < tokens.len() && #[trigger] tokens[k] != NULL_ROW && r.resolves(cell_idx, tokens[k]) == Some(e),
    decreases tokens.len(),
{
    if tokens.len() > 0 {
        let init = tokens.drop_last();
        let n = tokens.len() - 1;
        lemma_cell_hits(r, cell_idx, init, e);
        let before = cell_hits(r, cell_idx, init);
        let all = cell_hits(r, cell_idx, tokens);
        assert(tokens[n] == tokens.last());
        if all.contains(e) {
            let i = all.index_of(e);
            if i < before.len() {
                assert(before[i] == e);
                let k = choose|k: int|
                    0 <= k < init.len() && #[trigger] init[k] != NULL_ROW && r.resolves(cell_idx, init[k]) == Some(e);
                assert(tokens[k] == init[k]);
            } else {
                assert(tokens[n] != NULL_ROW);
            }
        }
        if exists|k: int|
            0 <= k < tokens.len() && #[trigger] tokens[k] != NULL_ROW && r.resolves(cell_idx, tokens[k]) == Some(e) {
            let k = choose|k: int|
                0 <= k < tokens.len() && #[trigger] tokens[k] != NULL_ROW && r.resolves(cell_idx, tokens[k]) == Some(
                    e,
                );
            if k < n {
                assert(init[k] == tokens[k]);
                assert(before.contains(e));
                let i = before.index_of(e);
                assert(all[i] == e);
            } else {
                assert(all.last() == e);
            }
        }
    }
}

/// A client receives a component delta exactly if its entity is relevant and no field
/// of its schema keeps it back: none is for the start of a connection or for calls
/// only, none is for others than the owner where the client is the owner, and none is
/// for the owner where the client is not and the entity is not shared.
pub proof fn lemma_which_deltas_pass(
    cd: ComponentDeltaModel,
    relevant: Seq<Entity>,
    authority: AuthorityModel,
    reg: Seq<SchemaModel>,
    client: ClientId,
)
    requires
        unique_types(reg),
    ensures
        ({
            let owner = if authority.entities.contains_key(cd.entity) {
                authority.entities[cd.entity]
            } else {
                Ownership::Server
            };
            delta_passes(cd, relevant, authority, reg, client) <==> {
                &&& relevant.contains(cd.entity)
                &&& forall|k: int, i: int|
                    0 <= k < reg.len() && reg[k].component_type == cd.component_type && 0 <= i < reg[k].fields.len()
                        ==> {
                        let c = (#[trigger] reg[k].fields[i]).condition;
                        &&& c != ReplicationCondition::InitialOnly
                        &&& c != ReplicationCondition::ServerToClient
                        &&& c != ReplicationCondition::ClientToServer
                        &&& c == ReplicationCondition::SkipOwner || c == ReplicationCondition::SimulatedOnly ==> owner
                            != Ownership::Client(client)
                        &&& c == ReplicationCondition::OwnerOnly || c == ReplicationCondition::AutonomousOnly ==> owner
                            == Ownership::Client(client) || owner == Ownership::Shared
                    }
            }
        }),
{
    lemma_schema_is_found(reg, cd.component_type);
    let owner = entity_owner(authority, cd.entity);
    if let Some(s) = schema_of(reg, cd.component_type) {
        let k = reg.index_of(s);
        assert(reg[k] == s);
        if delta_passes(cd, relevant, authority, reg, client) {
            assert forall|k2: int, i: int|
                0 <= k2 < reg.len() && reg[k2].component_type == cd.component_type && 0 <= i
                    < reg[k2].fields.len() implies passes((#[trigger] reg[k2].fields[i]).condition, owner, client) by {
                assert(reg[k2].component_type == reg[k].component_type);
                assert(passes(s.fields[i].condition, owner, client));
            }
        } else if relevant.contains(cd.entity) {
            let i = choose|i: int|
                0 <= i < s.fields.len() && !passes((#[trigger] s.fields[i]).condition, owner, client);
            assert(!passes(reg[k].fields[i].condition, owner, client));
        }
    }
}

/// The parts of a delta that one connection receives, borrowed from it.
#[derive(Clone, Debug)]
pub struct DeltaView<'a> {
    pub spawned: &'a [(Entity, Vec<u8>)],
    pub despawned: &'a [Entity],
    pub component_deltas: Vec<&'a ComponentDelta>,
    pub events: Vec<&'a ReplicatedEvent>,
}

/// The contents of a list of borrowed component deltas.
pub open spec fn borrowed_deltas(v: Seq<&ComponentDelta>) -> Seq<ComponentDeltaModel> {
    v.map_values(|cd: &ComponentDelta| cd@)
}

/// The contents of a list of borrowed events.
pub open spec fn borrowed_events(v: Seq<&ReplicatedEvent>) -> Seq<EventModel> {
    v.map_values(|ev: &ReplicatedEvent| ev@)
}

fn schema_passes(fields: &Vec<FieldDescriptor>, owner: &Ownership, client: &ClientId) -> (yes: bool)
    ensures
        yes == forall|i: int|
            0 <= i < fields@.len() ==> passes((#[trigger] fields@[i]).condition, *owner, *client),
{
    let mut i: usize = 0;
    while i < fields.len()
        invariant
            i <= fields@.len(),
            forall|k: int| 0 <= k < i ==> passes((#[trigger] fields@[k]).condition, *owner, *client),
        decreases fields@.len() - i,
    {
        if !condition_passes(&fields[i].condition, owner, client) {
            proof {
                assert(!passes(fields@[i as int].condition, *owner, *client));
            }
            return false;
        }
        i = i + 1;
    }
    true
}

impl Default for RelevanceSet {
    fn default() -> (set: RelevanceSet)
        ensures
            set@ == Seq::<Entity>::empty(),
    {
        RelevanceSet::new()
    }
}

impl RelevanceSet {
    /// A set without entities.
    pub fn new() -> (set: RelevanceSet)
        ensures
            set@ == Seq::<Entity>::empty(),
    {
        RelevanceSet { relevant_entities: Vec::new() }
    }

    /// The set of the entities behind the hits of a frustum query.
    ///
    /// `cells[i]` holds the row tokens that the query of cell `i` returned.
    /// Tokens that stand for no row, and rows without an entity, are left out.
    pub fn from_frustum<R: EntityResolver>(cells: &[Vec<u32>], resolver: &R) -> (set: RelevanceSet)
        requires
            resolver.ready(),
        ensures
            set@ == frustum_hits(resolver, cells@, cells@.len()),
    {
        let mut set = RelevanceSet::new();
        let mut i: usize = 0;
        while i < cells.len()
            invariant
                i <= cells@.len(),
                resolver.ready(),
                set@ == frustum_hits(resolver, cells@, i as nat),
            decreases cells@.len() - i,
        {
            let ghost before = set@;
            let tokens = &cells[i];
            let mut k: usize = 0;
            proof {
                assert(tokens@.take(0) =~= Seq::<u32>::empty());
                assert(before =~= before + cell_hits(resolver, i, tokens@.take(0)));
            }
            while k < tokens.len()
                invariant
                    k <= tokens@.len(),
                    resolver.ready(),
                    set@ == before + cell_hits(resolver, i, tokens@.take(k as int)),
                decreases tokens@.len() - k,
            {
                let token: u32 = tokens[k];
                proof {
                    assert(tokens@.take(k + 1).drop_last() =~= tokens@.take(k as int));
                    assert(tokens@.take(k + 1).last() == token);
                }
                let ghost so_far = set@;
                if token != NULL_ROW {
                    match resolver.resolve(i, token) {
                        Some(e) => {
                            set.relevant_entities.push(e);
                            proof {
                                assert(set@ =~= before + cell_hits(resolver, i, tokens@.take(k + 1)));
                            }
                        },
                        None => {},
                    }
                }
                k = k + 1;
            }
            proof {
                assert(tokens@.take(tokens@.len() as int) =~= tokens@);
            }
            i = i + 1;
        }
        set
    }

    /// Like [`RelevanceSet::from_frustum`], with rows resolved through a map.
    pub fn from_frustum_mapped(cells: &[Vec<u32>], map: &EntityCellMap) -> (set: RelevanceSet)
        requires
            map.well_formed(),
        ensures
            set@ == frustum_hits(map, cells@, cells@.len()),
    {
        Self::from_frustum(cells, map)
    }

    /// Adds an entity that is relevant wherever it is.
    pub fn add_always_relevant(&mut self, entity: Entity)
        ensures
            final(self)@ == old(self)@.push(entity),
    {
        self.relevant_entities.push(entity);
    }

    /// Adds an entity.
    pub fn add(&mut self, entity: Entity)
        ensures
            final(self)@ == old(self)@.push(entity),
    {
        self.relevant_entities.push(entity);
    }

    /// Whether an entity is in the set.
    pub fn contains(&self, entity: Entity) -> (yes: bool)
        ensures
            yes == self@.contains(entity),
    {
        contains_entity(&self.relevant_entities, entity)
    }

    /// How many entries the set has.
    pub fn len(&self) -> (n: usize)
        ensures
            n == self@.len(),
    {
        self.relevant_entities.len()
    }

    /// Whether the set has no entries.
    pub fn is_empty(&self) -> (empty: bool)
        ensures
            empty == (self@.len() == 0),
    {
        self.relevant_entities.is_empty()
    }

    /// The parts of a delta that `client` receives: every spawn and despawn,
    /// the component deltas of relevant entities all of whose fields pass, and
    /// the events of relevant entities.
    pub fn filter<'a>(
        &self,
        delta: &'a Delta,
        authority: &AuthorityTable,
        schema_registry: &ReplicationRegistry,
        client: ClientId,
    ) -> (view: DeltaView<'a>)
        requires
            authority.well_formed(),
            schema_registry.well_formed(),
        ensures
            view.spawned@ == delta.spawned@,
            view.despawned@ == delta.despawned@,
            borrowed_deltas(view.component_deltas@) == delta@.component_deltas.filter(
                |cd: ComponentDeltaModel|
                    delta_passes(cd, self@, authority@, schema_registry@, client),
            ),
            borrowed_events(view.events@) == delta@.events.filter(
                |ev: EventModel| self@.contains(ev.entity),
            ),
    {
        let ghost keep = |cd: ComponentDeltaModel|
            delta_passes(cd, self@, authority@, schema_registry@, client);
        let ghost all = delta@.component_deltas;
        let mut kept: Vec<&'a ComponentDelta> = Vec::new();
        let mut i: usize = 0;
        proof {
            reveal(Seq::filter);
            assert(all.take(0) =~= Seq::<ComponentDeltaModel>::empty());
            assert(borrowed_deltas(kept@) =~= all.take(0).filter(keep));
        }
        while i < delta.component_deltas.len()
            invariant
                i <= delta.component_deltas@.len(),
                all == delta@.component_deltas,
                all.len() == delta.component_deltas@.len(),
                authority.well_formed(),
                schema_registry.well_formed(),
                keep == (|cd: ComponentDeltaModel|
                    delta_passes(cd, self@, authority@, schema_registry@, client)),
                borrowed_deltas(kept@) == all.take(i as int).filter(keep),
            decreases delta.component_deltas@.len() - i,
        {
            let ghost before = borrowed_deltas(kept@);
            let cd: &'a ComponentDelta = &delta.component_deltas[i];
            let pass: bool = self.contains(cd.entity) && {
                let owner = authority.owner_of(cd.entity);
                match schema_registry.schema(cd.component_type) {
                    Some(s) => schema_passes(&s.fields, &owner, &client),
                    None => true,
                }
            };
            proof {
                reveal(Seq::filter);
                assert(pass == keep(cd@));
                assert(all.take(i + 1).drop_last() =~= all.take(i as int));
                assert(all.take(i + 1).last() == cd@);
            }
            if pass {
                kept.push(cd);
                proof {
                    assert(borrowed_deltas(kept@) =~= before.push(cd@));
                }
            }
            i = i + 1;
        }
        let ghost heard = |ev: EventModel| self@.contains(ev.entity);
        let ghost evs = delta@.events;
        let mut events: Vec<&'a ReplicatedEvent> = Vec::new();
        let mut j: usize = 0;
        proof {
            reveal(Seq::filter);
            assert(all.take(all.len() as int) =~= all);
            assert(evs.take(0) =~= Seq::<EventModel>::empty());
            assert(borrowed_events(events@) =~= evs.take(0).filter(heard));
        }
        while j < delta.events.len()
            invariant
                j <= delta.events@.len(),
                evs == delta@.events,
                evs.len() == delta.events@.len(),
                heard == (|ev: EventModel| self@.contains(ev.entity)),
                borrowed_events(events@) == evs.take(j as int).filter(heard),
            decreases delta.events@.len() - j,
        {
            let ghost before = borrowed_events(events@);
            let ev: &'a ReplicatedEvent = &delta.events[j];
            let pass: bool = self.contains(ev.entity);
            proof {
                reveal(Seq::filter);
                assert(evs.take(j + 1).drop_last() =~= evs.take(j as int));
                assert(evs.take(j + 1).last() == ev@);
            }
            if pass {
                events.push(ev);
                proof {
                    assert(borrowed_events(events@) =~= before.push(ev@));
                }
            }
            j = j + 1;
        }
        proof {
            assert(evs.take(evs.len() as int) =~= evs);
        }
        DeltaView {
            spawned: delta.spawned.as_slice(),
            despawned: delta.despawned.as_slice(),
            component_deltas: kept,
            events,
        }
    }
}

} // verus!
