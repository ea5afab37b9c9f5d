//! Events on their way to one connection.

use vstd::prelude::*;
use crate::replication::relevance::{borrowed_events, DeltaView};
use crate::replication::schema::{lemma_schema_is_found, schema_of, unique_types, FieldDescriptor, ReplicationRegistry, SchemaModel};
use crate::replication::types::{events, ClientId, EventModel, ReplicatedEvent, ReplicationCondition};

verus! {

/// A batch of events for one connection, sent apart from the deltas.
#[derive(Clone, Debug)]
pub struct EventBatch {
    pub frame: u64,
    pub events: Vec<ReplicatedEvent>,
}

/// Whether a condition is one of the three directions of a remote call.
pub open spec fn is_direction(c: ReplicationCondition) -> bool {
    c == ReplicationCondition::ClientToServer || c == ReplicationCondition::ServerToClient || c
        == ReplicationCondition::Multicast
}

/// Whether a direction lets an event go from `sender` to `recipient`. A
/// condition that is no direction does not hold events back.
pub open spec fn direction_allows(c: ReplicationCondition, sender: ClientId, recipient: ClientId) -> bool {
    match c {
        ReplicationCondition::ServerToClient => sender == recipient,
        ReplicationCondition::Multicast => sender != recipient,
        _ => true,
    }
}

/// The first field with the given index.
pub open spec fn field_at(fields: Seq<FieldDescriptor>, index: u32) -> Option<FieldDescriptor>
    decreases fields.len(),
{
    if fields.len() == 0 {
        None
    } else if fields[0].field_index == index {
        Some(fields[0])
    } else {
        field_at(fields.skip(1), index)
    }
}

/// Whether an event may go from `sender` to `recipient`: the direction of its
/// field allows it, or no direction is known.
pub open spec fn sendable(ev: EventModel, reg: Seq<SchemaModel>, sender: ClientId, recipient: ClientId) -> bool {
    match schema_of(reg, ev.component_type) {
        Some(s) => match field_at(s.fields, ev.event_field) {
            Some(f) => direction_allows(f.condition, sender, recipient),
            None => true,
        },
        None => true,
    }
}

/// A call from the server to a client goes to the client it is sent for only, a
/// multicast goes to everyone but its sender, and a call to the server always goes.
pub proof fn lemma_event_directions(sender: ClientId, recipient: ClientId)
    ensures
        direction_allows(ReplicationCondition::ServerToClient, sender, recipient) <==> sender == recipient,
        direction_allows(ReplicationCondition::Multicast, sender, recipient) <==> sender != recipient,
        direction_allows(ReplicationCondition::ClientToServer, sender, recipient),
        forall|c: ReplicationCondition|
            c != ReplicationCondition::ServerToClient && c != ReplicationCondition::Multicast
                ==> #[trigger] direction_allows(c, sender, recipient),
{
}

/// The field that an event names is the first of its schema with that index.
pub proof fn lemma_named_field(fields: Seq<FieldDescriptor>, index: u32)
    ensures
        match field_at(fields, index) {
            Some(f) => exists|i: int|
                0 <= i < fields.len() && #[trigger] fields[i] == f && f.field_index == index && forall|j: int|
                    0 <= j < i ==> (#[trigger] fields[j]).field_index != index,
            None => forall|i: int| 0 <= i < fields.len() ==> (#[trigger] fields[i]).field_index != index,
        },
    decreases fields.len(),
{
    if fields.len() > 0 && fields[0].field_index != index {
        let rest = fields.skip(1);
        lemma_named_field(rest, index);
        if let Some(f) = field_at(rest, index) {
            let i = choose|i: int|
                0 <= i < rest.len() && #[trigger] rest[i] == f && f.field_index == index && forall|j: int|
                    0 <= j < i ==> (#[trigger] rest[j]).field_index != index;
            assert(fields[i + 1] == f);
            assert forall|j: int| 0 <= j < i + 1 implies (#[trigger] fields[j]).field_index != index by {
                if j > 0 {
                    assert(rest[j - 1] == fields[j]);
                }
            }
        } else {
            assert forall|i: int| 0 <= i < fields.len() implies (#[trigger] fields[i]).field_index != index by {
                if i > 0 {
                    assert(rest[i - 1] == fields[i]);
                }
            }
        }
    } else if fields.len() > 0 {
        assert(fields[0].field_index == index);
    }
}

/// An event of a known field, the first of its schema with its index, is held back
/// exactly if the field is a call from the server and the recipient is not the sender,
/// or a multicast and the recipient is the sender.
pub proof fn lemma_which_events_go(
    ev: EventModel,
    reg: Seq<SchemaModel>,
    sender: ClientId,
    recipient: ClientId,
    k: int,
    i: int,
)
    requires
        unique_types(reg),
        0 <= k < reg.len(),
        reg[k].component_type == ev.component_type,
        0 <= i < reg[k].fields.len(),
        reg[k].fields[i].field_index == ev.event_field,
        forall|j: int| 0 <= j < i ==> (#[trigger] reg[k].fields[j]).field_index != ev.event_field,
    ensures
        !sendable(ev, reg, sender, recipient) <==> (reg[k].fields[i].condition == ReplicationCondition::ServerToClient
            && sender != recipient || reg[k].fields[i].condition == ReplicationCondition::Multicast && sender
            == recipient),
{
    lemma_schema_is_found(reg, ev.component_type);
    let fields = reg[k].fields;
    assert(schema_of(reg, ev.component_type) == Some(reg[k]));
    lemma_named_field(fields, ev.event_field);
    assert(field_at(fields, ev.event_field) is Some) by {
        if field_at(fields, ev.event_field) is None {
            assert(fields[i].field_index != ev.event_field);
        }
    }
    let f = field_at(fields, ev.event_field).unwrap();
    let i2 = choose|i2: int|
        0 <= i2 < fields.len() && #[trigger] fields[i2] == f && f.field_index == ev.event_field && forall|j: int|
            0 <= j < i2 ==> (#[trigger] fields[j]).field_index != ev.event_field;
    assert(i2 == i) by {
        if i < i2 {
            assert(fields[i].field_index != ev.event_field);
        } else if i2 < i {
            assert(reg[k].fields[i2].field_index != ev.event_field);
        }
    }
}

/// An event whose field no schema knows is never held back.
pub proof fn lemma_unknown_events_go(ev: EventModel, reg: Seq<SchemaModel>, sender: ClientId, recipient: ClientId)
    requires
        unique_types(reg),
        forall|k: int, i: int|
            0 <= k < reg.len() && reg[k].component_type == ev.component_type && 0 <= i < reg[k].fields.len() ==> (
            #[trigger] reg[k].fields[i]).field_index != ev.event_field,
    ensures
        sendable(ev, reg, sender, recipient),
{
    lemma_schema_is_found(reg, ev.component_type);
    if let Some(s) = schema_of(reg, ev.component_type) {
        let k = reg.index_of(s);
        lemma_named_field(s.fields, ev.event_field);
        if let Some(f) = field_at(s.fields, ev.event_field) {
            let i = choose|i: int|
                0 <= i < s.fields.len() && #[trigger] s.fields[i] == f && f.field_index == ev.event_field
                    && forall|j: int| 0 <= j < i ==> (#[trigger] s.fields[j]).field_index != ev.event_field;
            assert(reg[k].fields[i].field_index == ev.event_field);
        }
    }
}

/// Whether an event whose field has this direction may go from `sender` to
/// `recipient`. One that may not is to be dropped silently.
pub fn can_send_event(direction: &ReplicationCondition, sender: ClientId, recipient: ClientId) -> (yes: bool)
    requires
        is_direction(*direction),
    ensures
        yes == direction_allows(*direction, sender, recipient),
        *direction == ReplicationCondition::ServerToClient ==> yes == (sender == recipient),
        *direction == ReplicationCondition::Multicast ==> yes == (sender != recipient),
        *direction == ReplicationCondition::ClientToServer ==> yes,
{
    match direction {
        ReplicationCondition::ServerToClient => sender == recipient,
        ReplicationCondition::Multicast => sender != recipient,
        _ => true,
    }
}

fn find_field(fields: &Vec<FieldDescriptor>, index: u32) -> (found: Option<&FieldDescriptor>)
    ensures
        match found {
            Some(f) => field_at(fields@, index) == Some(*f),
            None => field_at(fields@, index) is None,
        },
{
    let mut i: usize = 0;
    proof {
        assert(fields@.skip(0) =~= fields@);
    }
    while i < fields.len()
        invariant
            i <= fields@.len(),
            field_at(fields@, index) == field_at(fields@.skip(i as int), index),
        decreases fields@.len() - i,
    {
        if fields[i].field_index == index {
            return Some(&fields[i]);
        }
        proof {
            assert(fields@.skip(i as int).skip(1) =~= fields@.skip(i + 1));
        }
        i = i + 1;
    }
    None
}

/// The events of a view that may go from `sender` to `recipient`, as a batch;
/// `None` if there are none.
pub fn events_to_batch(
    view: &DeltaView<'_>,
    frame: u64,
    schema_registry: &ReplicationRegistry,
    sender: ClientId,
    recipient: ClientId,
) -> (batch: Option<EventBatch>)
    requires
        schema_registry.well_formed(),
    ensures
        match batch {
            Some(b) => b.frame == frame && events(b.events@) == borrowed_events(view.events@).filter(
                |ev: EventModel| sendable(ev, schema_registry@, sender, recipient),
            ) && b.events@.len() > 0,
            None => borrowed_events(view.events@).filter(
                |ev: EventModel| sendable(ev, schema_registry@, sender, recipient),
            ).len() == 0,
        },
{
    let ghost keep = |ev: EventModel| sendable(ev, schema_registry@, sender, recipient);
    let ghost all = borrowed_events(view.events@);
    let mut kept: Vec<ReplicatedEvent> = Vec::new();
    let mut i: usize = 0;
    proof {
        reveal(Seq::filter);
        assert(all.take(0) =~= Seq::<EventModel>::empty());
        assert(events(kept@) =~= all.take(0).filter(keep));
    }
    while i < view.events.len()
        invariant
            i <= view.events@.len(),
            all == borrowed_events(view.events@),
            all.len() == view.events@.len(),
            schema_registry.well_formed(),
            keep == (|ev: EventModel| sendable(ev, schema_registry@, sender, recipient)),
            events(kept@) == all.take(i as int).filter(keep),
        decreases view.events@.len() - i,
    {
        let ghost before = events(kept@);
        let ev: &ReplicatedEvent = view.events[i];
        let pass: bool = match schema_registry.schema(ev.component_type) {
            Some(s) => match find_field(&s.fields, ev.event_field) {
                Some(f) => match f.condition {
                    ReplicationCondition::ClientToServer | ReplicationCondition::ServerToClient
                    | ReplicationCondition::Multicast => can_send_event(&f.condition, sender, recipient),
                    _ => true,
                },
                None => true,
            },
            None => true,
        };
        proof {
            reveal(Seq::filter);
            assert(all[i as int] == ev@);
            assert(pass == keep(ev@));
            assert(all.take(i + 1).drop_last() =~= all.take(i as int));
            assert(all.take(i + 1).last() == ev@);
        }
        if pass {
            kept.push(ev.copy());
            proof {
                assert(events(kept@) =~= before.push(ev@));
            }
        }
        i = i + 1;
    }
    proof {
        assert(all.take(all.len() as int) =~= all);
    }
    if kept.is_empty() {
        None
    } else {
        Some(EventBatch { frame, events: kept })
    }
}

} // verus!
