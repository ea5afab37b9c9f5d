//! The vocabulary of replication: encodings, conditions, ownership, events
//! and the frame delta, with the plain value that each of them stands for.

use vstd::prelude::*;
use crate::component::ComponentId;
use crate::entity::Entity;

verus! {

/// Outcome of an encode or decode operation.
#[derive(Copy, Clone, Debug, PartialEq, Eq, Structural)]
pub enum ErrorCode {
    Success,
    /// The input was shorter than the destination needs.
    BufferTooSmall { needed: usize },
    /// The input was malformed or did not match the schema.
    InvalidData,
    /// The encoder and the decoder are of different versions.
    VersionMismatch,
    /// An error of a custom codec.
    Custom(u32),
}

/// Identifies a connected client. Assigned by the connection manager.
#[derive(Copy, Clone, Debug, PartialEq, Eq, Structural, PartialOrd, Ord, Hash)]
pub struct ClientId(pub u64);

/// How a replicated field's value is encoded on the wire.
#[derive(Copy, Clone, Debug, PartialEq, Eq, Structural)]
pub enum ReplicationEncoding {
    /// The bytes of a plain value as they are.
    Pod,
    /// Bytes that a reflection layer produced.
    Serialized,
    /// Only the registry index of a GPU resource.
    GpuHandle,
    /// Difference from the last acknowledged value, as a variable-length number.
    DeltaCompressed,
    /// One-shot call, never part of a state delta.
    Event,
    /// A custom codec that each peer configures locally.
    Opaque,
}

/// Who receives a field and who may write it.
#[derive(Copy, Clone, Debug, PartialEq, Eq, Structural, Hash)]
pub enum ReplicationCondition {
    Always,
    OwnerOnly,
    SkipOwner,
    SimulatedOnly,
    AutonomousOnly,
    InitialOnly,
    ServerAuthority,
    ClientAuthority,
    ServerToClient,
    ClientToServer,
    Multicast,
}

/// Delivery guarantee of an event field.
#[derive(Copy, Clone, Debug, PartialEq, Eq, Structural, Hash)]
pub enum EventChannel {
    /// Delivered in order, with retransmission on loss.
    ReliableOrdered,
    /// May be dropped and may arrive out of order.
    Unreliable,
}

/// Who is allowed to modify an entity or a field.
#[derive(Copy, Clone, Debug, PartialEq, Eq, Structural)]
pub enum Ownership {
    Server,
    Client(ClientId),
    /// Anyone, with a deterministic tiebreak.
    Shared,
}

/// A one-shot call, delivered separately from state deltas.
#[derive(Clone, Debug)]
pub struct ReplicatedEvent {
    pub entity: Entity,
    pub component_type: ComponentId,
    pub event_field: u32,
    pub payload: Vec<u8>,
    pub channel: EventChannel,
    /// The intended recipient of an event that goes to one client.
    pub target_client: Option<ClientId>,
}

/// The value of a [`ReplicatedEvent`].
pub struct EventModel {
    pub entity: Entity,
    pub component_type: ComponentId,
    pub event_field: u32,
    pub payload: Seq<u8>,
    pub channel: EventChannel,
    pub target_client: Option<ClientId>,
}

impl View for ReplicatedEvent {
    type V = EventModel;

    open spec fn view(&self) -> EventModel {
        EventModel {
            entity: self.entity,
            component_type: self.component_type,
            event_field: self.event_field,
            payload: self.payload@,
            channel: self.channel,
            target_client: self.target_client,
        }
    }
}

/// The field bytes of one component of one entity, by field index.
#[derive(Clone, Debug)]
pub struct ComponentDelta {
    pub entity: Entity,
    pub component_type: ComponentId,
    pub field_data: Vec<Vec<u8>>,
}

/// The value of a [`ComponentDelta`].
pub struct ComponentDeltaModel {
    pub entity: Entity,
    pub component_type: ComponentId,
    pub field_data: Seq<Seq<u8>>,
}

/// The contents of a list of byte vectors.
pub open spec fn blobs(v: Seq<Vec<u8>>) -> Seq<Seq<u8>> {
    v.map_values(|b: Vec<u8>| b@)
}

impl View for ComponentDelta {
    type V = ComponentDeltaModel;

    open spec fn view(&self) -> ComponentDeltaModel {
        ComponentDeltaModel {
            entity: self.entity,
            component_type: self.component_type,
            field_data: blobs(self.field_data@),
        }
    }
}

/// The state changes of one frame.
#[derive(Clone, Debug)]
pub struct Delta {
    pub frame: u64,
    pub base_frame: u64,
    pub spawned: Vec<(Entity, Vec<u8>)>,
    pub despawned: Vec<Entity>,
    pub component_deltas: Vec<ComponentDelta>,
    pub events: Vec<ReplicatedEvent>,
}

/// The value of a [`Delta`].
pub struct DeltaModel {
    pub frame: u64,
    pub base_frame: u64,
    pub spawned: Seq<(Entity, Seq<u8>)>,
    pub despawned: Seq<Entity>,
    pub component_deltas: Seq<ComponentDeltaModel>,
    pub events: Seq<EventModel>,
}

/// The contents of a list of spawns.
pub open spec fn spawns(v: Seq<(Entity, Vec<u8>)>) -> Seq<(Entity, Seq<u8>)> {
    v.map_values(|s: (Entity, Vec<u8>)| (s.0, s.1@))
}

/// The contents of a list of component deltas.
pub open spec fn component_deltas(v: Seq<ComponentDelta>) -> Seq<ComponentDeltaModel> {
    v.map_values(|cd: ComponentDelta| cd@)
}

/// The contents of a list of events.
pub open spec fn events(v: Seq<ReplicatedEvent>) -> Seq<EventModel> {
    v.map_values(|ev: ReplicatedEvent| ev@)
}

impl View for Delta {
    type V = DeltaModel;

    open spec fn view(&self) -> DeltaModel {
        DeltaModel {
            frame: self.frame,
            base_frame: self.base_frame,
            spawned: spawns(self.spawned@),
            despawned: self.despawned@,
            component_deltas: component_deltas(self.component_deltas@),
            events: events(self.events@),
        }
    }
}

/// A copy of a list of byte vectors.
pub fn copy_blobs(v: &Vec<Vec<u8>>) -> (out: Vec<Vec<u8>>)
    ensures
        blobs(out@) == blobs(v@),
{
    let mut out: Vec<Vec<u8>> = Vec::new();
    let mut i: usize = 0;
    while i < v.len()
        invariant
            i <= v.len(),
            out@.len() == i,
            forall|k: int| 0 <= k < i ==> (#[trigger] out@[k])@ == v@[k]@,
        decreases v.len() - i,
    {
        out.push(vstd::slice::slice_to_vec(v[i].as_slice()));
        i = i + 1;
    }
    proof {
        assert(blobs(out@) =~= blobs(v@));
    }
    out
}

impl ReplicatedEvent {
    /// A second event with the same value.
    pub fn copy(&self) -> (ev: ReplicatedEvent)
        ensures
            ev@ == self@,
    {
        ReplicatedEvent {
            entity: self.entity,
            component_type: self.component_type,
            event_field: self.event_field,
            payload: vstd::slice::slice_to_vec(self.payload.as_slice()),
            channel: self.channel,
            target_client: self.target_client,
        }
    }
}

impl ComponentDelta {
    /// A second component delta with the same value.
    pub fn copy(&self) -> (cd: ComponentDelta)
        ensures
            cd@ == self@,
    {
        ComponentDelta {
            entity: self.entity,
            component_type: self.component_type,
            field_data: copy_blobs(&self.field_data),
        }
    }
}

} // verus!
