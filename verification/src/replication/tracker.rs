//! The change tracker, and the world operations that report to it.

use vstd::prelude::*;
use vstd::bytes::u64_to_le_bytes;
use crate::component::ComponentId;
use crate::entity::Entity;
use crate::replication::authority::AuthorityTable;
use crate::replication::encoding::{archetype_key_wire, encode_archetype_key};
use crate::replication::schema::ReplicationSchema;
use crate::replication::types::{blobs, component_deltas, events, spawns, ClientId, ComponentDelta, ComponentDeltaModel, Delta, DeltaModel, EventModel, ReplicatedEvent};
use crate::replication::value::ReplicatedValue;
use crate::replication::wire::u64_wire;
use crate::world::World;

verus! {

/// Accumulates the changes to a world during one frame.
#[derive(Debug)]
pub struct ChangeTracker {
    pub spawned: Vec<Entity>,
    pub despawned: Vec<Entity>,
    pub component_changes: Vec<ComponentDelta>,
    pub events: Vec<ReplicatedEvent>,
    pub frame: u64,
}

/// The value of a [`ChangeTracker`].
pub struct TrackerModel {
    pub spawned: Seq<Entity>,
    pub despawned: Seq<Entity>,
    pub component_changes: Seq<ComponentDeltaModel>,
    pub events: Seq<EventModel>,
    pub frame: u64,
}

impl View for ChangeTracker {
    type V = TrackerModel;

    open spec fn view(&self) -> TrackerModel {
        TrackerModel {
            spawned: self.spawned@,
            despawned: self.despawned@,
            component_changes: component_deltas(self.component_changes@),
            events: events(self.events@),
            frame: self.frame,
        }
    }
}

/// `fields` with `bytes` at index `at`; missing indexes are filled with empty
/// blobs.
pub open spec fn put_field(fields: Seq<Seq<u8>>, at: int, bytes: Seq<u8>) -> Seq<Seq<u8>> {
    Seq::new(
        if fields.len() > at {
            fields.len()
        } else {
            (at + 1) as nat
        },
        |i: int|
            if i == at {
                bytes
            } else if i < fields.len() {
                fields[i]
            } else {
                Seq::empty()
            },
    )
}

/// The first component delta of component `cid` of entity `e`, from `i` on.
pub open spec fn change_index(changes: Seq<ComponentDeltaModel>, e: Entity, cid: ComponentId, i: int) -> Option<int>
    decreases changes.len() - i,
{
    if i < 0 || i >= changes.len() {
        None
    } else if changes[i].entity == e && changes[i].component_type == cid {
        Some(i)
    } else {
        change_index(changes, e, cid, i + 1)
    }
}

/// The component deltas after `bytes` was recorded for a field.
pub open spec fn record_change(
    changes: Seq<ComponentDeltaModel>,
    e: Entity,
    cid: ComponentId,
    field: u32,
    bytes: Seq<u8>,
) -> Seq<ComponentDeltaModel> {
    match change_index(changes, e, cid, 0) {
        Some(i) => changes.update(
            i,
            ComponentDeltaModel {
                entity: e,
                component_type: cid,
                field_data: put_field(changes[i].field_data, field as int, bytes),
            },
        ),
        None => changes.push(
            ComponentDeltaModel {
                entity: e,
                component_type: cid,
                field_data: put_field(Seq::empty(), field as int, bytes),
            },
        ),
    }
}

/// The frame before `frame`, wrapping around.
pub open spec fn previous_frame(frame: u64) -> u64 {
    if frame == 0 {
        u64::MAX
    } else {
        (frame - 1) as u64
    }
}

/// The frame after `frame`, wrapping around.
pub open spec fn next_frame(frame: u64) -> u64 {
    if frame == u64::MAX {
        0
    } else {
        (frame + 1) as u64
    }
}

/// The tracker with nothing recorded, at the same frame.
pub open spec fn emptied(t: TrackerModel) -> TrackerModel {
    TrackerModel {
        spawned: Seq::empty(),
        despawned: Seq::empty(),
        component_changes: Seq::empty(),
        events: Seq::empty(),
        frame: t.frame,
    }
}

/// What a tracker has recorded, as a delta with the given spawn list.
pub open spec fn drained(t: TrackerModel, spawned: Seq<(Entity, Seq<u8>)>) -> DeltaModel {
    DeltaModel {
        frame: t.frame,
        base_frame: previous_frame(t.frame),
        spawned,
        despawned: t.despawned,
        component_deltas: t.component_changes,
        events: t.events,
    }
}

/// Every spawned entity with the frame number as its blob.
pub open spec fn frame_marked(spawned: Seq<Entity>, frame: u64) -> Seq<(Entity, Seq<u8>)> {
    spawned.map_values(|e: Entity| (e, u64_wire(frame)))
}

/// The blob that describes an entity's archetype, empty if it is dead.
pub open spec fn archetype_blob<V>(world: &World<V>, e: Entity) -> Seq<u8> {
    if world@.contains_key(e) {
        archetype_key_wire(world.key_of(e))
    } else {
        Seq::empty()
    }
}

/// Every spawned entity with its archetype as its blob.
pub open spec fn archetype_marked<V>(spawned: Seq<Entity>, world: &World<V>) -> Seq<(Entity, Seq<u8>)> {
    spawned.map_values(|e: Entity| (e, archetype_blob(world, e)))
}

/// The bytes of field `at` in a list of blobs; none if the list is too short.
pub open spec fn field_at(fields: Seq<Seq<u8>>, at: int) -> Seq<u8> {
    if 0 <= at < fields.len() {
        fields[at]
    } else {
        Seq::empty()
    }
}

/// The first delta of the component is where a search finds it.
proof fn lemma_change_index(changes: Seq<ComponentDeltaModel>, e: Entity, cid: ComponentId, i: int)
    requires
        0 <= i <= changes.len(),
    ensures
        match change_index(changes, e, cid, i) {
            Some(k) => {
                &&& i <= k < changes.len()
                &&& changes[k].entity == e
                &&& changes[k].component_type == cid
                &&& forall|j: int|
                    i <= j < k ==> !((#[trigger] changes[j]).entity == e && changes[j].component_type == cid)
            },
            None => forall|j: int|
                i <= j < changes.len() ==> !((#[trigger] changes[j]).entity == e && changes[j].component_type == cid),
        },
    decreases changes.len() - i,
{
    if i < changes.len() && !(changes[i].entity == e && changes[i].component_type == cid) {
        lemma_change_index(changes, e, cid, i + 1);
    }
}

/// After bytes were recorded for a field, the delta of the component has exactly
/// those bytes there, whatever it had before. It is the first delta of the component,
/// or a new one at the end if there was none. Its other fields and all other deltas
/// are as before.
pub proof fn lemma_recorded_bytes(
    changes: Seq<ComponentDeltaModel>,
    e: Entity,
    cid: ComponentId,
    field: u32,
    bytes: Seq<u8>,
) -> (i: int)
    ensures
        ({
            let after = record_change(changes, e, cid, field, bytes);
            &&& 0 <= i <= changes.len()
            &&& after.len() == (if i < changes.len() {
                changes.len()
            } else {
                changes.len() + 1
            })
            &&& after[i].entity == e
            &&& after[i].component_type == cid
            &&& field < after[i].field_data.len()
            &&& after[i].field_data[field as int] == bytes
            &&& forall|g: int|
                g != field ==> #[trigger] field_at(after[i].field_data, g) == (if i < changes.len() {
                    field_at(changes[i].field_data, g)
                } else {
                    Seq::empty()
                })
            &&& i < changes.len() ==> {
                &&& changes[i].entity == e
                &&& changes[i].component_type == cid
                &&& after[i].field_data.len() == vstd::math::max(changes[i].field_data.len() as int, field + 1)
            }
            &&& i == changes.len() ==> after[i].field_data.len() == field + 1
            &&& forall|j: int| 0 <= j < changes.len() && j != i ==> #[trigger] after[j] == changes[j]
            &&& forall|j: int|
                0 <= j < i ==> !((#[trigger] changes[j]).entity == e && changes[j].component_type == cid)
        }),
{
    lemma_change_index(changes, e, cid, 0);
    match change_index(changes, e, cid, 0) {
        Some(i) => i,
        None => changes.len() as int,
    }
}

/// No component has two deltas.
pub open spec fn one_delta_each(changes: Seq<ComponentDeltaModel>) -> bool {
    forall|i: int, j: int|
        0 <= i < j < changes.len() ==> !((#[trigger] changes[i]).entity == (#[trigger] changes[j]).entity
            && changes[i].component_type == changes[j].component_type)
}

/// Recording keeps to one delta for each component: afterwards exactly one delta is of
/// the component, and it has the bytes.
pub proof fn lemma_one_delta_each(
    changes: Seq<ComponentDeltaModel>,
    e: Entity,
    cid: ComponentId,
    field: u32,
    bytes: Seq<u8>,
)
    requires
        one_delta_each(changes),
    ensures
        one_delta_each(record_change(changes, e, cid, field, bytes)),
        forall|k: int|
            0 <= k < record_change(changes, e, cid, field, bytes).len() && (#[trigger] record_change(
                changes,
                e,
                cid,
                field,
                bytes,
            )[k]).entity == e && record_change(changes, e, cid, field, bytes)[k].component_type == cid ==> field
                < record_change(changes, e, cid, field, bytes)[k].field_data.len() && record_change(
                changes,
                e,
                cid,
                field,
                bytes,
            )[k].field_data[field as int] == bytes,
{
    let i = lemma_recorded_bytes(changes, e, cid, field, bytes);
    let after = record_change(changes, e, cid, field, bytes);
    assert forall|a: int, b: int| 0 <= a < b < after.len() implies !((#[trigger] after[a]).entity == (
    #[trigger] after[b]).entity && after[a].component_type == after[b].component_type) by {
        if a != i {
            assert(after[a] == changes[a]);
        }
        if b != i {
            assert(after[b] == changes[b]);
        }
        if a == i && b < changes.len() && i < changes.len() {
            assert(!(changes[a].entity == changes[b].entity && changes[a].component_type
                == changes[b].component_type));
        } else if b < changes.len() {
            assert(!(changes[a].entity == changes[b].entity && changes[a].component_type
                == changes[b].component_type));
        }
    }
    assert forall|k: int|
        0 <= k < after.len() && (#[trigger] after[k]).entity == e && after[k].component_type == cid implies field
        < after[k].field_data.len() && after[k].field_data[field as int] == bytes by {
        if k < i {
            assert(!(after[k].entity == after[i].entity && after[k].component_type == after[i].component_type));
        } else if i < k {
            assert(!(after[i].entity == after[k].entity && after[i].component_type == after[k].component_type));
        }
    }
}

/// Of two recordings for the same field the later one counts.
pub proof fn lemma_later_recording_counts(
    changes: Seq<ComponentDeltaModel>,
    e: Entity,
    cid: ComponentId,
    field: u32,
    first: Seq<u8>,
    second: Seq<u8>,
)
    ensures
        record_change(record_change(changes, e, cid, field, first), e, cid, field, second) == record_change(
            changes,
            e,
            cid,
            field,
            second,
        ),
{
    let once = record_change(changes, e, cid, field, first);
    let twice = record_change(once, e, cid, field, second);
    let direct = record_change(changes, e, cid, field, second);
    let i = lemma_recorded_bytes(changes, e, cid, field, first);
    let i2 = lemma_recorded_bytes(once, e, cid, field, second);
    let i3 = lemma_recorded_bytes(changes, e, cid, field, second);
    assert(i == i3) by {
        if i < i3 {
            assert(changes[i].entity == e);
        } else if i3 < i {
            assert(changes[i3].entity == e);
        }
    }
    assert(i2 == i) by {
        if i < i2 {
            assert(once[i].entity == e);
        } else if i2 < i {
            assert(once[i2] == changes[i2]);
        }
    }
    assert forall|j: int| 0 <= j < direct.len() implies #[trigger] twice[j] == direct[j] by {
        if j == i {
            assert forall|g: int| 0 <= g < direct[i].field_data.len() implies #[trigger] twice[i].field_data[g]
                == direct[i].field_data[g] by {
                assert(field_at(twice[i].field_data, g) == twice[i].field_data[g]);
                assert(field_at(direct[i].field_data, g) == direct[i].field_data[g]);
                if g != field {
                    assert(field_at(once[i].field_data, g) == (if i < changes.len() {
                        field_at(changes[i].field_data, g)
                    } else {
                        Seq::empty()
                    }));
                }
            }
            assert(twice[i].field_data =~= direct[i].field_data);
        } else {
            assert(once[j] == changes[j]);
        }
    }
    assert(twice =~= direct);
}

/// Recordings for two different fields of a component do not touch each other.
pub proof fn lemma_fields_are_recorded_apart(
    changes: Seq<ComponentDeltaModel>,
    e: Entity,
    cid: ComponentId,
    f: u32,
    a: Seq<u8>,
    g: u32,
    b: Seq<u8>,
)
    requires
        f != g,
        one_delta_each(changes),
    ensures
        ({
            let after = record_change(record_change(changes, e, cid, f, a), e, cid, g, b);
            exists|i: int|
                0 <= i < after.len() && (#[trigger] after[i]).entity == e && after[i].component_type == cid
                    && field_at(after[i].field_data, f as int) == a && field_at(after[i].field_data, g as int) == b
        }),
{
    let once = record_change(changes, e, cid, f, a);
    let after = record_change(once, e, cid, g, b);
    lemma_one_delta_each(changes, e, cid, f, a);
    let i = lemma_recorded_bytes(once, e, cid, g, b);
    let i0 = lemma_recorded_bytes(changes, e, cid, f, a);
    assert(once[i0].entity == e && once[i0].component_type == cid);
    assert(i <= i0);
    assert(field_at(once[i].field_data, f as int) == a);
    assert(after[i].entity == e);
}

/// A delta is based on the frame just before its own, and the next frame is based on
/// this one; only frame 0 has the last frame before it.
pub proof fn lemma_frames_follow(frame: u64)
    ensures
        frame > 0 ==> previous_frame(frame) == frame - 1,
        frame < u64::MAX ==> next_frame(frame) == frame + 1,
        previous_frame(next_frame(frame)) == frame,
        next_frame(previous_frame(frame)) == frame,
{
}

/// What is drained is what was recorded, nothing more and nothing less, with the
/// current frame; and nothing is drained twice.
pub proof fn lemma_drained_is_recorded(t: TrackerModel, spawned: Seq<(Entity, Seq<u8>)>)
    ensures
        drained(t, spawned).frame == t.frame,
        t.frame > 0 ==> drained(t, spawned).base_frame == t.frame - 1,
        drained(t, spawned).spawned == spawned,
        drained(t, spawned).despawned == t.despawned,
        drained(t, spawned).component_deltas == t.component_changes,
        drained(t, spawned).events == t.events,
        emptied(t).spawned.len() == 0,
        emptied(t).despawned.len() == 0,
        emptied(t).component_changes.len() == 0,
        emptied(t).events.len() == 0,
        emptied(t).frame == t.frame,
{
}

/// Each recorded spawn is drained once, in order, with the frame number or with the
/// description of the entity's component types; an entity that is dead by now has no
/// description.
pub proof fn lemma_drained_spawns<V>(spawned: Seq<Entity>, frame: u64, world: &World<V>)
    ensures
        frame_marked(spawned, frame).len() == spawned.len(),
        archetype_marked(spawned, world).len() == spawned.len(),
        forall|i: int|
            0 <= i < spawned.len() ==> (#[trigger] frame_marked(spawned, frame)[i]).0 == spawned[i] && frame_marked(
                spawned,
                frame,
            )[i].1 == u64_wire(frame),
        forall|i: int|
            0 <= i < spawned.len() ==> (#[trigger] archetype_marked(spawned, world)[i]).0 == spawned[i],
        forall|i: int|
            0 <= i < spawned.len() && world@.contains_key(spawned[i]) ==> (#[trigger] archetype_marked(
                spawned,
                world,
            )[i]).1 == archetype_key_wire(world.key_of(spawned[i])),
        forall|i: int|
            0 <= i < spawned.len() && !world@.contains_key(spawned[i]) ==> (#[trigger] archetype_marked(
                spawned,
                world,
            )[i]).1.len() == 0,
{
}

/// Puts `bytes` at index `at` of a list of blobs.
pub fn set_field(fields: &mut Vec<Vec<u8>>, at: usize, bytes: Vec<u8>)
    requires
        at < usize::MAX,
    ensures
        blobs(final(fields)@) == put_field(blobs(old(fields)@), at as int, bytes@),
{
    let ghost before = fields@;
    while fields.len() <= at
        invariant
            at < usize::MAX,
            before.len() <= fields@.len(),
            fields@.len() <= at + 1 || fields@.len() == before.len(),
            forall|k: int| 0 <= k < before.len() ==> #[trigger] fields@[k] == before[k],
            forall|k: int| before.len() <= k < fields@.len() ==> (#[trigger] fields@[k])@.len() == 0,
        decreases at + 1 - fields@.len(),
    {
        fields.push(Vec::new());
    }
    let ghost filled = fields@;
    let ghost content = bytes@;
    fields[at] = bytes;
    proof {
        let want = put_field(blobs(before), at as int, content);
        assert(blobs(fields@).len() == want.len());
        assert forall|k: int| 0 <= k < want.len() implies #[trigger] blobs(fields@)[k] == want[k] by {
            if k == at {
                assert(fields@[k]@ == content);
            } else {
                assert(fields@[k] == filled[k]);
                if k < before.len() {
                    assert(filled[k] == before[k]);
                } else {
                    assert(filled[k]@ =~= Seq::<u8>::empty());
                }
            }
        }
        assert(blobs(fields@) =~= want);
    }
}

impl ChangeTracker {
    /// A tracker at frame 0 with nothing recorded.
    pub fn new() -> (t: ChangeTracker)
        ensures
            t@.frame == 0,
            t@ == emptied(t@),
    {
        let t = ChangeTracker {
            spawned: Vec::new(),
            despawned: Vec::new(),
            component_changes: Vec::new(),
            events: Vec::new(),
            frame: 0,
        };
        proof {
            assert(t@.component_changes =~= Seq::<ComponentDeltaModel>::empty());
            assert(t@.events =~= Seq::<EventModel>::empty());
        }
        t
    }

    pub fn record_spawn(&mut self, entity: Entity)
        ensures
            final(self)@ == (TrackerModel { spawned: old(self)@.spawned.push(entity), ..old(self)@ }),
    {
        self.spawned.push(entity);
    }

    pub fn record_despawn(&mut self, entity: Entity)
        ensures
            final(self)@ == (TrackerModel { despawned: old(self)@.despawned.push(entity), ..old(self)@ }),
    {
        self.despawned.push(entity);
    }

    /// Records the new bytes of one field. Fields of the same component of the
    /// same entity share one component delta.
    pub fn record_component_change(
        &mut self,
        entity: Entity,
        component_type: ComponentId,
        field_index: u32,
        field_bytes: Vec<u8>,
    )
        requires
            field_index < usize::MAX,
        ensures
            final(self)@ == (TrackerModel {
                component_changes: record_change(
                    old(self)@.component_changes,
                    entity,
                    component_type,
                    field_index,
                    field_bytes@,
                ),
                ..old(self)@
            }),
    {
        let ghost before = self@;
        let ghost content = field_bytes@;
        let at: usize = field_index as usize;
        let mut i: usize = 0;
        while i < self.component_changes.len() && !(self.component_changes[i].entity == entity
            && self.component_changes[i].component_type == component_type)
            invariant
                i <= self.component_changes@.len(),
                self@ == before,
                change_index(before.component_changes, entity, component_type, 0) == change_index(
                    before.component_changes,
                    entity,
                    component_type,
                    i as int,
                ),
            decreases self.component_changes@.len() - i,
        {
            i = i + 1;
        }
        if i < self.component_changes.len() {
            set_field(&mut self.component_changes[i].field_data, at, field_bytes);
            proof {
                assert(component_deltas(self.component_changes@) =~= record_change(
                    before.component_changes,
                    entity,
                    component_type,
                    field_index,
                    content,
                ));
            }
        } else {
            let mut field_data: Vec<Vec<u8>> = Vec::new();
            proof {
                assert(blobs(field_data@) =~= Seq::<Seq<u8>>::empty());
            }
            set_field(&mut field_data, at, field_bytes);
            self.component_changes.push(ComponentDelta { entity, component_type, field_data });
            proof {
                assert(component_deltas(self.component_changes@) =~= record_change(
                    before.component_changes,
                    entity,
                    component_type,
                    field_index,
                    content,
                ));
            }
        }
    }

    pub fn record_event(&mut self, event: ReplicatedEvent)
        ensures
            final(self)@ == (TrackerModel { events: old(self)@.events.push(event@), ..old(self)@ }),
    {
        let ghost before = self@;
        let ghost added = event@;
        self.events.push(event);
        proof {
            assert(events(self.events@) =~= before.events.push(added));
        }
    }

    /// Hands out everything recorded as a delta of the current frame and
    /// leaves the tracker empty. Each spawn carries the frame number only;
    /// [`ChangeTracker::drain_with_world`] describes the spawned entities.
    pub fn drain(
        &mut self,
        _schema: &ReplicationSchema,
        _client: ClientId,
        _authority: &AuthorityTable,
    ) -> (out: (Delta, Vec<ReplicatedEvent>))
        ensures
            out.0@ == drained(old(self)@, frame_marked(old(self)@.spawned, old(self)@.frame)),
            out.1@.len() == 0,
            final(self)@ == emptied(old(self)@),
    {
        let ghost before = self@;
        let mut list: Vec<(Entity, Vec<u8>)> = Vec::new();
        let mut i: usize = 0;
        while i < self.spawned.len()
            invariant
                i <= self.spawned@.len(),
                self@ == before,
                list@.len() == i,
                forall|k: int|
                    0 <= k < i ==> (#[trigger] list@[k]).0 == self.spawned@[k] && list@[k].1@ == u64_wire(
                        self.frame,
                    ),
            decreases self.spawned@.len() - i,
        {
            list.push((self.spawned[i], u64_to_le_bytes(self.frame)));
            i = i + 1;
        }
        proof {
            assert(spawns(list@) =~= frame_marked(before.spawned, before.frame));
        }
        (self.take_recorded(list), Vec::new())
    }

    /// Moves everything recorded into a delta with the given spawn list.
    fn take_recorded(&mut self, list: Vec<(Entity, Vec<u8>)>) -> (delta: Delta)
        ensures
            delta@ == drained(old(self)@, spawns(list@)),
            final(self)@ == emptied(old(self)@),
    {
        let mut despawned: Vec<Entity> = Vec::new();
        let mut changes: Vec<ComponentDelta> = Vec::new();
        let mut evs: Vec<ReplicatedEvent> = Vec::new();
        std::mem::swap(&mut despawned, &mut self.despawned);
        std::mem::swap(&mut changes, &mut self.component_changes);
        std::mem::swap(&mut evs, &mut self.events);
        self.spawned = Vec::new();
        let frame: u64 = self.frame;
        let base_frame: u64 = if frame == 0 {
            u64::MAX
        } else {
            frame - 1
        };
        proof {
            assert(self@.component_changes =~= Seq::<ComponentDeltaModel>::empty());
            assert(self@.events =~= Seq::<EventModel>::empty());
        }
        Delta {
            frame,
            base_frame,
            spawned: list,
            despawned,
            component_deltas: changes,
            events: evs,
        }
    }

    /// Moves on to the next frame, wrapping around at the last one.
    pub fn end_frame(&mut self)
        ensures
            final(self)@ == (TrackerModel { frame: next_frame(old(self)@.frame), ..old(self)@ }),
    {
        self.frame = if self.frame == u64::MAX {
            0
        } else {
            self.frame + 1
        };
    }

    /// Like [`ChangeTracker::drain`], but each spawn carries the component
    /// types that its entity has in `world`, so that a remote peer can rebuild
    /// the entity. An entity that is dead by now has an empty blob.
    pub fn drain_with_world<V>(&mut self, world: &World<V>) -> (delta: Delta)
        requires
            world.well_formed(),
        ensures
            delta@ == drained(old(self)@, archetype_marked(old(self)@.spawned, world)),
            final(self)@ == emptied(old(self)@),
    {
        let ghost before = self@;
        let mut list: Vec<(Entity, Vec<u8>)> = Vec::new();
        let mut i: usize = 0;
        while i < self.spawned.len()
            invariant
                i <= self.spawned@.len(),
                self@ == before,
                world.well_formed(),
                list@.len() == i,
                forall|k: int|
                    0 <= k < i ==> (#[trigger] list@[k]).0 == self.spawned@[k] && list@[k].1@
                        == archetype_blob(world, self.spawned@[k]),
            decreases self.spawned@.len() - i,
        {
            let e = self.spawned[i];
            let blob: Vec<u8> = if world.is_alive(e) {
                proof {
                    assert(world.slot_ok(e.index() as int));
                }
                let arch: usize = world.entity_slots[e.index() as usize].archetype.0 as usize;
                encode_archetype_key(world.archetypes[arch].key.0.as_slice())
            } else {
                Vec::new()
            };
            list.push((e, blob));
            i = i + 1;
        }
        proof {
            assert(spawns(list@) =~= archetype_marked(before.spawned, world));
        }
        self.take_recorded(list)
    }
}

impl<V> World<V> {
    /// Like [`World::spawn`], and records the spawn.
    pub fn spawn_tracked(&mut self, tracker: &mut ChangeTracker) -> (entity: Entity)
        requires
            old(self).well_formed(),
            old(self).has_room(),
        ensures
            final(self).well_formed(),
            World::spawned(old(self), final(self), entity),
            final(tracker)@ == (TrackerModel {
                spawned: old(tracker)@.spawned.push(entity),
                ..old(tracker)@
            }),
    {
        let entity = self.spawn();
        tracker.record_spawn(entity);
        entity
    }

    /// Like [`World::despawn`], and records the despawn if there was one.
    pub fn despawn_tracked(&mut self, entity: Entity, tracker: &mut ChangeTracker) -> (removed: bool)
        requires
            old(self).well_formed(),
        ensures
            final(self).well_formed(),
            removed == old(self)@.contains_key(entity),
            removed ==> World::despawned(old(self), final(self), entity),
            !removed ==> *final(self) == *old(self),
            final(tracker)@ == (if removed {
                TrackerModel { despawned: old(tracker)@.despawned.push(entity), ..old(tracker)@ }
            } else {
                old(tracker)@
            }),
    {
        let removed = self.despawn(entity);
        if removed {
            tracker.record_despawn(entity);
        }
        removed
    }

    /// Like [`World::remove`], and records the removal, if there was one, as a
    /// change without bytes.
    pub fn remove_tracked(&mut self, entity: Entity, cid: ComponentId, tracker: &mut ChangeTracker) -> (removed:
        Option<V>)
        requires
            old(self).well_formed(),
            old(self)@.contains_key(entity) && old(self)@[entity].contains_key(cid) ==> old(self).has_archetype_room(),
        ensures
            final(self).well_formed(),
            removed is Some <==> old(self)@.contains_key(entity) && old(self)@[entity].contains_key(cid),
            removed matches Some(v) ==> {
                &&& v == old(self)@[entity][cid]
                &&& final(self)@ == old(self)@.insert(entity, old(self)@[entity].remove(cid))
            },
            removed is None ==> *final(self) == *old(self),
            World::slots_kept(old(self), final(self)),
            final(tracker)@ == (if removed is Some {
                TrackerModel {
                    component_changes: record_change(
                        old(tracker)@.component_changes,
                        entity,
                        cid,
                        0,
                        Seq::empty(),
                    ),
                    ..old(tracker)@
                }
            } else {
                old(tracker)@
            }),
    {
        let removed = self.remove(entity, cid);
        if removed.is_some() {
            tracker.record_component_change(entity, cid, 0, Vec::new());
        }
        removed
    }
}

impl<V: ReplicatedValue> World<V> {
    /// Like [`World::insert`], and records the change: with the bytes of the
    /// new value where it replaces one, and without bytes where the component
    /// is new to the entity.
    pub fn insert_tracked(&mut self, entity: Entity, cid: ComponentId, value: V, tracker: &mut ChangeTracker)
        requires
            old(self).well_formed(),
            old(self)@.contains_key(entity),
            !old(self)@[entity].contains_key(cid) ==> old(self).has_archetype_room(),
        ensures
            final(self).well_formed(),
            final(self)@ == old(self)@.insert(entity, old(self)@[entity].insert(cid, value)),
            World::slots_kept(old(self), final(self)),
            final(tracker)@ == (TrackerModel {
                component_changes: record_change(
                    old(tracker)@.component_changes,
                    entity,
                    cid,
                    0,
                    if old(self)@[entity].contains_key(cid) {
                        value.whole_bytes()
                    } else {
                        Seq::empty()
                    },
                ),
                ..old(tracker)@
            }),
    {
        let bytes: Vec<u8> = if self.get(entity, cid).is_some() {
            value.encode_whole()
        } else {
            Vec::new()
        };
        self.insert(entity, cid, value);
        tracker.record_component_change(entity, cid, 0, bytes);
    }
}

} // verus!
