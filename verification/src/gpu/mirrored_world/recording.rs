//! Changes to a mirrored world that are recorded for replication too.

use vstd::prelude::*;
use crate::component::ComponentId;
use crate::entity::Entity;
use crate::gpu::dynamic_buffer::CapacityError;
use crate::gpu::mirrored_world::{all_removed, held, MirroredWorld};
use crate::gpu::world_mirror::{GpuComponent, MirrorModel};
use crate::replication::tracker::{record_change, ChangeTracker, TrackerModel};
use crate::replication::value::ReplicatedValue;
use crate::world::World;

verus! {

impl<V> MirroredWorld<V> {
    /// Like [`MirroredWorld::spawn`], and records the spawn.
    pub fn spawn_tracked(&mut self, tracker: &mut ChangeTracker) -> (entity: Entity)
        requires
            old(self).well_formed(),
            old(self).world().has_room(),
        ensures
            final(self).well_formed(),
            World::spawned(&old(self).world(), &final(self).world(), entity),
            final(self).mirror() == old(self).mirror(),
            final(tracker)@ == (TrackerModel {
                spawned: old(tracker)@.spawned.push(entity),
                ..old(tracker)@
            }),
    {
        let entity = self.spawn();
        tracker.record_spawn(entity);
        entity
    }

    /// Like [`MirroredWorld::despawn`], and records the despawn if there was one.
    pub fn despawn_tracked(&mut self, entity: Entity, tracker: &mut ChangeTracker) -> (out: Result<bool, CapacityError>)
        requires
            old(self).well_formed(),
            old(self).mirror() matches Some(m) ==> forall|c: ComponentId|
                old(self).world()@.contains_key(entity) && #[trigger] old(self).world()@[entity].contains_key(c)
                    ==> m.clears(c, entity),
        ensures
            final(self).well_formed(),
            if old(self).world()@.contains_key(entity) {
                let key = old(self).world().key_of(entity);
                match old(self).mirror() {
                    Some(m) => {
                        let gone = all_removed(m, key, entity, key.len() as int);
                        match gone.1 {
                            Ok(_) => {
                                &&& out == Ok::<bool, CapacityError>(true)
                                &&& World::despawned(&old(self).world(), &final(self).world(), entity)
                                &&& final(self).mirror() == Some(
                                    MirrorModel {
                                        generations: gone.0.generations.despawned(
                                            entity.index(),
                                            (entity.generation() + 1) as u32,
                                        ),
                                        ..gone.0
                                    },
                                )
                            },
                            Err(e) => {
                                &&& out == Err::<bool, CapacityError>(e)
                                &&& final(self).world() == old(self).world()
                                &&& final(self).mirror() == Some(gone.0)
                            },
                        }
                    },
                    None => {
                        &&& out == Ok::<bool, CapacityError>(true)
                        &&& World::despawned(&old(self).world(), &final(self).world(), entity)
                        &&& final(self).mirror() is None
                    },
                }
            } else {
                &&& out == Ok::<bool, CapacityError>(false)
                &&& final(self).world() == old(self).world()
                &&& final(self).mirror() == old(self).mirror()
            },
            final(tracker)@ == (if out == Ok::<bool, CapacityError>(true) {
                TrackerModel { despawned: old(tracker)@.despawned.push(entity), ..old(tracker)@ }
            } else {
                old(tracker)@
            }),
    {
        let out = self.despawn(entity);
        if let Ok(gone) = &out {
            if *gone {
                tracker.record_despawn(entity);
            }
        }
        out
    }
}

impl<V: GpuComponent> MirroredWorld<V> {
    /// Like [`MirroredWorld::remove`], and records the removal, if there was one,
    /// as a change without bytes.
    pub fn remove_tracked(&mut self, entity: Entity, cid: ComponentId, tracker: &mut ChangeTracker) -> (out: Result<
        Option<V>,
        CapacityError,
    >)
        requires
            old(self).well_formed(),
            old(self).world()@.contains_key(entity) && old(self).world()@[entity].contains_key(cid)
                ==> old(self).world().has_archetype_room(),
            old(self).mirror() matches Some(m) ==> m.clears(cid, entity),
        ensures
            final(self).well_formed(),
            ({
                let had = old(self).world()@.contains_key(entity) && old(self).world()@[entity].contains_key(cid);
                if had {
                    &&& match old(self).mirror() {
                        Some(m) => {
                            &&& out is Ok <==> m.removed(cid, entity).1 is Ok
                            &&& m.removed(cid, entity).1 matches Err(e) ==> out == Err::<Option<V>, CapacityError>(e)
                            &&& final(self).mirror() == Some(m.removed(cid, entity).0)
                        },
                        None => out is Ok && final(self).mirror() is None,
                    }
                    &&& out matches Ok(v) ==> v == Some(old(self).world()@[entity][cid]) && final(self).world()@
                        == old(self).world()@.insert(entity, old(self).world()@[entity].remove(cid))
                    &&& out is Err ==> final(self).world() == old(self).world()
                } else {
                    &&& out matches Ok(v) && v is None
                    &&& final(self).world() == old(self).world()
                    &&& final(self).mirror() == old(self).mirror()
                }
            }),
            World::slots_kept(&old(self).world(), &final(self).world()),
            final(tracker)@ == (if out matches Ok(v) && v is Some {
                TrackerModel {
                    component_changes: record_change(
                        old(tracker)@.component_changes,
                        entity,
                        cid,
                        0,
                        Seq::empty(),
                    ),
                    ..old(tracker)@
                }
            } else {
                old(tracker)@
            }),
    {
        let out = self.remove(entity, cid);
        if let Ok(removed) = &out {
            if removed.is_some() {
                tracker.record_component_change(entity, cid, 0, Vec::new());
            }
        }
        out
    }
}

impl<V: GpuComponent + ReplicatedValue> MirroredWorld<V> {
    /// Like [`MirroredWorld::insert`], and records the change: with the bytes of
    /// the new value where it replaces one, and without bytes where the component
    /// is new to the entity. A value that the mirror refuses is not recorded.
    pub fn insert_tracked(&mut self, entity: Entity, cid: ComponentId, value: V, tracker: &mut ChangeTracker) -> (out:
        Result<(), CapacityError>)
        requires
            old(self).well_formed(),
            old(self).world()@.contains_key(entity),
            !old(self).world()@[entity].contains_key(cid) ==> old(self).world().has_archetype_room(),
            cid.0 < usize::MAX,
            old(self).mirror() matches Some(m) ==> m.takes(cid, entity, value),
        ensures
            final(self).well_formed(),
            match old(self).mirror() {
                Some(m) => {
                    let step = m.inserted(cid, entity, value, held(old(self).world()@, entity, cid));
                    out == step.1 && final(self).mirror() == Some(step.0)
                },
                None => out == Ok::<(), CapacityError>(()) && final(self).mirror() is None,
            },
            out is Ok ==> final(self).world()@ == old(self).world()@.insert(
                entity,
                old(self).world()@[entity].insert(cid, value),
            ),
            out is Err ==> final(self).world() == old(self).world(),
            World::slots_kept(&old(self).world(), &final(self).world()),
            final(tracker)@ == (if out is Ok {
                TrackerModel {
                    component_changes: record_change(
                        old(tracker)@.component_changes,
                        entity,
                        cid,
                        0,
                        if old(self).world()@[entity].contains_key(cid) {
                            value.whole_bytes()
                        } else {
                            Seq::empty()
                        },
                    ),
                    ..old(tracker)@
                }
            } else {
                old(tracker)@
            }),
    {
        let bytes: Vec<u8> = if self.world.get(entity, cid).is_some() {
            value.encode_whole()
        } else {
            Vec::new()
        };
        let out = self.insert(entity, cid, value);
        if out.is_ok() {
            tracker.record_component_change(entity, cid, 0, bytes);
        }
        out
    }
}

} // verus!
