//! The simulate phase of a frame, for callers without a GPU.

use vstd::prelude::*;
use crate::replication::tracker::{archetype_marked, drained, emptied, next_frame, ChangeTracker, TrackerModel};
use crate::replication::types::Delta;
use crate::world::World;

verus! {

/// Witness of the simulate phase. It only names the place where a frame's
/// changes are drained, and guarantees no order of phases.
#[derive(Copy, Clone, Debug)]
pub struct CpuSimulateWitness;

impl Default for CpuSimulateWitness {
    fn default() -> (w: CpuSimulateWitness)
        ensures
            w == CpuSimulateWitness,
    {
        CpuSimulateWitness::new()
    }
}

impl CpuSimulateWitness {
    pub fn new() -> (w: CpuSimulateWitness)
        ensures
            w == CpuSimulateWitness,
    {
        CpuSimulateWitness
    }

    /// Runs one simulate phase: `systems` changes the world and records what
    /// it changed, then everything recorded is drained as the delta of the
    /// frame and the tracker moves on to the next frame.
    pub fn run_tracked<V, F: FnOnce(&mut World<V>, &mut ChangeTracker)>(
        &self,
        world: &mut World<V>,
        tracker: &mut ChangeTracker,
        systems: F,
    ) -> (delta: Delta)
        requires
            old(world).well_formed(),
            forall|w: &mut World<V>, t: &mut ChangeTracker|
                *w == *old(world) && *t == *old(tracker) ==> #[trigger] call_requires(systems, (w, t)),
            forall|w: &mut World<V>, t: &mut ChangeTracker|
                *w == *old(world) && *t == *old(tracker) && #[trigger] call_ensures(systems, (w, t), ())
                    ==> final(w).well_formed(),
        ensures
            final(world).well_formed(),
            exists|w: &mut World<V>, t: &mut ChangeTracker| #[trigger]
                call_ensures(systems, (w, t), ()) && {
                    &&& *w == *old(world)
                    &&& *t == *old(tracker)
                    &&& *final(world) == *final(w)
                    &&& delta@ == drained(final(t)@, archetype_marked(final(t)@.spawned, final(w)))
                    &&& final(tracker)@ == (TrackerModel {
                        frame: next_frame(final(t)@.frame),
                        ..emptied(final(t)@)
                    })
                },
    {
        systems(world, tracker);
        let delta = tracker.drain_with_world(world);
        tracker.end_frame();
        delta
    }
}

} // verus!
