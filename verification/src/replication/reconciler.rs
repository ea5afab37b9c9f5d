//! Client-side prediction: snapshot history and replay of local inputs.

use vstd::prelude::*;
use crate::component::ComponentId;
use crate::entity::Entity;
use crate::replication::snapshot::{Snapshot, SnapshotModel};
use crate::replication::types::Delta;
use crate::world::World;

verus! {

/// How many server snapshots are kept.
pub const HISTORY_LEN: usize = 64;

/// A predicted local write, to be replayed after a server correction.
#[derive(Clone, Debug)]
pub struct ClientInput {
    pub frame: u64,
    pub entity: Entity,
    pub component: ComponentId,
    pub field_data: Vec<(u32, Vec<u8>)>,
}

/// History of server snapshots and queue of local inputs that the server has
/// not acknowledged yet.
#[derive(Clone, Debug)]
pub struct Reconciler {
    snapshots: Vec<Snapshot>,
    pending_inputs: Vec<ClientInput>,
    server_frame: u64,
    local_frame: u64,
}

/// The value of a [`Reconciler`].
pub struct ReconcilerModel {
    pub snapshots: Seq<SnapshotModel>,
    pub pending_inputs: Seq<ClientInput>,
    pub server_frame: u64,
    pub local_frame: u64,
}

/// The contents of a list of snapshots.
pub open spec fn snapshot_models(v: Seq<Snapshot>) -> Seq<SnapshotModel> {
    v.map_values(|s: Snapshot| s@)
}

impl View for Reconciler {
    type V = ReconcilerModel;

    closed spec fn view(&self) -> ReconcilerModel {
        ReconcilerModel {
            snapshots: snapshot_models(self.snapshots@),
            pending_inputs: self.pending_inputs@,
            server_frame: self.server_frame,
            local_frame: self.local_frame,
        }
    }
}

/// The snapshots of frame `frame` and later.
pub open spec fn snapshots_since(s: Seq<SnapshotModel>, frame: int) -> Seq<SnapshotModel> {
    s.filter(|x: SnapshotModel| x.frame >= frame)
}

/// The inputs of frame `frame` and later.
pub open spec fn inputs_since(s: Seq<ClientInput>, frame: int) -> Seq<ClientInput> {
    s.filter(|x: ClientInput| x.frame >= frame)
}

/// `s` with `x` put behind every input that is not of a later frame.
pub open spec fn insert_by_frame(s: Seq<ClientInput>, x: ClientInput) -> Seq<ClientInput>
    decreases s.len(),
{
    if s.len() == 0 || s.last().frame <= x.frame {
        s.push(x)
    } else {
        insert_by_frame(s.drop_last(), x).push(s.last())
    }
}

/// The inputs in frame order; inputs of one frame stay in the given order.
pub open spec fn in_frame_order(s: Seq<ClientInput>) -> Seq<ClientInput>
    decreases s.len(),
{
    if s.len() == 0 {
        s
    } else {
        insert_by_frame(in_frame_order(s.drop_last()), s.last())
    }
}

/// `k` counts one of `n` steps.
pub open spec fn is_step(k: int, n: nat) -> bool {
    0 <= k < n
}

/// `worlds` leads from `first` to `last` in `n` steps.
pub open spec fn leads<V>(worlds: Seq<World<V>>, n: nat, first: World<V>, last: World<V>) -> bool {
    &&& worlds.len() == n + 1
    &&& worlds.first() == first
    &&& worlds.last() == last
}

impl Default for Reconciler {
    fn default() -> (r: Reconciler)
        ensures
            r.well_formed(),
            r@ == (ReconcilerModel {
                snapshots: Seq::empty(),
                pending_inputs: Seq::empty(),
                server_frame: 0,
                local_frame: 0,
            }),
    {
        Reconciler::new()
    }
}

impl Reconciler {
    /// The history is no longer than its limit.
    pub closed spec fn well_formed(&self) -> bool {
        self.snapshots@.len() <= HISTORY_LEN
    }

    /// A reconciler without snapshots and inputs, at frame 0.
    pub fn new() -> (r: Reconciler)
        ensures
            r.well_formed(),
            r@ == (ReconcilerModel {
                snapshots: Seq::empty(),
                pending_inputs: Seq::empty(),
                server_frame: 0,
                local_frame: 0,
            }),
    {
        let r = Reconciler {
            snapshots: Vec::new(),
            pending_inputs: Vec::new(),
            server_frame: 0,
            local_frame: 0,
        };
        proof {
            assert(snapshot_models(r.snapshots@) =~= Seq::<SnapshotModel>::empty());
        }
        r
    }

    /// Adds a server snapshot to the history, which drops its oldest one when
    /// it is full.
    pub fn push_snapshot(&mut self, snapshot: Snapshot)
        requires
            old(self).well_formed(),
        ensures
            final(self).well_formed(),
            final(self)@ == (ReconcilerModel {
                snapshots: (if old(self)@.snapshots.len() >= HISTORY_LEN {
                    old(self)@.snapshots.skip(1)
                } else {
                    old(self)@.snapshots
                }).push(snapshot@),
                server_frame: snapshot@.frame,
                ..old(self)@
            }),
    {
        let ghost before = self@.snapshots;
        let ghost added = snapshot@;
        self.server_frame = snapshot.frame;
        if self.snapshots.len() >= HISTORY_LEN {
            self.snapshots.remove(0);
            proof {
                assert(snapshot_models(self.snapshots@) =~= before.skip(1));
            }
        }
        let ghost kept = snapshot_models(self.snapshots@);
        self.snapshots.push(snapshot);
        proof {
            assert(snapshot_models(self.snapshots@) =~= kept.push(added));
        }
    }

    /// Records a local predicted write.
    pub fn push_input(&mut self, input: ClientInput)
        requires
            old(self).well_formed(),
        ensures
            final(self).well_formed(),
            final(self)@ == (ReconcilerModel {
                pending_inputs: old(self)@.pending_inputs.push(input),
                local_frame: input.frame,
                ..old(self)@
            }),
    {
        self.local_frame = input.frame;
        self.pending_inputs.push(input);
    }

    /// The inputs that are not acknowledged yet, in the order in which they
    /// were recorded.
    pub fn pending_inputs(&self) -> (inputs: &[ClientInput])
        ensures
            inputs@ == self@.pending_inputs,
    {
        self.pending_inputs.as_slice()
    }

    /// The snapshots in the history, oldest first.
    pub fn snapshots(&self) -> (list: &[Snapshot])
        ensures
            snapshot_models(list@) == self@.snapshots,
    {
        self.snapshots.as_slice()
    }

    fn retain_snapshots(&mut self, frame: u64)
        ensures
            final(self)@ == (ReconcilerModel {
                snapshots: snapshots_since(old(self)@.snapshots, frame as int),
                ..old(self)@
            }),
            final(self).snapshots@.len() <= old(self).snapshots@.len(),
    {
        let ghost all = self@.snapshots;
        let ghost rest = self@;
        let ghost count = self.snapshots@.len();
        let ghost keep = |x: SnapshotModel| x.frame >= frame as int;
        let mut i: usize = 0;
        let ghost mut seen: int = 0;
        proof {
            reveal(Seq::filter);
            assert(all.take(0) =~= Seq::<SnapshotModel>::empty());
            assert(all.take(0).filter(keep) + all.skip(0) =~= all);
        }
        while i < self.snapshots.len()
            invariant
                0 <= seen <= all.len(),
                count == all.len(),
                keep == (|x: SnapshotModel| x.frame >= frame as int),
                i == all.take(seen).filter(keep).len(),
                snapshot_models(self.snapshots@) == all.take(seen).filter(keep) + all.skip(seen),
                self.snapshots@.len() <= count,
                self.pending_inputs@ == rest.pending_inputs,
                self.server_frame == rest.server_frame,
                self.local_frame == rest.local_frame,
            decreases all.len() - seen,
        {
            let ghost done = all.take(seen).filter(keep);
            let ghost now = snapshot_models(self.snapshots@);
            proof {
                reveal(Seq::filter);
                assert(now.len() == done.len() + all.skip(seen).len());
                assert(now[i as int] == all.skip(seen)[0]);
                assert(now[i as int] == all[seen]);
                assert(now[i as int] == self.snapshots@[i as int]@);
                assert(all.take(seen + 1).drop_last() =~= all.take(seen));
                assert(all.take(seen + 1).last() == all[seen]);
            }
            if self.snapshots[i].frame < frame {
                self.snapshots.remove(i);
                proof {
                    assert(snapshot_models(self.snapshots@) =~= now.remove(i as int));
                    assert(now.remove(i as int) =~= done + all.skip(seen + 1));
                }
            } else {
                i = i + 1;
                proof {
                    assert(now =~= done.push(all[seen]) + all.skip(seen + 1));
                }
            }
            proof {
                seen = seen + 1;
            }
        }
        proof {
            assert(all.take(seen).filter(keep) + all.skip(seen) =~= all.take(seen).filter(keep));
            assert(snapshot_models(self.snapshots@).len() == self.snapshots@.len());
            assert(seen == all.len());
            assert(all.take(seen) =~= all);
        }
    }

    fn retain_inputs(&mut self, frame: u64, strictly: bool)
        ensures
            final(self)@ == (ReconcilerModel {
                pending_inputs: inputs_since(
                    old(self)@.pending_inputs,
                    if strictly {
                        frame + 1
                    } else {
                        frame as int
                    },
                ),
                ..old(self)@
            }),
            final(self).snapshots == old(self).snapshots,
    {
        let ghost first = if strictly {
            frame + 1
        } else {
            frame as int
        };
        let ghost all = self.pending_inputs@;
        let ghost rest = self@;
        let ghost history = self.snapshots;
        let ghost keep = |x: ClientInput| x.frame >= first;
        let mut i: usize = 0;
        let ghost mut seen: int = 0;
        proof {
            reveal(Seq::filter);
            assert(all.take(0) =~= Seq::<ClientInput>::empty());
            assert(all.take(0).filter(keep) + all.skip(0) =~= all);
        }
        while i < self.pending_inputs.len()
            invariant
                0 <= seen <= all.len(),
                first == (if strictly {
                    frame + 1
                } else {
                    frame as int
                }),
                keep == (|x: ClientInput| x.frame >= first),
                i == all.take(seen).filter(keep).len(),
                self.pending_inputs@ == all.take(seen).filter(keep) + all.skip(seen),
                self.snapshots == history,
                self.server_frame == rest.server_frame,
                self.local_frame == rest.local_frame,
            decreases all.len() - seen,
        {
            let ghost done = all.take(seen).filter(keep);
            let ghost now = self.pending_inputs@;
            proof {
                reveal(Seq::filter);
                assert(now[i as int] == all.skip(seen)[0]);
                assert(all.take(seen + 1).drop_last() =~= all.take(seen));
                assert(all.take(seen + 1).last() == all[seen]);
            }
            let at: u64 = self.pending_inputs[i].frame;
            if at < frame || (strictly && at == frame) {
                self.pending_inputs.remove(i);
                proof {
                    assert(self.pending_inputs@ =~= done + all.skip(seen + 1));
                }
            } else {
                i = i + 1;
                proof {
                    assert(now =~= done.push(all[seen]) + all.skip(seen + 1));
                }
            }
            proof {
                seen = seen + 1;
            }
        }
        proof {
            assert(seen == all.len());
            assert(all.take(seen) =~= all);
            assert(all.filter(keep) + all.skip(seen) =~= all.filter(keep));
        }
    }

    /// Forgets inputs and snapshots older than `frame`.
    pub fn clear_before(&mut self, frame: u64)
        requires
            old(self).well_formed(),
        ensures
            final(self).well_formed(),
            final(self)@ == (ReconcilerModel {
                snapshots: snapshots_since(old(self)@.snapshots, frame as int),
                pending_inputs: inputs_since(old(self)@.pending_inputs, frame as int),
                ..old(self)@
            }),
            final(self)@.pending_inputs == old(self)@.pending_inputs.filter(|x: ClientInput| x.frame >= frame),
            final(self)@.snapshots == old(self)@.snapshots.filter(|x: SnapshotModel| x.frame >= frame),
    {
        let ghost before = self@;
        self.retain_inputs(frame, false);
        self.retain_snapshots(frame);
        proof {
            lemma_kept_inputs(before.pending_inputs, frame as int, |x: ClientInput| x.frame >= frame);
            lemma_kept_snapshots(before.snapshots, frame as int, |x: SnapshotModel| x.frame >= frame);
        }
    }

    /// The frame of the last server snapshot.
    pub fn server_frame(&self) -> (frame: u64)
        ensures
            frame == self@.server_frame,
    {
        self.server_frame
    }

    /// The frame of the last local input.
    pub fn local_frame(&self) -> (frame: u64)
        ensures
            frame == self@.local_frame,
    {
        self.local_frame
    }

    /// Reconciles with a server delta that has been applied to `world`.
    ///
    /// Inputs up to the delta's base frame are acknowledged and dropped,
    /// snapshots older than it are dropped, and the inputs that remain are
    /// replayed on top of `world` in frame order.
    pub fn reconcile<V, F: FnMut(&mut World<V>, &ClientInput)>(
        &mut self,
        server_delta: &Delta,
        world: &mut World<V>,
        mut replay: F,
    )
        requires
            old(self).well_formed(),
            old(world).well_formed(),
            forall|w: &mut World<V>, i: &ClientInput|
                w.well_formed() ==> #[trigger] call_requires(replay, (w, i)),
            forall|w: &mut World<V>, i: &ClientInput|
                w.well_formed() && #[trigger] call_ensures(replay, (w, i), ()) ==> final(w).well_formed(),
        ensures
            final(self).well_formed(),
            final(world).well_formed(),
            final(self)@ == (ReconcilerModel {
                snapshots: snapshots_since(old(self)@.snapshots, server_delta.base_frame as int),
                pending_inputs: inputs_since(old(self)@.pending_inputs, server_delta.base_frame + 1),
                ..old(self)@
            }),
            final(self)@.pending_inputs == old(self)@.pending_inputs.filter(
                |x: ClientInput| x.frame > server_delta.base_frame,
            ),
            final(self)@.snapshots == old(self)@.snapshots.filter(
                |x: SnapshotModel| x.frame >= server_delta.base_frame,
            ),
            ({
                let inputs = in_frame_order(final(self)@.pending_inputs);
                exists|worlds: Seq<World<V>>| #[trigger]
                    leads(worlds, inputs.len(), *old(world), *final(world)) && forall|k: int|
                        #[trigger] is_step(k, inputs.len()) ==> exists|w: &mut World<V>, i: &ClientInput|
                            *w == worlds[k] && *i == inputs[k] && *final(w) == worlds[k + 1]
                                && #[trigger] call_ensures(replay, (w, i), ())
            }),
    {
        let ghost given = replay;
        let base: u64 = server_delta.base_frame;
        self.retain_inputs(base, true);
        self.retain_snapshots(base);
        let order = self.frame_order();
        let ghost inputs = in_frame_order(self.pending_inputs@);
        let ghost mut worlds: Seq<World<V>> = seq![*world];
        let mut k: usize = 0;
        while k < order.len()
            invariant
                k <= order@.len(),
                order@.len() == inputs.len(),
                forall|j: int|
                    0 <= j < order@.len() ==> (#[trigger] order@[j]) < self.pending_inputs@.len()
                        && self.pending_inputs@[order@[j] as int] == inputs[j],
                world.well_formed(),
                replay == given,
                worlds.len() == k + 1,
                worlds[0] == *old(world),
                worlds[k as int] == *world,
                forall|j: int|
                    #[trigger] is_step(j, k as nat) ==> exists|w: &mut World<V>, i: &ClientInput|
                        *w == worlds[j] && *i == inputs[j] && *final(w) == worlds[j + 1]
                            && #[trigger] call_ensures(given, (w, i), ()),
                forall|w: &mut World<V>, i: &ClientInput|
                    w.well_formed() ==> #[trigger] call_requires(given, (w, i)),
                forall|w: &mut World<V>, i: &ClientInput|
                    w.well_formed() && #[trigger] call_ensures(given, (w, i), ()) ==> final(w).well_formed(),
            decreases order@.len() - k,
        {
            let ghost before = worlds;
            let input: &ClientInput = &self.pending_inputs[order[k]];
            let ghost shown = *input;
            replay(world, input);
            proof {
                assert(exists|w: &mut World<V>, i: &ClientInput|
                        *w == before[k as int] && *i == shown && *final(w) == *world
                            && #[trigger] call_ensures(given, (w, i), ()));
                worlds = worlds.push(*world);
            }
            k = k + 1;
            proof {
                assert(inputs[k - 1] == shown);
                assert forall|j: int| #[trigger] is_step(j, k as nat) implies exists|w: &mut World<V>, i: &ClientInput|
                    *w == worlds[j] && *i == inputs[j] && *final(w) == worlds[j + 1]
                        && #[trigger] call_ensures(given, (w, i), ()) by {
                    if j < k - 1 {
                        assert(is_step(j, (k - 1) as nat));
                        assert(worlds[j] == before[j] && worlds[j + 1] == before[j + 1]);
                    } else {
                        assert(worlds[j] == before[j] && worlds[j + 1] == *world);
                    }
                }
            }
        }
        proof {
            let base_frame = server_delta.base_frame;
            lemma_kept_inputs(
                old(self)@.pending_inputs,
                base_frame + 1,
                |x: ClientInput| x.frame > server_delta.base_frame,
            );
            lemma_kept_snapshots(
                old(self)@.snapshots,
                base_frame as int,
                |x: SnapshotModel| x.frame >= server_delta.base_frame,
            );
            assert(k as nat == inputs.len());
            assert(leads(worlds, inputs.len(), *old(world), *world));
            assert(inputs == in_frame_order(self@.pending_inputs));
            assert forall|j: int| #[trigger] is_step(j, inputs.len()) implies exists|w: &mut World<V>, i: &ClientInput|
                *w == worlds[j] && *i == inputs[j] && *final(w) == worlds[j + 1]
                    && #[trigger] call_ensures(given, (w, i), ()) by {
                assert(is_step(j, k as nat));
            }
        }
    }

    /// The positions of the pending inputs, in frame order.
    fn frame_order(&self) -> (order: Vec<usize>)
        ensures
            order@.len() == in_frame_order(self.pending_inputs@).len(),
            forall|j: int|
                0 <= j < order@.len() ==> (#[trigger] order@[j]) < self.pending_inputs@.len()
                    && self.pending_inputs@[order@[j] as int] == in_frame_order(self.pending_inputs@)[j],
    {
        let ghost all = self.pending_inputs@;
        let mut order: Vec<usize> = Vec::new();
        let mut i: usize = 0;
        proof {
            assert(all.take(0) =~= Seq::<ClientInput>::empty());
        }
        while i < self.pending_inputs.len()
            invariant
                i <= all.len(),
                all == self.pending_inputs@,
                order@.len() == in_frame_order(all.take(i as int)).len(),
                forall|j: int|
                    0 <= j < order@.len() ==> (#[trigger] order@[j]) < all.len() && all[order@[j] as int]
                        == in_frame_order(all.take(i as int))[j],
            decreases all.len() - i,
        {
            let ghost sorted = in_frame_order(all.take(i as int));
            let ghost x = all[i as int];
            let ghost want = in_frame_order(all.take(i + 1));
            proof {
                assert(all.take(i + 1).drop_last() =~= all.take(i as int));
                assert(want == insert_by_frame(sorted, x));
                assert(sorted.take(sorted.len() as int) =~= sorted);
                assert(sorted.skip(sorted.len() as int) =~= Seq::<ClientInput>::empty());
                assert(insert_by_frame(sorted, x) =~= insert_by_frame(sorted, x) + Seq::<ClientInput>::empty());
            }
            let frame: u64 = self.pending_inputs[i].frame;
            let mut at: usize = order.len();
            while at > 0 && self.pending_inputs[order[at - 1]].frame > frame
                invariant
                    at <= order@.len(),
                    i < all.len(),
                    all == self.pending_inputs@,
                    x == all[i as int],
                    frame == x.frame,
                    order@.len() == sorted.len(),
                    forall|j: int|
                        0 <= j < order@.len() ==> (#[trigger] order@[j]) < all.len() && all[order@[j] as int]
                            == sorted[j],
                    want == insert_by_frame(sorted.take(at as int), x) + sorted.skip(at as int),
                decreases at,
            {
                proof {
                    let j = at - 1;
                    assert(all[order@[j] as int] == sorted[j]);
                    assert(sorted.take(at as int).last() == sorted[j]);
                    assert(sorted.take(at as int).drop_last() =~= sorted.take(j));
                    assert(insert_by_frame(sorted.take(at as int), x) + sorted.skip(at as int) =~= insert_by_frame(
                        sorted.take(j),
                        x,
                    ) + sorted.skip(j));
                }
                at = at - 1;
            }
            let ghost before = order@;
            order.insert(at, i);
            proof {
                if at > 0 {
                    assert(all[before[at - 1] as int] == sorted[at - 1]);
                    assert(sorted.take(at as int).last() == sorted[at - 1]);
                }
                assert(want =~= sorted.take(at as int).push(x) + sorted.skip(at as int));
                assert forall|j: int| 0 <= j < order@.len() implies (#[trigger] order@[j]) < all.len()
                    && all[order@[j] as int] == want[j] by {
                    if j < at {
                        assert(order@[j] == before[j]);
                    } else if j > at {
                        assert(order@[j] == before[j - 1]);
                    }
                }
            }
            i = i + 1;
        }
        proof {
            assert(all.take(all.len() as int) =~= all);
        }
        order
    }
}

/// Of the recorded inputs exactly those of the given frame and later ones are kept, in
/// their order.
pub proof fn lemma_kept_inputs(s: Seq<ClientInput>, frame: int, keep: spec_fn(ClientInput) -> bool)
    requires
        forall|x: ClientInput| #[trigger] keep(x) <==> x.frame >= frame,
    ensures
        inputs_since(s, frame) == s.filter(keep),
        forall|x: ClientInput| #[trigger] inputs_since(s, frame).contains(x) <==> s.contains(x) && x.frame >= frame,
    decreases s.len(),
{
    reveal(Seq::filter);
    let kept = inputs_since(s, frame);
    if s.len() > 0 {
        let init = s.drop_last();
        let last = s.last();
        lemma_kept_inputs(init, frame, keep);
        let before = inputs_since(init, frame);
        assert forall|x: ClientInput| #[trigger] kept.contains(x) <==> s.contains(x) && x.frame >= frame by {
            assert(s.contains(x) <==> init.contains(x) || x == last) by {
                if s.contains(x) {
                    let i = s.index_of(x);
                    if i < init.len() {
                        assert(init[i] == x);
                    }
                }
                if init.contains(x) {
                    assert(s[init.index_of(x)] == x);
                }
                assert(s[s.len() - 1] == last);
            }
            if kept.contains(x) {
                let i = kept.index_of(x);
                if i < before.len() {
                    assert(before[i] == x);
                }
            }
            if before.contains(x) {
                assert(kept[before.index_of(x)] == x);
            }
            if last.frame >= frame {
                assert(kept[before.len() as int] == last);
            }
        }
    }
}

/// Of the snapshots exactly those of the given frame and later ones are kept, in their
/// order.
pub proof fn lemma_kept_snapshots(s: Seq<SnapshotModel>, frame: int, keep: spec_fn(SnapshotModel) -> bool)
    requires
        forall|x: SnapshotModel| #[trigger] keep(x) <==> x.frame >= frame,
    ensures
        snapshots_since(s, frame) == s.filter(keep),
    decreases s.len(),
{
    reveal(Seq::filter);
    if s.len() > 0 {
        lemma_kept_snapshots(s.drop_last(), frame, keep);
    }
}

/// Ascending by frame.
pub open spec fn frames_ascend(s: Seq<ClientInput>) -> bool {
    forall|i: int, j: int| 0 <= i < j < s.len() ==> (#[trigger] s[i]).frame <= (#[trigger] s[j]).frame
}

/// The inputs of one frame, in the given order.
pub open spec fn of_frame(s: Seq<ClientInput>, frame: u64) -> Seq<ClientInput> {
    s.filter(|x: ClientInput| x.frame == frame)
}

proof fn lemma_of_frame_push(s: Seq<ClientInput>, x: ClientInput, frame: u64)
    ensures
        of_frame(s.push(x), frame) == (if x.frame == frame {
            of_frame(s, frame).push(x)
        } else {
            of_frame(s, frame)
        }),
{
    reveal(Seq::filter);
    assert(s.push(x).drop_last() =~= s);
}

proof fn lemma_insert_by_frame(s: Seq<ClientInput>, x: ClientInput)
    requires
        frames_ascend(s),
    ensures
        frames_ascend(insert_by_frame(s, x)),
        insert_by_frame(s, x).len() == s.len() + 1,
        forall|f: u64| #[trigger] of_frame(insert_by_frame(s, x), f) == of_frame(s.push(x), f),
        forall|i: int|
            0 <= i < s.len() + 1 ==> #[trigger] insert_by_frame(s, x)[i] == x || s.contains(
                insert_by_frame(s, x)[i],
            ),
    decreases s.len(),
{
    reveal(Seq::filter);
    if s.len() > 0 && s.last().frame > x.frame {
        let init = s.drop_last();
        let last = s.last();
        assert forall|i: int, j: int| 0 <= i < j < init.len() implies (#[trigger] init[i]).frame <= (
        #[trigger] init[j]).frame by {
            assert(s[i].frame <= s[j].frame);
        }
        lemma_insert_by_frame(init, x);
        let sub = insert_by_frame(init, x);
        let all = insert_by_frame(s, x);
        assert forall|i: int| 0 <= i < sub.len() implies (#[trigger] sub[i]).frame <= last.frame by {
            if sub[i] != x {
                let k = init.index_of(sub[i]);
                assert(s[k] == sub[i]);
                assert(s[k].frame <= s[s.len() - 1].frame);
            }
        }
        assert(all == sub.push(last));
        assert(all.drop_last() =~= sub);
        assert(s.push(x).drop_last() =~= s);
        assert(init.push(x).drop_last() =~= init);
        assert forall|f: u64| #[trigger] of_frame(all, f) == of_frame(s.push(x), f) by {
            assert(of_frame(sub, f) == of_frame(init.push(x), f));
            lemma_of_frame_push(sub, last, f);
            lemma_of_frame_push(init, x, f);
            lemma_of_frame_push(init, last, f);
            lemma_of_frame_push(s, x, f);
            assert(init.push(last) =~= s);
        }
        assert forall|i: int| 0 <= i < s.len() + 1 implies #[trigger] all[i] == x || s.contains(all[i]) by {
            if i < sub.len() {
                assert(all[i] == sub[i]);
                if sub[i] != x {
                    let k = init.index_of(sub[i]);
                    assert(s[k] == sub[i]);
                }
            } else {
                assert(s[s.len() - 1] == all[i]);
            }
        }
    } else {
        let all = s.push(x);
        assert forall|i: int, j: int| 0 <= i < j < all.len() implies (#[trigger] all[i]).frame <= (
        #[trigger] all[j]).frame by {
            if j == s.len() {
                if i < s.len() - 1 {
                    assert(s[i].frame <= s[s.len() - 1].frame);
                }
            } else {
                assert(s[i].frame <= s[j].frame);
            }
        }
        assert forall|i: int| 0 <= i < s.len() + 1 implies #[trigger] all[i] == x || s.contains(all[i]) by {
            if i < s.len() {
                assert(s[i] == all[i]);
            }
        }
    }
}

/// Frame order ascends by frame, loses and adds no input, and keeps the inputs
/// of each frame in the order in which they were recorded.
pub proof fn lemma_in_frame_order(s: Seq<ClientInput>)
    ensures
        frames_ascend(in_frame_order(s)),
        in_frame_order(s).len() == s.len(),
        forall|f: u64| #[trigger] of_frame(in_frame_order(s), f) == of_frame(s, f),
    decreases s.len(),
{
    reveal(Seq::filter);
    if s.len() > 0 {
        let init = s.drop_last();
        let x = s.last();
        lemma_in_frame_order(init);
        let sorted = in_frame_order(init);
        lemma_insert_by_frame(sorted, x);
        assert(sorted.push(x).drop_last() =~= sorted);
        assert forall|f: u64| #[trigger] of_frame(in_frame_order(s), f) == of_frame(s, f) by {
            assert(of_frame(sorted, f) == of_frame(init, f));
        }
    }
}

} // verus!
