//! What the merge of two clients' deltas holds, said entry by entry.

use vstd::prelude::*;
use crate::entity::Entity;
use crate::replication::authority::{merge_changes, merge_despawns, merge_spawns, resolved, spawns_entity, touches};
use crate::replication::types::{ClientId, ComponentDeltaModel, DeltaModel};

verus! {

/// The entries of `xs` at the positions that `keep` picks, in order.
pub open spec fn picked<T>(xs: Seq<T>, keep: spec_fn(int) -> bool) -> Seq<T> {
    Seq::new(xs.len(), |i: int| i).filter(keep).map_values(|i: int| xs[i])
}

/// The `i`th change of `xs` is of a component that no change of `base` and no earlier
/// change of `xs` is of.
pub open spec fn new_change(base: Seq<ComponentDeltaModel>, xs: Seq<ComponentDeltaModel>, i: int) -> bool {
    &&& forall|j: int|
        0 <= j < base.len() ==> !((#[trigger] base[j]).entity == xs[i].entity && base[j].component_type
            == xs[i].component_type)
    &&& forall|j: int|
        0 <= j < i ==> !((#[trigger] xs[j]).entity == xs[i].entity && xs[j].component_type == xs[i].component_type)
}

/// The `i`th spawn of `xs` is of an entity that no spawn of `base` and no earlier
/// spawn of `xs` is of.
pub open spec fn new_spawn(base: Seq<(Entity, Seq<u8>)>, xs: Seq<(Entity, Seq<u8>)>, i: int) -> bool {
    &&& forall|j: int| 0 <= j < base.len() ==> (#[trigger] base[j]).0 != xs[i].0
    &&& forall|j: int| 0 <= j < i ==> (#[trigger] xs[j]).0 != xs[i].0
}

/// The `i`th entity of `xs` is neither in `base` nor earlier in `xs`.
pub open spec fn new_entity(base: Seq<Entity>, xs: Seq<Entity>, i: int) -> bool {
    &&& forall|j: int| 0 <= j < base.len() ==> #[trigger] base[j] != xs[i]
    &&& forall|j: int| 0 <= j < i ==> #[trigger] xs[j] != xs[i]
}

spec fn picked_upto<T>(xs: Seq<T>, keep: spec_fn(int) -> bool, n: nat) -> Seq<T> {
    Seq::new(n, |i: int| i).filter(keep).map_values(|i: int| xs[i])
}

proof fn lemma_picked_step<T>(xs: Seq<T>, keep: spec_fn(int) -> bool, n: nat)
    ensures
        picked_upto(xs, keep, n + 1) == (if keep(n as int) {
            picked_upto(xs, keep, n).push(xs[n as int])
        } else {
            picked_upto(xs, keep, n)
        }),
        picked_upto(xs, keep, 0).len() == 0,
{
    reveal(Seq::filter);
    let all = Seq::new(n + 1, |i: int| i);
    let init = Seq::new(n, |i: int| i);
    assert(all.drop_last() =~= init);
    let at = |i: int| xs[i];
    assert(all.filter(keep) == (if keep(n as int) {
        init.filter(keep).push(n as int)
    } else {
        init.filter(keep)
    }));
    assert(init.filter(keep).push(n as int).map_values(at) =~= init.filter(keep).map_values(at).push(xs[n as int]));
    assert(Seq::new(0, |i: int| i) =~= Seq::<int>::empty());
}

proof fn lemma_changes_picked(base: Seq<ComponentDeltaModel>, xs: Seq<ComponentDeltaModel>, n: nat)
    requires
        n <= xs.len(),
    ensures
        merge_changes(base, xs.take(n as int)) == base + picked_upto(xs, |i: int| new_change(base, xs, i), n),
        forall|k: int|
            0 <= k < n ==> touches(
                merge_changes(base, xs.take(n as int)),
                (#[trigger] xs[k]).entity,
                xs[k].component_type,
            ),
        forall|k: int|
            base.len() <= k < merge_changes(base, xs.take(n as int)).len() ==> exists|i: int|
                0 <= i < n && #[trigger] xs[i] == #[trigger] merge_changes(base, xs.take(n as int))[k],
    decreases n,
{
    let keep = |i: int| new_change(base, xs, i);
    if n == 0 {
        lemma_picked_step(xs, keep, 0);
        assert(xs.take(0) =~= Seq::<ComponentDeltaModel>::empty());
        assert(base + picked_upto(xs, keep, 0) =~= base);
    } else {
        let p = (n - 1) as nat;
        lemma_changes_picked(base, xs, p);
        lemma_picked_step(xs, keep, p);
        assert(xs.take(n as int).drop_last() =~= xs.take(p as int));
        let before = merge_changes(base, xs.take(p as int));
        let after = merge_changes(base, xs.take(n as int));
        let cd = xs[p as int];
        assert(xs.take(n as int).last() == cd);
        assert(touches(before, cd.entity, cd.component_type) <==> !keep(p as int)) by {
            if touches(before, cd.entity, cd.component_type) {
                let k = choose|k: int|
                    0 <= k < before.len() && (#[trigger] before[k]).entity == cd.entity && before[k].component_type
                        == cd.component_type;
                if k < base.len() {
                    assert(base[k] == before[k]);
                } else {
                    let i = choose|i: int| 0 <= i < p && #[trigger] xs[i] == before[k];
                    assert(xs[i].entity == cd.entity);
                }
            }
            if !keep(p as int) {
                if exists|j: int|
                    0 <= j < base.len() && (#[trigger] base[j]).entity == cd.entity && base[j].component_type
                        == cd.component_type {
                    let j = choose|j: int|
                        0 <= j < base.len() && (#[trigger] base[j]).entity == cd.entity && base[j].component_type
                            == cd.component_type;
                    assert(before[j] == base[j]);
                } else {
                    let j = choose|j: int|
                        0 <= j < p && (#[trigger] xs[j]).entity == cd.entity && xs[j].component_type
                            == cd.component_type;
                    assert(touches(before, xs[j].entity, xs[j].component_type));
                }
            }
        }
        if keep(p as int) {
            assert(after =~= base + picked_upto(xs, keep, n));
            assert(after[before.len() as int] == cd);
            assert forall|k: int| 0 <= k < n implies touches(after, (#[trigger] xs[k]).entity, xs[k].component_type) by {
                if k < p {
                    let i = choose|i: int|
                        0 <= i < before.len() && (#[trigger] before[i]).entity == xs[k].entity
                            && before[i].component_type == xs[k].component_type;
                    assert(after[i] == before[i]);
                }
            }
            assert forall|k: int| base.len() <= k < after.len() implies exists|i: int|
                0 <= i < n && #[trigger] xs[i] == #[trigger] after[k] by {
                if k < before.len() {
                    assert(after[k] == before[k]);
                    let i = choose|i: int| 0 <= i < p && #[trigger] xs[i] == before[k];
                    assert(xs[i] == after[k]);
                } else {
                    assert(xs[p as int] == after[k]);
                }
            }
        }
    }
}

proof fn lemma_spawns_picked(base: Seq<(Entity, Seq<u8>)>, xs: Seq<(Entity, Seq<u8>)>, n: nat)
    requires
        n <= xs.len(),
    ensures
        merge_spawns(base, xs.take(n as int)) == base + picked_upto(xs, |i: int| new_spawn(base, xs, i), n),
        forall|k: int| 0 <= k < n ==> spawns_entity(merge_spawns(base, xs.take(n as int)), (#[trigger] xs[k]).0),
        forall|k: int|
            base.len() <= k < merge_spawns(base, xs.take(n as int)).len() ==> exists|i: int|
                0 <= i < n && #[trigger] xs[i] == #[trigger] merge_spawns(base, xs.take(n as int))[k],
    decreases n,
{
    let keep = |i: int| new_spawn(base, xs, i);
    if n == 0 {
        lemma_picked_step(xs, keep, 0);
        assert(xs.take(0) =~= Seq::<(Entity, Seq<u8>)>::empty());
        assert(base + picked_upto(xs, keep, 0) =~= base);
    } else {
        let p = (n - 1) as nat;
        lemma_spawns_picked(base, xs, p);
        lemma_picked_step(xs, keep, p);
        assert(xs.take(n as int).drop_last() =~= xs.take(p as int));
        let before = merge_spawns(base, xs.take(p as int));
        let after = merge_spawns(base, xs.take(n as int));
        let s = xs[p as int];
        assert(xs.take(n as int).last() == s);
        assert(spawns_entity(before, s.0) <==> !keep(p as int)) by {
            if spawns_entity(before, s.0) {
                let k = choose|k: int| 0 <= k < before.len() && (#[trigger] before[k]).0 == s.0;
                if k < base.len() {
                    assert(base[k] == before[k]);
                } else {
                    let i = choose|i: int| 0 <= i < p && #[trigger] xs[i] == before[k];
                    assert(xs[i].0 == s.0);
                }
            }
            if !keep(p as int) {
                if exists|j: int| 0 <= j < base.len() && (#[trigger] base[j]).0 == s.0 {
                    let j = choose|j: int| 0 <= j < base.len() && (#[trigger] base[j]).0 == s.0;
                    assert(before[j] == base[j]);
                } else {
                    let j = choose|j: int| 0 <= j < p && (#[trigger] xs[j]).0 == s.0;
                    assert(spawns_entity(before, xs[j].0));
                }
            }
        }
        if keep(p as int) {
            assert(after =~= base + picked_upto(xs, keep, n));
            assert(after[before.len() as int] == s);
            assert forall|k: int| 0 <= k < n implies spawns_entity(after, (#[trigger] xs[k]).0) by {
                if k < p {
                    let i = choose|i: int| 0 <= i < before.len() && (#[trigger] before[i]).0 == xs[k].0;
                    assert(after[i] == before[i]);
                }
            }
            assert forall|k: int| base.len() <= k < after.len() implies exists|i: int|
                0 <= i < n && #[trigger] xs[i] == #[trigger] after[k] by {
                if k < before.len() {
                    assert(after[k] == before[k]);
                    let i = choose|i: int| 0 <= i < p && #[trigger] xs[i] == before[k];
                    assert(xs[i] == after[k]);
                } else {
                    assert(xs[p as int] == after[k]);
                }
            }
        }
    }
}

proof fn lemma_despawns_picked(base: Seq<Entity>, xs: Seq<Entity>, n: nat)
    requires
        n <= xs.len(),
    ensures
        merge_despawns(base, xs.take(n as int)) == base + picked_upto(xs, |i: int| new_entity(base, xs, i), n),
        forall|k: int| 0 <= k < n ==> merge_despawns(base, xs.take(n as int)).contains(#[trigger] xs[k]),
        forall|k: int|
            base.len() <= k < merge_despawns(base, xs.take(n as int)).len() ==> exists|i: int|
                0 <= i < n && #[trigger] xs[i] == #[trigger] merge_despawns(base, xs.take(n as int))[k],
    decreases n,
{
    let keep = |i: int| new_entity(base, xs, i);
    if n == 0 {
        lemma_picked_step(xs, keep, 0);
        assert(xs.take(0) =~= Seq::<Entity>::empty());
        assert(base + picked_upto(xs, keep, 0) =~= base);
    } else {
        let p = (n - 1) as nat;
        lemma_despawns_picked(base, xs, p);
        lemma_picked_step(xs, keep, p);
        assert(xs.take(n as int).drop_last() =~= xs.take(p as int));
        let before = merge_despawns(base, xs.take(p as int));
        let after = merge_despawns(base, xs.take(n as int));
        let e = xs[p as int];
        assert(xs.take(n as int).last() == e);
        assert(before.contains(e) <==> !keep(p as int)) by {
            if before.contains(e) {
                let k = before.index_of(e);
                if k < base.len() {
                    assert(base[k] == before[k]);
                } else {
                    let i = choose|i: int| 0 <= i < p && #[trigger] xs[i] == before[k];
                    assert(xs[i] == e);
                }
            }
            if !keep(p as int) {
                if exists|j: int| 0 <= j < base.len() && #[trigger] base[j] == e {
                    let j = choose|j: int| 0 <= j < base.len() && #[trigger] base[j] == e;
                    assert(before[j] == base[j]);
                } else {
                    let j = choose|j: int| 0 <= j < p && #[trigger] xs[j] == e;
                    assert(before.contains(xs[j]));
                }
            }
        }
        if keep(p as int) {
            assert(after =~= base + picked_upto(xs, keep, n));
            assert(after[before.len() as int] == e);
            assert forall|k: int| 0 <= k < n implies after.contains(#[trigger] xs[k]) by {
                if k < p {
                    let i = before.index_of(xs[k]);
                    assert(after[i] == before[i]);
                }
            }
            assert forall|k: int| base.len() <= k < after.len() implies exists|i: int|
                0 <= i < n && #[trigger] xs[i] == #[trigger] after[k] by {
                if k < before.len() {
                    assert(after[k] == before[k]);
                    let i = choose|i: int| 0 <= i < p && #[trigger] xs[i] == before[k];
                    assert(xs[i] == after[k]);
                } else {
                    assert(xs[p as int] == after[k]);
                }
            }
        }
    }
}

/// The merge of two clients' deltas, entry by entry. The client with the higher id
/// wins, and the second one if they are equal. Every entry of the winner is kept as it
/// is, and behind it, in order, stand the entries of the loser that name what neither
/// the winner nor an earlier entry of the loser names. All events of both are kept.
/// The frame is the later of the two, and the base the earlier one.
pub proof fn lemma_merge_entry_by_entry(a: DeltaModel, client_a: ClientId, b: DeltaModel, client_b: ClientId)
    ensures
        ({
            let merged = resolved(a, client_a, b, client_b);
            let (winner, loser) = if client_a.0 > client_b.0 {
                (a, b)
            } else {
                (b, a)
            };
            &&& merged.component_deltas == winner.component_deltas + picked(
                loser.component_deltas,
                |i: int| new_change(winner.component_deltas, loser.component_deltas, i),
            )
            &&& merged.spawned == winner.spawned + picked(
                loser.spawned,
                |i: int| new_spawn(winner.spawned, loser.spawned, i),
            )
            &&& merged.despawned == winner.despawned + picked(
                loser.despawned,
                |i: int| new_entity(winner.despawned, loser.despawned, i),
            )
            &&& merged.events == winner.events + loser.events
            &&& merged.frame == vstd::math::max(a.frame as int, b.frame as int)
            &&& merged.base_frame == vstd::math::min(a.base_frame as int, b.base_frame as int)
        }),
{
    let (winner, loser) = if client_a.0 > client_b.0 {
        (a, b)
    } else {
        (b, a)
    };
    lemma_changes_picked(winner.component_deltas, loser.component_deltas, loser.component_deltas.len());
    lemma_spawns_picked(winner.spawned, loser.spawned, loser.spawned.len());
    lemma_despawns_picked(winner.despawned, loser.despawned, loser.despawned.len());
    assert(loser.component_deltas.take(loser.component_deltas.len() as int) =~= loser.component_deltas);
    assert(loser.spawned.take(loser.spawned.len() as int) =~= loser.spawned);
    assert(loser.despawned.take(loser.despawned.len() as int) =~= loser.despawned);
}

} // verus!
