//! Engine subsystems that take part in the phases of a frame.
//!
//! A registry holds one instance of each kind of subsystem, found by its kind
//! or by its name, and runs a hook of every one of them in each phase.

use vstd::prelude::*;
use crate::gpu::scene_store::SceneGpuStore;
use crate::pairs::{lemma_pair_at, lemma_pairs_len, lemma_pairs_push, lemma_pairs_update, pair_index, pairs_map, unique_keys};
use crate::world::World;

verus! {

/// A subsystem with a hook for each phase.
///
/// What the hooks do is up to the implementation. A hook that it leaves out
/// does nothing.
pub trait Subsystem: Sized {
    /// The values of the world's components.
    type Value;

    /// The number of the kind of subsystem.
    fn kind(&self) -> u64;

    /// The name under which the subsystem is found.
    fn name(&self) -> String;

    /// Runs in the gameplay part of the simulation, and may change the world.
    fn simulate_a(&mut self, world: &mut World<Self::Value>)
        requires
            old(world).well_formed(),
        ensures
            final(world).well_formed(),
        default_ensures
            *final(self) == *old(self),
            *final(world) == *old(world),
    {
    }

    /// Runs in the physics part of the simulation, and may change the world.
    fn simulate_b(&mut self, world: &mut World<Self::Value>)
        requires
            old(world).well_formed(),
        ensures
            final(world).well_formed(),
        default_ensures
            *final(self) == *old(self),
            *final(world) == *old(world),
    {
    }

    /// Runs in the harvest phase, and only reads.
    fn harvest(&mut self, store: &SceneGpuStore)
        default_ensures
            *final(self) == *old(self),
    {
    }

    /// Runs in the frame boundary, between retiring and compacting.
    fn boundary(&mut self)
        default_ensures
            *final(self) == *old(self),
    {
    }
}

/// Why a call by name failed.
#[derive(Debug)]
pub enum SubsystemDispatchError<E> {
    /// No subsystem has this name.
    UnknownSubsystem(String),
    /// The subsystem was found, but the call on it failed.
    Reflection(E),
}

/// Names with their kinds, by the text of the name.
pub open spec fn name_pairs(names: Seq<(String, u64)>) -> Seq<(Seq<char>, u64)> {
    names.map_values(|p: (String, u64)| (p.0@, p.1))
}

/// The same kinds in the same order.
pub open spec fn same_kinds<S>(before: Seq<(u64, S)>, after: Seq<(u64, S)>) -> bool {
    &&& before.len() == after.len()
    &&& forall|i: int| 0 <= i < before.len() ==> (#[trigger] after[i]).0 == before[i].0
}

/// The subsystems with one more: in the place of the one of its kind if there is
/// one, and behind all others otherwise.
pub open spec fn enlisted<S>(order: Seq<(u64, S)>, kind: u64, instance: S) -> Seq<(u64, S)> {
    if pairs_map(order).contains_key(kind) {
        order.update(pair_index(order, kind), (kind, instance))
    } else {
        order.push((kind, instance))
    }
}

/// Registering a kind puts its subsystem behind all others, or in the place of the one
/// of the same kind. No other subsystem changes, nor its place.
pub proof fn lemma_registration_order<S>(order: Seq<(u64, S)>, kind: u64, instance: S, i: int)
    requires
        unique_keys(order),
        0 <= i < order.len(),
    ensures
        order[i].0 == kind ==> {
            &&& enlisted(order, kind, instance).len() == order.len()
            &&& enlisted(order, kind, instance)[i] == (kind, instance)
        },
        order[i].0 != kind ==> enlisted(order, kind, instance)[i] == order[i],
        (forall|j: int| 0 <= j < order.len() ==> (#[trigger] order[j]).0 != kind) ==> enlisted(order, kind, instance)
            == order.push((kind, instance)),
{
    if pairs_map(order).contains_key(kind) {
        let k = pair_index(order, kind);
        assert(order[k].0 == kind);
        if order[i].0 == kind {
            assert(order[i].0 == order[k].0);
        }
    } else if order[i].0 == kind {
        crate::pairs::lemma_pair_at(order, i);
    }
}

/// The states of a world through a phase, from `first` to `last`, `n` hooks
/// apart.
pub open spec fn worlds_between<V>(worlds: Seq<World<V>>, n: nat, first: World<V>, last: World<V>) -> bool {
    worlds.len() == n + 1 && worlds[0] == first && worlds[n as int] == last
}

/// One of `n` subsystems.
pub open spec fn is_subsystem(i: int, n: nat) -> bool {
    0 <= i < n
}

proof fn lemma_same_kinds<S>(before: Seq<(u64, S)>, after: Seq<(u64, S)>)
    requires
        unique_keys(before),
        same_kinds(before, after),
    ensures
        unique_keys(after),
        forall|k: u64| #[trigger] pairs_map(before).contains_key(k) ==> pairs_map(after).contains_key(k),
{
    assert forall|i: int, j: int|
        0 <= i < after.len() && 0 <= j < after.len() && (#[trigger] after[i]).0 == (#[trigger] after[j]).0 implies i
        == j by {
        assert(before[i].0 == before[j].0);
    }
    assert forall|k: u64| #[trigger] pairs_map(before).contains_key(k) implies pairs_map(after).contains_key(k) by {
        let i = pair_index(before, k);
        assert(after[i].0 == before[i].0);
    }
}

/// A registry whose kinds and names stay is still well formed.
proof fn lemma_registry_kept<S>(before: SubsystemRegistry<S>, after: SubsystemRegistry<S>)
    requires
        before.well_formed(),
        before.name_to_type == after.name_to_type,
        same_kinds(before.instances@, after.instances@),
    ensures
        after.well_formed(),
{
    lemma_same_kinds(before.instances@, after.instances@);
    assert forall|n: Seq<char>| #[trigger] after.names().contains_key(n) implies after.instances().contains_key(
        after.names()[n],
    ) by {
        assert(before.names().contains_key(n));
        assert(before.instances().contains_key(before.names()[n]));
    }
}

/// The subsystems, one of each kind.
pub struct SubsystemRegistry<S> {
    instances: Vec<(u64, S)>,
    name_to_type: Vec<(String, u64)>,
}

impl<S> Default for SubsystemRegistry<S> {
    fn default() -> (r: SubsystemRegistry<S>)
        ensures
            r.well_formed(),
            r.instances() == Map::<u64, S>::empty(),
            r.names() == Map::<Seq<char>, u64>::empty(),
            r.order().len() == 0,
    {
        SubsystemRegistry::new()
    }
}

impl<S> SubsystemRegistry<S> {
    /// The subsystems by the number of their kind.
    pub closed spec fn instances(&self) -> Map<u64, S> {
        pairs_map(self.instances@)
    }

    /// The kinds by name.
    pub closed spec fn names(&self) -> Map<Seq<char>, u64> {
        pairs_map(name_pairs(self.name_to_type@))
    }

    /// The subsystems in the order in which their kinds were registered, each
    /// with its kind.
    pub closed spec fn order(&self) -> Seq<(u64, S)> {
        self.instances@
    }

    /// No kind and no name occurs twice, and every name leads to a subsystem.
    pub closed spec fn well_formed(&self) -> bool {
        &&& unique_keys(self.instances@)
        &&& unique_keys(name_pairs(self.name_to_type@))
        &&& forall|n: Seq<char>| #[trigger]
            self.names().contains_key(n) ==> self.instances().contains_key(self.names()[n])
    }

    /// The order lists each subsystem once.
    pub proof fn lemma_order(&self)
        requires
            self.well_formed(),
        ensures
            unique_keys(self.order()),
            self.instances() == pairs_map(self.order()),
            self.instances().dom().finite(),
            self.instances().dom().len() == self.order().len(),
    {
        lemma_pairs_len(self.instances@);
    }

    /// Every name leads to a subsystem.
    pub proof fn lemma_names(&self, n: Seq<char>)
        requires
            self.well_formed(),
            self.names().contains_key(n),
        ensures
            self.instances().contains_key(self.names()[n]),
    {
    }

    /// A registry without subsystems.
    pub fn new() -> (r: SubsystemRegistry<S>)
        ensures
            r.well_formed(),
            r.instances() == Map::<u64, S>::empty(),
            r.names() == Map::<Seq<char>, u64>::empty(),
            r.order().len() == 0,
    {
        let r = SubsystemRegistry { instances: Vec::new(), name_to_type: Vec::new() };
        proof {
            assert(r.instances() =~= Map::<u64, S>::empty());
            assert(r.names() =~= Map::<Seq<char>, u64>::empty());
        }
        r
    }

    /// How many subsystems there are.
    pub fn len(&self) -> (n: usize)
        requires
            self.well_formed(),
        ensures
            n == self.instances().dom().len(),
    {
        proof {
            self.lemma_order();
        }
        self.instances.len()
    }

    /// Whether there is no subsystem.
    pub fn is_empty(&self) -> (yes: bool)
        requires
            self.well_formed(),
        ensures
            yes == (self.instances().dom().len() == 0),
    {
        proof {
            self.lemma_order();
        }
        self.instances.len() == 0
    }

    fn instance_position(&self, kind: u64) -> (at: Option<usize>)
        requires
            self.well_formed(),
        ensures
            match at {
                Some(i) => i < self.instances@.len() && self.instances@[i as int].0 == kind
                    && self.instances().contains_key(kind) && self.instances()[kind]
                    == self.instances@[i as int].1,
                None => !self.instances().contains_key(kind) && forall|i: int|
                    0 <= i < self.instances@.len() ==> (#[trigger] self.instances@[i]).0 != kind,
            },
    {
        let mut i: usize = 0;
        while i < self.instances.len()
            invariant
                i <= self.instances@.len(),
                self.well_formed(),
                forall|j: int| 0 <= j < i ==> (#[trigger] self.instances@[j]).0 != kind,
            decreases self.instances@.len() - i,
        {
            if self.instances[i].0 == kind {
                proof {
                    lemma_pair_at(self.instances@, i as int);
                }
                return Some(i);
            }
            i = i + 1;
        }
        None
    }

    fn name_position(&self, name: &str) -> (at: Option<usize>)
        requires
            self.well_formed(),
        ensures
            match at {
                Some(i) => i < self.name_to_type@.len() && self.name_to_type@[i as int].0@ == name@
                    && self.names().contains_key(name@) && self.names()[name@]
                    == self.name_to_type@[i as int].1,
                None => !self.names().contains_key(name@) && forall|i: int|
                    0 <= i < self.name_to_type@.len() ==> (#[trigger] self.name_to_type@[i]).0@ != name@,
            },
    {
        let ghost pairs = name_pairs(self.name_to_type@);
        let key: String = name.to_owned();
        let mut i: usize = 0;
        while i < self.name_to_type.len()
            invariant
                i <= self.name_to_type@.len(),
                self.well_formed(),
                key@ == name@,
                pairs == name_pairs(self.name_to_type@),
                forall|j: int| 0 <= j < i ==> (#[trigger] self.name_to_type@[j]).0@ != name@,
            decreases self.name_to_type@.len() - i,
        {
            if self.name_to_type[i].0 == key {
                proof {
                    lemma_pair_at(pairs, i as int);
                }
                return Some(i);
            }
            i = i + 1;
        }
        proof {
            assert forall|j: int| 0 <= j < pairs.len() implies (#[trigger] pairs[j]).0 != name@ by {
                assert(pairs[j].0 == self.name_to_type@[j].0@);
            }
        }
        None
    }

    /// The subsystem of a kind.
    pub fn get(&self, kind: u64) -> (found: Option<&S>)
        requires
            self.well_formed(),
        ensures
            match found {
                Some(s) => self.instances().contains_key(kind) && *s == self.instances()[kind],
                None => !self.instances().contains_key(kind),
            },
    {
        match self.instance_position(kind) {
            Some(i) => Some(&self.instances[i].1),
            None => None,
        }
    }

    /// The subsystem of a kind, to be changed.
    pub fn get_mut(&mut self, kind: u64) -> (found: Option<&mut S>)
        requires
            old(self).well_formed(),
        ensures
            final(self).well_formed(),
            final(self).names() == old(self).names(),
            found is Some <==> old(self).instances().contains_key(kind),
            same_kinds(old(self).order(), final(self).order()),
            match found {
                Some(s) => *s == old(self).instances()[kind] && final(self).instances()
                    == old(self).instances().insert(kind, *final(s)),
                None => *final(self) == *old(self),
            },
    {
        match self.instance_position(kind) {
            Some(i) => {
                let ghost whole = *self;
                let ghost before = self.instances@;
                let s = &mut self.instances[i].1;
                proof {
                    let after = after_borrow(self).instances@;
                    lemma_pairs_update(before, i as int, *final(s));
                    assert(after =~= before.update(i as int, (before[i as int].0, *final(s))));
                    assert(pairs_map(after) == pairs_map(before).insert(kind, *final(s)));
                    assert(after_borrow(self).names() == whole.names());
                    assert forall|n: Seq<char>| #[trigger] whole.names().contains_key(n) implies after_borrow(
                        self,
                    ).instances().contains_key(whole.names()[n]) by {}
                }
                Some(s)
            },
            None => None,
        }
    }

    /// The subsystem with a name, to be changed.
    pub fn get_by_name_mut(&mut self, name: &str) -> (found: Option<&mut S>)
        requires
            old(self).well_formed(),
        ensures
            final(self).well_formed(),
            final(self).names() == old(self).names(),
            found is Some <==> old(self).names().contains_key(name@),
            same_kinds(old(self).order(), final(self).order()),
            match found {
                Some(s) => *s == old(self).instances()[old(self).names()[name@]] && final(self).instances()
                    == old(self).instances().insert(old(self).names()[name@], *final(s)),
                None => *final(self) == *old(self),
            },
    {
        match self.name_position(name) {
            Some(i) => {
                let kind: u64 = self.name_to_type[i].1;
                self.get_mut(kind)
            },
            None => None,
        }
    }

    /// Finds a subsystem by name and makes a call on it.
    pub fn dispatch<R, E, F: FnOnce(&mut S) -> Result<R, E>>(&mut self, subsystem_name: &str, call: F) -> (out: Result<
        R,
        SubsystemDispatchError<E>,
    >)
        requires
            old(self).well_formed(),
            old(self).names().contains_key(subsystem_name@) ==> forall|s: &mut S|
                *s == old(self).instances()[old(self).names()[subsystem_name@]] ==> #[trigger] call_requires(
                    call,
                    (s,),
                ),
        ensures
            final(self).well_formed(),
            final(self).names() == old(self).names(),
            same_kinds(old(self).order(), final(self).order()),
            if old(self).names().contains_key(subsystem_name@) {
                let kind = old(self).names()[subsystem_name@];
                exists|s: &mut S, reply: Result<R, E>| #[trigger]
                    call_ensures(call, (s,), reply) && {
                        &&& *s == old(self).instances()[kind]
                        &&& final(self).instances() == old(self).instances().insert(kind, *final(s))
                        &&& out == (match reply {
                            Ok(r) => Ok::<R, SubsystemDispatchError<E>>(r),
                            Err(e) => Err::<R, SubsystemDispatchError<E>>(
                                SubsystemDispatchError::Reflection(e),
                            ),
                        })
                    }
            } else {
                &&& *final(self) == *old(self)
                &&& out matches Err(SubsystemDispatchError::UnknownSubsystem(n)) && n@ == subsystem_name@
            },
    {
        match self.get_by_name_mut(subsystem_name) {
            Some(s) => match call(s) {
                Ok(r) => Ok(r),
                Err(e) => Err(SubsystemDispatchError::Reflection(e)),
            },
            None => Err(SubsystemDispatchError::UnknownSubsystem(subsystem_name.to_owned())),
        }
    }
}

impl<S: Subsystem> SubsystemRegistry<S> {
    /// Adds a subsystem, in place of the one of its kind if there is one, and
    /// behind all others otherwise. Its name leads to it from now on.
    pub fn register(&mut self, instance: S)
        requires
            old(self).well_formed(),
        ensures
            final(self).well_formed(),
            exists|kind: u64, name: String| #[trigger]
                call_ensures(S::kind, (&instance,), kind) && #[trigger] call_ensures(S::name, (&instance,), name) && {
                    &&& final(self).instances() == old(self).instances().insert(kind, instance)
                    &&& final(self).names() == old(self).names().insert(name@, kind)
                    &&& final(self).order() == enlisted(old(self).order(), kind, instance)
                },
    {
        let ghost before = *self;
        let kind: u64 = instance.kind();
        let name = instance.name();
        assert(call_ensures(S::kind, (&instance,), kind) && call_ensures(S::name, (&instance,), name));
        let at = self.instance_position(kind);
        match self.name_position(name.as_str()) {
            Some(i) => {
                let ghost was = name_pairs(self.name_to_type@);
                proof {
                    lemma_pairs_update(was, i as int, kind);
                }
                self.name_to_type[i].1 = kind;
                proof {
                    assert(name_pairs(self.name_to_type@) =~= was.update(i as int, (was[i as int].0, kind)));
                }
            },
            None => {
                let ghost was = name_pairs(self.name_to_type@);
                proof {
                    assert forall|j: int| 0 <= j < was.len() implies (#[trigger] was[j]).0 != name@ by {
                        assert(was[j].0 == self.name_to_type@[j].0@);
                    }
                    lemma_pairs_push(was, name@, kind);
                }
                self.name_to_type.push((name, kind));
                proof {
                    assert(name_pairs(self.name_to_type@) =~= was.push((name@, kind)));
                }
            },
        }
        match at {
            Some(i) => {
                proof {
                    lemma_pairs_update(before.instances@, i as int, instance);
                }
                self.instances[i].1 = instance;
                proof {
                    assert(pair_index(before.instances@, kind) == i);
                    assert(self.instances@ =~= before.instances@.update(
                        i as int,
                        (before.instances@[i as int].0, instance),
                    ));
                }
            },
            None => {
                proof {
                    lemma_pairs_push(before.instances@, kind, instance);
                }
                self.instances.push((kind, instance));
            },
        }
    }

    /// Runs the gameplay hook of every subsystem once, in the order in which
    /// the kinds were registered, each on the world that the one before it
    /// left.
    pub fn simulate_a(&mut self, world: &mut World<S::Value>)
        requires
            old(self).well_formed(),
            old(world).well_formed(),
        ensures
            final(self).well_formed(),
            final(world).well_formed(),
            final(self).names() == old(self).names(),
            same_kinds(old(self).order(), final(self).order()),
            exists|worlds: Seq<World<S::Value>>| #[trigger]
                worlds_between(worlds, old(self).order().len(), *old(world), *final(world)) && forall|i: int| #[trigger]
                    is_subsystem(i, old(self).order().len()) ==> exists|s: &mut S, w: &mut World<S::Value>| #[trigger]
                        call_ensures(S::simulate_a, (s, w), ()) && *s == old(self).order()[i].1 && *final(s) == final(self).order()[i].1
                            && *w == worlds[i] && *final(w) == worlds[i + 1],
    {
        let ghost before = *self;
        let ghost mut worlds: Seq<World<S::Value>> = seq![*world];
        let len: usize = self.instances.len();
        let mut k: usize = 0;
        while k < len
            invariant
                k <= len,
                len == self.instances@.len(),
                world.well_formed(),
                before.well_formed(),
                self.name_to_type == before.name_to_type,
                same_kinds(before.instances@, self.instances@),
                worlds_between(worlds, k as nat, *old(world), *world),
                forall|i: int| #[trigger]
                    is_subsystem(i, k as nat) ==> exists|s: &mut S, w: &mut World<S::Value>| #[trigger]
                        call_ensures(S::simulate_a, (s, w), ()) && *s == before.instances@[i].1 && *final(s) == self.instances@[i].1
                            && *w == worlds[i] && *final(w) == worlds[i + 1],
                forall|j: int| k <= j < len ==> #[trigger] self.instances@[j] == before.instances@[j],
            decreases len - k,
        {
            let ghost was = self.instances@;
            let ghost there = *world;
            let ghost chain = worlds;
            self.instances[k].1.simulate_a(world);
            assert(exists|s: &mut S, w: &mut World<S::Value>| #[trigger]
                call_ensures(S::simulate_a, (s, w), ()) && *s == before.instances@[k as int].1 && *final(s)
                    == self.instances@[k as int].1 && *w == there && *final(w) == *world);
            proof {
                worlds = chain.push(*world);
                assert(worlds[k as int] == there);
                assert forall|i: int| #[trigger] is_subsystem(i, (k + 1) as nat) implies exists|s: &mut S, w: &mut World<S::Value>| #[trigger]
                        call_ensures(S::simulate_a, (s, w), ()) && *s == before.instances@[i].1 && *final(s) == self.instances@[i].1
                            && *w == worlds[i] && *final(w) == worlds[i + 1] by {
                    if i < k {
                        assert(is_subsystem(i, k as nat));
                        assert(worlds[i] == chain[i]);
                        assert(worlds[i + 1] == chain[i + 1]);
                        assert(self.instances@[i] == was[i]);
                    }
                }
            }
            k = k + 1;
        }
        proof {
            lemma_registry_kept(before, *self);
        }
    }

    /// Runs the physics hook of every subsystem once, in the order in which
    /// the kinds were registered, each on the world that the one before it
    /// left.
    pub fn simulate_b(&mut self, world: &mut World<S::Value>)
        requires
            old(self).well_formed(),
            old(world).well_formed(),
        ensures
            final(self).well_formed(),
            final(world).well_formed(),
            final(self).names() == old(self).names(),
            same_kinds(old(self).order(), final(self).order()),
            exists|worlds: Seq<World<S::Value>>| #[trigger]
                worlds_between(worlds, old(self).order().len(), *old(world), *final(world)) && forall|i: int| #[trigger]
                    is_subsystem(i, old(self).order().len()) ==> exists|s: &mut S, w: &mut World<S::Value>| #[trigger]
                        call_ensures(S::simulate_b, (s, w), ()) && *s == old(self).order()[i].1 && *final(s) == final(self).order()[i].1
                            && *w == worlds[i] && *final(w) == worlds[i + 1],
    {
        let ghost before = *self;
        let ghost mut worlds: Seq<World<S::Value>> = seq![*world];
        let len: usize = self.instances.len();
        let mut k: usize = 0;
        while k < len
            invariant
                k <= len,
                len == self.instances@.len(),
                world.well_formed(),
                before.well_formed(),
                self.name_to_type == before.name_to_type,
                same_kinds(before.instances@, self.instances@),
                worlds_between(worlds, k as nat, *old(world), *world),
                forall|i: int| #[trigger]
                    is_subsystem(i, k as nat) ==> exists|s: &mut S, w: &mut World<S::Value>| #[trigger]
                        call_ensures(S::simulate_b, (s, w), ()) && *s == before.instances@[i].1 && *final(s) == self.instances@[i].1
                            && *w == worlds[i] && *final(w) == worlds[i + 1],
                forall|j: int| k <= j < len ==> #[trigger] self.instances@[j] == before.instances@[j],
            decreases len - k,
        {
            let ghost was = self.instances@;
            let ghost there = *world;
            let ghost chain = worlds;
            self.instances[k].1.simulate_b(world);
            assert(exists|s: &mut S, w: &mut World<S::Value>| #[trigger]
                call_ensures(S::simulate_b, (s, w), ()) && *s == before.instances@[k as int].1 && *final(s)
                    == self.instances@[k as int].1 && *w == there && *final(w) == *world);
            proof {
                worlds = chain.push(*world);
                assert(worlds[k as int] == there);
                assert forall|i: int| #[trigger] is_subsystem(i, (k + 1) as nat) implies exists|s: &mut S, w: &mut World<S::Value>| #[trigger]
                        call_ensures(S::simulate_b, (s, w), ()) && *s == before.instances@[i].1 && *final(s) == self.instances@[i].1
                            && *w == worlds[i] && *final(w) == worlds[i + 1] by {
                    if i < k {
                        assert(is_subsystem(i, k as nat));
                        assert(worlds[i] == chain[i]);
                        assert(worlds[i + 1] == chain[i + 1]);
                        assert(self.instances@[i] == was[i]);
                    }
                }
            }
            k = k + 1;
        }
        proof {
            lemma_registry_kept(before, *self);
        }
    }

    /// Runs the harvest hook of every subsystem once.
    pub fn harvest(&mut self, store: &SceneGpuStore)
        requires
            old(self).well_formed(),
        ensures
            final(self).well_formed(),
            final(self).names() == old(self).names(),
            same_kinds(old(self).order(), final(self).order()),
            forall|i: int| #[trigger]
                is_subsystem(i, old(self).order().len()) ==> exists|s: &mut S| #[trigger]
                    call_ensures(S::harvest, (s, store), ()) && *s == old(self).order()[i].1 && *final(s)
                        == final(self).order()[i].1,
    {
        let ghost before = *self;
        let len: usize = self.instances.len();
        let mut k: usize = 0;
        while k < len
            invariant
                k <= len,
                len == self.instances@.len(),
                before.well_formed(),
                self.name_to_type == before.name_to_type,
                same_kinds(before.instances@, self.instances@),
                forall|i: int| #[trigger]
                    is_subsystem(i, k as nat) ==> exists|s: &mut S| #[trigger]
                        call_ensures(S::harvest, (s, store), ()) && *s == before.instances@[i].1 && *final(s)
                            == self.instances@[i].1,
                forall|j: int| k <= j < len ==> #[trigger] self.instances@[j] == before.instances@[j],
            decreases len - k,
        {
            let ghost was = self.instances@;
            self.instances[k].1.harvest(store);
            assert(exists|s: &mut S| #[trigger]
                call_ensures(S::harvest, (s, store), ()) && *s == before.instances@[k as int].1 && *final(s)
                    == self.instances@[k as int].1);
            k = k + 1;
            proof {
                assert forall|i: int| #[trigger] is_subsystem(i, k as nat) implies (exists|s: &mut S| #[trigger]
                    call_ensures(S::harvest, (s, store), ()) && *s == before.instances@[i].1 && *final(s)
                        == self.instances@[i].1) by {
                    if i < k - 1 {
                        assert(is_subsystem(i, (k - 1) as nat));
                        assert(self.instances@[i] == was[i]);
                    }
                }
            }
        }
        proof {
            lemma_registry_kept(before, *self);
        }
    }

    /// Runs the boundary hook of every subsystem once.
    pub fn boundary(&mut self)
        requires
            old(self).well_formed(),
        ensures
            final(self).well_formed(),
            final(self).names() == old(self).names(),
            same_kinds(old(self).order(), final(self).order()),
            forall|i: int| #[trigger]
                is_subsystem(i, old(self).order().len()) ==> exists|s: &mut S| #[trigger]
                    call_ensures(S::boundary, (s,), ()) && *s == old(self).order()[i].1 && *final(s)
                        == final(self).order()[i].1,
    {
        let ghost before = *self;
        let len: usize = self.instances.len();
        let mut k: usize = 0;
        while k < len
            invariant
                k <= len,
                len == self.instances@.len(),
                before.well_formed(),
                self.name_to_type == before.name_to_type,
                same_kinds(before.instances@, self.instances@),
                forall|i: int| #[trigger]
                    is_subsystem(i, k as nat) ==> exists|s: &mut S| #[trigger]
                        call_ensures(S::boundary, (s,), ()) && *s == before.instances@[i].1 && *final(s)
                            == self.instances@[i].1,
                forall|j: int| k <= j < len ==> #[trigger] self.instances@[j] == before.instances@[j],
            decreases len - k,
        {
            let ghost was = self.instances@;
            self.instances[k].1.boundary();
            assert(exists|s: &mut S| #[trigger]
                call_ensures(S::boundary, (s,), ()) && *s == before.instances@[k as int].1 && *final(s)
                    == self.instances@[k as int].1);
            k = k + 1;
            proof {
                assert forall|i: int| #[trigger] is_subsystem(i, k as nat) implies (exists|s: &mut S| #[trigger]
                    call_ensures(S::boundary, (s,), ()) && *s == before.instances@[i].1 && *final(s)
                        == self.instances@[i].1) by {
                    if i < k - 1 {
                        assert(is_subsystem(i, (k - 1) as nat));
                        assert(self.instances@[i] == was[i]);
                    }
                }
            }
        }
        proof {
            lemma_registry_kept(before, *self);
        }
    }
}

} // verus!
