//! Entities, components and queries.

use pulsar_scenedb::archetype::ArchetypeKey;
use pulsar_scenedb::component::ComponentId;
use pulsar_scenedb::entity::Entity;
use pulsar_scenedb::query::{validate_mutable_accesses, Access, QueryError};
use pulsar_scenedb::world::World;

const POS: ComponentId = ComponentId(1);
const VEL: ComponentId = ComponentId(2);
const TAG: ComponentId = ComponentId(3);

fn write(component: ComponentId) -> Access {
    Access { component, mutable: true }
}

#[test]
fn mixed_mutable_and_shared_query_updates_distinct_columns() {
    let mut world = World::new();
    let entity = world.spawn();
    world.insert(entity, POS, 3);
    world.insert(entity, VEL, 4);

    let mut it = world.query_mut(&(write(POS), VEL)).ok().unwrap();
    while let Some(_) = it.next() {
        let vel = *it.get(1).unwrap();
        *it.get_mut(0).unwrap() += vel;
    }

    assert_eq!(world.get(entity, POS), Some(&7));
}

#[test]
#[should_panic(expected = "aliased access")]
fn duplicate_mutable_access_is_rejected_before_iteration() {
    let mut world = World::new();
    let entity = world.spawn();
    world.insert(entity, POS, 1);
    if let Err(QueryError::Aliased(c)) = world.query_mut(&(write(POS), write(POS))) {
        panic!("aliased access to component {:?}", c);
    }
}

#[test]
#[should_panic(expected = "aliased access")]
fn shared_and_mutable_access_to_same_component_is_rejected() {
    let mut world = World::new();
    let entity = world.spawn();
    world.insert(entity, POS, 1);
    if let Err(QueryError::Aliased(c)) = world.query_mut(&(POS, write(POS))) {
        panic!("aliased access to component {:?}", c);
    }
}

#[test]
fn a_component_may_be_read_twice() {
    let read = |c| Access { component: c, mutable: false };
    assert_eq!(validate_mutable_accesses(&vec![read(POS), read(POS), write(VEL)]), Ok(()));
    assert_eq!(
        validate_mutable_accesses(&vec![write(VEL), read(POS), read(POS), read(VEL)]),
        Err(QueryError::Aliased(VEL))
    );
}

#[test]
fn a_read_only_access_gives_no_mutable_reference() {
    let mut world = World::new();
    let entity = world.spawn();
    world.insert(entity, POS, 1);
    let mut it = world.query_mut(&POS).ok().unwrap();
    assert!(it.get(0).is_none(), "no entity yet");
    assert_eq!(it.next(), Some(entity));
    assert!(it.get_mut(0).is_none());
    assert_eq!(it.get(0), Some(&1));
}

#[test]
fn a_query_finds_exactly_the_matching_entities() {
    let mut world = World::new();
    let a = world.spawn();
    let b = world.spawn();
    let c = world.spawn();
    world.insert(a, POS, 1);
    world.insert(b, POS, 2);
    world.insert(b, VEL, 3);
    world.insert(c, VEL, 4);

    let mut both = world.query(&(POS, VEL));
    let (e, values) = both.next().unwrap();
    assert_eq!((e, values), (b, vec![&2, &3]));
    assert!(both.next().is_none());
    assert!(both.next().is_none());

    let mut found: Vec<Entity> = Vec::new();
    let mut all = world.query(&());
    while let Some((e, values)) = all.next() {
        assert!(values.is_empty());
        found.push(e);
    }
    found.sort_by_key(|e| e.bits());
    assert_eq!(found, vec![a, b, c]);
    assert!(world.query(&TAG).next().is_none());
}

#[test]
fn a_world_reads_back_what_was_inserted() {
    let mut world = World::new();
    let a = world.spawn();
    let b = world.spawn();
    assert_ne!(a, b);
    world.insert(a, POS, 10);
    world.insert(b, POS, 20);
    world.insert(a, VEL, 30);
    assert_eq!(world.get(a, POS), Some(&10));
    assert_eq!(world.get(b, POS), Some(&20));
    assert_eq!(world.get(a, VEL), Some(&30));
    assert_eq!(world.get(b, VEL), None);
    world.insert(a, POS, 11);
    assert_eq!(world.get(a, POS), Some(&11));
    *world.get_mut(b, POS).unwrap() += 1;
    assert_eq!(world.get(b, POS), Some(&21));
    assert_eq!(world.remove(a, POS), Some(11));
    assert_eq!(world.remove(a, POS), None);
    assert_eq!(world.get(a, POS), None);
    assert_eq!(world.get(a, VEL), Some(&30));
    assert!(world.assert_archetype_consistency());
}

#[test]
fn a_despawned_handle_stays_stale() {
    let mut world: World<u32> = World::new();
    let a = world.spawn();
    assert!(world.is_alive(a));
    assert!(world.despawn(a));
    assert!(!world.is_alive(a));
    assert!(!world.despawn(a));
    let b = world.spawn();
    assert_eq!(b.index(), a.index(), "the slot is used again");
    assert_ne!(b.generation(), a.generation());
    assert!(!world.is_alive(a));
    assert!(world.is_alive(b));
    assert_eq!(world.get(a, POS), None);
}

#[test]
fn a_handle_survives_its_bits() {
    let e = Entity::new(7, 3);
    assert_eq!(e.index(), 7);
    assert_eq!(e.generation(), 3);
    assert_eq!(e.bits(), (3u64 << 32) | 7);
    assert_eq!(Entity::from_bits(e.bits()), e);
    let world: World<u32> = World::default();
    assert!(!world.is_alive(Entity::dangling()));
}

#[test]
fn a_key_is_sorted_and_without_duplicates() {
    let key = ArchetypeKey::new(vec![ComponentId(3), ComponentId(1), ComponentId(3)]);
    assert_eq!(key.raw(), vec![1, 3]);
    assert_eq!(key.with(ComponentId(2)).raw(), vec![1, 2, 3]);
    assert_eq!(key.without(ComponentId(1)).raw(), vec![3]);
    assert_eq!(key.position(ComponentId(3)), Some(1));
}
