//! Subsystems and their registry.

use pulsar_scenedb::component::ComponentId;
use pulsar_scenedb::entity::Entity;
use pulsar_scenedb::subsystem::{Subsystem, SubsystemDispatchError, SubsystemRegistry};
use pulsar_scenedb::world::World;

#[derive(Debug, PartialEq)]
enum Engine {
    Counter { simulate_a_calls: u32, simulate_b_calls: u32, boundary_calls: u32 },
    Adder { total: i64 },
}

const COUNTER: u64 = 1;
const ADDER: u64 = 2;

impl Subsystem for Engine {
    type Value = u32;

    fn kind(&self) -> u64 {
        match self {
            Engine::Counter { .. } => COUNTER,
            Engine::Adder { .. } => ADDER,
        }
    }

    fn name(&self) -> String {
        match self {
            Engine::Counter { .. } => "counter".to_string(),
            Engine::Adder { .. } => "adder".to_string(),
        }
    }

    fn simulate_a(&mut self, world: &mut World<u32>) {
        if let Engine::Counter { simulate_a_calls, .. } = self {
            *simulate_a_calls += 1;
            world.spawn();
        }
    }

    fn simulate_b(&mut self, _world: &mut World<u32>) {
        if let Engine::Counter { simulate_b_calls, .. } = self {
            *simulate_b_calls += 1;
        }
    }

    fn boundary(&mut self) {
        if let Engine::Counter { boundary_calls, .. } = self {
            *boundary_calls += 1;
        }
    }
}

fn counter() -> Engine {
    Engine::Counter { simulate_a_calls: 0, simulate_b_calls: 0, boundary_calls: 0 }
}

#[test]
fn static_and_dynamic_paths_reach_the_same_instance() {
    let mut registry = SubsystemRegistry::new();
    registry.register(counter());

    let mut world = World::new();
    registry.simulate_a(&mut world);

    assert_eq!(
        registry.get(COUNTER).unwrap(),
        &Engine::Counter { simulate_a_calls: 1, simulate_b_calls: 0, boundary_calls: 0 }
    );
    assert!(registry.get_by_name_mut("counter").is_some());
    assert!(registry.get_by_name_mut("missing").is_none());
}

fn add(engine: &mut Engine, method_name: &str, delta: i64) -> Result<(), String> {
    match (engine, method_name) {
        (Engine::Adder { total }, "add") => {
            *total += delta;
            Ok(())
        }
        _ => Err(method_name.to_string()),
    }
}

#[test]
fn dispatch_reaches_the_real_subsystem_instance_by_name() {
    let mut registry = SubsystemRegistry::new();
    registry.register(Engine::Adder { total: 0 });

    registry.dispatch("adder", |s: &mut Engine| add(s, "add", 5i64)).expect("dispatch succeeds");
    registry.dispatch("adder", |s: &mut Engine| add(s, "add", 3i64)).expect("dispatch succeeds");

    assert_eq!(registry.get(ADDER).unwrap(), &Engine::Adder { total: 8 });

    assert!(matches!(
        registry.dispatch("missing", |s: &mut Engine| add(s, "add", 0)),
        Err(SubsystemDispatchError::UnknownSubsystem(_))
    ));
    assert!(matches!(
        registry.dispatch("adder", |s: &mut Engine| add(s, "missing_method", 0)),
        Err(SubsystemDispatchError::Reflection(_))
    ));
}

#[test]
fn registering_a_kind_again_replaces_it() {
    let mut registry = SubsystemRegistry::default();
    assert!(registry.is_empty());
    registry.register(Engine::Adder { total: 1 });
    registry.register(counter());
    registry.register(Engine::Adder { total: 2 });
    assert_eq!(registry.len(), 2);
    assert_eq!(registry.get(ADDER).unwrap(), &Engine::Adder { total: 2 });
    assert!(registry.get(3).is_none());
}

#[test]
fn every_hook_runs_once_per_phase() {
    let mut registry = SubsystemRegistry::new();
    registry.register(Engine::Adder { total: 1 });
    registry.register(counter());
    let mut world = World::new();
    registry.simulate_a(&mut world);
    registry.simulate_b(&mut world);
    registry.boundary();
    registry.boundary();
    assert_eq!(
        registry.get(COUNTER).unwrap(),
        &Engine::Counter { simulate_a_calls: 1, simulate_b_calls: 1, boundary_calls: 2 }
    );
    assert_eq!(registry.get(ADDER).unwrap(), &Engine::Adder { total: 1 });
    let mut all = world.query(&());
    assert!(all.next().is_some());
    assert!(all.next().is_none());
}

#[derive(Debug, PartialEq)]
struct Spawner {
    kind: u64,
    stamp: u32,
}

impl Subsystem for Spawner {
    type Value = u32;

    fn kind(&self) -> u64 {
        self.kind
    }

    fn name(&self) -> String {
        format!("spawner {}", self.kind)
    }

    fn simulate_a(&mut self, world: &mut World<u32>) {
        let e = world.spawn();
        world.insert(e, STAMP, self.stamp);
    }
}

const STAMP: ComponentId = ComponentId(1);

fn stamps(registry: &mut SubsystemRegistry<Spawner>) -> Vec<u32> {
    let mut world = World::new();
    registry.simulate_a(&mut world);
    (0..registry.len() as u32).map(|i| *world.get(Entity::new(i, 0), STAMP).unwrap()).collect()
}

#[test]
fn subsystems_run_in_the_order_of_their_registration() {
    let mut registry = SubsystemRegistry::new();
    for (kind, stamp) in [(9, 1), (4, 2), (7, 3)] {
        registry.register(Spawner { kind, stamp });
    }
    assert_eq!(stamps(&mut registry), vec![1, 2, 3]);
    registry.register(Spawner { kind: 4, stamp: 8 });
    assert_eq!(stamps(&mut registry), vec![1, 8, 3], "a replacement keeps the place");
    registry.get_mut(9).unwrap().stamp = 5;
    assert_eq!(stamps(&mut registry), vec![5, 8, 3]);
}
