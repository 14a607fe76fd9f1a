use ecs_rust::entity_manager::{EntityIdAccessor, EntityManager};
use ecs_rust::registry::Kind;
use ecs_rust::system::System;
use ecs_rust::world::World;
use std::cell::RefCell;
use std::rc::Rc;

const POSITION: Kind = 0;
const VELOCITY: Kind = 1;
const STEP: Kind = 2;

#[derive(Debug, Clone, Copy, PartialEq)]
enum Data {
    Position(i32, i32),
    Velocity(i32, i32),
    Step(u32),
}

struct MoveSystem;

impl System<Data> for MoveSystem {
    fn update(&mut self, manager: &mut EntityManager<Data>, accessor: &mut EntityIdAccessor) {
        let ids = accessor.borrow_ids_for_pair(manager, VELOCITY, POSITION).unwrap().clone();
        for id in ids {
            let (velocity, position) =
                manager.borrow_component_pair_mut(id, VELOCITY, POSITION).unwrap();
            if let (Data::Velocity(dx, dy), Data::Position(x, y)) = (*velocity, &mut *position) {
                *x += dx;
                *y += dy;
            }
        }
    }
}

struct StepSystem;

impl System<Data> for StepSystem {
    fn update(&mut self, manager: &mut EntityManager<Data>, _accessor: &mut EntityIdAccessor) {
        for step in manager.borrow_components_mut(STEP).unwrap().iter_mut() {
            if let Data::Step(count) = step {
                *count += 1;
            }
        }
    }
}

struct Recorder {
    name: &'static str,
    log: Rc<RefCell<Vec<(&'static str, u64)>>>,
}

impl System<Data> for Recorder {
    fn update(&mut self, manager: &mut EntityManager<Data>, _accessor: &mut EntityIdAccessor) {
        self.log.borrow_mut().push((self.name, manager.get_frame()));
    }
}

/// Any system behind a pointer, so that systems of several types can run in
/// one world.
struct AnySystem(Box<dyn System<Data>>);

impl AnySystem {
    fn of<S: System<Data> + 'static>(system: S) -> Self {
        AnySystem(Box::new(system))
    }
}

impl System<Data> for AnySystem {
    fn update(&mut self, manager: &mut EntityManager<Data>, accessor: &mut EntityIdAccessor) {
        self.0.update(manager, accessor);
    }
}

#[test]
fn new_world_is_empty() {
    let world: World<Data, MoveSystem> = World::new();
    let manager = world.borrow_entity_manager();
    assert!(!manager.has_component_manager(POSITION));
    assert!(!manager.is_alive(0));
    assert_eq!(manager.get_frame(), 0);
}

#[test]
fn world_update_without_systems_only_ticks() {
    let mut world: World<Data, MoveSystem> = World::new();
    world.update();
    world.update();
    assert_eq!(world.borrow_entity_manager().get_frame(), 2);
}

#[test]
fn world_runs_systems_in_insertion_order_once_per_tick() {
    let log = Rc::new(RefCell::new(Vec::new()));
    let mut world: World<Data, Recorder> = World::new();
    world
        .add_system(Recorder { name: "first", log: log.clone() })
        .add_system(Recorder { name: "second", log: log.clone() })
        .add_system(Recorder { name: "third", log: log.clone() });
    world.update();
    world.update();
    assert_eq!(
        *log.borrow(),
        vec![("first", 1), ("second", 1), ("third", 1), ("first", 2), ("second", 2), ("third", 2)]
    );
}

#[test]
fn world_moves_entities_that_have_position_and_velocity() {
    let mut world: World<Data, AnySystem> = World::new();
    world.register_component(STEP).register_component(POSITION).register_component(VELOCITY);
    let counter = world.create_entity();
    world.add_component_to_entity(counter, STEP, Data::Step(0));
    let alice = world.create_entity();
    world
        .add_component_to_entity(alice, POSITION, Data::Position(0, 0))
        .add_component_to_entity(alice, VELOCITY, Data::Velocity(1, 2));
    let bob = world.create_entity();
    world
        .add_component_to_entity(bob, POSITION, Data::Position(0, 0))
        .add_component_to_entity(bob, VELOCITY, Data::Velocity(-2, 1));
    let rock = world.create_entity();
    world.add_component_to_entity(rock, POSITION, Data::Position(0, 0));
    world.add_system(AnySystem::of(StepSystem)).add_system(AnySystem::of(MoveSystem));
    for _ in 0..3 {
        world.update();
    }
    let manager = world.borrow_entity_manager();
    assert_eq!(manager.borrow_component(counter, STEP), Some(&Data::Step(3)));
    assert_eq!(manager.borrow_component(alice, POSITION), Some(&Data::Position(3, 6)));
    assert_eq!(manager.borrow_component(bob, POSITION), Some(&Data::Position(-6, 3)));
    assert_eq!(manager.borrow_component(rock, POSITION), Some(&Data::Position(0, 0)));
    assert_eq!(manager.get_frame(), 3);
}

#[test]
fn world_remove_entity_drops_its_components() {
    let mut world: World<Data, MoveSystem> = World::new();
    world.register_component(POSITION).register_component(VELOCITY);
    let e0 = world.create_entity();
    let e1 = world.create_entity();
    world
        .add_component_to_entity(e0, POSITION, Data::Position(1, 1))
        .add_component_to_entity(e0, VELOCITY, Data::Velocity(1, 1))
        .add_component_to_entity(e1, POSITION, Data::Position(2, 2))
        .add_component_to_entity(e1, VELOCITY, Data::Velocity(2, 2));
    world.add_system(MoveSystem);
    world.update();
    world.remove_entity(e0);
    world.update();
    {
        let manager = world.borrow_entity_manager();
        assert!(!manager.is_alive(e0));
        assert_eq!(manager.borrow_component(e0, POSITION), None);
        assert_eq!(manager.borrow_component(e1, POSITION), Some(&Data::Position(6, 6)));
    }
    let reborn = world.create_entity();
    assert_eq!(reborn, e0);
    world.update();
    let manager = world.borrow_entity_manager();
    assert_eq!(manager.borrow_component(reborn, POSITION), None);
    assert_eq!(manager.borrow_component(e1, POSITION), Some(&Data::Position(8, 8)));
}

#[test]
fn world_register_component_twice_keeps_the_store() {
    let mut world: World<Data, StepSystem> = World::new();
    world.register_component(STEP);
    let entity = world.create_entity();
    world.add_component_to_entity(entity, STEP, Data::Step(5));
    world.register_component(STEP);
    assert_eq!(world.borrow_entity_manager().borrow_component(entity, STEP), Some(&Data::Step(5)));
}

#[test]
fn world_runs_systems_of_several_types_in_insertion_order() {
    let log = Rc::new(RefCell::new(Vec::new()));
    let mut world: World<Data, AnySystem> = World::new();
    world.register_component(STEP);
    let counter = world.create_entity();
    world.add_component_to_entity(counter, STEP, Data::Step(0));
    world
        .add_system(AnySystem::of(Recorder { name: "before", log: log.clone() }))
        .add_system(AnySystem::of(StepSystem))
        .add_system(AnySystem::of(Recorder { name: "after", log: log.clone() }));
    world.update();
    assert_eq!(*log.borrow(), vec![("before", 1), ("after", 1)]);
    assert_eq!(world.borrow_entity_manager().borrow_component(counter, STEP), Some(&Data::Step(1)));
}
