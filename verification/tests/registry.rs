use ecs_rust::entity_manager::EntityManager;
use ecs_rust::registry::Kind;

const POSITION: Kind = 1;
const VELOCITY: Kind = 2;
const NAME: Kind = 3;
const HEALTH: Kind = 4;
const UNKNOWN: Kind = 99;

#[derive(Debug, Clone, Copy, PartialEq)]
enum Data {
    Position(f32, f32),
    Velocity(f32, f32),
    Name(&'static str),
    Health(u32),
}

fn manager_with_kinds() -> EntityManager<Data> {
    let mut manager = EntityManager::new();
    manager.register(POSITION).register(VELOCITY).register(NAME).register(HEALTH);
    manager
}

#[test]
fn new_manager_has_no_kinds_and_no_entities() {
    let manager: EntityManager<Data> = EntityManager::new();
    assert!(!manager.has_component_manager(POSITION));
    assert!(!manager.is_alive(0));
    assert_eq!(manager.get_frame(), 0);
    assert!(manager.borrow_entity_ids(POSITION).is_none());
    assert!(manager.borrow_components(POSITION).is_none());
    assert_eq!(manager.borrow_component(0, POSITION), None);
}

#[test]
fn register_is_idempotent() {
    let mut manager: EntityManager<Data> = EntityManager::new();
    manager.register(POSITION);
    assert!(manager.has_component_manager(POSITION));
    assert!(!manager.has_component_manager(VELOCITY));
    let entity = manager.create_entity();
    manager.add_component_to_entity(entity, POSITION, Data::Position(1.0, 2.0));
    let revision = manager.get_revision(POSITION);
    manager.register(POSITION);
    assert_eq!(manager.borrow_entity_ids(POSITION), Some(&vec![entity]));
    assert_eq!(manager.borrow_component(entity, POSITION), Some(&Data::Position(1.0, 2.0)));
    assert_eq!(manager.get_revision(POSITION), revision);
}

#[test]
fn registered_kind_starts_empty_at_revision_zero() {
    let manager = manager_with_kinds();
    for kind in [POSITION, VELOCITY, NAME, HEALTH] {
        assert!(manager.has_component_manager(kind));
        assert_eq!(manager.get_revision(kind), 0);
        assert_eq!(manager.borrow_entity_ids(kind), Some(&vec![]));
    }
    assert!(manager.has_component_managers(&vec![POSITION, HEALTH]));
    assert!(!manager.has_component_managers(&vec![POSITION, UNKNOWN]));
    assert!(manager.has_component_managers(&vec![]));
    assert_eq!(manager.get_revisions(&vec![NAME, POSITION]), vec![0, 0]);
}

#[test]
fn add_component_to_unknown_kind_does_nothing() {
    let mut manager = manager_with_kinds();
    let entity = manager.create_entity();
    manager.add_component_to_entity(entity, UNKNOWN, Data::Health(1));
    assert!(!manager.has_component_manager(UNKNOWN));
    assert_eq!(manager.borrow_component(entity, UNKNOWN), None);
    for kind in [POSITION, VELOCITY, NAME, HEALTH] {
        assert_eq!(manager.get_revision(kind), 0);
        assert_eq!(manager.borrow_entity_ids(kind), Some(&vec![]));
    }
}

#[test]
fn add_component_twice_keeps_the_first() {
    let mut manager = manager_with_kinds();
    let entity = manager.create_entity();
    manager
        .add_component_to_entity(entity, HEALTH, Data::Health(10))
        .add_component_to_entity(entity, HEALTH, Data::Health(20));
    assert_eq!(manager.borrow_component(entity, HEALTH), Some(&Data::Health(10)));
    assert_eq!(manager.borrow_components(HEALTH), Some(&vec![Data::Health(10)]));
}

#[test]
fn revision_moves_on_every_structural_change_of_its_kind_only() {
    let mut manager = manager_with_kinds();
    let e0 = manager.create_entity();
    let e1 = manager.create_entity();
    manager.add_component_to_entity(e0, POSITION, Data::Position(0.0, 0.0));
    assert_eq!(manager.get_revision(POSITION), 1);
    assert_eq!(manager.get_revision(VELOCITY), 0);
    manager.add_component_to_entity(e1, POSITION, Data::Position(1.0, 1.0));
    assert_eq!(manager.get_revision(POSITION), 2);
    // No change, no new revision.
    manager.add_component_to_entity(e1, POSITION, Data::Position(2.0, 2.0));
    assert_eq!(manager.get_revision(POSITION), 2);
    manager.remove_component_from_entity(e1, VELOCITY);
    assert_eq!(manager.get_revision(VELOCITY), 0);
    // Writing a value is no structural change.
    *manager.borrow_component_mut(e0, POSITION).unwrap() = Data::Position(5.0, 5.0);
    assert_eq!(manager.get_revision(POSITION), 2);
    manager.remove_component_from_entity(e0, POSITION);
    assert_eq!(manager.get_revision(POSITION), 3);
    manager.add_component_to_entity(e0, VELOCITY, Data::Velocity(1.0, 0.0));
    manager.remove_entity(e0);
    assert_eq!(manager.get_revision(VELOCITY), 2);
    assert_eq!(manager.get_revision(POSITION), 3);
    manager.remove_entity(e1);
    assert_eq!(manager.get_revision(POSITION), 4);
    assert_eq!(manager.get_revision(NAME), 0);
}

#[test]
fn remove_component_from_entity_leaves_the_other_kinds() {
    let mut manager = manager_with_kinds();
    let entity = manager.create_entity();
    manager
        .add_component_to_entity(entity, POSITION, Data::Position(1.0, 1.0))
        .add_component_to_entity(entity, NAME, Data::Name("rock"));
    manager.remove_component_from_entity(entity, POSITION);
    assert_eq!(manager.borrow_component(entity, POSITION), None);
    assert_eq!(manager.borrow_component(entity, NAME), Some(&Data::Name("rock")));
    assert!(manager.is_alive(entity));
    manager.remove_component_from_entity(entity, UNKNOWN);
    assert_eq!(manager.borrow_component(entity, NAME), Some(&Data::Name("rock")));
}

#[test]
fn destroying_an_entity_clears_it_from_every_store() {
    let mut manager = manager_with_kinds();
    let e0 = manager.create_entity();
    let e1 = manager.create_entity();
    manager
        .add_component_to_entity(e0, POSITION, Data::Position(0.0, 0.0))
        .add_component_to_entity(e0, VELOCITY, Data::Velocity(1.0, 1.0))
        .add_component_to_entity(e0, HEALTH, Data::Health(3))
        .add_component_to_entity(e1, POSITION, Data::Position(9.0, 9.0))
        .add_component_to_entity(e1, HEALTH, Data::Health(4));
    manager.remove_entity(e0);
    assert!(!manager.is_alive(e0));
    assert!(manager.is_alive(e1));
    for kind in [POSITION, VELOCITY, NAME, HEALTH] {
        assert_eq!(manager.borrow_component(e0, kind), None);
        assert!(!manager.borrow_entity_ids(kind).unwrap().contains(&e0));
    }
    assert_eq!(manager.borrow_component(e1, POSITION), Some(&Data::Position(9.0, 9.0)));
    assert_eq!(manager.borrow_component(e1, HEALTH), Some(&Data::Health(4)));
}

#[test]
fn recycled_id_starts_without_components() {
    let mut manager = manager_with_kinds();
    let e0 = manager.create_entity();
    let e1 = manager.create_entity();
    manager
        .add_component_to_entity(e0, POSITION, Data::Position(0.0, 0.0))
        .add_component_to_entity(e0, NAME, Data::Name("first"))
        .add_component_to_entity(e1, NAME, Data::Name("second"));
    manager.remove_entity(e0);
    let reborn = manager.create_entity();
    assert_eq!(reborn, e0);
    assert!(manager.is_alive(reborn));
    for kind in [POSITION, VELOCITY, NAME, HEALTH] {
        assert_eq!(manager.borrow_component(reborn, kind), None);
    }
    assert!(manager.ids_matching_all(&vec![POSITION]).is_empty());
    assert_eq!(manager.ids_matching_all(&vec![NAME]), vec![e1]);
    assert_eq!(manager.create_entity(), 2);
}

#[test]
fn destroying_a_dead_entity_changes_nothing() {
    let mut manager = manager_with_kinds();
    let e0 = manager.create_entity();
    manager.add_component_to_entity(e0, HEALTH, Data::Health(1));
    manager.remove_entity(5);
    assert!(manager.is_alive(e0));
    assert_eq!(manager.get_revision(HEALTH), 1);
    assert_eq!(manager.borrow_component(e0, HEALTH), Some(&Data::Health(1)));
    assert_eq!(manager.create_entity(), 1);
}

#[test]
fn increment_frame_counts_ticks() {
    let mut manager = manager_with_kinds();
    assert_eq!(manager.get_frame(), 0);
    manager.increment_frame();
    manager.increment_frame();
    assert_eq!(manager.get_frame(), 2);
    assert_eq!(manager.get_revision(POSITION), 0);
}

#[test]
fn borrow_component_manager_gives_the_store_of_a_kind() {
    let mut manager = manager_with_kinds();
    let e0 = manager.create_entity();
    manager.add_component_to_entity(e0, NAME, Data::Name("alice"));
    let store = manager.borrow_component_manager(NAME);
    assert!(store.has(e0));
    assert_eq!(store.borrow_components(), &vec![Data::Name("alice")]);
    assert!(!manager.borrow_component_manager(HEALTH).has(e0));
}

#[test]
fn borrow_components_mut_updates_in_dense_order() {
    let mut manager = manager_with_kinds();
    for _ in 0..3 {
        let entity = manager.create_entity();
        manager.add_component_to_entity(entity, HEALTH, Data::Health(entity as u32));
    }
    for value in manager.borrow_components_mut(HEALTH).unwrap().iter_mut() {
        if let Data::Health(points) = value {
            *points += 10;
        }
    }
    assert_eq!(
        manager.borrow_components(HEALTH),
        Some(&vec![Data::Health(10), Data::Health(11), Data::Health(12)])
    );
    assert_eq!(manager.get_revision(HEALTH), 3);
    assert!(manager.borrow_components_mut(UNKNOWN).is_none());
}

#[test]
fn query_scenario_position_velocity() {
    let mut manager: EntityManager<Data> = EntityManager::new();
    manager.register(POSITION).register(VELOCITY);
    let e0 = manager.create_entity();
    manager
        .add_component_to_entity(e0, POSITION, Data::Position(0.0, 0.0))
        .add_component_to_entity(e0, VELOCITY, Data::Velocity(1.0, 2.0));
    let e1 = manager.create_entity();
    manager.add_component_to_entity(e1, POSITION, Data::Position(5.0, 5.0));
    assert_eq!(manager.ids_matching_all(&vec![POSITION, VELOCITY]), vec![e0]);
    manager.add_component_to_entity(e1, VELOCITY, Data::Velocity(-2.0, 1.0));
    assert_eq!(manager.ids_matching_all(&vec![POSITION, VELOCITY]), vec![e0, e1]);
    manager.remove_component_from_entity(e0, POSITION);
    assert_eq!(manager.ids_matching_all(&vec![POSITION, VELOCITY]), vec![e1]);
}

#[test]
fn query_follows_the_dense_order_of_the_first_kind() {
    let mut manager = manager_with_kinds();
    let ids: Vec<usize> = (0..4).map(|_| manager.create_entity()).collect();
    // Velocity is filled in reverse.
    for id in ids.iter() {
        manager.add_component_to_entity(*id, POSITION, Data::Position(0.0, 0.0));
    }
    for id in ids.iter().rev() {
        manager.add_component_to_entity(*id, VELOCITY, Data::Velocity(0.0, 0.0));
    }
    assert_eq!(manager.ids_matching_all(&vec![POSITION, VELOCITY]), vec![0, 1, 2, 3]);
    assert_eq!(manager.ids_matching_all(&vec![VELOCITY, POSITION]), vec![3, 2, 1, 0]);
    // A removal reorders the store it touches: 3 moves into the place of 0.
    manager.remove_component_from_entity(0, POSITION);
    assert_eq!(manager.ids_matching_all(&vec![POSITION, VELOCITY]), vec![3, 1, 2]);
    assert_eq!(manager.ids_matching_all(&vec![VELOCITY, POSITION]), vec![3, 2, 1]);
}

#[test]
fn query_with_unregistered_kind_is_empty() {
    let mut manager = manager_with_kinds();
    let e0 = manager.create_entity();
    manager.add_component_to_entity(e0, POSITION, Data::Position(0.0, 0.0));
    assert!(manager.ids_matching_all(&vec![POSITION, UNKNOWN]).is_empty());
    assert!(manager.ids_matching_all(&vec![UNKNOWN, POSITION]).is_empty());
    assert!(manager.ids_matching_all(&vec![UNKNOWN]).is_empty());
    assert!(manager.ids_matching_all(&vec![]).is_empty());
}

#[test]
fn query_for_one_to_four_kinds() {
    let mut manager = manager_with_kinds();
    let ids: Vec<usize> = (0..8).map(|_| manager.create_entity()).collect();
    for id in ids.iter() {
        manager.add_component_to_entity(*id, POSITION, Data::Position(*id as f32, 0.0));
        if id % 2 == 0 {
            manager.add_component_to_entity(*id, VELOCITY, Data::Velocity(0.0, 0.0));
        }
        if id % 3 == 0 {
            manager.add_component_to_entity(*id, NAME, Data::Name("n"));
        }
        if *id < 6 {
            manager.add_component_to_entity(*id, HEALTH, Data::Health(1));
        }
    }
    assert_eq!(manager.ids_matching_all(&vec![POSITION]), vec![0, 1, 2, 3, 4, 5, 6, 7]);
    assert_eq!(manager.ids_matching_all(&vec![POSITION, VELOCITY]), vec![0, 2, 4, 6]);
    assert_eq!(manager.ids_matching_all(&vec![POSITION, VELOCITY, NAME]), vec![0, 6]);
    assert_eq!(manager.ids_matching_all(&vec![POSITION, VELOCITY, NAME, HEALTH]), vec![0]);
    assert_eq!(manager.ids_matching_all(&vec![NAME, HEALTH]), vec![0, 3]);
    // Asking for one kind twice adds nothing.
    assert_eq!(manager.ids_matching_all(&vec![NAME, NAME]), vec![0, 3, 6]);
}

#[test]
fn pair_query_is_within_single_query_and_within_second_store() {
    let mut manager = manager_with_kinds();
    let mut seed: u32 = 7;
    for _ in 0..40 {
        let id = manager.create_entity();
        seed = seed.wrapping_mul(1103515245).wrapping_add(12345);
        if (seed >> 16) % 2 == 0 {
            manager.add_component_to_entity(id, POSITION, Data::Position(0.0, 0.0));
        }
        if (seed >> 17) % 3 != 0 {
            manager.add_component_to_entity(id, VELOCITY, Data::Velocity(0.0, 0.0));
        }
        if (seed >> 19) % 5 == 0 {
            manager.remove_entity(id / 2);
        }
    }
    let both = manager.ids_matching_all(&vec![POSITION, VELOCITY]);
    let first = manager.ids_matching_all(&vec![POSITION]);
    let second = manager.borrow_entity_ids(VELOCITY).unwrap();
    assert_eq!(&first, manager.borrow_entity_ids(POSITION).unwrap());
    assert!(!both.is_empty());
    for id in both.iter() {
        assert!(first.contains(id));
        assert!(second.contains(id));
    }
    for id in first.iter() {
        assert_eq!(both.contains(id), second.contains(id));
    }
}

#[test]
fn pair_borrow_writes_through_both_references() {
    let mut manager = manager_with_kinds();
    let e0 = manager.create_entity();
    manager
        .add_component_to_entity(e0, POSITION, Data::Position(1.0, 2.0))
        .add_component_to_entity(e0, VELOCITY, Data::Velocity(0.5, -0.5));
    {
        let (position, velocity) =
            manager.borrow_component_pair_mut(e0, POSITION, VELOCITY).unwrap();
        assert_eq!(*position, Data::Position(1.0, 2.0));
        assert_eq!(*velocity, Data::Velocity(0.5, -0.5));
        if let (Data::Position(x, y), Data::Velocity(dx, dy)) = (&mut *position, &mut *velocity) {
            *x += *dx;
            *y += *dy;
            *dx = 0.0;
            *dy = 0.0;
        }
    }
    assert_eq!(manager.borrow_component(e0, POSITION), Some(&Data::Position(1.5, 1.5)));
    assert_eq!(manager.borrow_component(e0, VELOCITY), Some(&Data::Velocity(0.0, 0.0)));
    // The same kinds the other way round.
    {
        let (velocity, position) =
            manager.borrow_component_pair_mut(e0, VELOCITY, POSITION).unwrap();
        *velocity = Data::Velocity(9.0, 9.0);
        *position = Data::Position(7.0, 7.0);
    }
    assert_eq!(manager.borrow_component(e0, POSITION), Some(&Data::Position(7.0, 7.0)));
    assert_eq!(manager.borrow_component(e0, VELOCITY), Some(&Data::Velocity(9.0, 9.0)));
    assert_eq!(manager.get_revision(POSITION), 1);
    assert_eq!(manager.get_revision(VELOCITY), 1);
}

#[test]
fn pair_borrow_reaches_the_right_entity_among_many() {
    let mut manager = manager_with_kinds();
    for _ in 0..5 {
        let id = manager.create_entity();
        manager
            .add_component_to_entity(id, HEALTH, Data::Health(id as u32))
            .add_component_to_entity(id, NAME, Data::Name("x"));
    }
    manager.remove_component_from_entity(1, HEALTH);
    {
        let (health, name) = manager.borrow_component_pair_mut(4, HEALTH, NAME).unwrap();
        assert_eq!(*health, Data::Health(4));
        *health = Data::Health(44);
        *name = Data::Name("four");
    }
    assert_eq!(
        manager.borrow_components(HEALTH),
        Some(&vec![Data::Health(0), Data::Health(44), Data::Health(2), Data::Health(3)])
    );
    assert_eq!(manager.borrow_entity_ids(HEALTH), Some(&vec![0, 4, 2, 3]));
    assert_eq!(manager.borrow_component(4, NAME), Some(&Data::Name("four")));
    assert_eq!(manager.borrow_component(3, NAME), Some(&Data::Name("x")));
}

#[test]
fn pair_borrow_is_all_or_nothing() {
    let mut manager = manager_with_kinds();
    let e0 = manager.create_entity();
    manager.add_component_to_entity(e0, POSITION, Data::Position(1.0, 2.0));
    assert!(manager.borrow_component_pair_mut(e0, POSITION, VELOCITY).is_none());
    assert!(manager.borrow_component_pair_mut(e0, VELOCITY, POSITION).is_none());
    assert!(manager.borrow_component_pair_mut(e0, POSITION, UNKNOWN).is_none());
    assert!(manager.borrow_component_pair_mut(e0, UNKNOWN, POSITION).is_none());
    assert!(manager.borrow_component_pair_mut(e0 + 1, POSITION, VELOCITY).is_none());
    assert_eq!(manager.borrow_component(e0, POSITION), Some(&Data::Position(1.0, 2.0)));
}

#[test]
fn triple_borrow_writes_through_all_references() {
    let mut manager = manager_with_kinds();
    let e0 = manager.create_entity();
    let e1 = manager.create_entity();
    for id in [e0, e1] {
        manager
            .add_component_to_entity(id, NAME, Data::Name("n"))
            .add_component_to_entity(id, POSITION, Data::Position(0.0, 0.0))
            .add_component_to_entity(id, HEALTH, Data::Health(1));
    }
    {
        let (health, position, name) =
            manager.borrow_component_triple_mut(e1, HEALTH, POSITION, NAME).unwrap();
        assert_eq!(*health, Data::Health(1));
        *health = Data::Health(2);
        *position = Data::Position(3.0, 4.0);
        *name = Data::Name("bob");
    }
    assert_eq!(manager.borrow_component(e1, HEALTH), Some(&Data::Health(2)));
    assert_eq!(manager.borrow_component(e1, POSITION), Some(&Data::Position(3.0, 4.0)));
    assert_eq!(manager.borrow_component(e1, NAME), Some(&Data::Name("bob")));
    assert_eq!(manager.borrow_component(e0, HEALTH), Some(&Data::Health(1)));
    assert_eq!(manager.borrow_component(e0, NAME), Some(&Data::Name("n")));
    assert!(manager.borrow_component_triple_mut(e1, HEALTH, POSITION, VELOCITY).is_none());
    assert!(manager.borrow_component_triple_mut(e1, UNKNOWN, POSITION, NAME).is_none());
}

#[test]
fn quad_borrow_writes_through_all_references() {
    let mut manager = manager_with_kinds();
    let e0 = manager.create_entity();
    manager
        .add_component_to_entity(e0, POSITION, Data::Position(0.0, 0.0))
        .add_component_to_entity(e0, VELOCITY, Data::Velocity(0.0, 0.0))
        .add_component_to_entity(e0, NAME, Data::Name("n"))
        .add_component_to_entity(e0, HEALTH, Data::Health(0));
    {
        let (name, health, velocity, position) =
            manager.borrow_component_quad_mut(e0, NAME, HEALTH, VELOCITY, POSITION).unwrap();
        *name = Data::Name("quad");
        *health = Data::Health(4);
        *velocity = Data::Velocity(4.0, 4.0);
        *position = Data::Position(-4.0, -4.0);
    }
    assert_eq!(manager.borrow_component(e0, POSITION), Some(&Data::Position(-4.0, -4.0)));
    assert_eq!(manager.borrow_component(e0, VELOCITY), Some(&Data::Velocity(4.0, 4.0)));
    assert_eq!(manager.borrow_component(e0, NAME), Some(&Data::Name("quad")));
    assert_eq!(manager.borrow_component(e0, HEALTH), Some(&Data::Health(4)));
    manager.remove_component_from_entity(e0, VELOCITY);
    assert!(manager.borrow_component_quad_mut(e0, NAME, HEALTH, VELOCITY, POSITION).is_none());
}
