use ecs_rust::entity_manager::{EntityIdAccessor, EntityManager};
use ecs_rust::registry::Kind;

const A: Kind = 10;
const B: Kind = 20;
const C: Kind = 30;
const D: Kind = 40;
const UNKNOWN: Kind = 50;

fn manager_with_kinds() -> EntityManager<u32> {
    let mut manager = EntityManager::new();
    manager.register(A).register(B).register(C).register(D);
    manager
}

#[test]
fn cache_answers_none_for_unregistered_kinds() {
    let mut manager: EntityManager<u32> = EntityManager::new();
    manager.register(A);
    let mut accessor = EntityIdAccessor::new();
    assert!(accessor.borrow_ids(&manager, UNKNOWN).is_none());
    assert!(accessor.borrow_ids_for_pair(&manager, A, UNKNOWN).is_none());
    assert!(accessor.borrow_ids_for_pair(&manager, UNKNOWN, A).is_none());
    assert!(accessor.borrow_ids_for_triple(&manager, A, A, UNKNOWN).is_none());
    assert!(accessor.borrow_ids_for_quad(&manager, A, UNKNOWN, A, A).is_none());
    assert!(accessor.borrow_ids_for(&manager, vec![UNKNOWN, A]).is_none());
    assert_eq!(accessor.borrow_ids(&manager, A), Some(&vec![]));
    // The kind gets registered later: the answer is there from then on.
    manager.register(UNKNOWN);
    assert_eq!(accessor.borrow_ids_for_pair(&manager, A, UNKNOWN), Some(&vec![]));
}

#[test]
fn cache_answers_an_empty_key_with_an_empty_list() {
    let mut manager = manager_with_kinds();
    let mut accessor = EntityIdAccessor::new();
    let entity = manager.create_entity();
    manager.add_component_to_entity(entity, A, 1);
    assert_eq!(accessor.borrow_ids_for(&manager, vec![]), Some(&vec![]));
    assert_eq!(accessor.borrow_ids_for(&manager, vec![]), Some(&vec![]));
    assert_eq!(accessor.borrow_ids(&manager, A), Some(&vec![entity]));
}

#[test]
fn cache_scenario_position_velocity() {
    let mut manager: EntityManager<u32> = EntityManager::new();
    let mut accessor = EntityIdAccessor::new();
    manager.register(A).register(B);
    let e0 = manager.create_entity();
    manager.add_component_to_entity(e0, A, 1).add_component_to_entity(e0, B, 2);
    let e1 = manager.create_entity();
    manager.add_component_to_entity(e1, A, 3);
    assert_eq!(accessor.borrow_ids_for_pair(&manager, A, B), Some(&vec![e0]));
    assert_eq!(accessor.borrow_ids_for_pair(&manager, A, B), Some(&vec![e0]));
    manager.add_component_to_entity(e1, B, 4);
    assert_eq!(accessor.borrow_ids_for_pair(&manager, A, B), Some(&vec![e0, e1]));
    manager.remove_component_from_entity(e0, A);
    assert_eq!(accessor.borrow_ids_for_pair(&manager, A, B), Some(&vec![e1]));
}

#[test]
fn cache_notices_two_changes_within_one_tick() {
    let mut manager = manager_with_kinds();
    let mut accessor = EntityIdAccessor::new();
    let e0 = manager.create_entity();
    let e1 = manager.create_entity();
    manager.add_component_to_entity(e0, A, 0);
    assert_eq!(accessor.borrow_ids(&manager, A), Some(&vec![e0]));
    manager.add_component_to_entity(e1, A, 0);
    assert_eq!(accessor.borrow_ids(&manager, A), Some(&vec![e0, e1]));
    manager.remove_entity(e0);
    assert_eq!(accessor.borrow_ids(&manager, A), Some(&vec![e1]));
    manager.increment_frame();
    assert_eq!(accessor.borrow_ids(&manager, A), Some(&vec![e1]));
}

#[test]
fn cache_keys_are_order_sensitive() {
    let mut manager = manager_with_kinds();
    let mut accessor = EntityIdAccessor::new();
    for _ in 0..3 {
        let id = manager.create_entity();
        manager.add_component_to_entity(id, A, 0);
    }
    for id in [2usize, 0, 1] {
        manager.add_component_to_entity(id, B, 0);
    }
    assert_eq!(accessor.borrow_ids_for_pair(&manager, A, B), Some(&vec![0, 1, 2]));
    assert_eq!(accessor.borrow_ids_for_pair(&manager, B, A), Some(&vec![2, 0, 1]));
    assert_eq!(accessor.borrow_ids_for_pair(&manager, A, B), Some(&vec![0, 1, 2]));
    assert_eq!(accessor.borrow_ids_for(&manager, vec![B, A]), Some(&vec![2, 0, 1]));
}

#[test]
fn cache_for_one_to_four_kinds() {
    let mut manager = manager_with_kinds();
    let mut accessor = EntityIdAccessor::new();
    for _ in 0..12 {
        let id = manager.create_entity();
        manager.add_component_to_entity(id, A, 0);
        if id % 2 == 0 {
            manager.add_component_to_entity(id, B, 0);
        }
        if id % 3 == 0 {
            manager.add_component_to_entity(id, C, 0);
        }
        if id >= 6 {
            manager.add_component_to_entity(id, D, 0);
        }
    }
    assert_eq!(accessor.borrow_ids(&manager, C), Some(&vec![0, 3, 6, 9]));
    assert_eq!(accessor.borrow_ids_for_pair(&manager, A, B), Some(&vec![0, 2, 4, 6, 8, 10]));
    assert_eq!(accessor.borrow_ids_for_triple(&manager, A, B, C), Some(&vec![0, 6]));
    assert_eq!(accessor.borrow_ids_for_quad(&manager, A, B, C, D), Some(&vec![6]));
    manager.add_component_to_entity(0, D, 0);
    assert_eq!(accessor.borrow_ids_for_quad(&manager, A, B, C, D), Some(&vec![0, 6]));
    assert_eq!(accessor.borrow_ids_for_triple(&manager, A, B, C), Some(&vec![0, 6]));
    manager.remove_component_from_entity(6, B);
    assert_eq!(accessor.borrow_ids_for_triple(&manager, A, B, C), Some(&vec![0]));
    assert_eq!(accessor.borrow_ids_for_quad(&manager, A, B, C, D), Some(&vec![0]));
    assert_eq!(accessor.borrow_ids_for_pair(&manager, A, B), Some(&vec![0, 2, 4, 8, 10]));
    // The store of B was reordered by the removal, the store of A was not.
    assert_eq!(accessor.borrow_ids_for_pair(&manager, B, A), Some(&vec![0, 2, 4, 10, 8]));
    assert_eq!(accessor.borrow_ids(&manager, C), Some(&vec![0, 3, 6, 9]));
}

#[test]
fn cache_is_not_fooled_by_value_writes() {
    let mut manager = manager_with_kinds();
    let mut accessor = EntityIdAccessor::new();
    let e0 = manager.create_entity();
    manager.add_component_to_entity(e0, A, 1).add_component_to_entity(e0, B, 2);
    assert_eq!(accessor.borrow_ids_for_pair(&manager, A, B), Some(&vec![e0]));
    {
        let (a, b) = manager.borrow_component_pair_mut(e0, A, B).unwrap();
        *a += 10;
        *b += 10;
    }
    assert_eq!(accessor.borrow_ids_for_pair(&manager, A, B), Some(&vec![e0]));
    assert_eq!(manager.borrow_component(e0, A), Some(&11));
}

#[test]
fn cache_matches_fresh_computation_through_random_interleaving() {
    let kinds = [A, B, C, D];
    let mut manager: EntityManager<u32> = EntityManager::new();
    let mut accessor = EntityIdAccessor::new();
    manager.register(A).register(B);
    let mut live: Vec<usize> = Vec::new();
    let mut seed: u64 = 0x2545F4914F6CDD1D;
    let mut next = move |bound: usize| -> usize {
        seed ^= seed << 13;
        seed ^= seed >> 7;
        seed ^= seed << 17;
        (seed % bound as u64) as usize
    };
    let mut queries = 0;
    for step in 0..4000 {
        if step == 500 {
            manager.register(C);
        }
        if step == 1500 {
            manager.register(D);
        }
        match next(8) {
            0 => {
                live.push(manager.create_entity());
            },
            1 => {
                if !live.is_empty() {
                    let id = live.swap_remove(next(live.len()));
                    manager.remove_entity(id);
                }
            },
            2 | 3 => {
                if !live.is_empty() {
                    let id = live[next(live.len())];
                    manager.add_component_to_entity(id, kinds[next(4)], step as u32);
                }
            },
            4 => {
                if !live.is_empty() {
                    let id = live[next(live.len())];
                    manager.remove_component_from_entity(id, kinds[next(4)]);
                }
            },
            _ => {
                let len = 1 + next(4);
                let key: Vec<Kind> = (0..len).map(|_| kinds[next(4)]).collect();
                let fresh = manager.ids_matching_all(&key);
                let registered = manager.has_component_managers(&key);
                let cached = accessor.borrow_ids_for(&manager, key);
                if registered {
                    assert_eq!(cached, Some(&fresh));
                    queries += 1;
                } else {
                    assert!(cached.is_none());
                    assert!(fresh.is_empty());
                }
            },
        }
    }
    assert!(queries > 500);
}
