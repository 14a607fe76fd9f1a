//! The store registry: entities, one component store per registered kind,
//! and a revision per kind that moves whenever the store gains or loses an
//! owner.

use crate::component_manager::{lemma_positions_push, positions, ComponentManager, DenseStore};
use crate::entity::Entities;
pub use crate::query_cache::EntityIdAccessor;
use crate::registry::{bump, Kind, Registry};
use crate::split::{pick_four, pick_three, pick_two};
use std::collections::HashMap;
use vstd::prelude::*;

verus! {

/// The store registry. Kinds are registered once and never leave; each has a
/// slot that holds its store and its revision, and a map finds the slot of a
/// kind.
pub struct EntityManager<T> {
    entities: Entities,
    kinds: Vec<Kind>,
    managers: Vec<ComponentManager<T>>,
    revisions: Vec<u64>,
    manager_map: HashMap<Kind, usize>,
    frame: u64,
}

impl<T> View for EntityManager<T> {
    type V = Registry<T>;

    closed spec fn view(&self) -> Registry<T> {
        Registry {
            entities: self.entities@,
            kinds: self.kinds@,
            stores: views(self.managers@),
            revisions: self.revisions@,
            frame: self.frame,
        }
    }
}

/// The states of a row of stores.
spec fn views<T>(managers: Seq<ComponentManager<T>>) -> Seq<DenseStore<T>> {
    Seq::new(managers.len(), |slot: int| managers[slot]@)
}

/// Replacing one store of a row replaces its state and no other.
proof fn lemma_views_update<T>()
    ensures
        forall|managers: Seq<ComponentManager<T>>, slot: int, manager: ComponentManager<T>|
            0 <= slot < managers.len() ==> #[trigger] views(managers.update(slot, manager))
                == views(managers).update(slot, manager@),
{
    assert forall|managers: Seq<ComponentManager<T>>, slot: int, manager: ComponentManager<T>|
        0 <= slot < managers.len() implies #[trigger] views(managers.update(slot, manager))
        == views(managers).update(slot, manager@) by {
        assert(views(managers.update(slot, manager)) =~= views(managers).update(slot, manager@));
    }
}

/// Writing back the state that a slot already has changes nothing.
proof fn lemma_views_same<T>(managers: Seq<ComponentManager<T>>, slot: int)
    requires
        0 <= slot < managers.len(),
    ensures
        views(managers).update(slot, managers[slot]@) == views(managers),
{
    assert(views(managers).update(slot, managers[slot]@) =~= views(managers));
}

/// The revision that follows `revision`.
fn advance(revision: u64) -> (next: u64)
    ensures
        next == bump(revision),
{
    if revision < u64::MAX {
        revision + 1
    } else {
        revision
    }
}

impl<T> EntityManager<T> {
    /// What the model does not show is in step with it: the map from kind to
    /// slot is the one that goes with the registered kinds, and every store
    /// keeps its own sparse map right.
    pub closed spec fn synced(&self) -> bool {
        &&& self.manager_map@ == positions(self.kinds@)
        &&& forall|slot: int|
            0 <= slot < self.managers@.len() ==> (#[trigger] self.managers@[slot]).wf()
    }

    /// The registry is in good order: its state is well formed, and what
    /// the state does not show is in step with it.
    pub open spec fn wf(&self) -> bool {
        &&& self@.wf()
        &&& self.synced()
    }

    pub fn new() -> (manager: Self)
        ensures
            manager.wf(),
            manager@ == Registry::<T>::empty(),
    {
        let manager = EntityManager {
            entities: Entities::new(),
            kinds: Vec::new(),
            managers: Vec::new(),
            revisions: Vec::new(),
            manager_map: HashMap::new(),
            frame: 0,
        };
        proof {
            assert(manager@.stores =~= Seq::empty());
            assert(manager.manager_map@ =~= positions(manager.kinds@));
        }
        manager
    }

    /// Counts one more tick.
    pub fn increment_frame(&mut self)
        requires
            old(self).wf(),
            old(self)@.frame < u64::MAX,
        ensures
            final(self).wf(),
            final(self)@ == old(self)@.increment_frame(),
            old(self)@.evolves_to(final(self)@),
    {
        self.frame += 1;
    }

    /// The number of ticks so far.
    pub fn get_frame(&self) -> (frame: u64)
        ensures
            frame == self@.frame,
    {
        self.frame
    }

    /// The slot of `kind`, if it is registered.
    fn find_slot(&self, kind: Kind) -> (found: Option<usize>)
        requires
            self.wf(),
        ensures
            found is Some <==> self@.has_store(kind),
            found matches Some(slot) ==> slot == self@.slot(kind) && slot < self.managers@.len(),
    {
        proof {
            if self@.has_store(kind) {
                self@.lemma_slot(kind);
                assert(self.kinds.len() <= usize::MAX);
            }
        }
        match self.manager_map.get(&kind) {
            Some(slot) => Some(*slot),
            None => None,
        }
    }

    /// Whether `kind` is registered.
    pub fn has_component_manager(&self, kind: Kind) -> (registered: bool)
        requires
            self.wf(),
        ensures
            registered == self@.has_store(kind),
    {
        self.manager_map.contains_key(&kind)
    }

    /// The revision of `kind`, which must be registered.
    pub fn get_revision(&self, kind: Kind) -> (revision: u64)
        requires
            self.wf(),
            self@.has_store(kind),
        ensures
            revision == self@.revision(kind),
    {
        let slot = self.find_slot(kind).unwrap();
        self.revisions[slot]
    }

    /// Whether `entity_id` is alive.
    pub fn is_alive(&self, entity_id: usize) -> (alive: bool)
        ensures
            alive == self@.entities.alive(entity_id),
    {
        self.entities.has(entity_id)
    }

    /// Registers `kind` with an empty store at revision zero. Registering a
    /// kind again changes nothing.
    pub fn register(&mut self, kind: Kind) -> (manager: &mut Self)
        requires
            old(self).wf(),
        ensures
            manager.wf(),
            manager@ == old(self)@.register(kind),
            manager@.has_store(kind),
            old(self)@.evolves_to(manager@),
            *final(self) == *final(manager),
    {
        proof {
            old(self)@.lemma_register(kind);
        }
        if !self.has_component_manager(kind) {
            let slot: usize = self.managers.len();
            self.kinds.push(kind);
            self.managers.push(ComponentManager::new());
            self.revisions.push(0);
            self.manager_map.insert(kind, slot);
            proof {
                lemma_positions_push(old(self).kinds@, kind);
                assert(self@.stores =~= old(self)@.register(kind).stores);
            }
        }
        self
    }

    /// Creates an entity without components and returns its identifier: the
    /// one given back longest ago if any is waiting, else a new one.
    pub fn create_entity(&mut self) -> (entity_id: usize)
        requires
            old(self).wf(),
        ensures
            final(self).wf(),
            entity_id == old(self)@.entities.next_id(),
            final(self)@ == old(self)@.create_entity(),
            !old(self)@.entities.alive(entity_id),
            final(self)@.entities.alive(entity_id),
            old(self)@.tidy() ==> final(self)@.tidy() && final(self)@.bare(entity_id),
            old(self)@.evolves_to(final(self)@),
    {
        let entity_id = self.entities.create();
        proof {
            assert(old(self)@.entities.has_room()) by {
                if old(self)@.entities.free.len() == 0 {
                    assert(self@.entities.liveness.len() == old(self)@.entities.liveness.len() + 1);
                }
            }
            old(self)@.lemma_create_entity();
        }
        entity_id
    }

    /// Destroys `entity_id`: takes it out of every store that holds it, moves
    /// each of those stores to its next revision, and gives the identifier
    /// back for reuse.
    pub fn remove_entity(&mut self, entity_id: usize)
        requires
            old(self).wf(),
        ensures
            final(self).wf(),
            final(self)@ == old(self)@.remove_entity(entity_id),
            final(self)@.bare(entity_id),
            !final(self)@.entities.alive(entity_id),
            old(self)@.tidy() ==> final(self)@.tidy(),
            old(self)@.evolves_to(final(self)@),
    {
        proof {
            old(self)@.lemma_remove_entity(entity_id);
        }
        let count: usize = self.managers.len();
        let mut slot: usize = 0;
        while slot < count
            invariant
                slot <= count,
                count == self.managers@.len(),
                count == old(self).managers@.len(),
                self.revisions@.len() == count,
                old(self).wf(),
                self.entities == old(self).entities,
                self.kinds == old(self).kinds,
                self.manager_map == old(self).manager_map,
                self.frame == old(self).frame,
                forall|s: int| 0 <= s < count ==> (#[trigger] self.managers@[s]).wf(),
                forall|s: int|
                    0 <= s < slot ==> (#[trigger] self.managers@[s])@ == old(
                        self,
                    ).managers@[s]@.remove(entity_id),
                forall|s: int|
                    0 <= s < slot ==> #[trigger] self.revisions@[s] == if old(
                        self,
                    ).managers@[s]@.contains(entity_id) {
                        bump(old(self).revisions@[s])
                    } else {
                        old(self).revisions@[s]
                    },
                forall|s: int|
                    slot <= s < count ==> #[trigger] self.managers@[s] == old(self).managers@[s],
                forall|s: int|
                    slot <= s < count ==> #[trigger] self.revisions@[s] == old(self).revisions@[s],
            decreases count - slot,
        {
            if self.managers[slot].has(entity_id) {
                self.managers[slot].remove(entity_id);
                let next = advance(self.revisions[slot]);
                self.revisions[slot] = next;
            }
            slot += 1;
        }
        self.entities.remove(entity_id);
        proof {
            let after = old(self)@.remove_entity(entity_id);
            assert(self@.stores =~= after.stores);
            assert(self@.revisions =~= after.revisions);
        }
    }

    /// Attaches `component` of `kind` to `entity_id` and moves the store of
    /// that kind to its next revision. Nothing happens if `kind` is not
    /// registered, or if the entity already carries a component of that kind.
    pub fn add_component_to_entity(&mut self, entity_id: usize, kind: Kind, component: T) -> (manager:
        &mut Self)
        requires
            old(self).wf(),
        ensures
            manager.wf(),
            manager@ == old(self)@.add_component(entity_id, kind, component),
            old(self)@.has_store(kind) ==> manager@.holds(entity_id, kind),
            old(self)@.evolves_to(manager@),
            *final(self) == *final(manager),
    {
        proof {
            old(self)@.lemma_add_component(entity_id, kind, component);
        }
        match self.find_slot(kind) {
            Some(slot) => {
                if !self.managers[slot].has(entity_id) {
                    self.managers[slot].add(entity_id, component);
                    let next = advance(self.revisions[slot]);
                    self.revisions[slot] = next;
                    proof {
                        assert(self@.stores =~= old(self)@.add_component(
                            entity_id,
                            kind,
                            component,
                        ).stores);
                    }
                }
            },
            None => {},
        }
        self
    }

    /// Takes the component of `kind` from `entity_id` and moves the store of
    /// that kind to its next revision. Nothing happens if the entity carries
    /// no component of that kind.
    pub fn remove_component_from_entity(&mut self, entity_id: usize, kind: Kind)
        requires
            old(self).wf(),
        ensures
            final(self).wf(),
            final(self)@ == old(self)@.remove_component(entity_id, kind),
            !final(self)@.holds(entity_id, kind),
            old(self)@.evolves_to(final(self)@),
    {
        proof {
            old(self)@.lemma_remove_component(entity_id, kind);
        }
        match self.find_slot(kind) {
            Some(slot) => {
                if self.managers[slot].has(entity_id) {
                    self.managers[slot].remove(entity_id);
                    let next = advance(self.revisions[slot]);
                    self.revisions[slot] = next;
                    proof {
                        assert(self@.stores =~= old(self)@.remove_component(entity_id, kind).stores);
                    }
                }
            },
            None => {},
        }
    }

    /// The store of `kind`, which must be registered.
    pub fn borrow_component_manager(&self, kind: Kind) -> (manager: &ComponentManager<T>)
        requires
            self.wf(),
            self@.has_store(kind),
        ensures
            manager.wf(),
            manager@ == self@.store(kind),
    {
        let slot = self.find_slot(kind).unwrap();
        &self.managers[slot]
    }

    /// The owners in the store of `kind`, in dense order, if `kind` is
    /// registered.
    pub fn borrow_entity_ids(&self, kind: Kind) -> (ids: Option<&Vec<usize>>)
        requires
            self.wf(),
        ensures
            ids is Some <==> self@.has_store(kind),
            ids matches Some(owners) ==> owners@ == self@.store(kind).ids,
    {
        if !self.has_component_manager(kind) {
            return None;
        }
        Some(self.borrow_component_manager(kind).borrow_entity_ids())
    }

    /// The component of `kind` that `entity_id` carries, if any.
    pub fn borrow_component(&self, entity_id: usize, kind: Kind) -> (component: Option<&T>)
        requires
            self.wf(),
        ensures
            component == if self@.holds(entity_id, kind) {
                Some(&self@.component(entity_id, kind))
            } else {
                None
            },
    {
        match self.has_component_manager(kind) {
            true => self.borrow_component_manager(kind).borrow_component(entity_id),
            false => None,
        }
    }

    /// The component of `kind` that `entity_id` carries, for writing. What is
    /// written replaces that component and nothing else; no revision moves.
    pub fn borrow_component_mut(&mut self, entity_id: usize, kind: Kind) -> (component: Option<
        &mut T,
    >)
        requires
            old(self).wf(),
        ensures
            component is Some <==> old(self)@.holds(entity_id, kind),
            match component {
                Some(value) => {
                    &&& *value == old(self)@.component(entity_id, kind)
                    &&& final(self)@ == old(self)@.set_component(entity_id, kind, *final(value))
                },
                None => final(self)@ == old(self)@,
            },
            final(self).wf(),
            old(self)@.evolves_to(final(self)@),
    {
        proof {
            old(self)@.lemma_evolves_refl();
            assert forall|value: T|
                old(self)@.evolves_to(
                    #[trigger] old(self)@.set_component(entity_id, kind, value),
                ) by {
                old(self)@.lemma_set_component(entity_id, kind, value);
            }
        }
        match self.find_slot(kind) {
            Some(slot) => {
                proof {
                    lemma_views_update::<T>();
                    lemma_views_same(self.managers@, slot as int);
                }
                self.managers[slot].borrow_component_mut(entity_id)
            },
            None => None,
        }
    }

    /// The values in the store of `kind`, in dense order, if `kind` is
    /// registered.
    pub fn borrow_components(&self, kind: Kind) -> (components: Option<&Vec<T>>)
        requires
            self.wf(),
        ensures
            components is Some <==> self@.has_store(kind),
            components matches Some(values) ==> values@ == self@.store(kind).values,
    {
        match self.has_component_manager(kind) {
            true => Some(self.borrow_component_manager(kind).borrow_components()),
            false => None,
        }
    }

    /// The values in the store of `kind` for writing, in dense order, if
    /// `kind` is registered. The owners stay as they are and no revision
    /// moves.
    pub fn borrow_components_mut(&mut self, kind: Kind) -> (components: Option<&mut [T]>)
        requires
            old(self).wf(),
        ensures
            components is Some <==> old(self)@.has_store(kind),
            match components {
                Some(values) => {
                    &&& values@ == old(self)@.store(kind).values
                    &&& final(self)@ == old(self)@.set_components(kind, final(values)@)
                    &&& final(values)@.len() == values@.len() ==> final(self).wf()
                },
                None => final(self)@ == old(self)@ && final(self).wf(),
            },
            old(self)@.evolves_to(final(self)@),
    {
        proof {
            old(self)@.lemma_evolves_refl();
            assert forall|values: Seq<T>|
                old(self)@.evolves_to(#[trigger] old(self)@.set_components(kind, values)) by {
                old(self)@.lemma_set_components(kind, values);
            }
        }
        match self.find_slot(kind) {
            Some(slot) => {
                proof {
                    lemma_views_update::<T>();
                }
                Some(self.managers[slot].borrow_components_mut())
            },
            None => None,
        }
    }

    /// The components of two different kinds of one entity, both for writing
    /// at the same time. Each reference reaches into the store of its own
    /// kind. If either kind is not registered, or the entity lacks either
    /// component, nothing is handed out.
    ///
    /// Asking for one kind twice would take two mutable references to one
    /// value: the kinds must differ.
    pub fn borrow_component_pair_mut(&mut self, entity_id: usize, kind1: Kind, kind2: Kind) -> (components:
        Option<(&mut T, &mut T)>)
        requires
            old(self).wf(),
            kind1 != kind2,
        ensures
            components is Some <==> old(self)@.holds(entity_id, kind1) && old(self)@.holds(
                entity_id,
                kind2,
            ),
            match components {
                Some((first, second)) => {
                    &&& *first == old(self)@.component(entity_id, kind1)
                    &&& *second == old(self)@.component(entity_id, kind2)
                    &&& final(self)@ == old(self)@.set_component(
                        entity_id,
                        kind1,
                        *final(first),
                    ).set_component(entity_id, kind2, *final(second))
                },
                None => final(self)@ == old(self)@,
            },
            final(self).wf(),
            old(self)@.evolves_to(final(self)@),
    {
        proof {
            old(self)@.lemma_evolves_refl();
            assert forall|first: T, second: T|
                old(self)@.evolves_to(
                    #[trigger] old(self)@.set_component(entity_id, kind1, first).set_component(
                        entity_id,
                        kind2,
                        second,
                    ),
                ) by {
                let start = old(self)@;
                let one = start.set_component(entity_id, kind1, first);
                let two = one.set_component(entity_id, kind2, second);
                start.lemma_set_component(entity_id, kind1, first);
                one.lemma_set_component(entity_id, kind2, second);
                start.lemma_evolves_trans(one, two);
            }
        }
        let slot1 = match self.find_slot(kind1) {
            Some(slot) => slot,
            None => { return None; },
        };
        let slot2 = match self.find_slot(kind2) {
            Some(slot) => slot,
            None => { return None; },
        };
        if !self.managers[slot1].has(entity_id) || !self.managers[slot2].has(entity_id) {
            return None;
        }
        proof {
            self@.lemma_slot(kind1);
            self@.lemma_slot(kind2);
            lemma_views_update::<T>();
        }
        let (manager1, manager2) = pick_two(self.managers.as_mut_slice(), slot1, slot2);
        let first = manager1.borrow_component_mut(entity_id).unwrap();
        let second = manager2.borrow_component_mut(entity_id).unwrap();
        Some((first, second))
    }

    /// The components of three different kinds of one entity, all for
    /// writing at the same time. If a kind is not registered, or the entity
    /// lacks one of the components, nothing is handed out.
    ///
    /// The kinds must differ from one another.
    pub fn borrow_component_triple_mut(
        &mut self,
        entity_id: usize,
        kind1: Kind,
        kind2: Kind,
        kind3: Kind,
    ) -> (components: Option<(&mut T, &mut T, &mut T)>)
        requires
            old(self).wf(),
            kind1 != kind2,
            kind1 != kind3,
            kind2 != kind3,
        ensures
            components is Some <==> {
                &&& old(self)@.holds(entity_id, kind1)
                &&& old(self)@.holds(entity_id, kind2)
                &&& old(self)@.holds(entity_id, kind3)
            },
            match components {
                Some((first, second, third)) => {
                    &&& *first == old(self)@.component(entity_id, kind1)
                    &&& *second == old(self)@.component(entity_id, kind2)
                    &&& *third == old(self)@.component(entity_id, kind3)
                    &&& final(self)@ == old(self)@.set_component(
                        entity_id,
                        kind1,
                        *final(first),
                    ).set_component(entity_id, kind2, *final(second)).set_component(
                        entity_id,
                        kind3,
                        *final(third),
                    )
                },
                None => final(self)@ == old(self)@,
            },
            final(self).wf(),
            old(self)@.evolves_to(final(self)@),
    {
        proof {
            old(self)@.lemma_evolves_refl();
            assert forall|first: T, second: T, third: T|
                old(self)@.evolves_to(
                    #[trigger] old(self)@.set_component(entity_id, kind1, first).set_component(
                        entity_id,
                        kind2,
                        second,
                    ).set_component(entity_id, kind3, third),
                ) by {
                let start = old(self)@;
                let one = start.set_component(entity_id, kind1, first);
                let two = one.set_component(entity_id, kind2, second);
                let three = two.set_component(entity_id, kind3, third);
                start.lemma_set_component(entity_id, kind1, first);
                one.lemma_set_component(entity_id, kind2, second);
                two.lemma_set_component(entity_id, kind3, third);
                start.lemma_evolves_trans(one, two);
                start.lemma_evolves_trans(two, three);
            }
        }
        let slot1 = match self.find_slot(kind1) {
            Some(slot) => slot,
            None => { return None; },
        };
        let slot2 = match self.find_slot(kind2) {
            Some(slot) => slot,
            None => { return None; },
        };
        let slot3 = match self.find_slot(kind3) {
            Some(slot) => slot,
            None => { return None; },
        };
        if !self.managers[slot1].has(entity_id) || !self.managers[slot2].has(entity_id)
            || !self.managers[slot3].has(entity_id) {
            return None;
        }
        proof {
            self@.lemma_slot(kind1);
            self@.lemma_slot(kind2);
            self@.lemma_slot(kind3);
            lemma_views_update::<T>();
        }
        let (manager1, manager2, manager3) = pick_three(
            self.managers.as_mut_slice(),
            slot1,
            slot2,
            slot3,
        );
        let first = manager1.borrow_component_mut(entity_id).unwrap();
        let second = manager2.borrow_component_mut(entity_id).unwrap();
        let third = manager3.borrow_component_mut(entity_id).unwrap();
        Some((first, second, third))
    }

    /// The components of four different kinds of one entity, all for writing
    /// at the same time. If a kind is not registered, or the entity lacks one
    /// of the components, nothing is handed out.
    ///
    /// The kinds must differ from one another.
    pub fn borrow_component_quad_mut(
        &mut self,
        entity_id: usize,
        kind1: Kind,
        kind2: Kind,
        kind3: Kind,
        kind4: Kind,
    ) -> (components: Option<(&mut T, &mut T, &mut T, &mut T)>)
        requires
            old(self).wf(),
            kind1 != kind2,
            kind1 != kind3,
            kind1 != kind4,
            kind2 != kind3,
            kind2 != kind4,
            kind3 != kind4,
        ensures
            components is Some <==> {
                &&& old(self)@.holds(entity_id, kind1)
                &&& old(self)@.holds(entity_id, kind2)
                &&& old(self)@.holds(entity_id, kind3)
                &&& old(self)@.holds(entity_id, kind4)
            },
            match components {
                Some((first, second, third, fourth)) => {
                    &&& *first == old(self)@.component(entity_id, kind1)
                    &&& *second == old(self)@.component(entity_id, kind2)
                    &&& *third == old(self)@.component(entity_id, kind3)
                    &&& *fourth == old(self)@.component(entity_id, kind4)
                    &&& final(self)@ == old(self)@.set_component(
                        entity_id,
                        kind1,
                        *final(first),
                    ).set_component(entity_id, kind2, *final(second)).set_component(
                        entity_id,
                        kind3,
                        *final(third),
                    ).set_component(entity_id, kind4, *final(fourth))
                },
                None => final(self)@ == old(self)@,
            },
            final(self).wf(),
            old(self)@.evolves_to(final(self)@),
    {
        proof {
            old(self)@.lemma_evolves_refl();
            assert forall|first: T, second: T, third: T, fourth: T|
                old(self)@.evolves_to(
                    #[trigger] old(self)@.set_component(entity_id, kind1, first).set_component(
                        entity_id,
                        kind2,
                        second,
                    ).set_component(entity_id, kind3, third).set_component(
                        entity_id,
                        kind4,
                        fourth,
                    ),
                ) by {
                let start = old(self)@;
                let one = start.set_component(entity_id, kind1, first);
                let two = one.set_component(entity_id, kind2, second);
                let three = two.set_component(entity_id, kind3, third);
                let four = three.set_component(entity_id, kind4, fourth);
                start.lemma_set_component(entity_id, kind1, first);
                one.lemma_set_component(entity_id, kind2, second);
                two.lemma_set_component(entity_id, kind3, third);
                three.lemma_set_component(entity_id, kind4, fourth);
                start.lemma_evolves_trans(one, two);
                start.lemma_evolves_trans(two, three);
                start.lemma_evolves_trans(three, four);
            }
        }
        let slot1 = match self.find_slot(kind1) {
            Some(slot) => slot,
            None => { return None; },
        };
        let slot2 = match self.find_slot(kind2) {
            Some(slot) => slot,
            None => { return None; },
        };
        let slot3 = match self.find_slot(kind3) {
            Some(slot) => slot,
            None => { return None; },
        };
        let slot4 = match self.find_slot(kind4) {
            Some(slot) => slot,
            None => { return None; },
        };
        if !self.managers[slot1].has(entity_id) || !self.managers[slot2].has(entity_id)
            || !self.managers[slot3].has(entity_id) || !self.managers[slot4].has(entity_id) {
            return None;
        }
        proof {
            self@.lemma_slot(kind1);
            self@.lemma_slot(kind2);
            self@.lemma_slot(kind3);
            self@.lemma_slot(kind4);
            lemma_views_update::<T>();
        }
        let (manager1, manager2, manager3, manager4) = pick_four(
            self.managers.as_mut_slice(),
            slot1,
            slot2,
            slot3,
            slot4,
        );
        let first = manager1.borrow_component_mut(entity_id).unwrap();
        let second = manager2.borrow_component_mut(entity_id).unwrap();
        let third = manager3.borrow_component_mut(entity_id).unwrap();
        let fourth = manager4.borrow_component_mut(entity_id).unwrap();
        Some((first, second, third, fourth))
    }

    /// Whether every kind of `kinds` is registered.
    pub fn has_component_managers(&self, kinds: &Vec<Kind>) -> (registered: bool)
        requires
            self.wf(),
        ensures
            registered == self@.all_registered(kinds@),
    {
        let mut j: usize = 0;
        while j < kinds.len()
            invariant
                j <= kinds.len(),
                self.wf(),
                forall|i: int| 0 <= i < j ==> self@.has_store(#[trigger] kinds@[i]),
            decreases kinds.len() - j,
        {
            if !self.has_component_manager(kinds[j]) {
                return false;
            }
            j += 1;
        }
        true
    }

    /// The revisions of `kinds` as they stand. Every kind must be
    /// registered.
    pub fn get_revisions(&self, kinds: &Vec<Kind>) -> (revisions: Vec<u64>)
        requires
            self.wf(),
            self@.all_registered(kinds@),
        ensures
            revisions@ == self@.snapshot(kinds@),
    {
        let mut revisions: Vec<u64> = Vec::new();
        let mut j: usize = 0;
        while j < kinds.len()
            invariant
                j <= kinds.len(),
                self.wf(),
                self@.all_registered(kinds@),
                revisions@.len() == j,
                forall|i: int| 0 <= i < j ==> #[trigger] revisions@[i] == self@.revision(kinds@[i]),
            decreases kinds.len() - j,
        {
            revisions.push(self.get_revision(kinds[j]));
            j += 1;
        }
        assert(revisions@ =~= self@.snapshot(kinds@));
        revisions
    }

    /// The entities that carry a component of every kind of `kinds`: the
    /// owners in the store of the first kind, in their dense order, as far
    /// as the stores of the other kinds hold them too. Empty if one of the
    /// kinds is not registered, or if no kind is asked for.
    pub fn ids_matching_all(&self, kinds: &Vec<Kind>) -> (ids: Vec<usize>)
        requires
            self.wf(),
        ensures
            ids@ == self@.matching(kinds@),
    {
        let mut ids: Vec<usize> = Vec::new();
        if kinds.len() == 0 || !self.has_component_managers(kinds) {
            return ids;
        }
        let mut slots: Vec<usize> = Vec::new();
        let mut j: usize = 0;
        while j < kinds.len()
            invariant
                j <= kinds.len(),
                self.wf(),
                self@.all_registered(kinds@),
                slots@.len() == j,
                forall|i: int|
                    0 <= i < j ==> #[trigger] slots@[i] == self@.slot(kinds@[i]) && slots@[i]
                        < self.managers@.len(),
            decreases kinds.len() - j,
        {
            slots.push(self.find_slot(kinds[j]).unwrap());
            j += 1;
        }
        let source = self.managers[slots[0]].borrow_entity_ids();
        let ghost wanted = self@.rest_filter(kinds@);
        let mut i: usize = 0;
        assert(source@.take(0).filter(wanted) =~= Seq::empty()) by {
            reveal(Seq::filter);
        }
        while i < source.len()
            invariant
                i <= source.len(),
                self.wf(),
                slots@.len() == kinds@.len(),
                kinds@.len() > 0,
                forall|t: int|
                    0 <= t < slots@.len() ==> #[trigger] slots@[t] == self@.slot(kinds@[t])
                        && slots@[t] < self.managers@.len(),
                source@ == self@.store(kinds@[0]).ids,
                wanted == self@.rest_filter(kinds@),
                ids@ == source@.take(i as int).filter(wanted),
            decreases source.len() - i,
        {
            let id: usize = source[i];
            let mut in_all = true;
            let mut k: usize = 1;
            while k < slots.len() && in_all
                invariant
                    1 <= k <= slots.len(),
                    self.wf(),
                    slots@.len() == kinds@.len(),
                    forall|t: int|
                        0 <= t < slots@.len() ==> #[trigger] slots@[t] == self@.slot(kinds@[t])
                            && slots@[t] < self.managers@.len(),
                    in_all ==> forall|t: int|
                        1 <= t < k ==> self@.store(#[trigger] kinds@[t]).contains(id),
                    !in_all ==> !self@.in_rest(kinds@, id),
                decreases slots.len() - k,
            {
                if !self.managers[slots[k]].has(id) {
                    in_all = false;
                    assert(!self@.store(kinds@[k as int]).contains(id));
                }
                k += 1;
            }
            if in_all {
                ids.push(id);
            }
            proof {
                assert(source@.take(i + 1) =~= source@.take(i as int).push(id));
                source@.take(i as int).lemma_filter_push(id, wanted);
                assert(wanted(id) == self@.in_rest(kinds@, id));
            }
            i += 1;
        }
        assert(source@.take(source@.len() as int) =~= source@);
        ids
    }
}

} // verus!
