//! The session that owns a registry, its query cache and the systems, and
//! runs the systems tick by tick.

use crate::entity_manager::EntityManager;
use crate::query_cache::{EntityIdAccessor, QueryCache};
use crate::registry::{Kind, Registry};
use crate::system::System;
use vstd::prelude::*;

verus! {

/// One thing that can be done to a session.
pub enum Action<T> {
    Register(Kind),
    CreateEntity,
    RemoveEntity(usize),
    AddComponent(usize, Kind, T),
    RemoveComponent(usize, Kind),
    /// Overwrite a component in place.
    SetComponent(usize, Kind, T),
    /// Ask the cache for the entities that carry a combination of kinds.
    Query(Seq<Kind>),
    Tick,
}

/// The state of a session: a registry and the query cache used with it.
pub struct Session<T> {
    pub registry: Registry<T>,
    pub cache: QueryCache,
}

impl<T> Session<T> {
    /// The session before anything was done.
    pub open spec fn start() -> Self {
        Session { registry: Registry::empty(), cache: QueryCache::empty() }
    }

    /// Registry and cache are well formed and the cache belongs to the
    /// registry.
    pub open spec fn sound(self) -> bool {
        &&& self.registry.wf()
        &&& self.cache.wf()
        &&& self.cache.coherent(self.registry)
    }

    /// The session after `action`. An entity is created only while an
    /// identifier is left, and the tick counter stops at the top of its
    /// range.
    pub open spec fn step(self, action: Action<T>) -> Self {
        match action {
            Action::Register(kind) => Session { registry: self.registry.register(kind), ..self },
            Action::CreateEntity => if self.registry.entities.has_room() {
                Session { registry: self.registry.create_entity(), ..self }
            } else {
                self
            },
            Action::RemoveEntity(id) => Session {
                registry: self.registry.remove_entity(id),
                ..self
            },
            Action::AddComponent(id, kind, value) => Session {
                registry: self.registry.add_component(id, kind, value),
                ..self
            },
            Action::RemoveComponent(id, kind) => Session {
                registry: self.registry.remove_component(id, kind),
                ..self
            },
            Action::SetComponent(id, kind, value) => Session {
                registry: self.registry.set_component(id, kind, value),
                ..self
            },
            Action::Query(key) => Session { cache: self.cache.refresh(self.registry, key), ..self },
            Action::Tick => if self.registry.frame < u64::MAX {
                Session { registry: self.registry.increment_frame(), ..self }
            } else {
                self
            },
        }
    }

    /// The session after all of `actions`, first to last.
    pub open spec fn run(self, actions: Seq<Action<T>>) -> Self
        decreases actions.len(),
    {
        if actions.len() == 0 {
            self
        } else {
            self.run(actions.drop_last()).step(actions.last())
        }
    }

    /// What the cache answers to `key` at this point, for a key whose kinds
    /// are all registered.
    pub open spec fn cached_answer(self, key: Seq<Kind>) -> Seq<usize> {
        self.cache.refresh(self.registry, key).entry(key).ids
    }

    /// No action breaks a sound session.
    pub proof fn lemma_step_sound(self, action: Action<T>)
        requires
            self.sound(),
        ensures
            self.step(action).sound(),
    {
        let next = self.step(action);
        match action {
            Action::Register(kind) => {
                self.registry.lemma_register(kind);
            },
            Action::CreateEntity => {
                if self.registry.entities.has_room() {
                    self.registry.lemma_create_entity();
                }
            },
            Action::RemoveEntity(id) => {
                self.registry.lemma_remove_entity(id);
            },
            Action::AddComponent(id, kind, value) => {
                self.registry.lemma_add_component(id, kind, value);
            },
            Action::RemoveComponent(id, kind) => {
                self.registry.lemma_remove_component(id, kind);
            },
            Action::SetComponent(id, kind, value) => {
                self.registry.lemma_set_component(id, kind, value);
            },
            Action::Query(key) => {
                self.cache.lemma_refresh(self.registry, key);
            },
            Action::Tick => {
                self.registry.lemma_evolves_refl();
                assert(self.registry.evolves_to(next.registry));
            },
        }
        if !(action is Query) {
            self.cache.lemma_coherent_evolves(self.registry, next.registry);
        }
    }

    /// No run of actions breaks a sound session.
    pub proof fn lemma_run_sound(self, actions: Seq<Action<T>>)
        requires
            self.sound(),
        ensures
            self.run(actions).sound(),
        decreases actions.len(),
    {
        if actions.len() > 0 {
            self.lemma_run_sound(actions.drop_last());
            self.run(actions.drop_last()).lemma_step_sound(actions.last());
        }
    }

    /// After any run of registrations, creations, destructions, additions,
    /// removals, overwrites, ticks and queries, in any order, what the cache
    /// answers to a key is what a computation from the stores gives at that
    /// point.
    pub proof fn lemma_cache_answers_as_computed(actions: Seq<Action<T>>, key: Seq<Kind>)
        ensures
            ({
                let now = Self::start().run(actions);
                now.registry.all_registered(key) ==> now.cached_answer(key)
                    == now.registry.matching(key)
            }),
    {
        let first = Self::start();
        assert(first.registry.wf());
        assert(first.sound());
        first.lemma_run_sound(actions);
        let now = first.run(actions);
        now.cache.lemma_refresh(now.registry, key);
    }
}

/// A system as a world keeps it.
pub struct Callback<S> {
    system: S,
}

impl<S> Callback<S> {
    /// The system that the callback runs, as it stands.
    pub closed spec fn system(&self) -> S {
        self.system
    }

    /// Keeps `system` as a callback.
    fn new(system: S) -> (callback: Self)
        ensures
            callback.system() == system,
    {
        Callback { system }
    }
}

/// The session object: it owns the registry, the query cache that goes with
/// it, and the systems, which it runs in the order in which they were added.
/// All systems of one world are of one type; where systems of several kinds
/// are to run, that type is one that tells them apart and passes the call on.
pub struct World<T, S> {
    entity_manager: EntityManager<T>,
    accessor: EntityIdAccessor,
    systems: Vec<Callback<S>>,
}

impl<T, S> View for World<T, S> {
    type V = Session<T>;

    closed spec fn view(&self) -> Session<T> {
        Session { registry: self.entity_manager@, cache: self.accessor@ }
    }
}

impl<T, S: System<T>> World<T, S> {
    /// What the model does not show is in good order.
    pub closed spec fn synced(&self) -> bool {
        self.entity_manager.wf() && self.accessor.wf()
    }

    /// The world is in good order: the session is sound, and what the
    /// session does not show is in step with it.
    pub open spec fn wf(&self) -> bool {
        &&& self@.sound()
        &&& self.synced()
    }

    /// The systems as they stand, in the order in which the world runs
    /// them.
    pub closed spec fn systems(&self) -> Seq<S> {
        Seq::new(self.systems@.len(), |at: int| self.systems@[at].system())
    }

    /// Whether `trace` is a run of every system of this world, first to
    /// last: the sessions before the first system, between one system and
    /// the next, and after the last.
    pub open spec fn ran(&self, trace: Seq<Session<T>>) -> bool {
        &&& trace.len() == self.systems().len() + 1
        &&& forall|at: int|
            0 <= at < self.systems().len() ==> (#[trigger] self.systems()[at]).effect(
                trace[at],
                trace[at + 1],
            )
    }

    pub fn new() -> (world: Self)
        ensures
            world.wf(),
            world@ == Session::<T>::start(),
            world.systems() == Seq::<S>::empty(),
    {
        let world = World {
            entity_manager: EntityManager::new(),
            accessor: EntityIdAccessor::new(),
            systems: Vec::new(),
        };
        assert(world.systems() =~= Seq::<S>::empty());
        world
    }

    /// The registry, for reading.
    pub fn borrow_entity_manager(&self) -> (manager: &EntityManager<T>)
        requires
            self.wf(),
        ensures
            manager.wf(),
            manager@ == self@.registry,
    {
        &self.entity_manager
    }

    /// Creates an entity without components and returns its identifier.
    pub fn create_entity(&mut self) -> (entity_id: usize)
        requires
            old(self).wf(),
        ensures
            final(self).wf(),
            entity_id == old(self)@.registry.entities.next_id(),
            final(self)@ == (Session {
                registry: old(self)@.registry.create_entity(),
                cache: old(self)@.cache,
            }),
            final(self).systems() == old(self).systems(),
    {
        let entity_id = self.entity_manager.create_entity();
        proof {
            assert(old(self)@.registry.evolves_to(self@.registry));
            old(self)@.cache.lemma_coherent_evolves(old(self)@.registry, self@.registry);
        }
        entity_id
    }

    /// Destroys `entity_id` and every component it carries.
    pub fn remove_entity(&mut self, entity_id: usize)
        requires
            old(self).wf(),
        ensures
            final(self).wf(),
            final(self)@ == old(self)@.step(Action::RemoveEntity(entity_id)),
            final(self).systems() == old(self).systems(),
    {
        proof {
            old(self)@.lemma_step_sound(Action::RemoveEntity(entity_id));
        }
        self.entity_manager.remove_entity(entity_id);
    }

    /// Registers `kind`. Registering a kind again changes nothing.
    pub fn register_component(&mut self, kind: Kind) -> (world: &mut Self)
        requires
            old(self).wf(),
        ensures
            world.wf(),
            world@ == old(self)@.step(Action::Register(kind)),
            world.systems() == old(self).systems(),
            *final(self) == *final(world),
    {
        proof {
            old(self)@.lemma_step_sound(Action::Register(kind));
        }
        self.entity_manager.register(kind);
        self
    }

    /// Adds `system` after the systems that are there: from the next tick
    /// on the world runs it last.
    pub fn add_system(&mut self, system: S) -> (world: &mut Self)
        requires
            old(self).wf(),
        ensures
            world.wf(),
            world@ == old(self)@,
            world.systems() == old(self).systems().push(system),
            *final(self) == *final(world),
    {
        let callback = Callback::new(system);
        self.systems.push(callback);
        assert(self.systems() =~= old(self).systems().push(system));
        self
    }

    /// Attaches `component` of `kind` to `entity_id`. Nothing happens if
    /// `kind` is not registered, or if the entity already carries a
    /// component of that kind.
    pub fn add_component_to_entity(&mut self, entity_id: usize, kind: Kind, component: T) -> (world:
        &mut Self)
        requires
            old(self).wf(),
        ensures
            world.wf(),
            world@ == old(self)@.step(Action::AddComponent(entity_id, kind, component)),
            world.systems() == old(self).systems(),
            *final(self) == *final(world),
    {
        proof {
            old(self)@.lemma_step_sound(Action::AddComponent(entity_id, kind, component));
        }
        self.entity_manager.add_component_to_entity(entity_id, kind, component);
        self
    }

    /// One tick: counts it, then runs every system once, in the order in
    /// which the systems were added, each on what the one before left. The
    /// systems decide what becomes of the registry and the cache; the world
    /// is in good order afterwards, one tick later.
    pub fn update(&mut self)
        requires
            old(self).wf(),
            old(self)@.registry.frame < u64::MAX,
        ensures
            final(self).wf(),
            final(self)@.registry.frame == old(self)@.registry.frame + 1,
            final(self).systems().len() == old(self).systems().len(),
            exists|trace: Seq<Session<T>>|
                {
                    &&& old(self).ran(trace)
                    &&& trace.first() == old(self)@.step(Action::Tick)
                    &&& trace.last() == final(self)@
                },
    {
        proof {
            old(self)@.lemma_step_sound(Action::Tick);
        }
        self.entity_manager.increment_frame();
        let count: usize = self.systems.len();
        let mut next: usize = 0;
        let ghost trace: Seq<Session<T>> = seq![self@];
        while next < count
            invariant
                next <= count,
                count == self.systems@.len(),
                count == old(self).systems@.len(),
                self.wf(),
                self@.registry.frame == old(self)@.registry.frame + 1,
                trace.len() == next + 1,
                trace.first() == old(self)@.step(Action::Tick),
                trace.last() == self@,
                forall|at: int|
                    0 <= at < next ==> (#[trigger] old(self).systems()[at]).effect(
                        trace[at],
                        trace[at + 1],
                    ),
                forall|at: int|
                    next <= at < count ==> #[trigger] self.systems@[at] == old(self).systems@[at],
            decreases count - next,
        {
            self.systems[next].system.update(&mut self.entity_manager, &mut self.accessor);
            proof {
                trace = trace.push(self@);
            }
            next += 1;
        }
        assert(old(self).ran(trace));
    }
}

} // verus!
