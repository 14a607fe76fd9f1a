//! Entity identifiers: the liveness flag of one identifier, and the registry
//! that issues identifiers and recycles the ones given back.

use vstd::prelude::*;

verus! {

/// The liveness flag behind one identifier.
pub struct Entity {
    alive: bool,
}

impl View for Entity {
    type V = bool;

    /// An entity is modelled by whether it is alive.
    closed spec fn view(&self) -> bool {
        self.alive
    }
}

impl Entity {
    /// A new entity is alive.
    pub fn new() -> (entity: Self)
        ensures
            entity@,
    {
        Entity { alive: true }
    }

    /// Whether the entity is alive.
    pub fn is_alive(&self) -> (alive: bool)
        ensures
            alive == self@,
    {
        self.alive
    }

    /// Marks the entity dead.
    pub fn invalid(&mut self)
        ensures
            !final(self)@,
    {
        self.alive = false;
    }

    /// Brings the entity back to life, for an identifier that is issued again.
    pub fn reset(&mut self)
        ensures
            final(self)@,
    {
        self.alive = true;
    }
}

/// The state of an entity registry: one liveness flag per identifier issued so
/// far, and the queue of identifiers waiting to be issued again.
pub struct EntityTable {
    /// `liveness[id]` tells whether `id` is in use.
    pub liveness: Seq<bool>,
    /// Identifiers given back and not yet reissued, oldest first.
    pub free: Seq<usize>,
}

impl EntityTable {
    /// The queue holds each dead identifier exactly once, and nothing else;
    /// every identifier fits the machine word.
    pub open spec fn wf(self) -> bool {
        &&& self.liveness.len() <= usize::MAX
        &&& self.free.no_duplicates()
        &&& forall|j: int|
            0 <= j < self.free.len() ==> (#[trigger] self.free[j]) < self.liveness.len()
                && !self.liveness[self.free[j] as int]
        &&& forall|id: int|
            0 <= id < self.liveness.len() && !(#[trigger] self.liveness[id])
                ==> self.free.contains(id as usize)
    }

    /// The registry that has issued nothing yet.
    pub open spec fn empty() -> Self {
        EntityTable { liveness: Seq::empty(), free: Seq::empty() }
    }

    /// Whether `id` was issued and is in use.
    pub open spec fn alive(self, id: usize) -> bool {
        id < self.liveness.len() && self.liveness[id as int]
    }

    /// The identifier that the next creation hands out: the one freed longest
    /// ago if any is waiting, else the first identifier never issued.
    pub open spec fn next_id(self) -> usize {
        if self.free.len() > 0 {
            self.free[0]
        } else {
            self.liveness.len() as usize
        }
    }

    /// The registry after one creation.
    pub open spec fn create(self) -> Self {
        if self.free.len() > 0 {
            EntityTable {
                liveness: self.liveness.update(self.free[0] as int, true),
                free: self.free.drop_first(),
            }
        } else {
            EntityTable { liveness: self.liveness.push(true), free: self.free }
        }
    }

    /// The registry after `id` is destroyed. Destroying an identifier that is
    /// not alive changes nothing.
    pub open spec fn remove(self, id: usize) -> Self {
        if self.alive(id) {
            EntityTable {
                liveness: self.liveness.update(id as int, false),
                free: self.free.push(id),
            }
        } else {
            self
        }
    }

    /// Whether one more identifier can be issued within the machine word.
    pub open spec fn has_room(self) -> bool {
        self.free.len() > 0 || self.liveness.len() < usize::MAX
    }

    /// Creation keeps the registry well formed and makes the issued identifier
    /// alive; no other identifier changes state.
    pub proof fn lemma_create(self)
        requires
            self.wf(),
            self.has_room(),
        ensures
            self.create().wf(),
            !self.alive(self.next_id()),
            self.create().alive(self.next_id()),
            forall|id: usize| id != self.next_id() ==> self.create().alive(id) == self.alive(id),
    {
        let next = self.create();
        if self.free.len() > 0 {
            let first = self.free[0];
            assert forall|id: int|
                0 <= id < next.liveness.len() && !(#[trigger] next.liveness[id]) implies next.free.contains(
                id as usize,
            ) by {
                assert(self.free.contains(id as usize));
                let j = choose|j: int| 0 <= j < self.free.len() && self.free[j] == id as usize;
                assert(j != 0);
                assert(next.free[j - 1] == id as usize);
            }
        } else {
            assert forall|id: int|
                0 <= id < next.liveness.len() && !(#[trigger] next.liveness[id]) implies next.free.contains(
                id as usize,
            ) by {
                assert(!self.liveness[id]);
            }
        }
    }

    /// Destruction keeps the registry well formed and leaves `id` dead; no
    /// other identifier changes state.
    pub proof fn lemma_remove(self, id: usize)
        requires
            self.wf(),
        ensures
            self.remove(id).wf(),
            !self.remove(id).alive(id),
            forall|other: usize| other != id ==> self.remove(id).alive(other) == self.alive(other),
    {
        let next = self.remove(id);
        if self.alive(id) {
            assert forall|i: int, j: int|
                0 <= i < next.free.len() && 0 <= j < next.free.len() && i != j implies next.free[i]
                != next.free[j] by {
                if i == self.free.len() {
                    assert(!self.liveness[self.free[j] as int]);
                } else if j == self.free.len() {
                    assert(!self.liveness[self.free[i] as int]);
                }
            }
            assert forall|k: int|
                0 <= k < next.liveness.len() && !(#[trigger] next.liveness[k]) implies next.free.contains(
                k as usize,
            ) by {
                if k == id {
                    assert(next.free[self.free.len() as int] == id);
                } else {
                    assert(!self.liveness[k]);
                    let j = choose|j: int| 0 <= j < self.free.len() && self.free[j] == k as usize;
                    assert(next.free[j] == k as usize);
                }
            }
        }
    }
}

/// The entity registry: issues identifiers, tracks which are alive, and hands
/// out again the ones that were given back, oldest first.
pub struct Entities {
    entities: Vec<Entity>,
    availables: Vec<usize>,
}

impl View for Entities {
    type V = EntityTable;

    closed spec fn view(&self) -> EntityTable {
        EntityTable {
            liveness: Seq::new(self.entities@.len(), |i: int| self.entities@[i]@),
            free: self.availables@,
        }
    }
}

impl Entities {
    /// The registry is in good order when its state is.
    pub open spec fn wf(&self) -> bool {
        self@.wf()
    }

    pub fn new() -> (registry: Self)
        ensures
            registry.wf(),
            registry@ == EntityTable::empty(),
    {
        let registry = Entities { entities: Vec::new(), availables: Vec::new() };
        assert(registry@.liveness =~= Seq::empty());
        registry
    }

    /// Whether `entity_id` is alive.
    pub fn has(&self, entity_id: usize) -> (alive: bool)
        ensures
            alive == self@.alive(entity_id),
    {
        entity_id < self.entities.len() && self.entities[entity_id].is_alive()
    }

    /// Issues an identifier: the one freed longest ago if any is waiting, else
    /// a new one.
    pub fn create(&mut self) -> (entity_id: usize)
        requires
            old(self).wf(),
        ensures
            final(self).wf(),
            entity_id == old(self)@.next_id(),
            final(self)@ == old(self)@.create(),
            !old(self)@.alive(entity_id),
            final(self)@.alive(entity_id),
    {
        if self.availables.len() > 0 {
            let index: usize = self.availables.remove(0);
            self.entities[index].reset();
            proof {
                assert(self@.liveness =~= old(self)@.create().liveness);
                assert(self@.free =~= old(self)@.create().free);
                old(self)@.lemma_create();
            }
            return index;
        }
        let entity = Entity::new();
        self.entities.push(entity);
        proof {
            assert(self@.liveness =~= old(self)@.create().liveness);
            assert(self.entities.len() == old(self).entities.len() + 1);
            old(self)@.lemma_create();
        }
        self.entities.len() - 1
    }

    /// Destroys `entity_id` and queues it for reuse. An identifier that is not
    /// alive is left as it is.
    pub fn remove(&mut self, entity_id: usize)
        requires
            old(self).wf(),
        ensures
            final(self).wf(),
            final(self)@ == old(self)@.remove(entity_id),
            !final(self)@.alive(entity_id),
    {
        proof {
            old(self)@.lemma_remove(entity_id);
        }
        if !self.has(entity_id) {
            return;
        }
        self.entities[entity_id].invalid();
        self.availables.push(entity_id);
        assert(self@.liveness =~= old(self)@.remove(entity_id).liveness);
    }
}

} // verus!
