//! The store of one component kind: dense arrays of values and of their
//! owners, and a sparse map from owner to dense position.

use std::collections::HashMap;
use vstd::prelude::*;

verus! {

/// The state of one store: the owners in dense order, and the value of each
/// owner at the same position.
pub struct DenseStore<T> {
    /// The entity that owns the value at each dense position.
    pub ids: Seq<usize>,
    /// The values, in the order of `ids`.
    pub values: Seq<T>,
}

/// One structural operation on a store.
pub enum StoreOp<T> {
    /// Attach a value to an entity.
    Add(usize, T),
    /// Detach the value of an entity.
    Remove(usize),
}

/// The sparse map that goes with a dense array of keys: each key to its
/// position.
pub open spec fn positions<K>(keys: Seq<K>) -> Map<K, usize> {
    Map::new(|key: K| keys.contains(key), |key: K| keys.index_of(key) as usize)
}

/// A key appended to a dense array without duplicates leaves no duplicates,
/// sits at the old length, and moves no other key.
pub proof fn lemma_positions_push<K>(keys: Seq<K>, key: K)
    requires
        keys.no_duplicates(),
        !keys.contains(key),
    ensures
        keys.push(key).no_duplicates(),
        keys.push(key).contains(key),
        keys.push(key).index_of(key) == keys.len(),
        forall|other: K| other != key ==> keys.push(key).contains(other) == keys.contains(other),
        forall|other: K| #[trigger]
            keys.contains(other) ==> keys.push(key).index_of(other) == keys.index_of(other),
        positions(keys.push(key)) == positions(keys).insert(key, keys.len() as usize),
{
    let next = keys.push(key);
    assert(next[keys.len() as int] == key);
    assert forall|other: K| other != key implies next.contains(other) == keys.contains(other) by {
        if keys.contains(other) {
            assert(next[keys.index_of(other)] == other);
        }
        if next.contains(other) {
            assert(keys[next.index_of(other)] == other);
        }
    }
    assert forall|other: K| #[trigger] keys.contains(other) implies next.index_of(other)
        == keys.index_of(other) by {
        assert(next[keys.index_of(other)] == other);
    }
    assert(positions(next) =~= positions(keys).insert(key, keys.len() as usize));
}

/// A dense array after the element at `at` is taken out: the last element
/// moves into its place and the array is one shorter.
pub open spec fn swap_removed<A>(items: Seq<A>, at: int) -> Seq<A> {
    items.update(at, items.last()).drop_last()
}

/// The owners of a store after `id` is taken out, if it was among them.
pub open spec fn owners_without(ids: Seq<usize>, id: usize) -> Seq<usize> {
    if ids.contains(id) {
        swap_removed(ids, ids.index_of(id))
    } else {
        ids
    }
}

impl<T> StoreOp<T> {
    /// The entity that the operation is about.
    pub open spec fn target(self) -> usize {
        match self {
            StoreOp::Add(id, _) => id,
            StoreOp::Remove(id) => id,
        }
    }
}

impl<T> DenseStore<T> {
    /// Both dense arrays have one length, and no entity owns two values.
    pub open spec fn wf(self) -> bool {
        &&& self.ids.len() == self.values.len()
        &&& self.ids.no_duplicates()
    }

    pub open spec fn empty() -> Self {
        DenseStore { ids: Seq::empty(), values: Seq::empty() }
    }

    pub open spec fn len(self) -> nat {
        self.ids.len()
    }

    /// Whether `id` owns a value in the store.
    pub open spec fn contains(self, id: usize) -> bool {
        self.ids.contains(id)
    }

    /// The dense position of the value that `id` owns.
    pub open spec fn position(self, id: usize) -> int {
        self.ids.index_of(id)
    }

    /// The value that `id` owns.
    pub open spec fn value_of(self, id: usize) -> T {
        self.values[self.position(id)]
    }

    /// The sparse map that goes with the dense arrays.
    pub open spec fn sparse(self) -> Map<usize, usize> {
        positions(self.ids)
    }

    /// The store as a map from owner to value, forgetting the dense order.
    pub open spec fn as_map(self) -> Map<usize, T> {
        Map::new(|id: usize| self.contains(id), |id: usize| self.value_of(id))
    }

    /// The store after `value` is added for `id`: appended at the end, or the
    /// store as it was if `id` already owns a value.
    pub open spec fn add(self, id: usize, value: T) -> Self {
        if self.contains(id) {
            self
        } else {
            DenseStore { ids: self.ids.push(id), values: self.values.push(value) }
        }
    }

    /// The store after the value of `id` is removed: the last dense element
    /// moves into the freed position and both arrays shrink by one. A store
    /// that does not hold `id` stays as it was.
    pub open spec fn remove(self, id: usize) -> Self {
        if self.contains(id) {
            let at = self.position(id);
            DenseStore { ids: swap_removed(self.ids, at), values: swap_removed(self.values, at) }
        } else {
            self
        }
    }

    /// The store with the value of `id` replaced, where `id` owns one.
    pub open spec fn set(self, id: usize, value: T) -> Self {
        if self.contains(id) {
            DenseStore { ids: self.ids, values: self.values.update(self.position(id), value) }
        } else {
            self
        }
    }

    /// The store with other values for the same owners.
    pub open spec fn with_values(self, values: Seq<T>) -> Self {
        DenseStore { ids: self.ids, values }
    }

    /// The store after `op`.
    pub open spec fn step(self, op: StoreOp<T>) -> Self {
        match op {
            StoreOp::Add(id, value) => self.add(id, value),
            StoreOp::Remove(id) => self.remove(id),
        }
    }

    /// The store after all of `ops`, first to last.
    pub open spec fn run(self, ops: Seq<StoreOp<T>>) -> Self
        decreases ops.len(),
    {
        if ops.len() == 0 {
            self
        } else {
            self.run(ops.drop_last()).step(ops.last())
        }
    }

    /// How many of `ops` add a value for `id`.
    pub open spec fn adds(ops: Seq<StoreOp<T>>, id: usize) -> int
        decreases ops.len(),
    {
        if ops.len() == 0 {
            0
        } else {
            Self::adds(ops.drop_last(), id) + if ops.last() matches StoreOp::Add(target, _)
                && target == id {
                1int
            } else {
                0int
            }
        }
    }

    /// How many of `ops` remove the value of `id`.
    pub open spec fn removes(ops: Seq<StoreOp<T>>, id: usize) -> int
        decreases ops.len(),
    {
        if ops.len() == 0 {
            0
        } else {
            Self::removes(ops.drop_last(), id) + if ops.last() matches StoreOp::Remove(target)
                && target == id {
                1int
            } else {
                0int
            }
        }
    }

    /// Every operation of `ops` on `id` changes the store: `id` is added only
    /// while absent and removed only while present.
    pub open spec fn each_takes_effect(self, ops: Seq<StoreOp<T>>, id: usize) -> bool
        decreases ops.len(),
    {
        if ops.len() == 0 {
            true
        } else {
            &&& self.each_takes_effect(ops.drop_last(), id)
            &&& ops.last().target() == id ==> (ops.last() is Add <==> !self.run(
                ops.drop_last(),
            ).contains(id))
        }
    }

    /// Whether a store holds `id` after `ops`, told from the operations
    /// alone: the last one on `id` decides, and where there is none the
    /// store holds `id` if it did before.
    pub open spec fn held_after(held: bool, ops: Seq<StoreOp<T>>, id: usize) -> bool
        decreases ops.len(),
    {
        if ops.len() == 0 {
            held
        } else if ops.last().target() == id {
            ops.last() is Add
        } else {
            Self::held_after(held, ops.drop_last(), id)
        }
    }

    /// In a well-formed store an owner sits at one position only.
    pub proof fn lemma_position(self, at: int)
        requires
            self.wf(),
            0 <= at < self.ids.len(),
        ensures
            self.contains(self.ids[at]),
            self.position(self.ids[at]) == at,
    {
    }

    /// The position of an owner is a valid index, and the owner sits there.
    pub proof fn lemma_position_of(self, id: usize)
        requires
            self.contains(id),
        ensures
            0 <= self.position(id) < self.ids.len(),
            self.ids[self.position(id)] == id,
    {
    }

    /// The sizes agree: as many values as owners as entries of the sparse
    /// map, and every entry of the map is a valid dense position.
    pub proof fn lemma_sizes(self)
        requires
            self.wf(),
        ensures
            self.values.len() == self.ids.len(),
            self.sparse().dom().finite(),
            self.sparse().len() == self.ids.len(),
            self.as_map().dom().finite(),
            self.as_map().len() == self.ids.len(),
            forall|id: usize| #[trigger]
                self.sparse().contains_key(id) ==> self.sparse()[id] < self.ids.len(),
    {
        vstd::seq_lib::seq_to_set_is_finite(self.ids);
        self.ids.unique_seq_to_set();
        assert(self.sparse().dom() =~= self.ids.to_set());
        assert(self.as_map().dom() =~= self.ids.to_set());
    }

    /// Adding keeps the store well formed. Seen as a map, the store gains the
    /// entry for `id` unless it had one, and nothing else changes.
    pub proof fn lemma_add(self, id: usize, value: T)
        requires
            self.wf(),
        ensures
            self.add(id, value).wf(),
            self.add(id, value).contains(id),
            forall|other: usize|
                other != id ==> self.add(id, value).contains(other) == self.contains(other),
            self.add(id, value).as_map() == if self.contains(id) {
                self.as_map()
            } else {
                self.as_map().insert(id, value)
            },
            self.add(id, value).sparse() == if self.contains(id) {
                self.sparse()
            } else {
                self.sparse().insert(id, self.ids.len() as usize)
            },
    {
        let next = self.add(id, value);
        if !self.contains(id) {
            assert(next.ids[self.ids.len() as int] == id);
            assert forall|other: usize| next.ids.contains(other) implies #[trigger] next.sparse()[other]
                == self.sparse().insert(id, self.ids.len() as usize)[other] by {
                if other == id {
                    next.lemma_position(self.ids.len() as int);
                } else {
                    assert(self.ids[next.position(other)] == other);
                    self.lemma_position(next.position(other));
                }
            }
            assert forall|other: usize| #[trigger]
                next.ids.contains(other) <==> (other == id || self.ids.contains(other)) by {
                if self.ids.contains(other) {
                    assert(next.ids[self.position(other)] == other);
                }
                if next.ids.contains(other) && other != id {
                    assert(self.ids[next.position(other)] == other);
                }
            }
            assert(next.sparse() =~= self.sparse().insert(id, self.ids.len() as usize));
            assert forall|other: usize| other != id implies next.contains(other) == self.contains(
                other,
            ) by {
                if self.contains(other) {
                    assert(next.ids[self.position(other)] == other);
                }
                if next.contains(other) {
                    assert(self.ids[next.position(other)] == other);
                }
            }
            assert forall|other: usize| next.contains(other) implies #[trigger] next.value_of(
                other,
            ) == self.as_map().insert(id, value)[other] by {
                if other == id {
                    next.lemma_position(self.ids.len() as int);
                } else {
                    self.lemma_position(next.position(other));
                }
            }
            assert(next.as_map() =~= self.as_map().insert(id, value));
        }
    }

    /// Removing keeps the store well formed and, where `id` was held, makes
    /// it one element shorter. Seen as a map, the store loses the entry for
    /// `id`: every other owner keeps its value.
    pub proof fn lemma_remove(self, id: usize)
        requires
            self.wf(),
        ensures
            self.remove(id).wf(),
            !self.remove(id).contains(id),
            self.contains(id) ==> self.remove(id).len() == self.len() - 1,
            forall|other: usize|
                other != id ==> self.remove(id).contains(other) == self.contains(other),
            forall|other: usize|
                other != id && self.contains(other) ==> self.remove(id).value_of(other)
                    == self.value_of(other),
            self.remove(id).as_map() == self.as_map().remove(id),
            self.remove(id).sparse() == if self.contains(id) {
                self.sparse().insert(self.ids.last(), self.position(id) as usize).remove(id)
            } else {
                self.sparse()
            },
    {
        let next = self.remove(id);
        if self.contains(id) {
            let at = self.position(id);
            let last = self.ids.len() - 1;
            let moved = self.sparse().insert(self.ids.last(), at as usize).remove(id);
            assert forall|other: usize| next.ids.contains(other) implies #[trigger] next.sparse()[other]
                == moved[other] by {
                let q = next.position(other);
                if q == at {
                    assert(self.ids[last] == other);
                } else {
                    assert(self.ids[q] == other);
                    self.lemma_position(q);
                }
            }
            assert forall|other: usize| #[trigger]
                next.ids.contains(other) <==> (other != id && self.ids.contains(other)) by {
                if other != id && self.ids.contains(other) {
                    let p = self.position(other);
                    let q = if p == last {
                        at
                    } else {
                        p
                    };
                    assert(next.ids[q] == other);
                }
                if next.ids.contains(other) {
                    let q = next.position(other);
                    if q == at {
                        assert(self.ids[last] == other);
                    } else {
                        assert(self.ids[q] == other);
                    }
                }
            }
            assert(self.ids.contains(self.ids.last())) by {
                assert(self.ids[last] == self.ids.last());
            }
            assert(next.sparse() =~= moved);
            assert forall|other: usize| other != id && self.contains(other) implies next.contains(
                other,
            ) && next.value_of(other) == self.value_of(other) by {
                let p = self.position(other);
                let q = if p == last {
                    at
                } else {
                    p
                };
                assert(next.ids[q] == other);
                next.lemma_position(q);
            }
            assert forall|other: usize| next.contains(other) implies other != id && self.contains(
                other,
            ) by {
                let q = next.position(other);
                if q == at {
                    assert(self.ids[last] == other);
                } else {
                    assert(self.ids[q] == other);
                }
            }
            assert(next.as_map() =~= self.as_map().remove(id));
        } else {
            assert(next.as_map() =~= self.as_map().remove(id));
        }
    }

    /// Replacing a value keeps the owners, hence well-formedness.
    pub proof fn lemma_set(self, id: usize, value: T)
        requires
            self.wf(),
        ensures
            self.set(id, value).wf(),
            self.set(id, value).ids == self.ids,
            self.contains(id) ==> self.set(id, value).value_of(id) == value,
    {
    }

    /// Running operations keeps a store well formed.
    pub proof fn lemma_run_wf(self, ops: Seq<StoreOp<T>>)
        requires
            self.wf(),
        ensures
            self.run(ops).wf(),
        decreases ops.len(),
    {
        if ops.len() > 0 {
            self.lemma_run_wf(ops.drop_last());
            let before = self.run(ops.drop_last());
            match ops.last() {
                StoreOp::Add(id, value) => before.lemma_add(id, value),
                StoreOp::Remove(id) => before.lemma_remove(id),
            }
        }
    }

    /// After any run of operations a store holds `id` if and only if the
    /// last operation on `id` was an add, or, where no operation was on
    /// `id`, if it held `id` at the start.
    pub proof fn lemma_has_follows_last_operation(self, ops: Seq<StoreOp<T>>, id: usize)
        requires
            self.wf(),
        ensures
            self.run(ops).contains(id) == Self::held_after(self.contains(id), ops, id),
        decreases ops.len(),
    {
        if ops.len() > 0 {
            self.lemma_has_follows_last_operation(ops.drop_last(), id);
            self.lemma_run_wf(ops.drop_last());
            let before = self.run(ops.drop_last());
            match ops.last() {
                StoreOp::Add(target, value) => before.lemma_add(target, value),
                StoreOp::Remove(target) => before.lemma_remove(target),
            }
        }
    }

    /// Whether a store holds `id` after a run of operations is the parity of
    /// the adds less the removes of `id`, counted from what the store held at
    /// the start, as long as each of them takes effect.
    pub proof fn lemma_has_is_net_parity(self, ops: Seq<StoreOp<T>>, id: usize)
        requires
            self.wf(),
            self.each_takes_effect(ops, id),
        ensures
            ({
                let held: int = if self.contains(id) {
                    1
                } else {
                    0
                };
                let net = held + Self::adds(ops, id) - Self::removes(ops, id);
                &&& 0 <= net <= 1
                &&& self.run(ops).contains(id) == (net % 2 == 1)
            }),
        decreases ops.len(),
    {
        if ops.len() > 0 {
            self.lemma_has_is_net_parity(ops.drop_last(), id);
            self.lemma_run_wf(ops.drop_last());
            let before = self.run(ops.drop_last());
            match ops.last() {
                StoreOp::Add(target, value) => before.lemma_add(target, value),
                StoreOp::Remove(target) => before.lemma_remove(target),
            }
        }
    }
}

/// What a store offers whatever the kind of its values: asking whether an
/// entity owns a value, and taking that value out.
pub trait ComponentManagerTrait {
    /// The owners, in dense order.
    spec fn owners(&self) -> Seq<usize>;

    /// Whether the store is in good order, as its operations need it.
    spec fn well_formed(&self) -> bool;

    /// Whether `entity_id` owns a value in this store.
    fn has(&self, entity_id: usize) -> (held: bool)
        requires
            self.well_formed(),
        ensures
            held == self.owners().contains(entity_id),
    ;

    /// Takes the value of `entity_id` out, if it owns one.
    fn remove(&mut self, entity_id: usize)
        requires
            old(self).well_formed(),
        ensures
            final(self).well_formed(),
            final(self).owners() == owners_without(old(self).owners(), entity_id),
    ;
}

/// The store of one component kind. Values sit in a dense array in the order
/// in which they were added, except that a removal moves the last value into
/// the freed position; a second dense array names the owner of each value, and
/// a sparse map finds the position of an owner.
pub struct ComponentManager<T> {
    components: Vec<T>,
    entity_ids: Vec<usize>,
    entity_id_map: HashMap<usize, usize>,
}

impl<T> View for ComponentManager<T> {
    type V = DenseStore<T>;

    closed spec fn view(&self) -> DenseStore<T> {
        DenseStore { ids: self.entity_ids@, values: self.components@ }
    }
}

impl<T> ComponentManager<T> {
    /// The sparse map as it is stored.
    pub closed spec fn index(&self) -> Map<usize, usize> {
        self.entity_id_map@
    }

    /// The dense arrays are well formed and the stored sparse map is the one
    /// that goes with them.
    pub open spec fn wf(&self) -> bool {
        &&& self@.wf()
        &&& self.index() == self@.sparse()
    }

    pub fn new() -> (manager: Self)
        ensures
            manager.wf(),
            manager@ == DenseStore::<T>::empty(),
    {
        let manager = ComponentManager {
            components: Vec::new(),
            entity_ids: Vec::new(),
            entity_id_map: HashMap::new(),
        };
        assert(manager.index() =~= manager@.sparse());
        manager
    }

    /// Whether `entity_id` owns a value in this store.
    pub fn has(&self, entity_id: usize) -> (held: bool)
        requires
            self.wf(),
        ensures
            held == self@.contains(entity_id),
    {
        self.entity_id_map.contains_key(&entity_id)
    }

    /// Adds `component` for `entity_id` at the end of the dense arrays. An
    /// entity that already owns a value keeps it, and `component` is dropped.
    pub fn add(&mut self, entity_id: usize, component: T)
        requires
            old(self).wf(),
        ensures
            final(self).wf(),
            final(self)@ == old(self)@.add(entity_id, component),
            final(self)@.contains(entity_id),
    {
        proof {
            old(self)@.lemma_add(entity_id, component);
        }
        if self.has(entity_id) {
            return;
        }
        self.components.push(component);
        self.entity_ids.push(entity_id);
        let component_index: usize = self.components.len() - 1;
        self.entity_id_map.insert(entity_id, component_index);
    }

    /// Removes the value of `entity_id`: the last dense element moves into
    /// its position and both dense arrays shrink by one. Every other entity
    /// keeps its value. An entity without a value leaves the store unchanged.
    pub fn remove(&mut self, entity_id: usize)
        requires
            old(self).wf(),
        ensures
            final(self).wf(),
            final(self)@ == old(self)@.remove(entity_id),
            !final(self)@.contains(entity_id),
            old(self)@.contains(entity_id) ==> final(self)@.len() == old(self)@.len() - 1,
            final(self)@.as_map() == old(self)@.as_map().remove(entity_id),
            final(self)@.values.len() == final(self)@.ids.len() == final(self).index().len(),
    {
        proof {
            old(self)@.lemma_remove(entity_id);
            old(self)@.remove(entity_id).lemma_sizes();
        }
        if !self.has(entity_id) {
            return;
        }
        let index: usize = *self.entity_id_map.get(&entity_id).unwrap();
        proof {
            old(self)@.lemma_position_of(entity_id);
        }
        let last: usize = self.entity_ids[self.entity_ids.len() - 1];
        self.entity_id_map.insert(last, index);
        self.components.swap_remove(index);
        self.entity_ids.swap_remove(index);
        self.entity_id_map.remove(&entity_id);
    }

    /// The value of `entity_id`, if it owns one.
    pub fn borrow_component(&self, entity_id: usize) -> (component: Option<&T>)
        requires
            self.wf(),
        ensures
            component == if self@.contains(entity_id) {
                Some(&self@.value_of(entity_id))
            } else {
                None
            },
    {
        if !self.has(entity_id) {
            return None;
        }
        let index = self.entity_id_map.get(&entity_id).unwrap();
        proof {
            self@.lemma_position_of(entity_id);
            assert(self.entity_ids.len() <= usize::MAX);
        }
        Some(&self.components[*index])
    }

    /// The value of `entity_id` for writing, if it owns one. Whatever is
    /// written replaces the value of that entity and nothing else.
    pub fn borrow_component_mut(&mut self, entity_id: usize) -> (component: Option<&mut T>)
        requires
            old(self).wf(),
        ensures
            component is Some <==> old(self)@.contains(entity_id),
            match component {
                Some(value) => {
                    &&& *value == old(self)@.value_of(entity_id)
                    &&& final(self)@ == old(self)@.set(entity_id, *final(value))
                },
                None => final(self)@ == old(self)@,
            },
            final(self).wf(),
    {
        if !self.has(entity_id) {
            return None;
        }
        let index: usize = *self.entity_id_map.get(&entity_id).unwrap();
        proof {
            old(self)@.lemma_position_of(entity_id);
            assert(self.entity_ids.len() <= usize::MAX);
        }
        Some(&mut self.components[index])
    }

    /// The owners, in dense order.
    pub fn borrow_entity_ids(&self) -> (ids: &Vec<usize>)
        ensures
            ids@ == self@.ids,
    {
        &self.entity_ids
    }

    /// The values, in dense order: `borrow_entity_ids` names the owner of
    /// each.
    pub fn borrow_components(&self) -> (components: &Vec<T>)
        ensures
            components@ == self@.values,
    {
        &self.components
    }

    /// The values for writing, in dense order. The owners stay as they are,
    /// and the store holds in the end what was written.
    pub fn borrow_components_mut(&mut self) -> (components: &mut [T])
        requires
            old(self).wf(),
        ensures
            components@ == old(self)@.values,
            final(self)@ == old(self)@.with_values(final(components)@),
            final(components)@.len() == components@.len() ==> final(self).wf(),
    {
        self.components.as_mut_slice()
    }
}

impl<T> ComponentManagerTrait for ComponentManager<T> {
    open spec fn owners(&self) -> Seq<usize> {
        self@.ids
    }

    open spec fn well_formed(&self) -> bool {
        self.wf()
    }

    fn has(&self, entity_id: usize) -> (held: bool) {
        ComponentManager::has(self, entity_id)
    }

    fn remove(&mut self, entity_id: usize) {
        ComponentManager::remove(self, entity_id)
    }
}

} // verus!
