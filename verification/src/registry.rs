//! The state of a store registry as a mathematical value, the operations on
//! it, and what holds of them.

use crate::component_manager::{lemma_positions_push, DenseStore};
use crate::entity::EntityTable;
use vstd::prelude::*;

verus! {

/// The tag that tells one component kind from another.
pub type Kind = u64;

/// The state of a store registry: the entity registry, the registered kinds
/// in the order of their registration, and for each kind its store and its
/// revision.
pub struct Registry<T> {
    pub entities: EntityTable,
    /// The registered kinds; the position of a kind is its slot.
    pub kinds: Seq<Kind>,
    /// The store in each slot.
    pub stores: Seq<DenseStore<T>>,
    /// The revision of the store in each slot.
    pub revisions: Seq<u64>,
    /// The number of ticks so far.
    pub frame: u64,
}

/// The revision after one more structural change. A revision that has
/// reached the top of its range stays there.
pub open spec fn bump(revision: u64) -> u64 {
    if revision < u64::MAX {
        (revision + 1) as u64
    } else {
        revision
    }
}

impl<T> Registry<T> {
    /// Each kind is registered once and has one store and one revision;
    /// the entity registry and every store are well formed.
    pub open spec fn wf(self) -> bool {
        &&& self.entities.wf()
        &&& self.kinds.no_duplicates()
        &&& self.stores.len() == self.kinds.len()
        &&& self.revisions.len() == self.kinds.len()
        &&& forall|slot: int| 0 <= slot < self.stores.len() ==> (#[trigger] self.stores[slot]).wf()
    }

    /// The registry with no entity and no kind, before the first tick.
    pub open spec fn empty() -> Self {
        Registry {
            entities: EntityTable::empty(),
            kinds: Seq::empty(),
            stores: Seq::empty(),
            revisions: Seq::empty(),
            frame: 0,
        }
    }

    /// Whether `kind` is registered.
    pub open spec fn has_store(self, kind: Kind) -> bool {
        self.kinds.contains(kind)
    }

    /// The slot of a registered kind.
    pub open spec fn slot(self, kind: Kind) -> int {
        self.kinds.index_of(kind)
    }

    /// The store of a registered kind.
    pub open spec fn store(self, kind: Kind) -> DenseStore<T> {
        self.stores[self.slot(kind)]
    }

    /// The revision of a registered kind.
    pub open spec fn revision(self, kind: Kind) -> u64 {
        self.revisions[self.slot(kind)]
    }

    /// Whether entity `id` carries a component of `kind`.
    pub open spec fn holds(self, id: usize, kind: Kind) -> bool {
        self.has_store(kind) && self.store(kind).contains(id)
    }

    /// The component of `kind` that entity `id` carries.
    pub open spec fn component(self, id: usize, kind: Kind) -> T {
        self.store(kind).value_of(id)
    }

    /// Whether entity `id` carries no component at all.
    pub open spec fn bare(self, id: usize) -> bool {
        forall|slot: int| 0 <= slot < self.stores.len() ==> !(#[trigger] self.stores[slot]).contains(id)
    }

    /// Every component belongs to a live entity.
    pub open spec fn tidy(self) -> bool {
        forall|slot: int, id: usize|
            0 <= slot < self.stores.len() && (#[trigger] self.stores[slot].contains(id))
                ==> self.entities.alive(id)
    }

    /// The registry after `kind` is registered: a new empty store at revision
    /// zero in a new last slot, or the registry as it was if `kind` is
    /// registered already.
    pub open spec fn register(self, kind: Kind) -> Self {
        if self.has_store(kind) {
            self
        } else {
            Registry {
                kinds: self.kinds.push(kind),
                stores: self.stores.push(DenseStore::empty()),
                revisions: self.revisions.push(0),
                ..self
            }
        }
    }

    /// The registry after one entity is created. The identifier issued is
    /// `self.entities.next_id()`.
    pub open spec fn create_entity(self) -> Self {
        Registry { entities: self.entities.create(), ..self }
    }

    /// The registry after entity `id` is destroyed: every store that held a
    /// component for `id` loses it and moves to its next revision, and the
    /// identifier is given back.
    pub open spec fn remove_entity(self, id: usize) -> Self {
        Registry {
            entities: self.entities.remove(id),
            stores: Seq::new(self.stores.len(), |slot: int| self.stores[slot].remove(id)),
            revisions: Seq::new(
                self.revisions.len(),
                |slot: int|
                    if self.stores[slot].contains(id) {
                        bump(self.revisions[slot])
                    } else {
                        self.revisions[slot]
                    },
            ),
            ..self
        }
    }

    /// The registry after `value` is added for `id` to the store of `kind`,
    /// which moves to its next revision. Nothing changes if `kind` is not
    /// registered or `id` already carries a component of that kind.
    pub open spec fn add_component(self, id: usize, kind: Kind, value: T) -> Self {
        if self.has_store(kind) && !self.store(kind).contains(id) {
            Registry {
                stores: self.stores.update(self.slot(kind), self.store(kind).add(id, value)),
                revisions: self.revisions.update(self.slot(kind), bump(self.revision(kind))),
                ..self
            }
        } else {
            self
        }
    }

    /// The registry after the component of `kind` is taken from `id`; the
    /// store moves to its next revision. Nothing changes if `id` carries no
    /// component of that kind.
    pub open spec fn remove_component(self, id: usize, kind: Kind) -> Self {
        if self.holds(id, kind) {
            Registry {
                stores: self.stores.update(self.slot(kind), self.store(kind).remove(id)),
                revisions: self.revisions.update(self.slot(kind), bump(self.revision(kind))),
                ..self
            }
        } else {
            self
        }
    }

    /// The registry with the component of `kind` of entity `id` overwritten.
    /// The revision stays: no store gains or loses an owner.
    pub open spec fn set_component(self, id: usize, kind: Kind, value: T) -> Self {
        if self.holds(id, kind) {
            Registry {
                stores: self.stores.update(self.slot(kind), self.store(kind).set(id, value)),
                ..self
            }
        } else {
            self
        }
    }

    /// The registry with all values of `kind` overwritten, for the same
    /// owners.
    pub open spec fn set_components(self, kind: Kind, values: Seq<T>) -> Self {
        if self.has_store(kind) {
            Registry {
                stores: self.stores.update(
                    self.slot(kind),
                    self.store(kind).with_values(values),
                ),
                ..self
            }
        } else {
            self
        }
    }

    /// The registry one tick later.
    pub open spec fn increment_frame(self) -> Self {
        Registry { frame: (self.frame + 1) as u64, ..self }
    }

    /// Whether each of `kinds` is registered.
    pub open spec fn all_registered(self, kinds: Seq<Kind>) -> bool {
        forall|j: int| 0 <= j < kinds.len() ==> self.has_store(#[trigger] kinds[j])
    }

    /// Whether entity `id` carries every kind of `kinds` but perhaps the
    /// first.
    pub open spec fn in_rest(self, kinds: Seq<Kind>, id: usize) -> bool {
        forall|j: int| 1 <= j < kinds.len() ==> self.store(#[trigger] kinds[j]).contains(id)
    }

    /// `in_rest` as a predicate on entities.
    pub open spec fn rest_filter(self, kinds: Seq<Kind>) -> spec_fn(usize) -> bool {
        |id: usize| self.in_rest(kinds, id)
    }

    /// The entities that carry every kind of `kinds`: the owners in the
    /// store of the first kind, in their dense order, that the stores of the
    /// other kinds hold too. Empty if a kind is not registered or none is
    /// asked for.
    pub open spec fn matching(self, kinds: Seq<Kind>) -> Seq<usize> {
        if kinds.len() > 0 && self.all_registered(kinds) {
            self.store(kinds[0]).ids.filter(self.rest_filter(kinds))
        } else {
            Seq::empty()
        }
    }

    /// The revisions of `kinds` as they stand.
    pub open spec fn snapshot(self, kinds: Seq<Kind>) -> Seq<u64> {
        Seq::new(kinds.len(), |j: int| self.revision(kinds[j]))
    }

    /// The slot of a registered kind is a valid position, and the kind sits
    /// there.
    pub proof fn lemma_slot(self, kind: Kind)
        requires
            self.has_store(kind),
        ensures
            0 <= self.slot(kind) < self.kinds.len(),
            self.kinds[self.slot(kind)] == kind,
    {
    }

    /// What later states of a registry keep of an earlier one: a registered
    /// kind stays registered, its revision never goes back, and as long as
    /// its revision stands still below the top of its range, its store has
    /// the same owners in the same order.
    pub open spec fn evolves_to(self, later: Self) -> bool {
        forall|kind: Kind| #[trigger]
            self.has_store(kind) ==> {
                &&& later.has_store(kind)
                &&& self.revision(kind) <= later.revision(kind)
                &&& self.revision(kind) == later.revision(kind) && later.revision(kind) < u64::MAX
                    ==> later.store(kind).ids == self.store(kind).ids
            }
    }

    /// A registry evolves to itself.
    pub proof fn lemma_evolves_refl(self)
        ensures
            self.evolves_to(self),
    {
    }

    /// Evolution goes on: what evolves to a middle state that evolves to a
    /// last one, evolves to the last one.
    pub proof fn lemma_evolves_trans(self, middle: Self, last: Self)
        requires
            self.evolves_to(middle),
            middle.evolves_to(last),
        ensures
            self.evolves_to(last),
    {
        assert forall|kind: Kind| #[trigger] self.has_store(kind) implies {
            &&& last.has_store(kind)
            &&& self.revision(kind) <= last.revision(kind)
            &&& self.revision(kind) == last.revision(kind) && last.revision(kind) < u64::MAX
                ==> last.store(kind).ids == self.store(kind).ids
        } by {
            assert(middle.has_store(kind));
        }
    }

    /// Registering keeps the registry well formed and every store and
    /// revision that was there; the new kind starts empty at revision zero.
    pub proof fn lemma_register(self, kind: Kind)
        requires
            self.wf(),
        ensures
            self.register(kind).wf(),
            self.evolves_to(self.register(kind)),
            self.register(kind).has_store(kind),
            forall|other: Kind|
                other != kind ==> self.register(kind).has_store(other) == self.has_store(other),
            forall|other: Kind| #[trigger]
                self.has_store(other) ==> self.register(kind).store(other) == self.store(other)
                    && self.register(kind).revision(other) == self.revision(other),
            !self.has_store(kind) ==> self.register(kind).store(kind) == DenseStore::<T>::empty()
                && self.register(kind).revision(kind) == 0,
            self.tidy() ==> self.register(kind).tidy(),
            forall|id: usize| self.bare(id) ==> self.register(kind).bare(id),
    {
        let next = self.register(kind);
        if !self.has_store(kind) {
            lemma_positions_push(self.kinds, kind);
            assert forall|other: Kind| #[trigger] self.has_store(other) implies next.store(other)
                == self.store(other) && next.revision(other) == self.revision(other) by {
                self.lemma_slot(other);
            }
            assert forall|slot: int| 0 <= slot < next.stores.len() implies (
            #[trigger] next.stores[slot]).wf() by {
                if slot < self.stores.len() {
                    assert(self.stores[slot].wf());
                }
            }
            if self.tidy() {
                assert forall|slot: int, id: usize|
                    0 <= slot < next.stores.len() && (#[trigger] next.stores[slot].contains(
                        id,
                    )) implies next.entities.alive(id) by {
                    if slot < self.stores.len() {
                        assert(self.stores[slot].contains(id));
                    }
                }
            }
            assert forall|id: usize| self.bare(id) implies next.bare(id) by {
                assert forall|slot: int| 0 <= slot < next.stores.len() implies !(
                #[trigger] next.stores[slot]).contains(id) by {
                    if slot < self.stores.len() {
                        assert(!self.stores[slot].contains(id));
                    }
                }
            }
        }
    }

    /// Creating an entity keeps the registry well formed and touches no
    /// store. In a tidy registry the entity created carries no component.
    pub proof fn lemma_create_entity(self)
        requires
            self.wf(),
            self.entities.has_room(),
        ensures
            self.create_entity().wf(),
            self.evolves_to(self.create_entity()),
            self.create_entity().entities.alive(self.entities.next_id()),
            self.tidy() ==> self.create_entity().tidy(),
            self.tidy() ==> self.create_entity().bare(self.entities.next_id()),
    {
        self.entities.lemma_create();
        let next = self.create_entity();
        if self.tidy() {
            assert forall|slot: int, id: usize|
                0 <= slot < next.stores.len() && (#[trigger] next.stores[slot].contains(
                    id,
                )) implies next.entities.alive(id) by {
                assert(self.stores[slot].contains(id));
            }
            assert forall|slot: int| 0 <= slot < next.stores.len() implies !(
            #[trigger] next.stores[slot]).contains(self.entities.next_id()) by {
                if self.stores[slot].contains(self.entities.next_id()) {
                    assert(self.entities.alive(self.entities.next_id()));
                }
            }
        }
    }

    /// Destroying an entity keeps the registry well formed and leaves the
    /// entity dead and without components; every store that did not hold it
    /// stays as it was, at its revision.
    pub proof fn lemma_remove_entity(self, id: usize)
        requires
            self.wf(),
        ensures
            self.remove_entity(id).wf(),
            self.evolves_to(self.remove_entity(id)),
            self.remove_entity(id).bare(id),
            !self.remove_entity(id).entities.alive(id),
            forall|kind: Kind| #[trigger]
                self.has_store(kind) ==> self.remove_entity(id).store(kind) == self.store(
                    kind,
                ).remove(id),
            forall|kind: Kind| #[trigger]
                self.has_store(kind) && !self.store(kind).contains(id) ==> self.remove_entity(
                    id,
                ).revision(kind) == self.revision(kind),
            self.tidy() ==> self.remove_entity(id).tidy(),
    {
        let next = self.remove_entity(id);
        self.entities.lemma_remove(id);
        assert forall|slot: int| 0 <= slot < next.stores.len() implies (
        #[trigger] next.stores[slot]).wf() && !next.stores[slot].contains(id) by {
            assert(self.stores[slot].wf());
            self.stores[slot].lemma_remove(id);
        }
        assert forall|kind: Kind| #[trigger] self.has_store(kind) implies {
            &&& next.has_store(kind)
            &&& next.store(kind) == self.store(kind).remove(id)
            &&& self.revision(kind) <= next.revision(kind)
            &&& !self.store(kind).contains(id) ==> next.revision(kind) == self.revision(kind)
            &&& self.revision(kind) == next.revision(kind) && next.revision(kind) < u64::MAX
                ==> next.store(kind).ids == self.store(kind).ids
        } by {
            self.lemma_slot(kind);
        }
        if self.tidy() {
            assert forall|slot: int, other: usize|
                0 <= slot < next.stores.len() && (#[trigger] next.stores[slot].contains(
                    other,
                )) implies next.entities.alive(other) by {
                assert(self.stores[slot].wf());
                self.stores[slot].lemma_remove(id);
                assert(self.stores[slot].contains(other));
            }
        }
    }

    /// A destroyed entity carries nothing. In a tidy registry the entity
    /// created next carries nothing either, also where it gets the
    /// identifier that was just given back.
    pub proof fn lemma_destroy_then_create(self, id: usize)
        requires
            self.wf(),
            self.tidy(),
            self.entities.alive(id),
        ensures
            ({
                let destroyed = self.remove_entity(id);
                let reborn = destroyed.create_entity();
                let fresh = destroyed.entities.next_id();
                &&& destroyed.bare(id)
                &&& reborn.wf()
                &&& reborn.tidy()
                &&& reborn.entities.alive(fresh)
                &&& reborn.bare(fresh)
                &&& self.entities.free.len() == 0 ==> fresh == id
            }),
    {
        self.lemma_remove_entity(id);
        self.remove_entity(id).lemma_create_entity();
    }

    /// Adding a component keeps the registry well formed and touches the
    /// store of its kind only. The entity then carries the kind if the kind
    /// is registered.
    pub proof fn lemma_add_component(self, id: usize, kind: Kind, value: T)
        requires
            self.wf(),
        ensures
            self.add_component(id, kind, value).wf(),
            self.evolves_to(self.add_component(id, kind, value)),
            self.add_component(id, kind, value).kinds == self.kinds,
            self.has_store(kind) ==> self.add_component(id, kind, value).holds(id, kind),
            self.has_store(kind) ==> self.add_component(id, kind, value).store(kind) == self.store(
                kind,
            ).add(id, value),
            forall|other: Kind|
                other != kind && #[trigger] self.has_store(other) ==> self.add_component(
                    id,
                    kind,
                    value,
                ).store(other) == self.store(other) && self.add_component(id, kind, value).revision(
                    other,
                ) == self.revision(other),
            self.tidy() && self.entities.alive(id) ==> self.add_component(id, kind, value).tidy(),
    {
        let next = self.add_component(id, kind, value);
        if self.has_store(kind) {
            self.lemma_slot(kind);
            let at = self.slot(kind);
            assert(self.stores[at].wf());
            self.store(kind).lemma_add(id, value);
            if !self.store(kind).contains(id) {
                assert forall|slot: int| 0 <= slot < next.stores.len() implies (
                #[trigger] next.stores[slot]).wf() by {
                    assert(self.stores[slot].wf());
                }
                assert forall|other: Kind| #[trigger] self.has_store(other) implies {
                    &&& next.has_store(other)
                    &&& self.revision(other) <= next.revision(other)
                    &&& other != kind ==> next.store(other) == self.store(other) && next.revision(
                        other,
                    ) == self.revision(other)
                    &&& self.revision(other) == next.revision(other) && next.revision(other)
                        < u64::MAX ==> next.store(other).ids == self.store(other).ids
                } by {
                    self.lemma_slot(other);
                }
                if self.tidy() && self.entities.alive(id) {
                    assert forall|slot: int, other: usize|
                        0 <= slot < next.stores.len() && (#[trigger] next.stores[slot].contains(
                            other,
                        )) implies next.entities.alive(other) by {
                        if slot != at || other != id {
                            assert(self.stores[slot].contains(other));
                        }
                    }
                }
            }
        }
    }

    /// Taking a component away keeps the registry well formed and touches
    /// the store of its kind only. The entity no longer carries the kind.
    pub proof fn lemma_remove_component(self, id: usize, kind: Kind)
        requires
            self.wf(),
        ensures
            self.remove_component(id, kind).wf(),
            self.evolves_to(self.remove_component(id, kind)),
            self.remove_component(id, kind).kinds == self.kinds,
            !self.remove_component(id, kind).holds(id, kind),
            self.has_store(kind) ==> self.remove_component(id, kind).store(kind) == self.store(
                kind,
            ).remove(id),
            forall|other: Kind|
                other != kind && #[trigger] self.has_store(other) ==> self.remove_component(
                    id,
                    kind,
                ).store(other) == self.store(other) && self.remove_component(id, kind).revision(
                    other,
                ) == self.revision(other),
            self.tidy() ==> self.remove_component(id, kind).tidy(),
    {
        let next = self.remove_component(id, kind);
        if self.has_store(kind) {
            self.lemma_slot(kind);
            let at = self.slot(kind);
            assert(self.stores[at].wf());
            self.store(kind).lemma_remove(id);
            if self.store(kind).contains(id) {
                assert forall|slot: int| 0 <= slot < next.stores.len() implies (
                #[trigger] next.stores[slot]).wf() by {
                    assert(self.stores[slot].wf());
                }
                assert forall|other: Kind| #[trigger] self.has_store(other) implies {
                    &&& next.has_store(other)
                    &&& self.revision(other) <= next.revision(other)
                    &&& other != kind ==> next.store(other) == self.store(other) && next.revision(
                        other,
                    ) == self.revision(other)
                    &&& self.revision(other) == next.revision(other) && next.revision(other)
                        < u64::MAX ==> next.store(other).ids == self.store(other).ids
                } by {
                    self.lemma_slot(other);
                }
                if self.tidy() {
                    assert forall|slot: int, other: usize|
                        0 <= slot < next.stores.len() && (#[trigger] next.stores[slot].contains(
                            other,
                        )) implies next.entities.alive(other) by {
                        assert(self.stores[slot].contains(other));
                    }
                }
            }
        }
    }

    /// Overwriting a component keeps the registry well formed, every owner
    /// where it was and every revision as it was.
    pub proof fn lemma_set_component(self, id: usize, kind: Kind, value: T)
        requires
            self.wf(),
        ensures
            self.set_component(id, kind, value).wf(),
            self.evolves_to(self.set_component(id, kind, value)),
            self.set_component(id, kind, value).kinds == self.kinds,
            self.set_component(id, kind, value).revisions == self.revisions,
            self.holds(id, kind) ==> self.set_component(id, kind, value).component(id, kind)
                == value,
            forall|other: Kind| #[trigger]
                self.has_store(other) ==> self.set_component(id, kind, value).store(other).ids
                    == self.store(other).ids,
            forall|other: Kind|
                other != kind && #[trigger] self.has_store(other) ==> self.set_component(
                    id,
                    kind,
                    value,
                ).store(other) == self.store(other),
            self.tidy() ==> self.set_component(id, kind, value).tidy(),
    {
        let next = self.set_component(id, kind, value);
        if self.holds(id, kind) {
            self.lemma_slot(kind);
            let at = self.slot(kind);
            assert(self.stores[at].wf());
            self.store(kind).lemma_set(id, value);
            assert forall|slot: int| 0 <= slot < next.stores.len() implies (
            #[trigger] next.stores[slot]).wf() by {
                assert(self.stores[slot].wf());
            }
            assert forall|other: Kind| #[trigger] self.has_store(other) implies {
                &&& next.has_store(other)
                &&& next.revision(other) == self.revision(other)
                &&& next.store(other).ids == self.store(other).ids
                &&& other != kind ==> next.store(other) == self.store(other)
            } by {
                self.lemma_slot(other);
            }
            if self.tidy() {
                assert forall|slot: int, other: usize|
                    0 <= slot < next.stores.len() && (#[trigger] next.stores[slot].contains(
                        other,
                    )) implies next.entities.alive(other) by {
                    assert(self.stores[slot].contains(other));
                }
            }
        }
    }

    /// Overwriting all values of a kind, one for one, keeps the registry
    /// well formed, every owner where it was and every revision as it was.
    pub proof fn lemma_set_components(self, kind: Kind, values: Seq<T>)
        requires
            self.wf(),
        ensures
            self.has_store(kind) ==> (self.set_components(kind, values).wf() <==> values.len()
                == self.store(kind).len()),
            !self.has_store(kind) ==> self.set_components(kind, values).wf(),
            self.evolves_to(self.set_components(kind, values)),
            self.set_components(kind, values).kinds == self.kinds,
            self.set_components(kind, values).revisions == self.revisions,
            forall|other: Kind| #[trigger]
                self.has_store(other) ==> self.set_components(kind, values).store(other).ids
                    == self.store(other).ids,
            self.tidy() ==> self.set_components(kind, values).tidy(),
    {
        let next = self.set_components(kind, values);
        if self.has_store(kind) {
            self.lemma_slot(kind);
            let at = self.slot(kind);
            assert(self.stores[at].wf());
            if values.len() == self.store(kind).len() {
                assert forall|slot: int| 0 <= slot < next.stores.len() implies (
                #[trigger] next.stores[slot]).wf() by {
                    assert(self.stores[slot].wf());
                }
            } else {
                assert(!next.stores[at].wf());
            }
            assert forall|other: Kind| #[trigger] self.has_store(other) implies {
                &&& next.has_store(other)
                &&& next.revision(other) == self.revision(other)
                &&& next.store(other).ids == self.store(other).ids
            } by {
                self.lemma_slot(other);
            }
            if self.tidy() {
                assert forall|slot: int, other: usize|
                    0 <= slot < next.stores.len() && (#[trigger] next.stores[slot].contains(
                        other,
                    )) implies next.entities.alive(other) by {
                    assert(self.stores[slot].contains(other));
                }
            }
        }
    }

    /// The entities that match depend on who owns a value in the stores
    /// asked about, and on nothing else.
    pub proof fn lemma_matching_by_owners(self, other: Self, kinds: Seq<Kind>)
        requires
            self.all_registered(kinds),
            other.all_registered(kinds),
            forall|j: int|
                0 <= j < kinds.len() ==> self.store(#[trigger] kinds[j]).ids == other.store(
                    kinds[j],
                ).ids,
        ensures
            self.matching(kinds) == other.matching(kinds),
    {
        if kinds.len() > 0 {
            let source = self.store(kinds[0]).ids;
            assert forall|i: int| 0 <= i < source.len() implies self.rest_filter(kinds)(
                #[trigger] source[i],
            ) == other.rest_filter(kinds)(source[i]) by {
                let id = source[i];
                if self.in_rest(kinds, id) {
                    assert forall|j: int| 1 <= j < kinds.len() implies other.store(
                        #[trigger] kinds[j],
                    ).contains(id) by {
                        assert(self.store(kinds[j]).contains(id));
                    }
                }
                if other.in_rest(kinds, id) {
                    assert forall|j: int| 1 <= j < kinds.len() implies self.store(
                        #[trigger] kinds[j],
                    ).contains(id) by {
                        assert(other.store(kinds[j]).contains(id));
                    }
                }
            }
            lemma_filter_agree(source, self.rest_filter(kinds), other.rest_filter(kinds));
        }
    }

    /// An entity that matches carries every kind asked for.
    pub proof fn lemma_matching_carries_all(self, kinds: Seq<Kind>, id: usize)
        requires
            self.matching(kinds).contains(id),
        ensures
            forall|j: int| 0 <= j < kinds.len() ==> self.holds(id, #[trigger] kinds[j]),
    {
        let source = self.store(kinds[0]).ids;
        let wanted = self.rest_filter(kinds);
        let at = self.matching(kinds).index_of(id);
        source.lemma_filter_pred(wanted, at);
        lemma_filter_within(source, wanted, id);
        assert forall|j: int| 0 <= j < kinds.len() implies self.holds(id, #[trigger] kinds[j]) by {
            if j > 0 {
                assert(self.store(kinds[j]).contains(id));
            }
        }
    }

    /// Asking for one kind gives the owners in its store, as they stand.
    pub proof fn lemma_matching_one(self, kind: Kind)
        requires
            self.has_store(kind),
        ensures
            self.matching(seq![kind]) == self.store(kind).ids,
    {
        let kinds = seq![kind];
        let source = self.store(kind).ids;
        assert(kinds[0] == kind);
        assert(self.all_registered(kinds));
        lemma_filter_all(source, self.rest_filter(kinds));
    }

    /// Asking for more kinds never gives more: what matches a list of kinds
    /// matches each of its beginnings.
    pub proof fn lemma_matching_narrows(self, kinds: Seq<Kind>, shorter: int, id: usize)
        requires
            1 <= shorter <= kinds.len(),
            self.matching(kinds).contains(id),
        ensures
            self.matching(kinds.take(shorter)).contains(id),
    {
        let fewer = kinds.take(shorter);
        let source = self.store(kinds[0]).ids;
        self.lemma_matching_carries_all(kinds, id);
        assert(self.holds(id, kinds[0]));
        assert(self.all_registered(fewer)) by {
            assert forall|j: int| 0 <= j < fewer.len() implies self.has_store(
                #[trigger] fewer[j],
            ) by {
                assert(self.has_store(kinds[j]));
            }
        }
        assert(self.in_rest(fewer, id)) by {
            assert forall|j: int| 1 <= j < fewer.len() implies self.store(
                #[trigger] fewer[j],
            ).contains(id) by {
                assert(self.holds(id, kinds[j]));
            }
        }
        assert(fewer[0] == kinds[0]);
        let at = source.index_of(id);
        source.lemma_filter_contains(self.rest_filter(fewer), at);
    }

    /// The entities that carry two kinds are among those that carry the
    /// first, and among the owners in the store of the second.
    pub proof fn lemma_pair_within_each(self, first: Kind, second: Kind, id: usize)
        requires
            self.matching(seq![first, second]).contains(id),
        ensures
            self.matching(seq![first]).contains(id),
            self.store(second).ids.contains(id),
    {
        let kinds = seq![first, second];
        self.lemma_matching_narrows(kinds, 1, id);
        assert(kinds.take(1) =~= seq![first]);
        self.lemma_matching_carries_all(kinds, id);
        assert(self.holds(id, kinds[1]));
    }
}

/// Two predicates that agree on the elements of a sequence keep the same
/// elements of it.
proof fn lemma_filter_agree<A>(s: Seq<A>, p: spec_fn(A) -> bool, q: spec_fn(A) -> bool)
    requires
        forall|i: int| 0 <= i < s.len() ==> p(#[trigger] s[i]) == q(s[i]),
    ensures
        s.filter(p) == s.filter(q),
    decreases s.len(),
{
    reveal(Seq::filter);
    if s.len() > 0 {
        lemma_filter_agree(s.drop_last(), p, q);
    }
}

/// What a filter keeps was in the sequence.
proof fn lemma_filter_within<A>(s: Seq<A>, p: spec_fn(A) -> bool, x: A)
    requires
        s.filter(p).contains(x),
    ensures
        s.contains(x),
    decreases s.len(),
{
    reveal(Seq::filter);
    if s.len() > 0 {
        let rest = s.drop_last().filter(p);
        if rest.contains(x) {
            lemma_filter_within(s.drop_last(), p, x);
            let at = s.drop_last().index_of(x);
            assert(s[at] == x);
        } else {
            let at = s.filter(p).index_of(x);
            assert(s[s.len() - 1] == x);
        }
    }
}

/// A predicate that holds of every element keeps the whole sequence.
proof fn lemma_filter_all<A>(s: Seq<A>, p: spec_fn(A) -> bool)
    requires
        forall|i: int| 0 <= i < s.len() ==> p(#[trigger] s[i]),
    ensures
        s.filter(p) == s,
    decreases s.len(),
{
    reveal(Seq::filter);
    if s.len() > 0 {
        lemma_filter_all(s.drop_last(), p);
        assert(s.drop_last().push(s.last()) =~= s);
    }
}

} // verus!
