//! The query cache: for each combination of kinds asked for, the entities
//! that matched when the list was last built, and the revision that each kind
//! had at that moment. A list is built again when a revision has moved.

use crate::entity_manager::EntityManager;
use crate::registry::{Kind, Registry};
use vstd::prelude::*;

verus! {

/// One remembered query: the kinds asked for, in the order given, the
/// matching entities, and the revision of each kind when the list was built.
pub struct CachedQuery {
    pub key: Seq<Kind>,
    pub ids: Seq<usize>,
    /// `revisions[j]` is the revision that `key[j]` had.
    pub revisions: Seq<u64>,
}

/// The state of a query cache: one remembered query per key.
pub struct QueryCache {
    pub entries: Seq<CachedQuery>,
}

impl CachedQuery {
    /// The answer to `key`, computed from `registry` as it stands.
    pub open spec fn built<T>(registry: Registry<T>, key: Seq<Kind>) -> Self {
        CachedQuery { key, ids: registry.matching(key), revisions: registry.snapshot(key) }
    }

    /// Whether the remembered list may be served: every kind of the key
    /// still has the revision that it had when the list was built. A
    /// revision at the top of its range vouches for nothing, since changes
    /// no longer move it.
    pub open spec fn current<T>(self, registry: Registry<T>) -> bool {
        forall|j: int|
            0 <= j < self.key.len() ==> #[trigger] self.revisions[j] == registry.revision(
                self.key[j],
            ) && self.revisions[j] < u64::MAX
    }

    /// The remembered query belongs to `registry`: its kinds are registered,
    /// no remembered revision is ahead of the registry, and if the list may
    /// be served it is what a new computation gives.
    pub open spec fn coherent<T>(self, registry: Registry<T>) -> bool {
        &&& registry.all_registered(self.key)
        &&& self.revisions.len() == self.key.len()
        &&& forall|j: int|
            0 <= j < self.key.len() ==> #[trigger] self.revisions[j] <= registry.revision(
                self.key[j],
            )
        &&& self.current(registry) ==> self.ids == registry.matching(self.key)
    }
}

impl QueryCache {
    /// Each entry has one revision per kind of its key, and no two entries
    /// share a key.
    pub open spec fn wf(self) -> bool {
        &&& forall|i: int|
            0 <= i < self.entries.len() ==> (#[trigger] self.entries[i]).revisions.len()
                == self.entries[i].key.len()
        &&& forall|i: int, j: int|
            0 <= i < j < self.entries.len() ==> (#[trigger] self.entries[i]).key
                != (#[trigger] self.entries[j]).key
    }

    pub open spec fn empty() -> Self {
        QueryCache { entries: Seq::empty() }
    }

    /// Whether a list is remembered for `key`. The order of the kinds
    /// counts.
    pub open spec fn has_entry(self, key: Seq<Kind>) -> bool {
        exists|i: int| 0 <= i < self.entries.len() && (#[trigger] self.entries[i]).key == key
    }

    /// Where the entry for `key` sits.
    pub open spec fn index_of(self, key: Seq<Kind>) -> int {
        choose|i: int| 0 <= i < self.entries.len() && (#[trigger] self.entries[i]).key == key
    }

    /// The entry for `key`, where there is one.
    pub open spec fn entry(self, key: Seq<Kind>) -> CachedQuery {
        self.entries[self.index_of(key)]
    }

    /// The cache after `key` is asked for against `registry`. Nothing
    /// changes if a kind of the key is not registered. A key asked for the
    /// first time gets an entry. An entry that may not be served is built
    /// again, list and revisions; one that may be served stays.
    pub open spec fn refresh<T>(self, registry: Registry<T>, key: Seq<Kind>) -> Self {
        if !registry.all_registered(key) {
            self
        } else if !self.has_entry(key) {
            QueryCache { entries: self.entries.push(CachedQuery::built(registry, key)) }
        } else if self.entry(key).current(registry) {
            self
        } else {
            QueryCache {
                entries: self.entries.update(
                    self.index_of(key),
                    CachedQuery::built(registry, key),
                ),
            }
        }
    }

    /// Every remembered query belongs to `registry`.
    pub open spec fn coherent<T>(self, registry: Registry<T>) -> bool {
        forall|i: int|
            0 <= i < self.entries.len() ==> (#[trigger] self.entries[i]).coherent(registry)
    }

    /// An entry sits where `index_of` says.
    pub proof fn lemma_index_of(self, at: int)
        requires
            self.wf(),
            0 <= at < self.entries.len(),
        ensures
            self.has_entry(self.entries[at].key),
            self.index_of(self.entries[at].key) == at,
    {
        let key = self.entries[at].key;
        let found = self.index_of(key);
        if found < at {
            assert(self.entries[found].key != self.entries[at].key);
        } else if at < found {
            assert(self.entries[at].key != self.entries[found].key);
        }
    }

    /// Asking keeps the cache well formed and leaves an entry for the key,
    /// and every other entry as it was. On a cache that belongs to the
    /// registry, the list then remembered for the key is what a new
    /// computation gives, and the cache still belongs to the registry.
    pub proof fn lemma_refresh<T>(self, registry: Registry<T>, key: Seq<Kind>)
        requires
            self.wf(),
        ensures
            self.refresh(registry, key).wf(),
            registry.all_registered(key) ==> self.refresh(registry, key).has_entry(key),
            forall|other: Seq<Kind>|
                other != key && self.has_entry(other) ==> self.refresh(registry, key).has_entry(
                    other,
                ) && self.refresh(registry, key).entry(other) == self.entry(other),
            self.coherent(registry) ==> self.refresh(registry, key).coherent(registry),
            self.coherent(registry) && registry.all_registered(key) ==> self.refresh(
                registry,
                key,
            ).entry(key).ids == registry.matching(key),
    {
        let next = self.refresh(registry, key);
        let built = CachedQuery::built(registry, key);
        if registry.all_registered(key) {
            if !self.has_entry(key) {
                let at = self.entries.len() as int;
                assert(next.entries[at] == built);
                assert forall|i: int, j: int| 0 <= i < j < next.entries.len() implies (
                #[trigger] next.entries[i]).key != (#[trigger] next.entries[j]).key by {
                    if j == at {
                        assert(self.entries[i].key != key);
                    }
                }
                next.lemma_index_of(at);
                assert forall|other: Seq<Kind>| other != key && self.has_entry(other) implies next.has_entry(
                    other,
                ) && next.entry(other) == self.entry(other) by {
                    let i = self.index_of(other);
                    assert(next.entries[i] == self.entries[i]);
                    next.lemma_index_of(i);
                }
            } else {
                let at = self.index_of(key);
                if !self.entry(key).current(registry) {
                    assert(next.entries[at] == built);
                    assert forall|i: int, j: int| 0 <= i < j < next.entries.len() implies (
                    #[trigger] next.entries[i]).key != (#[trigger] next.entries[j]).key by {
                        assert(self.entries[i].key != self.entries[j].key);
                    }
                    next.lemma_index_of(at);
                    assert forall|other: Seq<Kind>|
                        other != key && self.has_entry(other) implies next.has_entry(other)
                        && next.entry(other) == self.entry(other) by {
                        let i = self.index_of(other);
                        assert(next.entries[i] == self.entries[i]);
                        next.lemma_index_of(i);
                    }
                }
            }
        }
    }
}

impl CachedQuery {
    /// A remembered query that belongs to a registry belongs to every later
    /// state of it: either a revision has moved and the list is no longer
    /// served, or no store asked about has gained or lost an owner.
    pub proof fn lemma_coherent_evolves<T>(self, before: Registry<T>, after: Registry<T>)
        requires
            self.coherent(before),
            before.evolves_to(after),
        ensures
            self.coherent(after),
    {
        assert forall|j: int| 0 <= j < self.key.len() implies after.has_store(
            #[trigger] self.key[j],
        ) by {
            assert(before.has_store(self.key[j]));
        }
        assert forall|j: int| 0 <= j < self.key.len() implies #[trigger] self.revisions[j]
            <= after.revision(self.key[j]) by {
            assert(before.has_store(self.key[j]));
        }
        if self.current(after) {
            assert forall|j: int| 0 <= j < self.key.len() implies #[trigger] self.revisions[j]
                == before.revision(self.key[j]) && self.revisions[j] < u64::MAX by {
                assert(before.has_store(self.key[j]));
            }
            assert forall|j: int| 0 <= j < self.key.len() implies before.store(
                #[trigger] self.key[j],
            ).ids == after.store(self.key[j]).ids by {
                assert(before.has_store(self.key[j]));
                assert(self.revisions[j] == before.revision(self.key[j]));
            }
            before.lemma_matching_by_owners(after, self.key);
        }
    }
}

impl QueryCache {
    /// A cache that belongs to a registry belongs to every later state of
    /// it, whatever was done to the registry in between.
    pub proof fn lemma_coherent_evolves<T>(self, before: Registry<T>, after: Registry<T>)
        requires
            self.coherent(before),
            before.evolves_to(after),
        ensures
            self.coherent(after),
    {
        assert forall|i: int| 0 <= i < self.entries.len() implies (
        #[trigger] self.entries[i]).coherent(after) by {
            self.entries[i].lemma_coherent_evolves(before, after);
        }
    }
}

/// One remembered query as it is stored.
struct CacheEntry {
    key: Vec<Kind>,
    ids: Vec<usize>,
    revisions: Vec<u64>,
}

impl View for CacheEntry {
    type V = CachedQuery;

    closed spec fn view(&self) -> CachedQuery {
        CachedQuery { key: self.key@, ids: self.ids@, revisions: self.revisions@ }
    }
}

/// Whether two keys name the same kinds in the same order.
fn same_key(left: &Vec<Kind>, right: &Vec<Kind>) -> (same: bool)
    ensures
        same == (left@ == right@),
{
    if left.len() != right.len() {
        return false;
    }
    let mut j: usize = 0;
    while j < left.len()
        invariant
            j <= left.len(),
            left.len() == right.len(),
            forall|i: int| 0 <= i < j ==> left@[i] == right@[i],
        decreases left.len() - j,
    {
        if left[j] != right[j] {
            return false;
        }
        j += 1;
    }
    assert(left@ =~= right@);
    true
}

/// Hands out the entities that carry a given combination of kinds, from a
/// list remembered per combination. A remembered list is served as long as
/// no kind of the combination has changed its revision; otherwise the list is
/// computed anew.
pub struct EntityIdAccessor {
    entries: Vec<CacheEntry>,
}

impl View for EntityIdAccessor {
    type V = QueryCache;

    closed spec fn view(&self) -> QueryCache {
        QueryCache { entries: Seq::new(self.entries@.len(), |i: int| self.entries@[i]@) }
    }
}

impl EntityIdAccessor {
    /// The cache is in good order when its state is.
    pub open spec fn wf(&self) -> bool {
        self@.wf()
    }

    pub fn new() -> (accessor: Self)
        ensures
            accessor.wf(),
            accessor@ == QueryCache::empty(),
    {
        let accessor = EntityIdAccessor { entries: Vec::new() };
        assert(accessor@.entries =~= Seq::empty());
        accessor
    }

    /// Where the entry for `key` sits, if there is one.
    fn find(&self, key: &Vec<Kind>) -> (found: Option<usize>)
        requires
            self.wf(),
        ensures
            found is Some <==> self@.has_entry(key@),
            found matches Some(at) ==> at == self@.index_of(key@) && at < self.entries@.len(),
    {
        let mut at: usize = 0;
        while at < self.entries.len()
            invariant
                at <= self.entries.len(),
                self.wf(),
                forall|i: int| 0 <= i < at ==> (#[trigger] self@.entries[i]).key != key@,
            decreases self.entries.len() - at,
        {
            if same_key(&self.entries[at].key, key) {
                proof {
                    assert(self@.entries[at as int].key == key@);
                    self@.lemma_index_of(at as int);
                }
                return Some(at);
            }
            at += 1;
        }
        None
    }

    /// Whether the entry at `at` may be served against `manager`.
    fn is_current<T>(&self, at: usize, manager: &EntityManager<T>) -> (current: bool)
        requires
            self.wf(),
            manager.wf(),
            at < self.entries@.len(),
            manager@.all_registered(self@.entries[at as int].key),
        ensures
            current == self@.entries[at as int].current(manager@),
    {
        let entry = &self.entries[at];
        assert(entry@ == self@.entries[at as int]);
        let mut j: usize = 0;
        while j < entry.key.len()
            invariant
                j <= entry.key.len(),
                manager.wf(),
                manager@.all_registered(entry@.key),
                entry@.revisions.len() == entry@.key.len(),
                entry@ == self@.entries[at as int],
                entry@.key == entry.key@,
                entry@.revisions == entry.revisions@,
                forall|i: int|
                    0 <= i < j ==> #[trigger] entry@.revisions[i] == manager@.revision(
                        entry@.key[i],
                    ) && entry@.revisions[i] < u64::MAX,
            decreases entry.key.len() - j,
        {
            let remembered: u64 = entry.revisions[j];
            if remembered == u64::MAX || remembered != manager.get_revision(entry.key[j]) {
                assert(entry@.revisions[j as int] == remembered);
                return false;
            }
            j += 1;
        }
        true
    }

    /// The entities that carry every kind of `key`, in the dense order of the
    /// store of the first kind, if every kind of the key is registered. The
    /// list comes from the cache where the cache may serve it, and is
    /// computed and remembered where not.
    pub fn borrow_ids_for<T>(&mut self, manager: &EntityManager<T>, key: Vec<Kind>) -> (ids: Option<
        &Vec<usize>,
    >)
        requires
            old(self).wf(),
            manager.wf(),
        ensures
            final(self).wf(),
            final(self)@ == old(self)@.refresh(manager@, key@),
            ids is Some <==> manager@.all_registered(key@),
            ids matches Some(list) ==> list@ == final(self)@.entry(key@).ids,
            old(self)@.coherent(manager@) ==> final(self)@.coherent(manager@),
            old(self)@.coherent(manager@) ==> (ids matches Some(list) ==> list@
                == manager@.matching(key@)),
    {
        proof {
            old(self)@.lemma_refresh(manager@, key@);
        }
        if !manager.has_component_managers(&key) {
            return None;
        }
        let at: usize = match self.find(&key) {
            Some(at) => {
                if !self.is_current(at, manager) {
                    let ids = manager.ids_matching_all(&key);
                    let revisions = manager.get_revisions(&key);
                    self.entries[at] = CacheEntry { key, ids, revisions };
                    assert(self@.entries =~= old(self)@.refresh(manager@, key@).entries);
                }
                at
            },
            None => {
                let ids = manager.ids_matching_all(&key);
                let revisions = manager.get_revisions(&key);
                self.entries.push(CacheEntry { key, ids, revisions });
                assert(self@.entries =~= old(self)@.refresh(manager@, key@).entries);
                self.entries.len() - 1
            },
        };
        proof {
            self@.lemma_index_of(at as int);
        }
        Some(&self.entries[at].ids)
    }

    /// The entities that carry `kind`, if it is registered.
    pub fn borrow_ids<T>(&mut self, manager: &EntityManager<T>, kind: Kind) -> (ids: Option<
        &Vec<usize>,
    >)
        requires
            old(self).wf(),
            manager.wf(),
        ensures
            final(self).wf(),
            final(self)@ == old(self)@.refresh(manager@, seq![kind]),
            ids is Some <==> manager@.has_store(kind),
            ids matches Some(list) ==> list@ == final(self)@.entry(seq![kind]).ids,
            old(self)@.coherent(manager@) ==> final(self)@.coherent(manager@),
            old(self)@.coherent(manager@) ==> (ids matches Some(list) ==> list@
                == manager@.matching(seq![kind])),
    {
        let key = vec![kind];
        proof {
            assert(key@ =~= seq![kind]);
            assert(manager@.all_registered(key@) <==> manager@.has_store(kind)) by {
                if manager@.all_registered(key@) {
                    assert(key@[0] == kind);
                }
            }
        }
        self.borrow_ids_for(manager, key)
    }

    /// The entities that carry both kinds, in the dense order of the store
    /// of `kind1`, if both are registered.
    pub fn borrow_ids_for_pair<T>(&mut self, manager: &EntityManager<T>, kind1: Kind, kind2: Kind) -> (ids:
        Option<&Vec<usize>>)
        requires
            old(self).wf(),
            manager.wf(),
        ensures
            final(self).wf(),
            final(self)@ == old(self)@.refresh(manager@, seq![kind1, kind2]),
            ids is Some <==> manager@.has_store(kind1) && manager@.has_store(kind2),
            ids matches Some(list) ==> list@ == final(self)@.entry(seq![kind1, kind2]).ids,
            old(self)@.coherent(manager@) ==> final(self)@.coherent(manager@),
            old(self)@.coherent(manager@) ==> (ids matches Some(list) ==> list@
                == manager@.matching(seq![kind1, kind2])),
    {
        let key = vec![kind1, kind2];
        proof {
            assert(key@ =~= seq![kind1, kind2]);
            assert(manager@.all_registered(key@) <==> manager@.has_store(kind1)
                && manager@.has_store(kind2)) by {
                if manager@.all_registered(key@) {
                    assert(key@[0] == kind1);
                    assert(key@[1] == kind2);
                }
            }
        }
        self.borrow_ids_for(manager, key)
    }

    /// The entities that carry all three kinds, in the dense order of the
    /// store of `kind1`, if all three are registered.
    pub fn borrow_ids_for_triple<T>(
        &mut self,
        manager: &EntityManager<T>,
        kind1: Kind,
        kind2: Kind,
        kind3: Kind,
    ) -> (ids: Option<&Vec<usize>>)
        requires
            old(self).wf(),
            manager.wf(),
        ensures
            final(self).wf(),
            final(self)@ == old(self)@.refresh(manager@, seq![kind1, kind2, kind3]),
            ids is Some <==> manager@.has_store(kind1) && manager@.has_store(kind2)
                && manager@.has_store(kind3),
            ids matches Some(list) ==> list@ == final(self)@.entry(seq![kind1, kind2, kind3]).ids,
            old(self)@.coherent(manager@) ==> final(self)@.coherent(manager@),
            old(self)@.coherent(manager@) ==> (ids matches Some(list) ==> list@
                == manager@.matching(seq![kind1, kind2, kind3])),
    {
        let key = vec![kind1, kind2, kind3];
        proof {
            assert(key@ =~= seq![kind1, kind2, kind3]);
            assert(manager@.all_registered(key@) <==> manager@.has_store(kind1)
                && manager@.has_store(kind2) && manager@.has_store(kind3)) by {
                if manager@.all_registered(key@) {
                    assert(key@[0] == kind1);
                    assert(key@[1] == kind2);
                    assert(key@[2] == kind3);
                }
            }
        }
        self.borrow_ids_for(manager, key)
    }

    /// The entities that carry all four kinds, in the dense order of the
    /// store of `kind1`, if all four are registered.
    pub fn borrow_ids_for_quad<T>(
        &mut self,
        manager: &EntityManager<T>,
        kind1: Kind,
        kind2: Kind,
        kind3: Kind,
        kind4: Kind,
    ) -> (ids: Option<&Vec<usize>>)
        requires
            old(self).wf(),
            manager.wf(),
        ensures
            final(self).wf(),
            final(self)@ == old(self)@.refresh(manager@, seq![kind1, kind2, kind3, kind4]),
            ids is Some <==> manager@.has_store(kind1) && manager@.has_store(kind2)
                && manager@.has_store(kind3) && manager@.has_store(kind4),
            ids matches Some(list) ==> list@ == final(self)@.entry(
                seq![kind1, kind2, kind3, kind4],
            ).ids,
            old(self)@.coherent(manager@) ==> final(self)@.coherent(manager@),
            old(self)@.coherent(manager@) ==> (ids matches Some(list) ==> list@
                == manager@.matching(seq![kind1, kind2, kind3, kind4])),
    {
        let key = vec![kind1, kind2, kind3, kind4];
        proof {
            assert(key@ =~= seq![kind1, kind2, kind3, kind4]);
            assert(manager@.all_registered(key@) <==> manager@.has_store(kind1)
                && manager@.has_store(kind2) && manager@.has_store(kind3) && manager@.has_store(
                kind4,
            )) by {
                if manager@.all_registered(key@) {
                    assert(key@[0] == kind1);
                    assert(key@[1] == kind2);
                    assert(key@[2] == kind3);
                    assert(key@[3] == kind4);
                }
            }
        }
        self.borrow_ids_for(manager, key)
    }
}

} // verus!
