//! The callback that a world runs once per tick.

use crate::entity_manager::EntityManager;
use crate::query_cache::EntityIdAccessor;
use crate::world::Session;
use vstd::prelude::*;

verus! {

/// A piece of per-tick logic. The world hands each system its registry and
/// its query cache in turn; a system may use every operation of both, and
/// hands them back in good order: well formed, the cache still belonging to
/// the registry, and the tick counter where it was.
pub trait System<T> {
    /// What one run of the system, as it stands, may make of a session. A
    /// system that says nothing promises nothing beyond good order.
    open spec fn effect(&self, before: Session<T>, after: Session<T>) -> bool {
        true
    }

    /// Runs the system once.
    fn update(&mut self, manager: &mut EntityManager<T>, accessor: &mut EntityIdAccessor)
        requires
            old(manager).wf(),
            old(accessor).wf(),
            old(accessor)@.coherent(old(manager)@),
        ensures
            final(manager).wf(),
            final(accessor).wf(),
            final(accessor)@.coherent(final(manager)@),
            final(manager)@.frame == old(manager)@.frame,
            old(self).effect(
                Session { registry: old(manager)@, cache: old(accessor)@ },
                Session { registry: final(manager)@, cache: final(accessor)@ },
            ),
    ;
}

} // verus!
