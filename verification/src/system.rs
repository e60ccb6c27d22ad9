//! The maintenance step packaged as a system, and the setup handler that
//! installs the hierarchy resource on first use.

use vstd::prelude::*;
use core::marker::PhantomData;
use crate::entity::Entity;
use crate::entity::HierarchyEvent;
use crate::entity::distinct_entities;
use crate::hierarchy::Hierarchy;
use crate::data::ParentData;
use crate::link::Parent;
use crate::state::HierarchyState;
use crate::tick::dirty_seed;
use crate::tick::notified;
use crate::tick::purged;
use crate::tick::survivor;
use crate::tick::tick_acyclic;

verus! {

/// System for maintaining a [`Hierarchy`] resource.
///
/// The surrounding scheduler runs it once per tick with the tick's change
/// feed, link lookup and live entity set.
pub struct HierarchySystem<P> {
    m: PhantomData<P>,
}

impl<P: Parent> HierarchySystem<P> {
    /// Create the system.
    pub fn new() -> (s: HierarchySystem<P>) {
        HierarchySystem { m: PhantomData }
    }

    /// Run one maintenance tick over `hierarchy`; see
    /// [`Hierarchy::maintain`] for the obligations on `data`.
    pub fn run(&mut self, hierarchy: &mut Hierarchy<P>, data: ParentData<P>)
        requires
            old(hierarchy).wf(),
            distinct_entities(data.inserted@),
            distinct_entities(data.modified@),
            distinct_entities(data.removed@),
            forall|e: Entity|
                data.inserted@.contains(e) && data.applicable(e) && old(
                    hierarchy,
                )@.pos.contains_key(e.id) ==> data.removed@.contains(e),
            tick_acyclic(old(hierarchy)@, data),
        ensures
            final(hierarchy).wf(),
            forall|e: Entity| #[trigger] final(hierarchy)@.pos.contains_key(e.id)
                <==> (survivor(old(hierarchy)@, data, e) || (data.inserted@.contains(e)
                    && data.applicable(e))),
            forall|e: Entity| #[trigger] final(hierarchy)@.pos.contains_key(e.id)
                ==> final(hierarchy)@.parent.contains_key(e.id) && final(hierarchy)@.parent[e.id]
                    == (if (data.inserted@.contains(e) || data.modified@.contains(e))
                    && data.applicable(e) {
                    data.link_parent(e)
                } else {
                    old(hierarchy)@.parent[e.id]
                }),
            final(hierarchy)@.log.len() >= old(hierarchy)@.log.len(),
            final(hierarchy)@.log.take(old(hierarchy)@.log.len() as int) == old(hierarchy)@.log,
            forall|e: Entity| #[trigger] final(hierarchy)@.log.skip(
                old(hierarchy)@.log.len() as int,
            ).contains(HierarchyEvent::Removed(e)) <==> purged(old(hierarchy)@, data, e),
            forall|e: Entity| #[trigger] final(hierarchy)@.log.skip(
                old(hierarchy)@.log.len() as int,
            ).contains(HierarchyEvent::Modified(e)) <==> (final(hierarchy)@.pos.contains_key(e.id)
                && notified(
                final(hierarchy)@,
                Set::new(|e2: Entity| dirty_seed(old(hierarchy)@, data, e2)),
                final(hierarchy)@.pos[e.id],
            )),
            (data.inserted@.len() == 0 && data.modified@.len() == 0 && data.removed@.len() == 0 && (
            forall|j: int|
                0 <= j < old(hierarchy)@.ext.len() ==> data.is_alive(
                    #[trigger] old(hierarchy)@.ext[j],
                ))) ==> final(hierarchy)@ == old(hierarchy)@,
    {
        hierarchy.maintain(data);
    }
}

/// Setup handler for the [`Hierarchy`] resource: installs a fresh, empty
/// hierarchy into the surrounding world's resource slot on first use.
pub struct HierarchySetupHandler<P> {
    _m: PhantomData<P>,
}

impl<P: Parent> HierarchySetupHandler<P> {
    /// Install a fresh, empty hierarchy if the slot holds none yet.
    pub fn setup(res: &mut Option<Hierarchy<P>>)
        ensures
            (*final(res)) is Some,
            (*old(res)) is Some ==> *final(res) == *old(res),
            (*old(res)) is None ==> {
                let h = (*final(res)).unwrap();
                &&& h.wf()
                &&& h@.order == Seq::<Entity>::empty()
                &&& h@.log == Seq::<HierarchyEvent>::empty()
                &&& h@.ext == Seq::<Entity>::empty()
                &&& h@.parent == Map::<u32, Entity>::empty()
                &&& h@.kids == Map::<u32, Seq<Entity>>::empty()
            },
    {
        if res.is_none() {
            *res = Some(Hierarchy::new());
        }
    }
}

} // verus!
