//! Per-tick input for the maintenance pass.

use vstd::prelude::*;
use crate::entity::Entity;
use crate::link::Parent;

verus! {

/// The first link value recorded for `e` in `s`, if any.
pub open spec fn link_lookup<P: Parent>(s: Seq<(Entity, P)>, e: Entity) -> Option<P>
    decreases s.len(),
{
    if s.len() == 0 {
        None
    } else if s[0].0 == e {
        Some(s[0].1)
    } else {
        link_lookup(s.drop_first(), e)
    }
}

/// The data consumed by one [`crate::Hierarchy::maintain`] call: the live
/// entity set, the link lookup, and the three change-feed sets of the tick.
pub struct ParentData<P> {
    /// All entities that are currently alive.
    pub alive: Vec<Entity>,
    /// The current link component of every entity that carries one.
    pub links: Vec<(Entity, P)>,
    /// Entities whose link component was inserted this tick.
    pub inserted: Vec<Entity>,
    /// Entities whose link component was modified this tick.
    pub modified: Vec<Entity>,
    /// Entities whose link component was removed this tick.
    pub removed: Vec<Entity>,
}

impl<P: Parent> ParentData<P> {
    /// Is `e` alive this tick?
    pub open spec fn is_alive(self, e: Entity) -> bool {
        self.alive@.contains(e)
    }

    /// Does `e` carry a link this tick?
    pub open spec fn has_link(self, e: Entity) -> bool {
        link_lookup(self.links@, e) is Some
    }

    /// The parent entity `e`'s link resolves to (meaningful when
    /// `has_link(e)`).
    pub open spec fn link_parent(self, e: Entity) -> Entity {
        link_lookup(self.links@, e).unwrap().parent_spec()
    }

    /// Is `e` alive and linked, so that an inserted or modified event for it
    /// takes effect this tick?
    pub open spec fn applicable(self, e: Entity) -> bool {
        self.is_alive(e) && self.has_link(e)
    }

    /// Look up the parent entity `e` currently links to.
    pub fn parent_link_of(&self, e: Entity) -> (r: Option<Entity>)
        ensures
            r == (if self.has_link(e) {
                Some(self.link_parent(e))
            } else {
                None::<Entity>
            }),
    {
        let n = self.links.len();
        let mut i: usize = 0;
        assert(self.links@.skip(0) =~= self.links@);
        while i < n
            invariant
                0 <= i <= n,
                n == self.links@.len(),
                link_lookup(self.links@, e) == link_lookup(self.links@.skip(i as int), e),
            decreases n - i,
        {
            assert(self.links@.skip(i as int)[0] == self.links@[i as int]);
            if self.links[i].0.id == e.id {
                assert(self.links@[i as int].0 == e);
                return Some(self.links[i].1.parent_entity());
            }
            assert(self.links@.skip(i as int).drop_first() =~= self.links@.skip(i + 1));
            i = i + 1;
        }
        assert(self.links@.skip(n as int) =~= Seq::<(Entity, P)>::empty());
        None
    }

    /// Is `e` in the live entity set?
    pub fn alive_now(&self, e: Entity) -> (r: bool)
        ensures
            r == self.is_alive(e),
    {
        let n = self.alive.len();
        let mut i: usize = 0;
        while i < n
            invariant
                0 <= i <= n,
                n == self.alive@.len(),
                forall|j: int| 0 <= j < i ==> self.alive@[j] != e,
            decreases n - i,
        {
            if self.alive[i].id == e.id {
                assert(self.alive@[i as int] == e);
                return true;
            }
            i = i + 1;
        }
        assert(forall|j: int| 0 <= j < self.alive@.len() ==> self.alive@[j] != e);
        false
    }
}

} // verus!
