//! The parent-link component abstraction.

use vstd::prelude::*;
use crate::entity::Entity;

verus! {

/// Bound for the link component type that drives a [`crate::Hierarchy`].
///
/// A value of the component is attached, by the surrounding world, to an
/// entity that *has* a parent; the value yields the parent entity.
pub trait Parent: Sized {
    /// The parent entity this link value resolves to.
    spec fn parent_spec(&self) -> Entity;

    /// Retrieves the parent entity.
    fn parent_entity(&self) -> (e: Entity)
        ensures
            e == self.parent_spec(),
    ;
}

/// The plainest link component: it stores the parent entity directly.
#[derive(Clone, Copy, Debug, PartialEq, Eq, Structural)]
pub struct ParentLink {
    /// The parent entity.
    pub entity: Entity,
}

impl Parent for ParentLink {
    open spec fn parent_spec(&self) -> Entity {
        self.entity
    }

    fn parent_entity(&self) -> Entity {
        self.entity
    }
}

} // verus!
