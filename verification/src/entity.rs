//! Entity handles and hierarchy change events.

use vstd::prelude::*;

verus! {

/// An opaque handle identifying one participant of the hierarchy.
///
/// The index never creates or destroys entities; the surrounding world owns
/// them and supplies them as plain tokens. Two handles denote the same
/// entity exactly when their ids are equal.
#[derive(Clone, Copy, Debug, PartialEq, Eq, Structural, Hash)]
pub struct Entity {
    /// The uniqueness token of this entity.
    pub id: u32,
}

impl Entity {
    /// Build a handle from its id.
    pub fn new(id: u32) -> (e: Entity)
        ensures
            e.id == id,
    {
        Entity { id }
    }
}

/// No entity occurs twice in `s`.
pub open spec fn distinct_entities(s: Seq<Entity>) -> bool {
    forall|i: int, j: int| 0 <= i < j < s.len() ==> s[i] != s[j]
}

/// Events appended to the internal change log of the `Hierarchy`.
#[derive(Clone, Copy, Debug, PartialEq, Eq, Structural, Hash)]
pub enum HierarchyEvent {
    /// The entity was inserted into the hierarchy, or its place in it changed.
    Modified(Entity),
    /// The entity is no longer part of the hierarchy. The surrounding world
    /// may still know the entity itself; only its tracked link is gone.
    Removed(Entity),
}

} // verus!
