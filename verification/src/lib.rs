//! Incremental maintenance of a topologically ordered view of a dynamic
//! parent/child relation over opaque entity handles.
//!
//! The [`Hierarchy`] index keeps a flat sequence of all linked entities in
//! which every parent appears before its descendants, together with an
//! adjacency map of immediate children, a current-parent map, and an
//! append-only change log. One call to [`Hierarchy::maintain`] consumes a
//! batch of link insertions, modifications and removals and brings the index
//! back into a consistent, sorted state without a full re-sort.
//!
//! A cyclic parent relation is an explicit precondition violation: the index
//! performs no cycle detection, and its contracts exclude inputs that would
//! make the link relation cyclic.

mod bits;
mod channel;
mod data;
mod entity;
mod hierarchy;
mod link;
mod laws;
mod state;
mod system;
mod tick;

pub use bits::bitset_view;
pub use channel::channel_log;
pub use channel::reader_seen;
pub use data::link_lookup;
pub use data::ParentData;
pub use entity::distinct_entities;
pub use entity::Entity;
pub use entity::HierarchyEvent;
pub use hierarchy::Hierarchy;
pub use hierarchy::SubHierarchyIterator;
pub use laws::lemma_cascading_removal;
pub use laws::lemma_descendants_after;
pub use laws::lemma_desc_from_props;
pub use laws::lemma_subtree_iteration;
pub use laws::lemma_topological_invariant;
pub use link::Parent;
pub use link::ParentLink;
pub use state::HierarchyState;
pub use system::HierarchySetupHandler;
pub use system::HierarchySystem;
pub use tick::dirty_seed;
pub use tick::doomed_at;
pub use tick::modified_events_ok;
pub use tick::notified;
pub use tick::purged;
pub use tick::removal_events_ok;
pub use tick::seeded;
pub use tick::survivor;
pub use tick::tick_acyclic;
pub use tick::tick_edge;
pub use tick::tick_reaches;
