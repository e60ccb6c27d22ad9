//! The mathematical model of the hierarchy index.
//!
//! A [`crate::Hierarchy`] is abstracted as a [`HierarchyState`]: the sorted
//! sequence, the position, parent and children maps, the set of external
//! parents, and the log of change events. All public contracts of the
//! library speak about this model.

use vstd::prelude::*;
use crate::entity::Entity;
use crate::entity::HierarchyEvent;

verus! {

/// Abstract state of a hierarchy index.
pub ghost struct HierarchyState {
    /// The topologically sorted sequence: every linked entity appears once,
    /// and every parent appears before all of its descendants.
    pub order: Seq<Entity>,
    /// Position in `order` of each linked entity, keyed by entity id.
    pub pos: Map<u32, int>,
    /// The current resolved parent of each linked entity, keyed by id.
    pub parent: Map<u32, Entity>,
    /// Immediate children, in registration order, keyed by the parent's id.
    pub kids: Map<u32, Seq<Entity>>,
    /// Parents that do not themselves carry a link but have linked children.
    pub ext: Seq<Entity>,
    /// All change events ever appended to the notification log.
    pub log: Seq<HierarchyEvent>,
}

impl HierarchyState {
    /// Is `e` currently tracked by the index (has a link and a position)?
    pub open spec fn is_linked(self, e: Entity) -> bool {
        self.pos.contains_key(e.id)
    }

    /// Position of a linked entity in the sorted sequence.
    pub open spec fn index_of(self, e: Entity) -> int {
        self.pos[e.id]
    }

    /// The recorded parent of a linked entity.
    pub open spec fn parent_of(self, e: Entity) -> Entity {
        self.parent[e.id]
    }

    /// The immediate children recorded under id `id` (empty if none).
    pub open spec fn kids_of(self, id: u32) -> Seq<Entity> {
        if self.kids.contains_key(id) {
            self.kids[id]
        } else {
            Seq::empty()
        }
    }

    /// The sequence and the position map are inverse to each other; in
    /// particular every entity occurs in the sequence at most once.
    pub open spec fn inv_positions(self) -> bool {
        &&& forall|i: int|
            0 <= i < self.order.len() ==> {
                &&& self.pos.contains_key((#[trigger] self.order[i]).id)
                &&& self.pos[self.order[i].id] == i
            }
        &&& forall|id: u32|
            #[trigger] self.pos.contains_key(id) ==> {
                &&& 0 <= self.pos[id] < self.order.len()
                &&& self.order[self.pos[id]].id == id
            }
    }

    /// Exactly the linked entities have a recorded parent.
    pub open spec fn inv_parent_dom(self) -> bool {
        &&& forall|id: u32|
            #[trigger] self.parent.contains_key(id) ==> self.pos.contains_key(id)
        &&& forall|id: u32|
            #[trigger] self.pos.contains_key(id) ==> self.parent.contains_key(id)
    }

    /// Topological order: a linked entity's parent, when itself linked,
    /// appears strictly earlier in the sequence.
    pub open spec fn inv_topo(self) -> bool {
        forall|id: u32| #[trigger] self.pos.contains_key(id) ==> self.edge_ordered(id)
    }

    /// The parent edge of the linked entity `id` respects the sort order.
    pub open spec fn edge_ordered(self, id: u32) -> bool {
        self.pos.contains_key(self.parent[id].id) ==> self.pos[self.parent[id].id] < self.pos[id]
    }

    /// Topological order for every linked entity except `id` itself: the
    /// intermediate shape while one entity's edge is being restored.
    pub open spec fn inv_topo_except(self, id: u32) -> bool {
        forall|id2: u32|
            #[trigger] self.pos.contains_key(id2) && id2 != id ==> self.edge_ordered(id2)
    }

    /// Children lists hold, without duplicates, exactly the linked entities
    /// whose recorded parent carries the key id; empty lists are dropped.
    pub open spec fn inv_kids(self) -> bool {
        &&& forall|id: u32| #[trigger] self.kids.contains_key(id) ==> self.kids[id].len() > 0
        &&& forall|id: u32, j: int|
            self.kids.contains_key(id) && 0 <= j < self.kids[id].len() ==> {
                let c = #[trigger] self.kids[id][j];
                &&& self.pos.contains_key(c.id)
                &&& self.parent.contains_key(c.id)
                &&& self.parent[c.id].id == id
            }
        &&& forall|id: u32, j1: int, j2: int|
            self.kids.contains_key(id) && 0 <= j1 < j2 < self.kids[id].len()
                ==> #[trigger] self.kids[id][j1] != #[trigger] self.kids[id][j2]
        &&& forall|id: u32|
            #[trigger] self.pos.contains_key(id) ==> {
                &&& self.kids.contains_key(self.parent[id].id)
                &&& self.kids[self.parent[id].id].contains(Entity { id })
            }
    }

    /// External parents are unlinked, recorded once each, and cover every
    /// unlinked id that currently has children. In the middle of a
    /// maintenance pass an external parent may have lost its last child and
    /// not be pruned yet; [`HierarchyState::inv_ext_tight`] rules that out.
    pub open spec fn inv_ext_basic(self) -> bool {
        &&& forall|j: int|
            0 <= j < self.ext.len() ==> !self.pos.contains_key((#[trigger] self.ext[j]).id)
        &&& forall|j1: int, j2: int|
            0 <= j1 < j2 < self.ext.len() ==> #[trigger] self.ext[j1] != #[trigger] self.ext[j2]
        &&& forall|id: u32|
            #[trigger] self.kids.contains_key(id) && !self.pos.contains_key(id)
                ==> self.ext.contains(Entity { id })
    }

    /// Every recorded external parent still has children.
    pub open spec fn inv_ext_tight(self) -> bool {
        forall|j: int| 0 <= j < self.ext.len() ==> self.kids.contains_key((#[trigger] self.ext[j]).id)
    }

    /// Well-formedness except for the pruning of childless external
    /// parents: the shape the index has between maintenance phases.
    pub open spec fn inv_core(self) -> bool {
        &&& self.inv_positions()
        &&& self.inv_parent_dom()
        &&& self.inv_topo()
        &&& self.inv_kids()
        &&& self.inv_ext_basic()
    }

    /// Full well-formedness of the index state.
    pub open spec fn inv(self) -> bool {
        &&& self.inv_core()
        &&& self.inv_ext_tight()
    }

    /// `a` is a proper ancestor of `dsc`: following recorded parent edges
    /// up from `dsc` reaches `a`.
    pub open spec fn has_ancestor(self, dsc: Entity, a: Entity) -> bool
        decreases (if self.is_linked(dsc) {
            self.index_of(dsc)
        } else {
            0
        }),
        when self.inv_core()
        via Self::has_ancestor_dec
    {
        self.is_linked(dsc) && {
            let p = self.parent_of(dsc);
            p == a || (self.is_linked(p) && self.has_ancestor(p, a))
        }
    }

    #[via_fn]
    proof fn has_ancestor_dec(self, dsc: Entity, a: Entity) {
        if self.is_linked(dsc) {
            assert(self.edge_ordered(dsc.id));
            assert(self.order[self.pos[dsc.id]].id == dsc.id);
        }
    }

    /// The proper descendants of `root` that sit at position `i` or later
    /// of the sorted sequence, in sequence order.
    pub open spec fn desc_from(self, root: Entity, i: int) -> Seq<Entity>
        decreases self.order.len() - i,
    {
        if i < 0 || i >= self.order.len() {
            Seq::empty()
        } else if self.has_ancestor(self.order[i], root) {
            seq![self.order[i]] + self.desc_from(root, i + 1)
        } else {
            self.desc_from(root, i + 1)
        }
    }
}

} // verus!
