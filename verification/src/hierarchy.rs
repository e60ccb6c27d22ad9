//! The hierarchy index: state, queries, and construction.

use vstd::prelude::*;
use std::collections::HashMap;
use core::marker::PhantomData;
use shrev::EventChannel;
use shrev::ReaderId;
use crate::entity::Entity;
use crate::entity::HierarchyEvent;
use crate::channel::channel_log;
use crate::channel::channel_new;
use crate::channel::channel_register;
use crate::channel::channel_write;
use crate::channel::reader_seen;
use crate::bits::bitset_add;
use crate::bits::bitset_contains;
use crate::bits::bitset_new;
use crate::bits::bitset_view;
use hibitset::BitSet;
use crate::link::Parent;
use crate::state::HierarchyState;
use crate::data::ParentData;
use crate::entity::distinct_entities;
use crate::tick::seeded;
use crate::tick::rm_before;
use crate::tick::doomed_at;
use crate::tick::purged;
use crate::tick::removal_events_ok;
use crate::tick::modified_events_ok;
use crate::tick::notified;
use crate::tick::dirty_seed;
use crate::tick::survivor;
use crate::tick::lemma_no_seed_no_doom;
use crate::tick::cp_step;
use crate::tick::cp_reach;
use crate::tick::tick_edge;
use crate::tick::tick_acyclic;
use crate::tick::tick_reaches;

verus! {

broadcast use vstd::std_specs::hash::group_hash_axioms, vstd::seq_lib::group_seq_properties;

/// A topologically ordered view of the parent/child relation.
///
/// The index stores all entities that currently carry a (live, reachable)
/// parent link in a flat sequence in which every parent appears before all
/// of its descendants, together with an adjacency map of immediate children,
/// a current-parent map, the set of external parents, and an append-only
/// change log.
///
/// `P` is the link component type; see [`Parent`].
///
/// Any cycle in the parent relation is a precondition violation of
/// [`Hierarchy::maintain`]; the index performs no cycle detection.
pub struct Hierarchy<P> {
    sorted: Vec<Entity>,
    entities: HashMap<u32, usize>,
    children: HashMap<u32, Vec<Entity>>,
    current_parent: HashMap<u32, Entity>,
    external_parents: Vec<Entity>,
    changed: EventChannel<HierarchyEvent>,
    _phantom: PhantomData<P>,
}

impl<P> View for Hierarchy<P> {
    type V = HierarchyState;

    closed spec fn view(&self) -> HierarchyState {
        HierarchyState {
            order: self.sorted@,
            pos: self.entities@.map_values(|v: usize| v as int),
            parent: self.current_parent@,
            kids: Map::new(
                |id: u32| self.children@.contains_key(id),
                |id: u32| self.children@[id]@,
            ),
            ext: self.external_parents@,
            log: channel_log(self.changed),
        }
    }
}

impl<P: Parent> Hierarchy<P> {
    /// The index is well formed; established by [`Hierarchy::new`] and
    /// preserved by every operation.
    pub open spec fn wf(&self) -> bool {
        self@.inv()
    }

    /// Create a new, empty hierarchy index.
    pub fn new() -> (h: Hierarchy<P>)
        ensures
            h.wf(),
            h@.order == Seq::<Entity>::empty(),
            h@.pos == Map::<u32, int>::empty(),
            h@.parent == Map::<u32, Entity>::empty(),
            h@.kids == Map::<u32, Seq<Entity>>::empty(),
            h@.ext == Seq::<Entity>::empty(),
            h@.log == Seq::<HierarchyEvent>::empty(),
    {
        let h = Hierarchy {
            sorted: Vec::new(),
            entities: HashMap::new(),
            children: HashMap::new(),
            current_parent: HashMap::new(),
            external_parents: Vec::new(),
            changed: channel_new(),
            _phantom: PhantomData,
        };
        proof {
            assert(h@.pos =~= Map::<u32, int>::empty());
            assert(h@.kids =~= Map::<u32, Seq<Entity>>::empty());
        }
        h
    }

    /// All entities that carry a parent link, in sorted order: parents are
    /// guaranteed to appear before their children.
    ///
    /// This does not include entities that only *are* parents.
    pub fn all(&self) -> (r: &[Entity])
        ensures
            r@ == self@.order,
    {
        self.sorted.as_slice()
    }

    /// The immediate children of `entity`, empty if none are recorded.
    pub fn children(&self, entity: Entity) -> (r: &[Entity])
        ensures
            r@ == self@.kids_of(entity.id),
    {
        match self.children.get(&entity.id) {
            Some(v) => v.as_slice(),
            None => &[],
        }
    }

    /// The current resolved parent of `entity`, `None` if `entity` carries
    /// no link or is untracked.
    pub fn parent(&self, entity: Entity) -> (r: Option<Entity>)
        ensures
            r == (if self@.parent.contains_key(entity.id) {
                Some(self@.parent[entity.id])
            } else {
                None::<Entity>
            }),
    {
        match self.current_parent.get(&entity.id) {
            Some(p) => Some(*p),
            None => None,
        }
    }

    /// All recursive descendants of `entity`, as a `BitSet` of ids.
    ///
    /// This does not include the entity itself. One left-to-right pass over
    /// the sorted sequence collects the closure: an entity belongs to the
    /// subtree when its parent is `entity` or already in the subtree.
    #[verifier::loop_isolation(false)]
    pub fn all_children(&self, entity: Entity) -> (r: BitSet)
        requires
            self.wf(),
            forall|i: int|
                0 <= i < self@.order.len() ==> (#[trigger] self@.order[i]).id <= 0x0100_0000,
        ensures
            forall|id: u32| #[trigger] bitset_view(r).contains(id) <==> self@.has_ancestor(
                Entity { id },
                entity,
            ),
    {
        let ghost s = self@;
        let mut set = bitset_new();
        let n = self.sorted.len();
        let mut i: usize = 0;
        while i < n
            invariant
                0 <= i <= n,
                n == s.order.len(),
                forall|id: u32| #[trigger] bitset_view(set).contains(id)
                    <==> (s.pos.contains_key(id) && s.pos[id] < i as int && s.has_ancestor(
                        Entity { id },
                        entity,
                    )),
            decreases n - i,
        {
            let e = self.sorted[i];
            proof {
                assert(s.order[i as int] == e);
                assert(s.pos.contains_key(e.id) && s.pos[e.id] == i as int);
            }
            let p = match self.parent_get(e.id) {
                Some(p) => p,
                None => {
                    proof {
                        assert(false);
                    }
                    e
                },
            };
            let isd = if p.id == entity.id {
                true
            } else {
                bitset_contains(&set, p.id)
            };
            proof {
                assert(p == s.parent_of(e));
                if p.id == entity.id {
                    assert(p == entity);
                    assert(s.has_ancestor(e, entity));
                } else {
                    if s.pos.contains_key(p.id) {
                        assert(s.edge_ordered(e.id));
                        assert(Entity { id: p.id } == p);
                        assert(bitset_view(set).contains(p.id) == s.has_ancestor(p, entity));
                    } else {
                        assert(!bitset_view(set).contains(p.id));
                        assert(!s.has_ancestor(e, entity));
                    }
                }
                assert(isd == s.has_ancestor(e, entity));
            }
            if isd {
                let ghost k0 = bitset_view(set);
                bitset_add(&mut set, e.id);
                proof {
                    assert forall|id: u32| #[trigger] bitset_view(set).contains(id)
                        <==> (s.pos.contains_key(id) && s.pos[id] < i + 1 && s.has_ancestor(
                            Entity { id },
                            entity,
                        )) by {
                        if id != e.id {
                            assert(bitset_view(set).contains(id) == k0.contains(id));
                            if s.pos.contains_key(id) && s.pos[id] == i as int {
                                assert(s.order[s.pos[id]].id == id);
                                assert(false);
                            }
                        }
                    }
                }
            } else {
                proof {
                    assert forall|id: u32| #[trigger] bitset_view(set).contains(id)
                        <==> (s.pos.contains_key(id) && s.pos[id] < i + 1 && s.has_ancestor(
                            Entity { id },
                            entity,
                        )) by {
                        if s.pos.contains_key(id) && s.pos[id] == i as int {
                            assert(s.order[s.pos[id]].id == id);
                            assert(Entity { id } == e);
                        }
                    }
                }
            }
            i = i + 1;
        }
        proof {
            assert forall|id: u32| #[trigger] bitset_view(set).contains(id) <==> s.has_ancestor(
                Entity { id },
                entity,
            ) by {
                if s.has_ancestor(Entity { id }, entity) {
                    assert(s.is_linked(Entity { id }));
                }
            }
        }
        set
    }

    /// All entity ids of the index fit the bit-set index range.
    pub open spec fn ids_in_range(&self) -> bool {
        forall|i: int| 0 <= i < self@.order.len() ==> (#[trigger] self@.order[i]).id <= 0x0100_0000
    }

    /// An iterator over all recursive descendants of `entity`, in sorted
    /// order: parents are guaranteed to come before their children.
    ///
    /// This does not include `entity` itself.
    pub fn all_children_iter(&self, entity: Entity) -> (r: SubHierarchyIterator<'_, P>)
        requires
            self.wf(),
            self.ids_in_range(),
        ensures
            r.wf(),
            r.src() == self@,
            r.root_of() == entity,
            r.remaining() == self@.desc_from(entity, 0),
    {
        SubHierarchyIterator::new(self, entity)
    }

    /// Get a token for tracking the modification events of the hierarchy.
    ///
    /// The token observes exactly the events appended after this call.
    pub fn track(&mut self) -> (r: ReaderId<HierarchyEvent>)
        ensures
            final(self)@ == old(self)@,
            reader_seen(r) == old(self)@.log.len(),
    {
        channel_register(&mut self.changed)
    }

    /// The change log itself, for reading with a token from
    /// [`Hierarchy::track`].
    pub fn changed(&self) -> (r: &EventChannel<HierarchyEvent>)
        ensures
            channel_log(*r) == self@.log,
    {
        &self.changed
    }
}

/// A lazy iterator over the recursive descendants of one entity, in sorted
/// order.
///
/// It scans the window of the sorted sequence between the earliest known
/// child and the farthest currently known descendant, extending the bound as
/// deeper descendants are discovered, so it visits each element of the
/// bounded window exactly once and never materializes the subtree.
pub struct SubHierarchyIterator<'a, P> {
    current_index: usize,
    end_index: usize,
    hierarchy: &'a Hierarchy<P>,
    entities: BitSet,
    root: Ghost<Entity>,
}

impl<'a, P: Parent> SubHierarchyIterator<'a, P> {
    /// The state of the hierarchy being iterated.
    pub closed spec fn src(self) -> HierarchyState {
        self.hierarchy@
    }

    /// The entity whose descendants are iterated.
    pub closed spec fn root_of(self) -> Entity {
        self.root@
    }

    /// The descendants not yet yielded, in sorted order.
    pub closed spec fn remaining(self) -> Seq<Entity> {
        self.hierarchy@.desc_from(self.root@, self.current_index as int)
    }

    /// Internal consistency of the scan state.
    pub closed spec fn wf(self) -> bool {
        let s = self.hierarchy@;
        let ks = bitset_view(self.entities);
        let cur = self.current_index as int;
        let end = self.end_index as int;
        &&& s.inv()
        &&& self.hierarchy.ids_in_range()
        &&& cur <= s.order.len()
        &&& forall|id: u32| #[trigger] ks.contains(id) ==> s.pos.contains_key(id)
            && s.has_ancestor(Entity { id }, self.root@) && s.pos[id] <= end
        &&& forall|z: Entity|
            #[trigger] s.has_ancestor(z, self.root@) && (s.parent_of(z) == self.root@
                || s.pos[s.parent_of(z).id] <= cur) ==> ks.contains(z.id) && s.pos[z.id] <= end
        &&& (cur < s.order.len() && cur <= end) ==> ks.contains(s.order[cur].id)
    }

    /// Record the children of `child` as known descendants and extend the
    /// scan bound to cover their positions.
    #[verifier::loop_isolation(false)]
    fn process_entity(&mut self, child: Entity)
        requires
            old(self).hierarchy.wf(),
            old(self).hierarchy.ids_in_range(),
            forall|id: u32| #[trigger] bitset_view(old(self).entities).contains(id) ==> old(self).hierarchy@.pos.contains_key(id) && old(self).hierarchy@.pos[id] <= old(self).end_index as int,
        ensures
            final(self).hierarchy == old(self).hierarchy,
            final(self).current_index == old(self).current_index,
            final(self).root == old(self).root,
            old(self).end_index <= final(self).end_index,
            forall|id: u32| #[trigger] bitset_view(final(self).entities).contains(id) == (
            bitset_view(old(self).entities).contains(id) || (old(self).hierarchy@.pos.contains_key(id) && old(self).hierarchy@.parent.contains_key(id)
                && old(self).hierarchy@.parent[id].id == child.id)),
            forall|id: u32| #[trigger] bitset_view(final(self).entities).contains(id) ==> old(self).hierarchy@.pos.contains_key(id) && old(self).hierarchy@.pos[id] <= final(self).end_index as int,
    {
        let h = self.hierarchy;
        let ghost s = h@;
        let l = match h.children.get(&child.id) {
            None => {
                proof {
                    assert forall|id: u32|
                        s.pos.contains_key(id) && s.parent.contains_key(id) && s.parent[id].id
                            == child.id implies false by {
                        assert(s.kids.contains_key(s.parent[id].id));
                    }
                }
                return ;
            },
            Some(l) => l,
        };
        let ghost ks = s.kids_of(child.id);
        proof {
            assert(s.kids.contains_key(child.id));
            assert(ks == l@);
        }
        let m = l.len();
        let ghost k0 = bitset_view(self.entities);
        let mut j: usize = 0;
        while j < m
            invariant
                0 <= j <= m,
                m == ks.len(),
                l@ == ks,
                self.hierarchy == old(self).hierarchy,
                self.current_index == old(self).current_index,
                self.root == old(self).root,
                old(self).end_index <= self.end_index,
                forall|id: u32| #[trigger] bitset_view(self.entities).contains(id) == (k0.contains(
                    id,
                ) || (exists|j2: int| 0 <= j2 < j && (#[trigger] ks[j2]).id == id)),
                forall|id: u32| #[trigger] bitset_view(self.entities).contains(id)
                    ==> s.pos.contains_key(id) && s.pos[id] <= self.end_index as int,
            decreases m - j,
        {
            let c = l[j];
            proof {
                assert(ks[j as int] == c);
                assert(s.kids_of(child.id).contains(c));
                assert(s.pos.contains_key(c.id));
                assert(s.order[s.pos[c.id]].id == c.id);
                assert(s.order[s.pos[c.id]] == c);
                assert(c.id <= 0x0100_0000);
            }
            let cp = match h.pos_get(c.id) {
                Some(p) => p,
                None => {
                    proof {
                        assert(false);
                    }
                    0
                },
            };
            let ghost kb = bitset_view(self.entities);
            bitset_add(&mut self.entities, c.id);
            if cp > self.end_index {
                self.end_index = cp;
            }
            proof {
                assert forall|id: u32| #[trigger] bitset_view(self.entities).contains(id) == (
                k0.contains(id) || (exists|j2: int|
                    0 <= j2 < j + 1 && (#[trigger] ks[j2]).id == id)) by {
                    if bitset_view(self.entities).contains(id) {
                        if kb.contains(id) {
                            if !k0.contains(id) {
                                let j2 = choose|j2: int|
                                    0 <= j2 < j && (#[trigger] ks[j2]).id == id;
                                assert(0 <= j2 < j + 1 && ks[j2].id == id);
                            }
                        } else {
                            assert(id == c.id);
                            assert(ks[j as int].id == id);
                        }
                    } else {
                        if k0.contains(id) {
                            assert(false);
                        }
                        if exists|j2: int| 0 <= j2 < j + 1 && (#[trigger] ks[j2]).id == id {
                            let j2 = choose|j2: int|
                                0 <= j2 < j + 1 && (#[trigger] ks[j2]).id == id;
                            if j2 < j {
                                assert(kb.contains(id));
                                assert(false);
                            } else {
                                assert(id == c.id);
                                assert(false);
                            }
                        }
                    }
                }
            }
            j = j + 1;
        }
        proof {
            assert forall|id: u32| #[trigger] bitset_view(self.entities).contains(id) == (
            k0.contains(id) || (s.pos.contains_key(id) && s.parent.contains_key(id)
                && s.parent[id].id == child.id)) by {
                if exists|j2: int| 0 <= j2 < m && (#[trigger] ks[j2]).id == id {
                    let j2 = choose|j2: int| 0 <= j2 < m && (#[trigger] ks[j2]).id == id;
                    assert(s.kids_of(child.id).contains(ks[j2]));
                    assert(s.parent[ks[j2].id].id == child.id);
                }
                if !k0.contains(id) && s.pos.contains_key(id) && s.parent.contains_key(id)
                    && s.parent[id].id == child.id {
                    assert(s.kids.contains_key(s.parent[id].id));
                    assert(s.kids[s.parent[id].id].contains(Entity { id }));
                    let j2 = choose|j2: int| 0 <= j2 < ks.len() && ks[j2] == Entity { id };
                    assert(ks[j2].id == id);
                }
            }
        }
    }

    /// Build the iterator: position the scan on the earliest child of
    /// `root` and record the children of `root` and of that first child.
    #[verifier::loop_isolation(false)]
    fn new(hierarchy: &'a Hierarchy<P>, root: Entity) -> (it: Self)
        requires
            hierarchy.wf(),
            hierarchy.ids_in_range(),
        ensures
            it.wf(),
            it.src() == hierarchy@,
            it.root_of() == root,
            it.remaining() == hierarchy@.desc_from(root, 0),
    {
        let ghost s = hierarchy@;
        let max = hierarchy.sorted.len();
        let root_index = hierarchy.min_child_pos(root.id);
        let mut it = SubHierarchyIterator {
            current_index: root_index,
            end_index: 0,
            hierarchy,
            entities: bitset_new(),
            root: Ghost(root),
        };
        proof {
            // every descendant sits at or after the earliest child of root
            assert forall|z: Entity|
                s.pos.contains_key(z.id) && (#[trigger] s.parent_of(z)).id == root.id implies
                s.pos[z.id] >= root_index as int by {
                assert(s.kids.contains_key(s.parent[z.id].id));
                assert(s.kids[s.parent[z.id].id].contains(Entity { id: z.id }));
                assert(Entity { id: z.id } == z);
                let jj = choose|jj: int|
                    0 <= jj < s.kids_of(root.id).len() && s.kids_of(root.id)[jj] == z;
                assert(s.pos[(s.kids_of(root.id)[jj]).id] >= root_index as int);
            }
            assert forall|x: Entity| #[trigger] s.has_ancestor(x, root) implies s.pos[x.id]
                >= root_index as int by {
                crate::laws::lemma_desc_at_or_after(s, root, root_index as int, x);
            }
        }
        it.process_entity(root);
        if root_index != max {
            let e0 = hierarchy.sorted[root_index];
            proof {
                assert(root_index < max);
                assert(s.order[root_index as int] == e0);
                assert(s.pos.contains_key(e0.id) && s.pos[e0.id] == root_index as int);
            }
            it.process_entity(e0);
            proof {
                let ks = bitset_view(it.entities);
                assert forall|z: Entity|
                    #[trigger] s.has_ancestor(z, root) && (s.parent_of(z) == root
                        || s.pos[s.parent_of(z).id] <= root_index as int) implies ks.contains(z.id)
                    && s.pos[z.id] <= it.end_index as int by {
                    if s.parent_of(z) == root {
                        assert(ks.contains(z.id));
                    } else {
                        let p = s.parent_of(z);
                        assert(s.is_linked(p) && s.has_ancestor(p, root));
                        assert(s.pos[p.id] >= root_index as int);
                        assert(s.pos[p.id] == root_index as int);
                        assert(s.order[s.pos[p.id]].id == p.id);
                        assert(p == e0);
                        assert(ks.contains(z.id));
                    }
                }
                assert(it.wf()) by {
                    assert forall|id: u32| #[trigger] bitset_view(it.entities).contains(
                        id,
                    ) implies s.pos.contains_key(id) && s.has_ancestor(Entity { id }, root)
                        && s.pos[id] <= it.end_index as int by {
                        let z = Entity { id };
                        if s.parent.contains_key(id) && s.parent[id].id == root.id {
                            assert(s.parent_of(z) == root || (s.is_linked(s.parent_of(z))
                                && s.has_ancestor(s.parent_of(z), root)));
                            assert(s.has_ancestor(z, root));
                        } else {
                            assert(s.parent[id].id == e0.id);
                            assert(s.parent_of(z) == e0);
                            assert(bitset_view(it.entities).contains(e0.id) || s.has_ancestor(
                                e0,
                                root,
                            ));
                            assert(s.has_ancestor(e0, root)) by {
                                assert(s.kids.contains_key(root.id));
                                assert(exists|jj: int|
                                    0 <= jj < s.kids_of(root.id).len() && s.pos[(
                                    #[trigger] s.kids_of(root.id)[jj]).id] == root_index as int);
                                let jj = choose|jj: int|
                                    0 <= jj < s.kids_of(root.id).len() && s.pos[(
                                    #[trigger] s.kids_of(root.id)[jj]).id] == root_index as int;
                                let c1 = s.kids_of(root.id)[jj];
                                assert(s.kids_of(root.id).contains(c1));
                                assert(s.order[s.pos[c1.id]].id == c1.id);
                                assert(c1 == e0);
                                assert(s.parent_of(e0).id == root.id);
                                assert(s.parent_of(e0) == root);
                            }
                            assert(s.has_ancestor(z, root));
                        }
                    }
                    assert(root_index as int <= s.order.len());
                }
                // nothing before the first child is a descendant
                crate::laws::lemma_desc_from_skip(s, root, 0, root_index as int);
            }
        } else {
            proof {
                assert forall|z: Entity|
                    #[trigger] s.has_ancestor(z, root) && (s.parent_of(z) == root
                        || s.pos[s.parent_of(z).id] <= root_index as int) implies bitset_view(
                    it.entities,
                ).contains(z.id) && s.pos[z.id] <= it.end_index as int by {
                    assert(s.pos[z.id] >= root_index as int);
                    assert(s.pos.contains_key(z.id));
                    assert(s.pos[z.id] < s.order.len());
                    assert(root_index as int == s.order.len());
                    assert(false);
                }
                assert(it.wf()) by {
                    assert forall|id: u32| #[trigger] bitset_view(it.entities).contains(
                        id,
                    ) implies s.pos.contains_key(id) && s.has_ancestor(Entity { id }, root)
                        && s.pos[id] <= it.end_index as int by {
                        let z = Entity { id };
                        assert(s.parent[id].id == root.id);
                        assert(s.parent_of(z) == root);
                        assert(s.has_ancestor(z, root));
                        assert(s.pos[z.id] >= root_index as int);
                        assert(false);
                    }
                }
                crate::laws::lemma_desc_from_skip(s, root, 0, root_index as int);
            }
        }
        it
    }

    /// The next descendant in sorted order, `None` once exhausted.
    #[verifier::loop_isolation(false)]
    #[verifier::rlimit(100)]
    pub fn next(&mut self) -> (r: Option<Entity>)
        requires
            old(self).wf(),
        ensures
            final(self).wf(),
            final(self).src() == old(self).src(),
            final(self).root_of() == old(self).root_of(),
            old(self).remaining().len() > 0 ==> r == Some(old(self).remaining()[0]) && final(self).remaining() == old(self).remaining().drop_first(),
            old(self).remaining().len() == 0 ==> r is None && final(self).remaining().len() == 0,
    {
        let h = self.hierarchy;
        let ghost s = h@;
        let ghost rt = self.root@;
        let len = h.sorted.len();
        if self.current_index >= len || self.current_index > self.end_index {
            proof {
                crate::laws::lemma_exhausted(
                    s,
                    rt,
                    bitset_view(self.entities),
                    self.current_index as int,
                    self.end_index as int,
                );
            }
            return None;
        }
        let e = h.sorted[self.current_index];
        let ghost c0 = self.current_index as int;
        let ghost ks0 = bitset_view(self.entities);
        let ghost end0 = self.end_index as int;
        proof {
            assert(s.order[c0] == e);
            assert(s.pos.contains_key(e.id) && s.pos[e.id] == c0);
            assert(ks0.contains(e.id));
            assert(s.has_ancestor(e, rt));
            assert(s.desc_from(rt, c0) == seq![e] + s.desc_from(rt, c0 + 1));
        }
        let mut found = false;
        while !found
            invariant
                self.hierarchy == old(self).hierarchy,
                self.root == old(self).root,
                c0 < s.order.len(),
                !found ==> {
                    &&& bitset_view(self.entities) == ks0
                    &&& self.end_index as int == end0
                    &&& c0 <= self.current_index as int
                    &&& self.current_index as int <= self.end_index as int
                    &&& self.current_index < len
                    &&& forall|q: int|
                        c0 < q <= self.current_index as int ==> !ks0.contains(
                            (#[trigger] s.order[q]).id,
                        )
                },
                found ==> {
                    &&& self.wf()
                    &&& s.desc_from(rt, self.current_index as int) == s.desc_from(rt, c0 + 1)
                },
            decreases 2 * (len - self.current_index) + (if found {
                0int
            } else {
                1int
            }),
        {
            self.current_index = self.current_index + 1;
            let ghost cur = self.current_index as int;
            proof {
                // positions passed over hold no descendant
                assert forall|q: int| c0 < q < cur implies !s.has_ancestor(
                    #[trigger] s.order[q],
                    rt,
                ) by {
                    let z = s.order[q];
                    assert(s.pos.contains_key(z.id) && s.pos[z.id] == q);
                    if s.has_ancestor(z, rt) {
                        crate::laws::lemma_unseen_descendant(s, rt, ks0, c0, end0, z);
                        let y = choose|y: Entity|
                            ((y == z || s.has_ancestor(z, y)) && #[trigger] s.has_ancestor(y, rt)
                                && ks0.contains(y.id) && c0 < s.pos[y.id] <= end0 && s.pos[y.id]
                                <= s.pos[z.id]);
                        assert(s.order[s.pos[y.id]].id == y.id);
                        assert(!ks0.contains(s.order[s.pos[y.id]].id));
                        assert(false);
                    }
                }
            }
            if self.current_index > self.end_index || self.current_index >= len {
                found = true;
                proof {
                    // the scan is exhausted: no descendant remains
                    assert forall|z: Entity|
                        #[trigger] s.has_ancestor(z, rt) && (s.parent_of(z) == rt
                            || s.pos[s.parent_of(z).id] <= cur) implies ks0.contains(z.id)
                        && s.pos[z.id] <= end0 by {
                        let p = s.parent_of(z);
                        if p == rt || s.pos[p.id] <= c0 {
                        } else {
                            assert(s.is_linked(p) && s.has_ancestor(p, rt));
                            assert(c0 < s.pos[p.id] <= cur);
                            if s.pos[p.id] < cur {
                                assert(!s.has_ancestor(s.order[s.pos[p.id]], rt));
                                assert(s.order[s.pos[p.id]].id == p.id);
                                assert(s.order[s.pos[p.id]] == p);
                                assert(false);
                            } else {
                                // the parent would sit exactly at the cursor,
                                // beyond the known window
                                assert(s.pos[p.id] == cur);
                                crate::laws::lemma_unseen_descendant(s, rt, ks0, c0, end0, p);
                                let y = choose|y: Entity|
                                    ((y == p || s.has_ancestor(p, y)) && #[trigger] s.has_ancestor(
                                        y,
                                        rt,
                                    ) && ks0.contains(y.id) && c0 < s.pos[y.id] <= end0
                                        && s.pos[y.id] <= s.pos[p.id]);
                                assert(s.pos[y.id] <= end0 < cur);
                                assert(s.order[s.pos[y.id]].id == y.id);
                                assert(!ks0.contains(s.order[s.pos[y.id]].id));
                                assert(false);
                            }
                        }
                    }
                    crate::laws::lemma_desc_from_skip(s, rt, c0 + 1, cur);
                    assert(self.wf());
                }
            } else {
                let e2 = h.sorted[self.current_index];
                proof {
                    assert(s.order[cur] == e2);
                    assert(s.pos.contains_key(e2.id) && s.pos[e2.id] == cur);
                }
                if bitset_contains(&self.entities, e2.id) {
                    found = true;
                    proof {
                        assert(ks0.contains(e2.id));
                        assert(s.has_ancestor(e2, rt));
                    }
                    self.process_entity(e2);
                    proof {
                        let ks1 = bitset_view(self.entities);
                        let end1 = self.end_index as int;
                        assert forall|id: u32| #[trigger] ks1.contains(id) implies
                            s.pos.contains_key(id) && s.has_ancestor(Entity { id }, rt)
                            && s.pos[id] <= end1 by {
                            if !ks0.contains(id) {
                                let z = Entity { id };
                                assert(s.parent[id].id == e2.id);
                                assert(s.parent_of(z) == e2);
                                assert(s.has_ancestor(z, rt));
                            }
                        }
                        assert forall|z: Entity|
                            #[trigger] s.has_ancestor(z, rt) && (s.parent_of(z) == rt
                                || s.pos[s.parent_of(z).id] <= cur) implies ks1.contains(z.id)
                            && s.pos[z.id] <= end1 by {
                            let p = s.parent_of(z);
                            if p == rt || s.pos[p.id] <= c0 {
                                assert(ks0.contains(z.id) && s.pos[z.id] <= end0);
                            } else {
                                assert(s.is_linked(p) && s.has_ancestor(p, rt));
                                assert(c0 < s.pos[p.id] <= cur);
                                if s.pos[p.id] < cur {
                                    assert(!s.has_ancestor(s.order[s.pos[p.id]], rt));
                                    assert(s.order[s.pos[p.id]] == p);
                                    assert(false);
                                } else {
                                    assert(s.order[s.pos[p.id]] == p);
                                    assert(p == e2);
                                    assert(ks1.contains(z.id));
                                }
                            }
                        }
                        crate::laws::lemma_desc_from_skip(s, rt, c0 + 1, cur);
                        assert(self.wf());
                    }
                }
            }
        }
        proof {
            assert((seq![e] + s.desc_from(rt, c0 + 1)).drop_first() =~= s.desc_from(rt, c0 + 1));
            assert(s.desc_from(rt, c0)[0] == e);
        }
        Some(e)
    }
}

/// Does `v` hold `e`?
fn vec_has(v: &Vec<Entity>, e: Entity) -> (r: bool)
    ensures
        r == v@.contains(e),
{
    let n = v.len();
    let mut i: usize = 0;
    while i < n
        invariant
            0 <= i <= n,
            n == v@.len(),
            forall|j: int| 0 <= j < i ==> v@[j] != e,
        decreases n - i,
    {
        if v[i].id == e.id {
            assert(v@[i as int] == e);
            return true;
        }
        i = i + 1;
    }
    false
}

impl<P: Parent> Hierarchy<P> {
    /// Position of the entity with id `id` in the sorted sequence.
    fn pos_get(&self, id: u32) -> (r: Option<usize>)
        ensures
            r is Some <==> self@.pos.contains_key(id),
            r is Some ==> r.unwrap() as int == self@.pos[id],
    {
        match self.entities.get(&id) {
            Some(i) => Some(*i),
            None => None,
        }
    }

    /// The recorded parent of the entity with id `id`.
    fn parent_get(&self, id: u32) -> (r: Option<Entity>)
        ensures
            r is Some <==> self@.parent.contains_key(id),
            r is Some ==> r.unwrap() == self@.parent[id],
    {
        match self.current_parent.get(&id) {
            Some(p) => Some(*p),
            None => None,
        }
    }

    /// Drop `c` from the children list of `pid`, removing the entry if it
    /// becomes empty. Touches nothing else.
    fn detach_child(&mut self, pid: u32, c: Entity)
        requires
            forall|j1: int, j2: int|
                0 <= j1 < j2 < old(self)@.kids_of(pid).len() ==> old(self)@.kids_of(pid)[j1]
                    != old(self)@.kids_of(pid)[j2],
        ensures
            forall|q: u32|
                q != pid ==> (#[trigger] final(self)@.kids.contains_key(q)) == old(self)@.kids.contains_key(q),
            forall|q: u32| q != pid ==> (#[trigger] final(self)@.kids_of(q)) == old(self)@.kids_of(q),
            forall|x: Entity|
                final(self)@.kids_of(pid).contains(x) == (old(self)@.kids_of(pid).contains(x) && x
                    != c),
            forall|j1: int, j2: int|
                0 <= j1 < j2 < final(self)@.kids_of(pid).len() ==> final(self)@.kids_of(pid)[j1]
                    != final(self)@.kids_of(pid)[j2],
            final(self)@.kids.contains_key(pid) ==> final(self)@.kids_of(pid).len() > 0,
            final(self)@.order == old(self)@.order,
            final(self)@.pos == old(self)@.pos,
            final(self)@.parent == old(self)@.parent,
            final(self)@.ext == old(self)@.ext,
            final(self)@.log == old(self)@.log,
    {
        let entry = self.children.remove(&pid);
        match entry {
            None => {
                proof {
                    assert(final(self)@.kids =~= old(self)@.kids);
                }
            },
            Some(mut l) => {
                let ghost l0 = l@;
                let n = l.len();
                let mut i: usize = 0;
                let mut found: bool = false;
                while i < n && !found
                    invariant
                        0 <= i <= n,
                        n == l@.len(),
                        l@ == l0,
                        !found ==> forall|j: int| 0 <= j < i ==> l@[j] != c,
                        found ==> i < n && l@[i as int] == c,
                    decreases n - i + (if found {
                        0int
                    } else {
                        1int
                    }),
                {
                    if l[i].id == c.id {
                        assert(l@[i as int] == c);
                        found = true;
                    } else {
                        i = i + 1;
                    }
                }
                if found {
                    proof {
                        assert(l0 == old(self)@.kids_of(pid));
                    }
                    l.swap_remove(i);
                    proof {
                        let ln = l@;
                        let m = l0.len() as int;
                        let ii = i as int;
                        assert(ln.len() == m - 1);
                        assert(forall|j: int|
                            0 <= j < m - 1 ==> #[trigger] ln[j] == (if j == ii {
                                l0[m - 1]
                            } else {
                                l0[j]
                            }));
                        assert(l0[ii] == c);
                        assert forall|x: Entity| ln.contains(x) implies l0.contains(x) && x != c by {
                            let j = choose|j: int| 0 <= j < ln.len() && ln[j] == x;
                            if j == ii {
                                assert(l0[m - 1] == x);
                                assert(ii < m - 1);
                                assert(l0[ii] != l0[m - 1]);
                            } else {
                                assert(l0[j] == x);
                                if j < ii {
                                    assert(l0[j] != l0[ii]);
                                } else {
                                    assert(l0[ii] != l0[j]);
                                }
                            }
                        }
                        assert forall|x: Entity| l0.contains(x) && x != c implies ln.contains(x) by {
                            let j = choose|j: int| 0 <= j < m && l0[j] == x;
                            if j == m - 1 {
                                if ii < m - 1 {
                                    assert(ln[ii] == x);
                                } else {
                                    assert(j == ii);
                                }
                            } else if j == ii {
                                assert(x == c);
                            } else {
                                assert(ln[j] == x);
                            }
                        }
                        assert forall|j1: int, j2: int| 0 <= j1 < j2 < ln.len() implies ln[j1]
                            != ln[j2] by {
                            if j1 == ii {
                                assert(ln[j1] == l0[m - 1] && ln[j2] == l0[j2]);
                                assert(l0[j2] != l0[m - 1]);
                            } else if j2 == ii {
                                assert(ln[j1] == l0[j1] && ln[j2] == l0[m - 1]);
                                assert(l0[j1] != l0[m - 1]);
                            } else {
                                assert(ln[j1] == l0[j1] && ln[j2] == l0[j2]);
                            }
                        }
                    }
                }
                if l.len() > 0 {
                    let ghost lnow = l@;
                    self.children.insert(pid, l);
                    proof {
                        assert(final(self)@.kids_of(pid) == lnow);
                    }
                } else {
                    proof {
                        assert(!final(self)@.kids.contains_key(pid));
                    }
                }
            },
        }
    }

    /// Collect the removal seeds of this tick: linked entities whose link
    /// was removed, and external parents that are no longer alive.
    fn removal_seeds(&self, data: &ParentData<P>) -> (scr: Vec<Entity>)
        requires
            self.wf(),
            distinct_entities(data.removed@),
        ensures
            forall|e: Entity| #[trigger] scr@.contains(e) <==> seeded(self@, *data, e),
            distinct_entities(scr@),
    {
        let mut scr: Vec<Entity> = Vec::new();
        let n = data.removed.len();
        let mut k: usize = 0;
        while k < n
            invariant
                0 <= k <= n,
                n == data.removed@.len(),
                self.wf(),
                distinct_entities(data.removed@),
                forall|e: Entity| #[trigger] scr@.contains(e)
                    <==> (self@.pos.contains_key(e.id) && data.removed@.take(k as int).contains(e)),
                distinct_entities(scr@),
            decreases n - k,
        {
            let r = data.removed[k];
            if self.entities.contains_key(&r.id) {
                proof {
                    assert(self@.pos.contains_key(r.id));
                    if scr@.contains(r) {
                        let j = choose|j: int|
                            0 <= j < data.removed@.take(k as int).len()
                                && data.removed@.take(k as int)[j] == r;
                        assert(data.removed@[j] == data.removed@[k as int]);
                        assert(false);
                    }
                }
                scr.push(r);
            }
            proof {
                assert(data.removed@.take(k + 1) =~= data.removed@.take(k as int).push(
                    data.removed@[k as int],
                ));
                assert forall|e: Entity| #[trigger] scr@.contains(e) implies (
                self@.pos.contains_key(e.id) && data.removed@.take(k + 1).contains(e)) by {
                    if data.removed@.take(k as int).contains(e) {
                        let j = choose|j: int|
                            0 <= j < k && data.removed@.take(k as int)[j] == e;
                        assert(data.removed@.take(k + 1)[j] == e);
                    }
                }
                assert forall|e: Entity|
                    self@.pos.contains_key(e.id) && data.removed@.take(k + 1).contains(
                        e,
                    ) implies #[trigger] scr@.contains(e) by {
                    let j = choose|j: int|
                        0 <= j < k + 1 && (#[trigger] data.removed@.take(k + 1)[j]) == e;
                    if j < k {
                        assert(data.removed@.take(k as int)[j] == e);
                    } else {
                        assert(e == data.removed@[k as int]);
                    }
                }
            }
            k = k + 1;
        }
        proof {
            assert(data.removed@.take(n as int) =~= data.removed@);
        }
        let m = self.external_parents.len();
        let mut j: usize = 0;
        while j < m
            invariant
                0 <= j <= m,
                m == self@.ext.len(),
                self.wf(),
                forall|e: Entity| #[trigger] scr@.contains(e)
                    <==> ((self@.pos.contains_key(e.id) && data.removed@.contains(e)) || (
                    self@.ext.take(j as int).contains(e) && !data.is_alive(e))),
                distinct_entities(scr@),
            decreases m - j,
        {
            let x = self.external_parents[j];
            proof {
                assert(self@.ext[j as int] == x);
            }
            if !data.alive_now(x) {
                proof {
                    assert(!self@.pos.contains_key(x.id));
                    if scr@.contains(x) {
                        let j2 = choose|j2: int|
                            0 <= j2 < j && self@.ext.take(j as int)[j2] == x;
                        assert(self@.ext[j2] == self@.ext[j as int]);
                        assert(false);
                    }
                }
                scr.push(x);
            }
            proof {
                assert forall|e: Entity| #[trigger] scr@.contains(e) implies ((
                self@.pos.contains_key(e.id) && data.removed@.contains(e)) || (self@.ext.take(
                    j + 1,
                ).contains(e) && !data.is_alive(e))) by {
                    if self@.ext.take(j as int).contains(e) && !data.is_alive(e) {
                        let j2 = choose|j2: int|
                            0 <= j2 < j && self@.ext.take(j as int)[j2] == e;
                        assert(self@.ext.take(j + 1)[j2] == e);
                    } else if e == x && !data.is_alive(e) && !(self@.pos.contains_key(e.id)
                        && data.removed@.contains(e)) {
                        assert(self@.ext.take(j + 1)[j as int] == x);
                    }
                }
                assert forall|e: Entity|
                    self@.ext.take(j + 1).contains(e) && !data.is_alive(
                        e,
                    ) implies #[trigger] scr@.contains(e) by {
                    let j2 = choose|j2: int|
                        0 <= j2 < j + 1 && (#[trigger] self@.ext.take(j + 1)[j2]) == e;
                    if j2 < j {
                        assert(self@.ext.take(j as int)[j2] == e);
                    } else {
                        assert(e == x);
                    }
                }
            }
            j = j + 1;
        }
        proof {
            assert(self@.ext.take(m as int) =~= self@.ext);
            assert forall|e: Entity| #[trigger] scr@.contains(e) implies seeded(self@, *data, e) by {
                if self@.pos.contains_key(e.id) && data.removed@.contains(e) {
                    assert(self@.is_linked(e));
                }
            }
        }
        scr
    }

    /// The cascading removal scan: one left-to-right pass over the sorted
    /// sequence that removes every entity that is seeded or whose parent is
    /// being removed, recording the removed entities in `scr`, then a
    /// reindexing pass over the surviving suffix.
    #[verifier::loop_isolation(false)]
    fn removal_scan(&mut self, data: &ParentData<P>, scr: &mut Vec<Entity>)
        requires
            old(self).wf(),
            forall|e: Entity| #[trigger] old(scr)@.contains(e) <==> seeded(old(self)@, *data, e),
            distinct_entities(old(scr)@),
        ensures
            final(self)@.inv_core(),
            forall|id: u32| #[trigger] final(self)@.pos.contains_key(id)
                <==> (old(self)@.pos.contains_key(id) && !doomed_at(old(self)@, *data, old(self)@.pos[id])),
            forall|id: u32| #[trigger] final(self)@.pos.contains_key(id)
                ==> final(self)@.parent.contains_key(id)
                    && final(self)@.parent[id] == old(self)@.parent[id],
            forall|e: Entity| #[trigger] final(scr)@.contains(e) <==> purged(old(self)@, *data, e),
            distinct_entities(final(scr)@),
            final(self)@.ext == old(self)@.ext,
            final(self)@.log == old(self)@.log,
    {
        let ghost s0 = old(self)@;
        let ghost d = *data;
        let n = self.sorted.len();
        let mut new_sorted: Vec<Entity> = Vec::new();
        let mut i: usize = 0;
        while i < n
            invariant
                0 <= i <= n,
                self.sorted@ == s0.order,
                self@.ext == s0.ext,
                self@.log == s0.log,
                forall|e: Entity| #[trigger] scr@.contains(e)
                    <==> (seeded(s0, d, e) || rm_before(s0, d, e.id, i as int)),
                distinct_entities(scr@),
                forall|e: Entity| #[trigger] new_sorted@.contains(e)
                    <==> (s0.pos.contains_key(e.id) && s0.pos[e.id] < i && !doomed_at(s0, d, s0.pos[e.id])),
                forall|k: int| 0 <= k < new_sorted@.len()
                    ==> s0.pos.contains_key((#[trigger] new_sorted@[k]).id),
                forall|k1: int, k2: int| 0 <= k1 < k2 < new_sorted@.len()
                    ==> s0.pos[new_sorted@[k1].id] < s0.pos[new_sorted@[k2].id],
                forall|id: u32| #[trigger] self@.pos.contains_key(id)
                    <==> (s0.pos.contains_key(id) && !rm_before(s0, d, id, i as int)),
                forall|id: u32| #[trigger] self@.pos.contains_key(id) ==> self@.pos[id] == s0.pos[id],
                forall|id: u32| #[trigger] self@.parent.contains_key(id)
                    <==> (s0.parent.contains_key(id) && !rm_before(s0, d, id, i as int)),
                forall|id: u32| #[trigger] self@.parent.contains_key(id)
                    ==> self@.parent[id] == s0.parent[id],
                forall|pid: u32, x: Entity| #[trigger] self@.kids_of(pid).contains(x)
                    ==> (s0.kids.contains_key(pid) && s0.kids[pid].contains(x)
                        && !rm_before(s0, d, x.id, i as int) && !rm_before(s0, d, pid, i as int)),
                forall|pid: u32, x: Entity|
                    (s0.kids.contains_key(pid) && #[trigger] s0.kids[pid].contains(x)
                        && !rm_before(s0, d, x.id, i as int) && !rm_before(s0, d, pid, i as int))
                        ==> (self@.kids.contains_key(pid) && self@.kids_of(pid).contains(x)),
                forall|pid: u32| #[trigger] self@.kids.contains_key(pid)
                    ==> self@.kids_of(pid).len() > 0,
                forall|pid: u32, j1: int, j2: int| 0 <= j1 < j2 < self@.kids_of(pid).len()
                    ==> #[trigger] self@.kids_of(pid)[j1] != #[trigger] self@.kids_of(pid)[j2],
            decreases n - i,
        {
            let e = self.sorted[i];
            proof {
                assert(s0.order[i as int] == e);
                assert(s0.pos.contains_key(e.id) && s0.pos[e.id] == i as int);
                assert(!rm_before(s0, d, e.id, i as int));
                if s0.ext.contains(e) {
                    let jx = choose|jx: int| 0 <= jx < s0.ext.len() && s0.ext[jx] == e;
                    assert(!s0.pos.contains_key(s0.ext[jx].id));
                    assert(false);
                }
            }
            let in_scr = vec_has(scr, e);
            let p = match self.parent_get(e.id) {
                Some(p) => p,
                None => {
                    proof {
                        assert(s0.parent.contains_key(e.id));
                        assert(false);
                    }
                    e
                },
            };
            let p_in_scr = vec_has(scr, p);
            let remove = in_scr || p_in_scr;
            proof {
                assert(p == s0.parent[e.id]);
                // the scan condition agrees with the doom closure
                assert(in_scr == d.removed@.contains(e));
                if s0.pos.contains_key(p.id) {
                    assert(s0.edge_ordered(e.id));
                    assert(s0.pos[p.id] < i as int);
                    assert(s0.order[s0.pos[p.id]].id == p.id);
                    assert(s0.order[s0.pos[p.id]] == p);
                    if s0.ext.contains(p) {
                        let jx = choose|jx: int| 0 <= jx < s0.ext.len() && s0.ext[jx] == p;
                        assert(!s0.pos.contains_key(s0.ext[jx].id));
                        assert(false);
                    }
                    if d.removed@.contains(p) {
                        assert(doomed_at(s0, d, s0.pos[p.id]));
                    }
                    assert(p_in_scr == doomed_at(s0, d, s0.pos[p.id]));
                } else {
                    assert(p_in_scr == (s0.ext.contains(p) && !d.is_alive(p)));
                }
                assert(remove == doomed_at(s0, d, i as int));
            }
            let ghost sh = self@;
            proof {
                assert forall|id: u32| rm_before(s0, d, id, i + 1) implies (rm_before(
                    s0,
                    d,
                    id,
                    i as int,
                ) || (id == e.id && doomed_at(s0, d, i as int))) by {
                    if s0.pos.contains_key(id) && s0.pos[id] == i as int {
                        assert(s0.order[s0.pos[id]].id == id);
                    }
                }
            }
            if remove {
                if !in_scr {
                    proof {
                        if scr@.contains(e) {
                            assert(seeded(s0, d, e) || rm_before(s0, d, e.id, i as int));
                            assert(false);
                        }
                    }
                    scr.push(e);
                }
                self.detach_child(p.id, e);
                let ghost sm = self@;
                self.current_parent.remove(&e.id);
                self.children.remove(&e.id);
                self.entities.remove(&e.id);
                proof {
                    assert(self@.pos =~= sh.pos.remove(e.id));
                    assert(self@.parent =~= sh.parent.remove(e.id));
                    assert(self@.kids =~= sm.kids.remove(e.id));
                    assert forall|id: u32| #[trigger] self@.pos.contains_key(id) implies (
                    s0.pos.contains_key(id) && !rm_before(s0, d, id, i + 1)) by {
                        assert(sh.pos.contains_key(id));
                    }
                    assert forall|id: u32|
                        s0.pos.contains_key(id) && !rm_before(s0, d, id, i + 1)
                            implies #[trigger] self@.pos.contains_key(id) by {
                        assert(!rm_before(s0, d, id, i as int));
                        assert(sh.pos.contains_key(id));
                        assert(id != e.id);
                    }
                    assert forall|id: u32| #[trigger] self@.pos.contains_key(id) implies self@.pos[id]
                        == s0.pos[id] by {
                        assert(sh.pos.contains_key(id) && sh.pos[id] == s0.pos[id]);
                    }
                    assert forall|id: u32| #[trigger] self@.parent.contains_key(id) implies (
                    s0.parent.contains_key(id) && !rm_before(s0, d, id, i + 1) && self@.parent[id]
                        == s0.parent[id]) by {
                        assert(sh.parent.contains_key(id));
                    }
                    assert forall|id: u32|
                        s0.parent.contains_key(id) && !rm_before(s0, d, id, i + 1)
                            implies #[trigger] self@.parent.contains_key(id) by {
                        assert(sh.parent.contains_key(id));
                        assert(id != e.id);
                    }
                    assert forall|pid: u32, x: Entity| #[trigger] self@.kids_of(pid).contains(
                        x,
                    ) implies (s0.kids.contains_key(pid) && s0.kids[pid].contains(x) && !rm_before(
                        s0,
                        d,
                        x.id,
                        i + 1,
                    ) && !rm_before(s0, d, pid, i + 1)) by {
                        assert(pid != e.id);
                        assert(self@.kids_of(pid) == sm.kids_of(pid));
                        if pid == p.id {
                            assert(sm.kids_of(pid).contains(x));
                            assert(sh.kids_of(pid).contains(x) && x != e);
                            assert(x.id != e.id);
                        } else {
                            assert(sm.kids_of(pid) == sh.kids_of(pid));
                            assert(sh.kids_of(pid).contains(x));
                            assert(sh.kids.contains_key(pid));
                            if x.id == e.id {
                                assert(s0.kids[pid].contains(x));
                                assert(x == e);
                                assert(s0.inv_kids());
                                assert(s0.parent[e.id].id == pid);
                                assert(p.id == pid);
                                assert(false);
                            }
                        }
                    }
                    assert forall|pid: u32, x: Entity|
                        (s0.kids.contains_key(pid) && #[trigger] s0.kids[pid].contains(x)
                            && !rm_before(s0, d, x.id, i + 1) && !rm_before(
                            s0,
                            d,
                            pid,
                            i + 1,
                        )) implies (self@.kids.contains_key(pid) && self@.kids_of(pid).contains(
                        x,
                    )) by {
                        assert(!rm_before(s0, d, x.id, i as int));
                        assert(!rm_before(s0, d, pid, i as int));
                        assert(sh.kids.contains_key(pid) && sh.kids_of(pid).contains(x));
                        assert(x.id != e.id && pid != e.id);
                        if pid == p.id {
                            assert(x != e);
                            assert(sm.kids_of(pid).contains(x));
                            assert(sm.kids.contains_key(pid));
                        } else {
                            assert(sm.kids.contains_key(pid) && sm.kids_of(pid).contains(x));
                        }
                        assert(self@.kids.contains_key(pid) && self@.kids_of(pid) == sm.kids_of(
                            pid,
                        ));
                    }
                    assert forall|pid: u32| #[trigger] self@.kids.contains_key(
                        pid,
                    ) implies self@.kids_of(pid).len() > 0 by {
                        assert(pid != e.id);
                        assert(sm.kids.contains_key(pid));
                        if pid == p.id {
                            assert(sm.kids_of(pid).len() > 0);
                        } else {
                            assert(sm.kids_of(pid) == sh.kids_of(pid));
                            assert(sh.kids.contains_key(pid));
                        }
                        assert(self@.kids_of(pid) == sm.kids_of(pid));
                    }
                    assert forall|pid: u32, j1: int, j2: int|
                        0 <= j1 < j2 < self@.kids_of(pid).len() implies #[trigger] self@.kids_of(
                        pid,
                    )[j1] != #[trigger] self@.kids_of(pid)[j2] by {
                        assert(self@.kids_of(pid) == sm.kids_of(pid));
                        if pid != p.id {
                            assert(sm.kids_of(pid) == sh.kids_of(pid));
                        }
                    }
                    assert forall|x: Entity|
                        (s0.pos.contains_key(x.id) && s0.pos[x.id] < i + 1 && !doomed_at(
                            s0,
                            d,
                            s0.pos[x.id],
                        )) implies #[trigger] new_sorted@.contains(x) by {
                        if s0.pos[x.id] == i as int {
                            assert(s0.order[s0.pos[x.id]].id == x.id);
                            assert(x == e);
                            assert(false);
                        }
                    }
                }
            } else {
                proof {
                    assert forall|k: int| 0 <= k < new_sorted@.len() implies s0.pos[(
                    #[trigger] new_sorted@[k]).id] < i as int by {
                        assert(new_sorted@.contains(new_sorted@[k]));
                    }
                }
                let ghost ns0 = new_sorted@;
                new_sorted.push(e);
                proof {
                    assert forall|x: Entity| #[trigger] new_sorted@.contains(x) implies (
                    s0.pos.contains_key(x.id) && s0.pos[x.id] < i + 1 && !doomed_at(
                        s0,
                        d,
                        s0.pos[x.id],
                    )) by {
                        if !ns0.contains(x) {
                            assert(x == e);
                        }
                    }
                    assert forall|x: Entity|
                        (s0.pos.contains_key(x.id) && s0.pos[x.id] < i + 1 && !doomed_at(
                            s0,
                            d,
                            s0.pos[x.id],
                        )) implies #[trigger] new_sorted@.contains(x) by {
                        if s0.pos[x.id] == i as int {
                            assert(s0.order[s0.pos[x.id]].id == x.id);
                            assert(x == e);
                            assert(new_sorted@[new_sorted@.len() - 1] == e);
                        } else {
                            assert(ns0.contains(x));
                        }
                    }
                }
            }
            proof {
                assert forall|id: u32| rm_before(s0, d, id, i + 1) implies (rm_before(
                    s0,
                    d,
                    id,
                    i as int,
                ) || (id == e.id && doomed_at(s0, d, i as int))) by {
                    if s0.pos.contains_key(id) && s0.pos[id] == i as int {
                        assert(s0.order[s0.pos[id]].id == id);
                    }
                }
            }
            i = i + 1;
        }
        proof {
            assert forall|id: u32| rm_before(s0, d, id, n as int) == (s0.pos.contains_key(id)
                && doomed_at(s0, d, s0.pos[id])) by {}
            assert forall|k1: int, k2: int|
                0 <= k1 < k2 < new_sorted@.len() implies (#[trigger] new_sorted@[k1]).id != (
            #[trigger] new_sorted@[k2]).id by {
                assert(s0.pos[new_sorted@[k1].id] < s0.pos[new_sorted@[k2].id]);
            }
        }
        let ghost ns = new_sorted@;
        let ghost sx = self@;
        self.sorted = new_sorted;
        let ghost p_after = self@.parent;
        let ghost k_after = self@.kids;
        proof {
            assert(self@.pos == sx.pos);
            assert(self@.parent == sx.parent);
            assert(self@.kids == sx.kids);
            assert forall|id: u32| #[trigger] self@.pos.contains_key(id) <==> (
            s0.pos.contains_key(id) && !rm_before(s0, d, id, n as int)) by {
                assert(self@.pos.contains_key(id) == sx.pos.contains_key(id));
            }
            assert forall|k: int| 0 <= k < ns.len() implies self@.pos[(#[trigger] ns[k]).id]
                == s0.pos[ns[k].id] by {
                assert(ns.contains(ns[k]));
                assert(sx.pos.contains_key(ns[k].id));
                assert(sx.pos[ns[k].id] == s0.pos[ns[k].id]);
            }
        }
        let n2 = self.sorted.len();
        let mut j: usize = 0;
        while j < n2
            invariant
                0 <= j <= n2,
                n2 == ns.len(),
                self.sorted@ == ns,
                self@.parent == p_after,
                self@.kids == k_after,
                self@.ext == s0.ext,
                self@.log == s0.log,
                forall|id: u32| #[trigger] self@.pos.contains_key(id)
                    <==> (s0.pos.contains_key(id) && !rm_before(s0, d, id, n as int)),
                forall|k: int| 0 <= k < j ==> self@.pos[(#[trigger] ns[k]).id] == k,
                forall|k: int| j <= k < n2 ==> self@.pos[(#[trigger] ns[k]).id] == s0.pos[ns[k].id],
            decreases n2 - j,
        {
            let id = self.sorted[j].id;
            let ghost sh2 = self@;
            proof {
                assert(ns[j as int].id == id);
                assert(ns.contains(ns[j as int]));
                assert(!rm_before(s0, d, id, n as int));
                assert(sh2.pos.contains_key(id));
            }
            self.entities.insert(id, j);
            proof {
                assert(self@.pos =~= sh2.pos.insert(id, j as int));
                assert forall|id2: u32| #[trigger] self@.pos.contains_key(id2) implies (
                s0.pos.contains_key(id2) && !rm_before(s0, d, id2, n as int)) by {
                    if id2 != id {
                        assert(sh2.pos.contains_key(id2));
                    }
                }
                assert forall|id2: u32|
                    s0.pos.contains_key(id2) && !rm_before(s0, d, id2, n as int)
                        implies #[trigger] self@.pos.contains_key(id2) by {
                    assert(sh2.pos.contains_key(id2));
                }
                assert forall|k: int| 0 <= k < j + 1 implies self@.pos[(#[trigger] ns[k]).id] == k by {
                    if k < j as int {
                        assert(ns[k].id != id);
                        assert(sh2.pos[ns[k].id] == k);
                    }
                }
                assert forall|k: int| j + 1 <= k < n2 implies self@.pos[(#[trigger] ns[k]).id]
                    == s0.pos[ns[k].id] by {
                    assert(ns[k].id != id);
                    assert(sh2.pos[ns[k].id] == s0.pos[ns[k].id]);
                }
            }
            j = j + 1;
        }
        proof {
            let sf = self@;
            // positions are now the inverse of the sequence
            assert forall|ii: int| 0 <= ii < sf.order.len() implies (sf.pos.contains_key((
            #[trigger] sf.order[ii]).id) && sf.pos[sf.order[ii].id] == ii) by {
                assert(ns.contains(ns[ii]));
                assert(sf.pos[ns[ii].id] == ii);
            }
            assert forall|id: u32| #[trigger] sf.pos.contains_key(id) implies (0 <= sf.pos[id]
                < sf.order.len() && sf.order[sf.pos[id]].id == id) by {
                assert(s0.pos.contains_key(id) && !doomed_at(s0, d, s0.pos[id]));
                assert(s0.order[s0.pos[id]].id == id);
                assert(s0.order[s0.pos[id]] == Entity { id });
                assert(ns.contains(Entity { id }));
                let k = choose|k: int| 0 <= k < ns.len() && ns[k] == Entity { id };
                assert(sf.pos[ns[k].id] == k);
            }
            assert(sf.inv_positions());
            // parent domain
            assert forall|id: u32| #[trigger] sf.parent.contains_key(id) implies sf.pos.contains_key(
                id,
            ) by {
                assert(s0.inv_parent_dom());
            }
            assert forall|id: u32| #[trigger] sf.pos.contains_key(id) implies sf.parent.contains_key(
                id,
            ) by {
                assert(s0.inv_parent_dom());
            }
            // topological order is preserved on the survivors
            assert forall|id: u32| #[trigger] sf.pos.contains_key(id) implies sf.edge_ordered(
                id,
            ) by {
                let p = sf.parent[id];
                if sf.pos.contains_key(p.id) {
                    assert(p == s0.parent[id]);
                    assert(s0.edge_ordered(id));
                    assert(s0.pos[p.id] < s0.pos[id]);
                    let ke = sf.pos[id];
                    let kp = sf.pos[p.id];
                    assert(sf.order[ke].id == id && sf.order[kp].id == p.id);
                    assert(ns[ke] == Entity { id } && ns[kp] == Entity { id: p.id });
                    assert(s0.pos[ns[ke].id] == s0.pos[id]);
                    assert(s0.pos[ns[kp].id] == s0.pos[p.id]);
                    if kp == ke {
                        assert(false);
                    } else if kp > ke {
                        assert(s0.pos[ns[ke].id] < s0.pos[ns[kp].id]);
                        assert(false);
                    }
                }
            }
            // children lists
            assert forall|id: u32| #[trigger] sf.kids.contains_key(id) implies sf.kids[id].len()
                > 0 by {}
            assert forall|id: u32, jj: int|
                sf.kids.contains_key(id) && 0 <= jj < sf.kids[id].len() implies {
                    let c = #[trigger] sf.kids[id][jj];
                    &&& sf.pos.contains_key(c.id)
                    &&& sf.parent.contains_key(c.id)
                    &&& sf.parent[c.id].id == id
                } by {
                let c = sf.kids[id][jj];
                assert(sf.kids_of(id).contains(c));
                assert(s0.kids.contains_key(id) && s0.kids[id].contains(c));
                assert(s0.inv_kids());
                assert(!rm_before(s0, d, c.id, n as int));
            }
            assert forall|id: u32| #[trigger] sf.pos.contains_key(id) implies {
                &&& sf.kids.contains_key(sf.parent[id].id)
                &&& sf.kids[sf.parent[id].id].contains(Entity { id })
            } by {
                let p = sf.parent[id];
                assert(p == s0.parent[id]);
                assert(s0.kids.contains_key(p.id) && s0.kids[p.id].contains(Entity { id }));
                assert(!rm_before(s0, d, id, n as int));
                // the parent record cannot be gone while the child survived
                if rm_before(s0, d, p.id, n as int) {
                    assert(s0.pos.contains_key(p.id) && doomed_at(s0, d, s0.pos[p.id]));
                    assert(doomed_at(s0, d, s0.pos[id]));
                    assert(false);
                }
                assert(self@.kids.contains_key(p.id) && self@.kids_of(p.id).contains(Entity { id }));
            }
            // external parents: unchanged, still unlinked, still covering
            assert forall|jj: int| 0 <= jj < sf.ext.len() implies !sf.pos.contains_key((
            #[trigger] sf.ext[jj]).id) by {
                assert(!s0.pos.contains_key(s0.ext[jj].id));
            }
            assert forall|id: u32|
                #[trigger] sf.kids.contains_key(id) && !sf.pos.contains_key(id) implies sf.ext.contains(
                Entity { id },
            ) by {
                let c = sf.kids[id][0];
                assert(sf.kids[id].len() > 0);
                assert(sf.kids_of(id).contains(c));
                assert(s0.kids.contains_key(id) && !rm_before(s0, d, id, n as int));
                if s0.pos.contains_key(id) {
                    assert(doomed_at(s0, d, s0.pos[id]));
                    assert(false);
                }
                assert(s0.ext.contains(Entity { id }));
            }
            assert(sf.inv_core());
            // the scratch set is exactly the purge set
            assert forall|e: Entity| #[trigger] scr@.contains(e) implies purged(s0, d, e) by {
                if seeded(s0, d, e) && !(s0.ext.contains(e) && !d.is_alive(e)) {
                    assert(s0.is_linked(e) && d.removed@.contains(e));
                    assert(s0.order[s0.pos[e.id]].id == e.id);
                    assert(s0.order[s0.pos[e.id]] == e);
                    assert(doomed_at(s0, d, s0.pos[e.id]));
                }
            }
            assert forall|e: Entity| purged(s0, d, e) implies #[trigger] scr@.contains(e) by {}
        }
    }

    /// Append one `Removed` event per purged entity and prune the purged
    /// entries from the external-parent set.
    #[verifier::loop_isolation(false)]
    fn emit_removals(&mut self, scr: &Vec<Entity>)
        requires
            distinct_entities(scr@),
            distinct_entities(old(self)@.ext),
        ensures
            final(self)@.log == old(self)@.log + scr@.map_values(
                |e: Entity| HierarchyEvent::Removed(e),
            ),
            forall|x: Entity| #[trigger] final(self)@.ext.contains(x)
                <==> (old(self)@.ext.contains(x) && !scr@.contains(x)),
            distinct_entities(final(self)@.ext),
            final(self)@.order == old(self)@.order,
            final(self)@.pos == old(self)@.pos,
            final(self)@.parent == old(self)@.parent,
            final(self)@.kids == old(self)@.kids,
    {
        let ghost s0 = old(self)@;
        let ghost evf = (|e: Entity| HierarchyEvent::Removed(e));
        let n = scr.len();
        let mut k: usize = 0;
        while k < n
            invariant
                0 <= k <= n,
                self@.order == s0.order,
                self@.pos == s0.pos,
                self@.parent == s0.parent,
                self@.kids == s0.kids,
                self@.ext == s0.ext,
                self@.log == s0.log + scr@.take(k as int).map_values(evf),
            decreases n - k,
        {
            let ev = HierarchyEvent::Removed(scr[k]);
            channel_write(&mut self.changed, ev);
            proof {
                assert(self@.log =~= s0.log + scr@.take(k + 1).map_values(evf));
            }
            k = k + 1;
        }
        proof {
            assert(scr@.take(n as int) =~= scr@);
            assert(self@.log == s0.log + scr@.map_values(evf));
        }
        let m = self.external_parents.len();
        let mut new_ext: Vec<Entity> = Vec::new();
        let mut j: usize = 0;
        while j < m
            invariant
                0 <= j <= m,
                m == s0.ext.len(),
                self@.ext == s0.ext,
                self@.order == s0.order,
                self@.pos == s0.pos,
                self@.parent == s0.parent,
                self@.kids == s0.kids,
                self@.log == s0.log + scr@.map_values(evf),
                forall|x: Entity| #[trigger] new_ext@.contains(x)
                    <==> (s0.ext.take(j as int).contains(x) && !scr@.contains(x)),
                distinct_entities(new_ext@),
            decreases m - j,
        {
            let x = self.external_parents[j];
            proof {
                assert(s0.ext[j as int] == x);
            }
            if !vec_has(scr, x) {
                proof {
                    if new_ext@.contains(x) {
                        let j2 = choose|j2: int|
                            0 <= j2 < j && (#[trigger] s0.ext.take(j as int)[j2]) == x;
                        assert(s0.ext[j2] == s0.ext[j as int]);
                        assert(false);
                    }
                }
                new_ext.push(x);
            }
            proof {
                assert forall|x2: Entity| #[trigger] new_ext@.contains(x2) implies (s0.ext.take(
                    j + 1,
                ).contains(x2) && !scr@.contains(x2)) by {
                    if s0.ext.take(j as int).contains(x2) {
                        let j2 = choose|j2: int|
                            0 <= j2 < j && (#[trigger] s0.ext.take(j as int)[j2]) == x2;
                        assert(s0.ext.take(j + 1)[j2] == x2);
                    } else {
                        assert(x2 == x);
                        assert(s0.ext.take(j + 1)[j as int] == x);
                    }
                }
                assert forall|x2: Entity|
                    s0.ext.take(j + 1).contains(x2) && !scr@.contains(
                        x2,
                    ) implies #[trigger] new_ext@.contains(x2) by {
                    let j2 = choose|j2: int|
                        0 <= j2 < j + 1 && (#[trigger] s0.ext.take(j + 1)[j2]) == x2;
                    if j2 < j {
                        assert(s0.ext.take(j as int)[j2] == x2);
                    } else {
                        assert(x2 == x);
                    }
                }
            }
            j = j + 1;
        }
        proof {
            assert(s0.ext.take(m as int) =~= s0.ext);
        }
        self.external_parents = new_ext;
    }

    /// Restore the topological order after the parent edge of `e` changed:
    /// while an element of the ancestor chain of `e`'s new parent sits after
    /// `e`, pull it out and reinsert it just before the spot where `e`
    /// originally stood, walking up the chain exactly as far as needed.
    #[verifier::loop_isolation(false)]
    #[verifier::rlimit(100)]
    fn pull_up(&mut self, e: Entity)
        requires
            old(self)@.inv_positions(),
            old(self)@.inv_parent_dom(),
            old(self)@.inv_kids(),
            old(self)@.inv_ext_basic(),
            old(self)@.inv_topo_except(e.id),
            old(self)@.pos.contains_key(e.id),
            forall|x: Entity, k: nat| !cp_reach(old(self)@.parent, x, x, k),
        ensures
            final(self)@.inv_core(),
            forall|id: u32| #[trigger] final(self)@.pos.contains_key(id) == old(self)@.pos.contains_key(id),
            final(self)@.parent == old(self)@.parent,
            final(self)@.kids == old(self)@.kids,
            final(self)@.ext == old(self)@.ext,
            final(self)@.log == old(self)@.log,
    {
        let ghost s0 = old(self)@;
        let ghost m = s0.parent;
        let e_idx0 = match self.pos_get(e.id) {
            Some(i) => i,
            None => {
                proof {
                    assert(false);
                }
                0
            },
        };
        let mut e_pos = e_idx0;
        let mut cur = e;
        let mut stop: bool = false;
        let mut p_pos: usize = 0;
        while !stop
            invariant
                self@.parent == m,
                self@.kids == s0.kids,
                self@.ext == s0.ext,
                self@.log == s0.log,
                self@.order.len() == s0.order.len(),
                forall|id: u32| #[trigger] self@.pos.contains_key(id) == s0.pos.contains_key(id),
                self@.inv_positions(),
                e_idx0 <= e_pos < self@.order.len(),
                self@.pos.contains_key(e.id) && self@.pos[e.id] == e_pos as int,
                self@.pos.contains_key(cur.id),
                self@.pos[cur.id] == (if cur == e {
                    e_pos as int
                } else {
                    e_idx0 as int
                }),
                cur == e ==> e_pos == e_idx0,
                self@.inv_topo_except(cur.id),
                forall|q: int|
                    e_idx0 < q <= e_pos ==> cp_step(m, #[trigger] self@.order[q], self@.order[q - 1]),
                self@.order[e_pos as int] == e,
                stop ==> self@.inv_topo(),
            decreases 2 * (self@.order.len() - e_pos) + (if stop {
                0int
            } else {
                1int
            }),
        {
            let par = match self.parent_get(cur.id) {
                Some(p) => p,
                None => {
                    proof {
                        assert(false);
                    }
                    cur
                },
            };
            proof {
                assert(cp_step(m, cur, par));
            }
            let p_pos_opt = self.pos_get(par.id);
            match p_pos_opt {
                None => {
                    stop = true;
                    proof {
                        assert(self@.edge_ordered(cur.id));
                        assert forall|id: u32| #[trigger] self@.pos.contains_key(
                            id,
                        ) implies self@.edge_ordered(id) by {
                            if id != cur.id {
                                assert(self@.inv_topo_except(cur.id));
                            }
                        }
                    }
                },
                Some(pp) => {
                    p_pos = pp;
                    if p_pos <= e_pos {
                        stop = true;
                        proof {
                            assert(self@.order[p_pos as int].id == par.id);
                            assert(self@.order[p_pos as int] == par);
                            // the parent cannot sit inside the pulled block or
                            // on e itself: that would close a cycle
                            if p_pos >= e_idx0 {
                                if p_pos == e_pos {
                                    assert(par == e);
                                    if cur == e {
                                        assert(cp_step(m, e, e));
                                        assert(cp_reach(m, e, e, 1));
                                        assert(false);
                                    } else {
                                        assert(e_idx0 < e_pos);
                                        crate::tick::lemma_chain_reach(
                                            m,
                                            self@.order,
                                            e_idx0 as int,
                                            e_pos as int,
                                            e_idx0 as int,
                                        );
                                        assert(self@.order[e_pos as int] == e);
                                        assert(self@.order[e_idx0 as int] == cur);
                                        assert(cp_reach(m, e, cur, (e_pos - e_idx0) as nat));
                                        crate::tick::lemma_cp_reach_extend(
                                            m,
                                            e,
                                            cur,
                                            e,
                                            (e_pos - e_idx0) as nat,
                                        );
                                        assert(false);
                                    }
                                } else {
                                    // par is an element of the pulled block
                                    let bq = p_pos as int;
                                    assert(e_idx0 <= bq < e_pos);
                                    assert(self@.order[e_idx0 as int] == cur);
                                    if bq == e_idx0 {
                                        assert(par == cur);
                                        assert(cp_step(m, par, par));
                                        assert(cp_reach(m, par, par, 1));
                                        assert(false);
                                    } else {
                                        crate::tick::lemma_chain_reach(
                                            m,
                                            self@.order,
                                            e_idx0 as int,
                                            bq,
                                            e_idx0 as int,
                                        );
                                        assert(cp_reach(m, par, cur, (bq - e_idx0) as nat));
                                        crate::tick::lemma_cp_reach_extend(
                                            m,
                                            par,
                                            cur,
                                            par,
                                            (bq - e_idx0) as nat,
                                        );
                                        assert(false);
                                    }
                                }
                            }
                            assert(p_pos < e_idx0);
                            assert(self@.pos[par.id] < self@.pos[cur.id]);
                            assert(self@.edge_ordered(cur.id));
                            assert forall|id: u32| #[trigger] self@.pos.contains_key(
                                id,
                            ) implies self@.edge_ordered(id) by {
                                if id != cur.id {
                                    assert(self@.inv_topo_except(cur.id));
                                }
                            }
                        }
                    }
                },
            }
            if !stop {
            // pull par out of position p_pos and reinsert it at e_idx0
            let ghost sa = self@;
            proof {
                assert(sa.pos.contains_key(par.id));
                assert(0 <= sa.pos[par.id] < sa.order.len());
                assert(p_pos as int == sa.pos[par.id]);
                assert(sa.order[p_pos as int] == par);
                assert(e_pos < p_pos < sa.order.len());
            }
            let moved = self.sorted.remove(p_pos);
            self.sorted.insert(e_idx0, moved);
            proof {
                assert(moved == par);
                assert(self@.order.len() == sa.order.len());
                assert(forall|q: int|
                    0 <= q < e_idx0 ==> #[trigger] self@.order[q] == sa.order[q]);
                assert(self@.order[e_idx0 as int] == par);
                assert(forall|q: int|
                    e_idx0 < q <= p_pos ==> #[trigger] self@.order[q] == sa.order[q - 1]);
                assert(forall|q: int|
                    p_pos < q < self@.order.len() ==> #[trigger] self@.order[q] == sa.order[q]);
            }
            let ghost ordn = self@.order;
            let slen = self.sorted.len();
            proof {
                assert(p_pos < slen);
            }
            let n2 = p_pos + 1;
            let mut t: usize = e_idx0;
            while t < n2
                invariant
                    e_idx0 <= t <= n2,
                    n2 == p_pos + 1,
                    self.sorted@ == ordn,
                    self@.parent == m,
                    self@.kids == s0.kids,
                    self@.ext == s0.ext,
                    self@.log == s0.log,
                    forall|id: u32| #[trigger] self@.pos.contains_key(id) == s0.pos.contains_key(
                        id,
                    ),
                    forall|q: int|
                        0 <= q < ordn.len() && (q < e_idx0 || q > p_pos) ==> self@.pos[(
                        #[trigger] ordn[q]).id] == q,
                    forall|q: int|
                        e_idx0 <= q < t ==> self@.pos[(#[trigger] ordn[q]).id] == q,
                    forall|q: int|
                        t <= q <= p_pos ==> self@.pos[(#[trigger] ordn[q]).id] == (if q == e_idx0 {
                            p_pos as int
                        } else {
                            q - 1
                        }),
                decreases n2 - t,
            {
                let id = self.sorted[t].id;
                let ghost sh3 = self@;
                proof {
                    assert(ordn[t as int].id == id);
                    // every element of the sequence is a known key
                    if t as int == e_idx0 as int {
                        assert(sa.pos.contains_key(par.id));
                    } else {
                        assert(ordn[t as int] == sa.order[t - 1]);
                        assert(sa.pos.contains_key(sa.order[t - 1].id));
                    }
                    assert(sh3.pos.contains_key(id));
                }
                self.entities.insert(id, t);
                proof {
                    assert(self@.pos =~= sh3.pos.insert(id, t as int));
                    assert forall|q: int|
                        0 <= q < ordn.len() && q != t as int && self@.pos.contains_key(
                            ordn[q].id,
                        ) && ordn[q].id != id implies self@.pos[(#[trigger] ordn[q]).id]
                        == sh3.pos[ordn[q].id] by {}
                    // distinctness of ids along the sequence
                    assert forall|q: int|
                        0 <= q < ordn.len() && q != t as int implies (#[trigger] ordn[q]).id
                            != id by {
                        let v1 = if t as int == e_idx0 as int {
                            p_pos as int
                        } else {
                            t - 1
                        };
                        let v2 = if q < e_idx0 || q > p_pos {
                            q
                        } else if q == e_idx0 {
                            p_pos as int
                        } else {
                            q - 1
                        };
                        assert(sa.order[v1].id == ordn[t as int].id);
                        assert(sa.order[v2].id == ordn[q].id);
                        assert(v1 != v2);
                        assert(sa.pos[sa.order[v1].id] == v1 && sa.pos[sa.order[v2].id] == v2);
                    }
                }
                t = t + 1;
            }
            proof {
                // the position map is again the inverse of the sequence
                assert forall|q: int| 0 <= q < ordn.len() implies self@.pos.contains_key((
                #[trigger] ordn[q]).id) && self@.pos[ordn[q].id] == q by {
                    let v2 = if q < e_idx0 || q > p_pos {
                        q
                    } else if q == e_idx0 {
                        p_pos as int
                    } else {
                        q - 1
                    };
                    assert(sa.order[v2].id == ordn[q].id);
                    assert(sa.pos.contains_key(sa.order[v2].id));
                }
                assert forall|id: u32| #[trigger] self@.pos.contains_key(id) implies (0
                    <= self@.pos[id] < self@.order.len() && self@.order[self@.pos[id]].id
                    == id) by {
                    assert(sa.pos.contains_key(id));
                    let v = sa.pos[id];
                    assert(sa.order[v].id == id);
                    let q = if v == p_pos as int {
                        e_idx0 as int
                    } else if e_idx0 <= v < p_pos {
                        v + 1
                    } else {
                        v
                    };
                    assert(ordn[q].id == id);
                    assert(self@.pos[ordn[q].id] == q);
                }
                assert(self@.inv_positions());
                // every old position maps to its shifted new position
                assert forall|id: u32| #[trigger] sa.pos.contains_key(id) implies self@.pos[id]
                    == (if sa.pos[id] == p_pos as int {
                    e_idx0 as int
                } else if e_idx0 <= sa.pos[id] < p_pos {
                    sa.pos[id] + 1
                } else {
                    sa.pos[id]
                }) by {
                    let v = sa.pos[id];
                    assert(sa.order[v].id == id);
                    let q = if v == p_pos as int {
                        e_idx0 as int
                    } else if e_idx0 <= v < p_pos {
                        v + 1
                    } else {
                        v
                    };
                    assert(ordn[q].id == id);
                    assert(self@.pos[ordn[q].id] == q);
                }
                // the topological order still holds everywhere but at par
                assert forall|id: u32|
                    #[trigger] self@.pos.contains_key(id) && id != par.id implies self@.edge_ordered(
                    id,
                ) by {
                    let pid2 = m[id].id;
                    if self@.pos.contains_key(pid2) {
                        assert(sa.pos.contains_key(id) && sa.pos.contains_key(pid2));
                        if id == cur.id {
                            assert(pid2 == par.id);
                            assert(sa.pos[pid2] == p_pos as int);
                            assert(self@.pos[pid2] == e_idx0 as int);
                            assert(sa.pos[id] == (if cur == e {
                                e_pos as int
                            } else {
                                e_idx0 as int
                            }));
                            assert(self@.pos[id] == sa.pos[id] + 1);
                        } else {
                            assert(sa.edge_ordered(id));
                            assert(sa.pos[pid2] < sa.pos[id]);
                            if pid2 == par.id {
                                assert(sa.pos[pid2] == p_pos as int);
                                assert(sa.pos[id] > p_pos as int);
                                assert(self@.pos[id] == sa.pos[id]);
                                assert(self@.pos[pid2] == e_idx0 as int);
                                assert(self@.pos[pid2] < self@.pos[id]);
                            } else {
                                let va = sa.pos[pid2];
                                let vb = sa.pos[id];
                                assert(va < vb && va != p_pos as int && vb != p_pos as int
                                    || va < vb && vb == p_pos as int && va != p_pos as int
                                    || va < vb && va == p_pos as int);
                                if vb == p_pos as int {
                                    assert(id == par.id);
                                    assert(false);
                                }
                                assert(self@.pos[pid2] < self@.pos[id]);
                            }
                        }
                    }
                }
                // the chain block grew by one
                assert forall|q: int|
                    e_idx0 < q <= e_pos + 1 implies cp_step(
                    m,
                    #[trigger] self@.order[q],
                    self@.order[q - 1],
                ) by {
                    if q == e_idx0 + 1 {
                        assert(self@.order[q] == sa.order[q - 1]);
                        assert(sa.order[e_idx0 as int] == cur);
                        assert(self@.order[e_idx0 as int] == par);
                        assert(cp_step(m, cur, par));
                    } else {
                        assert(self@.order[q] == sa.order[q - 1]);
                        assert(self@.order[q - 1] == sa.order[q - 2]);
                        assert(cp_step(m, sa.order[q - 1], sa.order[q - 2]));
                    }
                }
                assert(self@.order[(e_pos + 1) as int] == sa.order[e_pos as int]);
            }
            e_pos = e_pos + 1;
            cur = moved;
            }
        }
        proof {
            let sf = self@;
            assert(sf.inv_parent_dom());
            assert(sf.inv_kids());
            assert(sf.inv_ext_basic());
            assert(sf.inv_core());
        }
    }

    /// Insert the untracked entity `e` at position `idx` of the sorted
    /// sequence, shifting and reindexing everything from `idx` on.
    #[verifier::loop_isolation(false)]
    fn insert_at(&mut self, e: Entity, idx: usize)
        requires
            old(self)@.inv_positions(),
            !old(self)@.pos.contains_key(e.id),
            idx <= old(self)@.order.len(),
        ensures
            final(self)@.inv_positions(),
            final(self)@.order == old(self)@.order.insert(idx as int, e),
            forall|id: u32| #[trigger] final(self)@.pos.contains_key(id) == (old(self)@.pos.contains_key(id) || id == e.id),
            final(self)@.pos[e.id] == idx as int,
            forall|id: u32| #[trigger] old(self)@.pos.contains_key(id) ==> final(self)@.pos[id]
                == (if old(self)@.pos[id] >= idx as int {
                old(self)@.pos[id] + 1
            } else {
                old(self)@.pos[id]
            }),
            final(self)@.parent == old(self)@.parent,
            final(self)@.kids == old(self)@.kids,
            final(self)@.ext == old(self)@.ext,
            final(self)@.log == old(self)@.log,
    {
        let ghost sa = old(self)@;
        self.sorted.insert(idx, e);
        let n2 = self.sorted.len();
        self.entities.insert(e.id, idx);
        let ghost ordn = self@.order;
        proof {
            assert(forall|q: int| 0 <= q < idx ==> #[trigger] ordn[q] == sa.order[q]);
            assert(ordn[idx as int] == e);
            assert(forall|q: int| idx < q < ordn.len() ==> #[trigger] ordn[q] == sa.order[q - 1]);
            assert forall|q1: int, q2: int|
                0 <= q1 < q2 < ordn.len() implies (#[trigger] ordn[q1]).id != (
            #[trigger] ordn[q2]).id by {
                let v1 = if q1 < idx {
                    q1
                } else {
                    q1 - 1
                };
                let v2 = if q2 < idx {
                    q2
                } else {
                    q2 - 1
                };
                if q1 == idx {
                    assert(ordn[q1] == e);
                    assert(sa.pos.contains_key(sa.order[v2].id));
                } else if q2 == idx {
                    assert(ordn[q2] == e);
                    assert(sa.pos.contains_key(sa.order[v1].id));
                } else {
                    assert(sa.pos[sa.order[v1].id] == v1 && sa.pos[sa.order[v2].id] == v2);
                    if v1 == v2 {
                        assert(q1 < idx && q2 > idx && q2 - 1 == q1);
                        assert(false);
                    }
                }
            }
        }
        let mut t: usize = idx + 1;
        while t < n2
            invariant
                idx + 1 <= t <= n2,
                n2 == ordn.len(),
                self.sorted@ == ordn,
                self@.parent == sa.parent,
                self@.kids == sa.kids,
                self@.ext == sa.ext,
                self@.log == sa.log,
                forall|id: u32| #[trigger] self@.pos.contains_key(id) == (sa.pos.contains_key(id)
                    || id == e.id),
                self@.pos[e.id] == idx as int,
                forall|q: int| 0 <= q < idx ==> self@.pos[(#[trigger] ordn[q]).id] == q,
                forall|q: int| idx < q < t ==> self@.pos[(#[trigger] ordn[q]).id] == q,
                forall|q: int| t <= q < n2 ==> self@.pos[(#[trigger] ordn[q]).id] == q - 1,
            decreases n2 - t,
        {
            let id = self.sorted[t].id;
            let ghost sh = self@;
            proof {
                assert(ordn[t as int].id == id);
                assert(ordn[t as int] == sa.order[t - 1]);
                assert(sa.pos.contains_key(sa.order[t - 1].id));
                assert(sh.pos.contains_key(id));
            }
            self.entities.insert(id, t);
            proof {
                assert(self@.pos =~= sh.pos.insert(id, t as int));
                assert forall|q: int|
                    0 <= q < ordn.len() && q != t as int implies (#[trigger] ordn[q]).id != id by {}
            }
            t = t + 1;
        }
        proof {
            assert forall|q: int| 0 <= q < ordn.len() implies self@.pos.contains_key((
            #[trigger] ordn[q]).id) && self@.pos[ordn[q].id] == q by {
                if q != idx as int {
                    let v = if q < idx {
                        q
                    } else {
                        q - 1
                    };
                    assert(ordn[q] == sa.order[v]);
                    assert(sa.pos.contains_key(sa.order[v].id));
                }
            }
            assert forall|id: u32| #[trigger] self@.pos.contains_key(id) implies (0 <= self@.pos[id]
                < self@.order.len() && self@.order[self@.pos[id]].id == id) by {
                if id == e.id {
                    assert(self@.pos[id] == idx as int);
                } else {
                    assert(sa.pos.contains_key(id));
                    let v = sa.pos[id];
                    assert(sa.order[v].id == id);
                    let q = if v < idx {
                        v
                    } else {
                        v + 1
                    };
                    assert(ordn[q].id == id);
                    assert(self@.pos[ordn[q].id] == q);
                }
            }
            assert(self@.inv_positions());
            assert forall|id: u32| #[trigger] sa.pos.contains_key(id) implies self@.pos[id] == (if sa.pos[id] >= idx as int {
                sa.pos[id] + 1
            } else {
                sa.pos[id]
            }) by {
                let v = sa.pos[id];
                assert(sa.order[v].id == id);
                let q = if v < idx {
                    v
                } else {
                    v + 1
                };
                assert(ordn[q].id == id);
                assert(self@.pos[ordn[q].id] == q);
            }
        }
    }

    /// The earliest position currently held by a recorded child of `id`,
    /// or the length of the sequence if there are none.
    #[verifier::loop_isolation(false)]
    fn min_child_pos(&self, id: u32) -> (r: usize)
        requires
            self@.inv_positions(),
            self@.inv_kids(),
        ensures
            r <= self@.order.len(),
            forall|j: int|
                0 <= j < self@.kids_of(id).len() ==> self@.pos[(#[trigger] self@.kids_of(id)[j]).id]
                    >= r,
            self@.kids.contains_key(id) ==> exists|j: int|
                0 <= j < self@.kids_of(id).len() && self@.pos[(#[trigger] self@.kids_of(id)[j]).id]
                    == r,
            !self@.kids.contains_key(id) ==> r == self@.order.len(),
    {
        let n = self.sorted.len();
        let mut r = n;
        let l = match self.children.get(&id) {
            None => {
                return r;
            },
            Some(l) => l,
        };
        let m = l.len();
        let ghost ks = self@.kids_of(id);
        proof {
            assert(ks == l@);
        }
        let mut j: usize = 0;
        while j < m
            invariant
                0 <= j <= m,
                m == ks.len(),
                l@ == ks,
                r <= n,
                n == self@.order.len(),
                forall|j2: int| 0 <= j2 < j ==> self@.pos[(#[trigger] ks[j2]).id] >= r,
                r == n || exists|j2: int|
                    0 <= j2 < j && self@.pos[(#[trigger] ks[j2]).id] == r as int,
                j > 0 && m > 0 ==> r < n,
            decreases m - j,
        {
            let c = l[j];
            proof {
                assert(ks[j as int] == c);
                assert(self@.kids.contains_key(id) && self@.kids_of(id).contains(c));
                assert(self@.pos.contains_key(c.id));
            }
            let cp = match self.pos_get(c.id) {
                Some(p) => p,
                None => {
                    proof {
                        assert(false);
                    }
                    0
                },
            };
            proof {
                assert(0 <= self@.pos[c.id] < self@.order.len());
            }
            if cp < r {
                r = cp;
                proof {
                    assert(self@.pos[(ks[j as int]).id] == r as int);
                }
            }
            j = j + 1;
        }
        proof {
            if m > 0 {
                assert(self@.kids.contains_key(id));
            } else {
                assert(ks.len() == 0);
                assert(self@.kids.contains_key(id) ==> self@.kids[id].len() > 0);
                assert(self@.kids_of(id) == ks);
                if self@.kids.contains_key(id) {
                    assert(false);
                }
            }
        }
        r
    }

    /// Drop `x` from the external-parent list, if present.
    #[verifier::loop_isolation(false)]
    fn ext_remove(&mut self, x: Entity)
        requires
            forall|j1: int, j2: int|
                0 <= j1 < j2 < old(self)@.ext.len() ==> old(self)@.ext[j1] != old(self)@.ext[j2],
        ensures
            forall|y: Entity| #[trigger] final(self)@.ext.contains(y) == (old(self)@.ext.contains(y) && y != x),
            forall|j1: int, j2: int|
                0 <= j1 < j2 < final(self)@.ext.len() ==> final(self)@.ext[j1] != final(self)@.ext[j2],
            final(self)@.order == old(self)@.order,
            final(self)@.pos == old(self)@.pos,
            final(self)@.parent == old(self)@.parent,
            final(self)@.kids == old(self)@.kids,
            final(self)@.log == old(self)@.log,
    {
        let ghost x0 = old(self)@.ext;
        let n = self.external_parents.len();
        let mut i: usize = 0;
        while i < n
            invariant
                0 <= i <= n,
                n == x0.len(),
                self@.ext == x0,
                self@.order == old(self)@.order,
                self@.pos == old(self)@.pos,
                self@.parent == old(self)@.parent,
                self@.kids == old(self)@.kids,
                self@.log == old(self)@.log,
                forall|j: int| 0 <= j < i ==> x0[j] != x,
            decreases n - i,
        {
            if self.external_parents[i].id == x.id {
                proof {
                    assert(x0[i as int] == x);
                }
                self.external_parents.remove(i);
                proof {
                    assert(self@.ext =~= x0.remove(i as int));
                    assert forall|y: Entity| #[trigger] self@.ext.contains(y) implies (
                    x0.contains(y) && y != x) by {
                        let jj = choose|jj: int| 0 <= jj < self@.ext.len() && self@.ext[jj] == y;
                        if jj < i {
                            assert(x0[jj] == y);
                            assert(x0[jj] != x0[i as int]);
                        } else {
                            assert(x0[jj + 1] == y);
                            assert(x0[i as int] != x0[jj + 1]);
                        }
                    }
                    assert forall|y: Entity| x0.contains(y) && y != x implies #[trigger] self@.ext.contains(
                        y,
                    ) by {
                        let jj = choose|jj: int| 0 <= jj < x0.len() && x0[jj] == y;
                        if jj < i {
                            assert(self@.ext[jj] == y);
                        } else {
                            assert(jj != i);
                            assert(self@.ext[jj - 1] == y);
                        }
                    }
                    assert forall|j1: int, j2: int|
                        0 <= j1 < j2 < self@.ext.len() implies self@.ext[j1] != self@.ext[j2] by {
                        let a1 = if j1 < i {
                            j1
                        } else {
                            j1 + 1
                        };
                        let a2 = if j2 < i {
                            j2
                        } else {
                            j2 + 1
                        };
                        assert(self@.ext[j1] == x0[a1] && self@.ext[j2] == x0[a2]);
                    }
                }
                return ;
            }
            i = i + 1;
        }
        proof {
            assert forall|y: Entity| #[trigger] self@.ext.contains(y) implies y != x by {
                let jj = choose|jj: int| 0 <= jj < x0.len() && x0[jj] == y;
                assert(x0[jj] != x);
            }
        }
    }

    /// Phase 2 of the maintenance pass: insertion.
    ///
    /// Each entity with a freshly inserted link is placed no later than the
    /// earliest position held by any of its recorded children (end of the
    /// sequence if it has none), registered under its parent, and marked
    /// dirty; the parent is recorded as external if it carries no link.
    #[verifier::loop_isolation(false)]
    #[verifier::rlimit(100)]
    fn phase_insert(&mut self, data: &ParentData<P>) -> (dirty: Vec<Entity>)
        requires
            old(self)@.inv_core(),
            tick_acyclic(old(self)@, *data),
            distinct_entities(data.inserted@),
        ensures
            final(self)@.inv_core(),
            forall|id: u32| #[trigger] final(self)@.pos.contains_key(id)
                <==> (old(self)@.pos.contains_key(id) || (data.inserted@.contains(Entity { id })
                    && data.applicable(Entity { id }))),
            forall|id: u32| #[trigger] old(self)@.pos.contains_key(id)
                ==> final(self)@.parent.contains_key(id)
                    && final(self)@.parent[id] == old(self)@.parent[id],
            forall|id: u32|
                #[trigger] final(self)@.pos.contains_key(id) && !old(self)@.pos.contains_key(id)
                    ==> final(self)@.parent[id] == data.link_parent(Entity { id }),
            forall|e: Entity| #[trigger] dirty@.contains(e)
                <==> (data.inserted@.contains(e) && data.applicable(e) && !old(self)@.pos.contains_key(e.id)),
            distinct_entities(dirty@),
            final(self)@.log == old(self)@.log,
            data.inserted@.len() == 0 ==> final(self)@ == old(self)@,
    {
        let ghost s1 = old(self)@;
        let ghost d = *data;
        let mut dirty: Vec<Entity> = Vec::new();
        let n = data.inserted.len();
        let mut k: usize = 0;
        while k < n
            invariant
                0 <= k <= n,
                n == d.inserted@.len(),
                self@.inv_core(),
                forall|id: u32| #[trigger] self@.pos.contains_key(id)
                    <==> (s1.pos.contains_key(id) || (d.inserted@.take(k as int).contains(
                        Entity { id },
                    ) && d.applicable(Entity { id }))),
                forall|id: u32| #[trigger] s1.pos.contains_key(id) ==> self@.parent.contains_key(id)
                    && self@.parent[id] == s1.parent[id],
                forall|id: u32|
                    #[trigger] self@.pos.contains_key(id) && !s1.pos.contains_key(id)
                        ==> self@.parent[id] == d.link_parent(Entity { id }),
                forall|e2: Entity| #[trigger] dirty@.contains(e2)
                    <==> (d.inserted@.take(k as int).contains(e2) && d.applicable(e2)
                        && !s1.pos.contains_key(e2.id)),
                distinct_entities(dirty@),
                self@.log == s1.log,
                n == 0 ==> self@ == s1,
            decreases n - k,
        {
            let e = data.inserted[k];
            let ghost sh = self@;
            proof {
                assert(d.inserted@[k as int] == e);
                assert(d.inserted@.contains(e));
            }
            let alive = data.alive_now(e);
            let bo = data.parent_link_of(e);
            let already = self.entities.contains_key(&e.id);
            let mut b = e;
            let mut act: bool = false;
            match bo {
                Some(bb) => {
                    if alive && !already {
                        b = bb;
                        act = true;
                    }
                },
                None => {},
            }
            if act {
                proof {
                    assert(d.applicable(e));
                    assert(!sh.pos.contains_key(e.id));
                    assert(b == d.link_parent(e));
                }
                let idx = self.min_child_pos(e.id);
                let ghost kse = self@.kids_of(e.id);
                self.insert_at(e, idx);
                let ghost s_a = self@;
                self.attach_child(b.id, e);
                let ghost s_b = self@;
                self.current_parent.insert(e.id, b);
                let ghost sm = self@;
                self.ext_remove(e);
                let b_linked = self.current_parent.contains_key(&b.id);
                if !b_linked {
                    if !vec_has(&self.external_parents, b) {
                        proof {
                            assert(!self@.ext.contains(b));
                        }
                        self.external_parents.push(b);
                    }
                }
                proof {
                    let sc = self@;
                    if b == e {
                        assert(tick_edge(s1, d, e, b));
                        assert(tick_reaches(s1, d, e, e, 1));
                        assert(false);
                    }
                    // parent domain matches position domain
                    assert(sc.parent =~= sh.parent.insert(e.id, b));
                    assert forall|id: u32| #[trigger] sc.parent.contains_key(
                        id,
                    ) implies sc.pos.contains_key(id) by {
                        if id != e.id {
                            assert(sh.parent.contains_key(id));
                        }
                    }
                    assert forall|id: u32| #[trigger] sc.pos.contains_key(
                        id,
                    ) implies sc.parent.contains_key(id) by {
                        if id != e.id {
                            assert(sh.pos.contains_key(id));
                        }
                    }
                    // children lists still well formed
                    assert(s_a.kids == sh.kids);
                    assert(sm.kids == s_b.kids);
                    assert(sc.kids == sm.kids);
                    assert forall|q: u32| q != b.id implies (#[trigger] sc.kids.contains_key(q))
                        == sh.kids.contains_key(q) && sc.kids_of(q) == sh.kids_of(q) by {
                        assert(s_b.kids.contains_key(q) == s_a.kids.contains_key(q));
                        assert(s_b.kids_of(q) == s_a.kids_of(q));
                    }
                    assert(sc.kids.contains_key(b.id));
                    assert(sc.kids_of(b.id) == sh.kids_of(b.id).push(e));
                    assert forall|id: u32| #[trigger] sc.kids.contains_key(id) implies sc.kids[id].len()
                        > 0 by {
                        if id != b.id {
                            assert(sh.kids.contains_key(id));
                        }
                    }
                    assert forall|id: u32, jj: int|
                        sc.kids.contains_key(id) && 0 <= jj < sc.kids[id].len() implies {
                            let c = #[trigger] sc.kids[id][jj];
                            &&& sc.pos.contains_key(c.id)
                            &&& sc.parent.contains_key(c.id)
                            &&& sc.parent[c.id].id == id
                        } by {
                        let c = sc.kids[id][jj];
                        assert(sc.kids[id] == sc.kids_of(id));
                        if id == b.id {
                            assert(sc.kids_of(id) == sh.kids_of(b.id).push(e));
                            if jj == sc.kids_of(id).len() - 1 {
                                assert(c == e);
                            } else {
                                assert(c == sh.kids_of(b.id)[jj]);
                                assert(sh.kids.contains_key(b.id));
                                assert(c.id != e.id);
                            }
                        } else {
                            assert(sh.kids.contains_key(id) && sh.kids[id][jj] == c);
                            assert(c.id != e.id);
                        }
                    }
                    assert forall|id: u32, j1: int, j2: int|
                        sc.kids.contains_key(id) && 0 <= j1 < j2 < sc.kids[id].len() implies
                        #[trigger] sc.kids[id][j1] != #[trigger] sc.kids[id][j2] by {
                        assert(sc.kids[id] == sc.kids_of(id));
                        if id == b.id {
                            assert(sc.kids_of(id) == sh.kids_of(b.id).push(e));
                            if j2 == sc.kids_of(id).len() - 1 {
                                assert(sc.kids_of(id)[j1] == sh.kids_of(b.id)[j1]);
                                assert(sh.kids.contains_key(b.id));
                                assert(sh.kids_of(b.id)[j1].id != e.id);
                            } else {
                                assert(sh.kids.contains_key(id));
                                assert(sc.kids_of(id)[j1] == sh.kids_of(b.id)[j1]);
                                assert(sc.kids_of(id)[j2] == sh.kids_of(b.id)[j2]);
                            }
                        } else {
                            assert(sh.kids.contains_key(id));
                            assert(sc.kids_of(id) == sh.kids_of(id));
                        }
                    }
                    assert forall|id: u32| #[trigger] sc.pos.contains_key(id) implies {
                        &&& sc.kids.contains_key(sc.parent[id].id)
                        &&& sc.kids[sc.parent[id].id].contains(Entity { id })
                    } by {
                        if id == e.id {
                            assert(sc.kids_of(b.id)[sc.kids_of(b.id).len() - 1] == e);
                            assert(sc.kids[b.id].contains(Entity { id }));
                        } else {
                            assert(sh.pos.contains_key(id));
                            assert(sh.kids.contains_key(sh.parent[id].id));
                            assert(sh.kids[sh.parent[id].id].contains(Entity { id }));
                            assert(sc.parent[id] == sh.parent[id]);
                            if sh.parent[id].id == b.id {
                                let jj = choose|jj: int|
                                    0 <= jj < sh.kids[b.id].len() && sh.kids[b.id][jj] == Entity {
                                        id,
                                    };
                                assert(sh.kids_of(b.id)[jj] == Entity { id });
                                assert(sc.kids_of(b.id)[jj] == Entity { id });
                                assert(sc.kids[b.id].contains(Entity { id }));
                            } else {
                                assert(sc.kids_of(sh.parent[id].id) == sh.kids_of(
                                    sh.parent[id].id,
                                ));
                            }
                        }
                    }
                    // external parents still well formed
                    assert forall|jj: int| 0 <= jj < sc.ext.len() implies !sc.pos.contains_key((
                    #[trigger] sc.ext[jj]).id) by {
                        let x = sc.ext[jj];
                        assert(sc.ext.contains(x));
                        if sm.ext.contains(x) {
                            assert(sh.ext.contains(x) && x != e);
                            let j3 = choose|j3: int| 0 <= j3 < sh.ext.len() && sh.ext[j3] == x;
                            assert(!sh.pos.contains_key(sh.ext[j3].id));
                            assert(x.id != e.id);
                        } else {
                            assert(x == b);
                            assert(!sm.parent.contains_key(b.id));
                            assert(!sc.parent.contains_key(b.id));
                        }
                    }
                    assert forall|j1: int, j2: int|
                        0 <= j1 < j2 < sc.ext.len() implies #[trigger] sc.ext[j1] != #[trigger] sc.ext[j2] by {}
                    assert forall|id: u32|
                        #[trigger] sc.kids.contains_key(id) && !sc.pos.contains_key(
                            id,
                        ) implies sc.ext.contains(Entity { id }) by {
                        if id == b.id {
                            assert(!sc.parent.contains_key(b.id));
                            assert(sc.ext.contains(b));
                        } else {
                            assert(sh.kids.contains_key(id));
                            assert(!sh.pos.contains_key(id));
                            assert(sh.ext.contains(Entity { id }));
                            assert(Entity { id } != e);
                            assert(sm.ext.contains(Entity { id }));
                        }
                    }
                    assert(sc.inv_ext_basic());
                    // topological order holds except possibly at e itself
                    assert forall|id: u32|
                        #[trigger] sc.pos.contains_key(id) && id != e.id implies sc.edge_ordered(
                        id,
                    ) by {
                        let pid2 = sc.parent[id].id;
                        assert(sh.pos.contains_key(id));
                        assert(sc.parent[id] == sh.parent[id]);
                        assert(sc.pos[id] == (if sh.pos[id] >= idx as int {
                            sh.pos[id] + 1
                        } else {
                            sh.pos[id]
                        }));
                        if sc.pos.contains_key(pid2) {
                            if pid2 == e.id {
                                // a recorded child of e: e was placed at or
                                // before its earliest child
                                assert(sh.kids.contains_key(e.id) && sh.kids[e.id].contains(
                                    Entity { id },
                                ));
                                assert(kse == sh.kids_of(e.id));
                                let jj = choose|jj: int|
                                    0 <= jj < kse.len() && kse[jj] == Entity { id };
                                assert(sh.pos[kse[jj].id] >= idx as int);
                                assert(sc.pos[e.id] == idx as int);
                            } else {
                                assert(sh.pos.contains_key(pid2));
                                assert(sh.edge_ordered(id));
                                assert(sc.pos[pid2] == (if sh.pos[pid2] >= idx as int {
                                    sh.pos[pid2] + 1
                                } else {
                                    sh.pos[pid2]
                                }));
                            }
                        }
                    }
                    assert(sc.inv_topo_except(e.id));
                    // the current parent map has no cycle
                    assert forall|c: Entity, p: Entity| #[trigger] cp_step(
                        sc.parent,
                        c,
                        p,
                    ) implies tick_edge(s1, d, c, p) by {
                        if c.id == e.id {
                            assert(sc.parent[c.id] == b);
                            assert(d.applicable(c) ==> d.link_parent(c) == p) by {
                                assert(c == e);
                            }
                            assert(c == e);
                            assert(d.applicable(e) && d.link_parent(e) == b);
                        } else {
                            assert(sh.parent.contains_key(c.id));
                            assert(sc.parent[c.id] == sh.parent[c.id]);
                            if s1.pos.contains_key(c.id) {
                                assert(s1.parent.contains_key(c.id));
                                assert(sh.parent[c.id] == s1.parent[c.id]);
                            } else {
                                assert(sh.pos.contains_key(c.id));
                                assert(sh.parent[c.id] == d.link_parent(Entity { id: c.id }));
                                assert(Entity { id: c.id } == c);
                                assert(d.inserted@.take(k as int).contains(c) && d.applicable(c));
                            }
                        }
                    }
                    crate::tick::lemma_cp_sane(sc.parent, s1, d, e);
                }
                self.pull_up(e);
                proof {
                    if dirty@.contains(e) {
                        assert(d.inserted@.take(k as int).contains(e));
                        let jj = choose|jj: int|
                            0 <= jj < k && (#[trigger] d.inserted@.take(k as int)[jj]) == e;
                        assert(d.inserted@[jj] == d.inserted@[k as int]);
                        assert(false);
                    }
                }
                dirty.push(e);
            }
            proof {
                let sc = self@;
                assert(d.inserted@.take(k + 1) =~= d.inserted@.take(k as int).push(e));
                assert forall|id: u32| #[trigger] sc.pos.contains_key(id) implies (
                s1.pos.contains_key(id) || (d.inserted@.take(k + 1).contains(Entity { id })
                    && d.applicable(Entity { id }))) by {
                    if !s1.pos.contains_key(id) && !(d.inserted@.take(k as int).contains(
                        Entity { id },
                    ) && d.applicable(Entity { id })) {
                        assert(id == e.id);
                        assert(d.inserted@.take(k + 1)[k as int] == e);
                    } else {
                        if d.inserted@.take(k as int).contains(Entity { id }) {
                            let jj = choose|jj: int|
                                0 <= jj < k && (#[trigger] d.inserted@.take(k as int)[jj])
                                    == Entity { id };
                            assert(d.inserted@.take(k + 1)[jj] == Entity { id });
                        }
                    }
                }
                assert forall|id: u32|
                    s1.pos.contains_key(id) || (d.inserted@.take(k + 1).contains(Entity { id })
                        && d.applicable(Entity { id })) implies #[trigger] sc.pos.contains_key(
                    id,
                ) by {
                    if d.inserted@.take(k + 1).contains(Entity { id }) && d.applicable(
                        Entity { id },
                    ) && !s1.pos.contains_key(id) {
                        let jj = choose|jj: int|
                            0 <= jj < k + 1 && (#[trigger] d.inserted@.take(k + 1)[jj]) == Entity {
                                id,
                            };
                        if jj < k {
                            assert(d.inserted@.take(k as int)[jj] == Entity { id });
                        } else {
                            assert(Entity { id } == e);
                            assert(d.applicable(e));
                            if d.inserted@.take(k as int).contains(e) {
                                let jj2 = choose|jj2: int|
                                    0 <= jj2 < k && (#[trigger] d.inserted@.take(k as int)[jj2])
                                        == e;
                                assert(d.inserted@[jj2] == d.inserted@[k as int]);
                                assert(false);
                            }
                            assert(!sh.pos.contains_key(e.id));
                            assert(act);
                            assert(sc.pos.contains_key(e.id));
                        }
                    }
                }
                assert forall|e2: Entity| #[trigger] dirty@.contains(e2) implies (
                d.inserted@.take(k + 1).contains(e2) && d.applicable(e2) && !s1.pos.contains_key(
                    e2.id,
                )) by {
                    if d.inserted@.take(k as int).contains(e2) {
                        let jj = choose|jj: int|
                            0 <= jj < k && (#[trigger] d.inserted@.take(k as int)[jj]) == e2;
                        assert(d.inserted@.take(k + 1)[jj] == e2);
                    } else {
                        assert(e2 == e);
                        assert(d.inserted@.take(k + 1)[k as int] == e);
                    }
                }
                assert forall|e2: Entity|
                    d.inserted@.take(k + 1).contains(e2) && d.applicable(e2)
                        && !s1.pos.contains_key(e2.id) implies #[trigger] dirty@.contains(e2) by {
                    let jj = choose|jj: int|
                        0 <= jj < k + 1 && (#[trigger] d.inserted@.take(k + 1)[jj]) == e2;
                    if jj < k {
                        assert(d.inserted@.take(k as int)[jj] == e2);
                    } else {
                        assert(e2 == e);
                        assert(d.applicable(e));
                        if d.inserted@.take(k as int).contains(e) {
                            let jj2 = choose|jj2: int|
                                0 <= jj2 < k && (#[trigger] d.inserted@.take(k as int)[jj2]) == e;
                            assert(d.inserted@[jj2] == d.inserted@[k as int]);
                            assert(false);
                        }
                        assert(!sh.pos.contains_key(e.id));
                        assert(act);
                        assert(dirty@[dirty@.len() - 1] == e);
                    }
                }
            }
            k = k + 1;
        }
        proof {
            assert(d.inserted@.take(n as int) =~= d.inserted@);
        }
        dirty
    }

    /// Phase 3 of the maintenance pass: reparenting.
    ///
    /// Each tracked entity whose link value changed to a different parent is
    /// detached from its old parent's children list, attached to the new
    /// one's, pulled into a position after its new parent, and marked dirty.
    /// A modified entity that is no longer tracked (its subtree was removed
    /// this very tick) is ignored.
    #[verifier::loop_isolation(false)]
    #[verifier::rlimit(100)]
    fn phase_modified(&mut self, data: &ParentData<P>, dirty: &mut Vec<Entity>)
        requires
            old(self)@.inv_core(),
            tick_acyclic(old(self)@, *data),
            distinct_entities(data.modified@),
            distinct_entities(old(dirty)@),
            forall|e: Entity| #[trigger] old(dirty)@.contains(e) ==> (data.applicable(e) && old(self)@.pos.contains_key(e.id) && old(self)@.parent[e.id] == data.link_parent(e)),
        ensures
            final(self)@.inv_core(),
            forall|id: u32| #[trigger] final(self)@.pos.contains_key(id) == old(self)@.pos.contains_key(id),
            forall|id: u32| #[trigger] final(self)@.pos.contains_key(id)
                ==> final(self)@.parent.contains_key(id) && final(self)@.parent[id] == (if data.modified@.contains(Entity { id }) && data.applicable(Entity { id }) {
                data.link_parent(Entity { id })
            } else {
                old(self)@.parent[id]
            }),
            forall|e: Entity| #[trigger] final(dirty)@.contains(e)
                <==> (old(dirty)@.contains(e) || (data.modified@.contains(e) && data.applicable(e)
                    && old(self)@.pos.contains_key(e.id) && old(self)@.parent[e.id]
                    != data.link_parent(e))),
            distinct_entities(final(dirty)@),
            final(self)@.log == old(self)@.log,
            data.modified@.len() == 0 ==> final(self)@ == old(self)@ && final(dirty)@ == old(dirty)@,
    {
        let ghost s2 = old(self)@;
        let ghost d = *data;
        let ghost d0 = old(dirty)@;
        let n = data.modified.len();
        let mut k: usize = 0;
        while k < n
            invariant
                0 <= k <= n,
                n == d.modified@.len(),
                self@.inv_core(),
                forall|id: u32| #[trigger] self@.pos.contains_key(id) == s2.pos.contains_key(id),
                forall|id: u32| #[trigger] self@.pos.contains_key(id)
                    ==> self@.parent.contains_key(id) && self@.parent[id] == (if d.modified@.take(
                    k as int,
                ).contains(Entity { id }) && d.applicable(Entity { id }) {
                    d.link_parent(Entity { id })
                } else {
                    s2.parent[id]
                }),
                forall|e2: Entity| #[trigger] dirty@.contains(e2)
                    <==> (d0.contains(e2) || (d.modified@.take(k as int).contains(e2)
                        && d.applicable(e2) && s2.pos.contains_key(e2.id) && s2.parent[e2.id]
                        != d.link_parent(e2))),
                distinct_entities(dirty@),
                forall|e2: Entity| #[trigger] dirty@.contains(e2) ==> (d.applicable(e2)
                    && self@.pos.contains_key(e2.id) && self@.parent[e2.id] == d.link_parent(e2)),
                self@.log == s2.log,
                n == 0 ==> self@ == s2 && dirty@ == d0,
            decreases n - k,
        {
            let e = data.modified[k];
            let ghost sh = self@;
            proof {
                assert(d.modified@[k as int] == e);
                assert(d.modified@.contains(e));
            }
            let alive = data.alive_now(e);
            let bo = data.parent_link_of(e);
            let tracked_now = self.entities.contains_key(&e.id);
            let mut b = e;
            let mut act: bool = false;
            match bo {
                Some(bb) => {
                    if alive && tracked_now {
                        b = bb;
                        act = true;
                    }
                },
                None => {},
            }
            let mut moved_it: bool = false;
            if act {
                proof {
                    assert(d.applicable(e));
                    assert(sh.pos.contains_key(e.id));
                    assert(b == d.link_parent(e));
                }
                let old_p = match self.parent_get(e.id) {
                    Some(p) => p,
                    None => {
                        proof {
                            assert(false);
                        }
                        e
                    },
                };
                if old_p.id != b.id {
                    moved_it = true;
                    proof {
                        assert(old_p != b);
                        if b == e {
                            assert(tick_edge(s2, d, e, b));
                            assert(tick_reaches(s2, d, e, e, 1));
                            assert(false);
                        }
                        assert(sh.kids.contains_key(old_p.id) && sh.kids[old_p.id].contains(
                            Entity { id: e.id },
                        ));
                        assert(Entity { id: e.id } == e);
                    }
                    self.detach_child(old_p.id, e);
                    let ghost s_a = self@;
                    self.attach_child(b.id, e);
                    let ghost s_b = self@;
                    self.current_parent.insert(e.id, b);
                    let ghost sm = self@;
                    let b_linked = self.current_parent.contains_key(&b.id);
                    if !b_linked {
                        if !vec_has(&self.external_parents, b) {
                            proof {
                                assert(!self@.ext.contains(b));
                            }
                            self.external_parents.push(b);
                        }
                    }
                    proof {
                        let sc = self@;
                        assert(sc.order == sh.order && sc.pos == sh.pos && sc.log == sh.log);
                        assert(sc.parent == sm.parent && sc.kids == sm.kids);
                        assert(sc.parent =~= sh.parent.insert(e.id, b));
                        // children-list bookkeeping across the two updates
                        assert forall|q: u32|
                            q != old_p.id && q != b.id implies (#[trigger] sc.kids.contains_key(q))
                                == sh.kids.contains_key(q) && sc.kids_of(q) == sh.kids_of(q) by {
                            assert(s_a.kids.contains_key(q) == sh.kids.contains_key(q));
                            assert(s_a.kids_of(q) == sh.kids_of(q));
                            assert(s_b.kids.contains_key(q) == s_a.kids.contains_key(q));
                            assert(s_b.kids_of(q) == s_a.kids_of(q));
                        }
                        assert(sc.kids.contains_key(b.id));
                        assert(sc.kids_of(b.id) == s_a.kids_of(b.id).push(e));
                        assert forall|x: Entity| #[trigger] s_a.kids_of(old_p.id).contains(x)
                            implies (sh.kids_of(old_p.id).contains(x) && x != e) by {}
                        // parent domain matches position domain
                        assert forall|id: u32| #[trigger] sc.parent.contains_key(
                            id,
                        ) implies sc.pos.contains_key(id) by {
                            if id != e.id {
                                assert(sh.parent.contains_key(id));
                            }
                        }
                        assert forall|id: u32| #[trigger] sc.pos.contains_key(
                            id,
                        ) implies sc.parent.contains_key(id) by {
                            if id != e.id {
                                assert(sh.pos.contains_key(id));
                            }
                        }
                        // children lists still well formed
                        assert forall|id: u32| #[trigger] sc.kids.contains_key(
                            id,
                        ) implies sc.kids[id].len() > 0 by {
                            if id == b.id {
                                assert(sc.kids_of(b.id).len() > 0);
                            } else if id == old_p.id {
                                assert(s_a.kids.contains_key(id));
                                assert(s_b.kids_of(id) == s_a.kids_of(id));
                                assert(s_a.kids_of(id).len() > 0);
                            } else {
                                assert(sh.kids.contains_key(id));
                                assert(sh.kids[id].len() > 0);
                                assert(sc.kids_of(id) == sh.kids_of(id));
                            }
                        }
                        assert forall|id: u32, jj: int|
                            sc.kids.contains_key(id) && 0 <= jj < sc.kids[id].len() implies {
                                let c = #[trigger] sc.kids[id][jj];
                                &&& sc.pos.contains_key(c.id)
                                &&& sc.parent.contains_key(c.id)
                                &&& sc.parent[c.id].id == id
                            } by {
                            let c = sc.kids[id][jj];
                            assert(sc.kids[id] == sc.kids_of(id));
                            if id == b.id {
                                if jj == sc.kids_of(id).len() - 1 {
                                    assert(c == e);
                                } else {
                                    assert(c == s_a.kids_of(b.id)[jj]);
                                    assert(s_a.kids_of(b.id).contains(c));
                                    if b.id == old_p.id {
                                        assert(false);
                                    }
                                    assert(sh.kids_of(b.id).contains(c));
                                    assert(sh.kids.contains_key(b.id));
                                    assert(c.id != e.id);
                                }
                            } else if id == old_p.id {
                                assert(s_b.kids_of(id) == s_a.kids_of(id));
                                assert(sc.kids_of(id) == s_b.kids_of(id));
                                assert(s_a.kids_of(old_p.id).contains(c));
                                assert(sh.kids_of(old_p.id).contains(c) && c != e);
                                assert(sh.kids.contains_key(old_p.id));
                                assert(c.id != e.id);
                            } else {
                                assert(sc.kids_of(id) == sh.kids_of(id));
                                assert(sh.kids.contains_key(id));
                                assert(sh.kids[id][jj] == c);
                                assert(c.id != e.id);
                            }
                        }
                        assert forall|id: u32, j1: int, j2: int|
                            sc.kids.contains_key(id) && 0 <= j1 < j2 < sc.kids[id].len() implies
                            #[trigger] sc.kids[id][j1] != #[trigger] sc.kids[id][j2] by {
                            assert(sc.kids[id] == sc.kids_of(id));
                            if id == b.id {
                                assert(sc.kids_of(id) == s_a.kids_of(b.id).push(e));
                                if j2 == sc.kids_of(id).len() - 1 {
                                    assert(sc.kids_of(id)[j1] == s_a.kids_of(b.id)[j1]);
                                    assert(s_a.kids_of(b.id).contains(s_a.kids_of(b.id)[j1]));
                                    if b.id == old_p.id {
                                        assert(false);
                                    }
                                    assert(sh.kids_of(b.id).contains(s_a.kids_of(b.id)[j1]));
                                    assert(sh.kids.contains_key(b.id));
                                    assert(s_a.kids_of(b.id)[j1].id != e.id);
                                } else {
                                    assert(sc.kids_of(id)[j1] == s_a.kids_of(b.id)[j1]);
                                    assert(sc.kids_of(id)[j2] == s_a.kids_of(b.id)[j2]);
                                    assert(s_a.kids_of(b.id) == sh.kids_of(b.id));
                                    assert(sh.kids.contains_key(b.id) || sh.kids_of(b.id).len()
                                        == 0);
                                    if sh.kids.contains_key(b.id) {
                                    } else {
                                        assert(false);
                                    }
                                }
                            } else if id == old_p.id {
                                assert(s_b.kids_of(id) == s_a.kids_of(id));
                                assert(sc.kids_of(id) == s_b.kids_of(id));
                            } else {
                                assert(sc.kids_of(id) == sh.kids_of(id));
                                assert(sh.kids.contains_key(id));
                            }
                        }
                        assert forall|id: u32| #[trigger] sc.pos.contains_key(id) implies {
                            &&& sc.kids.contains_key(sc.parent[id].id)
                            &&& sc.kids[sc.parent[id].id].contains(Entity { id })
                        } by {
                            if id == e.id {
                                assert(sc.kids_of(b.id)[sc.kids_of(b.id).len() - 1] == e);
                                assert(sc.kids[b.id].contains(Entity { id }));
                            } else {
                                assert(sh.pos.contains_key(id));
                                let pid = sh.parent[id].id;
                                assert(sc.parent[id] == sh.parent[id]);
                                assert(sh.kids.contains_key(pid) && sh.kids[pid].contains(
                                    Entity { id },
                                ));
                                if pid == old_p.id {
                                    assert(s_a.kids_of(pid).contains(Entity { id }));
                                    assert(s_a.kids.contains_key(pid));
                                    if pid == b.id {
                                        assert(false);
                                    }
                                    assert(s_b.kids_of(pid) == s_a.kids_of(pid));
                                    assert(s_b.kids.contains_key(pid) == s_a.kids.contains_key(
                                        pid,
                                    ));
                                    assert(sc.kids_of(pid) == s_b.kids_of(pid));
                                    assert(sc.kids.contains_key(pid));
                                } else if pid == b.id {
                                    let jj = choose|jj: int|
                                        0 <= jj < sh.kids[pid].len() && sh.kids[pid][jj] == Entity {
                                            id,
                                        };
                                    assert(s_a.kids_of(pid) == sh.kids_of(pid));
                                    assert(sc.kids_of(pid)[jj] == Entity { id });
                                    assert(sc.kids[pid].contains(Entity { id }));
                                } else {
                                    assert(sc.kids_of(pid) == sh.kids_of(pid));
                                    assert(sc.kids.contains_key(pid));
                                }
                            }
                        }
                        // external parents still well formed
                        assert forall|jj: int|
                            0 <= jj < sc.ext.len() implies !sc.pos.contains_key((
                        #[trigger] sc.ext[jj]).id) by {
                            let x = sc.ext[jj];
                            assert(sc.ext.contains(x));
                            if sh.ext.contains(x) {
                                let j3 = choose|j3: int| 0 <= j3 < sh.ext.len() && sh.ext[j3] == x;
                                assert(!sh.pos.contains_key(sh.ext[j3].id));
                            } else {
                                assert(x == b);
                                assert(!sm.parent.contains_key(b.id));
                                assert(!sc.parent.contains_key(b.id));
                            }
                        }
                        assert forall|id: u32|
                            #[trigger] sc.kids.contains_key(id) && !sc.pos.contains_key(
                                id,
                            ) implies sc.ext.contains(Entity { id }) by {
                            if id == b.id {
                                assert(!sc.parent.contains_key(b.id));
                                assert(sc.ext.contains(b));
                            } else {
                                assert(sh.kids.contains_key(id)) by {
                                    if id == old_p.id {
                                        assert(s_b.kids.contains_key(id) == s_a.kids.contains_key(
                                            id,
                                        ));
                                        if !s_a.kids.contains_key(id) {
                                            assert(!sc.kids.contains_key(id));
                                            assert(false);
                                        }
                                    }
                                }
                                assert(sh.ext.contains(Entity { id }));
                            }
                        }
                        assert(sc.inv_ext_basic());
                        // the order itself is untouched, so only e's edge
                        // can violate the topological invariant
                        assert forall|id: u32|
                            #[trigger] sc.pos.contains_key(id) && id != e.id implies sc.edge_ordered(
                            id,
                        ) by {
                            assert(sh.pos.contains_key(id));
                            assert(sh.edge_ordered(id));
                            assert(sc.parent[id] == sh.parent[id]);
                            assert(sc.pos == sh.pos);
                        }
                        assert(sc.inv_topo_except(e.id));
                        // the current parent map has no cycle
                        assert forall|c: Entity, p: Entity| #[trigger] cp_step(
                            sc.parent,
                            c,
                            p,
                        ) implies tick_edge(s2, d, c, p) by {
                            if c.id == e.id {
                                assert(c == e);
                                assert(sc.parent[c.id] == b);
                                assert(d.applicable(e) && d.link_parent(e) == b);
                            } else {
                                assert(sh.parent.contains_key(c.id));
                                assert(sh.pos.contains_key(c.id));
                                assert(Entity { id: c.id } == c);
                                if d.modified@.take(k as int).contains(c) && d.applicable(c) {
                                    assert(sh.parent[c.id] == d.link_parent(c));
                                } else {
                                    assert(sh.parent[c.id] == s2.parent[c.id]);
                                    assert(s2.pos.contains_key(c.id));
                                    assert(s2.parent.contains_key(c.id));
                                }
                            }
                        }
                        crate::tick::lemma_cp_sane(sc.parent, s2, d, e);
                    }
                    self.pull_up(e);
                    proof {
                        if dirty@.contains(e) {
                            assert(sh.parent[e.id] == d.link_parent(e));
                            assert(old_p == sh.parent[e.id]);
                            assert(false);
                        }
                    }
                    dirty.push(e);
                }
            }
            proof {
                let sc = self@;
                assert(d.modified@.take(k + 1) =~= d.modified@.take(k as int).push(e));
                // the parent of every tracked entity is as specified
                assert forall|id: u32| #[trigger] sc.pos.contains_key(id) implies
                    sc.parent.contains_key(id) && sc.parent[id] == (if d.modified@.take(
                    k + 1,
                ).contains(Entity { id }) && d.applicable(Entity { id }) {
                    d.link_parent(Entity { id })
                } else {
                    s2.parent[id]
                }) by {
                    let ee = Entity { id };
                    if d.modified@.take(k + 1).contains(ee) && d.applicable(ee) {
                        let jj = choose|jj: int|
                            0 <= jj < k + 1 && (#[trigger] d.modified@.take(k + 1)[jj]) == ee;
                        if jj < k {
                            assert(d.modified@.take(k as int)[jj] == ee);
                            assert(d.modified@.take(k as int).contains(ee));
                            if ee.id == e.id {
                                let j4 = choose|j4: int|
                                    0 <= j4 < k && (#[trigger] d.modified@.take(k as int)[j4])
                                        == ee;
                                assert(d.modified@[j4] == d.modified@[k as int]);
                                assert(false);
                            }
                            assert(sc.parent[id] == sh.parent[id]);
                        } else {
                            assert(ee == e);
                            if moved_it {
                                assert(sc.parent[e.id] == b);
                            } else {
                                if act {
                                    assert(sh.parent[e.id].id == b.id);
                                    assert(sh.parent[e.id] == b);
                                    if d.modified@.take(k as int).contains(e) {
                                        let j4 = choose|j4: int|
                                            0 <= j4 < k && (#[trigger] d.modified@.take(
                                                k as int,
                                            )[j4]) == e;
                                        assert(d.modified@[j4] == d.modified@[k as int]);
                                        assert(false);
                                    }
                                    assert(sh.parent[e.id] == s2.parent[e.id]);
                                    assert(sc.parent[e.id] == d.link_parent(e));
                                } else {
                                    assert(!sh.pos.contains_key(e.id) || !d.applicable(e));
                                    assert(false);
                                }
                            }
                        }
                    } else {
                        if d.modified@.take(k as int).contains(ee) && d.applicable(ee) {
                            let jj = choose|jj: int|
                                0 <= jj < k && (#[trigger] d.modified@.take(k as int)[jj]) == ee;
                            assert(d.modified@.take(k + 1)[jj] == ee);
                            assert(false);
                        }
                        if moved_it && id == e.id {
                            assert(d.modified@.take(k + 1)[k as int] == e);
                            assert(false);
                        }
                        assert(sc.parent[id] == sh.parent[id]);
                    }
                }
                // dirty-set bookkeeping
                assert forall|e2: Entity| #[trigger] dirty@.contains(e2) implies (d0.contains(e2)
                    || (d.modified@.take(k + 1).contains(e2) && d.applicable(e2)
                        && s2.pos.contains_key(e2.id) && s2.parent[e2.id] != d.link_parent(
                        e2,
                    ))) by {
                    if e2 == e && moved_it && !d0.contains(e) {
                        assert(d.modified@.take(k + 1)[k as int] == e);
                        if d.modified@.take(k as int).contains(e) {
                            let j4 = choose|j4: int|
                                0 <= j4 < k && (#[trigger] d.modified@.take(k as int)[j4]) == e;
                            assert(d.modified@[j4] == d.modified@[k as int]);
                            assert(false);
                        }
                        assert(sh.parent[e.id] == s2.parent[e.id]);
                    } else if dirty@.contains(e2) && !(e2 == e && moved_it) {
                        if d.modified@.take(k as int).contains(e2) {
                            let jj = choose|jj: int|
                                0 <= jj < k && (#[trigger] d.modified@.take(k as int)[jj]) == e2;
                            assert(d.modified@.take(k + 1)[jj] == e2);
                        }
                    }
                }
                assert forall|e2: Entity|
                    (d0.contains(e2) || (d.modified@.take(k + 1).contains(e2) && d.applicable(e2)
                        && s2.pos.contains_key(e2.id) && s2.parent[e2.id] != d.link_parent(
                        e2,
                    ))) implies #[trigger] dirty@.contains(e2) by {
                    if !d0.contains(e2) && d.modified@.take(k + 1).contains(e2) {
                        let jj = choose|jj: int|
                            0 <= jj < k + 1 && (#[trigger] d.modified@.take(k + 1)[jj]) == e2;
                        if jj < k {
                            assert(d.modified@.take(k as int)[jj] == e2);
                        } else {
                            assert(e2 == e);
                            if d.applicable(e2) && s2.pos.contains_key(e2.id) && s2.parent[e2.id]
                                != d.link_parent(e2) {
                                assert(sh.pos.contains_key(e.id));
                                assert(act);
                                if d.modified@.take(k as int).contains(e) {
                                    let j4 = choose|j4: int|
                                        0 <= j4 < k && (#[trigger] d.modified@.take(k as int)[j4])
                                            == e;
                                    assert(d.modified@[j4] == d.modified@[k as int]);
                                    assert(false);
                                }
                                assert(sh.parent[e.id] == s2.parent[e.id]);
                                assert(moved_it);
                                assert(dirty@[dirty@.len() - 1] == e);
                            }
                        }
                    }
                }
            }
            k = k + 1;
        }
        proof {
            assert(d.modified@.take(n as int) =~= d.modified@);
        }
    }

    /// Phase 4 of the maintenance pass: notification and pruning.
    ///
    /// Every entity that is dirty, or sits below a dirty ancestor, gets one
    /// `Modified` event, in sorted order; afterwards, external parents whose
    /// children have all gone are pruned from the external-parent set.
    #[verifier::loop_isolation(false)]
    #[verifier::rlimit(100)]
    fn phase_notify(&mut self, dirty: &mut Vec<Entity>)
        requires
            old(self)@.inv_core(),
            distinct_entities(old(dirty)@),
            forall|e: Entity| #[trigger] old(dirty)@.contains(e) ==> old(self)@.pos.contains_key(
                e.id,
            ),
        ensures
            final(self)@.inv(),
            final(self)@.order == old(self)@.order,
            final(self)@.pos == old(self)@.pos,
            final(self)@.parent == old(self)@.parent,
            final(self)@.kids == old(self)@.kids,
            forall|x: Entity| #[trigger] final(self)@.ext.contains(x)
                <==> (old(self)@.ext.contains(x) && old(self)@.kids.contains_key(x.id)),
            final(self)@.log.len() >= old(self)@.log.len(),
            final(self)@.log.take(old(self)@.log.len() as int) == old(self)@.log,
            modified_events_ok(
                old(self)@,
                old(dirty)@.to_set(),
                final(self)@.log.skip(old(self)@.log.len() as int),
            ),
            (old(dirty)@.len() == 0 && (forall|j: int|
                0 <= j < old(self)@.ext.len() ==> old(self)@.kids.contains_key(
                    (#[trigger] old(self)@.ext[j]).id,
                ))) ==> final(self)@ == old(self)@,
    {
        let ghost s4 = old(self)@;
        let ghost dd = old(dirty)@.to_set();
        let ghost evf = (|x: Entity| HierarchyEvent::Modified(x));
        let ghost mut noted: Seq<Entity> = Seq::empty();
        if !dirty.is_empty() {
            let n = self.sorted.len();
            let mut i: usize = 0;
            while i < n
                invariant
                    0 <= i <= n,
                    n == s4.order.len(),
                    self.sorted@ == s4.order,
                    self@.pos == s4.pos,
                    self@.parent == s4.parent,
                    self@.kids == s4.kids,
                    self@.ext == s4.ext,
                    forall|e: Entity| #[trigger] dirty@.contains(e)
                        <==> (dd.contains(e) || (s4.pos.contains_key(e.id) && s4.pos[e.id]
                            < i as int && notified(s4, dd, s4.pos[e.id]))),
                    distinct_entities(dirty@),
                    forall|e: Entity| #[trigger] dd.contains(e) ==> s4.pos.contains_key(e.id),
                    self@.log == s4.log + noted.map_values(evf),
                    forall|x: Entity| #[trigger] noted.contains(x)
                        <==> (s4.pos.contains_key(x.id) && s4.pos[x.id] < i as int && notified(
                            s4,
                            dd,
                            s4.pos[x.id],
                        )),
                    forall|k1: int, k2: int|
                        0 <= k1 < k2 < noted.len() ==> s4.pos[(#[trigger] noted[k1]).id] < s4.pos[(
                        #[trigger] noted[k2]).id],
                    forall|k1: int| 0 <= k1 < noted.len() ==> s4.pos.contains_key(
                        (#[trigger] noted[k1]).id,
                    ),
                decreases n - i,
            {
                let e = self.sorted[i];
                proof {
                    assert(s4.order[i as int] == e);
                    assert(s4.pos.contains_key(e.id) && s4.pos[e.id] == i as int);
                }
                let in_d = vec_has(dirty, e);
                let p = match self.parent_get(e.id) {
                    Some(p) => p,
                    None => {
                        proof {
                            assert(false);
                        }
                        e
                    },
                };
                let p_in_d = vec_has(dirty, p);
                let notif = in_d || p_in_d;
                proof {
                    assert(p == s4.parent[e.id]);
                    assert(in_d == dd.contains(e));
                    if s4.pos.contains_key(p.id) {
                        assert(s4.edge_ordered(e.id));
                        assert(s4.pos[p.id] < i as int);
                        assert(s4.order[s4.pos[p.id]].id == p.id);
                        assert(s4.order[s4.pos[p.id]] == p);
                        assert(p_in_d == (dd.contains(p) || notified(s4, dd, s4.pos[p.id])));
                        if dd.contains(p) {
                            assert(notified(s4, dd, s4.pos[p.id]));
                        }
                        assert(p_in_d == notified(s4, dd, s4.pos[p.id]));
                    } else {
                        assert(!dd.contains(p));
                        assert(!p_in_d);
                    }
                    assert(notif == notified(s4, dd, i as int));
                }
                if notif {
                    if !in_d {
                        proof {
                            if dirty@.contains(e) {
                                assert(false);
                            }
                        }
                        dirty.push(e);
                    }
                    let ev = HierarchyEvent::Modified(e);
                    channel_write(&mut self.changed, ev);
                    proof {
                        let noted2 = noted.push(e);
                        assert(noted2.map_values(evf) =~= noted.map_values(evf).push(ev));
                        assert(self@.log =~= s4.log + noted2.map_values(evf));
                        if noted.contains(e) {
                            assert(false);
                        }
                        assert forall|k1: int, k2: int|
                            0 <= k1 < k2 < noted2.len() implies s4.pos[(
                        #[trigger] noted2[k1]).id] < s4.pos[(#[trigger] noted2[k2]).id] by {
                            if k2 == noted2.len() - 1 {
                                assert(noted2[k1] == noted[k1]);
                                assert(noted.contains(noted[k1]));
                                assert(s4.pos[noted[k1].id] < i as int);
                            }
                        }
                        noted = noted2;
                    }
                }
                proof {
                    assert forall|x: Entity| #[trigger] noted.contains(x) implies (
                    s4.pos.contains_key(x.id) && s4.pos[x.id] < i + 1 && notified(
                        s4,
                        dd,
                        s4.pos[x.id],
                    )) by {}
                    assert forall|x: Entity|
                        s4.pos.contains_key(x.id) && s4.pos[x.id] < i + 1 && notified(
                            s4,
                            dd,
                            s4.pos[x.id],
                        ) implies #[trigger] noted.contains(x) by {
                        if s4.pos[x.id] == i as int {
                            assert(s4.order[s4.pos[x.id]].id == x.id);
                            assert(x == e);
                            assert(notif);
                            assert(noted[noted.len() - 1] == e);
                        }
                    }
                    assert forall|e2: Entity| #[trigger] dirty@.contains(e2) implies (dd.contains(
                        e2,
                    ) || (s4.pos.contains_key(e2.id) && s4.pos[e2.id] < i + 1 && notified(
                        s4,
                        dd,
                        s4.pos[e2.id],
                    ))) by {}
                    assert forall|e2: Entity|
                        (dd.contains(e2) || (s4.pos.contains_key(e2.id) && s4.pos[e2.id] < i + 1
                            && notified(s4, dd, s4.pos[e2.id]))) implies #[trigger] dirty@.contains(
                        e2,
                    ) by {
                        if !dd.contains(e2) && s4.pos.contains_key(e2.id) && s4.pos[e2.id]
                            == i as int && notified(s4, dd, s4.pos[e2.id]) {
                            assert(s4.order[s4.pos[e2.id]].id == e2.id);
                            assert(e2 == e);
                            assert(notif);
                            assert(dirty@.contains(e));
                        }
                    }
                }
                i = i + 1;
            }
        } else {
            proof {
                assert forall|e: Entity| !dd.contains(e) by {
                    assert(!dirty@.contains(e));
                }
                assert forall|x: Entity|
                    s4.pos.contains_key(x.id) && notified(
                        s4,
                        dd,
                        #[trigger] s4.pos[x.id],
                    ) implies false by {
                    crate::tick::lemma_no_dirty_no_notified(s4, dd, s4.pos[x.id]);
                }
                assert(noted.map_values(evf) =~= Seq::<HierarchyEvent>::empty());
                assert(self@.log =~= s4.log + noted.map_values(evf));
            }
        }
        // prune external parents that no longer have children
        let ghost sp = self@;
        let ghost x0 = self@.ext;
        let m = self.external_parents.len();
        let mut new_ext: Vec<Entity> = Vec::new();
        let mut j: usize = 0;
        while j < m
            invariant
                0 <= j <= m,
                m == x0.len(),
                self@.ext == x0,
                self@.order == sp.order,
                self@.pos == sp.pos,
                self@.parent == sp.parent,
                self@.kids == sp.kids,
                self@.log == sp.log,
                forall|x: Entity| #[trigger] new_ext@.contains(x)
                    <==> (x0.take(j as int).contains(x) && sp.kids.contains_key(x.id)),
                distinct_entities(new_ext@),
                (forall|jj: int| 0 <= jj < j ==> sp.kids.contains_key((#[trigger] x0[jj]).id))
                    ==> new_ext@ == x0.take(j as int),
            decreases m - j,
        {
            let x = self.external_parents[j];
            proof {
                assert(x0[j as int] == x);
            }
            if self.children.contains_key(&x.id) {
                proof {
                    if new_ext@.contains(x) {
                        let j2 = choose|j2: int|
                            0 <= j2 < j && (#[trigger] x0.take(j as int)[j2]) == x;
                        assert(x0[j2] == x0[j as int]);
                        assert(sp.inv_ext_basic());
                        assert(false);
                    }
                }
                new_ext.push(x);
            }
            proof {
                assert(x0.take(j + 1) =~= x0.take(j as int).push(x));
                assert forall|x2: Entity| #[trigger] new_ext@.contains(x2) implies (x0.take(
                    j + 1,
                ).contains(x2) && sp.kids.contains_key(x2.id)) by {
                    if x0.take(j as int).contains(x2) {
                        let j2 = choose|j2: int|
                            0 <= j2 < j && (#[trigger] x0.take(j as int)[j2]) == x2;
                        assert(x0.take(j + 1)[j2] == x2);
                    }
                }
                assert forall|x2: Entity|
                    x0.take(j + 1).contains(x2) && sp.kids.contains_key(
                        x2.id,
                    ) implies #[trigger] new_ext@.contains(x2) by {
                    let j2 = choose|j2: int|
                        0 <= j2 < j + 1 && (#[trigger] x0.take(j + 1)[j2]) == x2;
                    if j2 < j {
                        assert(x0.take(j as int)[j2] == x2);
                    } else {
                        assert(x2 == x);
                        assert(new_ext@[new_ext@.len() - 1] == x);
                    }
                }
            }
            j = j + 1;
        }
        proof {
            assert(x0.take(m as int) =~= x0);
        }
        self.external_parents = new_ext;
        proof {
            let sf = self@;
            assert(sf.order == sp.order && sf.pos == sp.pos && sf.parent == sp.parent && sf.kids
                == sp.kids && sf.log == sp.log);
            // full well-formedness, including tight external parents
            assert forall|jj: int| 0 <= jj < sf.ext.len() implies (!sf.pos.contains_key((
            #[trigger] sf.ext[jj]).id) && sf.kids.contains_key(sf.ext[jj].id)) by {
                let x = sf.ext[jj];
                assert(sf.ext.contains(x));
                assert(x0.contains(x));
                let j3 = choose|j3: int| 0 <= j3 < x0.len() && x0[j3] == x;
                assert(sp.inv_ext_basic());
                assert(!sp.pos.contains_key(x0[j3].id));
            }
            assert forall|id: u32|
                #[trigger] sf.kids.contains_key(id) && !sf.pos.contains_key(
                    id,
                ) implies sf.ext.contains(Entity { id }) by {
                assert(sp.inv_ext_basic());
                assert(sp.ext.contains(Entity { id }));
            }
            assert(sf.inv_ext_basic() && sf.inv_ext_tight());
            assert(sf.inv());
            // the appended events are exactly the notifications
            let suffix = sf.log.skip(s4.log.len() as int);
            assert(suffix =~= noted.map_values(evf));
            assert(sf.log.take(s4.log.len() as int) =~= s4.log);
            assert forall|kk: int| 0 <= kk < suffix.len() implies {
                let x = (#[trigger] suffix[kk])->Modified_0;
                &&& suffix[kk] is Modified
                &&& s4.pos.contains_key(x.id)
                &&& notified(s4, dd, s4.pos[x.id])
            } by {
                assert(suffix[kk] == evf(noted[kk]));
                assert(noted.contains(noted[kk]));
            }
            assert forall|x: Entity|
                s4.pos.contains_key(x.id) && notified(
                    s4,
                    dd,
                    #[trigger] s4.pos[x.id],
                ) implies suffix.contains(HierarchyEvent::Modified(x)) by {
                assert(noted.contains(x));
                let kk = choose|kk: int| 0 <= kk < noted.len() && noted[kk] == x;
                assert(suffix[kk] == HierarchyEvent::Modified(x));
            }
            assert forall|k1: int, k2: int| 0 <= k1 < k2 < suffix.len() implies suffix[k1]
                != suffix[k2] by {
                assert(suffix[k1] == evf(noted[k1]) && suffix[k2] == evf(noted[k2]));
                assert(s4.pos[noted[k1].id] < s4.pos[noted[k2].id]);
                if noted[k1] == noted[k2] {
                    assert(false);
                }
            }
            assert(modified_events_ok(s4, dd, suffix));
        }
    }

    /// Maintain the hierarchy for one tick, usually called by
    /// [`crate::HierarchySystem`].
    ///
    /// Consumes one batch of change-feed events and runs the four phases:
    /// cascading removal, insertion, reparenting, and notification. One
    /// `Removed` event is appended per purged entity, then one `Modified`
    /// event per entity that was inserted or reparented or sits below one,
    /// in sorted order.
    ///
    /// The caller must never make the link relation cyclic, not even
    /// transiently while the batch is applied; the change feed must deliver
    /// each of the three sets without duplicates, and must not report an
    /// insertion for an entity that is already tracked unless its removal
    /// is delivered in the same batch.
    #[verifier::rlimit(100)]
    pub fn maintain(&mut self, data: ParentData<P>)
        requires
            old(self).wf(),
            distinct_entities(data.inserted@),
            distinct_entities(data.modified@),
            distinct_entities(data.removed@),
            forall|e: Entity|
                data.inserted@.contains(e) && data.applicable(e) && old(self)@.pos.contains_key(
                    e.id,
                ) ==> data.removed@.contains(e),
            tick_acyclic(old(self)@, data),
        ensures
            final(self).wf(),
            forall|e: Entity| #[trigger] final(self)@.pos.contains_key(e.id)
                <==> (survivor(old(self)@, data, e) || (data.inserted@.contains(e)
                    && data.applicable(e))),
            forall|e: Entity| #[trigger] final(self)@.pos.contains_key(e.id)
                ==> final(self)@.parent.contains_key(e.id) && final(self)@.parent[e.id] == (if (
                data.inserted@.contains(e) || data.modified@.contains(e)) && data.applicable(e) {
                    data.link_parent(e)
                } else {
                    old(self)@.parent[e.id]
                }),
            final(self)@.log.len() >= old(self)@.log.len(),
            final(self)@.log.take(old(self)@.log.len() as int) == old(self)@.log,
            forall|e: Entity| #[trigger] final(self)@.log.skip(old(self)@.log.len() as int).contains(
                HierarchyEvent::Removed(e),
            ) <==> purged(old(self)@, data, e),
            forall|e: Entity| #[trigger] final(self)@.log.skip(old(self)@.log.len() as int).contains(
                HierarchyEvent::Modified(e),
            ) <==> (final(self)@.pos.contains_key(e.id) && notified(
                final(self)@,
                Set::new(|e2: Entity| dirty_seed(old(self)@, data, e2)),
                final(self)@.pos[e.id],
            )),
            forall|k1: int, k2: int|
                0 <= k1 < k2 < final(self)@.log.len() - old(self)@.log.len() ==> final(self)@.log.skip(old(self)@.log.len() as int)[k1] != final(self)@.log.skip(
                    old(self)@.log.len() as int,
                )[k2],
            forall|k1: int, k2: int|
                0 <= k1 < k2 < final(self)@.log.len() - old(self)@.log.len() && final(self)@.log.skip(old(self)@.log.len() as int)[k1] is Modified ==> final(self)@.log.skip(
                    old(self)@.log.len() as int,
                )[k2] is Modified,
            (data.inserted@.len() == 0 && data.modified@.len() == 0 && data.removed@.len() == 0 && (
            forall|j: int|
                0 <= j < old(self)@.ext.len() ==> data.is_alive(#[trigger] old(self)@.ext[j])))
                ==> final(self)@ == old(self)@,
    {
        let ghost s0 = old(self)@;
        let ghost d = data;
        self.phase_removal(&data);
        let ghost s1 = self@;
        let ghost rem = s1.log.skip(s0.log.len() as int);
        proof {
            // edges of the pruned state are still tick edges
            assert forall|c: Entity, p: Entity| #[trigger] tick_edge(s1, d, c, p) implies tick_edge(
                s0,
                d,
                c,
                p,
            ) by {
                if s1.parent.contains_key(c.id) && s1.parent[c.id] == p {
                    assert(s1.pos.contains_key(c.id));
                    assert(s1.parent[c.id] == s0.parent[c.id]);
                    assert(s0.pos.contains_key(c.id));
                    assert(s0.parent.contains_key(c.id));
                }
            }
            crate::tick::lemma_tick_acyclic_mono(s1, s0, d);
        }
        let mut dirty = self.phase_insert(&data);
        let ghost s2 = self@;
        proof {
            assert forall|c: Entity, p: Entity| #[trigger] tick_edge(s2, d, c, p) implies tick_edge(
                s0,
                d,
                c,
                p,
            ) by {
                if s2.parent.contains_key(c.id) && s2.parent[c.id] == p {
                    assert(s2.inv_parent_dom());
                    assert(s2.pos.contains_key(c.id));
                    assert(Entity { id: c.id } == c);
                    if s1.pos.contains_key(c.id) {
                        assert(s2.parent[c.id] == s1.parent[c.id]);
                        assert(s1.parent[c.id] == s0.parent[c.id]);
                        assert(s0.parent.contains_key(c.id));
                    } else {
                        assert(s2.parent[c.id] == d.link_parent(c));
                        assert(d.inserted@.contains(c) && d.applicable(c));
                    }
                }
            }
            crate::tick::lemma_tick_acyclic_mono(s2, s0, d);
            // what phase 2 marked dirty is tracked with its link as parent
            assert forall|e: Entity| #[trigger] dirty@.contains(e) implies (d.applicable(e)
                && s2.pos.contains_key(e.id) && s2.parent[e.id] == d.link_parent(e)) by {
                assert(d.inserted@.contains(e) && d.applicable(e) && !s1.pos.contains_key(e.id));
                assert(s2.pos.contains_key(e.id));
            }
        }
        self.phase_modified(&data, &mut dirty);
        let ghost s3 = self@;
        proof {
            assert forall|e: Entity| #[trigger] dirty@.contains(e) implies s3.pos.contains_key(
                e.id,
            ) by {
                if d.inserted@.contains(e) && d.applicable(e) && !s1.pos.contains_key(e.id) {
                    assert(s2.pos.contains_key(e.id));
                } else {
                    assert(s2.pos.contains_key(e.id));
                }
            }
        }
        let ghost dpre = dirty@;
        let ghost dd = dpre.to_set();
        self.phase_notify(&mut dirty);
        proof {
            let sf = self@;
            let dseed = Set::new(|e2: Entity| dirty_seed(s0, d, e2));
            let ghost lint = s0.log.len() as int;
            // the dirty set is exactly the dirty seed of the tick
            assert(dd =~= dseed) by {
                assert forall|e: Entity| #[trigger] dd.contains(e) implies dseed.contains(e) by {
                    assert(dpre.contains(e));
                    if d.inserted@.contains(e) && d.applicable(e) && !s1.pos.contains_key(e.id) {
                        assert(!survivor(s0, d, e));
                        assert(dirty_seed(s0, d, e));
                    } else {
                        assert(d.modified@.contains(e) && d.applicable(e) && s2.pos.contains_key(
                            e.id,
                        ) && s2.parent[e.id] != d.link_parent(e));
                        if s1.pos.contains_key(e.id) {
                            assert(s2.parent[e.id] == s1.parent[e.id]);
                            assert(s1.parent[e.id] == s0.parent[e.id]);
                            assert(survivor(s0, d, e));
                            assert(dirty_seed(s0, d, e));
                        } else {
                            assert(s2.parent[e.id] == d.link_parent(e));
                            assert(false);
                        }
                    }
                }
                assert forall|e: Entity| #[trigger] dseed.contains(e) implies dd.contains(e) by {
                    assert(dirty_seed(s0, d, e));
                    if d.inserted@.contains(e) && !survivor(s0, d, e) {
                        assert(!s1.pos.contains_key(e.id));
                        assert(dpre.contains(e));
                    } else {
                        assert(d.modified@.contains(e) && survivor(s0, d, e) && s0.parent[e.id]
                            != d.link_parent(e));
                        assert(s1.pos.contains_key(e.id));
                        assert(s1.parent[e.id] == s0.parent[e.id]);
                        assert(s2.pos.contains_key(e.id));
                        if d.inserted@.contains(e) && d.applicable(e) {
                            assert(d.removed@.contains(e));
                            assert(s0.order[s0.pos[e.id]].id == e.id);
                            assert(s0.order[s0.pos[e.id]] == e);
                            assert(doomed_at(s0, d, s0.pos[e.id]));
                            assert(false);
                        }
                        assert(s2.parent[e.id] == s1.parent[e.id]);
                        assert(dpre.contains(e));
                    }
                }
            }
            // membership of the final index
            assert forall|e: Entity| #[trigger] sf.pos.contains_key(e.id) <==> (survivor(s0, d, e)
                || (d.inserted@.contains(e) && d.applicable(e))) by {
                assert(sf.pos.contains_key(e.id) == s3.pos.contains_key(e.id));
                assert(s3.pos.contains_key(e.id) == s2.pos.contains_key(e.id));
                assert(s2.pos.contains_key(e.id) <==> (s1.pos.contains_key(e.id) || (
                d.inserted@.contains(Entity { id: e.id }) && d.applicable(Entity { id: e.id }))));
                assert(Entity { id: e.id } == e);
                assert(s1.pos.contains_key(e.id) <==> (s0.pos.contains_key(e.id) && !doomed_at(
                    s0,
                    d,
                    s0.pos[e.id],
                )));
            }
            // parent of every tracked entity
            assert forall|e: Entity| #[trigger] sf.pos.contains_key(e.id) implies (
            sf.parent.contains_key(e.id) && sf.parent[e.id] == (if (d.inserted@.contains(e)
                || d.modified@.contains(e)) && d.applicable(e) {
                d.link_parent(e)
            } else {
                s0.parent[e.id]
            })) by {
                assert(sf.parent == s3.parent);
                assert(s3.pos.contains_key(e.id));
                assert(Entity { id: e.id } == e);
                assert(s3.parent.contains_key(e.id) && s3.parent[e.id] == (if d.modified@.contains(
                    e,
                ) && d.applicable(e) {
                    d.link_parent(e)
                } else {
                    s2.parent[e.id]
                }));
                if !(d.modified@.contains(e) && d.applicable(e)) {
                    if s1.pos.contains_key(e.id) {
                        assert(s2.parent[e.id] == s1.parent[e.id]);
                        assert(s1.parent[e.id] == s0.parent[e.id]);
                        if d.inserted@.contains(e) && d.applicable(e) {
                            assert(s0.pos.contains_key(e.id));
                            assert(d.removed@.contains(e));
                            assert(s0.order[s0.pos[e.id]].id == e.id);
                            assert(s0.order[s0.pos[e.id]] == e);
                            assert(doomed_at(s0, d, s0.pos[e.id]));
                            assert(false);
                        }
                    } else {
                        assert(s2.pos.contains_key(e.id));
                        assert(s2.parent[e.id] == d.link_parent(e));
                        assert(d.inserted@.contains(e) && d.applicable(e));
                    }
                }
            }
            // the appended events: removals first, then modifications
            let md = sf.log.skip(s3.log.len() as int);
            assert(s3.log == s1.log);
            assert(sf.log =~= s0.log + rem + md);
            let suffix = sf.log.skip(lint);
            assert(suffix =~= rem + md);
            assert(sf.log.take(lint) =~= s0.log);
            assert forall|e: Entity| #[trigger] suffix.contains(HierarchyEvent::Removed(e))
                implies purged(s0, d, e) by {
                let kk = choose|kk: int|
                    0 <= kk < suffix.len() && suffix[kk] == HierarchyEvent::Removed(e);
                if kk < rem.len() {
                    assert(rem[kk] == HierarchyEvent::Removed(e));
                    assert(rem.contains(HierarchyEvent::Removed(e)));
                    assert(rem[kk]->Removed_0 == e);
                } else {
                    assert(md[kk - rem.len()] == HierarchyEvent::Removed(e));
                    assert(md[kk - rem.len()] is Modified);
                    assert(false);
                }
            }
            assert forall|e: Entity| purged(s0, d, e) implies #[trigger] suffix.contains(
                HierarchyEvent::Removed(e),
            ) by {
                assert(rem.contains(HierarchyEvent::Removed(e)));
                let kk = choose|kk: int|
                    0 <= kk < rem.len() && rem[kk] == HierarchyEvent::Removed(e);
                assert(suffix[kk] == HierarchyEvent::Removed(e));
            }
            assert forall|e: Entity| #[trigger] suffix.contains(HierarchyEvent::Modified(e))
                implies (sf.pos.contains_key(e.id) && notified(sf, dseed, sf.pos[e.id])) by {
                let kk = choose|kk: int|
                    0 <= kk < suffix.len() && suffix[kk] == HierarchyEvent::Modified(e);
                if kk < rem.len() {
                    assert(rem[kk] == HierarchyEvent::Modified(e));
                    assert(rem[kk] is Removed);
                    assert(false);
                } else {
                    assert(md[kk - rem.len()] == HierarchyEvent::Modified(e));
                    assert(md[kk - rem.len()]->Modified_0 == e);
                    assert(s3.pos.contains_key(e.id) && notified(s3, dd, s3.pos[e.id]));
                    assert(sf.pos == s3.pos);
                    crate::tick::lemma_notified_same(s3, sf, dd, s3.pos[e.id]);
                }
            }
            assert forall|e: Entity|
                sf.pos.contains_key(e.id) && notified(
                    sf,
                    dseed,
                    sf.pos[e.id],
                ) implies #[trigger] suffix.contains(HierarchyEvent::Modified(e)) by {
                assert(sf.pos == s3.pos);
                crate::tick::lemma_notified_same(s3, sf, dd, s3.pos[e.id]);
                assert(notified(s3, dd, s3.pos[e.id]));
                assert(md.contains(HierarchyEvent::Modified(e)));
                let kk = choose|kk: int|
                    0 <= kk < md.len() && md[kk] == HierarchyEvent::Modified(e);
                assert(suffix[rem.len() + kk] == HierarchyEvent::Modified(e));
            }
            assert forall|k1: int, k2: int| 0 <= k1 < k2 < suffix.len() implies suffix[k1]
                != suffix[k2] by {
                if k1 < rem.len() && k2 < rem.len() {
                } else if k1 >= rem.len() && k2 >= rem.len() {
                    assert(suffix[k1] == md[k1 - rem.len()] && suffix[k2] == md[k2 - rem.len()]);
                } else {
                    assert(suffix[k1] == rem[k1] && suffix[k2] == md[k2 - rem.len()]);
                    assert(rem[k1] is Removed && md[k2 - rem.len()] is Modified);
                }
            }
            assert forall|k1: int, k2: int|
                0 <= k1 < k2 < suffix.len() && suffix[k1] is Modified implies suffix[k2]
                is Modified by {
                if k1 < rem.len() {
                    assert(suffix[k1] == rem[k1]);
                    assert(rem[k1] is Removed);
                    assert(false);
                } else {
                    assert(k2 >= rem.len());
                    assert(suffix[k2] == md[k2 - rem.len()]);
                }
            }
            // the no-op tick
            if d.inserted@.len() == 0 && d.modified@.len() == 0 && d.removed@.len() == 0 && (
            forall|j: int| 0 <= j < s0.ext.len() ==> d.is_alive(#[trigger] s0.ext[j])) {
                assert forall|e: Entity| !seeded(s0, d, e) by {
                    if s0.ext.contains(e) {
                        let jx = choose|jx: int| 0 <= jx < s0.ext.len() && s0.ext[jx] == e;
                        assert(d.is_alive(s0.ext[jx]));
                    }
                }
                assert(s1 == s0);
                assert(s2 == s1);
                assert(s3 == s2);
                assert(dpre.len() == 0) by {
                    if dpre.len() > 0 {
                        assert(dpre.contains(dpre[0]));
                    }
                }
                assert forall|j: int| 0 <= j < s3.ext.len() implies s3.kids.contains_key(
                    (#[trigger] s3.ext[j]).id,
                ) by {
                    assert(s0.inv_ext_tight());
                    assert(s0.ext[j] == s3.ext[j]);
                }
                assert(sf == s3);
            }
        }
    }

    /// Phase 1 of the maintenance pass: cascading removal.
    ///
    /// Purges every entity whose link was removed, every external parent
    /// that died, and their whole subtrees; emits one `Removed` event per
    /// purged entity.
    fn phase_removal(&mut self, data: &ParentData<P>)
        requires
            old(self).wf(),
            distinct_entities(data.removed@),
        ensures
            final(self)@.inv_core(),
            forall|id: u32| #[trigger] final(self)@.pos.contains_key(id)
                <==> (old(self)@.pos.contains_key(id) && !doomed_at(old(self)@, *data, old(self)@.pos[id])),
            forall|id: u32| #[trigger] final(self)@.pos.contains_key(id)
                ==> final(self)@.parent.contains_key(id)
                    && final(self)@.parent[id] == old(self)@.parent[id],
            forall|x: Entity| #[trigger] final(self)@.ext.contains(x)
                <==> (old(self)@.ext.contains(x) && !purged(old(self)@, *data, x)),
            distinct_entities(final(self)@.ext),
            final(self)@.log.len() >= old(self)@.log.len(),
            final(self)@.log.take(old(self)@.log.len() as int) == old(self)@.log,
            removal_events_ok(
                old(self)@,
                *data,
                final(self)@.log.skip(old(self)@.log.len() as int),
            ),
            (forall|e: Entity| !seeded(old(self)@, *data, e)) ==> final(self)@ == old(self)@,
    {
        let ghost s0 = old(self)@;
        let ghost d = *data;
        let mut scr = self.removal_seeds(data);
        if scr.is_empty() {
            proof {
                assert forall|e: Entity| !seeded(s0, d, e) by {
                    assert(!scr@.contains(e));
                }
                assert forall|i: int| 0 <= i < s0.order.len() implies !doomed_at(s0, d, i) by {
                    lemma_no_seed_no_doom(s0, d, i);
                }
                assert forall|id: u32| #[trigger] s0.pos.contains_key(id) implies !doomed_at(
                    s0,
                    d,
                    s0.pos[id],
                ) by {}
                assert forall|x: Entity| #[trigger] s0.ext.contains(x) implies !purged(
                    s0,
                    d,
                    x,
                ) by {
                    assert(!seeded(s0, d, x));
                    if s0.is_linked(x) {
                        let jx = choose|jx: int| 0 <= jx < s0.ext.len() && s0.ext[jx] == x;
                        assert(!s0.pos.contains_key(s0.ext[jx].id));
                    }
                }
                assert(s0.log.take(s0.log.len() as int) =~= s0.log);
                assert(s0.log.skip(s0.log.len() as int) =~= Seq::<HierarchyEvent>::empty());
                assert forall|e: Entity| !purged(s0, d, e) by {}
            }
            return ;
        }
        let ghost scr0 = scr@;
        proof {
            assert(scr0.len() > 0);
            assert(scr0.contains(scr0[0]));
        }
        self.removal_scan(data, &mut scr);
        self.emit_removals(&scr);
        proof {
            assert(seeded(s0, d, scr0[0]));
            let sf = self@;
            // the external-parent set is still well formed after pruning
            assert forall|jj: int| 0 <= jj < sf.ext.len() implies !sf.pos.contains_key((
            #[trigger] sf.ext[jj]).id) by {
                assert(sf.ext.contains(sf.ext[jj]));
                assert(s0.ext.contains(sf.ext[jj]));
                let jx = choose|jx: int| 0 <= jx < s0.ext.len() && s0.ext[jx] == sf.ext[jj];
                assert(!s0.pos.contains_key(s0.ext[jx].id));
            }
            assert forall|id: u32|
                #[trigger] sf.kids.contains_key(id) && !sf.pos.contains_key(id) implies sf.ext.contains(
                Entity { id },
            ) by {
                assert(sf.kids[id].len() > 0);
                let c = sf.kids[id][0];
                assert(sf.kids_of(id).contains(c));
                assert(sf.pos.contains_key(c.id));
                assert(sf.parent[c.id].id == id);
                assert(s0.pos.contains_key(c.id) && !doomed_at(s0, d, s0.pos[c.id]));
                assert(s0.parent[c.id] == sf.parent[c.id]);
                if purged(s0, d, Entity { id }) {
                    if s0.is_linked(Entity { id }) {
                        assert(s0.pos.contains_key(id));
                        assert(doomed_at(s0, d, s0.pos[id]));
                        assert(doomed_at(s0, d, s0.pos[c.id]));
                        assert(false);
                    } else {
                        assert(s0.ext.contains(Entity { id }) && !d.is_alive(Entity { id }));
                        assert(doomed_at(s0, d, s0.pos[c.id]));
                        assert(false);
                    }
                }
            }
            assert(sf.inv_ext_basic());
            assert(sf.inv_core());
            // the appended events are exactly one removal per purged entity
            let suffix = sf.log.skip(s0.log.len() as int);
            let ghost evf = (|e: Entity| HierarchyEvent::Removed(e));
            assert(suffix =~= scr@.map_values(evf));
            assert(sf.log.take(s0.log.len() as int) =~= s0.log);
            assert forall|kk: int| 0 <= kk < suffix.len() implies (#[trigger] suffix[kk]) is Removed
                && purged(s0, d, suffix[kk]->Removed_0) by {
                assert(suffix[kk] == evf(scr@[kk]));
                assert(scr@.contains(scr@[kk]));
            }
            assert forall|e: Entity| #[trigger] purged(s0, d, e) implies suffix.contains(
                HierarchyEvent::Removed(e),
            ) by {
                assert(scr@.contains(e));
                let kk = choose|kk: int| 0 <= kk < scr@.len() && scr@[kk] == e;
                assert(suffix[kk] == HierarchyEvent::Removed(e));
            }
            assert forall|k1: int, k2: int| 0 <= k1 < k2 < suffix.len() implies suffix[k1]
                != suffix[k2] by {
                assert(suffix[k1] == evf(scr@[k1]) && suffix[k2] == evf(scr@[k2]));
                assert(scr@[k1] != scr@[k2]);
            }
        }
    }

    /// Append `c` to the children list of `pid`, creating the entry if it
    /// does not exist. Touches nothing else.
    fn attach_child(&mut self, pid: u32, c: Entity)
        ensures
            forall|q: u32|
                q != pid ==> (#[trigger] final(self)@.kids.contains_key(q)) == old(self)@.kids.contains_key(q),
            forall|q: u32| q != pid ==> (#[trigger] final(self)@.kids_of(q)) == old(self)@.kids_of(q),
            final(self)@.kids.contains_key(pid),
            final(self)@.kids_of(pid) == old(self)@.kids_of(pid).push(c),
            final(self)@.order == old(self)@.order,
            final(self)@.pos == old(self)@.pos,
            final(self)@.parent == old(self)@.parent,
            final(self)@.ext == old(self)@.ext,
            final(self)@.log == old(self)@.log,
    {
        let entry = self.children.remove(&pid);
        let mut l = match entry {
            Some(l) => l,
            None => Vec::new(),
        };
        l.push(c);
        let ghost lnow = l@;
        self.children.insert(pid, l);
        proof {
            assert(final(self)@.kids_of(pid) == lnow);
        }
    }
}

} // verus!
