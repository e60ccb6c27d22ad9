//! The general laws of the hierarchy index, stated and proved once over the
//! abstract state. [`crate::Hierarchy::maintain`] guarantees `inv()` of the
//! resulting state, so each law holds after every maintenance pass.

use vstd::prelude::*;
use crate::entity::Entity;
use crate::state::HierarchyState;
use crate::data::ParentData;
use crate::link::Parent;
use crate::tick::doomed_at;
use crate::tick::purged;

verus! {

/// Topological invariant: for every linked entity whose recorded parent is
/// itself linked, the parent sits strictly earlier in the sorted sequence.
pub proof fn lemma_topological_invariant(s: HierarchyState, e: Entity)
    requires
        s.inv(),
        s.is_linked(e),
        s.is_linked(s.parent_of(e)),
    ensures
        s.index_of(s.parent_of(e)) < s.index_of(e),
{
    assert(s.edge_ordered(e.id));
}

/// Every proper descendant of a linked entity sits strictly after it in the
/// sorted sequence. Together with [`lemma_topological_invariant`] this is
/// the reparenting guarantee: after a maintenance pass moved `e` below a new
/// parent, `e` follows that parent and all of `e`'s descendants follow `e`.
pub proof fn lemma_descendants_after(s: HierarchyState, dsc: Entity, a: Entity)
    requires
        s.inv(),
        s.has_ancestor(dsc, a),
        s.is_linked(a),
    ensures
        s.index_of(a) < s.index_of(dsc),
    decreases s.index_of(dsc),
{
    let p = s.parent_of(dsc);
    assert(s.edge_ordered(dsc.id));
    assert(s.order[s.pos[dsc.id]].id == dsc.id);
    if p == a {
    } else {
        assert(s.is_linked(p) && s.has_ancestor(p, a));
        lemma_descendants_after(s, p, a);
    }
}

/// Cascading removal: if a maintenance tick purges an entity, it purges its
/// entire descendant subtree as well. `maintain` appends exactly one
/// `Removed` event per purged entity and tracks none of them afterwards
/// unless freshly re-inserted.
pub proof fn lemma_cascading_removal<P: Parent>(
    s: HierarchyState,
    d: ParentData<P>,
    a: Entity,
    dsc: Entity,
)
    requires
        s.inv(),
        purged(s, d, a),
        s.has_ancestor(dsc, a),
    ensures
        purged(s, d, dsc),
    decreases s.index_of(dsc),
{
    let p = s.parent_of(dsc);
    assert(s.edge_ordered(dsc.id));
    assert(s.order[s.pos[dsc.id]].id == dsc.id);
    assert(s.order[s.pos[dsc.id]] == dsc);
    if p == a {
        if s.is_linked(a) {
            assert(doomed_at(s, d, s.index_of(a)));
            assert(doomed_at(s, d, s.index_of(dsc)));
        } else {
            assert(s.ext.contains(a) && !d.is_alive(a));
            assert(doomed_at(s, d, s.index_of(dsc)));
        }
    } else {
        assert(s.is_linked(p) && s.has_ancestor(p, a));
        lemma_cascading_removal(s, d, a, p);
        assert(doomed_at(s, d, s.index_of(p)));
        assert(s.order[s.pos[p.id]].id == p.id);
        assert(doomed_at(s, d, s.index_of(dsc)));
    }
}

/// Elements, membership and ordering of the descendant subsequence: it
/// holds exactly the proper descendants of `root` from position `i` on, in
/// strictly increasing position order.
pub proof fn lemma_desc_from_props(s: HierarchyState, root: Entity, i: int)
    requires
        s.inv(),
        0 <= i,
    ensures
        forall|x: Entity| #[trigger] s.desc_from(root, i).contains(x) <==> (s.has_ancestor(x, root)
            && s.pos[x.id] >= i),
        forall|k: int|
            0 <= k < s.desc_from(root, i).len() ==> s.has_ancestor(
                #[trigger] s.desc_from(root, i)[k],
                root,
            ) && s.pos[s.desc_from(root, i)[k].id] >= i,
        forall|k1: int, k2: int|
            0 <= k1 < k2 < s.desc_from(root, i).len() ==> s.pos[(#[trigger] s.desc_from(
                root,
                i,
            )[k1]).id] < s.pos[(#[trigger] s.desc_from(root, i)[k2]).id],
    decreases s.order.len() - i,
{
    broadcast use vstd::seq_lib::group_seq_properties;

    let ds = s.desc_from(root, i);
    if i >= s.order.len() {
        assert forall|x: Entity| s.has_ancestor(x, root) implies s.pos[x.id] < i by {
            assert(s.pos.contains_key(x.id));
        }
    } else {
        lemma_desc_from_props(s, root, i + 1);
        let rest = s.desc_from(root, i + 1);
        let e = s.order[i];
        assert(s.pos.contains_key(e.id) && s.pos[e.id] == i);
        if s.has_ancestor(e, root) {
            assert(ds == seq![e] + rest);
            assert forall|x: Entity| #[trigger] ds.contains(x) implies (s.has_ancestor(x, root)
                && s.pos[x.id] >= i) by {
                if !rest.contains(x) {
                    assert(seq![e].contains(x));
                    assert(x == e);
                }
            }
            assert forall|x: Entity|
                s.has_ancestor(x, root) && s.pos[x.id] >= i implies #[trigger] ds.contains(x) by {
                if s.pos[x.id] == i {
                    assert(s.order[s.pos[x.id]].id == x.id);
                    assert(x == e);
                    assert(ds[0] == e);
                } else {
                    assert(rest.contains(x));
                    let kk = choose|kk: int| 0 <= kk < rest.len() && rest[kk] == x;
                    assert(ds[kk + 1] == x);
                }
            }
            assert forall|k1: int, k2: int| 0 <= k1 < k2 < ds.len() implies s.pos[(
            #[trigger] ds[k1]).id] < s.pos[(#[trigger] ds[k2]).id] by {
                if k1 == 0 {
                    assert(ds[k1] == e);
                    assert(ds[k2] == rest[k2 - 1]);
                    assert(rest.contains(rest[k2 - 1]));
                    assert(s.pos[rest[k2 - 1].id] >= i + 1);
                } else {
                    assert(ds[k1] == rest[k1 - 1] && ds[k2] == rest[k2 - 1]);
                }
            }
        } else {
            assert(ds == rest);
            assert forall|x: Entity|
                s.has_ancestor(x, root) && s.pos[x.id] >= i implies #[trigger] ds.contains(x) by {
                if s.pos[x.id] == i {
                    assert(s.order[s.pos[x.id]].id == x.id);
                    assert(x == e);
                    assert(false);
                }
            }
        }
    }
}

/// Every descendant beyond the scan position has a known, not yet passed
/// ancestor (or is itself known): the bounded-window argument of the lazy
/// subtree iterator.
pub proof fn lemma_unseen_descendant(
    s: HierarchyState,
    root: Entity,
    ks: Set<u32>,
    cur: int,
    end: int,
    x: Entity,
)
    requires
        s.inv(),
        forall|z: Entity|
            #[trigger] s.has_ancestor(z, root) && (s.parent_of(z) == root || s.pos[s.parent_of(
                z,
            ).id] <= cur) ==> ks.contains(z.id) && s.pos[z.id] <= end,
        s.has_ancestor(x, root),
        s.pos[x.id] > cur,
    ensures
        exists|y: Entity|
            ((y == x || s.has_ancestor(x, y)) && #[trigger] s.has_ancestor(y, root) && ks.contains(
                y.id,
            ) && cur < s.pos[y.id] <= end && s.pos[y.id] <= s.pos[x.id]),
    decreases s.pos[x.id],
{
    let p = s.parent_of(x);
    assert(s.edge_ordered(x.id));
    assert(s.order[s.pos[x.id]].id == x.id);
    if p == root || (s.is_linked(p) && s.pos[p.id] <= cur) {
        assert(ks.contains(x.id) && s.pos[x.id] <= end);
        assert((x == x || s.has_ancestor(x, x)) && s.has_ancestor(x, root) && ks.contains(x.id)
            && cur < s.pos[x.id] <= end && s.pos[x.id] <= s.pos[x.id]);
    } else {
        assert(s.is_linked(p) && s.has_ancestor(p, root));
        assert(s.pos[p.id] < s.pos[x.id]);
        lemma_unseen_descendant(s, root, ks, cur, end, p);
        let y = choose|y: Entity|
            ((y == p || s.has_ancestor(p, y)) && #[trigger] s.has_ancestor(y, root) && ks.contains(
                y.id,
            ) && cur < s.pos[y.id] <= end && s.pos[y.id] <= s.pos[p.id]);
        assert(s.has_ancestor(x, y));
        assert(s.pos[y.id] <= s.pos[x.id]);
    }
}

/// When the scan position has passed the end bound (or the sequence), no
/// descendant remains at or beyond it.
pub proof fn lemma_exhausted(s: HierarchyState, root: Entity, ks: Set<u32>, cur: int, end: int)
    requires
        s.inv(),
        forall|z: Entity|
            #[trigger] s.has_ancestor(z, root) && (s.parent_of(z) == root || s.pos[s.parent_of(
                z,
            ).id] <= cur) ==> ks.contains(z.id) && s.pos[z.id] <= end,
        forall|id: u32| #[trigger] ks.contains(id) ==> s.pos.contains_key(id) && s.pos[id] <= end,
        0 <= cur,
        cur >= s.order.len() || cur > end,
    ensures
        forall|x: Entity| #[trigger] s.has_ancestor(x, root) ==> s.pos[x.id] < cur,
        s.desc_from(root, cur).len() == 0,
{
    assert forall|x: Entity| #[trigger] s.has_ancestor(x, root) implies s.pos[x.id] < cur by {
        assert(s.order[s.pos[x.id]].id == x.id);
        if s.pos[x.id] > cur {
            lemma_unseen_descendant(s, root, ks, cur, end, x);
            let y = choose|y: Entity|
                ((y == x || s.has_ancestor(x, y)) && #[trigger] s.has_ancestor(y, root)
                    && ks.contains(y.id) && cur < s.pos[y.id] <= end && s.pos[y.id] <= s.pos[x.id]);
            assert(cur < s.pos[y.id] <= end);
            assert(cur > end);
            assert(false);
        } else if s.pos[x.id] == cur {
            assert(cur < s.order.len());
            let p = s.parent_of(x);
            assert(s.edge_ordered(x.id));
            if p == root {
                assert(ks.contains(x.id) && s.pos[x.id] <= end);
                assert(false);
            } else {
                assert(s.is_linked(p) && s.pos[p.id] < cur);
                assert(ks.contains(x.id) && s.pos[x.id] <= end);
                assert(false);
            }
        }
    }
    lemma_desc_from_props(s, root, cur);
    if s.desc_from(root, cur).len() > 0 {
        let x = s.desc_from(root, cur)[0];
        assert(s.desc_from(root, cur).contains(x));
        assert(s.has_ancestor(x, root) && s.pos[x.id] >= cur);
    }
}

/// Descendants of an entity never sit before its earliest recorded child.
pub proof fn lemma_desc_at_or_after(s: HierarchyState, root: Entity, m: int, x: Entity)
    requires
        s.inv(),
        forall|z: Entity|
            s.pos.contains_key(z.id) && (#[trigger] s.parent_of(z)).id == root.id ==> s.pos[z.id]
                >= m,
        s.has_ancestor(x, root),
    ensures
        s.pos[x.id] >= m,
    decreases s.pos[x.id],
{
    let p = s.parent_of(x);
    assert(s.edge_ordered(x.id));
    assert(s.order[s.pos[x.id]].id == x.id);
    if p == root {
        assert(s.pos[x.id] >= m);
    } else {
        assert(s.is_linked(p) && s.has_ancestor(p, root));
        lemma_desc_at_or_after(s, root, m, p);
    }
}

/// A stretch of positions holding no descendant contributes nothing to the
/// descendant subsequence.
pub proof fn lemma_desc_from_skip(s: HierarchyState, root: Entity, a: int, b: int)
    requires
        s.inv(),
        0 <= a <= b,
        forall|q: int|
            a <= q < b && q < s.order.len() ==> !s.has_ancestor(#[trigger] s.order[q], root),
    ensures
        s.desc_from(root, a) == s.desc_from(root, b),
    decreases b - a,
{
    if a < b {
        if a >= s.order.len() {
            lemma_desc_from_skip(s, root, a + 1, b);
        } else {
            assert(!s.has_ancestor(s.order[a], root));
            lemma_desc_from_skip(s, root, a + 1, b);
        }
    }
}

/// Subtree iteration equivalence: the lazily iterated descendant sequence
/// holds exactly the entities of the recursive descendant set, in an order
/// consistent with the sorted sequence, and never the root itself.
pub proof fn lemma_subtree_iteration(s: HierarchyState, root: Entity)
    requires
        s.inv(),
    ensures
        forall|x: Entity| #[trigger] s.desc_from(root, 0).contains(x) <==> s.has_ancestor(x, root),
        forall|k1: int, k2: int|
            0 <= k1 < k2 < s.desc_from(root, 0).len() ==> s.pos[(#[trigger] s.desc_from(
                root,
                0,
            )[k1]).id] < s.pos[(#[trigger] s.desc_from(root, 0)[k2]).id],
        !s.desc_from(root, 0).contains(root),
{
    lemma_desc_from_props(s, root, 0);
    assert forall|x: Entity| s.has_ancestor(x, root) implies #[trigger] s.desc_from(
        root,
        0,
    ).contains(x) by {
        assert(s.order[s.pos[x.id]].id == x.id);
        assert(s.pos[x.id] >= 0);
    }
    if s.desc_from(root, 0).contains(root) {
        assert(s.has_ancestor(root, root));
        lemma_descendants_after(s, root, root);
    }
}

} // verus!
