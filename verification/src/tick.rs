//! Specifications describing the effect of one maintenance tick.

use vstd::prelude::*;
use crate::entity::Entity;
use crate::entity::HierarchyEvent;
use crate::state::HierarchyState;
use crate::data::ParentData;
use crate::link::Parent;

verus! {

/// Is the linked entity at position `i` of `s.order` removed by the removal
/// phase of a tick with input `d`? It is when its own link was removed, or
/// its parent is a dead external parent, or its parent is itself removed:
/// the closure of the seeds under "remove the whole subtree".
pub open spec fn doomed_at<P: Parent>(s: HierarchyState, d: ParentData<P>, i: int) -> bool
    decreases i,
        when s.inv_core() && 0 <= i < s.order.len()
    via doomed_at_dec::<P>
{
    let e = s.order[i];
    let p = s.parent[e.id];
    ||| d.removed@.contains(e)
    ||| (s.ext.contains(p) && !d.is_alive(p))
    ||| (s.pos.contains_key(p.id) && doomed_at(s, d, s.pos[p.id]))
}

#[via_fn]
proof fn doomed_at_dec<P: Parent>(s: HierarchyState, d: ParentData<P>, i: int) {
    let e = s.order[i];
    assert(s.pos.contains_key(e.id) && s.pos[e.id] == i);
    assert(s.edge_ordered(e.id));
}

/// Everything the removal phase of a tick with input `d` purges: removed
/// linked entities (with their whole subtrees) and dead external parents.
pub open spec fn purged<P: Parent>(s: HierarchyState, d: ParentData<P>, e: Entity) -> bool {
    ||| (s.is_linked(e) && doomed_at(s, d, s.index_of(e)))
    ||| (s.ext.contains(e) && !d.is_alive(e))
}

/// The seeds of the removal phase: linked entities whose link was removed
/// this tick, and external parents that are no longer alive.
pub open spec fn seeded<P: Parent>(s: HierarchyState, d: ParentData<P>, e: Entity) -> bool {
    ||| (s.is_linked(e) && d.removed@.contains(e))
    ||| (s.ext.contains(e) && !d.is_alive(e))
}

/// Has the entity with id `id` already been dropped when the removal scan
/// has advanced to position `i`?
pub open spec fn rm_before<P: Parent>(
    s: HierarchyState,
    d: ParentData<P>,
    id: u32,
    i: int,
) -> bool {
    s.pos.contains_key(id) && s.pos[id] < i && doomed_at(s, d, s.pos[id])
}

/// Without seeds nothing is doomed.
pub proof fn lemma_no_seed_no_doom<P: Parent>(s: HierarchyState, d: ParentData<P>, i: int)
    requires
        s.inv_core(),
        forall|e: Entity| !seeded(s, d, e),
        0 <= i < s.order.len(),
    ensures
        !doomed_at(s, d, i),
    decreases i,
{
    let e = s.order[i];
    let p = s.parent[e.id];
    assert(s.pos.contains_key(e.id) && s.pos[e.id] == i);
    assert(!seeded(s, d, e));
    assert(!seeded(s, d, p));
    if s.pos.contains_key(p.id) {
        assert(s.edge_ordered(e.id));
        lemma_no_seed_no_doom(s, d, s.pos[p.id]);
    }
}

/// Any parent edge `c -> p` that exists at some point during a tick with
/// input `d` starting from state `s`: either `c`'s recorded edge of `s`, or
/// the edge `c`'s link resolves to this tick.
pub open spec fn tick_edge<P: Parent>(
    s: HierarchyState,
    d: ParentData<P>,
    c: Entity,
    p: Entity,
) -> bool {
    ||| (s.parent.contains_key(c.id) && s.parent[c.id] == p)
    ||| (d.applicable(c) && d.link_parent(c) == p)
}

/// `b` is reachable from `a` in at most `k` steps along tick edges.
pub open spec fn tick_reaches<P: Parent>(
    s: HierarchyState,
    d: ParentData<P>,
    a: Entity,
    b: Entity,
    k: nat,
) -> bool
    decreases k,
{
    k > 0 && exists|p: Entity|
        #[trigger] tick_edge(s, d, a, p) && (p == b || tick_reaches(
            s,
            d,
            p,
            b,
            (k - 1) as nat,
        ))
}

/// No entity reaches itself along tick edges: the caller never constructs a
/// cycle, not even transiently while the tick's changes are applied one by
/// one.
pub open spec fn tick_acyclic<P: Parent>(s: HierarchyState, d: ParentData<P>) -> bool {
    forall|e: Entity, k: nat| !tick_reaches(s, d, e, e, k)
}

/// Does the linked entity `e` survive the removal phase of a tick with
/// input `d`?
pub open spec fn survivor<P: Parent>(s: HierarchyState, d: ParentData<P>, e: Entity) -> bool {
    s.is_linked(e) && !doomed_at(s, d, s.index_of(e))
}

/// Is `e` marked dirty by the insertion or reparenting phase of a tick with
/// input `d` starting from state `s`: freshly inserted, or reparented to a
/// parent that differs from its recorded one.
pub open spec fn dirty_seed<P: Parent>(s: HierarchyState, d: ParentData<P>, e: Entity) -> bool {
    d.applicable(e) && ((d.inserted@.contains(e) && !survivor(s, d, e)) || (d.modified@.contains(e)
        && survivor(s, d, e) && s.parent[e.id] != d.link_parent(e)))
}

/// Is the entity at position `i` of `s.order` notified by the notification
/// phase: dirty itself, or below a dirty ancestor.
pub open spec fn notified(s: HierarchyState, dirty: Set<Entity>, i: int) -> bool
    decreases i,
        when s.inv_core() && 0 <= i < s.order.len()
    via notified_dec
{
    let e = s.order[i];
    let p = s.parent[e.id];
    ||| dirty.contains(e)
    ||| (s.pos.contains_key(p.id) && notified(s, dirty, s.pos[p.id]))
}

#[via_fn]
proof fn notified_dec(s: HierarchyState, dirty: Set<Entity>, i: int) {
    let e = s.order[i];
    assert(s.pos.contains_key(e.id) && s.pos[e.id] == i);
    assert(s.edge_ordered(e.id));
}

/// Without dirty entities nothing is notified.
pub proof fn lemma_no_dirty_no_notified(s: HierarchyState, dirty: Set<Entity>, i: int)
    requires
        s.inv_core(),
        forall|e: Entity| !dirty.contains(e),
        0 <= i < s.order.len(),
    ensures
        !notified(s, dirty, i),
    decreases i,
{
    let e = s.order[i];
    let p = s.parent[e.id];
    assert(s.pos.contains_key(e.id) && s.pos[e.id] == i);
    if s.pos.contains_key(p.id) {
        assert(s.edge_ordered(e.id));
        lemma_no_dirty_no_notified(s, dirty, s.pos[p.id]);
    }
}

/// One step along the recorded parent map `m`.
pub open spec fn cp_step(m: Map<u32, Entity>, a: Entity, b: Entity) -> bool {
    m.contains_key(a.id) && m[a.id] == b
}

/// `b` is reachable from `a` in at most `k` steps along `m`.
pub open spec fn cp_reach(m: Map<u32, Entity>, a: Entity, b: Entity, k: nat) -> bool
    decreases k,
{
    k > 0 && exists|p: Entity|
        #[trigger] cp_step(m, a, p) && (p == b || cp_reach(m, p, b, (k - 1) as nat))
}

/// A reachability bound can be widened.
pub proof fn lemma_cp_reach_widen(m: Map<u32, Entity>, a: Entity, b: Entity, k1: nat, k2: nat)
    requires
        cp_reach(m, a, b, k1),
        k1 <= k2,
    ensures
        cp_reach(m, a, b, k2),
    decreases k1,
{
    let p = choose|p: Entity|
        #[trigger] cp_step(m, a, p) && (p == b || cp_reach(m, p, b, (k1 - 1) as nat));
    if p == b {
        assert(cp_reach(m, a, b, k2));
    } else {
        lemma_cp_reach_widen(m, p, b, (k1 - 1) as nat, (k2 - 1) as nat);
        assert(cp_reach(m, a, b, k2));
    }
}

/// Reachability extends by one step at the end.
pub proof fn lemma_cp_reach_extend(m: Map<u32, Entity>, a: Entity, b: Entity, c: Entity, k: nat)
    requires
        cp_reach(m, a, b, k),
        cp_step(m, b, c),
    ensures
        cp_reach(m, a, c, k + 1),
    decreases k,
{
    let p = choose|p: Entity|
        #[trigger] cp_step(m, a, p) && (p == b || cp_reach(m, p, b, (k - 1) as nat));
    if p == b {
        assert(cp_reach(m, b, c, 1));
        lemma_cp_reach_widen(m, b, c, 1, k);
        assert(cp_reach(m, a, c, k + 1));
    } else {
        lemma_cp_reach_extend(m, p, b, c, (k - 1) as nat);
        assert(cp_reach(m, a, c, k + 1));
    }
}

/// Consecutive elements of `ord` between `lo` and `hi` step downward along
/// `m`, so the element at `hi` reaches every earlier element of the block.
pub proof fn lemma_chain_reach(m: Map<u32, Entity>, ord: Seq<Entity>, lo: int, hi: int, q: int)
    requires
        0 <= lo <= q < hi < ord.len(),
        forall|q2: int| lo < q2 <= hi ==> cp_step(m, #[trigger] ord[q2], ord[q2 - 1]),
    ensures
        cp_reach(m, ord[hi], ord[q], (hi - q) as nat),
    decreases hi - q,
{
    assert(cp_step(m, ord[hi], ord[hi - 1]));
    if q == hi - 1 {
        assert(cp_reach(m, ord[hi], ord[q], 1));
    } else {
        lemma_chain_reach(m, ord, lo, hi - 1, q);
        assert(cp_reach(m, ord[hi - 1], ord[q], (hi - 1 - q) as nat));
        assert(cp_reach(m, ord[hi], ord[q], (hi - q) as nat));
    }
}

/// Every step of `m` is a tick edge, so reachability along `m` implies
/// reachability along tick edges.
pub proof fn lemma_cp_reach_to_tick<P: Parent>(
    m: Map<u32, Entity>,
    s: HierarchyState,
    d: ParentData<P>,
    a: Entity,
    b: Entity,
    k: nat,
)
    requires
        forall|c: Entity, p: Entity| #[trigger] cp_step(m, c, p) ==> tick_edge(s, d, c, p),
        cp_reach(m, a, b, k),
    ensures
        tick_reaches(s, d, a, b, k),
    decreases k,
{
    let p = choose|p: Entity|
        #[trigger] cp_step(m, a, p) && (p == b || cp_reach(m, p, b, (k - 1) as nat));
    if p == b {
        assert(tick_edge(s, d, a, p));
    } else {
        lemma_cp_reach_to_tick(m, s, d, p, b, (k - 1) as nat);
        assert(tick_edge(s, d, a, p));
    }
}

/// Under `tick_acyclic`, a parent map whose steps are all tick edges has no
/// cycle, and never leads from the recorded parent of `e` back to `e`.
pub proof fn lemma_cp_sane<P: Parent>(
    m: Map<u32, Entity>,
    s: HierarchyState,
    d: ParentData<P>,
    e: Entity,
)
    requires
        forall|c: Entity, p: Entity| #[trigger] cp_step(m, c, p) ==> tick_edge(s, d, c, p),
        tick_acyclic(s, d),
        m.contains_key(e.id),
    ensures
        forall|x: Entity, k: nat| !cp_reach(m, x, x, k),
        forall|k: nat| !cp_reach(m, m[e.id], e, k),
{
    assert forall|x: Entity, k: nat| !cp_reach(m, x, x, k) by {
        if cp_reach(m, x, x, k) {
            lemma_cp_reach_to_tick(m, s, d, x, x, k);
        }
    }
    assert forall|k: nat| !cp_reach(m, m[e.id], e, k) by {
        if cp_reach(m, m[e.id], e, k) {
            lemma_cp_reach_to_tick(m, s, d, m[e.id], e, k);
            assert(cp_step(m, e, m[e.id]));
            assert(tick_edge(s, d, e, m[e.id]));
            assert(tick_reaches(s, d, e, e, k + 1));
        }
    }
}

/// Tick reachability is monotone in the edge relation.
pub proof fn lemma_tick_reaches_mono<P: Parent>(
    sa: HierarchyState,
    sb: HierarchyState,
    d: ParentData<P>,
    a: Entity,
    b: Entity,
    k: nat,
)
    requires
        forall|c: Entity, p: Entity| #[trigger] tick_edge(sa, d, c, p) ==> tick_edge(sb, d, c, p),
        tick_reaches(sa, d, a, b, k),
    ensures
        tick_reaches(sb, d, a, b, k),
    decreases k,
{
    let p = choose|p: Entity|
        #[trigger] tick_edge(sa, d, a, p) && (p == b || tick_reaches(sa, d, p, b, (k - 1) as nat));
    if p == b {
        assert(tick_edge(sb, d, a, p));
    } else {
        lemma_tick_reaches_mono(sa, sb, d, p, b, (k - 1) as nat);
        assert(tick_edge(sb, d, a, p));
    }
}

/// A state whose tick edges all exist in an acyclic state is itself acyclic.
pub proof fn lemma_tick_acyclic_mono<P: Parent>(
    sa: HierarchyState,
    sb: HierarchyState,
    d: ParentData<P>,
)
    requires
        forall|c: Entity, p: Entity| #[trigger] tick_edge(sa, d, c, p) ==> tick_edge(sb, d, c, p),
        tick_acyclic(sb, d),
    ensures
        tick_acyclic(sa, d),
{
    assert forall|e: Entity, k: nat| !tick_reaches(sa, d, e, e, k) by {
        if tick_reaches(sa, d, e, e, k) {
            lemma_tick_reaches_mono(sa, sb, d, e, e, k);
        }
    }
}

/// The removal phase appended exactly the event sequence `evs`: one
/// `Removed` event for each purged entity and nothing else.
pub open spec fn removal_events_ok<P: Parent>(
    s: HierarchyState,
    d: ParentData<P>,
    evs: Seq<HierarchyEvent>,
) -> bool {
    &&& forall|k: int|
        0 <= k < evs.len() ==> (#[trigger] evs[k]) is Removed && purged(s, d, evs[k]->Removed_0)
    &&& forall|e: Entity| #[trigger] purged(s, d, e) ==> evs.contains(HierarchyEvent::Removed(e))
    &&& forall|k1: int, k2: int| 0 <= k1 < k2 < evs.len() ==> evs[k1] != evs[k2]
}

/// Notification only depends on the sequence, the positions and the parent
/// map, not on the external-parent set or the log.
pub proof fn lemma_notified_same(
    sa: HierarchyState,
    sb: HierarchyState,
    dirty: Set<Entity>,
    i: int,
)
    requires
        sa.inv_core(),
        sb.inv_core(),
        sa.order == sb.order,
        sa.pos == sb.pos,
        sa.parent == sb.parent,
        0 <= i < sa.order.len(),
    ensures
        notified(sa, dirty, i) == notified(sb, dirty, i),
    decreases i,
{
    let e = sa.order[i];
    let p = sa.parent[e.id];
    assert(sa.pos.contains_key(e.id) && sa.pos[e.id] == i);
    if sa.pos.contains_key(p.id) {
        assert(sa.edge_ordered(e.id));
        lemma_notified_same(sa, sb, dirty, sa.pos[p.id]);
    }
}

/// The notification phase appended exactly the event sequence `evs`: one
/// `Modified` event per notified entity, in sorted order.
pub open spec fn modified_events_ok(
    s: HierarchyState,
    dirty: Set<Entity>,
    evs: Seq<HierarchyEvent>,
) -> bool {
    &&& forall|k: int|
        0 <= k < evs.len() ==> {
            let x = (#[trigger] evs[k])->Modified_0;
            &&& evs[k] is Modified
            &&& s.pos.contains_key(x.id)
            &&& notified(s, dirty, s.pos[x.id])
        }
    &&& forall|x: Entity|
        s.pos.contains_key(x.id) && notified(s, dirty, #[trigger] s.pos[x.id]) ==> evs.contains(
            HierarchyEvent::Modified(x),
        )
    &&& forall|k1: int, k2: int| 0 <= k1 < k2 < evs.len() ==> evs[k1] != evs[k2]
}

} // verus!
