use hibitset::BitSetLike;
use specs_hierarchy::Entity;
use specs_hierarchy::Hierarchy;
use specs_hierarchy::HierarchyEvent;
use specs_hierarchy::ParentData;
use specs_hierarchy::ParentLink;

fn e(id: u32) -> Entity {
    Entity::new(id)
}

fn data(
    alive: &[u32],
    links: &[(u32, u32)],
    inserted: &[u32],
    modified: &[u32],
    removed: &[u32],
) -> ParentData<ParentLink> {
    ParentData {
        alive: alive.iter().map(|&i| e(i)).collect(),
        links: links
            .iter()
            .map(|&(c, p)| (e(c), ParentLink { entity: e(p) }))
            .collect(),
        inserted: inserted.iter().map(|&i| e(i)).collect(),
        modified: modified.iter().map(|&i| e(i)).collect(),
        removed: removed.iter().map(|&i| e(i)).collect(),
    }
}

fn collect_iter(h: &Hierarchy<ParentLink>, root: Entity) -> Vec<Entity> {
    let mut it = h.all_children_iter(root);
    let mut out = Vec::new();
    while let Some(x) = it.next() {
        out.push(x);
    }
    out
}

fn ids(v: &[Entity]) -> Vec<u32> {
    v.iter().map(|x| x.id).collect()
}

/// Deleting an ancestor removes its whole subtree from the hierarchy; the
/// two independent chains fall one after the other and `all()` ends empty.
#[test]
fn parent_removed() {
    let mut world_alive: Vec<u32> = vec![1, 2, 3, 4, 5];
    let mut hierarchy: Hierarchy<ParentLink> = Hierarchy::new();
    let mut reader = hierarchy.track();
    let links = [(2u32, 1u32), (4, 3), (5, 4)];

    hierarchy.maintain(data(&world_alive, &links, &[2, 4, 5], &[], &[]));
    // drain the events; nothing has been removed yet
    let removed: Vec<u32> = hierarchy
        .changed()
        .read(&mut reader)
        .filter_map(|ev| match *ev {
            HierarchyEvent::Removed(x) => Some(x.id),
            _ => None,
        })
        .collect();
    assert_eq!(removed, Vec::<u32>::new());

    // delete entity 1; the next maintain purges 1 (a dead external parent)
    // and its child 2
    world_alive.retain(|&i| i != 1);
    hierarchy.maintain(data(&world_alive, &links, &[], &[], &[]));
    let mut removed: Vec<u32> = hierarchy
        .changed()
        .read(&mut reader)
        .filter_map(|ev| match *ev {
            HierarchyEvent::Removed(x) => Some(x.id),
            _ => None,
        })
        .collect();
    removed.sort();
    assert_eq!(removed, vec![1, 2]);
    world_alive.retain(|&i| !removed.contains(&i));
    // the removed link component is reported on the following tick
    hierarchy.maintain(data(&world_alive, &[(4, 3), (5, 4)], &[], &[], &[2]));
    assert_eq!(world_alive, vec![3, 4, 5]);

    // delete entity 3; 3, 4 and 5 must all go
    world_alive.retain(|&i| i != 3);
    hierarchy.maintain(data(&world_alive, &[(4, 3), (5, 4)], &[], &[], &[]));
    let mut removed: Vec<u32> = hierarchy
        .changed()
        .read(&mut reader)
        .filter_map(|ev| match *ev {
            HierarchyEvent::Removed(x) => Some(x.id),
            _ => None,
        })
        .collect();
    removed.sort();
    assert_eq!(removed, vec![3, 4, 5]);
    world_alive.retain(|&i| !removed.contains(&i));
    assert_eq!(world_alive, Vec::<u32>::new());

    assert_eq!(0, hierarchy.all().len());
}

/// The lazy subtree iterator yields exactly the recursive children, in
/// sorted order, excluding the root.
#[test]
fn test_all_children_iter() {
    let alive = [0u32, 1, 2, 3, 4, 5];
    let links = [(1u32, 0u32), (3, 2), (4, 2), (5, 3)];
    let mut hierarchy: Hierarchy<ParentLink> = Hierarchy::new();
    hierarchy.maintain(data(&alive, &links, &[1, 3, 4, 5], &[], &[]));

    assert_eq!(ids(&collect_iter(&hierarchy, e(0))), vec![1]);
    assert_eq!(collect_iter(&hierarchy, e(1)), Vec::<Entity>::new());
    assert_eq!(ids(&collect_iter(&hierarchy, e(2))), vec![3, 4, 5]);
    assert_eq!(ids(&collect_iter(&hierarchy, e(3))), vec![5]);
    assert_eq!(collect_iter(&hierarchy, e(4)), Vec::<Entity>::new());
    assert_eq!(collect_iter(&hierarchy, e(5)), Vec::<Entity>::new());
}

/// The recursive descendant set as a `BitSet`, excluding the root.
#[test]
fn test_all_children() {
    let alive = [0u32, 1, 2, 3, 4, 5];
    let links = [(1u32, 0u32), (3, 2), (4, 2), (5, 3)];
    let mut hierarchy: Hierarchy<ParentLink> = Hierarchy::new();
    hierarchy.maintain(data(&alive, &links, &[1, 3, 4, 5], &[], &[]));

    assert!(hierarchy.all_children(e(0)).iter().eq([1u32].iter().cloned()));
    assert_eq!(hierarchy.all_children(e(1)).iter().next(), None);
    assert!(hierarchy
        .all_children(e(2))
        .iter()
        .eq([3u32, 4, 5].iter().cloned()));
    assert!(hierarchy.all_children(e(3)).iter().eq([5u32].iter().cloned()));
    assert_eq!(hierarchy.all_children(e(4)).iter().next(), None);
    assert_eq!(hierarchy.all_children(e(5)).iter().next(), None);
}

/// The scenario of the immediate-children maps: children are recorded in
/// event order and the sorted sequence keeps parents in front.
#[test]
fn test_children_and_order() {
    let alive = [0u32, 1, 2, 3, 4, 5];
    let links = [(1u32, 0u32), (3, 2), (4, 2), (5, 3)];
    let mut hierarchy: Hierarchy<ParentLink> = Hierarchy::new();
    hierarchy.maintain(data(&alive, &links, &[1, 3, 4, 5], &[], &[]));

    assert_eq!(ids(hierarchy.children(e(2))), vec![3, 4]);
    assert_eq!(ids(hierarchy.children(e(3))), vec![5]);
    assert_eq!(ids(hierarchy.children(e(1))), Vec::<u32>::new());
    assert_eq!(hierarchy.parent(e(5)), Some(e(3)));
    assert_eq!(hierarchy.parent(e(0)), None);
    assert_eq!(ids(hierarchy.all()), vec![1, 3, 4, 5]);

    // parents always appear before their children in all()
    let all = hierarchy.all();
    for (i, x) in all.iter().enumerate() {
        if let Some(p) = hierarchy.parent(*x) {
            if let Some(j) = all.iter().position(|y| y.id == p.id) {
                assert!(j < i);
            }
        }
    }
}

/// A maintenance tick with empty change sets alters nothing and emits no
/// events.
#[test]
fn test_noop_tick() {
    let alive = [0u32, 1, 2];
    let links = [(1u32, 0u32), (2, 1)];
    let mut hierarchy: Hierarchy<ParentLink> = Hierarchy::new();
    hierarchy.maintain(data(&alive, &links, &[1, 2], &[], &[]));
    let mut reader = hierarchy.track();
    let before: Vec<Entity> = hierarchy.all().to_vec();

    hierarchy.maintain(data(&alive, &links, &[], &[], &[]));

    assert_eq!(hierarchy.all(), before.as_slice());
    assert_eq!(hierarchy.changed().read(&mut reader).count(), 0);
}

/// Removing a link purges the whole subtree and emits exactly one `Removed`
/// event per purged entity.
#[test]
fn test_removed_link_cascade() {
    let alive = [0u32, 1, 2, 3];
    let mut hierarchy: Hierarchy<ParentLink> = Hierarchy::new();
    let mut reader = hierarchy.track();
    hierarchy.maintain(data(
        &alive,
        &[(1, 0), (2, 1), (3, 2)],
        &[1, 2, 3],
        &[],
        &[],
    ));
    let _ = hierarchy
        .changed()
        .read(&mut reader)
        .collect::<Vec<_>>();

    // entity 1 loses its link but stays alive
    hierarchy.maintain(data(&alive, &[(2, 1), (3, 2)], &[], &[], &[1]));
    let evs: Vec<HierarchyEvent> = hierarchy
        .changed()
        .read(&mut reader)
        .cloned()
        .collect();
    let mut removed: Vec<u32> = evs
        .iter()
        .filter_map(|ev| match *ev {
            HierarchyEvent::Removed(x) => Some(x.id),
            _ => None,
        })
        .collect();
    removed.sort();
    assert_eq!(removed, vec![1, 2, 3]);
    assert_eq!(evs.len(), 3);
    assert_eq!(hierarchy.all().len(), 0);
    assert_eq!(hierarchy.children(e(0)).len(), 0);
    assert_eq!(hierarchy.children(e(1)).len(), 0);
}

/// Reparenting an entity below a later entity pulls the new ancestor chain
/// in front of it and keeps parents before children.
#[test]
fn test_reparent_pulls_chain() {
    let alive = [0u32, 1, 2, 3];
    let mut hierarchy: Hierarchy<ParentLink> = Hierarchy::new();
    hierarchy.maintain(data(
        &alive,
        &[(1, 0), (2, 0), (3, 2)],
        &[1, 2, 3],
        &[],
        &[],
    ));
    assert_eq!(ids(hierarchy.all()), vec![1, 2, 3]);

    // move entity 1 below entity 3, which currently sits after it
    hierarchy.maintain(data(
        &alive,
        &[(1, 3), (2, 0), (3, 2)],
        &[],
        &[1],
        &[],
    ));
    assert_eq!(ids(hierarchy.all()), vec![2, 3, 1]);
    assert_eq!(hierarchy.parent(e(1)), Some(e(3)));
    assert_eq!(ids(hierarchy.children(e(3))), vec![1]);
    assert_eq!(ids(hierarchy.children(e(0))), vec![2]);
}

/// A reparented entity gets a `Modified` event and infects its whole
/// subtree, in sorted order; a modification to the same parent is a no-op.
#[test]
fn test_modified_events() {
    let alive = [0u32, 1, 2, 3];
    let mut hierarchy: Hierarchy<ParentLink> = Hierarchy::new();
    hierarchy.maintain(data(&alive, &[(1, 0), (2, 1)], &[1, 2], &[], &[]));
    let mut reader = hierarchy.track();

    // same parent: filtered, no event
    hierarchy.maintain(data(&alive, &[(1, 0), (2, 1)], &[], &[1], &[]));
    assert_eq!(hierarchy.changed().read(&mut reader).count(), 0);

    // new parent 3 (itself unlinked): entity 1 and its child 2 are notified
    hierarchy.maintain(data(&alive, &[(1, 3), (2, 1)], &[], &[1], &[]));
    let evs: Vec<HierarchyEvent> = hierarchy
        .changed()
        .read(&mut reader)
        .cloned()
        .collect();
    assert_eq!(
        evs,
        vec![
            HierarchyEvent::Modified(e(1)),
            HierarchyEvent::Modified(e(2)),
        ]
    );
    assert_eq!(hierarchy.parent(e(1)), Some(e(3)));
}

/// An entity that gains a link after its children were already tracked is
/// inserted in front of them.
#[test]
fn test_late_parent_insertion() {
    let alive = [0u32, 1, 2, 3];
    let mut hierarchy: Hierarchy<ParentLink> = Hierarchy::new();
    hierarchy.maintain(data(&alive, &[(1, 0), (2, 0)], &[1, 2], &[], &[]));
    assert_eq!(ids(hierarchy.all()), vec![1, 2]);

    // entity 0 now gains a link to 3: it must end up before 1 and 2
    hierarchy.maintain(data(
        &alive,
        &[(0, 3), (1, 0), (2, 0)],
        &[0],
        &[],
        &[],
    ));
    let all = ids(hierarchy.all());
    assert_eq!(all.len(), 3);
    let p0 = all.iter().position(|&i| i == 0).unwrap();
    let p1 = all.iter().position(|&i| i == 1).unwrap();
    let p2 = all.iter().position(|&i| i == 2).unwrap();
    assert!(p0 < p1 && p0 < p2);
    assert_eq!(hierarchy.parent(e(0)), Some(e(3)));
}

/// A tracking token only observes the events written after it was created.
#[test]
fn test_track_scope() {
    let alive = [0u32, 1, 2];
    let mut hierarchy: Hierarchy<ParentLink> = Hierarchy::new();
    hierarchy.maintain(data(&alive, &[(1, 0)], &[1], &[], &[]));
    let mut late_reader = hierarchy.track();
    hierarchy.maintain(data(&alive, &[(1, 0), (2, 1)], &[2], &[], &[]));
    let evs: Vec<HierarchyEvent> = hierarchy
        .changed()
        .read(&mut late_reader)
        .cloned()
        .collect();
    assert_eq!(evs, vec![HierarchyEvent::Modified(e(2))]);
}

/// The setup handler installs an empty hierarchy exactly once.
#[test]
fn test_setup_handler() {
    let mut slot: Option<Hierarchy<ParentLink>> = None;
    specs_hierarchy::HierarchySetupHandler::setup(&mut slot);
    assert!(slot.is_some());
    assert_eq!(slot.as_ref().unwrap().all().len(), 0);
    let alive = [0u32, 1];
    slot.as_mut()
        .unwrap()
        .maintain(data(&alive, &[(1, 0)], &[1], &[], &[]));
    specs_hierarchy::HierarchySetupHandler::setup(&mut slot);
    assert_eq!(slot.as_ref().unwrap().all().len(), 1);
}

/// A link removed and re-inserted in the same tick leaves the entity
/// tracked, under the new parent.
#[test]
fn test_remove_and_reinsert_same_tick() {
    let alive = [0u32, 1, 2, 3];
    let mut hierarchy: Hierarchy<ParentLink> = Hierarchy::new();
    hierarchy.maintain(data(&alive, &[(1, 0), (2, 1)], &[1, 2], &[], &[]));

    // entity 1's link is removed and a fresh link to 3 inserted in one tick
    hierarchy.maintain(data(
        &alive,
        &[(1, 3), (2, 1)],
        &[1],
        &[],
        &[1, 2],
    ));
    assert_eq!(hierarchy.parent(e(1)), Some(e(3)));
    // entity 2 was purged with the old subtree and not re-inserted
    assert_eq!(hierarchy.parent(e(2)), None);
    assert_eq!(ids(hierarchy.all()), vec![1]);
}

/// Once an external parent has lost its last child, it is pruned and its
/// later death no longer produces any event.
#[test]
fn test_external_parent_pruned() {
    let alive = [0u32, 1, 2];
    let mut hierarchy: Hierarchy<ParentLink> = Hierarchy::new();
    let mut reader = hierarchy.track();
    hierarchy.maintain(data(&alive, &[(1, 0)], &[1], &[], &[]));
    // reparent 1 away from 0: 0 has no children left
    hierarchy.maintain(data(&alive, &[(1, 2)], &[], &[1], &[]));
    let _ = hierarchy.changed().read(&mut reader).count();

    // 0 dies; it is no longer tracked as an external parent, so nothing
    // is removed and no event is emitted
    hierarchy.maintain(data(&[1, 2], &[(1, 2)], &[], &[], &[]));
    assert_eq!(hierarchy.changed().read(&mut reader).count(), 0);
    assert_eq!(ids(hierarchy.all()), vec![1]);
}

/// Cascading removal over a deep chain removes every level.
#[test]
fn test_deep_chain_cascade() {
    let alive: Vec<u32> = (0..8).collect();
    let links: Vec<(u32, u32)> = (1..8).map(|i| (i, i - 1)).collect();
    let inserted: Vec<u32> = (1..8).collect();
    let mut hierarchy: Hierarchy<ParentLink> = Hierarchy::new();
    hierarchy.maintain(data(&alive, &links, &inserted, &[], &[]));
    assert_eq!(hierarchy.all().len(), 7);
    assert!(hierarchy.all_children(e(0)).iter().eq((1u32..8).into_iter()));

    // cutting the chain at 3 removes 3..8
    let rest: Vec<(u32, u32)> = links.iter().cloned().filter(|&(c, _)| c != 3).collect();
    hierarchy.maintain(data(&alive, &rest, &[], &[], &[3]));
    assert_eq!(ids(hierarchy.all()), vec![1, 2]);
    assert!(hierarchy.all_children(e(0)).iter().eq((1u32..3).into_iter()));
}

/// An entity inserted and modified in the same tick ends up under the link
/// value the lookup resolves to, with a single notification.
#[test]
fn test_insert_and_modify_same_tick() {
    let alive = [0u32, 1];
    let mut hierarchy: Hierarchy<ParentLink> = Hierarchy::new();
    let mut reader = hierarchy.track();
    hierarchy.maintain(data(&alive, &[(1, 0)], &[1], &[1], &[]));
    assert_eq!(hierarchy.parent(e(1)), Some(e(0)));
    let evs: Vec<HierarchyEvent> = hierarchy
        .changed()
        .read(&mut reader)
        .cloned()
        .collect();
    assert_eq!(evs, vec![HierarchyEvent::Modified(e(1))]);
}

/// The system runs one maintenance tick.
#[test]
fn test_system_run() {
    let mut system: specs_hierarchy::HierarchySystem<ParentLink> =
        specs_hierarchy::HierarchySystem::new();
    let mut hierarchy: Hierarchy<ParentLink> = Hierarchy::new();
    let alive = [0u32, 1, 2];
    system.run(
        &mut hierarchy,
        data(&alive, &[(1, 0), (2, 1)], &[1, 2], &[], &[]),
    );
    assert_eq!(ids(hierarchy.all()), vec![1, 2]);
}
