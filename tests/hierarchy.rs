use luna::ecs::LunaEcs;
use luna::entity::LunaEntityId;
use luna::hierarchy::HierarchyComponent;

#[test]
fn cycle_is_rejected_and_nothing_changes() {
    let mut h = HierarchyComponent::new();
    let a = LunaEntityId(0);
    let b = LunaEntityId(1);
    let c = LunaEntityId(2);
    assert!(h.set_parent(b, Some(a)));
    assert!(h.set_parent(c, Some(b)));
    assert!(!h.set_parent(a, Some(c)));
    assert!(!h.set_parent(a, Some(b)));
    assert!(!h.set_parent(a, Some(a)));
    assert_eq!(h.get_parent(a), None);
    assert_eq!(h.get_parent(b), Some(a));
    assert_eq!(h.get_parent(c), Some(b));
    assert_eq!(h.get_children(a), vec![b]);
    assert_eq!(h.get_parent_chain(c), vec![b, a]);
}

#[test]
fn reparenting_moves_child_between_lists() {
    let mut h = HierarchyComponent::new();
    let p1 = LunaEntityId(1);
    let p2 = LunaEntityId(2);
    let c = LunaEntityId(3);
    assert!(h.set_parent(c, Some(p1)));
    assert!(h.set_parent(c, Some(p2)));
    assert!(h.get_children(p1).is_empty());
    assert_eq!(h.get_children(p2), vec![c]);
    assert!(h.set_parent(c, None));
    assert!(h.get_children(p2).is_empty());
    assert_eq!(h.get_parent(c), None);
    assert_eq!(h.depth(c), 0);
}

#[test]
fn parent_chain_is_innermost_first() {
    let mut ecs = LunaEcs::new();
    let e: Vec<LunaEntityId> = (0..5).map(|_| ecs.create_entity()).collect();
    for i in 1..5 {
        assert!(ecs.hierarchy_mut().set_parent(e[i], Some(e[i - 1])));
    }
    assert_eq!(ecs.hierarchy().get_parent_chain(e[4]), vec![e[3], e[2], e[1], e[0]]);
    assert_eq!(ecs.depth(e[4]), 4);
    assert_eq!(ecs.depth(e[0]), 0);
    assert!(ecs.hierarchy().is_self_or_descendant(e[4], e[1]));
    assert!(!ecs.hierarchy().is_self_or_descendant(e[1], e[4]));
}

#[test]
fn removing_entity_orphans_children() {
    let mut h = HierarchyComponent::new();
    let top = LunaEntityId(1);
    let mid = LunaEntityId(2);
    let k1 = LunaEntityId(3);
    let k2 = LunaEntityId(4);
    h.set_parent(mid, Some(top));
    h.set_parent(k1, Some(mid));
    h.set_parent(k2, Some(mid));
    h.remove(mid);
    assert_eq!(h.get_parent(k1), None);
    assert_eq!(h.get_parent(k2), None);
    assert_eq!(h.get_parent(mid), None);
    assert!(h.get_children(top).is_empty());
    assert!(h.get_children(mid).is_empty());
    assert!(h.set_parent(top, Some(k1)));
}
