use luna::entity::LunaEntityId;
use luna::geometry::Vector2D;
use luna::transform::{LocalPosition, LocalTransform, Rotation, TransformComponent, WorldPosition, WorldTransform};
use luna::ecs::LunaEcs;

fn lt(x: i64, y: i64, sx: i64, sy: i64, r: Rotation) -> LocalTransform {
    LocalTransform { position: LocalPosition { x, y }, scale: Vector2D { x: sx, y: sy }, rotation: r }
}

#[test]
fn root_world_transform_is_its_local_transform() {
    let mut ecs = LunaEcs::new();
    let e = ecs.create_entity();
    ecs.transforms_mut().set_transform(e, lt(-4, 9, 3, -2, Rotation::Deg270));
    let w = ecs.update_world_transform(e).unwrap();
    assert_eq!(
        w,
        WorldTransform { position: WorldPosition { x: -4, y: 9 }, scale: Vector2D { x: 3, y: -2 }, rotation: Rotation::Deg270 }
    );
    assert_eq!(ecs.transforms().get_world_transform(e), Some(w));
}

#[test]
fn parent_rotation_and_scale_apply_to_child_offset() {
    let mut ecs = LunaEcs::new();
    let parent = ecs.create_entity();
    let child = ecs.create_entity();
    ecs.hierarchy_mut().set_parent(child, Some(parent));
    ecs.transforms_mut().set_transform(parent, lt(100, 50, 2, 3, Rotation::Deg90));
    ecs.transforms_mut().set_transform(child, lt(5, 7, 1, 4, Rotation::Deg90));
    let w = ecs.update_world_transform(child).unwrap();
    // Offset (5, 7) scaled to (10, 21), turned a quarter to (-21, 10), added to (100, 50).
    assert_eq!(w.position, WorldPosition { x: 79, y: 60 });
    // The child's quarter turn reads the parent's scale along swapped axes.
    assert_eq!(w.scale, Vector2D { x: 3, y: 8 });
    assert_eq!(w.rotation, Rotation::Deg180);
    // Plain addition would have given (105, 57).
    assert_ne!(w.position, WorldPosition { x: 105, y: 57 });
}

#[test]
fn ancestor_without_transform_counts_as_identity() {
    let mut t = TransformComponent::new();
    let a = LunaEntityId(1);
    let b = LunaEntityId(2);
    let c = LunaEntityId(3);
    t.set_transform(a, lt(10, 0, 1, 1, Rotation::Deg0));
    t.set_transform(c, lt(1, 2, 1, 1, Rotation::Deg0));
    let w = t.compute_world_transform(c, vec![b, a]).unwrap();
    assert_eq!(w.position, WorldPosition { x: 11, y: 2 });
    assert_eq!(t.compute_world_transform(b, vec![a]), None);
    assert_eq!(t.get_world_transform(b), None);
}

#[test]
fn composition_that_overflows_gives_none() {
    let mut t = TransformComponent::new();
    let p = LunaEntityId(1);
    let c = LunaEntityId(2);
    t.set_transform(p, lt(0, 0, i64::MAX, 1, Rotation::Deg0));
    t.set_transform(c, lt(2, 0, 1, 1, Rotation::Deg0));
    assert_eq!(t.compute_world_transform(c, vec![p]), None);
    assert_eq!(t.get_world_transform(c), None);
    t.set_transform(c, lt(1, 0, 1, 1, Rotation::Deg0));
    assert_eq!(t.compute_world_transform(c, vec![p]).unwrap().position, WorldPosition { x: i64::MAX, y: 0 });
}

#[test]
fn rotations_add_modulo_full_turn() {
    assert_eq!(Rotation::Deg270.combine(Rotation::Deg180), Rotation::Deg90);
    assert_eq!(Rotation::Deg90.combine(Rotation::Deg270), Rotation::Deg0);
    assert_eq!(Rotation::Deg0.combine(Rotation::Deg180), Rotation::Deg180);
    assert_eq!(Rotation::Deg270.turns(), 3);
}
