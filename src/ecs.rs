use vstd::prelude::*;
use std::collections::HashSet;

use crate::entity::LunaEntityId;
use crate::hierarchy::{HierarchyComponent, ancestors, depth, ids_of, is_forest, lemma_ancestors_unfold, without_entity};
use crate::transform::{
    LocalTransform, TransformComponent, WorldTransform, chain_locals, compose, composition_fits, fold_world,
    identity_world, local_as_world, rotated_x, rotated_y, world_transform_of,
};

verus! {

broadcast use vstd::std_specs::hash::group_hash_axioms;

/// The entity store with its hierarchy and transform components.
pub struct LunaEcs {
    next_id: u64,
    alive: HashSet<u64>,
    hierarchy: HierarchyComponent,
    transforms: TransformComponent,
}

impl LunaEcs {
    /// The hierarchy component.
    pub closed spec fn hierarchy_state(&self) -> HierarchyComponent {
        self.hierarchy
    }

    /// The transform component.
    pub closed spec fn transform_state(&self) -> TransformComponent {
        self.transforms
    }

    /// Parent of each entity that has one, by handle number.
    pub open spec fn parents(&self) -> Map<u64, u64> {
        self.hierarchy_state().parent_map()
    }

    /// Local transform of each entity that has one, by handle number.
    pub open spec fn locals(&self) -> Map<u64, LocalTransform> {
        self.transform_state().locals()
    }

    /// Handle numbers of the entities created and not yet deleted.
    pub closed spec fn live(&self) -> Set<u64> {
        self.alive@
    }

    /// How many handles have been issued; the next handle has this number.
    pub closed spec fn issued(&self) -> nat {
        self.next_id as nat
    }

    /// The hierarchy is well formed and every live handle has been issued.
    pub open spec fn well_formed(&self) -> bool {
        &&& self.hierarchy_state().well_formed()
        &&& forall|id: u64| #[trigger] self.live().contains(id) ==> id < self.issued()
    }

    pub fn new() -> (r: LunaEcs)
        ensures
            r.well_formed(),
            r.live() == Set::<u64>::empty(),
            r.issued() == 0,
            r.parents() == Map::<u64, u64>::empty(),
            r.locals() == Map::<u64, LocalTransform>::empty(),
            r.transform_state().cached() == Map::<u64, WorldTransform>::empty(),
    {
        LunaEcs {
            next_id: 0,
            alive: HashSet::new(),
            hierarchy: HierarchyComponent::new(),
            transforms: TransformComponent::new(),
        }
    }

    /// A new entity. Its handle comes after every handle issued before, so it differs from
    /// every live and every deleted one.
    pub fn create_entity(&mut self) -> (e: LunaEntityId)
        requires
            old(self).well_formed(),
            old(self).issued() < u64::MAX,
        ensures
            final(self).well_formed(),
            e.0 == old(self).issued(),
            final(self).issued() == old(self).issued() + 1,
            final(self).live() == old(self).live().insert(e.0),
            final(self).hierarchy_state() == old(self).hierarchy_state(),
            final(self).transform_state() == old(self).transform_state(),
    {
        let id = self.next_id;
        self.next_id = self.next_id + 1;
        self.alive.insert(id);
        assert forall|x: u64| #[trigger] self.live().contains(x) implies x < self.issued() by {
            if x != id {
                assert(old(self).live().contains(x));
            }
        }
        LunaEntityId(id)
    }

    /// Whether `entity` was created here and not deleted since.
    pub fn is_alive(&self, entity: LunaEntityId) -> (r: bool)
        ensures
            r == self.live().contains(entity.0),
    {
        self.alive.contains(&entity.0)
    }

    /// Deletes `entity` from the store and both components: it leaves its parent, its
    /// children become roots, and its transforms are forgotten.
    pub fn delete_entity(&mut self, entity: LunaEntityId)
        requires
            old(self).well_formed(),
        ensures
            final(self).well_formed(),
            final(self).live() == old(self).live().remove(entity.0),
            final(self).issued() == old(self).issued(),
            final(self).parents() == without_entity(old(self).parents(), entity.0),
            final(self).locals() == old(self).locals().remove(entity.0),
            final(self).transform_state().cached() == old(self).transform_state().cached().remove(entity.0),
    {
        self.alive.remove(&entity.0);
        self.hierarchy.remove(entity);
        self.transforms.remove_transform(entity);
        assert forall|x: u64| #[trigger] self.live().contains(x) implies x < self.issued() by {
            assert(old(self).live().contains(x));
        }
    }

    pub fn hierarchy(&self) -> (r: &HierarchyComponent)
        ensures
            *r == self.hierarchy_state(),
    {
        &self.hierarchy
    }

    pub fn hierarchy_mut(&mut self) -> (r: &mut HierarchyComponent)
        ensures
            *r == old(self).hierarchy_state(),
            final(self).hierarchy_state() == *final(r),
            final(self).transform_state() == old(self).transform_state(),
            final(self).live() == old(self).live(),
            final(self).issued() == old(self).issued(),
    {
        &mut self.hierarchy
    }

    pub fn transforms(&self) -> (r: &TransformComponent)
        ensures
            *r == self.transform_state(),
    {
        &self.transforms
    }

    pub fn transforms_mut(&mut self) -> (r: &mut TransformComponent)
        ensures
            *r == old(self).transform_state(),
            final(self).transform_state() == *final(r),
            final(self).hierarchy_state() == old(self).hierarchy_state(),
            final(self).live() == old(self).live(),
            final(self).issued() == old(self).issued(),
    {
        &mut self.transforms
    }

    /// Nesting depth of `entity`: the number of its ancestors.
    pub fn depth(&self, entity: LunaEntityId) -> (r: usize)
        requires
            self.well_formed(),
        ensures
            r == depth(self.parents(), entity.0),
    {
        self.hierarchy.depth(entity)
    }

    /// Computes and caches the world transform of `entity` from its ancestor chain as the
    /// hierarchy holds it now.
    pub fn update_world_transform(&mut self, entity: LunaEntityId) -> (r: Option<WorldTransform>)
        requires
            old(self).well_formed(),
        ensures
            final(self).well_formed(),
            r == world_transform_of(old(self).locals(), entity, ids_of(ancestors(old(self).parents(), entity.0))),
            final(self).hierarchy_state() == old(self).hierarchy_state(),
            final(self).locals() == old(self).locals(),
            final(self).transform_state().cached() == (match r {
                Some(w) => old(self).transform_state().cached().insert(entity.0, w),
                None => old(self).transform_state().cached(),
            }),
            final(self).live() == old(self).live(),
            final(self).issued() == old(self).issued(),
    {
        let chain = self.hierarchy.get_parent_chain(entity);
        let r = self.transforms.compute_world_transform(entity, chain);
        assert forall|x: u64| #[trigger] self.live().contains(x) implies x < self.issued() by {
            assert(old(self).live().contains(x));
        }
        r
    }
}

/// Composing the identity with a local transform gives that transform back.
proof fn lemma_identity_then(l: LocalTransform)
    ensures
        composition_fits(identity_world(), l),
        compose(identity_world(), l) == local_as_world(l),
{
    let i = identity_world();
    assert(i.scale.x * l.position.x == l.position.x);
    assert(i.scale.y * l.position.y == l.position.y);
    assert(i.scale.x * l.scale.x == l.scale.x);
    assert(i.scale.y * l.scale.y == l.scale.y);
    assert(0int % 4 == 0 && 1int % 4 == 1 && 2int % 4 == 2 && 3int % 4 == 3);
    assert(compose(i, l).rotation == l.rotation);
    assert(compose(i, l).position == local_as_world(l).position);
    assert(compose(i, l).scale == l.scale);
}

/// An entity without a parent is placed in the world exactly as its local transform says.
pub proof fn lemma_root_world_is_local(locals: Map<u64, LocalTransform>, parents: Map<u64, u64>, e: LunaEntityId)
    requires
        is_forest(parents),
        !parents.contains_key(e.0),
        locals.contains_key(e.0),
    ensures
        world_transform_of(locals, e, ids_of(ancestors(parents, e.0))) == Some(local_as_world(locals[e.0])),
{
    lemma_ancestors_unfold(parents, e.0);
    let ls = chain_locals(locals, ids_of(ancestors(parents, e.0))).push(locals[e.0]);
    assert(ls.drop_last() =~= Seq::<LocalTransform>::empty());
    assert(fold_world(ls.drop_last()) == Some(identity_world()));
    assert(ls.last() == locals[e.0]);
    lemma_identity_then(locals[e.0]);
}

/// The world transform of a child of a root is the parent's local transform composed with
/// the child's: the child's offset is scaled and rotated by the parent before the parent's
/// position is added.
pub proof fn lemma_child_world_composes_parent(
    locals: Map<u64, LocalTransform>,
    parents: Map<u64, u64>,
    parent: LunaEntityId,
    child: LunaEntityId,
)
    requires
        is_forest(parents),
        !parents.contains_key(parent.0),
        parents.contains_key(child.0),
        parents[child.0] == parent.0,
        locals.contains_key(parent.0),
        locals.contains_key(child.0),
    ensures
        world_transform_of(locals, child, ids_of(ancestors(parents, child.0))) == (if composition_fits(local_as_world(locals[parent.0]), locals[child.0]) {
            Some(compose(local_as_world(locals[parent.0]), locals[child.0]))
        } else {
            None
        }),
        composition_fits(local_as_world(locals[parent.0]), locals[child.0]) ==> ({
            let lp = locals[parent.0];
            let lc = locals[child.0];
            let w = compose(local_as_world(lp), lc);
            &&& w.position.x == lp.position.x + rotated_x(lp.rotation, lp.scale.x * lc.position.x, lp.scale.y * lc.position.y)
            &&& w.position.y == lp.position.y + rotated_y(lp.rotation, lp.scale.x * lc.position.x, lp.scale.y * lc.position.y)
        }),
{
    lemma_ancestors_unfold(parents, child.0);
    lemma_ancestors_unfold(parents, parent.0);
    let chain = ids_of(ancestors(parents, child.0));
    assert(ancestors(parents, child.0) =~= seq![parent.0]);
    assert(chain =~= seq![parent]);
    let lp = locals[parent.0];
    let ls = chain_locals(locals, chain).push(locals[child.0]);
    assert(chain_locals(locals, chain) =~= seq![lp]);
    assert(ls.drop_last() =~= seq![lp]);
    assert(seq![lp].drop_last() =~= Seq::<LocalTransform>::empty());
    assert(fold_world(seq![lp].drop_last()) == Some(identity_world()));
    lemma_identity_then(lp);
    assert(fold_world(seq![lp]) == Some(local_as_world(lp)));
    assert(ls.last() == locals[child.0]);
}

/// At any depth, the world transform of an entity is its parent's world transform composed
/// with the entity's own local transform.
pub proof fn lemma_world_composes_parent_world(
    locals: Map<u64, LocalTransform>,
    parents: Map<u64, u64>,
    parent: LunaEntityId,
    child: LunaEntityId,
)
    requires
        is_forest(parents),
        parents.contains_key(child.0),
        parents[child.0] == parent.0,
        locals.contains_key(parent.0),
        locals.contains_key(child.0),
    ensures
        world_transform_of(locals, child, ids_of(ancestors(parents, child.0))) == (match world_transform_of(locals, parent, ids_of(ancestors(parents, parent.0))) {
            None => None,
            Some(wp) => if composition_fits(wp, locals[child.0]) {
                Some(compose(wp, locals[child.0]))
            } else {
                None
            },
        }),
{
    lemma_ancestors_unfold(parents, child.0);
    let up = ancestors(parents, parent.0);
    let lp = chain_locals(locals, ids_of(up)).push(locals[parent.0]);
    let lc = chain_locals(locals, ids_of(ancestors(parents, child.0))).push(locals[child.0]);
    assert(chain_locals(locals, ids_of(seq![parent.0] + up)) =~= lp);
    assert(lc.drop_last() =~= lp);
}

} // verus!
