use vstd::prelude::*;

use crate::ecs::LunaEcs;
use crate::entity::LunaEntityId;
use crate::geometry::{BoundingBox, Vector2D, box_within};
use crate::hierarchy::{ancestors, depth, ids_of, is_forest, lemma_ancestors_unfold, lemma_not_own_parent};
use crate::quadtree::{QuadTree, point_hits, rect_of, region_hits};
use crate::transform::{LocalTransform, WorldTransform, world_transform_of};

verus! {

/// Whether `a` is drawn in front of `b`: it is nested deeper, or is as deep and was created
/// later.
pub open spec fn in_front(parents: Map<u64, u64>, a: LunaEntityId, b: LunaEntityId) -> bool {
    depth(parents, a.0) > depth(parents, b.0) || (depth(parents, a.0) == depth(parents, b.0) && a.0 > b.0)
}

/// The box of an entity placed at `w` with the given extent: from its world position to
/// that position plus the extent. `None` where the far corner does not fit in 64 bits.
pub open spec fn entity_box(w: WorldTransform, width: u32, height: u32) -> Option<BoundingBox> {
    if w.position.x + width <= i64::MAX && w.position.y + height <= i64::MAX {
        Some(
            BoundingBox {
                min: Vector2D { x: w.position.x, y: w.position.y },
                max: Vector2D { x: (w.position.x + width) as i64, y: (w.position.y + height) as i64 },
            },
        )
    } else {
        None
    }
}

/// The box `update_entity` derives for `entity`: none where it has no local transform or
/// its coordinates do not fit in 64 bits.
pub open spec fn derived_box(
    locals: Map<u64, LocalTransform>,
    parents: Map<u64, u64>,
    entity: LunaEntityId,
    width: u32,
    height: u32,
) -> Option<BoundingBox> {
    match world_transform_of(locals, entity, ids_of(ancestors(parents, entity.0))) {
        None => None,
        Some(w) => entity_box(w, width, height),
    }
}

spec fn sorted_has(s: Seq<(usize, LunaEntityId)>, id: LunaEntityId) -> bool {
    exists|k: int| 0 <= k < s.len() && #[trigger] s[k].1 == id
}

spec fn prefix_has(s: Seq<LunaEntityId>, n: int, id: LunaEntityId) -> bool {
    exists|k: int| 0 <= k < n && #[trigger] s[k] == id
}

/// What `update_entity` did.
#[derive(Clone, Copy, Debug, PartialEq, Eq, Structural)]
pub enum IndexUpdate {
    /// The entity's box was stored and lies inside the index's region.
    Indexed,
    /// The entity's box was stored but reaches outside the index's region.
    OutsideRegion,
    /// Nothing was stored: the entity has no local transform, or its coordinates do not
    /// fit in 64 bits.
    NotIndexed,
}

/// Answers which entity lies under a point, or which lie in a region, front to back.
pub struct HitTestSystem {
    spatial_index: QuadTree,
}

impl HitTestSystem {
    /// The box indexed for each entity.
    pub closed spec fn index(&self) -> Map<LunaEntityId, BoundingBox> {
        self.spatial_index@
    }

    /// The region the index covers.
    pub closed spec fn region_box(&self) -> BoundingBox {
        self.spatial_index.region_box()
    }

    pub closed spec fn well_formed(&self) -> bool {
        self.spatial_index.well_formed()
    }

    /// A system with an empty index over the canvas from `(0, 0)` to `(width, height)`.
    pub fn new(width: i64, height: i64) -> (r: HitTestSystem)
        requires
            width >= 0,
            height >= 0,
        ensures
            r.well_formed(),
            r.index() == Map::<LunaEntityId, BoundingBox>::empty(),
            r.region_box() == rect_of(0, 0, width, height),
    {
        HitTestSystem { spatial_index: QuadTree::new(0, 0, width, height) }
    }

    /// Brings the index up to date for `entity`: computes (and caches) its world transform
    /// from the hierarchy and local transforms as they are now, derives its box from that
    /// position and the extent `width` by `height`, and stores the box in place of any
    /// earlier one. Where there is no world transform or box, nothing is stored.
    pub fn update_entity(&mut self, ecs: &mut LunaEcs, entity: LunaEntityId, width: u32, height: u32) -> (r: IndexUpdate)
        requires
            old(self).well_formed(),
            old(ecs).well_formed(),
        ensures
            final(self).well_formed(),
            final(ecs).well_formed(),
            final(self).region_box() == old(self).region_box(),
            match derived_box(old(ecs).locals(), old(ecs).parents(), entity, width, height) {
                None => r == IndexUpdate::NotIndexed && final(self).index() == old(self).index(),
                Some(b) => final(self).index() == old(self).index().insert(entity, b) && r == (if box_within(b, old(self).region_box()) {
                    IndexUpdate::Indexed
                } else {
                    IndexUpdate::OutsideRegion
                }),
            },
            final(ecs).hierarchy_state() == old(ecs).hierarchy_state(),
            final(ecs).locals() == old(ecs).locals(),
            final(ecs).live() == old(ecs).live(),
            final(ecs).issued() == old(ecs).issued(),
            final(ecs).transform_state().cached() == (match world_transform_of(old(ecs).locals(), entity, ids_of(ancestors(old(ecs).parents(), entity.0))) {
                Some(w) => old(ecs).transform_state().cached().insert(entity.0, w),
                None => old(ecs).transform_state().cached(),
            }),
    {
        let world = match ecs.update_world_transform(entity) {
            Some(w) => w,
            None => return IndexUpdate::NotIndexed,
        };
        let max_x = world.position.x as i128 + width as i128;
        let max_y = world.position.y as i128 + height as i128;
        if max_x > i64::MAX as i128 || max_y > i64::MAX as i128 {
            return IndexUpdate::NotIndexed;
        }
        let bbox = BoundingBox::new(
            Vector2D { x: world.position.x, y: world.position.y },
            Vector2D { x: max_x as i64, y: max_y as i64 },
        );
        if self.spatial_index.insert(entity, bbox) {
            IndexUpdate::Indexed
        } else {
            IndexUpdate::OutsideRegion
        }
    }

    /// The front-most entity whose box contains `(x, y)`: the most deeply nested, and of
    /// those the one created last. `None` where no box contains the point.
    pub fn hit_test_point(&self, ecs: &LunaEcs, x: i64, y: i64) -> (r: Option<LunaEntityId>)
        requires
            self.well_formed(),
            ecs.well_formed(),
        ensures
            r is None <==> point_hits(self.index(), x as int, y as int) == Set::<LunaEntityId>::empty(),
            r matches Some(e) ==> point_hits(self.index(), x as int, y as int).contains(e),
            r matches Some(e) ==> forall|o: LunaEntityId| #[trigger] point_hits(self.index(), x as int, y as int).contains(o) && o != e ==> in_front(ecs.parents(), e, o),
    {
        let candidates = self.spatial_index.query_point(x, y);
        let ghost hits = point_hits(self.index(), x as int, y as int);
        let ghost m = ecs.parents();
        let mut best: Option<(LunaEntityId, usize)> = None;
        let mut i: usize = 0;
        while i < candidates.len()
            invariant
                i <= candidates.len(),
                ecs.well_formed(),
                m == ecs.parents(),
                candidates@.no_duplicates(),
                best is None <==> i == 0,
                best matches Some(b) ==> b.1 == depth(m, b.0.0),
                best matches Some(b) ==> exists|k: int| 0 <= k < i && candidates@[k] == b.0,
                best matches Some(b) ==> forall|k: int| 0 <= k < i && candidates@[k] != b.0 ==> in_front(m, b.0, #[trigger] candidates@[k]),
            decreases candidates.len() - i,
        {
            let c = candidates[i];
            let d = ecs.depth(c);
            match best {
                None => {
                    best = Some((c, d));
                },
                Some(b) => {
                    proof {
                        let k = choose|k: int| 0 <= k < i && candidates@[k] == b.0;
                        assert(candidates@[k] != candidates@[i as int]);
                    }
                    if d > b.1 || (d == b.1 && c.0 > (b.0).0) {
                        best = Some((c, d));
                    }
                },
            }
            i = i + 1;
        }
        match best {
            None => {
                assert(hits =~= Set::<LunaEntityId>::empty()) by {
                    assert forall|o: LunaEntityId| !hits.contains(o) by {
                        assert(candidates@.contains(o) == hits.contains(o));
                    }
                }
                None
            },
            Some(b) => {
                proof {
                    let k = choose|k: int| 0 <= k < i && candidates@[k] == b.0;
                    assert(candidates@.contains(b.0));
                    assert(hits.contains(b.0));
                    assert forall|o: LunaEntityId| #[trigger] hits.contains(o) && o != b.0 implies in_front(m, b.0, o) by {
                        assert(candidates@.contains(o));
                        let j = choose|j: int| 0 <= j < candidates@.len() && candidates@[j] == o;
                        assert(candidates@[j] == o);
                    }
                }
                Some(b.0)
            },
        }
    }

    /// The entities whose box meets the rectangle with corner `(x, y)` and the given size,
    /// each once, front to back: deeper nesting first, and at equal depth later-created
    /// entities first.
    pub fn hit_test_region(&self, ecs: &LunaEcs, x: i64, y: i64, width: i64, height: i64) -> (r: Vec<LunaEntityId>)
        requires
            self.well_formed(),
            ecs.well_formed(),
        ensures
            r@.no_duplicates(),
            forall|id: LunaEntityId| r@.contains(id) <==> region_hits(self.index(), x as int, y as int, x + width, y + height).contains(id),
            forall|a: int, b: int| 0 <= a < b < r@.len() ==> in_front(ecs.parents(), #[trigger] r@[a], #[trigger] r@[b]),
    {
        let candidates = self.spatial_index.query_region(x, y, width, height);
        let ghost m = ecs.parents();
        let mut sorted: Vec<(usize, LunaEntityId)> = Vec::new();
        let mut i: usize = 0;
        while i < candidates.len()
            invariant
                i <= candidates.len(),
                ecs.well_formed(),
                m == ecs.parents(),
                candidates@.no_duplicates(),
                forall|k: int| 0 <= k < sorted@.len() ==> (#[trigger] sorted@[k]).0 == depth(m, sorted@[k].1.0),
                forall|a: int, b: int| 0 <= a < b < sorted@.len() ==> in_front(m, (#[trigger] sorted@[a]).1, (#[trigger] sorted@[b]).1),
                forall|id: LunaEntityId| #[trigger] sorted_has(sorted@, id) <==> prefix_has(candidates@, i as int, id),
            decreases candidates.len() - i,
        {
            let c = candidates[i];
            let d = ecs.depth(c);
            proof {
                assert forall|k: int| 0 <= k < sorted@.len() implies (#[trigger] sorted@[k]).1 != c by {
                    if sorted@[k].1 == c {
                        assert(sorted_has(sorted@, c));
                        let j = choose|j: int| 0 <= j < i && #[trigger] candidates@[j] == c;
                        assert(candidates@[j] == candidates@[i as int]);
                    }
                }
            }
            let mut p: usize = 0;
            while p < sorted.len() && !(d > sorted[p].0 || (d == sorted[p].0 && c.0 > sorted[p].1.0))
                invariant
                    p <= sorted@.len(),
                    forall|k: int| 0 <= k < p ==> in_front(m, (#[trigger] sorted@[k]).1, c),
                    forall|k: int| 0 <= k < sorted@.len() ==> (#[trigger] sorted@[k]).0 == depth(m, sorted@[k].1.0),
                    forall|k: int| 0 <= k < sorted@.len() ==> (#[trigger] sorted@[k]).1 != c,
                    d == depth(m, c.0),
                decreases sorted@.len() - p,
            {
                p = p + 1;
            }
            let ghost before = sorted@;
            sorted.insert(p, (d, c));
            proof {
                assert forall|k: int| 0 <= k < sorted@.len() implies #[trigger] sorted@[k] == (if k < p {
                    before[k]
                } else if k == p {
                    (d, c)
                } else {
                    before[k - 1]
                }) by {}
                assert forall|a: int, b: int| 0 <= a < b < sorted@.len() implies in_front(m, (#[trigger] sorted@[a]).1, (#[trigger] sorted@[b]).1) by {
                    if p < before.len() {
                        assert(in_front(m, c, before[p as int].1));
                    }
                    if a < p && b > p {
                        assert(in_front(m, before[a].1, c));
                    }
                    if a == p && b > p + 1 {
                        assert(in_front(m, before[p as int].1, before[b - 1].1));
                    }
                }
                assert forall|id: LunaEntityId| #[trigger] sorted_has(sorted@, id) <==> prefix_has(candidates@, i + 1, id) by {
                    if sorted_has(sorted@, id) {
                        let k = choose|k: int| 0 <= k < sorted@.len() && #[trigger] sorted@[k].1 == id;
                        if k < p {
                            assert(before[k].1 == id);
                            assert(sorted_has(before, id));
                        } else if k == p {
                            assert(candidates@[i as int] == id);
                        } else {
                            assert(before[k - 1].1 == id);
                            assert(sorted_has(before, id));
                        }
                    }
                    if prefix_has(candidates@, i + 1, id) {
                        let k = choose|k: int| 0 <= k < i + 1 && #[trigger] candidates@[k] == id;
                        if k < i {
                            assert(prefix_has(candidates@, i as int, id));
                            assert(sorted_has(before, id));
                            let j = choose|j: int| 0 <= j < before.len() && #[trigger] before[j].1 == id;
                            if j < p {
                                assert(sorted@[j].1 == id);
                            } else {
                                assert(sorted@[j + 1].1 == id);
                            }
                        } else {
                            assert(sorted@[p as int].1 == id);
                        }
                    }
                }
            }
            i = i + 1;
        }
        let mut r: Vec<LunaEntityId> = Vec::new();
        let mut k: usize = 0;
        while k < sorted.len()
            invariant
                k <= sorted@.len(),
                r@.len() == k,
                forall|a: int| 0 <= a < k ==> #[trigger] r@[a] == sorted@[a].1,
            decreases sorted@.len() - k,
        {
            r.push(sorted[k].1);
            k = k + 1;
        }
        proof {
            assert forall|a: int, b: int| 0 <= a < b < r@.len() implies in_front(m, #[trigger] r@[a], #[trigger] r@[b]) by {
                assert(in_front(m, sorted@[a].1, sorted@[b].1));
            }
            assert forall|a: int, b: int| 0 <= a < r@.len() && 0 <= b < r@.len() && a != b implies r@[a] != r@[b] by {
                if a < b {
                    assert(in_front(m, r@[a], r@[b]));
                } else {
                    assert(in_front(m, r@[b], r@[a]));
                }
            }
            assert forall|id: LunaEntityId| r@.contains(id) <==> region_hits(self.index(), x as int, y as int, x + width, y + height).contains(id) by {
                if r@.contains(id) {
                    let a = choose|a: int| 0 <= a < r@.len() && r@[a] == id;
                    assert(sorted@[a].1 == id);
                    assert(sorted_has(sorted@, id));
                    let j = choose|j: int| 0 <= j < candidates@.len() && #[trigger] candidates@[j] == id;
                    assert(candidates@.contains(id));
                }
                if region_hits(self.index(), x as int, y as int, x + width, y + height).contains(id) {
                    assert(candidates@.contains(id));
                    let j = choose|j: int| 0 <= j < candidates@.len() && candidates@[j] == id;
                    assert(candidates@[j] == id);
                    assert(prefix_has(candidates@, candidates@.len() as int, id));
                    assert(sorted_has(sorted@, id));
                    let a = choose|a: int| 0 <= a < sorted@.len() && #[trigger] sorted@[a].1 == id;
                    assert(r@[a] == id);
                }
            }
        }
        r
    }

    /// Empties the index; it keeps covering the region it was made for.
    pub fn clear(&mut self)
        requires
            old(self).well_formed(),
        ensures
            final(self).well_formed(),
            final(self).index() == Map::<LunaEntityId, BoundingBox>::empty(),
            final(self).region_box() == old(self).region_box(),
    {
        self.spatial_index.clear();
    }

    /// Deletes `entity` everywhere at once: from the index, the hierarchy (its children
    /// become roots) and the transforms.
    pub fn remove_entity(&mut self, ecs: &mut LunaEcs, entity: LunaEntityId)
        requires
            old(self).well_formed(),
            old(ecs).well_formed(),
        ensures
            final(self).well_formed(),
            final(ecs).well_formed(),
            final(self).index() == old(self).index().remove(entity),
            final(self).region_box() == old(self).region_box(),
            final(ecs).live() == old(ecs).live().remove(entity.0),
            final(ecs).parents() == crate::hierarchy::without_entity(old(ecs).parents(), entity.0),
            final(ecs).locals() == old(ecs).locals().remove(entity.0),
    {
        self.spatial_index.remove(entity);
        ecs.delete_entity(entity);
    }
}

/// A child is drawn in front of its parent. So where a point lies in both their boxes, the
/// front-most hit, as `hit_test_point` returns it, is never the parent.
pub proof fn lemma_child_hit_before_parent(
    parents: Map<u64, u64>,
    hits: Set<LunaEntityId>,
    parent: LunaEntityId,
    child: LunaEntityId,
    top: LunaEntityId,
)
    requires
        is_forest(parents),
        parents.contains_key(child.0),
        parents[child.0] == parent.0,
        hits.contains(parent),
        hits.contains(child),
        hits.contains(top),
        forall|o: LunaEntityId| #[trigger] hits.contains(o) && o != top ==> in_front(parents, top, o),
    ensures
        in_front(parents, child, parent),
        top != parent,
{
    lemma_ancestors_unfold(parents, child.0);
    lemma_not_own_parent(parents, child.0);
    assert(depth(parents, child.0) == depth(parents, parent.0) + 1);
    if top == parent {
        assert(in_front(parents, parent, child));
    }
}

} // verus!
