use vstd::prelude::*;
use std::collections::HashMap;

use crate::entity::LunaEntityId;
use crate::geometry::Vector2D;

verus! {

broadcast use vstd::std_specs::hash::group_hash_axioms;

/// A rotation by a whole number of counter-clockwise quarter turns.
#[derive(Clone, Copy, Debug, PartialEq, Eq, Structural)]
pub enum Rotation {
    Deg0,
    Deg90,
    Deg180,
    Deg270,
}

/// Number of quarter turns in a rotation.
pub open spec fn quarter_turns(r: Rotation) -> int {
    match r {
        Rotation::Deg0 => 0,
        Rotation::Deg90 => 1,
        Rotation::Deg180 => 2,
        Rotation::Deg270 => 3,
    }
}

/// The rotation by `n` quarter turns, `n` taken modulo four.
pub open spec fn rotation_of_turns(n: int) -> Rotation {
    let k = n % 4;
    if k == 0 {
        Rotation::Deg0
    } else if k == 1 {
        Rotation::Deg90
    } else if k == 2 {
        Rotation::Deg180
    } else {
        Rotation::Deg270
    }
}

/// First coordinate of the vector `(x, y)` rotated by `r`.
pub open spec fn rotated_x(r: Rotation, x: int, y: int) -> int {
    match r {
        Rotation::Deg0 => x,
        Rotation::Deg90 => -y,
        Rotation::Deg180 => -x,
        Rotation::Deg270 => y,
    }
}

/// Second coordinate of the vector `(x, y)` rotated by `r`.
pub open spec fn rotated_y(r: Rotation, x: int, y: int) -> int {
    match r {
        Rotation::Deg0 => y,
        Rotation::Deg90 => x,
        Rotation::Deg180 => -y,
        Rotation::Deg270 => -x,
    }
}

/// Whether `r` turns the axes onto each other (a quarter or three quarter turn).
pub open spec fn swaps_axes(r: Rotation) -> bool {
    r == Rotation::Deg90 || r == Rotation::Deg270
}

impl Rotation {
    /// The rotation that applies `self` and then `other`.
    pub fn combine(self, other: Rotation) -> (r: Rotation)
        ensures
            r == rotation_of_turns(quarter_turns(self) + quarter_turns(other)),
    {
        let n: u8 = self.turns() + other.turns();
        if n % 4 == 0 {
            Rotation::Deg0
        } else if n % 4 == 1 {
            Rotation::Deg90
        } else if n % 4 == 2 {
            Rotation::Deg180
        } else {
            Rotation::Deg270
        }
    }

    /// Number of quarter turns.
    pub fn turns(self) -> (r: u8)
        ensures
            r == quarter_turns(self),
    {
        match self {
            Rotation::Deg0 => 0,
            Rotation::Deg90 => 1,
            Rotation::Deg180 => 2,
            Rotation::Deg270 => 3,
        }
    }
}

/// Position of an entity relative to its parent, or to the canvas for a root.
#[derive(Clone, Copy, Debug, PartialEq, Eq, Structural)]
pub struct LocalPosition {
    pub x: i64,
    pub y: i64,
}

/// Position of an entity in canvas space.
#[derive(Clone, Copy, Debug, PartialEq, Eq, Structural)]
pub struct WorldPosition {
    pub x: i64,
    pub y: i64,
}

/// Placement of an entity relative to its parent: a point `v` of the entity maps to
/// `position + rotation(scale * v)` in the parent's space (the product taken per axis).
#[derive(Clone, Copy, Debug, PartialEq, Eq, Structural)]
pub struct LocalTransform {
    pub position: LocalPosition,
    pub scale: Vector2D,
    pub rotation: Rotation,
}

/// Placement of an entity in canvas space, of the same form as a local transform.
#[derive(Clone, Copy, Debug, PartialEq, Eq, Structural)]
pub struct WorldTransform {
    pub position: WorldPosition,
    pub scale: Vector2D,
    pub rotation: Rotation,
}

pub open spec fn fits_i64(v: int) -> bool {
    i64::MIN <= v <= i64::MAX
}

/// The transform that leaves every point in place.
pub open spec fn identity_world() -> WorldTransform {
    WorldTransform {
        position: WorldPosition { x: 0, y: 0 },
        scale: Vector2D { x: 1, y: 1 },
        rotation: Rotation::Deg0,
    }
}

pub open spec fn identity_local() -> LocalTransform {
    LocalTransform {
        position: LocalPosition { x: 0, y: 0 },
        scale: Vector2D { x: 1, y: 1 },
        rotation: Rotation::Deg0,
    }
}

/// A local transform read as a transform of canvas space.
pub open spec fn local_as_world(l: LocalTransform) -> WorldTransform {
    WorldTransform {
        position: WorldPosition { x: l.position.x, y: l.position.y },
        scale: l.scale,
        rotation: l.rotation,
    }
}

/// First coordinate of the composed position: the child's offset is scaled and rotated by
/// the parent before it is added to the parent's position.
pub open spec fn composed_x(p: WorldTransform, c: LocalTransform) -> int {
    p.position.x + rotated_x(p.rotation, p.scale.x * c.position.x, p.scale.y * c.position.y)
}

pub open spec fn composed_y(p: WorldTransform, c: LocalTransform) -> int {
    p.position.y + rotated_y(p.rotation, p.scale.x * c.position.x, p.scale.y * c.position.y)
}

/// Per-axis scale of the composition: the parent's scale, read along the child's rotated
/// axes, times the child's scale.
pub open spec fn composed_scale_x(p: WorldTransform, c: LocalTransform) -> int {
    (if swaps_axes(c.rotation) { p.scale.y } else { p.scale.x }) * c.scale.x
}

pub open spec fn composed_scale_y(p: WorldTransform, c: LocalTransform) -> int {
    (if swaps_axes(c.rotation) { p.scale.x } else { p.scale.y }) * c.scale.y
}

/// Whether every field of the composition fits in 64 bits.
pub open spec fn composition_fits(p: WorldTransform, c: LocalTransform) -> bool {
    &&& fits_i64(composed_x(p, c))
    &&& fits_i64(composed_y(p, c))
    &&& fits_i64(composed_scale_x(p, c))
    &&& fits_i64(composed_scale_y(p, c))
}

/// The transform that applies `c` and then `p`: its position is `p` applied to `c`'s
/// position, its rotation the sum of both, its scale as `composed_scale_x/y` say.
pub open spec fn compose(p: WorldTransform, c: LocalTransform) -> WorldTransform {
    WorldTransform {
        position: WorldPosition { x: composed_x(p, c) as i64, y: composed_y(p, c) as i64 },
        scale: Vector2D { x: composed_scale_x(p, c) as i64, y: composed_scale_y(p, c) as i64 },
        rotation: rotation_of_turns(quarter_turns(p.rotation) + quarter_turns(c.rotation)),
    }
}

/// Composition of the local transforms `ls`, outermost first, starting from the identity;
/// `None` as soon as one step does not fit in 64 bits.
pub open spec fn fold_world(ls: Seq<LocalTransform>) -> Option<WorldTransform>
    decreases ls.len(),
{
    if ls.len() == 0 {
        Some(identity_world())
    } else {
        match fold_world(ls.drop_last()) {
            None => None,
            Some(acc) => if composition_fits(acc, ls.last()) {
                Some(compose(acc, ls.last()))
            } else {
                None
            },
        }
    }
}

/// The local transform recorded for `id`, or the identity where none is.
pub open spec fn local_or_identity(locals: Map<u64, LocalTransform>, id: u64) -> LocalTransform {
    if locals.contains_key(id) {
        locals[id]
    } else {
        identity_local()
    }
}

/// The local transforms along an innermost-first ancestor chain, outermost first.
pub open spec fn chain_locals(locals: Map<u64, LocalTransform>, chain: Seq<LunaEntityId>) -> Seq<LocalTransform> {
    Seq::new(chain.len(), |k: int| local_or_identity(locals, chain[chain.len() - 1 - k].0))
}

/// World transform of `entity` under the innermost-first ancestor chain `chain`: the
/// ancestors' local transforms composed outermost first, then the entity's own. `None`
/// where the entity has no local transform, or a step does not fit in 64 bits.
pub open spec fn world_transform_of(
    locals: Map<u64, LocalTransform>,
    entity: LunaEntityId,
    chain: Seq<LunaEntityId>,
) -> Option<WorldTransform> {
    if locals.contains_key(entity.0) {
        fold_world(chain_locals(locals, chain).push(locals[entity.0]))
    } else {
        None
    }
}

fn wide_mul(a: i64, b: i64) -> (r: i128)
    ensures
        r == a * b,
        -0x4000_0000_0000_0000_0000_0000_0000_0000 <= r <= 0x4000_0000_0000_0000_0000_0000_0000_0000,
{
    proof {
        assert(-0x8000_0000_0000_0000 <= a < 0x8000_0000_0000_0000);
        assert(-0x8000_0000_0000_0000 <= b < 0x8000_0000_0000_0000);
        assert(-0x4000_0000_0000_0000_0000_0000_0000_0000 <= a * b <= 0x4000_0000_0000_0000_0000_0000_0000_0000) by (nonlinear_arith)
            requires
                -0x8000_0000_0000_0000 <= a < 0x8000_0000_0000_0000,
                -0x8000_0000_0000_0000 <= b < 0x8000_0000_0000_0000,
        ;
    }
    (a as i128) * (b as i128)
}

fn narrow(v: i128) -> (r: Option<i64>)
    ensures
        r matches Some(n) ==> n == v,
        r is Some <==> fits_i64(v as int),
{
    if i64::MIN as i128 <= v && v <= i64::MAX as i128 {
        Some(v as i64)
    } else {
        None
    }
}

fn rotate_wide(r: Rotation, x: i128, y: i128) -> (res: (i128, i128))
    requires
        -0x4000_0000_0000_0000_0000_0000_0000_0000 <= x <= 0x4000_0000_0000_0000_0000_0000_0000_0000,
        -0x4000_0000_0000_0000_0000_0000_0000_0000 <= y <= 0x4000_0000_0000_0000_0000_0000_0000_0000,
    ensures
        res.0 == rotated_x(r, x as int, y as int),
        res.1 == rotated_y(r, x as int, y as int),
        -0x4000_0000_0000_0000_0000_0000_0000_0000 <= res.0 <= 0x4000_0000_0000_0000_0000_0000_0000_0000,
        -0x4000_0000_0000_0000_0000_0000_0000_0000 <= res.1 <= 0x4000_0000_0000_0000_0000_0000_0000_0000,
{
    match r {
        Rotation::Deg0 => (x, y),
        Rotation::Deg90 => (-y, x),
        Rotation::Deg180 => (-x, -y),
        Rotation::Deg270 => (y, -x),
    }
}

impl LocalTransform {
    /// The transform that leaves every point in place.
    pub fn identity() -> (r: LocalTransform)
        ensures
            r == identity_local(),
    {
        LocalTransform {
            position: LocalPosition { x: 0, y: 0 },
            scale: Vector2D { x: 1, y: 1 },
            rotation: Rotation::Deg0,
        }
    }
}

impl WorldTransform {
    /// The transform that leaves every point in place.
    pub fn identity() -> (r: WorldTransform)
        ensures
            r == identity_world(),
    {
        WorldTransform {
            position: WorldPosition { x: 0, y: 0 },
            scale: Vector2D { x: 1, y: 1 },
            rotation: Rotation::Deg0,
        }
    }

    /// This transform followed, inside it, by the local transform `child`; `None` where a
    /// coordinate or scale factor of the result does not fit in 64 bits.
    pub fn compose(&self, child: &LocalTransform) -> (r: Option<WorldTransform>)
        ensures
            r is Some <==> composition_fits(*self, *child),
            r matches Some(w) ==> w == compose(*self, *child),
    {
        let ox = wide_mul(self.scale.x, child.position.x);
        let oy = wide_mul(self.scale.y, child.position.y);
        let (rx, ry) = rotate_wide(self.rotation, ox, oy);
        let (psx, psy) = match child.rotation {
            Rotation::Deg90 | Rotation::Deg270 => (self.scale.y, self.scale.x),
            _ => (self.scale.x, self.scale.y),
        };
        let x = narrow(self.position.x as i128 + rx);
        let y = narrow(self.position.y as i128 + ry);
        let sx = narrow(wide_mul(psx, child.scale.x));
        let sy = narrow(wide_mul(psy, child.scale.y));
        match (x, y, sx, sy) {
            (Some(x), Some(y), Some(sx), Some(sy)) => Some(
                WorldTransform {
                    position: WorldPosition { x, y },
                    scale: Vector2D { x: sx, y: sy },
                    rotation: self.rotation.combine(child.rotation),
                },
            ),
            _ => None,
        }
    }
}

/// One more step of the fold over a prefix of `ls`.
proof fn lemma_fold_step(ls: Seq<LocalTransform>, k: int)
    requires
        0 <= k < ls.len(),
    ensures
        fold_world(ls.take(k + 1)) == (match fold_world(ls.take(k)) {
            None => None,
            Some(acc) => if composition_fits(acc, ls[k]) {
                Some(compose(acc, ls[k]))
            } else {
                None
            },
        }),
{
    assert(ls.take(k + 1).drop_last() =~= ls.take(k));
}

/// Once a prefix of the fold has failed, the whole fold fails.
proof fn lemma_fold_fails_from_prefix(ls: Seq<LocalTransform>, k: int)
    requires
        0 <= k <= ls.len(),
        fold_world(ls.take(k)) is None,
    ensures
        fold_world(ls) is None,
    decreases ls.len(),
{
    if k == ls.len() {
        assert(ls.take(k) =~= ls);
    } else {
        assert(ls.drop_last().take(k) =~= ls.take(k));
        lemma_fold_fails_from_prefix(ls.drop_last(), k);
    }
}

/// Local transforms of entities, and the world transforms last computed from them.
pub struct TransformComponent {
    local_transforms: HashMap<u64, LocalTransform>,
    world_transforms: HashMap<u64, WorldTransform>,
}

impl TransformComponent {
    /// The local transform recorded for each entity, by handle number.
    pub closed spec fn locals(&self) -> Map<u64, LocalTransform> {
        self.local_transforms@
    }

    /// The world transform last computed for each entity, by handle number.
    pub closed spec fn cached(&self) -> Map<u64, WorldTransform> {
        self.world_transforms@
    }

    pub fn new() -> (r: TransformComponent)
        ensures
            r.locals() == Map::<u64, LocalTransform>::empty(),
            r.cached() == Map::<u64, WorldTransform>::empty(),
    {
        TransformComponent { local_transforms: HashMap::new(), world_transforms: HashMap::new() }
    }

    /// Records the local transform of `entity`, replacing any earlier one. World transforms
    /// are not recomputed here.
    pub fn set_transform(&mut self, entity: LunaEntityId, transform: LocalTransform)
        ensures
            final(self).locals() == old(self).locals().insert(entity.0, transform),
            final(self).cached() == old(self).cached(),
    {
        self.local_transforms.insert(entity.0, transform);
    }

    /// The local transform recorded for `entity`, if any.
    pub fn get_transform(&self, entity: LunaEntityId) -> (r: Option<LocalTransform>)
        ensures
            r == (if self.locals().contains_key(entity.0) {
                Some(self.locals()[entity.0])
            } else {
                None
            }),
    {
        match self.local_transforms.get(&entity.0) {
            Some(t) => Some(*t),
            None => None,
        }
    }

    /// The world transform last computed for `entity`, if any; it reflects the hierarchy
    /// and local transforms as they were at that computation.
    pub fn get_world_transform(&self, entity: LunaEntityId) -> (r: Option<WorldTransform>)
        ensures
            r == (if self.cached().contains_key(entity.0) {
                Some(self.cached()[entity.0])
            } else {
                None
            }),
    {
        match self.world_transforms.get(&entity.0) {
            Some(t) => Some(*t),
            None => None,
        }
    }

    /// Forgets both transforms of `entity`.
    pub fn remove_transform(&mut self, entity: LunaEntityId)
        ensures
            final(self).locals() == old(self).locals().remove(entity.0),
            final(self).cached() == old(self).cached().remove(entity.0),
    {
        self.local_transforms.remove(&entity.0);
        self.world_transforms.remove(&entity.0);
    }

    /// Composes the local transforms along `parent_chain` (innermost first, as the
    /// hierarchy hands it out) from the outermost ancestor inwards, then `entity`'s own,
    /// and caches the result. An ancestor without a local transform counts as the
    /// identity. `None`, with nothing cached, where `entity` has no local transform or a
    /// step does not fit in 64 bits.
    pub fn compute_world_transform(&mut self, entity: LunaEntityId, parent_chain: Vec<LunaEntityId>) -> (r: Option<WorldTransform>)
        ensures
            r == world_transform_of(old(self).locals(), entity, parent_chain@),
            final(self).locals() == old(self).locals(),
            final(self).cached() == (match r {
                Some(w) => old(self).cached().insert(entity.0, w),
                None => old(self).cached(),
            }),
    {
        let own = match self.local_transforms.get(&entity.0) {
            Some(t) => *t,
            None => return None,
        };
        let ghost ls = chain_locals(self.locals(), parent_chain@);
        let n = parent_chain.len();
        let mut acc = WorldTransform::identity();
        let mut i = n;
        proof {
            assert(ls.take(0) =~= Seq::<LocalTransform>::empty());
        }
        while i > 0
            invariant
                i <= n,
                n == parent_chain.len(),
                ls == chain_locals(self.locals(), parent_chain@),
                fold_world(ls.take(n - i)) == Some(acc),
                self.locals().contains_key(entity.0),
                own == self.locals()[entity.0],
            decreases i,
        {
            let id = parent_chain[i - 1];
            let step = match self.local_transforms.get(&id.0) {
                Some(t) => *t,
                None => LocalTransform::identity(),
            };
            proof {
                lemma_fold_step(ls, n - i);
            }
            match acc.compose(&step) {
                Some(w) => {
                    acc = w;
                },
                None => {
                    proof {
                        assert(ls.push(own).take(n - i + 1) =~= ls.take(n - i + 1));
                        lemma_fold_fails_from_prefix(ls.push(own), n - i + 1);
                    }
                    return None;
                },
            }
            i = i - 1;
        }
        proof {
            assert(ls.take(n as int) =~= ls);
            assert(ls.push(own).drop_last() =~= ls);
        }
        let r = acc.compose(&own);
        if let Some(w) = r {
            self.world_transforms.insert(entity.0, w);
        }
        r
    }
}

} // verus!
