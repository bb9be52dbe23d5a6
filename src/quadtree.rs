use vstd::prelude::*;

use crate::entity::LunaEntityId;
use crate::geometry::{BoundingBox, Vector2D, box_contains_point, box_overlaps_rect, box_within};

verus! {

/// Number of entries a leaf holds before it subdivides.
pub const NODE_CAPACITY: usize = 4;

/// Nodes at this depth never subdivide, which bounds the tree's height.
pub const MAX_DEPTH: usize = 8;

/// An indexed entity and its box.
pub type Entry = (LunaEntityId, BoundingBox);

/// The entities of a list of entries, each mapped to its box.
pub open spec fn entries_view(s: Seq<Entry>) -> Map<LunaEntityId, BoundingBox> {
    Map::new(
        |id: LunaEntityId| exists|i: int| 0 <= i < s.len() && #[trigger] s[i].0 == id,
        |id: LunaEntityId| s[choose|i: int| 0 <= i < s.len() && #[trigger] s[i].0 == id].1,
    )
}

/// No entity occurs twice in the list.
pub open spec fn distinct_ids(s: Seq<Entry>) -> bool {
    forall|i: int, j: int| 0 <= i < s.len() && 0 <= j < s.len() && i != j ==> #[trigger] s[i].0 != #[trigger] s[j].0
}

/// The entities whose box contains the point `(x, y)`.
pub open spec fn point_hits(m: Map<LunaEntityId, BoundingBox>, x: int, y: int) -> Set<LunaEntityId> {
    Set::new(|id: LunaEntityId| m.contains_key(id) && box_contains_point(m[id], x, y))
}

/// The entities whose box meets the rectangle from `(x0, y0)` to `(x1, y1)`.
pub open spec fn region_hits(m: Map<LunaEntityId, BoundingBox>, x0: int, y0: int, x1: int, y1: int) -> Set<LunaEntityId> {
    Set::new(|id: LunaEntityId| m.contains_key(id) && box_overlaps_rect(m[id], x0, y0, x1, y1))
}

/// Every box of `m` lies inside `bounds`.
pub open spec fn all_within(m: Map<LunaEntityId, BoundingBox>, bounds: BoundingBox) -> bool {
    forall|id: LunaEntityId| #[trigger] m.contains_key(id) ==> box_within(m[id], bounds)
}

pub proof fn lemma_entry_lookup(s: Seq<Entry>, i: int)
    requires
        distinct_ids(s),
        0 <= i < s.len(),
    ensures
        entries_view(s).contains_key(s[i].0),
        entries_view(s)[s[i].0] == s[i].1,
{
    let id = s[i].0;
    assert(exists|j: int| 0 <= j < s.len() && #[trigger] s[j].0 == id);
    let j = choose|j: int| 0 <= j < s.len() && #[trigger] s[j].0 == id;
    assert(i == j);
}

pub proof fn lemma_entries_push(s: Seq<Entry>, e: Entry)
    requires
        distinct_ids(s),
        !entries_view(s).contains_key(e.0),
    ensures
        distinct_ids(s.push(e)),
        entries_view(s.push(e)) == entries_view(s).insert(e.0, e.1),
{
    let t = s.push(e);
    assert forall|i: int, j: int| 0 <= i < t.len() && 0 <= j < t.len() && i != j implies #[trigger] t[i].0 != #[trigger] t[j].0 by {
        if i == s.len() && j < s.len() {
            assert(s[j].0 == t[j].0);
        } else if j == s.len() && i < s.len() {
            assert(s[i].0 == t[i].0);
        }
    }
    assert forall|id: LunaEntityId| #[trigger] entries_view(t).contains_key(id) <==> entries_view(s).insert(e.0, e.1).contains_key(id) by {
        if entries_view(s).contains_key(id) {
            let i = choose|i: int| 0 <= i < s.len() && #[trigger] s[i].0 == id;
            assert(t[i].0 == id);
        }
        if id == e.0 {
            assert(t[s.len() as int].0 == id);
        }
        if entries_view(t).contains_key(id) && id != e.0 {
            let i = choose|i: int| 0 <= i < t.len() && #[trigger] t[i].0 == id;
            assert(s[i].0 == id);
        }
    }
    assert forall|id: LunaEntityId| #[trigger] entries_view(t).contains_key(id) implies entries_view(t)[id] == entries_view(s).insert(e.0, e.1)[id] by {
        let i = choose|i: int| 0 <= i < t.len() && #[trigger] t[i].0 == id;
        lemma_entry_lookup(t, i);
        if i < s.len() {
            assert(s[i] == t[i]);
            lemma_entry_lookup(s, i);
        }
    }
    assert(entries_view(t) =~= entries_view(s).insert(e.0, e.1));
}

pub proof fn lemma_entries_remove(s: Seq<Entry>, i: int)
    requires
        distinct_ids(s),
        0 <= i < s.len(),
    ensures
        distinct_ids(s.remove(i)),
        entries_view(s.remove(i)) == entries_view(s).remove(s[i].0),
{
    let t = s.remove(i);
    assert forall|a: int| 0 <= a < t.len() implies #[trigger] t[a] == s[if a < i { a } else { a + 1 }] by {}
    assert forall|a: int, b: int| 0 <= a < t.len() && 0 <= b < t.len() && a != b implies #[trigger] t[a].0 != #[trigger] t[b].0 by {
        assert(t[a] == s[if a < i { a } else { a + 1 }]);
        assert(t[b] == s[if b < i { b } else { b + 1 }]);
    }
    assert forall|id: LunaEntityId| #[trigger] entries_view(t).contains_key(id) <==> entries_view(s).remove(s[i].0).contains_key(id) by {
        if entries_view(t).contains_key(id) {
            let a = choose|a: int| 0 <= a < t.len() && #[trigger] t[a].0 == id;
            let a2 = if a < i { a } else { a + 1 };
            assert(t[a] == s[a2]);
            assert(s[a2].0 == id);
        }
        if entries_view(s).contains_key(id) && id != s[i].0 {
            let k = choose|k: int| 0 <= k < s.len() && #[trigger] s[k].0 == id;
            if k < i {
                assert(t[k] == s[k]);
            } else {
                assert(t[k - 1] == s[k]);
            }
        }
    }
    assert forall|id: LunaEntityId| #[trigger] entries_view(t).contains_key(id) implies entries_view(t)[id] == entries_view(s)[id] by {
        let a = choose|a: int| 0 <= a < t.len() && #[trigger] t[a].0 == id;
        let a2 = if a < i { a } else { a + 1 };
        assert(t[a] == s[a2]);
        lemma_entry_lookup(t, a);
        lemma_entry_lookup(s, a2);
    }
    assert(entries_view(t) =~= entries_view(s).remove(s[i].0));
}

/// A node of the tree: a region, the entries kept here, and, once subdivided, four
/// quadrants.
struct QuadNode {
    bounds: BoundingBox,
    depth: usize,
    entries: Vec<Entry>,
    quadrants: Option<Box<Quadrants>>,
}

/// The four quadrants of a subdivided node.
struct Quadrants {
    nw: QuadNode,
    ne: QuadNode,
    sw: QuadNode,
    se: QuadNode,
}

impl Quadrants {
    /// The quadrant numbered `k` (north-west, north-east, south-west, south-east).
    spec fn child(self, k: int) -> QuadNode {
        if k == 0 {
            self.nw
        } else if k == 1 {
            self.ne
        } else if k == 2 {
            self.sw
        } else {
            self.se
        }
    }

    spec fn view(self) -> Map<LunaEntityId, BoundingBox>
        decreases self,
    {
        self.nw.view().union_prefer_right(self.ne.view()).union_prefer_right(self.sw.view()).union_prefer_right(self.se.view())
    }

    spec fn well_formed(self) -> bool
        decreases self,
    {
        &&& self.nw.well_formed()
        &&& self.ne.well_formed()
        &&& self.sw.well_formed()
        &&& self.se.well_formed()
        &&& forall|k: int| 0 <= k < 4 ==> all_within(#[trigger] self.child(k).view(), self.child(k).bounds)
        &&& forall|k: int| 0 <= k < 4 ==> #[trigger] self.child(k).depth == self.nw.depth
        &&& forall|j: int, k: int| 0 <= j < 4 && 0 <= k < 4 && j != k ==> #[trigger] self.child(j).view().dom().disjoint(#[trigger] self.child(k).view().dom())
    }
}

impl QuadNode {
    spec fn view(self) -> Map<LunaEntityId, BoundingBox>
        decreases self,
    {
        match self.quadrants {
            None => entries_view(self.entries@),
            Some(q) => entries_view(self.entries@).union_prefer_right(q.view()),
        }
    }

    /// Entries are distinct; a subdivided node sits above the deepest level, its quadrants
    /// are one level deeper, hold only what is inside their bounds, share no entity with
    /// this node, and what stays at this node fits in none of them.
    spec fn well_formed(self) -> bool
        decreases self,
    {
        &&& distinct_ids(self.entries@)
        &&& self.depth <= MAX_DEPTH
        &&& match self.quadrants {
            None => true,
            Some(q) => {
                &&& q.well_formed()
                &&& self.depth < MAX_DEPTH
                &&& q.nw.depth == self.depth + 1
                &&& entries_view(self.entries@).dom().disjoint(q.view().dom())
                &&& forall|i: int, k: int| 0 <= i < self.entries@.len() && 0 <= k < 4 ==> !box_within(#[trigger] self.entries@[i].1, #[trigger] q.child(k).bounds)
            },
        }
    }
}

/// What the four quadrants hold, one quadrant at a time.
proof fn lemma_quadrants_view(q: Quadrants)
    requires
        q.well_formed(),
    ensures
        forall|id: LunaEntityId| #[trigger] q.view().contains_key(id) <==> exists|k: int| 0 <= k < 4 && #[trigger] q.child(k).view().contains_key(id),
        forall|id: LunaEntityId, k: int| 0 <= k < 4 && #[trigger] q.child(k).view().contains_key(id) ==> q.view()[id] == #[trigger] q.child(k).view()[id],
{
    assert forall|id: LunaEntityId| #[trigger] q.view().contains_key(id) <==> exists|k: int| 0 <= k < 4 && #[trigger] q.child(k).view().contains_key(id) by {
        if q.view().contains_key(id) {
            if q.nw.view().contains_key(id) {
                assert(q.child(0).view().contains_key(id));
            } else if q.ne.view().contains_key(id) {
                assert(q.child(1).view().contains_key(id));
            } else if q.sw.view().contains_key(id) {
                assert(q.child(2).view().contains_key(id));
            } else {
                assert(q.child(3).view().contains_key(id));
            }
        }
    }
    assert forall|id: LunaEntityId, k: int| 0 <= k < 4 && #[trigger] q.child(k).view().contains_key(id) implies q.view()[id] == #[trigger] q.child(k).view()[id] by {
        assert forall|j: int| 0 <= j < 4 && j != k implies !q.child(j).view().contains_key(id) by {
            assert(q.child(j).view().dom().disjoint(q.child(k).view().dom()));
        }
    }
}

/// Whether `b` meets the rectangle from `(x0, y0)` to `(x1, y1)`.
fn overlaps_wide(b: &BoundingBox, x0: i128, y0: i128, x1: i128, y1: i128) -> (r: bool)
    ensures
        r == box_overlaps_rect(*b, x0 as int, y0 as int, x1 as int, y1 as int),
{
    (b.min.x as i128) <= x1 && x0 <= (b.max.x as i128) && (b.min.y as i128) <= y1 && y0 <= (b.max.y as i128)
}

/// A part of the tree whose boxes lie inside `bounds` has no hit in a rectangle that
/// misses `bounds`.
proof fn lemma_no_hits_outside(m: Map<LunaEntityId, BoundingBox>, bounds: BoundingBox, x0: int, y0: int, x1: int, y1: int)
    requires
        all_within(m, bounds),
        !box_overlaps_rect(bounds, x0, y0, x1, y1),
    ensures
        region_hits(m, x0, y0, x1, y1) == Set::<LunaEntityId>::empty(),
{
    assert forall|id: LunaEntityId| !#[trigger] region_hits(m, x0, y0, x1, y1).contains(id) by {
        if m.contains_key(id) {
            crate::geometry::lemma_within_preserves_hits(m[id], bounds, x0, y0, x1, y1);
        }
    }
    assert(region_hits(m, x0, y0, x1, y1) =~= Set::<LunaEntityId>::empty());
}

impl Quadrants {
    fn child_at(&self, k: usize) -> (r: &QuadNode)
        requires
            k < 4,
        ensures
            *r == self.child(k as int),
    {
        if k == 0 {
            &self.nw
        } else if k == 1 {
            &self.ne
        } else if k == 2 {
            &self.sw
        } else {
            &self.se
        }
    }

    /// Appends to `acc` the entities below these quadrants whose box meets the rectangle,
    /// skipping every quadrant whose bounds miss it.
    fn collect(&self, x0: i128, y0: i128, x1: i128, y1: i128, acc: &mut Vec<LunaEntityId>)
        requires
            self.well_formed(),
            old(acc)@.no_duplicates(),
            forall|id: LunaEntityId| old(acc)@.contains(id) ==> !self.view().contains_key(id),
        ensures
            final(acc)@.no_duplicates(),
            forall|id: LunaEntityId| final(acc)@.contains(id) <==> (old(acc)@.contains(id) || region_hits(self.view(), x0 as int, y0 as int, x1 as int, y1 as int).contains(id)),
        decreases self,
    {
        let ghost start = acc@;
        proof {
            lemma_quadrants_view(*self);
        }
        let mut k: usize = 0;
        while k < 4
            invariant
                k <= 4,
                self.well_formed(),
                acc@.no_duplicates(),
                forall|id: LunaEntityId| start.contains(id) ==> !self.view().contains_key(id),
                forall|id: LunaEntityId| #[trigger] self.view().contains_key(id) <==> exists|j: int| 0 <= j < 4 && #[trigger] self.child(j).view().contains_key(id),
                forall|id: LunaEntityId, j: int| 0 <= j < 4 && #[trigger] self.child(j).view().contains_key(id) ==> self.view()[id] == #[trigger] self.child(j).view()[id],
                forall|id: LunaEntityId| #[trigger] acc@.contains(id) <==> (start.contains(id) || exists|j: int| 0 <= j < k && #[trigger] region_hits(self.child(j).view(), x0 as int, y0 as int, x1 as int, y1 as int).contains(id)),
            decreases 4 - k,
        {
            let c = self.child_at(k);
            let ghost before = acc@;
            proof {
                assert forall|id: LunaEntityId| before.contains(id) implies !c.view().contains_key(id) by {
                    if start.contains(id) {
                        if c.view().contains_key(id) {
                            assert(self.view().contains_key(id));
                        }
                    } else {
                        let j = choose|j: int| 0 <= j < k && #[trigger] region_hits(self.child(j).view(), x0 as int, y0 as int, x1 as int, y1 as int).contains(id);
                        assert(self.child(j).view().dom().disjoint(self.child(k as int).view().dom()));
                    }
                }
            }
            if overlaps_wide(&c.bounds, x0, y0, x1, y1) {
                c.collect(x0, y0, x1, y1, acc);
            } else {
                proof {
                    lemma_no_hits_outside(c.view(), c.bounds, x0 as int, y0 as int, x1 as int, y1 as int);
                }
            }
            proof {
                assert forall|id: LunaEntityId| #[trigger] acc@.contains(id) <==> (start.contains(id) || exists|j: int| 0 <= j < k + 1 && #[trigger] region_hits(self.child(j).view(), x0 as int, y0 as int, x1 as int, y1 as int).contains(id)) by {
                    if region_hits(self.child(k as int).view(), x0 as int, y0 as int, x1 as int, y1 as int).contains(id) {
                        assert(acc@.contains(id));
                    }
                }
            }
            k = k + 1;
        }
        proof {
            assert forall|id: LunaEntityId| acc@.contains(id) <==> (start.contains(id) || region_hits(self.view(), x0 as int, y0 as int, x1 as int, y1 as int).contains(id)) by {
                if region_hits(self.view(), x0 as int, y0 as int, x1 as int, y1 as int).contains(id) {
                    let j = choose|j: int| 0 <= j < 4 && #[trigger] self.child(j).view().contains_key(id);
                    assert(region_hits(self.child(j).view(), x0 as int, y0 as int, x1 as int, y1 as int).contains(id));
                }
                if acc@.contains(id) && !start.contains(id) {
                    let j = choose|j: int| 0 <= j < 4 && #[trigger] region_hits(self.child(j).view(), x0 as int, y0 as int, x1 as int, y1 as int).contains(id);
                    assert(self.child(j).view().contains_key(id));
                }
            }
        }
    }
}

impl QuadNode {
    /// Appends to `acc` the entities of this subtree whose box meets the rectangle: every
    /// entry kept here is tested, and quadrants only where their bounds meet it.
    fn collect(&self, x0: i128, y0: i128, x1: i128, y1: i128, acc: &mut Vec<LunaEntityId>)
        requires
            self.well_formed(),
            old(acc)@.no_duplicates(),
            forall|id: LunaEntityId| old(acc)@.contains(id) ==> !self.view().contains_key(id),
        ensures
            final(acc)@.no_duplicates(),
            forall|id: LunaEntityId| final(acc)@.contains(id) <==> (old(acc)@.contains(id) || region_hits(self.view(), x0 as int, y0 as int, x1 as int, y1 as int).contains(id)),
        decreases self,
    {
        let ghost start = acc@;
        let ghost own = entries_view(self.entries@);
        proof {
            assert forall|id: LunaEntityId| own.contains_key(id) implies self.view().contains_key(id) && self.view()[id] == own[id] by {
                if let Some(q) = self.quadrants {
                    assert(own.dom().disjoint(q.view().dom()));
                }
            }
        }
        let mut i: usize = 0;
        while i < self.entries.len()
            invariant
                i <= self.entries.len(),
                self.well_formed(),
                own == entries_view(self.entries@),
                acc@.no_duplicates(),
                forall|id: LunaEntityId| start.contains(id) ==> !self.view().contains_key(id),
                forall|id: LunaEntityId| own.contains_key(id) ==> self.view().contains_key(id) && self.view()[id] == own[id],
                forall|id: LunaEntityId| #[trigger] acc@.contains(id) <==> (start.contains(id) || exists|j: int| 0 <= j < i && #[trigger] self.entries@[j].0 == id && box_overlaps_rect(self.entries@[j].1, x0 as int, y0 as int, x1 as int, y1 as int)),
            decreases self.entries.len() - i,
        {
            let e = self.entries[i];
            let ghost before = acc@;
            let hit = overlaps_wide(&e.1, x0, y0, x1, y1);
            if hit {
                proof {
                    lemma_entry_lookup(self.entries@, i as int);
                    if acc@.contains(e.0) {
                        if !start.contains(e.0) {
                            let j = choose|j: int| 0 <= j < i && #[trigger] self.entries@[j].0 == e.0 && box_overlaps_rect(self.entries@[j].1, x0 as int, y0 as int, x1 as int, y1 as int);
                            assert(self.entries@[j].0 == self.entries@[i as int].0);
                        }
                    }
                }
                acc.push(e.0);
            }
            proof {
                assert forall|id: LunaEntityId| #[trigger] acc@.contains(id) <==> (start.contains(id) || exists|j: int| 0 <= j < i + 1 && #[trigger] self.entries@[j].0 == id && box_overlaps_rect(self.entries@[j].1, x0 as int, y0 as int, x1 as int, y1 as int)) by {
                    let found_before = exists|j: int| 0 <= j < i && #[trigger] self.entries@[j].0 == id && box_overlaps_rect(self.entries@[j].1, x0 as int, y0 as int, x1 as int, y1 as int);
                    let found_now = exists|j: int| 0 <= j < i + 1 && #[trigger] self.entries@[j].0 == id && box_overlaps_rect(self.entries@[j].1, x0 as int, y0 as int, x1 as int, y1 as int);
                    if found_now {
                        let j = choose|j: int| 0 <= j < i + 1 && #[trigger] self.entries@[j].0 == id && box_overlaps_rect(self.entries@[j].1, x0 as int, y0 as int, x1 as int, y1 as int);
                        if j == i {
                            assert(hit && id == e.0);
                        } else {
                            assert(found_before);
                        }
                    }
                    if found_before {
                        let j = choose|j: int| 0 <= j < i && #[trigger] self.entries@[j].0 == id && box_overlaps_rect(self.entries@[j].1, x0 as int, y0 as int, x1 as int, y1 as int);
                        assert(found_now);
                    }
                    if hit && id == e.0 {
                        assert(self.entries@[i as int].0 == id);
                        assert(found_now);
                    }
                    if hit {
                        assert(acc@ == before.push(e.0));
                        if before.contains(id) {
                            let k = choose|k: int| 0 <= k < before.len() && before[k] == id;
                            assert(acc@[k] == id);
                        }
                        if acc@.contains(id) && id != e.0 {
                            let k = choose|k: int| 0 <= k < acc@.len() && acc@[k] == id;
                            assert(before[k] == id);
                        }
                        assert(acc@[before.len() as int] == e.0);
                    }
                }
            }
            i = i + 1;
        }
        proof {
            assert forall|id: LunaEntityId| #[trigger] acc@.contains(id) <==> (start.contains(id) || region_hits(own, x0 as int, y0 as int, x1 as int, y1 as int).contains(id)) by {
                if region_hits(own, x0 as int, y0 as int, x1 as int, y1 as int).contains(id) {
                    let j = choose|j: int| 0 <= j < self.entries@.len() && #[trigger] self.entries@[j].0 == id;
                    lemma_entry_lookup(self.entries@, j);
                }
                if acc@.contains(id) && !start.contains(id) {
                    let j = choose|j: int| 0 <= j < self.entries@.len() && #[trigger] self.entries@[j].0 == id && box_overlaps_rect(self.entries@[j].1, x0 as int, y0 as int, x1 as int, y1 as int);
                    lemma_entry_lookup(self.entries@, j);
                }
            }
        }
        match &self.quadrants {
            None => {
                assert(region_hits(own, x0 as int, y0 as int, x1 as int, y1 as int) =~= region_hits(self.view(), x0 as int, y0 as int, x1 as int, y1 as int));
            },
            Some(q) => {
                proof {
                    assert(own.dom().disjoint(q.view().dom()));
                    assert forall|id: LunaEntityId| acc@.contains(id) implies !q.view().contains_key(id) by {
                        if start.contains(id) {
                            assert(self.view().contains_key(id) || !q.view().contains_key(id));
                        }
                    }
                }
                q.collect(x0, y0, x1, y1, acc);
                proof {
                    assert forall|id: LunaEntityId| acc@.contains(id) <==> (start.contains(id) || region_hits(self.view(), x0 as int, y0 as int, x1 as int, y1 as int).contains(id)) by {
                        if q.view().contains_key(id) {
                            assert(self.view()[id] == q.view()[id]);
                        }
                    }
                }
            },
        }
    }
}

impl Quadrants {
    /// Takes `id` out of all four quadrants.
    fn remove(&mut self, id: LunaEntityId)
        requires
            old(self).well_formed(),
        ensures
            final(self).well_formed(),
            final(self).view() == old(self).view().remove(id),
            forall|k: int| 0 <= k < 4 ==> (#[trigger] final(self).child(k)).bounds == old(self).child(k).bounds && final(self).child(k).depth == old(self).child(k).depth,
        decreases *old(self),
    {
        self.nw.remove(id);
        self.ne.remove(id);
        self.sw.remove(id);
        self.se.remove(id);
        proof {
            let o = *old(self);
            assert forall|k: int| 0 <= k < 4 implies all_within(#[trigger] self.child(k).view(), self.child(k).bounds) by {
                assert(all_within(o.child(k).view(), o.child(k).bounds));
                assert(self.child(k).view() == o.child(k).view().remove(id));
            }
            assert forall|j: int, k: int| 0 <= j < 4 && 0 <= k < 4 && j != k implies #[trigger] self.child(j).view().dom().disjoint(#[trigger] self.child(k).view().dom()) by {
                assert(o.child(j).view().dom().disjoint(o.child(k).view().dom()));
                assert(self.child(j).view() == o.child(j).view().remove(id));
                assert(self.child(k).view() == o.child(k).view().remove(id));
            }
            assert forall|k: int| 0 <= k < 4 implies #[trigger] self.child(k).depth == self.nw.depth by {
                assert(o.child(k).depth == o.nw.depth);
            }
            assert(self.view() =~= o.view().remove(id));
        }
    }
}

impl QuadNode {
    /// Takes `id` out of this subtree.
    fn remove(&mut self, id: LunaEntityId)
        requires
            old(self).well_formed(),
        ensures
            final(self).well_formed(),
            final(self).view() == old(self).view().remove(id),
            final(self).bounds == old(self).bounds,
            final(self).depth == old(self).depth,
        decreases *old(self),
    {
        let mut i: usize = 0;
        while i < self.entries.len() && self.entries[i].0 != id
            invariant
                i <= self.entries.len(),
                forall|j: int| 0 <= j < i ==> self.entries@[j].0 != id,
            decreases self.entries.len() - i,
        {
            i = i + 1;
        }
        let ghost own = entries_view(self.entries@);
        if i < self.entries.len() {
            proof {
                lemma_entries_remove(self.entries@, i as int);
            }
            let ghost before = self.entries@;
            self.entries.remove(i);
            let ghost gq = self.quadrants;
            proof {
                assert forall|a: int| 0 <= a < self.entries@.len() implies #[trigger] self.entries@[a] == before[if a < i { a } else { a + 1 }] by {}
                match gq {
                    None => {
                        assert(self.view() =~= old(self).view().remove(id));
                    },
                    Some(q) => {
                        assert(own.dom().disjoint(q.view().dom()));
                        assert(!q.view().contains_key(id)) by {
                            lemma_entry_lookup(before, i as int);
                        }
                        assert(self.view() =~= old(self).view().remove(id));
                        assert forall|a: int, k: int| 0 <= a < self.entries@.len() && 0 <= k < 4 implies !box_within(#[trigger] self.entries@[a].1, #[trigger] q.child(k).bounds) by {
                            let a2 = if a < i { a } else { a + 1 };
                            assert(self.entries@[a] == before[a2]);
                        }
                    },
                }
            }
            return;
        }
        proof {
            assert(!own.contains_key(id));
        }
        match self.quadrants.take() {
            None => {
                assert(self.view() =~= old(self).view().remove(id));
            },
            Some(q) => {
                let mut q = q;
                (&mut *q).remove(id);
                self.quadrants = Some(q);
                proof {
                    let oq = old(self).quadrants.unwrap();
                    assert(self.view() =~= old(self).view().remove(id));
                    assert(q.child(0).depth == oq.child(0).depth);
                    assert(entries_view(self.entries@).dom().disjoint(q.view().dom()));
                    assert forall|a: int, k: int| 0 <= a < self.entries@.len() && 0 <= k < 4 implies !box_within(#[trigger] self.entries@[a].1, #[trigger] q.child(k).bounds) by {
                        assert(q.child(k).bounds == oq.child(k).bounds);
                    }
                }
            },
        }
    }
}

/// The middle of `lo..=hi`, rounded down; `lo` itself where the range is empty.
fn midpoint(lo: i64, hi: i64) -> (m: i64)
    ensures
        lo <= hi ==> lo <= m <= hi,
        lo > hi ==> m == lo,
{
    if lo < hi {
        let d: i128 = hi as i128 - lo as i128;
        let h: i128 = d / 2;
        assert(0 <= h <= d);
        (lo as i128 + h) as i64
    } else {
        lo
    }
}

impl QuadNode {
    /// An empty leaf.
    fn leaf(bounds: BoundingBox, depth: usize) -> (r: QuadNode)
        requires
            depth <= MAX_DEPTH,
        ensures
            r.well_formed(),
            r.view() == Map::<LunaEntityId, BoundingBox>::empty(),
            r.bounds == bounds,
            r.depth == depth,
    {
        let r = QuadNode { bounds, depth, entries: Vec::new(), quadrants: None };
        assert(r.view() =~= Map::<LunaEntityId, BoundingBox>::empty());
        r
    }
}

impl Quadrants {
    /// Four empty leaves at `depth` covering the quarters of `bounds`, split at its middle.
    fn split(bounds: &BoundingBox, depth: usize) -> (q: Quadrants)
        requires
            depth <= MAX_DEPTH,
        ensures
            q.well_formed(),
            q.view() == Map::<LunaEntityId, BoundingBox>::empty(),
            q.nw.depth == depth,
    {
        let mx = midpoint(bounds.min.x, bounds.max.x);
        let my = midpoint(bounds.min.y, bounds.max.y);
        let q = Quadrants {
            nw: QuadNode::leaf(BoundingBox { min: bounds.min, max: Vector2D { x: mx, y: my } }, depth),
            ne: QuadNode::leaf(BoundingBox { min: Vector2D { x: mx, y: bounds.min.y }, max: Vector2D { x: bounds.max.x, y: my } }, depth),
            sw: QuadNode::leaf(BoundingBox { min: Vector2D { x: bounds.min.x, y: my }, max: Vector2D { x: mx, y: bounds.max.y } }, depth),
            se: QuadNode::leaf(BoundingBox { min: Vector2D { x: mx, y: my }, max: bounds.max }, depth),
        };
        assert(q.view() =~= Map::<LunaEntityId, BoundingBox>::empty());
        assert forall|k: int| 0 <= k < 4 implies all_within(#[trigger] q.child(k).view(), q.child(k).bounds) by {
            assert(q.child(k).view() == Map::<LunaEntityId, BoundingBox>::empty());
        }
        assert forall|j: int, k: int| 0 <= j < 4 && 0 <= k < 4 && j != k implies #[trigger] q.child(j).view().dom().disjoint(#[trigger] q.child(k).view().dom()) by {
            assert(q.child(j).view() == Map::<LunaEntityId, BoundingBox>::empty());
        }
        q
    }

    /// The first quadrant whose bounds hold all of `b`, or 4 where none does.
    fn fitting(&self, b: &BoundingBox) -> (k: usize)
        ensures
            k <= 4,
            k < 4 ==> box_within(*b, self.child(k as int).bounds),
            k == 4 ==> forall|j: int| 0 <= j < 4 ==> !box_within(*b, #[trigger] self.child(j).bounds),
    {
        let mut k: usize = 0;
        while k < 4
            invariant
                k <= 4,
                forall|j: int| 0 <= j < k ==> !box_within(*b, #[trigger] self.child(j).bounds),
            decreases 4 - k,
        {
            if b.is_within(&self.child_at(k).bounds) {
                return k;
            }
            k = k + 1;
        }
        k
    }

    /// Inserts `(id, b)` into quadrant `k`, which holds all of `b`.
    fn insert_at(&mut self, k: usize, id: LunaEntityId, b: BoundingBox)
        requires
            old(self).well_formed(),
            k < 4,
            box_within(b, old(self).child(k as int).bounds),
            !old(self).view().contains_key(id),
        ensures
            final(self).well_formed(),
            final(self).view() == old(self).view().insert(id, b),
            forall|j: int| 0 <= j < 4 ==> (#[trigger] final(self).child(j)).bounds == old(self).child(j).bounds && final(self).child(j).depth == old(self).child(j).depth,
        decreases MAX_DEPTH - old(self).nw.depth, 3int,
    {
        proof {
            lemma_quadrants_view(*old(self));
            assert(old(self).child(k as int).depth == old(self).nw.depth);
            assert(!old(self).child(k as int).view().contains_key(id));
        }
        if k == 0 {
            self.nw.insert(id, b);
        } else if k == 1 {
            self.ne.insert(id, b);
        } else if k == 2 {
            self.sw.insert(id, b);
        } else {
            self.se.insert(id, b);
        }
        proof {
            let o = *old(self);
            assert forall|j: int| 0 <= j < 4 && j != k implies #[trigger] self.child(j) == o.child(j) by {}
            assert(self.child(k as int).view() == o.child(k as int).view().insert(id, b));
            assert forall|j: int| 0 <= j < 4 implies all_within(#[trigger] self.child(j).view(), self.child(j).bounds) by {
                assert(all_within(o.child(j).view(), o.child(j).bounds));
            }
            assert forall|i: int, j: int| 0 <= i < 4 && 0 <= j < 4 && i != j implies #[trigger] self.child(i).view().dom().disjoint(#[trigger] self.child(j).view().dom()) by {
                assert(o.child(i).view().dom().disjoint(o.child(j).view().dom()));
                if i != k && o.child(i).view().contains_key(id) {
                    assert(o.view().contains_key(id));
                }
                if j != k && o.child(j).view().contains_key(id) {
                    assert(o.view().contains_key(id));
                }
            }
            assert forall|j: int| 0 <= j < 4 implies #[trigger] self.child(j).depth == self.nw.depth by {
                assert(o.child(j).depth == o.nw.depth);
            }
            assert(self.view() =~= o.view().insert(id, b));
        }
    }
}

impl QuadNode {
    /// Inserts `(id, b)`, `id` not yet being present: into the one quadrant that holds all
    /// of `b` where this node is subdivided and there is one, else at this node; a leaf
    /// that then holds more than its capacity subdivides.
    fn insert(&mut self, id: LunaEntityId, b: BoundingBox)
        requires
            old(self).well_formed(),
            !old(self).view().contains_key(id),
        ensures
            final(self).well_formed(),
            final(self).view() == old(self).view().insert(id, b),
            final(self).bounds == old(self).bounds,
            final(self).depth == old(self).depth,
        decreases MAX_DEPTH - old(self).depth, 2int,
    {
        let ghost own = entries_view(self.entries@);
        match self.quadrants.take() {
            Some(q) => {
                let mut q = q;
                let ghost oq = *q;
                proof {
                    assert(!own.contains_key(id));
                    assert(!oq.view().contains_key(id));
                }
                let k = q.fitting(&b);
                if k < 4 {
                    (&mut *q).insert_at(k, id, b);
                    proof {
                        assert(own.dom().disjoint(q.view().dom()));
                        assert(q.child(0).depth == oq.child(0).depth);
                        assert forall|a: int, j: int| 0 <= a < self.entries@.len() && 0 <= j < 4 implies !box_within(#[trigger] self.entries@[a].1, #[trigger] q.child(j).bounds) by {
                            assert(q.child(j).bounds == oq.child(j).bounds);
                        }
                    }
                } else {
                    let ghost before = self.entries@;
                    proof {
                        lemma_entries_push(before, (id, b));
                    }
                    self.entries.push((id, b));
                    proof {
                        assert forall|a: int, j: int| 0 <= a < self.entries@.len() && 0 <= j < 4 implies !box_within(#[trigger] self.entries@[a].1, #[trigger] q.child(j).bounds) by {
                            if a < before.len() {
                                assert(self.entries@[a] == before[a]);
                            }
                        }
                    }
                }
                self.quadrants = Some(q);
                proof {
                    assert(self.view() =~= old(self).view().insert(id, b));
                }
            },
            None => {
                proof {
                    lemma_entries_push(self.entries@, (id, b));
                }
                self.entries.push((id, b));
                if self.entries.len() > NODE_CAPACITY && self.depth < MAX_DEPTH {
                    self.subdivide();
                }
            },
        }
    }

    /// Turns a leaf into a subdivided node: each entry that fits in a quadrant moves down
    /// into the first such quadrant, the others stay here.
    fn subdivide(&mut self)
        requires
            old(self).well_formed(),
            old(self).quadrants is None,
            old(self).depth < MAX_DEPTH,
        ensures
            final(self).well_formed(),
            final(self).view() == old(self).view(),
            final(self).bounds == old(self).bounds,
            final(self).depth == old(self).depth,
        decreases MAX_DEPTH - old(self).depth, 1int,
    {
        let mut q = Quadrants::split(&self.bounds, self.depth + 1);
        let ghost q0 = q;
        let mut pending: Vec<Entry> = Vec::new();
        std::mem::swap(&mut pending, &mut self.entries);
        let mut keep: Vec<Entry> = Vec::new();
        let mut i: usize = 0;
        proof {
            assert(pending@.take(0) =~= Seq::<Entry>::empty());
            assert(entries_view(keep@).union_prefer_right(q.view()) =~= entries_view(pending@.take(0)));
        }
        while i < pending.len()
            invariant
                i <= pending.len(),
                q.well_formed(),
                q.nw.depth == q0.nw.depth,
                q0.nw.depth == self.depth + 1,
                self.depth == old(self).depth,
                self.depth < MAX_DEPTH,
                forall|k: int| 0 <= k < 4 ==> (#[trigger] q.child(k)).bounds == q0.child(k).bounds,
                distinct_ids(pending@),
                distinct_ids(keep@),
                entries_view(keep@).dom().disjoint(q.view().dom()),
                entries_view(keep@).union_prefer_right(q.view()) == entries_view(pending@.take(i as int)),
                forall|a: int, k: int| 0 <= a < keep@.len() && 0 <= k < 4 ==> !box_within(#[trigger] keep@[a].1, #[trigger] q.child(k).bounds),
            decreases pending.len() - i,
        {
            let e = pending[i];
            let ghost seen = pending@.take(i as int);
            proof {
                assert(pending@.take(i as int + 1) =~= seen.push(e));
                assert(distinct_ids(seen));
                assert(!entries_view(seen).contains_key(e.0)) by {
                    if entries_view(seen).contains_key(e.0) {
                        let j = choose|j: int| 0 <= j < seen.len() && #[trigger] seen[j].0 == e.0;
                        assert(pending@[j].0 == pending@[i as int].0);
                    }
                }
                lemma_entries_push(seen, e);
            }
            let k = q.fitting(&e.1);
            let ghost qb = q;
            let ghost kb = keep@;
            if k < 4 {
                q.insert_at(k, e.0, e.1);
                proof {
                    assert(q.child(0).depth == qb.child(0).depth);
                    assert forall|a: int, j: int| 0 <= a < keep@.len() && 0 <= j < 4 implies !box_within(#[trigger] keep@[a].1, #[trigger] q.child(j).bounds) by {
                        assert(q.child(j).bounds == qb.child(j).bounds);
                    }
                    assert(entries_view(keep@).union_prefer_right(q.view()) =~= entries_view(seen.push(e)));
                }
            } else {
                proof {
                    lemma_entries_push(kb, e);
                }
                keep.push(e);
                proof {
                    assert forall|a: int, j: int| 0 <= a < keep@.len() && 0 <= j < 4 implies !box_within(#[trigger] keep@[a].1, #[trigger] q.child(j).bounds) by {
                        if a < kb.len() {
                            assert(keep@[a] == kb[a]);
                        }
                    }
                    assert(entries_view(keep@).union_prefer_right(q.view()) =~= entries_view(seen.push(e)));
                }
            }
            i = i + 1;
        }
        proof {
            assert(pending@.take(pending@.len() as int) =~= pending@);
        }
        self.entries = keep;
        self.quadrants = Some(Box::new(q));
    }
}

/// The rectangle with corner `(x, y)` and the given width and height.
pub open spec fn rect_of(x: i64, y: i64, width: i64, height: i64) -> BoundingBox {
    BoundingBox {
        min: Vector2D { x, y },
        max: Vector2D { x: (x + width) as i64, y: (y + height) as i64 },
    }
}

/// A spatial index of entity boxes over a fixed region. Leaves subdivide into four
/// quadrants once they hold more than `NODE_CAPACITY` entries; an entry moves into a
/// quadrant only where it fits entirely, so each entity is stored exactly once. Boxes
/// reaching outside the region are kept at the root, where every query still tests them.
pub struct QuadTree {
    root: QuadNode,
    region: BoundingBox,
}

impl View for QuadTree {
    type V = Map<LunaEntityId, BoundingBox>;

    /// The box stored for each indexed entity.
    closed spec fn view(&self) -> Map<LunaEntityId, BoundingBox> {
        self.root.view()
    }
}

impl QuadTree {
    /// The region the index was made for.
    pub closed spec fn region_box(&self) -> BoundingBox {
        self.region
    }

    pub closed spec fn well_formed(&self) -> bool {
        &&& self.root.well_formed()
        &&& self.root.bounds == self.region
        &&& self.root.depth == 0
    }

    /// An empty index over the rectangle with corner `(x, y)` and the given size.
    pub fn new(x: i64, y: i64, width: i64, height: i64) -> (r: QuadTree)
        requires
            width >= 0,
            height >= 0,
            x + width <= i64::MAX,
            y + height <= i64::MAX,
        ensures
            r.well_formed(),
            r@ == Map::<LunaEntityId, BoundingBox>::empty(),
            r.region_box() == rect_of(x, y, width, height),
    {
        let region = BoundingBox { min: Vector2D { x, y }, max: Vector2D { x: x + width, y: y + height } };
        QuadTree { root: QuadNode::leaf(region, 0), region }
    }

    /// The region the index was made for.
    pub fn region(&self) -> (r: BoundingBox)
        ensures
            r == self.region_box(),
    {
        self.region
    }

    /// Stores `bbox` for `entity`, replacing any box stored for it before. Returns whether
    /// the box lies inside the index's region; one that does not is still stored and
    /// found by queries, but cannot be sorted into quadrants.
    pub fn insert(&mut self, entity: LunaEntityId, bbox: BoundingBox) -> (inside: bool)
        requires
            old(self).well_formed(),
        ensures
            final(self).well_formed(),
            final(self)@ == old(self)@.insert(entity, bbox),
            final(self).region_box() == old(self).region_box(),
            inside == box_within(bbox, old(self).region_box()),
    {
        self.root.remove(entity);
        self.root.insert(entity, bbox);
        proof {
            assert(self.root.view() =~= old(self)@.insert(entity, bbox));
        }
        bbox.is_within(&self.region)
    }

    /// Forgets the box stored for `entity`, if any.
    pub fn remove(&mut self, entity: LunaEntityId)
        requires
            old(self).well_formed(),
        ensures
            final(self).well_formed(),
            final(self)@ == old(self)@.remove(entity),
            final(self).region_box() == old(self).region_box(),
    {
        self.root.remove(entity);
    }

    /// The entities whose box contains the point `(x, y)`, each once.
    pub fn query_point(&self, x: i64, y: i64) -> (r: Vec<LunaEntityId>)
        requires
            self.well_formed(),
        ensures
            r@.no_duplicates(),
            forall|id: LunaEntityId| r@.contains(id) <==> point_hits(self@, x as int, y as int).contains(id),
    {
        let mut acc: Vec<LunaEntityId> = Vec::new();
        self.root.collect(x as i128, y as i128, x as i128, y as i128, &mut acc);
        proof {
            assert(point_hits(self@, x as int, y as int) =~= region_hits(self@, x as int, y as int, x as int, y as int));
        }
        acc
    }

    /// The entities whose box meets the rectangle with corner `(x, y)` and the given
    /// size, each once; touching edges count.
    pub fn query_region(&self, x: i64, y: i64, width: i64, height: i64) -> (r: Vec<LunaEntityId>)
        requires
            self.well_formed(),
        ensures
            r@.no_duplicates(),
            forall|id: LunaEntityId| r@.contains(id) <==> region_hits(self@, x as int, y as int, x + width, y + height).contains(id),
    {
        let mut acc: Vec<LunaEntityId> = Vec::new();
        self.root.collect(x as i128, y as i128, x as i128 + width as i128, y as i128 + height as i128, &mut acc);
        acc
    }

    /// Drops every entry and node, leaving an empty index over the same region.
    pub fn clear(&mut self)
        requires
            old(self).well_formed(),
        ensures
            final(self).well_formed(),
            final(self)@ == Map::<LunaEntityId, BoundingBox>::empty(),
            final(self).region_box() == old(self).region_box(),
    {
        self.root = QuadNode::leaf(self.region, 0);
    }

    /// Drops every entry and node, leaving an empty index over a newly supplied region.
    pub fn reset(&mut self, x: i64, y: i64, width: i64, height: i64)
        requires
            width >= 0,
            height >= 0,
            x + width <= i64::MAX,
            y + height <= i64::MAX,
        ensures
            final(self).well_formed(),
            final(self)@ == Map::<LunaEntityId, BoundingBox>::empty(),
            final(self).region_box() == rect_of(x, y, width, height),
    {
        *self = QuadTree::new(x, y, width, height);
    }
}

/// Inserting the same entity with the same box a second time changes nothing: the index,
/// and so every point and region query, is as after the first insertion.
pub proof fn lemma_insert_twice_same_as_once(
    m: Map<LunaEntityId, BoundingBox>,
    id: LunaEntityId,
    b: BoundingBox,
    x: int,
    y: int,
    x0: int,
    y0: int,
    x1: int,
    y1: int,
)
    ensures
        m.insert(id, b).insert(id, b) == m.insert(id, b),
        point_hits(m.insert(id, b).insert(id, b), x, y) == point_hits(m.insert(id, b), x, y),
        region_hits(m.insert(id, b).insert(id, b), x0, y0, x1, y1) == region_hits(m.insert(id, b), x0, y0, x1, y1),
{
    assert(m.insert(id, b).insert(id, b) =~= m.insert(id, b));
}

/// An emptied index finds nothing, at any point or in any region.
pub proof fn lemma_cleared_index_finds_nothing(x: int, y: int, x0: int, y0: int, x1: int, y1: int)
    ensures
        point_hits(Map::<LunaEntityId, BoundingBox>::empty(), x, y) == Set::<LunaEntityId>::empty(),
        region_hits(Map::<LunaEntityId, BoundingBox>::empty(), x0, y0, x1, y1) == Set::<LunaEntityId>::empty(),
{
    assert(point_hits(Map::<LunaEntityId, BoundingBox>::empty(), x, y) =~= Set::<LunaEntityId>::empty());
    assert(region_hits(Map::<LunaEntityId, BoundingBox>::empty(), x0, y0, x1, y1) =~= Set::<LunaEntityId>::empty());
}

} // verus!
