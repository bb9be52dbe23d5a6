use vstd::prelude::*;
use std::collections::HashMap;

use crate::entity::LunaEntityId;

verus! {

broadcast use vstd::std_specs::hash::group_hash_axioms;

/// Following parents from `e`, a root (an entity without a parent) is reached within `n`
/// steps.
pub open spec fn rooted(parents: Map<u64, u64>, e: u64, n: nat) -> bool
    decreases n,
{
    !parents.contains_key(e) || (n > 0 && rooted(parents, parents[e], (n - 1) as nat))
}

/// Following parents from `e` reaches a root at all.
pub open spec fn has_root(parents: Map<u64, u64>, e: u64) -> bool {
    exists|n: nat| rooted(parents, e, n)
}

/// The parent relation is a forest: no entity is its own ancestor.
pub open spec fn is_forest(parents: Map<u64, u64>) -> bool {
    forall|e: u64| #[trigger] has_root(parents, e)
}

/// The first `n` ancestors of `e`, innermost first (fewer where a root comes sooner).
pub open spec fn chain_upto(parents: Map<u64, u64>, e: u64, n: nat) -> Seq<u64>
    decreases n,
{
    if n == 0 || !parents.contains_key(e) {
        Seq::empty()
    } else {
        seq![parents[e]] + chain_upto(parents, parents[e], (n - 1) as nat)
    }
}

/// All ancestors of `e`, innermost first, up to its root.
pub open spec fn ancestors(parents: Map<u64, u64>, e: u64) -> Seq<u64> {
    chain_upto(parents, e, choose|n: nat| rooted(parents, e, n))
}

/// Nesting depth of `e`: the number of its ancestors.
pub open spec fn depth(parents: Map<u64, u64>, e: u64) -> nat {
    ancestors(parents, e).len()
}

/// `d` is `a` itself or lies below `a`.
pub open spec fn is_self_or_descendant(parents: Map<u64, u64>, d: u64, a: u64) -> bool {
    d == a || ancestors(parents, d).contains(a)
}

/// The entities whose parent is `p`.
pub open spec fn children_of(parents: Map<u64, u64>, p: u64) -> Set<u64> {
    Set::new(|c: u64| parents.contains_key(c) && parents[c] == p)
}

/// The parent relation after `e` is removed: `e` loses its parent and its children
/// become roots.
pub open spec fn without_entity(parents: Map<u64, u64>, e: u64) -> Map<u64, u64> {
    Map::new(|c: u64| parents.contains_key(c) && c != e && parents[c] != e, |c: u64| parents[c])
}

/// Handles for a sequence of handle numbers.
pub open spec fn ids_of(s: Seq<u64>) -> Seq<LunaEntityId> {
    s.map_values(|x: u64| LunaEntityId(x))
}

pub proof fn lemma_rooted_more_fuel(parents: Map<u64, u64>, e: u64, n: nat, m: nat)
    requires
        rooted(parents, e, n),
        n <= m,
    ensures
        rooted(parents, e, m),
    decreases n,
{
    if parents.contains_key(e) {
        lemma_rooted_more_fuel(parents, parents[e], (n - 1) as nat, (m - 1) as nat);
    }
}

/// Any fuel that reaches the root gives the same chain.
pub proof fn lemma_chain_stable(parents: Map<u64, u64>, e: u64, n: nat, m: nat)
    requires
        rooted(parents, e, n),
        rooted(parents, e, m),
    ensures
        chain_upto(parents, e, n) == chain_upto(parents, e, m),
    decreases n,
{
    if parents.contains_key(e) {
        lemma_chain_stable(parents, parents[e], (n - 1) as nat, (m - 1) as nat);
    }
}

pub proof fn lemma_ancestors_by_fuel(parents: Map<u64, u64>, e: u64, n: nat)
    requires
        rooted(parents, e, n),
    ensures
        ancestors(parents, e) == chain_upto(parents, e, n),
{
    let k = choose|k: nat| rooted(parents, e, k);
    lemma_chain_stable(parents, e, n, k);
}

/// The ancestors of an entity with a parent are that parent and the parent's ancestors.
pub proof fn lemma_ancestors_unfold(parents: Map<u64, u64>, e: u64)
    requires
        is_forest(parents),
    ensures
        parents.contains_key(e) ==> ancestors(parents, e) == seq![parents[e]] + ancestors(parents, parents[e]),
        !parents.contains_key(e) ==> ancestors(parents, e) == Seq::<u64>::empty(),
{
    assert(has_root(parents, e));
    let n = choose|n: nat| rooted(parents, e, n);
    lemma_ancestors_by_fuel(parents, e, n);
    if parents.contains_key(e) {
        lemma_ancestors_by_fuel(parents, parents[e], (n - 1) as nat);
    }
}

/// In a forest no entity is its own parent.
pub proof fn lemma_not_own_parent(parents: Map<u64, u64>, e: u64)
    requires
        is_forest(parents),
    ensures
        parents.contains_key(e) ==> parents[e] != e,
{
    assert(has_root(parents, e));
    let n = choose|n: nat| rooted(parents, e, n);
    if parents.contains_key(e) && parents[e] == e {
        lemma_self_loop_unrooted(parents, e, n);
    }
}

proof fn lemma_self_loop_unrooted(parents: Map<u64, u64>, e: u64, n: nat)
    requires
        parents.contains_key(e),
        parents[e] == e,
    ensures
        !rooted(parents, e, n),
    decreases n,
{
    if n > 0 {
        lemma_self_loop_unrooted(parents, e, (n - 1) as nat);
    }
}

/// Removing edges keeps every chain finite.
proof fn lemma_rooted_in_submap(parents: Map<u64, u64>, smaller: Map<u64, u64>, e: u64, n: nat)
    requires
        rooted(parents, e, n),
        forall|x: u64| #[trigger] smaller.contains_key(x) ==> parents.contains_key(x) && smaller[x] == parents[x],
    ensures
        rooted(smaller, e, n),
    decreases n,
{
    if smaller.contains_key(e) {
        lemma_rooted_in_submap(parents, smaller, parents[e], (n - 1) as nat);
    }
}

proof fn lemma_forest_submap(parents: Map<u64, u64>, smaller: Map<u64, u64>)
    requires
        is_forest(parents),
        forall|x: u64| #[trigger] smaller.contains_key(x) ==> parents.contains_key(x) && smaller[x] == parents[x],
    ensures
        is_forest(smaller),
{
    assert forall|e: u64| #[trigger] has_root(smaller, e) by {
        assert(has_root(parents, e));
        let n = choose|n: nat| rooted(parents, e, n);
        lemma_rooted_in_submap(parents, smaller, e, n);
    }
}

/// A chain that avoids `child` is the same after `child` gets a new parent.
proof fn lemma_rooted_avoiding(parents: Map<u64, u64>, child: u64, p: u64, x: u64, n: nat)
    requires
        rooted(parents, x, n),
        x != child,
        !chain_upto(parents, x, n).contains(child),
    ensures
        rooted(parents.insert(child, p), x, n),
    decreases n,
{
    if parents.contains_key(x) {
        let next = parents[x];
        let rest = chain_upto(parents, next, (n - 1) as nat);
        assert(chain_upto(parents, x, n) == seq![next] + rest);
        assert((seq![next] + rest)[0] == next);
        if rest.contains(child) {
            let i = choose|i: int| 0 <= i < rest.len() && rest[i] == child;
            assert((seq![next] + rest)[i + 1] == child);
        }
        lemma_rooted_avoiding(parents, child, p, next, (n - 1) as nat);
    }
}

proof fn lemma_rooted_through_new_edge(parents: Map<u64, u64>, child: u64, p: u64, e: u64, n: nat, np: nat)
    requires
        rooted(parents, e, n),
        rooted(parents.insert(child, p), p, np),
    ensures
        rooted(parents.insert(child, p), e, n + np + 1),
    decreases n,
{
    let m2 = parents.insert(child, p);
    if e == child {
        lemma_rooted_more_fuel(m2, p, np, n + np);
    } else if parents.contains_key(e) {
        lemma_rooted_through_new_edge(parents, child, p, parents[e], (n - 1) as nat, np);
    }
}

/// Giving `child` the parent `p` keeps the relation a forest when `p` is not `child` or
/// one of its descendants.
pub proof fn lemma_set_parent_keeps_forest(parents: Map<u64, u64>, child: u64, p: u64)
    requires
        is_forest(parents),
        !is_self_or_descendant(parents, p, child),
    ensures
        is_forest(parents.insert(child, p)),
{
    let m2 = parents.insert(child, p);
    assert(has_root(parents, p));
    let np = choose|n: nat| rooted(parents, p, n);
    lemma_ancestors_by_fuel(parents, p, np);
    lemma_rooted_avoiding(parents, child, p, p, np);
    assert forall|e: u64| #[trigger] has_root(m2, e) by {
        assert(has_root(parents, e));
        let n = choose|n: nat| rooted(parents, e, n);
        lemma_rooted_through_new_edge(parents, child, p, e, n, np);
    }
}

/// Whether `children` lists `c` under `p`.
pub open spec fn listed(children: Map<u64, Vec<LunaEntityId>>, p: u64, c: u64) -> bool {
    children.contains_key(p) && children[p]@.contains(LunaEntityId(c))
}

/// Parent and child edges of the entity forest.
pub struct HierarchyComponent {
    parents: HashMap<u64, u64>,
    children: HashMap<u64, Vec<LunaEntityId>>,
}

impl HierarchyComponent {
    /// The parent of each entity that has one, by handle number.
    pub closed spec fn parent_map(&self) -> Map<u64, u64> {
        self.parents@
    }

    /// The child lists agree with the parent map, hold each child once, and the parent
    /// relation is a forest.
    pub closed spec fn well_formed(&self) -> bool {
        &&& is_forest(self.parents@)
        &&& forall|p: u64, c: u64| #[trigger] listed(self.children@, p, c) <==> (self.parents@.contains_key(c) && self.parents@[c] == p)
        &&& forall|p: u64| #[trigger] self.children@.contains_key(p) ==> self.children@[p]@.no_duplicates()
    }

    /// A well-formed hierarchy is a forest.
    pub proof fn lemma_is_forest(&self)
        requires
            self.well_formed(),
        ensures
            is_forest(self.parent_map()),
    {
    }

    pub fn new() -> (r: HierarchyComponent)
        ensures
            r.well_formed(),
            r.parent_map() == Map::<u64, u64>::empty(),
    {
        let r = HierarchyComponent { parents: HashMap::new(), children: HashMap::new() };
        assert forall|e: u64| #[trigger] has_root(r.parents@, e) by {
            assert(rooted(r.parents@, e, 0));
        }
        r
    }

    /// The parent of `entity`, if it has one.
    pub fn get_parent(&self, entity: LunaEntityId) -> (r: Option<LunaEntityId>)
        ensures
            r == (if self.parent_map().contains_key(entity.0) {
                Some(LunaEntityId(self.parent_map()[entity.0]))
            } else {
                None
            }),
    {
        match self.parents.get(&entity.0) {
            Some(p) => Some(LunaEntityId(*p)),
            None => None,
        }
    }

    /// The children of `entity`, each once.
    pub fn get_children(&self, entity: LunaEntityId) -> (r: Vec<LunaEntityId>)
        requires
            self.well_formed(),
        ensures
            r@.no_duplicates(),
            forall|c: LunaEntityId| r@.contains(c) <==> children_of(self.parent_map(), entity.0).contains(c.0),
    {
        let mut r: Vec<LunaEntityId> = Vec::new();
        match self.children.get(&entity.0) {
            None => {
                assert forall|c: LunaEntityId| !children_of(self.parent_map(), entity.0).contains(c.0) by {
                    assert(!listed(self.children@, entity.0, c.0));
                }
            },
            Some(list) => {
                let mut i: usize = 0;
                while i < list.len()
                    invariant
                        i <= list.len(),
                        r@ == list@.take(i as int),
                    decreases list.len() - i,
                {
                    r.push(list[i]);
                    proof {
                        assert(list@.take(i as int).push(list@[i as int]) =~= list@.take(i as int + 1));
                    }
                    i = i + 1;
                }
                proof {
                    assert(list@.take(list@.len() as int) =~= list@);
                    assert forall|c: LunaEntityId| r@.contains(c) <==> children_of(self.parent_map(), entity.0).contains(c.0) by {
                        assert(LunaEntityId(c.0) == c);
                        assert(listed(self.children@, entity.0, c.0) == list@.contains(c));
                    }
                }
            },
        }
        r
    }

    /// The ancestors of `entity`, innermost first: its parent, that parent's parent, and
    /// so on up to a root. Its length is the depth of `entity`.
    pub fn get_parent_chain(&self, entity: LunaEntityId) -> (r: Vec<LunaEntityId>)
        requires
            self.well_formed(),
        ensures
            r@ == ids_of(ancestors(self.parent_map(), entity.0)),
    {
        let ghost m = self.parents@;
        proof {
            assert(has_root(m, entity.0));
        }
        let ghost n0 = choose|n: nat| rooted(m, entity.0, n);
        let mut r: Vec<LunaEntityId> = Vec::new();
        let mut cur: u64 = entity.0;
        let ghost mut fuel: nat = n0;
        proof {
            lemma_ancestors_by_fuel(m, entity.0, n0);
        }
        loop
            invariant
                m == self.parents@,
                rooted(m, cur, fuel),
                ids_of(ancestors(m, entity.0)) == r@ + ids_of(chain_upto(m, cur, fuel)),
            decreases fuel,
        {
            match self.parents.get(&cur) {
                None => {
                    proof {
                        assert(r@ + ids_of(chain_upto(m, cur, fuel)) =~= r@);
                    }
                    return r;
                },
                Some(p) => {
                    let p = *p;
                    proof {
                        let rest = chain_upto(m, p, (fuel - 1) as nat);
                        assert(chain_upto(m, cur, fuel) == seq![p] + rest);
                        assert(ids_of(seq![p] + rest) =~= seq![LunaEntityId(p)] + ids_of(rest));
                        assert(r@ + (seq![LunaEntityId(p)] + ids_of(rest)) =~= r@.push(LunaEntityId(p)) + ids_of(rest));
                    }
                    r.push(LunaEntityId(p));
                    cur = p;
                    proof {
                        fuel = (fuel - 1) as nat;
                    }
                },
            }
        }
    }

    /// Nesting depth of `entity`: the number of its ancestors.
    pub fn depth(&self, entity: LunaEntityId) -> (r: usize)
        requires
            self.well_formed(),
        ensures
            r == depth(self.parent_map(), entity.0),
    {
        let chain = self.get_parent_chain(entity);
        chain.len()
    }

    /// Whether `candidate` is `entity` itself or one of its descendants, found by walking
    /// the ancestors of `candidate`.
    pub fn is_self_or_descendant(&self, candidate: LunaEntityId, entity: LunaEntityId) -> (r: bool)
        requires
            self.well_formed(),
        ensures
            r == is_self_or_descendant(self.parent_map(), candidate.0, entity.0),
    {
        let ghost m = self.parents@;
        proof {
            assert(has_root(m, candidate.0));
        }
        let ghost n0 = choose|n: nat| rooted(m, candidate.0, n);
        proof {
            lemma_ancestors_by_fuel(m, candidate.0, n0);
        }
        let mut cur: u64 = candidate.0;
        let ghost mut fuel: nat = n0;
        loop
            invariant
                m == self.parents@,
                rooted(m, cur, fuel),
                is_self_or_descendant(m, candidate.0, entity.0) == (cur == entity.0 || chain_upto(m, cur, fuel).contains(entity.0)),
            decreases fuel,
        {
            if cur == entity.0 {
                return true;
            }
            match self.parents.get(&cur) {
                None => {
                    return false;
                },
                Some(p) => {
                    let p = *p;
                    proof {
                        let rest = chain_upto(m, p, (fuel - 1) as nat);
                        assert(chain_upto(m, cur, fuel) == seq![p] + rest);
                        assert((seq![p] + rest).contains(entity.0) == (p == entity.0 || rest.contains(entity.0))) by {
                            if rest.contains(entity.0) {
                                let i = choose|i: int| 0 <= i < rest.len() && rest[i] == entity.0;
                                assert((seq![p] + rest)[i + 1] == entity.0);
                            }
                            if p == entity.0 {
                                assert((seq![p] + rest)[0] == entity.0);
                            }
                        }
                    }
                    cur = p;
                    proof {
                        fuel = (fuel - 1) as nat;
                    }
                },
            }
        }
    }
    /// Takes `c` out of the child list of `p`.
    fn unlist_child(&mut self, p: u64, c: LunaEntityId)
        requires
            forall|q: u64| #[trigger] old(self).children@.contains_key(q) ==> old(self).children@[q]@.no_duplicates(),
        ensures
            final(self).parents@ == old(self).parents@,
            forall|q: u64, x: u64| #[trigger] listed(final(self).children@, q, x) <==> (listed(old(self).children@, q, x) && !(q == p && x == c.0)),
            forall|q: u64| #[trigger] final(self).children@.contains_key(q) ==> final(self).children@[q]@.no_duplicates(),
    {
        let ghost ch0 = self.children@;
        match self.children.remove(&p) {
            None => {
                assert forall|q: u64, x: u64| #[trigger] listed(self.children@, q, x) <==> (listed(ch0, q, x) && !(q == p && x == c.0)) by {
                    if q == p {
                        assert(!ch0.contains_key(p));
                    }
                }
            },
            Some(list) => {
                let mut list = list;
                let ghost before = list@;
                let mut i: usize = 0;
                while i < list.len() && list[i] != c
                    invariant
                        i <= list.len(),
                        list@ == before,
                        forall|j: int| 0 <= j < i ==> list@[j] != c,
                    decreases list.len() - i,
                {
                    i = i + 1;
                }
                if i < list.len() {
                    list.remove(i);
                    proof {
                        assert forall|x: LunaEntityId| list@.contains(x) <==> (before.contains(x) && x != c) by {
                            if list@.contains(x) {
                                let j = choose|j: int| 0 <= j < list@.len() && list@[j] == x;
                                if j < i {
                                    assert(before[j] == x);
                                } else {
                                    assert(before[j + 1] == x);
                                }
                            }
                            if before.contains(x) && x != c {
                                let k = choose|k: int| 0 <= k < before.len() && before[k] == x;
                                if k < i {
                                    assert(list@[k] == x);
                                } else {
                                    assert(list@[k - 1] == x);
                                }
                            }
                        }
                        assert forall|a: int, b: int| 0 <= a < list@.len() && 0 <= b < list@.len() && a != b implies list@[a] != list@[b] by {
                            let a2 = if a < i { a } else { a + 1 };
                            let b2 = if b < i { b } else { b + 1 };
                            assert(list@[a] == before[a2]);
                            assert(list@[b] == before[b2]);
                        }
                    }
                } else {
                    assert forall|x: LunaEntityId| list@.contains(x) <==> (before.contains(x) && x != c) by {
                        if x == c && before.contains(x) {
                            let k = choose|k: int| 0 <= k < before.len() && before[k] == x;
                            assert(list@[k] != c);
                        }
                    }
                }
                self.children.insert(p, list);
                assert forall|q: u64, x: u64| #[trigger] listed(self.children@, q, x) <==> (listed(ch0, q, x) && !(q == p && x == c.0)) by {
                    if q == p {
                        assert(LunaEntityId(x) == c <==> x == c.0);
                    }
                }
            },
        }
    }

    /// Adds `c` to the child list of `p`, where it is not yet.
    fn list_child(&mut self, p: u64, c: LunaEntityId)
        requires
            forall|q: u64| #[trigger] old(self).children@.contains_key(q) ==> old(self).children@[q]@.no_duplicates(),
            !listed(old(self).children@, p, c.0),
        ensures
            final(self).parents@ == old(self).parents@,
            forall|q: u64, x: u64| #[trigger] listed(final(self).children@, q, x) <==> (listed(old(self).children@, q, x) || (q == p && x == c.0)),
            forall|q: u64| #[trigger] final(self).children@.contains_key(q) ==> final(self).children@[q]@.no_duplicates(),
    {
        let ghost ch0 = self.children@;
        let mut list = match self.children.remove(&p) {
            Some(l) => l,
            None => Vec::new(),
        };
        let ghost before = list@;
        proof {
            assert(!before.contains(c));
        }
        list.push(c);
        proof {
            assert forall|x: LunaEntityId| list@.contains(x) <==> (before.contains(x) || x == c) by {
                if list@.contains(x) {
                    let j = choose|j: int| 0 <= j < list@.len() && list@[j] == x;
                    if j < before.len() {
                        assert(before[j] == x);
                    }
                }
                if before.contains(x) {
                    let k = choose|k: int| 0 <= k < before.len() && before[k] == x;
                    assert(list@[k] == x);
                }
                if x == c {
                    assert(list@[before.len() as int] == x);
                }
            }
        }
        self.children.insert(p, list);
        assert forall|q: u64, x: u64| #[trigger] listed(self.children@, q, x) <==> (listed(ch0, q, x) || (q == p && x == c.0)) by {
            if q == p {
                assert(LunaEntityId(x) == c <==> x == c.0);
            }
        }
    }

    /// Makes `parent` the parent of `child` (`None`: makes `child` a root), taking `child`
    /// out of its previous parent's children. Refused, with nothing changed, where
    /// `parent` is `child` itself or one of its descendants, as that would close a cycle.
    /// Returns whether the change was made.
    pub fn set_parent(&mut self, child: LunaEntityId, parent: Option<LunaEntityId>) -> (r: bool)
        requires
            old(self).well_formed(),
        ensures
            final(self).well_formed(),
            r == !(parent matches Some(p) && is_self_or_descendant(old(self).parent_map(), p.0, child.0)),
            r ==> final(self).parent_map() == (match parent {
                Some(p) => old(self).parent_map().insert(child.0, p.0),
                None => old(self).parent_map().remove(child.0),
            }),
            !r ==> final(self).parent_map() == old(self).parent_map(),
    {
        if let Some(p) = parent {
            if self.is_self_or_descendant(p, child) {
                return false;
            }
        }
        let ghost m0 = self.parents@;
        let ghost ch0 = self.children@;
        match self.parents.remove(&child.0) {
            Some(old_parent) => {
                self.unlist_child(old_parent, child);
            },
            None => {},
        }
        assert forall|q: u64, x: u64| #[trigger] listed(self.children@, q, x) <==> (self.parents@.contains_key(x) && self.parents@[x] == q) by {
            assert(listed(ch0, q, x) <==> (m0.contains_key(x) && m0[x] == q));
        }
        match parent {
            Some(p) => {
                self.parents.insert(child.0, p.0);
                self.list_child(p.0, child);
                proof {
                    assert(self.parents@ =~= m0.insert(child.0, p.0));
                    lemma_set_parent_keeps_forest(m0, child.0, p.0);
                }
            },
            None => {
                proof {
                    lemma_forest_submap(m0, self.parents@);
                }
            },
        }
        true
    }

    /// Removes `entity` from the hierarchy: it leaves its parent's children, and its own
    /// children become roots.
    pub fn remove(&mut self, entity: LunaEntityId)
        requires
            old(self).well_formed(),
        ensures
            final(self).well_formed(),
            final(self).parent_map() == without_entity(old(self).parent_map(), entity.0),
    {
        let ghost m0 = self.parents@;
        let ghost ch0 = self.children@;
        proof {
            lemma_not_own_parent(m0, entity.0);
        }
        match self.parents.remove(&entity.0) {
            Some(old_parent) => {
                self.unlist_child(old_parent, entity);
                proof {
                    assert(old_parent == m0[entity.0]);
                    assert forall|q: u64, x: u64| #[trigger] listed(self.children@, q, x) <==> (listed(ch0, q, x) && x != entity.0) by {
                        assert(listed(ch0, q, x) <==> (m0.contains_key(x) && m0[x] == q));
                    }
                }
            },
            None => {
                proof {
                    assert forall|q: u64, x: u64| #[trigger] listed(self.children@, q, x) <==> (listed(ch0, q, x) && x != entity.0) by {
                        assert(listed(ch0, q, x) <==> (m0.contains_key(x) && m0[x] == q));
                    }
                }
            },
        }
        let ghost m1 = self.parents@;
        let ghost ch1 = self.children@;
        let kids = match self.children.remove(&entity.0) {
            Some(v) => v,
            None => Vec::new(),
        };
        proof {
            assert forall|c: u64| kids@.contains(LunaEntityId(c)) <==> (m0.contains_key(c) && m0[c] == entity.0) by {
                assert(listed(ch0, entity.0, c) <==> (m0.contains_key(c) && m0[c] == entity.0));
                assert(listed(ch1, entity.0, c) <==> (listed(ch0, entity.0, c) && c != entity.0));
            }
        }
        let mut i: usize = 0;
        while i < kids.len()
            invariant
                i <= kids.len(),
                forall|c: u64| #[trigger] self.parents@.contains_key(c) <==> (m1.contains_key(c) && !kids@.take(i as int).contains(LunaEntityId(c))),
                forall|c: u64| #[trigger] self.parents@.contains_key(c) ==> self.parents@[c] == m1[c],
                self.children@ == ch1.remove(entity.0),
            decreases kids.len() - i,
        {
            let k = kids[i];
            self.parents.remove(&k.0);
            proof {
                assert(kids@.take(i as int + 1) =~= kids@.take(i as int).push(k));
                assert forall|c: u64| #[trigger] self.parents@.contains_key(c) <==> (m1.contains_key(c) && !kids@.take(i as int + 1).contains(LunaEntityId(c))) by {
                    let t0 = kids@.take(i as int);
                    let t1 = kids@.take(i as int + 1);
                    assert(LunaEntityId(c) == k <==> c == k.0);
                    assert(t1[i as int] == k);
                    if t0.contains(LunaEntityId(c)) {
                        let j = choose|j: int| 0 <= j < t0.len() && t0[j] == LunaEntityId(c);
                        assert(t1[j] == LunaEntityId(c));
                    }
                    if t1.contains(LunaEntityId(c)) {
                        let j = choose|j: int| 0 <= j < t1.len() && t1[j] == LunaEntityId(c);
                        if j < i {
                            assert(t0[j] == LunaEntityId(c));
                        }
                    }
                }
            }
            i = i + 1;
        }
        proof {
            assert(kids@.take(kids@.len() as int) =~= kids@);
            assert(self.parents@ =~= without_entity(m0, entity.0));
            lemma_forest_submap(m0, self.parents@);
            assert forall|q: u64, x: u64| #[trigger] listed(self.children@, q, x) <==> (self.parents@.contains_key(x) && self.parents@[x] == q) by {
                assert(listed(ch0, q, x) <==> (m0.contains_key(x) && m0[x] == q));
                assert(listed(ch1, q, x) <==> (listed(ch0, q, x) && x != entity.0));
                if q != entity.0 {
                    assert(listed(self.children@, q, x) == listed(ch1, q, x));
                }
            }
        }
    }
}

} // verus!
