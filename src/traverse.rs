//! Closest-hit traversal of a bounding-volume hierarchy, as a machine that
//! says which box or object to test next and takes the outcome.
//!
//! The caller pops a child with `next`. For a branch it tests the branch's
//! box against the ray below `bound()` and calls `enter` when the box is
//! met; for an object it tests the object below `bound()` and hands a hit to
//! `offer`. When `next` returns `None`, `result` is the closest hit.
use vstd::prelude::*;
use crate::aabb::Aabb;
use crate::bvh::{BvhBranch, BvhChild, BvhNode, branches_wf, child_ok, indices_below, objects_below};
use crate::closest::{hit_below, is_closest};

verus! {

/// The objects below a child.
pub open spec fn child_objects(branches: Seq<BvhBranch>, c: BvhChild) -> Set<usize> {
    match c {
        BvhChild::Object(o) => set![o],
        BvhChild::Branch(b) => objects_below(branches, b as nat),
    }
}

/// The objects below the children still to visit.
pub open spec fn pending_objects(branches: Seq<BvhBranch>, pending: Seq<BvhChild>) -> Set<usize>
    decreases pending.len(),
{
    if pending.len() == 0 {
        Set::empty()
    } else {
        pending_objects(branches, pending.drop_last()) + child_objects(branches, pending.last())
    }
}

/// The upper end of the search interval: the closest hit so far, else `t_max`.
pub open spec fn bound_of(best: Option<(usize, u64)>, t_max: u64) -> u64 {
    match best {
        Some((_, t)) => t,
        None => t_max,
    }
}

/// The best hit after visiting object `k`, whose hit distance is `hits[k]`.
pub open spec fn after_object(hits: Seq<Option<u64>>, k: int, best: Option<(usize, u64)>, t_max: u64) -> Option<(usize, u64)> {
    match hits[k] {
        Some(t) => if t < bound_of(best, t_max) {
            Some((k as usize, t))
        } else {
            best
        },
        None => best,
    }
}

/// What holds at every step of a traversal in which `hits[o]` is the hit
/// distance of object `o`: the children to visit are in the hierarchy, the
/// best hit is a hit below `t_max`, and no object that lies below none of
/// the children to visit has a hit below the current bound.
pub open spec fn traversal_inv(
    boxes: Seq<Aabb>,
    branches: Seq<BvhBranch>,
    hits: Seq<Option<u64>>,
    t_max: u64,
    pending: Seq<BvhChild>,
    best: Option<(usize, u64)>,
) -> bool {
    &&& hits.len() == boxes.len()
    &&& branches_wf(boxes, branches)
    &&& forall|i: int| 0 <= i < pending.len() ==> child_ok(boxes, #[trigger] pending[i], branches.len() as int)
    &&& match best {
        Some((k, t)) => k < hits.len() && hits[k as int] == Some(t) && t < t_max,
        None => true,
    }
    &&& forall|o: usize|
        (o as int) < hits.len() && !pending_objects(branches, pending).contains(o)
            ==> !#[trigger] hit_below(hits, o as int, bound_of(best, t_max))
}

proof fn lemma_pending_push(branches: Seq<BvhBranch>, pending: Seq<BvhChild>, c: BvhChild)
    ensures
        pending_objects(branches, pending.push(c)) == pending_objects(branches, pending)
            + child_objects(branches, c),
{
    assert(pending.push(c).drop_last() =~= pending);
}

/// A traversal starts with only the top branch to visit and no hit.
pub proof fn lemma_traversal_start(
    boxes: Seq<Aabb>,
    branches: Seq<BvhBranch>,
    root: usize,
    hits: Seq<Option<u64>>,
    t_max: u64,
)
    requires
        branches_wf(boxes, branches),
        root < branches.len(),
        objects_below(branches, root as nat) == indices_below(boxes.len()),
        hits.len() == boxes.len(),
    ensures
        traversal_inv(boxes, branches, hits, t_max, seq![BvhChild::Branch(root)], None),
{
    let p = seq![BvhChild::Branch(root)];
    lemma_pending_push(branches, Seq::empty(), BvhChild::Branch(root));
    assert(Seq::<BvhChild>::empty().push(BvhChild::Branch(root)) == p);
    assert forall|o: usize|
        (o as int) < hits.len() && !pending_objects(branches, p).contains(o)
            implies !#[trigger] hit_below(hits, o as int, t_max) by {
        assert(indices_below(boxes.len()).contains(o));
    }
}

/// Visiting an object keeps the invariant.
pub proof fn lemma_traversal_object(
    boxes: Seq<Aabb>,
    branches: Seq<BvhBranch>,
    hits: Seq<Option<u64>>,
    t_max: u64,
    pending: Seq<BvhChild>,
    best: Option<(usize, u64)>,
    k: usize,
)
    requires
        traversal_inv(boxes, branches, hits, t_max, pending.push(BvhChild::Object(k)), best),
    ensures
        traversal_inv(boxes, branches, hits, t_max, pending, after_object(hits, k as int, best, t_max)),
{
    lemma_pending_push(branches, pending, BvhChild::Object(k));
    let full = pending.push(BvhChild::Object(k));
    assert(child_ok(boxes, full[pending.len() as int], branches.len() as int));
    assert forall|i: int| 0 <= i < pending.len() implies child_ok(boxes, #[trigger] pending[i], branches.len() as int) by {
        assert(full[i] == pending[i]);
    }
    let nb = after_object(hits, k as int, best, t_max);
    assert(bound_of(nb, t_max) <= bound_of(best, t_max));
    assert forall|o: usize|
        (o as int) < hits.len() && !pending_objects(branches, pending).contains(o)
            implies !#[trigger] hit_below(hits, o as int, bound_of(nb, t_max)) by {
        if o != k {
            assert(!pending_objects(branches, full).contains(o));
            assert(!hit_below(hits, o as int, bound_of(best, t_max)));
        }
    }
}

/// Entering a branch whose box the ray meets keeps the invariant.
pub proof fn lemma_traversal_enter(
    boxes: Seq<Aabb>,
    branches: Seq<BvhBranch>,
    hits: Seq<Option<u64>>,
    t_max: u64,
    pending: Seq<BvhChild>,
    best: Option<(usize, u64)>,
    b: usize,
)
    requires
        traversal_inv(boxes, branches, hits, t_max, pending.push(BvhChild::Branch(b)), best),
    ensures
        b < branches.len(),
        traversal_inv(
            boxes,
            branches,
            hits,
            t_max,
            pending.push(branches[b as int].right).push(branches[b as int].left),
            best,
        ),
{
    let full = pending.push(BvhChild::Branch(b));
    assert(child_ok(boxes, full[pending.len() as int], branches.len() as int));
    let n = branches[b as int];
    let grown = pending.push(n.right).push(n.left);
    lemma_pending_push(branches, pending, BvhChild::Branch(b));
    lemma_pending_push(branches, pending, n.right);
    lemma_pending_push(branches, pending.push(n.right), n.left);
    assert(child_ok(boxes, n.left, b as int));
    assert(child_ok(boxes, n.right, b as int));
    assert(child_objects(branches, BvhChild::Branch(b)) == child_objects(branches, n.left)
        + child_objects(branches, n.right));
    assert(pending_objects(branches, grown) =~= pending_objects(branches, full));
    assert forall|i: int| 0 <= i < grown.len() implies child_ok(boxes, #[trigger] grown[i], branches.len() as int) by {
        if i < pending.len() {
            assert(full[i] == pending[i]);
        }
    }
}

/// Passing over a branch none of whose objects has a hit below the bound
/// keeps the invariant.
pub proof fn lemma_traversal_prune(
    boxes: Seq<Aabb>,
    branches: Seq<BvhBranch>,
    hits: Seq<Option<u64>>,
    t_max: u64,
    pending: Seq<BvhChild>,
    best: Option<(usize, u64)>,
    b: usize,
)
    requires
        traversal_inv(boxes, branches, hits, t_max, pending.push(BvhChild::Branch(b)), best),
        forall|o: usize|
            #[trigger] objects_below(branches, b as nat).contains(o) ==> !hit_below(
                hits,
                o as int,
                bound_of(best, t_max),
            ),
    ensures
        traversal_inv(boxes, branches, hits, t_max, pending, best),
{
    let full = pending.push(BvhChild::Branch(b));
    lemma_pending_push(branches, pending, BvhChild::Branch(b));
    assert forall|i: int| 0 <= i < pending.len() implies child_ok(boxes, #[trigger] pending[i], branches.len() as int) by {
        assert(full[i] == pending[i]);
    }
    assert forall|o: usize|
        (o as int) < hits.len() && !pending_objects(branches, pending).contains(o)
            implies !#[trigger] hit_below(hits, o as int, bound_of(best, t_max)) by {
        if !objects_below(branches, b as nat).contains(o) {
            assert(!pending_objects(branches, full).contains(o));
        }
    }
}

/// When nothing is left to visit, the traversal's hit is at the distance of
/// the closest hit that a scan of the whole list finds.
pub proof fn lemma_traversal_matches_scan(
    boxes: Seq<Aabb>,
    branches: Seq<BvhBranch>,
    hits: Seq<Option<u64>>,
    t_max: u64,
    best: Option<(usize, u64)>,
    scan: Option<(usize, u64)>,
)
    requires
        traversal_inv(boxes, branches, hits, t_max, Seq::empty(), best),
        is_closest(hits, t_max, scan),
    ensures
        best.is_some() == scan.is_some(),
        best matches Some((_, t)) ==> scan matches Some((_, u)) && t == u,
{
    match (best, scan) {
        (Some((k, t)), Some((i, u))) => {
            assert(!hit_below(hits, i as int, bound_of(best, t_max))) by {
                assert(!pending_objects(branches, Seq::<BvhChild>::empty()).contains(i));
            }
            assert(!hit_below(hits, k as int, u));
        },
        (Some((k, t)), None) => {
            assert(!hit_below(hits, k as int, t_max));
        },
        (None, Some((i, u))) => {
            assert(!hit_below(hits, i as int, bound_of(best, t_max))) by {
                assert(!pending_objects(branches, Seq::<BvhChild>::empty()).contains(i));
            }
        },
        (None, None) => {},
    }
}

/// The state of a traversal.
pub struct Traversal {
    /// Children still to visit; the last is visited first.
    pub pending: Vec<BvhChild>,
    /// Closest hit so far: object and hit distance.
    pub best: Option<(usize, u64)>,
    /// Upper end of the search interval.
    pub t_max: u64,
}

impl Traversal {
    /// A traversal of `tree` for hits below `t_max`.
    pub fn new(tree: &BvhNode, t_max: u64) -> (r: Traversal)
        ensures
            r.pending@ == seq![BvhChild::Branch(tree.root)],
            r.best.is_none(),
            r.t_max == t_max,
    {
        let mut pending: Vec<BvhChild> = Vec::new();
        pending.push(BvhChild::Branch(tree.root));
        assert(pending@ =~= seq![BvhChild::Branch(tree.root)]);
        Traversal { pending, best: None, t_max }
    }

    /// Upper end of the interval to test the next child in.
    pub fn bound(&self) -> (r: u64)
        ensures
            r == bound_of(self.best, self.t_max),
    {
        match self.best {
            Some((_, t)) => t,
            None => self.t_max,
        }
    }

    /// The next child to visit, removed from those pending; `None` when the
    /// traversal is over.
    pub fn next(&mut self) -> (r: Option<BvhChild>)
        ensures
            final(self).best == old(self).best,
            final(self).t_max == old(self).t_max,
            old(self).pending@.len() == 0 ==> r.is_none() && final(self).pending@ == old(self).pending@,
            old(self).pending@.len() > 0 ==> r == Some(old(self).pending@.last())
                && final(self).pending@ == old(self).pending@.drop_last(),
    {
        self.pending.pop()
    }

    /// Goes into branch `b`: its left child is visited next, then its right.
    pub fn enter(&mut self, tree: &BvhNode, b: usize)
        requires
            b < tree.branches@.len(),
        ensures
            final(self).best == old(self).best,
            final(self).t_max == old(self).t_max,
            final(self).pending@ == old(self).pending@.push(tree.branches@[b as int].right).push(
                tree.branches@[b as int].left,
            ),
    {
        self.pending.push(tree.branches[b].right);
        self.pending.push(tree.branches[b].left);
    }

    /// Takes a hit of object `k` at distance `t`; it becomes the closest,
    /// and true is returned, when it lies below the bound.
    pub fn offer(&mut self, k: usize, t: u64) -> (taken: bool)
        ensures
            taken == (t < bound_of(old(self).best, old(self).t_max)),
            final(self).pending@ == old(self).pending@,
            final(self).t_max == old(self).t_max,
            final(self).best == if t < bound_of(old(self).best, old(self).t_max) {
                Some((k, t))
            } else {
                old(self).best
            },
    {
        if t < self.bound() {
            self.best = Some((k, t));
            true
        } else {
            false
        }
    }

    /// The closest hit found: object and hit distance.
    pub fn result(&self) -> (r: Option<(usize, u64)>)
        ensures
            r == self.best,
    {
        self.best
    }
}

} // verus!
