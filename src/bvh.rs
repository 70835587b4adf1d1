//! Bounding-volume hierarchy over a list of boxed objects.
//!
//! The hierarchy is an arena of branches: each branch has two children,
//! each an object of the list or an earlier branch, and caches the union
//! of its children's boxes.
use vstd::prelude::*;
use rand::rngs::StdRng;
use crate::aabb::{Aabb, surrounding_box, surrounding_spec};
use crate::permutation::{swap_entries, swapped};
use crate::random::draw_upto;

verus! {

broadcast use vstd::seq_lib::group_to_multiset_ensures;

/// Key along `axis` of the least corner of object `o`'s box.
pub open spec fn axis_key(boxes: Seq<Aabb>, axis: int, o: usize) -> u64 {
    boxes[o as int].min.at(axis)
}

/// Every entry of `items` names an object of `boxes`.
pub open spec fn items_in(boxes: Seq<Aabb>, items: Seq<usize>) -> bool {
    forall|k: int| 0 <= k < items.len() ==> #[trigger] items[k] < boxes.len()
}

/// `items` lies in non-decreasing order of its objects' least corners
/// along `axis`.
pub open spec fn sorted_on(boxes: Seq<Aabb>, axis: int, items: Seq<usize>) -> bool {
    forall|a: int, b: int|
        0 <= a < b < items.len() ==> axis_key(boxes, axis, #[trigger] items[a]) <= axis_key(
            boxes,
            axis,
            #[trigger] items[b],
        )
}

/// Sorts `items` by their objects' least corners along `axis`.
pub fn sort_by_axis(boxes: &Vec<Aabb>, axis: usize, items: &mut Vec<usize>)
    requires
        items_in(boxes@, old(items)@),
    ensures
        final(items)@.to_multiset() == old(items)@.to_multiset(),
        final(items)@.len() == old(items)@.len(),
        items_in(boxes@, final(items)@),
        sorted_on(boxes@, axis as int, final(items)@),
{
    let n = items.len();
    if n < 2 {
        return ;
    }
    let mut i: usize = 1;
    while i < n
        invariant
            1 <= i <= n,
            n == items@.len(),
            items@.to_multiset() == old(items)@.to_multiset(),
            items_in(boxes@, items@),
            sorted_on(boxes@, axis as int, items@.subrange(0, i as int)),
        decreases n - i,
    {
        let mut j: usize = i;
        while j > 0 && boxes[items[j - 1]].min.d(axis) > boxes[items[j]].min.d(axis)
            invariant
                1 <= i < n,
                j <= i,
                n == items@.len(),
                items@.to_multiset() == old(items)@.to_multiset(),
                items_in(boxes@, items@),
                sorted_on(boxes@, axis as int, items@.subrange(0, j as int)),
                sorted_on(boxes@, axis as int, items@.subrange(j as int, i + 1)),
                forall|a: int, b: int|
                    0 <= a < j < b <= i ==> axis_key(boxes@, axis as int, #[trigger] items@[a])
                        <= axis_key(boxes@, axis as int, #[trigger] items@[b]),
            decreases j,
        {
            let ghost s = items@;
            swap_entries(items, j - 1, j);
            assert(items@ == swapped(s, j - 1, j as int));
            j = j - 1;
            assert(sorted_on(boxes@, axis as int, items@.subrange(0, j as int))) by {
                assert forall|a: int, b: int| 0 <= a < b < j implies axis_key(
                    boxes@,
                    axis as int,
                    #[trigger] items@.subrange(0, j as int)[a],
                ) <= axis_key(boxes@, axis as int, #[trigger] items@.subrange(0, j as int)[b]) by {
                    assert(s.subrange(0, j + 1)[a] == items@[a]);
                    assert(s.subrange(0, j + 1)[b] == items@[b]);
                }
            }
            assert(sorted_on(boxes@, axis as int, items@.subrange(j as int, i + 1))) by {
                assert forall|a: int, b: int| 0 <= a < b < i + 1 - j implies axis_key(
                    boxes@,
                    axis as int,
                    #[trigger] items@.subrange(j as int, i + 1)[a],
                ) <= axis_key(boxes@, axis as int, #[trigger] items@.subrange(j as int, i + 1)[b]) by {
                    let a0 = a + j;
                    let b0 = b + j;
                    if a0 == j && b0 == j + 1 {
                    } else if a0 == j {
                        assert(s.subrange(j + 1, i + 1)[0] == s[j + 1]);
                        assert(s.subrange(j + 1, i + 1)[b0 - j - 1] == s[b0]);
                    } else if a0 == j + 1 {
                        assert(0 <= j < j + 1 < b0 <= i);
                        assert(axis_key(boxes@, axis as int, s[j as int]) <= axis_key(boxes@, axis as int, s[b0]));
                    } else {
                        assert(s.subrange(j + 1, i + 1)[a0 - j - 1] == s[a0]);
                        assert(s.subrange(j + 1, i + 1)[b0 - j - 1] == s[b0]);
                    }
                }
            }
            assert forall|a: int, b: int|
                0 <= a < j < b <= i implies axis_key(boxes@, axis as int, #[trigger] items@[a])
                <= axis_key(boxes@, axis as int, #[trigger] items@[b]) by {
                if b == j + 1 {
                    assert(s.subrange(0, j + 1)[a] == s[a]);
                    assert(s.subrange(0, j + 1)[j as int] == s[j as int]);
                } else {
                }
            }
        }
        proof {
            let s = items@;
            assert(sorted_on(boxes@, axis as int, s.subrange(0, i + 1))) by {
                assert forall|a: int, b: int| 0 <= a < b < i + 1 implies axis_key(
                    boxes@,
                    axis as int,
                    #[trigger] s.subrange(0, i + 1)[a],
                ) <= axis_key(boxes@, axis as int, #[trigger] s.subrange(0, i + 1)[b]) by {
                    if b < j {
                        assert(s.subrange(0, j as int)[a] == s[a]);
                        assert(s.subrange(0, j as int)[b] == s[b]);
                    } else if a >= j {
                        assert(s.subrange(j as int, i + 1)[a - j] == s[a]);
                        assert(s.subrange(j as int, i + 1)[b - j] == s[b]);
                    } else if b == j {
                        assert(s.subrange(0, j as int)[a] == s[a]);
                        assert(s.subrange(0, j as int)[j - 1] == s[j - 1]);
                    } else {
                    }
                }
            }
        }
        i = i + 1;
    }
    assert(items@.subrange(0, n as int) =~= items@);
}


/// A child of a branch: an object of the list, or an earlier branch.
#[derive(Clone, Copy, Debug, PartialEq, Eq, Structural)]
pub enum BvhChild {
    Object(usize),
    Branch(usize),
}

/// An inner node of the hierarchy.
#[derive(Clone, Copy, Debug, PartialEq, Eq, Structural)]
pub struct BvhBranch {
    pub left: BvhChild,
    pub right: BvhChild,
    /// Union of the children's boxes.
    pub bbox: Aabb,
}

/// Box of a child.
pub open spec fn child_box(boxes: Seq<Aabb>, branches: Seq<BvhBranch>, c: BvhChild) -> Aabb {
    match c {
        BvhChild::Object(o) => boxes[o as int],
        BvhChild::Branch(b) => branches[b as int].bbox,
    }
}

/// A child of branch `at` names an object of the list or an earlier branch.
pub open spec fn child_ok(boxes: Seq<Aabb>, c: BvhChild, at: int) -> bool {
    match c {
        BvhChild::Object(o) => o < boxes.len(),
        BvhChild::Branch(b) => b < at,
    }
}

/// Every branch points at objects or earlier branches and caches the union
/// of its children's boxes.
pub open spec fn branches_wf(boxes: Seq<Aabb>, branches: Seq<BvhBranch>) -> bool {
    forall|i: int|
        0 <= i < branches.len() ==> {
            &&& child_ok(boxes, (#[trigger] branches[i]).left, i)
            &&& child_ok(boxes, branches[i].right, i)
            &&& branches[i].bbox == surrounding_spec(
                child_box(boxes, branches, branches[i].left),
                child_box(boxes, branches, branches[i].right),
            )
        }
}

/// The objects below branch `i`.
pub open spec fn objects_below(branches: Seq<BvhBranch>, i: nat) -> Set<usize>
    decreases i,
{
    if i >= branches.len() {
        Set::empty()
    } else {
        let l = match branches[i as int].left {
            BvhChild::Object(o) => set![o],
            BvhChild::Branch(b) => if (b as nat) < i {
                objects_below(branches, b as nat)
            } else {
                Set::empty()
            },
        };
        let r = match branches[i as int].right {
            BvhChild::Object(o) => set![o],
            BvhChild::Branch(b) => if (b as nat) < i {
                objects_below(branches, b as nat)
            } else {
                Set::empty()
            },
        };
        l + r
    }
}

/// Appending branches leaves what lies below the earlier ones unchanged.
pub proof fn lemma_objects_below_prefix(branches: Seq<BvhBranch>, more: Seq<BvhBranch>, i: nat)
    requires
        i < branches.len(),
        branches.len() <= more.len(),
        more.subrange(0, branches.len() as int) == branches,
    ensures
        objects_below(more, i) == objects_below(branches, i),
    decreases i,
{
    assert(more[i as int] == branches[i as int]);
    match branches[i as int].left {
        BvhChild::Branch(b) => if (b as nat) < i {
            lemma_objects_below_prefix(branches, more, b as nat);
        },
        _ => {},
    }
    match branches[i as int].right {
        BvhChild::Branch(b) => if (b as nat) < i {
            lemma_objects_below_prefix(branches, more, b as nat);
        },
        _ => {},
    }
}

/// The box of every branch encloses the box of every object below it: a ray
/// that misses a branch's box misses everything below it.
pub proof fn lemma_branch_encloses_objects(boxes: Seq<Aabb>, branches: Seq<BvhBranch>, i: nat)
    requires
        branches_wf(boxes, branches),
        i < branches.len(),
    ensures
        forall|o: usize| #[trigger]
            objects_below(branches, i).contains(o) ==> branches[i as int].bbox.encloses(
                boxes[o as int],
            ),
    decreases i,
{
    let n = branches[i as int];
    let lb = child_box(boxes, branches, n.left);
    let rb = child_box(boxes, branches, n.right);
    crate::aabb::lemma_surrounding_least(lb, rb, n.bbox);
    match n.left {
        BvhChild::Branch(b) => {
            lemma_branch_encloses_objects(boxes, branches, b as nat);
        },
        _ => {},
    }
    match n.right {
        BvhChild::Branch(b) => {
            lemma_branch_encloses_objects(boxes, branches, b as nat);
        },
        _ => {},
    }
    assert forall|o: usize| #[trigger]
        objects_below(branches, i).contains(o) implies n.bbox.encloses(boxes[o as int]) by {
        match n.left {
            BvhChild::Branch(b) => if objects_below(branches, b as nat).contains(o) {
                crate::aabb::lemma_encloses_transitive(n.bbox, lb, boxes[o as int]);
            },
            _ => {},
        }
        match n.right {
            BvhChild::Branch(b) => if objects_below(branches, b as nat).contains(o) {
                crate::aabb::lemma_encloses_transitive(n.bbox, rb, boxes[o as int]);
            },
            _ => {},
        }
    }
}


/// A copy of `v[lo..hi]`.
fn copy_range(v: &Vec<usize>, lo: usize, hi: usize) -> (r: Vec<usize>)
    requires
        lo <= hi <= v@.len(),
    ensures
        r@ == v@.subrange(lo as int, hi as int),
{
    let mut r: Vec<usize> = Vec::new();
    let mut k: usize = lo;
    while k < hi
        invariant
            lo <= k <= hi,
            hi <= v@.len(),
            r@ == v@.subrange(lo as int, k as int),
        decreases hi - k,
    {
        r.push(v[k]);
        k = k + 1;
        assert(r@ =~= v@.subrange(lo as int, k as int));
    }
    r
}

proof fn lemma_split_to_set(s: Seq<usize>, m: int)
    requires
        0 <= m <= s.len(),
    ensures
        s.subrange(0, m).to_set() + s.subrange(m, s.len() as int).to_set() == s.to_set(),
{
    let lo = s.subrange(0, m);
    let hi = s.subrange(m, s.len() as int);
    assert forall|x: usize| #[trigger] s.contains(x) implies lo.contains(x) || hi.contains(x) by {
        let k = choose|k: int| 0 <= k < s.len() && s[k] == x;
        if k < m {
            assert(lo[k] == x);
        } else {
            assert(hi[k - m] == x);
        }
    }
    assert forall|x: usize| lo.contains(x) || hi.contains(x) implies #[trigger] s.contains(x) by {
        if lo.contains(x) {
            let k = choose|k: int| 0 <= k < lo.len() && lo[k] == x;
            assert(s[k] == x);
        } else {
            let k = choose|k: int| 0 <= k < hi.len() && hi[k] == x;
            assert(s[k + m] == x);
        }
    }
    assert(lo.to_set() + hi.to_set() =~= s.to_set());
}

proof fn lemma_same_multiset_same_set(s: Seq<usize>, t: Seq<usize>)
    requires
        s.to_multiset() == t.to_multiset(),
    ensures
        s.to_set() == t.to_set(),
{
    broadcast use vstd::seq_lib::to_multiset_contains;

    assert forall|x: usize| s.contains(x) <==> t.contains(x) by {
        assert(s.contains(x) <==> s.to_multiset().count(x) > 0);
        assert(t.contains(x) <==> t.to_multiset().count(x) > 0);
    }
    assert(s.to_set() =~= t.to_set());
}

/// Along `axis`, no object of `lo` has its least corner above that of an
/// object of `hi`.
pub open spec fn ordered_on(boxes: Seq<Aabb>, axis: int, lo: Set<usize>, hi: Set<usize>) -> bool {
    forall|o: usize, p: usize|
        #![trigger lo.contains(o), hi.contains(p)]
        lo.contains(o) && hi.contains(p) ==> axis_key(boxes, axis, o) <= axis_key(boxes, axis, p)
}

/// `lo` and `hi` share no object, `lo` holds half of them rounded down, and
/// they are ordered along some axis.
pub open spec fn halves_ok(boxes: Seq<Aabb>, lo: Set<usize>, hi: Set<usize>) -> bool {
    &&& lo.disjoint(hi)
    &&& lo.len() == (lo.len() + hi.len()) / 2
    &&& exists|axis: int| 0 <= axis < 3 && #[trigger] ordered_on(boxes, axis, lo, hi)
}

/// Along `axis`, the least corner of `a` is not below that of `b`.
pub open spec fn greater_first(boxes: Seq<Aabb>, axis: int, a: usize, b: usize) -> bool {
    axis_key(boxes, axis, b) <= axis_key(boxes, axis, a)
}

/// Branch `i` is split as construction splits: one object as both
/// children; two objects with the greater least corner first along some
/// axis; or two branches over halves of its objects ordered along some axis.
pub open spec fn split_ok(boxes: Seq<Aabb>, branches: Seq<BvhBranch>, i: int) -> bool {
    match (branches[i].left, branches[i].right) {
        (BvhChild::Object(a), BvhChild::Object(b)) => a == b || exists|axis: int|
            0 <= axis < 3 && #[trigger] greater_first(boxes, axis, a, b),
        (BvhChild::Branch(l), BvhChild::Branch(r)) => halves_ok(
            boxes,
            objects_below(branches, l as nat),
            objects_below(branches, r as nat),
        ),
        _ => false,
    }
}

/// Every branch is split as construction splits.
pub open spec fn branches_split(boxes: Seq<Aabb>, branches: Seq<BvhBranch>) -> bool {
    forall|i: int| 0 <= i < branches.len() ==> #[trigger] split_ok(boxes, branches, i)
}

proof fn lemma_split_ok_prefix(boxes: Seq<Aabb>, branches: Seq<BvhBranch>, more: Seq<BvhBranch>, i: int)
    requires
        branches_wf(boxes, branches),
        0 <= i < branches.len(),
        branches.len() <= more.len(),
        more.subrange(0, branches.len() as int) == branches,
    ensures
        split_ok(boxes, more, i) == split_ok(boxes, branches, i),
{
    assert(more[i] == branches[i]);
    match (branches[i].left, branches[i].right) {
        (BvhChild::Branch(l), BvhChild::Branch(r)) => {
            lemma_objects_below_prefix(branches, more, l as nat);
            lemma_objects_below_prefix(branches, more, r as nat);
        },
        _ => {},
    }
}

proof fn lemma_same_multiset_no_duplicates(s: Seq<usize>, t: Seq<usize>)
    requires
        s.no_duplicates(),
        s.to_multiset() == t.to_multiset(),
    ensures
        t.no_duplicates(),
{
    s.lemma_multiset_has_no_duplicates();
    t.lemma_multiset_has_no_duplicates_conv();
}

proof fn lemma_sorted_halves(boxes: Seq<Aabb>, axis: int, s: Seq<usize>, m: int)
    requires
        s.no_duplicates(),
        sorted_on(boxes, axis, s),
        0 <= m <= s.len(),
    ensures
        s.subrange(0, m).no_duplicates(),
        s.subrange(m, s.len() as int).no_duplicates(),
        s.subrange(0, m).to_set().disjoint(s.subrange(m, s.len() as int).to_set()),
        s.subrange(0, m).to_set().len() == m,
        s.subrange(m, s.len() as int).to_set().len() == s.len() - m,
        ordered_on(boxes, axis, s.subrange(0, m).to_set(), s.subrange(m, s.len() as int).to_set()),
{
    let lo = s.subrange(0, m);
    let hi = s.subrange(m, s.len() as int);
    assert(lo.no_duplicates());
    assert(hi.no_duplicates()) by {
        assert forall|i: int, j: int| 0 <= i < hi.len() && 0 <= j < hi.len() && i != j implies hi[i] != hi[j] by {
            assert(hi[i] == s[i + m] && hi[j] == s[j + m]);
        }
    }
    lo.unique_seq_to_set();
    hi.unique_seq_to_set();
    assert forall|x: usize| !(lo.to_set().contains(x) && hi.to_set().contains(x)) by {
        if lo.contains(x) && hi.contains(x) {
            let a = choose|a: int| 0 <= a < lo.len() && lo[a] == x;
            let b = choose|b: int| 0 <= b < hi.len() && hi[b] == x;
            assert(s[a] == s[b + m]);
        }
    }
    assert forall|o: usize, p: usize| lo.to_set().contains(o) && hi.to_set().contains(p) implies axis_key(
        boxes,
        axis,
        o,
    ) <= axis_key(boxes, axis, p) by {
        let a = choose|a: int| 0 <= a < lo.len() && lo[a] == o;
        let b = choose|b: int| 0 <= b < hi.len() && hi[b] == p;
        assert(s[a] == o && s[b + m] == p);
    }
}

/// Appending a branch over existing children, caching their union and
/// split as construction splits, keeps the arena well formed.
proof fn lemma_push_branch(boxes: Seq<Aabb>, before: Seq<BvhBranch>, nb: BvhBranch)
    requires
        branches_wf(boxes, before),
        branches_split(boxes, before),
        child_ok(boxes, nb.left, before.len() as int),
        child_ok(boxes, nb.right, before.len() as int),
        nb.bbox == surrounding_spec(
            child_box(boxes, before, nb.left),
            child_box(boxes, before, nb.right),
        ),
        split_ok(boxes, before.push(nb), before.len() as int),
    ensures
        branches_wf(boxes, before.push(nb)),
        branches_split(boxes, before.push(nb)),
        before.push(nb).subrange(0, before.len() as int) == before,
{
    let all = before.push(nb);
    assert(all.subrange(0, before.len() as int) =~= before);
    assert forall|i: int| 0 <= i < all.len() implies {
        &&& child_ok(boxes, (#[trigger] all[i]).left, i)
        &&& child_ok(boxes, all[i].right, i)
        &&& all[i].bbox == surrounding_spec(
            child_box(boxes, all, all[i].left),
            child_box(boxes, all, all[i].right),
        )
    } by {
        if i < before.len() {
            assert(all[i] == before[i]);
            assert(child_box(boxes, all, all[i].left) == child_box(boxes, before, before[i].left));
            assert(child_box(boxes, all, all[i].right) == child_box(boxes, before, before[i].right));
        } else {
            assert(child_box(boxes, all, nb.left) == child_box(boxes, before, nb.left));
            assert(child_box(boxes, all, nb.right) == child_box(boxes, before, nb.right));
        }
    }
    assert forall|i: int| 0 <= i < all.len() implies #[trigger] split_ok(boxes, all, i) by {
        if i < before.len() {
            lemma_split_ok_prefix(boxes, before, all, i);
        }
    }
}

/// Box of a child, read from the object boxes or the built branches.
fn box_of_child(boxes: &Vec<Aabb>, branches: &Vec<BvhBranch>, c: BvhChild) -> (r: Aabb)
    requires
        child_ok(boxes@, c, branches@.len() as int),
    ensures
        r == child_box(boxes@, branches@, c),
{
    match c {
        BvhChild::Object(o) => boxes[o],
        BvhChild::Branch(b) => branches[b].bbox,
    }
}

/// Appends the branches of a hierarchy over the objects `items` to
/// `branches` and returns the index of its top branch, the last appended.
///
/// Each branch draws an axis at random. One object is both children of its
/// branch; two objects become the children in the order of their least
/// corners on that axis, the greater first; more are sorted along that axis
/// and split at the middle into two halves, built in turn.
#[verifier::rlimit(40)]
fn build_branch(
    rng: &mut StdRng,
    boxes: &Vec<Aabb>,
    items: Vec<usize>,
    branches: &mut Vec<BvhBranch>,
) -> (top: usize)
    requires
        items@.len() >= 1,
        items_in(boxes@, items@),
        items@.no_duplicates(),
        branches_wf(boxes@, old(branches)@),
        branches_split(boxes@, old(branches)@),
    ensures
        branches_wf(boxes@, final(branches)@),
        branches_split(boxes@, final(branches)@),
        top + 1 == final(branches)@.len(),
        old(branches)@.len() <= top,
        final(branches)@.subrange(0, old(branches)@.len() as int) == old(branches)@,
        objects_below(final(branches)@, top as nat) == items@.to_set(),
        final(branches)@.len() - old(branches)@.len() <= 2 * items@.len() - 1,
    decreases items@.len(),
{
    let ghost start = branches@;
    let axis = draw_upto(rng, 2);
    let n = items.len();
    let (left, right) = if n == 1 {
        (BvhChild::Object(items[0]), BvhChild::Object(items[0]))
    } else if n == 2 {
        let a = items[0];
        let b = items[1];
        if boxes[a].min.d(axis) > boxes[b].min.d(axis) {
            (BvhChild::Object(a), BvhChild::Object(b))
        } else {
            (BvhChild::Object(b), BvhChild::Object(a))
        }
    } else {
        let mut sorted = items.clone();
        assert(sorted@ == items@);
        sort_by_axis(boxes, axis, &mut sorted);
        let mid = n / 2;
        let lower = copy_range(&sorted, 0, mid);
        let upper = copy_range(&sorted, mid, n);
        assert(items_in(boxes@, lower@));
        assert(items_in(boxes@, upper@));
        proof {
            lemma_same_multiset_no_duplicates(items@, sorted@);
            lemma_sorted_halves(boxes@, axis as int, sorted@, mid as int);
        }
        let l = build_branch(rng, boxes, lower, branches);
        let ghost after_left = branches@;
        let r = build_branch(rng, boxes, upper, branches);
        proof {
            assert(after_left.subrange(0, start.len() as int) == start);
            assert(branches@.subrange(0, start.len() as int) =~= start) by {
                assert(branches@.subrange(0, after_left.len() as int) == after_left);
            }
            lemma_objects_below_prefix(after_left, branches@, l as nat);
            lemma_split_to_set(sorted@, mid as int);
            lemma_same_multiset_same_set(sorted@, items@);
            assert(after_left.len() - start.len() <= 2 * mid - 1);
            assert(branches@.len() - after_left.len() <= 2 * (n - mid) - 1);
            assert(branches@.len() - start.len() <= 2 * n - 2);
            assert(ordered_on(boxes@, axis as int, lower@.to_set(), upper@.to_set()));
            assert(halves_ok(boxes@, objects_below(branches@, l as nat), objects_below(branches@, r as nat)));
        }
        (BvhChild::Branch(l), BvhChild::Branch(r))
    };
    let lb = box_of_child(boxes, branches, left);
    let rb = box_of_child(boxes, branches, right);
    let ghost before = branches@;
    let nb = BvhBranch { left, right, bbox: surrounding_box(lb, rb) };
    proof {
        let all = before.push(nb);
        assert(all[before.len() as int] == nb);
        if n >= 3 {
            match (left, right) {
                (BvhChild::Branch(l), BvhChild::Branch(r)) => {
                    assert(all.subrange(0, before.len() as int) =~= before);
                    lemma_objects_below_prefix(before, all, l as nat);
                    lemma_objects_below_prefix(before, all, r as nat);
                },
                _ => {},
            }
        } else if n == 2 {
            match (left, right) {
                (BvhChild::Object(a), BvhChild::Object(b)) => {
                    assert(greater_first(boxes@, axis as int, a, b));
                },
                _ => {},
            }
        }
        assert(split_ok(boxes@, all, before.len() as int));
        lemma_push_branch(boxes@, before, nb);
        assert(before.subrange(0, start.len() as int) == start);
        assert(all.subrange(0, start.len() as int) =~= start);
        if n == 1 {
            assert(items@.to_set() =~= set![items@[0]]);
        } else if n == 2 {
            assert(items@.to_set() =~= set![items@[0], items@[1]]);
        }
        assert(objects_below(all, before.len() as nat) =~= items@.to_set());
    }
    assert(before.len() - start.len() <= 2 * n - 2);
    branches.push(nb);
    let top = branches.len() - 1;
    top
}


/// The indices `0..n`, as a set.
pub open spec fn indices_below(n: nat) -> Set<usize> {
    Set::new(|o: usize| (o as nat) < n)
}

/// Every entry of `boxes[start..end]` is a box.
pub open spec fn all_bounded(boxes: Seq<Option<Aabb>>, start: int, end: int) -> bool {
    forall|k: int| start <= k < end ==> (#[trigger] boxes[k]).is_some()
}

/// A bounding-volume hierarchy over the objects `first..first + boxes.len()`
/// of a list: child `Object(k)` stands for the list's object `first + k`,
/// whose box is `boxes[k]`.
pub struct BvhNode {
    pub first: usize,
    pub boxes: Vec<Aabb>,
    pub branches: Vec<BvhBranch>,
    /// The top branch: the last one.
    pub root: usize,
}

impl BvhNode {
    /// The branches are well formed, the top one is the last, and every
    /// object lies below it.
    pub open spec fn wf(&self) -> bool {
        &&& branches_wf(self.boxes@, self.branches@)
        &&& branches_split(self.boxes@, self.branches@)
        &&& self.root + 1 == self.branches@.len()
        &&& objects_below(self.branches@, self.root as nat) == indices_below(self.boxes@.len())
    }

    /// Builds a hierarchy over the objects `start..end` of a list whose
    /// boxes are `boxes`; each of those objects must have a box.
    pub fn new(rng: &mut StdRng, boxes: &Vec<Option<Aabb>>, start: usize, end: usize) -> (t:
        BvhNode)
        requires
            start < end <= boxes@.len(),
            all_bounded(boxes@, start as int, end as int),
        ensures
            t.wf(),
            t.first == start,
            t.boxes@.len() == end - start,
            forall|k: int|
                0 <= k < t.boxes@.len() ==> boxes@[start + k] == Some(#[trigger] t.boxes@[k]),
            t.branches@.len() <= 2 * (end - start) - 1,
    {
        let mut flat: Vec<Aabb> = Vec::new();
        let mut items: Vec<usize> = Vec::new();
        let mut k: usize = start;
        while k < end
            invariant
                start <= k <= end,
                end <= boxes@.len(),
                flat@.len() == k - start,
                items@ == Seq::new((k - start) as nat, |i: int| i as usize),
                all_bounded(boxes@, start as int, end as int),
                forall|i: int| 0 <= i < flat@.len() ==> boxes@[start + i] == Some(#[trigger] flat@[i]),
            decreases end - k,
        {
            assert(boxes@[k as int].is_some());
            let b = boxes[k].unwrap();
            items.push(k - start);
            flat.push(b);
            k = k + 1;
            assert(items@ =~= Seq::new((k - start) as nat, |i: int| i as usize));
        }
        let mut branches: Vec<BvhBranch> = Vec::new();
        let root = build_branch(rng, &flat, items, &mut branches);
        proof {
            assert(items@.to_set() =~= indices_below(flat@.len())) by {
                assert forall|o: usize| indices_below(flat@.len()).contains(o) implies items@.contains(o) by {
                    assert(items@[o as int] == o);
                }
            }
        }
        BvhNode { first: start, boxes: flat, branches, root }
    }

    /// The box of the whole hierarchy: it encloses the box of every object.
    pub fn bounding_box(&self) -> (r: Aabb)
        requires
            self.wf(),
        ensures
            r == self.branches@[self.root as int].bbox,
            forall|k: int| 0 <= k < self.boxes@.len() ==> r.encloses(#[trigger] self.boxes@[k]),
    {
        let n = self.boxes.len();
        proof {
            lemma_branch_encloses_objects(self.boxes@, self.branches@, self.root as nat);
            assert forall|k: int| 0 <= k < self.boxes@.len() implies self.branches@[self.root as int].bbox.encloses(#[trigger] self.boxes@[k]) by {
                assert(0 <= k < n);
                assert(indices_below(self.boxes@.len()).contains(k as usize));
            }
        }
        self.branches[self.root].bbox
    }
}

} // verus!
