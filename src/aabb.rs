//! Axis-aligned bounding boxes over ordered coordinate keys.
use vstd::prelude::*;

verus! {

/// A point whose three coordinates are ordered keys (see `crate::key`).
#[derive(Clone, Copy, Debug, PartialEq, Eq, Structural)]
pub struct KeyPoint {
    pub x: u64,
    pub y: u64,
    pub z: u64,
}

pub open spec fn min_u64(a: u64, b: u64) -> u64 {
    if a <= b { a } else { b }
}

pub open spec fn max_u64(a: u64, b: u64) -> u64 {
    if a >= b { a } else { b }
}

impl KeyPoint {
    pub fn new(x: u64, y: u64, z: u64) -> (p: KeyPoint)
        ensures
            p == (KeyPoint { x, y, z }),
    {
        KeyPoint { x, y, z }
    }

    /// Coordinate along axis `a` (0 for x, 1 for y, 2 for z).
    pub open spec fn at(self, a: int) -> u64 {
        if a == 0 { self.x } else if a == 1 { self.y } else { self.z }
    }

    /// Coordinate along axis `a`; any axis past 1 reads z.
    pub fn d(&self, a: usize) -> (r: u64)
        ensures
            r == self.at(a as int),
    {
        if a == 0 { self.x } else if a == 1 { self.y } else { self.z }
    }

    /// Every coordinate of `self` is at most that of `o`.
    pub open spec fn le(self, o: KeyPoint) -> bool {
        self.x <= o.x && self.y <= o.y && self.z <= o.z
    }

    pub open spec fn min_spec(self, o: KeyPoint) -> KeyPoint {
        KeyPoint { x: min_u64(self.x, o.x), y: min_u64(self.y, o.y), z: min_u64(self.z, o.z) }
    }

    pub open spec fn max_spec(self, o: KeyPoint) -> KeyPoint {
        KeyPoint { x: max_u64(self.x, o.x), y: max_u64(self.y, o.y), z: max_u64(self.z, o.z) }
    }

    /// Component-wise minimum.
    pub fn min(&self, o: &KeyPoint) -> (r: KeyPoint)
        ensures
            r == self.min_spec(*o),
    {
        KeyPoint {
            x: if self.x <= o.x { self.x } else { o.x },
            y: if self.y <= o.y { self.y } else { o.y },
            z: if self.z <= o.z { self.z } else { o.z },
        }
    }

    /// Component-wise maximum.
    pub fn max(&self, o: &KeyPoint) -> (r: KeyPoint)
        ensures
            r == self.max_spec(*o),
    {
        KeyPoint {
            x: if self.x >= o.x { self.x } else { o.x },
            y: if self.y >= o.y { self.y } else { o.y },
            z: if self.z >= o.z { self.z } else { o.z },
        }
    }
}

/// A box given by its least and greatest corners.
#[derive(Clone, Copy, Debug, PartialEq, Eq, Structural)]
pub struct Aabb {
    pub min: KeyPoint,
    pub max: KeyPoint,
}

impl Aabb {
    pub fn new(min: KeyPoint, max: KeyPoint) -> (b: Aabb)
        ensures
            b == (Aabb { min, max }),
    {
        Aabb { min, max }
    }

    /// The least corner lies below the greatest on every axis.
    pub open spec fn wf(self) -> bool {
        self.min.le(self.max)
    }

    /// `self` encloses `inner`.
    pub open spec fn encloses(self, inner: Aabb) -> bool {
        self.min.le(inner.min) && inner.max.le(self.max)
    }

    /// Whether `self` encloses `inner`.
    pub fn contains(&self, inner: &Aabb) -> (r: bool)
        ensures
            r == self.encloses(*inner),
    {
        self.min.x <= inner.min.x && self.min.y <= inner.min.y && self.min.z <= inner.min.z
            && inner.max.x <= self.max.x && inner.max.y <= self.max.y && inner.max.z
            <= self.max.z
    }
}

pub open spec fn surrounding_spec(a: Aabb, b: Aabb) -> Aabb {
    Aabb { min: a.min.min_spec(b.min), max: a.max.max_spec(b.max) }
}

/// The smallest box enclosing both `box0` and `box1`.
pub fn surrounding_box(box0: Aabb, box1: Aabb) -> (r: Aabb)
    ensures
        r == surrounding_spec(box0, box1),
        r.encloses(box0),
        r.encloses(box1),
        box0.wf() ==> r.wf(),
{
    Aabb { min: box0.min.min(&box1.min), max: box0.max.max(&box1.max) }
}

/// Union of boxes is commutative.
pub proof fn lemma_surrounding_commutative(a: Aabb, b: Aabb)
    ensures
        surrounding_spec(a, b) == surrounding_spec(b, a),
{
}

/// Union of boxes is associative.
pub proof fn lemma_surrounding_associative(a: Aabb, b: Aabb, c: Aabb)
    ensures
        surrounding_spec(surrounding_spec(a, b), c) == surrounding_spec(a, surrounding_spec(b, c)),
{
}

/// The union encloses both boxes, and is enclosed by every box that
/// encloses both.
pub proof fn lemma_surrounding_least(a: Aabb, b: Aabb, c: Aabb)
    ensures
        surrounding_spec(a, b).encloses(a),
        surrounding_spec(a, b).encloses(b),
        c.encloses(a) && c.encloses(b) ==> c.encloses(surrounding_spec(a, b)),
{
}

/// Enclosing is transitive.
pub proof fn lemma_encloses_transitive(a: Aabb, b: Aabb, c: Aabb)
    requires
        a.encloses(b),
        b.encloses(c),
    ensures
        a.encloses(c),
{
}

/// Union of the first `n` boxes of `boxes`, folded from the front; the first
/// box alone when `n` is 1.
pub open spec fn union_prefix(boxes: Seq<Aabb>, n: nat) -> Aabb
    decreases n,
{
    if n <= 1 {
        boxes[0]
    } else {
        surrounding_spec(union_prefix(boxes, (n - 1) as nat), boxes[n - 1])
    }
}

/// The box of a list of objects whose boxes are `boxes`: the union of them
/// all, or `None` when the list is empty or one of its objects has no box.
pub fn list_bounding_box(boxes: &Vec<Option<Aabb>>) -> (r: Option<Aabb>)
    ensures
        r.is_some() == (boxes@.len() > 0 && forall|k: int|
            0 <= k < boxes@.len() ==> (#[trigger] boxes@[k]).is_some()),
        r matches Some(b) ==> {
            &&& b == union_prefix(boxes@.map_values(|o: Option<Aabb>| o->0), boxes@.len())
            &&& forall|k: int| 0 <= k < boxes@.len() ==> b.encloses((#[trigger] boxes@[k])->0)
        },
{
    let ghost flat = boxes@.map_values(|o: Option<Aabb>| o->0);
    if boxes.len() == 0 {
        return None;
    }
    let mut acc = match boxes[0] {
        Some(b) => b,
        None => {
            return None;
        },
    };
    let mut k: usize = 1;
    while k < boxes.len()
        invariant
            1 <= k <= boxes@.len(),
            flat == boxes@.map_values(|o: Option<Aabb>| o->0),
            forall|i: int| 0 <= i < k ==> (#[trigger] boxes@[i]).is_some(),
            acc == union_prefix(flat, k as nat),
            forall|i: int| 0 <= i < k ==> acc.encloses((#[trigger] boxes@[i])->0),
        decreases boxes@.len() - k,
    {
        match boxes[k] {
            Some(b) => {
                let next = surrounding_box(acc, b);
                proof {
                    assert(flat[k as int] == b);
                    assert forall|i: int| 0 <= i < k + 1 implies next.encloses((#[trigger] boxes@[i])->0) by {
                        if i < k {
                            lemma_encloses_transitive(next, acc, boxes@[i]->0);
                        }
                    }
                }
                acc = next;
            },
            None => {
                return None;
            },
        }
        k = k + 1;
    }
    Some(acc)
}

} // verus!
