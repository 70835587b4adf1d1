use rand::rngs::StdRng;
use rand::{Rng, SeedableRng};
use weekend::aabb::{list_bounding_box, Aabb, KeyPoint};
use weekend::bvh::{sort_by_axis, BvhChild, BvhNode};
use weekend::closest::closest_hit;
use weekend::key::{key_bits, order_key};
use weekend::traverse::Traversal;

fn k(x: f64) -> u64 {
    order_key(x.to_bits())
}

fn unk(key: u64) -> f64 {
    f64::from_bits(key_bits(key))
}

/// Box of a sphere of radius `r` centred at (`x`, `y`, `z`).
fn sphere_box(x: f64, y: f64, z: f64, r: f64) -> Aabb {
    Aabb::new(
        KeyPoint::new(k(x - r), k(y - r), k(z - r)),
        KeyPoint::new(k(x + r), k(y + r), k(z + r)),
    )
}

fn objects_of(tree: &BvhNode, c: BvhChild, out: &mut Vec<usize>) {
    match c {
        BvhChild::Object(o) => out.push(o),
        BvhChild::Branch(b) => {
            assert!(b < tree.branches.len());
            objects_of(tree, tree.branches[b].left, out);
            objects_of(tree, tree.branches[b].right, out);
        }
    }
}

fn row_of_spheres(n: usize) -> Vec<Option<Aabb>> {
    (0..n).map(|i| Some(sphere_box(3.0 * i as f64, 0.5 * (i % 3) as f64, -1.0, 1.0))).collect()
}

#[test]
fn single_object_is_both_children() {
    let mut rng = StdRng::seed_from_u64(1);
    let boxes = row_of_spheres(1);
    let tree = BvhNode::new(&mut rng, &boxes, 0, 1);
    assert_eq!(tree.branches.len(), 1);
    assert_eq!(tree.branches[0].left, BvhChild::Object(0));
    assert_eq!(tree.branches[0].right, BvhChild::Object(0));
    assert_eq!(tree.bounding_box(), boxes[0].unwrap());
}

#[test]
fn two_objects_greater_least_corner_first() {
    // `a` lies above `b` on every axis, so whichever axis is drawn `a` goes first
    let a = Aabb::new(KeyPoint::new(k(5.0), k(3.0), k(2.0)), KeyPoint::new(k(6.0), k(4.0), k(3.0)));
    let b = Aabb::new(KeyPoint::new(k(1.0), k(0.0), k(-1.0)), KeyPoint::new(k(2.0), k(1.0), k(0.0)));
    for seed in 0..8 {
        let mut rng = StdRng::seed_from_u64(seed);
        let tree = BvhNode::new(&mut rng, &vec![Some(b), Some(a)], 0, 2);
        assert_eq!(tree.branches.len(), 1);
        assert_eq!(tree.branches[0].left, BvhChild::Object(1));
        assert_eq!(tree.branches[0].right, BvhChild::Object(0));
        let tree = BvhNode::new(&mut rng, &vec![Some(a), Some(b)], 0, 2);
        assert_eq!(tree.branches[0].left, BvhChild::Object(0));
        assert_eq!(tree.branches[0].right, BvhChild::Object(1));
        assert_eq!(tree.bounding_box(), Aabb::new(b.min, a.max));
    }
}

#[test]
fn hierarchy_covers_every_object_and_boxes_enclose() {
    for n in [2usize, 3, 5, 10, 33] {
        let mut rng = StdRng::seed_from_u64(n as u64);
        let boxes = row_of_spheres(n);
        let tree = BvhNode::new(&mut rng, &boxes, 0, n);
        assert_eq!(tree.root + 1, tree.branches.len());
        assert!(tree.branches.len() <= 2 * n - 1);
        let mut seen = Vec::new();
        objects_of(&tree, BvhChild::Branch(tree.root), &mut seen);
        seen.sort();
        seen.dedup();
        assert_eq!(seen, (0..n).collect::<Vec<_>>());
        assert_eq!(Some(tree.bounding_box()), list_bounding_box(&boxes));
        for (i, br) in tree.branches.iter().enumerate() {
            for c in [br.left, br.right] {
                match c {
                    BvhChild::Object(o) => assert!(br.bbox.contains(&tree.boxes[o])),
                    BvhChild::Branch(b) => {
                        assert!(b < i);
                        assert!(br.bbox.contains(&tree.branches[b].bbox));
                    }
                }
            }
        }
    }
}

#[test]
fn branches_split_halves_along_one_axis() {
    for n in [3usize, 4, 7, 16, 29] {
        let mut rng = StdRng::seed_from_u64(100 + n as u64);
        let boxes: Vec<Option<Aabb>> = (0..n)
            .map(|i| {
                let f = i as f64;
                Some(sphere_box((f * 7.3) % 11.0, (f * 3.1) % 5.0, -(f * 1.7) % 9.0, 0.5))
            })
            .collect();
        let tree = BvhNode::new(&mut rng, &boxes, 0, n);
        for br in tree.branches.iter() {
            if let (BvhChild::Branch(_), BvhChild::Branch(_)) = (br.left, br.right) {
                let (mut lo, mut hi) = (Vec::new(), Vec::new());
                objects_of(&tree, br.left, &mut lo);
                objects_of(&tree, br.right, &mut hi);
                lo.sort();
                lo.dedup();
                hi.sort();
                hi.dedup();
                assert_eq!(lo.len(), (lo.len() + hi.len()) / 2);
                assert!(lo.iter().all(|o| !hi.contains(o)));
                let ordered = (0..3usize).any(|a| {
                    lo.iter().all(|&o| hi.iter().all(|&p| tree.boxes[o].min.d(a) <= tree.boxes[p].min.d(a)))
                });
                assert!(ordered);
            }
        }
    }
}

#[test]
fn sub_range_objects_are_relative_to_start() {
    let mut rng = StdRng::seed_from_u64(3);
    let boxes = row_of_spheres(6);
    let tree = BvhNode::new(&mut rng, &boxes, 2, 5);
    assert_eq!(tree.first, 2);
    assert_eq!(tree.boxes.len(), 3);
    assert_eq!(tree.boxes[0], boxes[2].unwrap());
    assert_eq!(Some(tree.bounding_box()), list_bounding_box(&boxes[2..5].to_vec()));
}

#[test]
fn seeded_construction_is_reproducible() {
    let boxes = row_of_spheres(50);
    let mut r1 = StdRng::seed_from_u64(2024);
    let mut r2 = StdRng::seed_from_u64(2024);
    let t1 = BvhNode::new(&mut r1, &boxes, 0, 50);
    let t2 = BvhNode::new(&mut r2, &boxes, 0, 50);
    assert_eq!(t1.branches, t2.branches);
    assert_eq!(t1.root, t2.root);
}

#[test]
fn sort_by_axis_orders_least_corners() {
    let boxes: Vec<Aabb> = [4.0, -2.0, 7.5, 0.0, -2.0]
        .iter()
        .map(|&x| sphere_box(x, -x, 0.0, 0.5))
        .collect();
    let mut items = vec![0usize, 1, 2, 3, 4];
    sort_by_axis(&boxes, 0, &mut items);
    let xs: Vec<u64> = items.iter().map(|&i| boxes[i].min.x).collect();
    assert!(xs.windows(2).all(|w| w[0] <= w[1]));
    assert_eq!(items[4], 2);
    assert_eq!(items[2], 3);
    let mut ys = items.clone();
    sort_by_axis(&boxes, 1, &mut ys);
    assert_eq!(ys[0], 2);
    let mut sorted = ys.clone();
    sorted.sort();
    assert_eq!(sorted, vec![0, 1, 2, 3, 4]);
}

#[test]
fn closest_hit_picks_least_below_bound_first_on_ties() {
    let hits = vec![None, Some(k(3.0)), Some(k(1.5)), Some(k(1.5)), Some(k(0.25))];
    assert_eq!(closest_hit(&hits, k(f64::INFINITY)), Some((4, k(0.25))));
    let hits = vec![None, Some(k(3.0)), Some(k(1.5)), Some(k(1.5))];
    assert_eq!(closest_hit(&hits, k(10.0)), Some((2, k(1.5))));
    assert_eq!(closest_hit(&hits, k(1.5)), None);
    assert_eq!(closest_hit(&vec![], k(1.0)), None);
}

/// Distance along the ray from `o` in direction `d` to the sphere's first
/// crossing after `t_min`, when there is one.
fn sphere_hit(o: [f64; 3], d: [f64; 3], c: [f64; 3], r: f64, t_min: f64) -> Option<f64> {
    let oc = [o[0] - c[0], o[1] - c[1], o[2] - c[2]];
    let a = d[0] * d[0] + d[1] * d[1] + d[2] * d[2];
    let hb = oc[0] * d[0] + oc[1] * d[1] + oc[2] * d[2];
    let cc = oc[0] * oc[0] + oc[1] * oc[1] + oc[2] * oc[2] - r * r;
    let disc = hb * hb - a * cc;
    if disc <= 0.0 {
        return None;
    }
    let root = disc.sqrt();
    let t0 = (-hb - root) / a;
    if t0 > t_min {
        return Some(t0);
    }
    let t1 = (-hb + root) / a;
    if t1 > t_min {
        return Some(t1);
    }
    None
}

fn slab_hit(b: &Aabb, o: [f64; 3], d: [f64; 3], t_min: f64, t_max: f64) -> bool {
    let lo = [unk(b.min.x), unk(b.min.y), unk(b.min.z)];
    let hi = [unk(b.max.x), unk(b.max.y), unk(b.max.z)];
    let (mut a, mut z) = (t_min, t_max);
    for ax in 0..3 {
        let inv = 1.0 / d[ax];
        let mut t0 = (lo[ax] - o[ax]) * inv;
        let mut t1 = (hi[ax] - o[ax]) * inv;
        if inv < 0.0 {
            std::mem::swap(&mut t0, &mut t1);
        }
        a = if t0 > a { t0 } else { a };
        z = if t1 < z { t1 } else { z };
        if z <= a {
            return false;
        }
    }
    true
}

#[test]
fn traversal_agrees_with_linear_scan_on_random_rays() {
    let mut rng = StdRng::seed_from_u64(99);
    let mut centers = Vec::new();
    for i in 0..4 {
        for j in 0..4 {
            centers.push([3.0 * i as f64, 3.0 * j as f64, -10.0 - (i + j) as f64]);
        }
    }
    let r = 1.0;
    let boxes: Vec<Option<Aabb>> = centers.iter().map(|c| Some(sphere_box(c[0], c[1], c[2], r))).collect();
    let tree = BvhNode::new(&mut rng, &boxes, 0, boxes.len());
    let t_min = 0.001;
    let mut met = 0;
    for _ in 0..100 {
        let o = [rng.gen_range(-2.0..11.0), rng.gen_range(-2.0..11.0), 0.0];
        let d = [rng.gen_range(-0.3..0.3), rng.gen_range(-0.3..0.3), -1.0];
        let hits: Vec<Option<u64>> = centers.iter().map(|c| sphere_hit(o, d, *c, r, t_min).map(k)).collect();
        let scan = closest_hit(&hits, k(f64::INFINITY));
        let mut tr = Traversal::new(&tree, k(f64::INFINITY));
        while let Some(c) = tr.next() {
            let bound = unk(tr.bound());
            match c {
                BvhChild::Branch(b) => {
                    if slab_hit(&tree.branches[b].bbox, o, d, t_min, bound) {
                        tr.enter(&tree, b);
                    }
                }
                BvhChild::Object(ob) => {
                    if let Some(t) = sphere_hit(o, d, centers[ob], r, t_min) {
                        assert_eq!(tr.offer(ob, k(t)), t < bound);
                    }
                }
            }
        }
        assert_eq!(tr.result().map(|p| p.1), scan.map(|p| p.1));
        if scan.is_some() {
            met += 1;
        }
    }
    assert!(met > 10);
}
