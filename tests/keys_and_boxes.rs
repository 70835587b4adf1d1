use weekend::aabb::{list_bounding_box, surrounding_box, Aabb, KeyPoint};
use weekend::key::{key_bits, order_key};

fn k(x: f64) -> u64 {
    order_key(x.to_bits())
}

fn kp(x: f64, y: f64, z: f64) -> KeyPoint {
    KeyPoint::new(k(x), k(y), k(z))
}

fn bx(a: (f64, f64, f64), b: (f64, f64, f64)) -> Aabb {
    Aabb::new(kp(a.0, a.1, a.2), kp(b.0, b.1, b.2))
}

#[test]
fn keys_follow_the_order_of_doubles() {
    let xs = [
        f64::NEG_INFINITY,
        -1.0e300,
        -2.5,
        -1.0,
        -1.0e-300,
        -0.0,
        0.0,
        1.0e-300,
        0.001,
        1.0,
        2.5,
        1.0e300,
        f64::INFINITY,
    ];
    for w in xs.windows(2) {
        assert!(k(w[0]) < k(w[1]), "{} {}", w[0], w[1]);
    }
}

#[test]
fn keys_have_exact_values() {
    assert_eq!(order_key(0), 0x8000_0000_0000_0000);
    assert_eq!(order_key(0x8000_0000_0000_0000), 0x7fff_ffff_ffff_ffff);
    assert_eq!(order_key(1.0f64.to_bits()), 0x8000_0000_0000_0000 | 0x3ff0_0000_0000_0000);
    assert_eq!(order_key((-1.0f64).to_bits()), !0xbff0_0000_0000_0000u64);
}

#[test]
fn keys_decode_to_their_doubles() {
    for x in [-3.75, -0.0, 0.0, 0.5, 123456.789, f64::MAX, f64::MIN_POSITIVE] {
        let back = f64::from_bits(key_bits(k(x)));
        assert_eq!(back.to_bits(), x.to_bits());
    }
    for key in [0u64, 1, 0x7fff_ffff_ffff_ffff, 0x8000_0000_0000_0000, u64::MAX] {
        assert_eq!(order_key(key_bits(key)), key);
    }
}

#[test]
fn surrounding_box_is_componentwise_min_and_max() {
    let a = bx((0.0, -1.0, 2.0), (1.0, 1.0, 3.0));
    let b = bx((-2.0, 0.5, 2.5), (0.5, 4.0, 2.75));
    let u = surrounding_box(a, b);
    assert_eq!(u, bx((-2.0, -1.0, 2.0), (1.0, 4.0, 3.0)));
}

#[test]
fn surrounding_box_is_commutative_and_associative() {
    let a = bx((0.0, 0.0, 0.0), (1.0, 1.0, 1.0));
    let b = bx((-5.0, 2.0, 0.5), (-4.0, 3.0, 0.75));
    let c = bx((10.0, -10.0, -1.0), (11.0, 10.0, 1.0));
    assert_eq!(surrounding_box(a, b), surrounding_box(b, a));
    assert_eq!(
        surrounding_box(surrounding_box(a, b), c),
        surrounding_box(a, surrounding_box(b, c))
    );
}

#[test]
fn surrounding_box_contains_both() {
    let a = bx((0.0, 0.0, 0.0), (1.0, 1.0, 1.0));
    let b = bx((-5.0, 2.0, 0.5), (-4.0, 3.0, 0.75));
    let u = surrounding_box(a, b);
    assert!(u.contains(&a));
    assert!(u.contains(&b));
    assert!(!a.contains(&u));
    assert!(!a.contains(&b));
}

#[test]
fn list_box_of_empty_or_unbounded_list_is_none() {
    assert_eq!(list_bounding_box(&vec![]), None);
    let a = bx((0.0, 0.0, 0.0), (1.0, 1.0, 1.0));
    assert_eq!(list_bounding_box(&vec![Some(a), None]), None);
}

#[test]
fn list_box_is_union_of_all() {
    let a = bx((0.0, 0.0, 0.0), (1.0, 1.0, 1.0));
    let b = bx((-5.0, 2.0, 0.5), (-4.0, 3.0, 0.75));
    let c = bx((10.0, -10.0, -1.0), (11.0, 10.0, 1.0));
    assert_eq!(list_bounding_box(&vec![Some(a)]), Some(a));
    assert_eq!(
        list_bounding_box(&vec![Some(a), Some(b), Some(c)]),
        Some(bx((-5.0, -10.0, -1.0), (11.0, 10.0, 1.0)))
    );
}
