use ray_tracing::bounding_box::BoundingBox;
use ray_tracing::num::{max, min, ONE, ZERO};
use ray_tracing::vec3::Vec3;

fn key(x: f64) -> i64 {
    let bits = x.to_bits() as i64;
    if bits < 0 {
        bits ^ i64::MAX
    } else {
        bits
    }
}

fn vec(x: f64, y: f64, z: f64) -> Vec3 {
    Vec3::new(key(x), key(y), key(z))
}

#[test]
fn keys_of_zero_and_one() {
    assert_eq!(ZERO, key(0.0));
    assert_eq!(ONE, key(1.0));
}

#[test]
fn keys_keep_the_order_of_numbers() {
    let numbers = [-1.0e300, -2.5, -1.0, -1.0e-300, 0.0, 1.0e-300, 0.001, 0.5, 1.0, 2.0, f64::MAX];
    for w in numbers.windows(2) {
        assert!(key(w[0]) < key(w[1]));
    }
    assert!(key(f64::NEG_INFINITY) < key(-1.0e300));
    assert!(key(f64::MAX) < key(f64::INFINITY));
}

#[test]
fn max_and_min_of_two_numbers() {
    assert_eq!(max(key(1.0), key(2.0)), key(2.0));
    assert_eq!(max(key(2.0), key(1.0)), key(2.0));
    assert_eq!(min(key(1.0), key(2.0)), key(1.0));
    assert_eq!(min(key(-3.0), key(-2.0)), key(-3.0));
    assert_eq!(max(key(-3.0), key(-2.0)), key(-2.0));
    assert_eq!(max(key(0.25), key(0.25)), key(0.25));
    assert_eq!(min(key(0.25), key(0.25)), key(0.25));
}

#[test]
fn vec3_holds_its_components() {
    let v = vec(1.0, -2.0, 3.5);
    assert_eq!(v.x(), key(1.0));
    assert_eq!(v.y(), key(-2.0));
    assert_eq!(v.z(), key(3.5));
    assert_eq!(v.r(), v.x());
    assert_eq!(v.g(), v.y());
    assert_eq!(v.b(), v.z());
    assert_eq!(Vec3::from_scalar(key(0.5)), vec(0.5, 0.5, 0.5));
    assert_eq!(Vec3::default(), vec(0.0, 0.0, 0.0));
}

#[test]
fn vec3_min_and_max_go_by_component() {
    let a = vec(1.0, 5.0, -3.0);
    let b = vec(2.0, 4.0, -3.5);
    assert_eq!(a.min(&b), vec(1.0, 4.0, -3.5));
    assert_eq!(a.max(&b), vec(2.0, 5.0, -3.0));
    assert_eq!(b.min(&a), a.min(&b));
    assert_eq!(b.max(&a), a.max(&b));
    assert_eq!(a.min_max(&b), (vec(1.0, 4.0, -3.5), vec(2.0, 5.0, -3.0)));
    assert_eq!(a.min_max(&a), (a, a));
}

#[test]
fn bounding_box_keeps_its_corners() {
    let bx = BoundingBox::new(vec(-1.0, -2.0, -3.0), vec(1.0, 2.0, 3.0));
    assert_eq!(bx.min(), vec(-1.0, -2.0, -3.0));
    assert_eq!(bx.max(), vec(1.0, 2.0, 3.0));
    let zero = BoundingBox::default();
    assert_eq!(zero.min(), vec(0.0, 0.0, 0.0));
    assert_eq!(zero.max(), vec(0.0, 0.0, 0.0));
}

#[test]
fn surrounding_box_is_the_hull() {
    let a = BoundingBox::new(vec(-1.0, 0.0, 0.0), vec(1.0, 1.0, 1.0));
    let b = BoundingBox::new(vec(0.0, -2.0, 0.5), vec(0.5, 3.0, 0.75));
    let hull = BoundingBox::new(vec(-1.0, -2.0, 0.0), vec(1.0, 3.0, 1.0));
    assert_eq!(a.surrounding_box(&b), hull);
    assert_eq!(b.surrounding_box(&a), hull);
    assert_eq!(a.surrounding_box(&a), a);
}

#[test]
fn surrounding_box_of_flat_boxes() {
    let point = BoundingBox::new(vec(2.0, 2.0, 2.0), vec(2.0, 2.0, 2.0));
    let sheet = BoundingBox::new(vec(0.0, 0.0, 1.0), vec(1.0, 1.0, 1.0));
    assert_eq!(
        point.surrounding_box(&sheet),
        BoundingBox::new(vec(0.0, 0.0, 1.0), vec(2.0, 2.0, 2.0))
    );
    let zero = BoundingBox::default();
    assert_eq!(
        zero.surrounding_box(&point),
        BoundingBox::new(vec(0.0, 0.0, 0.0), vec(2.0, 2.0, 2.0))
    );
}
