use spatialgraph::geopoint::GeoPoint;

#[test]
fn distance_three_four_five() {
    let a = GeoPoint::new(0, 0, 0);
    let b = GeoPoint::new(1, 3, 4);
    assert_eq!(a.distance_to(&b), 5);
}

#[test]
fn distance_is_symmetric() {
    let a = GeoPoint::new(0, 17, 2);
    let b = GeoPoint::new(1, 3, 40);
    assert_eq!(a.distance_to(&b), b.distance_to(&a));
    let c = GeoPoint::new(2, 1000, 0);
    let d = GeoPoint::new(3, 0, 999);
    assert_eq!(c.distance_to(&d), d.distance_to(&c));
}

#[test]
fn distance_to_self_is_zero() {
    let a = GeoPoint::new(0, 123, 456);
    let b = GeoPoint::new(1, 123, 456);
    assert_eq!(a.distance_to(&a), 0);
    assert_eq!(a.distance_to(&b), 0);
}

#[test]
fn distance_floors() {
    // sqrt(8) = 2.828..., floored to 2
    let a = GeoPoint::new(0, 0, 0);
    let b = GeoPoint::new(1, 2, 2);
    assert_eq!(a.distance_to(&b), 2);
    // sqrt(2) floored to 1
    let c = GeoPoint::new(2, 1, 1);
    assert_eq!(a.distance_to(&c), 1);
}

#[test]
fn distance_axis_aligned() {
    let a = GeoPoint::new(0, 0, 7);
    let b = GeoPoint::new(1, 0, 17);
    assert_eq!(a.distance_to(&b), 10);
}

#[test]
fn distance_clamps_on_overflow() {
    let a = GeoPoint::new(0, 0, 0);
    let b = GeoPoint::new(1, usize::MAX, usize::MAX);
    assert_eq!(a.distance_to(&b), usize::MAX);
}

#[test]
fn point_accessors() {
    let p = GeoPoint::new(4, 10, 20);
    assert_eq!(p.id(), 4);
    assert_eq!(p.x(), 10);
    assert_eq!(p.y(), 20);
    assert!(p.neighbors().is_empty());
    assert!(p.weights().is_empty());
}
