use pointcloud_playground::Vector3;

#[test]
fn vector_addition_works() {
    let a = Vector3::new(1, 1, 1);
    let b = Vector3::new(1, 1, 1);

    let c = a.add(b);

    assert_eq!(c.x, 2);
    assert_eq!(c.y, 2);
    assert_eq!(c.z, 2);
}

#[test]
fn vector_subtraction_works() {
    let a = Vector3::new(1, 1, 1);
    let b = Vector3::new(1, 1, 1);

    let c = a.sub(b);

    assert_eq!(c.x, 0);
    assert_eq!(c.y, 0);
    assert_eq!(c.z, 0);
}

#[test]
fn vector_addition_commutes() {
    let a = Vector3::new(1, -2, 3);
    let b = Vector3::new(10, 20, -30);

    assert_eq!(a.add(b), b.add(a));
}

#[test]
fn vector_subtracted_from_itself_is_zero() {
    let a = Vector3::new(17, -4, 9);

    assert_eq!(a.sub(a), Vector3::new(0, 0, 0));
}
