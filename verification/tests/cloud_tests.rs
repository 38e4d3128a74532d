use pointcloud_playground::PointCloud;
use pointcloud_playground::Vector3;

#[test]
fn sub_box_works() {
    let mut cloud = PointCloud::new();
    cloud.add_point(Vector3::new(0, 0, 0));
    cloud.add_point(Vector3::new(2, 2, 2));

    let sub_cloud = cloud.sub_box(Vector3::new(1, 1, 1), Vector3::new(2, 2, 2));

    assert_eq!(sub_cloud.iter_points().len(), 1);
    assert_eq!(sub_cloud.iter_points()[0], Vector3::new(2, 2, 2));
}

#[test]
fn pointcloud_boundary_checking_works() {
    let smaller = Vector3::new(0, 0, 0);
    let bigger = Vector3::new(2, 2, 2);
    let mut cloud = PointCloud::new();
    cloud.add_point(smaller);
    cloud.add_point(bigger);

    let (min, max) = cloud.boundaries();

    assert_eq!(min, smaller);
    assert_eq!(max, bigger);
}

#[test]
fn pointcloud_boundary_checking_wont_fail_on_empty() {
    let cloud = PointCloud::new();
    let (min, max) = cloud.boundaries();

    assert_eq!(Vector3::new(0, 0, 0), min);
    assert_eq!(Vector3::new(0, 0, 0), max);
}

#[test]
fn pointcloud_is_empty_checks() {
    let empty_cloud = PointCloud::new();
    let mut full_cloud = PointCloud::new();
    full_cloud.add_point(Vector3::new(0, 0, 0));
    full_cloud.add_point(Vector3::new(2, 2, 2));

    assert!(empty_cloud.is_empty());
    assert!(full_cloud.is_empty() == false);
}

#[test]
fn boundaries_are_componentwise() {
    let mut cloud = PointCloud::new();
    cloud.add_point(Vector3::new(1, 5, -3));
    cloud.add_point(Vector3::new(2, -1, 0));

    let (min, max) = cloud.boundaries();

    assert_eq!(min, Vector3::new(1, -1, -3));
    assert_eq!(max, Vector3::new(2, 5, 0));
}

#[test]
fn boundaries_contain_every_point() {
    let points = [
        Vector3::new(4, -7, 2),
        Vector3::new(-3, 9, 9),
        Vector3::new(0, 0, -11),
    ];
    let mut cloud = PointCloud::new();
    for p in points.iter() {
        cloud.add_point(*p);
    }

    let (min, max) = cloud.boundaries();

    for p in cloud.iter_points().iter() {
        assert!(min.x <= p.x && p.x <= max.x);
        assert!(min.y <= p.y && p.y <= max.y);
        assert!(min.z <= p.z && p.z <= max.z);
    }
}

#[test]
fn sub_box_keeps_exact_corners() {
    let min = Vector3::new(-1, -1, -1);
    let max = Vector3::new(3, 3, 3);
    let mut cloud = PointCloud::new();
    cloud.add_point(min);
    cloud.add_point(Vector3::new(10, 0, 0));
    cloud.add_point(max);

    let sub_cloud = cloud.sub_box(min, max);

    assert_eq!(sub_cloud.iter_points().len(), 2);
    assert_eq!(sub_cloud.iter_points()[0], min);
    assert_eq!(sub_cloud.iter_points()[1], max);
}

#[test]
fn sub_box_with_inverted_box_is_empty() {
    let mut cloud = PointCloud::new();
    cloud.add_point(Vector3::new(0, 0, 0));
    cloud.add_point(Vector3::new(2, 2, 2));

    let sub_cloud = cloud.sub_box(Vector3::new(3, 3, 3), Vector3::new(1, 1, 1));

    assert!(sub_cloud.is_empty());
}

#[test]
fn sub_box_twice_gives_the_same_points() {
    let min = Vector3::new(0, 0, 0);
    let max = Vector3::new(5, 5, 5);
    let mut cloud = PointCloud::new();
    cloud.add_point(Vector3::new(-2, 1, 1));
    cloud.add_point(Vector3::new(3, 3, 3));
    cloud.add_point(Vector3::new(5, 0, 2));
    cloud.add_point(Vector3::new(6, 6, 6));

    let once = cloud.sub_box(min, max);
    let expected: Vec<Vector3> = once.iter_points().clone();
    let twice = once.sub_box(min, max);

    assert_eq!(twice.iter_points(), &expected);
}

#[test]
fn sub_box_preserves_order() {
    let mut cloud = PointCloud::new();
    cloud.add_point(Vector3::new(2, 2, 2));
    cloud.add_point(Vector3::new(9, 9, 9));
    cloud.add_point(Vector3::new(1, 1, 1));

    let sub_cloud = cloud.sub_box(Vector3::new(0, 0, 0), Vector3::new(5, 5, 5));

    assert_eq!(sub_cloud.iter_points().len(), 2);
    assert_eq!(sub_cloud.iter_points()[0], Vector3::new(2, 2, 2));
    assert_eq!(sub_cloud.iter_points()[1], Vector3::new(1, 1, 1));
}

#[test]
fn is_empty_matches_point_count() {
    let mut cloud = PointCloud::new();
    assert_eq!(cloud.is_empty(), cloud.iter_points().len() == 0);
    cloud.add_point(Vector3::new(1, 2, 3));
    assert_eq!(cloud.is_empty(), cloud.iter_points().len() == 0);
}
