use pointcloud_playground::ParseError;
use pointcloud_playground::PointCloud;
use pointcloud_playground::Vector3;

#[test]
fn load_reads_points_in_line_order() {
    let cloud = PointCloud::load("header\n1.0, 2.0, 3.0\n4.0, 5.0, 6.0\n").unwrap();

    let points = cloud.iter_points();
    assert_eq!(points.len(), 2);
    assert_eq!(points[0], Vector3::new(1, 2, 3));
    assert_eq!(points[1], Vector3::new(4, 5, 6));
}

#[test]
fn load_rejects_a_bad_number() {
    let result = PointCloud::load("header\nnot,a,number\n");

    assert_eq!(result.unwrap_err(), ParseError { line: 2 });
}

#[test]
fn load_of_empty_text_is_an_empty_cloud() {
    let cloud = PointCloud::load("").unwrap();

    assert!(cloud.is_empty());
}

#[test]
fn load_of_a_lone_header_is_an_empty_cloud() {
    let cloud = PointCloud::load("just a header").unwrap();

    assert!(cloud.is_empty());
}

#[test]
fn load_ignores_fields_beyond_the_third() {
    let cloud = PointCloud::load("header\n7, 8, 9, 10, 11\n").unwrap();

    assert_eq!(cloud.iter_points().len(), 1);
    assert_eq!(cloud.iter_points()[0], Vector3::new(7, 8, 9));
}

#[test]
fn load_rejects_a_blank_data_line() {
    let result = PointCloud::load("header\n1, 2, 3\n\n4, 5, 6\n");

    assert_eq!(result.unwrap_err(), ParseError { line: 3 });
}

#[test]
fn load_rejects_too_few_fields() {
    let result = PointCloud::load("header\n1, 2\n");

    assert_eq!(result.unwrap_err(), ParseError { line: 2 });
}

#[test]
fn load_accepts_signs_and_trimming() {
    let cloud = PointCloud::load("header\n  -5, +7, 0  \n").unwrap();

    assert_eq!(cloud.iter_points()[0], Vector3::new(-5, 7, 0));
}

#[test]
fn load_accepts_zero_fractions_and_leading_zeros() {
    let cloud = PointCloud::load("header\n007, 0.000, 12.\n.0, -0.0, 36\n").unwrap();

    let points = cloud.iter_points();
    assert_eq!(points[0], Vector3::new(7, 0, 12));
    assert_eq!(points[1], Vector3::new(0, 0, 36));
}

#[test]
fn load_rejects_a_nonzero_fraction() {
    let result = PointCloud::load("header\n1.5, 2, 3\n");

    assert_eq!(result.unwrap_err(), ParseError { line: 2 });
}

#[test]
fn load_rejects_a_value_out_of_range() {
    let result = PointCloud::load("header\n99999999999999999999, 0, 0\n");

    assert_eq!(result.unwrap_err(), ParseError { line: 2 });
}

#[test]
fn load_handles_carriage_returns() {
    let cloud = PointCloud::load("header\r\n1, 2, 3\r\n").unwrap();

    assert_eq!(cloud.iter_points().len(), 1);
    assert_eq!(cloud.iter_points()[0], Vector3::new(1, 2, 3));
}

#[test]
fn load_reports_the_first_bad_line() {
    let result = PointCloud::load("header\n1, 2, 3\nbad\nalso bad\n");

    assert_eq!(result.unwrap_err(), ParseError { line: 3 });
}
