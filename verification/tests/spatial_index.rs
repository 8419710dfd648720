use rusty_sat::error::Result;
use rusty_sat::number::F64;
use rusty_sat::spatial_index::{KdPointIndex2D, NearestPoint, Point2D};

fn bits(value: f64) -> F64 {
    F64::from_bits(value.to_bits())
}

fn plain(value: F64) -> f64 {
    f64::from_bits(value.to_bits())
}

fn all_bits(values: &[f64]) -> Vec<F64> {
    values.iter().map(|value| bits(*value)).collect()
}

fn square(value: F64) -> F64 {
    bits(plain(value) * plain(value))
}

fn root(value: F64) -> F64 {
    bits(plain(value).sqrt())
}

/// The squared distance of two positions.
fn squared(px: F64, py: F64, x: F64, y: F64) -> F64 {
    let dx = plain(px) - plain(x);
    let dy = plain(py) - plain(y);
    bits(dx * dx + dy * dy)
}

/// Whether a coordinate comes before that of a point, and the squared way between them.
fn side_gap(query: F64, node: F64) -> (bool, F64) {
    let diff = plain(query) - plain(node);
    (diff <= 0.0, bits(diff * diff))
}

fn nearest_point(
    index: &KdPointIndex2D,
    x: f64,
    y: f64,
    radius_of_influence: Option<f64>,
) -> Result<Option<NearestPoint>> {
    index.nearest(
        bits(x),
        bits(y),
        radius_of_influence.map(bits),
        &squared,
        &side_gap,
        &square,
        &root,
    )
}

#[test]
fn kd_index_finds_nearest_point() {
    let index = KdPointIndex2D::from_points(vec![
        Point2D::new(0, bits(-1.0), bits(0.0)).unwrap(),
        Point2D::new(1, bits(2.0), bits(0.0)).unwrap(),
        Point2D::new(2, bits(0.25), bits(0.25)).unwrap(),
    ]);

    let nearest = nearest_point(&index, 0.0, 0.0, None).unwrap().unwrap();

    assert_eq!(nearest.index(), 2);
    assert!((plain(nearest.distance()) - (0.125_f64).sqrt()).abs() < 1e-12);
}

#[test]
fn kd_index_respects_radius_of_influence() {
    let index = KdPointIndex2D::from_xy(&all_bits(&[0.0, 10.0]), &all_bits(&[0.0, 10.0])).unwrap();

    assert_eq!(
        nearest_point(&index, 0.2, 0.0, Some(0.25))
            .unwrap()
            .unwrap()
            .index(),
        0
    );
    assert_eq!(nearest_point(&index, 1.0, 1.0, Some(0.25)).unwrap(), None);
}

#[test]
fn kd_index_skips_non_finite_source_points() {
    let index = KdPointIndex2D::from_xy(&all_bits(&[f64::NAN, 3.0]), &all_bits(&[1.0, 4.0])).unwrap();

    assert_eq!(index.len(), 1);
    assert_eq!(nearest_point(&index, 3.1, 4.0, None).unwrap().unwrap().index(), 1);
}

#[test]
fn kd_index_prefers_lowest_source_index_for_ties() {
    let index = KdPointIndex2D::from_xy(&all_bits(&[-1.0, 1.0]), &all_bits(&[0.0, 0.0])).unwrap();

    assert_eq!(nearest_point(&index, 0.0, 0.0, None).unwrap().unwrap().index(), 0);
}

#[test]
fn kd_index_returns_none_for_empty_tree() {
    let index = KdPointIndex2D::from_xy(&all_bits(&[]), &all_bits(&[])).unwrap();

    assert!(index.is_empty());
    assert_eq!(nearest_point(&index, 0.0, 0.0, None).unwrap(), None);
}

#[test]
fn kd_index_rejects_mismatched_xy_lengths() {
    let err = KdPointIndex2D::from_xy(&all_bits(&[0.0, 1.0]), &all_bits(&[0.0])).err().unwrap();
    assert!(err.message().contains("lengths differ"));
}

#[test]
fn kd_index_rejects_non_finite_query_coordinates() {
    let index = KdPointIndex2D::from_xy(&all_bits(&[0.0]), &all_bits(&[0.0])).unwrap();

    assert!(nearest_point(&index, f64::NAN, 0.0, None).is_err());
    assert!(nearest_point(&index, 0.0, f64::INFINITY, None).is_err());
}

#[test]
fn kd_index_rejects_negative_radius() {
    let index = KdPointIndex2D::from_xy(&all_bits(&[0.0]), &all_bits(&[0.0])).unwrap();

    assert!(nearest_point(&index, 0.0, 0.0, Some(-0.5)).is_err());
}
