use rusty_sat::area::AreaDefinition;
use rusty_sat::array::Coordinate;
use rusty_sat::error::Result;
use rusty_sat::geometry::{CoordinateDefinition, GeometryDefinition, GeometryKind, GridDefinition};
use rusty_sat::number::F64;
use rusty_sat::swath::SwathDefinition;

fn bits(value: f64) -> F64 {
    F64::from_bits(value.to_bits())
}

fn plain(value: F64) -> f64 {
    f64::from_bits(value.to_bits())
}

fn all_bits(values: &[f64]) -> Vec<F64> {
    values.iter().map(|value| bits(*value)).collect()
}

fn all_plain(values: &[F64]) -> Vec<f64> {
    values.iter().map(|value| plain(*value)).collect()
}

fn close(left: F64, right: F64, abs_tol: f64, rel_tol: f64) -> bool {
    let (left, right) = (plain(left), plain(right));
    if left == right {
        return true;
    }
    let diff = (left - right).abs();
    diff <= abs_tol || diff <= rel_tol * left.abs().max(right.abs())
}

#[test]
fn coordinate_definition_validates_shape_and_coordinates() {
    let definition = CoordinateDefinition::from_lonlats(
        vec![2, 2],
        all_bits(&[0.0, 1.0, 2.0, 3.0]),
        all_bits(&[4.0, 5.0, 6.0, 7.0]),
    )
    .unwrap();

    assert_eq!(definition.kind(), GeometryKind::Coordinate);
    assert_eq!(definition.shape(), vec![2, 2]);
    assert_eq!(definition.ndim(), 2);
    assert_eq!(definition.size(), 4);
}

#[test]
fn coordinate_definition_rejects_mismatched_lengths() {
    let err = CoordinateDefinition::from_lonlats(vec![2, 2], all_bits(&[0.0, 1.0]), all_bits(&[0.0, 1.0]))
        .unwrap_err();

    assert!(err.message().contains("does not match shape"));
}

#[test]
fn coordinate_definition_rejects_non_finite_coordinates() {
    let err =
        CoordinateDefinition::from_lonlats(vec![1], all_bits(&[f64::NAN]), all_bits(&[35.0])).unwrap_err();

    assert!(err.message().contains("coordinates must be finite"));
}

#[test]
fn grid_definition_is_two_dimensional_coordinate_definition() {
    let grid =
        GridDefinition::from_lonlats(1, 2, all_bits(&[140.0, 141.0]), all_bits(&[35.0, 36.0])).unwrap();

    assert_eq!(grid.kind(), GeometryKind::Grid);
    assert_eq!(grid.shape(), vec![1, 2]);
    assert_eq!(all_plain(grid.lons()), [140.0, 141.0]);
}

#[test]
fn coordinate_approximate_equality_matches_pyresample_tolerance_style() {
    let left = CoordinateDefinition::from_lonlats(vec![1], all_bits(&[140.0]), all_bits(&[35.0])).unwrap();
    let right =
        CoordinateDefinition::from_lonlats(vec![1], all_bits(&[140.0 + 1.0e-7]), all_bits(&[35.0])).unwrap();

    assert!(left.approximate_eq(&right, &|a, b| close(a, b, 1.0e-6, 5.0e-9)));
    assert!(!left.approximate_eq(&right, &|a, b| close(a, b, 1.0e-9, 1.0e-12)));
}

#[test]
fn constructs_area_and_swath() {
    let area = AreaDefinition::new("test_area", 10, 20).unwrap();
    assert_eq!(area.id(), "test_area");
    assert_eq!(area.shape(), (10, 20));
    assert_eq!(GeometryDefinition::kind(&area), GeometryKind::Area);
    assert_eq!(GeometryDefinition::shape(&area), vec![10, 20]);
    assert_eq!(GeometryDefinition::ndim(&area), 2);
    assert_eq!(GeometryDefinition::size(&area), 200);
    assert!(!GeometryDefinition::is_empty(&area));

    let swath = SwathDefinition::new(5, 6).unwrap();
    assert_eq!(swath.shape(), (5, 6));
    assert_eq!(GeometryDefinition::kind(&swath), GeometryKind::Swath);
    assert_eq!(GeometryDefinition::shape(&swath), vec![5, 6]);
    assert_eq!(GeometryDefinition::ndim(&swath), 2);
    assert_eq!(GeometryDefinition::size(&swath), 30);
    assert!(!GeometryDefinition::is_empty(&swath));
}
