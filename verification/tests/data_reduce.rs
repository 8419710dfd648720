use rusty_sat::data_reduce::{
    LonLatBoundaries, lat_grid_boundaries, lonlat_grid_boundaries, validate_grid_shape,
};
use rusty_sat::error::Result;
use rusty_sat::number::F64;

fn bits(value: f64) -> F64 {
    F64::from_bits(value.to_bits())
}

fn plain(value: F64) -> f64 {
    f64::from_bits(value.to_bits())
}

fn all_bits(values: &[f64]) -> Vec<F64> {
    values.iter().map(|value| bits(*value)).collect()
}

fn all_plain(values: &[F64]) -> Vec<f64> {
    values.iter().map(|value| plain(*value)).collect()
}

fn total(values: Vec<F64>) -> F64 {
    bits(values.iter().fold(0.0, |sum, value| sum + plain(*value)))
}

const EARTH_RADIUS_METERS: f64 = 6_370_997.0;

fn minus(a: F64, b: F64) -> F64 {
    bits(plain(a) - plain(b))
}

fn plus(a: F64, b: F64) -> F64 {
    bits(plain(a) + plain(b))
}

/// The way around the globe for a difference of longitudes.
fn wrap(delta: F64) -> F64 {
    let delta = plain(delta);
    bits((delta.abs() - 360.0) * delta.signum())
}

/// The radius of the circle of a latitude.
fn spread(angle: F64) -> F64 {
    bits(plain(angle).to_radians().sin() * EARTH_RADIUS_METERS)
}

/// The angle of a length on a circle.
fn degrees(length: F64, radius: F64) -> F64 {
    bits((plain(length) / plain(radius)).to_degrees())
}

fn get_valid_index_from_lonlat_boundaries(
    boundary_lons: &LonLatBoundaries,
    boundary_lats: &LonLatBoundaries,
    lons: &[f64],
    lats: &[f64],
    radius_of_influence: f64,
) -> Result<Vec<bool>> {
    rusty_sat::data_reduce::get_valid_index_from_lonlat_boundaries(
        boundary_lons,
        boundary_lats,
        &all_bits(lons),
        &all_bits(lats),
        bits(radius_of_influence),
        &minus,
        &plus,
        &wrap,
        &total,
        &spread,
        &degrees,
    )
}

#[allow(clippy::too_many_arguments)]
fn get_valid_index_from_lonlat_grid(
    height: usize,
    width: usize,
    grid_lons: &[f64],
    grid_lats: &[f64],
    lons: &[f64],
    lats: &[f64],
    radius_of_influence: f64,
) -> Result<Vec<bool>> {
    rusty_sat::data_reduce::get_valid_index_from_lonlat_grid(
        height,
        width,
        &all_bits(grid_lons),
        &all_bits(grid_lats),
        &all_bits(lons),
        &all_bits(lats),
        bits(radius_of_influence),
        &minus,
        &plus,
        &wrap,
        &total,
        &spread,
        &degrees,
    )
}

fn square_boundary() -> (LonLatBoundaries, LonLatBoundaries) {
    (
        LonLatBoundaries::new(all_bits(&[0.0, 10.0]), all_bits(&[10.0, 10.0]), all_bits(&[10.0, 0.0]), all_bits(&[0.0, 0.0])).unwrap(),
        LonLatBoundaries::new(all_bits(&[10.0, 10.0]), all_bits(&[10.0, 0.0]), all_bits(&[0.0, 0.0]), all_bits(&[0.0, 10.0])).unwrap(),
    )
}

#[test]
fn lon_grid_boundaries_follow_pyresample_side_order() {
    let values = vec![1.0, 2.0, 3.0, 4.0, 5.0, 6.0];

    let boundaries = lonlat_grid_boundaries(2, 3, &all_bits(&values)).unwrap();

    assert_eq!(all_plain(boundaries.side1()), [1.0, 2.0, 3.0]);
    assert_eq!(all_plain(boundaries.side2()), [3.0, 6.0]);
    assert_eq!(all_plain(boundaries.side3()), [6.0, 5.0, 4.0]);
    assert_eq!(all_plain(boundaries.side4()), [4.0, 1.0]);
}

#[test]
fn lat_grid_boundaries_follow_pyresample_side_order() {
    let values = vec![1.0, 2.0, 3.0, 4.0, 5.0, 6.0];

    let boundaries = lat_grid_boundaries(2, 3, &all_bits(&values)).unwrap();

    assert_eq!(all_plain(boundaries.side1()), [1.0, 2.0, 3.0]);
    assert_eq!(all_plain(boundaries.side2()), [3.0, 6.0]);
    assert_eq!(all_plain(boundaries.side3()), [4.0, 5.0, 6.0]);
    assert_eq!(all_plain(boundaries.side4()), [1.0, 4.0]);
}

#[test]
fn valid_index_from_lonlat_boundaries_filters_square_region() {
    let (boundary_lons, boundary_lats) = square_boundary();
    let lons = vec![5.0, -1.0, 11.0, 5.0, f64::NAN];
    let lats = vec![5.0, 5.0, 5.0, 11.0, 5.0];

    let valid = get_valid_index_from_lonlat_boundaries(
        &boundary_lons,
        &boundary_lats,
        &lons,
        &lats,
        0.0,
    )
    .unwrap();

    assert_eq!(valid, vec![true, false, false, false, false]);
}

#[test]
fn valid_index_from_lonlat_grid_matches_boundary_filter() {
    let grid_lons = vec![0.0, 10.0, 0.0, 10.0];
    let grid_lats = vec![10.0, 10.0, 0.0, 0.0];
    let lons = vec![5.0, 15.0];
    let lats = vec![5.0, 5.0];

    let valid =
        get_valid_index_from_lonlat_grid(2, 2, &grid_lons, &grid_lats, &lons, &lats, 0.0)
            .unwrap();

    assert_eq!(valid, vec![true, false]);
}

#[test]
fn date_line_crossing_accepts_both_lon_segments() {
    let boundary_lons = LonLatBoundaries::new(
        all_bits(&[170.0, -170.0]),
        all_bits(&[-170.0, -170.0]),
        all_bits(&[-170.0, 170.0]),
        all_bits(&[170.0, 170.0]),
    )
    .unwrap();
    let boundary_lats =
        LonLatBoundaries::new(all_bits(&[10.0, 10.0]), all_bits(&[10.0, 0.0]), all_bits(&[0.0, 0.0]), all_bits(&[0.0, 10.0])).unwrap();
    let lons = vec![175.0, -175.0, 0.0];
    let lats = vec![5.0, 5.0, 5.0];

    let valid = get_valid_index_from_lonlat_boundaries(
        &boundary_lons,
        &boundary_lats,
        &lons,
        &lats,
        0.0,
    )
    .unwrap();

    assert_eq!(valid, vec![true, true, false]);
}

#[test]
fn illegal_target_boundary_disables_reduction_like_pyresample() {
    let boundary_lons = LonLatBoundaries::new(all_bits(&[200.0]), all_bits(&[200.0]), all_bits(&[200.0]), all_bits(&[200.0])).unwrap();
    let boundary_lats = LonLatBoundaries::new(all_bits(&[0.0]), all_bits(&[0.0]), all_bits(&[0.0]), all_bits(&[0.0])).unwrap();
    let lons = vec![0.0, f64::NAN];
    let lats = vec![0.0, 0.0];

    let valid = get_valid_index_from_lonlat_boundaries(
        &boundary_lons,
        &boundary_lats,
        &lons,
        &lats,
        0.0,
    )
    .unwrap();

    assert_eq!(valid, vec![true, true]);
}

#[test]
fn north_pole_area_filters_by_lat_min() {
    let boundary_lons =
        LonLatBoundaries::new(all_bits(&[0.0, 90.0]), all_bits(&[90.0, 90.0]), all_bits(&[90.0, 0.0]), all_bits(&[0.0, 0.0])).unwrap();
    let boundary_lats =
        LonLatBoundaries::new(all_bits(&[80.0, 80.0]), all_bits(&[80.0, 90.0]), all_bits(&[90.0, 90.0]), all_bits(&[90.0, 80.0])).unwrap();
    let lons = vec![45.0, 180.0];
    let lats = vec![85.0, 70.0];

    let valid = get_valid_index_from_lonlat_boundaries(
        &boundary_lons,
        &boundary_lats,
        &lons,
        &lats,
        0.0,
    )
    .unwrap();

    assert_eq!(valid, vec![true, false]);
}

#[test]
fn radius_of_influence_expands_acceptance_region() {
    let (boundary_lons, boundary_lats) = square_boundary();
    let lons = vec![9.5, 10.2];
    let lats = vec![5.0, 5.0];

    let tight = get_valid_index_from_lonlat_boundaries(
        &boundary_lons,
        &boundary_lats,
        &lons,
        &lats,
        0.0,
    )
    .unwrap();
    let wide = get_valid_index_from_lonlat_boundaries(
        &boundary_lons,
        &boundary_lats,
        &lons,
        &lats,
        100_000.0,
    )
    .unwrap();

    assert_eq!(tight, vec![true, false]);
    assert_eq!(wide, vec![true, true]);
}

#[test]
fn validate_grid_shape_rejects_zero_dimensions() {
    assert!(validate_grid_shape(0, 1, 0).is_err());
    assert!(validate_grid_shape(1, 0, 0).is_err());
}

#[test]
fn a_larger_radius_keeps_every_point() {
    let (boundary_lons, boundary_lats) = square_boundary();
    let mut lons = Vec::new();
    let mut lats = Vec::new();
    for i in 0..40 {
        for j in 0..40 {
            lons.push(f64::from(i) - 15.0);
            lats.push(f64::from(j) * 0.5 - 5.0);
        }
    }
    let mut before = vec![false; lons.len()];
    for radius in [0.0, 1.0, 50_000.0, 100_000.0, 800_000.0, 5_000_000.0] {
        let now = get_valid_index_from_lonlat_boundaries(
            &boundary_lons,
            &boundary_lats,
            &lons,
            &lats,
            radius,
        )
        .unwrap();
        assert_eq!(now.len(), lons.len());
        for (was, is) in before.iter().zip(&now) {
            assert!(!was || *is);
        }
        before = now;
    }
    assert!(before.iter().any(|kept| *kept));
}
