use rusty_sat::area::{AreaDefinition, AreaGrid};
use rusty_sat::array::{AnyDataArray, Coordinate, DataGrid};
use rusty_sat::dataset::{DataId, Dataset};
use rusty_sat::error::{Result, RustySatError};
use rusty_sat::ewa::{EwaOptions, EwaResampler, Reach};
use rusty_sat::number::F64;
use rusty_sat::swath::SwathDefinition;
use rusty_sat::text_map::TextMap;

fn bits(value: f64) -> F64 {
    F64::from_bits(value.to_bits())
}

fn plain(value: F64) -> f64 {
    f64::from_bits(value.to_bits())
}

fn all_bits(values: &[f64]) -> Vec<F64> {
    values.iter().map(|value| bits(*value)).collect()
}

fn all_plain(values: &[F64]) -> Vec<f64> {
    values.iter().map(|value| plain(*value)).collect()
}

/// A part of the way between two bounds, of `count` parts.
fn part(low: F64, high: F64, count: usize) -> F64 {
    bits((plain(high) - plain(low)) / count as f64)
}

fn square(value: F64) -> F64 {
    bits(plain(value) * plain(value))
}

/// The weighted mean of values with weights, and the sum of the weights.
fn weigh(list: Vec<(F64, F64)>) -> (F64, F64) {
    let mut sum = 0.0;
    let mut norm = 0.0;
    for (value, weight) in list {
        sum += plain(value) * plain(weight);
        norm += plain(weight);
    }
    (bits(sum / norm), bits(norm))
}

fn extent(area: &AreaDefinition) -> [f64; 4] {
    area.area_extent().map(plain)
}

fn pixel_size(area: &AreaDefinition) -> (f64, f64) {
    let (x, y) = area.pixel_size(&part);
    (plain(x), plain(y))
}

/// The centre of a pixel.
fn pixel_center(area: &AreaDefinition, y: usize, x: usize) -> (f64, f64) {
    let extent = extent(area);
    let (pixel_size_x, pixel_size_y) = pixel_size(area);
    (
        extent[0] + (x as f64 + 0.5) * pixel_size_x,
        extent[3] - (y as f64 + 0.5) * pixel_size_y,
    )
}

/// The column and the row of a position, counted from the upper left corner of an area.
fn place_from_corner(area: &AreaDefinition, x: F64, y: F64) -> (F64, F64) {
    let extent = extent(area);
    let (pixel_size_x, pixel_size_y) = pixel_size(area);
    (
        bits((plain(x) - extent[0]) / pixel_size_x),
        bits((extent[3] - plain(y)) / pixel_size_y),
    )
}

/// The column and the row of a position, counted from the centre of the first pixel.
fn place_from_centre(area: &AreaDefinition, x: F64, y: F64) -> (F64, F64) {
    let (column, row) = place_from_corner(area, x, y);
    (bits(plain(column) - 0.5), bits(plain(row) - 0.5))
}

/// The area with the coordinates of its columns and rows.
fn on_grid(area: &AreaDefinition) -> Result<AreaGrid> {
    let (height, width) = area.shape();
    let x = (0..width).map(|x| bits(pixel_center(area, 0, x).0)).collect();
    let y = (0..height).map(|y| bits(pixel_center(area, y, 0).1)).collect();
    AreaGrid::new(area.copy(), x, y)
}

fn require_plane_dims(dims: &[String]) -> Result<()> {
    if dims.len() == 2 && dims[0] == "y" && dims[1] == "x" {
        Ok(())
    } else {
        Err(RustySatError::invalid_input(
            "array dimensions do not match expected [\"y\", \"x\"]",
        ))
    }
}

/// Refuses an array that is no plane.
fn require_plane(grid: &DataGrid) -> Result<()> {
    require_plane_dims(grid.dims())
}

/// Refuses a data set with an array of numbers that is no plane.
fn require_plane_in(dataset: &Dataset) -> Result<()> {
    match dataset.data() {
        Some(grid) => require_plane(grid),
        None => Ok(()),
    }
}

/// The bounds of what a position reaches among the pixels of an area.
fn reach_of(destination: &AreaDefinition, radius: f64, lon: F64, lat: F64) -> Reach {
    let (pixel_size_x, pixel_size_y) = pixel_size(destination);
    let (x, y) = place_from_centre(destination, lon, lat);
    let radius_x = radius / pixel_size_x.abs();
    let radius_y = radius / pixel_size_y.abs();
    Reach {
        x,
        y,
        x_low: bits(plain(x) - radius_x),
        x_high: bits(plain(x) + radius_x),
        y_low: bits(plain(y) - radius_y),
        y_high: bits(plain(y) + radius_y),
    }
}

/// The squared distance of a position from the centre of a pixel.
fn squared_gap(destination: &AreaDefinition, lon: F64, lat: F64, y: usize, x: usize) -> F64 {
    let (target_x, target_y) = pixel_center(destination, y, x);
    let dx = target_x - plain(lon);
    let dy = target_y - plain(lat);
    bits(dx * dx + dy * dy)
}

/// The weight at a squared distance.
fn weight_at(options: EwaOptions, distance_squared: F64) -> F64 {
    let radius = plain(options.radius_of_influence());
    let alpha = -plain(options.weight_min()).ln() / (radius * radius);
    bits((-alpha * plain(distance_squared)).exp())
}

fn resample_swath_ewa(
    source_grid: &DataGrid,
    source: &SwathDefinition,
    destination: &AreaDefinition,
    options: EwaOptions,
) -> Result<DataGrid> {
    require_plane(source_grid)?;
    let radius = plain(options.radius_of_influence());
    rusty_sat::ewa::resample_swath_ewa(
        source_grid,
        source,
        &on_grid(destination)?,
        options,
        &square,
        &|lon: F64, lat: F64| reach_of(destination, radius, lon, lat),
        &|lon: F64, lat: F64, y: usize, x: usize| squared_gap(destination, lon, lat, y, x),
        &|gap: F64| weight_at(options, gap),
        &weigh,
    )
}

fn resample_swath_ewa_owned(
    source_grid: DataGrid,
    source: &SwathDefinition,
    destination: &AreaDefinition,
    options: EwaOptions,
) -> Result<DataGrid> {
    require_plane(&source_grid)?;
    let radius = plain(options.radius_of_influence());
    rusty_sat::ewa::resample_swath_ewa_owned(
        source_grid,
        source,
        &on_grid(destination)?,
        options,
        &square,
        &|lon: F64, lat: F64| reach_of(destination, radius, lon, lat),
        &|lon: F64, lat: F64, y: usize, x: usize| squared_gap(destination, lon, lat, y, x),
        &|gap: F64| weight_at(options, gap),
        &weigh,
    )
}

fn ewa_dataset(
    resampler: &EwaResampler,
    dataset: &Dataset,
    destination: &AreaDefinition,
) -> Result<Dataset> {
    require_plane_in(dataset)?;
    let options = resampler.options();
    let radius = plain(options.radius_of_influence());
    resampler.resample(
        dataset,
        &on_grid(destination)?,
        &square,
        &|lon: F64, lat: F64| reach_of(destination, radius, lon, lat),
        &|lon: F64, lat: F64, y: usize, x: usize| squared_gap(destination, lon, lat, y, x),
        &|gap: F64| weight_at(options, gap),
        &weigh,
    )
}

fn ewa_dataset_owned(
    resampler: &EwaResampler,
    dataset: Dataset,
    destination: &AreaDefinition,
) -> Result<Dataset> {
    require_plane_in(&dataset)?;
    let options = resampler.options();
    let radius = plain(options.radius_of_influence());
    resampler.resample_owned(
        dataset,
        &on_grid(destination)?,
        &square,
        &|lon: F64, lat: F64| reach_of(destination, radius, lon, lat),
        &|lon: F64, lat: F64, y: usize, x: usize| squared_gap(destination, lon, lat, y, x),
        &|gap: F64| weight_at(options, gap),
        &weigh,
    )
}

trait Plain {
    fn plain(&self) -> Vec<f64>;
}

impl Plain for DataGrid {
    fn plain(&self) -> Vec<f64> {
        all_plain(self.values())
    }
}

impl Plain for Coordinate {
    fn plain(&self) -> Vec<f64> {
        all_plain(self.values())
    }
}

impl Plain for AnyDataArray {
    fn plain(&self) -> Vec<f64> {
        all_plain(&self.numbers())
    }
}

trait Plane {
    fn shape(&self) -> (usize, usize);
}

impl Plane for DataGrid {
    fn shape(&self) -> (usize, usize) {
        self.shape_yx().unwrap()
    }
}

fn grid(height: usize, width: usize, values: Vec<f64>) -> Result<DataGrid> {
    DataGrid::new(height, width, all_bits(&values))
}

fn map_of(pairs: &[(&str, &str)]) -> TextMap<String> {
    let mut map = TextMap::new();
    for (key, value) in pairs {
        map.insert(key.to_string(), value.to_string());
    }
    map
}

fn area() -> AreaDefinition {
    AreaDefinition::from_parts(
        "target",
        "target",
        "target",
        map_of(&[("proj", "longlat")]),
        1,
        3,
        [0.0, 0.0, 3.0, 1.0].map(bits),
    )
    .unwrap()
}

#[test]
fn options_validate_radius_and_weights() {
    assert!(EwaOptions::new(bits(0.0)).is_err());
    assert!(EwaOptions::new(bits(1.0)).unwrap().with_weight_min(bits(1.0)).is_err());
    assert!(EwaOptions::new(bits(1.0))
        .unwrap()
        .with_weight_sum_min(bits(-1.0))
        .is_err());
}

#[test]
fn ewa_spreads_weighted_samples_inside_radius() {
    let source = SwathDefinition::from_lonlats(1, 2, all_bits(&[0.5, 1.5]), all_bits(&[0.5, 0.5])).unwrap();
    let source_grid = grid(1, 2, vec![10.0, 20.0]).unwrap();
    let options = EwaOptions::new(bits(1.0))
        .unwrap()
        .with_weight_min(bits(0.1))
        .unwrap()
        .with_fill_value(bits(-999.0));

    let resampled = resample_swath_ewa(&source_grid, &source, &area(), options).unwrap();

    assert_eq!(resampled.shape(), (1, 3));
    assert!(resampled.plain()[0] > 10.0);
    assert!(resampled.plain()[0] < resampled.plain()[1]);
    assert!(resampled.plain()[1] > 10.0);
    assert!(resampled.plain()[1] < 20.0);
    assert!(resampled.plain()[2] > resampled.plain()[1]);
    assert_eq!(resampled.plain()[2], 20.0);
    assert!(resampled.coord("x").is_some());
    assert!(resampled.coord("y").is_some());
}

#[test]
fn ewa_uses_fill_and_optional_mask_for_empty_pixels() {
    let source = SwathDefinition::from_lonlats(1, 1, all_bits(&[0.5]), all_bits(&[0.5])).unwrap();
    let source_grid = grid(1, 1, vec![10.0]).unwrap();
    let options = EwaOptions::new(bits(0.25))
        .unwrap()
        .with_fill_value(bits(-999.0))
        .with_masked_missing(true);

    let resampled = resample_swath_ewa(&source_grid, &source, &area(), options).unwrap();

    assert_eq!(resampled.plain(), [10.0, -999.0, -999.0]);
    assert_eq!(resampled.mask().unwrap().is_masked(0), Some(false));
    assert_eq!(resampled.mask().unwrap().is_masked(1), Some(true));
    assert_eq!(resampled.mask().unwrap().is_masked(2), Some(true));
}

#[test]
fn ewa_owned_matches_borrowed() {
    let source = SwathDefinition::from_lonlats(1, 2, all_bits(&[0.5, 1.5]), all_bits(&[0.5, 0.5])).unwrap();
    let source_grid = grid(1, 2, vec![10.0, 20.0]).unwrap();
    let options = EwaOptions::new(bits(1.0)).unwrap().with_fill_value(bits(-999.0));

    let borrowed = resample_swath_ewa(&source_grid, &source, &area(), options).unwrap();
    let owned = resample_swath_ewa_owned(source_grid, &source, &area(), options).unwrap();

    assert_eq!(borrowed.values(), owned.values());
}

#[test]
fn ewa_resampler_preserves_dataset_metadata() {
    let source = SwathDefinition::from_lonlats(1, 1, all_bits(&[0.5]), all_bits(&[0.5])).unwrap();
    let mut dataset = Dataset::new(DataId::new("B03").unwrap()).with_data(
        grid(1, 1, vec![10.0])
            .unwrap()
            .with_coordinate("time", Coordinate::scalar(bits(1.0)))
            .unwrap(),
    );
    dataset.insert_metadata("sensor", "ahi");
    let resampler = EwaResampler::with_radius(source, bits(0.25)).unwrap();

    let resampled = ewa_dataset(&resampler, &dataset, &area()).unwrap();

    assert_eq!(resampled.metadata().get("sensor"), Some(&"ahi".to_string()));
    assert_eq!(
        resampled.metadata().get("resampler"),
        Some(&"ewa".to_string())
    );
    assert!(resampled.data().unwrap().coord("time").is_some());
}

#[test]
fn ewa_rejects_missing_swath_coordinates() {
    let source = SwathDefinition::new(1, 1).unwrap();
    let source_grid = grid(1, 1, vec![10.0]).unwrap();

    let err =
        resample_swath_ewa(&source_grid, &source, &area(), EwaOptions::new(bits(1.0)).unwrap()).unwrap_err();

    assert!(err.message().contains("source lons"));
}

#[test]
fn ewa_weight_min_filters_low_weight_contributions() {
    let source = SwathDefinition::from_lonlats(1, 2, all_bits(&[0.5, 1.0]), all_bits(&[0.5, 0.5])).unwrap();
    let source_grid = grid(1, 2, vec![10.0, 20.0]).unwrap();
    // weight_min=0.9 means only very close (<~0.05 deg) points contribute
    let options = EwaOptions::new(bits(1.0))
        .unwrap()
        .with_weight_min(bits(0.9))
        .unwrap()
        .with_fill_value(bits(-999.0));

    let resampled = resample_swath_ewa(&source_grid, &source, &area(), options).unwrap();

    // Point at lon=0.5 close to pixel center → contributes. lon=1.0 far → filtered.
    assert!(resampled.plain()[0] > 0.0);
}

#[test]
fn ewa_weight_sum_min_fills_when_insufficient_total_weight() {
    // Point at edge of area, far from all pixel centers with small radius
    let source = SwathDefinition::from_lonlats(1, 1, all_bits(&[0.05]), all_bits(&[0.5])).unwrap();
    let source_grid = grid(1, 1, vec![10.0]).unwrap();
    let options = EwaOptions::new(bits(0.3))
        .unwrap()
        .with_weight_sum_min(bits(0.5))
        .unwrap()
        .with_fill_value(bits(-999.0));

    let resampled = resample_swath_ewa(&source_grid, &source, &area(), options).unwrap();

    assert!(resampled.plain().iter().all(|v| *v == -999.0));
}

#[test]
fn ewa_resampler_owned_through_trait() {
    let source = SwathDefinition::from_lonlats(1, 2, all_bits(&[0.5, 1.5]), all_bits(&[0.5, 0.5])).unwrap();
    let id = DataId::new("test").unwrap();
    let ds1 =
        Dataset::new(id.copy()).with_data(grid(1, 2, vec![10.0, 20.0]).unwrap());
    let ds2 = Dataset::new(id).with_data(grid(1, 2, vec![10.0, 20.0]).unwrap());
    let resampler = EwaResampler::with_radius(source, bits(1.0)).unwrap();

    let borrowed = ewa_dataset(&resampler, &ds1, &area()).unwrap();
    let owned = ewa_dataset_owned(&resampler, ds2, &area()).unwrap();

    assert_eq!(
        borrowed.data().unwrap().values(),
        owned.data().unwrap().values()
    );
}

#[test]
fn ewa_skips_non_finite_source_values() {
    let source = SwathDefinition::from_lonlats(1, 2, all_bits(&[0.5, 1.5]), all_bits(&[0.5, 0.5])).unwrap();
    let source_grid = grid(1, 2, vec![10.0, f64::NAN]).unwrap();
    let options = EwaOptions::new(bits(1.0)).unwrap().with_fill_value(bits(-999.0));

    let resampled = resample_swath_ewa(&source_grid, &source, &area(), options).unwrap();

    // Only the first valid value (10.0) contributes; NaN is skipped.
    assert!(resampled.plain()[0] > 0.0);
}
