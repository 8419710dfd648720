use rusty_sat::area::{AreaDefinition, AreaGrid};
use rusty_sat::array::{AnyDataArray, Coordinate, DataGrid, ValidityMask};
use rusty_sat::bucket::{BucketResampler, BucketStatistic};
use rusty_sat::dataset::{DataId, Dataset};
use rusty_sat::error::{Result, RustySatError};
use rusty_sat::metadata::MetadataValue;
use rusty_sat::number::F64;
use rusty_sat::swath::SwathDefinition;
use rusty_sat::text_map::TextMap;

fn bits(value: f64) -> F64 {
    F64::from_bits(value.to_bits())
}

fn plain(value: F64) -> f64 {
    f64::from_bits(value.to_bits())
}

fn all_bits(values: &[f64]) -> Vec<F64> {
    values.iter().map(|value| bits(*value)).collect()
}

fn all_plain(values: &[F64]) -> Vec<f64> {
    values.iter().map(|value| plain(*value)).collect()
}

/// A part of the way between two bounds, of `count` parts.
fn part(low: F64, high: F64, count: usize) -> F64 {
    bits((plain(high) - plain(low)) / count as f64)
}

fn mean(values: Vec<F64>) -> F64 {
    let sum = values.iter().fold(0.0, |sum, value| sum + plain(*value));
    bits(sum / values.len() as f64)
}

fn total(values: Vec<F64>) -> F64 {
    bits(values.iter().fold(0.0, |sum, value| sum + plain(*value)))
}

fn ratio(count: usize, of: usize) -> F64 {
    bits(count as f64 / of as f64)
}

fn extent(area: &AreaDefinition) -> [f64; 4] {
    area.area_extent().map(plain)
}

fn pixel_size(area: &AreaDefinition) -> (f64, f64) {
    let (x, y) = area.pixel_size(&part);
    (plain(x), plain(y))
}

/// The centre of a pixel.
fn pixel_center(area: &AreaDefinition, y: usize, x: usize) -> (f64, f64) {
    let extent = extent(area);
    let (pixel_size_x, pixel_size_y) = pixel_size(area);
    (
        extent[0] + (x as f64 + 0.5) * pixel_size_x,
        extent[3] - (y as f64 + 0.5) * pixel_size_y,
    )
}

/// The column and the row of a position, counted from the upper left corner of an area.
fn place_from_corner(area: &AreaDefinition, x: F64, y: F64) -> (F64, F64) {
    let extent = extent(area);
    let (pixel_size_x, pixel_size_y) = pixel_size(area);
    (
        bits((plain(x) - extent[0]) / pixel_size_x),
        bits((extent[3] - plain(y)) / pixel_size_y),
    )
}

/// The area with the coordinates of its columns and rows.
fn on_grid(area: &AreaDefinition) -> Result<AreaGrid> {
    let (height, width) = area.shape();
    let x = (0..width).map(|x| bits(pixel_center(area, 0, x).0)).collect();
    let y = (0..height).map(|y| bits(pixel_center(area, y, 0).1)).collect();
    AreaGrid::new(area.copy(), x, y)
}

fn require_plane_dims(dims: &[String]) -> Result<()> {
    if dims.len() == 2 && dims[0] == "y" && dims[1] == "x" {
        Ok(())
    } else {
        Err(RustySatError::invalid_input(
            "array dimensions do not match expected [\"y\", \"x\"]",
        ))
    }
}

/// Refuses an array that is no plane.
fn require_plane(grid: &DataGrid) -> Result<()> {
    require_plane_dims(grid.dims())
}

/// Refuses a data set with an array of numbers that is no plane.
fn require_plane_in(dataset: &Dataset) -> Result<()> {
    match dataset.data() {
        Some(grid) => require_plane(grid),
        None => Ok(()),
    }
}

fn resample_bucket_average(
    source_grid: &DataGrid,
    source: &SwathDefinition,
    destination: &AreaDefinition,
    fill_value: f64,
    skipna: bool,
) -> Result<DataGrid> {
    require_plane(source_grid)?;
    let locate = |lon: F64, lat: F64| place_from_corner(destination, lon, lat);
    rusty_sat::bucket::resample_bucket_average(
        source_grid,
        source,
        &on_grid(destination)?,
        bits(fill_value),
        skipna,
        &locate,
        &mean,
        &total,
    )
}

fn resample_bucket_sum(
    source_grid: &DataGrid,
    source: &SwathDefinition,
    destination: &AreaDefinition,
    fill_value: f64,
    skipna: bool,
) -> Result<DataGrid> {
    require_plane(source_grid)?;
    let locate = |lon: F64, lat: F64| place_from_corner(destination, lon, lat);
    rusty_sat::bucket::resample_bucket_sum(
        source_grid,
        source,
        &on_grid(destination)?,
        bits(fill_value),
        skipna,
        &locate,
        &mean,
        &total,
    )
}

fn resample_bucket_count(
    source_grid: &DataGrid,
    source: &SwathDefinition,
    destination: &AreaDefinition,
) -> Result<DataGrid> {
    require_plane(source_grid)?;
    let locate = |lon: F64, lat: F64| place_from_corner(destination, lon, lat);
    rusty_sat::bucket::resample_bucket_count(
        source_grid,
        source,
        &on_grid(destination)?,
        &locate,
        &mean,
        &total,
    )
}

fn resample_bucket_fraction(
    source_grid: &DataGrid,
    source: &SwathDefinition,
    destination: &AreaDefinition,
    categories: &[f64],
    fill_value: f64,
) -> Result<DataGrid> {
    require_plane(source_grid)?;
    let locate = |lon: F64, lat: F64| place_from_corner(destination, lon, lat);
    let categories = categories.iter().map(|value| bits(*value)).collect();
    rusty_sat::bucket_fraction::resample_bucket_fraction(
        source_grid,
        source,
        &on_grid(destination)?,
        &categories,
        bits(fill_value),
        &locate,
        &ratio,
    )
}

fn resample_bucket_fraction_auto(
    source_grid: &DataGrid,
    source: &SwathDefinition,
    destination: &AreaDefinition,
    fill_value: f64,
) -> Result<DataGrid> {
    require_plane(source_grid)?;
    let locate = |lon: F64, lat: F64| place_from_corner(destination, lon, lat);
    rusty_sat::bucket_fraction::resample_bucket_fraction_auto(
        source_grid,
        source,
        &on_grid(destination)?,
        bits(fill_value),
        &locate,
        &ratio,
    )
}

fn bucket_dataset(
    resampler: &BucketResampler,
    dataset: &Dataset,
    destination: &AreaDefinition,
) -> Result<Dataset> {
    require_plane_in(dataset)?;
    let locate = |lon: F64, lat: F64| place_from_corner(destination, lon, lat);
    let grid = on_grid(destination)?;
    resampler.resample(dataset, &grid, &locate, &mean, &total)
}

fn bucket_dataset_owned(
    resampler: &BucketResampler,
    dataset: Dataset,
    destination: &AreaDefinition,
) -> Result<Dataset> {
    require_plane_in(&dataset)?;
    let locate = |lon: F64, lat: F64| place_from_corner(destination, lon, lat);
    let grid = on_grid(destination)?;
    resampler.resample_owned(dataset, &grid, &locate, &mean, &total)
}

trait Plain {
    fn plain(&self) -> Vec<f64>;
}

impl Plain for DataGrid {
    fn plain(&self) -> Vec<f64> {
        all_plain(self.values())
    }
}

impl Plain for Coordinate {
    fn plain(&self) -> Vec<f64> {
        all_plain(self.values())
    }
}

impl Plain for AnyDataArray {
    fn plain(&self) -> Vec<f64> {
        all_plain(&self.numbers())
    }
}

fn grid(height: usize, width: usize, values: Vec<f64>) -> Result<DataGrid> {
    DataGrid::new(height, width, all_bits(&values))
}

fn map_of(pairs: &[(&str, &str)]) -> TextMap<String> {
    let mut map = TextMap::new();
    for (key, value) in pairs {
        map.insert(key.to_string(), value.to_string());
    }
    map
}

fn resample_bucket_owned_with_statistic(
    source_grid: DataGrid,
    source: &SwathDefinition,
    destination: &AreaDefinition,
    statistic: BucketStatistic,
    fill_value: f64,
    skipna: bool,
) -> Result<DataGrid> {
    let locate = |lon: F64, lat: F64| place_from_corner(destination, lon, lat);
    rusty_sat::bucket::resample_bucket_with_statistic(
        &source_grid,
        source,
        &on_grid(destination)?,
        statistic,
        bits(fill_value),
        skipna,
        &locate,
        &mean,
        &total,
    )
}

fn area() -> AreaDefinition {
    AreaDefinition::from_parts(
        "target",
        "target",
        "target",
        map_of(&[("proj", "longlat")]),
        2,
        2,
        [0.0, 0.0, 2.0, 2.0].map(bits),
    )
    .unwrap()
}

fn swath() -> SwathDefinition {
    SwathDefinition::from_lonlats(
        2,
        3,
        all_bits(&[0.25, 0.75, 1.25, 1.75, 3.0, 0.25]),
        all_bits(&[1.75, 1.25, 1.25, 0.25, 0.5, 0.25]),
    )
    .unwrap()
}

#[test]
fn bucket_count_counts_coordinate_hits_inside_target() {
    let source_grid = grid(2, 3, vec![1.0, 2.0, f64::NAN, 4.0, 5.0, 6.0]).unwrap();

    let resampled = resample_bucket_count(&source_grid, &swath(), &area()).unwrap();

    assert_eq!(resampled.plain(), [2.0, 1.0, 1.0, 1.0]);
}

#[test]
fn bucket_average_skips_invalid_values_by_default() {
    let source_grid = grid(2, 3, vec![1.0, 2.0, f64::NAN, 4.0, 5.0, 6.0]).unwrap();

    let resampled = resample_bucket_average(&source_grid, &swath(), &area(), -999.0, true).unwrap();

    assert_eq!(resampled.plain(), [1.5, -999.0, 6.0, 4.0]);
}

#[test]
fn bucket_average_can_fail_bucket_when_invalid_seen() {
    let source_grid = grid(2, 3, vec![1.0, f64::NAN, f64::NAN, 4.0, 5.0, 6.0]).unwrap();

    let resampled = resample_bucket_average(&source_grid, &swath(), &area(), -999.0, false).unwrap();

    assert_eq!(resampled.plain(), [-999.0, -999.0, 6.0, 4.0]);
}

#[test]
fn bucket_sum_skips_invalid_values_and_uses_zero_for_empty_buckets() {
    let source_grid = grid(2, 3, vec![1.0, 2.0, f64::NAN, 4.0, 5.0, 6.0]).unwrap();

    let resampled = resample_bucket_sum(&source_grid, &swath(), &area(), -999.0, true).unwrap();

    assert_eq!(resampled.plain(), [3.0, 0.0, 6.0, 4.0]);
}

#[test]
fn bucket_sum_skipna_false_fills_bucket_when_invalid_seen() {
    let swath = SwathDefinition::from_lonlats(1, 2, all_bits(&[0.5, 0.5]), all_bits(&[1.5, 1.5])).unwrap();
    let target = AreaDefinition::from_parts(
        "target",
        "target",
        "target",
        map_of(&[("proj", "longlat")]),
        1,
        1,
        [0.0, 0.0, 2.0, 2.0].map(bits),
    )
    .unwrap();
    let source_grid = grid(1, 2, vec![10.0, f64::NAN]).unwrap();

    let resampled = resample_bucket_sum(&source_grid, &swath, &target, -999.0, false).unwrap();

    assert_eq!(resampled.plain(), [-999.0]);
}

#[test]
fn bucket_fraction_returns_category_axis() {
    let swath =
        SwathDefinition::from_lonlats(1, 4, all_bits(&[0.5, 0.5, 0.5, 0.5]), all_bits(&[1.5, 1.5, 1.5, 1.5]))
            .unwrap();
    let target = AreaDefinition::from_parts(
        "target",
        "target",
        "target",
        map_of(&[("proj", "longlat")]),
        1,
        1,
        [0.0, 0.0, 2.0, 2.0].map(bits),
    )
    .unwrap();
    let source_grid = grid(1, 4, vec![0.0, 1.0, 1.0, f64::NAN]).unwrap();

    let fractions =
        resample_bucket_fraction(&source_grid, &swath, &target, &[0.0, 1.0], -1.0).unwrap();

    assert_eq!(fractions.shape_nd(), &[2, 1, 1]);
    assert_eq!(fractions.dims(), &["categories", "y", "x"]);
    assert_eq!(fractions.plain(), [0.25, 0.5]);
    assert_eq!(fractions.coord("categories").unwrap().plain(), [0.0, 1.0]);
    assert!(fractions.coord("x").is_some());
    assert!(fractions.coord("y").is_some());
}

#[test]
fn bucket_fraction_uses_fill_for_empty_buckets() {
    let swath = SwathDefinition::from_lonlats(1, 2, all_bits(&[0.5, 0.5]), all_bits(&[0.5, 0.5])).unwrap();
    let target = AreaDefinition::from_parts(
        "target",
        "target",
        "target",
        map_of(&[("proj", "longlat")]),
        1,
        2,
        [0.0, 0.0, 2.0, 1.0].map(bits),
    )
    .unwrap();
    let source_grid = grid(1, 2, vec![1.0, 1.0]).unwrap();

    let fractions = resample_bucket_fraction(&source_grid, &swath, &target, &[1.0], -1.0).unwrap();

    assert_eq!(fractions.shape_nd(), &[1, 1, 2]);
    assert_eq!(fractions.plain(), [1.0, -1.0]);
}

#[test]
fn bucket_fraction_auto_discovers_sorted_finite_unmasked_categories() {
    let swath = SwathDefinition::from_lonlats(1, 5, all_bits(&[0.5; 5]), all_bits(&[1.5; 5])).unwrap();
    let target = AreaDefinition::from_parts(
        "target",
        "target",
        "target",
        map_of(&[("proj", "longlat")]),
        1,
        1,
        [0.0, 0.0, 2.0, 2.0].map(bits),
    )
    .unwrap();
    let source_grid = grid(1, 5, vec![2.0, 1.0, 2.0, f64::NAN, 3.0])
        .unwrap()
        .with_mask(ValidityMask::from_masked_flags(vec![
            false, false, false, false, true,
        ]))
        .unwrap();

    let fractions = resample_bucket_fraction_auto(&source_grid, &swath, &target, -1.0).unwrap();

    assert_eq!(fractions.shape_nd(), &[2, 1, 1]);
    assert_eq!(fractions.coord("categories").unwrap().plain(), [1.0, 2.0]);
    assert_eq!(fractions.plain(), [0.2, 0.4]);
}

#[test]
fn bucket_fraction_rejects_empty_or_non_finite_categories() {
    let source_grid = grid(2, 3, vec![1.0, 2.0, f64::NAN, 4.0, 5.0, 6.0]).unwrap();

    assert!(resample_bucket_fraction(&source_grid, &swath(), &area(), &[], -1.0).is_err());
    assert!(resample_bucket_fraction(&source_grid, &swath(), &area(), &[f64::NAN], -1.0).is_err());
}

#[test]
fn bucket_fraction_auto_rejects_when_no_categories_exist() {
    let source_grid = grid(2, 3, vec![f64::NAN; 6]).unwrap();

    let err = resample_bucket_fraction_auto(&source_grid, &swath(), &area(), -1.0).unwrap_err();

    assert!(err.message().contains("at least one category"));
}

#[test]
fn bucket_resampler_preserves_metadata_and_updates_count_attrs() {
    let source_grid = grid(2, 3, vec![1.0, 2.0, f64::NAN, 4.0, 5.0, 6.0])
        .unwrap()
        .with_coordinate("time", Coordinate::scalar(bits(1.0)))
        .unwrap();
    let id = DataId::new("obs").unwrap();
    let mut dataset = Dataset::new(id.copy()).with_data(source_grid);
    dataset.insert_metadata("sensor", "test");
    let resampler = BucketResampler::count(swath());

    let output = bucket_dataset(&resampler, &dataset, &area()).unwrap();

    assert_eq!(output.id(), &id);
    assert_eq!(output.metadata().get("sensor"), Some(&"test".to_string()));
    assert_eq!(
        output.attr("standard_name"),
        Some(&MetadataValue::string("number_of_observations"))
    );
    assert_eq!(
        output.metadata().get("resampler"),
        Some(&"bucket_count".to_string())
    );
    assert!(output.data().unwrap().coord("time").is_some());
    assert!(output.data().unwrap().coord("x").is_some());
    assert!(output.data().unwrap().coord("y").is_some());
}

#[test]
fn bucket_owned_matches_borrowed_average() {
    let source_grid = grid(2, 3, vec![1.0, 2.0, f64::NAN, 4.0, 5.0, 6.0]).unwrap();
    let borrowed = resample_bucket_average(&source_grid, &swath(), &area(), -999.0, true).unwrap();
    let owned = resample_bucket_owned_with_statistic(
        source_grid,
        &swath(),
        &area(),
        BucketStatistic::Average,
        -999.0,
        true,
    )
    .unwrap();

    assert_eq!(borrowed, owned);
}

#[test]
fn bucket_average_skipna_true_averages_valid_values_in_mixed_bucket() {
    // Two points land in same bucket: one valid (10.0), one NaN.
    let swath = SwathDefinition::from_lonlats(1, 2, all_bits(&[0.5, 0.5]), all_bits(&[1.5, 1.5])).unwrap();
    let target = AreaDefinition::from_parts(
        "target",
        "target",
        "target",
        map_of(&[("proj", "longlat")]),
        1,
        1,
        [0.0, 0.0, 2.0, 2.0].map(bits),
    )
    .unwrap();
    let source_grid = grid(1, 2, vec![10.0, f64::NAN]).unwrap();

    let resampled = resample_bucket_average(&source_grid, &swath, &target, -999.0, true).unwrap();

    assert_eq!(resampled.plain(), [10.0]);
    assert!(resampled.mask().is_none());
}

#[test]
fn bucket_resampler_through_trait_uses_correct_statistic_name() {
    let source_grid = grid(2, 3, vec![1.0, 2.0, f64::NAN, 4.0, 5.0, 6.0]).unwrap();
    let id = DataId::new("obs").unwrap();
    let dataset = Dataset::new(id.copy()).with_data(source_grid);
    let resampler = BucketResampler::average(swath());

    let output = bucket_dataset(&resampler, &dataset, &area()).unwrap();

    assert_eq!(output.id(), &id);
    assert_eq!(
        output.metadata().get("resampler"),
        Some(&"bucket_avg".to_string())
    );
}

#[test]
fn bucket_resampler_owned_through_trait_produces_same_output() {
    let id = DataId::new("obs").unwrap();
    let ds1 = Dataset::new(id.copy())
        .with_data(grid(2, 3, vec![1.0, 2.0, f64::NAN, 4.0, 5.0, 6.0]).unwrap());
    let ds2 = Dataset::new(id)
        .with_data(grid(2, 3, vec![1.0, 2.0, f64::NAN, 4.0, 5.0, 6.0]).unwrap());
    let resampler = BucketResampler::sum(swath()).with_fill_value(bits(-999.0));

    let borrowed = bucket_dataset(&resampler, &ds1, &area()).unwrap();
    let owned = bucket_dataset_owned(&resampler, ds2, &area()).unwrap();

    assert_eq!(
        borrowed.data().unwrap().values(),
        owned.data().unwrap().values()
    );
}

#[test]
fn bucket_factory_methods_create_correct_statistics() {
    assert_eq!(
        BucketResampler::average(swath()).statistic(),
        BucketStatistic::Average
    );
    assert_eq!(
        BucketResampler::sum(swath()).statistic(),
        BucketStatistic::Sum
    );
    assert_eq!(
        BucketResampler::count(swath()).statistic(),
        BucketStatistic::Count
    );
}

#[test]
fn bucket_fraction_ignores_values_not_matching_any_category() {
    let swath =
        SwathDefinition::from_lonlats(1, 3, all_bits(&[0.5, 0.5, 0.5]), all_bits(&[1.5, 1.5, 1.5])).unwrap();
    let target = AreaDefinition::from_parts(
        "target",
        "target",
        "target",
        map_of(&[("proj", "longlat")]),
        1,
        1,
        [0.0, 0.0, 2.0, 2.0].map(bits),
    )
    .unwrap();
    let source_grid = grid(1, 3, vec![0.0, 99.0, 1.0]).unwrap();

    let fractions =
        resample_bucket_fraction(&source_grid, &swath, &target, &[0.0, 1.0], -1.0).unwrap();

    assert_eq!(fractions.plain(), [1.0 / 3.0, 1.0 / 3.0]);
}

#[test]
fn bucket_fraction_fills_all_when_all_points_masked() {
    let swath = SwathDefinition::from_lonlats(1, 2, all_bits(&[0.5, 0.5]), all_bits(&[1.5, 1.5])).unwrap();
    let target = AreaDefinition::from_parts(
        "target",
        "target",
        "target",
        map_of(&[("proj", "longlat")]),
        1,
        1,
        [0.0, 0.0, 2.0, 2.0].map(bits),
    )
    .unwrap();
    let source_grid = grid(1, 2, vec![0.0, 1.0])
        .unwrap()
        .with_mask(ValidityMask::from_masked_flags(vec![true, true]))
        .unwrap();

    let fractions =
        resample_bucket_fraction(&source_grid, &swath, &target, &[0.0, 1.0], -1.0).unwrap();

    // denominator = 2 (both points counted), numerator = 0 (both masked, skipped)
    assert_eq!(fractions.plain(), [0.0, 0.0]);
}
