use rusty_sat::area::{AreaDefinition, AreaGrid};
use rusty_sat::array::{AnyDataArray, Coordinate, DataGrid, ValidityMask};
use rusty_sat::error::{Result, RustySatError};
use rusty_sat::neighbour::{
    Neighbour, NeighbourInfo, SampleMissingPolicy, sample_nearest_from_neighbour_info,
    sample_nearest_from_neighbour_info_owned,
};
use rusty_sat::number::F64;
use rusty_sat::swath::SwathDefinition;
use rusty_sat::text_map::TextMap;

fn bits(value: f64) -> F64 {
    F64::from_bits(value.to_bits())
}

fn plain(value: F64) -> f64 {
    f64::from_bits(value.to_bits())
}

fn all_bits(values: &[f64]) -> Vec<F64> {
    values.iter().map(|value| bits(*value)).collect()
}

fn all_plain(values: &[F64]) -> Vec<f64> {
    values.iter().map(|value| plain(*value)).collect()
}

/// A part of the way between two bounds, of `count` parts.
fn part(low: F64, high: F64, count: usize) -> F64 {
    bits((plain(high) - plain(low)) / count as f64)
}

fn square(value: F64) -> F64 {
    bits(plain(value) * plain(value))
}

fn root(value: F64) -> F64 {
    bits(plain(value).sqrt())
}

/// The weighted mean of values with weights, and the sum of the weights.
fn weigh(list: Vec<(F64, F64)>) -> (F64, F64) {
    let mut sum = 0.0;
    let mut norm = 0.0;
    for (value, weight) in list {
        sum += plain(value) * plain(weight);
        norm += plain(weight);
    }
    (bits(sum / norm), bits(norm))
}

fn weighted_mean(list: Vec<(F64, F64)>) -> F64 {
    weigh(list).0
}

/// The Gaussian weight of a distance.
fn bell(distance: F64, sigma: F64) -> F64 {
    let (distance, sigma) = (plain(distance), plain(sigma));
    bits((-distance * distance / (2.0 * sigma * sigma)).exp())
}

fn extent(area: &AreaDefinition) -> [f64; 4] {
    area.area_extent().map(plain)
}

fn pixel_size(area: &AreaDefinition) -> (f64, f64) {
    let (x, y) = area.pixel_size(&part);
    (plain(x), plain(y))
}

/// The centre of a pixel.
fn pixel_center(area: &AreaDefinition, y: usize, x: usize) -> (f64, f64) {
    let extent = extent(area);
    let (pixel_size_x, pixel_size_y) = pixel_size(area);
    (
        extent[0] + (x as f64 + 0.5) * pixel_size_x,
        extent[3] - (y as f64 + 0.5) * pixel_size_y,
    )
}

/// The column and the row of a position, counted from the upper left corner of an area.
fn place_from_corner(area: &AreaDefinition, x: F64, y: F64) -> (F64, F64) {
    let extent = extent(area);
    let (pixel_size_x, pixel_size_y) = pixel_size(area);
    (
        bits((plain(x) - extent[0]) / pixel_size_x),
        bits((extent[3] - plain(y)) / pixel_size_y),
    )
}

/// The column and the row of a position, counted from the centre of the first pixel.
fn place_from_centre(area: &AreaDefinition, x: F64, y: F64) -> (F64, F64) {
    let (column, row) = place_from_corner(area, x, y);
    (bits(plain(column) - 0.5), bits(plain(row) - 0.5))
}

/// The area with the coordinates of its columns and rows.
fn on_grid(area: &AreaDefinition) -> Result<AreaGrid> {
    let (height, width) = area.shape();
    let x = (0..width).map(|x| bits(pixel_center(area, 0, x).0)).collect();
    let y = (0..height).map(|y| bits(pixel_center(area, y, 0).1)).collect();
    AreaGrid::new(area.copy(), x, y)
}

/// The distance of two positions.
fn straight(lon: F64, lat: F64, x: F64, y: F64) -> F64 {
    let dx = plain(lon) - plain(x);
    let dy = plain(lat) - plain(y);
    bits((dx.powi(2) + dy.powi(2)).sqrt())
}

/// The squared distance of two positions.
fn squared(px: F64, py: F64, x: F64, y: F64) -> F64 {
    let dx = plain(px) - plain(x);
    let dy = plain(py) - plain(y);
    bits(dx * dx + dy * dy)
}

/// Whether a coordinate comes before that of a point, and the squared way between them.
fn side_gap(query: F64, node: F64) -> (bool, F64) {
    let diff = plain(query) - plain(node);
    (diff <= 0.0, bits(diff * diff))
}

fn get_area_neighbour_info_with_neighbours(
    source: &AreaDefinition,
    target: &AreaDefinition,
    radius_of_influence: Option<f64>,
    neighbours: usize,
) -> Result<NeighbourInfo> {
    let (height, width) = target.shape();
    if height
        .checked_mul(width)
        .and_then(|size| size.checked_mul(neighbours))
        .is_none()
    {
        return Err(RustySatError::invalid_input(
            "target size times neighbours overflows usize",
        ));
    }
    let locate = |x: F64, y: F64| place_from_centre(source, x, y);
    rusty_sat::neighbour_search::get_area_neighbour_info_with_neighbours(
        &on_grid(source)?,
        &on_grid(target)?,
        radius_of_influence.map(bits),
        neighbours,
        &locate,
        &straight,
    )
}

fn get_area_neighbour_info(
    source: &AreaDefinition,
    target: &AreaDefinition,
    radius_of_influence: Option<f64>,
) -> Result<NeighbourInfo> {
    get_area_neighbour_info_with_neighbours(source, target, radius_of_influence, 1)
}

fn get_swath_neighbour_info(
    source: &SwathDefinition,
    target: &AreaDefinition,
    radius_of_influence: Option<f64>,
) -> Result<NeighbourInfo> {
    rusty_sat::neighbour_search::get_swath_neighbour_info(
        source,
        &on_grid(target)?,
        radius_of_influence.map(bits),
        &squared,
        &side_gap,
        &square,
        &root,
    )
}

fn sample_weighted_from_neighbour_info(
    source_grid: &DataGrid,
    output_shape: (usize, usize),
    info: &NeighbourInfo,
    fill_value: f64,
    missing_policy: SampleMissingPolicy,
    weight_fn: impl Fn(f64) -> f64,
) -> Result<DataGrid> {
    rusty_sat::neighbour::sample_weighted_from_neighbour_info(
        source_grid,
        output_shape,
        info,
        bits(fill_value),
        missing_policy,
        &|distance: F64| bits(weight_fn(plain(distance))),
        &weighted_mean,
    )
}

fn sample_weighted_from_neighbour_info_owned(
    source_grid: DataGrid,
    output_shape: (usize, usize),
    info: &NeighbourInfo,
    fill_value: f64,
    missing_policy: SampleMissingPolicy,
    weight_fn: impl Fn(f64) -> f64,
) -> Result<DataGrid> {
    rusty_sat::neighbour::sample_weighted_from_neighbour_info_owned(
        source_grid,
        output_shape,
        info,
        bits(fill_value),
        missing_policy,
        &|distance: F64| bits(weight_fn(plain(distance))),
        &weighted_mean,
    )
}

fn gaussian_weight(distance: f64, sigma: f64) -> Result<f64> {
    rusty_sat::neighbour::gaussian_weight(bits(distance), bits(sigma), &bell).map(plain)
}

trait Plain {
    fn plain(&self) -> Vec<f64>;
}

impl Plain for DataGrid {
    fn plain(&self) -> Vec<f64> {
        all_plain(self.values())
    }
}

impl Plain for Coordinate {
    fn plain(&self) -> Vec<f64> {
        all_plain(self.values())
    }
}

impl Plain for AnyDataArray {
    fn plain(&self) -> Vec<f64> {
        all_plain(&self.numbers())
    }
}

fn grid(height: usize, width: usize, values: Vec<f64>) -> Result<DataGrid> {
    DataGrid::new(height, width, all_bits(&values))
}

fn map_of(pairs: &[(&str, &str)]) -> TextMap<String> {
    let mut map = TextMap::new();
    for (key, value) in pairs {
        map.insert(key.to_string(), value.to_string());
    }
    map
}

fn area(id: &str, height: usize, width: usize, extent: [f64; 4]) -> AreaDefinition {
    AreaDefinition::from_parts(
        id,
        id,
        "test",
        map_of(&[("proj", "longlat")]),
        height,
        width,
        extent.map(bits),
    )
    .unwrap()
}

fn swath(height: usize, width: usize, lons: Vec<f64>, lats: Vec<f64>) -> SwathDefinition {
    SwathDefinition::from_lonlats(height, width, all_bits(&lons), all_bits(&lats)).unwrap()
}

#[test]
fn constructs_neighbour_info_like_pyresample_tuple() {
    let info = NeighbourInfo::new(
        4,
        3,
        1,
        vec![true, true, false, true],
        vec![true, false, true],
        vec![0, 2],
        all_bits(&[0.0, 1.5]),
    )
    .unwrap();

    assert_eq!(info.source_size(), 4);
    assert_eq!(info.target_size(), 3);
    assert_eq!(info.neighbours(), 1);
    assert_eq!(info.valid_input_count(), 3);
    assert_eq!(info.valid_output_count(), 2);
    assert_eq!(info.missing_neighbour_index(), 3);
    assert_eq!(
        info.first_neighbour_for_output(0).unwrap(),
        Some(Neighbour::new(0, bits(0.0)).unwrap())
    );
    assert_eq!(info.first_neighbour_for_output(1).unwrap(), None);
    assert_eq!(
        info.first_source_index_for_output(2).unwrap(),
        Some((3, bits(1.5)))
    );
}

#[test]
fn validates_neighbour_info_lengths() {
    let err = NeighbourInfo::new(1, 2, 1, vec![true], vec![true, true], vec![0], all_bits(&[0.0]))
        .unwrap_err();

    assert!(err.message().contains("valid outputs"));
}

#[test]
fn area_neighbour_info_matches_current_area_nearest_geometry() {
    let source = area("source", 2, 2, [0.0, 0.0, 2.0, 2.0]);
    let target = area("target", 2, 2, [0.0, 0.0, 2.0, 2.0]);

    let info = get_area_neighbour_info(&source, &target, None).unwrap();

    assert_eq!(info.valid_input_index(), &[true, true, true, true]);
    assert_eq!(info.valid_output_index(), &[true, true, true, true]);
    assert_eq!(info.index_array(), &[0, 1, 2, 3]);
    assert_eq!(all_plain(info.distance_array()), [0.0, 0.0, 0.0, 0.0]);
    assert_eq!(
        info.first_source_index_for_output(3).unwrap(),
        Some((3, bits(0.0)))
    );
}

#[test]
fn area_neighbour_info_uses_radius_sentinel_for_missing_neighbours() {
    let source = area("source", 1, 1, [0.0, 0.0, 1.0, 1.0]);
    let target = area("target", 1, 1, [2.0, 2.0, 3.0, 3.0]);

    let info = get_area_neighbour_info(&source, &target, Some(0.25)).unwrap();

    assert_eq!(info.index_array(), &[1]);
    assert!(plain(info.distance_array()[0]).is_infinite());
    assert_eq!(info.first_neighbour_for_output(0).unwrap(), None);
}

#[test]
fn area_neighbour_info_can_return_multiple_neighbours() {
    let source = area("source", 1, 3, [0.0, 0.0, 3.0, 1.0]);
    let target = area("target", 1, 1, [1.0, 0.0, 2.0, 1.0]);

    let info = get_area_neighbour_info_with_neighbours(&source, &target, None, 3).unwrap();

    assert_eq!(info.neighbours(), 3);
    assert_eq!(info.index_array(), &[1, 0, 2]);
    assert_eq!(all_plain(info.distance_array()), [0.0, 1.0, 1.0]);
    assert_eq!(
        info.neighbours_for_output(0).unwrap().unwrap(),
        vec![
            Some(Neighbour::new(1, bits(0.0)).unwrap()),
            Some(Neighbour::new(0, bits(1.0)).unwrap()),
            Some(Neighbour::new(2, bits(1.0)).unwrap())
        ]
    );
}

#[test]
fn area_neighbour_info_pads_missing_multi_neighbours() {
    let source = area("source", 1, 2, [0.0, 0.0, 2.0, 1.0]);
    let target = area("target", 1, 1, [0.0, 0.0, 1.0, 1.0]);

    let info =
        get_area_neighbour_info_with_neighbours(&source, &target, Some(0.25), 3).unwrap();

    assert_eq!(info.index_array(), &[0, 2, 2]);
    assert_eq!(plain(info.distance_array()[0]), 0.0);
    assert!(plain(info.distance_array()[1]).is_infinite());
    assert!(plain(info.distance_array()[2]).is_infinite());
}

#[test]
fn area_neighbour_info_rejects_different_projection_metadata() {
    let source = area("source", 1, 1, [0.0, 0.0, 1.0, 1.0]);
    let mut projection = TextMap::new();
    projection.insert("proj".to_string(), "stere".to_string());
    let target = AreaDefinition::from_parts(
        "target",
        "target",
        "target",
        projection,
        1,
        1,
        [0.0, 0.0, 1.0, 1.0].map(bits),
    )
    .unwrap();

    assert!(matches!(
        get_area_neighbour_info(&source, &target, None).unwrap_err(),
        RustySatError::Unsupported { .. }
    ));
}

#[test]
fn swath_neighbour_info_matches_current_swath_nearest_geometry() {
    let source = swath(2, 2, vec![0.5, 1.5, 0.5, 1.5], vec![1.5, 1.5, 0.5, 0.5]);
    let target = area("target", 2, 2, [0.0, 0.0, 2.0, 2.0]);

    let info = get_swath_neighbour_info(&source, &target, Some(0.0)).unwrap();

    assert_eq!(info.valid_input_index(), &[true, true, true, true]);
    assert_eq!(info.valid_output_index(), &[true, true, true, true]);
    assert_eq!(info.index_array(), &[0, 1, 2, 3]);
    assert_eq!(all_plain(info.distance_array()), [0.0, 0.0, 0.0, 0.0]);
    assert_eq!(
        info.first_source_index_for_output(3).unwrap(),
        Some((3, bits(0.0)))
    );
}

#[test]
fn swath_neighbour_info_uses_pyresample_like_lonlat_validity() {
    let source = swath(1, 2, vec![0.5, 250.0], vec![0.5, 0.5]);
    let target = area("target", 1, 2, [0.0, 0.0, 400.0, 1.0]);

    let info = get_swath_neighbour_info(&source, &target, Some(0.0)).unwrap();

    assert_eq!(info.valid_input_index(), &[true, false]);
    assert_eq!(info.valid_output_index(), &[true, false]);
    assert_eq!(info.index_array(), &[1]);
    assert!(plain(info.distance_array()[0]).is_infinite());
    assert_eq!(info.first_source_index_for_output(0).unwrap(), None);
    assert_eq!(info.first_source_index_for_output(1).unwrap(), None);
}

#[test]
fn swath_neighbour_info_samples_with_existing_nearest_helper() {
    let source = swath(2, 2, vec![0.5, 1.5, 0.5, 1.5], vec![1.5, 1.5, 0.5, 0.5]);
    let target = area("target", 2, 2, [0.0, 0.0, 2.0, 2.0]);
    let source_grid = grid(2, 2, vec![1.0, 2.0, 3.0, 4.0]).unwrap();
    let info = get_swath_neighbour_info(&source, &target, Some(0.0)).unwrap();

    let sampled = sample_nearest_from_neighbour_info(
        &source_grid,
        target.shape(),
        &info,
        bits(-999.0),
        SampleMissingPolicy::FillValue,
    )
    .unwrap();

    assert_eq!(sampled.plain(), [1.0, 2.0, 3.0, 4.0]);
    assert!(sampled.mask().is_none());
}

#[test]
fn swath_neighbour_info_rejects_missing_or_projected_coordinates() {
    let source = SwathDefinition::new(1, 1).unwrap();
    let target = area("target", 1, 1, [0.0, 0.0, 1.0, 1.0]);
    assert!(get_swath_neighbour_info(&source, &target, None).is_err());

    let source = swath(1, 1, vec![0.5], vec![0.5]);
    let projected = AreaDefinition::from_parts(
        "target",
        "target",
        "target",
        map_of(&[("proj", "stere")]),
        1,
        1,
        [0.0, 0.0, 1.0, 1.0].map(bits),
    )
    .unwrap();

    assert!(matches!(
        get_swath_neighbour_info(&source, &projected, None).unwrap_err(),
        RustySatError::Unsupported { .. }
    ));
}

#[test]
fn samples_nearest_values_from_neighbour_info() {
    let source = area("source", 2, 2, [0.0, 0.0, 2.0, 2.0]);
    let target = area("target", 2, 2, [0.0, 0.0, 2.0, 2.0]);
    let source_grid = grid(2, 2, vec![1.0, 2.0, 3.0, 4.0]).unwrap();
    let info = get_area_neighbour_info(&source, &target, None).unwrap();

    let sampled = sample_nearest_from_neighbour_info(
        &source_grid,
        target.shape(),
        &info,
        bits(-999.0),
        SampleMissingPolicy::FillValue,
    )
    .unwrap();

    assert_eq!(sampled.plain(), [1.0, 2.0, 3.0, 4.0]);
    assert!(sampled.mask().is_none());
}

#[test]
fn samples_fill_or_mask_for_missing_neighbours() {
    let source = area("source", 1, 1, [0.0, 0.0, 1.0, 1.0]);
    let target = area("target", 1, 1, [2.0, 2.0, 3.0, 3.0]);
    let source_grid = grid(1, 1, vec![7.0]).unwrap();
    let info = get_area_neighbour_info(&source, &target, Some(0.25)).unwrap();

    let filled = sample_nearest_from_neighbour_info(
        &source_grid,
        target.shape(),
        &info,
        bits(-999.0),
        SampleMissingPolicy::FillValue,
    )
    .unwrap();
    let masked = sample_nearest_from_neighbour_info(
        &source_grid,
        target.shape(),
        &info,
        bits(f64::NAN),
        SampleMissingPolicy::Mask,
    )
    .unwrap();

    assert_eq!(filled.plain(), [-999.0]);
    assert!(filled.mask().is_none());
    assert!(masked.plain()[0].is_nan());
    assert_eq!(masked.mask().unwrap().masked_count(), 1);
}

#[test]
fn sampling_propagates_source_mask() {
    let source = area("source", 1, 2, [0.0, 0.0, 2.0, 1.0]);
    let target = area("target", 1, 2, [0.0, 0.0, 2.0, 1.0]);
    let source_grid = grid(1, 2, vec![1.0, 2.0])
        .unwrap()
        .with_mask(ValidityMask::from_masked_flags(vec![false, true]))
        .unwrap();
    let info = get_area_neighbour_info(&source, &target, None).unwrap();

    let sampled = sample_nearest_from_neighbour_info(
        &source_grid,
        target.shape(),
        &info,
        bits(-999.0),
        SampleMissingPolicy::FillValue,
    )
    .unwrap();

    assert_eq!(sampled.plain(), [1.0, 2.0]);
    assert_eq!(sampled.mask().unwrap().masked_count(), 1);
    assert_eq!(sampled.is_masked(1), Some(true));
}

#[test]
fn sampling_validates_geometry_sizes() {
    let source_grid = grid(1, 1, vec![7.0]).unwrap();
    let info =
        NeighbourInfo::new(2, 1, 1, vec![true, true], vec![true], vec![0], all_bits(&[0.0])).unwrap();

    let err = sample_nearest_from_neighbour_info(
        &source_grid,
        (1, 1),
        &info,
        bits(-999.0),
        SampleMissingPolicy::FillValue,
    )
    .unwrap_err();

    assert!(err.message().contains("source grid has 1 values"));
}

#[test]
fn owned_sampling_produces_same_output_as_borrowed() {
    let source = area("source", 2, 2, [0.0, 0.0, 2.0, 2.0]);
    let target = area("target", 2, 2, [0.0, 0.0, 2.0, 2.0]);
    let borrowed_grid = grid(2, 2, vec![1.0, 2.0, 3.0, 4.0]).unwrap();
    let owned_grid = grid(2, 2, vec![1.0, 2.0, 3.0, 4.0]).unwrap();
    let info = get_area_neighbour_info(&source, &target, None).unwrap();

    let borrowed = sample_nearest_from_neighbour_info(
        &borrowed_grid,
        target.shape(),
        &info,
        bits(-999.0),
        SampleMissingPolicy::FillValue,
    )
    .unwrap();
    let owned = sample_nearest_from_neighbour_info_owned(
        owned_grid,
        target.shape(),
        &info,
        bits(-999.0),
        SampleMissingPolicy::FillValue,
    )
    .unwrap();

    assert_eq!(borrowed.values(), owned.values());
    assert_eq!(borrowed.mask(), owned.mask());
}

#[test]
fn owned_sampling_propagates_source_mask() {
    let source = area("source", 1, 2, [0.0, 0.0, 2.0, 1.0]);
    let target = area("target", 1, 2, [0.0, 0.0, 2.0, 1.0]);
    let source_grid = grid(1, 2, vec![1.0, 2.0])
        .unwrap()
        .with_mask(ValidityMask::from_masked_flags(vec![false, true]))
        .unwrap();
    let info = get_area_neighbour_info(&source, &target, None).unwrap();

    let result = sample_nearest_from_neighbour_info_owned(
        source_grid,
        target.shape(),
        &info,
        bits(-999.0),
        SampleMissingPolicy::FillValue,
    )
    .unwrap();

    assert_eq!(result.plain(), [1.0, 2.0]);
    assert_eq!(result.mask().unwrap().masked_count(), 1);
    assert_eq!(result.is_masked(1), Some(true));
}

#[test]
fn weighted_sampling_averages_multiple_neighbours() {
    let source = area("source", 1, 3, [0.0, 0.0, 3.0, 1.0]);
    let target = area("target", 1, 1, [1.0, 0.0, 2.0, 1.0]);
    let source_grid = grid(1, 3, vec![10.0, 20.0, 30.0]).unwrap();
    let info = get_area_neighbour_info_with_neighbours(&source, &target, None, 3).unwrap();

    let sampled = sample_weighted_from_neighbour_info(
        &source_grid,
        target.shape(),
        &info,
        -999.0,
        SampleMissingPolicy::FillValue,
        |_| 1.0,
    )
    .unwrap();

    assert_eq!(sampled.plain(), [20.0]);
    assert!(sampled.mask().is_none());
}

#[test]
fn weighted_sampling_skips_source_masks_and_can_mask_missing_output() {
    let source = area("source", 1, 2, [0.0, 0.0, 2.0, 1.0]);
    let target = area("target", 1, 1, [0.0, 0.0, 1.0, 1.0]);
    let source_grid = grid(1, 2, vec![10.0, 20.0])
        .unwrap()
        .with_mask(ValidityMask::from_masked_flags(vec![true, false]))
        .unwrap();
    let info =
        get_area_neighbour_info_with_neighbours(&source, &target, Some(0.25), 2).unwrap();

    let sampled = sample_weighted_from_neighbour_info(
        &source_grid,
        target.shape(),
        &info,
        -999.0,
        SampleMissingPolicy::Mask,
        |_| 1.0,
    )
    .unwrap();

    assert_eq!(sampled.plain(), [-999.0]);
    assert_eq!(sampled.mask().unwrap().is_masked(0), Some(true));
}

#[test]
fn weighted_sampling_owned_matches_borrowed() {
    let source = area("source", 1, 2, [0.0, 0.0, 2.0, 1.0]);
    let target = area("target", 1, 1, [0.0, 0.0, 2.0, 1.0]);
    let source_grid = grid(1, 2, vec![10.0, 20.0]).unwrap();
    let info = get_area_neighbour_info_with_neighbours(&source, &target, None, 2).unwrap();

    let borrowed = sample_weighted_from_neighbour_info(
        &source_grid,
        target.shape(),
        &info,
        -999.0,
        SampleMissingPolicy::FillValue,
        |distance| gaussian_weight(distance, 2.0).unwrap(),
    )
    .unwrap();
    let owned = sample_weighted_from_neighbour_info_owned(
        source_grid,
        target.shape(),
        &info,
        -999.0,
        SampleMissingPolicy::FillValue,
        |distance| gaussian_weight(distance, 2.0).unwrap(),
    )
    .unwrap();

    assert_eq!(borrowed.values(), owned.values());
}

#[test]
fn gaussian_weight_validates_inputs() {
    assert_eq!(gaussian_weight(0.0, 2.0).unwrap(), 1.0);
    assert!(gaussian_weight(-1.0, 2.0).is_err());
    assert!(gaussian_weight(1.0, 0.0).is_err());
}

#[test]
fn area_neighbour_info_rejects_zero_neighbours() {
    let source = area("source", 1, 1, [0.0, 0.0, 1.0, 1.0]);
    let target = area("target", 1, 1, [0.0, 0.0, 1.0, 1.0]);

    assert!(get_area_neighbour_info_with_neighbours(&source, &target, None, 0).is_err());
}

#[test]
fn weighted_sampling_works_with_single_neighbour() {
    let source = area("source", 1, 2, [0.0, 0.0, 2.0, 1.0]);
    let target = area("target", 1, 1, [0.0, 0.0, 1.0, 1.0]);
    let source_grid = grid(1, 2, vec![10.0, 20.0]).unwrap();
    let info = get_area_neighbour_info(&source, &target, None).unwrap();

    let sampled = sample_weighted_from_neighbour_info(
        &source_grid,
        target.shape(),
        &info,
        -999.0,
        SampleMissingPolicy::FillValue,
        |_| 1.0,
    )
    .unwrap();

    assert_eq!(sampled.plain(), [10.0]);
}

#[test]
fn weighted_sampling_owned_propagates_source_mask() {
    let source = area("source", 1, 2, [0.0, 0.0, 2.0, 1.0]);
    let target = area("target", 1, 1, [0.0, 0.0, 1.0, 1.0]);
    let source_grid = grid(1, 2, vec![10.0, 20.0])
        .unwrap()
        .with_mask(ValidityMask::from_masked_flags(vec![false, true]))
        .unwrap();
    let info = get_area_neighbour_info(&source, &target, None).unwrap();

    let result = sample_weighted_from_neighbour_info_owned(
        source_grid,
        target.shape(),
        &info,
        -999.0,
        SampleMissingPolicy::FillValue,
        |_| 1.0,
    )
    .unwrap();

    assert_eq!(result.plain(), [10.0]);
    assert!(result.mask().is_none());
}
