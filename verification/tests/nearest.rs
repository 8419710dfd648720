use rusty_sat::area::{AreaDefinition, AreaGrid};
use rusty_sat::array::{AnyDataArray, Coordinate, DataGrid, ValidityMask};
use rusty_sat::chunks::ChunkGrid;
use rusty_sat::dataset::{DataId, Dataset};
use rusty_sat::error::{Result, RustySatError};
use rusty_sat::metadata::{MetadataTable, MetadataValue};
use rusty_sat::nearest::NearestAreaResampler;
use rusty_sat::number::F64;
use rusty_sat::swath::SwathDefinition;
use rusty_sat::text_map::TextMap;
use std::sync::Mutex;

fn bits(value: f64) -> F64 {
    F64::from_bits(value.to_bits())
}

fn plain(value: F64) -> f64 {
    f64::from_bits(value.to_bits())
}

fn all_bits(values: &[f64]) -> Vec<F64> {
    values.iter().map(|value| bits(*value)).collect()
}

fn all_plain(values: &[F64]) -> Vec<f64> {
    values.iter().map(|value| plain(*value)).collect()
}

/// The number in a text, with its shortest text.
fn read(text: String) -> Option<(F64, String)> {
    let value = text.parse::<f64>().ok()?;
    Some((bits(value), value.to_string()))
}

/// A part of the way between two bounds, of `count` parts.
fn part(low: F64, high: F64, count: usize) -> F64 {
    bits((plain(high) - plain(low)) / count as f64)
}

fn extent(area: &AreaDefinition) -> [f64; 4] {
    area.area_extent().map(plain)
}

fn pixel_size(area: &AreaDefinition) -> (f64, f64) {
    let (x, y) = area.pixel_size(&part);
    (plain(x), plain(y))
}

/// The centre of a pixel.
fn pixel_center(area: &AreaDefinition, y: usize, x: usize) -> (f64, f64) {
    let extent = extent(area);
    let (pixel_size_x, pixel_size_y) = pixel_size(area);
    (
        extent[0] + (x as f64 + 0.5) * pixel_size_x,
        extent[3] - (y as f64 + 0.5) * pixel_size_y,
    )
}

/// The column and the row of a position, counted from the upper left corner of an area.
fn place_from_corner(area: &AreaDefinition, x: F64, y: F64) -> (F64, F64) {
    let extent = extent(area);
    let (pixel_size_x, pixel_size_y) = pixel_size(area);
    (
        bits((plain(x) - extent[0]) / pixel_size_x),
        bits((extent[3] - plain(y)) / pixel_size_y),
    )
}

/// The column and the row of a position, counted from the centre of the first pixel.
fn place_from_centre(area: &AreaDefinition, x: F64, y: F64) -> (F64, F64) {
    let (column, row) = place_from_corner(area, x, y);
    (bits(plain(column) - 0.5), bits(plain(row) - 0.5))
}

/// The area with the coordinates of its columns and rows.
fn on_grid(area: &AreaDefinition) -> Result<AreaGrid> {
    let (height, width) = area.shape();
    let x = (0..width).map(|x| bits(pixel_center(area, 0, x).0)).collect();
    let y = (0..height).map(|y| bits(pixel_center(area, y, 0).1)).collect();
    AreaGrid::new(area.copy(), x, y)
}

fn require_plane_dims(dims: &[String]) -> Result<()> {
    if dims.len() == 2 && dims[0] == "y" && dims[1] == "x" {
        Ok(())
    } else {
        Err(RustySatError::invalid_input(
            "array dimensions do not match expected [\"y\", \"x\"]",
        ))
    }
}

/// Refuses an array that is no plane.
fn require_plane(grid: &DataGrid) -> Result<()> {
    require_plane_dims(grid.dims())
}

/// Refuses a data set with an array of numbers that is no plane.
fn require_plane_in(dataset: &Dataset) -> Result<()> {
    match dataset.data() {
        Some(grid) => require_plane(grid),
        None => Ok(()),
    }
}

/// The distance of two positions.
fn straight(lon: F64, lat: F64, x: F64, y: F64) -> F64 {
    let dx = plain(lon) - plain(x);
    let dy = plain(lat) - plain(y);
    bits((dx.powi(2) + dy.powi(2)).sqrt())
}

/// The distance of a position from the centre of a pixel.
fn centre_gap(source: &AreaDefinition, x: F64, y: F64, row: usize, column: usize) -> F64 {
    let (nearest_x, nearest_y) = pixel_center(source, row, column);
    straight(bits(nearest_x), bits(nearest_y), x, y)
}

fn resample_area_nearest(
    source_grid: &DataGrid,
    source: &AreaDefinition,
    destination: &AreaDefinition,
    radius_of_influence: Option<f64>,
    fill_value: f64,
) -> Result<DataGrid> {
    require_plane(source_grid)?;
    let locate = |x: F64, y: F64| place_from_centre(source, x, y);
    let gap = |x: F64, y: F64, row: usize, column: usize| centre_gap(source, x, y, row, column);
    rusty_sat::nearest::resample_area_nearest(
        source_grid,
        source,
        &on_grid(destination)?,
        radius_of_influence.map(bits),
        bits(fill_value),
        &locate,
        &gap,
    )
}

fn resample_area_nearest_masked_missing(
    source_grid: &DataGrid,
    source: &AreaDefinition,
    destination: &AreaDefinition,
    radius_of_influence: Option<f64>,
) -> Result<DataGrid> {
    require_plane(source_grid)?;
    let locate = |x: F64, y: F64| place_from_centre(source, x, y);
    let gap = |x: F64, y: F64, row: usize, column: usize| centre_gap(source, x, y, row, column);
    rusty_sat::nearest::resample_area_nearest_masked_missing(
        source_grid,
        source,
        &on_grid(destination)?,
        radius_of_influence.map(bits),
        &locate,
        &gap,
    )
}

fn resample_area_nearest_lazy<R: Fn(usize, usize) -> Result<DataGrid>>(
    layout: ChunkGrid,
    source: &AreaDefinition,
    destination: &AreaDefinition,
    radius_of_influence: Option<f64>,
    fill_value: f64,
    read: &R,
) -> Result<DataGrid> {
    let locate = |x: F64, y: F64| place_from_centre(source, x, y);
    let gap = |x: F64, y: F64, row: usize, column: usize| centre_gap(source, x, y, row, column);
    let planes = |row: usize, column: usize| {
        let chunk = read(row, column)?;
        require_plane(&chunk)?;
        Ok(chunk)
    };
    rusty_sat::nearest::resample_area_nearest_lazy(
        layout,
        source,
        &on_grid(destination)?,
        radius_of_influence.map(bits),
        bits(fill_value),
        &locate,
        &gap,
        &planes,
    )
}

fn resample_swath_nearest(
    source_grid: &DataGrid,
    source: &SwathDefinition,
    destination: &AreaDefinition,
    radius_of_influence: Option<f64>,
    fill_value: f64,
) -> Result<DataGrid> {
    require_plane(source_grid)?;
    rusty_sat::nearest::resample_swath_nearest(
        source_grid,
        source,
        &on_grid(destination)?,
        radius_of_influence.map(bits),
        bits(fill_value),
        &straight,
    )
}

fn resample_swath_nearest_masked_missing(
    source_grid: &DataGrid,
    source: &SwathDefinition,
    destination: &AreaDefinition,
    radius_of_influence: Option<f64>,
) -> Result<DataGrid> {
    require_plane(source_grid)?;
    rusty_sat::nearest::resample_swath_nearest_masked_missing(
        source_grid,
        source,
        &on_grid(destination)?,
        radius_of_influence.map(bits),
        &straight,
    )
}

fn nearest_area_dataset(
    resampler: &NearestAreaResampler,
    dataset: &Dataset,
    destination: &AreaDefinition,
) -> Result<Dataset> {
    require_plane_in(dataset)?;
    let locate = |x: F64, y: F64| place_from_centre(resampler.source(), x, y);
    let gap = |x: F64, y: F64, row: usize, column: usize| centre_gap(resampler.source(), x, y, row, column);
    resampler.resample(dataset, &on_grid(destination)?, &locate, &gap)
}

trait Plain {
    fn plain(&self) -> Vec<f64>;
}

impl Plain for DataGrid {
    fn plain(&self) -> Vec<f64> {
        all_plain(self.values())
    }
}

impl Plain for Coordinate {
    fn plain(&self) -> Vec<f64> {
        all_plain(self.values())
    }
}

impl Plain for AnyDataArray {
    fn plain(&self) -> Vec<f64> {
        all_plain(&self.numbers())
    }
}

trait Plane {
    fn shape(&self) -> (usize, usize);
}

impl Plane for DataGrid {
    fn shape(&self) -> (usize, usize) {
        self.shape_yx().unwrap()
    }
}

fn grid(height: usize, width: usize, values: Vec<f64>) -> Result<DataGrid> {
    DataGrid::new(height, width, all_bits(&values))
}

fn map_of(pairs: &[(&str, &str)]) -> TextMap<String> {
    let mut map = TextMap::new();
    for (key, value) in pairs {
        map.insert(key.to_string(), value.to_string());
    }
    map
}

fn names(dims: &[&str]) -> Vec<String> {
    dims.iter().map(|dim| dim.to_string()).collect()
}

fn table(entries: Vec<(&str, MetadataValue)>) -> MetadataValue {
    let mut table = MetadataTable::new();
    for (name, value) in entries {
        table.insert(name, value);
    }
    MetadataValue::Table(table)
}

fn value_at<'a>(value: &'a MetadataValue, path: &[&str]) -> Option<&'a MetadataValue> {
    path.iter()
        .try_fold(value, |value, name| value.as_table()?.get(name))
}

fn area(id: &str, height: usize, width: usize, area_extent: [f64; 4]) -> AreaDefinition {
    AreaDefinition::from_parts(
        id,
        id,
        id,
        map_of(&[("proj", "latlong")]),
        height,
        width,
        area_extent.map(bits),
    )
    .unwrap()
}

#[test]
fn nearest_resamples_area_to_finer_area() {
    let source = area("source", 2, 2, [0.0, 0.0, 2.0, 2.0]);
    let destination = area("destination", 4, 4, [0.0, 0.0, 2.0, 2.0]);
    let source_grid = grid(2, 2, vec![1.0, 2.0, 3.0, 4.0]).unwrap();

    let result =
        resample_area_nearest(&source_grid, &source, &destination, None, f64::NAN).unwrap();

    assert_eq!(result.shape(), (4, 4));
    assert_eq!(
        result.plain(),
        [
            1.0, 1.0, 2.0, 2.0, //
            1.0, 1.0, 2.0, 2.0, //
            3.0, 3.0, 4.0, 4.0, //
            3.0, 3.0, 4.0, 4.0,
        ]
    );
    assert_eq!(
        result.coord("x").unwrap().plain(),
        [0.25, 0.75, 1.25, 1.75]
    );
    assert_eq!(
        result.coord("y").unwrap().plain(),
        [1.75, 1.25, 0.75, 0.25]
    );
}

#[test]
fn nearest_propagates_source_mask_for_area_resampling() {
    let source = area("source", 2, 2, [0.0, 0.0, 2.0, 2.0]);
    let destination = area("destination", 2, 2, [0.0, 0.0, 2.0, 2.0]);
    let source_grid = grid(2, 2, vec![1.0, 2.0, 3.0, 4.0])
        .unwrap()
        .with_mask(ValidityMask::from_masked_flags(vec![false, true, false, false]))
        .unwrap();

    let result =
        resample_area_nearest(&source_grid, &source, &destination, None, -999.0).unwrap();

    assert_eq!(result.plain(), [1.0, 2.0, 3.0, 4.0]);
    assert_eq!(result.mask().unwrap().masked_count(), 1);
    assert_eq!(result.is_masked(1), Some(true));
}

#[test]
fn nearest_preserves_non_xy_coordinates_and_replaces_xy_axes() {
    let source = area("source", 2, 2, [0.0, 0.0, 2.0, 2.0]);
    let destination = area("destination", 1, 1, [0.0, 1.0, 1.0, 2.0]);
    let source_grid = grid(2, 2, vec![1.0, 2.0, 3.0, 4.0])
        .unwrap()
        .with_coordinate("acq_time", Coordinate::scalar(bits(123.0)))
        .unwrap()
        .with_coordinate("x", Coordinate::axis("x", all_bits(&[0.5, 1.5])))
        .unwrap()
        .with_coordinate(
            "longitude",
            Coordinate::new(names(&["y", "x"]), all_bits(&[1.0, 2.0, 3.0, 4.0])),
        )
        .unwrap();

    let result =
        resample_area_nearest(&source_grid, &source, &destination, None, f64::NAN).unwrap();

    assert_eq!(result.coord("acq_time").unwrap().plain(), [123.0]);
    assert!(result.coord("longitude").is_none());
    assert_eq!(result.coord("x").unwrap().plain(), [0.5]);
    assert_eq!(result.coord("y").unwrap().plain(), [1.5]);
}

/// A plane that is read in chunks, with the chunks that were asked for.
struct MatrixSource {
    layout: ChunkGrid,
    values: Vec<f64>,
    requests: Mutex<Vec<(usize, usize)>>,
}

impl MatrixSource {
    fn new(height: usize, width: usize, chunk: usize, values: Vec<f64>) -> Self {
        MatrixSource {
            layout: ChunkGrid::new(height, width, chunk, chunk).unwrap(),
            values,
            requests: Mutex::new(Vec::new()),
        }
    }

    fn read_chunk(&self, row: usize, column: usize) -> Result<DataGrid> {
        self.requests.lock().unwrap().push((row, column));
        let (height, width) = self.layout.shape();
        let (chunk_y, chunk_x) = self.layout.chunk_shape();
        let (origin_y, origin_x) = (row * chunk_y, column * chunk_x);
        let (rows, columns) = (chunk_y.min(height - origin_y), chunk_x.min(width - origin_x));
        let mut values = Vec::with_capacity(rows * columns);
        for y in 0..rows {
            for x in 0..columns {
                values.push(self.values[(origin_y + y) * width + origin_x + x]);
            }
        }
        grid(rows, columns, values)
    }
}

#[test]
fn nearest_resamples_lazy_area_source_by_loading_source_chunks() {
    let source = area("source", 2, 2, [0.0, 0.0, 2.0, 2.0]);
    let destination = area("destination", 4, 4, [0.0, 0.0, 2.0, 2.0]);
    let source_values = MatrixSource::new(2, 2, 1, vec![1.0, 2.0, 3.0, 4.0]);

    let result = resample_area_nearest_lazy(
        source_values.layout,
        &source,
        &destination,
        None,
        f64::NAN,
        &|row: usize, column: usize| source_values.read_chunk(row, column),
    )
    .unwrap();

    assert_eq!(result.shape(), (4, 4));
    assert_eq!(result.coord("x").unwrap().dims(), &vec!["x".to_string()]);
    assert_eq!(result.coord("y").unwrap().dims(), &vec!["y".to_string()]);
    assert_eq!(
        result.plain(),
        [
            1.0, 1.0, 2.0, 2.0, //
            1.0, 1.0, 2.0, 2.0, //
            3.0, 3.0, 4.0, 4.0, //
            3.0, 3.0, 4.0, 4.0,
        ]
    );
    assert_eq!(source_values.requests.lock().unwrap().len(), 4);
}

#[test]
fn nearest_lazy_area_source_uses_fill_value_outside_radius() {
    let source = area("source", 1, 1, [0.0, 0.0, 1.0, 1.0]);
    let destination = area("destination", 1, 1, [1.0, 1.0, 2.0, 2.0]);
    let source_values = MatrixSource::new(1, 1, 1, vec![5.0]);

    let result = resample_area_nearest_lazy(
        source_values.layout,
        &source,
        &destination,
        Some(0.25),
        -999.0,
        &|row: usize, column: usize| source_values.read_chunk(row, column),
    )
    .unwrap();

    assert_eq!(result.plain(), [-999.0]);
}

#[test]
fn nearest_uses_fill_value_outside_radius() {
    let source = area("source", 1, 1, [0.0, 0.0, 1.0, 1.0]);
    let destination = area("destination", 1, 1, [1.0, 1.0, 2.0, 2.0]);
    let source_grid = grid(1, 1, vec![5.0]).unwrap();

    let result =
        resample_area_nearest(&source_grid, &source, &destination, Some(0.25), -999.0).unwrap();

    assert_eq!(result.plain(), [-999.0]);
}

#[test]
fn nearest_can_mask_missing_area_pixels() {
    let source = area("source", 1, 1, [0.0, 0.0, 1.0, 1.0]);
    let destination = area("destination", 1, 1, [1.0, 1.0, 2.0, 2.0]);
    let source_grid = grid(1, 1, vec![5.0]).unwrap();

    let result =
        resample_area_nearest_masked_missing(&source_grid, &source, &destination, Some(0.25))
            .unwrap();

    assert!(result.plain()[0].is_nan());
    assert_eq!(result.mask().unwrap().masked_count(), 1);
    assert_eq!(result.is_masked(0), Some(true));
}

#[test]
fn nearest_uses_edge_pixel_outside_extent_when_inside_radius() {
    let source = area("source", 1, 1, [0.0, 0.0, 1.0, 1.0]);
    let destination = area("destination", 1, 1, [1.0, 0.0, 2.0, 1.0]);
    let source_grid = grid(1, 1, vec![5.0]).unwrap();

    let result =
        resample_area_nearest(&source_grid, &source, &destination, Some(1.0), -999.0).unwrap();

    assert_eq!(result.plain(), [5.0]);
}

#[test]
fn nearest_without_radius_uses_nearest_edge_pixel_for_outside_target() {
    let source = area("source", 2, 2, [0.0, 0.0, 2.0, 2.0]);
    let destination = area("destination", 1, 1, [2.0, 1.0, 3.0, 2.0]);
    let source_grid = grid(2, 2, vec![1.0, 2.0, 3.0, 4.0]).unwrap();

    let result =
        resample_area_nearest(&source_grid, &source, &destination, None, -999.0).unwrap();

    assert_eq!(result.plain(), [2.0]);
}

#[test]
fn nearest_zero_radius_only_accepts_exact_pixel_center_matches() {
    let source = area("source", 1, 1, [0.0, 0.0, 1.0, 1.0]);
    let exact_destination = area("exact", 1, 1, [0.0, 0.0, 1.0, 1.0]);
    let shifted_destination = area("shifted", 1, 1, [0.1, 0.0, 1.1, 1.0]);
    let source_grid = grid(1, 1, vec![5.0]).unwrap();

    let exact =
        resample_area_nearest(&source_grid, &source, &exact_destination, Some(0.0), -999.0)
            .unwrap();
    let shifted = resample_area_nearest(
        &source_grid,
        &source,
        &shifted_destination,
        Some(0.0),
        -999.0,
    )
    .unwrap();

    assert_eq!(exact.plain(), [5.0]);
    assert_eq!(shifted.plain(), [-999.0]);
}

#[test]
fn nearest_resampler_rejects_different_projection_metadata() {
    let source = area("source", 1, 1, [0.0, 0.0, 1.0, 1.0]);
    let destination = AreaDefinition::from_parts(
        "destination",
        "destination",
        "destination",
        map_of(&[("proj", "merc")]),
        1,
        1,
        [0.0, 0.0, 1.0, 1.0].map(bits),
    )
    .unwrap();
    let id = DataId::new("image").unwrap();
    let dataset = Dataset::new(id).with_data(grid(1, 1, vec![5.0]).unwrap());
    let resampler = NearestAreaResampler::new(source);

    assert!(matches!(
        nearest_area_dataset(&resampler, &dataset, &destination).unwrap_err(),
        RustySatError::Unsupported { .. }
    ));
}

#[test]
fn nearest_resamples_swath_points_to_lonlat_area() {
    let swath =
        SwathDefinition::from_lonlats(2, 2, all_bits(&[0.5, 1.5, 0.5, 1.5]), all_bits(&[1.5, 1.5, 0.5, 0.5]))
            .unwrap();
    let source_grid = grid(2, 2, vec![1.0, 2.0, 3.0, 4.0]).unwrap();
    let destination = area("destination", 2, 2, [0.0, 0.0, 2.0, 2.0]);

    let result =
        resample_swath_nearest(&source_grid, &swath, &destination, Some(0.0), -999.0).unwrap();

    assert_eq!(result.plain(), [1.0, 2.0, 3.0, 4.0]);
}

#[test]
fn nearest_propagates_source_mask_for_swath_resampling() {
    let swath =
        SwathDefinition::from_lonlats(2, 2, all_bits(&[0.5, 1.5, 0.5, 1.5]), all_bits(&[1.5, 1.5, 0.5, 0.5]))
            .unwrap();
    let source_grid = grid(2, 2, vec![1.0, 2.0, 3.0, 4.0])
        .unwrap()
        .with_mask(ValidityMask::from_masked_flags(vec![false, false, true, false]))
        .unwrap();
    let destination = area("destination", 2, 2, [0.0, 0.0, 2.0, 2.0]);

    let result =
        resample_swath_nearest(&source_grid, &swath, &destination, Some(0.0), -999.0).unwrap();

    assert_eq!(result.plain(), [1.0, 2.0, 3.0, 4.0]);
    assert_eq!(result.mask().unwrap().masked_count(), 1);
    assert_eq!(result.is_masked(2), Some(true));
}

#[test]
fn nearest_swath_uses_fill_value_when_outside_radius() {
    let swath = SwathDefinition::from_lonlats(1, 1, all_bits(&[0.5]), all_bits(&[0.5])).unwrap();
    let source_grid = grid(1, 1, vec![7.0]).unwrap();
    let destination = area("destination", 1, 1, [1.0, 1.0, 2.0, 2.0]);

    let result =
        resample_swath_nearest(&source_grid, &swath, &destination, Some(0.25), -999.0).unwrap();

    assert_eq!(result.plain(), [-999.0]);
}

#[test]
fn nearest_can_mask_missing_swath_pixels() {
    let swath = SwathDefinition::from_lonlats(1, 1, all_bits(&[0.5]), all_bits(&[0.5])).unwrap();
    let source_grid = grid(1, 1, vec![7.0]).unwrap();
    let destination = area("destination", 1, 1, [1.0, 1.0, 2.0, 2.0]);

    let result =
        resample_swath_nearest_masked_missing(&source_grid, &swath, &destination, Some(0.25))
            .unwrap();

    assert!(result.plain()[0].is_nan());
    assert_eq!(result.mask().unwrap().masked_count(), 1);
    assert_eq!(result.is_masked(0), Some(true));
}

#[test]
fn nearest_swath_requires_coordinates() {
    let swath = SwathDefinition::new(1, 1).unwrap();
    let source_grid = grid(1, 1, vec![7.0]).unwrap();
    let destination = area("destination", 1, 1, [0.0, 0.0, 1.0, 1.0]);

    assert!(matches!(
        resample_swath_nearest(&source_grid, &swath, &destination, None, -999.0).unwrap_err(),
        RustySatError::InvalidInput { .. }
    ));
}

#[test]
fn resampler_trait_returns_dataset_with_destination_area_metadata() {
    let source = area("source", 2, 2, [0.0, 0.0, 2.0, 2.0]);
    let destination = area("destination", 1, 1, [0.0, 1.0, 1.0, 2.0]);
    let id = DataId::new("image").unwrap();
    let mut dataset =
        Dataset::new(id).with_data(grid(2, 2, vec![1.0, 2.0, 3.0, 4.0]).unwrap());
    dataset.insert_metadata("units", "K");
    dataset
        .insert_attr(
            "orbital_parameters",
            table(vec![(
                "satellite_nominal_longitude",
                MetadataValue::float(bits(140.7)).unwrap(),
            )]),
        );
    let resampler = NearestAreaResampler::new(source).with_fill_value(bits(-999.0));

    let result = nearest_area_dataset(&resampler, &dataset, &destination).unwrap();

    assert_eq!(result.data().unwrap().plain(), [1.0]);
    assert_eq!(result.metadata().get("units"), Some(&"K".to_string()));
    assert_eq!(
        result.attr("units").and_then(MetadataValue::as_str),
        Some("K")
    );
    assert_eq!(
        result
            .attr("orbital_parameters")
            .and_then(|value| { value_at(value, &["satellite_nominal_longitude"]) }),
        Some(&MetadataValue::float(bits(140.7)).unwrap())
    );
    assert_eq!(
        result.metadata().get("area"),
        Some(&"destination".to_string())
    );
    assert_eq!(
        result.metadata().get("resampler"),
        Some(&"nearest_area".to_string())
    );
}

#[test]
fn resampler_trait_can_mask_missing_area_pixels() {
    let source = area("source", 1, 1, [0.0, 0.0, 1.0, 1.0]);
    let destination = area("destination", 1, 1, [1.0, 1.0, 2.0, 2.0]);
    let id = DataId::new("image").unwrap();
    let dataset = Dataset::new(id).with_data(grid(1, 1, vec![5.0]).unwrap());
    let resampler = NearestAreaResampler::new(source)
        .with_radius_of_influence(bits(0.25))
        .unwrap()
        .with_masked_missing();

    let result = nearest_area_dataset(&resampler, &dataset, &destination).unwrap();

    assert!(result.data().unwrap().plain()[0].is_nan());
    assert_eq!(result.data().unwrap().mask().unwrap().masked_count(), 1);
}
