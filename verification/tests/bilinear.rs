use rusty_sat::area::{AreaDefinition, AreaGrid};
use rusty_sat::array::{AnyDataArray, Coordinate, DataGrid, ValidityMask};
use rusty_sat::bilinear::{BilinearAreaResampler, BilinearCell};
use rusty_sat::dataset::{DataId, Dataset};
use rusty_sat::error::{Result, RustySatError};
use rusty_sat::metadata::MetadataValue;
use rusty_sat::number::F64;
use rusty_sat::text_map::TextMap;

fn bits(value: f64) -> F64 {
    F64::from_bits(value.to_bits())
}

fn plain(value: F64) -> f64 {
    f64::from_bits(value.to_bits())
}

fn all_bits(values: &[f64]) -> Vec<F64> {
    values.iter().map(|value| bits(*value)).collect()
}

fn all_plain(values: &[F64]) -> Vec<f64> {
    values.iter().map(|value| plain(*value)).collect()
}

/// A part of the way between two bounds, of `count` parts.
fn part(low: F64, high: F64, count: usize) -> F64 {
    bits((plain(high) - plain(low)) / count as f64)
}

fn extent(area: &AreaDefinition) -> [f64; 4] {
    area.area_extent().map(plain)
}

fn pixel_size(area: &AreaDefinition) -> (f64, f64) {
    let (x, y) = area.pixel_size(&part);
    (plain(x), plain(y))
}

/// The centre of a pixel.
fn pixel_center(area: &AreaDefinition, y: usize, x: usize) -> (f64, f64) {
    let extent = extent(area);
    let (pixel_size_x, pixel_size_y) = pixel_size(area);
    (
        extent[0] + (x as f64 + 0.5) * pixel_size_x,
        extent[3] - (y as f64 + 0.5) * pixel_size_y,
    )
}

/// The column and the row of a position, counted from the upper left corner of an area.
fn place_from_corner(area: &AreaDefinition, x: F64, y: F64) -> (F64, F64) {
    let extent = extent(area);
    let (pixel_size_x, pixel_size_y) = pixel_size(area);
    (
        bits((plain(x) - extent[0]) / pixel_size_x),
        bits((extent[3] - plain(y)) / pixel_size_y),
    )
}

/// The column and the row of a position, counted from the centre of the first pixel.
fn place_from_centre(area: &AreaDefinition, x: F64, y: F64) -> (F64, F64) {
    let (column, row) = place_from_corner(area, x, y);
    (bits(plain(column) - 0.5), bits(plain(row) - 0.5))
}

/// The area with the coordinates of its columns and rows.
fn on_grid(area: &AreaDefinition) -> Result<AreaGrid> {
    let (height, width) = area.shape();
    let x = (0..width).map(|x| bits(pixel_center(area, 0, x).0)).collect();
    let y = (0..height).map(|y| bits(pixel_center(area, y, 0).1)).collect();
    AreaGrid::new(area.copy(), x, y)
}

fn require_plane_dims(dims: &[String]) -> Result<()> {
    if dims.len() == 2 && dims[0] == "y" && dims[1] == "x" {
        Ok(())
    } else {
        Err(RustySatError::invalid_input(
            "array dimensions do not match expected [\"y\", \"x\"]",
        ))
    }
}

/// Refuses an array that is no plane.
fn require_plane(grid: &DataGrid) -> Result<()> {
    require_plane_dims(grid.dims())
}

/// Refuses a data set with an array of numbers that is no plane.
fn require_plane_in(dataset: &Dataset) -> Result<()> {
    match dataset.data() {
        Some(grid) => require_plane(grid),
        None => Ok(()),
    }
}

/// The weighted mean of the values of a cell.
fn mix(v00: F64, v01: F64, v10: F64, v11: F64, cell: BilinearCell) -> F64 {
    let wx = plain(cell.x) - cell.x0 as f64;
    let wy = plain(cell.y) - cell.y0 as f64;
    let top = plain(v00) * (1.0 - wx) + plain(v01) * wx;
    let bottom = plain(v10) * (1.0 - wx) + plain(v11) * wx;
    bits(top * (1.0 - wy) + bottom * wy)
}

fn resample_area_bilinear(
    source_grid: &DataGrid,
    source: &AreaDefinition,
    destination: &AreaDefinition,
    fill_value: f64,
) -> Result<DataGrid> {
    require_plane(source_grid)?;
    let locate = |x: F64, y: F64| place_from_centre(source, x, y);
    rusty_sat::bilinear::resample_area_bilinear(
        source_grid,
        source,
        &on_grid(destination)?,
        bits(fill_value),
        &locate,
        &mix,
    )
}

fn resample_area_bilinear_masked_missing(
    source_grid: &DataGrid,
    source: &AreaDefinition,
    destination: &AreaDefinition,
) -> Result<DataGrid> {
    require_plane(source_grid)?;
    let locate = |x: F64, y: F64| place_from_centre(source, x, y);
    rusty_sat::bilinear::resample_area_bilinear_masked_missing(
        source_grid,
        source,
        &on_grid(destination)?,
        &locate,
        &mix,
    )
}

fn resample_area_bilinear_owned(
    source_grid: DataGrid,
    source: &AreaDefinition,
    destination: &AreaDefinition,
    fill_value: f64,
) -> Result<DataGrid> {
    require_plane(&source_grid)?;
    let locate = |x: F64, y: F64| place_from_centre(source, x, y);
    rusty_sat::bilinear::resample_area_bilinear_owned(
        source_grid,
        source,
        &on_grid(destination)?,
        bits(fill_value),
        &locate,
        &mix,
    )
}

fn bilinear_dataset(
    resampler: &BilinearAreaResampler,
    dataset: &Dataset,
    destination: &AreaDefinition,
) -> Result<Dataset> {
    require_plane_in(dataset)?;
    let locate = |x: F64, y: F64| place_from_centre(resampler.source(), x, y);
    resampler.resample(dataset, &on_grid(destination)?, &locate, &mix)
}

fn bilinear_dataset_owned(
    resampler: &BilinearAreaResampler,
    dataset: Dataset,
    destination: &AreaDefinition,
) -> Result<Dataset> {
    require_plane_in(&dataset)?;
    let locate = |x: F64, y: F64| place_from_centre(resampler.source(), x, y);
    resampler.resample_owned(dataset, &on_grid(destination)?, &locate, &mix)
}

trait Plain {
    fn plain(&self) -> Vec<f64>;
}

impl Plain for DataGrid {
    fn plain(&self) -> Vec<f64> {
        all_plain(self.values())
    }
}

impl Plain for Coordinate {
    fn plain(&self) -> Vec<f64> {
        all_plain(self.values())
    }
}

impl Plain for AnyDataArray {
    fn plain(&self) -> Vec<f64> {
        all_plain(&self.numbers())
    }
}

trait Plane {
    fn shape(&self) -> (usize, usize);
}

impl Plane for DataGrid {
    fn shape(&self) -> (usize, usize) {
        self.shape_yx().unwrap()
    }
}

fn grid(height: usize, width: usize, values: Vec<f64>) -> Result<DataGrid> {
    DataGrid::new(height, width, all_bits(&values))
}

fn map_of(pairs: &[(&str, &str)]) -> TextMap<String> {
    let mut map = TextMap::new();
    for (key, value) in pairs {
        map.insert(key.to_string(), value.to_string());
    }
    map
}

fn area(id: &str, height: usize, width: usize, extent: [f64; 4]) -> AreaDefinition {
    AreaDefinition::from_parts(
        id,
        id,
        id,
        map_of(&[("proj", "longlat")]),
        height,
        width,
        extent.map(bits),
    )
    .unwrap()
}

#[test]
fn bilinear_samples_area_fractional_pixel_center() {
    let source = area("source", 2, 2, [0.0, 0.0, 2.0, 2.0]);
    let destination = area("destination", 1, 1, [0.5, 0.5, 1.5, 1.5]);
    let source_grid = grid(2, 2, vec![0.0, 10.0, 20.0, 30.0]).unwrap();

    let resampled = resample_area_bilinear(&source_grid, &source, &destination, -999.0).unwrap();

    assert_eq!(resampled.shape(), (1, 1));
    assert_eq!(resampled.plain(), [15.0]);
    assert!(resampled.mask().is_none());
}

#[test]
fn bilinear_exact_pixel_centers_reproduce_source_values() {
    let source = area("source", 2, 2, [0.0, 0.0, 2.0, 2.0]);
    let source_grid = grid(2, 2, vec![1.0, 2.0, 3.0, 4.0]).unwrap();

    let resampled = resample_area_bilinear(&source_grid, &source, &source, -999.0).unwrap();

    assert_eq!(resampled.values(), source_grid.values());
}

#[test]
fn bilinear_uses_fill_or_mask_for_missing_samples() {
    let source = area("source", 2, 2, [0.0, 0.0, 2.0, 2.0]);
    let destination = area("destination", 1, 1, [0.5, 0.5, 1.5, 1.5]);
    let source_grid = grid(2, 2, vec![0.0, 10.0, 20.0, 30.0])
        .unwrap()
        .with_mask(ValidityMask::from_masked_flags(vec![false, true, false, false]))
        .unwrap();

    let filled = resample_area_bilinear(&source_grid, &source, &destination, -999.0).unwrap();
    assert_eq!(filled.plain(), [-999.0]);
    assert!(filled.mask().is_none());

    let masked = resample_area_bilinear_masked_missing(&source_grid, &source, &destination).unwrap();
    assert!(masked.plain()[0].is_nan());
    assert!(masked.is_masked(0).unwrap());
}

#[test]
fn bilinear_owned_matches_borrowed() {
    let source = area("source", 2, 2, [0.0, 0.0, 2.0, 2.0]);
    let destination = area("destination", 1, 1, [0.5, 0.5, 1.5, 1.5]);
    let borrowed_grid = grid(2, 2, vec![0.0, 10.0, 20.0, 30.0]).unwrap();
    let owned_grid = borrowed_grid.copy();

    let borrowed =
        resample_area_bilinear(&borrowed_grid, &source, &destination, -999.0).unwrap();
    let owned =
        resample_area_bilinear_owned(owned_grid, &source, &destination, -999.0).unwrap();

    assert_eq!(borrowed, owned);
}

#[test]
fn bilinear_resampler_rejects_different_projection_metadata() {
    let source = area("source", 2, 2, [0.0, 0.0, 2.0, 2.0]);
    let destination = AreaDefinition::from_parts(
        "destination",
        "destination",
        "destination",
        map_of(&[("proj", "merc")]),
        1,
        1,
        [0.5, 0.5, 1.5, 1.5].map(bits),
    )
    .unwrap();
    let source_grid = grid(2, 2, vec![0.0, 10.0, 20.0, 30.0]).unwrap();
    let dataset = Dataset::new(DataId::new("image").unwrap()).with_data(source_grid);
    let resampler = BilinearAreaResampler::new(source);

    let err = bilinear_dataset(&resampler, &dataset, &destination).unwrap_err();

    assert!(err.message().contains("different projections"));
}

#[test]
fn resampler_preserves_metadata_and_coords() {
    let source = area("source", 2, 2, [0.0, 0.0, 2.0, 2.0]);
    let destination = area("destination", 1, 1, [0.5, 0.5, 1.5, 1.5]);
    let source_grid = grid(2, 2, vec![0.0, 10.0, 20.0, 30.0])
        .unwrap()
        .with_coordinate("time", Coordinate::scalar(bits(1.0)))
        .unwrap();
    let id = DataId::new("image").unwrap();
    let mut dataset = Dataset::new(id.copy()).with_data(source_grid);
    dataset.insert_metadata("units", "K");
    dataset
        .insert_attr("nested", MetadataValue::string("kept"));
    let resampler = BilinearAreaResampler::new(source);

    let output = bilinear_dataset(&resampler, &dataset, &destination).unwrap();

    assert_eq!(output.id(), &id);
    assert_eq!(output.data().unwrap().plain(), [15.0]);
    assert_eq!(output.metadata().get("units"), Some(&"K".to_string()));
    assert_eq!(
        output.metadata().get("resampler"),
        Some(&"bilinear".to_string())
    );
    assert!(output.data().unwrap().coord("time").is_some());
    assert!(output.data().unwrap().coord("x").is_some());
    assert!(output.data().unwrap().coord("y").is_some());
    assert_eq!(output.attr("nested"), Some(&MetadataValue::string("kept")));
}

#[test]
fn resample_owned_through_trait_produces_same_output() {
    let source = area("source", 2, 2, [0.0, 0.0, 2.0, 2.0]);
    let destination = area("destination", 1, 1, [0.5, 0.5, 1.5, 1.5]);
    let id = DataId::new("image").unwrap();
    let ds1 = Dataset::new(id.copy())
        .with_data(grid(2, 2, vec![0.0, 10.0, 20.0, 30.0]).unwrap());
    let ds2 =
        Dataset::new(id).with_data(grid(2, 2, vec![0.0, 10.0, 20.0, 30.0]).unwrap());
    let resampler = BilinearAreaResampler::new(source);

    let borrowed = bilinear_dataset(&resampler, &ds1, &destination).unwrap();
    let owned = bilinear_dataset_owned(&resampler, ds2, &destination).unwrap();

    assert_eq!(borrowed.data().unwrap().plain(), [15.0]);
    assert_eq!(
        owned.data().unwrap().values(),
        borrowed.data().unwrap().values()
    );
}

#[test]
fn bilinear_returns_fill_when_fully_outside_source_extent() {
    let source = area("source", 2, 2, [0.0, 0.0, 2.0, 2.0]);
    let destination = area("destination", 1, 1, [5.0, 5.0, 6.0, 6.0]);
    let source_grid = grid(2, 2, vec![0.0, 10.0, 20.0, 30.0]).unwrap();

    let resampled = resample_area_bilinear(&source_grid, &source, &destination, -999.0).unwrap();

    assert_eq!(resampled.plain(), [-999.0]);
    assert!(resampled.mask().is_none());
}

#[test]
fn bilinear_rejects_source_nans_during_interpolation() {
    let source = area("source", 2, 2, [0.0, 0.0, 2.0, 2.0]);
    let destination = area("destination", 1, 1, [0.5, 0.5, 1.5, 1.5]);
    let source_grid = grid(2, 2, vec![f64::NAN, 10.0, 20.0, 30.0]).unwrap();

    let resampled = resample_area_bilinear(&source_grid, &source, &destination, -999.0).unwrap();

    assert_eq!(resampled.plain(), [-999.0]);
}
