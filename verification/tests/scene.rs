use rusty_sat::area::{AreaDefinition, AreaGrid};
use rusty_sat::array::{AnyDataArray, Coordinate, DataGrid};
use rusty_sat::dataset::{DataId, Dataset};
use rusty_sat::error::{Result, RustySatError};
use rusty_sat::nearest::NearestAreaResampler;
use rusty_sat::number::F64;
use rusty_sat::resampler::Resampler;
use rusty_sat::scene::Scene;
use rusty_sat::text_map::TextMap;

fn bits(value: f64) -> F64 {
    F64::from_bits(value.to_bits())
}

fn plain(value: F64) -> f64 {
    f64::from_bits(value.to_bits())
}

fn all_bits(values: &[f64]) -> Vec<F64> {
    values.iter().map(|value| bits(*value)).collect()
}

fn all_plain(values: &[F64]) -> Vec<f64> {
    values.iter().map(|value| plain(*value)).collect()
}

/// A part of the way between two bounds, of `count` parts.
fn part(low: F64, high: F64, count: usize) -> F64 {
    bits((plain(high) - plain(low)) / count as f64)
}

fn extent(area: &AreaDefinition) -> [f64; 4] {
    area.area_extent().map(plain)
}

fn pixel_size(area: &AreaDefinition) -> (f64, f64) {
    let (x, y) = area.pixel_size(&part);
    (plain(x), plain(y))
}

/// The centre of a pixel.
fn pixel_center(area: &AreaDefinition, y: usize, x: usize) -> (f64, f64) {
    let extent = extent(area);
    let (pixel_size_x, pixel_size_y) = pixel_size(area);
    (
        extent[0] + (x as f64 + 0.5) * pixel_size_x,
        extent[3] - (y as f64 + 0.5) * pixel_size_y,
    )
}

/// The column and the row of a position, counted from the upper left corner of an area.
fn place_from_corner(area: &AreaDefinition, x: F64, y: F64) -> (F64, F64) {
    let extent = extent(area);
    let (pixel_size_x, pixel_size_y) = pixel_size(area);
    (
        bits((plain(x) - extent[0]) / pixel_size_x),
        bits((extent[3] - plain(y)) / pixel_size_y),
    )
}

/// The column and the row of a position, counted from the centre of the first pixel.
fn place_from_centre(area: &AreaDefinition, x: F64, y: F64) -> (F64, F64) {
    let (column, row) = place_from_corner(area, x, y);
    (bits(plain(column) - 0.5), bits(plain(row) - 0.5))
}

/// The area with the coordinates of its columns and rows.
fn on_grid(area: &AreaDefinition) -> Result<AreaGrid> {
    let (height, width) = area.shape();
    let x = (0..width).map(|x| bits(pixel_center(area, 0, x).0)).collect();
    let y = (0..height).map(|y| bits(pixel_center(area, y, 0).1)).collect();
    AreaGrid::new(area.copy(), x, y)
}

fn require_plane_dims(dims: &[String]) -> Result<()> {
    if dims.len() == 2 && dims[0] == "y" && dims[1] == "x" {
        Ok(())
    } else {
        Err(RustySatError::invalid_input(
            "array dimensions do not match expected [\"y\", \"x\"]",
        ))
    }
}

/// Refuses an array that is no plane.
fn require_plane(grid: &DataGrid) -> Result<()> {
    require_plane_dims(grid.dims())
}

/// Refuses a data set with an array of numbers that is no plane.
fn require_plane_in(dataset: &Dataset) -> Result<()> {
    match dataset.data() {
        Some(grid) => require_plane(grid),
        None => Ok(()),
    }
}

/// The distance of two positions.
fn straight(lon: F64, lat: F64, x: F64, y: F64) -> F64 {
    let dx = plain(lon) - plain(x);
    let dy = plain(lat) - plain(y);
    bits((dx.powi(2) + dy.powi(2)).sqrt())
}

/// The distance of a position from the centre of a pixel.
fn centre_gap(source: &AreaDefinition, x: F64, y: F64, row: usize, column: usize) -> F64 {
    let (nearest_x, nearest_y) = pixel_center(source, row, column);
    straight(bits(nearest_x), bits(nearest_y), x, y)
}

fn nearest_area_dataset(
    resampler: &NearestAreaResampler,
    dataset: &Dataset,
    destination: &AreaDefinition,
) -> Result<Dataset> {
    require_plane_in(dataset)?;
    let locate = |x: F64, y: F64| place_from_centre(resampler.source(), x, y);
    let gap = |x: F64, y: F64, row: usize, column: usize| centre_gap(resampler.source(), x, y, row, column);
    resampler.resample(dataset, &on_grid(destination)?, &locate, &gap)
}

trait Plain {
    fn plain(&self) -> Vec<f64>;
}

impl Plain for DataGrid {
    fn plain(&self) -> Vec<f64> {
        all_plain(self.values())
    }
}

impl Plain for Coordinate {
    fn plain(&self) -> Vec<f64> {
        all_plain(self.values())
    }
}

impl Plain for AnyDataArray {
    fn plain(&self) -> Vec<f64> {
        all_plain(&self.numbers())
    }
}

fn grid(height: usize, width: usize, values: Vec<f64>) -> Result<DataGrid> {
    DataGrid::new(height, width, all_bits(&values))
}

fn map_of(pairs: &[(&str, &str)]) -> TextMap<String> {
    let mut map = TextMap::new();
    for (key, value) in pairs {
        map.insert(key.to_string(), value.to_string());
    }
    map
}

/// The nearest pixels of an area, for scenes.
struct Nearest(NearestAreaResampler);

impl Resampler for Nearest {
    fn name(&self) -> &str {
        self.0.name()
    }

    fn resample(&self, dataset: &Dataset, destination: &AreaDefinition) -> Result<Dataset> {
        nearest_area_dataset(&self.0, dataset, destination)
    }
}

fn area(id: &str, height: usize, width: usize, extent: [f64; 4]) -> AreaDefinition {
    AreaDefinition::from_parts(
        id,
        id,
        id,
        map_of(&[("proj", "longlat")]),
        height,
        width,
        extent.map(bits),
    )
    .unwrap()
}

#[test]
fn scene_resample_extension_resamples_all_datasets() {
    let source = area("source", 2, 2, [0.0, 0.0, 2.0, 2.0]);
    let destination = area("destination", 1, 1, [0.0, 1.0, 1.0, 2.0]);
    let mut scene = Scene::new();
    let id = DataId::new("image").unwrap();
    let mut dataset = Dataset::new(id.copy())
        .with_data(grid(2, 2, vec![1.0, 2.0, 3.0, 4.0]).unwrap());
    dataset.insert_metadata("units", "K");
    scene.insert_dataset(dataset);
    let resampler = Nearest(NearestAreaResampler::new(source).with_fill_value(bits(-999.0)));

    let resampled = scene.resample_with(&resampler, &destination).unwrap();

    let output = resampled.get(id.name()).unwrap();
    assert_eq!(output.data().unwrap().plain(), [1.0]);
    assert_eq!(
        output.metadata().get("area"),
        Some(&"destination".to_string())
    );
    assert_eq!(
        output.metadata().get("resampler"),
        Some(&"nearest_area".to_string())
    );
    assert_eq!(output.metadata().get("units"), Some(&"K".to_string()));
}

#[test]
fn scene_resample_extension_returns_empty_scene_for_empty_input() {
    let source = area("source", 1, 1, [0.0, 0.0, 1.0, 1.0]);
    let destination = area("destination", 1, 1, [0.0, 0.0, 1.0, 1.0]);
    let scene = Scene::new();
    let resampler = Nearest(NearestAreaResampler::new(source));

    let resampled = scene.resample_with(&resampler, &destination).unwrap();

    assert!(resampled.is_empty());
}

#[test]
fn scene_resample_owned_produces_same_output_as_borrowed() {
    let source = area("source", 2, 2, [0.0, 0.0, 2.0, 2.0]);
    let destination = area("destination", 1, 1, [0.0, 1.0, 1.0, 2.0]);

    let mut borrowed_scene = Scene::new();
    let mut owned_scene = Scene::new();
    let id = DataId::new("image").unwrap();

    let mut ds1 = Dataset::new(id.copy())
        .with_data(grid(2, 2, vec![1.0, 2.0, 3.0, 4.0]).unwrap());
    ds1.insert_metadata("units", "K");
    borrowed_scene.insert_dataset(ds1);

    let mut ds2 = Dataset::new(id.copy())
        .with_data(grid(2, 2, vec![1.0, 2.0, 3.0, 4.0]).unwrap());
    ds2.insert_metadata("units", "K");
    owned_scene.insert_dataset(ds2);

    let resampler = Nearest(NearestAreaResampler::new(source).with_fill_value(bits(-999.0)));

    let borrowed = borrowed_scene
        .resample_with(&resampler, &destination)
        .unwrap();
    let owned = owned_scene
        .resample_with_owned(&resampler, &destination)
        .unwrap();

    let borrowed_out = borrowed.get(id.name()).unwrap();
    let owned_out = owned.get(id.name()).unwrap();
    assert_eq!(
        borrowed_out.data().unwrap().values(),
        owned_out.data().unwrap().values()
    );
    assert_eq!(borrowed_out.metadata(), owned_out.metadata());
}

#[test]
fn scene_resample_owned_returns_empty_scene_for_empty_input() {
    let source = area("source", 1, 1, [0.0, 0.0, 1.0, 1.0]);
    let destination = area("destination", 1, 1, [0.0, 0.0, 1.0, 1.0]);
    let scene = Scene::new();
    let resampler = Nearest(NearestAreaResampler::new(source));

    let resampled = scene.resample_with_owned(&resampler, &destination).unwrap();

    assert!(resampled.is_empty());
}
