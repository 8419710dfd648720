use rusty_sat::area::AreaDefinition;
use rusty_sat::arithmetic::{ResampleArithmetic, ResampleFunctions};
use rusty_sat::array::{AnyDataArray, Coordinate, DataArray, DataGrid};
use rusty_sat::bilinear::BilinearCell;
use rusty_sat::dataset::{DataId, Dataset};
use rusty_sat::error::Result;
use rusty_sat::ewa::{EwaOptions, Reach};
use rusty_sat::image_container::ImageContainer;
use rusty_sat::linesample::{LineSampleFillValue, LineSampleGrid};
use rusty_sat::number::F64;
use rusty_sat::pipeline::{PreparedResampler, ResampleOptions, SourceGeometry};
use rusty_sat::text_map::TextMap;
use std::rc::Rc;

fn bits(value: f64) -> F64 {
    F64::from_bits(value.to_bits())
}

fn plain(value: F64) -> f64 {
    f64::from_bits(value.to_bits())
}

fn all_bits(values: &[f64]) -> Vec<F64> {
    values.iter().map(|value| bits(*value)).collect()
}

fn all_plain(values: &[F64]) -> Vec<f64> {
    values.iter().map(|value| plain(*value)).collect()
}

/// A part of the way between two bounds, of `count` parts.
fn part(low: F64, high: F64, count: usize) -> F64 {
    bits((plain(high) - plain(low)) / count as f64)
}

fn mean(values: Vec<F64>) -> F64 {
    let sum = values.iter().fold(0.0, |sum, value| sum + plain(*value));
    bits(sum / values.len() as f64)
}

fn total(values: Vec<F64>) -> F64 {
    bits(values.iter().fold(0.0, |sum, value| sum + plain(*value)))
}

fn ratio(count: usize, of: usize) -> F64 {
    bits(count as f64 / of as f64)
}

fn square(value: F64) -> F64 {
    bits(plain(value) * plain(value))
}

/// The weighted mean of values with weights, and the sum of the weights.
fn weigh(list: Vec<(F64, F64)>) -> (F64, F64) {
    let mut sum = 0.0;
    let mut norm = 0.0;
    for (value, weight) in list {
        sum += plain(value) * plain(weight);
        norm += plain(weight);
    }
    (bits(sum / norm), bits(norm))
}

fn extent(area: &AreaDefinition) -> [f64; 4] {
    area.area_extent().map(plain)
}

fn pixel_size(area: &AreaDefinition) -> (f64, f64) {
    let (x, y) = area.pixel_size(&part);
    (plain(x), plain(y))
}

/// The centre of a pixel.
fn pixel_center(area: &AreaDefinition, y: usize, x: usize) -> (f64, f64) {
    let extent = extent(area);
    let (pixel_size_x, pixel_size_y) = pixel_size(area);
    (
        extent[0] + (x as f64 + 0.5) * pixel_size_x,
        extent[3] - (y as f64 + 0.5) * pixel_size_y,
    )
}

/// The column and the row of a position, counted from the upper left corner of an area.
fn place_from_corner(area: &AreaDefinition, x: F64, y: F64) -> (F64, F64) {
    let extent = extent(area);
    let (pixel_size_x, pixel_size_y) = pixel_size(area);
    (
        bits((plain(x) - extent[0]) / pixel_size_x),
        bits((extent[3] - plain(y)) / pixel_size_y),
    )
}

/// The column and the row of a position, counted from the centre of the first pixel.
fn place_from_centre(area: &AreaDefinition, x: F64, y: F64) -> (F64, F64) {
    let (column, row) = place_from_corner(area, x, y);
    (bits(plain(column) - 0.5), bits(plain(row) - 0.5))
}

/// The distance of two positions.
fn straight(lon: F64, lat: F64, x: F64, y: F64) -> F64 {
    let dx = plain(lon) - plain(x);
    let dy = plain(lat) - plain(y);
    bits((dx.powi(2) + dy.powi(2)).sqrt())
}

/// The distance of a position from the centre of a pixel.
fn centre_gap(source: &AreaDefinition, x: F64, y: F64, row: usize, column: usize) -> F64 {
    let (nearest_x, nearest_y) = pixel_center(source, row, column);
    straight(bits(nearest_x), bits(nearest_y), x, y)
}

/// The weighted mean of the values of a cell.
fn mix(v00: F64, v01: F64, v10: F64, v11: F64, cell: BilinearCell) -> F64 {
    let wx = plain(cell.x) - cell.x0 as f64;
    let wy = plain(cell.y) - cell.y0 as f64;
    let top = plain(v00) * (1.0 - wx) + plain(v01) * wx;
    let bottom = plain(v10) * (1.0 - wx) + plain(v11) * wx;
    bits(top * (1.0 - wy) + bottom * wy)
}

/// The bounds of what a position reaches among the pixels of an area.
fn reach_of(destination: &AreaDefinition, radius: f64, lon: F64, lat: F64) -> Reach {
    let (pixel_size_x, pixel_size_y) = pixel_size(destination);
    let (x, y) = place_from_centre(destination, lon, lat);
    let radius_x = radius / pixel_size_x.abs();
    let radius_y = radius / pixel_size_y.abs();
    Reach {
        x,
        y,
        x_low: bits(plain(x) - radius_x),
        x_high: bits(plain(x) + radius_x),
        y_low: bits(plain(y) - radius_y),
        y_high: bits(plain(y) + radius_y),
    }
}

/// The squared distance of a position from the centre of a pixel.
fn squared_gap(destination: &AreaDefinition, lon: F64, lat: F64, y: usize, x: usize) -> F64 {
    let (target_x, target_y) = pixel_center(destination, y, x);
    let dx = target_x - plain(lon);
    let dy = target_y - plain(lat);
    bits(dx * dx + dy * dy)
}

/// The weight at a squared distance.
fn weight_at(options: EwaOptions, distance_squared: F64) -> F64 {
    let radius = plain(options.radius_of_influence());
    let alpha = -plain(options.weight_min()).ln() / (radius * radius);
    bits((-alpha * plain(distance_squared)).exp())
}

/// Where the arithmetic of a resampler takes place.
struct Setting {
    source: AreaDefinition,
    destination: AreaDefinition,
    options: Option<EwaOptions>,
}

impl Setting {
    /// A resampler without a source area or without options does not use them.
    fn of(resampler: &PreparedResampler, destination: &AreaDefinition) -> Self {
        let source = match resampler {
            PreparedResampler::NearestArea(resampler) => resampler.source(),
            PreparedResampler::Bilinear(resampler) => resampler.source(),
            _ => destination,
        };
        let options = match resampler {
            PreparedResampler::Ewa(resampler) => Some(resampler.options()),
            _ => None,
        };
        Setting {
            source: source.copy(),
            destination: destination.copy(),
            options,
        }
    }

    fn centre(&self, y: usize, x: usize) -> (F64, F64) {
        let (centre_x, centre_y) = pixel_center(&self.destination, y, x);
        (bits(centre_x), bits(centre_y))
    }

    fn place(&self, x: F64, y: F64) -> (F64, F64) {
        place_from_centre(&self.source, x, y)
    }

    fn gap(&self, x: F64, y: F64, row: usize, column: usize) -> F64 {
        centre_gap(&self.source, x, y, row, column)
    }

    fn cell(&self, x: F64, y: F64) -> (F64, F64) {
        place_from_corner(&self.destination, x, y)
    }

    fn bounds(&self, lon: F64, lat: F64) -> Reach {
        let radius = self.options.map_or(0.0, |options| plain(options.radius_of_influence()));
        reach_of(&self.destination, radius, lon, lat)
    }

    fn reach(&self, lon: F64, lat: F64, y: usize, x: usize) -> F64 {
        squared_gap(&self.destination, lon, lat, y, x)
    }

    fn weight(&self, gap: F64) -> F64 {
        self.options.map_or(gap, |options| weight_at(options, gap))
    }
}

/// The arithmetic of a resampler on an area.
fn arithmetic(
    resampler: &PreparedResampler,
    destination: &AreaDefinition,
) -> impl ResampleArithmetic {
    let setting = Rc::new(Setting::of(resampler, destination));
    let [centre, place, gap, cell, bounds, reach, weight] =
        std::array::from_fn(|_| Rc::clone(&setting));
    ResampleFunctions {
        centre: move |y: usize, x: usize| centre.centre(y, x),
        place: move |x: F64, y: F64| place.place(x, y),
        gap: move |x: F64, y: F64, row: usize, column: usize| gap.gap(x, y, row, column),
        distance: straight,
        mix,
        mean,
        cell: move |x: F64, y: F64| cell.cell(x, y),
        total,
        ratio,
        square,
        bounds: move |lon: F64, lat: F64| bounds.bounds(lon, lat),
        reach: move |lon: F64, lat: F64, y: usize, x: usize| reach.reach(lon, lat, y, x),
        weight: move |squared: F64| weight.weight(squared),
        average: weigh,
    }
}

trait Plain {
    fn plain(&self) -> Vec<f64>;
}

impl Plain for DataGrid {
    fn plain(&self) -> Vec<f64> {
        all_plain(self.values())
    }
}

impl Plain for Coordinate {
    fn plain(&self) -> Vec<f64> {
        all_plain(self.values())
    }
}

impl Plain for AnyDataArray {
    fn plain(&self) -> Vec<f64> {
        all_plain(&self.numbers())
    }
}

fn grid(height: usize, width: usize, values: Vec<f64>) -> Result<DataGrid> {
    DataGrid::new(height, width, all_bits(&values))
}

fn map_of(pairs: &[(&str, &str)]) -> TextMap<String> {
    let mut map = TextMap::new();
    for (key, value) in pairs {
        map.insert(key.to_string(), value.to_string());
    }
    map
}

fn names(dims: &[&str]) -> Vec<String> {
    dims.iter().map(|dim| dim.to_string()).collect()
}

fn area(id: &str, height: usize, width: usize, extent: [f64; 4]) -> AreaDefinition {
    AreaDefinition::from_parts(
        id,
        id,
        id,
        map_of(&[("proj", "longlat")]),
        height,
        width,
        extent.map(bits),
    )
    .unwrap()
}

fn dataset(height: usize, width: usize) -> Dataset {
    Dataset::new(DataId::new("image").unwrap()).with_data(
        grid(
            height,
            width,
            (0..height * width).map(|value| value as f64).collect(),
        )
        .unwrap(),
    )
}

#[test]
fn image_container_validates_source_shape() {
    let source = area("source", 2, 2, [0.0, 0.0, 2.0, 2.0]);
    let container = ImageContainer::from_area(dataset(2, 2), source.copy()).unwrap();
    assert_eq!(container.source_geometry(), &SourceGeometry::Area(source));

    let err = ImageContainer::from_area(dataset(1, 2), area("bad", 2, 2, [0.0, 0.0, 2.0, 2.0]))
        .err().unwrap();
    assert!(err.message().contains("does not match geometry shape"));
}

#[test]
fn image_container_resample_returns_destination_container() {
    let source = area("source", 2, 2, [0.0, 0.0, 2.0, 2.0]);
    let destination = area("destination", 1, 1, [0.0, 1.0, 1.0, 2.0]);
    let container = ImageContainer::from_area(dataset(2, 2), source).unwrap();

    let output = container
        .resample(&destination, ResampleOptions::nearest_area(), &arithmetic)
        .unwrap();

    assert_eq!(output.dataset().data().unwrap().plain(), [0.0]);
    assert_eq!(
        output.source_geometry(),
        &SourceGeometry::Area(destination.copy())
    );
    assert!(output.dataset().attr("area").is_some());
}

#[test]
fn image_container_owned_resample_matches_borrowed() {
    let source = area("source", 2, 2, [0.0, 0.0, 2.0, 2.0]);
    let destination = area("destination", 1, 1, [0.0, 1.0, 1.0, 2.0]);
    let borrowed = ImageContainer::from_area(dataset(2, 2), source.copy())
        .unwrap()
        .resample(&destination, ResampleOptions::nearest_area(), &arithmetic)
        .unwrap();
    let owned = ImageContainer::from_area(dataset(2, 2), source)
        .unwrap()
        .resample_owned(&destination, ResampleOptions::nearest_area(), &arithmetic)
        .unwrap();

    assert_eq!(borrowed, owned);
}

#[test]
fn image_container_can_infer_swath_from_dataset_coordinates() {
    let array = grid(2, 2, vec![1.0, 2.0, 3.0, 4.0])
        .unwrap()
        .with_coordinate(
            "longitude",
            Coordinate::new(names(&["y", "x"]), all_bits(&[0.25, 1.25, 0.25, 1.25])),
        )
        .unwrap()
        .with_coordinate(
            "latitude",
            Coordinate::new(names(&["y", "x"]), all_bits(&[1.25, 1.25, 0.25, 0.25])),
        )
        .unwrap();
    let dataset = Dataset::new(DataId::new("image").unwrap()).with_data(array);

    let container = ImageContainer::from_dataset_attrs(dataset).unwrap();

    let SourceGeometry::Swath(swath) = container.source_geometry() else {
        panic!("expected swath geometry");
    };
    assert_eq!(swath.shape(), (2, 2));
}

#[test]
fn resample_nearest_convenience_matches_explicit() {
    let source = area("source", 2, 2, [0.0, 0.0, 2.0, 2.0]);
    let destination = area("destination", 1, 1, [0.0, 1.0, 1.0, 2.0]);
    let container = ImageContainer::from_area(dataset(2, 2), source).unwrap();

    let explicit = container
        .resample(
            &destination,
            ResampleOptions::nearest_area().with_fill_value(bits(-999.0)),
            &arithmetic,
        )
        .unwrap();
    let convenience = container
        .resample_nearest(&destination, None, bits(-999.0), &arithmetic)
        .unwrap();

    assert_eq!(explicit, convenience);
}

#[test]
fn image_container_samples_area_linesample() {
    let source = area("source", 2, 2, [0.0, 0.0, 2.0, 2.0]);
    let linesample = LineSampleGrid::new(2, 2, vec![0, 1, -1, 0], vec![0, 1, 0, 4]).unwrap();
    let container = ImageContainer::from_area(dataset(2, 2), source).unwrap();

    let output = container
        .get_array_from_linesample(&linesample, bits(-999.0))
        .unwrap();

    assert_eq!(output.plain(), [0.0, 3.0, -999.0, -999.0]);
}

#[test]
fn image_container_samples_runtime_typed_linesample() {
    let source = area("source", 2, 2, [0.0, 0.0, 2.0, 2.0]);
    let dataset = Dataset::new(DataId::new("image").unwrap()).with_array(AnyDataArray::U16(
        DataArray::<u16>::from_vec_named(
            vec![2, 2],
            names(&["y", "x"]),
            vec![10, 20, 30, 40],
        )
        .unwrap(),
    ));
    let linesample = LineSampleGrid::new(1, 2, vec![0, -1], vec![1, 0]).unwrap();
    let container = ImageContainer::from_area(dataset, source).unwrap();

    let output = container
        .get_any_array_from_linesample(&linesample, LineSampleFillValue::u16(999))
        .unwrap();

    assert_eq!(output.plain(), vec![20.0, 999.0]);
}
