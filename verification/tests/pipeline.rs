use rusty_sat::reduction;
use rusty_sat::area::AreaDefinition;
use rusty_sat::arithmetic::{ResampleArithmetic, ResampleFunctions, SliceArithmetic, SliceFunctions};
use rusty_sat::array::{AnyDataArray, Coordinate, DataGrid};
use rusty_sat::bilinear::BilinearCell;
use rusty_sat::dataset::{DataId, Dataset};
use rusty_sat::error::{Result, RustySatError};
use rusty_sat::ewa::{EwaOptions, Reach};
use rusty_sat::number::F64;
use rusty_sat::pipeline::{
    PreparedResampler, ResampleOptions, ResamplerCache, ResamplerMethod, SourceGeometry,
    prepare_resampler, prepare_resampler_for_geometry,
};
use rusty_sat::swath::SwathDefinition;
use rusty_sat::text_map::TextMap;
use std::rc::Rc;

fn bits(value: f64) -> F64 {
    F64::from_bits(value.to_bits())
}

fn plain(value: F64) -> f64 {
    f64::from_bits(value.to_bits())
}

fn all_bits(values: &[f64]) -> Vec<F64> {
    values.iter().map(|value| bits(*value)).collect()
}

fn all_plain(values: &[F64]) -> Vec<f64> {
    values.iter().map(|value| plain(*value)).collect()
}

/// The number in a text, with its shortest text.
fn read(text: String) -> Option<(F64, String)> {
    let value = text.parse::<f64>().ok()?;
    Some((bits(value), value.to_string()))
}

/// A part of the way between two bounds, of `count` parts.
fn part(low: F64, high: F64, count: usize) -> F64 {
    bits((plain(high) - plain(low)) / count as f64)
}

fn mean(values: Vec<F64>) -> F64 {
    let sum = values.iter().fold(0.0, |sum, value| sum + plain(*value));
    bits(sum / values.len() as f64)
}

fn total(values: Vec<F64>) -> F64 {
    bits(values.iter().fold(0.0, |sum, value| sum + plain(*value)))
}

fn ratio(count: usize, of: usize) -> F64 {
    bits(count as f64 / of as f64)
}

fn square(value: F64) -> F64 {
    bits(plain(value) * plain(value))
}

/// The weighted mean of values with weights, and the sum of the weights.
fn weigh(list: Vec<(F64, F64)>) -> (F64, F64) {
    let mut sum = 0.0;
    let mut norm = 0.0;
    for (value, weight) in list {
        sum += plain(value) * plain(weight);
        norm += plain(weight);
    }
    (bits(sum / norm), bits(norm))
}

fn extent(area: &AreaDefinition) -> [f64; 4] {
    area.area_extent().map(plain)
}

fn pixel_size(area: &AreaDefinition) -> (f64, f64) {
    let (x, y) = area.pixel_size(&part);
    (plain(x), plain(y))
}

/// The centre of a pixel.
fn pixel_center(area: &AreaDefinition, y: usize, x: usize) -> (f64, f64) {
    let extent = extent(area);
    let (pixel_size_x, pixel_size_y) = pixel_size(area);
    (
        extent[0] + (x as f64 + 0.5) * pixel_size_x,
        extent[3] - (y as f64 + 0.5) * pixel_size_y,
    )
}

/// The column and the row of a position, counted from the upper left corner of an area.
fn place_from_corner(area: &AreaDefinition, x: F64, y: F64) -> (F64, F64) {
    let extent = extent(area);
    let (pixel_size_x, pixel_size_y) = pixel_size(area);
    (
        bits((plain(x) - extent[0]) / pixel_size_x),
        bits((extent[3] - plain(y)) / pixel_size_y),
    )
}

/// The column and the row of a position, counted from the centre of the first pixel.
fn place_from_centre(area: &AreaDefinition, x: F64, y: F64) -> (F64, F64) {
    let (column, row) = place_from_corner(area, x, y);
    (bits(plain(column) - 0.5), bits(plain(row) - 0.5))
}

/// The distance of two positions.
fn straight(lon: F64, lat: F64, x: F64, y: F64) -> F64 {
    let dx = plain(lon) - plain(x);
    let dy = plain(lat) - plain(y);
    bits((dx.powi(2) + dy.powi(2)).sqrt())
}

/// The distance of a position from the centre of a pixel.
fn centre_gap(source: &AreaDefinition, x: F64, y: F64, row: usize, column: usize) -> F64 {
    let (nearest_x, nearest_y) = pixel_center(source, row, column);
    straight(bits(nearest_x), bits(nearest_y), x, y)
}

/// The weighted mean of the values of a cell.
fn mix(v00: F64, v01: F64, v10: F64, v11: F64, cell: BilinearCell) -> F64 {
    let wx = plain(cell.x) - cell.x0 as f64;
    let wy = plain(cell.y) - cell.y0 as f64;
    let top = plain(v00) * (1.0 - wx) + plain(v01) * wx;
    let bottom = plain(v10) * (1.0 - wx) + plain(v11) * wx;
    bits(top * (1.0 - wy) + bottom * wy)
}

/// The bounds of what a position reaches among the pixels of an area.
fn reach_of(destination: &AreaDefinition, radius: f64, lon: F64, lat: F64) -> Reach {
    let (pixel_size_x, pixel_size_y) = pixel_size(destination);
    let (x, y) = place_from_centre(destination, lon, lat);
    let radius_x = radius / pixel_size_x.abs();
    let radius_y = radius / pixel_size_y.abs();
    Reach {
        x,
        y,
        x_low: bits(plain(x) - radius_x),
        x_high: bits(plain(x) + radius_x),
        y_low: bits(plain(y) - radius_y),
        y_high: bits(plain(y) + radius_y),
    }
}

/// The squared distance of a position from the centre of a pixel.
fn squared_gap(destination: &AreaDefinition, lon: F64, lat: F64, y: usize, x: usize) -> F64 {
    let (target_x, target_y) = pixel_center(destination, y, x);
    let dx = target_x - plain(lon);
    let dy = target_y - plain(lat);
    bits(dx * dx + dy * dy)
}

/// The weight at a squared distance.
fn weight_at(options: EwaOptions, distance_squared: F64) -> F64 {
    let radius = plain(options.radius_of_influence());
    let alpha = -plain(options.weight_min()).ln() / (radius * radius);
    bits((-alpha * plain(distance_squared)).exp())
}

/// The place of a coordinate among the columns.
fn column(edge: F64, size: F64, x: F64) -> F64 {
    let first = plain(edge) + 0.5 * plain(size);
    bits((plain(x) - first) / plain(size))
}

/// The place of a coordinate among the rows.
fn row(edge: F64, size: F64, y: F64) -> F64 {
    let first = plain(edge) - 0.5 * plain(size);
    bits((plain(y) - first) / -plain(size))
}

/// The part of a number above the integer below it, less a half.
fn excess(value: F64) -> F64 {
    let value = plain(value);
    bits(value - value.floor() - 0.5)
}

fn offset(edge: F64, count: usize, size: F64) -> F64 {
    bits(plain(edge) + count as f64 * plain(size))
}

fn offset_down(edge: F64, count: usize, size: F64) -> F64 {
    bits(plain(edge) - count as f64 * plain(size))
}

/// The part of a data set that an area covers, with its own area.
fn reduce_area_dataset_with_divisibility(
    dataset: &Dataset,
    source: &AreaDefinition,
    target: &AreaDefinition,
    shape_divisible_by: Option<usize>,
) -> Result<(Dataset, AreaDefinition)> {
    reduction::reduce_area_dataset_with_divisibility(
        dataset,
        source,
        target,
        shape_divisible_by,
        &read,
        &part,
        &column,
        &row,
        &excess,
        &offset,
        &offset_down,
    )
}

/// Where the arithmetic of a resampler takes place.
struct Setting {
    source: AreaDefinition,
    destination: AreaDefinition,
    options: Option<EwaOptions>,
}

impl Setting {
    /// A resampler without a source area or without options does not use them.
    fn of(resampler: &PreparedResampler, destination: &AreaDefinition) -> Self {
        let source = match resampler {
            PreparedResampler::NearestArea(resampler) => resampler.source(),
            PreparedResampler::Bilinear(resampler) => resampler.source(),
            _ => destination,
        };
        let options = match resampler {
            PreparedResampler::Ewa(resampler) => Some(resampler.options()),
            _ => None,
        };
        Setting {
            source: source.copy(),
            destination: destination.copy(),
            options,
        }
    }

    fn centre(&self, y: usize, x: usize) -> (F64, F64) {
        let (centre_x, centre_y) = pixel_center(&self.destination, y, x);
        (bits(centre_x), bits(centre_y))
    }

    fn place(&self, x: F64, y: F64) -> (F64, F64) {
        place_from_centre(&self.source, x, y)
    }

    fn gap(&self, x: F64, y: F64, row: usize, column: usize) -> F64 {
        centre_gap(&self.source, x, y, row, column)
    }

    fn cell(&self, x: F64, y: F64) -> (F64, F64) {
        place_from_corner(&self.destination, x, y)
    }

    fn bounds(&self, lon: F64, lat: F64) -> Reach {
        let radius = self.options.map_or(0.0, |options| plain(options.radius_of_influence()));
        reach_of(&self.destination, radius, lon, lat)
    }

    fn reach(&self, lon: F64, lat: F64, y: usize, x: usize) -> F64 {
        squared_gap(&self.destination, lon, lat, y, x)
    }

    fn weight(&self, gap: F64) -> F64 {
        self.options.map_or(gap, |options| weight_at(options, gap))
    }
}

/// The arithmetic of a resampler on an area.
fn arithmetic(
    resampler: &PreparedResampler,
    destination: &AreaDefinition,
) -> impl ResampleArithmetic {
    let setting = Rc::new(Setting::of(resampler, destination));
    let [centre, place, gap, cell, bounds, reach, weight] =
        std::array::from_fn(|_| Rc::clone(&setting));
    ResampleFunctions {
        centre: move |y: usize, x: usize| centre.centre(y, x),
        place: move |x: F64, y: F64| place.place(x, y),
        gap: move |x: F64, y: F64, row: usize, column: usize| gap.gap(x, y, row, column),
        distance: straight,
        mix,
        mean,
        cell: move |x: F64, y: F64| cell.cell(x, y),
        total,
        ratio,
        square,
        bounds: move |lon: F64, lat: F64| bounds.bounds(lon, lat),
        reach: move |lon: F64, lat: F64, y: usize, x: usize| reach.reach(lon, lat, y, x),
        weight: move |squared: F64| weight.weight(squared),
        average: weigh,
    }
}

/// The arithmetic of parts of areas.
fn cuts() -> impl SliceArithmetic {
    SliceFunctions {
        read,
        pixel_size: part,
        column,
        row,
        excess,
        offset,
        offset_down,
    }
}

/// A data set on an area.
fn run(
    resampler: &PreparedResampler,
    dataset: &Dataset,
    destination: &AreaDefinition,
) -> Result<Dataset> {
    resampler.resample(dataset, destination, &arithmetic)
}

/// A data set that is given away on an area.
fn run_owned(
    resampler: &PreparedResampler,
    dataset: Dataset,
    destination: &AreaDefinition,
) -> Result<Dataset> {
    resampler.resample_owned(dataset, destination, &arithmetic)
}

fn resample_dataset(
    dataset: &Dataset,
    source: AreaDefinition,
    destination: &AreaDefinition,
    options: ResampleOptions,
) -> Result<Dataset> {
    rusty_sat::pipeline::resample_dataset(
        dataset,
        source,
        destination,
        options,
        &arithmetic,
        &cuts(),
    )
}

fn resample_dataset_cached(
    cache: &mut ResamplerCache,
    dataset: &Dataset,
    source: AreaDefinition,
    destination: &AreaDefinition,
    options: ResampleOptions,
) -> Result<Dataset> {
    rusty_sat::pipeline::resample_dataset_cached(
        cache,
        dataset,
        source,
        destination,
        options,
        &arithmetic,
        &cuts(),
    )
}

fn resample_dataset_owned(
    dataset: Dataset,
    source: AreaDefinition,
    destination: &AreaDefinition,
    options: ResampleOptions,
) -> Result<Dataset> {
    rusty_sat::pipeline::resample_dataset_owned(
        dataset,
        source,
        destination,
        options,
        &arithmetic,
        &cuts(),
    )
}

fn resample_dataset_owned_cached(
    cache: &mut ResamplerCache,
    dataset: Dataset,
    source: AreaDefinition,
    destination: &AreaDefinition,
    options: ResampleOptions,
) -> Result<Dataset> {
    rusty_sat::pipeline::resample_dataset_owned_cached(
        cache,
        dataset,
        source,
        destination,
        options,
        &arithmetic,
        &cuts(),
    )
}

fn resample_area_dataset_reduced(
    dataset: &Dataset,
    source: AreaDefinition,
    destination: &AreaDefinition,
    options: ResampleOptions,
) -> Result<Dataset> {
    rusty_sat::pipeline::resample_area_dataset_reduced(
        dataset,
        source,
        destination,
        options,
        &arithmetic,
        &cuts(),
    )
}

fn resample_area_dataset_reduced_cached(
    cache: &mut ResamplerCache,
    dataset: &Dataset,
    source: AreaDefinition,
    destination: &AreaDefinition,
    options: ResampleOptions,
) -> Result<Dataset> {
    rusty_sat::pipeline::resample_area_dataset_reduced_cached(
        cache,
        dataset,
        source,
        destination,
        options,
        &arithmetic,
        &cuts(),
    )
}

fn resample_area_dataset_reduced_owned(
    dataset: Dataset,
    source: AreaDefinition,
    destination: &AreaDefinition,
    options: ResampleOptions,
) -> Result<Dataset> {
    rusty_sat::pipeline::resample_area_dataset_reduced_owned(
        dataset,
        source,
        destination,
        options,
        &arithmetic,
        &cuts(),
    )
}

fn resample_dataset_from_geometry(
    dataset: &Dataset,
    source: SourceGeometry,
    destination: &AreaDefinition,
    options: ResampleOptions,
) -> Result<Dataset> {
    rusty_sat::pipeline::resample_dataset_from_geometry(dataset, source, destination, options, &arithmetic)
}

fn resample_dataset_owned_from_geometry(
    dataset: Dataset,
    source: SourceGeometry,
    destination: &AreaDefinition,
    options: ResampleOptions,
) -> Result<Dataset> {
    rusty_sat::pipeline::resample_dataset_owned_from_geometry(
        dataset,
        source,
        destination,
        options,
        &arithmetic,
    )
}

trait Plain {
    fn plain(&self) -> Vec<f64>;
}

impl Plain for DataGrid {
    fn plain(&self) -> Vec<f64> {
        all_plain(self.values())
    }
}

impl Plain for Coordinate {
    fn plain(&self) -> Vec<f64> {
        all_plain(self.values())
    }
}

impl Plain for AnyDataArray {
    fn plain(&self) -> Vec<f64> {
        all_plain(&self.numbers())
    }
}

trait Plane {
    fn shape(&self) -> (usize, usize);
}

impl Plane for DataGrid {
    fn shape(&self) -> (usize, usize) {
        self.shape_yx().unwrap()
    }
}

fn grid(height: usize, width: usize, values: Vec<f64>) -> Result<DataGrid> {
    DataGrid::new(height, width, all_bits(&values))
}

fn map_of(pairs: &[(&str, &str)]) -> TextMap<String> {
    let mut map = TextMap::new();
    for (key, value) in pairs {
        map.insert(key.to_string(), value.to_string());
    }
    map
}

fn area(id: &str, height: usize, width: usize, extent: [f64; 4]) -> AreaDefinition {
    AreaDefinition::from_parts(
        id,
        id,
        id,
        map_of(&[("proj", "longlat")]),
        height,
        width,
        extent.map(bits),
    )
    .unwrap()
}

fn swath() -> SwathDefinition {
    SwathDefinition::from_lonlats(
        2,
        2,
        all_bits(&[0.25, 1.25, 0.25, 1.25]),
        all_bits(&[1.25, 1.25, 0.25, 0.25]),
    )
    .unwrap()
}

#[test]
fn parses_resampler_method_names() {
    assert_eq!(
        ResamplerMethod::from_name("nearest_area").unwrap(),
        ResamplerMethod::NearestArea
    );
    assert_eq!(
        ResamplerMethod::from_name("kd_tree").unwrap(),
        ResamplerMethod::NearestArea
    );
    assert_eq!(
        ResamplerMethod::from_name("native").unwrap(),
        ResamplerMethod::Native
    );
    assert_eq!(
        ResamplerMethod::from_name("bilinear").unwrap(),
        ResamplerMethod::Bilinear
    );
    assert_eq!(
        ResamplerMethod::from_name("bucket_avg").unwrap(),
        ResamplerMethod::BucketAverage
    );
    assert_eq!(
        ResamplerMethod::from_name("bucket_sum").unwrap(),
        ResamplerMethod::BucketSum
    );
    assert_eq!(
        ResamplerMethod::from_name("bucket_count").unwrap(),
        ResamplerMethod::BucketCount
    );
    assert_eq!(
        ResamplerMethod::from_name("bucket_fraction").unwrap(),
        ResamplerMethod::BucketFraction
    );
    assert_eq!(
        ResamplerMethod::from_name("ewa").unwrap(),
        ResamplerMethod::Ewa
    );
}

#[test]
fn prepares_nearest_resampler_with_fill_options() {
    let source = area("source", 2, 2, [0.0, 0.0, 2.0, 2.0]);
    let destination = area("destination", 1, 1, [2.0, 2.0, 3.0, 3.0]);
    let options = ResampleOptions::nearest_area()
        .with_radius_of_influence(bits(0.1))
        .unwrap()
        .with_fill_value(bits(-999.0));
    let resampler = prepare_resampler(source, &destination, options).unwrap();
    assert_eq!(resampler.method(), ResamplerMethod::NearestArea);

    let dataset = Dataset::new(DataId::new("image").unwrap())
        .with_data(grid(2, 2, vec![1.0, 2.0, 3.0, 4.0]).unwrap());
    let output = run(&resampler, &dataset, &destination).unwrap();

    assert_eq!(output.data().unwrap().plain(), [-999.0]);
    assert_eq!(
        output.metadata().get("resampler"),
        Some(&"nearest_area".to_string())
    );
}

#[test]
fn resample_dataset_owned_uses_native_repeat() {
    let source = area("source", 2, 2, [0.0, 0.0, 2.0, 2.0]);
    let destination = area("destination", 4, 4, [0.0, 0.0, 4.0, 4.0]);
    let dataset = Dataset::new(DataId::new("image").unwrap())
        .with_data(grid(2, 2, vec![1.0, 2.0, 3.0, 4.0]).unwrap());

    let output =
        resample_dataset_owned(dataset, source, &destination, ResampleOptions::native())
            .unwrap();

    assert_eq!(output.data().unwrap().shape(), (4, 4));
    assert_eq!(
        output.metadata().get("resampler"),
        Some(&"native".to_string())
    );
    assert_eq!(output.data().unwrap().plain()[..8], [1.0, 1.0, 2.0, 2.0, 1.0, 1.0, 2.0, 2.0]
    );
}

#[test]
fn resample_dataset_uses_bilinear_method() {
    let source = area("source", 2, 2, [0.0, 0.0, 2.0, 2.0]);
    let destination = area("destination", 1, 1, [0.5, 0.5, 1.5, 1.5]);
    let dataset = Dataset::new(DataId::new("image").unwrap())
        .with_data(grid(2, 2, vec![0.0, 10.0, 20.0, 30.0]).unwrap());

    let output =
        resample_dataset(&dataset, source, &destination, ResampleOptions::bilinear()).unwrap();

    assert_eq!(output.data().unwrap().plain(), [15.0]);
    assert_eq!(
        output.metadata().get("resampler"),
        Some(&"bilinear".to_string())
    );
}

#[test]
fn resample_dataset_uses_default_nearest_method() {
    let source = area("source", 2, 2, [0.0, 0.0, 2.0, 2.0]);
    let destination = area("destination", 1, 1, [0.0, 1.0, 1.0, 2.0]);
    let dataset = Dataset::new(DataId::new("image").unwrap())
        .with_data(grid(2, 2, vec![1.0, 2.0, 3.0, 4.0]).unwrap());

    let output =
        resample_dataset(&dataset, source, &destination, ResampleOptions::default()).unwrap();

    assert_eq!(output.data().unwrap().plain(), [1.0]);
    assert_eq!(
        output.metadata().get("resampler"),
        Some(&"nearest_area".to_string())
    );
}

#[test]
fn reduced_area_resample_crops_before_resampling() {
    let source = area("source", 4, 4, [0.0, 0.0, 4.0, 4.0]);
    let destination = area("destination", 2, 2, [1.0, 1.0, 3.0, 3.0]);
    let dataset = Dataset::new(DataId::new("image").unwrap())
        .with_data(grid(4, 4, (0..16).map(f64::from).collect()).unwrap());

    let output = resample_area_dataset_reduced(
        &dataset,
        source,
        &destination,
        ResampleOptions::nearest_area(),
    )
    .unwrap();

    assert_eq!(output.data().unwrap().shape(), (2, 2));
    assert_eq!(output.data().unwrap().plain(), [5.0, 6.0, 9.0, 10.0]);
    assert_eq!(
        output.metadata().get("area"),
        Some(&"destination".to_string())
    );
}

#[test]
fn reduced_area_resample_owned_matches_borrowed() {
    let source = area("source", 4, 4, [0.0, 0.0, 4.0, 4.0]);
    let destination = area("destination", 2, 2, [1.0, 1.0, 3.0, 3.0]);
    let dataset = Dataset::new(DataId::new("image").unwrap())
        .with_data(grid(4, 4, (0..16).map(f64::from).collect()).unwrap());

    let borrowed = resample_area_dataset_reduced(
        &dataset,
        source.copy(),
        &destination,
        ResampleOptions::nearest_area(),
    )
    .unwrap();
    let owned = resample_area_dataset_reduced_owned(
        dataset,
        source,
        &destination,
        ResampleOptions::nearest_area(),
    )
    .unwrap();

    assert_eq!(borrowed, owned);
}

#[test]
fn reduced_area_resample_cached_uses_reduced_source_area_key() {
    let source = area("source", 4, 4, [0.0, 0.0, 4.0, 4.0]);
    let destination = area("destination", 2, 2, [1.0, 1.0, 3.0, 3.0]);
    let dataset = Dataset::new(DataId::new("image").unwrap())
        .with_data(grid(4, 4, (0..16).map(f64::from).collect()).unwrap());
    let mut cache = ResamplerCache::new();

    let first = resample_area_dataset_reduced_cached(
        &mut cache,
        &dataset,
        source.copy(),
        &destination,
        ResampleOptions::nearest_area(),
    )
    .unwrap();
    let second = resample_area_dataset_reduced_cached(
        &mut cache,
        &dataset,
        source,
        &destination,
        ResampleOptions::nearest_area(),
    )
    .unwrap();

    assert_eq!(first, second);
    assert_eq!(cache.len(), 1);
}

#[test]
fn resample_options_track_data_reduction_knobs() {
    let default = ResampleOptions::nearest_area();
    assert!(!default.reduce_data());
    assert_eq!(default.shape_divisible_by(), None);

    let reduced = default.copy().with_data_reduction();
    assert!(reduced.reduce_data());
    assert_eq!(reduced.shape_divisible_by(), None);

    let unreduced = reduced.without_data_reduction();
    assert!(!unreduced.reduce_data());
    assert_eq!(unreduced.shape_divisible_by(), None);

    let divisible = default.with_shape_divisible_by(4).unwrap();
    assert!(divisible.reduce_data());
    assert_eq!(divisible.shape_divisible_by(), Some(4));
    assert_eq!(
        divisible.without_data_reduction().shape_divisible_by(),
        None
    );

    assert!(ResampleOptions::nearest_area()
        .with_shape_divisible_by(0)
        .is_err());
}

#[test]
fn resample_dataset_honors_reduction_option() {
    let source = area("source", 4, 4, [0.0, 0.0, 4.0, 4.0]);
    let destination = area("destination", 2, 2, [1.0, 1.0, 3.0, 3.0]);
    let dataset = Dataset::new(DataId::new("image").unwrap())
        .with_data(grid(4, 4, (0..16).map(f64::from).collect()).unwrap());

    let output = resample_dataset(
        &dataset,
        source,
        &destination,
        ResampleOptions::nearest_area().with_data_reduction(),
    )
    .unwrap();

    assert_eq!(output.data().unwrap().shape(), (2, 2));
    assert_eq!(output.data().unwrap().plain(), [5.0, 6.0, 9.0, 10.0]);
}

#[test]
fn resampler_cache_distinguishes_reduction_options() {
    let source = area("source", 4, 4, [0.0, 0.0, 4.0, 4.0]);
    let destination = area("destination", 2, 2, [1.0, 1.0, 3.0, 3.0]);
    let dataset = Dataset::new(DataId::new("image").unwrap())
        .with_data(grid(4, 4, (0..16).map(f64::from).collect()).unwrap());
    let mut cache = ResamplerCache::new();

    resample_dataset_cached(
        &mut cache,
        &dataset,
        source.copy(),
        &destination,
        ResampleOptions::nearest_area().with_data_reduction(),
    )
    .unwrap();
    resample_dataset_cached(
        &mut cache,
        &dataset,
        source,
        &destination,
        ResampleOptions::nearest_area()
            .with_shape_divisible_by(2)
            .unwrap(),
    )
    .unwrap();

    assert_eq!(cache.len(), 2);
}

#[test]
fn resample_dataset_from_geometry_uses_bucket_average_method() {
    let destination = area("destination", 2, 2, [0.0, 0.0, 2.0, 2.0]);
    let dataset = Dataset::new(DataId::new("image").unwrap())
        .with_data(grid(2, 2, vec![1.0, 2.0, 3.0, 4.0]).unwrap());
    let options = ResampleOptions::bucket_average().with_fill_value(bits(-999.0));

    let output = resample_dataset_from_geometry(
        &dataset,
        SourceGeometry::swath(swath()),
        &destination,
        options,
    )
    .unwrap();

    assert_eq!(output.data().unwrap().plain(), [1.0, 2.0, 3.0, 4.0]);
    assert_eq!(
        output.metadata().get("resampler"),
        Some(&"bucket_avg".to_string())
    );
}

#[test]
fn resample_dataset_from_geometry_uses_bucket_fraction_method() {
    let destination = area("destination", 2, 2, [0.0, 0.0, 2.0, 2.0]);
    let dataset = Dataset::new(DataId::new("quality").unwrap())
        .with_data(grid(2, 2, vec![0.0, 1.0, 1.0, 0.0]).unwrap());
    let options = ResampleOptions::bucket_fraction(all_bits(&[0.0, 1.0])).with_fill_value(bits(-1.0));

    let output = resample_dataset_from_geometry(
        &dataset,
        SourceGeometry::swath(swath()),
        &destination,
        options,
    )
    .unwrap();

    let array = output.array().unwrap();
    assert_eq!(array.shape(), &[2, 2, 2]);
    assert_eq!(array.dims(), &["categories", "y", "x"]);
    assert!(array.coord("categories").is_some());
    assert_eq!(
        output.metadata().get("resampler"),
        Some(&"bucket_fraction".to_string())
    );
}

#[test]
fn resample_dataset_from_geometry_uses_auto_bucket_fraction_categories() {
    let destination = area("destination", 2, 2, [0.0, 0.0, 2.0, 2.0]);
    let dataset = Dataset::new(DataId::new("quality").unwrap())
        .with_data(grid(2, 2, vec![2.0, 1.0, 2.0, 1.0]).unwrap());
    let options = ResampleOptions::bucket_fraction_auto().with_fill_value(bits(-1.0));

    let output = resample_dataset_from_geometry(
        &dataset,
        SourceGeometry::swath(swath()),
        &destination,
        options,
    )
    .unwrap();

    let array = output.array().unwrap();
    assert_eq!(array.shape(), &[2, 2, 2]);
    assert_eq!(array.coord("categories").unwrap().plain(), [1.0, 2.0]);
}

#[test]
fn bucket_fraction_pipeline_requires_categories() {
    let destination = area("destination", 1, 1, [0.0, 0.0, 1.0, 1.0]);

    let err = prepare_resampler_for_geometry(
        SourceGeometry::swath(swath()),
        &destination,
        ResampleOptions::new(ResamplerMethod::BucketFraction),
    )
    .err().unwrap();

    assert!(err.message().contains("at least one category"));
}

#[test]
fn resample_dataset_owned_from_geometry_uses_ewa_method() {
    let destination = area("destination", 1, 2, [0.0, 0.0, 2.0, 1.0]);
    let source = SwathDefinition::from_lonlats(1, 2, all_bits(&[0.5, 1.5]), all_bits(&[0.5, 0.5])).unwrap();
    let dataset = Dataset::new(DataId::new("image").unwrap())
        .with_data(grid(1, 2, vec![10.0, 20.0]).unwrap());
    let options = ResampleOptions::ewa()
        .with_radius_of_influence(bits(0.25))
        .unwrap()
        .with_fill_value(bits(-999.0));

    let output = resample_dataset_owned_from_geometry(
        dataset,
        SourceGeometry::swath(source),
        &destination,
        options,
    )
    .unwrap();

    assert_eq!(output.data().unwrap().plain(), [10.0, 20.0]);
    assert_eq!(output.metadata().get("resampler"), Some(&"ewa".to_string()));
}

#[test]
fn swath_pipeline_methods_require_swath_geometry() {
    let source = area("source", 1, 1, [0.0, 0.0, 1.0, 1.0]);
    let destination = area("destination", 1, 1, [0.0, 0.0, 1.0, 1.0]);

    assert!(matches!(
        prepare_resampler_for_geometry(
            SourceGeometry::area(source.copy()),
            &destination,
            ResampleOptions::bucket_count(),
        )
        .err().unwrap(),
        RustySatError::Unsupported { .. }
    ));
    assert!(prepare_resampler_for_geometry(
        SourceGeometry::area(source),
        &destination,
        ResampleOptions::ewa(),
    )
    .err().unwrap()
    .message()
    .contains("area geometry"));
}

#[test]
fn swath_nearest_pipeline_preparation_builds_swath_resampler() {
    let destination = area("destination", 1, 1, [0.0, 0.0, 1.0, 1.0]);

    // Swath + nearest area now prepares the cached KD-indexed swath
    // resampler instead of erroring.
    let prepared = prepare_resampler_for_geometry(
        SourceGeometry::swath(swath()),
        &destination,
        ResampleOptions::nearest_area(),
    )
    .unwrap();
    assert_eq!(prepared.name(), "nearest_swath");

    let dataset = Dataset::new(DataId::new("swath_data").unwrap())
        .with_data(grid(2, 2, vec![1.0, 2.0, 3.0, 4.0]).unwrap());
    let resampled = run(&prepared, &dataset, &destination).unwrap();
    assert_eq!(resampled.data().unwrap().shape(), (1, 1));
}

#[test]
fn ewa_pipeline_requires_radius() {
    let destination = area("destination", 1, 1, [0.0, 0.0, 1.0, 1.0]);

    let err = prepare_resampler_for_geometry(
        SourceGeometry::swath(swath()),
        &destination,
        ResampleOptions::ewa(),
    )
    .err().unwrap();

    assert!(err.message().contains("radius_of_influence"));
}

#[test]
fn prepare_resampler_with_native_method() {
    let source = area("source", 2, 2, [0.0, 0.0, 2.0, 2.0]);
    let destination = area("destination", 4, 4, [0.0, 0.0, 4.0, 4.0]);
    let options = ResampleOptions::native();
    let resampler = prepare_resampler(source, &destination, options).unwrap();

    assert_eq!(resampler.method(), ResamplerMethod::Native);

    let dataset = Dataset::new(DataId::new("image").unwrap())
        .with_data(grid(2, 2, vec![1.0, 2.0, 3.0, 4.0]).unwrap());
    let output = run(&resampler, &dataset, &destination).unwrap();

    assert_eq!(output.data().unwrap().shape(), (4, 4));
}

#[test]
fn resampler_cache_reuses_matching_nan_default_options() {
    let source = area("source", 2, 2, [0.0, 0.0, 2.0, 2.0]);
    let destination = area("destination", 1, 1, [0.0, 1.0, 1.0, 2.0]);
    let mut cache = ResamplerCache::new();

    let first = cache
        .prepare(source.copy(), &destination, ResampleOptions::default())
        .unwrap()
        .method();
    let second = cache
        .prepare(source, &destination, ResampleOptions::default())
        .unwrap()
        .method();

    assert_eq!(first, ResamplerMethod::NearestArea);
    assert_eq!(second, ResamplerMethod::NearestArea);
    assert_eq!(cache.len(), 1);
}

#[test]
fn resampler_cache_distinguishes_options_and_can_clear() {
    let source = area("source", 2, 2, [0.0, 0.0, 2.0, 2.0]);
    let destination = area("destination", 1, 1, [0.0, 1.0, 1.0, 2.0]);
    let mut cache = ResamplerCache::new();

    cache
        .prepare(
            source.copy(),
            &destination,
            ResampleOptions::nearest_area().with_fill_value(bits(-1.0)),
        )
        .unwrap();
    cache
        .prepare(
            source,
            &destination,
            ResampleOptions::nearest_area().with_fill_value(bits(-2.0)),
        )
        .unwrap();

    assert_eq!(cache.len(), 2);
    cache.clear();
    assert!(cache.is_empty());
}

#[test]
fn cached_resample_dataset_uses_prepared_resampler() {
    let source = area("source", 2, 2, [0.0, 0.0, 2.0, 2.0]);
    let destination = area("destination", 1, 1, [0.0, 1.0, 1.0, 2.0]);
    let dataset = Dataset::new(DataId::new("image").unwrap())
        .with_data(grid(2, 2, vec![1.0, 2.0, 3.0, 4.0]).unwrap());
    let mut cache = ResamplerCache::new();

    let first = resample_dataset_cached(
        &mut cache,
        &dataset,
        source.copy(),
        &destination,
        ResampleOptions::default(),
    )
    .unwrap();
    let second = resample_dataset_cached(
        &mut cache,
        &dataset,
        source,
        &destination,
        ResampleOptions::default(),
    )
    .unwrap();

    assert_eq!(
        first.data().unwrap().values(),
        second.data().unwrap().values()
    );
    assert_eq!(cache.len(), 1);
}

#[test]
fn mask_missing_option_produces_masked_output() {
    let source = area("source", 1, 1, [0.0, 0.0, 1.0, 1.0]);
    let destination = area("destination", 1, 1, [2.0, 2.0, 3.0, 3.0]);
    let options = ResampleOptions::nearest_area()
        .with_radius_of_influence(bits(0.25))
        .unwrap()
        .with_masked_missing();
    let resampler = prepare_resampler(source, &destination, options).unwrap();

    let dataset = Dataset::new(DataId::new("image").unwrap())
        .with_data(grid(1, 1, vec![5.0]).unwrap());
    let output = run(&resampler, &dataset, &destination).unwrap();

    assert!(output.data().unwrap().plain()[0].is_nan());
    assert_eq!(output.data().unwrap().mask().unwrap().masked_count(), 1);
}

#[test]
fn options_with_method_chains_to_switch_resampler() {
    let native = ResampleOptions::nearest_area().with_method(ResamplerMethod::Native);
    assert_eq!(native.method(), ResamplerMethod::Native);

    let nearest = ResampleOptions::native().with_method(ResamplerMethod::NearestArea);
    assert_eq!(nearest.method(), ResamplerMethod::NearestArea);

    let bucket = ResampleOptions::bucket_sum().with_skipna(false);
    assert_eq!(bucket.method(), ResamplerMethod::BucketSum);
    assert!(!bucket.skipna());

    let fraction = ResampleOptions::bucket_fraction(all_bits(&[0.0, 1.0]));
    assert_eq!(fraction.method(), ResamplerMethod::BucketFraction);
    assert_eq!(all_plain(fraction.bucket_categories()), [0.0, 1.0]);
    assert!(!fraction.bucket_categories_auto());

    let auto_fraction = ResampleOptions::bucket_fraction_auto();
    assert_eq!(auto_fraction.method(), ResamplerMethod::BucketFraction);
    assert!(auto_fraction.bucket_categories_auto());
    assert!(auto_fraction.bucket_categories().is_empty());
}

#[test]
fn options_rejects_negative_radius() {
    assert!(ResampleOptions::nearest_area()
        .with_radius_of_influence(bits(-0.5))
        .is_err());
}

#[test]
fn resampler_cache_distinguishes_swath_and_area_geometry() {
    let destination = area("destination", 2, 2, [0.0, 0.0, 2.0, 2.0]);
    let mut cache = ResamplerCache::new();

    cache
        .prepare_for_geometry(
            SourceGeometry::area(area("src", 2, 2, [0.0, 0.0, 2.0, 2.0])),
            &destination,
            ResampleOptions::nearest_area(),
        )
        .unwrap();
    cache
        .prepare_for_geometry(
            SourceGeometry::swath(swath()),
            &destination,
            ResampleOptions::bucket_average(),
        )
        .unwrap();

    assert_eq!(cache.len(), 2);
}

#[test]
fn cached_owned_resample_dataset_works() {
    let source = area("source", 2, 2, [0.0, 0.0, 2.0, 2.0]);
    let destination = area("destination", 4, 4, [0.0, 0.0, 2.0, 2.0]);
    let dataset = Dataset::new(DataId::new("image").unwrap())
        .with_data(grid(2, 2, vec![1.0, 2.0, 3.0, 4.0]).unwrap());
    let mut cache = ResamplerCache::new();

    let output = resample_dataset_owned_cached(
        &mut cache,
        dataset,
        source,
        &destination,
        ResampleOptions::native(),
    )
    .unwrap();

    assert_eq!(output.data().unwrap().shape(), (4, 4));
    assert_eq!(cache.len(), 1);
}

#[test]
fn a_data_set_is_what_the_prepared_resampler_makes_of_it() {
    let source = area("source", 2, 2, [0.0, 0.0, 2.0, 2.0]);
    let destination = area("destination", 4, 4, [0.0, 0.0, 2.0, 2.0]);
    let dataset = Dataset::new(DataId::new("image").unwrap())
        .with_data(grid(2, 2, vec![1.0, 2.0, 3.0, 4.0]).unwrap());
    for options in [
        ResampleOptions::nearest_area().with_fill_value(bits(-1.0)),
        ResampleOptions::bilinear().with_fill_value(bits(-1.0)),
        ResampleOptions::native(),
    ] {
        let prepared = prepare_resampler_for_geometry(
            SourceGeometry::area(source.copy()),
            &destination,
            options.clone(),
        )
        .unwrap();
        let wanted = run(&prepared, &dataset, &destination).unwrap();
        let output = resample_dataset_from_geometry(
            &dataset,
            SourceGeometry::area(source.copy()),
            &destination,
            options,
        )
        .unwrap();
        assert!(output == wanted);
    }
}

#[test]
fn a_reduced_data_set_is_its_part_resampled() {
    let source = area("source", 4, 4, [0.0, 0.0, 4.0, 4.0]);
    let destination = area("destination", 2, 2, [1.1, 1.1, 2.9, 2.9]);
    let values: Vec<f64> = (0..16).map(f64::from).collect();
    let dataset = Dataset::new(DataId::new("image").unwrap())
        .with_data(grid(4, 4, values).unwrap());
    let options = ResampleOptions::nearest_area()
        .with_fill_value(bits(-1.0))
        .with_data_reduction();
    let (part, part_area) =
        reduce_area_dataset_with_divisibility(&dataset, &source, &destination, None).unwrap();
    let prepared = prepare_resampler(part_area, &destination, options.clone()).unwrap();
    let wanted = run_owned(&prepared, part, &destination).unwrap();
    let output = resample_dataset(&dataset, source, &destination, options).unwrap();
    assert!(output == wanted);
}

#[test]
fn every_way_of_resampling_gives_the_same_data_set() {
    let source = area("source", 4, 4, [0.0, 0.0, 4.0, 4.0]);
    let destination = area("destination", 2, 2, [1.1, 1.1, 2.9, 2.9]);
    let values: Vec<f64> = (0..16).map(f64::from).collect();
    let dataset = Dataset::new(DataId::new("image").unwrap())
        .with_data(grid(4, 4, values).unwrap());
    let options = ResampleOptions::bilinear().with_fill_value(bits(-1.0));
    let wanted = resample_dataset(&dataset, source.copy(), &destination, options.clone()).unwrap();
    let expected = [5.25, 6.15, 8.85, 9.75];
    for (value, near) in wanted.data().unwrap().plain().iter().zip(expected) {
        assert!((value - near).abs() < 1e-9);
    }
    let reduced = options.clone().with_data_reduction();
    let mut cache = ResamplerCache::new();
    let geometry = || SourceGeometry::area(source.copy());
    let outputs = [
        resample_dataset_cached(&mut cache, &dataset, source.copy(), &destination, options.clone()),
        resample_dataset_owned(dataset.clone(), source.copy(), &destination, options.clone()),
        resample_dataset_owned_cached(
            &mut cache,
            dataset.clone(),
            source.copy(),
            &destination,
            options.clone(),
        ),
        resample_dataset_from_geometry(&dataset, geometry(), &destination, options.clone()),
        rusty_sat::pipeline::resample_dataset_from_geometry_cached(
            &mut cache,
            &dataset,
            geometry(),
            &destination,
            options.clone(),
            &arithmetic,
        ),
        rusty_sat::pipeline::resample_dataset_owned_from_geometry(
            dataset.clone(),
            geometry(),
            &destination,
            options.clone(),
            &arithmetic,
        ),
        rusty_sat::pipeline::resample_dataset_owned_from_geometry_cached(
            &mut cache,
            dataset.clone(),
            geometry(),
            &destination,
            options,
            &arithmetic,
        ),
    ];
    for output in outputs {
        assert!(output.unwrap() == wanted);
    }
    assert_eq!(cache.len(), 1);
    let wanted = resample_dataset(&dataset, source.copy(), &destination, reduced.clone()).unwrap();
    let outputs = [
        rusty_sat::pipeline::resample_area_dataset_reduced(
            &dataset,
            source.copy(),
            &destination,
            reduced.clone(),
            &arithmetic,
            &cuts(),
        ),
        rusty_sat::pipeline::resample_area_dataset_reduced_cached(
            &mut cache,
            &dataset,
            source.copy(),
            &destination,
            reduced.clone(),
            &arithmetic,
            &cuts(),
        ),
        rusty_sat::pipeline::resample_area_dataset_reduced_owned(
            dataset.clone(),
            source.copy(),
            &destination,
            reduced.clone(),
            &arithmetic,
            &cuts(),
        ),
        rusty_sat::pipeline::resample_area_dataset_reduced_owned_cached(
            &mut cache,
            dataset,
            source,
            &destination,
            reduced,
            &arithmetic,
            &cuts(),
        ),
    ];
    for output in outputs {
        assert!(output.unwrap() == wanted);
    }
    assert_eq!(cache.len(), 2);
}

#[test]
fn a_destination_with_too_many_pixels_is_refused() {
    let source = area("source", 2, 2, [0.0, 0.0, 2.0, 2.0]);
    let destination = AreaDefinition::new("destination", usize::MAX, 2).unwrap();
    let dataset = Dataset::new(DataId::new("image").unwrap())
        .with_data(grid(2, 2, vec![1.0, 2.0, 3.0, 4.0]).unwrap());
    let error =
        resample_dataset(&dataset, source, &destination, ResampleOptions::nearest_area())
            .unwrap_err();
    assert_eq!(error, RustySatError::invalid_input("area size overflows usize"));
}
