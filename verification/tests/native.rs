use rusty_sat::area::{AreaDefinition, AreaGrid};
use rusty_sat::array::{AnyDataArray, Coordinate, DataArray, DataGrid, DataType, ValidityMask};
use rusty_sat::dataset::{DataId, Dataset};
use rusty_sat::error::{Result, RustySatError};
use rusty_sat::metadata::MetadataValue;
use rusty_sat::native::{native_repeat_yx, native_repeat_yx_owned};
use rusty_sat::native_resampler::NativeResampler;
use rusty_sat::number::F64;
use rusty_sat::text_map::TextMap;

fn bits(value: f64) -> F64 {
    F64::from_bits(value.to_bits())
}

fn plain(value: F64) -> f64 {
    f64::from_bits(value.to_bits())
}

fn all_bits(values: &[f64]) -> Vec<F64> {
    values.iter().map(|value| bits(*value)).collect()
}

fn all_plain(values: &[F64]) -> Vec<f64> {
    values.iter().map(|value| plain(*value)).collect()
}

/// A part of the way between two bounds, of `count` parts.
fn part(low: F64, high: F64, count: usize) -> F64 {
    bits((plain(high) - plain(low)) / count as f64)
}

fn mean(values: Vec<F64>) -> F64 {
    let sum = values.iter().fold(0.0, |sum, value| sum + plain(*value));
    bits(sum / values.len() as f64)
}

fn extent(area: &AreaDefinition) -> [f64; 4] {
    area.area_extent().map(plain)
}

fn pixel_size(area: &AreaDefinition) -> (f64, f64) {
    let (x, y) = area.pixel_size(&part);
    (plain(x), plain(y))
}

/// The centre of a pixel.
fn pixel_center(area: &AreaDefinition, y: usize, x: usize) -> (f64, f64) {
    let extent = extent(area);
    let (pixel_size_x, pixel_size_y) = pixel_size(area);
    (
        extent[0] + (x as f64 + 0.5) * pixel_size_x,
        extent[3] - (y as f64 + 0.5) * pixel_size_y,
    )
}

/// The area with the coordinates of its columns and rows.
fn on_grid(area: &AreaDefinition) -> Result<AreaGrid> {
    let (height, width) = area.shape();
    let x = (0..width).map(|x| bits(pixel_center(area, 0, x).0)).collect();
    let y = (0..height).map(|y| bits(pixel_center(area, y, 0).1)).collect();
    AreaGrid::new(area.copy(), x, y)
}

fn require_plane_dims(dims: &[String]) -> Result<()> {
    if dims.len() == 2 && dims[0] == "y" && dims[1] == "x" {
        Ok(())
    } else {
        Err(RustySatError::invalid_input(
            "array dimensions do not match expected [\"y\", \"x\"]",
        ))
    }
}

/// Refuses an array that is no plane.
fn require_plane(grid: &DataGrid) -> Result<()> {
    require_plane_dims(grid.dims())
}

/// Refuses an array without pixels, of which no scale can be taken.
fn require_pixels(shape: &[usize]) -> Result<()> {
    if shape.contains(&0) {
        return Err(RustySatError::invalid_input("native resampling requires pixels"));
    }
    Ok(())
}

/// Refuses factors for which the repeated plane would be too large.
fn require_room(grid: &DataGrid, y_factor: usize, x_factor: usize) -> Result<()> {
    let height = grid.shape_nd()[0].checked_mul(y_factor);
    let width = grid.shape_nd()[1].checked_mul(x_factor);
    match (height, width) {
        (Some(h), Some(w)) if h.checked_mul(w).is_some() => Ok(()),
        _ => Err(RustySatError::invalid_input("repeated plane overflows usize")),
    }
}

fn native_repeat_2d(grid: &DataGrid, y_factor: usize, x_factor: usize) -> Result<DataGrid> {
    require_plane(grid)?;
    require_room(grid, y_factor, x_factor)?;
    rusty_sat::native::native_repeat_2d(grid, y_factor, x_factor)
}

fn native_aggregate_mean_2d(
    grid: &DataGrid,
    y_factor: usize,
    x_factor: usize,
) -> Result<DataGrid> {
    require_plane(grid)?;
    rusty_sat::native::native_aggregate_mean_2d(grid, y_factor, x_factor, &mean)
}

fn native_aggregate_mean_yx(
    grid: &DataGrid,
    y_factor: usize,
    x_factor: usize,
) -> Result<DataGrid> {
    rusty_sat::native::native_aggregate_mean_yx(grid, y_factor, x_factor, &mean)
}

fn native_resample_2d(grid: &DataGrid, destination: &AreaDefinition) -> Result<DataGrid> {
    require_plane(grid)?;
    require_pixels(grid.shape_nd())?;
    rusty_sat::native::native_resample_2d(grid, &on_grid(destination)?, &mean)
}

fn native_resample_yx(grid: &DataGrid, destination: &AreaDefinition) -> Result<DataGrid> {
    require_pixels(grid.shape_nd())?;
    rusty_sat::native::native_resample_yx(grid, &on_grid(destination)?, &mean)
}

fn native_resample_any_yx_owned(
    array: AnyDataArray,
    destination: &AreaDefinition,
) -> Result<AnyDataArray> {
    require_pixels(array.shape())?;
    rusty_sat::native::native_resample_any_yx_owned(array, &on_grid(destination)?, &mean)
}

fn native_dataset(
    resampler: &NativeResampler,
    dataset: &Dataset,
    destination: &AreaDefinition,
) -> Result<Dataset> {
    resampler.resample(dataset, &on_grid(destination)?, &mean)
}

fn native_dataset_owned(
    resampler: &NativeResampler,
    dataset: Dataset,
    destination: &AreaDefinition,
) -> Result<Dataset> {
    resampler.resample_owned(dataset, &on_grid(destination)?, &mean)
}

trait Plain {
    fn plain(&self) -> Vec<f64>;
}

impl Plain for DataGrid {
    fn plain(&self) -> Vec<f64> {
        all_plain(self.values())
    }
}

impl Plain for Coordinate {
    fn plain(&self) -> Vec<f64> {
        all_plain(self.values())
    }
}

impl Plain for AnyDataArray {
    fn plain(&self) -> Vec<f64> {
        all_plain(&self.numbers())
    }
}

trait Plane {
    fn shape(&self) -> (usize, usize);
}

impl Plane for DataGrid {
    fn shape(&self) -> (usize, usize) {
        self.shape_yx().unwrap()
    }
}

fn grid(height: usize, width: usize, values: Vec<f64>) -> Result<DataGrid> {
    DataGrid::new(height, width, all_bits(&values))
}

fn map_of(pairs: &[(&str, &str)]) -> TextMap<String> {
    let mut map = TextMap::new();
    for (key, value) in pairs {
        map.insert(key.to_string(), value.to_string());
    }
    map
}

fn names(dims: &[&str]) -> Vec<String> {
    dims.iter().map(|dim| dim.to_string()).collect()
}

fn repeat_2d_owned(source_grid: DataGrid, y_factor: usize, x_factor: usize) -> Result<DataGrid> {
    rusty_sat::native::native_repeat_2d_owned(source_grid, y_factor, x_factor)
}

fn native_aggregate_mean_2d_owned(
    source_grid: DataGrid,
    y_factor: usize,
    x_factor: usize,
) -> Result<DataGrid> {
    rusty_sat::native::native_aggregate_mean_2d_owned(source_grid, y_factor, x_factor, &mean)
}

fn native_aggregate_mean_yx_owned(
    array: DataGrid,
    y_factor: usize,
    x_factor: usize,
) -> Result<DataGrid> {
    rusty_sat::native::native_aggregate_mean_yx_owned(array, y_factor, x_factor, &mean)
}

fn native_resample_yx_owned(array: DataGrid, destination: &AreaDefinition) -> Result<DataGrid> {
    rusty_sat::native::native_resample_yx_owned(array, &on_grid(destination)?, &mean)
}

fn area(id: &str, height: usize, width: usize) -> AreaDefinition {
    AreaDefinition::new(id, height, width).unwrap()
}

#[test]
fn repeats_grid_and_mask_by_integer_factors() {
    let source_grid = grid(2, 2, vec![1.0, 2.0, 3.0, 4.0])
        .unwrap()
        .with_mask(ValidityMask::from_masked_flags(vec![false, true, false, false]))
        .unwrap();

    let repeated = native_repeat_2d(&source_grid, 2, 3).unwrap();

    assert_eq!(repeated.shape(), (4, 6));
    assert_eq!(
        repeated.plain(),
        [
            1.0, 1.0, 1.0, 2.0, 2.0, 2.0, 1.0, 1.0, 1.0, 2.0, 2.0, 2.0, 3.0, 3.0, 3.0, 4.0,
            4.0, 4.0, 3.0, 3.0, 3.0, 4.0, 4.0, 4.0
        ]
    );
    assert!(repeated.is_masked(3).unwrap());
    assert!(repeated.is_masked(9).unwrap());
    assert!(!repeated.is_masked(12).unwrap());
}

#[test]
fn repeats_named_yx_axes_in_band_major_array() {
    let array = DataArray::<F64>::from_vec_named(
        vec![2, 2, 2],
        names(&["bands", "y", "x"]),
        all_bits(&[1.0, 2.0, 3.0, 4.0, 10.0, 20.0, 30.0, 40.0]),
    )
    .unwrap()
    .with_mask(ValidityMask::from_masked_flags(vec![
        false, true, false, false, false, false, true, false,
    ]))
    .unwrap()
    .with_coordinate("bands", Coordinate::axis("bands", all_bits(&[0.6, 0.8])))
    .unwrap();

    let repeated = native_repeat_yx(&array, 2, 2).unwrap();

    assert_eq!(repeated.shape_nd(), &[2, 4, 4]);
    assert_eq!(repeated.dims(), &["bands", "y", "x"]);
    assert_eq!(repeated.plain()[..8], [1.0, 1.0, 2.0, 2.0, 1.0, 1.0, 2.0, 2.0]
    );
    assert_eq!(repeated.plain()[16..24], [10.0, 10.0, 20.0, 20.0, 10.0, 10.0, 20.0, 20.0]
    );
    assert_eq!(repeated.mask().unwrap().masked_count(), 8);
    assert!(repeated.coord("bands").is_some());
}

#[test]
fn aggregates_grid_by_nanmean_and_masks_empty_blocks() {
    let source_grid = grid(
        4,
        4,
        vec![
            1.0,
            2.0,
            5.0,
            7.0,
            3.0,
            f64::NAN,
            11.0,
            13.0,
            17.0,
            19.0,
            23.0,
            29.0,
            31.0,
            37.0,
            f64::NAN,
            f64::NAN,
        ],
    )
    .unwrap()
    .with_mask(ValidityMask::from_masked_flags(vec![
        false, false, false, false, false, true, false, false, false, false, false, false,
        false, false, true, true,
    ]))
    .unwrap();

    let aggregated = native_aggregate_mean_2d(&source_grid, 2, 2).unwrap();

    assert_eq!(aggregated.shape(), (2, 2));
    assert_eq!(aggregated.plain()[0], 2.0);
    assert_eq!(aggregated.plain()[1], 9.0);
    assert_eq!(aggregated.plain()[2], 26.0);
    assert_eq!(aggregated.plain()[3], 26.0);
    assert!(aggregated.mask().is_none());
}

#[test]
fn aggregates_named_yx_axes_in_band_major_array() {
    let array = DataArray::<F64>::from_vec_named(
        vec![2, 2, 2],
        names(&["bands", "y", "x"]),
        all_bits(&[1.0, 3.0, 5.0, 7.0, 10.0, 30.0, 50.0, f64::NAN]),
    )
    .unwrap()
    .with_mask(ValidityMask::from_masked_flags(vec![
        false, false, false, false, false, false, false, true,
    ]))
    .unwrap();

    let aggregated = native_aggregate_mean_yx(&array, 2, 2).unwrap();

    assert_eq!(aggregated.shape_nd(), &[2, 1, 1]);
    assert_eq!(aggregated.dims(), &["bands", "y", "x"]);
    assert_eq!(aggregated.plain(), [4.0, 30.0]);
    assert!(aggregated.mask().is_none());
}

#[test]
fn native_resampler_accepts_higher_dimensional_yx_arrays() {
    let source = area("source", 2, 2);
    let destination = area("destination", 4, 4);
    let id = DataId::new("rgb").unwrap();
    let array = DataArray::<F64>::from_vec_named(
        vec![2, 2, 2],
        names(&["bands", "y", "x"]),
        all_bits(&[1.0, 2.0, 3.0, 4.0, 10.0, 20.0, 30.0, 40.0]),
    )
    .unwrap();
    let dataset = Dataset::new(id).with_array(AnyDataArray::F64(array));

    let output = native_dataset(&NativeResampler::new(source), &dataset, &destination)
        .unwrap();

    let output_array = output.array().unwrap();
    assert_eq!(output_array.shape(), &[2, 4, 4]);
    assert_eq!(output_array.dims(), &["bands", "y", "x"]);
    assert_eq!(
        output.metadata().get("resampler"),
        Some(&"native".to_string())
    );
}

#[test]
fn native_resampler_repeats_runtime_typed_arrays_without_promoting_dtype() {
    let source = area("source", 2, 2);
    let destination = area("destination", 4, 4);
    let id = DataId::new("counts").unwrap();
    let array = DataArray::<u16>::from_vec_named(vec![2, 2], names(&["y", "x"]), vec![1_u16, 2, 3, 4])
        .unwrap()
        .with_mask(ValidityMask::from_masked_flags(vec![false, true, false, false]))
        .unwrap();
    let dataset = Dataset::new(id).with_array(AnyDataArray::U16(array));

    let output = native_dataset(&NativeResampler::new(source), &dataset, &destination)
        .unwrap();

    let output_array = output.array().unwrap();
    assert_eq!(output_array.dtype(), DataType::U16);
    assert_eq!(output_array.shape(), &[4, 4]);
    assert_eq!(output_array.plain()[..4], [1.0, 1.0, 2.0, 2.0]);
    assert_eq!(output_array.mask().unwrap().masked_count(), 4);
    assert!(output_array.coord("x").is_some());
    assert!(output_array.coord("y").is_some());
}

#[test]
fn native_resample_any_yx_owned_identity_preserves_dtype() {
    let destination = area("destination", 2, 2);
    let array = DataArray::<u8>::from_vec_named(vec![2, 2], names(&["y", "x"]), vec![1_u8, 2, 3, 4])
        .unwrap()
        .with_mask(ValidityMask::from_masked_flags(vec![false, false, true, false]))
        .unwrap()
        .with_coordinate("quality", Coordinate::scalar(bits(1.0)))
        .unwrap();

    let output = native_resample_any_yx_owned(AnyDataArray::U8(array), &destination).unwrap();

    assert_eq!(output.dtype(), DataType::U8);
    assert_eq!(output.shape(), &[2, 2]);
    assert_eq!(output.plain(), [1.0, 2.0, 3.0, 4.0]);
    assert_eq!(output.mask().unwrap().masked_count(), 1);
    assert!(output.coord("x").is_some());
    assert!(output.coord("y").is_some());
    assert_eq!(output.coord("quality").unwrap().plain(), [1.0]);
}

#[test]
fn native_resampler_aggregates_runtime_typed_arrays_to_f64_means() {
    let source = area("source", 4, 4);
    let destination = area("destination", 2, 2);
    let id = DataId::new("counts").unwrap();
    let array = DataArray::<u16>::from_vec_named(
        vec![4, 4],
        names(&["y", "x"]),
        vec![1_u16, 3, 5, 7, 9, 11, 13, 15, 2, 4, 6, 8, 10, 12, 14, 16],
    )
    .unwrap();
    let dataset = Dataset::new(id).with_array(AnyDataArray::U16(array));

    let output = native_dataset_owned(&NativeResampler::new(source), dataset, &destination)
        .unwrap();

    let output_array = output.array().unwrap();
    assert_eq!(output_array.dtype(), DataType::F64);
    assert_eq!(output_array.shape(), &[2, 2]);
    assert_eq!(output_array.plain(), [6.0, 10.0, 7.0, 11.0]);
    assert!(output_array.coord("x").is_some());
    assert!(output_array.coord("y").is_some());
}

#[test]
fn native_resampler_rejects_mixed_axis_direction() {
    let source_grid = grid(2, 4, (0..8).map(f64::from).collect()).unwrap();
    let err = native_resample_2d(&source_grid, &area("mixed", 4, 2)).unwrap_err();
    assert!(err
        .message()
        .contains("cannot mix expansion and reduction"));
}

#[test]
fn resampler_preserves_metadata_and_adds_destination_coords() {
    let source = area("source", 2, 2);
    let destination = area("destination", 4, 4);
    let id = DataId::new("counts").unwrap();
    let source_grid = grid(2, 2, vec![1.0, 2.0, 3.0, 4.0]).unwrap();
    let mut dataset = Dataset::new(id.copy()).with_data(source_grid);
    dataset.insert_metadata("sensor", "ahi");
    dataset
        .insert_attr("nested", MetadataValue::string("kept"));

    let resampler = NativeResampler::new(source);
    let resampled = native_dataset(&resampler, &dataset, &destination).unwrap();

    assert_eq!(resampled.id(), &id);
    assert_eq!(resampled.metadata().get("sensor").unwrap(), "ahi");
    assert_eq!(resampled.metadata().get("area").unwrap(), "destination");
    assert_eq!(resampled.metadata().get("resampler").unwrap(), "native");
    let array = resampled.data().unwrap();
    assert_eq!(array.shape(), (4, 4));
    assert!(array.coord("x").is_some());
    assert!(array.coord("y").is_some());
    assert_eq!(
        resampled.attr("nested"),
        Some(&MetadataValue::string("kept"))
    );
}

#[test]
fn identity_passes_through_unchanged() {
    let destination = area("destination", 2, 3);
    let source_grid = grid(2, 3, vec![1.0, 2.0, 3.0, 4.0, 5.0, 6.0])
        .unwrap()
        .with_mask(ValidityMask::from_masked_flags(vec![
            false, true, false, false, false, false,
        ]))
        .unwrap();

    let result = native_resample_2d(&source_grid, &destination).unwrap();

    assert_eq!(result.shape(), (2, 3));
    assert_eq!(result.plain(), [1.0, 2.0, 3.0, 4.0, 5.0, 6.0]);
    assert_eq!(result.mask().unwrap().masked_count(), 1);
    assert!(result.coord("x").is_some());
    assert!(result.coord("y").is_some());
}

#[test]
fn owned_repeat_and_aggregate_produce_same_output_as_borrowed() {
    let source_grid = grid(2, 2, vec![1.0, 2.0, 3.0, 4.0]).unwrap();
    let borrowed = native_repeat_2d(&source_grid, 2, 2).unwrap();
    let owned = repeat_2d_owned(source_grid, 2, 2).unwrap();
    assert_eq!(borrowed.values(), owned.values());
    assert_eq!(borrowed.mask(), owned.mask());

    let source_grid = grid(4, 4, (0..16).map(f64::from).collect()).unwrap();
    let borrowed = native_aggregate_mean_2d(&source_grid, 2, 2).unwrap();
    let owned = native_aggregate_mean_2d_owned(source_grid, 2, 2).unwrap();
    assert_eq!(borrowed.values(), owned.values());
    assert_eq!(borrowed.mask(), owned.mask());
}

#[test]
fn repeat_rejects_zero_factors() {
    let source_grid = grid(1, 1, vec![1.0]).unwrap();

    assert!(native_repeat_2d(&source_grid, 0, 2).is_err());
    assert!(native_repeat_2d(&source_grid, 2, 0).is_err());
}

#[test]
fn aggregate_rejects_non_integer_factors() {
    let source_grid = grid(3, 3, (0..9).map(f64::from).collect()).unwrap();

    assert!(native_aggregate_mean_2d(&source_grid, 2, 2).is_err());
}

#[test]
fn native_resampler_rejects_different_projections() {
    let source = AreaDefinition::from_parts(
        "source",
        "source",
        "source",
        map_of(&[("proj", "longlat")]),
        2,
        2,
        [0.0, 0.0, 2.0, 2.0].map(bits),
    )
    .unwrap();
    let destination = AreaDefinition::from_parts(
        "destination",
        "destination",
        "destination",
        map_of(&[("proj", "merc")]),
        2,
        2,
        [0.0, 0.0, 2.0, 2.0].map(bits),
    )
    .unwrap();
    let id = DataId::new("image").unwrap();
    let dataset =
        Dataset::new(id).with_data(grid(2, 2, vec![1.0, 2.0, 3.0, 4.0]).unwrap());
    let resampler = NativeResampler::new(source);

    assert!(native_dataset(&resampler, &dataset, &destination).is_err());
}

#[test]
fn yx_methods_reject_missing_y_or_x_dimensions() {
    let array =
        DataArray::<F64>::from_vec_named(vec![2, 2], names(&["bands", "time"]), all_bits(&[1.0, 2.0, 3.0, 4.0]))
            .unwrap();

    assert!(native_repeat_yx(&array, 2, 2).is_err());
    assert!(native_aggregate_mean_yx(&array, 2, 2).is_err());
}

#[test]
fn yx_owned_produces_same_output_as_borrowed() {
    let array = DataArray::<F64>::from_vec_named(
        vec![2, 2, 2],
        names(&["bands", "y", "x"]),
        all_bits(&[1.0, 2.0, 3.0, 4.0, 10.0, 20.0, 30.0, 40.0]),
    )
    .unwrap()
    .with_mask(ValidityMask::from_masked_flags(vec![
        false, true, false, false, false, false, true, false,
    ]))
    .unwrap();

    let borrowed_repeat = native_repeat_yx(&array, 2, 2).unwrap();
    let owned_repeat = native_repeat_yx_owned(array.copy(), 2, 2).unwrap();
    assert_eq!(borrowed_repeat.values(), owned_repeat.values());
    assert_eq!(borrowed_repeat.mask(), owned_repeat.mask());

    let borrowed_agg = native_aggregate_mean_yx(&array, 2, 2).unwrap();
    let owned_agg = native_aggregate_mean_yx_owned(array, 2, 2).unwrap();
    assert_eq!(borrowed_agg.values(), owned_agg.values());
    assert_eq!(borrowed_agg.mask(), owned_agg.mask());
}

#[test]
fn native_resample_yx_owned_produces_same_output_as_borrowed() {
    let destination = area("destination", 4, 4);
    let borrowed = DataArray::<F64>::from_vec_named(
        vec![2, 2, 2],
        names(&["bands", "y", "x"]),
        all_bits(&[1.0, 2.0, 3.0, 4.0, 10.0, 20.0, 30.0, 40.0]),
    )
    .unwrap();
    let owned = borrowed.copy();

    let borrowed_result = native_resample_yx(&borrowed, &destination).unwrap();
    let owned_result = native_resample_yx_owned(owned, &destination).unwrap();

    assert_eq!(borrowed_result.values(), owned_result.values());
    assert_eq!(borrowed_result.shape_nd(), owned_result.shape_nd());
    assert_eq!(borrowed_result.dims(), owned_result.dims());
}
