use rusty_sat::array::{AnyDataArray, Coordinate, DataArray, DataGrid, DataType, ValidityMask};
use rusty_sat::error::Result;
use rusty_sat::linesample::{
    LineSampleFillValue, LineSampleGrid, get_image_from_linesample, sample_any_from_linesample,
    sample_array_from_linesample, sample_grid_from_linesample,
};
use rusty_sat::number::F64;

fn bits(value: f64) -> F64 {
    F64::from_bits(value.to_bits())
}

fn plain(value: F64) -> f64 {
    f64::from_bits(value.to_bits())
}

fn all_bits(values: &[f64]) -> Vec<F64> {
    values.iter().map(|value| bits(*value)).collect()
}

fn all_plain(values: &[F64]) -> Vec<f64> {
    values.iter().map(|value| plain(*value)).collect()
}

trait Plain {
    fn plain(&self) -> Vec<f64>;
}

impl Plain for DataGrid {
    fn plain(&self) -> Vec<f64> {
        all_plain(self.values())
    }
}

impl Plain for Coordinate {
    fn plain(&self) -> Vec<f64> {
        all_plain(self.values())
    }
}

impl Plain for AnyDataArray {
    fn plain(&self) -> Vec<f64> {
        all_plain(&self.numbers())
    }
}

trait Plane {
    fn shape(&self) -> (usize, usize);
}

impl Plane for DataGrid {
    fn shape(&self) -> (usize, usize) {
        self.shape_yx().unwrap()
    }
}

fn grid(height: usize, width: usize, values: Vec<f64>) -> Result<DataGrid> {
    DataGrid::new(height, width, all_bits(&values))
}

fn names(dims: &[&str]) -> Vec<String> {
    dims.iter().map(|dim| dim.to_string()).collect()
}

fn source_grid() -> DataGrid {
    grid(3, 3, (0..9).map(f64::from).collect()).unwrap()
}

#[test]
fn line_sample_grid_validates_shape_and_lengths() {
    let lines = LineSampleGrid::new(2, 2, vec![0, 0, 1, 1], vec![0, 1, 0, 1]).unwrap();
    assert_eq!(lines.shape(), (2, 2));
    assert_eq!(lines.len(), 4);

    let err = LineSampleGrid::new(2, 2, vec![0, 1], vec![0, 1]).unwrap_err();
    assert!(err.message().contains("must both have 4 values"));
    assert!(LineSampleGrid::new(0, 2, Vec::<isize>::new(), Vec::<isize>::new()).is_err());
}

#[test]
fn samples_grid_with_fill_for_invalid_indices() {
    let output =
        get_image_from_linesample(&[0, 1, -1, 3], &[0, 2, 0, 0], 2, 2, &source_grid(), bits(-999.0))
            .unwrap();

    assert_eq!(output.shape(), (2, 2));
    assert_eq!(output.plain(), [0.0, 5.0, -999.0, -999.0]);
    assert!(output.mask().is_none());
}

#[test]
fn masked_missing_marks_invalid_indices_and_source_masks() {
    let source = source_grid()
        .with_mask(ValidityMask::from_masked_flags(vec![
            false, false, false, false, false, true, false, false, false,
        ]))
        .unwrap();
    let lines = LineSampleGrid::new(2, 2, vec![0, 1, -1, 2], vec![0, 2, 0, 2]).unwrap();

    let output = sample_grid_from_linesample(&source, &lines, bits(f64::NAN), true).unwrap();

    assert_eq!(output.plain()[0], 0.0);
    assert!(output.plain()[1].is_nan());
    assert!(output.plain()[2].is_nan());
    assert_eq!(output.plain()[3], 8.0);
    assert_eq!(output.mask().unwrap().masked_count(), 2);
    assert_eq!(output.mask().unwrap().is_masked(1), Some(true));
    assert_eq!(output.mask().unwrap().is_masked(2), Some(true));
}

#[test]
fn source_masks_are_filled_when_not_masking_missing() {
    let source = source_grid()
        .with_mask(ValidityMask::from_masked_flags(vec![
            false, false, false, false, false, true, false, false, false,
        ]))
        .unwrap();
    let output = get_image_from_linesample(&[1], &[2], 1, 1, &source, bits(-1.0)).unwrap();

    assert_eq!(output.plain(), [-1.0]);
    assert!(output.mask().is_none());
}

#[test]
fn samples_runtime_typed_arrays_without_dtype_promotion() {
    let source = AnyDataArray::U16(
        DataArray::<u16>::from_vec_named(vec![2, 2], names(&["y", "x"]), vec![10, 20, 30, 40]).unwrap(),
    );
    let lines = LineSampleGrid::new(2, 2, vec![0, 1, -1, 0], vec![0, 1, 0, 4]).unwrap();

    let output =
        sample_any_from_linesample(&source, &lines, LineSampleFillValue::u16(999), false)
            .unwrap();

    assert_eq!(output.dtype(), DataType::U16);
    assert_eq!(output.plain(), vec![10.0, 40.0, 999.0, 999.0]);
    assert!(output.mask().is_none());
}

#[test]
fn runtime_typed_masked_missing_preserves_dtype_and_masks() {
    let source = AnyDataArray::I16(
        DataArray::<i16>::from_vec_named(vec![2, 2], names(&["y", "x"]), vec![1, 2, 3, 4])
            .unwrap()
            .with_mask(ValidityMask::from_masked_flags(vec![false, true, false, false]))
            .unwrap(),
    );
    let lines = LineSampleGrid::new(2, 2, vec![0, 0, 1, -1], vec![0, 1, 1, 0]).unwrap();

    let output =
        sample_any_from_linesample(&source, &lines, LineSampleFillValue::i16(-999), true)
            .unwrap();

    assert_eq!(output.dtype(), DataType::I16);
    assert_eq!(output.plain(), vec![1.0, -999.0, 4.0, -999.0]);
    assert_eq!(output.mask().unwrap().masked_count(), 2);
}

#[test]
fn runtime_typed_sampling_rejects_mismatched_fill_dtype() {
    let source = AnyDataArray::U8(
        DataArray::<u8>::from_vec_named(vec![1, 1], names(&["y", "x"]), vec![5]).unwrap(),
    );
    let lines = LineSampleGrid::new(1, 1, vec![0], vec![0]).unwrap();

    let err =
        sample_any_from_linesample(&source, &lines, LineSampleFillValue::of_f64(bits(-1.0)), false)
            .unwrap_err();

    assert!(err.message().contains("must match source dtype u8"));
}

#[test]
fn samples_band_major_yx_arrays_without_flattening_bands() {
    let source = DataArray::<u16>::from_vec_named(
        vec![2, 2, 3],
        names(&["bands", "y", "x"]),
        vec![
            10, 11, 12, 13, 14, 15, //
            20, 21, 22, 23, 24, 25,
        ],
    )
    .unwrap()
    .with_coordinate(
        "bands",
        Coordinate::axis("bands", all_bits(&[0.6, 0.8])),
    )
    .unwrap();
    let lines = LineSampleGrid::new(1, 2, vec![0, 1], vec![2, 0]).unwrap();

    let output = sample_array_from_linesample(&source, &lines, 999, false).unwrap();

    assert_eq!(output.shape_nd(), &[2, 1, 2]);
    assert_eq!(output.dims(), &["bands", "y", "x"]);
    assert_eq!(output.values(), &[12, 13, 22, 23]);
    assert_eq!(output.coord("bands").unwrap().plain(), [0.6_f64, 0.8_f64]);
    assert!(output.coord("y").is_none());
    assert!(output.coord("x").is_none());
}

#[test]
fn samples_yx_axes_not_at_end() {
    let source = DataArray::<u8>::from_vec_named(
        vec![2, 2, 2],
        names(&["y", "x", "bands"]),
        vec![1, 2, 3, 4, 5, 6, 7, 8],
    )
    .unwrap();
    let lines = LineSampleGrid::new(1, 2, vec![0, 1], vec![1, 0]).unwrap();

    let output = sample_array_from_linesample(&source, &lines, 255, false).unwrap();

    assert_eq!(output.shape_nd(), &[1, 2, 2]);
    assert_eq!(output.dims(), &["y", "x", "bands"]);
    assert_eq!(output.values(), &[3, 4, 5, 6]);
}

#[test]
fn band_major_sampling_propagates_per_band_masks() {
    let source = DataArray::<i16>::from_vec_named(
        vec![2, 2, 2],
        names(&["bands", "y", "x"]),
        vec![1, 2, 3, 4, 5, 6, 7, 8],
    )
    .unwrap()
    .with_mask(ValidityMask::from_masked_flags(vec![
        false, true, false, false, false, false, true, false,
    ]))
    .unwrap();
    let lines = LineSampleGrid::new(1, 2, vec![0, 1], vec![1, 0]).unwrap();

    let output = sample_array_from_linesample(&source, &lines, -999, true).unwrap();

    assert_eq!(output.shape_nd(), &[2, 1, 2]);
    assert_eq!(output.values(), &[-999, 3, 6, -999]);
    assert_eq!(output.mask().unwrap().masked_count(), 2);
    assert_eq!(output.mask().unwrap().is_masked(0), Some(true));
    assert_eq!(output.mask().unwrap().is_masked(3), Some(true));
}

#[test]
fn line_sample_promotes_axis_coordinates_to_sampled_2d_coords() {
    let source =
        DataArray::<u8>::from_vec_named(vec![2, 3], names(&["y", "x"]), vec![1, 2, 3, 4, 5, 6])
            .unwrap()
            .with_coordinate("y", Coordinate::axis("y", all_bits(&[10.0, 20.0])))
            .unwrap()
            .with_coordinate(
                "x",
                Coordinate::axis("x", all_bits(&[100.0, 200.0, 300.0])),
            )
            .unwrap();
    let lines = LineSampleGrid::new(2, 2, vec![0, 1, -1, 0], vec![2, 0, 0, 3]).unwrap();

    let output = sample_array_from_linesample(&source, &lines, 255, false).unwrap();

    assert_eq!(output.shape_nd(), &[2, 2]);
    assert_eq!(output.values(), &[3, 4, 255, 255]);
    assert_eq!(output.coord("y").unwrap().dims(), &["y", "x"]);
    assert_eq!(output.coord("x").unwrap().dims(), &["y", "x"]);
    assert_eq!(output.coord("y").unwrap().plain()[0..2], [10.0, 20.0]);
    assert!(output.coord("y").unwrap().plain()[2].is_nan());
    assert!(output.coord("y").unwrap().plain()[3].is_nan());
    assert_eq!(output.coord("x").unwrap().plain()[0..2], [300.0, 100.0]);
    assert!(output.coord("x").unwrap().plain()[2].is_nan());
    assert!(output.coord("x").unwrap().plain()[3].is_nan());
}

#[test]
fn line_sample_remaps_2d_and_band_spatial_coordinates() {
    let source = DataArray::<u16>::from_vec_named(
        vec![2, 2, 3],
        names(&["bands", "y", "x"]),
        vec![
            10, 11, 12, 13, 14, 15, //
            20, 21, 22, 23, 24, 25,
        ],
    )
    .unwrap()
    .with_coordinate(
        "longitude",
        Coordinate::new(names(&["y", "x"]), all_bits(&[100.0, 101.0, 102.0, 110.0, 111.0, 112.0])),
    )
    .unwrap()
    .with_coordinate(
        "band_quality",
        Coordinate::new(
            names(&["bands", "y"]),
            all_bits(&[
                0.0, 1.0, //
                10.0, 11.0,
            ]),
        ),
    )
    .unwrap();
    let lines = LineSampleGrid::new(1, 2, vec![0, 1], vec![2, 0]).unwrap();

    let output = sample_array_from_linesample(&source, &lines, 999, false).unwrap();

    assert_eq!(output.coord("longitude").unwrap().dims(), &["y", "x"]);
    assert_eq!(output.coord("longitude").unwrap().plain(), [102.0, 110.0]);
    assert_eq!(
        output.coord("band_quality").unwrap().dims(),
        &["bands", "y", "x"]
    );
    assert_eq!(
        output.coord("band_quality").unwrap().plain(),
        [0.0, 1.0, 10.0, 11.0]
    );
}

#[test]
fn sampling_twice_is_sampling_once_through_the_composed_grid() {
    let mut bands = DataGrid::from_vec_named(
        vec![2, 2, 3],
        names(&["bands", "y", "x"]),
        all_bits(&(0..12).map(f64::from).collect::<Vec<_>>()),
    )
    .unwrap();
    let flags = (0..12).map(|i| i == 4).collect();
    bands.set_mask(ValidityMask::from_masked_flags(flags)).unwrap();
    bands
        .set_coordinate("x", Coordinate::new(names(&["x"]), all_bits(&[7.0, 8.0, 9.0])))
        .unwrap();
    let first =
        LineSampleGrid::new(2, 2, vec![0, 1, -1, 1], vec![2, 1, 0, 0]).unwrap();
    let second =
        LineSampleGrid::new(1, 5, vec![1, 0, 0, 1, 5], vec![1, 0, 1, 0, 0]).unwrap();
    let composed =
        LineSampleGrid::new(1, 5, vec![1, 0, 1, -1, -1], vec![0, 2, 1, 0, -1]).unwrap();
    let fill = bits(-5.0);
    for mask in [false, true] {
        let one = sample_array_from_linesample(&bands, &first, fill, mask).unwrap();
        let two = sample_array_from_linesample(&one, &second, fill, mask).unwrap();
        let once = sample_array_from_linesample(&bands, &composed, fill, mask).unwrap();
        assert_eq!(once.shape_nd(), two.shape_nd());
        assert_eq!(once.values(), two.values());
        assert!(once.mask() == two.mask());
        let bits_of = |array: &DataGrid| -> Vec<u64> {
            array.coord("x").unwrap().values().iter().map(|v| v.to_bits()).collect()
        };
        assert_eq!(bits_of(&once), bits_of(&two));
        assert_eq!(once.plain(), [3.0, 2.0, -5.0, -5.0, -5.0, 9.0, 8.0, 10.0, -5.0, -5.0]);
    }
}
