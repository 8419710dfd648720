use rusty_sat::array::{AnyDataArray, DataArray, DataGrid, ValidityMask};
use rusty_sat::chunks::ChunkGrid;
use rusty_sat::dataset::{DataId, Dataset};
use rusty_sat::error::Result;
use rusty_sat::number::F64;
use rusty_sat::pgm::{LinearScale, PgmWriter, encode_pgm, encode_pgm_array, encode_pgm_lazy};
use rusty_sat::writers::Writer;
use std::sync::Mutex;

fn bits(value: f64) -> F64 {
    F64::from_bits(value.to_bits())
}

fn plain(value: F64) -> f64 {
    f64::from_bits(value.to_bits())
}

fn all_bits(values: &[f64]) -> Vec<F64> {
    values.iter().map(|value| bits(*value)).collect()
}

/// The number in a text, with its shortest text.
fn read(text: String) -> Option<(F64, String)> {
    let value = text.parse::<f64>().ok()?;
    Some((bits(value), value.to_string()))
}

/// The place of a value between two bounds on the scale of grey levels.
fn level(value: F64, min: F64, max: F64) -> F64 {
    let (value, min, max) = (plain(value), plain(min), plain(max));
    bits((value - min) / (max - min) * 255.0)
}

/// One more than a number.
fn next(value: F64) -> F64 {
    bits(plain(value) + 1.0)
}

fn pgm_bytes(writer: &PgmWriter, dataset: &Dataset) -> Result<Vec<u8>> {
    writer.encode_dataset(dataset, &level, &next)
}

fn grid(height: usize, width: usize, values: Vec<f64>) -> Result<DataGrid> {
    DataGrid::new(height, width, all_bits(&values))
}

fn names(dims: &[&str]) -> Vec<String> {
    dims.iter().map(|dim| dim.to_string()).collect()
}

fn pgm_of(grid: &DataGrid, scale: Option<LinearScale>, fill_value: u8) -> Result<Vec<u8>> {
    rusty_sat::pgm::encode_pgm(grid, scale, fill_value, &level, &next)
}

fn pgm_of_array(
    array: &AnyDataArray,
    scale: Option<LinearScale>,
    fill_value: u8,
) -> Result<Vec<u8>> {
    rusty_sat::pgm::encode_pgm_array(array, scale, fill_value, &level, &next)
}

#[test]
fn encodes_dataset_grid_as_binary_pgm() {
    let source_grid = grid(2, 2, vec![0.0, 0.5, 1.0, f64::NAN]).unwrap();
    let bytes = pgm_of(&source_grid, Some(LinearScale::new(bits(0.0), bits(1.0)).unwrap()), 7).unwrap();

    assert_eq!(&bytes[..11], b"P5\n2 2\n255\n");
    assert_eq!(&bytes[11..], &[0, 128, 255, 7]);
}

#[test]
fn masked_pixels_use_fill_value_and_do_not_affect_autoscale() {
    let source_grid = grid(1, 3, vec![10.0, 9999.0, 20.0])
        .unwrap()
        .with_mask(ValidityMask::from_masked_flags(vec![false, true, false]))
        .unwrap();
    let bytes = pgm_of(&source_grid, None, 7).unwrap();

    assert_eq!(&bytes[..11], b"P5\n3 1\n255\n");
    assert_eq!(&bytes[11..], &[0, 7, 255]);
}

#[test]
fn autoscale_maps_min_and_max_to_byte_range() {
    let source_grid = grid(1, 3, vec![10.0, 15.0, 20.0]).unwrap();
    let bytes = pgm_of(&source_grid, None, 0).unwrap();

    assert_eq!(&bytes[..11], b"P5\n3 1\n255\n");
    assert_eq!(&bytes[11..], &[0, 128, 255]);
}

#[test]
fn encodes_runtime_typed_integer_array_as_binary_pgm() {
    let array =
        AnyDataArray::U16(DataArray::<u16>::from_vec_named(vec![1, 3], names(&["y", "x"]), vec![0, 128, 255]).unwrap());
    let bytes =
        pgm_of_array(&array, Some(LinearScale::new(bits(0.0), bits(255.0)).unwrap()), 0).unwrap();

    assert_eq!(&bytes[..11], b"P5\n3 1\n255\n");
    assert_eq!(&bytes[11..], &[0, 128, 255]);
}

#[test]
fn rejects_non_2d_runtime_typed_array() {
    let array = AnyDataArray::U8(DataArray::<u8>::from_vec_named(vec![3], names(&["x"]), vec![0, 1, 2]).unwrap());
    let err = pgm_of_array(&array, None, 0).unwrap_err();

    assert!(err.message().contains("do not match expected"));
}

#[test]
fn rejects_2d_array_without_image_dimensions() {
    let array = AnyDataArray::U8(
        DataArray::<u8>::from_vec_named(vec![1, 3], names(&["row", "col"]), vec![0, 1, 2]).unwrap(),
    );
    let err = pgm_of_array(&array, None, 0).unwrap_err();

    assert!(err.message().contains("do not match expected"));
}

#[test]
fn writer_saves_dataset_to_image_file() {
    let id = DataId::new("image").unwrap();
    let dataset = Dataset::new(id).with_data(grid(1, 2, vec![0.0, 1.0]).unwrap());

    let writer = PgmWriter::new().with_scale(bits(0.0), bits(1.0)).unwrap();
    let bytes = pgm_bytes(&writer, &dataset).unwrap();

    assert_eq!(&bytes[..11], b"P5\n2 1\n255\n");
    assert_eq!(&bytes[11..], &[0, 255]);
}

#[test]
fn writer_saves_runtime_typed_dataset_to_image_file() {
    let id = DataId::new("image").unwrap();
    let dataset = Dataset::new(id).with_array(AnyDataArray::U8(
        DataArray::<u8>::from_vec_named(vec![1, 2], names(&["y", "x"]), vec![0, 255]).unwrap(),
    ));

    let bytes = pgm_bytes(&PgmWriter::new(), &dataset).unwrap();

    assert_eq!(&bytes[..11], b"P5\n2 1\n255\n");
    assert_eq!(&bytes[11..], &[0, 255]);
}

/// A plane that is read in chunks, with the places and the shapes of those that were read.
struct MatrixSource {
    layout: ChunkGrid,
    values: Vec<f64>,
    requests: Mutex<Vec<(Vec<usize>, Vec<usize>)>>,
}

impl MatrixSource {
    fn new(layout: ChunkGrid, values: &[u8]) -> Self {
        MatrixSource {
            layout,
            values: values.iter().map(|value| f64::from(*value)).collect(),
            requests: Mutex::new(Vec::new()),
        }
    }

    fn read_chunk(&self, row: usize, column: usize) -> Result<DataGrid> {
        let (height, width) = self.layout.shape();
        let (chunk_y, chunk_x) = self.layout.chunk_shape();
        let (origin_y, origin_x) = (row * chunk_y, column * chunk_x);
        let (rows, columns) = (chunk_y.min(height - origin_y), chunk_x.min(width - origin_x));
        self.requests
            .lock()
            .unwrap()
            .push((vec![origin_y, origin_x], vec![rows, columns]));
        let mut values = Vec::with_capacity(rows * columns);
        for y in 0..rows {
            for x in 0..columns {
                values.push(self.values[(origin_y + y) * width + origin_x + x]);
            }
        }
        grid(rows, columns, values)
    }

    fn encode(&self, scale: Option<LinearScale>, fill_value: u8) -> Result<Vec<u8>> {
        let read = |row: usize, column: usize| self.read_chunk(row, column);
        rusty_sat::pgm::encode_pgm_lazy(&self.layout, scale, fill_value, &read, &level, &next)
    }
}

#[test]
fn encodes_lazy_array_by_reading_chunks_in_stripes() {
    let source = MatrixSource::new(
        ChunkGrid::new(3, 4, 2, 3).unwrap(),
        &[0, 10, 20, 30, 40, 50, 60, 70, 80, 90, 100, 110],
    );

    let bytes = source
        .encode(Some(LinearScale::new(bits(0.0), bits(110.0)).unwrap()), 0)
        .unwrap();

    assert_eq!(&bytes[..11], b"P5\n4 3\n255\n");
    assert_eq!(
        &bytes[11..],
        &[0, 23, 46, 70, 93, 116, 139, 162, 185, 209, 232, 255]
    );
    assert_eq!(
        *source.requests.lock().unwrap(),
        vec![
            (vec![0, 0], vec![2, 3]),
            (vec![0, 3], vec![2, 1]),
            (vec![2, 0], vec![1, 3]),
            (vec![2, 3], vec![1, 1]),
        ]
    );
}

#[test]
fn autoscale_lazy_array_uses_chunk_passes() {
    let source = MatrixSource::new(
        ChunkGrid::new(2, 3, 1, 2).unwrap(),
        &[10, 20, 30, 40, 50, 60],
    );

    let bytes = source.encode(None, 0).unwrap();

    assert_eq!(&bytes[..11], b"P5\n3 2\n255\n");
    assert_eq!(&bytes[11..], &[0, 51, 102, 153, 204, 255]);
    assert_eq!(source.requests.lock().unwrap().len(), 8);
}

/// A writer of graymaps to files.
struct PgmFiles(PgmWriter);

impl Writer for PgmFiles {
    fn name(&self) -> &str {
        self.0.name()
    }
}

#[test]
fn pgm_writer_implements_writer_trait() {
    let writer: Box<dyn Writer> = Box::new(PgmFiles(PgmWriter::new()));
    assert_eq!(writer.name(), "pgm");
}
