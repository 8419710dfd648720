use flate2::read::DeflateDecoder;
use rusty_sat::array::{AnyDataArray, Coordinate, DataArray, ValidityMask};
use rusty_sat::dataset::{DataId, Dataset};
use rusty_sat::error::{Result, RustySatError};
use rusty_sat::float_tiff::{
    FloatTiffWriter, SAMPLE_FORMAT_IEEE_FLOAT, SAMPLE_FORMAT_UNSIGNED_INTEGER,
};
use rusty_sat::geo_keys::{
    GEO_KEY_DIRECTORY_VERSION, TIFFTAG_GEO_ASCII_PARAMS, TIFFTAG_GEO_DOUBLE_PARAMS,
};
use rusty_sat::metadata::{MetadataTable, MetadataValue};
use rusty_sat::number::{F32, F64};
use rusty_sat::scene::Scene;
use rusty_sat::tiff_layout::{
    COMPRESSION_DEFLATE, TAG_BITS_PER_SAMPLE, TAG_COMPRESSION, TAG_GEO_KEY_DIRECTORY,
    TAG_IMAGE_LENGTH, TAG_IMAGE_WIDTH, TAG_MODEL_PIXEL_SCALE, TAG_MODEL_TIEPOINT,
    TAG_SAMPLE_FORMAT, TAG_STRIP_BYTE_COUNTS, TAG_STRIP_OFFSETS, TAG_TILE_LENGTH,
    TAG_TILE_OFFSETS, TAG_TILE_WIDTH, TIFF_MAGIC, TiffCompression, TiffTileOptions,
};
use std::io::Read;

fn bits(value: f64) -> F64 {
    F64::from_bits(value.to_bits())
}

fn plain(value: F64) -> f64 {
    f64::from_bits(value.to_bits())
}

fn all_bits(values: &[f64]) -> Vec<F64> {
    values.iter().map(|value| bits(*value)).collect()
}

/// The number in a text, with its shortest text.
fn read(text: String) -> Option<(F64, String)> {
    let value = text.parse::<f64>().ok()?;
    Some((bits(value), value.to_string()))
}

/// A part of the way between two bounds, of `count` parts.
fn part(low: F64, high: F64, count: usize) -> F64 {
    bits((plain(high) - plain(low)) / count as f64)
}

/// The place of a value between two bounds on the scale of 16 bits.
fn scaled(value: F64, min: F64, max: F64) -> F64 {
    let (value, min, max) = (plain(value), plain(min), plain(max));
    let scale = f64::from(u16::MAX) / (max - min);
    bits((value - min) * scale)
}

/// The semi-minor axis for a semi-major axis and a flattening.
fn minor(a: F64, rf: F64) -> (F64, String) {
    let b = plain(a) * (1.0 - 1.0 / plain(rf));
    (bits(b), b.to_string())
}

/// The distance of two coordinates.
fn spacing(a: F64, b: F64) -> F64 {
    bits((plain(b) - plain(a)).abs())
}

fn left(first: F64, size: F64) -> F64 {
    bits(plain(first) - 0.5 * plain(size))
}

fn top(first: F64, size: F64) -> F64 {
    bits(plain(first) + 0.5 * plain(size))
}

fn tiff_bytes(
    writer: &FloatTiffWriter,
    dataset: &Dataset,
    extension: Option<&str>,
) -> Result<Vec<u8>> {
    if let Some(tiles) = writer.tile_options() {
        let pixels = tiles.width.checked_mul(tiles.height);
        if pixels.and_then(|count| count.checked_mul(8)).is_none() {
            return Err(RustySatError::invalid_input("TIFF tile size overflows usize"));
        }
    }
    writer.encode_dataset(
        dataset, extension, &scaled, &part, &spacing, &left, &top, &read, &minor,
    )
}

fn names(dims: &[&str]) -> Vec<String> {
    dims.iter().map(|dim| dim.to_string()).collect()
}

fn table(entries: Vec<(&str, MetadataValue)>) -> MetadataValue {
    let mut table = MetadataTable::new();
    for (name, value) in entries {
        table.insert(name, value);
    }
    MetadataValue::Table(table)
}

fn narrow_all(values: &[f32]) -> Vec<F32> {
    values.iter().map(|value| F32::from_bits(value.to_bits())).collect()
}

#[test]
fn writes_float32_tiff_dataset_without_display_scaling() -> Result<()> {
    let dataset = Dataset::new(DataId::new("B03")?).with_array(AnyDataArray::F64(DataArray::<F64>::from_vec_named(vec![1, 3], names(&["y", "x"]), all_bits(&[-1.25, 0.5, 1000.0]))?,));

    let writer = FloatTiffWriter::default();
    let bytes = tiff_bytes(&writer, &dataset, Some("tif"))?;

    assert_eq!(&bytes[..2], b"II");
    assert_eq!(read_u16(&bytes, 2), TIFF_MAGIC);
    assert_eq!(read_tag_u32(&bytes, TAG_IMAGE_WIDTH), 3);
    assert_eq!(read_tag_u32(&bytes, TAG_IMAGE_LENGTH), 1);
    assert_eq!(read_tag_u16(&bytes, TAG_BITS_PER_SAMPLE), 32);
    assert_eq!(
        read_tag_u16(&bytes, TAG_SAMPLE_FORMAT),
        SAMPLE_FORMAT_IEEE_FLOAT
    );
    let offset = read_tag_u32(&bytes, TAG_STRIP_OFFSETS) as usize;
    assert_eq!(read_f32(&bytes, offset), -1.25);
    assert_eq!(read_f32(&bytes, offset + 4), 0.5);
    assert_eq!(read_f32(&bytes, offset + 8), 1000.0);
    Ok(())
}

#[test]
fn writes_masked_pixels_as_configured_fill_value() -> Result<()> {
    let mask = ValidityMask::from_masked_flags(vec![false, true, false]);
    let array = DataArray::<F32>::from_vec_named(vec![1, 3], names(&["y", "x"]), narrow_all(&[1.0, 2.0, 3.0]))?
        .with_mask(mask)?;
    let dataset = Dataset::new(DataId::new("B03")?).with_array(AnyDataArray::F32(array));

    let writer = FloatTiffWriter::default()
        .with_fill_value(F32::from_bits((-9999.0_f32).to_bits()));
    let bytes = tiff_bytes(&writer, &dataset, Some("tif"))?;

    let offset = read_tag_u32(&bytes, TAG_STRIP_OFFSETS) as usize;
    assert_eq!(read_f32(&bytes, offset), 1.0);
    assert_eq!(read_f32(&bytes, offset + 4), -9999.0);
    assert_eq!(read_f32(&bytes, offset + 8), 3.0);
    Ok(())
}

#[test]
fn writes_float64_tiff_dataset_without_precision_truncation() -> Result<()> {
    let dataset =
        Dataset::new(DataId::new("B03")?).with_array(AnyDataArray::F64(DataArray::<F64>::from_vec_named(
            vec![1, 2],
            names(&["y", "x"]),
            all_bits(&[1.000_000_119_209_289_6, 42.25]),
        )?));

    let writer = FloatTiffWriter::default()
        .with_float64_output(bits(f64::NAN));
    let bytes = tiff_bytes(&writer, &dataset, Some("tif"))?;

    assert_eq!(read_tag_u16(&bytes, TAG_BITS_PER_SAMPLE), 64);
    assert_eq!(
        read_tag_u16(&bytes, TAG_SAMPLE_FORMAT),
        SAMPLE_FORMAT_IEEE_FLOAT
    );
    let offset = read_tag_u32(&bytes, TAG_STRIP_OFFSETS) as usize;
    assert_eq!(read_f64(&bytes, offset), 1.000_000_119_209_289_6);
    assert_eq!(read_f64(&bytes, offset + 8), 42.25);
    Ok(())
}

#[test]
fn writes_u16_scaled_tiff_dataset_with_fill_and_clamp_policy() -> Result<()> {
    let mask = ValidityMask::from_masked_flags(vec![false, false, false, true, false]);
    let array = DataArray::<F64>::from_vec_named(
        vec![1, 5],
        names(&["y", "x"]),
        all_bits(&[-10.0, 0.0, 50.0, 75.0, 120.0]),
    )?
    .with_mask(mask)?;
    let dataset = Dataset::new(DataId::new("B03")?).with_array(AnyDataArray::F64(array));

    let writer = FloatTiffWriter::default()
        .with_u16_scaled_output(bits(0.0), bits(100.0), 17)?;
    let bytes = tiff_bytes(&writer, &dataset, Some("tif"))?;

    assert_eq!(read_tag_u16(&bytes, TAG_BITS_PER_SAMPLE), 16);
    assert_eq!(
        read_tag_u16(&bytes, TAG_SAMPLE_FORMAT),
        SAMPLE_FORMAT_UNSIGNED_INTEGER
    );
    let offset = read_tag_u32(&bytes, TAG_STRIP_OFFSETS) as usize;
    assert_eq!(read_u16(&bytes, offset), 0);
    assert_eq!(read_u16(&bytes, offset + 2), 0);
    assert_eq!(read_u16(&bytes, offset + 4), 32768);
    assert_eq!(read_u16(&bytes, offset + 6), 17);
    assert_eq!(read_u16(&bytes, offset + 8), 65535);
    Ok(())
}

#[test]
fn writes_u16_auto_scaled_tiff_dataset_from_unmasked_finite_values() -> Result<()> {
    let mask = ValidityMask::from_masked_flags(vec![true, false, false]);
    let array = DataArray::<F32>::from_vec_named(vec![1, 3], names(&["y", "x"]), narrow_all(&[1000.0, 10.0, 20.0]))?
        .with_mask(mask)?;
    let dataset = Dataset::new(DataId::new("B03")?).with_array(AnyDataArray::F32(array));

    let writer = FloatTiffWriter::default()
        .with_u16_auto_scaled_output(9);
    let bytes = tiff_bytes(&writer, &dataset, Some("tif"))?;

    let offset = read_tag_u32(&bytes, TAG_STRIP_OFFSETS) as usize;
    assert_eq!(read_u16(&bytes, offset), 9);
    assert_eq!(read_u16(&bytes, offset + 2), 0);
    assert_eq!(read_u16(&bytes, offset + 4), 65535);
    Ok(())
}

#[test]
fn rejects_invalid_u16_scale_policy() -> Result<()> {
    let err = FloatTiffWriter::default()
        .with_u16_scaled_output(bits(1.0), bits(1.0), 0)
        .err().unwrap();
    assert!(err.message().contains("max greater than min"));
    Ok(())
}

#[test]
fn scene_saves_dataset_as_float32_tiff() -> Result<()> {
    let data_id = DataId::new("B03")?;
    let dataset = Dataset::new(data_id.copy()).with_array(AnyDataArray::F64(DataArray::<F64>::from_vec_named(
        vec![1, 2],
        names(&["y", "x"]),
        all_bits(&[10.0, 20.0]),
    )?));
    let mut scene = Scene::new();
    scene.insert_dataset(dataset);

    let saved = scene.get(data_id.name()).unwrap();
    let bytes = tiff_bytes(&FloatTiffWriter::default(), saved, Some("tif"))?;

    assert_eq!(read_tag_u32(&bytes, TAG_IMAGE_WIDTH), 2);
    assert_eq!(read_tag_u32(&bytes, TAG_IMAGE_LENGTH), 1);
    let offset = read_tag_u32(&bytes, TAG_STRIP_OFFSETS) as usize;
    assert_eq!(read_f32(&bytes, offset), 10.0);
    assert_eq!(read_f32(&bytes, offset + 4), 20.0);
    Ok(())
}

#[test]
fn writes_tiled_tiff() -> Result<()> {
    let dataset =
        Dataset::new(DataId::new("B03")?).with_array(AnyDataArray::F64(DataArray::<F64>::from_vec_named(
            vec![5, 7],
            names(&["y", "x"]),
            (0..35).map(|i| bits(i as f64)).collect::<Vec<_>>(),
        )?));
    let tiles = TiffTileOptions {
        width: 3,
        height: 2,
    };
    let writer = FloatTiffWriter::new("tiled")?
        .with_tiles(tiles);
    let bytes = tiff_bytes(&writer, &dataset, Some("tif"))?;

    assert_eq!(read_tag_u32(&bytes, TAG_IMAGE_WIDTH), 7);
    assert_eq!(read_tag_u32(&bytes, TAG_IMAGE_LENGTH), 5);
    assert_eq!(read_tag_u32(&bytes, TAG_TILE_WIDTH), 3);
    assert_eq!(read_tag_u32(&bytes, TAG_TILE_LENGTH), 2);
    // 7×5 with 3×2 tiles = 3 tiles_x × 3 tiles_y = 9 tiles
    let _ = find_ifd_entry(&bytes, TAG_TILE_OFFSETS); // verify tag exists
    let tile_offsets_data = read_tag_u32(&bytes, TAG_TILE_OFFSETS) as usize;
    // Read all 9 tile offsets
    let mut offsets = Vec::new();
    for i in 0..9 {
        offsets.push(read_u32(&bytes, tile_offsets_data + i * 4));
    }
    assert_eq!(offsets.len(), 9);
    // offsets must be strictly increasing
    for w in offsets.windows(2) {
        assert!(w[0] < w[1], "tile offsets must be strictly increasing");
    }
    Ok(())
}

#[test]
fn writes_deflate_compressed_tiff() -> Result<()> {
    let dataset = Dataset::new(DataId::new("B03")?).with_array(AnyDataArray::F64(DataArray::<F64>::from_vec_named(vec![2, 3], names(&["y", "x"]), all_bits(&[1.0; 6]))?,));
    let writer = FloatTiffWriter::new("deflate")?.with_compression(TiffCompression::Deflate);
    let bytes = tiff_bytes(&writer, &dataset, Some("tif"))?;

    assert_eq!(read_tag_u32(&bytes, TAG_IMAGE_WIDTH), 3);
    assert_eq!(read_tag_u32(&bytes, TAG_IMAGE_LENGTH), 2);
    assert_eq!(read_tag_u16(&bytes, TAG_COMPRESSION), COMPRESSION_DEFLATE);
    // compressed data should be smaller than raw (6 × 4 = 24 bytes)
    let strip_byte_count = read_tag_u32(&bytes, TAG_STRIP_BYTE_COUNTS) as usize;
    assert!(
        strip_byte_count < 24,
        "DEFLATE should reduce 24 bytes to < 24"
    );
    // decompress and verify pixel data
    let strip_offset = read_tag_u32(&bytes, TAG_STRIP_OFFSETS) as usize;
    let compressed = &bytes[strip_offset..strip_offset + strip_byte_count];
    let mut decoder = DeflateDecoder::new(compressed);
    let mut decompressed = Vec::new();
    decoder.read_to_end(&mut decompressed).map_err(|err| {
        RustySatError::invalid_input(&format!("DEFLATE decompression failed: {err}"))
    })?;
    assert_eq!(decompressed.len(), 24);
    // verify first pixel = 1.0f32 (LE bytes)
    let pixel: f32 = f32::from_le_bytes(decompressed[0..4].try_into().unwrap());
    assert!((pixel - 1.0).abs() < 1e-10);
    Ok(())
}

#[test]
fn writes_geotiff_tags_from_area_metadata() -> Result<()> {
    let mut dataset = Dataset::new(DataId::new("B03")?).with_array(AnyDataArray::F64(DataArray::<F64>::from_vec_named(vec![2, 3], names(&["y", "x"]), all_bits(&[1.0; 6]))?,));
    dataset.insert_attr("area", test_area_attr()?);

    let writer = FloatTiffWriter::default();
    let bytes = tiff_bytes(&writer, &dataset, Some("tif"))?;

    // pixel scale / tiepoint unchanged
    let scale_offset = read_tag_u32(&bytes, TAG_MODEL_PIXEL_SCALE) as usize;
    assert_eq!(read_f64(&bytes, scale_offset), 10.0);
    let tiepoint_offset = read_tag_u32(&bytes, TAG_MODEL_TIEPOINT) as usize;
    assert_eq!(read_f64(&bytes, tiepoint_offset + 24), 100.0);
    assert_eq!(read_f64(&bytes, tiepoint_offset + 32), 220.0);
    // GeoKey directory now uses ProjCrs-based keys (>=7 keys for geos)
    let key_offset = read_tag_u32(&bytes, TAG_GEO_KEY_DIRECTORY) as usize;
    assert_eq!(read_u16(&bytes, key_offset), GEO_KEY_DIRECTORY_VERSION);
    let key_count = read_u16(&bytes, key_offset + 6);
    assert!(
        key_count >= 7,
        "expected >= 7 GeoKeys for geos projection, got {key_count}"
    );
    // Verify GeoAsciiParams contains ProjectedCitation
    let ascii_offset = read_tag_u32(&bytes, TIFFTAG_GEO_ASCII_PARAMS) as usize;
    let ascii_count = read_tag_count(&bytes, TIFFTAG_GEO_ASCII_PARAMS) as usize;
    let ascii = std::str::from_utf8(&bytes[ascii_offset..ascii_offset + ascii_count])
        .map_err(|err| RustySatError::invalid_input(&err.to_string()))?;
    assert!(ascii.contains("GEOS"));
    // Verify GeoDoubleParams tag exists with correct count
    let double_offset = read_tag_u32(&bytes, TIFFTAG_GEO_DOUBLE_PARAMS) as usize;
    let double_count = read_tag_count(&bytes, TIFFTAG_GEO_DOUBLE_PARAMS) as usize;
    assert!(
        double_count >= 2,
        "expected >= 2 double params for geos, got {double_count}"
    );
    // Verify Double value at offset 0 is lon_0 = 140.7
    let lon_0_value = read_f64(&bytes, double_offset);
    assert!(
        (lon_0_value - 140.7).abs() < 1e-10,
        "expected lon_0=140.7 in double params, got {lon_0_value}"
    );
    Ok(())
}

#[test]
fn writes_geotiff_tags_from_xy_coordinate_axes() -> Result<()> {
    let array = DataArray::<F64>::from_vec_named(vec![2, 3], names(&["y", "x"]), all_bits(&[1.0; 6]))?
        .with_coordinate(
            "x",
            Coordinate::axis("x", all_bits(&[105.0, 115.0, 125.0])),
        )?
        .with_coordinate(
            "y",
            Coordinate::axis("y", all_bits(&[215.0, 205.0])),
        )?;
    let dataset = Dataset::new(DataId::new("B03")?).with_array(AnyDataArray::F64(array));

    let writer = FloatTiffWriter::default();
    let bytes = tiff_bytes(&writer, &dataset, Some("tif"))?;

    let scale_offset = read_tag_u32(&bytes, TAG_MODEL_PIXEL_SCALE) as usize;
    assert_eq!(read_f64(&bytes, scale_offset), 10.0);
    assert_eq!(read_f64(&bytes, scale_offset + 8), 10.0);
    let tiepoint_offset = read_tag_u32(&bytes, TAG_MODEL_TIEPOINT) as usize;
    assert_eq!(read_f64(&bytes, tiepoint_offset + 24), 100.0);
    assert_eq!(read_f64(&bytes, tiepoint_offset + 32), 220.0);
    Ok(())
}

#[test]
fn rejects_non_tiff_extension() -> Result<()> {
    let dataset = Dataset::new(DataId::new("B03")?).with_array(AnyDataArray::F64(DataArray::<F64>::from_vec_named(vec![1, 1], names(&["y", "x"]), all_bits(&[1.0]))?,));

    let err = tiff_bytes(&FloatTiffWriter::default(), &dataset, Some("png")).err().unwrap();

    assert!(err.message().contains("unsupported feature"));
    Ok(())
}

fn read_tag_u16(bytes: &[u8], tag: u16) -> u16 {
    let offset = find_ifd_entry(bytes, tag) + 8;
    read_u16(bytes, offset)
}

fn read_tag_u32(bytes: &[u8], tag: u16) -> u32 {
    let offset = find_ifd_entry(bytes, tag) + 8;
    read_u32(bytes, offset)
}

fn read_tag_count(bytes: &[u8], tag: u16) -> u32 {
    let offset = find_ifd_entry(bytes, tag) + 4;
    read_u32(bytes, offset)
}

fn find_ifd_entry(bytes: &[u8], tag: u16) -> usize {
    let ifd_offset = read_u32(bytes, 4) as usize;
    let count = read_u16(bytes, ifd_offset) as usize;
    for index in 0..count {
        let offset = ifd_offset + 2 + index * 12;
        if read_u16(bytes, offset) == tag {
            return offset;
        }
    }
    panic!("missing TIFF tag {tag}");
}

fn read_u16(bytes: &[u8], offset: usize) -> u16 {
    u16::from_le_bytes([bytes[offset], bytes[offset + 1]])
}

fn read_u32(bytes: &[u8], offset: usize) -> u32 {
    u32::from_le_bytes([
        bytes[offset],
        bytes[offset + 1],
        bytes[offset + 2],
        bytes[offset + 3],
    ])
}

fn read_f32(bytes: &[u8], offset: usize) -> f32 {
    f32::from_le_bytes([
        bytes[offset],
        bytes[offset + 1],
        bytes[offset + 2],
        bytes[offset + 3],
    ])
}

fn read_f64(bytes: &[u8], offset: usize) -> f64 {
    f64::from_le_bytes([
        bytes[offset],
        bytes[offset + 1],
        bytes[offset + 2],
        bytes[offset + 3],
        bytes[offset + 4],
        bytes[offset + 5],
        bytes[offset + 6],
        bytes[offset + 7],
    ])
}

fn test_area_attr() -> Result<MetadataValue> {
    Ok(table(vec![
        ("type", MetadataValue::string("area")),
        ("id", MetadataValue::string("test_area")),
        ("description", MetadataValue::string("test area")),
        ("proj_id", MetadataValue::string("test_area")),
        (
            "projection",
            table(vec![
                ("proj", MetadataValue::string("geos")),
                ("lon_0", MetadataValue::string("140.7")),
            ]),
        ),
        ("height", MetadataValue::Integer(2)),
        ("width", MetadataValue::Integer(3)),
        (
            "area_extent",
            MetadataValue::List(
                [100.0, 200.0, 130.0, 220.0]
                    .into_iter()
                    .map(|value| MetadataValue::float(bits(value)))
                    .collect::<Result<Vec<_>>>()?,
            ),
        ),
    ]))
}
