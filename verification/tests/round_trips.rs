use flate2::read::DeflateDecoder;
use image::codecs::png::PngDecoder;
use image::ImageDecoder;
use rusty_sat::area::{AreaDefinition, AreaGrid};
use rusty_sat::array::{DataGrid, ValidityMask};
use rusty_sat::bucket::{resample_bucket_count, resample_bucket_sum};
use rusty_sat::bucket_fraction::{resample_bucket_fraction, resample_bucket_fraction_auto};
use rusty_sat::chunks::ChunkGrid;
use rusty_sat::crs::ProjCrs;
use rusty_sat::error::Result;
use rusty_sat::float_tiff::{write_tiff_pixels, TiffSampleData, SAMPLE_FORMAT_IEEE_FLOAT};
use rusty_sat::geo_keys::GeoKeyValue;
use rusty_sat::linesample::{sample_grid_from_linesample, LineSampleGrid};
use rusty_sat::native::{
    native_aggregate_mean_2d, native_aggregate_mean_yx, native_repeat_2d, native_repeat_yx,
};
use rusty_sat::nd_utils::{linear_index, row_major_strides, unravel_offset};
use rusty_sat::nearest::{resample_area_nearest, resample_area_nearest_lazy};
use rusty_sat::number::F64;
use rusty_sat::pgm::{encode_pgm, encode_pgm_lazy, LinearScale};
use rusty_sat::simple_image::{encode_png_image, Image, ImageMode};
use rusty_sat::pipeline::{
    prepare_resampler, ResampleOptions, ResamplerCache, ResamplerMethod, SourceGeometry,
};
use rusty_sat::swath::SwathDefinition;
use rusty_sat::text_map::TextMap;
use rusty_sat::tiff_layout::{TiffCompression, TiffTileOptions};
use rusty_sat::writers::writer_for_extension;
use std::io::{Cursor, Read};

fn bits(value: f64) -> F64 {
    F64::from_bits(value.to_bits())
}

fn plain(value: F64) -> f64 {
    f64::from_bits(value.to_bits())
}

fn all_bits(values: &[f64]) -> Vec<F64> {
    values.iter().map(|value| bits(*value)).collect()
}

fn read(text: String) -> Option<(F64, String)> {
    let value = text.parse::<f64>().ok()?;
    Some((bits(value), value.to_string()))
}

fn minor(a: F64, rf: F64) -> (F64, String) {
    let b = plain(a) * (1.0 - 1.0 / plain(rf));
    (bits(b), b.to_string())
}

fn mean(values: Vec<F64>) -> F64 {
    bits(values.iter().map(|value| plain(*value)).sum::<f64>() / values.len() as f64)
}

fn total(values: Vec<F64>) -> F64 {
    bits(values.iter().fold(0.0, |sum, value| sum + plain(*value)))
}

fn level(value: F64, min: F64, max: F64) -> F64 {
    let (value, min, max) = (plain(value), plain(min), plain(max));
    bits((value - min) / (max - min) * 255.0)
}

fn next(value: F64) -> F64 {
    bits(plain(value) + 1.0)
}

/// An area by longitude and latitude with pixels of size one.
fn unit_area(id: &str, height: usize, width: usize) -> AreaDefinition {
    let mut projection = TextMap::new();
    projection.insert("proj".to_string(), "longlat".to_string());
    let extent = [0.0, 0.0, width as f64, height as f64].map(bits);
    AreaDefinition::from_parts(id, id, "", projection, height, width, extent).unwrap()
}

fn unit_grid(area: &AreaDefinition) -> AreaGrid {
    let (height, width) = area.shape();
    let x = (0..width).map(|x| bits(x as f64 + 0.5)).collect();
    let y = (0..height).map(|y| bits(height as f64 - y as f64 - 0.5)).collect();
    AreaGrid::new(area.copy(), x, y).unwrap()
}

/// The part of a plane in a chunk.
fn chunk_of(plane: &DataGrid, layout: &ChunkGrid, row: usize, column: usize) -> Result<DataGrid> {
    let (height, width) = layout.shape();
    let (chunk_y, chunk_x) = layout.chunk_shape();
    let rows = chunk_y.min(height - row * chunk_y);
    let columns = chunk_x.min(width - column * chunk_x);
    let mut values = Vec::new();
    let mut flags = Vec::new();
    for y in 0..rows {
        for x in 0..columns {
            let i = (row * chunk_y + y) * width + column * chunk_x + x;
            values.push(plane.values()[i]);
            flags.push(plane.is_masked(i).unwrap());
        }
    }
    DataGrid::new(rows, columns, values)?.with_mask(ValidityMask::from_masked_flags(flags))
}

fn plane_5_by_7() -> DataGrid {
    let values: Vec<f64> = (0..35).map(|i| f64::from(i * 37 % 11) - 4.0).collect();
    let flags: Vec<bool> = (0..35).map(|i| i % 6 == 2).collect();
    DataGrid::new(5, 7, all_bits(&values))
        .unwrap()
        .with_mask(ValidityMask::from_masked_flags(flags))
        .unwrap()
}

fn at32(file: &[u8], at: usize) -> usize {
    u32::from_le_bytes([file[at], file[at + 1], file[at + 2], file[at + 3]]) as usize
}

fn at64(file: &[u8], at: usize) -> u64 {
    let mut bytes = [0u8; 8];
    bytes.copy_from_slice(&file[at..at + 8]);
    u64::from_le_bytes(bytes)
}

fn wide_file(
    values: &[f64],
    height: usize,
    width: usize,
    compression: TiffCompression,
    tiles: Option<TiffTileOptions>,
) -> Vec<u8> {
    let bytes = values.iter().flat_map(|value| value.to_le_bytes()).collect();
    let samples = TiffSampleData {
        bits_per_sample: 64,
        sample_format: SAMPLE_FORMAT_IEEE_FLOAT,
        bytes,
    };
    write_tiff_pixels(width, height, samples, None, None, compression, tiles).unwrap()
}

#[test]
fn samples_in_a_strip_are_read_back() {
    let values = [1.5, -2.25, 0.0, -0.0, f64::MAX, 7e-300];
    let file = wide_file(&values, 2, 3, TiffCompression::Uncompressed, None);
    let start = at32(&file, 78);
    for (i, value) in values.iter().enumerate() {
        assert_eq!(at64(&file, start + 8 * i), value.to_bits());
    }
}

#[test]
fn samples_in_tiles_are_read_back() {
    let values: Vec<f64> = (0..15).map(|i| f64::from(i) * 1.25 - 3.0).collect();
    let tiles = TiffTileOptions { width: 2, height: 2 };
    let file = wide_file(&values, 3, 5, TiffCompression::Uncompressed, Some(tiles));
    let list = at32(&file, 102);
    for y in 0..3 {
        for x in 0..5 {
            let block = at32(&file, list + 4 * (y / 2 * 3 + x / 2));
            let place = block + (y % 2 * 2 + x % 2) * 8;
            assert_eq!(at64(&file, place), values[y * 5 + x].to_bits());
        }
    }
}

#[test]
fn compressed_samples_are_inflated_to_what_was_written() {
    let values: Vec<f64> = (0..200).map(|i| f64::from(i % 3)).collect();
    let file = wide_file(&values, 10, 20, TiffCompression::Deflate, None);
    let start = at32(&file, 78);
    let mut samples = Vec::new();
    DeflateDecoder::new(&file[start..]).read_to_end(&mut samples).unwrap();
    let expected: Vec<u8> = values.iter().flat_map(|value| value.to_le_bytes()).collect();
    assert_eq!(samples, expected);
    assert!(file.len() < expected.len());
}

#[test]
fn samples_that_do_not_fill_the_image_are_refused() {
    let samples = TiffSampleData {
        bits_per_sample: 64,
        sample_format: SAMPLE_FORMAT_IEEE_FLOAT,
        bytes: vec![0; 9],
    };
    let err = write_tiff_pixels(1, 1, samples, None, None, TiffCompression::Uncompressed, None)
        .err()
        .unwrap();
    assert!(err.message().contains("has 9 sample bytes but shape (1, 1) requires 8"));
}

#[test]
fn nearest_pixels_of_chunks_are_those_of_the_plane() {
    let plane = plane_5_by_7();
    let source = unit_area("source", 5, 7);
    let target = unit_grid(&unit_area("target", 4, 9));
    let locate = |x: F64, y: F64| (bits(plain(x) - 0.5), bits(5.0 - plain(y) - 0.5));
    let gap = |x: F64, y: F64, row: usize, column: usize| {
        let dx = column as f64 + 0.5 - plain(x);
        let dy = 5.0 - row as f64 - 0.5 - plain(y);
        bits((dx * dx + dy * dy).sqrt())
    };
    let radius = Some(bits(1.0));
    let fill = bits(-99.0);
    let whole =
        resample_area_nearest(&plane, &source, &target, radius, fill, &locate, &gap).unwrap();
    for chunk in [1, 2, 3, 10] {
        let layout = ChunkGrid::new(5, 7, chunk, chunk + 1).unwrap();
        let read_chunk = |row: usize, column: usize| chunk_of(&plane, &layout, row, column);
        let parts = resample_area_nearest_lazy(
            layout, &source, &target, radius, fill, &locate, &gap, &read_chunk,
        )
        .unwrap();
        assert_eq!(parts.values(), whole.values());
        assert_eq!(parts.mask(), whole.mask());
    }
    for value in whole.values() {
        assert!(*value == fill || plane.values().contains(value));
    }
}

#[test]
fn graymaps_of_chunks_are_those_of_the_plane() {
    let plane = plane_5_by_7();
    let scale = Some(LinearScale::new(bits(-3.0), bits(5.0)).unwrap());
    for scale in [scale, None] {
        let whole = encode_pgm(&plane, scale, 9, &level, &next).unwrap();
        assert_eq!(&whole[..11], b"P5\n7 5\n255\n");
        assert_eq!(whole.len(), 11 + 35);
        for chunk in [1, 2, 4, 8] {
            let layout = ChunkGrid::new(5, 7, chunk, chunk).unwrap();
            let read_chunk = |row: usize, column: usize| chunk_of(&plane, &layout, row, column);
            let parts = encode_pgm_lazy(&layout, scale, 9, &read_chunk, &level, &next).unwrap();
            assert_eq!(parts, whole);
        }
    }
}

#[test]
fn sampling_each_pixel_at_its_place_keeps_the_array() {
    let plane = DataGrid::new(2, 3, all_bits(&[1.0, 2.0, 3.0, 4.0, 5.0, 6.0])).unwrap();
    let lines = LineSampleGrid::new(2, 3, vec![0, 0, 0, 1, 1, 1], vec![0, 1, 2, 0, 1, 2]).unwrap();
    let sampled = sample_grid_from_linesample(&plane, &lines, bits(-1.0), false).unwrap();
    assert_eq!(sampled.values(), plane.values());
}

#[test]
fn the_text_of_a_reference_system_names_it() {
    let texts = [
        "+proj=geos +h=35785831 +lon_0=9.5 +a=6378169 +b=6356583.8 +units=m +no_defs",
        "+proj=longlat +datum=WGS84",
        "EPSG:4326",
        "+init=epsg:003857",
        "+proj=stere +lat_0=90 +lat_ts=60 +lon_0=-45.0 +k=1.000",
    ];
    for text in texts {
        let crs = ProjCrs::from_proj4_str(text, &read).unwrap();
        let again = ProjCrs::from_proj4_str(&crs.to_proj4_string(), &read).unwrap();
        assert!(again.equivalent_to(&crs), "{text}");
        assert_eq!(again.to_proj4_string(), crs.to_proj4_string());
    }
}

#[test]
fn leading_zeros_of_a_code_are_dropped() {
    let crs = ProjCrs::from_proj4_str("epsg:004326", &read).unwrap();
    assert_eq!(crs.to_proj4_string(), "+epsg=4326");
    let zero = ProjCrs::from_proj4_str("epsg:000", &read).unwrap();
    assert_eq!(zero.to_proj4_string(), "+epsg=0");
}

#[test]
fn an_unknown_projection_has_no_keys() {
    let crs = ProjCrs::from_proj4_str("+proj=moll +lon_0=0", &read).unwrap();
    assert!(crs.to_geotiff_geo_key_defs(&read, &minor).is_empty());
}

#[test]
fn the_case_of_a_datum_does_not_matter() {
    let upper = ProjCrs::from_proj4_str("+proj=longlat +datum=WGS84", &read).unwrap();
    let lower = ProjCrs::from_proj4_str("+proj=longlat +datum=wgs84", &read).unwrap();
    assert_eq!(
        upper.to_geotiff_geo_key_defs(&read, &minor),
        lower.to_geotiff_geo_key_defs(&read, &minor)
    );
    let other = ProjCrs::from_proj4_str("+proj=longlat +datum=NaD27", &read).unwrap();
    let keys = other.to_geotiff_geo_key_defs(&read, &minor);
    assert!(keys
        .iter()
        .any(|key| key.value == GeoKeyValue::Ascii("datum=nad27".to_string())));
}

#[test]
fn parameters_that_are_refused() {
    let refused = |text: &str| ProjCrs::from_proj4_str(text, &read).err().unwrap().message();
    assert!(refused("  ").contains("PROJ string cannot be empty"));
    assert!(refused("+units=m").contains("require 'proj' or an EPSG code"));
    assert!(refused("+proj=merc +proj=geos").contains("duplicate CRS parameter 'proj'"));
    assert!(refused("EPSG:12a").contains("must contain only digits"));
    assert!(refused("+init=esri:1").contains("unsupported CRS init authority 'esri'"));
    assert!(refused("+init").contains("init parameter requires a value"));
    assert!(refused("+=1").contains("key cannot be empty"));
}

#[test]
fn offsets_and_indices_are_inverse() {
    let shape = [2usize, 3, 4];
    let strides = row_major_strides(&shape).unwrap();
    assert_eq!(strides, vec![12, 4, 1]);
    for offset in 0..24 {
        let indices = unravel_offset(offset, &shape, &strides);
        assert_eq!(linear_index(&indices, &shape, &strides), offset);
    }
}

#[test]
fn means_of_repeated_pixels_are_the_pixels() {
    let plane = DataGrid::new(2, 3, all_bits(&[1.0, 2.5, -3.0, 4.0, 0.5, 6.0])).unwrap();
    let repeated = native_repeat_2d(&plane, 2, 3).unwrap();
    assert_eq!(repeated.shape_nd(), &vec![4, 9]);
    let back = native_aggregate_mean_2d(&repeated, 2, 3, &mean).unwrap();
    assert_eq!(back.values(), plane.values());
}

#[test]
fn every_position_in_the_target_is_in_one_bucket() {
    let lons = [0.0, 0.5, 1.0, 1.999, 2.0, -0.001, 0.25, f64::NAN];
    let lats = [2.0, 1.5, 1.0, 0.001, 1.0, 1.0, -0.5, 1.0];
    let swath = SwathDefinition::from_lonlats(2, 4, all_bits(&lons), all_bits(&lats)).unwrap();
    let plane = DataGrid::new(2, 4, all_bits(&[1.0; 8])).unwrap();
    let target = unit_grid(&unit_area("target", 2, 2));
    let locate = |lon: F64, lat: F64| (lon, bits(2.0 - plain(lat)));
    let counts =
        resample_bucket_count(&plane, &swath, &target, &locate, &mean, &total).unwrap();
    assert_eq!(counts.values(), &all_bits(&[2.0, 0.0, 0.0, 2.0]));
}

#[test]
fn options_that_a_method_does_not_use_do_not_matter() {
    let area = || unit_area("source", 2, 2);
    let target = unit_area("target", 2, 2);
    let plain_native = prepare_resampler(area(), &target, ResampleOptions::native()).unwrap();
    let options = ResampleOptions::native()
        .with_fill_value(bits(7.0))
        .with_masked_missing()
        .with_radius_of_influence(bits(2.0))
        .unwrap();
    let native = prepare_resampler(area(), &target, options).unwrap();
    assert_eq!(native.method(), ResamplerMethod::Native);
    assert_eq!(native.name(), plain_native.name());
}

#[test]
fn a_resampler_is_prepared_once() {
    let mut cache = ResamplerCache::new();
    let target = unit_area("target", 2, 2);
    for _ in 0..3 {
        let source = SourceGeometry::Area(unit_area("source", 2, 2));
        let found = cache.prepare_for_geometry(source, &target, ResampleOptions::nearest_area());
        assert_eq!(found.unwrap().method(), ResamplerMethod::NearestArea);
        assert_eq!(cache.len(), 1);
    }
    cache
        .prepare_for_geometry(
            SourceGeometry::Area(unit_area("source", 2, 2)),
            &target,
            ResampleOptions::bilinear(),
        )
        .unwrap();
    assert_eq!(cache.len(), 2);
}

#[test]
fn the_name_of_a_method_stands_for_it() {
    for name in ["nearest", "bilinear", "native", "bucket_avg", "bucket_sum", "ewa"] {
        let method = ResamplerMethod::from_name(name).unwrap();
        assert_eq!(ResamplerMethod::from_name(method.name()).unwrap(), method);
    }
    assert!(ResamplerMethod::from_name("cubic").is_err());
}

#[test]
fn the_case_and_the_dot_of_an_extension_do_not_matter() {
    for (a, b) in [("png", ".PNG"), ("tif", "TIF"), ("pgm", ".pgm"), ("tiff", ".Tiff")] {
        let first = writer_for_extension(a).unwrap();
        let second = writer_for_extension(b).unwrap();
        assert_eq!(first.kind(), second.kind());
    }
    assert!(writer_for_extension("bmp").is_err());
}

#[test]
fn the_pixels_of_an_image_are_read_back() {
    for (mode, channels) in [(ImageMode::Luma, 1), (ImageMode::Rgb, 3), (ImageMode::Rgba, 4)] {
        let pixels: Vec<u8> = (0..6 * channels).map(|i| (i * 41 % 256) as u8).collect();
        let image = Image::from_pixels(mode, 2, 3, pixels.clone()).unwrap();
        let file = encode_png_image(&image, Some("PNG")).unwrap();
        let decoder = PngDecoder::new(Cursor::new(file)).unwrap();
        assert_eq!(decoder.dimensions(), (3, 2));
        assert_eq!(usize::from(decoder.color_type().bytes_per_pixel()), channels);
        let mut read_back = vec![0u8; pixels.len()];
        decoder.read_image(&mut read_back).unwrap();
        assert_eq!(read_back, pixels);
    }
}

#[test]
fn values_beyond_the_scale_are_black_and_white() {
    let plane = DataGrid::new(
        1,
        7,
        all_bits(&[-1e300, 0.0, 0.5, 1.0, 1e300, f64::NAN, 0.25]),
    )
    .unwrap();
    let scale = Some(LinearScale::new(bits(0.0), bits(1.0)).unwrap());
    let file = encode_pgm(&plane, scale, 77, &level, &next).unwrap();
    assert_eq!(&file[file.len() - 7..], &[0, 0, 128, 255, 255, 77, 64]);
}

#[test]
fn the_sum_of_ones_is_their_number() {
    let lons = [0.0, 0.5, 1.0, 1.999, 2.0, -0.001, 0.25, 1.5];
    let lats = [2.0, 1.5, 1.0, 0.001, 1.0, 1.0, -0.5, 0.5];
    let swath = SwathDefinition::from_lonlats(2, 4, all_bits(&lons), all_bits(&lats)).unwrap();
    let plane = DataGrid::new(2, 4, all_bits(&[1.0; 8])).unwrap();
    let target = unit_grid(&unit_area("target", 2, 2));
    let locate = |lon: F64, lat: F64| (lon, bits(2.0 - plain(lat)));
    let counts =
        resample_bucket_count(&plane, &swath, &target, &locate, &mean, &total).unwrap();
    for skipna in [false, true] {
        let fill = bits(f64::NAN);
        let sums =
            resample_bucket_sum(&plane, &swath, &target, fill, skipna, &locate, &mean, &total)
                .unwrap();
        assert_eq!(sums.values(), counts.values());
        assert_eq!(sums.values()[1], bits(0.0));
    }
}

#[test]
fn found_categories_give_what_given_ones_give() {
    let lons = [0.5, 0.5, 1.5, 1.5, 0.5, 1.5];
    let lats = [1.5, 1.5, 1.5, 0.5, 0.5, 0.5];
    let swath = SwathDefinition::from_lonlats(2, 3, all_bits(&lons), all_bits(&lats)).unwrap();
    let plane = DataGrid::new(2, 3, all_bits(&[3.0, 1.0, 3.0, 2.0, f64::NAN, 1.0])).unwrap();
    let target = unit_grid(&unit_area("target", 2, 2));
    let locate = |lon: F64, lat: F64| (lon, bits(2.0 - plain(lat)));
    let ratio = |part: usize, all: usize| bits(part as f64 / all as f64);
    let fill = bits(-1.0);
    let found =
        resample_bucket_fraction_auto(&plane, &swath, &target, fill, &locate, &ratio).unwrap();
    let categories = all_bits(&[1.0, 2.0, 3.0]);
    assert_eq!(found.coord("categories").unwrap().values(), &categories);
    let given =
        resample_bucket_fraction(&plane, &swath, &target, &categories, fill, &locate, &ratio)
            .unwrap();
    assert!(given == found);
    assert_eq!(found.values()[0], bits(0.5));
}

#[test]
fn means_of_repeated_bands_are_the_bands() {
    let dims = vec!["bands".to_string(), "y".to_string(), "x".to_string()];
    let values: Vec<f64> = (0..12).map(|i| f64::from(i * 5 % 7 - 3)).collect();
    let bands = DataGrid::from_vec_named(vec![2, 2, 3], dims, all_bits(&values)).unwrap();
    let repeated = native_repeat_yx(&bands, 3, 2).unwrap();
    assert_eq!(repeated.shape_nd(), &vec![2, 6, 6]);
    let back = native_aggregate_mean_yx(&repeated, 3, 2, &mean).unwrap();
    assert_eq!(back.shape_nd(), bands.shape_nd());
    assert_eq!(back.dims(), bands.dims());
    assert_eq!(back.values(), bands.values());
    assert!(back.mask().is_none());
}

#[test]
fn the_reference_system_of_the_world_is_read_again() {
    let crs = ProjCrs::wgs84_longlat();
    let again = ProjCrs::from_proj4_str(&crs.to_proj4_string(), &read).unwrap();
    assert!(again.equivalent_to(&crs));
}

#[test]
fn a_leading_plus_sign_of_a_name_is_lost() {
    let crs = ProjCrs::from_proj4_str("+proj=merc +++k=1", &read).unwrap();
    assert!(crs.param("+k").is_some());
    let again = ProjCrs::from_proj4_str(&crs.to_proj4_string(), &read).unwrap();
    assert!(again.param("+k").is_none() && again.param("k").is_some());
}
