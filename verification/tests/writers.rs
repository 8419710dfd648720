use rusty_sat::array::{AnyDataArray, DataArray};
use rusty_sat::dataset::{DataId, Dataset};
use rusty_sat::error::Result;
use rusty_sat::float_tiff::TiffSamplePolicy;
use rusty_sat::number::F64;
use rusty_sat::scene::Scene;
use rusty_sat::simple_image::SimpleImageDatasetBitDepth;
use rusty_sat::writers::{
    writer_for_extension, writer_for_path, BuiltinWriter, BuiltinWriterFactory, BuiltinWriterKind,
    Writer,
};

fn bits(value: f64) -> F64 {
    F64::from_bits(value.to_bits())
}

fn plain(value: F64) -> f64 {
    f64::from_bits(value.to_bits())
}

fn next(value: F64) -> F64 {
    bits(plain(value) + 1.0)
}

fn level(value: F64, min: F64, max: F64) -> F64 {
    let (value, min, max) = (plain(value), plain(min), plain(max));
    bits((value - min) / (max - min) * 255.0)
}

struct PlaceholderWriter;

impl Writer for PlaceholderWriter {
    fn name(&self) -> &str {
        "placeholder"
    }
}

#[test]
fn writer_trait_compiles() {
    let writer = PlaceholderWriter;
    assert_eq!(writer.name(), "placeholder");
}

#[test]
fn factory_selects_builtin_writers_by_extension() -> Result<()> {
    assert_eq!(writer_for_extension("pgm")?.kind(), BuiltinWriterKind::Pgm);
    assert_eq!(
        writer_for_extension(".PNG")?.kind(),
        BuiltinWriterKind::SimpleImage
    );
    assert_eq!(
        writer_for_extension("jpeg")?.kind(),
        BuiltinWriterKind::SimpleImage
    );
    assert_eq!(
        writer_for_path(Some("tiff"))?.kind(),
        BuiltinWriterKind::FloatTiff
    );
    Ok(())
}

#[test]
fn factory_reports_missing_or_unknown_extension() {
    assert!(writer_for_path(None)
        .err()
        .unwrap()
        .message()
        .contains("extension"));
    assert!(writer_for_extension("gif")
        .err()
        .unwrap()
        .message()
        .contains("unsupported feature"));
}

#[test]
fn selected_writer_can_save_scene_dataset() -> Result<()> {
    let data_id = DataId::new("B03")?;
    let array = DataArray::<u16>::from_vec_named(
        vec![1, 2],
        vec!["y".to_string(), "x".to_string()],
        vec![0, 1024],
    )?;
    let dataset = Dataset::new(data_id.copy()).with_array(AnyDataArray::U16(array));
    let mut scene = Scene::new();
    scene.insert_dataset(dataset);
    let writer = match writer_for_path(Some("pgm"))? {
        BuiltinWriter::Pgm(writer) => writer,
        _ => panic!("expected the PGM writer"),
    };

    let saved = scene.get(data_id.name()).unwrap();
    let bytes = writer.encode_dataset(saved, &level, &next)?;

    assert!(bytes.starts_with(b"P5\n2 1\n255\n"));
    Ok(())
}

#[test]
fn factory_options_select_16_bit_png_and_float64_tiff() -> Result<()> {
    let png_writer = BuiltinWriterFactory::default()
        .with_png_bit_depth(SimpleImageDatasetBitDepth::Sixteen)
        .writer_for_extension("png")?;
    let tiff_writer = BuiltinWriterFactory::default()
        .with_tiff_sample_policy(TiffSamplePolicy::Float64 {
            fill_value: bits(f64::NAN),
        })?
        .writer_for_extension("tif")?;

    assert_eq!(png_writer.kind(), BuiltinWriterKind::SimpleImage);
    assert_eq!(tiff_writer.kind(), BuiltinWriterKind::FloatTiff);
    Ok(())
}

#[test]
fn factory_rejects_invalid_tiff_sample_policy() {
    let err = BuiltinWriterFactory::default()
        .with_tiff_sample_policy(TiffSamplePolicy::UInt16Scaled {
            min: Some(bits(1.0)),
            max: Some(bits(1.0)),
            fill_value: 0,
        })
        .err()
        .unwrap();
    assert!(err.message().contains("max greater than min"));
}
