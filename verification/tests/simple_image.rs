use rusty_sat::array::{AnyDataArray, DataArray};
use rusty_sat::dataset::{DataId, Dataset};
use rusty_sat::error::Result;
use rusty_sat::number::F64;
use rusty_sat::simple_image::{Image, ImageMode, SimpleImageWriter, encode_png_image};

fn bits(value: f64) -> F64 {
    F64::from_bits(value.to_bits())
}

fn plain(value: F64) -> f64 {
    f64::from_bits(value.to_bits())
}

/// The place of a value between two bounds on the scale of grey levels.
fn level(value: F64, min: F64, max: F64) -> F64 {
    let (value, min, max) = (plain(value), plain(min), plain(max));
    bits((value - min) / (max - min) * 255.0)
}

/// One more than a number.
fn next(value: F64) -> F64 {
    bits(plain(value) + 1.0)
}

fn simple_image_bytes(
    writer: &SimpleImageWriter,
    dataset: &Dataset,
    extension: Option<&str>,
) -> Result<Vec<u8>> {
    writer.encode_dataset(dataset, extension, &level, &next)
}

fn names(dims: &[&str]) -> Vec<String> {
    dims.iter().map(|dim| dim.to_string()).collect()
}

fn decoded(bytes: &[u8]) -> image::DynamicImage {
    image::load_from_memory_with_format(bytes, image::ImageFormat::Png).unwrap()
}

#[test]
fn writes_luma_png_image() -> Result<()> {
    let picture = Image::from_pixels(ImageMode::Luma, 1, 2, vec![0, 255])?;

    let bytes = encode_png_image(&picture, Some("png"))?;

    let decoded = decoded(&bytes).into_luma8();
    assert_eq!(decoded.dimensions(), (2, 1));
    assert_eq!(decoded.as_raw(), &[0, 255]);
    Ok(())
}

#[test]
fn writes_rgb_png_image() -> Result<()> {
    let picture = Image::from_pixels(ImageMode::Rgb, 1, 2, vec![255, 0, 0, 0, 255, 0])?;

    let bytes = SimpleImageWriter::default().encode_image(&picture, Some("png"))?;

    let decoded = decoded(&bytes).into_rgb8();
    assert_eq!(decoded.dimensions(), (2, 1));
    assert_eq!(decoded.as_raw(), &[255, 0, 0, 0, 255, 0]);
    Ok(())
}

#[test]
fn writes_rgba_png_image() -> Result<()> {
    let picture = Image::from_pixels(ImageMode::Rgba, 1, 1, vec![1, 2, 3, 4])?;

    let bytes = SimpleImageWriter::default().encode_image(&picture, Some("png"))?;

    let decoded = decoded(&bytes).into_rgba8();
    assert_eq!(decoded.as_raw(), &[1, 2, 3, 4]);
    Ok(())
}

#[test]
fn saves_dataset_as_luma_png() -> Result<()> {
    let dataset = Dataset::new(DataId::new("VIS006")?).with_array(AnyDataArray::U8(
        DataArray::<u8>::from_vec_named(vec![1, 2], names(&["y", "x"]), vec![0, 10])?,
    ));

    let bytes = simple_image_bytes(&SimpleImageWriter::default(), &dataset, Some("png"))?;

    let decoded = decoded(&bytes).into_luma8();
    assert_eq!(decoded.dimensions(), (2, 1));
    assert_eq!(decoded.as_raw(), &[0, 255]);
    Ok(())
}

#[test]
fn rejects_non_png_extension() -> Result<()> {
    let picture = Image::from_pixels(ImageMode::Luma, 1, 1, vec![0])?;
    let err = encode_png_image(&picture, Some("jpg")).unwrap_err();

    assert!(err.message().contains("unsupported feature"));
    Ok(())
}
