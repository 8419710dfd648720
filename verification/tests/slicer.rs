use rusty_sat::area::AreaDefinition;
use rusty_sat::error::{Result, RustySatError};
use rusty_sat::number::F64;
use rusty_sat::slicer::{AreaCrop, AreaSlice};
use rusty_sat::text_map::TextMap;

fn bits(value: f64) -> F64 {
    F64::from_bits(value.to_bits())
}

fn plain(value: F64) -> f64 {
    f64::from_bits(value.to_bits())
}

/// The number in a text, with its shortest text.
fn read(text: String) -> Option<(F64, String)> {
    let value = text.parse::<f64>().ok()?;
    Some((bits(value), value.to_string()))
}

/// A part of the way between two bounds, of `count` parts.
fn part(low: F64, high: F64, count: usize) -> F64 {
    bits((plain(high) - plain(low)) / count as f64)
}

fn extent(area: &AreaDefinition) -> [f64; 4] {
    area.area_extent().map(plain)
}

/// The place of a coordinate among the columns.
fn column(edge: F64, size: F64, x: F64) -> F64 {
    let first = plain(edge) + 0.5 * plain(size);
    bits((plain(x) - first) / plain(size))
}

/// The place of a coordinate among the rows.
fn row(edge: F64, size: F64, y: F64) -> F64 {
    let first = plain(edge) - 0.5 * plain(size);
    bits((plain(y) - first) / -plain(size))
}

/// The part of a number above the integer below it, less a half.
fn excess(value: F64) -> F64 {
    let value = plain(value);
    bits(value - value.floor() - 0.5)
}

fn offset(edge: F64, count: usize, size: F64) -> F64 {
    bits(plain(edge) + count as f64 * plain(size))
}

fn offset_down(edge: F64, count: usize, size: F64) -> F64 {
    bits(plain(edge) - count as f64 * plain(size))
}

fn get_area_slices(source: &AreaDefinition, target: &AreaDefinition) -> Result<AreaSlice> {
    rusty_sat::slicer::get_area_slices(source, target, &read, &part, &column, &row, &excess)
}

fn get_area_slices_with_divisibility(
    source: &AreaDefinition,
    target: &AreaDefinition,
    shape_divisible_by: Option<usize>,
) -> Result<AreaSlice> {
    rusty_sat::slicer::get_area_slices_with_divisibility(
        source,
        target,
        shape_divisible_by,
        &read,
        &part,
        &column,
        &row,
        &excess,
    )
}

fn slice_area(source: &AreaDefinition, slices: &AreaSlice) -> Result<AreaDefinition> {
    rusty_sat::slicer::slice_area(source, slices, &part, &offset, &offset_down)
}

fn crop_source_area(source: &AreaDefinition, target: &AreaDefinition) -> Result<AreaCrop> {
    rusty_sat::slicer::crop_source_area(
        source,
        target,
        &read,
        &part,
        &column,
        &row,
        &excess,
        &offset,
        &offset_down,
    )
}

fn map_of(pairs: &[(&str, &str)]) -> TextMap<String> {
    let mut map = TextMap::new();
    for (key, value) in pairs {
        map.insert(key.to_string(), value.to_string());
    }
    map
}

fn lonlat_area(id: &str, height: usize, width: usize, bounds: [f64; 4]) -> AreaDefinition {
    AreaDefinition::from_parts(
        id,
        id,
        "longlat",
        map_of(&[("proj", "longlat")]),
        height,
        width,
        bounds.map(bits),
    )
    .unwrap()
}

#[test]
fn computes_same_projection_area_slices_with_pyresample_style_margin() {
    let source = lonlat_area("source", 4, 4, [0.0, 0.0, 4.0, 4.0]);
    let target = lonlat_area("target", 2, 2, [1.0, 1.0, 3.0, 3.0]);

    let slices = get_area_slices(&source, &target).unwrap();

    assert_eq!(slices.x(), 0..3);
    assert_eq!(slices.y(), 0..3);
    assert_eq!(slices.shape(), (3, 3));
}

#[test]
fn slices_area_extent_and_shape() {
    let source = lonlat_area("source", 4, 4, [0.0, 0.0, 4.0, 4.0]);
    let slices = AreaSlice::new(1..3, 1..4).unwrap();

    let cropped = slice_area(&source, &slices).unwrap();

    assert_eq!(cropped.shape(), (3, 2));
    assert_eq!(extent(&cropped), [1.0, 0.0, 3.0, 3.0]);
}

#[test]
fn crop_source_area_returns_slices_and_cropped_area() {
    let source = lonlat_area("source", 4, 4, [0.0, 0.0, 4.0, 4.0]);
    let target = lonlat_area("target", 2, 2, [1.1, 1.1, 2.9, 2.9]);

    let crop = crop_source_area(&source, &target).unwrap();

    assert_eq!(crop.slices().x(), 1..3);
    assert_eq!(crop.slices().y(), 1..3);
    assert_eq!(crop.source_area().shape(), (2, 2));
    assert_eq!(extent(crop.source_area()), [1.0, 1.0, 3.0, 3.0]);
}

#[test]
fn rejects_non_overlapping_area() {
    let source = lonlat_area("source", 4, 4, [0.0, 0.0, 4.0, 4.0]);
    let target = lonlat_area("target", 1, 1, [10.0, 10.0, 11.0, 11.0]);

    assert!(get_area_slices(&source, &target).is_err());
}

#[test]
fn can_expand_slice_to_divisible_shape() {
    let source = lonlat_area("source", 8, 8, [0.0, 0.0, 8.0, 8.0]);
    let target = lonlat_area("target", 3, 3, [2.1, 2.1, 4.9, 4.9]);

    let slices = get_area_slices_with_divisibility(&source, &target, Some(4)).unwrap();

    assert_eq!(slices.shape(), (4, 4));
}

#[test]
fn rejects_cross_projection_until_transform_backend_exists() {
    let source = lonlat_area("source", 4, 4, [0.0, 0.0, 4.0, 4.0]);
    let target = AreaDefinition::from_parts(
        "target",
        "target",
        "merc",
        map_of(&[("proj", "merc")]),
        4,
        4,
        [0.0, 0.0, 4.0, 4.0].map(bits),
    )
    .unwrap();

    assert!(matches!(
        get_area_slices(&source, &target),
        Err(RustySatError::Unsupported { .. })
    ));
}

#[test]
fn area_slice_rejects_empty_ranges() {
    assert!(AreaSlice::new(1..1, 0..2).is_err());
    assert!(AreaSlice::new(0..2, 1..1).is_err());
}

#[test]
fn slices_clamp_when_target_straddles_source_edge() {
    let source = lonlat_area("source", 4, 4, [0.0, 0.0, 4.0, 4.0]);
    // Target extends from inside source to well outside it.
    let target = lonlat_area("straddle", 2, 2, [1.0, 1.0, 6.0, 6.0]);

    let slices = get_area_slices(&source, &target).unwrap();

    // x stop clamps to source width; y starts from the lower-left corner.
    assert_eq!(slices.x().end, 4);
    assert_eq!(slices.y().start, 0);
}

#[test]
fn a_crop_is_a_slice_and_its_area() {
    let source = lonlat_area("source", 8, 10, [0.0, 0.0, 10.0, 8.0]);
    for bounds in [[1.1, 1.1, 2.9, 2.9], [0.0, 0.0, 10.0, 8.0], [-3.0, 5.5, 4.2, 20.0]] {
        let target = lonlat_area("target", 2, 2, bounds);
        let crop = crop_source_area(&source, &target).unwrap();
        let slices = get_area_slices(&source, &target).unwrap();
        let area = slice_area(&source, &slices).unwrap();
        assert_eq!(&slices, crop.slices());
        assert_eq!(&area, crop.source_area());
        assert_eq!(area.shape(), (slices.y().len(), slices.x().len()));
        assert_eq!(area.id(), source.id());
        assert_eq!(area.projection(), source.projection());
    }
}
