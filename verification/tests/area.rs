use rusty_sat::area::{AreaDefinition, AreaGrid};
use rusty_sat::area_config::load_area_from_str;
use rusty_sat::error::RustySatError;
use rusty_sat::number::F64;
use rusty_sat::text_map::TextMap;

fn bits(value: f64) -> F64 {
    F64::from_bits(value.to_bits())
}

fn plain(value: F64) -> f64 {
    f64::from_bits(value.to_bits())
}

/// A part of the way between two bounds, of `count` parts.
fn part(low: F64, high: F64, count: usize) -> F64 {
    bits((plain(high) - plain(low)) / count as f64)
}

fn extent(area: &AreaDefinition) -> [f64; 4] {
    area.area_extent().map(plain)
}

fn pixel_size(area: &AreaDefinition) -> (f64, f64) {
    let (x, y) = area.pixel_size(&part);
    (plain(x), plain(y))
}

fn map_of(pairs: &[(&str, &str)]) -> TextMap<String> {
    let mut map = TextMap::new();
    for (key, value) in pairs {
        map.insert(key.to_string(), value.to_string());
    }
    map
}

#[test]
fn constructs_area_definition_with_pyresample_shape_order() {
    let area = AreaDefinition::from_parts(
        "test_area",
        "Test Area",
        "test_proj",
        map_of(&[("proj", "stere")]),
        10,
        20,
        [-100.0, -50.0, 100.0, 50.0].map(bits),
    )
    .unwrap();

    assert_eq!(area.id(), "test_area");
    assert_eq!(area.description(), "Test Area");
    assert_eq!(area.proj_id(), "test_proj");
    assert_eq!(area.shape(), (10, 20));
    assert_eq!(extent(&area), [-100.0, -50.0, 100.0, 50.0]);
    assert_eq!(pixel_size(&area), (10.0, 10.0));
}

#[test]
fn loads_satpy_style_area_yaml() {
    let yaml = r#"
france:
  description: france
  projection:
    proj: stere
    ellps: WGS84
    lat_0: 46.75
    lon_0: 1.25
  shape:
    height: 703
    width: 746
  area_extent:
    lower_left_xy: [-559750.381098, -505020.675776]
    upper_right_xy: [559750.381098, 549517.351948]
"#;

    let area = load_area_from_str(yaml, "france").unwrap();

    assert_eq!(area.description(), "france");
    assert_eq!(area.shape(), (703, 746));
    assert_eq!(area.projection().get("proj").unwrap(), "stere");
    assert_eq!(area.projection().get("ellps").unwrap(), "WGS84");
    assert_eq!(
        extent(&area),
        [-559750.381098, -505020.675776, 559750.381098, 549517.351948]
    );
}

#[test]
fn loads_flat_area_extent_yaml() {
    let yaml = r#"
simple:
  projection: "+proj=latlong"
  shape:
    height: 2
    width: 3
  area_extent: [-10.0, -5.0, 10.0, 5.0]
"#;

    let area = load_area_from_str(yaml, "simple").unwrap();

    assert_eq!(area.projection().get("proj4").unwrap(), "+proj=latlong");
    assert_eq!(area.shape(), (2, 3));
    assert_eq!(extent(&area), [-10.0, -5.0, 10.0, 5.0]);
}

#[test]
fn reports_missing_area() {
    let err = load_area_from_str("known: {}", "missing").unwrap_err();

    assert!(matches!(
        err,
        RustySatError::InvalidInput { .. } | RustySatError::NotFound { .. }
    ));
}

#[test]
fn loads_area_from_file() {
    let area = load_area_from_str(
        r#"
file_area:
  projection:
    proj: latlong
  shape:
    height: 1
    width: 1
  area_extent: [0.0, 0.0, 1.0, 1.0]
"#,
        "file_area",
    )
    .unwrap();

    assert_eq!(area.id(), "file_area");
}

#[test]
fn an_area_has_the_centres_of_its_pixels() {
    let area = AreaDefinition::new("area", 2, 3).unwrap();
    let centre = |y: usize, x: usize| (bits(x as f64 + 0.5), bits(1.5 - y as f64));
    let grid = AreaGrid::with_centres(area, &centre).unwrap();
    assert_eq!(grid.shape(), (2, 3));
    assert_eq!(grid.x(), &[0.5, 1.5, 2.5].map(bits));
    assert_eq!(grid.y(), &[1.5, 0.5].map(bits));
}

#[test]
fn an_area_with_too_many_pixels_has_no_axes() {
    let area = AreaDefinition::new("area", usize::MAX, 2).unwrap();
    let centre = |_: usize, _: usize| (bits(0.0), bits(0.0));
    let error = AreaGrid::with_centres(area, &centre).unwrap_err();
    assert_eq!(error, RustySatError::invalid_input("area size overflows usize"));
}
