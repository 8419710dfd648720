use rusty_sat::area_config::{load_area_from_str, load_areas_from_str};
use rusty_sat::number::F64;
use rusty_sat::swath_config::{load_swath_from_str, load_swaths_from_str};

fn bits(value: f64) -> F64 {
    F64::from_bits(value.to_bits())
}

const AREA: &str = "
simple:
  description: A simple area
  projection:
    proj: longlat
  shape:
    height: 2
    width: 3
  area_extent: [0.0, 0.0, 3.0, 2.0]
";

#[test]
fn every_loaded_area_has_the_name_of_its_entry() {
    let areas = load_areas_from_str(AREA).unwrap();
    assert_eq!(areas.len(), 1);
    assert_eq!(areas.key_at(0), "simple");
    assert_eq!(areas.value_at(0).id(), "simple");
    assert_eq!(areas.value_at(0).shape(), (2, 3));
    assert_eq!(areas.value_at(0).area_extent()[2], bits(3.0));
}

#[test]
fn an_area_with_another_name_is_not_found() {
    let err = load_area_from_str(AREA, "other").err().unwrap();
    assert!(err.message().contains("area definition 'other'"), "{}", err.message());
}

#[test]
fn the_tag_of_a_shape_is_passed_over() {
    let tagged = AREA.replace("shape:", "shape: !size").replace("height: 2", "height: !rows 2");
    let area = load_area_from_str(&tagged, "simple").unwrap();
    assert_eq!(area.shape(), (2, 3));
}

#[test]
fn an_extent_with_a_tag_is_refused() {
    let tagged = AREA.replace("[0.0,", "!box [0.0,");
    let err = load_area_from_str(&tagged, "simple").err().unwrap();
    assert!(err.message().contains("must be a mapping or list"), "{}", err.message());
}

#[test]
fn a_description_with_a_tag_is_refused() {
    let tagged = AREA.replace("A simple area", "!text A simple area");
    let err = load_area_from_str(&tagged, "simple").err().unwrap();
    assert!(err.message().contains("must be a scalar"), "{}", err.message());
}

#[test]
fn an_area_document_that_is_no_yaml_is_refused() {
    let err = load_areas_from_str("a: [1, 2").err().unwrap();
    assert!(err.message().contains("invalid area YAML"), "{}", err.message());
}

#[test]
fn an_area_document_that_is_no_table_is_refused() {
    assert!(load_areas_from_str("- 1\n- 2\n").is_err());
}

const SWATH: &str = "
pass:
  lons: [[1.0, 2.5], [3, 4]]
  lats: [[10, 20], [30, 40]]
";

#[test]
fn every_loaded_swath_has_positions_for_its_pixels() {
    let swaths = load_swaths_from_str(SWATH).unwrap();
    let swath = swaths.get("pass").unwrap();
    assert_eq!(swath.shape(), (2, 2));
    assert_eq!(swath.lons().unwrap(), &vec![bits(1.0), bits(2.5), bits(3.0), bits(4.0)]);
    assert_eq!(swath.lats().unwrap()[3], bits(40.0));
    assert_eq!(swath.crs().get("proj").unwrap(), "longlat");
}

#[test]
fn a_row_of_positions_is_a_swath_of_one_line() {
    let swath = load_swath_from_str("line:\n  lons: [1, 2, 3]\n  lats: [4, 5, 6]\n", "line").unwrap();
    assert_eq!(swath.shape(), (1, 3));
}

#[test]
fn positions_of_two_shapes_are_refused() {
    let text = "pass:\n  lons: [1, 2]\n  lats: [[1], [2]]\n";
    let err = load_swath_from_str(text, "pass").err().unwrap();
    assert!(err.message().contains("lons and lats must have the same shape"), "{}", err.message());
}

#[test]
fn a_swath_without_latitudes_is_refused() {
    assert!(load_swath_from_str("pass:\n  lons: [1, 2]\n", "pass").is_err());
    assert!(load_swath_from_str("pass:\n  lons: []\n  lats: []\n", "pass").is_err());
    assert!(load_swath_from_str("pass:\n  lons: [a]\n  lats: [1]\n", "pass").is_err());
}

#[test]
fn a_swath_with_another_name_is_not_found() {
    let err = load_swath_from_str(SWATH, "other").err().unwrap();
    assert!(err.message().contains("swath definition 'other'"), "{}", err.message());
}

#[test]
fn a_swath_document_that_is_no_yaml_is_refused() {
    let err = load_swaths_from_str("a: [1, 2").err().unwrap();
    assert!(err.message().contains("invalid swath YAML"), "{}", err.message());
}

#[test]
fn a_swath_document_that_is_too_large_is_refused() {
    let mut text = String::from(SWATH);
    while text.len() <= 8388608 {
        text.push_str("# nothing but a comment that takes its place in the document\n");
    }
    let err = load_swath_from_str(&text, "pass").err().unwrap();
    assert!(err.message().contains("8388608"), "{}", err.message());
}

#[test]
fn a_swath_document_that_is_too_deep_is_refused() {
    let nested = format!("pass: {}1{}\n", "[".repeat(100), "]".repeat(100));
    let err = load_swaths_from_str(&nested).err().unwrap();
    assert!(err.message().contains("nesting depth limit of 96"), "{}", err.message());
    let fitting = format!("pass: {}1{}\n", "[".repeat(90), "]".repeat(90));
    let err = load_swaths_from_str(&fitting).err().unwrap();
    assert!(!err.message().contains("nesting depth"), "{}", err.message());
}

#[test]
fn a_swath_with_a_reference_system_keeps_it() {
    let text = format!("{SWATH}  crs: {{proj: longlat, ellps: GRS80}}\n");
    let swath = load_swath_from_str(&text, "pass").unwrap();
    assert_eq!(swath.crs().get("ellps").unwrap(), "GRS80");
}
