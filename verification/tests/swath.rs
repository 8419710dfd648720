use rusty_sat::array::{DataArray, DataGrid};
use rusty_sat::error::RustySatError;
use rusty_sat::number::F64;
use rusty_sat::swath::SwathDefinition;
use rusty_sat::swath_config::load_swath_from_str;

fn bits(value: f64) -> F64 {
    F64::from_bits(value.to_bits())
}

fn plain(value: F64) -> f64 {
    f64::from_bits(value.to_bits())
}

fn all_bits(values: &[f64]) -> Vec<F64> {
    values.iter().map(|value| bits(*value)).collect()
}

fn all_plain(values: &[F64]) -> Vec<f64> {
    values.iter().map(|value| plain(*value)).collect()
}

/// The number in a text, with its shortest text.
fn read(text: String) -> Option<(F64, String)> {
    let value = text.parse::<f64>().ok()?;
    Some((bits(value), value.to_string()))
}

trait Plane {
    fn shape(&self) -> (usize, usize);
}

impl Plane for DataGrid {
    fn shape(&self) -> (usize, usize) {
        self.shape_yx().unwrap()
    }
}

fn names(dims: &[&str]) -> Vec<String> {
    dims.iter().map(|dim| dim.to_string()).collect()
}

#[test]
fn constructs_dimension_only_swath() {
    let swath = SwathDefinition::new(5, 6).unwrap();

    assert_eq!(swath.shape(), (5, 6));
    assert_eq!(swath.size(), 30);
    assert!(!swath.has_coordinates());
    assert_eq!(swath.crs().get("proj").unwrap(), "longlat");
    assert_eq!(swath.crs().get("ellps").unwrap(), "WGS84");
    assert_eq!(
        swath.crs_definition(&read).unwrap().projection_name(),
        Some("longlat")
    );
}

#[test]
fn constructs_coordinate_swath() {
    let swath =
        SwathDefinition::from_lonlats(2, 2, all_bits(&[1.0, 2.0, 3.0, 4.0]), all_bits(&[5.0, 6.0, 7.0, 8.0]))
            .unwrap();

    assert_eq!(swath.shape(), (2, 2));
    assert_eq!(all_plain(swath.lons().unwrap()), [1.0, 2.0, 3.0, 4.0]);
    assert_eq!(all_plain(swath.lats().unwrap()), [5.0, 6.0, 7.0, 8.0]);
}

#[test]
fn attaches_lonlat_coordinates_to_matching_data_array() {
    let swath =
        SwathDefinition::from_lonlats(2, 2, all_bits(&[1.0, 2.0, 3.0, 4.0]), all_bits(&[5.0, 6.0, 7.0, 8.0]))
            .unwrap();
    let array = DataArray::<u16>::from_vec_named(vec![2, 2], names(&["y", "x"]), vec![10, 20, 30, 40]).unwrap();

    let array = swath.attach_coordinates_to_array(array).unwrap();

    assert_eq!(
        array.coord("longitude").unwrap().dims(),
        &vec!["y".to_string(), "x".to_string()]
    );
    assert_eq!(
        all_plain(array.coord("longitude").unwrap().values()),
        [1.0, 2.0, 3.0, 4.0]
    );
    assert_eq!(
        all_plain(array.coord("latitude").unwrap().values()),
        [5.0, 6.0, 7.0, 8.0]
    );
}

#[test]
fn rejects_swath_coordinate_attachment_without_matching_shape_or_coordinates() {
    let swath =
        SwathDefinition::from_lonlats(2, 2, all_bits(&[1.0, 2.0, 3.0, 4.0]), all_bits(&[5.0, 6.0, 7.0, 8.0]))
            .unwrap();
    let bad_shape = DataArray::<u8>::from_vec_named(vec![1, 4], names(&["y", "x"]), vec![0; 4]).unwrap();
    assert!(swath.attach_coordinates_to_array(bad_shape).is_err());

    let dimension_only = SwathDefinition::new(2, 2).unwrap();
    let array = DataArray::<u8>::from_vec_named(vec![2, 2], names(&["y", "x"]), vec![0; 4]).unwrap();
    assert!(dimension_only.attach_coordinates_to_array(array).is_err());
}

#[test]
fn rejects_mismatched_coordinate_lengths() {
    let err = SwathDefinition::from_lonlats(2, 2, all_bits(&[1.0, 2.0]), all_bits(&[1.0])).unwrap_err();

    assert!(matches!(err, RustySatError::InvalidInput { .. }));
}

#[test]
fn loads_2d_swath_yaml() {
    let yaml = r#"
granule:
  lons:
    - [10.0, 11.0]
    - [12.0, 13.0]
  lats:
    - [20.0, 21.0]
    - [22.0, 23.0]
  crs:
    proj: longlat
    ellps: WGS84
"#;

    let swath = load_swath_from_str(yaml, "granule").unwrap();

    assert_eq!(swath.shape(), (2, 2));
    assert_eq!(all_plain(swath.lons().unwrap()), [10.0, 11.0, 12.0, 13.0]);
    assert_eq!(all_plain(swath.lats().unwrap()), [20.0, 21.0, 22.0, 23.0]);
    assert_eq!(swath.crs().get("proj").unwrap(), "longlat");
}

#[test]
fn loads_1d_swath_yaml() {
    let yaml = r#"
line:
  lons: [10.0, 11.0, 12.0]
  lats: [20.0, 21.0, 22.0]
"#;

    let swath = load_swath_from_str(yaml, "line").unwrap();

    assert_eq!(swath.shape(), (1, 3));
    assert_eq!(swath.size(), 3);
}
