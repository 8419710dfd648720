use rusty_sat::crs::{
    Coordinate2D, CrsSource, ProjCrs, ProjectionBackendStrategy, TransformDirection,
};
use rusty_sat::error::{Result, RustySatError};
use rusty_sat::geo_keys::{
    GeoKeyDef, GeoKeyValue, ANGULAR_UNIT_DEGREE, CT_GEOSTATIONARY_SATELLITE,
    CT_LAMBERT_AZIMUTHAL_EQUAL_AREA, CT_MERCATOR, CT_POLAR_STEREOGRAPHIC, CT_STEREOGRAPHIC,
    EPSG_DATUM_WGS_84, EPSG_WGS_84, GEOGRAPHIC_TYPE_GEO_KEY, GEOG_ANGULAR_UNITS_GEO_KEY,
    GEOG_CITATION_GEO_KEY, GEOG_GEODETIC_DATUM_GEO_KEY, GEO_USER_DEFINED, GT_MODEL_TYPE_GEO_KEY,
    LINEAR_UNIT_METER, MODEL_TYPE_GEOGRAPHIC, MODEL_TYPE_PROJECTED, PROJECTED_CITATION_GEO_KEY,
    PROJECTED_CS_TYPE_GEO_KEY, PROJ_CENTER_LONG_GEO_KEY, PROJ_COORD_TRANS_GEO_KEY,
    PROJ_FALSE_EASTING_GEO_KEY, PROJ_FALSE_NORTHING_GEO_KEY, PROJ_LINEAR_UNITS_GEO_KEY,
    PROJ_NAT_ORIGIN_LAT_GEO_KEY, PROJ_NAT_ORIGIN_LONG_GEO_KEY, PROJ_SEMI_MAJOR_AXIS_GEO_KEY,
    PROJ_SEMI_MINOR_AXIS_GEO_KEY,
};
use rusty_sat::number::F64;
use rusty_sat::text_map::TextMap;

fn bits(value: f64) -> F64 {
    F64::from_bits(value.to_bits())
}

fn plain(value: F64) -> f64 {
    f64::from_bits(value.to_bits())
}

fn read(text: String) -> Option<(F64, String)> {
    let value = text.parse::<f64>().ok()?;
    Some((bits(value), value.to_string()))
}

fn minor(a: F64, rf: F64) -> (F64, String) {
    let b = plain(a) * (1.0 - 1.0 / plain(rf));
    (bits(b), b.to_string())
}

fn map_of(pairs: &[(&str, &str)]) -> TextMap<String> {
    let mut map = TextMap::new();
    for (key, value) in pairs {
        map.insert(key.to_string(), value.to_string());
    }
    map
}

fn crs_of_map(pairs: &[(&str, &str)]) -> Result<ProjCrs> {
    ProjCrs::from_projection_map(&map_of(pairs), &read)
}

fn crs_of(text: &str) -> Result<ProjCrs> {
    ProjCrs::from_proj4_str(text, &read)
}

fn point(x: f64, y: f64) -> Result<Coordinate2D> {
    Coordinate2D::new(bits(x), bits(y))
}

fn param_number(crs: &ProjCrs, key: &str) -> Option<f64> {
    crs.parse_param_f64(key, &read).map(plain)
}

fn geo_keys_of(crs: &ProjCrs) -> Vec<GeoKeyDef> {
    crs.to_geotiff_geo_key_defs(&read, &minor)
}

#[test]
fn constructs_wgs84_longlat_crs() {
    let crs = ProjCrs::wgs84_longlat();

    assert_eq!(crs.source(), CrsSource::Wgs84LongLat);
    assert_eq!(crs.projection_name(), Some("longlat"));
    assert_eq!(crs.param("datum"), Some(Some("WGS84")));
    assert!(crs.is_geographic());
    assert_eq!(
        ProjCrs::backend_strategy(),
        ProjectionBackendStrategy::MetadataOnly
    );
    assert_eq!(
        ProjCrs::transform_backend_strategy(),
        ProjectionBackendStrategy::DeferredTransformBackend
    );
}

#[test]
fn constructs_crs_from_projection_map() {
    let crs = crs_of_map(&[
        ("+proj", "laea"),
        ("lat_0", "-90.0"),
        ("lon_0", "0.000"),
        ("no_defs", "None"),
        ("units", "m"),
    ])
    .unwrap();

    assert_eq!(crs.source(), CrsSource::ProjMap);
    assert_eq!(crs.projection_name(), Some("laea"));
    assert_eq!(crs.param("lat_0"), Some(Some("-90")));
    assert_eq!(crs.param("lon_0"), Some(Some("0")));
    assert_eq!(crs.param("no_defs"), Some(None));
    assert!(!crs.is_geographic());
}

#[test]
fn constructs_crs_from_proj4_string() {
    let crs = crs_of("+proj=longlat +datum=WGS84 +no_defs").unwrap();

    assert_eq!(crs.source(), CrsSource::ProjString);
    assert_eq!(crs.projection_name(), Some("longlat"));
    assert_eq!(crs.param("no_defs"), Some(None));
    assert!(crs.to_proj4_string().contains("+datum=WGS84"));
    assert!(crs.to_proj4_string().contains("+proj=longlat"));
}

#[test]
fn accepts_epsg_string_as_symbolic_crs() {
    let crs = crs_of("EPSG:04326").unwrap();

    assert_eq!(crs.param("epsg"), Some(Some("4326")));
    assert!(crs.is_geographic());
    assert_eq!(crs.to_proj4_string(), "+epsg=4326");
}

#[test]
fn normalizes_proj_aliases_and_deprecated_epsg_init() {
    let longlat = crs_of("+proj=latlong +datum=WGS84").unwrap();
    let init = crs_of("+init=EPSG:4326").unwrap();

    assert_eq!(longlat.projection_name(), Some("longlat"));
    assert_eq!(init.param("epsg"), Some(Some("4326")));
    assert!(init.params().get("init").is_none());
}

#[test]
fn rejects_duplicate_and_malformed_crs_parameters() {
    assert!(crs_of("+proj=merc +proj=laea").is_err());
    assert!(crs_of("EPSG:abcd").is_err());
    assert!(crs_of("+init=IGNF:LAMB1").is_err());
}

#[test]
fn coordinate_constructor_rejects_non_finite_values() {
    assert!(point(1.0, 2.0).is_ok());
    assert!(point(f64::NAN, 2.0).is_err());
    assert!(point(1.0, f64::INFINITY).is_err());
}

#[test]
fn geographic_forward_and_inverse_transforms_are_identity() {
    let crs = ProjCrs::wgs84_longlat();
    let coordinate = point(12.5, -45.25).unwrap();

    assert_eq!(
        crs.transform_coordinate(TransformDirection::Forward, coordinate)
            .unwrap(),
        coordinate
    );
    assert_eq!(
        crs.transform_coordinate(TransformDirection::Inverse, coordinate)
            .unwrap(),
        coordinate
    );
}

#[test]
fn same_crs_transform_is_identity() {
    let source = crs_of("+proj=laea +lat_0=-90 +lon_0=0 +units=m").unwrap();
    let target = crs_of_map(&[
        ("proj", "laea"),
        ("lat_0", "-90"),
        ("lon_0", "0"),
        ("units", "m"),
    ])
    .unwrap();
    let coordinate = point(100.0, -200.0).unwrap();

    assert!(source.equivalent_to(&target));
    assert_eq!(
        source.transform_to(&target, coordinate).unwrap(),
        coordinate
    );
    assert_eq!(
        source
            .transform_many_to(&target, vec![coordinate, point(0.0, 0.0).unwrap()])
            .unwrap(),
        vec![coordinate, point(0.0, 0.0).unwrap()]
    );
}

#[test]
fn geographic_alias_transforms_are_identity() {
    let epsg = crs_of("EPSG:4326").unwrap();
    let longlat = crs_of("+proj=longlat +datum=WGS84").unwrap();
    let coordinate = point(12.5, -45.25).unwrap();

    assert!(!epsg.equivalent_to(&longlat));
    assert_eq!(epsg.transform_to(&longlat, coordinate).unwrap(), coordinate);
    assert_eq!(longlat.transform_to(&epsg, coordinate).unwrap(), coordinate);
}

#[test]
fn projected_and_cross_crs_transforms_require_backend() {
    let projected = crs_of("+proj=laea +lat_0=-90 +lon_0=0 +units=m").unwrap();
    let geographic = ProjCrs::wgs84_longlat();
    let coordinate = point(100.0, -200.0).unwrap();

    assert!(matches!(
        projected.transform_coordinate(TransformDirection::Forward, coordinate),
        Err(RustySatError::Unsupported { .. })
    ));
    assert!(matches!(
        projected.transform_to(&geographic, coordinate),
        Err(RustySatError::Unsupported { .. })
    ));
}

#[test]
fn transform_coordinates_stops_on_unsupported_backend() {
    let projected = crs_of("+proj=stere +lat_0=90 +lon_0=0").unwrap();
    let coordinates = vec![
        point(0.0, 0.0).unwrap(),
        point(1.0, 1.0).unwrap(),
    ];

    assert!(matches!(
        projected.transform_coordinates(TransformDirection::Inverse, coordinates),
        Err(RustySatError::Unsupported { .. })
    ));
}

#[test]
fn rejects_missing_projection_identifier() {
    let err = crs_of_map(&[("datum", "WGS84")])
    .err().unwrap();

    assert!(matches!(err, RustySatError::InvalidInput { .. }));
}


#[test]
fn parse_param_f64_parses_numeric_values() {
    let crs = crs_of("+proj=geos +lon_0=140.7 +a=6378137").unwrap();
    assert!((param_number(&crs, "lon_0").unwrap() - 140.7).abs() < 1e-10);
    assert!((param_number(&crs, "a").unwrap() - 6_378_137.0).abs() < 1e-10);
}

#[test]
fn parse_param_f64_returns_none_for_missing_key() {
    let crs = ProjCrs::wgs84_longlat();
    assert!(param_number(&crs, "lat_0").is_none());
}

#[test]
fn parse_param_f64_returns_none_for_non_numeric_value() {
    let crs = ProjCrs::wgs84_longlat();
    assert!(param_number(&crs, "datum").is_none());
}


#[test]
fn geotiff_keys_longlat_wgs84() {
    let crs = ProjCrs::wgs84_longlat();
    let keys = geo_keys_of(&crs);
    assert_eq!(keys.len(), 4);
    // GTModelTypeGeoKey = Geographic
    assert_eq!(keys[0].key_id, GT_MODEL_TYPE_GEO_KEY);
    assert_eq!(keys[0].value, GeoKeyValue::Short(MODEL_TYPE_GEOGRAPHIC));
    // GeographicTypeGeoKey = 4326
    assert_eq!(keys[1].key_id, GEOGRAPHIC_TYPE_GEO_KEY);
    assert_eq!(keys[1].value, GeoKeyValue::Short(EPSG_WGS_84));
    // GeogGeodeticDatumGeoKey = 6326
    assert_eq!(keys[2].key_id, GEOG_GEODETIC_DATUM_GEO_KEY);
    assert_eq!(keys[2].value, GeoKeyValue::Short(EPSG_DATUM_WGS_84));
    // GeogAngularUnitsGeoKey = degree
    assert_eq!(keys[3].key_id, GEOG_ANGULAR_UNITS_GEO_KEY);
    assert_eq!(keys[3].value, GeoKeyValue::Short(ANGULAR_UNIT_DEGREE));
}

#[test]
fn geotiff_keys_longlat_non_wgs84_datum_uses_citation() {
    let crs = crs_of("+proj=longlat +datum=NAD83").unwrap();
    let keys = geo_keys_of(&crs);
    // GTModelTypeGeoKey = Geographic
    assert_eq!(keys[0].key_id, GT_MODEL_TYPE_GEO_KEY);
    assert_eq!(keys[0].value, GeoKeyValue::Short(MODEL_TYPE_GEOGRAPHIC));
    // GeographicTypeGeoKey = UserDefined (not WGS84)
    assert_eq!(keys[1].key_id, GEOGRAPHIC_TYPE_GEO_KEY);
    assert_eq!(keys[1].value, GeoKeyValue::Short(GEO_USER_DEFINED));
    // Has GEOG_CITATION_GEO_KEY as Ascii
    let citation = keys.iter().find(|k| k.key_id == GEOG_CITATION_GEO_KEY);
    assert!(citation.is_some());
    if let Some(c) = citation {
        assert!(matches!(c.value, GeoKeyValue::Ascii(_)));
    }
}


#[test]
fn geotiff_keys_geos_ahi_realistic() {
    let crs = crs_of_map(&[
        ("proj", "geos"),
        ("a", "6378137"),
        ("b", "6356752.3"),
        ("h", "35785863"),
        ("lon_0", "140.7"),
        ("units", "m"),
    ])
    .unwrap();
    let keys = geo_keys_of(&crs);

    // Must have at least 9 keys (no x_0/y_0 in this fixture)
    assert_eq!(keys.len(), 9, "expected 9 keys, got {}", keys.len());

    // GTModelTypeGeoKey = Projected
    assert_eq!(keys[0].key_id, GT_MODEL_TYPE_GEO_KEY);
    assert_eq!(keys[0].value, GeoKeyValue::Short(MODEL_TYPE_PROJECTED));
    // ProjectedCSTypeGeoKey = UserDefined
    assert_eq!(keys[1].key_id, PROJECTED_CS_TYPE_GEO_KEY);
    assert_eq!(keys[1].value, GeoKeyValue::Short(GEO_USER_DEFINED));
    // ProjectedCitationGeoKey = Ascii
    assert_eq!(keys[2].key_id, PROJECTED_CITATION_GEO_KEY);
    assert!(matches!(keys[2].value, GeoKeyValue::Ascii(_)));
    // ProjCoordTransGeoKey = CT_GeostationarySatellite (28)
    assert_eq!(keys[3].key_id, PROJ_COORD_TRANS_GEO_KEY);
    assert_eq!(
        keys[3].value,
        GeoKeyValue::Short(CT_GEOSTATIONARY_SATELLITE)
    );
    // ProjLinearUnitsGeoKey = Meter
    assert_eq!(keys[4].key_id, PROJ_LINEAR_UNITS_GEO_KEY);
    assert_eq!(keys[4].value, GeoKeyValue::Short(LINEAR_UNIT_METER));

    // Find double params by key_id
    let find_double = |key_id: u16| -> Option<f64> {
        keys.iter().find_map(|k| {
            if k.key_id == key_id {
                if let GeoKeyValue::Double(v) = k.value {
                    Some(plain(v))
                } else {
                    None
                }
            } else {
                None
            }
        })
    };
    assert!(
        (find_double(PROJ_CENTER_LONG_GEO_KEY).unwrap() - 140.7).abs() < 1e-10
    );
    assert!(
        (find_double(PROJ_NAT_ORIGIN_LONG_GEO_KEY).unwrap() - 140.7).abs() < 1e-10
    );
    assert!(
        (find_double(PROJ_SEMI_MAJOR_AXIS_GEO_KEY).unwrap() - 6_378_137.0).abs() < 1e-10
    );
    assert!(
        (find_double(PROJ_SEMI_MINOR_AXIS_GEO_KEY).unwrap() - 6_356_752.3).abs()
            < 1e-6
    );
}

#[test]
fn geotiff_keys_geos_with_rf_computes_b() {
    // AHI L2 NC style: has rf, no direct b
    let crs = crs_of_map(&[
        ("proj", "geos"),
        ("a", "6378137"),
        ("h", "35785863"),
        ("lon_0", "140.7"),
        ("rf", "298.257024882273"),
        ("units", "m"),
        ("x_0", "0"),
        ("y_0", "0"),
    ])
    .unwrap();
    let keys = geo_keys_of(&crs);

    // b should be computed from a and rf: b = a * (1 - 1/rf)
    let b = keys
        .iter()
        .find_map(|k| {
            if k.key_id == PROJ_SEMI_MINOR_AXIS_GEO_KEY {
                if let GeoKeyValue::Double(v) = k.value {
                    Some(plain(v))
                } else {
                    None
                }
            } else {
                None
            }
        })
        .unwrap();
    let expected_b = 6_378_137.0 * (1.0 - 1.0 / 298.257024882273_f64);
    assert!((b - expected_b).abs() < 1e-6);
    // x_0 and y_0 should be present
    assert!(keys.iter().any(|k| k.key_id == PROJ_FALSE_EASTING_GEO_KEY));
    assert!(keys.iter().any(|k| k.key_id == PROJ_FALSE_NORTHING_GEO_KEY));
}

#[test]
fn geotiff_keys_geos_without_rf_no_b() {
    let crs = crs_of_map(&[
        ("proj", "geos"),
        ("lon_0", "140.7"),
    ])
    .unwrap();
    let keys = geo_keys_of(&crs);
    // b and a not available; should have rf if present
    assert!(!keys
        .iter()
        .any(|k| k.key_id == PROJ_SEMI_MAJOR_AXIS_GEO_KEY));
    assert!(!keys
        .iter()
        .any(|k| k.key_id == PROJ_SEMI_MINOR_AXIS_GEO_KEY));
}


#[test]
fn geotiff_keys_stere_polar() {
    let crs = crs_of("+proj=stere +lat_0=90 +lon_0=0 +units=m").unwrap();
    let keys = geo_keys_of(&crs);
    assert!(keys.len() >= 8);
    // ProjCoordTransGeoKey = PolarStereographic
    assert_eq!(keys[3].key_id, PROJ_COORD_TRANS_GEO_KEY);
    assert_eq!(keys[3].value, GeoKeyValue::Short(CT_POLAR_STEREOGRAPHIC));
    // ProjNatOriginLatGeoKey = 90
    let lat = keys
        .iter()
        .find_map(|k| {
            if k.key_id == PROJ_NAT_ORIGIN_LAT_GEO_KEY {
                if let GeoKeyValue::Double(v) = k.value {
                    Some(plain(v))
                } else {
                    None
                }
            } else {
                None
            }
        })
        .unwrap();
    assert!((lat - 90.0).abs() < 1e-10);
}

#[test]
fn geotiff_keys_stere_oblique() {
    let crs =
        crs_of("+proj=stere +lat_0=60 +lon_0=10 +units=m").unwrap();
    let keys = geo_keys_of(&crs);
    // ProjCoordTransGeoKey = Stereographic (NOT polar)
    assert_eq!(keys[3].key_id, PROJ_COORD_TRANS_GEO_KEY);
    assert_eq!(keys[3].value, GeoKeyValue::Short(CT_STEREOGRAPHIC));
}


#[test]
fn geotiff_keys_laea() {
    let crs =
        crs_of("+proj=laea +lat_0=45 +lon_0=-100 +units=m").unwrap();
    let keys = geo_keys_of(&crs);
    assert!(keys.len() >= 7);
    // ProjCoordTransGeoKey = LambertAzimEqualArea
    assert_eq!(keys[3].key_id, PROJ_COORD_TRANS_GEO_KEY);
    assert_eq!(
        keys[3].value,
        GeoKeyValue::Short(CT_LAMBERT_AZIMUTHAL_EQUAL_AREA)
    );
    // Contains lat_0 and lon_0 as doubles
    let lat = keys.iter().find(|k| k.key_id == PROJ_NAT_ORIGIN_LAT_GEO_KEY);
    assert!(lat.is_some());
    let lon = keys
        .iter()
        .find(|k| k.key_id == PROJ_NAT_ORIGIN_LONG_GEO_KEY);
    assert!(lon.is_some());
}


#[test]
fn geotiff_keys_merc() {
    let crs = crs_of("+proj=merc +lon_0=0 +units=m").unwrap();
    let keys = geo_keys_of(&crs);
    assert!(keys.len() >= 6);
    // ProjCoordTransGeoKey = Mercator
    assert_eq!(keys[3].key_id, PROJ_COORD_TRANS_GEO_KEY);
    assert_eq!(keys[3].value, GeoKeyValue::Short(CT_MERCATOR));
    // ProjNatOriginLongGeoKey = lon_0
    let lon = keys
        .iter()
        .find(|k| k.key_id == PROJ_NAT_ORIGIN_LONG_GEO_KEY);
    assert!(lon.is_some());
}

#[test]
fn geotiff_keys_merc_with_lat_ts() {
    let crs = crs_of(
        "+proj=merc +lon_0=140.7 +lat_ts=30 +units=m",
    )
    .unwrap();
    let keys = geo_keys_of(&crs);
    let lat = keys
        .iter()
        .find(|k| k.key_id == PROJ_NAT_ORIGIN_LAT_GEO_KEY);
    assert!(lat.is_some());
    if let Some(k) = lat {
        if let GeoKeyValue::Double(v) = k.value {
            assert!((plain(v) - 30.0).abs() < 1e-10);
        } else {
            panic!("expected Double for lat_ts");
        }
    }
}


#[test]
fn geotiff_keys_epsg_4326() {
    let crs = crs_of("EPSG:4326").unwrap();
    let keys = geo_keys_of(&crs);
    assert!(keys.len() >= 3);
    assert_eq!(keys[0].value, GeoKeyValue::Short(MODEL_TYPE_GEOGRAPHIC));
    assert_eq!(keys[1].value, GeoKeyValue::Short(EPSG_WGS_84));
}


#[test]
fn geotiff_keys_unknown_projection_returns_empty() {
    let crs = crs_of("+proj=ob_tran +o_proj=longlat").unwrap();
    let keys = geo_keys_of(&crs);
    assert!(keys.is_empty());
}

#[test]
fn parameters_name_a_projection_or_a_code() {
    let systems = [
        ProjCrs::wgs84_longlat(),
        crs_of("+init=epsg:0032633 +units=m").unwrap(),
        crs_of("EPSG:000").unwrap(),
        crs_of("+proj=merc +no_defs").unwrap(),
        crs_of_map(&[("+epsg", "04326")]).unwrap(),
    ];
    for crs in &systems {
        let params = crs.params();
        assert!(params.contains_key("proj") || params.contains_key("epsg"));
        assert!(!params.contains_key("init"));
        assert!(!params.contains_key(""));
    }
    assert_eq!(systems[1].param("epsg"), Some(Some("32633")));
    assert_eq!(systems[2].param("epsg"), Some(Some("0")));
    assert_eq!(systems[4].param("epsg"), Some(Some("4326")));
}
