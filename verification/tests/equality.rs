use rusty_sat::area::AreaDefinition;
use rusty_sat::array::{DataArray, DataGrid};
use rusty_sat::dataset::{DataId, Dataset};
use rusty_sat::ewa::EwaOptions;
use rusty_sat::float_tiff::FloatTiffWriter;
use rusty_sat::image_container::ImageContainer;
use rusty_sat::metadata::{MetadataTable, MetadataValue};
use rusty_sat::neighbour::NeighbourInfo;
use rusty_sat::number::{F32, F64};
use rusty_sat::pipeline::{ResampleOptions, SourceGeometry};
use rusty_sat::swath::SwathDefinition;
use rusty_sat::text_map::TextMap;

fn bits(value: f64) -> F64 {
    F64::from_bits(value.to_bits())
}

fn all_bits(values: &[f64]) -> Vec<F64> {
    values.iter().map(|value| bits(*value)).collect()
}

fn area(left: f64) -> AreaDefinition {
    let extent = [left, 0.0, 2.0, 2.0].map(bits);
    AreaDefinition::from_parts("area", "", "", TextMap::new(), 2, 2, extent).unwrap()
}

#[test]
fn numbers_are_equal_as_numbers() {
    assert!(bits(0.0) == bits(-0.0));
    assert!(bits(1.5) == bits(1.5));
    assert!(bits(1.5) != bits(-1.5));
    assert!(bits(f64::NAN) != bits(f64::NAN));
    assert!(bits(f64::INFINITY) == bits(f64::INFINITY));
    let narrow = |value: f32| F32::from_bits(value.to_bits());
    assert!(narrow(0.0) == narrow(-0.0));
    assert!(narrow(2.5) == narrow(2.5));
    assert!(narrow(2.5) != narrow(-2.5));
    assert!(narrow(f32::NAN) != narrow(f32::NAN));
}

#[test]
fn areas_and_geometries_are_equal_by_their_numbers() {
    assert!(area(0.0) == area(-0.0));
    assert!(area(0.0) != area(1.0));
    assert!(area(f64::NAN) != area(f64::NAN));
    let swath = |lon: f64| {
        SwathDefinition::from_lonlats(1, 2, all_bits(&[lon, 1.0]), all_bits(&[0.0, 1.0])).unwrap()
    };
    assert!(swath(0.0) == swath(-0.0));
    assert!(SourceGeometry::Swath(swath(0.0)) == SourceGeometry::Swath(swath(-0.0)));
    assert!(SourceGeometry::Area(area(0.0)) != SourceGeometry::Swath(swath(0.0)));
}

#[test]
fn arrays_are_equal_by_their_numbers() {
    let grid = |value: f64| DataGrid::new(1, 2, all_bits(&[value, 3.0])).unwrap();
    assert!(grid(0.0) == grid(-0.0));
    assert!(grid(1.0) != grid(2.0));
    assert!(grid(f64::NAN) != grid(f64::NAN));
    let narrow = |value: f32| {
        let dims = vec!["y".to_string(), "x".to_string()];
        DataArray::from_vec_named(vec![1, 1], dims, vec![F32::from_bits(value.to_bits())]).unwrap()
    };
    assert!(narrow(0.0) == narrow(-0.0));
    assert!(narrow(f32::NAN) != narrow(f32::NAN));
}

#[test]
fn images_are_equal_by_their_numbers() {
    let image = |value: f64| {
        let grid = DataGrid::new(2, 2, all_bits(&[value, 1.0, 2.0, 3.0])).unwrap();
        let dataset = Dataset::new(DataId::new("image").unwrap()).with_data(grid);
        ImageContainer::from_area(dataset, area(0.0)).unwrap()
    };
    assert!(image(0.0) == image(-0.0));
    assert!(image(0.0).clone() == image(0.0));
    assert!(image(f64::NAN) != image(f64::NAN));
}

#[test]
fn tables_with_the_same_entries_are_equal() {
    let mut first = MetadataTable::new();
    first.insert("b", MetadataValue::Integer(2));
    first.insert("a", MetadataValue::string("x"));
    first.insert("c", MetadataValue::Float(bits(0.0)));
    let mut second = MetadataTable::new();
    second.insert("c", MetadataValue::Float(bits(-0.0)));
    second.insert("a", MetadataValue::Integer(7));
    second.insert("b", MetadataValue::Integer(2));
    assert!(first != second);
    second.insert("a", MetadataValue::string("x"));
    assert!(first == second);
    assert!(MetadataValue::Table(first.clone()) == MetadataValue::Table(second));
    let names: Vec<&String> = (0..first.len()).map(|i| first.name_at(i)).collect();
    assert_eq!(names, ["a", "b", "c"]);
}

#[test]
fn settings_are_equal_by_their_values() {
    let options = ResampleOptions::bilinear().with_fill_value(bits(-1.0));
    assert!(options.clone() == options);
    assert!(options != ResampleOptions::bilinear());
    assert!(ResampleOptions::bilinear() != ResampleOptions::bilinear());
    assert!(EwaOptions::new(bits(2.0)).unwrap().with_fill_value(bits(0.0))
        == EwaOptions::new(bits(2.0)).unwrap().with_fill_value(bits(-0.0)));
    let writer = FloatTiffWriter::default().with_float64_output(bits(-9.0));
    assert!(writer.clone() == writer);
    assert!(FloatTiffWriter::default() != FloatTiffWriter::default());
}

#[test]
fn an_area_known_by_its_size_reaches_from_the_origin() {
    let area = AreaDefinition::new("grid", 3, 5).unwrap();
    assert_eq!(area.shape(), (3, 5));
    assert_eq!(area.area_extent(), [0.0, 0.0, 5.0, 3.0].map(bits));
    assert_eq!(area.description(), "grid");
    assert!(AreaDefinition::new("grid", 0, 5).is_err());
    assert!(AreaDefinition::new(" ", 3, 5).is_err());
}

#[test]
fn source_pixels_of_neighbours_lie_in_the_source() {
    let info = NeighbourInfo::new(
        4,
        2,
        1,
        vec![false, true, false, true],
        vec![true, true],
        vec![1, 2],
        all_bits(&[0.5, f64::INFINITY]),
    )
    .unwrap();
    assert_eq!(info.valid_input_index().len(), info.source_size());
    assert_eq!(info.valid_output_index().len(), info.target_size());
    assert_eq!(info.source_index_for_reduced_index(0).unwrap(), Some(1));
    assert_eq!(info.source_index_for_reduced_index(1).unwrap(), Some(3));
    assert_eq!(info.source_index_for_reduced_index(2).unwrap(), None);
    assert!(info.source_index_for_reduced_index(3).is_err());
    assert!(info.clone() == info);
}
