//! Where the pixels of a data set are, by what describes it.

use crate::area::{area_ok, area_outcome, AreaDefinition, AreaView};
use crate::arithmetic::{slices_all, ResampleArithmetic, SliceArithmetic};
use crate::array::{copy_values, AnyArrayView, AnyDataArray, CoordinateView};
use crate::dataset::{as_values, Dataset, DatasetView};
use crate::error::{fails_with, is_invalid, is_missing, ErrorView, Result, RustySatError};
use crate::metadata::{
    is_number, lemma_tree, metadata_f64, number_in, numbers_in, table_texts, texts_in, trees,
    MetadataTable, MetadataTree, MetadataValue,
};
use crate::native::plane_error;
use crate::number::F64;
use crate::pipeline::{
    area_fits, area_outcome_cached, area_outcome_of, cache_after, cached_or_prepared, fits,
    gives_functions, prepared, resample_dataset, resample_dataset_cached,
    resample_dataset_from_geometry, resample_dataset_from_geometry_cached, resample_dataset_owned,
    resample_dataset_owned_cached, resample_dataset_owned_from_geometry,
    resample_dataset_owned_from_geometry_cached, runs, CachedView, GeometryView, OptionsView,
    PreparedResampler, ResampleOptions, ResamplerCache, SourceGeometry,
};
use crate::swath::SwathDefinition;
use crate::text::{join3, owned, position_in, same_text};
use crate::text_map::TextMap;
use vstd::prelude::*;

verus! {

/// The name of the area among the descriptions of a data set.
pub const AREA_ATTR_KEY: &'static str = "area";

/// The four bounds of an extent as values.
pub open spec fn extent_values(extent: Seq<F64>) -> Seq<MetadataTree> {
    Seq::new(extent.len(), |i: int| MetadataTree::Float(extent[i]))
}

/// An area as a table of values.
pub open spec fn area_table(a: AreaView) -> Map<Seq<char>, MetadataTree> {
    Map::empty().insert("type"@, MetadataTree::Text("area"@)).insert(
        "id"@,
        MetadataTree::Text(a.id),
    ).insert("description"@, MetadataTree::Text(a.description)).insert(
        "proj_id"@,
        MetadataTree::Text(a.proj_id),
    ).insert("projection"@, MetadataTree::Table(as_values(a.projection))).insert(
        "height"@,
        MetadataTree::Integer(a.height as i64),
    ).insert("width"@, MetadataTree::Integer(a.width as i64)).insert(
        "area_extent"@,
        MetadataTree::List(extent_values(a.extent)),
    )
}

/// The error for an area that cannot be written as values, if it cannot.
pub open spec fn area_table_error(a: AreaView) -> Option<ErrorView> {
    if a.height > i64::MAX || a.width > i64::MAX {
        Some(
            ErrorView::InvalidInput("area dimension is too large for metadata encoding"@),
        )
    } else if exists|i: int| 0 <= i < a.extent.len() && !(#[trigger] a.extent[i]).finite() {
        Some(ErrorView::InvalidInput("metadata floats must be finite"@))
    } else {
        None
    }
}

fn usize_to_i64(value: usize) -> (r: Result<i64>)
    ensures
        value > i64::MAX ==> is_invalid(
            r,
            "area dimension is too large for metadata encoding"@,
        ),
        value <= i64::MAX ==> r is Ok && r->Ok_0 == value,
{
    if value as u64 > i64::MAX as u64 {
        return Err(
            RustySatError::invalid_input("area dimension is too large for metadata encoding"),
        );
    }
    Ok(value as i64)
}

/// Texts as a table of values.
fn text_table(texts: &TextMap<String>) -> (r: MetadataTable)
    ensures
        r@ == as_values(texts@),
{
    let mut out = MetadataTable::new();
    let n: usize = texts.len();
    let ghost keys = texts.keys();
    let ghost m = texts@;
    proof {
        use_type_invariant(texts);
    }
    let mut i: usize = 0;
    while i < n
        invariant
            i <= n,
            n == keys.len(),
            keys == texts.keys(),
            m == texts@,
            forall|k: Seq<char>| #[trigger]
                out@.contains_key(k) ==> m.contains_key(k) && out@[k] == MetadataTree::Text(m[k]),
            forall|j: int| 0 <= j < i ==> out@.contains_key(#[trigger] keys[j]),
        decreases n - i,
    {
        let key = texts.key_at(i);
        let value = texts.value_at(i);
        out.insert(key.as_str(), MetadataValue::string(value.as_str()));
        i = i + 1;
    }
    proof {
        assert forall|k: Seq<char>| m.contains_key(k) implies #[trigger] out@.contains_key(k) by {
            assert(keys.to_set().contains(k));
        }
        assert(out@ =~= as_values(m));
    }
    out
}

/// The bounds of an extent as a value.
fn extent_list(extent: [F64; 4]) -> (r: Result<MetadataValue>)
    ensures
        (exists|i: int| 0 <= i < 4 && !(#[trigger] extent@[i]).finite()) ==> is_invalid(
            r,
            "metadata floats must be finite"@,
        ),
        (forall|i: int| 0 <= i < 4 ==> (#[trigger] extent@[i]).finite()) ==> r is Ok && r->Ok_0@
            == MetadataTree::List(extent_values(extent@)),
{
    let mut list: Vec<MetadataValue> = Vec::new();
    let mut i: usize = 0;
    while i < 4
        invariant
            i <= 4,
            list@.len() == i,
            forall|j: int|
                0 <= j < i ==> (#[trigger] list@[j])@ == MetadataTree::Float(extent@[j])
                    && extent@[j].finite(),
        decreases 4 - i,
    {
        match MetadataValue::float(extent[i]) {
            Ok(v) => {
                list.push(v);
            },
            Err(e) => {
                assert(!extent@[i as int].finite());
                return Err(e);
            },
        }
        i = i + 1;
    }
    let r = MetadataValue::List(list);
    proof {
        lemma_tree(r);
        assert(trees(list@) =~= extent_values(extent@));
        assert forall|j: int| 0 <= j < 4 implies (#[trigger] extent@[j]).finite() by {
            assert(list@[j]@ == MetadataTree::Float(extent@[j]));
        }
    }
    Ok(r)
}

/// An area as a value.
pub fn area_to_metadata_value(area: &AreaDefinition) -> (r: Result<MetadataValue>)
    ensures
        match area_table_error(area@) {
            Some(e) => fails_with(r, e),
            None => r is Ok && r->Ok_0@ == MetadataTree::Table(area_table(area@)),
        },
{
    proof {
        use_type_invariant(area);
    }
    let height: i64 = match usize_to_i64(area.height()) {
        Ok(n) => n,
        Err(e) => {
            return Err(e);
        },
    };
    let width: i64 = match usize_to_i64(area.width()) {
        Ok(n) => n,
        Err(e) => {
            return Err(e);
        },
    };
    let extent = match extent_list(area.area_extent()) {
        Ok(v) => v,
        Err(e) => {
            return Err(e);
        },
    };
    let projection = MetadataValue::Table(text_table(area.projection()));
    let height_value = MetadataValue::Integer(height);
    let width_value = MetadataValue::Integer(width);
    proof {
        lemma_tree(projection);
        lemma_tree(height_value);
        lemma_tree(width_value);
    }
    let mut table = MetadataTable::new();
    table.insert("type", MetadataValue::string("area"));
    table.insert("id", MetadataValue::string(area.id()));
    table.insert("description", MetadataValue::string(area.description()));
    table.insert("proj_id", MetadataValue::string(area.proj_id()));
    table.insert("projection", projection);
    table.insert("height", height_value);
    table.insert("width", width_value);
    table.insert("area_extent", extent);
    let r = MetadataValue::Table(table);
    proof {
        lemma_tree(r);
    }
    Ok(r)
}

/// The text of an error about one of the values of an area.
pub open spec fn attr_text(before: Seq<char>, key: Seq<char>, after: Seq<char>) -> Seq<char> {
    before + key + after
}

/// The error about one of the values of an area.
pub open spec fn attr_error(before: Seq<char>, key: Seq<char>, after: Seq<char>) -> ErrorView {
    ErrorView::InvalidInput(attr_text(before, key, after))
}

fn refuse(before: &str, key: &str, after: &str) -> (r: RustySatError)
    ensures
        r@ == attr_error(before@, key@, after@),
{
    let text = join3(before, key, after);
    RustySatError::invalid_input(text.as_str())
}

/// The error for a text that a table does not have, if it does not.
pub open spec fn text_error(m: Map<Seq<char>, MetadataTree>, key: Seq<char>) -> Option<ErrorView> {
    if m.contains_key(key) && m[key] is Text {
        None
    } else {
        Some(attr_error("area attr missing string '"@, key, "'"@))
    }
}

fn required_string(map: &MetadataTable, key: &str) -> (r: Result<String>)
    ensures
        match text_error(map@, key@) {
            Some(e) => fails_with(r, e),
            None => r is Ok && r->Ok_0@ == map@[key@]->Text_0,
        },
{
    match map.get(key) {
        Some(value) => match value.as_str() {
            Some(text) => Ok(owned(text)),
            None => Err(refuse("area attr missing string '", key, "'")),
        },
        None => Err(refuse("area attr missing string '", key, "'")),
    }
}

/// The error for a table of texts that a table does not have, if it does not.
pub open spec fn texts_error(m: Map<Seq<char>, MetadataTree>, key: Seq<char>) -> Option<ErrorView> {
    if !m.contains_key(key) || m[key] !is Table {
        Some(attr_error("area attr missing map '"@, key, "'"@))
    } else if exists|k: Seq<char>|
        m[key]->Table_0.contains_key(k) && !(#[trigger] m[key]->Table_0[k] is Text) {
        Some(ErrorView::InvalidInput("area projection values must be strings"@))
    } else {
        None
    }
}

fn all_texts(table: &MetadataTable) -> (r: bool)
    ensures
        r == (forall|k: Seq<char>| table@.contains_key(k) ==> (#[trigger] table@[k]) is Text),
{
    let n: usize = table.len();
    let ghost names = table.names();
    let mut i: usize = 0;
    while i < n
        invariant
            i <= n,
            n == names.len(),
            names == table.names(),
            forall|j: int| 0 <= j < i ==> table@[#[trigger] names[j]] is Text,
        decreases n - i,
    {
        if table.value_at(i).as_str().is_none() {
            assert(table@.contains_key(names[i as int]) && !(table@[names[i as int]] is Text));
            return false;
        }
        i = i + 1;
    }
    proof {
        assert forall|k: Seq<char>| table@.contains_key(k) implies (#[trigger] table@[k]) is Text by {
            assert(names.to_set().contains(k));
            let j = choose|j: int| 0 <= j < names.len() && names[j] == k;
            assert(table@[names[j]] is Text);
        }
    }
    true
}

fn required_string_map(map: &MetadataTable, key: &str) -> (r: Result<TextMap<String>>)
    ensures
        match texts_error(map@, key@) {
            Some(e) => fails_with(r, e),
            None => r is Ok && r->Ok_0@ == texts_in(map@[key@]->Table_0),
        },
{
    let table = match map.get(key) {
        Some(value) => match value.as_table() {
            Some(t) => t,
            None => {
                return Err(refuse("area attr missing map '", key, "'"));
            },
        },
        None => {
            return Err(refuse("area attr missing map '", key, "'"));
        },
    };
    if !all_texts(table) {
        proof {
            let k = choose|k: Seq<char>|
                table@.contains_key(k) && !((#[trigger] table@[k]) is Text);
            assert(map@[key@]->Table_0.contains_key(k) && !(map@[key@]->Table_0[k] is Text));
        }
        return Err(RustySatError::invalid_input("area projection values must be strings"));
    }
    Ok(table_texts(table))
}

/// The error for a size that a table does not have, if it does not.
pub open spec fn size_error(m: Map<Seq<char>, MetadataTree>, key: Seq<char>) -> Option<ErrorView> {
    if !m.contains_key(key) || m[key] !is Integer {
        Some(attr_error("area attr missing integer '"@, key, "'"@))
    } else if !(0 <= m[key]->Integer_0 <= usize::MAX) {
        Some(attr_error("area attr '"@, key, "' must be non-negative"@))
    } else {
        None
    }
}

fn required_usize(map: &MetadataTable, key: &str) -> (r: Result<usize>)
    ensures
        match size_error(map@, key@) {
            Some(e) => fails_with(r, e),
            None => r is Ok && r->Ok_0 == map@[key@]->Integer_0,
        },
{
    let value = match map.get(key) {
        Some(value) => value,
        None => {
            return Err(refuse("area attr missing integer '", key, "'"));
        },
    };
    proof {
        lemma_tree(*value);
    }
    match value {
        MetadataValue::Integer(n) => {
            let most: u128 = usize::MAX as u128;
            if *n >= 0 && (*n as u128) <= most {
                Ok(*n as usize)
            } else {
                Err(refuse("area attr '", key, "' must be non-negative"))
            }
        },
        _ => Err(refuse("area attr missing integer '", key, "'")),
    }
}

/// The error for a list of four numbers that a table does not have, if it does not.
pub open spec fn four_error(m: Map<Seq<char>, MetadataTree>, key: Seq<char>) -> Option<ErrorView> {
    if !m.contains_key(key) || m[key] !is List {
        Some(attr_error("area attr missing list '"@, key, "'"@))
    } else if m[key]->List_0.len() != 4 {
        Some(attr_error("area attr '"@, key, "' must have four values"@))
    } else if exists|i: int| 0 <= i < 4 && !is_number(#[trigger] m[key]->List_0[i]) {
        Some(attr_error("area attr '"@, key, "' values must be numeric"@))
    } else {
        None
    }
}

fn required_f64_array4(map: &MetadataTable, key: &str) -> (r: Result<
    [F64; 4],
>)
    ensures
        match four_error(map@, key@) {
            Some(e) => fails_with(r, e),
            None => r is Ok && numbers_in(map@[key@]->List_0, r->Ok_0@),
        },
{
    let value = match map.get(key) {
        Some(value) => value,
        None => {
            return Err(refuse("area attr missing list '", key, "'"));
        },
    };
    proof {
        lemma_tree(*value);
    }
    let list = match value {
        MetadataValue::List(list) => list,
        _ => {
            return Err(refuse("area attr missing list '", key, "'"));
        },
    };
    let ghost all = trees(list@);
    if list.len() != 4 {
        return Err(refuse("area attr '", key, "' must have four values"));
    }
    let mut result = [F64 { bits: 0 }, F64 { bits: 0 }, F64 { bits: 0 }, F64 { bits: 0 }];
    let mut i: usize = 0;
    while i < 4
        invariant
            i <= 4,
            list@.len() == 4,
            all == trees(list@),
            map@.contains_key(key@),
            map@[key@] == MetadataTree::List(all),
            result@.len() == 4,
            forall|j: int| 0 <= j < i ==> number_in(all[j], #[trigger] result@[j]),
            forall|j: int| 0 <= j < i ==> is_number(#[trigger] all[j]),
        decreases 4 - i,
    {
        match metadata_f64(&list[i]) {
            Some(x) => {
                result[i] = x;
            },
            None => {
                proof {
                    assert(!is_number(map@[key@]->List_0[i as int]));
                }
                return Err(refuse("area attr '", key, "' values must be numeric"));
            },
        }
        i = i + 1;
    }
    Ok(result)
}

/// The error for a value that is not an area, if it is not.
pub open spec fn area_value_error(value: MetadataTree) -> Option<ErrorView> {
    match value {
        MetadataTree::Table(m) => if m.contains_key("type"@) && m["type"@] !is Text {
            Some(attr_error("area attr '"@, "type"@, "' must be a string"@))
        } else if m.contains_key("type"@) && m["type"@]->Text_0 != "area"@ {
            Some(
                attr_error(
                    "unsupported source geometry attr type '"@,
                    m["type"@]->Text_0,
                    "'"@,
                ),
            )
        } else if text_error(m, "id"@) is Some {
            text_error(m, "id"@)
        } else if text_error(m, "description"@) is Some {
            text_error(m, "description"@)
        } else if text_error(m, "proj_id"@) is Some {
            text_error(m, "proj_id"@)
        } else if texts_error(m, "projection"@) is Some {
            texts_error(m, "projection"@)
        } else if size_error(m, "height"@) is Some {
            size_error(m, "height"@)
        } else if size_error(m, "width"@) is Some {
            size_error(m, "width"@)
        } else {
            four_error(m, "area_extent"@)
        },
        _ => Some(ErrorView::InvalidInput("area attr must be a map"@)),
    }
}

/// Whether `r` is the area that a value describes, or the first obstacle.
pub open spec fn area_value_outcome(r: Result<AreaDefinition>, value: MetadataTree) -> bool {
    match area_value_error(value) {
        Some(e) => fails_with(r, e),
        None => {
            let m = value->Table_0;
            exists|extent: Seq<F64>| #[trigger]
                numbers_in(m["area_extent"@]->List_0, extent) && area_outcome(
                    r,
                    m["id"@]->Text_0,
                    m["description"@]->Text_0,
                    m["proj_id"@]->Text_0,
                    texts_in(m["projection"@]->Table_0),
                    m["height"@]->Integer_0 as usize,
                    m["width"@]->Integer_0 as usize,
                    extent,
                )
        },
    }
}

/// The area that a value describes.
pub fn area_from_metadata_value(value: &MetadataValue) -> (r: Result<
    AreaDefinition,
>)
    ensures
        area_value_outcome(r, value@),
{
    let map = match value.as_table() {
        Some(m) => m,
        None => {
            return Err(RustySatError::invalid_input("area attr must be a map"));
        },
    };
    match map.get("type") {
        Some(kind) => match kind.as_str() {
            Some(text) => {
                if !same_text(text, "area") {
                    return Err(refuse("unsupported source geometry attr type '", text, "'"));
                }
            },
            None => {
                return Err(refuse("area attr '", "type", "' must be a string"));
            },
        },
        None => {},
    }
    let id = match required_string(map, "id") {
        Ok(v) => v,
        Err(e) => {
            return Err(e);
        },
    };
    let description = match required_string(map, "description") {
        Ok(v) => v,
        Err(e) => {
            return Err(e);
        },
    };
    let proj_id = match required_string(map, "proj_id") {
        Ok(v) => v,
        Err(e) => {
            return Err(e);
        },
    };
    let projection = match required_string_map(map, "projection") {
        Ok(v) => v,
        Err(e) => {
            return Err(e);
        },
    };
    let height: usize = match required_usize(map, "height") {
        Ok(v) => v,
        Err(e) => {
            return Err(e);
        },
    };
    let width: usize = match required_usize(map, "width") {
        Ok(v) => v,
        Err(e) => {
            return Err(e);
        },
    };
    let extent = match required_f64_array4(map, "area_extent") {
        Ok(v) => v,
        Err(e) => {
            return Err(e);
        },
    };
    assert(numbers_in(map@["area_extent"@]->List_0, extent@));
    AreaDefinition::from_parts(
        id.as_str(),
        description.as_str(),
        proj_id.as_str(),
        projection,
        height,
        width,
        extent,
    )
}

proof fn lemma_attr_names()
    ensures
        "type"@.len() == 4,
        "id"@.len() == 2,
        "description"@.len() == 11,
        "proj_id"@.len() == 7,
        "projection"@.len() == 10,
        "height"@.len() == 6,
        "width"@.len() == 5,
        "area_extent"@.len() == 11,
        "description"@ != "area_extent"@,
{
    reveal_strlit("type");
    reveal_strlit("id");
    reveal_strlit("description");
    reveal_strlit("proj_id");
    reveal_strlit("projection");
    reveal_strlit("height");
    reveal_strlit("width");
    reveal_strlit("area_extent");
    assert("description"@[0] == 'd' && "area_extent"@[0] == 'a');
}

/// An area that is written as a value and read again is the same area.
pub proof fn lemma_area_round_trip(
    a: AreaView,
    r: Result<AreaDefinition>,
)
    requires
        area_ok(a),
        area_table_error(a) is None,
        area_value_outcome(r, MetadataTree::Table(area_table(a))),
    ensures
        r is Ok,
        r->Ok_0@ == a,
{
    lemma_attr_names();
    let m = area_table(a);
    assert(m["type"@] == MetadataTree::Text("area"@));
    assert(m["id"@] == MetadataTree::Text(a.id));
    assert(m["description"@] == MetadataTree::Text(a.description));
    assert(m["proj_id"@] == MetadataTree::Text(a.proj_id));
    assert(m["projection"@] == MetadataTree::Table(as_values(a.projection)));
    assert(m["height"@] == MetadataTree::Integer(a.height as i64));
    assert(m["width"@] == MetadataTree::Integer(a.width as i64));
    let list = m["area_extent"@]->List_0;
    assert(list == extent_values(a.extent));
    assert(list.len() == 4);
    assert forall|i: int| 0 <= i < 4 implies is_number(#[trigger] list[i]) by {
        assert(list[i] == MetadataTree::Float(a.extent[i]));
    }
    assert(texts_in(as_values(a.projection)) =~= a.projection);
    assert forall|k: Seq<char>| as_values(a.projection).contains_key(k) implies #[trigger]
    as_values(a.projection)[k] is Text by {}
    assert(area_value_error(MetadataTree::Table(m)) is None);
    let extent = choose|extent: Seq<F64>| #[trigger]
        numbers_in(m["area_extent"@]->List_0, extent) && area_outcome(
            r,
            m["id"@]->Text_0,
            m["description"@]->Text_0,
            m["proj_id"@]->Text_0,
            texts_in(m["projection"@]->Table_0),
            m["height"@]->Integer_0 as usize,
            m["width"@]->Integer_0 as usize,
            extent,
        );
    assert forall|i: int| 0 <= i < 4 implies extent[i] == a.extent[i] by {
        assert(number_in(list[i], extent[i]));
    }
    assert(extent =~= a.extent);
}

/// Gives a data set the area as one of its values.
pub fn set_dataset_area_attr(dataset: &mut Dataset, area: &AreaDefinition) -> (r: Result<()>)
    ensures
        match area_table_error(area@) {
            Some(e) => fails_with(r, e) && final(dataset)@ == old(dataset)@,
            None => r is Ok && final(dataset)@ == with_area(old(dataset)@, area@),
        },
{
    match area_to_metadata_value(area) {
        Ok(value) => {
            dataset.insert_attr(AREA_ATTR_KEY, value);
            Ok(())
        },
        Err(e) => Err(e),
    }
}

/// A data set with an area as one of its values.
pub open spec fn with_area(d: DatasetView, a: AreaView) -> DatasetView {
    DatasetView { attrs: d.attrs.insert("area"@, MetadataTree::Table(area_table(a))), ..d }
}

/// The data set with the area as one of its values.
pub fn with_area_attr(dataset: Dataset, area: &AreaDefinition) -> (r: Result<Dataset>)
    ensures
        match area_table_error(area@) {
            Some(e) => fails_with(r, e),
            None => r is Ok && r->Ok_0@ == with_area(dataset@, area@),
        },
{
    let mut out = dataset;
    match set_dataset_area_attr(&mut out, area) {
        Ok(()) => Ok(out),
        Err(e) => Err(e),
    }
}

/// The first coordinate with one of three names, where there is one.
pub open spec fn first_coordinate(
    coords: Map<Seq<char>, CoordinateView>,
    a: Seq<char>,
    b: Seq<char>,
    c: Seq<char>,
) -> Option<CoordinateView> {
    if coords.contains_key(a) {
        Some(coords[a])
    } else if coords.contains_key(b) {
        Some(coords[b])
    } else if coords.contains_key(c) {
        Some(coords[c])
    } else {
        None
    }
}

/// The values of the first coordinate with one of three names.
fn coordinate_values(array: &AnyDataArray, a: &str, b: &str, c: &str) -> (r: Result<Vec<F64>>)
    ensures
        match first_coordinate(array@.coords(), a@, b@, c@) {
            Some(v) => r is Ok && r->Ok_0@ == v.values,
            None => is_missing(r, "coordinate '"@ + a@ + "'"@),
        },
{
    let found = match array.coord(a) {
        Some(v) => Some(v),
        None => match array.coord(b) {
            Some(v) => Some(v),
            None => array.coord(c),
        },
    };
    match found {
        Some(v) => Ok(copy_values(v.values())),
        None => {
            let text = join3("coordinate '", a, "'");
            Err(RustySatError::not_found(text.as_str()))
        },
    }
}

/// The size of the plane of an array.
pub open spec fn plane_in(v: AnyArrayView) -> (usize, usize) {
    (
        v.shape()[position_in(v.dims(), "y"@) as int],
        v.shape()[position_in(v.dims(), "x"@) as int],
    )
}

/// Whether `r` is the swath of the positions among the coordinates of a data set, or the
/// first obstacle.
pub open spec fn swath_coords_outcome(r: Result<SwathDefinition>, d: DatasetView) -> bool {
    match d.array {
        None => is_missing(
            r,
            "source geometry attrs or lon/lat coordinates for dataset '"@ + d.name + "'"@,
        ),
        Some(v) => if plane_error(v.dims()) is Some {
            fails_with(r, plane_error(v.dims())->Some_0)
        } else {
            let lons = first_coordinate(v.coords(), "longitude"@, "lon"@, "lons"@);
            let lats = first_coordinate(v.coords(), "latitude"@, "lat"@, "lats"@);
            if lons is None {
                is_missing(r, "coordinate '"@ + "longitude"@ + "'"@)
            } else if lats is None {
                is_missing(r, "coordinate '"@ + "latitude"@ + "'"@)
            } else {
                crate::swath::swath_outcome(
                    r,
                    plane_in(v).0,
                    plane_in(v).1,
                    lons->Some_0.values,
                    lats->Some_0.values,
                )
            }
        },
    }
}

fn swath_geometry_from_dataset_coords(dataset: &Dataset) -> (r: Result<SwathDefinition>)
    ensures
        swath_coords_outcome(r, dataset@),
{
    let array = match dataset.array() {
        Some(a) => a,
        None => {
            let text = join3(
                "source geometry attrs or lon/lat coordinates for dataset '",
                dataset.id().name(),
                "'",
            );
            return Err(RustySatError::not_found(text.as_str()));
        },
    };
    let (height, width) = match array.shape_yx() {
        Ok(p) => p,
        Err(e) => {
            return Err(e);
        },
    };
    let lons = match coordinate_values(array, "longitude", "lon", "lons") {
        Ok(v) => v,
        Err(e) => {
            return Err(e);
        },
    };
    let lats = match coordinate_values(array, "latitude", "lat", "lats") {
        Ok(v) => v,
        Err(e) => {
            return Err(e);
        },
    };
    SwathDefinition::from_lonlats(height, width, lons, lats)
}

/// Whether `r` is the geometry of a data set, or the first obstacle: its area, where it
/// has one, else the swath of its coordinates.
pub open spec fn geometry_outcome(
    r: Result<SourceGeometry>,
    d: DatasetView,
) -> bool {
    if d.attrs.contains_key("area"@) {
        exists|a: Result<AreaDefinition>| #[trigger]
            area_value_outcome(a, d.attrs["area"@]) && match a {
                Ok(area) => r is Ok && r->Ok_0@ == GeometryView::Area(area@),
                Err(e) => fails_with(r, e@),
            }
    } else {
        exists|s: Result<SwathDefinition>| #[trigger]
            swath_coords_outcome(s, d) && match s {
                Ok(swath) => r is Ok && r->Ok_0@ == GeometryView::Swath(swath@),
                Err(e) => fails_with(r, e@),
            }
    }
}

/// The geometry of a data set.
pub fn source_geometry_from_dataset(dataset: &Dataset) -> (r: Result<
    SourceGeometry,
>)
    ensures
        geometry_outcome(r, dataset@),
{
    match dataset.attr(AREA_ATTR_KEY) {
        Some(value) => {
            let a = area_from_metadata_value(value);
            assert(area_value_outcome(a, dataset@.attrs["area"@]));
            match a {
                Ok(area) => Ok(SourceGeometry::Area(area)),
                Err(e) => Err(e),
            }
        },
        None => {
            let s = swath_geometry_from_dataset_coords(dataset);
            assert(swath_coords_outcome(s, dataset@));
            match s {
                Ok(swath) => Ok(SourceGeometry::Swath(swath)),
                Err(e) => Err(e),
            }
        },
    }
}

/// A data set that is given an area has that area as its geometry.
pub proof fn lemma_area_attr_round_trip(
    d: DatasetView,
    a: AreaView,
    r: Result<SourceGeometry>,
)
    requires
        area_ok(a),
        area_table_error(a) is None,
        geometry_outcome(r, with_area(d, a)),
    ensures
        r is Ok,
        r->Ok_0@ == GeometryView::Area(a),
{
    let given = with_area(d, a);
    assert(given.attrs["area"@] == MetadataTree::Table(area_table(a)));
    let area = choose|area: Result<AreaDefinition>| #[trigger]
        area_value_outcome(area, given.attrs["area"@]) && match area {
            Ok(x) => r is Ok && r->Ok_0@ == GeometryView::Area(x@),
            Err(e) => fails_with(r, e@),
        };
    lemma_area_round_trip(a, area);
}

/// Whether `r` is a data set on the destination, from the geometry that describes it, or
/// the first obstacle. `given` tells that the data set was given away.
pub open spec fn attrs_outcome<
    K: ResampleArithmetic,
    F: Fn(&PreparedResampler, &AreaDefinition) -> K,
    C: SliceArithmetic,
>(
    r: Result<Dataset>,
    d: DatasetView,
    destination: &AreaDefinition,
    o: OptionsView,
    given: bool,
    arithmetic: F,
    c: C,
) -> bool {
    exists|g: Result<SourceGeometry>| #[trigger]
        geometry_outcome(g, d) && match g {
            Err(e) => fails_with(r, e@),
            Ok(SourceGeometry::Area(area)) => area_outcome_of(
                r,
                d,
                area@,
                destination,
                o,
                given,
                arithmetic,
                c,
            ),
            Ok(SourceGeometry::Swath(swath)) => runs(
                r,
                prepared(GeometryView::Swath(swath@), o),
                d,
                destination,
                given,
                arithmetic,
            ),
        }
}

/// As `attrs_outcome`, with a resampler from the cache; `after` is the cache then.
pub open spec fn attrs_outcome_cached<
    K: ResampleArithmetic,
    F: Fn(&PreparedResampler, &AreaDefinition) -> K,
    C: SliceArithmetic,
>(
    r: Result<Dataset>,
    entries: Seq<CachedView>,
    after: Seq<CachedView>,
    d: DatasetView,
    destination: &AreaDefinition,
    o: OptionsView,
    given: bool,
    arithmetic: F,
    c: C,
) -> bool {
    exists|g: Result<SourceGeometry>| #[trigger]
        geometry_outcome(g, d) && match g {
            Err(e) => fails_with(r, e@) && after == entries,
            Ok(SourceGeometry::Area(area)) => area_outcome_cached(
                r,
                entries,
                after,
                d,
                area@,
                destination,
                o,
                given,
                arithmetic,
                c,
            ),
            Ok(SourceGeometry::Swath(swath)) => {
                &&& runs(
                    r,
                    cached_or_prepared(entries, GeometryView::Swath(swath@), destination@, o),
                    d,
                    destination,
                    given,
                    arithmetic,
                )
                &&& after == cache_after(
                    entries,
                    GeometryView::Swath(swath@),
                    destination@,
                    o,
                )
            },
        }
}

/// Whether a data set can be put on a destination from the geometry that describes it.
pub open spec fn attrs_fit(d: DatasetView, o: OptionsView) -> bool {
    forall|g: Result<SourceGeometry>| #[trigger]
        geometry_outcome(g, d) ==> match g {
            Err(_) => true,
            Ok(SourceGeometry::Area(area)) => area_fits(
                prepared(GeometryView::Area(area@), o),
                d,
                o,
            ),
            Ok(SourceGeometry::Swath(swath)) => fits(prepared(GeometryView::Swath(swath@), o), d),
        }
}

/// As `attrs_fit`, with a resampler from the cache.
pub open spec fn attrs_fit_cached(
    entries: Seq<CachedView>,
    d: DatasetView,
    destination: AreaView,
    o: OptionsView,
) -> bool {
    forall|g: Result<SourceGeometry>| #[trigger]
        geometry_outcome(g, d) ==> match g {
            Err(_) => true,
            Ok(SourceGeometry::Area(area)) => area_fits(
                cached_or_prepared(entries, GeometryView::Area(area@), destination, o),
                d,
                o,
            ),
            Ok(SourceGeometry::Swath(swath)) => fits(
                cached_or_prepared(entries, GeometryView::Swath(swath@), destination, o),
                d,
            ),
        }
}

/// A data set on the destination, from the geometry that describes it. `arithmetic` gives the
/// functions of numbers for a resampler and a destination, `cuts` are those for parts of
/// areas.
pub fn resample_dataset_from_attrs<
    K: ResampleArithmetic,
    F: Fn(&PreparedResampler, &AreaDefinition) -> K,
    C: SliceArithmetic,
>(
    dataset: &Dataset,
    destination: &AreaDefinition,
    options: ResampleOptions,
    arithmetic: &F,
    cuts: &C,
) -> (r: Result<Dataset>)
    requires
        attrs_fit(dataset@, options@),
        gives_functions(*arithmetic),
        slices_all(*cuts),
    ensures
        attrs_outcome(
            r,
            dataset@,
            destination,
            options@,
            false,
            *arithmetic,
            *cuts,
        ),
{
    let g = source_geometry_from_dataset(dataset);
    assert(geometry_outcome(g, dataset@));
    match g {
        Ok(SourceGeometry::Area(area)) => resample_dataset(
            dataset,
            area,
            destination,
            options,
            arithmetic,
            cuts,
        ),
        Ok(SourceGeometry::Swath(swath)) => resample_dataset_from_geometry(
            dataset,
            SourceGeometry::Swath(swath),
            destination,
            options,
            arithmetic,
        ),
        Err(e) => Err(e),
    }
}

/// As `resample_dataset_from_attrs`, with a resampler from the cache.
pub fn resample_dataset_from_attrs_cached<
    K: ResampleArithmetic,
    F: Fn(&PreparedResampler, &AreaDefinition) -> K,
    C: SliceArithmetic,
>(
    cache: &mut ResamplerCache,
    dataset: &Dataset,
    destination: &AreaDefinition,
    options: ResampleOptions,
    arithmetic: &F,
    cuts: &C,
) -> (r: Result<Dataset>)
    requires
        attrs_fit_cached(old(cache)@, dataset@, destination@, options@),
        gives_functions(*arithmetic),
        slices_all(*cuts),
    ensures
        attrs_outcome_cached(
            r,
            old(cache)@,
            final(cache)@,
            dataset@,
            destination,
            options@,
            false,
            *arithmetic,
            *cuts,
        ),
{
    let g = source_geometry_from_dataset(dataset);
    assert(geometry_outcome(g, dataset@));
    match g {
        Ok(SourceGeometry::Area(area)) => resample_dataset_cached(
            cache,
            dataset,
            area,
            destination,
            options,
            arithmetic,
            cuts,
        ),
        Ok(SourceGeometry::Swath(swath)) => resample_dataset_from_geometry_cached(
            cache,
            dataset,
            SourceGeometry::Swath(swath),
            destination,
            options,
            arithmetic,
        ),
        Err(e) => Err(e),
    }
}

/// As `resample_dataset_from_attrs`, for a data set that is given away.
pub fn resample_dataset_owned_from_attrs<
    K: ResampleArithmetic,
    F: Fn(&PreparedResampler, &AreaDefinition) -> K,
    C: SliceArithmetic,
>(
    dataset: Dataset,
    destination: &AreaDefinition,
    options: ResampleOptions,
    arithmetic: &F,
    cuts: &C,
) -> (r: Result<Dataset>)
    requires
        attrs_fit(dataset@, options@),
        gives_functions(*arithmetic),
        slices_all(*cuts),
    ensures
        attrs_outcome(
            r,
            dataset@,
            destination,
            options@,
            true,
            *arithmetic,
            *cuts,
        ),
{
    let g = source_geometry_from_dataset(&dataset);
    assert(geometry_outcome(g, dataset@));
    match g {
        Ok(SourceGeometry::Area(area)) => resample_dataset_owned(
            dataset,
            area,
            destination,
            options,
            arithmetic,
            cuts,
        ),
        Ok(SourceGeometry::Swath(swath)) => resample_dataset_owned_from_geometry(
            dataset,
            SourceGeometry::Swath(swath),
            destination,
            options,
            arithmetic,
        ),
        Err(e) => Err(e),
    }
}

/// As `resample_dataset_from_attrs_cached`, for a data set that is given away.
pub fn resample_dataset_owned_from_attrs_cached<
    K: ResampleArithmetic,
    F: Fn(&PreparedResampler, &AreaDefinition) -> K,
    C: SliceArithmetic,
>(
    cache: &mut ResamplerCache,
    dataset: Dataset,
    destination: &AreaDefinition,
    options: ResampleOptions,
    arithmetic: &F,
    cuts: &C,
) -> (r: Result<Dataset>)
    requires
        attrs_fit_cached(old(cache)@, dataset@, destination@, options@),
        gives_functions(*arithmetic),
        slices_all(*cuts),
    ensures
        attrs_outcome_cached(
            r,
            old(cache)@,
            final(cache)@,
            dataset@,
            destination,
            options@,
            true,
            *arithmetic,
            *cuts,
        ),
{
    let g = source_geometry_from_dataset(&dataset);
    assert(geometry_outcome(g, dataset@));
    match g {
        Ok(SourceGeometry::Area(area)) => resample_dataset_owned_cached(
            cache,
            dataset,
            area,
            destination,
            options,
            arithmetic,
            cuts,
        ),
        Ok(SourceGeometry::Swath(swath)) => resample_dataset_owned_from_geometry_cached(
            cache,
            dataset,
            SourceGeometry::Swath(swath),
            destination,
            options,
            arithmetic,
        ),
        Err(e) => Err(e),
    }
}

} // verus!
