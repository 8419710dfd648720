//! Data sets: an array with a name and what describes it.

use crate::area::AreaGridView;
use crate::array::{AnyArrayView, AnyDataArray, ArrayView, DataGrid};
use crate::error::{is_invalid, Result, RustySatError};
use crate::metadata::{MetadataTree, MetadataValue};
use crate::number::F64;
use crate::text::{owned, trim_text, trimmed};
use crate::text_map::TextMap;
use vstd::prelude::*;

verus! {

/// The name of a data set.
#[derive(Debug, PartialEq, Eq)]
pub struct DataId {
    name: String,
}

impl View for DataId {
    type V = Seq<char>;

    closed spec fn view(&self) -> Seq<char> {
        self.name@
    }
}

impl DataId {
    pub fn new(name: &str) -> (r: Result<Self>)
        ensures
            trimmed(name@).len() == 0 ==> is_invalid(r, "data id name cannot be empty"@),
            trimmed(name@).len() > 0 ==> r is Ok && r->Ok_0@ == name@,
    {
        if trim_text(name).as_str().is_empty() {
            return Err(RustySatError::invalid_input("data id name cannot be empty"));
        }
        Ok(DataId { name: owned(name) })
    }

    pub fn name(&self) -> (r: &str)
        ensures
            r@ == self@,
    {
        self.name.as_str()
    }

    pub fn copy(&self) -> (r: Self)
        ensures
            r@ == self@,
    {
        DataId { name: owned(self.name.as_str()) }
    }
}

impl Clone for DataId {
    fn clone(&self) -> (r: Self)
        ensures
            r@ == self@,
    {
        self.copy()
    }
}

/// A data set as a mathematical value.
#[verifier::ext_equal]
pub struct DatasetView {
    pub name: Seq<char>,
    pub array: Option<AnyArrayView>,
    pub metadata: Map<Seq<char>, Seq<char>>,
    pub attrs: Map<Seq<char>, MetadataTree>,
}

/// An array with a name and what describes it: texts, and values of any kind.
#[derive(Debug, PartialEq)]
pub struct Dataset {
    id: DataId,
    array: Option<AnyDataArray>,
    metadata: TextMap<String>,
    attrs: TextMap<MetadataValue>,
}

/// The array of a data set, where there is one.
pub open spec fn array_view(array: Option<AnyDataArray>) -> Option<AnyArrayView> {
    match array {
        Some(a) => Some(a@),
        None => None,
    }
}

impl View for Dataset {
    type V = DatasetView;

    closed spec fn view(&self) -> DatasetView {
        DatasetView {
            name: self.id@,
            array: array_view(self.array),
            metadata: self.metadata@,
            attrs: self.attrs@,
        }
    }
}

/// The grid of 64-bit numbers of a data set, where it has one.
pub open spec fn grid_of(d: DatasetView) -> Option<ArrayView<F64>> {
    match d.array {
        Some(AnyArrayView::F64(a)) => Some(a),
        _ => None,
    }
}

/// A data set with one more text, which is one of its values too.
pub open spec fn with_text(d: DatasetView, key: Seq<char>, value: Seq<char>) -> DatasetView {
    DatasetView {
        metadata: d.metadata.insert(key, value),
        attrs: d.attrs.insert(key, MetadataTree::Text(value)),
        ..d
    }
}

/// Texts as values.
pub open spec fn as_values(texts: Map<Seq<char>, Seq<char>>) -> Map<Seq<char>, MetadataTree> {
    texts.map_values(|t: Seq<char>| MetadataTree::Text(t))
}

/// A data set with another array and the descriptions of `d`.
pub open spec fn described(d: DatasetView, array: Option<AnyArrayView>) -> DatasetView {
    DatasetView {
        name: d.name,
        array,
        metadata: d.metadata,
        attrs: as_values(d.metadata).union_prefer_right(d.attrs),
    }
}

/// The result of a resampling: another array with the descriptions of `d`, and with the
/// names of the area and of the resampler.
pub open spec fn resampled(
    d: DatasetView,
    array: AnyArrayView,
    area: Seq<char>,
    resampler: Seq<char>,
) -> DatasetView {
    with_text(with_text(described(d, Some(array)), "area"@, area), "resampler"@, resampler)
}

impl Dataset {
    pub fn new(id: DataId) -> (r: Self)
        ensures
            r@ == (DatasetView {
                name: id@,
                array: None,
                metadata: Map::empty(),
                attrs: Map::empty(),
            }),
    {
        Dataset { id, array: None, metadata: TextMap::new(), attrs: TextMap::new() }
    }

    pub fn with_array(self, array: AnyDataArray) -> (r: Self)
        ensures
            r@ == (DatasetView { array: Some(array@), ..self@ }),
    {
        Dataset { id: self.id, array: Some(array), metadata: self.metadata, attrs: self.attrs }
    }

    pub fn with_data(self, grid: DataGrid) -> (r: Self)
        ensures
            r@ == (DatasetView { array: Some(AnyArrayView::F64(grid@)), ..self@ }),
    {
        self.with_array(AnyDataArray::F64(grid))
    }

    pub fn id(&self) -> (r: &DataId)
        ensures
            r@ == self@.name,
    {
        &self.id
    }

    pub fn array(&self) -> (r: Option<&AnyDataArray>)
        ensures
            r is Some == self@.array is Some,
            r is Some ==> r->Some_0@ == self@.array->Some_0,
    {
        match &self.array {
            Some(a) => Some(a),
            None => None,
        }
    }

    /// The grid of 64-bit numbers, where the array is one.
    pub fn data(&self) -> (r: Option<&DataGrid>)
        ensures
            r is Some == grid_of(self@) is Some,
            r is Some ==> r->Some_0@ == grid_of(self@)->Some_0,
    {
        match &self.array {
            Some(a) => a.as_f64(),
            None => None,
        }
    }

    pub fn metadata(&self) -> (r: &TextMap<String>)
        ensures
            r@ == self@.metadata,
    {
        &self.metadata
    }

    pub fn attrs(&self) -> (r: &TextMap<MetadataValue>)
        ensures
            r@ == self@.attrs,
    {
        &self.attrs
    }

    pub fn attr(&self, name: &str) -> (r: Option<&MetadataValue>)
        ensures
            r is Some == self@.attrs.contains_key(name@),
            r is Some ==> r->Some_0@ == self@.attrs[name@],
    {
        self.attrs.get(name)
    }

    /// Gives the data set a text, which is one of its values too.
    pub fn insert_metadata(&mut self, key: &str, value: &str)
        ensures
            final(self)@ == with_text(old(self)@, key@, value@),
    {
        self.metadata.insert(owned(key), owned(value));
        self.attrs.insert(owned(key), MetadataValue::string(value));
        assert(self@ =~= with_text(old(self)@, key@, value@));
    }

    pub fn insert_attr(&mut self, key: &str, value: MetadataValue)
        ensures
            final(self)@ == (DatasetView {
                attrs: old(self)@.attrs.insert(key@, value@),
                ..old(self)@
            }),
    {
        self.attrs.insert(owned(key), value);
    }

    pub fn into_array(self) -> (r: Option<AnyDataArray>)
        ensures
            array_view(r) == self@.array,
    {
        self.array
    }

    pub fn copy(&self) -> (r: Self)
        ensures
            r@ == self@,
    {
        let array = match &self.array {
            Some(a) => Some(a.copy()),
            None => None,
        };
        Dataset {
            id: self.id.copy(),
            array,
            metadata: self.metadata.copy(),
            attrs: self.attrs.copy(),
        }
    }

    /// A data set with another array and the descriptions of this one.
    pub fn with_descriptions_of(source: &Dataset, array: AnyDataArray) -> (r: Self)
        ensures
            r@ == described(source@, Some(array@)),
    {
        let ghost texts = source.metadata@;
        let ghost values = source.attrs@;
        let mut attrs: TextMap<MetadataValue> = TextMap::new();
        let n: usize = source.metadata.len();
        let ghost keys = source.metadata.keys();
        proof {
            use_type_invariant(&source.metadata);
            use_type_invariant(&source.attrs);
        }
        let mut i: usize = 0;
        while i < n
            invariant
                i <= n,
                n == keys.len(),
                keys == source.metadata.keys(),
                texts == source.metadata@,
                forall|k: Seq<char>| #[trigger]
                    attrs@.contains_key(k) ==> texts.contains_key(k) && attrs@[k]
                        == MetadataTree::Text(texts[k]),
                forall|j: int| 0 <= j < i ==> attrs@.contains_key(#[trigger] keys[j]),
            decreases n - i,
        {
            let key = source.metadata.key_at(i);
            let value = source.metadata.value_at(i);
            attrs.insert(owned(key.as_str()), MetadataValue::string(value.as_str()));
            i = i + 1;
        }
        proof {
            assert forall|k: Seq<char>| texts.contains_key(k) implies #[trigger] attrs@.contains_key(
                k,
            ) by {
                assert(keys.to_set().contains(k));
            }
            assert(attrs@ =~= as_values(texts));
        }
        let m: usize = source.attrs.len();
        let ghost names = source.attrs.keys();
        let mut j: usize = 0;
        while j < m
            invariant
                j <= m,
                m == names.len(),
                names == source.attrs.keys(),
                values == source.attrs@,
                forall|k: Seq<char>| #[trigger]
                    attrs@.contains_key(k) ==> (values.contains_key(k) && attrs@[k] == values[k])
                        || (texts.contains_key(k) && attrs@[k] == MetadataTree::Text(texts[k])),
                forall|k: Seq<char>| texts.contains_key(k) ==> #[trigger] attrs@.contains_key(k),
                forall|i: int|
                    0 <= i < j ==> attrs@.contains_key(#[trigger] names[i]) && attrs@[names[i]]
                        == values[names[i]],
            decreases m - j,
        {
            let key = source.attrs.key_at(j);
            let value = source.attrs.value_at(j).copy();
            attrs.insert(owned(key.as_str()), value);
            j = j + 1;
        }
        proof {
            let want = as_values(texts).union_prefer_right(values);
            assert forall|k: Seq<char>| values.contains_key(k) implies #[trigger]
            attrs@.contains_key(k) && attrs@[k] == values[k] by {
                assert(names.to_set().contains(k));
                let i = choose|i: int| 0 <= i < names.len() && names[i] == k;
                assert(attrs@.contains_key(names[i]));
            }
            assert(attrs@ =~= want);
        }
        Dataset {
            id: source.id.copy(),
            array: Some(array),
            metadata: source.metadata.copy(),
            attrs,
        }
    }

    /// The result of a resampling.
    pub fn resampled_from(source: &Dataset, array: AnyDataArray, area: &str, resampler: &str) -> (r:
        Self)
        ensures
            r@ == resampled(source@, array@, area@, resampler@),
    {
        let mut out = Self::with_descriptions_of(source, array);
        out.insert_metadata("area", area);
        out.insert_metadata("resampler", resampler);
        out
    }
}

impl Clone for Dataset {
    fn clone(&self) -> (r: Self)
        ensures
            r@ == self@,
    {
        self.copy()
    }
}

/// Whether a data set is another one on an area: it has its name and its descriptions, but for
/// the names of the area and of the resampler, each both as a text and as a value.
pub open spec fn is_on_area(
    out: DatasetView,
    d: DatasetView,
    g: AreaGridView,
    resampler: Seq<char>,
) -> bool {
    &&& out.name == d.name
    &&& out.metadata.dom() == d.metadata.dom().insert("area"@).insert("resampler"@)
    &&& out.metadata["area"@] == g.area.id
    &&& out.metadata["resampler"@] == resampler
    &&& out.attrs["area"@] == MetadataTree::Text(g.area.id)
    &&& out.attrs["resampler"@] == MetadataTree::Text(resampler)
    &&& forall|k: Seq<char>|
        k != "area"@ && k != "resampler"@ && #[trigger] d.metadata.contains_key(k)
            ==> out.metadata[k] == d.metadata[k]
    &&& forall|k: Seq<char>|
        k != "area"@ && k != "resampler"@ ==> (#[trigger] out.attrs.contains_key(k) <==> (
        d.attrs.contains_key(k) || d.metadata.contains_key(k)))
    &&& forall|k: Seq<char>|
        k != "area"@ && k != "resampler"@ && #[trigger] d.attrs.contains_key(k) ==> out.attrs[k]
            == d.attrs[k]
    &&& forall|k: Seq<char>|
        k != "area"@ && k != "resampler"@ && !d.attrs.contains_key(k)
            && #[trigger] d.metadata.contains_key(k) ==> out.attrs[k] == MetadataTree::Text(
            d.metadata[k],
        )
}

/// The result of a resampling keeps the descriptions of the data set.
pub proof fn lemma_resampled(
    d: DatasetView,
    array: AnyArrayView,
    g: AreaGridView,
    resampler: Seq<char>,
)
    ensures
        is_on_area(resampled(d, array, g.area.id, resampler), d, g, resampler),
        resampled(d, array, g.area.id, resampler).array == Some(array),
{
    reveal_strlit("area");
    reveal_strlit("resampler");
    assert("area"@.len() != "resampler"@.len());
    let out = resampled(d, array, g.area.id, resampler);
    assert(out.metadata.dom() =~= d.metadata.dom().insert("area"@).insert("resampler"@));
}

} // verus!
