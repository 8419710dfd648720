//! GeoTIFF keys: their numbers, and their layout in a TIFF file.

use crate::bytes::{
    all16, all64, bytes64, le16, le64, lemma_all16, lemma_all64, push_bytes, push_u16, text_bytes,
};
use crate::number::F64;
use crate::text::owned;
use vstd::prelude::*;
use vstd::utf8::encode_utf8;

verus! {

// The tags that hold the parameters of the keys.
pub const TIFFTAG_GEO_ASCII_PARAMS: u16 = 34737;

pub const TIFFTAG_GEO_DOUBLE_PARAMS: u16 = 34736;

// The header of the directory of keys.
pub const GEO_KEY_DIRECTORY_VERSION: u16 = 1;

pub const GEO_KEY_REVISION: u16 = 1;

pub const GEO_KEY_MINOR_REVISION: u16 = 0;

// The kind of the model.
pub const GT_MODEL_TYPE_GEO_KEY: u16 = 1024;

pub const MODEL_TYPE_PROJECTED: u16 = 1;

pub const MODEL_TYPE_GEOGRAPHIC: u16 = 2;

// The kind of the raster.
pub const GT_RASTER_TYPE_GEO_KEY: u16 = 1025;

pub const RASTER_PIXEL_IS_AREA: u16 = 1;

// Geographic reference systems.
pub const GEOGRAPHIC_TYPE_GEO_KEY: u16 = 2048;

pub const GEOG_CITATION_GEO_KEY: u16 = 2049;

pub const GEOG_GEODETIC_DATUM_GEO_KEY: u16 = 2050;

pub const GEOG_ANGULAR_UNITS_GEO_KEY: u16 = 2054;

pub const GEOG_SEMI_MAJOR_AXIS_GEO_KEY: u16 = 2057;

pub const GEOG_SEMI_MINOR_AXIS_GEO_KEY: u16 = 2058;

pub const GEOG_INV_FLATTENING_GEO_KEY: u16 = 2059;

// Projected reference systems.
pub const PROJECTED_CS_TYPE_GEO_KEY: u16 = 3072;

pub const PROJECTED_CITATION_GEO_KEY: u16 = 3073;

pub const PROJ_COORD_TRANS_GEO_KEY: u16 = 3075;

pub const PROJ_LINEAR_UNITS_GEO_KEY: u16 = 3076;

pub const PROJ_NAT_ORIGIN_LAT_GEO_KEY: u16 = 3081;

pub const PROJ_NAT_ORIGIN_LONG_GEO_KEY: u16 = 3080;

pub const PROJ_FALSE_EASTING_GEO_KEY: u16 = 3084;

pub const PROJ_FALSE_NORTHING_GEO_KEY: u16 = 3085;

pub const PROJ_CENTER_LONG_GEO_KEY: u16 = 3088;

pub const PROJ_CENTER_LAT_GEO_KEY: u16 = 3089;

pub const PROJ_SEMI_MAJOR_AXIS_GEO_KEY: u16 = 3089;

pub const PROJ_SEMI_MINOR_AXIS_GEO_KEY: u16 = 3090;

pub const PROJ_INV_FLATTENING_GEO_KEY: u16 = 3091;

// Coordinate transformations.
pub const CT_MERCATOR: u16 = 7;

pub const CT_LAMBERT_AZIMUTHAL_EQUAL_AREA: u16 = 10;

pub const CT_STEREOGRAPHIC: u16 = 14;

pub const CT_POLAR_STEREOGRAPHIC: u16 = 15;

pub const CT_GEOSTATIONARY_SATELLITE: u16 = 28;

// Units.
pub const LINEAR_UNIT_METER: u16 = 9001;

pub const ANGULAR_UNIT_DEGREE: u16 = 9102;

// Codes of an authority.
pub const EPSG_WGS_84: u16 = 4326;

pub const EPSG_DATUM_WGS_84: u16 = 6326;

// The value that stands for "defined by the user".
pub const GEO_USER_DEFINED: u16 = 32767;

/// The value of a key.
#[derive(Clone, Debug, PartialEq)]
pub enum GeoKeyValue {
    /// Stands in the directory itself.
    Short(u16),
    /// Stands among the texts.
    Ascii(String),
    /// Stands among the floating-point numbers.
    Double(F64),
}

/// The value of a key as a mathematical value.
pub enum KeyValueView {
    Short(u16),
    Ascii(Seq<char>),
    Double(F64),
}

impl View for GeoKeyValue {
    type V = KeyValueView;

    open spec fn view(&self) -> KeyValueView {
        match *self {
            GeoKeyValue::Short(v) => KeyValueView::Short(v),
            GeoKeyValue::Ascii(s) => KeyValueView::Ascii(s@),
            GeoKeyValue::Double(v) => KeyValueView::Double(v),
        }
    }
}

/// A key with its value.
#[derive(Debug, PartialEq)]
pub struct GeoKeyDef {
    pub key_id: u16,
    pub value: GeoKeyValue,
}

/// A key with its value, as a mathematical value.
pub struct KeyView {
    pub key_id: u16,
    pub value: KeyValueView,
}

impl View for GeoKeyDef {
    type V = KeyView;

    open spec fn view(&self) -> KeyView {
        KeyView { key_id: self.key_id, value: self.value@ }
    }
}

/// A list of keys as a mathematical value.
pub open spec fn keys_view(defs: Seq<GeoKeyDef>) -> Seq<KeyView> {
    Seq::new(defs.len(), |i: int| defs[i]@)
}

impl GeoKeyDef {
    pub fn short(key_id: u16, value: u16) -> (r: Self)
        ensures
            r@ == (KeyView { key_id, value: KeyValueView::Short(value) }),
    {
        GeoKeyDef { key_id, value: GeoKeyValue::Short(value) }
    }

    pub fn ascii(key_id: u16, value: &str) -> (r: Self)
        ensures
            r@ == (KeyView { key_id, value: KeyValueView::Ascii(value@) }),
    {
        GeoKeyDef { key_id, value: GeoKeyValue::Ascii(owned(value)) }
    }

    pub fn double(key_id: u16, value: F64) -> (r: Self)
        ensures
            r@ == (KeyView { key_id, value: KeyValueView::Double(value) }),
    {
        GeoKeyDef { key_id, value: GeoKeyValue::Double(value) }
    }

    pub fn copy(&self) -> (r: Self)
        ensures
            r@ == self@,
    {
        let value = match &self.value {
            GeoKeyValue::Short(v) => GeoKeyValue::Short(*v),
            GeoKeyValue::Ascii(s) => GeoKeyValue::Ascii(owned(s.as_str())),
            GeoKeyValue::Double(v) => GeoKeyValue::Double(*v),
        };
        GeoKeyDef { key_id: self.key_id, value }
    }
}

impl Clone for GeoKeyDef {
    fn clone(&self) -> (r: Self)
        ensures
            r@ == self@,
    {
        self.copy()
    }
}

/// Keys laid out for a file.
#[derive(Clone, Debug, PartialEq)]
pub struct GeoTiffGeoKeyFinal {
    /// For each key its number, the tag that holds its value, a count and an offset.
    pub directory_entries: Vec<[u16; 4]>,
    /// The texts, each with a terminating `|`.
    pub ascii_params: Vec<u8>,
    /// The bytes of the floating-point numbers.
    pub double_params: Vec<u8>,
}

/// The byte behind each text.
pub const TEXT_END: u8 = 124;

/// The texts of keys, each with its end.
pub open spec fn text_params(defs: Seq<KeyView>) -> Seq<u8>
    decreases defs.len(),
{
    if defs.len() == 0 {
        Seq::empty()
    } else {
        let before = text_params(defs.drop_last());
        match defs.last().value {
            KeyValueView::Ascii(s) => (before + encode_utf8(s)).push(TEXT_END),
            _ => before,
        }
    }
}

/// The floating-point numbers of keys.
pub open spec fn number_params(defs: Seq<KeyView>) -> Seq<F64>
    decreases defs.len(),
{
    if defs.len() == 0 {
        Seq::empty()
    } else {
        let before = number_params(defs.drop_last());
        match defs.last().value {
            KeyValueView::Double(v) => before.push(v),
            _ => before,
        }
    }
}

/// The offset of a text: zero where it does not fit 32 bits, then reduced to 16 bits.
pub open spec fn text_offset(start: nat) -> u16 {
    if start <= u32::MAX {
        (start % 65536) as u16
    } else {
        0
    }
}

/// The largest count that 16 bits hold, for larger ones.
pub open spec fn capped_count(n: nat) -> u16 {
    if n <= u16::MAX {
        n as u16
    } else {
        u16::MAX
    }
}

/// The entry of the directory for a key that has these keys before it.
pub open spec fn entry_of(before: Seq<KeyView>, def: KeyView) -> Seq<u16> {
    match def.value {
        KeyValueView::Short(v) => seq![def.key_id, 0, 1, v],
        KeyValueView::Ascii(s) => seq![
            def.key_id,
            TIFFTAG_GEO_ASCII_PARAMS,
            capped_count(encode_utf8(s).len()),
            text_offset(text_params(before).len()),
        ],
        KeyValueView::Double(_) => seq![
            def.key_id,
            TIFFTAG_GEO_DOUBLE_PARAMS,
            1,
            (number_params(before).len() % 65536) as u16,
        ],
    }
}

/// The entries of a directory.
pub open spec fn entries_of(defs: Seq<KeyView>) -> Seq<Seq<u16>> {
    Seq::new(defs.len(), |i: int| entry_of(defs.take(i), defs[i]))
}

/// The entries of a laid out directory as a mathematical value.
pub open spec fn entries_view(entries: Seq<[u16; 4]>) -> Seq<Seq<u16>> {
    Seq::new(entries.len(), |i: int| entries[i]@)
}

/// The bytes of a list of entries.
pub open spec fn entry_bytes(entries: Seq<Seq<u16>>) -> Seq<u8>
    decreases entries.len(),
{
    if entries.len() == 0 {
        Seq::empty()
    } else {
        entry_bytes(entries.drop_last()) + all16(entries.last())
    }
}

/// The bytes of a directory: the header, then the entries.
pub open spec fn directory_bytes(entries: Seq<Seq<u16>>) -> Seq<u8> {
    all16(
        seq![
            GEO_KEY_DIRECTORY_VERSION,
            GEO_KEY_REVISION,
            GEO_KEY_MINOR_REVISION,
            capped_count(entries.len()),
        ],
    ) + entry_bytes(entries)
}

fn count_of(n: usize) -> (r: u16)
    ensures
        r == capped_count(n as nat),
{
    if n <= 65535 {
        n as u16
    } else {
        65535
    }
}

fn offset_of(n: usize) -> (r: u16)
    ensures
        r == text_offset(n as nat),
{
    if n as u64 <= 0xffff_ffff {
        (n % 65536) as u16
    } else {
        0
    }
}

impl GeoTiffGeoKeyFinal {
    /// The number of keys, at most what 16 bits hold.
    pub fn key_count(&self) -> (r: u16)
        ensures
            r == capped_count(self.directory_entries@.len()),
    {
        count_of(self.directory_entries.len())
    }
}

/// Lays out keys. Texts and floating-point numbers are gathered in the order of the
/// keys; a text is found by its first byte, a number by its place.
pub fn finalize_geo_key_defs(defs: &Vec<GeoKeyDef>) -> (r: GeoTiffGeoKeyFinal)
    requires
        defs@.len() <= u32::MAX,
    ensures
        entries_view(r.directory_entries@) == entries_of(keys_view(defs@)),
        r.ascii_params@ == text_params(keys_view(defs@)),
        r.double_params@ == all64(number_params(keys_view(defs@))),
{
    let ghost keys = keys_view(defs@);
    let mut entries: Vec<[u16; 4]> = Vec::new();
    let mut ascii_params: Vec<u8> = Vec::new();
    let mut double_elements: Vec<F64> = Vec::new();
    let mut i: usize = 0;
    while i < defs.len()
        invariant
            i <= defs@.len(),
            keys == keys_view(defs@),
            entries@.len() == i,
            forall|j: int|
                0 <= j < i ==> (#[trigger] entries@[j])@ == entry_of(keys.take(j), keys[j]),
            ascii_params@ == text_params(keys.take(i as int)),
            double_elements@ == number_params(keys.take(i as int)),
        decreases defs@.len() - i,
    {
        let key_id: u16 = defs[i].key_id;
        proof {
            assert(keys.take(i + 1).drop_last() =~= keys.take(i as int));
            assert(keys.take(i + 1).last() == keys[i as int]);
        }
        let entry: [u16; 4] = match &defs[i].value {
            GeoKeyValue::Short(v) => {
                let e: [u16; 4] = [key_id, 0, 1, *v];
                assert(e@ =~= entry_of(keys.take(i as int), keys[i as int]));
                e
            },
            GeoKeyValue::Ascii(s) => {
                let offset: u16 = offset_of(ascii_params.len());
                let text = text_bytes(s.as_str());
                let count: u16 = count_of(text.len());
                let e: [u16; 4] = [key_id, TIFFTAG_GEO_ASCII_PARAMS, count, offset];
                assert(e@ =~= entry_of(keys.take(i as int), keys[i as int]));
                push_bytes(&mut ascii_params, &text);
                ascii_params.push(TEXT_END);
                e
            },
            GeoKeyValue::Double(v) => {
                let n: u16 = (double_elements.len() % 65536) as u16;
                let e: [u16; 4] = [key_id, TIFFTAG_GEO_DOUBLE_PARAMS, 1, n];
                assert(e@ =~= entry_of(keys.take(i as int), keys[i as int]));
                double_elements.push(*v);
                e
            },
        };
        entries.push(entry);
        i = i + 1;
    }
    let double_params = bytes64(&double_elements);
    proof {
        assert(keys.take(keys.len() as int) =~= keys);
        assert(entries_view(entries@) =~= entries_of(keys));
    }
    GeoTiffGeoKeyFinal { directory_entries: entries, ascii_params, double_params }
}

/// The bytes of the directory of keys.
pub fn serialize_geo_key_directory(finalized: &GeoTiffGeoKeyFinal) -> (r: Vec<u8>)
    ensures
        r@ == directory_bytes(entries_view(finalized.directory_entries@)),
{
    let key_count: u16 = finalized.key_count();
    let ghost all = entries_view(finalized.directory_entries@);
    let ghost header = seq![
        GEO_KEY_DIRECTORY_VERSION,
        GEO_KEY_REVISION,
        GEO_KEY_MINOR_REVISION,
        key_count,
    ];
    let mut buf: Vec<u8> = Vec::new();
    push_u16(&mut buf, GEO_KEY_DIRECTORY_VERSION);
    push_u16(&mut buf, GEO_KEY_REVISION);
    push_u16(&mut buf, GEO_KEY_MINOR_REVISION);
    push_u16(&mut buf, key_count);
    proof {
        lemma_four_words(header);
        assert(buf@ =~= all16(header));
    }
    let mut i: usize = 0;
    while i < finalized.directory_entries.len()
        invariant
            i <= finalized.directory_entries@.len(),
            all == entries_view(finalized.directory_entries@),
            buf@ == all16(header) + entry_bytes(all.take(i as int)),
        decreases finalized.directory_entries@.len() - i,
    {
        let entry: [u16; 4] = finalized.directory_entries[i];
        push_u16(&mut buf, entry[0]);
        push_u16(&mut buf, entry[1]);
        push_u16(&mut buf, entry[2]);
        push_u16(&mut buf, entry[3]);
        proof {
            lemma_four_words(entry@);
            assert(all.take(i + 1).drop_last() =~= all.take(i as int));
            assert(all.take(i + 1).last() == entry@);
            assert(buf@ =~= all16(header) + entry_bytes(all.take(i + 1)));
        }
        i = i + 1;
    }
    assert(all.take(all.len() as int) =~= all);
    buf
}

/// The bytes of four numbers.
proof fn lemma_four_words(words: Seq<u16>)
    requires
        words.len() == 4,
    ensures
        all16(words) == le16(words[0]) + le16(words[1]) + le16(words[2]) + le16(words[3]),
{
    reveal_with_fuel(all16, 5);
    assert(all16(words) =~= le16(words[0]) + le16(words[1]) + le16(words[2]) + le16(words[3]));
}

/// A directory takes eight bytes for its header and eight for each entry, and each
/// number of an entry is found at its place.
pub proof fn lemma_directory_layout(entries: Seq<Seq<u16>>)
    requires
        forall|i: int| 0 <= i < entries.len() ==> (#[trigger] entries[i]).len() == 4,
    ensures
        directory_bytes(entries).len() == 8 + 8 * entries.len(),
        directory_bytes(entries).subrange(6, 8) == le16(capped_count(entries.len())),
        forall|i: int, j: int|
            0 <= i < entries.len() && 0 <= j < 4 ==> directory_bytes(entries).subrange(
                8 + 8 * i + 2 * j,
                8 + 8 * i + 2 * j + 2,
            ) == le16(#[trigger] entries[i][j]),
{
    let header = seq![
        GEO_KEY_DIRECTORY_VERSION,
        GEO_KEY_REVISION,
        GEO_KEY_MINOR_REVISION,
        capped_count(entries.len()),
    ];
    lemma_all16(header);
    assert(all16(header).subrange(6, 8) == le16(header[3]));
    lemma_entry_layout(entries);
    assert(directory_bytes(entries).subrange(6, 8) =~= all16(header).subrange(6, 8));
    assert forall|i: int, j: int| 0 <= i < entries.len() && 0 <= j < 4 implies directory_bytes(
        entries,
    ).subrange(8 + 8 * i + 2 * j, 8 + 8 * i + 2 * j + 2) == le16(#[trigger] entries[i][j]) by {
        assert(directory_bytes(entries).subrange(8 + 8 * i + 2 * j, 8 + 8 * i + 2 * j + 2)
            =~= entry_bytes(entries).subrange(8 * i + 2 * j, 8 * i + 2 * j + 2));
    }
}

proof fn lemma_entry_layout(entries: Seq<Seq<u16>>)
    requires
        forall|i: int| 0 <= i < entries.len() ==> (#[trigger] entries[i]).len() == 4,
    ensures
        entry_bytes(entries).len() == 8 * entries.len(),
        forall|i: int, j: int|
            0 <= i < entries.len() && 0 <= j < 4 ==> entry_bytes(entries).subrange(
                8 * i + 2 * j,
                8 * i + 2 * j + 2,
            ) == le16(#[trigger] entries[i][j]),
    decreases entries.len(),
{
    if entries.len() > 0 {
        let before = entries.drop_last();
        lemma_entry_layout(before);
        lemma_all16(entries.last());
        assert forall|i: int, j: int| 0 <= i < entries.len() && 0 <= j < 4 implies entry_bytes(
            entries,
        ).subrange(8 * i + 2 * j, 8 * i + 2 * j + 2) == le16(#[trigger] entries[i][j]) by {
            if i < before.len() {
                assert(before[i][j] == entries[i][j]);
                assert(entry_bytes(entries).subrange(8 * i + 2 * j, 8 * i + 2 * j + 2)
                    =~= entry_bytes(before).subrange(8 * i + 2 * j, 8 * i + 2 * j + 2));
            } else {
                assert(entry_bytes(entries).subrange(8 * i + 2 * j, 8 * i + 2 * j + 2) =~= all16(
                    entries.last(),
                ).subrange(2 * j, 2 * j + 2));
            }
        }
    }
}

/// The parameters of the first keys stand before those of the others.
proof fn lemma_params_grow(defs: Seq<KeyView>, i: int)
    requires
        0 <= i <= defs.len(),
    ensures
        text_params(defs.take(i)).len() <= text_params(defs).len(),
        text_params(defs).take(text_params(defs.take(i)).len() as int) == text_params(defs.take(i)),
        number_params(defs.take(i)).len() <= number_params(defs).len(),
        number_params(defs).take(number_params(defs.take(i)).len() as int) == number_params(
            defs.take(i),
        ),
    decreases defs.len() - i,
{
    if i < defs.len() {
        let next = defs.take(i + 1);
        lemma_params_grow(defs, i + 1);
        assert(next.drop_last() =~= defs.take(i));
        let a = text_params(defs.take(i)).len() as int;
        let b = text_params(next).len() as int;
        assert(text_params(next).take(a) =~= text_params(defs.take(i)));
        assert(text_params(defs).take(a) =~= text_params(defs).take(b).take(a));
        let c = number_params(defs.take(i)).len() as int;
        let d = number_params(next).len() as int;
        assert(number_params(next).take(c) =~= number_params(defs.take(i)));
        assert(number_params(defs).take(c) =~= number_params(defs).take(d).take(c));
    } else {
        assert(defs.take(i) =~= defs);
    }
}

/// The entry of a key leads to its value: the text stands at its offset, with its end
/// behind it, and the floating-point number at its place. The offset is only exact
/// where the parameters fit 16 bits.
pub proof fn lemma_entry_leads_to_value(defs: Seq<KeyView>, i: int)
    requires
        0 <= i < defs.len(),
        text_params(defs).len() <= u16::MAX,
        number_params(defs).len() <= u16::MAX,
    ensures
        entries_of(defs)[i].len() == 4,
        entries_of(defs)[i][0] == defs[i].key_id,
        match defs[i].value {
            KeyValueView::Short(v) => entries_of(defs)[i][1] == 0 && entries_of(defs)[i][3] == v,
            KeyValueView::Ascii(s) => {
                let at = entries_of(defs)[i][3] as int;
                let n = entries_of(defs)[i][2] as int;
                &&& entries_of(defs)[i][1] == TIFFTAG_GEO_ASCII_PARAMS
                &&& at + n < text_params(defs).len()
                &&& text_params(defs).subrange(at, at + n) == encode_utf8(s)
                &&& text_params(defs)[at + n] == TEXT_END
            },
            KeyValueView::Double(v) => {
                let at = entries_of(defs)[i][3] as int;
                &&& entries_of(defs)[i][1] == TIFFTAG_GEO_DOUBLE_PARAMS
                &&& at < number_params(defs).len()
                &&& number_params(defs)[at] == v
                &&& all64(number_params(defs)).subrange(8 * at, 8 * at + 8) == le64(v.bits)
            },
        },
{
    let next = defs.take(i + 1);
    assert(next.drop_last() =~= defs.take(i));
    assert(next.last() == defs[i]);
    lemma_params_grow(defs, i);
    lemma_params_grow(defs, i + 1);
    match defs[i].value {
        KeyValueView::Short(_) => {},
        KeyValueView::Ascii(s) => {
            let at = text_params(defs.take(i)).len() as int;
            let n = encode_utf8(s).len() as int;
            let whole = text_params(defs).take(text_params(next).len() as int);
            assert(text_params(defs).subrange(at, at + n) =~= whole.subrange(at, at + n));
            assert(whole.subrange(at, at + n) =~= encode_utf8(s));
            assert(text_params(defs)[at + n] == whole[at + n]);
        },
        KeyValueView::Double(v) => {
            let at = number_params(defs.take(i)).len() as int;
            let whole = number_params(defs).take(number_params(next).len() as int);
            assert(number_params(defs)[at] == whole[at]);
            lemma_all64(number_params(defs));
        },
    }
}

/// A directory begins with its version, its revision and its minor revision: one, one and zero.
pub proof fn lemma_directory_version(entries: Seq<Seq<u16>>)
    ensures
        directory_bytes(entries).len() >= 8,
        directory_bytes(entries).subrange(0, 2) == le16(1),
        directory_bytes(entries).subrange(2, 4) == le16(1),
        directory_bytes(entries).subrange(4, 6) == le16(0),
{
    let header = seq![1u16, 1u16, 0u16, capped_count(entries.len())];
    assert(header =~= seq![
        GEO_KEY_DIRECTORY_VERSION,
        GEO_KEY_REVISION,
        GEO_KEY_MINOR_REVISION,
        capped_count(entries.len()),
    ]);
    lemma_all16(header);
    assert(all16(header).subrange(0, 2) == le16(header[0]));
    assert(all16(header).subrange(2, 4) == le16(header[1]));
    assert(all16(header).subrange(4, 6) == le16(header[2]));
    assert(directory_bytes(entries).subrange(0, 2) =~= all16(header).subrange(0, 2));
    assert(directory_bytes(entries).subrange(2, 4) =~= all16(header).subrange(2, 4));
    assert(directory_bytes(entries).subrange(4, 6) =~= all16(header).subrange(4, 6));
}

/// The place and the count of an entry: a number of 16 bits is in the entry itself, a text is in
/// the values of tag 34737 and ends with a vertical bar, and a floating-point number is in those
/// of tag 34736.
pub proof fn lemma_entry_kinds(defs: Seq<KeyView>, i: int)
    requires
        0 <= i < defs.len(),
        text_params(defs).len() <= u16::MAX,
        number_params(defs).len() <= u16::MAX,
    ensures
        entries_of(defs)[i][1] == match defs[i].value {
            KeyValueView::Short(_) => 0u16,
            KeyValueView::Ascii(_) => 34737u16,
            KeyValueView::Double(_) => 34736u16,
        },
        !(defs[i].value is Ascii) ==> entries_of(defs)[i][2] == 1,
        defs[i].value matches KeyValueView::Ascii(s) ==> entries_of(defs)[i][2] == encode_utf8(
            s,
        ).len() && text_params(defs)[entries_of(defs)[i][3] + entries_of(defs)[i][2]] == 0x7c,
{
    lemma_entry_leads_to_value(defs, i);
}

} // verus!
