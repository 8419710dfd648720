//! TIFF files of data sets: the samples, the ties to the earth, and the whole file.

use crate::array::{are_numbers, AnyArrayView, AnyDataArray, ArrayView, ValidityMask};
use crate::bytes::{
    all16, all32, all64, bytes16, bytes32, bytes64, le32, le64, lemma_all32, lemma_all64,
    lemma_read32, lemma_read64, read32, read64, text_bytes,
};
use crate::crs::ProjCrs;
use crate::dataset::{Dataset, DatasetView};
use crate::error::{fails_with, is_invalid, ErrorView, Result, RustySatError};
use crate::geo_keys::{
    directory_bytes, entries_of, finalize_geo_key_defs, keys_view, serialize_geo_key_directory,
    text_params, number_params, GeoKeyDef, KeyValueView, KeyView, GEO_KEY_DIRECTORY_VERSION,
    GEO_KEY_MINOR_REVISION, GEO_KEY_REVISION, GEO_USER_DEFINED, GT_MODEL_TYPE_GEO_KEY,
    GT_RASTER_TYPE_GEO_KEY, MODEL_TYPE_PROJECTED, PROJECTED_CITATION_GEO_KEY,
    PROJECTED_CS_TYPE_GEO_KEY, RASTER_PIXEL_IS_AREA, TIFFTAG_GEO_ASCII_PARAMS,
};
use crate::metadata::{
    has_four, metadata_f64_list4, metadata_usize, numbers_in, size_at, table_texts, text_at,
    texts_in, MetadataTable, MetadataTree, MetadataValue,
};
use crate::narrowing::{lemma_narrowed_of_widened, narrowed};
use crate::number::{F32, F64, INFINITE_32, INFINITE_64, NAN_BITS_32};
use crate::rounding::{apart, clamp_level, lemma_level_is_nearest, level_within};
use crate::text::{
    decimal, join2, join3, join4, join5, list_notation, list_text, lower_text, lowered, owned,
    same_text, size_text, trim_text, trimmed,
};
use crate::tiff_layout::{
    blocks_view, build_tile_blocks, compress_blocks, compression_code, encode_tiff, found_block,
    lemma_block_in_file, lemma_block_is_found, lemma_pixel_in_tile, lemma_stored_count,
    read_back_as, stored, tile_blocks, tiles_along, unpacked, ExtraView, GeoTiffExtraData,
    TiffCompression, TiffParts, TiffPlan, TiffTileOptions, TileShape, STRIP_OFFSETS_PLACE,
    TILE_OFFSETS_PLACE,
};
use crate::widening::is_widened;
use vstd::prelude::*;
use vstd::utf8::encode_utf8;

verus! {

pub const SAMPLE_FORMAT_UNSIGNED_INTEGER: u16 = 1;

pub const SAMPLE_FORMAT_IEEE_FLOAT: u16 = 3;

/// How the values of a data set become samples, and which sample stands for no value.
#[derive(Clone, Copy, Debug, PartialEq)]
#[allow(inconsistent_fields)]
pub enum TiffSamplePolicy {
    Float32 { fill_value: F32 },
    Float64 { fill_value: F64 },
    UInt16Scaled { min: Option<F64>, max: Option<F64>, fill_value: u16 },
}

/// Whether two numbers span a scale.
pub open spec fn scale_ok(min: F64, max: F64) -> bool {
    min.finite() && max.finite() && !max.at_most(min)
}

/// The error with which a policy is refused, if it is.
pub open spec fn policy_error(policy: TiffSamplePolicy) -> Option<ErrorView> {
    match policy {
        TiffSamplePolicy::Float32 { fill_value } => if fill_value.magnitude() == INFINITE_32 {
            Some(ErrorView::InvalidInput("float32 fill value"@ + " must be finite or NaN"@))
        } else {
            None
        },
        TiffSamplePolicy::Float64 { fill_value } => if fill_value.magnitude() == INFINITE_64 {
            Some(ErrorView::InvalidInput("float64 fill value"@ + " must be finite or NaN"@))
        } else {
            None
        },
        TiffSamplePolicy::UInt16Scaled { min, max, .. } => if min is Some && max is Some {
            if scale_ok(min->Some_0, max->Some_0) {
                None
            } else {
                Some(
                    ErrorView::InvalidInput(
                        "u16 scaled TIFF output requires finite max greater than min"@,
                    ),
                )
            }
        } else if min is None && max is None {
            None
        } else {
            Some(
                ErrorView::InvalidInput(
                    "u16 scaled TIFF output requires both min and max or neither"@,
                ),
            )
        },
    }
}

fn validate_u16_scale(min: F64, max: F64) -> (r: Result<()>)
    ensures
        scale_ok(min, max) ==> r is Ok,
        !scale_ok(min, max) ==> is_invalid(
            r,
            "u16 scaled TIFF output requires finite max greater than min"@,
        ),
{
    if !min.is_finite() || !max.is_finite() || max.le(min) {
        return Err(
            RustySatError::invalid_input(
                "u16 scaled TIFF output requires finite max greater than min",
            ),
        );
    }
    Ok(())
}

fn fill_error(name: &str) -> (r: RustySatError)
    ensures
        r@ == ErrorView::InvalidInput(name@ + " must be finite or NaN"@),
{
    let text = join2(name, " must be finite or NaN");
    RustySatError::invalid_input(text.as_str())
}

/// Whether the element `i` has no value: it is masked out or not finite.
pub open spec fn missing(mask: Option<Seq<bool>>, i: int, value: F64) -> bool {
    (mask is Some && i < mask->Some_0.len() && mask->Some_0[i]) || !value.finite()
}

/// The flags of a mask, where there is one.
pub open spec fn flags_of(mask: Option<&ValidityMask>) -> Option<Seq<bool>> {
    match mask {
        Some(m) => Some(m@),
        None => None,
    }
}

fn is_missing(mask: Option<&ValidityMask>, idx: usize, value: F64) -> (r: bool)
    ensures
        r == missing(flags_of(mask), idx as int, value),
{
    let masked = match mask {
        Some(m) => match m.is_masked(idx) {
            Some(b) => b,
            None => false,
        },
        None => false,
    };
    masked || !value.is_finite()
}

/// The smallest and the largest of the first `n` values that are not missing.
pub open spec fn value_range(values: Seq<F64>, mask: Option<Seq<bool>>, n: nat) -> Option<
    (F64, F64),
>
    decreases n,
{
    if n == 0 {
        None
    } else {
        let before = value_range(values, mask, (n - 1) as nat);
        let v = values[n - 1];
        if missing(mask, n - 1, v) {
            before
        } else {
            match before {
                None => Some((v, v)),
                Some((min, max)) => Some(
                    (
                        if v.less(min) {
                            v
                        } else {
                            min
                        },
                        if max.less(v) {
                            v
                        } else {
                            max
                        },
                    ),
                ),
            }
        }
    }
}

/// The range of the values that are not missing is finite, each of them lies in it, and
/// both ends are among them.
pub proof fn lemma_value_range(values: Seq<F64>, mask: Option<Seq<bool>>, n: nat)
    requires
        n <= values.len(),
    ensures
        value_range(values, mask, n) is None <==> forall|i: int|
            0 <= i < n ==> missing(mask, i, #[trigger] values[i]),
        value_range(values, mask, n) is Some ==> {
            let (min, max) = value_range(values, mask, n)->Some_0;
            &&& min.finite()
            &&& max.finite()
            &&& min.at_most(max)
            &&& forall|i: int|
                0 <= i < n && !missing(mask, i, #[trigger] values[i]) ==> min.at_most(values[i])
                    && values[i].at_most(max)
            &&& exists|i: int| 0 <= i < n && !missing(mask, i, #[trigger] values[i]) && values[i] == min
            &&& exists|i: int| 0 <= i < n && !missing(mask, i, #[trigger] values[i]) && values[i] == max
        },
    decreases n,
{
    if n > 0 {
        lemma_value_range(values, mask, (n - 1) as nat);
        let v = values[n - 1];
        let before = value_range(values, mask, (n - 1) as nat);
        if !missing(mask, n - 1, v) {
            match before {
                None => {
                    assert(values[n - 1] == v);
                },
                Some((min, max)) => {
                    let i = choose|i: int|
                        0 <= i < n - 1 && !missing(mask, i, #[trigger] values[i]) && values[i] == min;
                    let j = choose|j: int|
                        0 <= j < n - 1 && !missing(mask, j, #[trigger] values[j]) && values[j] == max;
                    assert(values[i] == min && values[j] == max && values[n - 1] == v);
                },
            }
        } else {
            if before is Some {
                let (min, max) = before->Some_0;
                let i = choose|i: int|
                    0 <= i < n - 1 && !missing(mask, i, #[trigger] values[i]) && values[i] == min;
                let j = choose|j: int|
                    0 <= j < n - 1 && !missing(mask, j, #[trigger] values[j]) && values[j] == max;
                assert(values[i] == min && values[j] == max);
            } else {
                assert(missing(mask, n - 1, values[n - 1]));
            }
        }
    }
}

/// The smallest and the largest value, where there is any.
pub fn finite_min_max(values: &Vec<F64>, mask: Option<&ValidityMask>) -> (r: Option<(F64, F64)>)
    ensures
        r == value_range(values@, flags_of(mask), values@.len()),
{
    let mut range: Option<(F64, F64)> = None;
    let mut i: usize = 0;
    while i < values.len()
        invariant
            i <= values@.len(),
            range == value_range(values@, flags_of(mask), i as nat),
        decreases values@.len() - i,
    {
        let v = values[i];
        if !is_missing(mask, i, v) {
            range = match range {
                None => Some((v, v)),
                Some((min, max)) => {
                    let low = if v.lt(min) {
                        v
                    } else {
                        min
                    };
                    let high = if max.lt(v) {
                        v
                    } else {
                        max
                    };
                    Some((low, high))
                },
            };
        }
        i = i + 1;
    }
    range
}

/// The samples of a file.
#[derive(Clone, Debug, PartialEq, Eq)]
pub struct TiffSampleData {
    pub bits_per_sample: u16,
    pub sample_format: u16,
    pub bytes: Vec<u8>,
}

/// The bits of the values as numbers of 32 bits, with `fill` for those that are missing.
pub open spec fn narrow_samples(values: Seq<F64>, mask: Option<Seq<bool>>, fill: F32) -> Seq<u32> {
    Seq::new(
        values.len(),
        |i: int|
            if missing(mask, i, values[i]) {
                fill.bits
            } else {
                narrowed(values[i]).bits
            },
    )
}

/// The values as numbers of 64 bits, with `fill` for those that are missing.
pub open spec fn wide_samples(values: Seq<F64>, mask: Option<Seq<bool>>, fill: F64) -> Seq<F64> {
    Seq::new(
        values.len(),
        |i: int|
            if missing(mask, i, values[i]) {
                fill
            } else {
                values[i]
            },
    )
}

/// Whether `sample` is the number of 16 bits nearest to the place that `scaled` gives a
/// value between two bounds.
pub open spec fn is_scaled<U: Fn(F64, F64, F64) -> F64>(
    value: F64,
    min: F64,
    max: F64,
    scaled: U,
    sample: u16,
) -> bool {
    exists|place: F64| #[trigger]
        scaled.ensures((value, min, max), place) && sample == level_within(place, u16::MAX)
}

/// Whether `samples` are the values scaled to 16 bits, with `fill` for those that are
/// missing. `scaled` gives the place of a number on the scale.
pub open spec fn scaled_samples<U: Fn(F64, F64, F64) -> F64>(
    values: Seq<F64>,
    mask: Option<Seq<bool>>,
    min: F64,
    max: F64,
    fill: u16,
    scaled: U,
    samples: Seq<u16>,
) -> bool {
    &&& samples.len() == values.len()
    &&& forall|i: int|
        0 <= i < values.len() ==> if missing(mask, i, values[i]) {
            #[trigger] samples[i] == fill
        } else {
            is_scaled(values[i], min, max, scaled, samples[i])
        }
}

/// The scale of a policy: the given one, or that of the values.
pub open spec fn scale_of(
    min: Option<F64>,
    max: Option<F64>,
    values: Seq<F64>,
    mask: Option<Seq<bool>>,
) -> Option<(F64, F64)> {
    if min is Some && max is Some {
        Some((min->Some_0, max->Some_0))
    } else {
        value_range(values, mask, values.len())
    }
}

/// The error with which the values are refused, if they are: 16 bits need a scale.
pub open spec fn sample_error(
    policy: TiffSamplePolicy,
    values: Seq<F64>,
    mask: Option<Seq<bool>>,
) -> Option<ErrorView> {
    match policy {
        TiffSamplePolicy::UInt16Scaled { min, max, .. } => match scale_of(min, max, values, mask) {
            None => Some(
                ErrorView::InvalidInput(
                    "u16 scaled TIFF output has no finite unmasked values for autoscale"@,
                ),
            ),
            Some((low, high)) => if scale_ok(low, high) {
                None
            } else {
                Some(
                    ErrorView::InvalidInput(
                        "u16 scaled TIFF output requires finite max greater than min"@,
                    ),
                )
            },
        },
        _ => None,
    }
}

/// Whether `bytes` are the samples of the values.
pub open spec fn is_sample_bytes<U: Fn(F64, F64, F64) -> F64>(
    policy: TiffSamplePolicy,
    values: Seq<F64>,
    mask: Option<Seq<bool>>,
    scaled: U,
    bytes: Seq<u8>,
) -> bool {
    match policy {
        TiffSamplePolicy::Float32 { fill_value } => bytes == all32(
            narrow_samples(values, mask, fill_value),
        ),
        TiffSamplePolicy::Float64 { fill_value } => bytes == all64(
            wide_samples(values, mask, fill_value),
        ),
        TiffSamplePolicy::UInt16Scaled { min, max, fill_value } => {
            let (low, high) = scale_of(min, max, values, mask)->Some_0;
            exists|samples: Seq<u16>| #[trigger]
                scaled_samples(values, mask, low, high, fill_value, scaled, samples) && bytes
                    == all16(samples)
        },
    }
}

/// The size of a sample in bits.
pub open spec fn policy_bits(policy: TiffSamplePolicy) -> u16 {
    match policy {
        TiffSamplePolicy::Float32 { .. } => 32,
        TiffSamplePolicy::Float64 { .. } => 64,
        TiffSamplePolicy::UInt16Scaled { .. } => 16,
    }
}

/// The number that names the kind of the samples in a file.
pub open spec fn policy_format(policy: TiffSamplePolicy) -> u16 {
    match policy {
        TiffSamplePolicy::UInt16Scaled { .. } => SAMPLE_FORMAT_UNSIGNED_INTEGER,
        _ => SAMPLE_FORMAT_IEEE_FLOAT,
    }
}

impl TiffSamplePolicy {
    pub fn validate(&self) -> (r: Result<()>)
        ensures
            match policy_error(*self) {
                Some(e) => fails_with(r, e),
                None => r is Ok,
            },
    {
        match *self {
            TiffSamplePolicy::Float32 { fill_value } => {
                let bits: u32 = fill_value.bits;
                if bits == INFINITE_32 || bits == 0xff80_0000 {
                    return Err(fill_error("float32 fill value"));
                }
                Ok(())
            },
            TiffSamplePolicy::Float64 { fill_value } => {
                if !fill_value.is_finite() && !fill_value.is_nan() {
                    return Err(fill_error("float64 fill value"));
                }
                Ok(())
            },
            TiffSamplePolicy::UInt16Scaled { min, max, .. } => match min {
                Some(low) => match max {
                    Some(high) => validate_u16_scale(low, high),
                    None => Err(
                        RustySatError::invalid_input(
                            "u16 scaled TIFF output requires both min and max or neither",
                        ),
                    ),
                },
                None => match max {
                    Some(_) => Err(
                        RustySatError::invalid_input(
                            "u16 scaled TIFF output requires both min and max or neither",
                        ),
                    ),
                    None => Ok(()),
                },
            },
        }
    }

    /// The samples of values. `scaled` gives the place of a number on a scale.
    pub fn encode_values<U: Fn(F64, F64, F64) -> F64>(
        &self,
        values: &Vec<F64>,
        mask: Option<&ValidityMask>,
        scaled: &U,
    ) -> (r: Result<TiffSampleData>)
        requires
            policy_error(*self) is None,
            forall|v: F64, low: F64, high: F64| #[trigger] scaled.requires((v, low, high)),
        ensures
            match sample_error(*self, values@, flags_of(mask)) {
                Some(e) => fails_with(r, e),
                None => r is Ok && r->Ok_0.bits_per_sample == policy_bits(*self)
                    && r->Ok_0.sample_format == policy_format(*self) && is_sample_bytes(
                    *self,
                    values@,
                    flags_of(mask),
                    *scaled,
                    r->Ok_0.bytes@,
                ),
            },
    {
        match *self {
            TiffSamplePolicy::Float32 { fill_value } => Ok(
                TiffSampleData {
                    bits_per_sample: 32,
                    sample_format: SAMPLE_FORMAT_IEEE_FLOAT,
                    bytes: encode_f32_samples(values, mask, fill_value),
                },
            ),
            TiffSamplePolicy::Float64 { fill_value } => Ok(
                TiffSampleData {
                    bits_per_sample: 64,
                    sample_format: SAMPLE_FORMAT_IEEE_FLOAT,
                    bytes: encode_f64_samples(values, mask, fill_value),
                },
            ),
            TiffSamplePolicy::UInt16Scaled { min, max, fill_value } => {
                let scale: Option<(F64, F64)> = match min {
                    Some(low) => match max {
                        Some(high) => Some((low, high)),
                        None => None,
                    },
                    None => finite_min_max(values, mask),
                };
                let (low, high) = match scale {
                    Some(s) => s,
                    None => {
                        return Err(
                            RustySatError::invalid_input(
                                "u16 scaled TIFF output has no finite unmasked values for autoscale",
                            ),
                        );
                    },
                };
                match validate_u16_scale(low, high) {
                    Ok(()) => {},
                    Err(e) => {
                        return Err(e);
                    },
                }
                Ok(
                    TiffSampleData {
                        bits_per_sample: 16,
                        sample_format: SAMPLE_FORMAT_UNSIGNED_INTEGER,
                        bytes: encode_u16_scaled_samples(
                            values,
                            mask,
                            low,
                            high,
                            fill_value,
                            scaled,
                        ),
                    },
                )
            },
        }
    }
}

fn encode_f32_samples(values: &Vec<F64>, mask: Option<&ValidityMask>, fill_value: F32) -> (r: Vec<
    u8,
>)
    ensures
        r@ == all32(narrow_samples(values@, flags_of(mask), fill_value)),
{
    let mut samples: Vec<u32> = Vec::new();
    let mut i: usize = 0;
    while i < values.len()
        invariant
            i <= values@.len(),
            samples@ == narrow_samples(values@, flags_of(mask), fill_value).take(i as int),
        decreases values@.len() - i,
    {
        let v = values[i];
        let sample = if is_missing(mask, i, v) {
            fill_value
        } else {
            v.narrow()
        };
        samples.push(sample.bits);
        i = i + 1;
    }
    assert(samples@ =~= narrow_samples(values@, flags_of(mask), fill_value));
    bytes32(&samples)
}

fn encode_f64_samples(values: &Vec<F64>, mask: Option<&ValidityMask>, fill_value: F64) -> (r: Vec<
    u8,
>)
    ensures
        r@ == all64(wide_samples(values@, flags_of(mask), fill_value)),
{
    let mut samples: Vec<F64> = Vec::new();
    let mut i: usize = 0;
    while i < values.len()
        invariant
            i <= values@.len(),
            samples@.len() == i,
            forall|j: int|
                0 <= j < i ==> samples@[j] == wide_samples(values@, flags_of(mask), fill_value)[j],
        decreases values@.len() - i,
    {
        let v = values[i];
        if is_missing(mask, i, v) {
            samples.push(fill_value);
        } else {
            samples.push(v);
        }
        i = i + 1;
    }
    assert(samples@ =~= wide_samples(values@, flags_of(mask), fill_value));
    bytes64(&samples)
}

fn encode_u16_scaled_samples<U: Fn(F64, F64, F64) -> F64>(
    values: &Vec<F64>,
    mask: Option<&ValidityMask>,
    min: F64,
    max: F64,
    fill_value: u16,
    scaled: &U,
) -> (r: Vec<u8>)
    requires
        forall|v: F64, low: F64, high: F64| #[trigger] scaled.requires((v, low, high)),
    ensures
        exists|samples: Seq<u16>| #[trigger]
            scaled_samples(values@, flags_of(mask), min, max, fill_value, *scaled, samples) && r@
                == all16(samples),
{
    let mut samples: Vec<u16> = Vec::new();
    let mut i: usize = 0;
    while i < values.len()
        invariant
            i <= values@.len(),
            forall|v: F64, low: F64, high: F64| #[trigger] scaled.requires((v, low, high)),
            samples@.len() == i,
            forall|j: int|
                0 <= j < i ==> if missing(flags_of(mask), j, values@[j]) {
                    #[trigger] samples@[j] == fill_value
                } else {
                    is_scaled(values@[j], min, max, *scaled, samples@[j])
                },
        decreases values@.len() - i,
    {
        let v = values[i];
        let sample: u16 = if is_missing(mask, i, v) {
            fill_value
        } else {
            let place = scaled(v, min, max);
            assert(scaled.ensures((v, min, max), place));
            clamp_level(place, u16::MAX)
        };
        samples.push(sample);
        i = i + 1;
    }
    assert(scaled_samples(values@, flags_of(mask), min, max, fill_value, *scaled, samples@));
    bytes16(&samples)
}

/// What ties an image to the earth: the size of its pixels, the place of its first
/// corner, and a text.
#[derive(Clone, Debug, PartialEq)]
pub struct GeoTiffInfo {
    pub pixel_scale: [F64; 3],
    pub tiepoint: [F64; 6],
    pub citation: String,
}

/// What ties an image to the earth, as mathematical values.
#[verifier::ext_equal]
pub struct InfoView {
    pub pixel_scale: Seq<F64>,
    pub tiepoint: Seq<F64>,
    pub citation: Seq<char>,
}

impl View for GeoTiffInfo {
    type V = InfoView;

    open spec fn view(&self) -> InfoView {
        InfoView {
            pixel_scale: self.pixel_scale@,
            tiepoint: self.tiepoint@,
            citation: self.citation@,
        }
    }
}

/// The text with an end.
pub open spec fn ended(text: Seq<char>) -> Seq<char> {
    if text.len() > 0 && text.last() == '|' {
        text
    } else {
        text.push('|')
    }
}

/// The key that says that a pixel is an area.
pub open spec fn raster_key() -> KeyView {
    KeyView {
        key_id: GT_RASTER_TYPE_GEO_KEY,
        value: KeyValueView::Short(RASTER_PIXEL_IS_AREA),
    }
}

/// The directory of keys for an image with no more than a text.
pub open spec fn plain_directory(text_len: u16) -> Seq<u16> {
    seq![
        GEO_KEY_DIRECTORY_VERSION,
        GEO_KEY_REVISION,
        GEO_KEY_MINOR_REVISION,
        4,
        GT_MODEL_TYPE_GEO_KEY,
        0,
        1,
        MODEL_TYPE_PROJECTED,
        GT_RASTER_TYPE_GEO_KEY,
        0,
        1,
        RASTER_PIXEL_IS_AREA,
        PROJECTED_CS_TYPE_GEO_KEY,
        0,
        1,
        GEO_USER_DEFINED,
        PROJECTED_CITATION_GEO_KEY,
        TIFFTAG_GEO_ASCII_PARAMS,
        text_len,
        0,
    ]
}

/// Keys as a mathematical value, where there are any.
pub open spec fn given_keys(keys: Option<&Vec<GeoKeyDef>>) -> Seq<KeyView> {
    match keys {
        Some(k) => keys_view(k@),
        None => Seq::empty(),
    }
}

/// The data that tie an image to the earth, or the obstacle.
pub open spec fn extra_of(info: InfoView, keys: Seq<KeyView>) -> core::result::Result<
    ExtraView,
    ErrorView,
> {
    if keys.len() > 0 {
        let all = keys.push(raster_key());
        Ok(
            ExtraView {
                pixel_scale: all64(info.pixel_scale),
                tiepoint: all64(info.tiepoint),
                directory: directory_bytes(entries_of(all)),
                ascii: text_params(all),
                doubles: all64(number_params(all)),
            },
        )
    } else {
        let text = encode_utf8(ended(info.citation));
        if text.len() > u16::MAX {
            Err(ErrorView::InvalidInput("GeoTIFF citation is too long"@))
        } else {
            Ok(
                ExtraView {
                    pixel_scale: all64(info.pixel_scale),
                    tiepoint: all64(info.tiepoint),
                    directory: all16(plain_directory(text.len() as u16)),
                    ascii: text,
                    doubles: Seq::empty(),
                },
            )
        }
    }
}

fn ended_text(text: &str) -> (r: String)
    ensures
        r@ == ended(text@),
{
    let chars = crate::text::to_chars(text);
    let mut out = owned(text);
    if chars.len() == 0 || chars[chars.len() - 1] != '|' {
        out.push('|');
    }
    out
}

fn list_of_three(values: &[F64; 3]) -> (r: Vec<F64>)
    ensures
        r@ == values@,
{
    let mut out: Vec<F64> = Vec::new();
    out.push(values[0]);
    out.push(values[1]);
    out.push(values[2]);
    assert(out@ =~= values@);
    out
}

fn list_of_six(values: &[F64; 6]) -> (r: Vec<F64>)
    ensures
        r@ == values@,
{
    let mut out: Vec<F64> = Vec::new();
    out.push(values[0]);
    out.push(values[1]);
    out.push(values[2]);
    out.push(values[3]);
    out.push(values[4]);
    out.push(values[5]);
    assert(out@ =~= values@);
    out
}

fn copy_keys(keys: &Vec<GeoKeyDef>) -> (r: Vec<GeoKeyDef>)
    ensures
        keys_view(r@) == keys_view(keys@),
{
    let mut out: Vec<GeoKeyDef> = Vec::new();
    let mut i: usize = 0;
    while i < keys.len()
        invariant
            i <= keys@.len(),
            out@.len() == i,
            forall|j: int| 0 <= j < i ==> (#[trigger] out@[j])@ == keys@[j]@,
        decreases keys@.len() - i,
    {
        out.push(keys[i].copy());
        i = i + 1;
    }
    assert(keys_view(out@) =~= keys_view(keys@));
    out
}

/// The data that tie an image to the earth: the keys of its reference system, or
/// without them the keys of an image with no more than a text.
pub fn extra_data_from_info(info: &GeoTiffInfo, keys: Option<&Vec<GeoKeyDef>>) -> (r: Result<
    GeoTiffExtraData,
>)
    requires
        given_keys(keys).len() < u32::MAX,
    ensures
        match extra_of(info@, given_keys(keys)) {
            Err(e) => fails_with(r, e),
            Ok(x) => r is Ok && r->Ok_0@ == x,
        },
{
    let pixel_scale = bytes64(&list_of_three(&info.pixel_scale));
    let tiepoint = bytes64(&list_of_six(&info.tiepoint));
    match keys {
        Some(k) => {
            if k.len() > 0 {
                let mut all = copy_keys(k);
                let ghost before = keys_view(all@);
                let raster = GeoKeyDef::short(GT_RASTER_TYPE_GEO_KEY, RASTER_PIXEL_IS_AREA);
                all.push(raster);
                assert(keys_view(all@) =~= before.push(raster_key()));
                let finalized = finalize_geo_key_defs(&all);
                let geo_key_directory = serialize_geo_key_directory(&finalized);
                return Ok(
                    GeoTiffExtraData {
                        pixel_scale,
                        tiepoint,
                        geo_key_directory,
                        geo_ascii_params: finalized.ascii_params,
                        geo_double_params: finalized.double_params,
                    },
                );
            }
        },
        None => {},
    }
    let text = ended_text(info.citation.as_str());
    let ascii = text_bytes(text.as_str());
    if ascii.len() > 65535 {
        return Err(RustySatError::invalid_input("GeoTIFF citation is too long"));
    }
    let geo_key_directory = plain_directory_bytes(ascii.len() as u16);
    let geo_double_params: Vec<u8> = Vec::new();
    assert(geo_double_params@ =~= Seq::empty());
    Ok(
        GeoTiffExtraData {
            pixel_scale,
            tiepoint,
            geo_key_directory,
            geo_ascii_params: ascii,
            geo_double_params,
        },
    )
}

fn plain_directory_bytes(text_len: u16) -> (r: Vec<u8>)
    ensures
        r@ == all16(plain_directory(text_len)),
{
    let mut words: Vec<u16> = Vec::new();
    words.push(GEO_KEY_DIRECTORY_VERSION);
    words.push(GEO_KEY_REVISION);
    words.push(GEO_KEY_MINOR_REVISION);
    words.push(4);
    words.push(GT_MODEL_TYPE_GEO_KEY);
    words.push(0);
    words.push(1);
    words.push(MODEL_TYPE_PROJECTED);
    words.push(GT_RASTER_TYPE_GEO_KEY);
    words.push(0);
    words.push(1);
    words.push(RASTER_PIXEL_IS_AREA);
    words.push(PROJECTED_CS_TYPE_GEO_KEY);
    words.push(0);
    words.push(1);
    words.push(GEO_USER_DEFINED);
    words.push(PROJECTED_CITATION_GEO_KEY);
    words.push(TIFFTAG_GEO_ASCII_PARAMS);
    words.push(text_len);
    words.push(0);
    assert(words@ =~= plain_directory(text_len));
    bytes16(&words)
}

/// The text of the error for samples that do not fill the image.
pub open spec fn sample_count_text(len: nat, height: usize, width: usize, expected: nat) -> Seq<
    char,
> {
    ("float TIFF has "@ + decimal(len) + " sample bytes but shape ("@ + decimal(height as nat)
        + ", "@) + decimal(width as nat) + ") requires "@ + decimal(expected)
}

/// The error with which an image is refused, if it is.
pub open spec fn pixels_error(width: usize, height: usize, bits: u16, len: nat) -> Option<
    ErrorView,
> {
    let expected = (width * height) * (bits / 8);
    if width == 0 || height == 0 {
        Some(ErrorView::InvalidInput("float TIFF dimensions must be non-zero"@))
    } else if width * height > usize::MAX {
        Some(ErrorView::InvalidInput("float TIFF pixel count overflow"@))
    } else if bits % 8 != 0 || bits / 8 == 0 {
        Some(
            ErrorView::InvalidInput("TIFF bits per sample must be a positive multiple of 8"@),
        )
    } else if expected > usize::MAX {
        Some(ErrorView::InvalidInput("float TIFF byte count overflow"@))
    } else if expected != len {
        Some(ErrorView::InvalidInput(sample_count_text(len, height, width, expected as nat)))
    } else if width > u32::MAX {
        Some(ErrorView::InvalidInput("float TIFF width does not fit u32"@))
    } else if height > u32::MAX {
        Some(ErrorView::InvalidInput("float TIFF height does not fit u32"@))
    } else if len > u32::MAX {
        Some(ErrorView::InvalidInput("float TIFF byte count overflow"@))
    } else {
        None
    }
}

fn validate_pixels(width: usize, height: usize, bits: u16, len: usize) -> (r: Result<()>)
    ensures
        match pixels_error(width, height, bits, len as nat) {
            Some(e) => fails_with(r, e),
            None => r is Ok,
        },
{
    if width == 0 || height == 0 {
        return Err(RustySatError::invalid_input("float TIFF dimensions must be non-zero"));
    }
    let pixel_count: usize = match width.checked_mul(height) {
        Some(n) => n,
        None => {
            return Err(RustySatError::invalid_input("float TIFF pixel count overflow"));
        },
    };
    let size: usize = (bits / 8) as usize;
    if bits % 8 != 0 || size == 0 {
        return Err(
            RustySatError::invalid_input("TIFF bits per sample must be a positive multiple of 8"),
        );
    }
    let expected: usize = match pixel_count.checked_mul(size) {
        Some(n) => n,
        None => {
            return Err(RustySatError::invalid_input("float TIFF byte count overflow"));
        },
    };
    if expected != len {
        let a = size_text(len);
        let b = size_text(height);
        let c = size_text(width);
        let d = size_text(expected);
        let start = join5(
            "float TIFF has ",
            a.as_str(),
            " sample bytes but shape (",
            b.as_str(),
            ", ",
        );
        let text = join4(start.as_str(), c.as_str(), ") requires ", d.as_str());
        return Err(RustySatError::invalid_input(text.as_str()));
    }
    if width as u64 > 0xffff_ffff {
        return Err(RustySatError::invalid_input("float TIFF width does not fit u32"));
    }
    if height as u64 > 0xffff_ffff {
        return Err(RustySatError::invalid_input("float TIFF height does not fit u32"));
    }
    if len as u64 > 0xffff_ffff {
        return Err(RustySatError::invalid_input("float TIFF byte count overflow"));
    }
    Ok(())
}

/// The blocks of an image: its tiles, or the image in one piece.
pub open spec fn image_blocks(
    bytes: Seq<u8>,
    width: usize,
    height: usize,
    bits: u16,
    tiles: Option<TiffTileOptions>,
) -> Seq<Seq<u8>> {
    match tiles {
        Some(t) => tile_blocks(
            bytes,
            TileShape {
                width: width as int,
                height: height as int,
                tile_width: t.width as int,
                tile_height: t.height as int,
                pixel: bits as int / 8,
            },
        ),
        None => seq![bytes],
    }
}

/// What goes into the file of an image beside its pixels.
pub struct TiffSettings {
    pub bits_per_sample: u16,
    pub sample_format: u16,
    pub compression: TiffCompression,
    pub tiles: Option<TiffTileOptions>,
}

/// Whether `r` is the file of an image, or the first obstacle.
pub open spec fn tiff_outcome(
    r: Result<Vec<u8>>,
    width: usize,
    height: usize,
    bytes: Seq<u8>,
    info: Option<InfoView>,
    keys: Seq<KeyView>,
    s: TiffSettings,
) -> bool {
    match pixels_error(width, height, s.bits_per_sample, bytes.len()) {
        Some(e) => fails_with(r, e),
        None => if info is Some && extra_of(info->Some_0, keys) is Err {
            fails_with(r, extra_of(info->Some_0, keys)->Err_0)
        } else {
            let extra = match info {
                Some(i) => Some(extra_of(i, keys)->Ok_0),
                None => None,
            };
            let blocks = image_blocks(bytes, width, height, s.bits_per_sample, s.tiles);
            if crate::tiff_layout::front_size(s.tiles, extra) > u32::MAX {
                is_invalid(r, "float TIFF pixel offset overflow"@)
            } else {
                match stored(s.compression, blocks) {
                    Err(e) => is_invalid(r, "DEFLATE compression failed: "@ + e),
                    Ok(written) => {
                        let plan = TiffPlan {
                            width: width as u32,
                            height: height as u32,
                            bits_per_sample: s.bits_per_sample,
                            sample_format: s.sample_format,
                            compression: compression_code(s.compression),
                            tiles: s.tiles,
                            extra,
                            blocks: written,
                        };
                        match plan.error() {
                            Some(e) => fails_with(r, e),
                            None => r is Ok && r->Ok_0@ == plan.file() && read_back_as(
                                s.compression,
                                written,
                                blocks,
                            ),
                        }
                    },
                }
            }
        },
    }
}

/// What ties an image to the earth, where it is known.
pub open spec fn info_view(info: Option<&GeoTiffInfo>) -> Option<InfoView> {
    match info {
        Some(i) => Some(i@),
        None => None,
    }
}

fn blocks_of_image(
    bytes: Vec<u8>,
    width: usize,
    height: usize,
    bits: u16,
    tiles: &Option<TiffTileOptions>,
) -> (r: Vec<Vec<u8>>)
    requires
        width > 0,
        height > 0,
        bits / 8 > 0,
        bytes@.len() == (width * height) * (bits / 8),
        tiles is Some ==> tiles->Some_0.width * tiles->Some_0.height * (bits / 8) <= usize::MAX,
    ensures
        blocks_view(r@) == image_blocks(bytes@, width, height, bits, *tiles),
        tiles is None ==> r@.len() == 1,
{
    match tiles {
        Some(t) => {
            let pixel: usize = (bits / 8) as usize;
            build_tile_blocks(&bytes, width, height, t.width, t.height, pixel)
        },
        None => {
            let mut blocks: Vec<Vec<u8>> = Vec::new();
            blocks.push(bytes);
            assert(blocks_view(blocks@) =~= seq![bytes@]);
            blocks
        },
    }
}

/// The file of an image of one sample per pixel.
pub fn write_tiff_pixels(
    width: usize,
    height: usize,
    sample_data: TiffSampleData,
    geo_info: Option<&GeoTiffInfo>,
    geo_key_defs: Option<&Vec<GeoKeyDef>>,
    compression: TiffCompression,
    tile_options: Option<TiffTileOptions>,
) -> (r: Result<Vec<u8>>)
    requires
        given_keys(geo_key_defs).len() < u32::MAX,
        tile_options is Some ==> tile_options->Some_0.width * tile_options->Some_0.height * (
        sample_data.bits_per_sample / 8) <= usize::MAX,
    ensures
        tiff_outcome(
            r,
            width,
            height,
            sample_data.bytes@,
            info_view(geo_info),
            given_keys(geo_key_defs),
            TiffSettings {
                bits_per_sample: sample_data.bits_per_sample,
                sample_format: sample_data.sample_format,
                compression,
                tiles: tile_options,
            },
        ),
{
    let bits: u16 = sample_data.bits_per_sample;
    match validate_pixels(width, height, bits, sample_data.bytes.len()) {
        Ok(()) => {},
        Err(e) => {
            return Err(e);
        },
    }
    let extra: Option<GeoTiffExtraData> = match geo_info {
        Some(info) => match extra_data_from_info(info, geo_key_defs) {
            Ok(x) => Some(x),
            Err(e) => {
                return Err(e);
            },
        },
        None => None,
    };
    if crate::tiff_layout::front_bytes(&tile_options, &extra).is_none() {
        return Err(RustySatError::invalid_input("float TIFF pixel offset overflow"));
    }
    let blocks = blocks_of_image(sample_data.bytes, width, height, bits, &tile_options);
    let ghost plain = blocks_view(blocks@);
    let blocks = match compress_blocks(blocks, compression) {
        Ok(b) => b,
        Err(e) => {
            return Err(e);
        },
    };
    proof {
        lemma_stored_count(compression, plain);
    }
    let parts = TiffParts {
        width: width as u32,
        height: height as u32,
        bits_per_sample: bits,
        sample_format: sample_data.sample_format,
        compression,
        tiles: tile_options,
        extra,
        blocks,
    };
    encode_tiff(&parts)
}

/// The text that describes an area in a file.
pub open spec fn area_citation(m: Map<Seq<char>, MetadataTree>) -> Seq<char> {
    let proj_id = match text_at(m, "proj_id"@) {
        Some(t) => t,
        None => "unknown"@,
    };
    let projection = if m.contains_key("projection"@) && m["projection"@] is Table {
        match text_at(m["projection"@]->Table_0, "proj"@) {
            Some(t) => t,
            None => "unknown"@,
        }
    } else {
        "unknown"@
    };
    "RustySat area "@ + proj_id + " proj="@ + projection
}

fn geotiff_citation(area: &MetadataTable) -> (r: String)
    ensures
        r@ == area_citation(area@),
{
    let proj_id = match area.get("proj_id") {
        Some(value) => match value.as_str() {
            Some(t) => t,
            None => "unknown",
        },
        None => "unknown",
    };
    let projection = match area.get("projection") {
        Some(value) => match value.as_table() {
            Some(table) => match table.get("proj") {
                Some(value) => match value.as_str() {
                    Some(t) => t,
                    None => "unknown",
                },
                None => "unknown",
            },
            None => "unknown",
        },
        None => "unknown",
    };
    join4("RustySat area ", proj_id, " proj=", projection)
}

/// Whether an area has all that ties an image to the earth.
pub open spec fn area_complete(m: Map<Seq<char>, MetadataTree>) -> bool {
    &&& has_four(m, "area_extent"@)
    &&& size_at(m, "height"@) is Some
    &&& size_at(m, "width"@) is Some
    &&& size_at(m, "height"@)->Some_0 > 0
    &&& size_at(m, "width"@)->Some_0 > 0
}

/// The number zero.
pub open spec fn zero() -> F64 {
    F64 { bits: 0 }
}

/// Whether `e` are the ends of an area and `sx` and `sy` the sizes of its pixels.
/// `pixel_size` gives the size of the parts of a range.
pub open spec fn area_measured<Z: Fn(F64, F64, usize) -> F64>(
    m: Map<Seq<char>, MetadataTree>,
    pixel_size: Z,
    e: Seq<F64>,
    sx: F64,
    sy: F64,
) -> bool {
    &&& numbers_in(m["area_extent"@]->List_0, e)
    &&& pixel_size.ensures((e[0], e[2], size_at(m, "width"@)->Some_0), sx)
    &&& pixel_size.ensures((e[1], e[3], size_at(m, "height"@)->Some_0), sy)
}

/// Whether `out` ties an image of an area to the earth.
pub open spec fn is_area_info<Z: Fn(F64, F64, usize) -> F64>(
    area: MetadataTree,
    pixel_size: Z,
    out: Option<InfoView>,
) -> bool {
    match area {
        MetadataTree::Table(m) => if !area_complete(m) {
            out is None
        } else {
            exists|e: Seq<F64>, sx: F64, sy: F64| #[trigger]
                area_measured(m, pixel_size, e, sx, sy) && out == if sx.finite()
                    && sy.finite() {
                    Some(
                        InfoView {
                            pixel_scale: seq![sx, sy, zero()],
                            tiepoint: seq![zero(), zero(), zero(), e[0], e[3], zero()],
                            citation: area_citation(m),
                        },
                    )
                } else {
                    None
                }
        },
        _ => out is None,
    }
}

/// What is known of an image, as mathematical values.
pub open spec fn info_of(info: Option<GeoTiffInfo>) -> Option<InfoView> {
    match info {
        Some(i) => Some(i@),
        None => None,
    }
}

/// What ties an image of an area to the earth.
pub fn info_from_area_attr<Z: Fn(F64, F64, usize) -> F64>(
    area: &MetadataValue,
    pixel_size: &Z,
) -> (r: Option<GeoTiffInfo>)
    requires
        forall|a: F64, b: F64, n: usize| #[trigger] pixel_size.requires((a, b, n)),
    ensures
        is_area_info(area@, *pixel_size, info_of(r)),
{
    let map = match area.as_table() {
        Some(m) => m,
        None => {
            return None;
        },
    };
    let extent = match map.get("area_extent") {
        Some(value) => match metadata_f64_list4(value) {
            Some(e) => e,
            None => {
                return None;
            },
        },
        None => {
            return None;
        },
    };
    let height: usize = match map.get("height") {
        Some(value) => match metadata_usize(value) {
            Some(n) => n,
            None => {
                return None;
            },
        },
        None => {
            return None;
        },
    };
    let width: usize = match map.get("width") {
        Some(value) => match metadata_usize(value) {
            Some(n) => n,
            None => {
                return None;
            },
        },
        None => {
            return None;
        },
    };
    if height == 0 || width == 0 {
        return None;
    }
    let sx = pixel_size(extent[0], extent[2], width);
    let sy = pixel_size(extent[1], extent[3], height);
    assert(area_measured(map@, *pixel_size, extent@, sx, sy));
    if !sx.is_finite() || !sy.is_finite() {
        return None;
    }
    let z = F64 { bits: 0 };
    let pixel_scale: [F64; 3] = [sx, sy, z];
    let tiepoint: [F64; 6] = [z, z, z, extent[0], extent[3], z];
    assert(pixel_scale@ =~= seq![sx, sy, zero()]);
    assert(tiepoint@ =~= seq![zero(), zero(), zero(), extent@[0], extent@[3], zero()]);
    Some(GeoTiffInfo { pixel_scale, tiepoint, citation: geotiff_citation(map) })
}

/// The bits of the number one.
pub const ONE: u64 = 0x3ff0_0000_0000_0000;

/// Whether `s` is the spacing of coordinates: that of the first two, or one where there
/// are less than two or where it is not finite. `spacing` gives the distance of two.
pub open spec fn is_spacing<S: Fn(F64, F64) -> F64>(values: Seq<F64>, spacing: S, s: F64) -> bool {
    if values.len() < 2 {
        s == F64 { bits: ONE }
    } else {
        exists|d: F64| #[trigger]
            spacing.ensures((values[0], values[1]), d) && s == if d.finite() {
                d
            } else {
                F64 { bits: ONE }
            }
    }
}

fn coord_spacing<S: Fn(F64, F64) -> F64>(values: &Vec<F64>, spacing: &S) -> (r: F64)
    requires
        forall|a: F64, b: F64| #[trigger] spacing.requires((a, b)),
    ensures
        is_spacing(values@, *spacing, r),
        r.finite(),
{
    if values.len() < 2 {
        return F64 { bits: ONE };
    }
    let d = spacing(values[0], values[1]);
    assert(spacing.ensures((values@[0], values@[1]), d));
    if d.is_finite() {
        d
    } else {
        F64 { bits: ONE }
    }
}

/// Whether `sx` and `sy` are the spacings of axes, and `(ox, oy)` is the first corner of
/// the first pixel. `left` and `top` give the edge of a pixel before and above its centre.
pub open spec fn axes_measured<S: Fn(F64, F64) -> F64, L: Fn(F64, F64) -> F64, T: Fn(F64, F64) -> F64>(
    x: Seq<F64>,
    y: Seq<F64>,
    spacing: S,
    left: L,
    top: T,
    sx: F64,
    sy: F64,
    ox: F64,
    oy: F64,
) -> bool {
    &&& is_spacing(x, spacing, sx)
    &&& is_spacing(y, spacing, sy)
    &&& left.ensures((x[0], sx), ox)
    &&& top.ensures((y[0], sy), oy)
}

/// Whether an array has coordinates along both axes.
pub open spec fn has_axes(a: AnyArrayView) -> bool {
    &&& a.coords().dom().contains("x"@)
    &&& a.coords().dom().contains("y"@)
    &&& a.coords()["x"@].values.len() > 0
    &&& a.coords()["y"@].values.len() > 0
}

/// Whether `out` ties an image to the earth by the coordinates along its axes.
pub open spec fn is_axes_info<S: Fn(F64, F64) -> F64, L: Fn(F64, F64) -> F64, T: Fn(F64, F64) -> F64>(
    a: AnyArrayView,
    spacing: S,
    left: L,
    top: T,
    out: Option<InfoView>,
) -> bool {
    if !has_axes(a) {
        out is None
    } else {
        exists|sx: F64, sy: F64, ox: F64, oy: F64| #[trigger]
            axes_measured(
                a.coords()["x"@].values,
                a.coords()["y"@].values,
                spacing,
                left,
                top,
                sx,
                sy,
                ox,
                oy,
            ) && out == Some(
                InfoView {
                    pixel_scale: seq![sx, sy, zero()],
                    tiepoint: seq![zero(), zero(), zero(), ox, oy, zero()],
                    citation: "RustySat x/y coordinate axes"@,
                },
            )
    }
}

/// What ties an image to the earth by the coordinates along its axes.
pub fn info_from_xy_coords<
    S: Fn(F64, F64) -> F64,
    L: Fn(F64, F64) -> F64,
    T: Fn(F64, F64) -> F64,
>(array: &AnyDataArray, spacing: &S, left: &L, top: &T) -> (r: Option<GeoTiffInfo>)
    requires
        forall|a: F64, b: F64| #[trigger] spacing.requires((a, b)),
        forall|a: F64, b: F64| #[trigger] left.requires((a, b)),
        forall|a: F64, b: F64| #[trigger] top.requires((a, b)),
    ensures
        is_axes_info(array@, *spacing, *left, *top, info_of(r)),
{
    let x = match array.coord("x") {
        Some(c) => c.values(),
        None => {
            return None;
        },
    };
    let y = match array.coord("y") {
        Some(c) => c.values(),
        None => {
            return None;
        },
    };
    if x.len() == 0 || y.len() == 0 {
        return None;
    }
    let sx = coord_spacing(x, spacing);
    let sy = coord_spacing(y, spacing);
    let ox = left(x[0], sx);
    let oy = top(y[0], sy);
    assert(axes_measured(x@, y@, *spacing, *left, *top, sx, sy, ox, oy));
    let z = F64 { bits: 0 };
    let pixel_scale: [F64; 3] = [sx, sy, z];
    let tiepoint: [F64; 6] = [z, z, z, ox, oy, z];
    assert(pixel_scale@ =~= seq![sx, sy, zero()]);
    assert(tiepoint@ =~= seq![zero(), zero(), zero(), ox, oy, zero()]);
    Some(GeoTiffInfo { pixel_scale, tiepoint, citation: owned("RustySat x/y coordinate axes") })
}

/// Whether `out` ties the image of a data set to the earth: by its area, or by the
/// coordinates along its axes.
pub open spec fn is_dataset_info<
    Z: Fn(F64, F64, usize) -> F64,
    S: Fn(F64, F64) -> F64,
    L: Fn(F64, F64) -> F64,
    T: Fn(F64, F64) -> F64,
>(d: DatasetView, pixel_size: Z, spacing: S, left: L, top: T, out: Option<InfoView>) -> bool {
    ||| d.attrs.contains_key("area"@) && out is Some && is_area_info(
        d.attrs["area"@],
        pixel_size,
        out,
    )
    ||| (d.attrs.contains_key("area"@) ==> is_area_info(
        d.attrs["area"@],
        pixel_size,
        None,
    )) && match d.array {
        Some(a) => is_axes_info(a, spacing, left, top, out),
        None => out is None,
    }
}

/// What ties the image of a data set to the earth.
pub fn geo_info_from_dataset<
    Z: Fn(F64, F64, usize) -> F64,
    S: Fn(F64, F64) -> F64,
    L: Fn(F64, F64) -> F64,
    T: Fn(F64, F64) -> F64,
>(dataset: &Dataset, pixel_size: &Z, spacing: &S, left: &L, top: &T) -> (r: Option<
    GeoTiffInfo,
>)
    requires
        forall|a: F64, b: F64, n: usize| #[trigger] pixel_size.requires((a, b, n)),
        forall|a: F64, b: F64| #[trigger] spacing.requires((a, b)),
        forall|a: F64, b: F64| #[trigger] left.requires((a, b)),
        forall|a: F64, b: F64| #[trigger] top.requires((a, b)),
    ensures
        is_dataset_info(dataset@, *pixel_size, *spacing, *left, *top, info_of(r)),
{
    match dataset.attr("area") {
        Some(area) => {
            let info = info_from_area_attr(area, pixel_size);
            if info.is_some() {
                return info;
            }
        },
        None => {},
    }
    match dataset.array() {
        Some(array) => info_from_xy_coords(array, spacing, left, top),
        None => None,
    }
}

/// The parameters of the projection of a data set, where it has an area with one.
pub open spec fn projection_texts(d: DatasetView) -> Option<Map<Seq<char>, Seq<char>>> {
    if d.attrs.contains_key("area"@) && d.attrs["area"@] is Table {
        let m = d.attrs["area"@]->Table_0;
        if m.contains_key("projection"@) && m["projection"@] is Table {
            Some(texts_in(m["projection"@]->Table_0))
        } else {
            None
        }
    } else {
        None
    }
}

/// Whether `r` holds the keys of the reference system of a data set, where it has one
/// that has keys.
pub open spec fn is_dataset_keys<
    P: Fn(String) -> Option<(F64, String)>,
    M: Fn(F64, F64) -> (F64, String),
>(d: DatasetView, read: P, minor: M, r: Option<Vec<GeoKeyDef>>) -> bool {
    match projection_texts(d) {
        None => r is None,
        Some(params) => exists|c: Result<ProjCrs>| #[trigger]
            crate::crs::map_outcome(c, params, read) && is_crs_keys(c, read, minor, r),
    }
}

/// Whether `r` holds the keys of a reference system, where there is one that has keys.
pub open spec fn is_crs_keys<
    P: Fn(String) -> Option<(F64, String)>,
    M: Fn(F64, F64) -> (F64, String),
>(c: Result<ProjCrs>, read: P, minor: M, r: Option<Vec<GeoKeyDef>>) -> bool {
    match c {
        Err(_) => r is None,
        Ok(crs) => exists|n: crate::crs::NumbersView| #[trigger]
            crate::crs::numbers_read(crs@.params, read, minor, n) && {
                let keys = crate::crs::crs_keys(crs@.params, n);
                if keys.len() == 0 {
                    r is None
                } else {
                    r is Some && keys_view(r->Some_0@) == keys
                }
            },
    }
}

/// The keys of the reference system of a data set.
pub fn geo_key_defs_from_dataset<
    P: Fn(String) -> Option<(F64, String)>,
    M: Fn(F64, F64) -> (F64, String),
>(dataset: &Dataset, read: &P, minor: &M) -> (r: Option<Vec<GeoKeyDef>>)
    requires
        forall|s: String| #[trigger] read.requires((s,)),
        forall|a: F64, rf: F64| #[trigger] minor.requires((a, rf)),
    ensures
        is_dataset_keys(dataset@, *read, *minor, r),
        r is Some ==> r->Some_0@.len() <= 12,
{
    let area = match dataset.attr("area") {
        Some(value) => match value.as_table() {
            Some(table) => table,
            None => {
                return None;
            },
        },
        None => {
            return None;
        },
    };
    let projection = match area.get("projection") {
        Some(value) => match value.as_table() {
            Some(table) => table,
            None => {
                return None;
            },
        },
        None => {
            return None;
        },
    };
    let params = table_texts(projection);
    let made = ProjCrs::from_projection_map(&params, read);
    let ghost c = made;
    proof {
        assert(crate::crs::map_outcome(c, projection_texts(dataset@)->Some_0, *read));
    }
    match made {
        Ok(crs) => {
            let defs = crs.to_geotiff_geo_key_defs(read, minor);
            let ghost n = choose|n: crate::crs::NumbersView| #[trigger]
                crate::crs::numbers_read(crs@.params, *read, *minor, n) && keys_view(defs@)
                    == crate::crs::crs_keys(crs@.params, n);
            assert(crate::crs::numbers_read(crs@.params, *read, *minor, n));
            assert(keys_view(defs@).len() == defs@.len());
            proof {
                crate::crs::lemma_few_keys(crs@.params, n);
            }
            if defs.len() == 0 {
                assert(is_crs_keys(c, *read, *minor, None));
                None
            } else {
                let r = Some(defs);
                assert(is_crs_keys(c, *read, *minor, r));
                r
            }
        },
        Err(_) => None,
    }
}

/// The error with which the extension of a file name is refused, if it is.
pub open spec fn extension_error(extension: Option<Seq<char>>) -> Option<ErrorView> {
    match extension {
        None => Some(ErrorView::InvalidInput("float TIFF filename must include an extension"@)),
        Some(e) => if lowered(e) == "tif"@ || lowered(e) == "tiff"@ {
            None
        } else {
            Some(ErrorView::Unsupported("float TIFF format '"@ + e + "'"@))
        },
    }
}

/// A text, where there is one.
pub open spec fn str_view(text: Option<&str>) -> Option<Seq<char>> {
    match text {
        Some(t) => Some(t@),
        None => None,
    }
}

pub fn validate_tiff_extension(extension: Option<&str>) -> (r: Result<()>)
    ensures
        match extension_error(str_view(extension)) {
            Some(e) => fails_with(r, e),
            None => r is Ok,
        },
{
    match extension {
        None => Err(
            RustySatError::invalid_input("float TIFF filename must include an extension"),
        ),
        Some(e) => {
            let low = lower_text(e);
            if same_text(low.as_str(), "tif") || same_text(low.as_str(), "tiff") {
                Ok(())
            } else {
                let text = join3("float TIFF format '", e, "'");
                Err(RustySatError::unsupported(text.as_str()))
            }
        },
    }
}

/// The error with which a data set is refused, if it is: a file holds one plane.
pub open spec fn dataset_error(d: DatasetView) -> Option<ErrorView> {
    match d.array {
        None => Some(ErrorView::InvalidInput("dataset '"@ + d.name + "' has no array data"@)),
        Some(a) => if a.shape().len() != 2 {
            Some(
                ErrorView::InvalidInput(
                    "float TIFF writer requires a 2D y/x array, got shape "@ + list_notation(
                        a.shape(),
                    ),
                ),
            )
        } else if !a.dims().contains("y"@) {
            Some(ErrorView::InvalidInput("array is missing 'y' dimension"@))
        } else if !a.dims().contains("x"@) {
            Some(ErrorView::InvalidInput("array is missing 'x' dimension"@))
        } else {
            None
        }
    }
}

/// The height and the width of an array.
pub open spec fn plane_shape(a: AnyArrayView) -> (usize, usize) {
    (
        a.shape()[crate::text::position_in(a.dims(), "y"@) as int],
        a.shape()[crate::text::position_in(a.dims(), "x"@) as int],
    )
}

/// The first obstacle to the file of a data set, if there is one, before its values are
/// read.
pub open spec fn tiff_dataset_error(
    d: DatasetView,
    extension: Option<Seq<char>>,
    policy: TiffSamplePolicy,
) -> Option<ErrorView> {
    if policy_error(policy) is Some {
        policy_error(policy)
    } else if extension_error(extension) is Some {
        extension_error(extension)
    } else {
        dataset_error(d)
    }
}

/// Whether `r` is the file of the values of a plane, or the first obstacle.
pub open spec fn tiff_values_outcome<U: Fn(F64, F64, F64) -> F64>(
    r: Result<Vec<u8>>,
    shape: (usize, usize),
    values: Seq<F64>,
    mask: Option<Seq<bool>>,
    policy: TiffSamplePolicy,
    settings: TiffSettings,
    info: Option<InfoView>,
    keys: Seq<KeyView>,
    scaled: U,
) -> bool {
    match sample_error(policy, values, mask) {
        Some(e) => fails_with(r, e),
        None => exists|bytes: Seq<u8>| #[trigger]
            is_sample_bytes(policy, values, mask, scaled, bytes) && tiff_outcome(
                r,
                shape.1,
                shape.0,
                bytes,
                info,
                keys,
                settings,
            ),
    }
}

/// Whether `r` is the file of a data set, or the first obstacle.
pub open spec fn tiff_dataset_outcome<U: Fn(F64, F64, F64) -> F64>(
    r: Result<Vec<u8>>,
    d: DatasetView,
    extension: Option<Seq<char>>,
    policy: TiffSamplePolicy,
    compression: TiffCompression,
    tiles: Option<TiffTileOptions>,
    info: Option<InfoView>,
    keys: Seq<KeyView>,
    scaled: U,
) -> bool {
    match tiff_dataset_error(d, extension, policy) {
        Some(e) => fails_with(r, e),
        None => {
            let a = d.array->Some_0;
            let settings = TiffSettings {
                bits_per_sample: policy_bits(policy),
                sample_format: policy_format(policy),
                compression,
                tiles,
            };
            exists|numbers: Seq<F64>| #[trigger]
                are_numbers(a, numbers) && tiff_values_outcome(
                    r,
                    plane_shape(a),
                    numbers,
                    a.mask(),
                    policy,
                    settings,
                    info,
                    keys,
                    scaled,
                )
        },
    }
}

/// Whether `r` is the file of a data set with what ties it to the earth, or the first
/// obstacle.
pub open spec fn tiff_file_outcome<
    U: Fn(F64, F64, F64) -> F64,
    Z: Fn(F64, F64, usize) -> F64,
    S: Fn(F64, F64) -> F64,
    L: Fn(F64, F64) -> F64,
    T: Fn(F64, F64) -> F64,
    P: Fn(String) -> Option<(F64, String)>,
    M: Fn(F64, F64) -> (F64, String),
>(
    r: Result<Vec<u8>>,
    d: DatasetView,
    extension: Option<Seq<char>>,
    policy: TiffSamplePolicy,
    compression: TiffCompression,
    tiles: Option<TiffTileOptions>,
    scaled: U,
    pixel_size: Z,
    spacing: S,
    left: L,
    top: T,
    read: P,
    minor: M,
) -> bool {
    exists|info: Option<GeoTiffInfo>, keys: Option<Vec<GeoKeyDef>>|
        #![trigger info_of(info), keys_of(keys)]
        is_dataset_info(d, pixel_size, spacing, left, top, info_of(info))
            && is_dataset_keys(d, read, minor, keys) && tiff_dataset_outcome(
            r,
            d,
            extension,
            policy,
            compression,
            tiles,
            info_of(info),
            keys_of(keys),
            scaled,
        )
}

/// The keys, none where there is no list of them.
pub open spec fn keys_of(keys: Option<Vec<GeoKeyDef>>) -> Seq<KeyView> {
    match keys {
        Some(k) => keys_view(k@),
        None => Seq::empty(),
    }
}

/// The file of a data set. `scaled` gives the place of a number on a scale; the other
/// functions are those of the place of the image on the
/// earth and of its reference system.
pub fn encode_tiff_dataset<
    U: Fn(F64, F64, F64) -> F64,
    Z: Fn(F64, F64, usize) -> F64,
    S: Fn(F64, F64) -> F64,
    L: Fn(F64, F64) -> F64,
    T: Fn(F64, F64) -> F64,
    P: Fn(String) -> Option<(F64, String)>,
    M: Fn(F64, F64) -> (F64, String),
>(
    dataset: &Dataset,
    extension: Option<&str>,
    sample_policy: &TiffSamplePolicy,
    compression: TiffCompression,
    tile_options: Option<TiffTileOptions>,
    scaled: &U,
    pixel_size: &Z,
    spacing: &S,
    left: &L,
    top: &T,
    read: &P,
    minor: &M,
) -> (r: Result<Vec<u8>>)
    requires
        tile_options is Some ==> tile_options->Some_0.width * tile_options->Some_0.height * (
        policy_bits(*sample_policy) / 8) <= usize::MAX,
        forall|v: F64, low: F64, high: F64| #[trigger] scaled.requires((v, low, high)),
        forall|a: F64, b: F64, n: usize| #[trigger] pixel_size.requires((a, b, n)),
        forall|a: F64, b: F64| #[trigger] spacing.requires((a, b)),
        forall|a: F64, b: F64| #[trigger] left.requires((a, b)),
        forall|a: F64, b: F64| #[trigger] top.requires((a, b)),
        forall|s: String| #[trigger] read.requires((s,)),
        forall|a: F64, rf: F64| #[trigger] minor.requires((a, rf)),
    ensures
        tiff_file_outcome(
            r,
            dataset@,
            str_view(extension),
            *sample_policy,
            compression,
            tile_options,
            *scaled,
            *pixel_size,
            *spacing,
            *left,
            *top,
            *read,
            *minor,
        ),
{
    let geo_info = geo_info_from_dataset(dataset, pixel_size, spacing, left, top);
    let geo_key_defs = geo_key_defs_from_dataset(dataset, read, minor);
    let ghost info = geo_info;
    let ghost keys = geo_key_defs;
    assert(is_dataset_info(dataset@, *pixel_size, *spacing, *left, *top, info_of(info)));
    assert(is_dataset_keys(dataset@, *read, *minor, keys));
    assert(info_of(info) == info_of(geo_info) && keys_of(keys) == keys_of(geo_key_defs));
    match sample_policy.validate() {
        Ok(()) => {},
        Err(e) => {
            return Err(e);
        },
    }
    match validate_tiff_extension(extension) {
        Ok(()) => {},
        Err(e) => {
            return Err(e);
        },
    }
    let array = match dataset.array() {
        Some(a) => a,
        None => {
            let text = join3("dataset '", dataset.id().name(), "' has no array data");
            return Err(RustySatError::invalid_input(text.as_str()));
        },
    };
    if array.shape().len() != 2 {
        let shape = list_text(array.shape().as_slice());
        let text = join2("float TIFF writer requires a 2D y/x array, got shape ", shape.as_str());
        return Err(RustySatError::invalid_input(text.as_str()));
    }
    let (height, width) = match array.shape_yx() {
        Ok(s) => s,
        Err(e) => {
            return Err(e);
        },
    };
    let mask = array.mask();
    let numbers = array.numbers();
    assert(are_numbers(array@, numbers@));
    let samples = match sample_policy.encode_values(&numbers, mask, scaled) {
        Ok(x) => x,
        Err(e) => {
            return Err(e);
        },
    };
    let ghost bytes = samples.bytes@;
    let r = write_tiff_pixels(
        width,
        height,
        samples,
        geo_info.as_ref(),
        geo_key_defs.as_ref(),
        compression,
        tile_options,
    );
    proof {
        assert(flags_of(mask) == array@.mask());
        assert(is_sample_bytes(*sample_policy, numbers@, array@.mask(), *scaled, bytes));
    }
    r
}

/// A writer of TIFF files, as a mathematical value.
#[verifier::ext_equal]
pub struct TiffWriterView {
    pub name: Seq<char>,
    pub sample_policy: TiffSamplePolicy,
    pub compression: TiffCompression,
    pub tiles: Option<TiffTileOptions>,
}

/// A writer of TIFF files with its settings.
#[derive(Clone, Debug, PartialEq)]
pub struct FloatTiffWriter {
    name: String,
    sample_policy: TiffSamplePolicy,
    compression: TiffCompression,
    tile_options: Option<TiffTileOptions>,
}

impl View for FloatTiffWriter {
    type V = TiffWriterView;

    closed spec fn view(&self) -> TiffWriterView {
        TiffWriterView {
            name: self.name@,
            sample_policy: self.sample_policy,
            compression: self.compression,
            tiles: self.tile_options,
        }
    }
}

/// A writer with a name that has no other settings yet.
pub open spec fn plain_writer(name: Seq<char>) -> TiffWriterView {
    TiffWriterView {
        name,
        sample_policy: TiffSamplePolicy::Float32 { fill_value: F32 { bits: NAN_BITS_32 } },
        compression: TiffCompression::Uncompressed,
        tiles: None,
    }
}

impl Default for FloatTiffWriter {
    fn default() -> (r: Self)
        ensures
            r@ == plain_writer("float_tiff"@),
    {
        FloatTiffWriter {
            name: owned("float_tiff"),
            sample_policy: TiffSamplePolicy::Float32 { fill_value: F32 { bits: NAN_BITS_32 } },
            compression: TiffCompression::Uncompressed,
            tile_options: None,
        }
    }
}

impl FloatTiffWriter {
    pub fn new(name: &str) -> (r: Result<Self>)
        ensures
            trimmed(name@).len() == 0 ==> is_invalid(
                r,
                "float TIFF writer name cannot be empty"@,
            ),
            trimmed(name@).len() > 0 ==> r is Ok && r->Ok_0@ == plain_writer(name@),
    {
        if trim_text(name).as_str().is_empty() {
            return Err(RustySatError::invalid_input("float TIFF writer name cannot be empty"));
        }
        Ok(
            FloatTiffWriter {
                name: owned(name),
                sample_policy: TiffSamplePolicy::Float32 { fill_value: F32 { bits: NAN_BITS_32 } },
                compression: TiffCompression::Uncompressed,
                tile_options: None,
            },
        )
    }

    pub fn with_fill_value(self, fill_value: F32) -> (r: Self)
        ensures
            r@ == (TiffWriterView {
                sample_policy: TiffSamplePolicy::Float32 { fill_value },
                ..self@
            }),
    {
        self.with_sample_policy(TiffSamplePolicy::Float32 { fill_value })
    }

    pub fn with_float64_output(self, fill_value: F64) -> (r: Self)
        ensures
            r@ == (TiffWriterView {
                sample_policy: TiffSamplePolicy::Float64 { fill_value },
                ..self@
            }),
    {
        self.with_sample_policy(TiffSamplePolicy::Float64 { fill_value })
    }

    pub fn with_u16_auto_scaled_output(self, fill_value: u16) -> (r: Self)
        ensures
            r@ == (TiffWriterView {
                sample_policy: TiffSamplePolicy::UInt16Scaled { min: None, max: None, fill_value },
                ..self@
            }),
    {
        self.with_sample_policy(
            TiffSamplePolicy::UInt16Scaled { min: None, max: None, fill_value },
        )
    }

    pub fn with_u16_scaled_output(self, min: F64, max: F64, fill_value: u16) -> (r: Result<Self>)
        ensures
            scale_ok(min, max) ==> r is Ok && r->Ok_0@ == (TiffWriterView {
                sample_policy: TiffSamplePolicy::UInt16Scaled {
                    min: Some(min),
                    max: Some(max),
                    fill_value,
                },
                ..self@
            }),
            !scale_ok(min, max) ==> is_invalid(
                r,
                "u16 scaled TIFF output requires finite max greater than min"@,
            ),
    {
        match validate_u16_scale(min, max) {
            Ok(()) => {},
            Err(e) => {
                return Err(e);
            },
        }
        Ok(
            self.with_sample_policy(
                TiffSamplePolicy::UInt16Scaled { min: Some(min), max: Some(max), fill_value },
            ),
        )
    }

    pub fn with_sample_policy(self, sample_policy: TiffSamplePolicy) -> (r: Self)
        ensures
            r@ == (TiffWriterView { sample_policy, ..self@ }),
    {
        FloatTiffWriter {
            name: self.name,
            sample_policy,
            compression: self.compression,
            tile_options: self.tile_options,
        }
    }

    pub fn with_compression(self, compression: TiffCompression) -> (r: Self)
        ensures
            r@ == (TiffWriterView { compression, ..self@ }),
    {
        FloatTiffWriter {
            name: self.name,
            sample_policy: self.sample_policy,
            compression,
            tile_options: self.tile_options,
        }
    }

    pub fn with_tiles(self, options: TiffTileOptions) -> (r: Self)
        ensures
            r@ == (TiffWriterView { tiles: Some(options), ..self@ }),
    {
        FloatTiffWriter {
            name: self.name,
            sample_policy: self.sample_policy,
            compression: self.compression,
            tile_options: Some(options),
        }
    }

    pub fn name(&self) -> (r: &str)
        ensures
            r@ == self@.name,
    {
        self.name.as_str()
    }

    pub fn sample_policy(&self) -> (r: TiffSamplePolicy)
        ensures
            r == self@.sample_policy,
    {
        self.sample_policy
    }

    pub fn tile_options(&self) -> (r: Option<TiffTileOptions>)
        ensures
            r == self@.tiles,
    {
        self.tile_options
    }

    /// The file of a data set with the settings of the writer.
    pub fn encode_dataset<
        U: Fn(F64, F64, F64) -> F64,
        Z: Fn(F64, F64, usize) -> F64,
        S: Fn(F64, F64) -> F64,
        L: Fn(F64, F64) -> F64,
        T: Fn(F64, F64) -> F64,
        P: Fn(String) -> Option<(F64, String)>,
        M: Fn(F64, F64) -> (F64, String),
    >(
        &self,
        dataset: &Dataset,
        extension: Option<&str>,
        scaled: &U,
        pixel_size: &Z,
        spacing: &S,
        left: &L,
        top: &T,
        read: &P,
        minor: &M,
    ) -> (r: Result<Vec<u8>>)
        requires
            self@.tiles is Some ==> self@.tiles->Some_0.width * self@.tiles->Some_0.height * (
            policy_bits(self@.sample_policy) / 8) <= usize::MAX,
            forall|v: F64, low: F64, high: F64| #[trigger] scaled.requires((v, low, high)),
            forall|a: F64, b: F64, n: usize| #[trigger] pixel_size.requires((a, b, n)),
            forall|a: F64, b: F64| #[trigger] spacing.requires((a, b)),
            forall|a: F64, b: F64| #[trigger] left.requires((a, b)),
            forall|a: F64, b: F64| #[trigger] top.requires((a, b)),
            forall|s: String| #[trigger] read.requires((s,)),
            forall|a: F64, rf: F64| #[trigger] minor.requires((a, rf)),
        ensures
            tiff_file_outcome(
                r,
                dataset@,
                str_view(extension),
                self@.sample_policy,
                self@.compression,
                self@.tiles,
                *scaled,
                *pixel_size,
                *spacing,
                *left,
                *top,
                *read,
                *minor,
            ),
    {
        encode_tiff_dataset(
            dataset,
            extension,
            &self.sample_policy,
            self.compression,
            self.tile_options,
            scaled,
            pixel_size,
            spacing,
            left,
            top,
            read,
            minor,
        )
    }
}

/// Where a reader of a file finds the sample of a pixel: it follows the entries of the
/// directory to the block of the pixel, and goes to the place of the pixel in it.
pub open spec fn sample_place(
    file: Seq<u8>,
    width: usize,
    size: int,
    tiles: Option<TiffTileOptions>,
    y: int,
    x: int,
) -> int {
    match tiles {
        None => read32(file, STRIP_OFFSETS_PLACE as int) + (y * width + x) * size,
        Some(t) => {
            let across = tiles_along(width as int, t.width as int);
            let tile = y / (t.height as int) * across + x / (t.width as int);
            read32(file, read32(file, TILE_OFFSETS_PLACE as int) + 4 * tile) + (y % (
            t.height as int) * t.width + x % (t.width as int)) * size
        },
    }
}

/// The block that holds the sample of a pixel, and the place of the sample in it.
pub open spec fn place_in_blocks(
    width: usize,
    size: int,
    tiles: Option<TiffTileOptions>,
    y: int,
    x: int,
) -> (int, int) {
    match tiles {
        None => (0, (y * width + x) * size),
        Some(t) => (
            y / (t.height as int) * tiles_along(width as int, t.width as int) + x / (
            t.width as int),
            (y % (t.height as int) * t.width + x % (t.width as int)) * size,
        ),
    }
}

/// A part of a part is a part.
proof fn lemma_part_of_part(file: Seq<u8>, start: int, len: int, k: int, n: int)
    requires
        0 <= start,
        start + len <= file.len(),
        0 <= k,
        0 <= n,
        k + n <= len,
    ensures
        file.subrange(start + k, start + k + n) == file.subrange(start, start + len).subrange(
            k,
            k + n,
        ),
{
    assert(file.subrange(start + k, start + k + n) =~= file.subrange(start, start + len).subrange(
        k,
        k + n,
    ));
}

/// The bytes of a file with one strip from the byte `i` of the strip on.
proof fn lemma_strip_bytes(p: TiffPlan, bytes: Seq<u8>, i: int, n: int)
    requires
        p.error() is None,
        p.tiles is None,
        p.blocks == seq![bytes],
        0 <= i,
        0 <= n,
        i + n <= bytes.len(),
    ensures
        ({
            let at = read32(p.file(), STRIP_OFFSETS_PLACE as int) + i;
            &&& 0 <= at
            &&& at + n <= p.file().len()
            &&& p.file().subrange(at, at + n) == bytes.subrange(i, i + n)
        }),
{
    lemma_block_is_found(p, 0);
    lemma_block_in_file(p, 0);
    lemma_part_of_part(p.file(), p.block_offset(0), bytes.len() as int, i, n);
}

/// The bytes of a pixel in the tile that holds it.
proof fn lemma_tile_bytes(bytes: Seq<u8>, s: TileShape, y: int, x: int)
    requires
        s.tile_width > 0,
        s.tile_height > 0,
        s.pixel > 0,
        0 <= y < s.height,
        0 <= x < s.width,
        (y * s.width + x) * s.pixel >= 0,
        (y * s.width + x) * s.pixel + s.pixel <= bytes.len(),
    ensures
        ({
            let across = tiles_along(s.width, s.tile_width);
            let t = y / s.tile_height * across + x / s.tile_width;
            let k = (y % s.tile_height * s.tile_width + x % s.tile_width) * s.pixel;
            let i = (y * s.width + x) * s.pixel;
            let block = tile_blocks(bytes, s)[t];
            &&& 0 <= t < tile_blocks(bytes, s).len()
            &&& 0 <= k
            &&& k + s.pixel <= block.len()
            &&& block.subrange(k, k + s.pixel) == bytes.subrange(i, i + s.pixel)
        }),
{
    let across = tiles_along(s.width, s.tile_width);
    let t = y / s.tile_height * across + x / s.tile_width;
    let k = (y % s.tile_height * s.tile_width + x % s.tile_width) * s.pixel;
    let i = (y * s.width + x) * s.pixel;
    let block = tile_blocks(bytes, s)[t];
    lemma_pixel_in_tile(bytes, s, y, x, 0);
    lemma_pixel_in_tile(bytes, s, y, x, s.pixel - 1);
    assert forall|b: int| 0 <= b < s.pixel implies #[trigger] block[k + b] == bytes[i + b] by {
        lemma_pixel_in_tile(bytes, s, y, x, b);
    }
    let a = block.subrange(k, k + s.pixel);
    let c = bytes.subrange(i, i + s.pixel);
    assert forall|b: int| 0 <= b < s.pixel implies #[trigger] a[b] == c[b] by {
        assert(block[k + b] == bytes[i + b]);
    }
    assert(a =~= c);
}

/// The bytes of a pixel in a file with tiles.
proof fn lemma_tiled_sample(p: TiffPlan, bytes: Seq<u8>, s: TileShape, y: int, x: int)
    requires
        p.error() is None,
        p.tiles is Some,
        p.blocks == tile_blocks(bytes, s),
        s.tile_width > 0,
        s.tile_height > 0,
        s.pixel > 0,
        0 <= y < s.height,
        0 <= x < s.width,
        (y * s.width + x) * s.pixel >= 0,
        (y * s.width + x) * s.pixel + s.pixel <= bytes.len(),
    ensures
        ({
            let across = tiles_along(s.width, s.tile_width);
            let t = y / s.tile_height * across + x / s.tile_width;
            let k = (y % s.tile_height * s.tile_width + x % s.tile_width) * s.pixel;
            let i = (y * s.width + x) * s.pixel;
            let at = read32(p.file(), read32(p.file(), TILE_OFFSETS_PLACE as int) + 4 * t) + k;
            &&& 0 <= at
            &&& at + s.pixel <= p.file().len()
            &&& p.file().subrange(at, at + s.pixel) == bytes.subrange(i, i + s.pixel)
        }),
{
    let across = tiles_along(s.width, s.tile_width);
    let t = y / s.tile_height * across + x / s.tile_width;
    let k = (y % s.tile_height * s.tile_width + x % s.tile_width) * s.pixel;
    lemma_tile_bytes(bytes, s, y, x);
    lemma_block_is_found(p, t);
    lemma_block_in_file(p, t);
    lemma_part_of_part(p.file(), p.block_offset(t), p.blocks[t].len() as int, k, s.pixel);
}

/// What is written is read back, compressed or not: the block that a reader finds for a
/// pixel, without its compression, holds the bytes of the sample of the pixel at its
/// place.
pub proof fn lemma_block_read_back(
    r: Result<Vec<u8>>,
    width: usize,
    height: usize,
    bytes: Seq<u8>,
    info: Option<InfoView>,
    keys: Seq<KeyView>,
    s: TiffSettings,
    y: int,
    x: int,
)
    requires
        tiff_outcome(r, width, height, bytes, info, keys, s),
        r is Ok,
        s.tiles is Some ==> s.tiles->Some_0.width > 0 && s.tiles->Some_0.height > 0,
        0 <= y < height,
        0 <= x < width,
    ensures
        ({
            let size = s.bits_per_sample as int / 8;
            let i = (y * width + x) * size;
            let (t, k) = place_in_blocks(width, size, s.tiles, y, x);
            let block = unpacked(s.compression, found_block(r->Ok_0@, s.tiles is Some, t));
            &&& 0 <= k
            &&& k + size <= block.len()
            &&& block.subrange(k, k + size) == bytes.subrange(i, i + size)
        }),
{
    let size = s.bits_per_sample as int / 8;
    let extra = match info {
        Some(i) => Some(extra_of(i, keys)->Ok_0),
        None => None,
    };
    let blocks = image_blocks(bytes, width, height, s.bits_per_sample, s.tiles);
    let written = stored(s.compression, blocks)->Ok_0;
    let plan = TiffPlan {
        width: width as u32,
        height: height as u32,
        bits_per_sample: s.bits_per_sample,
        sample_format: s.sample_format,
        compression: compression_code(s.compression),
        tiles: s.tiles,
        extra,
        blocks: written,
    };
    assert(r->Ok_0@ == plan.file());
    let i = (y * width + x) * size;
    assert(0 <= i && i + size <= (width * height) * size) by (nonlinear_arith)
        requires
            i == (y * width + x) * size,
            0 <= y < height,
            0 <= x < width,
            size > 0,
    ;
    let (t, k) = place_in_blocks(width, size, s.tiles, y, x);
    match s.tiles {
        None => {
            assert(unpacked(s.compression, written[0]) == blocks[0]);
            lemma_block_is_found(plan, 0);
        },
        Some(tiles) => {
            let shape = TileShape {
                width: width as int,
                height: height as int,
                tile_width: tiles.width as int,
                tile_height: tiles.height as int,
                pixel: size,
            };
            lemma_tile_bytes(bytes, shape, y, x);
            assert(unpacked(s.compression, written[t]) == blocks[t]);
            lemma_block_is_found(plan, t);
        },
    }
}

/// What is written without compression is read back: at the place of a pixel the file
/// holds the bytes of its sample.
pub proof fn lemma_sample_read_back(
    r: Result<Vec<u8>>,
    width: usize,
    height: usize,
    bytes: Seq<u8>,
    info: Option<InfoView>,
    keys: Seq<KeyView>,
    s: TiffSettings,
    y: int,
    x: int,
)
    requires
        tiff_outcome(r, width, height, bytes, info, keys, s),
        r is Ok,
        s.compression is Uncompressed,
        s.tiles is Some ==> s.tiles->Some_0.width > 0 && s.tiles->Some_0.height > 0,
        0 <= y < height,
        0 <= x < width,
    ensures
        ({
            let size = s.bits_per_sample as int / 8;
            let at = sample_place(r->Ok_0@, width, size, s.tiles, y, x);
            let i = (y * width + x) * size;
            &&& 0 <= at
            &&& at + size <= r->Ok_0@.len()
            &&& r->Ok_0@.subrange(at, at + size) == bytes.subrange(i, i + size)
        }),
{
    let size = s.bits_per_sample as int / 8;
    let extra = match info {
        Some(i) => Some(extra_of(i, keys)->Ok_0),
        None => None,
    };
    let blocks = image_blocks(bytes, width, height, s.bits_per_sample, s.tiles);
    let plan = TiffPlan {
        width: width as u32,
        height: height as u32,
        bits_per_sample: s.bits_per_sample,
        sample_format: s.sample_format,
        compression: compression_code(s.compression),
        tiles: s.tiles,
        extra,
        blocks,
    };
    let file = r->Ok_0@;
    assert(file == plan.file());
    let i = (y * width + x) * size;
    assert(0 <= i && i + size <= (width * height) * size) by (nonlinear_arith)
        requires
            i == (y * width + x) * size,
            0 <= y < height,
            0 <= x < width,
            size > 0,
    ;
    match s.tiles {
        None => {
            lemma_strip_bytes(plan, bytes, i, size);
        },
        Some(t) => {
            let shape = TileShape {
                width: width as int,
                height: height as int,
                tile_width: t.width as int,
                tile_height: t.height as int,
                pixel: size,
            };
            lemma_tiled_sample(plan, bytes, shape, y, x);
        },
    }
}

/// Numbers that are written in full without compression are read back bit by bit, with
/// the fill value where a value is missing.
pub proof fn lemma_float64_read_back(
    r: Result<Vec<u8>>,
    width: usize,
    height: usize,
    values: Seq<F64>,
    mask: Option<Seq<bool>>,
    fill: F64,
    info: Option<InfoView>,
    keys: Seq<KeyView>,
    s: TiffSettings,
    y: int,
    x: int,
)
    requires
        tiff_outcome(r, width, height, all64(wide_samples(values, mask, fill)), info, keys, s),
        r is Ok,
        s.bits_per_sample == 64,
        s.compression is Uncompressed,
        s.tiles is Some ==> s.tiles->Some_0.width > 0 && s.tiles->Some_0.height > 0,
        0 <= y < height,
        0 <= x < width,
    ensures
        ({
            let i = y * width + x;
            let found = read64(r->Ok_0@, sample_place(r->Ok_0@, width, 8, s.tiles, y, x));
            &&& 0 <= i < values.len()
            &&& missing(mask, i, values[i]) ==> found == fill.bits
            &&& !missing(mask, i, values[i]) ==> found == values[i].bits
        }),
{
    let samples = wide_samples(values, mask, fill);
    let i = y * width + x;
    lemma_all64(samples);
    assert(0 <= i < width * height) by (nonlinear_arith)
        requires
            i == y * width + x,
            0 <= y < height,
            0 <= x < width,
    ;
    assert(pixels_error(width, height, 64, all64(samples).len()) is None);
    assert((width * height) * (64u16 / 8) == 8 * samples.len());
    lemma_sample_read_back(r, width, height, all64(samples), info, keys, s, y, x);
    let at = sample_place(r->Ok_0@, width, 8, s.tiles, y, x);
    assert(all64(samples).subrange(8 * i, 8 * i + 8) == le64(samples[i].bits));
    lemma_read64(r->Ok_0@, at, samples[i].bits);
}

/// Numbers that are written with 32 bits without compression are read back as they were
/// rounded, with the fill value where a value is missing.
pub proof fn lemma_float32_read_back(
    r: Result<Vec<u8>>,
    width: usize,
    height: usize,
    values: Seq<F64>,
    mask: Option<Seq<bool>>,
    fill: F32,
    info: Option<InfoView>,
    keys: Seq<KeyView>,
    s: TiffSettings,
    y: int,
    x: int,
)
    requires
        tiff_outcome(r, width, height, all32(narrow_samples(values, mask, fill)), info, keys, s),
        r is Ok,
        s.bits_per_sample == 32,
        s.compression is Uncompressed,
        s.tiles is Some ==> s.tiles->Some_0.width > 0 && s.tiles->Some_0.height > 0,
        0 <= y < height,
        0 <= x < width,
    ensures
        ({
            let i = y * width + x;
            let found = read32(r->Ok_0@, sample_place(r->Ok_0@, width, 4, s.tiles, y, x));
            &&& 0 <= i < values.len()
            &&& missing(mask, i, values[i]) ==> found == fill.bits
            &&& !missing(mask, i, values[i]) ==> found == narrowed(values[i]).bits
        }),
{
    let samples = narrow_samples(values, mask, fill);
    let i = y * width + x;
    lemma_all32(samples);
    assert(0 <= i < width * height) by (nonlinear_arith)
        requires
            i == y * width + x,
            0 <= y < height,
            0 <= x < width,
    ;
    assert(pixels_error(width, height, 32, all32(samples).len()) is None);
    assert((width * height) * (32u16 / 8) == 4 * samples.len());
    lemma_sample_read_back(r, width, height, all32(samples), info, keys, s, y, x);
    let at = sample_place(r->Ok_0@, width, 4, s.tiles, y, x);
    assert(all32(samples).subrange(4 * i, 4 * i + 4) == le32(samples[i]));
    lemma_read32(r->Ok_0@, at, samples[i]);
}

/// The elements of an array of 32-bit numbers are kept bit by bit by a file of 32-bit numbers
/// without compression.
pub proof fn lemma_narrow_array_read_back(
    r: Result<Vec<u8>>,
    width: usize,
    height: usize,
    a: ArrayView<F32>,
    numbers: Seq<F64>,
    fill: F32,
    info: Option<InfoView>,
    keys: Seq<KeyView>,
    s: TiffSettings,
    y: int,
    x: int,
)
    requires
        are_numbers(AnyArrayView::F32(a), numbers),
        tiff_outcome(r, width, height, all32(narrow_samples(numbers, a.mask, fill)), info, keys, s),
        r is Ok,
        s.bits_per_sample == 32,
        s.compression is Uncompressed,
        s.tiles is Some ==> s.tiles->Some_0.width > 0 && s.tiles->Some_0.height > 0,
        0 <= y < height,
        0 <= x < width,
    ensures
        ({
            let i = y * width + x;
            let found = read32(r->Ok_0@, sample_place(r->Ok_0@, width, 4, s.tiles, y, x));
            &&& 0 <= i < a.values.len()
            &&& missing(a.mask, i, numbers[i]) ==> found == fill.bits
            &&& !missing(a.mask, i, numbers[i]) ==> found == a.values[i].bits
        }),
{
    let i = y * width + x;
    lemma_float32_read_back(r, width, height, numbers, a.mask, fill, info, keys, s, y, x);
    if !missing(a.mask, i, numbers[i]) {
        assert(is_widened(numbers[i], a.values[i]));
        lemma_narrowed_of_widened(numbers[i], a.values[i]);
    }
}

/// The samples of a policy: their size in bits, and 1 for natural numbers or 3 for floating-point
/// ones.
pub proof fn lemma_sample_codes(policy: TiffSamplePolicy)
    ensures
        policy is Float32 ==> policy_bits(policy) == 32 && policy_format(policy) == 3,
        policy is Float64 ==> policy_bits(policy) == 64 && policy_format(policy) == 3,
        policy is UInt16Scaled ==> policy_bits(policy) == 16 && policy_format(policy) == 1,
{
}

/// An image of an area is tied to the earth at its upper left corner: the first pixel begins at
/// the least x and the greatest y of the extent, and the sizes of a pixel are those of the parts
/// of the extent, along the width and along the height.
pub proof fn lemma_area_ties_corner<Z: Fn(F64, F64, usize) -> F64>(
    m: Map<Seq<char>, MetadataTree>,
    pixel_size: Z,
    out: Option<InfoView>,
) -> (e: Seq<F64>)
    requires
        is_area_info(MetadataTree::Table(m), pixel_size, out),
        out is Some,
    ensures
        size_at(m, "width"@) is Some && size_at(m, "width"@)->Some_0 > 0,
        size_at(m, "height"@) is Some && size_at(m, "height"@)->Some_0 > 0,
        has_four(m, "area_extent"@),
        numbers_in(m["area_extent"@]->List_0, e),
        ({
            let info = out->Some_0;
            let (width, height) = (size_at(m, "width"@)->Some_0, size_at(m, "height"@)->Some_0);
            &&& info.pixel_scale.len() == 3
            &&& info.tiepoint.len() == 6
            &&& pixel_size.ensures((e[0], e[2], width), info.pixel_scale[0])
            &&& pixel_size.ensures((e[1], e[3], height), info.pixel_scale[1])
            &&& info.pixel_scale[0].finite() && info.pixel_scale[1].finite()
            &&& info.pixel_scale[2].bits == 0
            &&& info.tiepoint[0].bits == 0 && info.tiepoint[1].bits == 0 && info.tiepoint[2].bits
                == 0
            &&& info.tiepoint[3] == e[0]
            &&& info.tiepoint[4] == e[3]
            &&& info.tiepoint[5].bits == 0
        }),
{
    let (e, sx, sy) = choose|e: Seq<F64>, sx: F64, sy: F64| #[trigger]
        area_measured(m, pixel_size, e, sx, sy) && out == if sx.finite() && sy.finite() {
            Some(
                InfoView {
                    pixel_scale: seq![sx, sy, zero()],
                    tiepoint: seq![zero(), zero(), zero(), e[0], e[3], zero()],
                    citation: area_citation(m),
                },
            )
        } else {
            None
        };
    e
}

/// An image with axes is tied to the earth at the corner before the first pixel: the sizes of a
/// pixel are the distances of the first two coordinates, or one where they cannot be told.
pub proof fn lemma_axes_tie_corner<
    S: Fn(F64, F64) -> F64,
    L: Fn(F64, F64) -> F64,
    T: Fn(F64, F64) -> F64,
>(a: AnyArrayView, spacing: S, left: L, top: T, out: Option<InfoView>)
    requires
        is_axes_info(a, spacing, left, top, out),
        a.coords().contains_key("x"@) && a.coords()["x"@].values.len() > 0,
        a.coords().contains_key("y"@) && a.coords()["y"@].values.len() > 0,
    ensures
        out is Some,
        ({
            let (x, y) = (a.coords()["x"@].values, a.coords()["y"@].values);
            let info = out->Some_0;
            &&& info.pixel_scale.len() == 3
            &&& info.tiepoint.len() == 6
            &&& left.ensures((x[0], info.pixel_scale[0]), info.tiepoint[3])
            &&& top.ensures((y[0], info.pixel_scale[1]), info.tiepoint[4])
            &&& x.len() == 1 ==> info.pixel_scale[0].bits == 0x3ff0_0000_0000_0000
            &&& y.len() == 1 ==> info.pixel_scale[1].bits == 0x3ff0_0000_0000_0000
            &&& x.len() > 1 ==> spacing.ensures((x[0], x[1]), info.pixel_scale[0])
                || info.pixel_scale[0].bits == 0x3ff0_0000_0000_0000
            &&& y.len() > 1 ==> spacing.ensures((y[0], y[1]), info.pixel_scale[1])
                || info.pixel_scale[1].bits == 0x3ff0_0000_0000_0000
            &&& info.pixel_scale[2].bits == 0
            &&& info.tiepoint[0].bits == 0 && info.tiepoint[1].bits == 0 && info.tiepoint[2].bits
                == 0 && info.tiepoint[5].bits == 0
        }),
{
    let (x, y) = (a.coords()["x"@].values, a.coords()["y"@].values);
    assert(has_axes(a));
    let (sx, sy, ox, oy) = choose|sx: F64, sy: F64, ox: F64, oy: F64| #[trigger]
        axes_measured(x, y, spacing, left, top, sx, sy, ox, oy) && out == Some(
            InfoView {
                pixel_scale: seq![sx, sy, zero()],
                tiepoint: seq![zero(), zero(), zero(), ox, oy, zero()],
                citation: "RustySat x/y coordinate axes"@,
            },
        );
    assert(is_spacing(x, spacing, sx) && is_spacing(y, spacing, sy));
}

/// A sample of 16 bits: the fill value where nothing is shown, else the natural number nearest to
/// the place of the value between the bounds, the greater of two that are as near.
pub proof fn lemma_scaled_sample<U: Fn(F64, F64, F64) -> F64>(
    values: Seq<F64>,
    mask: Option<Seq<bool>>,
    min: F64,
    max: F64,
    fill: u16,
    scaled: U,
    samples: Seq<u16>,
    i: int,
) -> (place: F64)
    requires
        scaled_samples(values, mask, min, max, fill, scaled, samples),
        mask is Some ==> mask->Some_0.len() == values.len(),
        0 <= i < values.len(),
    ensures
        samples.len() == values.len(),
        if values[i].finite() && !(mask is Some && mask->Some_0[i]) {
            &&& scaled.ensures((values[i], min, max), place)
            &&& place.finite() ==> forall|other: u16|
                #![trigger apart(place, other as int)]
                apart(place, samples[i] as int) <= apart(place, other as int) && (other > samples[i]
                    ==> apart(place, samples[i] as int) < apart(place, other as int))
        } else {
            samples[i] == fill
        },
{
    if missing(mask, i, values[i]) {
        assert(samples[i] == fill);
        zero()
    } else {
        let sample = samples[i];
        assert(is_scaled(values[i], min, max, scaled, sample));
        let place = choose|place: F64| #[trigger]
            scaled.ensures((values[i], min, max), place) && sample == level_within(
                place,
                u16::MAX,
            );
        assert forall|other: u16|
            #![trigger apart(place, other as int)]
            place.finite() implies apart(place, sample as int) <= apart(place, other as int) && (
        other > sample ==> apart(place, sample as int) < apart(place, other as int)) by {
            lemma_level_is_nearest(place, u16::MAX, other as int);
        }
        place
    }
}

} // verus!
