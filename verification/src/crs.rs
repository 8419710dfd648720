//! Coordinate reference systems by their parameters.

use crate::error::{
    fails_with, is_invalid, is_unsupported, same_shown, ErrorView, Result, RustySatError,
};
use crate::geo_keys::{
    keys_view, GeoKeyDef, KeyValueView, KeyView, ANGULAR_UNIT_DEGREE, CT_GEOSTATIONARY_SATELLITE,
    CT_LAMBERT_AZIMUTHAL_EQUAL_AREA, CT_MERCATOR, CT_POLAR_STEREOGRAPHIC, CT_STEREOGRAPHIC,
    EPSG_DATUM_WGS_84, EPSG_WGS_84, GEOGRAPHIC_TYPE_GEO_KEY, GEOG_ANGULAR_UNITS_GEO_KEY,
    GEOG_CITATION_GEO_KEY, GEOG_GEODETIC_DATUM_GEO_KEY, GEO_USER_DEFINED, GT_MODEL_TYPE_GEO_KEY,
    LINEAR_UNIT_METER, MODEL_TYPE_GEOGRAPHIC, MODEL_TYPE_PROJECTED, PROJECTED_CITATION_GEO_KEY,
    PROJECTED_CS_TYPE_GEO_KEY, PROJ_CENTER_LONG_GEO_KEY, PROJ_COORD_TRANS_GEO_KEY,
    PROJ_FALSE_EASTING_GEO_KEY, PROJ_FALSE_NORTHING_GEO_KEY, PROJ_INV_FLATTENING_GEO_KEY,
    PROJ_LINEAR_UNITS_GEO_KEY, PROJ_NAT_ORIGIN_LAT_GEO_KEY, PROJ_NAT_ORIGIN_LONG_GEO_KEY,
    PROJ_SEMI_MAJOR_AXIS_GEO_KEY, PROJ_SEMI_MINOR_AXIS_GEO_KEY,
};
use crate::number::F64;
use crate::rounding::lemma_denominator;
use crate::text::{
    char_position, decimal, find_char, is_space, is_word, join2, join3, join4, join5,
    lemma_char_position, lemma_char_position_first, lemma_trimmed_same, lemma_words_are_words,
    lemma_words_join, lemma_words_of_word, lower_case, lower_case_of, lower_text, lowered, owned,
    part_of, same_text, size_text, split_words, texts, to_chars, trim_text, trimmed, upper_case,
    upper_case_of, words,
};
use crate::text_map::{
    lemma_increasing_distinct, lemma_sorted_keys, sorted_keys, Comparable, Duplicate, TextMap,
};
use vstd::arithmetic::power2::{
    lemma2_to64, lemma2_to64_rest, lemma_pow2_pos, lemma_pow2_strictly_increases, pow2,
};
use vstd::prelude::*;

verus! {

/// What is available for the transformation of coordinates.
#[derive(Clone, Copy, Debug, PartialEq, Eq, Structural)]
pub enum ProjectionBackendStrategy {
    /// Parameters only.
    MetadataOnly,
    /// Transformations are left to a later version.
    DeferredTransformBackend,
}

/// From what a reference system was made.
#[derive(Clone, Copy, Debug, PartialEq, Eq, Structural)]
pub enum CrsSource {
    Wgs84LongLat,
    ProjMap,
    ProjString,
}

/// Whether a transformation leads from longitude and latitude or back.
#[derive(Clone, Copy, Debug, PartialEq, Eq, Structural)]
pub enum TransformDirection {
    Forward,
    Inverse,
}

/// The text of a parameter, where it has one.
#[derive(Clone, Debug, PartialEq, Eq)]
pub struct ParamValue {
    pub text: Option<String>,
}

impl View for ParamValue {
    type V = Option<Seq<char>>;

    open spec fn view(&self) -> Option<Seq<char>> {
        match self.text {
            Some(t) => Some(t@),
            None => None,
        }
    }
}

impl Duplicate for ParamValue {
    fn duplicate(&self) -> (r: Self) {
        match &self.text {
            Some(t) => ParamValue { text: Some(owned(t.as_str())) },
            None => ParamValue { text: None },
        }
    }
}

impl Comparable for ParamValue {
    fn same(&self, other: &Self) -> (r: bool) {
        match (&self.text, &other.text) {
            (Some(a), Some(b)) => same_text(a.as_str(), b.as_str()),
            (None, None) => true,
            _ => false,
        }
    }
}

/// The parameters of a reference system as a mathematical value.
pub type Params = Map<Seq<char>, Option<Seq<char>>>;

/// A reference system as a mathematical value.
#[verifier::ext_equal]
pub struct CrsView {
    pub params: Params,
    pub source: CrsSource,
}

/// A coordinate reference system by its parameters.
#[derive(Debug, PartialEq, Eq)]
pub struct ProjCrs {
    params: TextMap<ParamValue>,
    source: CrsSource,
}

impl View for ProjCrs {
    type V = CrsView;

    closed spec fn view(&self) -> CrsView {
        CrsView { params: self.params@, source: self.source }
    }
}

/// Whether a text is made of decimal digits.
pub open spec fn all_digits(s: Seq<char>) -> bool {
    s.len() > 0 && forall|i: int| 0 <= i < s.len() ==> '0' <= #[trigger] s[i] <= '9'
}

/// Whether a text is the code of an authority: digits without leading zeros.
pub open spec fn is_code(s: Seq<char>) -> bool {
    all_digits(s) && (s == "0"@ || s[0] != '0')
}

/// What holds of all parameters that were read: each has a name, and the code of an authority
/// that has a value is a code.
pub open spec fn parts_ok(params: Params) -> bool {
    &&& forall|k: Seq<char>| #[trigger] params.contains_key(k) ==> k.len() > 0
    &&& params.contains_key("epsg"@) && params["epsg"@] is Some ==> is_code(
        params["epsg"@]->Some_0,
    )
}

/// What holds of the parameters of every reference system: there is a projection or a code
/// of an authority, and no code in the old way.
pub open spec fn params_ok(params: Params) -> bool {
    &&& parts_ok(params)
    &&& params.contains_key("proj"@) || params.contains_key("epsg"@)
    &&& !params.contains_key("init"@)
}

/// A pair of coordinates.
#[derive(Clone, Copy, Debug, PartialEq)]
pub struct Coordinate2D {
    x: F64,
    y: F64,
}

impl Coordinate2D {
    pub closed spec fn cx(self) -> F64 {
        self.x
    }

    pub closed spec fn cy(self) -> F64 {
        self.y
    }

    #[verifier::type_invariant]
    spec fn inv(self) -> bool {
        self.x.finite() && self.y.finite()
    }

    pub fn new(x: F64, y: F64) -> (r: Result<Self>)
        ensures
            !(x.finite() && y.finite()) ==> is_invalid(r, "coordinate values must be finite"@),
            x.finite() && y.finite() ==> r is Ok && r->Ok_0.cx() == x && r->Ok_0.cy() == y,
    {
        if !x.is_finite() || !y.is_finite() {
            return Err(RustySatError::invalid_input("coordinate values must be finite"));
        }
        Ok(Coordinate2D { x, y })
    }

    pub fn x(self) -> (r: F64)
        ensures
            r == self.cx(),
    {
        self.x
    }

    pub fn y(self) -> (r: F64)
        ensures
            r == self.cy(),
    {
        self.y
    }
}

/// A text without a leading plus sign.
pub open spec fn strip_plus(s: Seq<char>) -> Seq<char> {
    if s.len() > 0 && s[0] == '+' {
        s.subrange(1, s.len() as int)
    } else {
        s
    }
}

/// The name of a parameter.
pub open spec fn normal_key(key: Seq<char>) -> Seq<char> {
    strip_plus(trimmed(key))
}

/// The text of a value; words for "nothing" have none.
pub open spec fn plain_value(value: Seq<char>) -> Option<Seq<char>> {
    let t = trimmed(value);
    if t.len() == 0 || lowered(t) == "none"@ || lowered(t) == "null"@ || lowered(t) == "true"@ {
        None
    } else {
        Some(t)
    }
}

/// The name of a projection; the names of the one by longitude and latitude are one.
pub open spec fn normal_name(value: Seq<char>) -> Seq<char> {
    if lowered(value) == "latlong"@ || lowered(value) == "lonlat"@ {
        "longlat"@
    } else {
        value
    }
}

/// A text without leading zeros.
pub open spec fn without_zeros(s: Seq<char>) -> Seq<char>
    decreases s.len(),
{
    if s.len() > 0 && s[0] == '0' {
        without_zeros(s.subrange(1, s.len() as int))
    } else {
        s
    }
}

/// The text of the error for a code that is not a number.
pub open spec fn code_text(code: Seq<char>) -> Seq<char> {
    "EPSG code '"@ + code + "' must contain only digits"@
}

/// The code of an authority without leading zeros.
pub open spec fn epsg_code(value: Seq<char>) -> core::result::Result<Seq<char>, ErrorView> {
    let t = trimmed(value);
    if !all_digits(t) {
        Err(ErrorView::InvalidInput(code_text(t)))
    } else if without_zeros(t).len() == 0 {
        Ok("0"@)
    } else {
        Ok(without_zeros(t))
    }
}

/// A parameter by its name and its text. Numbers are kept as they are written.
pub open spec fn read_param(key: Seq<char>, value: Option<Seq<char>>) -> core::result::Result<
    (Seq<char>, Option<Seq<char>>),
    ErrorView,
> {
    let k = normal_key(key);
    if k.len() == 0 {
        Err(ErrorView::InvalidInput("CRS parameter key cannot be empty"@))
    } else {
        match value {
            None => Ok((k, None)),
            Some(v) => match plain_value(v) {
                None => Ok((k, None)),
                Some(t) => if k == "proj"@ {
                    Ok((k, Some(normal_name(t))))
                } else if k == "epsg"@ {
                    match epsg_code(t) {
                        Err(e) => Err(e),
                        Ok(c) => Ok((k, Some(c))),
                    }
                } else {
                    Ok((k, Some(t)))
                },
            },
        }
    }
}

/// The text of the error for a parameter that is given twice.
pub open spec fn duplicate_text(key: Seq<char>) -> Seq<char> {
    "duplicate CRS parameter '"@ + key + "'"@
}

/// The parameters of a list, or the first obstacle.
pub open spec fn gathered(list: Seq<(Seq<char>, Option<Seq<char>>)>) -> core::result::Result<
    Params,
    ErrorView,
>
    decreases list.len(),
{
    if list.len() == 0 {
        Ok(Map::empty())
    } else {
        match gathered(list.drop_last()) {
            Err(e) => Err(e),
            Ok(m) => match read_param(list.last().0, list.last().1) {
                Err(e) => Err(e),
                Ok((k, v)) => if m.contains_key(k) {
                    Err(ErrorView::InvalidInput(duplicate_text(k)))
                } else {
                    Ok(m.insert(k, v))
                },
            },
        }
    }
}

/// A number with its shortest text, as mathematical values.
pub open spec fn number_of(o: Option<(F64, String)>) -> Option<(F64, Seq<char>)> {
    match o {
        Some((x, t)) => Some((x, t@)),
        None => None,
    }
}

/// Whether `read` finds `n` in a text.
pub open spec fn is_reading<P: Fn(String) -> Option<(F64, String)>>(
    read: P,
    text: Seq<char>,
    n: Option<(F64, Seq<char>)>,
) -> bool {
    exists|s: String, o: Option<(F64, String)>|
        s@ == text && #[trigger] read.ensures((s,), o) && n == number_of(o)
}

/// Whether `out` is a text with the number in it written in the shortest way, where it
/// is a finite number.
pub open spec fn normal_text<P: Fn(String) -> Option<(F64, String)>>(
    read: P,
    text: Seq<char>,
    out: Seq<char>,
) -> bool {
    exists|n: Option<(F64, Seq<char>)>| #[trigger]
        is_reading(read, text, n) && out == match n {
            Some((x, t)) => if x.finite() {
                t
            } else {
                text
            },
            None => text,
        }
}

/// Whether `b` is the value `a` of a parameter with its number written in the shortest
/// way. The name of a projection and the code of an authority are no such numbers.
pub open spec fn value_normal<P: Fn(String) -> Option<(F64, String)>>(
    read: P,
    key: Seq<char>,
    a: Option<Seq<char>>,
    b: Option<Seq<char>>,
) -> bool {
    match a {
        None => b is None,
        Some(v) => if key == "proj"@ || key == "epsg"@ {
            b == a
        } else {
            b is Some && normal_text(read, v, b->Some_0)
        },
    }
}

/// Whether `done` holds the parameters `raw` with their numbers written in the shortest
/// way.
pub open spec fn params_normal<P: Fn(String) -> Option<(F64, String)>>(
    read: P,
    raw: Params,
    done: Params,
) -> bool {
    &&& raw.dom() == done.dom()
    &&& forall|k: Seq<char>| #[trigger]
        raw.contains_key(k) ==> value_normal(read, k, raw[k], done[k])
}

/// The text of the error for an authority that is not known.
pub open spec fn authority_text(authority: Seq<char>) -> Seq<char> {
    "unsupported CRS init authority '"@ + authority + "'"@
}

/// The parameters with a code given in the old way in its place, or the obstacle.
pub open spec fn with_code(params: Params) -> core::result::Result<Params, ErrorView> {
    if !params.contains_key("init"@) {
        Ok(params)
    } else {
        match params["init"@] {
            None => Err(ErrorView::InvalidInput("CRS init parameter requires a value"@)),
            Some(init) => {
                let at = char_position(init, ':', 0);
                let authority = init.subrange(0, at);
                if at >= init.len() {
                    Err(ErrorView::InvalidInput(authority_text(init)))
                } else if lowered(authority) != "epsg"@ {
                    Err(ErrorView::InvalidInput(authority_text(authority)))
                } else {
                    match epsg_code(init.subrange(at + 1, init.len() as int)) {
                        Err(e) => Err(e),
                        Ok(code) => if params.remove("init"@).contains_key("epsg"@) {
                            Err(ErrorView::InvalidInput(duplicate_text("epsg"@)))
                        } else {
                            Ok(params.remove("init"@).insert("epsg"@, Some(code)))
                        },
                    }
                }
            },
        }
    }
}

/// The parameters of a reference system, or the obstacle: it needs a projection or a
/// code.
pub open spec fn completed(params: Params) -> core::result::Result<Params, ErrorView> {
    match with_code(params) {
        Err(e) => Err(e),
        Ok(m) => if m.dom().len() == 0 {
            Err(ErrorView::InvalidInput("CRS parameters cannot be empty"@))
        } else if !m.contains_key("proj"@) && !m.contains_key("epsg"@) {
            Err(ErrorView::InvalidInput("CRS parameters require 'proj' or an EPSG code"@))
        } else {
            Ok(m)
        },
    }
}

/// Whether `r` is the reference system with the parameters of a list, or the first
/// obstacle.
pub open spec fn crs_outcome<P: Fn(String) -> Option<(F64, String)>>(
    r: Result<ProjCrs>,
    list: Seq<(Seq<char>, Option<Seq<char>>)>,
    source: CrsSource,
    read: P,
) -> bool {
    match gathered(list) {
        Err(e) => fails_with(r, e),
        Ok(raw) => exists|done: Params| #[trigger]
            params_normal(read, raw, done) && match completed(done) {
                Err(e) => fails_with(r, e),
                Ok(params) => r is Ok && r->Ok_0@ == (CrsView { params, source }),
            },
    }
}

/// The parameters in a map, in the order of their names.
pub open spec fn map_params(keys: Seq<Seq<char>>, m: Map<Seq<char>, Seq<char>>) -> Seq<
    (Seq<char>, Option<Seq<char>>),
> {
    Seq::new(keys.len(), |i: int| (keys[i], Some(m[keys[i]])))
}

/// A parameter in a text: a name, and a value behind an equals sign.
pub open spec fn split_token(token: Seq<char>) -> (Seq<char>, Option<Seq<char>>) {
    let at = char_position(token, '=', 0);
    (
        token.subrange(0, at),
        if at < token.len() {
            Some(token.subrange(at + 1, token.len() as int))
        } else {
            None
        },
    )
}

/// The parameters in a list of words.
pub open spec fn token_params(tokens: Seq<Seq<char>>) -> Seq<(Seq<char>, Option<Seq<char>>)>
    decreases tokens.len(),
{
    if tokens.len() == 0 {
        Seq::empty()
    } else {
        let before = token_params(tokens.drop_last());
        let token = strip_plus(tokens.last());
        if token.len() == 0 {
            before
        } else {
            before.push(split_token(token))
        }
    }
}

/// Whether a text begins with the name of the authority.
pub open spec fn names_code(text: Seq<char>) -> bool {
    text.len() >= 5 && lowered(text.subrange(0, 5)) == "epsg:"@
}

/// Whether `r` is the reference system that a text describes, or the first obstacle.
pub open spec fn text_outcome<P: Fn(String) -> Option<(F64, String)>>(
    r: Result<ProjCrs>,
    text: Seq<char>,
    read: P,
) -> bool {
    let t = trimmed(text);
    if t.len() == 0 {
        is_invalid(r, "PROJ string cannot be empty"@)
    } else if names_code(t) {
        match epsg_code(t.subrange(5, t.len() as int)) {
            Err(e) => fails_with(r, e),
            Ok(code) => r is Ok && r->Ok_0@ == (CrsView {
                params: Map::<Seq<char>, Option<Seq<char>>>::empty().insert("epsg"@, Some(code)),
                source: CrsSource::ProjString,
            }),
        }
    } else {
        crs_outcome(r, token_params(words(t)), CrsSource::ProjString, read)
    }
}

/// Whether `r` is the reference system with the parameters of a map, or the first
/// obstacle.
pub open spec fn map_outcome<P: Fn(String) -> Option<(F64, String)>>(
    r: Result<ProjCrs>,
    projection: Map<Seq<char>, Seq<char>>,
    read: P,
) -> bool {
    if sorted_keys(projection).len() == 0 {
        is_invalid(r, "projection map cannot be empty"@)
    } else if projection.contains_key("proj4"@) {
        text_outcome(r, projection["proj4"@], read)
    } else {
        crs_outcome(r, map_params(sorted_keys(projection), projection), CrsSource::ProjMap, read)
    }
}

fn strip_plus_of(text: &str) -> (r: String)
    ensures
        r@ == strip_plus(text@),
{
    let chars = to_chars(text);
    if chars.len() > 0 && chars[0] == '+' {
        part_of(&chars, 1, chars.len())
    } else {
        owned(text)
    }
}

fn normalize_key(key: &str) -> (r: Result<String>)
    ensures
        normal_key(key@).len() == 0 ==> is_invalid(r, "CRS parameter key cannot be empty"@),
        normal_key(key@).len() > 0 ==> r is Ok && r->Ok_0@ == normal_key(key@),
{
    let t = trim_text(key);
    let k = strip_plus_of(t.as_str());
    if k.as_str().is_empty() {
        return Err(RustySatError::invalid_input("CRS parameter key cannot be empty"));
    }
    Ok(k)
}

fn normalize_value(value: &str) -> (r: Option<String>)
    ensures
        match plain_value(value@) {
            None => r is None,
            Some(t) => r is Some && r->Some_0@ == t,
        },
{
    let t = trim_text(value);
    let low = lower_text(t.as_str());
    if t.as_str().is_empty() || same_text(low.as_str(), "none") || same_text(low.as_str(), "null")
        || same_text(low.as_str(), "true") {
        None
    } else {
        Some(t)
    }
}

fn normalize_projection_name(value: &str) -> (r: String)
    ensures
        r@ == normal_name(value@),
{
    let low = lower_text(value);
    if same_text(low.as_str(), "latlong") || same_text(low.as_str(), "lonlat") {
        owned("longlat")
    } else {
        owned(value)
    }
}

/// A text with the number in it written in the shortest way.
fn normalize_numeric_string<P: Fn(String) -> Option<(F64, String)>>(value: &str, read: &P) -> (r:
    String)
    requires
        forall|s: String| #[trigger] read.requires((s,)),
    ensures
        normal_text(*read, value@, r@),
{
    let text = owned(value);
    let ghost asked = text;
    let found = read(text);
    proof {
        assert(read.ensures((asked,), found));
        assert(is_reading(*read, value@, number_of(found)));
    }
    match found {
        Some((x, t)) => {
            if x.is_finite() {
                t
            } else {
                owned(value)
            }
        },
        None => owned(value),
    }
}

fn are_digits(chars: &Vec<char>) -> (r: bool)
    ensures
        r == all_digits(chars@),
{
    let mut i: usize = 0;
    while i < chars.len()
        invariant
            i <= chars@.len(),
            forall|j: int| 0 <= j < i ==> '0' <= #[trigger] chars@[j] <= '9',
        decreases chars@.len() - i,
    {
        if chars[i] < '0' || chars[i] > '9' {
            return false;
        }
        i = i + 1;
    }
    chars.len() > 0
}

/// Leading zeros leave digits behind.
proof fn lemma_without_zeros(s: Seq<char>)
    ensures
        all_digits(s) && without_zeros(s).len() > 0 ==> all_digits(without_zeros(s)),
        without_zeros(s).len() <= s.len(),
    decreases s.len(),
{
    if s.len() > 0 && s[0] == '0' {
        let rest = s.subrange(1, s.len() as int);
        lemma_without_zeros(rest);
        if all_digits(s) && rest.len() > 0 {
            assert forall|i: int| 0 <= i < rest.len() implies '0' <= #[trigger] rest[i] <= '9' by {
                assert(rest[i] == s[i + 1]);
            }
        }
    }
}

/// What is read as a code is one.
proof fn lemma_code(value: Seq<char>)
    ensures
        epsg_code(value) matches Ok(code) ==> is_code(code),
{
    let t = trimmed(value);
    lemma_without_zeros(t);
    lemma_no_leading_zero(t);
    reveal_strlit("0");
    assert(all_digits("0"@));
}

fn normalize_epsg_code(value: &str) -> (r: Result<String>)
    ensures
        match epsg_code(value@) {
            Err(e) => fails_with(r, e),
            Ok(code) => r is Ok && r->Ok_0@ == code && is_code(code),
        },
{
    let t = trim_text(value);
    let chars = to_chars(t.as_str());
    if !are_digits(&chars) {
        let text = join3("EPSG code '", t.as_str(), "' must contain only digits");
        return Err(RustySatError::invalid_input(text.as_str()));
    }
    let mut i: usize = 0;
    assert(chars@.subrange(0, chars@.len() as int) =~= chars@);
    while i < chars.len() && chars[i] == '0'
        invariant
            i <= chars@.len(),
            without_zeros(chars@) == without_zeros(chars@.subrange(i as int, chars@.len() as int)),
        decreases chars@.len() - i,
    {
        proof {
            let s = chars@.subrange(i as int, chars@.len() as int);
            assert(s.subrange(1, s.len() as int) =~= chars@.subrange(i + 1, chars@.len() as int));
        }
        i = i + 1;
    }
    proof {
        lemma_code(value@);
    }
    if i == chars.len() {
        return Ok(owned("0"));
    }
    Ok(part_of(&chars, i, chars.len()))
}

/// The text of a value, where it has one.
pub open spec fn text_view(value: Option<String>) -> Option<Seq<char>> {
    match value {
        Some(t) => Some(t@),
        None => None,
    }
}

/// The names of a code are two, and neither is empty.
proof fn lemma_names()
    ensures
        "epsg"@.len() > 0,
        "epsg"@ != "init"@,
{
    reveal_strlit("epsg");
    reveal_strlit("init");
    assert("epsg"@[0] != "init"@[0]);
}

/// Adds a parameter to others.
fn add_param<P: Fn(String) -> Option<(F64, String)>>(
    params: &mut TextMap<ParamValue>,
    key: &str,
    value: Option<String>,
    read: &P,
) -> (r: Result<()>)
    requires
        forall|s: String| #[trigger] read.requires((s,)),
    ensures
        match read_param(key@, text_view(value)) {
            Err(e) => fails_with(r, e) && final(params)@ == old(params)@,
            Ok((k, v)) => if old(params)@.contains_key(k) {
                is_invalid(r, duplicate_text(k)) && final(params)@ == old(params)@
            } else {
                r is Ok && final(params)@.dom() == old(params)@.dom().insert(k)
                    && final(params)@ == old(params)@.insert(k, final(params)@[k]) && value_normal(
                    *read,
                    k,
                    v,
                    final(params)@[k],
                )
            },
        },
        parts_ok(old(params)@) ==> parts_ok(final(params)@),
{
    let k = match normalize_key(key) {
        Ok(k) => k,
        Err(e) => {
            return Err(e);
        },
    };
    let text: Option<String> = match value {
        None => None,
        Some(v) => match normalize_value(v.as_str()) {
            None => None,
            Some(t) => if same_text(k.as_str(), "proj") {
                Some(normalize_projection_name(t.as_str()))
            } else if same_text(k.as_str(), "epsg") {
                match normalize_epsg_code(t.as_str()) {
                    Ok(code) => Some(code),
                    Err(e) => {
                        return Err(e);
                    },
                }
            } else {
                Some(normalize_numeric_string(t.as_str(), read))
            },
        },
    };
    if params.contains_key(k.as_str()) {
        let message = join3("duplicate CRS parameter '", k.as_str(), "'");
        return Err(RustySatError::invalid_input(message.as_str()));
    }
    proof {
        reveal_strlit("proj");
        reveal_strlit("epsg");
        assert("proj"@[0] != "epsg"@[0]);
    }
    params.insert(k, ParamValue { text });
    Ok(())
}

/// Puts a code given in the old way in its place.
fn normalize_epsg_init(params: TextMap<ParamValue>) -> (r: Result<TextMap<ParamValue>>)
    requires
        parts_ok(params@),
    ensures
        match with_code(params@) {
            Err(e) => fails_with(r, e),
            Ok(m) => r is Ok && r->Ok_0@ == m && parts_ok(m) && !m.contains_key("init"@),
        },
{
    let init = match params.get("init") {
        None => {
            return Ok(params);
        },
        Some(value) => match &value.text {
            None => {
                return Err(RustySatError::invalid_input("CRS init parameter requires a value"));
            },
            Some(t) => owned(t.as_str()),
        },
    };
    let chars = to_chars(init.as_str());
    let at: usize = find_char(&chars, ':');
    if at >= chars.len() {
        let text = join3("unsupported CRS init authority '", init.as_str(), "'");
        return Err(RustySatError::invalid_input(text.as_str()));
    }
    let authority = part_of(&chars, 0, at);
    let low = lower_text(authority.as_str());
    if !same_text(low.as_str(), "epsg") {
        let text = join3("unsupported CRS init authority '", authority.as_str(), "'");
        return Err(RustySatError::invalid_input(text.as_str()));
    }
    let rest = part_of(&chars, at + 1, chars.len());
    let code = match normalize_epsg_code(rest.as_str()) {
        Ok(code) => code,
        Err(e) => {
            return Err(e);
        },
    };
    let mut out = params.without("init");
    if out.contains_key("epsg") {
        let message = join3("duplicate CRS parameter '", "epsg", "'");
        return Err(RustySatError::invalid_input(message.as_str()));
    }
    out.insert(owned("epsg"), ParamValue { text: Some(code) });
    proof {
        lemma_names();
    }
    Ok(out)
}

/// Makes a reference system of parameters.
fn complete(params: TextMap<ParamValue>, source: CrsSource) -> (r: Result<ProjCrs>)
    requires
        parts_ok(params@),
    ensures
        match completed(params@) {
            Err(e) => fails_with(r, e),
            Ok(m) => r is Ok && r->Ok_0@ == (CrsView { params: m, source }),
        },
{
    let params = match normalize_epsg_init(params) {
        Ok(m) => m,
        Err(e) => {
            return Err(e);
        },
    };
    proof {
        use_type_invariant(&params);
        params.keys().lemma_cardinality_of_set();
        crate::text_map::lemma_increasing_distinct(params.keys());
        params.keys().unique_seq_to_set();
    }
    if params.is_empty() {
        return Err(RustySatError::invalid_input("CRS parameters cannot be empty"));
    }
    if !params.contains_key("proj") && !params.contains_key("epsg") {
        return Err(RustySatError::invalid_input("CRS parameters require 'proj' or an EPSG code"));
    }
    Ok(ProjCrs { params, source })
}

/// One more parameter keeps the numbers written in the shortest way.
proof fn lemma_params_grow<P: Fn(String) -> Option<(F64, String)>>(
    read: P,
    raw: Params,
    done: Params,
    k: Seq<char>,
    v: Option<Seq<char>>,
    w: Option<Seq<char>>,
)
    requires
        params_normal(read, raw, done),
        !raw.contains_key(k),
        value_normal(read, k, v, w),
    ensures
        params_normal(read, raw.insert(k, v), done.insert(k, w)),
{
    assert(raw.insert(k, v).dom() =~= done.insert(k, w).dom());
    assert forall|x: Seq<char>| #[trigger] raw.insert(k, v).contains_key(x) implies value_normal(
        read,
        x,
        raw.insert(k, v)[x],
        done.insert(k, w)[x],
    ) by {
        if x != k {
            assert(raw.contains_key(x));
        }
    }
}

/// An obstacle among the first parameters of a list is one of the list.
proof fn lemma_gathered_error(list: Seq<(Seq<char>, Option<Seq<char>>)>, n: int)
    requires
        0 <= n <= list.len(),
        gathered(list.take(n)) is Err,
    ensures
        gathered(list) == gathered(list.take(n)),
    decreases list.len() - n,
{
    if n < list.len() {
        assert(list.take(n + 1).drop_last() =~= list.take(n));
        lemma_gathered_error(list, n + 1);
    } else {
        assert(list.take(n) =~= list);
    }
}

/// A number with its shortest text.
pub type NumberText = Option<(F64, Seq<char>)>;

/// The numbers among the parameters, as mathematical values.
#[verifier::ext_equal]
pub struct NumbersView {
    pub lon_0: NumberText,
    pub lat_0: NumberText,
    pub lat_ts: NumberText,
    pub x_0: NumberText,
    pub y_0: NumberText,
    pub a: NumberText,
    pub b: NumberText,
    pub rf: NumberText,
    pub h: NumberText,
}

/// The numbers among the parameters of a reference system, each with its shortest text.
/// The semi-minor axis is that of the parameters, or follows from the semi-major axis
/// and the flattening.
pub struct CrsNumbers {
    pub lon_0: Option<(F64, String)>,
    pub lat_0: Option<(F64, String)>,
    pub lat_ts: Option<(F64, String)>,
    pub x_0: Option<(F64, String)>,
    pub y_0: Option<(F64, String)>,
    pub a: Option<(F64, String)>,
    pub b: Option<(F64, String)>,
    pub rf: Option<(F64, String)>,
    pub h: Option<(F64, String)>,
}

impl View for CrsNumbers {
    type V = NumbersView;

    open spec fn view(&self) -> NumbersView {
        NumbersView {
            lon_0: number_of(self.lon_0),
            lat_0: number_of(self.lat_0),
            lat_ts: number_of(self.lat_ts),
            x_0: number_of(self.x_0),
            y_0: number_of(self.y_0),
            a: number_of(self.a),
            b: number_of(self.b),
            rf: number_of(self.rf),
            h: number_of(self.h),
        }
    }
}

/// The text of a parameter, where there is one.
pub open spec fn param_text(params: Params, key: Seq<char>) -> Option<Seq<char>> {
    if params.contains_key(key) {
        params[key]
    } else {
        None
    }
}

/// Whether `n` is the number of a parameter.
pub open spec fn param_number<P: Fn(String) -> Option<(F64, String)>>(
    params: Params,
    key: Seq<char>,
    read: P,
    n: NumberText,
) -> bool {
    match param_text(params, key) {
        None => n is None,
        Some(t) => is_reading(read, t, n),
    }
}

/// Whether `minor` makes `v`, with the text `t`, of the semi-major axis and the flattening.
pub open spec fn minor_gives<M: Fn(F64, F64) -> (F64, String)>(
    minor: M,
    a: F64,
    rf: F64,
    v: F64,
    t: String,
) -> bool {
    minor.ensures((a, rf), (v, t))
}

/// Whether `b` is the semi-minor axis: the parameter, or else what `minor` makes of the
/// semi-major axis and the flattening.
pub open spec fn is_semi_minor<M: Fn(F64, F64) -> (F64, String)>(
    given: NumberText,
    a: NumberText,
    rf: NumberText,
    minor: M,
    b: NumberText,
) -> bool {
    if given is Some {
        b == given
    } else if a is Some && rf is Some {
        exists|v: F64, t: String| #[trigger]
            minor_gives(minor, a->Some_0.0, rf->Some_0.0, v, t) && b == Some((v, t@))
    } else {
        b is None
    }
}

proof fn lemma_semi_minor<M: Fn(F64, F64) -> (F64, String)>(
    minor: M,
    a: NumberText,
    rf: NumberText,
    v: F64,
    t: String,
)
    requires
        a is Some,
        rf is Some,
        minor_gives(minor, a->Some_0.0, rf->Some_0.0, v, t),
    ensures
        is_semi_minor(None, a, rf, minor, Some((v, t@))),
{
}

/// Whether `n` holds the numbers of parameters.
pub open spec fn numbers_read<
    P: Fn(String) -> Option<(F64, String)>,
    M: Fn(F64, F64) -> (F64, String),
>(params: Params, read: P, minor: M, n: NumbersView) -> bool {
    &&& param_number(params, "lon_0"@, read, n.lon_0)
    &&& param_number(params, "lat_0"@, read, n.lat_0)
    &&& param_number(params, "lat_ts"@, read, n.lat_ts)
    &&& param_number(params, "x_0"@, read, n.x_0)
    &&& param_number(params, "y_0"@, read, n.y_0)
    &&& param_number(params, "a"@, read, n.a)
    &&& param_number(params, "rf"@, read, n.rf)
    &&& param_number(params, "h"@, read, n.h)
    &&& exists|given: NumberText| #[trigger]
        param_number(params, "b"@, read, given) && is_semi_minor(given, n.a, n.rf, minor, n.b)
}

/// The number, or zero where there is none.
pub open spec fn or_zero(n: NumberText) -> (F64, Seq<char>) {
    match n {
        Some(p) => p,
        None => (F64 { bits: 0 }, "0"@),
    }
}

/// A key with a short value.
pub open spec fn short_key(key_id: u16, value: u16) -> KeyView {
    KeyView { key_id, value: KeyValueView::Short(value) }
}

/// A key with a text.
pub open spec fn text_key(key_id: u16, value: Seq<char>) -> KeyView {
    KeyView { key_id, value: KeyValueView::Ascii(value) }
}

/// A key with a number.
pub open spec fn number_key(key_id: u16, value: F64) -> KeyView {
    KeyView { key_id, value: KeyValueView::Double(value) }
}

/// Keys with one more, where there is a number for it.
pub open spec fn with_number(keys: Seq<KeyView>, key_id: u16, n: NumberText) -> Seq<KeyView> {
    match n {
        Some((v, _)) => keys.push(number_key(key_id, v)),
        None => keys,
    }
}

/// The keys of a reference system by longitude and latitude.
pub open spec fn geographic_keys(params: Params) -> Seq<KeyView> {
    let datum = upper_case(
        match param_text(params, "datum"@) {
            Some(t) => t,
            None => "WGS84"@,
        },
    );
    if datum == "WGS84"@ {
        wgs84_keys()
    } else {
        seq![
            short_key(GT_MODEL_TYPE_GEO_KEY, MODEL_TYPE_GEOGRAPHIC),
            short_key(GEOGRAPHIC_TYPE_GEO_KEY, GEO_USER_DEFINED),
            text_key(GEOG_CITATION_GEO_KEY, "datum="@ + lower_case(datum)),
            short_key(GEOG_ANGULAR_UNITS_GEO_KEY, ANGULAR_UNIT_DEGREE),
        ]
    }
}

/// The keys of the reference system of the datum WGS 84.
pub open spec fn wgs84_keys() -> Seq<KeyView> {
    seq![
        short_key(GT_MODEL_TYPE_GEO_KEY, MODEL_TYPE_GEOGRAPHIC),
        short_key(GEOGRAPHIC_TYPE_GEO_KEY, EPSG_WGS_84),
        short_key(GEOG_GEODETIC_DATUM_GEO_KEY, EPSG_DATUM_WGS_84),
        short_key(GEOG_ANGULAR_UNITS_GEO_KEY, ANGULAR_UNIT_DEGREE),
    ]
}

/// The number that decimal digits denote.
pub open spec fn digits_value(s: Seq<char>) -> nat
    decreases s.len(),
{
    if s.len() == 0 {
        0
    } else {
        digits_value(s.drop_last()) * 10 + (s.last() as int - '0' as int) as nat
    }
}

/// The code of an authority; the one for "defined by the user" where there is none or
/// where it does not fit 16 bits.
pub open spec fn code_number(params: Params) -> u16 {
    match param_text(params, "epsg"@) {
        Some(t) => if digits_value(t) <= u16::MAX {
            digits_value(t) as u16
        } else {
            GEO_USER_DEFINED
        },
        None => GEO_USER_DEFINED,
    }
}

/// The keys of a reference system by its code.
pub open spec fn code_keys(code: u16) -> Seq<KeyView> {
    if code == EPSG_WGS_84 {
        wgs84_keys()
    } else {
        seq![
            short_key(GT_MODEL_TYPE_GEO_KEY, MODEL_TYPE_GEOGRAPHIC),
            short_key(GEOGRAPHIC_TYPE_GEO_KEY, code),
            short_key(GEOG_ANGULAR_UNITS_GEO_KEY, ANGULAR_UNIT_DEGREE),
            text_key(GEOG_CITATION_GEO_KEY, "EPSG:"@ + decimal(code as nat)),
        ]
    }
}

/// A text with one more part, where there is a number for it.
pub open spec fn cited(text: Seq<char>, name: Seq<char>, n: NumberText) -> Seq<char> {
    match n {
        Some((_, t)) => text + name + t,
        None => text,
    }
}

/// The first keys of a projected reference system.
pub open spec fn projected_keys(citation: Seq<char>, transformation: u16) -> Seq<KeyView> {
    seq![
        short_key(GT_MODEL_TYPE_GEO_KEY, MODEL_TYPE_PROJECTED),
        short_key(PROJECTED_CS_TYPE_GEO_KEY, GEO_USER_DEFINED),
        text_key(PROJECTED_CITATION_GEO_KEY, citation),
        short_key(PROJ_COORD_TRANS_GEO_KEY, transformation),
        short_key(PROJ_LINEAR_UNITS_GEO_KEY, LINEAR_UNIT_METER),
    ]
}

/// The keys of the shifts of the origin.
pub open spec fn with_shifts(keys: Seq<KeyView>, n: NumbersView) -> Seq<KeyView> {
    with_number(
        with_number(keys, PROJ_FALSE_EASTING_GEO_KEY, n.x_0),
        PROJ_FALSE_NORTHING_GEO_KEY,
        n.y_0,
    )
}

/// The keys of the view from a geostationary satellite.
pub open spec fn geos_keys(n: NumbersView) -> Seq<KeyView> {
    let lon = or_zero(n.lon_0);
    let citation = cited(
        cited(cited("GEOS lon_0="@ + lon.1, " a="@, n.a), " b="@, n.b),
        " h="@,
        n.h,
    );
    let start = projected_keys(citation, CT_GEOSTATIONARY_SATELLITE).push(
        number_key(PROJ_CENTER_LONG_GEO_KEY, lon.0),
    ).push(number_key(PROJ_NAT_ORIGIN_LONG_GEO_KEY, lon.0));
    let axes = with_number(
        with_number(with_shifts(start, n), PROJ_SEMI_MAJOR_AXIS_GEO_KEY, n.a),
        PROJ_SEMI_MINOR_AXIS_GEO_KEY,
        n.b,
    );
    if n.a is None && n.b is None {
        with_number(axes, PROJ_INV_FLATTENING_GEO_KEY, n.rf)
    } else {
        axes
    }
}

/// The latitudes of the poles, 90 and -90 degrees.
pub const NORTH_POLE: u64 = 0x4056_8000_0000_0000;

pub const SOUTH_POLE: u64 = 0xc056_8000_0000_0000;

/// Whether a latitude is that of a pole. No other number lies as close to one as the
/// least number that added to one gives another number.
pub open spec fn is_pole(lat: F64) -> bool {
    lat.bits == NORTH_POLE || lat.bits == SOUTH_POLE
}

/// The keys of the stereographic projection.
pub open spec fn stere_keys(n: NumbersView) -> Seq<KeyView> {
    let lat = or_zero(n.lat_0);
    let lon = or_zero(n.lon_0);
    let transformation = if is_pole(lat.0) {
        CT_POLAR_STEREOGRAPHIC
    } else {
        CT_STEREOGRAPHIC
    };
    with_shifts(
        projected_keys("stere lat_0="@ + lat.1 + " lon_0="@ + lon.1, transformation).push(
            number_key(PROJ_NAT_ORIGIN_LAT_GEO_KEY, lat.0),
        ).push(number_key(PROJ_CENTER_LONG_GEO_KEY, lon.0)).push(
            number_key(PROJ_NAT_ORIGIN_LONG_GEO_KEY, lon.0),
        ),
        n,
    )
}

/// The keys of Lambert's azimuthal equal-area projection.
pub open spec fn laea_keys(n: NumbersView) -> Seq<KeyView> {
    let lat = or_zero(n.lat_0);
    let lon = or_zero(n.lon_0);
    with_shifts(
        projected_keys(
            "laea lat_0="@ + lat.1 + " lon_0="@ + lon.1,
            CT_LAMBERT_AZIMUTHAL_EQUAL_AREA,
        ).push(number_key(PROJ_NAT_ORIGIN_LAT_GEO_KEY, lat.0)).push(
            number_key(PROJ_NAT_ORIGIN_LONG_GEO_KEY, lon.0),
        ),
        n,
    )
}

/// The keys of Mercator's projection.
pub open spec fn merc_keys(n: NumbersView) -> Seq<KeyView> {
    let lon = or_zero(n.lon_0);
    let citation = cited("merc lon_0="@ + lon.1, " lat_ts="@, n.lat_ts);
    with_shifts(
        with_number(
            projected_keys(citation, CT_MERCATOR).push(
                number_key(PROJ_NAT_ORIGIN_LONG_GEO_KEY, lon.0),
            ),
            PROJ_NAT_ORIGIN_LAT_GEO_KEY,
            n.lat_ts,
        ),
        n,
    )
}

/// The keys of a reference system; none for a projection that is not known.
pub open spec fn crs_keys(params: Params, n: NumbersView) -> Seq<KeyView> {
    match param_text(params, "proj"@) {
        Some(name) => if is_lonlat_name(name) {
            geographic_keys(params)
        } else if name == "geos"@ {
            geos_keys(n)
        } else if name == "stere"@ {
            stere_keys(n)
        } else if name == "laea"@ {
            laea_keys(n)
        } else if name == "merc"@ {
            merc_keys(n)
        } else {
            Seq::empty()
        },
        None => if params.contains_key("epsg"@) {
            code_keys(code_number(params))
        } else {
            Seq::empty()
        },
    }
}

/// No reference system has more than a dozen keys.
pub proof fn lemma_few_keys(params: Params, n: NumbersView)
    ensures
        crs_keys(params, n).len() <= 12,
{
}

/// Whether a name is one of the projection by longitude and latitude.
pub open spec fn is_lonlat_name(name: Seq<char>) -> bool {
    name == "longlat"@ || name == "latlong"@ || name == "lonlat"@
}

/// Whether a reference system is one by longitude and latitude.
pub open spec fn geographic(params: Params) -> bool {
    match param_text(params, "proj"@) {
        Some(name) => is_lonlat_name(name),
        None => param_text(params, "epsg"@) == Some("4326"@),
    }
}

/// A parameter in text form.
pub open spec fn param_notation(key: Seq<char>, value: Option<Seq<char>>) -> Seq<char> {
    match value {
        Some(v) => "+"@ + key + "="@ + v,
        None => "+"@ + key,
    }
}

/// Parameters in text form, separated by a space.
pub open spec fn params_notation(keys: Seq<Seq<char>>, params: Params) -> Seq<char>
    decreases keys.len(),
{
    if keys.len() == 0 {
        Seq::empty()
    } else if keys.len() == 1 {
        param_notation(keys[0], params[keys[0]])
    } else {
        params_notation(keys.drop_last(), params) + " "@ + param_notation(
            keys.last(),
            params[keys.last()],
        )
    }
}

/// The text form of a reference system.
pub open spec fn crs_text(params: Params) -> Seq<char> {
    params_notation(sorted_keys(params), params)
}

/// A direction as text.
pub open spec fn direction_name(direction: TransformDirection) -> Seq<char> {
    match direction {
        TransformDirection::Forward => "Forward"@,
        TransformDirection::Inverse => "Inverse"@,
    }
}

/// The text of the error for a transformation that is not available.
pub open spec fn transform_text(direction: TransformDirection, params: Params) -> Seq<char> {
    direction_name(direction) + " coordinate transform for CRS '"@ + crs_text(params) + "'"@
}

/// The text of the error for a transformation between reference systems that is not
/// available.
pub open spec fn between_text(from: Params, to: Params) -> Seq<char> {
    "coordinate transform from '"@ + crs_text(from) + "' to '"@ + crs_text(to) + "'"@
}

/// Whether coordinates are the same in two reference systems.
pub open spec fn same_coordinates(from: Params, to: Params) -> bool {
    from == to || (geographic(from) && geographic(to))
}

impl ProjCrs {
    #[verifier::type_invariant]
    pub open spec fn inv(&self) -> bool {
        params_ok(self@.params)
    }

    /// The reference system by longitude and latitude of the datum WGS 84.
    pub fn wgs84_longlat() -> (r: Self)
        ensures
            r@ == (CrsView { params: wgs84_params(), source: CrsSource::Wgs84LongLat }),
    {
        let mut params: TextMap<ParamValue> = TextMap::new();
        params.insert(owned("datum"), ParamValue { text: Some(owned("WGS84")) });
        params.insert(owned("proj"), ParamValue { text: Some(owned("longlat")) });
        proof {
            reveal_strlit("datum");
            reveal_strlit("proj");
            reveal_strlit("epsg");
            reveal_strlit("init");
            assert("datum"@[0] != "epsg"@[0] && "datum"@[0] != "init"@[0]);
            assert("proj"@[0] != "epsg"@[0] && "proj"@[0] != "init"@[0]);
        }
        ProjCrs { params, source: CrsSource::Wgs84LongLat }
    }

    /// The reference system with the parameters of a map. `read` finds the number in a
    /// text and its shortest text.
    pub fn from_projection_map<P: Fn(String) -> Option<(F64, String)>>(
        projection: &TextMap<String>,
        read: &P,
    ) -> (r: Result<Self>)
        requires
            forall|s: String| #[trigger] read.requires((s,)),
        ensures
            map_outcome(r, projection@, *read),
    {
        proof {
            use_type_invariant(projection);
            projection.lemma_keys_sorted();
        }
        if projection.is_empty() {
            return Err(RustySatError::invalid_input("projection map cannot be empty"));
        }
        match projection.get("proj4") {
            Some(proj4) => {
                return Self::from_proj4_str(proj4.as_str(), read);
            },
            None => {},
        }
        let mut params: TextMap<ParamValue> = TextMap::new();
        let ghost list = map_params(projection.keys(), projection@);
        let ghost mut raw: Params = Map::empty();
        let n: usize = projection.len();
        let mut i: usize = 0;
        proof {
            assert(list.take(0) =~= Seq::empty());
        }
        while i < n
            invariant
                i <= n,
                n == projection.keys().len(),
                n > 0,
                projection.keys() == sorted_keys(projection@),
                !projection@.contains_key("proj4"@),
                list == map_params(projection.keys(), projection@),
                gathered(list.take(i as int)) == core::result::Result::<Params, ErrorView>::Ok(raw),
                params_normal(*read, raw, params@),
                parts_ok(params@),
                forall|s: String| #[trigger] read.requires((s,)),
            decreases n - i,
        {
            let key = projection.key_at(i);
            let value = owned(projection.value_at(i).as_str());
            let ghost given = (key@, Some(value@));
            proof {
                assert(list.take(i + 1).drop_last() =~= list.take(i as int));
                assert(list.take(i + 1).last() == given);
            }
            let ghost before = params@;
            match add_param(&mut params, key.as_str(), Some(value), read) {
                Ok(()) => {
                    proof {
                        let (k, v) = read_param(given.0, given.1)->Ok_0;
                        lemma_params_grow(*read, raw, before, k, v, params@[k]);
                        raw = raw.insert(k, v);
                    }
                },
                Err(e) => {
                    proof {
                        lemma_gathered_error(list, i + 1);
                    }
                    return Err(e);
                },
            }
            i = i + 1;
        }
        assert(list.take(n as int) =~= list);
        let ghost done = params@;
        let r = complete(params, CrsSource::ProjMap);
        proof {
            assert(gathered(list)->Ok_0 == raw);
            assert(params_normal(*read, gathered(list)->Ok_0, done));
            assert(crs_outcome(r, list, CrsSource::ProjMap, *read));
        }
        r
    }

    /// The reference system that a text describes: parameters, or the code of an
    /// authority.
    pub fn from_proj4_str<P: Fn(String) -> Option<(F64, String)>>(proj4: &str, read: &P) -> (r:
        Result<Self>)
        requires
            forall|s: String| #[trigger] read.requires((s,)),
        ensures
            text_outcome(r, proj4@, *read),
    {
        let text = trim_text(proj4);
        if text.as_str().is_empty() {
            return Err(RustySatError::invalid_input("PROJ string cannot be empty"));
        }
        let chars = to_chars(text.as_str());
        if chars.len() >= 5 {
            let start = part_of(&chars, 0, 5);
            let low = lower_text(start.as_str());
            if same_text(low.as_str(), "epsg:") {
                let rest = part_of(&chars, 5, chars.len());
                let code = match normalize_epsg_code(rest.as_str()) {
                    Ok(code) => code,
                    Err(e) => {
                        return Err(e);
                    },
                };
                let mut params: TextMap<ParamValue> = TextMap::new();
                params.insert(owned("epsg"), ParamValue { text: Some(code) });
                proof {
                    lemma_names();
                }
                return Ok(ProjCrs { params, source: CrsSource::ProjString });
            }
        }
        let ghost t = text@;
        let tokens = split_words(text.as_str());
        let ghost all = texts(tokens@);
        let ghost list = token_params(all);
        let ghost mut raw: Params = Map::empty();
        let mut params: TextMap<ParamValue> = TextMap::new();
        let mut i: usize = 0;
        proof {
            assert(all.take(0) =~= Seq::empty());
        }
        while i < tokens.len()
            invariant
                i <= tokens@.len(),
                all == texts(tokens@),
                list == token_params(all),
                all == words(t),
                t == trimmed(proj4@),
                t.len() > 0,
                !names_code(t),
                gathered(token_params(all.take(i as int))) == core::result::Result::<
                    Params,
                    ErrorView,
                >::Ok(raw),
                params_normal(*read, raw, params@),
                parts_ok(params@),
                forall|s: String| #[trigger] read.requires((s,)),
            decreases tokens@.len() - i,
        {
            let token = strip_plus_of(tokens[i].as_str());
            proof {
                assert(all.take(i + 1).drop_last() =~= all.take(i as int));
                assert(all.take(i + 1).last() == all[i as int]);
            }
            if !token.as_str().is_empty() {
                let parts = to_chars(token.as_str());
                let at: usize = find_char(&parts, '=');
                let key = part_of(&parts, 0, at);
                let value: Option<String> = if at < parts.len() {
                    Some(part_of(&parts, at + 1, parts.len()))
                } else {
                    None
                };
                let ghost given = (key@, text_view(value));
                let ghost before = params@;
                proof {
                    assert(given == split_token(token@));
                    assert(token_params(all.take(i + 1)).drop_last() =~= token_params(
                        all.take(i as int),
                    ));
                }
                match add_param(&mut params, key.as_str(), value, read) {
                    Ok(()) => {
                        proof {
                            let (k, v) = read_param(given.0, given.1)->Ok_0;
                            lemma_params_grow(*read, raw, before, k, v, params@[k]);
                            raw = raw.insert(k, v);
                        }
                    },
                    Err(e) => {
                        proof {
                            lemma_tokens_grow(all, i + 1);
                            let n = token_params(all.take(i + 1)).len() as int;
                            lemma_gathered_error(list, n);
                        }
                        return Err(e);
                    },
                }
            }
            i = i + 1;
        }
        assert(all.take(all.len() as int) =~= all);
        let ghost done = params@;
        let r = complete(params, CrsSource::ProjString);
        proof {
            assert(gathered(list)->Ok_0 == raw);
            assert(params_normal(*read, gathered(list)->Ok_0, done));
            assert(crs_outcome(r, list, CrsSource::ProjString, *read));
        }
        r
    }

    pub fn backend_strategy() -> (r: ProjectionBackendStrategy)
        ensures
            r == ProjectionBackendStrategy::MetadataOnly,
    {
        ProjectionBackendStrategy::MetadataOnly
    }

    pub fn transform_backend_strategy() -> (r: ProjectionBackendStrategy)
        ensures
            r == ProjectionBackendStrategy::DeferredTransformBackend,
    {
        ProjectionBackendStrategy::DeferredTransformBackend
    }

    pub fn source(&self) -> (r: CrsSource)
        ensures
            r == self@.source,
    {
        self.source
    }

    pub fn params(&self) -> (r: &TextMap<ParamValue>)
        ensures
            r@ == self@.params,
            params_ok(r@),
    {
        proof {
            use_type_invariant(self);
        }
        &self.params
    }

    /// A parameter: nothing where it does not exist, and an empty value where it has no
    /// text.
    pub fn param(&self, key: &str) -> (r: Option<Option<&str>>)
        ensures
            r is Some == self@.params.contains_key(key@),
            r is Some ==> r->Some_0 is Some == self@.params[key@] is Some,
            r is Some && r->Some_0 is Some ==> r->Some_0->Some_0@ == self@.params[key@]->Some_0,
    {
        match self.params.get(key) {
            Some(value) => match &value.text {
                Some(t) => Some(Some(t.as_str())),
                None => Some(None),
            },
            None => None,
        }
    }

    fn text_of(&self, key: &str) -> (r: Option<&str>)
        ensures
            match param_text(self@.params, key@) {
                Some(t) => r is Some && r->Some_0@ == t,
                None => r is None,
            },
    {
        match self.param(key) {
            Some(t) => t,
            None => None,
        }
    }

    pub fn projection_name(&self) -> (r: Option<&str>)
        ensures
            match param_text(self@.params, "proj"@) {
                Some(t) => r is Some && r->Some_0@ == t,
                None => r is None,
            },
    {
        self.text_of("proj")
    }

    /// Whether the reference system is one by longitude and latitude.
    pub fn is_geographic(&self) -> (r: bool)
        ensures
            r == geographic(self@.params),
    {
        match self.projection_name() {
            Some(name) => same_text(name, "longlat") || same_text(name, "latlong") || same_text(
                name,
                "lonlat",
            ),
            None => match self.text_of("epsg") {
                Some(code) => same_text(code, "4326"),
                None => false,
            },
        }
    }

    fn number<P: Fn(String) -> Option<(F64, String)>>(&self, key: &str, read: &P) -> (r: Option<
        (F64, String),
    >)
        requires
            forall|s: String| #[trigger] read.requires((s,)),
        ensures
            param_number(self@.params, key@, *read, number_of(r)),
    {
        match self.text_of(key) {
            Some(t) => {
                let text = owned(t);
                let ghost asked = text;
                let found = read(text);
                assert(read.ensures((asked,), found));
                found
            },
            None => None,
        }
    }

    /// The number of a parameter.
    pub fn parse_param_f64<P: Fn(String) -> Option<(F64, String)>>(&self, key: &str, read: &P) -> (r:
        Option<F64>)
        requires
            forall|s: String| #[trigger] read.requires((s,)),
        ensures
            exists|n: NumberText| #[trigger]
                param_number(self@.params, key@, *read, n) && r == match n {
                    Some((v, _)) => Some(v),
                    None => None,
                },
    {
        let found = self.number(key, read);
        let ghost n = number_of(found);
        assert(param_number(self@.params, key@, *read, n));
        match found {
            Some((v, _)) => Some(v),
            None => None,
        }
    }

    /// The numbers among the parameters.
    pub fn numbers<P: Fn(String) -> Option<(F64, String)>, M: Fn(F64, F64) -> (F64, String)>(
        &self,
        read: &P,
        minor: &M,
    ) -> (r: CrsNumbers)
        requires
            forall|s: String| #[trigger] read.requires((s,)),
            forall|a: F64, rf: F64| #[trigger] minor.requires((a, rf)),
        ensures
            numbers_read(self@.params, *read, *minor, r@),
    {
        let a = self.number("a", read);
        let rf = self.number("rf", read);
        let given = self.number("b", read);
        let ghost given_view = number_of(given);
        let b: Option<(F64, String)> = match given {
            Some(p) => Some(p),
            None => match &a {
                Some(x) => match &rf {
                    Some(y) => {
                        let (v, t) = minor(x.0, y.0);
                        proof {
                            assert(minor_gives(*minor, x.0, y.0, v, t));
                            lemma_semi_minor(*minor, number_of(a), number_of(rf), v, t);
                        }
                        Some((v, t))
                    },
                    None => None,
                },
                None => None,
            },
        };
        assert(is_semi_minor(given_view, number_of(a), number_of(rf), *minor, number_of(b)));
        let r = CrsNumbers {
            lon_0: self.number("lon_0", read),
            lat_0: self.number("lat_0", read),
            lat_ts: self.number("lat_ts", read),
            x_0: self.number("x_0", read),
            y_0: self.number("y_0", read),
            a,
            b,
            rf,
            h: self.number("h", read),
        };
        proof {
            assert(param_number(self@.params, "b"@, *read, given_view));
            assert(is_semi_minor(given_view, r@.a, r@.rf, *minor, r@.b));
        }
        r
    }

    /// The keys that describe the reference system in a GeoTIFF file.
    pub fn to_geotiff_geo_key_defs<
        P: Fn(String) -> Option<(F64, String)>,
        M: Fn(F64, F64) -> (F64, String),
    >(&self, read: &P, minor: &M) -> (r: Vec<GeoKeyDef>)
        requires
            forall|s: String| #[trigger] read.requires((s,)),
            forall|a: F64, rf: F64| #[trigger] minor.requires((a, rf)),
        ensures
            exists|n: NumbersView| #[trigger]
                numbers_read(self@.params, *read, *minor, n) && keys_view(r@) == crs_keys(
                    self@.params,
                    n,
                ),
    {
        let numbers = self.numbers(read, minor);
        self.geo_key_defs(&numbers)
    }

    /// The keys that describe the reference system with these numbers.
    pub fn geo_key_defs(&self, numbers: &CrsNumbers) -> (r: Vec<GeoKeyDef>)
        ensures
            keys_view(r@) == crs_keys(self@.params, numbers@),
    {
        match self.projection_name() {
            Some(name) => {
                if same_text(name, "longlat") || same_text(name, "latlong") || same_text(
                    name,
                    "lonlat",
                ) {
                    self.geographic_geo_keys()
                } else if same_text(name, "geos") {
                    geos_geo_keys(numbers)
                } else if same_text(name, "stere") {
                    stere_geo_keys(numbers)
                } else if same_text(name, "laea") {
                    laea_geo_keys(numbers)
                } else if same_text(name, "merc") {
                    merc_geo_keys(numbers)
                } else {
                    no_keys()
                }
            },
            None => {
                if self.params.contains_key("epsg") {
                    self.epsg_geo_keys()
                } else {
                    no_keys()
                }
            },
        }
    }

    fn geographic_geo_keys(&self) -> (r: Vec<GeoKeyDef>)
        ensures
            keys_view(r@) == geographic_keys(self@.params),
    {
        let datum = match self.text_of("datum") {
            Some(t) => upper_case_of(t),
            None => upper_case_of("WGS84"),
        };
        if same_text(datum.as_str(), "WGS84") {
            wgs84_geo_keys()
        } else {
            let low = lower_case_of(datum.as_str());
            let citation = join2("datum=", low.as_str());
            let mut keys = no_keys();
            push_key(&mut keys, GeoKeyDef::short(GT_MODEL_TYPE_GEO_KEY, MODEL_TYPE_GEOGRAPHIC));
            push_key(&mut keys, GeoKeyDef::short(GEOGRAPHIC_TYPE_GEO_KEY, GEO_USER_DEFINED));
            push_key(&mut keys, GeoKeyDef::ascii(GEOG_CITATION_GEO_KEY, citation.as_str()));
            push_key(&mut keys, GeoKeyDef::short(GEOG_ANGULAR_UNITS_GEO_KEY, ANGULAR_UNIT_DEGREE));
            assert(keys_view(keys@) =~= geographic_keys(self@.params));
            keys
        }
    }

    fn epsg_geo_keys(&self) -> (r: Vec<GeoKeyDef>)
        ensures
            keys_view(r@) == code_keys(code_number(self@.params)),
    {
        proof {
            use_type_invariant(self);
        }
        let code: u16 = match self.text_of("epsg") {
            Some(t) => match digits_number(t) {
                Some(n) => n,
                None => GEO_USER_DEFINED,
            },
            None => GEO_USER_DEFINED,
        };
        if code == EPSG_WGS_84 {
            wgs84_geo_keys()
        } else {
            let digits = size_text(code as usize);
            let citation = join2("EPSG:", digits.as_str());
            let mut keys = no_keys();
            push_key(&mut keys, GeoKeyDef::short(GT_MODEL_TYPE_GEO_KEY, MODEL_TYPE_GEOGRAPHIC));
            push_key(&mut keys, GeoKeyDef::short(GEOGRAPHIC_TYPE_GEO_KEY, code));
            push_key(&mut keys, GeoKeyDef::short(GEOG_ANGULAR_UNITS_GEO_KEY, ANGULAR_UNIT_DEGREE));
            push_key(&mut keys, GeoKeyDef::ascii(GEOG_CITATION_GEO_KEY, citation.as_str()));
            assert(keys_view(keys@) =~= code_keys(code));
            keys
        }
    }

    /// Whether two reference systems have the same parameters.
    pub fn equivalent_to(&self, other: &Self) -> (r: bool)
        ensures
            r == (self@.params == other@.params),
    {
        self.params.same_as(&other.params)
    }

    /// The coordinates, where the reference system is one by longitude and latitude.
    pub fn transform_coordinate(
        &self,
        direction: TransformDirection,
        coordinate: Coordinate2D,
    ) -> (r: Result<Coordinate2D>)
        ensures
            geographic(self@.params) ==> r is Ok && r->Ok_0 == coordinate,
            !geographic(self@.params) ==> is_unsupported(
                r,
                transform_text(direction, self@.params),
            ),
    {
        if self.is_geographic() {
            return Ok(coordinate);
        }
        let own = self.to_proj4_string();
        let name = match direction {
            TransformDirection::Forward => "Forward",
            TransformDirection::Inverse => "Inverse",
        };
        let text = join4(name, " coordinate transform for CRS '", own.as_str(), "'");
        Err(RustySatError::unsupported(text.as_str()))
    }

    /// Each of several coordinates in turn.
    pub fn transform_coordinates(
        &self,
        direction: TransformDirection,
        coordinates: Vec<Coordinate2D>,
    ) -> (r: Result<Vec<Coordinate2D>>)
        ensures
            geographic(self@.params) || coordinates@.len() == 0 ==> r is Ok && r->Ok_0@
                == coordinates@,
            !geographic(self@.params) && coordinates@.len() > 0 ==> is_unsupported(
                r,
                transform_text(direction, self@.params),
            ),
    {
        let mut out: Vec<Coordinate2D> = Vec::new();
        let mut i: usize = 0;
        while i < coordinates.len()
            invariant
                i <= coordinates@.len(),
                out@ == coordinates@.take(i as int),
                i > 0 ==> geographic(self@.params),
            decreases coordinates@.len() - i,
        {
            match self.transform_coordinate(direction, coordinates[i]) {
                Ok(c) => {
                    out.push(c);
                },
                Err(e) => {
                    return Err(e);
                },
            }
            i = i + 1;
        }
        assert(coordinates@.take(coordinates@.len() as int) =~= coordinates@);
        Ok(out)
    }

    /// The coordinates in another reference system, where they are the same in both.
    pub fn transform_to(&self, target: &Self, coordinate: Coordinate2D) -> (r: Result<
        Coordinate2D,
    >)
        ensures
            same_coordinates(self@.params, target@.params) ==> r is Ok && r->Ok_0 == coordinate,
            !same_coordinates(self@.params, target@.params) ==> is_unsupported(
                r,
                between_text(self@.params, target@.params),
            ),
    {
        if self.equivalent_to(target) || (self.is_geographic() && target.is_geographic()) {
            return Ok(coordinate);
        }
        let own = self.to_proj4_string();
        let other = target.to_proj4_string();
        let text = join5(
            "coordinate transform from '",
            own.as_str(),
            "' to '",
            other.as_str(),
            "'",
        );
        Err(RustySatError::unsupported(text.as_str()))
    }

    /// Each of several coordinates in another reference system.
    pub fn transform_many_to(&self, target: &Self, coordinates: Vec<Coordinate2D>) -> (r: Result<
        Vec<Coordinate2D>,
    >)
        ensures
            same_coordinates(self@.params, target@.params) || coordinates@.len() == 0 ==> r is Ok
                && r->Ok_0@ == coordinates@,
            !same_coordinates(self@.params, target@.params) && coordinates@.len() > 0
                ==> is_unsupported(r, between_text(self@.params, target@.params)),
    {
        let mut out: Vec<Coordinate2D> = Vec::new();
        let mut i: usize = 0;
        while i < coordinates.len()
            invariant
                i <= coordinates@.len(),
                out@ == coordinates@.take(i as int),
                i > 0 ==> same_coordinates(self@.params, target@.params),
            decreases coordinates@.len() - i,
        {
            match self.transform_to(target, coordinates[i]) {
                Ok(c) => {
                    out.push(c);
                },
                Err(e) => {
                    return Err(e);
                },
            }
            i = i + 1;
        }
        assert(coordinates@.take(coordinates@.len() as int) =~= coordinates@);
        Ok(out)
    }

    /// The parameters in text form, in the order of their names.
    pub fn to_proj4_string(&self) -> (r: String)
        ensures
            r@ == crs_text(self@.params),
    {
        let ghost params = self.params@;
        let ghost keys = self.params.keys();
        let n: usize = self.params.len();
        let mut out = String::new();
        let mut i: usize = 0;
        while i < n
            invariant
                i <= n,
                n == keys.len(),
                keys == self.params.keys(),
                params == self.params@,
                out@ == params_notation(keys.take(i as int), params),
            decreases n - i,
        {
            let key = self.params.key_at(i);
            let value = self.params.value_at(i);
            proof {
                assert(keys.take(i + 1).drop_last() =~= keys.take(i as int));
            }
            if i > 0 {
                out.append(" ");
            }
            let ghost before = out@;
            let part = match &value.text {
                Some(v) => join4("+", key.as_str(), "=", v.as_str()),
                None => join2("+", key.as_str()),
            };
            out.append(part.as_str());
            proof {
                if i == 0 {
                    assert(out@ =~= part@);
                }
            }
            i = i + 1;
        }
        proof {
            use_type_invariant(&self.params);
            assert(keys.take(keys.len() as int) =~= keys);
            self.params.lemma_keys_sorted();
        }
        out
    }

    pub fn copy(&self) -> (r: Self)
        ensures
            r@ == self@,
    {
        proof {
            use_type_invariant(self);
        }
        ProjCrs { params: self.params.copy(), source: self.source }
    }
}

impl Clone for ProjCrs {
    fn clone(&self) -> (r: Self)
        ensures
            r@ == self@,
    {
        self.copy()
    }
}

/// The parameters of the first words stand before those of the others.
proof fn lemma_tokens_grow(tokens: Seq<Seq<char>>, n: int)
    requires
        0 <= n <= tokens.len(),
    ensures
        token_params(tokens.take(n)).len() <= token_params(tokens).len(),
        token_params(tokens).take(token_params(tokens.take(n)).len() as int) == token_params(
            tokens.take(n),
        ),
    decreases tokens.len() - n,
{
    if n < tokens.len() {
        lemma_tokens_grow(tokens, n + 1);
        assert(tokens.take(n + 1).drop_last() =~= tokens.take(n));
        let a = token_params(tokens.take(n)).len() as int;
        let b = token_params(tokens.take(n + 1)).len() as int;
        assert(token_params(tokens.take(n + 1)).take(a) =~= token_params(tokens.take(n)));
        assert(token_params(tokens).take(a) =~= token_params(tokens).take(b).take(a));
    } else {
        assert(tokens.take(n) =~= tokens);
        assert(token_params(tokens).take(token_params(tokens).len() as int) =~= token_params(
            tokens,
        ));
    }
}

/// The number that digits denote, where it fits 16 bits.
fn digits_number(text: &str) -> (r: Option<u16>)
    requires
        all_digits(text@),
    ensures
        digits_value(text@) <= u16::MAX ==> r is Some && r->Some_0 == digits_value(text@),
        digits_value(text@) > u16::MAX ==> r is None,
{
    let chars = to_chars(text);
    let mut n: u32 = 0;
    let mut i: usize = 0;
    while i < chars.len()
        invariant
            i <= chars@.len(),
            all_digits(chars@),
            chars@ == text@,
            n == digits_value(chars@.take(i as int)),
            n <= u16::MAX,
        decreases chars@.len() - i,
    {
        proof {
            assert(chars@.take(i + 1).drop_last() =~= chars@.take(i as int));
            assert('0' <= chars@[i as int] <= '9');
        }
        n = n * 10 + (chars[i] as u32 - 48);
        assert(n == digits_value(chars@.take(i + 1)));
        if n > 65535 {
            proof {
                lemma_digits_grow(chars@, i + 1);
            }
            return None;
        }
        i = i + 1;
    }
    assert(chars@.take(chars@.len() as int) =~= chars@);
    Some(n as u16)
}

/// More digits denote a number that is not smaller.
proof fn lemma_digits_grow(s: Seq<char>, i: int)
    requires
        0 <= i <= s.len(),
        all_digits(s),
    ensures
        digits_value(s.take(i)) <= digits_value(s),
    decreases s.len() - i,
{
    if i < s.len() {
        lemma_digits_grow(s, i + 1);
        assert(s.take(i + 1).drop_last() =~= s.take(i));
        assert('0' <= s[i] <= '9');
    } else {
        assert(s.take(i) =~= s);
    }
}

fn no_keys() -> (r: Vec<GeoKeyDef>)
    ensures
        keys_view(r@) == Seq::<KeyView>::empty(),
{
    let keys: Vec<GeoKeyDef> = Vec::new();
    assert(keys_view(keys@) =~= Seq::<KeyView>::empty());
    keys
}

fn wgs84_geo_keys() -> (r: Vec<GeoKeyDef>)
    ensures
        keys_view(r@) == wgs84_keys(),
{
    let mut keys = no_keys();
    push_key(&mut keys, GeoKeyDef::short(GT_MODEL_TYPE_GEO_KEY, MODEL_TYPE_GEOGRAPHIC));
    push_key(&mut keys, GeoKeyDef::short(GEOGRAPHIC_TYPE_GEO_KEY, EPSG_WGS_84));
    push_key(&mut keys, GeoKeyDef::short(GEOG_GEODETIC_DATUM_GEO_KEY, EPSG_DATUM_WGS_84));
    push_key(&mut keys, GeoKeyDef::short(GEOG_ANGULAR_UNITS_GEO_KEY, ANGULAR_UNIT_DEGREE));
    assert(keys_view(keys@) =~= wgs84_keys());
    keys
}

fn zero_text(n: &Option<(F64, String)>) -> (r: (F64, String))
    ensures
        (r.0, r.1@) == or_zero(number_of(*n)),
{
    match n {
        Some((v, t)) => (*v, owned(t.as_str())),
        None => (F64 { bits: 0 }, owned("0")),
    }
}

fn cite(text: &mut String, name: &str, n: &Option<(F64, String)>)
    ensures
        final(text)@ == cited(old(text)@, name@, number_of(*n)),
{
    match n {
        Some((_, t)) => {
            text.append(name);
            text.append(t.as_str());
        },
        None => {},
    }
}

fn push_number(keys: &mut Vec<GeoKeyDef>, key_id: u16, n: &Option<(F64, String)>)
    ensures
        keys_view(final(keys)@) == with_number(keys_view(old(keys)@), key_id, number_of(*n)),
{
    match n {
        Some((v, _)) => {
            push_key(keys, GeoKeyDef::double(key_id, *v));
        },
        None => {},
    }
}

fn push_key(keys: &mut Vec<GeoKeyDef>, key: GeoKeyDef)
    ensures
        keys_view(final(keys)@) == keys_view(old(keys)@).push(key@),
{
    keys.push(key);
    assert(keys_view(keys@) =~= keys_view(old(keys)@).push(key@));
}

fn projected_geo_keys(citation: &str, transformation: u16) -> (r: Vec<GeoKeyDef>)
    ensures
        keys_view(r@) == projected_keys(citation@, transformation),
{
    let mut keys = no_keys();
    push_key(&mut keys, GeoKeyDef::short(GT_MODEL_TYPE_GEO_KEY, MODEL_TYPE_PROJECTED));
    push_key(&mut keys, GeoKeyDef::short(PROJECTED_CS_TYPE_GEO_KEY, GEO_USER_DEFINED));
    push_key(&mut keys, GeoKeyDef::ascii(PROJECTED_CITATION_GEO_KEY, citation));
    push_key(&mut keys, GeoKeyDef::short(PROJ_COORD_TRANS_GEO_KEY, transformation));
    push_key(&mut keys, GeoKeyDef::short(PROJ_LINEAR_UNITS_GEO_KEY, LINEAR_UNIT_METER));
    assert(keys_view(keys@) =~= projected_keys(citation@, transformation));
    keys
}

fn geos_geo_keys(n: &CrsNumbers) -> (r: Vec<GeoKeyDef>)
    ensures
        keys_view(r@) == geos_keys(n@),
{
    let lon = zero_text(&n.lon_0);
    let mut citation = join2("GEOS lon_0=", lon.1.as_str());
    cite(&mut citation, " a=", &n.a);
    cite(&mut citation, " b=", &n.b);
    cite(&mut citation, " h=", &n.h);
    let mut keys = projected_geo_keys(citation.as_str(), CT_GEOSTATIONARY_SATELLITE);
    push_key(&mut keys, GeoKeyDef::double(PROJ_CENTER_LONG_GEO_KEY, lon.0));
    push_key(&mut keys, GeoKeyDef::double(PROJ_NAT_ORIGIN_LONG_GEO_KEY, lon.0));
    push_number(&mut keys, PROJ_FALSE_EASTING_GEO_KEY, &n.x_0);
    push_number(&mut keys, PROJ_FALSE_NORTHING_GEO_KEY, &n.y_0);
    push_number(&mut keys, PROJ_SEMI_MAJOR_AXIS_GEO_KEY, &n.a);
    push_number(&mut keys, PROJ_SEMI_MINOR_AXIS_GEO_KEY, &n.b);
    if n.a.is_none() && n.b.is_none() {
        push_number(&mut keys, PROJ_INV_FLATTENING_GEO_KEY, &n.rf);
    }
    keys
}

fn stere_geo_keys(n: &CrsNumbers) -> (r: Vec<GeoKeyDef>)
    ensures
        keys_view(r@) == stere_keys(n@),
{
    let lat = zero_text(&n.lat_0);
    let lon = zero_text(&n.lon_0);
    let polar = lat.0.bits == NORTH_POLE || lat.0.bits == SOUTH_POLE;
    let transformation: u16 = if polar {
        CT_POLAR_STEREOGRAPHIC
    } else {
        CT_STEREOGRAPHIC
    };
    let citation = join4("stere lat_0=", lat.1.as_str(), " lon_0=", lon.1.as_str());
    let mut keys = projected_geo_keys(citation.as_str(), transformation);
    push_key(&mut keys, GeoKeyDef::double(PROJ_NAT_ORIGIN_LAT_GEO_KEY, lat.0));
    push_key(&mut keys, GeoKeyDef::double(PROJ_CENTER_LONG_GEO_KEY, lon.0));
    push_key(&mut keys, GeoKeyDef::double(PROJ_NAT_ORIGIN_LONG_GEO_KEY, lon.0));
    push_number(&mut keys, PROJ_FALSE_EASTING_GEO_KEY, &n.x_0);
    push_number(&mut keys, PROJ_FALSE_NORTHING_GEO_KEY, &n.y_0);
    keys
}

fn laea_geo_keys(n: &CrsNumbers) -> (r: Vec<GeoKeyDef>)
    ensures
        keys_view(r@) == laea_keys(n@),
{
    let lat = zero_text(&n.lat_0);
    let lon = zero_text(&n.lon_0);
    let citation = join4("laea lat_0=", lat.1.as_str(), " lon_0=", lon.1.as_str());
    let mut keys = projected_geo_keys(citation.as_str(), CT_LAMBERT_AZIMUTHAL_EQUAL_AREA);
    push_key(&mut keys, GeoKeyDef::double(PROJ_NAT_ORIGIN_LAT_GEO_KEY, lat.0));
    push_key(&mut keys, GeoKeyDef::double(PROJ_NAT_ORIGIN_LONG_GEO_KEY, lon.0));
    push_number(&mut keys, PROJ_FALSE_EASTING_GEO_KEY, &n.x_0);
    push_number(&mut keys, PROJ_FALSE_NORTHING_GEO_KEY, &n.y_0);
    keys
}

fn merc_geo_keys(n: &CrsNumbers) -> (r: Vec<GeoKeyDef>)
    ensures
        keys_view(r@) == merc_keys(n@),
{
    let lon = zero_text(&n.lon_0);
    let mut citation = join2("merc lon_0=", lon.1.as_str());
    cite(&mut citation, " lat_ts=", &n.lat_ts);
    let mut keys = projected_geo_keys(citation.as_str(), CT_MERCATOR);
    push_key(&mut keys, GeoKeyDef::double(PROJ_NAT_ORIGIN_LONG_GEO_KEY, lon.0));
    push_number(&mut keys, PROJ_NAT_ORIGIN_LAT_GEO_KEY, &n.lat_ts);
    push_number(&mut keys, PROJ_FALSE_EASTING_GEO_KEY, &n.x_0);
    push_number(&mut keys, PROJ_FALSE_NORTHING_GEO_KEY, &n.y_0);
    keys
}

/// The code of an authority is read from its own text as it is.
pub proof fn lemma_code_read_again(value: Seq<char>)
    ensures
        epsg_code(value) matches Ok(code) ==> epsg_code(code) == Ok::<Seq<char>, ErrorView>(code),
{
    let t = trimmed(value);
    reveal_strlit("0");
    if all_digits(t) {
        lemma_without_zeros(t);
        lemma_no_leading_zero(t);
        let code = epsg_code(value)->Ok_0;
        assert(all_digits(code));
        assert(!is_space(code[0]) && !is_space(code.last())) by {
            assert('0' <= code[0] <= '9' && '0' <= code[code.len() - 1] <= '9');
        }
        lemma_trimmed_same(code);
        if code == "0"@ {
            let rest = code.subrange(1, code.len() as int);
            assert(rest.len() == 0);
            assert(without_zeros(rest) == rest);
        }
    }
}

proof fn lemma_no_leading_zero(s: Seq<char>)
    ensures
        without_zeros(s).len() > 0 ==> without_zeros(s)[0] != '0',
    decreases s.len(),
{
    if s.len() > 0 && s[0] == '0' {
        lemma_no_leading_zero(s.subrange(1, s.len() as int));
    }
}

/// A projection that is not known has no keys.
pub proof fn lemma_unknown_projection(params: Params, n: NumbersView)
    requires
        param_text(params, "proj"@) matches Some(name) && !is_lonlat_name(name) && name != "geos"@
            && name != "stere"@ && name != "laea"@ && name != "merc"@,
    ensures
        crs_keys(params, n) == Seq::<KeyView>::empty(),
{
}

/// Having the same coordinates is an equivalence of reference systems.
pub proof fn lemma_same_coordinates(a: Params, b: Params, c: Params)
    ensures
        same_coordinates(a, a),
        same_coordinates(a, b) ==> same_coordinates(b, a),
        same_coordinates(a, b) && same_coordinates(b, c) ==> same_coordinates(a, c),
{
}

/// Whether a parameter is read from its text form as it is: its name is a word without
/// an equals sign and without a leading plus sign, its value is a word that stands for
/// itself, and a number in it is written in the shortest way.
pub open spec fn reads_as_itself<P: Fn(String) -> Option<(F64, String)>>(
    read: P,
    key: Seq<char>,
    value: Option<Seq<char>>,
) -> bool {
    &&& is_word(key)
    &&& key[0] != '+'
    &&& forall|i: int| 0 <= i < key.len() ==> #[trigger] key[i] != '='
    &&& value matches Some(v) ==> {
        &&& is_word(v)
        &&& read_param(key, value) == Ok::<(Seq<char>, Option<Seq<char>>), ErrorView>((key, value))
        &&& key == "proj"@ || key == "epsg"@ || forall|out: Seq<char>| #[trigger]
            normal_text(read, v, out) ==> out == v
    }
}

/// A parameter in text form is a word, and is read as the parameter.
proof fn lemma_param_notation<P: Fn(String) -> Option<(F64, String)>>(
    read: P,
    key: Seq<char>,
    value: Option<Seq<char>>,
)
    requires
        reads_as_itself(read, key, value),
    ensures
        is_word(param_notation(key, value)),
        param_notation(key, value)[0] == '+',
        strip_plus(param_notation(key, value)).len() > 0,
        split_token(strip_plus(param_notation(key, value))) == (key, value),
        read_param(key, value) == Ok::<(Seq<char>, Option<Seq<char>>), ErrorView>((key, value)),
{
    reveal_strlit("+");
    reveal_strlit("=");
    let text = param_notation(key, value);
    let n = key.len() as int;
    assert(!is_space('+') && !is_space('='));
    assert forall|i: int| 0 <= i < text.len() implies !is_space(#[trigger] text[i]) by {
        if 1 <= i <= n {
            assert(text[i] == key[i - 1]);
        } else if i > n + 1 {
            assert(text[i] == value->Some_0[i - n - 2]);
        }
    }
    let token = strip_plus(text);
    match value {
        Some(v) => {
            assert(token =~= key + "="@ + v);
            assert forall|j: int| 0 <= j < n implies token[j] == #[trigger] key[j] && key[j] != '=' by {}
            assert(token[n] == '=');
            lemma_char_position(key, token, '=', 0);
            assert(token.subrange(0, n) =~= key);
            assert(token.subrange(n + 1, token.len() as int) =~= v);
        },
        None => {
            assert(token =~= key);
            lemma_char_position(key, token, '=', 0);
            assert(token.subrange(0, n) =~= key);
            assert(!is_space(key[0]) && !is_space(key[n - 1]));
            lemma_trimmed_same(key);
        },
    }
}

/// The parameters with the given names, in their order.
spec fn listed(keys: Seq<Seq<char>>, params: Params) -> Seq<(Seq<char>, Option<Seq<char>>)> {
    Seq::new(keys.len(), |i: int| (keys[i], params[keys[i]]))
}

/// Parameters in text form are read as the parameters.
proof fn lemma_params_notation<P: Fn(String) -> Option<(F64, String)>>(
    read: P,
    keys: Seq<Seq<char>>,
    params: Params,
)
    requires
        keys.len() > 0,
        forall|i: int|
            0 <= i < keys.len() ==> reads_as_itself(read, #[trigger] keys[i], params[keys[i]]),
    ensures
        params_notation(keys, params).len() > 0,
        params_notation(keys, params)[0] == '+',
        !is_space(params_notation(keys, params).last()),
        token_params(words(params_notation(keys, params))) == listed(keys, params),
    decreases keys.len(),
{
    let text = params_notation(keys, params);
    let last = keys.last();
    let token = param_notation(last, params[last]);
    assert(reads_as_itself(read, keys[keys.len() - 1], params[keys[keys.len() - 1]]));
    lemma_param_notation(read, last, params[last]);
    assert(!is_space(token[token.len() - 1]));
    if keys.len() == 1 {
        lemma_words_of_word(token);
        let tokens = words(text);
        assert(tokens == seq![token]);
        assert(tokens.drop_last() =~= Seq::<Seq<char>>::empty());
        assert(token_params(tokens.drop_last()) =~= Seq::<(Seq<char>, Option<Seq<char>>)>::empty());
        assert(token_params(tokens) =~= listed(keys, params));
    } else {
        let rest = keys.drop_last();
        assert forall|i: int| 0 <= i < rest.len() implies reads_as_itself(
            read,
            #[trigger] rest[i],
            params[rest[i]],
        ) by {
            assert(rest[i] == keys[i]);
        }
        lemma_params_notation(read, rest, params);
        let before = params_notation(rest, params);
        lemma_words_join(before, token);
        assert(text == before + " "@ + token);
        assert(text[0] == before[0]);
        assert(text.last() == token.last());
        let tokens = words(text);
        assert(tokens.drop_last() =~= words(before));
        assert(tokens.last() == token);
        assert(token_params(tokens) =~= listed(keys, params));
    }
}

/// Parameters that are listed once each are gathered as they are.
proof fn lemma_listed_gathered<P: Fn(String) -> Option<(F64, String)>>(
    read: P,
    keys: Seq<Seq<char>>,
    params: Params,
)
    requires
        keys.no_duplicates(),
        forall|i: int|
            0 <= i < keys.len() ==> reads_as_itself(read, #[trigger] keys[i], params[keys[i]]),
    ensures
        gathered(listed(keys, params)) is Ok,
        forall|k: Seq<char>|
            gathered(listed(keys, params))->Ok_0.contains_key(k) <==> #[trigger] keys.contains(k),
        forall|k: Seq<char>| #[trigger]
            keys.contains(k) ==> gathered(listed(keys, params))->Ok_0[k] == params[k],
    decreases keys.len(),
{
    let list = listed(keys, params);
    if keys.len() > 0 {
        let rest = keys.drop_last();
        let last = keys.last();
        assert forall|i: int| 0 <= i < rest.len() implies reads_as_itself(
            read,
            #[trigger] rest[i],
            params[rest[i]],
        ) by {
            assert(rest[i] == keys[i]);
        }
        assert(rest.no_duplicates());
        lemma_listed_gathered(read, rest, params);
        assert(list.drop_last() =~= listed(rest, params));
        assert(reads_as_itself(read, keys[keys.len() - 1], params[keys[keys.len() - 1]]));
        lemma_param_notation(read, last, params[last]);
        assert(!rest.contains(last));
        let m = gathered(listed(rest, params))->Ok_0;
        assert(gathered(list)->Ok_0 == m.insert(last, params[last]));
        assert forall|k: Seq<char>| #[trigger] keys.contains(k) <==> rest.contains(k) || k == last by {
            if rest.contains(k) {
                let i = choose|i: int| 0 <= i < rest.len() && rest[i] == k;
                assert(keys[i] == k);
            }
            if k == last {
                assert(keys[keys.len() - 1] == k);
            }
            if keys.contains(k) && k != last {
                let i = choose|i: int| 0 <= i < keys.len() && keys[i] == k;
                assert(rest[i] == k);
            }
        }
    }
}

/// The text form of a reference system names it: what is read from it has the same
/// parameters. Left out are parameters that the text form cannot hold, such as a value
/// with white space in it, and a code given in the old way, which takes another name.
pub proof fn lemma_text_names_crs<P: Fn(String) -> Option<(F64, String)>>(
    r: Result<ProjCrs>,
    params: Params,
    read: P,
)
    requires
        params.dom().finite(),
        params.contains_key("proj"@) || params.contains_key("epsg"@),
        !params.contains_key("init"@),
        forall|k: Seq<char>| #[trigger]
            params.contains_key(k) ==> reads_as_itself(read, k, params[k]),
        text_outcome(r, crs_text(params), read),
    ensures
        r is Ok,
        r->Ok_0@.params == params,
{
    let keys = sorted_keys(params);
    lemma_sorted_keys(params);
    lemma_increasing_distinct(keys);
    if params.contains_key("proj"@) {
        assert(keys.contains("proj"@));
    } else {
        assert(keys.contains("epsg"@));
    }
    assert forall|i: int| 0 <= i < keys.len() implies reads_as_itself(
        read,
        #[trigger] keys[i],
        params[keys[i]],
    ) by {
        assert(keys.contains(keys[i]));
        assert(params.contains_key(keys[i]));
    }
    let text = crs_text(params);
    lemma_params_notation(read, keys, params);
    assert(!is_space('+'));
    lemma_trimmed_same(text);
    assert(!names_code(text)) by {
        reveal_strlit("epsg:");
        if text.len() >= 5 {
            assert(lowered(text.subrange(0, 5))[0] == '+');
            assert("epsg:"@[0] == 'e');
        }
    }
    lemma_listed_gathered(read, keys, params);
    let raw = gathered(listed(keys, params))->Ok_0;
    assert forall|k: Seq<char>| raw.dom().contains(k) == #[trigger] params.dom().contains(k) by {
        assert(keys.contains(k) == params.contains_key(k));
        assert(raw.contains_key(k) == keys.contains(k));
    }
    assert(raw.dom() =~= params.dom());
    assert forall|k: Seq<char>| #[trigger] params.contains_key(k) implies raw[k] == params[k] by {
        assert(keys.contains(k));
    }
    assert(raw =~= params);
    assert(params.dom().len() > 0) by {
        if params.dom().len() == 0 {
            assert(params.dom() =~= Set::<Seq<char>>::empty());
        }
    }
    assert(completed(params) == Ok::<Params, ErrorView>(params));
    let done = choose|done: Params| #[trigger]
        params_normal(read, raw, done) && match completed(done) {
            Err(e) => fails_with(r, e),
            Ok(params) => r is Ok && r->Ok_0@ == (CrsView {
                params,
                source: CrsSource::ProjString,
            }),
        };
    assert forall|k: Seq<char>| #[trigger] params.contains_key(k) implies done[k] == params[k] by {
        assert(raw.contains_key(k));
        assert(value_normal(read, k, raw[k], done[k]));
    }
    assert(done =~= params);
}

/// Whether a text holds no white space.
spec fn spaceless(s: Seq<char>) -> bool {
    forall|i: int| 0 <= i < s.len() ==> !is_space(#[trigger] s[i])
}

/// Whether a parameter can stand in a text: its name and its value are words, and reading the
/// value changes nothing but the way a number is written.
spec fn settled(k: Seq<char>, v: Option<Seq<char>>) -> bool {
    &&& is_word(k)
    &&& forall|i: int| 0 <= i < k.len() ==> #[trigger] k[i] != '='
    &&& v matches Some(t) ==> {
        &&& is_word(t)
        &&& plain_value(t) == Some(t)
        &&& k == "proj"@ ==> normal_name(t) == t
        &&& k == "epsg"@ ==> epsg_code(t) == Ok::<Seq<char>, ErrorView>(t)
    }
}

proof fn lemma_trimmed_spaceless(s: Seq<char>)
    requires
        spaceless(s),
    ensures
        trimmed(s) == s,
{
    if s.len() > 0 {
        assert(!is_space(s[0]) && !is_space(s[s.len() - 1]));
        lemma_trimmed_same(s);
    }
}

proof fn lemma_zeros_gone(s: Seq<char>)
    requires
        forall|i: int| 0 <= i < s.len() ==> '0' <= #[trigger] s[i] <= '9',
    ensures
        forall|i: int| 0 <= i < without_zeros(s).len() ==> '0' <= #[trigger] without_zeros(s)[i] <= '9',
        without_zeros(without_zeros(s)) == without_zeros(s),
    decreases s.len(),
{
    if s.len() > 0 && s[0] == '0' {
        let rest = s.subrange(1, s.len() as int);
        assert forall|i: int| 0 <= i < rest.len() implies '0' <= #[trigger] rest[i] <= '9' by {
            assert(rest[i] == s[i + 1]);
        }
        lemma_zeros_gone(rest);
    }
}

/// The code of an authority is kept by reading it again.
proof fn lemma_code_settled(value: Seq<char>, code: Seq<char>)
    requires
        epsg_code(value) == Ok::<Seq<char>, ErrorView>(code),
    ensures
        settled("epsg"@, Some(code)),
{
    reveal_strlit("epsg");
    reveal_strlit("proj");
    reveal_strlit("0");
    reveal_strlit("none");
    reveal_strlit("null");
    reveal_strlit("true");
    let t = trimmed(value);
    lemma_zeros_gone(t);
    assert(all_digits(code)) by {
        if without_zeros(t).len() == 0 {
            assert(code == "0"@);
            assert(code[0] == '0');
        }
    }
    assert(spaceless(code));
    lemma_trimmed_spaceless(code);
    assert(lowered(code)[0] == code[0]);
    assert("none"@[0] == 'n' && "null"@[0] == 'n' && "true"@[0] == 't');
    if without_zeros(t).len() == 0 {
        assert(without_zeros("0"@) =~= Seq::<char>::empty()) by {
            reveal_with_fuel(without_zeros, 2);
            assert("0"@.subrange(1, 1) =~= Seq::<char>::empty());
        }
    }
    assert("epsg"@ != "proj"@) by {
        assert("epsg"@[0] == 'e' && "proj"@[0] == 'p');
    }
    assert(is_word("epsg"@));
}

/// A parameter that is read from a text without white space can stand in a text.
proof fn lemma_read_settled(key: Seq<char>, value: Option<Seq<char>>)
    requires
        spaceless(key),
        forall|i: int| 0 <= i < key.len() ==> #[trigger] key[i] != '=',
        value matches Some(v) ==> spaceless(v),
        read_param(key, value) is Ok,
    ensures
        settled(read_param(key, value)->Ok_0.0, read_param(key, value)->Ok_0.1),
{
    let k = normal_key(key);
    lemma_trimmed_spaceless(key);
    assert(is_word(k) && forall|i: int| 0 <= i < k.len() ==> #[trigger] k[i] != '=') by {
        if key.len() > 0 && key[0] == '+' {
            assert forall|i: int| 0 <= i < k.len() implies !is_space(#[trigger] k[i]) && k[i] != '=' by {
                assert(k[i] == key[i + 1]);
            }
        }
    }
    if let Some(v) = value {
        lemma_trimmed_spaceless(v);
        if let Some(t) = plain_value(v) {
            assert(t == v);
            if k == "proj"@ {
                reveal_strlit("longlat");
                reveal_strlit("latlong");
                reveal_strlit("lonlat");
                reveal_strlit("none");
                reveal_strlit("null");
                reveal_strlit("true");
                reveal_strlit("proj");
                reveal_strlit("epsg");
                assert("epsg"@[0] == 'e' && "proj"@[0] == 'p');
                let l = "longlat"@;
                assert(spaceless(l));
                lemma_trimmed_spaceless(l);
                assert(lowered(l)[2] == 'n' && lowered(l).len() == 7);
                assert("latlong"@[2] == 't' && "lonlat"@.len() == 6);
            } else if k == "epsg"@ {
                lemma_code_settled(t, epsg_code(t)->Ok_0);
            }
        }
    }
}

/// The parameters that are gathered from texts without white space can stand in a text.
proof fn lemma_gathered_settled(list: Seq<(Seq<char>, Option<Seq<char>>)>)
    requires
        gathered(list) is Ok,
        forall|i: int| 0 <= i < list.len() ==> can_be_read(#[trigger] list[i]),
    ensures
        gathered(list)->Ok_0.dom().finite(),
        forall|k: Seq<char>| #[trigger]
            gathered(list)->Ok_0.contains_key(k) ==> settled(k, gathered(list)->Ok_0[k]),
    decreases list.len(),
{
    if list.len() > 0 {
        let before = list.drop_last();
        assert forall|i: int| 0 <= i < before.len() implies can_be_read(#[trigger] before[i]) by {
            assert(before[i] == list[i]);
        }
        lemma_gathered_settled(before);
        assert(can_be_read(list[list.len() - 1]));
        lemma_read_settled(list.last().0, list.last().1);
    }
}

/// Whether a name and a value hold no white space, and the name no equals sign.
spec fn can_be_read(param: (Seq<char>, Option<Seq<char>>)) -> bool {
    &&& spaceless(param.0)
    &&& forall|i: int| 0 <= i < param.0.len() ==> #[trigger] param.0[i] != '='
    &&& param.1 matches Some(v) ==> spaceless(v)
}

proof fn lemma_tokens_can_be_read(tokens: Seq<Seq<char>>)
    requires
        forall|i: int| 0 <= i < tokens.len() ==> is_word(#[trigger] tokens[i]),
    ensures
        forall|i: int| 0 <= i < token_params(tokens).len() ==> can_be_read(#[trigger] token_params(tokens)[i]),
    decreases tokens.len(),
{
    if tokens.len() > 0 {
        let before = tokens.drop_last();
        assert forall|i: int| 0 <= i < before.len() implies is_word(#[trigger] before[i]) by {
            assert(before[i] == tokens[i]);
        }
        lemma_tokens_can_be_read(before);
        let last = tokens.last();
        assert(is_word(tokens[tokens.len() - 1]));
        let token = strip_plus(last);
        assert forall|i: int| 0 <= i < token.len() implies !is_space(#[trigger] token[i]) by {
            if last[0] == '+' {
                assert(token[i] == last[i + 1]);
            }
        }
        lemma_char_position_first(token, '=', 0);
        let at = char_position(token, '=', 0);
        let (k, v) = split_token(token);
        assert forall|i: int| 0 <= i < k.len() implies !is_space(#[trigger] k[i]) && k[i] != '=' by {
            assert(k[i] == token[i]);
        }
        if let Some(t) = v {
            assert forall|i: int| 0 <= i < t.len() implies !is_space(#[trigger] t[i]) by {
                assert(t[i] == token[at + 1 + i]);
            }
        }
        assert(can_be_read(split_token(token)));
        let all = token_params(tokens);
        let first = token_params(before);
        assert forall|i: int| 0 <= i < all.len() implies can_be_read(#[trigger] all[i]) by {
            if i < first.len() {
                assert(all[i] == first[i]);
            }
        }
    }
}

/// Whether a text is read in one way, and the shortest text of a finite number is a word that
/// stands for the number and is its own shortest text.
pub open spec fn reads_own_text<P: Fn(String) -> Option<(F64, String)>>(read: P) -> bool {
    &&& one_reading(read)
    &&& forall|s: Seq<char>, x: F64, t: Seq<char>| #[trigger]
        is_reading(read, s, Some((x, t))) && x.finite() ==> {
            &&& is_word(t)
            &&& plain_value(t) == Some(t)
            &&& forall|n: Option<(F64, Seq<char>)>| #[trigger]
                is_reading(read, t, n) ==> n is Some && n->Some_0.1 == t
        }
}

/// Whether a text is read in one way.
pub open spec fn one_reading<P: Fn(String) -> Option<(F64, String)>>(read: P) -> bool {
    forall|s: Seq<char>, m: Option<(F64, Seq<char>)>, n: Option<(F64, Seq<char>)>|
        #![trigger is_reading(read, s, m), is_reading(read, s, n)]
        is_reading(read, s, m) && is_reading(read, s, n) ==> m == n
}

/// A parameter whose number was written in the shortest way is read as itself.
proof fn lemma_normal_reads_as_itself<P: Fn(String) -> Option<(F64, String)>>(
    read: P,
    k: Seq<char>,
    a: Option<Seq<char>>,
    b: Option<Seq<char>>,
)
    requires
        reads_own_text(read),
        settled(k, a),
        value_normal(read, k, a, b),
        k[0] != '+',
    ensures
        settled(k, b),
        reads_as_itself(read, k, b),
{
    lemma_trimmed_spaceless(k);
    if let Some(v) = a {
        let out = b->Some_0;
        if k != "proj"@ && k != "epsg"@ {
            let n = choose|n: Option<(F64, Seq<char>)>| #[trigger]
                is_reading(read, v, n) && out == match n {
                    Some((x, t)) => if x.finite() {
                        t
                    } else {
                        v
                    },
                    None => v,
                };
            assert forall|w: Seq<char>| #[trigger] normal_text(read, out, w) implies w == out by {
                let m = choose|m: Option<(F64, Seq<char>)>| #[trigger]
                    is_reading(read, out, m) && w == match m {
                        Some((x, t)) => if x.finite() {
                            t
                        } else {
                            out
                        },
                        None => out,
                    };
                if let Some((x, t)) = n {
                    if x.finite() {
                        assert(is_reading(read, v, Some((x, t))));
                        assert(m is Some && m->Some_0.1 == t);
                    } else {
                        assert(m == n);
                    }
                } else {
                    assert(m == n);
                }
            }
        }
        assert(read_param(k, b) == Ok::<(Seq<char>, Option<Seq<char>>), ErrorView>((k, b)));
    }
}

/// The text form of a reference system that was read from a text names it: what is read from
/// it has the same parameters, for every reader of numbers that reads its own texts. Left out
/// are parameters whose name begins with a plus sign, which is lost in reading.
pub proof fn lemma_read_again<P: Fn(String) -> Option<(F64, String)>>(
    first: Result<ProjCrs>,
    again: Result<ProjCrs>,
    text: Seq<char>,
    read: P,
)
    requires
        reads_own_text(read),
        text_outcome(first, text, read),
        first is Ok,
        forall|k: Seq<char>| #[trigger] first->Ok_0@.params.contains_key(k) ==> k.len() == 0 || k[0] != '+',
        text_outcome(again, crs_text(first->Ok_0@.params), read),
    ensures
        again is Ok,
        again->Ok_0@.params == first->Ok_0@.params,
{
    let t = trimmed(text);
    let params = first->Ok_0@.params;
    reveal_strlit("init");
    reveal_strlit("epsg");
    assert("init"@[0] == 'i' && "epsg"@[0] == 'e');
    if names_code(t) {
        let code = epsg_code(t.subrange(5, t.len() as int))->Ok_0;
        lemma_code_settled(t.subrange(5, t.len() as int), code);
        lemma_normal_reads_as_itself(read, "epsg"@, Some(code), Some(code));
    } else {
        lemma_words_are_words(t, 0);
        lemma_tokens_can_be_read(words(t));
        let list = token_params(words(t));
        lemma_gathered_settled(list);
        let raw = gathered(list)->Ok_0;
        let done = choose|done: Params| #[trigger]
            params_normal(read, raw, done) && match completed(done) {
                Err(e) => fails_with(first, e),
                Ok(params) => first is Ok && first->Ok_0@ == (CrsView {
                    params,
                    source: CrsSource::ProjString,
                }),
            };
        assert(with_code(done) == Ok::<Params, ErrorView>(params));
        if done.contains_key("init"@) {
            let init = done["init"@]->Some_0;
            let at = char_position(init, ':', 0);
            let rest = init.subrange(at + 1, init.len() as int);
            lemma_code_settled(rest, epsg_code(rest)->Ok_0);
            lemma_normal_reads_as_itself(read, "epsg"@, params["epsg"@], params["epsg"@]);
        }
        assert forall|k: Seq<char>| #[trigger] params.contains_key(k) implies reads_as_itself(
            read,
            k,
            params[k],
        ) by {
            if !(done.contains_key("init"@) && k == "epsg"@) {
                assert(done.contains_key(k) && done[k] == params[k]);
                assert(raw.dom().contains(k));
                assert(raw.contains_key(k));
                assert(settled(k, raw[k]));
                assert(value_normal(read, k, raw[k], done[k]));
                lemma_normal_reads_as_itself(read, k, raw[k], done[k]);
            }
        }
        assert(!params.contains_key("init"@));
    }
    lemma_text_names_crs(again, params, read);
}

/// The parameters of the reference system by longitude and latitude of the datum WGS 84.
pub open spec fn wgs84_params() -> Params {
    Map::<Seq<char>, Option<Seq<char>>>::empty().insert("datum"@, Some("WGS84"@)).insert(
        "proj"@,
        Some("longlat"@),
    )
}

/// The text form of the reference system of the datum WGS 84 names it, for every reader that
/// finds no number in the name of the datum.
pub proof fn lemma_wgs84_read_again<P: Fn(String) -> Option<(F64, String)>>(
    r: Result<ProjCrs>,
    read: P,
)
    requires
        forall|n: Option<(F64, Seq<char>)>| #[trigger] is_reading(read, "WGS84"@, n) ==> n is None,
        text_outcome(r, crs_text(wgs84_params()), read),
    ensures
        r is Ok,
        r->Ok_0@.params == wgs84_params(),
{
    reveal_strlit("datum");
    reveal_strlit("WGS84");
    reveal_strlit("proj");
    reveal_strlit("longlat");
    reveal_strlit("init");
    reveal_strlit("epsg");
    reveal_strlit("none");
    reveal_strlit("null");
    reveal_strlit("true");
    reveal_strlit("latlong");
    reveal_strlit("lonlat");
    let params = wgs84_params();
    assert("datum"@[0] == 'd' && "proj"@[0] == 'p' && "init"@[0] == 'i' && "epsg"@[0] == 'e');
    assert(spaceless("datum"@) && spaceless("WGS84"@) && spaceless("proj"@) && spaceless("longlat"@));
    lemma_trimmed_spaceless("datum"@);
    lemma_trimmed_spaceless("WGS84"@);
    lemma_trimmed_spaceless("proj"@);
    lemma_trimmed_spaceless("longlat"@);
    assert(lowered("WGS84"@).len() == 5 && lowered("longlat"@).len() == 7);
    assert(lowered("longlat"@)[2] == 'n' && "latlong"@[2] == 't' && "lonlat"@.len() == 6);
    assert(reads_as_itself(read, "datum"@, Some("WGS84"@)));
    assert(reads_as_itself(read, "proj"@, Some("longlat"@)));
    lemma_text_names_crs(r, params, read);
}

/// Where a text is read in one way, a list of parameters makes one reference system.
proof fn lemma_one_crs_of_list<P: Fn(String) -> Option<(F64, String)>>(
    a: Result<ProjCrs>,
    b: Result<ProjCrs>,
    list: Seq<(Seq<char>, Option<Seq<char>>)>,
    source: CrsSource,
    read: P,
)
    requires
        one_reading(read),
        crs_outcome(a, list, source, read),
        crs_outcome(b, list, source, read),
    ensures
        same_shown(a, b),
{
    if let Ok(raw) = gathered(list) {
        let first = choose|done: Params| #[trigger]
            params_normal(read, raw, done) && match completed(done) {
                Err(e) => fails_with(a, e),
                Ok(params) => a is Ok && a->Ok_0@ == (CrsView { params, source }),
            };
        let second = choose|done: Params| #[trigger]
            params_normal(read, raw, done) && match completed(done) {
                Err(e) => fails_with(b, e),
                Ok(params) => b is Ok && b->Ok_0@ == (CrsView { params, source }),
            };
        assert forall|k: Seq<char>| #[trigger] raw.contains_key(k) implies first[k] == second[k] by {
            assert(value_normal(read, k, raw[k], first[k]));
            assert(value_normal(read, k, raw[k], second[k]));
        }
        assert(first =~= second);
    }
}

/// Where a text is read in one way, it describes one reference system.
pub proof fn lemma_one_crs_of_text<P: Fn(String) -> Option<(F64, String)>>(
    a: Result<ProjCrs>,
    b: Result<ProjCrs>,
    text: Seq<char>,
    read: P,
)
    requires
        one_reading(read),
        text_outcome(a, text, read),
        text_outcome(b, text, read),
    ensures
        same_shown(a, b),
{
    let t = trimmed(text);
    if t.len() > 0 && !names_code(t) {
        lemma_one_crs_of_list(a, b, token_params(words(t)), CrsSource::ProjString, read);
    }
}

/// Where a text is read in one way, a map of parameters describes one reference system.
pub proof fn lemma_one_crs_of_map<P: Fn(String) -> Option<(F64, String)>>(
    a: Result<ProjCrs>,
    b: Result<ProjCrs>,
    projection: Map<Seq<char>, Seq<char>>,
    read: P,
)
    requires
        one_reading(read),
        map_outcome(a, projection, read),
        map_outcome(b, projection, read),
    ensures
        same_shown(a, b),
{
    if sorted_keys(projection).len() > 0 {
        if projection.contains_key("proj4"@) {
            lemma_one_crs_of_text(a, b, projection["proj4"@], read);
        } else {
            lemma_one_crs_of_list(
                a,
                b,
                map_params(sorted_keys(projection), projection),
                CrsSource::ProjMap,
                read,
            );
        }
    }
}

/// What is gathered from a list has names, and a code that is one.
proof fn lemma_gathered_parts(list: Seq<(Seq<char>, Option<Seq<char>>)>)
    ensures
        gathered(list) matches Ok(m) ==> parts_ok(m),
    decreases list.len(),
{
    if list.len() > 0 {
        lemma_gathered_parts(list.drop_last());
        reveal_strlit("proj");
        reveal_strlit("epsg");
        assert("proj"@[0] != "epsg"@[0]);
        if list.last().1 is Some && plain_value(list.last().1->Some_0) is Some {
            lemma_code(plain_value(list.last().1->Some_0)->Some_0);
        }
    }
}

/// Parameters that are completed name a projection or a code, and none in the old way.
pub proof fn lemma_completed_params(params: Params)
    requires
        parts_ok(params),
    ensures
        completed(params) matches Ok(m) ==> params_ok(m),
{
    lemma_names();
    if params.contains_key("init"@) && params["init"@] is Some {
        let init = params["init"@]->Some_0;
        let at = char_position(init, ':', 0);
        lemma_code(init.subrange(at + 1, init.len() as int));
    }
}

/// A reference system that is read from a list of parameters names a projection or a code,
/// and none in the old way; every parameter has a name, and the code of an authority is one.
proof fn lemma_list_params<P: Fn(String) -> Option<(F64, String)>>(
    r: Result<ProjCrs>,
    list: Seq<(Seq<char>, Option<Seq<char>>)>,
    source: CrsSource,
    read: P,
)
    requires
        crs_outcome(r, list, source, read),
        r is Ok,
    ensures
        params_ok(r->Ok_0@.params),
{
    lemma_gathered_parts(list);
    let raw = gathered(list)->Ok_0;
    let done = choose|done: Params| #[trigger]
        params_normal(read, raw, done) && match completed(done) {
            Err(e) => fails_with(r, e),
            Ok(params) => r is Ok && r->Ok_0@ == (CrsView { params, source }),
        };
    assert forall|k: Seq<char>| #[trigger] done.contains_key(k) implies k.len() > 0 by {
        assert(raw.dom().contains(k));
        assert(raw.contains_key(k));
    }
    if done.contains_key("epsg"@) {
        assert(raw.dom().contains("epsg"@));
        assert(raw.contains_key("epsg"@));
    }
    lemma_completed_params(done);
}

/// A reference system that is read from a text names a projection or a code, and none in the
/// old way; every parameter has a name, and the code of an authority has no leading zeros.
pub proof fn lemma_text_params<P: Fn(String) -> Option<(F64, String)>>(
    r: Result<ProjCrs>,
    text: Seq<char>,
    read: P,
)
    requires
        text_outcome(r, text, read),
        r is Ok,
    ensures
        params_ok(r->Ok_0@.params),
{
    let t = trimmed(text);
    if names_code(t) {
        lemma_names();
        lemma_code(t.subrange(5, t.len() as int));
    } else {
        lemma_list_params(r, token_params(words(t)), CrsSource::ProjString, read);
    }
}

/// As `lemma_text_params`, for a reference system with the parameters of a map.
pub proof fn lemma_map_params<P: Fn(String) -> Option<(F64, String)>>(
    r: Result<ProjCrs>,
    projection: Map<Seq<char>, Seq<char>>,
    read: P,
)
    requires
        map_outcome(r, projection, read),
        r is Ok,
    ensures
        params_ok(r->Ok_0@.params),
{
    if projection.contains_key("proj4"@) {
        lemma_text_params(r, projection["proj4"@], read);
    } else {
        lemma_list_params(
            r,
            map_params(sorted_keys(projection), projection),
            CrsSource::ProjMap,
            read,
        );
    }
}

/// Whether one of some keys, and no other, has an identifier, and this value.
pub open spec fn says(keys: Seq<KeyView>, key_id: u16, value: KeyValueView) -> bool {
    exists|i: int|
        0 <= i < keys.len() && #[trigger] keys[i] == (KeyView { key_id, value }) && forall|j: int|
            0 <= j < keys.len() && j != i ==> (#[trigger] keys[j]).key_id != key_id
}

/// Whether no key has an identifier.
pub open spec fn silent(keys: Seq<KeyView>, key_id: u16) -> bool {
    forall|j: int| 0 <= j < keys.len() ==> (#[trigger] keys[j]).key_id != key_id
}

/// Whether the key with an identifier has a number, or there is none where there is no number.
pub open spec fn says_number(keys: Seq<KeyView>, key_id: u16, n: NumberText) -> bool {
    match n {
        Some((v, _)) => says(keys, key_id, KeyValueView::Double(v)),
        None => silent(keys, key_id),
    }
}

/// Whether `n` is the number that is read from the text of a parameter.
pub open spec fn told<P: Fn(String) -> Option<(F64, String)>>(
    params: Params,
    key: Seq<char>,
    read: P,
    n: NumberText,
) -> bool {
    if params.dom().contains(key) && params[key] is Some {
        exists|s: String, o: Option<(F64, String)>| #[trigger]
            read.ensures((s,), o) && s@ == params[key]->Some_0 && match o {
                Some((v, t)) => n == Some((v, t@)),
                None => n is None,
            }
    } else {
        n is None
    }
}

proof fn lemma_key_added(keys: Seq<KeyView>, more: KeyView)
    ensures
        forall|id: u16, v: KeyValueView|
            id != more.key_id && says(keys, id, v) ==> #[trigger] says(keys.push(more), id, v),
        forall|id: u16| id != more.key_id && silent(keys, id) ==> #[trigger] silent(keys.push(more), id),
        silent(keys, more.key_id) ==> says(keys.push(more), more.key_id, more.value),
{
    let all = keys.push(more);
    assert forall|id: u16, v: KeyValueView| id != more.key_id && says(keys, id, v) implies
        #[trigger] says(all, id, v) by {
        let i = choose|i: int|
            0 <= i < keys.len() && #[trigger] keys[i] == (KeyView { key_id: id, value: v })
                && forall|j: int|
                0 <= j < keys.len() && j != i ==> (#[trigger] keys[j]).key_id != id;
        assert(all[i] == (KeyView { key_id: id, value: v }));
        assert forall|j: int| 0 <= j < all.len() && j != i implies (#[trigger] all[j]).key_id
            != id by {
            if j < keys.len() {
                assert(all[j] == keys[j]);
            }
        }
    }
    assert forall|id: u16| id != more.key_id && silent(keys, id) implies #[trigger] silent(all, id) by {
        assert forall|j: int| 0 <= j < all.len() implies (#[trigger] all[j]).key_id != id by {
            if j < keys.len() {
                assert(all[j] == keys[j]);
            }
        }
    }
    if silent(keys, more.key_id) {
        let i = keys.len() as int;
        assert(all[i] == (KeyView { key_id: more.key_id, value: more.value }));
        assert forall|j: int| 0 <= j < all.len() && j != i implies (#[trigger] all[j]).key_id
            != more.key_id by {
            assert(all[j] == keys[j]);
        }
    }
}

proof fn lemma_number_added(keys: Seq<KeyView>, key_id: u16, n: NumberText)
    ensures
        forall|id: u16, v: KeyValueView|
            id != key_id && says(keys, id, v) ==> #[trigger] says(
                with_number(keys, key_id, n),
                id,
                v,
            ),
        forall|id: u16|
            id != key_id && silent(keys, id) ==> #[trigger] silent(
                with_number(keys, key_id, n),
                id,
            ),
        silent(keys, key_id) ==> says_number(with_number(keys, key_id, n), key_id, n),
{
    match n {
        Some((v, _)) => {
            lemma_key_added(keys, number_key(key_id, v));
        },
        None => {},
    }
}

proof fn lemma_first_keys(citation: Seq<char>, transformation: u16)
    ensures
        ({
            let keys = projected_keys(citation, transformation);
            &&& says(keys, 1024, KeyValueView::Short(1))
            &&& says(keys, 3072, KeyValueView::Short(32767))
            &&& says(keys, 3073, KeyValueView::Ascii(citation))
            &&& says(keys, 3075, KeyValueView::Short(transformation))
            &&& says(keys, 3076, KeyValueView::Short(9001))
            &&& silent(keys, 3080) && silent(keys, 3081) && silent(keys, 3084) && silent(keys, 3085)
            &&& silent(keys, 3088) && silent(keys, 3089) && silent(keys, 3090) && silent(keys, 3091)
        }),
{
    let keys = projected_keys(citation, transformation);
    assert(keys[0] == (KeyView { key_id: 1024, value: KeyValueView::Short(1) }));
    assert(keys[1] == (KeyView { key_id: 3072, value: KeyValueView::Short(32767) }));
    assert(keys[2] == (KeyView { key_id: 3073, value: KeyValueView::Ascii(citation) }));
    assert(keys[3] == (KeyView { key_id: 3075, value: KeyValueView::Short(transformation) }));
    assert(keys[4] == (KeyView { key_id: 3076, value: KeyValueView::Short(9001) }));
}

/// What the keys of a projection with an origin tell: model, units and transformation, the
/// origin, and the shifts.
pub open spec fn tells_projection(
    keys: Seq<KeyView>,
    transformation: u16,
    citation: Seq<char>,
    x_0: NumberText,
    y_0: NumberText,
) -> bool {
    &&& says(keys, 1024, KeyValueView::Short(1))
    &&& says(keys, 3072, KeyValueView::Short(32767))
    &&& says(keys, 3073, KeyValueView::Ascii(citation))
    &&& says(keys, 3075, KeyValueView::Short(transformation))
    &&& says(keys, 3076, KeyValueView::Short(9001))
    &&& says_number(keys, 3084, x_0)
    &&& says_number(keys, 3085, y_0)
}

/// A number, or zero where there is none.
pub open spec fn or_none(n: NumberText) -> (F64, Seq<char>) {
    match n {
        Some(p) => p,
        None => (F64 { bits: 0 }, "0"@),
    }
}

/// The keys of the projections `laea` and `stere` tell the parameters: the latitude of the
/// origin is `lat_0` and its longitude `lon_0`, zero where they are not given, and the shifts
/// are `x_0` and `y_0`, where they are given. A stereographic projection is a polar one where
/// its origin is a pole.
pub proof fn lemma_azimuthal_keys<
    P: Fn(String) -> Option<(F64, String)>,
    M: Fn(F64, F64) -> (F64, String),
>(
    params: Params,
    read: P,
    minor: M,
    n: NumbersView,
    keys: Seq<KeyView>,
    lat: (F64, Seq<char>),
    lon: (F64, Seq<char>),
)
    requires
        numbers_read(params, read, minor, n),
        keys == crs_keys(params, n),
        params.dom().contains("proj"@),
        params["proj"@] == Some("laea"@) || params["proj"@] == Some("stere"@),
        lat == or_none(n.lat_0),
        lon == or_none(n.lon_0),
    ensures
        told(params, "lat_0"@, read, n.lat_0),
        told(params, "lon_0"@, read, n.lon_0),
        told(params, "x_0"@, read, n.x_0),
        told(params, "y_0"@, read, n.y_0),
        n.lat_0 is Some ==> lat == n.lat_0->Some_0,
        n.lat_0 is None ==> lat.0.bits == 0,
        n.lon_0 is Some ==> lon == n.lon_0->Some_0,
        n.lon_0 is None ==> lon.0.bits == 0,
        says(keys, 3081, KeyValueView::Double(lat.0)),
        says(keys, 3080, KeyValueView::Double(lon.0)),
        params["proj"@] == Some("laea"@) ==> tells_projection(
            keys,
            10,
            "laea lat_0="@ + lat.1 + " lon_0="@ + lon.1,
            n.x_0,
            n.y_0,
        ),
        params["proj"@] == Some("stere"@) ==> says(keys, 3088, KeyValueView::Double(lon.0))
            && tells_projection(
            keys,
            if lat.0.finite() && (lat.0.signed_numerator() == 90 * lat.0.denominator()
                || lat.0.signed_numerator() == -90 * lat.0.denominator()) {
                15u16
            } else {
                14u16
            },
            "stere lat_0="@ + lat.1 + " lon_0="@ + lon.1,
            n.x_0,
            n.y_0,
        ),
{
    lemma_numbers_told(params, read, minor, n);
    lemma_projection_names();
    lemma_pole(lat.0);
    let la = number_key(PROJ_NAT_ORIGIN_LAT_GEO_KEY, lat.0);
    let lo = number_key(PROJ_NAT_ORIGIN_LONG_GEO_KEY, lon.0);
    let start = if params["proj"@] == Some("laea"@) {
        let first = projected_keys("laea lat_0="@ + lat.1 + " lon_0="@ + lon.1, 10);
        lemma_first_keys("laea lat_0="@ + lat.1 + " lon_0="@ + lon.1, 10);
        lemma_key_added(first, la);
        lemma_key_added(first.push(la), lo);
        first.push(la).push(lo)
    } else {
        let t = if is_pole(lat.0) {
            15u16
        } else {
            14u16
        };
        let first = projected_keys("stere lat_0="@ + lat.1 + " lon_0="@ + lon.1, t);
        lemma_first_keys("stere lat_0="@ + lat.1 + " lon_0="@ + lon.1, t);
        let c = number_key(PROJ_CENTER_LONG_GEO_KEY, lon.0);
        lemma_key_added(first, la);
        lemma_key_added(first.push(la), c);
        lemma_key_added(first.push(la).push(c), lo);
        first.push(la).push(c).push(lo)
    };
    lemma_number_added(start, PROJ_FALSE_EASTING_GEO_KEY, n.x_0);
    lemma_number_added(
        with_number(start, PROJ_FALSE_EASTING_GEO_KEY, n.x_0),
        PROJ_FALSE_NORTHING_GEO_KEY,
        n.y_0,
    );
    assert(keys == with_shifts(start, n));
}

/// The bits of a pole are those of 90 or -90 degrees, and no others are.
proof fn lemma_pole(lat: F64)
    ensures
        is_pole(lat) == (lat.finite() && (lat.signed_numerator() == 90 * lat.denominator()
            || lat.signed_numerator() == -90 * lat.denominator())),
{
    lemma2_to64();
    lemma2_to64_rest();
    let north = F64 { bits: NORTH_POLE };
    let south = F64 { bits: SOUTH_POLE };
    assert(north.signed_numerator() == 90 * north.denominator());
    assert(south.signed_numerator() == -90 * south.denominator());
    if lat.finite() && (lat.signed_numerator() == 90 * lat.denominator()
        || lat.signed_numerator() == -90 * lat.denominator()) {
        lemma_denominator(lat);
        lemma_ninety(lat);
    }
}

/// A number without its sign that is 90 has the bits of 90.
proof fn lemma_ninety(v: F64)
    requires
        v.finite(),
        v.numerator() == 90 * v.denominator(),
    ensures
        v.magnitude() == NORTH_POLE,
{
    lemma2_to64();
    lemma2_to64_rest();
    let s = v.significand();
    let e = v.scale();
    if e >= 0 {
        lemma_pow2_pos(e as nat);
        assert(v.magnitude() >= 0x10_0000_0000_0000);
        assert(s >= 0x10_0000_0000_0000);
        assert(s * pow2(e as nat) >= s) by (nonlinear_arith)
            requires
                pow2(e as nat) >= 1,
                s >= 0,
        ;
        assert(false);
    } else {
        let k = (-e) as nat;
        assert(s == 90 * pow2(k));
        if k < 46 {
            lemma_pow2_strictly_increases(k, 46);
            assert(s < 90 * pow2(46));
            assert(pow2(46) == 0x4000_0000_0000);
            assert(s < 0x17_0000_0000_0000);
            assert(s == 90 * pow2(k) && pow2(k) <= pow2(45)) by {
                if k < 45 {
                    lemma_pow2_strictly_increases(k, 45);
                }
            }
            assert(s < 0x10_0000_0000_0000);
            assert(v.magnitude() < 0x10_0000_0000_0000);
            assert(e == -1074);
            assert(false);
        } else if k > 46 {
            lemma_pow2_strictly_increases(46, k);
            lemma_pow2_doubles(k);
            assert(s >= 90 * 2 * pow2(46));
            assert(s < 0x20_0000_0000_0000);
            assert(false);
        }
        assert(k == 46);
    }
}

proof fn lemma_pow2_doubles(k: nat)
    requires
        k > 46,
    ensures
        pow2(k) >= 2 * pow2(46),
{
    vstd::arithmetic::power2::lemma_pow2_adds(46, (k - 46) as nat);
    lemma2_to64();
    if k - 46 > 1 {
        lemma_pow2_strictly_increases(1, (k - 46) as nat);
    }
    assert(pow2(46) * pow2((k - 46) as nat) >= 2 * pow2(46)) by (nonlinear_arith)
        requires
            pow2((k - 46) as nat) >= 2,
            pow2(46) >= 0,
    ;
}

proof fn lemma_projection_names()
    ensures
        !is_lonlat_name("geos"@) && !is_lonlat_name("stere"@) && !is_lonlat_name("laea"@)
            && !is_lonlat_name("merc"@),
        "geos"@ != "stere"@ && "geos"@ != "laea"@ && "geos"@ != "merc"@,
        "stere"@ != "laea"@ && "stere"@ != "merc"@ && "laea"@ != "merc"@,
        "longlat"@ != "geos"@ && "longlat"@ != "stere"@ && "longlat"@ != "laea"@ && "longlat"@
            != "merc"@,
{
    reveal_strlit("geos");
    reveal_strlit("stere");
    reveal_strlit("laea");
    reveal_strlit("merc");
    reveal_strlit("longlat");
    reveal_strlit("latlong");
    reveal_strlit("lonlat");
    assert("geos"@[0] == 'g');
    assert("stere"@[0] == 's');
    assert("merc"@[0] == 'm');
    assert("laea"@.len() == 4 && "longlat"@.len() == 7 && "latlong"@.len() == 7 && "lonlat"@.len()
        == 6);
    assert("laea"@[0] == 'l' && "longlat"@[0] == 'l' && "latlong"@[0] == 'l' && "lonlat"@[0]
        == 'l');
}

proof fn lemma_numbers_told<
    P: Fn(String) -> Option<(F64, String)>,
    M: Fn(F64, F64) -> (F64, String),
>(params: Params, read: P, minor: M, n: NumbersView)
    requires
        numbers_read(params, read, minor, n),
    ensures
        told(params, "lat_0"@, read, n.lat_0),
        told(params, "lon_0"@, read, n.lon_0),
        told(params, "lat_ts"@, read, n.lat_ts),
        told(params, "x_0"@, read, n.x_0),
        told(params, "y_0"@, read, n.y_0),
        told(params, "a"@, read, n.a),
        told(params, "rf"@, read, n.rf),
        told(params, "h"@, read, n.h),
{
    lemma_told(params, "lat_0"@, read, n.lat_0);
    lemma_told(params, "lon_0"@, read, n.lon_0);
    lemma_told(params, "lat_ts"@, read, n.lat_ts);
    lemma_told(params, "x_0"@, read, n.x_0);
    lemma_told(params, "y_0"@, read, n.y_0);
    lemma_told(params, "a"@, read, n.a);
    lemma_told(params, "rf"@, read, n.rf);
    lemma_told(params, "h"@, read, n.h);
}

proof fn lemma_told<P: Fn(String) -> Option<(F64, String)>>(
    params: Params,
    key: Seq<char>,
    read: P,
    n: NumberText,
)
    requires
        param_number(params, key, read, n),
    ensures
        told(params, key, read, n),
{
    if params.dom().contains(key) && params[key] is Some {
        let t = params[key]->Some_0;
        assert(is_reading(read, t, n));
        let (s, o) = choose|s: String, o: Option<(F64, String)>|
            s@ == t && #[trigger] read.ensures((s,), o) && n == number_of(o);
        assert(read.ensures((s,), o));
    }
}

/// The keys of Mercator's projection tell the parameters: the longitude of the origin is
/// `lon_0`, zero where it is not given, its latitude `lat_ts`, where it is given, and the
/// shifts are `x_0` and `y_0`.
pub proof fn lemma_mercator_keys<
    P: Fn(String) -> Option<(F64, String)>,
    M: Fn(F64, F64) -> (F64, String),
>(params: Params, read: P, minor: M, n: NumbersView, keys: Seq<KeyView>, lon: (F64, Seq<char>))
    requires
        numbers_read(params, read, minor, n),
        keys == crs_keys(params, n),
        params.dom().contains("proj"@),
        params["proj"@] == Some("merc"@),
        lon == or_none(n.lon_0),
    ensures
        told(params, "lat_ts"@, read, n.lat_ts),
        told(params, "lon_0"@, read, n.lon_0),
        told(params, "x_0"@, read, n.x_0),
        told(params, "y_0"@, read, n.y_0),
        n.lon_0 is Some ==> lon == n.lon_0->Some_0,
        n.lon_0 is None ==> lon.0.bits == 0,
        says(keys, 3080, KeyValueView::Double(lon.0)),
        says_number(keys, 3081, n.lat_ts),
        n.lat_ts is None ==> tells_projection(keys, 7, "merc lon_0="@ + lon.1, n.x_0, n.y_0),
        n.lat_ts matches Some((_, t)) ==> tells_projection(
            keys,
            7,
            "merc lon_0="@ + lon.1 + " lat_ts="@ + t,
            n.x_0,
            n.y_0,
        ),
{
    lemma_numbers_told(params, read, minor, n);
    lemma_projection_names();
    let citation = cited("merc lon_0="@ + lon.1, " lat_ts="@, n.lat_ts);
    let first = projected_keys(citation, CT_MERCATOR);
    lemma_first_keys(citation, 7);
    let lo = number_key(PROJ_NAT_ORIGIN_LONG_GEO_KEY, lon.0);
    lemma_key_added(first, lo);
    lemma_number_added(first.push(lo), PROJ_NAT_ORIGIN_LAT_GEO_KEY, n.lat_ts);
    let start = with_number(first.push(lo), PROJ_NAT_ORIGIN_LAT_GEO_KEY, n.lat_ts);
    lemma_number_added(start, PROJ_FALSE_EASTING_GEO_KEY, n.x_0);
    lemma_number_added(
        with_number(start, PROJ_FALSE_EASTING_GEO_KEY, n.x_0),
        PROJ_FALSE_NORTHING_GEO_KEY,
        n.y_0,
    );
    assert(keys == with_shifts(start, n));
}

/// The keys of the view from a geostationary satellite tell the parameters: the longitude of
/// the origin and of the centre is `lon_0`, zero where it is not given, the axes are `a` and
/// `b`, where `b` is made of `a` and `rf` if it is not given itself, and the flattening `rf`
/// is told where there is neither axis.
pub proof fn lemma_geostationary_keys<
    P: Fn(String) -> Option<(F64, String)>,
    M: Fn(F64, F64) -> (F64, String),
>(params: Params, read: P, minor: M, n: NumbersView, keys: Seq<KeyView>, lon: (F64, Seq<char>))
    requires
        numbers_read(params, read, minor, n),
        keys == crs_keys(params, n),
        params.dom().contains("proj"@),
        params["proj"@] == Some("geos"@),
        lon == or_none(n.lon_0),
    ensures
        told(params, "lon_0"@, read, n.lon_0),
        told(params, "x_0"@, read, n.x_0),
        told(params, "y_0"@, read, n.y_0),
        told(params, "a"@, read, n.a),
        told(params, "rf"@, read, n.rf),
        told(params, "h"@, read, n.h),
        exists|given: NumberText| #[trigger]
            told(params, "b"@, read, given) && if given is Some {
                n.b == given
            } else if n.a is Some && n.rf is Some {
                exists|v: F64, t: String| #[trigger]
                    minor.ensures((n.a->Some_0.0, n.rf->Some_0.0), (v, t)) && n.b == Some((v, t@))
            } else {
                n.b is None
            },
        n.lon_0 is Some ==> lon == n.lon_0->Some_0,
        n.lon_0 is None ==> lon.0.bits == 0,
        says(keys, 1024, KeyValueView::Short(1)),
        says(keys, 3072, KeyValueView::Short(32767)),
        says(keys, 3075, KeyValueView::Short(28)),
        says(keys, 3076, KeyValueView::Short(9001)),
        says(keys, 3080, KeyValueView::Double(lon.0)),
        says(keys, 3088, KeyValueView::Double(lon.0)),
        says_number(keys, 3084, n.x_0),
        says_number(keys, 3085, n.y_0),
        says_number(keys, 3089, n.a),
        says_number(keys, 3090, n.b),
        says_number(
            keys,
            3091,
            if n.a is None && n.b is None {
                n.rf
            } else {
                None
            },
        ),
        exists|text: Seq<char>| #[trigger]
            says(keys, 3073, KeyValueView::Ascii(text)) && text == "GEOS lon_0="@ + lon.1 + (
            match n.a {
                Some((_, t)) => " a="@ + t,
                None => Seq::empty(),
            }) + (match n.b {
                Some((_, t)) => " b="@ + t,
                None => Seq::empty(),
            }) + (match n.h {
                Some((_, t)) => " h="@ + t,
                None => Seq::empty(),
            }),
{
    lemma_numbers_told(params, read, minor, n);
    lemma_projection_names();
    let given = choose|given: NumberText| #[trigger]
        param_number(params, "b"@, read, given) && is_semi_minor(given, n.a, n.rf, minor, n.b);
    lemma_told(params, "b"@, read, given);
    if given is None && n.a is Some && n.rf is Some {
        let (v, t) = choose|v: F64, t: String| #[trigger]
            minor_gives(minor, n.a->Some_0.0, n.rf->Some_0.0, v, t) && n.b == Some((v, t@));
        assert(minor.ensures((n.a->Some_0.0, n.rf->Some_0.0), (v, t)));
    }
    let citation = cited(
        cited(cited("GEOS lon_0="@ + lon.1, " a="@, n.a), " b="@, n.b),
        " h="@,
        n.h,
    );
    assert(citation =~= "GEOS lon_0="@ + lon.1 + (match n.a {
        Some((_, t)) => " a="@ + t,
        None => Seq::empty(),
    }) + (match n.b {
        Some((_, t)) => " b="@ + t,
        None => Seq::empty(),
    }) + (match n.h {
        Some((_, t)) => " h="@ + t,
        None => Seq::empty(),
    }));
    let first = projected_keys(citation, CT_GEOSTATIONARY_SATELLITE);
    lemma_first_keys(citation, 28);
    let c = number_key(PROJ_CENTER_LONG_GEO_KEY, lon.0);
    let lo = number_key(PROJ_NAT_ORIGIN_LONG_GEO_KEY, lon.0);
    lemma_key_added(first, c);
    lemma_key_added(first.push(c), lo);
    let start = first.push(c).push(lo);
    lemma_number_added(start, PROJ_FALSE_EASTING_GEO_KEY, n.x_0);
    let k1 = with_number(start, PROJ_FALSE_EASTING_GEO_KEY, n.x_0);
    lemma_number_added(k1, PROJ_FALSE_NORTHING_GEO_KEY, n.y_0);
    let k2 = with_number(k1, PROJ_FALSE_NORTHING_GEO_KEY, n.y_0);
    lemma_number_added(k2, PROJ_SEMI_MAJOR_AXIS_GEO_KEY, n.a);
    let k3 = with_number(k2, PROJ_SEMI_MAJOR_AXIS_GEO_KEY, n.a);
    lemma_number_added(k3, PROJ_SEMI_MINOR_AXIS_GEO_KEY, n.b);
    let k4 = with_number(k3, PROJ_SEMI_MINOR_AXIS_GEO_KEY, n.b);
    lemma_number_added(k4, PROJ_INV_FLATTENING_GEO_KEY, n.rf);
    assert(says(keys, 3073, KeyValueView::Ascii(citation)));
}

/// The keys of a reference system by longitude and latitude: a geographic model in degrees, of
/// the datum WGS 84 where no other is given. A code of an authority alone is told as it is,
/// unless it does not fit 16 bits.
pub proof fn lemma_geographic_keys(params: Params, n: NumbersView, keys: Seq<KeyView>)
    requires
        keys == crs_keys(params, n),
    ensures
        params.dom().contains("proj"@) && params["proj"@] == Some("longlat"@) && (
        !params.dom().contains("datum"@) || params["datum"@] is None) && upper_case("WGS84"@)
            == "WGS84"@ ==> {
            &&& says(keys, 1024, KeyValueView::Short(2))
            &&& says(keys, 2048, KeyValueView::Short(4326))
            &&& says(keys, 2050, KeyValueView::Short(6326))
            &&& says(keys, 2054, KeyValueView::Short(9102))
        },
        params.dom().contains("proj"@) && params["proj"@] == Some("longlat"@)
            && params.dom().contains("datum"@) && params["datum"@] is Some ==> {
            let datum = upper_case(params["datum"@]->Some_0);
            &&& says(keys, 1024, KeyValueView::Short(2))
            &&& says(keys, 2054, KeyValueView::Short(9102))
            &&& says(
                keys,
                2048,
                KeyValueView::Short(
                    if datum == "WGS84"@ {
                        4326
                    } else {
                        32767
                    },
                ),
            )
            &&& datum == "WGS84"@ ==> says(keys, 2050, KeyValueView::Short(6326))
            &&& datum != "WGS84"@ ==> says(
                keys,
                2049,
                KeyValueView::Ascii("datum="@ + lower_case(datum)),
            )
        },
        (!params.dom().contains("proj"@) || params["proj"@] is None) && params.dom().contains(
            "epsg"@,
        ) ==> {
            let code = if params["epsg"@] is Some && digits_value(params["epsg"@]->Some_0)
                <= 0xffff {
                digits_value(params["epsg"@]->Some_0) as u16
            } else {
                32767u16
            };
            &&& says(keys, 1024, KeyValueView::Short(2))
            &&& says(keys, 2048, KeyValueView::Short(code))
            &&& says(keys, 2054, KeyValueView::Short(9102))
            &&& code == 4326 ==> says(keys, 2050, KeyValueView::Short(6326))
            &&& code != 4326 ==> says(
                keys,
                2049,
                KeyValueView::Ascii("EPSG:"@ + decimal(code as nat)),
            )
        },
        params.dom().contains("proj"@) && (params["proj"@] matches Some(name) && name != "longlat"@
            && name != "latlong"@ && name != "lonlat"@ && name != "geos"@ && name != "stere"@ && name
            != "laea"@ && name != "merc"@) ==> keys.len() == 0,
{
    lemma_projection_names();
    if keys.len() == 4 {
        assert(keys[0] == (KeyView { key_id: keys[0].key_id, value: keys[0].value }));
        assert(keys[1] == (KeyView { key_id: keys[1].key_id, value: keys[1].value }));
        assert(keys[2] == (KeyView { key_id: keys[2].key_id, value: keys[2].value }));
        assert(keys[3] == (KeyView { key_id: keys[3].key_id, value: keys[3].value }));
    }
}

/// A reference system is one by longitude and latitude exactly where its projection has one of
/// their three names, or where it names no projection and its code is 4326.
pub proof fn lemma_geographic_names(params: Params)
    ensures
        ({
            let named = params.contains_key("proj"@) && params["proj"@] is Some;
            let name = params["proj"@]->Some_0;
            let coded = params.contains_key("epsg"@) && params["epsg"@] == Some("4326"@);
            geographic(params) <==> if named {
                name == "longlat"@ || name == "latlong"@ || name == "lonlat"@
            } else {
                coded
            }
        }),
{
}

} // verus!
