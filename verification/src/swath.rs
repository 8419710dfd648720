//! Swaths: planes of pixels whose positions are given one by one.

use crate::array::{copy_values, ArrayView, Coordinate, CoordinateView, DataArray};
use crate::crs::{map_outcome, ProjCrs};
use crate::error::{fails_with, is_invalid, shows, ErrorView, Result, RustySatError};
use crate::geometry::{GeometryDefinition, GeometryKind};
use crate::native::{plane_error, plane_of};
use crate::number::F64;
use crate::text::{decimal, join2, join5, owned, pair_notation, pair_text, size_text};
use crate::text_map::TextMap;
use vstd::prelude::*;

verus! {

/// A swath as a mathematical value.
#[verifier::ext_equal]
pub struct SwathView {
    pub height: usize,
    pub width: usize,
    pub lons: Option<Seq<F64>>,
    pub lats: Option<Seq<F64>>,
    pub crs: Map<Seq<char>, Seq<char>>,
}

/// A plane of pixels, with the longitude and the latitude of each where they are known.
#[derive(Debug, PartialEq)]
pub struct SwathDefinition {
    height: usize,
    width: usize,
    lons: Option<Vec<F64>>,
    lats: Option<Vec<F64>>,
    crs: TextMap<String>,
}

/// The values of a list, where there is one.
pub open spec fn list_view(list: Option<Vec<F64>>) -> Option<Seq<F64>> {
    match list {
        Some(v) => Some(v@),
        None => None,
    }
}

impl View for SwathDefinition {
    type V = SwathView;

    closed spec fn view(&self) -> SwathView {
        SwathView {
            height: self.height,
            width: self.width,
            lons: list_view(self.lons),
            lats: list_view(self.lats),
            crs: self.crs@,
        }
    }
}

/// What holds of every swath: it has pixels, positions for all of them or for none, and
/// a reference system.
pub open spec fn swath_ok(s: SwathView) -> bool {
    &&& s.height > 0
    &&& s.width > 0
    &&& s.lons is Some == s.lats is Some
    &&& s.lons is Some ==> s.lons->Some_0.len() == s.height * s.width
    &&& s.lats is Some ==> s.lats->Some_0.len() == s.height * s.width
    &&& s.lons is Some ==> s.height * s.width <= usize::MAX
    &&& s.crs.dom().len() > 0
}

/// The reference system of positions by longitude and latitude.
pub open spec fn lonlat_crs() -> Map<Seq<char>, Seq<char>> {
    Map::<Seq<char>, Seq<char>>::empty().insert("proj"@, "longlat"@).insert("ellps"@, "WGS84"@)
}

pub fn default_lonlat_crs() -> (r: TextMap<String>)
    ensures
        r@ == lonlat_crs(),
{
    let mut crs: TextMap<String> = TextMap::new();
    crs.insert(owned("proj"), owned("longlat"));
    crs.insert(owned("ellps"), owned("WGS84"));
    crs
}

fn validate_shape(height: usize, width: usize) -> (r: Result<()>)
    ensures
        height == 0 || width == 0 ==> is_invalid(r, "swath dimensions must be non-zero"@),
        height > 0 && width > 0 ==> r is Ok,
{
    if height == 0 || width == 0 {
        return Err(RustySatError::invalid_input("swath dimensions must be non-zero"));
    }
    Ok(())
}

/// The text of the error for coordinates whose number is not that of the pixels.
pub open spec fn swath_length_text(len: nat, height: usize, width: usize) -> Seq<char> {
    ("coordinate length "@ + decimal(len) + " does not match swath shape "@ + decimal(
        height as nat,
    ) + "x"@) + decimal(width as nat)
}

/// The swath with these positions, or the obstacle.
pub open spec fn swath_made(
    height: usize,
    width: usize,
    lons: Seq<F64>,
    lats: Seq<F64>,
) -> core::result::Result<SwathView, ErrorView> {
    if height == 0 || width == 0 {
        Err(ErrorView::InvalidInput("swath dimensions must be non-zero"@))
    } else if lons.len() != lats.len() {
        Err(ErrorView::InvalidInput("lons and lats must have the same length"@))
    } else if lons.len() != height * width {
        Err(ErrorView::InvalidInput(swath_length_text(lons.len(), height, width)))
    } else {
        Ok(
            SwathView {
                height,
                width,
                lons: Some(lons),
                lats: Some(lats),
                crs: lonlat_crs(),
            },
        )
    }
}

/// Whether `r` is the swath with these positions, or the obstacle.
pub open spec fn swath_outcome(
    r: Result<SwathDefinition>,
    height: usize,
    width: usize,
    lons: Seq<F64>,
    lats: Seq<F64>,
) -> bool {
    shows(r, swath_made(height, width, lons, lats))
}

/// The swath with another reference system, or the obstacle.
pub open spec fn swath_with(
    swath: SwathView,
    crs: Map<Seq<char>, Seq<char>>,
) -> core::result::Result<SwathView, ErrorView> {
    if crs == Map::<Seq<char>, Seq<char>>::empty() {
        Err(ErrorView::InvalidInput("swath CRS cannot be empty"@))
    } else {
        Ok(SwathView { crs, ..swath })
    }
}

fn validate_coordinates(height: usize, width: usize, lons: &Vec<F64>, lats: &Vec<F64>) -> (r: Result<
    (),
>)
    ensures
        lons@.len() != lats@.len() ==> is_invalid(r, "lons and lats must have the same length"@),
        lons@.len() == lats@.len() && lons@.len() != height * width ==> is_invalid(
            r,
            swath_length_text(lons@.len(), height, width),
        ),
        lons@.len() == lats@.len() && lons@.len() == height * width ==> r is Ok,
{
    if lons.len() != lats.len() {
        return Err(RustySatError::invalid_input("lons and lats must have the same length"));
    }
    let matches = match height.checked_mul(width) {
        Some(size) => lons.len() == size,
        None => false,
    };
    if !matches {
        let n = size_text(lons.len());
        let h = size_text(height);
        let w = size_text(width);
        let start = join5(
            "coordinate length ",
            n.as_str(),
            " does not match swath shape ",
            h.as_str(),
            "x",
        );
        let text = join2(start.as_str(), w.as_str());
        return Err(RustySatError::invalid_input(text.as_str()));
    }
    Ok(())
}

fn copy_list(list: &Option<Vec<F64>>) -> (r: Option<Vec<F64>>)
    ensures
        list_view(r) == list_view(*list),
{
    match list {
        Some(v) => Some(copy_values(v)),
        None => None,
    }
}

impl SwathDefinition {
    #[verifier::type_invariant]
    pub open spec fn inv(&self) -> bool {
        swath_ok(self@)
    }

    /// A swath without positions.
    pub fn new(height: usize, width: usize) -> (r: Result<Self>)
        ensures
            height == 0 || width == 0 ==> is_invalid(r, "swath dimensions must be non-zero"@),
            height > 0 && width > 0 ==> r is Ok,
            r is Ok ==> r->Ok_0@ == (SwathView {
                height,
                width,
                lons: None,
                lats: None,
                crs: lonlat_crs(),
            }),
    {
        match validate_shape(height, width) {
            Ok(()) => {},
            Err(e) => {
                return Err(e);
            },
        }
        proof {
            lemma_lonlat_crs_not_empty();
        }
        Ok(SwathDefinition { height, width, lons: None, lats: None, crs: default_lonlat_crs() })
    }

    /// A swath with positions.
    pub fn from_lonlats(height: usize, width: usize, lons: Vec<F64>, lats: Vec<F64>) -> (r: Result<
        Self,
    >)
        ensures
            swath_outcome(r, height, width, lons@, lats@),
    {
        match validate_shape(height, width) {
            Ok(()) => {},
            Err(e) => {
                return Err(e);
            },
        }
        let _count: usize = lons.len();
        match validate_coordinates(height, width, &lons, &lats) {
            Ok(()) => {},
            Err(e) => {
                return Err(e);
            },
        }
        proof {
            lemma_lonlat_crs_not_empty();
        }
        Ok(
            SwathDefinition {
                height,
                width,
                lons: Some(lons),
                lats: Some(lats),
                crs: default_lonlat_crs(),
            },
        )
    }

    /// The swath with another reference system.
    pub fn with_crs(self, crs: TextMap<String>) -> (r: Result<Self>)
        ensures
            shows(r, swath_with(self@, crs@)),
    {
        proof {
            use_type_invariant(&self);
            use_type_invariant(&crs);
        }
        if crs.is_empty() {
            assert(crs.keys() =~= Seq::<Seq<char>>::empty());
            assert(crs@ =~= Map::<Seq<char>, Seq<char>>::empty());
            return Err(RustySatError::invalid_input("swath CRS cannot be empty"));
        }
        proof {
            assert(crs@.dom().contains(crs.keys()[0])) by {
                assert(crs.keys().to_set().contains(crs.keys()[0]));
            }
            crs.keys().lemma_cardinality_of_set();
            assert(crs@.dom().finite());
            assert(crs@.dom().len() > 0) by {
                if crs@.dom().len() == 0 {
                    assert(crs@.dom() =~= Set::empty());
                }
            }
        }
        Ok(SwathDefinition {
            height: self.height,
            width: self.width,
            lons: self.lons,
            lats: self.lats,
            crs,
        })
    }

    /// The height and the width.
    pub fn shape(&self) -> (r: (usize, usize))
        ensures
            r == (self@.height, self@.width),
    {
        (self.height, self.width)
    }

    /// The number of pixels.
    pub fn size(&self) -> (r: usize)
        requires
            self@.height * self@.width <= usize::MAX,
        ensures
            r == self@.height * self@.width,
    {
        self.height * self.width
    }

    pub fn has_coordinates(&self) -> (r: bool)
        ensures
            r == (self@.lons is Some && self@.lats is Some),
    {
        self.lons.is_some() && self.lats.is_some()
    }

    pub fn lons(&self) -> (r: Option<&Vec<F64>>)
        ensures
            r is Some == self@.lons is Some,
            r is Some ==> r->Some_0@ == self@.lons->Some_0,
    {
        match &self.lons {
            Some(v) => Some(v),
            None => None,
        }
    }

    pub fn lats(&self) -> (r: Option<&Vec<F64>>)
        ensures
            r is Some == self@.lats is Some,
            r is Some ==> r->Some_0@ == self@.lats->Some_0,
    {
        match &self.lats {
            Some(v) => Some(v),
            None => None,
        }
    }

    pub fn crs(&self) -> (r: &TextMap<String>)
        ensures
            r@ == self@.crs,
    {
        &self.crs
    }

    /// The reference system that the parameters describe.
    pub fn crs_definition<P: Fn(String) -> Option<(F64, String)>>(&self, read: &P) -> (r: Result<
        ProjCrs,
    >)
        requires
            forall|s: String| #[trigger] read.requires((s,)),
        ensures
            map_outcome(r, self@.crs, *read),
    {
        ProjCrs::from_projection_map(&self.crs, read)
    }

    pub fn copy(&self) -> (r: Self)
        ensures
            r@ == self@,
    {
        proof {
            use_type_invariant(self);
        }
        SwathDefinition {
            height: self.height,
            width: self.width,
            lons: copy_list(&self.lons),
            lats: copy_list(&self.lats),
            crs: self.crs.copy(),
        }
    }

    /// The longitudes as a coordinate of a plane.
    pub fn longitude_coordinate(&self) -> (r: Result<Coordinate>)
        ensures
            self@.lons is None ==> is_invalid(r, "swath has no longitude coordinates"@),
            self@.lons is Some ==> r is Ok && r->Ok_0@ == (CoordinateView {
                dims: seq!["y"@, "x"@],
                values: self@.lons->Some_0,
            }),
    {
        match &self.lons {
            Some(lons) => Ok(plane_coordinate(copy_values(lons))),
            None => Err(RustySatError::invalid_input("swath has no longitude coordinates")),
        }
    }

    /// The latitudes as a coordinate of a plane.
    pub fn latitude_coordinate(&self) -> (r: Result<Coordinate>)
        ensures
            self@.lats is None ==> is_invalid(r, "swath has no latitude coordinates"@),
            self@.lats is Some ==> r is Ok && r->Ok_0@ == (CoordinateView {
                dims: seq!["y"@, "x"@],
                values: self@.lats->Some_0,
            }),
    {
        match &self.lats {
            Some(lats) => Ok(plane_coordinate(copy_values(lats))),
            None => Err(RustySatError::invalid_input("swath has no latitude coordinates")),
        }
    }

    /// Gives an array of the size of the swath the positions as coordinates.
    pub fn attach_coordinates_to_array<T: Copy>(&self, array: DataArray<T>) -> (r: Result<
        DataArray<T>,
    >)
        ensures
            match attach_error(array@, self@) {
                Some(e) => fails_with(r, e),
                None => r is Ok && r->Ok_0@ == (ArrayView {
                    coords: array@.coords.insert(
                        "longitude"@,
                        CoordinateView { dims: seq!["y"@, "x"@], values: self@.lons->Some_0 },
                    ).insert(
                        "latitude"@,
                        CoordinateView { dims: seq!["y"@, "x"@], values: self@.lats->Some_0 },
                    ),
                    ..array@
                }),
            },
    {
        proof {
            use_type_invariant(self);
            use_type_invariant(&array);
        }
        let shape = match array.shape_yx() {
            Ok(p) => p,
            Err(e) => {
                return Err(e);
            },
        };
        if shape.0 != self.height || shape.1 != self.width {
            let a = pair_text(shape);
            let b = pair_text(self.shape());
            let text = crate::text::join4(
                "data array y/x shape ",
                a.as_str(),
                " does not match swath shape ",
                b.as_str(),
            );
            return Err(RustySatError::invalid_input(text.as_str()));
        }
        let ghost a = array@;
        let longitude = match self.longitude_coordinate() {
            Ok(c) => c,
            Err(e) => {
                return Err(e);
            },
        };
        let latitude = match self.latitude_coordinate() {
            Ok(c) => c,
            Err(e) => {
                return Err(e);
            },
        };
        proof {
            lemma_plane_coordinate_fits(a, self@.lons->Some_0);
            lemma_plane_coordinate_fits(a, self@.lats->Some_0);
        }
        let mut out = array;
        match out.set_coordinate("longitude", longitude) {
            Ok(()) => {},
            Err(e) => {
                return Err(e);
            },
        }
        match out.set_coordinate("latitude", latitude) {
            Ok(()) => {},
            Err(e) => {
                return Err(e);
            },
        }
        Ok(out)
    }
}

impl Clone for SwathDefinition {
    fn clone(&self) -> (r: Self)
        ensures
            r@ == self@,
    {
        self.copy()
    }
}

/// The error with which positions are not attached to an array, if they are not.
pub open spec fn attach_error<T>(a: ArrayView<T>, s: SwathView) -> Option<ErrorView> {
    if plane_error(a.dims) is Some {
        plane_error(a.dims)
    } else if plane_of(a) != (s.height, s.width) {
        Some(
            ErrorView::InvalidInput(
                "data array y/x shape "@ + pair_notation(plane_of(a))
                    + " does not match swath shape "@ + pair_notation((s.height, s.width)),
            ),
        )
    } else if s.lons is None {
        Some(ErrorView::InvalidInput("swath has no longitude coordinates"@))
    } else {
        None
    }
}

/// A coordinate over the plane fits where it has one value per pixel.
pub proof fn lemma_plane_coordinate_fits<T>(a: ArrayView<T>, values: Seq<F64>)
    requires
        plane_error(a.dims) is None,
        values.len() == plane_of(a).0 * plane_of(a).1,
    ensures
        crate::array::fits(
            CoordinateView { dims: seq!["y"@, "x"@], values },
            a.dims,
            a.shape,
        ),
{
    let d = seq!["y"@, "x"@];
    crate::array::lemma_y_is_not_x();
    let shape = crate::array::coordinate_shape_of(d, a.dims, a.shape);
    assert(shape =~= seq![plane_of(a).0, plane_of(a).1]);
    crate::array::lemma_plane_size(plane_of(a).0, plane_of(a).1);
    assert forall|k: int| 0 <= k < d.len() implies a.dims.contains(#[trigger] d[k]) by {
        if k == 0 {
            assert(d[0] == "y"@);
        } else {
            assert(d[1] == "x"@);
        }
    }
    assert(d[0] != d[1]);
}

fn plane_coordinate(values: Vec<F64>) -> (r: Coordinate)
    ensures
        r@ == (CoordinateView { dims: seq!["y"@, "x"@], values: values@ }),
{
    let mut dims: Vec<String> = Vec::new();
    dims.push(owned("y"));
    dims.push(owned("x"));
    assert(crate::text::texts(dims@) =~= seq!["y"@, "x"@]);
    Coordinate::new(dims, values)
}

proof fn lemma_lonlat_crs_not_empty()
    ensures
        lonlat_crs().dom().len() > 0,
{
    let m = Map::<Seq<char>, Seq<char>>::empty().insert("proj"@, "longlat"@);
    assert(m.dom().finite());
    assert(lonlat_crs().dom() =~= m.dom().insert("ellps"@));
}

impl GeometryDefinition for SwathDefinition {
    open spec fn kind_spec(&self) -> GeometryKind {
        GeometryKind::Swath
    }

    open spec fn shape_spec(&self) -> Seq<usize> {
        seq![self@.height, self@.width]
    }

    fn kind(&self) -> (r: GeometryKind) {
        GeometryKind::Swath
    }

    fn shape(&self) -> (r: Vec<usize>) {
        let mut out: Vec<usize> = Vec::new();
        out.push(self.height);
        out.push(self.width);
        assert(out@ =~= seq![self@.height, self@.width]);
        out
    }
}

/// A swath is made exactly of a size that is not zero and a longitude and a latitude for each of
/// its pixels, and refers to longitude and latitude on the ellipsoid WGS84.
pub proof fn lemma_swath_of_positions(
    r: Result<SwathDefinition>,
    height: usize,
    width: usize,
    lons: Seq<F64>,
    lats: Seq<F64>,
)
    requires
        swath_outcome(r, height, width, lons, lats),
    ensures
        r is Ok <==> height > 0 && width > 0 && lons.len() == height * width && lats.len() == height
            * width,
        r is Ok ==> {
            &&& r->Ok_0@.height == height
            &&& r->Ok_0@.width == width
            &&& r->Ok_0@.lons == Some(lons)
            &&& r->Ok_0@.lats == Some(lats)
            &&& r->Ok_0@.crs.dom() == set!["proj"@, "ellps"@]
            &&& r->Ok_0@.crs["proj"@] == "longlat"@
            &&& r->Ok_0@.crs["ellps"@] == "WGS84"@
        },
{
    reveal_strlit("proj");
    reveal_strlit("ellps");
    assert("proj"@.len() != "ellps"@.len());
    assert(lonlat_crs().dom() =~= set!["proj"@, "ellps"@]);
}

} // verus!
