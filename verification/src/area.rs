//! Areas: planes of pixels with a projection and an extent.

use crate::crs::{map_outcome, ProjCrs};
use crate::array::copy_values;
use crate::error::{is_invalid, shows, ErrorView, Result, RustySatError};
use crate::geometry::{is_pixel_size, GeometryDefinition, GeometryKind, ProjectionDefinition};
use crate::number::F64;
use crate::text::{lemma_trimmed_shorter, owned, trim_text, trimmed};
use crate::text_map::TextMap;
use crate::widening::{is_nearest, lemma_nearest_is_positive};
use vstd::prelude::*;

verus! {

/// An area as a mathematical value.
#[verifier::ext_equal]
pub struct AreaView {
    pub id: Seq<char>,
    pub description: Seq<char>,
    pub proj_id: Seq<char>,
    pub projection: Map<Seq<char>, Seq<char>>,
    pub height: usize,
    pub width: usize,
    pub extent: Seq<F64>,
}

/// A plane of pixels with a projection and an extent, which is lower left x, lower
/// left y, upper right x and upper right y.
#[derive(Debug, PartialEq)]
pub struct AreaDefinition {
    id: String,
    description: String,
    proj_id: String,
    projection: TextMap<String>,
    height: usize,
    width: usize,
    area_extent: [F64; 4],
}

impl View for AreaDefinition {
    type V = AreaView;

    closed spec fn view(&self) -> AreaView {
        AreaView {
            id: self.id@,
            description: self.description@,
            proj_id: self.proj_id@,
            projection: self.projection@,
            height: self.height,
            width: self.width,
            extent: self.area_extent@,
        }
    }
}

/// What holds of every area: it has an identifier, a description, a projection identifier
/// and pixels, and no bound of its extent lies at or beyond the opposite one.
pub open spec fn area_ok(a: AreaView) -> bool {
    &&& trimmed(a.id).len() > 0
    &&& a.description.len() > 0
    &&& a.proj_id.len() > 0
    &&& a.height > 0
    &&& a.width > 0
    &&& extent_ok(a.extent)
}

/// Whether the extent is in order.
pub open spec fn extent_ok(extent: Seq<F64>) -> bool {
    &&& extent.len() == 4
    &&& !extent[2].at_most(extent[0])
    &&& !extent[3].at_most(extent[1])
}

/// A text, or another one where it is empty.
pub open spec fn or_else_text(text: Seq<char>, other: Seq<char>) -> Seq<char> {
    if text.len() == 0 {
        other
    } else {
        text
    }
}

/// The area with these parts, or the error of the first part that is not accepted.
pub open spec fn area_made(
    id: Seq<char>,
    description: Seq<char>,
    proj_id: Seq<char>,
    projection: Map<Seq<char>, Seq<char>>,
    height: usize,
    width: usize,
    extent: Seq<F64>,
) -> core::result::Result<AreaView, ErrorView> {
    if trimmed(id).len() == 0 {
        Err(ErrorView::InvalidInput("area id cannot be empty"@))
    } else if height == 0 || width == 0 {
        Err(ErrorView::InvalidInput("area dimensions must be non-zero"@))
    } else if !extent_ok(extent) {
        Err(
            ErrorView::InvalidInput(
                "area_extent must be [lower_left_x, lower_left_y, upper_right_x, upper_right_y]"@,
            ),
        )
    } else {
        Ok(
            AreaView {
                id,
                description: or_else_text(description, id),
                proj_id: or_else_text(proj_id, id),
                projection,
                height,
                width,
                extent,
            },
        )
    }
}

/// Whether `r` is the area with these parts, or the error of the first part that is
/// not accepted.
pub open spec fn area_outcome(
    r: Result<AreaDefinition>,
    id: Seq<char>,
    description: Seq<char>,
    proj_id: Seq<char>,
    projection: Map<Seq<char>, Seq<char>>,
    height: usize,
    width: usize,
    extent: Seq<F64>,
) -> bool {
    shows(r, area_made(id, description, proj_id, projection, height, width, extent))
}

/// Whether an extent reaches from the origin to a width and a height.
pub open spec fn is_size_extent(extent: Seq<F64>, height: usize, width: usize) -> bool {
    &&& extent.len() == 4
    &&& extent[0].bits == 0
    &&& extent[1].bits == 0
    &&& is_nearest(extent[2], width as int)
    &&& is_nearest(extent[3], height as int)
}

impl AreaDefinition {
    #[verifier::type_invariant]
    pub open spec fn inv(&self) -> bool {
        area_ok(self@)
    }

    /// An area that is known by its identifier and its size alone. It reaches from the origin
    /// to its width and its height.
    pub fn new(id: &str, height: usize, width: usize) -> (r: Result<Self>)
        ensures
            exists|extent: Seq<F64>| #[trigger]
                is_size_extent(extent, height, width) && area_outcome(
                    r,
                    id@,
                    Seq::empty(),
                    Seq::empty(),
                    Map::empty(),
                    height,
                    width,
                    extent,
                ),
            r is Ok == (trimmed(id@).len() > 0 && height > 0 && width > 0),
    {
        let x = F64::from_u64(width as u64);
        let y = F64::from_u64(height as u64);
        let extent = [F64 { bits: 0 }, F64 { bits: 0 }, x, y];
        proof {
            assert(is_size_extent(extent@, height, width));
            if width > 0 {
                lemma_nearest_is_positive(x, width as int);
            }
            if height > 0 {
                lemma_nearest_is_positive(y, height as int);
            }
        }
        let empty = String::new();
        AreaDefinition::from_parts(
            id,
            empty.as_str(),
            empty.as_str(),
            TextMap::new(),
            height,
            width,
            extent,
        )
    }

    /// An area with the given parts. An empty description or projection identifier is
    /// replaced by the identifier of the area.
    pub fn from_parts(
        id: &str,
        description: &str,
        proj_id: &str,
        projection: TextMap<String>,
        height: usize,
        width: usize,
        area_extent: [F64; 4],
    ) -> (r: Result<Self>)
        ensures
            area_outcome(
                r,
                id@,
                description@,
                proj_id@,
                projection@,
                height,
                width,
                area_extent@,
            ),
    {
        let trimmed_id = trim_text(id);
        if trimmed_id.as_str().is_empty() {
            return Err(RustySatError::invalid_input("area id cannot be empty"));
        }
        if height == 0 || width == 0 {
            return Err(RustySatError::invalid_input("area dimensions must be non-zero"));
        }
        if area_extent[2].le(area_extent[0]) || area_extent[3].le(area_extent[1]) {
            return Err(
                RustySatError::invalid_input(
                    "area_extent must be [lower_left_x, lower_left_y, upper_right_x, upper_right_y]",
                ),
            );
        }
        proof {
            lemma_trimmed_shorter(id@);
        }
        let description = if description.is_empty() {
            owned(id)
        } else {
            owned(description)
        };
        let proj_id = if proj_id.is_empty() {
            owned(id)
        } else {
            owned(proj_id)
        };
        Ok(
            AreaDefinition {
                id: owned(id),
                description,
                proj_id,
                projection,
                height,
                width,
                area_extent,
            },
        )
    }

    pub fn id(&self) -> (r: &str)
        ensures
            r@ == self@.id,
    {
        self.id.as_str()
    }

    pub fn description(&self) -> (r: &str)
        ensures
            r@ == self@.description,
    {
        self.description.as_str()
    }

    pub fn proj_id(&self) -> (r: &str)
        ensures
            r@ == self@.proj_id,
    {
        self.proj_id.as_str()
    }

    pub fn projection(&self) -> (r: &TextMap<String>)
        ensures
            r@ == self@.projection,
    {
        &self.projection
    }

    /// The reference system of the projection. `read` finds the number in a text and its
    /// shortest text.
    pub fn crs<P: Fn(String) -> Option<(F64, String)>>(&self, read: &P) -> (r: Result<ProjCrs>)
        requires
            forall|s: String| #[trigger] read.requires((s,)),
        ensures
            map_outcome(r, self@.projection, *read),
    {
        ProjCrs::from_projection_map(&self.projection, read)
    }

    /// The height and the width.
    pub fn shape(&self) -> (r: (usize, usize))
        ensures
            r == (self@.height, self@.width),
    {
        (self.height, self.width)
    }

    pub fn height(&self) -> (r: usize)
        ensures
            r == self@.height,
    {
        self.height
    }

    pub fn width(&self) -> (r: usize)
        ensures
            r == self@.width,
    {
        self.width
    }

    pub fn area_extent(&self) -> (r: [F64; 4])
        ensures
            r@ == self@.extent,
    {
        self.area_extent
    }

    /// The width and the height of a pixel. `size` is a part of the way between two bounds,
    /// of so many parts.
    pub fn pixel_size<Z: Fn(F64, F64, usize) -> F64>(&self, size: &Z) -> (r: (F64, F64))
        requires
            forall|a: F64, b: F64, n: usize| #[trigger] size.requires((a, b, n)),
        ensures
            is_pixel_size(*size, self@.extent, seq![self@.height, self@.width], r),
    {
        (
            size(self.area_extent[0], self.area_extent[2], self.width),
            size(self.area_extent[1], self.area_extent[3], self.height),
        )
    }

    pub fn copy(&self) -> (r: Self)
        ensures
            r@ == self@,
    {
        proof {
            use_type_invariant(self);
        }
        AreaDefinition {
            id: self.id.clone(),
            description: self.description.clone(),
            proj_id: self.proj_id.clone(),
            projection: self.projection.copy(),
            height: self.height,
            width: self.width,
            area_extent: self.area_extent,
        }
    }
}

impl Clone for AreaDefinition {
    fn clone(&self) -> (r: Self)
        ensures
            r@ == self@,
    {
        self.copy()
    }
}

impl GeometryDefinition for AreaDefinition {
    open spec fn kind_spec(&self) -> GeometryKind {
        GeometryKind::Area
    }

    open spec fn shape_spec(&self) -> Seq<usize> {
        seq![self@.height, self@.width]
    }

    fn kind(&self) -> (r: GeometryKind) {
        GeometryKind::Area
    }

    fn shape(&self) -> (r: Vec<usize>) {
        let mut out: Vec<usize> = Vec::new();
        out.push(self.height);
        out.push(self.width);
        assert(out@ =~= seq![self@.height, self@.width]);
        out
    }
}

impl ProjectionDefinition for AreaDefinition {
    open spec fn extent_spec(&self) -> Seq<F64> {
        self@.extent
    }

    fn width(&self) -> (r: usize) {
        self.width
    }

    fn height(&self) -> (r: usize) {
        self.height
    }

    fn area_extent(&self) -> (r: [F64; 4]) {
        self.area_extent
    }

    fn pixel_size<Z: Fn(F64, F64, usize) -> F64>(&self, size: &Z) -> (r: (F64, F64)) {
        AreaDefinition::pixel_size(self, size)
    }
}

/// An area with its axes as a mathematical value.
#[verifier::ext_equal]
pub struct AreaGridView {
    pub area: AreaView,
    pub x: Seq<F64>,
    pub y: Seq<F64>,
}

/// An area with the projection coordinates of its pixel centres along both axes.
#[derive(Debug, PartialEq)]
pub struct AreaGrid {
    area: AreaDefinition,
    x: Vec<F64>,
    y: Vec<F64>,
}

impl View for AreaGrid {
    type V = AreaGridView;

    closed spec fn view(&self) -> AreaGridView {
        AreaGridView { area: self.area@, x: self.x@, y: self.y@ }
    }
}

impl Clone for AreaGrid {
    fn clone(&self) -> (r: Self)
        ensures
            r@ == self@,
    {
        proof {
            use_type_invariant(self);
        }
        AreaGrid {
            area: self.area.clone(),
            x: copy_values(&self.x),
            y: copy_values(&self.y),
        }
    }
}

/// What holds of every area with its axes.
pub open spec fn area_grid_ok(g: AreaGridView) -> bool {
    &&& area_ok(g.area)
    &&& g.x.len() == g.area.width
    &&& g.y.len() == g.area.height
    &&& g.area.height * g.area.width <= usize::MAX
}

/// Whether a number is the coordinate of a column, by the centre of its first pixel.
pub open spec fn is_column<E: Fn(usize, usize) -> (F64, F64)>(centre: E, x: usize, v: F64) -> bool {
    exists|p: (F64, F64)| #[trigger] centre.ensures((0, x), p) && v == p.0
}

/// Whether a number is the coordinate of a row, by the centre of its first pixel.
pub open spec fn is_row<E: Fn(usize, usize) -> (F64, F64)>(centre: E, y: usize, v: F64) -> bool {
    exists|p: (F64, F64)| #[trigger] centre.ensures((y, 0), p) && v == p.1
}

/// Whether an area has the coordinates of the centres of its pixels as its axes.
pub open spec fn has_centres<E: Fn(usize, usize) -> (F64, F64)>(
    g: AreaGridView,
    area: AreaView,
    centre: E,
) -> bool {
    &&& g.area == area
    &&& g.x.len() == area.width
    &&& g.y.len() == area.height
    &&& forall|x: usize| #![trigger g.x[x as int]] x < area.width ==> is_column(centre, x, g.x[x as int])
    &&& forall|y: usize| #![trigger g.y[y as int]] y < area.height ==> is_row(centre, y, g.y[y as int])
}

impl AreaGrid {
    #[verifier::type_invariant]
    pub open spec fn inv(&self) -> bool {
        area_grid_ok(self@)
    }

    pub fn new(area: AreaDefinition, x: Vec<F64>, y: Vec<F64>) -> (r: Result<Self>)
        ensures
            x@.len() != area@.width || y@.len() != area@.height ==> is_invalid(
                r,
                "projection coordinates must match the area shape"@,
            ),
            x@.len() == area@.width && y@.len() == area@.height && area@.height * area@.width
                > usize::MAX ==> is_invalid(r, "area size overflows usize"@),
            x@.len() == area@.width && y@.len() == area@.height && area@.height * area@.width
                <= usize::MAX ==> r is Ok,
            r is Ok ==> r->Ok_0@ == (AreaGridView { area: area@, x: x@, y: y@ }),
    {
        proof {
            use_type_invariant(&area);
        }
        if x.len() != area.width() || y.len() != area.height() {
            return Err(
                RustySatError::invalid_input("projection coordinates must match the area shape"),
            );
        }
        match area.height().checked_mul(area.width()) {
            Some(_) => Ok(AreaGrid { area, x, y }),
            None => Err(RustySatError::invalid_input("area size overflows usize")),
        }
    }

    /// The area with the coordinates of its pixels, where `centre` gives the centre of a
    /// pixel by its row and its column.
    pub fn with_centres<E: Fn(usize, usize) -> (F64, F64)>(area: AreaDefinition, centre: &E) -> (r:
        Result<Self>)
        requires
            forall|y: usize, x: usize| #[trigger] centre.requires((y, x)),
        ensures
            if area@.height * area@.width > usize::MAX {
                is_invalid(r, "area size overflows usize"@)
            } else {
                r is Ok && has_centres(r->Ok_0@, area@, *centre)
            },
    {
        if area.height().checked_mul(area.width()).is_none() {
            return Err(RustySatError::invalid_input("area size overflows usize"));
        }
        let (height, width) = area.shape();
        let mut xs: Vec<F64> = Vec::new();
        while xs.len() < width
            invariant
                xs@.len() <= width,
                forall|y: usize, x: usize| #[trigger] centre.requires((y, x)),
                forall|x: usize|
                    #![trigger xs@[x as int]]
                    x < xs@.len() ==> is_column(*centre, x, xs@[x as int]),
            decreases width - xs@.len(),
        {
            let n: usize = xs.len();
            let p = centre(0, n);
            assert(centre.ensures((0, n), p));
            assert(is_column(*centre, n, p.0));
            xs.push(p.0);
        }
        let mut ys: Vec<F64> = Vec::new();
        while ys.len() < height
            invariant
                ys@.len() <= height,
                forall|y: usize, x: usize| #[trigger] centre.requires((y, x)),
                forall|y: usize|
                    #![trigger ys@[y as int]]
                    y < ys@.len() ==> is_row(*centre, y, ys@[y as int]),
            decreases height - ys@.len(),
        {
            let n: usize = ys.len();
            let p = centre(n, 0);
            assert(centre.ensures((n, 0), p));
            assert(is_row(*centre, n, p.1));
            ys.push(p.1);
        }
        AreaGrid::new(area, xs, ys)
    }

    pub fn area(&self) -> (r: &AreaDefinition)
        ensures
            r@ == self@.area,
    {
        &self.area
    }

    pub fn x(&self) -> (r: &Vec<F64>)
        ensures
            r@ == self@.x,
    {
        &self.x
    }

    pub fn y(&self) -> (r: &Vec<F64>)
        ensures
            r@ == self@.y,
    {
        &self.y
    }

    /// The height and the width.
    pub fn shape(&self) -> (r: (usize, usize))
        ensures
            r == (self@.area.height, self@.area.width),
            r == (self@.y.len() as usize, self@.x.len() as usize),
            r.0 * r.1 <= usize::MAX,
            r.0 > 0,
            r.1 > 0,
    {
        proof {
            use_type_invariant(self);
        }
        self.area.shape()
    }
}

/// An area is made exactly of an identifier that is not blank, a size that is not zero and an
/// extent whose upper right corner is not at or before the lower left one, and shows these parts;
/// its identifier stands for a description and a projection identifier that are empty.
pub proof fn lemma_area_of_parts(
    r: Result<AreaDefinition>,
    id: Seq<char>,
    description: Seq<char>,
    proj_id: Seq<char>,
    projection: Map<Seq<char>, Seq<char>>,
    height: usize,
    width: usize,
    extent: Seq<F64>,
)
    requires
        area_outcome(r, id, description, proj_id, projection, height, width, extent),
        extent.len() == 4,
    ensures
        r is Ok <==> {
            &&& trimmed(id).len() > 0
            &&& height > 0
            &&& width > 0
            &&& extent[0].nan() || extent[2].nan() || extent[0].rank() < extent[2].rank()
            &&& extent[1].nan() || extent[3].nan() || extent[1].rank() < extent[3].rank()
        },
        r is Ok ==> {
            &&& r->Ok_0@.id == id
            &&& description.len() > 0 ==> r->Ok_0@.description == description
            &&& description.len() == 0 ==> r->Ok_0@.description == id
            &&& proj_id.len() > 0 ==> r->Ok_0@.proj_id == proj_id
            &&& proj_id.len() == 0 ==> r->Ok_0@.proj_id == id
            &&& r->Ok_0@.projection == projection
            &&& r->Ok_0@.height == height
            &&& r->Ok_0@.width == width
            &&& r->Ok_0@.extent == extent
        },
{
}

/// The axes of an area are the coordinates of the centres of its pixels: of those of the first row
/// along it, and of those of the first column down it.
pub proof fn lemma_axes_are_centres<E: Fn(usize, usize) -> (F64, F64)>(
    g: AreaGridView,
    area: AreaView,
    centre: E,
    y: usize,
    x: usize,
) -> (corners: ((F64, F64), (F64, F64)))
    requires
        has_centres(g, area, centre),
        y < area.height,
        x < area.width,
    ensures
        g.area == area,
        g.x.len() == area.width,
        g.y.len() == area.height,
        centre.ensures((0, x), corners.0),
        g.x[x as int] == corners.0.0,
        centre.ensures((y, 0), corners.1),
        g.y[y as int] == corners.1.1,
{
    assert(is_column(centre, x, g.x[x as int]));
    assert(is_row(centre, y, g.y[y as int]));
    let p = choose|p: (F64, F64)| #[trigger] centre.ensures((0, x), p) && g.x[x as int] == p.0;
    let q = choose|q: (F64, F64)| #[trigger] centre.ensures((y, 0), q) && g.y[y as int] == q.1;
    (p, q)
}

} // verus!
