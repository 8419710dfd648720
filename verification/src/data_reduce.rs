//! Which positions lie in the region that a boundary encloses.

use crate::bucket::folds;
use crate::array::copy_values;
use crate::error::{fails_with, ErrorView, Result, RustySatError};
use crate::number::{F64, INFINITE_64};
use crate::text::{decimal, join2, join4, join5, size_text};
use vstd::arithmetic::power2::{lemma2_to64, lemma2_to64_rest, pow2};
use vstd::prelude::*;

verus! {

/// The bits of a half circle, of a quarter of a circle, and of both below zero.
pub const HALF_CIRCLE: u64 = 0x4066_8000_0000_0000;

pub const QUARTER_CIRCLE: u64 = 0x4056_8000_0000_0000;

pub const MINUS_HALF_CIRCLE: u64 = 0xc066_8000_0000_0000;

pub const MINUS_QUARTER_CIRCLE: u64 = 0xc056_8000_0000_0000;

/// The bits of the radius of the earth in metres, 6370997.
pub const EARTH_RADIUS: u64 = 0x4158_4dad_4000_0000;

/// The bits of the distance from one to the next number.
pub const EPSILON: u64 = 0x3cb0_0000_0000_0000;

/// A boundary as a mathematical value.
#[verifier::ext_equal]
pub struct BoundaryView {
    pub side1: Seq<F64>,
    pub side2: Seq<F64>,
    pub side3: Seq<F64>,
    pub side4: Seq<F64>,
}

impl BoundaryView {
    /// All values of the boundary, side by side.
    pub open spec fn all(self) -> Seq<F64> {
        self.side1 + self.side2 + self.side3 + self.side4
    }
}

/// The longitudes or the latitudes along the four sides of a region.
#[derive(Debug, PartialEq)]
pub struct LonLatBoundaries {
    side1: Vec<F64>,
    side2: Vec<F64>,
    side3: Vec<F64>,
    side4: Vec<F64>,
}

impl View for LonLatBoundaries {
    type V = BoundaryView;

    closed spec fn view(&self) -> BoundaryView {
        BoundaryView {
            side1: self.side1@,
            side2: self.side2@,
            side3: self.side3@,
            side4: self.side4@,
        }
    }
}

impl Clone for LonLatBoundaries {
    fn clone(&self) -> (r: Self)
        ensures
            r@ == self@,
    {
        proof {
            use_type_invariant(self);
        }
        LonLatBoundaries {
            side1: copy_values(&self.side1),
            side2: copy_values(&self.side2),
            side3: copy_values(&self.side3),
            side4: copy_values(&self.side4),
        }
    }
}

/// Whether all values of a side are finite.
pub open spec fn side_finite(side: Seq<F64>) -> bool {
    forall|i: int| 0 <= i < side.len() ==> (#[trigger] side[i]).finite()
}

/// The error for a side without values or with one that is not finite, if it is such.
pub open spec fn side_error(side: Seq<F64>) -> Option<ErrorView> {
    if side.len() == 0 {
        Some(ErrorView::InvalidInput("lon/lat boundary sides must not be empty"@))
    } else if !side_finite(side) {
        Some(ErrorView::InvalidInput("lon/lat boundary values must be finite"@))
    } else {
        None
    }
}

/// The error for the first side that is refused, if one is.
pub open spec fn boundary_error(b: BoundaryView) -> Option<ErrorView> {
    if side_error(b.side1) is Some {
        side_error(b.side1)
    } else if side_error(b.side2) is Some {
        side_error(b.side2)
    } else if side_error(b.side3) is Some {
        side_error(b.side3)
    } else {
        side_error(b.side4)
    }
}

fn validate_side(side: &Vec<F64>) -> (r: Result<()>)
    ensures
        match side_error(side@) {
            Some(e) => fails_with(r, e),
            None => r is Ok,
        },
{
    if side.len() == 0 {
        return Err(RustySatError::invalid_input("lon/lat boundary sides must not be empty"));
    }
    let mut i: usize = 0;
    while i < side.len()
        invariant
            i <= side@.len(),
            side@.len() > 0,
            forall|j: int| 0 <= j < i ==> (#[trigger] side@[j]).finite(),
        decreases side@.len() - i,
    {
        if !side[i].is_finite() {
            assert(!side@[i as int].finite());
            return Err(RustySatError::invalid_input("lon/lat boundary values must be finite"));
        }
        i = i + 1;
    }
    Ok(())
}

impl LonLatBoundaries {
    #[verifier::type_invariant]
    pub open spec fn inv(&self) -> bool {
        boundary_error(self@) is None
    }

    pub fn new(side1: Vec<F64>, side2: Vec<F64>, side3: Vec<F64>, side4: Vec<F64>) -> (r: Result<
        Self,
    >)
        ensures
            ({
                let b = BoundaryView {
                    side1: side1@,
                    side2: side2@,
                    side3: side3@,
                    side4: side4@,
                };
                match boundary_error(b) {
                    Some(e) => fails_with(r, e),
                    None => r is Ok && r->Ok_0@ == b,
                }
            }),
    {
        match validate_side(&side1) {
            Ok(()) => {},
            Err(e) => {
                return Err(e);
            },
        }
        match validate_side(&side2) {
            Ok(()) => {},
            Err(e) => {
                return Err(e);
            },
        }
        match validate_side(&side3) {
            Ok(()) => {},
            Err(e) => {
                return Err(e);
            },
        }
        match validate_side(&side4) {
            Ok(()) => {},
            Err(e) => {
                return Err(e);
            },
        }
        Ok(LonLatBoundaries { side1, side2, side3, side4 })
    }

    pub fn side1(&self) -> (r: &Vec<F64>)
        ensures
            r@ == self@.side1,
    {
        &self.side1
    }

    pub fn side2(&self) -> (r: &Vec<F64>)
        ensures
            r@ == self@.side2,
    {
        &self.side2
    }

    pub fn side3(&self) -> (r: &Vec<F64>)
        ensures
            r@ == self@.side3,
    {
        &self.side3
    }

    pub fn side4(&self) -> (r: &Vec<F64>)
        ensures
            r@ == self@.side4,
    {
        &self.side4
    }
}

/// The text of the error for a grid whose number of values is not that of its pixels.
pub open spec fn grid_length_text(len: nat, height: usize, width: usize) -> Seq<char> {
    ("lon/lat grid length "@ + decimal(len) + " does not match shape "@ + decimal(height as nat)
        + "x"@) + decimal(width as nat)
}

/// The error for the shape of a grid, if there is one.
pub open spec fn grid_error(height: usize, width: usize, len: nat) -> Option<ErrorView> {
    if height == 0 || width == 0 {
        Some(ErrorView::InvalidInput("lon/lat grid dimensions must be non-zero"@))
    } else if height * width > usize::MAX {
        Some(ErrorView::InvalidInput("lon/lat grid size overflows usize"@))
    } else if len != height * width {
        Some(ErrorView::InvalidInput(grid_length_text(len, height, width)))
    } else {
        None
    }
}

/// Refuses a grid without pixels, and one with another number of values than pixels.
pub fn validate_grid_shape(height: usize, width: usize, len: usize) -> (r: Result<()>)
    ensures
        match grid_error(height, width, len as nat) {
            Some(e) => fails_with(r, e),
            None => r is Ok,
        },
{
    if height == 0 || width == 0 {
        return Err(RustySatError::invalid_input("lon/lat grid dimensions must be non-zero"));
    }
    let expected: usize = match height.checked_mul(width) {
        Some(n) => n,
        None => {
            return Err(RustySatError::invalid_input("lon/lat grid size overflows usize"));
        },
    };
    if len != expected {
        let n = size_text(len);
        let h = size_text(height);
        let w = size_text(width);
        let start = join5(
            "lon/lat grid length ",
            n.as_str(),
            " does not match shape ",
            h.as_str(),
            "x",
        );
        let text = join2(start.as_str(), w.as_str());
        return Err(RustySatError::invalid_input(text.as_str()));
    }
    Ok(())
}

/// A row of a grid.
pub open spec fn grid_row(values: Seq<F64>, width: int, y: int) -> Seq<F64> {
    values.subrange(y * width, y * width + width)
}

/// A column of a grid.
pub open spec fn grid_column(values: Seq<F64>, height: int, width: int, x: int) -> Seq<F64> {
    Seq::new(height as nat, |y: int| values[y * width + x])
}

proof fn lemma_in_grid(y: int, x: int, height: int, width: int)
    requires
        0 <= y < height,
        0 <= x < width,
    ensures
        0 <= y * width,
        0 <= y * width + x < height * width,
        y * width + width <= height * width,
{
    assert(0 <= y * width && y * width + width <= height * width) by (nonlinear_arith)
        requires
            0 <= y < height,
            0 < width,
    ;
}

fn row_of(values: &Vec<F64>, height: usize, width: usize, y: usize) -> (r: Vec<F64>)
    requires
        values@.len() == height * width,
        y < height,
        width > 0,
    ensures
        r@ == grid_row(values@, width as int, y as int),
{
    let _len: usize = values.len();
    let mut r: Vec<F64> = Vec::new();
    let mut x: usize = 0;
    proof {
        lemma_in_grid(y as int, 0, height as int, width as int);
    }
    while x < width
        invariant
            x <= width,
            y < height,
            values@.len() == height * width,
            height * width <= usize::MAX,
            r@.len() == x,
            forall|i: int| 0 <= i < x ==> #[trigger] r@[i] == values@[y * width + i],
        decreases width - x,
    {
        proof {
            lemma_in_grid(y as int, x as int, height as int, width as int);
        }
        r.push(values[y * width + x]);
        x = x + 1;
    }
    assert(r@ =~= grid_row(values@, width as int, y as int));
    r
}

fn column_of(values: &Vec<F64>, height: usize, width: usize, x: usize) -> (r: Vec<F64>)
    requires
        values@.len() == height * width,
        x < width,
    ensures
        r@ == grid_column(values@, height as int, width as int, x as int),
{
    let _len: usize = values.len();
    let mut r: Vec<F64> = Vec::new();
    let mut y: usize = 0;
    while y < height
        invariant
            y <= height,
            x < width,
            values@.len() == height * width,
            height * width <= usize::MAX,
            r@.len() == y,
            forall|i: int| 0 <= i < y ==> #[trigger] r@[i] == values@[i * width + x],
        decreases height - y,
    {
        proof {
            lemma_in_grid(y as int, x as int, height as int, width as int);
        }
        r.push(values[y * width + x]);
        y = y + 1;
    }
    assert(r@ =~= grid_column(values@, height as int, width as int, x as int));
    r
}

fn reversed(list: &Vec<F64>) -> (r: Vec<F64>)
    ensures
        r@ == list@.reverse(),
{
    let mut r: Vec<F64> = Vec::new();
    let mut i: usize = list.len();
    while i > 0
        invariant
            i <= list@.len(),
            r@.len() == list@.len() - i,
            forall|j: int| 0 <= j < r@.len() ==> #[trigger] r@[j] == list@[list@.len() - 1 - j],
        decreases i,
    {
        i = i - 1;
        r.push(list[i]);
    }
    assert(r@ =~= list@.reverse());
    r
}

/// The longitudes along the sides of a grid: along the first row, down the last column,
/// back along the last row, and up the first column.
pub open spec fn lon_sides(height: usize, width: usize, values: Seq<F64>) -> BoundaryView {
    BoundaryView {
        side1: grid_row(values, width as int, 0),
        side2: grid_column(values, height as int, width as int, width - 1),
        side3: grid_row(values, width as int, height - 1).reverse(),
        side4: grid_column(values, height as int, width as int, 0).reverse(),
    }
}

/// The latitudes along the sides of a grid: the rows from left to right, the columns from
/// top to bottom.
pub open spec fn lat_sides(height: usize, width: usize, values: Seq<F64>) -> BoundaryView {
    BoundaryView {
        side1: grid_row(values, width as int, 0),
        side2: grid_column(values, height as int, width as int, width - 1),
        side3: grid_row(values, width as int, height - 1),
        side4: grid_column(values, height as int, width as int, 0),
    }
}

/// Whether `r` is the boundary with these sides, or the first obstacle.
pub open spec fn boundary_outcome(
    r: Result<LonLatBoundaries>,
    height: usize,
    width: usize,
    len: nat,
    sides: BoundaryView,
) -> bool {
    match grid_error(height, width, len) {
        Some(e) => fails_with(r, e),
        None => match boundary_error(sides) {
            Some(e) => fails_with(r, e),
            None => r is Ok && r->Ok_0@ == sides,
        },
    }
}

/// The longitudes along the sides of a grid.
pub fn lonlat_grid_boundaries(height: usize, width: usize, values: &Vec<F64>) -> (r: Result<
    LonLatBoundaries,
>)
    ensures
        boundary_outcome(r, height, width, values@.len(), lon_sides(height, width, values@)),
{
    match validate_grid_shape(height, width, values.len()) {
        Ok(()) => {},
        Err(e) => {
            return Err(e);
        },
    }
    let side1 = row_of(values, height, width, 0);
    let side2 = column_of(values, height, width, width - 1);
    let last = row_of(values, height, width, height - 1);
    let first = column_of(values, height, width, 0);
    LonLatBoundaries::new(side1, side2, reversed(&last), reversed(&first))
}

/// The latitudes along the sides of a grid.
pub fn lat_grid_boundaries(height: usize, width: usize, values: &Vec<F64>) -> (r: Result<
    LonLatBoundaries,
>)
    ensures
        boundary_outcome(r, height, width, values@.len(), lat_sides(height, width, values@)),
{
    match validate_grid_shape(height, width, values.len()) {
        Ok(()) => {},
        Err(e) => {
            return Err(e);
        },
    }
    let side1 = row_of(values, height, width, 0);
    let side2 = column_of(values, height, width, width - 1);
    let side3 = row_of(values, height, width, height - 1);
    let side4 = column_of(values, height, width, 0);
    LonLatBoundaries::new(side1, side2, side3, side4)
}

/// The sides of a grid are as long as it is wide and high, and the longitudes meet at the
/// corners: each side begins where the one before it ends.
pub proof fn lemma_sides_meet(height: usize, width: usize, values: Seq<F64>)
    requires
        height > 0,
        width > 0,
        values.len() == height * width,
    ensures
        ({
            let b = lon_sides(height, width, values);
            &&& b.side1.len() == width && b.side3.len() == width
            &&& b.side2.len() == height && b.side4.len() == height
            &&& b.side1.last() == b.side2[0]
            &&& b.side2.last() == b.side3[0]
            &&& b.side3.last() == b.side4[0]
            &&& b.side4.last() == b.side1[0]
        }),
{
    lemma_in_grid(0, width - 1, height as int, width as int);
    lemma_in_grid(height - 1, width - 1, height as int, width as int);
    lemma_in_grid(height - 1, 0, height as int, width as int);
    assert(0 * width == 0);
}

/// Whether `v` is one of the least values of a list.
pub open spec fn is_least(list: Seq<F64>, v: F64) -> bool {
    list.contains(v) && forall|i: int| 0 <= i < list.len() ==> v.at_most(#[trigger] list[i])
}

/// Whether `v` is one of the greatest values of a list.
pub open spec fn is_greatest(list: Seq<F64>, v: F64) -> bool {
    list.contains(v) && forall|i: int| 0 <= i < list.len() ==> (#[trigger] list[i]).at_most(v)
}

fn min_value(values: &Vec<F64>) -> (r: F64)
    requires
        values@.len() > 0,
        side_finite(values@),
    ensures
        is_least(values@, r),
{
    let mut r = values[0];
    let mut i: usize = 1;
    while i < values.len()
        invariant
            1 <= i <= values@.len(),
            side_finite(values@),
            r.finite(),
            values@.contains(r),
            forall|j: int| 0 <= j < i ==> r.at_most(#[trigger] values@[j]),
        decreases values@.len() - i,
    {
        assert(values@[i as int].finite());
        if values[i].lt(r) {
            r = values[i];
        }
        i = i + 1;
    }
    r
}

fn max_value(values: &Vec<F64>) -> (r: F64)
    requires
        values@.len() > 0,
        side_finite(values@),
    ensures
        is_greatest(values@, r),
{
    let mut r = values[0];
    let mut i: usize = 1;
    while i < values.len()
        invariant
            1 <= i <= values@.len(),
            side_finite(values@),
            r.finite(),
            values@.contains(r),
            forall|j: int| 0 <= j < i ==> (#[trigger] values@[j]).at_most(r),
        decreases values@.len() - i,
    {
        assert(values@[i as int].finite());
        if r.lt(values[i]) {
            r = values[i];
        }
        i = i + 1;
    }
    r
}

proof fn lemma_least_of_both(a: Seq<F64>, b: Seq<F64>, va: F64, vb: F64)
    requires
        is_least(a, va),
        is_least(b, vb),
        va.finite(),
        vb.finite(),
    ensures
        is_least(
            a + b,
            if vb.less(va) {
                vb
            } else {
                va
            },
        ),
{
    let v = if vb.less(va) {
        vb
    } else {
        va
    };
    let both = a + b;
    let i = choose|i: int| 0 <= i < a.len() && a[i] == va;
    let j = choose|j: int| 0 <= j < b.len() && b[j] == vb;
    assert(both[i] == va);
    assert(both[a.len() + j] == vb);
    assert forall|k: int| 0 <= k < both.len() implies v.at_most(#[trigger] both[k]) by {
        if k < a.len() {
            assert(va.at_most(a[k]));
        } else {
            assert(vb.at_most(b[k - a.len()]));
        }
    }
}

proof fn lemma_greatest_of_both(a: Seq<F64>, b: Seq<F64>, va: F64, vb: F64)
    requires
        is_greatest(a, va),
        is_greatest(b, vb),
        va.finite(),
        vb.finite(),
    ensures
        is_greatest(
            a + b,
            if va.less(vb) {
                vb
            } else {
                va
            },
        ),
{
    let v = if va.less(vb) {
        vb
    } else {
        va
    };
    let both = a + b;
    let i = choose|i: int| 0 <= i < a.len() && a[i] == va;
    let j = choose|j: int| 0 <= j < b.len() && b[j] == vb;
    assert(both[i] == va);
    assert(both[a.len() + j] == vb);
    assert forall|k: int| 0 <= k < both.len() implies (#[trigger] both[k]).at_most(v) by {
        if k < a.len() {
            assert(a[k].at_most(va));
        } else {
            assert(b[k - a.len()].at_most(vb));
        }
    }
}

fn smaller(a: F64, b: F64) -> (r: F64)
    ensures
        r == if b.less(a) {
            b
        } else {
            a
        },
{
    if b.lt(a) {
        b
    } else {
        a
    }
}

fn greater(a: F64, b: F64) -> (r: F64)
    ensures
        r == if a.less(b) {
            b
        } else {
            a
        },
{
    if a.lt(b) {
        b
    } else {
        a
    }
}

/// The least and the greatest value of a boundary.
fn range_of(b: &LonLatBoundaries) -> (r: (F64, F64))
    ensures
        is_least(b@.all(), r.0),
        is_greatest(b@.all(), r.1),
{
    proof {
        use_type_invariant(b);
    }
    let l1 = min_value(&b.side1);
    let l2 = min_value(&b.side2);
    let l3 = min_value(&b.side3);
    let l4 = min_value(&b.side4);
    let g1 = max_value(&b.side1);
    let g2 = max_value(&b.side2);
    let g3 = max_value(&b.side3);
    let g4 = max_value(&b.side4);
    let l12 = smaller(l1, l2);
    let l123 = smaller(l12, l3);
    let g12 = greater(g1, g2);
    let g123 = greater(g12, g3);
    proof {
        let v = b@;
        lemma_least_of_both(v.side1, v.side2, l1, l2);
        lemma_least_of_both(v.side1 + v.side2, v.side3, l12, l3);
        lemma_least_of_both(v.side1 + v.side2 + v.side3, v.side4, l123, l4);
        lemma_greatest_of_both(v.side1, v.side2, g1, g2);
        lemma_greatest_of_both(v.side1 + v.side2, v.side3, g12, g3);
        lemma_greatest_of_both(v.side1 + v.side2 + v.side3, v.side4, g123, g4);
    }
    (smaller(l123, l4), greater(g123, g4))
}

/// Whether a value of a list lies outside two bounds.
pub open spec fn some_outside(list: Seq<F64>, low: F64, high: F64) -> bool {
    exists|i: int|
        0 <= i < list.len() && ((#[trigger] list[i]).less(low) || high.less(list[i]))
}

/// Whether a boundary has a longitude or a latitude that there is not.
pub open spec fn illegal(lons: BoundaryView, lats: BoundaryView) -> bool {
    ||| some_outside(
        lons.all(),
        F64 { bits: MINUS_HALF_CIRCLE },
        F64 { bits: HALF_CIRCLE },
    )
    ||| some_outside(
        lats.all(),
        F64 { bits: MINUS_QUARTER_CIRCLE },
        F64 { bits: QUARTER_CIRCLE },
    )
}

/// Whether the values of a boundary lie outside two bounds, by its least and greatest
/// ones.
fn reaches_outside(b: &LonLatBoundaries, low: F64, high: F64) -> (r: bool)
    requires
        !low.nan(),
        !high.nan(),
    ensures
        r == some_outside(b@.all(), low, high),
{
    let (least, greatest) = range_of(b);
    proof {
        let all = b@.all();
        let i = choose|i: int| 0 <= i < all.len() && all[i] == least;
        let j = choose|j: int| 0 <= j < all.len() && all[j] == greatest;
        assert(all[i] == least && all[j] == greatest);
        if some_outside(all, low, high) {
            let k = choose|k: int|
                0 <= k < all.len() && ((#[trigger] all[k]).less(low) || high.less(all[k]));
            assert(least.at_most(all[k]) && all[k].at_most(greatest));
        }
    }
    least.lt(low) || high.lt(greatest)
}

fn has_illegal_lonlat(boundary_lons: &LonLatBoundaries, boundary_lats: &LonLatBoundaries) -> (r:
    bool)
    ensures
        r == illegal(boundary_lons@, boundary_lats@),
{
    reaches_outside(
        boundary_lons,
        F64 { bits: MINUS_HALF_CIRCLE },
        F64 { bits: HALF_CIRCLE },
    ) || reaches_outside(
        boundary_lats,
        F64 { bits: MINUS_QUARTER_CIRCLE },
        F64 { bits: QUARTER_CIRCLE },
    )
}

/// Whether a position lies in a region around no pole.
pub open spec fn in_region(
    lon: F64,
    lat: F64,
    south: F64,
    north: F64,
    west: F64,
    east: F64,
    crosses: bool,
) -> bool {
    let valid_lat = south.at_most(lat) && lat.at_most(north);
    let valid_lon = if crosses {
        (west.at_most(lon) && lon.at_most(F64 { bits: HALF_CIRCLE })) || (lon.at_most(
            east,
        ) && F64 { bits: MINUS_HALF_CIRCLE }.at_most(lon))
    } else {
        west.at_most(lon) && lon.at_most(east)
    };
    lon.finite() && lat.finite() && valid_lat && valid_lon
}

/// Which positions lie in a region around no pole.
pub open spec fn region_flags(
    lons: Seq<F64>,
    lats: Seq<F64>,
    south: F64,
    north: F64,
    west: F64,
    east: F64,
    crosses: bool,
) -> Seq<bool> {
    Seq::new(
        lons.len(),
        |i: int| in_region(lons[i], lats[i], south, north, west, east, crosses),
    )
}

/// Which positions are not south of a latitude.
pub open spec fn north_flags(lats: Seq<F64>, south: F64) -> Seq<bool> {
    Seq::new(lats.len(), |i: int| lats[i].finite() && south.at_most(lats[i]))
}

/// Which positions are not north of a latitude.
pub open spec fn south_flags(lats: Seq<F64>, north: F64) -> Seq<bool> {
    Seq::new(lats.len(), |i: int| lats[i].finite() && lats[i].at_most(north))
}

/// Whether `d` is the way from one longitude to the next: their difference, or its way
/// around the globe where it is more than a half circle.
pub open spec fn is_step<M: Fn(F64, F64) -> F64, W: Fn(F64) -> F64>(
    from: F64,
    to: F64,
    minus: M,
    wrap: W,
    d: F64,
) -> bool {
    exists|raw: F64| #[trigger]
        minus.ensures((to, from), raw) && if (F64 { bits: HALF_CIRCLE }).less(raw.abs()) {
            wrap.ensures((raw,), d)
        } else {
            d == raw
        }
}

/// Whether `ways` are the ways along a side.
pub open spec fn are_steps<M: Fn(F64, F64) -> F64, W: Fn(F64) -> F64>(
    side: Seq<F64>,
    minus: M,
    wrap: W,
    ways: Seq<F64>,
) -> bool {
    &&& ways.len() == side.len() - 1
    &&& forall|i: int|
        0 <= i < ways.len() ==> is_step(side[i], side[i + 1], minus, wrap, #[trigger] ways[i])
}

/// Whether `sum` is the sum of the ways along a side.
pub open spec fn is_side_sum<
    M: Fn(F64, F64) -> F64,
    W: Fn(F64) -> F64,
    T: Fn(Vec<F64>) -> F64,
>(side: Seq<F64>, minus: M, wrap: W, total: T, sum: F64) -> bool {
    exists|ways: Seq<F64>| #[trigger]
        are_steps(side, minus, wrap, ways) && folds(total, ways, sum)
}

/// Whether `sums` are the sums of the ways along the four sides.
pub open spec fn are_side_sums<
    M: Fn(F64, F64) -> F64,
    W: Fn(F64) -> F64,
    T: Fn(Vec<F64>) -> F64,
>(b: BoundaryView, minus: M, wrap: W, total: T, sums: Seq<F64>) -> bool {
    &&& sums.len() == 4
    &&& is_side_sum(b.side1, minus, wrap, total, sums[0])
    &&& is_side_sum(b.side2, minus, wrap, total, sums[1])
    &&& is_side_sum(b.side3, minus, wrap, total, sums[2])
    &&& is_side_sum(b.side4, minus, wrap, total, sums[3])
}

/// Whether `angle` is how far a boundary turns in longitude, in whole degrees.
pub open spec fn is_turn<M: Fn(F64, F64) -> F64, W: Fn(F64) -> F64, T: Fn(Vec<F64>) -> F64>(
    b: BoundaryView,
    minus: M,
    wrap: W,
    total: T,
    angle: i64,
) -> bool {
    exists|sums: Seq<F64>, all: F64|
        #![trigger are_side_sums(b, minus, wrap, total, sums), folds(total, sums, all)]
        are_side_sums(b, minus, wrap, total, sums) && folds(total, sums, all) && angle
            == all.rounded_i64()
}

/// Whether `south` and `north` are the latitudes of a region, widened by the radius.
pub open spec fn lat_bounds<
    M: Fn(F64, F64) -> F64,
    P: Fn(F64, F64) -> F64,
    D: Fn(F64, F64) -> F64,
>(b: BoundaryView, radius: F64, minus: M, plus: P, degrees: D, south: F64, north: F64) -> bool {
    exists|least: F64, greatest: F64, margin: F64|
        #![trigger
            minus.ensures((least, margin), south),
            plus.ensures((greatest, margin), north)]
        {
            &&& is_least(b.all(), least)
            &&& is_greatest(b.all(), greatest)
            &&& degrees.ensures((radius, F64 { bits: EARTH_RADIUS }), margin)
            &&& minus.ensures((least, margin), south)
            &&& plus.ensures((greatest, margin), north)
        }
}

/// Whether `v` is the largest of the latitudes of a side, whatever their sign.
pub open spec fn is_widest(side: Seq<F64>, v: F64) -> bool {
    &&& exists|i: int| 0 <= i < side.len() && v == (#[trigger] side[i]).abs()
    &&& forall|i: int| 0 <= i < side.len() ==> (#[trigger] side[i]).abs().at_most(v)
}

/// Whether `margin` is by how much a longitude is widened at the latitudes of a side:
/// not at all without a radius, and without end where the circle of the latitude is a
/// point.
pub open spec fn is_lon_margin<S: Fn(F64) -> F64, D: Fn(F64, F64) -> F64>(
    side: Seq<F64>,
    radius: F64,
    spread: S,
    degrees: D,
    margin: F64,
) -> bool {
    if radius.same_number(F64 { bits: 0 }) {
        margin == (F64 { bits: 0 })
    } else {
        exists|widest: F64, circle: F64| #[trigger]
            spread.ensures((widest,), circle) && is_widest(side, widest)
                && if circle.abs().at_most(F64 { bits: EPSILON }) {
                margin == (F64 { bits: INFINITE_64 })
            } else {
                degrees.ensures((radius, circle), margin)
            }
    }
}

/// Whether `west` is the longitude of the west side of a region, widened by the radius.
pub open spec fn is_west<M: Fn(F64, F64) -> F64, S: Fn(F64) -> F64, D: Fn(F64, F64) -> F64>(
    blons: BoundaryView,
    blats: BoundaryView,
    radius: F64,
    minus: M,
    spread: S,
    degrees: D,
    west: F64,
) -> bool {
    exists|least: F64, margin: F64| #[trigger]
        minus.ensures((least, margin), west) && is_least(blons.side4, least) && is_lon_margin(
            blats.side4,
            radius,
            spread,
            degrees,
            margin,
        )
}

/// Whether `east` is the longitude of the east side of a region, widened by the radius.
pub open spec fn is_east<P: Fn(F64, F64) -> F64, S: Fn(F64) -> F64, D: Fn(F64, F64) -> F64>(
    blons: BoundaryView,
    blats: BoundaryView,
    radius: F64,
    plus: P,
    spread: S,
    degrees: D,
    east: F64,
) -> bool {
    exists|greatest: F64, margin: F64| #[trigger]
        plus.ensures((greatest, margin), east) && is_greatest(blons.side2, greatest)
            && is_lon_margin(blats.side2, radius, spread, degrees, margin)
}

/// Whether a region crosses the date line: its east side is not east of its west side.
pub open spec fn crosses_date_line(b: BoundaryView) -> bool {
    exists|least: F64, greatest: F64| #[trigger]
        least.at_most(greatest) && is_least(b.side2, least) && is_greatest(b.side4, greatest)
}

/// Whether `flags` tell which positions lie in a region around no pole: between the
/// longitudes of its west and east sides and within its latitudes, all widened by the
/// radius.
pub open spec fn no_pole<
    M: Fn(F64, F64) -> F64,
    P: Fn(F64, F64) -> F64,
    S: Fn(F64) -> F64,
    D: Fn(F64, F64) -> F64,
>(
    flags: Seq<bool>,
    blons: BoundaryView,
    blats: BoundaryView,
    lons: Seq<F64>,
    lats: Seq<F64>,
    radius: F64,
    south: F64,
    north: F64,
    minus: M,
    plus: P,
    spread: S,
    degrees: D,
) -> bool {
    exists|west: F64, east: F64|
        #![trigger
            is_west(blons, blats, radius, minus, spread, degrees, west),
            is_east(blons, blats, radius, plus, spread, degrees, east)]
        {
            &&& is_west(blons, blats, radius, minus, spread, degrees, west)
            &&& is_east(blons, blats, radius, plus, spread, degrees, east)
            &&& flags == region_flags(
                lons,
                lats,
                south,
                north,
                west,
                east,
                crosses_date_line(blons),
            )
        }
}

/// Whether `flags` tell which positions lie in the region. A boundary that turns a full
/// circle to the west is one around the north pole, one that turns a full circle to the
/// east one around the south pole, and one that does not turn encloses no pole; of
/// another one nothing is known.
pub open spec fn are_valid<
    M: Fn(F64, F64) -> F64,
    P: Fn(F64, F64) -> F64,
    W: Fn(F64) -> F64,
    T: Fn(Vec<F64>) -> F64,
    S: Fn(F64) -> F64,
    D: Fn(F64, F64) -> F64,
>(
    flags: Seq<bool>,
    blons: BoundaryView,
    blats: BoundaryView,
    lons: Seq<F64>,
    lats: Seq<F64>,
    radius: F64,
    minus: M,
    plus: P,
    wrap: W,
    total: T,
    spread: S,
    degrees: D,
) -> bool {
    if illegal(blons, blats) {
        flags == Seq::new(lons.len(), |i: int| true)
    } else {
        exists|angle: i64, south: F64, north: F64|
            #![trigger
                is_turn(blons, minus, wrap, total, angle),
                lat_bounds(blats, radius, minus, plus, degrees, south, north)]
            {
                &&& is_turn(blons, minus, wrap, total, angle)
                &&& lat_bounds(blats, radius, minus, plus, degrees, south, north)
                &&& if angle == -360 {
                    flags == north_flags(lats, south)
                } else if angle == 360 {
                    flags == south_flags(lats, north)
                } else if angle == 0 {
                    no_pole(
                        flags,
                        blons,
                        blats,
                        lons,
                        lats,
                        radius,
                        south,
                        north,
                        minus,
                        plus,
                        spread,
                        degrees,
                    )
                } else {
                    flags == Seq::new(lons.len(), |i: int| true)
                }
            }
    }
}

/// The sum of the ways along a side.
fn side_angle_sum<M: Fn(F64, F64) -> F64, W: Fn(F64) -> F64, T: Fn(Vec<F64>) -> F64>(
    side: &Vec<F64>,
    minus: &M,
    wrap: &W,
    total: &T,
) -> (r: F64)
    requires
        side@.len() > 0,
        forall|a: F64, b: F64| #[trigger] minus.requires((a, b)),
        forall|a: F64| #[trigger] wrap.requires((a,)),
        forall|v: Vec<F64>| #[trigger] total.requires((v,)),
    ensures
        is_side_sum(side@, *minus, *wrap, *total, r),
{
    let half = F64 { bits: HALF_CIRCLE };
    let mut ways: Vec<F64> = Vec::new();
    let mut i: usize = 1;
    while i < side.len()
        invariant
            1 <= i <= side@.len(),
            half == (F64 { bits: HALF_CIRCLE }),
            ways@.len() == i - 1,
            forall|a: F64, b: F64| #[trigger] minus.requires((a, b)),
            forall|a: F64| #[trigger] wrap.requires((a,)),
            forall|j: int|
                0 <= j < ways@.len() ==> is_step(
                    side@[j],
                    side@[j + 1],
                    *minus,
                    *wrap,
                    #[trigger] ways@[j],
                ),
        decreases side@.len() - i,
    {
        let raw = minus(side[i], side[i - 1]);
        let d = if half.lt(raw.absolute()) {
            wrap(raw)
        } else {
            raw
        };
        proof {
            assert(minus.ensures((side@[i as int], side@[i - 1]), raw));
            assert(is_step(side@[i - 1], side@[i as int], *minus, *wrap, d));
        }
        ways.push(d);
        i = i + 1;
    }
    let ghost all = ways@;
    let ghost list = ways;
    let sum = total(ways);
    proof {
        assert(are_steps(side@, *minus, *wrap, all));
        assert(list@ == all && total.ensures((list,), sum));
        assert(folds(*total, all, sum));
    }
    sum
}

/// How far a boundary turns in longitude, in whole degrees.
fn turn_of<M: Fn(F64, F64) -> F64, W: Fn(F64) -> F64, T: Fn(Vec<F64>) -> F64>(
    b: &LonLatBoundaries,
    minus: &M,
    wrap: &W,
    total: &T,
) -> (r: i64)
    requires
        forall|a: F64, b: F64| #[trigger] minus.requires((a, b)),
        forall|a: F64| #[trigger] wrap.requires((a,)),
        forall|v: Vec<F64>| #[trigger] total.requires((v,)),
    ensures
        is_turn(b@, *minus, *wrap, *total, r),
{
    proof {
        use_type_invariant(b);
    }
    let mut sums: Vec<F64> = Vec::new();
    sums.push(side_angle_sum(&b.side1, minus, wrap, total));
    sums.push(side_angle_sum(&b.side2, minus, wrap, total));
    sums.push(side_angle_sum(&b.side3, minus, wrap, total));
    sums.push(side_angle_sum(&b.side4, minus, wrap, total));
    let ghost each = sums@;
    let ghost list = sums;
    let all = total(sums);
    proof {
        assert(are_side_sums(b@, *minus, *wrap, *total, each));
        assert(list@ == each && total.ensures((list,), all));
        assert(folds(*total, each, all));
    }
    all.round_to_i64()
}

/// The largest of the latitudes of a side, whatever their sign.
fn widest_of(side: &Vec<F64>) -> (r: F64)
    requires
        side@.len() > 0,
        side_finite(side@),
    ensures
        is_widest(side@, r),
{
    let mut r = side[0].absolute();
    assert(r == side@[0].abs());
    let mut i: usize = 1;
    while i < side.len()
        invariant
            1 <= i <= side@.len(),
            side_finite(side@),
            r.finite(),
            exists|j: int| 0 <= j < side@.len() && r == (#[trigger] side@[j]).abs(),
            forall|j: int| 0 <= j < i ==> (#[trigger] side@[j]).abs().at_most(r),
        decreases side@.len() - i,
    {
        assert(side@[i as int].finite());
        let v = side[i].absolute();
        if r.lt(v) {
            r = v;
            assert(r == side@[i as int].abs());
        }
        i = i + 1;
    }
    r
}

/// By how much a longitude is widened at the latitudes of a side.
fn lon_buffer_degrees<S: Fn(F64) -> F64, D: Fn(F64, F64) -> F64>(
    side: &Vec<F64>,
    radius_of_influence: F64,
    spread: &S,
    degrees: &D,
) -> (r: F64)
    requires
        side@.len() > 0,
        side_finite(side@),
        forall|a: F64| #[trigger] spread.requires((a,)),
        forall|a: F64, b: F64| #[trigger] degrees.requires((a, b)),
    ensures
        is_lon_margin(side@, radius_of_influence, *spread, *degrees, r),
{
    if radius_of_influence.equals(F64 { bits: 0 }) {
        return F64 { bits: 0 };
    }
    let widest = widest_of(side);
    let circle = spread(widest);
    assert(spread.ensures((widest,), circle));
    if circle.absolute().le(F64 { bits: EPSILON }) {
        F64 { bits: INFINITE_64 }
    } else {
        degrees(radius_of_influence, circle)
    }
}

/// As many set flags as there are positions.
fn all_valid(n: usize) -> (r: Vec<bool>)
    ensures
        r@ == Seq::new(n as nat, |i: int| true),
{
    let mut r: Vec<bool> = Vec::new();
    while r.len() < n
        invariant
            r@.len() <= n,
            forall|i: int| 0 <= i < r@.len() ==> #[trigger] r@[i],
        decreases n - r@.len(),
    {
        r.push(true);
    }
    assert(r@ =~= Seq::new(n as nat, |i: int| true));
    r
}

fn valid_north(lats: &Vec<F64>, south: F64) -> (r: Vec<bool>)
    ensures
        r@ == north_flags(lats@, south),
{
    let mut r: Vec<bool> = Vec::new();
    let mut i: usize = 0;
    while i < lats.len()
        invariant
            i <= lats@.len(),
            r@ == north_flags(lats@.take(i as int), south),
        decreases lats@.len() - i,
    {
        let lat = lats[i];
        r.push(lat.is_finite() && south.le(lat));
        i = i + 1;
        assert(r@ =~= north_flags(lats@.take(i as int), south));
    }
    assert(lats@.take(i as int) =~= lats@);
    r
}

fn valid_south(lats: &Vec<F64>, north: F64) -> (r: Vec<bool>)
    ensures
        r@ == south_flags(lats@, north),
{
    let mut r: Vec<bool> = Vec::new();
    let mut i: usize = 0;
    while i < lats.len()
        invariant
            i <= lats@.len(),
            r@ == south_flags(lats@.take(i as int), north),
        decreases lats@.len() - i,
    {
        let lat = lats[i];
        r.push(lat.is_finite() && lat.le(north));
        i = i + 1;
        assert(r@ =~= south_flags(lats@.take(i as int), north));
    }
    assert(lats@.take(i as int) =~= lats@);
    r
}

/// Which positions lie in a region around no pole.
fn valid_no_pole_index<
    M: Fn(F64, F64) -> F64,
    P: Fn(F64, F64) -> F64,
    S: Fn(F64) -> F64,
    D: Fn(F64, F64) -> F64,
>(
    boundary_lons: &LonLatBoundaries,
    boundary_lats: &LonLatBoundaries,
    lons: &Vec<F64>,
    lats: &Vec<F64>,
    radius_of_influence: F64,
    south: F64,
    north: F64,
    minus: &M,
    plus: &P,
    spread: &S,
    degrees: &D,
) -> (r: Vec<bool>)
    requires
        lons@.len() == lats@.len(),
        forall|a: F64, b: F64| #[trigger] minus.requires((a, b)),
        forall|a: F64, b: F64| #[trigger] plus.requires((a, b)),
        forall|a: F64| #[trigger] spread.requires((a,)),
        forall|a: F64, b: F64| #[trigger] degrees.requires((a, b)),
    ensures
        no_pole(
            r@,
            boundary_lons@,
            boundary_lats@,
            lons@,
            lats@,
            radius_of_influence,
            south,
            north,
            *minus,
            *plus,
            *spread,
            *degrees,
        ),
{
    proof {
        use_type_invariant(boundary_lons);
        use_type_invariant(boundary_lats);
    }
    let least4 = min_value(&boundary_lons.side4);
    let west_margin = lon_buffer_degrees(
        &boundary_lats.side4,
        radius_of_influence,
        spread,
        degrees,
    );
    let w = minus(least4, west_margin);
    let greatest2 = max_value(&boundary_lons.side2);
    let east_margin = lon_buffer_degrees(
        &boundary_lats.side2,
        radius_of_influence,
        spread,
        degrees,
    );
    let e = plus(greatest2, east_margin);
    let least2 = min_value(&boundary_lons.side2);
    let greatest4 = max_value(&boundary_lons.side4);
    let crosses = least2.le(greatest4);
    proof {
        assert(minus.ensures((least4, west_margin), w));
        assert(plus.ensures((greatest2, east_margin), e));
        lemma_crosses(boundary_lons@, least2, greatest4);
    }
    let half = F64 { bits: HALF_CIRCLE };
    let minus_half = F64 { bits: MINUS_HALF_CIRCLE };
    let mut r: Vec<bool> = Vec::new();
    let mut i: usize = 0;
    while i < lons.len()
        invariant
            i <= lons@.len(),
            lons@.len() == lats@.len(),
            half == (F64 { bits: HALF_CIRCLE }),
            minus_half == (F64 { bits: MINUS_HALF_CIRCLE }),
            r@.len() == i,
            forall|j: int|
                0 <= j < i ==> #[trigger] r@[j] == in_region(
                    lons@[j],
                    lats@[j],
                    south,
                    north,
                    w,
                    e,
                    crosses,
                ),
        decreases lons@.len() - i,
    {
        let lon = lons[i];
        let lat = lats[i];
        let valid_lat = south.le(lat) && lat.le(north);
        let valid_lon = if crosses {
            (w.le(lon) && lon.le(half)) || (lon.le(e) && minus_half.le(lon))
        } else {
            w.le(lon) && lon.le(e)
        };
        r.push(lon.is_finite() && lat.is_finite() && valid_lat && valid_lon);
        i = i + 1;
    }
    proof {
        assert(is_west(
            boundary_lons@,
            boundary_lats@,
            radius_of_influence,
            *minus,
            *spread,
            *degrees,
            w,
        ));
        assert(is_east(
            boundary_lons@,
            boundary_lats@,
            radius_of_influence,
            *plus,
            *spread,
            *degrees,
            e,
        ));
        assert(r@ =~= region_flags(lons@, lats@, south, north, w, e, crosses));
    }
    r
}

/// Any least and any greatest value tell whether a region crosses the date line.
proof fn lemma_crosses(b: BoundaryView, least: F64, greatest: F64)
    requires
        is_least(b.side2, least),
        is_greatest(b.side4, greatest),
    ensures
        crosses_date_line(b) == least.at_most(greatest),
{
    if crosses_date_line(b) {
        let (l, g) = choose|l: F64, g: F64| #[trigger]
            l.at_most(g) && is_least(b.side2, l) && is_greatest(b.side4, g);
        let i = choose|i: int| 0 <= i < b.side2.len() && b.side2[i] == l;
        let j = choose|j: int| 0 <= j < b.side4.len() && b.side4[j] == g;
        assert(least.at_most(b.side2[i]));
        assert(b.side4[j].at_most(greatest));
    }
}

/// Which positions lie in the region that a boundary encloses.
fn valid_index_from_boundaries<
    M: Fn(F64, F64) -> F64,
    P: Fn(F64, F64) -> F64,
    W: Fn(F64) -> F64,
    T: Fn(Vec<F64>) -> F64,
    S: Fn(F64) -> F64,
    D: Fn(F64, F64) -> F64,
>(
    boundary_lons: &LonLatBoundaries,
    boundary_lats: &LonLatBoundaries,
    lons: &Vec<F64>,
    lats: &Vec<F64>,
    radius_of_influence: F64,
    minus: &M,
    plus: &P,
    wrap: &W,
    total: &T,
    spread: &S,
    degrees: &D,
) -> (r: Vec<bool>)
    requires
        lons@.len() == lats@.len(),
        forall|a: F64, b: F64| #[trigger] minus.requires((a, b)),
        forall|a: F64, b: F64| #[trigger] plus.requires((a, b)),
        forall|a: F64| #[trigger] wrap.requires((a,)),
        forall|v: Vec<F64>| #[trigger] total.requires((v,)),
        forall|a: F64| #[trigger] spread.requires((a,)),
        forall|a: F64, b: F64| #[trigger] degrees.requires((a, b)),
    ensures
        are_valid(
            r@,
            boundary_lons@,
            boundary_lats@,
            lons@,
            lats@,
            radius_of_influence,
            *minus,
            *plus,
            *wrap,
            *total,
            *spread,
            *degrees,
        ),
{
    if has_illegal_lonlat(boundary_lons, boundary_lats) {
        return all_valid(lons.len());
    }
    let angle: i64 = turn_of(boundary_lons, minus, wrap, total);
    let (least, greatest) = range_of(boundary_lats);
    let margin = degrees(radius_of_influence, F64 { bits: EARTH_RADIUS });
    let south = minus(least, margin);
    let north = plus(greatest, margin);
    proof {
        assert(minus.ensures((least, margin), south));
        assert(plus.ensures((greatest, margin), north));
        assert(lat_bounds(
            boundary_lats@,
            radius_of_influence,
            *minus,
            *plus,
            *degrees,
            south,
            north,
        ));
    }
    if angle == -360 {
        valid_north(lats, south)
    } else if angle == 360 {
        valid_south(lats, north)
    } else if angle == 0 {
        valid_no_pole_index(
            boundary_lons,
            boundary_lats,
            lons,
            lats,
            radius_of_influence,
            south,
            north,
            minus,
            plus,
            spread,
            degrees,
        )
    } else {
        all_valid(lons.len())
    }
}

/// The text of the error for positions that do not come in pairs.
pub open spec fn pairs_text(lons: nat, lats: nat) -> Seq<char> {
    "longitude length "@ + decimal(lons) + " does not match latitude length "@ + decimal(lats)
}

/// The error for positions that do not come in pairs or for the radius, if there is one.
pub open spec fn reduction_error(lons: nat, lats: nat, radius: F64) -> Option<ErrorView> {
    if lons != lats {
        Some(ErrorView::InvalidInput(pairs_text(lons, lats)))
    } else if !radius.finite() || radius.less(F64 { bits: 0 }) {
        Some(
            ErrorView::InvalidInput("radius_of_influence must be finite and non-negative"@),
        )
    } else {
        None
    }
}

fn validate_points(lons: &Vec<F64>, lats: &Vec<F64>, radius_of_influence: F64) -> (r: Result<()>)
    ensures
        match reduction_error(lons@.len(), lats@.len(), radius_of_influence) {
            Some(e) => fails_with(r, e),
            None => r is Ok,
        },
{
    if lons.len() != lats.len() {
        let a = size_text(lons.len());
        let b = size_text(lats.len());
        let text = join4(
            "longitude length ",
            a.as_str(),
            " does not match latitude length ",
            b.as_str(),
        );
        return Err(RustySatError::invalid_input(text.as_str()));
    }
    if !radius_of_influence.is_finite() || radius_of_influence.lt(F64 { bits: 0 }) {
        return Err(
            RustySatError::invalid_input("radius_of_influence must be finite and non-negative"),
        );
    }
    Ok(())
}

/// Whether `r` tells which positions lie in the region, or is the first obstacle.
pub open spec fn valid_outcome<
    M: Fn(F64, F64) -> F64,
    P: Fn(F64, F64) -> F64,
    W: Fn(F64) -> F64,
    T: Fn(Vec<F64>) -> F64,
    S: Fn(F64) -> F64,
    D: Fn(F64, F64) -> F64,
>(
    r: Result<Vec<bool>>,
    blons: BoundaryView,
    blats: BoundaryView,
    lons: Seq<F64>,
    lats: Seq<F64>,
    radius: F64,
    minus: M,
    plus: P,
    wrap: W,
    total: T,
    spread: S,
    degrees: D,
) -> bool {
    match reduction_error(lons.len(), lats.len(), radius) {
        Some(e) => fails_with(r, e),
        None => r is Ok && are_valid(
            r->Ok_0@,
            blons,
            blats,
            lons,
            lats,
            radius,
            minus,
            plus,
            wrap,
            total,
            spread,
            degrees,
        ),
    }
}

/// Which positions lie in the region that a boundary encloses, widened by a radius.
/// `minus` and `plus` are the difference and the sum of two numbers and `total` the sum
/// of a list; `wrap` gives the way around the globe for a difference of longitudes,
/// `spread` the radius of the circle of a latitude, and `degrees` the angle of a length
/// on a circle.
pub fn get_valid_index_from_lonlat_boundaries<
    M: Fn(F64, F64) -> F64,
    P: Fn(F64, F64) -> F64,
    W: Fn(F64) -> F64,
    T: Fn(Vec<F64>) -> F64,
    S: Fn(F64) -> F64,
    D: Fn(F64, F64) -> F64,
>(
    boundary_lons: &LonLatBoundaries,
    boundary_lats: &LonLatBoundaries,
    lons: &Vec<F64>,
    lats: &Vec<F64>,
    radius_of_influence: F64,
    minus: &M,
    plus: &P,
    wrap: &W,
    total: &T,
    spread: &S,
    degrees: &D,
) -> (r: Result<Vec<bool>>)
    requires
        forall|a: F64, b: F64| #[trigger] minus.requires((a, b)),
        forall|a: F64, b: F64| #[trigger] plus.requires((a, b)),
        forall|a: F64| #[trigger] wrap.requires((a,)),
        forall|v: Vec<F64>| #[trigger] total.requires((v,)),
        forall|a: F64| #[trigger] spread.requires((a,)),
        forall|a: F64, b: F64| #[trigger] degrees.requires((a, b)),
    ensures
        valid_outcome(
            r,
            boundary_lons@,
            boundary_lats@,
            lons@,
            lats@,
            radius_of_influence,
            *minus,
            *plus,
            *wrap,
            *total,
            *spread,
            *degrees,
        ),
{
    match validate_points(lons, lats, radius_of_influence) {
        Ok(()) => {},
        Err(e) => {
            return Err(e);
        },
    }
    Ok(
        valid_index_from_boundaries(
            boundary_lons,
            boundary_lats,
            lons,
            lats,
            radius_of_influence,
            minus,
            plus,
            wrap,
            total,
            spread,
            degrees,
        ),
    )
}

/// Which positions lie in the region of a grid, widened by a radius.
pub fn get_valid_index_from_lonlat_grid<
    M: Fn(F64, F64) -> F64,
    P: Fn(F64, F64) -> F64,
    W: Fn(F64) -> F64,
    T: Fn(Vec<F64>) -> F64,
    S: Fn(F64) -> F64,
    D: Fn(F64, F64) -> F64,
>(
    height: usize,
    width: usize,
    grid_lons: &Vec<F64>,
    grid_lats: &Vec<F64>,
    lons: &Vec<F64>,
    lats: &Vec<F64>,
    radius_of_influence: F64,
    minus: &M,
    plus: &P,
    wrap: &W,
    total: &T,
    spread: &S,
    degrees: &D,
) -> (r: Result<Vec<bool>>)
    requires
        forall|a: F64, b: F64| #[trigger] minus.requires((a, b)),
        forall|a: F64, b: F64| #[trigger] plus.requires((a, b)),
        forall|a: F64| #[trigger] wrap.requires((a,)),
        forall|v: Vec<F64>| #[trigger] total.requires((v,)),
        forall|a: F64| #[trigger] spread.requires((a,)),
        forall|a: F64, b: F64| #[trigger] degrees.requires((a, b)),
    ensures
        match grid_region_error(height, width, grid_lons@, grid_lats@) {
            Some(e) => fails_with(r, e),
            None => valid_outcome(
                r,
                lon_sides(height, width, grid_lons@),
                lat_sides(height, width, grid_lats@),
                lons@,
                lats@,
                radius_of_influence,
                *minus,
                *plus,
                *wrap,
                *total,
                *spread,
                *degrees,
            ),
        },
{
    match validate_grid_shape(height, width, grid_lons.len()) {
        Ok(()) => {},
        Err(e) => {
            return Err(e);
        },
    }
    match validate_grid_shape(height, width, grid_lats.len()) {
        Ok(()) => {},
        Err(e) => {
            return Err(e);
        },
    }
    let boundary_lons = match lonlat_grid_boundaries(height, width, grid_lons) {
        Ok(b) => b,
        Err(e) => {
            return Err(e);
        },
    };
    let boundary_lats = match lat_grid_boundaries(height, width, grid_lats) {
        Ok(b) => b,
        Err(e) => {
            return Err(e);
        },
    };
    get_valid_index_from_lonlat_boundaries(
        &boundary_lons,
        &boundary_lats,
        lons,
        lats,
        radius_of_influence,
        minus,
        plus,
        wrap,
        total,
        spread,
        degrees,
    )
}

/// The error for the shape or the sides of a grid, if there is one.
pub open spec fn grid_region_error(
    height: usize,
    width: usize,
    lons: Seq<F64>,
    lats: Seq<F64>,
) -> Option<ErrorView> {
    if grid_error(height, width, lons.len()) is Some {
        grid_error(height, width, lons.len())
    } else if grid_error(height, width, lats.len()) is Some {
        grid_error(height, width, lats.len())
    } else if boundary_error(lon_sides(height, width, lons)) is Some {
        boundary_error(lon_sides(height, width, lons))
    } else {
        boundary_error(lat_sides(height, width, lats))
    }
}

/// Whether the differences, the ways around the globe, the sums and the circles are one for
/// each argument.
pub open spec fn one_result_each<
    M: Fn(F64, F64) -> F64,
    W: Fn(F64) -> F64,
    T: Fn(Vec<F64>) -> F64,
    S: Fn(F64) -> F64,
>(minus: M, wrap: W, total: T, spread: S) -> bool {
    &&& forall|a: F64, b: F64, p: F64, q: F64|
        #![trigger minus.ensures((a, b), p), minus.ensures((a, b), q)]
        minus.ensures((a, b), p) && minus.ensures((a, b), q) ==> p == q
    &&& forall|a: F64, p: F64, q: F64|
        #![trigger wrap.ensures((a,), p), wrap.ensures((a,), q)]
        wrap.ensures((a,), p) && wrap.ensures((a,), q) ==> p == q
    &&& forall|list: Seq<F64>, p: F64, q: F64|
        #![trigger folds(total, list, p), folds(total, list, q)]
        folds(total, list, p) && folds(total, list, q) ==> p == q
    &&& forall|a: F64, p: F64, q: F64|
        #![trigger spread.ensures((a,), p), spread.ensures((a,), q)]
        spread.ensures((a,), p) && spread.ensures((a,), q) ==> p == q
}

/// Whether the arithmetic keeps the order of numbers, as rounded arithmetic does: less is left
/// of a finite number where more is taken off, more where more is added; the angle of a longer
/// length on a circle is not smaller, and none is below zero; the circle of an angle up to a
/// quarter turn is not below zero.
pub open spec fn keeps_order<
    M: Fn(F64, F64) -> F64,
    P: Fn(F64, F64) -> F64,
    S: Fn(F64) -> F64,
    D: Fn(F64, F64) -> F64,
>(minus: M, plus: P, spread: S, degrees: D) -> bool {
    &&& forall|a: F64, b: F64, m: F64, n: F64, p: F64, q: F64|
        #![trigger minus.ensures((a, m), p), minus.ensures((b, n), q)]
        a.finite() && a.same_number(b) && m.at_most(n) && minus.ensures((a, m), p)
            && minus.ensures((b, n), q) ==> q.at_most(p)
    &&& forall|a: F64, b: F64, m: F64, n: F64, p: F64, q: F64|
        #![trigger plus.ensures((a, m), p), plus.ensures((b, n), q)]
        a.finite() && a.same_number(b) && m.at_most(n) && plus.ensures((a, m), p)
            && plus.ensures((b, n), q) ==> p.at_most(q)
    &&& forall|m: F64, n: F64, c: F64, p: F64, q: F64|
        #![trigger degrees.ensures((m, c), p), degrees.ensures((n, c), q)]
        m.finite() && n.finite() && (F64 { bits: 0 }).at_most(m) && m.at_most(n) && (F64 {
            bits: 0,
        }).less(c) && degrees.ensures((m, c), p) && degrees.ensures((n, c), q) ==> (F64 {
            bits: 0,
        }).at_most(p) && p.at_most(q)
    &&& forall|v: F64, c: F64| #[trigger]
        spread.ensures((v,), c) && (F64 { bits: 0 }).at_most(v) && v.at_most(
            F64 { bits: QUARTER_CIRCLE },
        ) ==> (F64 { bits: 0 }).at_most(c)
}

/// The ways along a side are one list.
proof fn lemma_one_side_sum<
    M: Fn(F64, F64) -> F64,
    W: Fn(F64) -> F64,
    T: Fn(Vec<F64>) -> F64,
    S: Fn(F64) -> F64,
>(side: Seq<F64>, minus: M, wrap: W, total: T, spread: S, p: F64, q: F64)
    requires
        one_result_each(minus, wrap, total, spread),
        is_side_sum(side, minus, wrap, total, p),
        is_side_sum(side, minus, wrap, total, q),
    ensures
        p == q,
{
    let u = choose|ways: Seq<F64>| #[trigger]
        are_steps(side, minus, wrap, ways) && folds(total, ways, p);
    let v = choose|ways: Seq<F64>| #[trigger]
        are_steps(side, minus, wrap, ways) && folds(total, ways, q);
    assert forall|i: int| 0 <= i < u.len() implies u[i] == v[i] by {
        assert(is_step(side[i], side[i + 1], minus, wrap, u[i]));
        assert(is_step(side[i], side[i + 1], minus, wrap, v[i]));
    }
    assert(u =~= v);
}

/// A boundary turns in one way.
proof fn lemma_one_turn<
    M: Fn(F64, F64) -> F64,
    W: Fn(F64) -> F64,
    T: Fn(Vec<F64>) -> F64,
    S: Fn(F64) -> F64,
>(b: BoundaryView, minus: M, wrap: W, total: T, spread: S, p: i64, q: i64)
    requires
        one_result_each(minus, wrap, total, spread),
        is_turn(b, minus, wrap, total, p),
        is_turn(b, minus, wrap, total, q),
    ensures
        p == q,
{
    let (u, x) = choose|sums: Seq<F64>, all: F64|
        #![trigger are_side_sums(b, minus, wrap, total, sums), folds(total, sums, all)]
        are_side_sums(b, minus, wrap, total, sums) && folds(total, sums, all) && p
            == all.rounded_i64();
    let (v, y) = choose|sums: Seq<F64>, all: F64|
        #![trigger are_side_sums(b, minus, wrap, total, sums), folds(total, sums, all)]
        are_side_sums(b, minus, wrap, total, sums) && folds(total, sums, all) && q
            == all.rounded_i64();
    lemma_one_side_sum(b.side1, minus, wrap, total, spread, u[0], v[0]);
    lemma_one_side_sum(b.side2, minus, wrap, total, spread, u[1], v[1]);
    lemma_one_side_sum(b.side3, minus, wrap, total, spread, u[2], v[2]);
    lemma_one_side_sum(b.side4, minus, wrap, total, spread, u[3], v[3]);
    assert(u =~= v);
}

proof fn lemma_same_least(list: Seq<F64>, a: F64, b: F64)
    requires
        side_finite(list),
    ensures
        is_least(list, a) && is_least(list, b) ==> a.same_number(b) && a.finite(),
        is_greatest(list, a) && is_greatest(list, b) ==> a.same_number(b) && a.finite(),
{
    if list.contains(a) && list.contains(b) {
        let i = choose|i: int| 0 <= i < list.len() && list[i] == a;
        let j = choose|j: int| 0 <= j < list.len() && list[j] == b;
        assert(list[i].finite() && list[j].finite());
    }
}

/// A longer radius widens the latitudes of a region no less.
proof fn lemma_lat_bounds_grow<
    M: Fn(F64, F64) -> F64,
    P: Fn(F64, F64) -> F64,
    S: Fn(F64) -> F64,
    D: Fn(F64, F64) -> F64,
>(
    b: BoundaryView,
    r: F64,
    s: F64,
    minus: M,
    plus: P,
    spread: S,
    degrees: D,
    south: F64,
    north: F64,
    wider_south: F64,
    wider_north: F64,
)
    requires
        keeps_order(minus, plus, spread, degrees),
        side_finite(b.all()),
        r.finite() && s.finite() && (F64 { bits: 0 }).at_most(r) && r.at_most(s),
        lat_bounds(b, r, minus, plus, degrees, south, north),
        lat_bounds(b, s, minus, plus, degrees, wider_south, wider_north),
    ensures
        wider_south.at_most(south),
        north.at_most(wider_north),
{
    let (l1, g1, m1) = choose|least: F64, greatest: F64, margin: F64|
        #![trigger
            minus.ensures((least, margin), south),
            plus.ensures((greatest, margin), north)]
        is_least(b.all(), least) && is_greatest(b.all(), greatest) && degrees.ensures(
            (r, F64 { bits: EARTH_RADIUS }),
            margin,
        ) && minus.ensures((least, margin), south) && plus.ensures((greatest, margin), north);
    let (l2, g2, m2) = choose|least: F64, greatest: F64, margin: F64|
        #![trigger
            minus.ensures((least, margin), wider_south),
            plus.ensures((greatest, margin), wider_north)]
        is_least(b.all(), least) && is_greatest(b.all(), greatest) && degrees.ensures(
            (s, F64 { bits: EARTH_RADIUS }),
            margin,
        ) && minus.ensures((least, margin), wider_south) && plus.ensures(
            (greatest, margin),
            wider_north,
        );
    lemma_same_least(b.all(), l1, l2);
    lemma_same_least(b.all(), g1, g2);
    assert((F64 { bits: 0 }).less(F64 { bits: EARTH_RADIUS }));
    assert(m1.at_most(m2));
}

/// A longer radius widens a longitude no less.
proof fn lemma_lon_margin_grows<
    M: Fn(F64, F64) -> F64,
    P: Fn(F64, F64) -> F64,
    W: Fn(F64) -> F64,
    T: Fn(Vec<F64>) -> F64,
    S: Fn(F64) -> F64,
    D: Fn(F64, F64) -> F64,
>(
    side: Seq<F64>,
    r: F64,
    s: F64,
    minus: M,
    plus: P,
    wrap: W,
    total: T,
    spread: S,
    degrees: D,
    margin: F64,
    wider: F64,
)
    requires
        one_result_each(minus, wrap, total, spread),
        keeps_order(minus, plus, spread, degrees),
        !some_outside(
            side,
            F64 { bits: MINUS_QUARTER_CIRCLE },
            F64 { bits: QUARTER_CIRCLE },
        ),
        side_finite(side),
        r.finite() && s.finite() && (F64 { bits: 0 }).at_most(r) && r.at_most(s),
        is_lon_margin(side, r, spread, degrees, margin),
        is_lon_margin(side, s, spread, degrees, wider),
    ensures
        margin.at_most(wider),
{
    let zero = F64 { bits: 0 };
    if !s.same_number(zero) {
        let (w2, c2) = choose|widest: F64, circle: F64| #[trigger]
            spread.ensures((widest,), circle) && is_widest(side, widest)
                && if circle.abs().at_most(F64 { bits: EPSILON }) {
                wider == (F64 { bits: INFINITE_64 })
            } else {
                degrees.ensures((s, circle), wider)
            };
        let i = choose|i: int| 0 <= i < side.len() && w2 == (#[trigger] side[i]).abs();
        assert(side[i].finite());
        assert(!(side[i].less(F64 { bits: MINUS_QUARTER_CIRCLE }) || (F64 {
            bits: QUARTER_CIRCLE,
        }).less(side[i])));
        assert(zero.at_most(w2) && w2.at_most(F64 { bits: QUARTER_CIRCLE }));
        assert(zero.at_most(c2));
        if !r.same_number(zero) {
            let (w1, c1) = choose|widest: F64, circle: F64| #[trigger]
                spread.ensures((widest,), circle) && is_widest(side, widest)
                    && if circle.abs().at_most(F64 { bits: EPSILON }) {
                    margin == (F64 { bits: INFINITE_64 })
                } else {
                    degrees.ensures((r, circle), margin)
                };
            let j = choose|j: int| 0 <= j < side.len() && w1 == (#[trigger] side[j]).abs();
            assert(side[j].finite());
            assert(w1.at_most(w2) && w2.at_most(w1));
            assert(w1 == w2);
            assert(c1 == c2);
            if !c2.abs().at_most(F64 { bits: EPSILON }) {
                assert(zero.less(c2));
            }
        } else if !c2.abs().at_most(F64 { bits: EPSILON }) {
            assert(zero.less(c2));
            assert(degrees.ensures((s, c2), wider));
        }
    }
}

/// A larger radius of influence keeps every point: where the arithmetic keeps the order of
/// numbers and gives one result for each argument, a position that lies in the region with one
/// radius lies in it with each larger one.
pub proof fn lemma_larger_radius_keeps_points<
    M: Fn(F64, F64) -> F64,
    P: Fn(F64, F64) -> F64,
    W: Fn(F64) -> F64,
    T: Fn(Vec<F64>) -> F64,
    S: Fn(F64) -> F64,
    D: Fn(F64, F64) -> F64,
>(
    first: Result<Vec<bool>>,
    second: Result<Vec<bool>>,
    blons: BoundaryView,
    blats: BoundaryView,
    lons: Seq<F64>,
    lats: Seq<F64>,
    r: F64,
    s: F64,
    minus: M,
    plus: P,
    wrap: W,
    total: T,
    spread: S,
    degrees: D,
)
    requires
        one_result_each(minus, wrap, total, spread),
        keeps_order(minus, plus, spread, degrees),
        boundary_error(blons) is None,
        boundary_error(blats) is None,
        r.at_most(s),
        valid_outcome(
            first,
            blons,
            blats,
            lons,
            lats,
            r,
            minus,
            plus,
            wrap,
            total,
            spread,
            degrees,
        ),
        valid_outcome(
            second,
            blons,
            blats,
            lons,
            lats,
            s,
            minus,
            plus,
            wrap,
            total,
            spread,
            degrees,
        ),
        first is Ok,
        second is Ok,
    ensures
        first->Ok_0@.len() == lons.len(),
        second->Ok_0@.len() == lons.len(),
        forall|i: int|
            0 <= i < lons.len() && #[trigger] first->Ok_0@[i] ==> second->Ok_0@[i],
{
    let f = first->Ok_0@;
    let g = second->Ok_0@;
    lemma_all_finite(blats);
    if !illegal(blons, blats) {
        let (a1, s1, n1) = choose|angle: i64, south: F64, north: F64|
            #![trigger
                is_turn(blons, minus, wrap, total, angle),
                lat_bounds(blats, r, minus, plus, degrees, south, north)]
            is_turn(blons, minus, wrap, total, angle) && lat_bounds(
                blats,
                r,
                minus,
                plus,
                degrees,
                south,
                north,
            ) && if angle == -360 {
                f == north_flags(lats, south)
            } else if angle == 360 {
                f == south_flags(lats, north)
            } else if angle == 0 {
                no_pole(f, blons, blats, lons, lats, r, south, north, minus, plus, spread, degrees)
            } else {
                f == Seq::new(lons.len(), |i: int| true)
            };
        let (a2, s2, n2) = choose|angle: i64, south: F64, north: F64|
            #![trigger
                is_turn(blons, minus, wrap, total, angle),
                lat_bounds(blats, s, minus, plus, degrees, south, north)]
            is_turn(blons, minus, wrap, total, angle) && lat_bounds(
                blats,
                s,
                minus,
                plus,
                degrees,
                south,
                north,
            ) && if angle == -360 {
                g == north_flags(lats, south)
            } else if angle == 360 {
                g == south_flags(lats, north)
            } else if angle == 0 {
                no_pole(g, blons, blats, lons, lats, s, south, north, minus, plus, spread, degrees)
            } else {
                g == Seq::new(lons.len(), |i: int| true)
            };
        lemma_one_turn(blons, minus, wrap, total, spread, a1, a2);
        lemma_lat_bounds_grow(blats, r, s, minus, plus, spread, degrees, s1, n1, s2, n2);
        if a1 == 0 {
            let (w1, e1) = choose|west: F64, east: F64|
                #![trigger
                    is_west(blons, blats, r, minus, spread, degrees, west),
                    is_east(blons, blats, r, plus, spread, degrees, east)]
                is_west(blons, blats, r, minus, spread, degrees, west) && is_east(
                    blons,
                    blats,
                    r,
                    plus,
                    spread,
                    degrees,
                    east,
                ) && f == region_flags(
                    lons,
                    lats,
                    s1,
                    n1,
                    west,
                    east,
                    crosses_date_line(blons),
                );
            let (w2, e2) = choose|west: F64, east: F64|
                #![trigger
                    is_west(blons, blats, s, minus, spread, degrees, west),
                    is_east(blons, blats, s, plus, spread, degrees, east)]
                is_west(blons, blats, s, minus, spread, degrees, west) && is_east(
                    blons,
                    blats,
                    s,
                    plus,
                    spread,
                    degrees,
                    east,
                ) && g == region_flags(
                    lons,
                    lats,
                    s2,
                    n2,
                    west,
                    east,
                    crosses_date_line(blons),
                );
            lemma_sides_grow(
                blons,
                blats,
                r,
                s,
                minus,
                plus,
                wrap,
                total,
                spread,
                degrees,
                w1,
                e1,
                w2,
                e2,
            );
        }
    }
}

/// All values of a boundary that is accepted are finite.
proof fn lemma_all_finite(b: BoundaryView)
    requires
        boundary_error(b) is None,
    ensures
        side_finite(b.all()),
{
    let all = b.all();
    let x = b.side1.len();
    let y = x + b.side2.len();
    let z = y + b.side3.len();
    assert forall|i: int| 0 <= i < all.len() implies (#[trigger] all[i]).finite() by {
        if i < x {
            assert(all[i] == b.side1[i]);
        } else if i < y {
            assert(all[i] == b.side2[i - x]);
        } else if i < z {
            assert(all[i] == b.side3[i - y]);
        } else {
            assert(all[i] == b.side4[i - z]);
        }
    }
}

/// Where no value of a boundary lies outside two bounds, none of its second and fourth sides
/// does.
proof fn lemma_sides_inside(b: BoundaryView, low: F64, high: F64)
    requires
        !some_outside(b.all(), low, high),
    ensures
        !some_outside(b.side2, low, high),
        !some_outside(b.side4, low, high),
{
    let all = b.all();
    let x = b.side1.len();
    let z = x + b.side2.len() + b.side3.len();
    if some_outside(b.side2, low, high) {
        let i = choose|i: int|
            0 <= i < b.side2.len() && ((#[trigger] b.side2[i]).less(low) || high.less(b.side2[i]));
        assert(all[x + i] == b.side2[i]);
    }
    if some_outside(b.side4, low, high) {
        let i = choose|i: int|
            0 <= i < b.side4.len() && ((#[trigger] b.side4[i]).less(low) || high.less(b.side4[i]));
        assert(all[z + i] == b.side4[i]);
    }
}

/// A longer radius moves the west and the east side of a region no less.
proof fn lemma_sides_grow<
    M: Fn(F64, F64) -> F64,
    P: Fn(F64, F64) -> F64,
    W: Fn(F64) -> F64,
    T: Fn(Vec<F64>) -> F64,
    S: Fn(F64) -> F64,
    D: Fn(F64, F64) -> F64,
>(
    blons: BoundaryView,
    blats: BoundaryView,
    r: F64,
    s: F64,
    minus: M,
    plus: P,
    wrap: W,
    total: T,
    spread: S,
    degrees: D,
    west: F64,
    east: F64,
    wider_west: F64,
    wider_east: F64,
)
    requires
        one_result_each(minus, wrap, total, spread),
        keeps_order(minus, plus, spread, degrees),
        boundary_error(blons) is None,
        boundary_error(blats) is None,
        !illegal(blons, blats),
        r.finite() && s.finite() && (F64 { bits: 0 }).at_most(r) && r.at_most(s),
        is_west(blons, blats, r, minus, spread, degrees, west),
        is_east(blons, blats, r, plus, spread, degrees, east),
        is_west(blons, blats, s, minus, spread, degrees, wider_west),
        is_east(blons, blats, s, plus, spread, degrees, wider_east),
    ensures
        wider_west.at_most(west),
        east.at_most(wider_east),
{
    lemma_sides_inside(
        blats,
        F64 { bits: MINUS_QUARTER_CIRCLE },
        F64 { bits: QUARTER_CIRCLE },
    );
    let (l1, m1) = choose|least: F64, margin: F64| #[trigger]
        minus.ensures((least, margin), west) && is_least(blons.side4, least) && is_lon_margin(
            blats.side4,
            r,
            spread,
            degrees,
            margin,
        );
    let (l2, m2) = choose|least: F64, margin: F64| #[trigger]
        minus.ensures((least, margin), wider_west) && is_least(blons.side4, least)
            && is_lon_margin(blats.side4, s, spread, degrees, margin);
    lemma_same_least(blons.side4, l1, l2);
    lemma_lon_margin_grows(
        blats.side4,
        r,
        s,
        minus,
        plus,
        wrap,
        total,
        spread,
        degrees,
        m1,
        m2,
    );
    let (g1, k1) = choose|greatest: F64, margin: F64| #[trigger]
        plus.ensures((greatest, margin), east) && is_greatest(blons.side2, greatest)
            && is_lon_margin(blats.side2, r, spread, degrees, margin);
    let (g2, k2) = choose|greatest: F64, margin: F64| #[trigger]
        plus.ensures((greatest, margin), wider_east) && is_greatest(blons.side2, greatest)
            && is_lon_margin(blats.side2, s, spread, degrees, margin);
    lemma_same_least(blons.side2, g1, g2);
    lemma_lon_margin_grows(
        blats.side2,
        r,
        s,
        minus,
        plus,
        wrap,
        total,
        spread,
        degrees,
        k1,
        k2,
    );
}

/// The bits of the angles are those of 180, 90, -180 and -90 degrees, those of the radius of
/// the earth are 6370997 metres.
pub proof fn lemma_angles()
    ensures
        (F64 { bits: HALF_CIRCLE }).signed_numerator() == 180 * (F64 {
            bits: HALF_CIRCLE,
        }).denominator(),
        (F64 { bits: QUARTER_CIRCLE }).signed_numerator() == 90 * (F64 {
            bits: QUARTER_CIRCLE,
        }).denominator(),
        (F64 { bits: MINUS_HALF_CIRCLE }).signed_numerator() == -180 * (F64 {
            bits: MINUS_HALF_CIRCLE,
        }).denominator(),
        (F64 { bits: MINUS_QUARTER_CIRCLE }).signed_numerator() == -90 * (F64 {
            bits: MINUS_QUARTER_CIRCLE,
        }).denominator(),
        (F64 { bits: EARTH_RADIUS }).signed_numerator() == 6370997 * (F64 {
            bits: EARTH_RADIUS,
        }).denominator(),
        (F64 { bits: EPSILON }).signed_numerator() * 4503599627370496 == (F64 {
            bits: EPSILON,
        }).denominator(),
{
    lemma2_to64();
    lemma2_to64_rest();
    assert(pow2(104) == 4503599627370496 * 4503599627370496) by {
        vstd::arithmetic::power2::lemma_pow2_adds(52, 52);
    }
}

/// Whether a value is one of a boundary.
pub open spec fn lies_on(b: BoundaryView, v: F64) -> bool {
    b.side1.contains(v) || b.side2.contains(v) || b.side3.contains(v) || b.side4.contains(v)
}

/// Whether a way is the one from a longitude to the next: the difference of the two, or its
/// way around the globe where it is more than half of it.
pub open spec fn is_way<M: Fn(F64, F64) -> F64, W: Fn(F64) -> F64>(
    from: F64,
    to: F64,
    way: F64,
    minus: M,
    wrap: W,
) -> bool {
    exists|raw: F64| #[trigger]
        minus.ensures((to, from), raw) && (if !raw.nan() && raw.magnitude()
            > HALF_CIRCLE {
            wrap.ensures((raw,), way)
        } else {
            way == raw
        })
}

/// Whether `all` is how far a boundary turns: the sum of the sums of the ways along its sides.
pub open spec fn turns_by<M: Fn(F64, F64) -> F64, W: Fn(F64) -> F64, T: Fn(Vec<F64>) -> F64>(
    b: BoundaryView,
    ways: Seq<Seq<F64>>,
    sums: Seq<F64>,
    all: F64,
    minus: M,
    wrap: W,
    total: T,
) -> bool {
    let sides = seq![b.side1, b.side2, b.side3, b.side4];
    &&& ways.len() == 4
    &&& sums.len() == 4
    &&& forall|k: int|
        0 <= k < 4 ==> (#[trigger] ways[k]).len() == sides[k].len() - 1 && folds(
            total,
            ways[k],
            sums[k],
        )
    &&& forall|k: int, i: int|
        0 <= k < 4 && 0 <= i < sides[k].len() - 1 ==> is_way(
            sides[k][i],
            sides[k][i + 1],
            #[trigger] ways[k][i],
            minus,
            wrap,
        )
    &&& folds(total, sums, all)
}

/// Whether a boundary lies on the globe: all its longitudes are from -180 to 180 degrees and
/// all its latitudes from -90 to 90 degrees.
pub open spec fn on_globe(lons: BoundaryView, lats: BoundaryView) -> bool {
    &&& forall|v: F64| #[trigger]
        lies_on(lons, v) ==> !(F64 { bits: HALF_CIRCLE }).less(v) && !v.less(
            F64 { bits: MINUS_HALF_CIRCLE },
        )
    &&& forall|v: F64| #[trigger]
        lies_on(lats, v) ==> !(F64 { bits: QUARTER_CIRCLE }).less(v) && !v.less(
            F64 { bits: MINUS_QUARTER_CIRCLE },
        )
}

/// Whether a longitude is widened by `margin` at the latitudes of a side: by nothing without
/// a radius, and without end where the circle of the largest latitude is a point.
pub open spec fn widens<S: Fn(F64) -> F64, D: Fn(F64, F64) -> F64>(
    side: Seq<F64>,
    radius: F64,
    margin: F64,
    spread: S,
    degrees: D,
) -> bool {
    if radius.magnitude() == 0 {
        margin.bits == 0
    } else {
        exists|j: int, circle: F64|
            0 <= j < side.len() && #[trigger] spread.ensures((#[trigger] side[j].abs(),), circle)
                && (forall|i: int| 0 <= i < side.len() ==> (#[trigger] side[i]).magnitude()
                <= side[j].magnitude()) && (if !circle.nan() && circle.magnitude() <= EPSILON {
                margin.bits == INFINITE_64
            } else {
                degrees.ensures((radius, circle), margin)
            })
    }
}

/// What a region keeps of some positions. `least` and `greatest` are the bounds of the
/// latitudes on its boundary, `south` and `north` these bounds widened, `west` and `east` the
/// widened longitudes of its west and its east side.
pub open spec fn keeps_region<
    M: Fn(F64, F64) -> F64,
    P: Fn(F64, F64) -> F64,
    S: Fn(F64) -> F64,
    D: Fn(F64, F64) -> F64,
>(
    flags: Seq<bool>,
    blons: BoundaryView,
    blats: BoundaryView,
    lons: Seq<F64>,
    lats: Seq<F64>,
    radius: F64,
    all: F64,
    bounds: RegionBounds,
    minus: M,
    plus: P,
    spread: S,
    degrees: D,
) -> bool {
    let turn = if all.finite() {
        all.rounded()
    } else if all.nan() {
        0
    } else {
        1
    };
    let k = bounds;
    &&& lies_on(blats, k.least) && lies_on(blats, k.greatest)
    &&& forall|v: F64| #[trigger]
        lies_on(blats, v) ==> k.least.rank() <= v.rank() <= k.greatest.rank()
    &&& degrees.ensures((radius, F64 { bits: EARTH_RADIUS }), k.margin)
    &&& minus.ensures((k.least, k.margin), k.south)
    &&& plus.ensures((k.greatest, k.margin), k.north)
    &&& turn == -360 ==> forall|i: int|
        0 <= i < lats.len() ==> #[trigger] flags[i] == (lats[i].finite() && k.south.at_most(
            lats[i],
        ))
    &&& turn == 360 ==> forall|i: int|
        0 <= i < lats.len() ==> #[trigger] flags[i] == (lats[i].finite() && lats[i].at_most(
            k.north,
        ))
    &&& turn != 0 && turn != 360 && turn != -360 ==> forall|i: int|
        0 <= i < lats.len() ==> #[trigger] flags[i]
    &&& turn == 0 ==> {
        &&& blons.side4.contains(k.first)
        &&& forall|i: int|
            0 <= i < blons.side4.len() ==> k.first.rank() <= (#[trigger] blons.side4[i]).rank()
        &&& blons.side2.contains(k.last)
        &&& forall|i: int|
            0 <= i < blons.side2.len() ==> (#[trigger] blons.side2[i]).rank() <= k.last.rank()
        &&& widens(blats.side4, radius, k.west_margin, spread, degrees)
        &&& widens(blats.side2, radius, k.east_margin, spread, degrees)
        &&& minus.ensures((k.first, k.west_margin), k.west)
        &&& plus.ensures((k.last, k.east_margin), k.east)
        &&& forall|i: int|
            0 <= i < lats.len() ==> #[trigger] flags[i] == {
                &&& lons[i].finite() && lats[i].finite()
                &&& k.south.at_most(lats[i]) && lats[i].at_most(k.north)
                &&& if k.crosses {
                    (k.west.at_most(lons[i]) && lons[i].at_most(F64 { bits: HALF_CIRCLE })) || (
                    lons[i].at_most(k.east) && (F64 { bits: MINUS_HALF_CIRCLE }).at_most(lons[i]))
                } else {
                    k.west.at_most(lons[i]) && lons[i].at_most(k.east)
                }
            }
        &&& k.crosses == (exists|i: int, j: int|
            0 <= i < blons.side2.len() && 0 <= j < blons.side4.len()
                && (#[trigger] blons.side2[i]).rank() <= (#[trigger] blons.side4[j]).rank())
    }
}

/// The bounds of a region and what they are made of.
pub struct RegionBounds {
    pub least: F64,
    pub greatest: F64,
    pub margin: F64,
    pub south: F64,
    pub north: F64,
    pub first: F64,
    pub last: F64,
    pub west_margin: F64,
    pub east_margin: F64,
    pub west: F64,
    pub east: F64,
    pub crosses: bool,
}

proof fn lemma_on_boundary(b: BoundaryView, v: F64)
    ensures
        b.all().contains(v) <==> lies_on(b, v),
{
    let (p, q, r, s) = (b.side1, b.side2, b.side3, b.side4);
    let all = b.all();
    if p.contains(v) {
        let i = choose|i: int| 0 <= i < p.len() && p[i] == v;
        assert(all[i] == v);
    }
    if q.contains(v) {
        let i = choose|i: int| 0 <= i < q.len() && q[i] == v;
        assert(all[p.len() + i] == v);
    }
    if r.contains(v) {
        let i = choose|i: int| 0 <= i < r.len() && r[i] == v;
        assert(all[p.len() + q.len() + i] == v);
    }
    if s.contains(v) {
        let i = choose|i: int| 0 <= i < s.len() && s[i] == v;
        assert(all[p.len() + q.len() + r.len() + i] == v);
    }
    if all.contains(v) {
        let i = choose|i: int| 0 <= i < all.len() && all[i] == v;
        if i < p.len() {
            assert(p[i] == v);
        } else if i < p.len() + q.len() {
            assert(q[i - p.len()] == v);
        } else if i < p.len() + q.len() + r.len() {
            assert(r[i - p.len() - q.len()] == v);
        } else {
            assert(s[i - p.len() - q.len() - r.len()] == v);
        }
    }
}

proof fn lemma_margin_widens<S: Fn(F64) -> F64, D: Fn(F64, F64) -> F64>(
    side: Seq<F64>,
    radius: F64,
    spread: S,
    degrees: D,
    margin: F64,
)
    requires
        is_lon_margin(side, radius, spread, degrees, margin),
        side_finite(side),
        radius.finite(),
    ensures
        widens(side, radius, margin, spread, degrees),
{
    if radius.magnitude() != 0 {
        let (widest, circle) = choose|widest: F64, circle: F64| #[trigger]
            spread.ensures((widest,), circle) && is_widest(side, widest)
                && if circle.abs().at_most(F64 { bits: EPSILON }) {
                margin == (F64 { bits: INFINITE_64 })
            } else {
                degrees.ensures((radius, circle), margin)
            };
        let j = choose|i: int| 0 <= i < side.len() && widest == (#[trigger] side[i]).abs();
        assert(side[j].abs() == widest);
        assert forall|i: int| 0 <= i < side.len() implies (#[trigger] side[i]).magnitude()
            <= side[j].magnitude() by {
            assert(side[i].abs().at_most(widest));
        }
        assert(spread.ensures((side[j].abs(),), circle));
    }
}

/// Data reduction by a region: a boundary off the globe leaves nothing out. One that turns by
/// -360 degrees goes around the north pole and keeps what is not south of its widened southern
/// bound; one that turns by 360 degrees goes around the south pole and keeps what is not north
/// of its widened northern bound; one that does not turn keeps what lies between its widened
/// bounds; another one leaves nothing out.
pub proof fn lemma_region_is_kept<
    M: Fn(F64, F64) -> F64,
    P: Fn(F64, F64) -> F64,
    W: Fn(F64) -> F64,
    T: Fn(Vec<F64>) -> F64,
    S: Fn(F64) -> F64,
    D: Fn(F64, F64) -> F64,
>(
    r: Result<Vec<bool>>,
    blons: BoundaryView,
    blats: BoundaryView,
    lons: Seq<F64>,
    lats: Seq<F64>,
    radius: F64,
    minus: M,
    plus: P,
    wrap: W,
    total: T,
    spread: S,
    degrees: D,
) -> (out: (Seq<Seq<F64>>, Seq<F64>, F64, RegionBounds))
    requires
        valid_outcome(
            r,
            blons,
            blats,
            lons,
            lats,
            radius,
            minus,
            plus,
            wrap,
            total,
            spread,
            degrees,
        ),
        r is Ok,
        boundary_error(blons) is None,
        boundary_error(blats) is None,
    ensures
        lons.len() == lats.len(),
        r->Ok_0@.len() == lats.len(),
        !on_globe(blons, blats) ==> forall|i: int| 0 <= i < lats.len() ==> #[trigger] r->Ok_0@[i],
        on_globe(blons, blats) ==> turns_by(blons, out.0, out.1, out.2, minus, wrap, total)
            && keeps_region(
            r->Ok_0@,
            blons,
            blats,
            lons,
            lats,
            radius,
            out.2,
            out.3,
            minus,
            plus,
            spread,
            degrees,
        ),
{
    let flags = r->Ok_0@;
    lemma_all_finite(blons);
    lemma_all_finite(blats);
    assert(illegal(blons, blats) == !on_globe(blons, blats)) by {
        if illegal(blons, blats) {
            if some_outside(blons.all(), F64 { bits: MINUS_HALF_CIRCLE }, F64 { bits: HALF_CIRCLE }) {
                let i = choose|i: int|
                    0 <= i < blons.all().len() && ((#[trigger] blons.all()[i]).less(
                        F64 { bits: MINUS_HALF_CIRCLE },
                    ) || (F64 { bits: HALF_CIRCLE }).less(blons.all()[i]));
                lemma_on_boundary(blons, blons.all()[i]);
                assert(lies_on(blons, blons.all()[i]));
            } else {
                let i = choose|i: int|
                    0 <= i < blats.all().len() && ((#[trigger] blats.all()[i]).less(
                        F64 { bits: MINUS_QUARTER_CIRCLE },
                    ) || (F64 { bits: QUARTER_CIRCLE }).less(blats.all()[i]));
                lemma_on_boundary(blats, blats.all()[i]);
                assert(lies_on(blats, blats.all()[i]));
            }
        }
        if !on_globe(blons, blats) {
            if exists|v: F64| #[trigger]
                lies_on(blons, v) && ((F64 { bits: HALF_CIRCLE }).less(v) || v.less(
                    F64 { bits: MINUS_HALF_CIRCLE },
                )) {
                let v = choose|v: F64| #[trigger]
                    lies_on(blons, v) && ((F64 { bits: HALF_CIRCLE }).less(v) || v.less(
                        F64 { bits: MINUS_HALF_CIRCLE },
                    ));
                lemma_on_boundary(blons, v);
                let i = choose|i: int| 0 <= i < blons.all().len() && blons.all()[i] == v;
                assert(blons.all()[i] == v);
            } else {
                let v = choose|v: F64| #[trigger]
                    lies_on(blats, v) && ((F64 { bits: QUARTER_CIRCLE }).less(v) || v.less(
                        F64 { bits: MINUS_QUARTER_CIRCLE },
                    ));
                lemma_on_boundary(blats, v);
                let i = choose|i: int| 0 <= i < blats.all().len() && blats.all()[i] == v;
                assert(blats.all()[i] == v);
            }
        }
    }
    let none = RegionBounds {
        least: radius,
        greatest: radius,
        margin: radius,
        south: radius,
        north: radius,
        first: radius,
        last: radius,
        west_margin: radius,
        east_margin: radius,
        west: radius,
        east: radius,
        crosses: false,
    };
    if illegal(blons, blats) {
        assert forall|i: int| 0 <= i < lats.len() implies #[trigger] flags[i] by {}
        (Seq::empty(), Seq::empty(), radius, none)
    } else {
        let (angle, south, north) = choose|angle: i64, south: F64, north: F64|
            #![trigger
                is_turn(blons, minus, wrap, total, angle),
                lat_bounds(blats, radius, minus, plus, degrees, south, north)]
            is_turn(blons, minus, wrap, total, angle) && lat_bounds(
                blats,
                radius,
                minus,
                plus,
                degrees,
                south,
                north,
            ) && if angle == -360 {
                flags == north_flags(lats, south)
            } else if angle == 360 {
                flags == south_flags(lats, north)
            } else if angle == 0 {
                no_pole(
                    flags,
                    blons,
                    blats,
                    lons,
                    lats,
                    radius,
                    south,
                    north,
                    minus,
                    plus,
                    spread,
                    degrees,
                )
            } else {
                flags == Seq::new(lons.len(), |i: int| true)
            };
        let (sums, all) = choose|sums: Seq<F64>, all: F64|
            #![trigger are_side_sums(blons, minus, wrap, total, sums), folds(total, sums, all)]
            are_side_sums(blons, minus, wrap, total, sums) && folds(total, sums, all) && angle
                == all.rounded_i64();
        let w1 = choose|ways: Seq<F64>| #[trigger]
            are_steps(blons.side1, minus, wrap, ways) && folds(total, ways, sums[0]);
        let w2 = choose|ways: Seq<F64>| #[trigger]
            are_steps(blons.side2, minus, wrap, ways) && folds(total, ways, sums[1]);
        let w3 = choose|ways: Seq<F64>| #[trigger]
            are_steps(blons.side3, minus, wrap, ways) && folds(total, ways, sums[2]);
        let w4 = choose|ways: Seq<F64>| #[trigger]
            are_steps(blons.side4, minus, wrap, ways) && folds(total, ways, sums[3]);
        let ways = seq![w1, w2, w3, w4];
        lemma_turn_of_steps(blons, ways, sums, all, minus, wrap, total);
        let (least, greatest, margin) = choose|least: F64, greatest: F64, margin: F64|
            #![trigger
                minus.ensures((least, margin), south),
                plus.ensures((greatest, margin), north)]
            {
                &&& is_least(blats.all(), least)
                &&& is_greatest(blats.all(), greatest)
                &&& degrees.ensures((radius, F64 { bits: EARTH_RADIUS }), margin)
                &&& minus.ensures((least, margin), south)
                &&& plus.ensures((greatest, margin), north)
            };
        lemma_on_boundary(blats, least);
        lemma_on_boundary(blats, greatest);
        assert forall|v: F64| #[trigger] lies_on(blats, v) implies least.rank() <= v.rank()
            <= greatest.rank() by {
            lemma_on_boundary(blats, v);
            let i = choose|i: int| 0 <= i < blats.all().len() && blats.all()[i] == v;
            assert(least.at_most(blats.all()[i]) && blats.all()[i].at_most(greatest));
        }
        let start = RegionBounds { least, greatest, margin, south, north, ..none };
        if angle == 0 {
            let (west, east) = choose|west: F64, east: F64|
                #![trigger
                    is_west(blons, blats, radius, minus, spread, degrees, west),
                    is_east(blons, blats, radius, plus, spread, degrees, east)]
                {
                    &&& is_west(blons, blats, radius, minus, spread, degrees, west)
                    &&& is_east(blons, blats, radius, plus, spread, degrees, east)
                    &&& flags == region_flags(
                        lons,
                        lats,
                        south,
                        north,
                        west,
                        east,
                        crosses_date_line(blons),
                    )
                };
            let (first, west_margin) = choose|least: F64, margin: F64| #[trigger]
                minus.ensures((least, margin), west) && is_least(blons.side4, least)
                    && is_lon_margin(blats.side4, radius, spread, degrees, margin);
            let (last, east_margin) = choose|greatest: F64, margin: F64| #[trigger]
                plus.ensures((greatest, margin), east) && is_greatest(blons.side2, greatest)
                    && is_lon_margin(blats.side2, radius, spread, degrees, margin);
            lemma_margin_widens(blats.side4, radius, spread, degrees, west_margin);
            lemma_margin_widens(blats.side2, radius, spread, degrees, east_margin);
            lemma_crossing(blons);
            let k = RegionBounds {
                first,
                last,
                west_margin,
                east_margin,
                west,
                east,
                crosses: crosses_date_line(blons),
                ..start
            };
            assert forall|i: int| 0 <= i < blons.side4.len() implies first.rank() <= (
            #[trigger] blons.side4[i]).rank() by {
                assert(first.at_most(blons.side4[i]));
            }
            assert forall|i: int| 0 <= i < blons.side2.len() implies (#[trigger] blons.side2[i]).rank()
                <= last.rank() by {
                assert(blons.side2[i].at_most(last));
            }
            (ways, sums, all, k)
        } else {
            (ways, sums, all, start)
        }
    }
}

proof fn lemma_turn_of_steps<M: Fn(F64, F64) -> F64, W: Fn(F64) -> F64, T: Fn(Vec<F64>) -> F64>(
    b: BoundaryView,
    ways: Seq<Seq<F64>>,
    sums: Seq<F64>,
    all: F64,
    minus: M,
    wrap: W,
    total: T,
)
    requires
        ways.len() == 4,
        sums.len() == 4,
        are_steps(b.side1, minus, wrap, ways[0]) && folds(total, ways[0], sums[0]),
        are_steps(b.side2, minus, wrap, ways[1]) && folds(total, ways[1], sums[1]),
        are_steps(b.side3, minus, wrap, ways[2]) && folds(total, ways[2], sums[2]),
        are_steps(b.side4, minus, wrap, ways[3]) && folds(total, ways[3], sums[3]),
        folds(total, sums, all),
    ensures
        turns_by(b, ways, sums, all, minus, wrap, total),
{
    let sides = seq![b.side1, b.side2, b.side3, b.side4];
    assert forall|k: int, i: int| 0 <= k < 4 && 0 <= i < sides[k].len() - 1 implies is_way(
        sides[k][i],
        sides[k][i + 1],
        #[trigger] ways[k][i],
        minus,
        wrap,
    ) by {
        assert(is_step(sides[k][i], sides[k][i + 1], minus, wrap, ways[k][i]));
        let raw = choose|raw: F64| #[trigger]
            minus.ensures((sides[k][i + 1], sides[k][i]), raw) && if (F64 {
                bits: HALF_CIRCLE,
            }).less(raw.abs()) {
                wrap.ensures((raw,), ways[k][i])
            } else {
                ways[k][i] == raw
            };
        assert(minus.ensures((sides[k][i + 1], sides[k][i]), raw));
    }
}

proof fn lemma_crossing(b: BoundaryView)
    requires
        side_finite(b.side2),
        side_finite(b.side4),
        b.side2.len() > 0,
        b.side4.len() > 0,
    ensures
        crosses_date_line(b) == (exists|i: int, j: int|
            0 <= i < b.side2.len() && 0 <= j < b.side4.len() && (#[trigger] b.side2[i]).rank() <= (
            #[trigger] b.side4[j]).rank()),
{
    if crosses_date_line(b) {
        let (least, greatest) = choose|least: F64, greatest: F64| #[trigger]
            least.at_most(greatest) && is_least(b.side2, least) && is_greatest(b.side4, greatest);
        let i = choose|i: int| 0 <= i < b.side2.len() && b.side2[i] == least;
        let j = choose|j: int| 0 <= j < b.side4.len() && b.side4[j] == greatest;
        assert(b.side2[i].rank() <= b.side4[j].rank());
    }
    if exists|i: int, j: int|
        0 <= i < b.side2.len() && 0 <= j < b.side4.len() && (#[trigger] b.side2[i]).rank() <= (
        #[trigger] b.side4[j]).rank() {
        let (i, j) = choose|i: int, j: int|
            0 <= i < b.side2.len() && 0 <= j < b.side4.len() && (#[trigger] b.side2[i]).rank() <= (
            #[trigger] b.side4[j]).rank();
        let least = lemma_has_least(b.side2);
        let greatest = lemma_has_greatest(b.side4);
        assert(least.at_most(b.side2[i]));
        assert(b.side4[j].at_most(greatest));
        assert(least.at_most(greatest));
    }
}

proof fn lemma_has_least(list: Seq<F64>) -> (v: F64)
    requires
        list.len() > 0,
        side_finite(list),
    ensures
        is_least(list, v),
    decreases list.len(),
{
    if list.len() == 1 {
        list[0]
    } else {
        let rest = list.drop_last();
        assert forall|i: int| 0 <= i < rest.len() implies (#[trigger] rest[i]).finite() by {
            assert(list[i].finite());
        }
        let v = lemma_has_least(rest);
        let k = choose|k: int| 0 <= k < rest.len() && rest[k] == v;
        assert(list[k] == v && v.finite() && list.last().finite());
        let w = if list.last().rank() < v.rank() {
            list.last()
        } else {
            v
        };
        assert forall|i: int| 0 <= i < list.len() implies w.at_most(#[trigger] list[i]) by {
            if i < rest.len() {
                assert(v.at_most(rest[i]));
            }
        }
        assert(list[list.len() - 1] == list.last());
        w
    }
}

proof fn lemma_has_greatest(list: Seq<F64>) -> (v: F64)
    requires
        list.len() > 0,
        side_finite(list),
    ensures
        is_greatest(list, v),
    decreases list.len(),
{
    if list.len() == 1 {
        list[0]
    } else {
        let rest = list.drop_last();
        assert forall|i: int| 0 <= i < rest.len() implies (#[trigger] rest[i]).finite() by {
            assert(list[i].finite());
        }
        let v = lemma_has_greatest(rest);
        let k = choose|k: int| 0 <= k < rest.len() && rest[k] == v;
        assert(list[k] == v && v.finite() && list.last().finite());
        let w = if list.last().rank() > v.rank() {
            list.last()
        } else {
            v
        };
        assert forall|i: int| 0 <= i < list.len() implies (#[trigger] list[i]).at_most(w) by {
            if i < rest.len() {
                assert(rest[i].at_most(v));
            }
        }
        assert(list[list.len() - 1] == list.last());
        w
    }
}

/// No point of a region itself is dropped. Where its boundary turns by -360 degrees, around
/// the north pole, each position whose latitude is not below the greatest one of the boundary
/// is kept; where it turns by 360 degrees, around the south pole, each whose latitude is not
/// above the least one. No position beyond the widened bound on the other side is kept.
/// Widening a bound must not move it inwards.
pub proof fn lemma_polar_points_are_kept<
    M: Fn(F64, F64) -> F64,
    P: Fn(F64, F64) -> F64,
    W: Fn(F64) -> F64,
    T: Fn(Vec<F64>) -> F64,
    S: Fn(F64) -> F64,
    D: Fn(F64, F64) -> F64,
>(
    r: Result<Vec<bool>>,
    blons: BoundaryView,
    blats: BoundaryView,
    lons: Seq<F64>,
    lats: Seq<F64>,
    radius: F64,
    ways: Seq<Seq<F64>>,
    sums: Seq<F64>,
    all: F64,
    minus: M,
    plus: P,
    wrap: W,
    total: T,
    spread: S,
    degrees: D,
    i: int,
)
    requires
        valid_outcome(
            r,
            blons,
            blats,
            lons,
            lats,
            radius,
            minus,
            plus,
            wrap,
            total,
            spread,
            degrees,
        ),
        r is Ok,
        boundary_error(blons) is None,
        boundary_error(blats) is None,
        one_result_each(minus, wrap, total, spread),
        turns_by(blons, ways, sums, all, minus, wrap, total),
        forall|v: F64, m: F64, s: F64| #[trigger]
            minus.ensures((v, m), s) && lies_on(blats, v) && degrees.ensures(
                (radius, F64 { bits: EARTH_RADIUS }),
                m,
            ) ==> s.at_most(v),
        forall|v: F64, m: F64, s: F64| #[trigger]
            plus.ensures((v, m), s) && lies_on(blats, v) && degrees.ensures(
                (radius, F64 { bits: EARTH_RADIUS }),
                m,
            ) ==> v.at_most(s),
        0 <= i < lats.len(),
        lats[i].finite(),
        all.finite(),
    ensures
        all.rounded() == -360 && (forall|v: F64| #[trigger] lies_on(blats, v) ==> v.at_most(lats[i]))
            ==> r->Ok_0@[i],
        all.rounded() == 360 && (forall|v: F64| #[trigger] lies_on(blats, v) ==> lats[i].at_most(v))
            ==> r->Ok_0@[i],
        on_globe(blons, blats) && all.rounded() == -360 && r->Ok_0@[i] ==> exists|v: F64, m: F64, s: F64|
            #[trigger] minus.ensures((v, m), s) && lies_on(blats, v) && degrees.ensures(
                (radius, F64 { bits: EARTH_RADIUS }),
                m,
            ) && s.at_most(lats[i]),
        on_globe(blons, blats) && all.rounded() == 360 && r->Ok_0@[i] ==> exists|v: F64, m: F64, s: F64|
            #[trigger] plus.ensures((v, m), s) && lies_on(blats, v) && degrees.ensures(
                (radius, F64 { bits: EARTH_RADIUS }),
                m,
            ) && lats[i].at_most(s),
{
    let (w, s, a, k) = lemma_region_is_kept(
        r,
        blons,
        blats,
        lons,
        lats,
        radius,
        minus,
        plus,
        wrap,
        total,
        spread,
        degrees,
    );
    if on_globe(blons, blats) {
        lemma_one_way_round(blons, ways, w, sums, s, all, a, minus, wrap, total, spread);
        assert(r->Ok_0@[i] == r->Ok_0@[i]);
        assert(minus.ensures((k.least, k.margin), k.south));
        assert(plus.ensures((k.greatest, k.margin), k.north));
        assert(lies_on(blats, k.least) && lies_on(blats, k.greatest));
    }
}

proof fn lemma_one_way_round<
    M: Fn(F64, F64) -> F64,
    W: Fn(F64) -> F64,
    T: Fn(Vec<F64>) -> F64,
    S: Fn(F64) -> F64,
>(
    b: BoundaryView,
    p: Seq<Seq<F64>>,
    q: Seq<Seq<F64>>,
    s: Seq<F64>,
    t: Seq<F64>,
    u: F64,
    v: F64,
    minus: M,
    wrap: W,
    total: T,
    spread: S,
)
    requires
        one_result_each(minus, wrap, total, spread),
        turns_by(b, p, s, u, minus, wrap, total),
        turns_by(b, q, t, v, minus, wrap, total),
    ensures
        u == v,
{
    let sides = seq![b.side1, b.side2, b.side3, b.side4];
    assert forall|k: int| 0 <= k < 4 implies s[k] == t[k] by {
        assert(p[k].len() == sides[k].len() - 1 && q[k].len() == sides[k].len() - 1);
        assert forall|i: int| 0 <= i < p[k].len() implies p[k][i] == q[k][i] by {
            assert(is_way(sides[k][i], sides[k][i + 1], p[k][i], minus, wrap));
            assert(is_way(sides[k][i], sides[k][i + 1], q[k][i], minus, wrap));
        }
        assert(p[k] =~= q[k]);
        assert(folds(total, p[k], s[k]) && folds(total, q[k], t[k]));
    }
    assert(s =~= t);
    assert(folds(total, s, u) && folds(total, t, v));
}

/// The sides of a grid: the first row, the last column, the last row and the first column. The
/// longitudes go round, so the last two run backwards; the latitudes of all run forwards.
pub proof fn lemma_sides_of_grid(height: usize, width: usize, values: Seq<F64>, y: int, x: int)
    requires
        0 <= y < height,
        0 <= x < width,
        values.len() == height * width,
    ensures
        lon_sides(height, width, values).side1.len() == width,
        lon_sides(height, width, values).side2.len() == height,
        lon_sides(height, width, values).side3.len() == width,
        lon_sides(height, width, values).side4.len() == height,
        lon_sides(height, width, values).side1[x] == values[x],
        lon_sides(height, width, values).side2[y] == values[y * width + width - 1],
        lon_sides(height, width, values).side3[x] == values[(height - 1) * width + width - 1 - x],
        lon_sides(height, width, values).side4[y] == values[(height - 1 - y) * width],
        lat_sides(height, width, values).side1[x] == values[x],
        lat_sides(height, width, values).side2[y] == values[y * width + width - 1],
        lat_sides(height, width, values).side3[x] == values[(height - 1) * width + x],
        lat_sides(height, width, values).side4[y] == values[y * width],
{
    lemma_in_grid(0, width - 1, height as int, width as int);
    lemma_in_grid(height - 1, width - 1, height as int, width as int);
    assert((height - 1) * width + width == height * width) by (nonlinear_arith);
    assert(0 * width == 0) by (nonlinear_arith);
}

} // verus!
