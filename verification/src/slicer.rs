//! The part of an area that another one covers.

use crate::area::{area_outcome, AreaDefinition, AreaView};
use crate::crs::{lemma_one_crs_of_map, map_outcome, one_reading, ProjCrs};
use crate::error::{
    agrees, fails_with, is_invalid, same_result, same_shown, ErrorView, Result, RustySatError,
};
use crate::number::F64;
use crate::rounding::{apart, lemma_cast_is_nearest, lemma_floor_and_ceil, reaches};
use core::ops::Range;
use vstd::prelude::*;

verus! {

/// The bits of the least number of 64 bits with a sign, and of the power of two above the
/// greatest.
const LEAST_INDEX: u64 = 0xc3e0_0000_0000_0000;

const GREATEST_INDEX: u64 = 0x43e0_0000_0000_0000;

/// The bits of how far a number may lie from half an index to count as one, 1e-10.
pub const HALF_TOLERANCE: u64 = 0x3ddb_7cdf_d9d7_bdbb;

/// A range of columns and one of rows as mathematical values: the first, and the one
/// after the last.
pub struct SliceView {
    pub x: (usize, usize),
    pub y: (usize, usize),
}

/// What holds of every slice: it has columns and rows.
pub open spec fn slice_ok(s: SliceView) -> bool {
    s.x.0 < s.x.1 && s.y.0 < s.y.1
}

/// A range of columns and one of rows.
#[derive(Debug, PartialEq, Eq)]
pub struct AreaSlice {
    x: Range<usize>,
    y: Range<usize>,
}

impl Clone for AreaSlice {
    fn clone(&self) -> (r: Self)
        ensures
            r@ == self@,
    {
        proof {
            use_type_invariant(self);
        }
        AreaSlice { x: self.x.start..self.x.end, y: self.y.start..self.y.end }
    }
}

impl View for AreaSlice {
    type V = SliceView;

    closed spec fn view(&self) -> SliceView {
        SliceView { x: (self.x.start, self.x.end), y: (self.y.start, self.y.end) }
    }
}

impl AreaSlice {
    #[verifier::type_invariant]
    pub open spec fn inv(&self) -> bool {
        slice_ok(self@)
    }

    pub fn new(x: Range<usize>, y: Range<usize>) -> (r: Result<Self>)
        ensures
            ({
                let s = SliceView { x: (x.start, x.end), y: (y.start, y.end) };
                &&& !slice_ok(s) ==> is_invalid(
                    r,
                    "area slices must have non-empty x and y ranges"@,
                )
                &&& slice_ok(s) ==> r is Ok && r->Ok_0@ == s
            }),
    {
        if x.start >= x.end || y.start >= y.end {
            return Err(
                RustySatError::invalid_input("area slices must have non-empty x and y ranges"),
            );
        }
        Ok(AreaSlice { x, y })
    }

    pub fn x(&self) -> (r: Range<usize>)
        ensures
            (r.start, r.end) == self@.x,
    {
        Range { start: self.x.start, end: self.x.end }
    }

    pub fn y(&self) -> (r: Range<usize>)
        ensures
            (r.start, r.end) == self@.y,
    {
        Range { start: self.y.start, end: self.y.end }
    }

    pub fn width(&self) -> (r: usize)
        ensures
            r == self@.x.1 - self@.x.0,
            r > 0,
    {
        proof {
            use_type_invariant(self);
        }
        self.x.end - self.x.start
    }

    pub fn height(&self) -> (r: usize)
        ensures
            r == self@.y.1 - self@.y.0,
            r > 0,
    {
        proof {
            use_type_invariant(self);
        }
        self.y.end - self.y.start
    }

    /// The height and the width.
    pub fn shape(&self) -> (r: (usize, usize))
        ensures
            r.0 == self@.y.1 - self@.y.0,
            r.1 == self@.x.1 - self@.x.0,
    {
        (self.height(), self.width())
    }

    pub fn copy(&self) -> (r: Self)
        ensures
            r@ == self@,
    {
        proof {
            use_type_invariant(self);
        }
        AreaSlice { x: self.x(), y: self.y() }
    }
}

/// A part of an area as a mathematical value.
#[verifier::ext_equal]
pub struct CropView {
    pub area: AreaView,
    pub slices: SliceView,
}

/// A part of an area, with its place.
#[derive(Debug, PartialEq)]
pub struct AreaCrop {
    source_area: AreaDefinition,
    slices: AreaSlice,
}

impl View for AreaCrop {
    type V = CropView;

    closed spec fn view(&self) -> CropView {
        CropView { area: self.source_area@, slices: self.slices@ }
    }
}

impl Clone for AreaCrop {
    fn clone(&self) -> (r: Self)
        ensures
            r@ == self@,
    {
        AreaCrop {
            source_area: self.source_area.clone(),
            slices: self.slices.clone(),
        }
    }
}

impl AreaCrop {
    pub fn source_area(&self) -> (r: &AreaDefinition)
        ensures
            r@ == self@.area,
    {
        &self.source_area
    }

    pub fn slices(&self) -> (r: &AreaSlice)
        ensures
            r@ == self@.slices,
    {
        &self.slices
    }

    pub fn into_parts(self) -> (r: (AreaDefinition, AreaSlice))
        ensures
            r.0@ == self@.area,
            r.1@ == self@.slices,
    {
        (self.source_area, self.slices)
    }
}

/// The text of the error for two areas with different projections.
pub open spec fn cross_text() -> Seq<char> {
    "cross-projection area slicing before transform backend"@
}

/// Whether `r` says that two projections are the same reference system, or is the first
/// obstacle.
pub open spec fn projections_agree<P: Fn(String) -> Option<(F64, String)>>(
    r: Result<()>,
    source: AreaView,
    target: AreaView,
    read: P,
) -> bool {
    exists|a: Result<ProjCrs>| #[trigger]
        map_outcome(a, source.projection, read) && match a {
            Err(e) => fails_with(r, e@),
            Ok(first) => exists|b: Result<ProjCrs>| #[trigger]
                map_outcome(b, target.projection, read) && match b {
                    Err(e) => fails_with(r, e@),
                    Ok(second) => if first@.params == second@.params {
                        r is Ok
                    } else {
                        fails_with(r, ErrorView::Unsupported(cross_text()))
                    },
                },
        }
}

fn ensure_same_projection<P: Fn(String) -> Option<(F64, String)>>(
    source: &AreaDefinition,
    target: &AreaDefinition,
    read: &P,
) -> (r: Result<()>)
    requires
        forall|s: String| #[trigger] read.requires((s,)),
    ensures
        projections_agree(r, source@, target@, *read),
{
    let first = source.crs(read);
    assert(map_outcome(first, source@.projection, *read));
    let source_crs = match first {
        Ok(crs) => crs,
        Err(e) => {
            return Err(e);
        },
    };
    let second = target.crs(read);
    assert(map_outcome(second, target@.projection, *read));
    let target_crs = match second {
        Ok(crs) => crs,
        Err(e) => {
            return Err(e);
        },
    };
    if source_crs.equivalent_to(&target_crs) {
        return Ok(());
    }
    Err(
        RustySatError::unsupported("cross-projection area slicing before transform backend"),
    )
}

/// Whether the pixels of an area have these sizes.
pub open spec fn sizes_are<Z: Fn(F64, F64, usize) -> F64>(
    a: AreaView,
    pixel_size: Z,
    sx: F64,
    sy: F64,
) -> bool {
    &&& pixel_size.ensures((a.extent[0], a.extent[2], a.width), sx)
    &&& pixel_size.ensures((a.extent[1], a.extent[3], a.height), sy)
}

/// Whether a position is in this column and this row, which need not be whole.
pub open spec fn place_is<C: Fn(F64, F64, F64) -> F64, R: Fn(F64, F64, F64) -> F64>(
    a: AreaView,
    sx: F64,
    sy: F64,
    x: F64,
    y: F64,
    column: C,
    row: R,
    px: F64,
    py: F64,
) -> bool {
    &&& column.ensures((a.extent[0], sx, x), px)
    &&& row.ensures((a.extent[3], sy, y), py)
}

/// Whether `r` is the place of a position among the pixels of an area, or the obstacle.
/// `pixel_size` gives the size of the parts of a range, `column` and `row` the place of a
/// coordinate from the edge and the size of a pixel.
pub open spec fn is_place<
    Z: Fn(F64, F64, usize) -> F64,
    C: Fn(F64, F64, F64) -> F64,
    R: Fn(F64, F64, F64) -> F64,
>(
    r: Result<(F64, F64)>,
    a: AreaView,
    x: F64,
    y: F64,
    pixel_size: Z,
    column: C,
    row: R,
) -> bool {
    exists|sx: F64, sy: F64| #[trigger]
        sizes_are(a, pixel_size, sx, sy) && if sx.at_most(F64 { bits: 0 }) || sy.at_most(
            F64 { bits: 0 },
        ) {
            is_invalid(r, "source pixel sizes must be positive"@)
        } else {
            exists|px: F64, py: F64| #[trigger]
                place_is(a, sx, sy, x, y, column, row, px, py) && if px.finite() && py.finite() {
                    r is Ok && r->Ok_0 == (px, py)
                } else {
                    is_invalid(r, "slice coordinates must be finite"@)
                }
        }
}

fn array_coordinates_from_projection<
    Z: Fn(F64, F64, usize) -> F64,
    C: Fn(F64, F64, F64) -> F64,
    R: Fn(F64, F64, F64) -> F64,
>(source: &AreaDefinition, x: F64, y: F64, pixel_size: &Z, column: &C, row: &R) -> (r: Result<
    (F64, F64),
>)
    requires
        forall|a: F64, b: F64, n: usize| #[trigger] pixel_size.requires((a, b, n)),
        forall|a: F64, b: F64, c: F64| #[trigger] column.requires((a, b, c)),
        forall|a: F64, b: F64, c: F64| #[trigger] row.requires((a, b, c)),
    ensures
        is_place(r, source@, x, y, *pixel_size, *column, *row),
{
    let extent = source.area_extent();
    let sx = pixel_size(extent[0], extent[2], source.width());
    let sy = pixel_size(extent[1], extent[3], source.height());
    assert(sizes_are(source@, *pixel_size, sx, sy));
    if sx.le(F64 { bits: 0 }) || sy.le(F64 { bits: 0 }) {
        return Err(RustySatError::invalid_input("source pixel sizes must be positive"));
    }
    let px = column(extent[0], sx, x);
    let py = row(extent[3], sy, y);
    assert(place_is(source@, sx, sy, x, y, *column, *row, px, py));
    if !px.is_finite() || !py.is_finite() {
        return Err(RustySatError::invalid_input("slice coordinates must be finite"));
    }
    Ok((px, py))
}

/// Half an index is rounded to the even one, another part to the nearest.
pub open spec fn rounded(floor: i64, half: bool, nearest: i64) -> int {
    if half {
        if floor as int % 2 == 0 || floor == i64::MAX {
            floor as int
        } else {
            floor + 1
        }
    } else {
        nearest as int
    }
}

/// Whether a number is one that an index can be.
pub open spec fn index_range(v: F64) -> bool {
    &&& v.finite()
    &&& !v.less(F64 { bits: 0xc3e0_0000_0000_0000 })
    &&& !F64 { bits: 0x43e0_0000_0000_0000 }.less(v)
}

/// Whether `r` is the index nearest to a number, or the obstacle. `excess` gives the part
/// of a number above the integer below it, less a half; what is left may be a little off.
pub open spec fn is_rounded<H: Fn(F64) -> F64>(r: Result<i64>, v: F64, excess: H) -> bool {
    if !index_range(v) {
        is_invalid(r, "slice coordinate is outside finite i64 range"@)
    } else {
        exists|e: F64| #[trigger]
            excess.ensures((v,), e) && r is Ok && r->Ok_0 == rounded(
                v.floor_i64(),
                e.abs().at_most(F64 { bits: HALF_TOLERANCE }),
                v.rounded_i64(),
            )
    }
}

fn py_round_half_even<H: Fn(F64) -> F64>(value: F64, excess: &H) -> (r: Result<i64>)
    requires
        forall|v: F64| #[trigger] excess.requires((v,)),
    ensures
        is_rounded(r, value, *excess),
{
    if !value.is_finite() || value.lt(F64 { bits: LEAST_INDEX }) || (F64 {
        bits: GREATEST_INDEX,
    }).lt(value) {
        return Err(
            RustySatError::invalid_input("slice coordinate is outside finite i64 range"),
        );
    }
    let floor: i64 = value.floor_to_i64();
    let e = excess(value);
    assert(excess.ensures((value,), e));
    if e.absolute().le(F64 { bits: HALF_TOLERANCE }) {
        if is_even(floor) || floor == i64::MAX {
            Ok(floor)
        } else {
            Ok(floor + 1)
        }
    } else {
        Ok(value.round_to_i64())
    }
}

fn is_even(n: i64) -> (r: bool)
    ensures
        r == (n as int % 2 == 0),
{
    assert((n & 1i64 == 0) == (n % 2i64 == 0)) by (bit_vector);
    n & 1 == 0
}

/// A range of indices that begins with `start` and ends before `stop`, cut to those of a
/// side of an area.
pub open spec fn bounded(start: int, stop: int, max_size: usize) -> core::result::Result<
    (usize, usize),
    ErrorView,
> {
    let first = if start < 0 {
        0
    } else {
        start
    };
    let last = if stop < 0 {
        0
    } else if stop > max_size {
        max_size as int
    } else {
        stop
    };
    if max_size > i64::MAX {
        Err(
            ErrorView::InvalidInput(
                "area size out of range: out of range integral type conversion attempted"@,
            ),
        )
    } else if first >= last {
        Err(ErrorView::InvalidInput("areas do not overlap enough to produce a slice"@))
    } else {
        Ok((first as usize, last as usize))
    }
}

/// The range, cut to those indices of a side of an area.
fn bounded_range(start: i64, stop: i64, max_size: usize) -> (r: Result<(usize, usize)>)
    ensures
        agrees(r, bounded(start as int, stop as int, max_size)),
{
    if max_size as u64 > i64::MAX as u64 {
        return Err(
            RustySatError::invalid_input(
                "area size out of range: out of range integral type conversion attempted",
            ),
        );
    }
    let size: i64 = max_size as i64;
    let first: i64 = if start < 0 {
        0
    } else {
        start
    };
    let last: i64 = if stop < 0 {
        0
    } else if stop > size {
        size
    } else {
        stop
    };
    if first >= last {
        return Err(
            RustySatError::invalid_input("areas do not overlap enough to produce a slice"),
        );
    }
    Ok((first as usize, last as usize))
}

/// The index after another one, where there is one.
pub open spec fn after(index: i64) -> int {
    if index == i64::MAX {
        index as int
    } else {
        index + 1
    }
}

/// Whether `r` is the range between two places, both ends included, or the obstacle.
pub open spec fn is_span<H: Fn(F64) -> F64>(
    r: Result<(usize, usize)>,
    from: F64,
    to: F64,
    max_size: usize,
    excess: H,
) -> bool {
    exists|a: Result<i64>| #[trigger]
        is_rounded(a, from, excess) && match a {
            Err(e) => fails_with(r, e@),
            Ok(start) => exists|b: Result<i64>| #[trigger]
                is_rounded(b, to, excess) && match b {
                    Err(e) => fails_with(r, e@),
                    Ok(stop) => agrees(r, bounded(start as int, after(stop), max_size)),
                },
        }
}

/// The range between two places, both ends included.
fn span<H: Fn(F64) -> F64>(from: F64, to: F64, max_size: usize, excess: &H) -> (r:
    Result<(usize, usize)>)
    requires
        forall|v: F64| #[trigger] excess.requires((v,)),
    ensures
        is_span(r, from, to, max_size, *excess),
{
    let a = py_round_half_even(from, excess);
    assert(is_rounded(a, from, *excess));
    let start: i64 = match a {
        Ok(v) => v,
        Err(e) => {
            return Err(e);
        },
    };
    let b = py_round_half_even(to, excess);
    assert(is_rounded(b, to, *excess));
    let stop: i64 = match b {
        Ok(v) => v,
        Err(e) => {
            return Err(e);
        },
    };
    let end: i64 = if stop == i64::MAX {
        stop
    } else {
        stop + 1
    };
    bounded_range(start, end, max_size)
}

/// A number, or the greatest one of its type where it is greater.
pub open spec fn capped(n: int) -> int {
    if n > usize::MAX {
        usize::MAX as int
    } else {
        n
    }
}

/// A range with a length that a factor divides. The end moves out where there is room
/// for it, else the start moves towards zero, and where it is there the end moves in.
pub open spec fn divisible(range: (usize, usize), max_size: usize, factor: usize) -> core::result::Result<
    (usize, usize),
    ErrorView,
> {
    let rem = (range.1 - range.0) % (factor as int);
    let adjustment = factor - rem;
    let (start, end) = if rem == 0 {
        (range.0 as int, range.1 as int)
    } else if capped(capped(range.1 + 1) + rem) < max_size {
        (range.0 as int, capped(range.1 + adjustment))
    } else if range.0 > 0 {
        (
            if range.0 < adjustment {
                0
            } else {
                range.0 - adjustment
            },
            range.1 as int,
        )
    } else {
        (range.0 as int, range.1 - rem)
    };
    if start >= end {
        Err(ErrorView::InvalidInput("shape_divisible_by produced an empty slice"@))
    } else {
        Ok((start as usize, end as usize))
    }
}

fn make_range_divisible(range: (usize, usize), max_size: usize, factor: usize) -> (r: Result<
    (usize, usize),
>)
    requires
        range.0 < range.1,
        factor > 0,
    ensures
        agrees(r, divisible(range, max_size, factor)),
{
    let len: usize = range.1 - range.0;
    let rem: usize = len % factor;
    proof {
        assert(0 <= rem < factor && rem <= len) by (nonlinear_arith)
            requires
                rem == len % factor,
                factor > 0,
        ;
    }
    let mut start: usize = range.0;
    let mut end: usize = range.1;
    if rem != 0 {
        let adjustment: usize = factor - rem;
        if end.saturating_add(1).saturating_add(rem) < max_size {
            end = end.saturating_add(adjustment);
        } else if start > 0 {
            start = start.saturating_sub(adjustment);
        } else {
            end = end.saturating_sub(rem);
        }
    }
    if start >= end {
        return Err(
            RustySatError::invalid_input("shape_divisible_by produced an empty slice"),
        );
    }
    Ok((start, end))
}

/// The ranges with lengths that a factor divides, where one is given.
pub open spec fn fitted(
    x: (usize, usize),
    y: (usize, usize),
    source: AreaView,
    factor: Option<usize>,
) -> core::result::Result<SliceView, ErrorView> {
    match factor {
        None => Ok(SliceView { x, y }),
        Some(f) => if f == 0 {
            Err(ErrorView::InvalidInput("shape_divisible_by must be non-zero"@))
        } else {
            match divisible(x, source.width, f) {
                Err(e) => Err(e),
                Ok(x) => match divisible(y, source.height, f) {
                    Err(e) => Err(e),
                    Ok(y) => Ok(SliceView { x, y }),
                },
            }
        },
    }
}

/// Whether the extent of an area is finite.
pub open spec fn finite_extent(a: AreaView) -> bool {
    a.extent[0].finite() && a.extent[1].finite() && a.extent[2].finite() && a.extent[3].finite()
}

/// Whether `r` is the slice between two corners, or the first obstacle. The first corner
/// is the lower left, the second the upper right one.
pub open spec fn is_cut<H: Fn(F64) -> F64>(
    r: Result<AreaSlice>,
    p: (F64, F64),
    q: (F64, F64),
    source: AreaView,
    factor: Option<usize>,
    excess: H,
) -> bool {
    exists|a: Result<(usize, usize)>| #[trigger]
        is_span(a, p.0, q.0, source.width, excess) && match a {
            Err(e) => fails_with(r, e@),
            Ok(x) => exists|b: Result<(usize, usize)>| #[trigger]
                is_span(b, q.1, p.1, source.height, excess) && match b {
                    Err(e) => fails_with(r, e@),
                    Ok(y) => match fitted(x, y, source, factor) {
                        Err(e) => fails_with(r, e),
                        Ok(s) => r is Ok && r->Ok_0@ == s,
                    },
                },
        }
}

fn cut<H: Fn(F64) -> F64>(
    p: (F64, F64),
    q: (F64, F64),
    source: &AreaDefinition,
    shape_divisible_by: Option<usize>,
    excess: &H,
) -> (r: Result<AreaSlice>)
    requires
        forall|v: F64| #[trigger] excess.requires((v,)),
    ensures
        is_cut(r, p, q, source@, shape_divisible_by, *excess),
{
    let a = span(p.0, q.0, source.width(), excess);
    assert(is_span(a, p.0, q.0, source@.width, *excess));
    let mut x: (usize, usize) = match a {
        Ok(v) => v,
        Err(e) => {
            return Err(e);
        },
    };
    assert(x.0 < x.1);
    let b = span(q.1, p.1, source.height(), excess);
    assert(is_span(b, q.1, p.1, source@.height, *excess));
    let mut y: (usize, usize) = match b {
        Ok(v) => v,
        Err(e) => {
            return Err(e);
        },
    };
    assert(y.0 < y.1);
    match shape_divisible_by {
        Some(factor) => {
            if factor == 0 {
                return Err(RustySatError::invalid_input("shape_divisible_by must be non-zero"));
            }
            x = match make_range_divisible(x, source.width(), factor) {
                Ok(v) => v,
                Err(e) => {
                    return Err(e);
                },
            };
            y = match make_range_divisible(y, source.height(), factor) {
                Ok(v) => v,
                Err(e) => {
                    return Err(e);
                },
            };
        },
        None => {},
    }
    AreaSlice::new(Range { start: x.0, end: x.1 }, Range { start: y.0, end: y.1 })
}

/// Whether `r` is the part of the source that a target covers, or the first obstacle.
pub open spec fn slices_outcome<
    P: Fn(String) -> Option<(F64, String)>,
    Z: Fn(F64, F64, usize) -> F64,
    C: Fn(F64, F64, F64) -> F64,
    R: Fn(F64, F64, F64) -> F64,
    H: Fn(F64) -> F64,
>(
    r: Result<AreaSlice>,
    source: AreaView,
    target: AreaView,
    factor: Option<usize>,
    read: P,
    pixel_size: Z,
    column: C,
    row: R,
    excess: H,
) -> bool {
    exists|c: Result<()>| #[trigger]
        projections_agree(c, source, target, read) && match c {
            Err(e) => fails_with(r, e@),
            Ok(()) => if !finite_extent(target) {
                is_invalid(r, "target area extent must be finite"@)
            } else {
                is_sliced(r, source, target, factor, pixel_size, column, row, excess)
            },
        }
}

/// Whether `r` is the part of the source that a target with the same projection covers,
/// or the first obstacle.
pub open spec fn is_sliced<
    Z: Fn(F64, F64, usize) -> F64,
    C: Fn(F64, F64, F64) -> F64,
    R: Fn(F64, F64, F64) -> F64,
    H: Fn(F64) -> F64,
>(
    r: Result<AreaSlice>,
    source: AreaView,
    target: AreaView,
    factor: Option<usize>,
    pixel_size: Z,
    column: C,
    row: R,
    excess: H,
) -> bool {
    let e = target.extent;
    exists|p: Result<(F64, F64)>| #[trigger]
        is_place(p, source, e[0], e[1], pixel_size, column, row) && match p {
            Err(e) => fails_with(r, e@),
            Ok(lower) => exists|q: Result<(F64, F64)>| #[trigger]
                is_place(q, source, e[2], e[3], pixel_size, column, row) && match q {
                    Err(e) => fails_with(r, e@),
                    Ok(upper) => is_cut(r, lower, upper, source, factor, excess),
                },
        }
}

/// The part of an area that another one with the same projection covers. `read` finds
/// the number in a text and its shortest text; `pixel_size` gives the size of the parts
/// of a range, `column` and `row` the place of a coordinate from the edge and the size of
/// a pixel; `excess` gives the part of a number above the
/// integer below it, less a half.
pub fn get_area_slices<
    P: Fn(String) -> Option<(F64, String)>,
    Z: Fn(F64, F64, usize) -> F64,
    C: Fn(F64, F64, F64) -> F64,
    R: Fn(F64, F64, F64) -> F64,
    H: Fn(F64) -> F64,
>(
    source: &AreaDefinition,
    target: &AreaDefinition,
    read: &P,
    pixel_size: &Z,
    column: &C,
    row: &R,
    excess: &H,
) -> (r: Result<AreaSlice>)
    requires
        forall|s: String| #[trigger] read.requires((s,)),
        forall|a: F64, b: F64, n: usize| #[trigger] pixel_size.requires((a, b, n)),
        forall|a: F64, b: F64, c: F64| #[trigger] column.requires((a, b, c)),
        forall|a: F64, b: F64, c: F64| #[trigger] row.requires((a, b, c)),
        forall|v: F64| #[trigger] excess.requires((v,)),
    ensures
        slices_outcome(
            r,
            source@,
            target@,
            None,
            *read,
            *pixel_size,
            *column,
            *row,
            *excess,
        ),
{
    get_area_slices_with_divisibility(
        source,
        target,
        None,
        read,
        pixel_size,
        column,
        row,
        excess,
    )
}

/// The part of an area that another one covers, with sides that a factor divides.
pub fn get_area_slices_with_divisibility<
    P: Fn(String) -> Option<(F64, String)>,
    Z: Fn(F64, F64, usize) -> F64,
    C: Fn(F64, F64, F64) -> F64,
    R: Fn(F64, F64, F64) -> F64,
    H: Fn(F64) -> F64,
>(
    source: &AreaDefinition,
    target: &AreaDefinition,
    shape_divisible_by: Option<usize>,
    read: &P,
    pixel_size: &Z,
    column: &C,
    row: &R,
    excess: &H,
) -> (r: Result<AreaSlice>)
    requires
        forall|s: String| #[trigger] read.requires((s,)),
        forall|a: F64, b: F64, n: usize| #[trigger] pixel_size.requires((a, b, n)),
        forall|a: F64, b: F64, c: F64| #[trigger] column.requires((a, b, c)),
        forall|a: F64, b: F64, c: F64| #[trigger] row.requires((a, b, c)),
        forall|v: F64| #[trigger] excess.requires((v,)),
    ensures
        slices_outcome(
            r,
            source@,
            target@,
            shape_divisible_by,
            *read,
            *pixel_size,
            *column,
            *row,
            *excess,
        ),
{
    let c = ensure_same_projection(source, target, read);
    assert(projections_agree(c, source@, target@, *read));
    match c {
        Ok(()) => {},
        Err(e) => {
            return Err(e);
        },
    }
    let extent = target.area_extent();
    if !extent[0].is_finite() || !extent[1].is_finite() || !extent[2].is_finite()
        || !extent[3].is_finite() {
        return Err(RustySatError::invalid_input("target area extent must be finite"));
    }
    let p = array_coordinates_from_projection(
        source,
        extent[0],
        extent[1],
        pixel_size,
        column,
        row,
    );
    assert(is_place(
        p,
        source@,
        target@.extent[0],
        target@.extent[1],
        *pixel_size,
        *column,
        *row,
    ));
    let lower = match p {
        Ok(v) => v,
        Err(e) => {
            assert(is_sliced(
                Err::<AreaSlice, RustySatError>(e),
                source@,
                target@,
                shape_divisible_by,
                *pixel_size,
                *column,
                *row,
                *excess,
            ));
            return Err(e);
        },
    };
    let q = array_coordinates_from_projection(
        source,
        extent[2],
        extent[3],
        pixel_size,
        column,
        row,
    );
    assert(is_place(
        q,
        source@,
        target@.extent[2],
        target@.extent[3],
        *pixel_size,
        *column,
        *row,
    ));
    let upper = match q {
        Ok(v) => v,
        Err(e) => {
            assert(is_sliced(
                Err::<AreaSlice, RustySatError>(e),
                source@,
                target@,
                shape_divisible_by,
                *pixel_size,
                *column,
                *row,
                *excess,
            ));
            return Err(e);
        },
    };
    let r = cut(lower, upper, source, shape_divisible_by, excess);
    assert(is_sliced(
        r,
        source@,
        target@,
        shape_divisible_by,
        *pixel_size,
        *column,
        *row,
        *excess,
    ));
    r
}

/// A range that is cut to a side of an area lies in it.
pub proof fn lemma_bounded_inside(start: int, stop: int, max_size: usize)
    ensures
        bounded(start, stop, max_size) matches Ok(range) ==> range.0 < range.1 && range.1
            <= max_size && start <= range.0 && range.1 <= if stop < 0 {
            0
        } else {
            stop
        },
{
}

/// Where there is room, or where the range begins at zero, a fitted range has a length
/// that the factor divides.
pub proof fn lemma_divisible_length(range: (usize, usize), max_size: usize, factor: usize)
    requires
        range.0 < range.1,
        factor > 0,
        range.1 + factor <= usize::MAX,
        range.0 == 0 || range.1 + 1 + (range.1 - range.0) % (factor as int) < max_size || range.0
            >= factor,
    ensures
        divisible(range, max_size, factor) matches Ok(fitted) ==> (fitted.1 - fitted.0) % (
        factor as int) == 0,
{
    let len = range.1 - range.0;
    let f = factor as int;
    let rem = len % f;
    vstd::arithmetic::div_mod::lemma_fundamental_div_mod(len, f);
    let k = len / f;
    assert(0 <= rem < f);
    assert(len + (f - rem) == f * (k + 1)) by (nonlinear_arith)
        requires
            len == f * k + rem,
    ;
    vstd::arithmetic::div_mod::lemma_mod_multiples_basic(k + 1, f);
    vstd::arithmetic::div_mod::lemma_mod_multiples_basic(k, f);
    assert((k + 1) * f == f * (k + 1)) by (nonlinear_arith);
    assert(k * f == f * k) by (nonlinear_arith);
}

/// Whether a slice lies in an area.
pub open spec fn slice_inside(s: SliceView, a: AreaView) -> bool {
    s.x.1 <= a.width && s.y.1 <= a.height
}

/// Whether `extent` is that of a slice of an area. `offset` gives the sum of a number
/// and a multiple of another, `offset_down` their difference.
pub open spec fn extent_is<
    A: Fn(F64, usize, F64) -> F64,
    B: Fn(F64, usize, F64) -> F64,
>(
    a: AreaView,
    s: SliceView,
    sx: F64,
    sy: F64,
    offset: A,
    offset_down: B,
    extent: Seq<F64>,
) -> bool {
    &&& extent.len() == 4
    &&& offset.ensures((a.extent[0], s.x.0, sx), extent[0])
    &&& offset_down.ensures((a.extent[3], s.y.1, sy), extent[1])
    &&& offset.ensures((a.extent[0], s.x.1, sx), extent[2])
    &&& offset_down.ensures((a.extent[3], s.y.0, sy), extent[3])
}

/// Whether `r` is the area of a slice, or the obstacle.
pub open spec fn slice_outcome<
    Z: Fn(F64, F64, usize) -> F64,
    A: Fn(F64, usize, F64) -> F64,
    B: Fn(F64, usize, F64) -> F64,
>(
    r: Result<AreaDefinition>,
    a: AreaView,
    s: SliceView,
    pixel_size: Z,
    offset: A,
    offset_down: B,
) -> bool {
    if !slice_inside(s, a) {
        is_invalid(r, "area slices exceed source shape"@)
    } else {
        exists|sx: F64, sy: F64, extent: Seq<F64>|
            #![trigger
                sizes_are(a, pixel_size, sx, sy),
                extent_is(a, s, sx, sy, offset, offset_down, extent)]
            sizes_are(a, pixel_size, sx, sy) && extent_is(
                a,
                s,
                sx,
                sy,
                offset,
                offset_down,
                extent,
            ) && area_outcome(
                r,
                a.id,
                a.description,
                a.proj_id,
                a.projection,
                (s.y.1 - s.y.0) as usize,
                (s.x.1 - s.x.0) as usize,
                extent,
            )
    }
}

/// The area of a slice.
pub fn slice_area<
    Z: Fn(F64, F64, usize) -> F64,
    A: Fn(F64, usize, F64) -> F64,
    B: Fn(F64, usize, F64) -> F64,
>(
    source: &AreaDefinition,
    slices: &AreaSlice,
    pixel_size: &Z,
    offset: &A,
    offset_down: &B,
) -> (r: Result<AreaDefinition>)
    requires
        forall|a: F64, b: F64, n: usize| #[trigger] pixel_size.requires((a, b, n)),
        forall|a: F64, n: usize, b: F64| #[trigger] offset.requires((a, n, b)),
        forall|a: F64, n: usize, b: F64| #[trigger] offset_down.requires((a, n, b)),
    ensures
        slice_outcome(r, source@, slices@, *pixel_size, *offset, *offset_down),
{
    proof {
        use_type_invariant(slices);
    }
    let x = slices.x();
    let y = slices.y();
    if x.end > source.width() || y.end > source.height() {
        return Err(RustySatError::invalid_input("area slices exceed source shape"));
    }
    let extent = source.area_extent();
    let sx = pixel_size(extent[0], extent[2], source.width());
    let sy = pixel_size(extent[1], extent[3], source.height());
    assert(sizes_are(source@, *pixel_size, sx, sy));
    let cut_extent = [
        offset(extent[0], x.start, sx),
        offset_down(extent[3], y.end, sy),
        offset(extent[0], x.end, sx),
        offset_down(extent[3], y.start, sy),
    ];
    assert(extent_is(source@, slices@, sx, sy, *offset, *offset_down, cut_extent@));
    AreaDefinition::from_parts(
        source.id(),
        source.description(),
        source.proj_id(),
        source.projection().copy(),
        slices.height(),
        slices.width(),
        cut_extent,
    )
}

/// Whether `r` is the area of the part of the source that a target covers, with its
/// place, or the first obstacle.
pub open spec fn crop_outcome<
    P: Fn(String) -> Option<(F64, String)>,
    Z: Fn(F64, F64, usize) -> F64,
    C: Fn(F64, F64, F64) -> F64,
    R: Fn(F64, F64, F64) -> F64,
    H: Fn(F64) -> F64,
    A: Fn(F64, usize, F64) -> F64,
    B: Fn(F64, usize, F64) -> F64,
>(
    r: Result<AreaCrop>,
    source: AreaView,
    target: AreaView,
    factor: Option<usize>,
    read: P,
    pixel_size: Z,
    column: C,
    row: R,
    excess: H,
    offset: A,
    offset_down: B,
) -> bool {
    exists|s: Result<AreaSlice>| #[trigger]
        slices_outcome(
            s,
            source,
            target,
            factor,
            read,
            pixel_size,
            column,
            row,
            excess,
        ) && match s {
            Err(e) => fails_with(r, e@),
            Ok(slices) => exists|a: Result<AreaDefinition>| #[trigger]
                slice_outcome(a, source, slices@, pixel_size, offset, offset_down) && match a {
                    Err(e) => fails_with(r, e@),
                    Ok(area) => r is Ok && r->Ok_0@ == (CropView {
                        area: area@,
                        slices: slices@,
                    }),
                },
        }
}

/// The area of the part of the source that a target covers, with its place.
pub fn crop_source_area<
    P: Fn(String) -> Option<(F64, String)>,
    Z: Fn(F64, F64, usize) -> F64,
    C: Fn(F64, F64, F64) -> F64,
    R: Fn(F64, F64, F64) -> F64,
    H: Fn(F64) -> F64,
    A: Fn(F64, usize, F64) -> F64,
    B: Fn(F64, usize, F64) -> F64,
>(
    source: &AreaDefinition,
    target: &AreaDefinition,
    read: &P,
    pixel_size: &Z,
    column: &C,
    row: &R,
    excess: &H,
    offset: &A,
    offset_down: &B,
) -> (r: Result<AreaCrop>)
    requires
        forall|s: String| #[trigger] read.requires((s,)),
        forall|a: F64, b: F64, n: usize| #[trigger] pixel_size.requires((a, b, n)),
        forall|a: F64, b: F64, c: F64| #[trigger] column.requires((a, b, c)),
        forall|a: F64, b: F64, c: F64| #[trigger] row.requires((a, b, c)),
        forall|v: F64| #[trigger] excess.requires((v,)),
        forall|a: F64, n: usize, b: F64| #[trigger] offset.requires((a, n, b)),
        forall|a: F64, n: usize, b: F64| #[trigger] offset_down.requires((a, n, b)),
    ensures
        crop_outcome(
            r,
            source@,
            target@,
            None,
            *read,
            *pixel_size,
            *column,
            *row,
            *excess,
            *offset,
            *offset_down,
        ),
{
    crop_source_area_with_divisibility(
        source,
        target,
        None,
        read,
        pixel_size,
        column,
        row,
        excess,
        offset,
        offset_down,
    )
}

/// The area of the part of the source that a target covers, with sides that a factor
/// divides.
pub fn crop_source_area_with_divisibility<
    P: Fn(String) -> Option<(F64, String)>,
    Z: Fn(F64, F64, usize) -> F64,
    C: Fn(F64, F64, F64) -> F64,
    R: Fn(F64, F64, F64) -> F64,
    H: Fn(F64) -> F64,
    A: Fn(F64, usize, F64) -> F64,
    B: Fn(F64, usize, F64) -> F64,
>(
    source: &AreaDefinition,
    target: &AreaDefinition,
    shape_divisible_by: Option<usize>,
    read: &P,
    pixel_size: &Z,
    column: &C,
    row: &R,
    excess: &H,
    offset: &A,
    offset_down: &B,
) -> (r: Result<AreaCrop>)
    requires
        forall|s: String| #[trigger] read.requires((s,)),
        forall|a: F64, b: F64, n: usize| #[trigger] pixel_size.requires((a, b, n)),
        forall|a: F64, b: F64, c: F64| #[trigger] column.requires((a, b, c)),
        forall|a: F64, b: F64, c: F64| #[trigger] row.requires((a, b, c)),
        forall|v: F64| #[trigger] excess.requires((v,)),
        forall|a: F64, n: usize, b: F64| #[trigger] offset.requires((a, n, b)),
        forall|a: F64, n: usize, b: F64| #[trigger] offset_down.requires((a, n, b)),
    ensures
        crop_outcome(
            r,
            source@,
            target@,
            shape_divisible_by,
            *read,
            *pixel_size,
            *column,
            *row,
            *excess,
            *offset,
            *offset_down,
        ),
{
    let s = get_area_slices_with_divisibility(
        source,
        target,
        shape_divisible_by,
        read,
        pixel_size,
        column,
        row,
        excess,
    );
    assert(slices_outcome(
        s,
        source@,
        target@,
        shape_divisible_by,
        *read,
        *pixel_size,
        *column,
        *row,
        *excess,
    ));
    let slices = match s {
        Ok(v) => v,
        Err(e) => {
            return Err(e);
        },
    };
    let a = slice_area(source, &slices, pixel_size, offset, offset_down);
    assert(slice_outcome(a, source@, slices@, *pixel_size, *offset, *offset_down));
    match a {
        Ok(source_area) => Ok(AreaCrop { source_area, slices }),
        Err(e) => Err(e),
    }
}

/// Without a factor, the slice of an area between two corners is not empty and lies in
/// the area.
pub proof fn lemma_slice_inside<H: Fn(F64) -> F64>(
    r: Result<AreaSlice>,
    p: (F64, F64),
    q: (F64, F64),
    source: AreaView,
    excess: H,
)
    requires
        is_cut(r, p, q, source, None, excess),
        r is Ok,
    ensures
        slice_ok(r->Ok_0@),
        slice_inside(r->Ok_0@, source),
{
}

/// Whether the parts of a range have one size.
pub open spec fn one_size<Z: Fn(F64, F64, usize) -> F64>(f: Z) -> bool {
    forall|a: F64, b: F64, n: usize, p: F64, q: F64|
        #![trigger f.ensures((a, b, n), p), f.ensures((a, b, n), q)]
        f.ensures((a, b, n), p) && f.ensures((a, b, n), q) ==> p == q
}

/// Whether a coordinate has one place.
pub open spec fn one_coordinate<C: Fn(F64, F64, F64) -> F64>(f: C) -> bool {
    forall|a: F64, b: F64, c: F64, p: F64, q: F64|
        #![trigger f.ensures((a, b, c), p), f.ensures((a, b, c), q)]
        f.ensures((a, b, c), p) && f.ensures((a, b, c), q) ==> p == q
}

/// Whether a number has one excess.
pub open spec fn one_excess<H: Fn(F64) -> F64>(f: H) -> bool {
    forall|v: F64, p: F64, q: F64|
        #![trigger f.ensures((v,), p), f.ensures((v,), q)]
        f.ensures((v,), p) && f.ensures((v,), q) ==> p == q
}

/// Whether an edge with pixels before it has one coordinate.
pub open spec fn one_offset<A: Fn(F64, usize, F64) -> F64>(f: A) -> bool {
    forall|a: F64, n: usize, b: F64, p: F64, q: F64|
        #![trigger f.ensures((a, n, b), p), f.ensures((a, n, b), q)]
        f.ensures((a, n, b), p) && f.ensures((a, n, b), q) ==> p == q
}

/// Whether the handed-in functions of the places of pixels give one result for each argument.
pub open spec fn one_slice_each<
    P: Fn(String) -> Option<(F64, String)>,
    Z: Fn(F64, F64, usize) -> F64,
    C: Fn(F64, F64, F64) -> F64,
    R: Fn(F64, F64, F64) -> F64,
    H: Fn(F64) -> F64,
>(read: P, pixel_size: Z, column: C, row: R, excess: H) -> bool {
    &&& one_reading(read)
    &&& one_size(pixel_size)
    &&& one_coordinate(column)
    &&& one_coordinate(row)
    &&& one_excess(excess)
}

proof fn lemma_one_agreement<P: Fn(String) -> Option<(F64, String)>>(
    a: Result<()>,
    b: Result<()>,
    source: AreaView,
    target: AreaView,
    read: P,
)
    requires
        one_reading(read),
        projections_agree(a, source, target, read),
        projections_agree(b, source, target, read),
    ensures
        same_result(a, b),
{
    let a1 = choose|c: Result<ProjCrs>| #[trigger]
        map_outcome(c, source.projection, read) && match c {
            Err(e) => fails_with(a, e@),
            Ok(first) => exists|d: Result<ProjCrs>| #[trigger]
                map_outcome(d, target.projection, read) && match d {
                    Err(e) => fails_with(a, e@),
                    Ok(second) => if first@.params == second@.params {
                        a is Ok
                    } else {
                        fails_with(a, ErrorView::Unsupported(cross_text()))
                    },
                },
        };
    let b1 = choose|c: Result<ProjCrs>| #[trigger]
        map_outcome(c, source.projection, read) && match c {
            Err(e) => fails_with(b, e@),
            Ok(first) => exists|d: Result<ProjCrs>| #[trigger]
                map_outcome(d, target.projection, read) && match d {
                    Err(e) => fails_with(b, e@),
                    Ok(second) => if first@.params == second@.params {
                        b is Ok
                    } else {
                        fails_with(b, ErrorView::Unsupported(cross_text()))
                    },
                },
        };
    lemma_one_crs_of_map(a1, b1, source.projection, read);
    if let (Ok(first), Ok(other)) = (a1, b1) {
        let a2 = choose|d: Result<ProjCrs>| #[trigger]
            map_outcome(d, target.projection, read) && match d {
                Err(e) => fails_with(a, e@),
                Ok(second) => if first@.params == second@.params {
                    a is Ok
                } else {
                    fails_with(a, ErrorView::Unsupported(cross_text()))
                },
            };
        let b2 = choose|d: Result<ProjCrs>| #[trigger]
            map_outcome(d, target.projection, read) && match d {
                Err(e) => fails_with(b, e@),
                Ok(second) => if other@.params == second@.params {
                    b is Ok
                } else {
                    fails_with(b, ErrorView::Unsupported(cross_text()))
                },
            };
        lemma_one_crs_of_map(a2, b2, target.projection, read);
    }
}

proof fn lemma_one_place<
    Z: Fn(F64, F64, usize) -> F64,
    C: Fn(F64, F64, F64) -> F64,
    R: Fn(F64, F64, F64) -> F64,
>(
    p: Result<(F64, F64)>,
    q: Result<(F64, F64)>,
    a: AreaView,
    x: F64,
    y: F64,
    pixel_size: Z,
    column: C,
    row: R,
)
    requires
        one_size(pixel_size),
        one_coordinate(column),
        one_coordinate(row),
        is_place(p, a, x, y, pixel_size, column, row),
        is_place(q, a, x, y, pixel_size, column, row),
    ensures
        same_result(p, q),
{
}

proof fn lemma_one_span<H: Fn(F64) -> F64>(
    a: Result<(usize, usize)>,
    b: Result<(usize, usize)>,
    from: F64,
    to: F64,
    max_size: usize,
    excess: H,
)
    requires
        one_excess(excess),
        is_span(a, from, to, max_size, excess),
        is_span(b, from, to, max_size, excess),
    ensures
        same_result(a, b),
{
}

proof fn lemma_one_cut<H: Fn(F64) -> F64>(
    r: Result<AreaSlice>,
    s: Result<AreaSlice>,
    p: (F64, F64),
    q: (F64, F64),
    source: AreaView,
    factor: Option<usize>,
    excess: H,
)
    requires
        one_excess(excess),
        is_cut(r, p, q, source, factor, excess),
        is_cut(s, p, q, source, factor, excess),
    ensures
        same_shown(r, s),
{
    assert forall|a: Result<(usize, usize)>, b: Result<(usize, usize)>|
        #![trigger
            is_span(a, p.0, q.0, source.width, excess),
            is_span(b, p.0, q.0, source.width, excess)]
        is_span(a, p.0, q.0, source.width, excess) && is_span(b, p.0, q.0, source.width, excess)
        implies same_result(a, b) by {
        lemma_one_span(a, b, p.0, q.0, source.width, excess);
    }
    assert forall|a: Result<(usize, usize)>, b: Result<(usize, usize)>|
        #![trigger
            is_span(a, q.1, p.1, source.height, excess),
            is_span(b, q.1, p.1, source.height, excess)]
        is_span(a, q.1, p.1, source.height, excess) && is_span(b, q.1, p.1, source.height, excess)
        implies same_result(a, b) by {
        lemma_one_span(a, b, q.1, p.1, source.height, excess);
    }
}

proof fn lemma_one_part<
    Z: Fn(F64, F64, usize) -> F64,
    C: Fn(F64, F64, F64) -> F64,
    R: Fn(F64, F64, F64) -> F64,
    H: Fn(F64) -> F64,
>(
    r: Result<AreaSlice>,
    s: Result<AreaSlice>,
    source: AreaView,
    target: AreaView,
    factor: Option<usize>,
    pixel_size: Z,
    column: C,
    row: R,
    excess: H,
)
    requires
        one_size(pixel_size),
        one_coordinate(column),
        one_coordinate(row),
        one_excess(excess),
        is_sliced(r, source, target, factor, pixel_size, column, row, excess),
        is_sliced(s, source, target, factor, pixel_size, column, row, excess),
    ensures
        same_shown(r, s),
{
    assert forall|x: F64, y: F64, a: Result<(F64, F64)>, b: Result<(F64, F64)>|
        #![trigger
            is_place(a, source, x, y, pixel_size, column, row),
            is_place(b, source, x, y, pixel_size, column, row)]
        is_place(a, source, x, y, pixel_size, column, row) && is_place(
            b,
            source,
            x,
            y,
            pixel_size,
            column,
            row,
        ) implies same_result(a, b) by {
        lemma_one_place(a, b, source, x, y, pixel_size, column, row);
    }
    assert forall|p: (F64, F64), q: (F64, F64)|
        #![trigger
            is_cut(r, p, q, source, factor, excess)]
        is_cut(r, p, q, source, factor, excess) && is_cut(s, p, q, source, factor, excess)
        implies same_shown(r, s) by {
        lemma_one_cut(r, s, p, q, source, factor, excess);
    }
}

/// The part of an area that a target covers is one, where each handed-in function gives one
/// result for each argument.
pub proof fn lemma_one_slice<
    P: Fn(String) -> Option<(F64, String)>,
    Z: Fn(F64, F64, usize) -> F64,
    C: Fn(F64, F64, F64) -> F64,
    R: Fn(F64, F64, F64) -> F64,
    H: Fn(F64) -> F64,
>(
    r: Result<AreaSlice>,
    s: Result<AreaSlice>,
    source: AreaView,
    target: AreaView,
    factor: Option<usize>,
    read: P,
    pixel_size: Z,
    column: C,
    row: R,
    excess: H,
)
    requires
        one_slice_each(read, pixel_size, column, row, excess),
        slices_outcome(r, source, target, factor, read, pixel_size, column, row, excess),
        slices_outcome(s, source, target, factor, read, pixel_size, column, row, excess),
    ensures
        same_shown(r, s),
{
    let c = choose|c: Result<()>| #[trigger]
        projections_agree(c, source, target, read) && match c {
            Err(e) => fails_with(r, e@),
            Ok(()) => if !finite_extent(target) {
                is_invalid(r, "target area extent must be finite"@)
            } else {
                is_sliced(r, source, target, factor, pixel_size, column, row, excess)
            },
        };
    let d = choose|c: Result<()>| #[trigger]
        projections_agree(c, source, target, read) && match c {
            Err(e) => fails_with(s, e@),
            Ok(()) => if !finite_extent(target) {
                is_invalid(s, "target area extent must be finite"@)
            } else {
                is_sliced(s, source, target, factor, pixel_size, column, row, excess)
            },
        };
    lemma_one_agreement(c, d, source, target, read);
    if c is Ok && finite_extent(target) {
        lemma_one_part(r, s, source, target, factor, pixel_size, column, row, excess);
    }
}

/// The area of a slice is one, where each handed-in function gives one result for each
/// argument.
pub proof fn lemma_one_area<
    Z: Fn(F64, F64, usize) -> F64,
    A: Fn(F64, usize, F64) -> F64,
    B: Fn(F64, usize, F64) -> F64,
>(
    r: Result<AreaDefinition>,
    s: Result<AreaDefinition>,
    a: AreaView,
    slice: SliceView,
    pixel_size: Z,
    offset: A,
    offset_down: B,
)
    requires
        one_size(pixel_size),
        one_offset(offset),
        one_offset(offset_down),
        slice_outcome(r, a, slice, pixel_size, offset, offset_down),
        slice_outcome(s, a, slice, pixel_size, offset, offset_down),
    ensures
        same_shown(r, s),
{
    if slice_inside(slice, a) {
        assert forall|sx: F64, sy: F64, e: Seq<F64>, f: Seq<F64>|
            #![trigger
                extent_is(a, slice, sx, sy, offset, offset_down, e),
                extent_is(a, slice, sx, sy, offset, offset_down, f)]
            extent_is(a, slice, sx, sy, offset, offset_down, e) && extent_is(
                a,
                slice,
                sx,
                sy,
                offset,
                offset_down,
                f,
            ) implies e == f by {
            assert(e =~= f);
        }
    }
}

/// A crop is the slice of the target and the area of that slice: where each handed-in
/// function gives one result for each argument, asking for the slice and then for its area
/// gives the same as asking for the crop. The area has the size of the slice and is named as
/// the source.
pub proof fn lemma_crop_is_slice_and_area<
    P: Fn(String) -> Option<(F64, String)>,
    Z: Fn(F64, F64, usize) -> F64,
    C: Fn(F64, F64, F64) -> F64,
    R: Fn(F64, F64, F64) -> F64,
    H: Fn(F64) -> F64,
    A: Fn(F64, usize, F64) -> F64,
    B: Fn(F64, usize, F64) -> F64,
>(
    crop: Result<AreaCrop>,
    slices: Result<AreaSlice>,
    area: Result<AreaDefinition>,
    source: AreaView,
    target: AreaView,
    factor: Option<usize>,
    read: P,
    pixel_size: Z,
    column: C,
    row: R,
    excess: H,
    offset: A,
    offset_down: B,
)
    requires
        one_slice_each(read, pixel_size, column, row, excess),
        one_offset(offset),
        one_offset(offset_down),
        crop_outcome(
            crop,
            source,
            target,
            factor,
            read,
            pixel_size,
            column,
            row,
            excess,
            offset,
            offset_down,
        ),
        crop is Ok,
        slices_outcome(slices, source, target, factor, read, pixel_size, column, row, excess),
        slice_outcome(area, source, crop->Ok_0@.slices, pixel_size, offset, offset_down),
    ensures
        slices is Ok,
        slices->Ok_0@ == crop->Ok_0@.slices,
        area is Ok,
        area->Ok_0@ == crop->Ok_0@.area,
        area->Ok_0@.height == slices->Ok_0@.y.1 - slices->Ok_0@.y.0,
        area->Ok_0@.width == slices->Ok_0@.x.1 - slices->Ok_0@.x.0,
        area->Ok_0@.id == source.id,
        area->Ok_0@.projection == source.projection,
        source.description.len() > 0 ==> area->Ok_0@.description == source.description,
        source.proj_id.len() > 0 ==> area->Ok_0@.proj_id == source.proj_id,
{
    let s = choose|s: Result<AreaSlice>| #[trigger]
        slices_outcome(
            s,
            source,
            target,
            factor,
            read,
            pixel_size,
            column,
            row,
            excess,
        ) && match s {
            Err(e) => fails_with(crop, e@),
            Ok(slices) => exists|a: Result<AreaDefinition>| #[trigger]
                slice_outcome(a, source, slices@, pixel_size, offset, offset_down) && match a {
                    Err(e) => fails_with(crop, e@),
                    Ok(area) => crop is Ok && crop->Ok_0@ == (CropView {
                        area: area@,
                        slices: slices@,
                    }),
                },
        };
    lemma_one_slice(s, slices, source, target, factor, read, pixel_size, column, row, excess);
    let cut = s->Ok_0@;
    let a = choose|a: Result<AreaDefinition>| #[trigger]
        slice_outcome(a, source, cut, pixel_size, offset, offset_down) && match a {
            Err(e) => fails_with(crop, e@),
            Ok(area) => crop is Ok && crop->Ok_0@ == (CropView { area: area@, slices: cut }),
        };
    lemma_one_area(a, area, source, cut, pixel_size, offset, offset_down);
}

/// The index of a place: half an index is rounded to the even one, another place to the nearest
/// index. `e` is what the handed-in function gives for the place.
pub proof fn lemma_index_is_nearest<H: Fn(F64) -> F64>(r: Result<i64>, v: F64, excess: H) -> (e: F64)
    requires
        is_rounded(r, v, excess),
        r is Ok,
    ensures
        v.finite(),
        excess.ensures((v,), e),
        i64::MIN < r->Ok_0 < i64::MAX ==> if e.abs().at_most(F64 { bits: 0x3ddb_7cdf_d9d7_bdbb }) {
            &&& r->Ok_0 as int % 2 == 0
            &&& reaches(v, r->Ok_0 - 1)
            &&& !reaches(v, r->Ok_0 + 1)
        } else {
            forall|m: i64| #[trigger] apart(v, r->Ok_0 as int) <= #[trigger] apart(v, m as int)
        },
{
    let e = choose|e: F64| #[trigger]
        excess.ensures((v,), e) && r is Ok && r->Ok_0 == rounded(
            v.floor_i64(),
            e.abs().at_most(F64 { bits: HALF_TOLERANCE }),
            v.rounded_i64(),
        );
    lemma_floor_and_ceil(v);
    if i64::MIN < r->Ok_0 < i64::MAX && !e.abs().at_most(F64 { bits: HALF_TOLERANCE }) {
        assert forall|m: i64| #[trigger] apart(v, r->Ok_0 as int) <= #[trigger] apart(
            v,
            m as int,
        ) by {
            lemma_cast_is_nearest(v, m);
        }
    }
    e
}

/// A range between two places holds exactly the indices from that of the first place to that
/// of the second that a side has.
pub proof fn lemma_span_holds_indices<H: Fn(F64) -> F64>(
    r: Result<(usize, usize)>,
    from: F64,
    to: F64,
    max_size: usize,
    excess: H,
) -> (ends: (i64, i64))
    requires
        is_span(r, from, to, max_size, excess),
        r is Ok,
    ensures
        is_rounded(Ok(ends.0), from, excess),
        is_rounded(Ok(ends.1), to, excess),
        r->Ok_0.0 < r->Ok_0.1 <= max_size,
        forall|k: int|
            #![trigger apart(from, k)]
            0 <= k < max_size ==> (r->Ok_0.0 <= k < r->Ok_0.1 <==> ends.0 <= k <= ends.1),
{
    let a = choose|a: Result<i64>| #[trigger]
        is_rounded(a, from, excess) && match a {
            Err(e) => fails_with(r, e@),
            Ok(start) => exists|b: Result<i64>| #[trigger]
                is_rounded(b, to, excess) && match b {
                    Err(e) => fails_with(r, e@),
                    Ok(stop) => agrees(r, bounded(start as int, after(stop), max_size)),
                },
        };
    let start = a->Ok_0;
    let b = choose|b: Result<i64>| #[trigger]
        is_rounded(b, to, excess) && match b {
            Err(e) => fails_with(r, e@),
            Ok(stop) => agrees(r, bounded(start as int, after(stop), max_size)),
        };
    assert(a == Ok::<i64, RustySatError>(start));
    assert(b == Ok::<i64, RustySatError>(b->Ok_0));
    (start, b->Ok_0)
}

/// Whether a range becomes one with a length that a factor divides: only one end moves, by
/// less than the factor, and the end moves in only where the start is at zero.
pub open spec fn stretched(to: (usize, usize), from: (usize, usize), max_size: usize, f: usize) -> bool {
    let rem = (from.1 - from.0) % (f as int);
    &&& to.0 < to.1
    &&& to.0 == from.0 || to.1 == from.1
    &&& from.0 - f < to.0 <= from.0
    &&& from.1 - f < to.1 < from.1 + f
    &&& rem == 0 <==> to == from
    &&& to.1 > from.1 <==> rem != 0 && from.1 + 1 + rem < max_size
    &&& to.1 < from.1 <==> rem != 0 && from.1 + 1 + rem >= max_size && from.0 == 0
    &&& to.0 == 0 && from.0 > 0 || (to.1 - to.0) % (f as int) == 0
}

/// A range that is made divisible is a stretched one.
pub proof fn lemma_divisible_is_stretched(range: (usize, usize), max_size: usize, f: usize)
    requires
        range.0 < range.1 <= max_size,
        f > 0,
        range.1 + f <= usize::MAX,
    ensures
        divisible(range, max_size, f) matches Ok(to) ==> stretched(to, range, max_size, f),
        divisible(range, max_size, f) is Err ==> range.0 == 0 && range.1 < f && range.1 + 1
            + range.1 >= max_size,
{
    let rem = (range.1 - range.0) % (f as int);
    let n = range.1 - range.0;
    assert(0 <= rem < f && rem <= n) by (nonlinear_arith)
        requires
            rem == n % (f as int),
            n > 0,
            f > 0,
    ;
    let q = n / (f as int);
    assert(n == q * f + rem) by (nonlinear_arith)
        requires
            rem == n % (f as int),
            q == n / (f as int),
            f > 0,
    ;
    vstd::arithmetic::div_mod::lemma_fundamental_div_mod_converse(n - rem, f as int, q, 0);
    assert(n + (f - rem) == (q + 1) * f) by (nonlinear_arith)
        requires
            n == q * f + rem,
    ;
    vstd::arithmetic::div_mod::lemma_fundamental_div_mod_converse(
        n + (f - rem),
        f as int,
        q + 1,
        0,
    );
    if n - rem <= 0 {
        assert(n < f);
        vstd::arithmetic::div_mod::lemma_small_mod(n as nat, f as nat);
    }
}

/// Whether a slice holds the columns and the rows between two places of a plane, the first the
/// lower left, the second the upper right one. `columns` and `rows` are the ranges before a
/// factor is heeded.
pub open spec fn spans<H: Fn(F64) -> F64>(
    s: SliceView,
    lower: (F64, F64),
    upper: (F64, F64),
    source: AreaView,
    factor: Option<usize>,
    excess: H,
    columns: (usize, usize),
    rows: (usize, usize),
) -> bool {
    &&& is_span(Ok(columns), lower.0, upper.0, source.width, excess)
    &&& is_span(Ok(rows), upper.1, lower.1, source.height, excess)
    &&& match factor {
        None => s.x == columns && s.y == rows,
        Some(f) => {
            &&& f > 0
            &&& columns.1 + f <= usize::MAX ==> stretched(s.x, columns, source.width, f)
            &&& rows.1 + f <= usize::MAX ==> stretched(s.y, rows, source.height, f)
        },
    }
}

proof fn lemma_cut_spans<H: Fn(F64) -> F64>(
    r: Result<AreaSlice>,
    lower: (F64, F64),
    upper: (F64, F64),
    source: AreaView,
    factor: Option<usize>,
    excess: H,
) -> (ranges: ((usize, usize), (usize, usize)))
    requires
        is_cut(r, lower, upper, source, factor, excess),
        r is Ok,
    ensures
        spans(r->Ok_0@, lower, upper, source, factor, excess, ranges.0, ranges.1),
{
    let a = choose|a: Result<(usize, usize)>| #[trigger]
        is_span(a, lower.0, upper.0, source.width, excess) && match a {
            Err(e) => fails_with(r, e@),
            Ok(x) => exists|b: Result<(usize, usize)>| #[trigger]
                is_span(b, upper.1, lower.1, source.height, excess) && match b {
                    Err(e) => fails_with(r, e@),
                    Ok(y) => match fitted(x, y, source, factor) {
                        Err(e) => fails_with(r, e),
                        Ok(s) => r is Ok && r->Ok_0@ == s,
                    },
                },
        };
    let columns = a->Ok_0;
    let b = choose|b: Result<(usize, usize)>| #[trigger]
        is_span(b, upper.1, lower.1, source.height, excess) && match b {
            Err(e) => fails_with(r, e@),
            Ok(y) => match fitted(columns, y, source, factor) {
                Err(e) => fails_with(r, e),
                Ok(s) => r is Ok && r->Ok_0@ == s,
            },
        };
    let rows = b->Ok_0;
    assert(a == Ok::<(usize, usize), RustySatError>(columns));
    assert(b == Ok::<(usize, usize), RustySatError>(rows));
    let _ = lemma_span_holds_indices(a, lower.0, upper.0, source.width, excess);
    let _ = lemma_span_holds_indices(b, upper.1, lower.1, source.height, excess);
    if let Some(f) = factor {
        if columns.1 + f <= usize::MAX && f > 0 {
            lemma_divisible_is_stretched(columns, source.width, f);
        }
        if rows.1 + f <= usize::MAX && f > 0 {
            lemma_divisible_is_stretched(rows, source.height, f);
        }
    }
    (columns, rows)
}

/// The part of an area that a target covers is that between the lower left and the upper right
/// corner of the target.
pub proof fn lemma_slice_spans_target<
    P: Fn(String) -> Option<(F64, String)>,
    Z: Fn(F64, F64, usize) -> F64,
    C: Fn(F64, F64, F64) -> F64,
    R: Fn(F64, F64, F64) -> F64,
    H: Fn(F64) -> F64,
>(
    r: Result<AreaSlice>,
    source: AreaView,
    target: AreaView,
    factor: Option<usize>,
    read: P,
    pixel_size: Z,
    column: C,
    row: R,
    excess: H,
) -> (out: ((F64, F64), (F64, F64), (F64, F64), (F64, F64), (usize, usize), (usize, usize)))
    requires
        slices_outcome(r, source, target, factor, read, pixel_size, column, row, excess),
        r is Ok,
    ensures
        ({
            let (sizes, again, lower, upper, columns, rows) = out;
            let zero = F64 { bits: 0 };
            &&& forall|k: int| 0 <= k < 4 ==> (#[trigger] target.extent[k]).finite()
            &&& pixel_size.ensures((source.extent[0], source.extent[2], source.width), sizes.0)
            &&& pixel_size.ensures((source.extent[1], source.extent[3], source.height), sizes.1)
            &&& pixel_size.ensures((source.extent[0], source.extent[2], source.width), again.0)
            &&& pixel_size.ensures((source.extent[1], source.extent[3], source.height), again.1)
            &&& !sizes.0.at_most(zero) && !sizes.1.at_most(zero)
            &&& !again.0.at_most(zero) && !again.1.at_most(zero)
            &&& column.ensures((source.extent[0], sizes.0, target.extent[0]), lower.0)
            &&& row.ensures((source.extent[3], sizes.1, target.extent[1]), lower.1)
            &&& column.ensures((source.extent[0], again.0, target.extent[2]), upper.0)
            &&& row.ensures((source.extent[3], again.1, target.extent[3]), upper.1)
            &&& spans(r->Ok_0@, lower, upper, source, factor, excess, columns, rows)
        }),
{
    let e = target.extent;
    let p = choose|p: Result<(F64, F64)>| #[trigger]
        is_place(p, source, e[0], e[1], pixel_size, column, row) && match p {
            Err(e) => fails_with(r, e@),
            Ok(lower) => exists|q: Result<(F64, F64)>| #[trigger]
                is_place(q, source, e[2], e[3], pixel_size, column, row) && match q {
                    Err(e) => fails_with(r, e@),
                    Ok(upper) => is_cut(r, lower, upper, source, factor, excess),
                },
        };
    let lower = p->Ok_0;
    let q = choose|q: Result<(F64, F64)>| #[trigger]
        is_place(q, source, e[2], e[3], pixel_size, column, row) && match q {
            Err(e) => fails_with(r, e@),
            Ok(upper) => is_cut(r, lower, upper, source, factor, excess),
        };
    let upper = q->Ok_0;
    let sizes = lemma_place_of(p, source, e[0], e[1], pixel_size, column, row);
    let again = lemma_place_of(q, source, e[2], e[3], pixel_size, column, row);
    let (columns, rows) = lemma_cut_spans(r, lower, upper, source, factor, excess);
    (sizes, again, lower, upper, columns, rows)
}

proof fn lemma_place_of<
    Z: Fn(F64, F64, usize) -> F64,
    C: Fn(F64, F64, F64) -> F64,
    R: Fn(F64, F64, F64) -> F64,
>(
    r: Result<(F64, F64)>,
    a: AreaView,
    x: F64,
    y: F64,
    pixel_size: Z,
    column: C,
    row: R,
) -> (sizes: (F64, F64))
    requires
        is_place(r, a, x, y, pixel_size, column, row),
        r is Ok,
    ensures
        pixel_size.ensures((a.extent[0], a.extent[2], a.width), sizes.0),
        pixel_size.ensures((a.extent[1], a.extent[3], a.height), sizes.1),
        !sizes.0.at_most(F64 { bits: 0 }) && !sizes.1.at_most(F64 { bits: 0 }),
        column.ensures((a.extent[0], sizes.0, x), r->Ok_0.0),
        row.ensures((a.extent[3], sizes.1, y), r->Ok_0.1),
{
    let (sx, sy) = choose|sx: F64, sy: F64| #[trigger]
        sizes_are(a, pixel_size, sx, sy) && if sx.at_most(F64 { bits: 0 }) || sy.at_most(
            F64 { bits: 0 },
        ) {
            is_invalid(r, "source pixel sizes must be positive"@)
        } else {
            exists|px: F64, py: F64| #[trigger]
                place_is(a, sx, sy, x, y, column, row, px, py) && if px.finite() && py.finite() {
                    r is Ok && r->Ok_0 == (px, py)
                } else {
                    is_invalid(r, "slice coordinates must be finite"@)
                }
        };
    (sx, sy)
}

/// The area of a slice has the size and the reference of the slice, and reaches from its lower
/// left to its upper right corner.
pub proof fn lemma_area_of_slice<
    Z: Fn(F64, F64, usize) -> F64,
    A: Fn(F64, usize, F64) -> F64,
    B: Fn(F64, usize, F64) -> F64,
>(
    r: Result<AreaDefinition>,
    a: AreaView,
    s: SliceView,
    pixel_size: Z,
    offset: A,
    offset_down: B,
) -> (sizes: (F64, F64))
    requires
        slice_outcome(r, a, s, pixel_size, offset, offset_down),
        r is Ok,
        slice_ok(s),
    ensures
        s.x.1 <= a.width,
        s.y.1 <= a.height,
        r->Ok_0@.id == a.id,
        r->Ok_0@.projection == a.projection,
        s.x.0 + r->Ok_0@.width == s.x.1,
        s.y.0 + r->Ok_0@.height == s.y.1,
        pixel_size.ensures((a.extent[0], a.extent[2], a.width), sizes.0),
        pixel_size.ensures((a.extent[1], a.extent[3], a.height), sizes.1),
        offset.ensures((a.extent[0], s.x.0, sizes.0), r->Ok_0@.extent[0]),
        offset_down.ensures((a.extent[3], s.y.1, sizes.1), r->Ok_0@.extent[1]),
        offset.ensures((a.extent[0], s.x.1, sizes.0), r->Ok_0@.extent[2]),
        offset_down.ensures((a.extent[3], s.y.0, sizes.1), r->Ok_0@.extent[3]),
{
    let (sx, sy, extent) = choose|sx: F64, sy: F64, extent: Seq<F64>|
        #![trigger
            sizes_are(a, pixel_size, sx, sy),
            extent_is(a, s, sx, sy, offset, offset_down, extent)]
        sizes_are(a, pixel_size, sx, sy) && extent_is(
            a,
            s,
            sx,
            sy,
            offset,
            offset_down,
            extent,
        ) && area_outcome(
            r,
            a.id,
            a.description,
            a.proj_id,
            a.projection,
            (s.y.1 - s.y.0) as usize,
            (s.x.1 - s.x.0) as usize,
            extent,
        );
    (sx, sy)
}

} // verus!
